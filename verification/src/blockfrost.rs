use vstd::prelude::*;

use crate::db::{insert_plan, plan_insert_tx, DbWrite};
use crate::registry::{Protocol, ProtocolTx, ProtocolTxView};

verus! {

// ---------------------------------------------------------------------------
// The transaction description the chain indexer answers with
// ---------------------------------------------------------------------------

/// A token quantity as the chain indexer reports it.
pub struct BlockfrostAmount {
    pub unit: String,
    pub quantity: String,
}

pub struct BlockfrostAmountView {
    pub unit: Seq<char>,
    pub quantity: Seq<char>,
}

impl View for BlockfrostAmount {
    type V = BlockfrostAmountView;

    open spec fn view(&self) -> BlockfrostAmountView {
        BlockfrostAmountView { unit: self.unit@, quantity: self.quantity@ }
    }
}

impl DeepView for BlockfrostAmount {
    type V = BlockfrostAmountView;

    open spec fn deep_view(&self) -> BlockfrostAmountView {
        self@
    }
}

/// An output a transaction spends.
pub struct BlockfrostInput {
    pub address: String,
    pub tx_hash: String,
    pub output_index: u32,
    pub amount: Vec<BlockfrostAmount>,
    pub inline_datum: Option<String>,
}

pub struct BlockfrostInputView {
    pub address: Seq<char>,
    pub tx_hash: Seq<char>,
    pub output_index: u32,
    pub amount: Seq<BlockfrostAmountView>,
    pub inline_datum: Option<Seq<char>>,
}

impl View for BlockfrostInput {
    type V = BlockfrostInputView;

    open spec fn view(&self) -> BlockfrostInputView {
        BlockfrostInputView {
            address: self.address@,
            tx_hash: self.tx_hash@,
            output_index: self.output_index,
            amount: self.amount.deep_view(),
            inline_datum: self.inline_datum.deep_view(),
        }
    }
}

impl DeepView for BlockfrostInput {
    type V = BlockfrostInputView;

    open spec fn deep_view(&self) -> BlockfrostInputView {
        self@
    }
}

/// An output a transaction creates.
pub struct BlockfrostOutput {
    pub address: String,
    pub output_index: u32,
    pub amount: Vec<BlockfrostAmount>,
    pub inline_datum: Option<String>,
    pub consumed_by_tx: Option<String>,
}

pub struct BlockfrostOutputView {
    pub address: Seq<char>,
    pub output_index: u32,
    pub amount: Seq<BlockfrostAmountView>,
    pub inline_datum: Option<Seq<char>>,
    pub consumed_by_tx: Option<Seq<char>>,
}

impl View for BlockfrostOutput {
    type V = BlockfrostOutputView;

    open spec fn view(&self) -> BlockfrostOutputView {
        BlockfrostOutputView {
            address: self.address@,
            output_index: self.output_index,
            amount: self.amount.deep_view(),
            inline_datum: self.inline_datum.deep_view(),
            consumed_by_tx: self.consumed_by_tx.deep_view(),
        }
    }
}

impl DeepView for BlockfrostOutput {
    type V = BlockfrostOutputView;

    open spec fn deep_view(&self) -> BlockfrostOutputView {
        self@
    }
}

/// A transaction with the outputs it spends and creates.
pub struct BlockfrostResponse {
    pub hash: String,
    pub inputs: Vec<BlockfrostInput>,
    pub outputs: Vec<BlockfrostOutput>,
}

pub struct BlockfrostResponseView {
    pub hash: Seq<char>,
    pub inputs: Seq<BlockfrostInputView>,
    pub outputs: Seq<BlockfrostOutputView>,
}

impl View for BlockfrostResponse {
    type V = BlockfrostResponseView;

    open spec fn view(&self) -> BlockfrostResponseView {
        BlockfrostResponseView {
            hash: self.hash@,
            inputs: self.inputs.deep_view(),
            outputs: self.outputs.deep_view(),
        }
    }
}

// ---------------------------------------------------------------------------
// Matching a transaction against the protocol
// ---------------------------------------------------------------------------

/// Whether some output spent by `tx` sits at `address`.
pub open spec fn spends_from(tx: BlockfrostResponseView, address: Seq<char>) -> bool {
    exists|k: int| 0 <= k < tx.inputs.len() && #[trigger] tx.inputs[k].address == address
}

/// Whether some output created by `tx` sits at `address`.
pub open spec fn pays_to(tx: BlockfrostResponseView, address: Seq<char>) -> bool {
    exists|k: int| 0 <= k < tx.outputs.len() && #[trigger] tx.outputs[k].address == address
}

/// Whether `tx` is an instance of the protocol transaction `ptx`: it spends
/// from every input address and pays to every output address that `ptx`
/// names.
pub open spec fn fits(tx: BlockfrostResponseView, ptx: ProtocolTxView) -> bool {
    &&& forall|i: int| 0 <= i < ptx.inputs.len() ==> spends_from(tx, #[trigger] ptx.inputs[i])
    &&& forall|j: int| 0 <= j < ptx.outputs.len() ==> pays_to(tx, #[trigger] ptx.outputs[j])
}

/// The name of the first protocol transaction that `tx` is an instance of.
pub open spec fn first_fitting_name(tx: BlockfrostResponseView, txs: Seq<ProtocolTxView>) -> Option<
    Seq<char>,
>
    decreases txs.len(),
{
    if txs.len() == 0 {
        None
    } else if fits(tx, txs[0]) {
        Some(txs[0].name)
    } else {
        first_fitting_name(tx, txs.drop_first())
    }
}

fn spends_from_exec(tx: &BlockfrostResponse, address: &String) -> (r: bool)
    ensures
        r == spends_from(tx@, address@),
{
    let mut k: usize = 0;
    while k < tx.inputs.len()
        invariant
            k <= tx.inputs.len(),
            forall|m: int| 0 <= m < k ==> #[trigger] tx@.inputs[m].address != address@,
        decreases tx.inputs.len() - k,
    {
        if tx.inputs[k].address == *address {
            assert(tx@.inputs[k as int].address == address@);
            return true;
        }
        k = k + 1;
    }
    false
}

fn pays_to_exec(tx: &BlockfrostResponse, address: &String) -> (r: bool)
    ensures
        r == pays_to(tx@, address@),
{
    let mut k: usize = 0;
    while k < tx.outputs.len()
        invariant
            k <= tx.outputs.len(),
            forall|m: int| 0 <= m < k ==> #[trigger] tx@.outputs[m].address != address@,
        decreases tx.outputs.len() - k,
    {
        if tx.outputs[k].address == *address {
            assert(tx@.outputs[k as int].address == address@);
            return true;
        }
        k = k + 1;
    }
    false
}

fn fits_exec(tx: &BlockfrostResponse, ptx: &ProtocolTx) -> (r: bool)
    ensures
        r == fits(tx@, ptx@),
{
    let mut i: usize = 0;
    while i < ptx.inputs.len()
        invariant
            i <= ptx.inputs.len(),
            forall|m: int| 0 <= m < i ==> spends_from(tx@, #[trigger] ptx@.inputs[m]),
        decreases ptx.inputs.len() - i,
    {
        if !spends_from_exec(tx, &ptx.inputs[i]) {
            assert(!spends_from(tx@, ptx@.inputs[i as int]));
            return false;
        }
        i = i + 1;
    }
    let mut j: usize = 0;
    while j < ptx.outputs.len()
        invariant
            j <= ptx.outputs.len(),
            forall|m: int| 0 <= m < ptx@.inputs.len() ==> spends_from(tx@, #[trigger] ptx@.inputs[m]),
            forall|m: int| 0 <= m < j ==> pays_to(tx@, #[trigger] ptx@.outputs[m]),
        decreases ptx.outputs.len() - j,
    {
        if !pays_to_exec(tx, &ptx.outputs[j]) {
            assert(!pays_to(tx@, ptx@.outputs[j as int]));
            return false;
        }
        j = j + 1;
    }
    true
}

/// The name of the first transaction of the protocol, in declaration order,
/// of which `tx` is an instance; `None` when there is none.
pub fn get_matching_protocol_tx(tx: &BlockfrostResponse, protocol: &Protocol) -> (r: Option<String>)
    ensures
        r.deep_view() == first_fitting_name(tx@, protocol@),
        r is None <==> forall|k: int| 0 <= k < protocol@.len() ==> !fits(tx@, #[trigger] protocol@[k]),
        r is None <==> forall|k: int|
            0 <= k < protocol@.len() ==> !every_party_present(tx@, #[trigger] protocol@[k]),
        r matches Some(n) ==> exists|k: int|
            0 <= k < protocol@.len() && #[trigger] protocol@[k].name == n@ && every_party_present(
                tx@,
                protocol@[k],
            ) && forall|j: int| 0 <= j < k ==> !every_party_present(tx@, #[trigger] protocol@[j]),
{
    proof {
        law_match_requires_every_party(tx@, protocol@);
    }
    let ghost txs = protocol@;
    assert(txs.skip(0) =~= txs);
    let mut i: usize = 0;
    while i < protocol.txs.len()
        invariant
            i <= protocol.txs.len(),
            txs == protocol@,
            first_fitting_name(tx@, txs) == first_fitting_name(tx@, txs.skip(i as int)),
            forall|k: int| 0 <= k < i ==> !fits(tx@, #[trigger] txs[k]),
        decreases protocol.txs.len() - i,
    {
        let ptx = &protocol.txs[i];
        assert(txs.skip(i as int)[0] == txs[i as int]);
        if fits_exec(tx, ptx) {
            assert(first_fitting_name(tx@, txs) == Some(ptx@.name));
            proof {
                law_match_requires_every_party(tx@, txs);
            }
            return Some(ptx.name.clone());
        }
        assert(txs.skip(i as int).drop_first() =~= txs.skip(i as int + 1));
        i = i + 1;
    }
    None
}

/// What is stored of a transaction the indexer described: when it is an
/// instance of a protocol transaction, the name of the first such one and
/// the writes that store the transaction under it (keyed by the described
/// transaction's own hash); nothing otherwise.
pub fn writes_for_match(tx: &BlockfrostResponse, protocol: &Protocol) -> (r: Option<(String, Vec<DbWrite>)>)
    ensures
        match first_fitting_name(tx@, protocol@) {
            None => r is None,
            Some(n) => (r matches Some(p) && p.0@ == n && p.1.deep_view() == insert_plan(n, tx@)),
        },
{
    match get_matching_protocol_tx(tx, protocol) {
        Some(name) => {
            let writes = plan_insert_tx(name.as_str(), tx);
            Some((name, writes))
        },
        None => None,
    }
}

/// The indexer address that describes the outputs of transaction `tx_hash`.
pub fn utxos_url(base_url: &str, tx_hash: &str) -> (r: String)
    ensures
        r@ == base_url@ + "/txs/"@ + tx_hash@ + "/utxos"@,
{
    let url = String::from_str(base_url);
    let url = url.concat("/txs/");
    let url = url.concat(tx_hash);
    url.concat("/utxos")
}

// ---------------------------------------------------------------------------
// Laws
// ---------------------------------------------------------------------------

/// A transaction that is an instance of a protocol transaction stays one
/// when it spends from and pays to more addresses.
pub proof fn law_fit_survives_more_parties(
    tx: BlockfrostResponseView,
    wider: BlockfrostResponseView,
    ptx: ProtocolTxView,
)
    requires
        fits(tx, ptx),
        forall|a: Seq<char>| spends_from(tx, a) ==> #[trigger] spends_from(wider, a),
        forall|a: Seq<char>| pays_to(tx, a) ==> #[trigger] pays_to(wider, a),
    ensures
        fits(wider, ptx),
{
    assert forall|i: int| 0 <= i < ptx.inputs.len() implies spends_from(wider, #[trigger] ptx.inputs[i]) by {
        assert(spends_from(tx, ptx.inputs[i]));
    }
    assert forall|j: int| 0 <= j < ptx.outputs.len() implies pays_to(wider, #[trigger] ptx.outputs[j]) by {
        assert(pays_to(tx, ptx.outputs[j]));
    }
}

/// The name a transaction is matched under is that of a declared protocol
/// transaction it is an instance of, and of no earlier declared one is it an
/// instance; no name comes out exactly when it fits none.
pub proof fn law_match_is_first_fitting(tx: BlockfrostResponseView, txs: Seq<ProtocolTxView>)
    ensures
        first_fitting_name(tx, txs) matches Some(n) ==> exists|k: int|
            0 <= k < txs.len() && #[trigger] txs[k].name == n && fits(tx, txs[k]) && forall|j: int|
                0 <= j < k ==> !fits(tx, #[trigger] txs[j]),
        first_fitting_name(tx, txs) is None <==> forall|k: int|
            0 <= k < txs.len() ==> !fits(tx, #[trigger] txs[k]),
    decreases txs.len(),
{
    if txs.len() > 0 {
        let rest = txs.drop_first();
        law_match_is_first_fitting(tx, rest);
        if fits(tx, txs[0]) {
            assert(txs[0].name == txs[0].name);
        } else {
            if let Some(n) = first_fitting_name(tx, rest) {
                let k = choose|k: int|
                    0 <= k < rest.len() && #[trigger] rest[k].name == n && fits(tx, rest[k]) && forall|j: int|
                        0 <= j < k ==> !fits(tx, #[trigger] rest[j]);
                assert(txs[k + 1] == rest[k]);
                assert forall|j: int| 0 <= j < k + 1 implies !fits(tx, #[trigger] txs[j]) by {
                    if j > 0 {
                        assert(txs[j] == rest[j - 1]);
                    }
                }
            }
            if forall|k: int| 0 <= k < rest.len() ==> !fits(tx, #[trigger] rest[k]) {
                assert forall|k: int| 0 <= k < txs.len() implies !fits(tx, #[trigger] txs[k]) by {
                    if k > 0 {
                        assert(txs[k] == rest[k - 1]);
                    }
                }
            } else {
                let k = choose|k: int| 0 <= k < rest.len() && fits(tx, #[trigger] rest[k]);
                assert(txs[k + 1] == rest[k]);
            }
        }
    }
}


/// The addresses of the outputs `tx` spends, in order.
pub open spec fn spent_addresses(tx: BlockfrostResponseView) -> Seq<Seq<char>> {
    tx.inputs.map_values(|x: BlockfrostInputView| x.address)
}

/// The addresses of the outputs `tx` creates, in order.
pub open spec fn paid_addresses(tx: BlockfrostResponseView) -> Seq<Seq<char>> {
    tx.outputs.map_values(|x: BlockfrostOutputView| x.address)
}

/// A transaction is matched under a name exactly when, for some declared
/// protocol transaction of that name and none before it, each of its input
/// parties is among the addresses the transaction spends from and each of
/// its output parties among the addresses the transaction pays to.
pub proof fn law_match_requires_every_party(tx: BlockfrostResponseView, txs: Seq<ProtocolTxView>)
    ensures
        first_fitting_name(tx, txs) matches Some(n) ==> exists|k: int|
            0 <= k < txs.len() && #[trigger] txs[k].name == n && every_party_present(tx, txs[k])
                && forall|j: int| 0 <= j < k ==> !every_party_present(tx, #[trigger] txs[j]),
        first_fitting_name(tx, txs) is None <==> forall|k: int|
            0 <= k < txs.len() ==> !every_party_present(tx, #[trigger] txs[k]),
{
    law_match_is_first_fitting(tx, txs);
    assert forall|k: int| 0 <= k < txs.len() implies fits(tx, #[trigger] txs[k]) == every_party_present(
        tx,
        txs[k],
    ) by {
        lemma_fits_is_every_party_present(tx, txs[k]);
    }
}

/// Each input party of `ptx` is the address of some output `tx` spends, and
/// each output party the address of some output `tx` creates.
pub open spec fn every_party_present(tx: BlockfrostResponseView, ptx: ProtocolTxView) -> bool {
    &&& forall|i: int|
        0 <= i < ptx.inputs.len() ==> tx.inputs.map_values(|x: BlockfrostInputView| x.address).contains(
            #[trigger] ptx.inputs[i],
        )
    &&& forall|j: int|
        0 <= j < ptx.outputs.len() ==> tx.outputs.map_values(|x: BlockfrostOutputView| x.address).contains(
            #[trigger] ptx.outputs[j],
        )
}

proof fn lemma_fits_is_every_party_present(tx: BlockfrostResponseView, ptx: ProtocolTxView)
    ensures
        fits(tx, ptx) == every_party_present(tx, ptx),
{
    let sp = tx.inputs.map_values(|x: BlockfrostInputView| x.address);
    let pd = tx.outputs.map_values(|x: BlockfrostOutputView| x.address);
    assert forall|a: Seq<char>| #[trigger] sp.contains(a) == spends_from(tx, a) by {
        if spends_from(tx, a) {
            let k = choose|k: int| 0 <= k < tx.inputs.len() && #[trigger] tx.inputs[k].address == a;
            assert(sp[k] == a);
        }
        if sp.contains(a) {
            let k = choose|k: int| 0 <= k < sp.len() && sp[k] == a;
            assert(tx.inputs[k].address == a);
        }
    }
    assert forall|a: Seq<char>| #[trigger] pd.contains(a) == pays_to(tx, a) by {
        if pays_to(tx, a) {
            let k = choose|k: int| 0 <= k < tx.outputs.len() && #[trigger] tx.outputs[k].address == a;
            assert(pd[k] == a);
        }
        if pd.contains(a) {
            let k = choose|k: int| 0 <= k < pd.len() && pd[k] == a;
            assert(tx.outputs[k].address == a);
        }
    }
}

} // verus!
