use vstd::prelude::*;

use crate::blockfrost::{
    BlockfrostAmount, BlockfrostAmountView, BlockfrostInputView, BlockfrostOutputView,
    BlockfrostResponse, BlockfrostResponseView,
};

verus! {

// ---------------------------------------------------------------------------
// Stored rows and assembled responses
// ---------------------------------------------------------------------------

/// A token quantity held by an unspent output.
pub struct Amount {
    pub unit: String,
    pub quantity: String,
}

pub struct AmountView {
    pub unit: Seq<char>,
    pub quantity: Seq<char>,
}

impl View for Amount {
    type V = AmountView;

    open spec fn view(&self) -> AmountView {
        AmountView { unit: self.unit@, quantity: self.quantity@ }
    }
}

impl DeepView for Amount {
    type V = AmountView;

    open spec fn deep_view(&self) -> AmountView {
        self@
    }
}

/// A transaction output as it is shown on either side of a transaction.
pub struct Utxo {
    pub address: String,
    pub tx_hash: String,
    pub output_index: u32,
    pub amount: Vec<Amount>,
    pub datum: Option<String>,
    pub consumed_by_tx: Option<String>,
}

pub struct UtxoView {
    pub address: Seq<char>,
    pub tx_hash: Seq<char>,
    pub output_index: u32,
    pub amount: Seq<AmountView>,
    pub datum: Option<Seq<char>>,
    pub consumed_by_tx: Option<Seq<char>>,
}

impl View for Utxo {
    type V = UtxoView;

    open spec fn view(&self) -> UtxoView {
        UtxoView {
            address: self.address@,
            tx_hash: self.tx_hash@,
            output_index: self.output_index,
            amount: self.amount.deep_view(),
            datum: self.datum.deep_view(),
            consumed_by_tx: self.consumed_by_tx.deep_view(),
        }
    }
}

impl DeepView for Utxo {
    type V = UtxoView;

    open spec fn deep_view(&self) -> UtxoView {
        self@
    }
}

/// A matched transaction together with the outputs it spent and created.
pub struct TxResponse {
    pub hash: String,
    pub tx_name: String,
    pub inputs: Vec<Utxo>,
    pub outputs: Vec<Utxo>,
}

pub struct TxResponseView {
    pub hash: Seq<char>,
    pub tx_name: Seq<char>,
    pub inputs: Seq<UtxoView>,
    pub outputs: Seq<UtxoView>,
}

impl View for TxResponse {
    type V = TxResponseView;

    open spec fn view(&self) -> TxResponseView {
        TxResponseView {
            hash: self.hash@,
            tx_name: self.tx_name@,
            inputs: self.inputs.deep_view(),
            outputs: self.outputs.deep_view(),
        }
    }
}

impl DeepView for TxResponse {
    type V = TxResponseView;

    open spec fn deep_view(&self) -> TxResponseView {
        self@
    }
}

/// A row of the `txs` table.
pub struct TxRow {
    pub hash: String,
    pub tx_name: String,
}

pub struct TxRowView {
    pub hash: Seq<char>,
    pub tx_name: Seq<char>,
}

impl View for TxRow {
    type V = TxRowView;

    open spec fn view(&self) -> TxRowView {
        TxRowView { hash: self.hash@, tx_name: self.tx_name@ }
    }
}

impl DeepView for TxRow {
    type V = TxRowView;

    open spec fn deep_view(&self) -> TxRowView {
        self@
    }
}

/// A row of the `utxos` table.
pub struct UtxoRow {
    pub tx_hash: String,
    pub output_index: i64,
    pub address: String,
    pub consumed_by_tx: Option<String>,
    pub datum: Option<String>,
}

pub struct UtxoRowView {
    pub tx_hash: Seq<char>,
    pub output_index: i64,
    pub address: Seq<char>,
    pub consumed_by_tx: Option<Seq<char>>,
    pub datum: Option<Seq<char>>,
}

impl View for UtxoRow {
    type V = UtxoRowView;

    open spec fn view(&self) -> UtxoRowView {
        UtxoRowView {
            tx_hash: self.tx_hash@,
            output_index: self.output_index,
            address: self.address@,
            consumed_by_tx: self.consumed_by_tx.deep_view(),
            datum: self.datum.deep_view(),
        }
    }
}

impl DeepView for UtxoRow {
    type V = UtxoRowView;

    open spec fn deep_view(&self) -> UtxoRowView {
        self@
    }
}

/// A row of the `utxo_amount` table.
pub struct AmountRow {
    pub tx_hash: String,
    pub output_index: i64,
    pub unit: String,
    pub quantity: String,
}

pub struct AmountRowView {
    pub tx_hash: Seq<char>,
    pub output_index: i64,
    pub unit: Seq<char>,
    pub quantity: Seq<char>,
}

impl View for AmountRow {
    type V = AmountRowView;

    open spec fn view(&self) -> AmountRowView {
        AmountRowView {
            tx_hash: self.tx_hash@,
            output_index: self.output_index,
            unit: self.unit@,
            quantity: self.quantity@,
        }
    }
}

impl DeepView for AmountRow {
    type V = AmountRowView;

    open spec fn deep_view(&self) -> AmountRowView {
        self@
    }
}

/// What can go wrong while turning stored rows into responses.
#[derive(PartialEq, Eq, Structural)]
pub enum DbError {
    /// A stored output index does not fit the output index type.
    InvalidOutputIndex,
}

// ---------------------------------------------------------------------------
// Specification of response assembly
// ---------------------------------------------------------------------------

/// Whether a stored output index is one an output can have.
pub open spec fn index_in_range(i: i64) -> bool {
    0 <= i <= u32::MAX
}

pub open spec fn all_indices_in_range(utxos: Seq<UtxoRowView>) -> bool {
    forall|k: int| 0 <= k < utxos.len() ==> index_in_range(#[trigger] utxos[k].output_index)
}

/// The amounts stored for the output `(tx_hash, output_index)`, in row order.
pub open spec fn amounts_of(rows: Seq<AmountRowView>, tx_hash: Seq<char>, output_index: i64) -> Seq<
    AmountView,
>
    decreases rows.len(),
{
    if rows.len() == 0 {
        Seq::empty()
    } else {
        let prev = amounts_of(rows.drop_last(), tx_hash, output_index);
        let last = rows.last();
        if last.tx_hash == tx_hash && last.output_index == output_index {
            prev.push(AmountView { unit: last.unit, quantity: last.quantity })
        } else {
            prev
        }
    }
}

/// The output described by a stored row, with its amounts attached.
pub open spec fn utxo_of(row: UtxoRowView, amounts: Seq<AmountRowView>) -> UtxoView {
    UtxoView {
        address: row.address,
        tx_hash: row.tx_hash,
        output_index: row.output_index as u32,
        amount: amounts_of(amounts, row.tx_hash, row.output_index),
        datum: row.datum,
        consumed_by_tx: row.consumed_by_tx,
    }
}

/// The outputs created by transaction `hash`, in row order.
pub open spec fn produced_by(utxos: Seq<UtxoRowView>, amounts: Seq<AmountRowView>, hash: Seq<char>) -> Seq<
    UtxoView,
>
    decreases utxos.len(),
{
    if utxos.len() == 0 {
        Seq::empty()
    } else {
        let prev = produced_by(utxos.drop_last(), amounts, hash);
        if utxos.last().tx_hash == hash {
            prev.push(utxo_of(utxos.last(), amounts))
        } else {
            prev
        }
    }
}

/// The outputs spent by transaction `hash`, in row order.
pub open spec fn consumed_by(utxos: Seq<UtxoRowView>, amounts: Seq<AmountRowView>, hash: Seq<char>) -> Seq<
    UtxoView,
>
    decreases utxos.len(),
{
    if utxos.len() == 0 {
        Seq::empty()
    } else {
        let prev = consumed_by(utxos.drop_last(), amounts, hash);
        if utxos.last().consumed_by_tx == Some(hash) {
            prev.push(utxo_of(utxos.last(), amounts))
        } else {
            prev
        }
    }
}

/// Whether row `i` is the first row carrying its hash.
pub open spec fn is_first_occurrence(rows: Seq<TxRowView>, i: int) -> bool {
    forall|j: int| 0 <= j < i ==> #[trigger] rows[j].hash != rows[i].hash
}

/// The response for row `i`: the first row with a given hash receives that
/// transaction's outputs on both sides, a repeated row receives none.
pub open spec fn response_of(
    rows: Seq<TxRowView>,
    i: int,
    utxos: Seq<UtxoRowView>,
    amounts: Seq<AmountRowView>,
) -> TxResponseView {
    let row = rows[i];
    if is_first_occurrence(rows, i) {
        TxResponseView {
            hash: row.hash,
            tx_name: row.tx_name,
            inputs: consumed_by(utxos, amounts, row.hash),
            outputs: produced_by(utxos, amounts, row.hash),
        }
    } else {
        TxResponseView {
            hash: row.hash,
            tx_name: row.tx_name,
            inputs: Seq::empty(),
            outputs: Seq::empty(),
        }
    }
}

/// The responses for all rows, in row order.
pub open spec fn responses_of(
    rows: Seq<TxRowView>,
    utxos: Seq<UtxoRowView>,
    amounts: Seq<AmountRowView>,
) -> Seq<TxResponseView> {
    Seq::new(rows.len(), |i: int| response_of(rows, i, utxos, amounts))
}

// ---------------------------------------------------------------------------
// Response assembly
// ---------------------------------------------------------------------------

fn clone_opt_string(s: &Option<String>) -> (r: Option<String>)
    ensures
        r.deep_view() == s.deep_view(),
{
    match s {
        Some(v) => Some(v.clone()),
        None => None,
    }
}

proof fn lemma_take_last<A>(s: Seq<A>, i: int)
    requires
        0 <= i < s.len(),
    ensures
        s.take(i + 1).drop_last() == s.take(i),
        s.take(i + 1).last() == s[i],
{
    assert(s.take(i + 1).drop_last() =~= s.take(i));
}

/// The amounts stored for one output.
fn amounts_for(amounts: &Vec<AmountRow>, tx_hash: &String, output_index: i64) -> (r: Vec<Amount>)
    ensures
        r.deep_view() == amounts_of(amounts.deep_view(), tx_hash@, output_index),
{
    let mut r: Vec<Amount> = Vec::new();
    let ghost all = amounts.deep_view();
    let mut i: usize = 0;
    while i < amounts.len()
        invariant
            i <= amounts.len(),
            all == amounts.deep_view(),
            r.deep_view() == amounts_of(all.take(i as int), tx_hash@, output_index),
        decreases amounts.len() - i,
    {
        proof {
            lemma_take_last(all, i as int);
        }
        let row = &amounts[i];
        if row.tx_hash == *tx_hash && row.output_index == output_index {
            let ghost before = r.deep_view();
            r.push(Amount { unit: row.unit.clone(), quantity: row.quantity.clone() });
            assert(r.deep_view() =~= before.push(AmountView { unit: row.unit@, quantity: row.quantity@ }));
        }
        i = i + 1;
    }
    assert(all.take(amounts.len() as int) =~= all);
    r
}

fn utxo_from_row(row: &UtxoRow, amounts: &Vec<AmountRow>) -> (u: Utxo)
    requires
        index_in_range(row.output_index),
    ensures
        u@ == utxo_of(row@, amounts.deep_view()),
{
    let output_index: u32 = row.output_index as u32;
    Utxo {
        address: row.address.clone(),
        tx_hash: row.tx_hash.clone(),
        output_index,
        amount: amounts_for(amounts, &row.tx_hash, row.output_index),
        datum: clone_opt_string(&row.datum),
        consumed_by_tx: clone_opt_string(&row.consumed_by_tx),
    }
}

/// The outputs created by transaction `hash`.
fn produced_utxos(utxos: &Vec<UtxoRow>, amounts: &Vec<AmountRow>, hash: &String) -> (r: Vec<Utxo>)
    requires
        all_indices_in_range(utxos.deep_view()),
    ensures
        r.deep_view() == produced_by(utxos.deep_view(), amounts.deep_view(), hash@),
{
    let mut r: Vec<Utxo> = Vec::new();
    let ghost all = utxos.deep_view();
    let mut i: usize = 0;
    while i < utxos.len()
        invariant
            i <= utxos.len(),
            all == utxos.deep_view(),
            all_indices_in_range(all),
            r.deep_view() == produced_by(all.take(i as int), amounts.deep_view(), hash@),
        decreases utxos.len() - i,
    {
        proof {
            lemma_take_last(all, i as int);
        }
        let row = &utxos[i];
        if row.tx_hash == *hash {
            assert(index_in_range(all[i as int].output_index));
            let ghost before = r.deep_view();
            let u = utxo_from_row(row, amounts);
            r.push(u);
            assert(r.deep_view() =~= before.push(utxo_of(row@, amounts.deep_view())));
        }
        i = i + 1;
    }
    assert(all.take(utxos.len() as int) =~= all);
    r
}

/// The outputs spent by transaction `hash`.
fn consumed_utxos(utxos: &Vec<UtxoRow>, amounts: &Vec<AmountRow>, hash: &String) -> (r: Vec<Utxo>)
    requires
        all_indices_in_range(utxos.deep_view()),
    ensures
        r.deep_view() == consumed_by(utxos.deep_view(), amounts.deep_view(), hash@),
{
    let mut r: Vec<Utxo> = Vec::new();
    let ghost all = utxos.deep_view();
    let mut i: usize = 0;
    while i < utxos.len()
        invariant
            i <= utxos.len(),
            all == utxos.deep_view(),
            all_indices_in_range(all),
            r.deep_view() == consumed_by(all.take(i as int), amounts.deep_view(), hash@),
        decreases utxos.len() - i,
    {
        proof {
            lemma_take_last(all, i as int);
        }
        let row = &utxos[i];
        let spent_here = match &row.consumed_by_tx {
            Some(c) => *c == *hash,
            None => false,
        };
        if spent_here {
            assert(index_in_range(all[i as int].output_index));
            let ghost before = r.deep_view();
            let u = utxo_from_row(row, amounts);
            r.push(u);
            assert(r.deep_view() =~= before.push(utxo_of(row@, amounts.deep_view())));
        }
        i = i + 1;
    }
    assert(all.take(utxos.len() as int) =~= all);
    r
}

/// Whether every stored output index fits the output index type.
fn indices_in_range(utxos: &Vec<UtxoRow>) -> (r: bool)
    ensures
        r == all_indices_in_range(utxos.deep_view()),
{
    let mut i: usize = 0;
    while i < utxos.len()
        invariant
            i <= utxos.len(),
            forall|k: int| 0 <= k < i ==> index_in_range(#[trigger] utxos.deep_view()[k].output_index),
        decreases utxos.len() - i,
    {
        let idx = utxos[i].output_index;
        if idx < 0 || idx > 4294967295 {
            assert(!index_in_range(utxos.deep_view()[i as int].output_index));
            return false;
        }
        i = i + 1;
    }
    true
}

/// Whether some row before row `i` carries the same hash.
fn hash_seen_before(rows: &Vec<TxRow>, i: usize) -> (r: bool)
    requires
        i < rows.len(),
    ensures
        r == !is_first_occurrence(rows.deep_view(), i as int),
{
    let mut j: usize = 0;
    while j < i
        invariant
            j <= i < rows.len(),
            forall|k: int| 0 <= k < j ==> #[trigger] rows.deep_view()[k].hash != rows.deep_view()[i as int].hash,
        decreases i - j,
    {
        if rows[j].hash == rows[i].hash {
            assert(rows.deep_view()[j as int].hash == rows.deep_view()[i as int].hash);
            return true;
        }
        j = j + 1;
    }
    false
}

/// Assembles stored rows into responses: one per transaction row, in row
/// order, each carrying the outputs its transaction spent (`inputs`) and
/// created (`outputs`), every output with its stored amounts. Fails when a
/// stored output index does not fit the output index type.
pub fn build_responses(rows: Vec<TxRow>, utxos: Vec<UtxoRow>, amounts: Vec<AmountRow>) -> (r:
    Result<Vec<TxResponse>, DbError>)
    ensures
        r is Err <==> !all_indices_in_range(utxos.deep_view()),
        r matches Err(e) ==> e == DbError::InvalidOutputIndex,
        r matches Ok(responses) ==> responses.deep_view() == responses_of(
            rows.deep_view(),
            utxos.deep_view(),
            amounts.deep_view(),
        ),
{
    if !indices_in_range(&utxos) {
        return Err(DbError::InvalidOutputIndex);
    }
    let ghost expected = responses_of(rows.deep_view(), utxos.deep_view(), amounts.deep_view());
    let mut responses: Vec<TxResponse> = Vec::new();
    let mut i: usize = 0;
    while i < rows.len()
        invariant
            i <= rows.len(),
            all_indices_in_range(utxos.deep_view()),
            expected == responses_of(rows.deep_view(), utxos.deep_view(), amounts.deep_view()),
            responses.deep_view() == expected.take(i as int),
        decreases rows.len() - i,
    {
        let row = &rows[i];
        let repeated = hash_seen_before(&rows, i);
        let response = if repeated {
            TxResponse {
                hash: row.hash.clone(),
                tx_name: row.tx_name.clone(),
                inputs: Vec::new(),
                outputs: Vec::new(),
            }
        } else {
            TxResponse {
                hash: row.hash.clone(),
                tx_name: row.tx_name.clone(),
                inputs: consumed_utxos(&utxos, &amounts, &row.hash),
                outputs: produced_utxos(&utxos, &amounts, &row.hash),
            }
        };
        proof {
            assert(response@.inputs =~= expected[i as int].inputs);
            assert(response@.outputs =~= expected[i as int].outputs);
            assert(response@ == expected[i as int]);
        }
        let ghost before = responses.deep_view();
        let ghost rv = response@;
        responses.push(response);
        assert(responses.deep_view() =~= before.push(rv));
        assert(expected.take(i as int + 1) =~= expected.take(i as int).push(expected[i as int]));
        i = i + 1;
    }
    assert(expected.take(rows.len() as int) =~= expected);
    Ok(responses)
}


// ---------------------------------------------------------------------------
// Row selection for a set of transactions
// ---------------------------------------------------------------------------

/// The key that identifies a stored output: producing transaction and index.
pub open spec fn row_key(r: UtxoRowView) -> (Seq<char>, i64) {
    (r.tx_hash, r.output_index)
}

/// Whether some row of `s` has key `key`.
pub open spec fn has_key(s: Seq<UtxoRowView>, key: (Seq<char>, i64)) -> bool {
    exists|j: int| 0 <= j < s.len() && #[trigger] row_key(s[j]) == key
}

/// The rows of `s` whose key no earlier row carries: the first row of each key,
/// in order.
pub open spec fn first_of_each_key(s: Seq<UtxoRowView>) -> Seq<UtxoRowView>
    decreases s.len(),
{
    if s.len() == 0 {
        Seq::empty()
    } else {
        let prev = first_of_each_key(s.drop_last());
        if has_key(s.drop_last(), row_key(s.last())) {
            prev
        } else {
            prev.push(s.last())
        }
    }
}

/// Whether no two rows of `s` share a key.
pub open spec fn keys_distinct(s: Seq<UtxoRowView>) -> bool {
    forall|i: int, j: int|
        0 <= i < s.len() && 0 <= j < s.len() && i != j ==> #[trigger] row_key(s[i]) != #[trigger] row_key(
            s[j],
        )
}

/// The stored amount rows that belong to one of the outputs `utxos`, in row order.
pub open spec fn amounts_of_outputs(rows: Seq<AmountRowView>, utxos: Seq<UtxoRowView>) -> Seq<
    AmountRowView,
>
    decreases rows.len(),
{
    if rows.len() == 0 {
        Seq::empty()
    } else {
        let prev = amounts_of_outputs(rows.drop_last(), utxos);
        let last = rows.last();
        if has_key(utxos, (last.tx_hash, last.output_index)) {
            prev.push(last)
        } else {
            prev
        }
    }
}

/// The producing transactions of `s`, each once, in order of first appearance.
pub open spec fn producing_hashes(s: Seq<UtxoRowView>) -> Seq<Seq<char>>
    decreases s.len(),
{
    if s.len() == 0 {
        Seq::empty()
    } else {
        let prev = producing_hashes(s.drop_last());
        if prev.contains(s.last().tx_hash) {
            prev
        } else {
            prev.push(s.last().tx_hash)
        }
    }
}

proof fn lemma_first_of_each_key_keys(s: Seq<UtxoRowView>, key: (Seq<char>, i64))
    ensures
        has_key(first_of_each_key(s), key) == has_key(s, key),
    decreases s.len(),
{
    if s.len() > 0 {
        let p = s.drop_last();
        lemma_first_of_each_key_keys(p, key);
        lemma_first_of_each_key_keys(p, row_key(s.last()));
        let prev = first_of_each_key(p);
        if has_key(s, key) {
            let j = choose|j: int| 0 <= j < s.len() && #[trigger] row_key(s[j]) == key;
            if j < s.len() - 1 {
                assert(row_key(p[j]) == key);
                let k = choose|k: int| 0 <= k < prev.len() && #[trigger] row_key(prev[k]) == key;
                if !has_key(p, row_key(s.last())) {
                    assert(row_key(prev.push(s.last())[k]) == key);
                }
            } else if !has_key(p, row_key(s.last())) {
                assert(row_key(prev.push(s.last())[prev.len() as int]) == key);
            }
        }
        if has_key(first_of_each_key(s), key) {
            let r = first_of_each_key(s);
            let j = choose|j: int| 0 <= j < r.len() && #[trigger] row_key(r[j]) == key;
            if !has_key(p, row_key(s.last())) && j == prev.len() {
                assert(row_key(s[s.len() - 1]) == key);
            } else {
                assert(row_key(prev[j]) == key);
                let k = choose|k: int| 0 <= k < p.len() && #[trigger] row_key(p[k]) == key;
                assert(row_key(s[k]) == key);
            }
        }
    }
}

proof fn lemma_first_of_each_key_distinct(s: Seq<UtxoRowView>)
    ensures
        keys_distinct(first_of_each_key(s)),
    decreases s.len(),
{
    if s.len() > 0 {
        let p = s.drop_last();
        lemma_first_of_each_key_distinct(p);
        lemma_first_of_each_key_keys(p, row_key(s.last()));
        let prev = first_of_each_key(p);
        if !has_key(p, row_key(s.last())) {
            let r = prev.push(s.last());
            assert forall|i: int, j: int|
                0 <= i < r.len() && 0 <= j < r.len() && i != j implies #[trigger] row_key(r[i])
                != #[trigger] row_key(r[j]) by {
                if i == prev.len() as int {
                    assert(row_key(prev[j]) != row_key(s.last()));
                } else if j == prev.len() as int {
                    assert(row_key(prev[i]) != row_key(s.last()));
                } else {
                    assert(row_key(prev[i]) != row_key(prev[j]));
                }
            }
        }
    }
}

proof fn lemma_first_of_each_key_of_distinct(s: Seq<UtxoRowView>)
    requires
        keys_distinct(s),
    ensures
        first_of_each_key(s) == s,
    decreases s.len(),
{
    if s.len() > 0 {
        let p = s.drop_last();
        assert(keys_distinct(p)) by {
            assert forall|i: int, j: int|
                0 <= i < p.len() && 0 <= j < p.len() && i != j implies #[trigger] row_key(p[i])
                != #[trigger] row_key(p[j]) by {
                assert(row_key(s[i]) != row_key(s[j]));
            }
        }
        lemma_first_of_each_key_of_distinct(p);
        if has_key(p, row_key(s.last())) {
            let j = choose|j: int| 0 <= j < p.len() && #[trigger] row_key(p[j]) == row_key(s.last());
            assert(row_key(s[j]) != row_key(s[s.len() - 1]));
        }
        assert(p.push(s.last()) =~= s);
    }
}

proof fn lemma_contains_push<A>(s: Seq<A>, x: A, y: A)
    ensures
        s.push(x).contains(y) == (s.contains(y) || x == y),
{
    if s.contains(y) {
        let k = choose|k: int| 0 <= k < s.len() && s[k] == y;
        assert(s.push(x)[k] == y);
    }
    if x == y {
        assert(s.push(x)[s.len() as int] == y);
    }
    if s.push(x).contains(y) {
        let k = choose|k: int| 0 <= k < s.push(x).len() && s.push(x)[k] == y;
        if k < s.len() {
            assert(s[k] == y);
        }
    }
}

fn clone_utxo_row(r: &UtxoRow) -> (c: UtxoRow)
    ensures
        c@ == r@,
{
    UtxoRow {
        tx_hash: r.tx_hash.clone(),
        output_index: r.output_index,
        address: r.address.clone(),
        consumed_by_tx: clone_opt_string(&r.consumed_by_tx),
        datum: clone_opt_string(&r.datum),
    }
}

fn clone_amount_row(r: &AmountRow) -> (c: AmountRow)
    ensures
        c@ == r@,
{
    AmountRow {
        tx_hash: r.tx_hash.clone(),
        output_index: r.output_index,
        unit: r.unit.clone(),
        quantity: r.quantity.clone(),
    }
}

/// Whether some row of `rows` has the key `(tx_hash, output_index)`.
fn rows_have_key(rows: &Vec<UtxoRow>, tx_hash: &String, output_index: i64) -> (r: bool)
    ensures
        r == has_key(rows.deep_view(), (tx_hash@, output_index)),
{
    let mut i: usize = 0;
    while i < rows.len()
        invariant
            i <= rows.len(),
            forall|k: int| 0 <= k < i ==> #[trigger] row_key(rows.deep_view()[k]) != (tx_hash@, output_index),
        decreases rows.len() - i,
    {
        if rows[i].tx_hash == *tx_hash && rows[i].output_index == output_index {
            assert(row_key(rows.deep_view()[i as int]) == (tx_hash@, output_index));
            return true;
        }
        i = i + 1;
    }
    false
}

/// Keeps the first row of each output key, in order.
fn dedup_utxo_rows(rows: &Vec<UtxoRow>) -> (r: Vec<UtxoRow>)
    ensures
        r.deep_view() == first_of_each_key(rows.deep_view()),
{
    let ghost all = rows.deep_view();
    let mut r: Vec<UtxoRow> = Vec::new();
    let mut i: usize = 0;
    while i < rows.len()
        invariant
            i <= rows.len(),
            all == rows.deep_view(),
            r.deep_view() == first_of_each_key(all.take(i as int)),
        decreases rows.len() - i,
    {
        proof {
            lemma_take_last(all, i as int);
            lemma_first_of_each_key_keys(all.take(i as int), row_key(all[i as int]));
        }
        let row = &rows[i];
        if !rows_have_key(&r, &row.tx_hash, row.output_index) {
            let ghost before = r.deep_view();
            r.push(clone_utxo_row(row));
            assert(r.deep_view() =~= before.push(row@));
        }
        i = i + 1;
    }
    assert(all.take(rows.len() as int) =~= all);
    r
}

/// Joins the outputs found through their producing transaction with those
/// found through their spending transaction, keeping the first row of each
/// output key.
pub fn merge_utxo_rows(produced: Vec<UtxoRow>, spent: Vec<UtxoRow>) -> (r: Vec<UtxoRow>)
    ensures
        r.deep_view() == first_of_each_key(produced.deep_view() + spent.deep_view()),
        keys_distinct(r.deep_view()),
        forall|key: (Seq<char>, i64)|
            has_key(r.deep_view(), key) == (has_key(produced.deep_view(), key) || has_key(
                spent.deep_view(),
                key,
            )),
{
    let ghost p = produced.deep_view();
    let ghost q = spent.deep_view();
    let mut rows = produced;
    let mut more = spent;
    rows.append(&mut more);
    assert(rows.deep_view() =~= p + q);
    let r = dedup_utxo_rows(&rows);
    proof {
        lemma_first_of_each_key_distinct(p + q);
        assert forall|key: (Seq<char>, i64)|
            has_key(r.deep_view(), key) == (has_key(p, key) || has_key(q, key)) by {
            lemma_first_of_each_key_keys(p + q, key);
            if has_key(p + q, key) {
                let j = choose|j: int| 0 <= j < (p + q).len() && #[trigger] row_key((p + q)[j]) == key;
                if j < p.len() {
                    assert(row_key(p[j]) == key);
                } else {
                    assert(row_key(q[j - p.len()]) == key);
                }
            }
            if has_key(p, key) {
                let j = choose|j: int| 0 <= j < p.len() && #[trigger] row_key(p[j]) == key;
                assert(row_key((p + q)[j]) == key);
            }
            if has_key(q, key) {
                let j = choose|j: int| 0 <= j < q.len() && #[trigger] row_key(q[j]) == key;
                assert(row_key((p + q)[j + p.len()]) == key);
            }
        }
    }
    r
}

/// The producing transactions of the outputs `utxos`, each once; these are
/// the transactions whose amount rows are read.
pub fn amount_query_hashes(utxos: &Vec<UtxoRow>) -> (r: Vec<String>)
    ensures
        r.deep_view() == producing_hashes(utxos.deep_view()),
{
    let ghost all = utxos.deep_view();
    let mut r: Vec<String> = Vec::new();
    let mut i: usize = 0;
    while i < utxos.len()
        invariant
            i <= utxos.len(),
            all == utxos.deep_view(),
            r.deep_view() == producing_hashes(all.take(i as int)),
        decreases utxos.len() - i,
    {
        proof {
            lemma_take_last(all, i as int);
        }
        let h = &utxos[i].tx_hash;
        let mut seen = false;
        let mut j: usize = 0;
        while j < r.len()
            invariant
                j <= r.len(),
                seen == r.deep_view().take(j as int).contains(h@),
            decreases r.len() - j,
        {
            assert(r.deep_view().take(j as int + 1) =~= r.deep_view().take(j as int).push(
                r.deep_view()[j as int],
            ));
            proof {
                lemma_contains_push(r.deep_view().take(j as int), r.deep_view()[j as int], h@);
            }
            if r[j] == *h {
                seen = true;
            }
            j = j + 1;
        }
        assert(r.deep_view().take(r.len() as int) =~= r.deep_view());
        if !seen {
            let ghost before = r.deep_view();
            r.push(h.clone());
            assert(r.deep_view() =~= before.push(h@));
        }
        i = i + 1;
    }
    assert(all.take(utxos.len() as int) =~= all);
    r
}

/// Keeps the amount rows that belong to one of the outputs `utxos`, in order.
pub fn select_amount_rows(rows: Vec<AmountRow>, utxos: &Vec<UtxoRow>) -> (r: Vec<AmountRow>)
    ensures
        r.deep_view() == amounts_of_outputs(rows.deep_view(), utxos.deep_view()),
{
    let ghost all = rows.deep_view();
    let mut r: Vec<AmountRow> = Vec::new();
    let mut i: usize = 0;
    while i < rows.len()
        invariant
            i <= rows.len(),
            all == rows.deep_view(),
            r.deep_view() == amounts_of_outputs(all.take(i as int), utxos.deep_view()),
        decreases rows.len() - i,
    {
        proof {
            lemma_take_last(all, i as int);
        }
        let row = &rows[i];
        if rows_have_key(utxos, &row.tx_hash, row.output_index) {
            let ghost before = r.deep_view();
            r.push(clone_amount_row(row));
            assert(r.deep_view() =~= before.push(row@));
        }
        i = i + 1;
    }
    assert(all.take(rows.len() as int) =~= all);
    r
}

/// The hashes of the given transaction rows, in order.
pub fn tx_row_hashes(rows: &Vec<TxRow>) -> (r: Vec<String>)
    ensures
        r.deep_view() == rows.deep_view().map_values(|t: TxRowView| t.hash),
{
    let mut r: Vec<String> = Vec::new();
    let mut i: usize = 0;
    while i < rows.len()
        invariant
            i <= rows.len(),
            r.deep_view() == rows.deep_view().take(i as int).map_values(|t: TxRowView| t.hash),
        decreases rows.len() - i,
    {
        let ghost before = r.deep_view();
        r.push(rows[i].hash.clone());
        assert(r.deep_view() =~= before.push(rows.deep_view()[i as int].hash));
        assert(rows.deep_view().take(i as int + 1).map_values(|t: TxRowView| t.hash) =~= rows.deep_view().take(
            i as int,
        ).map_values(|t: TxRowView| t.hash).push(rows.deep_view()[i as int].hash));
        i = i + 1;
    }
    assert(rows.deep_view().take(rows.len() as int) =~= rows.deep_view());
    r
}


// ---------------------------------------------------------------------------
// Storing a matched transaction
// ---------------------------------------------------------------------------

/// One write of the transaction that stores a matched transaction; what it
/// does to the tables is `store::apply_write`.
pub enum DbWrite {
    /// Inserts the transaction row; a row with the same hash is left as it is.
    InsertTx(TxRow),
    /// Inserts the output row; where one with the same key exists, its address
    /// is replaced and its spending transaction and datum are kept when set.
    UpsertUtxo(UtxoRow),
    /// Inserts the amount row, replacing the quantity of one with the same
    /// output and unit.
    UpsertAmount(AmountRow),
}

pub enum DbWriteView {
    InsertTx(TxRowView),
    UpsertUtxo(UtxoRowView),
    UpsertAmount(AmountRowView),
}

impl View for DbWrite {
    type V = DbWriteView;

    open spec fn view(&self) -> DbWriteView {
        match self {
            DbWrite::InsertTx(r) => DbWriteView::InsertTx(r@),
            DbWrite::UpsertUtxo(r) => DbWriteView::UpsertUtxo(r@),
            DbWrite::UpsertAmount(r) => DbWriteView::UpsertAmount(r@),
        }
    }
}

impl DeepView for DbWrite {
    type V = DbWriteView;

    open spec fn deep_view(&self) -> DbWriteView {
        self@
    }
}

/// The amount writes for the output `(tx_hash, output_index)`.
pub open spec fn amount_writes(
    tx_hash: Seq<char>,
    output_index: i64,
    amounts: Seq<BlockfrostAmountView>,
) -> Seq<DbWriteView> {
    amounts.map_values(
        |a: BlockfrostAmountView|
            DbWriteView::UpsertAmount(
                AmountRowView {
                    tx_hash,
                    output_index,
                    unit: a.unit,
                    quantity: a.quantity,
                },
            ),
    )
}

/// The writes for an output spent by transaction `hash`.
pub open spec fn input_writes(hash: Seq<char>, input: BlockfrostInputView) -> Seq<DbWriteView> {
    seq![
        DbWriteView::UpsertUtxo(
            UtxoRowView {
                tx_hash: input.tx_hash,
                output_index: input.output_index as i64,
                address: input.address,
                consumed_by_tx: Some(hash),
                datum: input.inline_datum,
            },
        ),
    ] + amount_writes(input.tx_hash, input.output_index as i64, input.amount)
}

/// The writes for an output created by transaction `hash`.
pub open spec fn output_writes(hash: Seq<char>, output: BlockfrostOutputView) -> Seq<DbWriteView> {
    seq![
        DbWriteView::UpsertUtxo(
            UtxoRowView {
                tx_hash: hash,
                output_index: output.output_index as i64,
                address: output.address,
                consumed_by_tx: output.consumed_by_tx,
                datum: output.inline_datum,
            },
        ),
    ] + amount_writes(hash, output.output_index as i64, output.amount)
}

pub open spec fn inputs_writes(hash: Seq<char>, inputs: Seq<BlockfrostInputView>) -> Seq<DbWriteView>
    decreases inputs.len(),
{
    if inputs.len() == 0 {
        Seq::empty()
    } else {
        inputs_writes(hash, inputs.drop_last()) + input_writes(hash, inputs.last())
    }
}

pub open spec fn outputs_writes(hash: Seq<char>, outputs: Seq<BlockfrostOutputView>) -> Seq<
    DbWriteView,
>
    decreases outputs.len(),
{
    if outputs.len() == 0 {
        Seq::empty()
    } else {
        outputs_writes(hash, outputs.drop_last()) + output_writes(hash, outputs.last())
    }
}

/// The writes that store `tx` under the name `tx_name`, in the order they run:
/// the transaction row, then each spent output followed by its amounts, then
/// each created output followed by its amounts.
pub open spec fn insert_plan(tx_name: Seq<char>, tx: BlockfrostResponseView) -> Seq<DbWriteView> {
    seq![DbWriteView::InsertTx(TxRowView { hash: tx.hash, tx_name })] + inputs_writes(
        tx.hash,
        tx.inputs,
    ) + outputs_writes(tx.hash, tx.outputs)
}

fn push_amount_writes(
    writes: &mut Vec<DbWrite>,
    tx_hash: &String,
    output_index: i64,
    amounts: &Vec<BlockfrostAmount>,
)
    ensures
        final(writes).deep_view() == old(writes).deep_view() + amount_writes(
            tx_hash@,
            output_index,
            amounts.deep_view(),
        ),
{
    let ghost start = writes.deep_view();
    let ghost all = amounts.deep_view();
    let mut k: usize = 0;
    while k < amounts.len()
        invariant
            k <= amounts.len(),
            all == amounts.deep_view(),
            writes.deep_view() == start + amount_writes(tx_hash@, output_index, all.take(k as int)),
        decreases amounts.len() - k,
    {
        let a = &amounts[k];
        let w = DbWrite::UpsertAmount(
            AmountRow {
                tx_hash: tx_hash.clone(),
                output_index,
                unit: a.unit.clone(),
                quantity: a.quantity.clone(),
            },
        );
        let ghost wv = w@;
        let ghost before = writes.deep_view();
        writes.push(w);
        assert(writes.deep_view() =~= before.push(wv));
        assert(amount_writes(tx_hash@, output_index, all.take(k as int + 1)) =~= amount_writes(
            tx_hash@,
            output_index,
            all.take(k as int),
        ).push(wv));
        k = k + 1;
    }
    assert(all.take(amounts.len() as int) =~= all);
}

/// The writes that store the matched transaction `tx` under the name `tx_name`.
/// They run in one database transaction, in the order given.
pub fn plan_insert_tx(tx_name: &str, tx: &BlockfrostResponse) -> (r: Vec<DbWrite>)
    ensures
        r.deep_view() == insert_plan(tx_name@, tx@),
{
    let mut writes: Vec<DbWrite> = Vec::new();
    writes.push(DbWrite::InsertTx(TxRow { hash: tx.hash.clone(), tx_name: String::from_str(tx_name) }));
    let ghost head = seq![DbWriteView::InsertTx(TxRowView { hash: tx@.hash, tx_name: tx_name@ })];
    assert(writes.deep_view() =~= head);
    let ghost ins = tx@.inputs;
    let mut i: usize = 0;
    while i < tx.inputs.len()
        invariant
            i <= tx.inputs.len(),
            ins == tx@.inputs,
            writes.deep_view() == head + inputs_writes(tx@.hash, ins.take(i as int)),
        decreases tx.inputs.len() - i,
    {
        proof {
            lemma_take_last(ins, i as int);
        }
        let input = &tx.inputs[i];
        let w = DbWrite::UpsertUtxo(
            UtxoRow {
                tx_hash: input.tx_hash.clone(),
                output_index: input.output_index as i64,
                address: input.address.clone(),
                consumed_by_tx: Some(tx.hash.clone()),
                datum: clone_opt_string(&input.inline_datum),
            },
        );
        let ghost wv = w@;
        let ghost before = writes.deep_view();
        writes.push(w);
        assert(writes.deep_view() =~= before.push(wv));
        push_amount_writes(&mut writes, &input.tx_hash, input.output_index as i64, &input.amount);
        assert(writes.deep_view() =~= head + inputs_writes(tx@.hash, ins.take(i as int + 1)));
        i = i + 1;
    }
    assert(ins.take(tx.inputs.len() as int) =~= ins);
    let ghost mid = head + inputs_writes(tx@.hash, ins);
    let ghost outs = tx@.outputs;
    let mut j: usize = 0;
    while j < tx.outputs.len()
        invariant
            j <= tx.outputs.len(),
            outs == tx@.outputs,
            writes.deep_view() == mid + outputs_writes(tx@.hash, outs.take(j as int)),
        decreases tx.outputs.len() - j,
    {
        proof {
            lemma_take_last(outs, j as int);
        }
        let output = &tx.outputs[j];
        let w = DbWrite::UpsertUtxo(
            UtxoRow {
                tx_hash: tx.hash.clone(),
                output_index: output.output_index as i64,
                address: output.address.clone(),
                consumed_by_tx: clone_opt_string(&output.consumed_by_tx),
                datum: clone_opt_string(&output.inline_datum),
            },
        );
        let ghost wv = w@;
        let ghost before = writes.deep_view();
        writes.push(w);
        assert(writes.deep_view() =~= before.push(wv));
        push_amount_writes(&mut writes, &tx.hash, output.output_index as i64, &output.amount);
        assert(writes.deep_view() =~= mid + outputs_writes(tx@.hash, outs.take(j as int + 1)));
        j = j + 1;
    }
    assert(outs.take(tx.outputs.len() as int) =~= outs);
    writes
}


// ---------------------------------------------------------------------------
// Laws
// ---------------------------------------------------------------------------

proof fn lemma_produced_by_members(utxos: Seq<UtxoRowView>, amounts: Seq<AmountRowView>, h: Seq<char>)
    ensures
        forall|k: int|
            0 <= k < produced_by(utxos, amounts, h).len() ==> (#[trigger] produced_by(
                utxos,
                amounts,
                h,
            )[k]).tx_hash == h,
    decreases utxos.len(),
{
    if utxos.len() > 0 {
        lemma_produced_by_members(utxos.drop_last(), amounts, h);
    }
}

proof fn lemma_consumed_by_members(utxos: Seq<UtxoRowView>, amounts: Seq<AmountRowView>, h: Seq<char>)
    ensures
        forall|k: int|
            0 <= k < consumed_by(utxos, amounts, h).len() ==> (#[trigger] consumed_by(
                utxos,
                amounts,
                h,
            )[k]).consumed_by_tx == Some(h),
    decreases utxos.len(),
{
    if utxos.len() > 0 {
        lemma_consumed_by_members(utxos.drop_last(), amounts, h);
    }
}

proof fn lemma_produced_by_contains(
    utxos: Seq<UtxoRowView>,
    amounts: Seq<AmountRowView>,
    h: Seq<char>,
    k: int,
)
    requires
        0 <= k < utxos.len(),
        utxos[k].tx_hash == h,
    ensures
        produced_by(utxos, amounts, h).contains(utxo_of(utxos[k], amounts)),
    decreases utxos.len(),
{
    let prev = produced_by(utxos.drop_last(), amounts, h);
    if k == utxos.len() - 1 {
        assert(produced_by(utxos, amounts, h)[prev.len() as int] == utxo_of(utxos[k], amounts));
    } else {
        assert(utxos.drop_last()[k] == utxos[k]);
        lemma_produced_by_contains(utxos.drop_last(), amounts, h, k);
        let m = choose|m: int| 0 <= m < prev.len() && prev[m] == utxo_of(utxos[k], amounts);
        assert(produced_by(utxos, amounts, h)[m] == utxo_of(utxos[k], amounts));
    }
}

proof fn lemma_consumed_by_contains(
    utxos: Seq<UtxoRowView>,
    amounts: Seq<AmountRowView>,
    h: Seq<char>,
    k: int,
)
    requires
        0 <= k < utxos.len(),
        utxos[k].consumed_by_tx == Some(h),
    ensures
        consumed_by(utxos, amounts, h).contains(utxo_of(utxos[k], amounts)),
    decreases utxos.len(),
{
    let prev = consumed_by(utxos.drop_last(), amounts, h);
    if k == utxos.len() - 1 {
        assert(consumed_by(utxos, amounts, h)[prev.len() as int] == utxo_of(utxos[k], amounts));
    } else {
        assert(utxos.drop_last()[k] == utxos[k]);
        lemma_consumed_by_contains(utxos.drop_last(), amounts, h, k);
        let m = choose|m: int| 0 <= m < prev.len() && prev[m] == utxo_of(utxos[k], amounts);
        assert(consumed_by(utxos, amounts, h)[m] == utxo_of(utxos[k], amounts));
    }
}

/// Every output a response lists under `outputs` was created by that
/// response's transaction, and every output it lists under `inputs` was spent
/// by it.
pub proof fn law_sides_belong_to_their_tx(
    rows: Seq<TxRowView>,
    utxos: Seq<UtxoRowView>,
    amounts: Seq<AmountRowView>,
    i: int,
)
    requires
        0 <= i < rows.len(),
    ensures
        forall|k: int|
            0 <= k < responses_of(rows, utxos, amounts)[i].outputs.len() ==> (
            #[trigger] responses_of(rows, utxos, amounts)[i].outputs[k]).tx_hash == rows[i].hash,
        forall|k: int|
            0 <= k < responses_of(rows, utxos, amounts)[i].inputs.len() ==> (
            #[trigger] responses_of(rows, utxos, amounts)[i].inputs[k]).consumed_by_tx == Some(
                rows[i].hash,
            ),
{
    lemma_produced_by_members(utxos, amounts, rows[i].hash);
    lemma_consumed_by_members(utxos, amounts, rows[i].hash);
}

/// A stored output is listed, with its amounts, among the outputs of the
/// transaction that created it and among the inputs of the transaction that
/// spent it, whenever those transactions are asked for (by the first row
/// carrying their hash).
pub proof fn law_output_seen_from_both_sides(
    rows: Seq<TxRowView>,
    utxos: Seq<UtxoRowView>,
    amounts: Seq<AmountRowView>,
    k: int,
    i: int,
)
    requires
        0 <= k < utxos.len(),
        0 <= i < rows.len(),
        is_first_occurrence(rows, i),
    ensures
        utxos[k].tx_hash == rows[i].hash ==> responses_of(rows, utxos, amounts)[i].outputs.contains(
            utxo_of(utxos[k], amounts),
        ),
        utxos[k].consumed_by_tx == Some(rows[i].hash) ==> responses_of(
            rows,
            utxos,
            amounts,
        )[i].inputs.contains(utxo_of(utxos[k], amounts)),
{
    if utxos[k].tx_hash == rows[i].hash {
        lemma_produced_by_contains(utxos, amounts, rows[i].hash, k);
    }
    if utxos[k].consumed_by_tx == Some(rows[i].hash) {
        lemma_consumed_by_contains(utxos, amounts, rows[i].hash, k);
    }
}

/// Joining output rows a second time changes nothing: the result of a join
/// already has one row per output key.
pub proof fn law_merge_is_idempotent(s: Seq<UtxoRowView>)
    ensures
        first_of_each_key(first_of_each_key(s)) == first_of_each_key(s),
{
    lemma_first_of_each_key_distinct(s);
    lemma_first_of_each_key_of_distinct(first_of_each_key(s));
}

proof fn lemma_amounts_of_outputs_members(rows: Seq<AmountRowView>, utxos: Seq<UtxoRowView>)
    ensures
        forall|k: int|
            0 <= k < amounts_of_outputs(rows, utxos).len() ==> {
                let x = #[trigger] amounts_of_outputs(rows, utxos)[k];
                has_key(utxos, (x.tx_hash, x.output_index)) && rows.contains(x)
            },
        forall|k: int|
            0 <= k < rows.len() && has_key(utxos, (rows[k].tx_hash, rows[k].output_index))
                ==> amounts_of_outputs(rows, utxos).contains(#[trigger] rows[k]),
    decreases rows.len(),
{
    if rows.len() > 0 {
        let p = rows.drop_last();
        lemma_amounts_of_outputs_members(p, utxos);
        let prev = amounts_of_outputs(p, utxos);
        let r = amounts_of_outputs(rows, utxos);
        assert forall|k: int| 0 <= k < r.len() implies {
            let x = #[trigger] r[k];
            has_key(utxos, (x.tx_hash, x.output_index)) && rows.contains(x)
        } by {
            if k < prev.len() {
                let x = prev[k];
                let j = choose|j: int| 0 <= j < p.len() && p[j] == x;
                assert(rows[j] == x);
            } else {
                assert(rows[rows.len() - 1] == r[k]);
            }
        }
        assert forall|k: int|
            0 <= k < rows.len() && has_key(utxos, (rows[k].tx_hash, rows[k].output_index)) implies r.contains(
            #[trigger] rows[k],
        ) by {
            if k < rows.len() - 1 {
                assert(p[k] == rows[k]);
                let m = choose|m: int| 0 <= m < prev.len() && prev[m] == p[k];
                assert(r[m] == rows[k]);
            } else {
                assert(r[prev.len() as int] == rows[k]);
            }
        }
    }
}

/// The amount rows kept for a set of outputs are exactly the stored amount
/// rows that belong to one of those outputs.
pub proof fn law_selected_amounts_are_those_of_the_outputs(
    rows: Seq<AmountRowView>,
    utxos: Seq<UtxoRowView>,
)
    ensures
        forall|k: int|
            0 <= k < amounts_of_outputs(rows, utxos).len() ==> {
                let x = #[trigger] amounts_of_outputs(rows, utxos)[k];
                has_key(utxos, (x.tx_hash, x.output_index)) && rows.contains(x)
            },
        forall|k: int|
            0 <= k < rows.len() && has_key(utxos, (rows[k].tx_hash, rows[k].output_index))
                ==> amounts_of_outputs(rows, utxos).contains(#[trigger] rows[k]),
{
    lemma_amounts_of_outputs_members(rows, utxos);
}

/// The transactions whose amount rows are read are each named once, and
/// every transaction that produced one of the outputs is among them.
pub proof fn law_amount_query_hashes(s: Seq<UtxoRowView>)
    ensures
        producing_hashes(s).no_duplicates(),
        forall|k: int| 0 <= k < s.len() ==> producing_hashes(s).contains(#[trigger] s[k].tx_hash),
    decreases s.len(),
{
    if s.len() > 0 {
        let p = s.drop_last();
        law_amount_query_hashes(p);
        let prev = producing_hashes(p);
        let h = s.last().tx_hash;
        assert forall|k: int| 0 <= k < s.len() implies producing_hashes(s).contains(#[trigger] s[k].tx_hash) by {
            if k < s.len() - 1 {
                assert(p[k] == s[k]);
                let m = choose|m: int| 0 <= m < prev.len() && prev[m] == p[k].tx_hash;
                if !prev.contains(h) {
                    assert(prev.push(h)[m] == s[k].tx_hash);
                }
            } else if !prev.contains(h) {
                assert(prev.push(h)[prev.len() as int] == h);
            }
        }
        if !prev.contains(h) {
            let r = prev.push(h);
            assert forall|a: int, b: int| 0 <= a < r.len() && 0 <= b < r.len() && a != b implies r[a] != r[b] by {
                if a == prev.len() as int {
                    assert(!prev.contains(r[b]) || r[b] != h);
                } else if b == prev.len() as int {
                    if r[a] == h {
                        assert(prev[a] == h);
                    }
                }
            }
        }
    }
}


// ---------------------------------------------------------------------------
// Reading back what was stored
// ---------------------------------------------------------------------------

/// The transaction rows a list of writes writes, in order.
pub open spec fn planned_tx_rows(plan: Seq<DbWriteView>) -> Seq<TxRowView>
    decreases plan.len(),
{
    if plan.len() == 0 {
        Seq::empty()
    } else {
        let prev = planned_tx_rows(plan.drop_last());
        match plan.last() {
            DbWriteView::InsertTx(r) => prev.push(r),
            _ => prev,
        }
    }
}

/// The output rows a list of writes writes, in order.
pub open spec fn planned_utxo_rows(plan: Seq<DbWriteView>) -> Seq<UtxoRowView>
    decreases plan.len(),
{
    if plan.len() == 0 {
        Seq::empty()
    } else {
        let prev = planned_utxo_rows(plan.drop_last());
        match plan.last() {
            DbWriteView::UpsertUtxo(r) => prev.push(r),
            _ => prev,
        }
    }
}

/// The amount rows a list of writes writes, in order.
pub open spec fn planned_amount_rows(plan: Seq<DbWriteView>) -> Seq<AmountRowView>
    decreases plan.len(),
{
    if plan.len() == 0 {
        Seq::empty()
    } else {
        let prev = planned_amount_rows(plan.drop_last());
        match plan.last() {
            DbWriteView::UpsertAmount(r) => prev.push(r),
            _ => prev,
        }
    }
}

/// No unit is listed twice among `amounts`.
pub open spec fn units_distinct(amounts: Seq<BlockfrostAmountView>) -> bool {
    forall|a: int, b: int|
        0 <= a < amounts.len() && 0 <= b < amounts.len() && a != b ==> (#[trigger] amounts[a]).unit
            != (#[trigger] amounts[b]).unit
}

/// A transaction as the chain can have it: it spends none of its own
/// outputs, none of its outputs is spent by itself, no output is listed
/// twice on either side, and no output lists a unit twice.
pub open spec fn well_formed_tx(tx: BlockfrostResponseView) -> bool {
    &&& forall|k: int| 0 <= k < tx.inputs.len() ==> units_distinct(#[trigger] tx.inputs[k].amount)
    &&& forall|k: int| 0 <= k < tx.outputs.len() ==> units_distinct(#[trigger] tx.outputs[k].amount)
    &&& forall|k: int| 0 <= k < tx.inputs.len() ==> (#[trigger] tx.inputs[k]).tx_hash != tx.hash
    &&& forall|k: int|
        0 <= k < tx.outputs.len() ==> (#[trigger] tx.outputs[k]).consumed_by_tx != Some(tx.hash)
    &&& forall|a: int, b: int|
        0 <= a < tx.inputs.len() && 0 <= b < tx.inputs.len() && a != b ==> !(
        #[trigger] tx.inputs[a].tx_hash == #[trigger] tx.inputs[b].tx_hash && tx.inputs[a].output_index
            == tx.inputs[b].output_index)
    &&& forall|a: int, b: int|
        0 <= a < tx.outputs.len() && 0 <= b < tx.outputs.len() && a != b ==> (
        #[trigger] tx.outputs[a]).output_index != (#[trigger] tx.outputs[b]).output_index
}

pub open spec fn amount_view_of(a: BlockfrostAmountView) -> AmountView {
    AmountView { unit: a.unit, quantity: a.quantity }
}

/// A spent output as the transaction describes it.
pub open spec fn input_as_utxo(hash: Seq<char>, i: BlockfrostInputView) -> UtxoView {
    UtxoView {
        address: i.address,
        tx_hash: i.tx_hash,
        output_index: i.output_index,
        amount: i.amount.map_values(|a: BlockfrostAmountView| amount_view_of(a)),
        datum: i.inline_datum,
        consumed_by_tx: Some(hash),
    }
}

/// A created output as the transaction describes it.
pub open spec fn output_as_utxo(hash: Seq<char>, o: BlockfrostOutputView) -> UtxoView {
    UtxoView {
        address: o.address,
        tx_hash: hash,
        output_index: o.output_index,
        amount: o.amount.map_values(|a: BlockfrostAmountView| amount_view_of(a)),
        datum: o.inline_datum,
        consumed_by_tx: o.consumed_by_tx,
    }
}

pub open spec fn input_row(hash: Seq<char>, i: BlockfrostInputView) -> UtxoRowView {
    UtxoRowView {
        tx_hash: i.tx_hash,
        output_index: i.output_index as i64,
        address: i.address,
        consumed_by_tx: Some(hash),
        datum: i.inline_datum,
    }
}

pub open spec fn output_row(hash: Seq<char>, o: BlockfrostOutputView) -> UtxoRowView {
    UtxoRowView {
        tx_hash: hash,
        output_index: o.output_index as i64,
        address: o.address,
        consumed_by_tx: o.consumed_by_tx,
        datum: o.inline_datum,
    }
}

pub open spec fn amount_block(tx_hash: Seq<char>, idx: i64, amounts: Seq<BlockfrostAmountView>) -> Seq<
    AmountRowView,
> {
    amounts.map_values(
        |a: BlockfrostAmountView|
            AmountRowView { tx_hash, output_index: idx, unit: a.unit, quantity: a.quantity },
    )
}

pub open spec fn input_blocks(ins: Seq<BlockfrostInputView>) -> Seq<AmountRowView>
    decreases ins.len(),
{
    if ins.len() == 0 {
        Seq::empty()
    } else {
        input_blocks(ins.drop_last()) + amount_block(
            ins.last().tx_hash,
            ins.last().output_index as i64,
            ins.last().amount,
        )
    }
}

pub open spec fn output_blocks(hash: Seq<char>, outs: Seq<BlockfrostOutputView>) -> Seq<AmountRowView>
    decreases outs.len(),
{
    if outs.len() == 0 {
        Seq::empty()
    } else {
        output_blocks(hash, outs.drop_last()) + amount_block(
            hash,
            outs.last().output_index as i64,
            outs.last().amount,
        )
    }
}

proof fn lemma_planned_append(a: Seq<DbWriteView>, b: Seq<DbWriteView>)
    ensures
        planned_tx_rows(a + b) == planned_tx_rows(a) + planned_tx_rows(b),
        planned_utxo_rows(a + b) == planned_utxo_rows(a) + planned_utxo_rows(b),
        planned_amount_rows(a + b) == planned_amount_rows(a) + planned_amount_rows(b),
    decreases b.len(),
{
    if b.len() == 0 {
        assert(a + b =~= a);
        assert(planned_tx_rows(a) + planned_tx_rows(b) =~= planned_tx_rows(a));
        assert(planned_utxo_rows(a) + planned_utxo_rows(b) =~= planned_utxo_rows(a));
        assert(planned_amount_rows(a) + planned_amount_rows(b) =~= planned_amount_rows(a));
    } else {
        lemma_planned_append(a, b.drop_last());
        assert((a + b).drop_last() =~= a + b.drop_last());
        assert((a + b).last() == b.last());
        let ta = planned_tx_rows(a);
        let tb = planned_tx_rows(b.drop_last());
        let ua = planned_utxo_rows(a);
        let ub = planned_utxo_rows(b.drop_last());
        let ma = planned_amount_rows(a);
        let mb = planned_amount_rows(b.drop_last());
        match b.last() {
            DbWriteView::InsertTx(r) => {
                assert((ta + tb).push(r) =~= ta + tb.push(r));
            },
            DbWriteView::UpsertUtxo(r) => {
                assert((ua + ub).push(r) =~= ua + ub.push(r));
            },
            DbWriteView::UpsertAmount(r) => {
                assert((ma + mb).push(r) =~= ma + mb.push(r));
            },
        }
    }
}

proof fn lemma_planned_amount_writes(tx_hash: Seq<char>, idx: i64, amounts: Seq<BlockfrostAmountView>)
    ensures
        planned_tx_rows(amount_writes(tx_hash, idx, amounts)) == Seq::<TxRowView>::empty(),
        planned_utxo_rows(amount_writes(tx_hash, idx, amounts)) == Seq::<UtxoRowView>::empty(),
        planned_amount_rows(amount_writes(tx_hash, idx, amounts)) == amount_block(tx_hash, idx, amounts),
    decreases amounts.len(),
{
    if amounts.len() > 0 {
        lemma_planned_amount_writes(tx_hash, idx, amounts.drop_last());
        assert(amount_writes(tx_hash, idx, amounts).drop_last() =~= amount_writes(
            tx_hash,
            idx,
            amounts.drop_last(),
        ));
        assert(amount_block(tx_hash, idx, amounts) =~= amount_block(
            tx_hash,
            idx,
            amounts.drop_last(),
        ).push(amount_block(tx_hash, idx, amounts).last()));
    } else {
        assert(amount_writes(tx_hash, idx, amounts) =~= Seq::<DbWriteView>::empty());
        assert(amount_block(tx_hash, idx, amounts) =~= Seq::<AmountRowView>::empty());
    }
}

proof fn lemma_planned_single(w: DbWriteView)
    ensures
        planned_tx_rows(seq![w]) == match w {
            DbWriteView::InsertTx(r) => seq![r],
            _ => Seq::<TxRowView>::empty(),
        },
        planned_utxo_rows(seq![w]) == match w {
            DbWriteView::UpsertUtxo(r) => seq![r],
            _ => Seq::<UtxoRowView>::empty(),
        },
        planned_amount_rows(seq![w]) == match w {
            DbWriteView::UpsertAmount(r) => seq![r],
            _ => Seq::<AmountRowView>::empty(),
        },
{
    let s = seq![w];
    assert(s.drop_last() =~= Seq::<DbWriteView>::empty());
    assert(s.last() == w);
    assert(planned_tx_rows(s.drop_last()) == Seq::<TxRowView>::empty());
    assert(planned_utxo_rows(s.drop_last()) == Seq::<UtxoRowView>::empty());
    assert(planned_amount_rows(s.drop_last()) == Seq::<AmountRowView>::empty());
    match w {
        DbWriteView::InsertTx(r) => {
            assert(Seq::<TxRowView>::empty().push(r) =~= seq![r]);
        },
        DbWriteView::UpsertUtxo(r) => {
            assert(Seq::<UtxoRowView>::empty().push(r) =~= seq![r]);
        },
        DbWriteView::UpsertAmount(r) => {
            assert(Seq::<AmountRowView>::empty().push(r) =~= seq![r]);
        },
    }
}


proof fn lemma_planned_input_writes(h: Seq<char>, i: BlockfrostInputView)
    ensures
        planned_tx_rows(input_writes(h, i)) == Seq::<TxRowView>::empty(),
        planned_utxo_rows(input_writes(h, i)) == seq![input_row(h, i)],
        planned_amount_rows(input_writes(h, i)) == amount_block(
            i.tx_hash,
            i.output_index as i64,
            i.amount,
        ),
{
    let head = seq![DbWriteView::UpsertUtxo(input_row(h, i))];
    let tail = amount_writes(i.tx_hash, i.output_index as i64, i.amount);
    assert(input_writes(h, i) == head + tail);
    lemma_planned_append(head, tail);
    lemma_planned_single(DbWriteView::UpsertUtxo(input_row(h, i)));
    lemma_planned_amount_writes(i.tx_hash, i.output_index as i64, i.amount);
    assert(Seq::<TxRowView>::empty() + Seq::<TxRowView>::empty() =~= Seq::<TxRowView>::empty());
    assert(seq![input_row(h, i)] + Seq::<UtxoRowView>::empty() =~= seq![input_row(h, i)]);
    assert(Seq::<AmountRowView>::empty() + planned_amount_rows(tail) =~= planned_amount_rows(tail));
}

proof fn lemma_planned_output_writes(h: Seq<char>, o: BlockfrostOutputView)
    ensures
        planned_tx_rows(output_writes(h, o)) == Seq::<TxRowView>::empty(),
        planned_utxo_rows(output_writes(h, o)) == seq![output_row(h, o)],
        planned_amount_rows(output_writes(h, o)) == amount_block(h, o.output_index as i64, o.amount),
{
    let head = seq![DbWriteView::UpsertUtxo(output_row(h, o))];
    let tail = amount_writes(h, o.output_index as i64, o.amount);
    assert(output_writes(h, o) == head + tail);
    lemma_planned_append(head, tail);
    lemma_planned_single(DbWriteView::UpsertUtxo(output_row(h, o)));
    lemma_planned_amount_writes(h, o.output_index as i64, o.amount);
    assert(Seq::<TxRowView>::empty() + Seq::<TxRowView>::empty() =~= Seq::<TxRowView>::empty());
    assert(seq![output_row(h, o)] + Seq::<UtxoRowView>::empty() =~= seq![output_row(h, o)]);
    assert(Seq::<AmountRowView>::empty() + planned_amount_rows(tail) =~= planned_amount_rows(tail));
}

proof fn lemma_planned_inputs_writes(h: Seq<char>, ins: Seq<BlockfrostInputView>)
    ensures
        planned_tx_rows(inputs_writes(h, ins)) == Seq::<TxRowView>::empty(),
        planned_utxo_rows(inputs_writes(h, ins)) == ins.map_values(
            |i: BlockfrostInputView| input_row(h, i),
        ),
        planned_amount_rows(inputs_writes(h, ins)) == input_blocks(ins),
    decreases ins.len(),
{
    if ins.len() == 0 {
        assert(ins.map_values(|i: BlockfrostInputView| input_row(h, i)) =~= Seq::<UtxoRowView>::empty());
    } else {
        lemma_planned_inputs_writes(h, ins.drop_last());
        lemma_planned_append(inputs_writes(h, ins.drop_last()), input_writes(h, ins.last()));
        lemma_planned_input_writes(h, ins.last());
        assert(Seq::<TxRowView>::empty() + Seq::<TxRowView>::empty() =~= Seq::<TxRowView>::empty());
        assert(ins.drop_last().map_values(|i: BlockfrostInputView| input_row(h, i)) + seq![
            input_row(h, ins.last()),
        ] =~= ins.map_values(|i: BlockfrostInputView| input_row(h, i)));
    }
}

proof fn lemma_planned_outputs_writes(h: Seq<char>, outs: Seq<BlockfrostOutputView>)
    ensures
        planned_tx_rows(outputs_writes(h, outs)) == Seq::<TxRowView>::empty(),
        planned_utxo_rows(outputs_writes(h, outs)) == outs.map_values(
            |o: BlockfrostOutputView| output_row(h, o),
        ),
        planned_amount_rows(outputs_writes(h, outs)) == output_blocks(h, outs),
    decreases outs.len(),
{
    if outs.len() == 0 {
        assert(outs.map_values(|o: BlockfrostOutputView| output_row(h, o)) =~= Seq::<UtxoRowView>::empty());
    } else {
        lemma_planned_outputs_writes(h, outs.drop_last());
        lemma_planned_append(outputs_writes(h, outs.drop_last()), output_writes(h, outs.last()));
        lemma_planned_output_writes(h, outs.last());
        assert(Seq::<TxRowView>::empty() + Seq::<TxRowView>::empty() =~= Seq::<TxRowView>::empty());
        assert(outs.drop_last().map_values(|o: BlockfrostOutputView| output_row(h, o)) + seq![
            output_row(h, outs.last()),
        ] =~= outs.map_values(|o: BlockfrostOutputView| output_row(h, o)));
    }
}

pub(crate) proof fn lemma_planned_insert(tx_name: Seq<char>, tx: BlockfrostResponseView)
    ensures
        planned_tx_rows(insert_plan(tx_name, tx)) == seq![TxRowView { hash: tx.hash, tx_name }],
        planned_utxo_rows(insert_plan(tx_name, tx)) == tx.inputs.map_values(
            |i: BlockfrostInputView| input_row(tx.hash, i),
        ) + tx.outputs.map_values(|o: BlockfrostOutputView| output_row(tx.hash, o)),
        planned_amount_rows(insert_plan(tx_name, tx)) == input_blocks(tx.inputs) + output_blocks(
            tx.hash,
            tx.outputs,
        ),
{
    let head = seq![DbWriteView::InsertTx(TxRowView { hash: tx.hash, tx_name })];
    let a = inputs_writes(tx.hash, tx.inputs);
    let b = outputs_writes(tx.hash, tx.outputs);
    lemma_planned_append(head + a, b);
    lemma_planned_append(head, a);
    lemma_planned_single(DbWriteView::InsertTx(TxRowView { hash: tx.hash, tx_name }));
    lemma_planned_inputs_writes(tx.hash, tx.inputs);
    lemma_planned_outputs_writes(tx.hash, tx.outputs);
    assert(seq![TxRowView { hash: tx.hash, tx_name }] + Seq::<TxRowView>::empty()
        + Seq::<TxRowView>::empty() =~= seq![TxRowView { hash: tx.hash, tx_name }]);
    assert(Seq::<UtxoRowView>::empty() + planned_utxo_rows(a) =~= planned_utxo_rows(a));
    assert(Seq::<AmountRowView>::empty() + planned_amount_rows(a) =~= planned_amount_rows(a));
}

proof fn lemma_assembly_append(
    a: Seq<UtxoRowView>,
    b: Seq<UtxoRowView>,
    amounts: Seq<AmountRowView>,
    h: Seq<char>,
)
    ensures
        produced_by(a + b, amounts, h) == produced_by(a, amounts, h) + produced_by(b, amounts, h),
        consumed_by(a + b, amounts, h) == consumed_by(a, amounts, h) + consumed_by(b, amounts, h),
    decreases b.len(),
{
    if b.len() == 0 {
        assert(a + b =~= a);
        assert(produced_by(a, amounts, h) + produced_by(b, amounts, h) =~= produced_by(a, amounts, h));
        assert(consumed_by(a, amounts, h) + consumed_by(b, amounts, h) =~= consumed_by(a, amounts, h));
    } else {
        lemma_assembly_append(a, b.drop_last(), amounts, h);
        assert((a + b).drop_last() =~= a + b.drop_last());
        assert((a + b).last() == b.last());
        let u = utxo_of(b.last(), amounts);
        let pa = produced_by(a, amounts, h);
        let pb = produced_by(b.drop_last(), amounts, h);
        let ca = consumed_by(a, amounts, h);
        let cb = consumed_by(b.drop_last(), amounts, h);
        assert((pa + pb).push(u) =~= pa + pb.push(u));
        assert((ca + cb).push(u) =~= ca + cb.push(u));
    }
}

proof fn lemma_amounts_of_append(
    a: Seq<AmountRowView>,
    b: Seq<AmountRowView>,
    tx_hash: Seq<char>,
    idx: i64,
)
    ensures
        amounts_of(a + b, tx_hash, idx) == amounts_of(a, tx_hash, idx) + amounts_of(b, tx_hash, idx),
    decreases b.len(),
{
    if b.len() == 0 {
        assert(a + b =~= a);
        assert(amounts_of(a, tx_hash, idx) + amounts_of(b, tx_hash, idx) =~= amounts_of(a, tx_hash, idx));
    } else {
        lemma_amounts_of_append(a, b.drop_last(), tx_hash, idx);
        assert((a + b).drop_last() =~= a + b.drop_last());
        assert((a + b).last() == b.last());
        let x = AmountView { unit: b.last().unit, quantity: b.last().quantity };
        let pa = amounts_of(a, tx_hash, idx);
        let pb = amounts_of(b.drop_last(), tx_hash, idx);
        assert((pa + pb).push(x) =~= pa + pb.push(x));
    }
}

proof fn lemma_amounts_of_block(
    th: Seq<char>,
    idx: i64,
    amts: Seq<BlockfrostAmountView>,
    th2: Seq<char>,
    idx2: i64,
)
    ensures
        amounts_of(amount_block(th, idx, amts), th2, idx2) == if th == th2 && idx == idx2 {
            amts.map_values(|a: BlockfrostAmountView| amount_view_of(a))
        } else {
            Seq::<AmountView>::empty()
        },
    decreases amts.len(),
{
    if amts.len() == 0 {
        assert(amount_block(th, idx, amts) =~= Seq::<AmountRowView>::empty());
        assert(amts.map_values(|a: BlockfrostAmountView| amount_view_of(a)) =~= Seq::<AmountView>::empty());
    } else {
        lemma_amounts_of_block(th, idx, amts.drop_last(), th2, idx2);
        assert(amount_block(th, idx, amts).drop_last() =~= amount_block(th, idx, amts.drop_last()));
        assert(amts.map_values(|a: BlockfrostAmountView| amount_view_of(a)) =~= amts.drop_last().map_values(
            |a: BlockfrostAmountView| amount_view_of(a),
        ).push(amount_view_of(amts.last())));
    }
}

proof fn lemma_amounts_of_input_blocks(ins: Seq<BlockfrostInputView>, th: Seq<char>, idx: i64)
    requires
        forall|a: int, b: int|
            0 <= a < ins.len() && 0 <= b < ins.len() && a != b ==> !(#[trigger] ins[a].tx_hash
                == #[trigger] ins[b].tx_hash && ins[a].output_index == ins[b].output_index),
    ensures
        (forall|k: int|
            0 <= k < ins.len() ==> !((#[trigger] ins[k]).tx_hash == th && ins[k].output_index as i64
                == idx)) ==> amounts_of(input_blocks(ins), th, idx) == Seq::<AmountView>::empty(),
        forall|k: int|
            0 <= k < ins.len() && (#[trigger] ins[k]).tx_hash == th && ins[k].output_index as i64
                == idx ==> amounts_of(input_blocks(ins), th, idx) == ins[k].amount.map_values(
                |a: BlockfrostAmountView| amount_view_of(a),
            ),
    decreases ins.len(),
{
    if ins.len() == 0 {
    } else {
        let p = ins.drop_last();
        let l = ins.last();
        assert forall|a: int, b: int|
            0 <= a < p.len() && 0 <= b < p.len() && a != b implies !(#[trigger] p[a].tx_hash
            == #[trigger] p[b].tx_hash && p[a].output_index == p[b].output_index) by {
            assert(p[a] == ins[a] && p[b] == ins[b]);
        }
        lemma_amounts_of_input_blocks(p, th, idx);
        lemma_amounts_of_append(
            input_blocks(p),
            amount_block(l.tx_hash, l.output_index as i64, l.amount),
            th,
            idx,
        );
        lemma_amounts_of_block(l.tx_hash, l.output_index as i64, l.amount, th, idx);
        let mine = l.tx_hash == th && l.output_index as i64 == idx;
        if mine {
            assert forall|k: int| 0 <= k < p.len() implies !((#[trigger] p[k]).tx_hash == th
                && p[k].output_index as i64 == idx) by {
                assert(p[k] == ins[k]);
                if p[k].tx_hash == th && p[k].output_index as i64 == idx {
                    assert(ins[k].tx_hash == ins[ins.len() - 1].tx_hash);
                    assert(ins[k].output_index == ins[ins.len() - 1].output_index);
                }
            }
            assert(Seq::<AmountView>::empty() + l.amount.map_values(
                |a: BlockfrostAmountView| amount_view_of(a),
            ) =~= l.amount.map_values(|a: BlockfrostAmountView| amount_view_of(a)));
        } else {
            assert(amounts_of(input_blocks(p), th, idx) + Seq::<AmountView>::empty() =~= amounts_of(
                input_blocks(p),
                th,
                idx,
            ));
            assert forall|k: int|
                0 <= k < ins.len() && (#[trigger] ins[k]).tx_hash == th && ins[k].output_index as i64
                    == idx implies amounts_of(input_blocks(ins), th, idx) == ins[k].amount.map_values(
                |a: BlockfrostAmountView| amount_view_of(a),
            ) by {
                assert(k < p.len());
                assert(p[k] == ins[k]);
            }
        }
    }
}

proof fn lemma_amounts_of_output_blocks(h: Seq<char>, outs: Seq<BlockfrostOutputView>, th: Seq<char>, idx: i64)
    requires
        forall|a: int, b: int|
            0 <= a < outs.len() && 0 <= b < outs.len() && a != b ==> (#[trigger] outs[a]).output_index
                != (#[trigger] outs[b]).output_index,
    ensures
        th != h ==> amounts_of(output_blocks(h, outs), th, idx) == Seq::<AmountView>::empty(),
        forall|k: int|
            0 <= k < outs.len() && th == h && (#[trigger] outs[k]).output_index as i64 == idx
                ==> amounts_of(output_blocks(h, outs), th, idx) == outs[k].amount.map_values(
                |a: BlockfrostAmountView| amount_view_of(a),
            ),
    decreases outs.len(),
{
    if outs.len() == 0 {
    } else {
        let p = outs.drop_last();
        let l = outs.last();
        assert forall|a: int, b: int|
            0 <= a < p.len() && 0 <= b < p.len() && a != b implies (#[trigger] p[a]).output_index
            != (#[trigger] p[b]).output_index by {
            assert(p[a] == outs[a] && p[b] == outs[b]);
        }
        lemma_amounts_of_output_blocks(h, p, th, idx);
        lemma_amounts_of_append(
            output_blocks(h, p),
            amount_block(h, l.output_index as i64, l.amount),
            th,
            idx,
        );
        lemma_amounts_of_block(h, l.output_index as i64, l.amount, th, idx);
        if th != h {
            assert(Seq::<AmountView>::empty() + Seq::<AmountView>::empty() =~= Seq::<AmountView>::empty());
        }
        assert forall|k: int|
            0 <= k < outs.len() && th == h && (#[trigger] outs[k]).output_index as i64 == idx implies amounts_of(
            output_blocks(h, outs),
            th,
            idx,
        ) == outs[k].amount.map_values(|a: BlockfrostAmountView| amount_view_of(a)) by {
            if k == outs.len() - 1 {
                assert forall|m: int| 0 <= m < p.len() implies (#[trigger] p[m]).output_index as i64 != idx by {
                    assert(p[m] == outs[m]);
                    assert(outs[m].output_index != outs[k].output_index);
                }
                if amounts_of(output_blocks(h, p), th, idx) != Seq::<AmountView>::empty() {
                    lemma_output_blocks_untouched(h, p, idx);
                }
                assert(Seq::<AmountView>::empty() + l.amount.map_values(
                    |a: BlockfrostAmountView| amount_view_of(a),
                ) =~= l.amount.map_values(|a: BlockfrostAmountView| amount_view_of(a)));
            } else {
                assert(p[k] == outs[k]);
                assert(outs[k].output_index != l.output_index);
                assert(amounts_of(output_blocks(h, p), th, idx) + Seq::<AmountView>::empty() =~= amounts_of(
                    output_blocks(h, p),
                    th,
                    idx,
                ));
            }
        }
    }
}

proof fn lemma_output_blocks_untouched(h: Seq<char>, outs: Seq<BlockfrostOutputView>, idx: i64)
    requires
        forall|m: int| 0 <= m < outs.len() ==> (#[trigger] outs[m]).output_index as i64 != idx,
    ensures
        amounts_of(output_blocks(h, outs), h, idx) == Seq::<AmountView>::empty(),
    decreases outs.len(),
{
    if outs.len() > 0 {
        let p = outs.drop_last();
        assert forall|m: int| 0 <= m < p.len() implies (#[trigger] p[m]).output_index as i64 != idx by {
            assert(p[m] == outs[m]);
        }
        lemma_output_blocks_untouched(h, p, idx);
        lemma_amounts_of_append(
            output_blocks(h, p),
            amount_block(h, outs.last().output_index as i64, outs.last().amount),
            h,
            idx,
        );
        lemma_amounts_of_block(h, outs.last().output_index as i64, outs.last().amount, h, idx);
        assert(Seq::<AmountView>::empty() + Seq::<AmountView>::empty() =~= Seq::<AmountView>::empty());
    }
}


proof fn lemma_produced_by_cases(rows: Seq<UtxoRowView>, amounts: Seq<AmountRowView>, h: Seq<char>)
    ensures
        (forall|k: int| 0 <= k < rows.len() ==> (#[trigger] rows[k]).tx_hash != h) ==> produced_by(
            rows,
            amounts,
            h,
        ) == Seq::<UtxoView>::empty(),
        (forall|k: int| 0 <= k < rows.len() ==> (#[trigger] rows[k]).tx_hash == h) ==> produced_by(
            rows,
            amounts,
            h,
        ) == rows.map_values(|r: UtxoRowView| utxo_of(r, amounts)),
    decreases rows.len(),
{
    if rows.len() == 0 {
        assert(rows.map_values(|r: UtxoRowView| utxo_of(r, amounts)) =~= Seq::<UtxoView>::empty());
    } else {
        let p = rows.drop_last();
        lemma_produced_by_cases(p, amounts, h);
        if forall|k: int| 0 <= k < rows.len() ==> (#[trigger] rows[k]).tx_hash != h {
            assert forall|k: int| 0 <= k < p.len() implies (#[trigger] p[k]).tx_hash != h by {
                assert(p[k] == rows[k]);
            }
            assert(rows[rows.len() - 1].tx_hash != h);
        }
        if forall|k: int| 0 <= k < rows.len() ==> (#[trigger] rows[k]).tx_hash == h {
            assert forall|k: int| 0 <= k < p.len() implies (#[trigger] p[k]).tx_hash == h by {
                assert(p[k] == rows[k]);
            }
            assert(rows[rows.len() - 1].tx_hash == h);
            assert(rows.map_values(|r: UtxoRowView| utxo_of(r, amounts)) =~= p.map_values(
                |r: UtxoRowView| utxo_of(r, amounts),
            ).push(utxo_of(rows.last(), amounts)));
        }
    }
}

proof fn lemma_consumed_by_cases(rows: Seq<UtxoRowView>, amounts: Seq<AmountRowView>, h: Seq<char>)
    ensures
        (forall|k: int| 0 <= k < rows.len() ==> (#[trigger] rows[k]).consumed_by_tx != Some(h))
            ==> consumed_by(rows, amounts, h) == Seq::<UtxoView>::empty(),
        (forall|k: int| 0 <= k < rows.len() ==> (#[trigger] rows[k]).consumed_by_tx == Some(h))
            ==> consumed_by(rows, amounts, h) == rows.map_values(
            |r: UtxoRowView| utxo_of(r, amounts),
        ),
    decreases rows.len(),
{
    if rows.len() == 0 {
        assert(rows.map_values(|r: UtxoRowView| utxo_of(r, amounts)) =~= Seq::<UtxoView>::empty());
    } else {
        let p = rows.drop_last();
        lemma_consumed_by_cases(p, amounts, h);
        if forall|k: int| 0 <= k < rows.len() ==> (#[trigger] rows[k]).consumed_by_tx != Some(h) {
            assert forall|k: int| 0 <= k < p.len() implies (#[trigger] p[k]).consumed_by_tx != Some(h) by {
                assert(p[k] == rows[k]);
            }
            assert(rows[rows.len() - 1].consumed_by_tx != Some(h));
        }
        if forall|k: int| 0 <= k < rows.len() ==> (#[trigger] rows[k]).consumed_by_tx == Some(h) {
            assert forall|k: int| 0 <= k < p.len() implies (#[trigger] p[k]).consumed_by_tx == Some(h) by {
                assert(p[k] == rows[k]);
            }
            assert(rows[rows.len() - 1].consumed_by_tx == Some(h));
            assert(rows.map_values(|r: UtxoRowView| utxo_of(r, amounts)) =~= p.map_values(
                |r: UtxoRowView| utxo_of(r, amounts),
            ).push(utxo_of(rows.last(), amounts)));
        }
    }
}

/// What is stored of a matched transaction reads back as that transaction:
/// assembling the rows its writes write gives one response, with the
/// transaction's hash and name, its spent outputs as inputs and its created
/// outputs as outputs, each with its amounts, in the transaction's order;
/// and every stored output index fits, so assembly succeeds. This holds for
/// transactions as the chain has them (see [`well_formed_tx`]), whose writes
/// never share a key, so that on tables that held none of these rows before
/// the rows written are the rows stored
/// (`store::law_well_formed_tx_writes_no_key_twice`).
pub proof fn law_stored_tx_reads_back(tx_name: Seq<char>, tx: BlockfrostResponseView)
    requires
        well_formed_tx(tx),
    ensures
        ({
            let plan = insert_plan(tx_name, tx);
            &&& all_indices_in_range(planned_utxo_rows(plan))
            &&& responses_of(
                planned_tx_rows(plan),
                planned_utxo_rows(plan),
                planned_amount_rows(plan),
            ) == seq![
                TxResponseView {
                    hash: tx.hash,
                    tx_name,
                    inputs: tx.inputs.map_values(|i: BlockfrostInputView| input_as_utxo(tx.hash, i)),
                    outputs: tx.outputs.map_values(
                        |o: BlockfrostOutputView| output_as_utxo(tx.hash, o),
                    ),
                },
            ]
        }),
{
    let h = tx.hash;
    let plan = insert_plan(tx_name, tx);
    lemma_planned_insert(tx_name, tx);
    let ins_rows = tx.inputs.map_values(|i: BlockfrostInputView| input_row(h, i));
    let out_rows = tx.outputs.map_values(|o: BlockfrostOutputView| output_row(h, o));
    let u = ins_rows + out_rows;
    let a = input_blocks(tx.inputs) + output_blocks(h, tx.outputs);
    assert(planned_utxo_rows(plan) == u);
    assert(planned_amount_rows(plan) == a);
    assert forall|k: int| 0 <= k < u.len() implies index_in_range(#[trigger] u[k].output_index) by {
        if k < ins_rows.len() {
            assert(u[k] == ins_rows[k]);
        } else {
            assert(u[k] == out_rows[k - ins_rows.len()]);
        }
    }
    lemma_assembly_append(ins_rows, out_rows, a, h);
    assert forall|k: int| 0 <= k < ins_rows.len() implies (#[trigger] ins_rows[k]).tx_hash != h by {
        assert(tx.inputs[k].tx_hash != h);
    }
    assert forall|k: int| 0 <= k < ins_rows.len() implies (#[trigger] ins_rows[k]).consumed_by_tx == Some(h) by {
    }
    assert forall|k: int| 0 <= k < out_rows.len() implies (#[trigger] out_rows[k]).tx_hash == h by {
    }
    assert forall|k: int| 0 <= k < out_rows.len() implies (#[trigger] out_rows[k]).consumed_by_tx != Some(h) by {
        assert(tx.outputs[k].consumed_by_tx != Some(h));
    }
    lemma_produced_by_cases(ins_rows, a, h);
    lemma_produced_by_cases(out_rows, a, h);
    lemma_consumed_by_cases(ins_rows, a, h);
    lemma_consumed_by_cases(out_rows, a, h);
    let outs = produced_by(u, a, h);
    let ins = consumed_by(u, a, h);
    assert(outs =~= out_rows.map_values(|r: UtxoRowView| utxo_of(r, a)));
    assert(ins =~= ins_rows.map_values(|r: UtxoRowView| utxo_of(r, a)));
    let want_outs = tx.outputs.map_values(|o: BlockfrostOutputView| output_as_utxo(h, o));
    let want_ins = tx.inputs.map_values(|i: BlockfrostInputView| input_as_utxo(h, i));
    assert forall|k: int| 0 <= k < want_outs.len() implies #[trigger] outs[k] == want_outs[k] by {
        let o = tx.outputs[k];
        assert(out_rows[k] == output_row(h, o));
        lemma_amounts_of_append(input_blocks(tx.inputs), output_blocks(h, tx.outputs), h, o.output_index as i64);
        assert forall|m: int| 0 <= m < tx.inputs.len() implies !((#[trigger] tx.inputs[m]).tx_hash == h
            && tx.inputs[m].output_index as i64 == o.output_index as i64) by {
        }
        lemma_amounts_of_input_blocks(tx.inputs, h, o.output_index as i64);
        lemma_amounts_of_output_blocks(h, tx.outputs, h, o.output_index as i64);
        assert(Seq::<AmountView>::empty() + o.amount.map_values(|x: BlockfrostAmountView| amount_view_of(x))
            =~= o.amount.map_values(|x: BlockfrostAmountView| amount_view_of(x)));
    }
    assert forall|k: int| 0 <= k < want_ins.len() implies #[trigger] ins[k] == want_ins[k] by {
        let i = tx.inputs[k];
        assert(ins_rows[k] == input_row(h, i));
        lemma_amounts_of_append(input_blocks(tx.inputs), output_blocks(h, tx.outputs), i.tx_hash, i.output_index as i64);
        lemma_amounts_of_input_blocks(tx.inputs, i.tx_hash, i.output_index as i64);
        lemma_amounts_of_output_blocks(h, tx.outputs, i.tx_hash, i.output_index as i64);
        assert(i.amount.map_values(|x: BlockfrostAmountView| amount_view_of(x)) + Seq::<AmountView>::empty()
            =~= i.amount.map_values(|x: BlockfrostAmountView| amount_view_of(x)));
    }
    assert(outs =~= want_outs);
    assert(ins =~= want_ins);
    let rows = seq![TxRowView { hash: h, tx_name }];
    assert(is_first_occurrence(rows, 0));
    assert(responses_of(rows, u, a) =~= seq![
        TxResponseView { hash: h, tx_name, inputs: want_ins, outputs: want_outs },
    ]);
}


// ---------------------------------------------------------------------------
// A single lookup agrees with the list
// ---------------------------------------------------------------------------

/// The output rows that transaction `h` created or spent, in order: what a
/// lookup of `h` reads.
pub open spec fn touching(utxos: Seq<UtxoRowView>, h: Seq<char>) -> Seq<UtxoRowView>
    decreases utxos.len(),
{
    if utxos.len() == 0 {
        Seq::empty()
    } else {
        let prev = touching(utxos.drop_last(), h);
        let r = utxos.last();
        if r.tx_hash == h || r.consumed_by_tx == Some(h) {
            prev.push(r)
        } else {
            prev
        }
    }
}

proof fn lemma_touching_keeps_sides(utxos: Seq<UtxoRowView>, amounts: Seq<AmountRowView>, h: Seq<char>)
    ensures
        produced_by(touching(utxos, h), amounts, h) == produced_by(utxos, amounts, h),
        consumed_by(touching(utxos, h), amounts, h) == consumed_by(utxos, amounts, h),
    decreases utxos.len(),
{
    if utxos.len() > 0 {
        lemma_touching_keeps_sides(utxos.drop_last(), amounts, h);
        let prev = touching(utxos.drop_last(), h);
        let r = utxos.last();
        if r.tx_hash == h || r.consumed_by_tx == Some(h) {
            assert(prev.push(r).drop_last() =~= prev);
        }
    }
}

proof fn lemma_selected_amounts_of_kept_output(
    amounts: Seq<AmountRowView>,
    kept: Seq<UtxoRowView>,
    th: Seq<char>,
    idx: i64,
)
    requires
        has_key(kept, (th, idx)),
    ensures
        amounts_of(amounts_of_outputs(amounts, kept), th, idx) == amounts_of(amounts, th, idx),
    decreases amounts.len(),
{
    if amounts.len() > 0 {
        lemma_selected_amounts_of_kept_output(amounts.drop_last(), kept, th, idx);
        let prev = amounts_of_outputs(amounts.drop_last(), kept);
        let last = amounts.last();
        if has_key(kept, (last.tx_hash, last.output_index)) {
            assert(prev.push(last).drop_last() =~= prev);
        }
    }
}

proof fn lemma_sides_with_selected_amounts(
    s: Seq<UtxoRowView>,
    kept: Seq<UtxoRowView>,
    amounts: Seq<AmountRowView>,
    h: Seq<char>,
)
    requires
        forall|k: int| 0 <= k < s.len() ==> has_key(kept, row_key(#[trigger] s[k])),
    ensures
        produced_by(s, amounts_of_outputs(amounts, kept), h) == produced_by(s, amounts, h),
        consumed_by(s, amounts_of_outputs(amounts, kept), h) == consumed_by(s, amounts, h),
    decreases s.len(),
{
    if s.len() > 0 {
        let p = s.drop_last();
        assert forall|k: int| 0 <= k < p.len() implies has_key(kept, row_key(#[trigger] p[k])) by {
            assert(p[k] == s[k]);
        }
        lemma_sides_with_selected_amounts(p, kept, amounts, h);
        let r = s.last();
        assert(has_key(kept, row_key(s[s.len() - 1])));
        lemma_selected_amounts_of_kept_output(amounts, kept, r.tx_hash, r.output_index);
        assert(utxo_of(r, amounts_of_outputs(amounts, kept)) == utxo_of(r, amounts));
    }
}

proof fn lemma_touching_rows_are_kept(utxos: Seq<UtxoRowView>, h: Seq<char>)
    ensures
        forall|k: int|
            0 <= k < touching(utxos, h).len() ==> has_key(
                touching(utxos, h),
                row_key(#[trigger] touching(utxos, h)[k]),
            ),
{
    let t = touching(utxos, h);
    assert forall|k: int| 0 <= k < t.len() implies has_key(t, row_key(#[trigger] t[k])) by {
        assert(row_key(t[k]) == row_key(t[k]));
    }
}

/// What a lookup of one listed transaction reads agrees with the list: the
/// response for a transaction row (the first carrying its hash) is the same
/// whether it is assembled among all listed rows, or alone from the output
/// rows its transaction created or spent and the amount rows of those
/// outputs.
pub proof fn law_single_lookup_agrees_with_list(
    rows: Seq<TxRowView>,
    utxos: Seq<UtxoRowView>,
    amounts: Seq<AmountRowView>,
    i: int,
)
    requires
        0 <= i < rows.len(),
        is_first_occurrence(rows, i),
    ensures
        ({
            let h = rows[i].hash;
            let own = touching(utxos, h);
            responses_of(seq![rows[i]], own, amounts_of_outputs(amounts, own))[0] == responses_of(
                rows,
                utxos,
                amounts,
            )[i]
        }),
{
    let h = rows[i].hash;
    let own = touching(utxos, h);
    lemma_touching_keeps_sides(utxos, amounts, h);
    lemma_touching_rows_are_kept(utxos, h);
    lemma_sides_with_selected_amounts(own, own, amounts, h);
    let single = seq![rows[i]];
    assert(is_first_occurrence(single, 0));
    assert(single[0] == rows[i]);
}

} // verus!
