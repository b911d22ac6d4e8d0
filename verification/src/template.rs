//! The library's model of a lowered transaction template, as far as the
//! protocol's parties and policies are read from it, and how those are
//! resolved against the bound arguments.
use vstd::prelude::*;

use crate::bridge::{address_to_bech32, bech32_address, hex_encode, hex_lower};
use crate::registry::{
    ArgBinding, ArgBindingView, ArgBindings, ProtocolTx, ProtocolTxMint, ProtocolTxMintView,
    ProtocolTxView, RegistryError,
};

verus! {

/// A template expression: a parameter to be evaluated, a list of assets, or
/// anything else.
pub enum TirExpr {
    EvalParam(Box<TirParam>),
    Assets(Vec<TirAsset>),
    Other,
}

/// A template parameter: a value expected under a name, an input expected
/// under a name together with the address its query asks for, or anything
/// else.
pub enum TirParam {
    ExpectValue(String),
    ExpectInput(String, TirExpr),
    Other,
}

/// An asset of a template, by its policy expression.
pub struct TirAsset {
    pub policy: TirExpr,
}

/// A lowered transaction template: the UTxO expression of each input, the
/// address expression of each output, the amount expression of each mint.
pub struct LoweredTx {
    pub inputs: Vec<TirExpr>,
    pub outputs: Vec<TirExpr>,
    pub mints: Vec<TirExpr>,
}

/// The name of the value an expression expects, when it is exactly
/// "evaluate the value parameter `name`".
pub open spec fn expected_value_name(e: TirExpr) -> Option<Seq<char>> {
    match e {
        TirExpr::EvalParam(p) => match *p {
            TirParam::ExpectValue(n) => Some(n@),
            _ => None,
        },
        _ => None,
    }
}

/// The party an input's UTxO expression draws from: the value named by the
/// address its input query asks for.
pub open spec fn input_party_name(e: TirExpr) -> Option<Seq<char>> {
    match e {
        TirExpr::EvalParam(p) => match *p {
            TirParam::ExpectInput(_, q) => expected_value_name(q),
            _ => None,
        },
        _ => None,
    }
}

/// The policy names of a mint's amount expression, one per asset, in order.
pub open spec fn mint_policy_names(e: TirExpr) -> Seq<Option<Seq<char>>> {
    match e {
        TirExpr::Assets(a) => a@.map_values(|x: TirAsset| expected_value_name(x.policy)),
        _ => Seq::empty(),
    }
}

/// The policy names of all mints, in order.
pub open spec fn policy_names(mints: Seq<TirExpr>) -> Seq<Option<Seq<char>>>
    decreases mints.len(),
{
    if mints.len() == 0 {
        Seq::empty()
    } else {
        policy_names(mints.drop_last()) + mint_policy_names(mints.last())
    }
}

/// The argument a name resolves to: the environment's binding first, then
/// the transaction's own parameters.
pub open spec fn lookup_arg(
    env: Map<Seq<char>, ArgBindingView>,
    params: Map<Seq<char>, ArgBindingView>,
    name: Seq<char>,
) -> Option<ArgBindingView> {
    if env.contains_key(name) {
        Some(env[name])
    } else if params.contains_key(name) {
        Some(params[name])
    } else {
        None
    }
}

/// The bech32 addresses of the parties named by `names`, in order; a name
/// that is absent or not bound to an address contributes nothing. `None`
/// when some address argument has no bech32 text.
pub open spec fn party_addresses(
    names: Seq<Option<Seq<char>>>,
    env: Map<Seq<char>, ArgBindingView>,
    params: Map<Seq<char>, ArgBindingView>,
) -> Option<Seq<Seq<char>>>
    decreases names.len(),
{
    if names.len() == 0 {
        Some(Seq::empty())
    } else {
        match party_addresses(names.drop_last(), env, params) {
            None => None,
            Some(prev) => match names.last() {
                None => Some(prev),
                Some(n) => match lookup_arg(env, params, n) {
                    Some(ArgBindingView::Address(b)) => match bech32_address(b) {
                        Some(a) => Some(prev.push(a)),
                        None => None,
                    },
                    _ => Some(prev),
                },
            },
        }
    }
}

/// The hex-encoded policies named by `names`, in order; a name that is
/// absent or not bound to bytes contributes nothing.
pub open spec fn policies(
    names: Seq<Option<Seq<char>>>,
    env: Map<Seq<char>, ArgBindingView>,
    params: Map<Seq<char>, ArgBindingView>,
) -> Seq<Seq<char>>
    decreases names.len(),
{
    if names.len() == 0 {
        Seq::empty()
    } else {
        let prev = policies(names.drop_last(), env, params);
        match names.last() {
            None => prev,
            Some(n) => match lookup_arg(env, params, n) {
                Some(ArgBindingView::Bytes(b)) => prev.push(hex_lower(b)),
                _ => prev,
            },
        }
    }
}

/// The protocol transaction described by the lowered template `l` under the
/// name `name`; `None` when some party address has no bech32 text.
pub open spec fn resolved_tx(
    name: Seq<char>,
    l: LoweredTx,
    env: Map<Seq<char>, ArgBindingView>,
    params: Map<Seq<char>, ArgBindingView>,
) -> Option<ProtocolTxView> {
    let ins = party_addresses(l.inputs@.map_values(|e: TirExpr| input_party_name(e)), env, params);
    let outs = party_addresses(
        l.outputs@.map_values(|e: TirExpr| expected_value_name(e)),
        env,
        params,
    );
    match (ins, outs) {
        (Some(i), Some(o)) => Some(
            ProtocolTxView {
                name,
                inputs: i,
                outputs: o,
                mints: policies(policy_names(l.mints@), env, params).map_values(
                    |p: Seq<char>| ProtocolTxMintView { policy: p },
                ),
            },
        ),
        _ => None,
    }
}

/// What one party name contributes to [`party_addresses`].
pub open spec fn party_address_of(
    name: Option<Seq<char>>,
    env: Map<Seq<char>, ArgBindingView>,
    params: Map<Seq<char>, ArgBindingView>,
) -> Option<Seq<Seq<char>>> {
    match name {
        None => Some(Seq::empty()),
        Some(n) => match lookup_arg(env, params, n) {
            Some(ArgBindingView::Address(b)) => match bech32_address(b) {
                Some(a) => Some(seq![a]),
                None => None,
            },
            _ => Some(Seq::empty()),
        },
    }
}

proof fn lemma_policies_append(
    a: Seq<Option<Seq<char>>>,
    b: Seq<Option<Seq<char>>>,
    env: Map<Seq<char>, ArgBindingView>,
    params: Map<Seq<char>, ArgBindingView>,
)
    ensures
        policies(a + b, env, params) == policies(a, env, params) + policies(b, env, params),
    decreases b.len(),
{
    if b.len() == 0 {
        assert(a + b =~= a);
        assert(policies(a, env, params) + policies(b, env, params) =~= policies(a, env, params));
    } else {
        lemma_policies_append(a, b.drop_last(), env, params);
        assert((a + b).drop_last() =~= a + b.drop_last());
        assert((a + b).last() == b.last());
        let pa = policies(a, env, params);
        let pb = policies(b.drop_last(), env, params);
        match b.last() {
            None => {},
            Some(n) => match lookup_arg(env, params, n) {
                Some(ArgBindingView::Bytes(x)) => {
                    assert((pa + pb).push(hex_lower(x)) =~= pa + pb.push(hex_lower(x)));
                },
                _ => {},
            },
        }
    }
}

fn expected_value_name_exec(e: &TirExpr) -> (r: Option<&String>)
    ensures
        r.deep_view() == expected_value_name(*e),
{
    match e {
        TirExpr::EvalParam(p) => match &**p {
            TirParam::ExpectValue(n) => Some(n),
            _ => None,
        },
        _ => None,
    }
}

fn input_party_name_exec(e: &TirExpr) -> (r: Option<&String>)
    ensures
        r.deep_view() == input_party_name(*e),
{
    match e {
        TirExpr::EvalParam(p) => match &**p {
            TirParam::ExpectInput(_, q) => expected_value_name_exec(q),
            _ => None,
        },
        _ => None,
    }
}

/// The argument `name` resolves to, environment first.
fn lookup_arg_exec(env: &ArgBindings, params: &ArgBindings, name: &String) -> (r: Option<ArgBinding>)
    ensures
        r matches Some(v) ==> lookup_arg(env@, params@, name@) == Some(v@),
        r is None ==> lookup_arg(env@, params@, name@) is None,
{
    match env.get(name) {
        Some(v) => Some(v),
        None => params.get(name),
    }
}

/// Appends the bech32 address of the party `name` to `out`, as
/// [`party_addresses`] does for one name.
fn push_party_address(
    out: &mut Vec<String>,
    name: Option<&String>,
    env: &ArgBindings,
    params: &ArgBindings,
) -> (r: Result<(), RegistryError>)
    ensures
        ({
            let one = party_address_of(name.deep_view(), env@, params@);
            &&& r is Ok <==> one is Some
            &&& r matches Err(e) ==> e == RegistryError::InvalidAddress
            &&& r is Ok ==> final(out).deep_view() == old(out).deep_view() + one->Some_0
        }),
{
    if let Some(n) = name {
        if let Some(ArgBinding::Address(bytes)) = lookup_arg_exec(env, params, n) {
            match address_to_bech32(bytes.as_slice()) {
                Ok(a) => {
                    let ghost before = out.deep_view();
                    let ghost av = a@;
                    out.push(a);
                    assert(out.deep_view() =~= before + seq![av]);
                },
                Err(_) => {
                    return Err(RegistryError::InvalidAddress);
                },
            }
        } else {
            assert(out.deep_view() =~= old(out).deep_view() + Seq::<Seq<char>>::empty());
        }
    } else {
        assert(out.deep_view() =~= old(out).deep_view() + Seq::<Seq<char>>::empty());
    }
    Ok(())
}

proof fn lemma_party_addresses_step(
    names: Seq<Option<Seq<char>>>,
    i: int,
    env: Map<Seq<char>, ArgBindingView>,
    params: Map<Seq<char>, ArgBindingView>,
)
    requires
        0 <= i < names.len(),
        party_addresses(names.take(i), env, params) is Some,
    ensures
        party_addresses(names.take(i + 1), env, params) == match party_address_of(
            names[i],
            env,
            params,
        ) {
            Some(x) => Some(party_addresses(names.take(i), env, params)->Some_0 + x),
            None => None::<Seq<Seq<char>>>,
        },
{
    assert(names.take(i + 1).drop_last() =~= names.take(i));
    let prev = party_addresses(names.take(i), env, params)->Some_0;
    assert(prev + Seq::<Seq<char>>::empty() =~= prev);
    match names[i] {
        None => {},
        Some(n) => match lookup_arg(env, params, n) {
            Some(ArgBindingView::Address(b)) => match bech32_address(b) {
                Some(a) => {
                    assert(Seq::<Seq<char>>::empty().push(a) =~= seq![a]);
                    assert(prev.push(a) =~= prev + seq![a]);
                },
                None => {},
            },
            _ => {},
        },
    }
}

proof fn lemma_party_addresses_none_sticks(
    names: Seq<Option<Seq<char>>>,
    n: int,
    env: Map<Seq<char>, ArgBindingView>,
    params: Map<Seq<char>, ArgBindingView>,
)
    requires
        0 <= n <= names.len(),
        party_addresses(names.take(n), env, params) is None,
    ensures
        party_addresses(names, env, params) is None,
    decreases names.len() - n,
{
    if n < names.len() {
        assert(names.take(n + 1).drop_last() =~= names.take(n));
        lemma_party_addresses_none_sticks(names, n + 1, env, params);
    } else {
        assert(names.take(n) =~= names);
    }
}

fn input_addresses(l: &LoweredTx, env: &ArgBindings, params: &ArgBindings) -> (r: Result<
    Vec<String>,
    RegistryError,
>)
    ensures
        ({
            let want = party_addresses(
                l.inputs@.map_values(|e: TirExpr| input_party_name(e)),
                env@,
                params@,
            );
            &&& r is Ok <==> want is Some
            &&& r matches Err(e) ==> e == RegistryError::InvalidAddress
            &&& r matches Ok(v) ==> v.deep_view() == want->Some_0
        }),
{
    let ghost names = l.inputs@.map_values(|e: TirExpr| input_party_name(e));
    let mut out: Vec<String> = Vec::new();
    assert(names.take(0) =~= Seq::<Option<Seq<char>>>::empty());
    let mut i: usize = 0;
    while i < l.inputs.len()
        invariant
            i <= l.inputs.len(),
            names == l.inputs@.map_values(|e: TirExpr| input_party_name(e)),
            party_addresses(names.take(i as int), env@, params@) == Some(out.deep_view()),
        decreases l.inputs.len() - i,
    {
        let name = input_party_name_exec(&l.inputs[i]);
        proof {
            lemma_party_addresses_step(names, i as int, env@, params@);
        }
        match push_party_address(&mut out, name, env, params) {
            Ok(()) => {},
            Err(e) => {
                proof {
                    lemma_party_addresses_none_sticks(names, i as int + 1, env@, params@);
                }
                return Err(e);
            },
        }
        i = i + 1;
    }
    assert(names.take(l.inputs.len() as int) =~= names);
    Ok(out)
}

fn output_addresses(l: &LoweredTx, env: &ArgBindings, params: &ArgBindings) -> (r: Result<
    Vec<String>,
    RegistryError,
>)
    ensures
        ({
            let want = party_addresses(
                l.outputs@.map_values(|e: TirExpr| expected_value_name(e)),
                env@,
                params@,
            );
            &&& r is Ok <==> want is Some
            &&& r matches Err(e) ==> e == RegistryError::InvalidAddress
            &&& r matches Ok(v) ==> v.deep_view() == want->Some_0
        }),
{
    let ghost names = l.outputs@.map_values(|e: TirExpr| expected_value_name(e));
    let mut out: Vec<String> = Vec::new();
    assert(names.take(0) =~= Seq::<Option<Seq<char>>>::empty());
    let mut i: usize = 0;
    while i < l.outputs.len()
        invariant
            i <= l.outputs.len(),
            names == l.outputs@.map_values(|e: TirExpr| expected_value_name(e)),
            party_addresses(names.take(i as int), env@, params@) == Some(out.deep_view()),
        decreases l.outputs.len() - i,
    {
        let name = expected_value_name_exec(&l.outputs[i]);
        proof {
            lemma_party_addresses_step(names, i as int, env@, params@);
        }
        match push_party_address(&mut out, name, env, params) {
            Ok(()) => {},
            Err(e) => {
                proof {
                    lemma_party_addresses_none_sticks(names, i as int + 1, env@, params@);
                }
                return Err(e);
            },
        }
        i = i + 1;
    }
    assert(names.take(l.outputs.len() as int) =~= names);
    Ok(out)
}

fn mint_policies(l: &LoweredTx, env: &ArgBindings, params: &ArgBindings) -> (r: Vec<ProtocolTxMint>)
    ensures
        r.deep_view() == policies(policy_names(l.mints@), env@, params@).map_values(
            |p: Seq<char>| ProtocolTxMintView { policy: p },
        ),
{
    let ghost mints = l.mints@;
    let mut out: Vec<String> = Vec::new();
    assert(mints.take(0) =~= Seq::<TirExpr>::empty());
    let mut i: usize = 0;
    while i < l.mints.len()
        invariant
            i <= l.mints.len(),
            mints == l.mints@,
            out.deep_view() == policies(policy_names(mints.take(i as int)), env@, params@),
        decreases l.mints.len() - i,
    {
        assert(mints.take(i as int + 1).drop_last() =~= mints.take(i as int));
        let ghost before = out.deep_view();
        let ghost names_i = mint_policy_names(mints[i as int]);
        if let TirExpr::Assets(assets) = &l.mints[i] {
            let mut k: usize = 0;
            assert(names_i.take(0) =~= Seq::<Option<Seq<char>>>::empty());
            while k < assets.len()
                invariant
                    k <= assets.len(),
                    i < l.mints.len(),
                    mints == l.mints@,
                    names_i == assets@.map_values(|x: TirAsset| expected_value_name(x.policy)),
                    out.deep_view() == before + policies(names_i.take(k as int), env@, params@),
                decreases assets.len() - k,
            {
                assert(names_i.take(k as int + 1).drop_last() =~= names_i.take(k as int));
                let name = expected_value_name_exec(&assets[k].policy);
                if let Some(n) = name {
                    if let Some(ArgBinding::Bytes(bytes)) = lookup_arg_exec(env, params, n) {
                        let h = hex_encode(bytes.as_slice());
                        let ghost hv = h@;
                        let ghost mid = out.deep_view();
                        out.push(h);
                        assert(out.deep_view() =~= mid.push(hv));
                    }
                }
                k = k + 1;
            }
            assert(names_i.take(assets.len() as int) =~= names_i);
        } else {
            assert(out.deep_view() =~= before + policies(names_i, env@, params@));
        }
        proof {
            lemma_policies_append(policy_names(mints.take(i as int)), names_i, env@, params@);
        }
        i = i + 1;
    }
    assert(mints.take(l.mints.len() as int) =~= mints);
    let mut result: Vec<ProtocolTxMint> = Vec::new();
    let mut j: usize = 0;
    while j < out.len()
        invariant
            j <= out.len(),
            result.deep_view() == out.deep_view().take(j as int).map_values(
                |p: Seq<char>| ProtocolTxMintView { policy: p },
            ),
        decreases out.len() - j,
    {
        let ghost before = result.deep_view();
        result.push(ProtocolTxMint { policy: out[j].clone() });
        assert(result.deep_view() =~= before.push(ProtocolTxMintView { policy: out.deep_view()[j as int] }));
        assert(out.deep_view().take(j as int + 1) =~= out.deep_view().take(j as int).push(out.deep_view()[j as int]));
        assert(result.deep_view() =~= out.deep_view().take(j as int + 1).map_values(
            |p: Seq<char>| ProtocolTxMintView { policy: p },
        ));
        j = j + 1;
    }
    assert(out.deep_view().take(out.len() as int) =~= out.deep_view());
    result
}

/// The protocol transaction described by the lowered template `l` under the
/// name `name`: the bech32 addresses of the parties its inputs draw from and
/// its outputs pay to, and the hex-encoded policies it mints under, each
/// resolved from the environment bindings first and the transaction's own
/// parameters second. Fails when an address argument has no bech32 text.
pub fn resolve_protocol_tx(name: String, l: &LoweredTx, env: &ArgBindings, params: &ArgBindings) -> (r:
    Result<ProtocolTx, RegistryError>)
    ensures
        r is Ok <==> resolved_tx(name@, *l, env@, params@) is Some,
        r matches Err(e) ==> e == RegistryError::InvalidAddress,
        r matches Ok(p) ==> resolved_tx(name@, *l, env@, params@) == Some(p@),
{
    let inputs = match input_addresses(l, env, params) {
        Ok(v) => v,
        Err(e) => return Err(e),
    };
    let outputs = match output_addresses(l, env, params) {
        Ok(v) => v,
        Err(e) => return Err(e),
    };
    let mints = mint_policies(l, env, params);
    Ok(ProtocolTx { name, inputs, outputs, mints })
}

/// A transaction of a protocol as the library reads it: its name, its
/// declared parameter types (name and written type, in declaration order),
/// and its lowered template or the toolchain's message for why it does not
/// lower.
pub struct TxTemplate {
    pub name: String,
    pub parameter_types: Vec<(String, String)>,
    pub lowered: Result<LoweredTx, String>,
}


/// A name bound in the environment resolves to its environment binding,
/// whatever the transaction's own parameters bind it to.
pub proof fn law_env_binding_wins(
    env: Map<Seq<char>, ArgBindingView>,
    params: Map<Seq<char>, ArgBindingView>,
    name: Seq<char>,
)
    requires
        env.contains_key(name),
    ensures
        lookup_arg(env, params, name) == Some(env[name]),
{
}

/// Each policy a protocol transaction lists is hex text: two lower-case
/// hexadecimal digits per byte of the policy argument.
pub proof fn law_policy_text_is_hex(bytes: Seq<u8>)
    ensures
        hex_lower(bytes).len() == 2 * bytes.len(),
        forall|k: int|
            0 <= k < hex_lower(bytes).len() ==> {
                let c = #[trigger] hex_lower(bytes)[k];
                ('0' <= c <= '9') || ('a' <= c <= 'f')
            },
    decreases bytes.len(),
{
    if bytes.len() > 0 {
        law_policy_text_is_hex(bytes.drop_last());
        let prev = hex_lower(bytes.drop_last());
        let b = bytes.last();
        let hi = b / 16;
        let lo = b % 16;
        assert(hi < 16 && lo < 16);
        let r = hex_lower(bytes);
        assert forall|k: int| 0 <= k < r.len() implies {
            let c = #[trigger] r[k];
            ('0' <= c <= '9') || ('a' <= c <= 'f')
        } by {
            if k < prev.len() {
                assert(r[k] == prev[k]);
            }
        }
    }
}


proof fn lemma_resolution_agrees(
    names: Seq<Option<Seq<char>>>,
    env: Map<Seq<char>, ArgBindingView>,
    p1: Map<Seq<char>, ArgBindingView>,
    p2: Map<Seq<char>, ArgBindingView>,
)
    requires
        forall|n: Seq<char>| #[trigger] lookup_arg(env, p1, n) == lookup_arg(env, p2, n),
    ensures
        party_addresses(names, env, p1) == party_addresses(names, env, p2),
        policies(names, env, p1) == policies(names, env, p2),
    decreases names.len(),
{
    if names.len() > 0 {
        lemma_resolution_agrees(names.drop_last(), env, p1, p2);
        if let Some(n) = names.last() {
            assert(lookup_arg(env, p1, n) == lookup_arg(env, p2, n));
        }
    }
}

/// The transaction's own parameters matter only for names the environment
/// does not bind: two sets of parameters that agree on every other name
/// resolve a template to the same protocol transaction.
pub proof fn law_env_shadows_tx_parameters(
    name: Seq<char>,
    l: LoweredTx,
    env: Map<Seq<char>, ArgBindingView>,
    p1: Map<Seq<char>, ArgBindingView>,
    p2: Map<Seq<char>, ArgBindingView>,
)
    requires
        forall|k: Seq<char>|
            !env.contains_key(k) ==> (#[trigger] p1.contains_key(k) == p2.contains_key(k) && (
            p1.contains_key(k) ==> p1[k] == p2[k])),
    ensures
        resolved_tx(name, l, env, p1) == resolved_tx(name, l, env, p2),
{
    assert forall|n: Seq<char>| #[trigger] lookup_arg(env, p1, n) == lookup_arg(env, p2, n) by {
        if !env.contains_key(n) {
            assert(p1.contains_key(n) == p2.contains_key(n));
        }
    }
    lemma_resolution_agrees(l.inputs@.map_values(|e: TirExpr| input_party_name(e)), env, p1, p2);
    lemma_resolution_agrees(l.outputs@.map_values(|e: TirExpr| expected_value_name(e)), env, p1, p2);
    lemma_resolution_agrees(policy_names(l.mints@), env, p1, p2);
}


// ---------------------------------------------------------------------------
// How a template's parties and policies come out
// ---------------------------------------------------------------------------

/// The expression "evaluate the value parameter `n`".
pub open spec fn value_param(n: String) -> TirExpr {
    TirExpr::EvalParam(Box::new(TirParam::ExpectValue(n)))
}

/// The input expression "an input `query` drawn from the address that the
/// value parameter `n` holds".
pub open spec fn party_input(query: String, n: String) -> TirExpr {
    TirExpr::EvalParam(Box::new(TirParam::ExpectInput(query, value_param(n))))
}

proof fn lemma_party_addresses_concat(
    a: Seq<Option<Seq<char>>>,
    b: Seq<Option<Seq<char>>>,
    env: Map<Seq<char>, ArgBindingView>,
    params: Map<Seq<char>, ArgBindingView>,
)
    ensures
        party_addresses(a + b, env, params) == match (
            party_addresses(a, env, params),
            party_addresses(b, env, params),
        ) {
            (Some(x), Some(y)) => Some(x + y),
            _ => None::<Seq<Seq<char>>>,
        },
    decreases b.len(),
{
    if b.len() == 0 {
        assert(a + b =~= a);
        if let Some(x) = party_addresses(a, env, params) {
            assert(x + Seq::<Seq<char>>::empty() =~= x);
        }
    } else {
        lemma_party_addresses_concat(a, b.drop_last(), env, params);
        assert((a + b).drop_last() =~= a + b.drop_last());
        assert((a + b).last() == b.last());
        if let (Some(x), Some(y)) = (party_addresses(a, env, params), party_addresses(b.drop_last(), env, params)) {
            match b.last() {
                None => {},
                Some(n) => match lookup_arg(env, params, n) {
                    Some(ArgBindingView::Address(bb)) => match bech32_address(bb) {
                        Some(c) => {
                            assert((x + y).push(c) =~= x + y.push(c));
                        },
                        None => {},
                    },
                    _ => {},
                },
            }
        } else {
            if party_addresses(a, env, params) is Some {
                // the part of `b` before its last already fails
                assert(party_addresses(b.drop_last(), env, params) is None);
            }
        }
    }
}

proof fn lemma_policy_names_concat(m1: Seq<TirExpr>, m2: Seq<TirExpr>)
    ensures
        policy_names(m1 + m2) == policy_names(m1) + policy_names(m2),
    decreases m2.len(),
{
    if m2.len() == 0 {
        assert(m1 + m2 =~= m1);
        assert(policy_names(m1) + policy_names(m2) =~= policy_names(m1));
    } else {
        lemma_policy_names_concat(m1, m2.drop_last());
        assert((m1 + m2).drop_last() =~= m1 + m2.drop_last());
        assert((m1 + m2).last() == m2.last());
        assert(policy_names(m1) + policy_names(m2.drop_last()) + mint_policy_names(m2.last())
            =~= policy_names(m1) + (policy_names(m2.drop_last()) + mint_policy_names(m2.last())));
    }
}

/// Resolution goes part by part: a template whose inputs, outputs and mints
/// are those of two templates one after the other resolves, when it does, to
/// the parties and policies of the first followed by those of the second.
pub proof fn law_resolution_concatenates(
    name: Seq<char>,
    l: LoweredTx,
    l1: LoweredTx,
    l2: LoweredTx,
    env: Map<Seq<char>, ArgBindingView>,
    params: Map<Seq<char>, ArgBindingView>,
)
    requires
        l.inputs@ == l1.inputs@ + l2.inputs@,
        l.outputs@ == l1.outputs@ + l2.outputs@,
        l.mints@ == l1.mints@ + l2.mints@,
        resolved_tx(name, l, env, params) is Some,
    ensures
        resolved_tx(name, l1, env, params) matches Some(p1) && resolved_tx(name, l2, env, params) matches Some(
            p2,
        ) && resolved_tx(name, l, env, params)->Some_0.inputs == p1.inputs + p2.inputs && resolved_tx(
            name,
            l,
            env,
            params,
        )->Some_0.outputs == p1.outputs + p2.outputs && resolved_tx(name, l, env, params)->Some_0.mints
            == p1.mints + p2.mints,
{
    let fi = |e: TirExpr| input_party_name(e);
    let fo = |e: TirExpr| expected_value_name(e);
    assert(l.inputs@.map_values(fi) =~= l1.inputs@.map_values(fi) + l2.inputs@.map_values(fi));
    assert(l.outputs@.map_values(fo) =~= l1.outputs@.map_values(fo) + l2.outputs@.map_values(fo));
    lemma_party_addresses_concat(l1.inputs@.map_values(fi), l2.inputs@.map_values(fi), env, params);
    lemma_party_addresses_concat(l1.outputs@.map_values(fo), l2.outputs@.map_values(fo), env, params);
    lemma_policy_names_concat(l1.mints@, l2.mints@);
    lemma_policies_append(policy_names(l1.mints@), policy_names(l2.mints@), env, params);
    let mk = |p: Seq<char>| ProtocolTxMintView { policy: p };
    let q1 = policies(policy_names(l1.mints@), env, params);
    let q2 = policies(policy_names(l2.mints@), env, params);
    assert((q1 + q2).map_values(mk) =~= q1.map_values(mk) + q2.map_values(mk));
}

/// The policies of one mint go asset by asset: a mint whose assets are those
/// of two mints one after the other contributes the policies of the first
/// followed by those of the second.
pub proof fn law_mint_assets_concatenate(
    name: Seq<char>,
    l: LoweredTx,
    l1: LoweredTx,
    l2: LoweredTx,
    v: Vec<TirAsset>,
    v1: Vec<TirAsset>,
    v2: Vec<TirAsset>,
    env: Map<Seq<char>, ArgBindingView>,
    params: Map<Seq<char>, ArgBindingView>,
)
    requires
        v@ == v1@ + v2@,
        l.mints@ == seq![TirExpr::Assets(v)],
        l1.mints@ == seq![TirExpr::Assets(v1)],
        l2.mints@ == seq![TirExpr::Assets(v2)],
        l1.inputs@ == l.inputs@ && l2.inputs@ == l.inputs@,
        l1.outputs@ == l.outputs@ && l2.outputs@ == l.outputs@,
        resolved_tx(name, l, env, params) is Some,
    ensures
        resolved_tx(name, l1, env, params) matches Some(p1) && resolved_tx(name, l2, env, params) matches Some(
            p2,
        ) && resolved_tx(name, l, env, params)->Some_0.mints == p1.mints + p2.mints,
{
    let f = |x: TirAsset| expected_value_name(x.policy);
    assert(v@.map_values(f) =~= v1@.map_values(f) + v2@.map_values(f));
    let e: Seq<TirExpr> = Seq::empty();
    assert(policy_names(l.mints@) == policy_names(l.mints@.drop_last()) + mint_policy_names(l.mints@.last()));
    assert(l.mints@.drop_last() =~= e);
    assert(l1.mints@.drop_last() =~= e);
    assert(l2.mints@.drop_last() =~= e);
    assert(policy_names(l.mints@) =~= v@.map_values(f));
    assert(policy_names(l1.mints@) =~= v1@.map_values(f));
    assert(policy_names(l2.mints@) =~= v2@.map_values(f));
    lemma_policies_append(v1@.map_values(f), v2@.map_values(f), env, params);
    let mk = |p: Seq<char>| ProtocolTxMintView { policy: p };
    let q1 = policies(v1@.map_values(f), env, params);
    let q2 = policies(v2@.map_values(f), env, params);
    assert((q1 + q2).map_values(mk) =~= q1.map_values(mk) + q2.map_values(mk));
}

/// One input drawn from the party `n`: it contributes the bech32 address of
/// the address `n` is bound to (environment first, then the transaction's
/// own parameters), and nothing when `n` is not bound to an address.
pub proof fn law_input_party_resolves(
    name: Seq<char>,
    l: LoweredTx,
    query: String,
    n: String,
    env: Map<Seq<char>, ArgBindingView>,
    params: Map<Seq<char>, ArgBindingView>,
)
    requires
        l.inputs@ == seq![party_input(query, n)],
        resolved_tx(name, l, env, params) is Some,
    ensures
        ({
            let bound = if env.contains_key(n@) {
                Some(env[n@])
            } else if params.contains_key(n@) {
                Some(params[n@])
            } else {
                None
            };
            let p = resolved_tx(name, l, env, params)->Some_0;
            match bound {
                Some(ArgBindingView::Address(b)) => bech32_address(b) == Some(p.inputs[0]) && p.inputs.len()
                    == 1,
                _ => p.inputs.len() == 0,
            }
        }),
{
    let fi = |e: TirExpr| input_party_name(e);
    let names = l.inputs@.map_values(fi);
    assert(names =~= seq![Some(n@)]);
    lemma_single_party(names, env, params);
}

/// One output paying to the party `n`: it contributes the bech32 address of
/// the address `n` is bound to, and nothing when `n` is not bound to an
/// address.
pub proof fn law_output_party_resolves(
    name: Seq<char>,
    l: LoweredTx,
    n: String,
    env: Map<Seq<char>, ArgBindingView>,
    params: Map<Seq<char>, ArgBindingView>,
)
    requires
        l.outputs@ == seq![value_param(n)],
        resolved_tx(name, l, env, params) is Some,
    ensures
        ({
            let bound = if env.contains_key(n@) {
                Some(env[n@])
            } else if params.contains_key(n@) {
                Some(params[n@])
            } else {
                None
            };
            let p = resolved_tx(name, l, env, params)->Some_0;
            match bound {
                Some(ArgBindingView::Address(b)) => bech32_address(b) == Some(p.outputs[0])
                    && p.outputs.len() == 1,
                _ => p.outputs.len() == 0,
            }
        }),
{
    let fo = |e: TirExpr| expected_value_name(e);
    let names = l.outputs@.map_values(fo);
    assert(names =~= seq![Some(n@)]);
    lemma_single_party(names, env, params);
}

proof fn lemma_single_policy(
    names: Seq<Option<Seq<char>>>,
    env: Map<Seq<char>, ArgBindingView>,
    params: Map<Seq<char>, ArgBindingView>,
)
    requires
        names.len() == 1,
    ensures
        policies(names, env, params) == match names[0] {
            Some(n) => match lookup_arg(env, params, n) {
                Some(ArgBindingView::Bytes(b)) => seq![hex_lower(b)],
                _ => Seq::<Seq<char>>::empty(),
            },
            None => Seq::<Seq<char>>::empty(),
        },
{
    assert(names.drop_last() =~= Seq::<Option<Seq<char>>>::empty());
    assert(policies(names.drop_last(), env, params) == Seq::<Seq<char>>::empty());
    assert(names.last() == names[0]);
    if let Some(n) = names[0] {
        if let Some(ArgBindingView::Bytes(b)) = lookup_arg(env, params, n) {
            assert(Seq::<Seq<char>>::empty().push(hex_lower(b)) =~= seq![hex_lower(b)]);
        }
    }
}

proof fn lemma_single_party(
    names: Seq<Option<Seq<char>>>,
    env: Map<Seq<char>, ArgBindingView>,
    params: Map<Seq<char>, ArgBindingView>,
)
    requires
        names.len() == 1,
    ensures
        party_addresses(names, env, params) == party_address_of(names[0], env, params),
{
    assert(names.drop_last() =~= Seq::<Option<Seq<char>>>::empty());
    assert(party_addresses(names.drop_last(), env, params) == Some(Seq::<Seq<char>>::empty()));
    assert(names.last() == names[0]);
    if let Some(n) = names[0] {
        if let Some(ArgBindingView::Address(b)) = lookup_arg(env, params, n) {
            if let Some(a) = bech32_address(b) {
                assert(Seq::<Seq<char>>::empty().push(a) =~= seq![a]);
            }
        }
    }
}

/// An input or output of any other form names no party and contributes
/// nothing.
pub proof fn law_other_parties_resolve_to_nothing(
    name: Seq<char>,
    l: LoweredTx,
    env: Map<Seq<char>, ArgBindingView>,
    params: Map<Seq<char>, ArgBindingView>,
)
    requires
        l.inputs@.len() == 1,
        l.outputs@.len() == 1,
        forall|q: String, n: String| l.inputs@[0] != party_input(q, n),
        forall|n: String| l.outputs@[0] != value_param(n),
        resolved_tx(name, l, env, params) is Some,
    ensures
        resolved_tx(name, l, env, params)->Some_0.inputs.len() == 0,
        resolved_tx(name, l, env, params)->Some_0.outputs.len() == 0,
{
    let fi = |e: TirExpr| input_party_name(e);
    let fo = |e: TirExpr| expected_value_name(e);
    let ei = l.inputs@[0];
    let eo = l.outputs@[0];
    assert(input_party_name(ei) is None) by {
        if let TirExpr::EvalParam(p) = ei {
            if let TirParam::ExpectInput(q, x) = *p {
                if let TirExpr::EvalParam(pp) = x {
                    if let TirParam::ExpectValue(n) = *pp {
                        assert(ei == party_input(q, n));
                    }
                }
            }
        }
    }
    assert(expected_value_name(eo) is None) by {
        if let TirExpr::EvalParam(p) = eo {
            if let TirParam::ExpectValue(n) = *p {
                assert(eo == value_param(n));
            }
        }
    }
    let ni = l.inputs@.map_values(fi);
    let no = l.outputs@.map_values(fo);
    assert(ni =~= seq![None::<Seq<char>>]);
    assert(no =~= seq![None::<Seq<char>>]);
    lemma_single_party(ni, env, params);
    lemma_single_party(no, env, params);
}

/// A mint of one asset under the policy `n`: it contributes the hex text of
/// the bytes `n` is bound to, and nothing when `n` is not bound to bytes; a
/// mint that is not a list of assets, or an asset whose policy is of another
/// form, contributes nothing.
pub proof fn law_mint_policy_resolves(
    name: Seq<char>,
    l: LoweredTx,
    v: Vec<TirAsset>,
    n: String,
    env: Map<Seq<char>, ArgBindingView>,
    params: Map<Seq<char>, ArgBindingView>,
)
    requires
        resolved_tx(name, l, env, params) is Some,
        l.mints@.len() == 1,
    ensures
        l.mints@[0] == TirExpr::Assets(v) && v@ == seq![TirAsset { policy: value_param(n) }] ==> ({
            let bound = if env.contains_key(n@) {
                Some(env[n@])
            } else if params.contains_key(n@) {
                Some(params[n@])
            } else {
                None
            };
            let p = resolved_tx(name, l, env, params)->Some_0;
            match bound {
                Some(ArgBindingView::Bytes(b)) => p.mints == seq![ProtocolTxMintView { policy: hex_lower(b) }],
                _ => p.mints.len() == 0,
            }
        }),
        !(l.mints@[0] is Assets) ==> resolved_tx(name, l, env, params)->Some_0.mints.len() == 0,
        l.mints@[0] == TirExpr::Assets(v) && v@.len() == 1 && (forall|m: String|
            v@[0].policy != value_param(m)) ==> resolved_tx(name, l, env, params)->Some_0.mints.len() == 0,
{
    let e: Seq<TirExpr> = Seq::empty();
    assert(l.mints@.drop_last() =~= e);
    assert(policy_names(e) == Seq::<Option<Seq<char>>>::empty());
    assert(policy_names(l.mints@) =~= mint_policy_names(l.mints@[0]));
    let f = |x: TirAsset| expected_value_name(x.policy);
    let mk = |p: Seq<char>| ProtocolTxMintView { policy: p };
    if l.mints@[0] == TirExpr::Assets(v) && v@.len() == 1 {
        assert(policy_names(l.mints@) =~= v@.map_values(f));
        let pol = v@[0].policy;
        assert(v@.map_values(f) =~= seq![expected_value_name(pol)]);
        lemma_single_policy(seq![expected_value_name(pol)], env, params);
        assert(Seq::<Seq<char>>::empty().map_values(mk) =~= Seq::<ProtocolTxMintView>::empty());
        if v@ == seq![TirAsset { policy: value_param(n) }] {
            assert(expected_value_name(pol) == Some(n@));
            if let Some(ArgBindingView::Bytes(b)) = lookup_arg(env, params, n@) {
                assert(Seq::<Seq<char>>::empty().push(hex_lower(b)) =~= seq![hex_lower(b)]);
                assert(seq![hex_lower(b)].map_values(mk) =~= seq![ProtocolTxMintView { policy: hex_lower(b) }]);
            }
        }
        if forall|m: String| pol != value_param(m) {
            assert(expected_value_name(pol) is None) by {
                if let TirExpr::EvalParam(p) = pol {
                    if let TirParam::ExpectValue(m) = *p {
                        assert(pol == value_param(m));
                    }
                }
            }
        }
    }
    if !(l.mints@[0] is Assets) {
        assert(policy_names(l.mints@) =~= Seq::<Option<Seq<char>>>::empty());
    }
}

} // verus!
