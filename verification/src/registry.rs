use vstd::prelude::*;

use crate::bridge::{argument_from_json, json_argument, str_equals};
use crate::template::{law_env_shadows_tx_parameters, resolve_protocol_tx, resolved_tx, TxTemplate};

verus! {

/// A minting policy a protocol transaction refers to, hex encoded.
#[derive(Debug)]
pub struct ProtocolTxMint {
    pub policy: String,
}

pub struct ProtocolTxMintView {
    pub policy: Seq<char>,
}

impl View for ProtocolTxMint {
    type V = ProtocolTxMintView;

    open spec fn view(&self) -> ProtocolTxMintView {
        ProtocolTxMintView { policy: self.policy@ }
    }
}

impl DeepView for ProtocolTxMint {
    type V = ProtocolTxMintView;

    open spec fn deep_view(&self) -> ProtocolTxMintView {
        self@
    }
}

/// A transaction the protocol declares, with the addresses that take part in
/// it: those that must fund it and those that must receive from it.
#[derive(Debug)]
pub struct ProtocolTx {
    pub name: String,
    pub inputs: Vec<String>,
    pub outputs: Vec<String>,
    pub mints: Vec<ProtocolTxMint>,
}

pub struct ProtocolTxView {
    pub name: Seq<char>,
    pub inputs: Seq<Seq<char>>,
    pub outputs: Seq<Seq<char>>,
    pub mints: Seq<ProtocolTxMintView>,
}

impl View for ProtocolTx {
    type V = ProtocolTxView;

    open spec fn view(&self) -> ProtocolTxView {
        ProtocolTxView {
            name: self.name@,
            inputs: self.inputs.deep_view(),
            outputs: self.outputs.deep_view(),
            mints: self.mints.deep_view(),
        }
    }
}

impl DeepView for ProtocolTx {
    type V = ProtocolTxView;

    open spec fn deep_view(&self) -> ProtocolTxView {
        self@
    }
}

/// The transactions a protocol declares, in declaration order.
#[derive(Debug)]
pub struct Protocol {
    pub txs: Vec<ProtocolTx>,
}

impl View for Protocol {
    type V = Seq<ProtocolTxView>;

    open spec fn view(&self) -> Seq<ProtocolTxView> {
        self.txs.deep_view()
    }
}


// ---------------------------------------------------------------------------
// Errors
// ---------------------------------------------------------------------------

/// What can go wrong while loading a protocol.
#[derive(Debug)]
pub enum RegistryError {
    /// The registry answered with errors; the message joins them.
    Registry(String),
    /// The registry's answer holds no protocol source.
    MissingSource,
    /// A group of protocol parameters is not a JSON object.
    ParametersNotObject,
    /// The value of the named parameter does not decode with its type.
    InvalidArgument(String),
    /// An address argument is not an address that has a bech32 text.
    InvalidAddress,
    /// The protocol source does not parse; the toolchain's message.
    Parse(String),
    /// The protocol source does not pass analysis; the toolchain's message.
    Analyze(String),
    /// A transaction of the protocol does not lower; the toolchain's message.
    Lowering(String),
}

pub enum RegistryErrorView {
    Registry(Seq<char>),
    MissingSource,
    ParametersNotObject,
    InvalidArgument(Seq<char>),
    InvalidAddress,
    Parse(Seq<char>),
    Analyze(Seq<char>),
    Lowering(Seq<char>),
}

impl View for RegistryError {
    type V = RegistryErrorView;

    open spec fn view(&self) -> RegistryErrorView {
        match self {
            RegistryError::Registry(m) => RegistryErrorView::Registry(m@),
            RegistryError::MissingSource => RegistryErrorView::MissingSource,
            RegistryError::ParametersNotObject => RegistryErrorView::ParametersNotObject,
            RegistryError::InvalidArgument(k) => RegistryErrorView::InvalidArgument(k@),
            RegistryError::InvalidAddress => RegistryErrorView::InvalidAddress,
            RegistryError::Parse(m) => RegistryErrorView::Parse(m@),
            RegistryError::Analyze(m) => RegistryErrorView::Analyze(m@),
            RegistryError::Lowering(m) => RegistryErrorView::Lowering(m@),
        }
    }
}

// ---------------------------------------------------------------------------
// Parameter types
// ---------------------------------------------------------------------------

/// The type a protocol parameter is declared with, as far as argument
/// decoding distinguishes types.
pub enum TypeName {
    Undefined,
    Unit,
    Int,
    Bool,
    Bytes,
    Address,
    Utxo,
    UtxoRef,
    AnyAsset,
    List,
    Mapping,
    Custom(String),
}

pub enum TypeNameView {
    Undefined,
    Unit,
    Int,
    Bool,
    Bytes,
    Address,
    Utxo,
    UtxoRef,
    AnyAsset,
    List,
    Mapping,
    Custom(Seq<char>),
}

impl View for TypeName {
    type V = TypeNameView;

    open spec fn view(&self) -> TypeNameView {
        match self {
            TypeName::Undefined => TypeNameView::Undefined,
            TypeName::Unit => TypeNameView::Unit,
            TypeName::Int => TypeNameView::Int,
            TypeName::Bool => TypeNameView::Bool,
            TypeName::Bytes => TypeNameView::Bytes,
            TypeName::Address => TypeNameView::Address,
            TypeName::Utxo => TypeNameView::Utxo,
            TypeName::UtxoRef => TypeNameView::UtxoRef,
            TypeName::AnyAsset => TypeNameView::AnyAsset,
            TypeName::List => TypeNameView::List,
            TypeName::Mapping => TypeNameView::Mapping,
            TypeName::Custom(s) => TypeNameView::Custom(s@),
        }
    }
}

/// The type a written type name denotes: one of the built-in names, or a
/// custom type of that name.
pub open spec fn type_name_of(s: Seq<char>) -> TypeNameView {
    if s == "Undefined"@ {
        TypeNameView::Undefined
    } else if s == "Unit"@ {
        TypeNameView::Unit
    } else if s == "Int"@ {
        TypeNameView::Int
    } else if s == "Bool"@ {
        TypeNameView::Bool
    } else if s == "Bytes"@ {
        TypeNameView::Bytes
    } else if s == "Address"@ {
        TypeNameView::Address
    } else if s == "Utxo"@ {
        TypeNameView::Utxo
    } else if s == "UtxoRef"@ {
        TypeNameView::UtxoRef
    } else if s == "AnyAsset"@ {
        TypeNameView::AnyAsset
    } else if s == "List"@ {
        TypeNameView::List
    } else if s == "Map"@ {
        TypeNameView::Mapping
    } else {
        TypeNameView::Custom(s)
    }
}

/// Reads a written type name; every name denotes a type, so this never fails.
pub fn parse_type_name(name: &str) -> (r: Result<TypeName, RegistryError>)
    ensures
        r matches Ok(t) && t@ == type_name_of(name@),
{
    let t = if str_equals(name, "Undefined") {
        TypeName::Undefined
    } else if str_equals(name, "Unit") {
        TypeName::Unit
    } else if str_equals(name, "Int") {
        TypeName::Int
    } else if str_equals(name, "Bool") {
        TypeName::Bool
    } else if str_equals(name, "Bytes") {
        TypeName::Bytes
    } else if str_equals(name, "Address") {
        TypeName::Address
    } else if str_equals(name, "Utxo") {
        TypeName::Utxo
    } else if str_equals(name, "UtxoRef") {
        TypeName::UtxoRef
    } else if str_equals(name, "AnyAsset") {
        TypeName::AnyAsset
    } else if str_equals(name, "List") {
        TypeName::List
    } else if str_equals(name, "Map") {
        TypeName::Mapping
    } else {
        TypeName::Custom(String::from_str(name))
    };
    Ok(t)
}

// ---------------------------------------------------------------------------
// Named tables and argument bindings
// ---------------------------------------------------------------------------

/// The value of the last entry of `s` with key `key`: a table built by
/// inserting the entries in order, later ones replacing earlier ones.
pub open spec fn lookup_last<V>(s: Seq<(Seq<char>, V)>, key: Seq<char>) -> Option<V>
    decreases s.len(),
{
    if s.len() == 0 {
        None
    } else if s.last().0 == key {
        Some(s.last().1)
    } else {
        lookup_last(s.drop_last(), key)
    }
}

pub open spec fn table_view(s: Seq<(String, String)>) -> Seq<(Seq<char>, Seq<char>)> {
    s.map_values(|e: (String, String)| (e.0@, e.1@))
}

/// The value the table `table` gives `key`, looked up as [`lookup_last`] says.
fn table_lookup(table: &Vec<(String, String)>, key: &String) -> (r: Option<String>)
    ensures
        r.deep_view() == lookup_last(table_view(table@), key@),
{
    let ghost all = table_view(table@);
    assert(all.take(table.len() as int) =~= all);
    let mut i: usize = table.len();
    while i > 0
        invariant
            i <= table.len(),
            all == table_view(table@),
            lookup_last(all, key@) == lookup_last(all.take(i as int), key@),
        decreases i,
    {
        let e = &table[i - 1];
        assert(all.take(i as int).drop_last() =~= all.take(i as int - 1));
        if e.0 == *key {
            return Some(e.1.clone());
        }
        i = i - 1;
    }
    None
}

/// An argument value, as far as the protocol's parties and policies read it.
pub enum ArgBinding {
    Address(Vec<u8>),
    Bytes(Vec<u8>),
    Other,
}

pub enum ArgBindingView {
    Address(Seq<u8>),
    Bytes(Seq<u8>),
    Other,
}

impl View for ArgBinding {
    type V = ArgBindingView;

    open spec fn view(&self) -> ArgBindingView {
        match self {
            ArgBinding::Address(b) => ArgBindingView::Address(b@),
            ArgBinding::Bytes(b) => ArgBindingView::Bytes(b@),
            ArgBinding::Other => ArgBindingView::Other,
        }
    }
}

fn clone_binding(b: &ArgBinding) -> (r: ArgBinding)
    ensures
        r@ == b@,
{
    match b {
        ArgBinding::Address(v) => ArgBinding::Address(v.clone()),
        ArgBinding::Bytes(v) => ArgBinding::Bytes(v.clone()),
        ArgBinding::Other => ArgBinding::Other,
    }
}

pub open spec fn bindings_view(s: Seq<(String, ArgBinding)>) -> Seq<(Seq<char>, ArgBindingView)> {
    s.map_values(|e: (String, ArgBinding)| (e.0@, e.1@))
}

/// Arguments bound to parameter names; binding a name again replaces its value.
pub struct ArgBindings {
    entries: Vec<(String, ArgBinding)>,
}

impl View for ArgBindings {
    type V = Map<Seq<char>, ArgBindingView>;

    closed spec fn view(&self) -> Map<Seq<char>, ArgBindingView> {
        let s = bindings_view(self.entries@);
        Map::new(
            |k: Seq<char>| lookup_last(s, k) is Some,
            |k: Seq<char>| lookup_last(s, k)->Some_0,
        )
    }
}

impl ArgBindings {
    /// No argument bound.
    pub fn new() -> (r: ArgBindings)
        ensures
            r@ == Map::<Seq<char>, ArgBindingView>::empty(),
    {
        let r = ArgBindings { entries: Vec::new() };
        assert(r@ =~= Map::<Seq<char>, ArgBindingView>::empty());
        r
    }

    /// Binds `value` to `name`, replacing what `name` was bound to.
    pub fn insert(&mut self, name: String, value: ArgBinding)
        ensures
            final(self)@ == old(self)@.insert(name@, value@),
    {
        let ghost k = name@;
        let ghost v = value@;
        let ghost before = bindings_view(self.entries@);
        self.entries.push((name, value));
        proof {
            let after = bindings_view(self.entries@);
            assert(after =~= before.push((k, v)));
            assert(after.drop_last() =~= before);
        }
        assert(self@ =~= old(self)@.insert(k, v));
    }

    /// The argument bound to `name`, if any.
    pub fn get(&self, name: &String) -> (r: Option<ArgBinding>)
        ensures
            r matches Some(v) ==> self@.contains_key(name@) && self@[name@] == v@,
            r is None ==> !self@.contains_key(name@),
    {
        let ghost all = bindings_view(self.entries@);
        assert(all.take(self.entries.len() as int) =~= all);
        let mut i: usize = self.entries.len();
        while i > 0
            invariant
                i <= self.entries.len(),
                all == bindings_view(self.entries@),
                lookup_last(all, name@) == lookup_last(all.take(i as int), name@),
            decreases i,
        {
            let e = &self.entries[i - 1];
            assert(all.take(i as int).drop_last() =~= all.take(i as int - 1));
            if e.0 == *name {
                return Some(clone_binding(&e.1));
            }
            i = i - 1;
        }
        None
    }
}

// ---------------------------------------------------------------------------
// Protocol parameters supplied by the operator
// ---------------------------------------------------------------------------

/// A member of a JSON object of parameters: its key and its value, written as
/// JSON text.
pub struct ParamEntry {
    pub key: String,
    pub value: String,
}

/// What a group of parameters is: missing, present but not a JSON object, or
/// an object with its members.
pub enum ParamSection {
    Absent,
    NotObject,
    Object(Vec<ParamEntry>),
}

pub enum ParamSectionView {
    Absent,
    NotObject,
    Object(Seq<(Seq<char>, Seq<char>)>),
}

pub open spec fn entries_view(s: Seq<ParamEntry>) -> Seq<(Seq<char>, Seq<char>)> {
    s.map_values(|e: ParamEntry| (e.key@, e.value@))
}

impl View for ParamSection {
    type V = ParamSectionView;

    open spec fn view(&self) -> ParamSectionView {
        match self {
            ParamSection::Absent => ParamSectionView::Absent,
            ParamSection::NotObject => ParamSectionView::NotObject,
            ParamSection::Object(v) => ParamSectionView::Object(entries_view(v@)),
        }
    }
}

/// The parameters of one protocol transaction, by transaction name.
pub struct TxParamSection {
    pub tx_name: String,
    pub section: ParamSection,
}

/// The protocol parameters the operator supplies: environment values, party
/// addresses, and per-transaction parameters.
pub struct ProtocolParameters {
    pub env: ParamSection,
    pub parties: ParamSection,
    pub txs: Vec<TxParamSection>,
}

pub open spec fn tx_sections_view(s: Seq<TxParamSection>) -> Seq<(Seq<char>, ParamSectionView)> {
    s.map_values(|e: TxParamSection| (e.tx_name@, e.section@))
}

/// The parameters given for transaction `tx_name`: those of the first group
/// with that name, or none.
pub open spec fn tx_section_of(s: Seq<(Seq<char>, ParamSectionView)>, tx_name: Seq<char>) -> ParamSectionView
    decreases s.len(),
{
    if s.len() == 0 {
        ParamSectionView::Absent
    } else if s[0].0 == tx_name {
        s[0].1
    } else {
        tx_section_of(s.drop_first(), tx_name)
    }
}

/// How the members of a group of parameters get their types: from a table of
/// declared parameter types, or all as addresses.
pub enum ParamTypes {
    Declared(Vec<(String, String)>),
    Addresses,
}

pub enum ParamTypesView {
    Declared(Seq<(Seq<char>, Seq<char>)>),
    Addresses,
}

impl View for ParamTypes {
    type V = ParamTypesView;

    open spec fn view(&self) -> ParamTypesView {
        match self {
            ParamTypes::Declared(t) => ParamTypesView::Declared(table_view(t@)),
            ParamTypes::Addresses => ParamTypesView::Addresses,
        }
    }
}

/// The type a member `key` is decoded with; `None` when it is not declared,
/// in which case the member is ignored.
pub open spec fn type_for(types: ParamTypesView, key: Seq<char>) -> Option<TypeNameView> {
    match types {
        ParamTypesView::Declared(t) => match lookup_last(t, key) {
            Some(n) => Some(type_name_of(n)),
            None => None,
        },
        ParamTypesView::Addresses => Some(TypeNameView::Address),
    }
}

/// The bindings after decoding the members `entries` in order onto `start`;
/// `Err(key)` names the first member whose value does not decode.
pub open spec fn bind_entries(
    entries: Seq<(Seq<char>, Seq<char>)>,
    types: ParamTypesView,
    start: Map<Seq<char>, ArgBindingView>,
) -> Result<Map<Seq<char>, ArgBindingView>, Seq<char>>
    decreases entries.len(),
{
    if entries.len() == 0 {
        Ok(start)
    } else {
        match bind_entries(entries.drop_last(), types, start) {
            Err(k) => Err(k),
            Ok(m) => {
                let e = entries.last();
                match type_for(types, e.0) {
                    None => Ok(m),
                    Some(t) => match json_argument(e.1, t) {
                        Some(a) => Ok(m.insert(e.0, a)),
                        None => Err(e.0),
                    },
                }
            },
        }
    }
}

/// The bindings after decoding a group of parameters onto `start`.
pub open spec fn bind_section(
    section: ParamSectionView,
    types: ParamTypesView,
    start: Map<Seq<char>, ArgBindingView>,
) -> Result<Map<Seq<char>, ArgBindingView>, RegistryErrorView> {
    match section {
        ParamSectionView::Absent => Ok(start),
        ParamSectionView::NotObject => Err(RegistryErrorView::ParametersNotObject),
        ParamSectionView::Object(entries) => match bind_entries(entries, types, start) {
            Ok(m) => Ok(m),
            Err(k) => Err(RegistryErrorView::InvalidArgument(k)),
        },
    }
}

/// Decodes a group of parameters and binds each declared member in
/// `bindings`. A group that is not a JSON object, or a member whose value
/// does not decode with its type, is an error; on error `bindings` may hold
/// part of the group.
pub fn bind_parameters(
    section: &ParamSection,
    types: &ParamTypes,
    bindings: &mut ArgBindings,
) -> (r: Result<(), RegistryError>)
    ensures
        r is Ok <==> bind_section(section@, types@, old(bindings)@) is Ok,
        r matches Err(e) ==> bind_section(section@, types@, old(bindings)@) == Err::<
            Map<Seq<char>, ArgBindingView>,
            RegistryErrorView,
        >(e@),
        r is Ok ==> bind_section(section@, types@, old(bindings)@) == Ok::<
            Map<Seq<char>, ArgBindingView>,
            RegistryErrorView,
        >(final(bindings)@),
{
    match section {
        ParamSection::Absent => Ok(()),
        ParamSection::NotObject => Err(RegistryError::ParametersNotObject),
        ParamSection::Object(entries) => {
            let ghost start = bindings@;
            let ghost all = entries_view(entries@);
            assert(all.take(0) =~= Seq::<(Seq<char>, Seq<char>)>::empty());
            let mut i: usize = 0;
            while i < entries.len()
                invariant
                    i <= entries.len(),
                    all == entries_view(entries@),
                    start == old(bindings)@,
                    section@ == ParamSectionView::Object(all),
                    bind_entries(all.take(i as int), types@, start) == Ok::<
                        Map<Seq<char>, ArgBindingView>,
                        Seq<char>,
                    >(bindings@),
                decreases entries.len() - i,
            {
                assert(all.take(i as int + 1).drop_last() =~= all.take(i as int));
                let e = &entries[i];
                let ty = match types {
                    ParamTypes::Declared(table) => match table_lookup(table, &e.key) {
                        Some(n) => match parse_type_name(n.as_str()) {
                            Ok(t) => Some(t),
                            Err(_) => None,
                        },
                        None => None,
                    },
                    ParamTypes::Addresses => Some(TypeName::Address),
                };
                if let Some(t) = ty {
                    match argument_from_json(e.value.as_str(), &t) {
                        Ok(a) => {
                            bindings.insert(e.key.clone(), a);
                        },
                        Err(_) => {
                            let err = RegistryError::InvalidArgument(e.key.clone());
                            assert(all.take(i as int + 1).last() == (e.key@, e.value@));
                            assert(type_for(types@, e.key@) == Some(t@));
                            assert(bind_entries(all.take(i as int + 1), types@, start) == Err::<
                                Map<Seq<char>, ArgBindingView>,
                                Seq<char>,
                            >(e.key@));
                            proof {
                                lemma_bind_entries_err_sticks(all, i as int + 1, types@, start);
                            }
                            return Err(err);
                        },
                    }
                }
                i = i + 1;
            }
            assert(all.take(entries.len() as int) =~= all);
            Ok(())
        },
    }
}

proof fn lemma_bind_entries_err_sticks(
    entries: Seq<(Seq<char>, Seq<char>)>,
    n: int,
    types: ParamTypesView,
    start: Map<Seq<char>, ArgBindingView>,
)
    requires
        0 <= n <= entries.len(),
        bind_entries(entries.take(n), types, start) is Err,
    ensures
        bind_entries(entries, types, start) == bind_entries(entries.take(n), types, start),
    decreases entries.len() - n,
{
    if n < entries.len() {
        assert(entries.take(n + 1).drop_last() =~= entries.take(n));
        lemma_bind_entries_err_sticks(entries, n + 1, types, start);
    } else {
        assert(entries.take(n) =~= entries);
    }
}


// ---------------------------------------------------------------------------
// Protocol transactions
// ---------------------------------------------------------------------------

/// The parameters the operator gives for transaction `tx_name`.
pub fn tx_parameters<'a>(parameters: &'a ProtocolParameters, tx_name: &String) -> (r: &'a ParamSection)
    ensures
        r@ == tx_section_of(tx_sections_view(parameters.txs@), tx_name@),
{
    let ghost all = tx_sections_view(parameters.txs@);
    let mut i: usize = 0;
    assert(all.skip(0) =~= all);
    while i < parameters.txs.len()
        invariant
            i <= parameters.txs.len(),
            all == tx_sections_view(parameters.txs@),
            tx_section_of(all, tx_name@) == tx_section_of(all.skip(i as int), tx_name@),
        decreases parameters.txs.len() - i,
    {
        assert(all.skip(i as int)[0] == all[i as int]);
        if parameters.txs[i].tx_name == *tx_name {
            return &parameters.txs[i].section;
        }
        assert(all.skip(i as int).drop_first() =~= all.skip(i as int + 1));
        i = i + 1;
    }
    &ABSENT_SECTION
}

/// The group of parameters that is not there.
pub const ABSENT_SECTION: ParamSection = ParamSection::Absent;

fn clone_table(t: &Vec<(String, String)>) -> (r: Vec<(String, String)>)
    ensures
        table_view(r@) == table_view(t@),
{
    let mut r: Vec<(String, String)> = Vec::new();
    let mut i: usize = 0;
    while i < t.len()
        invariant
            i <= t.len(),
            table_view(r@) == table_view(t@).take(i as int),
        decreases t.len() - i,
    {
        let ghost before = r@;
        let e = (t[i].0.clone(), t[i].1.clone());
        let ghost ev = (e.0@, e.1@);
        r.push(e);
        assert(r@ =~= before.push(e));
        assert(table_view(r@) =~= table_view(before).push(ev));
        assert(table_view(t@).take(i as int + 1) =~= table_view(t@).take(i as int).push(ev));
        i = i + 1;
    }
    assert(table_view(t@).take(t.len() as int) =~= table_view(t@));
    r
}

/// The protocol transaction described by template `t`: its own parameters
/// are decoded with its declared parameter types, then its parties and
/// policies are resolved against `env` and those parameters. A parameter
/// error comes before a lowering error, which comes before an address error.
pub open spec fn protocol_tx_of(
    parameters: ProtocolParameters,
    env: Map<Seq<char>, ArgBindingView>,
    t: TxTemplate,
) -> Result<ProtocolTxView, RegistryErrorView> {
    match bind_section(
        tx_section_of(tx_sections_view(parameters.txs@), t.name@),
        ParamTypesView::Declared(table_view(t.parameter_types@)),
        Map::empty(),
    ) {
        Err(e) => Err(e),
        Ok(params) => match t.lowered {
            Err(m) => Err(RegistryErrorView::Lowering(m@)),
            Ok(l) => match resolved_tx(t.name@, l, env, params) {
                Some(p) => Ok(p),
                None => Err(RegistryErrorView::InvalidAddress),
            },
        },
    }
}

/// The protocol transaction described by `template`, given the operator's
/// parameters and the environment and party bindings `env`.
pub fn map_protocol_tx(parameters: &ProtocolParameters, env: &ArgBindings, template: &TxTemplate) -> (r:
    Result<ProtocolTx, RegistryError>)
    ensures
        r matches Ok(p) ==> protocol_tx_of(*parameters, env@, *template) == Ok::<
            ProtocolTxView,
            RegistryErrorView,
        >(p@),
        r matches Err(e) ==> protocol_tx_of(*parameters, env@, *template) == Err::<
            ProtocolTxView,
            RegistryErrorView,
        >(e@),
{
    let section = tx_parameters(parameters, &template.name);
    let types = ParamTypes::Declared(clone_table(&template.parameter_types));
    let mut params = ArgBindings::new();
    match bind_parameters(section, &types, &mut params) {
        Ok(()) => {},
        Err(e) => return Err(e),
    }
    match &template.lowered {
        Err(m) => Err(RegistryError::Lowering(m.clone())),
        Ok(l) => resolve_protocol_tx(template.name.clone(), l, env, &params),
    }
}

/// The environment and party bindings: the environment parameters decoded
/// with the declared environment types, then every party parameter decoded as
/// an address.
pub open spec fn env_bindings_of(
    env_types: Seq<(Seq<char>, Seq<char>)>,
    parameters: ProtocolParameters,
) -> Result<Map<Seq<char>, ArgBindingView>, RegistryErrorView> {
    match bind_section(parameters.env@, ParamTypesView::Declared(env_types), Map::empty()) {
        Err(e) => Err(e),
        Ok(m) => bind_section(parameters.parties@, ParamTypesView::Addresses, m),
    }
}

/// The protocol transactions of the templates, in order; the first error
/// stops the whole.
pub open spec fn protocol_txs_of(
    templates: Seq<TxTemplate>,
    parameters: ProtocolParameters,
    env: Map<Seq<char>, ArgBindingView>,
) -> Result<Seq<ProtocolTxView>, RegistryErrorView>
    decreases templates.len(),
{
    if templates.len() == 0 {
        Ok(Seq::empty())
    } else {
        match protocol_txs_of(templates.drop_last(), parameters, env) {
            Err(e) => Err(e),
            Ok(prev) => match protocol_tx_of(parameters, env, templates.last()) {
                Err(e) => Err(e),
                Ok(p) => Ok(prev.push(p)),
            },
        }
    }
}

/// The protocol a set of templates describes under the operator's parameters.
pub open spec fn protocol_of(
    env_types: Seq<(Seq<char>, Seq<char>)>,
    templates: Seq<TxTemplate>,
    parameters: ProtocolParameters,
) -> Result<Seq<ProtocolTxView>, RegistryErrorView> {
    match env_bindings_of(env_types, parameters) {
        Err(e) => Err(e),
        Ok(env) => protocol_txs_of(templates, parameters, env),
    }
}

proof fn lemma_protocol_txs_err_sticks(
    templates: Seq<TxTemplate>,
    n: int,
    parameters: ProtocolParameters,
    env: Map<Seq<char>, ArgBindingView>,
)
    requires
        0 <= n <= templates.len(),
        protocol_txs_of(templates.take(n), parameters, env) is Err,
    ensures
        protocol_txs_of(templates, parameters, env) == protocol_txs_of(templates.take(n), parameters, env),
    decreases templates.len() - n,
{
    if n < templates.len() {
        assert(templates.take(n + 1).drop_last() =~= templates.take(n));
        lemma_protocol_txs_err_sticks(templates, n + 1, parameters, env);
    } else {
        assert(templates.take(n) =~= templates);
    }
}

/// The protocol described by `templates`, with the environment declared by
/// `env_types`, under the operator's `parameters`.
pub fn protocol_from_model(
    env_types: &Vec<(String, String)>,
    templates: &Vec<TxTemplate>,
    parameters: &ProtocolParameters,
) -> (r: Result<Protocol, RegistryError>)
    ensures
        r matches Ok(p) ==> protocol_of(table_view(env_types@), templates@, *parameters) == Ok::<
            Seq<ProtocolTxView>,
            RegistryErrorView,
        >(p@),
        r matches Err(e) ==> protocol_of(table_view(env_types@), templates@, *parameters) == Err::<
            Seq<ProtocolTxView>,
            RegistryErrorView,
        >(e@),
        r matches Ok(p) ==> p@.len() == templates@.len() && forall|k: int|
            0 <= k < templates@.len() ==> (#[trigger] p@[k]).name == templates@[k].name@,
{
    proof {
        law_protocol_has_one_tx_per_declared_tx(table_view(env_types@), templates@, *parameters);
    }
    let mut env = ArgBindings::new();
    let env_section_types = ParamTypes::Declared(clone_table(env_types));
    match bind_parameters(&parameters.env, &env_section_types, &mut env) {
        Ok(()) => {},
        Err(e) => return Err(e),
    }
    match bind_parameters(&parameters.parties, &ParamTypes::Addresses, &mut env) {
        Ok(()) => {},
        Err(e) => return Err(e),
    }
    let ghost envv = env@;
    let ghost all = templates@;
    let mut txs: Vec<ProtocolTx> = Vec::new();
    assert(all.take(0) =~= Seq::<TxTemplate>::empty());
    assert(txs.deep_view() =~= Seq::<ProtocolTxView>::empty());
    let mut i: usize = 0;
    while i < templates.len()
        invariant
            i <= templates.len(),
            all == templates@,
            envv == env@,
            env_bindings_of(table_view(env_types@), *parameters) == Ok::<
                Map<Seq<char>, ArgBindingView>,
                RegistryErrorView,
            >(envv),
            protocol_txs_of(all.take(i as int), *parameters, envv) == Ok::<
                Seq<ProtocolTxView>,
                RegistryErrorView,
            >(txs.deep_view()),
        decreases templates.len() - i,
    {
        assert(all.take(i as int + 1).drop_last() =~= all.take(i as int));
        match map_protocol_tx(parameters, &env, &templates[i]) {
            Ok(p) => {
                let ghost before = txs.deep_view();
                let ghost pv = p@;
                txs.push(p);
                assert(txs.deep_view() =~= before.push(pv));
            },
            Err(e) => {
                proof {
                    lemma_protocol_txs_err_sticks(all, i as int + 1, *parameters, envv);
                }
                return Err(e);
            },
        }
        i = i + 1;
    }
    assert(all.take(templates.len() as int) =~= all);
    proof {
        law_protocol_has_one_tx_per_declared_tx(table_view(env_types@), templates@, *parameters);
    }
    Ok(Protocol { txs })
}

proof fn lemma_bind_entries_skip_undeclared(
    entries: Seq<(Seq<char>, Seq<char>)>,
    i: int,
    k: Seq<char>,
    v: Seq<char>,
    types: ParamTypesView,
    start: Map<Seq<char>, ArgBindingView>,
)
    requires
        0 <= i <= entries.len(),
        type_for(types, k) is None,
    ensures
        bind_entries(entries.insert(i, (k, v)), types, start) == bind_entries(entries, types, start),
    decreases entries.len(),
{
    let with = entries.insert(i, (k, v));
    if i == entries.len() {
        assert(with.drop_last() =~= entries);
        assert(with.last() == (k, v));
    } else {
        lemma_bind_entries_skip_undeclared(entries.drop_last(), i, k, v, types, start);
        assert(with.drop_last() =~= entries.drop_last().insert(i, (k, v)));
        assert(with.last() == entries.last());
    }
}

/// A member of a transaction's parameters that the transaction does not
/// declare is never decoded and never changes the protocol transaction:
/// adding one anywhere among the members gives the same result.
pub proof fn law_undeclared_tx_parameters_are_ignored(
    parameters: ProtocolParameters,
    with_extra: ProtocolParameters,
    env: Map<Seq<char>, ArgBindingView>,
    t: TxTemplate,
    entries: Seq<(Seq<char>, Seq<char>)>,
    i: int,
    k: Seq<char>,
    v: Seq<char>,
)
    requires
        0 <= i <= entries.len(),
        tx_section_of(tx_sections_view(parameters.txs@), t.name@) == ParamSectionView::Object(entries),
        tx_section_of(tx_sections_view(with_extra.txs@), t.name@) == ParamSectionView::Object(
            entries.insert(i, (k, v)),
        ),
        lookup_last(table_view(t.parameter_types@), k) is None,
    ensures
        protocol_tx_of(with_extra, env, t) == protocol_tx_of(parameters, env, t),
{
    lemma_bind_entries_skip_undeclared(
        entries,
        i,
        k,
        v,
        ParamTypesView::Declared(table_view(t.parameter_types@)),
        Map::empty(),
    );
}

/// `m1` and `m2` bind every name but `n` alike.
pub open spec fn agree_off(
    m1: Map<Seq<char>, ArgBindingView>,
    m2: Map<Seq<char>, ArgBindingView>,
    n: Seq<char>,
) -> bool {
    forall|x: Seq<char>|
        x != n ==> (#[trigger] m1.contains_key(x) == m2.contains_key(x) && (m1.contains_key(x)
            ==> m1[x] == m2[x]))
}

proof fn lemma_bind_entries_decodable_insert(
    entries: Seq<(Seq<char>, Seq<char>)>,
    i: int,
    n: Seq<char>,
    v: Seq<char>,
    types: ParamTypesView,
    start: Map<Seq<char>, ArgBindingView>,
)
    requires
        0 <= i <= entries.len(),
        type_for(types, n) matches Some(ty) && json_argument(v, ty) is Some,
    ensures
        match bind_entries(entries, types, start) {
            Err(e) => bind_entries(entries.insert(i, (n, v)), types, start) == Err::<
                Map<Seq<char>, ArgBindingView>,
                Seq<char>,
            >(e),
            Ok(m2) => bind_entries(entries.insert(i, (n, v)), types, start) matches Ok(m1) && agree_off(
                m1,
                m2,
                n,
            ),
        },
    decreases entries.len(),
{
    let with = entries.insert(i, (n, v));
    if i == entries.len() {
        assert(with.drop_last() =~= entries);
        assert(with.last() == (n, v));
    } else {
        lemma_bind_entries_decodable_insert(entries.drop_last(), i, n, v, types, start);
        assert(with.drop_last() =~= entries.drop_last().insert(i, (n, v)));
        assert(with.last() == entries.last());
    }
}

proof fn lemma_env_bound_agreement(
    env: Map<Seq<char>, ArgBindingView>,
    t: TxTemplate,
    n: Seq<char>,
    s1: Seq<(Seq<char>, Seq<char>)>,
    s2: Seq<(Seq<char>, Seq<char>)>,
    p1: ProtocolParameters,
    p2: ProtocolParameters,
)
    requires
        env.contains_key(n),
        tx_section_of(tx_sections_view(p1.txs@), t.name@) == ParamSectionView::Object(s1),
        tx_section_of(tx_sections_view(p2.txs@), t.name@) == ParamSectionView::Object(s2),
        match bind_entries(s1, ParamTypesView::Declared(table_view(t.parameter_types@)), Map::empty()) {
            Err(e) => bind_entries(s2, ParamTypesView::Declared(table_view(t.parameter_types@)), Map::empty())
                == Err::<Map<Seq<char>, ArgBindingView>, Seq<char>>(e),
            Ok(m1) => bind_entries(s2, ParamTypesView::Declared(table_view(t.parameter_types@)), Map::empty())
                matches Ok(m2) && agree_off(m2, m1, n),
        },
    ensures
        protocol_tx_of(p2, env, t) == protocol_tx_of(p1, env, t),
{
    let types = ParamTypesView::Declared(table_view(t.parameter_types@));
    if let Ok(m1) = bind_entries(s1, types, Map::empty()) {
        let m2 = bind_entries(s2, types, Map::empty())->Ok_0;
        if let Ok(l) = t.lowered {
            assert forall|k: Seq<char>| !env.contains_key(k) implies (#[trigger] m2.contains_key(k)
                == m1.contains_key(k) && (m2.contains_key(k) ==> m2[k] == m1[k])) by {
                assert(k != n);
            }
            law_env_shadows_tx_parameters(t.name@, l, env, m2, m1);
        }
    }
}

/// A transaction parameter whose name the environment binds is resolved from
/// the environment only: giving it a (decodable) value anywhere among the
/// transaction's own parameters changes nothing, even when the environment's
/// binding is not of the kind the template reads.
pub proof fn law_env_bound_tx_parameter_is_ignored(
    parameters: ProtocolParameters,
    with_value: ProtocolParameters,
    env: Map<Seq<char>, ArgBindingView>,
    t: TxTemplate,
    entries: Seq<(Seq<char>, Seq<char>)>,
    i: int,
    n: Seq<char>,
    v: Seq<char>,
)
    requires
        env.contains_key(n),
        0 <= i <= entries.len(),
        tx_section_of(tx_sections_view(parameters.txs@), t.name@) == ParamSectionView::Object(entries),
        tx_section_of(tx_sections_view(with_value.txs@), t.name@) == ParamSectionView::Object(
            entries.insert(i, (n, v)),
        ),
        type_for(ParamTypesView::Declared(table_view(t.parameter_types@)), n) matches Some(ty)
            && json_argument(v, ty) is Some,
    ensures
        protocol_tx_of(with_value, env, t) == protocol_tx_of(parameters, env, t),
{
    let types = ParamTypesView::Declared(table_view(t.parameter_types@));
    lemma_bind_entries_decodable_insert(entries, i, n, v, types, Map::empty());
    lemma_env_bound_agreement(env, t, n, entries, entries.insert(i, (n, v)), parameters, with_value);
}

/// Changing the (decodable) value a transaction gives a parameter that the
/// environment binds changes nothing either.
pub proof fn law_env_bound_tx_parameter_value_is_ignored(
    parameters: ProtocolParameters,
    changed: ProtocolParameters,
    env: Map<Seq<char>, ArgBindingView>,
    t: TxTemplate,
    others: Seq<(Seq<char>, Seq<char>)>,
    i: int,
    n: Seq<char>,
    v1: Seq<char>,
    v2: Seq<char>,
)
    requires
        env.contains_key(n),
        0 <= i <= others.len(),
        tx_section_of(tx_sections_view(parameters.txs@), t.name@) == ParamSectionView::Object(
            others.insert(i, (n, v1)),
        ),
        tx_section_of(tx_sections_view(changed.txs@), t.name@) == ParamSectionView::Object(
            others.insert(i, (n, v2)),
        ),
        type_for(ParamTypesView::Declared(table_view(t.parameter_types@)), n) matches Some(ty)
            && json_argument(v1, ty) is Some && json_argument(v2, ty) is Some,
    ensures
        protocol_tx_of(changed, env, t) == protocol_tx_of(parameters, env, t),
{
    let types = ParamTypesView::Declared(table_view(t.parameter_types@));
    lemma_bind_entries_decodable_insert(others, i, n, v1, types, Map::empty());
    lemma_bind_entries_decodable_insert(others, i, n, v2, types, Map::empty());
    let s1 = others.insert(i, (n, v1));
    let s2 = others.insert(i, (n, v2));
    if let Ok(base) = bind_entries(others, types, Map::empty()) {
        let m1 = bind_entries(s1, types, Map::empty())->Ok_0;
        let m2 = bind_entries(s2, types, Map::empty())->Ok_0;
        assert forall|x: Seq<char>| x != n implies (#[trigger] m2.contains_key(x) == m1.contains_key(x)
            && (m2.contains_key(x) ==> m2[x] == m1[x])) by {
            assert(m1.contains_key(x) == base.contains_key(x));
            assert(m2.contains_key(x) == base.contains_key(x));
        }
    }
    lemma_env_bound_agreement(env, t, n, s1, s2, parameters, changed);
}

// ---------------------------------------------------------------------------
// Talking to the registry
// ---------------------------------------------------------------------------

/// The variables of a protocol query.
pub struct RegistryVariables {
    pub scope: String,
    pub name: String,
}

/// A query to the protocol registry.
pub struct RegistryRequest {
    pub query: String,
    pub variables: RegistryVariables,
}

/// The query that asks the registry for the source of a protocol.
pub open spec fn protocol_query() -> Seq<char> {
    "query($scope: String!, $name: String!) { protocol(scope: $scope, name: $name) { source } }"@
}

/// The query that asks the registry for the source of protocol `name` in
/// scope `scope`.
pub fn registry_request(scope: &str, name: &str) -> (r: RegistryRequest)
    ensures
        r.query@ == protocol_query(),
        r.variables.scope@ == scope@,
        r.variables.name@ == name@,
{
    RegistryRequest {
        query: String::from_str(
            "query($scope: String!, $name: String!) { protocol(scope: $scope, name: $name) { source } }",
        ),
        variables: RegistryVariables { scope: String::from_str(scope), name: String::from_str(name) },
    }
}

/// An error the registry reports.
pub struct RegistryResponseError {
    pub message: String,
}

/// A protocol as the registry holds it.
pub struct RegistryProtocol {
    pub source: String,
}

/// The data of a registry answer.
pub struct RegistryResponseData {
    pub protocol: Option<RegistryProtocol>,
}

/// The registry's answer to a query.
pub struct RegistryResponse {
    pub data: Option<RegistryResponseData>,
    pub errors: Option<Vec<RegistryResponseError>>,
}

/// The texts of `list` joined with `sep` between neighbours.
pub open spec fn joined(list: Seq<Seq<char>>, sep: Seq<char>) -> Seq<char>
    decreases list.len(),
{
    if list.len() == 0 {
        Seq::empty()
    } else if list.len() == 1 {
        list[0]
    } else {
        joined(list.drop_last(), sep) + sep + list.last()
    }
}

pub open spec fn messages_of(errors: Seq<RegistryResponseError>) -> Seq<Seq<char>> {
    errors.map_values(|e: RegistryResponseError| e.message@)
}

/// The message for a registry answer with errors.
pub open spec fn registry_error_message(errors: Seq<RegistryResponseError>) -> Seq<char> {
    "Registry error: "@ + joined(messages_of(errors), "; "@)
}

/// The message for a registry answer that reports `errors`: their messages,
/// joined by `"; "`, after `"Registry error: "`.
pub fn registry_error(errors: &Vec<RegistryResponseError>) -> (r: String)
    ensures
        r@ == registry_error_message(errors@),
{
    let ghost msgs = messages_of(errors@);
    let mut joined_so_far = String::new();
    let mut i: usize = 0;
    while i < errors.len()
        invariant
            i <= errors.len(),
            msgs == messages_of(errors@),
            joined_so_far@ == joined(msgs.take(i as int), "; "@),
        decreases errors.len() - i,
    {
        assert(msgs.take(i as int + 1).drop_last() =~= msgs.take(i as int));
        if i == 0 {
            joined_so_far = errors[i].message.clone();
            assert(msgs.take(1) =~= seq![msgs[0]]);
        } else {
            joined_so_far = joined_so_far.concat("; ");
            joined_so_far = joined_so_far.concat(errors[i].message.as_str());
        }
        i = i + 1;
    }
    assert(msgs.take(errors.len() as int) =~= msgs);
    let r = String::from_str("Registry error: ");
    r.concat(joined_so_far.as_str())
}

/// The protocol source in a registry answer: an answer with errors is a
/// registry error, whatever else it holds; an answer without a protocol
/// source is an error too.
pub fn protocol_source(payload: RegistryResponse) -> (r: Result<String, RegistryError>)
    ensures
        payload.errors matches Some(es) ==> (r matches Err(RegistryError::Registry(m)) && m@
            == registry_error_message(es@)),
        payload.errors is None ==> match payload.data {
            Some(RegistryResponseData { protocol: Some(p) }) => (r matches Ok(s) && s@ == p.source@),
            _ => r matches Err(RegistryError::MissingSource),
        },
{
    if let Some(es) = &payload.errors {
        return Err(RegistryError::Registry(registry_error(es)));
    }
    match payload.data {
        Some(RegistryResponseData { protocol: Some(p) }) => Ok(p.source),
        _ => Err(RegistryError::MissingSource),
    }
}


proof fn lemma_one_tx_per_template(
    templates: Seq<TxTemplate>,
    parameters: ProtocolParameters,
    env: Map<Seq<char>, ArgBindingView>,
)
    ensures
        protocol_txs_of(templates, parameters, env) is Ok <==> forall|k: int|
            0 <= k < templates.len() ==> protocol_tx_of(parameters, env, #[trigger] templates[k]) is Ok,
        protocol_txs_of(templates, parameters, env) matches Ok(txs) ==> txs.len() == templates.len()
            && forall|k: int|
            0 <= k < templates.len() ==> protocol_tx_of(parameters, env, #[trigger] templates[k]) == Ok::<
                ProtocolTxView,
                RegistryErrorView,
            >(txs[k]),
    decreases templates.len(),
{
    if templates.len() > 0 {
        let p = templates.drop_last();
        lemma_one_tx_per_template(p, parameters, env);
        assert forall|k: int| 0 <= k < p.len() implies #[trigger] p[k] == templates[k] by {}
        let last = templates.len() - 1;
        assert(templates[last] == templates.last());
        match protocol_txs_of(p, parameters, env) {
            Err(_) => {
                let k = choose|k: int| 0 <= k < p.len() && !(protocol_tx_of(parameters, env, #[trigger] p[k]) is Ok);
                assert(templates[k] == p[k]);
            },
            Ok(ps) => {
                match protocol_tx_of(parameters, env, templates.last()) {
                    Err(_) => {},
                    Ok(pl) => {
                        let txs = ps.push(pl);
                        assert forall|k: int| 0 <= k < templates.len() implies protocol_tx_of(
                            parameters,
                            env,
                            #[trigger] templates[k],
                        ) == Ok::<ProtocolTxView, RegistryErrorView>(txs[k]) by {
                            if k < p.len() {
                                assert(templates[k] == p[k]);
                                assert(txs[k] == ps[k]);
                            }
                        }
                        assert forall|k: int| 0 <= k < templates.len() implies protocol_tx_of(
                            parameters,
                            env,
                            #[trigger] templates[k],
                        ) is Ok by {
                            if k < p.len() {
                                assert(templates[k] == p[k]);
                            }
                        }
                    },
                }
            },
        }
    }
}

/// A protocol has one transaction per declared transaction, in declaration
/// order, each named as declared and being what that declared transaction
/// resolves to, whatever parties it resolves; it is refused exactly when
/// binding the environment fails or some declared transaction fails.
pub proof fn law_protocol_has_one_tx_per_declared_tx(
    env_types: Seq<(Seq<char>, Seq<char>)>,
    templates: Seq<TxTemplate>,
    parameters: ProtocolParameters,
)
    ensures
        protocol_of(env_types, templates, parameters) matches Ok(txs) ==> {
            let env = env_bindings_of(env_types, parameters)->Ok_0;
            &&& env_bindings_of(env_types, parameters) is Ok
            &&& txs.len() == templates.len()
            &&& forall|k: int|
                0 <= k < templates.len() ==> protocol_tx_of(parameters, env, #[trigger] templates[k]) == Ok::<
                    ProtocolTxView,
                    RegistryErrorView,
                >(txs[k]) && txs[k].name == templates[k].name@
        },
        env_bindings_of(env_types, parameters) matches Ok(env) ==> (protocol_of(env_types, templates, parameters) is Ok
            <==> forall|k: int|
            0 <= k < templates.len() ==> protocol_tx_of(parameters, env, #[trigger] templates[k]) is Ok),
{
    if let Ok(env) = env_bindings_of(env_types, parameters) {
        lemma_one_tx_per_template(templates, parameters, env);
        if let Ok(txs) = protocol_of(env_types, templates, parameters) {
            assert forall|k: int| 0 <= k < templates.len() implies txs[k].name == (
            #[trigger] templates[k]).name@ by {
                law_resolved_tx_keeps_its_name(parameters, env, templates[k]);
            }
        }
    }
}

/// A declared transaction resolves under its own name.
pub proof fn law_resolved_tx_keeps_its_name(
    parameters: ProtocolParameters,
    env: Map<Seq<char>, ArgBindingView>,
    t: TxTemplate,
)
    ensures
        protocol_tx_of(parameters, env, t) matches Ok(p) ==> p.name == t.name@,
{
}

} // verus!
