use tx3_dashboard::registry::{
    bind_parameters, map_protocol_tx, parse_type_name, protocol_from_model,
    protocol_source, registry_error, registry_request, ArgBinding, ArgBindings, ParamEntry,
    ParamSection, ParamTypes, ProtocolParameters, RegistryError, RegistryProtocol,
    RegistryResponse, RegistryResponseData, RegistryResponseError, TxParamSection, TypeName,
};
use tx3_dashboard::template::{resolve_protocol_tx, LoweredTx, TirAsset, TirExpr, TirParam, TxTemplate};

fn s(x: &str) -> String {
    x.to_string()
}

const BUYER_HEX: &str = "60aabbccddeeff00112233445566778899aabbccddeeff00112233445566";
const TREASURY_HEX: &str = "6011223344556677889900aabbccddeeff11223344556677889900aabbcc";

fn hex_bytes(h: &str) -> Vec<u8> {
    (0..h.len()).step_by(2).map(|i| u8::from_str_radix(&h[i..i + 2], 16).unwrap()).collect()
}

fn bech32(h: &str) -> String {
    pallas::ledger::addresses::Address::from_bytes(&hex_bytes(h)).unwrap().to_bech32().unwrap()
}

fn entry(key: &str, json: &str) -> ParamEntry {
    ParamEntry { key: s(key), value: s(json) }
}

fn no_params() -> ProtocolParameters {
    ProtocolParameters { env: ParamSection::Absent, parties: ParamSection::Absent, txs: vec![] }
}

fn value(name: &str) -> TirExpr {
    TirExpr::EvalParam(Box::new(TirParam::ExpectValue(s(name))))
}

fn input_from(name: &str) -> TirExpr {
    TirExpr::EvalParam(Box::new(TirParam::ExpectInput(s("source"), value(name))))
}

fn err_of<T>(r: Result<T, RegistryError>) -> RegistryError {
    match r {
        Ok(_) => panic!("expected an error"),
        Err(e) => e,
    }
}

#[test]
fn type_names() {
    let t = |n: &str| parse_type_name(n).ok().unwrap();
    assert!(matches!(t("Undefined"), TypeName::Undefined));
    assert!(matches!(t("Unit"), TypeName::Unit));
    assert!(matches!(t("Int"), TypeName::Int));
    assert!(matches!(t("Bool"), TypeName::Bool));
    assert!(matches!(t("Bytes"), TypeName::Bytes));
    assert!(matches!(t("Address"), TypeName::Address));
    assert!(matches!(t("Utxo"), TypeName::Utxo));
    assert!(matches!(t("UtxoRef"), TypeName::UtxoRef));
    assert!(matches!(t("AnyAsset"), TypeName::AnyAsset));
    assert!(matches!(t("List"), TypeName::List));
    assert!(matches!(t("Map"), TypeName::Mapping));
    assert!(matches!(t("Ticket"), TypeName::Custom(ref n) if n == "Ticket"));
    assert!(matches!(t("List<Int>"), TypeName::Custom(ref n) if n == "List<Int>"));
    assert!(matches!(t("int"), TypeName::Custom(ref n) if n == "int"));
}

#[test]
fn rebinding_replaces() {
    let mut b = ArgBindings::new();
    assert!(b.get(&s("x")).is_none());
    b.insert(s("x"), ArgBinding::Bytes(vec![1]));
    b.insert(s("y"), ArgBinding::Other);
    b.insert(s("x"), ArgBinding::Bytes(vec![2]));
    assert!(matches!(b.get(&s("x")), Some(ArgBinding::Bytes(ref v)) if v == &vec![2u8]));
    assert!(matches!(b.get(&s("y")), Some(ArgBinding::Other)));
}

#[test]
fn declared_members_are_decoded_others_ignored() {
    let section = ParamSection::Object(vec![
        entry("policy", "\"abcd\""),
        entry("undeclared", "\"not even checked\""),
        entry("owner", &format!("\"{}\"", BUYER_HEX)),
    ]);
    let types = ParamTypes::Declared(vec![(s("policy"), s("Int")), (s("policy"), s("Bytes")), (s("owner"), s("Address"))]);
    let mut b = ArgBindings::new();
    assert!(bind_parameters(&section, &types, &mut b).is_ok());
    assert!(matches!(b.get(&s("policy")), Some(ArgBinding::Bytes(ref v)) if v == &vec![0xabu8, 0xcd]));
    assert!(matches!(b.get(&s("owner")), Some(ArgBinding::Address(ref v)) if v == &hex_bytes(BUYER_HEX)));
    assert!(b.get(&s("undeclared")).is_none());
}

#[test]
fn parties_are_addresses() {
    let section = ParamSection::Object(vec![entry("buyer", &format!("\"{}\"", BUYER_HEX))]);
    let mut b = ArgBindings::new();
    assert!(bind_parameters(&section, &ParamTypes::Addresses, &mut b).is_ok());
    assert!(matches!(b.get(&s("buyer")), Some(ArgBinding::Address(ref v)) if v == &hex_bytes(BUYER_HEX)));
}

#[test]
fn parameter_errors() {
    let mut b = ArgBindings::new();
    assert!(bind_parameters(&ParamSection::Absent, &ParamTypes::Addresses, &mut b).is_ok());
    assert!(matches!(
        err_of(bind_parameters(&ParamSection::NotObject, &ParamTypes::Addresses, &mut b)),
        RegistryError::ParametersNotObject
    ));
    let section = ParamSection::Object(vec![entry("buyer", "42")]);
    assert!(matches!(
        err_of(bind_parameters(&section, &ParamTypes::Addresses, &mut b)),
        RegistryError::InvalidArgument(ref k) if k == "buyer"
    ));
    let section = ParamSection::Object(vec![entry("q", "{not json")]);
    let types = ParamTypes::Declared(vec![(s("q"), s("Int"))]);
    assert!(matches!(
        err_of(bind_parameters(&section, &types, &mut b)),
        RegistryError::InvalidArgument(ref k) if k == "q"
    ));
}

fn lowered() -> LoweredTx {
    LoweredTx {
        inputs: vec![input_from("buyer"), TirExpr::Other, input_from("nobody")],
        outputs: vec![value("treasury"), value("amount_only")],
        mints: vec![
            TirExpr::Assets(vec![TirAsset { policy: value("issuer_policy") }, TirAsset { policy: TirExpr::Other }]),
            TirExpr::Other,
        ],
    }
}

#[test]
fn parties_and_policies_are_resolved() {
    let mut env = ArgBindings::new();
    env.insert(s("buyer"), ArgBinding::Address(hex_bytes(BUYER_HEX)));
    env.insert(s("treasury"), ArgBinding::Address(hex_bytes(TREASURY_HEX)));
    let mut params = ArgBindings::new();
    params.insert(s("buyer"), ArgBinding::Address(hex_bytes(TREASURY_HEX)));
    params.insert(s("issuer_policy"), ArgBinding::Bytes(vec![0x0f, 0xa0]));
    params.insert(s("amount_only"), ArgBinding::Other);
    let p = resolve_protocol_tx(s("buy_ticket"), &lowered(), &env, &params).ok().unwrap();
    assert_eq!(p.name, "buy_ticket");
    // the environment's binding wins over the transaction's own
    assert_eq!(p.inputs, vec![bech32(BUYER_HEX)]);
    assert!(p.inputs[0].starts_with("addr_test1"));
    assert_eq!(p.outputs, vec![bech32(TREASURY_HEX)]);
    assert_eq!(p.mints.len(), 1);
    assert_eq!(p.mints[0].policy, "0fa0");
}

#[test]
fn an_unreadable_address_is_an_error() {
    let mut env = ArgBindings::new();
    env.insert(s("treasury"), ArgBinding::Address(vec![0xff]));
    let params = ArgBindings::new();
    assert!(matches!(
        err_of(resolve_protocol_tx(s("t"), &lowered(), &env, &params)),
        RegistryError::InvalidAddress
    ));
}

fn template(lowered: Result<LoweredTx, String>) -> TxTemplate {
    TxTemplate {
        name: s("buy_ticket"),
        parameter_types: vec![(s("issuer_policy"), s("Bytes"))],
        lowered,
    }
}

#[test]
fn tx_parameters_feed_the_tx() {
    let parameters = ProtocolParameters {
        env: ParamSection::Absent,
        parties: ParamSection::Absent,
        txs: vec![TxParamSection {
            tx_name: s("buy_ticket"),
            section: ParamSection::Object(vec![entry("issuer_policy", "\"beef\"")]),
        }],
    };
    let env = ArgBindings::new();
    let p = map_protocol_tx(&parameters, &env, &template(Ok(lowered()))).ok().unwrap();
    assert_eq!(p.mints.len(), 1);
    assert_eq!(p.mints[0].policy, "beef");
    assert!(p.inputs.is_empty());
}

#[test]
fn tx_errors_in_order() {
    let env = ArgBindings::new();
    let bad_section = ProtocolParameters {
        env: ParamSection::Absent,
        parties: ParamSection::Absent,
        txs: vec![TxParamSection { tx_name: s("buy_ticket"), section: ParamSection::NotObject }],
    };
    assert!(matches!(
        err_of(map_protocol_tx(&bad_section, &env, &template(Err(s("cannot lower"))))),
        RegistryError::ParametersNotObject
    ));
    assert!(matches!(
        err_of(map_protocol_tx(&no_params(), &env, &template(Err(s("cannot lower"))))),
        RegistryError::Lowering(ref m) if m == "cannot lower"
    ));
}

#[test]
fn protocol_from_templates() {
    let parameters = ProtocolParameters {
        env: ParamSection::Object(vec![entry("fee_policy", "\"01\"")]),
        parties: ParamSection::Object(vec![
            entry("buyer", &format!("\"{}\"", BUYER_HEX)),
            entry("treasury", &format!("\"{}\"", TREASURY_HEX)),
        ]),
        txs: vec![],
    };
    let env_types = vec![(s("fee_policy"), s("Bytes"))];
    let mut second = lowered();
    second.mints = vec![TirExpr::Assets(vec![TirAsset { policy: value("fee_policy") }])];
    let templates = vec![
        template(Ok(lowered())),
        TxTemplate { name: s("pay_fee"), parameter_types: vec![], lowered: Ok(second) },
    ];
    let p = protocol_from_model(&env_types, &templates, &parameters).ok().unwrap();
    assert_eq!(p.txs.len(), 2);
    assert_eq!(p.txs[0].inputs, vec![bech32(BUYER_HEX)]);
    assert_eq!(p.txs[0].outputs, vec![bech32(TREASURY_HEX)]);
    assert!(p.txs[0].mints.is_empty());
    assert_eq!(p.txs[1].name, "pay_fee");
    assert_eq!(p.txs[1].mints[0].policy, "01");
    let not_object = ProtocolParameters { env: ParamSection::NotObject, ..parameters };
    assert!(matches!(
        err_of(protocol_from_model(&env_types, &templates, &not_object)),
        RegistryError::ParametersNotObject
    ));
}

#[test]
fn registry_answers() {
    let req = registry_request("buidler-fest", "ticketing-2026");
    assert_eq!(req.variables.scope, "buidler-fest");
    assert_eq!(req.variables.name, "ticketing-2026");
    assert_eq!(
        req.query,
        "query($scope: String!, $name: String!) { protocol(scope: $scope, name: $name) { source } }"
    );
    let errors = vec![
        RegistryResponseError { message: s("not found") },
        RegistryResponseError { message: s("bad scope") },
    ];
    assert_eq!(registry_error(&errors), "Registry error: not found; bad scope");
    assert_eq!(registry_error(&vec![]), "Registry error: ");
    let with_errors = RegistryResponse {
        data: Some(RegistryResponseData { protocol: Some(RegistryProtocol { source: s("tx a() {}") }) }),
        errors: Some(errors),
    };
    assert!(matches!(
        err_of(protocol_source(with_errors)),
        RegistryError::Registry(ref m) if m == "Registry error: not found; bad scope"
    ));
    let good = RegistryResponse {
        data: Some(RegistryResponseData { protocol: Some(RegistryProtocol { source: s("tx a() {}") }) }),
        errors: None,
    };
    assert_eq!(protocol_source(good).ok(), Some(s("tx a() {}")));
    let missing = RegistryResponse { data: Some(RegistryResponseData { protocol: None }), errors: None };
    assert!(matches!(err_of(protocol_source(missing)), RegistryError::MissingSource));
    let empty = RegistryResponse { data: None, errors: None };
    assert!(matches!(err_of(protocol_source(empty)), RegistryError::MissingSource));
}

fn with_tx_section(entries: Vec<ParamEntry>) -> ProtocolParameters {
    ProtocolParameters {
        env: ParamSection::Absent,
        parties: ParamSection::Absent,
        txs: vec![TxParamSection { tx_name: s("buy_ticket"), section: ParamSection::Object(entries) }],
    }
}

#[test]
fn env_bound_and_undeclared_tx_parameters_change_nothing() {
    let mut env = ArgBindings::new();
    env.insert(s("issuer_policy"), ArgBinding::Bytes(vec![0xca, 0xfe]));
    let t = template(Ok(lowered()));
    let base = map_protocol_tx(&with_tx_section(vec![]), &env, &t).ok().unwrap();
    assert_eq!(base.mints[0].policy, "cafe");
    let shadowed =
        map_protocol_tx(&with_tx_section(vec![entry("issuer_policy", "\"beef\"")]), &env, &t).ok().unwrap();
    assert_eq!(shadowed.mints[0].policy, "cafe");
    assert_eq!(shadowed.inputs, base.inputs);
    assert_eq!(shadowed.outputs, base.outputs);
    let extra = map_protocol_tx(
        &with_tx_section(vec![entry("unknown", "not json"), entry("issuer_policy", "\"beef\"")]),
        &env,
        &t,
    )
    .ok()
    .unwrap();
    assert_eq!(extra.mints[0].policy, "cafe");
    assert_eq!(extra.inputs, base.inputs);
}
