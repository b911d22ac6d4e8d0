use tx3_dashboard::config::{
    get_env, get_env_optional, protocol_parameters_text, split_tx_list, Config, ConfigError, EnvVars,
};
use tx3_dashboard::registry::{ParamSection, ProtocolParameters};
use tx3_dashboard::utxorpc::Listener;

fn s(x: &str) -> String {
    x.to_string()
}

fn params() -> ProtocolParameters {
    ProtocolParameters { env: ParamSection::Absent, parties: ParamSection::Absent, txs: vec![] }
}

fn full_vars() -> EnvVars {
    EnvVars {
        registry_url: Some(s("https://registry")),
        protocol_scope: Some(s("buidler-fest")),
        protocol_name: Some(s("ticketing")),
        protocol_parameters: None,
        u5c_url: Some(s("https://u5c")),
        u5c_api_key: None,
        database_path: Some(s("tracker.db")),
        server_addr: None,
        blockfrost_url: Some(s("https://bf")),
        txs: None,
    }
}

fn missing(r: Result<Config, ConfigError>) -> String {
    match r {
        Err(ConfigError::MissingVar(k)) => k,
        _ => panic!("expected a missing variable"),
    }
}

#[test]
fn tx_list_is_split_trimmed_and_filtered() {
    assert_eq!(split_tx_list(" aa, ,bb ,,cc\t"), vec![s("aa"), s("bb"), s("cc")]);
    assert_eq!(split_tx_list("aa"), vec![s("aa")]);
    assert!(split_tx_list("").is_empty());
    assert!(split_tx_list(" , ,").is_empty());
    assert_eq!(split_tx_list("\u{a0}dd\u{3000},ee"), vec![s("dd"), s("ee")]);
    assert_eq!(split_tx_list("a b, c"), vec![s("a b"), s("c")]);
}

#[test]
fn optional_values_ignore_empty() {
    assert_eq!(get_env_optional(&Some(s(""))), None);
    assert_eq!(get_env_optional(&None), None);
    assert_eq!(get_env_optional(&Some(s("x"))), Some(s("x")));
    assert_eq!(protocol_parameters_text(&None), "{}");
    assert_eq!(protocol_parameters_text(&Some(s(""))), "{}");
    assert_eq!(protocol_parameters_text(&Some(s("{\"env\":{}}"))), "{\"env\":{}}");
}

#[test]
fn required_values_accept_empty() {
    assert_eq!(get_env(&Some(s("")), "K").ok(), Some(s("")));
    match get_env(&None, "K") {
        Err(ConfigError::MissingVar(k)) => assert_eq!(k, "K"),
        _ => panic!("expected the key"),
    }
}

#[test]
fn config_defaults() {
    let c = match Config::from_vars(&full_vars(), Ok(params())) {
        Ok(c) => c,
        Err(_) => panic!("complete environment"),
    };
    assert_eq!(c.server_addr, "0.0.0.0:3000");
    assert_eq!(c.u5c_api_key, None);
    assert!(c.txs.is_empty());
    assert_eq!(c.registry_url, "https://registry");
    assert_eq!(c.blockfrost_url, "https://bf");
}

#[test]
fn config_optional_values() {
    let mut vars = full_vars();
    vars.server_addr = Some(s("127.0.0.1:8080"));
    vars.u5c_api_key = Some(s("dmtr_key"));
    vars.txs = Some(s("t1, t2"));
    let c = match Config::from_vars(&vars, Ok(params())) {
        Ok(c) => c,
        Err(_) => panic!("complete environment"),
    };
    assert_eq!(c.server_addr, "127.0.0.1:8080");
    assert_eq!(c.u5c_api_key, Some(s("dmtr_key")));
    assert_eq!(c.txs, vec![s("t1"), s("t2")]);
    vars.u5c_api_key = Some(s(""));
    let c = Config::from_vars(&vars, Ok(params())).ok().unwrap();
    assert_eq!(c.u5c_api_key, None);
}

#[test]
fn config_errors_come_in_order() {
    let mut vars = full_vars();
    vars.registry_url = None;
    vars.blockfrost_url = None;
    assert_eq!(missing(Config::from_vars(&vars, Ok(params()))), "REGISTRY_URL");
    let mut vars = full_vars();
    vars.protocol_scope = None;
    assert_eq!(missing(Config::from_vars(&vars, Ok(params()))), "PROTOCOL_SCOPE");
    let mut vars = full_vars();
    vars.protocol_name = None;
    assert_eq!(missing(Config::from_vars(&vars, Err(s("bad json")))), "PROTOCOL_NAME");
    let mut vars = full_vars();
    vars.u5c_url = None;
    match Config::from_vars(&vars, Err(s("bad json"))) {
        Err(ConfigError::InvalidProtocolParameters(m)) => assert_eq!(m, "bad json"),
        _ => panic!("parameters are checked before the u5c url"),
    }
    assert_eq!(missing(Config::from_vars(&vars, Ok(params()))), "U5C_URL");
    let mut vars = full_vars();
    vars.database_path = None;
    assert_eq!(missing(Config::from_vars(&vars, Ok(params()))), "DATABASE_PATH");
    let mut vars = full_vars();
    vars.blockfrost_url = None;
    assert_eq!(missing(Config::from_vars(&vars, Ok(params()))), "BLOCKFROST_URL");
}

#[test]
fn listener_sends_the_api_key() {
    let l = Listener { u5c_url: s("https://u5c"), u5c_api_key: Some(s("dmtr_1")) };
    assert_eq!(l.api_key_header(), Some((s("dmtr-api-key"), s("dmtr_1"))));
    let l = Listener { u5c_url: s("https://u5c"), u5c_api_key: None };
    assert_eq!(l.api_key_header(), None);
}
