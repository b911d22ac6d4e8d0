use tx3_dashboard::api::{tx_or_not_found, ApiError, ListParams};
use tx3_dashboard::db::TxResponse;

#[test]
fn limit_defaults_and_clamps() {
    assert_eq!(ListParams { limit: None }.limit(), 100);
    assert_eq!(ListParams { limit: Some(0) }.limit(), 1);
    assert_eq!(ListParams { limit: Some(-5) }.limit(), 1);
    assert_eq!(ListParams { limit: Some(1) }.limit(), 1);
    assert_eq!(ListParams { limit: Some(250) }.limit(), 250);
    assert_eq!(ListParams { limit: Some(500) }.limit(), 500);
    assert_eq!(ListParams { limit: Some(501) }.limit(), 500);
    assert_eq!(ListParams { limit: Some(i64::MAX) }.limit(), 500);
}

#[test]
fn missing_tx_is_not_found() {
    let r = tx_or_not_found(None);
    assert_eq!(r.err(), Some(ApiError::NotFound));
    assert_eq!(ApiError::NotFound.status_code(), 404);
    assert_eq!(ApiError::Internal.status_code(), 500);
}

#[test]
fn found_tx_is_answered() {
    let t = TxResponse { hash: "aa".to_string(), tx_name: "x".to_string(), inputs: vec![], outputs: vec![] };
    let r = tx_or_not_found(Some(t));
    match r {
        Ok(t) => assert_eq!(t.hash, "aa"),
        Err(_) => panic!("expected the transaction"),
    }
}
