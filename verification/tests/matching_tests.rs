use tx3_dashboard::blockfrost::{
    get_matching_protocol_tx, utxos_url, writes_for_match, BlockfrostInput, BlockfrostOutput,
    BlockfrostResponse,
};
use tx3_dashboard::db::DbWrite;
use tx3_dashboard::registry::{Protocol, ProtocolTx};

fn s(x: &str) -> String {
    x.to_string()
}

fn tx(inputs: &[&str], outputs: &[&str]) -> BlockfrostResponse {
    BlockfrostResponse {
        hash: s("h"),
        inputs: inputs
            .iter()
            .enumerate()
            .map(|(i, a)| BlockfrostInput {
                address: s(a),
                tx_hash: s("prev"),
                output_index: i as u32,
                amount: vec![],
                inline_datum: None,
            })
            .collect(),
        outputs: outputs
            .iter()
            .enumerate()
            .map(|(i, a)| BlockfrostOutput {
                address: s(a),
                output_index: i as u32,
                amount: vec![],
                inline_datum: None,
                consumed_by_tx: None,
            })
            .collect(),
    }
}

fn ptx(name: &str, inputs: &[&str], outputs: &[&str]) -> ProtocolTx {
    ProtocolTx {
        name: s(name),
        inputs: inputs.iter().map(|a| s(a)).collect(),
        outputs: outputs.iter().map(|a| s(a)).collect(),
        mints: vec![],
    }
}

#[test]
fn the_first_fitting_protocol_tx_names_the_match() {
    let protocol = Protocol {
        txs: vec![
            ptx("refund", &["treasury"], &["buyer"]),
            ptx("buy_ticket", &["buyer"], &["treasury"]),
            ptx("any_payment", &[], &["treasury"]),
        ],
    };
    let t = tx(&["buyer", "other"], &["treasury", "buyer"]);
    assert_eq!(get_matching_protocol_tx(&t, &protocol), Some(s("buy_ticket")));
}

#[test]
fn no_fitting_protocol_tx_gives_none() {
    let protocol = Protocol { txs: vec![ptx("buy_ticket", &["buyer"], &["treasury"])] };
    // the buyer receives instead of paying
    let t = tx(&["treasury"], &["buyer"]);
    assert_eq!(get_matching_protocol_tx(&t, &protocol), None);
    assert_eq!(get_matching_protocol_tx(&t, &Protocol { txs: vec![] }), None);
}

#[test]
fn an_input_address_must_be_spent_from_not_paid_to() {
    let protocol = Protocol { txs: vec![ptx("buy_ticket", &["buyer"], &[])] };
    let t = tx(&[], &["buyer"]);
    assert_eq!(get_matching_protocol_tx(&t, &protocol), None);
}

#[test]
fn a_protocol_tx_naming_no_parties_fits_every_tx() {
    let protocol = Protocol { txs: vec![ptx("anything", &[], &[])] };
    assert_eq!(get_matching_protocol_tx(&tx(&[], &[]), &protocol), Some(s("anything")));
}

#[test]
fn a_match_survives_more_parties() {
    let protocol = Protocol { txs: vec![ptx("buy_ticket", &["buyer"], &["treasury"])] };
    let narrow = tx(&["buyer"], &["treasury"]);
    let wider = tx(&["buyer", "x", "y"], &["z", "treasury"]);
    assert_eq!(get_matching_protocol_tx(&narrow, &protocol), Some(s("buy_ticket")));
    assert_eq!(get_matching_protocol_tx(&wider, &protocol), Some(s("buy_ticket")));
}

#[test]
fn utxos_url_is_the_indexer_path() {
    assert_eq!(utxos_url("https://indexer.example/api/v0", "abc123"), "https://indexer.example/api/v0/txs/abc123/utxos");
}

#[test]
fn a_match_is_stored_under_its_name_and_the_tx_hash() {
    let protocol = Protocol { txs: vec![ptx("buy_ticket", &["buyer"], &["treasury"])] };
    let t = tx(&["buyer"], &["treasury", "buyer"]);
    let (name, writes) = writes_for_match(&t, &protocol).expect("the tx fits buy_ticket");
    assert_eq!(name, "buy_ticket");
    assert_eq!(writes.len(), 4);
    match &writes[0] {
        DbWrite::InsertTx(row) => {
            assert_eq!(row.hash, "h");
            assert_eq!(row.tx_name, "buy_ticket");
        }
        _ => panic!("the transaction row comes first"),
    }
    match &writes[1] {
        DbWrite::UpsertUtxo(row) => {
            assert_eq!(row.tx_hash, "prev");
            assert_eq!(row.consumed_by_tx.as_deref(), Some("h"));
        }
        _ => panic!("the spent output comes second"),
    }
    match &writes[3] {
        DbWrite::UpsertUtxo(row) => {
            assert_eq!(row.tx_hash, "h");
            assert_eq!(row.output_index, 1);
            assert_eq!(row.address, "buyer");
        }
        _ => panic!("the created outputs come last"),
    }
}

#[test]
fn nothing_is_stored_without_a_match() {
    let protocol = Protocol { txs: vec![ptx("buy_ticket", &["buyer"], &["treasury"])] };
    assert!(writes_for_match(&tx(&["other"], &["treasury"]), &protocol).is_none());
}
