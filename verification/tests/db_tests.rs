use tx3_dashboard::blockfrost::{BlockfrostAmount, BlockfrostInput, BlockfrostOutput, BlockfrostResponse};
use tx3_dashboard::db::{
    amount_query_hashes, build_responses, merge_utxo_rows, plan_insert_tx, select_amount_rows,
    tx_row_hashes, AmountRow, DbError, DbWrite, TxResponse, TxRow, Utxo, UtxoRow,
};

fn s(x: &str) -> String {
    x.to_string()
}

fn tx_row(hash: &str, name: &str) -> TxRow {
    TxRow { hash: s(hash), tx_name: s(name) }
}

fn utxo_row(tx_hash: &str, idx: i64, address: &str, consumed_by: Option<&str>, datum: Option<&str>) -> UtxoRow {
    UtxoRow {
        tx_hash: s(tx_hash),
        output_index: idx,
        address: s(address),
        consumed_by_tx: consumed_by.map(s),
        datum: datum.map(s),
    }
}

fn amount_row(tx_hash: &str, idx: i64, unit: &str, quantity: &str) -> AmountRow {
    AmountRow { tx_hash: s(tx_hash), output_index: idx, unit: s(unit), quantity: s(quantity) }
}

fn amounts(u: &Utxo) -> Vec<(String, String)> {
    u.amount.iter().map(|a| (a.unit.clone(), a.quantity.clone())).collect()
}

fn key(u: &Utxo) -> (String, u32) {
    (u.tx_hash.clone(), u.output_index)
}

fn keys(v: &[Utxo]) -> Vec<(String, u32)> {
    v.iter().map(key).collect()
}

fn ok(r: Result<Vec<TxResponse>, DbError>) -> Vec<TxResponse> {
    match r {
        Ok(v) => v,
        Err(_) => panic!("assembly failed"),
    }
}

#[test]
fn responses_follow_row_order_and_link_both_sides() {
    let rows = vec![tx_row("bb", "buy_ticket"), tx_row("aa", "mint")];
    let utxos = vec![
        utxo_row("aa", 0, "addr_a0", Some("bb"), Some("d0")),
        utxo_row("aa", 1, "addr_a1", None, None),
        utxo_row("bb", 0, "addr_b0", None, None),
    ];
    let amounts_rows = vec![
        amount_row("aa", 0, "lovelace", "5"),
        amount_row("aa", 1, "lovelace", "7"),
        amount_row("aa", 0, "token", "1"),
    ];
    let r = ok(build_responses(rows, utxos, amounts_rows));
    assert_eq!(r.len(), 2);
    assert_eq!(r[0].hash, "bb");
    assert_eq!(r[0].tx_name, "buy_ticket");
    assert_eq!(keys(&r[0].inputs), vec![(s("aa"), 0)]);
    assert_eq!(keys(&r[0].outputs), vec![(s("bb"), 0)]);
    assert_eq!(r[1].hash, "aa");
    assert!(r[1].inputs.is_empty());
    assert_eq!(keys(&r[1].outputs), vec![(s("aa"), 0), (s("aa"), 1)]);
    let spent = &r[0].inputs[0];
    assert_eq!(spent.address, "addr_a0");
    assert_eq!(spent.datum.as_deref(), Some("d0"));
    assert_eq!(spent.consumed_by_tx.as_deref(), Some("bb"));
    assert_eq!(amounts(spent), vec![(s("lovelace"), s("5")), (s("token"), s("1"))]);
    // the same output, seen from the transaction that created it
    assert_eq!(amounts(&r[1].outputs[0]), amounts(spent));
    assert_eq!(amounts(&r[1].outputs[1]), vec![(s("lovelace"), s("7"))]);
    assert!(r[0].outputs[0].amount.is_empty());
}

#[test]
fn a_repeated_row_gets_no_outputs() {
    let rows = vec![tx_row("aa", "x"), tx_row("aa", "y")];
    let utxos = vec![utxo_row("aa", 0, "addr", None, None)];
    let r = ok(build_responses(rows, utxos, vec![]));
    assert_eq!(r.len(), 2);
    assert_eq!(r[0].outputs.len(), 1);
    assert_eq!(r[1].tx_name, "y");
    assert!(r[1].outputs.is_empty());
    assert!(r[1].inputs.is_empty());
}

#[test]
fn no_rows_give_no_responses() {
    let r = ok(build_responses(vec![], vec![utxo_row("aa", 0, "addr", None, None)], vec![]));
    assert!(r.is_empty());
}

#[test]
fn a_negative_output_index_is_an_error() {
    let r = build_responses(vec![tx_row("aa", "x")], vec![utxo_row("zz", -1, "addr", None, None)], vec![]);
    assert!(matches!(r, Err(DbError::InvalidOutputIndex)));
}

#[test]
fn an_output_index_beyond_u32_is_an_error() {
    let r = build_responses(vec![], vec![utxo_row("zz", 4294967296, "addr", None, None)], vec![]);
    assert!(matches!(r, Err(DbError::InvalidOutputIndex)));
    let fine = build_responses(vec![], vec![utxo_row("zz", 4294967295, "addr", None, None)], vec![]);
    assert!(fine.is_ok());
}

#[test]
fn merged_rows_keep_the_first_row_of_each_output() {
    let produced = vec![utxo_row("aa", 0, "first", None, None), utxo_row("aa", 1, "x", None, None)];
    let spent = vec![utxo_row("aa", 0, "second", Some("bb"), None), utxo_row("cc", 0, "y", Some("aa"), None)];
    let r = merge_utxo_rows(produced, spent);
    let got: Vec<(String, i64, String)> =
        r.iter().map(|u| (u.tx_hash.clone(), u.output_index, u.address.clone())).collect();
    assert_eq!(got, vec![(s("aa"), 0, s("first")), (s("aa"), 1, s("x")), (s("cc"), 0, s("y"))]);
}

#[test]
fn merging_twice_changes_nothing() {
    let rows = vec![utxo_row("aa", 0, "a", None, None), utxo_row("aa", 0, "b", None, None), utxo_row("aa", 2, "c", None, None)];
    let once = merge_utxo_rows(rows, vec![]);
    let once_addr: Vec<String> = once.iter().map(|u| u.address.clone()).collect();
    let twice = merge_utxo_rows(once, vec![]);
    let twice_addr: Vec<String> = twice.iter().map(|u| u.address.clone()).collect();
    assert_eq!(once_addr, vec![s("a"), s("c")]);
    assert_eq!(twice_addr, once_addr);
}

#[test]
fn amount_hashes_are_distinct_in_first_order() {
    let utxos = vec![
        utxo_row("bb", 0, "a", None, None),
        utxo_row("aa", 0, "a", None, None),
        utxo_row("bb", 1, "a", None, None),
    ];
    assert_eq!(amount_query_hashes(&utxos), vec![s("bb"), s("aa")]);
    assert!(amount_query_hashes(&vec![]).is_empty());
}

#[test]
fn only_amounts_of_the_outputs_are_kept() {
    let utxos = vec![utxo_row("aa", 0, "a", None, None), utxo_row("bb", 3, "b", None, None)];
    let rows = vec![
        amount_row("aa", 0, "lovelace", "1"),
        amount_row("aa", 1, "lovelace", "2"),
        amount_row("bb", 3, "token", "3"),
        amount_row("bb", 0, "token", "4"),
    ];
    let kept = select_amount_rows(rows, &utxos);
    let got: Vec<String> = kept.iter().map(|a| a.quantity.clone()).collect();
    assert_eq!(got, vec![s("1"), s("3")]);
}

#[test]
fn row_hashes_in_order() {
    let rows = vec![tx_row("bb", "x"), tx_row("aa", "y")];
    assert_eq!(tx_row_hashes(&rows), vec![s("bb"), s("aa")]);
}

fn sample_tx() -> BlockfrostResponse {
    BlockfrostResponse {
        hash: s("cafe"),
        inputs: vec![BlockfrostInput {
            address: s("addr_buyer"),
            tx_hash: s("beef"),
            output_index: 2,
            amount: vec![BlockfrostAmount { unit: s("lovelace"), quantity: s("10") }],
            inline_datum: Some(s("datum_in")),
        }],
        outputs: vec![
            BlockfrostOutput {
                address: s("addr_treasury"),
                output_index: 0,
                amount: vec![
                    BlockfrostAmount { unit: s("lovelace"), quantity: s("8") },
                    BlockfrostAmount { unit: s("ticket"), quantity: s("1") },
                ],
                inline_datum: None,
                consumed_by_tx: None,
            },
            BlockfrostOutput {
                address: s("addr_buyer"),
                output_index: 1,
                amount: vec![],
                inline_datum: None,
                consumed_by_tx: Some(s("f00d")),
            },
        ],
    }
}

#[test]
fn insert_plan_lists_the_writes_in_order() {
    let plan = plan_insert_tx("buy_ticket", &sample_tx());
    assert_eq!(plan.len(), 7);
    match &plan[0] {
        DbWrite::InsertTx(r) => {
            assert_eq!(r.hash, "cafe");
            assert_eq!(r.tx_name, "buy_ticket");
        }
        _ => panic!("transaction row first"),
    }
    match &plan[1] {
        DbWrite::UpsertUtxo(r) => {
            assert_eq!((r.tx_hash.as_str(), r.output_index, r.address.as_str()), ("beef", 2, "addr_buyer"));
            assert_eq!(r.consumed_by_tx.as_deref(), Some("cafe"));
            assert_eq!(r.datum.as_deref(), Some("datum_in"));
        }
        _ => panic!("spent output second"),
    }
    match &plan[2] {
        DbWrite::UpsertAmount(a) => {
            assert_eq!((a.tx_hash.as_str(), a.output_index, a.unit.as_str(), a.quantity.as_str()), ("beef", 2, "lovelace", "10"));
        }
        _ => panic!("its amount third"),
    }
    match &plan[3] {
        DbWrite::UpsertUtxo(r) => {
            assert_eq!((r.tx_hash.as_str(), r.output_index), ("cafe", 0));
            assert_eq!(r.consumed_by_tx, None);
        }
        _ => panic!("created output"),
    }
    match (&plan[4], &plan[5]) {
        (DbWrite::UpsertAmount(a), DbWrite::UpsertAmount(b)) => {
            assert_eq!((a.unit.as_str(), b.unit.as_str()), ("lovelace", "ticket"));
            assert_eq!((a.tx_hash.as_str(), a.output_index), ("cafe", 0));
        }
        _ => panic!("amounts of the created output"),
    }
    match &plan[6] {
        DbWrite::UpsertUtxo(r) => {
            assert_eq!((r.tx_hash.as_str(), r.output_index), ("cafe", 1));
            assert_eq!(r.consumed_by_tx.as_deref(), Some("f00d"));
        }
        _ => panic!("second created output"),
    }
}

#[test]
fn a_stored_tx_reads_back() {
    let tx = sample_tx();
    let plan = plan_insert_tx("buy_ticket", &tx);
    let mut rows = vec![];
    let mut utxos = vec![];
    let mut amounts_rows = vec![];
    for w in plan {
        match w {
            DbWrite::InsertTx(r) => rows.push(r),
            DbWrite::UpsertUtxo(r) => utxos.push(r),
            DbWrite::UpsertAmount(a) => amounts_rows.push(a),
        }
    }
    let r = ok(build_responses(rows, utxos, amounts_rows));
    assert_eq!(r.len(), 1);
    assert_eq!(r[0].hash, "cafe");
    assert_eq!(r[0].tx_name, "buy_ticket");
    assert_eq!(keys(&r[0].inputs), vec![(s("beef"), 2)]);
    assert_eq!(amounts(&r[0].inputs[0]), vec![(s("lovelace"), s("10"))]);
    assert_eq!(r[0].inputs[0].address, "addr_buyer");
    assert_eq!(keys(&r[0].outputs), vec![(s("cafe"), 0), (s("cafe"), 1)]);
    assert_eq!(amounts(&r[0].outputs[0]), vec![(s("lovelace"), s("8")), (s("ticket"), s("1"))]);
    assert_eq!(r[0].outputs[1].consumed_by_tx.as_deref(), Some("f00d"));
}

#[test]
fn a_single_lookup_agrees_with_the_list() {
    let utxos = || {
        vec![
            utxo_row("aa", 0, "addr_a0", Some("bb"), Some("d0")),
            utxo_row("aa", 1, "addr_a1", None, None),
            utxo_row("bb", 0, "addr_b0", None, None),
        ]
    };
    let amounts_rows = || {
        vec![
            amount_row("aa", 0, "lovelace", "5"),
            amount_row("aa", 1, "lovelace", "7"),
            amount_row("bb", 0, "lovelace", "3"),
        ]
    };
    let listed = ok(build_responses(vec![tx_row("aa", "mint"), tx_row("bb", "buy_ticket")], utxos(), amounts_rows()));
    // a lookup of "bb" reads the rows "bb" created or spent, and their amounts
    let own = vec![utxo_row("aa", 0, "addr_a0", Some("bb"), Some("d0")), utxo_row("bb", 0, "addr_b0", None, None)];
    let own_amounts = vec![amount_row("aa", 0, "lovelace", "5"), amount_row("bb", 0, "lovelace", "3")];
    let single = ok(build_responses(vec![tx_row("bb", "buy_ticket")], own, own_amounts));
    assert_eq!(single.len(), 1);
    assert_eq!(single[0].hash, listed[1].hash);
    assert_eq!(single[0].tx_name, listed[1].tx_name);
    assert_eq!(keys(&single[0].inputs), keys(&listed[1].inputs));
    assert_eq!(keys(&single[0].outputs), keys(&listed[1].outputs));
    assert_eq!(amounts(&single[0].inputs[0]), amounts(&listed[1].inputs[0]));
    assert_eq!(amounts(&single[0].outputs[0]), amounts(&listed[1].outputs[0]));
}
