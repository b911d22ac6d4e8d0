//! What the writes of a stored transaction do to the tables: the `txs`,
//! `utxos` and `utxo_amount` tables modelled as maps from their primary keys,
//! and the laws the writes keep.
use vstd::prelude::*;

use crate::blockfrost::{BlockfrostInputView, BlockfrostOutputView, BlockfrostResponseView};
use crate::db::{
    amount_block, input_blocks, input_row, insert_plan, lemma_planned_insert, output_blocks,
    output_row, planned_amount_rows, planned_tx_rows, planned_utxo_rows, units_distinct,
    well_formed_tx,
    AmountRowView, DbWriteView, TxRowView, UtxoRowView,
};

verus! {

/// The three tables, each a map from its primary key.
pub struct StoreView {
    /// `txs`: from the transaction hash to the transaction name.
    pub txs: Map<Seq<char>, Seq<char>>,
    /// `utxos`: from (creating transaction, output index) to the row.
    pub utxos: Map<(Seq<char>, i64), UtxoRowView>,
    /// `utxo_amount`: from (creating transaction, output index, unit) to the
    /// quantity.
    pub amounts: Map<(Seq<char>, i64, Seq<char>), Seq<char>>,
}

/// The tables as they are created: empty.
pub open spec fn empty_store() -> StoreView {
    StoreView { txs: Map::empty(), utxos: Map::empty(), amounts: Map::empty() }
}

pub open spec fn utxo_key(r: UtxoRowView) -> (Seq<char>, i64) {
    (r.tx_hash, r.output_index)
}

pub open spec fn amount_key(r: AmountRowView) -> (Seq<char>, i64, Seq<char>) {
    (r.tx_hash, r.output_index, r.unit)
}

/// `COALESCE(kept, offered)`: the kept value where there is one.
pub open spec fn coalesce(kept: Option<Seq<char>>, offered: Option<Seq<char>>) -> Option<Seq<char>> {
    match kept {
        Some(v) => Some(v),
        None => offered,
    }
}

pub open spec fn stored_tx(s: StoreView, h: Seq<char>) -> Option<Seq<char>> {
    if s.txs.dom().contains(h) {
        Some(s.txs[h])
    } else {
        None
    }
}

pub open spec fn stored_utxo(s: StoreView, k: (Seq<char>, i64)) -> Option<UtxoRowView> {
    if s.utxos.dom().contains(k) {
        Some(s.utxos[k])
    } else {
        None
    }
}

pub open spec fn stored_amount(s: StoreView, k: (Seq<char>, i64, Seq<char>)) -> Option<Seq<char>> {
    if s.amounts.dom().contains(k) {
        Some(s.amounts[k])
    } else {
        None
    }
}

/// The output row after `r` is offered where `old` was stored: `r` itself
/// on a free key; otherwise `r`'s address, with the spending transaction and
/// datum that were set kept.
pub open spec fn upserted_utxo(old: Option<UtxoRowView>, r: UtxoRowView) -> UtxoRowView {
    match old {
        None => r,
        Some(o) => UtxoRowView {
            tx_hash: r.tx_hash,
            output_index: r.output_index,
            address: r.address,
            consumed_by_tx: coalesce(o.consumed_by_tx, r.consumed_by_tx),
            datum: coalesce(o.datum, r.datum),
        },
    }
}

/// What one write does to the tables: a transaction row is inserted unless
/// its hash is there; an output row is upserted (see [`upserted_utxo`]); an
/// amount row's quantity replaces the one stored under its key.
pub open spec fn apply_write(s: StoreView, w: DbWriteView) -> StoreView {
    match w {
        DbWriteView::InsertTx(r) => if s.txs.dom().contains(r.hash) {
            s
        } else {
            StoreView { txs: s.txs.insert(r.hash, r.tx_name), utxos: s.utxos, amounts: s.amounts }
        },
        DbWriteView::UpsertUtxo(r) => StoreView {
            txs: s.txs,
            utxos: s.utxos.insert(utxo_key(r), upserted_utxo(stored_utxo(s, utxo_key(r)), r)),
            amounts: s.amounts,
        },
        DbWriteView::UpsertAmount(r) => StoreView {
            txs: s.txs,
            utxos: s.utxos,
            amounts: s.amounts.insert(amount_key(r), r.quantity),
        },
    }
}

/// The tables after the writes `ws` run in order.
pub open spec fn apply_writes(s: StoreView, ws: Seq<DbWriteView>) -> StoreView
    decreases ws.len(),
{
    if ws.len() == 0 {
        s
    } else {
        apply_write(apply_writes(s, ws.drop_last()), ws.last())
    }
}

// Per key, what a list of writes offers.

pub open spec fn tx_write_for(w: DbWriteView, h: Seq<char>) -> Option<Seq<char>> {
    match w {
        DbWriteView::InsertTx(r) => if r.hash == h {
            Some(r.tx_name)
        } else {
            None
        },
        _ => None,
    }
}

pub open spec fn utxo_write_for(w: DbWriteView, k: (Seq<char>, i64)) -> Option<UtxoRowView> {
    match w {
        DbWriteView::UpsertUtxo(r) => if utxo_key(r) == k {
            Some(r)
        } else {
            None
        },
        _ => None,
    }
}

pub open spec fn amount_write_for(w: DbWriteView, k: (Seq<char>, i64, Seq<char>)) -> Option<
    Seq<char>,
> {
    match w {
        DbWriteView::UpsertAmount(r) => if amount_key(r) == k {
            Some(r.quantity)
        } else {
            None
        },
        _ => None,
    }
}

/// The name of the first transaction row for `h` among `ws`.
pub open spec fn first_tx_name(ws: Seq<DbWriteView>, h: Seq<char>) -> Option<Seq<char>>
    decreases ws.len(),
{
    if ws.len() == 0 {
        None
    } else {
        coalesce(first_tx_name(ws.drop_last(), h), tx_write_for(ws.last(), h))
    }
}

/// The last output row for `k` among `ws`.
pub open spec fn last_utxo_write(ws: Seq<DbWriteView>, k: (Seq<char>, i64)) -> Option<UtxoRowView>
    decreases ws.len(),
{
    if ws.len() == 0 {
        None
    } else {
        match utxo_write_for(ws.last(), k) {
            Some(r) => Some(r),
            None => last_utxo_write(ws.drop_last(), k),
        }
    }
}

/// The first spending transaction set among the output rows for `k` in `ws`.
pub open spec fn first_consumed_by(ws: Seq<DbWriteView>, k: (Seq<char>, i64)) -> Option<Seq<char>>
    decreases ws.len(),
{
    if ws.len() == 0 {
        None
    } else {
        let prev = first_consumed_by(ws.drop_last(), k);
        match utxo_write_for(ws.last(), k) {
            Some(r) => coalesce(prev, r.consumed_by_tx),
            None => prev,
        }
    }
}

/// The first datum set among the output rows for `k` in `ws`.
pub open spec fn first_datum(ws: Seq<DbWriteView>, k: (Seq<char>, i64)) -> Option<Seq<char>>
    decreases ws.len(),
{
    if ws.len() == 0 {
        None
    } else {
        let prev = first_datum(ws.drop_last(), k);
        match utxo_write_for(ws.last(), k) {
            Some(r) => coalesce(prev, r.datum),
            None => prev,
        }
    }
}

/// The quantity of the last amount row for `k` among `ws`.
pub open spec fn last_quantity(ws: Seq<DbWriteView>, k: (Seq<char>, i64, Seq<char>)) -> Option<
    Seq<char>,
>
    decreases ws.len(),
{
    if ws.len() == 0 {
        None
    } else {
        coalesce(amount_write_for(ws.last(), k), last_quantity(ws.drop_last(), k))
    }
}

pub open spec fn consumed_of(o: Option<UtxoRowView>) -> Option<Seq<char>> {
    match o {
        Some(r) => r.consumed_by_tx,
        None => None,
    }
}

pub open spec fn datum_of(o: Option<UtxoRowView>) -> Option<Seq<char>> {
    match o {
        Some(r) => r.datum,
        None => None,
    }
}

/// The output row stored under `k` after `ws`, from what was stored before.
pub open spec fn utxo_after(before: Option<UtxoRowView>, ws: Seq<DbWriteView>, k: (Seq<char>, i64)) -> Option<
    UtxoRowView,
> {
    match last_utxo_write(ws, k) {
        None => before,
        Some(r) => Some(
            UtxoRowView {
                tx_hash: r.tx_hash,
                output_index: r.output_index,
                address: r.address,
                consumed_by_tx: coalesce(consumed_of(before), first_consumed_by(ws, k)),
                datum: coalesce(datum_of(before), first_datum(ws, k)),
            },
        ),
    }
}

proof fn lemma_tx_after(s: StoreView, ws: Seq<DbWriteView>, h: Seq<char>)
    ensures
        stored_tx(apply_writes(s, ws), h) == coalesce(stored_tx(s, h), first_tx_name(ws, h)),
    decreases ws.len(),
{
    if ws.len() > 0 {
        lemma_tx_after(s, ws.drop_last(), h);
    }
}

proof fn lemma_utxo_after(s: StoreView, ws: Seq<DbWriteView>, k: (Seq<char>, i64))
    ensures
        stored_utxo(apply_writes(s, ws), k) == utxo_after(stored_utxo(s, k), ws, k),
        last_utxo_write(ws, k) is None ==> first_consumed_by(ws, k) is None && first_datum(ws, k) is None,
    decreases ws.len(),
{
    if ws.len() > 0 {
        lemma_utxo_after(s, ws.drop_last(), k);
        let w = ws.last();
        if let DbWriteView::UpsertUtxo(r) = w {
            if utxo_key(r) != k {
                assert(utxo_write_for(w, k) is None);
            }
        }
    }
}

proof fn lemma_amount_after(s: StoreView, ws: Seq<DbWriteView>, k: (Seq<char>, i64, Seq<char>))
    ensures
        stored_amount(apply_writes(s, ws), k) == coalesce(last_quantity(ws, k), stored_amount(s, k)),
    decreases ws.len(),
{
    if ws.len() > 0 {
        lemma_amount_after(s, ws.drop_last(), k);
    }
}

proof fn lemma_same_tables(a: StoreView, b: StoreView)
    requires
        forall|h: Seq<char>| stored_tx(a, h) == stored_tx(b, h),
        forall|k: (Seq<char>, i64)| stored_utxo(a, k) == stored_utxo(b, k),
        forall|k: (Seq<char>, i64, Seq<char>)| stored_amount(a, k) == stored_amount(b, k),
    ensures
        a == b,
{
    assert(a.txs =~= b.txs) by {
        assert forall|h: Seq<char>| a.txs.dom().contains(h) == b.txs.dom().contains(h) by {
            assert(stored_tx(a, h) == stored_tx(b, h));
        }
        assert forall|h: Seq<char>| a.txs.dom().contains(h) implies a.txs[h] == b.txs[h] by {
            assert(stored_tx(a, h) == stored_tx(b, h));
        }
    }
    assert(a.utxos =~= b.utxos) by {
        assert forall|k: (Seq<char>, i64)| a.utxos.dom().contains(k) == b.utxos.dom().contains(k) by {
            assert(stored_utxo(a, k) == stored_utxo(b, k));
        }
        assert forall|k: (Seq<char>, i64)| a.utxos.dom().contains(k) implies a.utxos[k] == b.utxos[k] by {
            assert(stored_utxo(a, k) == stored_utxo(b, k));
        }
    }
    assert(a.amounts =~= b.amounts) by {
        assert forall|k: (Seq<char>, i64, Seq<char>)|
            a.amounts.dom().contains(k) == b.amounts.dom().contains(k) by {
            assert(stored_amount(a, k) == stored_amount(b, k));
        }
        assert forall|k: (Seq<char>, i64, Seq<char>)|
            a.amounts.dom().contains(k) implies a.amounts[k] == b.amounts[k] by {
            assert(stored_amount(a, k) == stored_amount(b, k));
        }
    }
}

/// Running the same writes a second time changes nothing: storing a
/// transaction again leaves the tables as the first storing left them.
pub proof fn law_writes_are_idempotent(s: StoreView, ws: Seq<DbWriteView>)
    ensures
        apply_writes(apply_writes(s, ws), ws) == apply_writes(s, ws),
{
    let t = apply_writes(s, ws);
    let u = apply_writes(t, ws);
    assert forall|h: Seq<char>| stored_tx(u, h) == stored_tx(t, h) by {
        lemma_tx_after(s, ws, h);
        lemma_tx_after(t, ws, h);
    }
    assert forall|k: (Seq<char>, i64)| stored_utxo(u, k) == stored_utxo(t, k) by {
        lemma_utxo_after(s, ws, k);
        lemma_utxo_after(t, ws, k);
    }
    assert forall|k: (Seq<char>, i64, Seq<char>)| stored_amount(u, k) == stored_amount(t, k) by {
        lemma_amount_after(s, ws, k);
        lemma_amount_after(t, ws, k);
    }
    lemma_same_tables(u, t);
}

/// Writes never delete: every row stored before is stored after.
pub proof fn law_writes_never_delete(s: StoreView, ws: Seq<DbWriteView>)
    ensures
        s.txs.dom().subset_of(apply_writes(s, ws).txs.dom()),
        s.utxos.dom().subset_of(apply_writes(s, ws).utxos.dom()),
        s.amounts.dom().subset_of(apply_writes(s, ws).amounts.dom()),
{
    let t = apply_writes(s, ws);
    assert forall|h: Seq<char>| s.txs.dom().contains(h) implies t.txs.dom().contains(h) by {
        lemma_tx_after(s, ws, h);
    }
    assert forall|k: (Seq<char>, i64)| s.utxos.dom().contains(k) implies t.utxos.dom().contains(k) by {
        lemma_utxo_after(s, ws, k);
    }
    assert forall|k: (Seq<char>, i64, Seq<char>)|
        s.amounts.dom().contains(k) implies t.amounts.dom().contains(k) by {
        lemma_amount_after(s, ws, k);
    }
}

/// What is set stays set: a stored transaction keeps its name, and a stored
/// output keeps the spending transaction and the datum it has, whatever the
/// writes offer.
pub proof fn law_writes_keep_what_is_set(s: StoreView, ws: Seq<DbWriteView>)
    ensures
        forall|h: Seq<char>|
            s.txs.dom().contains(h) ==> #[trigger] apply_writes(s, ws).txs[h] == s.txs[h],
        forall|k: (Seq<char>, i64)|
            s.utxos.dom().contains(k) && s.utxos[k].consumed_by_tx is Some
                ==> #[trigger] apply_writes(s, ws).utxos[k].consumed_by_tx == s.utxos[k].consumed_by_tx,
        forall|k: (Seq<char>, i64)|
            s.utxos.dom().contains(k) && s.utxos[k].datum is Some
                ==> #[trigger] apply_writes(s, ws).utxos[k].datum == s.utxos[k].datum,
{
    let t = apply_writes(s, ws);
    assert forall|h: Seq<char>| s.txs.dom().contains(h) implies #[trigger] t.txs[h] == s.txs[h] by {
        lemma_tx_after(s, ws, h);
    }
    assert forall|k: (Seq<char>, i64)|
        s.utxos.dom().contains(k) && s.utxos[k].consumed_by_tx is Some implies #[trigger] t.utxos[k].consumed_by_tx
        == s.utxos[k].consumed_by_tx by {
        lemma_utxo_after(s, ws, k);
    }
    assert forall|k: (Seq<char>, i64)|
        s.utxos.dom().contains(k) && s.utxos[k].datum is Some implies #[trigger] t.utxos[k].datum
        == s.utxos[k].datum by {
        lemma_utxo_after(s, ws, k);
    }
}

/// The last write wins where nothing is kept: after writes that offer an
/// output row for `k`, the stored output has the address of the last one;
/// after writes that offer an amount for `k`, the stored quantity is the last
/// one offered.
pub proof fn law_last_write_wins(s: StoreView, ws: Seq<DbWriteView>, j: int)
    requires
        0 <= j < ws.len(),
    ensures
        forall|r: UtxoRowView|
            ws[j] == DbWriteView::UpsertUtxo(r) && (forall|m: int|
                j < m < ws.len() ==> utxo_write_for(#[trigger] ws[m], utxo_key(r)) is None)
                ==> apply_writes(s, ws).utxos.dom().contains(utxo_key(r))
                && apply_writes(s, ws).utxos[utxo_key(r)].address == r.address,
        forall|r: AmountRowView|
            ws[j] == DbWriteView::UpsertAmount(r) && (forall|m: int|
                j < m < ws.len() ==> amount_write_for(#[trigger] ws[m], amount_key(r)) is None)
                ==> apply_writes(s, ws).amounts.dom().contains(amount_key(r))
                && apply_writes(s, ws).amounts[amount_key(r)] == r.quantity,
{
    assert forall|r: UtxoRowView|
        ws[j] == DbWriteView::UpsertUtxo(r) && (forall|m: int|
            j < m < ws.len() ==> utxo_write_for(#[trigger] ws[m], utxo_key(r)) is None) implies apply_writes(
        s,
        ws,
    ).utxos.dom().contains(utxo_key(r)) && apply_writes(s, ws).utxos[utxo_key(r)].address == r.address by {
        lemma_utxo_after(s, ws, utxo_key(r));
        lemma_last_utxo_write_is(ws, j, r);
    }
    assert forall|r: AmountRowView|
        ws[j] == DbWriteView::UpsertAmount(r) && (forall|m: int|
            j < m < ws.len() ==> amount_write_for(#[trigger] ws[m], amount_key(r)) is None) implies apply_writes(
        s,
        ws,
    ).amounts.dom().contains(amount_key(r)) && apply_writes(s, ws).amounts[amount_key(r)] == r.quantity by {
        lemma_amount_after(s, ws, amount_key(r));
        lemma_last_quantity_is(ws, j, r);
    }
}

proof fn lemma_last_utxo_write_is(ws: Seq<DbWriteView>, j: int, r: UtxoRowView)
    requires
        0 <= j < ws.len(),
        ws[j] == DbWriteView::UpsertUtxo(r),
        forall|m: int| j < m < ws.len() ==> utxo_write_for(#[trigger] ws[m], utxo_key(r)) is None,
    ensures
        last_utxo_write(ws, utxo_key(r)) == Some(r),
    decreases ws.len(),
{
    if j < ws.len() - 1 {
        let p = ws.drop_last();
        assert(utxo_write_for(ws[ws.len() - 1], utxo_key(r)) is None);
        assert forall|m: int| j < m < p.len() implies utxo_write_for(#[trigger] p[m], utxo_key(r)) is None by {
            assert(p[m] == ws[m]);
        }
        lemma_last_utxo_write_is(p, j, r);
    }
}

proof fn lemma_last_quantity_is(ws: Seq<DbWriteView>, j: int, r: AmountRowView)
    requires
        0 <= j < ws.len(),
        ws[j] == DbWriteView::UpsertAmount(r),
        forall|m: int| j < m < ws.len() ==> amount_write_for(#[trigger] ws[m], amount_key(r)) is None,
    ensures
        last_quantity(ws, amount_key(r)) == Some(r.quantity),
    decreases ws.len(),
{
    if j < ws.len() - 1 {
        let p = ws.drop_last();
        assert(amount_write_for(ws[ws.len() - 1], amount_key(r)) is None);
        assert forall|m: int| j < m < p.len() implies amount_write_for(#[trigger] p[m], amount_key(r)) is None by {
            assert(p[m] == ws[m]);
        }
        lemma_last_quantity_is(p, j, r);
    }
}

// Writes whose rows never share a key.

/// No two of `rows` share a key of the `utxos` table.
pub open spec fn distinct_utxo_keys(rows: Seq<UtxoRowView>) -> bool {
    forall|a: int, b: int|
        0 <= a < rows.len() && 0 <= b < rows.len() && a != b ==> utxo_key(#[trigger] rows[a])
            != utxo_key(#[trigger] rows[b])
}

/// No two of `rows` share a key of the `utxo_amount` table.
pub open spec fn distinct_amount_keys(rows: Seq<AmountRowView>) -> bool {
    forall|a: int, b: int|
        0 <= a < rows.len() && 0 <= b < rows.len() && a != b ==> amount_key(#[trigger] rows[a])
            != amount_key(#[trigger] rows[b])
}

proof fn lemma_tx_rows_stored(ws: Seq<DbWriteView>, h: Seq<char>)
    ensures
        planned_tx_rows(ws).len() == 0 ==> first_tx_name(ws, h) is None,
        planned_tx_rows(ws).len() == 1 ==> first_tx_name(ws, h) == (if planned_tx_rows(ws)[0].hash == h {
            Some(planned_tx_rows(ws)[0].tx_name)
        } else {
            None::<Seq<char>>
        }),
    decreases ws.len(),
{
    if ws.len() > 0 {
        let p = ws.drop_last();
        lemma_tx_rows_stored(p, h);
        match ws.last() {
            DbWriteView::InsertTx(r) => {
                assert(planned_tx_rows(ws) == planned_tx_rows(p).push(r));
            },
            _ => {
                assert(planned_tx_rows(ws) == planned_tx_rows(p));
                assert(tx_write_for(ws.last(), h) is None);
            },
        }
    }
}

proof fn lemma_utxo_rows_stored(ws: Seq<DbWriteView>, k: (Seq<char>, i64))
    requires
        distinct_utxo_keys(planned_utxo_rows(ws)),
    ensures
        forall|j: int|
            0 <= j < planned_utxo_rows(ws).len() && utxo_key(#[trigger] planned_utxo_rows(ws)[j]) == k
                ==> utxo_after(None, ws, k) == Some(planned_utxo_rows(ws)[j]),
        (forall|j: int|
            0 <= j < planned_utxo_rows(ws).len() ==> utxo_key(#[trigger] planned_utxo_rows(ws)[j]) != k)
            ==> last_utxo_write(ws, k) is None,
    decreases ws.len(),
{
    if ws.len() > 0 {
        let p = ws.drop_last();
        let rp = planned_utxo_rows(p);
        let rw = planned_utxo_rows(ws);
        lemma_utxo_after(empty_store(), p, k);
        match ws.last() {
            DbWriteView::UpsertUtxo(r) => {
                assert(rw == rp.push(r));
                assert forall|a: int, b: int|
                    0 <= a < rp.len() && 0 <= b < rp.len() && a != b implies utxo_key(#[trigger] rp[a])
                    != utxo_key(#[trigger] rp[b]) by {
                    assert(rw[a] == rp[a] && rw[b] == rp[b]);
                }
                lemma_utxo_rows_stored(p, k);
                if utxo_key(r) == k {
                    assert(rw[rp.len() as int] == r);
                    assert forall|j: int| 0 <= j < rp.len() implies utxo_key(#[trigger] rp[j]) != k by {
                        assert(rw[j] == rp[j]);
                    }
                    assert forall|j: int| 0 <= j < rw.len() && utxo_key(#[trigger] rw[j]) == k implies j
                        == rp.len() by {
                        if j < rp.len() {
                            assert(rw[j] == rp[j]);
                        }
                    }
                } else {
                    assert(utxo_write_for(ws.last(), k) is None);
                    assert forall|j: int|
                        0 <= j < rw.len() && utxo_key(#[trigger] rw[j]) == k implies utxo_after(None, ws, k)
                        == Some(rw[j]) by {
                        assert(j < rp.len());
                        assert(rw[j] == rp[j]);
                    }
                    if forall|j: int| 0 <= j < rw.len() ==> utxo_key(#[trigger] rw[j]) != k {
                        assert forall|j: int| 0 <= j < rp.len() implies utxo_key(#[trigger] rp[j]) != k by {
                            assert(rw[j] == rp[j]);
                        }
                    }
                }
            },
            _ => {
                assert(rw == rp);
                assert(utxo_write_for(ws.last(), k) is None);
                lemma_utxo_rows_stored(p, k);
            },
        }
    }
}

proof fn lemma_amount_rows_stored(ws: Seq<DbWriteView>, k: (Seq<char>, i64, Seq<char>))
    requires
        distinct_amount_keys(planned_amount_rows(ws)),
    ensures
        forall|j: int|
            0 <= j < planned_amount_rows(ws).len() && amount_key(#[trigger] planned_amount_rows(ws)[j]) == k
                ==> last_quantity(ws, k) == Some(planned_amount_rows(ws)[j].quantity),
        (forall|j: int|
            0 <= j < planned_amount_rows(ws).len() ==> amount_key(#[trigger] planned_amount_rows(ws)[j]) != k)
            ==> last_quantity(ws, k) is None,
    decreases ws.len(),
{
    if ws.len() > 0 {
        let p = ws.drop_last();
        let rp = planned_amount_rows(p);
        let rw = planned_amount_rows(ws);
        match ws.last() {
            DbWriteView::UpsertAmount(r) => {
                assert(rw == rp.push(r));
                assert forall|a: int, b: int|
                    0 <= a < rp.len() && 0 <= b < rp.len() && a != b implies amount_key(#[trigger] rp[a])
                    != amount_key(#[trigger] rp[b]) by {
                    assert(rw[a] == rp[a] && rw[b] == rp[b]);
                }
                lemma_amount_rows_stored(p, k);
                if amount_key(r) == k {
                    assert(rw[rp.len() as int] == r);
                    assert forall|j: int| 0 <= j < rw.len() && amount_key(#[trigger] rw[j]) == k implies j
                        == rp.len() by {
                        if j < rp.len() {
                            assert(rw[rp.len() as int] == r);
                        }
                    }
                } else {
                    assert(amount_write_for(ws.last(), k) is None);
                    assert forall|j: int|
                        0 <= j < rw.len() && amount_key(#[trigger] rw[j]) == k implies last_quantity(ws, k)
                        == Some(rw[j].quantity) by {
                        assert(j < rp.len());
                        assert(rw[j] == rp[j]);
                    }
                    if forall|j: int| 0 <= j < rw.len() ==> amount_key(#[trigger] rw[j]) != k {
                        assert forall|j: int| 0 <= j < rp.len() implies amount_key(#[trigger] rp[j]) != k by {
                            assert(rw[j] == rp[j]);
                        }
                    }
                }
            },
            _ => {
                assert(rw == rp);
                assert(amount_write_for(ws.last(), k) is None);
                lemma_amount_rows_stored(p, k);
            },
        }
    }
}

/// Writes whose output rows, and whose amount rows, never share a key store
/// each row as it is written: on empty tables, the `utxos` table then holds
/// exactly the output rows written, each under its key, and the
/// `utxo_amount` table exactly the quantities written, each under its key.
pub proof fn law_distinct_rows_are_stored_as_written(ws: Seq<DbWriteView>)
    requires
        distinct_utxo_keys(planned_utxo_rows(ws)),
        distinct_amount_keys(planned_amount_rows(ws)),
    ensures
        ({
            let t = apply_writes(empty_store(), ws);
            let us = planned_utxo_rows(ws);
            let am = planned_amount_rows(ws);
            &&& forall|j: int|
                0 <= j < us.len() ==> t.utxos.dom().contains(utxo_key(#[trigger] us[j])) && t.utxos[utxo_key(
                    us[j],
                )] == us[j]
            &&& forall|k: (Seq<char>, i64)|
                #[trigger] t.utxos.dom().contains(k) ==> exists|j: int|
                    0 <= j < us.len() && utxo_key(#[trigger] us[j]) == k
            &&& forall|j: int|
                0 <= j < am.len() ==> t.amounts.dom().contains(amount_key(#[trigger] am[j]))
                    && t.amounts[amount_key(am[j])] == am[j].quantity
            &&& forall|k: (Seq<char>, i64, Seq<char>)|
                #[trigger] t.amounts.dom().contains(k) ==> exists|j: int|
                    0 <= j < am.len() && amount_key(#[trigger] am[j]) == k
        }),
{
    let e = empty_store();
    let t = apply_writes(e, ws);
    let us = planned_utxo_rows(ws);
    let am = planned_amount_rows(ws);
    assert forall|j: int| 0 <= j < us.len() implies t.utxos.dom().contains(utxo_key(#[trigger] us[j]))
        && t.utxos[utxo_key(us[j])] == us[j] by {
        lemma_utxo_after(e, ws, utxo_key(us[j]));
        lemma_utxo_rows_stored(ws, utxo_key(us[j]));
    }
    assert forall|k: (Seq<char>, i64)| #[trigger] t.utxos.dom().contains(k) implies exists|j: int|
        0 <= j < us.len() && utxo_key(#[trigger] us[j]) == k by {
        lemma_utxo_after(e, ws, k);
        lemma_utxo_rows_stored(ws, k);
    }
    assert forall|j: int| 0 <= j < am.len() implies t.amounts.dom().contains(amount_key(#[trigger] am[j]))
        && t.amounts[amount_key(am[j])] == am[j].quantity by {
        lemma_amount_after(e, ws, amount_key(am[j]));
        lemma_amount_rows_stored(ws, amount_key(am[j]));
    }
    assert forall|k: (Seq<char>, i64, Seq<char>)| #[trigger] t.amounts.dom().contains(k) implies exists|j: int|
        0 <= j < am.len() && amount_key(#[trigger] am[j]) == k by {
        lemma_amount_after(e, ws, k);
        lemma_amount_rows_stored(ws, k);
    }
}

// A transaction as the chain has it writes no key twice.

spec fn from_some_input(ins: Seq<BlockfrostInputView>, r: AmountRowView) -> bool {
    exists|m: int|
        0 <= m < ins.len() && r.tx_hash == (#[trigger] ins[m]).tx_hash && r.output_index
            == ins[m].output_index as i64
}

spec fn from_some_output(outs: Seq<BlockfrostOutputView>, r: AmountRowView) -> bool {
    exists|m: int| 0 <= m < outs.len() && r.output_index == (#[trigger] outs[m]).output_index as i64
}

proof fn lemma_concat_distinct_amounts(a: Seq<AmountRowView>, b: Seq<AmountRowView>)
    requires
        distinct_amount_keys(a),
        distinct_amount_keys(b),
        forall|i: int, j: int|
            0 <= i < a.len() && 0 <= j < b.len() ==> amount_key(#[trigger] a[i]) != amount_key(
                #[trigger] b[j],
            ),
    ensures
        distinct_amount_keys(a + b),
{
    let c = a + b;
    assert forall|x: int, y: int|
        0 <= x < c.len() && 0 <= y < c.len() && x != y implies amount_key(#[trigger] c[x]) != amount_key(
        #[trigger] c[y],
    ) by {
        if x < a.len() && y < a.len() {
            assert(c[x] == a[x] && c[y] == a[y]);
        } else if x >= a.len() && y >= a.len() {
            assert(c[x] == b[x - a.len()] && c[y] == b[y - a.len()]);
        } else if x < a.len() {
            assert(c[x] == a[x] && c[y] == b[y - a.len()]);
        } else {
            assert(c[y] == a[y] && c[x] == b[x - a.len()]);
        }
    }
}

proof fn lemma_block_distinct(th: Seq<char>, idx: i64, amounts: Seq<crate::blockfrost::BlockfrostAmountView>)
    requires
        units_distinct(amounts),
    ensures
        distinct_amount_keys(amount_block(th, idx, amounts)),
        forall|j: int|
            0 <= j < amount_block(th, idx, amounts).len() ==> (#[trigger] amount_block(th, idx, amounts)[j]).tx_hash
                == th && amount_block(th, idx, amounts)[j].output_index == idx,
{
    let b = amount_block(th, idx, amounts);
    assert forall|x: int, y: int|
        0 <= x < b.len() && 0 <= y < b.len() && x != y implies amount_key(#[trigger] b[x]) != amount_key(
        #[trigger] b[y],
    ) by {
        assert(amounts[x].unit != amounts[y].unit);
    }
}

proof fn lemma_input_blocks_distinct(ins: Seq<BlockfrostInputView>)
    requires
        forall|k: int| 0 <= k < ins.len() ==> units_distinct(#[trigger] ins[k].amount),
        forall|a: int, b: int|
            0 <= a < ins.len() && 0 <= b < ins.len() && a != b ==> !(#[trigger] ins[a].tx_hash
                == #[trigger] ins[b].tx_hash && ins[a].output_index == ins[b].output_index),
    ensures
        distinct_amount_keys(input_blocks(ins)),
        forall|j: int|
            0 <= j < input_blocks(ins).len() ==> from_some_input(ins, #[trigger] input_blocks(ins)[j]),
    decreases ins.len(),
{
    if ins.len() > 0 {
        let p = ins.drop_last();
        let n = ins.len() - 1;
        let last = ins[n];
        assert forall|k: int| 0 <= k < p.len() implies units_distinct(#[trigger] p[k].amount) by {
            assert(p[k] == ins[k]);
        }
        assert forall|a: int, b: int|
            0 <= a < p.len() && 0 <= b < p.len() && a != b implies !(#[trigger] p[a].tx_hash
            == #[trigger] p[b].tx_hash && p[a].output_index == p[b].output_index) by {
            assert(p[a] == ins[a] && p[b] == ins[b]);
        }
        lemma_input_blocks_distinct(p);
        let a = input_blocks(p);
        let b = amount_block(last.tx_hash, last.output_index as i64, last.amount);
        assert(units_distinct(ins[n].amount));
        lemma_block_distinct(last.tx_hash, last.output_index as i64, last.amount);
        assert forall|i: int, j: int| 0 <= i < a.len() && 0 <= j < b.len() implies amount_key(#[trigger] a[i])
            != amount_key(#[trigger] b[j]) by {
            assert(from_some_input(p, a[i]));
            let m = choose|m: int|
                0 <= m < p.len() && a[i].tx_hash == (#[trigger] p[m]).tx_hash && a[i].output_index
                    == p[m].output_index as i64;
            assert(p[m] == ins[m]);
            assert(!(ins[m].tx_hash == ins[n].tx_hash && ins[m].output_index == ins[n].output_index));
        }
        lemma_concat_distinct_amounts(a, b);
        assert(input_blocks(ins) == a + b);
        assert forall|j: int| 0 <= j < (a + b).len() implies from_some_input(ins, #[trigger] (a + b)[j]) by {
            if j < a.len() {
                assert((a + b)[j] == a[j]);
                assert(from_some_input(p, a[j]));
                let m = choose|m: int|
                    0 <= m < p.len() && a[j].tx_hash == (#[trigger] p[m]).tx_hash && a[j].output_index
                        == p[m].output_index as i64;
                assert(p[m] == ins[m]);
            } else {
                assert((a + b)[j] == b[j - a.len()]);
                assert(ins[n] == last);
            }
        }
    }
}

proof fn lemma_output_blocks_distinct(h: Seq<char>, outs: Seq<BlockfrostOutputView>)
    requires
        forall|k: int| 0 <= k < outs.len() ==> units_distinct(#[trigger] outs[k].amount),
        forall|a: int, b: int|
            0 <= a < outs.len() && 0 <= b < outs.len() && a != b ==> (#[trigger] outs[a]).output_index
                != (#[trigger] outs[b]).output_index,
    ensures
        distinct_amount_keys(output_blocks(h, outs)),
        forall|j: int|
            0 <= j < output_blocks(h, outs).len() ==> (#[trigger] output_blocks(h, outs)[j]).tx_hash == h
                && from_some_output(outs, output_blocks(h, outs)[j]),
    decreases outs.len(),
{
    if outs.len() > 0 {
        let p = outs.drop_last();
        let n = outs.len() - 1;
        let last = outs[n];
        assert forall|k: int| 0 <= k < p.len() implies units_distinct(#[trigger] p[k].amount) by {
            assert(p[k] == outs[k]);
        }
        assert forall|a: int, b: int|
            0 <= a < p.len() && 0 <= b < p.len() && a != b implies (#[trigger] p[a]).output_index
            != (#[trigger] p[b]).output_index by {
            assert(p[a] == outs[a] && p[b] == outs[b]);
        }
        lemma_output_blocks_distinct(h, p);
        let a = output_blocks(h, p);
        let b = amount_block(h, last.output_index as i64, last.amount);
        assert(units_distinct(outs[n].amount));
        lemma_block_distinct(h, last.output_index as i64, last.amount);
        assert forall|i: int, j: int| 0 <= i < a.len() && 0 <= j < b.len() implies amount_key(#[trigger] a[i])
            != amount_key(#[trigger] b[j]) by {
            assert(from_some_output(p, a[i]));
            let m = choose|m: int|
                0 <= m < p.len() && a[i].output_index == (#[trigger] p[m]).output_index as i64;
            assert(p[m] == outs[m]);
            assert(outs[m].output_index != outs[n].output_index);
        }
        lemma_concat_distinct_amounts(a, b);
        assert(output_blocks(h, outs) == a + b);
        assert forall|j: int| 0 <= j < (a + b).len() implies (#[trigger] (a + b)[j]).tx_hash == h
            && from_some_output(outs, (a + b)[j]) by {
            if j < a.len() {
                assert((a + b)[j] == a[j]);
                assert(from_some_output(p, a[j]));
                let m = choose|m: int|
                    0 <= m < p.len() && a[j].output_index == (#[trigger] p[m]).output_index as i64;
                assert(p[m] == outs[m]);
            } else {
                assert((a + b)[j] == b[j - a.len()]);
                assert(outs[n] == last);
            }
        }
    }
}

/// Storing a transaction as the chain has it (see [`well_formed_tx`]) writes
/// no key twice: on empty tables it leaves one transaction row, under the
/// transaction's hash and with the name it matched, and its output rows and
/// amount rows have pairwise distinct keys, so that each is stored as it is
/// written (see [`law_distinct_rows_are_stored_as_written`]). The rows it
/// writes are then the rows that assemble back into the transaction.
pub proof fn law_well_formed_tx_writes_no_key_twice(tx_name: Seq<char>, tx: BlockfrostResponseView)
    requires
        well_formed_tx(tx),
    ensures
        apply_writes(empty_store(), insert_plan(tx_name, tx)).txs == map![tx.hash => tx_name],
        distinct_utxo_keys(planned_utxo_rows(insert_plan(tx_name, tx))),
        distinct_amount_keys(planned_amount_rows(insert_plan(tx_name, tx))),
{
    let h = tx.hash;
    let plan = insert_plan(tx_name, tx);
    lemma_planned_insert(tx_name, tx);
    let t = apply_writes(empty_store(), plan);
    assert forall|x: Seq<char>| stored_tx(t, x) == (if x == h {
        Some(tx_name)
    } else {
        None::<Seq<char>>
    }) by {
        lemma_tx_after(empty_store(), plan, x);
        lemma_tx_rows_stored(plan, x);
        assert(planned_tx_rows(plan)[0] == TxRowView { hash: h, tx_name });
    }
    assert(t.txs =~= map![h => tx_name]) by {
        assert forall|x: Seq<char>| t.txs.dom().contains(x) == (x == h) by {
            assert(stored_tx(t, x) == stored_tx(t, x));
        }
        assert(stored_tx(t, h) == Some(tx_name));
    }
    // Output rows: spent outputs are other transactions', created ones are this one's.
    let ins_rows = tx.inputs.map_values(|i: BlockfrostInputView| input_row(h, i));
    let out_rows = tx.outputs.map_values(|o: BlockfrostOutputView| output_row(h, o));
    let u = ins_rows + out_rows;
    assert(planned_utxo_rows(plan) == u);
    assert forall|x: int, y: int|
        0 <= x < u.len() && 0 <= y < u.len() && x != y implies utxo_key(#[trigger] u[x]) != utxo_key(
        #[trigger] u[y],
    ) by {
        let n = ins_rows.len();
        if x < n && y < n {
            assert(u[x] == ins_rows[x] && u[y] == ins_rows[y]);
            assert(!(tx.inputs[x].tx_hash == tx.inputs[y].tx_hash && tx.inputs[x].output_index
                == tx.inputs[y].output_index));
        } else if x >= n && y >= n {
            assert(u[x] == out_rows[x - n] && u[y] == out_rows[y - n]);
            assert(tx.outputs[x - n].output_index != tx.outputs[y - n].output_index);
        } else if x < n {
            assert(u[x] == ins_rows[x] && u[y] == out_rows[y - n]);
            assert(tx.inputs[x].tx_hash != h);
        } else {
            assert(u[y] == ins_rows[y] && u[x] == out_rows[x - n]);
            assert(tx.inputs[y].tx_hash != h);
        }
    }
    // Amount rows.
    lemma_input_blocks_distinct(tx.inputs);
    lemma_output_blocks_distinct(h, tx.outputs);
    let a = input_blocks(tx.inputs);
    let b = output_blocks(h, tx.outputs);
    assert forall|i: int, j: int| 0 <= i < a.len() && 0 <= j < b.len() implies amount_key(#[trigger] a[i])
        != amount_key(#[trigger] b[j]) by {
        assert(from_some_input(tx.inputs, a[i]));
        let m = choose|m: int|
            0 <= m < tx.inputs.len() && a[i].tx_hash == (#[trigger] tx.inputs[m]).tx_hash
                && a[i].output_index == tx.inputs[m].output_index as i64;
        assert(tx.inputs[m].tx_hash != h);
    }
    lemma_concat_distinct_amounts(a, b);
    assert(planned_amount_rows(plan) == a + b);
}

} // verus!
