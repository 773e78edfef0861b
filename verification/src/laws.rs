//! The engine's laws: properties that hold of the reconciliation and
//! rollback operations for every input, proved once and for all against the
//! same model functions the executable code is specified by.

use vstd::prelude::*;
use crate::engine::{done_event, run_m, step_model, EngineModel, Event};
use crate::model::{
    add_all_m, consumed_m, consumed_upto, created_m, created_upto, has_record,
    has_utxo, keep_records_except, keep_utxos_except, lemma_lookup_has, lookup_utxo, ops_of,
    remove_all_m, remove_utxo_m, restore_all_m, restore_rec_m, spec_apply_tx, spec_rollback,
    store_rec_m, TxRecordModel, WalletModel,
};
use crate::types::{OutPointModel, TxData, UtxoModel};

verus! {

/// A transaction that does not spend its own outputs, which no transaction
/// whose id is a digest of its content can do.
pub open spec fn no_self_spend(tx: TxData) -> bool {
    forall|i: int|
        0 <= i < tx.inputs@.len() ==> (#[trigger] tx.inputs@[i].previous_output@).txid != tx.txid@
}

proof fn lemma_has_push(s: Seq<UtxoModel>, x: UtxoModel, op: OutPointModel)
    ensures
        has_utxo(s.push(x), op) <==> (has_utxo(s, op) || x.outpoint == op),
{
    if has_utxo(s.push(x), op) {
        let i = choose|i: int| 0 <= i < s.push(x).len() && s.push(x)[i].outpoint == op;
        if i < s.len() {
            assert(s[i].outpoint == op);
        }
    }
    if has_utxo(s, op) {
        let i = choose|i: int| 0 <= i < s.len() && s[i].outpoint == op;
        assert(s.push(x)[i].outpoint == op);
    }
    if x.outpoint == op {
        assert(s.push(x)[s.len() as int].outpoint == op);
    }
}

proof fn lemma_op_contains_push(s: Seq<OutPointModel>, x: OutPointModel, y: OutPointModel)
    ensures
        s.push(x).contains(y) <==> (s.contains(y) || x == y),
{
    if s.push(x).contains(y) {
        let i = choose|i: int| 0 <= i < s.push(x).len() && s.push(x)[i] == y;
        if i < s.len() {
            assert(s[i] == y);
        }
    }
    if s.contains(y) {
        let i = choose|i: int| 0 <= i < s.len() && s[i] == y;
        assert(s.push(x)[i] == y);
    }
    if x == y {
        assert(s.push(x)[s.len() as int] == y);
    }
}

proof fn lemma_ops_push(s: Seq<UtxoModel>, x: UtxoModel)
    ensures
        ops_of(s.push(x)) == ops_of(s).push(x.outpoint),
{
    assert(ops_of(s.push(x)) =~= ops_of(s).push(x.outpoint));
}

proof fn lemma_contains_push(s: Seq<UtxoModel>, x: UtxoModel, u: UtxoModel)
    ensures
        s.push(x).contains(u) <==> (s.contains(u) || u == x),
{
    if s.push(x).contains(u) {
        let i = choose|i: int| 0 <= i < s.push(x).len() && s.push(x)[i] == u;
        if i < s.len() {
            assert(s[i] == u);
        }
    }
    if s.contains(u) {
        let i = choose|i: int| 0 <= i < s.len() && s[i] == u;
        assert(s.push(x)[i] == u);
    }
    if u == x {
        assert(s.push(x)[s.len() as int] == u);
    }
}

proof fn lemma_add_all_has(us: Seq<UtxoModel>, vs: Seq<UtxoModel>, op: OutPointModel)
    ensures
        has_utxo(add_all_m(us, vs), op) <==> (has_utxo(us, op) || exists|k: int|
            0 <= k < vs.len() && (#[trigger] vs[k]).outpoint == op),
    decreases vs.len(),
{
    if vs.len() > 0 {
        lemma_add_all_has(us, vs.drop_last(), op);
        let prev = add_all_m(us, vs.drop_last());
        if !has_utxo(prev, vs.last().outpoint) {
            lemma_has_push(prev, vs.last(), op);
        }
        if has_utxo(add_all_m(us, vs), op) {
            if !has_utxo(us, op) {
                if vs.last().outpoint == op {
                    assert(vs[vs.len() - 1].outpoint == op);
                } else {
                    let k = choose|k: int|
                        0 <= k < vs.drop_last().len() && (#[trigger] vs.drop_last()[k]).outpoint
                            == op;
                    assert(vs[k].outpoint == op);
                }
            }
        }
        if exists|k: int| 0 <= k < vs.len() && (#[trigger] vs[k]).outpoint == op {
            let k = choose|k: int| 0 <= k < vs.len() && (#[trigger] vs[k]).outpoint == op;
            if k < vs.len() - 1 {
                assert(vs.drop_last()[k].outpoint == op);
            }
        }
    }
}

proof fn lemma_remove_has(us: Seq<UtxoModel>, op2: OutPointModel, op: OutPointModel)
    ensures
        has_utxo(remove_utxo_m(us, op2), op) <==> (has_utxo(us, op) && op != op2),
    decreases us.len(),
{
    if us.len() > 0 {
        lemma_remove_has(us.drop_last(), op2, op);
        let prefix = remove_utxo_m(us.drop_last(), op2);
        if us.last().outpoint != op2 {
            lemma_has_push(prefix, us.last(), op);
        }
        lemma_has_push(us.drop_last(), us.last(), op);
        assert(us.drop_last().push(us.last()) =~= us);
    }
}

proof fn lemma_remove_all_has(us: Seq<UtxoModel>, ops: Seq<OutPointModel>, op: OutPointModel)
    ensures
        has_utxo(remove_all_m(us, ops), op) <==> (has_utxo(us, op) && !ops.contains(op)),
    decreases ops.len(),
{
    if ops.len() > 0 {
        lemma_remove_all_has(us, ops.drop_last(), op);
        lemma_remove_has(remove_all_m(us, ops.drop_last()), ops.last(), op);
        if ops.drop_last().contains(op) {
            let k = choose|k: int| 0 <= k < ops.drop_last().len() && ops.drop_last()[k] == op;
            assert(ops[k] == op);
        }
        if ops.contains(op) {
            let k = choose|k: int| 0 <= k < ops.len() && ops[k] == op;
            if k < ops.len() - 1 {
                assert(ops.drop_last()[k] == op);
            }
        }
    }
}

proof fn lemma_add_all_noop(us: Seq<UtxoModel>, vs: Seq<UtxoModel>)
    requires
        forall|k: int| 0 <= k < vs.len() ==> has_utxo(us, (#[trigger] vs[k]).outpoint),
    ensures
        add_all_m(us, vs) == us,
    decreases vs.len(),
{
    if vs.len() > 0 {
        assert(forall|k: int|
            0 <= k < vs.drop_last().len() ==> has_utxo(
                us,
                (#[trigger] vs.drop_last()[k]).outpoint,
            )) by {
            assert(forall|k: int|
                0 <= k < vs.drop_last().len() ==> #[trigger] vs.drop_last()[k] == vs[k]);
        };
        lemma_add_all_noop(us, vs.drop_last());
        assert(vs[vs.len() - 1] == vs.last());
    }
}

/// Every output a transaction creates carries that transaction's id.
proof fn lemma_created_txid(watched: Seq<Seq<u8>>, tx: TxData, height: u32, n: int)
    ensures
        forall|k: int|
            0 <= k < created_upto(watched, tx, height, n).len() ==> (#[trigger] created_upto(
                watched,
                tx,
                height,
                n,
            )[k]).outpoint.txid == tx.txid@,
    decreases n,
{
    if n > 0 {
        lemma_created_txid(watched, tx, height, n - 1);
        let cur = created_upto(watched, tx, height, n);
        let prefix = created_upto(watched, tx, height, n - 1);
        assert forall|k: int| 0 <= k < cur.len() implies (#[trigger] cur[k]).outpoint.txid
            == tx.txid@ by {
            if k < prefix.len() {
                assert(cur[k] == prefix[k]);
            }
        };
    }
}

/// Every outpoint among a transaction's consumed outputs is one of the
/// transaction's own input outpoints.
proof fn lemma_consumed_ops(us: Seq<UtxoModel>, tx: TxData, n: int)
    requires
        n <= tx.inputs@.len(),
    ensures
        forall|k: int|
            0 <= k < consumed_upto(us, tx, n).len() ==> exists|i: int|
                0 <= i < n && (#[trigger] consumed_upto(us, tx, n)[k]).outpoint == tx.inputs@[
                    i
                ].previous_output@,
        forall|i: int|
            0 <= i < n && lookup_utxo(us, (#[trigger] tx.inputs@[i]).previous_output@) is Some
                ==> ops_of(consumed_upto(us, tx, n)).contains(tx.inputs@[i].previous_output@),
    decreases n,
{
    if n > 0 {
        lemma_consumed_ops(us, tx, n - 1);
        let prefix = consumed_upto(us, tx, n - 1);
        let op = tx.inputs@[n - 1].previous_output@;
        lemma_lookup_has(us, op);
        match lookup_utxo(us, op) {
            Some(u) => {
                let cur = consumed_upto(us, tx, n);
                assert(cur == prefix.push(u));
                assert(u.outpoint == op);
                lemma_ops_push(prefix, u);
                assert forall|k: int| 0 <= k < cur.len() implies exists|i: int|
                    0 <= i < n && (#[trigger] cur[k]).outpoint == tx.inputs@[
                        i
                    ].previous_output@ by {
                    if k < prefix.len() {
                        assert(cur[k] == prefix[k]);
                        let i = choose|i: int|
                            0 <= i < n - 1 && (prefix[k]).outpoint == tx.inputs@[
                                i
                            ].previous_output@;
                        assert(0 <= i < n && cur[k].outpoint == tx.inputs@[i].previous_output@);
                    } else {
                        assert(cur[k] == u);
                        assert(cur[k].outpoint == tx.inputs@[n - 1].previous_output@);
                    }
                };
                assert forall|i: int|
                    0 <= i < n && lookup_utxo(
                        us,
                        (#[trigger] tx.inputs@[i]).previous_output@,
                    ) is Some implies ops_of(cur).contains(
                    tx.inputs@[i].previous_output@,
                ) by {
                    let inop = tx.inputs@[i].previous_output@;
                    if i < n - 1 {
                        assert(ops_of(prefix).contains(inop));
                    }
                    lemma_op_contains_push(ops_of(prefix), u.outpoint, inop);
                };
            },
            None => {
                assert(consumed_upto(us, tx, n) == prefix);
            },
        }
    }
}

/// A transaction none of whose inputs finds a stored output consumes
/// nothing.
proof fn lemma_consumed_empty(us: Seq<UtxoModel>, tx: TxData, n: int)
    requires
        n <= tx.inputs@.len(),
        forall|i: int|
            0 <= i < n ==> lookup_utxo(us, (#[trigger] tx.inputs@[i]).previous_output@) is None,
    ensures
        consumed_upto(us, tx, n).len() == 0,
    decreases n,
{
    if n > 0 {
        lemma_consumed_empty(us, tx, n - 1);
    }
}

/// Idempotent reconciliation: applying the same matched transaction twice
/// leaves the wallet exactly as applying it once does. Adding an output that
/// is already present and removing one that is absent are no-ops, so the
/// second application changes nothing.
pub proof fn lemma_reconcile_idempotent(w: WalletModel, tx: TxData, height: u32)
    requires
        no_self_spend(tx),
    ensures
        spec_apply_tx(spec_apply_tx(w, tx, height), tx, height) == spec_apply_tx(w, tx, height),
{
    let created = created_m(w.watched, tx, height);
    let consumed = consumed_m(w.utxos, tx);
    let w1 = spec_apply_tx(w, tx, height);
    if created.len() == 0 && consumed.len() == 0 {
        // the first application was a no-op, so the second is the same
        // application again
    } else {
        assert(w1.watched == w.watched);
        let u1 = remove_all_m(add_all_m(w.utxos, created), ops_of(consumed));
        assert(w1.utxos == u1);
        lemma_created_txid(w.watched, tx, height, tx.outputs@.len() as int);
        lemma_consumed_ops(w.utxos, tx, tx.inputs@.len() as int);
        // no input outpoint of the transaction survives the first application
        assert(forall|i: int|
            0 <= i < tx.inputs@.len() ==> lookup_utxo(
                u1,
                (#[trigger] tx.inputs@[i]).previous_output@,
            ) is None) by {
            assert forall|i: int| 0 <= i < tx.inputs@.len() implies lookup_utxo(
                u1,
                (#[trigger] tx.inputs@[i]).previous_output@,
            ) is None by {
                let op = tx.inputs@[i].previous_output@;
                lemma_lookup_has(w.utxos, op);
                lemma_lookup_has(u1, op);
                lemma_add_all_has(w.utxos, created, op);
                lemma_remove_all_has(add_all_m(w.utxos, created), ops_of(consumed), op);
                if lookup_utxo(w.utxos, op) is Some {
                    assert(ops_of(consumed).contains(op));
                } else {
                    // absent before, and nothing the transaction creates has
                    // an input's outpoint, because the ids differ
                    assert(!has_utxo(w.utxos, op));
                    if exists|k: int| 0 <= k < created.len() && (#[trigger] created[k]).outpoint
                        == op {
                        let k = choose|k: int|
                            0 <= k < created.len() && (#[trigger] created[k]).outpoint == op;
                        assert(created[k].outpoint.txid == tx.txid@);
                        assert(false);
                    }
                }
            };
        };
        lemma_consumed_empty(u1, tx, tx.inputs@.len() as int);
        let created2 = created_m(w1.watched, tx, height);
        let consumed2 = consumed_m(w1.utxos, tx);
        assert(created2 == created);
        assert(consumed2.len() == 0);
        if created.len() == 0 {
            // the second application is the no-op branch
        } else {
            // every created output is already present, so the adds change
            // nothing, there is nothing to remove, and the record is already
            // stored
            assert(forall|k: int|
                0 <= k < created.len() ==> has_utxo(u1, (#[trigger] created[k]).outpoint)) by {
                assert forall|k: int| 0 <= k < created.len() implies has_utxo(
                    u1,
                    (#[trigger] created[k]).outpoint,
                ) by {
                    let op = created[k].outpoint;
                    assert(op.txid == tx.txid@);
                    lemma_add_all_has(w.utxos, created, op);
                    lemma_remove_all_has(add_all_m(w.utxos, created), ops_of(consumed), op);
                    if ops_of(consumed).contains(op) {
                        let j = choose|j: int|
                            0 <= j < ops_of(consumed).len() && ops_of(consumed)[j] == op;
                        assert((#[trigger] consumed[j]).outpoint == op);
                        let i = choose|i: int|
                            0 <= i < tx.inputs@.len() && consumed[j].outpoint == tx.inputs@[
                                i
                            ].previous_output@;
                        assert(tx.inputs@[i].previous_output@.txid != tx.txid@);
                        assert(false);
                    }
                };
            };
            lemma_add_all_noop(u1, created);
            assert(ops_of(consumed2) =~= Seq::<OutPointModel>::empty());
            let rec = TxRecordModel { txid: tx.txid@, height, created, consumed };
            assert(has_record(store_rec_m(w.records, rec), tx.txid@)) by {
                if !has_record(w.records, rec.txid) {
                    let rs = w.records.push(rec);
                    assert(rs[rs.len() - 1].txid == tx.txid@);
                }
            };
            assert(spec_apply_tx(w1, tx, height) =~= w1);
        }
    }
}

/// A block whose transactions spend nothing created inside the block, the
/// shape every confirmed block of spends of older outputs has.
pub open spec fn block_isolated(txs: Seq<TxData>) -> bool {
    forall|i: int, j: int, k: int|
        0 <= i < txs.len() && 0 <= j < txs.len() && 0 <= k < txs[i].inputs@.len() ==> (
        #[trigger] txs[i].inputs@[k]).previous_output@.txid != (#[trigger] txs[j]).txid@
}

proof fn lemma_apply_watched(w: WalletModel, tx: TxData, height: u32)
    ensures
        spec_apply_tx(w, tx, height).watched == w.watched,
        forall|x: Seq<u8>|
            has_record(w.records, x) ==> has_record(#[trigger] spec_apply_tx(w, tx, height).records, x),
{
    assert forall|x: Seq<u8>| has_record(w.records, x) implies has_record(
        spec_apply_tx(w, tx, height).records,
        x,
    ) by {
        let i = choose|i: int| 0 <= i < w.records.len() && w.records[i].txid == x;
        let rs = spec_apply_tx(w, tx, height).records;
        assert(rs[i].txid == x);
    };
}

proof fn lemma_apply_txs_watched(w: WalletModel, txs: Seq<TxData>, height: u32)
    ensures
        crate::model::apply_txs_m(w, txs, height).watched == w.watched,
        forall|x: Seq<u8>|
            has_record(w.records, x) ==> has_record(
                #[trigger] crate::model::apply_txs_m(w, txs, height).records,
                x,
            ),
    decreases txs.len(),
{
    if txs.len() > 0 {
        lemma_apply_txs_watched(w, txs.drop_last(), height);
        lemma_apply_watched(crate::model::apply_txs_m(w, txs.drop_last(), height), txs.last(), height);
    }
}

/// Which outpoints one application leaves present: those already present or
/// created by the transaction, minus those it consumed.
proof fn lemma_apply_has(w: WalletModel, tx: TxData, height: u32, op: OutPointModel)
    ensures
        has_utxo(spec_apply_tx(w, tx, height).utxos, op) <==> ((has_utxo(w.utxos, op) || exists|
            k: int,
        |
            0 <= k < created_m(w.watched, tx, height).len() && (#[trigger] created_m(
                w.watched,
                tx,
                height,
            )[k]).outpoint == op) && !ops_of(consumed_m(w.utxos, tx)).contains(op)),
{
    let created = created_m(w.watched, tx, height);
    let consumed = consumed_m(w.utxos, tx);
    if created.len() == 0 && consumed.len() == 0 {
        if ops_of(consumed).contains(op) {
            let j = choose|j: int| 0 <= j < ops_of(consumed).len() && ops_of(consumed)[j] == op;
            assert(false);
        }
    } else {
        lemma_add_all_has(w.utxos, created, op);
        lemma_remove_all_has(add_all_m(w.utxos, created), ops_of(consumed), op);
    }
}

proof fn lemma_apply_txs_preserves_has(w: WalletModel, txs: Seq<TxData>, height: u32, op: OutPointModel)
    requires
        has_utxo(w.utxos, op),
        forall|i: int, k: int|
            0 <= i < txs.len() && 0 <= k < txs[i].inputs@.len() ==> (
            #[trigger] txs[i].inputs@[k]).previous_output@.txid != op.txid,
    ensures
        has_utxo(crate::model::apply_txs_m(w, txs, height).utxos, op),
    decreases txs.len(),
{
    if txs.len() > 0 {
        let dl = txs.drop_last();
        assert(forall|i: int| 0 <= i < dl.len() ==> #[trigger] dl[i] == txs[i]);
        lemma_apply_txs_preserves_has(w, dl, height, op);
        let mid = crate::model::apply_txs_m(w, dl, height);
        let t = txs.last();
        assert(t == txs[txs.len() - 1]);
        lemma_apply_has(mid, t, height, op);
        if ops_of(consumed_m(mid.utxos, t)).contains(op) {
            let j = choose|j: int|
                0 <= j < ops_of(consumed_m(mid.utxos, t)).len() && ops_of(
                    consumed_m(mid.utxos, t),
                )[j] == op;
            assert((consumed_m(mid.utxos, t)[j]).outpoint == op);
            lemma_consumed_ops(mid.utxos, t, t.inputs@.len() as int);
            let i = choose|i: int|
                0 <= i < t.inputs@.len() && (consumed_m(mid.utxos, t)[j]).outpoint == t.inputs@[
                    i
                ].previous_output@;
            assert((#[trigger] txs[txs.len() - 1].inputs@[i]).previous_output@.txid == op.txid);
            assert(false);
        }
    }
}

proof fn lemma_apply_txs_preserves_absent(
    w: WalletModel,
    txs: Seq<TxData>,
    height: u32,
    op: OutPointModel,
)
    requires
        !has_utxo(w.utxos, op),
        forall|i: int| 0 <= i < txs.len() ==> op.txid != (#[trigger] txs[i]).txid@,
    ensures
        !has_utxo(crate::model::apply_txs_m(w, txs, height).utxos, op),
    decreases txs.len(),
{
    if txs.len() > 0 {
        let dl = txs.drop_last();
        assert(forall|i: int| 0 <= i < dl.len() ==> #[trigger] dl[i] == txs[i]);
        lemma_apply_txs_preserves_absent(w, dl, height, op);
        let mid = crate::model::apply_txs_m(w, dl, height);
        let t = txs.last();
        assert(t == txs[txs.len() - 1]);
        lemma_apply_has(mid, t, height, op);
        lemma_created_txid(mid.watched, t, height, t.outputs@.len() as int);
        if exists|k: int|
            0 <= k < created_m(mid.watched, t, height).len() && (#[trigger] created_m(
                mid.watched,
                t,
                height,
            )[k]).outpoint == op {
            let k = choose|k: int|
                0 <= k < created_m(mid.watched, t, height).len() && (#[trigger] created_m(
                    mid.watched,
                    t,
                    height,
                )[k]).outpoint == op;
            assert(false);
        }
    }
}

/// Applying a block is applying a prefix and then the rest.
proof fn lemma_apply_txs_split(w: WalletModel, txs: Seq<TxData>, height: u32, m: int)
    requires
        0 <= m <= txs.len(),
    ensures
        crate::model::apply_txs_m(w, txs, height) == crate::model::apply_txs_m(
            crate::model::apply_txs_m(w, txs.take(m), height),
            txs.skip(m),
            height,
        ),
    decreases txs.len(),
{
    if m == txs.len() {
        assert(txs.take(m) =~= txs);
        assert(txs.skip(m) =~= Seq::<TxData>::empty());
    } else {
        let dl = txs.drop_last();
        lemma_apply_txs_split(w, dl, height, m);
        assert(dl.take(m) =~= txs.take(m));
        let s = crate::model::apply_txs_m(w, txs.take(m), height);
        assert(txs.skip(m).drop_last() =~= dl.skip(m));
        assert(txs.skip(m).last() == txs.last());
        assert(txs.skip(m).len() > 0);
    }
}

/// One application that finds nothing to do: its inputs spend nothing that
/// is present, and what it would create and record is already there.
proof fn lemma_apply_noop(u: WalletModel, tx: TxData, height: u32)
    requires
        forall|k: int|
            0 <= k < tx.inputs@.len() ==> !has_utxo(
                u.utxos,
                (#[trigger] tx.inputs@[k]).previous_output@,
            ),
        created_m(u.watched, tx, height).len() > 0 ==> has_record(u.records, tx.txid@) && (forall|
            k: int,
        |
            0 <= k < created_m(u.watched, tx, height).len() ==> has_utxo(
                u.utxos,
                (#[trigger] created_m(u.watched, tx, height)[k]).outpoint,
            )),
    ensures
        spec_apply_tx(u, tx, height) == u,
{
    let created = created_m(u.watched, tx, height);
    let consumed = consumed_m(u.utxos, tx);
    assert forall|k: int| 0 <= k < tx.inputs@.len() implies lookup_utxo(
        u.utxos,
        (#[trigger] tx.inputs@[k]).previous_output@,
    ) is None by {
        lemma_lookup_has(u.utxos, tx.inputs@[k].previous_output@);
    };
    lemma_consumed_empty(u.utxos, tx, tx.inputs@.len() as int);
    if created.len() > 0 {
        lemma_add_all_noop(u.utxos, created);
        assert(ops_of(consumed) =~= Seq::<OutPointModel>::empty());
        assert(spec_apply_tx(u, tx, height) =~= u);
    }
}

proof fn lemma_apply_txs_noop(u: WalletModel, txs: Seq<TxData>, height: u32)
    requires
        forall|i: int, k: int|
            0 <= i < txs.len() && 0 <= k < txs[i].inputs@.len() ==> !has_utxo(
                u.utxos,
                (#[trigger] txs[i].inputs@[k]).previous_output@,
            ),
        forall|i: int|
            0 <= i < txs.len() && created_m(u.watched, #[trigger] txs[i], height).len() > 0
                ==> has_record(u.records, txs[i].txid@) && (forall|k: int|
                0 <= k < created_m(u.watched, txs[i], height).len() ==> has_utxo(
                    u.utxos,
                    (#[trigger] created_m(u.watched, txs[i], height)[k]).outpoint,
                )),
    ensures
        crate::model::apply_txs_m(u, txs, height) == u,
    decreases txs.len(),
{
    if txs.len() > 0 {
        let dl = txs.drop_last();
        assert(forall|i: int| 0 <= i < dl.len() ==> #[trigger] dl[i] == txs[i]);
        lemma_apply_txs_noop(u, dl, height);
        assert(txs.last() == txs[txs.len() - 1]);
        lemma_apply_noop(u, txs.last(), height);
    }
}

/// Idempotent reconciliation for a whole matched block: re-dispatching the
/// same matched block leaves the wallet exactly as the first dispatch did,
/// for any block that spends only outputs created before it.
pub proof fn lemma_block_reconcile_idempotent(w: WalletModel, txs: Seq<TxData>, height: u32)
    requires
        block_isolated(txs),
    ensures
        crate::model::apply_txs_m(crate::model::apply_txs_m(w, txs, height), txs, height)
            == crate::model::apply_txs_m(w, txs, height),
{
    let u = crate::model::apply_txs_m(w, txs, height);
    lemma_apply_txs_watched(w, txs, height);
    // after the first dispatch, no transaction of the block finds anything
    // left to spend
    assert forall|i: int, k: int|
        0 <= i < txs.len() && 0 <= k < txs[i].inputs@.len() implies !has_utxo(
        u.utxos,
        (#[trigger] txs[i].inputs@[k]).previous_output@,
    ) by {
        let t = txs[i];
        let op = t.inputs@[k].previous_output@;
        lemma_apply_txs_split(w, txs, height, i + 1);
        let mid0 = crate::model::apply_txs_m(w, txs.take(i as int), height);
        let mid1 = crate::model::apply_txs_m(w, txs.take(i + 1), height);
        assert(txs.take(i + 1).drop_last() =~= txs.take(i as int));
        assert(txs.take(i + 1).last() == t);
        assert(mid1 == spec_apply_tx(mid0, t, height));
        lemma_apply_txs_watched(w, txs.take(i as int), height);
        lemma_apply_has(mid0, t, height, op);
        lemma_created_txid(mid0.watched, t, height, t.outputs@.len() as int);
        if has_utxo(mid0.utxos, op) {
            lemma_lookup_has(mid0.utxos, op);
            lemma_consumed_ops(mid0.utxos, t, t.inputs@.len() as int);
            assert(ops_of(consumed_m(mid0.utxos, t)).contains(op));
            assert(!has_utxo(mid1.utxos, op));
        } else {
            if exists|j: int|
                0 <= j < created_m(mid0.watched, t, height).len() && (#[trigger] created_m(
                    mid0.watched,
                    t,
                    height,
                )[j]).outpoint == op {
                let j = choose|j: int|
                    0 <= j < created_m(mid0.watched, t, height).len() && (#[trigger] created_m(
                        mid0.watched,
                        t,
                        height,
                    )[j]).outpoint == op;
                assert(false);
            }
            assert(!has_utxo(mid1.utxos, op));
        }
        assert(forall|a: int|
            0 <= a < txs.skip(i + 1).len() ==> op.txid != (#[trigger] txs.skip(i + 1)[a]).txid@)
            by {
            assert(forall|a: int|
                0 <= a < txs.skip(i + 1).len() ==> #[trigger] txs.skip(i + 1)[a] == txs[i + 1
                    + a]);
        };
        lemma_apply_txs_preserves_absent(mid1, txs.skip(i + 1), height, op);
    };
    // and everything a transaction of the block creates, and its record,
    // are already in place
    assert forall|i: int|
        0 <= i < txs.len() && created_m(u.watched, #[trigger] txs[i], height).len()
            > 0 implies has_record(u.records, txs[i].txid@) && (forall|k: int|
        0 <= k < created_m(u.watched, txs[i], height).len() ==> has_utxo(
            u.utxos,
            (#[trigger] created_m(u.watched, txs[i], height)[k]).outpoint,
        )) by {
        let t = txs[i];
        lemma_apply_txs_split(w, txs, height, i + 1);
        let mid0 = crate::model::apply_txs_m(w, txs.take(i as int), height);
        let mid1 = crate::model::apply_txs_m(w, txs.take(i + 1), height);
        assert(txs.take(i + 1).drop_last() =~= txs.take(i as int));
        assert(txs.take(i + 1).last() == t);
        assert(mid1 == spec_apply_tx(mid0, t, height));
        lemma_apply_txs_watched(w, txs.take(i as int), height);
        lemma_apply_txs_watched(w, txs.take(i + 1), height);
        let created = created_m(u.watched, t, height);
        assert(created == created_m(mid0.watched, t, height));
        lemma_created_txid(mid0.watched, t, height, t.outputs@.len() as int);
        lemma_consumed_ops(mid0.utxos, t, t.inputs@.len() as int);
        // the record is stored by this application and never dropped later
        assert(has_record(mid1.records, t.txid@)) by {
            if !has_record(mid0.records, t.txid@) {
                let rs = mid1.records;
                assert(rs[rs.len() - 1].txid == t.txid@);
            }
        };
        lemma_apply_txs_watched(mid1, txs.skip(i + 1), height);
        assert(has_record(u.records, t.txid@));
        assert forall|k: int| 0 <= k < created.len() implies has_utxo(
            u.utxos,
            (#[trigger] created[k]).outpoint,
        ) by {
            let cop = created[k].outpoint;
            assert(cop.txid == t.txid@);
            lemma_apply_has(mid0, t, height, cop);
            if ops_of(consumed_m(mid0.utxos, t)).contains(cop) {
                let j = choose|j: int|
                    0 <= j < ops_of(consumed_m(mid0.utxos, t)).len() && ops_of(
                        consumed_m(mid0.utxos, t),
                    )[j] == cop;
                assert((consumed_m(mid0.utxos, t)[j]).outpoint == cop);
                let a = choose|a: int|
                    0 <= a < t.inputs@.len() && (consumed_m(mid0.utxos, t)[j]).outpoint
                        == t.inputs@[a].previous_output@;
                assert((#[trigger] txs[i].inputs@[a]).previous_output@.txid == t.txid@);
                assert(false);
            }
            assert(has_utxo(mid1.utxos, cop));
            assert(forall|a: int, b: int|
                0 <= a < txs.skip(i + 1).len() && 0 <= b < txs.skip(i + 1)[a].inputs@.len() ==> (
                #[trigger] txs.skip(i + 1)[a].inputs@[b]).previous_output@.txid != cop.txid) by {
                assert(forall|a: int|
                    0 <= a < txs.skip(i + 1).len() ==> #[trigger] txs.skip(i + 1)[a] == txs[i + 1
                        + a]);
            };
            lemma_apply_txs_preserves_has(mid1, txs.skip(i + 1), height, cop);
        };
    };
    lemma_apply_txs_noop(u, txs, height);
}

/// A single dispatched event other than a block disconnection never lowers
/// the sync cursor.
pub proof fn lemma_step_cursor_monotonic(s: EngineModel, e: Event)
    requires
        !(e is BlockDisconnected),
    ensures
        step_model(s, e).cursor >= s.cursor,
{
}

/// Monotonic cursor: across any sequence of events with no block
/// disconnection, the sync cursor never decreases.
pub proof fn lemma_cursor_monotonic(s: EngineModel, events: Seq<Event>)
    requires
        forall|i: int| 0 <= i < events.len() ==> !((#[trigger] events[i]) is BlockDisconnected),
    ensures
        run_m(s, events).0.cursor >= s.cursor,
    decreases events.len(),
{
    if events.len() > 0 {
        lemma_step_cursor_monotonic(s, events[0]);
        let s1 = step_model(s, events[0]);
        if !done_event(events[0]) {
            assert(forall|i: int|
                0 <= i < events.drop_first().len() ==> !((#[trigger] events.drop_first()[i])
                    is BlockDisconnected)) by {
                assert(forall|i: int|
                    0 <= i < events.drop_first().len() ==> #[trigger] events.drop_first()[i]
                        == events[i + 1]);
            };
            lemma_cursor_monotonic(s1, events.drop_first());
        }
    }
}

proof fn lemma_keep_utxos_mem(us: Seq<UtxoModel>, height: u32)
    ensures
        forall|u: UtxoModel|
            #[trigger] keep_utxos_except(us, height).contains(u) <==> (us.contains(u) && u.height
                != height),
        forall|op: OutPointModel|
            #[trigger] has_utxo(keep_utxos_except(us, height), op) ==> has_utxo(us, op),
    decreases us.len(),
{
    if us.len() > 0 {
        lemma_keep_utxos_mem(us.drop_last(), height);
        let prefix = keep_utxos_except(us.drop_last(), height);
        assert(us.drop_last().push(us.last()) =~= us);
        assert forall|u: UtxoModel| #[trigger]
            keep_utxos_except(us, height).contains(u) <==> (us.contains(u) && u.height
                != height) by {
            lemma_contains_push(us.drop_last(), us.last(), u);
            if us.last().height != height {
                lemma_contains_push(prefix, us.last(), u);
            }
        };
        assert forall|op: OutPointModel| #[trigger]
            has_utxo(keep_utxos_except(us, height), op) implies has_utxo(us, op) by {
            if us.last().height != height {
                lemma_has_push(prefix, us.last(), op);
            }
            lemma_has_push(us.drop_last(), us.last(), op);
        };
    }
}

/// Whether some record at the given height consumed this exact output.
pub open spec fn restored_from(rs: Seq<TxRecordModel>, u: UtxoModel, height: u32) -> bool {
    exists|i: int, k: int|
        0 <= i < rs.len() && rs[i].height == height && 0 <= k < rs[i].consumed.len()
            && #[trigger] rs[i].consumed[k] == u
}

/// Whether some record at the given height consumed an output with this
/// outpoint, one not itself created at that height.
pub open spec fn restored_op_from(rs: Seq<TxRecordModel>, op: OutPointModel, height: u32) -> bool {
    exists|i: int, k: int|
        0 <= i < rs.len() && rs[i].height == height && 0 <= k < rs[i].consumed.len() && (
        #[trigger] rs[i].consumed[k]).outpoint == op && rs[i].consumed[k].height != height
}

/// The consumed entries of the records at the given height are absent from
/// the output set and pairwise distinct by outpoint.
pub open spec fn consumed_restorable(
    us: Seq<UtxoModel>,
    rs: Seq<TxRecordModel>,
    height: u32,
) -> bool {
    &&& forall|i: int, k: int|
        0 <= i < rs.len() && rs[i].height == height && 0 <= k < rs[i].consumed.len()
            ==> !has_utxo(us, (#[trigger] rs[i].consumed[k]).outpoint)
    &&& forall|i1: int, k1: int, i2: int, k2: int|
        0 <= i1 < rs.len() && rs[i1].height == height && 0 <= k1 < rs[i1].consumed.len() && 0 <= i2
            < rs.len() && rs[i2].height == height && 0 <= k2 < rs[i2].consumed.len() && !(i1 == i2
            && k1 == k2) ==> (#[trigger] rs[i1].consumed[k1]).outpoint != (#[trigger] rs[i2].consumed[k2]).outpoint
}

proof fn lemma_restore_rec_mem(us: Seq<UtxoModel>, cs: Seq<UtxoModel>, height: u32)
    requires
        forall|k: int| 0 <= k < cs.len() ==> !has_utxo(us, (#[trigger] cs[k]).outpoint),
        forall|k1: int, k2: int|
            0 <= k1 < cs.len() && 0 <= k2 < cs.len() && k1 != k2 ==> (#[trigger] cs[k1]).outpoint
                != (#[trigger] cs[k2]).outpoint,
    ensures
        forall|u: UtxoModel|
            #[trigger] restore_rec_m(us, cs, height).contains(u) <==> (us.contains(u) || (exists|
                k: int,
            | 0 <= k < cs.len() && #[trigger] cs[k] == u && u.height != height)),
        forall|op: OutPointModel|
            #[trigger] has_utxo(restore_rec_m(us, cs, height), op) <==> (has_utxo(us, op) || (
            exists|k: int|
                0 <= k < cs.len() && (#[trigger] cs[k]).outpoint == op && cs[k].height != height)),
    decreases cs.len(),
{
    if cs.len() > 0 {
        assert(forall|k: int|
            0 <= k < cs.drop_last().len() ==> #[trigger] cs.drop_last()[k] == cs[k]);
        lemma_restore_rec_mem(us, cs.drop_last(), height);
        let prefix = restore_rec_m(us, cs.drop_last(), height);
        let c = cs.last();
        if c.height != height {
            // the last consumed output's outpoint is absent from the state
            // built so far, so the add is a push
            assert(!has_utxo(prefix, c.outpoint));
            assert(restore_rec_m(us, cs, height) == prefix.push(c));
            assert forall|u: UtxoModel| #[trigger]
                restore_rec_m(us, cs, height).contains(u) <==> (us.contains(u) || (exists|k: int|
                    0 <= k < cs.len() && #[trigger] cs[k] == u && u.height != height)) by {
                lemma_contains_push(prefix, c, u);
                if us.contains(u) || (exists|k: int|
                    0 <= k < cs.len() && #[trigger] cs[k] == u && u.height != height) {
                    if !us.contains(u) {
                        let k = choose|k: int|
                            0 <= k < cs.len() && #[trigger] cs[k] == u && u.height != height;
                        if k < cs.len() - 1 {
                            assert(cs.drop_last()[k] == u);
                        }
                    }
                }
            };
            assert forall|op: OutPointModel| #[trigger]
                has_utxo(restore_rec_m(us, cs, height), op) <==> (has_utxo(us, op) || (exists|
                    k: int,
                | 0 <= k < cs.len() && (#[trigger] cs[k]).outpoint == op && cs[k].height
                    != height)) by {
                lemma_has_push(prefix, c, op);
                if has_utxo(us, op) || (exists|k: int|
                    0 <= k < cs.len() && (#[trigger] cs[k]).outpoint == op && cs[k].height
                        != height) {
                    if !has_utxo(us, op) {
                        let k = choose|k: int|
                            0 <= k < cs.len() && (#[trigger] cs[k]).outpoint == op && cs[k].height
                                != height;
                        if k < cs.len() - 1 {
                            assert(cs.drop_last()[k].outpoint == op);
                        }
                    }
                }
            };
        } else {
            assert forall|u: UtxoModel| #[trigger]
                restore_rec_m(us, cs, height).contains(u) <==> (us.contains(u) || (exists|k: int|
                    0 <= k < cs.len() && #[trigger] cs[k] == u && u.height != height)) by {
                if exists|k: int| 0 <= k < cs.len() && #[trigger] cs[k] == u && u.height
                    != height {
                    let k = choose|k: int|
                        0 <= k < cs.len() && #[trigger] cs[k] == u && u.height != height;
                    assert(k < cs.len() - 1);
                    assert(cs.drop_last()[k] == u);
                }
            };
            assert forall|op: OutPointModel| #[trigger]
                has_utxo(restore_rec_m(us, cs, height), op) <==> (has_utxo(us, op) || (exists|
                    k: int,
                | 0 <= k < cs.len() && (#[trigger] cs[k]).outpoint == op && cs[k].height
                    != height)) by {
                if exists|k: int|
                    0 <= k < cs.len() && (#[trigger] cs[k]).outpoint == op && cs[k].height
                        != height {
                    let k = choose|k: int|
                        0 <= k < cs.len() && (#[trigger] cs[k]).outpoint == op && cs[k].height
                            != height;
                    assert(k < cs.len() - 1);
                    assert(cs.drop_last()[k].outpoint == op);
                }
            };
        }
    }
}

proof fn lemma_restore_all_mem(us: Seq<UtxoModel>, rs: Seq<TxRecordModel>, height: u32)
    requires
        consumed_restorable(us, rs, height),
    ensures
        forall|u: UtxoModel|
            #[trigger] restore_all_m(us, rs, height).contains(u) <==> (us.contains(u) || (
            restored_from(rs, u, height) && u.height != height)),
        forall|op: OutPointModel|
            #[trigger] has_utxo(restore_all_m(us, rs, height), op) <==> (has_utxo(us, op)
                || restored_op_from(rs, op, height)),
    decreases rs.len(),
{
    if rs.len() > 0 {
        let dl = rs.drop_last();
        assert(forall|i: int| 0 <= i < dl.len() ==> #[trigger] dl[i] == rs[i]);
        lemma_restore_all_mem(us, dl, height);
        let prefix = restore_all_m(us, dl, height);
        let last = rs.last();
        assert(last == rs[rs.len() - 1]);
        if last.height == height {
            // the last record's consumed entries are still absent from the
            // state built so far, and are pairwise distinct
            assert forall|k: int| 0 <= k < last.consumed.len() implies !has_utxo(
                prefix,
                (#[trigger] last.consumed[k]).outpoint,
            ) by {
                assert(!has_utxo(us, last.consumed[k].outpoint));
                if restored_op_from(dl, last.consumed[k].outpoint, height) {
                    let (i2, k2): (int, int) = choose|i2: int, k2: int|
                        0 <= i2 < dl.len() && dl[i2].height == height && 0 <= k2
                            < dl[i2].consumed.len() && (#[trigger] dl[i2].consumed[k2]).outpoint
                            == last.consumed[k].outpoint && dl[i2].consumed[k2].height != height;
                    assert(rs[i2].consumed[k2].outpoint == rs[rs.len() - 1].consumed[k].outpoint);
                    assert(false);
                }
            };
            assert(forall|k1: int, k2: int|
                0 <= k1 < last.consumed.len() && 0 <= k2 < last.consumed.len() && k1 != k2 ==> (
                #[trigger] last.consumed[k1]).outpoint != (
                #[trigger] last.consumed[k2]).outpoint) by {
                assert(forall|k1: int, k2: int|
                    0 <= k1 < rs[rs.len() - 1].consumed.len() && 0 <= k2 < rs[rs.len()
                        - 1].consumed.len() && k1 != k2 ==> (#[trigger] rs[rs.len()
                        - 1].consumed[k1]).outpoint != (#[trigger] rs[rs.len()
                        - 1].consumed[k2]).outpoint);
            };
            lemma_restore_rec_mem(prefix, last.consumed, height);
            assert forall|u: UtxoModel| #[trigger]
                restore_all_m(us, rs, height).contains(u) <==> (us.contains(u) || (restored_from(
                    rs,
                    u,
                    height,
                ) && u.height != height)) by {
                if restore_all_m(us, rs, height).contains(u) && !us.contains(u) {
                    if restored_from(dl, u, height) {
                        let (i, k): (int, int) = choose|i: int, k: int|
                            0 <= i < dl.len() && dl[i].height == height && 0 <= k
                                < dl[i].consumed.len() && #[trigger] dl[i].consumed[k] == u;
                        assert(rs[i].consumed[k] == u);
                    } else {
                        let k = choose|k: int|
                            0 <= k < last.consumed.len() && #[trigger] last.consumed[k] == u
                                && u.height != height;
                        assert(rs[rs.len() - 1].consumed[k] == u);
                    }
                }
                if restored_from(rs, u, height) && u.height != height && !us.contains(u) {
                    let (i, k): (int, int) = choose|i: int, k: int|
                        0 <= i < rs.len() && rs[i].height == height && 0 <= k
                            < rs[i].consumed.len() && #[trigger] rs[i].consumed[k] == u;
                    if i < rs.len() - 1 {
                        assert(dl[i].consumed[k] == u);
                        assert(restored_from(dl, u, height));
                    } else {
                        assert(last.consumed[k] == u);
                    }
                }
            };
            assert forall|op: OutPointModel| #[trigger]
                has_utxo(restore_all_m(us, rs, height), op) <==> (has_utxo(us, op)
                    || restored_op_from(rs, op, height)) by {
                if has_utxo(restore_all_m(us, rs, height), op) && !has_utxo(us, op) {
                    if restored_op_from(dl, op, height) {
                        let (i, k): (int, int) = choose|i: int, k: int|
                            0 <= i < dl.len() && dl[i].height == height && 0 <= k
                                < dl[i].consumed.len() && (#[trigger] dl[i].consumed[k]).outpoint
                                == op && dl[i].consumed[k].height != height;
                        assert((rs[i].consumed[k]).outpoint == op);
                    } else {
                        let k = choose|k: int|
                            0 <= k < last.consumed.len() && (#[trigger] last.consumed[k]).outpoint
                                == op && last.consumed[k].height != height;
                        assert((rs[rs.len() - 1].consumed[k]).outpoint == op);
                    }
                }
                if restored_op_from(rs, op, height) && !has_utxo(us, op) {
                    let (i, k): (int, int) = choose|i: int, k: int|
                        0 <= i < rs.len() && rs[i].height == height && 0 <= k
                            < rs[i].consumed.len() && (#[trigger] rs[i].consumed[k]).outpoint == op
                            && rs[i].consumed[k].height != height;
                    if i < rs.len() - 1 {
                        assert((dl[i].consumed[k]).outpoint == op);
                        assert(restored_op_from(dl, op, height));
                    } else {
                        assert((last.consumed[k]).outpoint == op);
                    }
                }
            };
        } else {
            assert forall|u: UtxoModel| #[trigger]
                restore_all_m(us, rs, height).contains(u) <==> (us.contains(u) || (restored_from(
                    rs,
                    u,
                    height,
                ) && u.height != height)) by {
                if restored_from(rs, u, height) {
                    let (i, k): (int, int) = choose|i: int, k: int|
                        0 <= i < rs.len() && rs[i].height == height && 0 <= k
                            < rs[i].consumed.len() && #[trigger] rs[i].consumed[k] == u;
                    assert(i < rs.len() - 1);
                    assert(dl[i].consumed[k] == u);
                }
                if restored_from(dl, u, height) {
                    let (i, k): (int, int) = choose|i: int, k: int|
                        0 <= i < dl.len() && dl[i].height == height && 0 <= k
                            < dl[i].consumed.len() && #[trigger] dl[i].consumed[k] == u;
                    assert(rs[i].consumed[k] == u);
                }
            };
            assert forall|op: OutPointModel| #[trigger]
                has_utxo(restore_all_m(us, rs, height), op) <==> (has_utxo(us, op)
                    || restored_op_from(rs, op, height)) by {
                if restored_op_from(rs, op, height) {
                    let (i, k): (int, int) = choose|i: int, k: int|
                        0 <= i < rs.len() && rs[i].height == height && 0 <= k
                            < rs[i].consumed.len() && (#[trigger] rs[i].consumed[k]).outpoint == op
                            && rs[i].consumed[k].height != height;
                    assert(i < rs.len() - 1);
                    assert((dl[i].consumed[k]).outpoint == op);
                }
                if restored_op_from(dl, op, height) {
                    let (i, k): (int, int) = choose|i: int, k: int|
                        0 <= i < dl.len() && dl[i].height == height && 0 <= k
                            < dl[i].consumed.len() && (#[trigger] dl[i].consumed[k]).outpoint == op
                            && dl[i].consumed[k].height != height;
                    assert((rs[i].consumed[k]).outpoint == op);
                }
            };
        }
    }
}

proof fn lemma_keep_records_noop(rs: Seq<TxRecordModel>, height: u32)
    requires
        forall|i: int| 0 <= i < rs.len() ==> (#[trigger] rs[i]).height != height,
    ensures
        keep_records_except(rs, height) == rs,
    decreases rs.len(),
{
    if rs.len() > 0 {
        assert(forall|i: int|
            0 <= i < rs.drop_last().len() ==> #[trigger] rs.drop_last()[i] == rs[i]);
        lemma_keep_records_noop(rs.drop_last(), height);
        assert(rs.last() == rs[rs.len() - 1]);
        assert(rs.drop_last().push(rs.last()) =~= rs);
    }
}

proof fn lemma_remove_contains(us: Seq<UtxoModel>, op2: OutPointModel, u: UtxoModel)
    ensures
        remove_utxo_m(us, op2).contains(u) <==> (us.contains(u) && u.outpoint != op2),
    decreases us.len(),
{
    if us.len() > 0 {
        lemma_remove_contains(us.drop_last(), op2, u);
        let prefix = remove_utxo_m(us.drop_last(), op2);
        if us.last().outpoint != op2 {
            lemma_contains_push(prefix, us.last(), u);
        }
        lemma_contains_push(us.drop_last(), us.last(), u);
        assert(us.drop_last().push(us.last()) =~= us);
    }
}

proof fn lemma_remove_all_contains(us: Seq<UtxoModel>, ops: Seq<OutPointModel>, u: UtxoModel)
    ensures
        remove_all_m(us, ops).contains(u) <==> (us.contains(u) && !ops.contains(u.outpoint)),
    decreases ops.len(),
{
    if ops.len() > 0 {
        lemma_remove_all_contains(us, ops.drop_last(), u);
        lemma_remove_contains(remove_all_m(us, ops.drop_last()), ops.last(), u);
        if ops.drop_last().contains(u.outpoint) {
            let k = choose|k: int|
                0 <= k < ops.drop_last().len() && ops.drop_last()[k] == u.outpoint;
            assert(ops[k] == u.outpoint);
        }
        if ops.contains(u.outpoint) {
            let k = choose|k: int| 0 <= k < ops.len() && ops[k] == u.outpoint;
            if k < ops.len() - 1 {
                assert(ops.drop_last()[k] == u.outpoint);
            }
        }
    }
}

proof fn lemma_add_all_fresh_contains(us: Seq<UtxoModel>, vs: Seq<UtxoModel>)
    requires
        forall|k: int| 0 <= k < vs.len() ==> !has_utxo(us, (#[trigger] vs[k]).outpoint),
        forall|k1: int, k2: int|
            0 <= k1 < vs.len() && 0 <= k2 < vs.len() && k1 != k2 ==> (#[trigger] vs[k1]).outpoint
                != (#[trigger] vs[k2]).outpoint,
    ensures
        forall|u: UtxoModel|
            #[trigger] add_all_m(us, vs).contains(u) <==> (us.contains(u) || vs.contains(u)),
    decreases vs.len(),
{
    if vs.len() > 0 {
        let dl = vs.drop_last();
        assert(forall|k: int| 0 <= k < dl.len() ==> #[trigger] dl[k] == vs[k]);
        lemma_add_all_fresh_contains(us, dl);
        let acc = add_all_m(us, dl);
        let v = vs.last();
        assert(v == vs[vs.len() - 1]);
        lemma_add_all_has(us, dl, v.outpoint);
        assert(!has_utxo(acc, v.outpoint));
        assert(add_all_m(us, vs) == acc.push(v));
        assert forall|u: UtxoModel| #[trigger]
            add_all_m(us, vs).contains(u) <==> (us.contains(u) || vs.contains(u)) by {
            lemma_contains_push(acc, v, u);
            if vs.contains(u) {
                let k = choose|k: int| 0 <= k < vs.len() && vs[k] == u;
                if k < vs.len() - 1 {
                    assert(dl[k] == u);
                }
            }
            if dl.contains(u) {
                let k = choose|k: int| 0 <= k < dl.len() && dl[k] == u;
                assert(vs[k] == u);
            }
        };
    }
}

/// What a transaction creates at a height: outputs tagged with that height
/// and that transaction's id, one per output index, pairwise distinct.
proof fn lemma_created_props(watched: Seq<Seq<u8>>, tx: TxData, height: u32, n: int)
    requires
        n <= tx.outputs@.len(),
        tx.outputs@.len() <= 0xffff_ffff,
    ensures
        forall|k: int|
            0 <= k < created_upto(watched, tx, height, n).len() ==> (#[trigger] created_upto(
                watched,
                tx,
                height,
                n,
            )[k]).height == height && ((created_upto(watched, tx, height, n)[k]).outpoint.vout
                as int) < n,
        forall|k1: int, k2: int|
            0 <= k1 < created_upto(watched, tx, height, n).len() && 0 <= k2 < created_upto(
                watched,
                tx,
                height,
                n,
            ).len() && k1 != k2 ==> (#[trigger] created_upto(watched, tx, height, n)[k1]).outpoint
                != (#[trigger] created_upto(watched, tx, height, n)[k2]).outpoint,
    decreases n,
{
    if n > 0 {
        lemma_created_props(watched, tx, height, n - 1);
        let cur = created_upto(watched, tx, height, n);
        let prefix = created_upto(watched, tx, height, n - 1);
        assert forall|k: int| 0 <= k < cur.len() implies (#[trigger] cur[k]).height == height && ((
        cur[k]).outpoint.vout as int) < n by {
            if k < prefix.len() {
                assert(cur[k] == prefix[k]);
            } else {
                assert(cur[k].outpoint.vout == (n - 1) as u32);
            }
        };
        assert forall|k1: int, k2: int|
            0 <= k1 < cur.len() && 0 <= k2 < cur.len() && k1 != k2 implies (
        #[trigger] cur[k1]).outpoint != (#[trigger] cur[k2]).outpoint by {
            if k1 < prefix.len() && k2 < prefix.len() {
                assert(cur[k1] == prefix[k1] && cur[k2] == prefix[k2]);
            } else if k1 < prefix.len() {
                assert(cur[k1] == prefix[k1]);
                assert((cur[k1].outpoint.vout as int) < n - 1);
                assert(cur[k2].outpoint.vout == (n - 1) as u32);
            } else {
                assert(cur[k2] == prefix[k2]);
                assert((cur[k2].outpoint.vout as int) < n - 1);
                assert(cur[k1].outpoint.vout == (n - 1) as u32);
            }
        };
    }
}

/// What a transaction consumes: outputs the wallet holds, with pairwise
/// distinct outpoints when the transaction's inputs are pairwise distinct.
proof fn lemma_consumed_props(us: Seq<UtxoModel>, tx: TxData, n: int)
    requires
        n <= tx.inputs@.len(),
        forall|i1: int, i2: int|
            0 <= i1 < tx.inputs@.len() && 0 <= i2 < tx.inputs@.len() && i1 != i2 ==> (
            #[trigger] tx.inputs@[i1]).previous_output@ != (
            #[trigger] tx.inputs@[i2]).previous_output@,
    ensures
        forall|k: int|
            0 <= k < consumed_upto(us, tx, n).len() ==> us.contains(
                #[trigger] consumed_upto(us, tx, n)[k],
            ),
        forall|k1: int, k2: int|
            0 <= k1 < consumed_upto(us, tx, n).len() && 0 <= k2 < consumed_upto(us, tx, n).len()
                && k1 != k2 ==> (#[trigger] consumed_upto(us, tx, n)[k1]).outpoint != (
            #[trigger] consumed_upto(us, tx, n)[k2]).outpoint,
    decreases n,
{
    if n > 0 {
        lemma_consumed_props(us, tx, n - 1);
        lemma_consumed_ops(us, tx, n - 1);
        let prefix = consumed_upto(us, tx, n - 1);
        let op = tx.inputs@[n - 1].previous_output@;
        lemma_lookup_has(us, op);
        match lookup_utxo(us, op) {
            Some(u) => {
                let cur = consumed_upto(us, tx, n);
                assert(cur == prefix.push(u));
                assert forall|k1: int, k2: int|
                    0 <= k1 < cur.len() && 0 <= k2 < cur.len() && k1 != k2 implies (
                #[trigger] cur[k1]).outpoint != (#[trigger] cur[k2]).outpoint by {
                    if k1 < prefix.len() && k2 < prefix.len() {
                        assert(cur[k1] == prefix[k1] && cur[k2] == prefix[k2]);
                    } else if k1 < prefix.len() {
                        assert(cur[k1] == prefix[k1] && cur[k2] == u);
                        let i = choose|i: int|
                            0 <= i < n - 1 && (prefix[k1]).outpoint == tx.inputs@[
                                i
                            ].previous_output@;
                        assert(tx.inputs@[i].previous_output@ != op);
                    } else {
                        assert(cur[k2] == prefix[k2] && cur[k1] == u);
                        let i = choose|i: int|
                            0 <= i < n - 1 && (prefix[k2]).outpoint == tx.inputs@[
                                i
                            ].previous_output@;
                        assert(tx.inputs@[i].previous_output@ != op);
                    }
                };
            },
            None => {},
        }
    }
}

/// In a set with one entry per outpoint, the lookup of a member's outpoint
/// finds exactly that member.
proof fn lemma_lookup_unique(us: Seq<UtxoModel>, u: UtxoModel)
    requires
        us.contains(u),
        forall|i: int, j: int|
            0 <= i < us.len() && 0 <= j < us.len() && i != j ==> (#[trigger] us[i]).outpoint != (
            #[trigger] us[j]).outpoint,
    ensures
        lookup_utxo(us, u.outpoint) == Some(u),
{
    lemma_lookup_has(us, u.outpoint);
    let i = choose|i: int| 0 <= i < us.len() && us[i] == u;
    assert(has_utxo(us, u.outpoint)) by {
        assert(us[i].outpoint == u.outpoint);
    };
    let v = lookup_utxo(us, u.outpoint)->Some_0;
    assert(us.contains(v) && v.outpoint == u.outpoint);
    let j = choose|j: int| 0 <= j < us.len() && us[j] == v;
    assert(i == j);
}

/// Rollback correctness: disconnecting a height removes exactly the records
/// stored at that height, and an unspent output is present afterwards
/// exactly when it was present and not introduced at that height, or when a
/// record rolled back with that height had consumed it and it was not
/// itself created there. The premise asks what holds of every state the
/// reconciler builds: a consumed output is no longer in the set, and no two
/// stored spends consumed the same outpoint.
pub proof fn lemma_rollback_correct(w: WalletModel, height: u32)
    requires
        consumed_restorable(w.utxos, w.records, height),
    ensures
        spec_rollback(w, height).records == keep_records_except(w.records, height),
        forall|u: UtxoModel|
            #[trigger] spec_rollback(w, height).utxos.contains(u) <==> ((w.utxos.contains(u)
                && u.height != height) || (restored_from(w.records, u, height) && u.height
                != height)),
{
    let base = keep_utxos_except(w.utxos, height);
    lemma_keep_utxos_mem(w.utxos, height);
    assert(consumed_restorable(base, w.records, height));
    lemma_restore_all_mem(base, w.records, height);
}

/// Conservation across a reorg: matching a new block at a fresh height and
/// then disconnecting that height leaves exactly the unspent outputs that
/// were present before, and the records unchanged. The premise says the
/// block is genuinely new (nothing stored came from its height or from this
/// transaction) and the wallet and transaction are well formed (one stored
/// output per outpoint, one spend per outpoint).
pub proof fn lemma_conservation_round_trip(w: WalletModel, tx: TxData, height: u32)
    requires
        tx.outputs@.len() <= 0xffff_ffff,
        no_self_spend(tx),
        forall|i: int| 0 <= i < w.utxos.len() ==> (#[trigger] w.utxos[i]).height != height,
        forall|i: int| 0 <= i < w.records.len() ==> (#[trigger] w.records[i]).height != height,
        !has_record(w.records, tx.txid@),
        forall|i: int| 0 <= i < w.utxos.len() ==> (#[trigger] w.utxos[i]).outpoint.txid != tx.txid@,
        forall|i: int, j: int|
            0 <= i < w.utxos.len() && 0 <= j < w.utxos.len() && i != j ==> (
            #[trigger] w.utxos[i]).outpoint != (#[trigger] w.utxos[j]).outpoint,
        forall|i1: int, i2: int|
            0 <= i1 < tx.inputs@.len() && 0 <= i2 < tx.inputs@.len() && i1 != i2 ==> (
            #[trigger] tx.inputs@[i1]).previous_output@ != (
            #[trigger] tx.inputs@[i2]).previous_output@,
    ensures
        spec_rollback(spec_apply_tx(w, tx, height), height).records == w.records,
        forall|u: UtxoModel|
            #[trigger] spec_rollback(spec_apply_tx(w, tx, height), height).utxos.contains(u)
                <==> w.utxos.contains(u),
{
    let created = created_m(w.watched, tx, height);
    let consumed = consumed_m(w.utxos, tx);
    let w1 = spec_apply_tx(w, tx, height);
    lemma_created_props(w.watched, tx, height, tx.outputs@.len() as int);
    lemma_created_txid(w.watched, tx, height, tx.outputs@.len() as int);
    lemma_consumed_props(w.utxos, tx, tx.inputs@.len() as int);
    assert forall|k: int| 0 <= k < created.len() implies !has_utxo(
        w.utxos,
        (#[trigger] created[k]).outpoint,
    ) by {
        if has_utxo(w.utxos, created[k].outpoint) {
            let i = choose|i: int|
                0 <= i < w.utxos.len() && w.utxos[i].outpoint == created[k].outpoint;
            assert(w.utxos[i].outpoint.txid == tx.txid@);
            assert(false);
        }
    };
    if created.len() == 0 && consumed.len() == 0 {
        // the application was a no-op and the rollback of a fresh height
        // changes nothing either
        lemma_keep_records_noop(w.records, height);
        let base = keep_utxos_except(w.utxos, height);
        lemma_keep_utxos_mem(w.utxos, height);
        assert(consumed_restorable(base, w.records, height));
        lemma_restore_all_mem(base, w.records, height);
        assert forall|u: UtxoModel| #[trigger]
            spec_rollback(w1, height).utxos.contains(u) <==> w.utxos.contains(u) by {
            if restored_from(w.records, u, height) {
                let (i, k): (int, int) = choose|i: int, k: int|
                    0 <= i < w.records.len() && w.records[i].height == height && 0 <= k
                        < w.records[i].consumed.len() && #[trigger] w.records[i].consumed[k] == u;
                assert(false);
            }
            if w.utxos.contains(u) {
                let i = choose|i: int| 0 <= i < w.utxos.len() && w.utxos[i] == u;
                assert(u.height != height);
            }
        };
    } else {
        let u1 = remove_all_m(add_all_m(w.utxos, created), ops_of(consumed));
        let rec = TxRecordModel { txid: tx.txid@, height, created, consumed };
        assert(w1.utxos == u1);
        assert(w1.records == w.records.push(rec));
        // the stored records other than the new one did not come from this
        // height, so dropping the height drops exactly the new record
        assert(w1.records.drop_last() =~= w.records);
        assert(w1.records.last() == rec);
        lemma_keep_records_noop(w.records, height);
        assert(keep_records_except(w1.records, height) == w.records);
        // the rolled-back record's consumed outputs are gone from the
        // reconciled set and pairwise distinct, so the rollback restores
        // each of them exactly once
        assert(consumed_restorable(w1.utxos, w1.records, height)) by {
            assert forall|i: int, k: int|
                0 <= i < w1.records.len() && w1.records[i].height == height && 0 <= k
                    < w1.records[i].consumed.len() implies !has_utxo(
                w1.utxos,
                (#[trigger] w1.records[i].consumed[k]).outpoint,
            ) by {
                if i < w.records.len() {
                    assert(w1.records[i] == w.records[i]);
                    assert(false);
                } else {
                    assert(w1.records[i] == rec);
                    let op = consumed[k].outpoint;
                    assert(ops_of(consumed)[k] == op);
                    assert(ops_of(consumed).contains(op));
                    lemma_remove_all_has(add_all_m(w.utxos, created), ops_of(consumed), op);
                }
            };
            assert forall|i1: int, k1: int, i2: int, k2: int|
                0 <= i1 < w1.records.len() && w1.records[i1].height == height && 0 <= k1
                    < w1.records[i1].consumed.len() && 0 <= i2 < w1.records.len()
                    && w1.records[i2].height == height && 0 <= k2 < w1.records[i2].consumed.len()
                    && !(i1 == i2 && k1 == k2) implies (
            #[trigger] w1.records[i1].consumed[k1]).outpoint != (
            #[trigger] w1.records[i2].consumed[k2]).outpoint by {
                if i1 < w.records.len() {
                    assert(w1.records[i1] == w.records[i1]);
                    assert(false);
                } else if i2 < w.records.len() {
                    assert(w1.records[i2] == w.records[i2]);
                    assert(false);
                } else {
                    assert(w1.records[i1] == rec && w1.records[i2] == rec);
                }
            };
        };
        lemma_rollback_correct(w1, height);
        lemma_add_all_fresh_contains(w.utxos, created);
        assert forall|u: UtxoModel| #[trigger]
            spec_rollback(w1, height).utxos.contains(u) <==> w.utxos.contains(u) by {
            lemma_remove_all_contains(add_all_m(w.utxos, created), ops_of(consumed), u);
            if u.height == height {
                if w.utxos.contains(u) {
                    let i = choose|i: int| 0 <= i < w.utxos.len() && w.utxos[i] == u;
                    assert(false);
                }
            } else {
                if created.contains(u) {
                    let k = choose|k: int| 0 <= k < created.len() && created[k] == u;
                    assert(created[k].height == height);
                    assert(false);
                }
                if restored_from(w1.records, u, height) {
                    let (i, k): (int, int) = choose|i: int, k: int|
                        0 <= i < w1.records.len() && w1.records[i].height == height && 0 <= k
                            < w1.records[i].consumed.len() && #[trigger] w1.records[i].consumed[k]
                            == u;
                    if i < w.records.len() {
                        assert(w1.records[i] == w.records[i]);
                        assert(false);
                    } else {
                        assert(w1.records[i] == rec);
                        assert(consumed[k] == u);
                        assert(w.utxos.contains(u));
                    }
                }
                if w.utxos.contains(u) && ops_of(consumed).contains(u.outpoint) {
                    // the spent entry with this outpoint is this very
                    // output, because outpoints are unique in the wallet
                    let j = choose|j: int|
                        0 <= j < ops_of(consumed).len() && ops_of(consumed)[j] == u.outpoint;
                    assert(consumed[j].outpoint == u.outpoint);
                    assert(w.utxos.contains(consumed[j]));
                    let a = choose|a: int| 0 <= a < w.utxos.len() && w.utxos[a] == u;
                    let b = choose|b: int| 0 <= b < w.utxos.len() && w.utxos[b] == consumed[j];
                    assert(a == b);
                    assert(consumed[j] == u);
                    assert(restored_from(w1.records, u, height)) by {
                        assert(w1.records[w.records.len() as int] == rec);
                        assert(w1.records[w.records.len() as int].consumed[j] == u);
                    };
                }
                if w.utxos.contains(u) && !ops_of(consumed).contains(u.outpoint) {
                    assert(spec_rollback(w1, height).utxos.contains(u));
                }
            }
        };
    }
}

} // verus!
