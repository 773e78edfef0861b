//! The mathematical model of the wallet store and the specification-level
//! operations the executable code is proved against.

use vstd::prelude::*;
use crate::types::{FeeEstimate, OutPointModel, Script, TxData, Utxo, UtxoModel};

verus! {

/// The ghost value of one stored transaction record: the id and height of the
/// matched transaction, the unspent outputs it created, and the unspent
/// outputs it consumed (kept whole so a rollback can restore them).
#[verifier::ext_equal]
pub ghost struct TxRecordModel {
    pub txid: Seq<u8>,
    pub height: u32,
    pub created: Seq<UtxoModel>,
    pub consumed: Seq<UtxoModel>,
}

/// The ghost value of the whole wallet store.
#[verifier::ext_equal]
pub ghost struct WalletModel {
    pub watched: Seq<Seq<u8>>,
    pub utxos: Seq<UtxoModel>,
    pub records: Seq<TxRecordModel>,
}

/// The scripts a sequence of script values holds.
pub open spec fn scripts_deep(s: Seq<Script>) -> Seq<Seq<u8>> {
    s.map_values(|x: Script| x@)
}

/// The ghost values of a sequence of unspent outputs.
pub open spec fn utxos_deep(s: Seq<Utxo>) -> Seq<UtxoModel> {
    s.map_values(|x: Utxo| x@)
}

/// Whether a script is registered as watched.
pub open spec fn tracked_contains(watched: Seq<Seq<u8>>, s: Seq<u8>) -> bool {
    exists|i: int| 0 <= i < watched.len() && watched[i] == s
}

/// Whether some unspent output with the given outpoint is present.
pub open spec fn has_utxo(us: Seq<UtxoModel>, op: OutPointModel) -> bool {
    exists|i: int| 0 <= i < us.len() && us[i].outpoint == op
}

/// The first unspent output with the given outpoint, scanning from index `i`.
pub open spec fn lookup_utxo_from(us: Seq<UtxoModel>, op: OutPointModel, i: int) -> Option<
    UtxoModel,
>
    decreases us.len() - i,
{
    if i < 0 || i >= us.len() {
        None
    } else if us[i].outpoint == op {
        Some(us[i])
    } else {
        lookup_utxo_from(us, op, i + 1)
    }
}

/// The first unspent output with the given outpoint, if any.
pub open spec fn lookup_utxo(us: Seq<UtxoModel>, op: OutPointModel) -> Option<UtxoModel> {
    lookup_utxo_from(us, op, 0)
}

/// Registering a script: a no-op when it is already watched.
pub open spec fn track_script_m(watched: Seq<Seq<u8>>, s: Seq<u8>) -> Seq<Seq<u8>> {
    if tracked_contains(watched, s) {
        watched
    } else {
        watched.push(s)
    }
}

/// Adding an unspent output: a no-op when its outpoint is already present.
pub open spec fn add_utxo_m(us: Seq<UtxoModel>, u: UtxoModel) -> Seq<UtxoModel> {
    if has_utxo(us, u.outpoint) {
        us
    } else {
        us.push(u)
    }
}

/// Removing every unspent output with the given outpoint; a no-op when none
/// is present.
pub open spec fn remove_utxo_m(us: Seq<UtxoModel>, op: OutPointModel) -> Seq<UtxoModel>
    decreases us.len(),
{
    if us.len() == 0 {
        us
    } else {
        let prefix = remove_utxo_m(us.drop_last(), op);
        if us.last().outpoint == op {
            prefix
        } else {
            prefix.push(us.last())
        }
    }
}

/// Adding a batch of unspent outputs in order.
pub open spec fn add_all_m(us: Seq<UtxoModel>, vs: Seq<UtxoModel>) -> Seq<UtxoModel>
    decreases vs.len(),
{
    if vs.len() == 0 {
        us
    } else {
        add_utxo_m(add_all_m(us, vs.drop_last()), vs.last())
    }
}

/// Removing a batch of outpoints in order.
pub open spec fn remove_all_m(us: Seq<UtxoModel>, ops: Seq<OutPointModel>) -> Seq<UtxoModel>
    decreases ops.len(),
{
    if ops.len() == 0 {
        us
    } else {
        remove_utxo_m(remove_all_m(us, ops.drop_last()), ops.last())
    }
}

/// The outpoints of a batch of unspent outputs.
pub open spec fn ops_of(cs: Seq<UtxoModel>) -> Seq<OutPointModel> {
    cs.map_values(|c: UtxoModel| c.outpoint)
}

/// The unspent output a transaction's output would become at the given height.
pub open spec fn utxo_of_output(tx: TxData, i: int, height: u32) -> UtxoModel {
    UtxoModel {
        outpoint: OutPointModel { txid: tx.txid@, vout: i as u32 },
        amount: tx.outputs@[i].amount,
        script: tx.outputs@[i].script@,
        height,
    }
}

/// The unspent outputs the first `n` outputs of a transaction create: one per
/// output whose script is watched, in output order.
pub open spec fn created_upto(watched: Seq<Seq<u8>>, tx: TxData, height: u32, n: int) -> Seq<
    UtxoModel,
>
    decreases n,
{
    if n <= 0 {
        Seq::empty()
    } else {
        let prefix = created_upto(watched, tx, height, n - 1);
        if tracked_contains(watched, tx.outputs@[n - 1].script@) {
            prefix.push(utxo_of_output(tx, n - 1, height))
        } else {
            prefix
        }
    }
}

/// The unspent outputs a matched transaction creates.
pub open spec fn created_m(watched: Seq<Seq<u8>>, tx: TxData, height: u32) -> Seq<UtxoModel> {
    created_upto(watched, tx, height, tx.outputs@.len() as int)
}

/// The stored unspent outputs the first `n` inputs of a transaction consume,
/// in input order.
pub open spec fn consumed_upto(us: Seq<UtxoModel>, tx: TxData, n: int) -> Seq<UtxoModel>
    decreases n,
{
    if n <= 0 {
        Seq::empty()
    } else {
        let prefix = consumed_upto(us, tx, n - 1);
        match lookup_utxo(us, tx.inputs@[n - 1].previous_output@) {
            Some(u) => prefix.push(u),
            None => prefix,
        }
    }
}

/// The stored unspent outputs a matched transaction consumes: its relevant
/// inputs, with the data needed to restore them on a rollback.
pub open spec fn consumed_m(us: Seq<UtxoModel>, tx: TxData) -> Seq<UtxoModel> {
    consumed_upto(us, tx, tx.inputs@.len() as int)
}

/// Whether some record with the given transaction id is present.
pub open spec fn has_record(rs: Seq<TxRecordModel>, txid: Seq<u8>) -> bool {
    exists|i: int| 0 <= i < rs.len() && rs[i].txid == txid
}

/// Storing a transaction record: a no-op when its id is already recorded.
pub open spec fn store_rec_m(rs: Seq<TxRecordModel>, rec: TxRecordModel) -> Seq<TxRecordModel> {
    if has_record(rs, rec.txid) {
        rs
    } else {
        rs.push(rec)
    }
}

/// Removing every record with the given transaction id.
pub open spec fn remove_rec_m(rs: Seq<TxRecordModel>, txid: Seq<u8>) -> Seq<TxRecordModel>
    decreases rs.len(),
{
    if rs.len() == 0 {
        rs
    } else {
        let prefix = remove_rec_m(rs.drop_last(), txid);
        if rs.last().txid == txid {
            prefix
        } else {
            prefix.push(rs.last())
        }
    }
}

/// The unspent outputs not introduced at the given height.
pub open spec fn keep_utxos_except(us: Seq<UtxoModel>, height: u32) -> Seq<UtxoModel>
    decreases us.len(),
{
    if us.len() == 0 {
        us
    } else {
        let prefix = keep_utxos_except(us.drop_last(), height);
        if us.last().height == height {
            prefix
        } else {
            prefix.push(us.last())
        }
    }
}

/// The records not introduced at the given height.
pub open spec fn keep_records_except(rs: Seq<TxRecordModel>, height: u32) -> Seq<TxRecordModel>
    decreases rs.len(),
{
    if rs.len() == 0 {
        rs
    } else {
        let prefix = keep_records_except(rs.drop_last(), height);
        if rs.last().height == height {
            prefix
        } else {
            prefix.push(rs.last())
        }
    }
}

/// Restoring the consumed outputs of one rolled-back record: an output is
/// restored unless it was itself created at the disconnected height.
pub open spec fn restore_rec_m(us: Seq<UtxoModel>, cs: Seq<UtxoModel>, height: u32) -> Seq<
    UtxoModel,
>
    decreases cs.len(),
{
    if cs.len() == 0 {
        us
    } else {
        let prefix = restore_rec_m(us, cs.drop_last(), height);
        if cs.last().height == height {
            prefix
        } else {
            add_utxo_m(prefix, cs.last())
        }
    }
}

/// Restoring the consumed outputs of every record at the disconnected height,
/// in record order.
pub open spec fn restore_all_m(
    us: Seq<UtxoModel>,
    rs: Seq<TxRecordModel>,
    height: u32,
) -> Seq<UtxoModel>
    decreases rs.len(),
{
    if rs.len() == 0 {
        us
    } else {
        let prefix = restore_all_m(us, rs.drop_last(), height);
        if rs.last().height == height {
            restore_rec_m(prefix, rs.last().consumed, height)
        } else {
            prefix
        }
    }
}

/// Applying one matched transaction to the wallet: add one unspent output per
/// relevant output, remove the outputs the relevant inputs consume, and store
/// the transaction record; a no-op when nothing is relevant.
pub open spec fn spec_apply_tx(w: WalletModel, tx: TxData, height: u32) -> WalletModel {
    let created = created_m(w.watched, tx, height);
    let consumed = consumed_m(w.utxos, tx);
    if created.len() == 0 && consumed.len() == 0 {
        w
    } else {
        WalletModel {
            watched: w.watched,
            utxos: remove_all_m(add_all_m(w.utxos, created), ops_of(consumed)),
            records: store_rec_m(
                w.records,
                TxRecordModel { txid: tx.txid@, height, created, consumed },
            ),
        }
    }
}

/// Applying the transactions of one matched block in order.
pub open spec fn apply_txs_m(w: WalletModel, txs: Seq<TxData>, height: u32) -> WalletModel
    decreases txs.len(),
{
    if txs.len() == 0 {
        w
    } else {
        spec_apply_tx(apply_txs_m(w, txs.drop_last(), height), txs.last(), height)
    }
}

/// Rolling back a disconnected height: drop the unspent outputs and records
/// introduced there, and restore what the dropped records had consumed.
pub open spec fn spec_rollback(w: WalletModel, height: u32) -> WalletModel {
    WalletModel {
        watched: w.watched,
        utxos: restore_all_m(keep_utxos_except(w.utxos, height), w.records, height),
        records: keep_records_except(w.records, height),
    }
}

/// The fee estimate recorded for a height: the latest entry wins.
pub open spec fn fee_of(fees: Seq<(u32, FeeEstimate)>, height: u32) -> Option<FeeEstimate>
    decreases fees.len(),
{
    if fees.len() == 0 {
        None
    } else if fees.last().0 == height {
        Some(fees.last().1)
    } else {
        fee_of(fees.drop_last(), height)
    }
}

/// Withdrawing every fee entry of a height.
pub open spec fn fee_remove_m(fees: Seq<(u32, FeeEstimate)>, height: u32) -> Seq<
    (u32, FeeEstimate),
>
    decreases fees.len(),
{
    if fees.len() == 0 {
        fees
    } else {
        let prefix = fee_remove_m(fees.drop_last(), height);
        if fees.last().0 == height {
            prefix
        } else {
            prefix.push(fees.last())
        }
    }
}

/// A suffix holding no entry of the height does not change what is recorded
/// for it.
pub proof fn lemma_fee_of_prefix(fees: Seq<(u32, FeeEstimate)>, height: u32, k: int)
    requires
        0 <= k <= fees.len(),
        forall|j: int| k <= j < fees.len() ==> fees[j].0 != height,
    ensures
        fee_of(fees, height) == fee_of(fees.take(k), height),
    decreases fees.len() - k,
{
    if fees.len() == k {
        assert(fees.take(k) =~= fees);
    } else {
        assert(fees.last().0 != height);
        lemma_fee_of_prefix(fees.drop_last(), height, k);
        assert(fees.drop_last().take(k) =~= fees.take(k));
    }
}

/// The records introduced at the given height, in storage order.
pub open spec fn records_at_m(rs: Seq<TxRecordModel>, height: u32) -> Seq<TxRecordModel>
    decreases rs.len(),
{
    if rs.len() == 0 {
        rs
    } else {
        let prefix = records_at_m(rs.drop_last(), height);
        if rs.last().height == height {
            prefix.push(rs.last())
        } else {
            prefix
        }
    }
}

pub proof fn lemma_scripts_deep_push(s: Seq<Script>, x: Script)
    ensures
        scripts_deep(s.push(x)) == scripts_deep(s).push(x@),
{
    assert(scripts_deep(s.push(x)) =~= scripts_deep(s).push(x@));
}


pub proof fn lemma_utxos_deep_push(s: Seq<Utxo>, x: Utxo)
    ensures
        utxos_deep(s.push(x)) == utxos_deep(s).push(x@),
{
    assert(utxos_deep(s.push(x)) =~= utxos_deep(s).push(x@));
}


/// The linear search finds an output with the given outpoint exactly when one
/// is present from the starting index on, and it finds one that is present.
pub proof fn lemma_lookup_from_has(us: Seq<UtxoModel>, op: OutPointModel, i: int)
    requires
        0 <= i <= us.len(),
    ensures
        (lookup_utxo_from(us, op, i) is Some) <==> (exists|j: int|
            i <= j < us.len() && us[j].outpoint == op),
        lookup_utxo_from(us, op, i) matches Some(u) ==> u.outpoint == op && us.contains(u),
    decreases us.len() - i,
{
    if i < us.len() {
        if us[i].outpoint == op {
            assert(us.contains(us[i]));
        } else {
            lemma_lookup_from_has(us, op, i + 1);
        }
    }
}

/// The linear search succeeds exactly when the outpoint is present.
pub proof fn lemma_lookup_has(us: Seq<UtxoModel>, op: OutPointModel)
    ensures
        (lookup_utxo(us, op) is Some) <==> has_utxo(us, op),
        lookup_utxo(us, op) matches Some(u) ==> u.outpoint == op && us.contains(u),
{
    lemma_lookup_from_has(us, op, 0);
}

} // verus!
