//! The wallet store: the tracked-script registry, the unspent-output set and
//! the stored transaction records, with the operations the reconciler needs.
//!
//! The store is in-memory, so every operation succeeds; adding an output
//! whose outpoint is already present and removing one that is absent are
//! defined as no-ops, which is what makes re-applying a matched block safe.

use vstd::prelude::*;
use crate::model::{
    add_utxo_m, has_record, has_utxo, keep_records_except, keep_utxos_except,
    lemma_scripts_deep_push, lemma_utxos_deep_push, lookup_utxo,
    lookup_utxo_from, records_at_m, remove_rec_m, remove_utxo_m, restore_all_m, restore_rec_m,
    scripts_deep, spec_rollback, store_rec_m, track_script_m, tracked_contains, utxos_deep,
    TxRecordModel, WalletModel,
};
use crate::types::{bytes_eq, outpoint_eq, OutPoint, Script, TxData, Txid, Utxo};

verus! {

/// A matched transaction as the wallet persists it: the transaction body,
/// the height of the block it was matched in, the unspent outputs it created
/// and the ones it consumed (kept whole so a rollback can restore them).
pub struct TrackedTransaction {
    pub tx: TxData,
    pub height: u32,
    pub created: Vec<Utxo>,
    pub consumed: Vec<Utxo>,
}

impl View for TrackedTransaction {
    type V = TxRecordModel;

    open spec fn view(&self) -> TxRecordModel {
        TxRecordModel {
            txid: self.tx.txid@,
            height: self.height,
            created: utxos_deep(self.created@),
            consumed: utxos_deep(self.consumed@),
        }
    }
}

/// The ghost values of a sequence of stored records.
pub open spec fn records_deep(s: Seq<TrackedTransaction>) -> Seq<TxRecordModel> {
    s.map_values(|x: TrackedTransaction| x@)
}

pub proof fn lemma_records_deep_push(s: Seq<TrackedTransaction>, x: TrackedTransaction)
    ensures
        records_deep(s.push(x)) == records_deep(s).push(x@),
{
    assert(records_deep(s.push(x)) =~= records_deep(s).push(x@));
}


/// A value-preserving copy of a batch of unspent outputs.
pub fn copy_utxos(v: &Vec<Utxo>) -> (r: Vec<Utxo>)
    ensures
        utxos_deep(r@) == utxos_deep(v@),
{
    let mut r: Vec<Utxo> = Vec::new();
    let mut i: usize = 0;
    while i < v.len()
        invariant
            i <= v@.len(),
            utxos_deep(r@) == utxos_deep(v@).take(i as int),
        decreases v@.len() - i,
    {
        proof {
            lemma_utxos_deep_push(r@, v@[i as int]);
            assert(utxos_deep(v@).take(i + 1 as int) =~= utxos_deep(v@).take(i as int).push(
                utxos_deep(v@)[i as int],
            ));
        }
        r.push(v[i].duplicate());
        i = i + 1;
    }
    proof {
        assert(utxos_deep(v@).take(v@.len() as int) =~= utxos_deep(v@));
    }
    r
}

impl TrackedTransaction {
    /// A value-preserving copy.
    pub fn duplicate(&self) -> (r: TrackedTransaction)
        ensures
            r@ == self@,
    {
        let r = TrackedTransaction {
            tx: self.tx.duplicate(),
            height: self.height,
            created: copy_utxos(&self.created),
            consumed: copy_utxos(&self.consumed),
        };
        proof {
            assert(r@ =~= self@);
        }
        r
    }
}

/// The wallet store.
pub struct WalletStore {
    pub tracked_scripts: Vec<Script>,
    pub utxos: Vec<Utxo>,
    pub transactions: Vec<TrackedTransaction>,
}

impl View for WalletStore {
    type V = WalletModel;

    open spec fn view(&self) -> WalletModel {
        WalletModel {
            watched: scripts_deep(self.tracked_scripts@),
            utxos: utxos_deep(self.utxos@),
            records: records_deep(self.transactions@),
        }
    }
}

impl WalletStore {
    /// An empty store: nothing tracked, nothing held, nothing recorded.
    pub fn new() -> (r: WalletStore)
        ensures
            r@.watched == Seq::<Seq<u8>>::empty(),
            r@.utxos == Seq::<crate::types::UtxoModel>::empty(),
            r@.records == Seq::<TxRecordModel>::empty(),
    {
        let r = WalletStore {
            tracked_scripts: Vec::new(),
            utxos: Vec::new(),
            transactions: Vec::new(),
        };
        proof {
            assert(r@.watched =~= Seq::<Seq<u8>>::empty());
            assert(r@.utxos =~= Seq::<crate::types::UtxoModel>::empty());
            assert(r@.records =~= Seq::<TxRecordModel>::empty());
        }
        r
    }

    /// Whether the given script is registered as tracked.
    pub fn is_script_tracked(&self, script: &Script) -> (r: bool)
        ensures
            r == tracked_contains(self@.watched, script@),
    {
        let mut i: usize = 0;
        while i < self.tracked_scripts.len()
            invariant
                i <= self.tracked_scripts@.len(),
                forall|j: int| 0 <= j < i ==> self@.watched[j] != script@,
            decreases self.tracked_scripts@.len() - i,
        {
            if bytes_eq(&self.tracked_scripts[i].bytes, &script.bytes) {
                assert(self@.watched[i as int] == script@);
                return true;
            }
            i = i + 1;
        }
        assert(!tracked_contains(self@.watched, script@));
        false
    }

    /// Register a script to monitor; a no-op when it is already tracked.
    pub fn track_script(&mut self, script: Script)
        ensures
            final(self)@.watched == track_script_m(old(self)@.watched, script@),
            final(self)@.utxos == old(self)@.utxos,
            final(self)@.records == old(self)@.records,
    {
        if !self.is_script_tracked(&script) {
            proof {
                lemma_scripts_deep_push(self.tracked_scripts@, script);
            }
            self.tracked_scripts.push(script);
        }
    }

    /// The first stored unspent output with the given outpoint, if any.
    pub fn get_utxo(&self, outpoint: &OutPoint) -> (r: Option<Utxo>)
        ensures
            (r is Some) == (lookup_utxo(self@.utxos, outpoint@) is Some),
            r matches Some(u) ==> lookup_utxo(self@.utxos, outpoint@) == Some(u@),
    {
        let mut i: usize = 0;
        while i < self.utxos.len()
            invariant
                i <= self.utxos@.len(),
                lookup_utxo(self@.utxos, outpoint@) == lookup_utxo_from(
                    self@.utxos,
                    outpoint@,
                    i as int,
                ),
            decreases self.utxos@.len() - i,
        {
            if outpoint_eq(&self.utxos[i].outpoint, outpoint) {
                assert(self@.utxos[i as int].outpoint == outpoint@);
                return Some(self.utxos[i].duplicate());
            }
            assert(self@.utxos[i as int].outpoint != outpoint@);
            i = i + 1;
        }
        None
    }

    /// Whether some stored unspent output has the given outpoint.
    pub fn is_utxo_tracked(&self, outpoint: &OutPoint) -> (r: bool)
        ensures
            r == has_utxo(self@.utxos, outpoint@),
    {
        let mut i: usize = 0;
        while i < self.utxos.len()
            invariant
                i <= self.utxos@.len(),
                forall|j: int| 0 <= j < i ==> self@.utxos[j].outpoint != outpoint@,
            decreases self.utxos@.len() - i,
        {
            if outpoint_eq(&self.utxos[i].outpoint, outpoint) {
                assert(self@.utxos[i as int].outpoint == outpoint@);
                return true;
            }
            i = i + 1;
        }
        assert(!has_utxo(self@.utxos, outpoint@));
        false
    }

    /// Add an unspent output; a no-op when its outpoint is already present,
    /// so re-applying a matched block cannot duplicate an output.
    pub fn add_utxo(&mut self, utxo: Utxo)
        ensures
            final(self)@.utxos == add_utxo_m(old(self)@.utxos, utxo@),
            final(self)@.watched == old(self)@.watched,
            final(self)@.records == old(self)@.records,
    {
        if !self.is_utxo_tracked(&utxo.outpoint) {
            proof {
                lemma_utxos_deep_push(self.utxos@, utxo);
            }
            self.utxos.push(utxo);
        }
    }

    /// Remove the unspent output with the given outpoint; a no-op when none
    /// is present, so re-applying a matched block cannot fail on a spent
    /// output.
    pub fn remove_utxo(&mut self, outpoint: &OutPoint)
        ensures
            final(self)@.utxos == remove_utxo_m(old(self)@.utxos, outpoint@),
            final(self)@.watched == old(self)@.watched,
            final(self)@.records == old(self)@.records,
    {
        let ghost d = utxos_deep(self.utxos@);
        let mut kept: Vec<Utxo> = Vec::new();
        let mut i: usize = 0;
        while i < self.utxos.len()
            invariant
                i <= self.utxos@.len(),
                d == utxos_deep(self.utxos@),
                utxos_deep(kept@) == remove_utxo_m(d.take(i as int), outpoint@),
            decreases self.utxos@.len() - i,
        {
            proof {
                assert(d.take(i + 1 as int).drop_last() =~= d.take(i as int));
                assert(d.take(i + 1 as int).last() == d[i as int]);
            }
            if !outpoint_eq(&self.utxos[i].outpoint, outpoint) {
                proof {
                    lemma_utxos_deep_push(kept@, self.utxos@[i as int]);
                }
                kept.push(self.utxos[i].duplicate());
            }
            i = i + 1;
        }
        proof {
            assert(d.take(self.utxos@.len() as int) =~= d);
        }
        self.utxos = kept;
    }

    /// Persist a matched transaction's record; a no-op when a record with
    /// the same transaction id is already stored.
    pub fn store_transaction(&mut self, record: TrackedTransaction)
        ensures
            final(self)@.records == store_rec_m(old(self)@.records, record@),
            final(self)@.watched == old(self)@.watched,
            final(self)@.utxos == old(self)@.utxos,
    {
        let mut i: usize = 0;
        let mut found = false;
        while i < self.transactions.len() && !found
            invariant
                i <= self.transactions@.len(),
                !found ==> forall|j: int| 0 <= j < i ==> self@.records[j].txid != record@.txid,
                found ==> has_record(self@.records, record@.txid),
            decreases self.transactions@.len() - i, (if found { 0int } else { 1int }),
        {
            if bytes_eq(&self.transactions[i].tx.txid.bytes, &record.tx.txid.bytes) {
                assert(self@.records[i as int].txid == record@.txid);
                found = true;
            } else {
                i = i + 1;
            }
        }
        if !found {
            assert(!has_record(self@.records, record@.txid));
            proof {
                lemma_records_deep_push(self.transactions@, record);
            }
            self.transactions.push(record);
        }
    }

    /// The stored records of the transactions matched at the given height,
    /// in storage order.
    pub fn transactions_at_height(&self, height: u32) -> (r: Vec<TrackedTransaction>)
        ensures
            records_deep(r@) == records_at_m(self@.records, height),
    {
        let ghost d = records_deep(self.transactions@);
        let mut r: Vec<TrackedTransaction> = Vec::new();
        let mut i: usize = 0;
        while i < self.transactions.len()
            invariant
                i <= self.transactions@.len(),
                d == records_deep(self.transactions@),
                records_deep(r@) == records_at_m(d.take(i as int), height),
            decreases self.transactions@.len() - i,
        {
            proof {
                assert(d.take(i + 1 as int).drop_last() =~= d.take(i as int));
                assert(d.take(i + 1 as int).last() == d[i as int]);
            }
            if self.transactions[i].height == height {
                proof {
                    lemma_records_deep_push(r@, self.transactions@[i as int]);
                }
                r.push(self.transactions[i].duplicate());
            }
            i = i + 1;
        }
        proof {
            assert(d.take(self.transactions@.len() as int) =~= d);
        }
        r
    }

    /// Remove the stored record with the given transaction id; a no-op when
    /// none is stored.
    pub fn remove_transaction(&mut self, txid: &Txid)
        ensures
            final(self)@.records == remove_rec_m(old(self)@.records, txid@),
            final(self)@.watched == old(self)@.watched,
            final(self)@.utxos == old(self)@.utxos,
    {
        let ghost d = records_deep(self.transactions@);
        let mut kept: Vec<TrackedTransaction> = Vec::new();
        let mut i: usize = 0;
        while i < self.transactions.len()
            invariant
                i <= self.transactions@.len(),
                d == records_deep(self.transactions@),
                records_deep(kept@) == remove_rec_m(d.take(i as int), txid@),
            decreases self.transactions@.len() - i,
        {
            proof {
                assert(d.take(i + 1 as int).drop_last() =~= d.take(i as int));
                assert(d.take(i + 1 as int).last() == d[i as int]);
            }
            if !bytes_eq(&self.transactions[i].tx.txid.bytes, &txid.bytes) {
                proof {
                    lemma_records_deep_push(kept@, self.transactions@[i as int]);
                }
                kept.push(self.transactions[i].duplicate());
            }
            i = i + 1;
        }
        proof {
            assert(d.take(self.transactions@.len() as int) =~= d);
        }
        self.transactions = kept;
    }

    /// Roll back a disconnected height: drop every unspent output and every
    /// record introduced there, and restore the outputs the dropped records
    /// had consumed, unless those were themselves created at that height.
    pub fn rollback_height(&mut self, height: u32)
        ensures
            final(self)@ == spec_rollback(old(self)@, height),
    {
        let ghost w0 = self@;
        // Drop the unspent outputs introduced at the disconnected height.
        let ghost d = utxos_deep(self.utxos@);
        let mut kept: Vec<Utxo> = Vec::new();
        let mut i: usize = 0;
        while i < self.utxos.len()
            invariant
                i <= self.utxos@.len(),
                d == utxos_deep(self.utxos@),
                utxos_deep(kept@) == keep_utxos_except(d.take(i as int), height),
            decreases self.utxos@.len() - i,
        {
            proof {
                assert(d.take(i + 1 as int).drop_last() =~= d.take(i as int));
                assert(d.take(i + 1 as int).last() == d[i as int]);
            }
            if self.utxos[i].height != height {
                proof {
                    lemma_utxos_deep_push(kept@, self.utxos@[i as int]);
                }
                kept.push(self.utxos[i].duplicate());
            }
            i = i + 1;
        }
        proof {
            assert(d.take(self.utxos@.len() as int) =~= d);
        }
        self.utxos = kept;
        assert(self@.utxos == keep_utxos_except(w0.utxos, height));
        assert(self@.records == w0.records);
        // Restore what the records being rolled back had consumed.
        let ghost base = self@.utxos;
        let ghost recs = self@.records;
        let mut r: usize = 0;
        while r < self.transactions.len()
            invariant
                r <= recs.len(),
                self.transactions@.len() == recs.len(),
                recs == records_deep(self.transactions@),
                self@.watched == w0.watched,
                self@.records == recs,
                self@.utxos == restore_all_m(base, recs.take(r as int), height),
            decreases recs.len() - r,
        {
            proof {
                assert(recs.take(r + 1 as int).drop_last() =~= recs.take(r as int));
                assert(recs.take(r + 1 as int).last() == recs[r as int]);
                assert(recs[r as int] == self.transactions@[r as int]@);
            }
            if self.transactions[r].height == height {
                let ghost mid = self@.utxos;
                let ghost cs = recs[r as int].consumed;
                let mut j: usize = 0;
                while j < self.transactions[r].consumed.len()
                    invariant
                        r < recs.len(),
                        self.transactions@.len() == recs.len(),
                        j <= cs.len(),
                        recs == records_deep(self.transactions@),
                        cs == recs[r as int].consumed,
                        utxos_deep(self.transactions@[r as int].consumed@) == cs,
                        self.transactions@[r as int].consumed@.len() == cs.len(),
                        self@.watched == w0.watched,
                        self@.records == recs,
                        self@.utxos == restore_rec_m(mid, cs.take(j as int), height),
                    decreases cs.len() - j,
                {
                    proof {
                        assert(cs.take(j + 1 as int).drop_last() =~= cs.take(j as int));
                        assert(cs.take(j + 1 as int).last() == cs[j as int]);
                    }
                    let c = self.transactions[r].consumed[j].duplicate();
                    proof {
                        assert(c@ == utxos_deep(self.transactions@[r as int].consumed@)[j as int]);
                        assert(c@ == cs[j as int]);
                    }
                    if c.height != height {
                        self.add_utxo(c);
                    }
                    proof {
                        assert(recs[r as int] == self.transactions@[r as int]@);
                        assert(utxos_deep(self.transactions@[r as int].consumed@) == cs);
                        assert(self.transactions@[r as int].consumed@.len() == cs.len());
                        assert(self.transactions@.len() == recs.len());
                    }
                    j = j + 1;
                }
                proof {
                    assert(cs.take(cs.len() as int) =~= cs);
                }
            }
            r = r + 1;
        }
        proof {
            assert(recs.take(recs.len() as int) =~= recs);
        }
        // Drop the records introduced at the disconnected height.
        let ghost rd = records_deep(self.transactions@);
        let mut kept_recs: Vec<TrackedTransaction> = Vec::new();
        let mut k: usize = 0;
        while k < self.transactions.len()
            invariant
                k <= self.transactions@.len(),
                rd == records_deep(self.transactions@),
                records_deep(kept_recs@) == keep_records_except(rd.take(k as int), height),
            decreases self.transactions@.len() - k,
        {
            proof {
                assert(rd.take(k + 1 as int).drop_last() =~= rd.take(k as int));
                assert(rd.take(k + 1 as int).last() == rd[k as int]);
            }
            if self.transactions[k].height != height {
                proof {
                    lemma_records_deep_push(kept_recs@, self.transactions@[k as int]);
                }
                kept_recs.push(self.transactions[k].duplicate());
            }
            k = k + 1;
        }
        proof {
            assert(rd.take(self.transactions@.len() as int) =~= rd);
        }
        self.transactions = kept_recs;
        proof {
            assert(self@ =~= spec_rollback(w0, height));
        }
    }
}

} // verus!
