//! The synchronization engine: the sync cursor, the fee and broadcast
//! caches, and the event dispatcher that reconciles matched blocks against
//! the wallet store.
//!
//! The engine is purely reactive: a host feeds it the events its sync-engine
//! collaborator emits, one at a time and in arrival order, and performs the
//! commands (tip query, rescan request) the engine asks for.

use vstd::prelude::*;
use crate::model::{
    apply_txs_m, created_m, created_upto, consumed_m, consumed_upto, fee_of, fee_remove_m,
    lemma_fee_of_prefix,
    lemma_scripts_deep_push, lemma_utxos_deep_push, ops_of, scripts_deep, spec_apply_tx,
    spec_rollback, utxos_deep, TxRecordModel, WalletModel,
};
use crate::types::{FeeEstimate, OutPoint, Script, TxData, Utxo};
use crate::wallet_store::{copy_utxos, TrackedTransaction, WalletStore};

verus! {

/// One event from the sync-engine collaborator, in the order it arrived.
/// Peer-connectivity events are informational and never mutate the wallet.
pub enum Event {
    Ready { tip: u32, filter_tip: u32 },
    PeerConnected,
    PeerDisconnected,
    PeerConnectionFailed,
    PeerNegotiated { height: u32 },
    PeerHeightUpdated { height: u32 },
    BlockConnected { height: u32 },
    BlockDisconnected { height: u32 },
    BlockMatched { height: u32, transactions: Vec<TxData> },
    FeeEstimated { height: u32, fees: FeeEstimate },
    FilterProcessed { height: u32, matched: bool },
    TxStatusChanged,
    Synced { height: u32, tip: u32 },
}

/// A rescan command for the sync-engine collaborator: from which height to
/// re-evaluate filters, and over which scripts.
pub struct RescanRequest {
    pub from_height: u32,
    pub scripts: Vec<Script>,
}

/// The ghost value of the whole engine.
#[verifier::ext_equal]
pub ghost struct EngineModel {
    pub wallet: WalletModel,
    pub cursor: u32,
    pub fees: Seq<(u32, FeeEstimate)>,
    pub broadcasts: Seq<TxData>,
}

/// The machine bound the dispatcher needs: output indices are assigned as
/// 32-bit values, so a matched transaction carries fewer outputs than that.
pub open spec fn event_wf(e: Event) -> bool {
    match e {
        Event::BlockMatched { height, transactions } => forall|i: int|
            0 <= i < transactions@.len() ==> #[trigger] transactions@[i].outputs@.len()
                <= 0xffff_ffff,
        _ => true,
    }
}

/// Whether an event ends the synchronization round: the engine reports that
/// its synced height has reached the chain tip.
pub open spec fn done_event(e: Event) -> bool {
    match e {
        Event::Synced { height, tip } => height == tip,
        _ => false,
    }
}

/// What one event does to the engine: the dispatch table of the state
/// machine. Connectivity and status events change nothing; connections and
/// synced reports advance the cursor; a matched block is reconciled into the
/// wallet; a disconnected block is rolled back and its cursor and fee entry
/// are withdrawn.
pub open spec fn step_model(s: EngineModel, e: Event) -> EngineModel {
    match e {
        Event::Ready { tip, filter_tip } => s,
        Event::PeerConnected => s,
        Event::PeerDisconnected => s,
        Event::PeerConnectionFailed => s,
        Event::PeerNegotiated { height } => s,
        Event::PeerHeightUpdated { height } => s,
        Event::BlockConnected { height } => EngineModel {
            wallet: s.wallet,
            cursor: if height > s.cursor {
                height
            } else {
                s.cursor
            },
            fees: s.fees,
            broadcasts: s.broadcasts,
        },
        Event::BlockDisconnected { height } => EngineModel {
            wallet: spec_rollback(s.wallet, height),
            cursor: if height > 0 {
                (height - 1) as u32
            } else {
                0
            },
            fees: fee_remove_m(s.fees, height),
            broadcasts: s.broadcasts,
        },
        Event::BlockMatched { height, transactions } => EngineModel {
            wallet: apply_txs_m(s.wallet, transactions@, height),
            cursor: s.cursor,
            fees: s.fees,
            broadcasts: s.broadcasts,
        },
        Event::FeeEstimated { height, fees } => EngineModel {
            wallet: s.wallet,
            cursor: s.cursor,
            fees: fee_remove_m(s.fees, height).push((height, fees)),
            broadcasts: s.broadcasts,
        },
        Event::FilterProcessed { height, matched } => s,
        Event::TxStatusChanged => s,
        Event::Synced { height, tip } => EngineModel {
            wallet: s.wallet,
            cursor: if height > s.cursor {
                height
            } else {
                s.cursor
            },
            fees: s.fees,
            broadcasts: s.broadcasts,
        },
    }
}

/// Running a sequence of events in order, stopping after the first one that
/// completes the round. Yields the final state and whether the round
/// completed.
pub open spec fn run_m(s: EngineModel, events: Seq<Event>) -> (EngineModel, bool)
    decreases events.len(),
{
    if events.len() == 0 {
        (s, false)
    } else {
        let s1 = step_model(s, events[0]);
        if done_event(events[0]) {
            (s1, true)
        } else {
            run_m(s1, events.drop_first())
        }
    }
}

/// The compact-block-filter synchronization engine.
pub struct CbfBlockchain {
    pub wallet: WalletStore,
    pub last_sync_height: u32,
    pub fee_data: Vec<(u32, FeeEstimate)>,
    pub broadcasted_txs: Vec<TxData>,
}

impl View for CbfBlockchain {
    type V = EngineModel;

    open spec fn view(&self) -> EngineModel {
        EngineModel {
            wallet: self.wallet@,
            cursor: self.last_sync_height,
            fees: self.fee_data@,
            broadcasts: self.broadcasted_txs@,
        }
    }
}

impl CbfBlockchain {
    /// A fresh engine over the given wallet: cursor at zero, caches empty.
    pub fn new(wallet: WalletStore) -> (r: CbfBlockchain)
        ensures
            r@.wallet == wallet@,
            r@.cursor == 0,
            r@.fees == Seq::<(u32, FeeEstimate)>::empty(),
            r@.broadcasts == Seq::<TxData>::empty(),
    {
        let r = CbfBlockchain {
            wallet,
            last_sync_height: 0,
            fee_data: Vec::new(),
            broadcasted_txs: Vec::new(),
        };
        proof {
            assert(r@.fees =~= Seq::<(u32, FeeEstimate)>::empty());
            assert(r@.broadcasts =~= Seq::<TxData>::empty());
        }
        r
    }

    /// Begin a round at the chain tip the host obtained from the sync
    /// engine: the cursor starts there.
    pub fn initialize_cbf_sync(&mut self, tip: u32)
        ensures
            final(self)@.cursor == tip,
            final(self)@.wallet == old(self)@.wallet,
            final(self)@.fees == old(self)@.fees,
            final(self)@.broadcasts == old(self)@.broadcasts,
    {
        self.last_sync_height = tip;
    }

    /// The rescan command for a round starting at the given height: it asks
    /// for exactly the scripts the wallet tracks, in registration order.
    pub fn scan(&self, from: u32) -> (r: RescanRequest)
        ensures
            r.from_height == from,
            scripts_deep(r.scripts@) == self@.wallet.watched,
    {
        let mut scripts: Vec<Script> = Vec::new();
        let mut i: usize = 0;
        while i < self.wallet.tracked_scripts.len()
            invariant
                i <= self.wallet.tracked_scripts@.len(),
                scripts_deep(scripts@) == scripts_deep(self.wallet.tracked_scripts@).take(i as int),
            decreases self.wallet.tracked_scripts@.len() - i,
        {
            proof {
                lemma_scripts_deep_push(scripts@, self.wallet.tracked_scripts@[i as int]);
                assert(scripts_deep(self.wallet.tracked_scripts@).take(i + 1 as int)
                    =~= scripts_deep(self.wallet.tracked_scripts@).take(i as int).push(
                    scripts_deep(self.wallet.tracked_scripts@)[i as int],
                ));
            }
            scripts.push(self.wallet.tracked_scripts[i].duplicate());
            i = i + 1;
        }
        proof {
            assert(scripts_deep(self.wallet.tracked_scripts@).take(
                self.wallet.tracked_scripts@.len() as int,
            ) =~= scripts_deep(self.wallet.tracked_scripts@));
        }
        RescanRequest { from_height: from, scripts }
    }

    /// Record a fee estimate for a height, replacing any earlier entry.
    pub fn add_fee_data(&mut self, height: u32, fee_estimate: FeeEstimate)
        ensures
            final(self)@.fees == fee_remove_m(old(self)@.fees, height).push((height, fee_estimate)),
            final(self)@.wallet == old(self)@.wallet,
            final(self)@.cursor == old(self)@.cursor,
            final(self)@.broadcasts == old(self)@.broadcasts,
    {
        self.drop_fee_entry(height);
        self.fee_data.push((height, fee_estimate));
    }

    /// Withdraw the fee entry of a height, if one is present.
    fn drop_fee_entry(&mut self, height: u32)
        ensures
            final(self)@.fees == fee_remove_m(old(self)@.fees, height),
            final(self)@.wallet == old(self)@.wallet,
            final(self)@.cursor == old(self)@.cursor,
            final(self)@.broadcasts == old(self)@.broadcasts,
    {
        let ghost d = self.fee_data@;
        let mut kept: Vec<(u32, FeeEstimate)> = Vec::new();
        let mut i: usize = 0;
        while i < self.fee_data.len()
            invariant
                i <= d.len(),
                d == self.fee_data@,
                kept@ == fee_remove_m(d.take(i as int), height),
            decreases d.len() - i,
        {
            proof {
                assert(d.take(i + 1 as int).drop_last() =~= d.take(i as int));
                assert(d.take(i + 1 as int).last() == d[i as int]);
            }
            if self.fee_data[i].0 != height {
                kept.push(self.fee_data[i]);
            }
            i = i + 1;
        }
        proof {
            assert(d.take(d.len() as int) =~= d);
        }
        self.fee_data = kept;
    }

    /// The recorded fee estimate of a height, if any.
    pub fn fee_estimate_at(&self, height: u32) -> (r: Option<FeeEstimate>)
        ensures
            r == fee_of(self@.fees, height),
    {
        let ghost d = self.fee_data@;
        let mut i: usize = self.fee_data.len();
        while i > 0
            invariant
                i <= d.len(),
                d == self.fee_data@,
                forall|j: int| i <= j < d.len() ==> d[j].0 != height,
            decreases i,
        {
            i = i - 1;
            if self.fee_data[i].0 == height {
                proof {
                    lemma_fee_of_prefix(d, height, i + 1 as int);
                    assert(d.take(i + 1 as int).last() == d[i as int]);
                    assert(d.take(i + 1 as int).drop_last() =~= d.take(i as int));
                }
                return Some(self.fee_data[i].1);
            }
        }
        proof {
            lemma_fee_of_prefix(d, height, 0);
        }
        None
    }

    /// Log a transaction the wallet itself broadcast.
    pub fn record_broadcast(&mut self, tx: TxData)
        ensures
            final(self)@.broadcasts == old(self)@.broadcasts.push(tx),
            final(self)@.wallet == old(self)@.wallet,
            final(self)@.cursor == old(self)@.cursor,
            final(self)@.fees == old(self)@.fees,
    {
        self.broadcasted_txs.push(tx);
    }

    /// The outputs of a matched transaction that pay a tracked script: one
    /// prospective unspent output per relevant output, in output order.
    /// Reads only; assigns indices deterministically from the transaction's
    /// own output order.
    pub fn find_relevant_outputs(&self, tx: &TxData, height: u32) -> (r: Vec<Utxo>)
        requires
            tx.outputs@.len() <= 0xffff_ffff,
        ensures
            utxos_deep(r@) == created_m(self@.wallet.watched, *tx, height),
    {
        let mut r: Vec<Utxo> = Vec::new();
        let mut i: usize = 0;
        while i < tx.outputs.len()
            invariant
                i <= tx.outputs@.len(),
                tx.outputs@.len() <= 0xffff_ffff,
                utxos_deep(r@) == created_upto(self@.wallet.watched, *tx, height, i as int),
            decreases tx.outputs@.len() - i,
        {
            if self.wallet.is_script_tracked(&tx.outputs[i].script) {
                let u = Utxo {
                    outpoint: OutPoint { txid: tx.txid.duplicate(), vout: i as u32 },
                    amount: tx.outputs[i].amount,
                    script: tx.outputs[i].script.duplicate(),
                    height,
                };
                proof {
                    lemma_utxos_deep_push(r@, u);
                    assert(u@ =~= crate::model::utxo_of_output(*tx, i as int, height));
                }
                r.push(u);
            }
            i = i + 1;
        }
        r
    }

    /// The stored unspent outputs a matched transaction's inputs spend, in
    /// input order. Reads only.
    pub fn find_relevant_inputs(&self, tx: &TxData) -> (r: Vec<Utxo>)
        ensures
            utxos_deep(r@) == consumed_m(self@.wallet.utxos, *tx),
    {
        let mut r: Vec<Utxo> = Vec::new();
        let mut i: usize = 0;
        while i < tx.inputs.len()
            invariant
                i <= tx.inputs@.len(),
                utxos_deep(r@) == consumed_upto(self@.wallet.utxos, *tx, i as int),
            decreases tx.inputs@.len() - i,
        {
            match self.wallet.get_utxo(&tx.inputs[i].previous_output) {
                Some(u) => {
                    proof {
                        lemma_utxos_deep_push(r@, u);
                    }
                    r.push(u);
                },
                None => {},
            }
            i = i + 1;
        }
        r
    }

    /// Apply a matched transaction's effect to the wallet as one unit: add
    /// one unspent output per relevant output, remove what the relevant
    /// inputs spend, and persist the transaction record tagged with its
    /// height. The store is in-memory, so no partial mutation can remain.
    pub fn update_wallet_with_tx(
        &mut self,
        tx: &TxData,
        relevant_outputs: &Vec<Utxo>,
        relevant_inputs: &Vec<Utxo>,
        height: u32,
    )
        ensures
            final(self)@.wallet.utxos == crate::model::remove_all_m(
                crate::model::add_all_m(old(self)@.wallet.utxos, utxos_deep(relevant_outputs@)),
                ops_of(utxos_deep(relevant_inputs@)),
            ),
            final(self)@.wallet.records == crate::model::store_rec_m(
                old(self)@.wallet.records,
                (TxRecordModel {
                    txid: tx.txid@,
                    height,
                    created: utxos_deep(relevant_outputs@),
                    consumed: utxos_deep(relevant_inputs@),
                }),
            ),
            final(self)@.wallet.watched == old(self)@.wallet.watched,
            final(self)@.cursor == old(self)@.cursor,
            final(self)@.fees == old(self)@.fees,
            final(self)@.broadcasts == old(self)@.broadcasts,
    {
        let ghost u0 = self@.wallet.utxos;
        let ghost ro = utxos_deep(relevant_outputs@);
        let ghost ri = ops_of(utxos_deep(relevant_inputs@));
        let mut i: usize = 0;
        while i < relevant_outputs.len()
            invariant
                i <= ro.len(),
                ro == utxos_deep(relevant_outputs@),
                self@.wallet.utxos == crate::model::add_all_m(u0, ro.take(i as int)),
                self@.wallet.watched == old(self)@.wallet.watched,
                self@.wallet.records == old(self)@.wallet.records,
                self@.cursor == old(self)@.cursor,
                self@.fees == old(self)@.fees,
                self@.broadcasts == old(self)@.broadcasts,
            decreases ro.len() - i,
        {
            proof {
                assert(ro.take(i + 1 as int).drop_last() =~= ro.take(i as int));
                assert(ro.take(i + 1 as int).last() == ro[i as int]);
            }
            self.wallet.add_utxo(relevant_outputs[i].duplicate());
            i = i + 1;
        }
        proof {
            assert(ro.take(ro.len() as int) =~= ro);
        }
        let ghost mid = self@.wallet.utxos;
        let mut k: usize = 0;
        while k < relevant_inputs.len()
            invariant
                k <= ri.len(),
                ri == ops_of(utxos_deep(relevant_inputs@)),
                self@.wallet.utxos == crate::model::remove_all_m(mid, ri.take(k as int)),
                self@.wallet.watched == old(self)@.wallet.watched,
                self@.wallet.records == old(self)@.wallet.records,
                self@.cursor == old(self)@.cursor,
                self@.fees == old(self)@.fees,
                self@.broadcasts == old(self)@.broadcasts,
            decreases ri.len() - k,
        {
            proof {
                assert(ri.take(k + 1 as int).drop_last() =~= ri.take(k as int));
                assert(ri.take(k + 1 as int).last() == ri[k as int]);
                assert(ri[k as int] == relevant_inputs@[k as int]@.outpoint);
            }
            self.wallet.remove_utxo(&relevant_inputs[k].outpoint);
            k = k + 1;
        }
        proof {
            assert(ri.take(ri.len() as int) =~= ri);
        }
        let record = TrackedTransaction {
            tx: tx.duplicate(),
            height,
            created: copy_utxos(relevant_outputs),
            consumed: copy_utxos(relevant_inputs),
        };
        proof {
            assert(record@ =~= (TxRecordModel {
                txid: tx.txid@,
                height,
                created: utxos_deep(relevant_outputs@),
                consumed: utxos_deep(relevant_inputs@),
            }));
        }
        self.wallet.store_transaction(record);
    }

    /// Reconcile one matched transaction: find what it pays to tracked
    /// scripts and what it spends from the store, and apply both; a no-op
    /// when neither list is relevant.
    pub fn process_transaction(&mut self, tx: &TxData, height: u32)
        requires
            tx.outputs@.len() <= 0xffff_ffff,
        ensures
            final(self)@.wallet == spec_apply_tx(old(self)@.wallet, *tx, height),
            final(self)@.cursor == old(self)@.cursor,
            final(self)@.fees == old(self)@.fees,
            final(self)@.broadcasts == old(self)@.broadcasts,
    {
        let ghost w0 = self@.wallet;
        let relevant_outputs = self.find_relevant_outputs(tx, height);
        let relevant_inputs = self.find_relevant_inputs(tx);
        if relevant_outputs.len() == 0 && relevant_inputs.len() == 0 {
            proof {
                assert(created_m(w0.watched, *tx, height).len() == 0);
                assert(consumed_m(w0.utxos, *tx).len() == 0);
            }
            return ;
        }
        self.update_wallet_with_tx(tx, &relevant_outputs, &relevant_inputs, height);
        proof {
            assert(self@.wallet =~= spec_apply_tx(w0, *tx, height));
        }
    }

    /// Dispatch one event. Yields whether the event completed the round:
    /// only a synced report whose height has reached the tip does.
    pub fn process_event(&mut self, event: &Event) -> (done: bool)
        requires
            event_wf(*event),
        ensures
            final(self)@ == step_model(old(self)@, *event),
            done == done_event(*event),
    {
        let ghost s0 = self@;
        match event {
            Event::Ready { .. } => false,
            Event::PeerConnected => false,
            Event::PeerDisconnected => false,
            Event::PeerConnectionFailed => false,
            Event::PeerNegotiated { .. } => false,
            Event::PeerHeightUpdated { .. } => false,
            Event::BlockConnected { height } => {
                if *height > self.last_sync_height {
                    self.last_sync_height = *height;
                }
                proof {
                    assert(self@ =~= step_model(s0, *event));
                }
                false
            },
            Event::BlockDisconnected { height } => {
                self.wallet.rollback_height(*height);
                self.drop_fee_entry(*height);
                self.last_sync_height = if *height > 0 {
                    *height - 1
                } else {
                    0
                };
                proof {
                    assert(self@ =~= step_model(s0, *event));
                }
                false
            },
            Event::BlockMatched { height, transactions } => {
                let mut i: usize = 0;
                while i < transactions.len()
                    invariant
                        i <= transactions@.len(),
                        forall|j: int|
                            0 <= j < transactions@.len() ==> #[trigger] transactions@[j].outputs@.len()
                                <= 0xffff_ffff,
                        self@.wallet == apply_txs_m(s0.wallet, transactions@.take(i as int), *height),
                        self@.cursor == s0.cursor,
                        self@.fees == s0.fees,
                        self@.broadcasts == s0.broadcasts,
                    decreases transactions@.len() - i,
                {
                    proof {
                        assert(transactions@.take(i + 1 as int).drop_last() =~= transactions@.take(
                            i as int,
                        ));
                        assert(transactions@.take(i + 1 as int).last() == transactions@[i as int]);
                    }
                    self.process_transaction(&transactions[i], *height);
                    i = i + 1;
                }
                proof {
                    assert(transactions@.take(transactions@.len() as int) =~= transactions@);
                    assert(self@ =~= step_model(s0, *event));
                }
                false
            },
            Event::FeeEstimated { height, fees } => {
                self.add_fee_data(*height, *fees);
                proof {
                    assert(self@ =~= step_model(s0, *event));
                }
                false
            },
            Event::FilterProcessed { .. } => false,
            Event::TxStatusChanged => false,
            Event::Synced { height, tip } => {
                if *height > self.last_sync_height {
                    self.last_sync_height = *height;
                }
                proof {
                    assert(self@ =~= step_model(s0, *event));
                }
                *height == *tip
            },
        }
    }

    /// Dispatch a batch of events in arrival order, stopping after the first
    /// one that completes the round. Yields whether the round completed; the
    /// events after the completing one are left for the next round.
    pub fn process_events(&mut self, events: &Vec<Event>) -> (done: bool)
        requires
            forall|i: int| 0 <= i < events@.len() ==> #[trigger] event_wf(events@[i]),
        ensures
            final(self)@ == run_m(old(self)@, events@).0,
            done == run_m(old(self)@, events@).1,
    {
        let ghost s0 = self@;
        proof {
            assert(events@.skip(0) =~= events@);
        }
        let mut i: usize = 0;
        while i < events.len()
            invariant
                i <= events@.len(),
                s0 == old(self)@,
                forall|j: int| 0 <= j < events@.len() ==> #[trigger] event_wf(events@[j]),
                run_m(s0, events@) == run_m(self@, events@.skip(i as int)),
            decreases events@.len() - i,
        {
            proof {
                assert(events@.skip(i as int)[0] == events@[i as int]);
                assert(events@.skip(i as int).drop_first() =~= events@.skip(i + 1 as int));
            }
            let ghost prev = self@;
            let d = self.process_event(&events[i]);
            if d {
                proof {
                    assert(run_m(prev, events@.skip(i as int)) == (self@, true));
                }
                return true;
            }
            proof {
                assert(run_m(prev, events@.skip(i as int)) == run_m(
                    self@,
                    events@.skip(i + 1 as int),
                ));
            }
            i = i + 1;
        }
        proof {
            assert(events@.skip(events@.len() as int) =~= Seq::<Event>::empty());
        }
        false
    }
}

} // verus!
