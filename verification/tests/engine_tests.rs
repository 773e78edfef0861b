use cbf_sync::engine::{CbfBlockchain, Event};
use cbf_sync::types::{
    bytes_eq, outpoint_eq, CbfSyncError, FeeEstimate, OutPoint, Script, SyncEngineError, TxData,
    TxIn, TxOut, Txid, WalletStoreError,
};
use cbf_sync::wallet_store::{TrackedTransaction, WalletStore};

fn script(b: &[u8]) -> Script {
    Script { bytes: b.to_vec() }
}

fn txid(b: u8) -> Txid {
    Txid { bytes: vec![b; 32] }
}

fn outpoint(b: u8, vout: u32) -> OutPoint {
    OutPoint { txid: txid(b), vout }
}

fn tx(id: u8, inputs: Vec<OutPoint>, outputs: Vec<(u64, Script)>) -> TxData {
    TxData {
        txid: txid(id),
        inputs: inputs
            .into_iter()
            .map(|previous_output| TxIn { previous_output })
            .collect(),
        outputs: outputs
            .into_iter()
            .map(|(amount, script)| TxOut { amount, script })
            .collect(),
    }
}

fn engine_tracking(scripts: &[&[u8]]) -> CbfBlockchain {
    let mut w = WalletStore::new();
    for s in scripts {
        w.track_script(script(s));
    }
    CbfBlockchain::new(w)
}

fn utxo_index(w: &WalletStore, id: u8, vout: u32) -> Option<usize> {
    w.utxos
        .iter()
        .position(|u| u.outpoint.txid.bytes == vec![id; 32] && u.outpoint.vout == vout)
}

fn fee(low: u64, median: u64, high: u64) -> FeeEstimate {
    FeeEstimate { low, median, high }
}

#[test]
fn scenario_matched_block_adds_tracked_output() {
    let mut e = engine_tracking(&[b"S"]);
    let t1 = tx(1, vec![], vec![(50000, script(b"S"))]);
    let done = e.process_event(&Event::BlockMatched {
        height: 10,
        transactions: vec![t1],
    });
    assert!(!done);
    let i = utxo_index(&e.wallet, 1, 0).expect("utxo for T1:0");
    assert_eq!(e.wallet.utxos[i].amount, 50000);
    assert_eq!(e.wallet.utxos[i].script.bytes, b"S".to_vec());
    assert_eq!(e.wallet.utxos[i].height, 10);
    assert_eq!(e.wallet.transactions.len(), 1);
    assert_eq!(e.wallet.transactions[0].height, 10);
}

#[test]
fn scenario_spend_removes_output() {
    let mut e = engine_tracking(&[b"S"]);
    let t1 = tx(1, vec![], vec![(50000, script(b"S"))]);
    e.process_event(&Event::BlockMatched {
        height: 10,
        transactions: vec![t1],
    });
    let t2 = tx(2, vec![outpoint(1, 0)], vec![(40000, script(b"untracked"))]);
    e.process_event(&Event::BlockMatched {
        height: 11,
        transactions: vec![t2],
    });
    assert!(utxo_index(&e.wallet, 1, 0).is_none());
    // T2 pays no tracked script, so no new unspent output appears
    assert_eq!(e.wallet.utxos.len(), 0);
    assert_eq!(e.wallet.transactions.len(), 2);
}

#[test]
fn scenario_disconnect_restores_spent_output() {
    let mut e = engine_tracking(&[b"S"]);
    let t1 = tx(1, vec![], vec![(50000, script(b"S"))]);
    e.process_event(&Event::BlockMatched {
        height: 10,
        transactions: vec![t1],
    });
    let t2 = tx(2, vec![outpoint(1, 0)], vec![(40000, script(b"untracked"))]);
    e.process_event(&Event::BlockMatched {
        height: 11,
        transactions: vec![t2],
    });
    let done = e.process_event(&Event::BlockDisconnected { height: 11 });
    assert!(!done);
    let i = utxo_index(&e.wallet, 1, 0).expect("utxo for T1:0 restored");
    assert_eq!(e.wallet.utxos[i].amount, 50000);
    assert_eq!(e.wallet.utxos[i].script.bytes, b"S".to_vec());
    assert_eq!(e.wallet.utxos[i].height, 10);
    // the record of the rolled-back spend is gone, the creator's stays
    assert_eq!(e.wallet.transactions.len(), 1);
    assert_eq!(e.wallet.transactions[0].tx.txid.bytes, vec![1u8; 32]);
    assert_eq!(e.last_sync_height, 10);
}

#[test]
fn scenario_synced_at_tip_completes_round() {
    let mut e = engine_tracking(&[b"S"]);
    let done = e.process_events(&vec![Event::Synced {
        height: 20,
        tip: 20,
    }]);
    assert!(done);
    assert_eq!(e.last_sync_height, 20);
}

#[test]
fn synced_below_tip_continues_round() {
    let mut e = engine_tracking(&[b"S"]);
    let done = e.process_events(&vec![Event::Synced {
        height: 19,
        tip: 20,
    }]);
    assert!(!done);
    assert_eq!(e.last_sync_height, 19);
}

#[test]
fn process_events_stops_at_first_completion() {
    let mut e = engine_tracking(&[b"S"]);
    let done = e.process_events(&vec![
        Event::BlockConnected { height: 5 },
        Event::Synced { height: 5, tip: 5 },
        Event::BlockConnected { height: 9 },
    ]);
    assert!(done);
    // the event after the completing one is left for the next round
    assert_eq!(e.last_sync_height, 5);
}

#[test]
fn reapplying_matched_block_is_noop() {
    let mut e = engine_tracking(&[b"S"]);
    let event = Event::BlockMatched {
        height: 10,
        transactions: vec![
            tx(
                1,
                vec![outpoint(9, 3)],
                vec![(50000, script(b"S")), (70, script(b"untracked"))],
            ),
            tx(2, vec![outpoint(8, 0)], vec![(600, script(b"S"))]),
        ],
    };
    e.process_event(&event);
    let utxos_once: Vec<(Vec<u8>, u32, u64, Vec<u8>, u32)> = e
        .wallet
        .utxos
        .iter()
        .map(|u| {
            (
                u.outpoint.txid.bytes.clone(),
                u.outpoint.vout,
                u.amount,
                u.script.bytes.clone(),
                u.height,
            )
        })
        .collect();
    let records_once = e.wallet.transactions.len();
    e.process_event(&event);
    let utxos_twice: Vec<(Vec<u8>, u32, u64, Vec<u8>, u32)> = e
        .wallet
        .utxos
        .iter()
        .map(|u| {
            (
                u.outpoint.txid.bytes.clone(),
                u.outpoint.vout,
                u.amount,
                u.script.bytes.clone(),
                u.height,
            )
        })
        .collect();
    assert_eq!(utxos_once, utxos_twice);
    assert_eq!(e.wallet.transactions.len(), records_once);
}

#[test]
fn cursor_never_decreases_without_disconnect() {
    let mut e = engine_tracking(&[b"S"]);
    let events = vec![
        Event::Ready {
            tip: 3,
            filter_tip: 3,
        },
        Event::BlockConnected { height: 5 },
        Event::PeerHeightUpdated { height: 2 },
        Event::BlockConnected { height: 3 },
        Event::FeeEstimated {
            height: 5,
            fees: fee(1, 2, 3),
        },
        Event::Synced { height: 7, tip: 9 },
        Event::BlockConnected { height: 6 },
    ];
    let mut prev = e.last_sync_height;
    for ev in &events {
        e.process_event(ev);
        assert!(e.last_sync_height >= prev);
        prev = e.last_sync_height;
    }
    assert_eq!(e.last_sync_height, 7);
}

#[test]
fn block_connected_advances_cursor_only_forward() {
    let mut e = engine_tracking(&[]);
    e.process_event(&Event::BlockConnected { height: 8 });
    assert_eq!(e.last_sync_height, 8);
    e.process_event(&Event::BlockConnected { height: 4 });
    assert_eq!(e.last_sync_height, 8);
}

#[test]
fn disconnect_of_same_height_chain_removes_everything() {
    // T1 creates at height 10 and T2 spends it in the same block; a
    // disconnection of height 10 restores nothing created there
    let mut e = engine_tracking(&[b"S"]);
    let t1 = tx(1, vec![], vec![(50000, script(b"S"))]);
    let t2 = tx(2, vec![outpoint(1, 0)], vec![(40000, script(b"S"))]);
    e.process_event(&Event::BlockMatched {
        height: 10,
        transactions: vec![t1, t2],
    });
    assert_eq!(e.wallet.utxos.len(), 1);
    e.process_event(&Event::BlockDisconnected { height: 10 });
    assert_eq!(e.wallet.utxos.len(), 0);
    assert_eq!(e.wallet.transactions.len(), 0);
    assert_eq!(e.last_sync_height, 9);
}

#[test]
fn fee_estimate_replaced_on_duplicate_height() {
    let mut e = engine_tracking(&[]);
    e.process_event(&Event::FeeEstimated {
        height: 100,
        fees: fee(1, 2, 3),
    });
    e.process_event(&Event::FeeEstimated {
        height: 100,
        fees: fee(4, 5, 6),
    });
    assert_eq!(e.fee_estimate_at(100), Some(fee(4, 5, 6)));
    assert_eq!(e.fee_data.len(), 1);
    assert_eq!(e.fee_estimate_at(101), None);
}

#[test]
fn fee_entry_removed_on_disconnect() {
    let mut e = engine_tracking(&[]);
    e.add_fee_data(100, fee(1, 2, 3));
    e.add_fee_data(99, fee(7, 8, 9));
    e.process_event(&Event::BlockDisconnected { height: 100 });
    assert_eq!(e.fee_estimate_at(100), None);
    assert_eq!(e.fee_estimate_at(99), Some(fee(7, 8, 9)));
    assert_eq!(e.last_sync_height, 99);
}

#[test]
fn error_conversions_keep_the_kind() {
    let a = CbfSyncError::from(SyncEngineError::Timeout);
    assert_eq!(a, CbfSyncError::SyncEngine(SyncEngineError::Timeout));
    let b = CbfSyncError::from(WalletStoreError::WriteFailed);
    assert_eq!(b, CbfSyncError::Wallet(WalletStoreError::WriteFailed));
    let c = CbfSyncError::from(SyncEngineError::ChannelClosed);
    assert_eq!(c, CbfSyncError::SyncEngine(SyncEngineError::ChannelClosed));
    let d = CbfSyncError::from(SyncEngineError::Connectivity);
    assert_eq!(d, CbfSyncError::SyncEngine(SyncEngineError::Connectivity));
}

#[test]
fn add_utxo_ignores_duplicate_outpoint() {
    let mut w = WalletStore::new();
    w.add_utxo(cbf_sync::types::Utxo {
        outpoint: outpoint(1, 0),
        amount: 10,
        script: script(b"a"),
        height: 1,
    });
    w.add_utxo(cbf_sync::types::Utxo {
        outpoint: outpoint(1, 0),
        amount: 99,
        script: script(b"b"),
        height: 2,
    });
    assert_eq!(w.utxos.len(), 1);
    assert_eq!(w.utxos[0].amount, 10);
}

#[test]
fn remove_utxo_of_absent_outpoint_is_noop() {
    let mut w = WalletStore::new();
    w.add_utxo(cbf_sync::types::Utxo {
        outpoint: outpoint(1, 0),
        amount: 10,
        script: script(b"a"),
        height: 1,
    });
    w.remove_utxo(&outpoint(2, 0));
    assert_eq!(w.utxos.len(), 1);
    w.remove_utxo(&outpoint(1, 0));
    assert_eq!(w.utxos.len(), 0);
    w.remove_utxo(&outpoint(1, 0));
    assert_eq!(w.utxos.len(), 0);
}

#[test]
fn store_transaction_deduplicates_by_txid() {
    let mut w = WalletStore::new();
    let rec = TrackedTransaction {
        tx: tx(1, vec![], vec![(5, script(b"a"))]),
        height: 10,
        created: vec![],
        consumed: vec![],
    };
    w.store_transaction(rec.duplicate());
    w.store_transaction(rec);
    assert_eq!(w.transactions.len(), 1);
}

#[test]
fn transactions_at_height_filters_by_height() {
    let mut w = WalletStore::new();
    for (id, h) in [(1u8, 10u32), (2, 11), (3, 10)] {
        w.store_transaction(TrackedTransaction {
            tx: tx(id, vec![], vec![]),
            height: h,
            created: vec![],
            consumed: vec![],
        });
    }
    let at10 = w.transactions_at_height(10);
    assert_eq!(at10.len(), 2);
    assert_eq!(at10[0].tx.txid.bytes, vec![1u8; 32]);
    assert_eq!(at10[1].tx.txid.bytes, vec![3u8; 32]);
    assert_eq!(w.transactions_at_height(12).len(), 0);
}

#[test]
fn remove_transaction_drops_only_that_id() {
    let mut w = WalletStore::new();
    for id in [1u8, 2] {
        w.store_transaction(TrackedTransaction {
            tx: tx(id, vec![], vec![]),
            height: 10,
            created: vec![],
            consumed: vec![],
        });
    }
    w.remove_transaction(&txid(1));
    assert_eq!(w.transactions.len(), 1);
    assert_eq!(w.transactions[0].tx.txid.bytes, vec![2u8; 32]);
}

#[test]
fn track_script_deduplicates() {
    let mut w = WalletStore::new();
    w.track_script(script(b"S"));
    w.track_script(script(b"S"));
    w.track_script(script(b"T"));
    assert_eq!(w.tracked_scripts.len(), 2);
    assert!(w.is_script_tracked(&script(b"S")));
    assert!(w.is_script_tracked(&script(b"T")));
    assert!(!w.is_script_tracked(&script(b"U")));
}

#[test]
fn scan_carries_cursor_and_tracked_scripts() {
    let mut e = engine_tracking(&[b"S", b"T"]);
    e.initialize_cbf_sync(123);
    assert_eq!(e.last_sync_height, 123);
    let req = e.scan(123);
    assert_eq!(req.from_height, 123);
    assert_eq!(req.scripts.len(), 2);
    assert_eq!(req.scripts[0].bytes, b"S".to_vec());
    assert_eq!(req.scripts[1].bytes, b"T".to_vec());
}

#[test]
fn record_broadcast_appends_in_order() {
    let mut e = engine_tracking(&[]);
    e.record_broadcast(tx(1, vec![], vec![]));
    e.record_broadcast(tx(2, vec![], vec![]));
    assert_eq!(e.broadcasted_txs.len(), 2);
    assert_eq!(e.broadcasted_txs[0].txid.bytes, vec![1u8; 32]);
    assert_eq!(e.broadcasted_txs[1].txid.bytes, vec![2u8; 32]);
}

#[test]
fn informational_events_change_nothing() {
    let mut e = engine_tracking(&[b"S"]);
    e.process_event(&Event::BlockConnected { height: 5 });
    for ev in [
        Event::Ready {
            tip: 9,
            filter_tip: 9,
        },
        Event::PeerConnected,
        Event::PeerDisconnected,
        Event::PeerConnectionFailed,
        Event::PeerNegotiated { height: 50 },
        Event::PeerHeightUpdated { height: 50 },
        Event::FilterProcessed {
            height: 50,
            matched: true,
        },
        Event::TxStatusChanged,
    ] {
        let done = e.process_event(&ev);
        assert!(!done);
        assert_eq!(e.last_sync_height, 5);
        assert_eq!(e.wallet.utxos.len(), 0);
        assert_eq!(e.fee_data.len(), 0);
    }
}

#[test]
fn matcher_keeps_transaction_output_order() {
    let mut e = engine_tracking(&[b"S"]);
    let t = tx(
        1,
        vec![],
        vec![
            (10, script(b"S")),
            (20, script(b"untracked")),
            (30, script(b"S")),
        ],
    );
    e.process_event(&Event::BlockMatched {
        height: 7,
        transactions: vec![t],
    });
    assert_eq!(e.wallet.utxos.len(), 2);
    assert_eq!(e.wallet.utxos[0].outpoint.vout, 0);
    assert_eq!(e.wallet.utxos[0].amount, 10);
    assert_eq!(e.wallet.utxos[1].outpoint.vout, 2);
    assert_eq!(e.wallet.utxos[1].amount, 30);
}

#[test]
fn byte_and_outpoint_equality() {
    assert!(bytes_eq(&vec![1, 2, 3], &vec![1, 2, 3]));
    assert!(!bytes_eq(&vec![1, 2, 3], &vec![1, 2, 4]));
    assert!(!bytes_eq(&vec![1, 2], &vec![1, 2, 3]));
    assert!(outpoint_eq(&outpoint(1, 0), &outpoint(1, 0)));
    assert!(!outpoint_eq(&outpoint(1, 0), &outpoint(1, 1)));
    assert!(!outpoint_eq(&outpoint(1, 0), &outpoint(2, 0)));
}

#[test]
fn reorged_block_conserves_the_utxo_set() {
    // a block at a fresh height is matched and then disconnected; the
    // unspent outputs afterwards are exactly the ones before
    let mut e = engine_tracking(&[b"S"]);
    e.process_event(&Event::BlockMatched {
        height: 10,
        transactions: vec![tx(1, vec![], vec![(50000, script(b"S"))])],
    });
    let before: Vec<(Vec<u8>, u32, u64)> = e
        .wallet
        .utxos
        .iter()
        .map(|u| (u.outpoint.txid.bytes.clone(), u.outpoint.vout, u.amount))
        .collect();
    let records_before = e.wallet.transactions.len();
    // the reorged block spends T1:0 and pays the tracked script again
    let t2 = tx(
        2,
        vec![outpoint(1, 0)],
        vec![(49000, script(b"S")), (900, script(b"untracked"))],
    );
    e.process_event(&Event::BlockMatched {
        height: 12,
        transactions: vec![t2],
    });
    assert!(utxo_index(&e.wallet, 1, 0).is_none());
    assert!(utxo_index(&e.wallet, 2, 0).is_some());
    e.process_event(&Event::BlockDisconnected { height: 12 });
    let after: Vec<(Vec<u8>, u32, u64)> = e
        .wallet
        .utxos
        .iter()
        .map(|u| (u.outpoint.txid.bytes.clone(), u.outpoint.vout, u.amount))
        .collect();
    assert_eq!(before, after);
    assert_eq!(e.wallet.transactions.len(), records_before);
}

#[test]
fn disconnect_of_height_zero_keeps_cursor_at_zero() {
    let mut e = engine_tracking(&[]);
    e.process_event(&Event::BlockDisconnected { height: 0 });
    assert_eq!(e.last_sync_height, 0);
}
