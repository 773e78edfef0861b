//! Plain data types the engine works on: scripts, transaction ids,
//! outpoints, transactions, unspent outputs, fee estimates and errors.

use vstd::prelude::*;

verus! {

/// An output script the wallet may track, held as its raw bytes.
pub struct Script {
    pub bytes: Vec<u8>,
}

impl View for Script {
    type V = Seq<u8>;

    open spec fn view(&self) -> Seq<u8> {
        self.bytes@
    }
}

impl Script {
    /// A value-preserving copy.
    pub fn duplicate(&self) -> (r: Script)
        ensures
            r@ == self@,
    {
        Script { bytes: copy_bytes(&self.bytes) }
    }
}

/// A transaction identifier, held as its raw bytes.
pub struct Txid {
    pub bytes: Vec<u8>,
}

impl View for Txid {
    type V = Seq<u8>;

    open spec fn view(&self) -> Seq<u8> {
        self.bytes@
    }
}

impl Txid {
    /// A value-preserving copy.
    pub fn duplicate(&self) -> (r: Txid)
        ensures
            r@ == self@,
    {
        Txid { bytes: copy_bytes(&self.bytes) }
    }
}

/// The ghost value of an outpoint: a transaction id and an output index.
#[verifier::ext_equal]
pub ghost struct OutPointModel {
    pub txid: Seq<u8>,
    pub vout: u32,
}

/// A reference to one output of one transaction.
pub struct OutPoint {
    pub txid: Txid,
    pub vout: u32,
}

impl View for OutPoint {
    type V = OutPointModel;

    open spec fn view(&self) -> OutPointModel {
        OutPointModel { txid: self.txid@, vout: self.vout }
    }
}

impl OutPoint {
    /// A value-preserving copy.
    pub fn duplicate(&self) -> (r: OutPoint)
        ensures
            r@ == self@,
    {
        OutPoint { txid: self.txid.duplicate(), vout: self.vout }
    }
}

/// One output of a transaction: an amount and the script it pays.
pub struct TxOut {
    pub amount: u64,
    pub script: Script,
}

/// One input of a transaction: the outpoint it spends.
pub struct TxIn {
    pub previous_output: OutPoint,
}

/// A transaction as the engine reads it: its id, the outpoints its inputs
/// spend, and its outputs in order.
pub struct TxData {
    pub txid: Txid,
    pub inputs: Vec<TxIn>,
    pub outputs: Vec<TxOut>,
}

impl TxData {
    /// A copy that preserves the id and, position by position, what each
    /// input spends and what each output pays.
    pub fn duplicate(&self) -> (r: TxData)
        ensures
            r.txid@ == self.txid@,
            r.inputs@.len() == self.inputs@.len(),
            forall|i: int|
                0 <= i < self.inputs@.len() ==> r.inputs@[i].previous_output@
                    == self.inputs@[i].previous_output@,
            r.outputs@.len() == self.outputs@.len(),
            forall|i: int|
                0 <= i < self.outputs@.len() ==> r.outputs@[i].amount == self.outputs@[i].amount
                    && r.outputs@[i].script@ == self.outputs@[i].script@,
    {
        let mut inputs: Vec<TxIn> = Vec::new();
        let mut i: usize = 0;
        while i < self.inputs.len()
            invariant
                i <= self.inputs@.len(),
                inputs@.len() == i,
                forall|j: int|
                    0 <= j < i ==> inputs@[j].previous_output@
                        == self.inputs@[j].previous_output@,
            decreases self.inputs@.len() - i,
        {
            inputs.push(TxIn { previous_output: self.inputs[i].previous_output.duplicate() });
            i = i + 1;
        }
        let mut outputs: Vec<TxOut> = Vec::new();
        let mut k: usize = 0;
        while k < self.outputs.len()
            invariant
                k <= self.outputs@.len(),
                outputs@.len() == k,
                forall|j: int|
                    0 <= j < k ==> outputs@[j].amount == self.outputs@[j].amount
                        && outputs@[j].script@ == self.outputs@[j].script@,
            decreases self.outputs@.len() - k,
        {
            outputs.push(
                TxOut {
                    amount: self.outputs[k].amount,
                    script: self.outputs[k].script.duplicate(),
                },
            );
            k = k + 1;
        }
        TxData { txid: self.txid.duplicate(), inputs, outputs }
    }
}

/// The ghost value of an unspent output held by the wallet.
#[verifier::ext_equal]
pub ghost struct UtxoModel {
    pub outpoint: OutPointModel,
    pub amount: u64,
    pub script: Seq<u8>,
    pub height: u32,
}

/// An unspent output the wallet holds: where it came from, its amount, the
/// tracked script it pays, and the height of the block that created it.
pub struct Utxo {
    pub outpoint: OutPoint,
    pub amount: u64,
    pub script: Script,
    pub height: u32,
}

impl View for Utxo {
    type V = UtxoModel;

    open spec fn view(&self) -> UtxoModel {
        UtxoModel {
            outpoint: self.outpoint@,
            amount: self.amount,
            script: self.script@,
            height: self.height,
        }
    }
}

impl Utxo {
    /// A value-preserving copy.
    pub fn duplicate(&self) -> (r: Utxo)
        ensures
            r@ == self@,
    {
        Utxo {
            outpoint: self.outpoint.duplicate(),
            amount: self.amount,
            script: self.script.duplicate(),
            height: self.height,
        }
    }
}

/// A fee estimate for one block.
#[derive(Clone, Copy, Debug, PartialEq, Eq, Structural)]
pub struct FeeEstimate {
    pub low: u64,
    pub median: u64,
    pub high: u64,
}

/// Failures of the sync-engine collaborator.
#[derive(Clone, Copy, Debug, PartialEq, Eq, Structural)]
pub enum SyncEngineError {
    /// The engine could not be started or no peer connection was possible.
    Connectivity,
    /// A command to the engine exceeded its bounded timeout.
    Timeout,
    /// The engine terminated and its event channel is closed.
    ChannelClosed,
}

/// Failures of the wallet-store collaborator.
#[derive(Clone, Copy, Debug, PartialEq, Eq, Structural)]
pub enum WalletStoreError {
    /// A read of tracked-script state failed.
    ReadFailed,
    /// A write of a UTXO or transaction record failed.
    WriteFailed,
}

/// The error type of a synchronization round.
#[derive(Clone, Copy, Debug, PartialEq, Eq, Structural)]
pub enum CbfSyncError {
    SyncEngine(SyncEngineError),
    Wallet(WalletStoreError),
}

impl From<SyncEngineError> for CbfSyncError {
    fn from(err: SyncEngineError) -> (r: CbfSyncError) {
        CbfSyncError::SyncEngine(err)
    }
}

impl vstd::std_specs::convert::FromSpecImpl<SyncEngineError> for CbfSyncError {
    open spec fn obeys_from_spec() -> bool {
        true
    }

    open spec fn from_spec(err: SyncEngineError) -> CbfSyncError {
        CbfSyncError::SyncEngine(err)
    }
}

impl From<WalletStoreError> for CbfSyncError {
    fn from(err: WalletStoreError) -> (r: CbfSyncError) {
        CbfSyncError::Wallet(err)
    }
}

impl vstd::std_specs::convert::FromSpecImpl<WalletStoreError> for CbfSyncError {
    open spec fn obeys_from_spec() -> bool {
        true
    }

    open spec fn from_spec(err: WalletStoreError) -> CbfSyncError {
        CbfSyncError::Wallet(err)
    }
}

/// A value-preserving copy of a byte vector.
pub fn copy_bytes(v: &Vec<u8>) -> (r: Vec<u8>)
    ensures
        r@ == v@,
{
    let mut r: Vec<u8> = Vec::new();
    let mut i: usize = 0;
    while i < v.len()
        invariant
            i <= v.len(),
            r@ == v@.take(i as int),
        decreases v.len() - i,
    {
        r.push(v[i]);
        proof {
            assert(v@.take(i + 1 as int) =~= v@.take(i as int).push(v@[i as int]));
        }
        i = i + 1;
    }
    proof {
        assert(v@.take(v@.len() as int) =~= v@);
    }
    r
}

/// Whether two byte vectors hold the same bytes.
pub fn bytes_eq(a: &Vec<u8>, b: &Vec<u8>) -> (r: bool)
    ensures
        r == (a@ == b@),
{
    if a.len() != b.len() {
        proof {
            assert(a@ != b@) by {
                assert(a@.len() != b@.len());
            }
        }
        return false;
    }
    let mut i: usize = 0;
    while i < a.len()
        invariant
            i <= a.len(),
            a@.len() == b@.len(),
            forall|j: int| 0 <= j < i ==> a@[j] == b@[j],
        decreases a.len() - i,
    {
        if a[i] != b[i] {
            proof {
                assert(a@ != b@) by {
                    assert(a@[i as int] != b@[i as int]);
                }
            }
            return false;
        }
        i = i + 1;
    }
    proof {
        assert(a@ =~= b@);
    }
    true
}

/// Whether two outpoints refer to the same output.
pub fn outpoint_eq(a: &OutPoint, b: &OutPoint) -> (r: bool)
    ensures
        r == (a@ == b@),
{
    let r = a.vout == b.vout && bytes_eq(&a.txid.bytes, &b.txid.bytes);
    proof {
        if a.vout == b.vout && a.txid@ == b.txid@ {
            assert(a@ =~= b@);
        }
    }
    r
}

} // verus!
