//! The two record types that flow through the engine: what is known about a
//! transaction when it is dispatched, and what is reported once its fate is
//! settled.  Text (signatures, keys, error renderings) is carried as UTF-8
//! bytes; instants are milliseconds of wall-clock time.

use vstd::prelude::*;

verus! {

/// Ghost image of a [`TransactionSendRecord`].
pub ghost struct SendRecordV {
    pub signature: Seq<u8>,
    pub sent_at: u64,
    pub sent_slot: u64,
    pub market: Option<Seq<u8>>,
    pub user: Option<Seq<u8>>,
    pub priority_fees: Option<u64>,
}

/// Everything known about a transaction at the moment it is dispatched.
/// One is created per dispatch attempt and owned by the pending registry
/// until the scanner matches it or the reaper times it out.
pub struct TransactionSendRecord {
    /// The transaction's signature: its unique key in the registry.
    pub signature: Vec<u8>,
    /// Wall-clock submission time, in milliseconds.
    pub sent_at: u64,
    /// The slot current at submission.
    pub sent_slot: u64,
    /// The market the transaction cranks, if any.
    pub market: Option<Vec<u8>>,
    /// The user on whose behalf it was sent, if any.
    pub user: Option<Vec<u8>>,
    /// The priority fee paid, if any.
    pub priority_fees: Option<u64>,
}

pub open spec fn opt_bytes_view(o: Option<Vec<u8>>) -> Option<Seq<u8>> {
    match o {
        Some(v) => Some(v@),
        None => None,
    }
}

impl View for TransactionSendRecord {
    type V = SendRecordV;

    open spec fn view(&self) -> SendRecordV {
        SendRecordV {
            signature: self.signature@,
            sent_at: self.sent_at,
            sent_slot: self.sent_slot,
            market: opt_bytes_view(self.market),
            user: opt_bytes_view(self.user),
            priority_fees: self.priority_fees,
        }
    }
}

/// Ghost image of a [`TransactionConfirmRecord`].
pub ghost struct ConfirmRecordV {
    pub signature: Seq<u8>,
    pub confirmed_slot: Option<u64>,
    pub confirmed_at: Option<u64>,
    pub sent_at: u64,
    pub sent_slot: u64,
    pub successful: bool,
    pub error: Option<Seq<u8>>,
    pub block_hash: Option<Seq<u8>>,
    pub market: Option<Seq<u8>>,
    pub user: Option<Seq<u8>>,
    pub slot_processed: Option<u64>,
    pub slot_leader: Option<Seq<u8>>,
    pub timed_out: bool,
    pub priority_fees: Option<u64>,
}

/// The terminal outcome of one dispatched transaction: either confirmed in
/// a block (`timed_out == false`, the confirmation fields present) or given
/// up on by the reaper (`timed_out == true`, the confirmation fields absent).
/// Exactly one is produced per registered record.
pub struct TransactionConfirmRecord {
    pub signature: Vec<u8>,
    pub confirmed_slot: Option<u64>,
    pub confirmed_at: Option<u64>,
    pub sent_at: u64,
    pub sent_slot: u64,
    pub successful: bool,
    pub error: Option<Vec<u8>>,
    pub block_hash: Option<Vec<u8>>,
    pub market: Option<Vec<u8>>,
    pub user: Option<Vec<u8>>,
    pub slot_processed: Option<u64>,
    pub slot_leader: Option<Vec<u8>>,
    pub timed_out: bool,
    pub priority_fees: Option<u64>,
}

impl View for TransactionConfirmRecord {
    type V = ConfirmRecordV;

    open spec fn view(&self) -> ConfirmRecordV {
        ConfirmRecordV {
            signature: self.signature@,
            confirmed_slot: self.confirmed_slot,
            confirmed_at: self.confirmed_at,
            sent_at: self.sent_at,
            sent_slot: self.sent_slot,
            successful: self.successful,
            error: opt_bytes_view(self.error),
            block_hash: opt_bytes_view(self.block_hash),
            market: opt_bytes_view(self.market),
            user: opt_bytes_view(self.user),
            slot_processed: self.slot_processed,
            slot_leader: opt_bytes_view(self.slot_leader),
            timed_out: self.timed_out,
            priority_fees: self.priority_fees,
        }
    }
}

impl ConfirmRecordV {
    /// A record is well formed when it reports exactly one of the two fates:
    /// confirmed in a slot, or timed out.
    pub open spec fn wf(self) -> bool {
        self.timed_out <==> self.confirmed_slot is None
    }
}

/// Compares two byte strings for equality.
pub fn bytes_eq(a: &Vec<u8>, b: &Vec<u8>) -> (r: bool)
    ensures
        r <==> a@ == b@,
{
    if a.len() != b.len() {
        assert(a@ != b@) by {
            assert(a@.len() != b@.len());
        }
        return false;
    }
    let n: usize = a.len();
    let mut i: usize = 0;
    while i < n
        invariant
            n == a.len() == b.len(),
            i <= n,
            forall|j: int| 0 <= j < i ==> a@[j] == b@[j],
        decreases n - i,
    {
        if a[i] != b[i] {
            return false;
        }
        i += 1;
    }
    assert(a@ =~= b@);
    true
}

/// Copies a byte string.
pub fn copy_bytes(v: &Vec<u8>) -> (r: Vec<u8>)
    ensures
        r@ == v@,
{
    let mut r: Vec<u8> = Vec::new();
    let n: usize = v.len();
    let mut i: usize = 0;
    while i < n
        invariant
            n == v.len(),
            i <= n,
            r@ =~= v@.take(i as int),
        decreases n - i,
    {
        r.push(v[i]);
        i += 1;
    }
    assert(r@ =~= v@);
    r
}

/// Copies an optional byte string.
pub fn copy_opt_bytes(v: &Option<Vec<u8>>) -> (r: Option<Vec<u8>>)
    ensures
        opt_bytes_view(r) == match v {
            Some(b) => Some(b@),
            None => None::<Seq<u8>>,
        },
{
    match v {
        Some(b) => Some(copy_bytes(b)),
        None => None,
    }
}

impl TransactionSendRecord {
    /// Copies a send record.
    pub fn duplicate(&self) -> (r: Self)
        ensures
            r@ == self@,
    {
        TransactionSendRecord {
            signature: copy_bytes(&self.signature),
            sent_at: self.sent_at,
            sent_slot: self.sent_slot,
            market: copy_opt_bytes(&self.market),
            user: copy_opt_bytes(&self.user),
            priority_fees: self.priority_fees,
        }
    }
}

} // verus!
