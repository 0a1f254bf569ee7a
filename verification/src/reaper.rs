//! The reaper: on a fixed cadence it sweeps the pending registry for
//! records older than the confirmation timeout and publishes one timed-out
//! outcome per swept record.  A record the scanner never matched is thereby
//! guaranteed exactly one terminal outcome.

use vstd::prelude::*;
use crate::records::{ConfirmRecordV, SendRecordV, TransactionConfirmRecord, TransactionSendRecord};
use crate::registry::{expired, live_after, PendingRegistry};

verus! {

/// How long a record may stay pending before it is reaped, in milliseconds.
pub const REAP_TIMEOUT_MS: u64 = 120_000;

/// How often the reaper sweeps, in milliseconds.
pub const REAP_INTERVAL_MS: u64 = 10_000;

/// The fixed error text of a timed-out outcome: the bytes of "timeout".
pub open spec fn timeout_marker() -> Seq<u8> {
    seq![116u8, 105u8, 109u8, 101u8, 111u8, 117u8, 116u8]
}

/// The bytes of the timeout marker.
pub fn timeout_marker_bytes() -> (r: Vec<u8>)
    ensures
        r@ == timeout_marker(),
{
    let mut r: Vec<u8> = Vec::new();
    r.push(116);
    r.push(105);
    r.push(109);
    r.push(101);
    r.push(111);
    r.push(117);
    r.push(116);
    proof {
        assert(r@ =~= timeout_marker());
    }
    r
}

/// The outcome reported for a record that timed out: every confirmation
/// field absent, the timeout marker as error text.
pub open spec fn timeout_outcome_of(record: SendRecordV) -> ConfirmRecordV {
    ConfirmRecordV {
        signature: record.signature,
        confirmed_slot: None,
        confirmed_at: None,
        sent_at: record.sent_at,
        sent_slot: record.sent_slot,
        successful: false,
        error: Some(timeout_marker()),
        block_hash: None,
        market: record.market,
        user: record.user,
        slot_processed: None,
        slot_leader: None,
        timed_out: true,
        priority_fees: record.priority_fees,
    }
}

/// Builds the timed-out outcome for one swept record.
pub fn make_timeout_outcome(record: TransactionSendRecord) -> (r: TransactionConfirmRecord)
    ensures
        r@ == timeout_outcome_of(record@),
        r@.wf(),
{
    TransactionConfirmRecord {
        signature: record.signature,
        confirmed_slot: None,
        confirmed_at: None,
        sent_at: record.sent_at,
        sent_slot: record.sent_slot,
        successful: false,
        error: Some(timeout_marker_bytes()),
        block_hash: None,
        market: record.market,
        user: record.user,
        slot_processed: None,
        slot_leader: None,
        timed_out: true,
        priority_fees: record.priority_fees,
    }
}

/// One reaper pass at instant `now`: removes every record whose age
/// exceeds `timeout_ms` and returns exactly one timed-out outcome per
/// removed record.  Records not yet expired stay untouched.
pub fn reap(registry: &mut PendingRegistry, now: u64, timeout_ms: u64) -> (r: Vec<
    TransactionConfirmRecord,
>)
    requires
        old(registry).wf(),
    ensures
        final(registry).wf(),
        final(registry)@ == live_after(old(registry)@, now, timeout_ms),
        forall|j: int|
            0 <= j < r@.len() ==> old(registry)@.contains_key(#[trigger] r@[j]@.signature)
                && expired(old(registry)@[r@[j]@.signature].inserted_at, now, timeout_ms)
                && r@[j]@ == timeout_outcome_of(old(registry)@[r@[j]@.signature].record)
                && r@[j]@.wf(),
        forall|a: int, b: int|
            0 <= a < b < r@.len() ==> #[trigger] r@[a]@.signature != #[trigger] r@[b]@.signature,
        forall|k: Seq<u8>|
            old(registry)@.contains_key(k) && expired(
                #[trigger] old(registry)@[k].inserted_at,
                now,
                timeout_ms,
            ) ==> exists|j: int| 0 <= j < r@.len() && #[trigger] r@[j]@.signature == k,
{
    let mut swept = registry.sweep(now, timeout_ms);
    let ghost swept0 = swept@;
    let ghost n = swept0.len();
    let mut out: Vec<TransactionConfirmRecord> = Vec::new();
    proof {
        assert(swept@ =~= swept0.take(swept@.len() as int));
    }
    while swept.len() > 0
        invariant
            n == swept0.len(),
            out@.len() + swept@.len() == n,
            swept@ =~= swept0.take(swept@.len() as int),
            forall|j: int|
                0 <= j < out@.len() ==> #[trigger] out@[j]@ == timeout_outcome_of(
                    swept0[n - 1 - j]@,
                ),
        decreases swept@.len(),
    {
        let ghost m = swept@.len() as int;
        let ghost pre = swept@;
        let rec = swept.pop().unwrap();
        proof {
            broadcast use vstd::seq::group_seq_axioms;

            assert(m <= n);
            assert(pre =~= swept0.take(m));
            assert(rec == pre[m - 1]);
            assert(swept0.take(m)[m - 1] == swept0[m - 1]);
            assert(swept@ =~= swept0.take(m - 1));
        }
        out.push(make_timeout_outcome(rec));
        proof {
            assert(out@.len() + m - 1 == n);
            assert(out@[out@.len() - 1]@ == timeout_outcome_of(swept0[m - 1]@));
            assert(m - 1 == n - 1 - (out@.len() - 1));
        }
    }
    proof {
        assert(out@.len() == n);
        let sw = old(registry)@;
        assert forall|j: int|
            0 <= j < out@.len() implies sw.contains_key(#[trigger] out@[j]@.signature) && expired(
            sw[out@[j]@.signature].inserted_at,
            now,
            timeout_ms,
        ) && out@[j]@ == timeout_outcome_of(sw[out@[j]@.signature].record) && out@[j]@.wf() by {
            let i = n - 1 - j;
            assert(out@[j]@ == timeout_outcome_of(swept0[i]@));
            assert(out@[j]@.signature == swept0[i]@.signature);
        }
        assert forall|a: int, b: int|
            0 <= a < b < out@.len() implies #[trigger] out@[a]@.signature
            != #[trigger] out@[b]@.signature by {
            assert(out@[a]@.signature == swept0[n - 1 - a]@.signature);
            assert(out@[b]@.signature == swept0[n - 1 - b]@.signature);
        }
        assert forall|k: Seq<u8>|
            old(registry)@.contains_key(k) && expired(
                #[trigger] old(registry)@[k].inserted_at,
                now,
                timeout_ms,
            ) implies exists|j: int| 0 <= j < out@.len() && #[trigger] out@[j]@.signature == k by {
            let i = choose|i: int| 0 <= i < swept0.len() && #[trigger] swept0[i]@.signature == k;
            let j = n - 1 - i;
            assert(out@[j]@.signature == swept0[i]@.signature);
        }
    }
    out
}

} // verus!
