//! The dispatch layer.  Two submission strategies share one contract:
//! whatever the transport reports, the dispatched record enters the pending
//! registry and the sent counter moves exactly once — losing track of a
//! submitted transaction is strictly worse than tracking one that never
//! left the process.  The fanout strategy additionally owns a resettable
//! connection policy: consecutive transport errors beyond a threshold, or a
//! periodic timer, force the connection handle to be rebuilt.

use vstd::prelude::*;
use crate::records::{SendRecordV, TransactionSendRecord};
use crate::registry::{PendingEntryV, PendingRegistry};
use crate::scanner::{sat_add, sat_add_u64};
use crate::stats::{CrankStats, NACountersV};

verus! {

pub open spec fn send_record_views(s: Seq<TransactionSendRecord>) -> Seq<SendRecordV> {
    Seq::new(s.len(), |i: int| s[i]@)
}

/// The registry after a whole batch is registered, in order: every record
/// stored under its signature at instant `now`, later records overriding
/// earlier ones.
pub open spec fn insert_all(
    m: Map<Seq<u8>, PendingEntryV>,
    recs: Seq<SendRecordV>,
    now: u64,
) -> Map<Seq<u8>, PendingEntryV>
    decreases recs.len(),
{
    if recs.len() == 0 {
        m
    } else {
        insert_all(m, recs.drop_last(), now).insert(
            recs.last().signature,
            PendingEntryV { record: recs.last(), inserted_at: now },
        )
    }
}

/// The sent counter after `n` more attempts, each counted with the
/// saturating increment.
pub open spec fn sent_after(s: u64, n: int) -> u64
    decreases n,
{
    if n <= 0 {
        s
    } else {
        sat_add(sent_after(s, n - 1), 1)
    }
}

/// How many consecutive transport errors the fanout client tolerates
/// before it rebuilds its connection.
pub const ERROR_THRESHOLD: u32 = 5;

/// How often the connection is rebuilt unconditionally, in milliseconds,
/// to bound the staleness of cached routing information.
pub const FORCED_RECONNECT_INTERVAL_MS: u64 = 600_000;

/// Books one dispatch attempt, whichever strategy carried it: the record
/// unconditionally enters the pending registry — a send that looked failed
/// may still land on chain — and the sent counter moves exactly once.  The
/// transport's verdict comes back unchanged for the caller to act on.
pub fn register_dispatch(
    registry: &mut PendingRegistry,
    stats: &mut CrankStats,
    record: TransactionSendRecord,
    now: u64,
    transport_ok: bool,
) -> (r: bool)
    requires
        old(registry).wf(),
        old(stats).wf(),
    ensures
        final(registry).wf(),
        final(stats).wf(),
        final(registry)@ == old(registry)@.insert(
            record@.signature,
            PendingEntryV { record: record@, inserted_at: now },
        ),
        final(stats)@.counters == (NACountersV {
            num_sent: sat_add(old(stats)@.counters.num_sent, 1),
            ..old(stats)@.counters
        }),
        final(stats)@.previous == old(stats)@.previous,
        r == transport_ok,
{
    registry.insert(record, now);
    stats.inc_send();
    transport_ok
}

/// Books one fanout batch: every record of the batch enters the registry
/// and is counted as sent, whatever the transport reported; a failed batch
/// additionally feeds the client's error policy, which may rebuild the
/// connection.  Yields the transport's verdict.
pub fn send_transaction_batch(
    registry: &mut PendingRegistry,
    stats: &mut CrankStats,
    tpu: &mut TpuManager,
    batch: Vec<TransactionSendRecord>,
    now: u64,
    transport_ok: bool,
) -> (r: bool)
    requires
        old(registry).wf(),
        old(stats).wf(),
    ensures
        final(registry).wf(),
        final(stats).wf(),
        final(registry)@ == insert_all(old(registry)@, send_record_views(batch@), now),
        final(stats)@.counters == (NACountersV {
            num_sent: sent_after(old(stats)@.counters.num_sent, batch@.len() as int),
            ..old(stats)@.counters
        }),
        final(stats)@.previous == old(stats)@.previous,
        transport_ok ==> *final(tpu) == *old(tpu),
        !transport_ok ==> final(tpu).fanout_slots == old(tpu).fanout_slots
            && ((final(tpu).error_count == 0
                && final(tpu).generation == sat_add(old(tpu).generation, 1))
                || final(tpu).generation == old(tpu).generation),
        r == transport_ok,
{
    let ghost rv = send_record_views(batch@);
    let mut remaining = batch;
    let ghost mut i: int = 0;
    let ghost n = rv.len();
    proof {
        assert(send_record_views(remaining@) =~= rv.skip(0));
        assert(insert_all(old(registry)@, rv.take(0), now) == old(registry)@);
        assert(sent_after(old(stats)@.counters.num_sent, 0) == old(stats)@.counters.num_sent);
    }
    while remaining.len() > 0
        invariant
            registry.wf(),
            stats.wf(),
            n == rv.len(),
            0 <= i,
            i + remaining@.len() == n,
            send_record_views(remaining@) =~= rv.skip(i),
            registry@ == insert_all(old(registry)@, rv.take(i), now),
            stats@.counters == (NACountersV {
                num_sent: sent_after(old(stats)@.counters.num_sent, i),
                ..old(stats)@.counters
            }),
            stats@.previous == old(stats)@.previous,
        decreases remaining@.len(),
    {
        let ghost pre = remaining@;
        let record = remaining.remove(0);
        proof {
            broadcast use vstd::seq::group_seq_axioms;

            pre.remove_ensures(0);
            assert(remaining@ == pre.remove(0));
            assert(record == pre[0]);
            assert(record@ == send_record_views(pre)[0]);
            assert(rv.skip(i)[0] == rv[i]);
            assert(record@ == rv[i]);
            assert forall|j: int|
                0 <= j < remaining@.len() implies #[trigger] send_record_views(remaining@)[j]
                == rv.skip(i + 1)[j] by {
                assert(remaining@[j] == pre[j + 1]);
                assert(send_record_views(pre)[j + 1] == rv.skip(i)[j + 1]);
                assert(rv.skip(i)[j + 1] == rv[i + j + 1]);
                assert(rv.skip(i + 1)[j] == rv[i + 1 + j]);
            }
            assert(send_record_views(remaining@) =~= rv.skip(i + 1));
        }
        registry.insert(record, now);
        stats.inc_send();
        proof {
            assert(rv.take(i + 1).drop_last() =~= rv.take(i));
            assert(rv.take(i + 1).last() == rv[i]);
            i = i + 1;
        }
    }
    proof {
        assert(rv.take(n as int) =~= rv);
    }
    if !transport_ok {
        let _ = tpu.reset();
    }
    transport_ok
}

/// The fanout client's connection policy: a consecutive-error counter and
/// the generation number of the connection handle in use.  Rebuilding the
/// connection moves to the next generation and clears the counter; senders
/// always see one whole generation, old or new.
pub struct TpuManager {
    pub error_count: u32,
    pub fanout_slots: u64,
    pub generation: u64,
}

impl TpuManager {
    /// A fresh client policy: no errors seen, first connection generation.
    pub fn new(fanout_slots: u64) -> (r: Self)
        ensures
            r.error_count == 0,
            r.fanout_slots == fanout_slots,
            r.generation == 0,
    {
        TpuManager { error_count: 0, fanout_slots, generation: 0 }
    }

    /// Rebuilds the connection handle: the policy moves to the next
    /// generation and the consecutive-error counter returns to exactly 0.
    pub fn reset_tpu_client(&mut self)
        ensures
            final(self).error_count == 0,
            final(self).generation == sat_add(old(self).generation, 1),
            final(self).fanout_slots == old(self).fanout_slots,
    {
        self.generation = sat_add_u64(self.generation, 1);
        self.error_count = 0;
    }

    /// Notes one failed batch send and rebuilds the connection once the
    /// consecutive-error count exceeds the threshold.  Yields whether a
    /// rebuild happened; after a rebuild the counter is exactly 0 again.
    pub fn reset(&mut self) -> (did_reset: bool)
        ensures
            ({
                let bumped: u32 = if old(self).error_count == u32::MAX {
                    u32::MAX
                } else {
                    (old(self).error_count + 1) as u32
                };
                &&& did_reset == (bumped > ERROR_THRESHOLD)
                &&& final(self).fanout_slots == old(self).fanout_slots
                &&& (did_reset ==> final(self).error_count == 0 && final(self).generation
                    == sat_add(old(self).generation, 1))
                &&& (!did_reset ==> final(self).error_count == bumped && final(self).generation
                    == old(self).generation)
            }),
    {
        if self.error_count < u32::MAX {
            self.error_count = self.error_count + 1;
        }
        if self.error_count > ERROR_THRESHOLD {
            self.reset_tpu_client();
            true
        } else {
            false
        }
    }
}

} // verus!
