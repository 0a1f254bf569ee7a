//! The pending registry: a store of dispatched-transaction records keyed by
//! signature.  The dispatch layer inserts records; the block scanner removes
//! one record atomically when its signature is seen in a block; the reaper
//! removes every record older than a timeout in one atomic sweep.  Because a
//! record leaves the registry exactly once, whoever removed it is the only
//! party that ever reports its outcome.

use vstd::prelude::*;
use crate::records::{SendRecordV, TransactionSendRecord};

verus! {

/// Ghost image of a [`PendingEntry`].
pub ghost struct PendingEntryV {
    pub record: SendRecordV,
    pub inserted_at: u64,
}

/// A registered record together with the instant (milliseconds) at which it
/// entered the registry.
pub struct PendingEntry {
    pub record: TransactionSendRecord,
    pub inserted_at: u64,
}

impl View for PendingEntry {
    type V = PendingEntryV;

    open spec fn view(&self) -> PendingEntryV {
        PendingEntryV { record: self.record@, inserted_at: self.inserted_at }
    }
}

pub open spec fn entry_views(s: Seq<PendingEntry>) -> Seq<PendingEntryV> {
    Seq::new(s.len(), |i: int| s[i]@)
}

/// The mapping that a sequence of entries denotes: each entry stored under
/// its record's signature, later entries overriding earlier ones.
pub open spec fn map_of(s: Seq<PendingEntryV>) -> Map<Seq<u8>, PendingEntryV>
    decreases s.len(),
{
    if s.len() == 0 {
        Map::empty()
    } else {
        map_of(s.drop_last()).insert(s.last().record.signature, s.last())
    }
}

/// No two entries share a signature.
pub open spec fn unique_sigs(s: Seq<PendingEntryV>) -> bool {
    forall|i: int, j: int|
        0 <= i < j < s.len() ==> #[trigger] s[i].record.signature != #[trigger] s[j].record.signature
}

/// An entry inserted at `inserted_at` has outlived `timeout_ms` at `now`.
pub open spec fn expired(inserted_at: u64, now: u64, timeout_ms: u64) -> bool {
    inserted_at + timeout_ms < now
}

/// What survives a sweep at `now`: the entries not yet expired.
pub open spec fn live_after(
    m: Map<Seq<u8>, PendingEntryV>,
    now: u64,
    timeout_ms: u64,
) -> Map<Seq<u8>, PendingEntryV> {
    Map::new(
        |k: Seq<u8>| m.contains_key(k) && !expired(m[k].inserted_at, now, timeout_ms),
        |k: Seq<u8>| m[k],
    )
}

pub proof fn lemma_map_of_absent(s: Seq<PendingEntryV>, k: Seq<u8>)
    requires
        forall|i: int| 0 <= i < s.len() ==> #[trigger] s[i].record.signature != k,
    ensures
        !map_of(s).contains_key(k),
    decreases s.len(),
{
    if s.len() > 0 {
        assert(forall|i: int|
            0 <= i < s.drop_last().len() ==> #[trigger] s.drop_last()[i].record.signature != k);
        lemma_map_of_absent(s.drop_last(), k);
        assert(s.last().record.signature != k);
    }
}

pub proof fn lemma_map_of_index(s: Seq<PendingEntryV>, i: int)
    requires
        unique_sigs(s),
        0 <= i < s.len(),
    ensures
        map_of(s).contains_key(s[i].record.signature),
        map_of(s)[s[i].record.signature] == s[i],
    decreases s.len(),
{
    if i < s.len() - 1 {
        assert(unique_sigs(s.drop_last())) by {
            assert(forall|a: int, b: int|
                0 <= a < b < s.drop_last().len() ==> #[trigger] s.drop_last()[a].record.signature
                    != #[trigger] s.drop_last()[b].record.signature) by {
                assert(forall|a: int|
                    0 <= a < s.drop_last().len() ==> #[trigger] s.drop_last()[a] == s[a]);
            }
        }
        lemma_map_of_index(s.drop_last(), i);
        assert(s[i].record.signature != s.last().record.signature);
    }
}

pub proof fn lemma_map_of_dom(s: Seq<PendingEntryV>, k: Seq<u8>)
    requires
        map_of(s).contains_key(k),
    ensures
        exists|i: int| 0 <= i < s.len() && #[trigger] s[i].record.signature == k,
    decreases s.len(),
{
    if s.len() > 0 {
        if s.last().record.signature == k {
            assert(s[s.len() - 1].record.signature == k);
        } else {
            lemma_map_of_dom(s.drop_last(), k);
            let i = choose|i: int|
                0 <= i < s.drop_last().len() && #[trigger] s.drop_last()[i].record.signature == k;
            assert(s[i].record.signature == k);
        }
    }
}

pub proof fn lemma_map_of_remove(s: Seq<PendingEntryV>, i: int)
    requires
        unique_sigs(s),
        0 <= i < s.len(),
    ensures
        unique_sigs(s.remove(i)),
        map_of(s.remove(i)) == map_of(s).remove(s[i].record.signature),
    decreases s.len(),
{
    s.remove_ensures(i);
    assert(unique_sigs(s.remove(i))) by {
        assert(forall|a: int, b: int|
            0 <= a < b < s.remove(i).len() ==> #[trigger] s.remove(i)[a].record.signature
                != #[trigger] s.remove(i)[b].record.signature) by {
            assert(forall|a: int|
                0 <= a < s.remove(i).len() ==> #[trigger] s.remove(i)[a] == if a < i {
                    s[a]
                } else {
                    s[a + 1]
                });
        }
    }
    if i == s.len() - 1 {
        assert(s.remove(i) =~= s.drop_last());
        assert(forall|j: int|
            0 <= j < s.drop_last().len() ==> #[trigger] s.drop_last()[j].record.signature
                != s[i].record.signature);
        lemma_map_of_absent(s.drop_last(), s[i].record.signature);
        assert(map_of(s.drop_last()) =~= map_of(s).remove(s[i].record.signature));
    } else {
        assert(unique_sigs(s.drop_last())) by {
            assert(forall|a: int|
                0 <= a < s.drop_last().len() ==> #[trigger] s.drop_last()[a] == s[a]);
        }
        lemma_map_of_remove(s.drop_last(), i);
        assert(s.remove(i).drop_last() =~= s.drop_last().remove(i));
        assert(s.remove(i).len() == s.len() - 1);
        assert(s.remove(i).last() == s.last());
        assert(map_of(s.remove(i)) == map_of(s.drop_last().remove(i)).insert(
            s.last().record.signature,
            s.last(),
        ));
        assert(s[i].record.signature != s.last().record.signature);
        assert(map_of(s.drop_last()).remove(s[i].record.signature).insert(
            s.last().record.signature,
            s.last(),
        ) =~= map_of(s).remove(s[i].record.signature));
    }
}

/// The pending registry itself.  Its view is the mapping from signature to
/// stored entry; every operation's effect is stated on that view.
pub struct PendingRegistry {
    entries: Vec<PendingEntry>,
}

impl View for PendingRegistry {
    type V = Map<Seq<u8>, PendingEntryV>;

    closed spec fn view(&self) -> Map<Seq<u8>, PendingEntryV> {
        map_of(entry_views(self.entries@))
    }
}

impl PendingRegistry {
    /// Internal well-formedness: stored signatures are pairwise distinct.
    pub closed spec fn wf(&self) -> bool {
        unique_sigs(entry_views(self.entries@))
    }

    /// An empty registry.
    pub fn new() -> (r: Self)
        ensures
            r.wf(),
            r@ == Map::<Seq<u8>, PendingEntryV>::empty(),
    {
        PendingRegistry { entries: Vec::new() }
    }

    /// How many records are pending.
    pub fn len(&self) -> (r: usize)
        requires
            self.wf(),
        ensures
            r == self@.len(),
    {
        proof {
            lemma_map_of_len(entry_views(self.entries@));
        }
        self.entries.len()
    }

    /// The index of the entry stored under `signature`, if any.
    fn find_index(&self, signature: &Vec<u8>) -> (r: Option<usize>)
        ensures
            match r {
                Some(i) => i < self.entries@.len() && entry_views(
                    self.entries@,
                )[i as int].record.signature == signature@,
                None => forall|j: int|
                    0 <= j < self.entries@.len() ==> #[trigger] entry_views(
                        self.entries@,
                    )[j].record.signature != signature@,
            },
    {
        let n: usize = self.entries.len();
        let mut i: usize = 0;
        while i < n
            invariant
                n == self.entries@.len(),
                i <= n,
                forall|j: int|
                    0 <= j < i ==> #[trigger] entry_views(self.entries@)[j].record.signature
                        != signature@,
            decreases n - i,
        {
            if crate::records::bytes_eq(&self.entries[i].record.signature, signature) {
                return Some(i);
            }
            i += 1;
        }
        None
    }

    /// Atomically removes and returns the record stored under `signature`.
    /// Yields the record exactly when the signature is present; afterwards
    /// the signature is no longer in the registry.
    pub fn take_if_present(&mut self, signature: &Vec<u8>) -> (r: Option<TransactionSendRecord>)
        requires
            old(self).wf(),
        ensures
            final(self).wf(),
            match r {
                Some(rec) => old(self)@.contains_key(signature@) && rec@ == old(
                    self,
                )@[signature@].record && final(self)@ == old(self)@.remove(signature@),
                None => !old(self)@.contains_key(signature@) && final(self)@ == old(self)@,
            },
    {
        match self.find_index(signature) {
            Some(i) => {
                proof {
                    lemma_map_of_index(entry_views(self.entries@), i as int);
                    lemma_map_of_remove(entry_views(self.entries@), i as int);
                }
                let e = self.entries.remove(i);
                proof {
                    assert(entry_views(self.entries@) =~= entry_views(old(self).entries@).remove(
                        i as int,
                    ));
                }
                Some(e.record)
            },
            None => {
                proof {
                    lemma_map_of_absent(entry_views(self.entries@), signature@);
                }
                None
            },
        }
    }

    /// Registers a record under its signature at instant `now`, replacing any
    /// entry already stored under the same signature (last write wins).
    pub fn insert(&mut self, record: TransactionSendRecord, now: u64)
        requires
            old(self).wf(),
        ensures
            final(self).wf(),
            final(self)@ == old(self)@.insert(
                record@.signature,
                PendingEntryV { record: record@, inserted_at: now },
            ),
    {
        let _ = self.take_if_present(&record.signature);
        let ghost pre = entry_views(self.entries@);
        let ghost mid_map = self@;
        self.entries.push(PendingEntry { record, inserted_at: now });
        proof {
            let post = entry_views(self.entries@);
            assert(post.drop_last() =~= pre);
            assert(map_of(post) == mid_map.insert(post.last().record.signature, post.last()));
            assert(forall|j: int|
                0 <= j < pre.len() ==> #[trigger] pre[j].record.signature != post.last().record.signature)
                by {
                if exists|j: int|
                    0 <= j < pre.len() && #[trigger] pre[j].record.signature
                        == post.last().record.signature {
                    let j = choose|j: int|
                        0 <= j < pre.len() && #[trigger] pre[j].record.signature
                            == post.last().record.signature;
                    lemma_map_of_index(pre, j);
                }
            }
            assert(unique_sigs(post)) by {
                assert(forall|a: int| 0 <= a < pre.len() ==> #[trigger] post[a] == pre[a]) by {
                    assert(forall|a: int|
                        0 <= a < post.drop_last().len() ==> #[trigger] post.drop_last()[a]
                            == post[a]);
                }
            }
            assert(final(self)@ =~= old(self)@.insert(
                record@.signature,
                PendingEntryV { record: record@, inserted_at: now },
            ));
        }
    }

    /// The index of some expired entry, if one exists.
    fn find_expired_index(&self, now: u64, timeout_ms: u64) -> (r: Option<usize>)
        ensures
            match r {
                Some(i) => i < self.entries@.len() && expired(
                    entry_views(self.entries@)[i as int].inserted_at,
                    now,
                    timeout_ms,
                ),
                None => forall|j: int|
                    0 <= j < self.entries@.len() ==> !expired(
                        (#[trigger] entry_views(self.entries@)[j]).inserted_at,
                        now,
                        timeout_ms,
                    ),
            },
    {
        let n: usize = self.entries.len();
        let mut i: usize = 0;
        while i < n
            invariant
                n == self.entries@.len(),
                i <= n,
                forall|j: int|
                    0 <= j < i ==> !expired(
                        (#[trigger] entry_views(self.entries@)[j]).inserted_at,
                        now,
                        timeout_ms,
                    ),
            decreases n - i,
        {
            let e_at = self.entries[i].inserted_at;
            if now > timeout_ms && e_at < now - timeout_ms {
                return Some(i);
            }
            assert(!expired(entry_views(self.entries@)[i as int].inserted_at, now, timeout_ms));
            i += 1;
        }
        None
    }

    /// Atomically removes and returns every record whose age at `now`
    /// exceeds `timeout_ms`.  Afterwards the registry holds exactly the
    /// entries that were not yet expired; each expired record comes back
    /// exactly once.
    pub fn sweep(&mut self, now: u64, timeout_ms: u64) -> (r: Vec<TransactionSendRecord>)
        requires
            old(self).wf(),
        ensures
            final(self).wf(),
            final(self)@ == live_after(old(self)@, now, timeout_ms),
            forall|j: int|
                0 <= j < r@.len() ==> old(self)@.contains_key(#[trigger] r@[j]@.signature)
                    && expired(old(self)@[r@[j]@.signature].inserted_at, now, timeout_ms)
                    && r@[j]@ == old(self)@[r@[j]@.signature].record,
            forall|a: int, b: int|
                0 <= a < b < r@.len() ==> #[trigger] r@[a]@.signature != #[trigger] r@[b]@.signature,
            forall|k: Seq<u8>|
                old(self)@.contains_key(k) && expired(#[trigger] old(self)@[k].inserted_at, now, timeout_ms)
                    ==> exists|j: int| 0 <= j < r@.len() && #[trigger] r@[j]@.signature == k,
    {
        let mut swept: Vec<TransactionSendRecord> = Vec::new();
        loop
            invariant
                self.wf(),
                forall|k: Seq<u8>| #[trigger]
                    self@.contains_key(k) ==> old(self)@.contains_key(k) && self@[k] == old(
                        self,
                    )@[k],
                forall|k: Seq<u8>| #[trigger]
                    old(self)@.contains_key(k) ==> (self@.contains_key(k) <==> !(exists|j: int|
                        0 <= j < swept@.len() && #[trigger] swept@[j]@.signature == k)),
                forall|j: int|
                    0 <= j < swept@.len() ==> old(self)@.contains_key(#[trigger] swept@[j]@.signature)
                        && expired(old(self)@[swept@[j]@.signature].inserted_at, now, timeout_ms)
                        && swept@[j]@ == old(self)@[swept@[j]@.signature].record,
                forall|a: int, b: int|
                    0 <= a < b < swept@.len() ==> #[trigger] swept@[a]@.signature
                        != #[trigger] swept@[b]@.signature,
            decreases self.entries@.len(),
        {
            let ghost views = entry_views(self.entries@);
            let ghost self0 = self@;
            let ghost swept0 = swept@;
            let found = self.find_expired_index(now, timeout_ms);
            match found {
                Some(fi) => {
                    proof {
                        lemma_map_of_index(views, fi as int);
                        lemma_map_of_remove(views, fi as int);
                    }
                    let ghost removed_sig = views[fi as int].record.signature;
                    let e = self.entries.remove(fi);
                    proof {
                        assert(entry_views(self.entries@) =~= views.remove(fi as int));
                        assert(self@ == self0.remove(removed_sig));
                    }
                    swept.push(e.record);
                    proof {
                        assert(swept@[swept@.len() - 1]@.signature == removed_sig);
                        assert(forall|j: int|
                            0 <= j < swept@.len() - 1 ==> #[trigger] swept@[j] == swept0[j]);
                        assert(self0.contains_key(removed_sig));
                        assert(forall|j: int|
                            0 <= j < swept0.len() ==> #[trigger] swept0[j]@.signature
                                != removed_sig);
                        assert forall|k: Seq<u8>| #[trigger]
                            old(self)@.contains_key(k) implies (self@.contains_key(k)
                            <==> !(exists|j: int|
                            0 <= j < swept@.len() && #[trigger] swept@[j]@.signature == k)) by {
                            if k == removed_sig {
                                assert(swept@[swept@.len() - 1]@.signature == k);
                                assert(!self@.contains_key(k));
                            } else {
                                assert(self@.contains_key(k) <==> self0.contains_key(k));
                                if exists|j: int|
                                    0 <= j < swept@.len() && #[trigger] swept@[j]@.signature == k {
                                    let j = choose|j: int|
                                        0 <= j < swept@.len() && #[trigger] swept@[j]@.signature
                                            == k;
                                    assert(j < swept0.len() && swept0[j]@.signature == k);
                                } else {
                                    assert(forall|j: int|
                                        0 <= j < swept0.len() ==> #[trigger] swept0[j]@.signature
                                            != k) by {
                                        assert(forall|j: int|
                                            0 <= j < swept0.len() ==> #[trigger] swept0[j]
                                                == swept@[j]);
                                    }
                                }
                            }
                        }
                    }
                },
                None => {
                    proof {
                        assert(forall|k: Seq<u8>| #[trigger]
                            self@.contains_key(k) ==> !expired(
                                self@[k].inserted_at,
                                now,
                                timeout_ms,
                            )) by {
                            assert forall|k: Seq<u8>| #[trigger]
                                self@.contains_key(k) implies !expired(
                                self@[k].inserted_at,
                                now,
                                timeout_ms,
                            ) by {
                                lemma_map_of_dom(views, k);
                                let j = choose|j: int|
                                    0 <= j < views.len() && #[trigger] views[j].record.signature
                                        == k;
                                lemma_map_of_index(views, j);
                            }
                        }
                        assert(self@ =~= live_after(old(self)@, now, timeout_ms));
                    }
                    return swept;
                },
            }
        }
    }
}

pub proof fn lemma_map_of_len(s: Seq<PendingEntryV>)
    requires
        unique_sigs(s),
    ensures
        map_of(s).dom().finite(),
        map_of(s).len() == s.len(),
    decreases s.len(),
{
    if s.len() > 0 {
        assert(unique_sigs(s.drop_last())) by {
            assert(forall|a: int|
                0 <= a < s.drop_last().len() ==> #[trigger] s.drop_last()[a] == s[a]);
        }
        lemma_map_of_len(s.drop_last());
        assert(forall|j: int|
            0 <= j < s.drop_last().len() ==> #[trigger] s.drop_last()[j].record.signature
                != s.last().record.signature);
        lemma_map_of_absent(s.drop_last(), s.last().record.signature);
    }
}

/// Every entry of the registry's map is stored under its own record's
/// signature.
pub open spec fn sig_keyed(m: Map<Seq<u8>, PendingEntryV>) -> bool {
    forall|k: Seq<u8>| #[trigger] m.contains_key(k) ==> m[k].record.signature == k
}

/// A well-formed registry's map is keyed by its records' signatures.
pub proof fn lemma_wf_sig_keyed(r: &PendingRegistry)
    requires
        r.wf(),
    ensures
        sig_keyed(r@),
{
    let s = entry_views(r.entries@);
    assert forall|k: Seq<u8>| #[trigger] r@.contains_key(k) implies r@[k].record.signature == k by {
        lemma_map_of_dom(s, k);
        let i = choose|i: int| 0 <= i < s.len() && #[trigger] s[i].record.signature == k;
        lemma_map_of_index(s, i);
    }
}

/// Law: a signature leaves the registry at most once, and only its remover
/// sees it.  Once a take has removed `k` (the map became `m.remove(k)`), a
/// second take finds nothing under `k`, and no sweep — before or after the
/// take — can yield `k` again: the swept keys of a sweep are drawn from the
/// map it ran on, and a sweep's survivors never include a removed key.
pub proof fn lemma_signature_removed_at_most_once(
    m: Map<Seq<u8>, PendingEntryV>,
    k: Seq<u8>,
    now: u64,
    timeout_ms: u64,
)
    ensures
        !m.remove(k).contains_key(k),
        !live_after(m.remove(k), now, timeout_ms).contains_key(k),
        !live_after(m, now, timeout_ms).remove(k).contains_key(k),
{
}

} // verus!
