//! The stats aggregator: running totals of sent, confirmed, successful and
//! timed-out transactions, and a count per normalized error class.  A
//! periodic report ranks the error classes and computes each total's delta
//! against the previous report.

use vstd::prelude::*;
use crate::records::{bytes_eq, copy_bytes, TransactionConfirmRecord, ConfirmRecordV};
use crate::normalize::{normalize_error, normalize_spec};
use crate::scanner::{sat_add, sat_add_u64};

verus! {

pub open spec fn pair_views(s: Seq<(Vec<u8>, u64)>) -> Seq<(Seq<u8>, u64)> {
    Seq::new(s.len(), |i: int| (s[i].0@, s[i].1))
}

/// The mapping that a sequence of error buckets denotes.
pub open spec fn err_map_of(s: Seq<(Seq<u8>, u64)>) -> Map<Seq<u8>, u64>
    decreases s.len(),
{
    if s.len() == 0 {
        Map::empty()
    } else {
        err_map_of(s.drop_last()).insert(s.last().0, s.last().1)
    }
}

/// No two buckets share an error text.
pub open spec fn unique_keys(s: Seq<(Seq<u8>, u64)>) -> bool {
    forall|i: int, j: int| 0 <= i < j < s.len() ==> (#[trigger] s[i]).0 != (#[trigger] s[j]).0
}

proof fn lemma_err_absent(s: Seq<(Seq<u8>, u64)>, k: Seq<u8>)
    requires
        forall|i: int| 0 <= i < s.len() ==> (#[trigger] s[i]).0 != k,
    ensures
        !err_map_of(s).contains_key(k),
    decreases s.len(),
{
    if s.len() > 0 {
        assert(forall|i: int| 0 <= i < s.drop_last().len() ==> (#[trigger] s.drop_last()[i]).0 != k);
        lemma_err_absent(s.drop_last(), k);
    }
}

proof fn lemma_err_index(s: Seq<(Seq<u8>, u64)>, i: int)
    requires
        unique_keys(s),
        0 <= i < s.len(),
    ensures
        err_map_of(s).contains_key(s[i].0),
        err_map_of(s)[s[i].0] == s[i].1,
    decreases s.len(),
{
    if i < s.len() - 1 {
        assert(unique_keys(s.drop_last())) by {
            assert(forall|a: int|
                0 <= a < s.drop_last().len() ==> #[trigger] s.drop_last()[a] == s[a]);
        }
        lemma_err_index(s.drop_last(), i);
        assert(s[i].0 != s.last().0);
    }
}

proof fn lemma_err_dom(s: Seq<(Seq<u8>, u64)>, k: Seq<u8>)
    requires
        err_map_of(s).contains_key(k),
    ensures
        exists|i: int| 0 <= i < s.len() && (#[trigger] s[i]).0 == k,
    decreases s.len(),
{
    if s.len() > 0 {
        if s.last().0 == k {
            assert(s[s.len() - 1].0 == k);
        } else {
            lemma_err_dom(s.drop_last(), k);
            let i = choose|i: int| 0 <= i < s.drop_last().len() && (#[trigger] s.drop_last()[i]).0 == k;
            assert(s[i].0 == k);
        }
    }
}

proof fn lemma_err_remove(s: Seq<(Seq<u8>, u64)>, i: int)
    requires
        unique_keys(s),
        0 <= i < s.len(),
    ensures
        unique_keys(s.remove(i)),
        err_map_of(s.remove(i)) == err_map_of(s).remove(s[i].0),
    decreases s.len(),
{
    s.remove_ensures(i);
    assert(unique_keys(s.remove(i))) by {
        assert(forall|a: int|
            0 <= a < s.remove(i).len() ==> #[trigger] s.remove(i)[a] == if a < i {
                s[a]
            } else {
                s[a + 1]
            });
    }
    if i == s.len() - 1 {
        assert(s.remove(i) =~= s.drop_last());
        assert(forall|j: int| 0 <= j < s.drop_last().len() ==> (#[trigger] s.drop_last()[j]).0 != s[i].0);
        lemma_err_absent(s.drop_last(), s[i].0);
        assert(err_map_of(s.drop_last()) =~= err_map_of(s).remove(s[i].0));
    } else {
        assert(unique_keys(s.drop_last())) by {
            assert(forall|a: int|
                0 <= a < s.drop_last().len() ==> #[trigger] s.drop_last()[a] == s[a]);
        }
        lemma_err_remove(s.drop_last(), i);
        assert(s.remove(i).drop_last() =~= s.drop_last().remove(i));
        assert(s.remove(i).last() == s.last());
        assert(err_map_of(s.remove(i)) == err_map_of(s.drop_last().remove(i)).insert(
            s.last().0,
            s.last().1,
        ));
        assert(s[i].0 != s.last().0);
        assert(err_map_of(s.drop_last()).remove(s[i].0).insert(s.last().0, s.last().1)
            =~= err_map_of(s).remove(s[i].0));
    }
}

/// Ghost image of [`NACounters`].
pub ghost struct NACountersV {
    pub num_confirmed_txs: u64,
    pub num_error_txs: u64,
    pub num_timeout_txs: u64,
    pub num_successful: u64,
    pub num_sent: u64,
    pub errors: Map<Seq<u8>, u64>,
}

/// One snapshot of the aggregator's totals: plain counters and a count per
/// normalized error text.
pub struct NACounters {
    pub num_confirmed_txs: u64,
    pub num_error_txs: u64,
    pub num_timeout_txs: u64,
    pub num_successful: u64,
    pub num_sent: u64,
    errors: Vec<(Vec<u8>, u64)>,
}

impl View for NACounters {
    type V = NACountersV;

    closed spec fn view(&self) -> NACountersV {
        NACountersV {
            num_confirmed_txs: self.num_confirmed_txs,
            num_error_txs: self.num_error_txs,
            num_timeout_txs: self.num_timeout_txs,
            num_successful: self.num_successful,
            num_sent: self.num_sent,
            errors: err_map_of(pair_views(self.errors@)),
        }
    }
}

/// The counter differences that one report shows: every scalar is the
/// difference of the two snapshots, and every error bucket of `a` is
/// diminished by `b`'s count for the same text, where `b` has one.
pub open spec fn diff_of(a: NACountersV, b: NACountersV) -> NACountersV {
    NACountersV {
        num_confirmed_txs: (a.num_confirmed_txs - b.num_confirmed_txs) as u64,
        num_error_txs: (a.num_error_txs - b.num_error_txs) as u64,
        num_timeout_txs: (a.num_timeout_txs - b.num_timeout_txs) as u64,
        num_successful: (a.num_successful - b.num_successful) as u64,
        num_sent: (a.num_sent - b.num_sent) as u64,
        errors: Map::new(
            |k: Seq<u8>| a.errors.contains_key(k),
            |k: Seq<u8>|
                if b.errors.contains_key(k) {
                    (a.errors[k] - b.errors[k]) as u64
                } else {
                    a.errors[k]
                },
        ),
    }
}

/// `b`'s totals are nowhere ahead of `a`'s.
pub open spec fn counters_le(b: NACountersV, a: NACountersV) -> bool {
    &&& b.num_confirmed_txs <= a.num_confirmed_txs
    &&& b.num_error_txs <= a.num_error_txs
    &&& b.num_timeout_txs <= a.num_timeout_txs
    &&& b.num_successful <= a.num_successful
    &&& b.num_sent <= a.num_sent
    &&& forall|k: Seq<u8>| #[trigger]
        b.errors.contains_key(k) ==> a.errors.contains_key(k) && b.errors[k] <= a.errors[k]
}

impl NACounters {
    /// Internal well-formedness: one bucket per error text.
    pub closed spec fn wf(&self) -> bool {
        unique_keys(pair_views(self.errors@))
    }

    /// All-zero totals.
    pub fn new() -> (r: Self)
        ensures
            r.wf(),
            r@ == (NACountersV {
                num_confirmed_txs: 0,
                num_error_txs: 0,
                num_timeout_txs: 0,
                num_successful: 0,
                num_sent: 0,
                errors: Map::empty(),
            }),
    {
        let r = NACounters {
            num_confirmed_txs: 0,
            num_error_txs: 0,
            num_timeout_txs: 0,
            num_successful: 0,
            num_sent: 0,
            errors: Vec::new(),
        };
        proof {
            assert(pair_views(r.errors@) =~= Seq::<(Seq<u8>, u64)>::empty());
        }
        r
    }

    /// The index of the bucket for `key`, if one exists.
    fn find_bucket(&self, key: &Vec<u8>) -> (r: Option<usize>)
        ensures
            match r {
                Some(i) => i < self.errors@.len() && pair_views(self.errors@)[i as int].0 == key@,
                None => forall|j: int|
                    0 <= j < self.errors@.len() ==> (#[trigger] pair_views(self.errors@)[j]).0
                        != key@,
            },
    {
        let n: usize = self.errors.len();
        let mut i: usize = 0;
        while i < n
            invariant
                n == self.errors@.len(),
                i <= n,
                forall|j: int| 0 <= j < i ==> (#[trigger] pair_views(self.errors@)[j]).0 != key@,
            decreases n - i,
        {
            if bytes_eq(&self.errors[i].0, key) {
                return Some(i);
            }
            i += 1;
        }
        None
    }

    /// The count recorded for an error text, if any.
    pub fn get_error_count(&self, key: &Vec<u8>) -> (r: Option<u64>)
        requires
            self.wf(),
        ensures
            match r {
                Some(c) => self@.errors.contains_key(key@) && c == self@.errors[key@],
                None => !self@.errors.contains_key(key@),
            },
    {
        match self.find_bucket(key) {
            Some(i) => {
                proof {
                    lemma_err_index(pair_views(self.errors@), i as int);
                }
                Some(self.errors[i].1)
            },
            None => {
                proof {
                    lemma_err_absent(pair_views(self.errors@), key@);
                }
                None
            },
        }
    }

    /// Counts one more occurrence of an error text, opening its bucket at 1
    /// on first sight.
    pub fn bump_error(&mut self, key: Vec<u8>)
        requires
            old(self).wf(),
        ensures
            final(self).wf(),
            final(self)@ == (NACountersV {
                errors: old(self)@.errors.insert(
                    key@,
                    if old(self)@.errors.contains_key(key@) {
                        sat_add(old(self)@.errors[key@], 1)
                    } else {
                        1u64
                    },
                ),
                ..old(self)@
            }),
    {
        let ghost pre = pair_views(self.errors@);
        match self.find_bucket(&key) {
            Some(i) => {
                proof {
                    lemma_err_index(pre, i as int);
                    lemma_err_remove(pre, i as int);
                }
                let (k, c) = self.errors.remove(i);
                proof {
                    assert(pair_views(self.errors@) =~= pre.remove(i as int));
                }
                let ghost mid = pair_views(self.errors@);
                let c2 = sat_add_u64(c, 1);
                self.errors.push((k, c2));
                proof {
                    let post = pair_views(self.errors@);
                    assert(post.drop_last() =~= mid);
                    assert(post.last() == (key@, c2));
                    assert(unique_keys(post)) by {
                        assert(forall|a: int| 0 <= a < mid.len() ==> #[trigger] post[a] == mid[a]);
                        assert(forall|a: int|
                            0 <= a < mid.len() ==> (#[trigger] mid[a]).0 != key@) by {
                            if exists|a: int| 0 <= a < mid.len() && (#[trigger] mid[a]).0 == key@ {
                                let a = choose|a: int|
                                    0 <= a < mid.len() && (#[trigger] mid[a]).0 == key@;
                                lemma_err_index(mid, a);
                            }
                        }
                    }
                    assert(final(self)@.errors =~= old(self)@.errors.insert(key@, c2));
                }
            },
            None => {
                proof {
                    lemma_err_absent(pre, key@);
                }
                self.errors.push((key, 1));
                proof {
                    let post = pair_views(self.errors@);
                    assert(post.drop_last() =~= pre);
                    assert(unique_keys(post)) by {
                        assert(forall|a: int| 0 <= a < pre.len() ==> #[trigger] post[a] == pre[a]);
                    }
                }
            },
        }
    }

    /// A copy of this snapshot.
    pub fn duplicate(&self) -> (r: Self)
        requires
            self.wf(),
        ensures
            r.wf(),
            r@ == self@,
    {
        let mut errors: Vec<(Vec<u8>, u64)> = Vec::new();
        let n: usize = self.errors.len();
        let mut i: usize = 0;
        while i < n
            invariant
                n == self.errors@.len(),
                i <= n,
                pair_views(errors@) =~= pair_views(self.errors@).take(i as int),
            decreases n - i,
        {
            let k = copy_bytes(&self.errors[i].0);
            let c = self.errors[i].1;
            let ghost kv = k@;
            let ghost pre = errors@;
            errors.push((k, c));
            proof {
                broadcast use vstd::seq::group_seq_axioms;

                let sv = pair_views(self.errors@);
                assert(pair_views(pre).len() == pre.len());
                assert(pair_views(pre).len() == i as int);
                assert(pre.len() == i as int);
                assert(kv == sv[i as int].0);
                assert(c == sv[i as int].1);
                assert(errors@ == pre.push((k, c)));
                assert(pair_views(errors@)[i as int] == (kv, c));
                assert forall|j: int| 0 <= j < i as int implies #[trigger] pair_views(errors@)[j]
                    == sv[j] by {
                    assert(errors@[j] == pre[j]);
                    assert(pair_views(pre)[j] == sv.take(i as int)[j]);
                }
                assert(pair_views(errors@) =~= sv.take(i as int + 1));
            }
            i += 1;
        }
        proof {
            assert(pair_views(errors@) =~= pair_views(self.errors@));
        }
        NACounters {
            num_confirmed_txs: self.num_confirmed_txs,
            num_error_txs: self.num_error_txs,
            num_timeout_txs: self.num_timeout_txs,
            num_successful: self.num_successful,
            num_sent: self.num_sent,
            errors,
        }
    }

    /// The change since an earlier snapshot `other`: every counter and
    /// every bucket of `self` diminished by `other`'s value for it.
    pub fn diff(&self, other: &NACounters) -> (r: NACounters)
        requires
            self.wf(),
            other.wf(),
            counters_le(other@, self@),
        ensures
            r.wf(),
            r@ == diff_of(self@, other@),
    {
        let mut errors: Vec<(Vec<u8>, u64)> = Vec::new();
        let n: usize = self.errors.len();
        let mut i: usize = 0;
        while i < n
            invariant
                self.wf(),
                other.wf(),
                counters_le(other@, self@),
                n == self.errors@.len(),
                i <= n,
                pair_views(errors@).len() == i,
                forall|j: int|
                    0 <= j < i ==> #[trigger] pair_views(errors@)[j] == (
                        pair_views(self.errors@)[j].0,
                        if other@.errors.contains_key(pair_views(self.errors@)[j].0) {
                            (pair_views(self.errors@)[j].1 - other@.errors[pair_views(
                                self.errors@,
                            )[j].0]) as u64
                        } else {
                            pair_views(self.errors@)[j].1
                        },
                    ),
            decreases n - i,
        {
            proof {
                lemma_err_index(pair_views(self.errors@), i as int);
            }
            let k = copy_bytes(&self.errors[i].0);
            let c = self.errors[i].1;
            let d: u64 = match other.get_error_count(&k) {
                Some(oc) => c - oc,
                None => c,
            };
            let ghost kv = k@;
            let ghost pre = errors@;
            errors.push((k, d));
            proof {
                broadcast use vstd::seq::group_seq_axioms;

                let sv = pair_views(self.errors@);
                assert(pair_views(pre).len() == pre.len());
                assert(pre.len() == i as int);
                assert(errors@ == pre.push((k, d)));
                assert(pair_views(errors@)[i as int] == (kv, d));
                assert(kv == sv[i as int].0);
                assert forall|j: int| 0 <= j < i as int implies #[trigger] pair_views(errors@)[j]
                    == pair_views(pre)[j] by {
                    assert(errors@[j] == pre[j]);
                }
            }
            i += 1;
        }
        let r = NACounters {
            num_confirmed_txs: self.num_confirmed_txs - other.num_confirmed_txs,
            num_error_txs: self.num_error_txs - other.num_error_txs,
            num_timeout_txs: self.num_timeout_txs - other.num_timeout_txs,
            num_successful: self.num_successful - other.num_successful,
            num_sent: self.num_sent - other.num_sent,
            errors,
        };
        proof {
            let sv = pair_views(self.errors@);
            let rv = pair_views(r.errors@);
            assert(rv.len() == sv.len());
            assert(unique_keys(rv)) by {
                assert(forall|a: int| 0 <= a < rv.len() ==> (#[trigger] rv[a]).0 == sv[a].0);
            }
            assert forall|k: Seq<u8>| #[trigger]
                err_map_of(rv).contains_key(k) implies self@.errors.contains_key(k) by {
                lemma_err_dom(rv, k);
                let j = choose|j: int| 0 <= j < rv.len() && (#[trigger] rv[j]).0 == k;
                assert(sv[j].0 == k);
                lemma_err_index(sv, j);
            }
            assert forall|k: Seq<u8>| #[trigger]
                self@.errors.contains_key(k) implies err_map_of(rv).contains_key(k) by {
                lemma_err_dom(sv, k);
                let j = choose|j: int| 0 <= j < sv.len() && (#[trigger] sv[j]).0 == k;
                assert(rv[j].0 == k);
                lemma_err_index(rv, j);
            }
            assert forall|k: Seq<u8>| #[trigger]
                err_map_of(rv).contains_key(k) implies err_map_of(rv)[k] == (
            if other@.errors.contains_key(k) {
                (self@.errors[k] - other@.errors[k]) as u64
            } else {
                self@.errors[k]
            }) by {
                lemma_err_dom(rv, k);
                let j = choose|j: int| 0 <= j < rv.len() && (#[trigger] rv[j]).0 == k;
                lemma_err_index(rv, j);
                lemma_err_index(sv, j);
            }
            assert(r@.errors =~= diff_of(self@, other@).errors);
        }
        r
    }

    /// The error buckets ranked by count, largest first.  The result holds
    /// exactly the buckets of this snapshot, each once.
    pub fn ranked_buckets(&self) -> (r: Vec<(Vec<u8>, u64)>)
        requires
            self.wf(),
        ensures
            forall|a: int, b: int|
                0 <= a < b < r@.len() ==> (#[trigger] pair_views(r@)[a]).1 >= (
                #[trigger] pair_views(r@)[b]).1,
            forall|j: int|
                0 <= j < r@.len() ==> self@.errors.contains_key((#[trigger] pair_views(r@)[j]).0)
                    && self@.errors[pair_views(r@)[j].0] == pair_views(r@)[j].1,
            forall|a: int, b: int|
                0 <= a < b < r@.len() ==> (#[trigger] pair_views(r@)[a]).0 != (
                #[trigger] pair_views(r@)[b]).0,
            forall|k: Seq<u8>| #[trigger]
                self@.errors.contains_key(k) ==> exists|j: int|
                    0 <= j < r@.len() && (#[trigger] pair_views(r@)[j]).0 == k,
    {
        let copy = self.duplicate();
        let mut work = copy.errors;
        let ghost full = pair_views(self.errors@);
        let mut out: Vec<(Vec<u8>, u64)> = Vec::new();
        proof {
            let wv = pair_views(work@);
            assert(err_map_of(wv) == self@.errors);
            assert forall|j: int|
                0 <= j < wv.len() implies self@.errors.contains_key((#[trigger] wv[j]).0)
                && self@.errors[wv[j].0] == wv[j].1 by {
                lemma_err_index(wv, j);
            }
            assert forall|k: Seq<u8>| #[trigger]
                self@.errors.contains_key(k) implies exists|j: int|
                0 <= j < wv.len() && (#[trigger] wv[j]).0 == k by {
                lemma_err_dom(wv, k);
            }
        }
        while work.len() > 0
            invariant
                self.wf(),
                full == pair_views(self.errors@),
                unique_keys(pair_views(work@)),
                forall|a: int, b: int|
                    0 <= a < b < out@.len() ==> (#[trigger] pair_views(out@)[a]).1 >= (
                    #[trigger] pair_views(out@)[b]).1,
                forall|a: int, b: int|
                    0 <= a < b < out@.len() ==> (#[trigger] pair_views(out@)[a]).0 != (
                    #[trigger] pair_views(out@)[b]).0,
                forall|a: int, b: int|
                    0 <= a < out@.len() && 0 <= b < work@.len() ==> (
                    #[trigger] pair_views(out@)[a]).1 >= (#[trigger] pair_views(work@)[b]).1 && (
                    pair_views(out@)[a]).0 != (pair_views(work@)[b]).0,
                forall|j: int|
                    0 <= j < out@.len() ==> self@.errors.contains_key(
                        (#[trigger] pair_views(out@)[j]).0,
                    ) && self@.errors[pair_views(out@)[j].0] == pair_views(out@)[j].1,
                forall|j: int|
                    0 <= j < work@.len() ==> self@.errors.contains_key(
                        (#[trigger] pair_views(work@)[j]).0,
                    ) && self@.errors[pair_views(work@)[j].0] == pair_views(work@)[j].1,
                forall|k: Seq<u8>| #[trigger]
                    self@.errors.contains_key(k) ==> (exists|j: int|
                        0 <= j < out@.len() && (#[trigger] pair_views(out@)[j]).0 == k) || (exists|
                        j: int,
                    |
                        0 <= j < work@.len() && (#[trigger] pair_views(work@)[j]).0 == k),
            decreases work@.len(),
        {
            let mi = max_bucket_index(&work);
            let ghost wv = pair_views(work@);
            let ghost ov = pair_views(out@);
            let e = work.remove(mi);
            let ghost ev = (e.0@, e.1);
            proof {
                broadcast use vstd::seq::group_seq_axioms;

                wv.remove_ensures(mi as int);
                assert(pair_views(work@) =~= wv.remove(mi as int));
                assert(ev == wv[mi as int]);
            }
            out.push(e);
            proof {
                broadcast use vstd::seq::group_seq_axioms;

                let ov2 = pair_views(out@);
                assert(ov2.len() == ov.len() + 1);
                assert(ov2[ov.len() as int] == ev);
                assert(forall|j: int| 0 <= j < ov.len() ==> #[trigger] ov2[j] == ov[j]);
                let wv2 = pair_views(work@);
                assert(forall|j: int|
                    0 <= j < wv2.len() ==> #[trigger] wv2[j] == if j < mi as int {
                        wv[j]
                    } else {
                        wv[j + 1]
                    });
                assert forall|k: Seq<u8>| #[trigger]
                    self@.errors.contains_key(k) implies (exists|j: int|
                    0 <= j < ov2.len() && (#[trigger] ov2[j]).0 == k) || (exists|j: int|
                    0 <= j < wv2.len() && (#[trigger] wv2[j]).0 == k) by {
                    if exists|j: int| 0 <= j < ov.len() && (#[trigger] ov[j]).0 == k {
                        let j = choose|j: int| 0 <= j < ov.len() && (#[trigger] ov[j]).0 == k;
                        assert(ov2[j].0 == k);
                    } else if exists|j: int| 0 <= j < wv.len() && (#[trigger] wv[j]).0 == k {
                        let j = choose|j: int| 0 <= j < wv.len() && (#[trigger] wv[j]).0 == k;
                        if j == mi as int {
                            assert(ov2[ov.len() as int].0 == k);
                        } else if j < mi as int {
                            assert(wv2[j].0 == k);
                        } else {
                            assert(wv2[j - 1].0 == k);
                        }
                    }
                }
            }
        }
        out
    }
}

/// The index of a bucket with the largest count.
fn max_bucket_index(v: &Vec<(Vec<u8>, u64)>) -> (r: usize)
    requires
        v@.len() > 0,
    ensures
        r < v@.len(),
        forall|j: int|
            0 <= j < v@.len() ==> (#[trigger] pair_views(v@)[j]).1 <= pair_views(v@)[r as int].1,
{
    let n: usize = v.len();
    let mut best: usize = 0;
    let mut i: usize = 1;
    while i < n
        invariant
            n == v@.len(),
            best < n,
            i <= n,
            forall|j: int|
                0 <= j < i ==> (#[trigger] pair_views(v@)[j]).1 <= pair_views(v@)[best as int].1,
        decreases n - i,
    {
        if v[i].1 > v[best].1 {
            best = i;
        }
        i += 1;
    }
    best
}

/// `part` as a percentage of `total`, rounded down; 0 when `total` is 0.
pub open spec fn rate_percent_spec(part: u64, total: u64) -> u64 {
    if total == 0 {
        0
    } else if part * 100 / (total as int) > u64::MAX {
        u64::MAX
    } else {
        (part * 100 / (total as int)) as u64
    }
}

/// Executable percentage computation; never divides by zero.
pub fn rate_percent(part: u64, total: u64) -> (r: u64)
    ensures
        r == rate_percent_spec(part, total),
{
    if total == 0 {
        0
    } else {
        let q: u128 = (part as u128) * 100 / (total as u128);
        if q > (u64::MAX as u128) {
            u64::MAX
        } else {
            q as u64
        }
    }
}

/// How one confirmation outcome moves the totals: a timed-out outcome
/// counts as a timeout; a confirmed one counts as confirmed and then
/// either as successful or into the bucket of its normalized error text.
pub open spec fn apply_confirm_spec(c: NACountersV, rec: ConfirmRecordV) -> NACountersV {
    match rec.confirmed_at {
        Some(_) => {
            let c1 = NACountersV { num_confirmed_txs: sat_add(c.num_confirmed_txs, 1), ..c };
            match rec.error {
                Some(e) => {
                    let key = normalize_spec(e);
                    NACountersV {
                        num_error_txs: sat_add(c1.num_error_txs, 1),
                        errors: c1.errors.insert(
                            key,
                            if c1.errors.contains_key(key) {
                                sat_add(c1.errors[key], 1)
                            } else {
                                1u64
                            },
                        ),
                        ..c1
                    }
                },
                None => NACountersV { num_successful: sat_add(c1.num_successful, 1), ..c1 },
            }
        },
        None => NACountersV { num_timeout_txs: sat_add(c.num_timeout_txs, 1), ..c },
    }
}

/// Ghost image of [`CrankStats`].
pub ghost struct CrankStatsV {
    pub counters: NACountersV,
    pub previous: NACountersV,
}

/// The aggregator: running totals plus the totals as of the previous
/// report, for delta computation.
pub struct CrankStats {
    counters: NACounters,
    previous: NACounters,
}

impl View for CrankStats {
    type V = CrankStatsV;

    closed spec fn view(&self) -> CrankStatsV {
        CrankStatsV { counters: self.counters@, previous: self.previous@ }
    }
}

/// One periodic report: the totals, their change since the previous
/// report, the error classes ranked by count, and the share of sent
/// transactions confirmed, successful and timed out.
pub struct Report {
    pub totals: NACounters,
    pub diff: NACounters,
    pub ranked_errors: Vec<(Vec<u8>, u64)>,
    pub percent_confirmed: u64,
    pub percent_successful: u64,
    pub percent_timed_out: u64,
}

impl CrankStats {
    /// Internal well-formedness: the previous snapshot never exceeds the
    /// running totals.
    pub closed spec fn wf(&self) -> bool {
        &&& self.counters.wf()
        &&& self.previous.wf()
        &&& counters_le(self.previous@, self.counters@)
    }

    /// A fresh aggregator with all counters at zero.
    pub fn new() -> (r: Self)
        ensures
            r.wf(),
            r@.counters.num_sent == 0,
            r@.counters.num_confirmed_txs == 0,
            r@.counters.num_error_txs == 0,
            r@.counters.num_timeout_txs == 0,
            r@.counters.num_successful == 0,
            r@.counters.errors == Map::<Seq<u8>, u64>::empty(),
            r@.previous == r@.counters,
    {
        CrankStats { counters: NACounters::new(), previous: NACounters::new() }
    }

    /// Counts one dispatch attempt.  Every dispatch path calls this exactly
    /// once per transaction handed to the network.
    pub fn inc_send(&mut self)
        requires
            old(self).wf(),
        ensures
            final(self).wf(),
            final(self)@.counters == (NACountersV {
                num_sent: sat_add(old(self)@.counters.num_sent, 1),
                ..old(self)@.counters
            }),
            final(self)@.previous == old(self)@.previous,
    {
        self.counters.num_sent = sat_add_u64(self.counters.num_sent, 1);
    }

    /// Folds one confirmation outcome into the totals.
    pub fn apply_confirmation(&mut self, rec: &TransactionConfirmRecord)
        requires
            old(self).wf(),
        ensures
            final(self).wf(),
            final(self)@.counters == apply_confirm_spec(old(self)@.counters, rec@),
            final(self)@.previous == old(self)@.previous,
    {
        match &rec.confirmed_at {
            Some(_) => {
                self.counters.num_confirmed_txs = sat_add_u64(self.counters.num_confirmed_txs, 1);
                match &rec.error {
                    Some(e) => {
                        self.counters.num_error_txs = sat_add_u64(self.counters.num_error_txs, 1);
                        let key = normalize_error(e);
                        let ghost before = self.counters@;
                        self.counters.bump_error(key);
                        proof {
                            assert(final(self)@.counters == apply_confirm_spec(
                                old(self)@.counters,
                                rec@,
                            ));
                            assert forall|k: Seq<u8>| #[trigger]
                                self.previous@.errors.contains_key(k) implies self.counters@
                                .errors.contains_key(k) && self.previous@.errors[k]
                                <= self.counters@.errors[k] by {
                                assert(before.errors.contains_key(k));
                            }
                        }
                    },
                    None => {
                        self.counters.num_successful = sat_add_u64(self.counters.num_successful, 1);
                    },
                }
            },
            None => {
                self.counters.num_timeout_txs = sat_add_u64(self.counters.num_timeout_txs, 1);
            },
        }
    }

    /// Computes one report and makes the present totals the baseline for
    /// the next one.  The running totals themselves do not change.
    pub fn report(&mut self) -> (r: Report)
        requires
            old(self).wf(),
        ensures
            final(self).wf(),
            final(self)@.counters == old(self)@.counters,
            final(self)@.previous == old(self)@.counters,
            r.totals.wf() && r.totals@ == old(self)@.counters,
            r.diff.wf() && r.diff@ == diff_of(old(self)@.counters, old(self)@.previous),
            r.percent_confirmed == rate_percent_spec(
                old(self)@.counters.num_confirmed_txs,
                old(self)@.counters.num_sent,
            ),
            r.percent_successful == rate_percent_spec(
                old(self)@.counters.num_successful,
                old(self)@.counters.num_sent,
            ),
            r.percent_timed_out == rate_percent_spec(
                old(self)@.counters.num_timeout_txs,
                old(self)@.counters.num_sent,
            ),
            forall|a: int, b: int|
                0 <= a < b < r.ranked_errors@.len() ==> (#[trigger] pair_views(
                    r.ranked_errors@,
                )[a]).1 >= (#[trigger] pair_views(r.ranked_errors@)[b]).1,
            forall|j: int|
                0 <= j < r.ranked_errors@.len() ==> old(self)@.counters.errors.contains_key(
                    (#[trigger] pair_views(r.ranked_errors@)[j]).0,
                ) && old(self)@.counters.errors[pair_views(r.ranked_errors@)[j].0] == pair_views(
                    r.ranked_errors@,
                )[j].1,
            forall|k: Seq<u8>| #[trigger]
                old(self)@.counters.errors.contains_key(k) ==> exists|j: int|
                    0 <= j < r.ranked_errors@.len() && (#[trigger] pair_views(
                        r.ranked_errors@,
                    )[j]).0 == k,
    {
        let totals = self.counters.duplicate();
        let diff = totals.diff(&self.previous);
        let ranked_errors = self.counters.ranked_buckets();
        let percent_confirmed = rate_percent(totals.num_confirmed_txs, totals.num_sent);
        let percent_successful = rate_percent(totals.num_successful, totals.num_sent);
        let percent_timed_out = rate_percent(totals.num_timeout_txs, totals.num_sent);
        self.previous = totals.duplicate();
        Report {
            totals,
            diff,
            ranked_errors,
            percent_confirmed,
            percent_successful,
            percent_timed_out,
        }
    }
}

} // verus!
