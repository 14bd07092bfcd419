use vstd::prelude::*;
use vstd::seq_lib::lemma_multiset_commutative;

use crate::snapshot::BinSet;

verus! {

/// Timestamps strictly increase: ascending order with no duplicates.
pub open spec fn ts_sorted(s: Seq<BinSet>) -> bool {
    forall|i: int, j: int| 0 <= i < j < s.len() ==> s[i].timestamp < s[j].timestamp
}

/// No two snapshots share a timestamp.
pub open spec fn ts_distinct(s: Seq<BinSet>) -> bool {
    forall|i: int, j: int| 0 <= i < j < s.len() ==> s[i].timestamp != s[j].timestamp
}

/// Total bytes retained by a snapshot sequence.
pub open spec fn total_size(s: Seq<BinSet>) -> int
    decreases s.len(),
{
    if s.len() == 0 {
        0
    } else {
        s.first().size + total_size(s.drop_first())
    }
}

/// How many of the oldest snapshots eviction must drop before the rest
/// fits the budget.
pub open spec fn spec_evict_count(s: Seq<BinSet>, budget: int) -> nat
    decreases s.len(),
{
    if s.len() == 0 {
        0
    } else if total_size(s) <= budget {
        0
    } else {
        1 + spec_evict_count(s.drop_first(), budget)
    }
}

/// Some snapshot in s carries timestamp t.
pub open spec fn has_ts(s: Seq<BinSet>, t: u64) -> bool {
    exists|i: int| 0 <= i < s.len() && s[i].timestamp == t
}

/// The snapshots of s with every repeated timestamp dropped: of two
/// snapshots with one timestamp, the earlier stays.
pub open spec fn first_occurrences(s: Seq<BinSet>) -> Seq<BinSet>
    decreases s.len(),
{
    if s.len() == 0 {
        Seq::empty()
    } else {
        let pre = first_occurrences(s.drop_last());
        if has_ts(s.drop_last(), s.last().timestamp) {
            pre
        } else {
            pre.push(s.last())
        }
    }
}

proof fn lemma_first_occ_has_ts(s: Seq<BinSet>, t: u64)
    ensures
        has_ts(first_occurrences(s), t) == has_ts(s, t),
    decreases s.len(),
{
    if s.len() > 0 {
        let d = s.drop_last();
        lemma_first_occ_has_ts(d, t);
        let pre = first_occurrences(d);
        if has_ts(d, s.last().timestamp) {
            if has_ts(s, t) && !has_ts(d, t) {
                let i = choose|i: int| 0 <= i < s.len() && s[i].timestamp == t;
                if i < s.len() - 1 {
                    assert(d[i] == s[i]);
                } else {
                    assert(t == s.last().timestamp);
                }
                assert(has_ts(d, t));
            }
            if has_ts(d, t) {
                let m = choose|m: int| 0 <= m < d.len() && d[m].timestamp == t;
                assert(s[m].timestamp == t);
                assert(has_ts(s, t));
            }
        } else {
            assert(first_occurrences(s) == pre.push(s.last()));
            if has_ts(s, t) {
                let i = choose|i: int| 0 <= i < s.len() && s[i].timestamp == t;
                if i < s.len() - 1 {
                    assert(d[i] == s[i]);
                    assert(has_ts(d, t));
                    let j = choose|j: int| 0 <= j < pre.len() && pre[j].timestamp == t;
                    assert(pre.push(s.last())[j].timestamp == t);
                } else {
                    assert(pre.push(s.last()).last().timestamp == t);
                }
            }
            if has_ts(pre.push(s.last()), t) {
                let j = choose|j: int|
                    0 <= j < pre.push(s.last()).len() && pre.push(s.last())[j].timestamp == t;
                if j < pre.len() {
                    assert(pre[j].timestamp == t);
                    assert(has_ts(pre, t));
                    let m = choose|m: int| 0 <= m < d.len() && d[m].timestamp == t;
                    assert(s[m].timestamp == t);
                } else {
                    assert(s.last().timestamp == t);
                }
            }
        }
    }
}

proof fn lemma_first_occ_distinct(s: Seq<BinSet>)
    ensures
        ts_distinct(first_occurrences(s)),
    decreases s.len(),
{
    if s.len() > 0 {
        let d = s.drop_last();
        lemma_first_occ_distinct(d);
        let pre = first_occurrences(d);
        if !has_ts(d, s.last().timestamp) {
            let out = pre.push(s.last());
            assert forall|i: int, j: int| 0 <= i < j < out.len() implies out[i].timestamp
                != out[j].timestamp by {
                if j == out.len() - 1 {
                    assert(out[i] == pre[i]);
                    if pre[i].timestamp == s.last().timestamp {
                        assert(has_ts(pre, s.last().timestamp));
                        lemma_first_occ_has_ts(d, s.last().timestamp);
                    }
                } else {
                    assert(out[i] == pre[i] && out[j] == pre[j]);
                }
            }
        }
    }
}

/// A scan whose timestamps are already distinct passes through unchanged.
pub proof fn lemma_first_occ_identity(s: Seq<BinSet>)
    requires
        ts_distinct(s),
    ensures
        first_occurrences(s) == s,
    decreases s.len(),
{
    if s.len() > 0 {
        let d = s.drop_last();
        assert(forall|i: int| 0 <= i < d.len() ==> d[i] == s[i]);
        lemma_first_occ_identity(d);
        if has_ts(d, s.last().timestamp) {
            let i = choose|i: int| 0 <= i < d.len() && d[i].timestamp == s.last().timestamp;
            assert(s[i].timestamp == s[s.len() - 1].timestamp);
            assert(false);
        }
        assert(first_occurrences(s) == d.push(s.last()));
        assert(d.push(s.last()) =~= s);
    }
}

/// Drops every snapshot whose timestamp a snapshot earlier in the scan
/// already carries: distinct folder spellings of one timestamp collapse to
/// the first. A scan with distinct timestamps passes through unchanged.
pub fn dedup_by_timestamp(snaps: Vec<BinSet>) -> (r: Vec<BinSet>)
    ensures
        r@ == first_occurrences(snaps@),
        ts_distinct(r@),
{
    let mut out: Vec<BinSet> = Vec::new();
    proof {
        assert(snaps@.take(0) =~= Seq::<BinSet>::empty());
    }
    let mut i: usize = 0;
    while i < snaps.len()
        invariant
            i <= snaps@.len(),
            out@ == first_occurrences(snaps@.take(i as int)),
        decreases snaps@.len() - i,
    {
        let item: BinSet = snaps[i];
        let mut seen = false;
        let mut j: usize = 0;
        while j < out.len()
            invariant
                j <= out@.len(),
                seen == (exists|k: int| 0 <= k < j && out@[k].timestamp == item.timestamp),
            decreases out@.len() - j,
        {
            if out[j].timestamp == item.timestamp {
                seen = true;
            }
            j = j + 1;
        }
        proof {
            assert(seen == has_ts(out@, item.timestamp));
            lemma_first_occ_has_ts(snaps@.take(i as int), item.timestamp);
            let cur = snaps@.take(i + 1 as int);
            assert(cur.drop_last() =~= snaps@.take(i as int));
            assert(cur.last() == item);
        }
        if !seen {
            out.push(item);
        }
        i = i + 1;
    }
    proof {
        assert(snaps@.take(snaps@.len() as int) =~= snaps@);
        lemma_first_occ_distinct(snaps@);
    }
    out
}

proof fn lemma_total_size_nonneg(s: Seq<BinSet>)
    ensures
        total_size(s) >= 0,
    decreases s.len(),
{
    if s.len() > 0 {
        lemma_total_size_nonneg(s.drop_first());
    }
}

proof fn lemma_total_size_split(s: Seq<BinSet>, k: int)
    requires
        0 <= k <= s.len(),
    ensures
        total_size(s) == total_size(s.take(k)) + total_size(s.skip(k)),
    decreases s.len(),
{
    if k == 0 {
        assert(s.take(0) =~= Seq::<BinSet>::empty());
        assert(s.skip(0) =~= s);
    } else {
        let d = s.drop_first();
        lemma_total_size_split(d, k - 1);
        assert(s.take(k).first() == s.first());
        assert(s.take(k).drop_first() =~= d.take(k - 1));
        assert(s.skip(k) =~= d.skip(k - 1));
    }
}

proof fn lemma_total_size_take_step(s: Seq<BinSet>, i: int)
    requires
        0 <= i < s.len(),
    ensures
        total_size(s.take(i + 1)) == total_size(s.take(i)) + s[i].size,
{
    let cur = s.take(i + 1);
    lemma_total_size_split(cur, i);
    assert(cur.take(i) =~= s.take(i));
    let single = seq![s[i]];
    assert(cur.skip(i) =~= single);
    assert(single.drop_first() =~= Seq::<BinSet>::empty());
    assert(total_size(Seq::<BinSet>::empty()) == 0);
    assert(total_size(single) == s[i].size);
}

proof fn lemma_insert_multiset(s: Seq<BinSet>, pos: int, a: BinSet)
    requires
        0 <= pos <= s.len(),
    ensures
        s.insert(pos, a).to_multiset() == s.to_multiset().insert(a),
{
    broadcast use vstd::seq_lib::group_to_multiset_ensures;

    let left = s.subrange(0, pos);
    let right = s.subrange(pos, s.len() as int);
    assert(s.insert(pos, a) == left.push(a) + right);
    lemma_multiset_commutative(left.push(a), right);
    lemma_multiset_commutative(left, right);
    assert(s =~= left + right);
    assert(left.push(a).to_multiset() == left.to_multiset().insert(a));
    assert(s.insert(pos, a).to_multiset() =~= s.to_multiset().insert(a));
}

/// Two strictly sorted snapshot sequences holding the same snapshots are the
/// same sequence. So a rescan of an unchanged tree publishes an identical
/// list: the sorted order of one set of fingerprints is unique.
pub proof fn lemma_sorted_unique(s1: Seq<BinSet>, s2: Seq<BinSet>)
    requires
        ts_sorted(s1),
        ts_sorted(s2),
        s1.to_multiset() == s2.to_multiset(),
    ensures
        s1 == s2,
    decreases s1.len(),
{
    broadcast use vstd::seq_lib::group_to_multiset_ensures;

    assert(s1.to_multiset().len() == s1.len());
    assert(s2.to_multiset().len() == s2.len());
    if s1.len() == 0 {
        assert(s1 =~= s2);
    } else {
        assert(s2.len() == s1.len());
        assert(s1.contains(s1[0]));
        assert(s1.to_multiset().count(s1[0]) > 0);
        assert(s2.to_multiset().count(s1[0]) > 0);
        assert(s2.contains(s1[0]));
        let j = choose|j: int| 0 <= j < s2.len() && s2[j] == s1[0];
        assert(s2[0].timestamp <= s1[0].timestamp);
        assert(s2.contains(s2[0]));
        assert(s2.to_multiset().count(s2[0]) > 0);
        assert(s1.to_multiset().count(s2[0]) > 0);
        assert(s1.contains(s2[0]));
        let i = choose|i: int| 0 <= i < s1.len() && s1[i] == s2[0];
        assert(s1[0].timestamp <= s2[0].timestamp);
        assert(s1[0].timestamp == s2[0].timestamp);
        assert(s2[0] == s1[0]) by {
            if j > 0 {
                assert(s2[0].timestamp < s2[j].timestamp);
            }
        }
        let d1 = s1.drop_first();
        let d2 = s2.drop_first();
        assert(d1 =~= s1.remove(0));
        assert(d2 =~= s2.remove(0));
        assert(d1.to_multiset() == s1.to_multiset().remove(s1[0]));
        assert(d2.to_multiset() == s2.to_multiset().remove(s2[0]));
        lemma_sorted_unique(d1, d2);
        assert(s1 =~= s2) by {
            assert(forall|k: int|
                1 <= k < s1.len() ==> s1[k] == d1[k - 1] && s2[k] == d2[k - 1]);
        }
    }
}

/// Rescanning an unchanged tree is idempotent: two stores that each
/// published the same freshly scanned snapshot set (as rescan ensures:
/// strictly sorted, holding exactly the scanned snapshots) publish
/// identical lists, hashes, counts and order included.
pub proof fn lemma_rescan_idempotent(a: Storage, b: Storage, snaps: Seq<BinSet>)
    requires
        a.wf(),
        b.wf(),
        a.snapshots().to_multiset() == snaps.to_multiset(),
        b.snapshots().to_multiset() == snaps.to_multiset(),
    ensures
        a.snapshots() == b.snapshots(),
{
    lemma_sorted_unique(a.snapshots(), b.snapshots());
}

/// Eviction by spec_evict_count is exact: it stays within the sequence,
/// what remains fits the budget, dropping one snapshot fewer would not
/// fit, and every dropped snapshot is older than every survivor.
pub proof fn lemma_evict_oldest(s: Seq<BinSet>, budget: int)
    requires
        budget >= 0,
    ensures
        spec_evict_count(s, budget) <= s.len(),
        total_size(s.skip(spec_evict_count(s, budget) as int)) <= budget,
        spec_evict_count(s, budget) > 0 ==> total_size(
            s.skip(spec_evict_count(s, budget) as int - 1),
        ) > budget,
        ts_sorted(s) ==> forall|i: int, j: int|
            0 <= i < spec_evict_count(s, budget) <= j < s.len() ==> s[i].timestamp
                < s[j].timestamp,
    decreases s.len(),
{
    let k = spec_evict_count(s, budget) as int;
    if s.len() == 0 {
        assert(s.skip(0) =~= s);
    } else if total_size(s) <= budget {
        assert(s.skip(0) =~= s);
    } else {
        let d = s.drop_first();
        lemma_evict_oldest(d, budget);
        let kd = spec_evict_count(d, budget) as int;
        assert(s.skip(k) =~= d.skip(kd));
        if kd == 0 {
            assert(s.skip(k - 1) =~= s);
        } else {
            assert(s.skip(k - 1) =~= d.skip(kd - 1));
        }
    }
}

/// The ordered snapshot collection: ascending by timestamp, rebuilt whole
/// by each rescan, trimmed oldest-first to a byte budget.
pub struct Storage {
    budget: u64,
    data: Vec<BinSet>,
}

impl Storage {
    /// The published snapshot sequence.
    pub closed spec fn snapshots(self) -> Seq<BinSet> {
        self.data@
    }

    /// The retention budget, in bytes.
    pub closed spec fn budget_bytes(self) -> int {
        self.budget as int
    }

    /// The store's invariant: the published sequence is strictly ascending
    /// by timestamp, so it holds no duplicate timestamps.
    pub open spec fn wf(self) -> bool {
        ts_sorted(self.snapshots())
    }

    /// An empty store with the given retention budget.
    pub fn new(budget: u64) -> (s: Storage)
        ensures
            s.wf(),
            s.snapshots() == Seq::<BinSet>::empty(),
            s.budget_bytes() == budget as int,
    {
        let s = Storage { budget, data: Vec::new() };
        proof {
            assert(s.snapshots() =~= Seq::<BinSet>::empty());
        }
        s
    }

    /// Replaces the published state with a freshly scanned snapshot set,
    /// sorted ascending by timestamp. The swap is whole: a reader sees the
    /// old sequence or the new one, never a mix.
    pub fn rescan(&mut self, snaps: Vec<BinSet>)
        requires
            ts_distinct(snaps@),
        ensures
            final(self).budget_bytes() == old(self).budget_bytes(),
            final(self).wf(),
            final(self).snapshots().to_multiset() == snaps@.to_multiset(),
    {
        broadcast use vstd::seq_lib::group_to_multiset_ensures;

        let mut sorted: Vec<BinSet> = Vec::new();
        proof {
            assert(snaps@.take(0) =~= Seq::<BinSet>::empty());
        }
        let mut i: usize = 0;
        while i < snaps.len()
            invariant
                i <= snaps@.len(),
                ts_distinct(snaps@),
                ts_sorted(sorted@),
                sorted@.to_multiset() == snaps@.take(i as int).to_multiset(),
            decreases snaps@.len() - i,
        {
            let item: BinSet = snaps[i];
            let ghost pre = sorted@;
            proof {
                broadcast use vstd::seq_lib::group_to_multiset_ensures;

                assert(snaps@.take(i as int).len() == i);
                assert(pre.to_multiset().len() == pre.len());
                assert(snaps@.take(i as int).to_multiset().len() == i);
                assert(pre.len() == i);
                assert forall|k: int| 0 <= k < pre.len() implies pre[k].timestamp
                    != item.timestamp by {
                    assert(pre.contains(pre[k]));
                    assert(pre.to_multiset().count(pre[k]) > 0);
                    assert(snaps@.take(i as int).to_multiset().count(pre[k]) > 0);
                    assert(snaps@.take(i as int).contains(pre[k]));
                    let m = choose|m: int|
                        0 <= m < i && snaps@.take(i as int)[m] == pre[k];
                    assert(snaps@[m] == pre[k]);
                    assert(snaps@[m].timestamp != snaps@[i as int].timestamp);
                }
            }
            let mut pos: usize = 0;
            while pos < sorted.len() && sorted[pos].timestamp < item.timestamp
                invariant
                    pos <= sorted@.len(),
                    sorted@ == pre,
                    forall|k: int| 0 <= k < pos ==> sorted@[k].timestamp < item.timestamp,
                decreases sorted@.len() - pos,
            {
                pos = pos + 1;
            }
            proof {
                if pos < sorted@.len() {
                    assert(sorted@[pos as int].timestamp >= item.timestamp);
                    assert(sorted@[pos as int].timestamp != item.timestamp);
                }
            }
            let ghost inserted = sorted@.insert(pos as int, item);
            proof {
                broadcast use vstd::seq_lib::group_to_multiset_ensures;

                sorted@.insert_ensures(pos as int, item);
                lemma_insert_multiset(sorted@, pos as int, item);
                assert(ts_sorted(inserted)) by {
                    assert forall|a: int, b: int|
                        0 <= a < b < inserted.len() implies inserted[a].timestamp
                        < inserted[b].timestamp by {
                        if b < pos {
                        } else if a > pos {
                        } else if a == pos && b > pos {
                            assert(inserted[b] == pre[b - 1]);
                            assert(pre[b - 1].timestamp >= pre[pos as int].timestamp);
                        } else if b == pos {
                        } else {
                            // a < pos < b
                            assert(inserted[a] == pre[a]);
                            assert(inserted[b] == pre[b - 1]);
                        }
                    }
                }
                let cur = snaps@.take(i + 1 as int);
                assert(cur.drop_last() =~= snaps@.take(i as int));
                assert(cur == cur.drop_last().push(snaps@[i as int]));
                assert(cur.to_multiset() == snaps@.take(i as int).to_multiset().insert(item));
            }
            sorted.insert(pos, item);
            i = i + 1;
        }
        proof {
            assert(snaps@.take(snaps@.len() as int) =~= snaps@);
        }
        self.data = sorted;
    }

    /// Read-only view of the current state: snapshots ascending by
    /// timestamp, no duplicate timestamps.
    pub fn dump(&self) -> (r: &Vec<BinSet>)
        ensures
            r@ == self.snapshots(),
            self.wf() ==> ts_sorted(r@) && ts_distinct(r@),
    {
        &self.data
    }

    /// The bytes currently retained.
    fn total_bytes(&self) -> (t: u128)
        ensures
            t as int == total_size(self.snapshots()),
    {
        let mut t: u128 = 0;
        proof {
            assert(self.data@.take(0) =~= Seq::<BinSet>::empty());
        }
        let mut i: usize = 0;
        while i < self.data.len()
            invariant
                i <= self.data@.len(),
                t as int == total_size(self.data@.take(i as int)),
                t as int <= i * 0xffff_ffff_ffff_ffff,
                i <= usize::MAX,
            decreases self.data@.len() - i,
        {
            proof {
                lemma_total_size_take_step(self.data@, i as int);
            }
            t = t + self.data[i].size as u128;
            i = i + 1;
        }
        proof {
            assert(self.data@.take(self.data@.len() as int) =~= self.data@);
        }
        t
    }

    /// Evicts oldest-first until the retained bytes fit the budget, once at
    /// least 8 snapshots are present; below that the store is left alone.
    /// Returns the evicted timestamps, oldest first, for the deletion hook
    /// that removes the folders on disk.
    pub fn enforce_retention(&mut self) -> (evicted: Vec<u64>)
        ensures
            final(self).budget_bytes() == old(self).budget_bytes(),
            old(self).snapshots().len() >= 8 && total_size(old(self).snapshots()) > old(
                self,
            ).budget_bytes() ==> {
                let k = spec_evict_count(old(self).snapshots(), old(self).budget_bytes()) as int;
                &&& final(self).snapshots() == old(self).snapshots().skip(k)
                &&& evicted@ == old(self).snapshots().take(k).map_values(
                    |b: BinSet| b.timestamp,
                )
            },
            !(old(self).snapshots().len() >= 8 && total_size(old(self).snapshots()) > old(
                self,
            ).budget_bytes()) ==> *final(self) == *old(self) && evicted@ == Seq::<u64>::empty(),
            old(self).snapshots().len() >= 8 ==> total_size(final(self).snapshots()) <= old(
                self,
            ).budget_bytes(),
            old(self).wf() ==> final(self).wf(),
    {
        let evicted: Vec<u64> = Vec::new();
        proof {
            assert(evicted@ =~= Seq::<u64>::empty());
        }
        if self.data.len() < 8 {
            return evicted;
        }
        let total: u128 = self.total_bytes();
        if total <= self.budget as u128 {
            return evicted;
        }
        let mut evicted: Vec<u64> = evicted;
        let mut total: u128 = total;
        let ghost orig = self.data@;
        let ghost b = self.budget as int;
        while total > self.budget as u128
            invariant
                b == self.budget as int,
                total as int == total_size(self.data@),
                self.data@ =~= orig.skip(evicted@.len() as int),
                evicted@.len() <= orig.len(),
                evicted@ == orig.take(evicted@.len() as int).map_values(|s: BinSet| s.timestamp),
                spec_evict_count(orig, b) == evicted@.len() + spec_evict_count(self.data@, b),
            decreases self.data@.len(),
        {
            proof {
                lemma_total_size_nonneg(self.data@.drop_first());
                if self.data@.len() == 0 {
                    assert(total_size(self.data@) == 0);
                }
            }
            let first: BinSet = self.data.remove(0);
            let ghost m = evicted@.len() as int;
            evicted.push(first.timestamp);
            proof {
                let prev = orig.skip(m);
                assert(prev.len() > 0);
                assert(self.data@ =~= prev.drop_first());
                assert(self.data@ =~= orig.skip(m + 1));
                assert(first == prev.first());
                assert(first == orig[m]);
                assert(orig.take(m + 1).drop_last() =~= orig.take(m));
                assert(orig.take(m + 1) == orig.take(m).push(orig[m]));
                assert(orig.take(m + 1).map_values(|s: BinSet| s.timestamp) =~= orig.take(
                    m,
                ).map_values(|s: BinSet| s.timestamp).push(first.timestamp));
                assert(total_size(prev) == first.size + total_size(prev.drop_first()));
                assert(spec_evict_count(prev, b) == 1 + spec_evict_count(prev.drop_first(), b));
            }
            total = total - first.size as u128;
        }
        proof {
            assert(spec_evict_count(self.data@, b) == 0);
            let k = spec_evict_count(orig, b) as int;
            assert(k == evicted@.len());
            if ts_sorted(orig) {
                assert forall|x: int, y: int|
                    0 <= x < y < self.data@.len() implies self.data@[x].timestamp
                    < self.data@[y].timestamp by {
                    assert(self.data@[x] == orig[k + x]);
                    assert(self.data@[y] == orig[k + y]);
                }
            }
        }
        evicted
    }
}

} // verus!
