//! The adjacent-pair scan over the reversed collection: a histogram keyed by
//! shared-prefix length, and a tally of overlap groups keyed by divergence
//! point. Chunks of the scan are computed independently and merged by
//! summing matching keys.
use vstd::prelude::*;
use crate::order::{common_prefix, common_prefix_len, lemma_common_prefix_len};
use crate::tally::{bump_map, count_of, merge_counts, CountTable, TallyKey};

verus! {

impl TallyKey for usize {
    type M = int;

    open spec fn model(&self) -> int {
        *self as int
    }

    fn same_key(&self, other: &usize) -> (r: bool) {
        *self == *other
    }
}

/// Are the two id sequences equal?
pub fn eq_ids(a: &Vec<u32>, b: &Vec<u32>) -> (r: bool)
    ensures
        r == (a@ == b@),
{
    if a.len() != b.len() {
        proof {
            assert(a@.len() != b@.len());
        }
        return false;
    }
    let mut i: usize = 0;
    while i < a.len()
        invariant
            a@.len() == b@.len(),
            0 <= i <= a@.len(),
            forall|k: int| 0 <= k < i ==> a@[k] == b@[k],
        decreases a@.len() - i,
    {
        if a[i] != b[i] {
            return false;
        }
        i = i + 1;
    }
    proof {
        assert(a@ =~= b@);
    }
    true
}

/// The key of an overlap group: the last shared id of the pair (the anchor)
/// and the two divergent suffixes, each beginning with the anchor.
pub struct GroupKey {
    pub anchor: u32,
    pub a_suffix: Vec<u32>,
    pub b_suffix: Vec<u32>,
}

/// The mathematical value of a group key.
#[verifier::ext_equal]
pub struct GroupKeyModel {
    pub anchor: u32,
    pub a_suffix: Seq<u32>,
    pub b_suffix: Seq<u32>,
}

impl View for GroupKey {
    type V = GroupKeyModel;

    open spec fn view(&self) -> GroupKeyModel {
        GroupKeyModel { anchor: self.anchor, a_suffix: self.a_suffix@, b_suffix: self.b_suffix@ }
    }
}

impl TallyKey for GroupKey {
    type M = GroupKeyModel;

    open spec fn model(&self) -> GroupKeyModel {
        self@
    }

    fn same_key(&self, other: &GroupKey) -> (r: bool) {
        let r = self.anchor == other.anchor && eq_ids(&self.a_suffix, &other.a_suffix) && eq_ids(
            &self.b_suffix,
            &other.b_suffix,
        );
        proof {
            if r {
                assert(self@ =~= other@);
            }
        }
        r
    }
}

/// What one scan pass accumulates: the histogram of shared-prefix lengths
/// and the per-group pair counts.
#[verifier::ext_equal]
pub struct StatsModel {
    pub hist: Map<int, nat>,
    pub groups: Map<GroupKeyModel, nat>,
}

/// Accumulators for one scan pass.
pub struct Stats {
    pub hist: CountTable<usize>,
    pub groups: CountTable<GroupKey>,
}

impl View for Stats {
    type V = StatsModel;

    open spec fn view(&self) -> StatsModel {
        StatsModel { hist: self.hist@, groups: self.groups@ }
    }
}

/// No accumulated counts.
pub open spec fn stats_empty() -> StatsModel {
    StatsModel { hist: Map::empty(), groups: Map::empty() }
}

/// Every count is at most `bound`.
pub open spec fn stats_bounded(m: StatsModel, bound: nat) -> bool {
    &&& forall|k: int| m.hist.contains_key(k) ==> #[trigger] m.hist[k] <= bound
    &&& forall|g: GroupKeyModel| m.groups.contains_key(g) ==> #[trigger] m.groups[g] <= bound
}

/// What one adjacent pair contributes: nothing when the entries share no
/// leading id; otherwise one histogram tick under the shared length, and,
/// when more than one id is shared, one group tick under the key anchored
/// at the last shared position.
pub open spec fn pair_update(m: StatsModel, a: Seq<u32>, b: Seq<u32>) -> StatsModel {
    let c = common_prefix_len(a, b);
    if c == 0 {
        m
    } else {
        let m1 = StatsModel { hist: bump_map(m.hist, c, 1), ..m };
        if c > 1 {
            StatsModel {
                groups: bump_map(
                    m1.groups,
                    GroupKeyModel { anchor: a[c - 1], a_suffix: a.skip(c - 1), b_suffix: b.skip(c - 1) },
                    1,
                ),
                ..m1
            }
        } else {
            m1
        }
    }
}

/// The accumulated contributions of the adjacent pairs `(i, i+1)` for `i`
/// in `[lo, hi)`.
pub open spec fn scan_stats(s: Seq<Seq<u32>>, lo: int, hi: int) -> StatsModel
    decreases hi - lo,
    when lo <= hi
{
    if lo >= hi {
        stats_empty()
    } else {
        pair_update(scan_stats(s, lo, hi - 1), s[hi - 1], s[hi])
    }
}

/// The pointwise sum of two accumulations.
pub open spec fn merge_model(a: StatsModel, b: StatsModel) -> StatsModel {
    StatsModel {
        hist: merge_counts(a.hist, b.hist),
        groups: merge_counts(a.groups, b.groups),
    }
}

impl Stats {
    /// Both tables are well formed.
    pub open spec fn wf(&self) -> bool {
        self.hist.wf() && self.groups.wf()
    }

    /// Empty accumulators.
    pub fn new() -> (r: Stats)
        ensures
            r.wf(),
            r@ == stats_empty(),
    {
        let r = Stats { hist: CountTable::new(), groups: CountTable::new() };
        proof {
            assert(r@ =~= stats_empty());
        }
        r
    }
}

/// The entry's ids from `start` on.
pub fn tail_from(e: &Vec<u32>, start: usize) -> (r: Vec<u32>)
    requires
        start <= e@.len(),
    ensures
        r@ == e@.skip(start as int),
{
    let mut r: Vec<u32> = Vec::new();
    let mut i: usize = start;
    while i < e.len()
        invariant
            start <= i <= e@.len(),
            r@.len() == i - start,
            forall|k: int| 0 <= k < r@.len() ==> r@[k] == e@[start + k],
        decreases e@.len() - i,
    {
        r.push(e[i]);
        i = i + 1;
    }
    proof {
        assert(r@ =~= e@.skip(start as int));
    }
    r
}

/// Record one adjacent pair of the reversed collection.
pub fn compare_adjacent(this: &Vec<u32>, next: &Vec<u32>, stats: &mut Stats)
    requires
        old(stats).wf(),
        stats_bounded(old(stats)@, (usize::MAX - 1) as nat),
    ensures
        final(stats).wf(),
        final(stats)@ == pair_update(old(stats)@, this@, next@),
{
    let c = common_prefix(this, next);
    proof {
        lemma_common_prefix_len(this@, next@);
    }
    if c == 0 {
        return ;
    }
    proof {
        if old(stats)@.hist.contains_key(c as int) {
            assert(old(stats)@.hist[c as int] <= usize::MAX - 1);
        }
    }
    stats.hist.bump(c, 1);
    if c > 1 {
        let key = GroupKey {
            anchor: this[c - 1],
            a_suffix: tail_from(this, c - 1),
            b_suffix: tail_from(next, c - 1),
        };
        proof {
            if old(stats)@.groups.contains_key(key@) {
                assert(old(stats)@.groups[key@] <= usize::MAX - 1);
            }
            assert(stats.groups@ == old(stats)@.groups);
        }
        stats.groups.bump(key, 1);
        proof {
            assert(stats@ =~= pair_update(old(stats)@, this@, next@));
        }
    } else {
        proof {
            assert(stats@ =~= pair_update(old(stats)@, this@, next@));
        }
    }
}

/// Every count after scanning `[lo, hi)` is at most the number of pairs
/// scanned.
pub proof fn lemma_scan_bounds(s: Seq<Seq<u32>>, lo: int, hi: int)
    requires
        lo <= hi,
    ensures
        stats_bounded(scan_stats(s, lo, hi), (hi - lo) as nat),
    decreases hi - lo,
{
    if lo < hi {
        lemma_scan_bounds(s, lo, hi - 1);
        let m = scan_stats(s, lo, hi - 1);
        let m2 = scan_stats(s, lo, hi);
        assert forall|k: int| m2.hist.contains_key(k) implies #[trigger] m2.hist[k] <= (hi - lo)
            as nat by {
            if m.hist.contains_key(k) {
                assert(m.hist[k] <= (hi - 1 - lo) as nat);
            }
        }
        assert forall|g: GroupKeyModel| m2.groups.contains_key(g) implies #[trigger] m2.groups[g]
            <= (hi - lo) as nat by {
            if m.groups.contains_key(g) {
                assert(m.groups[g] <= (hi - 1 - lo) as nat);
            }
        }
    }
}

/// Scan the adjacent pairs `(i, i+1)` for `i` in `[lo, hi)` of the reversed
/// collection.
pub fn scan_chunk(entries: &Vec<Vec<u32>>, lo: usize, hi: usize) -> (r: Stats)
    requires
        lo <= hi,
        lo == hi || hi + 1 <= entries@.len(),
    ensures
        r.wf(),
        r@ == scan_stats(crate::files::entry_views(entries@), lo as int, hi as int),
{
    let ghost views = crate::files::entry_views(entries@);
    let mut stats = Stats::new();
    let mut i: usize = lo;
    while i < hi
        invariant
            lo <= i <= hi,
            lo == hi || hi + 1 <= entries@.len(),
            views == crate::files::entry_views(entries@),
            stats.wf(),
            stats@ == scan_stats(views, lo as int, i as int),
        decreases hi - i,
    {
        proof {
            lemma_scan_bounds(views, lo as int, i as int);
            assert(i - lo <= usize::MAX - 1);
            assert(views[i as int] == entries@[i as int]@);
            assert(views[i + 1int] == entries@[i + 1int]@);
        }
        compare_adjacent(&entries[i], &entries[i + 1], &mut stats);
        i = i + 1;
    }
    stats
}

/// Merging commutes with recording one more pair on the right summand.
proof fn lemma_merge_pair_update(a: StatsModel, b: StatsModel, x: Seq<u32>, y: Seq<u32>)
    ensures
        merge_model(a, pair_update(b, x, y)) == pair_update(merge_model(a, b), x, y),
{
    let c = common_prefix_len(x, y);
    if c != 0 {
        assert(merge_counts(a.hist, bump_map(b.hist, c, 1)) =~= bump_map(
            merge_counts(a.hist, b.hist),
            c,
            1,
        ));
        if c > 1 {
            let g = GroupKeyModel { anchor: x[c - 1], a_suffix: x.skip(c - 1), b_suffix: y.skip(c - 1) };
            assert(merge_counts(a.groups, bump_map(b.groups, g, 1)) =~= bump_map(
                merge_counts(a.groups, b.groups),
                g,
                1,
            ));
        }
        assert(merge_model(a, pair_update(b, x, y)) =~= pair_update(merge_model(a, b), x, y));
    } else {
        assert(merge_model(a, pair_update(b, x, y)) =~= pair_update(merge_model(a, b), x, y));
    }
}

/// Scanning a whole range accumulates the same counts as scanning two
/// adjacent subranges independently and summing matching keys: the chunked,
/// merged scan equals the sequential one.
pub proof fn lemma_scan_split(s: Seq<Seq<u32>>, lo: int, mid: int, hi: int)
    requires
        lo <= mid <= hi,
    ensures
        scan_stats(s, lo, hi) == merge_model(scan_stats(s, lo, mid), scan_stats(s, mid, hi)),
    decreases hi - mid,
{
    if mid == hi {
        assert(merge_model(scan_stats(s, lo, mid), stats_empty()) =~= scan_stats(s, lo, mid)) by {
            assert(merge_counts(scan_stats(s, lo, mid).hist, Map::<int, nat>::empty())
                =~= scan_stats(s, lo, mid).hist);
            assert(merge_counts(scan_stats(s, lo, mid).groups, Map::<GroupKeyModel, nat>::empty())
                =~= scan_stats(s, lo, mid).groups);
        }
    } else {
        lemma_scan_split(s, lo, mid, hi - 1);
        lemma_merge_pair_update(
            scan_stats(s, lo, mid),
            scan_stats(s, mid, hi - 1),
            s[hi - 1],
            s[hi],
        );
    }
}

impl Stats {
    /// Fold another accumulation into this one, summing matching keys.
    pub fn merge_from(&mut self, other: Stats)
        requires
            old(self).wf(),
            other.wf(),
            forall|k: int|
                #![trigger count_of(old(self)@.hist, k)]
                count_of(old(self)@.hist, k) + count_of(other@.hist, k) <= usize::MAX,
            forall|g: GroupKeyModel|
                #![trigger count_of(old(self)@.groups, g)]
                count_of(old(self)@.groups, g) + count_of(other@.groups, g) <= usize::MAX,
        ensures
            final(self).wf(),
            final(self)@ == merge_model(old(self)@, other@),
    {
        let ghost a0 = old(self)@;
        let ghost b0 = other@;
        let mut other = other;
        loop
            invariant
                self.hist.wf(),
                other.hist.wf(),
                self.groups.wf(),
                other.groups.wf(),
                self.groups@ == a0.groups,
                other.groups@ == b0.groups,
                merge_counts(self.hist@, other.hist@) == merge_counts(a0.hist, b0.hist),
                forall|k: int|
                    #![trigger count_of(self.hist@, k)]
                    count_of(self.hist@, k) + count_of(other.hist@, k) <= usize::MAX,
            ensures
                self.hist.wf(),
                self.groups.wf(),
                other.groups.wf(),
                self.groups@ == a0.groups,
                other.groups@ == b0.groups,
                other.hist@ == Map::<int, nat>::empty(),
                merge_counts(self.hist@, other.hist@) == merge_counts(a0.hist, b0.hist),
            decreases other.hist@.len(),
        {
            let ghost s_pre = self.hist@;
            let ghost o_pre = other.hist@;
            match other.hist.take() {
                None => {
                    break ;
                },
                Some((k, v)) => {
                    proof {
                        assert(count_of(s_pre, k.model()) + v <= usize::MAX);
                    }
                    self.hist.bump(k, v);
                    proof {
                        assert(merge_counts(self.hist@, other.hist@) =~= merge_counts(
                            s_pre,
                            o_pre,
                        ));
                        assert forall|q: int| #![trigger count_of(self.hist@, q)]
                            count_of(self.hist@, q) + count_of(other.hist@, q)
                            <= usize::MAX by {
                            assert(count_of(s_pre, q) + count_of(o_pre, q) <= usize::MAX);
                        }
                    }
                },
            }
        }
        proof {
            assert(self.hist@ =~= merge_counts(a0.hist, b0.hist)) by {
                assert(merge_counts(self.hist@, other.hist@) =~= self.hist@);
            }
        }
        loop
            invariant
                self.hist.wf(),
                other.hist.wf(),
                self.groups.wf(),
                other.groups.wf(),
                self.hist@ == merge_counts(a0.hist, b0.hist),
                merge_counts(self.groups@, other.groups@) == merge_counts(a0.groups, b0.groups),
                forall|g: GroupKeyModel|
                    #![trigger count_of(self.groups@, g)]
                    count_of(self.groups@, g) + count_of(other.groups@, g) <= usize::MAX,
            ensures
                self.hist.wf(),
                self.groups.wf(),
                self.hist@ == merge_counts(a0.hist, b0.hist),
                other.groups@ == Map::<GroupKeyModel, nat>::empty(),
                merge_counts(self.groups@, other.groups@) == merge_counts(a0.groups, b0.groups),
            decreases other.groups@.len(),
        {
            let ghost s_pre = self.groups@;
            let ghost o_pre = other.groups@;
            match other.groups.take() {
                None => {
                    break ;
                },
                Some((k, v)) => {
                    proof {
                        assert(count_of(s_pre, k.model()) + v <= usize::MAX);
                    }
                    self.groups.bump(k, v);
                    proof {
                        assert(merge_counts(self.groups@, other.groups@) =~= merge_counts(
                            s_pre,
                            o_pre,
                        ));
                        assert forall|g: GroupKeyModel| #![trigger count_of(self.groups@, g)]
                            count_of(self.groups@, g) + count_of(other.groups@, g)
                            <= usize::MAX by {
                            assert(count_of(s_pre, g) + count_of(o_pre, g) <= usize::MAX);
                        }
                    }
                },
            }
        }
        proof {
            assert(self.groups@ =~= merge_counts(a0.groups, b0.groups)) by {
                assert(merge_counts(self.groups@, other.groups@) =~= self.groups@);
            }
            assert(self@ =~= merge_model(a0, b0));
        }
    }
}

/// Every group key the scan records carries real ids: the anchor and every
/// suffix id come from the scanned entries.
pub proof fn lemma_scan_keys_valid(s: Seq<Seq<u32>>, lo: int, hi: int, n: int)
    requires
        0 <= lo <= hi,
        lo == hi || hi < s.len(),
        crate::files::ids_valid(s, n),
    ensures
        forall|g: GroupKeyModel|
            scan_stats(s, lo, hi).groups.contains_key(g) ==> 0 < (#[trigger] g.anchor) < n
                && crate::files::entry_ids_valid(g.a_suffix, n) && crate::files::entry_ids_valid(
                g.b_suffix,
                n,
            ),
    decreases hi - lo,
{
    if lo < hi {
        lemma_scan_keys_valid(s, lo, hi - 1, n);
        let m = scan_stats(s, lo, hi - 1);
        let a = s[hi - 1];
        let b = s[hi];
        let c = common_prefix_len(a, b);
        lemma_common_prefix_len(a, b);
        assert forall|g: GroupKeyModel|
            scan_stats(s, lo, hi).groups.contains_key(g) implies 0 < (#[trigger] g.anchor) < n
            && crate::files::entry_ids_valid(g.a_suffix, n) && crate::files::entry_ids_valid(
            g.b_suffix,
            n,
        ) by {
            if !m.groups.contains_key(g) {
                assert(c > 1);
                assert(g == GroupKeyModel {
                    anchor: a[c - 1],
                    a_suffix: a.skip(c - 1),
                    b_suffix: b.skip(c - 1),
                });
                assert(crate::files::entry_ids_valid(a, n));
                assert(crate::files::entry_ids_valid(b, n));
                assert(0 < a[c - 1] < n);
                assert forall|t: int|
                    0 <= t < g.a_suffix.len() implies 0 < #[trigger] g.a_suffix[t] < n by {
                    assert(g.a_suffix[t] == a[c - 1 + t]);
                }
                assert forall|t: int|
                    0 <= t < g.b_suffix.len() implies 0 < #[trigger] g.b_suffix[t] < n by {
                    assert(g.b_suffix[t] == b[c - 1 + t]);
                }
            }
        }
    }
}

} // verus!

