//! Subtree ranges and overlap counting: binary search finds the contiguous
//! range of forward-sorted entries below a parent directory, and the sorted
//! merge-join compares two such ranges with their parent prefixes skipped.
use vstd::prelude::*;
use std::cmp::Ordering;
use crate::files::{entry_views, Files};
use crate::order::{
    cmp_seq, compare_file_entry, lemma_cmp_seq_equal, lemma_cmp_seq_flip, lemma_cmp_seq_trans,
};
use crate::search::{key_cmp_ascending, merge_join_from, Ext, KeyCmp, PairCmp};
use crate::files::reversed;

verus! {

/// `t` begins with `p`.
pub open spec fn starts_with(t: Seq<u32>, p: Seq<u32>) -> bool {
    t.len() >= p.len() && t.take(p.len() as int) == p
}

/// The entry compared against a fixed prefix: only the entry's leading run
/// of the prefix's length takes part.
pub open spec fn prefix_cmp(t: Seq<u32>, p: Seq<u32>) -> Ordering {
    if t.len() <= p.len() {
        cmp_seq(t, p)
    } else {
        cmp_seq(t.take(p.len() as int), p)
    }
}

/// The prefix comparison answers `Less` exactly when the whole entry sorts
/// before the prefix.
pub proof fn lemma_prefix_cmp_less(t: Seq<u32>, p: Seq<u32>)
    ensures
        (prefix_cmp(t, p) == Ordering::Less) <==> (cmp_seq(t, p) == Ordering::Less),
    decreases t.len(),
{
    if t.len() <= p.len() {
    } else {
        if t.len() != 0 && p.len() != 0 && t[0] == p[0] {
            lemma_prefix_cmp_less(t.drop_first(), p.drop_first());
            assert(t.take(p.len() as int)[0] == t[0]);
            assert(t.take(p.len() as int).drop_first() =~= t.drop_first().take(p.len() - 1));
        } else if p.len() == 0 {
            // the truncation is empty, so it compares Equal; t is longer, so
            // the full comparison is Greater
            assert(t.take(0) =~= Seq::<u32>::empty());
        } else {
            assert(t.take(p.len() as int)[0] == t[0]);
        }
    }
}

/// The prefix comparison answers `Equal` exactly when the entry begins with
/// the prefix.
pub proof fn lemma_prefix_cmp_equal(t: Seq<u32>, p: Seq<u32>)
    ensures
        (prefix_cmp(t, p) == Ordering::Equal) <==> starts_with(t, p),
{
    if t.len() <= p.len() {
        lemma_cmp_seq_equal(t, p);
        if t == p {
            assert(t.take(p.len() as int) =~= p);
        }
        if starts_with(t, p) {
            assert(t =~= p);
        }
    } else {
        lemma_cmp_seq_equal(t.take(p.len() as int), p);
    }
}

/// Anything ordered between a prefix and an entry beginning with that
/// prefix itself begins with the prefix.
pub proof fn lemma_between_prefix(p: Seq<u32>, x: Seq<u32>, y: Seq<u32>)
    requires
        cmp_seq(p, x) != Ordering::Greater,
        cmp_seq(x, y) != Ordering::Greater,
        starts_with(y, p),
    ensures
        starts_with(x, p),
    decreases p.len(),
{
    if p.len() == 0 {
        assert(x.take(0) =~= Seq::<u32>::empty());
        assert(p =~= Seq::<u32>::empty());
    } else {
        assert(x.len() != 0);
        assert(y.len() != 0);
        assert(y.take(p.len() as int)[0] == y[0]);
        assert(y[0] == p[0]);
        // heads: p[0] <= x[0] <= y[0] == p[0]
        assert(p[0] == x[0]);
        assert(starts_with(y.drop_first(), p.drop_first())) by {
            assert(y.drop_first().take(p.len() - 1) =~= y.take(p.len() as int).drop_first());
        }
        lemma_between_prefix(p.drop_first(), x.drop_first(), y.drop_first());
        assert(x.drop_first().take(p.len() - 1) == p.drop_first());
        assert(x.take(p.len() as int) =~= p) by {
            assert forall|k: int| 0 <= k < p.len() implies x.take(p.len() as int)[k] == p[k] by {
                if k > 0 {
                    assert(x.drop_first().take(p.len() - 1)[k - 1] == p.drop_first()[k - 1]);
                }
            }
        }
    }
}

/// Compares each entry's leading run against a fixed search prefix.
pub struct PrefixCmp {
    pub prefix: Vec<u32>,
}

impl KeyCmp<Vec<u32>> for PrefixCmp {
    open spec fn cmp_spec(&self, t: Vec<u32>) -> Ordering {
        prefix_cmp(t@, self.prefix@)
    }

    fn key_cmp(&self, t: &Vec<u32>) -> (r: Ordering) {
        let m: usize = if t.len() <= self.prefix.len() {
            t.len()
        } else {
            self.prefix.len()
        };
        let mut i: usize = 0;
        let ghost tv = if t@.len() <= self.prefix@.len() {
            t@
        } else {
            t@.take(self.prefix@.len() as int)
        };
        proof {
            assert(tv.len() == m);
            assert(forall|k: int| 0 <= k < m ==> tv[k] == t@[k]);
            assert(tv.skip(0) =~= tv);
            assert(self.prefix@.skip(0) =~= self.prefix@);
        }
        while i < m && i < self.prefix.len() && t[i] == self.prefix[i]
            invariant
                m <= t@.len(),
                m <= self.prefix@.len() || m == t@.len(),
                tv.len() == m,
                forall|k: int| 0 <= k < m ==> tv[k] == t@[k],
                0 <= i <= m,
                i <= self.prefix@.len(),
                cmp_seq(tv, self.prefix@) == cmp_seq(
                    tv.skip(i as int),
                    self.prefix@.skip(i as int),
                ),
            decreases m - i,
        {
            proof {
                crate::order::lemma_cmp_seq_skip_unfold(tv, self.prefix@, i as int);
                assert(tv[i as int] == t@[i as int]);
            }
            i = i + 1;
        }
        proof {
            crate::order::lemma_cmp_seq_skip_unfold(tv, self.prefix@, i as int);
            if i < m && i < self.prefix@.len() {
                assert(tv[i as int] == t@[i as int]);
            }
        }
        if i == m && i == self.prefix.len() {
            Ordering::Equal
        } else if i == m {
            Ordering::Less
        } else if i == self.prefix.len() {
            Ordering::Greater
        } else if t[i] < self.prefix[i] {
            Ordering::Less
        } else {
            Ordering::Greater
        }
    }
}

/// In a sorted collection, the prefix comparison is ascending: binary
/// search may be used with it.
pub proof fn lemma_prefix_cmp_ascending(s: Seq<Vec<u32>>, c: PrefixCmp)
    requires
        crate::files::entries_sorted(entry_views(s)),
    ensures
        key_cmp_ascending(s, c),
{
    let p = c.prefix@;
    assert forall|i: int, j: int|
        #![trigger c.cmp_spec(s[i]), c.cmp_spec(s[j])]
        0 <= i <= j < s.len() implies {
        &&& (c.cmp_spec(s[j]) == Ordering::Less ==> c.cmp_spec(s[i]) == Ordering::Less)
        &&& (c.cmp_spec(s[i]) == Ordering::Greater ==> c.cmp_spec(s[j]) == Ordering::Greater)
    } by {
        let x = s[i]@;
        let y = s[j]@;
        assert(entry_views(s)[i] == x);
        assert(entry_views(s)[j] == y);
        if i < j {
            assert(cmp_seq(x, y) != Ordering::Greater);
        } else {
            lemma_cmp_seq_equal(x, y);
        }
        lemma_prefix_cmp_less(x, p);
        lemma_prefix_cmp_less(y, p);
        if prefix_cmp(y, p) == Ordering::Less {
            // y sorts before p, and x sorts no later than y
            lemma_cmp_seq_trans(x, y, p);
        }
        if prefix_cmp(x, p) == Ordering::Greater {
            if prefix_cmp(y, p) == Ordering::Less {
                lemma_cmp_seq_trans(x, y, p);
            }
            if prefix_cmp(y, p) == Ordering::Equal {
                lemma_prefix_cmp_equal(y, p);
                lemma_cmp_seq_flip(x, p);
                lemma_between_prefix(p, x, y);
                lemma_prefix_cmp_equal(x, p);
            }
        }
    }
}

/// The contiguous index range of the sorted collection whose entries begin
/// with the prefix: entries before it sort strictly before the prefix, and
/// entries after it sort strictly after every extension of the prefix.
pub fn bounds_of_prefix(prefix: Vec<u32>, haystack: &Vec<Vec<u32>>) -> (r: (usize, usize))
    requires
        crate::files::entries_sorted(entry_views(haystack@)),
    ensures
        0 <= r.0 <= r.1 <= haystack@.len(),
        forall|k: int|
            0 <= k < r.0 ==> cmp_seq(#[trigger] haystack@[k]@, prefix@) == Ordering::Less,
        forall|k: int| r.0 <= k < r.1 ==> starts_with(#[trigger] haystack@[k]@, prefix@),
        forall|k: int|
            r.1 <= k < haystack@.len() ==> prefix_cmp(#[trigger] haystack@[k]@, prefix@)
                == Ordering::Greater,
        forall|k: int|
            0 <= k < haystack@.len() && !(r.0 <= k < r.1) ==> !starts_with(
                #[trigger] haystack@[k]@,
                prefix@,
            ),
{
    let c = PrefixCmp { prefix };
    proof {
        lemma_prefix_cmp_ascending(haystack@, c);
    }
    let lo = haystack.lower_bound_by(&c);
    let hi = haystack.upper_bound_by(&c);
    proof {
        let p = c.prefix@;
        if hi < lo {
            assert(c.cmp_spec(haystack@[hi as int]) != Ordering::Greater);
            assert(c.cmp_spec(haystack@[hi as int]) == Ordering::Less);
        }
        assert forall|k: int| 0 <= k < lo implies cmp_seq(#[trigger] haystack@[k]@, p)
            == Ordering::Less by {
            assert(c.cmp_spec(haystack@[k]) == Ordering::Less);
            lemma_prefix_cmp_less(haystack@[k]@, p);
        }
        assert forall|k: int| lo <= k < hi implies starts_with(#[trigger] haystack@[k]@, p) by {
            assert(c.cmp_spec(haystack@[k]) != Ordering::Less);
            assert(c.cmp_spec(haystack@[k]) != Ordering::Greater);
            lemma_prefix_cmp_equal(haystack@[k]@, p);
        }
        assert forall|k: int|
            0 <= k < haystack@.len() && !(lo <= k < hi) implies !starts_with(
            #[trigger] haystack@[k]@,
            p,
        ) by {
            lemma_prefix_cmp_equal(haystack@[k]@, p);
            if k < lo {
                assert(c.cmp_spec(haystack@[k]) == Ordering::Less);
            } else {
                assert(c.cmp_spec(haystack@[k]) == Ordering::Greater);
            }
        }
    }
    (lo, hi)
}

/// The sequence from `n` on; everything gone when `n` passes the end.
pub open spec fn skip_safe(s: Seq<u32>, n: int) -> Seq<u32> {
    if n <= s.len() {
        s.skip(n)
    } else {
        Seq::empty()
    }
}

/// Compares two entries with a fixed number of leading ids of each skipped.
pub struct SuffixCmp {
    pub skip_a: usize,
    pub skip_b: usize,
}

impl PairCmp<Vec<u32>> for SuffixCmp {
    open spec fn cmp_spec(&self, a: Vec<u32>, b: Vec<u32>) -> Ordering {
        cmp_seq(skip_safe(a@, self.skip_a as int), skip_safe(b@, self.skip_b as int))
    }

    fn pair_cmp(&self, a: &Vec<u32>, b: &Vec<u32>) -> (r: Ordering) {
        let ta = crate::stats::tail_from(a, if self.skip_a <= a.len() {
            self.skip_a
        } else {
            a.len()
        });
        let tb = crate::stats::tail_from(b, if self.skip_b <= b.len() {
            self.skip_b
        } else {
            b.len()
        });
        proof {
            if self.skip_a > a@.len() {
                assert(ta@ =~= skip_safe(a@, self.skip_a as int));
            }
            if self.skip_b > b@.len() {
                assert(tb@ =~= skip_safe(b@, self.skip_b as int));
            }
        }
        compare_file_entry(ta.as_slice(), tb.as_slice())
    }
}

/// The three overlap counts (left-only, right-only, common) that the sorted
/// merge-join reports for two ranges of entries when the first `n1` ids of a
/// left entry and the first `n2` ids of a right entry are skipped.
pub open spec fn overlap_counts_from(
    av: Seq<Seq<u32>>,
    bv: Seq<Seq<u32>>,
    n1: int,
    n2: int,
    i: int,
    j: int,
) -> (int, int, int)
    decreases av.len() + bv.len() - i - j,
    when 0 <= i <= av.len() && 0 <= j <= bv.len()
{
    if i == av.len() && j == bv.len() {
        (0, 0, 0)
    } else if i == av.len() {
        (0, bv.len() - j, 0)
    } else if j == bv.len() {
        (av.len() - i, 0, 0)
    } else {
        let o = cmp_seq(skip_safe(av[i], n1), skip_safe(bv[j], n2));
        if o == Ordering::Less {
            let r = overlap_counts_from(av, bv, n1, n2, i + 1, j);
            (r.0 + 1, r.1, r.2)
        } else if o == Ordering::Greater {
            let r = overlap_counts_from(av, bv, n1, n2, i, j + 1);
            (r.0, r.1 + 1, r.2)
        } else {
            let r = overlap_counts_from(av, bv, n1, n2, i + 1, j + 1);
            (r.0, r.1, r.2 + 1)
        }
    }
}

/// The overlap counts for two whole ranges.
pub open spec fn overlap_counts(av: Seq<Seq<u32>>, bv: Seq<Seq<u32>>, n1: int, n2: int) -> (
    int,
    int,
    int,
) {
    overlap_counts_from(av, bv, n1, n2, 0, 0)
}

/// The merge-join of two entry vectors under the suffix comparator counts
/// exactly what `overlap_counts` says of their id sequences.
proof fn lemma_overlap_counts(a: Seq<Vec<u32>>, b: Seq<Vec<u32>>, c: SuffixCmp, i: int, j: int)
    requires
        0 <= i <= a.len(),
        0 <= j <= b.len(),
    ensures
        ({
            let (left, right, both) = merge_join_from(a, b, c, i, j);
            let n = overlap_counts_from(
                entry_views(a),
                entry_views(b),
                c.skip_a as int,
                c.skip_b as int,
                i,
                j,
            );
            left.len() == n.0 && right.len() == n.1 && both.len() == n.2
        }),
    decreases a.len() + b.len() - i - j,
{
    if i == a.len() && j == b.len() {
    } else if i == a.len() {
    } else if j == b.len() {
    } else {
        let o = c.cmp_spec(a[i], b[j]);
        assert(entry_views(a)[i] == a[i]@);
        assert(entry_views(b)[j] == b[j]@);
        if o == Ordering::Less {
            lemma_overlap_counts(a, b, c, i + 1, j);
        } else if o == Ordering::Greater {
            lemma_overlap_counts(a, b, c, i, j + 1);
        } else {
            lemma_overlap_counts(a, b, c, i + 1, j + 1);
        }
    }
}

/// A deep copy of the entries in `[lo, hi)`.
fn copy_range(v: &Vec<Vec<u32>>, lo: usize, hi: usize) -> (r: Vec<Vec<u32>>)
    requires
        lo <= hi <= v@.len(),
    ensures
        entry_views(r@) == entry_views(v@).subrange(lo as int, hi as int),
{
    let mut r: Vec<Vec<u32>> = Vec::new();
    let mut i: usize = lo;
    while i < hi
        invariant
            lo <= i <= hi <= v@.len(),
            r@.len() == i - lo,
            forall|k: int| 0 <= k < r@.len() ==> #[trigger] r@[k]@ == v@[lo + k]@,
        decreases hi - i,
    {
        r.push(crate::stats::tail_from(&v[i], 0));
        proof {
            assert(r@.last()@ =~= v@[i as int]@);
        }
        i = i + 1;
    }
    proof {
        assert(entry_views(r@) =~= entry_views(v@).subrange(lo as int, hi as int));
    }
    r
}

/// Everything `bounds_of_prefix` promises of a range, gathered up.
pub open spec fn prefix_block(views: Seq<Seq<u32>>, p: Seq<u32>, lo: int, hi: int) -> bool {
    &&& 0 <= lo <= hi <= views.len()
    &&& forall|k: int| 0 <= k < lo ==> cmp_seq(#[trigger] views[k], p) == Ordering::Less
    &&& forall|k: int| lo <= k < hi ==> starts_with(#[trigger] views[k], p)
    &&& forall|k: int| 0 <= k < views.len() && !(lo <= k < hi) ==> !starts_with(#[trigger] views[k], p)
}

/// The counts `(c, l, rr)` are what the merge-join reports for the ranges
/// of entries below the two forward-order parents `f1` and `f2`, with the
/// parents skipped.
pub open spec fn overlap_ok(
    views: Seq<Seq<u32>>,
    f1: Seq<u32>,
    f2: Seq<u32>,
    c: int,
    l: int,
    rr: int,
) -> bool {
    exists|lo1: int, hi1: int, lo2: int, hi2: int|
        {
            &&& #[trigger] prefix_block(views, f1, lo1, hi1)
            &&& #[trigger] prefix_block(views, f2, lo2, hi2)
            &&& ({
                let n = overlap_counts(
                    views.subrange(lo1, hi1),
                    views.subrange(lo2, hi2),
                    f1.len() as int,
                    f2.len() as int,
                );
                c == n.2 && l == n.0 && rr == n.1
            })
        }
}

/// Count the overlap between the two subtrees under the diverging parents:
/// each parent is given leaf-to-root, as sliced from a reversed-order
/// entry; its reversal is the root-to-leaf prefix whose subtree range is
/// looked up in the forward collection, and the two ranges are merge-joined
/// with the parents skipped. Returns `(common, left_only, right_only)`.
pub fn find_overlap(parent1: &Vec<u32>, parent2: &Vec<u32>, strings: &Files) -> (r: (
    usize,
    usize,
    usize,
))
    requires
        strings.wf(),
    ensures
        overlap_ok(
            entry_views(strings.files@),
            parent1@.reverse(),
            parent2@.reverse(),
            r.0 as int,
            r.1 as int,
            r.2 as int,
        ),
{
    let fwd1 = reversed(parent1);
    let fwd2 = reversed(parent2);
    let n1 = fwd1.len();
    let n2 = fwd2.len();
    let ghost f1 = parent1@.reverse();
    let ghost f2 = parent2@.reverse();
    let (lo1, hi1) = bounds_of_prefix(fwd1, &strings.files);
    let (lo2, hi2) = bounds_of_prefix(fwd2, &strings.files);
    let range_a = copy_range(&strings.files, lo1, hi1);
    let range_b = copy_range(&strings.files, lo2, hi2);
    let c = SuffixCmp { skip_a: n1, skip_b: n2 };
    let (left, right, both) = range_a.set_differences_by(&range_b, &c);
    proof {
        lemma_overlap_counts(range_a@, range_b@, c, 0, 0);
        let views = entry_views(strings.files@);
        assert(prefix_block(views, f1, lo1 as int, hi1 as int));
        assert(prefix_block(views, f2, lo2 as int, hi2 as int));
        assert(entry_views(range_a@) == views.subrange(lo1 as int, hi1 as int));
        assert(entry_views(range_b@) == views.subrange(lo2 as int, hi2 as int));
        assert(left@.map_values(|x: usize| x as int).len() == left@.len());
        assert(right@.map_values(|x: usize| x as int).len() == right@.len());
        assert(both@.map_values(|p: (usize, usize)| (p.0 as int, p.1 as int)).len()
            == both@.len());
    }
    (both.len(), left.len(), right.len())
}

/// Every entry of both ranges is counted exactly once: the one-sided counts
/// plus both sides of each common pair add up to the two range lengths, so
/// the common count never exceeds the total and the overlap ratio lies
/// between zero and one.
pub proof fn lemma_overlap_counts_total(av: Seq<Seq<u32>>, bv: Seq<Seq<u32>>, n1: int, n2: int)
    ensures
        ({
            let n = overlap_counts(av, bv, n1, n2);
            n.0 >= 0 && n.1 >= 0 && n.2 >= 0 && n.0 + n.1 + 2 * n.2 == av.len() + bv.len()
        }),
{
    lemma_overlap_counts_total_from(av, bv, n1, n2, 0, 0);
}

proof fn lemma_overlap_counts_total_from(
    av: Seq<Seq<u32>>,
    bv: Seq<Seq<u32>>,
    n1: int,
    n2: int,
    i: int,
    j: int,
)
    requires
        0 <= i <= av.len(),
        0 <= j <= bv.len(),
    ensures
        ({
            let n = overlap_counts_from(av, bv, n1, n2, i, j);
            n.0 >= 0 && n.1 >= 0 && n.2 >= 0 && n.0 + n.1 + 2 * n.2 == (av.len() - i) + (bv.len()
                - j)
        }),
    decreases av.len() + bv.len() - i - j,
{
    if i == av.len() && j == bv.len() {
    } else if i == av.len() {
    } else if j == bv.len() {
    } else {
        let o = cmp_seq(skip_safe(av[i], n1), skip_safe(bv[j], n2));
        if o == Ordering::Less {
            lemma_overlap_counts_total_from(av, bv, n1, n2, i + 1, j);
        } else if o == Ordering::Greater {
            lemma_overlap_counts_total_from(av, bv, n1, n2, i, j + 1);
        } else {
            lemma_overlap_counts_total_from(av, bv, n1, n2, i + 1, j + 1);
        }
    }
}

/// When the two subtrees hold the same file sets once their parent prefixes
/// are skipped, nothing is one-sided: everything is common, and the overlap
/// ratio is one.
pub proof fn lemma_overlap_counts_identical(av: Seq<Seq<u32>>, bv: Seq<Seq<u32>>, n1: int, n2: int)
    requires
        av.len() == bv.len(),
        forall|k: int|
            0 <= k < av.len() ==> skip_safe(#[trigger] av[k], n1) == skip_safe(bv[k], n2),
    ensures
        ({
            let n = overlap_counts(av, bv, n1, n2);
            n.0 == 0 && n.1 == 0 && n.2 == av.len()
        }),
{
    lemma_overlap_counts_identical_from(av, bv, n1, n2, 0);
}

proof fn lemma_overlap_counts_identical_from(
    av: Seq<Seq<u32>>,
    bv: Seq<Seq<u32>>,
    n1: int,
    n2: int,
    i: int,
)
    requires
        av.len() == bv.len(),
        0 <= i <= av.len(),
        forall|k: int|
            0 <= k < av.len() ==> skip_safe(#[trigger] av[k], n1) == skip_safe(bv[k], n2),
    ensures
        ({
            let n = overlap_counts_from(av, bv, n1, n2, i, i);
            n.0 == 0 && n.1 == 0 && n.2 == av.len() - i
        }),
    decreases av.len() - i,
{
    if i < av.len() {
        crate::order::lemma_cmp_seq_equal(skip_safe(av[i], n1), skip_safe(bv[i], n2));
        lemma_overlap_counts_identical_from(av, bv, n1, n2, i + 1);
    }
}

} // verus!

