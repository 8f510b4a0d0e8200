//! Generic ordered-sequence search and sorted merge-join over an
//! index-addressable collection, driven by a caller-supplied comparator.
use vstd::prelude::*;
use std::cmp::Ordering;

verus! {

/// A comparator that classifies one element relative to a fixed search key.
pub trait KeyCmp<T>: Sized {
    /// What the comparator answers, as a mathematical function.
    spec fn cmp_spec(&self, t: T) -> Ordering;

    /// Classify `t` relative to the key.
    fn key_cmp(&self, t: &T) -> (r: Ordering)
        ensures
            r == self.cmp_spec(*t),
    ;
}

/// A comparator over pairs of (projected) elements.
pub trait PairCmp<T>: Sized {
    /// What the comparator answers, as a mathematical function.
    spec fn cmp_spec(&self, a: T, b: T) -> Ordering;

    /// Compare `a` against `b`.
    fn pair_cmp(&self, a: &T, b: &T) -> (r: Ordering)
        ensures
            r == self.cmp_spec(*a, *b),
    ;
}

/// The sequence is ascending as seen through the key comparator: once the
/// answer stops being `Less` it never is `Less` again, and once it is
/// `Greater` it stays `Greater`.
pub open spec fn key_cmp_ascending<T, C: KeyCmp<T>>(s: Seq<T>, c: C) -> bool {
    forall|i: int, j: int|
        #![trigger c.cmp_spec(s[i]), c.cmp_spec(s[j])]
        0 <= i <= j < s.len() ==> {
            &&& (c.cmp_spec(s[j]) == Ordering::Less ==> c.cmp_spec(s[i]) == Ordering::Less)
            &&& (c.cmp_spec(s[i]) == Ordering::Greater ==> c.cmp_spec(s[j]) == Ordering::Greater)
        }
}

/// Index partitions produced by the sorted merge-join of `a` and `b` when
/// both cursors start at `i` and `j`: positions of `a` with no match, then
/// positions of `b` with no match, then matched position pairs.
pub open spec fn merge_join_from<T, C: PairCmp<T>>(
    a: Seq<T>,
    b: Seq<T>,
    c: C,
    i: int,
    j: int,
) -> (Seq<int>, Seq<int>, Seq<(int, int)>)
    decreases a.len() + b.len() - i - j,
    when 0 <= i <= a.len() && 0 <= j <= b.len()
{
    if i == a.len() && j == b.len() {
        (Seq::empty(), Seq::empty(), Seq::empty())
    } else if i == a.len() {
        (Seq::empty(), Seq::new((b.len() - j) as nat, |k: int| j + k), Seq::empty())
    } else if j == b.len() {
        (Seq::new((a.len() - i) as nat, |k: int| i + k), Seq::empty(), Seq::empty())
    } else {
        let o = c.cmp_spec(a[i], b[j]);
        if o == Ordering::Less {
            let r = merge_join_from(a, b, c, i + 1, j);
            (seq![i] + r.0, r.1, r.2)
        } else if o == Ordering::Greater {
            let r = merge_join_from(a, b, c, i, j + 1);
            (r.0, seq![j] + r.1, r.2)
        } else {
            let r = merge_join_from(a, b, c, i + 1, j + 1);
            (r.0, r.1, seq![(i, j)] + r.2)
        }
    }
}

/// Index partitions produced by the sorted merge-join of `a` and `b`.
pub open spec fn merge_join<T, C: PairCmp<T>>(a: Seq<T>, b: Seq<T>, c: C) -> (
    Seq<int>,
    Seq<int>,
    Seq<(int, int)>,
) {
    merge_join_from(a, b, c, 0, 0)
}

/// Binary search and merge-join over an ordered, index-addressable
/// collection.
pub trait Ext {
    type Item;

    /// The collection's contents, in order.
    spec fn seq(&self) -> Seq<Self::Item>;

    /// Smallest index whose element the comparator does not classify as
    /// `Less`; the length if it classifies every element as `Less`.
    fn lower_bound_by<C: KeyCmp<Self::Item>>(&self, c: &C) -> (i: usize)
        requires
            key_cmp_ascending(self.seq(), *c),
        ensures
            0 <= i <= self.seq().len(),
            forall|k: int| 0 <= k < i ==> c.cmp_spec(#[trigger] self.seq()[k]) == Ordering::Less,
            forall|k: int|
                i <= k < self.seq().len() ==> c.cmp_spec(#[trigger] self.seq()[k])
                    != Ordering::Less,
    ;

    /// Smallest index whose element the comparator classifies as `Greater`;
    /// the length if it classifies no element as `Greater`.
    fn upper_bound_by<C: KeyCmp<Self::Item>>(&self, c: &C) -> (i: usize)
        requires
            key_cmp_ascending(self.seq(), *c),
        ensures
            0 <= i <= self.seq().len(),
            forall|k: int| 0 <= k < i ==> c.cmp_spec(#[trigger] self.seq()[k]) != Ordering::Greater,
            forall|k: int|
                i <= k < self.seq().len() ==> c.cmp_spec(#[trigger] self.seq()[k])
                    == Ordering::Greater,
    ;

    /// Walk `self` and `other` in lockstep and classify every position:
    /// positions of `self` with no match in `other`, positions of `other`
    /// with no match in `self`, and matched pairs of positions.
    fn set_differences_by<C: PairCmp<Self::Item>>(&self, other: &Self, c: &C) -> (r: (
        Vec<usize>,
        Vec<usize>,
        Vec<(usize, usize)>,
    ))
        ensures
            ({
                let (left, right, both) = merge_join(self.seq(), other.seq(), *c);
                &&& r.0@.map_values(|x: usize| x as int) == left
                &&& r.1@.map_values(|x: usize| x as int) == right
                &&& r.2@.map_values(|p: (usize, usize)| (p.0 as int, p.1 as int)) == both
            }),
    ;
}

impl<T> Ext for Vec<T> {
    type Item = T;

    open spec fn seq(&self) -> Seq<T> {
        self@
    }

    fn lower_bound_by<C: KeyCmp<T>>(&self, c: &C) -> (i: usize) {
        let n: usize = self.len();
        let mut len: usize = n;
        let mut offset: usize = 0;
        while len != 0
            invariant
                key_cmp_ascending(self@, *c),
                n == self@.len(),
                offset + len <= n,
                forall|k: int| 0 <= k < offset ==> c.cmp_spec(#[trigger] self@[k]) == Ordering::Less,
                forall|k: int|
                    offset + len <= k < self@.len() ==> c.cmp_spec(#[trigger] self@[k])
                        != Ordering::Less,
            decreases len,
        {
            let half: usize = len / 2;
            let mid: usize = offset + half;
            match c.key_cmp(&self[mid]) {
                Ordering::Less => {
                    offset = mid + 1;
                    len = len - half - 1;
                },
                _ => {
                    len = half;
                },
            }
        }
        offset
    }

    fn upper_bound_by<C: KeyCmp<T>>(&self, c: &C) -> (i: usize) {
        let n: usize = self.len();
        let mut len: usize = n;
        let mut offset: usize = 0;
        while len != 0
            invariant
                key_cmp_ascending(self@, *c),
                n == self@.len(),
                offset + len <= n,
                forall|k: int|
                    0 <= k < offset ==> c.cmp_spec(#[trigger] self@[k]) != Ordering::Greater,
                forall|k: int|
                    offset + len <= k < self@.len() ==> c.cmp_spec(#[trigger] self@[k])
                        == Ordering::Greater,
            decreases len,
        {
            let half: usize = len / 2;
            let mid: usize = offset + half;
            match c.key_cmp(&self[mid]) {
                Ordering::Greater => {
                    len = half;
                },
                _ => {
                    offset = mid + 1;
                    len = len - half - 1;
                },
            }
        }
        offset
    }

    fn set_differences_by<C: PairCmp<T>>(&self, other: &Self, c: &C) -> (r: (
        Vec<usize>,
        Vec<usize>,
        Vec<(usize, usize)>,
    )) {
        let mut left: Vec<usize> = Vec::new();
        let mut right: Vec<usize> = Vec::new();
        let mut both: Vec<(usize, usize)> = Vec::new();
        let mut i: usize = 0;
        let mut j: usize = 0;
        let ghost full = merge_join(self@, other@, *c);
        while i < self.len() || j < other.len()
            invariant
                0 <= i <= self@.len(),
                0 <= j <= other@.len(),
                full == merge_join(self@, other@, *c),
                ({
                    let rest = merge_join_from(self@, other@, *c, i as int, j as int);
                    &&& full.0 == left@.map_values(|x: usize| x as int) + rest.0
                    &&& full.1 == right@.map_values(|x: usize| x as int) + rest.1
                    &&& full.2 == both@.map_values(|p: (usize, usize)| (p.0 as int, p.1 as int))
                        + rest.2
                }),
            decreases self@.len() - i + other@.len() - j,
        {
            let ghost rest = merge_join_from(self@, other@, *c, i as int, j as int);
            if i == self.len() {
                proof {
                    lemma_map_push_int(right@, j);
                    assert(rest.1 =~= seq![j as int] + merge_join_from(
                        self@,
                        other@,
                        *c,
                        i as int,
                        j + 1int,
                    ).1);
                    assert(full.1 =~= (right@.map_values(|x: usize| x as int)).push(j as int)
                        + merge_join_from(self@, other@, *c, i as int, j + 1int).1);
                }
                right.push(j);
                j = j + 1;
            } else if j == other.len() {
                proof {
                    lemma_map_push_int(left@, i);
                    assert(rest.0 =~= seq![i as int] + merge_join_from(
                        self@,
                        other@,
                        *c,
                        i + 1int,
                        j as int,
                    ).0);
                    assert(full.0 =~= (left@.map_values(|x: usize| x as int)).push(i as int)
                        + merge_join_from(self@, other@, *c, i + 1int, j as int).0);
                }
                left.push(i);
                i = i + 1;
            } else {
                match c.pair_cmp(&self[i], &other[j]) {
                    Ordering::Less => {
                        proof {
                            lemma_map_push_int(left@, i);
                            assert(full.0 =~= (left@.map_values(|x: usize| x as int)).push(
                                i as int,
                            ) + merge_join_from(self@, other@, *c, i + 1int, j as int).0);
                        }
                        left.push(i);
                        i = i + 1;
                    },
                    Ordering::Greater => {
                        proof {
                            lemma_map_push_int(right@, j);
                            assert(full.1 =~= (right@.map_values(|x: usize| x as int)).push(
                                j as int,
                            ) + merge_join_from(self@, other@, *c, i as int, j + 1int).1);
                        }
                        right.push(j);
                        j = j + 1;
                    },
                    Ordering::Equal => {
                        proof {
                            lemma_map_push_pair(both@, i, j);
                            assert(full.2 =~= (both@.map_values(
                                |p: (usize, usize)| (p.0 as int, p.1 as int),
                            )).push((i as int, j as int)) + merge_join_from(
                                self@,
                                other@,
                                *c,
                                i + 1int,
                                j + 1int,
                            ).2);
                        }
                        both.push((i, j));
                        i = i + 1;
                        j = j + 1;
                    },
                }
            }
        }
        proof {
            assert(left@.map_values(|x: usize| x as int) + merge_join_from(
                self@,
                other@,
                *c,
                i as int,
                j as int,
            ).0 =~= left@.map_values(|x: usize| x as int));
            assert(right@.map_values(|x: usize| x as int) + merge_join_from(
                self@,
                other@,
                *c,
                i as int,
                j as int,
            ).1 =~= right@.map_values(|x: usize| x as int));
            assert(both@.map_values(|p: (usize, usize)| (p.0 as int, p.1 as int))
                + merge_join_from(self@, other@, *c, i as int, j as int).2 =~= both@.map_values(
                |p: (usize, usize)| (p.0 as int, p.1 as int),
            ));
        }
        (left, right, both)
    }
}

proof fn lemma_map_push_int(s: Seq<usize>, x: usize)
    ensures
        s.push(x).map_values(|v: usize| v as int) =~= s.map_values(|v: usize| v as int).push(
            x as int,
        ),
{
}

proof fn lemma_map_push_pair(s: Seq<(usize, usize)>, x: usize, y: usize)
    ensures
        s.push((x, y)).map_values(|p: (usize, usize)| (p.0 as int, p.1 as int)) =~= s.map_values(
            |p: (usize, usize)| (p.0 as int, p.1 as int),
        ).push((x as int, y as int)),
{
}

/// The run of elements equal to the key starts no later than it ends: the
/// lower bound never exceeds the upper bound.
pub proof fn lemma_lower_le_upper<T, C: KeyCmp<T>>(s: Seq<T>, c: C, lo: int, hi: int)
    requires
        0 <= lo <= s.len(),
        0 <= hi <= s.len(),
        forall|k: int| 0 <= k < lo ==> c.cmp_spec(#[trigger] s[k]) == Ordering::Less,
        forall|k: int| hi <= k < s.len() ==> c.cmp_spec(#[trigger] s[k]) == Ordering::Greater,
    ensures
        lo <= hi,
{
    if hi < lo {
        assert(c.cmp_spec(s[hi]) == Ordering::Less);
        assert(c.cmp_spec(s[hi]) == Ordering::Greater);
    }
}

/// Every position of both inputs is classified exactly once: the two
/// unmatched partitions plus both sides of the matched pairs together count
/// `a.len() + b.len()` positions.
pub proof fn lemma_merge_join_total<T, C: PairCmp<T>>(a: Seq<T>, b: Seq<T>, c: C)
    ensures
        ({
            let (left, right, both) = merge_join(a, b, c);
            left.len() + right.len() + 2 * both.len() == a.len() + b.len()
        }),
{
    lemma_merge_join_from_total(a, b, c, 0, 0);
}

proof fn lemma_merge_join_from_total<T, C: PairCmp<T>>(a: Seq<T>, b: Seq<T>, c: C, i: int, j: int)
    requires
        0 <= i <= a.len(),
        0 <= j <= b.len(),
    ensures
        ({
            let (left, right, both) = merge_join_from(a, b, c, i, j);
            left.len() + right.len() + 2 * both.len() == (a.len() - i) + (b.len() - j)
        }),
    decreases a.len() + b.len() - i - j,
{
    if i == a.len() && j == b.len() {
    } else if i == a.len() {
    } else if j == b.len() {
    } else {
        let o = c.cmp_spec(a[i], b[j]);
        if o == Ordering::Less {
            lemma_merge_join_from_total(a, b, c, i + 1, j);
        } else if o == Ordering::Greater {
            lemma_merge_join_from_total(a, b, c, i, j + 1);
        } else {
            lemma_merge_join_from_total(a, b, c, i + 1, j + 1);
        }
    }
}

/// Positions `lo, lo + 1, ..., hi - 1`, in order.
pub open spec fn index_range(lo: int, hi: int) -> Seq<int> {
    Seq::new(if hi >= lo {
        (hi - lo) as nat
    } else {
        0
    }, |k: int| lo + k)
}

/// The merge-join classifies every position of each input exactly once:
/// the one-sided positions together with the matched positions are, as a
/// multiset, exactly the positions of that input.
pub proof fn lemma_merge_join_partition<T, C: PairCmp<T>>(a: Seq<T>, b: Seq<T>, c: C)
    ensures
        ({
            let (left, right, both) = merge_join(a, b, c);
            &&& (left + both.map_values(|p: (int, int)| p.0)).to_multiset() == index_range(
                0,
                a.len() as int,
            ).to_multiset()
            &&& (right + both.map_values(|p: (int, int)| p.1)).to_multiset() == index_range(
                0,
                b.len() as int,
            ).to_multiset()
        }),
{
    lemma_merge_join_from_partition(a, b, c, 0, 0);
}

proof fn lemma_merge_join_from_partition<T, C: PairCmp<T>>(
    a: Seq<T>,
    b: Seq<T>,
    c: C,
    i: int,
    j: int,
)
    requires
        0 <= i <= a.len(),
        0 <= j <= b.len(),
    ensures
        ({
            let (left, right, both) = merge_join_from(a, b, c, i, j);
            &&& (left + both.map_values(|p: (int, int)| p.0)).to_multiset() == index_range(
                i,
                a.len() as int,
            ).to_multiset()
            &&& (right + both.map_values(|p: (int, int)| p.1)).to_multiset() == index_range(
                j,
                b.len() as int,
            ).to_multiset()
        }),
    decreases a.len() + b.len() - i - j,
{
    broadcast use vstd::seq_lib::group_to_multiset_ensures;

    let (left, right, both) = merge_join_from(a, b, c, i, j);
    let firsts = |p: (int, int)| p.0;
    let seconds = |p: (int, int)| p.1;
    if i == a.len() && j == b.len() {
        assert(left + both.map_values(firsts) =~= index_range(i, a.len() as int));
        assert(right + both.map_values(seconds) =~= index_range(j, b.len() as int));
    } else if i == a.len() {
        assert(left + both.map_values(firsts) =~= index_range(i, a.len() as int));
        assert(right + both.map_values(seconds) =~= index_range(j, b.len() as int));
    } else if j == b.len() {
        assert(left + both.map_values(firsts) =~= index_range(i, a.len() as int));
        assert(right + both.map_values(seconds) =~= index_range(j, b.len() as int));
    } else {
        let o = c.cmp_spec(a[i], b[j]);
        if o == Ordering::Less {
            lemma_merge_join_from_partition(a, b, c, i + 1, j);
            let (l2, r2, m2) = merge_join_from(a, b, c, i + 1, j);
            assert(left == seq![i] + l2);
            assert(right == r2);
            assert(both == m2);
            vstd::seq_lib::lemma_multiset_commutative(left, both.map_values(firsts));
            vstd::seq_lib::lemma_multiset_commutative(seq![i], l2);
            vstd::seq_lib::lemma_multiset_commutative(l2, m2.map_values(firsts));
            assert(index_range(i, a.len() as int) =~= seq![i] + index_range(i + 1, a.len() as int));
            vstd::seq_lib::lemma_multiset_commutative(seq![i], index_range(i + 1, a.len() as int));
            assert((left + both.map_values(firsts)).to_multiset() =~= index_range(
                i,
                a.len() as int,
            ).to_multiset());
            assert(right + both.map_values(seconds) == r2 + m2.map_values(seconds));
        } else if o == Ordering::Greater {
            lemma_merge_join_from_partition(a, b, c, i, j + 1);
            let (l2, r2, m2) = merge_join_from(a, b, c, i, j + 1);
            assert(left == l2);
            assert(right == seq![j] + r2);
            assert(both == m2);
            vstd::seq_lib::lemma_multiset_commutative(right, both.map_values(seconds));
            vstd::seq_lib::lemma_multiset_commutative(seq![j], r2);
            vstd::seq_lib::lemma_multiset_commutative(r2, m2.map_values(seconds));
            assert(index_range(j, b.len() as int) =~= seq![j] + index_range(j + 1, b.len() as int));
            vstd::seq_lib::lemma_multiset_commutative(seq![j], index_range(j + 1, b.len() as int));
            assert((right + both.map_values(seconds)).to_multiset() =~= index_range(
                j,
                b.len() as int,
            ).to_multiset());
            assert(left + both.map_values(firsts) == l2 + m2.map_values(firsts));
        } else {
            lemma_merge_join_from_partition(a, b, c, i + 1, j + 1);
            let (l2, r2, m2) = merge_join_from(a, b, c, i + 1, j + 1);
            assert(left == l2);
            assert(right == r2);
            assert(both == seq![(i, j)] + m2);
            assert(both.map_values(firsts) =~= seq![i] + m2.map_values(firsts));
            assert(both.map_values(seconds) =~= seq![j] + m2.map_values(seconds));
            vstd::seq_lib::lemma_multiset_commutative(left, both.map_values(firsts));
            vstd::seq_lib::lemma_multiset_commutative(seq![i], m2.map_values(firsts));
            vstd::seq_lib::lemma_multiset_commutative(l2, m2.map_values(firsts));
            assert(index_range(i, a.len() as int) =~= seq![i] + index_range(i + 1, a.len() as int));
            vstd::seq_lib::lemma_multiset_commutative(seq![i], index_range(i + 1, a.len() as int));
            assert((left + both.map_values(firsts)).to_multiset() =~= index_range(
                i,
                a.len() as int,
            ).to_multiset());
            vstd::seq_lib::lemma_multiset_commutative(right, both.map_values(seconds));
            vstd::seq_lib::lemma_multiset_commutative(seq![j], m2.map_values(seconds));
            vstd::seq_lib::lemma_multiset_commutative(r2, m2.map_values(seconds));
            assert(index_range(j, b.len() as int) =~= seq![j] + index_range(j + 1, b.len() as int));
            vstd::seq_lib::lemma_multiset_commutative(seq![j], index_range(j + 1, b.len() as int));
            assert((right + both.map_values(seconds)).to_multiset() =~= index_range(
                j,
                b.len() as int,
            ).to_multiset());
        }
    }
}

/// When the two inputs match position for position, the merge-join reports
/// no one-sided element: everything is common.
pub proof fn lemma_merge_join_identical<T, C: PairCmp<T>>(a: Seq<T>, b: Seq<T>, c: C)
    requires
        a.len() == b.len(),
        forall|k: int| 0 <= k < a.len() ==> c.cmp_spec(#[trigger] a[k], b[k]) == Ordering::Equal,
    ensures
        ({
            let (left, right, both) = merge_join(a, b, c);
            &&& left.len() == 0
            &&& right.len() == 0
            &&& both.len() == a.len()
        }),
{
    lemma_merge_join_from_identical(a, b, c, 0);
}

proof fn lemma_merge_join_from_identical<T, C: PairCmp<T>>(a: Seq<T>, b: Seq<T>, c: C, i: int)
    requires
        a.len() == b.len(),
        0 <= i <= a.len(),
        forall|k: int| 0 <= k < a.len() ==> c.cmp_spec(#[trigger] a[k], b[k]) == Ordering::Equal,
    ensures
        ({
            let (left, right, both) = merge_join_from(a, b, c, i, i);
            &&& left.len() == 0
            &&& right.len() == 0
            &&& both.len() == a.len() - i
        }),
    decreases a.len() - i,
{
    if i < a.len() {
        lemma_merge_join_from_identical(a, b, c, i + 1);
    }
}

/// Classifies integer elements against a fixed key, in the standard order.
pub struct I32Key {
    pub key: i32,
}

impl KeyCmp<i32> for I32Key {
    open spec fn cmp_spec(&self, t: i32) -> Ordering {
        if t < self.key {
            Ordering::Less
        } else if t > self.key {
            Ordering::Greater
        } else {
            Ordering::Equal
        }
    }

    fn key_cmp(&self, t: &i32) -> (r: Ordering) {
        if *t < self.key {
            Ordering::Less
        } else if *t > self.key {
            Ordering::Greater
        } else {
            Ordering::Equal
        }
    }
}

/// Compares unsigned elements in the standard order.
pub struct U32Cmp;

impl PairCmp<u32> for U32Cmp {
    open spec fn cmp_spec(&self, a: u32, b: u32) -> Ordering {
        if a < b {
            Ordering::Less
        } else if a > b {
            Ordering::Greater
        } else {
            Ordering::Equal
        }
    }

    fn pair_cmp(&self, a: &u32, b: &u32) -> (r: Ordering) {
        if *a < *b {
            Ordering::Less
        } else if *a > *b {
            Ordering::Greater
        } else {
            Ordering::Equal
        }
    }
}

} // verus!

