//! The ordering relation on path entries: lexicographic comparison of id
//! sequences, where a strictly shorter sequence that is a prefix of a longer
//! one sorts first.
use vstd::prelude::*;
use std::cmp::Ordering;

verus! {

/// Lexicographic comparison of two id sequences; a proper prefix sorts first.
pub open spec fn cmp_seq(a: Seq<u32>, b: Seq<u32>) -> Ordering
    decreases a.len(),
{
    if a.len() == 0 && b.len() == 0 {
        Ordering::Equal
    } else if a.len() == 0 {
        Ordering::Less
    } else if b.len() == 0 {
        Ordering::Greater
    } else if a[0] < b[0] {
        Ordering::Less
    } else if a[0] > b[0] {
        Ordering::Greater
    } else {
        cmp_seq(a.drop_first(), b.drop_first())
    }
}

/// The opposite ordering.
pub open spec fn flip(o: Ordering) -> Ordering {
    match o {
        Ordering::Less => Ordering::Greater,
        Ordering::Equal => Ordering::Equal,
        Ordering::Greater => Ordering::Less,
    }
}

/// Compare two path entries (as id slices) under the entry ordering.
pub fn compare_file_entry(a: &[u32], b: &[u32]) -> (r: Ordering)
    ensures
        r == cmp_seq(a@, b@),
{
    let mut i: usize = 0;
    proof {
        assert(a@.skip(0) =~= a@);
        assert(b@.skip(0) =~= b@);
    }
    while i < a.len() && i < b.len() && a[i] == b[i]
        invariant
            0 <= i <= a@.len(),
            i <= b@.len(),
            cmp_seq(a@, b@) == cmp_seq(a@.skip(i as int), b@.skip(i as int)),
        decreases a@.len() - i,
    {
        proof {
            lemma_cmp_seq_skip_unfold(a@, b@, i as int);
        }
        i = i + 1;
    }
    proof {
        lemma_cmp_seq_skip_unfold(a@, b@, i as int);
    }
    if i == a.len() && i == b.len() {
        Ordering::Equal
    } else if i == a.len() {
        Ordering::Less
    } else if i == b.len() {
        Ordering::Greater
    } else if a[i] < b[i] {
        Ordering::Less
    } else {
        Ordering::Greater
    }
}

/// One step of `cmp_seq` on the suffixes starting at `i`.
pub proof fn lemma_cmp_seq_skip_unfold(a: Seq<u32>, b: Seq<u32>, i: int)
    requires
        0 <= i <= a.len(),
        0 <= i <= b.len(),
    ensures
        i == a.len() && i == b.len() ==> cmp_seq(a.skip(i), b.skip(i)) == Ordering::Equal,
        i == a.len() && i < b.len() ==> cmp_seq(a.skip(i), b.skip(i)) == Ordering::Less,
        i < a.len() && i == b.len() ==> cmp_seq(a.skip(i), b.skip(i)) == Ordering::Greater,
        i < a.len() && i < b.len() && a[i] < b[i] ==> cmp_seq(a.skip(i), b.skip(i))
            == Ordering::Less,
        i < a.len() && i < b.len() && a[i] > b[i] ==> cmp_seq(a.skip(i), b.skip(i))
            == Ordering::Greater,
        i < a.len() && i < b.len() && a[i] == b[i] ==> cmp_seq(a.skip(i), b.skip(i)) == cmp_seq(
            a.skip(i + 1),
            b.skip(i + 1),
        ),
{
    if i < a.len() && i < b.len() {
        assert(a.skip(i)[0] == a[i]);
        assert(b.skip(i)[0] == b[i]);
        assert(a.skip(i).drop_first() =~= a.skip(i + 1));
        assert(b.skip(i).drop_first() =~= b.skip(i + 1));
    }
}

/// Comparison answers `Equal` exactly on equal sequences.
pub proof fn lemma_cmp_seq_equal(a: Seq<u32>, b: Seq<u32>)
    ensures
        cmp_seq(a, b) == Ordering::Equal <==> a == b,
    decreases a.len(),
{
    if a.len() != 0 && b.len() != 0 && a[0] == b[0] {
        lemma_cmp_seq_equal(a.drop_first(), b.drop_first());
        if a.drop_first() == b.drop_first() {
            assert(a.drop_first().len() == b.drop_first().len());
            assert(a.len() == b.len());
            assert forall|k: int| 0 <= k < a.len() implies a[k] == b[k] by {
                if k > 0 {
                    assert(a[k] == a.drop_first()[k - 1]);
                    assert(b[k] == b.drop_first()[k - 1]);
                }
            }
            assert(a =~= b);
        }
        if a == b {
            assert(a.drop_first() =~= b.drop_first());
        }
    } else {
        if a.len() == 0 && b.len() == 0 {
            assert(a =~= b);
        }
        if a == b && a.len() != 0 {
            assert(a[0] == b[0]);
        }
    }
}

/// Swapping the arguments flips the answer.
pub proof fn lemma_cmp_seq_flip(a: Seq<u32>, b: Seq<u32>)
    ensures
        cmp_seq(b, a) == flip(cmp_seq(a, b)),
    decreases a.len(),
{
    if a.len() != 0 && b.len() != 0 && a[0] == b[0] {
        lemma_cmp_seq_flip(a.drop_first(), b.drop_first());
    }
}

/// Transitivity of the entry ordering, with strictness carried through.
pub proof fn lemma_cmp_seq_trans(a: Seq<u32>, b: Seq<u32>, c: Seq<u32>)
    requires
        cmp_seq(a, b) != Ordering::Greater,
        cmp_seq(b, c) != Ordering::Greater,
    ensures
        cmp_seq(a, c) != Ordering::Greater,
        cmp_seq(a, b) == Ordering::Less || cmp_seq(b, c) == Ordering::Less ==> cmp_seq(a, c)
            == Ordering::Less,
    decreases a.len() + b.len() + c.len(),
{
    if a.len() == 0 {
        if c.len() == 0 {
            assert(cmp_seq(b, c) != Ordering::Greater ==> b.len() == 0);
        }
    } else {
        // a nonempty, so b nonempty (else cmp_seq(a, b) == Greater),
        // so c nonempty (else cmp_seq(b, c) == Greater).
        assert(b.len() != 0);
        assert(c.len() != 0);
        if a[0] == b[0] && b[0] == c[0] {
            lemma_cmp_seq_trans(a.drop_first(), b.drop_first(), c.drop_first());
        }
    }
}

/// Length of the longest shared leading run of two sequences.
pub open spec fn common_prefix_len(a: Seq<u32>, b: Seq<u32>) -> int
    decreases a.len(),
{
    if a.len() == 0 || b.len() == 0 || a[0] != b[0] {
        0
    } else {
        1 + common_prefix_len(a.drop_first(), b.drop_first())
    }
}

/// The shared leading run has the length it says, stops at the first
/// mismatch, and fits in both sequences.
pub proof fn lemma_common_prefix_len(a: Seq<u32>, b: Seq<u32>)
    ensures
        0 <= common_prefix_len(a, b) <= a.len(),
        common_prefix_len(a, b) <= b.len(),
        forall|k: int| 0 <= k < common_prefix_len(a, b) ==> a[k] == b[k],
        common_prefix_len(a, b) < a.len() && common_prefix_len(a, b) < b.len() ==> a[
            common_prefix_len(a, b)
        ] != b[common_prefix_len(a, b)],
    decreases a.len(),
{
    if !(a.len() == 0 || b.len() == 0 || a[0] != b[0]) {
        lemma_common_prefix_len(a.drop_first(), b.drop_first());
        let c = common_prefix_len(a, b);
        assert forall|k: int| 0 <= k < c implies a[k] == b[k] by {
            if k > 0 {
                assert(a.drop_first()[k - 1] == b.drop_first()[k - 1]);
            }
        }
        if c < a.len() && c < b.len() {
            assert(a.drop_first()[c - 1] != b.drop_first()[c - 1]);
        }
    }
}

/// Length of the longest shared leading run of two id sequences.
pub fn common_prefix(a: &Vec<u32>, b: &Vec<u32>) -> (n: usize)
    ensures
        n == common_prefix_len(a@, b@),
{
    let mut i: usize = 0;
    proof {
        assert(a@.skip(0) =~= a@);
        assert(b@.skip(0) =~= b@);
    }
    while i < a.len() && i < b.len() && a[i] == b[i]
        invariant
            0 <= i <= a.len(),
            i <= b.len(),
            common_prefix_len(a@, b@) == i + common_prefix_len(
                a@.skip(i as int),
                b@.skip(i as int),
            ),
        decreases a.len() - i,
    {
        proof {
            lemma_common_prefix_step(a@, b@, i as int);
        }
        i = i + 1;
    }
    proof {
        lemma_common_prefix_stop(a@, b@, i as int);
    }
    i
}

proof fn lemma_common_prefix_step(a: Seq<u32>, b: Seq<u32>, i: int)
    requires
        0 <= i < a.len(),
        i < b.len(),
        a[i] == b[i],
    ensures
        common_prefix_len(a.skip(i), b.skip(i)) == 1 + common_prefix_len(
            a.skip(i + 1),
            b.skip(i + 1),
        ),
{
    assert(a.skip(i)[0] == a[i]);
    assert(b.skip(i)[0] == b[i]);
    assert(a.skip(i).drop_first() =~= a.skip(i + 1));
    assert(b.skip(i).drop_first() =~= b.skip(i + 1));
}

proof fn lemma_common_prefix_stop(a: Seq<u32>, b: Seq<u32>, i: int)
    requires
        0 <= i <= a.len(),
        i <= b.len(),
        i == a.len() || i == b.len() || a[i] != b[i],
    ensures
        common_prefix_len(a.skip(i), b.skip(i)) == 0,
{
    if i < a.len() && i < b.len() {
        assert(a.skip(i)[0] == a[i]);
        assert(b.skip(i)[0] == b[i]);
    }
}

/// Exactly one of "before", "equal", "after" holds of any two entries: the
/// comparison answers `Equal` precisely on equal sequences, and answers on
/// swapped arguments are opposite.
pub proof fn lemma_cmp_seq_trichotomy(a: Seq<u32>, b: Seq<u32>)
    ensures
        cmp_seq(a, b) == Ordering::Less ==> a != b && cmp_seq(b, a) == Ordering::Greater,
        cmp_seq(a, b) == Ordering::Equal <==> a == b,
        cmp_seq(a, b) == Ordering::Greater ==> a != b && cmp_seq(b, a) == Ordering::Less,
{
    lemma_cmp_seq_equal(a, b);
    lemma_cmp_seq_flip(a, b);
}

} // verus!

