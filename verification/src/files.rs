//! The path entry store: every path as a sequence of component ids, kept in
//! both root-to-leaf ("forward") and leaf-to-root ("reversed") order, each
//! an independently sorted, immutable collection over the same entries.
use vstd::prelude::*;
use std::cmp::Ordering;
use crate::intern::StringTable;
use crate::order::{cmp_seq, compare_file_entry, lemma_cmp_seq_flip, lemma_cmp_seq_trans};
use crate::search::PairCmp;
use crate::trusted::par_sort_with;

verus! {

/// The contents of a collection of entries, as sequences of ids.
pub open spec fn entry_views(s: Seq<Vec<u32>>) -> Seq<Seq<u32>> {
    s.map_values(|e: Vec<u32>| e@)
}

/// Every id in the entry is a real id of a table with `n` ids.
pub open spec fn entry_ids_valid(e: Seq<u32>, n: int) -> bool {
    forall|k: int| 0 <= k < e.len() ==> 0 < #[trigger] e[k] < n
}

/// Every id of every entry is a real id of a table with `n` ids.
pub open spec fn ids_valid(s: Seq<Seq<u32>>, n: int) -> bool {
    forall|i: int| 0 <= i < s.len() ==> entry_ids_valid(#[trigger] s[i], n)
}

/// Ascending under the entry ordering.
pub open spec fn entries_sorted(s: Seq<Seq<u32>>) -> bool {
    forall|i: int, j: int|
        #![trigger s[i], s[j]]
        0 <= i < j < s.len() ==> cmp_seq(s[i], s[j]) != Ordering::Greater
}

/// Compares two path entries by their id sequences.
pub struct EntryCmp;

impl PairCmp<Vec<u32>> for EntryCmp {
    open spec fn cmp_spec(&self, a: Vec<u32>, b: Vec<u32>) -> Ordering {
        cmp_seq(a@, b@)
    }

    fn pair_cmp(&self, a: &Vec<u32>, b: &Vec<u32>) -> (r: Ordering) {
        compare_file_entry(a.as_slice(), b.as_slice())
    }
}

/// The entry ordering is consistent when its arguments are swapped and is
/// transitive, so a collection can be sorted by it.
pub proof fn lemma_entry_cmp_total(c: EntryCmp)
    ensures
        forall|x: Vec<u32>, y: Vec<u32>| #[trigger] c.cmp_spec(x, y) == crate::order::flip(
            c.cmp_spec(y, x),
        ),
        forall|x: Vec<u32>, y: Vec<u32>, z: Vec<u32>|
            #![trigger c.cmp_spec(x, y), c.cmp_spec(y, z)]
            c.cmp_spec(x, y) != Ordering::Greater && c.cmp_spec(y, z) != Ordering::Greater
                ==> c.cmp_spec(x, z) != Ordering::Greater,
{
    assert forall|x: Vec<u32>, y: Vec<u32>| #[trigger]
        c.cmp_spec(x, y) == crate::order::flip(c.cmp_spec(y, x)) by {
        lemma_cmp_seq_flip(y@, x@);
    }
    assert forall|x: Vec<u32>, y: Vec<u32>, z: Vec<u32>|
        #![trigger c.cmp_spec(x, y), c.cmp_spec(y, z)]
        c.cmp_spec(x, y) != Ordering::Greater && c.cmp_spec(y, z)
            != Ordering::Greater implies c.cmp_spec(x, z) != Ordering::Greater by {
        lemma_cmp_seq_trans(x@, y@, z@);
    }
}

/// Validity of ids is kept by any reordering of the entries.
proof fn lemma_ids_valid_permutation(s1: Seq<Seq<u32>>, s2: Seq<Seq<u32>>, n: int)
    requires
        s1.to_multiset() == s2.to_multiset(),
        ids_valid(s1, n),
    ensures
        ids_valid(s2, n),
{
    broadcast use vstd::seq_lib::group_to_multiset_ensures;

    assert forall|i: int| 0 <= i < s2.len() implies entry_ids_valid(#[trigger] s2[i], n) by {
        assert(s2.contains(s2[i]));
        assert(s2.to_multiset().count(s2[i]) > 0);
        assert(s1.contains(s2[i]));
        let j = choose|j: int| 0 <= j < s1.len() && s1[j] == s2[i];
        assert(entry_ids_valid(s1[j], n));
    }
}

/// An entry's ids, in the opposite order.
pub fn reversed(e: &Vec<u32>) -> (r: Vec<u32>)
    ensures
        r@ == e@.reverse(),
{
    let mut r: Vec<u32> = Vec::new();
    let mut i: usize = e.len();
    while i > 0
        invariant
            0 <= i <= e@.len(),
            r@.len() == e@.len() - i,
            forall|k: int| 0 <= k < r@.len() ==> r@[k] == e@[e@.len() - 1 - k],
        decreases i,
    {
        i = i - 1;
        r.push(e[i]);
    }
    proof {
        assert(r@ =~= e@.reverse());
    }
    r
}

/// The interned string table and the two sorted orders of the path entries.
pub struct Files {
    pub strings: StringTable,
    pub files: Vec<Vec<u32>>,
    pub files_rev: Vec<Vec<u32>>,
}

impl Files {
    /// Both collections are sorted, and every id they mention is a real id
    /// of the table.
    pub open spec fn wf(&self) -> bool {
        &&& self.strings.wf()
        &&& entries_sorted(entry_views(self.files@))
        &&& entries_sorted(entry_views(self.files_rev@))
        &&& ids_valid(entry_views(self.files@), self.strings@.len() as int)
        &&& ids_valid(entry_views(self.files_rev@), self.strings@.len() as int)
    }

    /// Build the store from loaded entries: derive the reversed collection,
    /// then sort both collections independently.
    pub fn new(strings: StringTable, files: Vec<Vec<u32>>) -> (r: Files)
        requires
            strings.wf(),
            ids_valid(entry_views(files@), strings@.len() as int),
        ensures
            r.wf(),
            r.strings == strings,
            r.files@.len() == files@.len(),
            r.files_rev@.len() == files@.len(),
            entry_views(r.files@).to_multiset() == entry_views(files@).to_multiset(),
            entry_views(r.files_rev@).to_multiset() == entry_views(files@).map_values(
                |e: Seq<u32>| e.reverse(),
            ).to_multiset(),
    {
        let ghost original = entry_views(files@);
        let mut files = files;
        let mut files_rev: Vec<Vec<u32>> = Vec::new();
        let mut i: usize = 0;
        while i < files.len()
            invariant
                files_rev@.len() == i,
                0 <= i <= files@.len(),
                forall|k: int| 0 <= k < i ==> #[trigger] files_rev@[k]@ == files@[k]@.reverse(),
            decreases files@.len() - i,
        {
            let r = reversed(&files[i]);
            files_rev.push(r);
            i = i + 1;
        }
        proof {
            assert(entry_views(files_rev@) =~= original.map_values(|e: Seq<u32>| e.reverse()));
            assert(entry_views(files@) =~= original);
            lemma_entry_cmp_total(EntryCmp);
            assert forall|k: int| 0 <= k < files_rev@.len() implies entry_ids_valid(
                #[trigger] entry_views(files_rev@)[k],
                strings@.len() as int,
            ) by {
                let e = files@[k]@;
                assert(original[k] == e);
                assert(entry_ids_valid(e, strings@.len() as int));
                assert forall|t: int|
                    0 <= t < e.reverse().len() implies 0 < #[trigger] e.reverse()[t]
                    < strings@.len() by {
                    assert(e.reverse()[t] == e[e.len() - 1 - t]);
                }
            }
        }
        par_sort_with(&mut files, &EntryCmp);
        par_sort_with(&mut files_rev, &EntryCmp);
        proof {
            lemma_ids_valid_permutation(original, entry_views(files@), strings@.len() as int);
            lemma_ids_valid_permutation(
                original.map_values(|e: Seq<u32>| e.reverse()),
                entry_views(files_rev@),
                strings@.len() as int,
            );
            broadcast use vstd::seq_lib::group_to_multiset_ensures;

        }
        Files { strings, files, files_rev }
    }
}

/// Two sorted sequences over the same entries are identical: sorting is
/// deterministic, and sorting an already-sorted collection is a no-op.
pub proof fn lemma_sorted_permutation_unique(s1: Seq<Seq<u32>>, s2: Seq<Seq<u32>>)
    requires
        entries_sorted(s1),
        entries_sorted(s2),
        s1.to_multiset() == s2.to_multiset(),
    ensures
        s1 == s2,
{
    let leq = |a: Seq<u32>, b: Seq<u32>| cmp_seq(a, b) != Ordering::Greater;
    assert(vstd::relations::total_ordering(leq)) by {
        assert forall|x: Seq<u32>| #[trigger] leq(x, x) by {
            crate::order::lemma_cmp_seq_equal(x, x);
        }
        assert forall|x: Seq<u32>, y: Seq<u32>| #[trigger] leq(x, y) && #[trigger] leq(y, x)
            implies x == y by {
            crate::order::lemma_cmp_seq_flip(x, y);
            crate::order::lemma_cmp_seq_equal(x, y);
        }
        assert forall|x: Seq<u32>, y: Seq<u32>, z: Seq<u32>|
            #[trigger] leq(x, y) && #[trigger] leq(y, z) implies #[trigger] leq(x, z) by {
            lemma_cmp_seq_trans(x, y, z);
        }
        assert forall|x: Seq<u32>, y: Seq<u32>| #[trigger] leq(x, y) || #[trigger] leq(y, x) by {
            crate::order::lemma_cmp_seq_flip(x, y);
        }
    }
    assert(vstd::relations::sorted_by(s1, leq)) by {
        assert forall|i: int, j: int| 0 <= i < j < s1.len() implies leq(s1[i], s1[j]) by {
            assert(cmp_seq(s1[i], s1[j]) != Ordering::Greater);
        }
    }
    assert(vstd::relations::sorted_by(s2, leq)) by {
        assert forall|i: int, j: int| 0 <= i < j < s2.len() implies leq(s2[i], s2[j]) by {
            assert(cmp_seq(s2[i], s2[j]) != Ordering::Greater);
        }
    }
    vstd::seq_lib::lemma_sorted_unique(s1, s2, leq);
    assert(s1 =~= s2);
}

} // verus!

