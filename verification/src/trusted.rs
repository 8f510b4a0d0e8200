//! The library's view of the outside crates it calls: each wrapper's body
//! makes one outside call, and its contract states what that call's
//! documentation promises.
use vstd::prelude::*;
use std::cmp::Ordering;
use rayon::slice::ParallelSliceMut;
use rayon::iter::{IntoParallelRefIterator, ParallelIterator};
use crate::order::flip;
use crate::search::PairCmp;

verus! {

/// Sort a vector in parallel by a comparator.
///
/// Relies on rayon's `ParallelSliceMut::par_sort_by`: when the comparator
/// defines a total order, the call sorts the slice by it; in every case it
/// only reorders the elements.
#[verifier::external_body]
pub(crate) fn par_sort_with<T: View + Send, C: PairCmp<T> + Sync>(v: &mut Vec<T>, c: &C)
    requires
        forall|x: T, y: T| #[trigger] c.cmp_spec(x, y) == flip(c.cmp_spec(y, x)),
        forall|x: T, y: T, z: T|
            #![trigger c.cmp_spec(x, y), c.cmp_spec(y, z)]
            c.cmp_spec(x, y) != Ordering::Greater && c.cmp_spec(y, z) != Ordering::Greater
                ==> c.cmp_spec(x, z) != Ordering::Greater,
    ensures
        final(v)@.len() == old(v)@.len(),
        final(v)@.map_values(|t: T| t@).to_multiset() == old(v)@.map_values(
            |t: T| t@,
        ).to_multiset(),
        forall|i: int, j: int|
            #![trigger final(v)@[i], final(v)@[j]]
            0 <= i < j < final(v)@.len() ==> c.cmp_spec(final(v)@[i], final(v)@[j])
                != Ordering::Greater,
{
    v.par_sort_by(|a, b| c.pair_cmp(a, b));
}

/// Scan chunks of adjacent pairs in parallel.
///
/// Relies on rayon's `par_iter`, `map` and `collect` over an indexed
/// parallel iterator: the closure runs once per range and the collected
/// results keep the input order.
#[verifier::external_body]
pub(crate) fn par_scan(entries: &Vec<Vec<u32>>, ranges: &Vec<(usize, usize)>) -> (r: Vec<
    crate::stats::Stats,
>)
    requires
        forall|k: int|
            0 <= k < ranges@.len() ==> (#[trigger] ranges@[k]).0 <= ranges@[k].1 && (ranges@[k].0
                == ranges@[k].1 || ranges@[k].1 + 1 <= entries@.len()),
    ensures
        r@.len() == ranges@.len(),
        forall|k: int|
            0 <= k < r@.len() ==> (#[trigger] r@[k]).wf() && r@[k]@ == crate::stats::scan_stats(
                crate::files::entry_views(entries@),
                ranges@[k].0 as int,
                ranges@[k].1 as int,
            ),
{
    ranges.par_iter().map(|pr| crate::stats::scan_chunk(entries, pr.0, pr.1)).collect()
}

/// The parts concatenated, with the separator between consecutive parts.
pub open spec fn join_with(parts: Seq<Seq<char>>, sep: char) -> Seq<char>
    decreases parts.len(),
{
    if parts.len() == 0 {
        Seq::empty()
    } else if parts.len() == 1 {
        parts[0]
    } else {
        parts[0] + seq![sep] + join_with(parts.drop_first(), sep)
    }
}

/// Join path components with `/` separators.
///
/// Relies on `itertools::join`, which writes each element's `Display` form
/// separated by the separator, and on `String`'s `Display`, which writes the
/// string's own characters.
#[verifier::external_body]
pub(crate) fn join_slash(parts: &Vec<String>) -> (r: String)
    ensures
        r@ == join_with(parts@.map_values(|s: String| s@), '/'),
{
    itertools::join(parts.iter(), "/")
}

/// The characters a byte sequence decodes to under UTF-8, if it is valid.
pub uninterp spec fn utf8_decode(bytes: Seq<u8>) -> Option<Seq<char>>;

/// Decode a byte vector as UTF-8 text.
///
/// Relies on `String::from_utf8`: it returns the decoded string exactly when
/// the bytes are valid UTF-8, and an error otherwise.
#[verifier::external_body]
pub(crate) fn bytes_to_string(bytes: Vec<u8>) -> (r: Option<String>)
    ensures
        match r {
            Some(s) => utf8_decode(bytes@) == Some(s@),
            None => utf8_decode(bytes@) is None,
        },
{
    String::from_utf8(bytes).ok()
}

} // verus!
