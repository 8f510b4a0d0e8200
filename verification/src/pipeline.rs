//! The overlap pipeline: scan the reversed collection in parallel chunks,
//! merge the partial tallies, rank the groups, and measure every group's
//! subtree overlap.
use vstd::prelude::*;
use std::cmp::Ordering;
use crate::files::{entry_views, Files};
use crate::intern::StringTable;
use crate::order::{cmp_seq, compare_file_entry, flip, lemma_cmp_seq_equal, lemma_cmp_seq_flip,
    lemma_cmp_seq_trans};
use crate::overlap::overlap_ok;
use crate::search::PairCmp;
use crate::stats::{scan_stats, GroupKey, GroupKeyModel, Stats};
use crate::tally::{count_of, TallyKey};
use crate::trusted::{join_slash, join_with, par_scan, par_sort_with};

verus! {

/// The texts the ids resolve to, in order.
pub open spec fn resolved(v: Seq<Seq<char>>, ids: Seq<u32>) -> Seq<Seq<char>> {
    Seq::new(ids.len(), |k: int| v[ids[k] as int])
}

/// Decode an id sequence into its components, joined with `/`.
pub fn decode(ids: &Vec<u32>, table: &StringTable) -> (r: String)
    requires
        forall|k: int| 0 <= k < ids@.len() ==> (#[trigger] ids@[k]) < table@.len(),
    ensures
        r@ == join_with(resolved(table@, ids@), '/'),
{
    let mut parts: Vec<String> = Vec::new();
    let mut i: usize = 0;
    while i < ids.len()
        invariant
            forall|k: int| 0 <= k < ids@.len() ==> (#[trigger] ids@[k]) < table@.len(),
            0 <= i <= ids@.len(),
            parts@.len() == i,
            forall|k: int| 0 <= k < i ==> (#[trigger] parts@[k])@ == table@[ids@[k] as int],
        decreases ids@.len() - i,
    {
        parts.push(table.resolve(ids[i]).clone());
        i = i + 1;
    }
    proof {
        assert(parts@.map_values(|s: String| s@) =~= resolved(table@, ids@));
    }
    join_slash(&parts)
}

/// One ranked overlap group: its adjacent-pair count and its key.
pub struct GroupCount {
    pub count: usize,
    pub key: GroupKey,
}

/// The mathematical value of a ranked group.
#[verifier::ext_equal]
pub struct GroupCountModel {
    pub count: int,
    pub key: GroupKeyModel,
}

impl View for GroupCount {
    type V = GroupCountModel;

    open spec fn view(&self) -> GroupCountModel {
        GroupCountModel { count: self.count as int, key: self.key@ }
    }
}

/// The second answer decides only where the first is `Equal`.
pub open spec fn ord_then(a: Ordering, b: Ordering) -> Ordering {
    if a == Ordering::Equal {
        b
    } else {
        a
    }
}

/// How two integers compare.
pub open spec fn cmp_int(x: int, y: int) -> Ordering {
    if x < y {
        Ordering::Less
    } else if x > y {
        Ordering::Greater
    } else {
        Ordering::Equal
    }
}

/// The ranking order on groups: by raw count, ties resolved by the key
/// (anchor id, then the two suffixes).
pub open spec fn group_order(a: GroupCountModel, b: GroupCountModel) -> Ordering {
    ord_then(
        cmp_int(a.count, b.count),
        ord_then(
            cmp_int(a.key.anchor as int, b.key.anchor as int),
            ord_then(
                cmp_seq(a.key.a_suffix, b.key.a_suffix),
                cmp_seq(a.key.b_suffix, b.key.b_suffix),
            ),
        ),
    )
}

/// Compares groups in ranking order.
pub struct GroupCmp;

impl PairCmp<GroupCount> for GroupCmp {
    open spec fn cmp_spec(&self, a: GroupCount, b: GroupCount) -> Ordering {
        group_order(a@, b@)
    }

    fn pair_cmp(&self, a: &GroupCount, b: &GroupCount) -> (r: Ordering) {
        if a.count < b.count {
            Ordering::Less
        } else if a.count > b.count {
            Ordering::Greater
        } else if a.key.anchor < b.key.anchor {
            Ordering::Less
        } else if a.key.anchor > b.key.anchor {
            Ordering::Greater
        } else {
            match compare_file_entry(a.key.a_suffix.as_slice(), b.key.a_suffix.as_slice()) {
                Ordering::Equal => compare_file_entry(
                    a.key.b_suffix.as_slice(),
                    b.key.b_suffix.as_slice(),
                ),
                o => o,
            }
        }
    }
}

/// The ranking order can drive a sort: swapped arguments answer opposite,
/// and the order is transitive.
pub proof fn lemma_group_order_total(c: GroupCmp)
    ensures
        forall|x: GroupCount, y: GroupCount| #[trigger] c.cmp_spec(x, y) == flip(c.cmp_spec(y, x)),
        forall|x: GroupCount, y: GroupCount, z: GroupCount|
            #![trigger c.cmp_spec(x, y), c.cmp_spec(y, z)]
            c.cmp_spec(x, y) != Ordering::Greater && c.cmp_spec(y, z) != Ordering::Greater
                ==> c.cmp_spec(x, z) != Ordering::Greater,
{
    assert forall|x: GroupCount, y: GroupCount| #[trigger]
        c.cmp_spec(x, y) == flip(c.cmp_spec(y, x)) by {
        lemma_cmp_seq_flip(x@.key.a_suffix, y@.key.a_suffix);
        lemma_cmp_seq_flip(x@.key.b_suffix, y@.key.b_suffix);
    }
    assert forall|x: GroupCount, y: GroupCount, z: GroupCount|
        #![trigger c.cmp_spec(x, y), c.cmp_spec(y, z)]
        c.cmp_spec(x, y) != Ordering::Greater && c.cmp_spec(y, z)
            != Ordering::Greater implies c.cmp_spec(x, z) != Ordering::Greater by {
        let xa = x@.key.a_suffix;
        let ya = y@.key.a_suffix;
        let za = z@.key.a_suffix;
        let xb = x@.key.b_suffix;
        let yb = y@.key.b_suffix;
        let zb = z@.key.b_suffix;
        lemma_cmp_seq_equal(xa, ya);
        lemma_cmp_seq_equal(ya, za);
        lemma_cmp_seq_equal(xa, za);
        lemma_cmp_seq_equal(xb, yb);
        lemma_cmp_seq_equal(yb, zb);
        lemma_cmp_seq_equal(xb, zb);
        if cmp_seq(xa, ya) != Ordering::Greater && cmp_seq(ya, za) != Ordering::Greater {
            lemma_cmp_seq_trans(xa, ya, za);
        }
        if cmp_seq(xb, yb) != Ordering::Greater && cmp_seq(yb, zb) != Ordering::Greater {
            lemma_cmp_seq_trans(xb, yb, zb);
        }
    }
}

/// One reported group: the shared directory name, the adjacent-pair count,
/// the three overlap counts, and the two decoded parent paths (leaf to
/// root, as sliced from the reversed order).
pub struct Summary {
    pub name: String,
    pub count: usize,
    pub common: usize,
    pub left_only: usize,
    pub right_only: usize,
    pub path_a: String,
    pub path_b: String,
}

/// `s` reports group `g` of the store: the counts agree, the name resolves
/// the anchor, the paths decode the suffixes, and the overlap counts are
/// the merge-join's answer for the two subtree ranges.
pub open spec fn summary_matches(s: Summary, g: GroupCountModel, files: Files) -> bool {
    &&& s.count == g.count
    &&& s.name@ == files.strings@[g.key.anchor as int]
    &&& s.path_a@ == join_with(resolved(files.strings@, g.key.a_suffix), '/')
    &&& s.path_b@ == join_with(resolved(files.strings@, g.key.b_suffix), '/')
    &&& overlap_ok(
        entry_views(files.files@),
        g.key.a_suffix.reverse(),
        g.key.b_suffix.reverse(),
        s.common as int,
        s.left_only as int,
        s.right_only as int,
    )
}

/// `s` lists each key of the histogram exactly once, with its count.
pub open spec fn enumerates_hist(s: Seq<(usize, usize)>, m: Map<int, nat>) -> bool {
    &&& s.len() == m.len()
    &&& forall|i: int, j: int| 0 <= i < j < s.len() ==> (#[trigger] s[i]).0 != (#[trigger] s[j]).0
    &&& forall|i: int|
        0 <= i < s.len() ==> m.contains_key((#[trigger] s[i]).0 as int) && m[s[i].0 as int]
            == s[i].1 as nat
}

/// What the scan of the whole reversed collection accumulates.
pub open spec fn scan_model(files: Files) -> crate::stats::StatsModel {
    scan_stats(
        entry_views(files.files_rev@),
        0,
        if files.files_rev@.len() == 0 {
            0
        } else {
            files.files_rev@.len() - 1
        },
    )
}

/// The groups `gs` enumerate the tally, they are ranked ascending, and each
/// summary reports its group.
pub open spec fn ranked_summaries_ok(
    gs: Seq<GroupCountModel>,
    summaries: Seq<Summary>,
    groups: Map<GroupKeyModel, nat>,
    files: Files,
) -> bool {
    &&& enumerates_groups(gs, groups)
    &&& gs.len() == summaries.len()
    &&& forall|p: int, q: int|
        0 <= p < q < gs.len() ==> group_order(#[trigger] gs[p], #[trigger] gs[q])
            != Ordering::Greater
    &&& forall|i: int| 0 <= i < gs.len() ==> summary_matches(summaries[i], #[trigger] gs[i], files)
}

/// `gs` lists each group of the tally exactly once, with its count.
pub open spec fn enumerates_groups(gs: Seq<GroupCountModel>, m: Map<GroupKeyModel, nat>) -> bool {
    &&& gs.len() == m.len()
    &&& forall|i: int, j: int|
        0 <= i < j < gs.len() ==> (#[trigger] gs[i]).key != (#[trigger] gs[j]).key
    &&& forall|i: int|
        0 <= i < gs.len() ==> m.contains_key((#[trigger] gs[i]).key) && m[gs[i].key]
            == gs[i].count as nat
}

/// Pairs handled per scan chunk.
pub const SCAN_CHUNK: usize = 100;

/// Run the analysis over a loaded store: the histogram of shared-suffix
/// lengths, and one summary per overlap group, ranked ascending by count
/// with ties resolved by key.
#[verifier::rlimit(50)]
pub fn run_pipeline(files: &Files) -> (r: (Vec<(usize, usize)>, Vec<Summary>))
    requires
        files.wf(),
    ensures
        enumerates_hist(r.0@, scan_model(*files).hist),
        exists|gs: Seq<GroupCountModel>|
            #[trigger] ranked_summaries_ok(gs, r.1@, scan_model(*files).groups, *files),
{
    let ghost views_rev = entry_views(files.files_rev@);
    let n = files.files_rev.len();
    let ghost pairs_end: int = if n == 0 {
        0int
    } else {
        n - 1
    };
    let mut ranges: Vec<(usize, usize)> = Vec::new();
    if n >= 2 {
        let total = n - 1;
        let mut start: usize = 0;
        while start < total
            invariant
                2 <= n,
                total == n - 1,
                start <= total,
                ranges@.len() > 0 ==> ranges@[0].0 == 0 && ranges@[ranges@.len() - 1].1 == start,
                ranges@.len() == 0 ==> start == 0,
                forall|k: int|
                    0 <= k < ranges@.len() ==> (#[trigger] ranges@[k]).0 < ranges@[k].1 <= total,
                forall|k: int|
                    0 <= k < ranges@.len() - 1 ==> (#[trigger] ranges@[k]).1 == ranges@[k + 1].0,
            decreases total - start,
        {
            let end = if total - start > SCAN_CHUNK {
                start + SCAN_CHUNK
            } else {
                total
            };
            ranges.push((start, end));
            start = end;
        }
    }
    proof {
        assert forall|k: int|
            0 <= k < ranges@.len() implies (#[trigger] ranges@[k]).0 <= ranges@[k].1 && (
        ranges@[k].0 == ranges@[k].1 || ranges@[k].1 + 1 <= files.files_rev@.len()) by {}
    }
    let mut chunks = par_scan(&files.files_rev, &ranges);
    let mut stats = Stats::new();
    while chunks.len() > 0
        invariant
            views_rev == entry_views(files.files_rev@),
            n == files.files_rev@.len(),
            pairs_end == if n == 0 {
                0int
            } else {
                n - 1
            },
            ranges@.len() > 0 ==> ranges@[0].0 == 0 && ranges@[ranges@.len() - 1].1 == pairs_end,
            forall|k: int|
                0 <= k < ranges@.len() ==> (#[trigger] ranges@[k]).0 < ranges@[k].1 <= pairs_end,
            forall|k: int|
                0 <= k < ranges@.len() - 1 ==> (#[trigger] ranges@[k]).1 == ranges@[k + 1].0,
            chunks@.len() <= ranges@.len(),
            forall|j: int|
                0 <= j < chunks@.len() ==> (#[trigger] chunks@[j]).wf() && chunks@[j]@
                    == scan_stats(
                    views_rev,
                    ranges@[ranges@.len() - chunks@.len() + j].0 as int,
                    ranges@[ranges@.len() - chunks@.len() + j].1 as int,
                ),
            stats.wf(),
            stats@ == scan_stats(
                views_rev,
                0,
                if chunks@.len() == ranges@.len() {
                    0int
                } else {
                    ranges@[ranges@.len() - chunks@.len() - 1].1 as int
                },
            ),
        decreases chunks@.len(),
    {
        let ghost k = ranges@.len() - chunks@.len();
        let ghost lo = ranges@[k].0 as int;
        let ghost hi = ranges@[k].1 as int;
        proof {
            if k == 0 {
                assert(lo == 0);
            } else {
                assert(ranges@[k - 1].1 == ranges@[k].0);
            }
            assert(stats@ == scan_stats(views_rev, 0, lo));
            crate::stats::lemma_scan_bounds(views_rev, 0, lo);
            crate::stats::lemma_scan_bounds(views_rev, lo, hi);
            assert forall|q: int|
                #![trigger count_of(stats@.hist, q)]
                count_of(stats@.hist, q) + count_of(chunks@[0]@.hist, q) <= usize::MAX by {
                if stats@.hist.contains_key(q) {
                    assert(stats@.hist[q] <= lo);
                }
                if chunks@[0]@.hist.contains_key(q) {
                    assert(chunks@[0]@.hist[q] <= hi - lo);
                }
            }
            assert forall|g: GroupKeyModel|
                #![trigger count_of(stats@.groups, g)]
                count_of(stats@.groups, g) + count_of(chunks@[0]@.groups, g) <= usize::MAX by {
                if stats@.groups.contains_key(g) {
                    assert(stats@.groups[g] <= lo);
                }
                if chunks@[0]@.groups.contains_key(g) {
                    assert(chunks@[0]@.groups[g] <= hi - lo);
                }
            }
        }
        let chunk = chunks.remove(0);
        stats.merge_from(chunk);
        proof {
            crate::stats::lemma_scan_split(views_rev, 0, lo, hi);
            assert(stats@ == scan_stats(views_rev, 0, hi));
        }
    }
    let ghost m = scan_stats(views_rev, 0, pairs_end);
    proof {
        if ranges@.len() == 0 {
            if n >= 2 {
                assert(false);
            }
            assert(pairs_end == 0);
        }
        assert(stats@ == m);
    }
    let Stats { hist, groups } = stats;
    let hist_entries = hist.into_entries();
    proof {
        assert(enumerates_hist(hist_entries@, m.hist)) by {
            assert forall|i: int, j: int| 0 <= i < j < hist_entries@.len() implies (
            #[trigger] hist_entries@[i]).0 != (#[trigger] hist_entries@[j]).0 by {
                assert(hist_entries@[i].0.model() != hist_entries@[j].0.model());
            }
        }
    }
    let group_entries = groups.into_entries();
    let mut group_entries = group_entries;
    let mut ranked: Vec<GroupCount> = Vec::new();
    while group_entries.len() > 0
        invariant
            enumerates_hist(hist_entries@, m.hist),
            ranked@.len() + group_entries@.len() == m.groups.len(),
            forall|i: int, j: int|
                0 <= i < j < ranked@.len() ==> (#[trigger] ranked@[i])@.key != (
                #[trigger] ranked@[j])@.key,
            forall|i: int|
                0 <= i < ranked@.len() ==> m.groups.contains_key((#[trigger] ranked@[i])@.key)
                    && m.groups[ranked@[i]@.key] == ranked@[i]@.count as nat,
            forall|i: int, j: int|
                0 <= i < j < group_entries@.len() ==> (#[trigger] group_entries@[i]).0.model() != (
                #[trigger] group_entries@[j]).0.model(),
            forall|i: int|
                0 <= i < group_entries@.len() ==> m.groups.contains_key(
                    (#[trigger] group_entries@[i]).0.model(),
                ) && m.groups[group_entries@[i].0.model()] == group_entries@[i].1 as nat,
            forall|i: int, j: int|
                0 <= i < ranked@.len() && 0 <= j < group_entries@.len() ==> (
                #[trigger] ranked@[i])@.key != (#[trigger] group_entries@[j]).0.model(),
        decreases group_entries@.len(),
    {
        let p = group_entries.pop().unwrap();
        ranked.push(GroupCount { count: p.1, key: p.0 });
    }
    proof {
        lemma_group_order_total(GroupCmp);
    }
    let ghost pre = ranked@.map_values(|g: GroupCount| g@);
    par_sort_with(&mut ranked, &GroupCmp);
    let ghost gs = ranked@.map_values(|g: GroupCount| g@);
    proof {
        broadcast use vstd::seq_lib::group_to_multiset_ensures;

        assert(pre.to_multiset() == gs.to_multiset());
        assert(pre.no_duplicates()) by {
            assert forall|i: int, j: int|
                0 <= i < j < pre.len() implies pre[i] != pre[j] by {
                assert(pre[i].key != pre[j].key);
            }
        }
        pre.lemma_multiset_has_no_duplicates();
        gs.lemma_multiset_has_no_duplicates_conv();
        assert forall|i: int| 0 <= i < gs.len() implies m.groups.contains_key(
            (#[trigger] gs[i]).key,
        ) && m.groups[gs[i].key] == gs[i].count as nat by {
            assert(gs.contains(gs[i]));
            assert(gs.to_multiset().count(gs[i]) > 0);
            assert(pre.contains(gs[i]));
            let p = choose|p: int| 0 <= p < pre.len() && pre[p] == gs[i];
            assert(m.groups.contains_key(pre[p].key));
        }
        assert forall|i: int, j: int|
            0 <= i < j < gs.len() implies (#[trigger] gs[i]).key != (#[trigger] gs[j]).key by {
            if gs[i].key == gs[j].key {
                assert(gs.no_duplicates());
                assert(gs[i] != gs[j]);
                assert(gs.to_multiset().count(gs[i]) > 0);
                assert(gs.to_multiset().count(gs[j]) > 0);
                assert(pre.contains(gs[i]));
                assert(pre.contains(gs[j]));
                let p = choose|p: int| 0 <= p < pre.len() && pre[p] == gs[i];
                let q = choose|q: int| 0 <= q < pre.len() && pre[q] == gs[j];
                assert(p != q);
                assert(pre[p].key != pre[q].key);
            }
        }
        assert(enumerates_groups(gs, m.groups)) by {
            assert(gs.len() == pre.len());
        }
        assert forall|i: int, j: int|
            0 <= i < j < gs.len() implies group_order(#[trigger] gs[i], #[trigger] gs[j])
            != Ordering::Greater by {
            assert(GroupCmp.cmp_spec(ranked@[i], ranked@[j]) != Ordering::Greater);
            assert(gs[i] == ranked@[i]@);
            assert(gs[j] == ranked@[j]@);
        }
    }
    proof {
        crate::stats::lemma_scan_keys_valid(
            views_rev,
            0,
            pairs_end,
            files.strings@.len() as int,
        );
        assert forall|g: GroupKeyModel| #[trigger]
            m.groups.contains_key(g) implies 0 < g.anchor < files.strings@.len()
            && crate::files::entry_ids_valid(g.a_suffix, files.strings@.len() as int)
            && crate::files::entry_ids_valid(g.b_suffix, files.strings@.len() as int) by {
            assert(g.anchor == g.anchor);
        }
    }
    let mut summaries: Vec<Summary> = Vec::new();
    let mut i: usize = 0;
    while i < ranked.len()
        invariant
            gs == ranked@.map_values(|g: GroupCount| g@),
            files.wf(),
            views_rev == entry_views(files.files_rev@),
            n == files.files_rev@.len(),
            pairs_end == if n == 0 {
                0int
            } else {
                n - 1
            },
            m == scan_stats(views_rev, 0, pairs_end),
            enumerates_hist(hist_entries@, m.hist),
            enumerates_groups(gs, m.groups),
            forall|p: int, q: int|
                0 <= p < q < gs.len() ==> group_order(#[trigger] gs[p], #[trigger] gs[q])
                    != Ordering::Greater,
            forall|t: int|
                0 <= t < gs.len() ==> m.groups.contains_key((#[trigger] gs[t]).key),
            forall|g: GroupKeyModel|
                #[trigger] m.groups.contains_key(g) ==> 0 < g.anchor < files.strings@.len()
                    && crate::files::entry_ids_valid(g.a_suffix, files.strings@.len() as int)
                    && crate::files::entry_ids_valid(g.b_suffix, files.strings@.len() as int),
            0 <= i <= ranked@.len(),
            summaries@.len() == i,
            forall|t: int|
                0 <= t < i ==> summary_matches(#[trigger] summaries@[t], gs[t], *files),
        decreases ranked@.len() - i,
    {
        let g = &ranked[i];
        proof {
            assert(gs[i as int] == g@);
            assert(m.groups.contains_key(g@.key));
            assert forall|k: int|
                0 <= k < g.key.a_suffix@.len() implies (#[trigger] g.key.a_suffix@[k])
                < files.strings@.len() by {
                assert(0 < g@.key.a_suffix[k] < files.strings@.len());
            }
            assert forall|k: int|
                0 <= k < g.key.b_suffix@.len() implies (#[trigger] g.key.b_suffix@[k])
                < files.strings@.len() by {
                assert(0 < g@.key.b_suffix[k] < files.strings@.len());
            }
        }
        let (common, left_only, right_only) = crate::overlap::find_overlap(
            &g.key.a_suffix,
            &g.key.b_suffix,
            files,
        );
        let name = files.strings.resolve(g.key.anchor).clone();
        let path_a = decode(&g.key.a_suffix, &files.strings);
        let path_b = decode(&g.key.b_suffix, &files.strings);
        let s = Summary {
            name,
            count: g.count,
            common,
            left_only,
            right_only,
            path_a,
            path_b,
        };
        summaries.push(s);
        i = i + 1;
    }
    let result = (hist_entries, summaries);
    proof {
        assert(gs.len() == result.1@.len());
        assert(scan_model(*files) == m);
        assert(enumerates_hist(result.0@, scan_model(*files).hist));
        assert(ranked_summaries_ok(gs, result.1@, scan_model(*files).groups, *files));
    }
    result
}

} // verus!
