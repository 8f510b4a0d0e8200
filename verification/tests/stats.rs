use dirdup::stats::{compare_adjacent, scan_chunk, Stats};

fn hist_of(stats: &Stats) -> Vec<(usize, usize)> {
    let mut h = stats.hist.entries.clone();
    h.sort();
    h
}

fn groups_of(stats: &Stats) -> Vec<(u32, Vec<u32>, Vec<u32>, usize)> {
    let mut g: Vec<(u32, Vec<u32>, Vec<u32>, usize)> = stats
        .groups
        .entries
        .iter()
        .map(|(k, v)| (k.anchor, k.a_suffix.clone(), k.b_suffix.clone(), *v))
        .collect();
    g.sort();
    g
}

#[test]
fn adjacent_pair_with_shared_run_of_two() {
    let mut stats = Stats::new();
    compare_adjacent(&vec![5, 2, 9], &vec![5, 2, 7], &mut stats);
    assert_eq!(hist_of(&stats), vec![(2, 1)]);
    // the key keeps the last shared id as the anchor of both suffixes
    assert_eq!(
        groups_of(&stats),
        vec![(2, vec![2, 9], vec![2, 7], 1)]
    );
}

#[test]
fn adjacent_pair_with_shared_run_of_one() {
    let mut stats = Stats::new();
    compare_adjacent(&vec![5, 2], &vec![5, 8], &mut stats);
    // a single shared id ticks the histogram but forms no group
    assert_eq!(hist_of(&stats), vec![(1, 1)]);
    assert_eq!(stats.groups.entries.len(), 0);
}

#[test]
fn adjacent_pair_with_no_shared_run() {
    let mut stats = Stats::new();
    compare_adjacent(&vec![4, 2], &vec![5, 2], &mut stats);
    assert_eq!(stats.hist.entries.len(), 0);
    assert_eq!(stats.groups.entries.len(), 0);
}

#[test]
fn one_entry_a_prefix_of_the_other() {
    let mut stats = Stats::new();
    // the shared run is the whole shorter entry
    compare_adjacent(&vec![3, 1], &vec![3, 1, 7], &mut stats);
    assert_eq!(hist_of(&stats), vec![(2, 1)]);
    assert_eq!(groups_of(&stats), vec![(1, vec![1], vec![1, 7], 1)]);
}

#[test]
fn chunked_scan_merges_to_whole_scan() {
    let entries: Vec<Vec<u32>> = vec![
        vec![7, 3, 1],
        vec![7, 3, 2],
        vec![7, 4, 1],
        vec![8, 3, 1],
        vec![8, 3, 2],
    ];
    let whole = scan_chunk(&entries, 0, 4);

    let mut merged = scan_chunk(&entries, 0, 2);
    let second = scan_chunk(&entries, 2, 4);
    merged.merge_from(second);

    assert_eq!(hist_of(&merged), hist_of(&whole));
    assert_eq!(groups_of(&merged), groups_of(&whole));
}
