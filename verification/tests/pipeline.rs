use dirdup::load::load_from_text;
use dirdup::overlap::{bounds_of_prefix, find_overlap};
use dirdup::pipeline::{decode, run_pipeline};

#[test]
fn shallow_shared_suffix_forms_no_group() {
    // reversed entries share only the leading id for "1.jpg", so the
    // shared length is 1 and no overlap group is formed
    let data = b"a/x/1.jpg\0a/y/1.jpg\0".to_vec();
    let files = load_from_text(&data).unwrap();
    let (hist, summaries) = run_pipeline(&files);
    assert_eq!(hist, vec![(1, 1)]);
    assert_eq!(summaries.len(), 0);
}

#[test]
fn deeper_shared_suffix_forms_a_group() {
    // the shared trailing run "p/1.jpg" has length 2, so a group is formed,
    // anchored at the last shared component "p", diverging at "x" vs "y"
    let data = b"a/x/p/1.jpg\0a/y/p/1.jpg\0".to_vec();
    let files = load_from_text(&data).unwrap();
    let (hist, summaries) = run_pipeline(&files);
    assert_eq!(hist, vec![(2, 1)]);
    assert_eq!(summaries.len(), 1);
    let s = &summaries[0];
    assert_eq!(s.name, "p");
    assert_eq!(s.count, 1);
    assert_eq!(s.common, 1);
    assert_eq!(s.left_only, 0);
    assert_eq!(s.right_only, 0);
    // paths are decoded leaf to root from the reversed-order suffixes
    assert_eq!(s.path_a, "p/x/a");
    assert_eq!(s.path_b, "p/y/a");
}

#[test]
fn identical_subtrees_give_ratio_one() {
    // two sibling directories with the same three files
    let data = b"root/old/d/f1\0root/old/d/f2\0root/old/d/f3\0\
root/new/d/f1\0root/new/d/f2\0root/new/d/f3\0"
        .to_vec();
    let files = load_from_text(&data).unwrap();
    let (_, summaries) = run_pipeline(&files);
    assert!(summaries.len() > 0);
    for s in summaries.iter() {
        let total = s.common + s.left_only + s.right_only;
        let ratio = s.common as f64 / total as f64;
        assert!(0.0 <= ratio && ratio <= 1.0);
    }
    // the group anchored at "d" with count 3 covers the two identical
    // subtrees: everything is common
    let best = summaries.iter().find(|s| s.name == "d" && s.count == 3).unwrap();
    assert_eq!(best.common, 3);
    assert_eq!(best.left_only, 0);
    assert_eq!(best.right_only, 0);
}

#[test]
fn overlapping_subtrees_are_counted() {
    // "old" holds f1 f2 f3, "new" holds f2 f3 f4: two files in common
    let data = b"r/old/f1\0r/old/f2\0r/old/f3\0r/new/f2\0r/new/f3\0r/new/f4\0".to_vec();
    let files = load_from_text(&data).unwrap();
    // reversed suffixes anchored at f2 and at f3 pair "old" with "new"
    let (hist, summaries) = run_pipeline(&files);
    assert_eq!(hist, vec![(1, 2)]);
    assert_eq!(summaries.len(), 0);

    // compare the two subtrees directly: parents in leaf-to-root order
    let old_id = files.strings.lookup("old").unwrap();
    let new_id = files.strings.lookup("new").unwrap();
    let r_id = files.strings.lookup("r").unwrap();
    let parent_old = vec![old_id, r_id];
    let parent_new = vec![new_id, r_id];
    let (common, left_only, right_only) = find_overlap(&parent_old, &parent_new, &files);
    assert_eq!(common, 2);
    assert_eq!(left_only, 1);
    assert_eq!(right_only, 1);
}

#[test]
fn ranking_is_ascending_by_count() {
    // dup1/dup2 share c/f pairs twice; solo1/solo2 share g/h once
    let data = b"t/dup1/c/f1\0t/dup1/c/f2\0t/dup2/c/f1\0t/dup2/c/f2\0t/solo1/g/h\0t/solo2/g/h\0"
        .to_vec();
    let files = load_from_text(&data).unwrap();
    let (_, summaries) = run_pipeline(&files);
    assert!(summaries.len() >= 2);
    for w in summaries.windows(2) {
        assert!(w[0].count <= w[1].count);
    }
}

#[test]
fn decode_joins_components() {
    let data = b"a/b/c\0".to_vec();
    let files = load_from_text(&data).unwrap();
    let ids = files.files[0].clone();
    assert_eq!(decode(&ids, &files.strings), "a/b/c");
    let empty: Vec<u32> = Vec::new();
    assert_eq!(decode(&empty, &files.strings), "");
}

#[test]
fn prefix_bounds_span_the_subtree() {
    let haystack: Vec<Vec<u32>> = vec![vec![1], vec![1, 2], vec![1, 2, 3], vec![1, 3], vec![2]];
    assert_eq!(bounds_of_prefix(vec![1, 2], &haystack), (1, 3));
    assert_eq!(bounds_of_prefix(vec![1], &haystack), (0, 4));
    assert_eq!(bounds_of_prefix(vec![9], &haystack), (5, 5));
    assert_eq!(bounds_of_prefix(vec![], &haystack), (0, 5));
}
