use dirdup::search::{Ext, I32Key, U32Cmp};

#[test]
fn lower_bound() {
    let array = vec![1, 2, 3, 3, 3, 4, 5, 6];
    let positions = vec![
        (-1, 0),
        (0, 0),
        (1, 0),
        (2, 1),
        (3, 2),
        (4, 5),
        (5, 6),
        (6, 7),
        (7, 8),
        (8, 8),
        (9, 8),
    ];

    for (value, position) in positions {
        assert_eq!(array.lower_bound_by(&I32Key { key: value }), position);
        assert_eq!(
            array.clone().lower_bound_by(&I32Key { key: value }),
            position
        );
    }
}

#[test]
fn upper_bound() {
    let array = vec![1, 2, 3, 3, 3, 4, 5, 6];
    let positions = vec![
        (-1, 0),
        (0, 0),
        (1, 1),
        (2, 2),
        (3, 5),
        (4, 6),
        (5, 7),
        (6, 8),
        (7, 8),
        (8, 8),
        (9, 8),
    ];

    for (value, position) in positions {
        assert_eq!(array.upper_bound_by(&I32Key { key: value }), position);
        assert_eq!(
            array.clone().upper_bound_by(&I32Key { key: value }),
            position
        );
    }
}

#[test]
fn set_differences() {
    let array: Vec<u32> = vec![0, 1, 2, 3, 3, 3, 4, 5, 6];
    let array2: Vec<u32> = vec![1, 2, 3, 4, 4, 4, 5, 6, 7];

    let mut common: Vec<u32> = Vec::new();
    let mut array1only: Vec<u32> = Vec::new();
    let mut array2only: Vec<u32> = Vec::new();

    let (left, right, both) = array.set_differences_by(&array2, &U32Cmp);
    for i in left {
        array1only.push(array[i]);
    }
    for j in right {
        array2only.push(array2[j]);
    }
    for (x, y) in both {
        assert_eq!(array[x], array2[y]);
        common.push(array[x]);
    }
    assert_eq!(common, vec![1, 2, 3, 4, 5, 6]);
    assert_eq!(array1only, vec![0, 3, 3]);
    assert_eq!(array2only, vec![4, 4, 7]);

    common.clear();
    array1only.clear();
    array2only.clear();

    let (left, right, both) = array.set_differences_by(&array2, &U32Cmp);
    for i in left {
        array1only.push(array[i]);
    }
    for j in right {
        array2only.push(array2[j]);
    }
    for (x, y) in both {
        assert_eq!(array[x], array2[y]);
        common.push(array[x]);
    }

    assert_eq!(common, vec![1, 2, 3, 4, 5, 6]);
    assert_eq!(array1only, vec![0, 3, 3]);
    assert_eq!(array2only, vec![4, 4, 7]);
}

#[test]
fn bound_extremes() {
    let array = vec![1, 2, 3, 3, 3, 4, 5, 6];
    assert_eq!(array.lower_bound_by(&I32Key { key: -10 }), 0);
    assert_eq!(array.upper_bound_by(&I32Key { key: -10 }), 0);
    assert_eq!(array.lower_bound_by(&I32Key { key: 100 }), array.len());
    assert_eq!(array.upper_bound_by(&I32Key { key: 100 }), array.len());
    for key in -2..11 {
        let lo = array.lower_bound_by(&I32Key { key });
        let hi = array.upper_bound_by(&I32Key { key });
        assert!(lo <= hi);
    }
    let empty: Vec<i32> = Vec::new();
    assert_eq!(empty.lower_bound_by(&I32Key { key: 0 }), 0);
    assert_eq!(empty.upper_bound_by(&I32Key { key: 0 }), 0);
}

#[test]
fn merge_join_counts_every_position() {
    let a: Vec<u32> = vec![0, 1, 2, 3, 3, 3, 4, 5, 6];
    let b: Vec<u32> = vec![1, 2, 3, 4, 4, 4, 5, 6, 7];
    let (left, right, both) = a.set_differences_by(&b, &U32Cmp);
    assert_eq!(left.len() + right.len() + 2 * both.len(), a.len() + b.len());

    // every position of each input is classified exactly once
    let mut a_seen: Vec<usize> = left.clone();
    a_seen.extend(both.iter().map(|p| p.0));
    a_seen.sort();
    assert_eq!(a_seen, (0..a.len()).collect::<Vec<usize>>());
    let mut b_seen: Vec<usize> = right.clone();
    b_seen.extend(both.iter().map(|p| p.1));
    b_seen.sort();
    assert_eq!(b_seen, (0..b.len()).collect::<Vec<usize>>());
}

#[test]
fn merge_join_identical_inputs() {
    let a: Vec<u32> = vec![2, 4, 4, 9];
    let (left, right, both) = a.set_differences_by(&a, &U32Cmp);
    assert_eq!(left.len(), 0);
    assert_eq!(right.len(), 0);
    assert_eq!(both.len(), a.len());
}
