use std::cmp::Ordering;
use dirdup::intern::StringTable;
use dirdup::order::{common_prefix, compare_file_entry};
use dirdup::files::Files;

#[test]
fn intern_round_trip() {
    let mut table = StringTable::new();
    assert_eq!(table.len(), 1);
    assert_eq!(table.resolve(0), "");

    let names = ["holiday", "beach", "img_0001.jpg", "beach"];
    let mut ids = Vec::new();
    for name in names.iter() {
        ids.push(table.intern(name.to_string()));
    }
    for (name, id) in names.iter().zip(ids.iter()) {
        assert_eq!(table.resolve(*id), name);
    }
    // interning the same text twice returns the same id
    assert_eq!(ids[1], ids[3]);
    assert_eq!(table.len(), 4);
    for name in names.iter() {
        let again = table.intern(name.to_string());
        assert_eq!(table.resolve(again), name);
    }
    assert_eq!(table.len(), 4);
}

#[test]
fn intern_ids_are_dense_and_start_at_one() {
    let mut table = StringTable::new();
    assert_eq!(table.intern("a".to_string()), 1);
    assert_eq!(table.intern("b".to_string()), 2);
    assert_eq!(table.intern("a".to_string()), 1);
    assert_eq!(table.intern("c".to_string()), 3);
    assert_eq!(table.lookup("b"), Some(2));
    assert_eq!(table.lookup("zzz"), None);
}

#[test]
fn entry_order_prefix_sorts_first() {
    assert_eq!(compare_file_entry(&[1, 2], &[1, 2, 3]), Ordering::Less);
    assert_eq!(compare_file_entry(&[1, 2, 3], &[1, 2]), Ordering::Greater);
    assert_eq!(compare_file_entry(&[1, 2, 3], &[1, 2, 3]), Ordering::Equal);
    assert_eq!(compare_file_entry(&[1, 3], &[1, 2, 5]), Ordering::Greater);
    assert_eq!(compare_file_entry(&[], &[]), Ordering::Equal);
    assert_eq!(compare_file_entry(&[], &[7]), Ordering::Less);
}

#[test]
fn entry_order_trichotomy() {
    let entries: Vec<Vec<u32>> = vec![
        vec![],
        vec![1],
        vec![1, 2],
        vec![1, 2, 3],
        vec![1, 3],
        vec![2],
        vec![2, 1],
    ];
    for p in entries.iter() {
        for q in entries.iter() {
            let o = compare_file_entry(p, q);
            let back = compare_file_entry(q, p);
            match o {
                Ordering::Less => {
                    assert_ne!(p, q);
                    assert_eq!(back, Ordering::Greater);
                }
                Ordering::Equal => {
                    assert_eq!(p, q);
                    assert_eq!(back, Ordering::Equal);
                }
                Ordering::Greater => {
                    assert_ne!(p, q);
                    assert_eq!(back, Ordering::Less);
                }
            }
        }
    }
}

#[test]
fn common_prefix_values() {
    assert_eq!(common_prefix(&vec![1, 2, 3], &vec![1, 2, 9]), 2);
    assert_eq!(common_prefix(&vec![1, 2, 3], &vec![1, 2, 3]), 3);
    assert_eq!(common_prefix(&vec![1, 2], &vec![1, 2, 3]), 2);
    assert_eq!(common_prefix(&vec![5], &vec![6]), 0);
    assert_eq!(common_prefix(&vec![], &vec![1]), 0);
}

fn small_table() -> StringTable {
    let mut table = StringTable::new();
    table.intern("a".to_string());
    table.intern("b".to_string());
    table.intern("c".to_string());
    table
}

#[test]
fn sorting_is_idempotent() {
    let entries: Vec<Vec<u32>> = vec![vec![2], vec![1, 3], vec![1]];
    let first = Files::new(small_table(), entries);
    assert_eq!(first.files, vec![vec![1], vec![1, 3], vec![2]]);
    assert_eq!(first.files_rev, vec![vec![1], vec![2], vec![3, 1]]);

    // sorting a sorted collection is a no-op
    let second = Files::new(small_table(), first.files.clone());
    assert_eq!(second.files, first.files);
}
