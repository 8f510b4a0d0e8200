use dirdup::files::Files;
use dirdup::load::{load_from_binary, load_from_text, read_le_word, LoadError};

fn expect_err(r: Result<Files, LoadError>) -> LoadError {
    match r {
        Ok(_) => panic!("expected an error"),
        Err(e) => e,
    }
}

#[test]
fn le_word_value() {
    assert_eq!(read_le_word(0x78, 0x56, 0x34, 0x12), 0x12345678);
    assert_eq!(read_le_word(0, 0, 0, 0), 0);
    assert_eq!(read_le_word(255, 255, 255, 255), u32::MAX);
}

#[test]
fn text_loader_interns_and_sorts() {
    let data = b"b/x\0a/x\0b/x\0".to_vec();
    let files = load_from_text(&data).unwrap();
    // ids in first-seen order: b=1, x=2, a=3
    assert_eq!(files.strings.resolve(1), "b");
    assert_eq!(files.strings.resolve(2), "x");
    assert_eq!(files.strings.resolve(3), "a");
    // forward order sorted: [3,2] < [1,2] is false; sorted by ids
    assert_eq!(files.files, vec![vec![1, 2], vec![1, 2], vec![3, 2]]);
    assert_eq!(files.files_rev, vec![vec![2, 1], vec![2, 1], vec![2, 3]]);
}

#[test]
fn text_loader_rejects_bad_utf8() {
    let data = vec![b'a', b'/', 0xFF, 0];
    assert_eq!(expect_err(load_from_text(&data)), LoadError::BadUtf8);
}

#[test]
fn text_loader_empty_input() {
    let files = load_from_text(&Vec::new()).unwrap();
    assert_eq!(files.files.len(), 0);
    assert_eq!(files.files_rev.len(), 0);
}

fn words(ws: &[u32]) -> Vec<u8> {
    let mut out = Vec::new();
    for w in ws {
        out.extend_from_slice(&[
            (w & 0xFF) as u8,
            ((w >> 8) & 0xFF) as u8,
            ((w >> 16) & 0xFF) as u8,
            ((w >> 24) & 0xFF) as u8,
        ]);
    }
    out
}

#[test]
fn binary_loader_reads_records() {
    let names = b"top\nsub\nleaf.jpg\n".to_vec();
    let ids = words(&[1, 2, 3, 0, 1, 3, 0]);
    let files = load_from_binary(&names, &ids).unwrap();
    // ids start at 1; id 0 stays the reserved placeholder
    assert_eq!(files.strings.resolve(0), "");
    assert_eq!(files.strings.resolve(1), "top");
    assert_eq!(files.strings.resolve(2), "sub");
    assert_eq!(files.strings.resolve(3), "leaf.jpg");
    assert_eq!(files.files, vec![vec![1, 2, 3], vec![1, 3]]);
    assert_eq!(files.files_rev, vec![vec![3, 1], vec![3, 2, 1]]);
}

#[test]
fn binary_loader_rejects_unknown_id() {
    let names = b"one\ntwo\n".to_vec();
    let ids = words(&[7, 0]);
    assert_eq!(expect_err(load_from_binary(&names, &ids)), LoadError::UnknownId);
}

#[test]
fn binary_loader_rejects_unterminated_record() {
    let names = b"one\n".to_vec();
    let ids = words(&[1]);
    assert_eq!(
        expect_err(load_from_binary(&names, &ids)),
        LoadError::UnterminatedRecord
    );
}

#[test]
fn binary_loader_rejects_truncated_word() {
    let names = b"one\n".to_vec();
    let mut ids = words(&[1, 0]);
    ids.push(9);
    assert_eq!(
        expect_err(load_from_binary(&names, &ids)),
        LoadError::TruncatedWord
    );
}

#[test]
fn binary_loader_rejects_duplicate_name() {
    let names = b"one\none\n".to_vec();
    let ids = words(&[1, 0]);
    assert_eq!(
        expect_err(load_from_binary(&names, &ids)),
        LoadError::DuplicateName
    );
}

#[test]
fn binary_loader_rejects_bad_utf8_name() {
    let names = vec![b'o', 0xFF, b'\n'];
    let ids = words(&[1, 0]);
    assert_eq!(expect_err(load_from_binary(&names, &ids)), LoadError::BadUtf8);
}

#[test]
fn binary_loader_strips_carriage_returns() {
    let names = b"one\r\ntwo\r\n".to_vec();
    let ids = words(&[1, 2, 0]);
    let files = load_from_binary(&names, &ids).unwrap();
    assert_eq!(files.strings.resolve(1), "one");
    assert_eq!(files.strings.resolve(2), "two");
}
