use review_index::error::StoreError;
use review_index::meta_store::MetaStore;
use std::io::BufRead;

#[test]
fn new_store_is_empty() {
    let store = MetaStore::open(Vec::new());
    assert_eq!(store.count(), 0);
    assert_eq!(store.as_bytes(), b"");
    assert_eq!(store.read_line(0), Err(StoreError::NotFound));
}

#[test]
fn appended_lines_are_read_back_by_number() {
    let mut store = MetaStore::open(Vec::new());
    assert_eq!(store.append_line(b"{\"a\":1}"), Ok(()));
    assert_eq!(store.append_line(b""), Ok(()));
    assert_eq!(store.append_line(b"{\"b\":2}"), Ok(()));
    assert_eq!(store.count(), 3);
    assert_eq!(store.read_line(0), Ok(b"{\"a\":1}".to_vec()));
    assert_eq!(store.read_line(1), Ok(Vec::new()));
    assert_eq!(store.read_line(2), Ok(b"{\"b\":2}".to_vec()));
    assert_eq!(store.as_bytes(), b"{\"a\":1}\n\n{\"b\":2}\n");
}

#[test]
fn reading_past_the_end_is_not_found() {
    let mut store = MetaStore::open(Vec::new());
    store.append_line(b"one").unwrap();
    store.append_line(b"two").unwrap();
    assert_eq!(store.read_line(2), Err(StoreError::NotFound));
    assert_eq!(store.read_line(3), Err(StoreError::NotFound));
    assert_eq!(store.read_line(usize::MAX), Err(StoreError::NotFound));
}

#[test]
fn line_with_a_line_break_is_refused_and_changes_nothing() {
    let mut store = MetaStore::open(Vec::new());
    store.append_line(b"one").unwrap();
    assert_eq!(store.append_line(b"two\nthree"), Err(StoreError::Validation));
    assert_eq!(store.append_line(b"two\r"), Err(StoreError::Validation));
    assert_eq!(store.append_line(b"\n"), Err(StoreError::Validation));
    assert_eq!(store.count(), 1);
    assert_eq!(store.as_bytes(), b"one\n");
}

#[test]
fn frame_is_the_line_and_a_line_feed() {
    assert_eq!(MetaStore::frame_line(b"abc"), Ok(b"abc\n".to_vec()));
    assert_eq!(MetaStore::frame_line(b""), Ok(b"\n".to_vec()));
    assert_eq!(MetaStore::frame_line(b"a\nb"), Err(StoreError::Validation));
    assert_eq!(MetaStore::frame_line(b"a\rb"), Err(StoreError::Validation));
    assert!(MetaStore::accepts_line(b"{\"k\":\"v\"}"));
    assert!(!MetaStore::accepts_line(b"x\n"));
    assert!(!MetaStore::accepts_line(b"\rx"));
}

#[test]
fn existing_image_is_split_at_line_feeds() {
    let store = MetaStore::open(b"first\nsecond\r\n\nlast".to_vec());
    assert_eq!(store.count(), 4);
    assert_eq!(store.read_line(0), Ok(b"first".to_vec()));
    assert_eq!(store.read_line(1), Ok(b"second".to_vec()));
    assert_eq!(store.read_line(2), Ok(Vec::new()));
    assert_eq!(store.read_line(3), Ok(b"last".to_vec()));
    assert_eq!(store.read_line(4), Err(StoreError::NotFound));
}

#[test]
fn only_one_carriage_return_is_taken_from_a_line() {
    let store = MetaStore::open(b"a\r\r\n\r\nb\rc\n".to_vec());
    assert_eq!(store.count(), 3);
    assert_eq!(store.read_line(0), Ok(b"a\r".to_vec()));
    assert_eq!(store.read_line(1), Ok(Vec::new()));
    assert_eq!(store.read_line(2), Ok(b"b\rc".to_vec()));
}

#[test]
fn lines_agree_with_the_standard_line_reader() {
    let images: [&[u8]; 11] = [
        b"",
        b"abc\r",
        b"\r",
        b"a\nb\r",
        b"a\r\n\r",
        b"\n",
        b"a",
        b"a\n",
        b"a\r\nb\n\nc",
        b"\r\n\r\n",
        b"x\ry\r\n\rz\n\n\n",
    ];
    for image in images {
        let expected: Vec<Vec<u8>> =
            image.lines().map(|l| l.unwrap().into_bytes()).collect();
        let store = MetaStore::open(image.to_vec());
        assert_eq!(store.count(), expected.len());
        for (i, line) in expected.iter().enumerate() {
            assert_eq!(store.read_line(i), Ok(line.clone()));
        }
        assert_eq!(store.read_line(expected.len()), Err(StoreError::NotFound));
    }
}

#[test]
fn count_grows_by_one_with_every_append() {
    let mut store = MetaStore::open(Vec::new());
    for n in 0..50usize {
        assert_eq!(store.count(), n);
        let line = format!("{{\"n\":{}}}", n);
        store.append_line(line.as_bytes()).unwrap();
        assert_eq!(store.read_line(n), Ok(line.into_bytes()));
    }
    assert_eq!(store.count(), 50);
}

#[test]
fn unfinished_last_line_keeps_its_carriage_return() {
    let store = MetaStore::open(b"one\r\ntwo\r".to_vec());
    assert_eq!(store.count(), 2);
    assert_eq!(store.read_line(0), Ok(b"one".to_vec()));
    assert_eq!(store.read_line(1), Ok(b"two\r".to_vec()));
}
