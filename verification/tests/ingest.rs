use review_index::error::StoreError;
use review_index::ingest::{insert_bulk, insert_one, Prepared, Review, Stores};

fn empty_stores(dim: usize) -> Stores {
    Stores::open(None, Vec::new(), dim).unwrap()
}

fn prepared(vector: Vec<u32>, line: &str, before: u64) -> Prepared {
    let after = before + 4 * vector.len() as u64;
    Prepared { vector, line: line.as_bytes().to_vec(), mirror_before: before, mirror_after: after }
}

#[test]
fn index_text_is_title_space_body() {
    let r = Review {
        review_title: "good product".to_string(),
        review_body: "really good".to_string(),
        product_id: "p1".to_string(),
        review_rating: 5,
    };
    assert_eq!(r.index_text(), "good product really good");
    let r = Review {
        review_title: String::new(),
        review_body: String::new(),
        product_id: String::new(),
        review_rating: 0,
    };
    assert_eq!(r.index_text(), " ");
}

#[test]
fn insert_puts_vector_and_line_under_one_id() {
    let mut st = empty_stores(2);
    assert_eq!(insert_one(&mut st, &[1, 2], b"{\"n\":0}", 0, 8), Ok(0));
    assert_eq!(insert_one(&mut st, &[3, 4], b"{\"n\":1}", 8, 16), Ok(1));
    assert_eq!(insert_one(&mut st, &[5, 6], b"{\"n\":2}", 16, 24), Ok(2));
    for (id, v) in [(0usize, vec![1u32, 2]), (1, vec![3, 4]), (2, vec![5, 6])] {
        assert_eq!(st.vindex.get(id), Ok(v));
        assert_eq!(st.meta.read_line(id), Ok(format!("{{\"n\":{}}}", id).into_bytes()));
    }
}

#[test]
fn both_stores_count_the_inserts() {
    let mut st = empty_stores(1);
    for n in 0..25usize {
        assert_eq!(st.vindex.len(), n);
        assert_eq!(st.meta.count(), n);
        let line = format!("doc {}", n);
        assert_eq!(insert_one(&mut st, &[n as u32], line.as_bytes(), 4 * n as u64, 4 * n as u64 + 4), Ok(n));
    }
    assert_eq!(st.vindex.len(), 25);
    assert_eq!(st.meta.count(), 25);
}

#[test]
fn vector_of_wrong_length_is_refused_before_any_change() {
    let mut st = empty_stores(2);
    insert_one(&mut st, &[1, 2], b"a", 0, 8).unwrap();
    assert_eq!(insert_one(&mut st, &[1, 2, 3], b"b", 8, 16), Err(StoreError::Validation));
    assert_eq!(insert_one(&mut st, &[], b"b", 8, 16), Err(StoreError::Validation));
    assert_eq!(st.vindex.len(), 1);
    assert_eq!(st.meta.count(), 1);
    assert!(!st.vindex.is_poisoned());
    assert_eq!(insert_one(&mut st, &[3, 4], b"b", 8, 16), Ok(1));
}

#[test]
fn line_with_a_break_is_refused_before_any_change() {
    let mut st = empty_stores(2);
    assert_eq!(insert_one(&mut st, &[1, 2], b"a\nb", 0, 8), Err(StoreError::Validation));
    assert_eq!(insert_one(&mut st, &[1, 2], b"a\r", 0, 8), Err(StoreError::Validation));
    assert_eq!(st.vindex.len(), 0);
    assert_eq!(st.meta.count(), 0);
    assert_eq!(st.vindex.as_bytes(), b"");
    assert_eq!(st.meta.as_bytes(), b"");
}

#[test]
fn lost_write_poisons_the_vector_store_and_leaves_the_log() {
    let mut st = empty_stores(2);
    insert_one(&mut st, &[1, 2], b"a", 0, 8).unwrap();
    assert_eq!(insert_one(&mut st, &[3, 4], b"b", 8, 8), Err(StoreError::Integrity));
    assert!(st.vindex.is_poisoned());
    assert_eq!(st.vindex.len(), 2);
    assert_eq!(st.meta.count(), 1);
    assert_eq!(insert_one(&mut st, &[5, 6], b"c", 8, 16), Err(StoreError::Integrity));
    assert_eq!(st.vindex.len(), 2);
    assert_eq!(st.meta.count(), 1);
}

#[test]
fn bulk_inserts_every_document_of_a_good_batch() {
    let mut st = empty_stores(1);
    let batch = vec![prepared(vec![10], "a", 0), prepared(vec![11], "b", 4), prepared(vec![12], "c", 8)];
    assert_eq!(insert_bulk(&mut st, &batch), 3);
    assert_eq!(st.vindex.len(), 3);
    assert_eq!(st.meta.count(), 3);
    assert_eq!(st.vindex.get(2), Ok(vec![12]));
    assert_eq!(st.meta.read_line(2), Ok(b"c".to_vec()));
    assert_eq!(insert_bulk(&mut st, &Vec::new()), 0);
}

#[test]
fn bulk_stops_at_the_first_malformed_document() {
    let mut st = empty_stores(2);
    let batch = vec![
        prepared(vec![1, 1], "first", 0),
        prepared(vec![2, 2], "second", 8),
        prepared(vec![3, 3, 3], "third", 16),
        prepared(vec![4, 4], "fourth", 16),
    ];
    assert_eq!(insert_bulk(&mut st, &batch), 2);
    assert_eq!(st.vindex.len(), 2);
    assert_eq!(st.meta.count(), 2);
    assert_eq!(st.meta.read_line(1), Ok(b"second".to_vec()));
    assert_eq!(st.meta.read_line(2), Err(StoreError::NotFound));
    assert!(!st.vindex.is_poisoned());
}

#[test]
fn bulk_stops_at_a_malformed_line() {
    let mut st = empty_stores(1);
    let batch = vec![prepared(vec![1], "bad\nline", 0), prepared(vec![2], "good", 0)];
    assert_eq!(insert_bulk(&mut st, &batch), 0);
    assert_eq!(st.vindex.len(), 0);
    assert_eq!(st.meta.count(), 0);
}

#[test]
fn bulk_stops_at_a_lost_write() {
    let mut st = empty_stores(1);
    let mut batch = vec![prepared(vec![1], "a", 0), prepared(vec![2], "b", 4), prepared(vec![3], "c", 8)];
    batch[1].mirror_after = 4;
    assert_eq!(insert_bulk(&mut st, &batch), 1);
    assert!(st.vindex.is_poisoned());
    assert_eq!(st.vindex.len(), 2);
    assert_eq!(st.meta.count(), 1);
}

#[test]
fn bulk_into_a_poisoned_store_inserts_nothing() {
    let mut st = empty_stores(1);
    assert!(insert_one(&mut st, &[1], b"a", 0, 0).is_err());
    let batch = vec![prepared(vec![2], "b", 0)];
    assert_eq!(insert_bulk(&mut st, &batch), 0);
    assert_eq!(st.vindex.len(), 1);
    assert_eq!(st.meta.count(), 0);
}

#[test]
fn stores_open_on_the_content_of_their_files() {
    let st = Stores::open(None, Vec::new(), 2).unwrap();
    assert_eq!((st.vindex.len(), st.meta.count()), (0, 0));
    let st = Stores::open(Some(vec![0; 16]), b"a\nb\n".to_vec(), 2).unwrap();
    assert_eq!((st.vindex.len(), st.meta.count()), (2, 2));
    assert_eq!(st.vindex.dim(), 2);
    assert!(!st.vindex.is_poisoned());
    assert_eq!(Stores::open(None, Vec::new(), 0).err(), Some(StoreError::Validation));
    assert_eq!(Stores::open(Some(vec![0; 5]), Vec::new(), 1).err(), Some(StoreError::Integrity));
}

#[test]
fn reopened_stores_hold_the_same_documents() {
    let mut st = empty_stores(2);
    insert_one(&mut st, &[1, 2], b"first", 0, 8).unwrap();
    insert_one(&mut st, &[3, 4], b"second", 8, 16).unwrap();
    let vectors = st.vindex.as_bytes().to_vec();
    let lines = st.meta.as_bytes().to_vec();
    let mut again = Stores::open(Some(vectors), lines, 2).unwrap();
    assert_eq!(again.vindex.get(1), Ok(vec![3, 4]));
    assert_eq!(again.meta.read_line(1), Ok(b"second".to_vec()));
    assert_eq!(insert_one(&mut again, &[5, 6], b"third", 16, 24), Ok(2));
    assert_eq!(again.meta.read_line(2), Ok(b"third".to_vec()));
}
