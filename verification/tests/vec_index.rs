use review_index::error::StoreError;
use review_index::index_spfresh::SpfreshIndex;
use review_index::vec_index::VecIndex;

fn fill<I: VecIndex>(index: &mut I, n: u32) -> Vec<usize> {
    let dim = index.dim();
    let mut ids = Vec::new();
    for i in 0..n {
        let before = 4 * dim as u64 * i as u64;
        ids.push(index.append(&vec![i; dim], before, before + 4 * dim as u64).unwrap());
    }
    ids
}

fn read<I: VecIndex>(index: &I, id: usize) -> Result<Vec<u32>, StoreError> {
    index.get(id)
}

fn best<I: VecIndex>(index: &I, scores: &[u32], k: usize) -> Vec<usize> {
    index.search(scores, k).unwrap().iter().map(|s| s.id).collect()
}

#[test]
fn store_serves_through_the_trait() {
    let mut store = SpfreshIndex::open(None, 3).unwrap();
    assert_eq!(fill(&mut store, 4), vec![0, 1, 2, 3]);
    assert_eq!(read(&store, 2), Ok(vec![2, 2, 2]));
    assert_eq!(read(&store, 4), Err(StoreError::NotFound));
    let scores: Vec<u32> = [0.5f32, 0.25, 1.0, 0.75].iter().map(|x| x.to_bits()).collect();
    assert_eq!(best(&store, &scores, 2), vec![2, 3]);
}

#[test]
fn trait_append_refuses_what_the_store_refuses() {
    let mut store = SpfreshIndex::open(None, 2).unwrap();
    assert_eq!(VecIndex::append(&mut store, &[1], 0, 8), Err(StoreError::Validation));
    assert_eq!(VecIndex::append(&mut store, &[1, 2], 0, 7), Err(StoreError::Integrity));
    assert_eq!(VecIndex::append(&mut store, &[1, 2], 0, 8), Err(StoreError::Integrity));
    assert_eq!(VecIndex::dim(&store), 2);
}
