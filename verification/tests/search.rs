use review_index::embed::{TermProfile, TfIdfEmbedder};
use review_index::index_spfresh::SpfreshIndex;
use review_index::ingest::{insert_one, Review, Stores};
use review_index::meta_store::MetaStore;
use review_index::search::{clamp_top_k, scan_len, search, DEFAULT_TOP_K, MAX_TOP_K};

fn weigh(p: &TermProfile) -> Vec<f32> {
    let docs = p.docs as f32;
    let mut v: Vec<f32> = p.counts.iter().map(|c| *c as f32).collect();
    for i in 0..v.len() {
        if v[i] > 0.0 {
            v[i] *= ((docs + 1.0) / (p.df[i] as f32 + 1.0)).ln() + 1.0;
        }
    }
    let norm = v.iter().map(|x| x * x).sum::<f32>().sqrt().max(1e-6);
    for x in v.iter_mut() {
        *x /= norm;
    }
    v
}

fn to_bits(v: &[f32]) -> Vec<u32> {
    v.iter().map(|x| x.to_bits()).collect()
}

fn dot(a: &[f32], b: &[f32]) -> f32 {
    let mut s = 0f32;
    for i in 0..a.len().min(b.len()) {
        s += a[i] * b[i];
    }
    s
}

fn review(title: &str, body: &str, product: &str, rating: i32) -> Review {
    Review {
        review_title: title.to_string(),
        review_body: body.to_string(),
        product_id: product.to_string(),
        review_rating: rating,
    }
}

fn ingest(st: &mut Stores, e: &mut TfIdfEmbedder, r: &Review) -> usize {
    let v = to_bits(&weigh(&e.embed_index(&r.index_text())));
    let before = st.vindex.as_bytes().len() as u64;
    let bytes = st.vindex.mirror_record(&v).unwrap();
    let line = format!("{}|{}|{}|{}", r.review_title, r.review_body, r.product_id, r.review_rating);
    insert_one(st, &v, line.as_bytes(), before, before + bytes.len() as u64).unwrap()
}

fn score_all(st: &Stores, e: &TfIdfEmbedder, query: &str) -> Vec<u32> {
    let q = weigh(&e.embed_query(query));
    let mut scores = Vec::new();
    for id in 0..scan_len(st) {
        let v: Vec<f32> = st.vindex.get(id).unwrap().into_iter().map(f32::from_bits).collect();
        scores.push(dot(&q, &v).to_bits());
    }
    scores
}

fn stores(dim: usize) -> Stores {
    Stores { vindex: SpfreshIndex::open(None, dim).unwrap(), meta: MetaStore::open(Vec::new()) }
}

#[test]
fn top_k_is_five_by_default_and_at_most_a_hundred() {
    assert_eq!(DEFAULT_TOP_K, 5);
    assert_eq!(MAX_TOP_K, 100);
    assert_eq!(clamp_top_k(None), 5);
    assert_eq!(clamp_top_k(Some(0)), 0);
    assert_eq!(clamp_top_k(Some(1)), 1);
    assert_eq!(clamp_top_k(Some(99)), 99);
    assert_eq!(clamp_top_k(Some(100)), 100);
    assert_eq!(clamp_top_k(Some(101)), 100);
    assert_eq!(clamp_top_k(Some(usize::MAX)), 100);
}

#[test]
fn good_review_ranks_first_for_good() {
    let mut e = TfIdfEmbedder::new(4096);
    let mut st = stores(4096);
    let first = ingest(&mut st, &mut e, &review("good product", "really good", "p1", 5));
    let second = ingest(&mut st, &mut e, &review("bad product", "really bad", "p2", 1));
    assert_eq!((first, second), (0, 1));
    let scores = score_all(&st, &e, "good");
    assert_eq!(scores.len(), 2);
    assert!(f32::from_bits(scores[0]) > f32::from_bits(scores[1]));
    let hits = search(&st, &scores, Some(1));
    assert_eq!(hits.len(), 1);
    assert_eq!(hits[0].id, first);
    assert_eq!(hits[0].score, scores[0]);
    assert_eq!(hits[0].line, b"good product|really good|p1|5".to_vec());
    let hits = search(&st, &scores, None);
    assert_eq!(hits.iter().map(|h| h.id).collect::<Vec<_>>(), vec![0, 1]);
}

#[test]
fn indexed_text_matches_itself_with_score_one() {
    let mut e = TfIdfEmbedder::new(4096);
    let indexed = weigh(&e.embed_index("good product really good"));
    let asked = weigh(&e.embed_query("good product really good"));
    assert!((dot(&indexed, &asked) - 1.0).abs() < 1e-5);
    let norm = indexed.iter().map(|x| x * x).sum::<f32>().sqrt();
    assert!((norm - 1.0).abs() < 1e-5);
    let empty = weigh(&e.embed_query(""));
    assert!(empty.iter().all(|x| *x == 0.0));
}

#[test]
fn hits_are_at_most_k_and_never_ascend() {
    let mut st = stores(1);
    let mut scores = Vec::new();
    let mut seed: u32 = 99;
    for n in 0..250usize {
        insert_one(&mut st, &[n as u32], format!("doc{}", n).as_bytes(), 4 * n as u64, 4 * n as u64 + 4).unwrap();
        seed = seed.wrapping_mul(1_103_515_245).wrapping_add(12_345);
        scores.push((((seed >> 16) % 1000) as f32 / 500.0 - 1.0).to_bits());
    }
    for (asked, expected) in [(Some(0usize), 0usize), (Some(1), 1), (Some(7), 7), (None, 5), (Some(100), 100), (Some(101), 100), (Some(100_000), 100)] {
        let hits = search(&st, &scores, asked);
        assert_eq!(hits.len(), expected);
        for w in hits.windows(2) {
            assert!(f32::from_bits(w[0].score) >= f32::from_bits(w[1].score));
        }
        for h in &hits {
            assert_eq!(h.score, scores[h.id]);
            assert_eq!(h.line, format!("doc{}", h.id).into_bytes());
        }
    }
    let best = search(&st, &scores, Some(1));
    let top = scores.iter().map(|b| f32::from_bits(*b)).fold(f32::MIN, f32::max);
    assert_eq!(f32::from_bits(best[0].score), top);
}

#[test]
fn fewer_records_than_k_gives_fewer_hits() {
    let mut st = stores(1);
    insert_one(&mut st, &[1], b"a", 0, 4).unwrap();
    insert_one(&mut st, &[2], b"b", 4, 8).unwrap();
    let scores = to_bits(&[0.25, 0.75]);
    let hits = search(&st, &scores, Some(10));
    assert_eq!(hits.iter().map(|h| h.id).collect::<Vec<_>>(), vec![1, 0]);
    assert!(search(&stores(1), &[], Some(10)).is_empty());
}

#[test]
fn only_records_held_by_both_stores_are_searched() {
    let mut vindex = SpfreshIndex::open(None, 1).unwrap();
    for n in 0..3u64 {
        vindex.append(&[n as u32], 4 * n, 4 * n + 4).unwrap();
    }
    let st = Stores { vindex, meta: MetaStore::open(b"zero\none\n".to_vec()) };
    assert_eq!(scan_len(&st), 2);
    let scores = to_bits(&[0.1, 0.2, 0.9]);
    let hits = search(&st, &scores, Some(5));
    assert_eq!(hits.iter().map(|h| h.id).collect::<Vec<_>>(), vec![1, 0]);
    assert_eq!(hits[0].line, b"one".to_vec());

    let mut vindex = SpfreshIndex::open(None, 1).unwrap();
    vindex.append(&[7], 0, 4).unwrap();
    let st = Stores { vindex, meta: MetaStore::open(b"zero\none\ntwo\n".to_vec()) };
    assert_eq!(scan_len(&st), 1);
    let hits = search(&st, &scores, Some(5));
    assert_eq!(hits.iter().map(|h| h.id).collect::<Vec<_>>(), vec![0]);
}

#[test]
fn records_without_a_score_are_not_ranked() {
    let mut st = stores(1);
    for n in 0..4usize {
        insert_one(&mut st, &[n as u32], b"x", 4 * n as u64, 4 * n as u64 + 4).unwrap();
    }
    let hits = search(&st, &to_bits(&[0.5, 0.7]), Some(5));
    assert_eq!(hits.iter().map(|h| h.id).collect::<Vec<_>>(), vec![1, 0]);
    assert!(search(&st, &[], None).is_empty());
}
