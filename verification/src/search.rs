//! Search: the records that both stores hold are ranked by the scores the
//! caller has given them, and the best are joined with their documents.

use crate::ingest::Stores;
use crate::rank::{
    is_top_ranked, lemma_ranking_scores_descend, order_key, rank_top_k, ranked_count, Scored,
};
use vstd::prelude::*;

verus! {

/// The number of hits returned where the query asks for no number.
pub const DEFAULT_TOP_K: usize = 5;

/// The largest number of hits that a query can have.
pub const MAX_TOP_K: usize = 100;

/// One result of a query: the id of a document, its score, and its line
/// in the document log.
#[derive(Debug)]
pub struct SearchHit {
    pub id: usize,
    pub score: u32,
    pub line: Vec<u8>,
}

/// The number of hits that a query may have: what it asks for, five where
/// it asks for nothing, and never more than a hundred.
pub open spec fn effective_top_k(top_k: Option<usize>) -> int {
    let asked = match top_k {
        Some(k) => k as int,
        None => DEFAULT_TOP_K as int,
    };
    if asked < MAX_TOP_K {
        asked
    } else {
        MAX_TOP_K as int
    }
}

/// The number of records that a query is scored against: those that have
/// both a vector and a document.
pub open spec fn scan_count(st: &Stores) -> int {
    if st.meta.lines().len() < st.vindex@.len() {
        st.meta.lines().len() as int
    } else {
        st.vindex@.len() as int
    }
}

/// The ids and scores of a list of hits, in order.
pub open spec fn ranking_of(hits: Seq<SearchHit>) -> Seq<Scored> {
    Seq::new(hits.len(), |i: int| Scored { id: hits[i].id, score: hits[i].score })
}

/// The number of hits that a query may have.
pub fn clamp_top_k(top_k: Option<usize>) -> (k: usize)
    ensures
        k == effective_top_k(top_k),
        k <= MAX_TOP_K,
{
    let asked = match top_k {
        Some(k) => k,
        None => DEFAULT_TOP_K,
    };
    if asked < MAX_TOP_K {
        asked
    } else {
        MAX_TOP_K
    }
}

/// The number of records that a query is scored against.
pub fn scan_len(st: &Stores) -> (n: usize)
    requires
        st.wf(),
    ensures
        n == scan_count(st),
{
    let lines = st.meta.count();
    let vectors = st.vindex.len();
    if lines < vectors {
        lines
    } else {
        vectors
    }
}

/// Answers a query whose scores the caller has computed, `scores[i]` being
/// the score of the record with id `i`.
///
/// The records that have a vector, a document and a score are ranked, and
/// the best are returned, best first, each with its line: as many as the
/// query asks for, five where it asks for nothing, at most a hundred.
pub fn search(st: &Stores, scores: &[u32], top_k: Option<usize>) -> (hits: Vec<SearchHit>)
    requires
        st.wf(),
    ensures
        is_top_ranked(
            scores@,
            ranked_count(scan_count(st), scores@.len() as int),
            effective_top_k(top_k),
            ranking_of(hits@),
        ),
        forall|i: int|
            0 <= i < hits@.len() ==> (#[trigger] hits@[i]).id < st.meta.lines().len()
                && hits@[i].line@ == st.meta.lines()[hits@[i].id as int],
        hits@.len() <= effective_top_k(top_k) <= MAX_TOP_K,
        forall|i: int, j: int|
            0 <= i <= j < hits@.len() ==> order_key(#[trigger] hits@[i].score) >= order_key(
                #[trigger] hits@[j].score,
            ),
{
    let k = clamp_top_k(top_k);
    let n = scan_len(st);
    let ranked = rank_top_k(scores, n, k);
    let ghost count = ranked_count(n as int, scores@.len() as int);
    let mut hits: Vec<SearchHit> = Vec::new();
    let mut i: usize = 0;
    while i < ranked.len()
        invariant
            i <= ranked@.len(),
            is_top_ranked(scores@, count, k as int, ranked@),
            count <= st.meta.lines().len(),
            hits@.len() == i,
            forall|m: int|
                0 <= m < i ==> (#[trigger] hits@[m]).id == ranked@[m].id && hits@[m].score
                    == ranked@[m].score && hits@[m].line@ == st.meta.lines()[hits@[m].id as int],
        decreases ranked@.len() - i,
    {
        let place = ranked[i];
        match st.meta.read_line(place.id) {
            Ok(line) => {
                hits.push(SearchHit { id: place.id, score: place.score, line });
            },
            Err(_) => {},
        }
        i += 1;
    }
    proof {
        assert(ranking_of(hits@) =~= ranked@);
        lemma_ranking_scores_descend(scores@, count, k as int, ranked@);
        assert forall|i: int, j: int| 0 <= i <= j < hits@.len() implies order_key(
            #[trigger] hits@[i].score,
        ) >= order_key(#[trigger] hits@[j].score) by {
            assert(hits@[i].score == ranked@[i].score);
            assert(hits@[j].score == ranked@[j].score);
        }
    }
    hits
}

} // verus!
