//! Ranking of scored records: the best `k` of them, best first.
//!
//! A score is the bit pattern of an IEEE-754 single-precision number. Scores
//! are ordered by the total order of that standard, which agrees with the
//! numeric order wherever two numbers differ, and puts the negative zero
//! directly below the positive one. Records with equal scores are ordered by
//! id, the smaller id first, so a ranking is determined by its input.

use vstd::prelude::*;

verus! {

/// A record id with the score it was given.
#[derive(Clone, Copy, Debug, PartialEq, Eq, Structural)]
pub struct Scored {
    pub id: usize,
    pub score: u32,
}

/// The place of a score in the total order: a larger key is a better score.
///
/// Patterns with the sign bit set stand for negative numbers, and among them
/// a larger magnitude is a smaller number.
pub open spec fn order_key(bits: u32) -> int {
    if bits >= 0x8000_0000 {
        0xffff_ffff - bits
    } else {
        bits + 0x8000_0000
    }
}

/// `a` comes before `b` in a ranking: it has the better score, or the same
/// score and the smaller id.
pub open spec fn outranks(a: Scored, b: Scored) -> bool {
    order_key(a.score) > order_key(b.score) || (order_key(a.score) == order_key(b.score) && a.id
        < b.id)
}

/// `r` holds a record with this id.
pub open spec fn holds_id(r: Seq<Scored>, id: int) -> bool {
    exists|i: int| 0 <= i < r.len() && (#[trigger] r[i]).id == id
}

/// `r` is the ranking of the first `n` records of `scores`, cut to `k` places:
/// it holds `min(k, n)` of them with their scores, best first, and every
/// record it leaves out comes after all that it holds.
pub open spec fn is_top_ranked(scores: Seq<u32>, n: int, k: int, r: Seq<Scored>) -> bool {
    &&& r.len() == if k < n { k } else { n }
    &&& forall|i: int|
        0 <= i < r.len() ==> (#[trigger] r[i]).id < n && r[i].score == scores[r[i].id as int]
    &&& forall|i: int, j: int| 0 <= i < j < r.len() ==> outranks(#[trigger] r[i], #[trigger] r[j])
    &&& forall|id: int|
        0 <= id < n ==> #[trigger] holds_id(r, id) || (r.len() == k && forall|i: int|
            0 <= i < r.len() ==> outranks(
                #[trigger] r[i],
                Scored { id: id as usize, score: scores[id] },
            ))
}

/// The key of a score in the total order.
pub fn score_key(bits: u32) -> (key: u32)
    ensures
        key == order_key(bits),
{
    if bits >= 0x8000_0000 {
        0xffff_ffff - bits
    } else {
        bits + 0x8000_0000
    }
}

/// Whether `a` comes before `b` in a ranking.
pub fn ranks_before(a: &Scored, b: &Scored) -> (r: bool)
    ensures
        r == outranks(*a, *b),
{
    let ka = score_key(a.score);
    let kb = score_key(b.score);
    ka > kb || (ka == kb && a.id < b.id)
}

/// The number of records that are ranked when `n` are asked for and
/// `scored` have a score.
pub open spec fn ranked_count(n: int, scored: int) -> int {
    if n < scored {
        n
    } else {
        scored
    }
}

/// Ranks the first `n` records by their scores, `scores[i]` being the score
/// of record `i`, and returns the best `k` of them, best first. Records
/// without a score are not ranked.
pub fn rank_top_k(scores: &[u32], n: usize, k: usize) -> (r: Vec<Scored>)
    ensures
        is_top_ranked(scores@, ranked_count(n as int, scores@.len() as int), k as int, r@),
{
    let mut best: Vec<Scored> = Vec::new();
    if k == 0 {
        return best;
    }
    let n = if n < scores.len() {
        n
    } else {
        scores.len()
    };
    let mut id: usize = 0;
    while id < n
        invariant
            k > 0,
            id <= n <= scores.len(),
            is_top_ranked(scores@, id as int, k as int, best@),
        decreases n - id,
    {
        let item = Scored { id, score: scores[id] };
        let ghost old_best = best@;
        let mut p: usize = best.len();
        while p > 0 && ranks_before(&item, &best[p - 1])
            invariant
                p <= best.len(),
                best@ == old_best,
                forall|j: int| p <= j < best.len() ==> outranks(item, #[trigger] best@[j]),
            decreases p,
        {
            p -= 1;
        }
        proof {
            // Every record before the place found comes before the new one.
            assert forall|j: int| 0 <= j < p implies outranks(#[trigger] old_best[j], item) by {
                assert(old_best[p - 1].id < id);
                assert(outranks(old_best[p - 1], item));
                if j < p - 1 {
                    assert(outranks(old_best[j], old_best[p - 1]));
                }
            }
        }
        if p < k {
            best.insert(p, item);
            let ghost grown = best@;
            proof {
                assert(grown == old_best.insert(p as int, item));
                assert forall|i: int, j: int| 0 <= i < j < grown.len() implies outranks(
                    #[trigger] grown[i],
                    #[trigger] grown[j],
                ) by {
                    if j < p {
                        assert(grown[i] == old_best[i] && grown[j] == old_best[j]);
                    } else if j == p {
                        assert(grown[i] == old_best[i]);
                    } else if i < p {
                        assert(grown[i] == old_best[i] && grown[j] == old_best[j - 1]);
                    } else if i == p {
                        assert(grown[j] == old_best[j - 1]);
                    } else {
                        assert(grown[i] == old_best[i - 1] && grown[j] == old_best[j - 1]);
                    }
                }
            }
            if best.len() > k {
                best.pop();
            }
            proof {
                let last = best@;
                assert(last =~= grown.take(last.len() as int));
                assert forall|i: int| 0 <= i < last.len() implies (#[trigger] last[i]).id < id + 1
                    && last[i].score == scores@[last[i].id as int] by {
                    if i < p {
                        assert(last[i] == old_best[i]);
                    } else if i > p {
                        assert(last[i] == old_best[i - 1]);
                    }
                }
                assert forall|c: int| 0 <= c < id + 1 implies #[trigger] holds_id(last, c) || (
                last.len() == k && forall|i: int|
                    0 <= i < last.len() ==> outranks(
                        #[trigger] last[i],
                        Scored { id: c as usize, score: scores@[c] },
                    )) by {
                    let cand = Scored { id: c as usize, score: scores@[c] };
                    if c == id {
                        assert(last[p as int] == item);
                        assert(holds_id(last, c));
                    } else if holds_id(old_best, c) {
                        let m = choose|m: int| 0 <= m < old_best.len() && old_best[m].id == c;
                        let m2 = if m < p { m } else { m + 1 };
                        assert(grown[m2] == old_best[m]);
                        assert(grown[m2] == cand);
                        if m2 < last.len() {
                            assert(last[m2].id == c);
                            assert(holds_id(last, c));
                        } else {
                            assert forall|i: int| 0 <= i < last.len() implies outranks(
                                #[trigger] last[i],
                                cand,
                            ) by {
                                assert(outranks(grown[i], grown[m2]));
                            }
                        }
                    } else {
                        assert(old_best.len() == k);
                        assert forall|i: int| 0 <= i < last.len() implies outranks(
                            #[trigger] last[i],
                            cand,
                        ) by {
                            if i < p {
                                assert(last[i] == old_best[i]);
                            } else if i == p {
                                assert(outranks(item, old_best[p as int]));
                                assert(outranks(old_best[p as int], cand));
                            } else {
                                assert(last[i] == old_best[i - 1]);
                            }
                        }
                    }
                }
            }
        } else {
            proof {
                assert forall|c: int| 0 <= c < id + 1 implies #[trigger] holds_id(best@, c) || (
                best@.len() == k && forall|i: int|
                    0 <= i < best@.len() ==> outranks(
                        #[trigger] best@[i],
                        Scored { id: c as usize, score: scores@[c] },
                    )) by {
                    if c == id {
                        assert(Scored { id: c as usize, score: scores@[c] } == item);
                    }
                }
            }
        }
        id += 1;
    }
    best
}

/// In a ranking no record has a better score than one placed before it.
pub proof fn lemma_ranking_scores_descend(scores: Seq<u32>, n: int, k: int, r: Seq<Scored>)
    requires
        is_top_ranked(scores, n, k, r),
    ensures
        forall|i: int, j: int|
            0 <= i <= j < r.len() ==> order_key(#[trigger] r[i].score) >= order_key(
                #[trigger] r[j].score,
            ),
{
    assert forall|i: int, j: int| 0 <= i <= j < r.len() implies order_key(#[trigger] r[i].score)
        >= order_key(#[trigger] r[j].score) by {
        if i < j {
            assert(outranks(r[i], r[j]));
        }
    }
}

/// A record in a ranking that comes before the record at place `i` of
/// another ranking of the same scores stands before place `i` there.
proof fn lemma_found_earlier(
    scores: Seq<u32>,
    n: int,
    k: int,
    r1: Seq<Scored>,
    r2: Seq<Scored>,
    i: int,
)
    requires
        is_top_ranked(scores, n, k, r1),
        is_top_ranked(scores, n, k, r2),
        0 <= i < r1.len(),
        outranks(r1[i], r2[i]),
    ensures
        exists|m: int| 0 <= m < i && #[trigger] r2[m] == r1[i],
{
    let a = r1[i];
    assert(a == Scored { id: a.id, score: scores[a.id as int] });
    if holds_id(r2, a.id as int) {
        let m = choose|m: int| 0 <= m < r2.len() && (#[trigger] r2[m]).id == a.id;
        assert(r2[m] == a);
        if m > i {
            assert(outranks(r2[i], r2[m]));
        }
    } else {
        assert(outranks(r2[i], Scored { id: a.id, score: scores[a.id as int] }));
    }
}

/// Two rankings of the same scores agree on their first `i` places.
proof fn lemma_ranking_prefix(
    scores: Seq<u32>,
    n: int,
    k: int,
    r1: Seq<Scored>,
    r2: Seq<Scored>,
    i: int,
)
    requires
        is_top_ranked(scores, n, k, r1),
        is_top_ranked(scores, n, k, r2),
        0 <= i <= r1.len(),
    ensures
        forall|j: int| 0 <= j < i ==> #[trigger] r1[j] == r2[j],
    decreases i,
{
    if i > 0 {
        lemma_ranking_prefix(scores, n, k, r1, r2, i - 1);
        let a = r1[i - 1];
        let b = r2[i - 1];
        if a != b {
            assert(a.score == scores[a.id as int] && b.score == scores[b.id as int]);
            assert(a.id != b.id);
            if outranks(a, b) {
                lemma_found_earlier(scores, n, k, r1, r2, i - 1);
                let m = choose|m: int| 0 <= m < i - 1 && #[trigger] r2[m] == r1[i - 1];
                assert(r1[m] == r2[m]);
                assert(outranks(r1[m], r1[i - 1]));
            } else {
                assert(outranks(b, a));
                lemma_found_earlier(scores, n, k, r2, r1, i - 1);
                let m = choose|m: int| 0 <= m < i - 1 && #[trigger] r1[m] == r2[i - 1];
                assert(r1[m] == r2[m]);
                assert(outranks(r2[m], r2[i - 1]));
            }
        }
    }
}

/// The scores, the number of records and the number of places determine the
/// ranking: two rankings of the same are equal.
pub proof fn lemma_ranking_is_unique(
    scores: Seq<u32>,
    n: int,
    k: int,
    r1: Seq<Scored>,
    r2: Seq<Scored>,
)
    requires
        is_top_ranked(scores, n, k, r1),
        is_top_ranked(scores, n, k, r2),
    ensures
        r1 == r2,
{
    lemma_ranking_prefix(scores, n, k, r1, r2, r1.len() as int);
    assert(r1 =~= r2);
}

} // verus!
