//! Hashed term counting with online corpus statistics.
//!
//! A text is cut into words, the maximal runs of alphanumeric characters.
//! Each word falls into one of `dim` buckets by the hash of its lowercase
//! form; two words may share a bucket. The embedder counts, for every
//! bucket, the words of the text that fall into it, and keeps for every
//! bucket the number of indexed texts that touched it.
//!
//! The weights of a feature vector are computed from a `TermProfile` by the
//! caller: this module holds the integer part of the work.

use std::collections::hash_map::DefaultHasher;
use std::hash::Hasher;
use vstd::prelude::*;
use vstd::std_specs::hash::DefaultHasherAdditionalSpecFns;

verus! {

/// What `char::is_alphanumeric` answers for `c`.
pub uninterp spec fn alphanumeric(c: char) -> bool;

/// The characters of the string that `str::to_lowercase` returns for `s`.
pub uninterp spec fn lowercase_of(s: Seq<char>) -> Seq<char>;

/// The writes that hashing the string `s` makes to a hasher, in order.
pub uninterp spec fn hash_writes(s: Seq<char>) -> Seq<Seq<u8>>;

/// Calls `char::is_alphanumeric`. The answer depends on the character
/// alone, so it is given the name `alphanumeric`; nothing more is claimed.
#[verifier::external_body]
fn is_alphanumeric(c: char) -> (b: bool)
    ensures
        b == alphanumeric(c),
{
    c.is_alphanumeric()
}

/// Calls `str::to_lowercase`. The result depends on the string alone, so
/// it is given the name `lowercase_of`; nothing more is claimed.
#[verifier::external_body]
fn to_lowercase(s: &str) -> (lower: String)
    ensures
        lower@ == lowercase_of(s@),
{
    s.to_lowercase()
}

/// Calls `String::push`, which appends one character at the end.
#[verifier::external_body]
fn push_char(s: &mut String, c: char)
    ensures
        final(s)@ == old(s)@.push(c),
{
    s.push(c)
}

/// Calls `Hash::hash` of `str`, which feeds the string to the hasher.
/// What it writes depends on the string alone and comes after what the
/// hasher has received before; the writes are given the name `hash_writes`.
#[verifier::external_body]
fn hash_str(s: &str, hasher: &mut DefaultHasher)
    ensures
        final(hasher)@ == old(hasher)@ + hash_writes(s@),
{
    std::hash::Hash::hash(s, hasher)
}

/// A stretch of a text: the positions from `from` up to, not including, `to`.
#[derive(Clone, Copy, Debug, PartialEq, Eq, Structural)]
pub struct Span {
    pub from: usize,
    pub to: usize,
}

/// Where the run of marked positions that reaches the end of `marks`
/// starts; the length of `marks` where its last position is not marked.
pub open spec fn run_start(marks: Seq<bool>) -> nat
    decreases marks.len(),
{
    if marks.len() == 0 || !marks.last() {
        marks.len()
    } else {
        run_start(marks.drop_last())
    }
}

/// The runs of marked positions that end before the end of `marks`, in order.
pub open spec fn closed_spans(marks: Seq<bool>) -> Seq<Span>
    decreases marks.len(),
{
    if marks.len() == 0 {
        Seq::empty()
    } else {
        let init = marks.drop_last();
        if !marks.last() && run_start(init) < init.len() {
            closed_spans(init).push(
                Span { from: run_start(init) as usize, to: init.len() as usize },
            )
        } else {
            closed_spans(init)
        }
    }
}

/// The maximal runs of marked positions of `marks`, in order.
pub open spec fn spans_of(marks: Seq<bool>) -> Seq<Span> {
    if run_start(marks) < marks.len() {
        closed_spans(marks).push(Span { from: run_start(marks) as usize, to: marks.len() as usize })
    } else {
        closed_spans(marks)
    }
}

/// `from..to` is a maximal run of marked positions of `marks`: it is not
/// empty, all its positions are marked, and neither the position before it
/// nor the one after it is.
pub open spec fn is_maximal_run(marks: Seq<bool>, from: int, to: int) -> bool {
    &&& 0 <= from < to <= marks.len()
    &&& forall|i: int| from <= i < to ==> marks[i]
    &&& from == 0 || !marks[from - 1]
    &&& to == marks.len() || !marks[to]
}

/// For every character of `text`, whether it is alphanumeric.
pub open spec fn marks_of(text: Seq<char>) -> Seq<bool> {
    Seq::new(text.len(), |i: int| alphanumeric(text[i]))
}

/// The words of `text`, in order: its maximal runs of alphanumeric
/// characters.
pub open spec fn tokens(text: Seq<char>) -> Seq<Seq<char>> {
    let spans = spans_of(marks_of(text));
    Seq::new(spans.len(), |j: int| text.subrange(spans[j].from as int, spans[j].to as int))
}

/// The hash of a word: the default hasher's result for its lowercase form.
pub open spec fn token_hash(token: Seq<char>) -> u64 {
    DefaultHasher::spec_finish(Seq::<Seq<u8>>::empty() + hash_writes(lowercase_of(token)))
}

/// The hashes of the words of `text`, in order.
pub open spec fn hashes_of(text: Seq<char>) -> Seq<u64> {
    Seq::new(tokens(text).len(), |j: int| token_hash(tokens(text)[j]))
}

/// The bucket that a hash falls into among `dim` buckets.
pub open spec fn slot(hash: u64, dim: nat) -> int {
    (hash as usize) as int % dim as int
}

/// The bucket of a word among `dim` buckets.
pub open spec fn bucket_of(token: Seq<char>, dim: nat) -> int {
    slot(token_hash(token), dim)
}

/// How many of `hashes` fall into bucket `b`.
pub open spec fn tally(hashes: Seq<u64>, dim: nat, b: int) -> nat
    decreases hashes.len(),
{
    if hashes.len() == 0 {
        0
    } else {
        tally(hashes.drop_last(), dim, b) + if slot(hashes.last(), dim) == b {
            1nat
        } else {
            0nat
        }
    }
}

/// For every bucket, the number of `hashes` that fall into it.
pub open spec fn slot_counts(hashes: Seq<u64>, dim: nat) -> Seq<u64> {
    Seq::new(dim, |b: int| tally(hashes, dim, b) as u64)
}

/// For every bucket, the number of words of `text` that fall into it.
pub open spec fn count_terms(text: Seq<char>, dim: nat) -> Seq<u64> {
    slot_counts(hashes_of(text), dim)
}

/// A counter after one more step, which stays at its largest value.
pub open spec fn bumped(n: u32) -> u32 {
    if n == u32::MAX {
        n
    } else {
        (n + 1) as u32
    }
}

/// The bucket statistics after a text with these counts was indexed: every
/// bucket that the text touched has one more text.
pub open spec fn indexed_df(df: Seq<u32>, counts: Seq<u64>) -> Seq<u32> {
    Seq::new(
        df.len(),
        |i: int|
            if counts[i] > 0 {
                bumped(df[i])
            } else {
                df[i]
            },
    )
}

/// The number of texts that a query is weighed against: at least one.
pub open spec fn query_docs(docs: u32) -> u32 {
    if docs == 0 {
        1
    } else {
        docs
    }
}

/// No more hashes fall into a bucket than there are hashes.
pub proof fn lemma_tally_bound(hashes: Seq<u64>, dim: nat, b: int)
    ensures
        tally(hashes, dim, b) <= hashes.len(),
    decreases hashes.len(),
{
    if hashes.len() > 0 {
        lemma_tally_bound(hashes.drop_last(), dim, b);
    }
}

/// The run that reaches the end of `marks` is a run of marked positions
/// with an unmarked position, or none, before it.
pub proof fn lemma_run_start(marks: Seq<bool>)
    ensures
        run_start(marks) <= marks.len(),
        forall|i: int| run_start(marks) <= i < marks.len() ==> #[trigger] marks[i],
        run_start(marks) == 0 || !marks[run_start(marks) - 1],
    decreases marks.len(),
{
    if marks.len() > 0 && marks.last() {
        let init = marks.drop_last();
        lemma_run_start(init);
        assert forall|i: int| run_start(marks) <= i < marks.len() implies #[trigger] marks[i] by {
            if i < init.len() {
                assert(init[i]);
            }
        }
        if run_start(marks) > 0 {
            assert(init[run_start(marks) - 1] == marks[run_start(marks) - 1]);
        }
    }
}

/// `p` lies in one of `spans`.
pub open spec fn covered(spans: Seq<Span>, p: int) -> bool {
    exists|j: int| 0 <= j < spans.len() && (#[trigger] spans[j]).from <= p < spans[j].to
}

/// Every closed span is a maximal run that ends before the last position.
proof fn lemma_closed_spans_are_runs(marks: Seq<bool>)
    requires
        marks.len() <= usize::MAX,
    ensures
        forall|j: int|
            0 <= j < closed_spans(marks).len() ==> is_maximal_run(
                marks,
                (#[trigger] closed_spans(marks)[j]).from as int,
                closed_spans(marks)[j].to as int,
            ) && closed_spans(marks)[j].to < run_start(marks),
    decreases marks.len(),
{
    if marks.len() > 0 {
        let init = marks.drop_last();
        let now = closed_spans(marks);
        let before = closed_spans(init);
        lemma_closed_spans_are_runs(init);
        lemma_run_start(init);
        lemma_run_start(marks);
        assert forall|j: int| 0 <= j < now.len() implies is_maximal_run(
            marks,
            (#[trigger] now[j]).from as int,
            now[j].to as int,
        ) && now[j].to < run_start(marks) by {
            let s = now[j];
            let from = s.from as int;
            let to = s.to as int;
            if j < before.len() {
                assert(s == before[j]);
                assert(is_maximal_run(init, from, to));
                assert(to < init.len());
            } else {
                assert(from == run_start(init) && to == init.len());
            }
            assert(to <= init.len());
            assert forall|i: int| from <= i < to implies marks[i] by {
                assert(init[i] == marks[i]);
            }
            if from > 0 {
                assert(init[from - 1] == marks[from - 1]);
            }
            if to < init.len() {
                assert(init[to] == marks[to]);
            }
            assert(!marks[to]);
            if run_start(marks) <= to {
                assert(marks[to]);
            }
        }
    }
}

/// Every marked position before the run that reaches the end of `marks`
/// lies in a closed span.
proof fn lemma_closed_spans_cover(marks: Seq<bool>, p: int)
    requires
        marks.len() <= usize::MAX,
        0 <= p < run_start(marks),
        p < marks.len(),
        marks[p],
    ensures
        covered(closed_spans(marks), p),
    decreases marks.len(),
{
    let init = marks.drop_last();
    let now = closed_spans(marks);
    let before = closed_spans(init);
    lemma_run_start(init);
    lemma_run_start(marks);
    if p == marks.len() - 1 {
        assert(marks.last());
        assert(marks[p]);
    } else {
        assert(init[p] == marks[p]);
        if p < run_start(init) {
            lemma_closed_spans_cover(init, p);
            let j = choose|j: int|
                0 <= j < before.len() && (#[trigger] before[j]).from <= p < before[j].to;
            assert(now[j] == before[j]);
        } else {
            assert(run_start(init) < init.len());
            if marks.last() {
                assert(run_start(marks) == run_start(init));
            } else {
                assert(now[now.len() - 1].from <= p < now[now.len() - 1].to);
            }
        }
    }
}

/// Each closed span ends before the next starts.
proof fn lemma_closed_spans_ordered(marks: Seq<bool>)
    requires
        marks.len() <= usize::MAX,
    ensures
        forall|j: int|
            0 <= j < closed_spans(marks).len() - 1 ==> (#[trigger] closed_spans(marks)[j]).to
                < closed_spans(marks)[j + 1].from,
    decreases marks.len(),
{
    if marks.len() > 0 {
        let init = marks.drop_last();
        let now = closed_spans(marks);
        let before = closed_spans(init);
        lemma_closed_spans_ordered(init);
        lemma_closed_spans_are_runs(init);
        assert forall|j: int| 0 <= j < now.len() - 1 implies (#[trigger] now[j]).to < now[j
            + 1].from by {
            assert(now[j] == before[j]);
            if j + 1 < before.len() {
                assert(now[j + 1] == before[j + 1]);
            } else {
                assert(now[j + 1].from == run_start(init));
            }
        }
    }
}

/// The spans of `marks` are exactly its maximal runs of marked positions,
/// each once and in order: every span is a maximal run, each span ends
/// before the next starts, and every marked position lies in a span.
pub proof fn lemma_spans_are_maximal_runs(marks: Seq<bool>)
    requires
        marks.len() <= usize::MAX,
    ensures
        forall|j: int|
            0 <= j < spans_of(marks).len() ==> is_maximal_run(
                marks,
                (#[trigger] spans_of(marks)[j]).from as int,
                spans_of(marks)[j].to as int,
            ),
        forall|j: int|
            0 <= j < spans_of(marks).len() - 1 ==> (#[trigger] spans_of(marks)[j]).to < spans_of(
                marks,
            )[j + 1].from,
        forall|p: int| 0 <= p < marks.len() && marks[p] ==> #[trigger] covered(spans_of(marks), p),
{
    lemma_closed_spans_are_runs(marks);
    lemma_closed_spans_ordered(marks);
    lemma_run_start(marks);
    let spans = spans_of(marks);
    let closed = closed_spans(marks);
    let open_from = run_start(marks) as int;
    assert forall|p: int| 0 <= p < marks.len() && marks[p] implies #[trigger] covered(
        spans,
        p,
    ) by {
        if p < open_from {
            lemma_closed_spans_cover(marks, p);
            let j = choose|j: int|
                0 <= j < closed.len() && (#[trigger] closed[j]).from <= p < closed[j].to;
            assert(spans[j] == closed[j]);
        } else {
            assert(spans[spans.len() - 1].from <= p < spans[spans.len() - 1].to);
        }
    }
    assert forall|j: int| 0 <= j < spans.len() implies is_maximal_run(
        marks,
        (#[trigger] spans[j]).from as int,
        spans[j].to as int,
    ) by {
        if j < closed.len() {
            assert(spans[j] == closed[j]);
        }
    }
    assert forall|j: int| 0 <= j < spans.len() - 1 implies (#[trigger] spans[j]).to < spans[j
        + 1].from by {
        assert(spans[j] == closed[j]);
        if j + 1 < closed.len() {
            assert(spans[j + 1] == closed[j + 1]);
        }
    }
}

/// Every word is a stretch of the text, made of alphanumeric characters,
/// with at least one.
pub proof fn lemma_words_are_alphanumeric(text: Seq<char>)
    requires
        text.len() <= usize::MAX,
    ensures
        tokens(text).len() <= text.len(),
        forall|j: int|
            0 <= j < tokens(text).len() ==> (#[trigger] tokens(text)[j]).len() > 0 && forall|i: int|
                0 <= i < tokens(text)[j].len() ==> alphanumeric(#[trigger] tokens(text)[j][i]),
{
    let marks = marks_of(text);
    lemma_spans_are_maximal_runs(marks);
    lemma_span_count(marks);
    let spans = spans_of(marks);
    assert forall|j: int| 0 <= j < tokens(text).len() implies (#[trigger] tokens(text)[j]).len()
        > 0 && forall|i: int|
        0 <= i < tokens(text)[j].len() ==> alphanumeric(#[trigger] tokens(text)[j][i]) by {
        let s = spans[j];
        assert(is_maximal_run(marks, s.from as int, s.to as int));
        assert forall|i: int| 0 <= i < tokens(text)[j].len() implies alphanumeric(
            #[trigger] tokens(text)[j][i],
        ) by {
            assert(marks[s.from + i]);
        }
    }
}

/// Marks of which none is set have no span.
proof fn lemma_no_marks_no_spans(marks: Seq<bool>)
    requires
        forall|i: int| 0 <= i < marks.len() ==> !#[trigger] marks[i],
    ensures
        run_start(marks) == marks.len(),
        closed_spans(marks).len() == 0,
        spans_of(marks).len() == 0,
    decreases marks.len(),
{
    if marks.len() > 0 {
        let init = marks.drop_last();
        assert forall|i: int| 0 <= i < init.len() implies !#[trigger] init[i] by {
            assert(!marks[i]);
        }
        lemma_no_marks_no_spans(init);
        assert(!marks[marks.len() - 1]);
    }
}

/// A text without an alphanumeric character has no words, so it counts
/// nothing in any bucket.
pub proof fn lemma_no_words_no_counts(text: Seq<char>, dim: nat)
    requires
        forall|i: int| 0 <= i < text.len() ==> !alphanumeric(#[trigger] text[i]),
    ensures
        tokens(text).len() == 0,
        count_terms(text, dim) == Seq::new(dim, |b: int| 0u64),
{
    let marks = marks_of(text);
    assert forall|i: int| 0 <= i < marks.len() implies !#[trigger] marks[i] by {
        assert(!alphanumeric(text[i]));
    }
    lemma_no_marks_no_spans(marks);
    assert(hashes_of(text).len() == 0);
    assert(count_terms(text, dim) =~= Seq::new(dim, |b: int| 0u64));
}

/// There are no more spans than positions.
pub proof fn lemma_span_count(marks: Seq<bool>)
    ensures
        closed_spans(marks).len() <= run_start(marks),
        run_start(marks) <= marks.len(),
        spans_of(marks).len() <= marks.len(),
    decreases marks.len(),
{
    if marks.len() > 0 {
        lemma_span_count(marks.drop_last());
    }
}

/// Finds the maximal runs of marked positions, in order.
pub fn word_spans(marks: &[bool]) -> (spans: Vec<Span>)
    ensures
        spans@ == spans_of(marks@),
        forall|j: int|
            0 <= j < spans@.len() ==> (#[trigger] spans@[j]).from < spans@[j].to <= marks@.len(),
{
    let mut spans: Vec<Span> = Vec::new();
    let mut from: usize = 0;
    let mut i: usize = 0;
    while i < marks.len()
        invariant
            i <= marks.len(),
            from == run_start(marks@.take(i as int)),
            from <= i,
            spans@ == closed_spans(marks@.take(i as int)),
        decreases marks.len() - i,
    {
        assert(marks@.take(i + 1).drop_last() =~= marks@.take(i as int));
        if !marks[i] {
            if from < i {
                spans.push(Span { from, to: i });
            }
            from = i + 1;
        }
        i += 1;
    }
    assert(marks@.take(i as int) =~= marks@);
    if from < marks.len() {
        spans.push(Span { from, to: marks.len() });
    }
    proof {
        lemma_spans_are_maximal_runs(marks@);
        assert(spans@ =~= spans_of(marks@));
        assert forall|j: int| 0 <= j < spans@.len() implies (#[trigger] spans@[j]).from
            < spans@[j].to <= marks@.len() by {
            let s = spans_of(marks@)[j];
            assert(is_maximal_run(marks@, s.from as int, s.to as int));
        }
    }
    spans
}

/// The bucket that a hash falls into among `dim` buckets.
pub fn bucket_of_hash(hash: u64, dim: usize) -> (b: usize)
    requires
        dim > 0,
    ensures
        b == slot(hash, dim as nat),
        b < dim,
{
    (hash as usize) % dim
}

/// Counts, for every one of `dim` buckets, the hashes that fall into it.
pub fn count_slots(hashes: &[u64], dim: usize) -> (counts: Vec<u64>)
    requires
        dim > 0,
    ensures
        counts@ == slot_counts(hashes@, dim as nat),
{
    let mut counts = vec![0u64; dim];
    let mut i: usize = 0;
    while i < hashes.len()
        invariant
            dim > 0,
            i <= hashes.len(),
            counts@.len() == dim,
            forall|b: int|
                0 <= b < dim ==> #[trigger] counts@[b] == tally(
                    hashes@.take(i as int),
                    dim as nat,
                    b,
                ),
        decreases hashes.len() - i,
    {
        let b = bucket_of_hash(hashes[i], dim);
        proof {
            lemma_tally_bound(hashes@.take(i as int), dim as nat, b as int);
            assert(hashes@.take(i + 1).drop_last() =~= hashes@.take(i as int));
        }
        counts.set(b, counts[b] + 1);
        i += 1;
    }
    assert(hashes@.take(i as int) =~= hashes@);
    assert(counts@ =~= slot_counts(hashes@, dim as nat));
    counts
}

/// The hash of a word: the default hasher's result for its lowercase form.
pub fn hash_token(token: &str) -> (hash: u64)
    ensures
        hash == token_hash(token@),
{
    let lower = to_lowercase(token);
    let mut hasher = DefaultHasher::new();
    hash_str(lower.as_str(), &mut hasher);
    hasher.finish()
}

/// What the weighting of one text needs: the count of its words in every
/// bucket, the number of indexed texts that touched each bucket, and the
/// number of texts to weigh against.
pub struct TermProfile {
    pub counts: Vec<u64>,
    pub df: Vec<u32>,
    pub docs: u32,
}

/// The embedder: a dimension and the statistics of the texts indexed so far.
pub struct TfIdfEmbedder {
    dim: usize,
    df: Vec<u32>,
    docs: u32,
}

impl TfIdfEmbedder {
    /// The number of buckets.
    pub closed spec fn dimension(&self) -> nat {
        self.dim as nat
    }

    /// For every bucket, the number of indexed texts that touched it.
    pub closed spec fn df(&self) -> Seq<u32> {
        self.df@
    }

    /// The number of texts indexed so far.
    pub closed spec fn docs(&self) -> u32 {
        self.docs
    }

    /// There is at least one bucket, and a statistic for every bucket.
    pub open spec fn wf(&self) -> bool {
        self.dimension() > 0 && self.df().len() == self.dimension()
    }

    /// An embedder with `dim` buckets that has indexed nothing.
    pub fn new(dim: usize) -> (e: Self)
        requires
            dim > 0,
        ensures
            e.wf(),
            e.dimension() == dim,
            e.df() == Seq::new(dim as nat, |i: int| 0u32),
            e.docs() == 0,
    {
        let df = vec![0u32; dim];
        assert(df@ =~= Seq::new(dim as nat, |i: int| 0u32));
        Self { dim, df, docs: 0 }
    }

    /// The number of buckets.
    pub fn dim(&self) -> (d: usize)
        ensures
            d == self.dimension(),
    {
        self.dim
    }

    /// The bucket of a word.
    pub fn bucket(&self, token: &str) -> (b: usize)
        requires
            self.wf(),
        ensures
            b == bucket_of(token@, self.dimension()),
            b < self.dimension(),
    {
        bucket_of_hash(hash_token(token), self.dim)
    }

    /// Counts, for every bucket, the words of `text` that fall into it.
    pub fn term_counts(&self, text: &str) -> (counts: Vec<u64>)
        requires
            self.wf(),
        ensures
            counts@ == count_terms(text@, self.dimension()),
    {
        let mut chars: Vec<char> = Vec::new();
        let mut marks: Vec<bool> = Vec::new();
        for c in it: text.chars()
            invariant
                it.seq() == text@,
                chars@ == text@.take(it.index() as int),
                marks@ == marks_of(text@.take(it.index() as int)),
        {
            chars.push(c);
            marks.push(is_alphanumeric(c));
            assert(chars@ =~= text@.take(it.index() + 1));
            assert(marks@ =~= marks_of(text@.take(it.index() + 1)));
        }
        assert(text@.take(text@.len() as int) =~= text@);
        let spans = word_spans(marks.as_slice());
        let mut hashes: Vec<u64> = Vec::new();
        let mut j: usize = 0;
        while j < spans.len()
            invariant
                j <= spans@.len(),
                chars@ == text@,
                spans@ == spans_of(marks_of(text@)),
                forall|m: int|
                    0 <= m < spans@.len() ==> (#[trigger] spans@[m]).from < spans@[m].to
                        <= text@.len(),
                hashes@.len() == j,
                forall|m: int| 0 <= m < j ==> #[trigger] hashes@[m] == hashes_of(text@)[m],
            decreases spans@.len() - j,
        {
            let span = spans[j];
            let mut word = String::new();
            let mut i: usize = span.from;
            while i < span.to
                invariant
                    span.from <= i <= span.to <= chars@.len(),
                    word@ == chars@.subrange(span.from as int, i as int),
                decreases span.to - i,
            {
                push_char(&mut word, chars[i]);
                assert(word@ =~= chars@.subrange(span.from as int, i + 1));
                i += 1;
            }
            hashes.push(hash_token(word.as_str()));
            j += 1;
        }
        assert(hashes@ =~= hashes_of(text@));
        count_slots(hashes.as_slice(), self.dim)
    }

    /// Counts the words of `text` and enters the text into the statistics:
    /// every bucket that the text touches has one more text, and one more
    /// text is indexed. The counters stay at their largest value once they
    /// have reached it. The profile holds the statistics after the update.
    pub fn featurize_index(&mut self, text: &str) -> (profile: TermProfile)
        requires
            old(self).wf(),
        ensures
            final(self).wf(),
            final(self).dimension() == old(self).dimension(),
            final(self).df() == indexed_df(
                old(self).df(),
                count_terms(text@, old(self).dimension()),
            ),
            final(self).docs() == bumped(old(self).docs()),
            profile.counts@ == count_terms(text@, old(self).dimension()),
            profile.df@ == final(self).df(),
            profile.docs == final(self).docs(),
    {
        let counts = self.term_counts(text);
        let ghost before = self.df@;
        let mut i: usize = 0;
        while i < self.dim
            invariant
                i <= self.dim,
                self.dim == old(self).dim,
                self.docs == old(self).docs,
                counts@.len() == self.dim,
                self.df@.len() == self.dim,
                before == old(self).df@,
                before.len() == self.dim,
                forall|j: int|
                    0 <= j < i ==> #[trigger] self.df@[j] == indexed_df(before, counts@)[j],
                forall|j: int| i <= j < self.dim ==> #[trigger] self.df@[j] == before[j],
            decreases self.dim - i,
        {
            if counts[i] > 0 {
                let bumped_df = self.df[i].saturating_add(1);
                self.df.set(i, bumped_df);
            }
            i += 1;
        }
        self.docs = self.docs.saturating_add(1);
        assert(self.df@ =~= indexed_df(before, counts@));
        let df = self.df.clone();
        TermProfile { counts, df, docs: self.docs }
    }

    /// Counts the words of `text` against the statistics as they stand,
    /// changing nothing. An embedder that has indexed nothing weighs against
    /// one text.
    pub fn featurize_query(&self, text: &str) -> (profile: TermProfile)
        requires
            self.wf(),
        ensures
            profile.counts@ == count_terms(text@, self.dimension()),
            profile.df@ == self.df(),
            profile.docs == query_docs(self.docs()),
    {
        let counts = self.term_counts(text);
        let docs = if self.docs == 0 {
            1
        } else {
            self.docs
        };
        let df = self.df.clone();
        TermProfile { counts, df, docs }
    }

    /// The profile of a text that is being indexed; see `featurize_index`.
    pub fn embed_index(&mut self, text: &str) -> (profile: TermProfile)
        requires
            old(self).wf(),
        ensures
            final(self).wf(),
            final(self).dimension() == old(self).dimension(),
            final(self).df() == indexed_df(
                old(self).df(),
                count_terms(text@, old(self).dimension()),
            ),
            final(self).docs() == bumped(old(self).docs()),
            profile.counts@ == count_terms(text@, old(self).dimension()),
            profile.df@ == final(self).df(),
            profile.docs == final(self).docs(),
    {
        self.featurize_index(text)
    }

    /// The profile of a query text; see `featurize_query`.
    pub fn embed_query(&self, text: &str) -> (profile: TermProfile)
        requires
            self.wf(),
        ensures
            profile.counts@ == count_terms(text@, self.dimension()),
            profile.df@ == self.df(),
            profile.docs == query_docs(self.docs()),
    {
        self.featurize_query(text)
    }
}

/// A text that was just indexed, asked as a query, is weighed exactly as it
/// was when it was indexed: the counts are those of the same words, the
/// bucket statistics are the ones that indexing left, and the number of
/// texts is the one that indexing left, since that is at least one.
pub proof fn lemma_query_repeats_index(df: Seq<u32>, docs: u32, text: Seq<char>, dim: nat)
    ensures
        ({
            let counts = count_terms(text, dim);
            let indexed = (counts, indexed_df(df, counts), bumped(docs));
            let asked = (count_terms(text, dim), indexed.1, query_docs(indexed.2));
            asked == indexed
        }),
{
}

} // verus!
