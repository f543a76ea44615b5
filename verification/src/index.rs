//! The vector log: fixed-length records of 32-bit words, kept one after
//! another with nothing between them. A record is found again by its
//! position, counted from zero.
//!
//! The index holds the image of its backing file. Record `i` occupies the
//! bytes from `i * 4 * dim` up to `(i + 1) * 4 * dim`.

use crate::codec::{decode_vector, decode_words, encode_vector, encode_words, lemma_encode_decode};
use crate::error::StoreError;
use crate::rank::{is_top_ranked, rank_top_k, Scored};
use vstd::prelude::*;

verus! {

/// How an index is opened.
#[derive(Clone, Copy, Debug, PartialEq, Eq, Structural)]
pub struct OpenOptions {
    /// Start an empty index where no backing file exists.
    pub create: bool,
    /// Accept appends.
    pub append: bool,
}

impl OpenOptions {
    /// Options that neither create an index nor accept appends.
    pub fn new() -> (opts: Self)
        ensures
            !opts.create,
            !opts.append,
    {
        Self { create: false, append: false }
    }

    /// Sets whether an empty index is started where no backing file exists.
    pub fn create(self, b: bool) -> (opts: Self)
        ensures
            opts.create == b,
            opts.append == self.append,
    {
        Self { create: b, append: self.append }
    }

    /// Sets whether the index accepts appends.
    pub fn append(self, b: bool) -> (opts: Self)
        ensures
            opts.create == self.create,
            opts.append == b,
    {
        Self { create: self.create, append: b }
    }
}

/// How many records a ranking may hold.
#[derive(Clone, Copy, Debug, PartialEq, Eq, Structural)]
pub struct SearchParams {
    pub top_k: usize,
}

impl Default for SearchParams {
    fn default() -> (p: Self)
        ensures
            p.top_k == 0,
    {
        Self { top_k: 0 }
    }
}

/// A dimension that an index can have: at least one word, and a record
/// length that the machine can address.
pub open spec fn valid_dim(dim: nat) -> bool {
    0 < dim && 4 * dim <= usize::MAX
}

/// The image consists of whole records of `dim` words and nothing else.
pub open spec fn holds_whole_records(image: Seq<u8>, dim: nat) -> bool {
    image.len() % (4 * dim) == 0
}

/// The content of a backing file that may not exist: nothing where it
/// does not.
pub open spec fn content_of(file: Option<Vec<u8>>) -> Seq<u8> {
    match file {
        Some(bytes) => bytes@,
        None => Seq::empty(),
    }
}

/// The records held by the whole record-length groups of `image`, in order.
pub open spec fn records_of(image: Seq<u8>, dim: nat) -> Seq<Seq<u32>> {
    Seq::new(
        (image.len() / (4 * dim)) as nat,
        |r: int| decode_words(image.subrange(r * (4 * dim), (r + 1) * (4 * dim))),
    )
}

/// Record `r` of an image lies within the image.
pub proof fn lemma_record_bounds(len: int, rl: int, r: int)
    requires
        0 < rl,
        0 <= r < len / rl,
        0 <= len,
    ensures
        0 <= r * rl,
        (r + 1) * rl == r * rl + rl,
        (r + 1) * rl <= len,
{
    assert((r + 1) * rl == r * rl + rl) by (nonlinear_arith);
    assert(0 <= r * rl) by (nonlinear_arith)
        requires
            0 <= r,
            0 < rl,
    ;
    assert((r + 1) * rl <= len) by (nonlinear_arith)
        requires
            0 < rl,
            0 <= r,
            r + 1 <= len / rl,
            0 <= len,
    ;
}

/// A length that is a multiple of the record length, grown by one record.
pub proof fn lemma_one_more_record(len: int, rl: int)
    requires
        0 < rl,
        0 <= len,
        len % rl == 0,
    ensures
        len == (len / rl) * rl,
        0 <= len / rl,
        (len + rl) / rl == len / rl + 1,
        (len + rl) % rl == 0,
{
    let n = len / rl;
    assert(len == n * rl && 0 <= n) by (nonlinear_arith)
        requires
            0 < rl,
            0 <= len,
            len % rl == 0,
            n == len / rl,
    ;
    assert((len + rl) / rl == n + 1 && (len + rl) % rl == 0) by (nonlinear_arith)
        requires
            0 < rl,
            0 <= n,
            len == n * rl,
    ;
}

/// Appending the encoding of one vector of the right length to an image of
/// whole records adds that vector as the last record and changes no other.
pub proof fn lemma_records_push(image: Seq<u8>, dim: nat, v: Seq<u32>)
    requires
        valid_dim(dim),
        holds_whole_records(image, dim),
        v.len() == dim,
    ensures
        holds_whole_records(image + encode_words(v), dim),
        records_of(image + encode_words(v), dim) == records_of(image, dim).push(v),
{
    let rl = (4 * dim) as int;
    let n = image.len() as int / rl;
    let grown = image + encode_words(v);
    lemma_encode_decode(v);
    lemma_one_more_record(image.len() as int, rl);
    assert(grown.len() == image.len() + rl);
    assert(records_of(grown, dim).len() == n + 1);
    assert(records_of(image, dim).len() == n);
    assert forall|r: int| 0 <= r < n + 1 implies #[trigger] records_of(grown, dim)[r]
        == records_of(image, dim).push(v)[r] by {
        lemma_record_bounds(grown.len() as int, rl, r);
        let from = r * rl;
        let to = (r + 1) * rl;
        if r < n {
            lemma_record_bounds(image.len() as int, rl, r);
            assert(grown.subrange(from, to) =~= image.subrange(from, to));
        } else {
            assert(from == image.len());
            assert(grown.subrange(from, to) =~= encode_words(v));
        }
    }
    assert(records_of(grown, dim) =~= records_of(image, dim).push(v));
}

/// The vector log.
pub struct Index {
    dim: usize,
    data: Vec<u8>,
    writable: bool,
}

impl View for Index {
    type V = Seq<Seq<u32>>;

    /// The stored records, in order: record `i` is the vector with id `i`.
    open spec fn view(&self) -> Seq<Seq<u32>> {
        records_of(self.image(), self.dimension())
    }
}

impl Index {
    /// The number of words in every record.
    pub closed spec fn dimension(&self) -> nat {
        self.dim as nat
    }

    /// The image of the backing file.
    pub closed spec fn image(&self) -> Seq<u8> {
        self.data@
    }

    /// Whether the index was opened for appending.
    pub closed spec fn accepts_appends(&self) -> bool {
        self.writable
    }

    /// The image holds whole records of a valid dimension.
    pub open spec fn wf(&self) -> bool {
        &&& valid_dim(self.dimension())
        &&& holds_whole_records(self.image(), self.dimension())
    }

    /// Opens an index of dimension `dim` on the present content of its
    /// backing file, `None` where there is no such file.
    ///
    /// A dimension that is no valid dimension is refused. A missing file is
    /// an error unless `opts.create` is set, and then gives an empty index.
    /// An image that does not consist of whole records is refused: the next
    /// record would not start where its id says.
    pub fn open(image: Option<Vec<u8>>, dim: usize, opts: &OpenOptions) -> (r: Result<
        Index,
        StoreError,
    >)
        ensures
            ({
                let valid = valid_dim(dim as nat);
                let missing = image is None && !opts.create;
                let whole = holds_whole_records(content_of(image), dim as nat);
                &&& !valid ==> r is Err && r->Err_0 == StoreError::Validation
                &&& valid && missing ==> r is Err && r->Err_0 == StoreError::NotFound
                &&& valid && !missing && !whole ==> r is Err && r->Err_0 == StoreError::Integrity
                &&& valid && !missing && whole ==> r is Ok && r->Ok_0.wf() && r->Ok_0.dimension()
                    == dim && r->Ok_0.image() == content_of(image)
                    && r->Ok_0.accepts_appends() == opts.append
            }),
    {
        if dim == 0 || dim > usize::MAX / 4 {
            return Err(StoreError::Validation);
        }
        let data = match image {
            Some(bytes) => {
                if bytes.len() % (4 * dim) != 0 {
                    return Err(StoreError::Integrity);
                }
                bytes
            },
            None => {
                if !opts.create {
                    return Err(StoreError::NotFound);
                }
                Vec::new()
            },
        };
        assert(0nat % (4 * dim) as nat == 0);
        Ok(Index { dim, data, writable: opts.append })
    }

    /// The number of words in every record.
    pub fn dim(&self) -> (d: usize)
        ensures
            d == self.dimension(),
    {
        self.dim
    }

    /// The image of the backing file.
    pub fn as_bytes(&self) -> (bytes: &[u8])
        ensures
            bytes@ == self.image(),
    {
        self.data.as_slice()
    }

    /// The number of records in the index.
    pub fn len(&self) -> (n: usize)
        requires
            self.wf(),
        ensures
            n == self@.len(),
    {
        self.data.len() / (4 * self.dim)
    }

    /// Appends one vector and returns its id, the number of records that
    /// were there before. A vector of another length than the dimension is
    /// refused, and so is any vector where the index was not opened for
    /// appending; the index then stays as it was.
    pub fn append(&mut self, vec: &[u32]) -> (r: Result<usize, StoreError>)
        requires
            old(self).wf(),
        ensures
            final(self).wf(),
            final(self).dimension() == old(self).dimension(),
            final(self).accepts_appends() == old(self).accepts_appends(),
            vec@.len() == old(self).dimension() && old(self).accepts_appends() ==> r is Ok
                && r->Ok_0 == old(self)@.len() && final(self).image() == old(self).image()
                + encode_words(vec@) && final(self)@ == old(self)@.push(vec@),
            vec@.len() != old(self).dimension() || !old(self).accepts_appends() ==> r is Err
                && r->Err_0 == StoreError::Validation && final(self).image() == old(self).image(),
    {
        if vec.len() != self.dim || !self.writable {
            return Err(StoreError::Validation);
        }
        let id = self.len();
        let mut bytes = encode_vector(vec);
        proof {
            lemma_records_push(self.data@, self.dim as nat, vec@);
        }
        self.data.append(&mut bytes);
        Ok(id)
    }

    /// Reads the vector with the given id.
    pub fn get(&self, id: usize) -> (r: Result<Vec<u32>, StoreError>)
        requires
            self.wf(),
        ensures
            id < self@.len() ==> r is Ok && r->Ok_0@ == self@[id as int],
            id >= self@.len() ==> r is Err && r->Err_0 == StoreError::NotFound,
    {
        let rl = 4 * self.dim;
        if id >= self.data.len() / rl {
            return Err(StoreError::NotFound);
        }
        proof {
            lemma_record_bounds(self.data@.len() as int, rl as int, id as int);
        }
        let start = id * rl;
        Ok(decode_vector(self.data.as_slice(), start, self.dim))
    }

    /// Ranks the first `scores.len()` records by the scores given for them,
    /// `scores[i]` being the score of record `i`, and returns the best
    /// `p.top_k` of them, best first. More scores than records are refused.
    pub fn search(&self, scores: &[u32], p: &SearchParams) -> (r: Result<Vec<Scored>, StoreError>)
        requires
            self.wf(),
        ensures
            scores@.len() <= self@.len() ==> r is Ok && is_top_ranked(
                scores@,
                scores@.len() as int,
                p.top_k as int,
                r->Ok_0@,
            ),
            scores@.len() > self@.len() ==> r is Err && r->Err_0 == StoreError::Validation,
    {
        if scores.len() > self.len() {
            return Err(StoreError::Validation);
        }
        Ok(rank_top_k(scores, scores.len(), p.top_k))
    }
}

} // verus!
