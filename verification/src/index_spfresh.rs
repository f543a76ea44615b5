//! The vector store: a vector log of fixed dimension whose backing file is
//! written by the caller and checked here.
//!
//! An append is made in three steps. The store says which bytes the file
//! must receive; the caller appends them to the file and measures the file
//! before and after; the store then takes the vector and checks that the
//! file grew by exactly one record. Where it did not, the ids of the store
//! and the offsets of the file no longer agree, and the store accepts no
//! further appends.

use crate::codec::{encode_vector, encode_words};
use crate::error::StoreError;
use crate::index::{
    content_of, holds_whole_records, records_of, valid_dim, Index, OpenOptions, SearchParams,
};
use crate::rank::{is_top_ranked, Scored};
use vstd::prelude::*;

verus! {

/// The file grew by exactly one record of `dim` words.
pub open spec fn grew_by_one_record(before: u64, after: u64, dim: nat) -> bool {
    after - before == 4 * dim
}

/// The vector store.
pub struct SpfreshIndex {
    inner: Index,
    poisoned: bool,
}

impl View for SpfreshIndex {
    type V = Seq<Seq<u32>>;

    /// The stored vectors, in order: vector `i` has id `i`.
    open spec fn view(&self) -> Seq<Seq<u32>> {
        records_of(self.image(), self.dimension())
    }
}

impl SpfreshIndex {
    /// The number of words in every vector.
    pub closed spec fn dimension(&self) -> nat {
        self.inner.dimension()
    }

    /// The image that the store has of its backing file.
    pub closed spec fn image(&self) -> Seq<u8> {
        self.inner.image()
    }

    /// Whether the store has seen its backing file disagree with it.
    pub closed spec fn poisoned(&self) -> bool {
        self.poisoned
    }

    /// Whether the store takes appends; every store that `open` returns does.
    pub closed spec fn writable(&self) -> bool {
        self.inner.accepts_appends()
    }

    /// The store holds whole records of a valid dimension and takes appends.
    pub open spec fn wf(&self) -> bool {
        &&& valid_dim(self.dimension())
        &&& holds_whole_records(self.image(), self.dimension())
        &&& self.writable()
    }

    /// Opens a store of dimension `dim` on the present content of its
    /// backing file, `None` where the file does not exist yet.
    ///
    /// A dimension that is no valid dimension is refused, and so is an image
    /// that does not consist of whole records.
    pub fn open(image: Option<Vec<u8>>, dim: usize) -> (r: Result<SpfreshIndex, StoreError>)
        ensures
            ({
                let valid = valid_dim(dim as nat);
                let whole = holds_whole_records(content_of(image), dim as nat);
                &&& !valid ==> r is Err && r->Err_0 == StoreError::Validation
                &&& valid && !whole ==> r is Err && r->Err_0 == StoreError::Integrity
                &&& valid && whole ==> r is Ok && r->Ok_0.wf() && r->Ok_0.dimension() == dim
                    && r->Ok_0.image() == content_of(image) && !r->Ok_0.poisoned()
            }),
    {
        let opts = OpenOptions::new().create(true).append(true);
        match Index::open(image, dim, &opts) {
            Ok(inner) => Ok(SpfreshIndex { inner, poisoned: false }),
            Err(e) => Err(e),
        }
    }

    /// The number of words in every vector.
    pub fn dim(&self) -> (d: usize)
        ensures
            d == self.dimension(),
    {
        self.inner.dim()
    }

    /// The number of vectors in the store.
    pub fn len(&self) -> (n: usize)
        requires
            self.wf(),
        ensures
            n == self@.len(),
    {
        self.inner.len()
    }

    /// Whether the store has seen its backing file disagree with it.
    pub fn is_poisoned(&self) -> (b: bool)
        ensures
            b == self.poisoned(),
    {
        self.poisoned
    }

    /// The image that the store has of its backing file.
    pub fn as_bytes(&self) -> (bytes: &[u8])
        ensures
            bytes@ == self.image(),
    {
        self.inner.as_bytes()
    }

    /// The bytes that the backing file must receive for `vec`: its words in
    /// order, each least significant byte first. A vector of another length
    /// than the dimension is refused, and any vector once the store is
    /// poisoned.
    pub fn mirror_record(&self, vec: &[u32]) -> (r: Result<Vec<u8>, StoreError>)
        ensures
            vec@.len() != self.dimension() ==> r is Err && r->Err_0 == StoreError::Validation,
            vec@.len() == self.dimension() && self.poisoned() ==> r is Err && r->Err_0
                == StoreError::Integrity,
            vec@.len() == self.dimension() && !self.poisoned() ==> r is Ok && r->Ok_0@
                == encode_words(vec@),
    {
        if vec.len() != self.inner.dim() {
            return Err(StoreError::Validation);
        }
        if self.poisoned {
            return Err(StoreError::Integrity);
        }
        Ok(encode_vector(vec))
    }

    /// Checks the lengths of the backing file measured before and after one
    /// record was written to it. Where the file did not grow by exactly one
    /// record the store becomes poisoned.
    pub fn mirror_append_checked(&mut self, before: u64, after: u64) -> (r: Result<
        (),
        StoreError,
    >)
        requires
            old(self).wf(),
        ensures
            final(self).wf(),
            final(self).dimension() == old(self).dimension(),
            final(self).image() == old(self).image(),
            final(self)@ == old(self)@,
            ({
                let grew = grew_by_one_record(before, after, old(self).dimension());
                &&& grew ==> r is Ok && final(self).poisoned() == old(self).poisoned()
                &&& !grew ==> r is Err && r->Err_0 == StoreError::Integrity
                    && final(self).poisoned()
            }),
    {
        let record_len = 4 * self.inner.dim();
        if after >= before && after - before == record_len as u64 {
            Ok(())
        } else {
            self.poisoned = true;
            Err(StoreError::Integrity)
        }
    }

    /// Takes one vector into the store, given the lengths of the backing
    /// file measured before and after its record was written, and returns
    /// the id of the vector: the number of vectors that were there before.
    ///
    /// A vector of another length than the dimension is refused, and any
    /// vector once the store is poisoned; the store then stays as it was.
    /// Where the file did not grow by exactly one record, the vector has
    /// taken its id but the file does not hold it: the append fails and the
    /// store becomes poisoned.
    pub fn append(&mut self, vec: &[u32], before: u64, after: u64) -> (r: Result<
        usize,
        StoreError,
    >)
        requires
            old(self).wf(),
        ensures
            final(self).wf(),
            final(self).dimension() == old(self).dimension(),
            ({
                let fits = vec@.len() == old(self).dimension();
                let poisoned = old(self).poisoned();
                let grew = grew_by_one_record(before, after, old(self).dimension());
                &&& !fits ==> r is Err && r->Err_0 == StoreError::Validation
                &&& fits && poisoned ==> r is Err && r->Err_0 == StoreError::Integrity
                &&& !fits || poisoned ==> final(self).image() == old(self).image()
                    && final(self).poisoned() == poisoned
                &&& fits && !poisoned ==> final(self)@ == old(self)@.push(vec@)
                    && final(self).image() == old(self).image() + encode_words(vec@)
                &&& fits && !poisoned && grew ==> r is Ok && r->Ok_0 == old(self)@.len()
                    && !final(self).poisoned()
                &&& fits && !poisoned && !grew ==> r is Err && r->Err_0 == StoreError::Integrity
                    && final(self).poisoned()
            }),
    {
        if vec.len() != self.inner.dim() {
            return Err(StoreError::Validation);
        }
        if self.poisoned {
            return Err(StoreError::Integrity);
        }
        match self.inner.append(vec) {
            Ok(id) => match self.mirror_append_checked(before, after) {
                Ok(()) => Ok(id),
                Err(e) => Err(e),
            },
            Err(e) => Err(e),
        }
    }

    /// Reads the vector with the given id.
    pub fn get(&self, id: usize) -> (r: Result<Vec<u32>, StoreError>)
        requires
            self.wf(),
        ensures
            id < self@.len() ==> r is Ok && r->Ok_0@ == self@[id as int],
            id >= self@.len() ==> r is Err && r->Err_0 == StoreError::NotFound,
    {
        self.inner.get(id)
    }

    /// Ranks the first `scores.len()` vectors by the scores given for them
    /// and returns the best `top_k`, best first. More scores than vectors
    /// are refused.
    pub fn search(&self, scores: &[u32], top_k: usize) -> (r: Result<Vec<Scored>, StoreError>)
        requires
            self.wf(),
        ensures
            scores@.len() <= self@.len() ==> r is Ok && is_top_ranked(
                scores@,
                scores@.len() as int,
                top_k as int,
                r->Ok_0@,
            ),
            scores@.len() > self@.len() ==> r is Err && r->Err_0 == StoreError::Validation,
    {
        let params = SearchParams { top_k };
        self.inner.search(scores, &params)
    }
}

} // verus!
