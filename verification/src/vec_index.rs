//! What a service asks of a vector store, whichever store it is.

use crate::error::StoreError;
use crate::index_spfresh::{grew_by_one_record, SpfreshIndex};
use crate::rank::{is_top_ranked, Scored};
use vstd::prelude::*;

verus! {

/// A store of vectors of one dimension, each found again by its id.
pub trait VecIndex {
    /// The store is well formed.
    spec fn valid(&self) -> bool;

    /// The number of words in every vector.
    spec fn width(&self) -> nat;

    /// The stored vectors, in order: vector `i` has id `i`.
    spec fn vectors(&self) -> Seq<Seq<u32>>;

    /// Whether the store has stopped taking vectors.
    spec fn closed(&self) -> bool;

    /// The number of words in every vector.
    fn dim(&self) -> (d: usize)
        ensures
            d == self.width(),
    ;

    /// Takes one vector, given the lengths of the backing file measured
    /// before and after its record was written, and returns its id. A
    /// vector of another length than the dimension is refused and changes
    /// nothing; so is any vector once the store is closed. Where the file
    /// did not grow by one record the store has the vector and closes.
    fn append(&mut self, vec: &[u32], before: u64, after: u64) -> (r: Result<usize, StoreError>)
        requires
            old(self).valid(),
        ensures
            final(self).valid(),
            final(self).width() == old(self).width(),
            ({
                let fits = vec@.len() == old(self).width();
                let closed = old(self).closed();
                let grew = grew_by_one_record(before, after, old(self).width());
                &&& !fits ==> r is Err && r->Err_0 == StoreError::Validation
                &&& fits && closed ==> r is Err && r->Err_0 == StoreError::Integrity
                &&& !fits || closed ==> final(self).vectors() == old(self).vectors()
                    && final(self).closed() == closed
                &&& fits && !closed ==> final(self).vectors() == old(self).vectors().push(vec@)
                &&& fits && !closed && grew ==> r is Ok && r->Ok_0 == old(self).vectors().len()
                    && !final(self).closed()
                &&& fits && !closed && !grew ==> r is Err && r->Err_0 == StoreError::Integrity
                    && final(self).closed()
            }),
    ;

    /// Reads the vector with the given id.
    fn get(&self, id: usize) -> (r: Result<Vec<u32>, StoreError>)
        requires
            self.valid(),
        ensures
            id < self.vectors().len() ==> r is Ok && r->Ok_0@ == self.vectors()[id as int],
            id >= self.vectors().len() ==> r is Err && r->Err_0 == StoreError::NotFound,
    ;

    /// Ranks the first `scores.len()` vectors by the scores given for them
    /// and returns the best `top_k`, best first. More scores than vectors
    /// are refused.
    fn search(&self, scores: &[u32], top_k: usize) -> (r: Result<Vec<Scored>, StoreError>)
        requires
            self.valid(),
        ensures
            scores@.len() <= self.vectors().len() ==> r is Ok && is_top_ranked(
                scores@,
                scores@.len() as int,
                top_k as int,
                r->Ok_0@,
            ),
            scores@.len() > self.vectors().len() ==> r is Err && r->Err_0
                == StoreError::Validation,
    ;
}

impl VecIndex for SpfreshIndex {
    open spec fn valid(&self) -> bool {
        self.wf()
    }

    open spec fn width(&self) -> nat {
        self.dimension()
    }

    open spec fn vectors(&self) -> Seq<Seq<u32>> {
        self@
    }

    open spec fn closed(&self) -> bool {
        self.poisoned()
    }

    fn dim(&self) -> (d: usize) {
        SpfreshIndex::dim(self)
    }

    fn append(&mut self, vec: &[u32], before: u64, after: u64) -> (r: Result<usize, StoreError>) {
        SpfreshIndex::append(self, vec, before, after)
    }

    fn get(&self, id: usize) -> (r: Result<Vec<u32>, StoreError>) {
        SpfreshIndex::get(self, id)
    }

    fn search(&self, scores: &[u32], top_k: usize) -> (r: Result<Vec<Scored>, StoreError>) {
        SpfreshIndex::search(self, scores, top_k)
    }
}

} // verus!
