//! Ingestion: one document goes into the vector store and into the
//! document log in one step, so that both know it under the same id.

use crate::codec::encode_words;
use crate::error::StoreError;
use crate::index::{content_of, holds_whole_records, valid_dim};
use crate::index_spfresh::{grew_by_one_record, SpfreshIndex};
use crate::meta_store::{
    ends_clean, framed, is_single_line, lemma_append_adds_line, MetaStore,
};
use vstd::prelude::*;
use vstd::string::StringExecFns;

verus! {

/// A product review.
#[derive(Debug)]
pub struct Review {
    pub review_title: String,
    pub review_body: String,
    pub product_id: String,
    pub review_rating: i32,
}

impl Review {
    /// The text that is indexed for the review: its title, a space, and
    /// its body.
    pub fn index_text(&self) -> (text: String)
        ensures
            text@ == self.review_title@ + seq![' '] + self.review_body@,
    {
        proof {
            reveal_strlit(" ");
        }
        let mut text = self.review_title.clone();
        text.append(" ");
        text.append(self.review_body.as_str());
        assert(" "@ =~= seq![' ']);
        text
    }
}

/// One document made ready for the stores: its feature vector, its line
/// for the document log, and the lengths of the vector file measured before
/// and after the vector's record was written to it.
pub struct Prepared {
    pub vector: Vec<u32>,
    pub line: Vec<u8>,
    pub mirror_before: u64,
    pub mirror_after: u64,
}

/// The two stores of a review service.
pub struct Stores {
    pub vindex: SpfreshIndex,
    pub meta: MetaStore,
}

/// A vector and a line that the stores can take: the vector has the
/// dimension of the vector store and the line is a single line.
pub open spec fn well_formed_document(vector: Seq<u32>, line: Seq<u8>, dim: nat) -> bool {
    vector.len() == dim && is_single_line(line)
}

/// A prepared document that unpoisoned stores of dimension `dim` insert.
pub open spec fn entry_ok(e: Prepared, dim: nat) -> bool {
    well_formed_document(e.vector@, e.line@, dim) && grew_by_one_record(
        e.mirror_before,
        e.mirror_after,
        dim,
    )
}

/// The vectors of prepared documents, in order.
pub open spec fn vectors_of(entries: Seq<Prepared>) -> Seq<Seq<u32>> {
    Seq::new(entries.len(), |i: int| entries[i].vector@)
}

/// The lines of prepared documents, in order.
pub open spec fn lines_of(entries: Seq<Prepared>) -> Seq<Seq<u8>> {
    Seq::new(entries.len(), |i: int| entries[i].line@)
}

/// The bytes by which the document log grows when it takes the lines of
/// these documents, in order.
pub open spec fn frames_of(entries: Seq<Prepared>) -> Seq<u8>
    decreases entries.len(),
{
    if entries.len() == 0 {
        Seq::empty()
    } else {
        frames_of(entries.drop_last()) + framed(entries.last().line@)
    }
}

impl Stores {
    /// The vector store is well formed.
    pub open spec fn wf(&self) -> bool {
        self.vindex.wf()
    }

    /// Both stores hold the same number of documents, and the last line of
    /// the document log is finished.
    pub open spec fn aligned(&self) -> bool {
        ends_clean(self.meta.content()) && self.vindex@.len() == self.meta.lines().len()
    }

    /// The stored documents, each as the pair of its vector and its line.
    pub open spec fn documents(&self) -> Seq<(Seq<u32>, Seq<u8>)> {
        Seq::new(self.vindex@.len(), |i: int| (self.vindex@[i], self.meta.lines()[i]))
    }

    /// Both stores are the same in `self` and in `other`.
    pub open spec fn same_as(&self, other: &Stores) -> bool {
        &&& self.vindex@ == other.vindex@
        &&& self.vindex.image() == other.vindex.image()
        &&& self.vindex.poisoned() == other.vindex.poisoned()
        &&& self.vindex.dimension() == other.vindex.dimension()
        &&& self.meta.content() == other.meta.content()
    }

    /// Opens both stores on the present content of their backing files:
    /// the vector file, `None` where it does not exist yet, and the
    /// document log. Fails where the vector store cannot be opened.
    pub fn open(vectors: Option<Vec<u8>>, lines: Vec<u8>, dim: usize) -> (r: Result<
        Stores,
        StoreError,
    >)
        ensures
            ({
                let valid = valid_dim(dim as nat);
                let whole = holds_whole_records(content_of(vectors), dim as nat);
                &&& !valid ==> r is Err && r->Err_0 == StoreError::Validation
                &&& valid && !whole ==> r is Err && r->Err_0 == StoreError::Integrity
                &&& valid && whole ==> r is Ok && r->Ok_0.wf() && r->Ok_0.vindex.dimension() == dim
                    && r->Ok_0.vindex.image() == content_of(vectors)
                    && !r->Ok_0.vindex.poisoned() && r->Ok_0.meta.content() == lines@
            }),
    {
        match SpfreshIndex::open(vectors, dim) {
            Ok(vindex) => Ok(Stores { vindex, meta: MetaStore::open(lines) }),
            Err(e) => Err(e),
        }
    }
}

/// Stores that were opened on no content are aligned and hold no document.
pub proof fn lemma_empty_stores_aligned(st: Stores)
    requires
        valid_dim(st.vindex.dimension()),
        st.vindex.image() == Seq::<u8>::empty(),
        st.meta.content() == Seq::<u8>::empty(),
    ensures
        st.aligned(),
        st.documents() == Seq::<(Seq<u32>, Seq<u8>)>::empty(),
        st.vindex@.len() == 0,
        st.meta.lines().len() == 0,
{
    assert(st.documents() =~= Seq::<(Seq<u32>, Seq<u8>)>::empty());
}

/// Inserts one document into both stores and returns its id.
///
/// A vector of another length than the dimension, or a line that is no
/// single line, is refused before either store has changed; so is any
/// document once the vector store is poisoned. Where the vector file did
/// not grow by exactly one record, the vector store has taken the vector
/// and is poisoned, and the document log has not taken the line.
pub fn insert_one(st: &mut Stores, vector: &[u32], line: &[u8], before: u64, after: u64) -> (r:
    Result<usize, StoreError>)
    requires
        old(st).wf(),
    ensures
        final(st).wf(),
        final(st).vindex.dimension() == old(st).vindex.dimension(),
        ({
            let dim = old(st).vindex.dimension();
            let formed = well_formed_document(vector@, line@, dim);
            let poisoned = old(st).vindex.poisoned();
            let grew = grew_by_one_record(before, after, dim);
            &&& !formed ==> r is Err && r->Err_0 == StoreError::Validation
            &&& formed && poisoned ==> r is Err && r->Err_0 == StoreError::Integrity
            &&& !formed || poisoned ==> final(st).same_as(old(st))
            &&& formed && !poisoned ==> final(st).vindex@ == old(st).vindex@.push(vector@)
                && final(st).vindex.image() == old(st).vindex.image() + encode_words(vector@)
            &&& formed && !poisoned && grew ==> r is Ok && r->Ok_0 == old(st).vindex@.len()
                && !final(st).vindex.poisoned()
                && final(st).meta.content() == old(st).meta.content() + framed(line@)
            &&& formed && !poisoned && !grew ==> r is Err && r->Err_0 == StoreError::Integrity
                && final(st).vindex.poisoned()
                && final(st).meta.content() == old(st).meta.content()
        }),
{
    if vector.len() != st.vindex.dim() || !MetaStore::accepts_line(line) {
        return Err(StoreError::Validation);
    }
    match st.vindex.append(vector, before, after) {
        Ok(id) => match st.meta.append_line(line) {
            Ok(()) => Ok(id),
            Err(e) => Err(e),
        },
        Err(e) => Err(e),
    }
}

/// Inserts prepared documents in order and stops at the first that fails.
/// Returns the number of documents inserted, which is the number of those
/// that stand before the failing one.
///
/// The failing document is one that is not well formed, which changes
/// nothing, or one whose record the vector file did not take, which leaves
/// its vector in the vector store and the store poisoned. Poisoned stores
/// insert nothing.
pub fn insert_bulk(st: &mut Stores, batch: &Vec<Prepared>) -> (inserted: usize)
    requires
        old(st).wf(),
    ensures
        final(st).wf(),
        final(st).vindex.dimension() == old(st).vindex.dimension(),
        inserted <= batch@.len(),
        old(st).vindex.poisoned() ==> inserted == 0 && final(st).same_as(old(st)),
        !old(st).vindex.poisoned() ==> ({
            let dim = old(st).vindex.dimension();
            let failed = inserted < batch@.len();
            let torn = failed && well_formed_document(
                batch@[inserted as int].vector@,
                batch@[inserted as int].line@,
                dim,
            );
            let taken = if torn {
                inserted + 1
            } else {
                inserted as int
            };
            &&& forall|j: int| 0 <= j < inserted ==> entry_ok(#[trigger] batch@[j], dim)
            &&& failed ==> !entry_ok(batch@[inserted as int], dim)
            &&& final(st).vindex@ == old(st).vindex@ + vectors_of(batch@.take(taken))
            &&& final(st).vindex.poisoned() == torn
            &&& final(st).meta.content() == old(st).meta.content() + frames_of(
                batch@.take(inserted as int),
            )
        }),
{
    let ghost dim = st.vindex.dimension();
    let mut i: usize = 0;
    if st.vindex.is_poisoned() {
        return 0;
    }
    assert(vectors_of(batch@.take(0)) =~= Seq::<Seq<u32>>::empty());
    assert(st.vindex@ + Seq::<Seq<u32>>::empty() =~= st.vindex@);
    assert(st.meta.content() + Seq::<u8>::empty() =~= st.meta.content());
    while i < batch.len()
        invariant
            i <= batch@.len(),
            st.wf(),
            dim == old(st).vindex.dimension(),
            st.vindex.dimension() == dim,
            !st.vindex.poisoned(),
            !old(st).vindex.poisoned(),
            forall|j: int| 0 <= j < i ==> entry_ok(#[trigger] batch@[j], dim),
            st.vindex@ == old(st).vindex@ + vectors_of(batch@.take(i as int)),
            st.meta.content() == old(st).meta.content() + frames_of(batch@.take(i as int)),
        decreases batch@.len() - i,
    {
        let e = &batch[i];
        let ghost vectors_before = st.vindex@;
        let ghost content_before = st.meta.content();
        let r = insert_one(
            st,
            e.vector.as_slice(),
            e.line.as_slice(),
            e.mirror_before,
            e.mirror_after,
        );
        proof {
            let next = batch@.take(i + 1);
            assert(next.drop_last() =~= batch@.take(i as int));
            assert(next.last() == batch@[i as int]);
            assert(vectors_of(next) =~= vectors_of(batch@.take(i as int)).push(e.vector@));
            if well_formed_document(e.vector@, e.line@, dim) {
                assert(st.vindex@ =~= old(st).vindex@ + vectors_of(next));
            }
            if r is Ok {
                assert(st.meta.content() =~= old(st).meta.content() + frames_of(next));
            }
        }
        match r {
            Ok(_) => {},
            Err(_) => {
                return i;
            },
        }
        i += 1;
    }
    i
}

/// Inserting one document into aligned stores leaves them aligned, keeps
/// every stored document under its id, and puts the new document under the
/// id that the insertion returned: the vector and the line found under one
/// id belong to one document.
pub proof fn lemma_insert_pairs_documents(
    pre: Stores,
    post: Stores,
    vector: Seq<u32>,
    line: Seq<u8>,
)
    requires
        pre.aligned(),
        is_single_line(line),
        post.vindex@ == pre.vindex@.push(vector),
        post.meta.content() == pre.meta.content() + framed(line),
    ensures
        post.aligned(),
        post.documents() == pre.documents().push((vector, line)),
        post.documents()[pre.vindex@.len() as int] == (vector, line),
        post.vindex@.len() == pre.vindex@.len() + 1,
        post.meta.lines().len() == pre.meta.lines().len() + 1,
{
    lemma_append_adds_line(pre.meta.content(), line);
    assert(post.documents() =~= pre.documents().push((vector, line)));
}

/// The lines that a batch adds to a document log whose last line is
/// finished are the lines of the batch, in order.
pub proof fn lemma_frames_add_lines(content: Seq<u8>, entries: Seq<Prepared>)
    requires
        ends_clean(content),
        forall|j: int| 0 <= j < entries.len() ==> is_single_line(#[trigger] entries[j].line@),
    ensures
        ends_clean(content + frames_of(entries)),
        crate::meta_store::split_lines(content + frames_of(entries))
            == crate::meta_store::split_lines(content) + lines_of(entries),
    decreases entries.len(),
{
    if entries.len() == 0 {
        assert(content + frames_of(entries) =~= content);
        assert(crate::meta_store::split_lines(content) + lines_of(entries)
            =~= crate::meta_store::split_lines(content));
    } else {
        let init = entries.drop_last();
        let last = entries.last().line@;
        lemma_frames_add_lines(content, init);
        lemma_append_adds_line(content + frames_of(init), last);
        assert(content + frames_of(entries) =~= (content + frames_of(init)) + framed(last));
        assert(lines_of(entries) =~= lines_of(init).push(last));
        assert(crate::meta_store::split_lines(content) + lines_of(entries) =~= (
        crate::meta_store::split_lines(content) + lines_of(init)).push(last));
    }
}

/// After a batch went into aligned stores without a failure, both stores
/// hold as many documents more as the batch has, and every document of the
/// batch is found with its vector and its line under one id.
pub proof fn lemma_bulk_pairs_documents(pre: Stores, post: Stores, entries: Seq<Prepared>)
    requires
        pre.aligned(),
        forall|j: int| 0 <= j < entries.len() ==> is_single_line(#[trigger] entries[j].line@),
        post.vindex@ == pre.vindex@ + vectors_of(entries),
        post.meta.content() == pre.meta.content() + frames_of(entries),
    ensures
        post.aligned(),
        post.vindex@.len() == pre.vindex@.len() + entries.len(),
        post.meta.lines().len() == pre.meta.lines().len() + entries.len(),
        forall|i: int|
            0 <= i < pre.vindex@.len() ==> #[trigger] post.documents()[i] == pre.documents()[i],
        forall|j: int|
            0 <= j < entries.len() ==> #[trigger] post.documents()[pre.vindex@.len() + j] == (
                entries[j].vector@,
                entries[j].line@,
            ),
{
    lemma_frames_add_lines(pre.meta.content(), entries);
}

} // verus!
