//! The document log: text kept one document per line, in the order of
//! arrival. A document is found again by the number of its line, counted
//! from zero.
//!
//! The store holds the image of its backing file. A line ends with a line
//! feed; a carriage return directly before the line feed is not part of the
//! line. Bytes after the last line feed form a last, unfinished line, which
//! is taken as it stands.

use crate::error::StoreError;
use vstd::prelude::*;

verus! {

/// The byte that ends a line.
pub const LINE_FEED: u8 = 10;

/// The byte that may precede the end of a line without belonging to it.
pub const CARRIAGE_RETURN: u8 = 13;

/// The number of bytes before the first line feed of `s`, or the length of
/// `s` where it holds none.
pub open spec fn first_break(s: Seq<u8>) -> nat
    decreases s.len(),
{
    if s.len() == 0 || s[0] == LINE_FEED {
        0
    } else {
        1 + first_break(s.drop_first())
    }
}

/// `s` without a carriage return at its end.
pub open spec fn trim_return(s: Seq<u8>) -> Seq<u8> {
    if s.len() > 0 && s.last() == CARRIAGE_RETURN {
        s.drop_last()
    } else {
        s
    }
}

/// The lines of a file image, in order.
pub open spec fn split_lines(s: Seq<u8>) -> Seq<Seq<u8>>
    decreases s.len(),
{
    if s.len() == 0 {
        Seq::empty()
    } else {
        let i = first_break(s) as int;
        if i < s.len() {
            seq![trim_return(s.take(i))] + split_lines(s.skip(i + 1))
        } else {
            seq![s]
        }
    }
}

/// Text that can be stored as one line and read back unchanged: it holds
/// neither a line feed nor a carriage return.
pub open spec fn is_single_line(line: Seq<u8>) -> bool {
    forall|i: int|
        0 <= i < line.len() ==> #[trigger] line[i] != LINE_FEED && line[i] != CARRIAGE_RETURN
}

/// An image whose last line is finished: it is empty or ends with a line feed.
pub open spec fn ends_clean(s: Seq<u8>) -> bool {
    s.len() == 0 || s.last() == LINE_FEED
}

/// The bytes that `line` adds to the file: the line and a line feed.
pub open spec fn framed(line: Seq<u8>) -> Seq<u8> {
    line.push(LINE_FEED)
}

/// `first_break` stops at the first line feed and at nothing else.
pub proof fn lemma_first_break(s: Seq<u8>)
    ensures
        first_break(s) <= s.len(),
        forall|m: int| 0 <= m < first_break(s) ==> #[trigger] s[m] != LINE_FEED,
        first_break(s) < s.len() ==> s[first_break(s) as int] == LINE_FEED,
    decreases s.len(),
{
    if s.len() == 0 || s[0] == LINE_FEED {
    } else {
        let t = s.drop_first();
        lemma_first_break(t);
        assert forall|m: int| 0 <= m < first_break(s) implies #[trigger] s[m] != LINE_FEED by {
            if m > 0 {
                assert(s[m] == t[m - 1]);
            }
        }
    }
}

/// A position with no line feed before it, which holds one or ends `s`, is
/// the first break of `s`.
pub proof fn lemma_first_break_at(s: Seq<u8>, j: int)
    requires
        0 <= j <= s.len(),
        forall|m: int| 0 <= m < j ==> #[trigger] s[m] != LINE_FEED,
        j == s.len() || s[j] == LINE_FEED,
    ensures
        first_break(s) == j,
{
    lemma_first_break(s);
}

/// Appending a framed line to an image whose last line is finished adds
/// exactly that line, and leaves the last line finished.
pub proof fn lemma_append_adds_line(s: Seq<u8>, line: Seq<u8>)
    requires
        ends_clean(s),
        is_single_line(line),
    ensures
        split_lines(s + framed(line)) == split_lines(s).push(line),
        ends_clean(s + framed(line)),
    decreases s.len(),
{
    let tail = framed(line);
    let full = s + tail;
    if s.len() == 0 {
        assert(full =~= tail);
        lemma_first_break_at(tail, line.len() as int);
        assert(tail.take(line.len() as int) =~= line);
        assert(tail.skip(line.len() as int + 1) =~= Seq::<u8>::empty());
        assert(trim_return(line) == line) by {
            if line.len() > 0 {
                assert(line[line.len() - 1] != CARRIAGE_RETURN);
            }
        }
        assert(split_lines(Seq::<u8>::empty()) =~= Seq::<Seq<u8>>::empty());
        assert(split_lines(tail) =~= seq![line]);
        assert(split_lines(s).push(line) =~= seq![line]);
    } else {
        lemma_first_break(s);
        let i = first_break(s) as int;
        assert(i < s.len()) by {
            if i == s.len() {
                assert(s[s.len() - 1] != LINE_FEED);
            }
        }
        lemma_first_break_at(full, i);
        let rest = s.skip(i + 1);
        assert(full.take(i) =~= s.take(i));
        assert(full.skip(i + 1) =~= rest + tail);
        assert(ends_clean(rest)) by {
            if rest.len() > 0 {
                assert(rest.last() == s.last());
            }
        }
        lemma_append_adds_line(rest, line);
        assert(split_lines(full) =~= split_lines(s).push(line));
    }
}

/// The document log.
pub struct MetaStore {
    content: Vec<u8>,
}

/// Copies the bytes `from..to` of `bytes`.
fn copy_range(bytes: &[u8], from: usize, to: usize) -> (v: Vec<u8>)
    requires
        from <= to <= bytes.len(),
    ensures
        v@ == bytes@.subrange(from as int, to as int),
{
    let mut v: Vec<u8> = Vec::new();
    let mut i: usize = from;
    while i < to
        invariant
            from <= i <= to <= bytes.len(),
            v@ == bytes@.subrange(from as int, i as int),
        decreases to - i,
    {
        v.push(bytes[i]);
        assert(v@ =~= bytes@.subrange(from as int, i + 1));
        i += 1;
    }
    v
}

/// Finds where the line that starts at `start` ends: at the next line feed,
/// or at the end of the image.
fn line_end(bytes: &[u8], start: usize) -> (end: usize)
    requires
        start <= bytes.len(),
    ensures
        start <= end <= bytes.len(),
        end - start == first_break(bytes@.skip(start as int)),
{
    let mut i: usize = start;
    while i < bytes.len() && bytes[i] != LINE_FEED
        invariant
            start <= i <= bytes.len(),
            forall|m: int| start <= m < i ==> #[trigger] bytes@[m] != LINE_FEED,
        decreases bytes.len() - i,
    {
        i += 1;
    }
    proof {
        lemma_first_break_at(bytes@.skip(start as int), i - start);
    }
    i
}

impl MetaStore {
    /// The image of the backing file.
    pub closed spec fn content(&self) -> Seq<u8> {
        self.content@
    }

    /// The stored lines, in order: line `i` belongs to the document with id `i`.
    pub open spec fn lines(&self) -> Seq<Seq<u8>> {
        split_lines(self.content())
    }

    /// Opens the store on the present content of its backing file; an empty
    /// image stands for a file that was just created.
    pub fn open(image: Vec<u8>) -> (store: MetaStore)
        ensures
            store.content() == image@,
    {
        MetaStore { content: image }
    }

    /// The image of the backing file.
    pub fn as_bytes(&self) -> (bytes: &[u8])
        ensures
            bytes@ == self.content(),
    {
        self.content.as_slice()
    }

    /// Whether `line` can be stored as one line.
    pub fn accepts_line(line: &[u8]) -> (b: bool)
        ensures
            b == is_single_line(line@),
    {
        let mut i: usize = 0;
        while i < line.len()
            invariant
                i <= line.len(),
                forall|j: int|
                    0 <= j < i ==> #[trigger] line@[j] != LINE_FEED && line@[j] != CARRIAGE_RETURN,
            decreases line.len() - i,
        {
            if line[i] == LINE_FEED || line[i] == CARRIAGE_RETURN {
                return false;
            }
            i += 1;
        }
        true
    }

    /// The bytes by which the backing file grows when `line` is appended.
    /// Text that cannot be stored as one line is refused.
    pub fn frame_line(line: &[u8]) -> (r: Result<Vec<u8>, StoreError>)
        ensures
            is_single_line(line@) ==> r is Ok && r->Ok_0@ == framed(line@),
            !is_single_line(line@) ==> r is Err && r->Err_0 == StoreError::Validation,
    {
        if !Self::accepts_line(line) {
            return Err(StoreError::Validation);
        }
        let mut bytes = copy_range(line, 0, line.len());
        assert(line@.subrange(0, line@.len() as int) =~= line@);
        bytes.push(LINE_FEED);
        Ok(bytes)
    }

    /// Appends one document as a line of its own. Text that cannot be stored
    /// as one line is refused and leaves the store as it was.
    pub fn append_line(&mut self, line: &[u8]) -> (r: Result<(), StoreError>)
        ensures
            is_single_line(line@) ==> r is Ok && final(self).content() == old(self).content()
                + framed(line@),
            !is_single_line(line@) ==> r is Err && r->Err_0 == StoreError::Validation
                && final(self).content() == old(self).content(),
    {
        match Self::frame_line(line) {
            Ok(mut bytes) => {
                self.content.append(&mut bytes);
                Ok(())
            },
            Err(e) => Err(e),
        }
    }

    /// The number of lines in the store.
    pub fn count(&self) -> (n: usize)
        ensures
            n == self.lines().len(),
    {
        let bytes = self.content.as_slice();
        let mut start: usize = 0;
        let mut n: usize = 0;
        assert(bytes@.skip(0) =~= bytes@);
        while start < bytes.len()
            invariant
                bytes@ == self.content(),
                start <= bytes.len(),
                n <= start,
                split_lines(bytes@).len() == n + split_lines(bytes@.skip(start as int)).len(),
            decreases bytes.len() - start,
        {
            let end = line_end(bytes, start);
            proof {
                let rest = bytes@.skip(start as int);
                if end < bytes.len() {
                    assert(rest.skip(end - start + 1) =~= bytes@.skip(end + 1));
                }
            }
            n += 1;
            start = if end < bytes.len() {
                end + 1
            } else {
                end
            };
        }
        n
    }

    /// Reads the line of the document with the given id.
    pub fn read_line(&self, id: usize) -> (r: Result<Vec<u8>, StoreError>)
        ensures
            id < self.lines().len() ==> r is Ok && r->Ok_0@ == self.lines()[id as int],
            id >= self.lines().len() ==> r is Err && r->Err_0 == StoreError::NotFound,
    {
        let bytes = self.content.as_slice();
        let mut start: usize = 0;
        let mut n: usize = 0;
        assert(bytes@.skip(0) =~= bytes@);
        while start < bytes.len()
            invariant
                bytes@ == self.content(),
                start <= bytes.len(),
                n <= start,
                n <= id,
                split_lines(bytes@).len() == n + split_lines(bytes@.skip(start as int)).len(),
                forall|m: int|
                    0 <= m < split_lines(bytes@.skip(start as int)).len() ==> split_lines(
                        bytes@,
                    )[n + m] == #[trigger] split_lines(bytes@.skip(start as int))[m],
            decreases bytes.len() - start,
        {
            let end = line_end(bytes, start);
            let ghost rest = bytes@.skip(start as int);
            let ghost tail = if end < bytes.len() {
                split_lines(bytes@.skip(end + 1))
            } else {
                Seq::empty()
            };
            proof {
                if end < bytes.len() {
                    assert(rest.skip(end - start + 1) =~= bytes@.skip(end + 1));
                }
                assert(rest.take(end - start) =~= bytes@.subrange(start as int, end as int));
                if end == bytes.len() {
                    assert(rest =~= bytes@.subrange(start as int, end as int));
                }
                assert(split_lines(rest) =~= seq![split_lines(rest)[0]] + tail);
            }
            if n == id {
                let stop = if end < bytes.len() && end > start && bytes[end - 1]
                    == CARRIAGE_RETURN {
                    end - 1
                } else {
                    end
                };
                let line = copy_range(bytes, start, stop);
                proof {
                    let whole = bytes@.subrange(start as int, end as int);
                    if end > start {
                        assert(whole.last() == bytes@[end - 1]);
                    }
                    assert(line@ =~= split_lines(rest)[0]);
                }
                return Ok(line);
            }
            proof {
                assert forall|m: int| 0 <= m < tail.len() implies split_lines(bytes@)[n + 1 + m]
                    == #[trigger] tail[m] by {
                    assert(split_lines(rest)[m + 1] == tail[m]);
                }
            }
            n += 1;
            start = if end < bytes.len() {
                end + 1
            } else {
                end
            };
        }
        Err(StoreError::NotFound)
    }
}

} // verus!
