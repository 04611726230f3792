//! The metric of a file: one for the file itself, its length in bytes, or the
//! number of its lines, counted while its content is read chunk by chunk.

use vstd::prelude::*;

verus! {

/// The byte that ends a line.
pub const NEWLINE: u8 = 0x0A;

/// The number of bytes to ask for with each read of a file.
pub const CHUNK_SIZE: usize = 102_400;

/// What is counted of each file.
#[derive(Clone, Copy, PartialEq, Eq, Structural, Debug)]
pub enum CountType {
    /// The file itself: every file counts one.
    Files,
    /// Its length in bytes.
    Bytes,
    /// Its lines: the newline bytes in it.
    Lines,
}

/// What has to be read of a file before it can be counted.
#[derive(Clone, Copy, PartialEq, Eq, Structural, Debug)]
pub enum Reading {
    /// Nothing.
    Nothing,
    /// Its length, from what the file system records of it.
    Size,
    /// Its content, for its lines.
    Lines,
}

/// The number of newline bytes in `bytes`. A last line that no newline ends
/// is not counted.
pub open spec fn newline_count(bytes: Seq<u8>) -> nat
    decreases bytes.len(),
{
    if bytes.len() == 0 {
        0
    } else {
        newline_count(bytes.drop_last()) + if bytes.last() == NEWLINE {
            1nat
        } else {
            0nat
        }
    }
}

/// What has to be read of a file for a kind of count.
pub open spec fn reading_of(count_type: CountType) -> Reading {
    match count_type {
        CountType::Files => Reading::Nothing,
        CountType::Bytes => Reading::Size,
        CountType::Lines => Reading::Lines,
    }
}

/// The metric of a file of which `read` was read: one for a file as such,
/// else what was read, its length or the number of its lines.
pub open spec fn metric_of(count_type: CountType, read: u64) -> u64 {
    match count_type {
        CountType::Files => 1,
        _ => read,
    }
}

/// The lines of a content are the lines of its parts: it makes no difference
/// where the reads cut it.
pub proof fn lemma_newline_count_concat(a: Seq<u8>, b: Seq<u8>)
    ensures
        newline_count(a + b) == newline_count(a) + newline_count(b),
    decreases b.len(),
{
    if b.len() == 0 {
        assert(a + b =~= a);
    } else {
        lemma_newline_count_concat(a, b.drop_last());
        assert((a + b).drop_last() =~= a + b.drop_last());
    }
}

/// A content has no more lines than bytes.
pub proof fn lemma_newline_count_bounded(bytes: Seq<u8>)
    ensures
        newline_count(bytes) <= bytes.len(),
    decreases bytes.len(),
{
    if bytes.len() > 0 {
        lemma_newline_count_bounded(bytes.drop_last());
    }
}

/// A content without a newline byte has no line.
pub proof fn lemma_no_newline_no_line(bytes: Seq<u8>)
    requires
        forall|i: int| 0 <= i < bytes.len() ==> bytes[i] != NEWLINE,
    ensures
        newline_count(bytes) == 0,
    decreases bytes.len(),
{
    if bytes.len() > 0 {
        let front = bytes.drop_last();
        assert forall|i: int| 0 <= i < front.len() implies front[i] != NEWLINE by {
            assert(front[i] == bytes[i]);
        }
        lemma_no_newline_no_line(front);
    }
}

/// A content of newline bytes only has as many lines as bytes.
pub proof fn lemma_all_newlines(bytes: Seq<u8>)
    requires
        forall|i: int| 0 <= i < bytes.len() ==> bytes[i] == NEWLINE,
    ensures
        newline_count(bytes) == bytes.len(),
    decreases bytes.len(),
{
    if bytes.len() > 0 {
        let front = bytes.drop_last();
        assert forall|i: int| 0 <= i < front.len() implies front[i] == NEWLINE by {
            assert(front[i] == bytes[i]);
        }
        lemma_all_newlines(front);
    }
}

/// What follows the last newline byte is not counted: a content counts what
/// it counts without its unfinished last line.
pub proof fn lemma_unfinished_line_not_counted(lines: Seq<u8>, rest: Seq<u8>)
    requires
        forall|i: int| 0 <= i < rest.len() ==> rest[i] != NEWLINE,
    ensures
        newline_count(lines + rest) == newline_count(lines),
{
    lemma_newline_count_concat(lines, rest);
    lemma_no_newline_no_line(rest);
}

/// What has to be read of a file for a kind of count.
pub fn reading_for(count_type: CountType) -> (reading: Reading)
    ensures
        reading == reading_of(count_type),
{
    match count_type {
        CountType::Files => Reading::Nothing,
        CountType::Bytes => Reading::Size,
        CountType::Lines => Reading::Lines,
    }
}

/// The metric of a file of which `read` was read: 1 where files are counted,
/// whatever was read; else what was read.
pub fn read_metric(count_type: CountType, read: u64) -> (metric: u64)
    ensures
        metric == metric_of(count_type, read),
{
    match count_type {
        CountType::Files => 1,
        CountType::Bytes => read,
        CountType::Lines => read,
    }
}

/// The number of newline bytes in `chunk`.
pub fn count_newlines(chunk: &[u8]) -> (count: usize)
    ensures
        count == newline_count(chunk@),
{
    let mut count: usize = 0;
    let mut i: usize = 0;
    assert(chunk@.take(0) =~= Seq::<u8>::empty());
    while i < chunk.len()
        invariant
            i <= chunk@.len(),
            count <= i,
            count == newline_count(chunk@.take(i as int)),
        decreases chunk@.len() - i,
    {
        assert(chunk@.take(i + 1).drop_last() =~= chunk@.take(i as int));
        if chunk[i] == NEWLINE {
            count += 1;
        }
        i += 1;
    }
    assert(chunk@.take(chunk@.len() as int) =~= chunk@);
    count
}

/// The lines of a file that is read chunk by chunk. The number of lines is
/// that of all that was read, wherever the reads cut the content.
pub struct LineCounter {
    lines: u64,
    seen: Ghost<Seq<u8>>,
}

impl LineCounter {
    /// All that was read so far.
    pub closed spec fn content(&self) -> Seq<u8> {
        self.seen@
    }

    /// The number of lines counted so far.
    pub closed spec fn counted(&self) -> u64 {
        self.lines
    }

    /// Whether what is counted is the number of lines of what was read.
    pub open spec fn wf(&self) -> bool {
        self.counted() == newline_count(self.content())
    }

    /// Whether `chunk` can be taken in: whether the number of lines still
    /// fits in 64 bits.
    pub open spec fn accepts(&self, chunk: Seq<u8>) -> bool {
        self.counted() + newline_count(chunk) <= u64::MAX
    }

    /// A counter for a file of which nothing was read yet.
    pub fn new() -> (counter: LineCounter)
        ensures
            counter.wf(),
            counter.content() == Seq::<u8>::empty(),
            counter.counted() == 0,
    {
        LineCounter { lines: 0, seen: Ghost(Seq::empty()) }
    }

    /// The number of lines counted so far.
    pub fn lines(&self) -> (lines: u64)
        ensures
            lines == self.counted(),
    {
        self.lines
    }

    /// Whether a chunk of `len` bytes can be taken in whatever it holds.
    pub fn has_room_for(&self, len: usize) -> (room: bool)
        ensures
            room == (self.counted() + len <= u64::MAX),
    {
        len as u64 <= u64::MAX - self.lines
    }

    /// Takes in what one read returned and says whether to read on: a read
    /// that returns nothing is the end of the file; one that returns less
    /// than was asked for is not.
    pub fn feed(&mut self, chunk: &[u8]) -> (more: bool)
        requires
            old(self).wf(),
            old(self).accepts(chunk@),
        ensures
            final(self).wf(),
            final(self).content() == old(self).content() + chunk@,
            final(self).counted() == old(self).counted() + newline_count(chunk@),
            more == (chunk@.len() > 0),
    {
        let found = count_newlines(chunk);
        proof {
            lemma_newline_count_concat(self.seen@, chunk@);
        }
        self.lines = self.lines + found as u64;
        self.seen = Ghost(self.seen@ + chunk@);
        chunk.len() > 0
    }
}

/// The number of lines of a file whose whole content is `content`.
pub fn count_lines(content: &[u8]) -> (lines: u64)
    ensures
        lines == newline_count(content@),
{
    proof {
        lemma_newline_count_bounded(content@);
    }
    count_newlines(content) as u64
}

} // verus!
