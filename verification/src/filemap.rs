//! Storage of a source file together with the beginnings of its lines.
use vstd::prelude::*;
use vstd::utf8::*;
use vstd::string::StringSliceAdditionalSpecFns;

use crate::pos::{BytePos, ColIdx, LineIdx, Loc};

verus! {

broadcast use vstd::utf8::group_utf8_lib;

/// Stores the content of a file and keeps track of some position meta data,
/// such as linebreaks.
pub struct FileMap {
    /// Original filename or dummy filename of the form "<...>"
    filename: String,
    /// The whole content of the file
    src: String,
    /// List of line beginnings (byte offsets).
    lines: Vec<BytePos>,
}

/// The mathematical content of a `FileMap`.
pub struct FileMapView {
    pub filename: Seq<char>,
    pub src: Seq<char>,
    pub lines: Seq<BytePos>,
}

/// Index of the first `\n` byte at or after `from`, or the length of `bytes`
/// if there is none.
pub open spec fn first_newline_from(bytes: Seq<u8>, from: int) -> int
    decreases bytes.len() - from,
{
    if from >= bytes.len() {
        bytes.len() as int
    } else if bytes[from] == 10u8 {
        from
    } else {
        first_newline_from(bytes, from + 1)
    }
}

/// The line starts that a scan of `bytes[from..to]` for `\n` bytes finds:
/// one entry per `\n` at byte `q`, holding the byte offset `q + 1` of the
/// line after it.
pub open spec fn newline_starts(bytes: Seq<u8>, from: int, to: int) -> Seq<BytePos>
    decreases to - from,
{
    if to <= from {
        Seq::empty()
    } else if bytes[to - 1] == 10u8 {
        newline_starts(bytes, from, to - 1).push(BytePos(to as u32))
    } else {
        newline_starts(bytes, from, to - 1)
    }
}

impl FileMapView {
    /// The UTF-8 encoding of the source.
    pub open spec fn bytes(self) -> Seq<u8> {
        encode_utf8(self.src)
    }

    /// Well-formedness: the first line starts at offset zero, and the number
    /// of lines can be counted in a `u32`.
    pub open spec fn wf(self) -> bool {
        &&& self.lines.len() >= 1
        &&& self.lines[0].0 == 0
        &&& self.lines.len() <= u32::MAX
    }

    /// Line beginnings can be searched from the latest one on: it lies at a
    /// char boundary within the source, and the lines that can still be
    /// found after it, as well as every byte offset, can be counted in a
    /// `u32`.
    pub open spec fn search_ready(self) -> bool {
        &&& self.wf()
        &&& self.lines.last().0 <= self.bytes().len()
        &&& is_char_boundary(self.bytes(), self.lines.last().0 as int)
        &&& self.bytes().len() < u32::MAX
        &&& self.lines.len() + (self.bytes().len() - self.lines.last().0) <= u32::MAX
    }

    /// The line beginnings are in ascending order.
    pub open spec fn lines_sorted(self) -> bool {
        forall|i: int, j: int|
            0 <= i <= j < self.lines.len() ==> #[trigger] self.lines[i].0 <= #[trigger] self.lines[j].0
    }

    /// `i` is the index of the line in which the byte at `offset` lives: the
    /// last line that starts at or before `offset`.
    pub open spec fn is_line_of(self, i: int, offset: u32) -> bool {
        &&& 0 <= i < self.lines.len()
        &&& self.lines[i].0 <= offset
        &&& (i + 1 == self.lines.len() || self.lines[i + 1].0 > offset)
    }

    /// The index of the line in which the byte at `offset` lives.
    pub open spec fn line_of(self, offset: u32) -> int {
        choose|i: int| self.is_line_of(i, offset)
    }
}

impl View for FileMap {
    type V = FileMapView;

    closed spec fn view(&self) -> FileMapView {
        FileMapView { filename: self.filename@, src: self.src@, lines: self.lines@ }
    }
}

/// With sorted line beginnings there is exactly one line for every offset.
pub proof fn lemma_line_of_unique(m: FileMapView, offset: u32, i: int, j: int)
    requires
        m.lines_sorted(),
        m.is_line_of(i, offset),
        m.is_line_of(j, offset),
    ensures
        i == j,
{
    if i < j {
        assert(m.lines[i + 1].0 <= m.lines[j].0);
    } else if j < i {
        assert(m.lines[j + 1].0 <= m.lines[i].0);
    }
}

impl FileMap {
    /// Creates a new Filemap from existing buffers for the filename and
    /// content of the file.
    pub fn new(filename: &str, src: &str) -> (r: FileMap)
        ensures
            r@.filename == filename@,
            r@.src == src@,
            r@.lines == seq![BytePos(0)],
            r@.wf(),
    {
        FileMap { filename: filename.to_owned(), src: src.to_owned(), lines: vec![BytePos(0)] }
    }

    /// The name of the file.
    pub fn filename(&self) -> (r: &str)
        ensures
            r@ == self@.filename,
    {
        self.filename.as_str()
    }

    /// The whole content of the file.
    pub fn src(&self) -> (r: &str)
        ensures
            r@ == self@.src,
    {
        self.src.as_str()
    }

    /// The list of line beginnings found so far.
    pub fn lines(&self) -> (r: &[BytePos])
        ensures
            r@ == self@.lines,
    {
        self.lines.as_slice()
    }

    /// Adds a new line beginning with the given BytePos to the list. Line
    /// beginnings need to be added in order!
    pub fn add_line(&mut self, offset: BytePos)
        requires
            old(self)@.wf(),
            old(self)@.lines.last().0 <= offset.0,
            old(self)@.lines.len() < u32::MAX,
        ensures
            final(self)@.lines == old(self)@.lines.push(offset),
            final(self)@.filename == old(self)@.filename,
            final(self)@.src == old(self)@.src,
            final(self)@.wf(),
            old(self)@.lines_sorted() ==> final(self)@.lines_sorted(),
    {
        self.lines.push(offset);
    }


    /// Splits the file map into its source text and its mutable list of
    /// line beginnings, so that the lexer can record line beginnings while
    /// handing out parts of the source.
    pub(crate) fn lexer_parts(&mut self) -> (r: (&str, &mut Vec<BytePos>))
        ensures
            r.0@ == old(self)@.src,
            (*r.1)@ == old(self)@.lines,
            final(self)@.src == old(self)@.src,
            final(self)@.filename == old(self)@.filename,
            final(self)@.lines == (*final(r.1))@,
    {
        (self.src.as_str(), &mut self.lines)
    }

    /// Returns the number of lines.
    pub fn num_lines(&self) -> (r: usize)
        ensures
            r == self@.lines.len(),
    {
        self.lines.len()
    }

    /// Returns the (0-based) index of the line in which the byte with the
    /// given `offset` lives.
    pub fn get_line_idx(&self, offset: BytePos) -> (r: LineIdx)
        requires
            self@.wf(),
        ensures
            0 <= r.0 < self@.lines.len(),
            self@.lines[r.0 as int].0 <= offset.0,
            self@.lines_sorted() ==> self@.is_line_of(r.0 as int, offset.0),
            self@.lines_sorted() ==> r.0 == self@.line_of(offset.0),
    {
        let n = self.lines.len();
        let mut lo: usize = 0;
        let mut hi: usize = n;
        while hi - lo > 1
            invariant
                self@.wf(),
                n == self@.lines.len(),
                0 <= lo < hi <= n,
                self@.lines[lo as int].0 <= offset.0,
                self@.lines_sorted() ==> (hi == n || self@.lines[hi as int].0 > offset.0),
            decreases hi - lo,
        {
            let mid = lo + (hi - lo) / 2;
            if self.lines[mid].0 <= offset.0 {
                lo = mid;
            } else {
                hi = mid;
            }
        }
        proof {
            if self@.lines_sorted() {
                lemma_line_of_unique(self@, offset.0, lo as int, self@.line_of(offset.0));
            }
        }
        LineIdx(lo as u32)
    }

    /// Returns the location of the given bytes as line and col numbers within
    /// this file.
    pub fn get_loc(&self, offset: BytePos) -> (r: Loc)
        requires
            self@.wf(),
        ensures
            0 <= r.line.0 < self@.lines.len(),
            self@.lines[r.line.0 as int].0 <= offset.0,
            r.col.0 == offset.0 - self@.lines[r.line.0 as int].0,
            self@.lines_sorted() ==> r.line.0 == self@.line_of(offset.0),
    {
        let line = self.get_line_idx(offset);
        let col = offset - self.lines[line.0 as usize];
        Loc { line: line, col: ColIdx(col.0) }
    }

    /// Returns the line with the given index or `None` if it is invalid.
    pub fn get_line(&self, line: LineIdx) -> (r: Option<&str>)
        requires
            line.0 < self@.lines.len() ==> {
                &&& self@.lines[line.0 as int].0 <= self@.bytes().len()
                &&& is_char_boundary(self@.bytes(), self@.lines[line.0 as int].0 as int)
            },
        ensures
            line.0 >= self@.lines.len() ==> r is None,
            line.0 < self@.lines.len() ==> (r matches Some(s) && s.spec_bytes()
                == self@.bytes().subrange(
                self@.lines[line.0 as int].0 as int,
                first_newline_from(self@.bytes(), self@.lines[line.0 as int].0 as int),
            )),
    {
        if line.0 as usize >= self.lines.len() {
            return None;
        }
        let start = self.lines[line.0 as usize].0 as usize;
        let s = self.src.as_str();
        let bytes = s.as_bytes();
        let ghost all = s.spec_bytes();
        proof {
            encode_utf8_valid_utf8(s@);
        }
        let mut end = start;
        while end < bytes.len() && bytes[end] != 10u8
            invariant
                bytes@ == all,
                start <= end <= all.len(),
                first_newline_from(all, start as int) == first_newline_from(all, end as int),
            decreases all.len() - end,
        {
            end = end + 1;
        }
        let (_, rest) = s.split_at(start);
        proof {
            assert(rest.spec_bytes() =~= all.subrange(start as int, all.len() as int));
            encode_utf8_valid_utf8(rest@);
            is_char_boundary_start_end_of_seq(rest.spec_bytes());
            if end < all.len() {
                is_char_boundary_iff_is_leading_byte(rest.spec_bytes(), end - start);
            }
        }
        let (text, _) = rest.split_at(end - start);
        proof {
            assert(text.spec_bytes() =~= all.subrange(start as int, end as int));
        }
        Some(text)
    }

    /// Returns the byte offset of the first symbol in `line`
    pub fn get_line_start(&self, line: LineIdx) -> (r: Option<BytePos>)
        ensures
            line.0 >= self@.lines.len() ==> r is None,
            line.0 < self@.lines.len() ==> r == Some(self@.lines[line.0 as int]),
    {
        if (line.0 as usize) < self.lines.len() {
            Some(self.lines[line.0 as usize])
        } else {
            None
        }
    }

    /// Searches for line endings and collects all line beginnings in the
    /// source string. It starts searching at the latest line beginning in the
    /// list so far (or at the beginning if none was added yet) and records
    /// the byte offset of each line beginning it finds after it.
    ///
    /// Normally this is done while lexing to avoid iterating
    /// over the whole string multiple times. Mostly handy for tests.
    pub fn find_lines(&mut self)
        requires
            old(self)@.search_ready(),
        ensures
            final(self)@.filename == old(self)@.filename,
            final(self)@.src == old(self)@.src,
            final(self)@.lines == old(self)@.lines + newline_starts(
                old(self)@.bytes(),
                old(self)@.lines.last().0 as int,
                old(self)@.bytes().len() as int,
            ),
            final(self)@.wf(),
            old(self)@.lines_sorted() ==> final(self)@.lines_sorted(),
            final(self)@.search_ready(),
            newline_starts(
                final(self)@.bytes(),
                final(self)@.lines.last().0 as int,
                final(self)@.bytes().len() as int,
            ) == Seq::<BytePos>::empty(),
    {
        let last = self.lines[self.lines.len() - 1].0 as usize;
        let bytes = self.src.as_str().as_bytes();
        let ghost all = self@.bytes();
        let ghost old_lines = self@.lines;
        let n = bytes.len();
        proof {
            encode_utf8_valid_utf8(self@.src);
        }
        let mut q = last;
        while q < n
            invariant
                bytes@ == all,
                n == all.len(),
                last <= q <= n,
                self@.filename == old(self)@.filename,
                self@.src == old(self)@.src,
                all.len() < u32::MAX,
                valid_utf8(all),
                self.lines@ == old_lines + newline_starts(all, last as int, q as int),
                self.lines@.len() <= old_lines.len() + (q - last),
                self.lines@.last().0 <= q,
                is_char_boundary(all, self.lines@.last().0 as int),
                forall|p: int| self.lines@.last().0 <= p < q ==> all[p] != 10u8,
                self.lines@.len() + (n - self.lines@.last().0) <= old_lines.len() + (n - last),
                old_lines.len() + (n - last) <= u32::MAX,
                old_lines.len() >= 1,
                old_lines[0].0 == 0,
                last == old_lines.last().0,
                old_lines == old(self)@.lines,
                forall|k: int| 0 <= k < newline_starts(all, last as int, q as int).len()
                    ==> last < (#[trigger] newline_starts(all, last as int, q as int)[k]).0 <= q,
                forall|k: int, l: int| 0 <= k < l < newline_starts(all, last as int, q as int).len()
                    ==> (#[trigger] newline_starts(all, last as int, q as int)[k]).0
                        < (#[trigger] newline_starts(all, last as int, q as int)[l]).0,
                old(self)@.lines_sorted() ==> self@.lines_sorted(),
            decreases n - q,
        {
            if bytes[q] == 10u8 {
                let ghost before = self.lines@;
                self.lines.push(BytePos((q + 1) as u32));
                proof {
                    lemma_boundary_after_ascii(all, q as int);
                    let ns = newline_starts(all, last as int, q as int);
                    if old(self)@.lines_sorted() {
                        assert forall|i: int| 0 <= i < before.len() implies before[i].0 <= q by {
                            if i >= old_lines.len() {
                                assert(before[i] == ns[i - old_lines.len()]);
                            } else {
                                assert(old_lines[i].0 <= old_lines[old_lines.len() - 1].0);
                            }
                        }
                        assert forall|i: int, j: int|
                            0 <= i <= j < self.lines@.len() implies #[trigger] self.lines@[i].0
                            <= #[trigger] self.lines@[j].0 by {
                            if j < before.len() {
                                assert(before[i] == self.lines@[i] && before[j] == self.lines@[j]);
                            }
                        }
                    }
                }
            }
            q = q + 1;
            proof {
                assert(self.lines@ =~= old_lines + newline_starts(all, last as int, q as int));
            }
        }
        proof {
            lemma_no_newline_no_starts(all, self.lines@.last().0 as int, n as int);
        }
    }
}

/// In UTF-8 text, the position right after an ASCII byte is a char boundary.
proof fn lemma_boundary_after_ascii(bytes: Seq<u8>, q: int)
    requires
        valid_utf8(bytes),
        0 <= q < bytes.len(),
        bytes[q] < 0x80,
    ensures
        is_char_boundary(bytes, q + 1),
    decreases bytes.len(),
{
    let w = length_of_first_scalar(bytes);
    let rest = pop_first_scalar(bytes);
    assert(valid_first_scalar(bytes) && valid_utf8(rest));
    assert(1 <= w <= bytes.len());
    assert(rest.len() == bytes.len() - w);
    if q + 1 == w {
        is_char_boundary_start_end_of_seq(rest);
    } else if q + 1 > w {
        assert(rest[q - w] == bytes[q]);
        lemma_boundary_after_ascii(rest, q - w);
    } else {
        assert(is_continuation_byte(bytes[q]));
    }
}

/// Without a `\n` in `bytes[from..to]` the scan finds no line start.
proof fn lemma_no_newline_no_starts(bytes: Seq<u8>, from: int, to: int)
    requires
        forall|q: int| from <= q < to ==> bytes[q] != 10u8,
    ensures
        newline_starts(bytes, from, to) == Seq::<BytePos>::empty(),
    decreases to - from,
{
    if to > from {
        lemma_no_newline_no_starts(bytes, from, to - 1);
    }
}

/// The scan of `bytes[from..to]` finds nothing iff there is no `\n` in it;
/// otherwise the last line start it finds is not followed by any `\n`.
proof fn lemma_newline_starts_last(bytes: Seq<u8>, from: int, to: int)
    requires
        0 <= from <= to <= bytes.len(),
        to < u32::MAX,
    ensures
        newline_starts(bytes, from, to).len() == 0 ==> forall|q: int| from <= q < to ==> bytes[q] != 10u8,
        newline_starts(bytes, from, to).len() > 0 ==> {
            let s = newline_starts(bytes, from, to).last().0 as int;
            &&& from < s <= to
            &&& forall|q: int| s <= q < to ==> bytes[q] != 10u8
        },
    decreases to - from,
{
    if to > from {
        lemma_newline_starts_last(bytes, from, to - 1);
    }
}

/// Searching for line starts twice finds nothing new the second time: after
/// `find_lines`, no `\n` follows the latest line start. (`find_lines` also
/// leaves the file map ready for a second search, whose contract then adds
/// the empty sequence.)
pub proof fn lemma_find_lines_idempotent(m: FileMapView)
    requires
        m.search_ready(),
    ensures
        ({
            let found = m.lines + newline_starts(m.bytes(), m.lines.last().0 as int, m.bytes().len() as int);
            newline_starts(m.bytes(), found.last().0 as int, m.bytes().len() as int) == Seq::<BytePos>::empty()
        }),
{
    let b = m.bytes();
    let last = m.lines.last().0 as int;
    let ns = newline_starts(b, last, b.len() as int);
    let found = m.lines + ns;
    lemma_newline_starts_last(b, last, b.len() as int);
    if ns.len() == 0 {
        assert(found.last() == m.lines.last());
    } else {
        assert(found.last() == ns.last());
    }
    lemma_no_newline_no_starts(b, found.last().0 as int, b.len() as int);
}

} // verus!
