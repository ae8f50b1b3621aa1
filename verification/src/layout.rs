//! How a report is laid out on the terminal: the line numbers in its header,
//! how the text of each remark is wrapped, and which parts of the source a
//! snippet shows. Writing the result out (with colors) is left to the caller.
use vstd::prelude::*;
use vstd::string::StringSliceAdditionalSpecFns;

use crate::filemap::{first_newline_from, FileMap, FileMapView};
use vstd::utf8::{encode_utf8, is_char_boundary, is_continuation_byte};
use crate::lexer::{char_is_whitespace, is_whitespace};
use crate::pos::LineIdx;
use crate::pos::Span;
use crate::report::{snippet_span, Remark, RemarkKind, Report, Snippet};
use crate::text::{
    byte_offset, char_range, collect_chars, len_utf8, lemma_byte_offset_full,
    lemma_byte_offset_mono, lemma_byte_offset_step,
};

verus! {

/// Options for printing on the terminal. By `default()` everything is enabled.
#[derive(Clone, Copy, PartialEq, Eq, Debug, Structural)]
pub struct PrintOptions {
    /// Use of unicode allowed?
    pub unicode: bool,
    /// Use of colors allowed?
    pub color: bool,
    /// Is line wrapping allowed?
    pub line_wrap: bool,
}

impl Default for PrintOptions {
    fn default() -> (r: Self)
        ensures
            r == (PrintOptions { unicode: true, color: true, line_wrap: true }),
    {
        PrintOptions { unicode: true, color: true, line_wrap: true }
    }
}

/// The lines that the header of a report names.
#[derive(Clone, Copy, PartialEq, Eq, Debug, Structural)]
pub enum HeaderLines {
    /// The report has no span.
    NoSpan,
    /// The report's span is the dummy span.
    Dummy,
    /// The span starts and ends in this line.
    Single(LineIdx),
    /// The span starts in the first and ends in the second line.
    Range(LineIdx, LineIdx),
}

/// Which lines the header of `rep` names: none without a span, a marker for
/// the dummy span, else the lines of the span's start and end (one line if
/// they are the same).
pub fn header_lines(rep: &Report, src: &FileMap) -> (r: HeaderLines)
    requires
        src@.wf(),
    ensures
        match rep.span {
            None => r == HeaderLines::NoSpan,
            Some(sp) => if sp.spec_is_dummy() {
                r == HeaderLines::Dummy
            } else {
                match r {
                    HeaderLines::Single(l) => {
                        &&& src@.lines_sorted() ==> l.0 == src@.line_of(sp.lo.0)
                        &&& src@.lines_sorted() ==> l.0 == src@.line_of(sp.hi.0)
                    },
                    HeaderLines::Range(a, b) => {
                        &&& a != b
                        &&& src@.lines_sorted() ==> a.0 == src@.line_of(sp.lo.0)
                        &&& src@.lines_sorted() ==> b.0 == src@.line_of(sp.hi.0)
                    },
                    _ => false,
                }
            },
        },
{
    match rep.span {
        None => HeaderLines::NoSpan,
        Some(span) => {
            if span.is_dummy() {
                HeaderLines::Dummy
            } else {
                let start = src.get_loc(span.lo);
                let end = src.get_loc(span.hi);
                if start.line != end.line {
                    HeaderLines::Range(start.line, end.line)
                } else {
                    HeaderLines::Single(start.line)
                }
            }
        },
    }
}

/// The title of a remark of the given kind, and its length in chars.
pub fn remark_title(kind: RemarkKind) -> (r: (&'static str, usize))
    ensures
        r.1 == r.0@.len(),
        r.1 == remark_title_len(kind),
        kind == RemarkKind::Error ==> r.0@ == "error:"@,
        kind == RemarkKind::Warning ==> r.0@ == "warning:"@,
        kind == RemarkKind::Note ==> r.0@ == "note:"@,
{
    proof {
        reveal_strlit("error:");
        reveal_strlit("warning:");
        reveal_strlit("note:");
    }
    match kind {
        RemarkKind::Error => ("error:", 6),
        RemarkKind::Warning => ("warning:", 8),
        RemarkKind::Note => ("note:", 5),
    }
}

/// The words of `cs[i..]` that `str::split_whitespace` finds, when a word
/// started at `start` (if any) is still open at `i`: the maximal runs of
/// chars that are not whitespace.
pub open spec fn words_from(cs: Seq<char>, i: int, start: Option<int>) -> Seq<Seq<char>>
    decreases cs.len() - i,
{
    if i >= cs.len() {
        match start {
            Some(s) => seq![cs.subrange(s, cs.len() as int)],
            None => Seq::empty(),
        }
    } else if char_is_whitespace(cs[i]) {
        match start {
            Some(s) => seq![cs.subrange(s, i)] + words_from(cs, i + 1, None),
            None => words_from(cs, i + 1, None),
        }
    } else {
        words_from(cs, i + 1, if start is None { Some(i) } else { start })
    }
}

/// The words of `cs`, split at whitespace.
pub open spec fn words(cs: Seq<char>) -> Seq<Seq<char>> {
    words_from(cs, 0, None)
}

/// Splits `s` into its words, as `str::split_whitespace` does.
pub fn split_words<'a>(s: &'a str) -> (r: Vec<&'a str>)
    ensures
        r@.map_values(|w: &str| w@) == words(s@),
{
    let chs = collect_chars(s);
    let total = s.as_bytes().len();
    let ghost cs = s@;
    let n = chs.len();
    let mut out: Vec<&'a str> = Vec::new();
    let mut i: usize = 0;
    let mut pos: usize = 0;
    let mut start: Option<(usize, usize)> = None;
    proof {
        lemma_byte_offset_full(cs);
    }
    while i < n
        invariant
            chs@ == cs,
            cs == s@,
            n == cs.len(),
            0 <= i <= n,
            pos == byte_offset(cs, i as int),
            byte_offset(cs, n as int) == total,
            match start {
                Some((a, lo)) => a < i && lo == byte_offset(cs, a as int),
                None => true,
            },
            out@.map_values(|w: &str| w@) + words_from(
                cs,
                i as int,
                match start {
                    Some((a, _)) => Some(a as int),
                    None => None,
                },
            ) == words(cs),
        decreases n - i,
    {
        let c = chs[i];
        let ghost before = out@.map_values(|w: &str| w@);
        proof {
            lemma_byte_offset_step(cs, i as int);
            lemma_byte_offset_mono(cs, i as int + 1, n as int);
        }
        if is_whitespace(c) {
            if let Some((a, lo)) = start {
                let w = char_range(s, lo, pos, Ghost(a as int), Ghost(i as int));
                out.push(w);
                proof {
                    assert(out@.map_values(|w: &str| w@) =~= before.push(cs.subrange(a as int, i as int)));
                    assert(before + words_from(cs, i as int, Some(a as int)) == before + (seq![cs.subrange(a as int, i as int)] + words_from(cs, i + 1, None)));
                    assert(before + (seq![cs.subrange(a as int, i as int)] + words_from(cs, i + 1, None)) =~= before.push(cs.subrange(a as int, i as int)) + words_from(cs, i + 1, None));
                }
            }
            start = None;
        } else if start.is_none() {
            start = Some((i, pos));
        }
        pos = pos + len_utf8(c) as usize;
        i = i + 1;
    }
    if let Some((a, lo)) = start {
        let ghost before = out@.map_values(|w: &str| w@);
        let w = char_range(s, lo, pos, Ghost(a as int), Ghost(n as int));
        out.push(w);
        proof {
            assert(out@.map_values(|w: &str| w@) =~= before.push(cs.subrange(a as int, n as int)));
            assert(before + words_from(cs, n as int, Some(a as int)) =~= before.push(cs.subrange(a as int, n as int)));
        }
    } else {
        proof {
            assert(out@.map_values(|w: &str| w@) + words_from(cs, n as int, None) =~= out@.map_values(|w: &str| w@));
        }
    }
    out
}

/// Every word of `cs[i..]` is at most as long as `cs`.
proof fn lemma_words_from_short(cs: Seq<char>, i: int, start: Option<int>)
    requires
        0 <= i <= cs.len(),
        start matches Some(s) ==> 0 <= s <= i,
    ensures
        forall|k: int|
            0 <= k < words_from(cs, i, start).len() ==> #[trigger] words_from(cs, i, start)[k].len()
                <= cs.len(),
    decreases cs.len() - i,
{
    if i < cs.len() {
        if char_is_whitespace(cs[i]) {
            lemma_words_from_short(cs, i + 1, None);
            if let Some(s) = start {
                let rest = words_from(cs, i + 1, None);
                assert(words_from(cs, i, start) == seq![cs.subrange(s, i)] + rest);
                assert forall|k: int| 0 <= k < words_from(cs, i, start).len() implies #[trigger] words_from(cs, i, start)[k].len()
                    <= cs.len() by {
                    if k > 0 {
                        assert(words_from(cs, i, start)[k] == rest[k - 1]);
                    }
                }
            }
            if start is None {
                assert(words_from(cs, i, start) == words_from(cs, i + 1, None));
            }
        } else {
            let next = if start is None { Some(i) } else { start };
            lemma_words_from_short(cs, i + 1, next);
            assert(words_from(cs, i, start) == words_from(cs, i + 1, next));
        }
    } else {
        if let Some(s) = start {
            assert(words_from(cs, i, start) == seq![cs.subrange(s, cs.len() as int)]);
            assert(words_from(cs, i, start)[0].len() <= cs.len());
        }
    }
}

/// Width of the column in which the text of a remark with a title of
/// `title_len` chars is printed: 80 columns minus the indentation (spaces,
/// big arrow, spaces, title, space).
pub open spec fn block_width(title_len: int) -> int {
    80 - (6 + 6 + 2 + title_len + 1)
}

/// A word of `len` chars starts a new line when the current line already
/// holds `col` columns, is not empty, and the word would reach the width.
pub open spec fn breaks_before(col: int, len: int, width: int) -> bool {
    col + len >= width && col != 0
}

/// The columns that the line holds after the word (and one space).
pub open spec fn col_after(col: int, len: int, width: int) -> int {
    (if breaks_before(col, len, width) { 0 } else { col }) + len + 1
}

/// For each of `ws`, laid out from column `col` on, whether it starts a new
/// line.
pub open spec fn line_breaks(ws: Seq<Seq<char>>, col: int, width: int) -> Seq<bool>
    decreases ws.len(),
{
    if ws.len() == 0 {
        Seq::empty()
    } else {
        seq![breaks_before(col, ws[0].len() as int, width)] + line_breaks(
            ws.drop_first(),
            col_after(col, ws[0].len() as int, width),
            width,
        )
    }
}

/// There is one entry per word.
proof fn lemma_line_breaks_len(ws: Seq<Seq<char>>, col: int, width: int)
    ensures
        line_breaks(ws, col, width).len() == ws.len(),
    decreases ws.len(),
{
    if ws.len() > 0 {
        lemma_line_breaks_len(ws.drop_first(), col_after(col, ws[0].len() as int, width), width);
    }
}

/// The columns taken by the words `i` up to `j - 1`, each followed by one
/// space.
pub open spec fn span_cols(ws: Seq<Seq<char>>, i: int, j: int) -> int
    decreases j - i,
{
    if j <= i {
        0
    } else {
        span_cols(ws, i, j - 1) + ws[j - 1].len() + 1
    }
}

/// The column at which the word `k` of `ws` is laid out, starting at `col`.
spec fn col_before(ws: Seq<Seq<char>>, col: int, width: int, k: int) -> int
    decreases k,
{
    if k <= 0 {
        col
    } else {
        col_after(col_before(ws, col, width, k - 1), ws[k - 1].len() as int, width)
    }
}

/// Laying out the words after the first from the column after the first.
proof fn lemma_col_before_rest(ws: Seq<Seq<char>>, col: int, width: int, k: int)
    requires
        1 <= k <= ws.len(),
    ensures
        col_before(ws, col, width, k) == col_before(
            ws.drop_first(),
            col_after(col, ws[0].len() as int, width),
            width,
            k - 1,
        ),
    decreases k,
{
    let c1 = col_after(col, ws[0].len() as int, width);
    if k > 1 {
        lemma_col_before_rest(ws, col, width, k - 1);
        assert(ws.drop_first()[k - 2] == ws[k - 1]);
        assert(col_before(ws.drop_first(), c1, width, k - 1) == col_after(
            col_before(ws.drop_first(), c1, width, k - 2),
            ws.drop_first()[k - 2].len() as int,
            width,
        ));
    } else {
        assert(col_before(ws, col, width, 0) == col);
        assert(col_before(ws.drop_first(), c1, width, 0) == c1);
    }
}

/// Whether a word starts a new line depends on the column it is laid out at.
proof fn lemma_line_breaks_at(ws: Seq<Seq<char>>, col: int, width: int, k: int)
    requires
        0 <= k < ws.len(),
    ensures
        line_breaks(ws, col, width)[k] == breaks_before(
            col_before(ws, col, width, k),
            ws[k].len() as int,
            width,
        ),
    decreases ws.len(),
{
    if k > 0 {
        let c1 = col_after(col, ws[0].len() as int, width);
        lemma_line_breaks_at(ws.drop_first(), c1, width, k - 1);
        lemma_col_before_rest(ws, col, width, k);
        lemma_line_breaks_len(ws.drop_first(), c1, width);
        assert(ws.drop_first()[k - 1] == ws[k]);
        assert(line_breaks(ws, col, width)[k] == line_breaks(ws.drop_first(), c1, width)[k - 1]);
    }
}

/// Within a line that starts at word `i`, the column after word `j - 1` is
/// the width of the words `i` up to `j - 1`, each with its space.
proof fn lemma_col_within_line(ws: Seq<Seq<char>>, width: int, i: int, j: int)
    requires
        0 <= i < j <= ws.len(),
        i == 0 || line_breaks(ws, 0, width)[i],
        forall|t: int| i < t < j ==> !(#[trigger] line_breaks(ws, 0, width)[t]),
    ensures
        col_before(ws, 0, width, j) == span_cols(ws, i, j),
        span_cols(ws, i, j) >= 1,
    decreases j - i,
{
    if j == i + 1 {
        if i > 0 {
            lemma_line_breaks_at(ws, 0, width, i);
        } else {
            assert(col_before(ws, 0, width, 0) == 0);
        }
        assert(span_cols(ws, i, i) == 0);
        assert(span_cols(ws, i, j) == ws[i].len() + 1);
    } else {
        lemma_col_within_line(ws, width, i, j - 1);
        lemma_line_breaks_at(ws, 0, width, j - 1);
        assert(!line_breaks(ws, 0, width)[j - 1]);
    }
}

/// Word wrapping is greedy and keeps lines within the block width: the
/// first word starts the first line, and within a line that starts at word
/// `i`, a later word `j` starts a new line exactly when it would not fit,
/// that is when the words `i` up to `j - 1` with their spaces plus word `j`
/// reach `width` columns. So every line of more than one word is narrower
/// than `width`.
pub proof fn lemma_wrapped_lines_fit(ws: Seq<Seq<char>>, width: int)
    ensures
        line_breaks(ws, 0, width).len() == ws.len(),
        ws.len() > 0 ==> !line_breaks(ws, 0, width)[0],
        forall|i: int, j: int|
            #![trigger line_breaks(ws, 0, width)[i], line_breaks(ws, 0, width)[j]]
            0 <= i < j < ws.len() && (i == 0 || line_breaks(ws, 0, width)[i]) && (forall|t: int|
                i < t < j ==> !(#[trigger] line_breaks(ws, 0, width)[t])) ==> (line_breaks(
                ws,
                0,
                width,
            )[j] <==> span_cols(ws, i, j) + ws[j].len() >= width),
{
    lemma_line_breaks_len(ws, 0, width);
    if ws.len() > 0 {
        lemma_line_breaks_at(ws, 0, width, 0);
    }
    assert forall|i: int, j: int|
        #![trigger line_breaks(ws, 0, width)[i], line_breaks(ws, 0, width)[j]]
        0 <= i < j < ws.len() && (i == 0 || line_breaks(ws, 0, width)[i]) && (forall|t: int|
            i < t < j ==> !(#[trigger] line_breaks(ws, 0, width)[t])) implies (line_breaks(
        ws,
        0,
        width,
    )[j] <==> span_cols(ws, i, j) + ws[j].len() >= width) by {
        lemma_col_within_line(ws, width, i, j);
        lemma_line_breaks_at(ws, 0, width, j);
    }
}

/// Lays out the description of a remark: its words in order, each with
/// whether it starts a new line of the text block.
pub fn wrap_remark<'a>(rem: &'a Remark) -> (r: Vec<(&'a str, bool)>)
    requires
        rem.desc@.len() <= isize::MAX,
    ensures
        r@.len() == words(rem.desc@).len(),
        forall|k: int|
            0 <= k < r@.len() ==> {
                &&& (#[trigger] r@[k]).0@ == words(rem.desc@)[k]
                &&& r@[k].1 == line_breaks(
                    words(rem.desc@),
                    0,
                    block_width(remark_title_len(rem.kind)),
                )[k]
            },
{
    let (_, title_len) = remark_title(rem.kind);
    let indent = 6 + 6 + 2 + title_len + 1;
    let block_width = 80 - indent;
    let ws = split_words(rem.desc.as_str());
    let ghost wv = ws@.map_values(|w: &str| w@);
    let ghost width = block_width as int;
    proof {
        lemma_words_from_short(rem.desc@, 0, None);
        lemma_line_breaks_len(wv, 0, width);
        assert(wv.skip(0) =~= wv);
        assert(line_breaks(wv, 0, width).skip(0) =~= line_breaks(wv, 0, width));
    }
    let mut out: Vec<(&'a str, bool)> = Vec::new();
    let mut col: usize = 0;
    let mut k: usize = 0;
    while k < ws.len()
        invariant
            wv == words(rem.desc@),
            wv == ws@.map_values(|w: &str| w@),
            width == block_width,
            block_width < 80,
            rem.desc@.len() <= isize::MAX,
            forall|j: int| 0 <= j < wv.len() ==> #[trigger] wv[j].len() <= rem.desc@.len(),
            0 <= k <= ws@.len(),
            col <= 80 || col <= rem.desc@.len() + 1,
            out@.len() == k,
            line_breaks(wv, 0, width).len() == wv.len(),
            forall|j: int|
                0 <= j < k ==> (#[trigger] out@[j]).0@ == wv[j] && out@[j].1 == line_breaks(wv, 0, width)[j],
            line_breaks(wv, 0, width).skip(k as int) == line_breaks(wv.skip(k as int), col as int, width),
        decreases ws@.len() - k,
    {
        let w = ws[k];
        let word_len = w.unicode_len();
        proof {
            assert(wv[k as int] == w@);
        }
        let brk = col + word_len >= block_width && col != 0;
        if brk {
            col = 0;
        }
        col = col + word_len + 1;
        out.push((w, brk));
        proof {
            let bs = line_breaks(wv, 0, width);
            let rest = wv.skip(k as int);
            assert(rest[0] == wv[k as int]);
            assert(rest.drop_first() =~= wv.skip(k + 1));
            assert(bs.skip(k as int)[0] == bs[k as int]);
            assert(bs.skip(k + 1) =~= bs.skip(k as int).drop_first());
        }
        k = k + 1;
    }
    out
}

/// The length of the title of a remark of the given kind.
pub open spec fn remark_title_len(kind: RemarkKind) -> int {
    match kind {
        RemarkKind::Error => 6,
        RemarkKind::Warning => 8,
        RemarkKind::Note => 5,
    }
}

/// One line of a snippet, as UTF-8 bytes: the text before the highlighted
/// part, the highlighted part, and the text after it.
#[derive(Clone, Debug)]
pub struct SnippetLine {
    pub before: Vec<u8>,
    pub middle: Vec<u8>,
    pub after: Vec<u8>,
}

/// The parts of a snippet line as byte sequences.
pub open spec fn parts(l: SnippetLine) -> (Seq<u8>, Seq<u8>, Seq<u8>) {
    (l.before@, l.middle@, l.after@)
}

/// What a snippet shows of the source.
#[derive(Clone, Debug)]
pub enum SnippetLayout {
    /// The span is the dummy span: there is nothing to show.
    Dummy,
    /// The span lies within one line. The line is shown with tabs expanded
    /// to four spaces, and underlined from column `underline_col` on for
    /// `underline_len` columns.
    Single {
        line: LineIdx,
        text: SnippetLine,
        replaced: bool,
        underline_col: usize,
        underline_len: usize,
    },
    /// The span covers several lines; they are shown from `first_line` on.
    Multi { first_line: LineIdx, lines: Vec<SnippetLine>, replaced: bool },
}

/// `bs` with every tab byte replaced by four spaces.
pub open spec fn expand_tabs(bs: Seq<u8>) -> Seq<u8>
    decreases bs.len(),
{
    if bs.len() == 0 {
        Seq::empty()
    } else {
        expand_tabs(bs.drop_last()) + if bs.last() == 9u8 {
            seq![32u8, 32u8, 32u8, 32u8]
        } else {
            seq![bs.last()]
        }
    }
}

/// Number of tab bytes in `bs`.
pub open spec fn count_tabs(bs: Seq<u8>) -> int
    decreases bs.len(),
{
    if bs.len() == 0 {
        0
    } else {
        count_tabs(bs.drop_last()) + if bs.last() == 9u8 {
            1int
        } else {
            0int
        }
    }
}

/// Expanding tabs distributes over concatenation.
pub proof fn lemma_expand_tabs_concat(a: Seq<u8>, b: Seq<u8>)
    ensures
        expand_tabs(a + b) == expand_tabs(a) + expand_tabs(b),
        count_tabs(a + b) == count_tabs(a) + count_tabs(b),
    decreases b.len(),
{
    if b.len() == 0 {
        assert(a + b =~= a);
        assert(expand_tabs(a) + expand_tabs(b) =~= expand_tabs(a));
    } else {
        lemma_expand_tabs_concat(a, b.drop_last());
        assert((a + b).drop_last() =~= a + b.drop_last());
        assert((a + b).last() == b.last());
        let tail = if b.last() == 9u8 {
            seq![32u8, 32u8, 32u8, 32u8]
        } else {
            seq![b.last()]
        };
        assert(expand_tabs(a) + expand_tabs(b.drop_last()) + tail =~= expand_tabs(a) + (
        expand_tabs(b.drop_last()) + tail));
    }
}

/// Each tab grows by three bytes when expanded.
pub proof fn lemma_expand_tabs_len(bs: Seq<u8>)
    ensures
        expand_tabs(bs).len() == bs.len() + 3 * count_tabs(bs),
        0 <= count_tabs(bs) <= bs.len(),
    decreases bs.len(),
{
    if bs.len() > 0 {
        lemma_expand_tabs_len(bs.drop_last());
    }
}

/// The expanded text up to the byte `col + 3 · (tabs before col)` is exactly
/// the expansion of the first `col` bytes: the adjusted column of a single
/// line snippet is where the shown text of the line reaches the span.
pub proof fn lemma_expanded_prefix(bs: Seq<u8>, col: int)
    requires
        0 <= col <= bs.len(),
    ensures
        expand_tabs(bs).subrange(0, col + 3 * count_tabs(bs.take(col))) == expand_tabs(bs.take(col)),
{
    assert(bs =~= bs.take(col) + bs.skip(col));
    lemma_expand_tabs_concat(bs.take(col), bs.skip(col));
    lemma_expand_tabs_len(bs.take(col));
    assert(expand_tabs(bs).subrange(0, col + 3 * count_tabs(bs.take(col))) =~= expand_tabs(bs.take(col)));
}

/// Copies `bs` with every tab replaced by four spaces.
fn expand_tab_bytes(bs: &[u8]) -> (r: Vec<u8>)
    ensures
        r@ == expand_tabs(bs@),
{
    let mut out: Vec<u8> = Vec::new();
    let mut i: usize = 0;
    while i < bs.len()
        invariant
            0 <= i <= bs@.len(),
            out@ == expand_tabs(bs@.take(i as int)),
        decreases bs@.len() - i,
    {
        let b = bs[i];
        if b == 9u8 {
            out.push(32u8);
            out.push(32u8);
            out.push(32u8);
            out.push(32u8);
        } else {
            out.push(b);
        }
        proof {
            assert(bs@.take(i + 1).drop_last() =~= bs@.take(i as int));
            assert(bs@.take(i + 1).last() == b);
            assert(out@ =~= expand_tabs(bs@.take(i + 1)));
        }
        i = i + 1;
    }
    proof {
        assert(bs@.take(i as int) =~= bs@);
    }
    out
}

/// Counts the tab bytes among the first `n` bytes of `bs`.
fn count_tab_bytes(bs: &[u8], n: usize) -> (r: usize)
    requires
        n <= bs@.len(),
    ensures
        r == count_tabs(bs@.take(n as int)),
{
    let mut count: usize = 0;
    let mut i: usize = 0;
    while i < n
        invariant
            0 <= i <= n <= bs@.len(),
            count == count_tabs(bs@.take(i as int)),
            count <= i,
        decreases n - i,
    {
        proof {
            assert(bs@.take(i + 1).drop_last() =~= bs@.take(i as int));
            assert(bs@.take(i + 1).last() == bs@[i as int]);
        }
        if bs[i] == 9u8 {
            count = count + 1;
        }
        i = i + 1;
    }
    count
}

/// Copies the bytes `bs[lo..hi]`.
fn copy_range(bs: &[u8], lo: usize, hi: usize) -> (r: Vec<u8>)
    requires
        lo <= hi <= bs@.len(),
    ensures
        r@ == bs@.subrange(lo as int, hi as int),
{
    let mut out: Vec<u8> = Vec::new();
    let mut i: usize = lo;
    while i < hi
        invariant
            lo <= i <= hi <= bs@.len(),
            out@ == bs@.subrange(lo as int, i as int),
        decreases hi - i,
    {
        out.push(bs[i]);
        proof {
            assert(out@ =~= bs@.subrange(lo as int, i + 1));
        }
        i = i + 1;
    }
    out
}

/// The bytes of line `l` of the file, without its line break.
pub open spec fn line_bytes(m: FileMapView, l: int) -> Seq<u8> {
    m.bytes().subrange(m.lines[l].0 as int, first_newline_from(m.bytes(), m.lines[l].0 as int))
}

/// Line `l` exists and starts at a char boundary within the file, so that it
/// can be read.
pub open spec fn line_readable(m: FileMapView, l: int) -> bool {
    &&& 0 <= l < m.lines.len()
    &&& m.lines[l].0 <= m.bytes().len()
    &&& is_char_boundary(m.bytes(), m.lines[l].0 as int)
}

/// How far the column `col` of `line` moves when the tabs before it are
/// expanded to four spaces.
pub open spec fn tab_shift(line: Seq<u8>, col: int) -> int {
    3 * count_tabs(line.take(col))
}

/// The parts of a snippet within one line: the tab-expanded line, split at
/// the start and end column, both moved by the shift of the start column.
/// The middle is the replacement, if there is one.
pub open spec fn single_parts(line: Seq<u8>, col: int, end_col: int, with: Option<Seq<u8>>) -> (
    Seq<u8>,
    Seq<u8>,
    Seq<u8>,
) {
    let e = expand_tabs(line);
    let sh = tab_shift(line, col);
    (
        e.subrange(0, col + sh),
        match with {
            Some(w) => w,
            None => e.subrange(col + sh, end_col + sh),
        },
        e.subrange(end_col + sh, e.len() as int),
    )
}

/// A line of a snippet that is shown whole and highlighted.
pub open spec fn whole(l: Seq<u8>) -> (Seq<u8>, Seq<u8>, Seq<u8>) {
    (Seq::empty(), l, Seq::empty())
}

/// The lines of a snippet that shows the original code from column `cs` of
/// line `s` to column `ce` of line `e`.
pub open spec fn orig_lines(m: FileMapView, s: int, e: int, cs: int, ce: int) -> Seq<
    (Seq<u8>, Seq<u8>, Seq<u8>),
> {
    let first = line_bytes(m, s);
    let last = line_bytes(m, e);
    let n = if e - s - 1 > 0 {
        e - s - 1
    } else {
        0
    };
    seq![(first.take(cs), first.skip(cs), Seq::<u8>::empty())] + Seq::new(
        n as nat,
        |k: int| whole(line_bytes(m, s + 1 + k)),
    ) + seq![(Seq::<u8>::empty(), last.take(ce), last.skip(ce))]
}

/// A multi-line snippet of the original code shows the source lines from
/// the span's start line to its end line, one entry per line, consecutive
/// and in ascending order: entry `i` is line `s + i` split into the text
/// before, the highlighted part and the text after. Only the first line has
/// text before the highlight (its first `cs` bytes), only the last line has
/// text after it (all but its first `ce` bytes), and the lines in between
/// are highlighted whole.
pub proof fn lemma_orig_lines_show_source(m: FileMapView, s: int, e: int, cs: int, ce: int)
    requires
        0 <= s < e,
        0 <= cs <= line_bytes(m, s).len(),
        0 <= ce <= line_bytes(m, e).len(),
    ensures
        orig_lines(m, s, e, cs, ce).len() == e - s + 1,
        forall|i: int|
            #![trigger orig_lines(m, s, e, cs, ce)[i]]
            0 <= i <= e - s ==> {
                let l = orig_lines(m, s, e, cs, ce)[i];
                &&& l.0 + l.1 + l.2 == line_bytes(m, s + i)
                &&& l.0.len() == (if i == 0 {
                    cs
                } else {
                    0
                })
                &&& (i < e - s ==> l.2.len() == 0)
                &&& (i == e - s ==> l.1.len() == ce)
            },
{
    let r = orig_lines(m, s, e, cs, ce);
    let first = line_bytes(m, s);
    let last = line_bytes(m, e);
    assert forall|i: int|
        #![trigger orig_lines(m, s, e, cs, ce)[i]]
        0 <= i <= e - s implies {
        let l = orig_lines(m, s, e, cs, ce)[i];
        &&& l.0 + l.1 + l.2 == line_bytes(m, s + i)
        &&& l.0.len() == (if i == 0 {
            cs
        } else {
            0
        })
        &&& (i < e - s ==> l.2.len() == 0)
        &&& (i == e - s ==> l.1.len() == ce)
    } by {
        let l = r[i];
        if i == 0 {
            assert(l == (first.take(cs), first.skip(cs), Seq::<u8>::empty()));
            assert(l.0 + l.1 + l.2 =~= first);
        } else if i == e - s {
            assert(l == (Seq::<u8>::empty(), last.take(ce), last.skip(ce)));
            assert(l.0 + l.1 + l.2 =~= last);
        } else {
            assert(l == whole(line_bytes(m, s + 1 + (i - 1))));
            assert(l.0 + l.1 + l.2 =~= line_bytes(m, s + i));
        }
    }
}

/// Index of the last `\n` byte before `to`, or -1 if there is none.
pub open spec fn last_newline_before(bytes: Seq<u8>, to: int) -> int
    decreases to,
{
    if to <= 0 {
        -1
    } else if bytes[to - 1] == 10u8 {
        to - 1
    } else {
        last_newline_before(bytes, to - 1)
    }
}

/// `seg` without a final `\r`.
pub open spec fn strip_cr(seg: Seq<u8>) -> Seq<u8> {
    if seg.len() > 0 && seg.last() == 13u8 {
        seg.drop_last()
    } else {
        seg
    }
}

/// The lines that `str::lines` yields for `bs[i..]`, when the current line
/// started at `start`: split at each `\n`, without a `\r` right before it,
/// and without an empty line after a final `\n`.
pub open spec fn lines_from(bs: Seq<u8>, i: int, start: int) -> Seq<Seq<u8>>
    decreases bs.len() - i,
{
    if i >= bs.len() {
        if start < bs.len() {
            seq![bs.subrange(start, bs.len() as int)]
        } else {
            Seq::empty()
        }
    } else if bs[i] == 10u8 {
        seq![strip_cr(bs.subrange(start, i))] + lines_from(bs, i + 1, i + 1)
    } else {
        lines_from(bs, i + 1, start)
    }
}

/// The lines of a snippet that replaces the code from column `cs` of line
/// `s` to column `ce` of line `e` by `w`. Without a line break in `w` it is a
/// single line; else `w` is shown up to its first line break after the
/// start of line `s`, then the lines (as `str::lines` yields them) of `w`
/// between its first and its last line break whole, and its part after the
/// last line break before the rest of line `e`.
pub open spec fn replace_lines(m: FileMapView, s: int, e: int, cs: int, ce: int, w: Seq<u8>) -> Seq<
    (Seq<u8>, Seq<u8>, Seq<u8>),
> {
    let first = line_bytes(m, s);
    let last = line_bytes(m, e);
    let fb = first_newline_from(w, 0);
    let lb = last_newline_before(w, w.len() as int);
    if fb < w.len() {
        seq![(first.take(cs), w.take(fb), Seq::<u8>::empty())] + lines_from(
            w.take(lb),
            fb + 1,
            fb + 1,
        ).map_values(|l: Seq<u8>| whole(l)) + seq![
            (Seq::<u8>::empty(), w.skip(lb + 1), last.skip(ce)),
        ]
    } else {
        seq![(first.take(cs), w, last.skip(ce))]
    }
}

/// The layout of a snippet within one line.
fn single_line(line: &[u8], col: usize, end_col: usize, replacement: Option<&[u8]>) -> (r: (
    SnippetLine,
    usize,
    usize,
))
    requires
        col <= line@.len(),
        col + tab_shift(line@, col as int) <= expand_tabs(line@).len(),
        end_col + tab_shift(line@, col as int) <= expand_tabs(line@).len(),
        replacement is None ==> col <= end_col,
    ensures
        parts(r.0) == single_parts(
            line@,
            col as int,
            end_col as int,
            match replacement {
                Some(w) => Some(w@),
                None => None,
            },
        ),
        r.1 == col + tab_shift(line@, col as int),
        r.2 == match replacement {
            Some(w) => w@.len() as int,
            None => end_col - col,
        },
{
    let expanded = expand_tab_bytes(line);
    let tabs = count_tab_bytes(line, col);
    proof {
        lemma_expand_tabs_len(line@.take(col as int));
    }
    let n = expanded.len();
    let start = col + 3 * tabs;
    let end = end_col + 3 * tabs;
    let before = copy_range(expanded.as_slice(), 0, start);
    let after = copy_range(expanded.as_slice(), end, n);
    match replacement {
        Some(w) => {
            let middle = copy_range(w, 0, w.len());
            proof {
                assert(w@.subrange(0, w@.len() as int) =~= w@);
            }
            (SnippetLine { before, middle, after }, start, w.len())
        },
        None => {
            let middle = copy_range(expanded.as_slice(), start, end);
            (SnippetLine { before, middle, after }, start, end - start)
        },
    }
}

/// Reads line `l` of the file.
fn read_line(src: &FileMap, l: u32) -> (r: &str)
    requires
        line_readable(src@, l as int),
    ensures
        r.spec_bytes() == line_bytes(src@, l as int),
{
    match src.get_line(LineIdx(l)) {
        Some(line) => line,
        None => {
            assert(false);
            ""
        },
    }
}

/// The layout of a snippet that shows the original code from column `cs`
/// of line `s` to column `ce` of line `e`.
fn orig_multi(src: &FileMap, s: u32, e: u32, cs: usize, ce: usize) -> (r: Vec<SnippetLine>)
    requires
        line_readable(src@, s as int),
        line_readable(src@, e as int),
        forall|k: int| s < k < e ==> line_readable(src@, k),
        cs <= line_bytes(src@, s as int).len(),
        ce <= line_bytes(src@, e as int).len(),
    ensures
        r@.map_values(|l: SnippetLine| parts(l)) == orig_lines(src@, s as int, e as int, cs as int, ce as int),
{
    let ghost m = src@;
    let mut out: Vec<SnippetLine> = Vec::new();
    let first = read_line(src, s).as_bytes();
    let before = copy_range(first, 0, cs);
    let middle = copy_range(first, cs, first.len());
    out.push(SnippetLine { before, middle, after: Vec::new() });
    proof {
        assert(first@.subrange(0, cs as int) =~= first@.take(cs as int));
        assert(first@.subrange(cs as int, first@.len() as int) =~= first@.skip(cs as int));
    }
    if e > s {
        let mut k: u32 = s + 1;
        while k < e
            invariant
                s < k <= e,
                m == src@,
                forall|j: int| s < j < e ==> line_readable(m, j),
                out@.len() == k - s,
                parts(out@[0]) == (line_bytes(m, s as int).take(cs as int), line_bytes(m, s as int).skip(cs as int), Seq::<u8>::empty()),
                forall|j: int| 1 <= j < k - s ==> parts(#[trigger] out@[j]) == whole(line_bytes(m, s + j)),
            decreases e - k,
        {
            let line = read_line(src, k).as_bytes();
            let middle = copy_range(line, 0, line.len());
            proof {
                assert(line@.subrange(0, line@.len() as int) =~= line@);
            }
            out.push(SnippetLine { before: Vec::new(), middle, after: Vec::new() });
            k = k + 1;
        }
    }
    let ghost n_mid = out@.len() - 1;
    let last = read_line(src, e).as_bytes();
    let middle = copy_range(last, 0, ce);
    let after = copy_range(last, ce, last.len());
    out.push(SnippetLine { before: Vec::new(), middle, after });
    proof {
        assert(last@.subrange(0, ce as int) =~= last@.take(ce as int));
        assert(last@.subrange(ce as int, last@.len() as int) =~= last@.skip(ce as int));
        assert(n_mid == if e - s - 1 > 0 { e - s - 1 } else { 0 });
        assert(out@.map_values(|l: SnippetLine| parts(l)) =~= orig_lines(m, s as int, e as int, cs as int, ce as int));
    }
    out
}

/// Where the first line break is, and that it is one.
proof fn lemma_first_newline_at(bs: Seq<u8>, from: int)
    requires
        0 <= from,
    ensures
        from <= first_newline_from(bs, from) || bs.len() < from,
        first_newline_from(bs, from) <= bs.len() || bs.len() < from,
        first_newline_from(bs, from) < bs.len() ==> bs[first_newline_from(bs, from)] == 10u8,
    decreases bs.len() - from,
{
    if from < bs.len() && bs[from] != 10u8 {
        lemma_first_newline_at(bs, from + 1);
    }
}

/// The last line break before `to` is one, and comes at or after any other
/// line break before `to`.
proof fn lemma_last_newline(bs: Seq<u8>, to: int, j: int)
    requires
        0 <= j < to <= bs.len(),
        bs[j] == 10u8,
    ensures
        j <= last_newline_before(bs, to) < to,
        bs[last_newline_before(bs, to)] == 10u8,
    decreases to,
{
    if bs[to - 1] != 10u8 {
        lemma_last_newline(bs, to - 1, j);
    }
}

/// The layout of a snippet that replaces the code from column `cs` of line
/// `s` to column `ce` of line `e` by `w`.
fn replace_multi(src: &FileMap, s: u32, e: u32, cs: usize, ce: usize, w: &[u8]) -> (r: Vec<SnippetLine>)
    requires
        line_readable(src@, s as int),
        line_readable(src@, e as int),
        cs <= line_bytes(src@, s as int).len(),
        ce <= line_bytes(src@, e as int).len(),
    ensures
        r@.map_values(|l: SnippetLine| parts(l)) == replace_lines(
            src@,
            s as int,
            e as int,
            cs as int,
            ce as int,
            w@,
        ),
{
    let ghost m = src@;
    let ghost ws = w@;
    let n = w.len();
    // first line break
    let mut fb: usize = 0;
    while fb < n && w[fb] != 10u8
        invariant
            0 <= fb <= n,
            ws == w@,
            n == ws.len(),
            first_newline_from(ws, 0) == first_newline_from(ws, fb as int),
        decreases n - fb,
    {
        fb = fb + 1;
    }
    let first = read_line(src, s).as_bytes();
    let last = read_line(src, e).as_bytes();
    let mut out: Vec<SnippetLine> = Vec::new();
    if fb == n {
        let before = copy_range(first, 0, cs);
        let middle = copy_range(w, 0, n);
        let after = copy_range(last, ce, last.len());
        out.push(SnippetLine { before, middle, after });
        proof {
            assert(first@.subrange(0, cs as int) =~= first@.take(cs as int));
            assert(ws.subrange(0, n as int) =~= ws);
            assert(last@.subrange(ce as int, last@.len() as int) =~= last@.skip(ce as int));
            assert(out@.map_values(|l: SnippetLine| parts(l)) =~= replace_lines(m, s as int, e as int, cs as int, ce as int, ws));
        }
        return out;
    }
    // last line break
    let mut lb: usize = n;
    while lb > 0 && w[lb - 1] != 10u8
        invariant
            0 <= lb <= n,
            ws == w@,
            n == ws.len(),
            last_newline_before(ws, n as int) == last_newline_before(ws, lb as int),
        decreases lb,
    {
        lb = lb - 1;
    }
    proof {
        lemma_first_newline_at(ws, 0);
        lemma_last_newline(ws, n as int, fb as int);
        assert(lb >= 1);
    }
    let lb = lb - 1;
    let ghost x = ws.take(lb as int);
    proof {
    }
    let before = copy_range(first, 0, cs);
    let middle = copy_range(w, 0, fb);
    out.push(SnippetLine { before, middle, after: Vec::new() });
    let ghost mids = lines_from(x, fb + 1, fb + 1);
    let mut i: usize = fb + 1;
    let mut start: usize = fb + 1;
    while i < lb
        invariant
            fb < i <= lb + 1,
            fb < start <= i,
            lb < n,
            ws == w@,
            n == ws.len(),
            x == ws.take(lb as int),
            out@.len() >= 1,
            out@.map_values(|l: SnippetLine| parts(l)).skip(1) + lines_from(x, i as int, start as int).map_values(|l: Seq<u8>| whole(l))
                == mids.map_values(|l: Seq<u8>| whole(l)),
            parts(out@[0]) == (first@.take(cs as int), ws.take(fb as int), Seq::<u8>::empty()),
        decreases lb - i,
    {
        let ghost old_out = out@.map_values(|l: SnippetLine| parts(l));
        if w[i] == 10u8 {
            let mut stop = i;
            if stop > start && w[stop - 1] == 13u8 {
                stop = stop - 1;
            }
            let mid = copy_range(w, start, stop);
            out.push(SnippetLine { before: Vec::new(), middle: mid, after: Vec::new() });
            proof {
                let seg = x.subrange(start as int, i as int);
                assert(seg =~= ws.subrange(start as int, i as int));
                assert(strip_cr(seg) =~= ws.subrange(start as int, stop as int));
                let rest = lines_from(x, i + 1, i + 1);
                assert(lines_from(x, i as int, start as int) == seq![strip_cr(seg)] + rest);
                assert(out@.map_values(|l: SnippetLine| parts(l)) =~= old_out.push(whole(strip_cr(seg))));
                assert((seq![strip_cr(seg)] + rest).map_values(|l: Seq<u8>| whole(l)) =~= seq![whole(strip_cr(seg))] + rest.map_values(|l: Seq<u8>| whole(l)));
                assert(out@.map_values(|l: SnippetLine| parts(l)).skip(1) =~= old_out.skip(1).push(whole(strip_cr(seg))));
                assert(old_out.skip(1).push(whole(strip_cr(seg))) + rest.map_values(|l: Seq<u8>| whole(l)) =~= old_out.skip(1) + (seq![whole(strip_cr(seg))] + rest.map_values(|l: Seq<u8>| whole(l))));
            }
            start = i + 1;
        } else {
            proof {
                assert(x[i as int] == ws[i as int]);
            }
        }
        i = i + 1;
    }
    if start < lb {
        let ghost old_out = out@.map_values(|l: SnippetLine| parts(l));
        let mid = copy_range(w, start, lb);
        out.push(SnippetLine { before: Vec::new(), middle: mid, after: Vec::new() });
        proof {
            assert(x.subrange(start as int, lb as int) =~= ws.subrange(start as int, lb as int));
            assert(out@.map_values(|l: SnippetLine| parts(l)).skip(1) =~= old_out.skip(1).push(whole(ws.subrange(start as int, lb as int))));
        }
    }
    proof {
        assert(out@.map_values(|l: SnippetLine| parts(l)).skip(1) =~= mids.map_values(|l: Seq<u8>| whole(l)));
    }
    let ghost body = out@.map_values(|l: SnippetLine| parts(l));
    let middle = copy_range(w, lb + 1, n);
    let after = copy_range(last, ce, last.len());
    out.push(SnippetLine { before: Vec::new(), middle, after });
    proof {
        assert(first@.subrange(0, cs as int) =~= first@.take(cs as int));
        assert(ws.subrange(0, fb as int) =~= ws.take(fb as int));
        assert(ws.subrange(lb + 1, n as int) =~= ws.skip(lb + 1));
        assert(last@.subrange(ce as int, last@.len() as int) =~= last@.skip(ce as int));
        assert(body =~= seq![body[0]] + body.skip(1));
        assert(out@.map_values(|l: SnippetLine| parts(l)) =~= replace_lines(m, s as int, e as int, cs as int, ce as int, ws));
    }
    out
}

/// The bytes that replace the span, for a replacing snippet.
pub open spec fn replacement_bytes(snippet: Snippet) -> Option<Seq<u8>> {
    match snippet {
        Snippet::Replace { with, .. } => Some(encode_utf8(with@)),
        _ => None,
    }
}

/// Index of the line in which `span` starts.
pub open spec fn start_line(m: FileMapView, span: Span) -> int {
    m.line_of(span.lo.0)
}

/// Index of the line in which `span` ends.
pub open spec fn end_line(m: FileMapView, span: Span) -> int {
    m.line_of(span.hi.0)
}

/// Column (in bytes) at which `span` starts.
pub open spec fn start_col(m: FileMapView, span: Span) -> int {
    span.lo.0 - m.lines[start_line(m, span)].0
}

/// Column (in bytes) at which `span` ends.
pub open spec fn end_col(m: FileMapView, span: Span) -> int {
    span.hi.0 - m.lines[end_line(m, span)].0
}

/// Position `k` of `bytes` is its end or holds no continuation byte: in
/// UTF-8 text, exactly the char boundaries.
pub open spec fn starts_char(bytes: Seq<u8>, k: int) -> bool {
    k == bytes.len() || (0 <= k < bytes.len() && !is_continuation_byte(bytes[k]))
}

/// The snippet can be shown for `span`: the lines it shows can be read, and
/// they can be cut at the span's columns (after expanding tabs, for a span
/// within one line) on char boundaries, in order.
pub open spec fn snippet_showable(m: FileMapView, span: Span, snippet: Snippet) -> bool {
    let s = start_line(m, span);
    let e = end_line(m, span);
    let cs = start_col(m, span);
    let ce = end_col(m, span);
    if span.spec_is_dummy() {
        true
    } else if s == e {
        let l = line_bytes(m, s);
        let ex = expand_tabs(l);
        let sh = tab_shift(l, cs);
        &&& line_readable(m, s)
        &&& cs <= l.len()
        &&& starts_char(l, cs)
        &&& cs + sh <= ex.len()
        &&& ce + sh <= ex.len()
        &&& starts_char(ex, cs + sh)
        &&& starts_char(ex, ce + sh)
        &&& snippet is Orig ==> cs <= ce
    } else {
        &&& line_readable(m, s)
        &&& line_readable(m, e)
        &&& snippet is Orig ==> forall|k: int| s < k < e ==> line_readable(m, k)
        &&& cs <= line_bytes(m, s).len()
        &&& starts_char(line_bytes(m, s), cs)
        &&& ce <= line_bytes(m, e).len()
        &&& starts_char(line_bytes(m, e), ce)
    }
}

/// Lays out the code snippet of a remark for `span`, the snippet's span:
/// nothing for the dummy span; for a span within one line that line with
/// tabs expanded, cut at the span's columns (moved by the tabs before the
/// start), with the replacement in the middle if the snippet replaces, and
/// the underline; for a span over several lines each line shown, cut at the
/// span's start in the first and at its end in the last line.
pub fn snippet_layout(src: &FileMap, span: Span, snippet: &Snippet) -> (r: SnippetLayout)
    requires
        src@.wf(),
        src@.lines_sorted(),
        snippet_span(*snippet) == Some(span),
        snippet_showable(src@, span, *snippet),
    ensures
        span.spec_is_dummy() ==> r is Dummy,
        !span.spec_is_dummy() && start_line(src@, span) == end_line(src@, span) ==> {
            &&& r matches SnippetLayout::Single { line, text, replaced, underline_col, underline_len }
            &&& line.0 == start_line(src@, span)
            &&& replaced == snippet is Replace
            &&& parts(text) == single_parts(
                line_bytes(src@, start_line(src@, span)),
                start_col(src@, span),
                end_col(src@, span),
                replacement_bytes(*snippet),
            )
            &&& underline_col == start_col(src@, span) + tab_shift(
                line_bytes(src@, start_line(src@, span)),
                start_col(src@, span),
            )
            &&& underline_len == match replacement_bytes(*snippet) {
                Some(w) => w.len() as int,
                None => end_col(src@, span) - start_col(src@, span),
            }
        },
        !span.spec_is_dummy() && start_line(src@, span) != end_line(src@, span) ==> {
            &&& r matches SnippetLayout::Multi { first_line, lines, replaced }
            &&& first_line.0 == start_line(src@, span)
            &&& replaced == snippet is Replace
            &&& lines@.map_values(|l: SnippetLine| parts(l)) == match replacement_bytes(*snippet) {
                Some(w) => replace_lines(
                    src@,
                    start_line(src@, span),
                    end_line(src@, span),
                    start_col(src@, span),
                    end_col(src@, span),
                    w,
                ),
                None => orig_lines(
                    src@,
                    start_line(src@, span),
                    end_line(src@, span),
                    start_col(src@, span),
                    end_col(src@, span),
                ),
            }
        },
{
    let start = src.get_loc(span.lo);
    let end = src.get_loc(span.hi);
    if span.is_dummy() {
        return SnippetLayout::Dummy;
    }
    let cs = start.col.0 as usize;
    let ce = end.col.0 as usize;
    if start.line == end.line {
        let line = read_line(src, start.line.0).as_bytes();
        let (text, underline_col, underline_len) = match snippet {
            Snippet::Replace { with, .. } => single_line(line, cs, ce, Some(with.as_str().as_bytes())),
            _ => single_line(line, cs, ce, None),
        };
        SnippetLayout::Single {
            line: start.line,
            text,
            replaced: snippet.is_replace(),
            underline_col,
            underline_len,
        }
    } else {
        let lines = match snippet {
            Snippet::Replace { with, .. } => replace_multi(
                src,
                start.line.0,
                end.line.0,
                cs,
                ce,
                with.as_str().as_bytes(),
            ),
            _ => orig_multi(src, start.line.0, end.line.0, cs, ce),
        };
        SnippetLayout::Multi { first_line: start.line, lines, replaced: snippet.is_replace() }
    }
}

/// Whether position `k` of `bytes` is its end or holds no continuation byte.
fn starts_char_at(bytes: &[u8], k: usize) -> (r: bool)
    ensures
        r == starts_char(bytes@, k as int),
{
    k == bytes.len() || (k < bytes.len() && !(0x80u8 <= bytes[k] && bytes[k] <= 0xbfu8))
}

/// Whether line `l` can be read: it exists and starts at a char boundary
/// within the file.
fn can_read_line(src: &FileMap, l: u32) -> (r: bool)
    ensures
        r == line_readable(src@, l as int),
{
    match src.get_line_start(LineIdx(l)) {
        None => false,
        Some(start) => {
            let text = src.src();
            let total = text.as_bytes().len();
            start.0 as usize <= total && text.is_char_boundary(start.0 as usize)
        },
    }
}

/// Whether `snippet_layout` can lay out the snippet for `span`: whether
/// the lines it shows can be read and cut where the span says.
pub fn can_show_snippet(src: &FileMap, span: Span, snippet: &Snippet) -> (r: bool)
    requires
        src@.wf(),
        src@.lines_sorted(),
    ensures
        r == snippet_showable(src@, span, *snippet),
{
    if span.is_dummy() {
        return true;
    }
    let start = src.get_loc(span.lo);
    let end = src.get_loc(span.hi);
    let cs = start.col.0 as usize;
    let ce = end.col.0 as usize;
    if start.line == end.line {
        if !can_read_line(src, start.line.0) {
            return false;
        }
        let line = read_line(src, start.line.0).as_bytes();
        if !(cs <= line.len() && starts_char_at(line, cs)) {
            return false;
        }
        let expanded = expand_tab_bytes(line);
        let tabs = count_tab_bytes(line, cs);
        proof {
            lemma_expand_tabs_len(line@.take(cs as int));
        }
        let n = expanded.len();
        if tabs > n / 3 {
            return false;
        }
        let shift = 3 * tabs;
        if cs > n - shift || ce > n - shift {
            return false;
        }
        let orig_order = match snippet {
            Snippet::Orig(_) => cs <= ce,
            _ => true,
        };
        starts_char_at(expanded.as_slice(), cs + shift) && starts_char_at(
            expanded.as_slice(),
            ce + shift,
        ) && orig_order
    } else {
        if !(can_read_line(src, start.line.0) && can_read_line(src, end.line.0)) {
            return false;
        }
        let first = read_line(src, start.line.0).as_bytes();
        let last = read_line(src, end.line.0).as_bytes();
        if !(cs <= first.len() && starts_char_at(first, cs) && ce <= last.len() && starts_char_at(
            last,
            ce,
        )) {
            return false;
        }
        match snippet {
            Snippet::Orig(_) => {
                let mut k = start.line.0;
                if k < end.line.0 {
                    k = k + 1;
                    while k < end.line.0
                        invariant
                            start.line.0 < k <= end.line.0,
                            start.line.0 == start_line(src@, span),
                            end.line.0 == end_line(src@, span),
                            !span.spec_is_dummy(),
                            *snippet is Orig,
                            forall|j: int| start.line.0 < j < k ==> line_readable(src@, j),
                        decreases end.line.0 - k,
                    {
                        if !can_read_line(src, k) {
                            return false;
                        }
                        k = k + 1;
                    }
                }
                true
            },
            _ => true,
        }
    }
}

/// A char boundary of a line stays a char boundary of the line with tabs
/// expanded, once moved by the tabs before it.
pub proof fn lemma_expanded_char_start(bs: Seq<u8>, col: int)
    requires
        0 <= col <= bs.len(),
        starts_char(bs, col),
    ensures
        col + 3 * count_tabs(bs.take(col)) <= expand_tabs(bs).len(),
        starts_char(expand_tabs(bs), col + 3 * count_tabs(bs.take(col))),
{
    let head = bs.take(col);
    let rest = bs.skip(col);
    assert(bs =~= head + rest);
    lemma_expand_tabs_concat(head, rest);
    lemma_expand_tabs_len(head);
    lemma_expand_tabs_len(rest);
    let p = col + 3 * count_tabs(head);
    if col < bs.len() {
        let first = seq![rest[0]];
        assert(rest =~= first + rest.skip(1));
        lemma_expand_tabs_concat(first, rest.skip(1));
        assert(first.drop_last() =~= Seq::<u8>::empty());
        assert(expand_tabs(first.drop_last()) =~= Seq::<u8>::empty());
        assert(first.last() == rest[0]);
        assert(expand_tabs(first)[0] == if rest[0] == 9u8 {
            32u8
        } else {
            rest[0]
        });
        assert(expand_tabs(bs)[p] == expand_tabs(rest)[0]);
        assert(expand_tabs(rest)[0] == expand_tabs(first)[0]);
    }
}

/// Every span within one readable line whose two columns are char boundaries
/// of the line, in order, with no tab between them, can be shown, whatever
/// the snippet. This covers every empty span, such as the one a lexing error
/// is reported at.
pub proof fn lemma_single_line_span_showable(m: FileMapView, span: Span, snippet: Snippet)
    requires
        !span.spec_is_dummy(),
        start_line(m, span) == end_line(m, span),
        line_readable(m, start_line(m, span)),
        0 <= start_col(m, span) <= end_col(m, span) <= line_bytes(m, start_line(m, span)).len(),
        starts_char(line_bytes(m, start_line(m, span)), start_col(m, span)),
        starts_char(line_bytes(m, start_line(m, span)), end_col(m, span)),
        count_tabs(line_bytes(m, start_line(m, span)).take(end_col(m, span))) == count_tabs(
            line_bytes(m, start_line(m, span)).take(start_col(m, span)),
        ),
    ensures
        snippet_showable(m, span, snippet),
{
    let l = line_bytes(m, start_line(m, span));
    lemma_expanded_char_start(l, start_col(m, span));
    lemma_expanded_char_start(l, end_col(m, span));
}

} // verus!
