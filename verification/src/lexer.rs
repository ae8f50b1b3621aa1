//! The lexing functionality.
//!
//! The main type is the `Lexer` that takes the source code of a file map and
//! produces a sequence of tokens out of it.
use vstd::prelude::*;


use crate::filemap::{FileMap, FileMapView};
use crate::pos::{BytePos, Span};
use crate::report::{is_simple_error, Report};
use crate::load::{
    lemma_token_end, lemma_token_text_is_source, lemma_trivia_end_bounds, lexed_up_to, lexing_stop, parser_tokens, tokens_from,
    ParserInput,
};
use crate::text::{byte_offset, char_range, collect_chars, char_width, len_utf8, lemma_byte_offset_full,
    lemma_byte_offset_mono, lemma_byte_offset_step, lemma_encode_subrange, lemma_byte_offset_at_least};
use crate::token::{keyword_of, token_text, Keyword, Token, TokenSpan, TokenView};

verus! {

broadcast use vstd::string::group_string_axioms;

/// Kinds of lexing errors.
#[derive(Clone, PartialEq, Eq, Debug, Structural)]
pub enum ErrorKind {
    IllegalChar(char),
}

/// Type returned by the `Lexer` in case of a lexing error. Contains a
/// detailed report and may contain a poisoned token that could be used to
/// proceed normally.
#[derive(Clone, PartialEq, Eq, Debug)]
pub struct Error<P> {
    /// Error kind to handle different kinds of errors.
    pub kind: ErrorKind,
    /// Detailed information about the error. Intended for user-friendly
    /// compiler messages.
    pub report: Report,
    /// If an error occured but the lexer is able to recover, it emits a token.
    /// This token will probably contain some "wrong" information, so it
    /// shouldn't be used as if it were a real token.
    pub poison: Option<P>,
}

impl<P> Error<P> {
    /// Returns a new version with a changed poison.
    pub fn map_poison<F, U>(self, op: F) -> (r: Error<U>) where F: FnOnce(P) -> U
        requires
            self.poison matches Some(p) ==> call_requires(op, (p,)),
        ensures
            r.kind == self.kind,
            r.report == self.report,
            self.poison is None ==> r.poison is None,
            self.poison matches Some(p) ==> (r.poison matches Some(u) && call_ensures(
                op,
                (p,),
                u,
            )),
    {
        let poison = match self.poison {
            Some(p) => Some(op(p)),
            None => None,
        };
        Error { kind: self.kind, report: self.report, poison: poison }
    }

    /// Returns a new version with a changed report.
    pub fn map_report<F>(self, op: F) -> (r: Error<P>) where F: FnOnce(Report) -> Report
        requires
            call_requires(op, (self.report,)),
        ensures
            r.kind == self.kind,
            call_ensures(op, (self.report,), r.report),
            r.poison == self.poison,
    {
        Error { kind: self.kind, report: op(self.report), poison: self.poison }
    }
}

/// Applies `op` to the value of an `Ok` result or to the poison of an error.
pub fn map_both<T, U, F>(res: Result<T, Error<T>>, op: F) -> (r: Result<U, Error<U>>) where
    F: FnOnce(T) -> U,

    requires
        res matches Ok(t) ==> call_requires(op, (t,)),
        res matches Err(e) ==> (e.poison matches Some(p) ==> call_requires(op, (p,))),
    ensures
        res matches Ok(t) ==> (r matches Ok(u) && call_ensures(op, (t,), u)),
        res matches Err(e) ==> (r matches Err(e2) && e2.kind == e.kind && e2.report == e.report
            && (e.poison is None ==> e2.poison is None) && (e.poison matches Some(p) ==> (
        e2.poison matches Some(u) && call_ensures(op, (p,), u)))),
{
    match res {
        Ok(t) => Ok(op(t)),
        Err(e) => {
            let poison = match e.poison {
                Some(p) => Some(op(p)),
                None => None,
            };
            Err(Error { kind: e.kind, report: e.report, poison: poison })
        },
    }
}

/// Whether `c` has the Unicode `White_Space` property, as
/// `char::is_whitespace` and `str::split_whitespace` decide it.
pub open spec fn char_is_whitespace(c: char) -> bool {
    let v = c as u32;
    ||| 0x09 <= v <= 0x0d
    ||| v == 0x20
    ||| v == 0x85
    ||| v == 0xa0
    ||| v == 0x1680
    ||| 0x2000 <= v <= 0x200a
    ||| v == 0x2028
    ||| v == 0x2029
    ||| v == 0x202f
    ||| v == 0x205f
    ||| v == 0x3000
}

/// Whether `c` is whitespace (has the Unicode `White_Space` property).
pub fn is_whitespace(c: char) -> (r: bool)
    ensures
        r == char_is_whitespace(c),
{
    let v = c as u32;
    (0x09 <= v && v <= 0x0d) || v == 0x20 || v == 0x85 || v == 0xa0 || v == 0x1680 || (0x2000
        <= v && v <= 0x200a) || v == 0x2028 || v == 0x2029 || v == 0x202f || v == 0x205f || v
        == 0x3000
}

/// Identifiers start with an ASCII letter.
pub open spec fn spec_is_ident_start(c: char) -> bool {
    ('a' <= c && c <= 'z') || ('A' <= c && c <= 'Z')
}

/// Identifiers continue with ASCII letters and digits.
pub open spec fn spec_is_ident_part(c: char) -> bool {
    spec_is_ident_start(c) || ('0' <= c && c <= '9')
}

/// The char at position `i`, if there is one.
pub open spec fn char_at(chars: Seq<char>, i: int) -> Option<char> {
    if 0 <= i < chars.len() {
        Some(chars[i])
    } else {
        None
    }
}

/// `i` forced into the range `0..=n`.
pub open spec fn clamp_index(i: int, n: int) -> int {
    if i < 0 {
        0
    } else if i > n {
        n
    } else {
        i
    }
}

/// The byte position of char position `i` (clamped to the text).
pub open spec fn pos_at(chars: Seq<char>, i: int) -> BytePos {
    BytePos(byte_offset(chars, clamp_index(i, chars.len() as int)) as u32)
}

/// The span between the char positions `a` and `b`.
pub open spec fn span_between(chars: Seq<char>, a: int, b: int) -> Span {
    Span { lo: pos_at(chars, a), hi: pos_at(chars, b) }
}

/// The char at position `j` ends a line: it is a `\n`, or a `\r` that is not
/// followed by `\n`.
pub open spec fn is_line_break(chars: Seq<char>, j: int) -> bool {
    ||| chars[j] == '\n'
    ||| (chars[j] == '\r' && char_at(chars, j + 1) != Some('\n'))
}

/// The beginnings of the lines that the line breaks among the first `k`
/// chars open.
pub open spec fn break_starts(chars: Seq<char>, k: int) -> Seq<BytePos>
    decreases k,
{
    if k <= 0 {
        Seq::empty()
    } else if is_line_break(chars, k - 1) {
        break_starts(chars, k - 1).push(pos_at(chars, k))
    } else {
        break_starts(chars, k - 1)
    }
}

/// The first position at or after `i` that does not hold whitespace.
pub open spec fn ws_end(chars: Seq<char>, i: int) -> int
    decreases chars.len() - i,
{
    if 0 <= i < chars.len() && char_is_whitespace(chars[i]) {
        ws_end(chars, i + 1)
    } else {
        i
    }
}

/// The first position at or after `j` that holds a line break char or is
/// the end of the text: where a `//` comment ends.
pub open spec fn comment_end(chars: Seq<char>, j: int) -> int
    decreases chars.len() - j,
{
    if j >= chars.len() || chars[j] == '\n' || chars[j] == '\r' {
        j
    } else {
        comment_end(chars, j + 1)
    }
}

/// A `//` comment starts at position `i`.
pub open spec fn is_comment_start(chars: Seq<char>, i: int) -> bool {
    0 <= i && i + 1 < chars.len() && chars[i] == '/' && chars[i + 1] == '/'
}

/// A comment ends at or after the position where its search starts, and
/// not after the end of the text.
pub proof fn lemma_comment_end_ge(chars: Seq<char>, j: int)
    ensures
        comment_end(chars, j) >= j,
        j <= chars.len() ==> comment_end(chars, j) <= chars.len(),
    decreases chars.len() - j,
{
    if !(j >= chars.len() || chars[j] == '\n' || chars[j] == '\r') {
        lemma_comment_end_ge(chars, j + 1);
    }
}

/// The first position at or after `i` that is neither whitespace nor part
/// of a `//` comment.
pub open spec fn trivia_end(chars: Seq<char>, i: int) -> int
    decreases chars.len() - i,
{
    if 0 <= i < chars.len() && char_is_whitespace(chars[i]) {
        trivia_end(chars, i + 1)
    } else if is_comment_start(chars, i) {
        proof {
            lemma_comment_end_ge(chars, i + 2);
        }
        trivia_end(chars, comment_end(chars, i + 2))
    } else {
        i
    }
}

/// The first position at or after `i` that does not hold an identifier char.
pub open spec fn ident_end(chars: Seq<char>, i: int) -> int
    decreases chars.len() - i,
{
    if 0 <= i < chars.len() && spec_is_ident_part(chars[i]) {
        ident_end(chars, i + 1)
    } else {
        i
    }
}

/// The token for a word: a keyword or an identifier.
pub open spec fn word_token(s: Seq<char>) -> TokenView {
    match keyword_of(s) {
        Some(k) => TokenView::Keyword(k),
        None => TokenView::Ident(s),
    }
}

/// The token that starts at position `j` together with the position where
/// it ends, or `None` if the char at `j` may not start a token.
pub open spec fn token_at(chars: Seq<char>, j: int) -> Option<(TokenView, int)> {
    let c = chars[j];
    if c == '(' {
        Some((TokenView::ParenOp, j + 1))
    } else if c == ')' {
        Some((TokenView::ParenCl, j + 1))
    } else if c == '{' {
        Some((TokenView::BraceOp, j + 1))
    } else if c == '}' {
        Some((TokenView::BraceCl, j + 1))
    } else if c == '[' {
        Some((TokenView::BracketOp, j + 1))
    } else if c == ']' {
        Some((TokenView::BracketCl, j + 1))
    } else if c == ';' {
        Some((TokenView::Semi, j + 1))
    } else if c == ',' {
        Some((TokenView::Comma, j + 1))
    } else if c == '.' {
        Some((TokenView::Dot, j + 1))
    } else if c == ':' && char_at(chars, j + 1) == Some(':') {
        Some((TokenView::ColonColon, j + 2))
    } else if c == ':' {
        Some((TokenView::Colon, j + 1))
    } else if spec_is_ident_start(c) {
        Some((word_token(chars.subrange(j, ident_end(chars, j))), ident_end(chars, j)))
    } else {
        None
    }
}

/// The message of the report for an illegal char.
pub open spec fn illegal_char_msg() -> Seq<char> {
    seq![
        'i', 'l', 'l', 'e', 'g', 'a', 'l', ' ', 'c', 'h', 'a', 'r', 'a', 'c', 't', 'e', 'r', ' ',
        'i', 'n', ' ', 't', 'h', 'i', 's', ' ', 'c', 'o', 'n', 't', 'e', 'x', 't',
    ]
}

/// One step of lexing: starting at char position `i`, the lexer answers `r`
/// and moves to char position `i2`.
///
/// Whitespace and `//` comments are skipped first. At the end of the text
/// the answer is `None`. A char that may not start a token is answered with
/// an `IllegalChar` error whose report points at the empty span before it;
/// the lexer then stays in front of that char.
pub open spec fn lex_step<'a>(
    chars: Seq<char>,
    i: int,
    r: Option<Result<TokenSpan<'a>, Error<TokenSpan<'a>>>>,
    i2: int,
) -> bool {
    let j = trivia_end(chars, i);
    if j >= chars.len() {
        r is None && i2 == j
    } else {
        match token_at(chars, j) {
            Some((t, e)) => {
                &&& r matches Some(Ok(ts))
                &&& ts.tok@ == t
                &&& ts.span == span_between(chars, j, e)
                &&& i2 == e
            },
            None => {
                &&& r matches Some(Err(err))
                &&& err.kind == ErrorKind::IllegalChar(chars[j])
                &&& err.poison is None
                &&& is_simple_error(err.report, illegal_char_msg(), span_between(chars, j, j))
                &&& i2 == j
            },
        }
    }
}

/// Turns the source code of a file map into tokens. While doing so, it
/// records the beginnings of all lines it passes in the file map.
///
/// The fields are public so that contracts can speak of the file map's line
/// list; a lexer is consistent (`wf`) only as `new` and the lexing steps
/// leave it.
pub struct Lexer<'src> {
    /// The whole source code
    pub src: &'src str,
    /// Line beginnings of the file map the source belongs to
    pub lines: &'src mut Vec<BytePos>,
    /// The chars of the source code, to easily obtain them
    pub chs: Vec<char>,
    /// Position of the next char to read from `chs`
    pub next: usize,
    /// Buffered chars for easy access
    pub last: Option<char>,
    pub curr: Option<char>,
    pub peek: Option<char>,
    /// Byte offset of the corresponding char
    pub last_pos: BytePos,
    pub curr_pos: BytePos,
    pub peek_pos: BytePos,
    /// Byte offset when scanning the current token started
    pub token_start: BytePos,
    /// Char position of `curr` within the source
    pub idx: Ghost<int>,
    /// Line beginnings the file map held when lexing started
    pub base: Ghost<Seq<BytePos>>,
}

impl<'src> Lexer<'src> {
    /// The chars of the source code.
    pub closed spec fn chars(&self) -> Seq<char> {
        self.src@
    }

    /// Char position of the current char.
    pub closed spec fn index(&self) -> int {
        self.idx@
    }

    /// Line beginnings the file map held when lexing started.
    pub closed spec fn base_lines(&self) -> Seq<BytePos> {
        self.base@
    }

    /// Line beginnings recorded so far (including those of `base_lines`).
    pub open spec fn line_starts(&self) -> Seq<BytePos> {
        (*self.lines)@
    }

    /// The internal consistency of the buffered chars and positions, for any
    /// char position from two before the start up to the end.
    closed spec fn inv(&self) -> bool {
        let chars = self.src@;
        let n = chars.len() as int;
        let i = self.idx@;
        &&& -2 <= i <= n
        &&& encode_utf8_len_fits(chars)
        &&& self.curr == char_at(chars, i)
        &&& self.peek == char_at(chars, i + 1)
        &&& self.last == char_at(chars, i - 1)
        &&& self.last_pos == pos_at(chars, i - 1)
        &&& self.curr_pos == pos_at(chars, i)
        &&& self.peek_pos == pos_at(chars, i + 1)
        &&& self.chs@ == chars
        &&& self.next == clamp_index(i + 2, n)
        &&& (*self.lines)@ == self.base@ + break_starts(chars, clamp_index(i + 1, n))
        &&& self.base@.len() + encode_len(chars) < u32::MAX
    }

    /// The lexer is consistent and positioned within the source.
    pub closed spec fn wf(&self) -> bool {
        self.inv() && self.idx@ >= 0
    }

    /// A consistent lexer has recorded the line beginnings of the text up to
    /// and including its current char.
    pub proof fn lemma_lines_recorded(&self)
        requires
            self.wf(),
        ensures
            self.line_starts() == self.base_lines() + break_starts(
                self.chars(),
                clamp_index(self.index() + 1, self.chars().len() as int),
            ),
    {
    }

    /// A consistent lexer stands at a char position of its source or at its
    /// end.
    pub proof fn lemma_index_in_range(&self)
        requires
            self.wf(),
        ensures
            0 <= self.index() <= self.chars().len(),
            self.chars().len() <= encode_len(self.chars()),
            encode_utf8_len_fits(self.chars()),
    {
        lemma_byte_offset_full(self.src@);
        lemma_byte_offset_at_least(self.src@, self.src@.len() as int);
    }
}

/// Length of the UTF-8 encoding of `chars`.
pub open spec fn encode_len(chars: Seq<char>) -> int {
    vstd::utf8::encode_utf8(chars).len() as int
}

/// Byte offsets into the UTF-8 encoding of `chars` fit into a `u32`.
pub open spec fn encode_utf8_len_fits(chars: Seq<char>) -> bool {
    encode_len(chars) < u32::MAX
}

/// The byte position of a char position is its byte offset (clamped to the
/// text), which fits the text's encoding.
pub proof fn lemma_pos_at(chars: Seq<char>, i: int)
    requires
        encode_utf8_len_fits(chars),
    ensures
        pos_at(chars, i).0 == byte_offset(chars, clamp_index(i, chars.len() as int)),
        0 <= byte_offset(chars, clamp_index(i, chars.len() as int)) <= encode_len(chars),
{
    lemma_byte_offset_full(chars);
    lemma_byte_offset_mono(chars, 0, clamp_index(i, chars.len() as int));
    lemma_byte_offset_mono(chars, clamp_index(i, chars.len() as int), chars.len() as int);
}

proof fn lemma_break_starts_len(chars: Seq<char>, k: int)
    ensures
        break_starts(chars, k).len() <= if k < 0 { 0 } else { k },
    decreases k,
{
    if k > 0 {
        lemma_break_starts_len(chars, k - 1);
    }
}

proof fn lemma_trivia_end_ws(chars: Seq<char>, i: int)
    requires
        0 <= i,
    ensures
        trivia_end(chars, ws_end(chars, i)) == trivia_end(chars, i),
        ws_end(chars, i) >= i,
    decreases chars.len() - i,
{
    if 0 <= i < chars.len() && char_is_whitespace(chars[i]) {
        lemma_trivia_end_ws(chars, i + 1);
    }
}

proof fn lemma_ws_end_stop(chars: Seq<char>, i: int)
    requires
        0 <= i,
    ensures
        ws_end(chars, i) == i <==> !(i < chars.len() && char_is_whitespace(chars[i])),
{
    if i < chars.len() && char_is_whitespace(chars[i]) {
        lemma_trivia_end_ws(chars, i + 1);
    }
}

impl<'src> Lexer<'src> {
    /// Creates and initializes a new `Lexer` over the source code of a file
    /// map. The file map must not hold line beginnings after the first char
    /// yet: the lexer records them while it proceeds.
    pub fn new(fmap: &'src mut FileMap) -> (r: Lexer<'src>)
        requires
            old(fmap)@.wf(),
            old(fmap)@.lines.last().0 == 0,
            old(fmap)@.lines.len() + old(fmap)@.bytes().len() < u32::MAX,
        ensures
            r.wf(),
            r.chars() == old(fmap)@.src,
            r.index() == 0,
            r.base_lines() == old(fmap)@.lines,
            final(fmap)@.src == old(fmap)@.src,
            final(fmap)@.filename == old(fmap)@.filename,
            final(fmap)@.lines == (*final(r.lines))@,
    {
        Self::recording(fmap)
    }

    /// Creates the lexer; the file map then holds the line beginnings that
    /// the lexer holds when it is last used.
    fn recording(fmap: &'src mut FileMap) -> (r: Lexer<'src>)
        requires
            old(fmap)@.wf(),
            old(fmap)@.lines.last().0 == 0,
            old(fmap)@.lines.len() + old(fmap)@.bytes().len() < u32::MAX,
        ensures
            r.wf(),
            r.chars() == old(fmap)@.src,
            r.index() == 0,
            r.base_lines() == old(fmap)@.lines,
            final(fmap)@.src == old(fmap)@.src,
            final(fmap)@.filename == old(fmap)@.filename,
            final(fmap)@.lines == (*final(r.lines))@,
    {
        let ghost fm: FileMapView = fmap@;
        let (src, lines) = fmap.lexer_parts();
        let ghost base = lines@;
        let mut tok = Lexer {
            src: src,
            lines: lines,
            chs: collect_chars(src),
            next: 0,
            last: None,
            curr: None,
            peek: None,
            last_pos: BytePos(0),
            curr_pos: BytePos(0),
            peek_pos: BytePos(0),
            token_start: BytePos(0),
            idx: Ghost(-2int),
            base: Ghost(base),
        };
        proof {
            lemma_byte_offset_full(src@);
            assert(tok.lines@ =~= base + break_starts(src@, 0));
        }
        tok.dbump();
        tok
    }

    /// Tells the tokenizer to fetch the next token from the source.
    ///
    /// The function returns...
    ///
    /// - `None` if EOF was reached and no lexing error occured
    /// - `Some(Ok(_))` if there was a next token and no lexing error occured
    /// - `Some(Err(_))` if a lexing error occured (invalid source code)
    ///
    /// The error value might contain a poisened token which can be used to
    /// proceed "normally". However, it is not advised to really proceed
    /// normally: usually lexing error results in an ill-formed token stream,
    /// which in turn will result in parsing errors.
    pub fn next_token(&mut self) -> (r: Option<Result<TokenSpan<'src>, Error<TokenSpan<'src>>>>)
        requires
            old(self).wf(),
        ensures
            final(self).wf(),
            final(self).chars() == old(self).chars(),
            final(self).base_lines() == old(self).base_lines(),
            lex_step(old(self).chars(), old(self).index(), r, final(self).index()),
            final(self).line_starts() == final(self).base_lines() + break_starts(
                final(self).chars(),
                clamp_index(final(self).index() + 1, final(self).chars().len() as int),
            ),
            *final(final(self).lines) == *final(old(self).lines),
            0 <= final(self).index() <= final(self).chars().len(),
            encode_utf8_len_fits(final(self).chars()),
            r matches Some(Ok(ts)) ==> {
                &&& old(self).index() < final(self).index()
                &&& pos_at(old(self).chars(), old(self).index()).0 <= ts.span.lo.0 < ts.span.hi.0
                &&& ts.span.hi == pos_at(old(self).chars(), final(self).index())
                &&& vstd::utf8::encode_utf8(old(self).chars()).subrange(
                    ts.span.lo.0 as int,
                    ts.span.hi.0 as int,
                ) == vstd::utf8::encode_utf8(token_text(ts.tok@))
            },
            r is None ==> final(self).index() == final(self).chars().len(),
            old(self).index() == old(self).chars().len() ==> r is None && final(self).index()
                == old(self).index(),
    {
        let ghost chars = self.src@;
        let ghost i = self.idx@;
        let r = self.next_token_inner();
        proof {
            lemma_lex_step_laws(chars, i, r, self.idx@);
            lemma_trivia_end_bounds(chars, i);
        }
        r
    }

    fn next_token_inner(&mut self) -> (r: Option<Result<TokenSpan<'src>, Error<TokenSpan<'src>>>>)
        requires
            old(self).wf(),
        ensures
            final(self).wf(),
            final(self).chars() == old(self).chars(),
            final(self).base_lines() == old(self).base_lines(),
            lex_step(old(self).chars(), old(self).index(), r, final(self).index()),
            final(self).line_starts() == final(self).base_lines() + break_starts(
                final(self).chars(),
                clamp_index(final(self).index() + 1, final(self).chars().len() as int),
            ),
            *final(final(self).lines) == *final(old(self).lines),
    {
        let ghost chars = self.src@;
        let ghost i0 = self.idx@;
        loop
            invariant
                *final(self.lines) == *final(old(self).lines),
                self.wf(),
                self.src@ == chars,
                self.base@ == old(self).base@,
                i0 <= self.idx@,
                trivia_end(chars, self.idx@) == trivia_end(chars, i0),
            ensures
                self.wf(),
                self.src@ == chars,
                self.base@ == old(self).base@,
                self.idx@ == trivia_end(chars, i0),
            decreases chars.len() - self.idx@,
        {
            let ghost i = self.idx@;
            if self.skip_whitespace() {
                proof {
                    lemma_trivia_end_ws(chars, i);
                }
                continue ;
            }
            proof {
                lemma_trivia_end_ws(chars, i);
                lemma_ws_end_stop(chars, i);
            }
            let found = self.skip_comment();
            proof {
                lemma_comment_end_ge(chars, i + 2);
            }
            if !found {
                break ;
            }
        }
        self.token_start = self.curr_pos;
        let p = match self.peek {
            Some(c) => c,
            None => '\0',
        };
        let curr = match self.curr {
            None => {
                return None;
            },
            Some(c) => c,
        };
        let ghost j = self.idx@;
        let tok = if curr == '(' {
            self.bump();
            Token::ParenOp
        } else if curr == ')' {
            self.bump();
            Token::ParenCl
        } else if curr == '{' {
            self.bump();
            Token::BraceOp
        } else if curr == '}' {
            self.bump();
            Token::BraceCl
        } else if curr == '[' {
            self.bump();
            Token::BracketOp
        } else if curr == ']' {
            self.bump();
            Token::BracketCl
        } else if curr == ';' {
            self.bump();
            Token::Semi
        } else if curr == ',' {
            self.bump();
            Token::Comma
        } else if curr == '.' {
            self.bump();
            Token::Dot
        } else if curr == ':' && p == ':' {
            self.dbump();
            Token::ColonColon
        } else if curr == ':' {
            self.bump();
            Token::Colon
        } else if is_ident_start(curr) {
            self.scan_ident()
        } else {
            // If you reach this: congratz!
            return Some(
                Err(
                    Error {
                        kind: ErrorKind::IllegalChar(curr),
                        report: Report::simple_error(
                            {
                                let s = "illegal character in this context";
                                proof {
                                    reveal_strlit("illegal character in this context");
                                    assert(s@ =~= illegal_char_msg());
                                }
                                s
                            },
                            self.curr_span(),
                        ),
                        poison: None,
                    },
                ),
            );
        };
        assert(token_at(chars, j) == Some((tok@, self.idx@)));
        Some(Ok(TokenSpan { tok: tok, span: self.curr_span() }))
    }

    /// Reads a new char from the iterator, updating `last`, `curr`, `peek` and
    /// all corresponding positions.
    fn bump(&mut self)
        requires
            old(self).inv(),
            old(self).idx@ < old(self).src@.len(),
        ensures
            final(self).inv(),
            final(self).src@ == old(self).src@,
            final(self).base@ == old(self).base@,
            final(self).idx@ == old(self).idx@ + 1,
            final(self).token_start == old(self).token_start,
            *final(final(self).lines) == *final(old(self).lines),
    {
        let ghost chars = self.src@;
        let ghost n = chars.len() as int;
        let ghost i = self.idx@;
        self.last = self.curr;
        self.curr = self.peek;
        self.peek = if self.next < self.chs.len() {
            let c = self.chs[self.next];
            self.next = self.next + 1;
            Some(c)
        } else {
            None
        };
        // Update byte offsets
        self.last_pos = self.curr_pos;
        self.curr_pos = self.peek_pos;
        proof {
            lemma_pos_at(chars, i + 1);
            lemma_pos_at(chars, i + 2);
            if 0 <= i + 1 < n {
                lemma_byte_offset_step(chars, i + 1);
            }
        }
        if let Some(c) = self.curr {
            self.peek_pos = self.peek_pos + BytePos(len_utf8(c));
        }
        // Check if the current char is a line break (end) and add to line
        // break list.

        let is_break = match self.curr {
            Some(c) => c == '\n' || (c == '\r' && !matches!(self.peek, Some('\n'))),
            None => false,
        };
        proof {
            lemma_break_starts_len(chars, clamp_index(i + 1, n));
        }
        if is_break {
            self.lines.push(self.peek_pos);
        }
        self.idx = Ghost(i + 1);
        proof {
            assert((*self.lines)@ =~= self.base@ + break_starts(chars, clamp_index(i + 2, n)));
        }
    }

    /// Calls `bump` twice.
    fn dbump(&mut self)
        requires
            old(self).inv(),
            old(self).idx@ + 1 < old(self).src@.len() || old(self).idx@ < -1,
            old(self).idx@ < old(self).src@.len(),
        ensures
            final(self).inv(),
            final(self).src@ == old(self).src@,
            final(self).base@ == old(self).base@,
            final(self).idx@ == old(self).idx@ + 2,
            final(self).token_start == old(self).token_start,
            *final(final(self).lines) == *final(old(self).lines),
    {
        self.bump();
        self.bump();
    }

    /// The span from the start of the current token up to the current char.
    fn curr_span(&self) -> (r: Span)
        ensures
            r == (Span { lo: self.token_start, hi: self.curr_pos }),
    {
        Span::new(self.token_start, self.curr_pos)
    }

    /// Builds an error whose report points at the current token.
    fn simple_error<P>(&self, kind: ErrorKind, poison: P, msg: &str) -> (r: Error<P>)
        ensures
            r.kind == kind,
            r.poison == Some(poison),
            is_simple_error(r.report, msg@, Span { lo: self.token_start, hi: self.curr_pos }),
    {
        Error {
            kind: kind,
            report: Report::simple_error(msg, self.curr_span()),
            poison: Some(poison),
        }
    }

    /// Calls `bump` until the first non-whitespace char or EOF is reached.
    /// Returns `true` iff whitespace was found.
    fn skip_whitespace(&mut self) -> (r: bool)
        requires
            old(self).wf(),
        ensures
            final(self).wf(),
            final(self).src@ == old(self).src@,
            final(self).base@ == old(self).base@,
            final(self).idx@ == ws_end(old(self).src@, old(self).idx@),
            r == (final(self).idx@ > old(self).idx@),
            *final(final(self).lines) == *final(old(self).lines),
    {
        let ghost chars = self.src@;
        let ghost i0 = self.idx@;
        let mut skipped = false;
        loop
            invariant
                *final(self.lines) == *final(old(self).lines),
                self.wf(),
                self.src@ == chars,
                self.base@ == old(self).base@,
                i0 <= self.idx@,
                ws_end(chars, self.idx@) == ws_end(chars, i0),
                skipped == (self.idx@ > i0),
            ensures
                self.wf(),
                self.src@ == chars,
                self.base@ == old(self).base@,
                self.idx@ == ws_end(chars, i0),
                skipped == (self.idx@ > i0),
            decreases chars.len() - self.idx@,
        {
            let c = match self.curr {
                Some(c) => c,
                None => {
                    break ;
                },
            };
            if !is_whitespace(c) {
                break ;
            }
            self.bump();
            skipped = true;
        }
        skipped
    }

    /// Skips `//` comments. Calls `bump` until the first char after the
    /// comment is reached. Returns `true` iff a comment was found.
    fn skip_comment(&mut self) -> (r: bool)
        requires
            old(self).wf(),
        ensures
            final(self).wf(),
            final(self).src@ == old(self).src@,
            final(self).base@ == old(self).base@,
            r == is_comment_start(old(self).src@, old(self).idx@),
            r ==> final(self).idx@ == comment_end(old(self).src@, old(self).idx@ + 2),
            !r ==> final(self).idx@ == old(self).idx@,
            *final(final(self).lines) == *final(old(self).lines),
    {
        let ghost chars = self.src@;
        let ghost i0 = self.idx@;
        if matches!(self.curr, Some('/')) && matches!(self.peek, Some('/')) {
            self.dbump();  // both slashes
            loop
                invariant
                    *final(self.lines) == *final(old(self).lines),
                    self.wf(),
                    self.src@ == chars,
                    self.base@ == old(self).base@,
                    i0 + 2 <= self.idx@,
                    comment_end(chars, self.idx@) == comment_end(chars, i0 + 2),
                ensures
                    self.wf(),
                    self.src@ == chars,
                    self.base@ == old(self).base@,
                    self.idx@ == comment_end(chars, i0 + 2),
                decreases chars.len() - self.idx@,
            {
                match self.curr {
                    None => {
                        break ;
                    },
                    Some(c) => {
                        if c == '\n' || c == '\r' {
                            break ;
                        }
                        self.bump();
                    },
                }
            }
            true
        } else {
            false
        }
    }

    /// Scans an identifier (or keyword).
    fn scan_ident(&mut self) -> (r: Token<'src>)
        requires
            old(self).wf(),
            old(self).idx@ < old(self).src@.len(),
        ensures
            final(self).wf(),
            final(self).src@ == old(self).src@,
            final(self).base@ == old(self).base@,
            final(self).idx@ == ident_end(old(self).src@, old(self).idx@),
            r@ == word_token(old(self).src@.subrange(old(self).idx@, final(self).idx@)),
            final(self).token_start == old(self).token_start,
            *final(final(self).lines) == *final(old(self).lines),
    {
        let ghost chars = self.src@;
        let ghost i0 = self.idx@;
        // Collect all chars until the first non-ident char or EOF is reached.
        let pos_first = self.curr_pos;
        loop
            invariant
                *final(self.lines) == *final(old(self).lines),
                self.wf(),
                self.src@ == chars,
                self.base@ == old(self).base@,
                i0 <= self.idx@,
                ident_end(chars, self.idx@) == ident_end(chars, i0),
                self.token_start == old(self).token_start,
            ensures
                self.token_start == old(self).token_start,
                self.wf(),
                self.src@ == chars,
                self.base@ == old(self).base@,
                self.idx@ == ident_end(chars, i0),
            decreases chars.len() - self.idx@,
        {
            match self.curr {
                None => {
                    break ;
                },
                Some(c) => {
                    if !is_ident_part(c) {
                        break ;
                    }
                    self.bump();
                },
            }
        }
        proof {
            lemma_pos_at(chars, i0);
            lemma_pos_at(chars, self.idx@);
        }
        let s = char_range(
            self.src,
            pos_first.0 as usize,
            self.curr_pos.0 as usize,
            Ghost(i0),
            Ghost(self.idx@),
        );
        // check if the word is a keyword or literal
        match Keyword::from_str(s) {
            Ok(k) => Token::Keyword(k),
            Err(_) => Token::Ident(s),
        }
    }
}

/// Whether `c` may start an identifier: an ASCII letter.
fn is_ident_start(c: char) -> (r: bool)
    ensures
        r == spec_is_ident_start(c),
{
    ('a' <= c && c <= 'z') || ('A' <= c && c <= 'Z')
}

/// Whether `c` may continue an identifier: an ASCII letter or digit.
fn is_ident_part(c: char) -> (r: bool)
    ensures
        r == spec_is_ident_part(c),
{
    is_ident_start(c) || ('0' <= c && c <= '9')
}

impl<'src> Lexer<'src> {
    /// Runs the lexer over the rest of its source, as the parser pulls tokens
    /// from it: every token goes to the parser; an error with a poisoned token
    /// has its report recorded and the poisoned token handed on; an error
    /// without one ends the input.
    fn run_to_end(&mut self) -> (r: ParserInput<'src>)
        requires
            old(self).wf(),
        ensures
            final(self).wf(),
            *final(final(self).lines) == *final(old(self).lines),
            final(self).chars() == old(self).chars(),
            parser_tokens(r.tokens@) == tokens_from(old(self).chars(), old(self).index()),
            r.lex_errors@.len() == 0,
            final(self).base_lines() == old(self).base_lines(),
            final(self).line_starts() == old(self).base_lines() + break_starts(
                old(self).chars(),
                lexed_up_to(old(self).chars(), old(self).index()),
            ),
            match lexing_stop(old(self).chars(), old(self).index()) {
                Some(j) => r.fatal matches Some(rep) && is_simple_error(
                    rep,
                    illegal_char_msg(),
                    span_between(old(self).chars(), j, j),
                ),
                None => r.fatal is None,
            },
    {
        let ghost chars = self.chars();
        let ghost i0 = self.index();
        let mut tokens: Vec<(BytePos, Token<'src>, BytePos)> = Vec::new();
        let mut lex_errors: Vec<Report> = Vec::new();
        proof {
            self.lemma_index_in_range();
            self.lemma_lines_recorded();
            assert(parser_tokens(tokens@) + tokens_from(chars, i0) =~= tokens_from(chars, i0));
        }
        loop
            invariant
                self.wf(),
                *final(self.lines) == *final(old(self).lines),
                self.chars() == chars,
                chars == old(self).chars(),
                i0 == old(self).index(),
                0 <= self.index() <= chars.len(),
                parser_tokens(tokens@) + tokens_from(chars, self.index()) == tokens_from(chars, i0),
                lexing_stop(chars, self.index()) == lexing_stop(chars, i0),
                lex_errors@.len() == 0,
                self.base_lines() == old(self).base_lines(),
                self.line_starts() == self.base_lines() + break_starts(
                    chars,
                    clamp_index(self.index() + 1, chars.len() as int),
                ),
            decreases chars.len() - self.index(),
        {
            let ghost i = self.index();
            let ghost before = parser_tokens(tokens@);
            proof {
                lemma_trivia_end_bounds(chars, i);
            }
            let step = self.next_token_inner();
            proof {
                self.lemma_index_in_range();
            }
            match step {
                None => {
                    proof {
                        assert(before + tokens_from(chars, i) =~= before);
                    }
                    return ParserInput { tokens, lex_errors, fatal: None };
                },
                Some(Ok(ts)) => {
                    proof {
                        lemma_token_end(chars, trivia_end(chars, i));
                    }
                    tokens.push((ts.span.lo, ts.tok, ts.span.hi));
                    proof {
                        let j = trivia_end(chars, i);
                        let e = (token_at(chars, j)->0).1;
                        assert(parser_tokens(tokens@) =~= before.push((span_between(chars, j, e), ts.tok@)));
                        assert(before.push((span_between(chars, j, e), ts.tok@)) + tokens_from(chars, e) =~= before + (seq![(span_between(chars, j, e), ts.tok@)] + tokens_from(chars, e)));
                    }
                },
                Some(Err(err)) => {
                    match err.poison {
                        Some(p) => {
                            lex_errors.push(err.report);
                            tokens.push((p.span.lo, p.tok, p.span.hi));
                        },
                        None => {
                            proof {
                                assert(before + tokens_from(chars, i) =~= before);
                            }
                            return ParserInput { tokens, lex_errors, fatal: Some(err.report) };
                        },
                    }
                },
            }
        }
    }
}

/// Runs the lexer over the rest of its source, as the parser pulls tokens
/// from it: every token goes to the parser; an error with a poisoned token
/// has its report recorded and the poisoned token handed on; an error
/// without one ends the input.
pub fn parser_input<'src>(lexer: &mut Lexer<'src>) -> (r: ParserInput<'src>)
    requires
        old(lexer).wf(),
    ensures
        final(lexer).wf(),
        final(lexer).chars() == old(lexer).chars(),
        parser_tokens(r.tokens@) == tokens_from(old(lexer).chars(), old(lexer).index()),
        r.lex_errors@.len() == 0,
        final(lexer).base_lines() == old(lexer).base_lines(),
        final(lexer).line_starts() == old(lexer).base_lines() + break_starts(
            old(lexer).chars(),
            lexed_up_to(old(lexer).chars(), old(lexer).index()),
        ),
        match lexing_stop(old(lexer).chars(), old(lexer).index()) {
            Some(j) => r.fatal matches Some(rep) && is_simple_error(
                rep,
                illegal_char_msg(),
                span_between(old(lexer).chars(), j, j),
            ),
            None => r.fatal is None,
        },
{
    lexer.run_to_end()
}

/// Lexes the whole source of the file map, as the parser pulls tokens from
/// it (see `parser_input`). The file map then holds the line beginnings that
/// lexing passed, after those it held before.
pub fn lex_file<'src>(fmap: &'src mut FileMap) -> (r: ParserInput<'src>)
    requires
        old(fmap)@.wf(),
        old(fmap)@.lines.last().0 == 0,
        old(fmap)@.lines.len() + old(fmap)@.bytes().len() < u32::MAX,
    ensures
        final(fmap)@.src == old(fmap)@.src,
        final(fmap)@.filename == old(fmap)@.filename,
        final(fmap)@.lines == old(fmap)@.lines + break_starts(
            old(fmap)@.src,
            lexed_up_to(old(fmap)@.src, 0),
        ),
        parser_tokens(r.tokens@) == tokens_from(old(fmap)@.src, 0),
        r.lex_errors@.len() == 0,
        match lexing_stop(old(fmap)@.src, 0) {
            Some(j) => r.fatal matches Some(rep) && is_simple_error(
                rep,
                illegal_char_msg(),
                span_between(old(fmap)@.src, j, j),
            ),
            None => r.fatal is None,
        },
{
    let mut lexer = Lexer::recording(fmap);
    lexer.run_to_end()
}

/// What every step of the lexer guarantees. A step that finds a token moves
/// forward (so the lexer ends after at most as many tokens as the text has
/// chars), the token's span lies at or after where the step started, is not
/// empty, ends where the next step starts, and its bytes in the source are
/// exactly the token's text. A step that finds the end stays at the end, and
/// every later step finds the end again.
pub proof fn lemma_lex_step_laws<'a>(
    chars: Seq<char>,
    i: int,
    r: Option<Result<TokenSpan<'a>, Error<TokenSpan<'a>>>>,
    i2: int,
)
    requires
        0 <= i <= chars.len(),
        encode_utf8_len_fits(chars),
        lex_step(chars, i, r, i2),
    ensures
        i <= i2 <= chars.len(),
        r is None ==> i2 == chars.len() && forall|
            r2: Option<Result<TokenSpan<'a>, Error<TokenSpan<'a>>>>,
            i3: int,
        | #[trigger] lex_step(chars, i2, r2, i3) ==> r2 is None && i3 == i2,
        r matches Some(Ok(ts)) ==> {
            &&& i < i2
            &&& pos_at(chars, i).0 <= ts.span.lo.0 < ts.span.hi.0
            &&& ts.span.hi == pos_at(chars, i2)
            &&& vstd::utf8::encode_utf8(chars).subrange(ts.span.lo.0 as int, ts.span.hi.0 as int)
                == vstd::utf8::encode_utf8(token_text(ts.tok@))
        },
{
    lemma_trivia_end_bounds(chars, i);
    let j = trivia_end(chars, i);
    if j < chars.len() {
        if let Some((t, e)) = token_at(chars, j) {
            lemma_token_end(chars, j);
            lemma_token_text_is_source(chars, j);
            lemma_pos_at(chars, i);
            lemma_pos_at(chars, j);
            lemma_pos_at(chars, e);
            lemma_byte_offset_mono(chars, i, j);
            lemma_byte_offset_mono(chars, j, e);
            lemma_encode_subrange(chars, j, e);
        }
    }
}

} // verus!
