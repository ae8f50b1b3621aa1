//! What the parser of shape definitions gets from the lexer, and the
//! reports for what goes wrong while parsing.
use vstd::prelude::*;
use vstd::string::{StringExecFns, StringSliceAdditionalSpecFns};
use vstd::utf8::*;

use crate::filemap::FileMap;
use crate::lexer::{
    char_is_whitespace, clamp_index, comment_end, ident_end, is_comment_start,
    lemma_comment_end_ge, span_between, spec_is_ident_part, spec_is_ident_start, token_at,
    trivia_end, encode_utf8_len_fits, lemma_pos_at, pos_at,
};
use crate::pos::{BytePos, Span};
pub use crate::lexer::{lex_file, parser_input};
use crate::report::{is_simple_error, is_single_report, RemarkKind, Report, ReportKind, Snippet};
use crate::text::{byte_offset, char_range, collect_chars, len_utf8, lemma_byte_offset_full, lemma_byte_offset_mono, lemma_byte_offset_step, lemma_encode_subrange};
use crate::token::{keyword_of, keyword_text, token_text, Keyword, Token, TokenView};

verus! {

broadcast use vstd::utf8::group_utf8_lib;

/// How many chars of an unexpected token a message shows at most.
pub const MAX_PREVIEW_LEN: usize = 15;

/// Why parsing failed, as the parser reports it: at an invalid token, at an
/// unexpected end of the file, at an unexpected or an extra token (given
/// with its start and end), or with a report of its own.
pub enum ParseFailure<'src> {
    InvalidToken { location: BytePos },
    UnrecognizedEof { location: BytePos, expected: Vec<String> },
    UnrecognizedToken { token: (BytePos, Token<'src>, BytePos), expected: Vec<String> },
    ExtraToken { token: (BytePos, Token<'src>, BytePos) },
    User { error: Report },
}

/// The text that `{:?}` writes for a string: the string in double quotes,
/// with quotes, backslashes and control chars escaped.
pub uninterp spec fn str_debug_text(s: Seq<char>) -> Seq<char>;

/// Formats a string with `{:?}` (std's `Debug` for `str`). The contract
/// names the text; it claims that it depends on the string alone.
#[verifier::external_body]
fn debug_str(s: &str) -> (r: String)
    ensures
        r@ == str_debug_text(s@),
{
    format!("{:?}", s)
}

/// The `{:?}` texts of the strings, separated by `, `.
pub open spec fn debug_entries(v: Seq<Seq<char>>) -> Seq<char>
    decreases v.len(),
{
    if v.len() == 0 {
        Seq::empty()
    } else if v.len() == 1 {
        str_debug_text(v[0])
    } else {
        debug_entries(v.drop_last()) + ", "@ + str_debug_text(v.last())
    }
}

/// The text that `{:?}` writes for a list of strings: the `{:?}` texts of
/// its entries, separated by `, `, in square brackets.
pub open spec fn strings_debug_text(v: Seq<Seq<char>>) -> Seq<char> {
    "["@ + debug_entries(v) + "]"@
}

/// The text that `{:?}` writes for the list of strings.
pub fn debug_strings(v: &Vec<String>) -> (r: String)
    ensures
        r@ == strings_debug_text(v@.map_values(|s: String| s@)),
{
    let ghost views = v@.map_values(|s: String| s@);
    let mut entries = String::from_str("");
    proof {
        reveal_strlit("");
        assert(views.take(0) =~= Seq::<Seq<char>>::empty());
    }
    let mut i: usize = 0;
    while i < v.len()
        invariant
            0 <= i <= v@.len(),
            views == v@.map_values(|s: String| s@),
            entries@ == debug_entries(views.take(i as int)),
        decreases v@.len() - i,
    {
        let ghost before = entries@;
        if i > 0 {
            entries.append(", ");
        }
        let d = debug_str(v[i].as_str());
        entries.append(d.as_str());
        proof {
            let t = views.take(i + 1);
            assert(t.drop_last() =~= views.take(i as int));
            assert(t.last() == v@[i as int]@);
            if i == 0 {
                assert(before =~= Seq::<char>::empty());
                assert(entries@ =~= str_debug_text(t[0]));
            } else {
                assert(entries@ =~= before + ", "@ + str_debug_text(t.last()));
            }
        }
        i = i + 1;
    }
    proof {
        assert(views.take(i as int) =~= views);
    }
    let mut out = String::from_str("[");
    out.append(entries.as_str());
    out.append("]");
    out
}

/// The text that `{:?}` writes for a keyword: its variant's name.
pub open spec fn keyword_debug_text(k: Keyword) -> Seq<char> {
    match k {
        Keyword::Shape => "Shape"@,
        Keyword::Param => "Param"@,
    }
}

/// The text that `{:?}` writes for a token: the variant's name, followed by
/// its field in parentheses for identifiers and keywords.
pub open spec fn token_debug_text(t: TokenView) -> Seq<char> {
    match t {
        TokenView::Ident(s) => "Ident("@ + str_debug_text(s) + ")"@,
        TokenView::Keyword(k) => "Keyword("@ + keyword_debug_text(k) + ")"@,
        TokenView::ParenOp => "ParenOp"@,
        TokenView::ParenCl => "ParenCl"@,
        TokenView::BraceOp => "BraceOp"@,
        TokenView::BraceCl => "BraceCl"@,
        TokenView::BracketOp => "BracketOp"@,
        TokenView::BracketCl => "BracketCl"@,
        TokenView::Semi => "Semi"@,
        TokenView::Comma => "Comma"@,
        TokenView::Dot => "Dot"@,
        TokenView::Colon => "Colon"@,
        TokenView::ColonColon => "ColonColon"@,
    }
}

/// The text that `{:?}` writes for the token.
pub fn debug_token(t: &Token) -> (r: String)
    ensures
        r@ == token_debug_text(t@),
{
    match *t {
        Token::Ident(name) => {
            let mut out = String::from_str("Ident(");
            let quoted = debug_str(name);
            out.append(quoted.as_str());
            out.append(")");
            out
        },
        Token::Keyword(k) => {
            let mut out = String::from_str("Keyword(");
            match k {
                Keyword::Shape => out.append("Shape"),
                Keyword::Param => out.append("Param"),
            }
            out.append(")");
            out
        },
        Token::ParenOp => String::from_str("ParenOp"),
        Token::ParenCl => String::from_str("ParenCl"),
        Token::BraceOp => String::from_str("BraceOp"),
        Token::BraceCl => String::from_str("BraceCl"),
        Token::BracketOp => String::from_str("BracketOp"),
        Token::BracketCl => String::from_str("BracketCl"),
        Token::Semi => String::from_str("Semi"),
        Token::Comma => String::from_str("Comma"),
        Token::Dot => String::from_str("Dot"),
        Token::Colon => String::from_str("Colon"),
        Token::ColonColon => String::from_str("ColonColon"),
    }
}

/// The chars of the source between the byte offsets `lo` and `hi`.
pub open spec fn source_text(src: Seq<char>, lo: int, hi: int) -> Seq<char> {
    decode_utf8(encode_utf8(src).subrange(lo, hi))
}

/// What a message shows of a token's text: at most its first
/// `MAX_PREVIEW_LEN` chars, followed by `...` if it is longer.
pub open spec fn preview(text: Seq<char>) -> Seq<char> {
    if text.len() > MAX_PREVIEW_LEN {
        text.take(MAX_PREVIEW_LEN as int) + "..."@
    } else {
        text
    }
}

/// The message for an unexpected token with the given name and text when
/// the parser expected one of `expected`.
pub open spec fn unexpected_token_msg(name: Seq<char>, text: Seq<char>, expected: Seq<Seq<char>>) -> Seq<
    char,
> {
    let p = preview(text);
    let head = "unexpected '"@ + name + "'"@;
    let with_text = if name != p {
        head + " (`"@ + p + "`)"@
    } else {
        head
    };
    if expected.len() == 1 {
        with_text + ". Expected `"@ + expected[0] + "`"@
    } else if expected.len() > 1 {
        with_text + ". Expected one of "@ + strings_debug_text(expected)
    } else {
        with_text
    }
}

/// The message for an unexpected end of the file.
pub open spec fn eof_msg() -> Seq<char> {
    "Unexpected end of file (EOF) while parsing. Maybe you forgot to close a parentheses or brace?"@
}

/// The span of `[lo, hi)` can be cut out of the source: it lies within it,
/// in order, and on char boundaries.
pub open spec fn span_readable(src: Seq<char>, lo: int, hi: int) -> bool {
    &&& 0 <= lo <= hi <= encode_utf8(src).len()
    &&& is_char_boundary(encode_utf8(src), lo)
    &&& is_char_boundary(encode_utf8(src), hi)
}

/// The part of `s` between the byte offsets `lo` and `hi`.
fn byte_range<'a>(s: &'a str, lo: usize, hi: usize) -> (r: &'a str)
    requires
        span_readable(s@, lo as int, hi as int),
    ensures
        r@ == source_text(s@, lo as int, hi as int),
        r.spec_bytes() == s.spec_bytes().subrange(lo as int, hi as int),
{
    proof {
        encode_utf8_valid_utf8(s@);
    }
    let (_, rest) = s.split_at(lo);
    proof {
        assert(rest.spec_bytes() =~= s.spec_bytes().subrange(lo as int, s.spec_bytes().len() as int));
        encode_utf8_valid_utf8(rest@);
        is_char_boundary_start_end_of_seq(rest.spec_bytes());
        if hi < s.spec_bytes().len() {
            is_char_boundary_iff_is_leading_byte(s.spec_bytes(), hi as int);
            is_char_boundary_iff_is_leading_byte(rest.spec_bytes(), hi - lo);
        }
    }
    let (part, _) = rest.split_at(hi - lo);
    proof {
        assert(part.spec_bytes() =~= s.spec_bytes().subrange(lo as int, hi as int));
        encode_utf8_decode_utf8(part@);
    }
    part
}

/// The preview of `text` for a message.
fn preview_of(text: &str) -> (r: String)
    ensures
        r@ == preview(text@),
{
    let chs = collect_chars(text);
    if chs.len() > MAX_PREVIEW_LEN {
        let ghost cs = text@;
        let mut pos: usize = 0;
        let mut k: usize = 0;
        let total = text.as_bytes().len();
        proof {
            lemma_byte_offset_full(cs);
        }
        while k < MAX_PREVIEW_LEN
            invariant
                chs@ == cs,
                cs == text@,
                cs.len() > MAX_PREVIEW_LEN,
                0 <= k <= MAX_PREVIEW_LEN,
                pos == byte_offset(cs, k as int),
                byte_offset(cs, cs.len() as int) == total,
            decreases MAX_PREVIEW_LEN - k,
        {
            proof {
                lemma_byte_offset_step(cs, k as int);
                lemma_byte_offset_mono(cs, k + 1, cs.len() as int);
            }
            pos = pos + len_utf8(chs[k]) as usize;
            k = k + 1;
        }
        proof {
            lemma_byte_offset_mono(cs, 0, 0);
            assert(cs.take(0) =~= Seq::<char>::empty());
        }
        let head = char_range(text, 0, pos, Ghost(0), Ghost(MAX_PREVIEW_LEN as int));
        proof {
            assert(cs.subrange(0, MAX_PREVIEW_LEN as int) =~= cs.take(MAX_PREVIEW_LEN as int));
        }
        {
            let mut out = String::from_str(head);
            out.append("...");
            out
        }
    } else {
        text.to_owned()
    }
}

/// The report for a failed parse of the source in `file_map`: the parser's
/// own report for a failure of its own, else an error (without a span for
/// an unexpected end of the file) whose message names what went wrong.
pub fn parse_failure_report(e: ParseFailure, file_map: &FileMap) -> (r: Report)
    requires
        e matches ParseFailure::InvalidToken { location } ==> location.0 < u32::MAX,
        e matches ParseFailure::UnrecognizedToken { token, .. } ==> span_readable(
            file_map@.src,
            token.0.0 as int,
            token.2.0 as int,
        ),
    ensures
        match e {
            ParseFailure::InvalidToken { location } => is_simple_error(
                r,
                "lalrpop InvalidToken"@,
                Span { lo: location, hi: BytePos((location.0 + 1) as u32) },
            ),
            ParseFailure::UnrecognizedEof { .. } => is_single_report(
                r,
                ReportKind::Error,
                None,
                RemarkKind::Error,
                eof_msg(),
                Snippet::Absent,
            ),
            ParseFailure::UnrecognizedToken { token, expected } => is_simple_error(
                r,
                unexpected_token_msg(
                    token_text(token.1@),
                    source_text(file_map@.src, token.0.0 as int, token.2.0 as int),
                    expected@.map_values(|s: String| s@),
                ),
                Span { lo: token.0, hi: token.2 },
            ),
            ParseFailure::ExtraToken { token } => is_simple_error(
                r,
                "lalrpop ExtraToken "@ + token_debug_text(token.1@),
                Span { lo: token.0, hi: token.2 },
            ),
            ParseFailure::User { error } => r == error,
        },
{
    match e {
        ParseFailure::User { error } => error,
        ParseFailure::InvalidToken { location } => {
            Report::simple_error("lalrpop InvalidToken", Span::single(location))
        },
        ParseFailure::UnrecognizedEof { .. } => {
            Report::simple_spanless_error(
                "Unexpected end of file (EOF) while parsing. Maybe you forgot to close a parentheses or brace?",
            )
        },
        ParseFailure::UnrecognizedToken { token: (lo, tok, hi), expected } => {
            let tok_name = tok.as_str();
            let span = Span::new(lo, hi);
            let text = byte_range(file_map.src(), lo.0 as usize, hi.0 as usize);
            let tok_str = preview_of(text);
            let mut msg = String::from_str("unexpected '");
            msg.append(tok_name);
            msg.append("'");
            if tok_name.to_owned() != tok_str {
                msg.append(" (`");
                msg.append(tok_str.as_str());
                msg.append("`)");
            }
            if expected.len() == 1 {
                msg.append(". Expected `");
                msg.append(expected[0].as_str());
                msg.append("`");
            } else if expected.len() > 1 {
                msg.append(". Expected one of ");
                let list = debug_strings(&expected);
                msg.append(list.as_str());
            }
            Report::simple_error(msg.as_str(), span)
        },
        ParseFailure::ExtraToken { token: (lo, tok, hi) } => {
            let name = debug_token(&tok);
            let mut msg = String::from_str("lalrpop ExtraToken ");
            msg.append(name.as_str());
            Report::simple_error(msg.as_str(), Span::new(lo, hi))
        },
    }
}

/// Skipping whitespace and comments never moves back, nor past the end.
pub proof fn lemma_trivia_end_bounds(chars: Seq<char>, i: int)
    requires
        0 <= i <= chars.len(),
    ensures
        i <= trivia_end(chars, i) <= chars.len(),
    decreases chars.len() - i,
{
    if 0 <= i < chars.len() && char_is_whitespace(chars[i]) {
        lemma_trivia_end_bounds(chars, i + 1);
    } else if is_comment_start(chars, i) {
        lemma_comment_end_ge(chars, i + 2);
        lemma_trivia_end_bounds(chars, comment_end(chars, i + 2));
    }
}

/// An identifier ends after its start and not past the end.
pub proof fn lemma_ident_end_bounds(chars: Seq<char>, i: int)
    requires
        0 <= i <= chars.len(),
    ensures
        i <= ident_end(chars, i) <= chars.len(),
    decreases chars.len() - i,
{
    if 0 <= i < chars.len() && spec_is_ident_part(chars[i]) {
        lemma_ident_end_bounds(chars, i + 1);
    }
}

/// A token ends after its start and not past the end.
pub proof fn lemma_token_end(chars: Seq<char>, j: int)
    requires
        0 <= j < chars.len(),
        token_at(chars, j) is Some,
    ensures
        j < (token_at(chars, j)->0).1 <= chars.len(),
{
    lemma_ident_end_bounds(chars, j + 1);
}

/// The text of every token that lexing finds is the source text of its
/// span: what the token stands for is exactly what was written there.
pub proof fn lemma_token_text_is_source(chars: Seq<char>, j: int)
    requires
        0 <= j < chars.len(),
        token_at(chars, j) is Some,
    ensures
        token_text((token_at(chars, j)->0).0) == chars.subrange(j, (token_at(chars, j)->0).1),
{
    lemma_token_end(chars, j);
    let e = (token_at(chars, j)->0).1;
    let c = chars[j];
    if spec_is_ident_start(c) && !(c == '(' || c == ')' || c == '{' || c == '}' || c == '[' || c == ']'
        || c == ';' || c == ',' || c == '.' || c == ':') {
        let w = chars.subrange(j, e);
        if keyword_of(w) is Some {
            if w == keyword_text(Keyword::Shape) {
            } else {
                assert(w == keyword_text(Keyword::Param));
            }
        }
    } else {
        assert(chars.subrange(j, e) =~= if e == j + 2 { seq![c, chars[j + 1]] } else { seq![c] });
    }
}

/// The tokens that lexing `chars` from position `i` on yields, each with
/// its span, up to the end or to the first char that may not start a token.
pub open spec fn tokens_from(chars: Seq<char>, i: int) -> Seq<(Span, TokenView)>
    decreases chars.len() - i,
{
    if 0 <= i <= chars.len() {
        let j = trivia_end(chars, i);
        proof {
            lemma_trivia_end_bounds(chars, i);
        }
        if j >= chars.len() {
            Seq::empty()
        } else {
            match token_at(chars, j) {
                Some((t, e)) => {
                    proof {
                        lemma_token_end(chars, j);
                    }
                    seq![(span_between(chars, j, e), t)] + tokens_from(chars, e)
                },
                None => Seq::empty(),
            }
        }
    } else {
        Seq::empty()
    }
}

/// Where lexing `chars` from position `i` on stops at a char that may not
/// start a token, if it does.
pub open spec fn lexing_stop(chars: Seq<char>, i: int) -> Option<int>
    decreases chars.len() - i,
{
    if 0 <= i <= chars.len() {
        let j = trivia_end(chars, i);
        proof {
            lemma_trivia_end_bounds(chars, i);
        }
        if j >= chars.len() {
            None
        } else {
            match token_at(chars, j) {
                Some((_, e)) => {
                    proof {
                        lemma_token_end(chars, j);
                    }
                    lexing_stop(chars, e)
                },
                None => Some(j),
            }
        }
    } else {
        None
    }
}

/// The tokens of a whole lexing run from position `i`: at most one per
/// char, each with a non-empty span at or after `i` whose bytes in the
/// source are exactly the token's text, in increasing, non-overlapping
/// order.
pub proof fn lemma_tokens_from_laws(chars: Seq<char>, i: int)
    requires
        0 <= i <= chars.len(),
        encode_utf8_len_fits(chars),
    ensures
        tokens_from(chars, i).len() <= chars.len() - i,
        forall|k: int|
            0 <= k < tokens_from(chars, i).len() ==> {
                let t = #[trigger] tokens_from(chars, i)[k];
                &&& pos_at(chars, i).0 <= t.0.lo.0 < t.0.hi.0
                &&& encode_utf8(chars).subrange(t.0.lo.0 as int, t.0.hi.0 as int) == encode_utf8(
                    token_text(t.1),
                )
            },
        forall|k: int, l: int|
            0 <= k < l < tokens_from(chars, i).len() ==> (#[trigger] tokens_from(chars, i)[k]).0.hi.0
                <= (#[trigger] tokens_from(chars, i)[l]).0.lo.0,
    decreases chars.len() - i,
{
    lemma_trivia_end_bounds(chars, i);
    let j = trivia_end(chars, i);
    if j < chars.len() {
        if let Some((t, e)) = token_at(chars, j) {
            lemma_token_end(chars, j);
            lemma_token_text_is_source(chars, j);
            lemma_pos_at(chars, i);
            lemma_pos_at(chars, j);
            lemma_pos_at(chars, e);
            lemma_byte_offset_mono(chars, i, j);
            lemma_byte_offset_mono(chars, j, e);
            lemma_encode_subrange(chars, j, e);
            lemma_tokens_from_laws(chars, e);
            let rest = tokens_from(chars, e);
            let all = tokens_from(chars, i);
            assert(all == seq![(span_between(chars, j, e), t)] + rest);
            assert forall|k: int| 0 < k < all.len() implies all[k] == rest[k - 1] by {}
        }
    }
}

/// How far lexing `chars` from position `i` on records line beginnings: up
/// to and including the char where it stops, or to the end.
pub open spec fn lexed_up_to(chars: Seq<char>, i: int) -> int {
    match lexing_stop(chars, i) {
        Some(j) => clamp_index(j + 1, chars.len() as int),
        None => chars.len() as int,
    }
}

/// The tokens as the parser gets them: start, token, end.
pub open spec fn parser_tokens<'src>(v: Seq<(BytePos, Token<'src>, BytePos)>) -> Seq<(Span, TokenView)> {
    v.map_values(|t: (BytePos, Token<'src>, BytePos)| (Span { lo: t.0, hi: t.2 }, t.1@))
}

/// What the parser is handed of a file: the tokens with their start and
/// end, the reports of lexing errors that the lexer recovered from, and the
/// report of the lexing error that ends the input, if any.
pub struct ParserInput<'src> {
    pub tokens: Vec<(BytePos, Token<'src>, BytePos)>,
    pub lex_errors: Vec<Report>,
    pub fatal: Option<Report>,
}


} // verus!
