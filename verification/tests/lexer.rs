use cantucci::filemap::FileMap;
use cantucci::lexer::{map_both, Error, ErrorKind, Lexer};
use cantucci::pos::{BytePos, Span};
use cantucci::report::{RemarkKind, Report, ReportKind, Snippet};
use cantucci::token::{Keyword, Token, TokenSpan};

fn lex_all(src: &str) -> (Vec<(String, Token<'static>, u32, u32)>, Vec<BytePos>) {
    let mut map = FileMap::new("<anon>", src);
    let mut out = Vec::new();
    {
        let mut lexer = Lexer::new(&mut map);
        while let Some(res) = lexer.next_token() {
            let ts = res.expect("no lexing error expected");
            let text = ts.tok.as_str().to_string();
            let tok = match ts.tok {
                Token::Ident(_) => Token::Ident("<ident>"),
                Token::Keyword(k) => Token::Keyword(k),
                Token::ParenOp => Token::ParenOp,
                Token::ParenCl => Token::ParenCl,
                Token::BraceOp => Token::BraceOp,
                Token::BraceCl => Token::BraceCl,
                Token::BracketOp => Token::BracketOp,
                Token::BracketCl => Token::BracketCl,
                Token::Semi => Token::Semi,
                Token::Comma => Token::Comma,
                Token::Dot => Token::Dot,
                Token::Colon => Token::Colon,
                Token::ColonColon => Token::ColonColon,
            };
            out.push((text, tok, ts.span.lo.0, ts.span.hi.0));
        }
    }
    (out, map.lines().to_vec())
}

#[test]
fn lexes_shape_definition() {
    let src = "
        shape Sphere {
            param RADIUS: f32;
        }
    ";
    let (toks, _) = lex_all(src);
    let texts: Vec<&str> = toks.iter().map(|t| t.0.as_str()).collect();
    assert_eq!(texts, vec!["shape", "Sphere", "{", "param", "RADIUS", ":", "f32", ";", "}"]);
    assert_eq!(toks[0].1, Token::Keyword(Keyword::Shape));
    assert_eq!(toks[1].1, Token::Ident("<ident>"));
    assert_eq!(toks[3].1, Token::Keyword(Keyword::Param));
    assert_eq!(toks[5].1, Token::Colon);
    // "shape" starts after the line break and eight spaces
    assert_eq!((toks[0].2, toks[0].3), (9, 14));
}

#[test]
fn token_text_matches_source_span() {
    let src = "a::b (c) [d], e.f; // comment\n{g}";
    let (toks, _) = lex_all(src);
    for (text, _, lo, hi) in &toks {
        assert_eq!(&src[*lo as usize..*hi as usize], text.as_str());
    }
    let kinds: Vec<Token> = toks.iter().map(|t| t.1.clone()).collect();
    assert_eq!(kinds, vec![
        Token::Ident("<ident>"), Token::ColonColon, Token::Ident("<ident>"),
        Token::ParenOp, Token::Ident("<ident>"), Token::ParenCl,
        Token::BracketOp, Token::Ident("<ident>"), Token::BracketCl, Token::Comma,
        Token::Ident("<ident>"), Token::Dot, Token::Ident("<ident>"), Token::Semi,
        Token::BraceOp, Token::Ident("<ident>"), Token::BraceCl,
    ]);
}

#[test]
fn comments_and_whitespace_are_skipped() {
    let (toks, _) = lex_all("// only a comment\n   \t\n// another");
    assert!(toks.is_empty());
    let (toks, _) = lex_all("");
    assert!(toks.is_empty());
}

#[test]
fn lexer_records_line_beginnings() {
    let (_, lines) = lex_all("ab\ncd\r\nef\rgh");
    // '\n' and a lone '\r' end lines; "\r\n" ends one line.
    assert_eq!(lines, vec![BytePos(0), BytePos(3), BytePos(7), BytePos(10)]);
}

#[test]
fn illegal_char_is_reported_and_not_consumed() {
    let mut map = FileMap::new("<anon>", "  ä x");
    let mut lexer = Lexer::new(&mut map);
    let first = lexer.next_token().unwrap();
    let err = first.unwrap_err();
    assert_eq!(err.kind, ErrorKind::IllegalChar('ä'));
    assert!(err.poison.is_none());
    assert_eq!(err.report.kind, ReportKind::Error);
    assert_eq!(err.report.span, Some(Span::new(BytePos(2), BytePos(2))));
    assert_eq!(err.report.remarks.len(), 1);
    assert_eq!(err.report.remarks[0].kind, RemarkKind::Error);
    assert_eq!(err.report.remarks[0].desc, "illegal character in this context");
    assert_eq!(err.report.remarks[0].snippet, Snippet::Orig(Span::new(BytePos(2), BytePos(2))));
    // The lexer stays in front of the illegal char.
    let second = lexer.next_token().unwrap().unwrap_err();
    assert_eq!(second.kind, ErrorKind::IllegalChar('ä'));
}

#[test]
fn identifier_after_multibyte_whitespace() {
    // U+00A0 (no-break space) is whitespace and takes two bytes.
    let (toks, _) = lex_all("\u{00A0}abc1 x9");
    assert_eq!(toks.len(), 2);
    assert_eq!((toks[0].0.as_str(), toks[0].2, toks[0].3), ("abc1", 2, 6));
    assert_eq!((toks[1].0.as_str(), toks[1].2, toks[1].3), ("x9", 7, 9));
}

#[test]
fn end_of_file_gives_none_repeatedly() {
    let mut map = FileMap::new("<anon>", "x");
    let mut lexer = Lexer::new(&mut map);
    assert!(lexer.next_token().unwrap().is_ok());
    assert!(lexer.next_token().is_none());
    assert!(lexer.next_token().is_none());
}

#[test]
fn keywords_round_trip() {
    assert_eq!(Keyword::from_str("shape"), Ok(Keyword::Shape));
    assert_eq!(Keyword::from_str("param"), Ok(Keyword::Param));
    assert_eq!(Keyword::from_str("Shape"), Err(()));
    assert_eq!(Keyword::from_str("shapes"), Err(()));
    assert_eq!(Keyword::Shape.as_str(), "shape");
    assert_eq!(Keyword::Param.as_str(), "param");
    assert_eq!(Token::ColonColon.as_str(), "::");
    assert_eq!(Token::Ident("abc").as_str(), "abc");
}

fn sample_error(poison: Option<u32>) -> Error<u32> {
    Error {
        kind: ErrorKind::IllegalChar('#'),
        report: Report::simple_error("bad", Span::new(BytePos(1), BytePos(2))),
        poison,
    }
}

#[test]
fn error_maps() {
    let e = sample_error(Some(20)).map_poison(|p| p + 1);
    assert_eq!(e.poison, Some(21));
    assert_eq!(e.kind, ErrorKind::IllegalChar('#'));
    let e = sample_error(None).map_poison(|p| p + 1);
    assert_eq!(e.poison, None);
    let e = sample_error(Some(3)).map_report(|r| r.with_note("more"));
    assert_eq!(e.report.remarks.len(), 2);
    assert_eq!(e.poison, Some(3));
}

#[test]
fn map_both_maps_values_and_poisons() {
    let ok: Result<u32, Error<u32>> = Ok(4);
    assert_eq!(map_both(ok, |x| x * 2).unwrap(), 8);
    let err: Result<u32, Error<u32>> = Err(sample_error(Some(5)));
    let mapped = map_both(err, |x| x * 2).unwrap_err();
    assert_eq!(mapped.poison, Some(10));
    assert_eq!(mapped.kind, ErrorKind::IllegalChar('#'));
}

#[test]
fn token_span_holds_token() {
    let ts = TokenSpan { tok: Token::Semi, span: Span::new(BytePos(0), BytePos(1)) };
    assert_eq!(ts.tok.as_str(), ";");
}

#[test]
fn whitespace_is_the_unicode_set() {
    for v in 0u32..0x3100 {
        if let Some(c) = char::from_u32(v) {
            assert_eq!(cantucci::lexer::is_whitespace(c), c.is_whitespace(), "{:?}", c);
        }
    }
    for v in [0xfeffu32, 0x10ffff, 0x180e, 0x200b] {
        let c = char::from_u32(v).unwrap();
        assert_eq!(cantucci::lexer::is_whitespace(c), c.is_whitespace());
    }
}

#[test]
fn lexes_simple_shape_tokens() {
    let (toks, _) = lex_all("shape foo { }");
    let got: Vec<(String, u32, u32)> = toks.into_iter().map(|(t, _, lo, hi)| (t, lo, hi)).collect();
    assert_eq!(got, vec![
        ("shape".to_string(), 0, 5),
        ("foo".to_string(), 6, 9),
        ("{".to_string(), 10, 11),
        ("}".to_string(), 12, 13),
    ]);
}

#[test]
fn lexer_ends_and_stays_at_end() {
    let src = "shape foo { }";
    let mut map = FileMap::new("<t>", src);
    let mut lexer = Lexer::new(&mut map);
    let mut calls = 0;
    let mut last_hi = 0;
    while let Some(res) = lexer.next_token() {
        let ts = res.expect("no lexing error expected");
        assert!(ts.span.lo.0 < ts.span.hi.0 && last_hi <= ts.span.lo.0);
        assert_eq!(&src[ts.span.lo.0 as usize..ts.span.hi.0 as usize], ts.tok.as_str());
        last_hi = ts.span.hi.0;
        calls += 1;
        assert!(calls <= src.len());
    }
    assert!(lexer.next_token().is_none());
    assert!(lexer.next_token().is_none());
    assert_eq!(calls, 4);
}
