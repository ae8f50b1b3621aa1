use cantucci::filemap::FileMap;
use cantucci::lexer::Lexer;
use cantucci::load::{debug_strings, debug_token, lex_file, parse_failure_report, parser_input, ParseFailure};
use cantucci::pos::{BytePos, LineIdx, Span};
use cantucci::report::{Remark, Report, Snippet};
use cantucci::token::{Keyword, Token};

fn only_message(rep: &Report) -> &str {
    assert_eq!(rep.remarks.len(), 1);
    &rep.remarks[0].desc
}

#[test]
fn invalid_token_report() {
    let map = FileMap::new("<t>", "abc");
    let rep = parse_failure_report(ParseFailure::InvalidToken { location: BytePos(2) }, &map);
    assert_eq!(rep, Report::simple_error("lalrpop InvalidToken", Span::new(BytePos(2), BytePos(3))));
}

#[test]
fn unexpected_eof_report() {
    let map = FileMap::new("<t>", "shape X {");
    let e = ParseFailure::UnrecognizedEof { location: BytePos(9), expected: vec!["\"}\"".to_string()] };
    let rep = parse_failure_report(e, &map);
    assert_eq!(rep.span, None);
    assert_eq!(rep.remarks, vec![Remark::error(
        "Unexpected end of file (EOF) while parsing. Maybe you forgot to close a parentheses or brace?",
        Snippet::Absent,
    )]);
}

#[test]
fn unexpected_token_report_names_token() {
    let src = "shape shape";
    let map = FileMap::new("<t>", src);
    let tok = (BytePos(6), Token::Keyword(Keyword::Shape), BytePos(11));
    let rep = parse_failure_report(ParseFailure::UnrecognizedToken { token: tok.clone(), expected: vec![] }, &map);
    assert_eq!(rep.span, Some(Span::new(BytePos(6), BytePos(11))));
    assert_eq!(only_message(&rep), "unexpected 'shape'");

    let one = vec!["Ident".to_string()];
    let rep = parse_failure_report(ParseFailure::UnrecognizedToken { token: tok.clone(), expected: one }, &map);
    assert_eq!(only_message(&rep), "unexpected 'shape'. Expected `Ident`");

    let two = vec!["\"{\"".to_string(), "\";\"".to_string()];
    let rep = parse_failure_report(ParseFailure::UnrecognizedToken { token: tok, expected: two }, &map);
    assert_eq!(only_message(&rep), "unexpected 'shape'. Expected one of [\"\\\"{\\\"\", \"\\\";\\\"\"]");
}

#[test]
fn unexpected_token_report_shows_differing_text() {
    // the token's name differs from the text of its span: the text is shown
    // too, cut after 15 chars
    let src = "x abcdefghijklmnopqrstuvwxyz";
    let map = FileMap::new("<t>", src);
    let tok = (BytePos(2), Token::Ident("abc"), BytePos(28));
    let rep = parse_failure_report(ParseFailure::UnrecognizedToken { token: tok, expected: vec![] }, &map);
    assert_eq!(only_message(&rep), "unexpected 'abc' (`abcdefghijklmno...`)");

    let tok = (BytePos(2), Token::Semi, BytePos(5));
    let rep = parse_failure_report(ParseFailure::UnrecognizedToken { token: tok, expected: vec![] }, &map);
    assert_eq!(only_message(&rep), "unexpected ';' (`abc`)");
}

#[test]
fn extra_token_report() {
    let map = FileMap::new("<t>", "shape X;;");
    let tok = (BytePos(8), Token::Semi, BytePos(9));
    let rep = parse_failure_report(ParseFailure::ExtraToken { token: tok }, &map);
    assert_eq!(rep, Report::simple_error("lalrpop ExtraToken Semi", Span::new(BytePos(8), BytePos(9))));
}

#[test]
fn user_report_is_kept() {
    let map = FileMap::new("<t>", "");
    let own = Report::simple_spanless_error("custom");
    let rep = parse_failure_report(ParseFailure::User { error: own.clone() }, &map);
    assert_eq!(rep, own);
}

#[test]
fn parser_input_collects_tokens() {
    let mut map = FileMap::new("<t>", "shape S { param R: f32; }");
    let mut lexer = Lexer::new(&mut map);
    let input = parser_input(&mut lexer);
    assert!(input.fatal.is_none());
    assert!(input.lex_errors.is_empty());
    let names: Vec<&str> = input.tokens.iter().map(|t| t.1.as_str()).collect();
    assert_eq!(names, vec!["shape", "S", "{", "param", "R", ":", "f32", ";", "}"]);
    assert_eq!((input.tokens[0].0, input.tokens[0].2), (BytePos(0), BytePos(5)));
    assert_eq!((input.tokens[8].0, input.tokens[8].2), (BytePos(24), BytePos(25)));
}

#[test]
fn parser_input_stops_at_illegal_char() {
    let mut map = FileMap::new("<t>", "shape $ S");
    let mut lexer = Lexer::new(&mut map);
    let input = parser_input(&mut lexer);
    assert_eq!(input.tokens.len(), 1);
    let fatal = input.fatal.expect("lexing stops at `$`");
    assert_eq!(fatal, Report::simple_error("illegal character in this context", Span::new(BytePos(6), BytePos(6))));
}

#[test]
fn token_text_is_source_text() {
    let src = "shape Ball { param radius: f32; p::q, [x.y] }";
    let mut map = FileMap::new("<t>", src);
    let mut lexer = Lexer::new(&mut map);
    let input = parser_input(&mut lexer);
    assert!(input.fatal.is_none());
    for (lo, tok, hi) in &input.tokens {
        assert_eq!(&src[lo.0 as usize..hi.0 as usize], tok.as_str());
    }
    assert_eq!(input.tokens.len(), 18);
}

#[test]
fn debug_token_matches_derived_debug() {
    let toks = [
        Token::Ident("a\"b"),
        Token::Keyword(Keyword::Shape),
        Token::Keyword(Keyword::Param),
        Token::ParenOp,
        Token::ParenCl,
        Token::BraceOp,
        Token::BraceCl,
        Token::BracketOp,
        Token::BracketCl,
        Token::Semi,
        Token::Comma,
        Token::Dot,
        Token::Colon,
        Token::ColonColon,
    ];
    for t in &toks {
        assert_eq!(debug_token(t), format!("{:?}", t));
    }
    assert_eq!(debug_token(&Token::ColonColon), "ColonColon");
    assert_eq!(debug_token(&Token::Keyword(Keyword::Shape)), "Keyword(Shape)");
    assert_eq!(debug_token(&Token::Ident("foo")), "Ident(\"foo\")");
}

#[test]
fn lex_file_records_line_starts() {
    let mut map = FileMap::new("<t>", "a::b // c\nx");
    let names: Vec<(String, u32, u32)> = {
        let input = lex_file(&mut map);
        assert!(input.fatal.is_none());
        input.tokens.iter().map(|(lo, t, hi)| (t.as_str().to_string(), lo.0, hi.0)).collect()
    };
    assert_eq!(names, vec![
        ("a".to_string(), 0, 1),
        ("::".to_string(), 1, 3),
        ("b".to_string(), 3, 4),
        ("x".to_string(), 10, 11),
    ]);
    assert_eq!(map.num_lines(), 2);
    assert_eq!(map.get_line_start(LineIdx(1)), Some(BytePos(10)));
    assert_eq!(map.src(), "a::b // c\nx");
    assert_eq!(map.filename(), "<t>");
}

#[test]
fn lex_file_stops_at_underscore() {
    let mut map = FileMap::new("<t>", "a_b\n");
    let fatal = {
        let input = lex_file(&mut map);
        assert_eq!(input.tokens.len(), 1);
        input.fatal
    };
    assert_eq!(fatal, Some(Report::simple_error("illegal character in this context", Span::new(BytePos(1), BytePos(1)))));
    // lexing stopped at `_`, before the line break
    assert_eq!(map.num_lines(), 1);
}

#[test]
fn debug_strings_matches_std() {
    let lists: Vec<Vec<String>> = vec![
        vec![],
        vec!["a".to_string()],
        vec!["\"{\"".to_string(), "x\ny".to_string(), "tab\t".to_string()],
    ];
    for v in &lists {
        assert_eq!(debug_strings(v), format!("{:?}", v));
    }
}
