use cantucci::filemap::FileMap;
use cantucci::layout::{
    can_show_snippet, header_lines, remark_title, snippet_layout, split_words, wrap_remark, HeaderLines,
    PrintOptions, SnippetLayout, SnippetLine,
};
use cantucci::pos::{BytePos, LineIdx, Span};
use cantucci::report::{Remark, RemarkKind, Report, Snippet};

fn text(bytes: &[u8]) -> &str {
    std::str::from_utf8(bytes).unwrap()
}

fn parts(l: &SnippetLine) -> (&str, &str, &str) {
    (text(&l.before), text(&l.middle), text(&l.after))
}

fn file(src: &str) -> FileMap {
    let mut map = FileMap::new("<test>", src);
    map.find_lines();
    map
}

#[test]
fn print_options_default_enables_everything() {
    let o = PrintOptions::default();
    assert!(o.unicode && o.color && o.line_wrap);
}

#[test]
fn header_names_lines_of_span() {
    let map = file("ab\ncd\nef");
    let single = Report::simple_error("x", Span::new(BytePos(3), BytePos(5)));
    assert_eq!(header_lines(&single, &map), HeaderLines::Single(LineIdx(1)));
    let multi = Report::simple_error("x", Span::new(BytePos(1), BytePos(7)));
    assert_eq!(header_lines(&multi, &map), HeaderLines::Range(LineIdx(0), LineIdx(2)));
    let none = Report::simple_spanless_error("x");
    assert_eq!(header_lines(&none, &map), HeaderLines::NoSpan);
    let dummy = Report::simple_error("x", Span::dummy());
    assert_eq!(header_lines(&dummy, &map), HeaderLines::Dummy);
}

#[test]
fn remark_titles() {
    assert_eq!(remark_title(RemarkKind::Error), ("error:", 6));
    assert_eq!(remark_title(RemarkKind::Warning), ("warning:", 8));
    assert_eq!(remark_title(RemarkKind::Note), ("note:", 5));
}

#[test]
fn words_are_split_at_whitespace() {
    assert_eq!(split_words("  a bc\t\nd  "), vec!["a", "bc", "d"]);
    assert_eq!(split_words(""), Vec::<&str>::new());
    assert_eq!(split_words("   "), Vec::<&str>::new());
    assert_eq!(split_words("grüße\u{2003}welt"), vec!["grüße", "welt"]);
}

#[test]
fn remark_text_is_wrapped_at_block_width() {
    // error: block width is 80 - (6 + 6 + 2 + 6 + 1) = 59
    let word = "abcdefghij"; // 10 chars, 11 columns with the space
    let desc = vec![word; 7].join(" ");
    let rem = Remark::error(&desc, Snippet::Absent);
    let laid: Vec<(&str, bool)> = wrap_remark(&rem);
    assert_eq!(laid.len(), 7);
    // columns before each word: 0, 11, 22, 33, 44, 55 -> 55 + 10 >= 59 breaks
    let breaks: Vec<bool> = laid.iter().map(|&(_, b)| b).collect();
    assert_eq!(breaks, vec![false, false, false, false, false, true, false]);
    assert!(laid.iter().all(|&(w, _)| w == word));
}

#[test]
fn overlong_word_stays_on_its_line() {
    let long = "x".repeat(100);
    let desc = format!("{} y", long);
    let rem = Remark::note(&desc, Snippet::Absent);
    let laid = wrap_remark(&rem);
    assert_eq!(laid, vec![(long.as_str(), false), ("y", true)]);
}

#[test]
fn dummy_snippet() {
    let map = file("abc");
    let sp = Span::dummy();
    assert!(matches!(snippet_layout(&map, sp, &Snippet::Orig(sp)), SnippetLayout::Dummy));
}

#[test]
fn single_line_snippet_with_tabs() {
    let map = file("x\n\tfoo bar\n");
    // "bar" in line 1: bytes 7..10, columns 5..8
    let sp = Span::new(BytePos(7), BytePos(10));
    match snippet_layout(&map, sp, &Snippet::Orig(sp)) {
        SnippetLayout::Single { line, text: t, replaced, underline_col, underline_len } => {
            assert_eq!(line, LineIdx(1));
            assert_eq!(parts(&t), ("    foo ", "bar", ""));
            assert!(!replaced);
            assert_eq!(underline_col, 8);
            assert_eq!(underline_len, 3);
        }
        _ => panic!("expected a single line layout"),
    }
    let rep = Snippet::Replace { span: sp, with: "baz!".to_string() };
    match snippet_layout(&map, sp, &rep) {
        SnippetLayout::Single { text: t, replaced, underline_col, underline_len, .. } => {
            assert_eq!(parts(&t), ("    foo ", "baz!", ""));
            assert!(replaced);
            assert_eq!(underline_col, 8);
            assert_eq!(underline_len, 4);
        }
        _ => panic!("expected a single line layout"),
    }
}

#[test]
fn multi_line_snippet_original() {
    let map = file("let a = 1;\nlet b = 2;\nlet c = 3;\nend");
    // from "a" in line 0 to after "c" in line 2
    let sp = Span::new(BytePos(4), BytePos(27));
    match snippet_layout(&map, sp, &Snippet::Orig(sp)) {
        SnippetLayout::Multi { first_line, lines, replaced } => {
            assert_eq!(first_line, LineIdx(0));
            assert!(!replaced);
            let got: Vec<_> = lines.iter().map(parts).collect();
            assert_eq!(got, vec![
                ("let ", "a = 1;", ""),
                ("", "let b = 2;", ""),
                ("", "let c", " = 3;"),
            ]);
        }
        _ => panic!("expected a multi line layout"),
    }
}

#[test]
fn multi_line_snippet_replaced() {
    let map = file("let a = 1;\nlet b = 2;\nlet c = 3;\nend");
    let sp = Span::new(BytePos(4), BytePos(27));
    let rep = Snippet::Replace { span: sp, with: "x\r\ny\n\nz\nw".to_string() };
    match snippet_layout(&map, sp, &rep) {
        SnippetLayout::Multi { first_line, lines, replaced } => {
            assert_eq!(first_line, LineIdx(0));
            assert!(replaced);
            let got: Vec<_> = lines.iter().map(parts).collect();
            assert_eq!(got, vec![
                ("let ", "x\r", ""),
                ("", "y", ""),
                ("", "", ""),
                ("", "z", ""),
                ("", "w", " = 3;"),
            ]);
        }
        _ => panic!("expected a multi line layout"),
    }
    let one = Snippet::Replace { span: sp, with: "q".to_string() };
    match snippet_layout(&map, sp, &one) {
        SnippetLayout::Multi { lines, .. } => {
            let got: Vec<_> = lines.iter().map(parts).collect();
            assert_eq!(got, vec![("let ", "q", " = 3;")]);
        }
        _ => panic!("expected a multi line layout"),
    }
}

#[test]
fn snippet_showability() {
    let map = file("ab\nc\u{e4}d\n\tx");
    let sp = Span::new(BytePos(0), BytePos(1));
    assert!(can_show_snippet(&map, sp, &Snippet::Orig(sp)));
    // start and end swapped within one line
    let back = Span::new(BytePos(2), BytePos(1));
    assert!(!can_show_snippet(&map, back, &Snippet::Orig(back)));
    assert!(can_show_snippet(&map, back, &Snippet::Replace { span: back, with: "z".to_string() }));
    // "ä" occupies bytes 4..6: byte 5 is inside it
    let inside = Span::new(BytePos(5), BytePos(6));
    assert!(!can_show_snippet(&map, inside, &Snippet::Orig(inside)));
    let around = Span::new(BytePos(4), BytePos(6));
    assert!(can_show_snippet(&map, around, &Snippet::Orig(around)));
    // over several lines
    let multi = Span::new(BytePos(1), BytePos(9));
    assert!(can_show_snippet(&map, multi, &Snippet::Orig(multi)));
    assert!(can_show_snippet(&map, Span::dummy(), &Snippet::Orig(Span::dummy())));
}
