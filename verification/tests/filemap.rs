use cantucci::filemap::FileMap;
use cantucci::pos::{BytePos, ColIdx, LineIdx, Loc};

#[test]
fn location_lookup() {
    let mut map = FileMap::new("<dummy>", "foo\r\nbär\nbaz");
    map.find_lines();

    // "foo\r\n" is 5 bytes. "bär\n" is 5 bytes, too.
    assert_eq!(map.lines().to_vec(), vec![BytePos(0), BytePos(5), BytePos(10)]);

    assert_eq!(map.get_loc(BytePos(0)), Loc { line: LineIdx(0), col: ColIdx(0) });
    assert_eq!(map.get_loc(BytePos(1)), Loc { line: LineIdx(0), col: ColIdx(1) });
    assert_eq!(map.get_loc(BytePos(4)), Loc { line: LineIdx(0), col: ColIdx(4) });
    assert_eq!(map.get_loc(BytePos(5)), Loc { line: LineIdx(1), col: ColIdx(0) });
    assert_eq!(map.get_loc(BytePos(9)), Loc { line: LineIdx(1), col: ColIdx(4) });
    assert_eq!(map.get_loc(BytePos(10)), Loc { line: LineIdx(2), col: ColIdx(0) });
    assert_eq!(map.get_loc(BytePos(12)), Loc { line: LineIdx(2), col: ColIdx(2) });
}

#[test]
fn filemap_accessors() {
    let map = FileMap::new("<anon>", "abc");
    assert_eq!(map.filename(), "<anon>");
    assert_eq!(map.src(), "abc");
    assert_eq!(map.num_lines(), 1);
    assert_eq!(map.get_line_start(LineIdx(0)), Some(BytePos(0)));
    assert_eq!(map.get_line_start(LineIdx(1)), None);
}

#[test]
fn get_line_returns_line_without_break() {
    let mut map = FileMap::new("<dummy>", "foo\r\nbär\nbaz");
    map.find_lines();
    assert_eq!(map.get_line(LineIdx(0)), Some("foo\r"));
    assert_eq!(map.get_line(LineIdx(1)), Some("bär"));
    assert_eq!(map.get_line(LineIdx(2)), Some("baz"));
    assert_eq!(map.get_line(LineIdx(3)), None);
}

#[test]
fn add_line_and_line_idx() {
    let mut map = FileMap::new("<dummy>", "ab\ncd\nef");
    map.add_line(BytePos(3));
    map.add_line(BytePos(6));
    assert_eq!(map.num_lines(), 3);
    assert_eq!(map.get_line_idx(BytePos(0)), LineIdx(0));
    assert_eq!(map.get_line_idx(BytePos(2)), LineIdx(0));
    assert_eq!(map.get_line_idx(BytePos(3)), LineIdx(1));
    assert_eq!(map.get_line_idx(BytePos(7)), LineIdx(2));
    assert_eq!(map.get_line_idx(BytePos(100)), LineIdx(2));
    assert_eq!(map.get_loc(BytePos(7)), Loc { line: LineIdx(2), col: ColIdx(1) });
}

#[test]
fn find_lines_resumes_at_last_line() {
    // Searching continues at the latest line beginning and records byte
    // offsets in the whole source.
    let mut map = FileMap::new("<dummy>", "ab\ncd\nef");
    map.add_line(BytePos(3));
    map.find_lines();
    assert_eq!(map.lines().to_vec(), vec![BytePos(0), BytePos(3), BytePos(6)]);

    let mut map = FileMap::new("f", "a\nb\nc");
    map.add_line(BytePos(2));
    map.find_lines();
    assert_eq!(map.num_lines(), 3);
    assert_eq!(map.get_line_start(LineIdx(2)), Some(BytePos(4)));
}

#[test]
fn find_lines_twice_adds_nothing() {
    let mut map = FileMap::new("<x>", "a\nbb\n\nccc\n");
    map.find_lines();
    let first = map.lines().to_vec();
    assert_eq!(first, vec![BytePos(0), BytePos(2), BytePos(5), BytePos(6), BytePos(10)]);
    map.find_lines();
    assert_eq!(map.lines().to_vec(), first);
}

#[test]
fn line_round_trip() {
    let mut map = FileMap::new("<x>", "a\nbb\n\nccc");
    map.find_lines();
    for off in 0..9u32 {
        let loc = map.get_loc(BytePos(off));
        let start = map.get_line_start(loc.line).unwrap();
        assert_eq!(start.0 + loc.col.0, off);
    }
}
