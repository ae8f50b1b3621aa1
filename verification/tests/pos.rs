use cantucci::pos::{BytePos, ColIdx, LineIdx, Span};

#[test]
fn basic_spans() {
    let s = Span::new(BytePos(3), BytePos(10));
    assert_eq!(s, Span { lo: BytePos(3), hi: BytePos(10) });
    assert_eq!(s, Span::from_pair((BytePos(3), BytePos(10))));
    assert_eq!(s.len(), Some(7));
    assert!(!s.is_dummy());

    assert!(s.contains(Span::new(BytePos(4), BytePos(9))));
    assert!(s.contains(Span::new(BytePos(3), BytePos(10))));
    assert!(s.contains(Span::new(BytePos(5), BytePos(10))));
    assert!(s.contains(Span::new(BytePos(3), BytePos(8))));
    assert!(!s.contains(Span::new(BytePos(2), BytePos(8))));
    assert!(!s.contains(Span::new(BytePos(3), BytePos(11))));
    assert!(!s.contains(Span::new(BytePos(1), BytePos(12))));
    assert!(!s.contains(Span::dummy()));

    assert_eq!(Span::single(BytePos(15)), Span::new(BytePos(15), BytePos(16)));
}

#[test]
fn dummy_spans() {
    let d = Span::dummy();
    assert_eq!(d, Span::dummy());
    assert_eq!(d.len(), None);
    assert!(d.is_dummy());

    assert!(!d.contains(Span::new(BytePos(4), BytePos(9))));
    assert!(!d.contains(Span::new(BytePos(3), BytePos(0))));
    assert!(!d.contains(Span::dummy()));
}

#[test]
fn span_hulls() {
    let d = Span::dummy();
    let a = Span::new(BytePos(1), BytePos(5));
    let b = Span::new(BytePos(3), BytePos(7));
    let c = Span::new(BytePos(7), BytePos(9));

    assert_eq!(a.hull(&d), a);
    assert_eq!(d.hull(&a), a);
    assert_eq!(d.hull(&d), d);

    assert_eq!(a.hull(&b), Span::new(BytePos(1), BytePos(7)));
    assert_eq!(a.hull(&c), Span::new(BytePos(1), BytePos(9)));
    assert_eq!(b.hull(&c), Span::new(BytePos(3), BytePos(9)));
}

#[test]
fn empty_spans_and_ranges() {
    let e = Span::empty_at(BytePos(4));
    assert!(e.is_empty());
    assert_eq!(e.len(), Some(0));
    assert!(!Span::new(BytePos(4), BytePos(5)).is_empty());
    let r = Span::new(BytePos(2), BytePos(6)).into_range();
    assert_eq!(r, 2..6);
    let spanned = Span::new(BytePos(1), BytePos(2)).spanning("x");
    assert_eq!(spanned.data, "x");
    assert_eq!(spanned.span, Span::new(BytePos(1), BytePos(2)));
}

#[test]
fn position_arithmetic() {
    assert_eq!(BytePos(3) + BytePos(4), BytePos(7));
    assert_eq!(BytePos(9) - BytePos(4), BytePos(5));
    assert_eq!(LineIdx(2) + LineIdx(3), LineIdx(5));
    assert_eq!(ColIdx(8) - ColIdx(3), ColIdx(5));
    assert_eq!(LineIdx(0).display_number(), 1);
    assert_eq!(LineIdx(41).display_number(), 42);
}
