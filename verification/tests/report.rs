use cantucci::pos::{BytePos, Span};
use cantucci::report::{Remark, RemarkKind, Report, ReportKind, Snippet};

#[test]
fn simple_reports() {
    let sp = Span::new(BytePos(1), BytePos(4));
    let e = Report::simple_error("oops", sp);
    assert_eq!(e.kind, ReportKind::Error);
    assert_eq!(e.span, Some(sp));
    assert_eq!(e.remarks, vec![Remark::error("oops", Snippet::Orig(sp))]);

    let w = Report::simple_warning("hmm", sp);
    assert_eq!(w.kind, ReportKind::Warning);
    assert_eq!(w.remarks[0].kind, RemarkKind::Warning);

    let s = Report::simple_spanless_error("no span");
    assert_eq!(s.span, None);
    assert_eq!(s.remarks[0].snippet, Snippet::Absent);
    assert_eq!(s.remarks[0].desc, "no span");
}

#[test]
fn adding_notes() {
    let sp = Span::new(BytePos(1), BytePos(4));
    let r = Report::simple_error("oops", sp)
        .with_note("first")
        .with_span_note("second", Span::single(BytePos(2)))
        .with_remark(Remark::new(RemarkKind::Warning, "third", Snippet::Absent));
    assert_eq!(r.remarks.len(), 4);
    assert_eq!(r.remarks[1], Remark::note("first", Snippet::Absent));
    assert_eq!(r.remarks[2], Remark::note("second", Snippet::Orig(Span::new(BytePos(2), BytePos(3)))));
    assert_eq!(r.remarks[3].kind, RemarkKind::Warning);
    assert_eq!(r.kind, ReportKind::Error);
    assert_eq!(r.span, Some(sp));
}

#[test]
fn snippet_spans() {
    let sp = Span::new(BytePos(1), BytePos(4));
    assert_eq!(Snippet::Absent.span(), None);
    assert_eq!(Snippet::Orig(sp).span(), Some(sp));
    assert_eq!(Snippet::Replace { span: sp, with: "x".to_string() }.span(), Some(sp));
}
