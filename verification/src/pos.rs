//! Types dealing with positions within the source code.
use vstd::prelude::*;
use vstd::std_specs::ops::{AddSpecImpl, SubSpecImpl};

verus! {

/// Type to index one byte in a source code. It is kept small, since it is
/// used a lot.
pub type SrcOffset = u32;

/// Position within source specified by byte offset. This is not equal to a
/// char position thanks to UTF-8 and multibyte chars. This type always
/// represents positions relative to the whole file.
#[derive(Clone, Copy, PartialEq, Eq, PartialOrd, Ord, Debug, Default, Structural)]
pub struct BytePos(pub SrcOffset);

impl core::ops::Add for BytePos {
    type Output = BytePos;

    fn add(self, rhs: BytePos) -> (r: BytePos) {
        BytePos(self.0 + rhs.0)
    }
}

impl AddSpecImpl for BytePos {
    open spec fn obeys_add_spec() -> bool {
        true
    }

    open spec fn add_req(self, rhs: BytePos) -> bool {
        self.0 + rhs.0 <= u32::MAX
    }

    open spec fn add_spec(self, rhs: BytePos) -> BytePos {
        BytePos((self.0 + rhs.0) as u32)
    }
}

impl core::ops::Sub for BytePos {
    type Output = BytePos;

    fn sub(self, rhs: BytePos) -> (r: BytePos) {
        BytePos(self.0 - rhs.0)
    }
}

impl SubSpecImpl for BytePos {
    open spec fn obeys_sub_spec() -> bool {
        true
    }

    open spec fn sub_req(self, rhs: BytePos) -> bool {
        rhs.0 <= self.0
    }

    open spec fn sub_spec(self, rhs: BytePos) -> BytePos {
        BytePos((self.0 - rhs.0) as u32)
    }
}

impl BytePos {
    /// The position as an integer.
    pub open spec fn offset(self) -> int {
        self.0 as int
    }
}

// ----------------------------------------------------------------------------
/// A region within the source specified by first and last byte offset. `lo`
/// byte is included in the span, `hi` byte is excluded.
#[derive(Clone, Copy, PartialEq, Eq, Debug, Structural)]
pub struct Span {
    /// Low byte, inclusive
    pub lo: BytePos,
    /// High byte, exclusive
    pub hi: BytePos,
}

/// The dummy span: `lo` is one and `hi` is zero.
pub open spec fn dummy_span() -> Span {
    Span { lo: BytePos(1), hi: BytePos(0) }
}

impl Span {
    /// True iff this is the dummy span.
    pub open spec fn spec_is_dummy(self) -> bool {
        self.lo.0 == 1 && self.hi.0 == 0
    }

    /// The span that encloses both spans, ignoring dummy spans.
    pub open spec fn spec_hull(self, other: Span) -> Span {
        if self.spec_is_dummy() {
            other
        } else if other.spec_is_dummy() {
            self
        } else {
            Span {
                lo: if self.lo.0 <= other.lo.0 { self.lo } else { other.lo },
                hi: if self.hi.0 >= other.hi.0 { self.hi } else { other.hi },
            }
        }
    }

    /// True iff `self` encloses `other` and neither of them is a dummy span.
    pub open spec fn spec_contains(self, other: Span) -> bool {
        &&& !self.spec_is_dummy()
        &&& !other.spec_is_dummy()
        &&& self.lo.0 <= other.lo.0
        &&& self.hi.0 >= other.hi.0
    }

    /// Creates a span that points to a single char
    pub fn single(pos: BytePos) -> (r: Span)
        requires
            pos.0 < u32::MAX,
        ensures
            r.lo == pos,
            r.hi.0 == pos.0 + 1,
    {
        Span { lo: pos, hi: pos + BytePos(1) }
    }

    /// Creates an empty span (points in between two chars)
    pub fn empty_at(pos: BytePos) -> (r: Span)
        ensures
            r.lo == pos,
            r.hi == pos,
    {
        Span { lo: pos, hi: pos }
    }

    /// Creates a span from a lo and hi (shorter than struct constructor
    /// syntax)
    pub fn new(lo: BytePos, hi: BytePos) -> (r: Span)
        ensures
            r.lo == lo,
            r.hi == hi,
    {
        Span { lo: lo, hi: hi }
    }

    /// Creates a span from a tuple
    pub fn from_pair(pair: (BytePos, BytePos)) -> (r: Span)
        ensures
            r.lo == pair.0,
            r.hi == pair.1,
    {
        Span { lo: pair.0, hi: pair.1 }
    }

    /// Creates a dummy span. Should be used with caution.
    pub fn dummy() -> (r: Span)
        ensures
            r == dummy_span(),
    {
        Span { lo: BytePos(1), hi: BytePos(0) }
    }

    /// Checks if this span is a dummy span
    pub fn is_dummy(&self) -> (r: bool)
        ensures
            r == self.spec_is_dummy(),
    {
        self.lo.0 == 1 && self.hi.0 == 0
    }

    /// Checks if the span is empty
    pub fn is_empty(&self) -> (r: bool)
        ensures
            r == (self.lo == self.hi),
    {
        self.lo.0 == self.hi.0
    }

    /// Returns the length (number of bytes) of the span or `None` if it's a
    /// dummy span
    pub fn len(&self) -> (r: Option<SrcOffset>)
        requires
            !self.spec_is_dummy() ==> self.lo.0 <= self.hi.0,
        ensures
            self.spec_is_dummy() ==> r is None,
            !self.spec_is_dummy() ==> r == Some((self.hi.0 - self.lo.0) as u32),
    {
        if self.is_dummy() {
            None
        } else {
            Some((self.hi - self.lo).0)
        }
    }

    /// Returns the smallest span which encloses both given spans
    ///
    /// If one of given spans is a dummy span, it is ignored and the other span
    /// is returned. If both spans are dummy spans, a dummy span is returned.
    pub fn hull(&self, other: &Self) -> (r: Span)
        ensures
            r == self.spec_hull(*other),
    {
        if self.is_dummy() {
            *other
        } else if other.is_dummy() {
            *self
        } else {
            Span {
                lo: if self.lo.0 <= other.lo.0 { self.lo } else { other.lo },
                hi: if self.hi.0 >= other.hi.0 { self.hi } else { other.hi },
            }
        }
    }

    /// Checks if this span contains another span. A dummy span never contains
    /// any other span and is never contained in another span.
    pub fn contains(&self, other: Self) -> (r: bool)
        ensures
            r == self.spec_contains(other),
    {
        !self.is_dummy() && !other.is_dummy() && self.lo.0 <= other.lo.0 && self.hi.0
            >= other.hi.0
    }

    /// Returns a range for indexing strings and vectors
    pub fn into_range(self) -> (r: core::ops::Range<usize>)
        ensures
            r.start == self.lo.0,
            r.end == self.hi.0,
    {
        core::ops::Range { start: self.lo.0 as usize, end: self.hi.0 as usize }
    }

    /// Attaches this span to the given data.
    pub fn spanning<T>(self, data: T) -> (r: Spanned<T>)
        ensures
            r.data == data,
            r.span == self,
    {
        Spanned { data: data, span: self }
    }
}

/// Some data together with the span of source code it stems from.
pub struct Spanned<T> {
    pub data: T,
    pub span: Span,
}

// ----------------------------------------------------------------------------
/// Represents a line index (0-based).
#[derive(Clone, Copy, PartialEq, Eq, PartialOrd, Ord, Debug, Default, Structural)]
pub struct LineIdx(pub SrcOffset);

impl LineIdx {
    /// The number under which the line is shown to humans: lines are counted
    /// from one.
    pub fn display_number(&self) -> (r: u64)
        ensures
            r == self.0 + 1,
    {
        self.0 as u64 + 1
    }
}

/// Represents a column index (0-based).
#[derive(Clone, Copy, PartialEq, Eq, PartialOrd, Ord, Debug, Default, Structural)]
pub struct ColIdx(pub SrcOffset);

impl core::ops::Add for LineIdx {
    type Output = LineIdx;

    fn add(self, rhs: LineIdx) -> (r: LineIdx) {
        LineIdx(self.0 + rhs.0)
    }
}

impl AddSpecImpl for LineIdx {
    open spec fn obeys_add_spec() -> bool {
        true
    }

    open spec fn add_req(self, rhs: LineIdx) -> bool {
        self.0 + rhs.0 <= u32::MAX
    }

    open spec fn add_spec(self, rhs: LineIdx) -> LineIdx {
        LineIdx((self.0 + rhs.0) as u32)
    }
}

impl core::ops::Sub for LineIdx {
    type Output = LineIdx;

    fn sub(self, rhs: LineIdx) -> (r: LineIdx) {
        LineIdx(self.0 - rhs.0)
    }
}

impl SubSpecImpl for LineIdx {
    open spec fn obeys_sub_spec() -> bool {
        true
    }

    open spec fn sub_req(self, rhs: LineIdx) -> bool {
        rhs.0 <= self.0
    }

    open spec fn sub_spec(self, rhs: LineIdx) -> LineIdx {
        LineIdx((self.0 - rhs.0) as u32)
    }
}

impl core::ops::Add for ColIdx {
    type Output = ColIdx;

    fn add(self, rhs: ColIdx) -> (r: ColIdx) {
        ColIdx(self.0 + rhs.0)
    }
}

impl AddSpecImpl for ColIdx {
    open spec fn obeys_add_spec() -> bool {
        true
    }

    open spec fn add_req(self, rhs: ColIdx) -> bool {
        self.0 + rhs.0 <= u32::MAX
    }

    open spec fn add_spec(self, rhs: ColIdx) -> ColIdx {
        ColIdx((self.0 + rhs.0) as u32)
    }
}

impl core::ops::Sub for ColIdx {
    type Output = ColIdx;

    fn sub(self, rhs: ColIdx) -> (r: ColIdx) {
        ColIdx(self.0 - rhs.0)
    }
}

impl SubSpecImpl for ColIdx {
    open spec fn obeys_sub_spec() -> bool {
        true
    }

    open spec fn sub_req(self, rhs: ColIdx) -> bool {
        rhs.0 <= self.0
    }

    open spec fn sub_spec(self, rhs: ColIdx) -> ColIdx {
        ColIdx((self.0 - rhs.0) as u32)
    }
}

/// Location within one file specified by line and column.
#[derive(Clone, Copy, PartialEq, Eq, Debug, Structural)]
pub struct Loc {
    pub line: LineIdx,
    pub col: ColIdx,
}

/// A dummy span never contains another span, and is never contained in
/// another span.
pub proof fn lemma_dummy_never_contains(s: Span)
    ensures
        !dummy_span().spec_contains(s),
        !s.spec_contains(dummy_span()),
{
}

/// The hull ignores dummy spans, and otherwise encloses both spans.
pub proof fn lemma_hull_encloses(a: Span, b: Span)
    ensures
        a.spec_is_dummy() ==> a.spec_hull(b) == b,
        b.spec_is_dummy() ==> a.spec_hull(b) == a,
        !a.spec_is_dummy() && !b.spec_is_dummy() ==> a.spec_hull(b).spec_contains(a)
            && a.spec_hull(b).spec_contains(b),
{
}

} // verus!
