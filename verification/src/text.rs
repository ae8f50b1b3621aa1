//! Facts about the UTF-8 encoding of char sequences: byte offsets of char
//! positions and char boundaries.
use vstd::prelude::*;
use vstd::utf8::*;
use vstd::string::StringSliceAdditionalSpecFns;

verus! {

broadcast use vstd::utf8::group_utf8_lib;

/// Number of bytes of the UTF-8 encoding of the first `k` chars.
pub open spec fn byte_offset(chars: Seq<char>, k: int) -> int {
    encode_utf8(chars.take(k)).len() as int
}

/// Number of bytes that the UTF-8 encoding of `c` takes.
pub open spec fn char_width(c: char) -> int {
    encode_scalar(c as u32).len() as int
}

/// Encoding distributes over concatenation.
pub proof fn lemma_encode_concat(a: Seq<char>, b: Seq<char>)
    ensures
        encode_utf8(a + b) == encode_utf8(a) + encode_utf8(b),
    decreases a.len(),
{
    if a.len() == 0 {
        assert(a + b =~= b);
        assert(encode_utf8(a) =~= Seq::<u8>::empty());
        assert(encode_utf8(a) + encode_utf8(b) =~= encode_utf8(b));
    } else {
        lemma_encode_concat(a.drop_first(), b);
        assert((a + b).drop_first() =~= a.drop_first() + b);
        assert((a + b)[0] == a[0]);
        assert(encode_utf8(a + b) =~= encode_scalar(a[0] as u32) + encode_utf8(a.drop_first() + b));
    }
}

/// Every char takes at least one byte, so the first `k` chars take at least
/// `k` bytes.
pub proof fn lemma_byte_offset_at_least(chars: Seq<char>, k: int)
    requires
        0 <= k <= chars.len(),
    ensures
        byte_offset(chars, k) >= k,
    decreases k,
{
    if k > 0 {
        lemma_byte_offset_at_least(chars, k - 1);
        lemma_byte_offset_step(chars, k - 1);
    }
}

/// Advancing over one char advances the byte offset by that char's width.
pub proof fn lemma_byte_offset_step(chars: Seq<char>, k: int)
    requires
        0 <= k < chars.len(),
    ensures
        byte_offset(chars, k + 1) == byte_offset(chars, k) + char_width(chars[k]),
{
    let single = seq![chars[k]];
    assert(chars.take(k + 1) =~= chars.take(k) + single);
    lemma_encode_concat(chars.take(k), single);
    assert(single.drop_first() =~= Seq::<char>::empty());
    assert(encode_utf8(single) =~= encode_scalar(chars[k] as u32) + encode_utf8(
        Seq::<char>::empty(),
    ));
}

/// Byte offsets grow with the char position.
pub proof fn lemma_byte_offset_mono(chars: Seq<char>, a: int, b: int)
    requires
        0 <= a <= b <= chars.len(),
    ensures
        byte_offset(chars, a) <= byte_offset(chars, b),
        a < b ==> byte_offset(chars, a) < byte_offset(chars, b),
    decreases b - a,
{
    if a < b {
        lemma_byte_offset_mono(chars, a, b - 1);
        lemma_byte_offset_step(chars, b - 1);
    }
}

/// The byte offset of all chars is the length of the encoding.
pub proof fn lemma_byte_offset_full(chars: Seq<char>)
    ensures
        byte_offset(chars, chars.len() as int) == encode_utf8(chars).len(),
        byte_offset(chars, 0) == 0,
{
    assert(chars.take(chars.len() as int) =~= chars);
    assert(chars.take(0) =~= Seq::<char>::empty());
}

/// The bytes between two char positions encode the chars between them.
pub proof fn lemma_encode_subrange(chars: Seq<char>, a: int, b: int)
    requires
        0 <= a <= b <= chars.len(),
    ensures
        encode_utf8(chars).subrange(byte_offset(chars, a), byte_offset(chars, b)) == encode_utf8(
            chars.subrange(a, b),
        ),
        encode_utf8(chars).subrange(byte_offset(chars, a), encode_utf8(chars).len() as int)
            == encode_utf8(chars.skip(a)),
{
    let pa = chars.take(a);
    let mid = chars.subrange(a, b);
    let rest = chars.skip(b);
    assert(chars =~= pa + mid + rest);
    assert(chars.take(b) =~= pa + mid);
    lemma_encode_concat(pa, mid);
    lemma_encode_concat(pa + mid, rest);
    assert(chars.skip(a) =~= mid + rest);
    lemma_encode_concat(mid, rest);
    let e = encode_utf8(chars);
    assert(e.subrange(byte_offset(chars, a), byte_offset(chars, b)) =~= encode_utf8(mid));
    assert(e.subrange(byte_offset(chars, a), e.len() as int) =~= encode_utf8(chars.skip(a)));
}

/// The byte offset of a char position is a char boundary.
pub proof fn lemma_byte_offset_boundary(chars: Seq<char>, k: int)
    requires
        0 <= k <= chars.len(),
    ensures
        is_char_boundary(encode_utf8(chars), byte_offset(chars, k)),
    decreases k,
{
    let e = encode_utf8(chars);
    encode_utf8_valid_utf8(chars);
    if k == 0 {
        assert(chars.take(0) =~= Seq::<char>::empty());
    } else {
        encode_utf8_first_scalar(chars);
        let tail = chars.drop_first();
        lemma_byte_offset_boundary(tail, k - 1);
        assert(pop_first_scalar(e) =~= encode_utf8(tail));
        lemma_byte_offset_step(chars, 0);
        assert(chars.take(k) =~= chars.take(1) + tail.take(k - 1));
        lemma_encode_concat(chars.take(1), tail.take(k - 1));
        lemma_byte_offset_mono(chars, 0, k);
        lemma_byte_offset_full(chars);
        lemma_byte_offset_mono(chars, k, chars.len() as int);
        assert(chars.take(0) =~= Seq::<char>::empty());
    }
}


/// Byte offsets within a suffix are the byte offsets within the whole
/// sequence, shifted by the offset of the suffix.
pub proof fn lemma_byte_offset_skip(chars: Seq<char>, j: int, m: int)
    requires
        0 <= j <= chars.len(),
        0 <= m <= chars.len() - j,
    ensures
        byte_offset(chars.skip(j), m) + byte_offset(chars, j) == byte_offset(chars, j + m),
{
    assert(chars.take(j + m) =~= chars.take(j) + chars.skip(j).take(m));
    lemma_encode_concat(chars.take(j), chars.skip(j).take(m));
}

/// The part of `s` between the char positions `a` and `b`, given by their
/// byte offsets `lo` and `hi`.
pub(crate) fn char_range<'a>(
    s: &'a str,
    lo: usize,
    hi: usize,
    Ghost(a): Ghost<int>,
    Ghost(b): Ghost<int>,
) -> (r: &'a str)
    requires
        0 <= a <= b <= s@.len(),
        lo == byte_offset(s@, a),
        hi == byte_offset(s@, b),
    ensures
        r@ == s@.subrange(a, b),
{
    let ghost chars = s@;
    proof {
        lemma_byte_offset_boundary(chars, a);
        lemma_byte_offset_mono(chars, a, b);
        lemma_byte_offset_full(chars);
        lemma_byte_offset_mono(chars, b, chars.len() as int);
        encode_utf8_valid_utf8(chars);
    }
    let (_, rest) = s.split_at(lo);
    proof {
        lemma_encode_subrange(chars, a, b);
        assert(rest.spec_bytes() =~= encode_utf8(chars.skip(a)));
        assert(rest@ =~= chars.skip(a)) by {
            encode_utf8_decode_utf8(rest@);
            encode_utf8_decode_utf8(chars.skip(a));
        }
        lemma_byte_offset_skip(chars, a, b - a);
        lemma_byte_offset_boundary(chars.skip(a), b - a);
    }
    let (part, _) = rest.split_at(hi - lo);
    proof {
        let sub = chars.skip(a).take(b - a);
        assert(sub =~= chars.subrange(a, b));
        assert(part.spec_bytes() =~= encode_utf8(sub));
        encode_utf8_decode_utf8(part@);
        encode_utf8_decode_utf8(sub);
    }
    part
}

/// Number of bytes that the UTF-8 encoding of `c` takes.
pub fn len_utf8(c: char) -> (r: u32)
    ensures
        r == char_width(c),
        1 <= r <= 4,
{
    let v = c as u32;
    if v <= 0x7f {
        1
    } else if v <= 0x7ff {
        2
    } else if v <= 0xffff {
        3
    } else {
        4
    }
}

} // verus!

verus! {

/// The chars of `s`, in order.
pub fn collect_chars(s: &str) -> (r: Vec<char>)
    ensures
        r@ == s@,
{
    let mut v: Vec<char> = Vec::new();
    for c in it: s.chars()
        invariant
            v@ == it.seq().take(it.index() as int),
            it.seq() == s@,
    {
        v.push(c);
    }
    v
}
} // verus!
