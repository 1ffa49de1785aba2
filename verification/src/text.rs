//! Text and bytes: where bytes become a `str`, what white space is to the
//! serializer, and what cutting a UTF-8 text at ASCII bytes keeps intact.

use vstd::prelude::*;
use vstd::utf8::{
    decode_utf8, encode_scalar, encode_utf8, is_char_boundary, is_continuation_byte,
    is_leading_byte_width_1, partial_valid_utf8, pop_first_scalar, valid_utf8,
};

verus! {

/// The bytes of a string: its UTF-8 encoding.
pub open spec fn text_bytes(s: &String) -> Seq<u8> {
    encode_utf8(s@)
}

/// White space as `str::trim` knows it: the characters with the Unicode
/// property White_Space.
pub open spec fn is_white(c: char) -> bool {
    let v = c as u32;
    ||| 0x09 <= v <= 0x0D
    ||| v == 0x20
    ||| v == 0x85
    ||| v == 0xA0
    ||| v == 0x1680
    ||| 0x2000 <= v <= 0x200A
    ||| v == 0x2028
    ||| v == 0x2029
    ||| v == 0x202F
    ||| v == 0x205F
    ||| v == 0x3000
}

/// The first index at or after `i` that holds no white space, or the
/// length of `s` when only white space follows.
pub open spec fn skip_white(s: Seq<char>, i: int) -> int
    decreases s.len() - i,
{
    if 0 <= i < s.len() && is_white(s[i]) {
        skip_white(s, i + 1)
    } else {
        i
    }
}

/// The end of `s[lo..hi]` once the white space at its end is cut off.
pub open spec fn drop_white(s: Seq<char>, lo: int, hi: int) -> int
    decreases hi - lo,
{
    if lo < hi <= s.len() && is_white(s[hi - 1]) {
        drop_white(s, lo, hi - 1)
    } else {
        hi
    }
}

/// `s` without the white space at either end.
pub open spec fn trim_white(s: Seq<char>) -> Seq<char> {
    let a = skip_white(s, 0);
    s.subrange(a, drop_white(s, a, s.len() as int))
}

/// The UTF-8 text `b` without the white space at either end.
pub open spec fn trim_text(b: Seq<u8>) -> Seq<u8> {
    encode_utf8(trim_white(decode_utf8(b)))
}

/// The encoding of two texts in a row is the two encodings in a row.
pub proof fn lemma_encode_concat(x: Seq<char>, y: Seq<char>)
    ensures
        encode_utf8(x + y) == encode_utf8(x) + encode_utf8(y),
    decreases x.len(),
{
    if x.len() == 0 {
        assert(x + y =~= y);
        assert(encode_utf8(x) + encode_utf8(y) =~= encode_utf8(y));
    } else {
        lemma_encode_concat(x.drop_first(), y);
        assert((x + y).drop_first() =~= x.drop_first() + y);
        assert((x + y)[0] == x[0]);
        assert(encode_utf8(x + y) =~= encode_utf8(x) + encode_utf8(y));
    }
}

/// Where trimming begins and ends.
pub proof fn lemma_trim_white_bounds(s: Seq<char>, lo: int, hi: int)
    requires
        0 <= lo <= hi <= s.len(),
    ensures
        lo <= skip_white(s, lo) <= s.len(),
        lo <= drop_white(s, lo, hi) <= hi,
    decreases s.len() - lo, hi - lo,
{
    if lo < s.len() && is_white(s[lo]) {
        lemma_skip_white_bounds(s, lo + 1);
    }
    if lo < hi && is_white(s[hi - 1]) {
        lemma_trim_white_bounds(s, lo, hi - 1);
    }
}

/// Skipping white space stays inside the text.
pub proof fn lemma_skip_white_bounds(s: Seq<char>, i: int)
    requires
        0 <= i <= s.len(),
    ensures
        i <= skip_white(s, i) <= s.len(),
    decreases s.len() - i,
{
    if i < s.len() && is_white(s[i]) {
        lemma_skip_white_bounds(s, i + 1);
    }
}

/// Trimming a UTF-8 text leaves a part of it. Gives the offsets between
/// which the part lies.
pub proof fn lemma_trim_text_part(b: Seq<u8>) -> (part: (int, int))
    requires
        valid_utf8(b),
    ensures
        0 <= part.0 <= part.1 <= b.len(),
        trim_text(b) == b.subrange(part.0, part.1),
        valid_utf8(trim_text(b)),
{
    let s = decode_utf8(b);
    lemma_skip_white_bounds(s, 0);
    let a = skip_white(s, 0);
    lemma_trim_white_bounds(s, a, s.len() as int);
    let z = drop_white(s, a, s.len() as int);
    let head = s.subrange(0, a);
    let mid = s.subrange(a, z);
    let tail = s.subrange(z, s.len() as int);
    assert(s =~= head + mid + tail);
    lemma_encode_concat(head + mid, tail);
    lemma_encode_concat(head, mid);
    vstd::utf8::decode_utf8_encode_utf8(b);
    vstd::utf8::encode_utf8_valid_utf8(mid);
    let x = encode_utf8(head).len() as int;
    let y = x + encode_utf8(mid).len();
    assert(b == encode_utf8(head) + encode_utf8(mid) + encode_utf8(tail));
    assert(b.subrange(x, y) =~= encode_utf8(mid));
    (x, y)
}

/// `str::trim`. The call returns the part of the string that is left
/// when the white space at its start and at its end is taken off, white
/// space being the characters with the Unicode property White_Space. This
/// is not proved here.
#[verifier::external_body]
pub(crate) fn trimmed_str<'a>(s: &'a str) -> (r: &'a str)
    ensures
        r@ == trim_white(s@),
{
    s.trim()
}

/// `core::str::from_utf8`, with `None` in place of the error. The call
/// succeeds exactly on well-formed UTF-8, and the `str` it returns has the
/// bytes it was given. Neither is proved here.
#[verifier::external_body]
pub(crate) fn checked_text<'a>(bytes: &'a [u8]) -> (r: Option<&'a str>)
    ensures
        r is Some <==> valid_utf8(bytes@),
        r matches Some(s) ==> encode_utf8(s@) == bytes@,
{
    core::str::from_utf8(bytes).ok()
}

/// A part of a UTF-8 text is UTF-8 itself where it starts at the start of
/// the text or behind an ASCII byte, and ends at the end of the text or
/// before a byte that begins a character.
pub proof fn lemma_valid_slice(b: Seq<u8>, start: int, end: int)
    requires
        valid_utf8(b),
        0 <= start <= end <= b.len(),
        start == 0 || b[start - 1] < 0x80,
        end == b.len() || !is_continuation_byte(b[end]),
    ensures
        valid_utf8(b.subrange(start, end)),
{
    broadcast use vstd::utf8::group_utf8_lib;

    assert(is_char_boundary(b, end));
    let head = b.subrange(0, end);
    assert(valid_utf8(head));
    if start == 0 {
        assert(head == b.subrange(start, end));
    } else {
        assert(head[start - 1] == b[start - 1]);
        assert(!is_continuation_byte(head[start - 1]));
        assert(is_char_boundary(head, start - 1));
        let tail = head.subrange(start - 1, head.len() as int);
        assert(valid_utf8(tail));
        assert(tail[0] == b[start - 1]);
        assert(is_leading_byte_width_1(tail[0]));
        assert(pop_first_scalar(tail) == b.subrange(start, end));
    }
}

/// Copies `buf[start..end]` into a string.
pub fn text_of(buf: &[u8], start: usize, end: usize) -> (r: String)
    requires
        start <= end <= buf@.len(),
        valid_utf8(buf@.subrange(start as int, end as int)),
    ensures
        text_bytes(&r) == buf@.subrange(start as int, end as int),
{
    let part: &[u8] = vstd::slice::slice_subrange(buf, start, end);
    checked_text(part).unwrap().to_owned()
}

/// A single ASCII byte is UTF-8.
pub proof fn lemma_ascii_valid(x: u8)
    requires
        x < 0x80,
    ensures
        valid_utf8(seq![x]),
{
    broadcast use vstd::utf8::group_utf8_lib;

    let one = seq![x];
    assert(valid_utf8(one.subrange(0, 0)));
    assert(partial_valid_utf8(one, 0));
    assert forall|i: int| 0 <= i < 1 implies #[trigger] is_leading_byte_width_1(one[i]) by {}
    vstd::utf8::partial_valid_utf8_extend_ascii_block(one, 0, 1);
    assert(one.subrange(0, 1) == one);
}

/// Appending UTF-8 to UTF-8 gives UTF-8.
pub proof fn lemma_valid_append(a: Seq<u8>, b: Seq<u8>)
    requires
        valid_utf8(a),
        valid_utf8(b),
    ensures
        valid_utf8(a + b),
{
    vstd::utf8::valid_utf8_concat(a, b);
}

/// Appends one ASCII byte.
pub fn push_ascii(out: &mut Vec<u8>, x: u8)
    requires
        x < 0x80,
    ensures
        final(out)@ == old(out)@ + seq![x],
        valid_utf8(old(out)@) ==> valid_utf8(final(out)@),
{
    proof {
        lemma_ascii_valid(x);
        if valid_utf8(out@) {
            lemma_valid_append(out@, seq![x]);
        }
    }
    out.push(x);
    assert(out@ == old(out)@ + seq![x]);
}

/// Appends the bytes of `s`.
pub fn push_text(out: &mut Vec<u8>, s: &String)
    ensures
        final(out)@ == old(out)@ + text_bytes(s),
        valid_utf8(old(out)@) ==> valid_utf8(final(out)@),
{
    proof {
        vstd::utf8::encode_utf8_valid_utf8(s@);
        if valid_utf8(out@) {
            lemma_valid_append(out@, text_bytes(s));
        }
    }
    out.extend_from_slice(s.as_str().as_bytes());
}

/// Appends the bytes of `s` without the white space at either end.
pub fn push_trimmed(out: &mut Vec<u8>, s: &String)
    ensures
        final(out)@ == old(out)@ + trim_text(text_bytes(s)),
        valid_utf8(old(out)@) ==> valid_utf8(final(out)@),
{
    let kept: &str = trimmed_str(s.as_str());
    proof {
        vstd::utf8::encode_utf8_decode_utf8(s@);
        vstd::utf8::encode_utf8_valid_utf8(kept@);
        if valid_utf8(out@) {
            lemma_valid_append(out@, trim_text(text_bytes(s)));
        }
    }
    out.extend_from_slice(kept.as_bytes());
}

/// Appends the UTF-8 encoding of `c`.
pub fn push_char(out: &mut Vec<u8>, c: char)
    ensures
        final(out)@ == old(out)@ + encode_utf8(seq![c]),
        valid_utf8(old(out)@) ==> valid_utf8(final(out)@),
{
    let v: u32 = c as u32;
    proof {
        vstd::utf8::char_is_scalar(c);
        vstd::utf8::encode_utf8_valid_utf8(seq![c]);
        reveal_with_fuel(encode_utf8, 2);
        assert(seq![c][0] == c);
        assert(seq![c].drop_first() == Seq::<char>::empty());
        assert(encode_utf8(seq![c]) == encode_scalar(v) + Seq::<u8>::empty());
        assert(encode_utf8(seq![c]) == encode_scalar(v));
        if valid_utf8(out@) {
            lemma_valid_append(out@, encode_utf8(seq![c]));
        }
    }
    if v <= 0x7F {
        out.push(#[verifier::truncate] ((v & 0x7F) as u8));
    } else if v <= 0x7FF {
        out.push(0xC0 | #[verifier::truncate] (((v >> 6) & 0x1F) as u8));
        out.push(0x80 | #[verifier::truncate] ((v & 0x3F) as u8));
    } else if v <= 0xFFFF {
        out.push(0xE0 | #[verifier::truncate] (((v >> 12) & 0x0F) as u8));
        out.push(0x80 | #[verifier::truncate] (((v >> 6) & 0x3F) as u8));
        out.push(0x80 | #[verifier::truncate] ((v & 0x3F) as u8));
    } else {
        out.push(0xF0 | #[verifier::truncate] (((v >> 18) & 0x7) as u8));
        out.push(0x80 | #[verifier::truncate] (((v >> 12) & 0x3F) as u8));
        out.push(0x80 | #[verifier::truncate] (((v >> 6) & 0x3F) as u8));
        out.push(0x80 | #[verifier::truncate] ((v & 0x3F) as u8));
    }
    assert(out@ == old(out)@ + encode_scalar(v));
}

} // verus!
