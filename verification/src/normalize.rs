//! The normalizer: what a buffer is before it is read as lines.

use vstd::prelude::*;
use vstd::utf8::valid_utf8;
use crate::bytes::{mark_len, payload, CR, LF};
use crate::error::ParseError;
use crate::text::checked_text;

verus! {

/// True when `i` holds a carriage return with a line feed right behind it.
pub open spec fn is_paired_cr(t: Seq<u8>, i: int) -> bool {
    0 <= i && i + 1 < t.len() && t[i] == CR && t[i + 1] == LF
}

/// The first `n` bytes of `t` with every carriage return left out that has
/// a line feed right behind it. A carriage return that stands alone stays.
pub open spec fn unix_lines(t: Seq<u8>, n: int) -> Seq<u8>
    decreases n,
{
    if 0 < n <= t.len() {
        if is_paired_cr(t, n - 1) {
            unix_lines(t, n - 1)
        } else {
            unix_lines(t, n - 1).push(t[n - 1])
        }
    } else {
        Seq::empty()
    }
}

/// What normalizing `raw` gives: an encoding error where the bytes behind
/// the byte-order mark are not UTF-8; otherwise those bytes, with each
/// carriage return and line feed in a row turned into the line feed alone.
pub open spec fn normalize_model(raw: Seq<u8>) -> Result<Seq<u8>, ParseError> {
    if !valid_utf8(payload(raw)) {
        Err(ParseError::Encoding)
    } else {
        Ok(unix_lines(payload(raw), payload(raw).len() as int))
    }
}

/// Removes a leading byte-order mark, checks that the rest is UTF-8, and
/// turns every carriage return and line feed in a row into a line feed.
pub fn normalize(contents: &[u8]) -> (r: Result<Vec<u8>, ParseError>)
    ensures
        match normalize_model(contents@) {
            Ok(text) => r is Ok && r->Ok_0@ == text,
            Err(e) => r == Err::<Vec<u8>, ParseError>(e),
        },
{
    let from: usize = mark_len(contents);
    let text: &[u8] = vstd::slice::slice_subrange(contents, from, contents.len());
    if checked_text(text).is_none() {
        return Err(ParseError::Encoding);
    }
    let mut out: Vec<u8> = Vec::new();
    let mut i: usize = 0;
    while i < text.len()
        invariant
            i <= text@.len(),
            out@ == unix_lines(text@, i as int),
        decreases text@.len() - i,
    {
        let b: u8 = text[i];
        if !(b == CR && i + 1 < text.len() && text[i + 1] == LF) {
            out.push(b);
        }
        i = i + 1;
    }
    Ok(out)
}

} // verus!
