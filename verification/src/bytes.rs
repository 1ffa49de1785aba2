//! Byte classes of the EditorConfig-INI dialect and the searches a line is
//! cut up with.
//!
//! Every search is stated over a sequence and indices into it, so that the
//! same definitions serve a whole buffer, one line of it, or a stored key.

use vstd::prelude::*;

verus! {

/// Line feed.
pub const LF: u8 = 10;

/// Carriage return.
pub const CR: u8 = 13;

/// Space.
pub const SPACE: u8 = 32;

/// Horizontal tab.
pub const TAB: u8 = 9;

/// `[`, which opens a section header.
pub const OPEN: u8 = 91;

/// `]`, which closes a section header.
pub const CLOSE: u8 = 93;

/// `=`, which separates a key from its value.
pub const EQUALS: u8 = 61;

/// `#`, a comment indicator.
pub const HASH: u8 = 35;

/// `;`, a comment indicator.
pub const SEMICOLON: u8 = 59;

/// `\`, which makes a following `=` literal.
pub const BACKSLASH: u8 = 92;

/// Longest key, in bytes.
pub const MAX_KEY: usize = 50;

/// Longest value, in bytes.
pub const MAX_VALUE: usize = 255;

/// Padding: space and tab.
pub open spec fn is_blank(b: u8) -> bool {
    b == SPACE || b == TAB
}

/// A byte that ends a line: line feed or carriage return.
pub open spec fn is_break(b: u8) -> bool {
    b == LF || b == CR
}

/// A byte that starts a comment line.
pub open spec fn is_indicator(b: u8) -> bool {
    b == HASH || b == SEMICOLON
}

/// The first index at or after `i` that holds no padding, or the length of
/// `t` when only padding follows.
pub open spec fn skip_blank(t: Seq<u8>, i: int) -> int
    decreases t.len() - i,
{
    if 0 <= i < t.len() && is_blank(t[i]) {
        skip_blank(t, i + 1)
    } else {
        i
    }
}

/// The end of `t[lo..hi]` once the padding at its end is cut off.
pub open spec fn trim_end(t: Seq<u8>, lo: int, hi: int) -> int
    decreases hi - lo,
{
    if lo < hi <= t.len() && is_blank(t[hi - 1]) {
        trim_end(t, lo, hi - 1)
    } else {
        hi
    }
}

/// The first index at or after `i` that holds a line break, or the length
/// of `t` when none follows.
pub open spec fn first_break(t: Seq<u8>, i: int) -> int
    decreases t.len() - i,
{
    if 0 <= i < t.len() && !is_break(t[i]) {
        first_break(t, i + 1)
    } else {
        i
    }
}

/// How many bytes the line terminator at `e` takes: two for a carriage
/// return followed by a line feed, one for either of them alone, none at
/// the end of the text.
pub open spec fn break_len(t: Seq<u8>, e: int) -> int {
    if !(0 <= e < t.len()) {
        0
    } else if t[e] == CR && e + 1 < t.len() && t[e + 1] == LF {
        2
    } else {
        1
    }
}

/// The number of backslashes that stand in a row directly before `i`,
/// not counting any before `lo`.
pub open spec fn backslash_run(t: Seq<u8>, lo: int, i: int) -> nat
    decreases i - lo,
{
    if lo < i <= t.len() && t[i - 1] == BACKSLASH {
        1 + backslash_run(t, lo, i - 1)
    } else {
        0
    }
}

/// True when `i` holds an `=` that no backslash makes literal: the
/// backslashes directly before it pair up.
pub open spec fn is_separator(t: Seq<u8>, lo: int, i: int) -> bool {
    0 <= i < t.len() && t[i] == EQUALS && backslash_run(t, lo, i) % 2 == 0
}

/// The first separator at or after `i`, or the length of `t` when there is
/// none. Backslashes are counted from `lo` on.
pub open spec fn find_separator(t: Seq<u8>, lo: int, i: int) -> int
    decreases t.len() - i,
{
    if 0 <= i < t.len() && !is_separator(t, lo, i) {
        find_separator(t, lo, i + 1)
    } else {
        i
    }
}

/// What `skip_blank` finds: only padding lies between `i` and the result,
/// and the result holds none.
pub proof fn lemma_skip_blank(t: Seq<u8>, i: int)
    requires
        0 <= i <= t.len(),
    ensures
        i <= skip_blank(t, i) <= t.len(),
        forall|j: int| i <= j < skip_blank(t, i) ==> is_blank(#[trigger] t[j]),
        skip_blank(t, i) < t.len() ==> !is_blank(t[skip_blank(t, i)]),
    decreases t.len() - i,
{
    if i < t.len() && is_blank(t[i]) {
        lemma_skip_blank(t, i + 1);
    }
}

/// What `trim_end` finds: only padding lies between the result and `hi`,
/// and no padding stands directly before the result.
pub proof fn lemma_trim_end(t: Seq<u8>, lo: int, hi: int)
    requires
        0 <= lo <= hi <= t.len(),
    ensures
        lo <= trim_end(t, lo, hi) <= hi,
        forall|j: int| trim_end(t, lo, hi) <= j < hi ==> is_blank(#[trigger] t[j]),
        lo < trim_end(t, lo, hi) ==> !is_blank(t[trim_end(t, lo, hi) - 1]),
    decreases hi - lo,
{
    if lo < hi && is_blank(t[hi - 1]) {
        lemma_trim_end(t, lo, hi - 1);
    }
}

/// What `first_break` finds: no line break lies between `i` and the result,
/// and the result holds one unless it is the end of `t`.
pub proof fn lemma_first_break(t: Seq<u8>, i: int)
    requires
        0 <= i <= t.len(),
    ensures
        i <= first_break(t, i) <= t.len(),
        forall|j: int| i <= j < first_break(t, i) ==> !is_break(#[trigger] t[j]),
        first_break(t, i) < t.len() ==> is_break(t[first_break(t, i)]),
    decreases t.len() - i,
{
    if i < t.len() && !is_break(t[i]) {
        lemma_first_break(t, i + 1);
    }
}

/// What `find_separator` finds: no separator lies between `i` and the
/// result, and the result is one unless it is the end of `t`.
pub proof fn lemma_find_separator(t: Seq<u8>, lo: int, i: int)
    requires
        0 <= i <= t.len(),
    ensures
        i <= find_separator(t, lo, i) <= t.len(),
        forall|j: int| i <= j < find_separator(t, lo, i) ==> !#[trigger] is_separator(t, lo, j),
        find_separator(t, lo, i) < t.len() ==> is_separator(t, lo, find_separator(t, lo, i)),
    decreases t.len() - i,
{
    if i < t.len() && !is_separator(t, lo, i) {
        lemma_find_separator(t, lo, i + 1);
    }
}

/// True when `t` begins with the UTF-8 byte-order mark.
pub open spec fn has_bom(t: Seq<u8>) -> bool {
    t.len() >= 3 && t[0] == 0xEF && t[1] == 0xBB && t[2] == 0xBF
}

/// The number of bytes that the byte-order mark at the start of `t` takes:
/// three, or none where there is no mark.
pub open spec fn bom_len(t: Seq<u8>) -> int {
    if has_bom(t) {
        3
    } else {
        0
    }
}

/// `t` without its byte-order mark.
pub open spec fn payload(t: Seq<u8>) -> Seq<u8> {
    t.subrange(bom_len(t), t.len() as int)
}

/// Measures the byte-order mark at the start of `buf`.
pub fn mark_len(buf: &[u8]) -> (r: usize)
    ensures
        r == bom_len(buf@),
        r <= buf@.len(),
{
    if buf.len() >= 3 && buf[0] == 0xEF && buf[1] == 0xBB && buf[2] == 0xBF {
        3
    } else {
        0
    }
}

/// Tells padding from other bytes.
pub fn blank(b: u8) -> (r: bool)
    ensures
        r == is_blank(b),
{
    b == SPACE || b == TAB
}

/// Tells line breaks from other bytes.
pub fn line_break(b: u8) -> (r: bool)
    ensures
        r == is_break(b),
{
    b == LF || b == CR
}

/// Skips the padding of the line `buf[lo..hi]` from `from` on.
pub fn skip_blanks(buf: &[u8], lo: usize, hi: usize, from: usize) -> (r: usize)
    requires
        lo <= from <= hi <= buf@.len(),
    ensures
        from <= r <= hi,
        r - lo == skip_blank(buf@.subrange(lo as int, hi as int), from - lo),
{
    let ghost line = buf@.subrange(lo as int, hi as int);
    let mut i: usize = from;
    while i < hi && blank(buf[i])
        invariant
            lo <= from <= i <= hi <= buf@.len(),
            line == buf@.subrange(lo as int, hi as int),
            skip_blank(line, from - lo) == skip_blank(line, i - lo),
        decreases hi - i,
    {
        i = i + 1;
    }
    i
}

/// Cuts the padding off the end of `buf[from..to]`, a part of the line
/// `buf[lo..hi]`.
pub fn trim_back(buf: &[u8], lo: usize, hi: usize, from: usize, to: usize) -> (r: usize)
    requires
        lo <= from <= to <= hi <= buf@.len(),
    ensures
        from <= r <= to,
        r - lo == trim_end(buf@.subrange(lo as int, hi as int), from - lo, to - lo),
{
    let ghost line = buf@.subrange(lo as int, hi as int);
    let mut i: usize = to;
    while from < i && blank(buf[i - 1])
        invariant
            lo <= from <= i <= to <= hi <= buf@.len(),
            line == buf@.subrange(lo as int, hi as int),
            trim_end(line, from - lo, to - lo) == trim_end(line, from - lo, i - lo),
        decreases i - from,
    {
        i = i - 1;
    }
    i
}

/// Finds where the line that starts at `from` ends.
pub fn find_break(buf: &[u8], from: usize) -> (r: usize)
    requires
        from <= buf@.len(),
    ensures
        from <= r <= buf@.len(),
        r - from == first_break(buf@.subrange(from as int, buf@.len() as int), 0),
{
    let ghost rest = buf@.subrange(from as int, buf@.len() as int);
    let mut i: usize = from;
    while i < buf.len() && !line_break(buf[i])
        invariant
            from <= i <= buf@.len(),
            rest == buf@.subrange(from as int, buf@.len() as int),
            first_break(rest, 0) == first_break(rest, i - from),
        decreases buf@.len() - i,
    {
        i = i + 1;
    }
    i
}

/// Measures the line terminator at `e`.
pub fn terminator_len(buf: &[u8], from: usize, e: usize) -> (r: usize)
    requires
        from <= e <= buf@.len(),
    ensures
        r == break_len(buf@.subrange(from as int, buf@.len() as int), e - from),
        e + r <= buf@.len(),
{
    if e >= buf.len() {
        0
    } else if buf[e] == CR && e + 1 < buf.len() && buf[e + 1] == LF {
        2
    } else {
        1
    }
}

/// Finds the first `=` of the line `buf[lo..hi]`, from `from` on, that no
/// backslash makes literal. One pass, with one bit of state: whether the
/// byte at hand is escaped.
pub fn find_equals(buf: &[u8], lo: usize, hi: usize, from: usize) -> (r: usize)
    requires
        lo <= from <= hi <= buf@.len(),
    ensures
        from <= r <= hi,
        r - lo == find_separator(buf@.subrange(lo as int, hi as int), from - lo, from - lo),
{
    let ghost line = buf@.subrange(lo as int, hi as int);
    let ghost anchor = from - lo;
    let mut i: usize = from;
    let mut escaped: bool = false;
    while i < hi
        invariant
            lo <= from <= i <= hi <= buf@.len(),
            line == buf@.subrange(lo as int, hi as int),
            anchor == from - lo,
            escaped == (backslash_run(line, anchor, i - lo) % 2 == 1),
            find_separator(line, anchor, anchor) == find_separator(line, anchor, i - lo),
        decreases hi - i,
    {
        let b: u8 = buf[i];
        assert(line[i - lo] == b);
        if escaped {
            escaped = false;
        } else if b == BACKSLASH {
            escaped = true;
        } else if b == EQUALS {
            return i;
        }
        i = i + 1;
    }
    i
}

} // verus!
