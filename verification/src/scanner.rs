//! The scanner: cuts a buffer into lines and tells what each line is.
//!
//! A line ends at a line feed, at a carriage return, at the two in a row, or
//! at the end of the buffer. What a line is depends on its first byte that
//! is no padding: `[` makes it a section header, `#` or `;` a comment,
//! anything else a pair; a line of padding alone is blank.

use vstd::prelude::*;
use crate::bytes::{
    break_len, find_break, find_equals, find_separator, first_break, is_blank, is_break,
    is_indicator, lemma_find_separator, lemma_first_break, lemma_skip_blank, lemma_trim_end,
    bom_len, mark_len, payload, skip_blank, skip_blanks, terminator_len, trim_back, trim_end,
    CLOSE, HASH, MAX_KEY, MAX_VALUE, OPEN, SEMICOLON, SPACE,
};
use crate::error::{Fault, ParseError, fault_error};
use crate::text::lemma_valid_slice;
use vstd::utf8::valid_utf8;
use crate::token::{token_views, Extent, Line, LineView, Span, Token, TokenView};

verus! {

/// Where the value of the comment whose indicator stands at `a` begins: one
/// space after the indicator is passed over, no more.
pub open spec fn comment_start(l: Seq<u8>, a: int) -> int {
    if a + 1 < l.len() && l[a + 1] == SPACE {
        a + 2
    } else {
        a + 1
    }
}

/// What the header line `l` holds, `a` being the offset of its `[`. The
/// header has to end in `]`, padding aside; the name is all that stands
/// between the two brackets.
pub open spec fn classify_header(l: Seq<u8>, a: int) -> LineView {
    let z = trim_end(l, a, l.len() as int);
    if z - 1 > a && l[z - 1] == CLOSE {
        LineView::Item(TokenView::Section { name: Extent { start: a + 1, end: z - 1 } })
    } else {
        LineView::Bad(Fault::UnterminatedSection)
    }
}

/// What the pair line `l` holds, `a` being the offset of its first byte
/// that is no padding. The first `=` without a backslash before it splits
/// the line; key and value lose the padding around them.
pub open spec fn classify_pair(l: Seq<u8>, a: int) -> LineView {
    let q = find_separator(l, a, a);
    if q >= l.len() {
        LineView::Bad(Fault::UnexpectedInput)
    } else {
        let key = Extent { start: a, end: trim_end(l, a, q) };
        let from = skip_blank(l, q + 1);
        let value = Extent { start: from, end: trim_end(l, from, l.len() as int) };
        if key.len() > MAX_KEY {
            LineView::Bad(Fault::KeyTooLong)
        } else if value.len() > MAX_VALUE {
            LineView::Bad(Fault::ValueTooLong)
        } else {
            LineView::Item(TokenView::Pair { key, value })
        }
    }
}

/// What the line `l` holds; `l` is the line without its terminator, and the
/// offsets of the result count from its start.
pub open spec fn classify(l: Seq<u8>) -> LineView {
    let a = skip_blank(l, 0);
    if a >= l.len() {
        LineView::Blank
    } else if l[a] == OPEN {
        classify_header(l, a)
    } else if is_indicator(l[a]) {
        LineView::Item(
            TokenView::Comment {
                indicator: a,
                value: Extent { start: comment_start(l, a), end: l.len() as int },
            },
        )
    } else {
        classify_pair(l, a)
    }
}

/// What a scan yields: the tokens of the lines before the first faulty
/// one, and that fault with the number of its line, if there is one.
pub struct ScanView {
    pub tokens: Seq<TokenView>,
    pub stop: Option<(Fault, int)>,
}

/// The scan of the text `t`. Offsets in the tokens are those within `t`
/// plus `base`; the first line of `t` has the number `line`.
pub open spec fn scan_text(t: Seq<u8>, base: int, line: int) -> ScanView
    decreases t.len(),
{
    if t.len() == 0 {
        ScanView { tokens: Seq::empty(), stop: None }
    } else {
        let e = first_break(t, 0);
        let next = e + break_len(t, e);
        if 0 < next <= t.len() {
            match classify(t.subrange(0, e)) {
                LineView::Bad(fault) => ScanView { tokens: Seq::empty(), stop: Some((fault, line)) },
                LineView::Blank => scan_text(t.subrange(next, t.len() as int), base + next, line + 1),
                LineView::Item(token) => {
                    let rest = scan_text(t.subrange(next, t.len() as int), base + next, line + 1);
                    ScanView { tokens: seq![token.shift(base)] + rest.tokens, stop: rest.stop }
                },
            }
        } else {
            ScanView { tokens: Seq::empty(), stop: None }
        }
    }
}

/// A line is never empty together with its terminator: the scan always
/// moves on.
pub proof fn lemma_line_advances(t: Seq<u8>)
    requires
        t.len() > 0,
    ensures
        0 <= first_break(t, 0) <= t.len(),
        0 < first_break(t, 0) + break_len(t, first_break(t, 0)) <= t.len(),
{
    lemma_first_break(t, 0);
}

/// Every offset that `classify` gives lies inside the line.
pub proof fn lemma_classify_within(l: Seq<u8>)
    ensures
        classify(l) matches LineView::Item(token) ==> token.within(l.len() as int),
{
    let n = l.len() as int;
    lemma_skip_blank(l, 0);
    let a = skip_blank(l, 0);
    if a < n {
        lemma_trim_end(l, a, n);
        lemma_find_separator(l, a, a);
        let q = find_separator(l, a, a);
        if q < n {
            lemma_trim_end(l, a, q);
            lemma_skip_blank(l, q + 1);
            lemma_trim_end(l, skip_blank(l, q + 1), n);
        }
    }
}

/// True when the range lies in `t` and is cut out at ASCII bytes: the byte
/// before it and the byte behind it, where there are such, are ASCII.
pub open spec fn clean(t: Seq<u8>, range: Extent) -> bool {
    &&& range.within(t.len() as int)
    &&& (range.start == 0 || t[range.start - 1] < 0x80)
    &&& (range.end == t.len() || t[range.end] < 0x80)
}

/// True when every range of the token is cut out of `t` at ASCII bytes,
/// and the indicator of a comment is `#` or `;`.
pub open spec fn clean_token(t: Seq<u8>, token: TokenView) -> bool {
    match token {
        TokenView::Section { name } => clean(t, name),
        TokenView::Comment { indicator, value } => 0 <= indicator < t.len() && is_indicator(
            t[indicator],
        ) && clean(t, value),
        TokenView::Pair { key, value } => clean(t, key) && clean(t, value),
    }
}

/// A range cut cleanly out of UTF-8 text covers UTF-8.
pub proof fn lemma_clean_is_valid(t: Seq<u8>, range: Extent)
    requires
        valid_utf8(t),
        clean(t, range),
    ensures
        valid_utf8(range.of(t)),
{
    broadcast use vstd::utf8::group_utf8_lib;

    lemma_valid_slice(t, range.start, range.end);
}

/// The ranges that `classify` gives are cut out of the line at ASCII
/// bytes.
pub proof fn lemma_classify_clean(l: Seq<u8>)
    ensures
        classify(l) matches LineView::Item(token) ==> clean_token(l, token),
{
    let n = l.len() as int;
    lemma_skip_blank(l, 0);
    let a = skip_blank(l, 0);
    if a < n {
        lemma_trim_end(l, a, n);
        lemma_find_separator(l, a, a);
        let q = find_separator(l, a, a);
        if q < n {
            lemma_trim_end(l, a, q);
            lemma_skip_blank(l, q + 1);
            lemma_trim_end(l, skip_blank(l, q + 1), n);
            if a > 0 {
                assert(is_blank(l[a - 1]));
            }
            let kz = trim_end(l, a, q);
            if kz < q {
                assert(is_blank(l[kz]));
            }
            let vs = skip_blank(l, q + 1);
            if vs > q + 1 {
                assert(is_blank(l[vs - 1]));
            }
            let vz = trim_end(l, vs, n);
            if vz < n {
                assert(is_blank(l[vz]));
            }
        }
    }
}

/// Every token of a scan, taken back by `base`, is cut out of the scanned
/// text at ASCII bytes.
pub proof fn lemma_scan_clean(t: Seq<u8>, base: int, line: int)
    ensures
        forall|i: int|
            0 <= i < scan_text(t, base, line).tokens.len() ==> clean_token(
                t,
                (#[trigger] scan_text(t, base, line).tokens[i]).shift(-base),
            ),
    decreases t.len(),
{
    if t.len() > 0 {
        lemma_line_advances(t);
        lemma_first_break(t, 0);
        let e = first_break(t, 0);
        let next = e + break_len(t, e);
        let l = t.subrange(0, e);
        let rest_text = t.subrange(next, t.len() as int);
        let rest = scan_text(rest_text, base + next, line + 1);
        lemma_classify_clean(l);
        lemma_scan_clean(rest_text, base + next, line + 1);
        assert forall|i: int| 0 <= i < rest.tokens.len() implies clean_token(
            t,
            (#[trigger] rest.tokens[i]).shift(-base),
        ) by {
            let inner = rest.tokens[i].shift(-(base + next));
            assert(clean_token(rest_text, inner));
            assert(is_break(t[next - 1]));
            lemma_clean_moves(t, rest_text, next, inner);
            assert(inner.shift(next) == rest.tokens[i].shift(-base));
        }
        match classify(l) {
            LineView::Item(token) => {
                assert(clean_token(l, token));
                lemma_clean_widens(t, l, token);
                assert(token.shift(base).shift(-base) == token);
                let all = scan_text(t, base, line).tokens;
                assert(all == seq![token.shift(base)] + rest.tokens);
                assert forall|i: int| 0 <= i < all.len() implies clean_token(
                    t,
                    (#[trigger] all[i]).shift(-base),
                ) by {
                    if i > 0 {
                        assert(all[i] == rest.tokens[i - 1]);
                    }
                }
            },
            _ => {},
        }
    }
}

/// A token cut cleanly out of a suffix of `t` that stands behind an ASCII
/// byte is cut cleanly out of `t`, `by` bytes further on.
pub proof fn lemma_clean_moves(t: Seq<u8>, suffix: Seq<u8>, by: int, token: TokenView)
    requires
        0 < by <= t.len(),
        suffix == t.subrange(by, t.len() as int),
        t[by - 1] < 0x80,
        clean_token(suffix, token),
    ensures
        clean_token(t, token.shift(by)),
{
    assert forall|range: Extent| clean(suffix, range) implies clean(t, #[trigger] range.shift(by)) by {
        if range.start > 0 {
            assert(suffix[range.start - 1] == t[range.start - 1 + by]);
        }
        if range.end < suffix.len() {
            assert(suffix[range.end] == t[range.end + by]);
        }
    }
    match token {
        TokenView::Comment { indicator, value } => {
            assert(suffix[indicator] == t[indicator + by]);
        },
        _ => {},
    }
}

/// A token cut cleanly out of the first line of `t` is cut cleanly out of
/// `t`.
pub proof fn lemma_clean_widens(t: Seq<u8>, l: Seq<u8>, token: TokenView)
    requires
        t.len() > 0,
        l == t.subrange(0, first_break(t, 0)),
        clean_token(l, token),
    ensures
        clean_token(t, token),
{
    lemma_first_break(t, 0);
    assert forall|range: Extent| clean(l, range) implies clean(t, range) by {
        if range.start > 0 {
            assert(l[range.start - 1] == t[range.start - 1]);
        }
        if range.end < l.len() {
            assert(l[range.end] == t[range.end]);
        }
    }
    match token {
        TokenView::Comment { indicator, value } => {
            assert(l[indicator] == t[indicator]);
        },
        _ => {},
    }
}

/// Tells what the line `buf[lo..hi]` holds. The offsets of the result are
/// offsets into `buf`.
pub fn scan_line(buf: &[u8], lo: usize, hi: usize) -> (r: Line)
    requires
        lo <= hi <= buf@.len(),
    ensures
        r@ == classify(buf@.subrange(lo as int, hi as int)).shift(lo as int),
{
    let ghost l = buf@.subrange(lo as int, hi as int);
    let a: usize = skip_blanks(buf, lo, hi, lo);
    if a >= hi {
        return Line::Blank;
    }
    let first: u8 = buf[a];
    assert(l[a - lo] == first);
    if first == OPEN {
        let z: usize = trim_back(buf, lo, hi, a, hi);
        if z > a + 1 && buf[z - 1] == CLOSE {
            assert(l[z - 1 - lo] == buf@[z - 1]);
            Line::Item(Token::Section { name: Span { start: a + 1, end: z - 1 } })
        } else {
            assert(z > a + 1 ==> l[z - 1 - lo] == buf@[z - 1]);
            Line::Bad(Fault::UnterminatedSection)
        }
    } else if first == HASH || first == SEMICOLON {
        assert(a + 1 < hi ==> l[a + 1 - lo] == buf@[a + 1]);
        let start: usize = if a + 1 < hi && buf[a + 1] == SPACE {
            a + 2
        } else {
            a + 1
        };
        Line::Item(Token::Comment { indicator: a, value: Span { start, end: hi } })
    } else {
        let q: usize = find_equals(buf, lo, hi, a);
        if q >= hi {
            return Line::Bad(Fault::UnexpectedInput);
        }
        let key_end: usize = trim_back(buf, lo, hi, a, q);
        let from: usize = skip_blanks(buf, lo, hi, q + 1);
        let value_end: usize = trim_back(buf, lo, hi, from, hi);
        if key_end - a > MAX_KEY {
            Line::Bad(Fault::KeyTooLong)
        } else if value_end - from > MAX_VALUE {
            Line::Bad(Fault::ValueTooLong)
        } else {
            Line::Item(
                Token::Pair {
                    key: Span { start: a, end: key_end },
                    value: Span { start: from, end: value_end },
                },
            )
        }
    }
}

/// What a scan of a buffer yields: the tokens of the lines before the
/// first faulty one, and the error for that line, if there is one.
#[derive(Debug)]
pub struct Scan {
    pub tokens: Vec<Token>,
    pub stop: Option<ParseError>,
}

/// The error that a scan stops with.
pub open spec fn stop_error(stop: Option<(Fault, int)>) -> Option<ParseError> {
    match stop {
        None => None,
        Some((fault, line)) => Some(fault_error(fault, line)),
    }
}

impl Scan {
    /// True when the scan holds what `view` describes.
    pub open spec fn matches_view(&self, view: ScanView) -> bool {
        &&& token_views(self.tokens@) == view.tokens
        &&& self.stop == stop_error(view.stop)
    }
}

/// Scans `buf` from the offset `from` to its end, line by line, and stops
/// at the first line that the dialect does not allow.
pub fn scan_from(buf: &[u8], from: usize) -> (r: Scan)
    requires
        from <= buf@.len(),
    ensures
        r.matches_view(scan_text(buf@.subrange(from as int, buf@.len() as int), from as int, 1)),
{
    let ghost len = buf@.len() as int;
    let ghost whole = scan_text(buf@.subrange(from as int, len), from as int, 1);
    let mut tokens: Vec<Token> = Vec::new();
    let mut pos: usize = from;
    let mut line: usize = 0;
    assert(token_views(tokens@) + whole.tokens == whole.tokens);
    while pos < buf.len()
        invariant
            from <= pos <= buf@.len(),
            line <= pos,
            len == buf@.len(),
            whole == scan_text(buf@.subrange(from as int, len), from as int, 1),
            whole.tokens == token_views(tokens@) + scan_text(
                buf@.subrange(pos as int, len),
                pos as int,
                line + 1,
            ).tokens,
            whole.stop == scan_text(buf@.subrange(pos as int, len), pos as int, line + 1).stop,
        decreases buf@.len() - pos,
    {
        let ghost t = buf@.subrange(pos as int, len);
        let e: usize = find_break(buf, pos);
        let next: usize = e + terminator_len(buf, pos, e);
        proof {
            lemma_line_advances(t);
            assert(t.subrange(0, e - pos) == buf@.subrange(pos as int, e as int));
            assert(t.subrange(next - pos, t.len() as int) == buf@.subrange(next as int, len));
        }
        line = line + 1;
        match scan_line(buf, pos, e) {
            Line::Bad(fault) => {
                proof {
                    assert(token_views(tokens@) + Seq::<TokenView>::empty() == token_views(
                        tokens@,
                    ));
                }
                return Scan { tokens, stop: Some(ParseError::at(fault, line)) };
            },
            Line::Blank => {},
            Line::Item(token) => {
                let ghost before = tokens@;
                tokens.push(token);
                assert(token_views(tokens@) == token_views(before) + seq![token@]);
            },
        }
        pos = next;
    }
    proof {
        assert(token_views(tokens@) + Seq::<TokenView>::empty() == token_views(tokens@));
    }
    Scan { tokens, stop: None }
}

/// Scans `buf`, passing over a byte-order mark at its start. The offsets
/// in the tokens are offsets into `buf` itself.
pub fn scan(buf: &[u8]) -> (r: Scan)
    ensures
        r.matches_view(scan_text(payload(buf@), bom_len(buf@), 1)),
{
    let from: usize = mark_len(buf);
    scan_from(buf, from)
}

} // verus!
