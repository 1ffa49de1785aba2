//! Normalizing and parsing: a buffer says the same before and after it is
//! normalized, and a byte-order mark says nothing.

use vstd::prelude::*;
use vstd::utf8::{
    is_char_boundary, length_of_first_scalar, pop_first_scalar, take_first_scalar, valid_utf8,
};
use crate::ast::ItemModel;
use crate::bytes::{
    bom_len, break_len, first_break, has_bom, is_break, lemma_first_break, payload, CR, LF,
};
use crate::error::ParseError;
use crate::normalize::{is_paired_cr, normalize_model, unix_lines};
use crate::parser::{parse_model, text_model};
use crate::reading::{lemma_scan_reads, read_lines};
use crate::scanner::{classify, lemma_line_advances, scan_text};
use crate::text::{lemma_ascii_valid, lemma_valid_append};
use crate::token::LineView;

verus! {

/// Normalizing can be done in two parts: up to any index, and from there
/// on.
pub proof fn lemma_unix_split(t: Seq<u8>, k: int, n: int)
    requires
        0 <= k <= n <= t.len(),
    ensures
        unix_lines(t, n) == unix_lines(t, k) + unix_lines(t.subrange(k, t.len() as int), n - k),
    decreases n - k,
{
    let tail = t.subrange(k, t.len() as int);
    if k < n {
        lemma_unix_split(t, k, n - 1);
        assert(tail[n - 1 - k] == t[n - 1]);
        if n < t.len() {
            assert(tail[n - k] == t[n]);
        }
        assert(is_paired_cr(t, n - 1) == is_paired_cr(tail, n - 1 - k));
        if !is_paired_cr(t, n - 1) {
            assert(unix_lines(t, n) =~= unix_lines(t, k) + unix_lines(tail, n - k));
        }
    } else {
        assert(unix_lines(t, n) =~= unix_lines(t, k) + unix_lines(tail, 0));
    }
}

/// Normalizing changes nothing where there is no carriage return.
pub proof fn lemma_unix_plain(t: Seq<u8>, n: int)
    requires
        0 <= n <= t.len(),
        forall|i: int| 0 <= i < n ==> #[trigger] t[i] != CR,
    ensures
        unix_lines(t, n) == t.subrange(0, n),
    decreases n,
{
    if n > 0 {
        lemma_unix_plain(t, n - 1);
        assert(t.subrange(0, n - 1).push(t[n - 1]) =~= t.subrange(0, n));
    } else {
        assert(t.subrange(0, 0) =~= Seq::<u8>::empty());
    }
}

/// A text that begins with a line feed says what the text behind the line
/// feed says.
pub proof fn lemma_read_behind_line_feed(u: Seq<u8>)
    requires
        u.len() > 0,
        u[0] == LF,
    ensures
        read_lines(u) == read_lines(u.subrange(1, u.len() as int)),
{
    assert(first_break(u, 0) == 0);
    assert(break_len(u, 0) == 1);
    let l = u.subrange(0, 0);
    assert(l.len() == 0);
    assert(classify(l) == LineView::Blank);
}

/// A text says the same before and after it is normalized.
pub proof fn lemma_read_unix(t: Seq<u8>)
    ensures
        read_lines(unix_lines(t, t.len() as int)) == read_lines(t),
    decreases t.len(),
{
    let n = t.len() as int;
    let u = unix_lines(t, n);
    if n > 0 {
        lemma_line_advances(t);
        lemma_first_break(t, 0);
        let e = first_break(t, 0);
        let next = e + break_len(t, e);
        let l = t.subrange(0, e);
        let rest = t.subrange(next, n);
        let after = unix_lines(rest, rest.len() as int);
        lemma_unix_split(t, next, n);
        assert forall|i: int| 0 <= i < e implies #[trigger] t[i] != CR by {
            assert(!is_break(t[i]));
        }
        lemma_unix_plain(t, e);
        lemma_read_unix(rest);
        if e == n {
            assert(u =~= t);
        } else {
            // The terminator of the first line, as it stands after
            // normalizing.
            let mark: u8 = if t[e] == CR && !is_paired_cr(t, e) {
                CR
            } else {
                LF
            };
            assert(unix_lines(t, next) == l.push(mark)) by {
                if is_paired_cr(t, e) {
                    assert(unix_lines(t, e + 1) == unix_lines(t, e));
                    assert(!is_paired_cr(t, e + 1));
                    assert(unix_lines(t, e + 2) == unix_lines(t, e + 1).push(t[e + 1]));
                } else {
                    assert(unix_lines(t, e + 1) == unix_lines(t, e).push(t[e]));
                }
            }
            assert(u == l.push(mark) + after);
            assert(u.len() > e);
            assert(u[e] == mark);
            assert forall|i: int| 0 <= i < e implies !is_break(#[trigger] u[i]) by {
                assert(u[i] == l[i]);
                assert(l[i] == t[i]);
            }
            lemma_first_break(u, 0);
            let f = first_break(u, 0);
            if f < e {
                assert(!is_break(u[f]));
            }
            assert(f == e);
            assert(u.subrange(0, e) =~= l);
            let step = break_len(u, e);
            let behind = u.subrange(e + step, u.len() as int);
            if step == 2 {
                assert(u[e + 1] == after[0]);
                lemma_read_behind_line_feed(after);
                assert(behind =~= after.subrange(1, after.len() as int));
            } else {
                assert(behind =~= after);
            }
            assert(read_lines(behind) == read_lines(rest));
        }
    } else {
        assert(u =~= t);
    }
}

/// The first character of a UTF-8 text is UTF-8 by itself.
pub proof fn lemma_first_scalar_valid(t: Seq<u8>)
    requires
        valid_utf8(t),
        t.len() > 0,
    ensures
        0 < length_of_first_scalar(t) <= t.len(),
        valid_utf8(take_first_scalar(t)),
        valid_utf8(pop_first_scalar(t)),
        length_of_first_scalar(t) == 1 ==> t[0] < 0x80,
        length_of_first_scalar(t) > 1 ==> forall|i: int|
            0 <= i < length_of_first_scalar(t) ==> #[trigger] t[i] >= 0x80,
{
    broadcast use vstd::utf8::group_utf8_lib;

    let k = length_of_first_scalar(t);
    assert(is_char_boundary(t, k)) by {
        assert(is_char_boundary(pop_first_scalar(t), 0));
    }
    assert(valid_utf8(t.subrange(0, k)));
}

/// Normalizing keeps UTF-8 what it is.
pub proof fn lemma_unix_valid(t: Seq<u8>)
    requires
        valid_utf8(t),
    ensures
        valid_utf8(unix_lines(t, t.len() as int)),
    decreases t.len(),
{
    let n = t.len() as int;
    if n > 0 {
        lemma_first_scalar_valid(t);
        let k = length_of_first_scalar(t);
        let rest = pop_first_scalar(t);
        lemma_unix_valid(rest);
        lemma_unix_split(t, k, n);
        let head = unix_lines(t, k);
        if k == 1 {
            assert(unix_lines(t, 0) == Seq::<u8>::empty());
            if is_paired_cr(t, 0) {
                assert(head == Seq::<u8>::empty());
            } else {
                assert(head =~= seq![t[0]]);
                lemma_ascii_valid(t[0]);
            }
        } else {
            assert forall|i: int| 0 <= i < k implies #[trigger] t[i] != CR by {
                assert(t[i] >= 0x80);
            }
            lemma_unix_plain(t, k);
        }
        lemma_valid_append(head, unix_lines(rest, rest.len() as int));
    }
}

/// A scan stops at the same line with the same fault wherever the text
/// lies in the buffer.
pub proof fn lemma_stop_anywhere(t: Seq<u8>, a: int, b: int, line: int)
    ensures
        scan_text(t, a, line).stop == scan_text(t, b, line).stop,
    decreases t.len(),
{
    if t.len() > 0 {
        lemma_line_advances(t);
        let e = first_break(t, 0);
        let next = e + break_len(t, e);
        lemma_stop_anywhere(t.subrange(next, t.len() as int), a + next, b + next, line + 1);
    }
}

/// Parsing a buffer is parsing the text behind its byte-order mark.
pub proof fn lemma_parse_payload(raw: Seq<u8>)
    ensures
        parse_model(raw) == text_model(payload(raw)),
{
    let t = payload(raw);
    assert(t.subrange(0, 0 + t.len() as int) =~= t);
    lemma_scan_reads(raw, t, bom_len(raw), 1);
    lemma_scan_reads(t, t, 0, 1);
    lemma_stop_anywhere(t, bom_len(raw), 0, 1);
}

/// Normalizing first makes no difference to the tree. Where a buffer can
/// be normalized, the normalized text parses exactly when the buffer does,
/// and into the same tree.
pub proof fn theorem_normalized(raw: Seq<u8>)
    requires
        normalize_model(raw) is Ok,
    ensures
        text_model(normalize_model(raw)->Ok_0) is Ok <==> parse_model(raw) is Ok,
        parse_model(raw) matches Ok(d) ==> text_model(normalize_model(raw)->Ok_0) == Ok::<
            Seq<ItemModel>,
            ParseError,
        >(d),
{
    let t = payload(raw);
    let text = unix_lines(t, t.len() as int);
    lemma_unix_valid(t);
    lemma_read_unix(t);
    assert(text.subrange(0, 0 + text.len() as int) =~= text);
    lemma_scan_reads(text, text, 0, 1);
    lemma_scan_reads(raw, t, bom_len(raw), 1);
}

/// The byte-order mark.
pub open spec fn mark() -> Seq<u8> {
    seq![0xEFu8, 0xBBu8, 0xBFu8]
}

/// A byte-order mark makes no difference. A buffer with a mark put before
/// it parses as the buffer does without one: into the same tree, or into
/// the same error on the same line.
pub proof fn theorem_mark_ignored(x: Seq<u8>)
    ensures
        parse_model(mark() + x) == text_model(x),
        !has_bom(x) ==> parse_model(x) == text_model(x),
{
    let raw = mark() + x;
    assert(has_bom(raw));
    assert(payload(raw) =~= x);
    lemma_parse_payload(raw);
    if !has_bom(x) {
        assert(payload(x) =~= x);
        lemma_parse_payload(x);
    }
}

} // verus!
