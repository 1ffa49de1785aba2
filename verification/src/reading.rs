//! What a text says, line by line, with the text of each line copied out.
//!
//! The scanner speaks in offsets; a tree holds text. `read_lines` is the
//! scan with every token replaced by the item it stands for, and the lemmas
//! here tie the two together.

use vstd::prelude::*;
use crate::ast::ItemModel;
use crate::builder::{entries, entry_of};
use crate::bytes::{break_len, first_break, is_break, lemma_first_break, LF};
use crate::error::Fault;
use crate::scanner::{classify, lemma_classify_within, lemma_line_advances, scan_text};
use crate::token::{LineView, TokenView};

verus! {

/// What a text says: the items of its lines up to the first faulty line,
/// and the fault of that line, if there is one.
pub struct Reading {
    pub entries: Seq<ItemModel>,
    pub fault: Option<Fault>,
}

/// What the text `t` says.
pub open spec fn read_lines(t: Seq<u8>) -> Reading
    decreases t.len(),
{
    if t.len() == 0 {
        Reading { entries: Seq::empty(), fault: None }
    } else {
        let e = first_break(t, 0);
        let next = e + break_len(t, e);
        let l = t.subrange(0, e);
        if 0 < next <= t.len() {
            match classify(l) {
                LineView::Bad(fault) => Reading { entries: Seq::empty(), fault: Some(fault) },
                LineView::Blank => read_lines(t.subrange(next, t.len() as int)),
                LineView::Item(token) => {
                    let rest = read_lines(t.subrange(next, t.len() as int));
                    Reading { entries: seq![entry_of(l, token)] + rest.entries, fault: rest.fault }
                },
            }
        } else {
            Reading { entries: Seq::empty(), fault: None }
        }
    }
}

/// A token of a line stands for the same item in any text that holds the
/// line, once the token is moved to where the line lies.
pub proof fn lemma_entry_moves(whole: Seq<u8>, l: Seq<u8>, at: int, token: TokenView)
    requires
        0 <= at,
        at + l.len() <= whole.len(),
        whole.subrange(at, at + l.len()) == l,
        token.within(l.len() as int),
    ensures
        entry_of(whole, token.shift(at)) == entry_of(l, token),
{
    assert forall|i: int| 0 <= i < l.len() implies whole[at + i] == l[i] by {
        assert(whole.subrange(at, at + l.len())[i] == whole[at + i]);
    }
    match token {
        TokenView::Section { name } => {
            assert(name.shift(at).of(whole) =~= name.of(l));
        },
        TokenView::Comment { indicator, value } => {
            assert(value.shift(at).of(whole) =~= value.of(l));
        },
        TokenView::Pair { key, value } => {
            assert(key.shift(at).of(whole) =~= key.of(l));
            assert(value.shift(at).of(whole) =~= value.of(l));
        },
    }
}

/// The scan of a text agrees with what the text says, wherever the text
/// lies in the buffer that the offsets point into and whatever number its
/// first line has.
pub proof fn lemma_scan_reads(whole: Seq<u8>, t: Seq<u8>, base: int, line: int)
    requires
        0 <= base,
        base + t.len() <= whole.len(),
        whole.subrange(base, base + t.len()) == t,
    ensures
        entries(whole, scan_text(t, base, line).tokens) == read_lines(t).entries,
        scan_text(t, base, line).stop is None <==> read_lines(t).fault is None,
        scan_text(t, base, line).stop matches Some((fault, _)) ==> read_lines(t).fault == Some(
            fault,
        ),
    decreases t.len(),
{
    if t.len() > 0 {
        lemma_line_advances(t);
        let e = first_break(t, 0);
        let next = e + break_len(t, e);
        let l = t.subrange(0, e);
        let rest_text = t.subrange(next, t.len() as int);
        let rest = scan_text(rest_text, base + next, line + 1);
        assert(whole.subrange(base + next, base + next + rest_text.len()) == rest_text) by {
            assert forall|i: int| 0 <= i < rest_text.len() implies whole[base + next + i]
                == rest_text[i] by {
                assert(whole.subrange(base, base + t.len())[next + i] == whole[base + next + i]);
            }
            assert(whole.subrange(base + next, base + next + rest_text.len()) =~= rest_text);
        }
        lemma_scan_reads(whole, rest_text, base + next, line + 1);
        match classify(l) {
            LineView::Item(token) => {
                lemma_classify_within(l);
                assert(whole.subrange(base, base + l.len()) =~= l) by {
                    assert forall|i: int| 0 <= i < l.len() implies whole[base + i] == l[i] by {
                        assert(whole.subrange(base, base + t.len())[i] == whole[base + i]);
                    }
                }
                lemma_entry_moves(whole, l, base, token);
                let all = scan_text(t, base, line).tokens;
                assert(all == seq![token.shift(base)] + rest.tokens);
                assert(entries(whole, all) =~= seq![entry_of(l, token)] + entries(
                    whole,
                    rest.tokens,
                ));
            },
            _ => {},
        }
    } else {
        assert(entries(whole, scan_text(t, base, line).tokens) =~= Seq::<ItemModel>::empty());
    }
}

/// True when `t` is made of whole lines: it is empty or ends with a line
/// feed.
pub open spec fn whole_lines(t: Seq<u8>) -> bool {
    t.len() == 0 || t.last() == LF
}

/// The first line of a text stays the same when more text is put behind
/// the text, as long as the line has its terminator.
pub proof fn lemma_first_line_appended(a: Seq<u8>, b: Seq<u8>)
    requires
        a.len() > 0,
        a.last() == LF,
    ensures
        first_break(a, 0) < a.len(),
        first_break(a + b, 0) == first_break(a, 0),
        break_len(a + b, first_break(a, 0)) == break_len(a, first_break(a, 0)),
{
    lemma_first_break(a, 0);
    lemma_first_break(a + b, 0);
    let e = first_break(a, 0);
    let f = first_break(a + b, 0);
    if e == a.len() {
        assert(!is_break(a[a.len() - 1]));
    }
    assert((a + b)[e] == a[e]);
    if f < e {
        assert((a + b)[f] == a[f]);
    }
    if e < f {
        assert(!is_break((a + b)[e]));
    }
    if e + 1 < a.len() {
        assert((a + b)[e + 1] == a[e + 1]);
    }
}

/// What two texts say one after the other is what the two say when put
/// together, as long as the first is made of whole lines without a fault.
pub proof fn lemma_read_concat(a: Seq<u8>, b: Seq<u8>)
    requires
        whole_lines(a),
        read_lines(a).fault is None,
    ensures
        read_lines(a + b).entries == read_lines(a).entries + read_lines(b).entries,
        read_lines(a + b).fault == read_lines(b).fault,
    decreases a.len(),
{
    if a.len() == 0 {
        assert(a + b =~= b);
        assert(read_lines(a).entries + read_lines(b).entries =~= read_lines(b).entries);
    } else {
        lemma_first_line_appended(a, b);
        lemma_line_advances(a);
        let e = first_break(a, 0);
        let next = e + break_len(a, e);
        let l = a.subrange(0, e);
        let tail = a.subrange(next, a.len() as int);
        assert((a + b).subrange(0, e) =~= l);
        assert((a + b).subrange(next, (a + b).len() as int) =~= tail + b);
        if tail.len() > 0 {
            assert(tail.last() == a.last());
        }
        match classify(l) {
            LineView::Bad(_) => {},
            LineView::Blank => {
                lemma_read_concat(tail, b);
            },
            LineView::Item(token) => {
                lemma_read_concat(tail, b);
                assert(read_lines(a + b).entries =~= read_lines(a).entries + read_lines(
                    b,
                ).entries);
            },
        }
    }
}

/// A fault in whole lines stays the fault when more text follows.
pub proof fn lemma_read_concat_fault(a: Seq<u8>, b: Seq<u8>)
    requires
        whole_lines(a),
        read_lines(a).fault is Some,
    ensures
        read_lines(a + b).fault is Some,
    decreases a.len(),
{
    if a.len() > 0 {
        lemma_first_line_appended(a, b);
        lemma_line_advances(a);
        let e = first_break(a, 0);
        let next = e + break_len(a, e);
        let l = a.subrange(0, e);
        let tail = a.subrange(next, a.len() as int);
        assert((a + b).subrange(0, e) =~= l);
        assert((a + b).subrange(next, (a + b).len() as int) =~= tail + b);
        if tail.len() > 0 {
            assert(tail.last() == a.last());
        }
        match classify(l) {
            LineView::Bad(_) => {},
            _ => {
                lemma_read_concat_fault(tail, b);
            },
        }
    }
}

} // verus!
