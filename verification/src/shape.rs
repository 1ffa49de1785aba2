//! What parsing builds: every document that comes out of a scan is made of
//! items such as `scanned_document` describes.

use vstd::prelude::*;
use vstd::utf8::valid_utf8;
use crate::ast::ItemModel;
use crate::builder::{draft, entries, entry_of, Draft};
use crate::bytes::{
    backslash_run, bom_len, break_len, find_separator, first_break, is_break, is_separator,
    lemma_find_separator, lemma_first_break, lemma_skip_blank, lemma_trim_end, payload, skip_blank,
    HASH, SEMICOLON,
};
use crate::canonical::{
    sections_last,one_line, scanned_document, scanned_item, scanned_leaf};
use crate::parser::parse_model;
use crate::reading::{lemma_scan_reads, read_lines};
use crate::scanner::{
    lemma_clean_is_valid, classify, lemma_classify_clean, lemma_classify_within,
    lemma_line_advances,
};
use crate::text::lemma_valid_slice;
use crate::token::{LineView, TokenView};

verus! {

/// True for what one line of a scan stands for: a pair or a comment such
/// as the scanner hands out, or a header with a name on one line.
pub open spec fn scanned_entry(m: ItemModel) -> bool {
    match m {
        ItemModel::Section { name, body } => valid_utf8(name) && one_line(name) && body.len() == 0,
        leaf => scanned_leaf(leaf),
    }
}

/// The backslashes before an index are the same in a text and in a part
/// of it, counted from the start of the part.
pub proof fn lemma_backslash_run_part(l: Seq<u8>, a: int, z: int, i: int)
    requires
        0 <= a <= z <= l.len(),
        0 <= i <= z - a,
    ensures
        backslash_run(l.subrange(a, z), 0, i) == backslash_run(l, a, a + i),
    decreases i,
{
    if i > 0 {
        lemma_backslash_run_part(l, a, z, i - 1);
        assert(l.subrange(a, z)[i - 1] == l[a + i - 1]);
    }
}

/// What a line of UTF-8 holds is such as `scanned_entry` describes.
pub proof fn lemma_classify_scanned(l: Seq<u8>)
    requires
        one_line(l),
        valid_utf8(l),
    ensures
        classify(l) matches LineView::Item(token) ==> scanned_entry(entry_of(l, token)),
{
    let n = l.len() as int;
    lemma_skip_blank(l, 0);
    lemma_classify_clean(l);
    lemma_classify_within(l);
    let a = skip_blank(l, 0);
    match classify(l) {
        LineView::Item(TokenView::Section { name }) => {
            lemma_clean_is_valid(l, name);
            assert forall|i: int| 0 <= i < name.of(l).len() implies !is_break(
                #[trigger] name.of(l)[i],
            ) by {
                assert(name.of(l)[i] == l[name.start + i]);
            }
        },
        LineView::Item(TokenView::Comment { indicator, value }) => {
            lemma_clean_is_valid(l, value);
            assert forall|i: int| 0 <= i < value.of(l).len() implies !is_break(
                #[trigger] value.of(l)[i],
            ) by {
                assert(value.of(l)[i] == l[value.start + i]);
            }
            assert(l[indicator] == HASH || l[indicator] == SEMICOLON);
            assert(HASH as char == '#');
            assert(SEMICOLON as char == ';');
        },
        LineView::Item(TokenView::Pair { key, value }) => {
            lemma_clean_is_valid(l, key);
            lemma_clean_is_valid(l, value);
            let k = key.of(l);
            let v = value.of(l);
            lemma_find_separator(l, a, a);
            let q = find_separator(l, a, a);
            lemma_trim_end(l, a, q);
            lemma_skip_blank(l, q + 1);
            lemma_trim_end(l, value.start, n);
            assert forall|i: int| 0 <= i < k.len() implies !is_break(#[trigger] k[i]) by {
                assert(k[i] == l[key.start + i]);
            }
            assert forall|i: int| 0 <= i < v.len() implies !is_break(#[trigger] v[i]) by {
                assert(v[i] == l[value.start + i]);
            }
            if k.len() > 0 {
                assert(k[0] == l[a]);
                assert(k.last() == l[key.end - 1]);
            }
            if v.len() > 0 {
                assert(v[0] == l[value.start]);
                assert(v.last() == l[value.end - 1]);
            }
            assert forall|i: int| 0 <= i < k.len() implies !#[trigger] is_separator(k, 0, i) by {
                lemma_backslash_run_part(l, key.start, key.end, i);
                assert(k[i] == l[a + i]);
                assert(!is_separator(l, a, a + i));
            }
        },
        _ => {},
    }
}

/// Every entry that a UTF-8 text says is such as `scanned_entry`
/// describes.
pub proof fn lemma_read_scanned(t: Seq<u8>)
    requires
        valid_utf8(t),
    ensures
        forall|i: int|
            0 <= i < read_lines(t).entries.len() ==> scanned_entry(
                #[trigger] read_lines(t).entries[i],
            ),
    decreases t.len(),
{
    broadcast use vstd::utf8::group_utf8_lib;

    if t.len() > 0 {
        lemma_line_advances(t);
        lemma_first_break(t, 0);
        let e = first_break(t, 0);
        let next = e + break_len(t, e);
        let l = t.subrange(0, e);
        let rest = t.subrange(next, t.len() as int);
        if e < t.len() {
            assert(is_break(t[next - 1]));
            lemma_valid_slice(t, next, t.len() as int);
        } else {
            assert(rest.len() == 0);
        }
        lemma_valid_slice(t, 0, e);
        assert forall|i: int| 0 <= i < l.len() implies !is_break(#[trigger] l[i]) by {
            assert(l[i] == t[i]);
        }
        lemma_classify_scanned(l);
        lemma_read_scanned(rest);
        match classify(l) {
            LineView::Item(token) => {
                let all = read_lines(t).entries;
                assert(all == seq![entry_of(l, token)] + read_lines(rest).entries);
                assert forall|i: int| 0 <= i < all.len() implies scanned_entry(#[trigger] all[i]) by {
                    if i > 0 {
                        assert(all[i] == read_lines(rest).entries[i - 1]);
                    }
                }
            },
            _ => {},
        }
    }
}

/// True when a draft holds only what a document may hold: items such as
/// parsing builds, sections behind the prelude, and an open section only
/// once the prelude is over.
pub open spec fn sound_draft(draft: Draft) -> bool {
    &&& forall|i: int| 0 <= i < draft.done.len() ==> scanned_item(#[trigger] draft.done[i])
    &&& sections_last(draft.done)
    &&& match draft.open {
        None => forall|i: int| 0 <= i < draft.done.len() ==> !(#[trigger] draft.done[i] is Section),
        Some((name, body)) => {
            &&& valid_utf8(name)
            &&& one_line(name)
            &&& forall|i: int| 0 <= i < body.len() ==> scanned_leaf(#[trigger] body[i])
        },
    }
}

/// Closing a sound draft gives a document such as parsing builds.
pub proof fn lemma_close_sound(draft: Draft)
    requires
        sound_draft(draft),
    ensures
        scanned_document(draft.close()),
{
    match draft.open {
        Some((name, body)) => {
            let section = ItemModel::Section { name, body };
            let d = draft.done.push(section);
            assert(scanned_item(section));
            assert forall|i: int| 0 <= i < d.len() implies scanned_item(#[trigger] d[i]) by {
                if i < draft.done.len() {
                    assert(d[i] == draft.done[i]);
                }
            }
            assert forall|i: int, j: int|
                0 <= i < j < d.len() && #[trigger] d[i] is Section implies #[trigger] d[j] is Section by {
                if j < draft.done.len() {
                    assert(d[i] == draft.done[i]);
                    assert(d[j] == draft.done[j]);
                }
            }
        },
        None => {},
    }
}

/// A sound draft stays sound when an entry of a scan is fed to it.
pub proof fn lemma_step_sound(draft: Draft, entry: ItemModel)
    requires
        sound_draft(draft),
        scanned_entry(entry),
    ensures
        sound_draft(draft.step(entry)),
{
    match entry {
        ItemModel::Section { name, body } => {
            lemma_close_sound(draft);
        },
        leaf => {
            match draft.open {
                Some((name, body)) => {
                    let grown = body.push(leaf);
                    assert forall|i: int| 0 <= i < grown.len() implies scanned_leaf(
                        #[trigger] grown[i],
                    ) by {
                        if i < body.len() {
                            assert(grown[i] == body[i]);
                        }
                    }
                },
                None => {
                    let d = draft.done.push(leaf);
                    assert forall|i: int| 0 <= i < d.len() implies scanned_item(#[trigger] d[i])
                        && !(d[i] is Section) by {
                        if i < draft.done.len() {
                            assert(d[i] == draft.done[i]);
                        }
                    }
                },
            }
        },
    }
}

/// The draft of entries of a scan is sound.
pub proof fn lemma_draft_sound(all: Seq<ItemModel>, n: int)
    requires
        0 <= n <= all.len(),
        forall|i: int| 0 <= i < all.len() ==> scanned_entry(#[trigger] all[i]),
    ensures
        sound_draft(draft(all, n)),
    decreases n,
{
    if n > 0 {
        lemma_draft_sound(all, n - 1);
        lemma_step_sound(draft(all, n - 1), all[n - 1]);
    }
}

/// Every document that parsing gives is made of items such as the
/// scanner hands out, with the prelude before the sections and only pairs
/// and comments inside the sections.
pub proof fn lemma_parse_scanned(raw: Seq<u8>)
    ensures
        parse_model(raw) matches Ok(d) ==> scanned_document(d),
{
    if parse_model(raw) is Ok {
        let t = payload(raw);
        lemma_scan_reads(raw, t, bom_len(raw), 1);
        lemma_read_scanned(t);
        let all = read_lines(t).entries;
        lemma_draft_sound(all, all.len() as int);
        lemma_close_sound(draft(all, all.len() as int));
    }
}

} // verus!
