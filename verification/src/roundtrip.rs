//! From a tree to text and back: the text of a canonical document parses
//! into that document.

use vstd::prelude::*;
use vstd::utf8::{decode_utf8, encode_utf8, valid_utf8};
use crate::ast::ItemModel;
use crate::builder::{build, draft, Draft};
use crate::bytes::{has_bom, payload, CLOSE, EQUALS, LF, OPEN, SPACE};
use crate::canonical::{
    lemma_comment_line, lemma_header_line, lemma_pair_line, lemma_read_one_line, scanned_document,
    scanned_item, scanned_leaf, settled_document, settled_item, trimmed,
};
use crate::error::ParseError;
use crate::normalized::lemma_parse_payload;
use crate::parser::{parse_model, text_model};
use crate::reading::{lemma_read_concat, lemma_scan_reads, read_lines, whole_lines, Reading};
use crate::render::{gap_before, render_document, render_item, render_items};
use crate::text::{
    drop_white, lemma_ascii_valid, lemma_valid_append, skip_white, trim_text,
};

verus! {

/// The lines of an item, each as an entry: the item itself for a pair or
/// a comment; for a section its header, then its body.
pub open spec fn flatten(m: ItemModel) -> Seq<ItemModel> {
    match m {
        ItemModel::Section { name, body } => seq![
            ItemModel::Section { name, body: Seq::empty() },
        ] + body,
        leaf => seq![leaf],
    }
}

/// The lines of the first `n` items of a document.
pub open spec fn flat(d: Seq<ItemModel>, n: int) -> Seq<ItemModel>
    decreases n,
{
    if 0 < n <= d.len() {
        flat(d, n - 1) + flatten(d[n - 1])
    } else {
        Seq::empty()
    }
}

/// Text without white space around it loses nothing when trimmed.
pub proof fn lemma_trim_trimmed(s: Seq<u8>)
    requires
        valid_utf8(s),
        trimmed(s),
    ensures
        trim_text(s) == s,
{
    let chars = decode_utf8(s);
    assert(skip_white(chars, 0) == 0);
    assert(drop_white(chars, 0, chars.len() as int) == chars.len());
    assert(chars.subrange(0, chars.len() as int) =~= chars);
    vstd::utf8::decode_utf8_encode_utf8(s);
}

/// The text of a settled pair or of a comment says that item, on one
/// whole line of UTF-8.
pub proof fn lemma_read_leaf(m: ItemModel)
    requires
        scanned_leaf(m),
        settled_item(m),
    ensures
        read_lines(render_item(m)) == (Reading { entries: seq![m], fault: None }),
        render_item(m).len() > 0,
        render_item(m).last() == LF,
        valid_utf8(render_item(m)),
{
    match m {
        ItemModel::Pair { key, value } => {
            lemma_trim_trimmed(key);
            lemma_trim_trimmed(value);
            let l = key + seq![EQUALS] + value;
            lemma_pair_line(key, value);
            lemma_read_one_line(l);
            assert(render_item(m) == l + seq![LF]);
            lemma_ascii_valid(EQUALS);
            lemma_ascii_valid(LF);
            lemma_valid_append(key, seq![EQUALS]);
            lemma_valid_append(key + seq![EQUALS], value);
            lemma_valid_append(l, seq![LF]);
        },
        ItemModel::Comment { indicator, value } => {
            let l = encode_utf8(seq![indicator]) + seq![SPACE] + value;
            lemma_comment_line(indicator, value);
            lemma_read_one_line(l);
            assert(render_item(m) == l + seq![LF]);
            lemma_ascii_valid(SPACE);
            lemma_ascii_valid(LF);
            vstd::utf8::encode_utf8_valid_utf8(seq![indicator]);
            lemma_valid_append(encode_utf8(seq![indicator]), seq![SPACE]);
            lemma_valid_append(encode_utf8(seq![indicator]) + seq![SPACE], value);
            lemma_valid_append(l, seq![LF]);
        },
        ItemModel::Section { .. } => {},
    }
}

/// The text of a body of settled pairs and comments says those items.
pub proof fn lemma_read_body(body: Seq<ItemModel>, n: int)
    requires
        0 <= n <= body.len(),
        forall|i: int| 0 <= i < body.len() ==> scanned_leaf(#[trigger] body[i]),
        forall|i: int| 0 <= i < body.len() ==> settled_item(#[trigger] body[i]),
    ensures
        read_lines(render_items(body, n)) == (Reading { entries: body.take(n), fault: None }),
        whole_lines(render_items(body, n)),
        valid_utf8(render_items(body, n)),
    decreases n,
{
    if n > 0 {
        lemma_read_body(body, n - 1);
        lemma_read_leaf(body[n - 1]);
        let before = render_items(body, n - 1);
        let last = render_item(body[n - 1]);
        lemma_read_concat(before, last);
        lemma_valid_append(before, last);
        assert((before + last).last() == last.last());
        assert(body.take(n - 1) + seq![body[n - 1]] =~= body.take(n));
    } else {
        assert(body.take(0) =~= Seq::<ItemModel>::empty());
    }
}

/// The text of an item of a settled document says the lines of the item.
pub proof fn lemma_read_item(m: ItemModel)
    requires
        scanned_item(m),
        settled_item(m),
    ensures
        read_lines(render_item(m)) == (Reading { entries: flatten(m), fault: None }),
        render_item(m).len() > 0,
        render_item(m).last() == LF,
        valid_utf8(render_item(m)),
{
    match m {
        ItemModel::Section { name, body } => {
            let header = seq![OPEN] + name + seq![CLOSE];
            let first = header + seq![LF];
            let rest = render_items(body, body.len() as int);
            assert(render_item(m) =~= first + rest);
            lemma_header_line(name);
            lemma_read_one_line(header);
            assert forall|i: int| 0 <= i < body.len() implies settled_item(#[trigger] body[i]) by {
                let leaf = body[i];
                assert(scanned_leaf(leaf));
            }
            lemma_read_body(body, body.len() as int);
            assert(first.last() == LF);
            lemma_read_concat(first, rest);
            assert(body.take(body.len() as int) =~= body);
            if rest.len() > 0 {
                assert((first + rest).last() == rest.last());
            } else {
                assert(first + rest =~= first);
            }
            lemma_ascii_valid(OPEN);
            lemma_ascii_valid(CLOSE);
            lemma_ascii_valid(LF);
            lemma_valid_append(seq![OPEN], name);
            lemma_valid_append(seq![OPEN] + name, seq![CLOSE]);
            lemma_valid_append(header, seq![LF]);
            lemma_valid_append(first, rest);
        },
        leaf => {
            lemma_read_leaf(leaf);
        },
    }
}

/// The text of a settled document says the lines of its items; the blank
/// lines before its sections say nothing.
pub proof fn lemma_read_document(d: Seq<ItemModel>, n: int)
    requires
        0 <= n <= d.len(),
        scanned_document(d),
        settled_document(d),
    ensures
        read_lines(render_document(d, n)) == (Reading { entries: flat(d, n), fault: None }),
        whole_lines(render_document(d, n)),
        valid_utf8(render_document(d, n)),
    decreases n,
{
    if n > 0 {
        lemma_read_document(d, n - 1);
        lemma_read_item(d[n - 1]);
        let before = render_document(d, n - 1);
        let gap = gap_before(d, n - 1);
        let last = render_item(d[n - 1]);
        if gap.len() > 0 {
            assert(gap == Seq::<u8>::empty() + seq![LF]);
            assert(crate::canonical::one_line(Seq::<u8>::empty()));
            lemma_read_one_line(Seq::<u8>::empty());
            lemma_ascii_valid(LF);
            assert(gap.last() == LF);
        } else {
            assert(gap == Seq::<u8>::empty());
        }
        assert(read_lines(gap) == (Reading { entries: Seq::empty(), fault: None }));
        lemma_read_concat(before, gap);
        lemma_valid_append(before, gap);
        if gap.len() > 0 {
            assert((before + gap).last() == gap.last());
        } else {
            assert(before + gap =~= before);
        }
        lemma_read_concat(before + gap, last);
        lemma_valid_append(before + gap, last);
        assert((before + gap + last).last() == last.last());
        assert(flat(d, n - 1) + Seq::<ItemModel>::empty() + flatten(d[n - 1]) =~= flat(d, n));
    }
}

/// The draft that `start` becomes after the first `n` of `entries`.
pub open spec fn feed(start: Draft, entries: Seq<ItemModel>, n: int) -> Draft
    decreases n,
{
    if 0 < n <= entries.len() {
        feed(start, entries, n - 1).step(entries[n - 1])
    } else {
        start
    }
}

/// A draft is what the empty draft becomes.
pub proof fn lemma_draft_feeds(entries: Seq<ItemModel>, n: int)
    requires
        0 <= n <= entries.len(),
    ensures
        draft(entries, n) == feed(Draft { done: Seq::empty(), open: None }, entries, n),
    decreases n,
{
    if n > 0 {
        lemma_draft_feeds(entries, n - 1);
    }
}

/// Feeding two runs of entries in a row is feeding the first, then the
/// second.
pub proof fn lemma_feed_concat(start: Draft, x: Seq<ItemModel>, y: Seq<ItemModel>, k: int)
    requires
        0 <= k <= y.len(),
    ensures
        feed(start, x + y, x.len() + k) == feed(feed(start, x, x.len() as int), y, k),
    decreases k,
{
    if k > 0 {
        lemma_feed_concat(start, x, y, k - 1);
        assert((x + y)[x.len() + k - 1] == y[k - 1]);
    } else {
        lemma_feed_prefix(start, x + y, x, x.len() as int);
    }
}

/// What a draft becomes depends on the entries that are fed, no others.
pub proof fn lemma_feed_prefix(start: Draft, a: Seq<ItemModel>, b: Seq<ItemModel>, n: int)
    requires
        0 <= n <= a.len(),
        n <= b.len(),
        forall|i: int| 0 <= i < n ==> a[i] == b[i],
    ensures
        feed(start, a, n) == feed(start, b, n),
    decreases n,
{
    if n > 0 {
        lemma_feed_prefix(start, a, b, n - 1);
    }
}

/// Pairs and comments join the section that is open.
pub proof fn lemma_feed_body(
    done: Seq<ItemModel>,
    name: Seq<u8>,
    body: Seq<ItemModel>,
    leaves: Seq<ItemModel>,
    k: int,
)
    requires
        0 <= k <= leaves.len(),
        forall|i: int| 0 <= i < leaves.len() ==> !(#[trigger] leaves[i] is Section),
    ensures
        feed(Draft { done, open: Some((name, body)) }, leaves, k) == (Draft {
            done,
            open: Some((name, body + leaves.take(k))),
        }),
    decreases k,
{
    if k > 0 {
        lemma_feed_body(done, name, body, leaves, k - 1);
        assert(!(leaves[k - 1] is Section));
        assert((body + leaves.take(k - 1)).push(leaves[k - 1]) =~= body + leaves.take(k));
    } else {
        assert(body + leaves.take(0) =~= body);
    }
}

/// The draft that the lines of the first `n` items of a document make:
/// those items, the last of them still open where it is a section.
pub open spec fn draft_of(d: Seq<ItemModel>, n: int) -> Draft {
    if n > 0 && d[n - 1] is Section {
        Draft {
            done: d.take(n - 1),
            open: Some((d[n - 1]->Section_name, d[n - 1]->Section_body)),
        }
    } else {
        Draft { done: d.take(n), open: None }
    }
}

/// The lines of the items of a document build those items again.
pub proof fn lemma_feed_flat(d: Seq<ItemModel>, n: int)
    requires
        0 <= n <= d.len(),
        scanned_document(d),
    ensures
        feed(Draft { done: Seq::empty(), open: None }, flat(d, n), flat(d, n).len() as int)
            == draft_of(d, n),
    decreases n,
{
    let empty = Draft { done: Seq::empty(), open: None };
    if n > 0 {
        lemma_feed_flat(d, n - 1);
        let m = d[n - 1];
        let before = flat(d, n - 1);
        let lines = flatten(m);
        let reached = draft_of(d, n - 1);
        lemma_feed_concat(empty, before, lines, lines.len() as int);
        assert(scanned_item(m));
        assert(reached.close() =~= d.take(n - 1)) by {
            if n - 1 > 0 && d[n - 2] is Section {
                let last = d[n - 2];
                assert(d.take(n - 2).push(last) =~= d.take(n - 1));
            }
        }
        match m {
            ItemModel::Section { name, body } => {
                let header = ItemModel::Section { name, body: Seq::empty() };
                let opened = Draft { done: d.take(n - 1), open: Some((name, Seq::empty())) };
                assert(lines =~= seq![header] + body);
                lemma_feed_concat(reached, seq![header], body, body.len() as int);
                assert(feed(reached, seq![header], 0) == reached);
                assert(feed(reached, seq![header], 1) == reached.step(header));
                assert(reached.step(header) == opened);
                assert forall|i: int| 0 <= i < body.len() implies !(#[trigger] body[i] is Section) by {
                    assert(scanned_leaf(body[i]));
                }
                lemma_feed_body(d.take(n - 1), name, Seq::empty(), body, body.len() as int);
                assert(Seq::<ItemModel>::empty() + body.take(body.len() as int) =~= body);
            },
            leaf => {
                assert(lines =~= seq![leaf]);
                assert(feed(reached, lines, 0) == reached);
                assert(feed(reached, lines, 1) == reached.step(leaf));
                if n - 1 > 0 && d[n - 2] is Section {
                    assert(d[n - 1] is Section);
                }
                assert(d.take(n - 1).push(leaf) =~= d.take(n));
            },
        }
    } else {
        assert(d.take(0) =~= Seq::<ItemModel>::empty());
    }
}

/// The lines of the items of a document, built into a tree, are that
/// document.
pub proof fn lemma_build_flat(d: Seq<ItemModel>)
    requires
        scanned_document(d),
    ensures
        build(flat(d, d.len() as int)) == d,
{
    let n = d.len() as int;
    let lines = flat(d, n);
    lemma_draft_feeds(lines, lines.len() as int);
    lemma_feed_flat(d, n);
    assert(d.take(n) =~= d);
    if n > 0 && d[n - 1] is Section {
        assert(d.take(n - 1).push(d[n - 1]) =~= d);
    }
}

/// The text of a document with settled pairs, such as parsing builds,
/// reads as that document.
pub proof fn lemma_text_rendered(d: Seq<ItemModel>)
    requires
        scanned_document(d),
        settled_document(d),
    ensures
        text_model(render_document(d, d.len() as int)) == Ok::<Seq<ItemModel>, ParseError>(d),
{
    let text = render_document(d, d.len() as int);
    lemma_read_document(d, d.len() as int);
    lemma_build_flat(d);
    assert(text.subrange(0, 0 + text.len() as int) =~= text);
    lemma_scan_reads(text, text, 0, 1);
}

/// The text of a canonical document parses into that document. A document
/// is canonical when it is such as parsing builds, every pair of it is
/// settled, and its text does not begin with a byte-order mark.
pub proof fn lemma_parse_rendered(d: Seq<ItemModel>)
    requires
        scanned_document(d),
        settled_document(d),
        !has_bom(render_document(d, d.len() as int)),
    ensures
        parse_model(render_document(d, d.len() as int)) == Ok::<Seq<ItemModel>, ParseError>(d),
{
    let text = render_document(d, d.len() as int);
    lemma_text_rendered(d);
    assert(payload(text) =~= text);
    lemma_parse_payload(text);
}

} // verus!
