//! The documents that come back as themselves: a document is what its own
//! text parses into exactly if it is canonical.

use vstd::prelude::*;
use vstd::utf8::{decode_utf8, valid_utf8};
use crate::ast::ItemModel;
use crate::builder::{build, entry_of};
use crate::bytes::{
    find_separator, has_bom, is_separator, lemma_find_separator, lemma_skip_blank,
    lemma_trim_end, payload, skip_blank, trim_end, OPEN,
};
use crate::canonical::{
    lemma_backslash_run_prefix, lemma_indicator_bytes, scanned_document, scanned_item,
    settled, settled_document, settled_item, settled_pair, trimmed,
};
use crate::error::ParseError;
use crate::lines::{lemma_flat_build, lemma_line_plain, lemma_text_blocks, line_of};
use crate::normalized::lemma_parse_payload;
use crate::parser::parse_model;
use crate::reading::{lemma_scan_reads, read_lines};
use crate::render::render_document;
use crate::roundtrip::{flat, flatten};
use crate::scanner::classify;
use crate::shape::{lemma_parse_scanned, lemma_read_scanned, scanned_entry};
use crate::steady::{
    all_read, lemma_blocks_valid, lemma_flat_scanned, lemma_payload_blocks,
    lemma_payload_valid, lemma_read_blocks, lemma_source_plain, read_at, read_back, reads_at,
    source_line,
};
use crate::text::{
    drop_white, is_white, lemma_skip_white_bounds, lemma_trim_text_part,
    lemma_trim_white_bounds, skip_white, trim_text, trim_white,
};
use crate::token::{LineView, TokenView};

verus! {

/// A text that trimming leaves as it is has no white space at its ends.
pub proof fn lemma_kept_is_trimmed(b: Seq<u8>)
    requires
        valid_utf8(b),
        trim_text(b) == b,
    ensures
        trimmed(b),
{
    let s = decode_utf8(b);
    let m = trim_white(s);
    vstd::utf8::decode_utf8_encode_utf8(b);
    vstd::utf8::encode_utf8_decode_utf8(m);
    assert(m == s);
    lemma_skip_white_bounds(s, 0);
    let a = skip_white(s, 0);
    lemma_trim_white_bounds(s, a, s.len() as int);
    let z = drop_white(s, a, s.len() as int);
    assert(m.len() == z - a);
    if s.len() > 0 {
        assert(a == 0 && z == s.len());
        if is_white(s[0]) {
            lemma_skip_white_bounds(s, 1);
        }
        if is_white(s.last()) {
            lemma_trim_white_bounds(s, 0, s.len() - 1);
        }
    }
}

/// How the token of a pair line lies in the line: the key before the
/// separator, the value behind it. Gives the offset of the separator.
pub proof fn lemma_pair_geometry(src: Seq<u8>) -> (q: int)
    requires
        classify(src) matches LineView::Item(TokenView::Pair { .. }),
    ensures
        classify(src) matches LineView::Item(TokenView::Pair { key, value }) && {
            &&& 0 <= key.start <= key.end <= q < src.len()
            &&& q + 1 <= value.start <= value.end <= src.len()
            &&& is_separator(src, key.start, q)
        },
{
    let n = src.len() as int;
    let a = skip_blank(src, 0);
    lemma_skip_blank(src, 0);
    lemma_find_separator(src, a, a);
    let q = find_separator(src, a, a);
    lemma_trim_end(src, a, q);
    lemma_skip_blank(src, q + 1);
    lemma_trim_end(src, skip_blank(src, q + 1), n);
    q
}

/// A line made of a key, `=` and a value that holds a key and a value of
/// no less than their lengths holds nothing else.
pub proof fn lemma_pair_fills_line(
    src: Seq<u8>,
    key: Seq<u8>,
    value: Seq<u8>,
    start: int,
    q: int,
    from: int,
)
    requires
        0 <= start,
        start + key.len() <= q < src.len(),
        q + 1 <= from,
        from + value.len() <= src.len(),
        src.len() <= key.len() + 1 + value.len(),
        src.subrange(start, start + key.len()) == key,
        is_separator(src, start, q),
    ensures
        start == 0,
        q == key.len(),
        src.len() == key.len() + 1 + value.len(),
        settled(key),
{
    assert forall|j: int| 0 <= j < key.len() implies key[j] == src[j] by {
        assert(src.subrange(start, start + key.len())[j] == src[start + j]);
    }
    lemma_backslash_run_prefix(key, src, q);
}

/// A line that reads as a pair, and is no longer than the key, `=` and
/// the value of that pair, is just that long, and the key is settled.
pub proof fn lemma_pair_line_exact(src: Seq<u8>, key: Seq<u8>, value: Seq<u8>)
    requires
        classify(src) matches LineView::Item(token) && entry_of(src, token) == (ItemModel::Pair {
            key,
            value,
        }),
        src.len() <= key.len() + 1 + value.len(),
    ensures
        src.len() == key.len() + 1 + value.len(),
        settled(key),
{
    let token = classify(src)->Item_0;
    assert(token is Pair);
    let q = lemma_pair_geometry(src);
    let kr = token->Pair_key;
    let vr = token->Pair_value;
    assert(kr.of(src) == key);
    assert(vr.of(src) == value);
    assert(key.len() == kr.end - kr.start);
    assert(value.len() == vr.end - vr.start);
    lemma_pair_fills_line(src, key, value, kr.start, q, vr.start);
}

/// A part of a text that is as long as the text is the text.
pub proof fn lemma_whole_part(b: Seq<u8>, x: int, y: int)
    requires
        0 <= x <= y <= b.len(),
        y - x == b.len(),
    ensures
        b.subrange(x, y) == b,
{
    assert(b.subrange(x, y) =~= b);
}

/// A pair whose line reads as the pair itself is settled, and its line
/// begins with no byte-order mark.
#[verifier::rlimit(50)]
pub proof fn lemma_pair_reads_itself(entries: Seq<ItemModel>, i: int)
    requires
        0 <= i < entries.len(),
        scanned_entry(entries[i]),
        entries[i] is Pair,
        reads_at(entries, i),
        read_at(entries, i) == entries[i],
    ensures
        settled_pair(entries[i]->Pair_key, entries[i]->Pair_value),
        source_line(entries, i) == line_of(entries[i]),
{
    let key = entries[i]->Pair_key;
    let value = entries[i]->Pair_value;
    let l = line_of(entries[i]);
    let src = source_line(entries, i);
    let tk = trim_text(key);
    let tv = trim_text(value);
    assert(src.len() <= l.len() && (src.len() == l.len() ==> src == l)) by {
        lemma_source_plain(entries, i);
        if src.len() == l.len() {
            lemma_whole_part(l, 0, l.len() as int);
        }
    }
    let key_part = lemma_trim_text_part(key);
    let value_part = lemma_trim_text_part(value);
    assert(l.len() == tk.len() + 1 + tv.len());
    assert(entries[i] == (ItemModel::Pair { key, value }));
    lemma_pair_line_exact(src, key, value);
    assert(tk.len() == key.len());
    assert(tv.len() == value.len());
    lemma_whole_part(key, key_part.0, key_part.1);
    lemma_whole_part(value, value_part.0, value_part.1);
    lemma_kept_is_trimmed(key);
    lemma_kept_is_trimmed(value);
}

/// Where the place of each item's lines is among the lines of a document:
/// the lines of the item at `j` stand behind those of the items before it.
pub proof fn lemma_flat_holds(d: Seq<ItemModel>, n: int, j: int, t: int)
    requires
        0 <= j < n <= d.len(),
        0 <= t < flatten(d[j]).len(),
    ensures
        flat(d, j).len() + t < flat(d, n).len(),
        flat(d, n)[flat(d, j).len() + t] == flatten(d[j])[t],
    decreases n,
{
    if j < n - 1 {
        lemma_flat_holds(d, n - 1, j, t);
    }
}

/// A document that is what its own text parses into is canonical.
#[verifier::rlimit(50)]
pub proof fn lemma_returning_is_canonical(d: Seq<ItemModel>)
    requires
        parse_model(render_document(d, d.len() as int)) == Ok::<Seq<ItemModel>, ParseError>(d),
    ensures
        scanned_document(d),
        settled_document(d),
        !has_bom(render_document(d, d.len() as int)),
{
    let n = d.len() as int;
    let text = render_document(d, n);
    lemma_parse_scanned(text);
    let lines = flat(d, n);
    let k = lines.len() as int;
    lemma_text_blocks(d, n);
    lemma_flat_scanned(d, n);
    lemma_blocks_valid(lines, k);
    lemma_payload_valid(text);
    lemma_parse_payload(text);
    let p = payload(text);
    assert(p.subrange(0, 0 + p.len() as int) =~= p);
    lemma_scan_reads(p, p, 0, 1);
    lemma_read_scanned(p);
    if k == 0 {
        if n > 0 {
            lemma_flat_holds(d, n, 0, 0);
        }
        assert(text == Seq::<u8>::empty());
    } else {
        lemma_line_plain(lines[0]);
        lemma_payload_blocks(lines, k);
        lemma_read_blocks(lines, k);
        assert(all_read(lines, k));
        let back = read_back(lines, k);
        assert(build(back) == d);
        assert forall|i: int| 0 <= i < back.len() implies (#[trigger] back[i]
            matches ItemModel::Section {
            name,
            body,
        } ==> body.len() == 0) by {
            assert(scanned_entry(back[i]));
        }
        lemma_flat_build(back);
        assert(back == lines);
        assert forall|i: int| 0 <= i < k implies read_at(lines, i) == #[trigger] lines[i] by {
            assert(back[i] == read_at(lines, i));
        }
        // The first line begins with no byte-order mark.
        match lines[0] {
            ItemModel::Pair { .. } => {
                lemma_pair_reads_itself(lines, 0);
                lemma_source_plain(lines, 0);
                if has_bom(line_of(lines[0])) {
                    assert(source_line(lines, 0).len() < line_of(lines[0]).len());
                }
            },
            ItemModel::Comment { indicator, value } => {
                lemma_indicator_bytes(indicator);
                assert(line_of(lines[0])[0] == indicator as u8);
            },
            ItemModel::Section { name, body } => {
                assert(line_of(lines[0])[0] == OPEN);
            },
        }
        // Every pair is settled.
        assert forall|j: int| 0 <= j < n implies settled_item(#[trigger] d[j]) by {
            assert(scanned_item(d[j]));
            match d[j] {
                ItemModel::Pair { key, value } => {
                    lemma_flat_holds(d, n, j, 0);
                    let i = flat(d, j).len() as int;
                    assert(lines[i] == d[j]);
                    assert(reads_at(lines, i));
                    lemma_pair_reads_itself(lines, i);
                },
                ItemModel::Comment { .. } => {},
                ItemModel::Section { name, body } => {
                    assert forall|t: int| 0 <= t < body.len() implies (#[trigger] body[t]
                        matches ItemModel::Pair {
                        key,
                        value,
                    } ==> settled_pair(key, value)) by {
                        if body[t] is Pair {
                            lemma_flat_holds(d, n, j, t + 1);
                            let i = flat(d, j).len() + t + 1;
                            assert(flatten(d[j])[t + 1] == body[t]);
                            assert(lines[i] == body[t]);
                            assert(reads_at(lines, i));
                            lemma_pair_reads_itself(lines, i);
                        }
                    }
                },
            }
        }
    }
}

} // verus!
