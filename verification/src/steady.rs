//! Which documents are written as text that is written back unchanged:
//! those whose every line reads as an entry that is written as that line.

use vstd::prelude::*;
use vstd::utf8::valid_utf8;
use crate::ast::ItemModel;
use crate::builder::{build, entry_of};
use crate::bytes::{
    bom_len, has_bom, is_blank, is_break, lemma_skip_blank, payload, skip_blank, EQUALS, LF,
};
use crate::canonical::{
    lemma_indicator_bytes, lemma_read_one_line, scanned_document, scanned_item, scanned_leaf,
};
use crate::error::ParseError;
use crate::lines::{
    blocks, gap, inked, lemma_blocks_same, lemma_blocks_unique, lemma_flat_build, lemma_line_plain,
    lemma_text_blocks, line_of, plain_line,
};
use crate::normalized::{lemma_parse_payload, lemma_read_behind_line_feed};
use crate::parser::parse_model;
use crate::reading::{
    lemma_read_concat, lemma_read_concat_fault, lemma_scan_reads, read_lines, whole_lines,
    Reading,
};
use crate::render::render_document;
use crate::roundtrip::{flat, flatten};
use crate::scanner::classify;
use crate::shape::{lemma_parse_scanned, lemma_read_scanned, scanned_entry};
use crate::text::{lemma_ascii_valid, lemma_valid_append, trim_text};

verus! {

/// The bytes that are read where the line of the entry at `i` stands in
/// the text: the line, without the byte-order mark where the first line
/// begins with one.
pub open spec fn source_line(entries: Seq<ItemModel>, i: int) -> Seq<u8> {
    if i == 0 {
        payload(line_of(entries[0]))
    } else {
        line_of(entries[i])
    }
}

/// True when the line of the entry at `i` reads as a header, a comment or
/// a pair.
pub open spec fn reads_at(entries: Seq<ItemModel>, i: int) -> bool {
    classify(source_line(entries, i)) is Item
}

/// The entry that the line of the entry at `i` reads as.
pub open spec fn read_at(entries: Seq<ItemModel>, i: int) -> ItemModel {
    entry_of(source_line(entries, i), classify(source_line(entries, i))->Item_0)
}

/// True when the line of the entry at `i` reads as an entry that is
/// written as that line again, and that is a header exactly if the entry
/// at `i` is one; the first line may change its kind.
pub open spec fn steady_at(entries: Seq<ItemModel>, i: int) -> bool {
    &&& reads_at(entries, i)
    &&& line_of(read_at(entries, i)) == line_of(entries[i])
    &&& (i > 0 ==> (read_at(entries, i) is Section <==> entries[i] is Section))
}

/// True when every line of the text of the document is steady.
pub open spec fn steady(d: Seq<ItemModel>) -> bool {
    forall|i: int|
        0 <= i < flat(d, d.len() as int).len() ==> steady_at(flat(d, d.len() as int), i)
}

/// The lines of a document such as parsing builds are entries such as a
/// scan hands out.
pub proof fn lemma_flat_scanned(d: Seq<ItemModel>, n: int)
    requires
        0 <= n <= d.len(),
        scanned_document(d),
    ensures
        forall|i: int| 0 <= i < flat(d, n).len() ==> scanned_entry(#[trigger] flat(d, n)[i]),
    decreases n,
{
    if n > 0 {
        lemma_flat_scanned(d, n - 1);
        let before = flat(d, n - 1);
        let m = d[n - 1];
        assert(scanned_item(m));
        let lines = flatten(m);
        assert forall|i: int| 0 <= i < lines.len() implies scanned_entry(#[trigger] lines[i]) by {
            match m {
                ItemModel::Section { name, body } => {
                    if i > 0 {
                        assert(lines[i] == body[i - 1]);
                        assert(scanned_leaf(body[i - 1]));
                    }
                },
                _ => {},
            }
        }
        assert forall|i: int| 0 <= i < flat(d, n).len() implies scanned_entry(
            #[trigger] flat(d, n)[i],
        ) by {
            if i < before.len() {
                assert(flat(d, n)[i] == before[i]);
            } else {
                assert(flat(d, n)[i] == lines[i - before.len()]);
            }
        }
    }
}

/// The text behind a byte-order mark is UTF-8 where the text is.
pub proof fn lemma_payload_valid(t: Seq<u8>)
    requires
        valid_utf8(t),
    ensures
        valid_utf8(payload(t)),
{
    broadcast use vstd::utf8::group_utf8_lib;

    if has_bom(t) {
        assert(vstd::utf8::is_leading_byte_width_3(t[0])) by {
            assert(t[0] == 0xEFu8);
            assert(0xEFu8 & 0xf0 == 0xe0) by (bit_vector);
        }
        assert(!vstd::utf8::is_leading_byte_width_1(t[0])) by {
            assert(0xEFu8 & 0x80 != 0) by (bit_vector);
        }
        assert(!vstd::utf8::is_leading_byte_width_2(t[0])) by {
            assert(0xEFu8 & 0xe0 != 0xc0) by (bit_vector);
        }
        assert(vstd::utf8::length_of_first_scalar(t) == 3);
        assert(vstd::utf8::pop_first_scalar(t) == payload(t));
    } else {
        assert(payload(t) =~= t);
    }
}

/// The text of entries such as a scan hands out is UTF-8.
pub proof fn lemma_blocks_valid(entries: Seq<ItemModel>, k: int)
    requires
        0 <= k <= entries.len(),
        forall|i: int| 0 <= i < entries.len() ==> scanned_entry(#[trigger] entries[i]),
    ensures
        valid_utf8(blocks(entries, k)),
    decreases k,
{
    if k > 0 {
        lemma_blocks_valid(entries, k - 1);
        lemma_line_plain(entries[k - 1]);
        lemma_ascii_valid(LF);
        let before = blocks(entries, k - 1);
        let g = gap(entries, k - 1);
        lemma_valid_append(before, g);
        lemma_valid_append(before + g, line_of(entries[k - 1]));
        lemma_valid_append(before + g + line_of(entries[k - 1]), seq![LF]);
    }
}

/// What is read in place of a line is plain and has ink on it: a
/// byte-order mark takes neither away.
pub proof fn lemma_source_plain(entries: Seq<ItemModel>, i: int)
    requires
        0 <= i < entries.len(),
        scanned_entry(entries[i]),
    ensures
        plain_line(source_line(entries, i)),
        inked(source_line(entries, i)),
        !(classify(source_line(entries, i)) is Blank),
        source_line(entries, i) == line_of(entries[i]).subrange(
            line_of(entries[i]).len() - source_line(entries, i).len(),
            line_of(entries[i]).len() as int,
        ),
        i > 0 ==> source_line(entries, i) == line_of(entries[i]),
{
    let l = line_of(entries[i]);
    let src = source_line(entries, i);
    lemma_line_plain(entries[i]);
    if i == 0 && has_bom(l) {
        match entries[0] {
            ItemModel::Pair { key, value } => {
                let k = trim_text(key);
                assert(l[k.len() as int] == EQUALS);
                if k.len() < 3 {
                    assert(l[k.len() as int] != 0xEFu8);
                    assert(l[k.len() as int] != 0xBBu8);
                    assert(l[k.len() as int] != 0xBFu8);
                }
                assert(src[k.len() - 3] == EQUALS);
                assert(!is_blank(src[k.len() - 3]));
            },
            ItemModel::Comment { indicator, value } => {
                lemma_indicator_bytes(indicator);
                assert(l[0] == indicator as u8);
            },
            ItemModel::Section { name, body } => {
                assert(l[0] == crate::bytes::OPEN);
            },
        }
        assert forall|j: int| 0 <= j < src.len() implies !is_break(#[trigger] src[j]) by {
            assert(src[j] == l[j + 3]);
        }
    } else {
        assert(src =~= l);
    }
    assert(src =~= l.subrange(l.len() - src.len(), l.len() as int));
    let w = choose|j: int| 0 <= j < src.len() && !is_blank(#[trigger] src[j]);
    lemma_skip_blank(src, 0);
    if skip_blank(src, 0) >= src.len() {
        assert(is_blank(src[w]));
    }
}

/// The text of the first `k` entries behind the byte-order mark of the
/// first line.
pub open spec fn behind_mark(entries: Seq<ItemModel>, k: int) -> Seq<u8> {
    blocks(entries, k).subrange(
        bom_len(line_of(entries[0])),
        blocks(entries, k).len() as int,
    )
}

/// The text of one entry or more begins with the first line and its line
/// feed.
pub proof fn lemma_blocks_begin(entries: Seq<ItemModel>, k: int)
    requires
        0 < k <= entries.len(),
    ensures
        blocks(entries, k).len() > line_of(entries[0]).len(),
        forall|i: int|
            0 <= i < line_of(entries[0]).len() ==> #[trigger] blocks(entries, k)[i] == line_of(
                entries[0],
            )[i],
        blocks(entries, k)[line_of(entries[0]).len() as int] == LF,
    decreases k,
{
    let first = line_of(entries[0]);
    if k == 1 {
        assert(blocks(entries, 0) == Seq::<u8>::empty());
        assert(gap(entries, 0) == Seq::<u8>::empty());
        assert(blocks(entries, 1) =~= first + seq![LF]);
    } else {
        lemma_blocks_begin(entries, k - 1);
        let before = blocks(entries, k - 1);
        assert forall|i: int| 0 <= i <= first.len() implies #[trigger] blocks(entries, k)[i]
            == before[i] by {}
    }
}

/// The text behind its byte-order mark is the text behind the mark of its
/// first line.
pub proof fn lemma_payload_blocks(entries: Seq<ItemModel>, k: int)
    requires
        0 < k <= entries.len(),
        plain_line(line_of(entries[0])),
    ensures
        payload(blocks(entries, k)) == behind_mark(entries, k),
        has_bom(blocks(entries, k)) == has_bom(line_of(entries[0])),
{
    let first = line_of(entries[0]);
    let t = blocks(entries, k);
    lemma_blocks_begin(entries, k);
    if first.len() >= 3 {
        assert(t[0] == first[0]);
        assert(t[1] == first[1]);
        assert(t[2] == first[2]);
    } else {
        assert(t[first.len() as int] == LF);
    }
    assert(has_bom(t) == has_bom(first));
}

/// The entries that the first `k` lines read as.
pub open spec fn read_back(entries: Seq<ItemModel>, k: int) -> Seq<ItemModel> {
    Seq::new(k as nat, |i: int| read_at(entries, i))
}

/// True when each of the first `k` lines reads as an entry.
pub open spec fn all_read(entries: Seq<ItemModel>, k: int) -> bool {
    forall|i: int| 0 <= i < k ==> reads_at(entries, i)
}

/// What one line with its line feed says, behind a blank line or not.
pub proof fn lemma_read_block(entries: Seq<ItemModel>, i: int)
    requires
        0 < i < entries.len(),
        scanned_entry(entries[i]),
    ensures
        reads_at(entries, i) ==> read_lines(gap(entries, i) + line_of(entries[i]) + seq![LF]) == (
        Reading { entries: seq![read_at(entries, i)], fault: None }),
        !reads_at(entries, i) ==> read_lines(
            gap(entries, i) + line_of(entries[i]) + seq![LF],
        ).fault is Some,
{
    let l = line_of(entries[i]);
    let g = gap(entries, i);
    lemma_source_plain(entries, i);
    lemma_read_one_line(l);
    if g.len() > 0 {
        let x = g + l + seq![LF];
        assert(x[0] == LF);
        lemma_read_behind_line_feed(x);
        assert(x.subrange(1, x.len() as int) =~= l + seq![LF]);
    } else {
        assert(g + l + seq![LF] =~= l + seq![LF]);
    }
}

/// Behind the mark, the text of the first entry is what is read in place
/// of its line, and a line feed.
pub proof fn lemma_behind_mark_first(entries: Seq<ItemModel>)
    requires
        0 < entries.len(),
        plain_line(line_of(entries[0])),
    ensures
        behind_mark(entries, 1) == source_line(entries, 0) + seq![LF],
{
    let first = line_of(entries[0]);
    assert(blocks(entries, 0) == Seq::<u8>::empty());
    assert(gap(entries, 0) == Seq::<u8>::empty());
    assert(blocks(entries, 1) =~= first + seq![LF]);
    assert(behind_mark(entries, 1) =~= source_line(entries, 0) + seq![LF]);
}

/// Behind the mark, the text of one more entry is the text of the others,
/// then the gap, the line and the line feed of that entry.
pub proof fn lemma_behind_mark_step(entries: Seq<ItemModel>, k: int)
    requires
        1 < k <= entries.len(),
        plain_line(line_of(entries[0])),
    ensures
        behind_mark(entries, k) == behind_mark(entries, k - 1) + (gap(entries, k - 1) + line_of(
            entries[k - 1],
        ) + seq![LF]),
{
    let b0 = bom_len(line_of(entries[0]));
    let before = blocks(entries, k - 1);
    let block = gap(entries, k - 1) + line_of(entries[k - 1]) + seq![LF];
    lemma_blocks_begin(entries, k - 1);
    assert(b0 <= before.len());
    assert(blocks(entries, k) =~= before + block);
    assert((before + block).subrange(b0, (before + block).len() as int) =~= before.subrange(
        b0,
        before.len() as int,
    ) + block);
}

/// What the first line says behind the byte-order mark.
pub proof fn lemma_read_first(entries: Seq<ItemModel>)
    requires
        0 < entries.len(),
        scanned_entry(entries[0]),
    ensures
        whole_lines(behind_mark(entries, 1)),
        reads_at(entries, 0) ==> read_lines(behind_mark(entries, 1)) == (Reading {
            entries: seq![read_at(entries, 0)],
            fault: None,
        }),
        !reads_at(entries, 0) ==> read_lines(behind_mark(entries, 1)).fault is Some,
{
    let src = source_line(entries, 0);
    lemma_source_plain(entries, 0);
    lemma_line_plain(entries[0]);
    lemma_behind_mark_first(entries);
    lemma_read_one_line(src);
    assert((src + seq![LF]).last() == LF);
}

/// What the text of the first `k` entries says behind the byte-order
/// mark: the entries that the lines read as where every line reads as
/// one, and a fault where one does not.
pub proof fn lemma_read_blocks(entries: Seq<ItemModel>, k: int)
    requires
        0 < k <= entries.len(),
        forall|i: int| 0 <= i < entries.len() ==> scanned_entry(#[trigger] entries[i]),
    ensures
        whole_lines(behind_mark(entries, k)),
        all_read(entries, k) ==> read_lines(behind_mark(entries, k)) == (Reading {
            entries: read_back(entries, k),
            fault: None,
        }),
        !all_read(entries, k) ==> read_lines(behind_mark(entries, k)).fault is Some,
    decreases k,
{
    if k == 1 {
        lemma_read_first(entries);
        if reads_at(entries, 0) {
            assert(read_back(entries, 1) =~= seq![read_at(entries, 0)]);
        }
    } else {
        lemma_read_blocks(entries, k - 1);
        lemma_read_more(entries, k);
    }
}

/// One step of `lemma_read_blocks`: what one more line adds to what the
/// lines before it say.
pub proof fn lemma_read_more(entries: Seq<ItemModel>, k: int)
    requires
        1 < k <= entries.len(),
        scanned_entry(entries[0]),
        scanned_entry(entries[k - 1]),
        whole_lines(behind_mark(entries, k - 1)),
        all_read(entries, k - 1) ==> read_lines(behind_mark(entries, k - 1)) == (Reading {
            entries: read_back(entries, k - 1),
            fault: None,
        }),
        !all_read(entries, k - 1) ==> read_lines(behind_mark(entries, k - 1)).fault is Some,
    ensures
        whole_lines(behind_mark(entries, k)),
        all_read(entries, k) ==> read_lines(behind_mark(entries, k)) == (Reading {
            entries: read_back(entries, k),
            fault: None,
        }),
        !all_read(entries, k) ==> read_lines(behind_mark(entries, k)).fault is Some,
{
    lemma_line_plain(entries[0]);
    lemma_read_block(entries, k - 1);
    lemma_behind_mark_step(entries, k);
    let before = behind_mark(entries, k - 1);
    let block = gap(entries, k - 1) + line_of(entries[k - 1]) + seq![LF];
    assert((before + block).last() == LF);
    if all_read(entries, k - 1) {
        lemma_read_concat(before, block);
        if reads_at(entries, k - 1) {
            assert(all_read(entries, k));
            assert(read_back(entries, k) =~= read_back(entries, k - 1) + seq![
                read_at(entries, k - 1),
            ]);
        } else {
            assert(!all_read(entries, k));
        }
    } else {
        assert(!all_read(entries, k));
        lemma_read_concat_fault(before, block);
    }
}

/// A document such as parsing builds is written as text that comes back
/// unchanged exactly if it is steady.
#[verifier::rlimit(50)]
pub proof fn lemma_steady_exact(d: Seq<ItemModel>)
    requires
        scanned_document(d),
    ensures
        (parse_model(render_document(d, d.len() as int)) matches Ok(again) && render_document(
            again,
            again.len() as int,
        ) == render_document(d, d.len() as int)) <==> steady(d),
{
    let n = d.len() as int;
    let text = render_document(d, n);
    let lines = flat(d, n);
    let k = lines.len() as int;
    lemma_text_blocks(d, n);
    lemma_flat_scanned(d, n);
    lemma_blocks_valid(lines, k);
    lemma_payload_valid(text);
    lemma_parse_payload(text);
    let p = payload(text);
    assert(p.subrange(0, 0 + p.len() as int) =~= p);
    lemma_scan_reads(p, p, 0, 1);
    lemma_read_scanned(p);
    lemma_parse_scanned(text);
    if k == 0 {
        assert(text == Seq::<u8>::empty());
        assert(p =~= Seq::<u8>::empty());
        assert(read_lines(p).entries == Seq::<ItemModel>::empty());
        let again = build(read_lines(p).entries);
        assert(again =~= Seq::<ItemModel>::empty());
        assert(render_document(again, 0) == Seq::<u8>::empty());
    } else {
        lemma_line_plain(lines[0]);
        lemma_payload_blocks(lines, k);
        lemma_read_blocks(lines, k);
        let back = read_back(lines, k);
        if all_read(lines, k) {
            let again = build(back);
            assert(parse_model(text) == Ok::<Seq<ItemModel>, ParseError>(again));
            assert forall|i: int| 0 <= i < back.len() implies (#[trigger] back[i]
            matches ItemModel::Section {
                name,
                body,
            } ==> body.len() == 0) by {
                assert(scanned_entry(back[i]));
            }
            lemma_flat_build(back);
            lemma_text_blocks(again, again.len() as int);
            assert(render_document(again, again.len() as int) == blocks(back, k));
            assert forall|i: int| 0 <= i < k implies plain_line(line_of(#[trigger] lines[i])) by {
                lemma_line_plain(lines[i]);
            }
            assert forall|i: int| 0 <= i < k implies plain_line(line_of(#[trigger] back[i])) by {
                assert(scanned_entry(back[i]));
                lemma_line_plain(back[i]);
            }
            if steady(d) {
                assert forall|i: int| 0 <= i < k implies line_of(#[trigger] back[i]) == line_of(
                    lines[i],
                ) by {
                    assert(steady_at(lines, i));
                }
                assert forall|i: int| 0 < i < k implies (#[trigger] back[i] is Section
                    <==> lines[i] is Section) by {
                    assert(steady_at(lines, i));
                }
                lemma_blocks_same(back, lines, k);
            }
            if blocks(back, k) == blocks(lines, k) {
                lemma_blocks_unique(back, lines, k, k);
                assert forall|i: int| 0 <= i < k implies steady_at(lines, i) by {
                    assert(back[i] == read_at(lines, i));
                    assert(reads_at(lines, i));
                }
            }
        } else {
            let i = choose|i: int| 0 <= i < k && !reads_at(lines, i);
            assert(!steady_at(lines, i));
        }
    }
}

} // verus!
