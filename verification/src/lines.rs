//! The text of a document as a run of lines: one line for each entry of
//! the document, and a blank line before each header but the first entry.

use vstd::prelude::*;
use vstd::utf8::encode_utf8;
use crate::ast::ItemModel;
use crate::builder::{build, draft, Draft};
use vstd::utf8::valid_utf8;
use crate::bytes::{is_blank, is_break, CLOSE, EQUALS, LF, OPEN, SPACE};
use crate::canonical::{
    lemma_indicator_bytes, one_line, scanned_document, scanned_item, scanned_leaf,
};
use crate::shape::scanned_entry;
use crate::render::{gap_before, render_document, render_item, render_items};
use crate::roundtrip::{flat, flatten};
use crate::text::{lemma_ascii_valid, lemma_trim_text_part, lemma_valid_append, trim_text};

verus! {

/// The line that an entry is written as, without its line feed.
pub open spec fn line_of(entry: ItemModel) -> Seq<u8> {
    match entry {
        ItemModel::Pair { key, value } => trim_text(key) + seq![EQUALS] + trim_text(value),
        ItemModel::Comment { indicator, value } => encode_utf8(seq![indicator]) + seq![SPACE]
            + value,
        ItemModel::Section { name, body } => seq![OPEN] + name + seq![CLOSE],
    }
}

/// What stands before the line of the entry at `i`: a line feed, making a
/// blank line, before a header that is not the first entry.
pub open spec fn gap(entries: Seq<ItemModel>, i: int) -> Seq<u8> {
    if i > 0 && entries[i] is Section {
        seq![LF]
    } else {
        Seq::empty()
    }
}

/// The text of the first `k` entries: for each its gap, its line and a
/// line feed.
pub open spec fn blocks(entries: Seq<ItemModel>, k: int) -> Seq<u8>
    decreases k,
{
    if 0 < k <= entries.len() {
        blocks(entries, k - 1) + gap(entries, k - 1) + line_of(entries[k - 1]) + seq![LF]
    } else {
        Seq::empty()
    }
}

/// The text of entries depends on the entries that are written, no
/// others.
pub proof fn lemma_blocks_prefix(a: Seq<ItemModel>, b: Seq<ItemModel>, k: int)
    requires
        0 <= k <= a.len(),
        k <= b.len(),
        forall|i: int| 0 <= i < k ==> a[i] == b[i],
    ensures
        blocks(a, k) == blocks(b, k),
    decreases k,
{
    if k > 0 {
        lemma_blocks_prefix(a, b, k - 1);
    }
}

/// Entries that are written as the same lines, and are headers at the
/// same places behind the first, make the same text.
pub proof fn lemma_blocks_same(a: Seq<ItemModel>, b: Seq<ItemModel>, k: int)
    requires
        0 <= k <= a.len(),
        k <= b.len(),
        forall|i: int| 0 <= i < k ==> line_of(#[trigger] a[i]) == line_of(b[i]),
        forall|i: int| 0 < i < k ==> (#[trigger] a[i] is Section <==> b[i] is Section),
    ensures
        blocks(a, k) == blocks(b, k),
    decreases k,
{
    if k > 0 {
        lemma_blocks_same(a, b, k - 1);
        assert(line_of(a[k - 1]) == line_of(b[k - 1]));
        if k - 1 > 0 {
            assert(a[k - 1] is Section <==> b[k - 1] is Section);
        }
    }
}

/// The lines of a document depend on the items that are flattened, no
/// others.
pub proof fn lemma_flat_prefix(a: Seq<ItemModel>, b: Seq<ItemModel>, n: int)
    requires
        0 <= n <= a.len(),
        n <= b.len(),
        forall|i: int| 0 <= i < n ==> a[i] == b[i],
    ensures
        flat(a, n) == flat(b, n),
    decreases n,
{
    if n > 0 {
        lemma_flat_prefix(a, b, n - 1);
    }
}

/// One more item has its lines behind those of the others.
pub proof fn lemma_flat_push(d: Seq<ItemModel>, m: ItemModel)
    ensures
        flat(d.push(m), d.len() as int + 1) == flat(d, d.len() as int) + flatten(m),
{
    lemma_flat_prefix(d, d.push(m), d.len() as int);
}

/// There is at least one line for each item.
pub proof fn lemma_flat_len(d: Seq<ItemModel>, n: int)
    requires
        0 <= n <= d.len(),
    ensures
        flat(d, n).len() >= n,
    decreases n,
{
    if n > 0 {
        lemma_flat_len(d, n - 1);
    }
}

/// The text of pairs and comments behind other entries is the text of
/// those entries, then the text of each pair and comment.
pub proof fn lemma_blocks_leaves(before: Seq<ItemModel>, leaves: Seq<ItemModel>, j: int)
    requires
        0 <= j <= leaves.len(),
        forall|i: int| 0 <= i < leaves.len() ==> !(#[trigger] leaves[i] is Section),
    ensures
        blocks(before + leaves, before.len() + j) == blocks(before, before.len() as int)
            + render_items(leaves, j),
    decreases j,
{
    let all = before + leaves;
    if j > 0 {
        lemma_blocks_leaves(before, leaves, j - 1);
        let leaf = leaves[j - 1];
        assert(all[before.len() + j - 1] == leaf);
        assert(!(leaf is Section));
        assert(render_item(leaf) == line_of(leaf) + seq![LF]);
        assert(gap(all, before.len() + j - 1) == Seq::<u8>::empty());
        assert(blocks(all, before.len() + j) =~= blocks(before, before.len() as int) + (
        render_items(leaves, j - 1) + render_item(leaf)));
    } else {
        lemma_blocks_prefix(all, before, before.len() as int);
        assert(blocks(before, before.len() as int) + render_items(leaves, 0) =~= blocks(
            before,
            before.len() as int,
        ));
    }
}

/// The text of a document is the text of its lines.
pub proof fn lemma_text_blocks(d: Seq<ItemModel>, n: int)
    requires
        0 <= n <= d.len(),
        scanned_document(d),
    ensures
        render_document(d, n) == blocks(flat(d, n), flat(d, n).len() as int),
    decreases n,
{
    if n > 0 {
        lemma_text_blocks(d, n - 1);
        lemma_flat_len(d, n - 1);
        let before = flat(d, n - 1);
        let m = d[n - 1];
        assert(scanned_item(m));
        match m {
            ItemModel::Section { name, body } => {
                let header = ItemModel::Section { name, body: Seq::empty() };
                let first = before.push(header);
                assert(flat(d, n) =~= first + body);
                assert forall|i: int| 0 <= i < body.len() implies !(#[trigger] body[i] is Section) by {
                    assert(scanned_leaf(body[i]));
                }
                lemma_blocks_leaves(first, body, body.len() as int);
                lemma_blocks_prefix(first, before, before.len() as int);
                assert(first[before.len() as int] == header);
                assert(gap(first, before.len() as int) == gap_before(d, n - 1));
                assert(render_item(m) =~= line_of(header) + seq![LF] + render_items(
                    body,
                    body.len() as int,
                ));
                assert(blocks(first, first.len() as int) == blocks(before, before.len() as int)
                    + gap_before(d, n - 1) + line_of(header) + seq![LF]);
                assert(render_document(d, n) =~= blocks(first, first.len() as int) + render_items(
                    body,
                    body.len() as int,
                ));
            },
            leaf => {
                assert(flat(d, n) =~= before.push(leaf));
                let all = before.push(leaf);
                lemma_blocks_prefix(all, before, before.len() as int);
                assert(all[before.len() as int] == leaf);
                assert(render_item(leaf) == line_of(leaf) + seq![LF]);
                assert(gap(all, before.len() as int) == Seq::<u8>::empty());
                assert(gap_before(d, n - 1) == Seq::<u8>::empty());
                assert(render_document(d, n) =~= blocks(all, all.len() as int));
            },
        }
    }
}

/// The lines of the section that is open in a draft: its header, then its
/// body so far.
pub open spec fn open_lines(open: Option<(Seq<u8>, Seq<ItemModel>)>) -> Seq<ItemModel> {
    match open {
        Some((name, body)) => seq![ItemModel::Section { name, body: Seq::empty() }] + body,
        None => Seq::empty(),
    }
}

/// The lines of a closed draft are the lines of what was done, then those
/// of the section that was open.
pub proof fn lemma_flat_close(draft: Draft)
    ensures
        flat(draft.close(), draft.close().len() as int) == flat(
            draft.done,
            draft.done.len() as int,
        ) + open_lines(draft.open),
{
    match draft.open {
        Some((name, body)) => {
            lemma_flat_push(draft.done, ItemModel::Section { name, body });
        },
        None => {
            assert(flat(draft.done, draft.done.len() as int) + open_lines(draft.open) =~= flat(
                draft.done,
                draft.done.len() as int,
            ));
        },
    }
}

/// The lines of a draft are the entries it was made of.
pub proof fn lemma_flat_draft(all: Seq<ItemModel>, k: int)
    requires
        0 <= k <= all.len(),
        forall|i: int|
            0 <= i < all.len() ==> (#[trigger] all[i] matches ItemModel::Section { name, body }
                ==> body.len() == 0),
    ensures
        flat(draft(all, k).done, draft(all, k).done.len() as int) + open_lines(draft(all, k).open)
            == all.take(k),
    decreases k,
{
    if k > 0 {
        lemma_flat_draft(all, k - 1);
        let before = draft(all, k - 1);
        let entry = all[k - 1];
        let after = before.step(entry);
        let lines = flat(before.done, before.done.len() as int) + open_lines(before.open);
        assert(all.take(k - 1).push(entry) =~= all.take(k));
        match entry {
            ItemModel::Section { name, body } => {
                lemma_flat_close(before);
                assert(body =~= Seq::<ItemModel>::empty());
                assert(open_lines(after.open) =~= seq![entry]);
                assert(flat(after.done, after.done.len() as int) + open_lines(after.open) =~= lines.push(
                    entry,
                ));
            },
            leaf => {
                match before.open {
                    Some((name, body)) => {
                        assert(open_lines(after.open) =~= open_lines(before.open).push(leaf));
                        assert(flat(after.done, after.done.len() as int) + open_lines(after.open)
                            =~= lines.push(leaf));
                    },
                    None => {
                        lemma_flat_push(before.done, leaf);
                        assert(flatten(leaf) =~= seq![leaf]);
                        assert(flat(after.done, after.done.len() as int) + open_lines(after.open)
                            =~= lines.push(leaf));
                    },
                }
            },
        }
    } else {
        assert(all.take(0) =~= Seq::<ItemModel>::empty());
        assert(flat(draft(all, 0).done, 0) + open_lines(draft(all, 0).open) =~= Seq::<
            ItemModel,
        >::empty());
    }
}

/// The lines of the document that entries build are those entries.
pub proof fn lemma_flat_build(all: Seq<ItemModel>)
    requires
        forall|i: int|
            0 <= i < all.len() ==> (#[trigger] all[i] matches ItemModel::Section { name, body }
                ==> body.len() == 0),
    ensures
        flat(build(all), build(all).len() as int) == all,
{
    lemma_flat_draft(all, all.len() as int);
    lemma_flat_close(draft(all, all.len() as int));
    assert(all.take(all.len() as int) =~= all);
}

/// True for a line that is not empty and holds no line break.
pub open spec fn plain_line(l: Seq<u8>) -> bool {
    l.len() > 0 && one_line(l)
}

/// True when the line holds a byte that is no padding.
pub open spec fn inked(l: Seq<u8>) -> bool {
    exists|i: int| 0 <= i < l.len() && !is_blank(#[trigger] l[i])
}

/// Trimming a text on one line leaves a text on one line.
pub proof fn lemma_trim_one_line(b: Seq<u8>)
    requires
        valid_utf8(b),
        one_line(b),
    ensures
        one_line(trim_text(b)),
        valid_utf8(trim_text(b)),
{
    let part = lemma_trim_text_part(b);
    assert forall|i: int| 0 <= i < trim_text(b).len() implies !is_break(
        #[trigger] trim_text(b)[i],
    ) by {
        assert(trim_text(b)[i] == b[part.0 + i]);
    }
}

/// The line of an entry of a scan is plain UTF-8 with ink on it.
pub proof fn lemma_line_plain(entry: ItemModel)
    requires
        scanned_entry(entry),
    ensures
        plain_line(line_of(entry)),
        inked(line_of(entry)),
        valid_utf8(line_of(entry)),
{
    let l = line_of(entry);
    match entry {
        ItemModel::Pair { key, value } => {
            lemma_trim_one_line(key);
            lemma_trim_one_line(value);
            let k = trim_text(key);
            let v = trim_text(value);
            assert(l[k.len() as int] == EQUALS);
            assert forall|i: int| 0 <= i < l.len() implies !is_break(#[trigger] l[i]) by {
                if i < k.len() {
                    assert(l[i] == k[i]);
                } else if i > k.len() {
                    assert(l[i] == v[i - k.len() - 1]);
                }
            }
            lemma_ascii_valid(EQUALS);
            lemma_valid_append(k, seq![EQUALS]);
            lemma_valid_append(k + seq![EQUALS], v);
        },
        ItemModel::Comment { indicator, value } => {
            lemma_indicator_bytes(indicator);
            assert(l[0] == indicator as u8);
            assert(l[1] == SPACE);
            assert forall|i: int| 0 <= i < l.len() implies !is_break(#[trigger] l[i]) by {
                if i >= 2 {
                    assert(l[i] == value[i - 2]);
                }
            }
            lemma_ascii_valid(SPACE);
            vstd::utf8::encode_utf8_valid_utf8(seq![indicator]);
            lemma_valid_append(encode_utf8(seq![indicator]), seq![SPACE]);
            lemma_valid_append(encode_utf8(seq![indicator]) + seq![SPACE], value);
        },
        ItemModel::Section { name, body } => {
            assert(l[0] == OPEN);
            assert forall|i: int| 0 <= i < l.len() implies !is_break(#[trigger] l[i]) by {
                if 0 < i < l.len() - 1 {
                    assert(l[i] == name[i - 1]);
                }
            }
            lemma_ascii_valid(OPEN);
            lemma_ascii_valid(CLOSE);
            lemma_valid_append(seq![OPEN], name);
            lemma_valid_append(seq![OPEN] + name, seq![CLOSE]);
        },
    }
}

/// The text of one entry or more ends with a line feed.
pub proof fn lemma_blocks_end(entries: Seq<ItemModel>, k: int)
    requires
        0 < k <= entries.len(),
    ensures
        blocks(entries, k).len() > 0,
        blocks(entries, k).last() == LF,
{
}

/// Texts that are equal are made of equal lines. Where the text of some
/// entries is the text of others, and every line is plain, there are as
/// many entries in the one as in the other, each is written as the same
/// line, and behind the first each is a header in both or in neither.
#[verifier::rlimit(50)]
pub proof fn lemma_blocks_unique(a: Seq<ItemModel>, b: Seq<ItemModel>, ka: int, kb: int)
    requires
        0 <= ka <= a.len(),
        0 <= kb <= b.len(),
        forall|i: int| 0 <= i < ka ==> plain_line(line_of(#[trigger] a[i])),
        forall|i: int| 0 <= i < kb ==> plain_line(line_of(#[trigger] b[i])),
        blocks(a, ka) == blocks(b, kb),
    ensures
        ka == kb,
        forall|i: int| 0 <= i < ka ==> line_of(#[trigger] a[i]) == line_of(b[i]),
        forall|i: int| 0 < i < ka ==> (#[trigger] a[i] is Section <==> b[i] is Section),
    decreases ka,
{
    if ka == 0 || kb == 0 {
        if ka > 0 {
            lemma_blocks_end(a, ka);
        }
        if kb > 0 {
            lemma_blocks_end(b, kb);
        }
    } else {
        let t = blocks(a, ka);
        let pa = blocks(a, ka - 1);
        let pb = blocks(b, kb - 1);
        let ga = gap(a, ka - 1);
        let gb = gap(b, kb - 1);
        let la = line_of(a[ka - 1]);
        let lb = line_of(b[kb - 1]);
        let qa = pa + ga;
        let qb = pb + gb;
        assert(plain_line(la));
        assert(plain_line(lb));
        assert(t =~= qa + la + seq![LF]);
        assert(t =~= qb + lb + seq![LF]);
        assert(qa.len() + la.len() == qb.len() + lb.len());
        // Either part before the last line is empty or ends with a line
        // feed.
        if qa.len() > 0 {
            if ga.len() == 0 {
                assert(qa =~= pa);
                lemma_blocks_end(a, ka - 1);
            }
            assert(qa.last() == LF);
        }
        if qb.len() > 0 {
            if gb.len() == 0 {
                assert(qb =~= pb);
                lemma_blocks_end(b, kb - 1);
            }
            assert(qb.last() == LF);
        }
        // So the last lines are of one length: a longer one would hold
        // the line feed that ends the other part.
        if la.len() < lb.len() {
            let j = qa.len() - 1;
            assert((qa + la + seq![LF])[j] == qa[j]);
            assert((qb + lb + seq![LF])[j] == lb[j - qb.len()]);
            assert(is_break(lb[j - qb.len()]));
        }
        if lb.len() < la.len() {
            let j = qb.len() - 1;
            assert((qb + lb + seq![LF])[j] == qb[j]);
            assert((qa + la + seq![LF])[j] == la[j - qa.len()]);
            assert(is_break(la[j - qa.len()]));
        }
        assert(la.len() == lb.len());
        assert(la =~= lb) by {
            assert forall|i: int| 0 <= i < la.len() implies la[i] == lb[i] by {
                assert((qa + la + seq![LF])[qa.len() + i] == la[i]);
                assert((qb + lb + seq![LF])[qb.len() + i] == lb[i]);
            }
        }
        assert(qa =~= qb) by {
            assert forall|i: int| 0 <= i < qa.len() implies qa[i] == qb[i] by {
                assert((qa + la + seq![LF])[i] == qa[i]);
                assert((qb + lb + seq![LF])[i] == qb[i]);
            }
        }
        // A blank line on one side only would put a line feed at the end
        // of a line of the other.
        if ga.len() > 0 && gb.len() == 0 {
            assert(qb =~= pb);
            assert(kb - 1 > 0);
            let before = blocks(b, kb - 2) + gap(b, kb - 2) + line_of(b[kb - 2]);
            assert(pb =~= before + seq![LF]);
            assert(plain_line(line_of(b[kb - 2])));
            lemma_blocks_end(a, ka - 1);
            assert(pa =~= before) by {
                assert(qa =~= pa + seq![LF]);
                assert forall|i: int| 0 <= i < pa.len() implies pa[i] == before[i] by {
                    assert(qa[i] == pa[i]);
                    assert(pb[i] == before[i]);
                }
            }
            assert(before.last() == line_of(b[kb - 2]).last());
            assert(is_break(line_of(b[kb - 2]).last()));
        }
        if gb.len() > 0 && ga.len() == 0 {
            assert(qa =~= pa);
            assert(ka - 1 > 0);
            let before = blocks(a, ka - 2) + gap(a, ka - 2) + line_of(a[ka - 2]);
            assert(pa =~= before + seq![LF]);
            assert(plain_line(line_of(a[ka - 2])));
            lemma_blocks_end(b, kb - 1);
            assert(pb =~= before) by {
                assert(qb =~= pb + seq![LF]);
                assert forall|i: int| 0 <= i < pb.len() implies pb[i] == before[i] by {
                    assert(qb[i] == pb[i]);
                    assert(pa[i] == before[i]);
                }
            }
            assert(before.last() == line_of(a[ka - 2]).last());
            assert(is_break(line_of(a[ka - 2]).last()));
        }
        assert(ga.len() == gb.len());
        assert(pa =~= pb) by {
            assert forall|i: int| 0 <= i < pa.len() implies pa[i] == pb[i] by {
                assert(qa[i] == pa[i]);
                assert(qb[i] == pb[i]);
            }
        }
        lemma_blocks_unique(a, b, ka - 1, kb - 1);
        assert forall|i: int| 0 <= i < ka implies line_of(#[trigger] a[i]) == line_of(b[i]) by {
            if i == ka - 1 {
                assert(la == lb);
            }
        }
    }
}

} // verus!
