//! Canonical documents: the trees whose text parses back into themselves.

use vstd::prelude::*;
use vstd::utf8::{decode_utf8, encode_utf8, valid_utf8};
use crate::text::is_white;
use crate::ast::ItemModel;
use crate::builder::entry_of;
use crate::bytes::{
    backslash_run, break_len, find_separator, first_break, is_blank, is_break, is_indicator,
    is_separator, lemma_find_separator, lemma_first_break, skip_blank, trim_end, CLOSE, EQUALS, LF,
    MAX_KEY, MAX_VALUE, OPEN, SPACE,
};
use crate::reading::{read_lines, Reading};
use crate::scanner::classify;
use crate::token::{Extent, LineView, TokenView};

verus! {

/// True when `s` holds no line break.
pub open spec fn one_line(s: Seq<u8>) -> bool {
    forall|i: int| 0 <= i < s.len() ==> !is_break(#[trigger] s[i])
}

/// True when `s` has no padding at either end.
pub open spec fn unpadded(s: Seq<u8>) -> bool {
    s.len() == 0 || (!is_blank(s[0]) && !is_blank(s.last()))
}

/// True when the text `s` has no white space at either end, white space
/// being what the serializer takes off a key and a value.
pub open spec fn trimmed(s: Seq<u8>) -> bool {
    let chars = decode_utf8(s);
    chars.len() == 0 || (!is_white(chars[0]) && !is_white(chars.last()))
}

/// True when no `=` in `key` would split a line: each has a backslash
/// before it that makes it literal.
pub open spec fn unsplit(key: Seq<u8>) -> bool {
    forall|i: int| 0 <= i < key.len() ==> !#[trigger] is_separator(key, 0, i)
}

/// True when an `=` put behind `key` splits the line there: the
/// backslashes at the end of `key` pair up.
pub open spec fn settled(key: Seq<u8>) -> bool {
    backslash_run(key, 0, key.len() as int) % 2 == 0
}

/// True when a line that begins with `key` is read as a pair: `key` does
/// not begin with `[`, `#` or `;`.
pub open spec fn opens_pair(key: Seq<u8>) -> bool {
    key.len() == 0 || (key[0] != OPEN && !is_indicator(key[0]))
}

/// True when `key` and `value` are such as the scanner hands out: UTF-8
/// on one line, without padding around them, within the limits, and with
/// a key that begins no other kind of line and holds no splitting `=`.
pub open spec fn scanned_pair(key: Seq<u8>, value: Seq<u8>) -> bool {
    &&& valid_utf8(key)
    &&& valid_utf8(value)
    &&& one_line(key)
    &&& one_line(value)
    &&& unpadded(key)
    &&& unpadded(value)
    &&& key.len() <= MAX_KEY
    &&& value.len() <= MAX_VALUE
    &&& unsplit(key)
    &&& opens_pair(key)
}

/// True when the comment is such as the scanner hands out.
pub open spec fn scanned_comment(indicator: char, value: Seq<u8>) -> bool {
    &&& (indicator == '#' || indicator == ';')
    &&& valid_utf8(value)
    &&& one_line(value)
}

/// True for a pair or a comment such as the scanner hands out.
pub open spec fn scanned_leaf(m: ItemModel) -> bool {
    match m {
        ItemModel::Pair { key, value } => scanned_pair(key, value),
        ItemModel::Comment { indicator, value } => scanned_comment(indicator, value),
        ItemModel::Section { .. } => false,
    }
}

/// True for an item such as parsing puts into a document: a pair or a
/// comment as above, or a section with a name on one line and a body of
/// such pairs and comments.
pub open spec fn scanned_item(m: ItemModel) -> bool {
    match m {
        ItemModel::Section { name, body } => {
            &&& valid_utf8(name)
            &&& one_line(name)
            &&& forall|i: int| 0 <= i < body.len() ==> scanned_leaf(#[trigger] body[i])
        },
        leaf => scanned_leaf(leaf),
    }
}

/// True when the pair is written as it stands: the serializer takes
/// nothing off the key or the value, and the `=` it puts behind the key
/// splits the line there.
pub open spec fn settled_pair(key: Seq<u8>, value: Seq<u8>) -> bool {
    &&& settled(key)
    &&& trimmed(key)
    &&& trimmed(value)
}

/// True when every pair of the item is settled.
pub open spec fn settled_item(m: ItemModel) -> bool {
    match m {
        ItemModel::Pair { key, value } => settled_pair(key, value),
        ItemModel::Comment { .. } => true,
        ItemModel::Section { name, body } => forall|i: int|
            0 <= i < body.len() ==> (#[trigger] body[i] matches ItemModel::Pair { key, value }
                ==> settled_pair(key, value)),
    }
}

/// True when no pair or comment stands behind a section.
pub open spec fn sections_last(d: Seq<ItemModel>) -> bool {
    forall|i: int, j: int|
        0 <= i < j < d.len() && #[trigger] d[i] is Section ==> #[trigger] d[j] is Section
}

/// True for a document such as parsing builds: items as above, with the
/// pairs and comments of the prelude before the first section.
pub open spec fn scanned_document(d: Seq<ItemModel>) -> bool {
    &&& forall|i: int| 0 <= i < d.len() ==> scanned_item(#[trigger] d[i])
    &&& sections_last(d)
}

/// True when every pair of the document is settled.
pub open spec fn settled_document(d: Seq<ItemModel>) -> bool {
    forall|i: int| 0 <= i < d.len() ==> settled_item(#[trigger] d[i])
}

/// The text of a line and a line feed says what the line holds.
pub proof fn lemma_read_one_line(l: Seq<u8>)
    requires
        one_line(l),
    ensures
        read_lines(l + seq![LF]) == match classify(l) {
            LineView::Bad(fault) => Reading { entries: Seq::empty(), fault: Some(fault) },
            LineView::Blank => Reading { entries: Seq::empty(), fault: None },
            LineView::Item(token) => Reading { entries: seq![entry_of(l, token)], fault: None },
        },
{
    let t = l + seq![LF];
    lemma_first_break(t, 0);
    let e = first_break(t, 0);
    assert(t[l.len() as int] == LF);
    if e < l.len() {
        assert(t[e] == l[e]);
    }
    assert(e == l.len());
    assert(break_len(t, e) == 1);
    assert(t.subrange(0, e) =~= l);
    let rest = t.subrange(e + 1, t.len() as int);
    assert(rest.len() == 0);
    assert(read_lines(rest) == Reading { entries: Seq::empty(), fault: None });
    match classify(l) {
        LineView::Item(token) => {
            assert(read_lines(t).entries =~= seq![entry_of(l, token)]);
        },
        _ => {},
    }
}

/// The backslashes before an index are the same in a text and in any text
/// that begins with it.
pub proof fn lemma_backslash_run_prefix(k: Seq<u8>, l: Seq<u8>, i: int)
    requires
        0 <= i <= k.len() <= l.len(),
        forall|j: int| 0 <= j < k.len() ==> k[j] == l[j],
    ensures
        backslash_run(l, 0, i) == backslash_run(k, 0, i),
    decreases i,
{
    if i > 0 {
        lemma_backslash_run_prefix(k, l, i - 1);
    }
}

/// A line made of a key, `=` and a value, all as the scanner hands them
/// out and the key settled, is read as that pair.
pub proof fn lemma_pair_line(key: Seq<u8>, value: Seq<u8>)
    requires
        scanned_pair(key, value),
        settled(key),
    ensures
        one_line(key + seq![EQUALS] + value),
        classify(key + seq![EQUALS] + value) matches LineView::Item(token) && entry_of(
            key + seq![EQUALS] + value,
            token,
        ) == (ItemModel::Pair { key, value }),
{
    let l = key + seq![EQUALS] + value;
    let n = l.len() as int;
    let k = key.len() as int;
    assert forall|j: int| 0 <= j < k implies key[j] == l[j] by {}
    assert(l[k] == EQUALS);
    assert forall|j: int| 0 <= j < value.len() implies value[j] == l[k + 1 + j] by {}
    assert forall|j: int| 0 <= j < n implies !is_break(#[trigger] l[j]) by {
        if j < k {
            assert(l[j] == key[j]);
        } else if j > k {
            assert(l[j] == value[j - k - 1]);
        }
    }
    // The line begins with the key, or with `=` where the key is empty.
    if k > 0 {
        assert(l[0] == key[0]);
    }
    assert(skip_blank(l, 0) == 0);
    // The `=` behind the key is the first that splits.
    lemma_find_separator(l, 0, 0);
    let q = find_separator(l, 0, 0);
    lemma_backslash_run_prefix(key, l, k);
    assert(is_separator(l, 0, k));
    if q < k {
        lemma_backslash_run_prefix(key, l, q);
        assert(is_separator(key, 0, q));
    }
    assert(q == k);
    // Neither the key nor the value has padding to lose.
    if k > 0 {
        assert(l[k - 1] == key.last());
    }
    assert(trim_end(l, 0, k) == k);
    if value.len() > 0 {
        assert(l[k + 1] == value[0]);
        assert(l[n - 1] == value.last());
    }
    assert(skip_blank(l, k + 1) == k + 1);
    assert(trim_end(l, k + 1, n) == n);
    let key_range = Extent { start: 0, end: k };
    let value_range = Extent { start: k + 1, end: n };
    assert(key_range.of(l) =~= key);
    assert(value_range.of(l) =~= value);
    assert(classify(l) == LineView::Item(TokenView::Pair { key: key_range, value: value_range }));
}

/// The UTF-8 encoding of `#` and of `;` is the one byte of that name.
pub proof fn lemma_indicator_bytes(indicator: char)
    requires
        indicator == '#' || indicator == ';',
    ensures
        encode_utf8(seq![indicator]) == seq![indicator as u8],
        is_indicator(indicator as u8),
        (indicator as u8) as char == indicator,
{
    let chars = seq![indicator];
    assert(chars[0] == indicator);
    vstd::utf8::is_ascii_chars_encode_utf8(chars);
    assert(encode_utf8(chars) =~= seq![indicator as u8]);
}

/// A line made of an indicator, a space and a value is read as that
/// comment.
pub proof fn lemma_comment_line(indicator: char, value: Seq<u8>)
    requires
        scanned_comment(indicator, value),
    ensures
        one_line(encode_utf8(seq![indicator]) + seq![SPACE] + value),
        classify(encode_utf8(seq![indicator]) + seq![SPACE] + value) matches LineView::Item(token)
            && entry_of(encode_utf8(seq![indicator]) + seq![SPACE] + value, token) == (
            ItemModel::Comment { indicator, value }),
{
    lemma_indicator_bytes(indicator);
    let l = encode_utf8(seq![indicator]) + seq![SPACE] + value;
    let n = l.len() as int;
    assert(l[0] == indicator as u8);
    assert(l[1] == SPACE);
    assert forall|j: int| 0 <= j < n implies !is_break(#[trigger] l[j]) by {
        if j >= 2 {
            assert(l[j] == value[j - 2]);
        }
    }
    assert(skip_blank(l, 0) == 0);
    let range = Extent { start: 2, end: n };
    assert(range.of(l) =~= value);
    assert(classify(l) == LineView::Item(TokenView::Comment { indicator: 0, value: range }));
}

/// A line made of a name in brackets is read as the header of that name.
pub proof fn lemma_header_line(name: Seq<u8>)
    requires
        one_line(name),
    ensures
        one_line(seq![OPEN] + name + seq![CLOSE]),
        classify(seq![OPEN] + name + seq![CLOSE]) matches LineView::Item(token) && entry_of(
            seq![OPEN] + name + seq![CLOSE],
            token,
        ) == (ItemModel::Section { name, body: Seq::empty() }),
{
    let l = seq![OPEN] + name + seq![CLOSE];
    let n = l.len() as int;
    assert(l[0] == OPEN);
    assert(l[n - 1] == CLOSE);
    assert forall|j: int| 0 <= j < n implies !is_break(#[trigger] l[j]) by {
        if 0 < j < n - 1 {
            assert(l[j] == name[j - 1]);
        }
    }
    assert(skip_blank(l, 0) == 0);
    assert(trim_end(l, 0, n) == n);
    let range = Extent { start: 1, end: n - 1 };
    assert(range.of(l) =~= name);
    assert(classify(l) == LineView::Item(TokenView::Section { name: range }));
}

} // verus!
