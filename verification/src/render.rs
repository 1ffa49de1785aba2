//! The serializer: from a tree back to text.

use vstd::prelude::*;
use vstd::utf8::{encode_utf8, valid_utf8};
use crate::ast::{item_models, Comment, EditorConfigINIAST, Item, ItemModel, Pair, Section};
use crate::bytes::{CLOSE, EQUALS, LF, OPEN, SPACE};
use crate::text::{
    checked_text, push_ascii, push_char, push_text, push_trimmed, text_bytes, trim_text,
};

verus! {

/// The text of one item. A pair is its key, `=`, its value and a line
/// feed, key and value without the white space around them. A comment is its
/// indicator, one space, its value and a line feed. A section is its name
/// in brackets, a line feed, and the text of each item of its body.
pub open spec fn render_item(m: ItemModel) -> Seq<u8>
    decreases m,
{
    match m {
        ItemModel::Comment { indicator, value } => encode_utf8(seq![indicator]) + seq![SPACE]
            + value + seq![LF],
        ItemModel::Pair { key, value } => trim_text(key) + seq![EQUALS] + trim_text(value)
            + seq![LF],
        ItemModel::Section { name, body } => seq![OPEN] + name + seq![CLOSE, LF] + render_items(
            body,
            body.len() as int,
        ),
    }
}

/// The text of the first `n` of `items`, one after the other.
pub open spec fn render_items(items: Seq<ItemModel>, n: int) -> Seq<u8>
    decreases items, n,
{
    if 0 < n <= items.len() {
        render_items(items, n - 1) + render_item(items[n - 1])
    } else {
        Seq::empty()
    }
}

/// What stands before the item at `i` in the text of a document: a line
/// feed, making a blank line, before a section that is not the first item.
pub open spec fn gap_before(items: Seq<ItemModel>, i: int) -> Seq<u8> {
    if i > 0 && items[i] is Section {
        seq![LF]
    } else {
        Seq::empty()
    }
}

/// The text of a document whose body is the first `n` of `items`.
pub open spec fn render_document(items: Seq<ItemModel>, n: int) -> Seq<u8>
    decreases n,
{
    if 0 < n <= items.len() {
        render_document(items, n - 1) + gap_before(items, n - 1) + render_item(items[n - 1])
    } else {
        Seq::empty()
    }
}

/// Appends the text of `comment`.
fn render_comment(comment: &Comment, out: &mut Vec<u8>)
    ensures
        final(out)@ == old(out)@ + render_item(comment.model()),
        valid_utf8(old(out)@) ==> valid_utf8(final(out)@),
{
    push_char(out, comment.indicator);
    push_ascii(out, SPACE);
    push_text(out, &comment.value);
    push_ascii(out, LF);
    assert(out@ == old(out)@ + render_item(comment.model()));
}

/// Appends the text of `pair`.
fn render_pair(pair: &Pair, out: &mut Vec<u8>)
    ensures
        final(out)@ == old(out)@ + render_item(pair.model()),
        valid_utf8(old(out)@) ==> valid_utf8(final(out)@),
{
    push_trimmed(out, &pair.key);
    push_ascii(out, EQUALS);
    push_trimmed(out, &pair.value);
    push_ascii(out, LF);
    assert(out@ == old(out)@ + render_item(pair.model()));
}

/// Appends the text of `section`: its header, then its body.
fn render_section(section: &Section, out: &mut Vec<u8>)
    ensures
        final(out)@ == old(out)@ + render_item(section.model()),
        valid_utf8(old(out)@) ==> valid_utf8(final(out)@),
    decreases section,
{
    push_ascii(out, OPEN);
    push_text(out, &section.name);
    push_ascii(out, CLOSE);
    push_ascii(out, LF);
    let ghost head = out@;
    let ghost models = item_models(section.body@, section.body@.len() as int);
    assert(head == old(out)@ + (seq![OPEN] + text_bytes(&section.name) + seq![CLOSE, LF]));
    let mut i: usize = 0;
    while i < section.body.len()
        invariant
            i <= section.body@.len(),
            models == item_models(section.body@, section.body@.len() as int),
            out@ == head + render_items(models, i as int),
            valid_utf8(old(out)@) ==> valid_utf8(out@),
        decreases section.body@.len() - i,
    {
        proof {
            lemma_models_index(section.body@, section.body@.len() as int, i as int);
        }
        render_item_into(&section.body[i], out);
        i = i + 1;
    }
    proof {
        lemma_models_len(section.body@, section.body@.len() as int);
        assert(out@ =~= old(out)@ + (seq![OPEN] + text_bytes(&section.name) + seq![CLOSE, LF]
            + render_items(models, models.len() as int)));
    }
}

/// Appends the text of `item`.
fn render_item_into(item: &Item, out: &mut Vec<u8>)
    ensures
        final(out)@ == old(out)@ + render_item(item.model()),
        valid_utf8(old(out)@) ==> valid_utf8(final(out)@),
    decreases item,
{
    match item {
        Item::Comment(comment) => render_comment(comment, out),
        Item::Pair(pair) => render_pair(pair, out),
        Item::Section(section) => render_section(section, out),
    }
}

/// Turns rendered bytes into a string.
fn into_string(out: Vec<u8>) -> (r: String)
    requires
        valid_utf8(out@),
    ensures
        text_bytes(&r) == out@,
{
    checked_text(out.as_slice()).unwrap().to_owned()
}

impl Comment {
    /// The comment as a line of text: indicator, one space, value.
    pub fn to_string(&self) -> (r: String)
        ensures
            text_bytes(&r) == render_item(self.model()),
    {
        let mut out: Vec<u8> = Vec::new();
        render_comment(self, &mut out);
        assert(out@ == render_item(self.model()));
        into_string(out)
    }
}

impl Pair {
    /// The pair as a line of text: key, `=`, value, without padding.
    pub fn to_string(&self) -> (r: String)
        ensures
            text_bytes(&r) == render_item(self.model()),
    {
        let mut out: Vec<u8> = Vec::new();
        render_pair(self, &mut out);
        assert(out@ == render_item(self.model()));
        into_string(out)
    }
}

impl Section {
    /// The section as text: the header line, then the lines of the body.
    pub fn to_string(&self) -> (r: String)
        ensures
            text_bytes(&r) == render_item(self.model()),
    {
        let mut out: Vec<u8> = Vec::new();
        render_section(self, &mut out);
        assert(out@ == render_item(self.model()));
        into_string(out)
    }
}

impl Item {
    /// The item as text.
    pub fn to_string(&self) -> (r: String)
        ensures
            text_bytes(&r) == render_item(self.model()),
    {
        let mut out: Vec<u8> = Vec::new();
        render_item_into(self, &mut out);
        assert(out@ == render_item(self.model()));
        into_string(out)
    }
}

impl EditorConfigINIAST {
    /// The document as text: every item in order, with one blank line
    /// before each section but a section that comes first.
    pub fn to_string(&self) -> (r: String)
        ensures
            text_bytes(&r) == render_document(self.model(), self.model().len() as int),
    {
        let mut out: Vec<u8> = Vec::new();
        let ghost models = self.model();
        let mut i: usize = 0;
        proof {
            lemma_models_len(self.body@, self.body@.len() as int);
        }
        while i < self.body.len()
            invariant
                i <= self.body@.len(),
                models == self.model(),
                models.len() == self.body@.len(),
                out@ == render_document(models, i as int),
                valid_utf8(out@),
            decreases self.body@.len() - i,
        {
            proof {
                lemma_models_index(self.body@, self.body@.len() as int, i as int);
            }
            let item: &Item = &self.body[i];
            let ghost before = out@;
            if i > 0 {
                match item {
                    Item::Section(_) => {
                        push_ascii(&mut out, LF);
                    },
                    _ => {},
                }
            }
            assert(out@ == before + gap_before(models, i as int));
            render_item_into(item, &mut out);
            i = i + 1;
        }
        into_string(out)
    }
}

/// The models of a run of items stand in the order of the items.
pub proof fn lemma_models_index(items: Seq<Item>, n: int, i: int)
    requires
        0 <= i < n <= items.len(),
    ensures
        item_models(items, n).len() == n,
        item_models(items, n)[i] == items[i].model(),
    decreases n,
{
    if i < n - 1 {
        lemma_models_index(items, n - 1, i);
    } else {
        lemma_models_len(items, n - 1);
    }
}

/// There is one model for each item.
pub proof fn lemma_models_len(items: Seq<Item>, n: int)
    requires
        0 <= n <= items.len(),
    ensures
        item_models(items, n).len() == n,
    decreases n,
{
    if n > 0 {
        lemma_models_len(items, n - 1);
    }
}

} // verus!
