//! The document tree: a prelude of pairs and comments, then sections with
//! bodies of their own.

use vstd::prelude::*;
use crate::text::text_bytes;

verus! {

/// An item as the contracts see it: text as bytes, children as a sequence.
pub enum ItemModel {
    Comment { indicator: char, value: Seq<u8> },
    Pair { key: Seq<u8>, value: Seq<u8> },
    Section { name: Seq<u8>, body: Seq<ItemModel> },
}

/// A line that begins with `#` or `;`.
#[derive(Debug)]
pub struct Comment {
    /// The character that begins the comment: `#` or `;`.
    pub indicator: char,
    /// What follows the indicator, less one space.
    pub value: String,
}

/// A key and its value.
#[derive(Debug)]
pub struct Pair {
    /// What stands left of the `=`.
    pub key: String,
    /// What stands right of the `=`.
    pub value: String,
}

/// A header and the items up to the next header.
#[derive(Debug)]
pub struct Section {
    /// The text between `[` and `]`.
    pub name: String,
    /// The pairs and comments of the section.
    pub body: Vec<Item>,
}

/// What a prelude or a section body is made of.
#[derive(Debug)]
pub enum Item {
    Comment(Comment),
    Pair(Pair),
    Section(Section),
}

/// The root of a parsed document.
#[derive(Debug)]
pub struct EditorConfigINIAST {
    /// The version of the parser that built the tree.
    pub version: String,
    /// The prelude, followed by any number of sections.
    pub body: Vec<Item>,
}

impl Comment {
    /// The comment as the contracts see it.
    pub open spec fn model(&self) -> ItemModel {
        ItemModel::Comment { indicator: self.indicator, value: text_bytes(&self.value) }
    }
}

impl Pair {
    /// The pair as the contracts see it.
    pub open spec fn model(&self) -> ItemModel {
        ItemModel::Pair { key: text_bytes(&self.key), value: text_bytes(&self.value) }
    }
}

/// The models of the first `n` of `items`.
pub open spec fn item_models(items: Seq<Item>, n: int) -> Seq<ItemModel>
    decreases items, n,
{
    if 0 < n <= items.len() {
        item_models(items, n - 1).push(items[n - 1].model())
    } else {
        Seq::empty()
    }
}

impl Section {
    /// The section as the contracts see it.
    pub open spec fn model(&self) -> ItemModel
        decreases self,
    {
        ItemModel::Section {
            name: text_bytes(&self.name),
            body: item_models(self.body@, self.body@.len() as int),
        }
    }
}

impl Item {
    /// The item as the contracts see it.
    pub open spec fn model(&self) -> ItemModel
        decreases self,
    {
        match self {
            Item::Comment(comment) => comment.model(),
            Item::Pair(pair) => pair.model(),
            Item::Section(section) => section.model(),
        }
    }
}

/// The version that every tree carries.
pub const VERSION: &'static str = "0.1.0";

impl EditorConfigINIAST {
    /// The body of the document as the contracts see it.
    pub open spec fn model(&self) -> Seq<ItemModel> {
        item_models(self.body@, self.body@.len() as int)
    }

    /// A document with the given body and the version of this library.
    pub fn new(body: Vec<Item>) -> (r: EditorConfigINIAST)
        ensures
            r.body == body,
            r.version@ == VERSION@,
    {
        EditorConfigINIAST { version: VERSION.to_owned(), body }
    }
}

} // verus!
