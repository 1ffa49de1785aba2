//! The tree builder: from the tokens of a scan to a document.
//!
//! A header opens a section; pairs and comments go to the section that is
//! open, or to the prelude while none is. The next header, or the end of
//! the tokens, closes the open section and puts it behind what is done.

use vstd::prelude::*;
use vstd::utf8::valid_utf8;
use crate::ast::{item_models, Comment, Item, ItemModel, Pair, Section};
use crate::text::{text_bytes, text_of};
use crate::token::{token_views, Token, TokenView};

verus! {

/// What a token stands for in the text `t`: the item of its line, a header
/// being a section without a body.
pub open spec fn entry_of(t: Seq<u8>, token: TokenView) -> ItemModel {
    match token {
        TokenView::Section { name } => ItemModel::Section { name: name.of(t), body: Seq::empty() },
        TokenView::Comment { indicator, value } => ItemModel::Comment {
            indicator: t[indicator] as char,
            value: value.of(t),
        },
        TokenView::Pair { key, value } => ItemModel::Pair { key: key.of(t), value: value.of(t) },
    }
}

/// What each of `tokens` stands for in the text `t`.
pub open spec fn entries(t: Seq<u8>, tokens: Seq<TokenView>) -> Seq<ItemModel> {
    Seq::new(tokens.len(), |i: int| entry_of(t, tokens[i]))
}

/// A document under construction: the items that are done, and the section
/// that is open, as its name and the body it has so far.
pub struct Draft {
    pub done: Seq<ItemModel>,
    pub open: Option<(Seq<u8>, Seq<ItemModel>)>,
}

impl Draft {
    /// The items of the draft once the open section is closed.
    pub open spec fn close(self) -> Seq<ItemModel> {
        match self.open {
            Some((name, body)) => self.done.push(ItemModel::Section { name, body }),
            None => self.done,
        }
    }

    /// The draft after one more entry. A section closes the one that is
    /// open and opens itself; anything else joins the open section, or the
    /// items that are done while no section is open.
    pub open spec fn step(self, entry: ItemModel) -> Draft {
        match entry {
            ItemModel::Section { name, body } => Draft {
                done: self.close(),
                open: Some((name, body)),
            },
            other => match self.open {
                Some((name, body)) => Draft { done: self.done, open: Some((name, body.push(other))) },
                None => Draft { done: self.done.push(other), open: None },
            },
        }
    }
}

/// The draft after the first `n` of `entries`.
pub open spec fn draft(entries: Seq<ItemModel>, n: int) -> Draft
    decreases n,
{
    if 0 < n <= entries.len() {
        draft(entries, n - 1).step(entries[n - 1])
    } else {
        Draft { done: Seq::empty(), open: None }
    }
}

/// The document that `entries` make.
pub open spec fn build(entries: Seq<ItemModel>) -> Seq<ItemModel> {
    draft(entries, entries.len() as int).close()
}

/// True when every range of `token` lies in `t` and covers UTF-8.
pub open spec fn readable(t: Seq<u8>, token: TokenView) -> bool {
    &&& token.within(t.len() as int)
    &&& match token {
        TokenView::Section { name } => valid_utf8(name.of(t)),
        TokenView::Comment { indicator, value } => t[indicator] < 0x80 && valid_utf8(value.of(t)),
        TokenView::Pair { key, value } => valid_utf8(key.of(t)) && valid_utf8(value.of(t)),
    }
}

/// The models of two runs of items agree as far as the items do.
pub proof fn lemma_models_prefix(a: Seq<Item>, b: Seq<Item>, n: int)
    requires
        0 <= n <= a.len(),
        n <= b.len(),
        forall|i: int| 0 <= i < n ==> a[i] == b[i],
    ensures
        item_models(a, n) == item_models(b, n),
    decreases n,
{
    if n > 0 {
        lemma_models_prefix(a, b, n - 1);
    }
}

/// Pushing an item pushes its model.
pub proof fn lemma_models_push(a: Seq<Item>, item: Item)
    ensures
        item_models(a.push(item), a.len() as int + 1) == item_models(a, a.len() as int).push(
            item.model(),
        ),
{
    lemma_models_prefix(a, a.push(item), a.len() as int);
}

/// Makes the item that `token` stands for, copying its text out of `buf`.
pub fn make_item(buf: &[u8], token: &Token) -> (r: Item)
    requires
        readable(buf@, token@),
    ensures
        r.model() == entry_of(buf@, token@),
{
    match token {
        Token::Section { name } => Item::Section(
            Section { name: text_of(buf, name.start, name.end), body: Vec::new() },
        ),
        Token::Comment { indicator, value } => Item::Comment(
            Comment {
                indicator: buf[*indicator] as char,
                value: text_of(buf, value.start, value.end),
            },
        ),
        Token::Pair { key, value } => Item::Pair(
            Pair {
                key: text_of(buf, key.start, key.end),
                value: text_of(buf, value.start, value.end),
            },
        ),
    }
}

/// What the section that is open amounts to in a draft.
pub open spec fn open_model(open: Option<Section>) -> Option<(Seq<u8>, Seq<ItemModel>)> {
    match open {
        Some(section) => Some(
            (text_bytes(&section.name), item_models(section.body@, section.body@.len() as int)),
        ),
        None => None,
    }
}

/// Builds the body of a document from the tokens of a scan of `buf`.
pub fn build_tree(buf: &[u8], tokens: &Vec<Token>) -> (r: Vec<Item>)
    requires
        forall|i: int| 0 <= i < tokens@.len() ==> readable(buf@, #[trigger] tokens@[i]@),
    ensures
        item_models(r@, r@.len() as int) == build(entries(buf@, token_views(tokens@))),
{
    let ghost all = entries(buf@, token_views(tokens@));
    let mut done: Vec<Item> = Vec::new();
    let mut open: Option<Section> = None;
    let mut i: usize = 0;
    while i < tokens.len()
        invariant
            i <= tokens@.len(),
            all == entries(buf@, token_views(tokens@)),
            forall|k: int| 0 <= k < tokens@.len() ==> readable(buf@, #[trigger] tokens@[k]@),
            item_models(done@, done@.len() as int) == draft(all, i as int).done,
            open_model(open) == draft(all, i as int).open,
        decreases tokens@.len() - i,
    {
        let ghost before = draft(all, i as int);
        let item: Item = make_item(buf, &tokens[i]);
        assert(item.model() == all[i as int]);
        match item {
            Item::Section(section) => {
                match open {
                    Some(last) => {
                        proof {
                            lemma_models_push(done@, Item::Section(last));
                        }
                        done.push(Item::Section(last));
                    },
                    None => {},
                }
                open = Some(section);
            },
            other => {
                match open {
                    Some(mut last) => {
                        proof {
                            lemma_models_push(last.body@, other);
                        }
                        last.body.push(other);
                        open = Some(last);
                    },
                    None => {
                        proof {
                            lemma_models_push(done@, other);
                        }
                        done.push(other);
                        open = None;
                    },
                }
            },
        }
        i = i + 1;
    }
    match open {
        Some(last) => {
            proof {
                lemma_models_push(done@, Item::Section(last));
            }
            done.push(Item::Section(last));
        },
        None => {},
    }
    done
}

} // verus!
