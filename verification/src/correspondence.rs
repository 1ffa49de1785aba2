//! The tree and the flat stream come from one scan: what the tree holds,
//! the stream points at.

use vstd::prelude::*;
use crate::ast::ItemModel;
use crate::builder::{draft, Draft};
use crate::encoder::{encode, token_triples};
use crate::token::TokenView;

verus! {

/// True when the pair of `key` and `value` stands among `items`.
pub open spec fn among(items: Seq<ItemModel>, key: Seq<u8>, value: Seq<u8>) -> bool {
    exists|i: int| 0 <= i < items.len() && #[trigger] items[i] == (ItemModel::Pair { key, value })
}

/// True when the document holds the pair of `key` and `value`, in its
/// prelude or in the body of one of its sections.
pub open spec fn holds_pair(d: Seq<ItemModel>, key: Seq<u8>, value: Seq<u8>) -> bool {
    ||| among(d, key, value)
    ||| exists|i: int|
        0 <= i < d.len() && (#[trigger] d[i] matches ItemModel::Section { name, body } && among(
            body,
            key,
            value,
        ))
}

/// True when the draft holds the pair, in what is done or in the section
/// that is open.
pub open spec fn draft_holds(draft: Draft, key: Seq<u8>, value: Seq<u8>) -> bool {
    ||| holds_pair(draft.done, key, value)
    ||| (draft.open matches Some((name, body)) && among(body, key, value))
}

/// A pair among items with one more at the end is that one or stands
/// among the others.
pub proof fn lemma_among_push(items: Seq<ItemModel>, last: ItemModel, key: Seq<u8>, value: Seq<u8>)
    requires
        among(items.push(last), key, value),
    ensures
        among(items, key, value) || last == (ItemModel::Pair { key, value }),
{
    let grown = items.push(last);
    let i = choose|i: int|
        0 <= i < grown.len() && #[trigger] grown[i] == (ItemModel::Pair { key, value });
    if i < items.len() {
        assert(items[i] == grown[i]);
    }
}

/// A pair that a closed draft holds, the draft held.
pub proof fn lemma_close_holds(draft: Draft, key: Seq<u8>, value: Seq<u8>)
    requires
        holds_pair(draft.close(), key, value),
    ensures
        draft_holds(draft, key, value),
{
    match draft.open {
        Some((name, body)) => {
            let section = ItemModel::Section { name, body };
            let d = draft.done.push(section);
            if among(d, key, value) {
                lemma_among_push(draft.done, section, key, value);
            } else {
                let i = choose|i: int|
                    0 <= i < d.len() && (#[trigger] d[i] matches ItemModel::Section { name, body }
                        && among(body, key, value));
                if i < draft.done.len() {
                    assert(draft.done[i] == d[i]);
                }
            }
        },
        None => {},
    }
}

/// A pair that a draft holds after an entry is that entry, or the draft
/// held it before.
pub proof fn lemma_step_holds(draft: Draft, entry: ItemModel, key: Seq<u8>, value: Seq<u8>)
    requires
        draft_holds(draft.step(entry), key, value),
        entry matches ItemModel::Section { name, body } ==> body.len() == 0,
    ensures
        draft_holds(draft, key, value) || entry == (ItemModel::Pair { key, value }),
{
    match entry {
        ItemModel::Section { name, body } => {
            lemma_close_holds(draft, key, value);
        },
        leaf => {
            match draft.open {
                Some((name, body)) => {
                    if among(body.push(leaf), key, value) {
                        lemma_among_push(body, leaf, key, value);
                    }
                },
                None => {
                    let d = draft.done.push(leaf);
                    if among(d, key, value) {
                        lemma_among_push(draft.done, leaf, key, value);
                    } else {
                        let i = choose|i: int|
                            0 <= i < d.len() && (#[trigger] d[i] matches ItemModel::Section {
                                name,
                                body,
                            } && among(body, key, value));
                        assert(i < draft.done.len());
                        assert(draft.done[i] == d[i]);
                    }
                },
            }
        },
    }
}

/// A pair that the draft of some entries holds is one of the entries.
/// Gives the index of that entry.
pub proof fn lemma_draft_holds(all: Seq<ItemModel>, n: int, key: Seq<u8>, value: Seq<u8>) -> (i:
    int)
    requires
        0 <= n <= all.len(),
        draft_holds(draft(all, n), key, value),
        forall|k: int|
            0 <= k < all.len() ==> (#[trigger] all[k] matches ItemModel::Section { name, body }
                ==> body.len() == 0),
    ensures
        0 <= i < n,
        all[i] == (ItemModel::Pair { key, value }),
    decreases n,
{
    if n > 0 {
        lemma_step_holds(draft(all, n - 1), all[n - 1], key, value);
        if all[n - 1] == (ItemModel::Pair { key, value }) {
            n - 1
        } else {
            lemma_draft_holds(all, n - 1, key, value)
        }
    } else {
        let empty = draft(all, 0);
        assert(!among(empty.done, key, value));
        assert(!holds_pair(empty.done, key, value));
        0
    }
}

/// The stream of the first `n` tokens has three numbers for each triple,
/// and holds the triples of the token at `i` where the stream of the
/// tokens before it ends.
pub proof fn lemma_encode_holds(tokens: Seq<TokenView>, n: int, i: int)
    requires
        0 <= i < n <= tokens.len(),
    ensures
        encode(tokens, i).len() % 3 == 0,
        encode(tokens, n).len() % 3 == 0,
        encode(tokens, i).len() + token_triples(tokens[i]).len() <= encode(tokens, n).len(),
        encode(tokens, n).subrange(
            encode(tokens, i).len() as int,
            encode(tokens, i).len() as int + token_triples(tokens[i]).len() as int,
        ) == token_triples(tokens[i]),
    decreases n,
{
    lemma_encode_len(tokens, i);
    lemma_encode_len(tokens, n);
    let at = encode(tokens, i).len() as int;
    let these = token_triples(tokens[i]);
    if i == n - 1 {
        assert(encode(tokens, n).subrange(at, at + these.len()) =~= these);
    } else {
        lemma_encode_holds(tokens, n - 1, i);
        let before = encode(tokens, n - 1);
        assert(encode(tokens, n) == before + token_triples(tokens[n - 1]));
        assert(encode(tokens, n).subrange(at, at + these.len()) =~= before.subrange(
            at,
            at + these.len(),
        ));
    }
}

/// The stream of any number of tokens is made of whole triples.
pub proof fn lemma_encode_len(tokens: Seq<TokenView>, n: int)
    requires
        0 <= n <= tokens.len(),
    ensures
        encode(tokens, n).len() % 3 == 0,
    decreases n,
{
    if n > 0 {
        lemma_encode_len(tokens, n - 1);
        let these = token_triples(tokens[n - 1]);
        assert(these.len() == 3 || these.len() == 6);
    }
}

} // verus!
