//! What holds of parsing and serializing together.

use vstd::prelude::*;
use crate::ast::ItemModel;
use crate::builder::{draft, entries, entry_of, readable};
use crate::bytes::has_bom;
use crate::canonical::{scanned_document, settled_document};
use crate::correspondence::{
    holds_pair, lemma_close_holds, lemma_draft_holds, lemma_encode_holds,
};
use crate::encoder::{encode, token_triples, triple, TokenTypes};
use crate::error::ParseError;
use crate::fixpoint::lemma_returning_is_canonical;
use crate::normalize::normalize_model;
use crate::normalized::theorem_normalized;
use crate::parser::{lemma_scan_readable, parse_model, scan_of, stream_model};
use crate::render::render_document;
use crate::roundtrip::{lemma_parse_rendered, lemma_text_rendered};
use crate::shape::lemma_parse_scanned;
use crate::steady::{lemma_steady_exact, steady};
use crate::token::TokenView;

verus! {

/// The whole text of a document.
pub open spec fn document_text(d: Seq<ItemModel>) -> Seq<u8> {
    render_document(d, d.len() as int)
}

/// True when the document is canonical: it is such as parsing builds,
/// every pair of it is settled, and its text does not begin with a
/// byte-order mark.
pub open spec fn canonical(d: Seq<ItemModel>) -> bool {
    &&& scanned_document(d)
    &&& settled_document(d)
    &&& !has_bom(document_text(d))
}

/// What comes back when `raw` is parsed and the tree is turned into text
/// again; nothing where `raw` does not parse.
pub open spec fn reserialized(raw: Seq<u8>) -> Option<Seq<u8>> {
    match parse_model(raw) {
        Ok(d) => Some(document_text(d)),
        Err(_) => None,
    }
}

/// Round trip. The text of a canonical document parses into that
/// document, so parsing the text and serializing the tree gives the text
/// back, byte for byte.
pub proof fn theorem_round_trip(d: Seq<ItemModel>)
    requires
        canonical(d),
    ensures
        parse_model(document_text(d)) == Ok::<Seq<ItemModel>, ParseError>(d),
        reserialized(document_text(d)) == Some(document_text(d)),
{
    lemma_parse_rendered(d);
}

/// The converse of the round trip: only canonical documents come back.
/// A document that is what its own text parses into is canonical.
pub proof fn theorem_returning_is_canonical(d: Seq<ItemModel>)
    requires
        parse_model(document_text(d)) == Ok::<Seq<ItemModel>, ParseError>(d),
    ensures
        canonical(d),
{
    lemma_returning_is_canonical(d);
}

/// Round trip of a buffer that is canonical once normalized. Where
/// removing the byte-order mark and the carriage returns before line feeds
/// leaves the text of a document with settled pairs, such as parsing
/// builds, parsing the buffer and serializing the tree gives that text.
pub proof fn theorem_round_trip_normalized(raw: Seq<u8>, d: Seq<ItemModel>)
    requires
        scanned_document(d),
        settled_document(d),
        normalize_model(raw) == Ok::<Seq<u8>, ParseError>(document_text(d)),
    ensures
        parse_model(raw) == Ok::<Seq<ItemModel>, ParseError>(d),
        reserialized(raw) == Some(document_text(d)),
{
    lemma_text_rendered(d);
    theorem_normalized(raw);
}

/// Idempotence, and where it ends. A buffer that parses is written as a
/// text; that text is written back as itself exactly if the tree is
/// steady, that is, if every line of the text reads as an entry that is
/// written as that line again. Nothing else makes a second round differ
/// from the first.
pub proof fn theorem_idempotent(raw: Seq<u8>)
    requires
        parse_model(raw) is Ok,
    ensures
        reserialized(raw) matches Some(text) && (reserialized(text) == Some(text) <==> steady(
            parse_model(raw)->Ok_0,
        )),
{
    lemma_parse_scanned(raw);
    lemma_steady_exact(parse_model(raw)->Ok_0);
}

/// The texts that come back unchanged are the texts of steady documents.
/// This is the one half: the text of a steady document, such as parsing
/// builds, is parsed and written back as itself.
pub proof fn theorem_steady_text_returns(d: Seq<ItemModel>)
    requires
        scanned_document(d),
        steady(d),
    ensures
        reserialized(document_text(d)) == Some(document_text(d)),
{
    lemma_steady_exact(d);
}

/// The other half: a buffer that is parsed and written back as itself is
/// the text of a steady document, the one it parses into.
pub proof fn theorem_returning_text_is_steady(x: Seq<u8>)
    requires
        reserialized(x) == Some(x),
    ensures
        parse_model(x) matches Ok(d) && scanned_document(d) && steady(d) && document_text(d) == x,
{
    lemma_parse_scanned(x);
    lemma_steady_exact(parse_model(x)->Ok_0);
}

/// The common case of a steady document: every canonical document is
/// steady.
pub proof fn theorem_canonical_is_steady(d: Seq<ItemModel>)
    requires
        canonical(d),
    ensures
        steady(d),
{
    lemma_parse_rendered(d);
    lemma_steady_exact(d);
}

/// The tree and the stream agree. For every pair that the tree of a
/// buffer holds, the stream of the buffer has a key triple directly
/// followed by a value triple, and the bytes of the buffer between their
/// offsets are the key and the value of the pair. Gives the place of the
/// key triple in the stream.
pub proof fn theorem_pair_in_stream(raw: Seq<u8>, key: Seq<u8>, value: Seq<u8>) -> (j: int)
    requires
        raw.len() <= u32::MAX,
        parse_model(raw) matches Ok(d) && holds_pair(d, key, value),
    ensures
        stream_model(raw) matches Ok(s) && {
            &&& 0 <= j
            &&& j + 6 <= s.len()
            &&& j % 3 == 0
            &&& s[j] == TokenTypes::Key.spec_code()
            &&& s[j + 3] == TokenTypes::Value.spec_code()
            &&& raw.subrange(s[j + 1] as int, s[j + 2] as int) == key
            &&& raw.subrange(s[j + 4] as int, s[j + 5] as int) == value
        },
{
    let tokens = scan_of(raw).tokens;
    let all = entries(raw, tokens);
    let n = all.len() as int;
    lemma_close_holds(draft(all, n), key, value);
    let i = lemma_draft_holds(all, n, key, value);
    lemma_scan_readable(raw);
    assert(all[i] == entry_of(raw, tokens[i]));
    assert(readable(raw, tokens[i]));
    lemma_encode_holds(tokens, n, i);
    let j = encode(tokens, i).len() as int;
    let s = encode(tokens, n);
    match tokens[i] {
        TokenView::Pair { key: key_range, value: value_range } => {
            let these = triple(TokenTypes::Key, key_range) + triple(TokenTypes::Value, value_range);
            assert(token_triples(tokens[i]) == these);
            assert(s.subrange(j, j + 6) == these);
            assert forall|k: int| 0 <= k < 6 implies s[j + k] == these[k] by {
                assert(s.subrange(j, j + 6)[k] == s[j + k]);
            }
            assert(these[0] == TokenTypes::Key.spec_code());
            assert(these[1] == key_range.start as u32);
            assert(these[2] == key_range.end as u32);
            assert(these[3] == TokenTypes::Value.spec_code());
            assert(these[4] == value_range.start as u32);
            assert(these[5] == value_range.end as u32);
        },
        _ => {},
    }
    j
}

} // verus!
