//! The two ways to parse a buffer: into a document tree, and into a flat
//! stream of tokens that point back into the buffer.

use vstd::prelude::*;
use vstd::utf8::valid_utf8;
use crate::ast::{EditorConfigINIAST, ItemModel, VERSION};
use crate::builder::{build, build_tree, entries, readable};
use crate::bytes::{bom_len, mark_len, payload};
use crate::canonical::scanned_document;
use crate::encoder::{encode, encode_tokens};
use crate::error::{fault_error, Fault, ParseError};
use crate::scanner::{
    clean_token, lemma_clean_is_valid, lemma_scan_clean, scan_from, scan_text, ScanView,
};
use crate::shape::lemma_parse_scanned;
use crate::text::checked_text;
use crate::token::{Extent, TokenView};

verus! {

/// The scan of the buffer `raw`: that of its text behind a byte-order
/// mark, with offsets into `raw` itself and lines counted from 1.
pub open spec fn scan_of(raw: Seq<u8>) -> ScanView {
    scan_text(payload(raw), bom_len(raw), 1)
}

/// What parsing `raw` into a tree gives. A buffer that is not UTF-8 behind
/// its byte-order mark is an encoding error. A line that the scanner does
/// not accept is the error of that line. Otherwise the tokens of the scan
/// make the document.
pub open spec fn parse_model(raw: Seq<u8>) -> Result<Seq<ItemModel>, ParseError> {
    if !valid_utf8(payload(raw)) {
        Err(ParseError::Encoding)
    } else {
        match scan_of(raw).stop {
            Some((fault, line)) => Err(fault_error(fault, line)),
            None => Ok(build(entries(raw, scan_of(raw).tokens))),
        }
    }
}

/// What parsing gives for a text with no byte-order mark to pass over.
/// `parse_model` is this of the text behind the mark.
pub open spec fn text_model(t: Seq<u8>) -> Result<Seq<ItemModel>, ParseError> {
    if !valid_utf8(t) {
        Err(ParseError::Encoding)
    } else {
        match scan_text(t, 0, 1).stop {
            Some((fault, line)) => Err(fault_error(fault, line)),
            None => Ok(build(entries(t, scan_text(t, 0, 1).tokens))),
        }
    }
}

/// What parsing `raw` into a flat stream gives. Errors are those of
/// `parse_model`, but for a header that is not closed: there the stream
/// ends with the tokens of the lines before it.
pub open spec fn stream_model(raw: Seq<u8>) -> Result<Seq<u32>, ParseError> {
    if !valid_utf8(payload(raw)) {
        Err(ParseError::Encoding)
    } else {
        let tokens = scan_of(raw).tokens;
        match scan_of(raw).stop {
            Some((fault, line)) if fault != Fault::UnterminatedSection => Err(
                fault_error(fault, line),
            ),
            _ => Ok(encode(tokens, tokens.len() as int)),
        }
    }
}

/// A range of the text of `raw` covers the same bytes in `raw`, moved
/// behind the byte-order mark.
pub proof fn lemma_payload_range(raw: Seq<u8>, range: Extent)
    requires
        range.within(payload(raw).len() as int),
    ensures
        range.shift(bom_len(raw)).within(raw.len() as int),
        range.shift(bom_len(raw)).of(raw) == range.of(payload(raw)),
{
}

/// Every token of the scan of a UTF-8 buffer lies in the buffer and covers
/// UTF-8.
pub proof fn lemma_scan_readable(raw: Seq<u8>)
    requires
        valid_utf8(payload(raw)),
    ensures
        forall|i: int|
            0 <= i < scan_of(raw).tokens.len() ==> readable(raw, #[trigger] scan_of(raw).tokens[i]),
{
    let t = payload(raw);
    let base = bom_len(raw);
    lemma_scan_clean(t, base, 1);
    assert forall|i: int| 0 <= i < scan_of(raw).tokens.len() implies readable(
        raw,
        #[trigger] scan_of(raw).tokens[i],
    ) by {
        let token = scan_of(raw).tokens[i];
        let inner = token.shift(-base);
        assert(clean_token(t, inner));
        match inner {
            TokenView::Section { name } => {
                lemma_payload_range(raw, name);
                lemma_clean_is_valid(t, name);
            },
            TokenView::Comment { indicator, value } => {
                lemma_payload_range(raw, value);
                lemma_clean_is_valid(t, value);
                assert(t[indicator] == raw[indicator + base]);
            },
            TokenView::Pair { key, value } => {
                lemma_payload_range(raw, key);
                lemma_clean_is_valid(t, key);
                lemma_payload_range(raw, value);
                lemma_clean_is_valid(t, value);
            },
        }
        assert(inner.shift(base) == token);
    }
}

/// Parses `contents` into a document tree. The tree holds the prelude
/// before the sections, and no section inside a section.
pub fn parse(contents: &[u8]) -> (r: Result<EditorConfigINIAST, ParseError>)
    ensures
        match parse_model(contents@) {
            Ok(items) => r is Ok && r->Ok_0.model() == items && r->Ok_0.version@ == VERSION@,
            Err(e) => r == Err::<EditorConfigINIAST, ParseError>(e),
        },
        r matches Ok(document) ==> scanned_document(document.model()),
{
    proof {
        lemma_parse_scanned(contents@);
    }
    let from: usize = mark_len(contents);
    let text: &[u8] = vstd::slice::slice_subrange(contents, from, contents.len());
    if checked_text(text).is_none() {
        return Err(ParseError::Encoding);
    }
    let scan = scan_from(contents, from);
    match scan.stop {
        Some(e) => Err(e),
        None => {
            proof {
                lemma_scan_readable(contents@);
                assert forall|i: int| 0 <= i < scan.tokens@.len() implies readable(
                    contents@,
                    #[trigger] scan.tokens@[i]@,
                ) by {
                    assert(scan_of(contents@).tokens[i] == scan.tokens@[i]@);
                }
            }
            let body = build_tree(contents, &scan.tokens);
            Ok(EditorConfigINIAST::new(body))
        },
    }
}

/// Parses `contents` into a flat stream of tokens: for each piece of text
/// a tag and the offsets between which it lies in `contents`.
pub fn parse_to_vec(contents: &[u8]) -> (r: Result<Vec<u32>, ParseError>)
    requires
        contents@.len() <= u32::MAX,
    ensures
        match stream_model(contents@) {
            Ok(stream) => r is Ok && r->Ok_0@ == stream,
            Err(e) => r == Err::<Vec<u32>, ParseError>(e),
        },
{
    let from: usize = mark_len(contents);
    let text: &[u8] = vstd::slice::slice_subrange(contents, from, contents.len());
    if checked_text(text).is_none() {
        return Err(ParseError::Encoding);
    }
    let scan = scan_from(contents, from);
    proof {
        lemma_scan_readable(contents@);
        assert forall|i: int| 0 <= i < scan.tokens@.len() implies (#[trigger] scan.tokens@[i]@).within(
            u32::MAX as int,
        ) by {
            assert(scan_of(contents@).tokens[i] == scan.tokens@[i]@);
            assert(readable(contents@, scan_of(contents@).tokens[i]));
        }
    }
    match scan.stop {
        Some(ParseError::UnterminatedSection { line: _ }) => Ok(encode_tokens(&scan.tokens)),
        Some(e) => Err(e),
        None => Ok(encode_tokens(&scan.tokens)),
    }
}

} // verus!
