//! The flat token stream: three numbers for each piece of text, a tag and
//! the two offsets between which the text lies in the scanned buffer.

use vstd::prelude::*;
use crate::token::{token_views, Extent, Span, Token, TokenView};

verus! {

/// The tags of the flat token stream.
#[derive(Clone, Copy, Debug, PartialEq, Eq, Structural)]
pub enum TokenTypes {
    /// The key of a pair.
    Key,
    /// The value of a pair.
    Value,
    /// The name of a section.
    Section,
    /// The `#` or `;` of a comment.
    CommentIndicator,
    /// The text of a comment.
    CommentValue,
}

impl TokenTypes {
    /// The number that stands for the tag in the stream.
    pub open spec fn spec_code(self) -> u32 {
        match self {
            TokenTypes::Key => 0,
            TokenTypes::Value => 1,
            TokenTypes::Section => 2,
            TokenTypes::CommentIndicator => 3,
            TokenTypes::CommentValue => 4,
        }
    }

    /// The number that stands for the tag in the stream.
    #[verifier::when_used_as_spec(spec_code)]
    pub fn code(self) -> (r: u32)
        ensures
            r == self.spec_code(),
    {
        match self {
            TokenTypes::Key => 0,
            TokenTypes::Value => 1,
            TokenTypes::Section => 2,
            TokenTypes::CommentIndicator => 3,
            TokenTypes::CommentValue => 4,
        }
    }
}

/// One triple of the stream.
pub open spec fn triple(kind: TokenTypes, range: Extent) -> Seq<u32> {
    seq![kind.spec_code(), range.start as u32, range.end as u32]
}

/// The triples of one token: one for a section, its name; two for a pair,
/// key then value; two for a comment, the indicator, one byte long, then
/// the value.
pub open spec fn token_triples(token: TokenView) -> Seq<u32> {
    match token {
        TokenView::Section { name } => triple(TokenTypes::Section, name),
        TokenView::Comment { indicator, value } => triple(
            TokenTypes::CommentIndicator,
            Extent { start: indicator, end: indicator + 1 },
        ) + triple(TokenTypes::CommentValue, value),
        TokenView::Pair { key, value } => triple(TokenTypes::Key, key) + triple(
            TokenTypes::Value,
            value,
        ),
    }
}

/// The stream of the first `n` of `tokens`.
pub open spec fn encode(tokens: Seq<TokenView>, n: int) -> Seq<u32>
    decreases n,
{
    if 0 < n <= tokens.len() {
        encode(tokens, n - 1) + token_triples(tokens[n - 1])
    } else {
        Seq::empty()
    }
}

/// Appends one triple.
fn push_triple(out: &mut Vec<u32>, kind: TokenTypes, range: Span)
    requires
        range.end <= u32::MAX,
        range.start <= range.end,
    ensures
        final(out)@ == old(out)@ + triple(kind, range@),
{
    out.push(kind.code());
    out.push(range.start as u32);
    out.push(range.end as u32);
    assert(out@ == old(out)@ + triple(kind, range@));
}

/// Writes the flat stream of `tokens`.
pub fn encode_tokens(tokens: &Vec<Token>) -> (r: Vec<u32>)
    requires
        forall|i: int| 0 <= i < tokens@.len() ==> (#[trigger] tokens@[i]@).within(u32::MAX as int),
    ensures
        r@ == encode(token_views(tokens@), tokens@.len() as int),
{
    let ghost views = token_views(tokens@);
    let mut out: Vec<u32> = Vec::new();
    let mut i: usize = 0;
    while i < tokens.len()
        invariant
            i <= tokens@.len(),
            views == token_views(tokens@),
            forall|k: int|
                0 <= k < tokens@.len() ==> (#[trigger] tokens@[k]@).within(u32::MAX as int),
            out@ == encode(views, i as int),
        decreases tokens@.len() - i,
    {
        let ghost before = out@;
        assert(views[i as int] == tokens@[i as int]@);
        assert(tokens@[i as int]@.within(u32::MAX as int));
        match tokens[i] {
            Token::Section { name } => {
                push_triple(&mut out, TokenTypes::Section, name);
            },
            Token::Comment { indicator, value } => {
                push_triple(
                    &mut out,
                    TokenTypes::CommentIndicator,
                    Span { start: indicator, end: indicator + 1 },
                );
                push_triple(&mut out, TokenTypes::CommentValue, value);
            },
            Token::Pair { key, value } => {
                push_triple(&mut out, TokenTypes::Key, key);
                push_triple(&mut out, TokenTypes::Value, value);
            },
        }
        assert(out@ == before + token_triples(views[i as int]));
        i = i + 1;
    }
    out
}

} // verus!
