//! What the scanner hands on: one token for each line that carries
//! something, with byte offsets in place of copied text.

use vstd::prelude::*;
use crate::error::Fault;

verus! {

/// A half-open range of byte offsets, as the contracts see it.
pub struct Extent {
    pub start: int,
    pub end: int,
}

impl Extent {
    /// The same range, moved `by` bytes to the right.
    pub open spec fn shift(self, by: int) -> Extent {
        Extent { start: self.start + by, end: self.end + by }
    }

    /// True when the range lies inside a text of `len` bytes.
    pub open spec fn within(self, len: int) -> bool {
        0 <= self.start <= self.end <= len
    }

    /// The bytes of `t` that the range covers.
    pub open spec fn of(self, t: Seq<u8>) -> Seq<u8> {
        t.subrange(self.start, self.end)
    }

    /// The number of bytes in the range.
    pub open spec fn len(self) -> int {
        self.end - self.start
    }
}

/// A token as the contracts see it.
pub enum TokenView {
    /// A section header; `name` covers the text between the brackets.
    Section { name: Extent },
    /// A comment; `indicator` is the offset of `#` or `;`.
    Comment { indicator: int, value: Extent },
    /// A key and its value.
    Pair { key: Extent, value: Extent },
}

impl TokenView {
    /// The same token, moved `by` bytes to the right.
    pub open spec fn shift(self, by: int) -> TokenView {
        match self {
            TokenView::Section { name } => TokenView::Section { name: name.shift(by) },
            TokenView::Comment { indicator, value } => TokenView::Comment {
                indicator: indicator + by,
                value: value.shift(by),
            },
            TokenView::Pair { key, value } => TokenView::Pair {
                key: key.shift(by),
                value: value.shift(by),
            },
        }
    }

    /// True when every offset of the token lies inside a text of `len`
    /// bytes.
    pub open spec fn within(self, len: int) -> bool {
        match self {
            TokenView::Section { name } => name.within(len),
            TokenView::Comment { indicator, value } => 0 <= indicator < len && value.within(len),
            TokenView::Pair { key, value } => key.within(len) && value.within(len),
        }
    }
}

/// What one line turns out to be, as the contracts see it.
pub enum LineView {
    /// Nothing but padding.
    Blank,
    /// A header, a comment or a pair.
    Item(TokenView),
    /// A line the dialect does not allow.
    Bad(Fault),
}

impl LineView {
    /// The same line, with its offsets moved `by` bytes to the right.
    pub open spec fn shift(self, by: int) -> LineView {
        match self {
            LineView::Item(token) => LineView::Item(token.shift(by)),
            other => other,
        }
    }
}

/// A half-open range of byte offsets into the scanned buffer.
#[derive(Clone, Copy, Debug, PartialEq, Eq, Structural)]
pub struct Span {
    pub start: usize,
    pub end: usize,
}

impl View for Span {
    type V = Extent;

    open spec fn view(&self) -> Extent {
        Extent { start: self.start as int, end: self.end as int }
    }
}

/// One structural token of the scanned buffer.
#[derive(Clone, Copy, Debug, PartialEq, Eq, Structural)]
pub enum Token {
    /// A section header; `name` covers the text between the brackets.
    Section { name: Span },
    /// A comment; `indicator` is the offset of `#` or `;`.
    Comment { indicator: usize, value: Span },
    /// A key and its value.
    Pair { key: Span, value: Span },
}

impl View for Token {
    type V = TokenView;

    open spec fn view(&self) -> TokenView {
        match *self {
            Token::Section { name } => TokenView::Section { name: name@ },
            Token::Comment { indicator, value } => TokenView::Comment {
                indicator: indicator as int,
                value: value@,
            },
            Token::Pair { key, value } => TokenView::Pair { key: key@, value: value@ },
        }
    }
}

/// What the scanner makes of one line.
#[derive(Clone, Copy, Debug, PartialEq, Eq, Structural)]
pub enum Line {
    /// Nothing but padding.
    Blank,
    /// A header, a comment or a pair.
    Item(Token),
    /// A line the dialect does not allow.
    Bad(Fault),
}

impl View for Line {
    type V = LineView;

    open spec fn view(&self) -> LineView {
        match *self {
            Line::Blank => LineView::Blank,
            Line::Item(token) => LineView::Item(token@),
            Line::Bad(fault) => LineView::Bad(fault),
        }
    }
}

/// The views of a run of tokens.
pub open spec fn token_views(tokens: Seq<Token>) -> Seq<TokenView> {
    Seq::new(tokens.len(), |i: int| tokens[i]@)
}

} // verus!
