//! Parsing and serialization of EditorConfig-INI text.
//!
//! A buffer is scanned line by line into tokens that point back into it.
//! From the tokens come either a document tree, which can be turned back
//! into text, or a flat stream of numbers for a host that slices the buffer
//! itself.
//!
//! # The dialect
//!
//! - A byte-order mark at the start of the buffer is passed over. What
//!   follows has to be UTF-8.
//! - A line ends at a line feed, at a carriage return, or at a carriage
//!   return and a line feed in a row.
//! - Space and tab are padding. A line of padding is blank and says nothing.
//! - A line whose first byte behind the padding is `[` is a section header;
//!   it has to end in `]`, and the name is what stands between the two.
//! - A line that begins with `#` or `;` is a comment; its value begins
//!   behind the indicator and one space, if there is one.
//! - Any other line is a pair. The first `=` without a backslash before it
//!   splits it into a key of at most 50 bytes and a value of at most 255,
//!   both without the padding around them.
//!
//! # The two results
//!
//! [`parse`] builds the tree and fails on the first line that is none of the
//! above. [`parse_to_vec`] writes the flat stream; it fails on the same
//! lines, but for a header that is not closed: the stream ends before such
//! a header and says nothing of what follows.
//!
//! # Writing a tree
//!
//! A pair is written as key, `=` and value, each without the white space at
//! its ends; white space here is every character with the Unicode property
//! White_Space, which is more than the scanner takes for padding. A comment
//! is written as indicator, one space and value, a section as its name in
//! brackets and then its body, and a blank line stands before every section
//! but one that comes first.
//!
//! # What is proved
//!
//! Every function states what it returns. The module `theorems` states what
//! parsing and serializing do together:
//!
//! - the text of a canonical document parses into that document, and no
//!   other document is what its own text parses into;
//! - a text comes back unchanged from parsing and writing exactly if it is
//!   the text of a steady document, and so a second round of parsing and
//!   writing changes nothing exactly where the tree of the first is steady;
//! - every pair of the tree is found in the stream.
//!
//! The module `normalized` shows that a buffer parses into the same tree
//! before and after it is normalized, and that a byte-order mark makes no
//! difference.

pub mod ast;
pub mod builder;
pub mod bytes;
pub mod canonical;
pub mod correspondence;
pub mod encoder;
pub mod error;
pub mod fixpoint;
pub mod lines;
pub mod normalize;
pub mod normalized;
pub mod parser;
pub mod reading;
pub mod render;
pub mod roundtrip;
pub mod scanner;
pub mod shape;
pub mod steady;
pub mod text;
pub mod theorems;
pub mod token;

pub use crate::ast::{Comment, EditorConfigINIAST, Item, Pair, Section, VERSION};
pub use crate::encoder::TokenTypes;
pub use crate::error::{Fault, ParseError};
pub use crate::normalize::normalize;
pub use crate::parser::{parse, parse_to_vec};
pub use crate::scanner::{scan, Scan};
pub use crate::token::{Span, Token};
