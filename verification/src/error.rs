//! The closed set of failures this library reports: parse failures with the
//! line they were found on, a rejected document shape, and the recoverable
//! lookup failures of the `try_get_*` accessors.

use vstd::prelude::*;

verus! {

/// `std::io::Error` is held opaquely inside [`Error::IOError`]; the library
/// never constructs or inspects one, it only carries what an unverified I/O
/// caller hands in.
#[verifier::external_type_specification]
#[verifier::external_body]
pub struct ExIoError(std::io::Error);

/// A fatal flaw found while parsing; carried inside [`Error::ParseError`]
/// together with the number of newlines before the position of the flaw.
#[derive(Debug)]
pub enum ParseError {
    /// An element was opened but its `</tag>` was never found.
    MissingClosingTag(String),
    /// A `<` with no `>` after it.
    MissingClosingDelimiter,
    /// An attribute token with no `=` in it.
    MissingAttributeValue(String),
    /// An attribute value not wrapped in straight double quotes.
    MissingQuotes(String),
}

/// Everything a library operation can fail with.
#[derive(Debug)]
pub enum Error {
    /// Opaque passthrough for an I/O collaborator; never produced here.
    IOError(std::io::Error),
    /// Parsing failed: the kind of flaw and the newline count before it.
    ParseError(ParseError, usize),
    /// Non-whitespace text stood before the root element.
    ContentOutsideRoot,
    /// `try_get_nodes` found no child group: holds the parent tag and the
    /// requested tag.
    TagNotFound(String, String),
    /// `try_get_attribute` found no attribute: holds the parent tag and the
    /// requested key.
    AttributeNotFound(String, String),
}

/// Mathematical image of [`ParseError`]: the same variants over `Seq<char>`.
pub ghost enum ParseErrorV {
    MissingClosingTag(Seq<char>),
    MissingClosingDelimiter,
    MissingAttributeValue(Seq<char>),
    MissingQuotes(Seq<char>),
}

impl View for ParseError {
    type V = ParseErrorV;

    open spec fn view(&self) -> ParseErrorV {
        match self {
            ParseError::MissingClosingTag(t) => ParseErrorV::MissingClosingTag(t@),
            ParseError::MissingClosingDelimiter => ParseErrorV::MissingClosingDelimiter,
            ParseError::MissingAttributeValue(t) => ParseErrorV::MissingAttributeValue(t@),
            ParseError::MissingQuotes(t) => ParseErrorV::MissingQuotes(t@),
        }
    }
}

} // verus!
