//! A minimal XML document model: a recursive-descent parser from text to an
//! in-memory tree, tag-indexed child lookup and mutation on the tree, and a
//! serializer back to text (compact and indented forms).

use vstd::prelude::*;

pub mod error;
pub mod node;
pub mod parser;
pub mod split_unquoted;
pub mod text;

pub use error::Error;
pub use error::ParseError;
pub use node::new;
pub use node::new_filled;
pub use node::Node;
pub use node::NodeV;
pub use parser::from_string;

verus! {

/// Whitespace as this library understands it: the four ASCII blank
/// characters. Unicode-only whitespace is ordinary text here — a deliberate
/// narrowing, in keeping with the ASCII documents this library is meant for.
pub open spec fn is_space_char(c: char) -> bool {
    c == ' ' || c == '\t' || c == '\n' || c == '\r'
}

/// Executable test for [`is_space_char`].
pub fn is_space(c: char) -> (r: bool)
    ensures
        r == is_space_char(c),
{
    c == ' ' || c == '\t' || c == '\n' || c == '\r'
}

} // verus!
