//! A recursive-descent parser for a simplified markup dialect, together with
//! the document-tree model it builds.
//!
//! The entry point is [`parser::Parser::parse`], which scans a complete text
//! buffer and returns one root [`dom::Node`].  The meaning of parsing is given
//! by the spec functions in [`grammar`], and the parser is verified to agree
//! with them on every input.

pub mod dom;
pub mod grammar;
pub mod laws;
pub mod parser;

pub use dom::AttrMap;
pub use dom::ElementData;
pub use dom::Node;
pub use dom::NodeType;
pub use dom::elem;
pub use dom::text;
pub use grammar::ParseError;
pub use parser::Parser;
