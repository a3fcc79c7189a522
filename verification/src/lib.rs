//! A parser for CommonMark documents with the table extension of GitHub, from bytes to a tree of
//! blocks and inline nodes.
pub mod closing;
pub mod consolidate;
pub mod continuing;
pub mod ctype;
pub mod cursor;
pub mod defining;
pub mod document;
pub mod ending;
pub mod extension;
pub mod filling;
pub mod history;
pub mod html;
pub mod inlines;
pub mod laws;
pub mod lines;
pub mod linking;
pub mod list_marker;
pub mod marks;
pub mod model;
pub mod nesting;
pub mod nodes;
pub mod options;
pub mod parser;
pub mod preserved;
pub mod reading;
pub mod references;
pub mod scanners;
pub mod spine;
pub mod starting;
pub mod strings;
pub mod table;
pub mod tabling;
pub mod texts;
pub mod tightness;
pub mod tree;
pub mod unwrap;
pub mod utf8;

pub use document::AstNode;
pub use inlines::{InlineSyntax, PlainText};
pub use options::ComrakOptions;
pub use parser::{parse_document, Parser};
pub use references::{Reference, MAXBACKTICKS, MAX_LINK_LABEL_LENGTH};
pub use unwrap::{unwrap_into, unwrap_into_copy};
