//! Lossless lexer, parser and typed syntax tree for Dockerfiles.
//!
//! - [`kind`]: every kind of token and node ([`SyntaxKind`]).
//! - [`lexer`]: the token stream of a source text.
//! - [`directive`]: the leading parser-directive block.
//! - [`grammar`] and [`parser`]: the events of the syntax tree.
//! - [`tree`], [`green`] and [`document`]: the syntax tree and the `rowan`
//!   green tree of a parse ([`parse`]).
//! - [`ast`]: typed views of the tree's nodes.

pub mod ast;
pub mod chars;
pub mod diagnostics;
pub mod directive;
pub mod document;
pub mod fmt_text;
pub mod grammar;
pub mod green;
pub mod kind;
pub mod lexer;
pub mod lossless;
pub mod node_values;
pub mod parser;
pub mod placement;
pub mod text_range;
pub mod tree;
pub mod utf8_text;
pub mod words;

pub use diagnostics::{range, Diagnostic, Severity};
pub use directive::{scan_directives, DirectiveScan, ParserDirective};
pub use document::{assert_round_trips, parse, Parse};
pub use kind::{DockerfileLanguage, SyntaxKind};
pub use lexer::{lex, lex_with_escape, Lexer, Token, DEFAULT_ESCAPE};
pub use parser::recognize_instruction;
pub use text_range::TextRange;
pub use tree::{SyntaxElement, SyntaxNode, SyntaxToken};
