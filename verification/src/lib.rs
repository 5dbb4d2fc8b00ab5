//! Recognition of Quelle statements. A statement is matched against the
//! Quelle grammar, the derivation is rewritten into a tree of labelled nodes,
//! and the tree, or the error, is answered in an envelope. Nothing is
//! executed or evaluated: statements are recognised and given structure.
//!
//! - [`grammar`] holds the text of the grammar, and [`engine`] hands it to
//!   the grammar engine and brings back what the engine made of an input.
//! - [`derivation`] rebuilds the nesting of the matches from the engine's
//!   tokens, and [`tree`] rewrites the matches into canonical nodes, with
//!   [`label`] for the identifiers of the rules.
//! - [`envelope`] words the errors and builds the answers.
//! - [`revision`] lets the grammar confirm the revisions that it accepts.
//! - [`boundary`] reads statements that come from foreign code.

pub mod boundary;
pub mod derivation;
pub mod engine;
pub mod envelope;
pub mod grammar;
pub mod label;
pub mod revision;
pub mod tree;

pub use envelope::{error_envelope, get_parse, get_parse_raw, raw_envelope, structured_envelope};
pub use envelope::{ErrorKind, ErrorOnly, ParseResult, RawParseResult, RootParse};
pub use revision::{
    assert_grammar_revision_internal, assert_structured_revision_internal, get_library_revision,
};
pub use tree::Parsed;
