//! A structural source-code extraction, rewrite, and annotation engine.
//!
//! Given a parsed syntax tree and a declarative query over that tree's
//! grammar, the engine extracts named sub-trees as structured records,
//! optionally rewrites matched text through a template-substitution
//! directive applied to a fixpoint, and produces a byte-level annotated
//! copy of the source that overlays independent categories of syntactic
//! information (comment removal, scope markers, token wrapping) as
//! inline tags.
//!
//! Parsing and query compilation are consumed from an external
//! parser/query collaborator; the engine itself works over plain byte
//! buffers and plain capture records.

pub mod errors;
pub mod extract;
pub mod markup;
pub mod provider;
pub mod report;
pub mod split;
pub mod substitute;
