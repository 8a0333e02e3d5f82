//! The boundary to the external parser/query collaborator.
//!
//! The engine consumes a syntax provider: it parses bytes into a tree
//! and runs a compiled query against a tree, yielding matches, each a
//! sequence of captures with a kind tag, a byte range, a row/column
//! range and a capture index.  Everything the engine reads out of the
//! collaborator is converted here into plain values (`RawMatch`,
//! `RawCapture`, `RawPredicate`); all logic over those values is
//! verified elsewhere in this crate.

use tree_sitter::StreamingIterator;
use vstd::prelude::*;
use vstd::utf8::valid_utf8;

verus! {

#[verifier::external_type_specification]
#[verifier::external_body]
pub struct ExLanguage(tree_sitter::Language);

#[verifier::external_type_specification]
#[verifier::external_body]
pub struct ExParser(tree_sitter::Parser);

#[verifier::external_type_specification]
#[verifier::external_body]
pub struct ExTree(tree_sitter::Tree);

#[verifier::external_type_specification]
#[verifier::external_body]
pub struct ExQuery(tree_sitter::Query);

#[verifier::external_type_specification]
#[verifier::external_body]
pub struct ExLanguageError(tree_sitter::LanguageError);

#[verifier::external_type_specification]
#[verifier::external_body]
pub struct ExQueryError(tree_sitter::QueryError);

/// A row/column position as reported by the syntax provider, 0-indexed.
#[derive(Clone, Copy, Debug, PartialEq, Eq, Structural)]
pub struct Point {
    pub row: usize,
    pub column: usize,
}

/// One capture as the syntax provider reports it: the index of its
/// capture slot within the query, the node's kind tag, its byte range
/// and its row/column range.
#[derive(Clone, Debug)]
pub struct RawCapture {
    pub index: usize,
    pub kind: Vec<u8>,
    pub start_byte: usize,
    pub end_byte: usize,
    pub start: Point,
    pub end: Point,
}

/// One application of a query pattern: an ordered sequence of captures
/// in the provider's deterministic traversal order.
#[derive(Clone, Debug)]
pub struct RawMatch {
    pub captures: Vec<RawCapture>,
}

/// One argument of a query predicate: either a reference to a capture
/// slot or a literal string.
#[derive(Clone, Debug)]
pub enum RawPredicateArg {
    Capture(usize),
    Literal(Vec<u8>),
}

/// One predicate attached to a query pattern, as an operator name and
/// its arguments.  Operator names the engine does not recognize are
/// passed through unrecognized.
#[derive(Clone, Debug)]
pub struct RawPredicate {
    pub operator: Vec<u8>,
    pub args: Vec<RawPredicateArg>,
}

/// Relies on tree_sitter::Parser::set_language to bind a grammar to the
/// parser, failing when the grammar's version is incompatible.
#[verifier::external_body]
pub(crate) fn parser_set_language(
    parser: &mut tree_sitter::Parser,
    language: &tree_sitter::Language,
) -> Result<(), tree_sitter::LanguageError> {
    parser.set_language(language)
}

/// Relies on tree_sitter::Parser::parse to produce a tree for the given
/// bytes, or `None` when no language was set or parsing was cancelled.
#[verifier::external_body]
pub(crate) fn parser_parse(
    parser: &mut tree_sitter::Parser,
    source: &[u8],
) -> Option<tree_sitter::Tree> {
    parser.parse(source, None)
}

/// Relies on tree_sitter::Query::new to compile a pattern for a
/// grammar, failing on a malformed pattern or a grammar mismatch.
#[verifier::external_body]
pub(crate) fn query_new(
    language: &tree_sitter::Language,
    pattern: &str,
) -> Result<tree_sitter::Query, tree_sitter::QueryError> {
    tree_sitter::Query::new(language, pattern)
}

/// Relies on tree_sitter::Query::capture_names: the names of the
/// query's capture slots, addressed by capture index.
#[verifier::external_body]
pub(crate) fn query_capture_names(query: &tree_sitter::Query) -> Vec<Vec<u8>> {
    query.capture_names().iter().map(|n| n.as_bytes().to_vec()).collect()
}

/// Relies on tree_sitter::Query::general_predicates (and
/// tree_sitter::Query::pattern_count for its index range): the
/// predicates of every pattern whose operator is not built into the
/// provider, in pattern order.
#[verifier::external_body]
pub(crate) fn query_general_predicates(query: &tree_sitter::Query) -> Vec<RawPredicate> {
    let mut out = Vec::new();
    for i in 0..query.pattern_count() {
        for p in query.general_predicates(i) {
            let args = p.args.iter().map(|a| match a {
                tree_sitter::QueryPredicateArg::Capture(c) => RawPredicateArg::Capture(*c as usize),
                tree_sitter::QueryPredicateArg::String(s) => RawPredicateArg::Literal(s.as_bytes().to_vec()),
            }).collect();
            out.push(RawPredicate { operator: p.operator.as_bytes().to_vec(), args });
        }
    }
    out
}

/// Relies on tree_sitter::QueryCursor::matches (with the source as text
/// provider, so that the provider's own text predicates are honoured)
/// and on the node accessors kind, start_byte, end_byte, start_position
/// and end_position.  Matches come in the provider's traversal order.
#[verifier::external_body]
pub(crate) fn run_query(
    query: &tree_sitter::Query,
    tree: &tree_sitter::Tree,
    source: &[u8],
) -> Vec<RawMatch> {
    let mut cursor = tree_sitter::QueryCursor::new();
    let mut it = cursor.matches(query, tree.root_node(), source);
    let mut out = Vec::new();
    while let Some(m) = it.next() {
        out.push(RawMatch { captures: m.captures().iter().map(|c| {
            let (n, s, e) = (c.node, c.node.start_position(), c.node.end_position());
            RawCapture {
                index: c.index as usize, kind: n.kind().as_bytes().to_vec(),
                start_byte: n.start_byte(), end_byte: n.end_byte(),
                start: Point { row: s.row, column: s.column },
                end: Point { row: e.row, column: e.column },
            }
        }).collect() });
    }
    out
}

/// Relies on core::str::from_utf8: it succeeds exactly on valid UTF-8.
#[verifier::external_body]
pub(crate) fn is_valid_text(bytes: &[u8]) -> (r: bool)
    ensures
        r == valid_utf8(bytes@),
{
    core::str::from_utf8(bytes).is_ok()
}

/// The digest that the external hash computes for a byte sequence; a
/// function of the bytes alone.
pub uninterp spec fn md5_of(bytes: Seq<u8>) -> Seq<u8>;

/// Relies on md5::compute: a 16-byte digest depending on the input
/// bytes alone.
#[verifier::external_body]
pub(crate) fn content_digest(bytes: &[u8]) -> (r: Vec<u8>)
    ensures
        r@ == md5_of(bytes@),
        r@.len() == 16,
{
    md5::compute(bytes).0.to_vec()
}

} // verus!
