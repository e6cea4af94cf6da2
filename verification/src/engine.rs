//! The syntax engine: tree-sitter with the org grammar, behind trusted
//! declarations. A note's concrete syntax tree is recomputed from its
//! buffer after every successful text update; the tree value itself is
//! opaque here, and the contracts tie each tree to the source text it was
//! parsed from.

use vstd::prelude::*;

verus! {

#[verifier::external_type_specification]
#[verifier::external_body]
pub struct ExParser(tree_sitter::Parser);

#[verifier::external_type_specification]
#[verifier::external_body]
pub struct ExTree(tree_sitter::Tree);

/// The largest buffer handed to the parser: the binding reports each
/// chunk's length in 32 bits, so longer text would be silently truncated
/// at parse.
pub const MAX_PARSE_BYTES: u64 = 0x100000000;

/// The source text a syntax tree was parsed from.
pub uninterp spec fn tree_text(t: tree_sitter::Tree) -> Seq<u8>;

/// Whether a parser is the org parser as this crate configures it: the org
/// grammar assigned, and neither a timeout nor a cancellation flag set.
pub uninterp spec fn is_org_parser(p: tree_sitter::Parser) -> bool;

/// Relies on tree_sitter::Parser::new and Parser::set_language: a fresh
/// parser carries no timeout and no cancellation flag, and set_language
/// either assigns the handed grammar or fails on a version mismatch.
#[verifier::external_body]
pub fn make_org_parser() -> (r: Option<tree_sitter::Parser>)
    ensures
        match r {
            Some(p) => is_org_parser(p),
            None => true,
        },
{
    let mut p = tree_sitter::Parser::new();
    match p.set_language(tree_sitter_org::language()) {
        Ok(()) => Some(p),
        Err(_) => None,
    }
}

/// Relies on tree_sitter::Parser::parse: the returned tree is parsed from
/// exactly the text handed in, and the call returns None only when no
/// language is assigned, a timeout expired, or a cancellation flag was
/// flipped — none of which can hold for a parser from make_org_parser,
/// whose language, timeout and cancellation state parsing never changes.
/// The binding hands the parser the text in chunks whose length it
/// reports in 32 bits, so text at or over 2^32 bytes would be truncated;
/// the length bound excludes it.
#[verifier::external_body]
pub fn parse_org(p: &mut tree_sitter::Parser, text: &Vec<u8>) -> (r: tree_sitter::Tree)
    requires
        is_org_parser(*old(p)),
        text@.len() < MAX_PARSE_BYTES,
    ensures
        is_org_parser(*final(p)),
        tree_text(r) == text@,
{
    p.parse(text.as_slice(), None).expect("a parser with a language assigned yields a tree")
}

/// Relies on tree_sitter::Tree::root_node, Node::start_byte and
/// Node::end_byte: the root node of a tree ends at the source length (the
/// end-of-input leaf stays inside it), while its start may sit past
/// leading blanks that the lexer skipped; only the span's order and its
/// end are stated.
#[verifier::external_body]
pub fn tree_span(t: &tree_sitter::Tree) -> (r: (usize, usize))
    ensures
        r.0 <= r.1,
        r.1 == tree_text(*t).len(),
{
    let n = t.root_node();
    (n.start_byte(), n.end_byte())
}

} // verus!
