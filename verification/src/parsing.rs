//! Reading a line with a tree-sitter parser into a `SyntaxTree`.
use vstd::prelude::*;
use crate::syntax::{valid_preorder, SyntaxNode, SyntaxTree};

verus! {

#[verifier::external_type_specification]
#[verifier::external_body]
pub struct ExParser(tree_sitter::Parser);

#[verifier::external_type_specification]
#[verifier::external_body]
pub struct ExTree(tree_sitter::Tree);

#[verifier::external_type_specification]
#[verifier::external_body]
pub struct ExNode<'tree>(tree_sitter::Node<'tree>);

#[verifier::external_type_specification]
#[verifier::external_body]
pub struct ExTreeCursor<'cursor>(tree_sitter::TreeCursor<'cursor>);

/// Why a line could not be read into a syntax tree.
#[derive(Clone, Copy, Debug, PartialEq, Eq, Structural)]
pub enum ParseError {
    /// the parser gave no tree (it has no language)
    NoTree,
    /// the tree holds a syntax error
    SyntaxError,
    /// the depths of the nodes do not describe one tree
    NotATree,
}

/// Calls `tree_sitter::Parser::parse` on `text`, with no earlier tree.
/// Trusted, with nothing stated of the result: tree-sitter gives `None` when
/// the parser has no language (or when a deprecated timeout or cancellation
/// flag stopped it), and a tree otherwise.
#[verifier::external_body]
fn parse_text(parser: &mut tree_sitter::Parser, text: &str) -> Option<tree_sitter::Tree> {
    parser.parse(text, None)
}

/// Calls `tree_sitter::Tree::root_node`. Trusted, with nothing stated of
/// the node.
#[verifier::external_body]
fn root_of(tree: &tree_sitter::Tree) -> tree_sitter::Node<'_> {
    tree.root_node()
}

/// Calls `tree_sitter::Node::has_error`: whether the subtree holds a syntax
/// error. Trusted, with nothing stated of the answer.
#[verifier::external_body]
fn has_syntax_error(node: &tree_sitter::Node<'_>) -> bool {
    node.has_error()
}

/// Calls `tree_sitter::Node::descendant_count`: the number of nodes of the
/// subtree, the node itself included. Trusted, with nothing stated of the
/// number.
#[verifier::external_body]
fn descendant_count(node: &tree_sitter::Node<'_>) -> usize {
    node.descendant_count()
}

/// Calls `tree_sitter::Node::walk`: a cursor whose root is `node`. Trusted,
/// with nothing stated of the cursor.
#[verifier::external_body]
fn cursor_on<'tree>(node: &tree_sitter::Node<'tree>) -> tree_sitter::TreeCursor<'tree> {
    node.walk()
}

/// Calls `tree_sitter::TreeCursor::goto_descendant`: moves the cursor to the
/// descendant of its root with preorder index `index`. Trusted, with
/// nothing stated of the move.
#[verifier::external_body]
fn goto_descendant(cursor: &mut tree_sitter::TreeCursor<'_>, index: usize) {
    cursor.goto_descendant(index)
}

/// Calls `tree_sitter::TreeCursor::node`: the node under the cursor.
/// Trusted, with nothing stated of the node.
#[verifier::external_body]
fn cursor_node<'cursor>(cursor: &tree_sitter::TreeCursor<'cursor>) -> tree_sitter::Node<'cursor> {
    cursor.node()
}

/// Calls `tree_sitter::TreeCursor::depth`: the depth of the node under the
/// cursor below the cursor's root. Trusted, with nothing stated of the
/// depth.
#[verifier::external_body]
fn cursor_depth(cursor: &tree_sitter::TreeCursor<'_>) -> u32 {
    cursor.depth()
}

/// Calls `tree_sitter::Node::grammar_name`: the node's symbol in the
/// grammar. Trusted, with nothing stated of the name.
#[verifier::external_body]
fn grammar_name_of(node: &tree_sitter::Node<'_>) -> &'static str {
    node.grammar_name()
}

/// Calls `tree_sitter::Node::start_byte`. Trusted, with nothing stated of
/// the offset.
#[verifier::external_body]
fn start_byte_of(node: &tree_sitter::Node<'_>) -> usize {
    node.start_byte()
}

/// Calls `tree_sitter::Node::end_byte`. Trusted, with nothing stated of the
/// offset.
#[verifier::external_body]
fn end_byte_of(node: &tree_sitter::Node<'_>) -> usize {
    node.end_byte()
}

/// The nodes under a cursor moved to each preorder index below `count` in
/// turn, with their depths; the tree they describe (see
/// `SyntaxTree::from_preorder`).
fn collect_nodes(
    cursor: &mut tree_sitter::TreeCursor<'_>,
    count: usize,
) -> (r: Result<SyntaxTree, ParseError>)
    ensures
        r matches Ok(t) ==> valid_preorder(t.nodes()) && t.nodes().len() == count,
        r matches Err(e) ==> e == ParseError::NotATree,
{
    let mut nodes: Vec<SyntaxNode> = Vec::new();
    let mut i: usize = 0;
    while i < count
        invariant
            i <= count,
            nodes@.len() == i,
        decreases count - i,
    {
        goto_descendant(cursor, i);
        let node = cursor_node(cursor);
        let depth = cursor_depth(cursor);
        nodes.push(
            SyntaxNode::new(
                grammar_name_of(&node),
                start_byte_of(&node),
                end_byte_of(&node),
                depth as usize,
            ),
        );
        i = i + 1;
    }
    match SyntaxTree::from_preorder(nodes) {
        Some(t) => Ok(t),
        None => Err(ParseError::NotATree),
    }
}

/// Parses `text` with `parser` and lists the nodes of its syntax tree in
/// preorder, each with its grammar name, byte span and depth. Fails when
/// the parser gives no tree, or a tree that holds a syntax error.
pub fn parse_line(parser: &mut tree_sitter::Parser, text: &str) -> (r: Result<
    SyntaxTree,
    ParseError,
>)
    ensures
        r matches Ok(t) ==> valid_preorder(t.nodes()),
{
    let tree = match parse_text(parser, text) {
        Some(tree) => tree,
        None => {
            return Err(ParseError::NoTree);
        },
    };
    let root = root_of(&tree);
    if has_syntax_error(&root) {
        return Err(ParseError::SyntaxError);
    }
    let count = descendant_count(&root);
    let mut cursor = cursor_on(&root);
    collect_nodes(&mut cursor, count)
}

} // verus!
