//! Immutable, structurally shared syntax trees, held in rowan's green nodes.

use vstd::prelude::*;

verus! {

/// rowan's immutable, shared interior node, held opaque.
#[verifier::external_type_specification]
#[verifier::external_body]
pub struct ExGreenNode(rowan::GreenNode);

/// rowan's immutable, shared leaf token, held opaque.
#[verifier::external_type_specification]
#[verifier::external_body]
pub struct ExGreenToken(rowan::GreenToken);

/// The mathematical shape of a syntax tree: leaves are tokens (a kind and
/// their text), branches carry a kind and an ordered list of subtrees.
pub enum SyntaxTree {
    Leaf(u16, Seq<char>),
    Branch(u16, Seq<SyntaxTree>),
}

/// What a green token stands for: its kind and its text.
pub uninterp spec fn green_token_model(t: rowan::GreenToken) -> SyntaxTree;

/// What a green node stands for: its kind and the trees of its children.
pub uninterp spec fn green_node_model(n: rowan::GreenNode) -> SyntaxTree;

/// One child of a node under construction.
pub enum Child {
    Node(rowan::GreenNode),
    Token(rowan::GreenToken),
}

pub open spec fn child_tree(c: Child) -> SyntaxTree {
    match c {
        Child::Node(n) => green_node_model(n),
        Child::Token(t) => green_token_model(t),
    }
}

pub open spec fn child_trees(cs: Seq<Child>) -> Seq<SyntaxTree> {
    cs.map_values(|c: Child| child_tree(c))
}

/// The tokens of a forest, left to right: kind and text of every leaf.
pub open spec fn leaves(ts: Seq<SyntaxTree>) -> Seq<(u16, Seq<char>)>
    decreases ts,
{
    if ts.len() == 0 {
        seq![]
    } else {
        let first = ts[0];
        let head: Seq<(u16, Seq<char>)> = match first {
            SyntaxTree::Leaf(k, s) => seq![(k, s)],
            SyntaxTree::Branch(_, cs) => leaves(cs),
        };
        head + leaves(ts.drop_first())
    }
}

/// The source text of a token sequence: all texts, concatenated.
pub open spec fn text_of(toks: Seq<(u16, Seq<char>)>) -> Seq<char>
    decreases toks.len(),
{
    if toks.len() == 0 {
        seq![]
    } else {
        toks[0].1 + text_of(toks.drop_first())
    }
}

/// The number of characters in a token sequence.
pub open spec fn char_count(toks: Seq<(u16, Seq<char>)>) -> nat {
    text_of(toks).len()
}

/// Relies on rowan::GreenToken::new: the token keeps the kind and the text.
#[verifier::external_body]
pub(crate) fn green_token(kind: u16, text: &str) -> (r: rowan::GreenToken)
    ensures
        green_token_model(r) == SyntaxTree::Leaf(kind, text@),
{
    rowan::GreenToken::new(rowan::SyntaxKind(kind), text)
}

/// Relies on rowan::GreenNode::new: the node keeps the kind and the children
/// in order. rowan sums the children's byte lengths in a u32; each char takes
/// at most four bytes, so the `requires` keeps that sum in range.
#[verifier::external_body]
pub(crate) fn green_node(kind: u16, children: Vec<Child>) -> (r: rowan::GreenNode)
    requires
        4 * char_count(leaves(child_trees(children@))) <= u32::MAX,
    ensures
        green_node_model(r) == SyntaxTree::Branch(kind, child_trees(children@)),
{
    let children = children.into_iter().map(|c| match c {
        Child::Node(n) => rowan::NodeOrToken::Node(n),
        Child::Token(t) => rowan::NodeOrToken::Token(t),
    });
    rowan::GreenNode::new(rowan::SyntaxKind(kind), children)
}

} // verus!
