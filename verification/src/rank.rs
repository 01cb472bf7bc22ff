//! A measure on patterns by which the matcher terminates: it falls when a
//! back-reference gives way to the literals of its capture.

use vstd::prelude::*;
use crate::pattern::{literal, literal_nodes, Node};

verus! {

/// The weight of a node: nothing for a literal, one for any other node, and
/// for a group also the weight of all its alternatives.
pub open spec fn node_rank(node: Node) -> nat
    decreases node,
{
    match node {
        Node::Literal(_) => 0,
        Node::Group(alternatives) => 1 + alternatives_rank(alternatives),
        _ => 1,
    }
}

/// The weight of a sequence of nodes: the sum over its nodes.
pub open spec fn sequence_rank(nodes: Seq<Node>) -> nat
    decreases nodes,
{
    if nodes.len() == 0 {
        0
    } else {
        node_rank(nodes[0]) + sequence_rank(nodes.skip(1))
    }
}

/// The weight of a group's alternatives: the sum over them.
pub open spec fn alternatives_rank(alternatives: Seq<Seq<Node>>) -> nat
    decreases alternatives,
{
    if alternatives.len() == 0 {
        0
    } else {
        sequence_rank(alternatives[0]) + alternatives_rank(alternatives.skip(1))
    }
}

/// The weight of a concatenation is the sum of the weights.
pub proof fn lemma_rank_concat(front: Seq<Node>, back: Seq<Node>)
    ensures
        sequence_rank(front + back) == sequence_rank(front) + sequence_rank(back),
    decreases front.len(),
{
    if front.len() == 0 {
        assert(front + back =~= back);
    } else {
        assert((front + back).skip(1) =~= front.skip(1) + back);
        lemma_rank_concat(front.skip(1), back);
    }
}

/// A run of literals weighs nothing.
pub proof fn lemma_rank_literals(text: Seq<char>)
    ensures
        sequence_rank(literal_nodes(text)) == 0,
    decreases text.len(),
{
    let nodes = literal_nodes(text);
    if text.len() > 0 {
        assert(nodes[0] == literal(text[0]));
        assert(nodes.skip(1) =~= literal_nodes(text.skip(1)));
        lemma_rank_literals(text.skip(1));
        assert(sequence_rank(nodes) == node_rank(nodes[0]) + sequence_rank(nodes.skip(1)));
    } else {
        assert(nodes.len() == 0);
    }
}

/// No alternative weighs more than all of them together.
pub proof fn lemma_rank_alternative(alternatives: Seq<Seq<Node>>, index: int)
    requires
        0 <= index < alternatives.len(),
    ensures
        sequence_rank(alternatives[index]) <= alternatives_rank(alternatives),
    decreases alternatives.len(),
{
    if index > 0 {
        lemma_rank_alternative(alternatives.skip(1), index - 1);
    }
}

} // verus!
