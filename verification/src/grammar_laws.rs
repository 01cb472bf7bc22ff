//! What holds of parsing, for every pattern text.

use vstd::prelude::*;
use crate::chars::decimal_digit;
use crate::grammar::{
    all_free_of_start_anchor, bind, end_anchor_last, end_anchors_placed, flat_parse,
    free_of_start_anchor, is_plain, is_quantifier, lemma_position_from, members_are_leaves,
    parse_alternatives,
    parse_pattern, position, prepend, quantifier_count, quantifiers_follow_nodes, resolve,
    resolve_alternatives, resolve_node, resolved, resolved_node, start_anchor_first, well_formed,
    ParseError,
};
use crate::parser::parse_view;
use crate::pattern::{literal, literal_nodes, Node, RE};

verus! {

/// Parsing is a function of the text: two results for one text hold the
/// same nodes, or the same error.
pub proof fn lemma_parse_is_deterministic(
    text: Seq<char>,
    first: Result<Vec<RE>, ParseError>,
    second: Result<Vec<RE>, ParseError>,
)
    requires
        parse_view(first) == parse_pattern(text),
        parse_view(second) == parse_pattern(text),
    ensures
        parse_view(first) == parse_view(second),
{
}

/// Resolving a node that is no quantifier gives a node that is none either,
/// and that is as parsing leaves a node.
pub proof fn lemma_resolve_node_resolved(node: Node)
    requires
        !is_quantifier(node),
    ensures
        resolve_node(node) matches Ok(atom) ==> !is_quantifier(atom) && resolved_node(atom),
    decreases node, 0nat,
{
    match node {
        Node::Group(alternatives) => {
            lemma_resolve_alternatives_resolved(alternatives);
        },
        _ => {},
    }
}

/// Resolving the alternatives of a group gives as many, each as parsing
/// leaves a sequence.
pub proof fn lemma_resolve_alternatives_resolved(alternatives: Seq<Seq<Node>>)
    ensures
        resolve_alternatives(alternatives) matches Ok(resolved_all) ==> {
            &&& resolved_all.len() == alternatives.len()
            &&& forall|i: int| 0 <= i < resolved_all.len() ==> resolved(#[trigger] resolved_all[i])
        },
    decreases alternatives, 0nat,
{
    if alternatives.len() > 0 {
        lemma_resolve_resolved(alternatives[0]);
        lemma_resolve_alternatives_resolved(alternatives.skip(1));
    }
}

/// Binding the quantifiers of any sequence of nodes gives an error or a
/// sequence in which every quantifier has its target and every class holds
/// leaves only.
pub proof fn lemma_resolve_resolved(nodes: Seq<Node>)
    ensures
        resolve(nodes) matches Ok(bound) ==> resolved(bound),
    decreases nodes, 1nat,
{
    if nodes.len() > 0 && !is_quantifier(nodes[0]) {
        lemma_resolve_node_resolved(nodes[0]);
        if nodes.len() > 1 && is_quantifier(nodes[1]) {
            lemma_resolve_resolved(nodes.skip(2));
        } else {
            lemma_resolve_resolved(nodes.skip(1));
        }
    }
}

/// A pattern that parses has every quantifier bound to a target, also
/// inside groups, and no quantifier or group inside a class.
pub proof fn lemma_parse_resolved(text: Seq<char>)
    ensures
        parse_pattern(text) matches Ok(nodes) ==> resolved(nodes),
{
    let anchored = text.len() > 0 && text[0] == '^';
    match flat_parse(if anchored { text.skip(1) } else { text }) {
        Ok(nodes) => {
            lemma_resolve_resolved(if anchored { seq![Node::StartAnchor] + nodes } else { nodes });
        },
        Err(_) => {},
    }
}

/// A node that keeps the anchors in place, before a sequence that does,
/// gives a sequence that does; an end anchor may stand in front of nothing
/// only.
pub proof fn lemma_prepend_keeps_anchors(node: Node, tail: Seq<Node>)
    requires
        end_anchors_placed(node),
        node is EndAnchor ==> tail.len() == 0,
        end_anchor_last(tail),
    ensures
        end_anchor_last(seq![node] + tail),
        free_of_start_anchor(node) && all_free_of_start_anchor(tail) ==> all_free_of_start_anchor(
            seq![node] + tail,
        ),
{
    let nodes = seq![node] + tail;
    assert forall|i: int| 0 <= i < nodes.len() implies end_anchors_placed(#[trigger] nodes[i]) && (
    nodes[i] is EndAnchor ==> i == nodes.len() - 1) by {
        if i > 0 {
            assert(nodes[i] == tail[i - 1]);
        }
    }
    if free_of_start_anchor(node) && all_free_of_start_anchor(tail) {
        assert forall|i: int| 0 <= i < nodes.len() implies free_of_start_anchor(
            #[trigger] nodes[i],
        ) by {
            if i > 0 {
                assert(nodes[i] == tail[i - 1]);
            }
        }
    }
}

/// What is left of a sequence that keeps the anchors in place keeps them in
/// place.
pub proof fn lemma_skip_keeps_anchors(nodes: Seq<Node>, count: int)
    requires
        0 <= count <= nodes.len(),
    ensures
        end_anchor_last(nodes) ==> end_anchor_last(nodes.skip(count)),
        all_free_of_start_anchor(nodes) ==> all_free_of_start_anchor(nodes.skip(count)),
{
    let rest = nodes.skip(count);
    if end_anchor_last(nodes) {
        assert forall|i: int| 0 <= i < rest.len() implies end_anchors_placed(#[trigger] rest[i])
            && (rest[i] is EndAnchor ==> i == rest.len() - 1) by {
            assert(rest[i] == nodes[i + count]);
        }
    }
    if all_free_of_start_anchor(nodes) {
        assert forall|i: int| 0 <= i < rest.len() implies free_of_start_anchor(
            #[trigger] rest[i],
        ) by {
            assert(rest[i] == nodes[i + count]);
        }
    }
}

/// The nodes that a text spells hold no start anchor, and an end anchor
/// only at the end of a sequence.
pub proof fn lemma_flat_parse_anchors(text: Seq<char>)
    ensures
        flat_parse(text) matches Ok(nodes) ==> all_free_of_start_anchor(nodes) && end_anchor_last(
            nodes,
        ),
    decreases text.len(), 0nat,
{
    if text.len() == 0 {
    } else if text[0] == '(' {
        match position(text.skip(1), ')') {
            Some(end) => {
                lemma_position_from(text.skip(1), ')', 0);
                if end > 0 {
                    lemma_parse_alternatives_anchors(text.subrange(1, 1 + end));
                    lemma_flat_parse_anchors(text.skip(end + 2));
                    match (parse_alternatives(text.subrange(1, 1 + end)), flat_parse(
                        text.skip(end + 2),
                    )) {
                        (Ok(alternatives), Ok(tail)) => {
                            lemma_prepend_keeps_anchors(Node::Group(alternatives), tail);
                        },
                        _ => {},
                    }
                }
            },
            None => {},
        }
    } else if text[0] == '\\' {
        if text.len() > 1 {
            lemma_flat_parse_anchors(text.skip(2));
            match flat_parse(text.skip(2)) {
                Ok(tail) => {
                    lemma_prepend_keeps_anchors(Node::DigitClass, tail);
                    lemma_prepend_keeps_anchors(Node::WordClass, tail);
                    lemma_prepend_keeps_anchors(
                        Node::BackReference(decimal_digit(text[1])),
                        tail,
                    );
                },
                Err(_) => {},
            }
        }
    } else if text[0] == '[' {
        let negated = text.len() > 1 && text[1] == '^';
        let start: int = if negated {
            2
        } else {
            1
        };
        match position(text.skip(start), ']') {
            Some(end) => {
                lemma_position_from(text.skip(start), ']', 0);
                if end > 0 {
                    lemma_flat_parse_anchors(text.subrange(start, start + end));
                    lemma_flat_parse_anchors(text.skip(start + end + 1));
                    match (flat_parse(text.subrange(start, start + end)), flat_parse(
                        text.skip(start + end + 1),
                    )) {
                        (Ok(members), Ok(tail)) => {
                            lemma_prepend_keeps_anchors(Node::NegativeClass(members), tail);
                            lemma_prepend_keeps_anchors(Node::PositiveClass(members), tail);
                        },
                        _ => {},
                    }
                }
            },
            None => {},
        }
    } else if text[0] == '$' {
    } else {
        lemma_flat_parse_anchors(text.skip(1));
        match flat_parse(text.skip(1)) {
            Ok(tail) => {
                lemma_prepend_keeps_anchors(Node::OneOrMore(None), tail);
                lemma_prepend_keeps_anchors(Node::ZeroOrMore(None), tail);
                lemma_prepend_keeps_anchors(Node::ZeroOrOne(None), tail);
                lemma_prepend_keeps_anchors(Node::Wildcard, tail);
                assert(literal(text[0]) == Node::Literal(text[0]));
                lemma_prepend_keeps_anchors(literal(text[0]), tail);
            },
            Err(_) => {},
        }
    }
}

/// Each alternative that a group's text spells holds no start anchor, and an
/// end anchor only at the end of a sequence.
pub proof fn lemma_parse_alternatives_anchors(body: Seq<char>)
    ensures
        parse_alternatives(body) matches Ok(alternatives) ==> forall|i: int|
            0 <= i < alternatives.len() ==> all_free_of_start_anchor(#[trigger] alternatives[i])
                && end_anchor_last(alternatives[i]),
    decreases body.len(), 1nat,
{
    match position(body, '|') {
        None => {
            lemma_flat_parse_anchors(body);
        },
        Some(bar) => {
            lemma_position_from(body, '|', 0);
            lemma_flat_parse_anchors(body.take(bar));
            lemma_parse_alternatives_anchors(body.skip(bar + 1));
        },
    }
}

/// Resolving a node keeps the anchors where they are.
pub proof fn lemma_resolve_node_anchors(node: Node)
    requires
        end_anchors_placed(node),
    ensures
        resolve_node(node) matches Ok(atom) ==> {
            &&& end_anchors_placed(atom)
            &&& atom is EndAnchor <==> node is EndAnchor
            &&& atom is StartAnchor <==> node is StartAnchor
            &&& free_of_start_anchor(node) ==> free_of_start_anchor(atom)
        },
    decreases node, 0nat,
{
    match node {
        Node::Group(alternatives) => {
            lemma_resolve_alternatives_anchors(alternatives);
        },
        _ => {},
    }
}

/// Resolving the alternatives of a group keeps the anchors where they are.
pub proof fn lemma_resolve_alternatives_anchors(alternatives: Seq<Seq<Node>>)
    requires
        forall|i: int| 0 <= i < alternatives.len() ==> end_anchor_last(#[trigger] alternatives[i]),
    ensures
        resolve_alternatives(alternatives) matches Ok(bound) ==> {
            &&& bound.len() == alternatives.len()
            &&& forall|i: int| 0 <= i < bound.len() ==> end_anchor_last(#[trigger] bound[i])
            &&& (forall|i: int|
                0 <= i < alternatives.len() ==> all_free_of_start_anchor(
                    #[trigger] alternatives[i],
                )) ==> forall|i: int|
                0 <= i < bound.len() ==> all_free_of_start_anchor(#[trigger] bound[i])
        },
    decreases alternatives, 0nat,
{
    if alternatives.len() > 0 {
        let others = alternatives.skip(1);
        assert forall|i: int| 0 <= i < others.len() implies end_anchor_last(
            #[trigger] others[i],
        ) by {
            assert(others[i] == alternatives[i + 1]);
        }
        lemma_resolve_anchors(alternatives[0]);
        lemma_resolve_alternatives_anchors(others);
        if forall|i: int|
            0 <= i < alternatives.len() ==> all_free_of_start_anchor(#[trigger] alternatives[i]) {
            assert forall|i: int| 0 <= i < others.len() implies all_free_of_start_anchor(
                #[trigger] others[i],
            ) by {
                assert(others[i] == alternatives[i + 1]);
            }
        }
    }
}

/// Binding the quantifiers of a sequence keeps the anchors where they are.
pub proof fn lemma_resolve_anchors(nodes: Seq<Node>)
    requires
        end_anchor_last(nodes),
    ensures
        resolve(nodes) matches Ok(bound) ==> {
            &&& end_anchor_last(bound)
            &&& all_free_of_start_anchor(nodes) ==> all_free_of_start_anchor(bound)
        },
    decreases nodes, 1nat,
{
    if nodes.len() > 0 && !is_quantifier(nodes[0]) {
        lemma_resolve_node_anchors(nodes[0]);
        match resolve_node(nodes[0]) {
            Ok(atom) => {
                if nodes.len() > 1 && is_quantifier(nodes[1]) {
                    lemma_skip_keeps_anchors(nodes, 2);
                    lemma_resolve_anchors(nodes.skip(2));
                    match resolve(nodes.skip(2)) {
                        Ok(tail) => {
                            lemma_prepend_keeps_anchors(bind(nodes[1], atom), tail);
                        },
                        Err(_) => {},
                    }
                } else {
                    lemma_skip_keeps_anchors(nodes, 1);
                    lemma_resolve_anchors(nodes.skip(1));
                    match resolve(nodes.skip(1)) {
                        Ok(tail) => {
                            lemma_prepend_keeps_anchors(atom, tail);
                        },
                        Err(_) => {},
                    }
                }
            },
            Err(_) => {},
        }
    }
}

/// In a pattern that parses, the start anchor stands at the head or
/// nowhere, and an end anchor stands only at the end of its sequence.
pub proof fn lemma_parse_anchors(text: Seq<char>)
    ensures
        parse_pattern(text) matches Ok(nodes) ==> start_anchor_first(nodes) && end_anchor_last(
            nodes,
        ),
{
    let anchored = text.len() > 0 && text[0] == '^';
    let body = if anchored {
        text.skip(1)
    } else {
        text
    };
    lemma_flat_parse_anchors(body);
    match flat_parse(body) {
        Ok(flat) => {
            if anchored {
                let nodes = seq![Node::StartAnchor] + flat;
                lemma_prepend_keeps_anchors(Node::StartAnchor, flat);
                assert(nodes[0] is StartAnchor);
                assert(resolve_node(nodes[0]) == Ok::<Node, ParseError>(Node::StartAnchor));
                if flat.len() > 0 {
                    assert(nodes[1] == flat[0]);
                }
                if flat.len() > 0 && is_quantifier(flat[0]) {
                    assert(nodes.skip(2) =~= flat.skip(1));
                    assert(resolve(nodes) == prepend(
                        bind(flat[0], Node::StartAnchor),
                        resolve(flat.skip(1)),
                    ));
                    lemma_skip_keeps_anchors(flat, 1);
                    lemma_resolve_anchors(flat.skip(1));
                    match resolve(flat.skip(1)) {
                        Ok(tail) => {
                            let head = bind(flat[0], Node::StartAnchor);
                            assert(end_anchors_placed(Node::StartAnchor));
                            assert(end_anchors_placed(head));
                            assert(is_quantifier(head) && head == bind(head, Node::StartAnchor));
                            lemma_prepend_keeps_anchors(head, tail);
                            let bound = seq![head] + tail;
                            assert(bound[0] == head);
                            assert forall|i: int| 1 <= i < bound.len() implies free_of_start_anchor(
                                #[trigger] bound[i],
                            ) by {
                                assert(bound[i] == tail[i - 1]);
                            }
                        },
                        Err(_) => {},
                    }
                } else {
                    assert(nodes.skip(1) =~= flat);
                    assert(resolve(nodes) == prepend(Node::StartAnchor, resolve(flat)));
                    lemma_resolve_anchors(flat);
                    match resolve(flat) {
                        Ok(tail) => {
                            lemma_prepend_keeps_anchors(Node::StartAnchor, tail);
                            let bound = seq![Node::StartAnchor] + tail;
                            assert(bound[0] is StartAnchor);
                            assert forall|i: int| 1 <= i < bound.len() implies free_of_start_anchor(
                                #[trigger] bound[i],
                            ) by {
                                assert(bound[i] == tail[i - 1]);
                            }
                        },
                        Err(_) => {},
                    }
                }
            } else {
                lemma_resolve_anchors(flat);
                match resolve(flat) {
                    Ok(bound) => {
                        assert(start_anchor_first(bound));
                    },
                    Err(_) => {},
                }
            }
        },
        Err(_) => {},
    }
}

/// A pattern that parses is well formed.
pub proof fn lemma_parse_well_formed(text: Seq<char>)
    ensures
        parse_pattern(text) matches Ok(nodes) ==> well_formed(nodes),
{
    lemma_parse_resolved(text);
    lemma_parse_anchors(text);
}

/// Plain characters spell the literals that hold them.
pub proof fn lemma_plain_text_is_flat(text: Seq<char>)
    requires
        forall|i: int| 0 <= i < text.len() ==> is_plain(#[trigger] text[i]),
    ensures
        flat_parse(text) == Ok::<Seq<Node>, ParseError>(literal_nodes(text)),
    decreases text.len(),
{
    if text.len() == 0 {
        assert(literal_nodes(text) =~= Seq::<Node>::empty());
    } else {
        let rest = text.skip(1);
        assert(is_plain(text[0]));
        assert forall|i: int| 0 <= i < rest.len() implies is_plain(#[trigger] rest[i]) by {
            assert(rest[i] == text[i + 1]);
        }
        lemma_plain_text_is_flat(rest);
        assert(literal(text[0]) == Node::Literal(text[0]));
        assert(seq![literal(text[0])] + literal_nodes(rest) =~= literal_nodes(text));
    }
}

/// Binding the quantifiers among literals changes nothing.
pub proof fn lemma_literals_resolve_to_themselves(text: Seq<char>)
    ensures
        resolve(literal_nodes(text)) == Ok::<Seq<Node>, ParseError>(literal_nodes(text)),
    decreases text.len(),
{
    let nodes = literal_nodes(text);
    if text.len() == 0 {
        assert(nodes =~= Seq::<Node>::empty());
    } else {
        let rest = text.skip(1);
        assert(nodes[0] == literal(text[0]));
        if text.len() > 1 {
            assert(nodes[1] == literal(text[1]));
        }
        assert(nodes.skip(1) =~= literal_nodes(rest));
        lemma_literals_resolve_to_themselves(rest);
        assert(resolve_node(nodes[0]) == Ok::<Node, ParseError>(nodes[0]));
        assert(resolve(nodes) == prepend(nodes[0], resolve(nodes.skip(1))));
        assert(seq![literal(text[0])] + literal_nodes(rest) =~= nodes);
    }
}

/// A text of plain characters that does not begin with `^` parses to the
/// literals that spell it.
pub proof fn lemma_plain_text_parses_to_literals(text: Seq<char>)
    requires
        forall|i: int| 0 <= i < text.len() ==> is_plain(#[trigger] text[i]),
        text.len() > 0 ==> text[0] != '^',
    ensures
        parse_pattern(text) == Ok::<Seq<Node>, ParseError>(literal_nodes(text)),
{
    lemma_plain_text_is_flat(text);
    lemma_literals_resolve_to_themselves(text);
}

/// A node followed by a quantifier becomes the target of that quantifier,
/// whatever node it is, and binding goes on behind the pair.
pub proof fn lemma_resolve_binds_pair(nodes: Seq<Node>, atom: Node)
    requires
        nodes.len() >= 2,
        !is_quantifier(nodes[0]),
        is_quantifier(nodes[1]),
        resolve_node(nodes[0]) == Ok::<Node, ParseError>(atom),
    ensures
        resolve(nodes) == prepend(bind(nodes[1], atom), resolve(nodes.skip(2))),
{
}

/// A quantifier behind an anchor takes the anchor as its target.
pub proof fn lemma_resolve_binds_anchor(anchor: Node, quantifier: Node)
    requires
        anchor is StartAnchor || anchor is EndAnchor,
        is_quantifier(quantifier),
    ensures
        resolve(seq![anchor, quantifier]) == Ok::<Seq<Node>, ParseError>(
            seq![bind(quantifier, anchor)],
        ),
{
    let nodes = seq![anchor, quantifier];
    assert(nodes.skip(2) =~= Seq::<Node>::empty());
    assert(resolve(nodes.skip(2)) == Ok::<Seq<Node>, ParseError>(Seq::empty()));
    assert(resolve_node(anchor) == Ok::<Node, ParseError>(anchor));
    assert(seq![bind(quantifier, anchor)] + Seq::<Node>::empty() =~= seq![
        bind(quantifier, anchor),
    ]);
}

/// Where every quantifier stands behind a node that is none, and every such
/// node resolves, binding succeeds, and each quantifier has taken one node:
/// the result is shorter than the sequence by the number of its quantifiers.
pub proof fn lemma_resolve_binds_every_quantifier(nodes: Seq<Node>)
    requires
        quantifiers_follow_nodes(nodes),
        forall|i: int|
            0 <= i < nodes.len() && !is_quantifier(#[trigger] nodes[i]) ==> resolve_node(
                nodes[i],
            ) is Ok,
    ensures
        resolve(nodes) matches Ok(bound) && bound.len() + quantifier_count(nodes) == nodes.len()
            && resolved(bound),
    decreases nodes.len(),
{
    lemma_resolve_resolved(nodes);
    if nodes.len() > 0 {
        assert(!is_quantifier(nodes[0]));
        let step: int = if nodes.len() > 1 && is_quantifier(nodes[1]) {
            2
        } else {
            1
        };
        let rest = nodes.skip(step);
        assert forall|i: int| 0 <= i < rest.len() && is_quantifier(#[trigger] rest[i]) implies i
            >= 1 && !is_quantifier(rest[i - 1]) by {
            assert(rest[i] == nodes[i + step]);
            assert(is_quantifier(nodes[i + step]));
            if i >= 1 {
                assert(rest[i - 1] == nodes[i + step - 1]);
            }
        }
        assert forall|i: int| 0 <= i < rest.len() && !is_quantifier(
            #[trigger] rest[i],
        ) implies resolve_node(rest[i]) is Ok by {
            assert(rest[i] == nodes[i + step]);
        }
        lemma_resolve_binds_every_quantifier(rest);
        if step == 2 {
            assert(nodes.skip(1).skip(1) =~= nodes.skip(2));
            assert(nodes.skip(1)[0] == nodes[1]);
            assert(quantifier_count(nodes.skip(1)) == 1 + quantifier_count(nodes.skip(2)));
        }
    }
}

/// A node that is no group resolves to itself, unless it is a class that
/// holds a quantifier or a group.
pub proof fn lemma_resolve_node_keeps_what_is_no_group(node: Node)
    requires
        !(node is Group),
    ensures
        resolve_node(node) == (if (node matches Node::PositiveClass(members)
            && !members_are_leaves(members)) || (node matches Node::NegativeClass(members)
            && !members_are_leaves(members)) {
            Err::<Node, ParseError>(ParseError::ClassNesting)
        } else {
            Ok::<Node, ParseError>(node)
        }),
{
}

/// Binding leaves a sequence as it is where it holds no quantifier and each
/// of its nodes resolves to itself.
pub proof fn lemma_resolve_without_quantifiers(nodes: Seq<Node>)
    requires
        forall|i: int|
            0 <= i < nodes.len() ==> !is_quantifier(#[trigger] nodes[i]) && resolve_node(nodes[i])
                == Ok::<Node, ParseError>(nodes[i]),
    ensures
        resolve(nodes) == Ok::<Seq<Node>, ParseError>(nodes),
    decreases nodes.len(),
{
    if nodes.len() > 0 {
        let rest = nodes.skip(1);
        assert(!is_quantifier(nodes[0]));
        assert forall|i: int| 0 <= i < rest.len() implies !is_quantifier(#[trigger] rest[i])
            && resolve_node(rest[i]) == Ok::<Node, ParseError>(rest[i]) by {
            assert(rest[i] == nodes[i + 1]);
        }
        if nodes.len() > 1 {
            assert(!is_quantifier(nodes[1]));
        }
        lemma_resolve_without_quantifiers(rest);
        assert(seq![nodes[0]] + rest =~= nodes);
    } else {
        assert(nodes =~= Seq::<Node>::empty());
    }
}

/// In a pattern that parses, a start anchor stands only at the head, and an
/// end anchor only at the end.
pub proof fn lemma_parse_anchor_positions(text: Seq<char>)
    ensures
        parse_pattern(text) matches Ok(nodes) ==> forall|i: int|
            0 <= i < nodes.len() ==> (#[trigger] nodes[i] is StartAnchor ==> i == 0) && (
            nodes[i] is EndAnchor ==> i == nodes.len() - 1),
{
    lemma_parse_anchors(text);
}

} // verus!
