//! What a pattern text means: the nodes that it spells, and how the
//! quantifiers among them are bound.

use vstd::prelude::*;
use crate::chars::{ascii_digit, decimal_digit};
use crate::pattern::Node;

verus! {

/// Why a pattern text is refused.
#[derive(Debug, Clone, Copy, PartialEq, Eq, Structural)]
pub enum ParseError {
    /// A `(` has no `)` after it.
    UnterminatedGroup,
    /// Nothing stands between `(` and `)`.
    EmptyGroup,
    /// A `[` has no `]` after it.
    UnterminatedClass,
    /// A class names no member.
    EmptyClass,
    /// The text ends in a backslash.
    MissingEscape,
    /// A backslash stands before a character other than `d`, `w` or a digit.
    UnsupportedEscape { character: char },
    /// A `$` stands before the end of its text.
    MisplacedEndAnchor,
    /// A `+`, `*` or `?` stands first, or behind another quantifier.
    QuantifierWithoutTarget,
    /// A class holds a quantifier or a group.
    ClassNesting,
}

impl ParseError {
    /// What [`ParseError::message`] says of this error.
    pub open spec fn message_text(self) -> Seq<char> {
        match self {
            ParseError::UnterminatedGroup => "unterminated group"@,
            ParseError::EmptyGroup => "empty group"@,
            ParseError::UnterminatedClass => "unterminated character class"@,
            ParseError::EmptyClass => "empty character class"@,
            ParseError::MissingEscape => "Missing special character class specifier"@,
            ParseError::UnsupportedEscape { character } =>
                "Unsupported special character class "@.push(character),
            ParseError::MisplacedEndAnchor =>
                "Invalid pattern, `$` should only appear as the last character"@,
            ParseError::QuantifierWithoutTarget => "quantifier without a node to repeat"@,
            ParseError::ClassNesting => "character class cannot contain a quantifier or a group"@,
        }
    }

    /// A sentence that describes the error.
    pub fn message(&self) -> (text: String)
        ensures
            text@ == self.message_text(),
    {
        match self {
            ParseError::UnterminatedGroup => "unterminated group".to_string(),
            ParseError::EmptyGroup => "empty group".to_string(),
            ParseError::UnterminatedClass => "unterminated character class".to_string(),
            ParseError::EmptyClass => "empty character class".to_string(),
            ParseError::MissingEscape => "Missing special character class specifier".to_string(),
            ParseError::UnsupportedEscape { character } => {
                let mut text = "Unsupported special character class ".to_string();
                text.push(*character);
                text
            },
            ParseError::MisplacedEndAnchor =>
                "Invalid pattern, `$` should only appear as the last character".to_string(),
            ParseError::QuantifierWithoutTarget =>
                "quantifier without a node to repeat".to_string(),
            ParseError::ClassNesting =>
                "character class cannot contain a quantifier or a group".to_string(),
        }
    }
}

/// The first index from `from` on at which `text` holds `wanted`.
pub open spec fn position_from(text: Seq<char>, wanted: char, from: int) -> Option<int>
    decreases text.len() - from,
{
    if from < 0 || from >= text.len() {
        None
    } else if text[from] == wanted {
        Some(from)
    } else {
        position_from(text, wanted, from + 1)
    }
}

/// The first index at which `text` holds `wanted`.
pub open spec fn position(text: Seq<char>, wanted: char) -> Option<int> {
    position_from(text, wanted, 0)
}

/// The position found is the first one that holds `wanted`.
pub proof fn lemma_position_from(text: Seq<char>, wanted: char, from: int)
    requires
        0 <= from,
    ensures
        match position_from(text, wanted, from) {
            Some(index) => {
                &&& from <= index < text.len()
                &&& text[index] == wanted
                &&& forall|i: int| from <= i < index ==> text[i] != wanted
            },
            None => forall|i: int| from <= i < text.len() ==> text[i] != wanted,
        },
    decreases text.len() - from,
{
    if from < text.len() && text[from] != wanted {
        lemma_position_from(text, wanted, from + 1);
    }
}

/// `node` in front of the nodes that `tail` holds; an error stays.
pub open spec fn prepend(node: Node, tail: Result<Seq<Node>, ParseError>) -> Result<
    Seq<Node>,
    ParseError,
> {
    match tail {
        Ok(nodes) => Ok(seq![node] + nodes),
        Err(e) => Err(e),
    }
}

/// The nodes that `text` spells, one after the other, before quantifiers
/// are bound: a `+`, `*` or `?` stands as a quantifier without target.
///
/// A group runs from `(` to the first `)` after it and holds one
/// alternative for each stretch between `|`; a class runs from `[` to the
/// first `]` after it.
pub open spec fn flat_parse(text: Seq<char>) -> Result<Seq<Node>, ParseError>
    decreases text.len(), 0nat,
{
    if text.len() == 0 {
        Ok(Seq::empty())
    } else if text[0] == '(' {
        match position(text.skip(1), ')') {
            None => Err(ParseError::UnterminatedGroup),
            Some(end) => {
                proof {
                    lemma_position_from(text.skip(1), ')', 0);
                }
                if end == 0 {
                    Err(ParseError::EmptyGroup)
                } else {
                    match parse_alternatives(text.subrange(1, 1 + end)) {
                        Ok(alternatives) => prepend(
                            Node::Group(alternatives),
                            flat_parse(text.skip(end + 2)),
                        ),
                        Err(e) => Err(e),
                    }
                }
            },
        }
    } else if text[0] == '\\' {
        if text.len() == 1 {
            Err(ParseError::MissingEscape)
        } else if text[1] == 'd' {
            prepend(Node::DigitClass, flat_parse(text.skip(2)))
        } else if text[1] == 'w' {
            prepend(Node::WordClass, flat_parse(text.skip(2)))
        } else if ascii_digit(text[1]) {
            prepend(Node::BackReference(decimal_digit(text[1])), flat_parse(text.skip(2)))
        } else {
            Err(ParseError::UnsupportedEscape { character: text[1] })
        }
    } else if text[0] == '[' {
        let negated = text.len() > 1 && text[1] == '^';
        let start: int = if negated {
            2
        } else {
            1
        };
        match position(text.skip(start), ']') {
            None => Err(ParseError::UnterminatedClass),
            Some(end) => {
                proof {
                    lemma_position_from(text.skip(start), ']', 0);
                }
                if end == 0 {
                    Err(ParseError::EmptyClass)
                } else {
                    match flat_parse(text.subrange(start, start + end)) {
                        Ok(members) => prepend(
                            if negated {
                                Node::NegativeClass(members)
                            } else {
                                Node::PositiveClass(members)
                            },
                            flat_parse(text.skip(start + end + 1)),
                        ),
                        Err(e) => Err(e),
                    }
                }
            },
        }
    } else if text[0] == '$' {
        if text.len() > 1 {
            Err(ParseError::MisplacedEndAnchor)
        } else {
            Ok(seq![Node::EndAnchor])
        }
    } else if text[0] == '+' {
        prepend(Node::OneOrMore(None), flat_parse(text.skip(1)))
    } else if text[0] == '*' {
        prepend(Node::ZeroOrMore(None), flat_parse(text.skip(1)))
    } else if text[0] == '?' {
        prepend(Node::ZeroOrOne(None), flat_parse(text.skip(1)))
    } else if text[0] == '.' {
        prepend(Node::Wildcard, flat_parse(text.skip(1)))
    } else {
        prepend(Node::Literal(text[0]), flat_parse(text.skip(1)))
    }
}

/// The alternatives of a group whose inside is `body`: the stretches
/// between `|`, each parsed by itself.
pub open spec fn parse_alternatives(body: Seq<char>) -> Result<Seq<Seq<Node>>, ParseError>
    decreases body.len(), 1nat,
{
    match position(body, '|') {
        None => match flat_parse(body) {
            Ok(nodes) => Ok(seq![nodes]),
            Err(e) => Err(e),
        },
        Some(bar) => {
            proof {
                lemma_position_from(body, '|', 0);
            }
            match flat_parse(body.take(bar)) {
                Ok(nodes) => match parse_alternatives(body.skip(bar + 1)) {
                    Ok(others) => Ok(seq![nodes] + others),
                    Err(e) => Err(e),
                },
                Err(e) => Err(e),
            }
        },
    }
}

/// `node` is one of the three quantifiers.
pub open spec fn is_quantifier(node: Node) -> bool {
    node is OneOrMore || node is ZeroOrMore || node is ZeroOrOne
}

/// The quantifier of the kind of `quantifier`, bound to `atom`.
pub open spec fn bind(quantifier: Node, atom: Node) -> Node {
    match quantifier {
        Node::OneOrMore(_) => Node::OneOrMore(Some(Box::new(atom))),
        Node::ZeroOrMore(_) => Node::ZeroOrMore(Some(Box::new(atom))),
        Node::ZeroOrOne(_) => Node::ZeroOrOne(Some(Box::new(atom))),
        other => other,
    }
}

/// No member is a quantifier or a group.
pub open spec fn members_are_leaves(members: Seq<Node>) -> bool {
    forall|i: int|
        0 <= i < members.len() ==> !is_quantifier(#[trigger] members[i]) && !(members[i] is Group)
}

/// One node with the quantifiers below it bound: a group has each of its
/// alternatives resolved, a class is checked to hold leaves only, any other
/// node stays as it is.
pub open spec fn resolve_node(node: Node) -> Result<Node, ParseError>
    decreases node, 0nat,
{
    match node {
        Node::Group(alternatives) => match resolve_alternatives(alternatives) {
            Ok(resolved) => Ok(Node::Group(resolved)),
            Err(e) => Err(e),
        },
        Node::PositiveClass(members) | Node::NegativeClass(members) => {
            if members_are_leaves(members) {
                Ok(node)
            } else {
                Err(ParseError::ClassNesting)
            }
        },
        _ => Ok(node),
    }
}

/// Each alternative resolved, in order.
pub open spec fn resolve_alternatives(alternatives: Seq<Seq<Node>>) -> Result<
    Seq<Seq<Node>>,
    ParseError,
>
    decreases alternatives, 0nat,
{
    if alternatives.len() == 0 {
        Ok(Seq::empty())
    } else {
        match resolve(alternatives[0]) {
            Ok(first) => match resolve_alternatives(alternatives.skip(1)) {
                Ok(others) => Ok(seq![first] + others),
                Err(e) => Err(e),
            },
            Err(e) => Err(e),
        }
    }
}

/// A flat sequence with its quantifiers bound: a node followed by a
/// quantifier becomes that quantifier with the node as its target, whatever
/// node it is, an anchor too; a quantifier that stands first, or behind
/// another quantifier, has no node to take, and is an error.
pub open spec fn resolve(nodes: Seq<Node>) -> Result<Seq<Node>, ParseError>
    decreases nodes, 1nat,
{
    if nodes.len() == 0 {
        Ok(Seq::empty())
    } else if is_quantifier(nodes[0]) {
        Err(ParseError::QuantifierWithoutTarget)
    } else {
        match resolve_node(nodes[0]) {
            Ok(atom) => {
                if nodes.len() > 1 && is_quantifier(nodes[1]) {
                    prepend(bind(nodes[1], atom), resolve(nodes.skip(2)))
                } else {
                    prepend(atom, resolve(nodes.skip(1)))
                }
            },
            Err(e) => Err(e),
        }
    }
}

/// The number of quantifiers that stand in the sequence itself.
pub open spec fn quantifier_count(nodes: Seq<Node>) -> nat
    decreases nodes.len(),
{
    if nodes.len() == 0 {
        0
    } else if is_quantifier(nodes[0]) {
        1 + quantifier_count(nodes.skip(1))
    } else {
        quantifier_count(nodes.skip(1))
    }
}

/// Every quantifier in the sequence stands behind a node that is none.
pub open spec fn quantifiers_follow_nodes(nodes: Seq<Node>) -> bool {
    forall|i: int|
        0 <= i < nodes.len() && is_quantifier(#[trigger] nodes[i]) ==> i >= 1 && !is_quantifier(
            nodes[i - 1],
        )
}

/// The pattern that `text` stands for. A `^` at the very start is the start
/// anchor; what follows is parsed flat, and then the quantifiers are bound.
pub open spec fn parse_pattern(text: Seq<char>) -> Result<Seq<Node>, ParseError> {
    let anchored = text.len() > 0 && text[0] == '^';
    match flat_parse(if anchored { text.skip(1) } else { text }) {
        Ok(nodes) => resolve(if anchored { seq![Node::StartAnchor] + nodes } else { nodes }),
        Err(e) => Err(e),
    }
}

/// `node` is as parsing leaves a node: a quantifier has a target, which is
/// no quantifier itself and is as parsing leaves it; a class holds leaves
/// only; each alternative of a group is as parsing leaves it.
pub open spec fn resolved_node(node: Node) -> bool
    decreases node, 0nat,
{
    match node {
        Node::OneOrMore(target) | Node::ZeroOrMore(target) | Node::ZeroOrOne(target) => {
            target matches Some(atom) && !is_quantifier(*atom) && resolved_node(*atom)
        },
        Node::PositiveClass(members) | Node::NegativeClass(members) => members_are_leaves(members),
        Node::Group(alternatives) => forall|i: int|
            0 <= i < alternatives.len() ==> resolved(#[trigger] alternatives[i]),
        _ => true,
    }
}

/// Each node of the sequence is as parsing leaves a node.
pub open spec fn resolved(nodes: Seq<Node>) -> bool
    decreases nodes, 1nat,
{
    forall|i: int| 0 <= i < nodes.len() ==> resolved_node(#[trigger] nodes[i])
}

/// No start anchor stands in `node` or anywhere below it.
pub open spec fn free_of_start_anchor(node: Node) -> bool
    decreases node, 0nat,
{
    match node {
        Node::StartAnchor => false,
        Node::OneOrMore(target) | Node::ZeroOrMore(target) | Node::ZeroOrOne(target) => {
            target matches Some(atom) ==> free_of_start_anchor(*atom)
        },
        Node::PositiveClass(members) | Node::NegativeClass(members) => all_free_of_start_anchor(
            members,
        ),
        Node::Group(alternatives) => forall|i: int|
            0 <= i < alternatives.len() ==> all_free_of_start_anchor(#[trigger] alternatives[i]),
        _ => true,
    }
}

/// No start anchor stands anywhere in the sequence.
pub open spec fn all_free_of_start_anchor(nodes: Seq<Node>) -> bool
    decreases nodes, 1nat,
{
    forall|i: int| 0 <= i < nodes.len() ==> free_of_start_anchor(#[trigger] nodes[i])
}

/// Below `node`, an end anchor stands only at the end of a sequence, and
/// never as the target of a quantifier.
pub open spec fn end_anchors_placed(node: Node) -> bool
    decreases node, 0nat,
{
    match node {
        Node::OneOrMore(target) | Node::ZeroOrMore(target) | Node::ZeroOrOne(target) => {
            target matches Some(atom) ==> !(*atom is EndAnchor) && end_anchors_placed(*atom)
        },
        Node::PositiveClass(members) | Node::NegativeClass(members) => end_anchor_last(members),
        Node::Group(alternatives) => forall|i: int|
            0 <= i < alternatives.len() ==> end_anchor_last(#[trigger] alternatives[i]),
        _ => true,
    }
}

/// An end anchor stands in the sequence only as its last node, and the same
/// holds of every sequence below.
pub open spec fn end_anchor_last(nodes: Seq<Node>) -> bool
    decreases nodes, 1nat,
{
    forall|i: int|
        0 <= i < nodes.len() ==> end_anchors_placed(#[trigger] nodes[i]) && (nodes[i] is EndAnchor
            ==> i == nodes.len() - 1)
}

/// The start anchor stands at the head of the pattern or nowhere: the first
/// node is the anchor, or a quantifier whose target is the anchor, or holds
/// none, and no later node holds one.
pub open spec fn start_anchor_first(nodes: Seq<Node>) -> bool {
    &&& forall|i: int| 1 <= i < nodes.len() ==> free_of_start_anchor(#[trigger] nodes[i])
    &&& nodes.len() > 0 ==> {
        ||| nodes[0] is StartAnchor
        ||| is_quantifier(nodes[0]) && nodes[0] == bind(nodes[0], Node::StartAnchor)
        ||| free_of_start_anchor(nodes[0])
    }
}

/// The pattern is as parsing leaves a pattern: every quantifier has its
/// target, no class holds a quantifier or a group, a start anchor stands only
/// at the head (as the first node, or as the target of a quantifier that is
/// the first node), and an end anchor only at the end of its sequence.
pub open spec fn well_formed(nodes: Seq<Node>) -> bool {
    resolved(nodes) && start_anchor_first(nodes) && end_anchor_last(nodes)
}

/// `c` has no meaning of its own in a pattern text: it stands for itself
/// wherever it occurs behind the first character.
pub open spec fn is_plain(c: char) -> bool {
    c != '(' && c != '[' && c != '\\' && c != '$' && c != '+' && c != '*' && c != '?' && c != '.'
}

} // verus!
