//! Pattern nodes: the type that programs build and hold, and the
//! mathematical tree that contracts speak of.

use vstd::prelude::*;

verus! {

/// A pattern node as mathematics sees it: the same tree as [`RE`], with
/// sequences in place of vectors, so that two nodes are equal exactly when
/// they have the same structure.
pub enum Node {
    /// Matches the one character it holds.
    Literal(char),
    /// Matches any one character.
    Wildcard,
    /// Matches one ASCII digit.
    DigitClass,
    /// Matches one ASCII letter or digit.
    WordClass,
    /// Matches one character that a member matches.
    PositiveClass(Seq<Node>),
    /// Matches one character that no member matches.
    NegativeClass(Seq<Node>),
    /// Stands at the head of a pattern that is tried at the start of the
    /// input only.
    StartAnchor,
    /// Matches the end of the input.
    EndAnchor,
    /// One or more characters that the target matches.
    OneOrMore(Option<Box<Node>>),
    /// Characters that the target matches, as far as what follows does not
    /// match yet.
    ZeroOrMore(Option<Box<Node>>),
    /// One character that the target matches, unless what follows matches
    /// without it.
    ZeroOrOne(Option<Box<Node>>),
    /// Matches what the first of its alternatives to match matches, and
    /// captures it.
    Group(Seq<Seq<Node>>),
    /// Matches what the group of this number, counted from one, has
    /// captured.
    BackReference(nat),
}

/// A pattern node. A pattern is a sequence of these.
#[derive(Debug, PartialEq, Eq)]
#[allow(inconsistent_fields)]
pub enum RE {
    /// A literal character.
    Character { character: char },
    /// A class: one character that a member matches.
    CClass { members: Box<Vec<RE>> },
    /// A negated class: one character that no member matches.
    NCClass { members: Box<Vec<RE>> },
    /// `\d`: one ASCII digit.
    DigitClass,
    /// `\w`: one ASCII letter or digit.
    AlphanumericClass,
    /// `.`: any one character.
    Wildcard,
    /// `^` at the head of a pattern.
    StartAnchor,
    /// `$` at the end of a pattern.
    EndAnchor,
    /// `+`; without a target until the quantifiers are bound.
    OneOrMore { target: Option<Box<RE>> },
    /// `*`; without a target until the quantifiers are bound.
    ZeroOrMore { target: Option<Box<RE>> },
    /// `?`; without a target until the quantifiers are bound.
    ZeroOrOne { target: Option<Box<RE>> },
    /// An alternation; it also captures what it matched.
    Alternation { members: Vec<Vec<RE>> },
    /// A reference to what the group of this number, counted from one, has
    /// captured.
    BackReference { target: u32 },
}

/// The model of one node.
pub open spec fn node_view(re: RE) -> Node
    decreases re,
{
    match re {
        RE::Character { character } => Node::Literal(character),
        RE::CClass { members } => Node::PositiveClass(sequence_view(members@)),
        RE::NCClass { members } => Node::NegativeClass(sequence_view(members@)),
        RE::DigitClass => Node::DigitClass,
        RE::AlphanumericClass => Node::WordClass,
        RE::Wildcard => Node::Wildcard,
        RE::StartAnchor => Node::StartAnchor,
        RE::EndAnchor => Node::EndAnchor,
        RE::OneOrMore { target } => Node::OneOrMore(target_view(target)),
        RE::ZeroOrMore { target } => Node::ZeroOrMore(target_view(target)),
        RE::ZeroOrOne { target } => Node::ZeroOrOne(target_view(target)),
        RE::Alternation { members } => Node::Group(alternatives_view(members@)),
        RE::BackReference { target } => Node::BackReference(target as nat),
    }
}

/// The model of a quantifier's target.
pub open spec fn target_view(target: Option<Box<RE>>) -> Option<Box<Node>>
    decreases target,
{
    match target {
        Some(atom) => Some(Box::new(node_view(*atom))),
        None => None,
    }
}

/// The model of a sequence of nodes, node by node. (The test on `i` is
/// there for the termination check; the index is always in range.)
pub open spec fn sequence_view(nodes: Seq<RE>) -> Seq<Node>
    decreases nodes,
{
    Seq::new(
        nodes.len(),
        |i: int|
            if 0 <= i < nodes.len() {
                node_view(nodes[i])
            } else {
                Node::Wildcard
            },
    )
}

/// The model of a group's alternatives.
pub open spec fn alternatives_view(members: Seq<Vec<RE>>) -> Seq<Seq<Node>>
    decreases members,
{
    Seq::new(
        members.len(),
        |i: int|
            if 0 <= i < members.len() {
                sequence_view(members[i]@)
            } else {
                Seq::empty()
            },
    )
}

impl View for RE {
    type V = Node;

    open spec fn view(&self) -> Node {
        node_view(*self)
    }
}

/// The node that matches exactly the character `c`.
pub open spec fn literal(c: char) -> Node {
    Node::Literal(c)
}

/// The literal nodes that spell `text`.
pub open spec fn literal_nodes(text: Seq<char>) -> Seq<Node> {
    Seq::new(text.len(), |i: int| literal(text[i]))
}

/// The model of a sequence with one more node is the model of the sequence
/// with the model of the node after it.
pub proof fn lemma_sequence_view_push(nodes: Seq<RE>, node: RE)
    ensures
        sequence_view(nodes.push(node)) == sequence_view(nodes).push(node@),
{
    assert(sequence_view(nodes.push(node)) =~= sequence_view(nodes).push(node@));
}

/// The model of a part of a sequence is that part of the sequence's model.
pub proof fn lemma_sequence_view_subrange(nodes: Seq<RE>, from: int, to: int)
    requires
        0 <= from <= to <= nodes.len(),
    ensures
        sequence_view(nodes.subrange(from, to)) == sequence_view(nodes).subrange(from, to),
{
    assert(sequence_view(nodes.subrange(from, to)) =~= sequence_view(nodes).subrange(from, to));
}

/// A deep copy of a sequence of nodes.
pub fn clone_sequence(nodes: &Vec<RE>) -> (copy: Vec<RE>)
    ensures
        sequence_view(copy@) == sequence_view(nodes@),
    decreases nodes,
{
    let mut copy: Vec<RE> = Vec::new();
    let mut i: usize = 0;
    while i < nodes.len()
        invariant
            i <= nodes.len(),
            copy.len() == i,
            forall|k: int| 0 <= k < i ==> copy[k]@ == nodes[k]@,
        decreases nodes.len() - i,
    {
        let node = nodes[i].clone();
        copy.push(node);
        i += 1;
    }
    assert(sequence_view(copy@) =~= sequence_view(nodes@));
    copy
}

/// A deep copy of a group's alternatives.
pub fn clone_alternatives(members: &Vec<Vec<RE>>) -> (copy: Vec<Vec<RE>>)
    ensures
        alternatives_view(copy@) == alternatives_view(members@),
    decreases members,
{
    let mut copy: Vec<Vec<RE>> = Vec::new();
    let mut i: usize = 0;
    while i < members.len()
        invariant
            i <= members.len(),
            copy.len() == i,
            forall|k: int| 0 <= k < i ==> sequence_view(copy[k]@) == sequence_view(members[k]@),
        decreases members.len() - i,
    {
        let member = clone_sequence(&members[i]);
        copy.push(member);
        i += 1;
    }
    assert(alternatives_view(copy@) =~= alternatives_view(members@));
    copy
}

impl Clone for RE {
    fn clone(&self) -> (copy: Self)
        ensures
            copy@ == self@,
        decreases self,
    {
        match self {
            RE::Character { character } => RE::Character { character: *character },
            RE::CClass { members } => RE::CClass { members: Box::new(clone_sequence(members)) },
            RE::NCClass { members } => RE::NCClass { members: Box::new(clone_sequence(members)) },
            RE::DigitClass => RE::DigitClass,
            RE::AlphanumericClass => RE::AlphanumericClass,
            RE::Wildcard => RE::Wildcard,
            RE::StartAnchor => RE::StartAnchor,
            RE::EndAnchor => RE::EndAnchor,
            RE::OneOrMore { target } => RE::OneOrMore {
                target: match target {
                    Some(atom) => Some(Box::new((&**atom).clone())),
                    None => None,
                },
            },
            RE::ZeroOrMore { target } => RE::ZeroOrMore {
                target: match target {
                    Some(atom) => Some(Box::new((&**atom).clone())),
                    None => None,
                },
            },
            RE::ZeroOrOne { target } => RE::ZeroOrOne {
                target: match target {
                    Some(atom) => Some(Box::new((&**atom).clone())),
                    None => None,
                },
            },
            RE::Alternation { members } => RE::Alternation {
                members: clone_alternatives(members),
            },
            RE::BackReference { target } => RE::BackReference { target: *target },
        }
    }
}

/// The node that matches exactly `character`.
pub fn literal_node(character: char) -> (node: RE)
    ensures
        node@ == literal(character),
{
    RE::Character { character }
}

/// The character that stands for the digit `digit`.
pub open spec fn digit_char(digit: nat) -> char {
    ('0' as nat + digit) as char
}

/// The decimal numeral of `number`, without leading zeros.
pub open spec fn decimal(number: nat) -> Seq<char>
    decreases number,
{
    if number < 10 {
        seq![digit_char(number)]
    } else {
        decimal(number / 10).push(digit_char(number % 10))
    }
}

/// The text that [`RE::to_string`] gives for a quantifier's target: that of
/// the target, or nothing where the quantifier has none.
pub open spec fn target_rendering(target: Option<Box<Node>>) -> Seq<char>
    decreases target,
{
    match target {
        Some(atom) => rendering(*atom),
        None => Seq::empty(),
    }
}

/// The text that [`RE::to_string`] gives for a node.
pub open spec fn rendering(node: Node) -> Seq<char>
    decreases node,
{
    match node {
        Node::Literal(character) => seq![character],
        Node::PositiveClass(_) => "cclass"@,
        Node::NegativeClass(_) => "ncclass"@,
        Node::DigitClass => "\\d"@,
        Node::WordClass => "\\w"@,
        Node::Wildcard => "."@,
        Node::StartAnchor => "^"@,
        Node::EndAnchor => "$"@,
        Node::OneOrMore(target) => target_rendering(target).push('+'),
        Node::ZeroOrMore(target) => target_rendering(target).push('*'),
        Node::ZeroOrOne(target) => target_rendering(target).push('?'),
        Node::Group(_) => "alternation"@,
        Node::BackReference(target) => "\\"@ + decimal(target),
    }
}

/// The character that stands for a digit.
pub fn digit_character(digit: u32) -> (character: char)
    requires
        digit < 10,
    ensures
        character == digit_char(digit as nat),
{
    (digit as u8 + 48) as char
}

/// Appends the decimal numeral of `number` to `text`.
pub fn push_decimal(text: &mut String, number: u32)
    ensures
        final(text)@ == old(text)@ + decimal(number as nat),
    decreases number,
{
    if number >= 10 {
        push_decimal(text, number / 10);
    }
    text.push(digit_character(number % 10));
    assert(final(text)@ =~= old(text)@ + decimal(number as nat));
}

/// The text of a quantifier's target, to which the quantifier's sign is
/// appended.
pub fn target_to_string(target: &Option<Box<RE>>) -> (text: String)
    ensures
        text@ == target_rendering(target_view(*target)),
    decreases target,
{
    match target {
        Some(atom) => (&**atom).to_string(),
        None => String::new(),
    }
}

impl RE {
    /// A short text for the node: a literal is its character, a quantifier
    /// is its target's text and its sign, a class and a group are a word.
    pub fn to_string(&self) -> (text: String)
        ensures
            text@ == rendering(self@),
        decreases self,
    {
        match self {
            RE::Character { character } => {
                let mut text = String::new();
                text.push(*character);
                text
            },
            RE::CClass { .. } => "cclass".to_string(),
            RE::NCClass { .. } => "ncclass".to_string(),
            RE::DigitClass => "\\d".to_string(),
            RE::AlphanumericClass => "\\w".to_string(),
            RE::Wildcard => ".".to_string(),
            RE::StartAnchor => "^".to_string(),
            RE::EndAnchor => "$".to_string(),
            RE::OneOrMore { target } => {
                let mut text = target_to_string(target);
                text.push('+');
                text
            },
            RE::ZeroOrMore { target } => {
                let mut text = target_to_string(target);
                text.push('*');
                text
            },
            RE::ZeroOrOne { target } => {
                let mut text = target_to_string(target);
                text.push('?');
                text
            },
            RE::Alternation { .. } => "alternation".to_string(),
            RE::BackReference { target } => {
                let mut text = "\\".to_string();
                push_decimal(&mut text, *target);
                text
            },
        }
    }
}

} // verus!
