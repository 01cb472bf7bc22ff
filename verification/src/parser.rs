//! The parser: from a pattern text to its nodes, as the grammar defines
//! them.

use vstd::prelude::*;
use vstd::slice::slice_subrange;
use crate::chars::decimal_digit;
use crate::grammar::{
    bind, flat_parse, is_quantifier, lemma_position_from, members_are_leaves,
    parse_alternatives, parse_pattern, position, position_from, prepend, resolve,
    resolve_alternatives, resolve_node, well_formed, ParseError,
};
use crate::grammar_laws::lemma_parse_well_formed;
use crate::pattern::{
    alternatives_view, lemma_sequence_view_push, literal, literal_node, sequence_view, Node, RE,
};

verus! {

/// The index of the first `wanted` among `characters`.
pub fn find_character(characters: &[char], wanted: char) -> (found: Option<usize>)
    ensures
        match found {
            Some(index) => position(characters@, wanted) == Some(index as int),
            None => position(characters@, wanted) is None,
        },
{
    let mut i: usize = 0;
    while i < characters.len()
        invariant
            i <= characters@.len(),
            position(characters@, wanted) == position_from(characters@, wanted, i as int),
        decreases characters@.len() - i,
    {
        if characters[i] == wanted {
            return Some(i);
        }
        i += 1;
    }
    None
}

/// `text` begins with what spells `node`, `consumed` characters long, and
/// goes on with what the rest of it spells.
pub open spec fn begins_with_node(text: Seq<char>, node: Node, consumed: int) -> bool {
    &&& 0 < consumed <= text.len()
    &&& flat_parse(text) == prepend(node, flat_parse(text.skip(consumed)))
}

/// Parses the alternatives of a group, whose inside is `body`, and appends
/// them to `members`. Where the text is refused, `members` still begins with
/// what it held.
pub fn _parse_alternation(body: &[char], members: &mut Vec<Vec<RE>>) -> (result: Result<
    (),
    ParseError,
>)
    ensures
        match result {
            Ok(_) => parse_alternatives(body@) matches Ok(alternatives) && alternatives_view(
                final(members)@,
            ) == alternatives_view(old(members)@) + alternatives,
            Err(e) => parse_alternatives(body@) == Err::<Seq<Seq<Node>>, ParseError>(e),
        },
        alternatives_view(old(members)@).is_prefix_of(alternatives_view(final(members)@)),
    decreases body@.len(), 1nat,
{
    let ghost before = alternatives_view(members@);
    let body_len = body.len();
    match find_character(body, '|') {
        None => {
            let mut member: Vec<RE> = Vec::new();
            match _parse(body, &mut member) {
                Ok(_) => {
                    assert(sequence_view(member@) =~= flat_parse(body@)->Ok_0);
                    members.push(member);
                    assert(alternatives_view(members@) =~= before + seq![flat_parse(body@)->Ok_0]);
                    Ok(())
                },
                Err(e) => Err(e),
            }
        },
        Some(bar) => {
            proof {
                lemma_position_from(body@, '|', 0);
            }
            let mut member: Vec<RE> = Vec::new();
            match _parse(slice_subrange(body, 0, bar), &mut member) {
                Ok(_) => {
                    let ghost first = flat_parse(body@.take(bar as int))->Ok_0;
                    assert(sequence_view(member@) =~= first);
                    members.push(member);
                    assert(alternatives_view(members@) =~= before + seq![first]);
                    assert(body@.subrange(bar + 1, body@.len() as int) == body@.skip(bar + 1));
                    match _parse_alternation(slice_subrange(body, bar + 1, body_len), members) {
                        Ok(_) => {
                            let ghost others = parse_alternatives(body@.skip(bar + 1))->Ok_0;
                            assert(before + seq![first] + others =~= before + (seq![first]
                                + others));
                            Ok(())
                        },
                        Err(e) => Err(e),
                    }
                },
                Err(e) => Err(e),
            }
        },
    }
}

/// Parses `characters` into nodes, one after the other, and appends them to
/// `regex`. A `+`, `*` or `?` becomes a quantifier without target. Where the
/// text is refused, `regex` still begins with what it held, and may hold
/// nodes that were parsed before the error was found.
pub fn _parse(characters: &[char], regex: &mut Vec<RE>) -> (result: Result<(), ParseError>)
    ensures
        match result {
            Ok(_) => flat_parse(characters@) matches Ok(nodes) && sequence_view(final(regex)@)
                == sequence_view(old(regex)@) + nodes,
            Err(e) => flat_parse(characters@) == Err::<Seq<Node>, ParseError>(e),
        },
        sequence_view(old(regex)@).is_prefix_of(sequence_view(final(regex)@)),
    decreases characters@.len(), 0nat,
{
    let len = characters.len();
    let ghost text = characters@;
    let ghost before = sequence_view(regex@);
    if len == 0 {
        assert(before + Seq::<Node>::empty() =~= before);
        return Ok(());
    }
    let first = characters[0];
    let (node, consumed): (RE, usize) = if first == '(' {
        let tail = slice_subrange(characters, 1, len);
        assert(tail@ == text.skip(1));
        match find_character(tail, ')') {
            None => {
                return Err(ParseError::UnterminatedGroup);
            },
            Some(end) => {
                proof {
                    lemma_position_from(tail@, ')', 0);
                }
                if end == 0 {
                    return Err(ParseError::EmptyGroup);
                }
                assert(tail@.subrange(0, end as int) =~= text.subrange(1, 1 + end));
                let mut members: Vec<Vec<RE>> = Vec::new();
                match _parse_alternation(slice_subrange(tail, 0, end), &mut members) {
                    Ok(_) => {
                        assert(alternatives_view(members@) =~= parse_alternatives(
                            text.subrange(1, 1 + end),
                        )->Ok_0);
                        let node = RE::Alternation { members };
                        assert(begins_with_node(text, node@, end + 2));
                        (node, end + 2)
                    },
                    Err(e) => {
                        return Err(e);
                    },
                }
            },
        }
    } else if first == '\\' {
        if len == 1 {
            return Err(ParseError::MissingEscape);
        }
        let specifier = characters[1];
        if specifier == 'd' {
            assert(begins_with_node(text, Node::DigitClass, 2));
            (RE::DigitClass, 2)
        } else if specifier == 'w' {
            assert(begins_with_node(text, Node::WordClass, 2));
            (RE::AlphanumericClass, 2)
        } else {
            match specifier.to_digit(10) {
                Some(target) => {
                    assert(target as nat == decimal_digit(specifier));
                    assert(begins_with_node(text, Node::BackReference(target as nat), 2));
                    (RE::BackReference { target }, 2)
                },
                None => {
                    return Err(ParseError::UnsupportedEscape { character: specifier });
                },
            }
        }
    } else if first == '[' {
        let negated = len > 1 && characters[1] == '^';
        let start: usize = if negated {
            2
        } else {
            1
        };
        let tail = slice_subrange(characters, start, len);
        assert(tail@ == text.skip(start as int));
        match find_character(tail, ']') {
            None => {
                return Err(ParseError::UnterminatedClass);
            },
            Some(end) => {
                proof {
                    lemma_position_from(tail@, ']', 0);
                }
                if end == 0 {
                    return Err(ParseError::EmptyClass);
                }
                assert(tail@.subrange(0, end as int) =~= text.subrange(
                    start as int,
                    start + end,
                ));
                let mut cls_members: Vec<RE> = Vec::new();
                match _parse(slice_subrange(tail, 0, end), &mut cls_members) {
                    Ok(_) => {
                        assert(sequence_view(cls_members@) =~= flat_parse(
                            text.subrange(start as int, start + end),
                        )->Ok_0);
                        let node = if negated {
                            RE::NCClass { members: Box::new(cls_members) }
                        } else {
                            RE::CClass { members: Box::new(cls_members) }
                        };
                        assert(begins_with_node(text, node@, start + end + 1));
                        (node, start + end + 1)
                    },
                    Err(e) => {
                        return Err(e);
                    },
                }
            },
        }
    } else if first == '$' {
        if len > 1 {
            return Err(ParseError::MisplacedEndAnchor);
        }
        assert(text.skip(1) =~= Seq::<char>::empty());
        assert(seq![Node::EndAnchor] + Seq::<Node>::empty() =~= seq![Node::EndAnchor]);
        assert(begins_with_node(text, Node::EndAnchor, 1));
        (RE::EndAnchor, 1)
    } else if first == '+' {
        assert(begins_with_node(text, Node::OneOrMore(None), 1));
        (RE::OneOrMore { target: None }, 1)
    } else if first == '*' {
        assert(begins_with_node(text, Node::ZeroOrMore(None), 1));
        (RE::ZeroOrMore { target: None }, 1)
    } else if first == '?' {
        assert(begins_with_node(text, Node::ZeroOrOne(None), 1));
        (RE::ZeroOrOne { target: None }, 1)
    } else if first == '.' {
        assert(begins_with_node(text, Node::Wildcard, 1));
        (RE::Wildcard, 1)
    } else {
        assert(begins_with_node(text, literal(first), 1));
        (literal_node(first), 1)
    };
    assert(begins_with_node(text, node@, consumed as int));
    let ghost model = node@;
    proof {
        lemma_sequence_view_push(regex@, node);
    }
    regex.push(node);
    assert(text.subrange(consumed as int, len as int) == text.skip(consumed as int));
    match _parse(slice_subrange(characters, consumed, len), regex) {
        Ok(_) => {
            let ghost nodes = flat_parse(text.skip(consumed as int))->Ok_0;
            assert(before.push(model) + nodes =~= before + (seq![model] + nodes));
            Ok(())
        },
        Err(e) => Err(e),
    }
}

/// Whether the node is one of the three quantifiers.
pub fn is_quantifier_node(node: &RE) -> (found: bool)
    ensures
        found == is_quantifier(node@),
{
    match node {
        RE::OneOrMore { .. } | RE::ZeroOrMore { .. } | RE::ZeroOrOne { .. } => true,
        _ => false,
    }
}

/// Whether no member of a class is a quantifier or a group.
pub fn holds_only_leaves(members: &Vec<RE>) -> (found: bool)
    ensures
        found == members_are_leaves(sequence_view(members@)),
{
    let ghost nodes = sequence_view(members@);
    let mut i: usize = 0;
    while i < members.len()
        invariant
            i <= members.len(),
            nodes == sequence_view(members@),
            forall|k: int|
                0 <= k < i ==> !is_quantifier(#[trigger] nodes[k]) && !(nodes[k] is Group),
        decreases members.len() - i,
    {
        assert(nodes[i as int] == members@[i as int]@);
        match &members[i] {
            RE::OneOrMore { .. } | RE::ZeroOrMore { .. } | RE::ZeroOrOne { .. } | RE::Alternation {
                ..
            } => {
                return false;
            },
            _ => {},
        }
        i += 1;
    }
    true
}

/// Resolves each alternative of a group.
pub fn _post_process_alternatives(members: &Vec<Vec<RE>>) -> (result: Result<
    Vec<Vec<RE>>,
    ParseError,
>)
    ensures
        match result {
            Ok(resolved) => resolve_alternatives(alternatives_view(members@)) == Ok::<
                Seq<Seq<Node>>,
                ParseError,
            >(alternatives_view(resolved@)),
            Err(e) => resolve_alternatives(alternatives_view(members@)) == Err::<
                Seq<Seq<Node>>,
                ParseError,
            >(e),
        },
    decreases alternatives_view(members@), 0nat,
{
    let ghost alternatives = alternatives_view(members@);
    let mut new_members: Vec<Vec<RE>> = Vec::new();
    let mut i: usize = 0;
    assert(alternatives.skip(0) =~= alternatives);
    assert(alternatives_view(new_members@) =~= Seq::<Seq<Node>>::empty());
    while i < members.len()
        invariant
            i <= members.len(),
            alternatives == alternatives_view(members@),
            match resolve_alternatives(alternatives.skip(i as int)) {
                Ok(tail) => resolve_alternatives(alternatives) == Ok::<Seq<Seq<Node>>, ParseError>(
                    alternatives_view(new_members@) + tail,
                ),
                Err(e) => resolve_alternatives(alternatives) == Err::<Seq<Seq<Node>>, ParseError>(
                    e,
                ),
            },
        decreases members.len() - i,
    {
        let ghost done = alternatives_view(new_members@);
        let ghost remaining = alternatives.skip(i as int);
        assert(remaining[0] == sequence_view(members@[i as int]@));
        assert(remaining.skip(1) =~= alternatives.skip(i + 1));
        let member = members[i].clone();
        assert(sequence_view(member@) =~= sequence_view(members@[i as int]@));
        match _post_process(member) {
            Ok(new_member) => {
                let ghost first = sequence_view(new_member@);
                new_members.push(new_member);
                assert(alternatives_view(new_members@) =~= done.push(first));
                assert forall|tail: Seq<Seq<Node>>| done + (seq![first] + tail) == done.push(first)
                    + tail by {
                    assert(done + (seq![first] + tail) =~= done.push(first) + tail);
                }
            },
            Err(e) => {
                return Err(e);
            },
        }
        i += 1;
    }
    assert(alternatives_view(new_members@) + Seq::<Seq<Node>>::empty() =~= alternatives_view(
        new_members@,
    ));
    Ok(new_members)
}

/// Resolves one node: a group has each alternative resolved, a class is
/// checked to hold only leaves, any other node is copied.
pub fn _post_process_node(node: &RE) -> (result: Result<RE, ParseError>)
    ensures
        match result {
            Ok(resolved) => resolve_node(node@) == Ok::<Node, ParseError>(resolved@),
            Err(e) => resolve_node(node@) == Err::<Node, ParseError>(e),
        },
    decreases node@, 0nat,
{
    match node {
        RE::Alternation { members } => {
            match _post_process_alternatives(members) {
                Ok(new_members) => Ok(RE::Alternation { members: new_members }),
                Err(e) => Err(e),
            }
        },
        RE::CClass { members } => {
            if holds_only_leaves(members) {
                Ok(node.clone())
            } else {
                Err(ParseError::ClassNesting)
            }
        },
        RE::NCClass { members } => {
            if holds_only_leaves(members) {
                Ok(node.clone())
            } else {
                Err(ParseError::ClassNesting)
            }
        },
        _ => Ok(node.clone()),
    }
}

/// Binds the quantifiers of a flat sequence: a node followed by a quantifier
/// becomes the target of that quantifier, whatever node it is. A quantifier
/// that stands first, or behind another quantifier, is refused.
pub fn _post_process(regex: Vec<RE>) -> (result: Result<Vec<RE>, ParseError>)
    ensures
        parse_view(result) == resolve(sequence_view(regex@)),
    decreases sequence_view(regex@), 1nat,
{
    let ghost nodes = sequence_view(regex@);
    let mut new_regex: Vec<RE> = Vec::new();
    let mut i: usize = 0;
    assert(nodes.skip(0) =~= nodes);
    assert(sequence_view(new_regex@) =~= Seq::<Node>::empty());
    while i < regex.len()
        invariant
            i <= regex.len(),
            nodes == sequence_view(regex@),
            match resolve(nodes.skip(i as int)) {
                Ok(tail) => resolve(nodes) == Ok::<Seq<Node>, ParseError>(
                    sequence_view(new_regex@) + tail,
                ),
                Err(e) => resolve(nodes) == Err::<Seq<Node>, ParseError>(e),
            },
        decreases regex.len() - i,
    {
        let ghost done = sequence_view(new_regex@);
        let ghost remaining = nodes.skip(i as int);
        assert(remaining[0] == regex@[i as int]@);
        if is_quantifier_node(&regex[i]) {
            return Err(ParseError::QuantifierWithoutTarget);
        }
        match _post_process_node(&regex[i]) {
            Ok(atom) => {
                if i + 1 < regex.len() && is_quantifier_node(&regex[i + 1]) {
                    assert(remaining[1] == regex@[i + 1]@);
                    assert(remaining.skip(2) =~= nodes.skip(i + 2));
                    let ghost target = atom@;
                    let bound = match &regex[i + 1] {
                        RE::OneOrMore { .. } => RE::OneOrMore { target: Some(Box::new(atom)) },
                        RE::ZeroOrMore { .. } => RE::ZeroOrMore { target: Some(Box::new(atom)) },
                        _ => RE::ZeroOrOne { target: Some(Box::new(atom)) },
                    };
                    assert(bound@ == bind(remaining[1], target));
                    proof {
                        lemma_sequence_view_push(new_regex@, bound);
                        lemma_prepend_after(done, bound@);
                    }
                    new_regex.push(bound);
                    i += 2;
                } else {
                    assert(remaining.skip(1) =~= nodes.skip(i + 1));
                    proof {
                        lemma_sequence_view_push(new_regex@, atom);
                        lemma_prepend_after(done, atom@);
                    }
                    new_regex.push(atom);
                    i += 1;
                }
            },
            Err(e) => {
                return Err(e);
            },
        }
    }
    assert(sequence_view(new_regex@) + Seq::<Node>::empty() =~= sequence_view(new_regex@));
    Ok(new_regex)
}

/// Nodes before a sequence that begins with `node` are the nodes and then
/// `node` before the rest.
pub proof fn lemma_prepend_after(done: Seq<Node>, node: Node)
    ensures
        forall|tail: Seq<Node>| #[trigger] (done + (seq![node] + tail)) == done.push(node) + tail,
{
    assert forall|tail: Seq<Node>| #[trigger] (done + (seq![node] + tail)) == done.push(node)
        + tail by {
        assert(done + (seq![node] + tail) =~= done.push(node) + tail);
    }
}

/// What a parse gave, as mathematics sees it.
pub open spec fn parse_view(result: Result<Vec<RE>, ParseError>) -> Result<Seq<Node>, ParseError> {
    match result {
        Ok(regex) => Ok(sequence_view(regex@)),
        Err(e) => Err(e),
    }
}

/// The characters of a string, in order.
pub fn characters_of(text: &str) -> (characters: Vec<char>)
    ensures
        characters@ == text@,
{
    let mut characters: Vec<char> = Vec::new();
    for ch in it: text.chars()
        invariant
            characters@ == it.seq().take(it.index()),
    {
        characters.push(ch);
    }
    characters
}

/// Compiles a pattern text into the sequence of nodes that it stands for,
/// or says why the text is refused.
///
/// Every text is taken: the empty text stands for the empty pattern. The
/// nodes that come back are well formed.
pub fn parse(regex_string: &str) -> (result: Result<Vec<RE>, ParseError>)
    ensures
        parse_view(result) == parse_pattern(regex_string@),
        result matches Ok(regex) ==> well_formed(sequence_view(regex@)),
{
    proof {
        lemma_parse_well_formed(regex_string@);
    }
    let characters = characters_of(regex_string);
    let mut regex: Vec<RE> = Vec::new();
    let mut counter: usize = 0;
    if characters.len() > 0 && characters[0] == '^' {
        regex.push(RE::StartAnchor);
        counter += 1;
    }
    let ghost head = sequence_view(regex@);
    assert(head =~= if counter == 1 {
        seq![Node::StartAnchor]
    } else {
        Seq::<Node>::empty()
    });
    let body = slice_subrange(characters.as_slice(), counter, characters.len());
    assert(body@ =~= if counter == 1 {
        regex_string@.skip(1)
    } else {
        regex_string@
    });
    match _parse(body, &mut regex) {
        Ok(_) => {
            assert(Seq::<Node>::empty() + flat_parse(body@)->Ok_0 =~= flat_parse(body@)->Ok_0);
            _post_process(regex)
        },
        Err(e) => Err(e),
    }
}

} // verus!
