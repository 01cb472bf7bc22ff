//! What it means for a pattern to match: the length that a sequence of
//! nodes matches at the start of an input, and where in an input a pattern
//! is found.

use vstd::prelude::*;
use crate::chars::{ascii_alphanumeric, ascii_digit};
use crate::pattern::{literal, literal_nodes, Node};

verus! {

/// What can go wrong while a pattern is matched, as opposed to a plain
/// failure to match.
#[derive(Debug, Clone, Copy, PartialEq, Eq, Structural)]
pub enum MatchError {
    /// A back-reference names a group that has captured nothing so far.
    MissingBackReference,
    /// A character class holds a quantifier or a group.
    ClassNesting,
}

impl MatchError {
    /// What [`MatchError::message`] says of this error.
    pub open spec fn message_text(self) -> Seq<char> {
        match self {
            MatchError::MissingBackReference => "Back reference does not exist"@,
            MatchError::ClassNesting => "character class cannot contain a quantifier or a group"@,
        }
    }

    /// A sentence that describes the error.
    pub fn message(&self) -> (text: String)
        ensures
            text@ == self.message_text(),
    {
        match self {
            MatchError::MissingBackReference => "Back reference does not exist".to_string(),
            MatchError::ClassNesting =>
                "character class cannot contain a quantifier or a group".to_string(),
        }
    }
}

/// `Ok(b)` becomes `Ok(!b)`; an error stays.
pub open spec fn negated(outcome: Result<bool, MatchError>) -> Result<bool, MatchError> {
    match outcome {
        Ok(b) => Ok(!b),
        Err(e) => Err(e),
    }
}

/// Whether the single character `c` satisfies `node`.
///
/// Only a literal, a wildcard and the classes can be satisfied; any other
/// node is satisfied by no character.
pub open spec fn accepts(node: Node, c: char) -> Result<bool, MatchError>
    decreases node, 0nat,
{
    match node {
        Node::Wildcard => Ok(true),
        Node::Literal(character) => Ok(c == character),
        Node::DigitClass => Ok(ascii_digit(c)),
        Node::WordClass => Ok(ascii_alphanumeric(c)),
        Node::PositiveClass(members) => class_accepts(members, c, 0),
        Node::NegativeClass(members) => negated(class_accepts(members, c, 0)),
        _ => Ok(false),
    }
}

/// Whether `c` satisfies one of `members[from..]`, tried in order.
///
/// The first member that does not plainly refuse `c` decides: it accepts, or
/// it is an error. A back-reference in a class has no capture to refer to; a
/// quantifier or a group has no place in a class.
pub open spec fn class_accepts(members: Seq<Node>, c: char, from: nat) -> Result<bool, MatchError>
    decreases members, members.len() - from,
{
    if from >= members.len() {
        Ok(false)
    } else {
        match members[from as int] {
            Node::BackReference(_) => Err(MatchError::MissingBackReference),
            Node::OneOrMore(_) | Node::ZeroOrMore(_) | Node::ZeroOrOne(_) | Node::Group(_) => Err(
                MatchError::ClassNesting,
            ),
            member => match accepts(member, c) {
                Ok(true) => Ok(true),
                Ok(false) => class_accepts(members, c, from + 1),
                Err(e) => Err(e),
            },
        }
    }
}

/// The number of leading characters of `input` that each satisfy `target`.
pub open spec fn leading_run(input: Seq<char>, target: Node) -> nat
    decreases input.len(),
{
    if input.len() > 0 && accepts(target, input[0]) == Ok::<bool, MatchError>(true) {
        1 + leading_run(input.skip(1), target)
    } else {
        0
    }
}

/// `input` begins with `prefix`.
pub open spec fn starts_with(input: Seq<char>, prefix: Seq<char>) -> bool {
    prefix.len() <= input.len() && input.take(prefix.len() as int) == prefix
}

/// The length matched at the start of `input` by `pattern`, added to
/// `matched`, the length matched before; `Ok(0)` where the pattern does not
/// match. `captures` holds what the groups before have matched, in order.
pub open spec fn match_here(
    input: Seq<char>,
    pattern: Seq<Node>,
    matched: nat,
    captures: Seq<Seq<char>>,
) -> Result<nat, MatchError>
    decreases pattern, input.len(), 0nat,
{
    if pattern.len() == 0 {
        Ok(matched)
    } else if input.len() == 0 {
        if pattern.len() == 1 && pattern[0] is EndAnchor {
            Ok(matched)
        } else {
            Ok(0)
        }
    } else {
        let rest = pattern.skip(1);
        match pattern[0] {
            Node::BackReference(target) => {
                if 1 <= target <= captures.len() {
                    let captured = captures[target - 1];
                    if starts_with(input, captured) {
                        match_here(
                            input.skip(captured.len() as int),
                            rest,
                            matched + captured.len(),
                            captures,
                        )
                    } else {
                        Ok(0)
                    }
                } else {
                    Err(MatchError::MissingBackReference)
                }
            },
            Node::Group(alternatives) => {
                match first_alternative(input, alternatives, captures, 0) {
                    Some(len) => match_here(
                        input.skip(len as int),
                        rest,
                        matched + len,
                        captures.push(input.take(len as int)),
                    ),
                    None => Ok(0),
                }
            },
            Node::OneOrMore(Some(target)) => {
                let run = leading_run(input, *target);
                if run > 0 {
                    match_here(input.skip(run as int), rest, matched + run, captures)
                } else {
                    Ok(0)
                }
            },
            Node::ZeroOrMore(Some(target)) => {
                match match_here(input, rest, 0, captures) {
                    Ok(len) => {
                        if len > 0 {
                            Ok(matched + len)
                        } else if accepts(*target, input[0]) == Ok::<bool, MatchError>(true) {
                            match_here(input.skip(1), pattern, matched + 1, captures)
                        } else {
                            Ok(0)
                        }
                    },
                    Err(_) => Ok(0),
                }
            },
            Node::ZeroOrOne(Some(target)) => {
                match match_here(input, rest, 0, captures) {
                    Ok(len) => {
                        if len > 0 {
                            Ok(matched + len)
                        } else if accepts(*target, input[0]) == Ok::<bool, MatchError>(true) {
                            match_here(input.skip(1), rest, matched + 1, captures)
                        } else {
                            Ok(0)
                        }
                    },
                    Err(_) => Ok(0),
                }
            },
            node => {
                if accepts(node, input[0]) == Ok::<bool, MatchError>(true) {
                    match_here(input.skip(1), rest, matched + 1, captures)
                } else {
                    Ok(0)
                }
            },
        }
    }
}

/// The length that the first of `alternatives[from..]` to match a non-empty
/// start of `input` matches there, if there is one. An alternative that ends
/// in an error counts as one that does not match.
pub open spec fn first_alternative(
    input: Seq<char>,
    alternatives: Seq<Seq<Node>>,
    captures: Seq<Seq<char>>,
    from: nat,
) -> Option<nat>
    decreases alternatives, input.len(), alternatives.len() - from,
{
    if from >= alternatives.len() {
        None
    } else {
        match match_here(input, alternatives[from as int], 0, captures) {
            Ok(len) => if len > 0 {
                Some(len)
            } else {
                first_alternative(input, alternatives, captures, from + 1)
            },
            Err(_) => first_alternative(input, alternatives, captures, from + 1),
        }
    }
}

/// An attempt at `offset` matches a non-empty stretch of `input`.
pub open spec fn hits(input: Seq<char>, pattern: Seq<Node>, offset: nat) -> bool {
    match_here(input.skip(offset as int), pattern, 0, Seq::empty()) matches Ok(len) && len > 0
}

/// The first offset from `from` on, and before the end of `input`, at which
/// an attempt hits.
pub open spec fn first_hit(input: Seq<char>, pattern: Seq<Node>, from: nat) -> Option<nat>
    decreases input.len() - from,
{
    if from >= input.len() {
        None
    } else if hits(input, pattern, from) {
        Some(from)
    } else {
        first_hit(input, pattern, from + 1)
    }
}

/// What matching `pattern` against `input` gives.
///
/// A pattern that begins with a start anchor is tried once, at the start of
/// the input, and whatever that attempt gives is the result. Any other
/// pattern is tried at each offset in turn, and the first attempt that
/// matches a non-empty stretch gives the result; `Ok(0)` if none does.
pub open spec fn find_match(input: Seq<char>, pattern: Seq<Node>) -> Result<nat, MatchError> {
    if pattern.len() > 0 && pattern[0] is StartAnchor {
        match_here(input, pattern.skip(1), 0, Seq::empty())
    } else {
        match first_hit(input, pattern, 0) {
            Some(offset) => match_here(input.skip(offset as int), pattern, 0, Seq::empty()),
            None => Ok(0),
        }
    }
}

/// A match length as a mathematical number.
pub open spec fn outcome_view(result: Result<usize, MatchError>) -> Result<nat, MatchError> {
    match result {
        Ok(len) => Ok(len as nat),
        Err(e) => Err(e),
    }
}

/// Matching a run of literals and then `rest` is testing that the input
/// begins with the text they spell, and matching `rest` after it.
pub proof fn lemma_match_literals(
    input: Seq<char>,
    text: Seq<char>,
    rest: Seq<Node>,
    matched: nat,
    captures: Seq<Seq<char>>,
)
    ensures
        match_here(input, literal_nodes(text) + rest, matched, captures) == (if starts_with(
            input,
            text,
        ) {
            match_here(input.skip(text.len() as int), rest, matched + text.len(), captures)
        } else {
            Ok(0)
        }),
    decreases text.len(),
{
    let pattern = literal_nodes(text) + rest;
    if text.len() == 0 {
        assert(pattern =~= rest);
        assert(input.skip(0) =~= input);
        assert(input.take(0) =~= text);
    } else {
        assert(pattern[0] == literal(text[0]));
        assert(pattern.skip(1) =~= literal_nodes(text.skip(1)) + rest);
        if input.len() > 0 {
            if input[0] == text[0] {
                lemma_match_literals(input.skip(1), text.skip(1), rest, matched + 1, captures);
                if starts_with(input.skip(1), text.skip(1)) {
                    assert(input.skip(1).skip(text.len() - 1) =~= input.skip(text.len() as int));
                    assert(input.take(text.len() as int) =~= text) by {
                        assert forall|i: int| 0 <= i < text.len() implies input.take(
                            text.len() as int,
                        )[i] == text[i] by {
                            if i > 0 {
                                assert(input.skip(1).take(text.len() - 1)[i - 1] == text.skip(
                                    1,
                                )[i - 1]);
                            }
                        }
                    }
                }
                if starts_with(input, text) {
                    assert(input.skip(1).take(text.len() - 1) =~= text.skip(1)) by {
                        assert forall|i: int| 0 <= i < text.len() - 1 implies input.skip(1).take(
                            text.len() - 1,
                        )[i] == text.skip(1)[i] by {
                            assert(input.take(text.len() as int)[i + 1] == text[i + 1]);
                        }
                    }
                }
            } else if starts_with(input, text) {
                assert(input.take(text.len() as int)[0] == input[0]);
            }
        }
    }
}

} // verus!
