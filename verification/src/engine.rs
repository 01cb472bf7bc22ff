//! The matcher: it computes what the definition of matching says.

use vstd::prelude::*;
use vstd::slice::slice_subrange;
use crate::chars::{ascii_alphanumeric, ascii_digit};
use crate::matching::{
    accepts, class_accepts, find_match, first_alternative, first_hit, leading_run,
    lemma_match_literals, match_here, outcome_view, MatchError,
};
use crate::pattern::{
    alternatives_view, lemma_sequence_view_push, lemma_sequence_view_subrange, literal,
    literal_node, literal_nodes, sequence_view, Node, RE,
};
use crate::rank::{
    lemma_rank_alternative, lemma_rank_concat, lemma_rank_literals, node_rank, sequence_rank,
};

verus! {

/// Whether the character is the one that a literal node holds.
pub fn _match_character(input_character: &char, re_char: char) -> (found: bool)
    ensures
        found == (*input_character == re_char),
{
    *input_character == re_char
}

/// Whether the character is an ASCII digit.
pub fn _match_digit_class(input_character: &char) -> (found: bool)
    ensures
        found == ascii_digit(*input_character),
{
    input_character.is_ascii_digit()
}

/// Whether the character is an ASCII letter or digit.
pub fn _match_alphanumeric_class(input_character: &char) -> (found: bool)
    ensures
        found == ascii_alphanumeric(*input_character),
{
    input_character.is_ascii_alphanumeric()
}

/// Tests one character against one node.
pub fn match_single_character(c: &char, re_element: &RE) -> (result: Result<bool, MatchError>)
    ensures
        result == accepts(re_element@, *c),
    decreases re_element@, 0nat,
{
    match re_element {
        RE::Wildcard => Ok(true),
        RE::Character { character } => Ok(_match_character(c, *character)),
        RE::DigitClass => Ok(_match_digit_class(c)),
        RE::AlphanumericClass => Ok(_match_alphanumeric_class(c)),
        RE::CClass { members } => _match_character_class(c, members.as_slice()),
        RE::NCClass { members } => {
            match _match_character_class(c, members.as_slice()) {
                Ok(found) => Ok(!found),
                Err(e) => Err(e),
            }
        },
        _ => Ok(false),
    }
}

/// Tests one character against the members of a class, in order.
pub fn _match_character_class(input_character: &char, character_class: &[RE]) -> (result: Result<
    bool,
    MatchError,
>)
    ensures
        result == class_accepts(sequence_view(character_class@), *input_character, 0),
    decreases sequence_view(character_class@), 1nat,
{
    let ghost members = sequence_view(character_class@);
    let mut i: usize = 0;
    while i < character_class.len()
        invariant
            i <= character_class.len(),
            members == sequence_view(character_class@),
            class_accepts(members, *input_character, 0) == class_accepts(
                members,
                *input_character,
                i as nat,
            ),
        decreases character_class.len() - i,
    {
        assert(members[i as int] == character_class[i as int]@);
        match &character_class[i] {
            RE::BackReference { .. } => {
                return Err(MatchError::MissingBackReference);
            },
            RE::OneOrMore { .. } | RE::ZeroOrMore { .. } | RE::ZeroOrOne { .. } | RE::Alternation {
                ..
            } => {
                return Err(MatchError::ClassNesting);
            },
            member => {
                match match_single_character(input_character, member) {
                    Ok(true) => {
                        return Ok(true);
                    },
                    Ok(false) => {},
                    Err(e) => {
                        return Err(e);
                    },
                }
            },
        }
        i += 1;
    }
    Ok(false)
}

/// The characters of `characters` as a string.
pub fn collect_string(characters: &[char]) -> (text: String)
    ensures
        text@ == characters@,
{
    let mut text = String::new();
    let mut i: usize = 0;
    while i < characters.len()
        invariant
            i <= characters.len(),
            text@ == characters@.take(i as int),
        decreases characters.len() - i,
    {
        text.push(characters[i]);
        assert(characters@.take(i as int).push(characters@[i as int]) =~= characters@.take(
            i as int + 1,
        ));
        i += 1;
    }
    assert(characters@.take(characters@.len() as int) =~= characters@);
    text
}

/// The pattern that stands for a back-reference once it is resolved: one
/// literal for each character of the captured text, then the rest of the
/// pattern.
pub fn splice_literals(matched_string: &String, rest: &[RE]) -> (spliced: Vec<RE>)
    ensures
        sequence_view(spliced@) == literal_nodes(matched_string@) + sequence_view(rest@),
{
    let mut spliced: Vec<RE> = Vec::new();
    for ch in it: matched_string.as_str().chars()
        invariant
            sequence_view(spliced@) == literal_nodes(it.seq().take(it.index())),
    {
        let node = literal_node(ch);
        proof {
            lemma_sequence_view_push(spliced@, node);
        }
        spliced.push(node);
        assert(it.seq().take(it.index() + 1) =~= it.seq().take(it.index()).push(ch));
        assert(literal_nodes(it.seq().take(it.index()).push(ch)) =~= literal_nodes(
            it.seq().take(it.index()),
        ).push(literal(ch)));
    }
    assert(matched_string@.take(matched_string@.len() as int) =~= matched_string@);
    spliced.extend_from_slice(rest);
    assert(sequence_view(spliced@) =~= literal_nodes(matched_string@) + sequence_view(rest@));
    spliced
}

/// The number of leading characters of the input that each satisfy `atom`.
pub fn count_leading(input_characters: &[char], atom: &RE) -> (counter: usize)
    ensures
        counter == leading_run(input_characters@, atom@),
        counter <= input_characters@.len(),
{
    let mut counter: usize = 0;
    let mut satisfied = true;
    assert(input_characters@.skip(0) =~= input_characters@);
    while satisfied && counter < input_characters.len()
        invariant
            counter <= input_characters@.len(),
            leading_run(input_characters@, atom@) == counter + (if satisfied {
                leading_run(input_characters@.skip(counter as int), atom@)
            } else {
                0
            }),
        decreases input_characters@.len() - counter + (if satisfied { 1nat } else { 0nat }),
    {
        let ghost remaining = input_characters@.skip(counter as int);
        assert(remaining[0] == input_characters@[counter as int]);
        assert(remaining.skip(1) =~= input_characters@.skip(counter as int + 1));
        match match_single_character(&input_characters[counter], atom) {
            Ok(true) => {
                counter += 1;
            },
            _ => {
                satisfied = false;
            },
        }
    }
    counter
}

/// Matches `pattern` at the start of `input_characters`.
///
/// Returns the length matched, added to `current_match_len`, or `Ok(0)`
/// where the pattern does not match there. `back_references` holds what the
/// groups before have captured. The length matched before and the length of
/// the input must fit in a `usize` together: the result is their sum at
/// most.
pub fn _match_pattern(
    input_characters: &[char],
    pattern: &[RE],
    current_match_len: usize,
    back_references: Vec<String>,
) -> (result: Result<usize, MatchError>)
    requires
        current_match_len + input_characters.len() <= usize::MAX,
    ensures
        outcome_view(result) == match_here(
            input_characters@,
            sequence_view(pattern@),
            current_match_len as nat,
            back_references.deep_view(),
        ),
        result matches Ok(len) ==> len <= current_match_len + input_characters@.len(),
    decreases sequence_rank(sequence_view(pattern@)), pattern@.len(), input_characters@.len(),
{
    if pattern.len() == 0 {
        return Ok(current_match_len);
    }
    let ghost nodes = sequence_view(pattern@);
    let ghost captures = back_references.deep_view();
    assert(nodes[0] == pattern@[0]@);
    if input_characters.len() == 0 {
        if pattern.len() == 1 {
            if let RE::EndAnchor = &pattern[0] {
                return Ok(current_match_len);
            }
        }
        return Ok(0);
    }
    let c = &input_characters[0];
    let rest = slice_subrange(pattern, 1, pattern.len());
    proof {
        lemma_sequence_view_subrange(pattern@, 1, pattern@.len() as int);
        assert(sequence_view(rest@) == nodes.skip(1));
    }
    match &pattern[0] {
        RE::BackReference { target } => {
            let index = *target as usize;
            if index >= 1 && index - 1 < back_references.len() {
                let spliced = splice_literals(&back_references[index - 1], rest);
                proof {
                    let captured = back_references@[index - 1]@;
                    assert(captures[index - 1] == captured);
                    lemma_match_literals(
                        input_characters@,
                        captured,
                        nodes.skip(1),
                        current_match_len as nat,
                        captures,
                    );
                    lemma_rank_concat(literal_nodes(captured), nodes.skip(1));
                    lemma_rank_literals(captured);
                    assert(sequence_rank(nodes) == node_rank(nodes[0]) + sequence_rank(
                        nodes.skip(1),
                    ));
                }
                _match_pattern(
                    input_characters,
                    spliced.as_slice(),
                    current_match_len,
                    back_references,
                )
            } else {
                Err(MatchError::MissingBackReference)
            }
        },
        RE::Alternation { members } => {
            let ghost alternatives = alternatives_view(members@);
            let mut i: usize = 0;
            while i < members.len()
                invariant
                    i <= members.len(),
                    input_characters@.len() > 0,
                    current_match_len + input_characters.len() <= usize::MAX,
                    pattern@.len() > 0,
                    nodes == sequence_view(pattern@),
                    nodes[0] == Node::Group(alternatives),
                    alternatives == alternatives_view(members@),
                    captures == back_references.deep_view(),
                    rest@ == pattern@.subrange(1, pattern@.len() as int),
                    sequence_view(rest@) == nodes.skip(1),
                    first_alternative(input_characters@, alternatives, captures, 0)
                        == first_alternative(input_characters@, alternatives, captures, i as nat),
                decreases members.len() - i,
            {
                proof {
                    lemma_rank_alternative(alternatives, i as int);
                    assert(alternatives[i as int] == sequence_view(members@[i as int]@));
                    assert(sequence_rank(nodes) == node_rank(nodes[0]) + sequence_rank(
                        nodes.skip(1),
                    ));
                }
                let attempt = _match_pattern(
                    input_characters,
                    members[i].as_slice(),
                    0,
                    back_references.clone(),
                );
                if let Ok(match_len) = attempt {
                    if match_len > 0 {
                        let captured = collect_string(
                            slice_subrange(input_characters, 0, match_len),
                        );
                        let mut extended = back_references;
                        extended.push(captured);
                        assert(extended.deep_view() =~= captures.push(
                            input_characters@.take(match_len as int),
                        ));
                        return _match_pattern(
                            slice_subrange(input_characters, match_len, input_characters.len()),
                            rest,
                            current_match_len + match_len,
                            extended,
                        );
                    }
                }
                i += 1;
            }
            Ok(0)
        },
        RE::OneOrMore { target: Some(atom) } => {
            let counter = count_leading(input_characters, atom);
            if counter > 0 {
                _match_pattern(
                    slice_subrange(input_characters, counter, input_characters.len()),
                    rest,
                    current_match_len + counter,
                    back_references,
                )
            } else {
                Ok(0)
            }
        },
        RE::ZeroOrMore { target: Some(atom) } => {
            match _match_pattern(input_characters, rest, 0, back_references.clone()) {
                Ok(match_len) => {
                    if match_len > 0 {
                        Ok(current_match_len + match_len)
                    } else if let Ok(true) = match_single_character(c, atom) {
                        _match_pattern(
                            slice_subrange(input_characters, 1, input_characters.len()),
                            pattern,
                            current_match_len + 1,
                            back_references,
                        )
                    } else {
                        Ok(0)
                    }
                },
                Err(_) => Ok(0),
            }
        },
        RE::ZeroOrOne { target: Some(atom) } => {
            match _match_pattern(input_characters, rest, 0, back_references.clone()) {
                Ok(match_len) => {
                    if match_len > 0 {
                        Ok(current_match_len + match_len)
                    } else if let Ok(true) = match_single_character(c, atom) {
                        _match_pattern(
                            slice_subrange(input_characters, 1, input_characters.len()),
                            rest,
                            current_match_len + 1,
                            back_references,
                        )
                    } else {
                        Ok(0)
                    }
                },
                Err(_) => Ok(0),
            }
        },
        re => {
            if let Ok(true) = match_single_character(c, re) {
                _match_pattern(
                    slice_subrange(input_characters, 1, input_characters.len()),
                    rest,
                    current_match_len + 1,
                    back_references,
                )
            } else {
                Ok(0)
            }
        },
    }
}

/// Matches `pattern` against `input_characters`.
///
/// Returns the length of the match, or `Ok(0)` where there is none: a match
/// of no character and no match at all are not told apart. An error can come
/// only from a pattern that begins with a start anchor: the search over
/// offsets passes over an attempt that ends in one. Every pattern and
/// every input are taken, the empty ones too.
pub fn match_pattern(input_characters: &Vec<char>, pattern: &[RE]) -> (result: Result<
    usize,
    MatchError,
>)
    ensures
        outcome_view(result) == find_match(input_characters@, sequence_view(pattern@)),
{
    let ghost nodes = sequence_view(pattern@);
    let input = input_characters.as_slice();
    let input_len = input.len();
    if pattern.len() > 0 {
        assert(nodes[0] == pattern@[0]@);
        if let RE::StartAnchor = &pattern[0] {
            let rest = slice_subrange(pattern, 1, pattern.len());
            proof {
                lemma_sequence_view_subrange(pattern@, 1, pattern@.len() as int);
            }
            let fresh: Vec<String> = Vec::new();
            assert(fresh.deep_view() =~= Seq::<Seq<char>>::empty());
            return _match_pattern(input, rest, 0, fresh);
        }
    }
    let mut counter: usize = 0;
    while counter < input_len
        invariant
            counter <= input@.len(),
            input_len == input@.len(),
            input@ == input_characters@,
            nodes == sequence_view(pattern@),
            first_hit(input@, nodes, 0) == first_hit(input@, nodes, counter as nat),
        decreases input@.len() - counter,
    {
        let fresh: Vec<String> = Vec::new();
        assert(fresh.deep_view() =~= Seq::<Seq<char>>::empty());
        let attempt = _match_pattern(slice_subrange(input, counter, input_len), pattern, 0, fresh);
        if let Ok(match_len) = attempt {
            if match_len > 0 {
                return Ok(match_len);
            }
        }
        counter += 1;
    }
    Ok(0)
}

} // verus!
