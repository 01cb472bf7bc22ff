//! What holds of matching, for every pattern and every input.

use vstd::prelude::*;
use crate::matching::{
    accepts, find_match, first_alternative, first_hit, hits, leading_run, lemma_match_literals,
    match_here, negated, starts_with, MatchError,
};
use crate::pattern::{literal, literal_nodes, Node};

verus! {

/// The run that one-or-more takes is the longest there is: each character
/// in it satisfies the target, and the character after it, if there is one,
/// does not.
pub proof fn lemma_leading_run_is_maximal(input: Seq<char>, target: Node)
    ensures
        leading_run(input, target) <= input.len(),
        forall|i: int|
            0 <= i < leading_run(input, target) ==> accepts(target, #[trigger] input[i]) == Ok::<
                bool,
                MatchError,
            >(true),
        leading_run(input, target) < input.len() ==> accepts(
            target,
            input[leading_run(input, target) as int],
        ) != Ok::<bool, MatchError>(true),
    decreases input.len(),
{
    if input.len() > 0 && accepts(target, input[0]) == Ok::<bool, MatchError>(true) {
        let rest = input.skip(1);
        lemma_leading_run_is_maximal(rest, target);
        assert forall|i: int| 0 <= i < leading_run(input, target) implies accepts(
            target,
            #[trigger] input[i],
        ) == Ok::<bool, MatchError>(true) by {
            if i > 0 {
                assert(input[i] == rest[i - 1]);
            }
        }
        if leading_run(input, target) < input.len() {
            let run = leading_run(rest, target);
            assert(input[run as int + 1] == rest[run as int]);
        }
    }
}

/// A match is either none at all, or it adds to the length matched before no
/// more than the input holds.
pub proof fn lemma_match_bounds(
    input: Seq<char>,
    pattern: Seq<Node>,
    matched: nat,
    captures: Seq<Seq<char>>,
)
    ensures
        match_here(input, pattern, matched, captures) matches Ok(len) ==> len == 0 || matched
            <= len <= matched + input.len(),
    decreases pattern, input.len(), 0nat,
{
    if pattern.len() > 0 && input.len() > 0 {
        let rest = pattern.skip(1);
        match pattern[0] {
            Node::BackReference(target) => {
                if 1 <= target <= captures.len() {
                    let captured = captures[target - 1];
                    if starts_with(input, captured) {
                        lemma_match_bounds(
                            input.skip(captured.len() as int),
                            rest,
                            matched + captured.len(),
                            captures,
                        );
                    }
                }
            },
            Node::Group(alternatives) => {
                lemma_first_alternative_bounds(input, alternatives, captures, 0);
                match first_alternative(input, alternatives, captures, 0) {
                    Some(len) => {
                        lemma_match_bounds(
                            input.skip(len as int),
                            rest,
                            matched + len,
                            captures.push(input.take(len as int)),
                        );
                    },
                    None => {},
                }
            },
            Node::OneOrMore(Some(target)) => {
                let run = leading_run(input, *target);
                lemma_leading_run_is_maximal(input, *target);
                if run > 0 {
                    lemma_match_bounds(input.skip(run as int), rest, matched + run, captures);
                }
            },
            Node::ZeroOrMore(Some(target)) => {
                lemma_match_bounds(input, rest, 0, captures);
                lemma_match_bounds(input.skip(1), pattern, matched + 1, captures);
            },
            Node::ZeroOrOne(Some(target)) => {
                lemma_match_bounds(input, rest, 0, captures);
                lemma_match_bounds(input.skip(1), rest, matched + 1, captures);
            },
            _ => {
                lemma_match_bounds(input.skip(1), rest, matched + 1, captures);
            },
        }
    }
}

/// What a group matches is a non-empty stretch of the input.
pub proof fn lemma_first_alternative_bounds(
    input: Seq<char>,
    alternatives: Seq<Seq<Node>>,
    captures: Seq<Seq<char>>,
    from: nat,
)
    ensures
        first_alternative(input, alternatives, captures, from) matches Some(len) ==> 0 < len
            <= input.len(),
    decreases alternatives, input.len(), alternatives.len() - from,
{
    if from < alternatives.len() {
        lemma_match_bounds(input, alternatives[from as int], 0, captures);
        lemma_first_alternative_bounds(input, alternatives, captures, from + 1);
    }
}

/// The first hit is a hit before the end of the input, and no offset
/// between `from` and it is one; where there is none, no offset from `from`
/// on is a hit.
pub proof fn lemma_first_hit(input: Seq<char>, pattern: Seq<Node>, from: nat)
    ensures
        match first_hit(input, pattern, from) {
            Some(offset) => {
                &&& from <= offset < input.len()
                &&& hits(input, pattern, offset)
                &&& forall|earlier: nat| from <= earlier < offset ==> !hits(input, pattern, earlier)
            },
            None => forall|offset: nat|
                from <= offset < input.len() ==> !hits(input, pattern, offset),
        },
    decreases input.len() - from,
{
    if from < input.len() && !hits(input, pattern, from) {
        lemma_first_hit(input, pattern, from + 1);
    }
}

/// A match is never longer than the input.
pub proof fn lemma_find_match_bounds(input: Seq<char>, pattern: Seq<Node>)
    ensures
        find_match(input, pattern) matches Ok(len) ==> len <= input.len(),
{
    if pattern.len() > 0 && pattern[0] is StartAnchor {
        lemma_match_bounds(input, pattern.skip(1), 0, Seq::empty());
    } else {
        lemma_first_hit(input, pattern, 0);
        match first_hit(input, pattern, 0) {
            Some(offset) => {
                lemma_match_bounds(input.skip(offset as int), pattern, 0, Seq::empty());
            },
            None => {},
        }
    }
}

/// Where a pattern without a start anchor at its head matches, it matched
/// at the first offset that hits, and the same pattern behind a start anchor
/// gives the same length on the input from that offset on.
pub proof fn lemma_search_agrees_with_anchored(input: Seq<char>, pattern: Seq<Node>)
    requires
        !(pattern.len() > 0 && pattern[0] is StartAnchor),
    ensures
        match find_match(input, pattern) {
            Ok(len) => len > 0 ==> match first_hit(input, pattern, 0) {
                Some(offset) => {
                    &&& offset < input.len()
                    &&& find_match(input.skip(offset as int), seq![Node::StartAnchor] + pattern)
                        == Ok::<nat, MatchError>(len)
                },
                None => false,
            },
            Err(_) => true,
        },
{
    lemma_first_hit(input, pattern, 0);
    assert((seq![Node::StartAnchor] + pattern).skip(1) =~= pattern);
}

/// A negative class accepts a character exactly when the positive class of
/// the same members refuses it; where one ends in an error, the other ends in
/// the same.
pub proof fn lemma_classes_are_complements(members: Seq<Node>, c: char)
    ensures
        accepts(Node::NegativeClass(members), c) == negated(
            accepts(Node::PositiveClass(members), c),
        ),
        accepts(Node::PositiveClass(members), c) matches Ok(found) ==> accepts(
            Node::NegativeClass(members),
            c,
        ) == Ok::<bool, MatchError>(!found),
{
}

/// One-or-more never matches zero characters: a pattern that begins with
/// it refuses an input whose first character its target does not accept, and
/// a match that goes through it is longer than what was matched before.
pub proof fn lemma_one_or_more_consumes(
    input: Seq<char>,
    pattern: Seq<Node>,
    matched: nat,
    captures: Seq<Seq<char>>,
)
    requires
        pattern.len() > 0,
        pattern[0] matches Node::OneOrMore(Some(_)),
    ensures
        ({
            let target = *pattern[0]->OneOrMore_0->0;
            let outcome = match_here(input, pattern, matched, captures);
            &&& (input.len() == 0 || accepts(target, input[0]) != Ok::<bool, MatchError>(true))
                ==> outcome == Ok::<nat, MatchError>(0)
            &&& outcome matches Ok(len) ==> len == 0 || len >= matched + 1
        }),
{
    let target = *pattern[0]->OneOrMore_0->0;
    if input.len() > 0 {
        let run = leading_run(input, target);
        if run > 0 {
            lemma_match_bounds(input.skip(run as int), pattern.skip(1), matched + run, captures);
        }
    }
}

/// One-or-more gives nothing back: followed by its own target it matches
/// nothing, because the run has left no character that the target accepts.
pub proof fn lemma_one_or_more_gives_nothing_back(
    input: Seq<char>,
    target: Node,
    matched: nat,
    captures: Seq<Seq<char>>,
)
    ensures
        match_here(
            input,
            seq![Node::OneOrMore(Some(Box::new(target))), target],
            matched,
            captures,
        ) == Ok::<nat, MatchError>(0),
{
    let pattern = seq![Node::OneOrMore(Some(Box::new(target))), target];
    let run = leading_run(input, target);
    assert(pattern.skip(1) =~= seq![target]);
    assert(seq![target].skip(1) =~= Seq::<Node>::empty());
    lemma_leading_run_is_maximal(input, target);
    if input.len() > 0 && run > 0 {
        assert(accepts(target, input[0]) == Ok::<bool, MatchError>(true));
        let left = input.skip(run as int);
        if left.len() > 0 {
            assert(left[0] == input[run as int]);
        }
        assert(match_here(left, seq![target], matched + run, captures) == Ok::<nat, MatchError>(
            0,
        ));
    }
}

/// A pattern that is a single zero-or-more node matches nothing: nothing
/// follows the node that could match a non-empty stretch, and once the input
/// is used up the node itself is left over.
pub proof fn lemma_lone_zero_or_more(
    input: Seq<char>,
    target: Node,
    matched: nat,
    captures: Seq<Seq<char>>,
)
    ensures
        match_here(input, seq![Node::ZeroOrMore(Some(Box::new(target)))], matched, captures)
            == Ok::<nat, MatchError>(0),
    decreases input.len(),
{
    let pattern = seq![Node::ZeroOrMore(Some(Box::new(target)))];
    assert(pattern.skip(1) =~= Seq::<Node>::empty());
    assert(match_here(input, Seq::empty(), 0, captures) == Ok::<nat, MatchError>(0));
    if input.len() > 0 {
        lemma_lone_zero_or_more(input.skip(1), target, matched + 1, captures);
    }
}

/// A search never ends in an error: an attempt that ends in one counts as an
/// attempt that does not match.
pub proof fn lemma_search_gives_no_error(input: Seq<char>, pattern: Seq<Node>)
    requires
        !(pattern.len() > 0 && pattern[0] is StartAnchor),
    ensures
        find_match(input, pattern) is Ok,
{
    lemma_first_hit(input, pattern, 0);
}

/// Zero-or-more and zero-or-one step aside: where the rest of the pattern
/// matches a non-empty stretch at this point, that match is the result, and
/// the quantifier takes no character, also where the first character would
/// satisfy its target.
pub proof fn lemma_optional_steps_aside(
    input: Seq<char>,
    pattern: Seq<Node>,
    matched: nat,
    captures: Seq<Seq<char>>,
    len: nat,
)
    requires
        pattern.len() > 0,
        pattern[0] matches Node::ZeroOrMore(Some(_)) || pattern[0] matches Node::ZeroOrOne(Some(_)),
        match_here(input, pattern.skip(1), 0, captures) == Ok::<nat, MatchError>(len),
        len > 0,
    ensures
        match_here(input, pattern, matched, captures) == Ok::<nat, MatchError>(matched + len),
{
    lemma_match_bounds(input, pattern.skip(1), 0, captures);
}

/// A group, then some literal text, then a reference to that group: the
/// input must hold what the group matched, the text, and what the group
/// matched once more; the rest of the pattern goes on behind that.
pub proof fn lemma_back_reference_repeats(
    input: Seq<char>,
    alternatives: Seq<Seq<Node>>,
    between: Seq<char>,
    rest: Seq<Node>,
    matched: nat,
    captures: Seq<Seq<char>>,
    len: nat,
)
    requires
        first_alternative(input, alternatives, captures, 0) == Some(len),
    ensures
        ({
            let captured = input.take(len as int);
            let pattern = seq![Node::Group(alternatives)] + literal_nodes(between)
                + seq![Node::BackReference(captures.len() + 1)] + rest;
            match_here(input, pattern, matched, captures) == (if starts_with(
                input.skip(len as int),
                between + captured,
            ) {
                match_here(
                    input.skip((len + between.len() + len) as int),
                    rest,
                    matched + len + between.len() + len,
                    captures.push(captured),
                )
            } else {
                Ok(0)
            })
        }),
{
    let captured = input.take(len as int);
    let reference = Node::BackReference(captures.len() + 1);
    let pattern = seq![Node::Group(alternatives)] + literal_nodes(between) + seq![reference] + rest;
    let after_group = input.skip(len as int);
    let extended = captures.push(captured);
    let tail = seq![reference] + rest;
    lemma_first_alternative_bounds(input, alternatives, captures, 0);
    assert(pattern.skip(1) =~= literal_nodes(between) + tail);
    lemma_match_literals(after_group, between, tail, matched + len, extended);
    assert(tail.skip(1) =~= rest);
    if starts_with(after_group, between) {
        let after_text = after_group.skip(between.len() as int);
        if starts_with(after_text, captured) {
            assert(after_text.skip(len as int) =~= input.skip(
                (len + between.len() + len) as int,
            ));
            assert(after_group.take((between + captured).len() as int) =~= between + captured);
        }
        if starts_with(after_group, between + captured) {
            assert(after_text.take(len as int) =~= captured) by {
                assert forall|i: int| 0 <= i < len implies after_text.take(len as int)[i]
                    == captured[i] by {
                    assert(after_group.take((between + captured).len() as int)[between.len() + i]
                        == (between + captured)[between.len() + i]);
                }
            }
        }
    } else if starts_with(after_group, between + captured) {
        assert(after_group.take(between.len() as int) =~= between) by {
            assert forall|i: int| 0 <= i < between.len() implies after_group.take(
                between.len() as int,
            )[i] == between[i] by {
                assert(after_group.take((between + captured).len() as int)[i] == (between
                    + captured)[i]);
            }
        }
    }
}

/// A group followed at once by a reference to it matches twice what the
/// group matched, where the input repeats it, and nothing where it does not.
pub proof fn lemma_back_reference_round_trip(
    input: Seq<char>,
    alternatives: Seq<Seq<Node>>,
    len: nat,
)
    requires
        first_alternative(input, alternatives, Seq::empty(), 0) == Some(len),
    ensures
        match_here(
            input,
            seq![Node::Group(alternatives), Node::BackReference(1)],
            0,
            Seq::empty(),
        ) == (if starts_with(input.skip(len as int), input.take(len as int)) {
            Ok::<nat, MatchError>(2 * len)
        } else {
            Ok::<nat, MatchError>(0)
        }),
{
    let none = Seq::<char>::empty();
    let captured = input.take(len as int);
    lemma_back_reference_repeats(
        input,
        alternatives,
        none,
        Seq::empty(),
        0,
        Seq::empty(),
        len,
    );
    assert(seq![Node::Group(alternatives)] + literal_nodes(none) + seq![Node::BackReference(1)]
        + Seq::<Node>::empty() =~= seq![Node::Group(alternatives), Node::BackReference(1)]);
    assert(none + captured =~= captured);
}

/// An attempt with a pattern of literals hits exactly where the input goes
/// on with their text.
pub proof fn lemma_literals_hit(input: Seq<char>, text: Seq<char>, offset: nat)
    requires
        text.len() > 0,
    ensures
        hits(input, literal_nodes(text), offset) == starts_with(input.skip(offset as int), text),
        starts_with(input.skip(offset as int), text) ==> match_here(
            input.skip(offset as int),
            literal_nodes(text),
            0,
            Seq::empty(),
        ) == Ok::<nat, MatchError>(text.len()),
{
    let here = input.skip(offset as int);
    lemma_match_literals(here, text, Seq::empty(), 0, Seq::empty());
    assert(literal_nodes(text) + Seq::<Node>::empty() =~= literal_nodes(text));
    assert(match_here(here.skip(text.len() as int), Seq::empty(), text.len(), Seq::empty())
        == Ok::<nat, MatchError>(text.len()));
}

/// A pattern of literals is found exactly in an input that holds their
/// text, and the match is as long as the text.
pub proof fn lemma_literals_find_their_text(input: Seq<char>, text: Seq<char>)
    requires
        text.len() > 0,
    ensures
        find_match(input, literal_nodes(text)) == (if exists|offset: nat|
            offset < input.len() && starts_with(input.skip(offset as int), text) {
            Ok::<nat, MatchError>(text.len())
        } else {
            Ok::<nat, MatchError>(0)
        }),
{
    let pattern = literal_nodes(text);
    assert(pattern[0] == literal(text[0]));
    lemma_first_hit(input, pattern, 0);
    match first_hit(input, pattern, 0) {
        Some(found) => {
            lemma_literals_hit(input, text, found);
            assert(found < input.len() && starts_with(input.skip(found as int), text));
        },
        None => {
            assert forall|offset: nat| offset < input.len() implies !starts_with(
                input.skip(offset as int),
                text,
            ) by {
                lemma_literals_hit(input, text, offset);
            }
        },
    }
}

/// A group whose one alternative is a run of literals matches their text
/// where the input begins with it, and nothing else.
pub proof fn lemma_literal_alternative(
    input: Seq<char>,
    text: Seq<char>,
    captures: Seq<Seq<char>>,
)
    ensures
        first_alternative(input, seq![literal_nodes(text)], captures, 0) == (if text.len() > 0
            && starts_with(input, text) {
            Some(text.len())
        } else {
            None
        }),
{
    let alternatives = seq![literal_nodes(text)];
    lemma_match_literals(input, text, Seq::empty(), 0, captures);
    assert(literal_nodes(text) + Seq::<Node>::empty() =~= literal_nodes(text));
    assert(match_here(input.skip(text.len() as int), Seq::empty(), text.len(), captures) == Ok::<
        nat,
        MatchError,
    >(text.len()));
    assert(alternatives[0] == literal_nodes(text));
    assert(first_alternative(input, alternatives, captures, 1) is None);
}

/// A group that spells a text, followed by a reference to it, matches the
/// text twice at the start of an input that repeats it, whatever follows and
/// whatever was matched before.
pub proof fn lemma_repeated_text_matches(
    text: Seq<char>,
    tail: Seq<char>,
    matched: nat,
)
    requires
        text.len() > 0,
    ensures
        match_here(
            text + text + tail,
            seq![Node::Group(seq![literal_nodes(text)]), Node::BackReference(1)],
            matched,
            Seq::empty(),
        ) == Ok::<nat, MatchError>(matched + 2 * text.len()),
{
    let input = text + text + tail;
    let len = text.len();
    let none = Seq::<char>::empty();
    let alternatives = seq![literal_nodes(text)];
    assert(input.take(len as int) =~= text);
    assert(input.skip(len as int) =~= text + tail);
    assert((text + tail).take(len as int) =~= text);
    lemma_literal_alternative(input, text, Seq::empty());
    lemma_back_reference_repeats(
        input,
        alternatives,
        none,
        Seq::empty(),
        matched,
        Seq::empty(),
        len,
    );
    assert(seq![Node::Group(alternatives)] + literal_nodes(none) + seq![Node::BackReference(1)]
        + Seq::<Node>::empty() =~= seq![Node::Group(alternatives), Node::BackReference(1)]);
    assert(none + text =~= text);
    assert(match_here(
        input.skip((len + none.len() + len) as int),
        Seq::empty(),
        matched + len + none.len() + len,
        Seq::<Seq<char>>::empty().push(text),
    ) == Ok::<nat, MatchError>(matched + 2 * len));
}

/// A group that spells a text, followed by a reference to it, matches
/// nothing where the input goes on with another text of the same length.
pub proof fn lemma_other_text_does_not_match(
    text: Seq<char>,
    other: Seq<char>,
    matched: nat,
)
    requires
        text.len() > 0,
        other.len() == text.len(),
        other != text,
    ensures
        match_here(
            text + other,
            seq![Node::Group(seq![literal_nodes(text)]), Node::BackReference(1)],
            matched,
            Seq::empty(),
        ) == Ok::<nat, MatchError>(0),
{
    let input = text + other;
    let len = text.len();
    let none = Seq::<char>::empty();
    let alternatives = seq![literal_nodes(text)];
    assert(input.take(len as int) =~= text);
    assert(input.skip(len as int) =~= other);
    assert(other.take(len as int) =~= other);
    lemma_literal_alternative(input, text, Seq::empty());
    lemma_back_reference_repeats(
        input,
        alternatives,
        none,
        Seq::empty(),
        matched,
        Seq::empty(),
        len,
    );
    assert(seq![Node::Group(alternatives)] + literal_nodes(none) + seq![Node::BackReference(1)]
        + Seq::<Node>::empty() =~= seq![Node::Group(alternatives), Node::BackReference(1)]);
    assert(none + text =~= text);
}

} // verus!
