use mini_regex::engine::{
    _match_alphanumeric_class, _match_character, _match_character_class, _match_digit_class,
    _match_pattern, collect_string, count_leading, match_pattern, match_single_character,
    splice_literals,
};
use mini_regex::{MatchError, RE};

fn chars(text: &str) -> Vec<char> {
    text.chars().collect()
}

fn lit(character: char) -> RE {
    RE::Character { character }
}

fn lits(text: &str) -> Vec<RE> {
    text.chars().map(lit).collect()
}

fn class(members: Vec<RE>) -> RE {
    RE::CClass { members: Box::new(members) }
}

fn negative_class(members: Vec<RE>) -> RE {
    RE::NCClass { members: Box::new(members) }
}

fn plus(target: RE) -> RE {
    RE::OneOrMore { target: Some(Box::new(target)) }
}

#[test]
fn leaf_tests_follow_their_definition() {
    assert!(_match_character(&'a', 'a'));
    assert!(!_match_character(&'a', 'b'));
    assert!(_match_digit_class(&'7'));
    assert!(!_match_digit_class(&'x'));
    assert!(_match_alphanumeric_class(&'x'));
    assert!(_match_alphanumeric_class(&'Q'));
    assert!(_match_alphanumeric_class(&'0'));
    assert!(!_match_alphanumeric_class(&'_'));
    assert!(!_match_alphanumeric_class(&' '));
}

#[test]
fn single_character_test_of_each_kind() {
    assert_eq!(match_single_character(&'x', &RE::Wildcard), Ok(true));
    assert_eq!(match_single_character(&'x', &lit('x')), Ok(true));
    assert_eq!(match_single_character(&'x', &lit('y')), Ok(false));
    assert_eq!(match_single_character(&'4', &RE::DigitClass), Ok(true));
    assert_eq!(match_single_character(&'x', &RE::DigitClass), Ok(false));
    assert_eq!(match_single_character(&'x', &RE::AlphanumericClass), Ok(true));
    assert_eq!(match_single_character(&'!', &RE::AlphanumericClass), Ok(false));
    assert_eq!(match_single_character(&'x', &RE::StartAnchor), Ok(false));
    assert_eq!(match_single_character(&'x', &RE::EndAnchor), Ok(false));
    assert_eq!(match_single_character(&'x', &plus(lit('x'))), Ok(false));
    assert_eq!(
        match_single_character(&'x', &RE::Alternation { members: vec![lits("x")] }),
        Ok(false)
    );
    assert_eq!(
        match_single_character(&'1', &RE::BackReference { target: 1 }),
        Ok(false)
    );
}

#[test]
fn classes_are_complements() {
    let members = vec![lit('a'), RE::DigitClass, class(lits("xy"))];
    let positive = class(members.clone());
    let negative = negative_class(members.clone());
    for c in ['a', 'b', '5', 'x', 'y', 'z', ' ', '\u{e9}'] {
        let inside = match_single_character(&c, &positive).expect("no error");
        let outside = match_single_character(&c, &negative).expect("no error");
        assert_eq!(inside, !outside);
    }
    assert_eq!(match_single_character(&'a', &positive), Ok(true));
    assert_eq!(match_single_character(&'5', &positive), Ok(true));
    assert_eq!(match_single_character(&'y', &positive), Ok(true));
    assert_eq!(match_single_character(&'b', &positive), Ok(false));
    assert_eq!(match_single_character(&'b', &negative), Ok(true));
    assert_eq!(_match_character_class(&'a', &members), Ok(true));
    assert_eq!(_match_character_class(&'b', &members), Ok(false));
    assert_eq!(_match_character_class(&'b', &[]), Ok(false));
    assert_eq!(match_single_character(&'b', &negative_class(vec![])), Ok(true));
}

#[test]
fn class_with_a_reference_is_an_error_unless_an_earlier_member_accepts() {
    let members = vec![lit('a'), RE::BackReference { target: 1 }];
    assert_eq!(match_single_character(&'a', &class(members.clone())), Ok(true));
    assert_eq!(
        match_single_character(&'b', &class(members.clone())),
        Err(MatchError::MissingBackReference)
    );
    assert_eq!(
        match_single_character(&'a', &negative_class(members.clone())),
        Ok(false)
    );
    assert_eq!(
        match_single_character(&'b', &negative_class(members)),
        Err(MatchError::MissingBackReference)
    );
}

#[test]
fn class_with_a_quantifier_or_a_group_is_an_error() {
    assert_eq!(
        match_single_character(&'a', &class(vec![plus(lit('a'))])),
        Err(MatchError::ClassNesting)
    );
    assert_eq!(
        match_single_character(&'a', &class(vec![RE::ZeroOrMore { target: None }])),
        Err(MatchError::ClassNesting)
    );
    assert_eq!(
        match_single_character(&'a', &class(vec![RE::ZeroOrOne { target: None }])),
        Err(MatchError::ClassNesting)
    );
    assert_eq!(
        match_single_character(
            &'a',
            &class(vec![RE::Alternation { members: vec![lits("a")] }])
        ),
        Err(MatchError::ClassNesting)
    );
    assert_eq!(
        match_single_character(&'a', &class(vec![lit('a'), plus(lit('b'))])),
        Ok(true)
    );
}

#[test]
fn error_in_a_class_is_no_match_for_the_matcher() {
    let pattern = vec![class(vec![RE::BackReference { target: 1 }])];
    assert_eq!(_match_pattern(&chars("a"), &pattern, 0, Vec::new()), Ok(0));
    let repeated = vec![plus(class(vec![lit('a'), RE::BackReference { target: 1 }]))];
    assert_eq!(_match_pattern(&chars("aab"), &repeated, 0, Vec::new()), Ok(2));
}

#[test]
fn match_length_is_added_to_what_was_matched_before() {
    assert_eq!(_match_pattern(&chars("abc"), &lits("ab"), 5, Vec::new()), Ok(7));
    assert_eq!(_match_pattern(&chars("abc"), &lits("ac"), 5, Vec::new()), Ok(0));
    assert_eq!(_match_pattern(&chars("abc"), &[], 5, Vec::new()), Ok(5));
    assert_eq!(_match_pattern(&chars(""), &[], 5, Vec::new()), Ok(5));
    assert_eq!(_match_pattern(&chars(""), &lits("a"), 5, Vec::new()), Ok(0));
}

#[test]
fn end_anchor_matches_only_as_the_last_node_at_the_end() {
    assert_eq!(_match_pattern(&chars(""), &[RE::EndAnchor], 3, Vec::new()), Ok(3));
    assert_eq!(
        _match_pattern(&chars(""), &[RE::EndAnchor, lit('a')], 3, Vec::new()),
        Ok(0)
    );
    assert_eq!(
        _match_pattern(&chars(""), &[RE::EndAnchor, RE::EndAnchor], 3, Vec::new()),
        Ok(0)
    );
    assert_eq!(_match_pattern(&chars("a"), &[RE::EndAnchor], 3, Vec::new()), Ok(0));
}

#[test]
fn reference_reads_the_captures_it_is_given() {
    let captures = vec!["ab".to_string(), "c".to_string()];
    let second = vec![RE::BackReference { target: 2 }, lit('!')];
    assert_eq!(_match_pattern(&chars("c!"), &second, 0, captures.clone()), Ok(2));
    let first = vec![RE::BackReference { target: 1 }];
    assert_eq!(_match_pattern(&chars("abz"), &first, 1, captures.clone()), Ok(3));
    assert_eq!(_match_pattern(&chars("az"), &first, 1, captures.clone()), Ok(0));
    assert_eq!(_match_pattern(&chars("a"), &first, 1, captures.clone()), Ok(0));
    let third = vec![RE::BackReference { target: 3 }];
    assert_eq!(
        _match_pattern(&chars("c"), &third, 0, captures.clone()),
        Err(MatchError::MissingBackReference)
    );
    let zeroth = vec![RE::BackReference { target: 0 }];
    assert_eq!(
        _match_pattern(&chars("c"), &zeroth, 0, captures),
        Err(MatchError::MissingBackReference)
    );
}

#[test]
fn reference_to_an_empty_capture_takes_nothing() {
    let captures = vec![String::new()];
    let pattern = vec![RE::BackReference { target: 1 }, lit('a')];
    assert_eq!(_match_pattern(&chars("a"), &pattern, 0, captures), Ok(1));
}

#[test]
fn error_behind_an_optional_node_is_no_match() {
    let pattern = vec![
        RE::ZeroOrMore { target: Some(Box::new(lit('a'))) },
        RE::BackReference { target: 1 },
    ];
    assert_eq!(_match_pattern(&chars("ab"), &pattern, 0, Vec::new()), Ok(0));
    let other = vec![
        RE::ZeroOrOne { target: Some(Box::new(lit('a'))) },
        RE::BackReference { target: 1 },
    ];
    assert_eq!(_match_pattern(&chars("ab"), &other, 0, Vec::new()), Ok(0));
}

#[test]
fn error_in_an_alternative_passes_to_the_next() {
    let pattern = vec![RE::Alternation {
        members: vec![vec![RE::BackReference { target: 1 }], lits("ab")],
    }];
    assert_eq!(_match_pattern(&chars("abc"), &pattern, 0, Vec::new()), Ok(2));
}

#[test]
fn error_after_a_group_is_an_error() {
    let pattern = vec![
        RE::Alternation { members: vec![lits("a")] },
        RE::BackReference { target: 2 },
    ];
    assert_eq!(
        _match_pattern(&chars("ab"), &pattern, 0, Vec::new()),
        Err(MatchError::MissingBackReference)
    );
}

#[test]
fn quantifier_without_target_matches_nothing() {
    for node in [
        RE::OneOrMore { target: None },
        RE::ZeroOrMore { target: None },
        RE::ZeroOrOne { target: None },
    ] {
        assert_eq!(_match_pattern(&chars("a"), &[node], 0, Vec::new()), Ok(0));
    }
}

#[test]
fn start_anchor_inside_a_pattern_matches_nothing() {
    let pattern = vec![lit('a'), RE::StartAnchor];
    assert_eq!(match_pattern(&chars("ab"), &pattern), Ok(0));
    assert_eq!(match_pattern(&chars("a"), &pattern), Ok(0));
}

#[test]
fn search_passes_over_an_error() {
    let pattern = vec![RE::BackReference { target: 1 }];
    assert_eq!(match_pattern(&chars("abc"), &pattern), Ok(0));
    let anchored = vec![RE::StartAnchor, RE::BackReference { target: 1 }];
    assert_eq!(
        match_pattern(&chars("abc"), &anchored),
        Err(MatchError::MissingBackReference)
    );
}

#[test]
fn search_takes_the_first_offset_that_matches() {
    let pattern = vec![plus(RE::DigitClass)];
    assert_eq!(match_pattern(&chars("a1b22c333"), &pattern), Ok(1));
    assert_eq!(match_pattern(&chars("abc22c333"), &pattern), Ok(2));
    assert_eq!(match_pattern(&chars("abc"), &pattern), Ok(0));
    assert_eq!(match_pattern(&chars(""), &pattern), Ok(0));
    assert_eq!(match_pattern(&chars("abc"), &[]), Ok(0));
    assert_eq!(match_pattern(&chars(""), &[]), Ok(0));
}

#[test]
fn counts_the_leading_run() {
    assert_eq!(count_leading(&chars("aaab"), &lit('a')), 3);
    assert_eq!(count_leading(&chars("baaa"), &lit('a')), 0);
    assert_eq!(count_leading(&chars("aaa"), &lit('a')), 3);
    assert_eq!(count_leading(&chars(""), &lit('a')), 0);
    assert_eq!(count_leading(&chars("12ab"), &RE::DigitClass), 2);
}

#[test]
fn collects_characters_into_a_string() {
    assert_eq!(collect_string(&chars("cat")), "cat");
    assert_eq!(collect_string(&chars("")), "");
    assert_eq!(collect_string(&chars("\u{e9}t\u{e9}")), "\u{e9}t\u{e9}");
}

#[test]
fn splices_literals_before_the_rest() {
    let rest = vec![RE::Wildcard, RE::EndAnchor];
    assert_eq!(
        splice_literals(&"ab".to_string(), &rest),
        vec![lit('a'), lit('b'), RE::Wildcard, RE::EndAnchor]
    );
    assert_eq!(splice_literals(&String::new(), &rest), rest);
    assert_eq!(splice_literals(&"x".to_string(), &[]), vec![lit('x')]);
}

#[test]
fn each_match_error_has_its_sentence() {
    assert_eq!(
        MatchError::MissingBackReference.message(),
        "Back reference does not exist"
    );
    assert_eq!(
        MatchError::ClassNesting.message(),
        "character class cannot contain a quantifier or a group"
    );
}

#[test]
fn one_or_more_at_the_head_refuses_what_its_target_refuses() {
    let pattern = vec![plus(RE::DigitClass), lit('x')];
    assert_eq!(_match_pattern(&chars("x"), &pattern, 4, Vec::new()), Ok(0));
    assert_eq!(_match_pattern(&chars(""), &pattern, 4, Vec::new()), Ok(0));
    assert_eq!(_match_pattern(&chars("7x"), &pattern, 4, Vec::new()), Ok(6));
    assert_eq!(_match_pattern(&chars("77"), &[plus(RE::DigitClass)], 4, Vec::new()), Ok(6));
}

#[test]
fn optional_node_at_the_head_steps_aside_even_for_its_own_character() {
    let star = vec![
        RE::ZeroOrMore { target: Some(Box::new(lit('a'))) },
        lit('a'),
        lit('b'),
    ];
    assert_eq!(_match_pattern(&chars("ab"), &star, 3, Vec::new()), Ok(5));
    assert_eq!(_match_pattern(&chars("aab"), &star, 3, Vec::new()), Ok(6));
    let optional = vec![
        RE::ZeroOrOne { target: Some(Box::new(lit('a'))) },
        lit('a'),
        lit('b'),
    ];
    assert_eq!(_match_pattern(&chars("ab"), &optional, 3, Vec::new()), Ok(5));
    assert_eq!(_match_pattern(&chars("aab"), &optional, 3, Vec::new()), Ok(6));
    let plain = vec![RE::ZeroOrOne { target: Some(Box::new(lit('a'))) }, lit('t')];
    assert_eq!(_match_pattern(&chars("t"), &plain, 1, Vec::new()), Ok(2));
}

#[test]
fn literal_group_and_reference_take_the_text_twice() {
    let pattern = vec![
        RE::Alternation { members: vec![lits("abc")] },
        RE::BackReference { target: 1 },
    ];
    assert_eq!(_match_pattern(&chars("abcabc"), &pattern, 0, Vec::new()), Ok(6));
    assert_eq!(_match_pattern(&chars("abcabcxyz"), &pattern, 2, Vec::new()), Ok(8));
    assert_eq!(_match_pattern(&chars("abcabd"), &pattern, 0, Vec::new()), Ok(0));
    assert_eq!(_match_pattern(&chars("abcxbc"), &pattern, 2, Vec::new()), Ok(0));
}
