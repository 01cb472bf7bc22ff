use mini_regex::parser::{_parse, _post_process, find_character, parse};
use mini_regex::{ParseError, RE};

fn chars(text: &str) -> Vec<char> {
    text.chars().collect()
}

fn lit(character: char) -> RE {
    RE::Character { character }
}

fn lits(text: &str) -> Vec<RE> {
    text.chars().map(lit).collect()
}

fn plus(target: RE) -> RE {
    RE::OneOrMore { target: Some(Box::new(target)) }
}

fn star(target: RE) -> RE {
    RE::ZeroOrMore { target: Some(Box::new(target)) }
}

fn optional(target: RE) -> RE {
    RE::ZeroOrOne { target: Some(Box::new(target)) }
}

fn class(members: Vec<RE>) -> RE {
    RE::CClass { members: Box::new(members) }
}

fn negative_class(members: Vec<RE>) -> RE {
    RE::NCClass { members: Box::new(members) }
}

fn group(members: Vec<Vec<RE>>) -> RE {
    RE::Alternation { members }
}

#[test]
fn parses_a_literal() {
    assert_eq!(parse("a"), Ok(vec![lit('a')]));
}

#[test]
fn parses_the_empty_text() {
    assert_eq!(parse(""), Ok(vec![]));
}

#[test]
fn parses_both_anchors() {
    let mut expected = vec![RE::StartAnchor];
    expected.extend(lits("log"));
    expected.push(RE::EndAnchor);
    assert_eq!(parse("^log$"), Ok(expected));
}

#[test]
fn caret_is_an_anchor_only_at_the_start() {
    assert_eq!(parse("a^b"), Ok(lits("a^b")));
    assert_eq!(parse("^^"), Ok(vec![RE::StartAnchor, lit('^')]));
    assert_eq!(parse("(^a)"), Ok(vec![group(vec![lits("^a")])]));
    assert_eq!(parse("^"), Ok(vec![RE::StartAnchor]));
}

#[test]
fn parses_the_escapes() {
    assert_eq!(parse("\\d"), Ok(vec![RE::DigitClass]));
    assert_eq!(parse("\\w"), Ok(vec![RE::AlphanumericClass]));
    assert_eq!(parse("\\1"), Ok(vec![RE::BackReference { target: 1 }]));
    assert_eq!(parse("\\0"), Ok(vec![RE::BackReference { target: 0 }]));
    assert_eq!(parse("\\7"), Ok(vec![RE::BackReference { target: 7 }]));
    assert_eq!(parse("\\9"), Ok(vec![RE::BackReference { target: 9 }]));
    assert_eq!(
        parse("\\12"),
        Ok(vec![RE::BackReference { target: 1 }, lit('2')])
    );
}

#[test]
fn parses_a_wildcard() {
    assert_eq!(parse("a.b"), Ok(vec![lit('a'), RE::Wildcard, lit('b')]));
}

#[test]
fn binds_a_quantifier_to_the_node_before_it() {
    assert_eq!(parse("\\d+"), Ok(vec![plus(RE::DigitClass)]));
    assert_eq!(
        parse("ab*c?"),
        Ok(vec![lit('a'), star(lit('b')), optional(lit('c'))])
    );
    assert_eq!(parse(".*"), Ok(vec![star(RE::Wildcard)]));
    assert_eq!(parse("[ab]+"), Ok(vec![plus(class(lits("ab")))]));
    assert_eq!(parse("\\1?"), Ok(vec![optional(RE::BackReference { target: 1 })]));
}

#[test]
fn binds_a_quantifier_to_a_group() {
    assert_eq!(
        parse("(a|b)+"),
        Ok(vec![plus(group(vec![lits("a"), lits("b")]))])
    );
}

#[test]
fn binds_quantifiers_inside_a_group() {
    assert_eq!(
        parse("(\\w+) and \\1"),
        Ok(vec![
            group(vec![vec![plus(RE::AlphanumericClass)]]),
            lit(' '),
            lit('a'),
            lit('n'),
            lit('d'),
            lit(' '),
            RE::BackReference { target: 1 },
        ])
    );
    assert_eq!(
        parse("(ab?|c*d)"),
        Ok(vec![group(vec![
            vec![lit('a'), optional(lit('b'))],
            vec![star(lit('c')), lit('d')],
        ])])
    );
}

#[test]
fn parses_the_classes() {
    assert_eq!(parse("[abc]"), Ok(vec![class(lits("abc"))]));
    assert_eq!(parse("[^abc]"), Ok(vec![negative_class(lits("abc"))]));
    assert_eq!(parse("[a-z]"), Ok(vec![class(lits("a-z"))]));
    assert_eq!(parse("[a^]"), Ok(vec![class(lits("a^"))]));
    assert_eq!(
        parse("[\\d.]x"),
        Ok(vec![class(vec![RE::DigitClass, RE::Wildcard]), lit('x')])
    );
    assert_eq!(
        parse("[a$]"),
        Ok(vec![class(vec![lit('a'), RE::EndAnchor])])
    );
    assert_eq!(
        parse("[\\1]"),
        Ok(vec![class(vec![RE::BackReference { target: 1 }])])
    );
    assert_eq!(parse("[a]]"), Ok(vec![class(lits("a")), lit(']')]));
}

#[test]
fn parses_a_group() {
    assert_eq!(
        parse("(cat|dog)"),
        Ok(vec![group(vec![lits("cat"), lits("dog")])])
    );
    assert_eq!(parse("(a)"), Ok(vec![group(vec![lits("a")])]));
    assert_eq!(
        parse("(a||b)c"),
        Ok(vec![group(vec![lits("a"), vec![], lits("b")]), lit('c')])
    );
    assert_eq!(parse("(|)"), Ok(vec![group(vec![vec![], vec![]])]));
    assert_eq!(
        parse("(a$|b)"),
        Ok(vec![group(vec![vec![lit('a'), RE::EndAnchor], lits("b")])])
    );
    assert_eq!(
        parse("([ab]|c)"),
        Ok(vec![group(vec![vec![class(lits("ab"))], lits("c")])])
    );
    assert_eq!(parse("(a))"), Ok(vec![group(vec![lits("a")]), lit(')')]));
    assert_eq!(parse("a|b"), Ok(lits("a|b")));
}

#[test]
fn refuses_an_unterminated_group() {
    assert_eq!(parse("(ab"), Err(ParseError::UnterminatedGroup));
    assert_eq!(parse("("), Err(ParseError::UnterminatedGroup));
    assert_eq!(parse("((a)b)"), Err(ParseError::UnterminatedGroup));
    assert_eq!(parse("[(]"), Err(ParseError::UnterminatedGroup));
}

#[test]
fn refuses_an_empty_group() {
    assert_eq!(parse("()"), Err(ParseError::EmptyGroup));
    assert_eq!(parse("a()b"), Err(ParseError::EmptyGroup));
}

#[test]
fn refuses_an_unterminated_class() {
    assert_eq!(parse("[ab"), Err(ParseError::UnterminatedClass));
    assert_eq!(parse("["), Err(ParseError::UnterminatedClass));
    assert_eq!(parse("[^"), Err(ParseError::UnterminatedClass));
    assert_eq!(parse("[[a]]"), Err(ParseError::UnterminatedClass));
    assert_eq!(parse("([a)]"), Err(ParseError::UnterminatedClass));
}

#[test]
fn refuses_an_empty_class() {
    assert_eq!(parse("[]"), Err(ParseError::EmptyClass));
    assert_eq!(parse("[^]"), Err(ParseError::EmptyClass));
    assert_eq!(parse("[]a]"), Err(ParseError::EmptyClass));
}

#[test]
fn refuses_a_backslash_at_the_end() {
    assert_eq!(parse("\\"), Err(ParseError::MissingEscape));
    assert_eq!(parse("ab\\"), Err(ParseError::MissingEscape));
    assert_eq!(parse("(a\\)"), Err(ParseError::MissingEscape));
}

#[test]
fn refuses_an_unknown_escape() {
    assert_eq!(
        parse("\\x"),
        Err(ParseError::UnsupportedEscape { character: 'x' })
    );
    assert_eq!(
        parse("a\\\\"),
        Err(ParseError::UnsupportedEscape { character: '\\' })
    );
    assert_eq!(
        parse("\\D"),
        Err(ParseError::UnsupportedEscape { character: 'D' })
    );
    assert_eq!(
        parse("\\\u{663}"),
        Err(ParseError::UnsupportedEscape { character: '\u{663}' })
    );
}

#[test]
fn refuses_an_end_anchor_before_the_end() {
    assert_eq!(parse("a$b"), Err(ParseError::MisplacedEndAnchor));
    assert_eq!(parse("$$"), Err(ParseError::MisplacedEndAnchor));
    assert_eq!(parse("a$+"), Err(ParseError::MisplacedEndAnchor));
    assert_eq!(parse("(a$b)"), Err(ParseError::MisplacedEndAnchor));
    assert_eq!(parse("[$a]"), Err(ParseError::MisplacedEndAnchor));
}

#[test]
fn refuses_a_quantifier_without_target() {
    assert_eq!(parse("+a"), Err(ParseError::QuantifierWithoutTarget));
    assert_eq!(parse("*"), Err(ParseError::QuantifierWithoutTarget));
    assert_eq!(parse("?a"), Err(ParseError::QuantifierWithoutTarget));
    assert_eq!(parse("a++"), Err(ParseError::QuantifierWithoutTarget));
    assert_eq!(parse("a*?"), Err(ParseError::QuantifierWithoutTarget));
    assert_eq!(parse("(a|+b)"), Err(ParseError::QuantifierWithoutTarget));
}

#[test]
fn binds_a_quantifier_to_an_anchor() {
    assert_eq!(parse("^*"), Ok(vec![star(RE::StartAnchor)]));
    assert_eq!(parse("^+a"), Ok(vec![plus(RE::StartAnchor), lit('a')]));
    assert_eq!(parse("^?"), Ok(vec![optional(RE::StartAnchor)]));
    assert_eq!(
        parse("^*a"),
        Ok(vec![star(RE::StartAnchor), lit('a')])
    );
    assert_eq!(parse("(^+)"), Ok(vec![group(vec![vec![plus(lit('^'))]])]));
    assert_eq!(
        _post_process(vec![RE::StartAnchor, RE::OneOrMore { target: None }]),
        Ok(vec![plus(RE::StartAnchor)])
    );
    assert_eq!(
        _post_process(vec![RE::EndAnchor, RE::OneOrMore { target: None }]),
        Ok(vec![plus(RE::EndAnchor)])
    );
    assert_eq!(
        _post_process(vec![lit('a'), RE::StartAnchor, RE::ZeroOrMore { target: None }]),
        Ok(vec![lit('a'), star(RE::StartAnchor)])
    );
}

#[test]
fn binds_each_pair_and_keeps_the_other_nodes_in_order() {
    let flat = vec![
        lit('a'),
        RE::OneOrMore { target: None },
        RE::Wildcard,
        RE::DigitClass,
        RE::ZeroOrMore { target: None },
        group(vec![lits("x")]),
        RE::ZeroOrOne { target: None },
        lit('z'),
    ];
    let bound = _post_process(flat.clone()).expect("every quantifier has a node before it");
    assert_eq!(bound.len(), flat.len() - 3);
    assert_eq!(
        bound,
        vec![
            plus(lit('a')),
            RE::Wildcard,
            star(RE::DigitClass),
            optional(group(vec![lits("x")])),
            lit('z'),
        ]
    );
}

#[test]
fn leaves_a_sequence_without_quantifiers_as_it_is() {
    let flat = vec![
        RE::StartAnchor,
        lit('a'),
        RE::Wildcard,
        class(lits("ab")),
        group(vec![lits("x"), lits("y")]),
        RE::BackReference { target: 1 },
        RE::EndAnchor,
    ];
    assert_eq!(_post_process(flat.clone()), Ok(flat));
}

#[test]
fn refuses_a_quantifier_or_a_group_in_a_class() {
    assert_eq!(parse("[a+]"), Err(ParseError::ClassNesting));
    assert_eq!(parse("[*]"), Err(ParseError::ClassNesting));
    assert_eq!(parse("[^a?]"), Err(ParseError::ClassNesting));
    assert_eq!(parse("[a+]*"), Err(ParseError::ClassNesting));
    assert_eq!(parse("[(a)]"), Err(ParseError::ClassNesting));
    assert_eq!(parse("([a+])"), Err(ParseError::ClassNesting));
}

#[test]
fn reports_what_the_text_spells_wrong_before_what_it_binds_wrong() {
    assert_eq!(
        parse("+\\x"),
        Err(ParseError::UnsupportedEscape { character: 'x' })
    );
    assert_eq!(parse("[a+](b"), Err(ParseError::UnterminatedGroup));
    assert_eq!(parse("[a+]+a++"), Err(ParseError::ClassNesting));
}

#[test]
fn flat_parse_appends_and_leaves_quantifiers_unbound() {
    let mut regex = vec![RE::StartAnchor];
    assert_eq!(_parse(&chars("a+b"), &mut regex), Ok(()));
    assert_eq!(
        regex,
        vec![
            RE::StartAnchor,
            lit('a'),
            RE::OneOrMore { target: None },
            lit('b'),
        ]
    );
    let mut other = Vec::new();
    assert_eq!(_parse(&chars("+*?"), &mut other), Ok(()));
    assert_eq!(
        other,
        vec![
            RE::OneOrMore { target: None },
            RE::ZeroOrMore { target: None },
            RE::ZeroOrOne { target: None },
        ]
    );
    let mut failed = Vec::new();
    assert_eq!(
        _parse(&chars("a$b"), &mut failed),
        Err(ParseError::MisplacedEndAnchor)
    );
}

#[test]
fn post_process_binds_by_position() {
    assert_eq!(
        _post_process(vec![lit('a'), RE::OneOrMore { target: None }]),
        Ok(vec![plus(lit('a'))])
    );
    assert_eq!(
        _post_process(vec![lit('a'), RE::ZeroOrOne { target: Some(Box::new(lit('b'))) }]),
        Ok(vec![optional(lit('a'))])
    );
    assert_eq!(
        _post_process(vec![plus(lit('a'))]),
        Err(ParseError::QuantifierWithoutTarget)
    );
    assert_eq!(_post_process(vec![]), Ok(vec![]));
    assert_eq!(
        _post_process(vec![
            group(vec![vec![lit('a'), RE::ZeroOrMore { target: None }]]),
            lit('b'),
        ]),
        Ok(vec![group(vec![vec![star(lit('a'))]]), lit('b')])
    );
    assert_eq!(
        _post_process(vec![class(vec![group(vec![lits("a")])])]),
        Err(ParseError::ClassNesting)
    );
}

#[test]
fn finds_the_first_occurrence() {
    assert_eq!(find_character(&chars("a)b)"), ')'), Some(1));
    assert_eq!(find_character(&chars(")"), ')'), Some(0));
    assert_eq!(find_character(&chars("abc"), ')'), None);
    assert_eq!(find_character(&chars(""), ')'), None);
}

#[test]
fn each_error_has_its_sentence() {
    assert_eq!(ParseError::UnterminatedGroup.message(), "unterminated group");
    assert_eq!(ParseError::EmptyGroup.message(), "empty group");
    assert_eq!(
        ParseError::UnterminatedClass.message(),
        "unterminated character class"
    );
    assert_eq!(ParseError::EmptyClass.message(), "empty character class");
    assert_eq!(
        ParseError::MissingEscape.message(),
        "Missing special character class specifier"
    );
    assert_eq!(
        ParseError::UnsupportedEscape { character: 'x' }.message(),
        "Unsupported special character class x"
    );
    assert_eq!(
        ParseError::MisplacedEndAnchor.message(),
        "Invalid pattern, `$` should only appear as the last character"
    );
    assert_eq!(
        ParseError::QuantifierWithoutTarget.message(),
        "quantifier without a node to repeat"
    );
    assert_eq!(
        ParseError::ClassNesting.message(),
        "character class cannot contain a quantifier or a group"
    );
}
