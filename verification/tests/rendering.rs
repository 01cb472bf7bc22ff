use mini_regex::pattern::{
    clone_alternatives, clone_sequence, digit_character, literal_node, push_decimal,
};
use mini_regex::RE;

fn lit(character: char) -> RE {
    RE::Character { character }
}

#[test]
fn renders_the_leaves() {
    assert_eq!(lit('x').to_string(), "x");
    assert_eq!(lit('\u{e9}').to_string(), "\u{e9}");
    assert_eq!(RE::DigitClass.to_string(), "\\d");
    assert_eq!(RE::AlphanumericClass.to_string(), "\\w");
    assert_eq!(RE::Wildcard.to_string(), ".");
    assert_eq!(RE::StartAnchor.to_string(), "^");
    assert_eq!(RE::EndAnchor.to_string(), "$");
}

#[test]
fn renders_classes_and_groups_as_words() {
    assert_eq!(RE::CClass { members: Box::new(vec![lit('a')]) }.to_string(), "cclass");
    assert_eq!(RE::NCClass { members: Box::new(vec![lit('a')]) }.to_string(), "ncclass");
    assert_eq!(
        RE::Alternation { members: vec![vec![lit('a')]] }.to_string(),
        "alternation"
    );
}

#[test]
fn renders_quantifiers_after_their_target() {
    assert_eq!(RE::OneOrMore { target: Some(Box::new(lit('a'))) }.to_string(), "a+");
    assert_eq!(
        RE::ZeroOrMore { target: Some(Box::new(RE::DigitClass)) }.to_string(),
        "\\d*"
    );
    assert_eq!(
        RE::ZeroOrOne { target: Some(Box::new(RE::Wildcard)) }.to_string(),
        ".?"
    );
    assert_eq!(
        RE::OneOrMore {
            target: Some(Box::new(RE::ZeroOrOne { target: Some(Box::new(lit('a'))) })),
        }
        .to_string(),
        "a?+"
    );
    assert_eq!(RE::OneOrMore { target: None }.to_string(), "+");
    assert_eq!(RE::ZeroOrMore { target: None }.to_string(), "*");
    assert_eq!(RE::ZeroOrOne { target: None }.to_string(), "?");
}

#[test]
fn renders_a_reference_by_its_number() {
    assert_eq!(RE::BackReference { target: 1 }.to_string(), "\\1");
    assert_eq!(RE::BackReference { target: 0 }.to_string(), "\\0");
    assert_eq!(RE::BackReference { target: 10 }.to_string(), "\\10");
    assert_eq!(RE::BackReference { target: 907 }.to_string(), "\\907");
    assert_eq!(
        RE::BackReference { target: u32::MAX }.to_string(),
        "\\4294967295"
    );
}

#[test]
fn writes_decimal_numerals() {
    let mut text = "n=".to_string();
    push_decimal(&mut text, 0);
    push_decimal(&mut text, 42);
    push_decimal(&mut text, 1000);
    assert_eq!(text, "n=0421000");
    assert_eq!(digit_character(0), '0');
    assert_eq!(digit_character(9), '9');
}

#[test]
fn clone_is_a_deep_copy() {
    let node = RE::Alternation {
        members: vec![
            vec![
                RE::OneOrMore { target: Some(Box::new(lit('a'))) },
                RE::CClass { members: Box::new(vec![lit('b'), RE::DigitClass]) },
            ],
            vec![RE::NCClass { members: Box::new(vec![RE::Wildcard]) }],
            vec![RE::ZeroOrMore { target: None }, RE::ZeroOrOne { target: None }],
            vec![
                RE::StartAnchor,
                RE::EndAnchor,
                RE::AlphanumericClass,
                RE::BackReference { target: 3 },
            ],
        ],
    };
    assert_eq!(node.clone(), node);
    let sequence = vec![node.clone(), lit('x')];
    assert_eq!(clone_sequence(&sequence), sequence);
    let alternatives = vec![sequence.clone(), vec![], vec![RE::Wildcard]];
    assert_eq!(clone_alternatives(&alternatives), alternatives);
    assert_eq!(literal_node('q'), lit('q'));
}
