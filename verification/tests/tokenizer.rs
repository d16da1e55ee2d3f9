use globgen::{str_counts, str_len, CharSet, Glob, ParseError};

fn p(pattern: &str) {
    let g = Glob::parse(pattern.to_string());
    if let Ok(ref v) = g {
        println!(
            "{: <12}| l={}, c={} => {:?}",
            pattern,
            str_len(v, 3),
            str_counts(v, 3),
            g
        );
    } else {
        println!("{: <12}| {:?}", pattern, g);
    }
}

fn members(set: &CharSet) -> Vec<char> {
    let mut v = Vec::new();
    for i in 0..set.len() {
        v.push(set.get(i));
    }
    v
}

#[test]
fn it_works() {
    p("abc");

    p("a*b?c");

    p("a[bc]d");

    p("a[bc]*d");

    p("a[bc]d[ef]g");

    p("a**b?c");

    p("a*b??c");

    p("*b?c");

    p("?c");

    p("@?");

    let result = 2 + 2;
    assert_eq!(result, 4);
}

#[test]
fn literals_become_one_token_each() {
    let tokens = Glob::parse("aZ9".to_string()).unwrap();
    assert_eq!(tokens.len(), 3);
    assert!(matches!(tokens[0], Glob::Literal('a')));
    assert!(matches!(tokens[1], Glob::Literal('Z')));
    assert!(matches!(tokens[2], Glob::Literal('9')));
}

#[test]
fn empty_pattern_has_no_tokens() {
    let tokens = Glob::parse(String::new()).unwrap();
    assert!(tokens.is_empty());
}

#[test]
fn markers_fold_the_token_before_them() {
    let tokens = Glob::parse("a*b?c".to_string()).unwrap();
    assert_eq!(tokens.len(), 3);
    assert!(matches!(tokens[0], Glob::RepeatedLiteral('a')));
    assert!(matches!(tokens[1], Glob::OptionalLiteral('b')));
    assert!(matches!(tokens[2], Glob::Literal('c')));
}

#[test]
fn bracket_collects_a_set() {
    let tokens = Glob::parse("a[bc]d".to_string()).unwrap();
    assert_eq!(tokens.len(), 3);
    assert!(matches!(tokens[0], Glob::Literal('a')));
    match &tokens[1] {
        Glob::CharacterSet(set) => assert_eq!(members(set), vec!['b', 'c']),
        other => panic!("not a character set: {:?}", other),
    }
    assert!(matches!(tokens[2], Glob::Literal('d')));
}

#[test]
fn set_keeps_each_member_once() {
    let tokens = Glob::parse("[abab]".to_string()).unwrap();
    assert_eq!(tokens.len(), 1);
    match &tokens[0] {
        Glob::CharacterSet(set) => assert_eq!(members(set), vec!['a', 'b']),
        other => panic!("not a character set: {:?}", other),
    }
}

#[test]
fn markers_fold_a_set() {
    let tokens = Glob::parse("[ab]*[cd]?".to_string()).unwrap();
    assert_eq!(tokens.len(), 2);
    match &tokens[0] {
        Glob::RepeatedCharacterSet(set) => assert_eq!(members(set), vec!['a', 'b']),
        other => panic!("not a repeated set: {:?}", other),
    }
    match &tokens[1] {
        Glob::OptionalCharacterSet(set) => assert_eq!(members(set), vec!['c', 'd']),
        other => panic!("not an optional set: {:?}", other),
    }
}

#[test]
fn empty_brackets_give_an_empty_set() {
    let tokens = Glob::parse("[]".to_string()).unwrap();
    assert_eq!(tokens.len(), 1);
    match &tokens[0] {
        Glob::CharacterSet(set) => assert_eq!(set.len(), 0),
        other => panic!("not a character set: {:?}", other),
    }
}

#[test]
fn closing_bracket_alone_is_ignored() {
    let tokens = Glob::parse("a]b".to_string()).unwrap();
    assert_eq!(tokens.len(), 2);
    assert!(matches!(tokens[0], Glob::Literal('a')));
    assert!(matches!(tokens[1], Glob::Literal('b')));
}

#[test]
fn unclosed_bracket_is_accepted() {
    let tokens = Glob::parse("[ab".to_string()).unwrap();
    assert_eq!(tokens.len(), 1);
    match &tokens[0] {
        Glob::CharacterSet(set) => assert_eq!(members(set), vec!['a', 'b']),
        other => panic!("not a character set: {:?}", other),
    }
}

#[test]
fn letter_after_a_folded_set_is_a_literal() {
    // The bracket is still open, but the last token is no plain set any more.
    let tokens = Glob::parse("[a*b]".to_string()).unwrap();
    assert_eq!(tokens.len(), 2);
    match &tokens[0] {
        Glob::RepeatedCharacterSet(set) => assert_eq!(members(set), vec!['a']),
        other => panic!("not a repeated set: {:?}", other),
    }
    assert!(matches!(tokens[1], Glob::Literal('b')));
}

#[test]
fn letter_after_closed_set_is_a_literal() {
    let tokens = Glob::parse("[a]b".to_string()).unwrap();
    assert_eq!(tokens.len(), 2);
    assert!(matches!(tokens[1], Glob::Literal('b')));
}

#[test]
fn leading_star_has_nothing_to_repeat() {
    assert_eq!(
        Glob::parse("*b?c".to_string()).unwrap_err(),
        ParseError::NoPrecedingToken
    );
}

#[test]
fn leading_question_mark_has_nothing_to_fold() {
    assert_eq!(
        Glob::parse("?c".to_string()).unwrap_err(),
        ParseError::NoPrecedingToken
    );
}

#[test]
fn star_after_star_is_rejected() {
    assert_eq!(
        Glob::parse("a**b".to_string()).unwrap_err(),
        ParseError::InvalidRepeatTarget
    );
    assert_eq!(
        Glob::parse("a**b?c".to_string()).unwrap_err(),
        ParseError::InvalidRepeatTarget
    );
}

#[test]
fn star_after_optional_is_rejected() {
    assert_eq!(
        Glob::parse("a?*".to_string()).unwrap_err(),
        ParseError::InvalidRepeatTarget
    );
}

#[test]
fn question_mark_after_folded_token_is_rejected() {
    assert_eq!(
        Glob::parse("a*b??c".to_string()).unwrap_err(),
        ParseError::InvalidOptionalTarget
    );
    assert_eq!(
        Glob::parse("a*?".to_string()).unwrap_err(),
        ParseError::InvalidOptionalTarget
    );
}

#[test]
fn first_unsupported_character_is_reported() {
    assert_eq!(
        Glob::parse("@?".to_string()).unwrap_err(),
        ParseError::UnsupportedCharacter('@')
    );
    assert_eq!(
        Glob::parse("ab-#".to_string()).unwrap_err(),
        ParseError::UnsupportedCharacter('-')
    );
}

#[test]
fn non_ascii_letter_is_unsupported() {
    assert_eq!(
        Glob::parse("é".to_string()).unwrap_err(),
        ParseError::UnsupportedCharacter('é')
    );
}

#[test]
fn earlier_error_wins() {
    assert_eq!(
        Glob::parse("*@".to_string()).unwrap_err(),
        ParseError::NoPrecedingToken
    );
}

#[test]
fn char_set_insert_reports_new_members() {
    let mut set = CharSet::new();
    assert_eq!(set.len(), 0);
    assert!(set.insert('x'));
    assert!(set.insert('y'));
    assert!(!set.insert('x'));
    assert_eq!(set.len(), 2);
    assert!(set.contains('x'));
    assert!(set.contains('y'));
    assert!(!set.contains('z'));
    assert_eq!(set.get(0), 'x');
    assert_eq!(set.get(1), 'y');
}
