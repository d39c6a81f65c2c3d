use grep_match::patterns::{decimal_digit, is_any_of, is_in_range};
use grep_match::syntax::{
    clone_pattern, find_closing_bracket, find_top_level_bar, into_character_class,
    is_closing_bracket, is_opening_bracket, parse_escape, parse_options, parse_pattern,
    parse_pattern_core, BracketKind, PatternError, Syntax,
};
use grep_match::tokens::{token_of, tokenize_pattern, Token};

fn compile(pattern: &str) -> Vec<Syntax> {
    parse_pattern(&tokenize_pattern(pattern)).unwrap()
}

fn literal(c: char) -> Syntax {
    Syntax::Literal { char: c }
}

#[test]
fn test_is_in_range_bounds_are_inclusive() {
    assert!(is_in_range('b', 'd', 'b'));
    assert!(is_in_range('b', 'd', 'c'));
    assert!(is_in_range('b', 'd', 'd'));
    assert!(!is_in_range('b', 'd', 'a'));
    assert!(!is_in_range('b', 'd', 'e'));
    assert!(!is_in_range('d', 'b', 'c'));
}

#[test]
fn test_is_any_of() {
    assert!(is_any_of(&['a', 'b'], 'b'));
    assert!(!is_any_of(&['a', 'b'], 'c'));
    assert!(!is_any_of(&[], 'a'));
}

#[test]
fn test_decimal_digit() {
    assert_eq!(decimal_digit('0'), Some(0));
    assert_eq!(decimal_digit('7'), Some(7));
    assert_eq!(decimal_digit('9'), Some(9));
    assert_eq!(decimal_digit('a'), None);
    assert_eq!(decimal_digit('/'), None);
    assert_eq!(decimal_digit(':'), None);
    assert_eq!(decimal_digit('٣'), None);
}

#[test]
fn test_token_of_and_to_char_are_inverse() {
    for c in "\\()[]^$+?.|azAZ09_ -ø".chars() {
        assert_eq!(token_of(c).to_char(), c);
    }
    assert_eq!(token_of('a'), Token::Literal('a'));
    assert_eq!(Token::Bar.to_char(), '|');
    assert_eq!(Token::Literal('x').to_char(), 'x');
}

#[test]
fn test_tokenize_empty_pattern() {
    assert_eq!(tokenize_pattern(""), []);
}

#[test]
fn test_tokenize_keeps_one_token_per_character() {
    assert_eq!(tokenize_pattern("aø|").len(), 3);
    assert_eq!(
        tokenize_pattern("aø|"),
        [Token::Literal('a'), Token::Literal('ø'), Token::Bar]
    );
}

#[test]
fn test_bracket_kinds() {
    assert_eq!(is_opening_bracket(&Token::OpenBracket), Some(BracketKind::Bracket));
    assert_eq!(is_opening_bracket(&Token::OpenSquareBracket), Some(BracketKind::SquareBracket));
    assert_eq!(is_opening_bracket(&Token::CloseBracket), None);
    assert_eq!(is_opening_bracket(&Token::Literal('(')), None);
    assert_eq!(is_closing_bracket(&Token::CloseBracket), Some(BracketKind::Bracket));
    assert_eq!(is_closing_bracket(&Token::CloseSquareBracket), Some(BracketKind::SquareBracket));
    assert_eq!(is_closing_bracket(&Token::OpenBracket), None);
}

#[test]
fn test_find_closing_bracket() {
    assert_eq!(find_closing_bracket(&tokenize_pattern("()")), Some(1));
    assert_eq!(find_closing_bracket(&tokenize_pattern("(a(b)c)d)")), Some(6));
    assert_eq!(find_closing_bracket(&tokenize_pattern("(a[bc]d)e")), Some(7));
    assert_eq!(find_closing_bracket(&tokenize_pattern("[ab]c]")), Some(3));
    assert_eq!(find_closing_bracket(&tokenize_pattern("(a(b)c")), None);
    assert_eq!(find_closing_bracket(&tokenize_pattern("(a[b)c]")), None);
    assert_eq!(find_closing_bracket(&tokenize_pattern("(a]")), None);
    assert_eq!(find_closing_bracket(&tokenize_pattern("(")), None);
}

#[test]
fn test_find_top_level_bar() {
    assert_eq!(find_top_level_bar(&tokenize_pattern("a|b|c")), Some(1));
    assert_eq!(find_top_level_bar(&tokenize_pattern("|")), Some(0));
    assert_eq!(find_top_level_bar(&tokenize_pattern("a(b|c)|d")), Some(6));
    assert_eq!(find_top_level_bar(&tokenize_pattern("(a|b)")), None);
    assert_eq!(find_top_level_bar(&tokenize_pattern("abc")), None);
    assert_eq!(find_top_level_bar(&tokenize_pattern("")), None);
}

#[test]
fn test_into_character_class() {
    assert_eq!(
        into_character_class(&[Token::Literal('x'), Token::Literal('y')], true),
        Ok(Syntax::CharacterClass { chars: vec!['x', 'y'], is_negated: true })
    );
    assert_eq!(
        into_character_class(&[], false),
        Ok(Syntax::CharacterClass { chars: vec![], is_negated: false })
    );
    assert_eq!(
        into_character_class(&[Token::Literal('x'), Token::Dot], false),
        Err(PatternError::InvalidCharacterClassToken)
    );
}

#[test]
fn test_parse_escape() {
    assert_eq!(parse_escape(&Token::Backslash), Ok(literal('\\')));
    assert_eq!(parse_escape(&Token::Literal('d')), Ok(Syntax::Digit));
    assert_eq!(parse_escape(&Token::Literal('w')), Ok(Syntax::Word));
    assert_eq!(parse_escape(&Token::Literal('0')), Ok(Syntax::BackReference { id: 0 }));
    assert_eq!(parse_escape(&Token::Literal('9')), Ok(Syntax::BackReference { id: 9 }));
    assert_eq!(parse_escape(&Token::Literal('n')), Err(PatternError::UnrecognizedEscape));
    assert_eq!(parse_escape(&Token::Dot), Err(PatternError::UnrecognizedEscape));
}

#[test]
fn test_parse_empty_pattern() {
    assert_eq!(parse_pattern(&[]), Ok(vec![]));
}

#[test]
fn test_parse_escaped_backslash() {
    assert_eq!(compile("\\\\"), vec![literal('\\')]);
    assert_eq!(compile("\\\\d"), vec![literal('\\'), literal('d')]);
}

#[test]
fn test_parse_backreference_takes_one_digit() {
    assert_eq!(compile("\\12"), vec![Syntax::BackReference { id: 1 }, literal('2')]);
}

#[test]
fn test_parse_caret_is_an_anchor_only_in_first_place() {
    assert_eq!(compile("^a"), vec![Syntax::StartOfLineAnchor, literal('a')]);
    assert_eq!(
        compile("(^a)"),
        vec![Syntax::CaptureGroup {
            options: vec![vec![Syntax::StartOfLineAnchor, literal('a')]],
            id: 1
        }]
    );
}

#[test]
fn test_parse_dollar_anywhere() {
    assert_eq!(
        compile("$a$"),
        vec![Syntax::EndOfLineAnchor, literal('a'), Syntax::EndOfLineAnchor]
    );
}

#[test]
fn test_parse_quantifier_wraps_the_node_before_it() {
    assert_eq!(
        compile("ab+c?"),
        vec![
            literal('a'),
            Syntax::OneOrMore { syntax: Box::new(literal('b')) },
            Syntax::ZeroOrOne { syntax: Box::new(literal('c')) },
        ]
    );
    assert_eq!(
        compile("a+?"),
        vec![Syntax::ZeroOrOne {
            syntax: Box::new(Syntax::OneOrMore { syntax: Box::new(literal('a')) })
        }]
    );
    assert_eq!(
        compile("[ab]+"),
        vec![Syntax::OneOrMore {
            syntax: Box::new(Syntax::CharacterClass { chars: vec!['a', 'b'], is_negated: false })
        }]
    );
}

#[test]
fn test_parse_empty_character_classes() {
    assert_eq!(compile("[]"), vec![Syntax::CharacterClass { chars: vec![], is_negated: false }]);
    assert_eq!(compile("[^]"), vec![Syntax::CharacterClass { chars: vec![], is_negated: true }]);
}

#[test]
fn test_parse_empty_group_has_one_empty_option() {
    assert_eq!(compile("()"), vec![Syntax::CaptureGroup { options: vec![vec![]], id: 1 }]);
    assert_eq!(
        compile("(|)"),
        vec![Syntax::CaptureGroup { options: vec![vec![], vec![]], id: 1 }]
    );
}

#[test]
fn test_parse_nested_groups_are_numbered_as_they_open() {
    assert_eq!(
        compile("((a)(b))(c)"),
        vec![
            Syntax::CaptureGroup {
                options: vec![vec![
                    Syntax::CaptureGroup { options: vec![vec![literal('a')]], id: 2 },
                    Syntax::CaptureGroup { options: vec![vec![literal('b')]], id: 3 },
                ]],
                id: 1
            },
            Syntax::CaptureGroup { options: vec![vec![literal('c')]], id: 4 },
        ]
    );
}

#[test]
fn test_parse_options_share_the_counter() {
    assert_eq!(
        compile("((a)|(b))"),
        vec![Syntax::CaptureGroup {
            options: vec![
                vec![Syntax::CaptureGroup { options: vec![vec![literal('a')]], id: 2 }],
                vec![Syntax::CaptureGroup { options: vec![vec![literal('b')]], id: 3 }],
            ],
            id: 1
        }]
    );
}

#[test]
fn test_parse_splits_only_at_bars_outside_nested_groups() {
    assert_eq!(
        compile("(a(b|c)|d)"),
        vec![Syntax::CaptureGroup {
            options: vec![
                vec![
                    literal('a'),
                    Syntax::CaptureGroup {
                        options: vec![vec![literal('b')], vec![literal('c')]],
                        id: 2
                    },
                ],
                vec![literal('d')],
            ],
            id: 1
        }]
    );
}

#[test]
fn test_parse_pattern_core_advances_the_counter() {
    let mut id = 5;
    let tree = parse_pattern_core(&tokenize_pattern("(a)(b)"), &mut id).unwrap();
    assert_eq!(id, 7);
    assert_eq!(
        tree,
        vec![
            Syntax::CaptureGroup { options: vec![vec![literal('a')]], id: 6 },
            Syntax::CaptureGroup { options: vec![vec![literal('b')]], id: 7 },
        ]
    );
    let mut id = 5;
    let tree = parse_pattern_core(&tokenize_pattern("ab"), &mut id).unwrap();
    assert_eq!(id, 5);
    assert_eq!(tree, vec![literal('a'), literal('b')]);
}

#[test]
fn test_parse_options_directly() {
    let mut id = 1;
    let options = parse_options(&tokenize_pattern("a|(b)|"), &mut id).unwrap();
    assert_eq!(id, 2);
    assert_eq!(
        options,
        vec![
            vec![literal('a')],
            vec![Syntax::CaptureGroup { options: vec![vec![literal('b')]], id: 2 }],
            vec![],
        ]
    );
    let mut id = 0;
    assert_eq!(
        parse_options(&tokenize_pattern("a|+"), &mut id),
        Err(PatternError::QuantifierWithoutAtom)
    );
}

#[test]
fn test_parsing_twice_gives_equal_trees() {
    let pattern = "^((c.t|d.g)+ and [^xyz]?\\1)\\d\\w$";
    let first = parse_pattern(&tokenize_pattern(pattern));
    let second = parse_pattern(&tokenize_pattern(pattern));
    assert!(first.is_ok());
    assert_eq!(first, second);
    let first = parse_pattern(&tokenize_pattern("(a"));
    let second = parse_pattern(&tokenize_pattern("(a"));
    assert_eq!(first, second);
}

#[test]
fn test_clone_gives_equal_trees() {
    let tree = compile("^((c.t|d.g) and [^xyz]?\\1)+\\d\\w$");
    assert_eq!(clone_pattern(&tree), tree);
    assert_eq!(tree[1].clone(), tree[1]);
    let end = Syntax::CaptureGroupEnd { text: "abc".to_string(), id: 3 };
    assert_eq!(end.clone(), end);
}
