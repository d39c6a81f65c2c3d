use std::collections::HashMap;

use grep_match::matcher::{
    is_match, is_single_char_node, is_supported, is_supported_node, match_here, match_pattern,
    match_question_mark, match_star, match_syntax, starts_with, Match,
};
use grep_match::syntax::{parse_pattern, Syntax};
use grep_match::tokens::tokenize_pattern;

fn compile(pattern: &str) -> Vec<Syntax> {
    parse_pattern(&tokenize_pattern(pattern)).unwrap()
}

fn text_of(m: &Match) -> String {
    m.text.iter().collect()
}

fn bound(cgroups: &HashMap<u32, Match>, id: u32) -> Option<String> {
    cgroups.get(&id).map(text_of)
}

#[test]
fn test_match_constructors() {
    assert_eq!(Match::empty().text, Vec::<char>::new());
    assert_eq!(Match::from_char('x').text, vec!['x']);
    assert_eq!(Match::from_str("aøb").text, vec!['a', 'ø', 'b']);
    assert_eq!(Match::from_str("").text, Vec::<char>::new());
}

#[test]
fn test_match_merge() {
    let merged = Match::merge(Match::from_str("ab"), Match::from_str("cd"));
    assert_eq!(merged.text, vec!['a', 'b', 'c', 'd']);
    let merged = Match::merge(Match::empty(), Match::from_char('z'));
    assert_eq!(merged.text, vec!['z']);
    let mut head = Match::from_str("x");
    head.merge_with(Match::from_str("yz"));
    assert_eq!(head.text, vec!['x', 'y', 'z']);
    head.merge_with(Match::empty());
    assert_eq!(head.text, vec!['x', 'y', 'z']);
}

#[test]
fn test_match_clone() {
    let m = Match::from_str("abc");
    assert_eq!(m.clone().text, m.text);
}

#[test]
fn test_is_match_single_characters() {
    assert_eq!(is_match('a', &Syntax::Wildcard).unwrap().text, vec!['a']);
    assert_eq!(is_match('a', &Syntax::Literal { char: 'a' }).unwrap().text, vec!['a']);
    assert!(is_match('b', &Syntax::Literal { char: 'a' }).is_none());
    assert!(is_match('7', &Syntax::Digit).is_some());
    assert!(is_match('x', &Syntax::Digit).is_none());
    assert!(is_match('_', &Syntax::Word).is_some());
    assert!(is_match('-', &Syntax::Word).is_none());
    let class = Syntax::CharacterClass { chars: vec!['x', 'y'], is_negated: false };
    assert!(is_match('y', &class).is_some());
    assert!(is_match('z', &class).is_none());
    let class = Syntax::CharacterClass { chars: vec!['x', 'y'], is_negated: true };
    assert!(is_match('y', &class).is_none());
    assert!(is_match('z', &class).is_some());
}

#[test]
fn test_starts_with() {
    assert!(starts_with("hello", &vec!['h', 'e']));
    assert!(starts_with("hello", &vec![]));
    assert!(starts_with("", &vec![]));
    assert!(!starts_with("hello", &vec!['e']));
    assert!(!starts_with("he", &vec!['h', 'e', 'l']));
    assert!(starts_with("øx", &vec!['ø']));
}

#[test]
fn test_match_here_empty_pattern_consumes_nothing() {
    let mut cgroups = HashMap::new();
    let m = match_here("abc", &[], &mut cgroups).unwrap();
    assert_eq!(text_of(&m), "");
    let m = match_here("", &[], &mut cgroups).unwrap();
    assert_eq!(text_of(&m), "");
    assert!(cgroups.is_empty());
}

#[test]
fn test_match_here_returns_consumed_text() {
    let mut cgroups = HashMap::new();
    let m = match_here("abcdef", &compile("ab."), &mut cgroups).unwrap();
    assert_eq!(text_of(&m), "abc");
    assert!(match_here("xabc", &compile("ab."), &mut cgroups).is_none());
    assert!(match_here("ab", &compile("ab."), &mut cgroups).is_none());
}

#[test]
fn test_one_or_more_stops_as_soon_as_the_rest_matches() {
    let mut cgroups = HashMap::new();
    let m = match_here("aaab", &compile("a+"), &mut cgroups).unwrap();
    assert_eq!(text_of(&m), "a");
    let m = match_here("aaab", &compile("a+b"), &mut cgroups).unwrap();
    assert_eq!(text_of(&m), "aaab");
    let m = match_here("aaab", &compile("a+ab"), &mut cgroups).unwrap();
    assert_eq!(text_of(&m), "aaab");
    assert!(match_here("b", &compile("a+b"), &mut cgroups).is_none());
    assert!(match_here("aaa", &compile("a+b"), &mut cgroups).is_none());
}

#[test]
fn test_zero_or_one_tries_one_occurrence_first() {
    let mut cgroups = HashMap::new();
    let m = match_here("aab", &compile("a?"), &mut cgroups).unwrap();
    assert_eq!(text_of(&m), "a");
    let m = match_here("ab", &compile("a?ab"), &mut cgroups).unwrap();
    assert_eq!(text_of(&m), "ab");
    let m = match_here("b", &compile("a?b"), &mut cgroups).unwrap();
    assert_eq!(text_of(&m), "b");
}

#[test]
fn test_match_star_and_question_mark_directly() {
    let a = Syntax::Literal { char: 'a' };
    let rest = compile("b");
    let mut cgroups = HashMap::new();
    let m = match_star("aab", &a, &rest, &mut cgroups).unwrap();
    assert_eq!(text_of(&m), "aab");
    let m = match_star("b", &a, &rest, &mut cgroups).unwrap();
    assert_eq!(text_of(&m), "b");
    assert!(match_star("aac", &a, &rest, &mut cgroups).is_none());
    let m = match_question_mark("ab", &a, &rest, &mut cgroups).unwrap();
    assert_eq!(text_of(&m), "ab");
    let m = match_question_mark("b", &a, &rest, &mut cgroups).unwrap();
    assert_eq!(text_of(&m), "b");
    assert!(match_question_mark("aab", &a, &rest, &mut cgroups).is_none());
}

#[test]
fn test_capture_group_binds_what_its_option_consumed() {
    let mut cgroups = HashMap::new();
    let m = match_here("cat and dog", &compile("(cat|dog) and (cat|dog)"), &mut cgroups).unwrap();
    assert_eq!(text_of(&m), "cat and dog");
    assert_eq!(bound(&cgroups, 1), Some("cat".to_string()));
    assert_eq!(bound(&cgroups, 2), Some("dog".to_string()));
    assert_eq!(cgroups.len(), 2);
}

#[test]
fn test_capture_boundary_follows_the_continuation() {
    let mut cgroups = HashMap::new();
    let m = match_here("aaab", &compile("(a+)ab"), &mut cgroups).unwrap();
    assert_eq!(text_of(&m), "aaab");
    assert_eq!(bound(&cgroups, 1), Some("aa".to_string()));
}

#[test]
fn test_nested_groups_bind_inner_and_outer() {
    let mut cgroups = HashMap::new();
    let m = match_here("xyz!", &compile("(x(y)(z))"), &mut cgroups).unwrap();
    assert_eq!(text_of(&m), "xyz");
    assert_eq!(bound(&cgroups, 1), Some("xyz".to_string()));
    assert_eq!(bound(&cgroups, 2), Some("y".to_string()));
    assert_eq!(bound(&cgroups, 3), Some("z".to_string()));
}

#[test]
fn test_empty_group_binds_the_empty_text() {
    let mut cgroups = HashMap::new();
    let m = match_here("ab", &compile("()a"), &mut cgroups).unwrap();
    assert_eq!(text_of(&m), "a");
    assert_eq!(bound(&cgroups, 1), Some(String::new()));
}

#[test]
fn test_failed_attempt_leaves_no_bindings() {
    let mut cgroups = HashMap::new();
    assert!(match_here("cat and dog", &compile("(cat) and \\1"), &mut cgroups).is_none());
    assert!(cgroups.is_empty());
    assert!(match_here("ab", &compile("(a)(b)c"), &mut cgroups).is_none());
    assert!(cgroups.is_empty());
    assert!(match_here("abd", &compile("((a)(b)|ab)c"), &mut cgroups).is_none());
    assert!(cgroups.is_empty());
}

#[test]
fn test_failed_attempt_keeps_earlier_bindings() {
    let mut cgroups = HashMap::new();
    cgroups.insert(7, Match::from_str("seven"));
    assert!(match_here("ab", &compile("(a)(b)c"), &mut cgroups).is_none());
    assert_eq!(cgroups.len(), 1);
    assert_eq!(bound(&cgroups, 7), Some("seven".to_string()));
}

#[test]
fn test_abandoned_alternative_leaves_no_binding() {
    let mut cgroups = HashMap::new();
    let m = match_here("abd", &compile("((a)bc|abd)"), &mut cgroups).unwrap();
    assert_eq!(text_of(&m), "abd");
    assert_eq!(bound(&cgroups, 1), Some("abd".to_string()));
    assert_eq!(bound(&cgroups, 2), None);
    assert_eq!(cgroups.len(), 1);
}

#[test]
fn test_backreference_uses_earlier_binding() {
    let mut cgroups = HashMap::new();
    cgroups.insert(1, Match::from_str("ab"));
    let pattern = [Syntax::BackReference { id: 1 }, Syntax::Literal { char: 'c' }];
    let m = match_here("abcd", &pattern, &mut cgroups).unwrap();
    assert_eq!(text_of(&m), "abc");
    assert!(match_here("acd", &pattern, &mut cgroups).is_none());
    assert!(match_here("a", &pattern, &mut cgroups).is_none());
}

#[test]
fn test_backreference_to_unbound_group_matches_nothing() {
    assert_eq!(match_pattern("a", "\\1"), Ok(false));
    assert_eq!(match_pattern("", "\\1"), Ok(false));
    assert_eq!(match_pattern("aa", "(a)?\\1"), Ok(true));
    assert_eq!(match_pattern("b", "(a)?\\1b"), Ok(false));
    assert_eq!(match_pattern("bb", "(a|b)\\1"), Ok(true));
    assert_eq!(match_pattern("ab", "(a|b)\\1"), Ok(false));
}

#[test]
fn test_backreference_to_empty_binding() {
    assert_eq!(match_pattern("ab", "(x?)a\\1b"), Ok(true));
}

#[test]
fn test_end_anchor_only_matches_as_last_node() {
    let mut cgroups = HashMap::new();
    assert!(match_here("", &compile("$"), &mut cgroups).is_some());
    assert!(match_here("a", &compile("$"), &mut cgroups).is_none());
    assert!(match_here("", &compile("$a"), &mut cgroups).is_none());
    assert!(match_here("", &compile("$$"), &mut cgroups).is_none());
    assert_eq!(match_pattern("ab", "(b$)"), Ok(false));
    assert_eq!(match_pattern("ab", "b$"), Ok(true));
    assert_eq!(match_pattern("ab", "b$?"), Ok(true));
}

#[test]
fn test_is_supported() {
    assert!(is_supported(&compile("a+(b|c?)\\1.$")));
    assert!(is_supported(&[]));
    assert!(!is_supported(&compile("^a")));
    assert!(!is_supported(&compile("(a)+")));
    assert!(!is_supported(&compile("(a|(b+)+)")));
    assert!(!is_supported(&[Syntax::CaptureGroupEnd { text: String::new(), id: 1 }]));
}

#[test]
fn test_match_syntax() {
    assert!(match_syntax("xxabc", &compile("abc")));
    assert!(!match_syntax("xxabc", &compile("^abc")));
    assert!(match_syntax("abcxx", &compile("^abc")));
    assert!(match_syntax("", &[]));
    assert!(match_syntax("anything", &[]));
    assert!(match_syntax("", &compile("^")));
}

#[test]
fn test_every_offset_is_tried() {
    assert_eq!(match_pattern("abc", "c"), Ok(true));
    assert_eq!(match_pattern("abc", "$"), Ok(true));
    assert_eq!(match_pattern("", "$"), Ok(true));
    assert_eq!(match_pattern("", ""), Ok(true));
    assert_eq!(match_pattern("abc", ""), Ok(true));
    assert_eq!(match_pattern("", "a"), Ok(false));
    assert_eq!(match_pattern("", "a?"), Ok(true));
}

#[test]
fn test_offsets_count_characters() {
    assert_eq!(match_pattern("øøa", "a"), Ok(true));
    assert_eq!(match_pattern("øøa", "^..a$"), Ok(true));
    assert_eq!(match_pattern("øøa", "^...a$"), Ok(false));
    assert_eq!(match_pattern("日本語", "(本)語"), Ok(true));
    assert_eq!(match_pattern("ø ø", "(ø) \\1"), Ok(true));
}

#[test]
fn test_nested_alternation() {
    assert_eq!(match_pattern("ac", "^((a|b)c|d)$"), Ok(true));
    assert_eq!(match_pattern("bc", "^((a|b)c|d)$"), Ok(true));
    assert_eq!(match_pattern("d", "^((a|b)c|d)$"), Ok(true));
    assert_eq!(match_pattern("c", "^((a|b)c|d)$"), Ok(false));
    assert_eq!(match_pattern("", "^(|a)$"), Ok(true));
    assert_eq!(match_pattern("a", "^(|a)$"), Ok(true));
}

#[test]
fn test_consumed_text_is_a_prefix_of_the_text() {
    let patterns = ["a+b?", "(a|ab)(c|bcd)(d?)", "(\\w+) \\1", ".+$", "[^x]?x"];
    let texts = ["abcd", "aab", "ab ab", "x", "yx", ""];
    for pattern in patterns {
        for text in texts {
            let mut cgroups = HashMap::new();
            if let Some(m) = match_here(text, &compile(pattern), &mut cgroups) {
                assert!(text.starts_with(&text_of(&m)));
            } else {
                assert!(cgroups.is_empty());
            }
        }
    }
}

#[test]
fn test_alternatives_are_tried_in_order() {
    let mut cgroups = HashMap::new();
    let m = match_here("abcd", &compile("(a|ab)(c|bcd)(d?)"), &mut cgroups).unwrap();
    assert_eq!(text_of(&m), "abcd");
    assert_eq!(bound(&cgroups, 1), Some("a".to_string()));
    assert_eq!(bound(&cgroups, 2), Some("bcd".to_string()));
    assert_eq!(bound(&cgroups, 3), Some(String::new()));
}

#[test]
fn test_a_match_is_found_whichever_way_it_takes() {
    assert_eq!(match_pattern("abc", "^(a|ab)c$"), Ok(true));
    assert_eq!(match_pattern("abc", "^(ab|a)c$"), Ok(true));
    assert_eq!(match_pattern("aaab", "^a+ab$"), Ok(true));
    assert_eq!(match_pattern("aaab", "^a+a+a+b$"), Ok(true));
    assert_eq!(match_pattern("aab", "^a+a+a+b$"), Ok(false));
    assert_eq!(match_pattern("x", "^(x?)(x?)x$"), Ok(true));
    assert_eq!(match_pattern("aab", "^(a+)(a+)b$"), Ok(true));
    assert_eq!(match_pattern("abab", "^(a|ab)(b|ab)\\1?b?$"), Ok(true));
    assert_eq!(match_pattern("aXbXc", "^.+X.+$"), Ok(true));
    assert_eq!(match_pattern("aaa", "^(a|aa)\\1$"), Ok(false));
    assert_eq!(match_pattern("aaaa", "^(a|aa)\\1$"), Ok(true));
}

#[test]
fn test_is_single_char_node() {
    assert!(is_single_char_node(&Syntax::Literal { char: 'a' }));
    assert!(is_single_char_node(&Syntax::Digit));
    assert!(is_single_char_node(&Syntax::Word));
    assert!(is_single_char_node(&Syntax::Wildcard));
    assert!(is_single_char_node(&Syntax::CharacterClass { chars: vec![], is_negated: true }));
    assert!(!is_single_char_node(&Syntax::StartOfLineAnchor));
    assert!(!is_single_char_node(&Syntax::EndOfLineAnchor));
    assert!(!is_single_char_node(&Syntax::BackReference { id: 1 }));
    assert!(!is_single_char_node(&Syntax::CaptureGroup { options: vec![], id: 1 }));
    assert!(!is_single_char_node(&Syntax::OneOrMore { syntax: Box::new(Syntax::Digit) }));
    assert!(!is_single_char_node(&Syntax::ZeroOrOne { syntax: Box::new(Syntax::Digit) }));
}

#[test]
fn test_is_supported_node() {
    let digit = || Box::new(Syntax::Digit);
    assert!(is_supported_node(&Syntax::Digit));
    assert!(is_supported_node(&Syntax::EndOfLineAnchor));
    assert!(is_supported_node(&Syntax::BackReference { id: 3 }));
    assert!(is_supported_node(&Syntax::OneOrMore { syntax: digit() }));
    assert!(is_supported_node(&Syntax::ZeroOrOne {
        syntax: Box::new(Syntax::OneOrMore { syntax: digit() })
    }));
    assert!(is_supported_node(&Syntax::CaptureGroup { options: vec![], id: 1 }));
    assert!(is_supported_node(&Syntax::CaptureGroup {
        options: vec![vec![], vec![Syntax::Digit, Syntax::OneOrMore { syntax: digit() }]],
        id: 1
    }));
    assert!(!is_supported_node(&Syntax::StartOfLineAnchor));
    assert!(!is_supported_node(&Syntax::CaptureGroupEnd { text: "a".to_string(), id: 1 }));
    assert!(!is_supported_node(&Syntax::OneOrMore {
        syntax: Box::new(Syntax::OneOrMore { syntax: digit() })
    }));
    assert!(!is_supported_node(&Syntax::OneOrMore {
        syntax: Box::new(Syntax::BackReference { id: 1 })
    }));
    assert!(!is_supported_node(&Syntax::CaptureGroup {
        options: vec![vec![Syntax::Digit], vec![Syntax::Digit, Syntax::StartOfLineAnchor]],
        id: 1
    }));
    assert!(!is_supported_node(&Syntax::ZeroOrOne {
        syntax: Box::new(Syntax::StartOfLineAnchor)
    }));
}
