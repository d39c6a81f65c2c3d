use grep_match::matcher::match_pattern;

#[test]
fn test_match_pattern_single_char() {
    assert!(match_pattern("abcdefg", "e").unwrap())
}

#[test]
fn test_match_pattern_single_char_not_contained() {
    assert!(!match_pattern("abcdefg", "x").unwrap())
}

#[test]
fn test_match_pattern_digit() {
    assert!(match_pattern("ab1def", "\\d").unwrap())
}

#[test]
fn test_match_pattern_digit_no_digit() {
    assert!(!match_pattern("abcdefg", "\\d").unwrap())
}

#[test]
fn test_match_pattern_word() {
    assert!(match_pattern("fool101", "\\w").unwrap())
}

#[test]
fn test_match_pattern_word_no_word() {
    assert!(!match_pattern("$!?", "\\w").unwrap())
}

#[test]
fn test_match_pattern_character_group() {
    assert!(match_pattern("apple", "[abc]").unwrap());
    assert!(match_pattern("apple", "[cba]").unwrap());
}

#[test]
fn test_match_pattern_character_group_no_match() {
    assert!(!match_pattern("apple", "[]").unwrap());
    assert!(!match_pattern("apple", "[b]").unwrap());
    assert!(!match_pattern("apple", "[_xy]").unwrap());
}

#[test]
fn test_match_pattern_negative_character_group() {
    assert!(match_pattern("cat", "[^abc]").unwrap())
}

#[test]
fn test_match_pattern_negative_character_group_match() {
    assert!(!match_pattern("cab", "[^abc]").unwrap());
}

#[test]
fn test_match_pattern_combined_character_classes() {
    assert!(match_pattern("1 apple", "\\d apple").unwrap());
    assert!(!match_pattern("1 orange", "\\d apple").unwrap());

    assert!(match_pattern("100 apples", "\\d\\d\\d apple").unwrap());
    assert!(!match_pattern("1 apple", "\\d\\d\\d apple").unwrap());

    assert!(match_pattern("3 dogs", "\\d \\w\\w\\ws").unwrap());
    assert!(match_pattern("4 cats", "\\d \\w\\w\\ws").unwrap());
    assert!(!match_pattern("1 dog", "\\d \\w\\w\\ws").unwrap());
}

#[test]
fn test_match_pattern_start_of_line_anchor() {
    assert!(match_pattern("log", "^log").unwrap());
    assert!(!match_pattern("slog", "^log").unwrap());
}

#[test]
fn test_match_pattern_end_of_line_anchor() {
    assert!(match_pattern("dog", "dog$").unwrap());
    assert!(!match_pattern("dogs", "dog$").unwrap());
}

#[test]
fn test_match_pattern_empty_anchors() {
    assert!(match_pattern("", "^$").unwrap());
    assert!(!match_pattern("x", "^$").unwrap());
}

#[test]
fn test_match_pattern_one_or_more_quantifier() {
    assert!(match_pattern("caats", "ca+ts").unwrap());
    assert!(match_pattern("caaaaa", "ca+").unwrap());
    assert!(!match_pattern("cts", "ca+ts").unwrap());
}

#[test]
fn test_match_pattern_zero_or_more_quantifier() {
    assert!(match_pattern("dogs", "dogs?").unwrap());
    assert!(match_pattern("dog", "dogs?").unwrap());
    assert!(!match_pattern("cat", "dogs?").unwrap());
}

#[test]
fn test_match_pattern_wildcard() {
    assert!(match_pattern("dog", "d.g").unwrap());
    assert!(!match_pattern("cat", "d.g").unwrap());
}

#[test]
fn test_match_pattern_alternation() {
    assert!(match_pattern("cat", "(cat|dog)").unwrap());
    assert!(match_pattern("dog", "(cat|dog)").unwrap());
    assert!(!match_pattern("apple", "(cat|dog)").unwrap());
}

#[test]
fn test_match_pattern_backreference() {
    assert!(match_pattern("cat and cat", "(cat) and \\1").unwrap());
    assert!(!match_pattern("cat and dog", "(cat) and \\1").unwrap());
    assert!(match_pattern("cat and cat", "(\\w+) and \\1").unwrap());
    assert!(match_pattern("dog and dog", "(\\w+) and \\1").unwrap());
    assert!(!match_pattern("cat and dog", "(\\w+) and \\1").unwrap());
    assert!(match_pattern("3 red squares and 3 red circles", "(\\d+) (\\w+) squares and \\1 \\2 circles").unwrap());
    assert!(!match_pattern("3 red squares and 4 red circles", "(\\d+) (\\w+) squares and \\1 \\2 circles").unwrap());
    assert!(match_pattern("'cat and cat' is the same as 'cat and cat'", "('(cat) and \\2') is the same as \\1").unwrap());
}

#[test]
fn test_match_pattern_regression_tests() {
    assert!(!match_pattern("×-+=÷%", "\\w").unwrap());
    assert!(!match_pattern(
        "sally has 12 apples",
        "\\d\\\\d\\\\d apples"
    ).unwrap());
    assert!(match_pattern("goøö0Ogol", "g.+gol").unwrap());
    assert!(match_pattern("a cat", "a (cat|dog)").unwrap());
    assert!(!match_pattern("once a dreaaamer, alwayszzz a dreaaamer", "once a (drea+mer), alwaysz? a \\1").unwrap());
    assert!(match_pattern("cat and fish, cat with fish, cat and fish", "((c.t|d.g) and (f..h|b..d)), \\2 with \\3, \\1").unwrap());
}
