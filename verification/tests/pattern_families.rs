use grep_match::matcher::match_pattern;

const TEXTS: [&str; 12] = [
    "",
    "a",
    "abc",
    "cab",
    "xyz",
    "hello world",
    "1 apple",
    "___",
    "$!?",
    "ab1def",
    "×-+=÷%",
    "a.b|c",
];

const SPECIAL: &str = "\\()[]^$+?.|";

#[test]
fn test_single_character_matches_texts_that_contain_it() {
    for code in 32u8..127 {
        let c = code as char;
        if SPECIAL.contains(c) {
            continue;
        }
        let pattern = c.to_string();
        for text in TEXTS {
            assert_eq!(match_pattern(text, &pattern), Ok(text.contains(c)));
        }
    }
    assert_eq!(match_pattern("aøb", "ø"), Ok(true));
    assert_eq!(match_pattern("ab", "ø"), Ok(false));
}

#[test]
fn test_special_characters_are_not_literals() {
    assert_eq!(match_pattern("abc", "."), Ok(true));
    assert_eq!(match_pattern("", "."), Ok(false));
    assert_eq!(match_pattern("abc", "$"), Ok(true));
    assert_eq!(match_pattern("abc", "^"), Ok(true));
    assert!(match_pattern("a+b", "+").is_err());
    assert!(match_pattern("a|b", "|").is_err());
}

#[test]
fn test_digit_matches_texts_with_a_digit() {
    for text in TEXTS {
        let expected = text.chars().any(|c| c.is_ascii_digit());
        assert_eq!(match_pattern(text, "\\d"), Ok(expected));
    }
    assert_eq!(match_pattern("٣", "\\d"), Ok(false));
}

#[test]
fn test_word_matches_texts_with_a_word_character() {
    for text in TEXTS {
        let expected = text.chars().any(|c| c.is_ascii_alphanumeric() || c == '_');
        assert_eq!(match_pattern(text, "\\w"), Ok(expected));
    }
    assert_eq!(match_pattern("é", "\\w"), Ok(false));
}

#[test]
fn test_class_matches_texts_with_a_member() {
    for text in TEXTS {
        let expected = text.chars().any(|c| "abc".contains(c));
        assert_eq!(match_pattern(text, "[abc]"), Ok(expected));
    }
    for text in TEXTS {
        assert_eq!(match_pattern(text, "[]"), Ok(false));
    }
}

#[test]
fn test_negated_class_matches_texts_with_another_character() {
    for text in TEXTS {
        let expected = text.chars().any(|c| !"abc".contains(c));
        assert_eq!(match_pattern(text, "[^abc]"), Ok(expected));
    }
    for text in TEXTS {
        assert_eq!(match_pattern(text, "[^]"), Ok(!text.is_empty()));
    }
}

#[test]
fn test_backreference_needs_the_same_number_and_word() {
    let pattern = "(\\d+) (\\w+) squares and \\1 \\2 circles";
    assert_eq!(match_pattern("3 red squares and 3 red circles", pattern), Ok(true));
    assert_eq!(match_pattern("3 red squares and 4 red circles", pattern), Ok(false));
    assert_eq!(match_pattern("3 red squares and 3 blue circles", pattern), Ok(false));
    assert_eq!(match_pattern("12 red squares and 12 red circles", pattern), Ok(true));
    assert_eq!(match_pattern("12 red squares and 1 red circles", pattern), Ok(false));
}

const RUNS: [&str; 7] = ["", "a", "ab", "abc", "lo w", "apple", "ø"];

#[test]
fn test_literal_run_matches_texts_that_contain_it() {
    for run in RUNS {
        for text in TEXTS {
            assert_eq!(match_pattern(text, run), Ok(text.contains(run)));
        }
    }
}

#[test]
fn test_start_anchor_matches_texts_that_begin_with_the_run() {
    for run in RUNS {
        let pattern = format!("^{}", run);
        for text in TEXTS {
            assert_eq!(match_pattern(text, &pattern), Ok(text.starts_with(run)));
        }
    }
}

#[test]
fn test_end_anchor_matches_texts_that_end_with_the_run() {
    for run in RUNS {
        let pattern = format!("{}$", run);
        for text in TEXTS {
            assert_eq!(match_pattern(text, &pattern), Ok(text.ends_with(run)));
        }
    }
}

#[test]
fn test_both_anchors_match_the_whole_text() {
    for run in RUNS {
        let pattern = format!("^{}$", run);
        for text in TEXTS {
            assert_eq!(match_pattern(text, &pattern), Ok(text == run));
        }
        assert_eq!(match_pattern(run, &pattern), Ok(true));
    }
}
