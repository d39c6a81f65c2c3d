//! The backtracking matcher: evaluates a pattern tree against a text.

use crate::capture_ids::ids_in;
use crate::completeness::{
    theorem_match_is_found_when_there_is_one, theorem_pattern_matches_when_some_offset_has_a_way,
};
use crate::matchable::{
    evaluable, lemma_evaluable_is_matchable, lemma_match_here_extends_bindings,
    lemma_matchable_bound, lemma_matchable_once, lemma_matchable_option, lemma_matchable_shorter,
    lemma_matchable_tail, lemma_unsupported_member, matchable,
};
use crate::patterns::{is_any_of, is_digit, is_word};
use crate::semantics::{
    body_of, has_way_to_match, is_way_to_match, is_single_char, lemma_match_here_consumes_prefix, lemma_match_star_consumes_prefix,
    lemma_weight_of_concat, lemma_weight_of_expansion, lemma_weight_of_head, lemma_weight_of_option,
    lemma_weight_of_single, lemma_weight_positive, spec_after, spec_is_match, spec_match_here,
    spec_match_options, spec_match_pattern, spec_match_question_mark, spec_match_star,
    spec_match_tree, supported, supported_pattern, weight, weight_of,
};
use crate::syntax::{
    clone_pattern, lemma_view_capture_group, nodes, parse_pattern, Node, PatternError, Syntax,
};
use crate::tokens::tokenize_pattern;
use std::collections::HashMap;
use vstd::prelude::*;
use vstd::slice::slice_subrange;

verus! {

/// The text that a pattern, or a part of one, has consumed.
#[derive(Debug)]
pub struct Match {
    pub text: Vec<char>,
}

impl View for Match {
    type V = Seq<char>;

    open spec fn view(&self) -> Seq<char> {
        self.text@
    }
}

impl Clone for Match {
    fn clone(&self) -> (res: Self)
        ensures
            res@ == self@,
    {
        let mut text: Vec<char> = Vec::new();
        let mut i: usize = 0;
        while i < self.text.len()
            invariant
                i <= self.text.len(),
                text@ == self.text@.take(i as int),
            decreases self.text.len() - i,
        {
            text.push(self.text[i]);
            assert(self.text@.take(i + 1) =~= self.text@.take(i as int).push(self.text@[i as int]));
            i += 1;
        }
        assert(text@ =~= self.text@);
        Match { text }
    }
}

impl Match {
    /// Creates a match for the empty string.
    pub fn empty() -> (res: Match)
        ensures
            res@ == Seq::<char>::empty(),
    {
        Match { text: Vec::new() }
    }

    /// Creates a Match from a single char that matched a single syntax item.
    pub fn from_char(text: char) -> (res: Match)
        ensures
            res@ == seq![text],
    {
        let mut chars: Vec<char> = Vec::new();
        chars.push(text);
        assert(chars@ =~= seq![text]);
        Match { text: chars }
    }

    /// Creates a Match that holds the characters of `text`.
    pub fn from_str(text: &str) -> (res: Match)
        ensures
            res@ == text@,
    {
        let n: usize = text.unicode_len();
        let mut chars: Vec<char> = Vec::new();
        let mut i: usize = 0;
        while i < n
            invariant
                n == text@.len(),
                i <= n,
                chars@ == text@.take(i as int),
            decreases n - i,
        {
            chars.push(text.get_char(i));
            assert(text@.take(i + 1) =~= text@.take(i as int).push(text@[i as int]));
            i += 1;
        }
        assert(chars@ =~= text@);
        Match { text: chars }
    }

    /// Merges two Matches, creating a new instance.
    pub fn merge(head: Match, tail: Match) -> (res: Match)
        ensures
            res@ == head@ + tail@,
    {
        let mut merged = head;
        merged.merge_with(tail);
        merged
    }

    /// Merges this Match instance with another one, mutating this instance.
    pub fn merge_with(&mut self, other: Match)
        ensures
            final(self)@ == old(self)@ + other@,
    {
        let mut other = other;
        self.text.append(&mut other.text);
    }
}

/// Matches one character against a node that stands for one character.
pub fn is_match(char: char, pattern: &Syntax) -> (res: Option<Match>)
    requires
        is_single_char(pattern@),
    ensures
        match res {
            Some(m) => spec_is_match(char, pattern@) && m@ == seq![char],
            None => !spec_is_match(char, pattern@),
        },
{
    let is_match = match pattern {
        Syntax::Wildcard => true,
        Syntax::Literal { char: c } => *c == char,
        Syntax::Digit => is_digit(char),
        Syntax::Word => is_word(char),
        Syntax::CharacterClass { chars: cs, is_negated: true } => !is_any_of(cs.as_slice(), char),
        Syntax::CharacterClass { chars: cs, is_negated: false } => is_any_of(cs.as_slice(), char),
        _ => false,
    };

    if is_match {
        Some(Match::from_char(char))
    } else {
        None
    }
}

/// The texts that the capture groups are bound to.
pub open spec fn bindings(cgroups: Map<u32, Match>) -> Map<u32, Seq<char>> {
    cgroups.map_values(|m: Match| m@)
}

/// How the outcome of a matching function relates to what the pattern
/// gives: on a match, the text consumed and the bindings are those of the
/// match; where nothing matches, the bindings are as they were.
pub open spec fn is_outcome(
    expected: Option<(Seq<char>, Map<u32, Seq<char>>)>,
    res: Option<Match>,
    before: Map<u32, Match>,
    after: Map<u32, Match>,
) -> bool {
    match expected {
        Some((consumed, bound)) => res is Some && res->0@ == consumed && bindings(after) == bound,
        None => res is None && after == before,
    }
}

/// Tells whether `text` begins with the characters `prefix`.
pub fn starts_with(text: &str, prefix: &Vec<char>) -> (res: bool)
    ensures
        res == prefix@.is_prefix_of(text@),
{
    let n: usize = text.unicode_len();
    if prefix.len() > n {
        return false;
    }
    let mut i: usize = 0;
    while i < prefix.len()
        invariant
            i <= prefix.len() <= n,
            n == text@.len(),
            forall|j: int| 0 <= j < i ==> prefix@[j] == text@[j],
        decreases prefix.len() - i,
    {
        if prefix[i] != text.get_char(i) {
            assert(prefix@[i as int] != text@.subrange(0, prefix@.len() as int)[i as int]);
            return false;
        }
        i += 1;
    }
    assert(prefix@ =~= text@.subrange(0, prefix@.len() as int));
    true
}

/// Continues a one-or-more node after its first occurrence: tries the
/// remainder of the pattern, and consumes one more occurrence of `syntax`
/// each time the remainder fails.
pub fn match_star(
    text: &str,
    syntax: &Syntax,
    remainder: &[Syntax],
    cgroups: &mut HashMap<u32, Match>,
) -> (res: Option<Match>)
    requires
        is_single_char(syntax@),
        matchable(text@, nodes(remainder@), bindings(old(cgroups)@)),
    ensures
        is_outcome(
            spec_match_star(text@, syntax@, nodes(remainder@), bindings(old(cgroups)@)),
            res,
            old(cgroups)@,
            final(cgroups)@,
        ),
        res is None ==> final(cgroups)@ == old(cgroups)@,
        res matches Some(m) ==> m@.is_prefix_of(text@),
    decreases weight_of(nodes(remainder@)), 1nat, text@.len(),
{
    let mut match_head = Match::empty();
    let mut text_remainder = text;
    loop
        invariant
            is_single_char(syntax@),
            cgroups@ == old(cgroups)@,
            text_remainder@.len() <= text@.len(),
            matchable(text_remainder@, nodes(remainder@), bindings(cgroups@)),
            spec_match_star(text@, syntax@, nodes(remainder@), bindings(cgroups@)) == spec_after(
                match_head@,
                spec_match_star(text_remainder@, syntax@, nodes(remainder@), bindings(cgroups@)),
            ),
        decreases text_remainder@.len(),
    {
        let ghost head = match_head@;
        let ghost bound = bindings(cgroups@);
        if let Some(match_tail) = match_here(text_remainder, remainder, cgroups) {
            match_head.merge_with(match_tail);
            proof {
                lemma_match_star_consumes_prefix(text@, syntax@, nodes(remainder@), bound);
            }
            return Some(match_head);
        }
        let n: usize = text_remainder.unicode_len();
        if n == 0 {
            return None;
        }
        let c = text_remainder.get_char(0);
        let match_char = match is_match(c, syntax) {
            Some(match_char) => match_char,
            None => {
                return None;
            },
        };
        match_head.merge_with(match_char);
        let ghost before = text_remainder@;
        text_remainder = text_remainder.substring_char(1, n);
        proof {
            lemma_matchable_shorter(before, nodes(remainder@), bound, text_remainder@);
            let further = spec_match_star(text_remainder@, syntax@, nodes(remainder@), bound);
            if let Some((consumed, after)) = further {
                assert(head + (seq![c] + consumed) =~= (head + seq![c]) + consumed);
            }
        }
    }
}

/// Matches a zero-or-one node that stands before `pattern`: with one
/// occurrence of `syntax` first, and without it where that fails.
pub fn match_question_mark(
    text: &str,
    syntax: &Syntax,
    pattern: &[Syntax],
    cgroups: &mut HashMap<u32, Match>,
) -> (res: Option<Match>)
    requires
        matchable(text@, seq![syntax@] + nodes(pattern@), bindings(old(cgroups)@)),
    ensures
        is_outcome(
            spec_match_question_mark(text@, syntax@, nodes(pattern@), bindings(old(cgroups)@)),
            res,
            old(cgroups)@,
            final(cgroups)@,
        ),
        res is None ==> final(cgroups)@ == old(cgroups)@,
        res matches Some(m) ==> m@.is_prefix_of(text@),
    decreases weight(syntax@) + weight_of(nodes(pattern@)), 1nat, 0nat,
{
    let mut pattern_once: Vec<Syntax> = Vec::new();
    pattern_once.push(syntax.clone());
    let mut tail = clone_pattern(pattern);
    pattern_once.append(&mut tail);
    proof {
        assert(nodes(pattern_once@) =~= seq![syntax@] + nodes(pattern@));
        lemma_weight_of_concat(seq![syntax@], nodes(pattern@));
        lemma_weight_of_single(syntax@);
        lemma_weight_positive(syntax@);
        lemma_matchable_tail(text@, nodes(pattern_once@), bindings(cgroups@), text@);
        assert(nodes(pattern_once@).skip(1) =~= nodes(pattern@));
    }

    if let Some(match_once) = match_here(text, pattern_once.as_slice(), cgroups) {
        return Some(match_once);
    } else {
        return match_here(text, pattern, cgroups);
    }
}

/// Matches `pattern` at the start of `text`. On a match, returns the text
/// that was consumed and leaves in `cgroups` the capture groups that were
/// bound on the way; otherwise leaves `cgroups` as it was.
pub fn match_here(text: &str, pattern: &[Syntax], cgroups: &mut HashMap<u32, Match>) -> (res:
    Option<Match>)
    requires
        matchable(text@, nodes(pattern@), bindings(old(cgroups)@)),
    ensures
        is_outcome(
            spec_match_here(text@, nodes(pattern@), bindings(old(cgroups)@)),
            res,
            old(cgroups)@,
            final(cgroups)@,
        ),
        res is None ==> final(cgroups)@ == old(cgroups)@,
        res matches Some(m) ==> m@.is_prefix_of(text@),
        res is Some ==> bindings(old(cgroups)@).submap_of(bindings(final(cgroups)@)),
        res is Some ==> bindings(final(cgroups)@).dom().subset_of(
            bindings(old(cgroups)@).dom() + ids_in(nodes(pattern@)),
        ),
        res matches Some(m) ==> is_way_to_match(
            text@,
            nodes(pattern@),
            bindings(old(cgroups)@),
            m@,
            bindings(final(cgroups)@),
        ),
        res is None ==> forall|consumed: Seq<char>, after: Map<u32, Seq<char>>|
            !#[trigger] is_way_to_match(
                text@,
                nodes(pattern@),
                bindings(old(cgroups)@),
                consumed,
                after,
            ),
    decreases weight_of(nodes(pattern@)), 0nat, 0nat,
{
    broadcast use vstd::std_specs::hash::group_hash_axioms;

    proof {
        lemma_match_here_consumes_prefix(text@, nodes(pattern@), bindings(cgroups@));
        lemma_match_here_extends_bindings(text@, nodes(pattern@), bindings(cgroups@));
        theorem_match_is_found_when_there_is_one(text@, nodes(pattern@), bindings(cgroups@));
    }

    if pattern.len() == 0 {
        // The entire pattern matched, return success.
        return Some(Match::empty());
    }
    let syntax = &pattern[0];
    let pattern_remainder = slice_subrange(pattern, 1, pattern.len());
    let n: usize = text.unicode_len();
    let ghost tree = nodes(pattern@);
    let ghost bound = bindings(cgroups@);
    proof {
        assert(nodes(pattern_remainder@) =~= tree.skip(1));
        assert(tree[0] == syntax@);
        lemma_weight_of_head(tree);
    }

    match syntax {
        Syntax::OneOrMore { syntax: s } => {
            if n == 0 {
                return None;
            }
            let c = text.get_char(0);
            let match_head = match is_match(c, s) {
                Some(match_head) => match_head,
                None => {
                    return None;
                },
            };
            let rest_of_text = text.substring_char(1, n);
            proof {
                lemma_matchable_tail(text@, tree, bound, rest_of_text@);
            }
            match match_star(rest_of_text, s, pattern_remainder, cgroups) {
                Some(match_tail) => Some(Match::merge(match_head, match_tail)),
                None => None,
            }
        },
        Syntax::ZeroOrOne { syntax: s } => {
            proof {
                lemma_matchable_once(text@, tree, bound);
            }
            match_question_mark(text, s, pattern_remainder, cgroups)
        },
        Syntax::CaptureGroup { options: os, id } => {
            proof {
                lemma_view_capture_group(*syntax);
            }
            let ghost choices = tree[0]->options;
            let mut index: usize = 0;
            while index < os.len()
                invariant
                    index <= os.len(),
                    cgroups@ == old(cgroups)@,
                    bound == bindings(cgroups@),
                    tree == nodes(pattern@),
                    tree.len() > 0,
                    tree[0] == (Node::CaptureGroup { options: choices, id: *id }),
                    choices.len() == os@.len(),
                    forall|i: int| 0 <= i < os@.len() ==> choices[i] == nodes(#[trigger] os@[i]@),
                    n == text@.len(),
                    nodes(pattern_remainder@) == tree.skip(1),
                    weight_of(tree) == weight(tree[0]) + weight_of(tree.skip(1)),
                    matchable(text@, tree, bound),
                    spec_match_here(text@, tree, bound) == spec_match_options(
                        text@,
                        choices,
                        *id,
                        tree.skip(1),
                        bound,
                        index as nat,
                    ),
                decreases os.len() - index,
            {
                let option = &os[index];
                let end = Syntax::CaptureGroupEnd { text: text.to_owned(), id: *id };
                let ghost marker = end@;
                let mut pattern_total = clone_pattern(option.as_slice());
                pattern_total.push(end);
                let mut tail = clone_pattern(pattern_remainder);
                pattern_total.append(&mut tail);
                proof {
                    assert(marker == (Node::CaptureGroupEnd { text: text@, id: *id }));
                    assert(nodes(pattern_total@) =~= choices[index as int] + seq![marker]
                        + tree.skip(1));
                    lemma_matchable_option(text@, tree, bound, index as int);
                    lemma_weight_of_expansion(choices[index as int], marker, tree.skip(1));
                    lemma_weight_of_option(choices, choices.len(), index as int);
                }
                if let Some(match_total) = match_here(text, pattern_total.as_slice(), cgroups) {
                    proof {
                        lemma_match_here_consumes_prefix(text@, tree, bound);
                        lemma_match_here_extends_bindings(text@, tree, bound);
                        theorem_match_is_found_when_there_is_one(text@, tree, bound);
                    }
                    return Some(match_total);
                }
                index += 1;
            }
            None
        },
        Syntax::CaptureGroupEnd { text: text_at_start, id } => {
            proof {
                lemma_matchable_bound(
                    text@,
                    tree,
                    bound,
                    text_at_start@.take(text_at_start@.len() - text@.len()),
                );
            }
            let start = text_at_start.as_str();
            let match_len = start.unicode_len() - n;
            let match_group = Match::from_str(start.substring_char(0, match_len));
            let ghost captured = match_group@;
            let ghost before = cgroups@;
            cgroups.insert(*id, match_group);
            proof {
                assert(bindings(cgroups@) =~= bound.insert(*id, captured));
            }
            if let Some(match_remainder) = match_here(text, pattern_remainder, cgroups) {
                return Some(match_remainder);
            } else {
                // The remainder does not match: the capture group result
                // has to be discarded again.
                cgroups.remove(id);
                assert(cgroups@ =~= before);
                return None;
            }
        },
        Syntax::BackReference { id } => {
            let match_ref = match cgroups.get(id) {
                Some(match_group) => match_group.clone(),
                None => {
                    assert(!bound.contains_key(*id));
                    return None;
                },
            };
            assert(bound.contains_key(*id) && bound[*id] == match_ref@);
            if starts_with(text, &match_ref.text) {
                let rest_of_text = text.substring_char(match_ref.text.len(), n);
                proof {
                    lemma_matchable_tail(text@, tree, bound, rest_of_text@);
                }
                match match_here(rest_of_text, pattern_remainder, cgroups) {
                    Some(match_remainder) => Some(Match::merge(match_ref, match_remainder)),
                    None => None,
                }
            } else {
                return None;
            }
        },
        Syntax::EndOfLineAnchor => {
            if pattern.len() == 1 && n == 0 {
                Some(Match::empty())
            } else {
                None
            }
        },
        _ => {
            if n == 0 {
                return None;
            }
            let c = text.get_char(0);
            let match_char = match is_match(c, syntax) {
                Some(match_char) => match_char,
                None => {
                    return None;
                },
            };
            let rest_of_text = text.substring_char(1, n);
            proof {
                lemma_matchable_tail(text@, tree, bound, rest_of_text@);
            }
            match match_here(rest_of_text, pattern_remainder, cgroups) {
                Some(match_remainder) => Some(Match::merge(match_char, match_remainder)),
                None => None,
            }
        },
    }
}

/// Tells whether a node matches exactly one character.
pub fn is_single_char_node(syntax: &Syntax) -> (res: bool)
    ensures
        res == is_single_char(syntax@),
{
    match syntax {
        Syntax::Literal { .. } => true,
        Syntax::Digit => true,
        Syntax::Word => true,
        Syntax::Wildcard => true,
        Syntax::CharacterClass { .. } => true,
        _ => false,
    }
}

/// Tells whether the matcher evaluates a node that stands inside a
/// pattern.
pub fn is_supported_node(syntax: &Syntax) -> (res: bool)
    ensures
        res == supported(syntax@),
    decreases syntax,
{
    broadcast use vstd::std_specs::vec::axiom_vec_index_decreases;

    match syntax {
        Syntax::OneOrMore { syntax: s } => is_single_char_node(s),
        Syntax::ZeroOrOne { syntax: s } => is_supported_node(s),
        Syntax::CaptureGroup { options, id } => {
            proof {
                lemma_view_capture_group(*syntax);
            }
            let ghost choices = syntax@->options;
            let mut i: usize = 0;
            while i < options.len()
                invariant
                    i <= options.len(),
                    syntax == (Syntax::CaptureGroup { options: *options, id: *id }),
                    syntax@ == (Node::CaptureGroup { options: choices, id: *id }),
                    choices.len() == options@.len(),
                    forall|a: int|
                        0 <= a < options@.len() ==> choices[a] == nodes(#[trigger] options@[a]@),
                    forall|a: int, b: int|
                        0 <= a < i && 0 <= b < choices[a].len() ==> supported(
                            #[trigger] choices[a][b],
                        ),
                decreases options.len() - i,
            {
                let option = &options[i];
                let mut j: usize = 0;
                while j < option.len()
                    invariant
                        j <= option.len(),
                        i < options.len(),
                        option == options@[i as int],
                        syntax == (Syntax::CaptureGroup { options: *options, id: *id }),
                        syntax@ == (Node::CaptureGroup { options: choices, id: *id }),
                    choices.len() == options@.len(),
                        choices[i as int] == nodes(option@),
                        forall|b: int| 0 <= b < j ==> supported(#[trigger] choices[i as int][b]),
                    decreases option.len() - j,
                {
                    assert(decreases_to!(*syntax => syntax->options));
                    assert(decreases_to!(syntax->options => options[i as int]));
                    assert(decreases_to!(option => option[j as int]));
                    if !is_supported_node(&option[j]) {
                        assert(choices[i as int][j as int] == option@[j as int]@);
                        assert(0 <= i < choices.len() && 0 <= j < choices[i as int].len());
                        proof {
                            lemma_unsupported_member(choices, *id, i as int, j as int);
                        }
                        return false;
                    }
                    j += 1;
                }
                i += 1;
            }
            true
        },
        Syntax::CaptureGroupEnd { .. } => false,
        Syntax::StartOfLineAnchor => false,
        _ => true,
    }
}

/// Tells whether the matcher evaluates every node of a pattern.
pub fn is_supported(pattern: &[Syntax]) -> (res: bool)
    ensures
        res == supported_pattern(nodes(pattern@)),
{
    let mut i: usize = 0;
    while i < pattern.len()
        invariant
            i <= pattern.len(),
            forall|j: int| 0 <= j < i ==> supported(#[trigger] nodes(pattern@)[j]),
        decreases pattern.len() - i,
    {
        if !is_supported_node(&pattern[i]) {
            assert(!supported(nodes(pattern@)[i as int]));
            return false;
        }
        i += 1;
    }
    true
}

/// Tells whether a pattern tree matches somewhere in `input_line`.
pub fn match_syntax(input_line: &str, syntax: &[Syntax]) -> (res: bool)
    requires
        evaluable(nodes(syntax@)),
    ensures
        res == spec_match_tree(input_line@, nodes(syntax@)),
        res == has_way_to_match(input_line@, nodes(syntax@)),
{
    proof {
        theorem_pattern_matches_when_some_offset_has_a_way(input_line@, nodes(syntax@));
    }
    let ghost tree = nodes(syntax@);
    let ghost none = Map::<u32, Seq<char>>::empty();
    let n: usize = input_line.unicode_len();
    let mut capture_groups: HashMap<u32, Match> = HashMap::new();
    assert(bindings(capture_groups@) =~= none);

    if syntax.len() > 0 {
        if let Syntax::StartOfLineAnchor = &syntax[0] {
            let body = slice_subrange(syntax, 1, syntax.len());
            proof {
                assert(tree[0] == syntax@[0]@);
                assert(nodes(body@) =~= tree.skip(1));
                lemma_evaluable_is_matchable(input_line@, tree);
            }
            return match match_here(input_line, body, &mut capture_groups) {
                Some(_) => true,
                None => false,
            };
        }
        assert(tree[0] == syntax@[0]@);
    }
    let mut start_index: usize = 0;
    while start_index <= n
        invariant
            n == input_line@.len(),
            start_index <= n + 1,
            tree == nodes(syntax@),
            body_of(tree) == tree,
            evaluable(tree),
            none == Map::<u32, Seq<char>>::empty(),
            capture_groups@ == Map::<u32, Match>::empty(),
            bindings(capture_groups@) == none,
            forall|offset: int|
                0 <= offset < start_index ==> #[trigger] spec_match_here(
                    input_line@.skip(offset),
                    tree,
                    none,
                ) is None,
        decreases n + 1 - start_index,
    {
        let rest_of_line = input_line.substring_char(start_index, n);
        proof {
            lemma_evaluable_is_matchable(rest_of_line@, tree);
            theorem_pattern_matches_when_some_offset_has_a_way(input_line@, tree);
        }
        if let Some(_) = match_here(rest_of_line, syntax, &mut capture_groups) {
            return true;
        }
        if start_index == n {
            return false;
        }
        start_index += 1;
    }
    false
}

/// Tells whether the pattern written as `pattern` matches somewhere in
/// `input_line`. Fails where `pattern` does not parse, or parses to a
/// tree that the matcher does not evaluate.
pub fn match_pattern(input_line: &str, pattern: &str) -> (res: Result<bool, PatternError>)
    ensures
        res == spec_match_pattern(input_line@, pattern@),
{
    let tokens = tokenize_pattern(pattern);
    let syntax = match parse_pattern(tokens.as_slice()) {
        Ok(syntax) => syntax,
        Err(e) => {
            return Err(e);
        },
    };
    let ghost tree = nodes(syntax@);
    let supported = if syntax.len() > 0 {
        assert(tree[0] == syntax@[0]@);
        if let Syntax::StartOfLineAnchor = &syntax[0] {
            let body = slice_subrange(syntax.as_slice(), 1, syntax.len());
            assert(nodes(body@) =~= tree.skip(1));
            is_supported(body)
        } else {
            is_supported(syntax.as_slice())
        }
    } else {
        is_supported(syntax.as_slice())
    };
    if !supported {
        return Err(PatternError::Unsupported);
    }
    Ok(match_syntax(input_line, syntax.as_slice()))
}

} // verus!
