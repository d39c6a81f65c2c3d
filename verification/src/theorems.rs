//! What holds of the matcher on whole families of patterns and texts.

use crate::semantics::{
    is_single_char, spec_after, spec_is_match, spec_match_here, spec_match_pattern, spec_match_tree,
    supported, supported_pattern,
};
use crate::completeness::theorem_pattern_matches_when_some_offset_has_a_way;
use crate::patterns::{spec_is_digit, spec_is_word};
use crate::syntax::{
    is_parse_of, nodes, spec_class_chars, spec_find_closing_bracket, spec_is_closing_bracket,
    spec_parse, spec_parse_items, spec_scan_brackets, BracketKind, Node, PatternError, Syntax,
};
use crate::tokens::{spec_token_of, spec_tokenize, Token};
use vstd::prelude::*;

verus! {

/// A pattern of one single-character node matches at the start of a text
/// exactly when the text has a first character and the node matches it;
/// it then consumes that character and binds nothing.
pub proof fn lemma_single_char_here(
    text: Seq<char>,
    node: Node,
    bindings: Map<u32, Seq<char>>,
)
    requires
        is_single_char(node),
    ensures
        spec_match_here(text, seq![node], bindings) == if text.len() > 0 && spec_is_match(
            text[0],
            node,
        ) {
            Some((seq![text[0]], bindings))
        } else {
            None
        },
{
    let pattern = seq![node];
    assert(pattern[0] == node);
    assert(pattern.skip(1) =~= Seq::<Node>::empty());
    assert(spec_match_here(text.skip(1), pattern.skip(1), bindings) == Some(
        (Seq::<char>::empty(), bindings),
    ));
    assert(seq![text[0]] + Seq::<char>::empty() =~= seq![text[0]]);
}

/// A pattern of one single-character node matches somewhere in a text
/// exactly when the node matches some character of the text.
pub proof fn lemma_single_char_somewhere(text: Seq<char>, node: Node)
    requires
        is_single_char(node),
    ensures
        spec_match_tree(text, seq![node]) == exists|i: int|
            0 <= i < text.len() && spec_is_match(#[trigger] text[i], node),
        supported_pattern(seq![node]),
{
    let pattern = seq![node];
    let none = Map::<u32, Seq<char>>::empty();
    assert(pattern[0] == node);
    assert forall|offset: int| 0 <= offset <= text.len() implies (#[trigger] spec_match_here(
        text.skip(offset),
        pattern,
        none,
    ) is Some) == (offset < text.len() && spec_is_match(text[offset], node)) by {
        lemma_single_char_here(text.skip(offset), node, none);
        if offset < text.len() {
            assert(text.skip(offset)[0] == text[offset]);
        }
    }
    if spec_match_tree(text, pattern) {
        let offset = choose|offset: int|
            0 <= offset <= text.len() && #[trigger] spec_match_here(
                text.skip(offset),
                pattern,
                none,
            ) is Some;
        assert(spec_is_match(text[offset], node));
    }
    if exists|i: int| 0 <= i < text.len() && spec_is_match(#[trigger] text[i], node) {
        let i = choose|i: int| 0 <= i < text.len() && spec_is_match(#[trigger] text[i], node);
        assert(spec_match_here(text.skip(i), pattern, none) is Some);
    }
}

/// A pattern that is one character outside the special set
/// `\ ( ) [ ] ^ $ + ? . |` matches exactly the texts that contain that
/// character.
pub proof fn theorem_literal_matches_texts_with_it(text: Seq<char>, c: char)
    requires
        spec_token_of(c) == Token::Literal(c),
    ensures
        spec_match_pattern(text, seq![c]) == Ok::<bool, PatternError>(text.contains(c)),
{
    let tokens = spec_tokenize(seq![c]);
    let node = Node::Literal { char: c };
    assert(tokens =~= seq![Token::Literal(c)]);
    assert(tokens.skip(1) =~= Seq::<Token>::empty());
    assert(Seq::<Node>::empty().push(node) =~= seq![node]);
    assert(spec_parse_items(tokens.skip(1), seq![node], 0) == Ok::<(Seq<Node>, u32), PatternError>(
        (seq![node], 0u32),
    ));
    assert(spec_parse(tokens) == Ok::<Seq<Node>, PatternError>(seq![node]));
    theorem_pattern_matches_when_some_offset_has_a_way(text, seq![node]);
    lemma_single_char_somewhere(text, node);
    assert(seq![node][0] == node);
    if text.contains(c) {
        let i = choose|i: int| 0 <= i < text.len() && text[i] == c;
        assert(spec_is_match(text[i], node));
    }
}

/// The pattern `\d` matches exactly the texts that hold an ASCII digit.
pub proof fn theorem_digit_matches_texts_with_a_digit(text: Seq<char>)
    ensures
        spec_match_pattern(text, seq!['\\', 'd']) == Ok::<bool, PatternError>(
            exists|i: int| 0 <= i < text.len() && spec_is_digit(#[trigger] text[i]),
        ),
{
    let tokens = spec_tokenize(seq!['\\', 'd']);
    let node = Node::Digit;
    assert(tokens =~= seq![Token::Backslash, Token::Literal('d')]);
    assert(tokens.skip(2) =~= Seq::<Token>::empty());
    assert(Seq::<Node>::empty().push(node) =~= seq![node]);
    assert(spec_parse_items(tokens.skip(2), seq![node], 0) == Ok::<(Seq<Node>, u32), PatternError>(
        (seq![node], 0u32),
    ));
    assert(spec_parse(tokens) == Ok::<Seq<Node>, PatternError>(seq![node]));
    theorem_pattern_matches_when_some_offset_has_a_way(text, seq![node]);
    lemma_single_char_somewhere(text, node);
    assert(seq![node][0] == node);
}

/// The pattern `\w` matches exactly the texts that hold an ASCII letter,
/// an ASCII digit or an underscore.
pub proof fn theorem_word_matches_texts_with_a_word_character(text: Seq<char>)
    ensures
        spec_match_pattern(text, seq!['\\', 'w']) == Ok::<bool, PatternError>(
            exists|i: int| 0 <= i < text.len() && spec_is_word(#[trigger] text[i]),
        ),
{
    let tokens = spec_tokenize(seq!['\\', 'w']);
    let node = Node::Word;
    assert(tokens =~= seq![Token::Backslash, Token::Literal('w')]);
    assert(tokens.skip(2) =~= Seq::<Token>::empty());
    assert(Seq::<Node>::empty().push(node) =~= seq![node]);
    assert(spec_parse_items(tokens.skip(2), seq![node], 0) == Ok::<(Seq<Node>, u32), PatternError>(
        (seq![node], 0u32),
    ));
    assert(spec_parse(tokens) == Ok::<Seq<Node>, PatternError>(seq![node]));
    theorem_pattern_matches_when_some_offset_has_a_way(text, seq![node]);
    lemma_single_char_somewhere(text, node);
    assert(seq![node][0] == node);
}

/// The characters outside the special set `\ ( ) [ ] ^ $ + ? . |`.
pub open spec fn all_literal(chars: Seq<char>) -> bool {
    forall|i: int| 0 <= i < chars.len() ==> spec_token_of(#[trigger] chars[i]) == Token::Literal(
        chars[i],
    )
}

/// The search for a closing bracket passes over literals.
pub proof fn lemma_scan_over_literals(
    pattern: Seq<Token>,
    kind: BracketKind,
    index: int,
    end: int,
)
    requires
        0 <= index <= end < pattern.len(),
        forall|k: int| index <= k < end ==> (#[trigger] pattern[k]) is Literal,
        spec_is_closing_bracket(pattern[end]) == Some(kind),
    ensures
        spec_scan_brackets(pattern, kind, index, Seq::empty()) == Some(end),
    decreases end - index,
{
    if index < end {
        assert(pattern[index] is Literal);
        lemma_scan_over_literals(pattern, kind, index + 1, end);
    }
}

/// The tree of a character class written with the characters `chars`,
/// after `opening`, which is `[` or `[^`.
proof fn lemma_parse_character_class(chars: Seq<char>, is_negated: bool)
    requires
        all_literal(chars),
    ensures
        spec_parse(
            spec_tokenize(
                (if is_negated {
                    seq!['[', '^']
                } else {
                    seq!['[']
                }) + chars + seq![']'],
            ),
        ) == Ok::<Seq<Node>, PatternError>(seq![Node::CharacterClass { chars, is_negated }]),
{
    let opening = if is_negated {
        seq!['[', '^']
    } else {
        seq!['[']
    };
    let pattern = opening + chars + seq![']'];
    let tokens = spec_tokenize(pattern);
    let first = opening.len() as int;
    let end = first + chars.len();
    let node = Node::CharacterClass { chars, is_negated };
    assert(tokens.len() == end + 1);
    assert(tokens[0] == Token::OpenSquareBracket);
    assert(tokens[end] == Token::CloseSquareBracket);
    assert forall|k: int| first <= k < end implies (#[trigger] tokens[k]) == Token::Literal(
        chars[k - first],
    ) by {
        assert(pattern[k] == chars[k - first]);
    }
    if is_negated {
        assert(tokens[1] == Token::Caret);
        lemma_scan_over_literals(tokens, BracketKind::SquareBracket, 2, end);
        assert(spec_scan_brackets(tokens, BracketKind::SquareBracket, 1, Seq::empty())
            == spec_scan_brackets(tokens, BracketKind::SquareBracket, 2, Seq::empty()));
    } else {
        lemma_scan_over_literals(tokens, BracketKind::SquareBracket, 1, end);
    }
    assert(spec_find_closing_bracket(tokens) == Some(end));
    let class = tokens.subrange(1, end);
    let members = if is_negated {
        class.skip(1)
    } else {
        class
    };
    assert((class.len() > 0 && class[0] == Token::Caret) == is_negated) by {
        if !is_negated && class.len() > 0 {
            assert(class[0] == tokens[1]);
        }
    }
    assert(members.len() == chars.len());
    assert forall|i: int| 0 <= i < members.len() implies (#[trigger] members[i])
        == Token::Literal(chars[i]) by {
        assert(members[i] == tokens[first + i]);
    }
    assert(spec_class_chars(members)->0 =~= chars);
    assert(tokens.skip(end + 1) =~= Seq::<Token>::empty());
    assert(Seq::<Node>::empty().push(node) =~= seq![node]);
    assert(spec_parse_items(tokens.skip(end + 1), seq![node], 0) == Ok::<
        (Seq<Node>, u32),
        PatternError,
    >((seq![node], 0u32)));
}

/// A character class of characters outside the special set matches
/// exactly the texts that hold one of its characters.
pub proof fn theorem_class_matches_texts_with_a_member(text: Seq<char>, chars: Seq<char>)
    requires
        all_literal(chars),
    ensures
        spec_match_pattern(text, seq!['['] + chars + seq![']']) == Ok::<bool, PatternError>(
            exists|i: int| 0 <= i < text.len() && chars.contains(#[trigger] text[i]),
        ),
{
    let node = Node::CharacterClass { chars, is_negated: false };
    lemma_parse_character_class(chars, false);
    theorem_pattern_matches_when_some_offset_has_a_way(text, seq![node]);
    lemma_single_char_somewhere(text, node);
    assert(seq![node][0] == node);
}

/// A negated character class of characters outside the special set
/// matches exactly the texts that hold a character that is none of its
/// characters.
pub proof fn theorem_negated_class_matches_texts_with_another(text: Seq<char>, chars: Seq<char>)
    requires
        all_literal(chars),
    ensures
        spec_match_pattern(text, seq!['[', '^'] + chars + seq![']']) == Ok::<bool, PatternError>(
            exists|i: int| 0 <= i < text.len() && !chars.contains(#[trigger] text[i]),
        ),
{
    let node = Node::CharacterClass { chars, is_negated: true };
    lemma_parse_character_class(chars, true);
    theorem_pattern_matches_when_some_offset_has_a_way(text, seq![node]);
    lemma_single_char_somewhere(text, node);
    assert(seq![node][0] == node);
}

/// The node that stands for one ordinary character.
pub open spec fn literal_node(c: char) -> Node {
    Node::Literal { char: c }
}

/// The nodes that stand for a run of ordinary characters.
pub open spec fn literal_nodes(chars: Seq<char>) -> Seq<Node> {
    Seq::new(chars.len(), |i: int| literal_node(chars[i]))
}

/// A run of ordinary characters is read as a run of literal nodes.
pub proof fn lemma_parse_literal_items(
    chars: Seq<char>,
    more: Seq<Token>,
    syntax: Seq<Node>,
    id: u32,
)
    requires
        all_literal(chars),
    ensures
        spec_parse_items(spec_tokenize(chars) + more, syntax, id) == spec_parse_items(
            more,
            syntax + literal_nodes(chars),
            id,
        ),
    decreases chars.len(),
{
    let tokens = spec_tokenize(chars) + more;
    if chars.len() == 0 {
        assert(tokens =~= more);
        assert(syntax + literal_nodes(chars) =~= syntax);
    } else {
        let node = literal_node(chars[0]);
        let tail = chars.skip(1);
        assert(tokens[0] == Token::Literal(chars[0]));
        assert(tokens.skip(1) =~= spec_tokenize(tail) + more);
        assert forall|i: int| 0 <= i < tail.len() implies spec_token_of(#[trigger] tail[i])
            == Token::Literal(tail[i]) by {
            assert(tail[i] == chars[i + 1]);
        }
        lemma_parse_literal_items(tail, more, syntax.push(node), id);
        assert(syntax.push(node) + literal_nodes(tail) =~= syntax + literal_nodes(chars));
    }
}

/// A run of literal nodes matches at the start of the texts that begin
/// with its characters, and what follows the run is matched against what
/// follows them.
pub proof fn lemma_literals_here(
    text: Seq<char>,
    chars: Seq<char>,
    rest: Seq<Node>,
    bindings: Map<u32, Seq<char>>,
)
    ensures
        spec_match_here(text, literal_nodes(chars) + rest, bindings) == if chars.is_prefix_of(
            text,
        ) {
            spec_after(chars, spec_match_here(text.skip(chars.len() as int), rest, bindings))
        } else {
            None
        },
    decreases chars.len(),
{
    let pattern = literal_nodes(chars) + rest;
    if chars.len() == 0 {
        assert(pattern =~= rest);
        assert(text.skip(0) =~= text);
        assert(chars =~= text.subrange(0, 0));
        let found = spec_match_here(text, rest, bindings);
        if let Some((consumed, after)) = found {
            assert(chars + consumed =~= consumed);
        }
    } else {
        let tail = chars.skip(1);
        assert(pattern[0] == literal_node(chars[0]));
        assert(pattern.skip(1) =~= literal_nodes(tail) + rest);
        if text.len() > 0 && text[0] == chars[0] {
            lemma_literals_here(text.skip(1), tail, rest, bindings);
            if tail.is_prefix_of(text.skip(1)) {
                assert forall|i: int| 0 <= i < chars.len() implies chars[i] == text[i] by {
                    if i > 0 {
                        assert(tail[i - 1] == text.skip(1).subrange(0, tail.len() as int)[i - 1]);
                    }
                }
                assert(chars =~= text.subrange(0, chars.len() as int));
                assert(text.skip(1).skip(tail.len() as int) =~= text.skip(chars.len() as int));
                let found = spec_match_here(text.skip(chars.len() as int), rest, bindings);
                if let Some((consumed, after)) = found {
                    assert(seq![text[0]] + (tail + consumed) =~= chars + consumed);
                }
            } else {
                if chars.is_prefix_of(text) {
                    assert(tail =~= text.skip(1).subrange(0, tail.len() as int));
                }
            }
        } else {
            if chars.is_prefix_of(text) {
                assert(chars[0] == text.subrange(0, chars.len() as int)[0]);
            }
        }
    }
}

/// Every literal node is one the matcher evaluates.
pub proof fn lemma_literals_supported(chars: Seq<char>)
    ensures
        supported_pattern(literal_nodes(chars)),
        supported_pattern(literal_nodes(chars).push(Node::EndOfLineAnchor)),
{
    let with_end = literal_nodes(chars).push(Node::EndOfLineAnchor);
    assert forall|j: int| 0 <= j < with_end.len() implies supported(#[trigger] with_end[j]) by {
        if j < chars.len() {
            assert(with_end[j] == literal_nodes(chars)[j]);
        }
    }
}

/// A pattern written with characters outside the special set
/// `\ ( ) [ ] ^ $ + ? . |` matches exactly the texts in which these
/// characters occur one after the other.
pub proof fn theorem_literals_match_texts_with_them(text: Seq<char>, chars: Seq<char>)
    requires
        all_literal(chars),
    ensures
        spec_match_pattern(text, chars) == Ok::<bool, PatternError>(
            exists|offset: int|
                0 <= offset <= text.len() && chars.is_prefix_of(#[trigger] text.skip(offset)),
        ),
{
    let tokens = spec_tokenize(chars);
    let tree = literal_nodes(chars);
    let none = Map::<u32, Seq<char>>::empty();
    let no_tokens = Seq::<Token>::empty();
    let no_nodes = Seq::<Node>::empty();
    assert(tokens =~= spec_tokenize(chars) + no_tokens);
    lemma_parse_literal_items(chars, no_tokens, no_nodes, 0);
    assert(no_nodes + tree =~= tree);
    assert(chars.len() > 0 ==> tokens[0] == Token::Literal(chars[0]));
    assert(spec_parse(tokens) == Ok::<Seq<Node>, PatternError>(tree));
    theorem_pattern_matches_when_some_offset_has_a_way(text, tree);
    lemma_literals_supported(chars);
    assert(chars.len() > 0 ==> tree[0] == literal_node(chars[0]));
    assert forall|offset: int| 0 <= offset <= text.len() implies (#[trigger] spec_match_here(
        text.skip(offset),
        tree,
        none,
    ) is Some) == chars.is_prefix_of(text.skip(offset)) by {
        lemma_literals_here(text.skip(offset), chars, no_nodes, none);
        assert(tree + no_nodes =~= tree);
    }
    if spec_match_tree(text, tree) {
        let offset = choose|offset: int|
            0 <= offset <= text.len() && #[trigger] spec_match_here(
                text.skip(offset),
                tree,
                none,
            ) is Some;
        assert(chars.is_prefix_of(text.skip(offset)));
    }
    if exists|offset: int|
        0 <= offset <= text.len() && chars.is_prefix_of(#[trigger] text.skip(offset)) {
        let offset = choose|offset: int|
            0 <= offset <= text.len() && chars.is_prefix_of(#[trigger] text.skip(offset));
        assert(spec_match_here(text.skip(offset), tree, none) is Some);
    }
}

/// A start anchor before ordinary characters matches exactly the texts
/// that begin with them.
pub proof fn theorem_start_anchor_matches_at_the_start(text: Seq<char>, chars: Seq<char>)
    requires
        all_literal(chars),
    ensures
        spec_match_pattern(text, seq!['^'] + chars) == Ok::<bool, PatternError>(
            chars.is_prefix_of(text),
        ),
{
    let tokens = spec_tokenize(seq!['^'] + chars);
    let body = literal_nodes(chars);
    let tree = seq![Node::StartOfLineAnchor] + body;
    let none = Map::<u32, Seq<char>>::empty();
    let no_tokens = Seq::<Token>::empty();
    let no_nodes = Seq::<Node>::empty();
    assert(tokens[0] == Token::Caret);
    assert(tokens.skip(1) =~= spec_tokenize(chars) + no_tokens);
    lemma_parse_literal_items(chars, no_tokens, seq![Node::StartOfLineAnchor], 0);
    assert(spec_parse(tokens) == Ok::<Seq<Node>, PatternError>(tree));
    theorem_pattern_matches_when_some_offset_has_a_way(text, tree);
    assert(tree[0] is StartOfLineAnchor);
    assert(tree.skip(1) =~= body);
    lemma_literals_supported(chars);
    lemma_literals_here(text, chars, no_nodes, none);
    assert(body + no_nodes =~= body);
}

/// Ordinary characters before an end anchor match exactly the texts that
/// end with them.
pub proof fn theorem_end_anchor_matches_at_the_end(text: Seq<char>, chars: Seq<char>)
    requires
        all_literal(chars),
    ensures
        spec_match_pattern(text, chars + seq!['$']) == Ok::<bool, PatternError>(
            chars.is_suffix_of(text),
        ),
{
    let tokens = spec_tokenize(chars + seq!['$']);
    let end = seq![Node::EndOfLineAnchor];
    let tree = literal_nodes(chars) + end;
    let none = Map::<u32, Seq<char>>::empty();
    let no_nodes = Seq::<Node>::empty();
    assert(tokens =~= spec_tokenize(chars) + seq![Token::Dollar]);
    lemma_parse_literal_items(chars, seq![Token::Dollar], no_nodes, 0);
    assert(no_nodes + literal_nodes(chars) =~= literal_nodes(chars));
    assert(seq![Token::Dollar].skip(1) =~= Seq::<Token>::empty());
    assert(literal_nodes(chars).push(Node::EndOfLineAnchor) =~= tree);
    assert(seq![Token::Dollar][0] == Token::Dollar);
    assert(spec_parse_items(Seq::<Token>::empty(), tree, 0) == Ok::<
        (Seq<Node>, u32),
        PatternError,
    >((tree, 0u32)));
    assert(spec_parse_items(seq![Token::Dollar], literal_nodes(chars), 0) == Ok::<
        (Seq<Node>, u32),
        PatternError,
    >((tree, 0u32)));
    assert(tokens[0] != Token::Caret) by {
        if chars.len() > 0 {
            assert(tokens[0] == Token::Literal(chars[0]));
        }
    }
    assert(spec_parse(tokens) == Ok::<Seq<Node>, PatternError>(tree));
    theorem_pattern_matches_when_some_offset_has_a_way(text, tree);
    lemma_literals_supported(chars);
    assert(!(tree[0] is StartOfLineAnchor)) by {
        if chars.len() > 0 {
            assert(tree[0] == literal_node(chars[0]));
        }
    }
    let start = text.len() - chars.len();
    assert forall|offset: int| 0 <= offset <= text.len() implies (#[trigger] spec_match_here(
        text.skip(offset),
        tree,
        none,
    ) is Some) == (offset == start && chars.is_suffix_of(text)) by {
        let left = text.skip(offset);
        lemma_literals_here(left, chars, end, none);
        if chars.is_prefix_of(left) {
            let after = left.skip(chars.len() as int);
            assert(end[0] == Node::EndOfLineAnchor);
            assert((spec_match_here(after, end, none) is Some) == (after.len() == 0));
            if after.len() == 0 {
                assert(offset == start);
                assert(chars =~= text.subrange(start, text.len() as int));
            }
        } else if offset == start && chars.is_suffix_of(text) {
            assert(chars =~= left.subrange(0, chars.len() as int));
        }
    }
    if spec_match_tree(text, tree) {
        let offset = choose|offset: int|
            0 <= offset <= text.len() && #[trigger] spec_match_here(
                text.skip(offset),
                tree,
                none,
            ) is Some;
        assert(chars.is_suffix_of(text));
    }
    if chars.is_suffix_of(text) {
        assert(spec_match_here(text.skip(start), tree, none) is Some);
    }
}

/// Ordinary characters between a start anchor and an end anchor match
/// exactly the text that is these characters.
pub proof fn theorem_both_anchors_match_the_whole_text(text: Seq<char>, chars: Seq<char>)
    requires
        all_literal(chars),
    ensures
        spec_match_pattern(text, seq!['^'] + chars + seq!['$']) == Ok::<bool, PatternError>(
            text == chars,
        ),
{
    let tokens = spec_tokenize(seq!['^'] + chars + seq!['$']);
    let end = seq![Node::EndOfLineAnchor];
    let start = seq![Node::StartOfLineAnchor];
    let body = literal_nodes(chars) + end;
    let tree = start + body;
    let none = Map::<u32, Seq<char>>::empty();
    assert(tokens[0] == Token::Caret);
    assert(tokens.skip(1) =~= spec_tokenize(chars) + seq![Token::Dollar]);
    lemma_parse_literal_items(chars, seq![Token::Dollar], start, 0);
    assert(seq![Token::Dollar][0] == Token::Dollar);
    assert(seq![Token::Dollar].skip(1) =~= Seq::<Token>::empty());
    assert((start + literal_nodes(chars)).push(Node::EndOfLineAnchor) =~= tree);
    assert(spec_parse_items(Seq::<Token>::empty(), tree, 0) == Ok::<
        (Seq<Node>, u32),
        PatternError,
    >((tree, 0u32)));
    assert(spec_parse_items(seq![Token::Dollar], start + literal_nodes(chars), 0) == Ok::<
        (Seq<Node>, u32),
        PatternError,
    >((tree, 0u32)));
    assert(spec_parse(tokens) == Ok::<Seq<Node>, PatternError>(tree));
    theorem_pattern_matches_when_some_offset_has_a_way(text, tree);
    assert(tree[0] is StartOfLineAnchor);
    assert(tree.skip(1) =~= body);
    lemma_literals_supported(chars);
    assert(literal_nodes(chars).push(Node::EndOfLineAnchor) =~= body);
    lemma_literals_here(text, chars, end, none);
    if chars.is_prefix_of(text) {
        let after = text.skip(chars.len() as int);
        assert(end[0] == Node::EndOfLineAnchor);
        assert((spec_match_here(after, end, none) is Some) == (after.len() == 0));
        if after.len() == 0 {
            assert(text =~= chars);
        }
    } else if text == chars {
        assert(chars =~= text.subrange(0, chars.len() as int));
    }
}

/// Parsing is a function of the tokens alone: whatever two runs of the
/// parser give for the same tokens is the same error, or two trees of the
/// same value.
pub proof fn theorem_parse_is_deterministic(
    tokens: Seq<Token>,
    first: Result<Vec<Syntax>, PatternError>,
    second: Result<Vec<Syntax>, PatternError>,
)
    requires
        is_parse_of(tokens, first),
        is_parse_of(tokens, second),
    ensures
        match (first, second) {
            (Ok(a), Ok(b)) => nodes(a@) == nodes(b@),
            (Err(a), Err(b)) => a == b,
            _ => false,
        },
{
}

} // verus!
