//! What a pattern tree means: which texts it matches, what a match
//! consumes and which capture groups it binds.

use crate::patterns::{spec_is_any_of, spec_is_digit, spec_is_word};
use crate::syntax::{spec_parse, Node, PatternError};
use crate::tokens::spec_tokenize;
use vstd::prelude::*;

verus! {

/// The nodes that match exactly one character.
pub open spec fn is_single_char(node: Node) -> bool {
    node is Literal || node is Digit || node is Word || node is Wildcard
        || node is CharacterClass
}

/// Whether the character `c` matches the single-character node `node`.
pub open spec fn spec_is_match(c: char, node: Node) -> bool {
    match node {
        Node::Wildcard => true,
        Node::Literal { char } => char == c,
        Node::Digit => spec_is_digit(c),
        Node::Word => spec_is_word(c),
        Node::CharacterClass { chars, is_negated } => is_negated != spec_is_any_of(chars, c),
        _ => false,
    }
}

/// The nodes that the matcher evaluates where they stand inside a
/// pattern: a one-or-more node repeats a single-character node, and
/// neither a start anchor nor a closing marker occurs.
pub open spec fn supported(node: Node) -> bool
    decreases node,
{
    match node {
        Node::OneOrMore { syntax } => is_single_char(*syntax),
        Node::ZeroOrOne { syntax } => supported(*syntax),
        Node::CaptureGroup { options, id } => forall|i: int, j: int|
            0 <= i < options.len() && 0 <= j < options[i].len() ==> supported(
                #[trigger] options[i][j],
            ),
        Node::CaptureGroupEnd { .. } => false,
        Node::StartOfLineAnchor => false,
        _ => true,
    }
}

/// Every node of the pattern is one that the matcher evaluates.
pub open spec fn supported_pattern(pattern: Seq<Node>) -> bool {
    forall|j: int| 0 <= j < pattern.len() ==> supported(#[trigger] pattern[j])
}

/// The weight of a node: what bounds the work that is left when the
/// matcher unfolds it. A group weighs more than any of its alternatives
/// followed by the marker that closes it.
pub open spec fn weight(node: Node) -> nat
    decreases node, 0nat,
{
    match node {
        Node::OneOrMore { syntax } => 1 + weight(*syntax),
        Node::ZeroOrOne { syntax } => 1 + weight(*syntax),
        Node::CaptureGroup { options, id } => 2 + weight_of_options(options, options.len()),
        _ => 1,
    }
}

/// The weight of the first `n` nodes of a pattern.
pub open spec fn weight_of_prefix(pattern: Seq<Node>, n: nat) -> nat
    decreases pattern, n,
{
    if n == 0 || n > pattern.len() {
        0
    } else {
        weight_of_prefix(pattern, (n - 1) as nat) + weight(pattern[n - 1])
    }
}

/// The weight of the first `n` alternatives of a group.
pub open spec fn weight_of_options(options: Seq<Seq<Node>>, n: nat) -> nat
    decreases options, n,
{
    if n == 0 || n > options.len() {
        0
    } else {
        weight_of_options(options, (n - 1) as nat) + weight_of_prefix(
            options[n - 1],
            options[n - 1].len(),
        )
    }
}

/// The weight of a pattern: the sum of the weights of its nodes.
pub open spec fn weight_of(pattern: Seq<Node>) -> nat {
    weight_of_prefix(pattern, pattern.len())
}

/// Every node weighs at least one.
pub proof fn lemma_weight_positive(node: Node)
    ensures
        weight(node) >= 1,
{
}

/// The weight of a prefix depends on that prefix alone.
pub proof fn lemma_weight_of_prefix_agrees(a: Seq<Node>, b: Seq<Node>, n: nat)
    requires
        n <= a.len(),
        n <= b.len(),
        forall|i: int| 0 <= i < n ==> a[i] == b[i],
    ensures
        weight_of_prefix(a, n) == weight_of_prefix(b, n),
    decreases n,
{
    if n > 0 {
        lemma_weight_of_prefix_agrees(a, b, (n - 1) as nat);
    }
}

/// The weight of a concatenation is the sum of the weights.
pub proof fn lemma_weight_of_concat(a: Seq<Node>, b: Seq<Node>)
    ensures
        weight_of(a + b) == weight_of(a) + weight_of(b),
    decreases b.len(),
{
    if b.len() == 0 {
        assert(a + b =~= a);
    } else {
        let front = b.drop_last();
        lemma_weight_of_concat(a, front);
        lemma_weight_of_prefix_agrees(a + b, a + front, (a + front).len());
        lemma_weight_of_prefix_agrees(b, front, front.len());
        assert((a + b)[(a + b).len() - 1] == b[b.len() - 1]);
    }
}

/// The weight of a pattern is that of its head plus that of its tail.
pub proof fn lemma_weight_of_head(pattern: Seq<Node>)
    requires
        pattern.len() > 0,
    ensures
        weight_of(pattern) == weight(pattern[0]) + weight_of(pattern.skip(1)),
        weight(pattern[0]) >= 1,
{
    let head = seq![pattern[0]];
    assert(head + pattern.skip(1) =~= pattern);
    lemma_weight_of_concat(head, pattern.skip(1));
    assert(weight_of_prefix(head, 0) == 0);
    assert(weight_of(head) == weight(pattern[0]));
}

/// No alternative of a group weighs more than all of them together.
pub proof fn lemma_weight_of_option(options: Seq<Seq<Node>>, n: nat, i: int)
    requires
        0 <= i < n <= options.len(),
    ensures
        weight_of(options[i]) <= weight_of_options(options, n),
    decreases n,
{
    if i < n - 1 {
        lemma_weight_of_option(options, (n - 1) as nat, i);
    }
}

/// The weight of a pattern of one node is the weight of the node.
pub proof fn lemma_weight_of_single(node: Node)
    ensures
        weight_of(seq![node]) == weight(node),
{
    assert(weight_of_prefix(seq![node], 0) == 0);
}

/// The weight of an alternative, the marker that closes its group, and
/// the nodes after the group.
pub proof fn lemma_weight_of_expansion(option: Seq<Node>, end: Node, rest: Seq<Node>)
    requires
        end is CaptureGroupEnd,
    ensures
        weight_of(option + seq![end] + rest) == weight_of(option) + 1 + weight_of(rest),
{
    lemma_weight_of_concat(option + seq![end], rest);
    lemma_weight_of_concat(option, seq![end]);
    lemma_weight_of_single(end);
}

/// The first `count` characters of `text` all match `syntax`.
pub open spec fn repeats(text: Seq<char>, syntax: Node, count: int) -> bool {
    forall|i: int| 0 <= i < count ==> spec_is_match(#[trigger] text[i], syntax)
}

/// `consumed` and `after` are a way for `pattern` to match at the start
/// of `text` when the capture groups `bindings` are bound: the text
/// consumed and the bindings that result. Here a one-or-more node may
/// take any number of occurrences, a zero-or-one node one or none, and a
/// group any of its alternatives; no order among these is preferred.
///
/// A single-character node takes one character that it matches, and a
/// back reference the text that its group is bound to. The marker that
/// closes a group binds the group to the text consumed since the group
/// was entered. An end anchor asks for the end of the text and of the
/// pattern; a start anchor has no way to match here.
pub open spec fn is_way_to_match(
    text: Seq<char>,
    pattern: Seq<Node>,
    bindings: Map<u32, Seq<char>>,
    consumed: Seq<char>,
    after: Map<u32, Seq<char>>,
) -> bool
    decreases weight_of(pattern),
{
    if pattern.len() == 0 {
        consumed =~= Seq::<char>::empty() && after =~= bindings
    } else {
        let rest = pattern.skip(1);
        proof {
            lemma_weight_of_head(pattern);
        }
        match pattern[0] {
            Node::OneOrMore { syntax } => exists|count: int|
                1 <= count <= text.len() && count <= consumed.len() && repeats(
                    text,
                    *syntax,
                    count,
                ) && consumed.take(count) =~= text.take(count) && is_way_to_match(
                    #[trigger] text.skip(count),
                    rest,
                    bindings,
                    consumed.skip(count),
                    after,
                ),
            Node::ZeroOrOne { syntax } => {
                proof {
                    lemma_weight_of_concat(seq![*syntax], rest);
                    lemma_weight_of_single(*syntax);
                }
                is_way_to_match(text, seq![*syntax] + rest, bindings, consumed, after)
                    || is_way_to_match(text, rest, bindings, consumed, after)
            },
            Node::CaptureGroup { options, id } => {
                let end = Node::CaptureGroupEnd { text, id };
                proof {
                    assert forall|i: int| 0 <= i < options.len() implies weight_of(
                        #[trigger] options[i] + seq![end] + rest,
                    ) < weight_of(pattern) by {
                        lemma_weight_of_expansion(options[i], end, rest);
                        lemma_weight_of_option(options, options.len(), i);
                    }
                }
                exists|i: int|
                    0 <= i < options.len() && is_way_to_match(
                        text,
                        #[trigger] options[i] + seq![end] + rest,
                        bindings,
                        consumed,
                        after,
                    )
            },
            Node::CaptureGroupEnd { text: start, id } => is_way_to_match(
                text,
                rest,
                bindings.insert(id, start.take(start.len() - text.len())),
                consumed,
                after,
            ),
            Node::BackReference { id } => bindings.contains_key(id) && bindings[id].is_prefix_of(
                text,
            ) && bindings[id].is_prefix_of(consumed) && is_way_to_match(
                text.skip(bindings[id].len() as int),
                rest,
                bindings,
                consumed.skip(bindings[id].len() as int),
                after,
            ),
            Node::EndOfLineAnchor => pattern.len() == 1 && text.len() == 0 && consumed
                =~= Seq::<char>::empty() && after =~= bindings,
            Node::StartOfLineAnchor => false,
            node => text.len() > 0 && spec_is_match(text[0], node) && consumed.len() > 0
                && consumed[0] == text[0] && is_way_to_match(
                text.skip(1),
                rest,
                bindings,
                consumed.skip(1),
                after,
            ),
        }
    }
}

/// There is an offset at which `tree` has a way to match `text`: offset 0
/// where the pattern begins with a start anchor, which is then left out,
/// else any offset up to the length of the text.
pub open spec fn has_way_to_match(text: Seq<char>, tree: Seq<Node>) -> bool {
    if tree.len() > 0 && tree[0] is StartOfLineAnchor {
        exists|consumed: Seq<char>, after: Map<u32, Seq<char>>| #[trigger]
            is_way_to_match(text, tree.skip(1), Map::empty(), consumed, after)
    } else {
        exists|offset: int, consumed: Seq<char>, after: Map<u32, Seq<char>>|
            0 <= offset <= text.len() && #[trigger] is_way_to_match(
                text.skip(offset),
                tree,
                Map::empty(),
                consumed,
                after,
            )
    }
}

/// The result of a match of the tail, with `head` consumed before it.
pub open spec fn spec_after(
    head: Seq<char>,
    tail: Option<(Seq<char>, Map<u32, Seq<char>>)>,
) -> Option<(Seq<char>, Map<u32, Seq<char>>)> {
    match tail {
        Some((consumed, bindings)) => Some((head + consumed, bindings)),
        None => None,
    }
}

/// What matching `pattern` at the start of `text` gives, with the capture
/// groups `bindings` bound so far: the text consumed and the bindings
/// after it, or `None` where the pattern does not match. The first way to
/// match, in the order in which the nodes try theirs, is the one taken.
///
/// The empty pattern matches any text and consumes nothing. A
/// single-character node consumes one character that it matches. A
/// one-or-more node consumes one occurrence and goes on as
/// `spec_match_star` says; a zero-or-one node is tried with one
/// occurrence before it is tried with none. A group tries its
/// alternatives in order, each together with what follows the group, and
/// the marker that is put behind the alternative binds the group's id to
/// the text consumed since the group was entered. A back reference
/// consumes the text its group is bound to, and matches nothing while
/// that group is not bound. An end anchor matches only as the last node,
/// at the end of the text. A start anchor has no place in what is
/// matched here: `match_syntax` takes it off.
pub open spec fn spec_match_here(
    text: Seq<char>,
    pattern: Seq<Node>,
    bindings: Map<u32, Seq<char>>,
) -> Option<(Seq<char>, Map<u32, Seq<char>>)>
    decreases weight_of(pattern), 0nat, 0nat,
{
    if pattern.len() == 0 {
        Some((Seq::empty(), bindings))
    } else {
        let rest = pattern.skip(1);
        proof {
            lemma_weight_of_head(pattern);
        }
        match pattern[0] {
            Node::OneOrMore { syntax } => if text.len() > 0 && spec_is_match(text[0], *syntax) {
                spec_after(seq![text[0]], spec_match_star(text.skip(1), *syntax, rest, bindings))
            } else {
                None
            },
            Node::ZeroOrOne { syntax } => {
                proof {
                    lemma_weight_of_concat(seq![*syntax], rest);
                    lemma_weight_of_single(*syntax);
                }
                match spec_match_here(text, seq![*syntax] + rest, bindings) {
                    Some(found) => Some(found),
                    None => spec_match_here(text, rest, bindings),
                }
            },
            Node::CaptureGroup { options, id } => spec_match_options(
                text,
                options,
                id,
                rest,
                bindings,
                0,
            ),
            Node::CaptureGroupEnd { text: start, id } => spec_match_here(
                text,
                rest,
                bindings.insert(id, start.take(start.len() - text.len())),
            ),
            Node::BackReference { id } => if bindings.contains_key(id) && bindings[id].is_prefix_of(
                text,
            ) {
                spec_after(
                    bindings[id],
                    spec_match_here(text.skip(bindings[id].len() as int), rest, bindings),
                )
            } else {
                None
            },
            Node::EndOfLineAnchor => if pattern.len() == 1 && text.len() == 0 {
                Some((Seq::empty(), bindings))
            } else {
                None
            },
            Node::StartOfLineAnchor => None,
            node => if text.len() > 0 && spec_is_match(text[0], node) {
                spec_after(seq![text[0]], spec_match_here(text.skip(1), rest, bindings))
            } else {
                None
            },
        }
    }
}

/// What is left of a one-or-more node after its first occurrence: the
/// rest of the pattern is tried first, and only where it fails one more
/// occurrence of `syntax` is consumed.
pub open spec fn spec_match_star(
    text: Seq<char>,
    syntax: Node,
    remainder: Seq<Node>,
    bindings: Map<u32, Seq<char>>,
) -> Option<(Seq<char>, Map<u32, Seq<char>>)>
    decreases weight_of(remainder), 1nat, text.len(),
{
    match spec_match_here(text, remainder, bindings) {
        Some(found) => Some(found),
        None => if text.len() > 0 && spec_is_match(text[0], syntax) {
            spec_after(seq![text[0]], spec_match_star(text.skip(1), syntax, remainder, bindings))
        } else {
            None
        },
    }
}

/// The alternatives of a group from the `index`-th on, each tried as one
/// pattern with the marker that closes the group and with the nodes after
/// the group; the first that matches is taken.
pub open spec fn spec_match_options(
    text: Seq<char>,
    options: Seq<Seq<Node>>,
    id: u32,
    remainder: Seq<Node>,
    bindings: Map<u32, Seq<char>>,
    index: nat,
) -> Option<(Seq<char>, Map<u32, Seq<char>>)>
    decreases weight_of_options(options, options.len()) + 1 + weight_of(remainder), 1nat,
        options.len() - index,
{
    if index >= options.len() {
        None
    } else {
        let end = Node::CaptureGroupEnd { text, id };
        proof {
            lemma_weight_of_expansion(options[index as int], end, remainder);
            lemma_weight_of_option(options, options.len(), index as int);
        }
        match spec_match_here(text, options[index as int] + seq![end] + remainder, bindings) {
            Some(found) => Some(found),
            None => spec_match_options(text, options, id, remainder, bindings, index + 1),
        }
    }
}

/// A zero-or-one node before `pattern`: one occurrence is tried first,
/// none only where that fails.
pub open spec fn spec_match_question_mark(
    text: Seq<char>,
    syntax: Node,
    pattern: Seq<Node>,
    bindings: Map<u32, Seq<char>>,
) -> Option<(Seq<char>, Map<u32, Seq<char>>)> {
    match spec_match_here(text, seq![syntax] + pattern, bindings) {
        Some(found) => Some(found),
        None => spec_match_here(text, pattern, bindings),
    }
}

/// The part of a pattern that is matched: all but a leading start anchor.
pub open spec fn body_of(tree: Seq<Node>) -> Seq<Node> {
    if tree.len() > 0 && tree[0] is StartOfLineAnchor {
        tree.skip(1)
    } else {
        tree
    }
}

/// Whether the search finds `tree` somewhere in `text`: the pattern is
/// matched at the start of the text where it begins with a start anchor,
/// else at each offset from 0 to the length of the text. The search
/// finds a match exactly where `has_way_to_match` says that there is one.
pub open spec fn spec_match_tree(text: Seq<char>, tree: Seq<Node>) -> bool {
    if tree.len() > 0 && tree[0] is StartOfLineAnchor {
        spec_match_here(text, tree.skip(1), Map::empty()) is Some
    } else {
        exists|offset: int|
            0 <= offset <= text.len() && #[trigger] spec_match_here(
                text.skip(offset),
                tree,
                Map::empty(),
            ) is Some
    }
}

/// Whether the pattern written as `pattern` matches somewhere in `text`,
/// or why it is no pattern that can be matched.
pub open spec fn spec_match_pattern(text: Seq<char>, pattern: Seq<char>) -> Result<
    bool,
    PatternError,
> {
    match spec_parse(spec_tokenize(pattern)) {
        Err(e) => Err(e),
        Ok(tree) => if supported_pattern(body_of(tree)) {
            Ok(has_way_to_match(text, tree))
        } else {
            Err(PatternError::Unsupported)
        },
    }
}

/// A text consumed at the start of `text`, and then one consumed at the
/// start of what is left, are consumed at the start of `text` together.
pub proof fn lemma_prefix_after(head: Seq<char>, tail: Seq<char>, text: Seq<char>)
    requires
        head.is_prefix_of(text),
        tail.is_prefix_of(text.skip(head.len() as int)),
    ensures
        (head + tail).is_prefix_of(text),
{
    assert((head + tail) =~= text.subrange(0, (head + tail).len() as int));
}

/// What a match consumes is a prefix of the text it was matched against.
pub proof fn lemma_match_here_consumes_prefix(
    text: Seq<char>,
    pattern: Seq<Node>,
    bindings: Map<u32, Seq<char>>,
)
    ensures
        spec_match_here(text, pattern, bindings) matches Some((consumed, _))
            ==> consumed.is_prefix_of(text),
    decreases weight_of(pattern), 0nat, 0nat,
{
    if pattern.len() > 0 {
        let rest = pattern.skip(1);
        lemma_weight_of_head(pattern);
        match pattern[0] {
            Node::OneOrMore { syntax } => {
                if text.len() > 0 && spec_is_match(text[0], *syntax) {
                    lemma_match_star_consumes_prefix(text.skip(1), *syntax, rest, bindings);
                    if let Some((tail, _)) = spec_match_star(text.skip(1), *syntax, rest, bindings) {
                        lemma_prefix_after(seq![text[0]], tail, text);
                    }
                }
            },
            Node::ZeroOrOne { syntax } => {
                lemma_weight_of_concat(seq![*syntax], rest);
                lemma_weight_of_single(*syntax);
                lemma_match_here_consumes_prefix(text, seq![*syntax] + rest, bindings);
                lemma_match_here_consumes_prefix(text, rest, bindings);
            },
            Node::CaptureGroup { options, id } => {
                lemma_match_options_consumes_prefix(text, options, id, rest, bindings, 0);
            },
            Node::CaptureGroupEnd { text: start, id } => {
                lemma_match_here_consumes_prefix(
                    text,
                    rest,
                    bindings.insert(id, start.take(start.len() - text.len())),
                );
            },
            Node::BackReference { id } => {
                if bindings.contains_key(id) && bindings[id].is_prefix_of(text) {
                    let head = bindings[id];
                    lemma_match_here_consumes_prefix(text.skip(head.len() as int), rest, bindings);
                    if let Some((tail, _)) = spec_match_here(
                        text.skip(head.len() as int),
                        rest,
                        bindings,
                    ) {
                        lemma_prefix_after(head, tail, text);
                    }
                }
            },
            Node::EndOfLineAnchor => {},
            Node::StartOfLineAnchor => {},
            node => {
                if text.len() > 0 && spec_is_match(text[0], node) {
                    lemma_match_here_consumes_prefix(text.skip(1), rest, bindings);
                    if let Some((tail, _)) = spec_match_here(text.skip(1), rest, bindings) {
                        lemma_prefix_after(seq![text[0]], tail, text);
                    }
                }
            },
        }
    }
}

/// What the repetitions after the first and the rest of the pattern
/// consume is a prefix of the text.
pub proof fn lemma_match_star_consumes_prefix(
    text: Seq<char>,
    syntax: Node,
    remainder: Seq<Node>,
    bindings: Map<u32, Seq<char>>,
)
    ensures
        spec_match_star(text, syntax, remainder, bindings) matches Some((consumed, _))
            ==> consumed.is_prefix_of(text),
    decreases weight_of(remainder), 1nat, text.len(),
{
    lemma_match_here_consumes_prefix(text, remainder, bindings);
    if spec_match_here(text, remainder, bindings) is None && text.len() > 0 && spec_is_match(
        text[0],
        syntax,
    ) {
        lemma_match_star_consumes_prefix(text.skip(1), syntax, remainder, bindings);
        if let Some((tail, _)) = spec_match_star(text.skip(1), syntax, remainder, bindings) {
            lemma_prefix_after(seq![text[0]], tail, text);
        }
    }
}

/// What an alternative of a group and the rest of the pattern consume is
/// a prefix of the text.
pub proof fn lemma_match_options_consumes_prefix(
    text: Seq<char>,
    options: Seq<Seq<Node>>,
    id: u32,
    remainder: Seq<Node>,
    bindings: Map<u32, Seq<char>>,
    index: nat,
)
    ensures
        spec_match_options(text, options, id, remainder, bindings, index) matches Some(
            (consumed, _),
        ) ==> consumed.is_prefix_of(text),
    decreases weight_of_options(options, options.len()) + 1 + weight_of(remainder), 1nat,
        options.len() - index,
{
    if index < options.len() {
        let end = Node::CaptureGroupEnd { text, id };
        lemma_weight_of_expansion(options[index as int], end, remainder);
        lemma_weight_of_option(options, options.len(), index as int);
        lemma_match_here_consumes_prefix(
            text,
            options[index as int] + seq![end] + remainder,
            bindings,
        );
        lemma_match_options_consumes_prefix(text, options, id, remainder, bindings, index + 1);
    }
}

} // verus!
