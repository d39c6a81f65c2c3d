//! The matcher takes the first way to match that it comes to. It finds one
//! whenever there is one, and what it returns is one.

use crate::semantics::{
    has_way_to_match, is_way_to_match, lemma_weight_of_concat, lemma_weight_of_expansion,
    lemma_weight_of_head, lemma_weight_of_option, lemma_weight_of_single, repeats, spec_is_match,
    spec_match_here, spec_match_options, spec_match_star, spec_match_tree, weight_of,
    weight_of_options,
};
use crate::syntax::Node;
use vstd::prelude::*;

verus! {

/// What the matcher returns is a way to match.
pub proof fn lemma_match_here_is_a_way(
    text: Seq<char>,
    pattern: Seq<Node>,
    bindings: Map<u32, Seq<char>>,
)
    ensures
        spec_match_here(text, pattern, bindings) matches Some((consumed, after))
            ==> is_way_to_match(text, pattern, bindings, consumed, after),
    decreases weight_of(pattern), 0nat, 0nat,
{
    if pattern.len() > 0 {
        let rest = pattern.skip(1);
        lemma_weight_of_head(pattern);
        match pattern[0] {
            Node::OneOrMore { syntax } => {
                if text.len() > 0 && spec_is_match(text[0], *syntax) {
                    let shorter = text.skip(1);
                    lemma_match_star_is_a_way(shorter, *syntax, rest, bindings);
                    if let Some((tail, after)) = spec_match_star(shorter, *syntax, rest, bindings) {
                        let consumed = seq![text[0]] + tail;
                        let more = choose|more: int|
                            0 <= more <= shorter.len() && more <= tail.len() && repeats(
                                shorter,
                                *syntax,
                                more,
                            ) && tail.take(more) =~= shorter.take(more) && is_way_to_match(
                                #[trigger] shorter.skip(more),
                                rest,
                                bindings,
                                tail.skip(more),
                                after,
                            );
                        let count = more + 1;
                        assert forall|i: int| 0 <= i < count implies spec_is_match(
                            #[trigger] text[i],
                            *syntax,
                        ) by {
                            if i > 0 {
                                assert(text[i] == shorter[i - 1]);
                            }
                        }
                        assert(consumed.take(count) =~= text.take(count)) by {
                            assert forall|i: int| 0 <= i < count implies consumed[i] == text[i] by {
                                if i > 0 {
                                    assert(tail.take(more)[i - 1] == shorter.take(more)[i - 1]);
                                }
                            }
                        }
                        assert(text.skip(count) =~= shorter.skip(more));
                        assert(consumed.skip(count) =~= tail.skip(more));
                        assert(is_way_to_match(
                            text.skip(count),
                            rest,
                            bindings,
                            consumed.skip(count),
                            after,
                        ));
                    }
                }
            },
            Node::ZeroOrOne { syntax } => {
                lemma_weight_of_concat(seq![*syntax], rest);
                lemma_weight_of_single(*syntax);
                lemma_match_here_is_a_way(text, seq![*syntax] + rest, bindings);
                lemma_match_here_is_a_way(text, rest, bindings);
            },
            Node::CaptureGroup { options, id } => {
                lemma_match_options_is_a_way(text, options, id, rest, bindings, 0);
                if let Some((consumed, after)) = spec_match_options(
                    text,
                    options,
                    id,
                    rest,
                    bindings,
                    0,
                ) {
                    let end = Node::CaptureGroupEnd { text, id };
                    let i = choose|i: int|
                        0 <= i < options.len() && is_way_to_match(
                            text,
                            #[trigger] options[i] + seq![end] + rest,
                            bindings,
                            consumed,
                            after,
                        );
                    assert(is_way_to_match(
                        text,
                        options[i] + seq![end] + rest,
                        bindings,
                        consumed,
                        after,
                    ));
                }
            },
            Node::CaptureGroupEnd { text: start, id } => {
                lemma_match_here_is_a_way(
                    text,
                    rest,
                    bindings.insert(id, start.take(start.len() - text.len())),
                );
            },
            Node::BackReference { id } => {
                if bindings.contains_key(id) && bindings[id].is_prefix_of(text) {
                    let head = bindings[id];
                    let shorter = text.skip(head.len() as int);
                    lemma_match_here_is_a_way(shorter, rest, bindings);
                    if let Some((tail, after)) = spec_match_here(shorter, rest, bindings) {
                        let consumed = head + tail;
                        assert(head =~= consumed.subrange(0, head.len() as int));
                        assert(consumed.skip(head.len() as int) =~= tail);
                    }
                }
            },
            Node::EndOfLineAnchor => {},
            Node::StartOfLineAnchor => {},
            node => {
                if text.len() > 0 && spec_is_match(text[0], node) {
                    lemma_match_here_is_a_way(text.skip(1), rest, bindings);
                    if let Some((tail, after)) = spec_match_here(text.skip(1), rest, bindings) {
                        let consumed = seq![text[0]] + tail;
                        assert(consumed.skip(1) =~= tail);
                    }
                }
            },
        }
    }
}

/// What the repetitions after the first give is a way to match: some
/// number of further occurrences, and then a way for the rest.
pub proof fn lemma_match_star_is_a_way(
    text: Seq<char>,
    syntax: Node,
    remainder: Seq<Node>,
    bindings: Map<u32, Seq<char>>,
)
    ensures
        spec_match_star(text, syntax, remainder, bindings) matches Some((consumed, after))
            ==> exists|count: int|
            0 <= count <= text.len() && count <= consumed.len() && repeats(text, syntax, count)
                && consumed.take(count) =~= text.take(count) && is_way_to_match(
                #[trigger] text.skip(count),
                remainder,
                bindings,
                consumed.skip(count),
                after,
            ),
    decreases weight_of(remainder), 1nat, text.len(),
{
    lemma_match_here_is_a_way(text, remainder, bindings);
    match spec_match_here(text, remainder, bindings) {
        Some((consumed, after)) => {
            assert(text.skip(0) =~= text);
            assert(consumed.skip(0) =~= consumed);
            assert(consumed.take(0) =~= text.take(0));
            assert(is_way_to_match(text.skip(0), remainder, bindings, consumed.skip(0), after));
        },
        None => {
            if text.len() > 0 && spec_is_match(text[0], syntax) {
                let shorter = text.skip(1);
                lemma_match_star_is_a_way(shorter, syntax, remainder, bindings);
                if let Some((tail, after)) = spec_match_star(shorter, syntax, remainder, bindings) {
                    let consumed = seq![text[0]] + tail;
                    let more = choose|more: int|
                        0 <= more <= shorter.len() && more <= tail.len() && repeats(
                            shorter,
                            syntax,
                            more,
                        ) && tail.take(more) =~= shorter.take(more) && is_way_to_match(
                            #[trigger] shorter.skip(more),
                            remainder,
                            bindings,
                            tail.skip(more),
                            after,
                        );
                    let count = more + 1;
                    assert forall|i: int| 0 <= i < count implies spec_is_match(
                        #[trigger] text[i],
                        syntax,
                    ) by {
                        if i > 0 {
                            assert(text[i] == shorter[i - 1]);
                        }
                    }
                    assert(consumed.take(count) =~= text.take(count)) by {
                        assert forall|i: int| 0 <= i < count implies consumed[i] == text[i] by {
                            if i > 0 {
                                assert(tail.take(more)[i - 1] == shorter.take(more)[i - 1]);
                            }
                        }
                    }
                    assert(text.skip(count) =~= shorter.skip(more));
                    assert(consumed.skip(count) =~= tail.skip(more));
                    assert(is_way_to_match(
                        text.skip(count),
                        remainder,
                        bindings,
                        consumed.skip(count),
                        after,
                    ));
                }
            }
        },
    }
}

/// What the alternatives of a group give is a way to match one of them.
pub proof fn lemma_match_options_is_a_way(
    text: Seq<char>,
    options: Seq<Seq<Node>>,
    id: u32,
    remainder: Seq<Node>,
    bindings: Map<u32, Seq<char>>,
    index: nat,
)
    ensures
        spec_match_options(text, options, id, remainder, bindings, index) matches Some(
            (consumed, after),
        ) ==> exists|i: int|
            0 <= i < options.len() && is_way_to_match(
                text,
                #[trigger] options[i] + seq![Node::CaptureGroupEnd { text, id }] + remainder,
                bindings,
                consumed,
                after,
            ),
    decreases weight_of_options(options, options.len()) + 1 + weight_of(remainder), 1nat,
        options.len() - index,
{
    if index < options.len() {
        let end = Node::CaptureGroupEnd { text, id };
        let total = options[index as int] + seq![end] + remainder;
        lemma_weight_of_expansion(options[index as int], end, remainder);
        lemma_weight_of_option(options, options.len(), index as int);
        lemma_match_here_is_a_way(text, total, bindings);
        lemma_match_options_is_a_way(text, options, id, remainder, bindings, index + 1);
        if let Some((consumed, after)) = spec_match_here(text, total, bindings) {
            assert(is_way_to_match(
                text,
                options[index as int] + seq![end] + remainder,
                bindings,
                consumed,
                after,
            ));
        }
    }
}

/// Where the rest of the pattern matches after some occurrences of
/// `syntax`, the repetitions find a match.
pub proof fn lemma_star_finds_a_match(
    text: Seq<char>,
    syntax: Node,
    remainder: Seq<Node>,
    bindings: Map<u32, Seq<char>>,
    count: int,
)
    requires
        0 <= count <= text.len(),
        repeats(text, syntax, count),
        spec_match_here(text.skip(count), remainder, bindings) is Some,
    ensures
        spec_match_star(text, syntax, remainder, bindings) is Some,
    decreases count,
{
    if spec_match_here(text, remainder, bindings) is None {
        if count == 0 {
            assert(text.skip(0) =~= text);
        } else {
            let shorter = text.skip(1);
            assert(spec_is_match(text[0], syntax));
            assert forall|i: int| 0 <= i < count - 1 implies spec_is_match(
                #[trigger] shorter[i],
                syntax,
            ) by {
                assert(shorter[i] == text[i + 1]);
            }
            assert(shorter.skip(count - 1) =~= text.skip(count));
            lemma_star_finds_a_match(shorter, syntax, remainder, bindings, count - 1);
        }
    }
}

/// Where one alternative of a group matches together with what follows
/// the group, the alternatives find a match.
pub proof fn lemma_options_find_a_match(
    text: Seq<char>,
    options: Seq<Seq<Node>>,
    id: u32,
    remainder: Seq<Node>,
    bindings: Map<u32, Seq<char>>,
    index: nat,
    matching: int,
)
    requires
        index <= matching < options.len(),
        spec_match_here(
            text,
            options[matching] + seq![Node::CaptureGroupEnd { text, id }] + remainder,
            bindings,
        ) is Some,
    ensures
        spec_match_options(text, options, id, remainder, bindings, index) is Some,
    decreases matching - index,
{
    if index < matching {
        lemma_options_find_a_match(text, options, id, remainder, bindings, index + 1, matching);
    }
}

/// Where there is a way to match, the matcher finds a match.
pub proof fn lemma_a_way_is_found(
    text: Seq<char>,
    pattern: Seq<Node>,
    bindings: Map<u32, Seq<char>>,
    consumed: Seq<char>,
    after: Map<u32, Seq<char>>,
)
    requires
        is_way_to_match(text, pattern, bindings, consumed, after),
    ensures
        spec_match_here(text, pattern, bindings) is Some,
    decreases weight_of(pattern),
{
    if pattern.len() > 0 {
        let rest = pattern.skip(1);
        lemma_weight_of_head(pattern);
        match pattern[0] {
            Node::OneOrMore { syntax } => {
                let count = choose|count: int|
                    1 <= count <= text.len() && count <= consumed.len() && repeats(
                        text,
                        *syntax,
                        count,
                    ) && consumed.take(count) =~= text.take(count) && is_way_to_match(
                        #[trigger] text.skip(count),
                        rest,
                        bindings,
                        consumed.skip(count),
                        after,
                    );
                lemma_a_way_is_found(text.skip(count), rest, bindings, consumed.skip(count), after);
                let shorter = text.skip(1);
                assert(spec_is_match(text[0], *syntax));
                assert forall|i: int| 0 <= i < count - 1 implies spec_is_match(
                    #[trigger] shorter[i],
                    *syntax,
                ) by {
                    assert(shorter[i] == text[i + 1]);
                }
                assert(shorter.skip(count - 1) =~= text.skip(count));
                lemma_star_finds_a_match(shorter, *syntax, rest, bindings, count - 1);
            },
            Node::ZeroOrOne { syntax } => {
                lemma_weight_of_concat(seq![*syntax], rest);
                lemma_weight_of_single(*syntax);
                if is_way_to_match(text, seq![*syntax] + rest, bindings, consumed, after) {
                    lemma_a_way_is_found(text, seq![*syntax] + rest, bindings, consumed, after);
                } else {
                    lemma_a_way_is_found(text, rest, bindings, consumed, after);
                }
            },
            Node::CaptureGroup { options, id } => {
                let end = Node::CaptureGroupEnd { text, id };
                let i = choose|i: int|
                    0 <= i < options.len() && is_way_to_match(
                        text,
                        #[trigger] options[i] + seq![end] + rest,
                        bindings,
                        consumed,
                        after,
                    );
                lemma_weight_of_expansion(options[i], end, rest);
                lemma_weight_of_option(options, options.len(), i);
                lemma_a_way_is_found(text, options[i] + seq![end] + rest, bindings, consumed, after);
                lemma_options_find_a_match(text, options, id, rest, bindings, 0, i);
            },
            Node::CaptureGroupEnd { text: start, id } => {
                lemma_a_way_is_found(
                    text,
                    rest,
                    bindings.insert(id, start.take(start.len() - text.len())),
                    consumed,
                    after,
                );
            },
            Node::BackReference { id } => {
                let n = bindings[id].len() as int;
                lemma_a_way_is_found(text.skip(n), rest, bindings, consumed.skip(n), after);
            },
            Node::EndOfLineAnchor => {},
            Node::StartOfLineAnchor => {},
            node => {
                lemma_a_way_is_found(text.skip(1), rest, bindings, consumed.skip(1), after);
            },
        }
    }
}

/// The matcher finds a match at the start of `text` exactly when there is
/// a way for the pattern to match there, and what it returns is such a
/// way: trying the ways in a fixed order loses none of them.
pub proof fn theorem_match_is_found_when_there_is_one(
    text: Seq<char>,
    pattern: Seq<Node>,
    bindings: Map<u32, Seq<char>>,
)
    ensures
        spec_match_here(text, pattern, bindings) is Some <==> exists|
            consumed: Seq<char>,
            after: Map<u32, Seq<char>>,
        | #[trigger] is_way_to_match(text, pattern, bindings, consumed, after),
        spec_match_here(text, pattern, bindings) matches Some((consumed, after))
            ==> is_way_to_match(text, pattern, bindings, consumed, after),
{
    lemma_match_here_is_a_way(text, pattern, bindings);
    if exists|consumed: Seq<char>, after: Map<u32, Seq<char>>| #[trigger]
        is_way_to_match(text, pattern, bindings, consumed, after) {
        let (consumed, after) = choose|consumed: Seq<char>, after: Map<u32, Seq<char>>| #[trigger]
            is_way_to_match(text, pattern, bindings, consumed, after);
        lemma_a_way_is_found(text, pattern, bindings, consumed, after);
    }
}

/// A pattern matches somewhere in a text exactly when there is an offset
/// at which it has a way to match.
pub proof fn theorem_pattern_matches_when_some_offset_has_a_way(
    text: Seq<char>,
    tree: Seq<Node>,
)
    ensures
        spec_match_tree(text, tree) == has_way_to_match(text, tree),
{
    let none = Map::<u32, Seq<char>>::empty();
    if tree.len() > 0 && tree[0] is StartOfLineAnchor {
        theorem_match_is_found_when_there_is_one(text, tree.skip(1), none);
    } else {
        if spec_match_tree(text, tree) {
            let offset = choose|offset: int|
                0 <= offset <= text.len() && #[trigger] spec_match_here(
                    text.skip(offset),
                    tree,
                    none,
                ) is Some;
            theorem_match_is_found_when_there_is_one(text.skip(offset), tree, none);
        }
        if exists|offset: int, consumed: Seq<char>, after: Map<u32, Seq<char>>|
            0 <= offset <= text.len() && #[trigger] is_way_to_match(
                text.skip(offset),
                tree,
                none,
                consumed,
                after,
            ) {
            let (offset, consumed, after) = choose|
                offset: int,
                consumed: Seq<char>,
                after: Map<u32, Seq<char>>,
            |
                0 <= offset <= text.len() && #[trigger] is_way_to_match(
                    text.skip(offset),
                    tree,
                    none,
                    consumed,
                    after,
                );
            theorem_match_is_found_when_there_is_one(text.skip(offset), tree, none);
            assert(spec_match_here(text.skip(offset), tree, none) is Some);
        }
    }
}

} // verus!
