//! The patterns that the matcher can be run on, and what holds of the
//! capture groups while it runs.

use crate::capture_ids::{distinct_ids, distinct_in, ids_in, ids_of};
use crate::semantics::{
    body_of, lemma_weight_of_concat, lemma_weight_of_expansion, lemma_weight_of_head,
    lemma_weight_of_option, lemma_weight_of_single, spec_is_match, spec_match_here,
    spec_match_options, spec_match_star, supported, supported_pattern, weight_of, weight_of_options,
};
use crate::syntax::Node;
use vstd::prelude::*;

verus! {

/// What the matcher asks of its input. Every node is one it evaluates; a
/// closing marker stands only in the pattern itself, not inside a node,
/// and was made from a text at least as long as the one that is left. No
/// capture group can be bound twice: the ids in the pattern differ from
/// each other and from those that are bound.
pub open spec fn matchable(
    text: Seq<char>,
    pattern: Seq<Node>,
    bindings: Map<u32, Seq<char>>,
) -> bool {
    &&& forall|j: int|
        0 <= j < pattern.len() ==> match #[trigger] pattern[j] {
            Node::CaptureGroupEnd { text: start, .. } => text.len() <= start.len(),
            node => supported(node),
        }
    &&& distinct_in(pattern)
    &&& forall|id: u32| ids_in(pattern).contains(id) ==> !bindings.contains_key(id)
}

/// The patterns that can be matched against a text: but for a leading
/// start anchor every node is one the matcher evaluates, and no two
/// capture groups share an id.
pub open spec fn evaluable(tree: Seq<Node>) -> bool {
    supported_pattern(body_of(tree)) && distinct_in(tree)
}

/// A pattern stays matchable when its head is taken off and the text gets
/// no longer.
pub proof fn lemma_matchable_tail(
    text: Seq<char>,
    pattern: Seq<Node>,
    bindings: Map<u32, Seq<char>>,
    shorter: Seq<char>,
)
    requires
        matchable(text, pattern, bindings),
        pattern.len() > 0,
        shorter.len() <= text.len(),
    ensures
        matchable(shorter, pattern.skip(1), bindings),
{
    let rest = pattern.skip(1);
    assert forall|j: int| 0 <= j < rest.len() implies match #[trigger] rest[j] {
        Node::CaptureGroupEnd { text: start, .. } => shorter.len() <= start.len(),
        node => supported(node),
    } by {
        assert(rest[j] == pattern[j + 1]);
    }
    assert(distinct_in(rest)) by {
        assert forall|j: int| 0 <= j < rest.len() implies distinct_ids(#[trigger] rest[j]) by {
            assert(rest[j] == pattern[j + 1]);
        }
        assert forall|j: int, k: int| 0 <= j < k < rest.len() implies ids_of(
            #[trigger] rest[j],
        ).disjoint(ids_of(#[trigger] rest[k])) by {
            assert(rest[j] == pattern[j + 1]);
            assert(rest[k] == pattern[k + 1]);
        }
    }
    assert forall|id: u32| ids_in(rest).contains(id) implies !bindings.contains_key(id) by {
        let j = choose|j: int| 0 <= j < rest.len() && #[trigger] ids_of(rest[j]).contains(id);
        assert(rest[j] == pattern[j + 1]);
        assert(ids_of(pattern[j + 1]).contains(id));
        assert(ids_in(pattern).contains(id));
    }
}

/// A pattern stays matchable when the text gets no longer.
pub proof fn lemma_matchable_shorter(
    text: Seq<char>,
    pattern: Seq<Node>,
    bindings: Map<u32, Seq<char>>,
    shorter: Seq<char>,
)
    requires
        matchable(text, pattern, bindings),
        shorter.len() <= text.len(),
    ensures
        matchable(shorter, pattern, bindings),
{
}

/// At a closing marker the group's id is free, and what follows the
/// marker is matchable once the id is bound.
pub proof fn lemma_matchable_bound(
    text: Seq<char>,
    pattern: Seq<Node>,
    bindings: Map<u32, Seq<char>>,
    captured: Seq<char>,
)
    requires
        matchable(text, pattern, bindings),
        pattern.len() > 0,
        pattern[0] is CaptureGroupEnd,
    ensures
        !bindings.contains_key(pattern[0]->CaptureGroupEnd_id),
        matchable(text, pattern.skip(1), bindings.insert(pattern[0]->CaptureGroupEnd_id, captured)),
{
    let id = pattern[0]->CaptureGroupEnd_id;
    let rest = pattern.skip(1);
    let bound = bindings.insert(id, captured);
    lemma_matchable_tail(text, pattern, bindings, text);
    assert(ids_of(pattern[0]).contains(id));
    assert(ids_in(pattern).contains(id));
    assert forall|x: u32| ids_in(rest).contains(x) implies !bound.contains_key(x) by {
        let j = choose|j: int| 0 <= j < rest.len() && #[trigger] ids_of(rest[j]).contains(x);
        assert(rest[j] == pattern[j + 1]);
        assert(ids_of(pattern[0]).disjoint(ids_of(pattern[j + 1])));
        assert(ids_in(rest).contains(x));
    }
}

/// A zero-or-one node may be replaced by the node it holds.
pub proof fn lemma_matchable_once(
    text: Seq<char>,
    pattern: Seq<Node>,
    bindings: Map<u32, Seq<char>>,
)
    requires
        matchable(text, pattern, bindings),
        pattern.len() > 0,
        pattern[0] is ZeroOrOne,
    ensures
        matchable(text, seq![*pattern[0]->ZeroOrOne_syntax] + pattern.skip(1), bindings),
{
    let inner = *pattern[0]->ZeroOrOne_syntax;
    let once = seq![inner] + pattern.skip(1);
    assert(once.len() == pattern.len());
    assert(once[0] == inner);
    assert(supported(pattern[0]));
    assert(supported(inner));
    assert(ids_of(inner) == ids_of(pattern[0]));
    assert forall|j: int| 0 <= j < once.len() implies match #[trigger] once[j] {
        Node::CaptureGroupEnd { text: start, .. } => text.len() <= start.len(),
        node => supported(node),
    } by {
        if j > 0 {
            assert(once[j] == pattern[j]);
        } else {
            assert(once[j] == inner);
            assert(!(inner is CaptureGroupEnd));
        }
    }
    assert forall|j: int| 0 <= j < once.len() implies ids_of(#[trigger] once[j]) == ids_of(
        pattern[j],
    ) && (distinct_ids(pattern[j]) ==> distinct_ids(once[j])) by {
        if j > 0 {
            assert(once[j] == pattern[j]);
        }
    }
    assert(distinct_in(once)) by {
        assert forall|j: int, k: int| 0 <= j < k < once.len() implies ids_of(
            #[trigger] once[j],
        ).disjoint(ids_of(#[trigger] once[k])) by {
            assert(ids_of(pattern[j]).disjoint(ids_of(pattern[k])));
        }
    }
    assert forall|x: u32| ids_in(once).contains(x) implies !bindings.contains_key(x) by {
        let j = choose|j: int| 0 <= j < once.len() && #[trigger] ids_of(once[j]).contains(x);
        assert(ids_of(pattern[j]).contains(x));
        assert(ids_in(pattern).contains(x));
    }
}

/// A group may be replaced by one of its alternatives and the marker
/// that closes it.
pub proof fn lemma_matchable_option(
    text: Seq<char>,
    pattern: Seq<Node>,
    bindings: Map<u32, Seq<char>>,
    index: int,
)
    requires
        matchable(text, pattern, bindings),
        pattern.len() > 0,
        pattern[0] is CaptureGroup,
        0 <= index < pattern[0]->options.len(),
    ensures
        matchable(
            text,
            pattern[0]->options[index] + seq![
                Node::CaptureGroupEnd { text, id: pattern[0]->CaptureGroup_id },
            ] + pattern.skip(1),
            bindings,
        ),
{
    let options = pattern[0]->options;
    let id = pattern[0]->CaptureGroup_id;
    let option = options[index];
    let end = Node::CaptureGroupEnd { text, id };
    let total = option + seq![end] + pattern.skip(1);
    let n = option.len() as int;
    assert(supported(pattern[0]));
    assert(distinct_ids(pattern[0]));
    assert(ids_of(pattern[0]).contains(id));
    // Where each node of the expansion comes from, and that its ids are
    // ids of the node it comes from.
    assert forall|j: int| 0 <= j < total.len() implies {
        let source = if j <= n { 0 } else { j - n };
        &&& (j < n ==> total[j] == option[j])
        &&& (j == n ==> total[j] == end)
        &&& (j > n ==> total[j] == pattern[j - n])
        &&& ids_of(#[trigger] total[j]).subset_of(ids_of(pattern[source]))
        &&& distinct_ids(total[j])
    } by {
        if j < n {
            assert(total[j] == option[j]);
            assert(distinct_ids(options[index][j]));
            assert forall|x: u32| ids_of(option[j]).contains(x) implies ids_of(
                pattern[0],
            ).contains(x) by {
                assert(ids_of(options[index][j]).contains(x));
            }
        } else if j == n {
            assert(total[j] == end);
        } else {
            assert(total[j] == pattern[j - n]);
        }
    }
    assert forall|j: int| 0 <= j < total.len() implies match #[trigger] total[j] {
        Node::CaptureGroupEnd { text: start, .. } => text.len() <= start.len(),
        node => supported(node),
    } by {
        if j < n {
            assert(total[j] == option[j]);
            assert(supported(options[index][j]));
        } else if j == n {
            assert(total[j] == end);
        } else {
            assert(total[j] == pattern[j - n]);
        }
    }
    assert(distinct_in(total)) by {
        assert forall|j: int, k: int| 0 <= j < k < total.len() implies ids_of(
            #[trigger] total[j],
        ).disjoint(ids_of(#[trigger] total[k])) by {
            if k < n {
                assert(total[j] == options[index][j]);
                assert(total[k] == options[index][k]);
            } else if k == n {
                assert(total[j] == options[index][j]);
                assert(!ids_of(options[index][j]).contains(id));
            } else {
                let source = if j <= n { 0 } else { j - n };
                assert(ids_of(total[j]).subset_of(ids_of(pattern[source])));
                assert(ids_of(pattern[source]).disjoint(ids_of(pattern[k - n])));
            }
        }
    }
    assert forall|x: u32| ids_in(total).contains(x) implies !bindings.contains_key(x) by {
        let j = choose|j: int| 0 <= j < total.len() && #[trigger] ids_of(total[j]).contains(x);
        let source = if j <= n { 0 } else { j - n };
        assert(ids_of(total[j]).subset_of(ids_of(pattern[source])));
        assert(ids_of(pattern[source]).contains(x));
        assert(ids_in(pattern).contains(x));
    }
}

/// An evaluable pattern, and what is left of it without its start
/// anchor, can be matched against any text when no group is bound.
pub proof fn lemma_evaluable_is_matchable(text: Seq<char>, tree: Seq<Node>)
    requires
        evaluable(tree),
    ensures
        matchable(text, body_of(tree), Map::empty()),
{
    let body = body_of(tree);
    assert forall|j: int| 0 <= j < body.len() implies match #[trigger] body[j] {
        Node::CaptureGroupEnd { text: start, .. } => text.len() <= start.len(),
        node => supported(node),
    } by {
        assert(supported(body[j]));
    }
    if tree.len() > 0 && tree[0] is StartOfLineAnchor {
        assert forall|j: int| 0 <= j < body.len() implies distinct_ids(#[trigger] body[j]) by {
            assert(body[j] == tree[j + 1]);
        }
        assert forall|j: int, k: int| 0 <= j < k < body.len() implies ids_of(
            #[trigger] body[j],
        ).disjoint(ids_of(#[trigger] body[k])) by {
            assert(body[j] == tree[j + 1]);
            assert(body[k] == tree[k + 1]);
        }
    }
}

/// A group with a node that the matcher does not evaluate is not
/// evaluated either.
pub proof fn lemma_unsupported_member(options: Seq<Seq<Node>>, id: u32, i: int, j: int)
    requires
        0 <= i < options.len(),
        0 <= j < options[i].len(),
        !supported(options[i][j]),
    ensures
        !supported(Node::CaptureGroup { options, id }),
{
    let group = Node::CaptureGroup { options, id };
    if supported(group) {
        assert(supported(group->options[i][j]));
    }
}

/// The ids in the tail of a pattern are ids of the pattern.
pub proof fn lemma_ids_in_tail(pattern: Seq<Node>)
    requires
        pattern.len() > 0,
    ensures
        ids_in(pattern.skip(1)).subset_of(ids_in(pattern)),
        ids_of(pattern[0]).subset_of(ids_in(pattern)),
{
    let rest = pattern.skip(1);
    assert forall|x: u32| ids_in(rest).contains(x) implies ids_in(pattern).contains(x) by {
        let j = choose|j: int| 0 <= j < rest.len() && #[trigger] ids_of(rest[j]).contains(x);
        assert(rest[j] == pattern[j + 1]);
        assert(ids_of(pattern[j + 1]).contains(x));
    }
    assert forall|x: u32| ids_of(pattern[0]).contains(x) implies ids_in(pattern).contains(x) by {
        assert(ids_of(pattern[0]).contains(x));
    }
}

/// The ids of a pattern whose zero-or-one head was replaced by the node
/// it holds are ids of the pattern.
pub proof fn lemma_ids_in_once(pattern: Seq<Node>)
    requires
        pattern.len() > 0,
        pattern[0] is ZeroOrOne,
    ensures
        ids_in(seq![*pattern[0]->ZeroOrOne_syntax] + pattern.skip(1)).subset_of(ids_in(pattern)),
{
    let inner = *pattern[0]->ZeroOrOne_syntax;
    let once = seq![inner] + pattern.skip(1);
    assert(ids_of(inner) == ids_of(pattern[0]));
    assert forall|x: u32| ids_in(once).contains(x) implies ids_in(pattern).contains(x) by {
        let j = choose|j: int| 0 <= j < once.len() && #[trigger] ids_of(once[j]).contains(x);
        if j > 0 {
            assert(once[j] == pattern[j]);
        } else {
            assert(once[j] == inner);
        }
        assert(ids_of(pattern[j]).contains(x));
    }
}

/// The ids of a pattern whose group head was replaced by one of its
/// alternatives and the marker that closes it are ids of the pattern.
pub proof fn lemma_ids_in_option(pattern: Seq<Node>, index: int, text: Seq<char>)
    requires
        pattern.len() > 0,
        pattern[0] is CaptureGroup,
        0 <= index < pattern[0]->options.len(),
    ensures
        ids_in(
            pattern[0]->options[index] + seq![
                Node::CaptureGroupEnd { text, id: pattern[0]->CaptureGroup_id },
            ] + pattern.skip(1),
        ).subset_of(ids_in(pattern)),
{
    let options = pattern[0]->options;
    let id = pattern[0]->CaptureGroup_id;
    let option = options[index];
    let end = Node::CaptureGroupEnd { text, id };
    let total = option + seq![end] + pattern.skip(1);
    let n = option.len() as int;
    assert(ids_of(pattern[0]).contains(id));
    assert forall|x: u32| ids_in(total).contains(x) implies ids_in(pattern).contains(x) by {
        let j = choose|j: int| 0 <= j < total.len() && #[trigger] ids_of(total[j]).contains(x);
        if j < n {
            assert(total[j] == options[index][j]);
            assert(ids_of(options[index][j]).contains(x));
            assert(ids_of(pattern[0]).contains(x));
        } else if j == n {
            assert(total[j] == end);
            assert(ids_of(pattern[0]).contains(x));
        } else {
            assert(total[j] == pattern[j - n]);
            assert(ids_of(pattern[j - n]).contains(x));
        }
    }
}

/// A match keeps the bindings it started with, and binds besides them
/// only ids of groups of the pattern.
pub proof fn lemma_match_here_extends_bindings(
    text: Seq<char>,
    pattern: Seq<Node>,
    bindings: Map<u32, Seq<char>>,
)
    requires
        matchable(text, pattern, bindings),
    ensures
        spec_match_here(text, pattern, bindings) matches Some((_, after)) ==> bindings.submap_of(
            after,
        ) && after.dom().subset_of(bindings.dom() + ids_in(pattern)),
    decreases weight_of(pattern), 0nat, 0nat,
{
    if pattern.len() > 0 {
        let rest = pattern.skip(1);
        lemma_weight_of_head(pattern);
        lemma_ids_in_tail(pattern);
        match pattern[0] {
            Node::OneOrMore { syntax } => {
                if text.len() > 0 && spec_is_match(text[0], *syntax) {
                    lemma_matchable_tail(text, pattern, bindings, text.skip(1));
                    lemma_match_star_extends_bindings(text.skip(1), *syntax, rest, bindings);
                }
            },
            Node::ZeroOrOne { syntax } => {
                lemma_weight_of_concat(seq![*syntax], rest);
                lemma_weight_of_single(*syntax);
                lemma_matchable_once(text, pattern, bindings);
                lemma_ids_in_once(pattern);
                lemma_matchable_tail(text, pattern, bindings, text);
                lemma_match_here_extends_bindings(text, seq![*syntax] + rest, bindings);
                lemma_match_here_extends_bindings(text, rest, bindings);
            },
            Node::CaptureGroup { options, id } => {
                lemma_match_options_extends_bindings(text, pattern, bindings, 0);
            },
            Node::CaptureGroupEnd { text: start, id } => {
                let captured = start.take(start.len() - text.len());
                lemma_matchable_bound(text, pattern, bindings, captured);
                let bound = bindings.insert(id, captured);
                lemma_match_here_extends_bindings(text, rest, bound);
                if let Some((_, after)) = spec_match_here(text, rest, bound) {
                    assert(bindings.submap_of(after)) by {
                        assert forall|k: u32| #[trigger]
                            bindings.dom().contains(k) implies after.dom().contains(k) && after[k]
                            == bindings[k] by {
                            assert(bound.dom().contains(k));
                            assert(after.dom().contains(k));
                        }
                    }
                    assert(after.dom().subset_of(bindings.dom() + ids_in(pattern))) by {
                        assert forall|k: u32| after.dom().contains(k) implies (bindings.dom()
                            + ids_in(pattern)).contains(k) by {
                            assert(ids_of(pattern[0]).contains(id));
                            if !bound.dom().contains(k) {
                                assert(ids_in(rest).contains(k));
                            }
                        }
                    }
                }
            },
            Node::BackReference { id } => {
                if bindings.contains_key(id) && bindings[id].is_prefix_of(text) {
                    let shorter = text.skip(bindings[id].len() as int);
                    lemma_matchable_tail(text, pattern, bindings, shorter);
                    lemma_match_here_extends_bindings(shorter, rest, bindings);
                }
            },
            Node::EndOfLineAnchor => {},
            Node::StartOfLineAnchor => {},
            node => {
                if text.len() > 0 && spec_is_match(text[0], node) {
                    lemma_matchable_tail(text, pattern, bindings, text.skip(1));
                    lemma_match_here_extends_bindings(text.skip(1), rest, bindings);
                }
            },
        }
    }
}

/// The repetitions after the first, with the rest of the pattern, keep
/// the bindings they started with, and bind besides them only ids of
/// groups of the rest.
pub proof fn lemma_match_star_extends_bindings(
    text: Seq<char>,
    syntax: Node,
    remainder: Seq<Node>,
    bindings: Map<u32, Seq<char>>,
)
    requires
        matchable(text, remainder, bindings),
    ensures
        spec_match_star(text, syntax, remainder, bindings) matches Some((_, after))
            ==> bindings.submap_of(after) && after.dom().subset_of(
            bindings.dom() + ids_in(remainder),
        ),
    decreases weight_of(remainder), 1nat, text.len(),
{
    lemma_match_here_extends_bindings(text, remainder, bindings);
    if spec_match_here(text, remainder, bindings) is None && text.len() > 0 && spec_is_match(
        text[0],
        syntax,
    ) {
        lemma_matchable_shorter(text, remainder, bindings, text.skip(1));
        lemma_match_star_extends_bindings(text.skip(1), syntax, remainder, bindings);
    }
}

/// The alternatives of the group at the head of `pattern`, from the
/// `index`-th on, keep the bindings they started with, and bind besides
/// them only ids of groups of the pattern.
pub proof fn lemma_match_options_extends_bindings(
    text: Seq<char>,
    pattern: Seq<Node>,
    bindings: Map<u32, Seq<char>>,
    index: nat,
)
    requires
        matchable(text, pattern, bindings),
        pattern.len() > 0,
        pattern[0] is CaptureGroup,
    ensures
        spec_match_options(
            text,
            pattern[0]->options,
            pattern[0]->CaptureGroup_id,
            pattern.skip(1),
            bindings,
            index,
        ) matches Some((_, after)) ==> bindings.submap_of(after) && after.dom().subset_of(
            bindings.dom() + ids_in(pattern),
        ),
    decreases weight_of_options(pattern[0]->options, pattern[0]->options.len()) + 1 + weight_of(
        pattern.skip(1),
    ), 1nat, pattern[0]->options.len() - index,
{
    let options = pattern[0]->options;
    let id = pattern[0]->CaptureGroup_id;
    let remainder = pattern.skip(1);
    if index < options.len() {
        let end = Node::CaptureGroupEnd { text, id };
        lemma_weight_of_expansion(options[index as int], end, remainder);
        lemma_weight_of_option(options, options.len(), index as int);
        lemma_matchable_option(text, pattern, bindings, index as int);
        lemma_ids_in_option(pattern, index as int, text);
        lemma_match_here_extends_bindings(
            text,
            options[index as int] + seq![end] + remainder,
            bindings,
        );
        lemma_match_options_extends_bindings(text, pattern, bindings, index + 1);
    }
}

} // verus!
