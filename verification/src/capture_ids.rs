//! The ids of capture groups: which ids a pattern holds, and that the
//! parser gives every group an id of its own.

use crate::syntax::{
    lemma_scan_bar_range, lemma_scan_brackets_range, spec_class_chars, spec_find_closing_bracket,
    spec_find_top_level_bar, spec_parse, spec_parse_core, spec_parse_escape, spec_parse_items,
    spec_parse_options, BracketKind, Node,
};
use crate::tokens::Token;
use vstd::prelude::*;

verus! {

/// The ids of the capture groups that a node holds, those of closing
/// markers included.
pub open spec fn ids_of(node: Node) -> Set<u32>
    decreases node,
{
    match node {
        Node::OneOrMore { syntax } => ids_of(*syntax),
        Node::ZeroOrOne { syntax } => ids_of(*syntax),
        Node::CaptureGroup { options, id } => Set::new(
            |x: u32|
                x == id || exists|i: int, j: int|
                    0 <= i < options.len() && 0 <= j < options[i].len() && ids_of(
                        #[trigger] options[i][j],
                    ).contains(x),
        ),
        Node::CaptureGroupEnd { id, .. } => Set::empty().insert(id),
        _ => Set::empty(),
    }
}

/// The ids of the capture groups that a pattern holds.
pub open spec fn ids_in(pattern: Seq<Node>) -> Set<u32> {
    Set::new(
        |x: u32| exists|j: int| 0 <= j < pattern.len() && #[trigger] ids_of(pattern[j]).contains(x),
    )
}

/// No id occurs twice along any way through the node: a group's id is not
/// used inside the group, and the nodes of one alternative share no id.
pub open spec fn distinct_ids(node: Node) -> bool
    decreases node,
{
    match node {
        Node::OneOrMore { syntax } => distinct_ids(*syntax),
        Node::ZeroOrOne { syntax } => distinct_ids(*syntax),
        Node::CaptureGroup { options, id } => {
            &&& forall|i: int, j: int|
                0 <= i < options.len() && 0 <= j < options[i].len() ==> distinct_ids(
                    #[trigger] options[i][j],
                ) && !ids_of(options[i][j]).contains(id)
            &&& forall|i: int, j: int, k: int|
                0 <= i < options.len() && 0 <= j < k < options[i].len() ==> ids_of(
                    #[trigger] options[i][j],
                ).disjoint(ids_of(#[trigger] options[i][k]))
        },
        _ => true,
    }
}

/// No id occurs twice along any way through the pattern.
pub open spec fn distinct_in(pattern: Seq<Node>) -> bool {
    &&& forall|j: int| 0 <= j < pattern.len() ==> distinct_ids(#[trigger] pattern[j])
    &&& forall|j: int, k: int|
        0 <= j < k < pattern.len() ==> ids_of(#[trigger] pattern[j]).disjoint(
            ids_of(#[trigger] pattern[k]),
        )
}

/// Every id of `lower` is below every id of `upper`.
pub open spec fn ids_below(lower: Set<u32>, upper: Set<u32>) -> bool {
    forall|x: u32, y: u32| lower.contains(x) && upper.contains(y) ==> x < y
}

/// The ids inside the node grow in the order in which the groups open: a
/// group has a lower id than the groups inside it, and a group that opens
/// before another, in the same alternative or in an earlier one, has the
/// lower ids.
pub open spec fn opens_in_order(node: Node) -> bool
    decreases node,
{
    match node {
        Node::OneOrMore { syntax } => opens_in_order(*syntax),
        Node::ZeroOrOne { syntax } => opens_in_order(*syntax),
        Node::CaptureGroup { options, id } => {
            &&& forall|i: int, j: int|
                0 <= i < options.len() && 0 <= j < options[i].len() ==> opens_in_order(
                    #[trigger] options[i][j],
                ) && ids_below(Set::empty().insert(id), ids_of(options[i][j]))
            &&& forall|i: int, j: int, a: int, b: int|
                0 <= i < options.len() && 0 <= j < options[i].len() && 0 <= a < options.len() && 0
                    <= b < options[a].len() && (i < a || (i == a && j < b)) ==> ids_below(
                    ids_of(#[trigger] options[i][j]),
                    ids_of(#[trigger] options[a][b]),
                )
        },
        _ => true,
    }
}

/// The ids in the pattern grow in the order in which the groups open.
pub open spec fn in_opening_order(pattern: Seq<Node>) -> bool {
    &&& forall|j: int| 0 <= j < pattern.len() ==> opens_in_order(#[trigger] pattern[j])
    &&& forall|j: int, k: int|
        0 <= j < k < pattern.len() ==> ids_below(
            ids_of(#[trigger] pattern[j]),
            ids_of(#[trigger] pattern[k]),
        )
}

/// No id occurs twice along any way through `pattern`, the ids grow in
/// the order in which the groups open, and every id lies above `low` and
/// not above `high`.
pub open spec fn numbered_within(pattern: Seq<Node>, low: u32, high: u32) -> bool {
    &&& distinct_in(pattern)
    &&& in_opening_order(pattern)
    &&& forall|x: u32| ids_in(pattern).contains(x) ==> low < x <= high
}

/// A node whose ids are new may be added at the end of a pattern.
pub proof fn lemma_push_numbered(syntax: Seq<Node>, node: Node, low: u32, id: u32, next: u32)
    requires
        numbered_within(syntax, low, id),
        low <= id <= next,
        distinct_ids(node),
        opens_in_order(node),
        forall|x: u32| ids_of(node).contains(x) ==> id < x <= next,
    ensures
        numbered_within(syntax.push(node), low, next),
{
    let longer = syntax.push(node);
    assert forall|j: int| 0 <= j < syntax.len() implies longer[j] == syntax[j] && forall|x: u32|
        ids_of(#[trigger] longer[j]).contains(x) ==> low < x <= id by {
        assert forall|x: u32| ids_of(syntax[j]).contains(x) implies low < x <= id by {
            assert(ids_in(syntax).contains(x));
        }
    }
    assert(longer[syntax.len() as int] == node);
    assert forall|j: int| 0 <= j < longer.len() implies distinct_ids(#[trigger] longer[j]) by {
        if j < syntax.len() {
            assert(longer[j] == syntax[j]);
        }
    }
    assert forall|j: int, k: int| 0 <= j < k < longer.len() implies ids_of(
        #[trigger] longer[j],
    ).disjoint(ids_of(#[trigger] longer[k])) && ids_below(ids_of(longer[j]), ids_of(longer[k])) by {
        if k < syntax.len() {
            assert(longer[j] == syntax[j]);
            assert(longer[k] == syntax[k]);
        } else {
            assert(longer[k] == node);
            assert(forall|x: u32| ids_of(longer[j]).contains(x) ==> low < x <= id);
        }
    }
    assert forall|j: int| 0 <= j < longer.len() implies opens_in_order(#[trigger] longer[j]) by {
        if j < syntax.len() {
            assert(longer[j] == syntax[j]);
        }
    }
    assert forall|x: u32| ids_in(longer).contains(x) implies low < x <= next by {
        let j = choose|j: int| 0 <= j < longer.len() && #[trigger] ids_of(longer[j]).contains(x);
        if j < syntax.len() {
            assert(forall|y: u32| ids_of(longer[j]).contains(y) ==> low < y <= id);
        }
    }
}

/// The last node of a pattern may be replaced by one with the same ids.
pub proof fn lemma_wrap_numbered(syntax: Seq<Node>, wrapped: Node, low: u32, id: u32)
    requires
        numbered_within(syntax, low, id),
        syntax.len() > 0,
        ids_of(wrapped) == ids_of(syntax.last()),
        distinct_ids(syntax.last()) ==> distinct_ids(wrapped),
        opens_in_order(syntax.last()) ==> opens_in_order(wrapped),
    ensures
        numbered_within(syntax.drop_last().push(wrapped), low, id),
{
    let changed = syntax.drop_last().push(wrapped);
    assert(changed.len() == syntax.len());
    assert forall|j: int| 0 <= j < changed.len() implies ids_of(#[trigger] changed[j]) == ids_of(
        syntax[j],
    ) && (distinct_ids(syntax[j]) ==> distinct_ids(changed[j])) && (opens_in_order(syntax[j])
        ==> opens_in_order(changed[j])) by {
        if j < changed.len() - 1 {
            assert(changed[j] == syntax[j]);
        } else {
            assert(changed[j] == wrapped);
        }
    }
    assert forall|j: int, k: int| 0 <= j < k < changed.len() implies ids_of(
        #[trigger] changed[j],
    ).disjoint(ids_of(#[trigger] changed[k])) && ids_below(
        ids_of(changed[j]),
        ids_of(changed[k]),
    ) by {
        assert(ids_of(syntax[j]).disjoint(ids_of(syntax[k])));
        assert(ids_below(ids_of(syntax[j]), ids_of(syntax[k])));
    }
    assert forall|x: u32| ids_in(changed).contains(x) implies low < x <= id by {
        let j = choose|j: int| 0 <= j < changed.len() && #[trigger] ids_of(changed[j]).contains(x);
        assert(ids_of(syntax[j]).contains(x));
        assert(ids_in(syntax).contains(x));
    }
}

/// A group whose alternatives hold only ids above its own, and earlier
/// alternatives lower ids than later ones, has an id of its own, and its
/// ids grow in the order in which the groups open.
pub proof fn lemma_group_numbered(options: Seq<Seq<Node>>, id: u32, next: u32)
    requires
        id <= next,
        forall|i: int| 0 <= i < options.len() ==> numbered_within(#[trigger] options[i], id, next),
        forall|i: int, a: int|
            0 <= i < a < options.len() ==> ids_below(
                ids_in(#[trigger] options[i]),
                ids_in(#[trigger] options[a]),
            ),
    ensures
        distinct_ids(Node::CaptureGroup { options, id }),
        opens_in_order(Node::CaptureGroup { options, id }),
        forall|x: u32| ids_of(Node::CaptureGroup { options, id }).contains(x) ==> id <= x <= next,
{
    let group = Node::CaptureGroup { options, id };
    assert forall|i: int, j: int| 0 <= i < options.len() && 0 <= j < options[i].len() implies (
    forall|x: u32| ids_of(#[trigger] options[i][j]).contains(x) ==> id < x <= next) by {
        assert(numbered_within(options[i], id, next));
        assert forall|x: u32| ids_of(options[i][j]).contains(x) implies id < x <= next by {
            assert(ids_in(options[i]).contains(x));
        }
    }
    assert forall|i: int, j: int|
        0 <= i < options.len() && 0 <= j < options[i].len() implies distinct_ids(
        #[trigger] options[i][j],
    ) && !ids_of(options[i][j]).contains(id) by {
        assert(numbered_within(options[i], id, next));
    }
    assert forall|i: int, j: int, k: int|
        0 <= i < options.len() && 0 <= j < k < options[i].len() implies ids_of(
        #[trigger] options[i][j],
    ).disjoint(ids_of(#[trigger] options[i][k])) by {
        assert(numbered_within(options[i], id, next));
    }
    assert forall|i: int, j: int|
        0 <= i < options.len() && 0 <= j < options[i].len() implies opens_in_order(
        #[trigger] options[i][j],
    ) && ids_below(Set::empty().insert(id), ids_of(options[i][j])) by {
        assert(numbered_within(options[i], id, next));
    }
    assert forall|i: int, j: int, a: int, b: int|
        0 <= i < options.len() && 0 <= j < options[i].len() && 0 <= a < options.len() && 0 <= b
            < options[a].len() && (i < a || (i == a && j < b)) implies ids_below(
        ids_of(#[trigger] options[i][j]),
        ids_of(#[trigger] options[a][b]),
    ) by {
        assert(numbered_within(options[i], id, next));
        if i < a {
            assert(ids_below(ids_in(options[i]), ids_in(options[a])));
            assert forall|x: u32, y: u32|
                ids_of(options[i][j]).contains(x) && ids_of(options[a][b]).contains(
                    y,
                ) implies x < y by {
                assert(ids_in(options[i]).contains(x));
                assert(ids_in(options[a]).contains(y));
            }
        }
    }
}

/// The node that an escape stands for holds no capture group.
pub proof fn lemma_escape_has_no_ids(escapee: Token)
    ensures
        spec_parse_escape(escapee) matches Ok(node) ==> distinct_ids(node) && opens_in_order(node)
            && ids_of(node) =~= Set::<u32>::empty(),
{
}

/// Reading items keeps the ids apart: the ids of the nodes that are added
/// lie above the counter they were read with, and not above the counter
/// that results.
pub proof fn lemma_parse_items_numbered(
    remainder: Seq<Token>,
    syntax: Seq<Node>,
    low: u32,
    id: u32,
)
    requires
        low <= id,
        numbered_within(syntax, low, id),
    ensures
        spec_parse_items(remainder, syntax, id) matches Ok((tree, next)) ==> id <= next
            && numbered_within(tree, low, next),
    decreases remainder.len(), 0nat,
{
    if remainder.len() > 0 {
        match remainder[0] {
            Token::OpenSquareBracket => {
                if let Some(end) = spec_find_closing_bracket(remainder) {
                    lemma_scan_brackets_range(
                        remainder,
                        BracketKind::SquareBracket,
                        1,
                        Seq::empty(),
                    );
                    let class = remainder.subrange(1, end);
                    let is_negated = class.len() > 0 && class[0] == Token::Caret;
                    let members = if is_negated {
                        class.skip(1)
                    } else {
                        class
                    };
                    if let Some(chars) = spec_class_chars(members) {
                        let node = Node::CharacterClass { chars, is_negated };
                        lemma_push_numbered(syntax, node, low, id, id);
                        lemma_parse_items_numbered(
                            remainder.skip(end + 1),
                            syntax.push(node),
                            low,
                            id,
                        );
                    }
                }
            },
            Token::OpenBracket => {
                if let Some(end) = spec_find_closing_bracket(remainder) {
                    lemma_scan_brackets_range(remainder, BracketKind::Bracket, 1, Seq::empty());
                    if id != u32::MAX {
                        let group_id = (id + 1) as u32;
                        lemma_parse_options_numbered(remainder.subrange(1, end), group_id);
                        if let Ok((options, next_id)) = spec_parse_options(
                            remainder.subrange(1, end),
                            group_id,
                        ) {
                            let node = Node::CaptureGroup { options, id: group_id };
                            lemma_group_numbered(options, group_id, next_id);
                            lemma_push_numbered(syntax, node, low, id, next_id);
                            lemma_parse_items_numbered(
                                remainder.skip(end + 1),
                                syntax.push(node),
                                low,
                                next_id,
                            );
                        }
                    }
                }
            },
            Token::Backslash => {
                if remainder.len() >= 2 {
                    lemma_escape_has_no_ids(remainder[1]);
                    if let Ok(node) = spec_parse_escape(remainder[1]) {
                        lemma_push_numbered(syntax, node, low, id, id);
                        lemma_parse_items_numbered(remainder.skip(2), syntax.push(node), low, id);
                    }
                }
            },
            Token::Dot => {
                lemma_push_numbered(syntax, Node::Wildcard, low, id, id);
                lemma_parse_items_numbered(
                    remainder.skip(1),
                    syntax.push(Node::Wildcard),
                    low,
                    id,
                );
            },
            Token::Dollar => {
                lemma_push_numbered(syntax, Node::EndOfLineAnchor, low, id, id);
                lemma_parse_items_numbered(
                    remainder.skip(1),
                    syntax.push(Node::EndOfLineAnchor),
                    low,
                    id,
                );
            },
            Token::Plus => {
                if syntax.len() > 0 {
                    let node = Node::OneOrMore { syntax: Box::new(syntax.last()) };
                    assert(distinct_in(syntax));
                    lemma_wrap_numbered(syntax, node, low, id);
                    lemma_parse_items_numbered(
                        remainder.skip(1),
                        syntax.drop_last().push(node),
                        low,
                        id,
                    );
                }
            },
            Token::QuestionMark => {
                if syntax.len() > 0 {
                    let node = Node::ZeroOrOne { syntax: Box::new(syntax.last()) };
                    assert(distinct_in(syntax));
                    lemma_wrap_numbered(syntax, node, low, id);
                    lemma_parse_items_numbered(
                        remainder.skip(1),
                        syntax.drop_last().push(node),
                        low,
                        id,
                    );
                }
            },
            Token::Literal(c) => {
                let node = Node::Literal { char: c };
                lemma_push_numbered(syntax, node, low, id, id);
                lemma_parse_items_numbered(remainder.skip(1), syntax.push(node), low, id);
            },
            _ => {},
        }
    }
}

/// The ids of a parsed pattern lie above the counter it was parsed with
/// and not above the counter that results, and no id is given out twice.
pub proof fn lemma_parse_core_numbered(pattern: Seq<Token>, id: u32)
    ensures
        spec_parse_core(pattern, id) matches Ok((tree, next)) ==> id <= next && numbered_within(
            tree,
            id,
            next,
        ),
    decreases pattern.len(), 1nat,
{
    let none = Seq::<Node>::empty();
    assert(numbered_within(none, id, id));
    if pattern.len() > 0 && pattern[0] == Token::Caret {
        lemma_push_numbered(none, Node::StartOfLineAnchor, id, id, id);
        assert(none.push(Node::StartOfLineAnchor) =~= seq![Node::StartOfLineAnchor]);
        lemma_parse_items_numbered(pattern.skip(1), seq![Node::StartOfLineAnchor], id, id);
    } else {
        lemma_parse_items_numbered(pattern, none, id, id);
    }
}

/// The ids of the alternatives of a group lie above the counter they
/// were parsed with; within each alternative no id occurs twice.
pub proof fn lemma_parse_options_numbered(tokens: Seq<Token>, id: u32)
    ensures
        spec_parse_options(tokens, id) matches Ok((options, next)) ==> {
            &&& id <= next
            &&& forall|i: int|
                0 <= i < options.len() ==> numbered_within(#[trigger] options[i], id, next)
            &&& forall|i: int, a: int|
                0 <= i < a < options.len() ==> ids_below(
                    ids_in(#[trigger] options[i]),
                    ids_in(#[trigger] options[a]),
                )
        },
    decreases tokens.len(), 2nat,
{
    match spec_find_top_level_bar(tokens) {
        None => {
            lemma_parse_core_numbered(tokens, id);
        },
        Some(bar) => {
            lemma_scan_bar_range(tokens, 0, 0);
            lemma_parse_core_numbered(tokens.take(bar), id);
            if let Ok((option, next_id)) = spec_parse_core(tokens.take(bar), id) {
                lemma_parse_options_numbered(tokens.skip(bar + 1), next_id);
                if let Ok((more, last_id)) = spec_parse_options(tokens.skip(bar + 1), next_id) {
                    let options = seq![option] + more;
                    assert forall|i: int| 0 <= i < options.len() implies numbered_within(
                        #[trigger] options[i],
                        id,
                        last_id,
                    ) by {
                        if i > 0 {
                            assert(options[i] == more[i - 1]);
                            assert(numbered_within(more[i - 1], next_id, last_id));
                        } else {
                            assert(options[i] == option);
                        }
                    }
                    assert forall|i: int, a: int| 0 <= i < a < options.len() implies ids_below(
                        ids_in(#[trigger] options[i]),
                        ids_in(#[trigger] options[a]),
                    ) by {
                        assert(options[a] == more[a - 1]);
                        assert(numbered_within(more[a - 1], next_id, last_id));
                        if i > 0 {
                            assert(options[i] == more[i - 1]);
                            assert(ids_below(ids_in(more[i - 1]), ids_in(more[a - 1])));
                        } else {
                            assert(options[i] == option);
                        }
                    }
                }
            }
        },
    }
}

/// In a pattern that parses, every capture group has an id of its own,
/// from 1 on, and the ids grow in the order in which the groups open.
pub proof fn theorem_groups_are_numbered_as_they_open(tokens: Seq<Token>)
    ensures
        spec_parse(tokens) matches Ok(tree) ==> distinct_in(tree) && in_opening_order(tree)
            && forall|x: u32| ids_in(tree).contains(x) ==> x >= 1,
{
    lemma_parse_core_numbered(tokens, 0);
}

} // verus!
