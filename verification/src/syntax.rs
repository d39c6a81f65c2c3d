//! The pattern tree and the parser that builds it from tokens.

use crate::capture_ids::{
    distinct_in, in_opening_order, theorem_groups_are_numbered_as_they_open,
};
use crate::patterns::{decimal_digit, spec_decimal_digit};
use crate::tokens::Token;
use std::collections::VecDeque;
use vstd::prelude::*;
use vstd::slice::slice_subrange;

verus! {

/// A node of a pattern tree. A pattern is a sequence of nodes.
#[derive(Debug, PartialEq)]
pub enum Syntax {
    /// Matches a single specified character.
    Literal { char: char },
    /// Matches a single digit. Equivalent to \[0-9\]
    Digit,
    /// Matches a single word character. Equivalent to \[a-zA-Z0-9_\].
    Word,
    /// Matches any single character.
    Wildcard,
    /// Matches any one of the specified characters.
    CharacterClass { chars: Vec<char>, is_negated: bool },
    /// Matches the start of a line.
    StartOfLineAnchor,
    /// Matches the end of a line.
    EndOfLineAnchor,
    /// Matches the contained syntax one or more times.
    OneOrMore { syntax: Box<Syntax> },
    /// Matches the contained syntax zero or one time.
    ZeroOrOne { syntax: Box<Syntax> },
    /// Matches either of the contained syntax options.
    CaptureGroup { options: Vec<Vec<Syntax>>, id: u32 },
    /// Artificial syntax to finalize capture groups: `text` is the text
    /// that was left when the group was entered.
    CaptureGroupEnd { text: String, id: u32 },
    /// References an already matched capture group by id.
    BackReference { id: u32 },
}

/// The mathematical value of a pattern node.
pub enum Node {
    Literal { char: char },
    Digit,
    Word,
    Wildcard,
    CharacterClass { chars: Seq<char>, is_negated: bool },
    StartOfLineAnchor,
    EndOfLineAnchor,
    OneOrMore { syntax: Box<Node> },
    ZeroOrOne { syntax: Box<Node> },
    CaptureGroup { options: Seq<Seq<Node>>, id: u32 },
    CaptureGroupEnd { text: Seq<char>, id: u32 },
    BackReference { id: u32 },
}

/// The value of a node of the pattern tree.
pub open spec fn node_of(s: Syntax) -> Node
    decreases s,
{
    match s {
        Syntax::Literal { char } => Node::Literal { char },
        Syntax::Digit => Node::Digit,
        Syntax::Word => Node::Word,
        Syntax::Wildcard => Node::Wildcard,
        Syntax::CharacterClass { chars, is_negated } => Node::CharacterClass {
            chars: chars@,
            is_negated,
        },
        Syntax::StartOfLineAnchor => Node::StartOfLineAnchor,
        Syntax::EndOfLineAnchor => Node::EndOfLineAnchor,
        Syntax::OneOrMore { syntax } => Node::OneOrMore { syntax: Box::new(node_of(*syntax)) },
        Syntax::ZeroOrOne { syntax } => Node::ZeroOrOne { syntax: Box::new(node_of(*syntax)) },
        Syntax::CaptureGroup { options, id } => Node::CaptureGroup {
            options: Seq::new(
                options@.len(),
                |i: int|
                    if 0 <= i < options@.len() {
                        Seq::new(
                            options@[i]@.len(),
                            |j: int|
                                if 0 <= j < options@[i]@.len() {
                                    node_of(options@[i]@[j])
                                } else {
                                    Node::Digit
                                },
                        )
                    } else {
                        Seq::empty()
                    },
            ),
            id,
        },
        Syntax::CaptureGroupEnd { text, id } => Node::CaptureGroupEnd { text: text@, id },
        Syntax::BackReference { id } => Node::BackReference { id },
    }
}

impl View for Syntax {
    type V = Node;

    open spec fn view(&self) -> Node {
        node_of(*self)
    }
}

/// The value of a sequence of nodes.
pub open spec fn nodes(pattern: Seq<Syntax>) -> Seq<Node> {
    Seq::new(pattern.len(), |i: int| pattern[i]@)
}

/// The value of a list of alternatives.
pub open spec fn alternatives(options: Seq<Vec<Syntax>>) -> Seq<Seq<Node>> {
    Seq::new(options.len(), |i: int| nodes(options[i]@))
}

impl Clone for Syntax {
    /// A deep copy: the copy has the same value as the node it was made of.
    fn clone(&self) -> (res: Self)
        ensures
            res@ == self@,
        decreases self,
    {
        broadcast use vstd::std_specs::vec::axiom_vec_index_decreases;

        match self {
            Syntax::Literal { char } => Syntax::Literal { char: *char },
            Syntax::Digit => Syntax::Digit,
            Syntax::Word => Syntax::Word,
            Syntax::Wildcard => Syntax::Wildcard,
            Syntax::CharacterClass { chars, is_negated } => {
                let mut copy: Vec<char> = Vec::new();
                let mut k: usize = 0;
                while k < chars.len()
                    invariant
                        k <= chars.len(),
                        copy@ == chars@.take(k as int),
                    decreases chars.len() - k,
                {
                    copy.push(chars[k]);
                    assert(chars@.take(k + 1) =~= chars@.take(k as int).push(chars@[k as int]));
                    k += 1;
                }
                assert(copy@ =~= chars@);
                Syntax::CharacterClass { chars: copy, is_negated: *is_negated }
            },
            Syntax::StartOfLineAnchor => Syntax::StartOfLineAnchor,
            Syntax::EndOfLineAnchor => Syntax::EndOfLineAnchor,
            Syntax::OneOrMore { syntax } => Syntax::OneOrMore {
                syntax: Box::new((&**syntax).clone()),
            },
            Syntax::ZeroOrOne { syntax } => Syntax::ZeroOrOne {
                syntax: Box::new((&**syntax).clone()),
            },
            Syntax::CaptureGroup { options, id } => {
                let mut copies: Vec<Vec<Syntax>> = Vec::new();
                let mut i: usize = 0;
                while i < options.len()
                    invariant
                        i <= options.len(),
                        copies@.len() == i,
                        forall|a: int| 0 <= a < i ==> nodes(#[trigger] copies@[a]@) == nodes(options@[a]@),
                        self == (Syntax::CaptureGroup { options: *options, id: *id }),
                    decreases options.len() - i,
                {
                    let option = &options[i];
                    let mut copy: Vec<Syntax> = Vec::new();
                    let mut j: usize = 0;
                    while j < option.len()
                        invariant
                            j <= option.len(),
                            i < options.len(),
                            option == options@[i as int],
                            copy@.len() == j,
                            forall|b: int| 0 <= b < j ==> (#[trigger] copy@[b])@ == option@[b]@,
                            self == (Syntax::CaptureGroup { options: *options, id: *id }),
                        decreases option.len() - j,
                    {
                        assert(decreases_to!(*self => self->options));
                        assert(decreases_to!(self->options => options[i as int]));
                        assert(decreases_to!(option => option[j as int]));
                        copy.push(option[j].clone());
                        j += 1;
                    }
                    assert(nodes(copy@) =~= nodes(option@));
                    copies.push(copy);
                    i += 1;
                }
                let res = Syntax::CaptureGroup { options: copies, id: *id };
                assert(res@ == self@) by {
                    assert(alternatives(copies@) =~= alternatives(options@));
                    lemma_view_capture_group(res);
                    lemma_view_capture_group(*self);
                }
                res
            },
            Syntax::CaptureGroupEnd { text, id } => Syntax::CaptureGroupEnd {
                text: text.clone(),
                id: *id,
            },
            Syntax::BackReference { id } => Syntax::BackReference { id: *id },
        }
    }
}

/// The value of a capture group, said with `alternatives`.
pub proof fn lemma_view_capture_group(s: Syntax)
    requires
        s is CaptureGroup,
    ensures
        s@ == (Node::CaptureGroup {
            options: alternatives(s->options@),
            id: s->CaptureGroup_id,
        }),
{
    let options = s->options;
    let got = s@->options;
    assert forall|i: int| 0 <= i < got.len() implies got[i] == alternatives(options@)[i] by {
        assert(got[i] =~= nodes(options@[i]@));
    }
    assert(got =~= alternatives(options@));
}

/// Copies a pattern node by node.
pub fn clone_pattern(pattern: &[Syntax]) -> (res: Vec<Syntax>)
    ensures
        nodes(res@) == nodes(pattern@),
{
    let mut copy: Vec<Syntax> = Vec::new();
    let mut i: usize = 0;
    while i < pattern.len()
        invariant
            i <= pattern.len(),
            copy@.len() == i,
            forall|b: int| 0 <= b < i ==> (#[trigger] copy@[b])@ == pattern@[b]@,
        decreases pattern.len() - i,
    {
        copy.push(pattern[i].clone());
        i += 1;
    }
    assert(nodes(copy@) =~= nodes(pattern@));
    copy
}

/// Why a token sequence is not a pattern, or not one that can be matched.
#[derive(Debug, PartialEq, Eq, Clone, Copy, Structural)]
pub enum PatternError {
    /// A `[` whose closing `]` is missing or is crossed by another bracket.
    UnterminatedCharacterClass,
    /// A `(` whose closing `)` is missing or is crossed by another bracket.
    UnterminatedCaptureGroup,
    /// Something other than a literal inside a character class.
    InvalidCharacterClassToken,
    /// A backslash at the very end.
    IncompleteEscape,
    /// A backslash before anything but a backslash, `d`, `w` or a decimal
    /// digit.
    UnrecognizedEscape,
    /// A `+` or `?` with nothing before it.
    QuantifierWithoutAtom,
    /// A `)`, `]`, `|` or `^` where no construct takes it.
    UnexpectedToken,
    /// More capture groups than there are ids.
    TooManyCaptureGroups,
    /// The tree parses, but the matcher does not evaluate it: a `+` over
    /// anything but a single-character node, or a start anchor that is not
    /// the first node of the whole pattern.
    Unsupported,
}

/// The two kinds of brackets, which nest independently of each other.
#[derive(Debug, PartialEq, Eq, Clone, Copy, Structural)]
pub enum BracketKind {
    Bracket,
    SquareBracket,
}

pub open spec fn spec_is_opening_bracket(token: Token) -> Option<BracketKind> {
    match token {
        Token::OpenBracket => Some(BracketKind::Bracket),
        Token::OpenSquareBracket => Some(BracketKind::SquareBracket),
        _ => None,
    }
}

pub open spec fn spec_is_closing_bracket(token: Token) -> Option<BracketKind> {
    match token {
        Token::CloseBracket => Some(BracketKind::Bracket),
        Token::CloseSquareBracket => Some(BracketKind::SquareBracket),
        _ => None,
    }
}

pub fn is_opening_bracket(token: &Token) -> (res: Option<BracketKind>)
    ensures
        res == spec_is_opening_bracket(*token),
{
    match token {
        Token::OpenBracket => Some(BracketKind::Bracket),
        Token::OpenSquareBracket => Some(BracketKind::SquareBracket),
        _ => None,
    }
}

pub fn is_closing_bracket(token: &Token) -> (res: Option<BracketKind>)
    ensures
        res == spec_is_closing_bracket(*token),
{
    match token {
        Token::CloseBracket => Some(BracketKind::Bracket),
        Token::CloseSquareBracket => Some(BracketKind::SquareBracket),
        _ => None,
    }
}

/// The search for the bracket that closes a bracket of `kind`, from
/// `index` on, with `open` holding the brackets opened since and not yet
/// closed, innermost last. A closing bracket that meets an open bracket of
/// the other kind, or that would close the first bracket with the wrong
/// kind, ends the search without a result.
pub open spec fn spec_scan_brackets(
    pattern: Seq<Token>,
    kind: BracketKind,
    index: int,
    open: Seq<BracketKind>,
) -> Option<int>
    decreases pattern.len() - index,
{
    if index < 0 || index >= pattern.len() {
        None
    } else {
        let token = pattern[index];
        match spec_is_opening_bracket(token) {
            Some(open_kind) => spec_scan_brackets(pattern, kind, index + 1, open.push(open_kind)),
            None => match spec_is_closing_bracket(token) {
                Some(close_kind) => if open.len() > 0 {
                    if open.last() != close_kind {
                        None
                    } else {
                        spec_scan_brackets(pattern, kind, index + 1, open.drop_last())
                    }
                } else if close_kind == kind {
                    Some(index)
                } else {
                    None
                },
                None => spec_scan_brackets(pattern, kind, index + 1, open),
            },
        }
    }
}

/// The index of the bracket that closes the bracket at the head of
/// `pattern`, if the brackets between the two are balanced.
pub open spec fn spec_find_closing_bracket(pattern: Seq<Token>) -> Option<int>
    recommends
        pattern.len() > 0,
        spec_is_opening_bracket(pattern[0]) is Some,
{
    spec_scan_brackets(pattern, spec_is_opening_bracket(pattern[0])->0, 1, Seq::empty())
}

/// A closing bracket that the search finds lies at or after the index the
/// search started from, inside the pattern, and closes with the right kind.
pub proof fn lemma_scan_brackets_range(
    pattern: Seq<Token>,
    kind: BracketKind,
    index: int,
    open: Seq<BracketKind>,
)
    requires
        0 <= index,
    ensures
        spec_scan_brackets(pattern, kind, index, open) matches Some(end) ==> index <= end
            < pattern.len() && spec_is_closing_bracket(pattern[end]) == Some(kind),
    decreases pattern.len() - index,
{
    if index < pattern.len() {
        let token = pattern[index];
        match spec_is_opening_bracket(token) {
            Some(open_kind) => lemma_scan_brackets_range(
                pattern,
                kind,
                index + 1,
                open.push(open_kind),
            ),
            None => match spec_is_closing_bracket(token) {
                Some(close_kind) => if open.len() > 0 && open.last() == close_kind {
                    lemma_scan_brackets_range(pattern, kind, index + 1, open.drop_last())
                },
                None => lemma_scan_brackets_range(pattern, kind, index + 1, open),
            },
        }
    }
}

/// Finds the bracket that closes the opening bracket at the head of
/// `pattern`.
pub fn find_closing_bracket(pattern: &[Token]) -> (res: Option<usize>)
    requires
        pattern@.len() > 0,
        spec_is_opening_bracket(pattern@[0]) is Some,
    ensures
        match res {
            Some(end) => spec_find_closing_bracket(pattern@) == Some(end as int) && 1 <= end
                < pattern@.len(),
            None => spec_find_closing_bracket(pattern@) is None,
        },
{
    let kind = match is_opening_bracket(&pattern[0]) {
        Some(kind) => kind,
        None => { return None; },
    };
    let mut index: usize = 1;
    let mut brackets: VecDeque<BracketKind> = VecDeque::new();
    while index < pattern.len()
        invariant
            1 <= index <= pattern.len(),
            spec_find_closing_bracket(pattern@) == spec_scan_brackets(
                pattern@,
                kind,
                index as int,
                brackets@,
            ),
        decreases pattern.len() - index,
    {
        let token = &pattern[index];
        if let Some(open_kind) = is_opening_bracket(token) {
            brackets.push_back(open_kind);
        }
        if let Some(close_kind) = is_closing_bracket(token) {
            let last_open_bracket = brackets.pop_back();
            if let Some(open_kind) = last_open_bracket {
                if open_kind != close_kind {
                    return None;
                }
            } else if close_kind == kind {
                return Some(index);
            } else {
                return None;
            }
        }
        index += 1;
    }
    None
}

/// The characters of a character class: every token has to be a literal.
pub open spec fn spec_class_chars(tokens: Seq<Token>) -> Option<Seq<char>> {
    if forall|i: int| 0 <= i < tokens.len() ==> tokens[i] is Literal {
        Some(Seq::new(tokens.len(), |i: int| tokens[i]->Literal_0))
    } else {
        None
    }
}

/// Builds a character class from the tokens between its brackets.
pub fn into_character_class(tokens: &[Token], is_negated: bool) -> (res: Result<
    Syntax,
    PatternError,
>)
    ensures
        match spec_class_chars(tokens@) {
            Some(chars) => res is Ok && res->Ok_0@ == (Node::CharacterClass { chars, is_negated }),
            None => res == Err::<Syntax, PatternError>(PatternError::InvalidCharacterClassToken),
        },
{
    let mut chars: Vec<char> = Vec::new();
    let mut i: usize = 0;
    while i < tokens.len()
        invariant
            i <= tokens.len(),
            chars@.len() == i,
            forall|j: int|
                0 <= j < i ==> (#[trigger] tokens@[j]) is Literal && chars@[j]
                    == tokens@[j]->Literal_0,
        decreases tokens.len() - i,
    {
        let token = tokens[i];
        match token {
            Token::Literal(c) => {
                chars.push(c);
            },
            _ => {
                assert(!(tokens@[i as int] is Literal));
                return Err(PatternError::InvalidCharacterClassToken);
            },
        }
        i += 1;
    }
    assert(forall|j: int| 0 <= j < tokens@.len() ==> (#[trigger] tokens@[j]) is Literal);
    assert(chars@ =~= spec_class_chars(tokens@)->0);
    Ok(Syntax::CharacterClass { chars, is_negated })
}

/// The first `|` from `index` on that no bracket encloses, where `depth`
/// brackets are open at `index`.
pub open spec fn spec_scan_bar(tokens: Seq<Token>, index: int, depth: nat) -> Option<int>
    decreases tokens.len() - index,
{
    if index < 0 || index >= tokens.len() {
        None
    } else if tokens[index] == Token::Bar && depth == 0 {
        Some(index)
    } else if spec_is_opening_bracket(tokens[index]) is Some {
        spec_scan_bar(tokens, index + 1, depth + 1)
    } else if spec_is_closing_bracket(tokens[index]) is Some && depth > 0 {
        spec_scan_bar(tokens, index + 1, (depth - 1) as nat)
    } else {
        spec_scan_bar(tokens, index + 1, depth)
    }
}

/// The first `|` of `tokens` that stands outside every bracket.
pub open spec fn spec_find_top_level_bar(tokens: Seq<Token>) -> Option<int> {
    spec_scan_bar(tokens, 0, 0)
}

/// A bar that the scan finds lies inside the tokens, at or after the start.
pub proof fn lemma_scan_bar_range(tokens: Seq<Token>, index: int, depth: nat)
    requires
        0 <= index,
    ensures
        spec_scan_bar(tokens, index, depth) matches Some(bar) ==> index <= bar < tokens.len()
            && tokens[bar] == Token::Bar,
    decreases tokens.len() - index,
{
    if index < tokens.len() {
        if tokens[index] == Token::Bar && depth == 0 {
        } else if spec_is_opening_bracket(tokens[index]) is Some {
            lemma_scan_bar_range(tokens, index + 1, depth + 1);
        } else if spec_is_closing_bracket(tokens[index]) is Some && depth > 0 {
            lemma_scan_bar_range(tokens, index + 1, (depth - 1) as nat);
        } else {
            lemma_scan_bar_range(tokens, index + 1, depth);
        }
    }
}

/// Finds the first `|` that separates two alternatives of a group: one
/// that is not inside a nested group or class.
pub fn find_top_level_bar(tokens: &[Token]) -> (res: Option<usize>)
    ensures
        match res {
            Some(bar) => spec_find_top_level_bar(tokens@) == Some(bar as int) && bar
                < tokens@.len(),
            None => spec_find_top_level_bar(tokens@) is None,
        },
{
    let mut index: usize = 0;
    let mut depth: usize = 0;
    while index < tokens.len()
        invariant
            index <= tokens.len(),
            depth <= index,
            spec_find_top_level_bar(tokens@) == spec_scan_bar(tokens@, index as int, depth as nat),
        decreases tokens.len() - index,
    {
        let token = &tokens[index];
        if *token == Token::Bar && depth == 0 {
            return Some(index);
        } else if is_opening_bracket(token).is_some() {
            depth += 1;
        } else if is_closing_bracket(token).is_some() && depth > 0 {
            depth -= 1;
        }
        index += 1;
    }
    None
}

/// The node that a backslash and the token after it stand for.
pub open spec fn spec_parse_escape(escapee: Token) -> Result<Node, PatternError> {
    match escapee {
        Token::Backslash => Ok(Node::Literal { char: '\\' }),
        Token::Literal(l) => if l == 'd' {
            Ok(Node::Digit)
        } else if l == 'w' {
            Ok(Node::Word)
        } else {
            match spec_decimal_digit(l) {
                Some(d) => Ok(Node::BackReference { id: d }),
                None => Err(PatternError::UnrecognizedEscape),
            }
        },
        _ => Err(PatternError::UnrecognizedEscape),
    }
}

/// The pattern that a token sequence stands for, with the id counter after
/// it: `id` is the id that was given out last. A leading `^` is the start
/// anchor; the items follow.
pub open spec fn spec_parse_core(pattern: Seq<Token>, id: u32) -> Result<
    (Seq<Node>, u32),
    PatternError,
>
    decreases pattern.len(), 1nat,
{
    if pattern.len() > 0 && pattern[0] == Token::Caret {
        spec_parse_items(pattern.skip(1), seq![Node::StartOfLineAnchor], id)
    } else {
        spec_parse_items(pattern, Seq::empty(), id)
    }
}

/// The pattern that results when the items of `remainder` are read one
/// after the other and added to `syntax`, the nodes read so far.
pub open spec fn spec_parse_items(remainder: Seq<Token>, syntax: Seq<Node>, id: u32) -> Result<
    (Seq<Node>, u32),
    PatternError,
>
    decreases remainder.len(), 0nat,
{
    if remainder.len() == 0 {
        Ok((syntax, id))
    } else {
        match remainder[0] {
            Token::OpenSquareBracket => match spec_find_closing_bracket(remainder) {
                None => Err(PatternError::UnterminatedCharacterClass),
                Some(end) => {
                    proof {
                        lemma_scan_brackets_range(
                            remainder,
                            BracketKind::SquareBracket,
                            1,
                            Seq::empty(),
                        );
                    }
                    let class = remainder.subrange(1, end);
                    let is_negated = class.len() > 0 && class[0] == Token::Caret;
                    let members = if is_negated {
                        class.skip(1)
                    } else {
                        class
                    };
                    match spec_class_chars(members) {
                        None => Err(PatternError::InvalidCharacterClassToken),
                        Some(chars) => spec_parse_items(
                            remainder.skip(end + 1),
                            syntax.push(Node::CharacterClass { chars, is_negated }),
                            id,
                        ),
                    }
                },
            },
            Token::OpenBracket => match spec_find_closing_bracket(remainder) {
                None => Err(PatternError::UnterminatedCaptureGroup),
                Some(end) => {
                    proof {
                        lemma_scan_brackets_range(remainder, BracketKind::Bracket, 1, Seq::empty());
                    }
                    if id == u32::MAX {
                        Err(PatternError::TooManyCaptureGroups)
                    } else {
                        let group_id = (id + 1) as u32;
                        match spec_parse_options(remainder.subrange(1, end), group_id) {
                            Err(e) => Err(e),
                            Ok((options, next_id)) => spec_parse_items(
                                remainder.skip(end + 1),
                                syntax.push(Node::CaptureGroup { options, id: group_id }),
                                next_id,
                            ),
                        }
                    }
                },
            },
            Token::Backslash => if remainder.len() < 2 {
                Err(PatternError::IncompleteEscape)
            } else {
                match spec_parse_escape(remainder[1]) {
                    Err(e) => Err(e),
                    Ok(node) => spec_parse_items(remainder.skip(2), syntax.push(node), id),
                }
            },
            Token::Dot => spec_parse_items(remainder.skip(1), syntax.push(Node::Wildcard), id),
            Token::Dollar => spec_parse_items(
                remainder.skip(1),
                syntax.push(Node::EndOfLineAnchor),
                id,
            ),
            Token::Plus => if syntax.len() == 0 {
                Err(PatternError::QuantifierWithoutAtom)
            } else {
                spec_parse_items(
                    remainder.skip(1),
                    syntax.drop_last().push(Node::OneOrMore { syntax: Box::new(syntax.last()) }),
                    id,
                )
            },
            Token::QuestionMark => if syntax.len() == 0 {
                Err(PatternError::QuantifierWithoutAtom)
            } else {
                spec_parse_items(
                    remainder.skip(1),
                    syntax.drop_last().push(Node::ZeroOrOne { syntax: Box::new(syntax.last()) }),
                    id,
                )
            },
            Token::Literal(c) => spec_parse_items(
                remainder.skip(1),
                syntax.push(Node::Literal { char: c }),
                id,
            ),
            _ => Err(PatternError::UnexpectedToken),
        }
    }
}

/// The alternatives between the brackets of a group: the tokens are cut at
/// each `|` that no nested bracket encloses, and each piece is a pattern of
/// its own. The pieces share the id counter, from left to right.
pub open spec fn spec_parse_options(tokens: Seq<Token>, id: u32) -> Result<
    (Seq<Seq<Node>>, u32),
    PatternError,
>
    decreases tokens.len(), 2nat,
{
    match spec_find_top_level_bar(tokens) {
        None => match spec_parse_core(tokens, id) {
            Err(e) => Err(e),
            Ok((option, next_id)) => Ok((seq![option], next_id)),
        },
        Some(bar) => {
            proof {
                lemma_scan_bar_range(tokens, 0, 0);
            }
            match spec_parse_core(tokens.take(bar), id) {
                Err(e) => Err(e),
                Ok((option, next_id)) => match spec_parse_options(tokens.skip(bar + 1), next_id) {
                    Err(e) => Err(e),
                    Ok((more, last_id)) => Ok((seq![option] + more, last_id)),
                },
            }
        },
    }
}

/// The pattern tree of a whole token sequence; ids are given out from 1.
pub open spec fn spec_parse(tokens: Seq<Token>) -> Result<Seq<Node>, PatternError> {
    match spec_parse_core(tokens, 0) {
        Ok((pattern, _)) => Ok(pattern),
        Err(e) => Err(e),
    }
}

/// Reads the token that follows a backslash.
pub fn parse_escape(escapee: &Token) -> (res: Result<Syntax, PatternError>)
    ensures
        match spec_parse_escape(*escapee) {
            Ok(node) => res is Ok && res->Ok_0@ == node,
            Err(e) => res == Err::<Syntax, PatternError>(e),
        },
{
    match escapee {
        Token::Backslash => Ok(Syntax::Literal { char: '\\' }),
        Token::Literal(l) => {
            if *l == 'd' {
                Ok(Syntax::Digit)
            } else if *l == 'w' {
                Ok(Syntax::Word)
            } else {
                match decimal_digit(*l) {
                    Some(d) => Ok(Syntax::BackReference { id: d }),
                    None => Err(PatternError::UnrecognizedEscape),
                }
            }
        },
        _ => Err(PatternError::UnrecognizedEscape),
    }
}

/// The result of `rest`, with the alternatives `done` in front of it.
pub open spec fn spec_prepend_options(
    done: Seq<Seq<Node>>,
    rest: Result<(Seq<Seq<Node>>, u32), PatternError>,
) -> Result<(Seq<Seq<Node>>, u32), PatternError> {
    match rest {
        Ok((more, id)) => Ok((done + more, id)),
        Err(e) => Err(e),
    }
}

/// Parses the alternatives of a group from the tokens between its
/// brackets.
pub fn parse_options(tokens: &[Token], capture_group_id: &mut u32) -> (res: Result<
    Vec<Vec<Syntax>>,
    PatternError,
>)
    ensures
        match spec_parse_options(tokens@, *old(capture_group_id)) {
            Ok((options, id)) => res is Ok && alternatives(res->Ok_0@) == options
                && *final(capture_group_id) == id,
            Err(e) => res == Err::<Vec<Vec<Syntax>>, PatternError>(e),
        },
        *old(capture_group_id) <= *final(capture_group_id),
    decreases tokens@.len(), 2nat,
{
    let ghost first_id = *capture_group_id;
    let mut options: Vec<Vec<Syntax>> = Vec::new();
    let mut rest = tokens;
    loop
        invariant
            rest@.len() <= tokens@.len(),
            first_id == *old(capture_group_id),
            first_id <= *capture_group_id,
            spec_parse_options(tokens@, first_id) == spec_prepend_options(
                alternatives(options@),
                spec_parse_options(rest@, *capture_group_id),
            ),
        decreases rest@.len(),
    {
        let ghost id_before = *capture_group_id;
        let ghost done = alternatives(options@);
        match find_top_level_bar(rest) {
            Some(bar) => {
                let option = match parse_pattern_core(
                    slice_subrange(rest, 0, bar),
                    capture_group_id,
                ) {
                    Ok(option) => option,
                    Err(e) => {
                        return Err(e);
                    },
                };
                let ghost parsed = nodes(option@);
                options.push(option);
                let ghost tail = rest@.skip(bar + 1);
                let len = rest.len();
                rest = slice_subrange(rest, bar + 1, len);
                proof {
                    assert(alternatives(options@) =~= done + seq![parsed]);
                    let further = spec_parse_options(tail, *capture_group_id);
                    if let Ok((more, id)) = further {
                        assert((done + seq![parsed]) + more =~= done + (seq![parsed] + more));
                    }
                }
            },
            None => {
                let option = match parse_pattern_core(rest, capture_group_id) {
                    Ok(option) => option,
                    Err(e) => {
                        return Err(e);
                    },
                };
                let ghost parsed = nodes(option@);
                options.push(option);
                proof {
                    assert(alternatives(options@) =~= done + seq![parsed]);
                }
                return Ok(options);
            },
        }
    }
}

/// Parses a token sequence into a pattern. `capture_group_id` is the id
/// that was given out last; a group takes the next one before its
/// alternatives are read, so that an enclosing group has a lower id than
/// the groups inside it.
pub fn parse_pattern_core(pattern: &[Token], capture_group_id: &mut u32) -> (res: Result<
    Vec<Syntax>,
    PatternError,
>)
    ensures
        match spec_parse_core(pattern@, *old(capture_group_id)) {
            Ok((tree, id)) => res is Ok && nodes(res->Ok_0@) == tree && *final(capture_group_id)
                == id,
            Err(e) => res == Err::<Vec<Syntax>, PatternError>(e),
        },
        *old(capture_group_id) <= *final(capture_group_id),
    decreases pattern@.len(), 1nat,
{
    let ghost first_id = *capture_group_id;
    let mut syntax: Vec<Syntax> = Vec::new();
    let mut remainder = pattern;

    if remainder.len() > 0 && remainder[0] == Token::Caret {
        syntax.push(Syntax::StartOfLineAnchor);
        remainder = slice_subrange(remainder, 1, remainder.len());
        assert(nodes(syntax@) =~= seq![Node::StartOfLineAnchor]);
    } else {
        assert(nodes(syntax@) =~= Seq::<Node>::empty());
    }

    while remainder.len() > 0
        invariant
            remainder@.len() <= pattern@.len(),
            first_id == *old(capture_group_id),
            first_id <= *capture_group_id,
            spec_parse_core(pattern@, first_id) == spec_parse_items(
                remainder@,
                nodes(syntax@),
                *capture_group_id,
            ),
        decreases remainder@.len(),
    {
        let ghost read = nodes(syntax@);
        match remainder[0] {
            Token::OpenSquareBracket => {
                let end = match find_closing_bracket(remainder) {
                    Some(end) => end,
                    None => {
                        return Err(PatternError::UnterminatedCharacterClass);
                    },
                };
                let character_class = slice_subrange(remainder, 1, end);
                let parsed = if character_class.len() > 0 && character_class[0] == Token::Caret {
                    let negated_character_class = slice_subrange(
                        character_class,
                        1,
                        character_class.len(),
                    );
                    into_character_class(negated_character_class, true)
                } else {
                    into_character_class(character_class, false)
                };
                let node = match parsed {
                    Ok(node) => node,
                    Err(e) => {
                        return Err(e);
                    },
                };
                let ghost added = node@;
                syntax.push(node);
                remainder = slice_subrange(remainder, end + 1, remainder.len());
                assert(nodes(syntax@) =~= read.push(added));
            },
            Token::OpenBracket => {
                let end = match find_closing_bracket(remainder) {
                    Some(end) => end,
                    None => {
                        return Err(PatternError::UnterminatedCaptureGroup);
                    },
                };
                if *capture_group_id == u32::MAX {
                    return Err(PatternError::TooManyCaptureGroups);
                }
                *capture_group_id += 1;
                let id = *capture_group_id;
                let options = match parse_options(
                    slice_subrange(remainder, 1, end),
                    capture_group_id,
                ) {
                    Ok(options) => options,
                    Err(e) => {
                        return Err(e);
                    },
                };
                let node = Syntax::CaptureGroup { options, id };
                proof {
                    lemma_view_capture_group(node);
                }
                let ghost added = node@;
                syntax.push(node);
                remainder = slice_subrange(remainder, end + 1, remainder.len());
                assert(nodes(syntax@) =~= read.push(added));
            },
            Token::Backslash => {
                if remainder.len() < 2 {
                    return Err(PatternError::IncompleteEscape);
                }
                let node = match parse_escape(&remainder[1]) {
                    Ok(node) => node,
                    Err(e) => {
                        return Err(e);
                    },
                };
                let ghost added = node@;
                syntax.push(node);
                remainder = slice_subrange(remainder, 2, remainder.len());
                assert(nodes(syntax@) =~= read.push(added));
            },
            Token::Dot => {
                syntax.push(Syntax::Wildcard);
                remainder = slice_subrange(remainder, 1, remainder.len());
                assert(nodes(syntax@) =~= read.push(Node::Wildcard));
            },
            Token::Dollar => {
                syntax.push(Syntax::EndOfLineAnchor);
                remainder = slice_subrange(remainder, 1, remainder.len());
                assert(nodes(syntax@) =~= read.push(Node::EndOfLineAnchor));
            },
            Token::Plus => {
                let contained_syntax = match syntax.pop() {
                    Some(contained_syntax) => contained_syntax,
                    None => {
                        return Err(PatternError::QuantifierWithoutAtom);
                    },
                };
                syntax.push(Syntax::OneOrMore { syntax: Box::new(contained_syntax) });
                remainder = slice_subrange(remainder, 1, remainder.len());
                assert(nodes(syntax@) =~= read.drop_last().push(
                    Node::OneOrMore { syntax: Box::new(read.last()) },
                ));
            },
            Token::QuestionMark => {
                let contained_syntax = match syntax.pop() {
                    Some(contained_syntax) => contained_syntax,
                    None => {
                        return Err(PatternError::QuantifierWithoutAtom);
                    },
                };
                syntax.push(Syntax::ZeroOrOne { syntax: Box::new(contained_syntax) });
                remainder = slice_subrange(remainder, 1, remainder.len());
                assert(nodes(syntax@) =~= read.drop_last().push(
                    Node::ZeroOrOne { syntax: Box::new(read.last()) },
                ));
            },
            Token::Literal(c) => {
                syntax.push(Syntax::Literal { char: c });
                remainder = slice_subrange(remainder, 1, remainder.len());
                assert(nodes(syntax@) =~= read.push(Node::Literal { char: c }));
            },
            _ => {
                return Err(PatternError::UnexpectedToken);
            },
        }
    }

    Ok(syntax)
}

/// `res` is what parsing `tokens` gives: the tree that the tokens stand
/// for, or the reason why they stand for none.
pub open spec fn is_parse_of(tokens: Seq<Token>, res: Result<Vec<Syntax>, PatternError>) -> bool {
    match spec_parse(tokens) {
        Ok(tree) => res is Ok && nodes(res->Ok_0@) == tree,
        Err(e) => res == Err::<Vec<Syntax>, PatternError>(e),
    }
}

/// Parses the tokens of a whole pattern. In the tree every capture group
/// has an id of its own, and the ids grow in the order in which the
/// groups open.
pub fn parse_pattern(pattern: &[Token]) -> (res: Result<Vec<Syntax>, PatternError>)
    ensures
        is_parse_of(pattern@, res),
        res matches Ok(tree) ==> distinct_in(nodes(tree@)) && in_opening_order(nodes(tree@)),
{
    proof {
        theorem_groups_are_numbered_as_they_open(pattern@);
    }
    let mut capture_group_id: u32 = 0;
    parse_pattern_core(pattern, &mut capture_group_id)
}

} // verus!
