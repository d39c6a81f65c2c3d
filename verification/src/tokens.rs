//! The tokenizer: one token for each character of a pattern.

use vstd::prelude::*;

verus! {

/// A syntactic token of a pattern.
#[derive(Debug, PartialEq, Eq, Clone, Copy, Structural)]
pub enum Token {
    Literal(char),
    Backslash,
    OpenBracket,
    CloseBracket,
    OpenSquareBracket,
    CloseSquareBracket,
    Caret,
    Dollar,
    Plus,
    QuestionMark,
    Dot,
    Bar,
}

/// The token that a single pattern character stands for. Every character
/// outside the special set `\ ( ) [ ] ^ $ + ? . |` is a literal.
pub open spec fn spec_token_of(c: char) -> Token {
    if c == '\\' {
        Token::Backslash
    } else if c == '(' {
        Token::OpenBracket
    } else if c == ')' {
        Token::CloseBracket
    } else if c == '[' {
        Token::OpenSquareBracket
    } else if c == ']' {
        Token::CloseSquareBracket
    } else if c == '^' {
        Token::Caret
    } else if c == '$' {
        Token::Dollar
    } else if c == '+' {
        Token::Plus
    } else if c == '?' {
        Token::QuestionMark
    } else if c == '.' {
        Token::Dot
    } else if c == '|' {
        Token::Bar
    } else {
        Token::Literal(c)
    }
}

/// The token sequence of a pattern: character by character, in order.
pub open spec fn spec_tokenize(pattern: Seq<char>) -> Seq<Token> {
    Seq::new(pattern.len(), |i: int| spec_token_of(pattern[i]))
}

/// The character that a token is written as.
pub open spec fn spec_token_char(token: Token) -> char {
    match token {
        Token::Backslash => '\\',
        Token::OpenBracket => '(',
        Token::CloseBracket => ')',
        Token::OpenSquareBracket => '[',
        Token::CloseSquareBracket => ']',
        Token::Caret => '^',
        Token::Dollar => '$',
        Token::Plus => '+',
        Token::QuestionMark => '?',
        Token::Dot => '.',
        Token::Bar => '|',
        Token::Literal(c) => c,
    }
}

/// A token is produced by the tokenizer exactly when it is not a literal
/// that carries one of the special characters.
pub open spec fn spec_token_is_canonical(token: Token) -> bool {
    spec_token_of(spec_token_char(token)) == token
}

pub fn token_of(c: char) -> (res: Token)
    ensures
        res == spec_token_of(c),
        spec_token_char(res) == c,
{
    match c {
        '\\' => Token::Backslash,
        '(' => Token::OpenBracket,
        ')' => Token::CloseBracket,
        '[' => Token::OpenSquareBracket,
        ']' => Token::CloseSquareBracket,
        '^' => Token::Caret,
        '$' => Token::Dollar,
        '+' => Token::Plus,
        '?' => Token::QuestionMark,
        '.' => Token::Dot,
        '|' => Token::Bar,
        other => Token::Literal(other),
    }
}

impl Token {
    /// The character this token is displayed as: the pattern character it
    /// was made from.
    pub fn to_char(&self) -> (res: char)
        ensures
            res == spec_token_char(*self),
    {
        match *self {
            Token::Backslash => '\\',
            Token::OpenBracket => '(',
            Token::CloseBracket => ')',
            Token::OpenSquareBracket => '[',
            Token::CloseSquareBracket => ']',
            Token::Caret => '^',
            Token::Dollar => '$',
            Token::Plus => '+',
            Token::QuestionMark => '?',
            Token::Dot => '.',
            Token::Bar => '|',
            Token::Literal(c) => c,
        }
    }
}

/// Turns a pattern into its tokens. Never fails: whether the tokens form a
/// pattern is for the parser to say.
pub fn tokenize_pattern(pattern: &str) -> (res: Vec<Token>)
    ensures
        res@ == spec_tokenize(pattern@),
{
    let n: usize = pattern.unicode_len();
    let mut tokens: Vec<Token> = Vec::new();
    let mut i: usize = 0;
    while i < n
        invariant
            n == pattern@.len(),
            i <= n,
            tokens@.len() == i,
            forall|j: int| 0 <= j < i ==> tokens@[j] == spec_token_of(pattern@[j]),
        decreases n - i,
    {
        let c = pattern.get_char(i);
        tokens.push(token_of(c));
        i += 1;
    }
    assert(tokens@ =~= spec_tokenize(pattern@));
    tokens
}

} // verus!
