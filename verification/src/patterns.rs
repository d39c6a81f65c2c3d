//! Character predicates shared by the parser and the matcher.

use vstd::prelude::*;

verus! {

/// The characters from `lower_inclusive` to `upper_inclusive`, both included.
pub open spec fn spec_is_in_range(lower_inclusive: char, upper_inclusive: char, c: char) -> bool {
    lower_inclusive <= c && c <= upper_inclusive
}

/// The ASCII digits `0` to `9`.
pub open spec fn spec_is_digit(c: char) -> bool {
    '0' <= c && c <= '9'
}

/// The ASCII letters `a` to `z`.
pub open spec fn spec_is_lower_case_letter(c: char) -> bool {
    'a' <= c && c <= 'z'
}

/// The ASCII letters `A` to `Z`.
pub open spec fn spec_is_upper_case_letter(c: char) -> bool {
    'A' <= c && c <= 'Z'
}

/// ASCII letters, ASCII digits and the underscore.
pub open spec fn spec_is_word(c: char) -> bool {
    spec_is_digit(c) || spec_is_lower_case_letter(c) || spec_is_upper_case_letter(c) || c == '_'
}

/// Some element of `chars` equals `c`.
pub open spec fn spec_is_any_of(chars: Seq<char>, c: char) -> bool {
    chars.contains(c)
}

/// The value of `c` as a decimal digit, if it is one.
pub open spec fn spec_decimal_digit(c: char) -> Option<u32> {
    if spec_is_digit(c) {
        Some((c as u32 - '0' as u32) as u32)
    } else {
        None
    }
}

#[verifier::when_used_as_spec(spec_is_in_range)]
pub fn is_in_range(lower_inclusive: char, upper_inclusive: char, c: char) -> (res: bool)
    ensures
        res == spec_is_in_range(lower_inclusive, upper_inclusive, c),
{
    lower_inclusive <= c && c <= upper_inclusive
}

#[verifier::when_used_as_spec(spec_is_digit)]
pub fn is_digit(c: char) -> (res: bool)
    ensures
        res == spec_is_digit(c),
{
    is_in_range('0', '9', c)
}

#[verifier::when_used_as_spec(spec_is_lower_case_letter)]
pub fn is_lower_case_letter(c: char) -> (res: bool)
    ensures
        res == spec_is_lower_case_letter(c),
{
    is_in_range('a', 'z', c)
}

#[verifier::when_used_as_spec(spec_is_upper_case_letter)]
pub fn is_upper_case_letter(c: char) -> (res: bool)
    ensures
        res == spec_is_upper_case_letter(c),
{
    is_in_range('A', 'Z', c)
}

#[verifier::when_used_as_spec(spec_is_word)]
pub fn is_word(c: char) -> (res: bool)
    ensures
        res == spec_is_word(c),
{
    is_digit(c) || is_lower_case_letter(c) || is_upper_case_letter(c) || c == '_'
}

/// Tells whether `c` occurs among `chars`.
pub fn is_any_of(chars: &[char], c: char) -> (res: bool)
    ensures
        res == spec_is_any_of(chars@, c),
{
    let mut i: usize = 0;
    while i < chars.len()
        invariant
            i <= chars.len(),
            forall|j: int| 0 <= j < i ==> chars@[j] != c,
        decreases chars.len() - i,
    {
        if chars[i] == c {
            return true;
        }
        i += 1;
    }
    false
}

/// The decimal value of an ASCII digit; `None` for every other character.
pub fn decimal_digit(c: char) -> (res: Option<u32>)
    ensures
        res == spec_decimal_digit(c),
{
    if is_digit(c) {
        Some(c as u32 - '0' as u32)
    } else {
        None
    }
}

} // verus!
