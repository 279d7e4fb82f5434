use vstd::prelude::*;

verus! {

// Character classes of the fact/pattern description language.
//
// The delimiters `#`, `$`, `_` and `"` each start a token of their own;
// whitespace separates tokens; every other character can stand inside a
// Word. Identifier names (after `#` or `$`) are made of letters and digits,
// and a letter is what may start such a name.

/// A whitespace character: space, tab, newline or carriage return.
pub open spec fn is_space_char(c: char) -> bool {
    c == ' ' || c == '\t' || c == '\n' || c == '\r'
}

/// A decimal digit.
pub open spec fn is_digit_char(c: char) -> bool {
    '0' <= c && c <= '9'
}

/// A letter: the characters that may start an Id or Variable name.
pub open spec fn is_alpha_char(c: char) -> bool {
    ('a' <= c && c <= 'z') || ('A' <= c && c <= 'Z')
}

/// A character of an Id or Variable name: a letter or a digit.
pub open spec fn is_name_char(c: char) -> bool {
    is_alpha_char(c) || is_digit_char(c)
}

/// A character that may stand inside a Word: anything that is neither
/// whitespace nor one of the four delimiters `#`, `$`, `_`, `"`.
pub open spec fn is_word_char(c: char) -> bool {
    !is_space_char(c) && c != '#' && c != '$' && c != '_' && c != '"'
}

/// The numeric value of a decimal digit character.
pub open spec fn digit_val(c: char) -> int {
    c as int - '0' as int
}

pub fn space_char(c: char) -> (b: bool)
    ensures
        b == is_space_char(c),
{
    c == ' ' || c == '\t' || c == '\n' || c == '\r'
}

pub fn digit_char(c: char) -> (b: bool)
    ensures
        b == is_digit_char(c),
{
    '0' <= c && c <= '9'
}

pub fn alpha_char(c: char) -> (b: bool)
    ensures
        b == is_alpha_char(c),
{
    ('a' <= c && c <= 'z') || ('A' <= c && c <= 'Z')
}

pub fn name_char(c: char) -> (b: bool)
    ensures
        b == is_name_char(c),
{
    alpha_char(c) || digit_char(c)
}

pub fn word_char(c: char) -> (b: bool)
    ensures
        b == is_word_char(c),
{
    !space_char(c) && c != '#' && c != '$' && c != '_' && c != '"'
}

} // verus!
