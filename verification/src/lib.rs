//! Lexical analysis for a small fact/pattern description language, and a
//! canonical JSON encoding of the resulting token stream.
//!
//! [`parse`] scans a line left to right, with one character of lookahead,
//! into an ordered sequence of [`Term`] tokens, or fails with [`ParseError`];
//! [`term_json::encode`] writes that sequence as a JSON array of single-key
//! objects, one per token, in order. Both directions are specified against
//! the character-level model in [`lexer`] and [`term_json`], and the laws
//! that relate them are proved in [`laws`].

pub mod laws;
pub mod lexer;
pub mod term_json;
pub mod text;

use vstd::prelude::*;

verus! {

/// One classified unit of input text, produced by the lexer and consumed by
/// the serializer. Tokens are immutable once produced; the token sequence
/// preserves the left-to-right order of appearance in the input.
///
/// A `Float` token keeps the decimal digits exactly as they were scanned
/// (optional leading `-`, integer digits, fraction digits); the serializer
/// renders them as a JSON number with a decimal point.
#[derive(Debug, PartialEq, Eq)]
#[allow(inconsistent_fields)]
pub enum Term {
    Bool { value: bool },
    Float { negative: bool, int_digits: String, frac_digits: String },
    Hole,
    Id { id: String },
    Int { value: i64 },
    Null,
    String { value: String },
    Variable { variable: String },
    Whitespace,
    Wildcard,
    Word { word: String },
}

/// The mathematical model of a token: payload text is a sequence of
/// characters, the integer payload is unbounded.
pub enum TermView {
    Bool(bool),
    Float { negative: bool, int_digits: Seq<char>, frac_digits: Seq<char> },
    Hole,
    Id(Seq<char>),
    Int(int),
    Null,
    Str(Seq<char>),
    Variable(Seq<char>),
    Whitespace,
    Wildcard,
    Word(Seq<char>),
}

impl View for Term {
    type V = TermView;

    open spec fn view(&self) -> TermView {
        match self {
            Term::Bool { value } => TermView::Bool(*value),
            Term::Float { negative, int_digits, frac_digits } => TermView::Float {
                negative: *negative,
                int_digits: int_digits@,
                frac_digits: frac_digits@,
            },
            Term::Hole => TermView::Hole,
            Term::Id { id } => TermView::Id(id@),
            Term::Int { value } => TermView::Int(*value as int),
            Term::Null => TermView::Null,
            Term::String { value } => TermView::Str(value@),
            Term::Variable { variable } => TermView::Variable(variable@),
            Term::Whitespace => TermView::Whitespace,
            Term::Wildcard => TermView::Wildcard,
            Term::Word { word } => TermView::Word(word@),
        }
    }
}

/// The models of a token sequence, in order.
pub open spec fn term_views(ts: Seq<Term>) -> Seq<TermView> {
    ts.map_values(|t: Term| t@)
}

/// The single lexical error kind: the scan failed at character position
/// `pos` of the input, either on an unterminated string literal or on an
/// integer literal that does not fit a 64-bit signed integer. Lexing is
/// all-or-nothing: no partial token sequence accompanies it.
#[derive(Debug, Clone, Copy, PartialEq, Eq)]
pub struct ParseError {
    pub pos: usize,
}

/// Scan `input` into its token sequence, left to right; the single core
/// entry point. Succeeds exactly when the model scan succeeds, and then
/// returns exactly the tokens the model gives; fails on an unterminated
/// string literal or an integer literal outside the 64-bit signed range.
pub fn parse(input: &str) -> (r: Result<Vec<Term>, ParseError>)
    ensures
        match r {
            Ok(ts) => lexer::spec_tokenize(input@) == Some(term_views(ts@)),
            Err(e) => lexer::spec_tokenize(input@) is None && e.pos <= input@.len(),
        },
{
    lexer::tokenize(input)
}

/// Scan `input` and encode the tokens as the canonical JSON array text.
pub fn parse_to_json_string(input: &str) -> (r: Result<String, ParseError>)
    ensures
        match r {
            Ok(s) => lexer::spec_tokenize(input@) is Some && s@ == term_json::spec_encode(
                lexer::spec_tokenize(input@).unwrap(),
            ),
            Err(e) => lexer::spec_tokenize(input@) is None && e.pos <= input@.len(),
        },
{
    match parse(input) {
        Ok(ts) => Ok(term_json::encode(&ts)),
        Err(e) => Err(e),
    }
}

} // verus!
