use living_room_parser::{parse, parse_to_json_string, Term};

fn word(s: &str) -> Term {
    Term::Word { word: s.to_string() }
}

fn var(s: &str) -> Term {
    Term::Variable { variable: s.to_string() }
}

fn int_tok(v: i64) -> Term {
    Term::Int { value: v }
}

fn float(negative: bool, ip: &str, fp: &str) -> Term {
    Term::Float {
        negative,
        int_digits: ip.to_string(),
        frac_digits: fp.to_string(),
    }
}

fn toks(s: &str) -> Vec<Term> {
    parse(s).unwrap()
}

#[test]
fn test_single_word() {
    assert_eq!(toks("hi"), vec![word("hi")]);
}

#[test]
fn test_words_and_whitespace() {
    assert_eq!(
        toks("hi   you"),
        vec![word("hi"), Term::Whitespace, word("you")]
    );
}

#[test]
fn test_whitespace_idempotent() {
    assert_eq!(toks("hi you"), toks("hi \t\r\n  you"));
}

#[test]
fn test_id() {
    assert_eq!(toks("#hi"), vec![Term::Id { id: "hi".to_string() }]);
}

#[test]
fn test_empty_id() {
    assert_eq!(toks("#"), vec![Term::Id { id: String::new() }]);
}

#[test]
fn test_keywords() {
    assert_eq!(toks("true"), vec![Term::Bool { value: true }]);
    assert_eq!(toks("false"), vec![Term::Bool { value: false }]);
    assert_eq!(toks("null"), vec![Term::Null]);
}

#[test]
fn test_keyword_exactness() {
    assert_eq!(toks("nullable"), vec![word("nullable")]);
    assert_eq!(toks("truest"), vec![word("truest")]);
    assert_eq!(
        toks("candy is null"),
        vec![word("candy"), Term::Whitespace, word("is"), Term::Whitespace, Term::Null]
    );
}

#[test]
fn test_integers() {
    assert_eq!(toks("0"), vec![int_tok(0)]);
    assert_eq!(toks("1123"), vec![int_tok(1123)]);
    assert_eq!(toks("-10"), vec![int_tok(-10)]);
    assert_eq!(toks("+1"), vec![int_tok(1)]);
}

#[test]
fn test_integer_limits() {
    assert_eq!(toks("9223372036854775807"), vec![int_tok(i64::MAX)]);
    assert_eq!(toks("-9223372036854775808"), vec![int_tok(i64::MIN)]);
    assert!(parse("9223372036854775808").is_err());
    assert!(parse("-9223372036854775809").is_err());
}

#[test]
fn test_floats() {
    assert_eq!(toks("1.2"), vec![float(false, "1", "2")]);
    assert_eq!(toks("0.1"), vec![float(false, "0", "1")]);
    assert_eq!(toks(".1"), vec![float(false, "", "1")]);
    assert_eq!(toks("-2.5"), vec![float(true, "2", "5")]);
}

#[test]
fn test_dot_lookahead() {
    // a dot followed by a digit starts a Float; otherwise it stays word text
    assert_eq!(toks("hi.1"), vec![word("hi"), float(false, "", "1")]);
    assert_eq!(
        toks("hi. you"),
        vec![word("hi."), Term::Whitespace, word("you")]
    );
}

#[test]
fn test_digit_ends_word() {
    assert_eq!(toks("hi1"), vec![word("hi"), int_tok(1)]);
}

#[test]
fn test_hole_isolation() {
    assert_eq!(toks("a_"), vec![word("a"), Term::Hole]);
    assert_eq!(toks("_a"), vec![Term::Hole, word("a")]);
    assert_eq!(toks("_"), vec![Term::Hole]);
}

#[test]
fn test_punctuation_words() {
    assert_eq!(toks(",,,"), vec![word(",,,")]);
    assert_eq!(toks("a,y"), vec![word("a,y")]);
}

#[test]
fn test_coords() {
    assert_eq!(
        toks("($a, $b)"),
        vec![word("("), var("a"), word(","), Term::Whitespace, var("b"), word(")")]
    );
}

#[test]
fn test_wildcard_cases() {
    assert_eq!(toks("$"), vec![Term::Wildcard]);
    assert_eq!(toks("$ "), vec![Term::Wildcard, Term::Whitespace]);
    assert_eq!(toks("$1"), vec![Term::Wildcard, int_tok(1)]);
    assert_eq!(toks("$,"), vec![Term::Wildcard, word(",")]);
}

#[test]
fn test_variables() {
    assert_eq!(toks("$x"), vec![var("x")]);
    assert_eq!(toks("$x1"), vec![var("x1")]);
}

#[test]
fn test_strings() {
    assert_eq!(toks("\"aay\""), vec![Term::String { value: "aay".to_string() }]);
    assert_eq!(
        toks("w\"\""),
        vec![word("w"), Term::String { value: String::new() }]
    );
}

#[test]
fn test_unicode_word() {
    assert_eq!(toks("h\u{e9}llo"), vec![word("h\u{e9}llo")]);
}

#[test]
fn test_dollar_before_unicode() {
    // only ASCII letters start a name; any other character leaves `$` a wildcard
    assert_eq!(toks("$\u{e9}"), vec![Term::Wildcard, word("\u{e9}")]);
}

#[test]
fn test_unterminated_string_fails() {
    assert!(parse("w\"").is_err());
    assert!(parse("\"never closed").is_err());
}

#[test]
fn test_scenario_sentence() {
    assert_eq!(
        toks("gorog is at $x $y but _ sometimes $ 1"),
        vec![
            word("gorog"),
            Term::Whitespace,
            word("is"),
            Term::Whitespace,
            word("at"),
            Term::Whitespace,
            var("x"),
            Term::Whitespace,
            var("y"),
            Term::Whitespace,
            word("but"),
            Term::Whitespace,
            Term::Hole,
            Term::Whitespace,
            word("sometimes"),
            Term::Whitespace,
            Term::Wildcard,
            Term::Whitespace,
            int_tok(1),
        ]
    );
}

#[test]
fn test_parse_to_json_string() {
    assert_eq!(
        parse_to_json_string("gorog at $x").unwrap(),
        "[{\"word\":\"gorog\"},{\"word\":\" \"},{\"word\":\"at\"},{\"word\":\" \"},{\"variable\":\"x\"}]"
    );
    assert!(parse_to_json_string("oops\"").is_err());
}
