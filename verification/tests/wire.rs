use living_room_parser::term_json::{encode, JSONKey};
use living_room_parser::{parse, Term};

fn float(negative: bool, ip: &str, fp: &str) -> Term {
    Term::Float {
        negative,
        int_digits: ip.to_string(),
        frac_digits: fp.to_string(),
    }
}

fn encoded(s: &str) -> String {
    encode(&parse(s).unwrap())
}

/// Make sure we're serializing values to JSON the correct way.
#[test]
fn test_serialize_value() {
    let terms = vec![
        Term::Bool { value: false },
        float(false, "10", "0"),
        Term::Hole,
        Term::Id { id: "ay".to_string() },
        Term::Int { value: 123 },
        Term::Null,
        Term::String { value: "hi".to_string() },
        Term::Variable { variable: "sup".to_string() },
        Term::Word { word: " ".to_string() },
        Term::Wildcard,
        Term::Word { word: "banana".to_string() },
    ];
    assert_eq!(
        encode(&terms),
        "[{\"value\":false},{\"value\":10.0},{\"hole\":true},{\"id\":\"ay\"},\
         {\"value\":123},{\"value\":null},{\"value\":\"hi\"},{\"variable\":\"sup\"},\
         {\"word\":\" \"},{\"wildcard\":true},{\"word\":\"banana\"}]"
    );
}

#[test]
fn test_encode_scenario() {
    assert_eq!(
        encode(&vec![
            Term::Bool { value: false },
            float(false, "10", "0"),
            Term::Hole,
            Term::Id { id: "ay".to_string() },
        ]),
        "[{\"value\":false},{\"value\":10.0},{\"hole\":true},{\"id\":\"ay\"}]"
    );
}

#[test]
fn test_encode_whitespace_as_single_space_word() {
    assert_eq!(
        encoded("hi   you"),
        "[{\"word\":\"hi\"},{\"word\":\" \"},{\"word\":\"you\"}]"
    );
}

#[test]
fn test_encode_numbers() {
    assert_eq!(encoded("1 10 1.2"), "[{\"value\":1},{\"word\":\" \"},{\"value\":10},{\"word\":\" \"},{\"value\":1.2}]");
    assert_eq!(encoded("0.1"), "[{\"value\":0.1}]");
    assert_eq!(encoded(".1"), "[{\"value\":0.1}]");
    assert_eq!(encoded("-10"), "[{\"value\":-10}]");
    assert_eq!(encoded("+1"), "[{\"value\":1}]");
}

#[test]
fn test_float_normalization() {
    // leading zeros of the integer part and trailing zeros of the fraction
    // disappear; both parts keep at least one digit
    assert_eq!(encoded("007.500"), "[{\"value\":7.5}]");
    assert_eq!(encoded("10.0"), "[{\"value\":10.0}]");
    assert_eq!(encoded("-0.0"), "[{\"value\":-0.0}]");
    assert_eq!(encoded("1.2.3"), "[{\"value\":1.2},{\"value\":0.3}]");
}

#[test]
fn test_empty_input_encodes_to_empty_array() {
    assert_eq!(encoded(""), "[]");
}

#[test]
fn test_key_names() {
    assert_eq!(JSONKey::Hole.name(), "hole");
    assert_eq!(JSONKey::Id.name(), "id");
    assert_eq!(JSONKey::Value.name(), "value");
    assert_eq!(JSONKey::Variable.name(), "variable");
    assert_eq!(JSONKey::Wildcard.name(), "wildcard");
    assert_eq!(JSONKey::Word.name(), "word");
}

fn decode_single(t: Term) -> (String, serde_json::Value) {
    let text = encode(&vec![t]);
    let decoded: serde_json::Value = serde_json::from_str(&text).unwrap();
    let arr = decoded.as_array().unwrap();
    assert_eq!(arr.len(), 1);
    let obj = arr[0].as_object().unwrap();
    assert_eq!(obj.len(), 1, "exactly one key per object");
    let (key, value) = obj.iter().next().unwrap();
    (key.clone(), value.clone())
}

#[test]
fn test_round_trip_every_variant() {
    let cases: Vec<(Term, &str)> = vec![
        (Term::Bool { value: true }, "value"),
        (float(false, "3", "25"), "value"),
        (Term::Hole, "hole"),
        (Term::Id { id: "k".to_string() }, "id"),
        (Term::Int { value: -7 }, "value"),
        (Term::Null, "value"),
        (Term::String { value: "s".to_string() }, "value"),
        (Term::Variable { variable: "v".to_string() }, "variable"),
        (Term::Whitespace, "word"),
        (Term::Wildcard, "wildcard"),
        (Term::Word { word: "w".to_string() }, "word"),
    ];
    for (t, expected_key) in cases {
        let (key, _) = decode_single(t);
        assert_eq!(key, expected_key);
    }
}

#[test]
fn test_round_trip_numeric_kinds() {
    let (_, v) = decode_single(Term::Int { value: 123 });
    assert!(v.is_i64(), "Int decodes as an integral number");
    assert_eq!(v.as_i64().unwrap(), 123);

    let (_, v) = decode_single(float(false, "10", "0"));
    assert!(v.is_f64(), "Float decodes as a fractional number");
    assert!(!v.is_i64());
    assert_eq!(v.as_f64().unwrap(), 10.0);

    let (_, v) = decode_single(float(true, "0", "25"));
    assert_eq!(v.as_f64().unwrap(), -0.25);
}

#[test]
fn test_round_trip_other_values() {
    let (_, v) = decode_single(Term::Bool { value: false });
    assert_eq!(v.as_bool().unwrap(), false);
    let (_, v) = decode_single(Term::Null);
    assert!(v.is_null());
    let (_, v) = decode_single(Term::Whitespace);
    assert_eq!(v.as_str().unwrap(), " ");
}

#[test]
fn test_string_escaping_matches_strict_json() {
    let payloads = [
        "plain",
        "back\\slash",
        "tab\there",
        "line\nbreak",
        "bell\u{7}and\u{8}and\u{c}and\r",
        "unicode \u{e9}\u{4e16}",
    ];
    for p in payloads {
        let t = Term::String { value: p.to_string() };
        let text = encode(&vec![t]);
        // the whole object must agree with a strict JSON writer
        assert_eq!(
            text,
            format!("[{{\"value\":{}}}]", serde_json::to_string(p).unwrap())
        );
        let (key, v) = decode_single(Term::String { value: p.to_string() });
        assert_eq!(key, "value");
        assert_eq!(v.as_str().unwrap(), p);
    }
}

#[test]
fn test_string_token_scan_and_escape() {
    // a raw newline inside a string literal survives the trip
    let text = encode(&parse("\"a\nb\"").unwrap());
    assert_eq!(text, "[{\"value\":\"a\\nb\"}]");
}

#[test]
fn test_escaping_applies_to_every_text_key() {
    assert_eq!(
        encode(&vec![Term::Id { id: "a\"b".to_string() }]),
        "[{\"id\":\"a\\\"b\"}]"
    );
    assert_eq!(
        encode(&vec![Term::Word { word: "tab\t".to_string() }]),
        "[{\"word\":\"tab\\t\"}]"
    );
}

#[test]
fn test_int_extremes_on_wire() {
    assert_eq!(
        encode(&vec![Term::Int { value: i64::MIN }, Term::Int { value: i64::MAX }]),
        "[{\"value\":-9223372036854775808},{\"value\":9223372036854775807}]"
    );
}
