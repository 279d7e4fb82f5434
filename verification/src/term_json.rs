use vstd::prelude::*;

use crate::{Term, TermView};
use vstd::string::{StrSliceExecFns, StringExecFns};

verus! {

// The canonical serializer: each token becomes one single-key JSON object,
// `{"<key>":<value>}`, with the key drawn from a fixed six-name table; the
// array keeps the tokens' order. The wire text is pinned down character by
// character by `spec_encode`.

/// The fixed set of JSON object keys.
#[derive(Debug, Clone, Copy, PartialEq, Eq, Structural)]
pub enum JSONKey {
    Hole,
    Id,
    Value,
    Variable,
    Wildcard,
    Word,
}

/// The value half of a single-key object. A `Float` carries its decimal
/// digits; it is rendered with a decimal point, so that a reader can tell it
/// from an `Int`.
#[derive(Debug)]
pub enum JSONValue {
    Bool(bool),
    Int(i64),
    Float { negative: bool, int_digits: String, frac_digits: String },
    Null,
    String(String),
}

/// The model of a `JSONValue`.
pub enum JSONValueView {
    Bool(bool),
    Int(int),
    Float { negative: bool, int_digits: Seq<char>, frac_digits: Seq<char> },
    Null,
    Str(Seq<char>),
}

impl View for JSONValue {
    type V = JSONValueView;

    open spec fn view(&self) -> JSONValueView {
        match self {
            JSONValue::Bool(b) => JSONValueView::Bool(*b),
            JSONValue::Int(i) => JSONValueView::Int(*i as int),
            JSONValue::Float { negative, int_digits, frac_digits } => JSONValueView::Float {
                negative: *negative,
                int_digits: int_digits@,
                frac_digits: frac_digits@,
            },
            JSONValue::Null => JSONValueView::Null,
            JSONValue::String(s) => JSONValueView::Str(s@),
        }
    }
}

/// The JSON spelling of each key.
pub open spec fn spec_key_name(k: JSONKey) -> Seq<char> {
    match k {
        JSONKey::Hole => "hole"@,
        JSONKey::Id => "id"@,
        JSONKey::Value => "value"@,
        JSONKey::Variable => "variable"@,
        JSONKey::Wildcard => "wildcard"@,
        JSONKey::Word => "word"@,
    }
}

impl JSONKey {
    /// The key's spelling on the wire.
    pub fn name(&self) -> (r: &'static str)
        ensures
            r@ == spec_key_name(*self),
    {
        match self {
            JSONKey::Hole => "hole",
            JSONKey::Id => "id",
            JSONKey::Value => "value",
            JSONKey::Variable => "variable",
            JSONKey::Wildcard => "wildcard",
            JSONKey::Word => "word",
        }
    }
}

/// The decimal spelling of a digit.
pub open spec fn digit_str_view(d: int) -> Seq<char> {
    if d == 0 {
        "0"@
    } else if d == 1 {
        "1"@
    } else if d == 2 {
        "2"@
    } else if d == 3 {
        "3"@
    } else if d == 4 {
        "4"@
    } else if d == 5 {
        "5"@
    } else if d == 6 {
        "6"@
    } else if d == 7 {
        "7"@
    } else if d == 8 {
        "8"@
    } else {
        "9"@
    }
}

/// The lower-case hexadecimal spelling of a value below 16.
pub open spec fn hex_str_view(d: int) -> Seq<char> {
    if d < 10 {
        digit_str_view(d)
    } else if d == 10 {
        "a"@
    } else if d == 11 {
        "b"@
    } else if d == 12 {
        "c"@
    } else if d == 13 {
        "d"@
    } else if d == 14 {
        "e"@
    } else {
        "f"@
    }
}

/// The decimal spelling of a non-negative integer, most significant digit
/// first, no superfluous leading zero.
pub open spec fn dec_text(v: int) -> Seq<char>
    decreases v,
{
    if v < 10 {
        digit_str_view(v)
    } else {
        dec_text(v / 10) + digit_str_view(v % 10)
    }
}

/// The decimal spelling of a signed integer.
pub open spec fn int_text(v: int) -> Seq<char> {
    if v < 0 {
        "-"@ + dec_text(-v)
    } else {
        dec_text(v)
    }
}

/// Drop leading `0` characters.
pub open spec fn strip_zeros_front(s: Seq<char>) -> Seq<char>
    decreases s.len(),
{
    if s.len() > 0 && s[0] == '0' {
        strip_zeros_front(s.skip(1))
    } else {
        s
    }
}

/// Drop trailing `0` characters.
pub open spec fn strip_zeros_back(s: Seq<char>) -> Seq<char>
    decreases s.len(),
{
    if s.len() > 0 && s.last() == '0' {
        strip_zeros_back(s.drop_last())
    } else {
        s
    }
}

/// A digit run that may not be empty: an empty one stands for `0`.
pub open spec fn nonempty_or_zero(s: Seq<char>) -> Seq<char> {
    if s.len() == 0 {
        "0"@
    } else {
        s
    }
}

/// The JSON number spelling of a Float token: optional `-`, the integer
/// digits without leading zeros, a decimal point, the fraction digits
/// without trailing zeros; each digit part at least `0`.
pub open spec fn float_text(negative: bool, ip: Seq<char>, fp: Seq<char>) -> Seq<char> {
    (if negative {
        "-"@
    } else {
        Seq::<char>::empty()
    }) + nonempty_or_zero(strip_zeros_front(ip)) + "."@ + nonempty_or_zero(strip_zeros_back(fp))
}

/// The JSON escape of one string character, as a strict JSON writer emits
/// it: the two-character escapes for quote, backslash and the five named
/// control characters, `\u00..` for the other control characters, the
/// character itself otherwise.
pub open spec fn esc_char(c: char) -> Seq<char> {
    if c == '"' {
        "\\\""@
    } else if c == '\\' {
        "\\\\"@
    } else if c == '\u{8}' {
        "\\b"@
    } else if c == '\t' {
        "\\t"@
    } else if c == '\n' {
        "\\n"@
    } else if c == '\u{c}' {
        "\\f"@
    } else if c == '\r' {
        "\\r"@
    } else if (c as u32) < 32 {
        "\\u00"@ + hex_str_view(c as u32 as int / 16) + hex_str_view(c as u32 as int % 16)
    } else {
        seq![c]
    }
}

/// The JSON escape of a whole string body.
pub open spec fn escape_text(s: Seq<char>) -> Seq<char>
    decreases s.len(),
{
    if s.len() == 0 {
        Seq::<char>::empty()
    } else {
        escape_text(s.drop_last()) + esc_char(s.last())
    }
}

/// A JSON string literal: the escaped body between two quotes.
pub open spec fn quoted(s: Seq<char>) -> Seq<char> {
    "\""@ + escape_text(s) + "\""@
}

/// The JSON spelling of a value.
pub open spec fn spec_value_text(v: JSONValueView) -> Seq<char> {
    match v {
        JSONValueView::Bool(b) => if b {
            "true"@
        } else {
            "false"@
        },
        JSONValueView::Int(i) => int_text(i),
        JSONValueView::Float { negative, int_digits, frac_digits } => float_text(
            negative,
            int_digits,
            frac_digits,
        ),
        JSONValueView::Null => "null"@,
        JSONValueView::Str(s) => quoted(s),
    }
}

/// One single-key JSON object.
pub open spec fn spec_object_text(k: JSONKey, v: JSONValueView) -> Seq<char> {
    "{\""@ + spec_key_name(k) + "\":"@ + spec_value_text(v) + "}"@
}

/// The per-variant lookup table: which key and which value represent each
/// token. Whitespace is written as a single-space Word.
pub open spec fn spec_repr(t: TermView) -> (JSONKey, JSONValueView) {
    match t {
        TermView::Bool(b) => (JSONKey::Value, JSONValueView::Bool(b)),
        TermView::Float { negative, int_digits, frac_digits } => (
            JSONKey::Value,
            JSONValueView::Float { negative, int_digits, frac_digits },
        ),
        TermView::Hole => (JSONKey::Hole, JSONValueView::Bool(true)),
        TermView::Id(s) => (JSONKey::Id, JSONValueView::Str(s)),
        TermView::Int(i) => (JSONKey::Value, JSONValueView::Int(i)),
        TermView::Null => (JSONKey::Value, JSONValueView::Null),
        TermView::Str(s) => (JSONKey::Value, JSONValueView::Str(s)),
        TermView::Variable(s) => (JSONKey::Variable, JSONValueView::Str(s)),
        TermView::Whitespace => (JSONKey::Word, JSONValueView::Str(" "@)),
        TermView::Wildcard => (JSONKey::Wildcard, JSONValueView::Bool(true)),
        TermView::Word(s) => (JSONKey::Word, JSONValueView::Str(s)),
    }
}

/// The wire text of one token.
pub open spec fn spec_encode_term(t: TermView) -> Seq<char> {
    spec_object_text(spec_repr(t).0, spec_repr(t).1)
}

/// The comma-separated wire texts of a token sequence.
pub open spec fn spec_encode_items(ts: Seq<TermView>) -> Seq<char>
    decreases ts.len(),
{
    if ts.len() == 0 {
        Seq::<char>::empty()
    } else if ts.len() == 1 {
        spec_encode_term(ts[0])
    } else {
        spec_encode_items(ts.drop_last()) + ","@ + spec_encode_term(ts.last())
    }
}

/// The whole wire text: a JSON array of the tokens' objects, in order.
pub open spec fn spec_encode(ts: Seq<TermView>) -> Seq<char> {
    "["@ + spec_encode_items(ts) + "]"@
}

/// A single-key JSON object, held as the key and the value before they are
/// written out. This is the serializer's per-variant lookup table made
/// concrete: every token maps to one `ReprJSON`.
pub struct ReprJSON {
    key: JSONKey,
    value: JSONValue,
}

impl View for ReprJSON {
    type V = (JSONKey, JSONValueView);

    closed spec fn view(&self) -> (JSONKey, JSONValueView) {
        (self.key, self.value@)
    }
}

impl ReprJSON {
    pub fn bool_value(b: bool) -> (r: ReprJSON)
        ensures
            r@ == (JSONKey::Value, JSONValueView::Bool(b)),
    {
        ReprJSON { key: JSONKey::Value, value: JSONValue::Bool(b) }
    }

    pub fn float_value(negative: bool, int_digits: &str, frac_digits: &str) -> (r: ReprJSON)
        ensures
            r@ == (
                JSONKey::Value,
                JSONValueView::Float {
                    negative,
                    int_digits: int_digits@,
                    frac_digits: frac_digits@,
                },
            ),
    {
        ReprJSON { key: JSONKey::Value, value: JSONValue::Float {
                negative,
                int_digits: int_digits.to_owned(),
                frac_digits: frac_digits.to_owned(),
            } }
    }

    pub fn int_value(i: i64) -> (r: ReprJSON)
        ensures
            r@ == (JSONKey::Value, JSONValueView::Int(i as int)),
    {
        ReprJSON { key: JSONKey::Value, value: JSONValue::Int(i) }
    }

    pub fn null_value() -> (r: ReprJSON)
        ensures
            r@ == (JSONKey::Value, JSONValueView::Null),
    {
        ReprJSON { key: JSONKey::Value, value: JSONValue::Null }
    }

    pub fn string_value(s: &str) -> (r: ReprJSON)
        ensures
            r@ == (JSONKey::Value, JSONValueView::Str(s@)),
    {
        ReprJSON { key: JSONKey::Value, value: JSONValue::String(s.to_owned()) }
    }

    pub fn hole() -> (r: ReprJSON)
        ensures
            r@ == (JSONKey::Hole, JSONValueView::Bool(true)),
    {
        ReprJSON { key: JSONKey::Hole, value: JSONValue::Bool(true) }
    }

    pub fn id(id: &str) -> (r: ReprJSON)
        ensures
            r@ == (JSONKey::Id, JSONValueView::Str(id@)),
    {
        ReprJSON { key: JSONKey::Id, value: JSONValue::String(id.to_owned()) }
    }

    pub fn variable(v: &str) -> (r: ReprJSON)
        ensures
            r@ == (JSONKey::Variable, JSONValueView::Str(v@)),
    {
        ReprJSON { key: JSONKey::Variable, value: JSONValue::String(v.to_owned()) }
    }

    pub fn word(word: &str) -> (r: ReprJSON)
        ensures
            r@ == (JSONKey::Word, JSONValueView::Str(word@)),
    {
        ReprJSON { key: JSONKey::Word, value: JSONValue::String(word.to_owned()) }
    }

    pub fn wildcard() -> (r: ReprJSON)
        ensures
            r@ == (JSONKey::Wildcard, JSONValueView::Bool(true)),
    {
        ReprJSON { key: JSONKey::Wildcard, value: JSONValue::Bool(true) }
    }
}

/// The lookup table applied to one token.
pub fn term_to_repr(t: &Term) -> (r: ReprJSON)
    ensures
        r@ == spec_repr(t@),
{
    match t {
        Term::Bool { value } => ReprJSON::bool_value(*value),
        Term::Float { negative, int_digits, frac_digits } => ReprJSON::float_value(
            *negative,
            int_digits.as_str(),
            frac_digits.as_str(),
        ),
        Term::Hole => ReprJSON::hole(),
        Term::Id { id } => ReprJSON::id(id.as_str()),
        Term::Int { value } => ReprJSON::int_value(*value),
        Term::Null => ReprJSON::null_value(),
        Term::String { value } => ReprJSON::string_value(value.as_str()),
        Term::Variable { variable } => ReprJSON::variable(variable.as_str()),
        Term::Whitespace => ReprJSON::word(" "),
        Term::Wildcard => ReprJSON::wildcard(),
        Term::Word { word } => ReprJSON::word(word.as_str()),
    }
}

fn digit_str(d: u64) -> (r: &'static str)
    requires
        d < 10,
    ensures
        r@ == digit_str_view(d as int),
{
    if d == 0 {
        "0"
    } else if d == 1 {
        "1"
    } else if d == 2 {
        "2"
    } else if d == 3 {
        "3"
    } else if d == 4 {
        "4"
    } else if d == 5 {
        "5"
    } else if d == 6 {
        "6"
    } else if d == 7 {
        "7"
    } else if d == 8 {
        "8"
    } else {
        "9"
    }
}

fn hex_str(d: u32) -> (r: &'static str)
    requires
        d < 16,
    ensures
        r@ == hex_str_view(d as int),
{
    if d == 0 {
        "0"
    } else if d == 1 {
        "1"
    } else if d == 2 {
        "2"
    } else if d == 3 {
        "3"
    } else if d == 4 {
        "4"
    } else if d == 5 {
        "5"
    } else if d == 6 {
        "6"
    } else if d == 7 {
        "7"
    } else if d == 8 {
        "8"
    } else if d == 9 {
        "9"
    } else if d == 10 {
        "a"
    } else if d == 11 {
        "b"
    } else if d == 12 {
        "c"
    } else if d == 13 {
        "d"
    } else if d == 14 {
        "e"
    } else {
        "f"
    }
}

/// Write the decimal spelling of `v`.
fn push_dec(out: &mut String, v: u64)
    ensures
        final(out)@ == old(out)@ + dec_text(v as int),
    decreases v,
{
    if v < 10 {
        out.append(digit_str(v));
    } else {
        let ghost pre = out@;
        push_dec(out, v / 10);
        out.append(digit_str(v % 10));
        proof {
            assert((pre + dec_text(v as int / 10)) + digit_str_view(v as int % 10) =~= pre + (
            dec_text(v as int / 10) + digit_str_view(v as int % 10)));
        }
    }
}

/// Write the decimal spelling of a signed 64-bit integer.
fn push_int(out: &mut String, v: i64)
    ensures
        final(out)@ == old(out)@ + int_text(v as int),
{
    if v < 0 {
        let ghost pre = out@;
        out.append("-");
        let mag: u64 = if v == i64::MIN {
            9223372036854775808u64
        } else {
            (0i64 - v) as u64
        };
        push_dec(out, mag);
        proof {
            assert((pre + "-"@) + dec_text(mag as int) =~= pre + ("-"@ + dec_text(mag as int)));
        }
    } else {
        push_dec(out, v as u64);
    }
}

proof fn lemma_strip_front_is(s: Seq<char>, k: int)
    requires
        0 <= k <= s.len(),
        forall|p: int| 0 <= p < k ==> #[trigger] s[p] == '0',
        k == s.len() || s[k] != '0',
    ensures
        strip_zeros_front(s) == s.skip(k),
    decreases k,
{
    if k > 0 {
        lemma_strip_front_is(s.skip(1), k - 1);
        assert(s.skip(1).skip(k - 1) =~= s.skip(k));
    } else {
        if s.len() > 0 {
        }
        assert(s.skip(0) =~= s);
    }
}

proof fn lemma_strip_back_is(s: Seq<char>, m: int)
    requires
        0 <= m <= s.len(),
        forall|p: int| m <= p < s.len() ==> #[trigger] s[p] == '0',
        m == 0 || s[m - 1] != '0',
    ensures
        strip_zeros_back(s) == s.take(m),
    decreases s.len(),
{
    if s.len() > m {
        lemma_strip_back_is(s.drop_last(), m);
        assert(s.drop_last().take(m) =~= s.take(m));
    } else {
        assert(s.take(m) =~= s);
    }
}

/// Write the JSON number spelling of a Float token's digits.
fn push_float(out: &mut String, negative: bool, ip: &str, fp: &str)
    ensures
        final(out)@ == old(out)@ + float_text(negative, ip@, fp@),
{
    let ghost pre = out@;
    if negative {
        out.append("-");
    }
    let ghost sgn = if negative {
        "-"@
    } else {
        Seq::<char>::empty()
    };
    proof {
        assert(pre + Seq::<char>::empty() =~= pre);
    }
    let ip_n = ip.unicode_len();
    let mut k: usize = 0;
    while k < ip_n && ip.get_char(k) == '0'
        invariant
            ip_n == ip@.len(),
            k <= ip_n,
            forall|p: int| 0 <= p < k ==> #[trigger] ip@[p] == '0',
        decreases ip_n - k,
    {
        k += 1;
    }
    proof {
        lemma_strip_front_is(ip@, k as int);
    }
    if k == ip_n {
        out.append("0");
    } else {
        out.append(ip.substring_char(k, ip_n));
        proof {
            assert(ip@.subrange(k as int, ip_n as int) =~= ip@.skip(k as int));
        }
    }
    let ghost ipart = nonempty_or_zero(strip_zeros_front(ip@));
    proof {
        assert(out@ == pre + sgn + ipart);
    }
    out.append(".");
    let fp_n = fp.unicode_len();
    let mut m: usize = fp_n;
    while m > 0 && fp.get_char(m - 1) == '0'
        invariant
            fp_n == fp@.len(),
            m <= fp_n,
            forall|p: int| m <= p < fp_n ==> #[trigger] fp@[p] == '0',
        decreases m,
    {
        m -= 1;
    }
    proof {
        lemma_strip_back_is(fp@, m as int);
    }
    if m == 0 {
        out.append("0");
    } else {
        out.append(fp.substring_char(0, m));
        proof {
            assert(fp@.subrange(0, m as int) =~= fp@.take(m as int));
        }
    }
    proof {
        let fpart = nonempty_or_zero(strip_zeros_back(fp@));
        assert(out@ == pre + sgn + ipart + "."@ + fpart);
        assert(pre + sgn + ipart + "."@ + fpart =~= pre + (sgn + nonempty_or_zero(
            strip_zeros_front(ip@),
        ) + "."@ + fpart));
    }
}

/// Write the escaped body of a JSON string.
fn push_escaped(out: &mut String, s: &str)
    ensures
        final(out)@ == old(out)@ + escape_text(s@),
{
    let ghost pre = out@;
    let n = s.unicode_len();
    let mut k: usize = 0;
    proof {
        assert(s@.take(0) =~= Seq::<char>::empty());
        assert(pre + Seq::<char>::empty() =~= pre);
    }
    while k < n
        invariant
            n == s@.len(),
            k <= n,
            out@ == pre + escape_text(s@.take(k as int)),
        decreases n - k,
    {
        let ghost before = out@;
        let c = s.get_char(k);
        if c == '"' {
            out.append("\\\"");
        } else if c == '\\' {
            out.append("\\\\");
        } else if c == '\u{8}' {
            out.append("\\b");
        } else if c == '\t' {
            out.append("\\t");
        } else if c == '\n' {
            out.append("\\n");
        } else if c == '\u{c}' {
            out.append("\\f");
        } else if c == '\r' {
            out.append("\\r");
        } else if (c as u32) < 32 {
            let u = c as u32;
            out.append("\\u00");
            out.append(hex_str(u / 16));
            out.append(hex_str(u % 16));
            proof {
                assert(((before + "\\u00"@) + hex_str_view(u as int / 16)) + hex_str_view(
                    u as int % 16,
                ) =~= before + ("\\u00"@ + hex_str_view(u as int / 16) + hex_str_view(
                    u as int % 16,
                )));
            }
        } else {
            out.append(s.substring_char(k, k + 1));
            proof {
                assert(s@.subrange(k as int, k + 1) =~= seq![c]);
            }
        }
        proof {
            assert(out@ == before + esc_char(c));
            assert(s@.take(k + 1).drop_last() =~= s@.take(k as int));
            assert(s@.take(k + 1).last() == c);
            assert(escape_text(s@.take(k + 1)) == escape_text(s@.take(k as int)) + esc_char(c));
            assert((pre + escape_text(s@.take(k as int))) + esc_char(c) =~= pre + escape_text(
                s@.take(k + 1),
            ));
        }
        k += 1;
    }
    proof {
        assert(s@.take(n as int) =~= s@);
    }
}

/// Write one JSON value.
fn push_value(out: &mut String, v: &JSONValue)
    ensures
        final(out)@ == old(out)@ + spec_value_text(v@),
{
    match v {
        JSONValue::Bool(b) => {
            if *b {
                out.append("true");
            } else {
                out.append("false");
            }
        },
        JSONValue::Int(i) => {
            push_int(out, *i);
        },
        JSONValue::Float { negative, int_digits, frac_digits } => {
            push_float(out, *negative, int_digits.as_str(), frac_digits.as_str());
        },
        JSONValue::Null => {
            out.append("null");
        },
        JSONValue::String(s) => {
            let ghost pre = out@;
            out.append("\"");
            push_escaped(out, s.as_str());
            out.append("\"");
            proof {
                assert(((pre + "\""@) + escape_text(s@)) + "\""@ =~= pre + ("\""@ + escape_text(
                    s@,
                ) + "\""@));
            }
        },
    }
}

/// Write one single-key object.
fn push_object(out: &mut String, r: &ReprJSON)
    ensures
        final(out)@ == old(out)@ + spec_object_text(r@.0, r@.1),
{
    let ghost pre = out@;
    out.append("{\"");
    out.append(r.key.name());
    out.append("\":");
    push_value(out, &r.value);
    out.append("}");
    proof {
        assert(((((pre + "{\""@) + spec_key_name(r.key)) + "\":"@) + spec_value_text(r.value@))
            + "}"@ =~= pre + ("{\""@ + spec_key_name(r.key) + "\":"@ + spec_value_text(r.value@)
            + "}"@));
    }
}

/// Encode a token sequence as the canonical JSON array text, one single-key
/// object per token, in the tokens' order.
pub fn encode(tokens: &Vec<Term>) -> (r: String)
    ensures
        r@ == spec_encode(crate::term_views(tokens@)),
{
    let ghost vs = crate::term_views(tokens@);
    let mut out = String::new();
    out.append("[");
    let mut i: usize = 0;
    proof {
        assert(Seq::<char>::empty() + "["@ =~= "["@);
        assert(vs.take(0) =~= Seq::<TermView>::empty());
        assert("["@ + Seq::<char>::empty() =~= "["@);
    }
    while i < tokens.len()
        invariant
            vs == crate::term_views(tokens@),
            i <= tokens@.len(),
            vs.len() == tokens@.len(),
            out@ == "["@ + spec_encode_items(vs.take(i as int)),
        decreases tokens@.len() - i,
    {
        let ghost before = out@;
        if i > 0 {
            out.append(",");
        }
        let repr = term_to_repr(&tokens[i]);
        push_object(&mut out, &repr);
        proof {
            assert(vs[i as int] == tokens@[i as int]@);
            assert(vs.take(i + 1).drop_last() =~= vs.take(i as int));
            assert(vs.take(i + 1).last() == vs[i as int]);
            if i == 0 {
                assert(spec_encode_items(vs.take(1)) == spec_encode_term(vs.take(1)[0]));
                assert(vs.take(1)[0] == vs[0]);
                assert((("["@ + Seq::<char>::empty()) + spec_encode_term(vs[0])) =~= "["@
                    + spec_encode_items(vs.take(1)));
                assert(before + spec_encode_term(vs[0]) =~= "["@ + spec_encode_items(vs.take(1)));
            } else {
                assert(spec_encode_items(vs.take(i + 1)) == spec_encode_items(vs.take(i as int))
                    + ","@ + spec_encode_term(vs[i as int]));
                assert(((before + ","@) + spec_encode_term(vs[i as int])) =~= "["@
                    + spec_encode_items(vs.take(i + 1)));
            }
        }
        i += 1;
    }
    out.append("]");
    proof {
        assert(vs.take(tokens@.len() as int) =~= vs);
    }
    out
}

} // verus!
