use vstd::prelude::*;

use crate::lexer::{all_digits, digit_run, digits_val, kw_false, kw_null, kw_true,
    lemma_digit_run_is, lemma_name_run_is, lemma_space_run_is, lemma_word_run_is, spec_next,
    spec_scan_number, spec_tokenize, starts_number, starts_unsigned, word_class, word_step_ok,
    ScanStep};
use crate::term_json::{dec_text, digit_str_view, float_text, int_text, nonempty_or_zero,
    spec_encode_term, spec_key_name, spec_object_text, spec_repr, spec_value_text,
    strip_zeros_back, strip_zeros_front, JSONValueView};
use crate::text::{is_alpha_char, is_digit_char, is_name_char, is_space_char, is_word_char,
    digit_val};
use crate::TermView;

verus! {

// The general laws of the lexer and the serializer, each proved from the
// model alone. Scenario-shaped properties live in the crate's tests; what
// holds of all inputs is stated and proved here.

/// Every character of `s` is a letter.
pub open spec fn all_alpha(s: Seq<char>) -> bool {
    forall|p: int| 0 <= p < s.len() ==> is_alpha_char(#[trigger] s[p])
}

/// Every character of `s` is whitespace.
pub open spec fn all_space(s: Seq<char>) -> bool {
    forall|p: int| 0 <= p < s.len() ==> is_space_char(#[trigger] s[p])
}

/// Every character of `s` is a name character.
pub open spec fn all_name(s: Seq<char>) -> bool {
    forall|p: int| 0 <= p < s.len() ==> is_name_char(#[trigger] s[p])
}

/// A letter is a word character and starts no number.
proof fn lemma_alpha_char_facts(c: char)
    requires
        is_alpha_char(c),
    ensures
        is_word_char(c),
        !is_digit_char(c),
        c != '+' && c != '-' && c != '.',
{
}

/// In front of an all-letter word, the scanner reads exactly that word, and
/// reclassifies it by the keyword table, whenever what follows cannot extend
/// the run.
proof fn lemma_next_alpha_word(w: Seq<char>, rest: Seq<char>)
    requires
        w.len() > 0,
        all_alpha(w),
        rest.len() == 0 || !is_word_char(rest[0]) || starts_number(rest),
    ensures
        spec_next(w + rest) == ScanStep::Token(word_class(w), w.len() as int),
{
    let s = w + rest;
    assert forall|p: int| 0 <= p < w.len() implies #[trigger] word_step_ok(s, p) by {
        assert(s[p] == w[p]);
        lemma_alpha_char_facts(w[p]);
        let u = s.skip(p);
        assert(u[0] == w[p]);
        if u.len() > 1 && p + 1 < w.len() {
            assert(u[1] == w[p + 1]);
            lemma_alpha_char_facts(w[p + 1]);
        }
        if u.len() > 1 && p + 1 == w.len() {
            assert(u[1] == rest[0]);
        }
        assert(!starts_number(u));
    }
    if rest.len() > 0 {
        assert(s.skip(w.len() as int) =~= rest);
        assert(s[w.len() as int] == rest[0]);
        assert(!word_step_ok(s, w.len() as int));
    }
    lemma_word_run_is(s, w.len() as int);
    assert(word_step_ok(s, 0));
    assert(s.skip(0) =~= s);
    lemma_alpha_char_facts(w[0]);
    assert(s.subrange(0, w.len() as int) =~= w);
}

/// Unfold one step of the model scan.
proof fn lemma_tokenize_step(s: Seq<char>, t: TermView, n: int)
    requires
        s.len() > 0,
        spec_next(s) == ScanStep::Token(t, n),
        1 <= n <= s.len(),
    ensures
        spec_tokenize(s) == (match spec_tokenize(s.skip(n)) {
            Some(r) => Some(seq![t] + r),
            None => None::<Seq<TermView>>,
        }),
{
}

/// A non-empty text that one Word token can hold whole: word characters
/// only and no digits — a digit would end the run and start a number.
pub open spec fn plain_word(s: Seq<char>) -> bool {
    s.len() > 0 && forall|p: int|
        0 <= p < s.len() ==> is_word_char(#[trigger] s[p]) && !is_digit_char(s[p])
}

/// In front of a plain word the scanner reads exactly that word, whenever
/// what follows can neither extend the run nor lend a digit to a number
/// begun on the word's last characters.
proof fn lemma_next_plain_word(w: Seq<char>, rest: Seq<char>)
    requires
        plain_word(w),
        !starts_unsigned(rest),
        rest.len() == 0 || !is_word_char(rest[0]) || starts_number(rest),
    ensures
        spec_next(w + rest) == ScanStep::Token(word_class(w), w.len() as int),
{
    let s = w + rest;
    assert forall|p: int| 0 <= p < w.len() implies #[trigger] word_step_ok(s, p) by {
        assert(s[p] == w[p]);
        let u = s.skip(p);
        assert(u[0] == w[p]);
        // the character itself is no digit, so no unsigned number starts
        // right here ...
        if u.len() > 1 {
            if p + 1 < w.len() {
                assert(u[1] == w[p + 1]);
            } else {
                assert(u[1] == rest[0]);
                assert(!is_digit_char(rest[0]));
            }
        }
        assert(!starts_unsigned(u));
        // ... and behind a sign character the same holds one position on
        if u[0] == '+' || u[0] == '-' {
            let u1 = u.skip(1);
            assert(u1 =~= s.skip(p + 1));
            if p + 1 == w.len() {
                assert(u1 =~= rest);
            } else {
                assert(u1[0] == w[p + 1]);
                if u1.len() > 1 {
                    if p + 2 < w.len() {
                        assert(u1[1] == w[p + 2]);
                    } else {
                        assert(u1[1] == rest[0]);
                        assert(!is_digit_char(rest[0]));
                    }
                }
            }
            assert(!starts_unsigned(u1));
        }
        assert(!starts_number(u));
    }
    if rest.len() > 0 {
        assert(s.skip(w.len() as int) =~= rest);
        assert(s[w.len() as int] == rest[0]);
        assert(!word_step_ok(s, w.len() as int));
    }
    lemma_word_run_is(s, w.len() as int);
    assert(word_step_ok(s, 0));
    assert(s.skip(0) =~= s);
    assert(s.subrange(0, w.len() as int) =~= w);
}

/// A plain word alone tokenizes to its classification.
proof fn lemma_tokenize_plain_word(w: Seq<char>)
    requires
        plain_word(w),
    ensures
        spec_tokenize(w) == Some(seq![word_class(w)]),
{
    assert(w + Seq::<char>::empty() =~= w);
    lemma_next_plain_word(w, Seq::<char>::empty());
    lemma_tokenize_step(w, word_class(w), w.len() as int);
    assert(w.skip(w.len() as int) =~= Seq::<char>::empty());
    assert(seq![word_class(w)] + Seq::<TermView>::empty() =~= seq![word_class(w)]);
}

/// Keyword exactness: a maximal word run reclassifies exactly when its
/// whole text is `true`, `false` or `null`; any other text, also one merely
/// containing a keyword, stays a Word with its text unchanged.
pub proof fn lemma_keyword_exactness(w: Seq<char>)
    requires
        plain_word(w),
    ensures
        spec_tokenize(w) == Some(seq![word_class(w)]),
        w == kw_true() ==> word_class(w) == TermView::Bool(true),
        w == kw_false() ==> word_class(w) == TermView::Bool(false),
        w == kw_null() ==> word_class(w) == TermView::Null,
        w != kw_true() && w != kw_false() && w != kw_null() ==> word_class(w) == TermView::Word(
            w,
        ),
{
    lemma_tokenize_plain_word(w);
}

/// Whitespace between two words: the token sequence holds the two words'
/// classifications with one Whitespace token between them, whatever the
/// whitespace run looks like.
pub proof fn lemma_words_around_whitespace(w1: Seq<char>, sp: Seq<char>, w2: Seq<char>)
    requires
        plain_word(w1),
        sp.len() > 0,
        all_space(sp),
        plain_word(w2),
    ensures
        spec_tokenize(w1 + sp + w2) == Some(
            seq![word_class(w1), TermView::Whitespace, word_class(w2)],
        ),
{
    let s = w1 + sp + w2;
    let rest1 = sp + w2;
    assert(s =~= w1 + rest1);
    assert(rest1[0] == sp[0]);
    assert(!starts_unsigned(rest1)) by {
        if rest1.len() > 1 {
            assert(rest1[1] == if sp.len() > 1 {
                sp[1]
            } else {
                w2[0]
            });
        }
    }
    lemma_next_plain_word(w1, rest1);
    lemma_tokenize_step(s, word_class(w1), w1.len() as int);
    assert(s.skip(w1.len() as int) =~= rest1);
    // the whitespace run covers exactly sp
    assert forall|p: int| 0 <= p < sp.len() implies is_space_char(#[trigger] rest1[p]) by {
        assert(rest1[p] == sp[p]);
    }
    assert(rest1[sp.len() as int] == w2[0]);
    lemma_space_run_is(rest1, sp.len() as int);
    assert(spec_next(rest1) == ScanStep::Token(TermView::Whitespace, sp.len() as int));
    lemma_tokenize_step(rest1, TermView::Whitespace, sp.len() as int);
    assert(rest1.skip(sp.len() as int) =~= w2);
    lemma_tokenize_plain_word(w2);
    assert(seq![word_class(w1)] + (seq![TermView::Whitespace] + seq![word_class(w2)]) =~= seq![
        word_class(w1),
        TermView::Whitespace,
        word_class(w2),
    ]);
}

/// Whitespace idempotence: between two words, any whitespace run of any
/// length yields the same token sequence as any other.
pub proof fn lemma_whitespace_idempotent(
    w1: Seq<char>,
    sp1: Seq<char>,
    sp2: Seq<char>,
    w2: Seq<char>,
)
    requires
        plain_word(w1),
        sp1.len() > 0,
        all_space(sp1),
        sp2.len() > 0,
        all_space(sp2),
        plain_word(w2),
    ensures
        spec_tokenize(w1 + sp1 + w2) == spec_tokenize(w1 + sp2 + w2),
{
    lemma_words_around_whitespace(w1, sp1, w2);
    lemma_words_around_whitespace(w1, sp2, w2);
}

/// Dot lookahead: an all-letter non-keyword word, then a dot, then digits
/// scan as the word followed by a Float with an empty integer part — the
/// dot is left out of the word because a digit follows it.
pub proof fn lemma_dot_lookahead(x: Seq<char>, y: Seq<char>)
    requires
        x.len() > 0,
        all_alpha(x),
        x != kw_true() && x != kw_false() && x != kw_null(),
        y.len() > 0,
        all_digits(y),
    ensures
        spec_tokenize(x + seq!['.'] + y) == Some(
            seq![
                TermView::Word(x),
                TermView::Float {
                    negative: false,
                    int_digits: Seq::<char>::empty(),
                    frac_digits: y,
                },
            ],
        ),
{
    let rest = seq!['.'] + y;
    let s = x + seq!['.'] + y;
    assert(s =~= x + rest);
    assert(rest[0] == '.');
    assert(rest[1] == y[0]);
    assert(starts_unsigned(rest));
    assert(starts_number(rest));
    lemma_next_alpha_word(x, rest);
    lemma_tokenize_step(s, word_class(x), x.len() as int);
    assert(s.skip(x.len() as int) =~= rest);
    assert(rest.skip(0) =~= rest);
    assert(digit_run(rest) == 0);
    assert(rest.skip(1) =~= y);
    lemma_digit_run_is(y, y.len() as int);
    assert(rest.subrange(0, 0) =~= Seq::<char>::empty());
    assert(rest.subrange(1, 1 + y.len() as int) =~= y);
    let ft = TermView::Float {
        negative: false,
        int_digits: Seq::<char>::empty(),
        frac_digits: y,
    };
    assert(spec_scan_number(rest) == ScanStep::Token(ft, 1 + y.len() as int));
    assert(spec_next(rest) == ScanStep::Token(ft, 1 + y.len() as int));
    lemma_tokenize_step(rest, ft, 1 + y.len() as int);
    assert(rest.skip(1 + y.len() as int) =~= Seq::<char>::empty());
    assert(word_class(x) == TermView::Word(x));
    assert(seq![TermView::Word(x)] + (seq![ft] + Seq::<TermView>::empty()) =~= seq![
        TermView::Word(x),
        ft,
    ]);
}

/// Hole isolation: a `_` next to a word stays a token of its own; the word
/// text neither absorbs it nor merges with it, on either side.
pub proof fn lemma_hole_isolation(w: Seq<char>)
    requires
        plain_word(w),
        w != kw_true() && w != kw_false() && w != kw_null(),
    ensures
        spec_tokenize(w + seq!['_']) == Some(seq![TermView::Word(w), TermView::Hole]),
        spec_tokenize(seq!['_'] + w) == Some(seq![TermView::Hole, TermView::Word(w)]),
{
    let u = seq!['_'];
    let s1 = w + u;
    assert(u[0] == '_');
    lemma_next_plain_word(w, u);
    lemma_tokenize_step(s1, word_class(w), w.len() as int);
    assert(s1.skip(w.len() as int) =~= u);
    assert(spec_next(u) == ScanStep::Token(TermView::Hole, 1));
    lemma_tokenize_step(u, TermView::Hole, 1);
    assert(u.skip(1) =~= Seq::<char>::empty());
    assert(seq![TermView::Hole] + Seq::<TermView>::empty() =~= seq![TermView::Hole]);
    assert(seq![word_class(w)] + seq![TermView::Hole] =~= seq![TermView::Word(w), TermView::Hole]);
    let s2 = u + w;
    assert(s2[0] == '_');
    assert(spec_next(s2) == ScanStep::Token(TermView::Hole, 1));
    lemma_tokenize_step(s2, TermView::Hole, 1);
    assert(s2.skip(1) =~= w);
    lemma_tokenize_plain_word(w);
    assert(seq![TermView::Hole] + seq![word_class(w)] =~= seq![
        TermView::Hole,
        TermView::Word(w),
    ]);
}

/// A `$` that no letter follows covers only itself and scans as a Wildcard,
/// whether it ends the input or whitespace, a digit or punctuation follows.
pub proof fn lemma_wildcard(rest: Seq<char>)
    requires
        rest.len() == 0 || !is_alpha_char(rest[0]),
    ensures
        spec_next(seq!['$'] + rest) == ScanStep::Token(TermView::Wildcard, 1),
{
    let s = seq!['$'] + rest;
    assert(s[0] == '$');
    if rest.len() > 0 {
        assert(s[1] == rest[0]);
    }
}

/// A lone `$` tokenizes to a single Wildcard.
pub proof fn lemma_wildcard_alone()
    ensures
        spec_tokenize(seq!['$']) == Some(seq![TermView::Wildcard]),
{
    let s = seq!['$'];
    assert(s =~= seq!['$'] + Seq::<char>::empty());
    lemma_wildcard(Seq::<char>::empty());
    lemma_tokenize_step(s, TermView::Wildcard, 1);
    assert(s.skip(1) =~= Seq::<char>::empty());
    assert(seq![TermView::Wildcard] + Seq::<TermView>::empty() =~= seq![TermView::Wildcard]);
}

/// A `$` followed by a name that starts with a letter scans as a Variable
/// holding exactly that name.
pub proof fn lemma_variable(w: Seq<char>)
    requires
        w.len() > 0,
        all_name(w),
        is_alpha_char(w[0]),
    ensures
        spec_tokenize(seq!['$'] + w) == Some(seq![TermView::Variable(w)]),
{
    let s = seq!['$'] + w;
    assert(s[0] == '$');
    assert(s[1] == w[0]);
    assert(s.skip(1) =~= w);
    lemma_name_run_is(w, w.len() as int);
    assert(s.subrange(1, 1 + w.len() as int) =~= w);
    assert(spec_next(s) == ScanStep::Token(TermView::Variable(w), 1 + w.len() as int));
    lemma_tokenize_step(s, TermView::Variable(w), 1 + w.len() as int);
    assert(s.skip(1 + w.len() as int) =~= Seq::<char>::empty());
    assert(seq![TermView::Variable(w)] + Seq::<TermView>::empty() =~= seq![
        TermView::Variable(w),
    ]);
}

proof fn lemma_digit_str_view_char(d: int)
    requires
        0 <= d < 10,
    ensures
        digit_str_view(d).len() == 1,
        is_digit_char(digit_str_view(d)[0]),
        digit_val(digit_str_view(d)[0]) == d,
{
    reveal_strlit("0");
    reveal_strlit("1");
    reveal_strlit("2");
    reveal_strlit("3");
    reveal_strlit("4");
    reveal_strlit("5");
    reveal_strlit("6");
    reveal_strlit("7");
    reveal_strlit("8");
    reveal_strlit("9");
}

proof fn lemma_dec_text_digits(v: int)
    requires
        0 <= v,
    ensures
        dec_text(v).len() >= 1,
        all_digits(dec_text(v)),
        digits_val(dec_text(v)) == v,
    decreases v,
{
    if v < 10 {
        lemma_digit_str_view_char(v);
        let d = dec_text(v);
        assert(d.drop_last() =~= Seq::<char>::empty());
        assert(digits_val(d) == digits_val(d.drop_last()) * 10 + digit_val(d.last()));
    } else {
        lemma_dec_text_digits(v / 10);
        lemma_digit_str_view_char(v % 10);
        let a = dec_text(v / 10);
        let b = digit_str_view(v % 10);
        let d = a + b;
        assert(dec_text(v) == d);
        assert(d.drop_last() =~= a);
        assert(d.last() == b[0]);
        assert(digits_val(d) == digits_val(a) * 10 + digit_val(b[0]));
        assert((v / 10) * 10 + v % 10 == v);
        assert forall|p: int| 0 <= p < d.len() implies is_digit_char(#[trigger] d[p]) by {
            if p < a.len() {
                assert(d[p] == a[p]);
            } else {
                assert(d[p] == b[p - a.len()]);
            }
        }
    }
}

/// Sign handling: the canonical decimal spelling of any 64-bit signed
/// integer — `-` included for a negative one — tokenizes to exactly that
/// Int token and nothing else.
pub proof fn lemma_sign_handling(n: int)
    requires
        i64::MIN <= n <= i64::MAX,
    ensures
        spec_tokenize(int_text(n)) == Some(seq![TermView::Int(n)]),
{
    if n >= 0 {
        let s = dec_text(n);
        lemma_dec_text_digits(n);
        lemma_digit_run_is(s, s.len() as int);
        assert(is_digit_char(s[0]));
        assert(starts_unsigned(s));
        assert(s.skip(0) =~= s);
        assert(s.subrange(0, s.len() as int) =~= s);
        assert(spec_scan_number(s) == ScanStep::Token(TermView::Int(n), s.len() as int));
        assert(spec_next(s) == ScanStep::Token(TermView::Int(n), s.len() as int));
        lemma_tokenize_step(s, TermView::Int(n), s.len() as int);
        assert(s.skip(s.len() as int) =~= Seq::<char>::empty());
        assert(seq![TermView::Int(n)] + Seq::<TermView>::empty() =~= seq![TermView::Int(n)]);
    } else {
        let d = dec_text(-n);
        lemma_dec_text_digits(-n);
        reveal_strlit("-");
        let s = "-"@ + d;
        assert(int_text(n) == s);
        assert(s[0] == '-');
        assert(s.skip(1) =~= d);
        lemma_digit_run_is(d, d.len() as int);
        assert(is_digit_char(d[0]));
        assert(starts_unsigned(d));
        assert(starts_number(s));
        assert(d.subrange(0, d.len() as int) =~= d);
        assert(spec_scan_number(s) == ScanStep::Token(TermView::Int(n), 1 + d.len() as int));
        assert(spec_next(s) == ScanStep::Token(TermView::Int(n), 1 + d.len() as int));
        lemma_tokenize_step(s, TermView::Int(n), 1 + d.len() as int);
        assert(s.skip(1 + d.len() as int) =~= Seq::<char>::empty());
        assert(seq![TermView::Int(n)] + Seq::<TermView>::empty() =~= seq![TermView::Int(n)]);
    }
}

/// Sign handling with an explicit `+`: the sign is consumed, and the value
/// is the plain decimal value.
pub proof fn lemma_plus_sign(n: int)
    requires
        0 <= n <= i64::MAX,
    ensures
        spec_tokenize("+"@ + dec_text(n)) == Some(seq![TermView::Int(n)]),
{
    let d = dec_text(n);
    lemma_dec_text_digits(n);
    reveal_strlit("+");
    let s = "+"@ + d;
    assert(s[0] == '+');
    assert(s.skip(1) =~= d);
    lemma_digit_run_is(d, d.len() as int);
    assert(is_digit_char(d[0]));
    assert(starts_unsigned(d));
    assert(starts_number(s));
    assert(d.subrange(0, d.len() as int) =~= d);
    assert(spec_scan_number(s) == ScanStep::Token(TermView::Int(n), 1 + d.len() as int));
    assert(spec_next(s) == ScanStep::Token(TermView::Int(n), 1 + d.len() as int));
    lemma_tokenize_step(s, TermView::Int(n), 1 + d.len() as int);
    assert(s.skip(1 + d.len() as int) =~= Seq::<char>::empty());
    assert(seq![TermView::Int(n)] + Seq::<TermView>::empty() =~= seq![TermView::Int(n)]);
}

/// How often `c` occurs in `s`.
pub open spec fn count_char(s: Seq<char>, c: char) -> int
    decreases s.len(),
{
    if s.len() == 0 {
        0
    } else {
        count_char(s.drop_last(), c) + if s.last() == c {
            1int
        } else {
            0int
        }
    }
}

proof fn lemma_count_char_concat(a: Seq<char>, b: Seq<char>, c: char)
    ensures
        count_char(a + b, c) == count_char(a, c) + count_char(b, c),
    decreases b.len(),
{
    if b.len() == 0 {
        assert(a + b =~= a);
    } else {
        lemma_count_char_concat(a, b.drop_last(), c);
        assert((a + b).drop_last() =~= a + b.drop_last());
        assert((a + b).last() == b.last());
    }
}

proof fn lemma_count_char_digits(s: Seq<char>, c: char)
    requires
        all_digits(s),
        !is_digit_char(c),
    ensures
        count_char(s, c) == 0,
    decreases s.len(),
{
    if s.len() > 0 {
        assert forall|p: int| 0 <= p < s.drop_last().len() implies is_digit_char(
            #[trigger] s.drop_last()[p],
        ) by {
            assert(s.drop_last()[p] == s[p]);
        }
        lemma_count_char_digits(s.drop_last(), c);
    }
}

proof fn lemma_strip_front_digits(s: Seq<char>)
    requires
        all_digits(s),
    ensures
        all_digits(strip_zeros_front(s)),
    decreases s.len(),
{
    if s.len() > 0 && s[0] == '0' {
        assert forall|p: int| 0 <= p < s.skip(1).len() implies is_digit_char(
            #[trigger] s.skip(1)[p],
        ) by {
            assert(s.skip(1)[p] == s[p + 1]);
        }
        lemma_strip_front_digits(s.skip(1));
    }
}

proof fn lemma_strip_back_digits(s: Seq<char>)
    requires
        all_digits(s),
    ensures
        all_digits(strip_zeros_back(s)),
    decreases s.len(),
{
    if s.len() > 0 && s.last() == '0' {
        assert forall|p: int| 0 <= p < s.drop_last().len() implies is_digit_char(
            #[trigger] s.drop_last()[p],
        ) by {
            assert(s.drop_last()[p] == s[p]);
        }
        lemma_strip_back_digits(s.drop_last());
    }
}

/// Encoding shape: every token's wire text is a single-key object — `{"`,
/// one key from the fixed table, `":`, the value's text, `}` — and the key
/// and value are exactly those of the per-variant lookup table.
pub proof fn lemma_encode_single_key(t: TermView)
    ensures
        spec_encode_term(t) == "{\""@ + spec_key_name(spec_repr(t).0) + "\":"@ + spec_value_text(
            spec_repr(t).1,
        ) + "}"@,
        spec_object_text(spec_repr(t).0, spec_repr(t).1) == spec_encode_term(t),
{
}

/// An Int token's wire value never contains a decimal point: a decoder
/// reads an integral JSON number.
pub proof fn lemma_int_encodes_without_dot(i: int)
    ensures
        count_char(spec_value_text(JSONValueView::Int(i)), '.') == 0,
{
    if i >= 0 {
        lemma_dec_text_digits(i);
        lemma_count_char_digits(dec_text(i), '.');
    } else {
        lemma_dec_text_digits(-i);
        lemma_count_char_digits(dec_text(-i), '.');
        reveal_strlit("-");
        assert(count_char("-"@, '.') == 0) by {
            assert("-"@.len() == 1);
            assert("-"@.last() == '-');
            assert("-"@.drop_last() =~= Seq::<char>::empty());
            assert(count_char(Seq::<char>::empty(), '.') == 0);
        }
        lemma_count_char_concat("-"@, dec_text(-i), '.');
    }
}

/// A Float token's wire value contains exactly one decimal point: a decoder
/// reads a JSON number with a fractional part, never an integral one.
pub proof fn lemma_float_encodes_with_dot(negative: bool, ip: Seq<char>, fp: Seq<char>)
    requires
        all_digits(ip),
        all_digits(fp),
    ensures
        count_char(
            spec_value_text(
                JSONValueView::Float { negative, int_digits: ip, frac_digits: fp },
            ),
            '.',
        ) == 1,
{
    reveal_strlit("-");
    reveal_strlit(".");
    reveal_strlit("0");
    let sgn = if negative {
        "-"@
    } else {
        Seq::<char>::empty()
    };
    let a = nonempty_or_zero(strip_zeros_front(ip));
    let b = nonempty_or_zero(strip_zeros_back(fp));
    lemma_strip_front_digits(ip);
    lemma_strip_back_digits(fp);
    assert(all_digits(a)) by {
        if strip_zeros_front(ip).len() == 0 {
            assert(a == "0"@);
            assert(a[0] == '0');
        }
    }
    assert(all_digits(b)) by {
        if strip_zeros_back(fp).len() == 0 {
            assert(b == "0"@);
            assert(b[0] == '0');
        }
    }
    lemma_count_char_digits(a, '.');
    lemma_count_char_digits(b, '.');
    assert(count_char(sgn, '.') == 0) by {
        assert(count_char(Seq::<char>::empty(), '.') == 0);
        if negative {
            assert("-"@.len() == 1);
            assert("-"@.last() == '-');
            assert("-"@.drop_last() =~= Seq::<char>::empty());
        }
    }
    assert(count_char("."@, '.') == 1) by {
        assert("."@.drop_last() =~= Seq::<char>::empty());
        assert("."@.last() == '.');
    }
    lemma_count_char_concat(sgn, a, '.');
    lemma_count_char_concat(sgn + a, "."@, '.');
    lemma_count_char_concat(sgn + a + "."@, b, '.');
    assert(float_text(negative, ip, fp) == sgn + a + "."@ + b);
}

} // verus!
