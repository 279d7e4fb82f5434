use vstd::prelude::*;

use crate::text::{is_alpha_char, is_digit_char, is_name_char, is_space_char, is_word_char,
    digit_val, alpha_char, digit_char, name_char, space_char, word_char};
use crate::{ParseError, Term, TermView};
use vstd::string::StrSliceExecFns;

verus! {

// The mathematical model of the scanner. `spec_next` says which token the
// input's front spells and how many characters it covers; `spec_tokenize`
// iterates it over the whole input. The scanner reads left to right with one
// character of lookahead and never backtracks.

/// Length of the maximal run of whitespace characters at the front.
pub open spec fn space_run(s: Seq<char>) -> int
    decreases s.len(),
{
    if s.len() > 0 && is_space_char(s[0]) {
        1 + space_run(s.skip(1))
    } else {
        0
    }
}

/// Length of the maximal run of name characters (letters and digits) at the
/// front.
pub open spec fn name_run(s: Seq<char>) -> int
    decreases s.len(),
{
    if s.len() > 0 && is_name_char(s[0]) {
        1 + name_run(s.skip(1))
    } else {
        0
    }
}

/// Length of the maximal run of decimal digits at the front.
pub open spec fn digit_run(s: Seq<char>) -> int
    decreases s.len(),
{
    if s.len() > 0 && is_digit_char(s[0]) {
        1 + digit_run(s.skip(1))
    } else {
        0
    }
}

/// Does the front spell an unsigned number: a digit, or `.` followed by a
/// digit?
pub open spec fn starts_unsigned(s: Seq<char>) -> bool {
    s.len() > 0 && (is_digit_char(s[0]) || (s[0] == '.' && s.len() > 1 && is_digit_char(s[1])))
}

/// Does the front spell a number: an optional `+`/`-` sign, then an unsigned
/// number? The sign is part of a number only when what follows it is one.
pub open spec fn starts_number(s: Seq<char>) -> bool {
    if s.len() > 0 && (s[0] == '+' || s[0] == '-') {
        starts_unsigned(s.skip(1))
    } else {
        starts_unsigned(s)
    }
}

/// Length of the Word run at the front: word characters accumulate until the
/// first position where a number starts. `.` therefore stays in the Word
/// unless a digit follows it, and a digit always ends the run.
pub open spec fn word_run(s: Seq<char>) -> int
    decreases s.len(),
{
    if s.len() > 0 && is_word_char(s[0]) && !starts_number(s) {
        1 + word_run(s.skip(1))
    } else {
        0
    }
}

/// Position of the first `"` in `s`, if any.
pub open spec fn find_quote(s: Seq<char>) -> Option<int>
    decreases s.len(),
{
    if s.len() == 0 {
        None
    } else if s[0] == '"' {
        Some(0)
    } else {
        match find_quote(s.skip(1)) {
            Some(j) => Some(j + 1),
            None => None,
        }
    }
}

/// The value of a run of decimal digits read as a base-10 numeral.
pub open spec fn digits_val(s: Seq<char>) -> int
    decreases s.len(),
{
    if s.len() == 0 {
        0
    } else {
        digits_val(s.drop_last()) * 10 + digit_val(s.last())
    }
}

pub open spec fn kw_true() -> Seq<char> {
    seq!['t', 'r', 'u', 'e']
}

pub open spec fn kw_false() -> Seq<char> {
    seq!['f', 'a', 'l', 's', 'e']
}

pub open spec fn kw_null() -> Seq<char> {
    seq!['n', 'u', 'l', 'l']
}

/// Keyword reclassification: a maximal Word run whose text is exactly
/// `true`, `false` or `null` becomes Bool or Null; any other text stays a
/// Word.
pub open spec fn word_class(t: Seq<char>) -> TermView {
    if t == kw_true() {
        TermView::Bool(true)
    } else if t == kw_false() {
        TermView::Bool(false)
    } else if t == kw_null() {
        TermView::Null
    } else {
        TermView::Word(t)
    }
}

/// What one scan step yields: a token covering `n` front characters, or a
/// lexical failure.
pub enum ScanStep {
    Token(TermView, int),
    Fail,
}

/// The number token at the front of `s`; to be applied only when
/// `starts_number(s)` holds. A digit run with `.` and a following digit run
/// is a Float and keeps its digits as scanned; otherwise the digit run is an
/// Int, a failure if its value does not fit a 64-bit signed integer. Only a
/// `-` sign (not `+`) marks a Float negative or negates an Int.
pub open spec fn spec_scan_number(s: Seq<char>) -> ScanStep {
    let sgn: int = if s[0] == '+' || s[0] == '-' {
        1
    } else {
        0
    };
    let neg = s[0] == '-';
    let u = s.skip(sgn);
    let d = digit_run(u);
    if u.len() > d && u[d] == '.' && u.len() > d + 1 && is_digit_char(u[d + 1]) {
        let f = digit_run(u.skip(d + 1));
        ScanStep::Token(
            TermView::Float {
                negative: neg,
                int_digits: u.subrange(0, d),
                frac_digits: u.subrange(d + 1, d + 1 + f),
            },
            sgn + d + 1 + f,
        )
    } else {
        let v = if neg {
            -digits_val(u.subrange(0, d))
        } else {
            digits_val(u.subrange(0, d))
        };
        if i64::MIN <= v && v <= i64::MAX {
            ScanStep::Token(TermView::Int(v), sgn + d)
        } else {
            ScanStep::Fail
        }
    }
}

/// The token at the front of a non-empty input, by rule priority:
/// whitespace, `#` (Id), `$` (Variable or Wildcard), `_` (Hole), `"`
/// (String), number, Word. Every character falls under one of these rules;
/// the only failures are an unterminated string and an Int out of range.
pub open spec fn spec_next(s: Seq<char>) -> ScanStep {
    let c = s[0];
    if is_space_char(c) {
        ScanStep::Token(TermView::Whitespace, space_run(s))
    } else if c == '#' {
        let n = name_run(s.skip(1));
        ScanStep::Token(TermView::Id(s.subrange(1, 1 + n)), 1 + n)
    } else if c == '$' {
        if s.len() > 1 && is_alpha_char(s[1]) {
            let n = name_run(s.skip(1));
            ScanStep::Token(TermView::Variable(s.subrange(1, 1 + n)), 1 + n)
        } else {
            ScanStep::Token(TermView::Wildcard, 1)
        }
    } else if c == '_' {
        ScanStep::Token(TermView::Hole, 1)
    } else if c == '"' {
        match find_quote(s.skip(1)) {
            Some(j) => ScanStep::Token(TermView::Str(s.subrange(1, 1 + j)), j + 2),
            None => ScanStep::Fail,
        }
    } else if starts_number(s) {
        spec_scan_number(s)
    } else {
        let n = word_run(s);
        ScanStep::Token(word_class(s.subrange(0, n)), n)
    }
}

/// The token sequence that `s` spells, or None when the scan fails. The
/// guard on the step length never bites (`lemma_next_in_range`); it keeps
/// the recursion well founded.
pub open spec fn spec_tokenize(s: Seq<char>) -> Option<Seq<TermView>>
    decreases s.len(),
{
    if s.len() == 0 {
        Some(Seq::empty())
    } else {
        match spec_next(s) {
            ScanStep::Fail => None,
            ScanStep::Token(t, n) => if 1 <= n && n <= s.len() {
                match spec_tokenize(s.skip(n)) {
                    Some(r) => Some(seq![t] + r),
                    None => None,
                }
            } else {
                None
            },
        }
    }
}

// Characterizations of the run functions: the run is exactly `k` when the
// first `k` characters satisfy the class and the next one (if any) does not.
// The scanner's loops establish precisely these premises.

pub proof fn lemma_space_run_is(s: Seq<char>, k: int)
    requires
        0 <= k <= s.len(),
        forall|p: int| 0 <= p < k ==> is_space_char(#[trigger] s[p]),
        k == s.len() || !is_space_char(s[k]),
    ensures
        space_run(s) == k,
    decreases k,
{
    if k > 0 {
        lemma_space_run_is(s.skip(1), k - 1);
    }
}

pub proof fn lemma_name_run_is(s: Seq<char>, k: int)
    requires
        0 <= k <= s.len(),
        forall|p: int| 0 <= p < k ==> is_name_char(#[trigger] s[p]),
        k == s.len() || !is_name_char(s[k]),
    ensures
        name_run(s) == k,
    decreases k,
{
    if k > 0 {
        lemma_name_run_is(s.skip(1), k - 1);
    }
}

pub proof fn lemma_digit_run_is(s: Seq<char>, k: int)
    requires
        0 <= k <= s.len(),
        forall|p: int| 0 <= p < k ==> is_digit_char(#[trigger] s[p]),
        k == s.len() || !is_digit_char(s[k]),
    ensures
        digit_run(s) == k,
    decreases k,
{
    if k > 0 {
        lemma_digit_run_is(s.skip(1), k - 1);
    }
}

/// Position `p` continues a Word run: it holds a word character and no
/// number starts there.
pub open spec fn word_step_ok(s: Seq<char>, p: int) -> bool {
    is_word_char(s[p]) && !starts_number(s.skip(p))
}

/// The first `k` positions of `s` all continue a Word run.
pub open spec fn word_prefix_ok(s: Seq<char>, k: int) -> bool {
    forall|p: int| 0 <= p < k ==> #[trigger] word_step_ok(s, p)
}

pub proof fn lemma_word_run_is(s: Seq<char>, k: int)
    requires
        0 <= k <= s.len(),
        word_prefix_ok(s, k),
        k == s.len() || !word_step_ok(s, k),
    ensures
        word_run(s) == k,
    decreases k,
{
    if k > 0 {
        assert(word_step_ok(s, 0));
        assert(s.skip(0) =~= s);
        let s1 = s.skip(1);
        assert forall|p: int| 0 <= p < k - 1 implies #[trigger] word_step_ok(s1, p) by {
            assert(word_step_ok(s, p + 1));
            assert(s1.skip(p) =~= s.skip(p + 1));
            assert(s1[p] == s[p + 1]);
        }
        if k - 1 < s1.len() {
            assert(s1.skip(k - 1) =~= s.skip(k));
        }
        lemma_word_run_is(s1, k - 1);
    } else {
        if s.len() > 0 {
            assert(s.skip(0) =~= s);
        }
    }
}

pub proof fn lemma_find_quote_at(s: Seq<char>, k: int)
    requires
        0 <= k < s.len(),
        s[k] == '"',
        forall|p: int| 0 <= p < k ==> #[trigger] s[p] != '"',
    ensures
        find_quote(s) == Some(k),
    decreases k,
{
    if k > 0 {
        lemma_find_quote_at(s.skip(1), k - 1);
    }
}

pub proof fn lemma_find_quote_none(s: Seq<char>)
    requires
        forall|p: int| 0 <= p < s.len() ==> #[trigger] s[p] != '"',
    ensures
        find_quote(s) is None,
    decreases s.len(),
{
    if s.len() > 0 {
        lemma_find_quote_none(s.skip(1));
    }
}

/// Every character of `s` is a decimal digit.
pub open spec fn all_digits(s: Seq<char>) -> bool {
    forall|p: int| 0 <= p < s.len() ==> is_digit_char(#[trigger] s[p])
}

pub proof fn lemma_digits_val_nonneg(s: Seq<char>)
    requires
        all_digits(s),
    ensures
        0 <= digits_val(s),
    decreases s.len(),
{
    if s.len() > 0 {
        lemma_digits_val_nonneg(s.drop_last());
    }
}

/// Reading more digits never shrinks the value: the value of a prefix is a
/// lower bound for the value of the whole run.
pub proof fn lemma_digits_val_prefix_le(s: Seq<char>, k: int)
    requires
        all_digits(s),
        0 <= k <= s.len(),
    ensures
        digits_val(s.take(k)) <= digits_val(s),
    decreases s.len() - k,
{
    if k == s.len() {
        assert(s.take(k) =~= s);
    } else {
        assert(s.take(k + 1).drop_last() =~= s.take(k));
        assert(s.take(k + 1).last() == s[k]);
        assert(all_digits(s.take(k)));
        lemma_digits_val_nonneg(s.take(k));
        assert(digits_val(s.take(k + 1)) == digits_val(s.take(k)) * 10 + digit_val(s[k]));
        lemma_digits_val_prefix_le(s, k + 1);
    }
}

// The executable scanner. It walks the input once, left to right; each
// helper's contract ties what it did to the model above.

/// Does an unsigned number start at position `j`?
fn unsigned_at(s: &str, j: usize, n: usize) -> (b: bool)
    requires
        n == s@.len(),
        j <= n,
    ensures
        b == starts_unsigned(s@.skip(j as int)),
{
    if j >= n {
        return false;
    }
    let c = s.get_char(j);
    if digit_char(c) {
        true
    } else if c == '.' && j + 1 < n {
        digit_char(s.get_char(j + 1))
    } else {
        false
    }
}

/// Does a number start at position `i`?
fn number_at(s: &str, i: usize, n: usize) -> (b: bool)
    requires
        n == s@.len(),
        i <= n,
    ensures
        b == starts_number(s@.skip(i as int)),
{
    if i >= n {
        return false;
    }
    let c = s.get_char(i);
    if c == '+' || c == '-' {
        let b = unsigned_at(s, i + 1, n);
        proof {
            assert(s@.skip(i as int).skip(1) =~= s@.skip(i + 1));
        }
        b
    } else {
        unsigned_at(s, i, n)
    }
}

/// Scan the whitespace run that starts at `i`.
fn scan_space(s: &str, i: usize, n: usize) -> (j: usize)
    requires
        n == s@.len(),
        i < n,
        is_space_char(s@[i as int]),
    ensures
        i < j <= n,
        space_run(s@.skip(i as int)) == j - i,
{
    let mut j = i;
    while j < n && space_char(s.get_char(j))
        invariant
            n == s@.len(),
            i <= j <= n,
            forall|p: int| i <= p < j ==> is_space_char(#[trigger] s@[p]),
        decreases n - j,
    {
        j += 1;
    }
    proof {
        let u = s@.skip(i as int);
        assert forall|p: int| 0 <= p < j - i implies is_space_char(#[trigger] u[p]) by {
            assert(u[p] == s@[i + p]);
        }
        lemma_space_run_is(u, j - i);
    }
    j
}

/// Scan the run of name characters that starts at `i`.
fn scan_name(s: &str, i: usize, n: usize) -> (j: usize)
    requires
        n == s@.len(),
        i <= n,
    ensures
        i <= j <= n,
        name_run(s@.skip(i as int)) == j - i,
{
    let mut j = i;
    while j < n && name_char(s.get_char(j))
        invariant
            n == s@.len(),
            i <= j <= n,
            forall|p: int| i <= p < j ==> is_name_char(#[trigger] s@[p]),
        decreases n - j,
    {
        j += 1;
    }
    proof {
        let u = s@.skip(i as int);
        assert forall|p: int| 0 <= p < j - i implies is_name_char(#[trigger] u[p]) by {
            assert(u[p] == s@[i + p]);
        }
        lemma_name_run_is(u, j - i);
    }
    j
}

/// Scan the run of decimal digits that starts at `i`.
fn scan_digits(s: &str, i: usize, n: usize) -> (j: usize)
    requires
        n == s@.len(),
        i <= n,
    ensures
        i <= j <= n,
        digit_run(s@.skip(i as int)) == j - i,
        forall|p: int| i <= p < j ==> is_digit_char(#[trigger] s@[p]),
        j == n || !is_digit_char(s@[j as int]),
    decreases n - i,
{
    let mut j = i;
    while j < n && digit_char(s.get_char(j))
        invariant
            n == s@.len(),
            i <= j <= n,
            forall|p: int| i <= p < j ==> is_digit_char(#[trigger] s@[p]),
        decreases n - j,
    {
        j += 1;
    }
    proof {
        let u = s@.skip(i as int);
        assert forall|p: int| 0 <= p < j - i implies is_digit_char(#[trigger] u[p]) by {
            assert(u[p] == s@[i + p]);
        }
        lemma_digit_run_is(u, j - i);
    }
    j
}

/// Scan the Word run that starts at `i`.
fn scan_word(s: &str, i: usize, n: usize) -> (j: usize)
    requires
        n == s@.len(),
        i < n,
        is_word_char(s@[i as int]),
        !starts_number(s@.skip(i as int)),
    ensures
        i < j <= n,
        word_run(s@.skip(i as int)) == j - i,
{
    let mut j = i;
    while j < n && word_char(s.get_char(j)) && !number_at(s, j, n)
        invariant
            n == s@.len(),
            i <= j <= n,
            forall|p: int| i <= p < j ==> is_word_char(#[trigger] s@[p]) && !starts_number(
                s@.skip(p),
            ),
        decreases n - j,
    {
        j += 1;
    }
    proof {
        let u = s@.skip(i as int);
        assert forall|p: int| 0 <= p < j - i implies #[trigger] word_step_ok(u, p) by {
            assert(u[p] == s@[i + p]);
            assert(is_word_char(s@[i + p]) && !starts_number(s@.skip(i + p)));
            assert(u.skip(p) =~= s@.skip(i + p));
        }
        if j < n {
            assert(u.skip(j - i) =~= s@.skip(j as int));
            assert(!word_step_ok(u, j - i));
        }
        lemma_word_run_is(u, j - i);
        assert(u.skip(0) =~= u);
        assert(word_step_ok(u, 0));
    }
    j
}

/// Read the digit run `s[a..b]` as a signed 64-bit integer value (negated
/// when `neg` holds); None when the value does not fit.
fn read_int(s: &str, a: usize, b: usize, neg: bool, n: usize) -> (r: Option<i64>)
    requires
        n == s@.len(),
        a <= b <= n,
        forall|p: int| a <= p < b ==> is_digit_char(#[trigger] s@[p]),
    ensures
        ({
            let m = digits_val(s@.subrange(a as int, b as int));
            let v: int = if neg {
                -m
            } else {
                m
            };
            match r {
                Some(x) => x as int == v && i64::MIN <= v <= i64::MAX,
                None => !(i64::MIN <= v <= i64::MAX),
            }
        }),
{
    let ghost digs = s@.subrange(a as int, b as int);
    proof {
        assert forall|p: int| 0 <= p < digs.len() implies is_digit_char(#[trigger] digs[p]) by {
            assert(digs[p] == s@[a + p]);
        }
    }
    // The magnitude may reach 2^63 for a negative value, 2^63 - 1 otherwise.
    let lim_div: u64 = 922337203685477580;
    let lim_mod: u64 = if neg {
        8
    } else {
        7
    };
    let ghost lim: int = if neg {
        0x8000_0000_0000_0000
    } else {
        0x7fff_ffff_ffff_ffff
    };
    let mut acc: u64 = 0;
    let mut k: usize = a;
    while k < b
        invariant
            n == s@.len(),
            a <= k <= b <= n,
            forall|p: int| a <= p < b ==> is_digit_char(#[trigger] s@[p]),
            digs == s@.subrange(a as int, b as int),
            all_digits(digs),
            lim == if neg { 0x8000_0000_0000_0000int } else { 0x7fff_ffff_ffff_ffffint },
            lim_div == 922337203685477580u64,
            lim_mod == if neg { 8u64 } else { 7u64 },
            acc as int == digits_val(digs.take(k - a)),
            acc as int <= lim,
        decreases b - k,
    {
        let c = s.get_char(k);
        proof {
            assert(is_digit_char(s@[k as int]));
            assert(digs.take(k - a + 1).drop_last() =~= digs.take(k - a));
            assert(digs.take(k - a + 1).last() == s@[k as int]);
        }
        let d: u64 = (c as u32 - 48) as u64;
        proof {
            assert(digit_val(c) == d as int);
            assert(digits_val(digs.take(k - a + 1)) == (acc as int) * 10 + d as int);
        }
        if acc > lim_div || (acc == lim_div && d > lim_mod) {
            proof {
                assert(digits_val(digs.take(k - a + 1)) > lim);
                lemma_digits_val_prefix_le(digs, k - a + 1);
                assert(digits_val(digs) > lim);
            }
            return None;
        }
        acc = acc * 10 + d;
        k += 1;
    }
    proof {
        assert(digs.take(b - a) =~= digs);
    }
    if neg {
        if acc == 9223372036854775808u64 {
            Some(i64::MIN)
        } else {
            Some(0i64 - (acc as i64))
        }
    } else {
        Some(acc as i64)
    }
}

/// Compare two character sequences for equality.
fn str_eq(a: &str, b: &str) -> (r: bool)
    ensures
        r == (a@ == b@),
{
    let na = a.unicode_len();
    let nb = b.unicode_len();
    if na != nb {
        return false;
    }
    let mut k: usize = 0;
    while k < na
        invariant
            na == a@.len(),
            nb == b@.len(),
            na == nb,
            k <= na,
            forall|p: int| 0 <= p < k ==> a@[p] == b@[p],
        decreases na - k,
    {
        if a.get_char(k) != b.get_char(k) {
            return false;
        }
        k += 1;
    }
    proof {
        assert(a@ =~= b@);
    }
    true
}

/// Keyword reclassification of a captured Word run.
fn classify(text: String) -> (t: Term)
    ensures
        t@ == word_class(text@),
{
    proof {
        reveal_strlit("true");
        reveal_strlit("false");
        reveal_strlit("null");
        assert("true"@ =~= kw_true());
        assert("false"@ =~= kw_false());
        assert("null"@ =~= kw_null());
    }
    if str_eq(text.as_str(), "true") {
        Term::Bool { value: true }
    } else if str_eq(text.as_str(), "false") {
        Term::Bool { value: false }
    } else if str_eq(text.as_str(), "null") {
        Term::Null
    } else {
        Term::Word { word: text }
    }
}

/// Scan the single token that starts at position `i`.
#[verifier::rlimit(60)]
fn next_token(s: &str, i: usize, n: usize) -> (r: Result<(Term, usize), ParseError>)
    requires
        n == s@.len(),
        i < n,
    ensures
        match r {
            Ok((t, j)) => i < j <= n && spec_next(s@.skip(i as int)) == ScanStep::Token(
                t@,
                j - i,
            ),
            Err(e) => spec_next(s@.skip(i as int)) is Fail && e.pos == i,
        },
{
    let ghost u = s@.skip(i as int);
    proof {
        assert(u[0] == s@[i as int]);
    }
    let c = s.get_char(i);
    if space_char(c) {
        let j = scan_space(s, i, n);
        Ok((Term::Whitespace, j))
    } else if c == '#' {
        let j = scan_name(s, i + 1, n);
        proof {
            assert(u.skip(1) =~= s@.skip(i + 1));
            assert(u.subrange(1, 1 + (j - i - 1)) =~= s@.subrange(i + 1, j as int));
        }
        let text = s.substring_char(i + 1, j).to_owned();
        Ok((Term::Id { id: text }, j))
    } else if c == '$' {
        if i + 1 < n && alpha_char(s.get_char(i + 1)) {
            let j = scan_name(s, i + 1, n);
            proof {
                assert(u[1] == s@[i + 1]);
                assert(u.skip(1) =~= s@.skip(i + 1));
                assert(u.subrange(1, 1 + (j - i - 1)) =~= s@.subrange(i + 1, j as int));
            }
            let text = s.substring_char(i + 1, j).to_owned();
            Ok((Term::Variable { variable: text }, j))
        } else {
            proof {
                if u.len() > 1 {
                    assert(u[1] == s@[i + 1]);
                }
            }
            Ok((Term::Wildcard, i + 1))
        }
    } else if c == '_' {
        Ok((Term::Hole, i + 1))
    } else if c == '"' {
        let mut j = i + 1;
        while j < n && s.get_char(j) != '"'
            invariant
                n == s@.len(),
                i + 1 <= j <= n,
                forall|p: int| i + 1 <= p < j ==> #[trigger] s@[p] != '"',
            decreases n - j,
        {
            j += 1;
        }
        proof {
            assert(u.skip(1) =~= s@.skip(i + 1));
        }
        if j >= n {
            proof {
                assert forall|p: int| 0 <= p < u.skip(1).len() implies #[trigger] u.skip(1)[p]
                    != '"' by {
                    assert(u.skip(1)[p] == s@[i + 1 + p]);
                }
                lemma_find_quote_none(u.skip(1));
            }
            Err(ParseError { pos: i })
        } else {
            proof {
                assert forall|p: int| 0 <= p < j - i - 1 implies #[trigger] u.skip(1)[p]
                    != '"' by {
                    assert(u.skip(1)[p] == s@[i + 1 + p]);
                }
                assert(u.skip(1)[j - i - 1] == s@[j as int]);
                lemma_find_quote_at(u.skip(1), j - i - 1);
                assert(u.subrange(1, 1 + (j - i - 1)) =~= s@.subrange(i + 1, j as int));
            }
            let text = s.substring_char(i + 1, j).to_owned();
            Ok((Term::String { value: text }, j + 1))
        }
    } else if number_at(s, i, n) {
        let neg = c == '-';
        let a = if c == '+' || c == '-' {
            i + 1
        } else {
            i
        };
        proof {
            assert(u.skip(a - i) =~= s@.skip(a as int));
        }
        let d_end = scan_digits(s, a, n);
        let ghost w = u.skip(a - i);
        proof {
            assert(w.subrange(0, d_end - a) =~= s@.subrange(a as int, d_end as int));
            if d_end < n {
                assert(w[d_end - a] == s@[d_end as int]);
            }
            if d_end + 1 < n {
                assert(w[d_end - a + 1] == s@[d_end + 1]);
            }
        }
        if d_end < n && s.get_char(d_end) == '.' && d_end + 1 < n && digit_char(
            s.get_char(d_end + 1),
        ) {
            let f_end = scan_digits(s, d_end + 1, n);
            proof {
                assert(w.skip(d_end - a + 1) =~= s@.skip(d_end + 1));
                assert(w.subrange(d_end - a + 1, d_end - a + 1 + (f_end - d_end - 1)) =~= s@
                    .subrange(d_end + 1, f_end as int));
            }
            let ip = s.substring_char(a, d_end).to_owned();
            let fp = s.substring_char(d_end + 1, f_end).to_owned();
            Ok((Term::Float { negative: neg, int_digits: ip, frac_digits: fp }, f_end))
        } else {
            proof {
                if d_end < n {
                    assert(w[d_end - a] == s@[d_end as int]);
                }
                assert(w.subrange(0, d_end - a) =~= s@.subrange(a as int, d_end as int));
            }
            match read_int(s, a, d_end, neg, n) {
                Some(v) => Ok((Term::Int { value: v }, d_end)),
                None => Err(ParseError { pos: i }),
            }
        }
    } else {
        let j = scan_word(s, i, n);
        proof {
            assert(u.subrange(0, j - i) =~= s@.subrange(i as int, j as int));
        }
        let text = s.substring_char(i, j).to_owned();
        let t = classify(text);
        Ok((t, j))
    }
}

/// Scan the whole input into its token sequence, or fail with the position
/// of the offending construct.
pub fn tokenize(s: &str) -> (r: Result<Vec<Term>, ParseError>)
    ensures
        match r {
            Ok(ts) => spec_tokenize(s@) == Some(crate::term_views(ts@)),
            Err(e) => spec_tokenize(s@) is None && e.pos <= s@.len(),
        },
{
    let n = s.unicode_len();
    let mut out: Vec<Term> = Vec::new();
    let mut i: usize = 0;
    proof {
        assert(s@.skip(0) =~= s@);
        assert(crate::term_views(out@) =~= Seq::<TermView>::empty());
        let r0 = spec_tokenize(s@);
        if r0 is Some {
            assert(crate::term_views(out@) + r0->Some_0 =~= r0->Some_0);
        }
    }
    while i < n
        invariant
            n == s@.len(),
            i <= n,
            spec_tokenize(s@) == (match spec_tokenize(s@.skip(i as int)) {
                Some(r2) => Some(crate::term_views(out@) + r2),
                None => None::<Seq<TermView>>,
            }),
        decreases n - i,
    {
        let ghost u = s@.skip(i as int);
        match next_token(s, i, n) {
            Ok((t, j)) => {
                proof {
                    assert(u.skip(j - i) =~= s@.skip(j as int));
                    assert(crate::term_views(out@.push(t)) =~= crate::term_views(out@).push(t@));
                    let rest = spec_tokenize(s@.skip(j as int));
                    if rest is Some {
                        assert(crate::term_views(out@) + (seq![t@] + rest->Some_0) =~= crate
                            ::term_views(out@).push(t@) + rest->Some_0);
                    }
                }
                out.push(t);
                i = j;
            },
            Err(e) => {
                return Err(e);
            },
        }
    }
    proof {
        assert(s@.skip(n as int) =~= Seq::<char>::empty());
        assert(crate::term_views(out@) + Seq::<TermView>::empty() =~= crate::term_views(out@));
    }
    Ok(out)
}

} // verus!
