//! Readers for values: integers, floats, booleans, dates and times, strings,
//! arrays and inline tables, and key/value pairs. Each states where its text
//! ends and that rendering what it read gives back the text it consumed.
use vstd::prelude::*;
use vstd::string::StrSliceExecFns;
use crate::ast::structs::{WSSep, comment_nls_text};
use crate::ast::values::{Value, ArrayType, Array, ArrayValue, InlineTable, TableKeyVal, KeyVal, quote,
    values_text, keyvals_text};
use crate::types::{StrType, DateTime, Date, Time, TimeOffset, TimeOffsetAmount};
use crate::grammar::{ws_end, key_end, scan_ws, scan_key, lemma_ws_end};
use crate::parser::{array_sep_at, cons_end, cons_at, cons_are, read_cons, read_array_sep};
use crate::objects::{TOMLParser, value_array_type};

verus! {

/// A decimal digit of any script (Unicode category Nd), as `\d` matches in a pattern.
pub open spec fn is_digit(c: char) -> bool {
    let u = c as u32;
    (48 <= u && u <= 57) || (1632 <= u && u <= 1641) || (1776 <= u && u <= 1785) ||
        (1984 <= u && u <= 1993) || (2406 <= u && u <= 2415) || (2534 <= u && u <= 2543) ||
        (2662 <= u && u <= 2671) || (2790 <= u && u <= 2799) || (2918 <= u && u <= 2927) ||
        (3046 <= u && u <= 3055) || (3174 <= u && u <= 3183) || (3302 <= u && u <= 3311) ||
        (3430 <= u && u <= 3439) || (3558 <= u && u <= 3567) || (3664 <= u && u <= 3673) ||
        (3792 <= u && u <= 3801) || (3872 <= u && u <= 3881) || (4160 <= u && u <= 4169) ||
        (4240 <= u && u <= 4249) || (6112 <= u && u <= 6121) || (6160 <= u && u <= 6169) ||
        (6470 <= u && u <= 6479) || (6608 <= u && u <= 6617) || (6784 <= u && u <= 6793) ||
        (6800 <= u && u <= 6809) || (6992 <= u && u <= 7001) || (7088 <= u && u <= 7097) ||
        (7232 <= u && u <= 7241) || (7248 <= u && u <= 7257) || (42528 <= u && u <= 42537) ||
        (43216 <= u && u <= 43225) || (43264 <= u && u <= 43273) ||
        (43472 <= u && u <= 43481) || (43504 <= u && u <= 43513) ||
        (43600 <= u && u <= 43609) || (44016 <= u && u <= 44025) ||
        (65296 <= u && u <= 65305) || (66720 <= u && u <= 66729) ||
        (68912 <= u && u <= 68921) || (69734 <= u && u <= 69743) ||
        (69872 <= u && u <= 69881) || (69942 <= u && u <= 69951) ||
        (70096 <= u && u <= 70105) || (70384 <= u && u <= 70393) ||
        (70736 <= u && u <= 70745) || (70864 <= u && u <= 70873) ||
        (71248 <= u && u <= 71257) || (71360 <= u && u <= 71369) ||
        (71472 <= u && u <= 71481) || (71904 <= u && u <= 71913) ||
        (72016 <= u && u <= 72025) || (72784 <= u && u <= 72793) ||
        (73040 <= u && u <= 73049) || (73120 <= u && u <= 73129) ||
        (92768 <= u && u <= 92777) || (92864 <= u && u <= 92873) ||
        (93008 <= u && u <= 93017) || (120782 <= u && u <= 120831) ||
        (123200 <= u && u <= 123209) || (123632 <= u && u <= 123641) ||
        (125264 <= u && u <= 125273) || (130032 <= u && u <= 130041)
}

/// A digit from 0 to 9.
pub open spec fn is_ascii_digit(c: char) -> bool {
    '0' <= c && c <= '9'
}

/// The end of a run of digits, each possibly after one `_`, from `p`.
pub open spec fn digits_us_end(s: Seq<char>, p: int) -> int
    decreases s.len() - p,
{
    if 0 <= p < s.len() && is_digit(s[p]) {
        digits_us_end(s, p + 1)
    } else if 0 <= p && p + 1 < s.len() && s[p] == '_' && is_digit(s[p + 1]) {
        digits_us_end(s, p + 2)
    } else {
        p
    }
}

/// The end of the digits of a number from `p`: a digit from 1 to 9 followed
/// by at least one more digit (each possibly after `_`), or else one digit.
pub open spec fn int_body_end(s: Seq<char>, p: int) -> Option<int> {
    if 0 <= p < s.len() && '1' <= s[p] && s[p] <= '9' && digits_us_end(s, p + 1) > p + 1 {
        Some(digits_us_end(s, p + 1))
    } else if 0 <= p < s.len() && is_digit(s[p]) {
        Some(p + 1)
    } else {
        None
    }
}

/// Past a `+` or `-` at `i`, where there is one.
pub open spec fn sign_skip(s: Seq<char>, i: int) -> int {
    if 0 <= i < s.len() && (s[i] == '+' || s[i] == '-') {
        i + 1
    } else {
        i
    }
}

/// The end of an integer from `i`: an optional sign and the digits.
pub open spec fn integer_end(s: Seq<char>, i: int) -> Option<int> {
    int_body_end(s, sign_skip(s, i))
}

/// The end of a fraction from `p`: `.`, a digit, and more digits.
pub open spec fn frac_end(s: Seq<char>, p: int) -> Option<int> {
    if 0 <= p && p + 1 < s.len() && s[p] == '.' && is_digit(s[p + 1]) {
        Some(digits_us_end(s, p + 2))
    } else {
        None
    }
}

/// The end of an exponent from `p`: `e` or `E`, an optional sign, the digits.
pub open spec fn exp_end(s: Seq<char>, p: int) -> Option<int> {
    if 0 <= p < s.len() && (s[p] == 'e' || s[p] == 'E') {
        int_body_end(s, sign_skip(s, p + 1))
    } else {
        None
    }
}

/// The end of a float from `i`: an integer, then a fraction and an exponent,
/// or a fraction alone, or an exponent alone.
pub open spec fn float_end(s: Seq<char>, i: int) -> Option<int> {
    match integer_end(s, i) {
        Some(q) => match frac_end(s, q) {
            Some(f) => match exp_end(s, f) {
                Some(x) => Some(x),
                None => Some(f),
            },
            None => exp_end(s, q),
        },
        None => None,
    }
}

/// The text stands in `s` from `i`.
pub open spec fn text_at(s: Seq<char>, i: int, t: Seq<char>) -> bool {
    0 <= i && i + t.len() <= s.len() && s.subrange(i, i + t.len()) == t
}

/// The end of `true` or `false` from `i`, and which of them.
pub open spec fn boolean_at(s: Seq<char>, i: int) -> Option<(int, bool)> {
    if text_at(s, i, seq!['f', 'a', 'l', 's', 'e']) {
        Some((i + 5, false))
    } else if text_at(s, i, seq!['t', 'r', 'u', 'e']) {
        Some((i + 4, true))
    } else {
        None
    }
}

/// A character that may stand in a basic string: anything from a space up but
/// `"`, and form feed, newline, carriage return and tab.
pub open spec fn basic_char(c: char) -> bool {
    (c >= ' ' && c != '"') || c == '\x0C' || c == '\n' || c == '\r' || c == '\t'
}

/// A character that may stand in a multi-line basic string.
pub open spec fn ml_basic_char(c: char) -> bool {
    c >= ' ' || c == '\x0C' || c == '\n' || c == '\r' || c == '\t'
}

/// A character that may stand in a literal string: a tab, or anything from a
/// space up but `'`.
pub open spec fn literal_char(c: char) -> bool {
    c == '\t' || (c >= ' ' && c != '\'')
}

/// Three times `q` at `p`.
pub open spec fn triple_at(s: Seq<char>, p: int, q: char) -> bool {
    0 <= p && p + 3 <= s.len() && s[p] == q && s[p + 1] == q && s[p + 2] == q
}

/// The end of the closing quote of a basic string whose body starts at `p`:
/// the first `"` reached; `\"` is passed over, unless nothing closes the string
/// after it, and then its quote closes the string.
pub open spec fn basic_body_end(s: Seq<char>, p: int) -> Option<int>
    decreases s.len() - p,
{
    if !(0 <= p < s.len()) {
        None
    } else if s[p] == '"' {
        Some(p + 1)
    } else if s[p] == '\\' && p + 1 < s.len() && s[p + 1] == '"' {
        match basic_body_end(s, p + 2) {
            Some(e) => Some(e),
            None => Some(p + 2),
        }
    } else if basic_char(s[p]) {
        basic_body_end(s, p + 1)
    } else {
        None
    }
}

/// The end of the closing quotes of a multi-line basic string whose body
/// starts at `p`: the first `"""` reached, with `\"` passed over as in a basic
/// string.
pub open spec fn ml_basic_body_end(s: Seq<char>, p: int) -> Option<int>
    decreases s.len() - p,
{
    if triple_at(s, p, '"') {
        Some(p + 3)
    } else if !(0 <= p < s.len()) {
        None
    } else if s[p] == '\\' && p + 1 < s.len() && s[p + 1] == '"' {
        match ml_basic_body_end(s, p + 2) {
            Some(e) => Some(e),
            None => if triple_at(s, p + 1, '"') {
                Some(p + 4)
            } else {
                None
            },
        }
    } else if ml_basic_char(s[p]) {
        ml_basic_body_end(s, p + 1)
    } else {
        None
    }
}

/// The end of the closing quote of a literal string whose body starts at `p`.
pub open spec fn literal_body_end(s: Seq<char>, p: int) -> Option<int>
    decreases s.len() - p,
{
    if !(0 <= p < s.len()) {
        None
    } else if s[p] == '\'' {
        Some(p + 1)
    } else if literal_char(s[p]) {
        literal_body_end(s, p + 1)
    } else {
        None
    }
}

/// The end of the closing quotes of a multi-line literal string whose body
/// starts at `p`: tabs, characters from a space up, `\n` and `\r\n` up to the
/// first `'''`.
pub open spec fn ml_literal_body_end(s: Seq<char>, p: int) -> Option<int>
    decreases s.len() - p,
{
    if triple_at(s, p, '\'') {
        Some(p + 3)
    } else if !(0 <= p < s.len()) {
        None
    } else if s[p] == '\r' && p + 1 < s.len() && s[p + 1] == '\n' {
        ml_literal_body_end(s, p + 2)
    } else if s[p] == '\t' || s[p] >= ' ' || s[p] == '\n' {
        ml_literal_body_end(s, p + 1)
    } else {
        None
    }
}

/// The end of a string from `i` and its kind: multi-line literal, multi-line
/// basic, basic or literal, the first that reads.
pub open spec fn string_at(s: Seq<char>, i: int) -> Option<(int, StrType)> {
    if triple_at(s, i, '\'') && ml_literal_body_end(s, i + 3) is Some {
        Some((ml_literal_body_end(s, i + 3).unwrap(), StrType::MLLiteral))
    } else if triple_at(s, i, '"') && ml_basic_body_end(s, i + 3) is Some {
        Some((ml_basic_body_end(s, i + 3).unwrap(), StrType::MLBasic))
    } else if 0 <= i < s.len() && s[i] == '"' && basic_body_end(s, i + 1) is Some {
        Some((basic_body_end(s, i + 1).unwrap(), StrType::Basic))
    } else if 0 <= i < s.len() && s[i] == '\'' && literal_body_end(s, i + 1) is Some {
        Some((literal_body_end(s, i + 1).unwrap(), StrType::Literal))
    } else {
        None
    }
}

/// Two digits at `p`.
pub open spec fn two_digits(s: Seq<char>, p: int) -> bool {
    0 <= p && p + 2 <= s.len() && is_ascii_digit(s[p]) && is_ascii_digit(s[p + 1])
}

/// The end of a run of digits from `p`.
pub open spec fn digit_run_end(s: Seq<char>, p: int) -> int
    decreases s.len() - p,
{
    if 0 <= p < s.len() && is_ascii_digit(s[p]) {
        digit_run_end(s, p + 1)
    } else {
        p
    }
}

/// `YYYY-MM-DDTHH:MM:SS` from `i`.
pub open spec fn date_time_head(s: Seq<char>, i: int) -> bool {
    &&& two_digits(s, i) && two_digits(s, i + 2)
    &&& i + 19 <= s.len()
    &&& s[i + 4] == '-' && two_digits(s, i + 5) && s[i + 7] == '-' && two_digits(s, i + 8)
    &&& s[i + 10] == 'T'
    &&& two_digits(s, i + 11) && s[i + 13] == ':' && two_digits(s, i + 14) && s[i + 16] == ':'
    &&& two_digits(s, i + 17)
}

/// Where the fraction of the seconds of a date and time from `i` ends: after
/// `.` and at least one digit, or right after the seconds.
pub open spec fn date_time_frac(s: Seq<char>, i: int) -> int {
    let p = i + 19;
    if 0 <= p && p + 1 < s.len() && s[p] == '.' && is_ascii_digit(s[p + 1]) {
        digit_run_end(s, p + 1)
    } else {
        p
    }
}

/// The end of a date and time from `i`: the head, the fraction, then `Z` or an
/// offset `+HH:MM` or `-HH:MM`.
pub open spec fn date_time_end(s: Seq<char>, i: int) -> Option<int> {
    if date_time_head(s, i) {
        let f = date_time_frac(s, i);
        if 0 <= f < s.len() && s[f] == 'Z' {
            Some(f + 1)
        } else if 0 <= f < s.len() && (s[f] == '+' || s[f] == '-') && two_digits(s, f + 1)
            && f + 3 < s.len() && s[f + 3] == ':' && two_digits(s, f + 4) {
            Some(f + 6)
        } else {
            None
        }
    } else {
        None
    }
}

/// The end of a value from `i` that is neither an array nor an inline table:
/// a date and time, a float, an integer, a boolean or a string, the first that
/// reads.
pub open spec fn scalar_end(s: Seq<char>, i: int) -> Option<int> {
    if date_time_end(s, i) is Some {
        date_time_end(s, i)
    } else if float_end(s, i) is Some {
        float_end(s, i)
    } else if integer_end(s, i) is Some {
        integer_end(s, i)
    } else if boolean_at(s, i) is Some {
        Some(boolean_at(s, i).unwrap().0)
    } else if string_at(s, i) is Some {
        Some(string_at(s, i).unwrap().0)
    } else {
        None
    }
}

proof fn lemma_digits_us_end(s: Seq<char>, p: int)
    requires
        0 <= p <= s.len(),
    ensures
        p <= digits_us_end(s, p) <= s.len(),
    decreases s.len() - p,
{
    if p < s.len() && is_digit(s[p]) {
        lemma_digits_us_end(s, p + 1);
    } else if p + 1 < s.len() && s[p] == '_' && is_digit(s[p + 1]) {
        lemma_digits_us_end(s, p + 2);
    }
}

proof fn lemma_digit_run_end(s: Seq<char>, p: int)
    requires
        0 <= p <= s.len(),
    ensures
        p <= digit_run_end(s, p) <= s.len(),
        forall|m: int| p <= m < digit_run_end(s, p) ==> #[trigger] is_ascii_digit(s[m]),
    decreases s.len() - p,
{
    if p < s.len() && is_ascii_digit(s[p]) {
        lemma_digit_run_end(s, p + 1);
    }
}

fn is_digit_char(c: char) -> (r: bool)
    ensures
        r == is_digit(c),
{
    let u = c as u32;
        (48 <= u && u <= 57) || (1632 <= u && u <= 1641) || (1776 <= u && u <= 1785) ||
        (1984 <= u && u <= 1993) || (2406 <= u && u <= 2415) || (2534 <= u && u <= 2543) ||
        (2662 <= u && u <= 2671) || (2790 <= u && u <= 2799) || (2918 <= u && u <= 2927) ||
        (3046 <= u && u <= 3055) || (3174 <= u && u <= 3183) || (3302 <= u && u <= 3311) ||
        (3430 <= u && u <= 3439) || (3558 <= u && u <= 3567) || (3664 <= u && u <= 3673) ||
        (3792 <= u && u <= 3801) || (3872 <= u && u <= 3881) || (4160 <= u && u <= 4169) ||
        (4240 <= u && u <= 4249) || (6112 <= u && u <= 6121) || (6160 <= u && u <= 6169) ||
        (6470 <= u && u <= 6479) || (6608 <= u && u <= 6617) || (6784 <= u && u <= 6793) ||
        (6800 <= u && u <= 6809) || (6992 <= u && u <= 7001) || (7088 <= u && u <= 7097) ||
        (7232 <= u && u <= 7241) || (7248 <= u && u <= 7257) || (42528 <= u && u <= 42537) ||
        (43216 <= u && u <= 43225) || (43264 <= u && u <= 43273) ||
        (43472 <= u && u <= 43481) || (43504 <= u && u <= 43513) ||
        (43600 <= u && u <= 43609) || (44016 <= u && u <= 44025) ||
        (65296 <= u && u <= 65305) || (66720 <= u && u <= 66729) ||
        (68912 <= u && u <= 68921) || (69734 <= u && u <= 69743) ||
        (69872 <= u && u <= 69881) || (69942 <= u && u <= 69951) ||
        (70096 <= u && u <= 70105) || (70384 <= u && u <= 70393) ||
        (70736 <= u && u <= 70745) || (70864 <= u && u <= 70873) ||
        (71248 <= u && u <= 71257) || (71360 <= u && u <= 71369) ||
        (71472 <= u && u <= 71481) || (71904 <= u && u <= 71913) ||
        (72016 <= u && u <= 72025) || (72784 <= u && u <= 72793) ||
        (73040 <= u && u <= 73049) || (73120 <= u && u <= 73129) ||
        (92768 <= u && u <= 92777) || (92864 <= u && u <= 92873) ||
        (93008 <= u && u <= 93017) || (120782 <= u && u <= 120831) ||
        (123200 <= u && u <= 123209) || (123632 <= u && u <= 123641) ||
        (125264 <= u && u <= 125273) || (130032 <= u && u <= 130041)
}

fn is_ascii_digit_char(c: char) -> (r: bool)
    ensures
        r == is_ascii_digit(c),
{
    '0' <= c && c <= '9'
}

fn scan_digits_us(s: &str, n: usize, p: usize) -> (r: usize)
    requires
        n == s@.len(),
        p <= n,
    ensures
        r == digits_us_end(s@, p as int),
        p <= r <= n,
{
    proof {
        lemma_digits_us_end(s@, p as int);
    }
    let mut j = p;
    loop
        invariant
            p <= j <= n,
            n == s@.len(),
            digits_us_end(s@, j as int) == digits_us_end(s@, p as int),
        decreases n - j,
    {
        if j < n && is_digit_char(s.get_char(j)) {
            j = j + 1;
        } else if j < n && n - j >= 2 && s.get_char(j) == '_' && is_digit_char(s.get_char(j + 1)) {
            j = j + 2;
        } else {
            return j;
        }
    }
}

fn scan_digit_run(s: &str, n: usize, p: usize) -> (r: usize)
    requires
        n == s@.len(),
        p <= n,
    ensures
        r == digit_run_end(s@, p as int),
        p <= r <= n,
{
    proof {
        lemma_digit_run_end(s@, p as int);
    }
    let mut j = p;
    while j < n && is_ascii_digit_char(s.get_char(j))
        invariant
            p <= j <= n,
            n == s@.len(),
            digit_run_end(s@, j as int) == digit_run_end(s@, p as int),
        decreases n - j,
    {
        j = j + 1;
    }
    j
}

fn read_int_body(s: &str, n: usize, p: usize) -> (r: Option<usize>)
    requires
        n == s@.len(),
        p <= n,
    ensures
        r matches Some(e) ==> int_body_end(s@, p as int) == Some(e as int) && p < e <= n,
        r is None ==> int_body_end(s@, p as int) is None,
{
    if p < n {
        let c = s.get_char(p);
        if '1' <= c && c <= '9' && p + 1 <= n {
            let e = scan_digits_us(s, n, p + 1);
            if e > p + 1 {
                return Some(e);
            }
        }
        if is_digit_char(c) {
            return Some(p + 1);
        }
    }
    None
}

fn skip_sign(s: &str, n: usize, i: usize) -> (r: usize)
    requires
        n == s@.len(),
        i <= n,
    ensures
        r == sign_skip(s@, i as int),
        i <= r <= n,
{
    if i < n && (s.get_char(i) == '+' || s.get_char(i) == '-') {
        i + 1
    } else {
        i
    }
}

fn read_integer(s: &str, n: usize, i: usize) -> (r: Option<usize>)
    requires
        n == s@.len(),
        i <= n,
    ensures
        r matches Some(e) ==> integer_end(s@, i as int) == Some(e as int) && i < e <= n,
        r is None ==> integer_end(s@, i as int) is None,
{
    let p = skip_sign(s, n, i);
    read_int_body(s, n, p)
}

fn read_exp(s: &str, n: usize, p: usize) -> (r: Option<usize>)
    requires
        n == s@.len(),
        p <= n,
    ensures
        r matches Some(e) ==> exp_end(s@, p as int) == Some(e as int) && p < e <= n,
        r is None ==> exp_end(s@, p as int) is None,
{
    if p < n && (s.get_char(p) == 'e' || s.get_char(p) == 'E') {
        let q = skip_sign(s, n, p + 1);
        read_int_body(s, n, q)
    } else {
        None
    }
}

fn read_float(s: &str, n: usize, i: usize) -> (r: Option<usize>)
    requires
        n == s@.len(),
        i <= n,
    ensures
        r matches Some(e) ==> float_end(s@, i as int) == Some(e as int) && i < e <= n,
        r is None ==> float_end(s@, i as int) is None,
{
    match read_integer(s, n, i) {
        Some(q) => {
            if q < n && n - q >= 2 && s.get_char(q) == '.' && is_digit_char(s.get_char(q + 1)) {
                let f = scan_digits_us(s, n, q + 2);
                match read_exp(s, n, f) {
                    Some(x) => Some(x),
                    None => Some(f),
                }
            } else {
                read_exp(s, n, q)
            }
        },
        None => None,
    }
}

fn text_is(s: &str, n: usize, i: usize, t: &str) -> (r: bool)
    requires
        n == s@.len(),
        i <= n,
    ensures
        r == text_at(s@, i as int, t@),
{
    let m = t.unicode_len();
    if m > n - i {
        return false;
    }
    let mut k: usize = 0;
    while k < m
        invariant
            k <= m,
            m == t@.len(),
            i + m <= n,
            n == s@.len(),
            forall|j: int| 0 <= j < k ==> s@[i + j] == t@[j],
        decreases m - k,
    {
        if s.get_char(i + k) != t.get_char(k) {
            proof {
                assert(s@.subrange(i as int, i + m)[k as int] != t@[k as int]);
            }
            return false;
        }
        k = k + 1;
    }
    proof {
        assert(s@.subrange(i as int, i + m) =~= t@);
    }
    true
}

fn read_boolean(s: &str, n: usize, i: usize) -> (r: Option<(usize, bool)>)
    requires
        n == s@.len(),
        i <= n,
    ensures
        r matches Some((e, b)) ==> boolean_at(s@, i as int) == Some((e as int, b)) && i < e <= n,
        r is None ==> boolean_at(s@, i as int) is None,
{
    proof {
        reveal_strlit("false");
        reveal_strlit("true");
        assert("false"@ =~= seq!['f', 'a', 'l', 's', 'e']);
        assert("true"@ =~= seq!['t', 'r', 'u', 'e']);
    }
    if text_is(s, n, i, "false") {
        Some((i + 5, false))
    } else if text_is(s, n, i, "true") {
        Some((i + 4, true))
    } else {
        None
    }
}

fn is_triple(s: &str, n: usize, p: usize, q: char) -> (r: bool)
    requires
        n == s@.len(),
    ensures
        r == triple_at(s@, p as int, q),
{
    p <= n && n - p >= 3 && s.get_char(p) == q && s.get_char(p + 1) == q && s.get_char(p + 2) == q
}

fn read_basic_body(s: &str, n: usize, p: usize) -> (r: Option<usize>)
    requires
        n == s@.len(),
        p <= n,
    ensures
        r matches Some(e) ==> basic_body_end(s@, p as int) == Some(e as int) && p < e <= n
            && s@[e - 1] == '"',
        r is None ==> basic_body_end(s@, p as int) is None,
{
    let mut j = p;
    let mut fb: Option<usize> = None;
    loop
        invariant
            p <= j <= n,
            n == s@.len(),
            basic_body_end(s@, p as int) == match basic_body_end(s@, j as int) {
                Some(e) => Some(e),
                None => match fb {
                    Some(f) => Some(f as int),
                    None => None,
                },
            },
            fb matches Some(f) ==> p < f <= n && s@[f - 1] == '"',
        decreases n - j,
    {
        if j >= n {
            return fb;
        }
        let c = s.get_char(j);
        if c == '"' {
            return Some(j + 1);
        } else if c == '\\' && j + 1 < n && s.get_char(j + 1) == '"' {
            fb = Some(j + 2);
            j = j + 2;
        } else if (c >= ' ' && c != '"') || c == '\x0C' || c == '\n' || c == '\r' || c == '\t' {
            j = j + 1;
        } else {
            return fb;
        }
    }
}

fn read_ml_basic_body(s: &str, n: usize, p: usize) -> (r: Option<usize>)
    requires
        n == s@.len(),
        p <= n,
    ensures
        r matches Some(e) ==> ml_basic_body_end(s@, p as int) == Some(e as int) && p + 3 <= e <= n
            && triple_at(s@, e - 3, '"'),
        r is None ==> ml_basic_body_end(s@, p as int) is None,
{
    let mut j = p;
    let mut fb: Option<usize> = None;
    loop
        invariant
            p <= j <= n,
            n == s@.len(),
            ml_basic_body_end(s@, p as int) == match ml_basic_body_end(s@, j as int) {
                Some(e) => Some(e),
                None => match fb {
                    Some(f) => Some(f as int),
                    None => None,
                },
            },
            fb matches Some(f) ==> p + 3 <= f <= n && triple_at(s@, f - 3, '"'),
        decreases n - j,
    {
        if is_triple(s, n, j, '"') {
            return Some(j + 3);
        }
        if j >= n {
            return fb;
        }
        let c = s.get_char(j);
        if c == '\\' && j + 1 < n && s.get_char(j + 1) == '"' {
            if is_triple(s, n, j + 1, '"') {
                fb = Some(j + 4);
            }
            j = j + 2;
        } else if c >= ' ' || c == '\x0C' || c == '\n' || c == '\r' || c == '\t' {
            j = j + 1;
        } else {
            return fb;
        }
    }
}

fn read_literal_body(s: &str, n: usize, p: usize) -> (r: Option<usize>)
    requires
        n == s@.len(),
        p <= n,
    ensures
        r matches Some(e) ==> literal_body_end(s@, p as int) == Some(e as int) && p < e <= n
            && s@[e - 1] == '\'',
        r is None ==> literal_body_end(s@, p as int) is None,
{
    let mut j = p;
    loop
        invariant
            p <= j <= n,
            n == s@.len(),
            literal_body_end(s@, p as int) == literal_body_end(s@, j as int),
        decreases n - j,
    {
        if j >= n {
            return None;
        }
        let c = s.get_char(j);
        if c == '\'' {
            return Some(j + 1);
        } else if c == '\t' || (c >= ' ' && c != '\'') {
            j = j + 1;
        } else {
            return None;
        }
    }
}

fn read_ml_literal_body(s: &str, n: usize, p: usize) -> (r: Option<usize>)
    requires
        n == s@.len(),
        p <= n,
    ensures
        r matches Some(e) ==> ml_literal_body_end(s@, p as int) == Some(e as int) && p + 3 <= e <= n
            && triple_at(s@, e - 3, '\''),
        r is None ==> ml_literal_body_end(s@, p as int) is None,
{
    let mut j = p;
    loop
        invariant
            p <= j <= n,
            n == s@.len(),
            ml_literal_body_end(s@, p as int) == ml_literal_body_end(s@, j as int),
        decreases n - j,
    {
        if is_triple(s, n, j, '\'') {
            return Some(j + 3);
        }
        if j >= n {
            return None;
        }
        let c = s.get_char(j);
        if c == '\r' && j + 1 < n && s.get_char(j + 1) == '\n' {
            j = j + 2;
        } else if c == '\t' || c >= ' ' || c == '\n' {
            j = j + 1;
        } else {
            return None;
        }
    }
}

fn read_string(s: &str, n: usize, i: usize) -> (r: Option<(usize, Value)>)
    requires
        n == s@.len(),
        i <= n,
    ensures
        r.is_some() == string_at(s@, i as int).is_some(),
        r matches Some((e, v)) ==> {
            &&& string_at(s@, i as int).unwrap().0 == e
            &&& v matches Value::String(x, t) && t == string_at(s@, i as int).unwrap().1
                && x@ == s@.subrange(i + quote(t).len(), e - quote(t).len())
            &&& i < e <= n
            &&& v.text() == s@.subrange(i as int, e as int)
        },
{
    if is_triple(s, n, i, '\'') {
        if let Some(e) = read_ml_literal_body(s, n, i + 3) {
            let v = Value::String(String::from_str(s.substring_char(i + 3, e - 3)), StrType::MLLiteral);
            proof {
                assert(v.text() =~= s@.subrange(i as int, e as int));
            }
            return Some((e, v));
        }
    }
    if is_triple(s, n, i, '"') {
        if let Some(e) = read_ml_basic_body(s, n, i + 3) {
            let v = Value::String(String::from_str(s.substring_char(i + 3, e - 3)), StrType::MLBasic);
            proof {
                assert(v.text() =~= s@.subrange(i as int, e as int));
            }
            return Some((e, v));
        }
    }
    if i < n && s.get_char(i) == '"' {
        if let Some(e) = read_basic_body(s, n, i + 1) {
            let v = Value::String(String::from_str(s.substring_char(i + 1, e - 1)), StrType::Basic);
            proof {
                assert(v.text() =~= s@.subrange(i as int, e as int));
            }
            return Some((e, v));
        }
    }
    if i < n && s.get_char(i) == '\'' {
        if let Some(e) = read_literal_body(s, n, i + 1) {
            let v = Value::String(String::from_str(s.substring_char(i + 1, e - 1)), StrType::Literal);
            proof {
                assert(v.text() =~= s@.subrange(i as int, e as int));
            }
            return Some((e, v));
        }
    }
    None
}

fn two_digits_at(s: &str, n: usize, p: usize) -> (r: bool)
    requires
        n == s@.len(),
    ensures
        r == two_digits(s@, p as int),
{
    p <= n && n - p >= 2 && is_ascii_digit_char(s.get_char(p)) && is_ascii_digit_char(s.get_char(p + 1))
}

fn read_date_time(s: &str, n: usize, i: usize) -> (r: Option<(usize, DateTime)>)
    requires
        n == s@.len(),
        i <= n,
    ensures
        r.is_some() == date_time_end(s@, i as int).is_some(),
        r matches Some((e, d)) ==> {
            &&& date_time_end(s@, i as int) == Some(e as int)
            &&& i < e <= n
            &&& d.text() == s@.subrange(i as int, e as int)
            &&& date_time_is(s@, i as int, d)
        },
{
    if !(n - i >= 19 && two_digits_at(s, n, i) && two_digits_at(s, n, i + 2) && s.get_char(i + 4)
        == '-' && two_digits_at(s, n, i + 5) && s.get_char(i + 7) == '-' && two_digits_at(
        s,
        n,
        i + 8,
    ) && s.get_char(i + 10) == 'T' && two_digits_at(s, n, i + 11) && s.get_char(i + 13) == ':'
        && two_digits_at(s, n, i + 14) && s.get_char(i + 16) == ':' && two_digits_at(s, n, i + 17)) {
        return None;
    }
    let p = i + 19;
    let f = if p < n && n - p >= 2 && s.get_char(p) == '.' && is_ascii_digit_char(s.get_char(p + 1)) {
        scan_digit_run(s, n, p + 1)
    } else {
        p
    };
    assert(f == date_time_frac(s@, i as int));
    let (e, offset) = if f < n && s.get_char(f) == 'Z' {
        (f + 1, TimeOffset::Zulu)
    } else if f < n && (s.get_char(f) == '+' || s.get_char(f) == '-') && two_digits_at(s, n, f + 1)
        && n - f > 3 && s.get_char(f + 3) == ':' && two_digits_at(s, n, f + 4) {
        (
            f + 6,
            TimeOffset::Time(
                TimeOffsetAmount::new_str(
                    s.substring_char(f, f + 1),
                    s.substring_char(f + 1, f + 3),
                    s.substring_char(f + 4, f + 6),
                ),
            ),
        )
    } else {
        return None;
    };
    let date = Date::new_str(
        s.substring_char(i, i + 4),
        s.substring_char(i + 5, i + 7),
        s.substring_char(i + 8, i + 10),
    );
    let fraction = if f > p {
        Some(String::from_str(s.substring_char(p + 1, f)))
    } else {
        None
    };
    let time = Time {
        hour: String::from_str(s.substring_char(i + 11, i + 13)),
        minute: String::from_str(s.substring_char(i + 14, i + 16)),
        second: String::from_str(s.substring_char(i + 17, i + 19)),
        fraction,
        offset: Some(offset),
    };
    let d = DateTime::new(date, Some(time));
    proof {
        let ss = s@;
        let t = d.time.unwrap();
        assert(d.date.text() =~= ss.subrange(i as int, i + 10));
        let hms = t.hour@ + seq![':'] + t.minute@ + seq![':'] + t.second@;
        assert(hms =~= ss.subrange(i + 11, p as int));
        let fr = match t.fraction {
            Some(x) => seq!['.'] + x@,
            None => Seq::<char>::empty(),
        };
        assert(fr =~= ss.subrange(p as int, f as int));
        assert(t.offset.unwrap().text() =~= ss.subrange(f as int, e as int));
        assert(t.text() =~= ss.subrange(i + 11, e as int));
        assert(d.text() =~= ss.subrange(i as int, e as int));
    }
    Some((e, d))
}

fn read_scalar(s: &str, n: usize, i: usize) -> (r: Option<(usize, Value)>)
    requires
        n == s@.len(),
        i <= n,
    ensures
        r.is_some() == scalar_end(s@, i as int).is_some(),
        r matches Some((e, v)) ==> {
            &&& scalar_end(s@, i as int) == Some(e as int)
            &&& (array_end(s@, i as int) is None && inline_end(s@, i as int) is None
                ==> value_read_as(s@, i as int, v))
            &&& scalar_is(s@, i as int, v)
            &&& i < e <= n
            &&& v.text() == s@.subrange(i as int, e as int)
        },
{
    proof {
        reveal(value_read_as);
    }
    if let Some((e, d)) = read_date_time(s, n, i) {
        return Some((e, Value::DateTime(d)));
    }
    if let Some(e) = read_float(s, n, i) {
        return Some((e, Value::Float(String::from_str(s.substring_char(i, e)))));
    }
    if let Some(e) = read_integer(s, n, i) {
        return Some((e, Value::Integer(String::from_str(s.substring_char(i, e)))));
    }
    if let Some((e, b)) = read_boolean(s, n, i) {
        proof {
            if b {
                assert(s@.subrange(i as int, e as int) =~= seq!['t', 'r', 'u', 'e']);
            } else {
                assert(s@.subrange(i as int, e as int) =~= seq!['f', 'a', 'l', 's', 'e']);
            }
        }
        return Some((e, Value::Boolean(b)));
    }
    match read_string(s, n, i) {
        Some((e, v)) => Some((e, v)),
        None => None,
    }
}

/// The kind of the value read from `i`, where one reads, with the boolean or
/// the kind of string where it is one.
pub open spec fn value_kind_at(s: Seq<char>, i: int) -> ArrayType {
    if array_end(s, i) is Some {
        ArrayType::Array
    } else if inline_end(s, i) is Some {
        ArrayType::InlineTable
    } else if date_time_end(s, i) is Some {
        ArrayType::DateTime
    } else if float_end(s, i) is Some {
        ArrayType::Float
    } else if integer_end(s, i) is Some {
        ArrayType::Integer
    } else if boolean_at(s, i) is Some {
        ArrayType::Boolean
    } else {
        ArrayType::String
    }
}

/// What a value read from `i` is, beyond its text: its kind, and the boolean
/// or the kind of string where it is one.
#[verifier::opaque]
pub open spec fn value_read_as(s: Seq<char>, i: int, v: Value) -> bool {
    &&& value_array_type(v) == value_kind_at(s, i)
    &&& v matches Value::Boolean(b) ==> b == boolean_at(s, i).unwrap().1
    &&& v matches Value::String(_, t) ==> t == string_at(s, i).unwrap().1
}

/// The end of a value from `i`: an array, an inline table, or else a date and
/// time, a float, an integer, a boolean or a string.
pub open spec fn value_end(s: Seq<char>, i: int) -> Option<int>
    decreases s.len() - i, 2int,
{
    if array_end(s, i) is Some {
        array_end(s, i)
    } else if inline_end(s, i) is Some {
        inline_end(s, i)
    } else {
        scalar_end(s, i)
    }
}

/// The end of an array from `i`: `[`, comments and newlines, the values, comments
/// and newlines, `]`.
pub open spec fn array_end(s: Seq<char>, i: int) -> Option<int>
    decreases s.len() - i, 1int,
{
    if 0 <= i < s.len() && s[i] == '[' {
        let c1 = cons_end(s, i + 1);
        if i < c1 <= s.len() {
            let v = avalues_end(s, c1);
            let c2 = cons_end(s, v);
            if 0 <= c2 < s.len() && s[c2] == ']' {
                Some(c2 + 1)
            } else {
                None
            }
        } else {
            None
        }
    } else {
        None
    }
}

/// Where the values of an array read from `j` end: each a value, an optional
/// separator, then comments and newlines, for as long as a value reads.
pub open spec fn avalues_end(s: Seq<char>, j: int) -> int
    decreases s.len() - j, 3int,
{
    match value_end(s, j) {
        Some(e) => {
            let e2 = match array_sep_at(s, e) {
                Some(p) => p.1,
                None => e,
            };
            let e3 = cons_end(s, e2);
            if j < e3 <= s.len() {
                avalues_end(s, e3)
            } else {
                j
            }
        },
        None => j,
    }
}

/// The end of an inline table from `i`: `{`, whitespace, the entries where
/// they read, whitespace, `}`.
pub open spec fn inline_end(s: Seq<char>, i: int) -> Option<int>
    decreases s.len() - i, 1int,
{
    if 0 <= i < s.len() && s[i] == '{' {
        let p = ws_end(s, i + 1);
        if i < p <= s.len() {
            let e = match entries_end(s, p) {
                Some(e) => e,
                None => p,
            };
            let w = ws_end(s, e);
            if 0 <= w < s.len() && s[w] == '}' {
                Some(w + 1)
            } else {
                None
            }
        } else {
            None
        }
    } else {
        None
    }
}

/// The end of the entries of an inline table from `p`: a key/value pair and
/// the whitespace after it, then, after each `,` and whitespace, one more.
pub open spec fn entries_end(s: Seq<char>, p: int) -> Option<int>
    decreases s.len() - p, 3int,
{
    match keyval_end(s, p) {
        Some(k) => {
            let w = ws_end(s, k);
            if 0 <= w < s.len() && s[w] == ',' {
                let q = ws_end(s, w + 1);
                if p < q <= s.len() {
                    entries_end(s, q)
                } else {
                    None
                }
            } else {
                Some(w)
            }
        },
        None => None,
    }
}

/// The end of a key/value pair from `p`: a key, whitespace, `=`, whitespace,
/// a value.
pub open spec fn keyval_end(s: Seq<char>, p: int) -> Option<int>
    decreases s.len() - p, 0int,
{
    match key_end(s, p) {
        Some(k) => {
            let a = ws_end(s, k);
            if 0 <= a < s.len() && s[a] == '=' {
                let b = ws_end(s, a + 1);
                if p < b <= s.len() {
                    value_end(s, b)
                } else {
                    None
                }
            } else {
                None
            }
        },
        None => None,
    }
}


/// The date and time read from `i` holds the parts of its text: year, month,
/// day, hour, minute, second, the digits of the fraction where there are any,
/// and the offset.
pub open spec fn date_time_is(s: Seq<char>, i: int, d: DateTime) -> bool {
    let p = i + 19;
    let f = date_time_frac(s, i);
    &&& d.date.year@ == s.subrange(i, i + 4)
    &&& d.date.month@ == s.subrange(i + 5, i + 7)
    &&& d.date.day@ == s.subrange(i + 8, i + 10)
    &&& d.time matches Some(t) && {
        &&& t.hour@ == s.subrange(i + 11, i + 13)
        &&& t.minute@ == s.subrange(i + 14, i + 16)
        &&& t.second@ == s.subrange(i + 17, p)
        &&& if f > p {
            t.fraction matches Some(x) && x@ == s.subrange(p + 1, f)
        } else {
            t.fraction is None
        }
        &&& if s[f] == 'Z' {
            t.offset matches Some(TimeOffset::Zulu)
        } else {
            t.offset matches Some(TimeOffset::Time(a)) && {
                &&& a.pos_neg@ == s.subrange(f, f + 1)
                &&& a.hour@ == s.subrange(f + 1, f + 3)
                &&& a.minute@ == s.subrange(f + 4, f + 6)
            }
        }
    }
}

/// The value read from `i` that is neither an array nor an inline table holds
/// what its text says: the digits of a number, the body of a string between
/// its quotes, the parts of a date and time.
pub open spec fn scalar_is(s: Seq<char>, i: int, v: Value) -> bool {
    let e = scalar_end(s, i).unwrap();
    match v {
        Value::Integer(x) => x@ == s.subrange(i, e),
        Value::Float(x) => x@ == s.subrange(i, e),
        Value::String(x, t) => x@ == s.subrange(i + quote(t).len(), e - quote(t).len()),
        Value::DateTime(d) => date_time_is(s, i, d),
        _ => true,
    }
}

/// The starts of the values of an array read from `j` on.
pub open spec fn avalues_starts(s: Seq<char>, j: int) -> Seq<int>
    decreases s.len() - j,
{
    match array_value_end(s, j) {
        Some(e) => if j < e <= s.len() {
            seq![j] + avalues_starts(s, e)
        } else {
            Seq::empty()
        },
        None => Seq::empty(),
    }
}

/// The entries of an inline table read from `q` on, each with where the
/// whitespace before it starts and where its key starts.
pub open spec fn entries_starts(s: Seq<char>, start: int, q: int) -> Seq<(int, int)>
    decreases s.len() - q,
{
    match keyval_end(s, q) {
        Some(k) => {
            let w = ws_end(s, k);
            if 0 <= w < s.len() && s[w] == ',' {
                let q2 = ws_end(s, w + 1);
                if q < q2 <= s.len() {
                    seq![(start, q)] + entries_starts(s, w + 1, q2)
                } else {
                    seq![(start, q)]
                }
            } else {
                seq![(start, q)]
            }
        },
        None => Seq::empty(),
    }
}

/// `v` is the value read from `i`: its kind, and then its parts as read.
#[verifier::opaque]
pub open spec fn value_is(s: Seq<char>, i: int, v: Value) -> bool
    decreases v,
{
    &&& value_read_as(s, i, v)
    &&& match v {
        Value::Array(a) => array_is(s, i, a),
        Value::InlineTable(t) => inline_is(s, i, t),
        _ => scalar_is(s, i, v),
    }
}

/// `a` is the array read from `i`: the comments and newlines after `[`, each
/// value as read at its start, and the comments and newlines before `]`.
#[verifier::opaque]
pub open spec fn array_is(s: Seq<char>, i: int, a: Array) -> bool
    decreases a,
{
    let c1 = cons_end(s, i + 1);
    let v = avalues_end(s, c1);
    &&& cons_are(s, cons_at(s, i + 1), a.comment_nls1@)
    &&& values_are(s, avalues_starts(s, c1), a.values@)
    &&& cons_are(s, cons_at(s, v), a.comment_nls2@)
}

/// Each value of the run is the one read at the start at the same place.
pub open spec fn values_are(s: Seq<char>, ps: Seq<int>, vs: Seq<ArrayValue>) -> bool
    decreases vs,
{
    if vs.len() == 0 {
        ps.len() == 0
    } else {
        &&& ps.len() == vs.len()
        &&& values_are(s, ps.subrange(0, ps.len() - 1), vs.subrange(0, vs.len() - 1))
        &&& av_is(s, ps[ps.len() - 1], vs[vs.len() - 1])
    }
}

/// `av` is the value of an array read from `j`: the value, the separator
/// where there is one, and the comments and newlines after them.
#[verifier::opaque]
pub open spec fn av_is(s: Seq<char>, j: int, av: ArrayValue) -> bool
    decreases av,
{
    let e = value_end(s, j).unwrap();
    let e2 = match array_sep_at(s, e) {
        Some(p) => p.1,
        None => e,
    };
    &&& value_is(s, j, av.val)
    &&& match array_sep_at(s, e) {
        Some(p) => av.array_sep matches Some(w) && w.ws1@ == s.subrange(e, p.0) && w.ws2@
            == s.subrange(p.0 + 1, p.1),
        None => av.array_sep is None,
    }
    &&& cons_are(s, cons_at(s, e2), av.comment_nls@)
}

/// `t` is the inline table read from `i`: the whitespace after `{`, each entry
/// as read at its place, and the whitespace before `}`.
#[verifier::opaque]
pub open spec fn inline_is(s: Seq<char>, i: int, t: InlineTable) -> bool
    decreases t,
{
    let p = ws_end(s, i + 1);
    &&& t.ws.ws1@ == s.subrange(i + 1, p)
    &&& match entries_end(s, p) {
        Some(e) => {
            &&& keyvals_are(s, entries_starts(s, p, p), t.keyvals@)
            &&& t.ws.ws2@ == s.subrange(e, ws_end(s, e))
        },
        None => {
            &&& t.keyvals@.len() == 0
            &&& t.ws.ws2@ == s.subrange(p, ws_end(s, p))
        },
    }
}

/// Each entry of the run is the one read at the place at the same position.
pub open spec fn keyvals_are(s: Seq<char>, ps: Seq<(int, int)>, kvs: Seq<TableKeyVal>) -> bool
    decreases kvs,
{
    if kvs.len() == 0 {
        ps.len() == 0
    } else {
        &&& ps.len() == kvs.len()
        &&& keyvals_are(s, ps.subrange(0, ps.len() - 1), kvs.subrange(0, kvs.len() - 1))
        &&& table_keyval_is(s, ps[ps.len() - 1], kvs[kvs.len() - 1])
    }
}

/// `t` is the entry whose whitespace starts at `p.0` and whose key starts at
/// `p.1`: that whitespace, the pair, and the whitespace after its value.
#[verifier::opaque]
pub open spec fn table_keyval_is(s: Seq<char>, p: (int, int), t: TableKeyVal) -> bool
    decreases t,
{
    let k = keyval_end(s, p.1).unwrap();
    &&& t.kv_sep.ws1@ == s.subrange(p.0, p.1)
    &&& keyval_is(s, p.1, t.keyval)
    &&& t.kv_sep.ws2@ == s.subrange(k, ws_end(s, k))
}

/// `kv` is the key/value pair read from `p`: the key, the whitespace on each
/// side of `=`, and the value as read after it.
#[verifier::opaque]
pub open spec fn keyval_is(s: Seq<char>, p: int, kv: KeyVal) -> bool
    decreases kv,
{
    let k = key_end(s, p).unwrap();
    let a = ws_end(s, k);
    let b = ws_end(s, a + 1);
    &&& kv.key@ == s.subrange(p, k)
    &&& kv.keyval_sep.ws1@ == s.subrange(k, a)
    &&& kv.keyval_sep.ws2@ == s.subrange(a + 1, b)
    &&& value_is(s, b, kv.val)
}

fn parse_value(s: &str, n: usize, i: usize) -> (r: Option<(usize, Value)>)
    requires
        n == s@.len(),
        i <= n,
    ensures
        r.is_some() == value_end(s@, i as int).is_some(),
        r matches Some((e, v)) ==> {
            &&& value_end(s@, i as int) == Some(e as int)
            &&& value_is(s@, i as int, v)
            &&& i < e <= n
            &&& v.text() == s@.subrange(i as int, e as int)
        },
    decreases n - i, 2int,
{
    if let Some((e, a)) = parse_array(s, n, i) {
        proof {
            lemma_value_is_array(s@, i as int, a);
        }
        return Some((e, Value::Array(a)));
    }
    if let Some((e, t)) = parse_inline(s, n, i) {
        proof {
            lemma_value_is_inline(s@, i as int, t);
        }
        return Some((e, Value::InlineTable(t)));
    }
    match read_scalar(s, n, i) {
        Some((e, v)) => {
            proof {
                lemma_value_is_scalar(s@, i as int, v);
            }
            Some((e, v))
        },
        None => None,
    }
}

proof fn lemma_value_is_array(s: Seq<char>, i: int, a: Array)
    requires
        array_end(s, i) is Some,
        array_is(s, i, a),
    ensures
        value_is(s, i, Value::Array(a)),
{
    reveal(value_is);
    reveal(value_read_as);
    reveal(array_is);
}

proof fn lemma_value_is_inline(s: Seq<char>, i: int, t: InlineTable)
    requires
        array_end(s, i) is None,
        inline_end(s, i) is Some,
        inline_is(s, i, t),
    ensures
        value_is(s, i, Value::InlineTable(t)),
{
    reveal(value_is);
    reveal(value_read_as);
    reveal(inline_is);
}

proof fn lemma_value_is_scalar(s: Seq<char>, i: int, v: Value)
    requires
        array_end(s, i) is None,
        inline_end(s, i) is None,
        value_read_as(s, i, v),
        scalar_is(s, i, v),
    ensures
        value_is(s, i, v),
{
    reveal(value_is);
    reveal(value_read_as);
}

#[verifier::spinoff_prover]
fn parse_array(s: &str, n: usize, i: usize) -> (r: Option<(usize, Array)>)
    requires
        n == s@.len(),
        i <= n,
    ensures
        r.is_some() == array_end(s@, i as int).is_some(),
        r matches Some((e, a)) ==> {
            &&& array_end(s@, i as int) == Some(e as int)
            &&& array_is(s@, i as int, a)
            &&& i < e <= n
            &&& a.text() == s@.subrange(i as int, e as int)
        },
    decreases n - i, 1int,
{
    proof {
        reveal(array_is);
    }
    if !(i < n && s.get_char(i) == '[') {
        return None;
    }
    let (c1, cn1) = read_cons(s, n, i + 1);
    assert(i < c1 <= n);
    let (v, values) = read_avalues(s, n, c1);
    assert(avalues_end(s@, c1 as int) == v);
    let (c2, cn2) = read_cons(s, n, v);
    if !(c2 < n && s.get_char(c2) == ']') {
        return None;
    }
    let a = Array::new(values, cn1, cn2);
    proof {
        lemma_array_text(s@, i as int, c1 as int, v as int, c2 as int, a);
        assert(array_end(s@, i as int) == Some(c2 + 1));
    }
    Some((c2 + 1, a))
}

proof fn lemma_array_text(s: Seq<char>, i: int, c1: int, v: int, c2: int, a: Array)
    requires
        0 <= i < c1 <= v <= c2 < s.len(),
        s[i] == '[',
        s[c2] == ']',
        comment_nls_text(a.comment_nls1@) == s.subrange(i + 1, c1),
        values_text(a.values@) == s.subrange(c1, v),
        comment_nls_text(a.comment_nls2@) == s.subrange(v, c2),
    ensures
        a.text() == s.subrange(i, c2 + 1),
{
    assert(a.text() =~= s.subrange(i, c2 + 1));
}

#[verifier::spinoff_prover]
fn read_array_value(s: &str, n: usize, j: usize) -> (r: Option<(usize, ArrayValue)>)
    requires
        n == s@.len(),
        j <= n,
    ensures
        r.is_some() == value_end(s@, j as int).is_some(),
        r matches Some((e, av)) ==> {
            &&& array_value_end(s@, j as int) == Some(e as int)
            &&& av_is(s@, j as int, av)
            &&& j < e <= n
            &&& av.text() == s@.subrange(j as int, e as int)
        },
    decreases n - j, 3int,
{
    match parse_value(s, n, j) {
        Some((e, val)) => {
            let (e2, sep) = match read_array_sep(s, n, e) {
                Some((e2, w)) => (e2, Some(w)),
                None => (e, None),
            };
            proof {
                if sep is Some {
                    let ap = array_sep_at(s@, e as int).unwrap();
                    lemma_ws_end(s@, e as int);
                    lemma_ws_end(s@, ap.0 + 1);
                }
            }
            let (e3, cns) = read_cons(s, n, e2);
            let av = ArrayValue::new(val, sep, cns);
            proof {
                lemma_array_value(s@, j as int, e as int, e2 as int, e3 as int, av);
            }
            Some((e3, av))
        },
        None => None,
    }
}

proof fn lemma_array_value(s: Seq<char>, j: int, e: int, e2: int, e3: int, av: ArrayValue)
    requires
        value_end(s, j) == Some(e),
        0 <= j < e <= e2 <= e3 <= s.len(),
        value_is(s, j, av.val),
        av.val.text() == s.subrange(j, e),
        match array_sep_at(s, e) {
            Some(p) => {
                &&& e2 == p.1
                &&& e <= p.0 < p.1
                &&& s[p.0] == ','
                &&& av.array_sep matches Some(w) && w.ws1@ == s.subrange(e, p.0) && w.ws2@ == s.subrange(
                    p.0 + 1,
                    p.1,
                )
            },
            None => e2 == e && av.array_sep is None,
        },
        e3 == cons_end(s, e2),
        cons_are(s, cons_at(s, e2), av.comment_nls@),
        comment_nls_text(av.comment_nls@) == s.subrange(e2, e3),
    ensures
        av_is(s, j, av),
        av.text() == s.subrange(j, e3),
        array_value_end(s, j) == Some(e3),
{
    reveal(av_is);
    reveal(value_is);
    let sept = match av.array_sep {
        Some(ref w) => w.ws1@ + seq![','] + w.ws2@,
        None => Seq::<char>::empty(),
    };
    if av.array_sep is Some {
        let ap = array_sep_at(s, e).unwrap();
        assert(sept =~= s.subrange(e, e2));
    } else {
        assert(sept =~= s.subrange(e, e2));
    }
    assert(av.text() =~= s.subrange(j, e3));
}

fn read_avalues(s: &str, n: usize, j0: usize) -> (r: (usize, Vec<ArrayValue>))
    requires
        n == s@.len(),
        j0 <= n,
    ensures
        r.0 == avalues_end(s@, j0 as int),
        j0 <= r.0 <= n,
        values_text(r.1@) == s@.subrange(j0 as int, r.0 as int),
        values_are(s@, avalues_starts(s@, j0 as int), r.1@),
    decreases n - j0, 4int,
{
    let mut j = j0;
    let mut values: Vec<ArrayValue> = Vec::new();
    let ghost mut starts: Seq<int> = Seq::empty();
    proof {
        assert(values_text(values@) =~= s@.subrange(j0 as int, j0 as int));
        assert(avalues_starts(s@, j0 as int) =~= starts + avalues_starts(s@, j0 as int));
    }
    loop
        invariant
            j0 <= j <= n,
            n == s@.len(),
            avalues_end(s@, j0 as int) == avalues_end(s@, j as int),
            values_text(values@) == s@.subrange(j0 as int, j as int),
            values_are(s@, starts, values@),
            avalues_starts(s@, j0 as int) == starts + avalues_starts(s@, j as int),
        decreases n - j,
    {
        match read_array_value(s, n, j) {
            Some((e3, av)) => {
                proof {
                    let nv = values@.push(av);
                    let ns = starts.push(j as int);
                    assert(nv.subrange(0, nv.len() - 1) =~= values@);
                    assert(ns.subrange(0, ns.len() - 1) =~= starts);
                    assert(values_text(nv) =~= s@.subrange(j0 as int, e3 as int));
                    reveal(av_is);
                    assert(values_are(s@, ns, nv));
                    assert(avalues_starts(s@, j as int) == seq![j as int] + avalues_starts(s@, e3 as int));
                    assert(avalues_starts(s@, j0 as int) =~= ns + avalues_starts(s@, e3 as int));
                    starts = ns;
                }
                values.push(av);
                j = e3;
            },
            None => {
                proof {
                    assert(avalues_starts(s@, j as int) =~= Seq::<int>::empty());
                    assert(starts + Seq::<int>::empty() =~= starts);
                }
                return (j, values);
            },
        }
    }
}

fn parse_keyval(s: &str, n: usize, p: usize) -> (r: Option<(usize, KeyVal)>)
    requires
        n == s@.len(),
        p <= n,
    ensures
        r.is_some() == keyval_end(s@, p as int).is_some(),
        r matches Some((e, kv)) ==> {
            &&& keyval_end(s@, p as int) == Some(e as int)
            &&& keyval_is(s@, p as int, kv)
            &&& p < e <= n
            &&& kv.text() == s@.subrange(p as int, e as int)
        },
    decreases n - p, 0int,
{
    let k = match scan_key(s, n, p) {
        Some(k) => k,
        None => return None,
    };
    let a = scan_ws(s, n, k);
    if !(a < n && s.get_char(a) == '=') {
        return None;
    }
    let b = scan_ws(s, n, a + 1);
    match parse_value(s, n, b) {
        Some((e, val)) => {
            let kv = KeyVal::new_str(
                s.substring_char(p, k),
                WSSep::new_str(s.substring_char(k, a), s.substring_char(a + 1, b)),
                val,
            );
            proof {
                assert(kv.text() =~= s@.subrange(p as int, e as int));
                lemma_keyval_is(s@, p as int, kv);
            }
            Some((e, kv))
        },
        None => None,
    }
}

#[verifier::spinoff_prover]
#[verifier::rlimit(100)]
fn read_entries(s: &str, n: usize, p: usize) -> (r: Option<(usize, Vec<TableKeyVal>)>)
    requires
        n == s@.len(),
        p <= n,
    ensures
        r.is_some() == entries_end(s@, p as int).is_some(),
        r matches Some((e, kvs)) ==> {
            &&& entries_end(s@, p as int) == Some(e as int)
            &&& p < e <= n
            &&& kvs@.len() > 0
            &&& kvs@[0].kv_sep.ws1@.len() == 0
            &&& keyvals_text(kvs@) == s@.subrange(p as int, e as int)
            &&& keyvals_are(s@, entries_starts(s@, p as int, p as int), kvs@)
        },
    decreases n - p, 3int,
{
    let mut start = p;
    let mut q = p;
    let mut kvs: Vec<TableKeyVal> = Vec::new();
    let ghost mut starts: Seq<(int, int)> = Seq::empty();
    proof {
        assert(entries_starts(s@, p as int, p as int) =~= starts + entries_starts(s@, p as int, p as int));
    }
    loop
        invariant
            p <= start <= q <= n,
            n == s@.len(),
            keyvals_are(s@, starts, kvs@),
            entries_starts(s@, p as int, p as int) == starts + entries_starts(s@, start as int, q as int),
            entries_end(s@, p as int) == entries_end(s@, q as int),
            kvs@.len() == 0 ==> start == p && q == p,
            kvs@.len() > 0 ==> {
                &&& p < start
                &&& s@[start - 1] == ','
                &&& keyvals_text(kvs@) == s@.subrange(p as int, start - 1)
                &&& kvs@[0].kv_sep.ws1@.len() == 0
            },
        decreases n - q,
    {
        match parse_keyval(s, n, q) {
            Some((k, kv)) => {
                let w = scan_ws(s, n, k);
                let t = TableKeyVal::new(
                    kv,
                    WSSep::new_str(s.substring_char(start, q), s.substring_char(k, w)),
                );
                proof {
                    let ss = s@;
                    assert(t.text() =~= ss.subrange(start as int, w as int));
                    lemma_table_keyval_is(ss, start as int, q as int, t);
                    let ns = starts.push((start as int, q as int));
                    lemma_keyvals_push(ss, starts, kvs@, (start as int, q as int), t);
                    lemma_entries_step(ss, start as int, q as int);
                    if w < n && ss[w as int] == ',' {
                        assert(entries_starts(ss, p as int, p as int) =~= ns + entries_starts(ss, w + 1,
                            ws_end(ss, w + 1)));
                    } else {
                        assert(entries_starts(ss, p as int, p as int) =~= ns);
                    }
                    starts = ns;
                    lemma_keyvals_text_push(ss, kvs@, t, p as int, start as int, w as int);
                }
                kvs.push(t);
                if w < n && s.get_char(w) == ',' {
                    let q2 = scan_ws(s, n, w + 1);
                    proof {
                        lemma_ws_end(s@, w + 1);
                    }
                    start = w + 1;
                    q = q2;
                } else {
                    return Some((w, kvs));
                }
            },
            None => {
                return None;
            },
        }
    }
}

#[verifier::spinoff_prover]
fn parse_inline(s: &str, n: usize, i: usize) -> (r: Option<(usize, InlineTable)>)
    requires
        n == s@.len(),
        i <= n,
    ensures
        r.is_some() == inline_end(s@, i as int).is_some(),
        r matches Some((e, t)) ==> {
            &&& inline_end(s@, i as int) == Some(e as int)
            &&& inline_is(s@, i as int, t)
            &&& i < e <= n
            &&& t.text() == s@.subrange(i as int, e as int)
        },
    decreases n - i, 1int,
{
    if !(i < n && s.get_char(i) == '{') {
        return None;
    }
    let p = scan_ws(s, n, i + 1);
    let (e, kvs) = match read_entries(s, n, p) {
        Some((e, kvs)) => (e, kvs),
        None => (p, Vec::new()),
    };
    proof {
        if kvs@.len() == 0 {
            assert(keyvals_text(kvs@) =~= s@.subrange(p as int, e as int));
        }
    }
    let w = scan_ws(s, n, e);
    if !(w < n && s.get_char(w) == '}') {
        return None;
    }
    let t = InlineTable::new(kvs, WSSep::new_str(s.substring_char(i + 1, p), s.substring_char(e, w)));
    proof {
        lemma_inline_is(s@, i as int, p as int, e as int, t);
        lemma_inline_text(s@, i as int, p as int, e as int, w as int, t);
    }
    Some((w + 1, t))
}

proof fn lemma_keyval_is(s: Seq<char>, p: int, kv: KeyVal)
    requires
        key_end(s, p) is Some,
        kv.key@ == s.subrange(p, key_end(s, p).unwrap()),
        kv.keyval_sep.ws1@ == s.subrange(key_end(s, p).unwrap(), ws_end(s, key_end(s, p).unwrap())),
        kv.keyval_sep.ws2@ == s.subrange(ws_end(s, key_end(s, p).unwrap()) + 1, ws_end(s, ws_end(s,
            key_end(s, p).unwrap()) + 1)),
        value_is(s, ws_end(s, ws_end(s, key_end(s, p).unwrap()) + 1), kv.val),
    ensures
        keyval_is(s, p, kv),
{
    reveal(keyval_is);
    reveal(value_is);
}

proof fn lemma_table_keyval_is(s: Seq<char>, start: int, q: int, t: TableKeyVal)
    requires
        keyval_end(s, q) is Some,
        t.kv_sep.ws1@ == s.subrange(start, q),
        keyval_is(s, q, t.keyval),
        t.kv_sep.ws2@ == s.subrange(keyval_end(s, q).unwrap(), ws_end(s, keyval_end(s, q).unwrap())),
    ensures
        table_keyval_is(s, (start, q), t),
{
    reveal(table_keyval_is);
    reveal(keyval_is);
}

proof fn lemma_keyvals_push(s: Seq<char>, ps: Seq<(int, int)>, kvs: Seq<TableKeyVal>, p: (int, int),
    t: TableKeyVal)
    requires
        keyvals_are(s, ps, kvs),
        table_keyval_is(s, p, t),
    ensures
        keyvals_are(s, ps.push(p), kvs.push(t)),
{
    let ns = ps.push(p);
    let nk = kvs.push(t);
    assert(ns.subrange(0, ns.len() - 1) =~= ps);
    assert(nk.subrange(0, nk.len() - 1) =~= kvs);
    reveal(table_keyval_is);
}

proof fn lemma_entries_step(s: Seq<char>, start: int, q: int)
    requires
        0 <= q <= s.len(),
        keyval_end(s, q) is Some,
        q < keyval_end(s, q).unwrap() <= s.len(),
    ensures
        ({
            let k = keyval_end(s, q).unwrap();
            let w = ws_end(s, k);
            if 0 <= w < s.len() && s[w] == ',' {
                &&& entries_starts(s, start, q) == seq![(start, q)] + entries_starts(s, w + 1, ws_end(s, w + 1))
                &&& entries_end(s, q) == entries_end(s, ws_end(s, w + 1))
                &&& w + 1 <= ws_end(s, w + 1) <= s.len()
            } else {
                &&& entries_starts(s, start, q) == seq![(start, q)]
                &&& entries_end(s, q) == Some(w)
            }
        }),
{
    let k = keyval_end(s, q).unwrap();
    lemma_ws_end(s, k);
    let w = ws_end(s, k);
    if 0 <= w < s.len() && s[w] == ',' {
        lemma_ws_end(s, w + 1);
    }
}

proof fn lemma_keyvals_text_push(s: Seq<char>, kvs: Seq<TableKeyVal>, t: TableKeyVal, p: int,
    start: int, w: int)
    requires
        0 <= p <= start <= w <= s.len(),
        kvs.len() == 0 ==> start == p,
        kvs.len() > 0 ==> p < start && s[start - 1] == ',' && keyvals_text(kvs) == s.subrange(p,
            start - 1),
        t.text() == s.subrange(start, w),
    ensures
        keyvals_text(kvs.push(t)) == s.subrange(p, w),
{
    let nk = kvs.push(t);
    if kvs.len() > 0 {
        assert(nk.subrange(0, nk.len() - 1) =~= kvs);
        assert(keyvals_text(nk) =~= s.subrange(p, w));
    } else {
        assert(keyvals_text(nk) =~= s.subrange(p, w));
    }
}

proof fn lemma_inline_is(s: Seq<char>, i: int, p: int, e: int, t: InlineTable)
    requires
        p == ws_end(s, i + 1),
        t.ws.ws1@ == s.subrange(i + 1, p),
        t.ws.ws2@ == s.subrange(e, ws_end(s, e)),
        match entries_end(s, p) {
            Some(e1) => e1 == e && keyvals_are(s, entries_starts(s, p, p), t.keyvals@),
            None => e == p && t.keyvals@.len() == 0,
        },
    ensures
        inline_is(s, i, t),
{
    reveal(inline_is);
    reveal(table_keyval_is);
}

proof fn lemma_inline_text(s: Seq<char>, i: int, p: int, e: int, w: int, t: InlineTable)
    requires
        0 <= i < p <= e <= w < s.len(),
        s[i] == '{',
        s[w] == '}',
        t.ws.ws1@ == s.subrange(i + 1, p),
        t.ws.ws2@ == s.subrange(e, w),
        keyvals_text(t.keyvals@) == s.subrange(p, e),
    ensures
        t.text() == s.subrange(i, w + 1),
{
    assert(t.text() =~= s.subrange(i, w + 1));
}

/// The end of a value of an array from `i`: the value, an optional separator,
/// then comments and newlines.
pub open spec fn array_value_end(s: Seq<char>, i: int) -> Option<int> {
    match value_end(s, i) {
        Some(e) => Some(cons_end(s, match array_sep_at(s, e) {
            Some(p) => p.1,
            None => e,
        })),
        None => None,
    }
}

/// The end of one entry of an inline table from `i`: whitespace, a key/value
/// pair, whitespace.
pub open spec fn table_keyval_end(s: Seq<char>, i: int) -> Option<int> {
    match keyval_end(s, ws_end(s, i)) {
        Some(k) => Some(ws_end(s, k)),
        None => None,
    }
}

/// Every character is a digit from 0 to 9.
pub open spec fn ascii_digits(x: Seq<char>) -> bool {
    forall|k: int| 0 <= k < x.len() ==> #[trigger] is_ascii_digit(x[k])
}

/// At least one digit, with no leading zero unless the digit is alone.
pub open spec fn plain_number(x: Seq<char>) -> bool {
    &&& x.len() > 0
    &&& ascii_digits(x)
    &&& (x.len() == 1 || x[0] != '0')
}

proof fn lemma_digits_run(s: Seq<char>, p: int, q: int)
    requires
        0 <= p <= q <= s.len(),
        forall|k: int| p <= k < q ==> #[trigger] is_ascii_digit(s[k]),
        q == s.len() || (!is_digit(s[q]) && s[q] != '_'),
    ensures
        digits_us_end(s, p) == q,
    decreases q - p,
{
    if p < q {
        assert(is_ascii_digit(s[p]));
        assert(is_digit(s[p]));
        lemma_digits_run(s, p + 1, q);
    }
}

/// The text of a float with a signed exponent.
pub open spec fn signed_exponent_text(ip: Seq<char>, fr: Seq<char>, e: char, sg: char, xp: Seq<char>) -> Seq<char> {
    ip + fr + seq![e, sg] + xp
}

/// The parts of a float with a signed exponent: digits, an optional fraction,
/// `e` or `E`, a sign, digits.
pub open spec fn signed_exponent_parts(ip: Seq<char>, fr: Seq<char>, e: char, sg: char, xp: Seq<char>) -> bool {
    &&& plain_number(ip)
    &&& fr.len() == 0 || (fr.len() >= 2 && fr[0] == '.' && ascii_digits(fr.drop_first()))
    &&& e == 'e' || e == 'E'
    &&& sg == '+' || sg == '-'
    &&& plain_number(xp)
}

proof fn lemma_signed_exponent_float(ip: Seq<char>, fr: Seq<char>, e: char, sg: char, xp: Seq<char>)
    requires
        signed_exponent_parts(ip, fr, e, sg, xp),
    ensures
        float_end(signed_exponent_text(ip, fr, e, sg, xp), 0) == Some(
            signed_exponent_text(ip, fr, e, sg, xp).len() as int,
        ),
{
    let s = signed_exponent_text(ip, fr, e, sg, xp);
    let l = ip.len() as int;
    let f = l + fr.len();
    assert forall|k: int| 0 <= k < l implies #[trigger] is_ascii_digit(s[k]) by {
        assert(s[k] == ip[k]);
    }
    assert(s[f] == e && s[f + 1] == sg);
    assert forall|k: int| f + 2 <= k < s.len() implies #[trigger] is_ascii_digit(s[k]) by {
        assert(s[k] == xp[k - f - 2]);
    }
    if fr.len() > 0 {
        assert(s[l] == '.');
        assert forall|k: int| l + 1 <= k < f implies #[trigger] is_ascii_digit(s[k]) by {
            assert(s[k] == fr.drop_first()[k - l - 1]);
        }
        lemma_digits_run(s, l + 2, f);
        assert(is_ascii_digit(s[l + 1]));
        assert(frac_end(s, l) == Some(f));
    } else {
        assert(s[l] == e);
        assert(frac_end(s, l) is None);
    }
    lemma_digits_run(s, 1, l);
    assert(is_ascii_digit(s[0]));
    assert(s[0] == ip[0]);
    assert(int_body_end(s, 0) == Some(l));
    lemma_digits_run(s, f + 3, s.len() as int);
    assert(is_ascii_digit(s[f + 2]));
    assert(s[f + 2] == xp[0]);
    assert(int_body_end(s, f + 2) == Some(s.len() as int));
    assert(exp_end(s, f) == Some(s.len() as int));
}

proof fn lemma_signed_exponent_not_date(ip: Seq<char>, fr: Seq<char>, e: char, sg: char, xp: Seq<char>)
    requires
        signed_exponent_parts(ip, fr, e, sg, xp),
    ensures
        !date_time_head(signed_exponent_text(ip, fr, e, sg, xp), 0),
        signed_exponent_text(ip, fr, e, sg, xp)[0] != '[',
        signed_exponent_text(ip, fr, e, sg, xp)[0] != '{',
{
    let s = signed_exponent_text(ip, fr, e, sg, xp);
    let l = ip.len() as int;
    assert(s[0] == ip[0]);
    assert(is_ascii_digit(ip[0]));
    if l >= 5 {
        assert(s[4] == ip[4]);
        assert(is_ascii_digit(ip[4]));
    } else if l == 4 {
        if fr.len() > 0 {
            assert(s[4] == fr[0]);
        } else {
            assert(s[4] == e);
        }
    } else {
        if fr.len() > 0 {
            assert(s[l] == fr[0]);
        } else {
            assert(s[l] == e);
        }
        assert(!is_ascii_digit(s[l]));
    }
}

/// A float written as digits, an optional fraction, then `e` or `E`, a sign
/// (`+` or `-`) and digits, is read whole as a float whose text is all of it:
/// the exponent takes either sign.
pub proof fn law_signed_exponent(ip: Seq<char>, fr: Seq<char>, e: char, sg: char, xp: Seq<char>)
    requires
        signed_exponent_parts(ip, fr, e, sg, xp),
    ensures
        ({
            let s = signed_exponent_text(ip, fr, e, sg, xp);
            &&& value_end(s, 0) == Some(s.len() as int)
            &&& forall|v: Value| value_is(s, 0, v) ==> (v matches Value::Float(x) && x@ == s)
        }),
{
    let s = signed_exponent_text(ip, fr, e, sg, xp);
    lemma_signed_exponent_float(ip, fr, e, sg, xp);
    lemma_signed_exponent_not_date(ip, fr, e, sg, xp);
    assert(date_time_end(s, 0) is None);
    assert(scalar_end(s, 0) == Some(s.len() as int));
    assert(array_end(s, 0) is None);
    assert(inline_end(s, 0) is None);
    assert(value_kind_at(s, 0) == ArrayType::Float);
    assert forall|v: Value| value_is(s, 0, v) implies (v matches Value::Float(x) && x@ == s) by {
        reveal(value_is);
        reveal(value_read_as);
        assert(s.subrange(0, s.len() as int) =~= s);
    }
}

/// Digits with no leading zero (unless alone), after an optional sign and
/// with nothing after them, are read whole as an integer.
pub proof fn law_integer_read(sign: Seq<char>, ip: Seq<char>)
    requires
        sign.len() == 0 || sign == seq!['+'] || sign == seq!['-'],
        plain_number(ip),
    ensures
        ({
            let s = sign + ip;
            &&& value_end(s, 0) == Some(s.len() as int)
            &&& forall|v: Value| value_is(s, 0, v) ==> (v matches Value::Integer(x) && x@ == s)
        }),
{
    let s = sign + ip;
    let o = sign.len() as int;
    assert forall|k: int| o <= k < s.len() implies #[trigger] is_ascii_digit(s[k]) by {
        assert(s[k] == ip[k - o]);
    }
    assert(s[o] == ip[0]);
    assert(is_ascii_digit(s[o]));
    assert(sign_skip(s, 0) == o);
    lemma_digits_run(s, o + 1, s.len() as int);
    assert(int_body_end(s, o) == Some(s.len() as int));
    assert(integer_end(s, 0) == Some(s.len() as int));
    assert(frac_end(s, s.len() as int) is None);
    assert(exp_end(s, s.len() as int) is None);
    assert(float_end(s, 0) is None);
    if o == 0 {
        if ip.len() >= 5 {
            assert(s[4] == ip[4]);
            assert(is_ascii_digit(ip[4]));
        } else {
            assert(s.len() < 19);
        }
    } else {
        assert(!is_ascii_digit(s[0]));
    }
    assert(!date_time_head(s, 0));
    assert(s[0] != '[' && s[0] != '{');
    assert(array_end(s, 0) is None);
    assert(inline_end(s, 0) is None);
    assert(scalar_end(s, 0) == Some(s.len() as int));
    assert(value_kind_at(s, 0) == ArrayType::Integer);
    assert forall|v: Value| value_is(s, 0, v) implies (v matches Value::Integer(x) && x@ == s) by {
        reveal(value_is);
        reveal(value_read_as);
        assert(s.subrange(0, s.len() as int) =~= s);
    }
}

proof fn lemma_basic_body_run(s: Seq<char>, p: int, q: int)
    requires
        0 <= p <= q < s.len(),
        forall|k: int| p <= k < q ==> #[trigger] s[k] >= ' ' && s[k] != '"' && s[k] != '\\',
        s[q] == '"',
    ensures
        basic_body_end(s, p) == Some(q + 1),
    decreases q - p,
{
    if p < q {
        assert(s[p] >= ' ' && s[p] != '"' && s[p] != '\\');
        lemma_basic_body_run(s, p + 1, q);
    }
}

/// A basic string whose body has no quote, no backslash and no control
/// character is read, whatever follows it, as a basic string holding that
/// body, and reading stops after its closing quote.
pub proof fn law_basic_string_read(body: Seq<char>, rest: Seq<char>)
    requires
        body.len() > 0,
        forall|k: int| 0 <= k < body.len() ==> #[trigger] body[k] >= ' ' && body[k] != '"' && body[k]
            != '\\',
    ensures
        ({
            let s = seq!['"'] + body + seq!['"'] + rest;
            &&& value_end(s, 0) == Some(body.len() + 2int)
            &&& forall|v: Value| value_is(s, 0, v) ==> (v matches Value::String(x, t) && x@ == body && t
                == StrType::Basic)
        }),
{
    let s = seq!['"'] + body + seq!['"'] + rest;
    let q = body.len() + 1int;
    assert forall|k: int| 1 <= k < q implies #[trigger] s[k] >= ' ' && s[k] != '"' && s[k] != '\\' by {
        assert(s[k] == body[k - 1]);
    }
    assert(s[q] == '"');
    lemma_basic_body_run(s, 1, q);
    assert(s[0] == '"');
    assert(s[1] == body[0]);
    assert(!triple_at(s, 0, '\''));
    assert(!triple_at(s, 0, '"'));
    assert(string_at(s, 0) == Some((q + 1, StrType::Basic)));
    assert(!is_digit('"'));
    assert(!is_ascii_digit(s[0]));
    assert(!date_time_head(s, 0));
    assert(integer_end(s, 0) is None);
    assert(float_end(s, 0) is None);
    assert(boolean_at(s, 0) is None) by {
        if text_at(s, 0, seq!['f', 'a', 'l', 's', 'e']) {
            assert(s.subrange(0, 5)[0] == s[0]);
        }
        if text_at(s, 0, seq!['t', 'r', 'u', 'e']) {
            assert(s.subrange(0, 4)[0] == s[0]);
        }
    }
    assert(array_end(s, 0) is None);
    assert(inline_end(s, 0) is None);
    assert(scalar_end(s, 0) == Some(q + 1));
    assert(value_kind_at(s, 0) == ArrayType::String);
    assert forall|v: Value| value_is(s, 0, v) implies (v matches Value::String(x, t) && x@ == body && t
        == StrType::Basic) by {
        reveal(value_is);
        reveal(value_read_as);
        assert(s.subrange(1, q) =~= body);
    }
}

impl TOMLParser {
    /// Reads a value: an array, an inline table, a date and time, a float, an
    /// integer, a boolean or a string, the first that reads.
    pub fn val<'a>(input: &'a str) -> (r: Option<(&'a str, Value)>)
        ensures
            r.is_some() == value_end(input@, 0).is_some(),
            r matches Some((rest, v)) ==> {
                &&& value_is(input@, 0, v)
                &&& rest@ == input@.subrange(value_end(input@, 0).unwrap(), input@.len() as int)
                &&& v.text() + rest@ == input@
            },
    {
        let n = input.unicode_len();
        match parse_value(input, n, 0) {
            Some((e, v)) => {
                let rest = input.substring_char(e, n);
                proof {
                    assert(v.text() + rest@ =~= input@);
                }
                Some((rest, v))
            },
            None => None,
        }
    }

    /// Reads a key/value pair: `<key><ws>=<ws><value>`.
    pub fn keyval<'a>(input: &'a str) -> (r: Option<(&'a str, KeyVal)>)
        ensures
            r.is_some() == keyval_end(input@, 0).is_some(),
            r matches Some((rest, kv)) ==> {
                &&& keyval_is(input@, 0, kv)
                &&& rest@ == input@.subrange(keyval_end(input@, 0).unwrap(), input@.len() as int)
                &&& kv.text() + rest@ == input@
            },
    {
        let n = input.unicode_len();
        match parse_keyval(input, n, 0) {
            Some((e, kv)) => {
                let rest = input.substring_char(e, n);
                proof {
                    assert(kv.text() + rest@ =~= input@);
                }
                Some((rest, kv))
            },
            None => None,
        }
    }

    /// Reads an array: `[`, comments and newlines, the values, comments and
    /// newlines, `]`.
    pub fn array<'a>(input: &'a str) -> (r: Option<(&'a str, Array)>)
        ensures
            r.is_some() == array_end(input@, 0).is_some(),
            r matches Some((rest, a)) ==> {
                &&& array_is(input@, 0, a)
                &&& rest@ == input@.subrange(array_end(input@, 0).unwrap(), input@.len() as int)
                &&& a.text() + rest@ == input@
            },
    {
        let n = input.unicode_len();
        match parse_array(input, n, 0) {
            Some((e, a)) => {
                let rest = input.substring_char(e, n);
                proof {
                    assert(a.text() + rest@ =~= input@);
                }
                Some((rest, a))
            },
            None => None,
        }
    }

    /// Reads one value of an array: the value, an optional separator, then
    /// comments and newlines.
    pub fn array_value<'a>(input: &'a str) -> (r: Option<(&'a str, ArrayValue)>)
        ensures
            r.is_some() == array_value_end(input@, 0).is_some(),
            r matches Some((rest, av)) ==> {
                &&& av_is(input@, 0, av)
                &&& rest@ == input@.subrange(array_value_end(input@, 0).unwrap(), input@.len() as int)
                &&& av.text() + rest@ == input@
            },
    {
        let n = input.unicode_len();
        match read_array_value(input, n, 0) {
            Some((e, av)) => {
                let rest = input.substring_char(e, n);
                proof {
                    assert(av.text() + rest@ =~= input@);
                }
                Some((rest, av))
            },
            None => None,
        }
    }

    /// Reads the values of an array for as long as one reads; this always
    /// reads, if only nothing.
    pub fn array_values<'a>(input: &'a str) -> (r: Option<(&'a str, Vec<ArrayValue>)>)
        ensures
            r matches Some((rest, vs)) && {
                &&& values_are(input@, avalues_starts(input@, 0), vs@)
                &&& rest@ == input@.subrange(avalues_end(input@, 0), input@.len() as int)
                &&& values_text(vs@) + rest@ == input@
            },
    {
        let n = input.unicode_len();
        let (e, vs) = read_avalues(input, n, 0);
        let rest = input.substring_char(e, n);
        proof {
            assert(values_text(vs@) + rest@ =~= input@);
        }
        Some((rest, vs))
    }

    /// Reads one entry of an inline table: whitespace, a key/value pair,
    /// whitespace.
    pub fn table_keyval<'a>(input: &'a str) -> (r: Option<(&'a str, TableKeyVal)>)
        ensures
            r.is_some() == table_keyval_end(input@, 0).is_some(),
            r matches Some((rest, t)) ==> {
                &&& table_keyval_is(input@, (0, ws_end(input@, 0)), t)
                &&& rest@ == input@.subrange(table_keyval_end(input@, 0).unwrap(), input@.len() as int)
                &&& t.text() + rest@ == input@
            },
    {
        let n = input.unicode_len();
        let q = scan_ws(input, n, 0);
        match parse_keyval(input, n, q) {
            Some((k, kv)) => {
                let w = scan_ws(input, n, k);
                let t = TableKeyVal::new(
                    kv,
                    WSSep::new_str(input.substring_char(0, q), input.substring_char(k, w)),
                );
                let rest = input.substring_char(w, n);
                proof {
                    lemma_table_keyval_is(input@, 0, q as int, t);
                    assert(t.text() + rest@ =~= input@);
                }
                Some((rest, t))
            },
            None => None,
        }
    }

    /// Reads the entries of an inline table: a key/value pair and the
    /// whitespace after it, then, after each `,`, one more with the whitespace
    /// around it.
    pub fn inline_table_keyvals_non_empty<'a>(input: &'a str) -> (r: Option<(&'a str, Vec<TableKeyVal>)>)
        ensures
            r.is_some() == entries_end(input@, 0).is_some(),
            r matches Some((rest, kvs)) ==> {
                &&& keyvals_are(input@, entries_starts(input@, 0, 0), kvs@)
                &&& rest@ == input@.subrange(entries_end(input@, 0).unwrap(), input@.len() as int)
                &&& kvs@.len() > 0
                &&& keyvals_text(kvs@) + rest@ == input@
            },
    {
        let n = input.unicode_len();
        match read_entries(input, n, 0) {
            Some((e, kvs)) => {
                let rest = input.substring_char(e, n);
                proof {
                    assert(keyvals_text(kvs@) + rest@ =~= input@);
                }
                Some((rest, kvs))
            },
            None => None,
        }
    }

    /// Reads an inline table: `{`, whitespace, the entries where they read,
    /// whitespace, `}`; `{ }` reads as a table with no entries.
    pub fn inline_table<'a>(input: &'a str) -> (r: Option<(&'a str, InlineTable)>)
        ensures
            r.is_some() == inline_end(input@, 0).is_some(),
            r matches Some((rest, t)) ==> {
                &&& inline_is(input@, 0, t)
                &&& rest@ == input@.subrange(inline_end(input@, 0).unwrap(), input@.len() as int)
                &&& t.text() + rest@ == input@
            },
    {
        let n = input.unicode_len();
        match parse_inline(input, n, 0) {
            Some((e, t)) => {
                let rest = input.substring_char(e, n);
                proof {
                    assert(t.text() + rest@ =~= input@);
                }
                Some((rest, t))
            },
            None => None,
        }
    }
}

} // verus!
