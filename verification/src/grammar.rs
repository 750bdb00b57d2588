//! The lexical rules of the format: where whitespace, comments, keys and
//! separators end, given where they start.
use vstd::prelude::*;
use vstd::string::StrSliceExecFns;

verus! {

pub open spec fn is_ws(c: char) -> bool {
    c == ' ' || c == '\t'
}

/// The end of the run of spaces and tabs that starts at `i`.
pub open spec fn ws_end(s: Seq<char>, i: int) -> int
    decreases s.len() - i,
{
    if 0 <= i < s.len() && is_ws(s[i]) {
        ws_end(s, i + 1)
    } else {
        i
    }
}

/// The end of the run of spaces, tabs, `\n` and `\r\n` that starts at `i`.
pub open spec fn ws_nl_end(s: Seq<char>, i: int) -> int
    decreases s.len() - i,
{
    if 0 <= i < s.len() && (is_ws(s[i]) || s[i] == '\n') {
        ws_nl_end(s, i + 1)
    } else if 0 <= i && i + 1 < s.len() && s[i] == '\r' && s[i + 1] == '\n' {
        ws_nl_end(s, i + 2)
    } else {
        i
    }
}

/// A character that may stand in a comment: a tab, or a code point from
/// space up to 0x10FFF.
pub open spec fn not_eol(c: char) -> bool {
    c == '\t' || (32 <= (c as u32) && (c as u32) <= 69631)
}

/// The end of the run of comment characters that starts at `i`.
pub open spec fn eol_end(s: Seq<char>, i: int) -> int
    decreases s.len() - i,
{
    if 0 <= i < s.len() && not_eol(s[i]) {
        eol_end(s, i + 1)
    } else {
        i
    }
}

/// A character of a bare key: an ASCII letter or digit, `-` or `_`.
pub open spec fn is_keychar(c: char) -> bool {
    ('A' <= c && c <= 'Z') || ('a' <= c && c <= 'z') || ('0' <= c && c <= '9') || c == '-' || c
        == '_'
}

/// The end of the run of bare key characters that starts at `i`.
pub open spec fn keychars_end(s: Seq<char>, i: int) -> int
    decreases s.len() - i,
{
    if 0 <= i < s.len() && is_keychar(s[i]) {
        keychars_end(s, i + 1)
    } else {
        i
    }
}

/// A character that may stand unescaped in a quoted key: anything from a
/// space up but `"` and `\`.
pub open spec fn is_plain_quoted(c: char) -> bool {
    c == ' ' || c == '!' || ('#' <= c && c <= '[') || (']' <= c)
}

/// A character that may follow `\` alone in an escape.
pub open spec fn is_simple_escape(c: char) -> bool {
    c == '"' || c == '\\' || c == '/' || c == 'b' || c == 'f' || c == 'n' || c == 'r' || c == 't'
}

/// A character of the digits of a `\u` or `\U` escape.
pub open spec fn is_escape_digit(c: char) -> bool {
    ('0' <= c && c <= '9') || ('A' <= c && c <= 'Z')
}

/// Whether the `k` characters from `i` are all escape digits.
pub open spec fn escape_digits(s: Seq<char>, i: int, k: int) -> bool {
    0 <= i && i + k <= s.len() && forall|j: int| i <= j < i + k ==> #[trigger] is_escape_digit(s[j])
}

/// The end of the item of a quoted key that starts at `i`: one plain
/// character or one escape.
pub open spec fn quoted_item_end(s: Seq<char>, i: int) -> Option<int> {
    if !(0 <= i < s.len()) {
        None
    } else if is_plain_quoted(s[i]) {
        Some(i + 1)
    } else if s[i] == '\\' && i + 1 < s.len() {
        let e = s[i + 1];
        if is_simple_escape(e) {
            Some(i + 2)
        } else if e == 'u' && escape_digits(s, i + 2, 4) {
            Some(i + 6)
        } else if e == 'U' && escape_digits(s, i + 2, 8) {
            Some(i + 10)
        } else {
            None
        }
    } else {
        None
    }
}

/// The end of the closing quote of a quoted key whose body starts at `i`.
pub open spec fn quoted_rest_end(s: Seq<char>, i: int) -> Option<int>
    decreases s.len() - i,
{
    if !(0 <= i < s.len()) {
        None
    } else if s[i] == '"' {
        Some(i + 1)
    } else {
        match quoted_item_end(s, i) {
            Some(j) => if j > i {
                quoted_rest_end(s, j)
            } else {
                None
            },
            None => None,
        }
    }
}

/// The end of a quoted key that starts at `i`: `"`, at least one item, `"`.
pub open spec fn quoted_key_end(s: Seq<char>, i: int) -> Option<int> {
    if 0 <= i < s.len() && s[i] == '"' {
        match quoted_item_end(s, i + 1) {
            Some(j) => quoted_rest_end(s, j),
            None => None,
        }
    } else {
        None
    }
}

/// The end of the key that starts at `i`: a quoted key, or else a run of at
/// least one bare key character.
pub open spec fn key_end(s: Seq<char>, i: int) -> Option<int> {
    match quoted_key_end(s, i) {
        Some(e) => Some(e),
        None => {
            let e = keychars_end(s, i);
            if e > i {
                Some(e)
            } else {
                None
            }
        },
    }
}

pub proof fn lemma_ws_end(s: Seq<char>, i: int)
    requires
        0 <= i <= s.len(),
    ensures
        i <= ws_end(s, i) <= s.len(),
        forall|j: int| i <= j < ws_end(s, i) ==> #[trigger] is_ws(s[j]),
    decreases s.len() - i,
{
    if i < s.len() && is_ws(s[i]) {
        lemma_ws_end(s, i + 1);
    }
}

pub proof fn lemma_ws_nl_end(s: Seq<char>, i: int)
    requires
        0 <= i <= s.len(),
    ensures
        i <= ws_nl_end(s, i) <= s.len(),
    decreases s.len() - i,
{
    if i < s.len() && (is_ws(s[i]) || s[i] == '\n') {
        lemma_ws_nl_end(s, i + 1);
    } else if i + 1 < s.len() && s[i] == '\r' && s[i + 1] == '\n' {
        lemma_ws_nl_end(s, i + 2);
    }
}

pub proof fn lemma_eol_end(s: Seq<char>, i: int)
    requires
        0 <= i <= s.len(),
    ensures
        i <= eol_end(s, i) <= s.len(),
    decreases s.len() - i,
{
    if i < s.len() && not_eol(s[i]) {
        lemma_eol_end(s, i + 1);
    }
}

pub proof fn lemma_keychars_end(s: Seq<char>, i: int)
    requires
        0 <= i <= s.len(),
    ensures
        i <= keychars_end(s, i) <= s.len(),
    decreases s.len() - i,
{
    if i < s.len() && is_keychar(s[i]) {
        lemma_keychars_end(s, i + 1);
    }
}

pub proof fn lemma_quoted_rest_end(s: Seq<char>, i: int)
    ensures
        quoted_rest_end(s, i) matches Some(e) ==> i < e <= s.len(),
    decreases s.len() - i,
{
    if 0 <= i < s.len() && s[i] != '"' {
        if let Some(j) = quoted_item_end(s, i) {
            if j > i {
                lemma_quoted_rest_end(s, j);
            }
        }
    }
}

pub proof fn lemma_key_end(s: Seq<char>, i: int)
    requires
        0 <= i <= s.len(),
    ensures
        key_end(s, i) matches Some(e) ==> i < e <= s.len(),
{
    lemma_keychars_end(s, i);
    if 0 <= i < s.len() && s[i] == '"' {
        if let Some(j) = quoted_item_end(s, i + 1) {
            lemma_quoted_rest_end(s, j);
        }
    }
}

/// The end of the spaces and tabs from `i`.
pub fn scan_ws(s: &str, n: usize, i: usize) -> (j: usize)
    requires
        n == s@.len(),
        i <= n,
    ensures
        j == ws_end(s@, i as int),
        i <= j <= n,
{
    proof {
        lemma_ws_end(s@, i as int);
    }
    let mut j = i;
    while j < n && (s.get_char(j) == ' ' || s.get_char(j) == '\t')
        invariant
            i <= j <= n,
            n == s@.len(),
            ws_end(s@, j as int) == ws_end(s@, i as int),
        decreases n - j,
    {
        j = j + 1;
    }
    j
}

/// The end of the spaces, tabs and newlines from `i`.
pub fn scan_ws_nl(s: &str, n: usize, i: usize) -> (j: usize)
    requires
        n == s@.len(),
        i <= n,
    ensures
        j == ws_nl_end(s@, i as int),
        i <= j <= n,
{
    proof {
        lemma_ws_nl_end(s@, i as int);
    }
    let mut j = i;
    loop
        invariant
            i <= j <= n,
            n == s@.len(),
            ws_nl_end(s@, j as int) == ws_nl_end(s@, i as int),
        decreases n - j,
    {
        if j < n {
            let c = s.get_char(j);
            if c == ' ' || c == '\t' || c == '\n' {
                j = j + 1;
            } else if c == '\r' && j + 1 < n && s.get_char(j + 1) == '\n' {
                j = j + 2;
            } else {
                return j;
            }
        } else {
            return j;
        }
    }
}

/// The end of the comment characters from `i`.
pub fn scan_eol(s: &str, n: usize, i: usize) -> (j: usize)
    requires
        n == s@.len(),
        i <= n,
    ensures
        j == eol_end(s@, i as int),
        i <= j <= n,
{
    proof {
        lemma_eol_end(s@, i as int);
    }
    let mut j = i;
    while j < n && (s.get_char(j) == '\t' || (32 <= (s.get_char(j) as u32) && (s.get_char(j) as u32)
        <= 69631))
        invariant
            i <= j <= n,
            n == s@.len(),
            eol_end(s@, j as int) == eol_end(s@, i as int),
        decreases n - j,
    {
        j = j + 1;
    }
    j
}

fn keychar(c: char) -> (r: bool)
    ensures
        r == is_keychar(c),
{
    ('A' <= c && c <= 'Z') || ('a' <= c && c <= 'z') || ('0' <= c && c <= '9') || c == '-' || c
        == '_'
}

/// The end of the bare key characters from `i`.
pub fn scan_keychars(s: &str, n: usize, i: usize) -> (j: usize)
    requires
        n == s@.len(),
        i <= n,
    ensures
        j == keychars_end(s@, i as int),
        i <= j <= n,
{
    proof {
        lemma_keychars_end(s@, i as int);
    }
    let mut j = i;
    while j < n && keychar(s.get_char(j))
        invariant
            i <= j <= n,
            n == s@.len(),
            keychars_end(s@, j as int) == keychars_end(s@, i as int),
        decreases n - j,
    {
        j = j + 1;
    }
    j
}

fn escape_digits_at(s: &str, n: usize, i: usize, k: usize) -> (r: bool)
    requires
        n == s@.len(),
        k <= 8,
        i <= n,
    ensures
        r == escape_digits(s@, i as int, k as int),
{
    if k > n - i {
        return false;
    }
    let mut j = i;
    while j < i + k
        invariant
            i <= j <= i + k <= n,
            n == s@.len(),
            forall|m: int| i <= m < j ==> #[trigger] is_escape_digit(s@[m]),
        decreases i + k - j,
    {
        let c = s.get_char(j);
        if !(('0' <= c && c <= '9') || ('A' <= c && c <= 'Z')) {
            assert(!is_escape_digit(s@[j as int]));
            return false;
        }
        j = j + 1;
    }
    true
}

fn scan_quoted_item(s: &str, n: usize, i: usize) -> (r: Option<usize>)
    requires
        n == s@.len(),
        i <= n,
    ensures
        r matches Some(j) ==> quoted_item_end(s@, i as int) == Some(j as int) && j <= n,
        r is None ==> quoted_item_end(s@, i as int) is None,
{
    if i >= n {
        return None;
    }
    let c = s.get_char(i);
    if c == ' ' || c == '!' || ('#' <= c && c <= '[') || (']' <= c) {
        Some(i + 1)
    } else if c == '\\' && i + 1 < n {
        let e = s.get_char(i + 1);
        if e == '"' || e == '\\' || e == '/' || e == 'b' || e == 'f' || e == 'n' || e == 'r' || e
            == 't' {
            Some(i + 2)
        } else if e == 'u' && escape_digits_at(s, n, i + 2, 4) {
            Some(i + 6)
        } else if e == 'U' && escape_digits_at(s, n, i + 2, 8) {
            Some(i + 10)
        } else {
            None
        }
    } else {
        None
    }
}

/// The end of the quoted key that starts at `i`, where there is one.
pub fn scan_quoted_key(s: &str, n: usize, i: usize) -> (r: Option<usize>)
    requires
        n == s@.len(),
        i <= n,
    ensures
        r matches Some(j) ==> quoted_key_end(s@, i as int) == Some(j as int) && j <= n,
        r is None ==> quoted_key_end(s@, i as int) is None,
{
    if i >= n || s.get_char(i) != '"' {
        return None;
    }
    let mut j = match scan_quoted_item(s, n, i + 1) {
        Some(j) => j,
        None => return None,
    };
    loop
        invariant
            i < j <= n,
            n == s@.len(),
            quoted_key_end(s@, i as int) == quoted_rest_end(s@, j as int),
        decreases n - j,
    {
        if j >= n {
            return None;
        }
        if s.get_char(j) == '"' {
            return Some(j + 1);
        }
        match scan_quoted_item(s, n, j) {
            Some(k) => {
                if k <= j {
                    return None;
                }
                j = k;
            },
            None => return None,
        }
    }
}

/// The end of the key that starts at `i`, where there is one.
pub fn scan_key(s: &str, n: usize, i: usize) -> (r: Option<usize>)
    requires
        n == s@.len(),
        i <= n,
    ensures
        r matches Some(j) ==> key_end(s@, i as int) == Some(j as int) && i < j <= n,
        r is None ==> key_end(s@, i as int) is None,
{
    proof {
        lemma_key_end(s@, i as int);
    }
    match scan_quoted_key(s, n, i) {
        Some(e) => Some(e),
        None => {
            let e = scan_keychars(s, n, i);
            if e > i {
                Some(e)
            } else {
                None
            }
        },
    }
}

} // verus!
