//! Parsers for table headers, separators, comments and newlines. Each one
//! returns what it read and the rest of the input, and gives back exactly the
//! text it consumed when its result is rendered.
use vstd::prelude::*;
use vstd::string::StrSliceExecFns;
use crate::grammar::{ws_end, ws_nl_end, eol_end, key_end, lemma_ws_end, lemma_ws_nl_end,
    lemma_eol_end, lemma_key_end, scan_ws, scan_ws_nl, scan_eol, scan_key};
use crate::ast::structs::{WSSep, WSKeySep, Table, TableType, Comment, CommentNewLines,
    CommentOrNewLines, subkeys_text, comment_nls_text};
use crate::objects::TOMLParser;

verus! {

/// Where the parts of `<ws>.<ws><key>` from `i` end: the dot, the start of
/// the key, and the end of the key.
pub open spec fn subkey_at(s: Seq<char>, i: int) -> Option<(int, int, int)> {
    let a = ws_end(s, i);
    if 0 <= a < s.len() && s[a] == '.' {
        let c = ws_end(s, a + 1);
        match key_end(s, c) {
            Some(d) => Some((a, c, d)),
            None => None,
        }
    } else {
        None
    }
}

/// `k` holds the texts of the subkey read from `p.0` with the positions of
/// `p.1`, `p.2` and `p.3`.
pub open spec fn subkey_is(s: Seq<char>, p: (int, int, int, int), k: WSKeySep) -> bool {
    &&& k.ws.ws1@ == s.subrange(p.0, p.1)
    &&& k.ws.ws2@ == s.subrange(p.1 + 1, p.2)
    &&& k.key@ == s.subrange(p.2, p.3)
}

/// The subkeys read one after the other from `i`, as long as each reads and
/// moves on: their start, dot, key start and end.
pub open spec fn subkeys_at(s: Seq<char>, i: int) -> Seq<(int, int, int, int)>
    decreases s.len() - i,
{
    if !(0 <= i < s.len()) {
        Seq::empty()
    } else {
        match subkey_at(s, i) {
            Some(p) => if i < p.2 <= s.len() {
                seq![(i, p.0, p.1, p.2)] + subkeys_at(s, p.2)
            } else {
                Seq::empty()
            },
            None => Seq::empty(),
        }
    }
}

/// Where the subkeys read from `i` end.
pub open spec fn subkeys_end(s: Seq<char>, i: int) -> int {
    let l = subkeys_at(s, i);
    if l.len() == 0 {
        i
    } else {
        l.last().3
    }
}

/// Each key holds the texts of the subkey at the same place of `ps`.
pub open spec fn subkeys_are(s: Seq<char>, ps: Seq<(int, int, int, int)>, ks: Seq<WSKeySep>) -> bool {
    &&& ps.len() == ks.len()
    &&& forall|j: int| 0 <= j < ps.len() ==> #[trigger] subkey_is(s, ps[j], ks[j])
}

/// A header opens at `i`: `[[` for an array of tables, `[` otherwise.
pub open spec fn opens_at(s: Seq<char>, i: int, array: bool) -> bool {
    if array {
        0 <= i && i + 2 <= s.len() && s[i] == '[' && s[i + 1] == '['
    } else {
        0 <= i && i + 1 <= s.len() && s[i] == '['
    }
}

/// A header closes at `i`: `]]` for an array of tables, `]` otherwise.
pub open spec fn closes_at(s: Seq<char>, i: int, array: bool) -> bool {
    if array {
        0 <= i && i + 2 <= s.len() && s[i] == ']' && s[i + 1] == ']'
    } else {
        0 <= i && i + 1 <= s.len() && s[i] == ']'
    }
}

pub open spec fn bracket_len(array: bool) -> int {
    if array { 2 } else { 1 }
}

/// Where the parts of a header from `i` end: the start and end of its first
/// key, the end of its subkeys, the start of the closing bracket, and the end.
pub open spec fn header_at(s: Seq<char>, i: int, array: bool) -> Option<(int, int, int, int, int)> {
    if opens_at(s, i, array) {
        let a = ws_end(s, i + bracket_len(array));
        match key_end(s, a) {
            Some(k) => {
                let e = subkeys_end(s, k);
                let w = ws_end(s, e);
                if closes_at(s, w, array) {
                    Some((a, k, e, w, w + bracket_len(array)))
                } else {
                    None
                }
            },
            None => None,
        }
    } else {
        None
    }
}

/// `t` is the header read from `i` with the positions of `p`.
pub open spec fn header_is(s: Seq<char>, i: int, array: bool, p: (int, int, int, int, int), t: TableType) -> bool {
    let keys = t.table().keys@;
    &&& (t is Array) == array
    &&& keys.len() >= 1
    &&& keys[0].ws.ws1@ == s.subrange(i + bracket_len(array), p.0)
    &&& keys[0].key@ == s.subrange(p.0, p.1)
    &&& keys[0].ws.ws2@ == s.subrange(p.2, p.3)
    &&& subkeys_are(s, subkeys_at(s, p.1), keys.drop_first())
}

pub proof fn lemma_subkey_at(s: Seq<char>, i: int)
    requires
        0 <= i <= s.len(),
    ensures
        subkey_at(s, i) matches Some(p) ==> i <= p.0 < p.1 < p.2 <= s.len() && p.0 + 1 <= p.1,
{
    lemma_ws_end(s, i);
    let a = ws_end(s, i);
    if 0 <= a < s.len() && s[a] == '.' {
        lemma_ws_end(s, a + 1);
        lemma_key_end(s, ws_end(s, a + 1));
    }
}

/// A rendered subkey gives back the text it was read from.
pub proof fn lemma_subkey_text(s: Seq<char>, p: (int, int, int, int), k: WSKeySep)
    requires
        subkey_is(s, p, k),
        0 <= p.0 <= p.1 < p.2 <= p.3 <= s.len(),
        s[p.1] == '.',
    ensures
        k.text() == s.subrange(p.0, p.3),
{
    assert(s.subrange(p.1, p.1 + 1) =~= seq!['.']);
    assert(k.text() =~= s.subrange(p.0, p.3));
}

/// Reads `<ws>.<ws><key>` from `i`.
fn read_subkey(s: &str, n: usize, i: usize) -> (r: Option<(usize, WSKeySep)>)
    requires
        n == s@.len(),
        i <= n,
    ensures
        r.is_some() == subkey_at(s@, i as int).is_some(),
        r matches Some((e, k)) ==> {
            let p = subkey_at(s@, i as int).unwrap();
            &&& e == p.2
            &&& subkey_is(s@, (i as int, p.0, p.1, p.2), k)
            &&& i < e <= n
            &&& k.text() == s@.subrange(i as int, e as int)
        },
{
    proof {
        lemma_subkey_at(s@, i as int);
    }
    let a = scan_ws(s, n, i);
    if a < n && s.get_char(a) == '.' {
        let c = scan_ws(s, n, a + 1);
        match scan_key(s, n, c) {
            Some(d) => {
                let ws = WSSep::new_str(s.substring_char(i, a), s.substring_char(a + 1, c));
                let k = WSKeySep::new_str(ws, s.substring_char(c, d));
                proof {
                    lemma_subkey_text(s@, (i as int, a as int, c as int, d as int), k);
                }
                Some((d, k))
            },
            None => None,
        }
    } else {
        None
    }
}

/// One more subkey read extends what was read so far.
proof fn lemma_subkeys_step(
    s: Seq<char>,
    i: int,
    done: Seq<(int, int, int, int)>,
    keys: Seq<WSKeySep>,
    cur: int,
    e: int,
    k: WSKeySep,
)
    requires
        0 <= i <= cur < e <= s.len(),
        subkey_at(s, cur) matches Some(p) && p.2 == e && subkey_is(s, (cur, p.0, p.1, p.2), k),
        subkeys_at(s, i) == done + subkeys_at(s, cur),
        subkeys_are(s, done, keys),
        subkeys_text(keys) == s.subrange(i, cur),
        k.text() == s.subrange(cur, e),
    ensures
        ({
            let p = subkey_at(s, cur).unwrap();
            let t = (cur, p.0, p.1, p.2);
            &&& subkeys_at(s, i) == done.push(t) + subkeys_at(s, e)
            &&& subkeys_are(s, done.push(t), keys.push(k))
            &&& subkeys_text(keys.push(k)) == s.subrange(i, e)
            &&& done.push(t).last().3 == e
        }),
{
    let p = subkey_at(s, cur).unwrap();
    let t = (cur, p.0, p.1, p.2);
    assert(subkeys_at(s, cur) == seq![t] + subkeys_at(s, e));
    assert(done + (seq![t] + subkeys_at(s, e)) =~= done.push(t) + subkeys_at(s, e));
    let ks = keys.push(k);
    assert(ks.drop_last() == keys);
    assert(subkeys_text(ks) == subkeys_text(keys) + k.text());
    assert(s.subrange(i, cur) + s.subrange(cur, e) =~= s.subrange(i, e));
    assert forall|j: int| 0 <= j < done.push(t).len() implies #[trigger] subkey_is(
        s,
        done.push(t)[j],
        ks[j],
    ) by {
        if j < done.len() {
            assert(done.push(t)[j] == done[j]);
            assert(subkey_is(s, done[j], keys[j]));
        }
    }
}

/// Reads subkeys from `i` as long as each reads and moves on.
fn read_subkeys(s: &str, n: usize, i: usize) -> (r: (usize, Vec<WSKeySep>))
    requires
        n == s@.len(),
        i <= n,
    ensures
        r.0 == subkeys_end(s@, i as int),
        i <= r.0 <= n,
        subkeys_are(s@, subkeys_at(s@, i as int), r.1@),
        subkeys_text(r.1@) == s@.subrange(i as int, r.0 as int),
{
    let mut keys: Vec<WSKeySep> = Vec::new();
    let mut cur = i;
    let ghost mut done: Seq<(int, int, int, int)> = Seq::empty();
    assert(subkeys_at(s@, i as int) == done + subkeys_at(s@, cur as int));
    loop
        invariant
            i <= cur <= n,
            n == s@.len(),
            subkeys_at(s@, i as int) == done + subkeys_at(s@, cur as int),
            subkeys_are(s@, done, keys@),
            subkeys_text(keys@) == s@.subrange(i as int, cur as int),
            done.len() == 0 ==> cur == i,
            done.len() > 0 ==> done.last().3 == cur,
        ensures
            subkeys_at(s@, cur as int) == Seq::<(int, int, int, int)>::empty(),
        decreases n - cur,
    {
        if cur >= n {
            break;
        }
        match read_subkey(s, n, cur) {
            Some((e, k)) => {
                if e <= cur {
                    break;
                }
                let ghost p = subkey_at(s@, cur as int).unwrap();
                let ghost t = (cur as int, p.0, p.1, p.2);
                proof {
                    lemma_subkeys_step(s@, i as int, done, keys@, cur as int, e as int, k);
                    done = done.push(t);
                }
                keys.push(k);
                cur = e;
            },
            None => {
                break;
            },
        }
    }
    proof {
        assert(done + Seq::<(int, int, int, int)>::empty() =~= done);
    }
    (cur, keys)
}

/// A rendered header gives back the text it was read from.
proof fn lemma_header_text(s: Seq<char>, i: int, array: bool, a: int, k: int, e: int, w: int, t: TableType)
    requires
        0 <= i,
        i + bracket_len(array) <= a <= k <= e <= w,
        w + bracket_len(array) <= s.len(),
        opens_at(s, i, array),
        closes_at(s, w, array),
        (t is Array) == array,
        t.table().keys@.len() >= 1,
        t.table().keys@[0].ws.ws1@ == s.subrange(i + bracket_len(array), a),
        t.table().keys@[0].key@ == s.subrange(a, k),
        t.table().keys@[0].ws.ws2@ == s.subrange(e, w),
        subkeys_text(t.table().keys@.drop_first()) == s.subrange(k, e),
    ensures
        t.text() == s.subrange(i, w + bracket_len(array)),
{
    let o = bracket_len(array);
    let tb = t.table();
    assert(tb.text() =~= s.subrange(i + o, w)) by {
        assert(s.subrange(i + o, a) + s.subrange(a, k) + s.subrange(k, e) + s.subrange(e, w)
            =~= s.subrange(i + o, w));
    }
    assert(t.text() =~= s.subrange(i, w + o));
}

/// Reads a header from `i`: `[[...]]` where `array` holds, `[...]` otherwise.
fn read_header(s: &str, n: usize, i: usize, array: bool) -> (r: Option<(usize, TableType)>)
    requires
        n == s@.len(),
        i <= n,
    ensures
        r.is_some() == header_at(s@, i as int, array).is_some(),
        r matches Some((e, t)) ==> {
            let p = header_at(s@, i as int, array).unwrap();
            &&& e == p.4
            &&& header_is(s@, i as int, array, p, t)
            &&& i < e <= n
            &&& t.text() == s@.subrange(i as int, e as int)
        },
{
    let o: usize = if array { 2 } else { 1 };
    if o > n - i {
        return None;
    }
    if s.get_char(i) != '[' || (array && s.get_char(i + 1) != '[') {
        return None;
    }
    let a = scan_ws(s, n, i + o);
    let k = match scan_key(s, n, a) {
        Some(k) => k,
        None => return None,
    };
    let (e, subkeys) = read_subkeys(s, n, k);
    let w = scan_ws(s, n, e);
    if o > n - w {
        return None;
    }
    if s.get_char(w) != ']' || (array && s.get_char(w + 1) != ']') {
        return None;
    }
    let ws = WSSep::new_str(s.substring_char(i + o, a), s.substring_char(e, w));
    let tb = Table::new_str(ws, s.substring_char(a, k), subkeys);
    let t = if array {
        TableType::Array(tb)
    } else {
        TableType::Standard(tb)
    };
    proof {
        lemma_header_text(s@, i as int, array, a as int, k as int, e as int, w as int, t);
    }
    Some((w + o, t))
}

impl TOMLParser {
    /// Reads `<ws>.<ws><key>`: one more key of a table header.
    pub fn table_subkey<'a>(input: &'a str) -> (r: Option<(&'a str, WSKeySep)>)
        ensures
            r.is_some() == subkey_at(input@, 0).is_some(),
            r matches Some((rest, k)) ==> {
                let p = subkey_at(input@, 0).unwrap();
                &&& subkey_is(input@, (0, p.0, p.1, p.2), k)
                &&& rest@ == input@.subrange(p.2, input@.len() as int)
                &&& k.text() + rest@ == input@
            },
    {
        let n = input.unicode_len();
        match read_subkey(input, n, 0) {
            Some((e, k)) => {
                let rest = input.substring_char(e, n);
                proof {
                    assert(k.text() + rest@ =~= input@);
                }
                Some((rest, k))
            },
            None => None,
        }
    }

    /// Reads subkeys for as long as they read.
    pub fn table_subkeys<'a>(input: &'a str) -> (r: Option<(&'a str, Vec<WSKeySep>)>)
        ensures
            r matches Some((rest, ks)) && {
                let e = subkeys_end(input@, 0);
                &&& subkeys_are(input@, subkeys_at(input@, 0), ks@)
                &&& rest@ == input@.subrange(e, input@.len() as int)
                &&& subkeys_text(ks@) + rest@ == input@
            },
    {
        let n = input.unicode_len();
        let (e, ks) = read_subkeys(input, n, 0);
        let rest = input.substring_char(e, n);
        proof {
            assert(subkeys_text(ks@) + rest@ =~= input@);
        }
        Some((rest, ks))
    }

    fn read_table<'a>(input: &'a str, array: bool) -> (r: Option<(&'a str, TableType)>)
        ensures
            r.is_some() == header_at(input@, 0, array).is_some(),
            r matches Some((rest, t)) ==> {
                let p = header_at(input@, 0, array).unwrap();
                &&& header_is(input@, 0, array, p, t)
                &&& rest@ == input@.subrange(p.4, input@.len() as int)
                &&& t.text() + rest@ == input@
            },
    {
        let n = input.unicode_len();
        match read_header(input, n, 0, array) {
            Some((e, t)) => {
                let rest = input.substring_char(e, n);
                proof {
                    assert(t.text() + rest@ =~= input@);
                }
                Some((rest, t))
            },
            None => None,
        }
    }

    /// Reads a standard table header: `[<ws><key><subkeys><ws>]`.
    pub fn std_table<'a>(input: &'a str) -> (r: Option<(&'a str, TableType)>)
        ensures
            r.is_some() == header_at(input@, 0, false).is_some(),
            r matches Some((rest, t)) ==> {
                let p = header_at(input@, 0, false).unwrap();
                &&& header_is(input@, 0, false, p, t)
                &&& rest@ == input@.subrange(p.4, input@.len() as int)
                &&& t.text() + rest@ == input@
            },
    {
        TOMLParser::read_table(input, false)
    }

    /// Reads an array of tables header: `[[<ws><key><subkeys><ws>]]`.
    pub fn array_table<'a>(input: &'a str) -> (r: Option<(&'a str, TableType)>)
        ensures
            r.is_some() == header_at(input@, 0, true).is_some(),
            r matches Some((rest, t)) ==> {
                let p = header_at(input@, 0, true).unwrap();
                &&& header_is(input@, 0, true, p, t)
                &&& rest@ == input@.subrange(p.4, input@.len() as int)
                &&& t.text() + rest@ == input@
            },
    {
        TOMLParser::read_table(input, true)
    }

    /// Reads a table header: an array of tables header where there is one,
    /// else a standard one.
    pub fn table<'a>(input: &'a str) -> (r: Option<(&'a str, TableType)>)
        ensures
            r.is_some() == (header_at(input@, 0, true).is_some() || header_at(input@, 0, false).is_some()),
            r matches Some((rest, t)) ==> {
                let array = header_at(input@, 0, true).is_some();
                let p = header_at(input@, 0, array).unwrap();
                &&& header_is(input@, 0, array, p, t)
                &&& rest@ == input@.subrange(p.4, input@.len() as int)
                &&& t.text() + rest@ == input@
            },
    {
        match TOMLParser::read_table(input, true) {
            Some(r) => Some(r),
            None => TOMLParser::read_table(input, false),
        }
    }
}

/// Where a comment from `i` ends: `#` and the comment characters after it.
pub open spec fn comment_at(s: Seq<char>, i: int) -> Option<int> {
    if 0 <= i < s.len() && s[i] == '#' {
        Some(eol_end(s, i + 1))
    } else {
        None
    }
}

/// Where the parts of whitespace and newlines, a comment, and whitespace and
/// newlines from `i` end.
pub open spec fn comment_nl_at(s: Seq<char>, i: int) -> Option<(int, int, int)> {
    let a = ws_nl_end(s, i);
    match comment_at(s, a) {
        Some(b) => Some((a, b, ws_nl_end(s, b))),
        None => None,
    }
}

/// `c` holds the texts read from `i` with the positions of `p`.
pub open spec fn comment_nl_is(s: Seq<char>, i: int, p: (int, int, int), c: CommentNewLines) -> bool {
    &&& c.pre_ws_nl@ == s.subrange(i, p.0)
    &&& c.comment.text@ == s.subrange(p.0 + 1, p.1)
    &&& c.newlines@ == s.subrange(p.1, p.2)
}

/// Where a comment with its newlines, or else whitespace and newlines alone,
/// from `i` ends.
pub open spec fn con_end(s: Seq<char>, i: int) -> int {
    match comment_nl_at(s, i) {
        Some(p) => p.2,
        None => ws_nl_end(s, i),
    }
}

/// `c` is what is read from `i`: a comment with its newlines where there is
/// one, else whitespace and newlines alone.
pub open spec fn con_is(s: Seq<char>, i: int, c: CommentOrNewLines) -> bool {
    match comment_nl_at(s, i) {
        Some(p) => c matches CommentOrNewLines::Comment(cn) && comment_nl_is(s, i, p, cn),
        None => c matches CommentOrNewLines::NewLines(nl) && nl@ == s.subrange(i, ws_nl_end(s, i)),
    }
}

/// The starts of the further items read from `j`, as long as each moves on.
pub open spec fn con_more(s: Seq<char>, j: int) -> Seq<int>
    decreases s.len() - j,
{
    if !(0 <= j < s.len()) {
        Seq::empty()
    } else {
        let e = con_end(s, j);
        if j < e <= s.len() {
            seq![j] + con_more(s, e)
        } else {
            Seq::empty()
        }
    }
}

/// The starts of the items of a run of comments and newlines from `i`: the
/// first item is always read, even when it reads nothing.
pub open spec fn cons_at(s: Seq<char>, i: int) -> Seq<int> {
    seq![i] + con_more(s, con_end(s, i))
}

/// Where the run of comments and newlines from `i` ends.
pub open spec fn cons_end(s: Seq<char>, i: int) -> int {
    con_end(s, cons_at(s, i).last())
}

/// Each item holds what is read from the start at the same place.
pub open spec fn cons_are(s: Seq<char>, starts: Seq<int>, cs: Seq<CommentOrNewLines>) -> bool {
    &&& starts.len() == cs.len()
    &&& forall|j: int| 0 <= j < starts.len() ==> #[trigger] con_is(s, starts[j], cs[j])
}

/// Where the parts of `<ws>,<ws>` from `i` end: the comma and the end.
pub open spec fn array_sep_at(s: Seq<char>, i: int) -> Option<(int, int)> {
    let a = ws_end(s, i);
    if 0 <= a < s.len() && s[a] == ',' {
        Some((a, ws_end(s, a + 1)))
    } else {
        None
    }
}

proof fn lemma_comment_nl_at(s: Seq<char>, i: int)
    requires
        0 <= i <= s.len(),
    ensures
        comment_nl_at(s, i) matches Some(p) ==> i <= p.0 < p.1 <= p.2 <= s.len() && s[p.0] == '#',
        i <= con_end(s, i) <= s.len(),
{
    lemma_ws_nl_end(s, i);
    let a = ws_nl_end(s, i);
    if 0 <= a < s.len() && s[a] == '#' {
        lemma_eol_end(s, a + 1);
        lemma_ws_nl_end(s, eol_end(s, a + 1));
    }
}

/// Reads whitespace and newlines, a comment, and whitespace and newlines.
fn read_comment_nl(s: &str, n: usize, i: usize) -> (r: Option<(usize, CommentNewLines)>)
    requires
        n == s@.len(),
        i <= n,
    ensures
        r.is_some() == comment_nl_at(s@, i as int).is_some(),
        r matches Some((e, c)) ==> {
            let p = comment_nl_at(s@, i as int).unwrap();
            &&& e == p.2
            &&& comment_nl_is(s@, i as int, p, c)
            &&& i < e <= n
            &&& c.text() == s@.subrange(i as int, e as int)
        },
{
    proof {
        lemma_comment_nl_at(s@, i as int);
    }
    let a = scan_ws_nl(s, n, i);
    if a < n && s.get_char(a) == '#' {
        let b = scan_eol(s, n, a + 1);
        let c = scan_ws_nl(s, n, b);
        let cn = CommentNewLines::new_str(s.substring_char(i, a), Comment::new_str(s.substring_char(a + 1, b)), s.substring_char(b, c));
        proof {
            let ss = s@;
            assert(ss.subrange(a as int, a + 1) =~= seq!['#']);
            assert(cn.text() =~= ss.subrange(i as int, c as int));
        }
        Some((c, cn))
    } else {
        None
    }
}

/// Reads a comment with its newlines, or else whitespace and newlines alone.
fn read_con(s: &str, n: usize, i: usize) -> (r: (usize, CommentOrNewLines))
    requires
        n == s@.len(),
        i <= n,
    ensures
        r.0 == con_end(s@, i as int),
        con_is(s@, i as int, r.1),
        i <= r.0 <= n,
        r.1.text() == s@.subrange(i as int, r.0 as int),
{
    proof {
        lemma_comment_nl_at(s@, i as int);
    }
    match read_comment_nl(s, n, i) {
        Some((e, c)) => (e, CommentOrNewLines::Comment(c)),
        None => {
            let e = scan_ws_nl(s, n, i);
            (e, CommentOrNewLines::NewLines(String::from_str(s.substring_char(i, e))))
        },
    }
}

/// One more item read extends what was read so far.
proof fn lemma_cons_step(
    s: Seq<char>,
    i: int,
    starts: Seq<int>,
    cs: Seq<CommentOrNewLines>,
    cur: int,
    e: int,
    c: CommentOrNewLines,
)
    requires
        0 <= i <= cur < e <= s.len(),
        e == con_end(s, cur),
        con_is(s, cur, c),
        cons_at(s, i) == starts + con_more(s, cur),
        cons_are(s, starts, cs),
        comment_nls_text(cs) == s.subrange(i, cur),
        c.text() == s.subrange(cur, e),
    ensures
        cons_at(s, i) == starts.push(cur) + con_more(s, e),
        cons_are(s, starts.push(cur), cs.push(c)),
        comment_nls_text(cs.push(c)) == s.subrange(i, e),
{
    assert(con_more(s, cur) == seq![cur] + con_more(s, e));
    assert(starts + (seq![cur] + con_more(s, e)) =~= starts.push(cur) + con_more(s, e));
    let cs2 = cs.push(c);
    assert(cs2.drop_last() == cs);
    assert(comment_nls_text(cs2) == comment_nls_text(cs) + c.text());
    assert(s.subrange(i, cur) + s.subrange(cur, e) =~= s.subrange(i, e));
    assert forall|j: int| 0 <= j < starts.push(cur).len() implies #[trigger] con_is(
        s,
        starts.push(cur)[j],
        cs2[j],
    ) by {
        if j < starts.len() {
            assert(starts.push(cur)[j] == starts[j]);
            assert(con_is(s, starts[j], cs[j]));
        }
    }
}

/// Reads a run of comments and newlines: the first item always, then more
/// as long as each moves on.
pub(crate) fn read_cons(s: &str, n: usize, i: usize) -> (r: (usize, Vec<CommentOrNewLines>))
    requires
        n == s@.len(),
        i <= n,
    ensures
        r.0 == cons_end(s@, i as int),
        i <= r.0 <= n,
        cons_are(s@, cons_at(s@, i as int), r.1@),
        comment_nls_text(r.1@) == s@.subrange(i as int, r.0 as int),
{
    let (e0, c0) = read_con(s, n, i);
    let mut items: Vec<CommentOrNewLines> = Vec::new();
    items.push(c0);
    let mut cur = e0;
    let ghost mut starts: Seq<int> = seq![i as int];
    proof {
        assert(items@.drop_last() =~= Seq::<CommentOrNewLines>::empty());
        assert(comment_nls_text(items@) == comment_nls_text(items@.drop_last()) + items@.last().text());
        assert(comment_nls_text(items@) =~= s@.subrange(i as int, e0 as int));
        assert(con_is(s@, starts[0], items@[0]));
    }
    loop
        invariant
            i <= cur <= n,
            n == s@.len(),
            starts.len() >= 1,
            cur == con_end(s@, starts.last()),
            cons_at(s@, i as int) == starts + con_more(s@, cur as int),
            cons_are(s@, starts, items@),
            comment_nls_text(items@) == s@.subrange(i as int, cur as int),
        ensures
            con_more(s@, cur as int) == Seq::<int>::empty(),
        decreases n - cur,
    {
        if cur >= n {
            break;
        }
        let (e, c) = read_con(s, n, cur);
        if e <= cur {
            break;
        }
        proof {
            lemma_cons_step(s@, i as int, starts, items@, cur as int, e as int, c);
            starts = starts.push(cur as int);
        }
        items.push(c);
        cur = e;
    }
    proof {
        assert(starts + Seq::<int>::empty() =~= starts);
    }
    (cur, items)
}

/// Reads `<ws>,<ws>` from `i`.
pub(crate) fn read_array_sep(s: &str, n: usize, i: usize) -> (r: Option<(usize, WSSep)>)
    requires
        n == s@.len(),
        i <= n,
    ensures
        r.is_some() == array_sep_at(s@, i as int).is_some(),
        r matches Some((e, w)) ==> {
            let p = array_sep_at(s@, i as int).unwrap();
            &&& e == p.1
            &&& w.ws1@ == s@.subrange(i as int, p.0)
            &&& w.ws2@ == s@.subrange(p.0 + 1, p.1)
            &&& i < e <= n
        },
{
    proof {
        lemma_ws_end(s@, i as int);
    }
    let a = scan_ws(s, n, i);
    if a < n && s.get_char(a) == ',' {
        let b = scan_ws(s, n, a + 1);
        Some((b, WSSep::new_str(s.substring_char(i, a), s.substring_char(a + 1, b))))
    } else {
        None
    }
}

impl TOMLParser {
    /// Reads the spaces and tabs at the start of the input.
    pub fn ws<'a>(input: &'a str) -> (r: Option<(&'a str, String)>)
        ensures
            r matches Some((rest, w)) && {
                let e = ws_end(input@, 0);
                &&& w@ == input@.subrange(0, e)
                &&& rest@ == input@.subrange(e, input@.len() as int)
                &&& w@ + rest@ == input@
            },
    {
        let n = input.unicode_len();
        let e = scan_ws(input, n, 0);
        let w = String::from_str(input.substring_char(0, e));
        let rest = input.substring_char(e, n);
        proof {
            assert(w@ + rest@ =~= input@);
        }
        Some((rest, w))
    }

    /// Reads the spaces, tabs and newlines at the start of the input.
    pub fn ws_newline<'a>(input: &'a str) -> (r: Option<(&'a str, String)>)
        ensures
            r matches Some((rest, w)) && {
                let e = ws_nl_end(input@, 0);
                &&& w@ == input@.subrange(0, e)
                &&& rest@ == input@.subrange(e, input@.len() as int)
                &&& w@ + rest@ == input@
            },
    {
        let n = input.unicode_len();
        let e = scan_ws_nl(input, n, 0);
        let w = String::from_str(input.substring_char(0, e));
        let rest = input.substring_char(e, n);
        proof {
            assert(w@ + rest@ =~= input@);
        }
        Some((rest, w))
    }

    /// Reads a comment: `#` and the comment characters after it.
    pub fn comment<'a>(input: &'a str) -> (r: Option<(&'a str, Comment)>)
        ensures
            r.is_some() == comment_at(input@, 0).is_some(),
            r matches Some((rest, c)) ==> {
                let e = comment_at(input@, 0).unwrap();
                &&& c.text@ == input@.subrange(1, e)
                &&& rest@ == input@.subrange(e, input@.len() as int)
                &&& c.text() + rest@ == input@
            },
    {
        let n = input.unicode_len();
        if n == 0 || input.get_char(0) != '#' {
            return None;
        }
        proof {
            lemma_eol_end(input@, 1);
        }
        let e = scan_eol(input, n, 1);
        let c = Comment::new_str(input.substring_char(1, e));
        let rest = input.substring_char(e, n);
        proof {
            assert(input@.subrange(0, 1) =~= seq!['#']);
            assert(c.text() + rest@ =~= input@);
        }
        Some((rest, c))
    }

    /// Reads a key: a quoted key, or else a bare one.
    pub fn key<'a>(input: &'a str) -> (r: Option<(&'a str, String)>)
        ensures
            r.is_some() == key_end(input@, 0).is_some(),
            r matches Some((rest, k)) ==> {
                let e = key_end(input@, 0).unwrap();
                &&& k@ == input@.subrange(0, e)
                &&& rest@ == input@.subrange(e, input@.len() as int)
                &&& k@ + rest@ == input@
            },
    {
        let n = input.unicode_len();
        match scan_key(input, n, 0) {
            Some(e) => {
                let k = String::from_str(input.substring_char(0, e));
                let rest = input.substring_char(e, n);
                proof {
                    assert(k@ + rest@ =~= input@);
                }
                Some((rest, k))
            },
            None => None,
        }
    }

    /// Reads `<ws>,<ws>`: the separator after a value of an array.
    pub fn array_sep<'a>(input: &'a str) -> (r: Option<(&'a str, WSSep)>)
        ensures
            r.is_some() == array_sep_at(input@, 0).is_some(),
            r matches Some((rest, w)) ==> {
                let p = array_sep_at(input@, 0).unwrap();
                &&& w.ws1@ == input@.subrange(0, p.0)
                &&& w.ws2@ == input@.subrange(p.0 + 1, p.1)
                &&& rest@ == input@.subrange(p.1, input@.len() as int)
                &&& w.ws1@ + seq![','] + w.ws2@ + rest@ == input@
            },
    {
        let n = input.unicode_len();
        match read_array_sep(input, n, 0) {
            Some((e, w)) => {
                let rest = input.substring_char(e, n);
                proof {
                    let p = array_sep_at(input@, 0).unwrap();
                    lemma_ws_end(input@, 0);
                    lemma_ws_end(input@, p.0 + 1);
                    assert(input@.subrange(p.0, p.0 + 1) =~= seq![',']);
                    assert(w.ws1@ + seq![','] + w.ws2@ + rest@ =~= input@);
                }
                Some((rest, w))
            },
            None => None,
        }
    }

    /// Reads whitespace and newlines, a comment, and whitespace and newlines.
    pub fn comment_nl<'a>(input: &'a str) -> (r: Option<(&'a str, CommentNewLines)>)
        ensures
            r.is_some() == comment_nl_at(input@, 0).is_some(),
            r matches Some((rest, c)) ==> {
                let p = comment_nl_at(input@, 0).unwrap();
                &&& comment_nl_is(input@, 0, p, c)
                &&& rest@ == input@.subrange(p.2, input@.len() as int)
                &&& c.text() + rest@ == input@
            },
    {
        let n = input.unicode_len();
        match read_comment_nl(input, n, 0) {
            Some((e, c)) => {
                let rest = input.substring_char(e, n);
                proof {
                    assert(c.text() + rest@ =~= input@);
                }
                Some((rest, c))
            },
            None => None,
        }
    }

    /// Reads a comment with its newlines where there is one, else whitespace
    /// and newlines alone; this always reads, if only nothing.
    pub fn comment_or_nl<'a>(input: &'a str) -> (r: Option<(&'a str, CommentOrNewLines)>)
        ensures
            r matches Some((rest, c)) && {
                &&& con_is(input@, 0, c)
                &&& rest@ == input@.subrange(con_end(input@, 0), input@.len() as int)
                &&& c.text() + rest@ == input@
            },
    {
        let n = input.unicode_len();
        let (e, c) = read_con(input, n, 0);
        let rest = input.substring_char(e, n);
        proof {
            assert(c.text() + rest@ =~= input@);
        }
        Some((rest, c))
    }

    /// Reads a run of comments and newlines: at least one item, then more as
    /// long as each moves on.
    pub fn comment_or_nls<'a>(input: &'a str) -> (r: Option<(&'a str, Vec<CommentOrNewLines>)>)
        ensures
            r matches Some((rest, cs)) && {
                &&& cons_are(input@, cons_at(input@, 0), cs@)
                &&& rest@ == input@.subrange(cons_end(input@, 0), input@.len() as int)
                &&& comment_nls_text(cs@) + rest@ == input@
            },
    {
        let n = input.unicode_len();
        let (e, cs) = read_cons(input, n, 0);
        let rest = input.substring_char(e, n);
        proof {
            assert(comment_nls_text(cs@) + rest@ =~= input@);
        }
        Some((rest, cs))
    }
}

} // verus!
