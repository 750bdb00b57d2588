//! Reading rendered text gives back what was rendered: the header and comment
//! readers undo the rendering, for values that the readers could have produced.
use vstd::prelude::*;
use crate::grammar::{is_ws, ws_end, is_keychar, keychars_end, key_end, quoted_key_end,
    quoted_rest_end, quoted_item_end, escape_digits, is_escape_digit, ws_nl_end, not_eol, eol_end,
    lemma_ws_nl_end};
use crate::ast::structs::{WSKeySep, TableType, CommentNewLines, subkeys_text};
use crate::parser::{subkey_at, subkey_is, subkeys_at, subkeys_end, subkeys_are, header_at,
    header_is, bracket_len, opens_at, closes_at, comment_at, comment_nl_at, comment_nl_is};

verus! {

/// Every character of the text is a space or a tab.
pub open spec fn ws_only(x: Seq<char>) -> bool {
    forall|m: int| 0 <= m < x.len() ==> #[trigger] is_ws(x[m])
}

/// The text is a key, all of it.
pub open spec fn valid_key(x: Seq<char>) -> bool {
    key_end(x, 0) == Some(x.len() as int)
}

/// The text stands in `s` from `i`.
pub open spec fn stands_at(s: Seq<char>, i: int, x: Seq<char>) -> bool {
    0 <= i && i + x.len() <= s.len() && s.subrange(i, i + x.len()) == x
}

/// A header that the header reader could have read: at least one key, every
/// key a key, and spaces and tabs alone around each.
pub open spec fn header_wf(t: TableType) -> bool {
    let keys = t.table().keys@;
    &&& keys.len() >= 1
    &&& forall|j: int| 0 <= j < keys.len() ==> {
        &&& ws_only(#[trigger] keys[j].ws.ws1@)
        &&& ws_only(keys[j].ws.ws2@)
        &&& valid_key(keys[j].key@)
    }
}

proof fn lemma_stands(s: Seq<char>, i: int, x: Seq<char>, m: int)
    requires
        stands_at(s, i, x),
        0 <= m < x.len(),
    ensures
        s[i + m] == x[m],
{
    assert(s.subrange(i, i + x.len())[m] == s[i + m]);
}

/// Spaces and tabs followed by something else end where they end.
proof fn lemma_ws_in_context(s: Seq<char>, i: int, j: int)
    requires
        0 <= i <= j <= s.len(),
        forall|m: int| i <= m < j ==> #[trigger] is_ws(s[m]),
        j == s.len() || !is_ws(s[j]),
    ensures
        ws_end(s, i) == j,
    decreases j - i,
{
    if i < j {
        lemma_ws_in_context(s, i + 1, j);
    }
}

proof fn lemma_ws_text_in_context(s: Seq<char>, i: int, x: Seq<char>)
    requires
        stands_at(s, i, x),
        ws_only(x),
        i + x.len() == s.len() || !is_ws(s[i + x.len()]),
    ensures
        ws_end(s, i) == i + x.len(),
{
    assert forall|m: int| i <= m < i + x.len() implies #[trigger] is_ws(s[m]) by {
        lemma_stands(s, i, x, m - i);
    }
    lemma_ws_in_context(s, i, i + x.len());
}

proof fn lemma_keychars_in_context(s: Seq<char>, i: int, x: Seq<char>, j: int)
    requires
        stands_at(s, i, x),
        0 <= j <= x.len(),
        keychars_end(x, j) == x.len(),
        i + x.len() == s.len() || !is_keychar(s[i + x.len()]),
    ensures
        keychars_end(s, i + j) == i + x.len(),
    decreases x.len() - j,
{
    if j < x.len() {
        lemma_stands(s, i, x, j);
        if !is_keychar(x[j]) {
            assert(keychars_end(x, j) == j);
        }
        lemma_keychars_in_context(s, i, x, j + 1);
    }
}

proof fn lemma_quoted_item_in_context(s: Seq<char>, i: int, x: Seq<char>, j: int)
    requires
        stands_at(s, i, x),
        quoted_item_end(x, j) is Some,
    ensures
        quoted_item_end(s, i + j) == Some(i + quoted_item_end(x, j).unwrap()),
{
    lemma_stands(s, i, x, j);
    if x[j] == '\\' {
        lemma_stands(s, i, x, j + 1);
        let e = x[j + 1];
        if e == 'u' || e == 'U' {
            let k: int = if e == 'u' { 4 } else { 8 };
            if escape_digits(x, j + 2, k) {
                assert forall|m: int| i + j + 2 <= m < i + j + 2 + k implies #[trigger] is_escape_digit(s[m]) by {
                    lemma_stands(s, i, x, m - i);
                    assert(is_escape_digit(x[m - i]));
                }
            }
        }
    }
}

proof fn lemma_quoted_rest_in_context(s: Seq<char>, i: int, x: Seq<char>, j: int)
    requires
        stands_at(s, i, x),
        quoted_rest_end(x, j) is Some,
    ensures
        quoted_rest_end(s, i + j) == Some(i + quoted_rest_end(x, j).unwrap()),
    decreases x.len() - j,
{
    lemma_stands(s, i, x, j);
    if x[j] != '"' {
        let j2 = quoted_item_end(x, j).unwrap();
        lemma_quoted_item_in_context(s, i, x, j);
        lemma_quoted_rest_in_context(s, i, x, j2);
    }
}

/// A key followed by something that cannot continue a bare key ends where it
/// ends.
pub proof fn lemma_key_in_context(s: Seq<char>, i: int, x: Seq<char>)
    requires
        stands_at(s, i, x),
        valid_key(x),
        i + x.len() == s.len() || !is_keychar(s[i + x.len()]),
    ensures
        key_end(s, i) == Some(i + x.len()),
{
    if quoted_key_end(x, 0) is Some {
        lemma_stands(s, i, x, 0);
        lemma_quoted_item_in_context(s, i, x, 1);
        let j = quoted_item_end(x, 1).unwrap();
        lemma_quoted_rest_in_context(s, i, x, j);
    } else {
        lemma_keychars_in_context(s, i, x, 0);
        if x.len() > 0 {
            lemma_stands(s, i, x, 0);
            if x[0] == '"' {
                assert(keychars_end(x, 0) == 0);
            }
        }
    }
}

/// A key starts with a character that is neither a space, a tab, a dot,
/// nor a bracket.
proof fn lemma_key_first(x: Seq<char>)
    requires
        valid_key(x),
    ensures
        x.len() >= 1,
        !is_ws(x[0]),
        x[0] != '.' && x[0] != '[' && x[0] != ']',
{
    if x.len() == 0 {
        assert(keychars_end(x, 0) == 0);
    }
}

/// The rendered subkeys are the first one's text, then the others'.
proof fn lemma_subkeys_text_front(ks: Seq<WSKeySep>)
    requires
        ks.len() >= 1,
    ensures
        subkeys_text(ks) == ks[0].text() + subkeys_text(ks.drop_first()),
    decreases ks.len(),
{
    if ks.len() > 1 {
        let dl = ks.drop_last();
        let df = ks.drop_first();
        lemma_subkeys_text_front(dl);
        assert(dl.drop_first() =~= df.drop_last());
        assert(dl[0] == ks[0]);
        assert(df.last() == ks.last());
        assert(subkeys_text(df) == subkeys_text(df.drop_last()) + df.last().text());
        assert(subkeys_text(ks) == subkeys_text(dl) + ks.last().text());
        assert(subkeys_text(ks) =~= ks[0].text() + subkeys_text(df));
    } else {
        assert(ks.drop_first().len() == 0);
        assert(ks.drop_last().len() == 0);
        assert(subkeys_text(ks.drop_last()) =~= Seq::<char>::empty());
        assert(subkeys_text(ks) =~= ks[0].text() + subkeys_text(ks.drop_first()));
    }
}

/// Spaces and tabs alone around the dot, and a key after it.
pub open spec fn subkey_wf(k: WSKeySep) -> bool {
    &&& ws_only(k.ws.ws1@)
    &&& ws_only(k.ws.ws2@)
    &&& valid_key(k.key@)
}

proof fn lemma_stands_part(s: Seq<char>, i: int, x: Seq<char>, a: int, b: int)
    requires
        stands_at(s, i, x),
        0 <= a <= b <= x.len(),
    ensures
        stands_at(s, i + a, x.subrange(a, b)),
        s.subrange(i + a, i + b) == x.subrange(a, b),
{
    assert(s.subrange(i + a, i + b) =~= x.subrange(a, b)) by {
        assert forall|m: int| 0 <= m < b - a implies s.subrange(i + a, i + b)[m] == x.subrange(a, b)[m] by {
            lemma_stands(s, i, x, a + m);
        }
    }
}

/// A rendered subkey followed by something that cannot continue a bare key
/// reads back as itself.
proof fn lemma_subkey_read(s: Seq<char>, i: int, k: WSKeySep)
    requires
        stands_at(s, i, k.text()),
        subkey_wf(k),
        i + k.text().len() == s.len() || !is_keychar(s[i + k.text().len()]),
    ensures
        subkey_at(s, i) == Some((i + k.ws.ws1@.len(), i + k.ws.ws1@.len() + 1 + k.ws.ws2@.len(),
            i + k.text().len())),
        subkey_is(s, (i, i + k.ws.ws1@.len(), i + k.ws.ws1@.len() + 1 + k.ws.ws2@.len(),
            i + k.text().len()), k),
{
    let x = k.text();
    let l1 = k.ws.ws1@.len() as int;
    let l2 = k.ws.ws2@.len() as int;
    let a = i + l1;
    let c = a + 1 + l2;
    lemma_key_first(k.key@);
    assert(x.subrange(0, l1) =~= k.ws.ws1@);
    assert(x.subrange(l1 + 1, l1 + 1 + l2) =~= k.ws.ws2@);
    assert(x.subrange(l1 + 1 + l2, x.len() as int) =~= k.key@);
    assert(x[l1] == '.');
    assert(x[l1 + 1 + l2] == k.key@[0]);
    lemma_stands_part(s, i, x, 0, l1);
    lemma_stands_part(s, i, x, l1 + 1, l1 + 1 + l2);
    lemma_stands_part(s, i, x, l1 + 1 + l2, x.len() as int);
    lemma_stands(s, i, x, l1);
    lemma_stands(s, i, x, l1 + 1 + l2);
    lemma_ws_text_in_context(s, i, k.ws.ws1@);
    lemma_ws_text_in_context(s, a + 1, k.ws.ws2@);
    lemma_key_in_context(s, c, k.key@);
}

/// Rendered subkeys, followed by something that is neither a bare key
/// character nor spaces and a dot, read back as themselves and end where the
/// text ends.
proof fn lemma_subkeys_read(s: Seq<char>, i: int, ks: Seq<WSKeySep>)
    requires
        stands_at(s, i, subkeys_text(ks)),
        forall|j: int| 0 <= j < ks.len() ==> subkey_wf(#[trigger] ks[j]),
        i + subkeys_text(ks).len() == s.len() || !is_keychar(s[i + subkeys_text(ks).len()]),
        subkey_at(s, i + subkeys_text(ks).len()) is None,
    ensures
        subkeys_at(s, i).len() == ks.len(),
        subkeys_are(s, subkeys_at(s, i), ks),
        subkeys_end(s, i) == i + subkeys_text(ks).len(),
    decreases ks.len(),
{
    if ks.len() == 0 {
        assert(subkeys_text(ks) =~= Seq::<char>::empty());
        assert(subkeys_at(s, i).len() == 0);
    } else {
        let k = ks[0];
        let r = ks.drop_first();
        lemma_subkeys_text_front(ks);
        let x = subkeys_text(ks);
        let lk = k.text().len() as int;
        assert(x.subrange(0, lk) =~= k.text());
        assert(x.subrange(lk, x.len() as int) =~= subkeys_text(r));
        lemma_stands_part(s, i, x, 0, lk);
        lemma_stands_part(s, i, x, lk, x.len() as int);
        assert(subkey_wf(ks[0]));
        assert forall|j: int| 0 <= j < r.len() implies subkey_wf(#[trigger] r[j]) by {
            assert(r[j] == ks[j + 1]);
        }
        if r.len() > 0 {
            lemma_subkeys_text_front(r);
            let f = r[0];
            assert(subkey_wf(f));
            lemma_stands(s, i, x, lk);
            if f.ws.ws1@.len() > 0 {
                assert(subkeys_text(r)[0] == f.ws.ws1@[0]);
                assert(is_ws(f.ws.ws1@[0]));
            } else {
                assert(subkeys_text(r)[0] == '.');
            }
        } else {
            assert(subkeys_text(r) =~= Seq::<char>::empty());
        }
        lemma_subkey_read(s, i, k);
        lemma_subkeys_read(s, i + lk, r);
        let p = (i, i + k.ws.ws1@.len(), i + k.ws.ws1@.len() + 1 + k.ws.ws2@.len(), i + lk);
        assert(i < s.len());
        assert(subkeys_at(s, i) == seq![p] + subkeys_at(s, i + lk));
        let ps = subkeys_at(s, i);
        assert forall|j: int| 0 <= j < ps.len() implies #[trigger] subkey_is(s, ps[j], ks[j]) by {
            if j > 0 {
                assert(ps[j] == subkeys_at(s, i + lk)[j - 1]);
                assert(ks[j] == r[j - 1]);
            }
        }
        if r.len() > 0 {
            assert(ps.last() == subkeys_at(s, i + lk).last());
        }
    }
}

/// Two headers read from the same positions hold the same texts.
proof fn lemma_header_is_unique(s: Seq<char>, array: bool, p: (int, int, int, int, int),
    t: TableType, t2: TableType)
    requires
        header_is(s, 0, array, p, t),
        header_is(s, 0, array, p, t2),
    ensures
        t2.same(&t),
{
    let ks = t.table().keys@;
    let ks2 = t2.table().keys@;
    let ps = subkeys_at(s, p.1);
    assert forall|j: int| 0 <= j < ks2.len() implies #[trigger] ks2[j].same(&ks[j]) by {
        if j > 0 {
            assert(ks2[j] == ks2.drop_first()[j - 1]);
            assert(ks[j] == ks.drop_first()[j - 1]);
            assert(subkey_is(s, ps[j - 1], ks2.drop_first()[j - 1]));
            assert(subkey_is(s, ps[j - 1], ks.drop_first()[j - 1]));
        }
    }
}

/// Where the parts of a rendered header end: its first key's leading
/// whitespace, the first key, the later keys, and the whitespace before the
/// closing bracket.
pub open spec fn header_marks(t: TableType) -> (int, int, int, int) {
    let ks = t.table().keys@;
    let a = bracket_len(t is Array) + ks[0].ws.ws1@.len();
    let k = a + ks[0].key@.len();
    let e = k + subkeys_text(ks.drop_first()).len();
    (a, k, e, e + ks[0].ws.ws2@.len())
}

/// The first character of rendered subkeys is a space, a tab or a dot.
proof fn lemma_subkeys_first(ks: Seq<WSKeySep>)
    requires
        ks.len() >= 1,
        subkey_wf(ks[0]),
    ensures
        subkeys_text(ks).len() >= 1,
        is_ws(subkeys_text(ks)[0]) || subkeys_text(ks)[0] == '.',
{
    lemma_subkeys_text_front(ks);
    let f = ks[0];
    if f.ws.ws1@.len() > 0 {
        assert(subkeys_text(ks)[0] == f.ws.ws1@[0]);
    } else {
        assert(subkeys_text(ks)[0] == '.');
    }
}

/// The layout of a rendered header.
proof fn lemma_header_layout(t: TableType)
    requires
        header_wf(t),
    ensures
        ({
            let x = t.text();
            let o = bracket_len(t is Array);
            let ks = t.table().keys@;
            let k0 = ks[0];
            let (a, k, e, w) = header_marks(t);
            &&& x.len() == w + o
            &&& x.subrange(o, a) == k0.ws.ws1@
            &&& x.subrange(a, k) == k0.key@
            &&& x.subrange(k, e) == subkeys_text(ks.drop_first())
            &&& x.subrange(e, w) == k0.ws.ws2@
            &&& x[0] == '['
            &&& (t is Array ==> x[1] == '[')
            &&& x[w] == ']'
            &&& (t is Array ==> x[w + 1] == ']')
            &&& o < x.len() && !is_ws(x[a]) && x[a] != '[' && !is_keychar(x[w])
            &&& (o < a ==> is_ws(x[o]))
            &&& (e < w ==> is_ws(x[e]))
            &&& (k < e ==> is_ws(x[k]) || x[k] == '.')
            &&& ws_only(k0.ws.ws1@) && ws_only(k0.ws.ws2@) && valid_key(k0.key@)
            &&& forall|j: int| 0 <= j < ks.drop_first().len() ==> subkey_wf(#[trigger] ks.drop_first()[j])
        }),
{
    let x = t.text();
    let o = bracket_len(t is Array);
    let tb = t.table();
    let ks = tb.keys@;
    let k0 = ks[0];
    let df = ks.drop_first();
    let (a, k, e, w) = header_marks(t);
    assert(ws_only(k0.ws.ws1@) && ws_only(k0.ws.ws2@) && valid_key(k0.key@));
    assert forall|j: int| 0 <= j < df.len() implies subkey_wf(#[trigger] df[j]) by {
        assert(df[j] == ks[j + 1]);
        assert(ws_only(ks[j + 1].ws.ws1@));
    }
    lemma_key_first(k0.key@);
    let inner = tb.text();
    assert(inner == k0.ws.ws1@ + k0.key@ + subkeys_text(df) + k0.ws.ws2@);
    assert(x.subrange(o, w) =~= inner);
    assert(x.subrange(o, a) =~= k0.ws.ws1@);
    assert(x.subrange(a, k) =~= k0.key@);
    assert(x.subrange(k, e) =~= subkeys_text(df));
    assert(x.subrange(e, w) =~= k0.ws.ws2@);
    assert(x[a] == x.subrange(a, k)[0]);
    if o < a {
        assert(x[o] == x.subrange(o, a)[0]);
    }
    if e < w {
        assert(x[e] == x.subrange(e, w)[0]);
    }
    if df.len() > 0 {
        lemma_subkeys_first(df);
        assert(x[k] == x.subrange(k, e)[0]);
    } else {
        assert(subkeys_text(df) =~= Seq::<char>::empty());
    }
}

/// A rendered header that the header reader could have read reads back as
/// itself, and ends where its text ends.
proof fn lemma_header_read(s: Seq<char>, t: TableType, rest: Seq<char>)
    requires
        header_wf(t),
        s == t.text() + rest,
    ensures
        header_at(s, 0, true).is_some() == (t is Array),
        header_at(s, 0, t is Array) matches Some(p) && {
            &&& p.4 == t.text().len()
            &&& header_is(s, 0, t is Array, p, t)
        },
{
    let array = t is Array;
    let o = bracket_len(array);
    let x = t.text();
    let ks = t.table().keys@;
    let k0 = ks[0];
    let df = ks.drop_first();
    let (a, k, e, w) = header_marks(t);
    lemma_header_layout(t);
    assert(s.subrange(0, x.len() as int) =~= x);
    lemma_stands_part(s, 0, x, o, a);
    lemma_stands_part(s, 0, x, a, k);
    lemma_stands_part(s, 0, x, k, e);
    lemma_stands_part(s, 0, x, e, w);
    lemma_stands(s, 0, x, 0);
    lemma_stands(s, 0, x, a);
    lemma_stands(s, 0, x, w);
    if array {
        lemma_stands(s, 0, x, 1);
        lemma_stands(s, 0, x, w + 1);
    } else {
        lemma_stands(s, 0, x, 1);
    }
    if o < a {
        lemma_stands(s, 0, x, o);
    }
    if e < w {
        lemma_stands(s, 0, x, e);
    }
    if k < e {
        lemma_stands(s, 0, x, k);
    }
    lemma_ws_text_in_context(s, o, k0.ws.ws1@);
    lemma_key_in_context(s, a, k0.key@);
    lemma_ws_text_in_context(s, e, k0.ws.ws2@);
    assert(subkey_at(s, e) is None);
    lemma_subkeys_read(s, k, df);
    assert(opens_at(s, 0, array));
    assert(closes_at(s, w, array));
    assert(header_at(s, 0, array) == Some((a, k, e, w, w + o)));
    if !array {
        assert(!opens_at(s, 0, true));
    }
}

/// Reading a rendered table header gives the header back. Where its keys are
/// keys and the whitespace around them is spaces and tabs, the text of a header
/// followed by anything is read as an array of tables header exactly when the
/// header is one; the header read ends where the rendered text ends, and holds
/// the same keys and whitespace as the header rendered.
pub proof fn law_header_read_back(t: TableType, rest: Seq<char>)
    requires
        header_wf(t),
    ensures
        ({
            let s = t.text() + rest;
            let array = t is Array;
            &&& header_at(s, 0, true).is_some() == array
            &&& header_at(s, 0, array) matches Some(p) && {
                &&& p.4 == t.text().len()
                &&& s.subrange(p.4, s.len() as int) == rest
                &&& header_is(s, 0, array, p, t)
                &&& forall|t2: TableType| #[trigger] header_is(s, 0, array, p, t2) ==> t2.same(&t)
            }
        }),
{
    let s = t.text() + rest;
    let array = t is Array;
    lemma_header_read(s, t, rest);
    let p = header_at(s, 0, array).unwrap();
    assert(s.subrange(p.4, s.len() as int) =~= rest);
    assert forall|t2: TableType| #[trigger] header_is(s, 0, array, p, t2) implies t2.same(&t) by {
        lemma_header_is_unique(s, array, p, t, t2);
    }
}

/// Whitespace and newlines, all of the text.
pub open spec fn nl_only(x: Seq<char>) -> bool {
    ws_nl_end(x, 0) == x.len()
}

/// A comment with its whitespace and newlines that the comment reader could
/// have read: whitespace and newlines before it, comment characters in it, and
/// newlines after it that start with a line break.
pub open spec fn comment_nl_wf(c: CommentNewLines) -> bool {
    &&& nl_only(c.pre_ws_nl@)
    &&& forall|m: int| 0 <= m < c.comment.text@.len() ==> #[trigger] not_eol(c.comment.text@[m])
    &&& nl_only(c.newlines@)
    &&& c.newlines@.len() > 0 ==> !not_eol(c.newlines@[0])
}

/// What follows a rendered comment stops it: no whitespace or newline, and
/// where the comment has no newlines after it, no comment character.
pub open spec fn ends_comment_nl(c: CommentNewLines, rest: Seq<char>) -> bool {
    &&& ws_nl_end(rest, 0) == 0
    &&& c.newlines@.len() == 0 && rest.len() > 0 ==> !not_eol(rest[0])
}

/// Whitespace and newlines followed by something that does not continue them
/// end where they end.
proof fn lemma_ws_nl_in_context(s: Seq<char>, i: int, x: Seq<char>, j: int)
    requires
        stands_at(s, i, x),
        0 <= j <= x.len(),
        ws_nl_end(x, j) == x.len(),
        ws_nl_end(s, i + x.len()) == i + x.len(),
    ensures
        ws_nl_end(s, i + j) == i + x.len(),
    decreases x.len() - j,
{
    if j < x.len() {
        lemma_stands(s, i, x, j);
        if is_ws(x[j]) || x[j] == '\n' {
            lemma_ws_nl_in_context(s, i, x, j + 1);
        } else if j + 1 < x.len() && x[j] == '\r' && x[j + 1] == '\n' {
            lemma_stands(s, i, x, j + 1);
            lemma_ws_nl_in_context(s, i, x, j + 2);
        }
    }
}

/// Comment characters followed by something else end where they end.
proof fn lemma_eol_in_context(s: Seq<char>, i: int, x: Seq<char>, j: int)
    requires
        stands_at(s, i, x),
        0 <= j <= x.len(),
        forall|m: int| 0 <= m < x.len() ==> #[trigger] not_eol(x[m]),
        i + x.len() == s.len() || !not_eol(s[i + x.len()]),
    ensures
        eol_end(s, i + j) == i + x.len(),
    decreases x.len() - j,
{
    if j < x.len() {
        lemma_stands(s, i, x, j);
        lemma_eol_in_context(s, i, x, j + 1);
    }
}

/// Reading a rendered comment gives the comment back. Where the comment
/// reader could have read it, the text of a comment with its whitespace and
/// newlines, followed by something that stops it, is read as a comment that
/// ends where the rendered text ends and holds the same texts.
pub proof fn law_comment_nl_read_back(c: CommentNewLines, rest: Seq<char>)
    requires
        comment_nl_wf(c),
        ends_comment_nl(c, rest),
    ensures
        ({
            let s = c.text() + rest;
            &&& comment_nl_at(s, 0) matches Some(p) && {
                &&& p.2 == c.text().len()
                &&& s.subrange(p.2, s.len() as int) == rest
                &&& comment_nl_is(s, 0, p, c)
                &&& forall|c2: CommentNewLines| #[trigger] comment_nl_is(s, 0, p, c2) ==> c2.same(&c)
            }
        }),
{
    let s = c.text() + rest;
    let x = c.text();
    let pre = c.pre_ws_nl@;
    let body = c.comment.text@;
    let nl = c.newlines@;
    let a = pre.len() as int;
    let b = a + 1 + body.len();
    let e = b + nl.len();
    assert(x.len() == e);
    assert(s.subrange(0, e) =~= x);
    assert(x.subrange(0, a) =~= pre);
    assert(x.subrange(a + 1, b) =~= body);
    assert(x.subrange(b, e) =~= nl);
    assert(x[a] == '#');
    lemma_stands_part(s, 0, x, 0, a);
    lemma_stands_part(s, 0, x, a + 1, b);
    lemma_stands_part(s, 0, x, b, e);
    lemma_stands(s, 0, x, a);
    // Nothing continues the newlines after the comment.
    assert(s.len() == e + rest.len());
    if rest.len() > 0 {
        lemma_ws_nl_end(rest, 1);
        if rest.len() > 1 {
            lemma_ws_nl_end(rest, 2);
        }
        assert(s[e] == rest[0]);
        assert(!(is_ws(rest[0]) || rest[0] == '\n'));
        if rest.len() > 1 {
            assert(s[e + 1] == rest[1]);
            assert(!(rest[0] == '\r' && rest[1] == '\n'));
        }
    }
    assert(ws_nl_end(s, e) == e);
    lemma_ws_nl_in_context(s, b, nl, 0);
    // The comment characters end at the first newline, or where the text ends.
    if nl.len() > 0 {
        assert(x[b] == nl[0]);
        lemma_stands(s, 0, x, b);
    } else if e < s.len() {
        assert(s[e] == rest[0]);
    }
    lemma_eol_in_context(s, a + 1, body, 0);
    // The whitespace before the comment stops at `#`.
    assert(ws_nl_end(s, a) == a);
    lemma_ws_nl_in_context(s, 0, pre, 0);
    assert(comment_at(s, a) == Some(b));
    assert(comment_nl_at(s, 0) == Some((a, b, e)));
    assert(s.subrange(e, s.len() as int) =~= rest);
    assert forall|c2: CommentNewLines| #[trigger] comment_nl_is(s, 0, (a, b, e), c2) implies c2.same(&c) by {}
}

} // verus!
