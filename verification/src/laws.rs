//! Properties that hold across the operations of the library.
use vstd::prelude::*;
use crate::ast::structs::{CommentOrNewLines, comment_nls_same, TableType, WSKeySep};
use crate::ast::values::{Value, Array, ArrayValue, InlineTable, TableKeyVal, KeyVal, values_same,
    keyvals_same};
use crate::ast::keys::{is_prefix, joined_keys};
use crate::types::{DateTime, Time, TimeOffset, key_names};
use crate::ast::structs::{Comment, CommentNewLines, subkeys_text};
use crate::ast::document::{Expression, NLExpression, Toml};
use crate::objects::value_array_type;
use crate::ast::document::EntryView;
use crate::objects::{insert_result, table_set_result, ImplicitState, implicit_run, implicit_step,
    implicit_next_key, empty_keys_entry};

verus! {

/// Every value equals itself, as `Eq` promises.
pub proof fn law_value_eq_reflexive(v: Value)
    ensures
        v.same(&v),
    decreases v,
{
    match v {
        Value::Array(a) => law_array_eq_reflexive(a),
        Value::InlineTable(t) => law_inline_table_eq_reflexive(t),
        Value::DateTime(d) => lemma_date_time_refl(d),
        _ => {},
    }
}

proof fn lemma_date_time_refl(d: DateTime)
    ensures
        d.same(&d),
{
    match d.time {
        Some(t) => match t.offset {
            Some(o) => match o {
                crate::types::TimeOffset::Time(a) => {},
                crate::types::TimeOffset::Zulu => {},
            },
            None => {},
        },
        None => {},
    }
}

proof fn lemma_comment_nls_refl(s: Seq<CommentOrNewLines>)
    ensures
        comment_nls_same(s, s),
{
    assert forall|i: int| 0 <= i < s.len() implies #[trigger] s[i].same(&s[i]) by {
        match s[i] {
            CommentOrNewLines::Comment(c) => {},
            CommentOrNewLines::NewLines(n) => {},
        }
    }
}

/// Every array equals itself.
pub proof fn law_array_eq_reflexive(a: Array)
    ensures
        a.same(&a),
    decreases a,
{
    lemma_values_refl(a.values@);
    lemma_comment_nls_refl(a.comment_nls1@);
    lemma_comment_nls_refl(a.comment_nls2@);
}

proof fn lemma_values_refl(s: Seq<ArrayValue>)
    ensures
        values_same(s, s),
    decreases s,
{
    if s.len() > 0 {
        lemma_values_refl(s.subrange(0, s.len() - 1));
        lemma_array_value_refl(s[s.len() - 1]);
    }
}

proof fn lemma_array_value_refl(v: ArrayValue)
    ensures
        v.same(&v),
    decreases v,
{
    law_value_eq_reflexive(v.val);
    lemma_comment_nls_refl(v.comment_nls@);
}

/// Every inline table equals itself.
pub proof fn law_inline_table_eq_reflexive(t: InlineTable)
    ensures
        t.same(&t),
    decreases t,
{
    lemma_keyvals_refl(t.keyvals@);
}

proof fn lemma_keyvals_refl(s: Seq<TableKeyVal>)
    ensures
        keyvals_same(s, s),
    decreases s,
{
    if s.len() > 0 {
        lemma_keyvals_refl(s.subrange(0, s.len() - 1));
        lemma_table_keyval_refl(s[s.len() - 1]);
    }
}

proof fn lemma_table_keyval_refl(t: TableKeyVal)
    ensures
        t.same(&t),
    decreases t,
{
    lemma_keyval_refl(t.keyval);
}

proof fn lemma_keyval_refl(k: KeyVal)
    ensures
        k.same(&k),
    decreases k,
{
    law_value_eq_reflexive(k.val);
}

/// Value equality is symmetric.
pub proof fn law_value_eq_symmetric(a: Value, b: Value)
    ensures
        a.same(&b) == b.same(&a),
    decreases a,
{
    match (a, b) {
        (Value::Array(x), Value::Array(y)) => law_array_eq_symmetric(x, y),
        (Value::InlineTable(x), Value::InlineTable(y)) => lemma_inline_table_sym(x, y),
        (Value::DateTime(x), Value::DateTime(y)) => lemma_date_time_sym(x, y),
        _ => {},
    }
}

proof fn lemma_date_time_sym(a: DateTime, b: DateTime)
    ensures
        a.same(&b) == b.same(&a),
{
    match (a.time, b.time) {
        (Some(x), Some(y)) => match (x.offset, y.offset) {
            (Some(p), Some(q)) => match (p, q) {
                (crate::types::TimeOffset::Time(u), crate::types::TimeOffset::Time(w)) => {},
                _ => {},
            },
            _ => {},
        },
        _ => {},
    }
}

proof fn lemma_comment_nls_sym(a: Seq<CommentOrNewLines>, b: Seq<CommentOrNewLines>)
    ensures
        comment_nls_same(a, b) == comment_nls_same(b, a),
{
    assert forall|i: int| 0 <= i < a.len() && a.len() == b.len() implies #[trigger] a[i].same(&b[i])
        == b[i].same(&a[i]) by {
        match (a[i], b[i]) {
            (CommentOrNewLines::Comment(x), CommentOrNewLines::Comment(y)) => {},
            _ => {},
        }
    }
    if comment_nls_same(a, b) {
        assert forall|i: int| 0 <= i < b.len() implies #[trigger] b[i].same(&a[i]) by {
            assert(a[i].same(&b[i]));
        }
    }
    if comment_nls_same(b, a) {
        assert forall|i: int| 0 <= i < a.len() implies #[trigger] a[i].same(&b[i]) by {
            assert(b[i].same(&a[i]));
        }
    }
}

/// Array equality is symmetric.
pub proof fn law_array_eq_symmetric(a: Array, b: Array)
    ensures
        a.same(&b) == b.same(&a),
    decreases a,
{
    lemma_values_sym(a.values@, b.values@);
    lemma_comment_nls_sym(a.comment_nls1@, b.comment_nls1@);
    lemma_comment_nls_sym(a.comment_nls2@, b.comment_nls2@);
}

proof fn lemma_values_sym(a: Seq<ArrayValue>, b: Seq<ArrayValue>)
    ensures
        values_same(a, b) == values_same(b, a),
    decreases a,
{
    if a.len() > 0 && a.len() == b.len() {
        lemma_values_sym(a.subrange(0, a.len() - 1), b.subrange(0, b.len() - 1));
        lemma_array_value_sym(a[a.len() - 1], b[b.len() - 1]);
    }
}

proof fn lemma_array_value_sym(a: ArrayValue, b: ArrayValue)
    ensures
        a.same(&b) == b.same(&a),
    decreases a,
{
    law_value_eq_symmetric(a.val, b.val);
    lemma_comment_nls_sym(a.comment_nls@, b.comment_nls@);
}

proof fn lemma_inline_table_sym(a: InlineTable, b: InlineTable)
    ensures
        a.same(&b) == b.same(&a),
    decreases a,
{
    lemma_keyvals_sym(a.keyvals@, b.keyvals@);
}

proof fn lemma_keyvals_sym(a: Seq<TableKeyVal>, b: Seq<TableKeyVal>)
    ensures
        keyvals_same(a, b) == keyvals_same(b, a),
    decreases a,
{
    if a.len() > 0 && a.len() == b.len() {
        lemma_keyvals_sym(a.subrange(0, a.len() - 1), b.subrange(0, b.len() - 1));
        lemma_table_keyval_sym(a[a.len() - 1], b[b.len() - 1]);
    }
}

proof fn lemma_table_keyval_sym(a: TableKeyVal, b: TableKeyVal)
    ensures
        a.same(&b) == b.same(&a),
    decreases a,
{
    law_value_eq_symmetric(a.keyval.val, b.keyval.val);
}

/// Every header is a subtable of itself.
pub proof fn law_subtable_reflexive(t: TableType)
    ensures
        is_prefix(joined_keys(t.table().keys@), joined_keys(t.table().keys@)),
{
    let k = joined_keys(t.table().keys@);
    assert(k.subrange(0, k.len() as int) =~= k);
}

/// A subtable of a subtable of a header is a subtable of that header.
pub proof fn law_subtable_transitive(a: TableType, b: TableType, c: TableType)
    requires
        is_prefix(joined_keys(b.table().keys@), joined_keys(a.table().keys@)),
        is_prefix(joined_keys(c.table().keys@), joined_keys(b.table().keys@)),
    ensures
        is_prefix(joined_keys(c.table().keys@), joined_keys(a.table().keys@)),
{
    let (ka, kb, kc) = (joined_keys(a.table().keys@), joined_keys(b.table().keys@), joined_keys(
        c.table().keys@,
    ));
    assert(ka.subrange(0, kc.len() as int) =~= kb.subrange(0, kc.len() as int));
}

/// Value equality is transitive: with reflexivity and symmetry, it is the
/// equivalence that `Eq` promises.
pub proof fn law_value_eq_transitive(a: Value, b: Value, c: Value)
    requires
        a.same(&b),
        b.same(&c),
    ensures
        a.same(&c),
    decreases a,
{
    match (a, b, c) {
        (Value::Array(x), Value::Array(y), Value::Array(z)) => lemma_array_trans(x, y, z),
        (Value::InlineTable(x), Value::InlineTable(y), Value::InlineTable(z)) => lemma_inline_table_trans(x, y, z),
        (Value::DateTime(x), Value::DateTime(y), Value::DateTime(z)) => lemma_date_time_trans(x, y, z),
        _ => {},
    }
}

proof fn lemma_date_time_trans(a: DateTime, b: DateTime, c: DateTime)
    requires
        a.same(&b),
        b.same(&c),
    ensures
        a.same(&c),
{
    match (a.time, b.time, c.time) {
        (Some(x), Some(y), Some(z)) => match (x.offset, y.offset, z.offset) {
            (Some(p), Some(q), Some(r)) => match (p, q, r) {
                (crate::types::TimeOffset::Time(u), crate::types::TimeOffset::Time(v), crate::types::TimeOffset::Time(w)) => {},
                _ => {},
            },
            _ => {},
        },
        _ => {},
    }
}

proof fn lemma_comment_nls_trans(a: Seq<CommentOrNewLines>, b: Seq<CommentOrNewLines>, c: Seq<CommentOrNewLines>)
    requires
        comment_nls_same(a, b),
        comment_nls_same(b, c),
    ensures
        comment_nls_same(a, c),
{
    assert forall|i: int| 0 <= i < a.len() implies #[trigger] a[i].same(&c[i]) by {
        assert(a[i].same(&b[i]));
        assert(b[i].same(&c[i]));
        match (a[i], b[i], c[i]) {
            (CommentOrNewLines::Comment(x), CommentOrNewLines::Comment(y), CommentOrNewLines::Comment(z)) => {},
            _ => {},
        }
    }
}

proof fn lemma_array_trans(a: Array, b: Array, c: Array)
    requires
        a.same(&b),
        b.same(&c),
    ensures
        a.same(&c),
    decreases a,
{
    lemma_values_trans(a.values@, b.values@, c.values@);
    lemma_comment_nls_trans(a.comment_nls1@, b.comment_nls1@, c.comment_nls1@);
    lemma_comment_nls_trans(a.comment_nls2@, b.comment_nls2@, c.comment_nls2@);
}

proof fn lemma_values_trans(a: Seq<ArrayValue>, b: Seq<ArrayValue>, c: Seq<ArrayValue>)
    requires
        values_same(a, b),
        values_same(b, c),
    ensures
        values_same(a, c),
    decreases a,
{
    if a.len() > 0 {
        lemma_values_trans(a.subrange(0, a.len() - 1), b.subrange(0, b.len() - 1), c.subrange(0, c.len() - 1));
        lemma_array_value_trans(a[a.len() - 1], b[b.len() - 1], c[c.len() - 1]);
    }
}

proof fn lemma_array_value_trans(a: ArrayValue, b: ArrayValue, c: ArrayValue)
    requires
        a.same(&b),
        b.same(&c),
    ensures
        a.same(&c),
    decreases a,
{
    law_value_eq_transitive(a.val, b.val, c.val);
    lemma_comment_nls_trans(a.comment_nls@, b.comment_nls@, c.comment_nls@);
}

proof fn lemma_inline_table_trans(a: InlineTable, b: InlineTable, c: InlineTable)
    requires
        a.same(&b),
        b.same(&c),
    ensures
        a.same(&c),
    decreases a,
{
    lemma_keyvals_trans(a.keyvals@, b.keyvals@, c.keyvals@);
}

proof fn lemma_keyvals_trans(a: Seq<TableKeyVal>, b: Seq<TableKeyVal>, c: Seq<TableKeyVal>)
    requires
        keyvals_same(a, b),
        keyvals_same(b, c),
    ensures
        keyvals_same(a, c),
    decreases a,
{
    if a.len() > 0 {
        lemma_keyvals_trans(a.subrange(0, a.len() - 1), b.subrange(0, b.len() - 1), c.subrange(0, c.len() - 1));
        let (x, y, z) = (a[a.len() - 1], b[b.len() - 1], c[c.len() - 1]);
        assert(x.same(&y) && y.same(&z));
        assert(x.keyval.same(&y.keyval) && y.keyval.same(&z.keyval));
        law_value_eq_transitive(x.keyval.val, y.keyval.val, z.keyval.val);
        assert(x.keyval.same(&z.keyval));
        assert(x.same(&z));
    }
}

/// After a string is inserted, the vector holds its text.
pub proof fn law_insert_then_contains(v: Seq<String>, x: String)
    ensures
        key_names(insert_result(v, x).1).contains(x@),
{
    if !key_names(v).contains(x@) {
        let w = v.push(x);
        assert(key_names(w)[v.len() as int] == x@);
    }
}

/// Inserting the same text again is refused and changes nothing.
pub proof fn law_insert_twice(v: Seq<String>, x: String)
    ensures
        insert_result(insert_result(v, x).1, x) == (false, insert_result(v, x).1),
{
    law_insert_then_contains(v, x);
}

/// Inserting keeps the texts of a vector distinct.
pub proof fn law_insert_keeps_distinct(v: Seq<String>, x: String)
    requires
        key_names(v).no_duplicates(),
    ensures
        key_names(insert_result(v, x).1).no_duplicates(),
{
    if !key_names(v).contains(x@) {
        let w = key_names(v.push(x));
        assert(w =~= key_names(v).push(x@));
        assert forall|i: int, j: int| 0 <= i < w.len() && 0 <= j < w.len() && i != j implies w[i] != w[j] by {
            if i < v.len() && j < v.len() {
                assert(w[i] == key_names(v)[i] && w[j] == key_names(v)[j]);
            } else if i == v.len() {
                assert(w[j] == key_names(v)[j]);
            } else {
                assert(w[i] == key_names(v)[i]);
            }
        }
    }
}

/// A table cannot be added twice to the set of its parent: once a key is
/// accepted there, the same key is refused and nothing changes.
pub proof fn law_table_defined_twice(m: Map<Seq<char>, EntryView>, key: Seq<char>, parent: Seq<char>)
    requires
        m.contains_key(parent),
        m[parent].subkeys is Keys,
    ensures
        ({
            let m1 = table_set_result(m, key, parent).1;
            table_set_result(m1, key, parent) == (false, m1)
        }),
{
    let ks = m[parent].subkeys->Keys_0;
    if !ks.contains(key) {
        assert(ks.push(key)[ks.len() as int] == key);
    }
}

/// A key map read gives back what was last written at the key, and writing
/// at one key leaves every other key as it was.
pub proof fn law_key_map_read_after_write(
    m: Map<Seq<char>, EntryView>,
    k: Seq<char>,
    v: EntryView,
    other: Seq<char>,
)
    requires
        other != k,
    ensures
        m.insert(k, v).contains_key(k),
        m.insert(k, v)[k] == v,
        m.insert(k, v).contains_key(other) == m.contains_key(other),
        m.contains_key(other) ==> m.insert(k, v)[other] == m[other],
{
}

/// The dotted name depends only on the texts of the keys.
proof fn lemma_joined_keys_texts(a: Seq<WSKeySep>, b: Seq<WSKeySep>)
    requires
        a.len() == b.len(),
        forall|j: int| 0 <= j < a.len() ==> #[trigger] a[j].key@ == b[j].key@,
    ensures
        joined_keys(a) == joined_keys(b),
    decreases a.len(),
{
    if a.len() > 1 {
        lemma_joined_keys_texts(a.drop_last(), b.drop_last());
    }
}

/// The dotted name of the first keys begins the dotted name of all of them.
proof fn lemma_joined_keys_prefix(a: Seq<WSKeySep>, n: int)
    requires
        1 <= n <= a.len(),
    ensures
        is_prefix(joined_keys(a.subrange(0, n)), joined_keys(a)),
    decreases a.len(),
{
    if n == a.len() {
        assert(a.subrange(0, n) == a);
        let k = joined_keys(a);
        assert(k.subrange(0, k.len() as int) =~= k);
    } else {
        let p = a.drop_last();
        assert(p.subrange(0, n) == a.subrange(0, n));
        lemma_joined_keys_prefix(p, n);
        let (kp, k) = (joined_keys(a.subrange(0, n)), joined_keys(p));
        assert(joined_keys(a) == k + seq!['.'] + a.last().key@);
        assert((k + seq!['.'] + a.last().key@).subrange(0, kp.len() as int) =~= k.subrange(0, kp.len() as int));
    }
}

/// A header whose keys begin with the keys of another, by text, is a
/// subtable of it.
pub proof fn law_more_keys_is_subtable(a: TableType, b: TableType)
    requires
        1 <= b.table().keys@.len() <= a.table().keys@.len(),
        forall|j: int| 0 <= j < b.table().keys@.len() ==> #[trigger] b.table().keys@[j].key@
            == a.table().keys@[j].key@,
    ensures
        is_prefix(joined_keys(b.table().keys@), joined_keys(a.table().keys@)),
{
    let (ka, kb) = (a.table().keys@, b.table().keys@);
    let n = kb.len() as int;
    lemma_joined_keys_texts(kb, ka.subrange(0, n));
    lemma_joined_keys_prefix(ka, n);
}

/// The dotted key reached from `last_key` by going down through the keys
/// from position `i` up to position `j`.
pub open spec fn dotted_below(last_key: Seq<char>, keys: Seq<Seq<char>>, i: int, j: int) -> Seq<char>
    decreases j - i,
{
    if j <= i {
        last_key
    } else {
        implicit_next_key(dotted_below(last_key, keys, i, j - 1), keys[j - 1])
    }
}

/// An entry made for an implicit table: no value, and a set of subkeys.
pub open spec fn implicit_entry(e: EntryView) -> bool {
    e.value is None && e.subkeys is Keys
}

proof fn lemma_step_walk(st: ImplicitState, key: Seq<char>, more: bool)
    ensures
        ({
            let st2 = implicit_step(st, key, more);
            &&& forall|k: Seq<char>| #[trigger] st.map.contains_key(k) ==> st2.map.contains_key(k) && (
                st2.map[k] == empty_keys_entry() || (st2.map[k].value == st.map[k].value && (
                st.map[k].subkeys is Keys ==> st2.map[k].subkeys is Keys)))
            &&& forall|k: Seq<char>| #[trigger] st2.map.contains_key(k) && !st.map.contains_key(k) ==> {
                &&& st2.map[k] == empty_keys_entry()
                &&& k == implicit_next_key(st.last_key, key)
                &&& st.ok && more
            }
            &&& st2.ok ==> st.ok
            &&& st2.ok && more ==> st2.last_key == implicit_next_key(st.last_key, key)
            &&& st2.ok && !more ==> st2.last_key == st.last_key
        }),
{
}

proof fn lemma_run_walk(st0: ImplicitState, st: ImplicitState, keys: Seq<Seq<char>>, i0: int, i: int)
    requires
        0 <= i0 <= i,
        forall|k: Seq<char>| #[trigger] st0.map.contains_key(k) ==> st.map.contains_key(k),
        forall|k: Seq<char>| #[trigger] st.map.contains_key(k) && !st0.map.contains_key(k) ==> {
            &&& implicit_entry(st.map[k])
            &&& exists|j: int| i0 < j < keys.len() && k == #[trigger] dotted_below(st0.last_key, keys, i0, j)
        },
        st.ok && i < keys.len() ==> st.last_key == dotted_below(st0.last_key, keys, i0, i),
    ensures
        ({
            let r = implicit_run(st, keys, i);
            &&& forall|k: Seq<char>| #[trigger] st0.map.contains_key(k) ==> r.map.contains_key(k)
            &&& forall|k: Seq<char>| #[trigger] r.map.contains_key(k) && !st0.map.contains_key(k) ==> {
                &&& implicit_entry(r.map[k])
                &&& exists|j: int| i0 < j < keys.len() && k == #[trigger] dotted_below(st0.last_key, keys, i0, j)
            }
        }),
    decreases keys.len() - i,
{
    if 0 <= i < keys.len() {
        let more = i < keys.len() - 1;
        let st2 = implicit_step(st, keys[i], more);
        lemma_step_walk(st, keys[i], more);
        assert forall|k: Seq<char>| #[trigger] st2.map.contains_key(k) && !st0.map.contains_key(k) implies {
            &&& implicit_entry(st2.map[k])
            &&& exists|j: int| i0 < j < keys.len() && k == #[trigger] dotted_below(st0.last_key, keys, i0, j)
        } by {
            if !st.map.contains_key(k) {
                assert(k == dotted_below(st0.last_key, keys, i0, i + 1));
            } else {
                assert(implicit_entry(st.map[k]));
            }
        }
        if st2.ok && i + 1 < keys.len() {
            assert(dotted_below(st0.last_key, keys, i0, i + 1) == implicit_next_key(
                dotted_below(st0.last_key, keys, i0, i), keys[i]));
        }
        lemma_run_walk(st0, st2, keys, i0, i + 1);
        assert(implicit_run(st, keys, i) == implicit_run(st2, keys, i + 1));
    }
}

/// The walk that registers the tables a header implies removes no key; each
/// key it adds is the dotted key of a table the header passes through below
/// the table where the walk starts, and holds no value and a set of subkeys.
pub proof fn law_implicit_walk(st: ImplicitState, keys: Seq<Seq<char>>, i: int)
    requires
        0 <= i,
    ensures
        ({
            let r = implicit_run(st, keys, i);
            &&& forall|k: Seq<char>| #[trigger] st.map.contains_key(k) ==> r.map.contains_key(k)
            &&& forall|k: Seq<char>| #[trigger] r.map.contains_key(k) && !st.map.contains_key(k) ==> {
                &&& implicit_entry(r.map[k])
                &&& exists|j: int| i < j < keys.len() && k == #[trigger] dotted_below(st.last_key, keys, i, j)
            }
        }),
{
    lemma_run_walk(st, st, keys, i, i);
}

proof fn lemma_time_same_text(a: Time, b: Time)
    requires
        a.same(&b),
    ensures
        a.text() == b.text(),
{
    match (a.fraction, b.fraction) {
        (Some(x), Some(y)) => assert(x@ == y@),
        _ => {},
    }
    match (a.offset, b.offset) {
        (Some(TimeOffset::Time(x)), Some(TimeOffset::Time(y))) => {
            assert(x.text() == y.text());
        },
        _ => {},
    }
}

proof fn lemma_date_time_same_text(a: DateTime, b: DateTime)
    requires
        a.same(&b),
    ensures
        a.text() == b.text(),
{
    assert(a.date.text() == b.date.text());
    match (a.time, b.time) {
        (Some(x), Some(y)) => lemma_time_same_text(x, y),
        _ => {},
    }
}

/// Value equality tells different contents apart: equal values are of the
/// same kind; two numbers or two booleans of one kind are equal exactly when
/// they are written the same; two strings are equal exactly when their texts
/// between the quotes are; equal dates and times are written the same; and
/// the mark of a defined table equals only itself.
pub proof fn law_value_eq_separates(a: Value, b: Value)
    ensures
        a.same(&b) ==> value_array_type(a) == value_array_type(b),
        a.same(&b) ==> ((a is Table) <==> (b is Table)),
        (a is Integer || a is Float || a is Boolean) && value_array_type(a) == value_array_type(b)
            ==> (a.same(&b) <==> a.text() == b.text()),
        match (a, b) {
            (Value::String(x, _), Value::String(y, _)) => (a.same(&b) <==> x@ == y@),
            _ => true,
        },
        a is DateTime && b is DateTime && a.same(&b) ==> a.text() == b.text(),
{
    match (a, b) {
        (Value::Boolean(x), Value::Boolean(y)) => {
            if x != y {
                assert(a.text().len() != b.text().len());
            }
        },
        (Value::DateTime(x), Value::DateTime(y)) => {
            if a.same(&b) {
                lemma_date_time_same_text(x, y);
            }
        },
        (Value::String(x, tx), Value::String(y, ty)) => {
            assert(a.same(&b) == (x@ == y@)) by {
                reveal_with_fuel(Value::same, 1);
            }
        },
        _ => {},
    }
}

/// Rendering an expression keeps its comment: where it has one, its text
/// ends with the comment's text, whatever else it holds, and begins with its
/// leading whitespace.
pub proof fn law_expression_comment_last(e: Expression, c: Comment)
    requires
        e.comment == Some(c),
    ensures
        e.text().len() >= c.text().len(),
        e.text().subrange(e.text().len() - c.text().len(), e.text().len() as int) == c.text(),
        e.text().subrange(0, e.ws.ws1@.len() as int) == e.ws.ws1@,
{
    let t = e.text();
    let n = c.text().len();
    match (e.keyval, e.table) {
        (Some(k), _) => {
            assert(t == (e.ws.ws1@ + k.text() + e.ws.ws2@) + c.text());
        },
        (None, Some(h)) => {
            assert(t == (e.ws.ws1@ + h.text() + e.ws.ws2@) + c.text());
        },
        (None, None) => {
            assert(t == e.ws.ws1@ + c.text());
        },
    }
    assert(t.subrange(t.len() - n, t.len() as int) =~= c.text());
    assert(t.subrange(0, e.ws.ws1@.len() as int) =~= e.ws.ws1@);
}

/// The walk that registers implied tables keeps every key, and an entry that
/// keeps a set of subkeys still keeps one.
pub proof fn lemma_walk_keeps_sets(st: ImplicitState, keys: Seq<Seq<char>>, i: int, k: Seq<char>)
    requires
        st.map.contains_key(k),
    ensures
        implicit_run(st, keys, i).map.contains_key(k),
        st.map[k].subkeys is Keys ==> implicit_run(st, keys, i).map[k].subkeys is Keys,
    decreases keys.len() - i,
{
    if 0 <= i < keys.len() {
        let more = i < keys.len() - 1;
        lemma_step_walk(st, keys[i], more);
        let st2 = implicit_step(st, keys[i], more);
        assert(st.map.contains_key(k));
        lemma_walk_keeps_sets(st2, keys, i + 1, k);
    }
}

/// Rendering a document with one more expression gives the rendering of the
/// document before, then the newlines before that expression, then the
/// expression's rendering; a document with no expression renders as nothing.
pub proof fn law_document_appends(a: Toml, b: Toml, e: NLExpression)
    requires
        b.exprs@ == a.exprs@.push(e),
    ensures
        b.text() == a.text() + e.nl@ + e.expr.text(),
        a.exprs@.len() == 0 ==> a.text().len() == 0,
{
    assert(b.exprs@.drop_last() =~= a.exprs@);
    assert(b.text() =~= a.text() + e.nl@ + e.expr.text());
}

proof fn lemma_subkeys_same_text(a: Seq<WSKeySep>, b: Seq<WSKeySep>)
    requires
        a.len() == b.len(),
        forall|i: int| 0 <= i < a.len() ==> #[trigger] a[i].same(&b[i]),
    ensures
        subkeys_text(a) == subkeys_text(b),
    decreases a.len(),
{
    if a.len() > 0 {
        assert forall|i: int| 0 <= i < a.drop_last().len() implies #[trigger] a.drop_last()[i].same(
            &b.drop_last()[i],
        ) by {
            assert(a.drop_last()[i] == a[i] && b.drop_last()[i] == b[i]);
        }
        lemma_subkeys_same_text(a.drop_last(), b.drop_last());
        assert(a.last().same(&b.last()));
    }
}

/// Equal headers, comments and comment runs render the same: equality never
/// identifies two of them that are written differently.
pub proof fn law_syntax_eq_same_text(
    t1: TableType,
    t2: TableType,
    c1: CommentNewLines,
    c2: CommentNewLines,
    o1: CommentOrNewLines,
    o2: CommentOrNewLines,
)
    ensures
        t1.same(&t2) ==> t1.text() == t2.text(),
        c1.same(&c2) ==> c1.text() == c2.text(),
        o1.same(&o2) ==> o1.text() == o2.text(),
{
    if t1.same(&t2) {
        let a = t1.table().keys@;
        let b = t2.table().keys@;
        if a.len() > 0 {
            assert forall|i: int| 0 <= i < a.drop_first().len() implies #[trigger] a.drop_first()[i].same(
                &b.drop_first()[i],
            ) by {
                assert(a.drop_first()[i] == a[i + 1] && b.drop_first()[i] == b[i + 1]);
            }
            lemma_subkeys_same_text(a.drop_first(), b.drop_first());
            assert(a[0].same(&b[0]));
        }
    }
    match (o1, o2) {
        (CommentOrNewLines::Comment(x), CommentOrNewLines::Comment(y)) => {
            if o1.same(&o2) {
                assert(x.text() == y.text());
            }
        },
        _ => {},
    }
}

} // verus!
