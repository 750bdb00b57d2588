use vstd::prelude::*;
use vstd::std_specs::cmp::PartialEqSpecImpl;
use crate::ast::structs::{WSSep, CommentOrNewLines, comment_nls_text, comment_nls_same,
    comment_nls_to_string, comment_nls_eq};
use crate::types::{DateTime, StrType};

verus! {

/// A value of the document, as written; `Table` marks the entry of a table
/// that a header has defined, and has no text of its own.
#[derive(Debug)]
pub enum Value {
    Integer(String),
    Float(String),
    Boolean(bool),
    DateTime(DateTime),
    Array(Array),
    String(String, StrType),
    InlineTable(InlineTable),
    Table,
}

/// The kind of the values held by an array.
#[derive(Debug, PartialEq, Eq, Structural, Clone, Copy)]
pub enum ArrayType {
    Integer,
    Float,
    Boolean,
    DateTime,
    Array,
    String,
    InlineTable,
    Unset,
}

/// The quotes around a string of the given kind.
pub open spec fn quote(t: StrType) -> Seq<char> {
    match t {
        StrType::Basic => seq!['"'],
        StrType::MLBasic => seq!['"', '"', '"'],
        StrType::Literal => seq!['\''],
        StrType::MLLiteral => seq!['\'', '\'', '\''],
    }
}

/// `<key><keyval_sep.ws1>=<keyval_sep.ws2><val>`
#[derive(Debug)]
pub struct KeyVal {
    pub key: String,
    pub keyval_sep: WSSep,
    pub val: Value,
}

/// `<val>`, then `<array_sep.ws1>,<array_sep.ws2>` where there is a
/// separator, then comments and newlines.
#[derive(Debug)]
pub struct ArrayValue {
    pub val: Value,
    pub array_sep: Option<WSSep>,
    pub comment_nls: Vec<CommentOrNewLines>,
}

/// `[<comment_nls1><values><comment_nls2>]`
#[derive(Debug)]
pub struct Array {
    pub values: Vec<ArrayValue>,
    pub comment_nls1: Vec<CommentOrNewLines>,
    pub comment_nls2: Vec<CommentOrNewLines>,
}

/// `<kv_sep.ws1><keyval><kv_sep.ws2>`: one entry of an inline table.
#[derive(Debug)]
pub struct TableKeyVal {
    pub keyval: KeyVal,
    pub kv_sep: WSSep,
}

/// `{<ws.ws1><keyvals separated by commas><ws.ws2>}`
#[derive(Debug)]
pub struct InlineTable {
    pub keyvals: Vec<TableKeyVal>,
    pub ws: WSSep,
}

impl Value {
    pub open spec fn text(&self) -> Seq<char>
        decreases self,
    {
        match self {
            Value::Integer(i) => i@,
            Value::Float(f) => f@,
            Value::Boolean(b) => if *b {
                seq!['t', 'r', 'u', 'e']
            } else {
                seq!['f', 'a', 'l', 's', 'e']
            },
            Value::DateTime(d) => d.text(),
            Value::Array(a) => a.text(),
            Value::String(s, t) => quote(*t) + s@ + quote(*t),
            Value::InlineTable(t) => t.text(),
            Value::Table => Seq::empty(),
        }
    }
}

impl Array {
    pub open spec fn text(&self) -> Seq<char>
        decreases self,
    {
        seq!['['] + comment_nls_text(self.comment_nls1@) + values_text(self.values@)
            + comment_nls_text(self.comment_nls2@) + seq![']']
    }
}

/// Concatenation of the texts of a run of array values.
pub open spec fn values_text(s: Seq<ArrayValue>) -> Seq<char>
    decreases s,
{
    if s.len() == 0 {
        Seq::empty()
    } else {
        values_text(s.subrange(0, s.len() - 1)) + s[s.len() - 1].text()
    }
}

impl ArrayValue {
    pub open spec fn text(&self) -> Seq<char>
        decreases self,
    {
        let sep = match self.array_sep {
            Some(s) => s.ws1@ + seq![','] + s.ws2@,
            None => Seq::empty(),
        };
        self.val.text() + sep + comment_nls_text(self.comment_nls@)
    }
}

impl InlineTable {
    pub open spec fn text(&self) -> Seq<char>
        decreases self,
    {
        seq!['{'] + self.ws.ws1@ + keyvals_text(self.keyvals@) + self.ws.ws2@ + seq!['}']
    }
}

/// The texts of a run of inline table entries, separated by commas.
pub open spec fn keyvals_text(s: Seq<TableKeyVal>) -> Seq<char>
    decreases s,
{
    if s.len() == 0 {
        Seq::empty()
    } else if s.len() == 1 {
        s[0].text()
    } else {
        keyvals_text(s.subrange(0, s.len() - 1)) + seq![','] + s[s.len() - 1].text()
    }
}

impl TableKeyVal {
    pub open spec fn text(&self) -> Seq<char>
        decreases self,
    {
        self.kv_sep.ws1@ + self.keyval.text() + self.kv_sep.ws2@
    }
}

impl KeyVal {
    pub open spec fn text(&self) -> Seq<char>
        decreases self,
    {
        self.key@ + self.keyval_sep.ws1@ + seq!['='] + self.keyval_sep.ws2@ + self.val.text()
    }
}


impl Value {

    /// Equality as the document sees it: a string equals a string with the same
    /// text whatever its quotes; any other value equals a value of the same kind
    /// with equal contents.
    pub open spec fn same(&self, other: &Value) -> bool
        decreases self,
    {
        match (self, other) {
            (Value::Integer(i), Value::Integer(j)) => i@ == j@,
            (Value::Float(i), Value::Float(j)) => i@ == j@,
            (Value::Boolean(i), Value::Boolean(j)) => *i == *j,
            (Value::DateTime(i), Value::DateTime(j)) => i.same(j),
            (Value::Array(i), Value::Array(j)) => i.same(j),
            (Value::String(i, _), Value::String(j, _)) => i@ == j@,
            (Value::InlineTable(i), Value::InlineTable(j)) => i.same(j),
            (Value::Table, Value::Table) => true,
            _ => false,
        }
    }
}

impl Array {

    pub open spec fn same(&self, other: &Array) -> bool
        decreases self,
    {
        &&& values_same(self.values@, other.values@)
        &&& comment_nls_same(self.comment_nls1@, other.comment_nls1@)
        &&& comment_nls_same(self.comment_nls2@, other.comment_nls2@)
    }
}

impl ArrayValue {

    pub open spec fn same(&self, other: &ArrayValue) -> bool
        decreases self,
    {
        &&& self.val.same(&other.val)
        &&& match (self.array_sep, other.array_sep) {
            (Some(a), Some(b)) => a.same(&b),
            (None, None) => true,
            _ => false,
        }
        &&& comment_nls_same(self.comment_nls@, other.comment_nls@)
    }
}

impl InlineTable {

    pub open spec fn same(&self, other: &InlineTable) -> bool
        decreases self,
    {
        &&& keyvals_same(self.keyvals@, other.keyvals@)
        &&& self.ws.same(&other.ws)
    }
}

impl TableKeyVal {

    pub open spec fn same(&self, other: &TableKeyVal) -> bool
        decreases self,
    {
        self.keyval.same(&other.keyval) && self.kv_sep.same(&other.kv_sep)
    }
}

impl KeyVal {

    pub open spec fn same(&self, other: &KeyVal) -> bool
        decreases self,
    {
        &&& self.key@ == other.key@
        &&& self.keyval_sep.same(&other.keyval_sep)
        &&& self.val.same(&other.val)
    }
}



/// The two runs have the same length and equal values at each position.
pub open spec fn values_same(a: Seq<ArrayValue>, b: Seq<ArrayValue>) -> bool
    decreases a,
{
    &&& a.len() == b.len()
    &&& (a.len() == 0 || (values_same(a.subrange(0, a.len() - 1), b.subrange(0, b.len() - 1))
        && a[a.len() - 1].same(&b[b.len() - 1])))
}


/// The two runs have the same length and equal entries at each position.
pub open spec fn keyvals_same(a: Seq<TableKeyVal>, b: Seq<TableKeyVal>) -> bool
    decreases a,
{
    &&& a.len() == b.len()
    &&& (a.len() == 0 || (keyvals_same(a.subrange(0, a.len() - 1), b.subrange(0, b.len() - 1))
        && a[a.len() - 1].same(&b[b.len() - 1])))
}



/// Equal runs are equal at each position; runs of one length that are equal at
/// each position are equal.
pub proof fn lemma_values_same(a: Seq<ArrayValue>, b: Seq<ArrayValue>)
    requires
        a.len() == b.len(),
    ensures
        values_same(a, b) <==> forall|i: int| 0 <= i < a.len() ==> #[trigger] a[i].same(&b[i]),
    decreases a.len(),
{
    if a.len() > 0 {
        let (pa, pb) = (a.subrange(0, a.len() - 1), b.subrange(0, b.len() - 1));
        lemma_values_same(pa, pb);
        if values_same(a, b) {
            assert forall|i: int| 0 <= i < a.len() implies #[trigger] a[i].same(&b[i]) by {
                if i < a.len() - 1 {
                    assert(pa[i] == a[i] && pb[i] == b[i]);
                }
            }
        }
        if forall|i: int| 0 <= i < a.len() ==> #[trigger] a[i].same(&b[i]) {
            assert forall|i: int| 0 <= i < pa.len() implies #[trigger] pa[i].same(&pb[i]) by {
                assert(pa[i] == a[i] && pb[i] == b[i]);
                assert(a[i].same(&b[i]));
            }
            assert(a[a.len() - 1].same(&b[b.len() - 1]));
        }
    }
}

/// Equal runs are equal at each position; runs of one length that are equal at
/// each position are equal.
pub proof fn lemma_keyvals_same(a: Seq<TableKeyVal>, b: Seq<TableKeyVal>)
    requires
        a.len() == b.len(),
    ensures
        keyvals_same(a, b) <==> forall|i: int| 0 <= i < a.len() ==> #[trigger] a[i].same(&b[i]),
    decreases a.len(),
{
    if a.len() > 0 {
        let (pa, pb) = (a.subrange(0, a.len() - 1), b.subrange(0, b.len() - 1));
        lemma_keyvals_same(pa, pb);
        if keyvals_same(a, b) {
            assert forall|i: int| 0 <= i < a.len() implies #[trigger] a[i].same(&b[i]) by {
                if i < a.len() - 1 {
                    assert(pa[i] == a[i] && pb[i] == b[i]);
                }
            }
        }
        if forall|i: int| 0 <= i < a.len() ==> #[trigger] a[i].same(&b[i]) {
            assert forall|i: int| 0 <= i < pa.len() implies #[trigger] pa[i].same(&pb[i]) by {
                assert(pa[i] == a[i] && pb[i] == b[i]);
                assert(a[i].same(&b[i]));
            }
            assert(a[a.len() - 1].same(&b[b.len() - 1]));
        }
    }
}

/// Renders the quotes of a string kind.
fn quote_string(t: StrType) -> (s: String)
    ensures
        s@ == quote(t),
{
    proof {
        reveal_strlit("\"");
        reveal_strlit("\"\"\"");
        reveal_strlit("'");
        reveal_strlit("'''");
    }
    match t {
        StrType::Basic => String::from_str("\""),
        StrType::MLBasic => String::from_str("\"\"\""),
        StrType::Literal => String::from_str("'"),
        StrType::MLLiteral => String::from_str("'''"),
    }
}

impl Value {
    pub fn to_string(&self) -> (s: String)
        ensures
            s@ == self.text(),
        decreases self,
    {
        match self {
            Value::Integer(i) => i.clone(),
            Value::Float(f) => f.clone(),
            Value::Boolean(b) => {
                proof {
                    reveal_strlit("true");
                    reveal_strlit("false");
                }
                if *b {
                    String::from_str("true")
                } else {
                    String::from_str("false")
                }
            },
            Value::DateTime(d) => d.to_string(),
            Value::Array(a) => a.to_string(),
            Value::String(st, t) => {
                let mut s = quote_string(*t);
                s.append(st.as_str());
                let q = quote_string(*t);
                s.append(q.as_str());
                s
            },
            Value::InlineTable(t) => t.to_string(),
            Value::Table => String::new(),
        }
    }

    pub fn equals(&self, other: &Value) -> (r: bool)
        ensures
            r == self.same(other),
        decreases self,
    {
        match (self, other) {
            (Value::Integer(i), Value::Integer(j)) => *i == *j,
            (Value::Float(i), Value::Float(j)) => *i == *j,
            (Value::Boolean(i), Value::Boolean(j)) => *i == *j,
            (Value::DateTime(i), Value::DateTime(j)) => *i == *j,
            (Value::Array(i), Value::Array(j)) => i.equals(j),
            (Value::String(i, _), Value::String(j, _)) => *i == *j,
            (Value::InlineTable(i), Value::InlineTable(j)) => i.equals(j),
            (Value::Table, Value::Table) => true,
            _ => false,
        }
    }
}

impl Array {
    pub fn new(
        values: Vec<ArrayValue>,
        comment_nls1: Vec<CommentOrNewLines>,
        comment_nls2: Vec<CommentOrNewLines>,
    ) -> (r: Array)
        ensures
            r.values == values,
            r.comment_nls1 == comment_nls1,
            r.comment_nls2 == comment_nls2,
    {
        Array { values, comment_nls1, comment_nls2 }
    }

    pub fn to_string(&self) -> (s: String)
        ensures
            s@ == self.text(),
        decreases self,
    {
        proof {
            reveal_strlit("[");
            reveal_strlit("]");
        }
        let mut s = String::from_str("[");
        let c1 = comment_nls_to_string(&self.comment_nls1);
        s.append(c1.as_str());
        let ghost head = s@;
        let mut i: usize = 0;
        while i < self.values.len()
            invariant
                i <= self.values.len(),
                s@ == head + values_text(self.values@.subrange(0, i as int)),
            decreases self.values.len() - i,
        {
            let t = self.values[i].to_string();
            s.append(t.as_str());
            proof {
                let sub = self.values@.subrange(0, i + 1);
                assert(sub.subrange(0, sub.len() - 1) == self.values@.subrange(0, i as int));
                assert(sub[sub.len() - 1] == self.values@[i as int]);
            }
            i = i + 1;
        }
        proof {
            assert(self.values@.subrange(0, self.values.len() as int) == self.values@);
        }
        let c2 = comment_nls_to_string(&self.comment_nls2);
        s.append(c2.as_str());
        s.append("]");
        s
    }

    pub fn equals(&self, other: &Array) -> (r: bool)
        ensures
            r == self.same(other),
        decreases self,
    {
        if self.values.len() != other.values.len() {
            return false;
        }
        proof {
            lemma_values_same(self.values@, other.values@);
        }
        let mut i: usize = 0;
        while i < self.values.len()
            invariant
                i <= self.values.len(),
                self.values.len() == other.values.len(),
                forall|j: int| 0 <= j < i ==> #[trigger] self.values@[j].same(&other.values@[j]),
                values_same(self.values@, other.values@) <==> forall|j: int|
                    0 <= j < self.values@.len() ==> #[trigger] self.values@[j].same(&other.values@[j]),
            decreases self.values.len() - i,
        {
            if !self.values[i].equals(&other.values[i]) {
                return false;
            }
            i = i + 1;
        }
        comment_nls_eq(&self.comment_nls1, &other.comment_nls1) && comment_nls_eq(
            &self.comment_nls2,
            &other.comment_nls2,
        )
    }
}

impl ArrayValue {
    pub fn new(val: Value, array_sep: Option<WSSep>, comment_nls: Vec<CommentOrNewLines>) -> (r:
        ArrayValue)
        ensures
            r.val == val,
            r.array_sep == array_sep,
            r.comment_nls == comment_nls,
    {
        ArrayValue { val, array_sep, comment_nls }
    }

    /// A value followed by `, `, as when a value is added before others.
    pub fn default(val: Value) -> (r: ArrayValue)
        ensures
            r.val == val,
            r.array_sep.is_some(),
            r.array_sep.unwrap().ws1@ == Seq::<char>::empty(),
            r.array_sep.unwrap().ws2@ == seq![' '],
            r.comment_nls@.len() == 0,
    {
        proof {
            reveal_strlit("");
            reveal_strlit(" ");
        }
        ArrayValue { val, array_sep: Some(WSSep::new_str("", " ")), comment_nls: Vec::new() }
    }

    /// A value with nothing after it, as the last of an array.
    pub fn last(val: Value) -> (r: ArrayValue)
        ensures
            r.val == val,
            r.array_sep.is_none(),
            r.comment_nls@.len() == 0,
    {
        ArrayValue { val, array_sep: None, comment_nls: Vec::new() }
    }

    pub fn to_string(&self) -> (s: String)
        ensures
            s@ == self.text(),
        decreases self,
    {
        let mut s = self.val.to_string();
        if let Some(sep) = &self.array_sep {
            proof {
                reveal_strlit(",");
            }
            s.append(sep.ws1.as_str());
            s.append(",");
            s.append(sep.ws2.as_str());
        }
        let c = comment_nls_to_string(&self.comment_nls);
        s.append(c.as_str());
        s
    }

    pub fn equals(&self, other: &ArrayValue) -> (r: bool)
        ensures
            r == self.same(other),
        decreases self,
    {
        let sep = match (&self.array_sep, &other.array_sep) {
            (Some(a), Some(b)) => a.equals(b),
            (None, None) => true,
            _ => false,
        };
        self.val.equals(&other.val) && sep && comment_nls_eq(&self.comment_nls, &other.comment_nls)
    }
}

impl InlineTable {
    pub fn new(keyvals: Vec<TableKeyVal>, ws: WSSep) -> (r: InlineTable)
        ensures
            r.keyvals == keyvals,
            r.ws == ws,
    {
        InlineTable { keyvals, ws }
    }

    pub fn to_string(&self) -> (s: String)
        ensures
            s@ == self.text(),
        decreases self,
    {
        proof {
            reveal_strlit("{");
            reveal_strlit("}");
            reveal_strlit(",");
        }
        let mut s = String::from_str("{");
        s.append(self.ws.ws1.as_str());
        let ghost head = s@;
        if self.keyvals.len() > 0 {
            let first = self.keyvals[0].to_string();
            s.append(first.as_str());
            proof {
                assert(self.keyvals@.subrange(0, 1).len() == 1);
                assert(self.keyvals@.subrange(0, 1)[0] == self.keyvals@[0]);
            }
        } else {
            proof {
                assert(self.keyvals@.subrange(0, 0).len() == 0);
                assert(s@ =~= head + keyvals_text(self.keyvals@.subrange(0, 0)));
            }
        }
        let mut i: usize = if self.keyvals.len() > 0 { 1 } else { 0 };
        while i < self.keyvals.len()
            invariant
                i <= self.keyvals.len(),
                self.keyvals.len() > 0 ==> 1 <= i,
                s@ == head + keyvals_text(self.keyvals@.subrange(0, i as int)),
            decreases self.keyvals.len() - i,
        {
            s.append(",");
            let t = self.keyvals[i].to_string();
            s.append(t.as_str());
            proof {
                reveal_strlit(",");
                let sub = self.keyvals@.subrange(0, i + 1);
                assert(sub.subrange(0, sub.len() - 1) == self.keyvals@.subrange(0, i as int));
                assert(sub[sub.len() - 1] == self.keyvals@[i as int]);
                assert(s@ =~= head + keyvals_text(sub));
            }
            i = i + 1;
        }
        proof {
            assert(self.keyvals@.subrange(0, self.keyvals.len() as int) == self.keyvals@);
        }
        s.append(self.ws.ws2.as_str());
        s.append("}");
        s
    }

    pub fn equals(&self, other: &InlineTable) -> (r: bool)
        ensures
            r == self.same(other),
        decreases self,
    {
        if self.keyvals.len() != other.keyvals.len() {
            return false;
        }
        proof {
            lemma_keyvals_same(self.keyvals@, other.keyvals@);
        }
        let mut i: usize = 0;
        while i < self.keyvals.len()
            invariant
                i <= self.keyvals.len(),
                self.keyvals.len() == other.keyvals.len(),
                forall|j: int|
                    0 <= j < i ==> #[trigger] self.keyvals@[j].same(&other.keyvals@[j]),
                keyvals_same(self.keyvals@, other.keyvals@) <==> forall|j: int|
                    0 <= j < self.keyvals@.len() ==> #[trigger] self.keyvals@[j].same(
                        &other.keyvals@[j],
                    ),
            decreases self.keyvals.len() - i,
        {
            if !self.keyvals[i].equals(&other.keyvals[i]) {
                return false;
            }
            i = i + 1;
        }
        self.ws.equals(&other.ws)
    }
}

impl TableKeyVal {
    pub fn new(keyval: KeyVal, kv_sep: WSSep) -> (r: TableKeyVal)
        ensures
            r.keyval == keyval,
            r.kv_sep == kv_sep,
    {
        TableKeyVal { keyval, kv_sep }
    }

    /// An entry to follow others in an inline table: ` <key> = <val>`.
    pub fn default(key: &str, val: Value) -> (r: TableKeyVal)
        ensures
            r.keyval.key@ == key@,
            r.keyval.keyval_sep.ws1@ == seq![' '],
            r.keyval.keyval_sep.ws2@ == seq![' '],
            r.keyval.val == val,
            r.kv_sep.ws1@ == seq![' '],
            r.kv_sep.ws2@ == Seq::<char>::empty(),
    {
        proof {
            reveal_strlit("");
            reveal_strlit(" ");
        }
        let keyval = KeyVal::new_str(key, WSSep::new_str(" ", " "), val);
        TableKeyVal { keyval, kv_sep: WSSep::new_str(" ", "") }
    }

    /// The first entry of an inline table: `<key> = <val>`.
    pub fn first(key: &str, val: Value) -> (r: TableKeyVal)
        ensures
            r.keyval.key@ == key@,
            r.keyval.keyval_sep.ws1@ == seq![' '],
            r.keyval.keyval_sep.ws2@ == seq![' '],
            r.keyval.val == val,
            r.kv_sep.ws1@ == Seq::<char>::empty(),
            r.kv_sep.ws2@ == Seq::<char>::empty(),
    {
        proof {
            reveal_strlit("");
            reveal_strlit(" ");
        }
        let keyval = KeyVal::new_str(key, WSSep::new_str(" ", " "), val);
        TableKeyVal { keyval, kv_sep: WSSep::new_str("", "") }
    }

    pub fn to_string(&self) -> (s: String)
        ensures
            s@ == self.text(),
        decreases self,
    {
        let mut s = String::new();
        s.append(self.kv_sep.ws1.as_str());
        let k = self.keyval.to_string();
        s.append(k.as_str());
        s.append(self.kv_sep.ws2.as_str());
        s
    }

    pub fn equals(&self, other: &TableKeyVal) -> (r: bool)
        ensures
            r == self.same(other),
        decreases self,
    {
        self.keyval.equals(&other.keyval) && self.kv_sep.equals(&other.kv_sep)
    }
}

impl KeyVal {
    pub fn new_str(key: &str, keyval_sep: WSSep, val: Value) -> (r: KeyVal)
        ensures
            r.key@ == key@,
            r.keyval_sep == keyval_sep,
            r.val == val,
    {
        KeyVal { key: String::from_str(key), keyval_sep, val }
    }

    pub fn new_string(key: String, keyval_sep: WSSep, val: Value) -> (r: KeyVal)
        ensures
            r.key == key,
            r.keyval_sep == keyval_sep,
            r.val == val,
    {
        KeyVal { key, keyval_sep, val }
    }

    pub fn to_string(&self) -> (s: String)
        ensures
            s@ == self.text(),
        decreases self,
    {
        proof {
            reveal_strlit("=");
        }
        let mut s = String::new();
        s.append(self.key.as_str());
        s.append(self.keyval_sep.ws1.as_str());
        s.append("=");
        s.append(self.keyval_sep.ws2.as_str());
        let v = self.val.to_string();
        s.append(v.as_str());
        s
    }

    pub fn equals(&self, other: &KeyVal) -> (r: bool)
        ensures
            r == self.same(other),
        decreases self,
    {
        self.key == other.key && self.keyval_sep.equals(&other.keyval_sep) && self.val.equals(
            &other.val,
        )
    }
}

impl PartialEq for Value {
    fn eq(&self, other: &Value) -> (r: bool) {
        self.equals(other)
    }
}

impl Eq for Value {}

impl PartialEqSpecImpl for Value {
    open spec fn obeys_eq_spec() -> bool {
        true
    }

    open spec fn eq_spec(&self, other: &Value) -> bool {
        self.same(other)
    }
}

impl PartialEq for Array {
    fn eq(&self, other: &Array) -> (r: bool) {
        self.equals(other)
    }
}

impl Eq for Array {}

impl PartialEqSpecImpl for Array {
    open spec fn obeys_eq_spec() -> bool {
        true
    }

    open spec fn eq_spec(&self, other: &Array) -> bool {
        self.same(other)
    }
}

impl PartialEq for ArrayValue {
    fn eq(&self, other: &ArrayValue) -> (r: bool) {
        self.equals(other)
    }
}

impl Eq for ArrayValue {}

impl PartialEqSpecImpl for ArrayValue {
    open spec fn obeys_eq_spec() -> bool {
        true
    }

    open spec fn eq_spec(&self, other: &ArrayValue) -> bool {
        self.same(other)
    }
}

impl PartialEq for InlineTable {
    fn eq(&self, other: &InlineTable) -> (r: bool) {
        self.equals(other)
    }
}

impl Eq for InlineTable {}

impl PartialEqSpecImpl for InlineTable {
    open spec fn obeys_eq_spec() -> bool {
        true
    }

    open spec fn eq_spec(&self, other: &InlineTable) -> bool {
        self.same(other)
    }
}

impl PartialEq for TableKeyVal {
    fn eq(&self, other: &TableKeyVal) -> (r: bool) {
        self.equals(other)
    }
}

impl Eq for TableKeyVal {}

impl PartialEqSpecImpl for TableKeyVal {
    open spec fn obeys_eq_spec() -> bool {
        true
    }

    open spec fn eq_spec(&self, other: &TableKeyVal) -> bool {
        self.same(other)
    }
}

impl PartialEq for KeyVal {
    fn eq(&self, other: &KeyVal) -> (r: bool) {
        self.equals(other)
    }
}

impl Eq for KeyVal {}

impl PartialEqSpecImpl for KeyVal {
    open spec fn obeys_eq_spec() -> bool {
        true
    }

    open spec fn eq_spec(&self, other: &KeyVal) -> bool {
        self.same(other)
    }
}

} // verus!
