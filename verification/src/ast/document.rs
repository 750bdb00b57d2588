use vstd::prelude::*;
use vstd::std_specs::cmp::PartialEqSpecImpl;
use crate::ast::structs::{WSSep, Comment, TableType, comp_opt};
use crate::ast::values::{KeyVal, Value};
use crate::types::{Children, SubkeysView};

verus! {

/// One line of a document after its whitespace:
/// `<ws.ws1>` alone, `<ws.ws1><comment>`, or
/// `<ws.ws1><keyval or table><ws.ws2>` followed by a comment where there is one.
#[derive(Debug)]
pub struct Expression {
    pub ws: WSSep,
    pub keyval: Option<KeyVal>,
    pub table: Option<TableType>,
    pub comment: Option<Comment>,
}

impl Expression {
    pub fn new(
        ws: WSSep,
        keyval: Option<KeyVal>,
        table: Option<TableType>,
        comment: Option<Comment>,
    ) -> (r: Expression)
        ensures
            r.ws == ws,
            r.keyval == keyval,
            r.table == table,
            r.comment == comment,
    {
        Expression { ws, keyval, table, comment }
    }

    /// An expression holds a key/value pair or a table header, not both.
    pub open spec fn printable(&self) -> bool {
        !(self.keyval.is_some() && self.table.is_some())
    }

    pub open spec fn text(&self) -> Seq<char> {
        let c = match self.comment {
            Some(c) => c.text(),
            None => Seq::empty(),
        };
        match (self.keyval, self.table) {
            (Some(k), _) => self.ws.ws1@ + k.text() + self.ws.ws2@ + c,
            (None, Some(t)) => self.ws.ws1@ + t.text() + self.ws.ws2@ + c,
            (None, None) => self.ws.ws1@ + c,
        }
    }

    pub open spec fn same(&self, other: &Expression) -> bool {
        &&& self.ws.same(&other.ws)
        &&& match (self.keyval, other.keyval) {
            (Some(a), Some(b)) => a.same(&b),
            (None, None) => true,
            _ => false,
        }
        &&& match (self.table, other.table) {
            (Some(a), Some(b)) => a.same(&b),
            (None, None) => true,
            _ => false,
        }
        &&& match (self.comment, other.comment) {
            (Some(a), Some(b)) => a.same(&b),
            (None, None) => true,
            _ => false,
        }
    }

    pub fn to_string(&self) -> (s: String)
        requires
            self.printable(),
        ensures
            s@ == self.text(),
    {
        let mut s = String::new();
        s.append(self.ws.ws1.as_str());
        match (&self.keyval, &self.table) {
            (Some(k), _) => {
                let ks = k.to_string();
                s.append(ks.as_str());
                s.append(self.ws.ws2.as_str());
            },
            (None, Some(t)) => {
                let ts = t.to_string();
                s.append(ts.as_str());
                s.append(self.ws.ws2.as_str());
            },
            (None, None) => {},
        }
        if let Some(c) = &self.comment {
            let cs = c.to_string();
            s.append(cs.as_str());
        }
        s
    }

    pub fn equals(&self, other: &Expression) -> (r: bool)
        ensures
            r == self.same(other),
    {
        self.ws.equals(&other.ws) && comp_opt(&self.keyval, &other.keyval) && comp_opt(
            &self.table,
            &other.table,
        ) && comp_opt(&self.comment, &other.comment)
    }
}

/// An expression and the newline before it.
#[derive(Debug)]
pub struct NLExpression {
    pub nl: String,
    pub expr: Expression,
}

impl NLExpression {
    pub fn new_str(nl: &str, expr: Expression) -> (r: NLExpression)
        ensures
            r.nl@ == nl@,
            r.expr == expr,
    {
        NLExpression { nl: String::from_str(nl), expr }
    }

    pub fn new_string(nl: String, expr: Expression) -> (r: NLExpression)
        ensures
            r.nl == nl,
            r.expr == expr,
    {
        NLExpression { nl, expr }
    }

    pub open spec fn printable(&self) -> bool {
        self.expr.printable()
    }

    pub open spec fn text(&self) -> Seq<char> {
        self.nl@ + self.expr.text()
    }

    pub open spec fn same(&self, other: &NLExpression) -> bool {
        self.nl@ == other.nl@ && self.expr.same(&other.expr)
    }

    pub fn to_string(&self) -> (s: String)
        requires
            self.printable(),
        ensures
            s@ == self.text(),
    {
        let mut s = self.nl.clone();
        let e = self.expr.to_string();
        s.append(e.as_str());
        s
    }

    pub fn equals(&self, other: &NLExpression) -> (r: bool)
        ensures
            r == self.same(other),
    {
        self.nl == other.nl && self.expr.equals(&other.expr)
    }
}

/// Concatenation of the texts of a run of expressions.
pub open spec fn exprs_text(s: Seq<NLExpression>) -> Seq<char>
    decreases s.len(),
{
    if s.len() == 0 {
        Seq::empty()
    } else {
        exprs_text(s.drop_last()) + s.last().text()
    }
}

/// A whole document: its expressions in order.
#[derive(Debug)]
pub struct Toml {
    pub exprs: Vec<NLExpression>,
}

impl Toml {
    pub fn new(exprs: Vec<NLExpression>) -> (r: Toml)
        ensures
            r.exprs == exprs,
    {
        Toml { exprs }
    }

    /// A document can be rendered when it has at least one expression and each
    /// of them can.
    pub open spec fn printable(&self) -> bool {
        &&& self.exprs@.len() > 0
        &&& forall|i: int| 0 <= i < self.exprs@.len() ==> #[trigger] self.exprs@[i].printable()
    }

    pub open spec fn text(&self) -> Seq<char> {
        exprs_text(self.exprs@)
    }

    pub open spec fn same(&self, other: &Toml) -> bool {
        &&& self.exprs@.len() == other.exprs@.len()
        &&& forall|i: int| 0 <= i < self.exprs@.len() ==> #[trigger] self.exprs@[i].same(&other.exprs@[i])
    }

    pub fn to_string(&self) -> (s: String)
        requires
            self.printable(),
        ensures
            s@ == self.text(),
    {
        let mut s = String::new();
        let mut i: usize = 0;
        while i < self.exprs.len()
            invariant
                i <= self.exprs.len(),
                self.printable(),
                s@ == exprs_text(self.exprs@.subrange(0, i as int)),
            decreases self.exprs.len() - i,
        {
            let e = self.exprs[i].to_string();
            s.append(e.as_str());
            proof {
                assert(self.exprs@.subrange(0, i + 1).drop_last() == self.exprs@.subrange(0, i as int));
            }
            i = i + 1;
        }
        proof {
            assert(self.exprs@.subrange(0, self.exprs.len() as int) == self.exprs@);
        }
        s
    }

    pub fn equals(&self, other: &Toml) -> (r: bool)
        ensures
            r == self.same(other),
    {
        if self.exprs.len() != other.exprs.len() {
            return false;
        }
        let mut i: usize = 0;
        while i < self.exprs.len()
            invariant
                i <= self.exprs.len(),
                self.exprs.len() == other.exprs.len(),
                forall|j: int| 0 <= j < i ==> #[trigger] self.exprs@[j].same(&other.exprs@[j]),
            decreases self.exprs.len() - i,
        {
            if !self.exprs[i].equals(&other.exprs[i]) {
                return false;
            }
            i = i + 1;
        }
        true
    }
}

/// The decimal digit for a number below ten.
pub open spec fn digit_char(d: nat) -> char {
    if d == 0 { '0' } else if d == 1 { '1' } else if d == 2 { '2' } else if d == 3 { '3' }
    else if d == 4 { '4' } else if d == 5 { '5' } else if d == 6 { '6' } else if d == 7 { '7' }
    else if d == 8 { '8' } else { '9' }
}

/// The decimal digits of a number, without leading zeros.
pub open spec fn decimal(n: nat) -> Seq<char>
    decreases n,
{
    if n < 10 {
        seq![digit_char(n)]
    } else {
        decimal(n / 10) + seq![digit_char(n % 10)]
    }
}

fn digit_string(d: usize) -> (s: String)
    requires
        d < 10,
    ensures
        s@ == seq![digit_char(d as nat)],
{
    proof {
        reveal_strlit("0");
        reveal_strlit("1");
        reveal_strlit("2");
        reveal_strlit("3");
        reveal_strlit("4");
        reveal_strlit("5");
        reveal_strlit("6");
        reveal_strlit("7");
        reveal_strlit("8");
        reveal_strlit("9");
    }
    if d == 0 { String::from_str("0") } else if d == 1 { String::from_str("1") }
    else if d == 2 { String::from_str("2") } else if d == 3 { String::from_str("3") }
    else if d == 4 { String::from_str("4") } else if d == 5 { String::from_str("5") }
    else if d == 6 { String::from_str("6") } else if d == 7 { String::from_str("7") }
    else if d == 8 { String::from_str("8") } else { String::from_str("9") }
}

/// Renders a number in decimal.
pub fn decimal_string(n: usize) -> (s: String)
    ensures
        s@ == decimal(n as nat),
    decreases n,
{
    if n < 10 {
        digit_string(n)
    } else {
        let mut s = decimal_string(n / 10);
        let d = digit_string(n % 10);
        s.append(d.as_str());
        s
    }
}

/// `<k1>, <k2>, ` and so on: each key followed by a comma and a space.
pub open spec fn keys_listing(v: Seq<String>) -> Seq<char>
    decreases v.len(),
{
    if v.len() == 0 {
        Seq::empty()
    } else {
        keys_listing(v.drop_last()) + v.last()@ + seq![',', ' ']
    }
}

/// An entry of the document's key map, with its subkeys as texts.
pub struct EntryView {
    pub value: Option<Value>,
    pub subkeys: SubkeysView,
}

impl View for HashValue {
    type V = EntryView;

    open spec fn view(&self) -> EntryView {
        EntryView { value: self.value, subkeys: self.subkeys@ }
    }
}

/// The value at a key of the document and what it knows of the keys below it.
#[derive(Debug)]
pub struct HashValue {
    pub value: Option<Value>,
    pub subkeys: Children,
}

impl HashValue {
    pub fn new_keys(value: Value) -> (r: HashValue)
        ensures
            r.value == Some(value),
            r.subkeys matches Children::Keys(k) && k@.len() == 0,
    {
        HashValue { value: Some(value), subkeys: Children::Keys(Vec::new()) }
    }

    pub fn none_keys() -> (r: HashValue)
        ensures
            r.value.is_none(),
            r.subkeys matches Children::Keys(k) && k@.len() == 0,
    {
        HashValue { value: None, subkeys: Children::Keys(Vec::new()) }
    }

    pub fn one_keys(key: String) -> (r: HashValue)
        ensures
            r.value.is_none(),
            r.subkeys matches Children::Keys(k) && k@ == seq![key],
    {
        let mut set = Vec::new();
        set.push(key);
        HashValue { value: None, subkeys: Children::Keys(set) }
    }

    pub fn new_count(value: Value) -> (r: HashValue)
        ensures
            r.value == Some(value),
            r.subkeys == Children::Count(0),
    {
        HashValue { value: Some(value), subkeys: Children::Count(0) }
    }

    pub fn none_count() -> (r: HashValue)
        ensures
            r.value.is_none(),
            r.subkeys == Children::Count(0),
    {
        HashValue { value: None, subkeys: Children::Count(0) }
    }

    /// The entry of a table that a header defines: marked as a table, with no
    /// subkeys yet.
    pub fn table_keys() -> (r: HashValue)
        ensures
            r.value == Some(Value::Table),
            r.subkeys matches Children::Keys(k) && k@.len() == 0,
    {
        HashValue { value: Some(Value::Table), subkeys: Children::Keys(Vec::new()) }
    }

    pub fn one_count() -> (r: HashValue)
        ensures
            r.value.is_none(),
            r.subkeys == Children::Count(1),
    {
        HashValue { value: None, subkeys: Children::Count(1) }
    }


    /// `Subkey Count: <n>, ` or `Subkey Set: ` with each subkey followed by
    /// `, `; then `Value: <value>` or `No Value`.
    pub open spec fn text(&self) -> Seq<char> {
        let sub = match self.subkeys {
            Children::Count(c) => "Subkey Count: "@ + decimal(c as nat) + seq![',', ' '],
            Children::Keys(k) => "Subkey Set: "@ + keys_listing(k@),
        };
        let val = match self.value {
            Some(v) => "Value: "@ + v.text(),
            None => "No Value"@,
        };
        sub + val
    }

    /// Two entries are equal when their values are: what they know of their
    /// subkeys does not count.
    pub open spec fn same(&self, other: &HashValue) -> bool {
        match (self.value, other.value) {
            (Some(a), Some(b)) => a.same(&b),
            (None, None) => true,
            _ => false,
        }
    }

    pub fn to_string(&self) -> (s: String)
        ensures
            s@ == self.text(),
    {
        let mut s = String::new();
        match &self.subkeys {
            Children::Count(c) => {
                s.append("Subkey Count: ");
                let d = decimal_string(*c);
                s.append(d.as_str());
                s.append(", ");
            },
            Children::Keys(keys) => {
                s.append("Subkey Set: ");
                let ghost head = s@;
                let mut i: usize = 0;
                while i < keys.len()
                    invariant
                        i <= keys.len(),
                        s@ == head + keys_listing(keys@.subrange(0, i as int)),
                    decreases keys.len() - i,
                {
                    s.append(keys[i].as_str());
                    s.append(", ");
                    proof {
                        reveal_strlit(", ");
                        assert(keys@.subrange(0, i + 1).drop_last() == keys@.subrange(0, i as int));
                        assert(s@ =~= head + keys_listing(keys@.subrange(0, i + 1)));
                    }
                    i = i + 1;
                }
                proof {
                    assert(keys@.subrange(0, keys.len() as int) == keys@);
                }
            },
        }
        match &self.value {
            Some(v) => {
                s.append("Value: ");
                let vs = v.to_string();
                s.append(vs.as_str());
            },
            None => {
                s.append("No Value");
            },
        }
        proof {
            reveal_strlit(", ");
        }
        s
    }

    pub fn equals(&self, other: &HashValue) -> (r: bool)
        ensures
            r == self.same(other),
    {
        match (&self.value, &other.value) {
            (Some(a), Some(b)) => a.equals(b),
            (None, None) => true,
            _ => false,
        }
    }
}


impl PartialEq for Expression {
    fn eq(&self, other: &Expression) -> (r: bool) {
        self.equals(other)
    }
}

impl Eq for Expression {}

impl PartialEqSpecImpl for Expression {
    open spec fn obeys_eq_spec() -> bool {
        true
    }

    open spec fn eq_spec(&self, other: &Expression) -> bool {
        self.same(other)
    }
}

impl PartialEq for NLExpression {
    fn eq(&self, other: &NLExpression) -> (r: bool) {
        self.equals(other)
    }
}

impl Eq for NLExpression {}

impl PartialEqSpecImpl for NLExpression {
    open spec fn obeys_eq_spec() -> bool {
        true
    }

    open spec fn eq_spec(&self, other: &NLExpression) -> bool {
        self.same(other)
    }
}

impl PartialEq for Toml {
    fn eq(&self, other: &Toml) -> (r: bool) {
        self.equals(other)
    }
}

impl Eq for Toml {}

impl PartialEqSpecImpl for Toml {
    open spec fn obeys_eq_spec() -> bool {
        true
    }

    open spec fn eq_spec(&self, other: &Toml) -> bool {
        self.same(other)
    }
}

impl PartialEq for HashValue {
    fn eq(&self, other: &HashValue) -> (r: bool) {
        self.equals(other)
    }
}

impl Eq for HashValue {}

impl PartialEqSpecImpl for HashValue {
    open spec fn obeys_eq_spec() -> bool {
        true
    }

    open spec fn eq_spec(&self, other: &HashValue) -> bool {
        self.same(other)
    }
}

} // verus!
