use vstd::prelude::*;
use vstd::std_specs::cmp::PartialEqSpec;
use vstd::std_specs::cmp::PartialEqSpecImpl;

verus! {

/// Compares two `Option`s: equal when both are `None`, or both are `Some`
/// with contents that `==` finds equal.
pub fn comp_opt<T: Eq>(left: &Option<T>, right: &Option<T>) -> (r: bool)
    ensures
        (left.is_none() && right.is_none()) ==> r,
        (left.is_some() != right.is_some()) ==> !r,
        T::obeys_eq_spec() ==> (r == match (left, right) {
            (Some(i), Some(j)) => i.eq_spec(j),
            (None, None) => true,
            _ => false,
        }),
{
    match (left, right) {
        (Some(i), Some(j)) => i == j,
        (None, None) => true,
        _ => false,
    }
}

/// The kinds of string literal; `code` gives each its number.
#[derive(Debug, Clone, Copy, PartialEq, Eq, Structural)]
pub enum ErrorCode {
    BasicString,
    MLBasicString,
    LiteralString,
    MLLiteralString,
}

impl ErrorCode {
    /// The number of the kind: 0 to 3 in the order of the variants.
    pub fn code(&self) -> (r: u8)
        ensures
            r == match self {
                ErrorCode::BasicString => 0u8,
                ErrorCode::MLBasicString => 1u8,
                ErrorCode::LiteralString => 2u8,
                ErrorCode::MLLiteralString => 3u8,
            },
    {
        match self {
            ErrorCode::BasicString => 0,
            ErrorCode::MLBasicString => 1,
            ErrorCode::LiteralString => 2,
            ErrorCode::MLLiteralString => 3,
        }
    }
}

/// Concatenation of the texts of a run of comments and newlines.
pub open spec fn comment_nls_text(s: Seq<CommentOrNewLines>) -> Seq<char>
    decreases s.len(),
{
    if s.len() == 0 {
        Seq::empty()
    } else {
        comment_nls_text(s.drop_last()) + s.last().text()
    }
}

/// Element-wise equality of two runs of comments and newlines.
pub open spec fn comment_nls_same(a: Seq<CommentOrNewLines>, b: Seq<CommentOrNewLines>) -> bool {
    &&& a.len() == b.len()
    &&& forall|i: int| 0 <= i < a.len() ==> #[trigger] a[i].same(&b[i])
}

/// Renders a run of comments and newlines.
pub fn comment_nls_to_string(v: &Vec<CommentOrNewLines>) -> (s: String)
    ensures
        s@ == comment_nls_text(v@),
{
    let mut s = String::new();
    let mut i: usize = 0;
    while i < v.len()
        invariant
            i <= v.len(),
            s@ == comment_nls_text(v@.subrange(0, i as int)),
        decreases v.len() - i,
    {
        let t = v[i].to_string();
        s.append(t.as_str());
        proof {
            assert(v@.subrange(0, i + 1).drop_last() == v@.subrange(0, i as int));
        }
        i = i + 1;
    }
    proof {
        assert(v@.subrange(0, v.len() as int) == v@);
    }
    s
}

/// Element-wise comparison of two runs of comments and newlines.
pub fn comment_nls_eq(a: &Vec<CommentOrNewLines>, b: &Vec<CommentOrNewLines>) -> (r: bool)
    ensures
        r == comment_nls_same(a@, b@),
{
    if a.len() != b.len() {
        return false;
    }
    let mut i: usize = 0;
    while i < a.len()
        invariant
            i <= a.len(),
            a.len() == b.len(),
            forall|j: int| 0 <= j < i ==> #[trigger] a@[j].same(&b@[j]),
        decreases a.len() - i,
    {
        if !a[i].equals(&b[i]) {
            return false;
        }
        i = i + 1;
    }
    true
}

/// `#<text>`
#[derive(Debug, Clone)]
pub struct Comment {
    pub text: String,
}

impl Comment {
    pub fn new_str(text: &str) -> (r: Comment)
        ensures
            r.text@ == text@,
    {
        Comment { text: String::from_str(text) }
    }

    pub fn new_string(text: String) -> (r: Comment)
        ensures
            r.text == text,
    {
        Comment { text }
    }

    pub open spec fn same(&self, other: &Comment) -> bool {
        self.text@ == other.text@
    }

    pub open spec fn text(&self) -> Seq<char> {
        seq!['#'] + self.text@
    }

    pub fn to_string(&self) -> (s: String)
        ensures
            s@ == self.text(),
    {
        proof {
            reveal_strlit("#");
        }
        let mut s = String::from_str("#");
        s.append(self.text.as_str());
        s
    }
}

impl PartialEq for Comment {
    fn eq(&self, other: &Comment) -> (r: bool) {
        self.text == other.text
    }
}

impl Eq for Comment {}

impl PartialEqSpecImpl for Comment {
    open spec fn obeys_eq_spec() -> bool {
        true
    }

    open spec fn eq_spec(&self, other: &Comment) -> bool {
        self.same(other)
    }
}

/// The whitespace on either side of a separator.
#[derive(Debug, Clone)]
pub struct WSSep {
    pub ws1: String,
    pub ws2: String,
}

impl WSSep {
    pub fn new_str(ws1: &str, ws2: &str) -> (r: WSSep)
        ensures
            r.ws1@ == ws1@,
            r.ws2@ == ws2@,
    {
        WSSep { ws1: String::from_str(ws1), ws2: String::from_str(ws2) }
    }

    pub fn new_string(ws1: String, ws2: String) -> (r: WSSep)
        ensures
            r.ws1 == ws1,
            r.ws2 == ws2,
    {
        WSSep { ws1, ws2 }
    }

    pub open spec fn same(&self, other: &WSSep) -> bool {
        self.ws1@ == other.ws1@ && self.ws2@ == other.ws2@
    }

    pub fn equals(&self, other: &WSSep) -> (r: bool)
        ensures
            r == self.same(other),
    {
        self.ws1 == other.ws1 && self.ws2 == other.ws2
    }
}

impl PartialEq for WSSep {
    fn eq(&self, other: &WSSep) -> (r: bool) {
        self.equals(other)
    }
}

impl Eq for WSSep {}

impl PartialEqSpecImpl for WSSep {
    open spec fn obeys_eq_spec() -> bool {
        true
    }

    open spec fn eq_spec(&self, other: &WSSep) -> bool {
        self.same(other)
    }
}

/// One key of a table header and what precedes it: `<ws.ws1>.<ws.ws2><key>`.
#[derive(Debug, Clone)]
pub struct WSKeySep {
    pub ws: WSSep,
    pub key: String,
}

impl WSKeySep {
    pub fn new_str(ws: WSSep, key: &str) -> (r: WSKeySep)
        ensures
            r.ws == ws,
            r.key@ == key@,
    {
        WSKeySep { ws, key: String::from_str(key) }
    }

    pub fn new_string(ws: WSSep, key: String) -> (r: WSKeySep)
        ensures
            r.ws == ws,
            r.key == key,
    {
        WSKeySep { ws, key }
    }

    pub open spec fn same(&self, other: &WSKeySep) -> bool {
        self.ws.same(&other.ws) && self.key@ == other.key@
    }

    pub open spec fn text(&self) -> Seq<char> {
        self.ws.ws1@ + seq!['.'] + self.ws.ws2@ + self.key@
    }

    pub fn to_string(&self) -> (s: String)
        ensures
            s@ == self.text(),
    {
        proof {
            reveal_strlit(".");
        }
        let mut s = String::new();
        s.append(self.ws.ws1.as_str());
        s.append(".");
        s.append(self.ws.ws2.as_str());
        s.append(self.key.as_str());
        s
    }
}

impl PartialEq for WSKeySep {
    fn eq(&self, other: &WSKeySep) -> (r: bool) {
        self.ws.equals(&other.ws) && self.key == other.key
    }
}

impl Eq for WSKeySep {}

impl PartialEqSpecImpl for WSKeySep {
    open spec fn obeys_eq_spec() -> bool {
        true
    }

    open spec fn eq_spec(&self, other: &WSKeySep) -> bool {
        self.same(other)
    }
}

/// Concatenation of the texts of a run of header keys.
pub open spec fn subkeys_text(s: Seq<WSKeySep>) -> Seq<char>
    decreases s.len(),
{
    if s.len() == 0 {
        Seq::empty()
    } else {
        subkeys_text(s.drop_last()) + s.last().text()
    }
}

/// The keys of a table header. The first key's `ws.ws1` is the whitespace
/// after the opening bracket and its `ws.ws2` the whitespace before the closing
/// one; every later key carries the whitespace around the dot before it.
#[derive(Debug, Clone)]
pub struct Table {
    pub keys: Vec<WSKeySep>,
}

impl Table {
    pub fn new_str(ws: WSSep, key: &str, subkeys: Vec<WSKeySep>) -> (r: Table)
        ensures
            r.keys@.len() == subkeys@.len() + 1,
            r.keys@[0].ws == ws,
            r.keys@[0].key@ == key@,
            r.keys@.drop_first() == subkeys@,
    {
        let ghost rest = subkeys@;
        let mut keys = subkeys;
        keys.insert(0, WSKeySep::new_str(ws, key));
        assert(keys@.drop_first() =~= rest);
        Table { keys }
    }

    pub fn new_string(ws: WSSep, key: String, subkeys: Vec<WSKeySep>) -> (r: Table)
        ensures
            r.keys@.len() == subkeys@.len() + 1,
            r.keys@[0].ws == ws,
            r.keys@[0].key == key,
            r.keys@.drop_first() == subkeys@,
    {
        let ghost rest = subkeys@;
        let mut keys = subkeys;
        keys.insert(0, WSKeySep::new_string(ws, key));
        assert(keys@.drop_first() =~= rest);
        Table { keys }
    }

    pub open spec fn same(&self, other: &Table) -> bool {
        &&& self.keys@.len() == other.keys@.len()
        &&& forall|i: int| 0 <= i < self.keys@.len() ==> #[trigger] self.keys@[i].same(&other.keys@[i])
    }

    /// `<ws1 of the first key><first key><the later keys><ws2 of the first key>`,
    /// or nothing for a table without keys.
    pub open spec fn text(&self) -> Seq<char> {
        if self.keys@.len() > 0 {
            let k = self.keys@[0];
            k.ws.ws1@ + k.key@ + subkeys_text(self.keys@.drop_first()) + k.ws.ws2@
        } else {
            Seq::empty()
        }
    }

    pub fn to_string(&self) -> (s: String)
        ensures
            s@ == self.text(),
    {
        let mut s = String::new();
        if self.keys.len() > 0 {
            s.append(self.keys[0].ws.ws1.as_str());
            s.append(self.keys[0].key.as_str());
            let mut i: usize = 1;
            while i < self.keys.len()
                invariant
                    1 <= i <= self.keys.len(),
                    s@ == self.keys@[0].ws.ws1@ + self.keys@[0].key@ + subkeys_text(
                        self.keys@.subrange(1, i as int),
                    ),
                decreases self.keys.len() - i,
            {
                let t = self.keys[i].to_string();
                s.append(t.as_str());
                proof {
                    assert(self.keys@.subrange(1, i + 1).drop_last() == self.keys@.subrange(1, i as int));
                }
                i = i + 1;
            }
            proof {
                assert(self.keys@.subrange(1, self.keys.len() as int) == self.keys@.drop_first());
            }
            s.append(self.keys[0].ws.ws2.as_str());
        }
        s
    }

    pub fn equals(&self, other: &Table) -> (r: bool)
        ensures
            r == self.same(other),
    {
        if self.keys.len() != other.keys.len() {
            return false;
        }
        let mut i: usize = 0;
        while i < self.keys.len()
            invariant
                i <= self.keys.len(),
                self.keys.len() == other.keys.len(),
                forall|j: int| 0 <= j < i ==> #[trigger] self.keys@[j].same(&other.keys@[j]),
            decreases self.keys.len() - i,
        {
            if !(self.keys[i] == other.keys[i]) {
                return false;
            }
            i = i + 1;
        }
        true
    }
}

impl PartialEq for Table {
    fn eq(&self, other: &Table) -> (r: bool) {
        self.equals(other)
    }
}

impl Eq for Table {}

impl PartialEqSpecImpl for Table {
    open spec fn obeys_eq_spec() -> bool {
        true
    }

    open spec fn eq_spec(&self, other: &Table) -> bool {
        self.same(other)
    }
}

/// A table header: `[<table>]` for a standard table, `[[<table>]]` for an
/// array of tables.
#[derive(Debug, Clone)]
pub enum TableType {
    Standard(Table),
    Array(Table),
}

impl TableType {
    /// The table inside the header, whatever its kind.
    pub open spec fn table(&self) -> Table {
        match self {
            TableType::Standard(t) => *t,
            TableType::Array(t) => *t,
        }
    }

    pub open spec fn same(&self, other: &TableType) -> bool {
        match (self, other) {
            (TableType::Standard(i), TableType::Standard(j)) => i.same(j),
            (TableType::Array(i), TableType::Array(j)) => i.same(j),
            _ => false,
        }
    }

    pub open spec fn text(&self) -> Seq<char> {
        match self {
            TableType::Standard(t) => seq!['['] + t.text() + seq![']'],
            TableType::Array(t) => seq!['[', '['] + t.text() + seq![']', ']'],
        }
    }

    pub fn to_string(&self) -> (s: String)
        ensures
            s@ == self.text(),
    {
        match self {
            TableType::Standard(t) => {
                proof {
                    reveal_strlit("[");
                    reveal_strlit("]");
                }
                let mut s = String::from_str("[");
                let ts = t.to_string();
                s.append(ts.as_str());
                s.append("]");
                s
            },
            TableType::Array(t) => {
                proof {
                    reveal_strlit("[[");
                    reveal_strlit("]]");
                }
                let mut s = String::from_str("[[");
                let ts = t.to_string();
                s.append(ts.as_str());
                s.append("]]");
                s
            },
        }
    }

    pub fn equals(&self, other: &TableType) -> (r: bool)
        ensures
            r == self.same(other),
    {
        match (self, other) {
            (TableType::Standard(i), TableType::Standard(j)) => i.equals(j),
            (TableType::Array(i), TableType::Array(j)) => i.equals(j),
            _ => false,
        }
    }
}

impl PartialEq for TableType {
    fn eq(&self, other: &TableType) -> (r: bool) {
        self.equals(other)
    }
}

impl Eq for TableType {}

impl PartialEqSpecImpl for TableType {
    open spec fn obeys_eq_spec() -> bool {
        true
    }

    open spec fn eq_spec(&self, other: &TableType) -> bool {
        self.same(other)
    }
}

/// Whitespace and newlines, a comment, then more whitespace and newlines.
#[derive(Debug, Clone)]
pub struct CommentNewLines {
    pub pre_ws_nl: String,
    pub comment: Comment,
    pub newlines: String,
}

impl CommentNewLines {
    pub fn new_str(pre_ws_nl: &str, comment: Comment, newlines: &str) -> (r: CommentNewLines)
        ensures
            r.pre_ws_nl@ == pre_ws_nl@,
            r.comment == comment,
            r.newlines@ == newlines@,
    {
        CommentNewLines {
            pre_ws_nl: String::from_str(pre_ws_nl),
            comment,
            newlines: String::from_str(newlines),
        }
    }

    pub fn new_string(pre_ws_nl: String, comment: Comment, newlines: String) -> (r: CommentNewLines)
        ensures
            r.pre_ws_nl == pre_ws_nl,
            r.comment == comment,
            r.newlines == newlines,
    {
        CommentNewLines { pre_ws_nl, comment, newlines }
    }

    pub open spec fn same(&self, other: &CommentNewLines) -> bool {
        &&& self.pre_ws_nl@ == other.pre_ws_nl@
        &&& self.comment.same(&other.comment)
        &&& self.newlines@ == other.newlines@
    }

    pub open spec fn text(&self) -> Seq<char> {
        self.pre_ws_nl@ + self.comment.text() + self.newlines@
    }

    pub fn to_string(&self) -> (s: String)
        ensures
            s@ == self.text(),
    {
        let mut s = String::new();
        s.append(self.pre_ws_nl.as_str());
        let c = self.comment.to_string();
        s.append(c.as_str());
        s.append(self.newlines.as_str());
        s
    }

    pub fn equals(&self, other: &CommentNewLines) -> (r: bool)
        ensures
            r == self.same(other),
    {
        self.pre_ws_nl == other.pre_ws_nl && self.comment == other.comment && self.newlines
            == other.newlines
    }
}

impl PartialEq for CommentNewLines {
    fn eq(&self, other: &CommentNewLines) -> (r: bool) {
        self.equals(other)
    }
}

impl Eq for CommentNewLines {}

impl PartialEqSpecImpl for CommentNewLines {
    open spec fn obeys_eq_spec() -> bool {
        true
    }

    open spec fn eq_spec(&self, other: &CommentNewLines) -> bool {
        self.same(other)
    }
}

/// Either a comment with the whitespace around it, or whitespace and newlines
/// alone.
#[derive(Debug, Clone)]
pub enum CommentOrNewLines {
    Comment(CommentNewLines),
    NewLines(String),
}

impl CommentOrNewLines {
    pub open spec fn same(&self, other: &CommentOrNewLines) -> bool {
        match (self, other) {
            (CommentOrNewLines::Comment(i), CommentOrNewLines::Comment(j)) => i.same(j),
            (CommentOrNewLines::NewLines(i), CommentOrNewLines::NewLines(j)) => i@ == j@,
            _ => false,
        }
    }

    pub open spec fn text(&self) -> Seq<char> {
        match self {
            CommentOrNewLines::Comment(c) => c.text(),
            CommentOrNewLines::NewLines(n) => n@,
        }
    }

    pub fn to_string(&self) -> (s: String)
        ensures
            s@ == self.text(),
    {
        match self {
            CommentOrNewLines::Comment(c) => c.to_string(),
            CommentOrNewLines::NewLines(n) => n.clone(),
        }
    }

    pub fn equals(&self, other: &CommentOrNewLines) -> (r: bool)
        ensures
            r == self.same(other),
    {
        match (self, other) {
            (CommentOrNewLines::Comment(i), CommentOrNewLines::Comment(j)) => i.equals(j),
            (CommentOrNewLines::NewLines(i), CommentOrNewLines::NewLines(j)) => *i == *j,
            _ => false,
        }
    }
}

impl PartialEq for CommentOrNewLines {
    fn eq(&self, other: &CommentOrNewLines) -> (r: bool) {
        self.equals(other)
    }
}

impl Eq for CommentOrNewLines {}

impl PartialEqSpecImpl for CommentOrNewLines {
    open spec fn obeys_eq_spec() -> bool {
        true
    }

    open spec fn eq_spec(&self, other: &CommentOrNewLines) -> bool {
        self.same(other)
    }
}

} // verus!
