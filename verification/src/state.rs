//! The state that reading a document keeps beside the syntax: the key map, the
//! stack of table headers met, the kinds of the arrays being read, and the
//! errors found, which are reported without stopping the reading. Each event
//! (a header read, an array opened or closed, a value of an array read) is a
//! step from one state to the next, stated by a spec function.
use vstd::prelude::*;
use crate::ast::structs::TableType;
use crate::ast::values::{Value, ArrayType};
use crate::ast::keys::is_prefix;
use crate::ast::document::{HashValue, EntryView};
use crate::types::SubkeysView;
use crate::laws::lemma_walk_keeps_sets;
use crate::objects::{KeyMap, TOMLParser, std_stack_result, drop_top, implicit_tables, table_set_result,
    mixed_array_report, array_stack_result, ArrayHeaderStep, same_key_depth, header_key};

verus! {

/// An error found while reading, with the dotted key it is about and the
/// line where it was found.
#[derive(Debug)]
pub enum ParseError {
    InvalidTable(String, usize),
    MixedArray(String, usize),
}

pub enum ParseErrorView {
    InvalidTable(Seq<char>, usize),
    MixedArray(Seq<char>, usize),
}

impl View for ParseError {
    type V = ParseErrorView;

    open spec fn view(&self) -> ParseErrorView {
        match self {
            ParseError::InvalidTable(k, l) => ParseErrorView::InvalidTable(k@, *l),
            ParseError::MixedArray(k, l) => ParseErrorView::MixedArray(k@, *l),
        }
    }
}

/// The state kept while reading a document.
pub struct ParseState {
    pub map: KeyMap,
    pub tables: Vec<TableType>,
    pub tables_index: Vec<usize>,
    pub array_error: bool,
    pub last_array_type: Vec<ArrayType>,
    pub errors: Vec<ParseError>,
}

pub struct ParseStateView {
    pub map: Map<Seq<char>, EntryView>,
    pub tables: Seq<TableType>,
    pub tables_index: Seq<usize>,
    pub array_error: bool,
    pub kinds: Seq<ArrayType>,
    pub errors: Seq<ParseErrorView>,
}

impl View for ParseState {
    type V = ParseStateView;

    open spec fn view(&self) -> ParseStateView {
        ParseStateView {
            map: self.map@,
            tables: self.tables@,
            tables_index: self.tables_index@,
            array_error: self.array_error,
            kinds: self.last_array_type@,
            errors: self.errors@.map_values(|e: ParseError| e@),
        }
    }
}

/// The name of the last key of a header.
pub open spec fn last_key_name(t: TableType) -> Seq<char> {
    t.table().keys@.last().key@
}

/// Whether the entry at `key` is a table that a header has defined.
pub open spec fn table_defined(m: Map<Seq<char>, EntryView>, key: Seq<char>) -> bool {
    m.contains_key(key) && m[key].value == Some(Value::Table)
}

/// The map once the entry at `key` is marked as a defined table: an entry
/// there keeps its subkeys; else a new one has none.
pub open spec fn mark_defined(m: Map<Seq<char>, EntryView>, key: Seq<char>) -> Map<Seq<char>, EntryView> {
    if m.contains_key(key) {
        m.insert(key, EntryView { value: Some(Value::Table), subkeys: m[key].subkeys })
    } else {
        m.insert(key, EntryView { value: Some(Value::Table), subkeys: SubkeysView::Keys(Seq::empty()) })
    }
}

/// Whether a standard table header is refused: it repeats the header on top
/// of the stack, its key path is not valid, or its table is already defined.
/// `table_key` and `key_valid` are the key path of the header once on the
/// stack and whether it is valid.
pub open spec fn std_table_refused(st: ParseStateView, t: TableType, table_key: Seq<char>, key_valid: bool) -> bool {
    std_stack_result(st.tables, t).1 || !key_valid || table_defined(st.map, table_key)
}

/// The map after an accepted standard table header: the tables it implies
/// are registered (where `implicit_valid` holds, from the dotted key
/// `implicit_last_key` of the stack), its name joins the subkeys of its parent
/// at `parent_key`, and its own entry is marked as a defined table.
pub open spec fn std_table_map(
    st: ParseStateView,
    t: TableType,
    table_key: Seq<char>,
    parent_key: Seq<char>,
    implicit_valid: bool,
    implicit_last_key: Seq<char>,
) -> Map<Seq<char>, EntryView> {
    let (m, _) = std_stack_result(st.tables, t);
    let tables = st.tables.subrange(0, m);
    let map1 = if implicit_valid {
        implicit_tables(st.map, tables, t, implicit_last_key).map
    } else {
        st.map
    };
    let map2 = table_set_result(map1, last_key_name(t), parent_key).1;
    let map3 = mark_defined(map2, table_key);
    table_set_result(map3, last_key_name(t), parent_key).1
}

/// The state after a standard table header `t` read at `line`. The stack of
/// headers is updated first. A refused header adds an InvalidTable error at
/// `table_key` and sets the array error; an accepted one updates the map,
/// clears the array error, and goes on top of the stack with index 0.
pub open spec fn std_table_next(
    st: ParseStateView,
    t: TableType,
    table_key: Seq<char>,
    parent_key: Seq<char>,
    key_valid: bool,
    implicit_valid: bool,
    implicit_last_key: Seq<char>,
    line: usize,
) -> ParseStateView {
    let (m, _) = std_stack_result(st.tables, t);
    let tables = st.tables.subrange(0, m);
    let index = drop_top(st.tables_index, st.tables.len() - m);
    if std_table_refused(st, t, table_key, key_valid) {
        ParseStateView {
            map: st.map,
            tables,
            tables_index: index,
            array_error: true,
            kinds: st.kinds,
            errors: st.errors.push(ParseErrorView::InvalidTable(table_key, line)),
        }
    } else {
        ParseStateView {
            map: std_table_map(st, t, table_key, parent_key, implicit_valid, implicit_last_key),
            tables: tables.push(t),
            tables_index: index.push(0),
            array_error: false,
            kinds: st.kinds,
            errors: st.errors,
        }
    }
}

/// Where reading a standard table header can go on: the header has a key;
/// where it is accepted, the walk of the tables it implies can go on, and its
/// parent, where the map has one after the header's own entry is marked, keeps
/// a set of subkeys rather than a count.
pub open spec fn std_table_allowed(
    st: ParseStateView,
    t: TableType,
    table_key: Seq<char>,
    parent_key: Seq<char>,
    key_valid: bool,
    implicit_valid: bool,
    implicit_last_key: Seq<char>,
) -> bool {
    let (m, _) = std_stack_result(st.tables, t);
    let tables = st.tables.subrange(0, m);
    &&& t.table().keys@.len() > 0
    &&& !std_table_refused(st, t, table_key, key_valid) ==> {
        let map1 = if implicit_valid {
            implicit_tables(st.map, tables, t, implicit_last_key).map
        } else {
            st.map
        };
        let map3 = mark_defined(table_set_result(map1, last_key_name(t), parent_key).1, table_key);
        &&& implicit_valid ==> implicit_tables(st.map, tables, t, implicit_last_key).ok
        &&& map3.contains_key(parent_key) ==> map3[parent_key].subkeys is Keys
    }
}

/// The kinds of the arrays being read once a value of kind `t` is read in the
/// innermost one.
pub open spec fn kinds_after_value(kinds: Seq<ArrayType>, t: ArrayType) -> Seq<ArrayType> {
    if kinds.len() > 0 {
        kinds.drop_last().push(t)
    } else {
        kinds.push(t)
    }
}

/// The key of the last error where it is a mixed array, `Some(None)` where
/// the last error is of another kind, `None` where there is none.
pub open spec fn last_mixed_key(errors: Seq<ParseErrorView>) -> Option<Option<Seq<char>>> {
    if errors.len() == 0 {
        None
    } else {
        match errors.last() {
            ParseErrorView::MixedArray(k, _) => Some(Some(k)),
            _ => Some(None),
        }
    }
}

/// Whether a value of kind `t` in the innermost array is reported as a mixed
/// array, at `full_key`.
pub open spec fn mixed_reported(st: ParseStateView, t: ArrayType, full_key: Seq<char>) -> bool {
    let last = if st.kinds.len() > 0 { st.kinds.last() } else { ArrayType::Unset };
    &&& st.kinds.len() > 0
    &&& last != ArrayType::Unset
    &&& last != t
    &&& match last_mixed_key(st.errors) {
        None => true,
        Some(None) => false,
        Some(Some(k)) => !is_prefix(k, full_key),
    }
}

/// The state after a value of kind `t` is read in an array at `full_key` on
/// `line`: a mixed array is reported where `mixed_reported` says so, and the
/// kind of the innermost array becomes `t`.
pub open spec fn array_value_next(st: ParseStateView, t: ArrayType, full_key: Seq<char>, line: usize) -> ParseStateView {
    ParseStateView {
        map: st.map,
        tables: st.tables,
        tables_index: st.tables_index,
        array_error: st.array_error,
        kinds: kinds_after_value(st.kinds, t),
        errors: if mixed_reported(st, t, full_key) {
            st.errors.push(ParseErrorView::MixedArray(full_key, line))
        } else {
            st.errors
        },
    }
}

/// The kinds once the values of the kinds in `ts` are read in turn.
pub open spec fn kinds_after_values(kinds: Seq<ArrayType>, ts: Seq<ArrayType>) -> Seq<ArrayType>
    decreases ts.len(),
{
    if ts.len() == 0 {
        kinds
    } else {
        kinds_after_value(kinds_after_values(kinds, ts.drop_last()), ts.last())
    }
}

/// Reading an array leaves the kinds of the arrays around it as they were:
/// the array opens with no kind yet, each of its values sets its kind, and it
/// closes by dropping it.
pub proof fn law_array_keeps_kinds(kinds: Seq<ArrayType>, ts: Seq<ArrayType>)
    ensures
        kinds_after_values(kinds.push(ArrayType::Unset), ts).drop_last() == kinds,
        kinds_after_values(kinds.push(ArrayType::Unset), ts).len() == kinds.len() + 1,
    decreases ts.len(),
{
    if ts.len() > 0 {
        law_array_keeps_kinds(kinds, ts.drop_last());
        let k = kinds_after_values(kinds.push(ArrayType::Unset), ts.drop_last());
        assert(kinds_after_value(k, ts.last()).drop_last() =~= k.drop_last());
    } else {
        assert(kinds.push(ArrayType::Unset).drop_last() =~= kinds);
    }
}

/// The map once the count of the array of tables at `key` goes up, where the
/// map has one there.
pub open spec fn count_up(m: Map<Seq<char>, EntryView>, key: Seq<char>) -> Map<Seq<char>, EntryView> {
    if m.contains_key(key) && m[key].subkeys is Count {
        m.insert(key, EntryView { value: m[key].value, subkeys: SubkeysView::Count(m[key].subkeys->Count_0 + 1) })
    } else {
        m
    }
}

/// The index stack once its top goes up by one.
pub open spec fn index_up(index: Seq<usize>) -> Seq<usize> {
    index.update(index.len() - 1, (index.last() + 1) as usize)
}

/// The map once the tables a header implies are registered, where the key
/// path of the stack is valid.
pub open spec fn implicit_or_same(
    m: Map<Seq<char>, EntryView>,
    tables: Seq<TableType>,
    t: TableType,
    implicit_valid: bool,
    implicit_last_key: Seq<char>,
) -> Map<Seq<char>, EntryView> {
    if implicit_valid {
        implicit_tables(m, tables, t, implicit_last_key).map
    } else {
        m
    }
}

/// The map, the stack of headers and the index stack once an array of
/// tables header `t` has been placed: one more table of the array on top is
/// counted, or the tables it implies are registered and it goes on the stack
/// with index 0, and then, where it left every header and the map has its
/// parent, one more table of the parent is counted. `inc_parent` is the key of
/// the parent of the current table once placed.
pub open spec fn array_table_placed(
    st: ParseStateView,
    t: TableType,
    inc_parent: Seq<char>,
    implicit_valid: bool,
    implicit_last_key: Seq<char>,
) -> (Map<Seq<char>, EntryView>, Seq<TableType>, Seq<usize>) {
    let (m, step) = array_stack_result(st.tables, t);
    let tables = st.tables.subrange(0, m);
    let index = drop_top(st.tables_index, st.tables.len() - m);
    let mp = implicit_or_same(st.map, tables, t, implicit_valid, implicit_last_key);
    match step {
        ArrayHeaderStep::Increment => (count_up(st.map, inc_parent), tables, index_up(index)),
        ArrayHeaderStep::Push => (mp, tables.push(t), index.push(0)),
        ArrayHeaderStep::PushAndCheckParent => if mp.contains_key(inc_parent) {
            (count_up(mp, inc_parent), tables.push(t), index_up(index.push(0)))
        } else {
            (mp, tables.push(t), index.push(0))
        },
    }
}

/// An entry with no value and no subkeys.
pub open spec fn no_keys_entry() -> EntryView {
    EntryView { value: None, subkeys: SubkeysView::Keys(Seq::empty()) }
}

/// The state after an array of tables header `t` read on `line`. Once it is
/// placed, `key_valid`, `full_key` and `parent_key` are the key path of the
/// stack, whether it is valid, and its parent: an invalid path adds an
/// InvalidTable error at `full_key`; a valid one gives the table an empty
/// entry, and its parent, where the map has none, an entry counting one table.
/// The array error is cleared.
pub open spec fn array_table_next(
    st: ParseStateView,
    t: TableType,
    inc_parent: Seq<char>,
    implicit_valid: bool,
    implicit_last_key: Seq<char>,
    key_valid: bool,
    full_key: Seq<char>,
    parent_key: Seq<char>,
    line: usize,
) -> ParseStateView {
    let (map1, tables, index) = array_table_placed(st, t, inc_parent, implicit_valid, implicit_last_key);
    ParseStateView {
        map: if !key_valid {
            map1
        } else if !map1.contains_key(parent_key) {
            map1.insert(parent_key, EntryView { value: None, subkeys: SubkeysView::Count(1) }).insert(
                full_key,
                no_keys_entry(),
            )
        } else {
            map1.insert(full_key, no_keys_entry())
        },
        tables,
        tables_index: index,
        array_error: false,
        kinds: st.kinds,
        errors: if key_valid {
            st.errors
        } else {
            st.errors.push(ParseErrorView::InvalidTable(full_key, line))
        },
    }
}

/// Where reading an array of tables header can go on: the walk of the tables
/// it implies can go on where it is made, and where one more table is counted
/// the index stack has a top below the largest index and the count is below
/// the largest count.
pub open spec fn array_table_allowed(
    st: ParseStateView,
    t: TableType,
    inc_parent: Seq<char>,
    implicit_valid: bool,
    implicit_last_key: Seq<char>,
) -> bool {
    let (m, step) = array_stack_result(st.tables, t);
    let tables = st.tables.subrange(0, m);
    let index = drop_top(st.tables_index, st.tables.len() - m);
    let mp = implicit_or_same(st.map, tables, t, implicit_valid, implicit_last_key);
    let small = |mm: Map<Seq<char>, EntryView>|
        mm.contains_key(inc_parent) ==> (mm[inc_parent].subkeys matches SubkeysView::Count(c) ==> c
            < usize::MAX);
    match step {
        ArrayHeaderStep::Increment => index.len() > 0 && index.last() < usize::MAX && small(st.map),
        _ => {
            &&& implicit_valid ==> implicit_tables(st.map, tables, t, implicit_last_key).ok
            &&& small(mp)
        },
    }
}

impl ParseState {
    /// The state before anything is read.
    pub fn new() -> (r: ParseState)
        ensures
            r@.map == Map::<Seq<char>, EntryView>::empty(),
            r@.tables.len() == 0,
            r@.tables_index.len() == 0,
            !r@.array_error,
            r@.kinds.len() == 0,
            r@.errors.len() == 0,
    {
        ParseState {
            map: KeyMap::new(),
            tables: Vec::new(),
            tables_index: Vec::new(),
            array_error: false,
            last_array_type: Vec::new(),
            errors: Vec::new(),
        }
    }

    /// An array starts: its kind is not known yet.
    pub fn array_open(&mut self)
        ensures
            final(self)@ == (ParseStateView { kinds: old(self)@.kinds.push(ArrayType::Unset), ..old(self)@ }),
    {
        self.last_array_type.push(ArrayType::Unset);
    }

    /// An array ends: its kind is dropped.
    pub fn array_close(&mut self)
        ensures
            final(self)@ == (ParseStateView {
                kinds: if old(self)@.kinds.len() > 0 {
                    old(self)@.kinds.drop_last()
                } else {
                    old(self)@.kinds
                },
                ..old(self)@
            }),
    {
        self.last_array_type.pop();
    }
}

impl ParseState {
    /// A standard table header `t` read on `line`. `table_key` and
    /// `key_valid` are the key path of the header once on the stack and
    /// whether it is valid, `parent_key` the key of its parent, and
    /// `implicit_valid` and `implicit_last_key` the key path of the stack
    /// before the header goes on it.
    pub fn std_table_event(
        &mut self,
        t: TableType,
        table_key: String,
        parent_key: String,
        key_valid: bool,
        implicit_valid: bool,
        implicit_last_key: String,
        line: usize,
    )
        requires
            std_table_allowed(old(self)@, t, table_key@, parent_key@, key_valid, implicit_valid,
                implicit_last_key@),
        ensures
            final(self)@ == std_table_next(old(self)@, t, table_key@, parent_key@, key_valid,
                implicit_valid, implicit_last_key@, line),
    {
        let ghost st = self@;
        let dup = TOMLParser::std_table_stack(&mut self.tables, &mut self.tables_index, &t);
        let defined = match self.map.get(table_key.as_str()) {
            Some(h) => match &h.value {
                Some(Value::Table) => true,
                _ => false,
            },
            None => false,
        };
        if dup || !key_valid || defined {
            let ghost tk = table_key@;
            self.errors.push(ParseError::InvalidTable(table_key, line));
            self.array_error = true;
            proof {
                assert(self@.errors =~= st.errors.push(ParseErrorView::InvalidTable(tk, line)));
            }
            return;
        }
        TOMLParser::add_implicit_tables(&mut self.map, &self.tables, &t, implicit_valid, implicit_last_key);
        let name = match &t {
            TableType::Standard(tb) => tb.keys[tb.keys.len() - 1].key.clone(),
            TableType::Array(tb) => tb.keys[tb.keys.len() - 1].key.clone(),
        };
        TOMLParser::add_to_table_set(&mut self.map, name.as_str(), parent_key.as_str());
        self.array_error = false;
        if self.map.contains_key(table_key.as_str()) {
            self.map.mark_table(table_key.as_str());
        } else {
            let h = HashValue::table_keys();
            proof {
                let k = h.subkeys->Keys_0;
                assert(crate::types::key_names(k@) =~= Seq::<Seq<char>>::empty());
                assert(h@.subkeys == SubkeysView::Keys(Seq::<Seq<char>>::empty()));
            }
            self.map.insert(table_key, h);
        }
        TOMLParser::add_to_table_set(&mut self.map, name.as_str(), parent_key.as_str());
        self.tables.push(t);
        self.tables_index.push(0);
        proof {
            assert(self@.errors =~= st.errors);
        }
    }

    /// A value of kind `t` read in an array at `full_key` on `line`.
    pub fn array_value_event(&mut self, t: ArrayType, full_key: String, line: usize)
        ensures
            final(self)@ == array_value_next(old(self)@, t, full_key@, line),
    {
        let ghost st = self@;
        let len = self.last_array_type.len();
        let last = if len > 0 {
            self.last_array_type[len - 1]
        } else {
            ArrayType::Unset
        };
        let n = self.errors.len();
        let lek: Option<Option<&str>> = if n == 0 {
            None
        } else {
            match &self.errors[n - 1] {
                ParseError::MixedArray(k, _) => Some(Some(k.as_str())),
                ParseError::InvalidTable(_, _) => Some(None),
            }
        };
        let report = len > 0 && mixed_array_report(last, t, lek, full_key.as_str());
        proof {
            if n > 0 {
                assert(st.errors.last() == self.errors@[n - 1]@);
            }
            assert(report == mixed_reported(st, t, full_key@));
        }
        if report {
            let ghost fk = full_key@;
            self.errors.push(ParseError::MixedArray(full_key, line));
            proof {
                assert(self@.errors =~= st.errors.push(ParseErrorView::MixedArray(fk, line)));
            }
        }
        self.last_array_type.pop();
        self.last_array_type.push(t);
        proof {
            assert(self@.kinds =~= kinds_after_value(st.kinds, t));
            if !report {
                assert(self@.errors =~= st.errors);
            }
        }
    }
}

impl ParseState {
    /// An array of tables header `t` read on `line`. `inc_parent` is the key
    /// of the parent of the current table once the header is placed, where
    /// one more table is counted; `implicit_valid` and `implicit_last_key` the
    /// key path of the stack before the header goes on it; `key_valid`,
    /// `full_key` and `parent_key` the key path once it is placed.
    pub fn array_table_event(
        &mut self,
        t: TableType,
        inc_parent: String,
        implicit_valid: bool,
        implicit_last_key: String,
        key_valid: bool,
        full_key: String,
        parent_key: String,
        line: usize,
    )
        requires
            array_table_allowed(old(self)@, t, inc_parent@, implicit_valid, implicit_last_key@),
        ensures
            final(self)@ == array_table_next(old(self)@, t, inc_parent@, implicit_valid,
                implicit_last_key@, key_valid, full_key@, parent_key@, line),
    {
        let ghost st = self@;
        let step = TOMLParser::array_table_stack(&mut self.tables, &mut self.tables_index, &t);
        self.array_error = false;
        match step {
            ArrayHeaderStep::Increment => {
                TOMLParser::increment_array_table_index(&mut self.map, &mut self.tables_index, inc_parent.as_str());
            },
            ArrayHeaderStep::Push => {
                TOMLParser::add_implicit_tables(&mut self.map, &self.tables, &t, implicit_valid, implicit_last_key);
                self.tables.push(t);
                self.tables_index.push(0);
            },
            ArrayHeaderStep::PushAndCheckParent => {
                TOMLParser::add_implicit_tables(&mut self.map, &self.tables, &t, implicit_valid, implicit_last_key);
                self.tables.push(t);
                self.tables_index.push(0);
                if self.map.contains_key(inc_parent.as_str()) {
                    TOMLParser::increment_array_table_index(&mut self.map, &mut self.tables_index, inc_parent.as_str());
                }
            },
        }
        let ghost placed = self@;
        if !key_valid {
            let ghost fk = full_key@;
            self.errors.push(ParseError::InvalidTable(full_key, line));
            proof {
                assert(self@.errors =~= st.errors.push(ParseErrorView::InvalidTable(fk, line)));
            }
        } else {
            if !self.map.contains_key(parent_key.as_str()) {
                self.map.insert(parent_key, HashValue::one_count());
            }
            let h = HashValue::none_keys();
            proof {
                let k = h.subkeys->Keys_0;
                assert(crate::types::key_names(k@) =~= Seq::<Seq<char>>::empty());
            }
            self.map.insert(full_key, h);
            proof {
                assert(self@.errors =~= st.errors);
            }
        }
    }
}

/// An accepted standard table header defines its table, and its name joins
/// the set of subkeys of its parent, where the parent keeps one; the header
/// goes on top of the stack, the array error is cleared, and no error is
/// added. A refused one adds an InvalidTable error at its key, sets the array
/// error and leaves the map as it was.
pub proof fn law_std_table_registers(
    st: ParseStateView,
    t: TableType,
    table_key: Seq<char>,
    parent_key: Seq<char>,
    key_valid: bool,
    implicit_valid: bool,
    implicit_last_key: Seq<char>,
    line: usize,
)
    requires
        std_table_allowed(st, t, table_key, parent_key, key_valid, implicit_valid, implicit_last_key),
    ensures
        ({
            let n = std_table_next(st, t, table_key, parent_key, key_valid, implicit_valid,
                implicit_last_key, line);
            &&& !std_table_refused(st, t, table_key, key_valid) ==> {
                &&& table_defined(n.map, table_key)
                &&& n.tables.last() == t
                &&& n.tables_index.last() == 0
                &&& !n.array_error
                &&& n.errors == st.errors
                &&& (st.map.contains_key(parent_key) && st.map[parent_key].subkeys is Keys) ==> {
                    &&& n.map.contains_key(parent_key)
                    &&& n.map[parent_key].subkeys is Keys
                    &&& n.map[parent_key].subkeys->Keys_0.contains(last_key_name(t))
                }
            }
            &&& std_table_refused(st, t, table_key, key_valid) ==> {
                &&& n.map == st.map
                &&& n.array_error
                &&& n.errors == st.errors.push(ParseErrorView::InvalidTable(table_key, line))
            }
        }),
{
    if !std_table_refused(st, t, table_key, key_valid) {
        let (m, _) = std_stack_result(st.tables, t);
        let tables = st.tables.subrange(0, m);
        let name = last_key_name(t);
        let map1 = if implicit_valid {
            implicit_tables(st.map, tables, t, implicit_last_key).map
        } else {
            st.map
        };
        let map2 = table_set_result(map1, name, parent_key).1;
        let map3 = mark_defined(map2, table_key);
        assert(table_defined(map3, table_key));
        if st.map.contains_key(parent_key) && st.map[parent_key].subkeys is Keys {
            if implicit_valid {
                let lk = if tables.len() == 0 { implicit_last_key + crate::ast::keys::root_key() } else { implicit_last_key };
                let last_len: int = if tables.len() == 0 { 1 } else { tables.last().table().keys@.len() as int };
                let start = if lk == crate::ast::keys::root_key() { last_len - 1 } else { last_len };
                let init = crate::objects::ImplicitState { map: st.map, last_key: lk, first: true, ok: start >= 0 };
                lemma_walk_keeps_sets(init, crate::objects::table_key_names(t.table()), start, parent_key);
            }
            assert(map1.contains_key(parent_key) && map1[parent_key].subkeys is Keys);
            let ks = map1[parent_key].subkeys->Keys_0;
            if !ks.contains(name) {
                assert(ks.push(name).contains(name)) by {
                    assert(ks.push(name)[ks.len() as int] == name);
                }
            }
            assert(map2[parent_key].subkeys->Keys_0.contains(name));
            assert(map3.contains_key(parent_key) && map3[parent_key].subkeys is Keys);
            assert(map3[parent_key].subkeys->Keys_0.contains(name));
            assert(table_set_result(map3, name, parent_key).1 == map3);
        } else {
            let e = map3[parent_key];
            if map3.contains_key(parent_key) && e.subkeys is Keys && !e.subkeys->Keys_0.contains(name) {
                assert(table_set_result(map3, name, parent_key).1[table_key].value == map3[table_key].value);
            }
        }
    }
}

proof fn lemma_same_key_found(tables: Seq<TableType>, t: TableType, m: int)
    requires
        m <= tables.len(),
    ensures
        same_key_depth(tables, t, m) <= if m < 0 { 0 } else { m },
        same_key_depth(tables, t, m) > 0 ==> header_key(tables[same_key_depth(tables, t, m) - 1])
            == header_key(t),
    decreases m,
{
    if m > 0 && header_key(tables[m - 1]) != header_key(t) {
        lemma_same_key_found(tables, t, m - 1);
    }
}

/// An array of tables header for an array that the map already counts
/// `c` tables of starts one more table of it: where a header stays on the
/// stack once the standard table on top is left, or the new header leaves
/// every one, the count at `inc_parent` becomes `c + 1`, the top of the stack
/// is a header with the same name, and its index is past the first table.
/// (Where the stack is empty once a standard table on top is left, the header
/// is pushed without counting, as where it names a table below the top.)
pub proof fn law_array_table_counts(
    st: ParseStateView,
    t: TableType,
    inc_parent: Seq<char>,
    implicit_last_key: Seq<char>,
    key_valid: bool,
    full_key: Seq<char>,
    parent_key: Seq<char>,
    line: usize,
    c: nat,
)
    requires
        array_table_allowed(st, t, inc_parent, false, implicit_last_key),
        array_stack_result(st.tables, t).1 != ArrayHeaderStep::Push,
        st.map.contains_key(inc_parent),
        st.map[inc_parent].subkeys == SubkeysView::Count(c),
        key_valid ==> full_key != inc_parent,
    ensures
        ({
            let n = array_table_next(st, t, inc_parent, false, implicit_last_key, key_valid, full_key,
                parent_key, line);
            &&& n.map.contains_key(inc_parent)
            &&& n.map[inc_parent].subkeys == SubkeysView::Count(c + 1)
            &&& n.tables.len() > 0
            &&& header_key(n.tables.last()) == header_key(t)
            &&& n.tables_index.len() > 0
            &&& n.tables_index.last() >= 1
        }),
{
    let (m, step) = array_stack_result(st.tables, t);
    let len = st.tables.len() as int;
    let m0 = if len > 0 && st.tables.last() is Standard { len - 1 } else { len };
    if m0 > 0 && header_key(t) != header_key(st.tables[m0 - 1]) && !crate::objects::below(t, st.tables[m0 - 1]) {
        lemma_same_key_found(st.tables, t, m0 - 1);
    }
    let tables = st.tables.subrange(0, m);
    let (map1, tables1, index1) = array_table_placed(st, t, inc_parent, false, implicit_last_key);
    assert(map1.contains_key(inc_parent) && map1[inc_parent].subkeys == SubkeysView::Count(c + 1));
    if step == ArrayHeaderStep::Increment {
        assert(tables1 == tables);
        assert(tables1.last() == st.tables[m - 1]);
    }
}

} // verus!
