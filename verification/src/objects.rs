use vstd::prelude::*;
use crate::ast::document::{HashValue, EntryView};
use crate::types::{Children, SubkeysView, key_names};
use crate::ast::structs::{Table, TableType, WSKeySep};
use crate::ast::keys::{root_key, is_prefix, starts_with, joined_keys, format_tt_keys};
use crate::ast::values::{Value, ArrayType};

verus! {

/// The entries of a document by dotted key, each key at most once, kept in
/// the order the keys were first added.
pub struct KeyMap {
    entries: Vec<(String, HashValue)>,
}

impl KeyMap {
    #[verifier::type_invariant]
    spec fn unique_keys(self) -> bool {
        forall|i: int, j: int|
            0 <= i < j < self.entries@.len() ==> #[trigger] self.entries@[i].0@
                != #[trigger] self.entries@[j].0@
    }

    /// Whether some entry has the key.
    pub closed spec fn has(&self, k: Seq<char>) -> bool {
        exists|i: int| 0 <= i < self.entries@.len() && #[trigger] self.entries@[i].0@ == k
    }

    /// The position of the entry with the key.
    spec fn index_of(&self, k: Seq<char>) -> int {
        choose|i: int| 0 <= i < self.entries@.len() && #[trigger] self.entries@[i].0@ == k
    }

    proof fn lemma_index(&self, i: int)
        requires
            self.unique_keys(),
            0 <= i < self.entries@.len(),
        ensures
            self.has(self.entries@[i].0@),
            self.index_of(self.entries@[i].0@) == i,
    {
        let k = self.entries@[i].0@;
        assert(self.entries@[i].0@ == k);
        let j = self.index_of(k);
        if j != i {
            if i < j {
                assert(self.entries@[i].0@ != self.entries@[j].0@);
            } else {
                assert(self.entries@[j].0@ != self.entries@[i].0@);
            }
        }
    }
}

impl View for KeyMap {
    type V = Map<Seq<char>, EntryView>;

    closed spec fn view(&self) -> Map<Seq<char>, EntryView> {
        Map::new(|k: Seq<char>| self.has(k), |k: Seq<char>| self.entries@[self.index_of(k)].1@)
    }
}

impl KeyMap {
    pub fn new() -> (r: KeyMap)
        ensures
            r@ == Map::<Seq<char>, EntryView>::empty(),
    {
        let r = KeyMap { entries: Vec::new() };
        assert(r@ =~= Map::<Seq<char>, EntryView>::empty());
        r
    }

    /// The number of keys.
    pub fn len(&self) -> (n: usize)
        ensures
            n == self@.len(),
    {
        proof {
            use_type_invariant(self);
            self.lemma_len();
        }
        self.entries.len()
    }

    proof fn lemma_len(&self)
        requires
            self.unique_keys(),
        ensures
            self@.dom().finite(),
            self@.len() == self.entries@.len(),
        decreases self.entries@.len(),
    {
        let keys = self.entries@.map_values(|e: (String, HashValue)| e.0@);
        assert forall|i: int, j: int| 0 <= i < j < keys.len() implies keys[i] != keys[j] by {
            assert(self.entries@[i].0@ != self.entries@[j].0@);
        }
        assert(keys.no_duplicates());
        assert(self@.dom() =~= keys.to_set()) by {
            assert forall|k: Seq<char>| self@.dom().contains(k) implies keys.to_set().contains(k) by {
                let i = self.index_of(k);
                assert(keys[i] == k);
            }
            assert forall|k: Seq<char>| keys.to_set().contains(k) implies self@.dom().contains(k) by {
                let i = choose|i: int| 0 <= i < keys.len() && keys[i] == k;
                assert(self.entries@[i].0@ == k);
            }
        }
        keys.unique_seq_to_set();
    }

    /// The position of the entry with the key, where there is one.
    fn find(&self, key: &str) -> (r: Option<usize>)
        ensures
            r.is_some() == self@.contains_key(key@),
            r matches Some(i) ==> i < self.entries@.len() && self.entries@[i as int].0@ == key@
                && self.index_of(key@) == i,
    {
        proof {
            use_type_invariant(self);
        }
        let k = String::from_str(key);
        let mut i: usize = 0;
        while i < self.entries.len()
            invariant
                i <= self.entries@.len(),
                self.unique_keys(),
                k@ == key@,
                forall|j: int| 0 <= j < i ==> self.entries@[j].0@ != key@,
            decreases self.entries.len() - i,
        {
            if self.entries[i].0 == k {
                proof {
                    self.lemma_index(i as int);
                }
                return Some(i);
            }
            i = i + 1;
        }
        None
    }

    pub fn contains_key(&self, key: &str) -> (r: bool)
        ensures
            r == self@.contains_key(key@),
    {
        self.find(key).is_some()
    }

    /// The entry with the key, where there is one.
    pub fn get(&self, key: &str) -> (r: Option<&HashValue>)
        ensures
            r.is_some() == self@.contains_key(key@),
            r matches Some(h) ==> h@ == self@[key@],
    {
        match self.find(key) {
            Some(i) => Some(&self.entries[i].1),
            None => None,
        }
    }

    /// Sets the entry of a key, replacing any entry it had.
    pub fn insert(&mut self, key: String, value: HashValue)
        ensures
            final(self)@ == old(self)@.insert(key@, value@),
    {
        proof {
            use_type_invariant(&*self);
        }
        let ghost old_self = *self;
        let found = self.find(key.as_str());
        let mut entries = Vec::new();
        std::mem::swap(&mut entries, &mut self.entries);
        match found {
            Some(i) => {
                entries.set(i, (key, value));
                let ghost new_self = KeyMap { entries };
                proof {
                    assert forall|a: int, b: int|
                        0 <= a < b < new_self.entries@.len() implies #[trigger] new_self.entries@[a].0@
                        != #[trigger] new_self.entries@[b].0@ by {
                        assert(old_self.entries@[a].0@ != old_self.entries@[b].0@);
                    }
                    assert(new_self.unique_keys());
                    new_self.lemma_replaced(&old_self, i as int);
                }
                self.entries = entries;
            },
            None => {
                entries.push((key, value));
                let ghost new_self = KeyMap { entries };
                proof {
                    assert forall|a: int, b: int|
                        0 <= a < b < new_self.entries@.len() implies #[trigger] new_self.entries@[a].0@
                        != #[trigger] new_self.entries@[b].0@ by {
                        if b < old_self.entries@.len() {
                            assert(old_self.entries@[a].0@ != old_self.entries@[b].0@);
                        } else {
                            assert(!old_self.has(new_self.entries@[b].0@));
                            assert(old_self.entries@[a].0@ == new_self.entries@[a].0@);
                        }
                    }
                    new_self.lemma_pushed(&old_self);
                }
                self.entries = entries;
            },
        }
    }

    /// After the entry at `i` is replaced by one with the same key, the map
    /// holds the new entry at that key and is otherwise unchanged.
    proof fn lemma_replaced(&self, old: &KeyMap, i: int)
        requires
            self.unique_keys(),
            old.unique_keys(),
            0 <= i < old.entries@.len(),
            self.entries@.len() == old.entries@.len(),
            self.entries@[i].0@ == old.entries@[i].0@,
            forall|j: int| 0 <= j < old.entries@.len() && j != i ==> self.entries@[j] == old.entries@[j],
        ensures
            self@ == old@.insert(old.entries@[i].0@, self.entries@[i].1@),
    {
        let k = old.entries@[i].0@;
        self.lemma_index(i);
        old.lemma_index(i);
        assert forall|q: Seq<char>| self.has(q) <==> old.has(q) by {
            if self.has(q) {
                let j = self.index_of(q);
                assert(old.entries@[j].0@ == q);
            }
            if old.has(q) {
                let j = old.index_of(q);
                assert(self.entries@[j].0@ == q);
            }
        }
        assert forall|q: Seq<char>| self.has(q) && q != k implies self@[q] == old@[q] by {
            let j = self.index_of(q);
            old.lemma_index(j);
            self.lemma_index(j);
        }
        assert(self@ =~= old@.insert(k, self.entries@[i].1@));
    }

    /// After an entry with a new key is pushed, the map also holds it.
    proof fn lemma_pushed(&self, old: &KeyMap)
        requires
            self.unique_keys(),
            old.unique_keys(),
            self.entries@.len() == old.entries@.len() + 1,
            forall|j: int| 0 <= j < old.entries@.len() ==> self.entries@[j] == old.entries@[j],
        ensures
            self@ == old@.insert(
                self.entries@[old.entries@.len() as int].0@,
                self.entries@[old.entries@.len() as int].1@,
            ),
    {
        let n = old.entries@.len() as int;
        let k = self.entries@[n].0@;
        self.lemma_index(n);
        assert forall|q: Seq<char>| q != k implies (self.has(q) <==> old.has(q)) by {
            if self.has(q) {
                let j = self.index_of(q);
                assert(j != n);
                assert(old.entries@[j].0@ == q);
            }
            if old.has(q) {
                let j = old.index_of(q);
                assert(self.entries@[j].0@ == q);
            }
        }
        assert forall|q: Seq<char>| self.has(q) && q != k implies self@[q] == old@[q] by {
            let j = self.index_of(q);
            assert(j != n);
            old.lemma_index(j);
            self.lemma_index(j);
        }
        assert(self@ =~= old@.insert(k, self.entries@[n].1@));
    }
}

impl KeyMap {
    /// Adds `sub` to the subkeys of the entry at `key`, unless it is there
    /// already; tells whether it was added.
    pub fn insert_subkey(&mut self, key: &str, sub: String) -> (inserted: bool)
        requires
            old(self)@.contains_key(key@),
            old(self)@[key@].subkeys is Keys,
        ensures
            ({
                let e = old(self)@[key@];
                let ks = e.subkeys->Keys_0;
                &&& inserted == !ks.contains(sub@)
                &&& inserted ==> final(self)@ == old(self)@.insert(
                    key@,
                    EntryView { value: e.value, subkeys: SubkeysView::Keys(ks.push(sub@)) },
                )
                &&& !inserted ==> final(self)@ == old(self)@
            }),
    {
        proof {
            use_type_invariant(&*self);
        }
        let ghost old_self = *self;
        let idx = self.find(key).unwrap();
        let mut entries = Vec::new();
        std::mem::swap(&mut entries, &mut self.entries);
        let (k, mut h) = entries.remove(idx);
        let ghost old_h = h;
        let ghost subv = sub@;
        let inserted = match &mut h.subkeys {
            Children::Keys(v) => {
                let ghost vold = v@;
                let r = TOMLParser::insert(v, sub);
                proof {
                    if r {
                        assert(key_names(v@) =~= key_names(vold).push(subv));
                    }
                }
                r
            },
            Children::Count(_) => false,
        };
        entries.insert(idx, (k, h));
        let ghost new_self = KeyMap { entries };
        proof {
            assert forall|j: int| 0 <= j < old_self.entries@.len() && j != idx implies new_self.entries@[j]
                == old_self.entries@[j] by {
                if j < idx {
                } else {
                }
            }
            assert forall|a: int, b: int|
                0 <= a < b < new_self.entries@.len() implies #[trigger] new_self.entries@[a].0@
                != #[trigger] new_self.entries@[b].0@ by {
                assert(old_self.entries@[a].0@ != old_self.entries@[b].0@);
            }
            new_self.lemma_replaced(&old_self, idx as int);
            assert(old_self@[key@] == old_h@);
            if !inserted {
                assert(new_self.entries@[idx as int].1@ == old_self.entries@[idx as int].1@);
                assert(old_self@.insert(key@, old_self.entries@[idx as int].1@) =~= old_self@);
            }
        }
        self.entries = entries;
        inserted
    }

    /// Marks the entry at `key` as a table that a header has defined; its
    /// subkeys stay.
    pub fn mark_table(&mut self, key: &str)
        requires
            old(self)@.contains_key(key@),
        ensures
            final(self)@ == old(self)@.insert(
                key@,
                EntryView { value: Some(Value::Table), subkeys: old(self)@[key@].subkeys },
            ),
    {
        proof {
            use_type_invariant(&*self);
        }
        let ghost old_self = *self;
        let idx = self.find(key).unwrap();
        let mut entries = Vec::new();
        std::mem::swap(&mut entries, &mut self.entries);
        let (k, mut h) = entries.remove(idx);
        let ghost old_h = h;
        h.value = Some(Value::Table);
        entries.insert(idx, (k, h));
        let ghost new_self = KeyMap { entries };
        proof {
            assert forall|j: int| 0 <= j < old_self.entries@.len() && j != idx implies new_self.entries@[j]
                == old_self.entries@[j] by {
                if j < idx {
                } else {
                }
            }
            assert forall|a: int, b: int|
                0 <= a < b < new_self.entries@.len() implies #[trigger] new_self.entries@[a].0@
                != #[trigger] new_self.entries@[b].0@ by {
                assert(old_self.entries@[a].0@ != old_self.entries@[b].0@);
            }
            new_self.lemma_replaced(&old_self, idx as int);
            assert(old_self@[key@] == old_h@);
        }
        self.entries = entries;
    }

    /// Adds one to the count of the entry at `key`.
    pub fn increment_count(&mut self, key: &str)
        requires
            old(self)@.contains_key(key@),
            old(self)@[key@].subkeys matches SubkeysView::Count(c) && c < usize::MAX,
        ensures
            final(self)@ == old(self)@.insert(
                key@,
                EntryView {
                    value: old(self)@[key@].value,
                    subkeys: SubkeysView::Count(old(self)@[key@].subkeys->Count_0 + 1),
                },
            ),
    {
        proof {
            use_type_invariant(&*self);
        }
        let ghost old_self = *self;
        let idx = self.find(key).unwrap();
        let mut entries = Vec::new();
        std::mem::swap(&mut entries, &mut self.entries);
        let (k, mut h) = entries.remove(idx);
        match &mut h.subkeys {
            Children::Count(c) => {
                *c = *c + 1;
            },
            Children::Keys(_) => {},
        }
        entries.insert(idx, (k, h));
        let ghost new_self = KeyMap { entries };
        proof {
            assert forall|j: int| 0 <= j < old_self.entries@.len() && j != idx implies new_self.entries@[j]
                == old_self.entries@[j] by {
                if j < idx {
                } else {
                }
            }
            assert forall|a: int, b: int|
                0 <= a < b < new_self.entries@.len() implies #[trigger] new_self.entries@[a].0@
                != #[trigger] new_self.entries@[b].0@ by {
                assert(old_self.entries@[a].0@ != old_self.entries@[b].0@);
            }
            new_self.lemma_replaced(&old_self, idx as int);
        }
        self.entries = entries;
    }
}

/// What `TOMLParser::insert` answers and leaves: a string whose text is not
/// there yet is appended, and the answer tells whether it was.
pub open spec fn insert_result(v: Seq<String>, x: String) -> (bool, Seq<String>) {
    if key_names(v).contains(x@) {
        (false, v)
    } else {
        (true, v.push(x))
    }
}

/// The parse state that the table helpers read and update: the document's
/// entries by dotted key, and the stack of array-of-tables headers with the
/// index of the current table in each.
pub struct TOMLParser {
    pub map: KeyMap,
    pub last_array_tables: Vec<TableType>,
    pub last_array_tables_index: Vec<usize>,
}

impl TOMLParser {
    pub fn new() -> (r: TOMLParser)
        ensures
            r.map@ == Map::<Seq<char>, EntryView>::empty(),
            r.last_array_tables@.len() == 0,
            r.last_array_tables_index@.len() == 0,
    {
        TOMLParser { map: KeyMap::new(), last_array_tables: Vec::new(), last_array_tables_index: Vec::new() }
    }

    /// Appends `insert` to `vector` unless a string with the same text is
    /// there already; tells whether it appended.
    pub fn insert(vector: &mut Vec<String>, insert: String) -> (r: bool)
        ensures
            (r, final(vector)@) == insert_result(old(vector)@, insert),
    {
        let mut i: usize = 0;
        while i < vector.len()
            invariant
                i <= vector@.len(),
                forall|j: int| 0 <= j < i ==> vector@[j]@ != insert@,
            decreases vector.len() - i,
        {
            if vector[i] == insert {
                proof {
                    assert(key_names(vector@)[i as int] == insert@);
                }
                return false;
            }
            i = i + 1;
        }
        proof {
            assert forall|j: int| 0 <= j < key_names(vector@).len() implies key_names(vector@)[j] != insert@ by {
                assert(key_names(vector@)[j] == vector@[j]@);
            }
        }
        vector.push(insert);
        true
    }

    /// Whether a string in `vector` has the text of `find`.
    pub fn contains(vector: &Vec<String>, find: &str) -> (r: bool)
        ensures
            r == key_names(vector@).contains(find@),
    {
        let f = String::from_str(find);
        let mut i: usize = 0;
        while i < vector.len()
            invariant
                i <= vector@.len(),
                f@ == find@,
                forall|j: int| 0 <= j < i ==> vector@[j]@ != find@,
            decreases vector.len() - i,
        {
            if vector[i] == f {
                proof {
                    assert(key_names(vector@)[i as int] == find@);
                }
                return true;
            }
            i = i + 1;
        }
        proof {
            assert forall|j: int| 0 <= j < key_names(vector@).len() implies key_names(vector@)[j] != find@ by {
                assert(key_names(vector@)[j] == vector@[j]@);
            }
        }
        false
    }

    /// Whether the last header on the stack is a standard table.
    pub fn is_top_std_table(tables: &Vec<TableType>) -> (r: bool)
        ensures
            r == (tables@.len() > 0 && tables@.last() is Standard),
    {
        if tables.len() == 0 {
            false
        } else {
            let len = tables.len();
            if let TableType::Standard(_) = &tables[len - 1] {
                true
            } else {
                false
            }
        }
    }

    /// Whether the stack is not empty and `table` has as many keys as its last
    /// header.
    pub fn equal_key_length(table: &TableType, tables: &Vec<TableType>) -> (r: bool)
        ensures
            r == (tables@.len() > 0 && table.table().keys@.len()
                == tables@.last().table().keys@.len()),
    {
        if tables.len() == 0 {
            false
        } else {
            match table {
                TableType::Array(t1) | TableType::Standard(t1) => {
                    let len = tables.len();
                    match &tables[len - 1] {
                        TableType::Array(t2) | TableType::Standard(t2) => {
                            t1.keys.len() == t2.keys.len()
                        },
                    }
                },
            }
        }
    }
}

/// The kind of array that a value would make.
pub fn map_val_to_array_type(val: &Value) -> (r: ArrayType)
    requires
        !(val is Table),
    ensures
        r == value_array_type(*val),
{
    match val {
        Value::Integer(_) => ArrayType::Integer,
        Value::Float(_) => ArrayType::Float,
        Value::Boolean(_) => ArrayType::Boolean,
        Value::DateTime(_) => ArrayType::DateTime,
        Value::Array(_) => ArrayType::Array,
        Value::String(_, _) => ArrayType::String,
        Value::InlineTable(_) => ArrayType::InlineTable,
        Value::Table => ArrayType::Unset,
    }
}

/// The kind of array that a value would make.
pub open spec fn value_array_type(v: Value) -> ArrayType {
    match v {
        Value::Integer(_) => ArrayType::Integer,
        Value::Float(_) => ArrayType::Float,
        Value::Boolean(_) => ArrayType::Boolean,
        Value::DateTime(_) => ArrayType::DateTime,
        Value::Array(_) => ArrayType::Array,
        Value::String(_, _) => ArrayType::String,
        Value::InlineTable(_) => ArrayType::InlineTable,
        Value::Table => ArrayType::Unset,
    }
}

/// Where `add_implicit_tables` has got to: the map, the dotted key of the
/// table reached, whether no entry has been met yet, and whether it may go on.
pub struct ImplicitState {
    pub map: Map<Seq<char>, EntryView>,
    pub last_key: Seq<char>,
    pub first: bool,
    pub ok: bool,
}

/// An entry with no value and no subkeys.
pub open spec fn empty_keys_entry() -> EntryView {
    EntryView { value: None, subkeys: SubkeysView::Keys(Seq::empty()) }
}

/// One key of a new header, below the table at `st.last_key`. Where that
/// table has an entry, the key is added to its subkeys, or, for an array of
/// tables met first, its count goes up; both tell that something new was
/// added, except a subkey already there. When another key follows, the dotted
/// key moves down to this one, and where something new was added an empty
/// entry is made for it. A count met after the first entry, or one that cannot
/// grow, stops the walk.
pub open spec fn implicit_step(st: ImplicitState, key: Seq<char>, more: bool) -> ImplicitState {
    if !st.ok {
        st
    } else if implicit_broken(st) {
        ImplicitState { map: st.map, last_key: st.last_key, first: st.first, ok: false }
    } else {
        let map1 = implicit_registered(st, key);
        let added = implicit_added(st, key);
        let first1 = st.first && !st.map.contains_key(st.last_key);
        if more {
            let lk = implicit_next_key(st.last_key, key);
            ImplicitState {
                map: if added {
                    map1.insert(lk, empty_keys_entry())
                } else {
                    map1
                },
                last_key: lk,
                first: first1,
                ok: true,
            }
        } else {
            ImplicitState { map: map1, last_key: st.last_key, first: first1, ok: true }
        }
    }
}

/// The entry at `st.last_key` is an array of tables that cannot take one
/// more table here.
pub open spec fn implicit_broken(st: ImplicitState) -> bool {
    st.map.contains_key(st.last_key) && match st.map[st.last_key].subkeys {
        SubkeysView::Count(c) => !st.first || c >= usize::MAX,
        SubkeysView::Keys(_) => false,
    }
}

/// The map once `key` is registered below the entry at `st.last_key`, where
/// there is one.
pub open spec fn implicit_registered(st: ImplicitState, key: Seq<char>) -> Map<Seq<char>, EntryView> {
    let e = st.map[st.last_key];
    if !st.map.contains_key(st.last_key) {
        st.map
    } else {
        match e.subkeys {
            SubkeysView::Keys(ks) => if ks.contains(key) {
                st.map
            } else {
                st.map.insert(
                    st.last_key,
                    EntryView { value: e.value, subkeys: SubkeysView::Keys(ks.push(key)) },
                )
            },
            SubkeysView::Count(c) => st.map.insert(
                st.last_key,
                EntryView { value: e.value, subkeys: SubkeysView::Count(c + 1) },
            ),
        }
    }
}

/// Whether registering `key` added something new.
pub open spec fn implicit_added(st: ImplicitState, key: Seq<char>) -> bool {
    st.map.contains_key(st.last_key) && match st.map[st.last_key].subkeys {
        SubkeysView::Keys(ks) => !ks.contains(key),
        SubkeysView::Count(_) => true,
    }
}

/// The dotted key one level down, at `key`; below the root it is `key` alone.
pub open spec fn implicit_next_key(last_key: Seq<char>, key: Seq<char>) -> Seq<char> {
    if last_key != root_key() {
        last_key + seq!['.'] + key
    } else {
        key
    }
}

/// The walk over the keys from position `i` to the end.
pub open spec fn implicit_run(st: ImplicitState, keys: Seq<Seq<char>>, i: int) -> ImplicitState
    decreases keys.len() - i,
{
    if i >= keys.len() || i < 0 {
        st
    } else {
        implicit_run(implicit_step(st, keys[i], i < keys.len() - 1), keys, i + 1)
    }
}

/// The names of the keys of a table.
pub open spec fn table_key_names(t: Table) -> Seq<Seq<char>> {
    t.keys@.map_values(|k: WSKeySep| k.key@)
}

/// Whether a value of kind `t` that follows values of kind `last` in an array
/// is reported as a mixed array. `last` is `Unset` before the first value.
/// `last_error_key` is `None` where no error was recorded yet, `Some(None)`
/// where the last error is of another kind, and `Some(Some(k))` where it is a
/// mixed array at key `k`; one mixed array is reported once, so a key below
/// the last one reported is not reported again.
pub fn mixed_array_report(last: ArrayType, t: ArrayType, last_error_key: Option<Option<&str>>,
    full_key: &str) -> (report: bool)
    ensures
        report == (last != ArrayType::Unset && last != t && match last_error_key {
            None => true,
            Some(None) => false,
            Some(Some(k)) => !is_prefix(k@, full_key@),
        }),
{
    if last == ArrayType::Unset || last == t {
        return false;
    }
    match last_error_key {
        None => true,
        Some(None) => false,
        Some(Some(k)) => !starts_with(full_key, k),
    }
}

/// What `add_implicit_tables` does with a valid key: the walk starts at the
/// table on top of the stack (the root where the stack is empty), at the first
/// key of the new header that the top table does not have (counting the root's
/// own name as one of its keys).
pub open spec fn implicit_tables(
    map: Map<Seq<char>, EntryView>,
    tables: Seq<TableType>,
    table: TableType,
    last_key: Seq<char>,
) -> ImplicitState {
    let lk = if tables.len() == 0 { last_key + root_key() } else { last_key };
    let last_len: int = if tables.len() == 0 { 1 } else { tables.last().table().keys@.len() as int };
    let start = if lk == root_key() { last_len - 1 } else { last_len };
    let init = ImplicitState { map, last_key: lk, first: true, ok: start >= 0 };
    implicit_run(init, table_key_names(table.table()), start)
}

impl TOMLParser {
    /// Registers the tables that a new header implies without naming them.
    /// `valid` and `last_key` are the parse state's verdict on the key path of
    /// the stack `tables` and the dotted key of its top table; where the path is
    /// not valid nothing changes.
    pub fn add_implicit_tables(
        map: &mut KeyMap,
        tables: &Vec<TableType>,
        table: &TableType,
        valid: bool,
        last_key: String,
    )
        requires
            valid ==> implicit_tables(old(map)@, tables@, *table, last_key@).ok,
        ensures
            !valid ==> final(map)@ == old(map)@,
            valid ==> final(map)@ == implicit_tables(old(map)@, tables@, *table, last_key@).map,
    {
        if !valid {
            return;
        }
        let ghost lk0 = last_key@;
        let mut last_key = last_key;
        let len = tables.len();
        proof {
            reveal_strlit("$Root$");
            reveal_strlit(".");
        }
        let last_len: usize = if len == 0 {
            last_key.append("$Root$");
            1
        } else {
            match &tables[len - 1] {
                TableType::Array(last_at) | TableType::Standard(last_at) => last_at.keys.len(),
            }
        };
        let root = String::from_str("$Root$");
        let tb = match table {
            TableType::Array(tb) | TableType::Standard(tb) => tb,
        };
        let ghost keys = table_key_names(*tb);
        let ghost target = implicit_tables(old(map)@, tables@, *table, lk0);
        let mut first = true;
        let mut start = last_len;
        proof {
            let lk = if tables@.len() == 0 { lk0 + root_key() } else { lk0 };
            assert(last_key@ == lk);
            let ll: int = if tables@.len() == 0 { 1 } else { tables@.last().table().keys@.len() as int };
            assert(last_len == ll);
            assert(root@ == root_key());
            let st0 = if lk == root_key() { ll - 1 } else { ll };
            assert(target == implicit_run(
                ImplicitState { map: old(map)@, last_key: lk, first: true, ok: st0 >= 0 },
                keys,
                st0,
            ));
            if last_len == 0 && last_key@ == root_key() {
                assert(!target.ok);
            }
        }
        if last_key == root {
            start = start - 1;
        }
        let ghost init = ImplicitState { map: map@, last_key: last_key@, first: true, ok: true };
        assert(implicit_run(init, keys, start as int) == target);
        let n = tb.keys.len();
        let mut i = start;
        while i < n
            invariant
                start <= i,
                i <= n || (i == start && start > n),
                n == tb.keys@.len(),
                keys == table_key_names(*tb),
                root@ == root_key(),
                implicit_run(
                    ImplicitState { map: map@, last_key: last_key@, first, ok: true },
                    keys,
                    i as int,
                ) == target,
                target.ok,
            decreases n - i,
        {
            proof {
                reveal_strlit(".");
            }
            let ghost st = ImplicitState { map: map@, last_key: last_key@, first, ok: true };
            let ghost key = keys[i as int];
            assert(tb.keys@[i as int].key@ == key);
            let mut insert = false;
            let occupied = map.contains_key(last_key.as_str());
            if occupied {
                let is_count = match &map.get(last_key.as_str()).unwrap().subkeys {
                    Children::Count(_) => true,
                    Children::Keys(_) => false,
                };
                if is_count {
                    proof {
                        if implicit_broken(st) {
                            lemma_run_stays_broken(implicit_step(st, key, (i as int) < n - 1), keys, i + 1);
                        }
                    }
                    map.increment_count(last_key.as_str());
                    insert = true;
                } else {
                    insert = map.insert_subkey(last_key.as_str(), tb.keys[i].key.clone());
                }
                first = false;
            }
            proof {
                assert(!implicit_broken(st));
                assert(insert == implicit_added(st, key));
                assert(map@ == implicit_registered(st, key));
            }
            if i < n - 1 {
                if last_key != root {
                    last_key.append(".");
                } else {
                    last_key = String::new();
                }
                last_key.append(tb.keys[i].key.as_str());
                assert(last_key@ == implicit_next_key(st.last_key, key));
                if insert {
                    let h = HashValue::none_keys();
                    proof {
                        assert(key_names(h.subkeys->Keys_0@) =~= Seq::<Seq<char>>::empty());
                        assert(h@ == empty_keys_entry());
                    }
                    map.insert(last_key.clone(), h);
                }
            }
            proof {
                assert(implicit_step(st, key, (i as int) < n - 1) == ImplicitState {
                    map: map@,
                    last_key: last_key@,
                    first,
                    ok: true,
                });
            }
            i = i + 1;
        }
    }
}

/// A walk that has stopped stays stopped.
pub proof fn lemma_run_stays_broken(st: ImplicitState, keys: Seq<Seq<char>>, i: int)
    requires
        !st.ok,
    ensures
        !implicit_run(st, keys, i).ok,
    decreases keys.len() - i,
{
    if i < keys.len() && i >= 0 {
        lemma_run_stays_broken(implicit_step(st, keys[i], i < keys.len() - 1), keys, i + 1);
    }
}

/// What `add_to_table_set` answers and leaves: where the entry at `parent`
/// keeps a set of subkeys, `key` is refused when it is in the set and added
/// otherwise; anywhere else it is accepted and nothing changes.
pub open spec fn table_set_result(m: Map<Seq<char>, EntryView>, key: Seq<char>, parent: Seq<char>) -> (
    bool,
    Map<Seq<char>, EntryView>,
) {
    let e = m[parent];
    if m.contains_key(parent) && e.subkeys is Keys {
        let ks = e.subkeys->Keys_0;
        if ks.contains(key) {
            (false, m)
        } else {
            (true, m.insert(parent, EntryView { value: e.value, subkeys: SubkeysView::Keys(ks.push(key)) }))
        }
    } else {
        (true, m)
    }
}

impl TOMLParser {
    /// Moves to the next table of the current array of tables: the count of
    /// the entry at `parent_key` goes up where that entry is an array of
    /// tables, and the index on top of `tables_index` goes up. `parent_key` is
    /// the parse state's dotted key of the parent of the current table.
    pub fn increment_array_table_index(
        map: &mut KeyMap,
        tables_index: &mut Vec<usize>,
        parent_key: &str,
    )
        requires
            old(tables_index)@.len() > 0,
            old(tables_index)@.last() < usize::MAX,
            old(map)@.contains_key(parent_key@) ==> (old(map)@[parent_key@].subkeys matches SubkeysView::Count(c) ==> c < usize::MAX),
        ensures
            final(map)@ == if old(map)@.contains_key(parent_key@) && old(map)@[parent_key@].subkeys is Count {
                old(map)@.insert(
                    parent_key@,
                    EntryView {
                        value: old(map)@[parent_key@].value,
                        subkeys: SubkeysView::Count(old(map)@[parent_key@].subkeys->Count_0 + 1),
                    },
                )
            } else {
                old(map)@
            },
            final(tables_index)@ == old(tables_index)@.update(
                old(tables_index)@.len() - 1,
                (old(tables_index)@.last() + 1) as usize,
            ),
    {
        if map.contains_key(parent_key) {
            let is_count = match &map.get(parent_key).unwrap().subkeys {
                Children::Count(_) => true,
                Children::Keys(_) => false,
            };
            if is_count {
                map.increment_count(parent_key);
            }
        }
        let len = tables_index.len();
        let last_index = tables_index[len - 1];
        tables_index.set(len - 1, last_index + 1);
    }

    /// Records `key` as a subkey of the table at `parent_key`, where that entry
    /// keeps a set of subkeys. Fails when the key is there already: the table
    /// is then being defined twice. `parent_key` is the parse state's dotted
    /// key of the parent of the current table.
    pub fn add_to_table_set(map: &mut KeyMap, key: &str, parent_key: &str) -> (r: bool)
        ensures
            (r, final(map)@) == table_set_result(old(map)@, key@, parent_key@),
    {
        if map.contains_key(parent_key) {
            let keys_set = match &map.get(parent_key).unwrap().subkeys {
                Children::Keys(keys) => Some(TOMLParser::contains(keys, key)),
                Children::Count(_) => None,
            };
            if let Some(contains) = keys_set {
                if contains {
                    return false;
                } else {
                    map.insert_subkey(parent_key, String::from_str(key));
                }
            }
        }
        true
    }
}

/// The dotted name of a header.
pub open spec fn header_key(t: TableType) -> Seq<char> {
    joined_keys(t.table().keys@)
}

/// Whether `t` names the table of `prev` or one below it.
pub open spec fn below(t: TableType, prev: TableType) -> bool {
    is_prefix(header_key(prev), header_key(t))
}

/// How many headers stay on the stack when the first `m` are walked from
/// the top down to one that `t` is below.
pub open spec fn subtable_depth(tables: Seq<TableType>, t: TableType, m: int) -> int
    decreases m,
{
    if m <= 0 {
        0
    } else if below(t, tables[m - 1]) {
        m
    } else {
        subtable_depth(tables, t, m - 1)
    }
}

/// What a new standard table header does to the stack of headers: how many
/// stay, and whether the header repeats the one left on top. A standard table
/// on top, or a top header with as many keys, is left first; where the new
/// header then repeats the top one, that is the answer; else, where it is not
/// below the top one, headers are left until it is below the top one or none
/// is left.
pub open spec fn std_stack_result(tables: Seq<TableType>, t: TableType) -> (int, bool) {
    let len = tables.len() as int;
    let m0 = if len > 0 && (tables.last() is Standard || t.table().keys@.len()
        == tables.last().table().keys@.len()) {
        len - 1
    } else {
        len
    };
    if m0 > 0 && header_key(t) == header_key(tables[m0 - 1]) {
        (m0, true)
    } else {
        let m = if m0 > 0 && !below(t, tables[m0 - 1]) {
            subtable_depth(tables, t, m0 - 1)
        } else {
            m0
        };
        (m, m > 0 && header_key(t) == header_key(tables[m - 1]))
    }
}

/// The index stack once `k` entries are taken off its top, as far as there
/// are any.
pub open spec fn drop_top(s: Seq<usize>, k: int) -> Seq<usize> {
    if k >= s.len() {
        Seq::empty()
    } else {
        s.subrange(0, s.len() - k)
    }
}

proof fn lemma_subtable_depth(tables: Seq<TableType>, t: TableType, m: int)
    requires
        m <= tables.len(),
    ensures
        0 <= subtable_depth(tables, t, m) <= if m < 0 { 0 } else { m },
    decreases m,
{
    if m > 0 && !below(t, tables[m - 1]) {
        lemma_subtable_depth(tables, t, m - 1);
    }
}

/// Whether two texts are the same.
fn same_text(a: &str, b: &str) -> (r: bool)
    ensures
        r == (a@ == b@),
{
    let r = a.unicode_len() == b.unicode_len() && starts_with(a, b);
    proof {
        assert(a@.subrange(0, a@.len() as int) =~= a@);
        if a@.len() == b@.len() && is_prefix(b@, a@) {
            assert(a@ =~= a@.subrange(0, b@.len() as int));
        }
    }
    r
}

impl TOMLParser {
    /// Updates the stack of headers for a new standard table header `t`, and
    /// tells whether `t` repeats the header left on top of it (a table
    /// defined twice). The index stack loses as many entries as the header
    /// stack, as far as it has them.
    pub fn std_table_stack(tables: &mut Vec<TableType>, tables_index: &mut Vec<usize>, t: &TableType)
        -> (duplicate: bool)
        ensures
            ({
                let (m, dup) = std_stack_result(old(tables)@, *t);
                &&& final(tables)@ == old(tables)@.subrange(0, m)
                &&& final(tables_index)@ == drop_top(old(tables_index)@, old(tables)@.len() - m)
                &&& duplicate == dup
            }),
    {
        let ghost t0 = tables@;
        let ghost i0 = tables_index@;
        if TOMLParser::is_top_std_table(tables) || TOMLParser::equal_key_length(t, tables) {
            tables.pop();
            tables_index.pop();
        }
        let ghost m0 = tables@.len() as int;
        assert(tables@ == t0.subrange(0, m0));
        assert(tables_index@ == drop_top(i0, t0.len() - m0));
        let current = format_tt_keys(t);
        let len = tables.len();
        if len > 0 {
            let last = format_tt_keys(&tables[len - 1]);
            if same_text(current.as_str(), last.as_str()) {
                proof {
                    assert(t0[m0 - 1] == tables@[len - 1]);
                }
                return true;
            }
            if !t.is_subtable_of(&tables[len - 1]) {
                proof {
                    assert(t0[m0 - 1] == tables@[len - 1]);
                    lemma_subtable_depth(t0, *t, m0 - 1);
                }
                loop
                    invariant_except_break
                        0 < tables@.len() <= m0,
                        subtable_depth(t0, *t, m0 - 1) == subtable_depth(t0, *t, tables@.len() - 1),
                    invariant
                        tables@ == t0.subrange(0, tables@.len() as int),
                        tables_index@ == drop_top(i0, t0.len() - tables@.len()),
                        tables@.len() <= m0 <= t0.len(),
                    ensures
                        tables@.len() == subtable_depth(t0, *t, m0 - 1),
                    decreases tables@.len(),
                {
                    tables.pop();
                    tables_index.pop();
                    proof {
                        assert(tables_index@ =~= drop_top(i0, t0.len() - tables@.len()));
                    }
                    let l = tables.len();
                    if l == 0 {
                        break;
                    }
                    proof {
                        assert(tables@[l - 1] == t0[l - 1]);
                    }
                    if t.is_subtable_of(&tables[l - 1]) {
                        break;
                    }
                }
            }
        }
        let l = tables.len();
        if l > 0 {
            let last = format_tt_keys(&tables[l - 1]);
            let d = same_text(current.as_str(), last.as_str());
            proof {
                assert(tables@[l - 1] == t0[l - 1]);
            }
            d
        } else {
            false
        }
    }
}

/// What the bookkeeping does next for a new array of tables header, once the
/// stack of headers is updated: count one more table of the array on top,
/// push the header, or push it and count one more table of its parent array
/// where the map has one.
#[derive(Debug, PartialEq, Eq, Structural, Clone, Copy)]
pub enum ArrayHeaderStep {
    Increment,
    Push,
    PushAndCheckParent,
}

/// How many headers stay on the stack when the first `m` are walked from the
/// top down to one with the same dotted name as `t`.
pub open spec fn same_key_depth(tables: Seq<TableType>, t: TableType, m: int) -> int
    decreases m,
{
    if m <= 0 {
        0
    } else if header_key(tables[m - 1]) == header_key(t) {
        m
    } else {
        same_key_depth(tables, t, m - 1)
    }
}

/// What a new array of tables header does to the stack of headers: how many
/// stay, and the next step. A standard table on top is left first. On an
/// empty stack the header is pushed. Where the top header has the same name,
/// one more table of it is counted; where the new header is below it, the
/// header is pushed; else headers are left until one has the same name, whose
/// count goes up, or none is left, and the header is pushed.
pub open spec fn array_stack_result(tables: Seq<TableType>, t: TableType) -> (int, ArrayHeaderStep) {
    let len = tables.len() as int;
    let m0 = if len > 0 && tables.last() is Standard {
        len - 1
    } else {
        len
    };
    if m0 == 0 {
        (0, ArrayHeaderStep::Push)
    } else if header_key(t) == header_key(tables[m0 - 1]) {
        (m0, ArrayHeaderStep::Increment)
    } else if below(t, tables[m0 - 1]) {
        (m0, ArrayHeaderStep::Push)
    } else {
        let m = same_key_depth(tables, t, m0 - 1);
        if m > 0 {
            (m, ArrayHeaderStep::Increment)
        } else {
            (0, ArrayHeaderStep::PushAndCheckParent)
        }
    }
}

proof fn lemma_same_key_depth(tables: Seq<TableType>, t: TableType, m: int)
    requires
        m <= tables.len(),
    ensures
        0 <= same_key_depth(tables, t, m) <= if m < 0 { 0 } else { m },
    decreases m,
{
    if m > 0 && header_key(tables[m - 1]) != header_key(t) {
        lemma_same_key_depth(tables, t, m - 1);
    }
}

impl TOMLParser {
    /// Updates the stack of headers for a new array of tables header `t`, and
    /// tells what to do next; the header itself is not pushed here. The index
    /// stack loses as many entries as the header stack, as far as it has them.
    pub fn array_table_stack(tables: &mut Vec<TableType>, tables_index: &mut Vec<usize>, t: &TableType)
        -> (step: ArrayHeaderStep)
        ensures
            ({
                let (m, st) = array_stack_result(old(tables)@, *t);
                &&& final(tables)@ == old(tables)@.subrange(0, m)
                &&& final(tables_index)@ == drop_top(old(tables_index)@, old(tables)@.len() - m)
                &&& step == st
            }),
    {
        let ghost t0 = tables@;
        let ghost i0 = tables_index@;
        if TOMLParser::is_top_std_table(tables) {
            tables.pop();
            tables_index.pop();
        }
        let ghost m0 = tables@.len() as int;
        assert(tables@ == t0.subrange(0, m0));
        assert(tables_index@ == drop_top(i0, t0.len() - m0));
        let len = tables.len();
        if len == 0 {
            return ArrayHeaderStep::Push;
        }
        proof {
            assert(t0[m0 - 1] == tables@[len - 1]);
        }
        let current = format_tt_keys(t);
        let last = format_tt_keys(&tables[len - 1]);
        if same_text(current.as_str(), last.as_str()) {
            return ArrayHeaderStep::Increment;
        }
        if t.is_subtable_of(&tables[len - 1]) {
            return ArrayHeaderStep::Push;
        }
        proof {
            lemma_same_key_depth(t0, *t, m0 - 1);
        }
        loop
            invariant_except_break
                0 < tables@.len() <= m0,
                same_key_depth(t0, *t, m0 - 1) == same_key_depth(t0, *t, tables@.len() - 1),
            invariant
                tables@ == t0.subrange(0, tables@.len() as int),
                tables_index@ == drop_top(i0, t0.len() - tables@.len()),
                tables@.len() <= m0 <= t0.len(),
                current@ == header_key(*t),
            ensures
                tables@.len() == same_key_depth(t0, *t, m0 - 1),
            decreases tables@.len(),
        {
            tables.pop();
            tables_index.pop();
            proof {
                assert(tables_index@ =~= drop_top(i0, t0.len() - tables@.len()));
            }
            let l = tables.len();
            if l == 0 {
                break;
            }
            proof {
                assert(tables@[l - 1] == t0[l - 1]);
            }
            let k = format_tt_keys(&tables[l - 1]);
            let found = same_text(k.as_str(), current.as_str());
            proof {
                assert(k@ == header_key(t0[l - 1]));
                assert(current@ == header_key(*t));
                assert(found == (header_key(t0[l - 1]) == header_key(*t)));
                if found {
                    assert(same_key_depth(t0, *t, l as int) == l);
                } else {
                    assert(same_key_depth(t0, *t, l as int) == same_key_depth(t0, *t, l - 1));
                }
            }
            if found {
                break;
            }
        }
        if tables.len() > 0 {
            ArrayHeaderStep::Increment
        } else {
            ArrayHeaderStep::PushAndCheckParent
        }
    }
}

} // verus!
