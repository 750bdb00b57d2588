use vstd::prelude::*;
use vstd::string::StrSliceExecFns;
use crate::ast::structs::{Table, TableType, WSKeySep};

verus! {

/// The keys of a header joined by dots, without the whitespace around them.
pub open spec fn joined_keys(s: Seq<WSKeySep>) -> Seq<char>
    decreases s.len(),
{
    if s.len() == 0 {
        Seq::empty()
    } else if s.len() == 1 {
        s[0].key@
    } else {
        joined_keys(s.drop_last()) + seq!['.'] + s.last().key@
    }
}

/// The dotted name of a table: its keys joined by `.`.
pub fn format_keys(t: &Table) -> (s: String)
    ensures
        s@ == joined_keys(t.keys@),
{
    let mut s = String::new();
    if t.keys.len() > 0 {
        s.append(t.keys[0].key.as_str());
        proof {
            assert(t.keys@.subrange(0, 1).len() == 1);
        }
        let mut i: usize = 1;
        while i < t.keys.len()
            invariant
                1 <= i <= t.keys.len(),
                s@ == joined_keys(t.keys@.subrange(0, i as int)),
            decreases t.keys.len() - i,
        {
            s.append(".");
            s.append(t.keys[i].key.as_str());
            proof {
                reveal_strlit(".");
                let sub = t.keys@.subrange(0, i + 1);
                assert(sub.drop_last() == t.keys@.subrange(0, i as int));
                assert(s@ =~= joined_keys(sub));
            }
            i = i + 1;
        }
        proof {
            assert(t.keys@.subrange(0, t.keys.len() as int) == t.keys@);
        }
    }
    s
}

/// The dotted name of the table in a header, whatever its kind.
pub fn format_tt_keys(tabletype: &TableType) -> (s: String)
    ensures
        s@ == joined_keys(tabletype.table().keys@),
{
    match tabletype {
        TableType::Standard(t) | TableType::Array(t) => format_keys(t),
    }
}

/// The name of the root table.
pub open spec fn root_key() -> Seq<char> {
    seq!['$', 'R', 'o', 'o', 't', '$']
}

/// The keys that a table adds to the one before it: with no table before it,
/// the root's name and then all of its keys; otherwise its keys past the
/// number of keys of the table before it.
pub open spec fn last_keys(last_table: Option<Table>, t: Table) -> Seq<Seq<char>> {
    let names = t.keys@.map_values(|k: WSKeySep| k.key@);
    match last_table {
        None => seq![root_key()] + names,
        Some(lt) => if lt.keys@.len() <= names.len() {
            names.subrange(lt.keys@.len() as int, names.len() as int)
        } else {
            Seq::empty()
        },
    }
}

pub fn get_last_keys(last_table: Option<&Table>, t: &Table) -> (r: Vec<String>)
    ensures
        r@.map_values(|s: String| s@) == last_keys(
            match last_table {
                Some(lt) => Some(*lt),
                None => None,
            },
            *t,
        ),
{
    let ghost names = t.keys@.map_values(|k: WSKeySep| k.key@);
    match last_table {
        None => {
            let mut last_keys: Vec<String> = Vec::new();
            last_keys.push(String::from_str("$Root$"));
            proof {
                reveal_strlit("$Root$");
                assert(last_keys@[0]@ =~= root_key());
            }
            let mut i: usize = 0;
            while i < t.keys.len()
                invariant
                    i <= t.keys.len(),
                    names == t.keys@.map_values(|k: WSKeySep| k.key@),
                    last_keys@.len() == i + 1,
                    last_keys@[0]@ == root_key(),
                    forall|j: int| 0 <= j < i ==> #[trigger] last_keys@[j + 1]@ == names[j],
                decreases t.keys.len() - i,
            {
                last_keys.push(t.keys[i].key.clone());
                i = i + 1;
            }
            proof {
                let r = last_keys@.map_values(|s: String| s@);
                let e = seq![root_key()] + names;
                assert(r.len() == e.len());
                assert forall|j: int| 0 <= j < r.len() implies r[j] == e[j] by {
                    if j > 0 {
                        assert(last_keys@[(j - 1) + 1]@ == names[j - 1]);
                    }
                }
                assert(r =~= e);
            }
            last_keys
        },
        Some(lt) => {
            let len_last = lt.keys.len();
            let len = t.keys.len();
            let mut last_keys: Vec<String> = Vec::new();
            let mut i: usize = len_last;
            while i < len
                invariant
                    len_last <= i <= len || (len_last > len && i == len_last),
                    len == t.keys@.len(),
                    names == t.keys@.map_values(|k: WSKeySep| k.key@),
                    len_last <= len ==> last_keys@.len() == i - len_last,
                    len_last > len ==> last_keys@.len() == 0,
                    forall|j: int|
                        0 <= j < last_keys@.len() ==> #[trigger] last_keys@[j]@ == names[len_last + j],
                decreases len - i,
            {
                last_keys.push(t.keys[i].key.clone());
                i = i + 1;
            }
            proof {
                let r = last_keys@.map_values(|s: String| s@);
                if len_last <= len {
                    let e = names.subrange(len_last as int, len as int);
                    assert forall|j: int| 0 <= j < r.len() implies r[j] == e[j] by {
                        assert(last_keys@[j]@ == names[len_last + j]);
                    }
                    assert(r =~= e);
                } else {
                    assert(r =~= Seq::<Seq<char>>::empty());
                }
            }
            last_keys
        },
    }
}

/// Whether `prefix` begins `s`.
pub open spec fn is_prefix(prefix: Seq<char>, s: Seq<char>) -> bool {
    prefix.len() <= s.len() && s.subrange(0, prefix.len() as int) == prefix
}

/// Whether the text of `prefix` begins the text of `s`.
pub fn starts_with(s: &str, prefix: &str) -> (r: bool)
    ensures
        r == is_prefix(prefix@, s@),
{
    let n = prefix.unicode_len();
    let m = s.unicode_len();
    if n > m {
        return false;
    }
    let mut i: usize = 0;
    while i < n
        invariant
            i <= n <= m,
            n == prefix@.len(),
            m == s@.len(),
            forall|j: int| 0 <= j < i ==> s@[j] == prefix@[j],
        decreases n - i,
    {
        if s.get_char(i) != prefix.get_char(i) {
            return false;
        }
        i = i + 1;
    }
    proof {
        assert(s@.subrange(0, n as int) =~= prefix@);
    }
    true
}

impl TableType {
    /// Whether this header names the table of `prev` or one below it: whether
    /// the dotted name of `prev` begins the dotted name of this one.
    pub fn is_subtable_of(&self, prev: &TableType) -> (r: bool)
        ensures
            r == is_prefix(joined_keys(prev.table().keys@), joined_keys(self.table().keys@)),
    {
        let prev_key = format_tt_keys(prev);
        let key = format_tt_keys(self);
        starts_with(key.as_str(), prev_key.as_str())
    }
}

} // verus!
