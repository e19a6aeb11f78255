//! The entry type: one name-to-path association, and the basic
//! specifications its fields must satisfy.

use vstd::prelude::*;

verus! {

/// One named path: a user-chosen `name` associated with a filesystem `path`.
#[derive(Debug)]
pub struct Entry {
    pub name: String,
    pub path: String,
}

/// The mathematical model of an [`Entry`]: both fields as character sequences.
pub struct EntryModel {
    pub name: Seq<char>,
    pub path: Seq<char>,
}

impl View for Entry {
    type V = EntryModel;

    open spec fn view(&self) -> EntryModel {
        EntryModel { name: self.name@, path: self.path@ }
    }
}

/// The two-character delimiter separating `name` from `path` on disk
/// occurs in `s` starting at position `i`.
pub open spec fn delim_at(s: Seq<char>, i: int) -> bool {
    0 <= i && i + 2 <= s.len() && s[i] == ':' && s[i + 1] == ':'
}

/// `s` contains the delimiter somewhere.
pub open spec fn has_delim(s: Seq<char>) -> bool {
    exists|i: int| delim_at(s, i)
}

/// A field (name or path) may not contain the delimiter; this is the
/// invariant every stored entry satisfies.
pub open spec fn field_ok(f: Seq<char>) -> bool {
    !has_delim(f)
}

/// Both fields of the entry are free of the delimiter.
pub open spec fn entry_ok(e: EntryModel) -> bool {
    field_ok(e.name) && field_ok(e.path)
}

/// No two entries of the sequence share a name.
pub open spec fn names_unique(es: Seq<EntryModel>) -> bool {
    forall|i: int, j: int| 0 <= i < j < es.len() ==> es[i].name != es[j].name
}

/// The model of a sequence of concrete entries.
pub open spec fn models(es: Seq<Entry>) -> Seq<EntryModel> {
    es.map_values(|e: Entry| e@)
}

/// Index of the first of the leading `upto` entries whose name is exactly
/// `name`, if any. Name comparison is case-sensitive.
pub fn find_index_upto(entries: &Vec<Entry>, name: &String, upto: usize) -> (r: Option<usize>)
    requires
        upto <= entries@.len(),
    ensures
        match r {
            Some(i) => {
                &&& 0 <= i < upto
                &&& entries@[i as int]@.name == name@
                &&& forall|j: int| 0 <= j < i ==> entries@[j]@.name != name@
            },
            None => forall|j: int| 0 <= j < upto ==> entries@[j]@.name != name@,
        },
{
    let mut i: usize = 0;
    while i < upto
        invariant
            i <= upto,
            forall|j: int| 0 <= j < i ==> entries@[j]@.name != name@,
        decreases upto - i,
    {
        if entries[i].name == *name {
            return Some(i);
        }
        i = i + 1;
    }
    None
}

} // verus!
