//! The path store: an ordered sequence of uniquely named entries, loaded
//! from and serialized to the persisted text form.
//!
//! The store holds no file handle itself: the caller reads the backing file
//! and hands its content to [`PathStore::load`], and after each mutation
//! writes [`PathStore::serialize`] back (for [`PathStore::purge`], truncates
//! to zero length). Likewise, whether a path exists on the filesystem is
//! checked by the caller and passed to [`PathStore::add`] as a plain flag.

use vstd::prelude::*;
use vstd::string::StrSliceExecFns;

use crate::codec::{
    contains_delim, is_line_of, lemma_parse_entries_ok, parse_content, parse_lines,
    serialize_entries, spec_serialize, valid_line,
};
use crate::entry::{entry_ok, find_index_upto, has_delim, models, names_unique, Entry, EntryModel};
use crate::errors::{AddError, ParseError, RemoveError};

verus! {

/// The first entry of `es` named `name`, if any. Case-sensitive.
pub open spec fn spec_find(es: Seq<EntryModel>, name: Seq<char>) -> Option<EntryModel>
    decreases es.len(),
{
    if es.len() == 0 {
        None
    } else if es[0].name == name {
        Some(es[0])
    } else {
        spec_find(es.skip(1), name)
    }
}

/// The lookup misses exactly when no entry carries the name.
pub proof fn lemma_spec_find_none_iff(es: Seq<EntryModel>, name: Seq<char>)
    ensures
        spec_find(es, name) is None <==> (forall|j: int|
            0 <= j < es.len() ==> (#[trigger] es[j]).name != name),
    decreases es.len(),
{
    if es.len() > 0 {
        lemma_spec_find_none_iff(es.skip(1), name);
        if spec_find(es, name) is None {
            assert(es[0].name != name);
            assert forall|j: int| 0 <= j < es.len() implies (#[trigger] es[j]).name != name by {
                if j > 0 {
                    assert(es.skip(1)[j - 1] == es[j]);
                }
            }
        }
        if forall|j: int| 0 <= j < es.len() ==> (#[trigger] es[j]).name != name {
            assert(es[0].name != name);
            assert forall|j: int|
                0 <= j < es.skip(1).len() implies (#[trigger] es.skip(1)[j]).name != name by {
                assert(es.skip(1)[j] == es[j + 1]);
            }
            assert(spec_find(es.skip(1), name) is None);
        }
    }
}

/// If `es[i]` is the first entry named `name`, the lookup returns it.
pub proof fn lemma_spec_find_at(es: Seq<EntryModel>, name: Seq<char>, i: int)
    requires
        0 <= i < es.len(),
        es[i].name == name,
        forall|j: int| 0 <= j < i ==> es[j].name != name,
    ensures
        spec_find(es, name) == Some(es[i]),
    decreases es.len(),
{
    if i > 0 {
        assert forall|j: int| 0 <= j < es.skip(1).len() implies es.skip(1)[j] == es[j + 1] by {}
        lemma_spec_find_at(es.skip(1), name, i - 1);
    }
}

/// ADD THEN FIND: after an entry with a fresh name is appended, looking that
/// name up returns exactly the appended entry.
pub proof fn lemma_find_added(es: Seq<EntryModel>, e: EntryModel)
    requires
        spec_find(es, e.name) is None,
    ensures
        spec_find(es.push(e), e.name) == Some(e),
{
    lemma_spec_find_none_iff(es, e.name);
    assert(es.push(e)[es.len() as int] == e);
    assert forall|j: int| 0 <= j < es.len() implies es.push(e)[j].name != e.name by {
        assert(es.push(e)[j] == es[j]);
    }
    lemma_spec_find_at(es.push(e), e.name, es.len() as int);
}

/// The store: an ordered sequence of entries, insertion order preserved,
/// with unique, delimiter-free names and delimiter-free paths.
pub struct PathStore {
    entries: Vec<Entry>,
}

impl View for PathStore {
    type V = Seq<EntryModel>;

    closed spec fn view(&self) -> Seq<EntryModel> {
        models(self.entries@)
    }
}

impl PathStore {
    /// The store invariant: no two entries share a name, and no field
    /// contains the delimiter (so the store can always be serialized and
    /// loaded back).
    pub open spec fn wf(&self) -> bool {
        &&& names_unique(self@)
        &&& forall|i: int| 0 <= i < self@.len() ==> entry_ok(#[trigger] self@[i])
    }

    /// An empty store.
    pub fn new() -> (s: Self)
        ensures
            s@ == Seq::<EntryModel>::empty(),
            s.wf(),
    {
        let s = PathStore { entries: Vec::new() };
        proof {
            assert(s@ =~= Seq::<EntryModel>::empty());
        }
        s
    }

    /// Construct the store from the full content of the backing file.
    ///
    /// Succeeds exactly when the content parses ([`parse_lines`]) and no two
    /// lines carry the same name; the entries keep file order. Any malformed
    /// line aborts the whole load: dropping it instead would silently lose
    /// it on the next rewrite.
    pub fn load(content: &str) -> (r: Result<Self, ParseError>)
        ensures
            ({
                let parsed = parse_lines(content@);
                match r {
                    Ok(s) => {
                        &&& parsed == Some(s@)
                        &&& s.wf()
                    },
                    Err(ParseError::MalformedLine(line)) => {
                        &&& parsed is None
                        &&& !valid_line(line@)
                        &&& line@.len() > 0
                        &&& exists|a: int, b: int|
                            is_line_of(content@, a, b) && line@ == content@.subrange(a, b)
                    },
                    Err(ParseError::DuplicateName(name)) => {
                        &&& parsed is Some
                        &&& !names_unique(parsed.unwrap())
                        &&& exists|a: int, b: int|
                            0 <= a < b < parsed.unwrap().len() && parsed.unwrap()[a].name == name@
                                && parsed.unwrap()[b].name == name@
                    },
                }
            }),
    {
        match parse_content(content) {
            Ok(es) => {
                proof {
                    lemma_parse_entries_ok(content@);
                }
                Ok(PathStore { entries: es })
            },
            Err(e) => Err(e),
        }
    }

    /// All entries, in insertion order, for display.
    pub fn list(&self) -> (r: &Vec<Entry>)
        ensures
            models(r@) == self@,
    {
        &self.entries
    }

    /// Serialize the whole store to the persisted text form; this is what
    /// the caller writes back over the backing file after a mutation.
    pub fn serialize(&self) -> (r: String)
        ensures
            r@ == spec_serialize(self@),
    {
        serialize_entries(&self.entries)
    }

    /// Exact, case-sensitive lookup of a name.
    pub fn find(&self, name: &String) -> (r: Option<&Entry>)
        ensures
            match r {
                Some(e) => spec_find(self@, name@) == Some(e@),
                None => spec_find(self@, name@) is None,
            },
    {
        match find_index_upto(&self.entries, name, self.entries.len()) {
            Some(i) => {
                proof {
                    assert(self@[i as int] == self.entries@[i as int]@);
                    lemma_spec_find_at(self@, name@, i as int);
                }
                Some(&self.entries[i])
            },
            None => {
                proof {
                    lemma_spec_find_none_iff(self@, name@);
                }
                None
            },
        }
    }

    /// Append a new entry.
    ///
    /// `path` must already be normalized (see [`normalize_path`]), and
    /// `path_exists` says whether it names an existing filesystem entry —
    /// only the caller can check that. The store is left unchanged on every
    /// error: a name that is already present is rejected rather than
    /// overwritten, a path that does not exist is rejected, and so is a name
    /// or path containing the delimiter.
    pub fn add(&mut self, name: String, path: String, path_exists: bool) -> (r: Result<
        Entry,
        AddError,
    >)
        requires
            old(self).wf(),
        ensures
            final(self).wf(),
            match r {
                Ok(e) => {
                    &&& e@ == (EntryModel { name: name@, path: path@ })
                    &&& final(self)@ == old(self)@.push(e@)
                    &&& spec_find(old(self)@, name@) is None
                    &&& path_exists
                    &&& !has_delim(name@)
                    &&& !has_delim(path@)
                },
                Err(AddError::DuplicateName { existing_path }) => {
                    &&& final(self)@ == old(self)@
                    &&& spec_find(old(self)@, name@) is Some
                    &&& existing_path@ == spec_find(old(self)@, name@).unwrap().path
                },
                Err(AddError::PathNotFound { path: p }) => {
                    &&& final(self)@ == old(self)@
                    &&& spec_find(old(self)@, name@) is None
                    &&& !path_exists
                    &&& p@ == path@
                },
                Err(AddError::InvalidCharacters) => {
                    &&& final(self)@ == old(self)@
                    &&& spec_find(old(self)@, name@) is None
                    &&& path_exists
                    &&& has_delim(name@) || has_delim(path@)
                },
            },
    {
        match find_index_upto(&self.entries, &name, self.entries.len()) {
            Some(i) => {
                proof {
                    assert(self@[i as int] == self.entries@[i as int]@);
                    lemma_spec_find_at(self@, name@, i as int);
                }
                let existing_path = self.entries[i].path.clone();
                return Err(AddError::DuplicateName { existing_path });
            },
            None => {
                proof {
                    lemma_spec_find_none_iff(self@, name@);
                }
            },
        }
        if !path_exists {
            return Err(AddError::PathNotFound { path });
        }
        if contains_delim(&name) || contains_delim(&path) {
            return Err(AddError::InvalidCharacters);
        }
        let added = Entry { name: name.clone(), path: path.clone() };
        let ghost before = self@;
        self.entries.push(Entry { name, path });
        proof {
            assert(self@ =~= before.push(added@));
            lemma_spec_find_none_iff(before, added@.name);
            assert forall|a: int, b: int|
                0 <= a < b < self@.len() implies self@[a].name != self@[b].name by {
                if b < before.len() {
                    assert(self@[a] == before[a]);
                    assert(self@[b] == before[b]);
                } else {
                    assert(self@[a] == before[a]);
                    assert(self@[b] == added@);
                }
            }
            assert forall|i: int| 0 <= i < self@.len() implies entry_ok(#[trigger] self@[i]) by {
                if i < before.len() {
                    assert(self@[i] == before[i]);
                } else {
                    assert(self@[i] == added@);
                }
            }
        }
        Ok(added)
    }

    /// Remove the entry whose name matches exactly. Removing an absent name
    /// is an error, not a silent no-op, so callers get clear feedback; on
    /// success the store shrinks by exactly one entry and the name no longer
    /// resolves.
    pub fn remove(&mut self, name: &String) -> (r: Result<(), RemoveError>)
        requires
            old(self).wf(),
        ensures
            final(self).wf(),
            match r {
                Ok(u) => {
                    &&& spec_find(old(self)@, name@) is Some
                    &&& final(self)@.len() == old(self)@.len() - 1
                    &&& spec_find(final(self)@, name@) is None
                    &&& exists|i: int|
                        0 <= i < old(self)@.len() && old(self)@[i].name == name@ && final(self)@
                            == old(self)@.remove(i)
                },
                Err(RemoveError::NotFound) => {
                    &&& final(self)@ == old(self)@
                    &&& spec_find(old(self)@, name@) is None
                },
            },
    {
        match find_index_upto(&self.entries, name, self.entries.len()) {
            Some(i) => {
                let ghost before = self@;
                proof {
                    assert(self@[i as int] == self.entries@[i as int]@);
                    lemma_spec_find_at(self@, name@, i as int);
                }
                self.entries.remove(i);
                proof {
                    assert(self@ =~= before.remove(i as int));
                    assert forall|j: int| 0 <= j < self@.len() implies #[trigger] self@[j].name
                        != name@ by {
                        if j < i {
                            assert(self@[j] == before[j]);
                        } else {
                            assert(self@[j] == before[j + 1]);
                        }
                    }
                    lemma_spec_find_none_iff(self@, name@);
                    assert forall|a: int, b: int|
                        0 <= a < b < self@.len() implies self@[a].name != self@[b].name by {
                        let a0 = if a < i {
                            a
                        } else {
                            a + 1
                        };
                        let b0 = if b < i {
                            b
                        } else {
                            b + 1
                        };
                        assert(self@[a] == before[a0]);
                        assert(self@[b] == before[b0]);
                    }
                    assert forall|j: int|
                        0 <= j < self@.len() implies entry_ok(#[trigger] self@[j]) by {
                        if j < i {
                            assert(self@[j] == before[j]);
                        } else {
                            assert(self@[j] == before[j + 1]);
                        }
                    }
                }
                Ok(())
            },
            None => {
                proof {
                    lemma_spec_find_none_iff(self@, name@);
                }
                Err(RemoveError::NotFound)
            },
        }
    }

    /// Unconditionally empty the store. Always succeeds; purging an empty
    /// store is a no-op. The caller truncates the backing file to zero
    /// length afterwards — which [`spec_serialize`] of the emptied store
    /// also yields.
    pub fn purge(&mut self)
        ensures
            final(self)@ == Seq::<EntryModel>::empty(),
            final(self).wf(),
    {
        self.entries = Vec::new();
        proof {
            assert(self@ =~= Seq::<EntryModel>::empty());
        }
    }
}

/// What a raw user-supplied path normalizes to: exactly `.` or `./` stands
/// for the current working directory; any other value is used verbatim —
/// deliberately, other relative paths are stored as given.
pub open spec fn spec_normalize(raw: Seq<char>, cwd: Seq<char>) -> Seq<char> {
    if raw == seq!['.'] || raw == seq!['.', '/'] {
        cwd
    } else {
        raw
    }
}

/// Normalize a raw path against the current working directory `cwd`, which
/// the caller resolved to an absolute string.
pub fn normalize_path(raw: &String, cwd: &String) -> (r: String)
    ensures
        r@ == spec_normalize(raw@, cwd@),
{
    let n = raw.as_str().unicode_len();
    let is_dot = n == 1 && raw.as_str().get_char(0) == '.';
    let is_dot_slash = n == 2 && raw.as_str().get_char(0) == '.' && raw.as_str().get_char(1)
        == '/';
    if is_dot || is_dot_slash {
        proof {
            if is_dot {
                assert(raw@ =~= seq!['.']);
            } else {
                assert(raw@ =~= seq!['.', '/']);
            }
        }
        cwd.clone()
    } else {
        proof {
            assert(raw@ != seq!['.'] && raw@ != seq!['.', '/']) by {
                if raw@ == seq!['.'] {
                    assert(raw@.len() == 1 && raw@[0] == '.');
                }
                if raw@ == seq!['.', '/'] {
                    assert(raw@.len() == 2 && raw@[0] == '.' && raw@[1] == '/');
                }
            }
        }
        raw.clone()
    }
}

} // verus!
