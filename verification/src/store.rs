//! The shortcut store: an in-memory mapping of names to paths with unique
//! names, loaded from the backing file's text by the codec and persisted
//! back through it.
//!
//! The store is a per-invocation view of the backing file: it is decoded
//! fresh, queried or mutated once, and (for removals) re-encoded and
//! written back whole. Entry order is the order of each name's first line
//! in the file, so re-encoding the same logical content always yields the
//! same text.

use vstd::prelude::*;

use crate::codec::index_of_name;
use crate::codec::lemma_index_of_name;
use crate::codec::lemma_map_of_contains;
use crate::codec::lemma_map_of_index;
use crate::codec::lemma_remove_name;
use crate::codec::lemma_upsert;
use crate::codec::map_of;
use crate::codec::remove_name_s;
use crate::codec::unique_names;
use crate::codec::upsert_s;
use crate::paths::basename;
use crate::paths::basename_s;

verus! {

/// One shortcut: a name bound to a directory path.
#[derive(Debug)]
pub struct Entry {
    pub name: String,
    pub path: String,
}

impl View for Entry {
    type V = (Seq<char>, Seq<char>);

    open spec fn view(&self) -> (Seq<char>, Seq<char>) {
        (self.name@, self.path@)
    }
}

/// The `(name, path)` pairs of a sequence of entries.
pub open spec fn entries_view(v: Seq<Entry>) -> Seq<(Seq<char>, Seq<char>)> {
    v.map_values(|e: Entry| e@)
}

/// Failure of a store operation: the name to remove or look up is absent,
/// or an implicit name was asked of a path that has no last component.
#[derive(Debug, Clone, Copy, PartialEq, Eq, Structural)]
pub enum StoreError {
    NotFound,
    NoBasename,
}

/// The in-memory mapping from shortcut names to paths.
pub struct Store {
    entries: Vec<Entry>,
}

impl View for Store {
    type V = Seq<(Seq<char>, Seq<char>)>;

    closed spec fn view(&self) -> Seq<(Seq<char>, Seq<char>)> {
        entries_view(self.entries@)
    }
}

impl Store {
    /// A store is well formed when no two of its entries share a name.
    pub open spec fn wf(&self) -> bool {
        unique_names(self@)
    }

    /// The store with no entries.
    pub fn empty() -> (s: Store)
        ensures
            s.wf(),
            s@ == Seq::<(Seq<char>, Seq<char>)>::empty(),
    {
        let s = Store { entries: Vec::new() };
        proof {
            assert(s@ =~= Seq::<(Seq<char>, Seq<char>)>::empty());
        }
        s
    }

    /// Index of the entry named `name`, if any.
    fn find(&self, name: &String) -> (r: Option<usize>)
        ensures
            match r {
                Some(i) => 0 <= i < self@.len() && i == index_of_name(self@, name@),
                None => index_of_name(self@, name@) == -1,
            },
    {
        let n = self.entries.len();
        let mut i: usize = 0;
        while i < n
            invariant
                0 <= i <= n,
                n == self.entries.len(),
                forall|j: int| 0 <= j < i ==> (#[trigger] self@[j]).0 != name@,
            decreases n - i,
        {
            if self.entries[i].name == *name {
                proof {
                    lemma_index_of_name(self@, name@);
                    assert(self@[i as int].0 == name@);
                    let k = index_of_name(self@, name@);
                    if 0 <= k < i as int {
                        assert(self@[k].0 != name@);
                    } else if k > i as int {
                        assert(self@[i as int].0 != name@);
                    }
                }
                return Some(i);
            }
            assert(self@[i as int].0 != name@);
            i += 1;
        }
        proof {
            lemma_index_of_name(self@, name@);
            let k = index_of_name(self@, name@);
            if k >= 0 {
                assert(self@[k].0 == name@);
                assert(self@[k].0 != name@);
            }
        }
        None
    }

    /// Bind `name` to `path` in memory: an existing entry keeps its place
    /// and takes the new path, a new name is appended at the end.
    pub(crate) fn upsert(&mut self, name: String, path: String)
        requires
            old(self).wf(),
        ensures
            final(self).wf(),
            final(self)@ == upsert_s(old(self)@, name@, path@),
    {
        proof {
            lemma_upsert(old(self)@, name@, path@);
        }
        let found = self.find(&name);
        match found {
            Some(i) => {
                let ghost oe = self.entries@;
                let ghost gn = name@;
                let ghost gp = path@;
                self.entries.remove(i);
                self.entries.insert(i, Entry { name, path });
                proof {
                    let ii = i as int;
                    let ne = self.entries@;
                    let u = upsert_s(old(self)@, gn, gp);
                    oe.remove_ensures(ii);
                    oe.remove(ii).insert_ensures(ii, ne[ii]);
                    assert(ne == oe.remove(ii).insert(ii, ne[ii]));
                    assert forall|j: int| 0 <= j < ne.len() implies entries_view(ne)[j] == u[j]
                        by {
                        if j < ii {
                            assert(ne[j] == oe.remove(ii)[j]);
                            assert(oe.remove(ii)[j] == oe[j]);
                        } else if j > ii {
                            assert(ne[j] == oe.remove(ii)[j - 1]);
                            assert(oe.remove(ii)[j - 1] == oe[j]);
                        }
                    }
                    assert(self@ =~= u);
                }
            },
            None => {
                self.entries.push(Entry { name, path });
                proof {
                    assert(self@ =~= upsert_s(old(self)@, name@, path@));
                }
            },
        }
    }

    /// Resolve `name` to its bound path; fails with `NotFound`, and only
    /// with it, when no entry carries the name.
    pub fn lookup(&self, name: &String) -> (r: Result<String, StoreError>)
        requires
            self.wf(),
        ensures
            match r {
                Ok(p) => map_of(self@).contains_key(name@) && p@ == map_of(self@)[name@],
                Err(e) => e == StoreError::NotFound && !map_of(self@).contains_key(name@),
            },
    {
        proof {
            lemma_index_of_name(self@, name@);
            lemma_map_of_contains(self@, name@);
        }
        match self.find(name) {
            Some(i) => {
                proof {
                    lemma_map_of_index(self@, i as int);
                }
                Ok(self.entries[i].path.clone())
            },
            None => Err(StoreError::NotFound),
        }
    }

    /// Remove the entry named `name` from memory and hand back its path;
    /// fails with `NotFound`, and only with it, when the name is absent,
    /// leaving the store unchanged.
    pub fn remove(&mut self, name: &String) -> (r: Result<String, StoreError>)
        requires
            old(self).wf(),
        ensures
            final(self).wf(),
            final(self)@ == remove_name_s(old(self)@, name@),
            map_of(final(self)@) == map_of(old(self)@).remove(name@),
            match r {
                Ok(p) => map_of(old(self)@).contains_key(name@) && p@ == map_of(old(self)@)[
                    name@],
                Err(e) => e == StoreError::NotFound && !map_of(old(self)@).contains_key(name@)
                    && final(self)@ == old(self)@,
            },
    {
        proof {
            lemma_index_of_name(self@, name@);
            lemma_map_of_contains(self@, name@);
            lemma_remove_name(self@, name@);
        }
        match self.find(name) {
            Some(i) => {
                proof {
                    lemma_map_of_index(self@, i as int);
                }
                let ghost oe = self.entries@;
                let e = self.entries.remove(i);
                proof {
                    oe.remove_ensures(i as int);
                    assert(self@ =~= entries_view(oe).remove(i as int));
                }
                Ok(e.path)
            },
            None => Err(StoreError::NotFound),
        }
    }

    /// The effective name of an add: the given name when one was passed,
    /// else the basename of the working directory; fails with
    /// `NoBasename`, and only then, when no name was given and the
    /// directory has none.
    pub fn resolve_name(name: Option<String>, cwd: &str) -> (r: Result<String, StoreError>)
        ensures
            match name {
                Some(n) => r matches Ok(s) && s@ == n@,
                None => match r {
                    Ok(s) => basename_s(cwd@) == Some(s@),
                    Err(e) => e == StoreError::NoBasename && basename_s(cwd@) is None,
                },
            },
    {
        match name {
            Some(n) => Ok(n),
            None => match basename(cwd) {
                Some(b) => Ok(b),
                None => Err(StoreError::NoBasename),
            },
        }
    }

    /// All entries, in stable store order, for display.
    pub fn list(&self) -> (r: &Vec<Entry>)
        ensures
            entries_view(r@) == self@,
    {
        &self.entries
    }
}

} // verus!
