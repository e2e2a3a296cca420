use vstd::prelude::*;
use vstd::string::*;

use crate::strutil::clone_names;
use crate::strutil::distinct_seqs;
use crate::strutil::filter_in;
use crate::strutil::has_prefix;
use crate::strutil::lemma_filter_in_distinct;
use crate::strutil::names_intersection;
use crate::strutil::str_eq;
use crate::strutil::str_starts_with;

verus! {

/// The leader's per-file replication state: each logical file name maps to
/// the ordered list of machines believed to hold a copy. File names are
/// unique and a replica list never repeats a machine.
pub struct ReplicaTable {
    entries: Vec<(String, Vec<String>)>,
}

impl ReplicaTable {
    /// Number of files with an entry.
    pub closed spec fn spec_len(&self) -> int {
        self.entries@.len() as int
    }

    /// The file name of the entry at `i`.
    pub closed spec fn key_at(&self, i: int) -> Seq<char> {
        self.entries@[i].0@
    }

    /// The replica list of the entry at `i`.
    pub closed spec fn replicas_at(&self, i: int) -> Seq<Seq<char>> {
        self.entries@[i].1.deep_view()
    }

    /// The table has an entry for `name`.
    pub open spec fn has_file(&self, name: Seq<char>) -> bool {
        exists|i: int| 0 <= i < self.spec_len() && self.key_at(i) == name
    }

    /// The index of `name`'s entry (meaningful when `has_file` holds and the
    /// table is well formed).
    pub open spec fn index_of(&self, name: Seq<char>) -> int {
        choose|i: int| 0 <= i < self.spec_len() && self.key_at(i) == name
    }

    /// The replica list stored for `name`.
    pub open spec fn replicas_of(&self, name: Seq<char>) -> Seq<Seq<char>> {
        self.replicas_at(self.index_of(name))
    }

    /// File names are unique; no replica list repeats a machine.
    pub open spec fn wf(&self) -> bool {
        &&& forall|i: int, j: int|
            0 <= i < j < self.spec_len() ==> #[trigger] self.key_at(i) != #[trigger] self.key_at(
                j,
            )
        &&& forall|i: int| 0 <= i < self.spec_len() ==> distinct_seqs(#[trigger] self.replicas_at(i))
    }

    /// An empty table.
    pub fn new() -> (r: ReplicaTable)
        ensures
            r.wf(),
            r.spec_len() == 0,
    {
        ReplicaTable { entries: Vec::new() }
    }

    /// Number of files with an entry.
    pub fn len(&self) -> (r: usize)
        ensures
            r == self.spec_len(),
    {
        self.entries.len()
    }

    /// The index of `file`'s entry, if one exists.
    pub fn find(&self, file: &str) -> (r: Option<usize>)
        ensures
            match r {
                Some(i) => i < self.spec_len() && self.key_at(i as int) == file@,
                None => !self.has_file(file@),
            },
    {
        let n = self.entries.len();
        let mut i: usize = 0;
        while i < n
            invariant
                i <= n,
                n == self.spec_len(),
                forall|j: int| 0 <= j < i ==> self.key_at(j) != file@,
            decreases n - i,
        {
            let hit = {
                let e = &self.entries[i];
                str_eq(e.0.as_str(), file)
            };
            if hit {
                return Some(i);
            }
            i = i + 1;
        }
        None
    }

    /// The file name of the entry at `i`.
    pub fn key_of(&self, i: usize) -> (r: String)
        requires
            i < self.spec_len(),
        ensures
            r@ == self.key_at(i as int),
    {
        let e = &self.entries[i];
        e.0.clone()
    }

    /// A copy of the replica list of the entry at `i`.
    pub fn replicas_cloned(&self, i: usize) -> (r: Vec<String>)
        requires
            i < self.spec_len(),
        ensures
            r.deep_view() == self.replicas_at(i as int),
    {
        let e = &self.entries[i];
        clone_names(&e.1)
    }

    /// In a well-formed table the entry found for a name is the entry the
    /// specification functions speak of.
    pub proof fn lemma_index_unique(&self, i: int)
        requires
            self.wf(),
            0 <= i < self.spec_len(),
        ensures
            self.index_of(self.key_at(i)) == i,
            self.replicas_of(self.key_at(i)) == self.replicas_at(i),
    {
        assert(self.has_file(self.key_at(i)));
        let j = self.index_of(self.key_at(i));
        if j != i {
            assert(self.key_at(i) != self.key_at(j));
        }
    }

    /// The replica list of `file`, or nothing when the file is unknown: the
    /// answer a GET or LS receives.
    pub fn get(&self, file: &str) -> (r: Option<Vec<String>>)
        requires
            self.wf(),
        ensures
            match r {
                Some(v) => self.has_file(file@) && v.deep_view() == self.replicas_of(file@),
                None => !self.has_file(file@),
            },
    {
        match self.find(file) {
            Some(i) => {
                proof {
                    self.lemma_index_unique(i as int);
                }
                Some(self.replicas_cloned(i))
            },
            None => None,
        }
    }

    /// Creates or overwrites `file`'s entry with `replicas`. Every other
    /// entry is untouched.
    pub fn install(&mut self, file: &str, replicas: Vec<String>)
        requires
            old(self).wf(),
            distinct_seqs(replicas.deep_view()),
        ensures
            final(self).wf(),
            final(self).has_file(file@),
            final(self).replicas_of(file@) == replicas.deep_view(),
            forall|n: Seq<char>|
                n != file@ ==> #[trigger] final(self).has_file(n) == old(self).has_file(n),
            forall|n: Seq<char>|
                n != file@ && old(self).has_file(n) ==> #[trigger] final(self).replicas_of(n)
                    == old(self).replicas_of(n),
            final(self).spec_len() == old(self).spec_len() + (if old(self).has_file(file@) {
                0int
            } else {
                1int
            }),
    {
        match self.find(file) {
            Some(i) => {
                let key = {
                    let e = &self.entries[i];
                    e.0.clone()
                };
                self.entries[i] = (key, replicas);
                proof {
                    let prev = old(self);
                    assert(forall|j: int|
                        0 <= j < self.spec_len() ==> self.key_at(j) == prev.key_at(j));
                    assert(forall|j: int|
                        0 <= j < self.spec_len() && j != i ==> self.replicas_at(j)
                            == prev.replicas_at(j));
                    assert(self.replicas_at(i as int) == replicas.deep_view());
                    prev.lemma_index_unique(i as int);
                    self.lemma_index_unique(i as int);
                    assert forall|n: Seq<char>| n != file@ implies #[trigger] self.has_file(n)
                        == prev.has_file(n) by {}
                    assert forall|n: Seq<char>| n != file@ && prev.has_file(n) implies #[trigger] self
                        .replicas_of(n) == prev.replicas_of(n) by {
                        let j = prev.index_of(n);
                        prev.lemma_index_unique(j);
                        self.lemma_index_unique(j);
                    }
                }
            },
            None => {
                let key = file.to_owned();
                self.entries.push((key, replicas));
                proof {
                    let prev = old(self);
                    let m = prev.spec_len();
                    assert(self.spec_len() == m + 1);
                    assert(forall|j: int| 0 <= j < m ==> self.key_at(j) == prev.key_at(j));
                    assert(forall|j: int| 0 <= j < m ==> self.replicas_at(j) == prev.replicas_at(j));
                    assert(self.key_at(m) == file@);
                    assert(self.replicas_at(m) == replicas.deep_view());
                    assert(self.wf()) by {
                        assert forall|i: int, j: int| 0 <= i < j < self.spec_len() implies #[trigger] self
                            .key_at(i) != #[trigger] self.key_at(j) by {
                            if j == m {
                                assert(!prev.has_file(file@));
                                assert(prev.key_at(i) != file@);
                            }
                        }
                    }
                    self.lemma_index_unique(m);
                    assert forall|n: Seq<char>| n != file@ implies #[trigger] self.has_file(n)
                        == prev.has_file(n) by {
                        if self.has_file(n) {
                            let j = self.index_of(n);
                            assert(0 <= j < m + 1 && self.key_at(j) == n);
                            assert(j != m);
                            assert(prev.key_at(j) == n);
                        }
                    }
                    assert forall|n: Seq<char>| n != file@ && prev.has_file(n) implies #[trigger] self
                        .replicas_of(n) == prev.replicas_of(n) by {
                        let j = prev.index_of(n);
                        prev.lemma_index_unique(j);
                        self.lemma_index_unique(j);
                    }
                }
            },
        }
    }

    /// Replaces the replica list of the entry at `i`, keeping its name: the
    /// per-entry step of failure handling.
    pub fn set_replicas_at(&mut self, i: usize, replicas: Vec<String>)
        requires
            old(self).wf(),
            i < old(self).spec_len(),
            distinct_seqs(replicas.deep_view()),
        ensures
            final(self).wf(),
            final(self).spec_len() == old(self).spec_len(),
            forall|j: int|
                0 <= j < old(self).spec_len() ==> #[trigger] final(self).key_at(j) == old(
                    self,
                ).key_at(j),
            final(self).replicas_at(i as int) == replicas.deep_view(),
            forall|j: int|
                0 <= j < old(self).spec_len() && j != i ==> #[trigger] final(self).replicas_at(j)
                    == old(self).replicas_at(j),
    {
        let key = {
            let e = &self.entries[i];
            e.0.clone()
        };
        self.entries[i] = (key, replicas);
        proof {
            let prev = old(self);
            assert(forall|j: int| 0 <= j < self.spec_len() ==> self.key_at(j) == prev.key_at(j));
            assert(forall|j: int|
                0 <= j < self.spec_len() && j != i ==> self.replicas_at(j) == prev.replicas_at(j));
            assert(self.replicas_at(i as int) == replicas.deep_view());
        }
    }

    /// Drops `file`'s entry, if any; every other entry is untouched. The
    /// state change of a DELETE.
    pub fn remove(&mut self, file: &str)
        requires
            old(self).wf(),
        ensures
            final(self).wf(),
            !final(self).has_file(file@),
            forall|n: Seq<char>|
                n != file@ ==> #[trigger] final(self).has_file(n) == old(self).has_file(n),
            forall|n: Seq<char>|
                n != file@ && old(self).has_file(n) ==> #[trigger] final(self).replicas_of(n)
                    == old(self).replicas_of(n),
            final(self).spec_len() == old(self).spec_len() - (if old(self).has_file(file@) {
                1int
            } else {
                0int
            }),
    {
        match self.find(file) {
            Some(i) => {
                self.entries.remove(i);
                proof {
                    let prev = old(self);
                    let m = prev.spec_len();
                    assert(self.spec_len() == m - 1);
                    assert forall|j: int| 0 <= j < m - 1 implies #[trigger] self.key_at(j) == (if j
                        < i {
                        prev.key_at(j)
                    } else {
                        prev.key_at(j + 1)
                    }) && #[trigger] self.replicas_at(j) == (if j < i {
                        prev.replicas_at(j)
                    } else {
                        prev.replicas_at(j + 1)
                    }) by {
                        assert(self.entries@ == prev.entries@.remove(i as int));
                        if j < i {
                            assert(self.entries@[j] == prev.entries@[j]);
                        } else {
                            assert(self.entries@[j] == prev.entries@[j + 1]);
                        }
                    }
                    assert(self.wf()) by {
                        assert forall|a: int, b: int| 0 <= a < b < self.spec_len() implies #[trigger] self
                            .key_at(a) != #[trigger] self.key_at(b) by {
                            if b < i {
                                assert(prev.key_at(a) != prev.key_at(b));
                            } else if a < i {
                                assert(prev.key_at(a) != prev.key_at(b + 1));
                            } else {
                                assert(prev.key_at(a + 1) != prev.key_at(b + 1));
                            }
                        }
                        assert forall|j: int| 0 <= j < self.spec_len() implies distinct_seqs(
                            #[trigger] self.replicas_at(j),
                        ) by {
                            if j < i {
                                assert(distinct_seqs(prev.replicas_at(j)));
                            } else {
                                assert(distinct_seqs(prev.replicas_at(j + 1)));
                            }
                        }
                    }
                    prev.lemma_index_unique(i as int);
                    assert(!self.has_file(file@)) by {
                        if self.has_file(file@) {
                            let j = self.index_of(file@);
                            if j < i {
                                assert(prev.key_at(j) == file@);
                                assert(prev.key_at(j) != prev.key_at(i as int));
                            } else {
                                assert(prev.key_at(j + 1) == file@);
                                assert(prev.key_at(i as int) != prev.key_at(j + 1));
                            }
                        }
                    }
                    assert forall|n: Seq<char>| n != file@ implies #[trigger] self.has_file(n)
                        == prev.has_file(n) by {
                        if prev.has_file(n) {
                            let j = prev.index_of(n);
                            assert(prev.key_at(j) == n);
                            assert(j != i);
                            if j < i {
                                assert(self.key_at(j) == n);
                            } else {
                                assert(self.key_at(j - 1) == n);
                            }
                        }
                        if self.has_file(n) {
                            let j = self.index_of(n);
                            if j < i {
                                assert(prev.key_at(j) == n);
                            } else {
                                assert(prev.key_at(j + 1) == n);
                            }
                        }
                    }
                    assert forall|n: Seq<char>| n != file@ && prev.has_file(n) implies #[trigger] self
                        .replicas_of(n) == prev.replicas_of(n) by {
                        let j = prev.index_of(n);
                        prev.lemma_index_unique(j);
                        assert(j != i);
                        if j < i {
                            self.lemma_index_unique(j);
                        } else {
                            self.lemma_index_unique(j - 1);
                        }
                    }
                }
            },
            None => {},
        }
    }

    /// Commits a PUT: installs for `file` the machines of the candidate set
    /// that the client reports as having taken the file, in candidate
    /// order. A report without any successful candidate changes nothing.
    pub fn commit_put(&mut self, file: &str, candidates: &Vec<String>, reported: &Vec<String>) -> (installed:
        bool)
        requires
            old(self).wf(),
            distinct_seqs(candidates.deep_view()),
        ensures
            final(self).wf(),
            installed == (filter_in(candidates.deep_view(), reported.deep_view()).len() > 0),
            installed ==> final(self).has_file(file@) && final(self).replicas_of(file@)
                == filter_in(candidates.deep_view(), reported.deep_view()),
            !installed ==> *final(self) == *old(self),
            forall|n: Seq<char>|
                n != file@ ==> #[trigger] final(self).has_file(n) == old(self).has_file(n),
            forall|n: Seq<char>|
                n != file@ && old(self).has_file(n) ==> #[trigger] final(self).replicas_of(n)
                    == old(self).replicas_of(n),
    {
        let succ = names_intersection(candidates, reported);
        proof {
            lemma_filter_in_distinct(candidates.deep_view(), reported.deep_view(), candidates@.len() as int);
        }
        if succ.len() == 0 {
            false
        } else {
            self.install(file, succ);
            true
        }
    }

    /// The first entry, in table order, whose file name begins with
    /// `prefix`: how a map job selects its input file.
    pub fn prefix_find(&self, prefix: &str) -> (r: Option<usize>)
        ensures
            match r {
                Some(i) => i < self.spec_len() && has_prefix(self.key_at(i as int), prefix@)
                    && forall|j: int| 0 <= j < i ==> !has_prefix(self.key_at(j), prefix@),
                None => forall|j: int|
                    0 <= j < self.spec_len() ==> !has_prefix(self.key_at(j), prefix@),
            },
    {
        let n = self.entries.len();
        let mut i: usize = 0;
        while i < n
            invariant
                i <= n,
                n == self.spec_len(),
                forall|j: int| 0 <= j < i ==> !has_prefix(self.key_at(j), prefix@),
            decreases n - i,
        {
            let hit = {
                let e = &self.entries[i];
                str_starts_with(e.0.as_str(), prefix)
            };
            if hit {
                return Some(i);
            }
            i = i + 1;
        }
        None
    }
}

} // verus!
