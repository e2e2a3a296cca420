use vstd::prelude::*;
use vstd::string::*;

use crate::helpers::file_key_name;
use crate::helpers::FileKey;
use crate::strutil::contains_seq;
use crate::strutil::has_prefix;
use crate::strutil::str_eq;

verus! {

/// The leader's index of intermediate map keys: each key string maps to
/// the key files that hold its partitioned output. Keys are unique.
pub struct KeyIndex {
    entries: Vec<(String, Vec<FileKey>)>,
}

/// `files[j]` is the first name in `files` that begins with `prefix`.
pub open spec fn first_match(files: Seq<Seq<char>>, prefix: Seq<char>, j: int) -> bool {
    &&& 0 <= j < files.len()
    &&& has_prefix(files[j], prefix)
    &&& forall|q: int| 0 <= q < j ==> !has_prefix(#[trigger] files[q], prefix)
}

/// Some name in `files` begins with `prefix`.
pub open spec fn has_match(files: Seq<Seq<char>>, prefix: Seq<char>) -> bool {
    exists|j: int| 0 <= j < files.len() && has_prefix(#[trigger] files[j], prefix)
}

/// Index of the first name in `files` beginning with `prefix`, or the
/// list's length when none does.
pub open spec fn first_match_at(files: Seq<Seq<char>>, prefix: Seq<char>) -> int
    decreases files.len(),
{
    if files.len() == 0 {
        0
    } else if has_prefix(files[0], prefix) {
        0
    } else {
        1 + first_match_at(files.drop_first(), prefix)
    }
}

proof fn lemma_first_match_at(files: Seq<Seq<char>>, prefix: Seq<char>, j: int)
    requires
        0 <= j <= files.len(),
        forall|q: int| 0 <= q < j ==> !has_prefix(#[trigger] files[q], prefix),
        j == files.len() || has_prefix(files[j], prefix),
    ensures
        first_match_at(files, prefix) == j,
    decreases j,
{
    if j > 0 {
        assert(!has_prefix(files[0], prefix));
        assert forall|q: int| 0 <= q < j - 1 implies !has_prefix(
            #[trigger] files.drop_first()[q],
            prefix,
        ) by {
            assert(files.drop_first()[q] == files[q + 1]);
        }
        if j < files.len() {
            assert(files.drop_first()[j - 1] == files[j]);
        }
        lemma_first_match_at(files.drop_first(), prefix, j - 1);
    } else {
        if files.len() > 0 {
            assert(has_prefix(files[0], prefix));
        }
    }
}

impl KeyIndex {
    /// The reduce inputs the first `i` entries contribute: for each entry
    /// whose key files include one beginning with `prefix`, the first such
    /// file, in entry order.
    pub open spec fn reduce_inputs_upto(&self, prefix: Seq<char>, i: int) -> Seq<Seq<char>>
        decreases i,
    {
        if i <= 0 {
            Seq::empty()
        } else {
            self.reduce_inputs_upto(prefix, i - 1) + ({
                let fs = self.files_at(i - 1);
                if has_match(fs, prefix) {
                    seq![fs[first_match_at(fs, prefix)]]
                } else {
                    Seq::<Seq<char>>::empty()
                }
            })
        }
    }

    /// Number of keys recorded.
    pub closed spec fn spec_len(&self) -> int {
        self.entries@.len() as int
    }

    /// The key of the entry at `i`.
    pub closed spec fn key_at(&self, i: int) -> Seq<char> {
        self.entries@[i].0@
    }

    /// The key-file names of the entry at `i`, oldest first.
    pub closed spec fn files_at(&self, i: int) -> Seq<Seq<char>> {
        let v = self.entries@[i].1;
        Seq::new(v@.len(), |j: int| v@[j].spec_name())
    }

    /// The index holds `key`.
    pub open spec fn has_key(&self, key: Seq<char>) -> bool {
        exists|i: int| 0 <= i < self.spec_len() && self.key_at(i) == key
    }

    /// The index of `key`'s entry.
    pub open spec fn index_of(&self, key: Seq<char>) -> int {
        choose|i: int| 0 <= i < self.spec_len() && self.key_at(i) == key
    }

    /// The key-file names recorded for `key`.
    pub open spec fn files_of(&self, key: Seq<char>) -> Seq<Seq<char>> {
        self.files_at(self.index_of(key))
    }

    /// Keys are unique.
    pub open spec fn wf(&self) -> bool {
        forall|i: int, j: int|
            0 <= i < j < self.spec_len() ==> #[trigger] self.key_at(i) != #[trigger] self.key_at(j)
    }

    /// An empty index.
    pub fn new() -> (r: KeyIndex)
        ensures
            r.wf(),
            r.spec_len() == 0,
    {
        KeyIndex { entries: Vec::new() }
    }

    /// In a well-formed index the entry found for a key is the entry the
    /// specification functions speak of.
    pub proof fn lemma_index_unique(&self, i: int)
        requires
            self.wf(),
            0 <= i < self.spec_len(),
        ensures
            self.index_of(self.key_at(i)) == i,
            self.files_of(self.key_at(i)) == self.files_at(i),
    {
        assert(self.has_key(self.key_at(i)));
        let j = self.index_of(self.key_at(i));
        if j != i {
            assert(self.key_at(i) != self.key_at(j));
        }
    }

    fn find(&self, key: &str) -> (r: Option<usize>)
        ensures
            match r {
                Some(i) => i < self.spec_len() && self.key_at(i as int) == key@,
                None => !self.has_key(key@),
            },
    {
        let n = self.entries.len();
        let mut i: usize = 0;
        while i < n
            invariant
                i <= n,
                n == self.spec_len(),
                forall|j: int| 0 <= j < i ==> self.key_at(j) != key@,
            decreases n - i,
        {
            let hit = {
                let e = &self.entries[i];
                str_eq(e.0.as_str(), key)
            };
            if hit {
                return Some(i);
            }
            i = i + 1;
        }
        None
    }

    /// Records the key file `<prefix>_<key>` for `key`, appending to the
    /// key's list or opening a fresh entry. Every other key is untouched.
    pub fn record(&mut self, key: &str, prefix: &str)
        requires
            old(self).wf(),
        ensures
            final(self).wf(),
            final(self).has_key(key@),
            final(self).files_of(key@) == (if old(self).has_key(key@) {
                old(self).files_of(key@)
            } else {
                Seq::<Seq<char>>::empty()
            }).push(file_key_name(prefix@, key@)),
            forall|k: Seq<char>|
                k != key@ ==> #[trigger] final(self).has_key(k) == old(self).has_key(k),
            forall|k: Seq<char>|
                k != key@ && old(self).has_key(k) ==> #[trigger] final(self).files_of(k) == old(
                    self,
                ).files_of(k),
    {
        let fk = FileKey::new(prefix, key);
        match self.find(key) {
            Some(i) => {
                let (name, mut files) = self.entries.remove(i);
                let ghost files_before = old(self).files_at(i as int);
                files.push(fk);
                self.entries.insert(i, (name, files));
                proof {
                    let prev = old(self);
                    assert(self.entries@ =~= prev.entries@.update(
                        i as int,
                        self.entries@[i as int],
                    ));
                    assert(forall|j: int|
                        0 <= j < self.spec_len() ==> self.key_at(j) == prev.key_at(j));
                    assert(forall|j: int|
                        0 <= j < self.spec_len() && j != i ==> self.files_at(j) == prev.files_at(
                            j,
                        ));
                    assert(self.files_at(i as int) =~= prev.files_at(i as int).push(
                        file_key_name(prefix@, key@),
                    ));
                    prev.lemma_index_unique(i as int);
                    self.lemma_index_unique(i as int);
                    assert forall|k: Seq<char>| k != key@ && prev.has_key(k) implies #[trigger] self
                        .files_of(k) == prev.files_of(k) by {
                        let j = prev.index_of(k);
                        prev.lemma_index_unique(j);
                        self.lemma_index_unique(j);
                    }
                }
            },
            None => {
                let name = key.to_owned();
                let mut files: Vec<FileKey> = Vec::new();
                files.push(fk);
                self.entries.push((name, files));
                proof {
                    let prev = old(self);
                    let m = prev.spec_len();
                    assert(forall|j: int| 0 <= j < m ==> self.key_at(j) == prev.key_at(j));
                    assert(forall|j: int| 0 <= j < m ==> self.files_at(j) == prev.files_at(j));
                    assert(self.key_at(m) == key@);
                    assert(self.files_at(m) =~= Seq::<Seq<char>>::empty().push(
                        file_key_name(prefix@, key@),
                    ));
                    assert(self.wf()) by {
                        assert forall|a: int, b: int| 0 <= a < b < self.spec_len() implies #[trigger] self
                            .key_at(a) != #[trigger] self.key_at(b) by {
                            if b == m {
                                assert(!prev.has_key(key@));
                                assert(prev.key_at(a) != key@);
                            }
                        }
                    }
                    self.lemma_index_unique(m);
                    assert forall|k: Seq<char>| k != key@ implies #[trigger] self.has_key(k)
                        == prev.has_key(k) by {
                        if self.has_key(k) {
                            let j = self.index_of(k);
                            assert(j != m);
                            assert(prev.key_at(j) == k);
                        }
                    }
                    assert forall|k: Seq<char>| k != key@ && prev.has_key(k) implies #[trigger] self
                        .files_of(k) == prev.files_of(k) by {
                        let j = prev.index_of(k);
                        prev.lemma_index_unique(j);
                        self.lemma_index_unique(j);
                    }
                }
            },
        }
    }

    /// One representative input per key for a reduce with `prefix`: for
    /// every key that recorded a key file beginning with the prefix, its
    /// first such file, in index order; keys without one contribute
    /// nothing.
    pub fn reduce_inputs(&self, prefix: &str) -> (r: Vec<String>)
        ensures
            r.deep_view() == self.reduce_inputs_upto(prefix@, self.spec_len()),
    {
        let n = self.entries.len();
        let mut r: Vec<String> = Vec::new();
        let mut i: usize = 0;
        proof {
            assert(r.deep_view() =~= self.reduce_inputs_upto(prefix@, 0));
        }
        while i < n
            invariant
                i <= n,
                n == self.spec_len(),
                r.deep_view() == self.reduce_inputs_upto(prefix@, i as int),
            decreases n - i,
        {
            let ghost r_before = r.deep_view();
            let ghost fs = self.files_at(i as int);
            let m = {
                let e = &self.entries[i];
                e.1.len()
            };
            let mut j: usize = 0;
            let mut found = false;
            while j < m && !found
                invariant
                    j <= m,
                    i < n,
                    n == self.spec_len(),
                    fs == self.files_at(i as int),
                    m == fs.len(),
                    r.deep_view() == r_before,
                    !found ==> forall|q: int| 0 <= q < j ==> !has_prefix(#[trigger] fs[q], prefix@),
                    found ==> j < m && first_match(fs, prefix@, j as int),
                decreases m - j + (if found {
                    0int
                } else {
                    1int
                }),
            {
                let matches_here = {
                    let e = &self.entries[i];
                    proof {
                        assert(fs[j as int] == e.1@[j as int].spec_name());
                    }
                    e.1[j].starts_with(prefix)
                };
                if matches_here {
                    found = true;
                } else {
                    j = j + 1;
                }
            }
            if found {
                proof {
                    lemma_first_match_at(fs, prefix@, j as int);
                    assert(has_match(fs, prefix@)) by {
                        assert(has_prefix(fs[j as int], prefix@));
                    }
                }
                let name = {
                    let e = &self.entries[i];
                    e.1[j].name().clone()
                };
                proof {
                    assert(name@ == fs[j as int]);
                }
                r.push(name);
                proof {
                    assert(r.deep_view() =~= r_before.push(fs[j as int]));
                    assert(r.deep_view() =~= self.reduce_inputs_upto(prefix@, i + 1));
                }
            } else {
                proof {
                    assert(!has_match(fs, prefix@));
                    assert(r.deep_view() + Seq::<Seq<char>>::empty() =~= r.deep_view());
                    assert(r.deep_view() =~= self.reduce_inputs_upto(prefix@, i + 1));
                }
            }
            i = i + 1;
        }
        r
    }
}

} // verus!
