use vstd::prelude::*;
use vstd::string::*;

use crate::strutil::str_eq;

verus! {

/// The names of the replicated files a storage node holds on disk,
/// remembered in arrival order.
#[derive(Debug)]
pub struct LocalFileList {
    list: Vec<String>,
}

impl LocalFileList {
    /// The recorded names.
    pub closed spec fn spec_list(&self) -> Seq<Seq<char>> {
        self.list.deep_view()
    }

    /// An empty inventory.
    pub fn new() -> (r: LocalFileList)
        ensures
            r.spec_list().len() == 0,
    {
        LocalFileList { list: Vec::new() }
    }

    /// The recorded names, oldest first.
    pub fn list(&self) -> (r: &Vec<String>)
        ensures
            r.deep_view() == self.spec_list(),
    {
        &self.list
    }

    /// Records a file that a PUT has just persisted.
    pub fn push(&mut self, name: String)
        ensures
            final(self).spec_list() == old(self).spec_list().push(name@),
    {
        let ghost before = self.list.deep_view();
        self.list.push(name);
        proof {
            assert(self.list.deep_view() =~= before.push(self.list@[self.list@.len() - 1]@));
        }
    }

    /// Forgets a file that a DELETE has just unlinked: every entry of that
    /// name goes, every other entry stays, in order.
    pub fn remove(&mut self, name: &str)
        ensures
            final(self).spec_list() == crate::strutil::filter_not_in(
                old(self).spec_list(),
                seq![name@],
            ),
    {
        let ghost orig = self.list.deep_view();
        let n = self.list.len();
        let mut out: Vec<String> = Vec::new();
        let mut i: usize = 0;
        proof {
            assert(out.deep_view() =~= crate::strutil::filter_not_in_upto(orig, seq![name@], 0));
        }
        while i < n
            invariant
                i <= n,
                n == self.list@.len(),
                orig == self.list.deep_view(),
                out.deep_view() == crate::strutil::filter_not_in_upto(orig, seq![name@], i as int),
            decreases n - i,
        {
            proof {
                assert(self.list.deep_view()[i as int] == self.list@[i as int]@);
            }
            let keep = !str_eq(self.list[i].as_str(), name);
            proof {
                if keep {
                    assert(!crate::strutil::contains_seq(seq![name@], orig[i as int])) by {
                        if crate::strutil::contains_seq(seq![name@], orig[i as int]) {
                            let c = choose|c: int|
                                0 <= c < 1 && seq![name@][c] == orig[i as int];
                            assert(seq![name@][c] == name@);
                        }
                    }
                } else {
                    assert(seq![name@][0] == orig[i as int]);
                    assert(crate::strutil::contains_seq(seq![name@], orig[i as int]));
                }
            }
            if keep {
                let x = self.list[i].clone();
                proof {
                    assert(cloned::<String>(self.list@[i as int], x));
                }
                out.push(x);
                proof {
                    assert(out.deep_view() =~= out.deep_view().drop_last() + seq![orig[i as int]]);
                    assert(out.deep_view() =~= crate::strutil::filter_not_in_upto(
                        orig,
                        seq![name@],
                        i + 1,
                    ));
                }
            } else {
                proof {
                    assert(out.deep_view() + Seq::<Seq<char>>::empty() =~= out.deep_view());
                    assert(out.deep_view() =~= crate::strutil::filter_not_in_upto(
                        orig,
                        seq![name@],
                        i + 1,
                    ));
                }
            }
            i = i + 1;
        }
        self.list = out;
    }
}

} // verus!
