use vstd::prelude::*;
use vstd::string::*;

use crate::strutil::has_prefix;
use crate::strutil::str_starts_with;

verus! {

/// The canonical name of a key file: `<prefix>_<key>`.
pub open spec fn file_key_name(prefix: Seq<char>, key: Seq<char>) -> Seq<char> {
    prefix + seq!['_'] + key
}

/// Under one prefix, the key-file naming is injective: two keys collide
/// only when they are the same key.
pub proof fn lemma_file_key_name_injective(prefix: Seq<char>, k1: Seq<char>, k2: Seq<char>)
    requires
        file_key_name(prefix, k1) == file_key_name(prefix, k2),
    ensures
        k1 == k2,
{
    let a = file_key_name(prefix, k1);
    let b = file_key_name(prefix, k2);
    assert(a.len() == prefix.len() + 1 + k1.len());
    assert(b.len() == prefix.len() + 1 + k2.len());
    assert(k1.len() == k2.len());
    assert forall|i: int| 0 <= i < k1.len() implies k1[i] == k2[i] by {
        assert(a[prefix.len() + 1 + i] == k1[i]);
        assert(b[prefix.len() + 1 + i] == k2[i]);
    }
    assert(k1 =~= k2);
}

/// A logical file name `<prefix>_<key>` tying an intermediate map key to the
/// file that holds its partitioned output.
#[derive(Clone, Debug, PartialEq)]
pub struct FileKey {
    name: String,
}

impl FileKey {
    /// The name this key file is stored under.
    pub closed spec fn spec_name(&self) -> Seq<char> {
        self.name@
    }

    /// Builds the key-file name for `key` under `file_prefix`.
    pub fn new(file_prefix: &str, key: &str) -> (r: FileKey)
        ensures
            r.spec_name() == file_key_name(file_prefix@, key@),
    {
        let joined = file_prefix.to_owned().concat("_").concat(key);
        proof {
            reveal_strlit("_");
            assert(joined@ =~= file_key_name(file_prefix@, key@));
        }
        FileKey { name: joined }
    }

    /// The stored name.
    pub fn name(&self) -> (r: &String)
        ensures
            r@ == self.spec_name(),
    {
        &self.name
    }

    /// Whether the stored name begins with `prefix`.
    pub fn starts_with(&self, prefix: &str) -> (r: bool)
        ensures
            r == has_prefix(self.spec_name(), prefix@),
    {
        str_starts_with(self.name.as_str(), prefix)
    }
}

} // verus!
