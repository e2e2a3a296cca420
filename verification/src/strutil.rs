use vstd::prelude::*;
use vstd::string::*;

verus! {

/// Lexicographic order on character sequences by code point, the byte-value
/// order that ranks node identifiers for leader election.
pub open spec fn lex_lt(a: Seq<char>, b: Seq<char>) -> bool
    decreases a.len(),
{
    if b.len() == 0 {
        false
    } else if a.len() == 0 {
        true
    } else if a[0] != b[0] {
        (a[0] as int) < (b[0] as int)
    } else {
        lex_lt(a.drop_first(), b.drop_first())
    }
}

/// `p` is a prefix of `s`.
pub open spec fn has_prefix(s: Seq<char>, p: Seq<char>) -> bool {
    p.len() <= s.len() && s.subrange(0, p.len() as int) == p
}

proof fn lemma_lex_lt_skip(a: Seq<char>, b: Seq<char>, i: int)
    requires
        0 <= i < a.len(),
        0 <= i < b.len(),
        a.subrange(0, i) =~= b.subrange(0, i),
        a[i] == b[i],
    ensures
        lex_lt(a.skip(i), b.skip(i)) == lex_lt(a.skip(i + 1), b.skip(i + 1)),
{
    assert(a.skip(i).len() > 0);
    assert(b.skip(i).len() > 0);
    assert(a.skip(i)[0] == a[i]);
    assert(b.skip(i)[0] == b[i]);
    assert(a.skip(i).drop_first() =~= a.skip(i + 1));
    assert(b.skip(i).drop_first() =~= b.skip(i + 1));
}

/// Compare two strings in the identifier order: returns whether `a` sorts
/// strictly before `b` by code-point value.
pub fn str_lt(a: &str, b: &str) -> (r: bool)
    ensures
        r == lex_lt(a@, b@),
{
    let alen = a.unicode_len();
    let blen = b.unicode_len();
    let mut i: usize = 0;
    proof {
        assert(a@.skip(0) =~= a@);
        assert(b@.skip(0) =~= b@);
    }
    loop
        invariant
            i <= alen,
            i <= blen,
            alen == a@.len(),
            blen == b@.len(),
            a@.subrange(0, i as int) =~= b@.subrange(0, i as int),
            lex_lt(a@, b@) == lex_lt(a@.skip(i as int), b@.skip(i as int)),
        decreases alen - i,
    {
        if i == alen || i == blen {
            proof {
                assert(a@.skip(i as int).len() == alen - i);
                assert(b@.skip(i as int).len() == blen - i);
            }
            return alen < blen;
        }
        let ca = a.get_char(i);
        let cb = b.get_char(i);
        if ca != cb {
            proof {
                assert(a@.skip(i as int)[0] == a@[i as int]);
                assert(b@.skip(i as int)[0] == b@[i as int]);
            }
            return (ca as u32) < (cb as u32);
        }
        proof {
            lemma_lex_lt_skip(a@, b@, i as int);
            assert(a@.subrange(0, i + 1 as int) =~= b@.subrange(0, i + 1 as int));
        }
        i = i + 1;
    }
}

/// Equality of two string slices, decided character by character.
pub fn str_eq(a: &str, b: &str) -> (r: bool)
    ensures
        r == (a@ == b@),
{
    let alen = a.unicode_len();
    let blen = b.unicode_len();
    if alen != blen {
        return false;
    }
    let mut i: usize = 0;
    while i < alen
        invariant
            i <= alen,
            alen == a@.len(),
            alen == b@.len(),
            a@.subrange(0, i as int) =~= b@.subrange(0, i as int),
        decreases alen - i,
    {
        if a.get_char(i) != b.get_char(i) {
            proof {
                assert(a@ != b@) by {
                    assert(a@[i as int] != b@[i as int]);
                }
            }
            return false;
        }
        proof {
            assert(a@.subrange(0, i + 1 as int) =~= b@.subrange(0, i + 1 as int));
        }
        i = i + 1;
    }
    proof {
        assert(a@.subrange(0, alen as int) =~= a@);
        assert(b@.subrange(0, alen as int) =~= b@);
        assert(a@ =~= b@);
    }
    true
}

/// `s` begins with `prefix`.
pub fn str_starts_with(s: &str, prefix: &str) -> (r: bool)
    ensures
        r == has_prefix(s@, prefix@),
{
    let slen = s.unicode_len();
    let plen = prefix.unicode_len();
    if plen > slen {
        return false;
    }
    let mut i: usize = 0;
    while i < plen
        invariant
            i <= plen,
            plen <= slen,
            slen == s@.len(),
            plen == prefix@.len(),
            s@.subrange(0, i as int) =~= prefix@.subrange(0, i as int),
        decreases plen - i,
    {
        if s.get_char(i) != prefix.get_char(i) {
            proof {
                assert(!has_prefix(s@, prefix@)) by {
                    assert(s@.subrange(0, plen as int)[i as int] != prefix@[i as int]);
                }
            }
            return false;
        }
        proof {
            assert(s@.subrange(0, i + 1 as int) =~= prefix@.subrange(0, i + 1 as int));
        }
        i = i + 1;
    }
    proof {
        assert(s@.subrange(0, plen as int) =~= prefix@);
    }
    true
}

/// Index of the first occurrence of `c` in `s`, if any.
pub fn find_char(s: &str, c: char) -> (r: Option<usize>)
    ensures
        match r {
            Some(i) => i < s@.len() && s@[i as int] == c && forall|j: int|
                0 <= j < i ==> s@[j] != c,
            None => forall|j: int| 0 <= j < s@.len() ==> s@[j] != c,
        },
{
    let slen = s.unicode_len();
    let mut i: usize = 0;
    while i < slen
        invariant
            i <= slen,
            slen == s@.len(),
            forall|j: int| 0 <= j < i ==> s@[j] != c,
        decreases slen - i,
    {
        if s.get_char(i) == c {
            return Some(i);
        }
        i = i + 1;
    }
    None
}

/// The `<ip>` and `<port>` components of a node identifier
/// `<ip>_<port>_<joinTime>`: the text before the first `_`, and the text
/// between the first `_` and the following `_` (or the end). Identifiers
/// without any `_` are rejected.
pub fn split_id_to_components<'a>(raw_id: &'a str) -> (r: Option<(&'a str, &'a str)>)
    ensures
        match r {
            Some((ip, port)) => {
                let i = ip@.len() as int;
                let k = i + 1 + port@.len() as int;
                &&& i < raw_id@.len()
                &&& raw_id@[i] == '_'
                &&& (forall|j: int| 0 <= j < i ==> raw_id@[j] != '_')
                &&& ip@ == raw_id@.subrange(0, i)
                &&& k <= raw_id@.len()
                &&& port@ == raw_id@.subrange(i + 1, k)
                &&& (k == raw_id@.len() || raw_id@[k] == '_')
                &&& (forall|j: int| i + 1 <= j < k ==> raw_id@[j] != '_')
            },
            None => forall|j: int| 0 <= j < raw_id@.len() ==> raw_id@[j] != '_',
        },
{
    let slen = raw_id.unicode_len();
    let Some(i) = find_char(raw_id, '_') else { return None };
    let ip = raw_id.substring_char(0, i);
    // scan for the underscore that ends the port component
    let mut k: usize = i + 1;
    loop
        invariant
            i < k,
            k <= slen,
            slen == raw_id@.len(),
            forall|j: int| i + 1 <= j < k ==> raw_id@[j] != '_',
        ensures
            i < k <= slen,
            k == slen || raw_id@[k as int] == '_',
            forall|j: int| i + 1 <= j < k ==> raw_id@[j] != '_',
        decreases slen - k,
    {
        if k == slen {
            break;
        }
        if raw_id.get_char(k) == '_' {
            break;
        }
        k = k + 1;
    }
    let port = raw_id.substring_char(i + 1, k);
    proof {
        assert(ip@.len() == i);
        assert(port@.len() == k - (i + 1));
    }
    Some((ip, port))
}

/// The `<ip>` component of a node identifier, when the identifier is well
/// formed.
pub fn node_ip<'a>(raw_id: &'a str) -> (r: Option<&'a str>)
    ensures
        match r {
            Some(ip) => {
                let i = ip@.len() as int;
                &&& i < raw_id@.len()
                &&& raw_id@[i] == '_'
                &&& (forall|j: int| 0 <= j < i ==> raw_id@[j] != '_')
                &&& ip@ == raw_id@.subrange(0, i)
            },
            None => forall|j: int| 0 <= j < raw_id@.len() ==> raw_id@[j] != '_',
        },
{
    match split_id_to_components(raw_id) {
        Some((ip, _)) => Some(ip),
        None => None,
    }
}

/// Index of the first underscore of an identifier, or its length when it
/// has none.
pub open spec fn first_underscore(s: Seq<char>) -> int
    decreases s.len(),
{
    if s.len() == 0 {
        0
    } else if s[0] == '_' {
        0
    } else {
        1 + first_underscore(s.drop_first())
    }
}

pub proof fn lemma_first_underscore_bounds(s: Seq<char>)
    ensures
        0 <= first_underscore(s) <= s.len(),
        first_underscore(s) < s.len() ==> s[first_underscore(s)] == '_',
        forall|q: int| 0 <= q < first_underscore(s) ==> s[q] != '_',
    decreases s.len(),
{
    if s.len() > 0 && s[0] != '_' {
        lemma_first_underscore_bounds(s.drop_first());
        assert forall|q: int| 0 <= q < first_underscore(s) implies s[q] != '_' by {
            if q > 0 {
                assert(s.drop_first()[q - 1] == s[q]);
            }
        }
        if first_underscore(s) < s.len() {
            assert(s.drop_first()[first_underscore(s.drop_first())] == s[first_underscore(s)]);
        }
    }
}

pub proof fn lemma_first_underscore_at(s: Seq<char>, j: int)
    requires
        0 <= j <= s.len(),
        forall|q: int| 0 <= q < j ==> s[q] != '_',
        j == s.len() || s[j] == '_',
    ensures
        first_underscore(s) == j,
    decreases j,
{
    if j > 0 {
        assert(s[0] != '_');
        assert forall|q: int| 0 <= q < j - 1 implies s.drop_first()[q] != '_' by {
            assert(s.drop_first()[q] == s[q + 1]);
        }
        if j < s.len() {
            assert(s.drop_first()[j - 1] == s[j]);
        }
        lemma_first_underscore_at(s.drop_first(), j - 1);
    } else {
        if s.len() > 0 {
            assert(s[0] == '_');
        }
    }
}

/// The machine address of an identifier: the text before its first
/// underscore (the whole identifier when it has none).
pub open spec fn spec_ip(s: Seq<char>) -> Seq<char> {
    let i = first_underscore(s);
    if 0 <= i <= s.len() {
        s.subrange(0, i)
    } else {
        s
    }
}

/// An identifier's machine address is one of its prefixes.
pub proof fn lemma_spec_ip_prefix(s: Seq<char>)
    ensures
        has_prefix(s, spec_ip(s)),
{
    lemma_first_underscore_bounds(s);
    assert(s.subrange(0, spec_ip(s).len() as int) =~= spec_ip(s));
}

/// No two entries of `s` are equal: the well-formedness of a replica set or
/// of a candidate list.
pub open spec fn distinct_seqs(s: Seq<Seq<char>>) -> bool {
    forall|i: int, j: int| 0 <= i < j < s.len() ==> s[i] != s[j]
}

/// `s` holds `x`.
pub open spec fn contains_seq(s: Seq<Seq<char>>, x: Seq<char>) -> bool {
    exists|i: int| 0 <= i < s.len() && s[i] == x
}

/// Copies a list of names; the copy holds the same names in the same order.
pub fn clone_names(v: &Vec<String>) -> (r: Vec<String>)
    ensures
        r@ == v@,
{
    let r = v.clone();
    proof {
        assert forall|i: int| 0 <= i < v@.len() implies r@[i] == v@[i] by {
            assert(cloned::<String>(v@[i], r@[i]));
        }
        assert(r@ =~= v@);
    }
    r
}

/// The names of `v`, in order, that do not occur in `excl`, among the first
/// `i`.
pub open spec fn filter_not_in_upto(v: Seq<Seq<char>>, excl: Seq<Seq<char>>, i: int) -> Seq<
    Seq<char>,
>
    decreases i,
{
    if i <= 0 {
        Seq::empty()
    } else {
        filter_not_in_upto(v, excl, i - 1) + if contains_seq(excl, v[i - 1]) {
            Seq::<Seq<char>>::empty()
        } else {
            seq![v[i - 1]]
        }
    }
}

/// The names of `v`, in order, that do not occur in `excl`.
pub open spec fn filter_not_in(v: Seq<Seq<char>>, excl: Seq<Seq<char>>) -> Seq<Seq<char>> {
    filter_not_in_upto(v, excl, v.len() as int)
}

/// Every name the difference keeps comes from `v` and misses `excl`, and
/// nothing of `v` outside `excl` is dropped.
pub proof fn lemma_filter_not_in_membership(v: Seq<Seq<char>>, excl: Seq<Seq<char>>, i: int)
    requires
        0 <= i <= v.len(),
    ensures
        forall|x: Seq<char>|
            contains_seq(#[trigger] filter_not_in_upto(v, excl, i), x) ==> contains_seq(
                v,
                x,
            ) && !contains_seq(excl, x),
        forall|j: int|
            0 <= j < i && !contains_seq(excl, v[j]) ==> contains_seq(
                filter_not_in_upto(v, excl, i),
                #[trigger] v[j],
            ),
    decreases i,
{
    if i > 0 {
        lemma_filter_not_in_membership(v, excl, i - 1);
        let prev = filter_not_in_upto(v, excl, i - 1);
        let cur = filter_not_in_upto(v, excl, i);
        assert forall|x: Seq<char>| contains_seq(cur, x) implies contains_seq(v, x)
            && !contains_seq(excl, x) by {
            let k = choose|k: int| 0 <= k < cur.len() && cur[k] == x;
            if k < prev.len() {
                assert(contains_seq(prev, x));
            } else {
                assert(x == v[i - 1]);
                assert(contains_seq(v, x));
            }
        }
        assert forall|j: int| 0 <= j < i && !contains_seq(excl, v[j]) implies contains_seq(
            cur,
            v[j],
        ) by {
            if j < i - 1 {
                let k = choose|k: int| 0 <= k < prev.len() && prev[k] == v[j];
                assert(cur[k] == v[j]);
            } else {
                assert(cur[cur.len() - 1] == v[i - 1]);
            }
        }
    }
}

/// A difference of distinct names is distinct.
pub proof fn lemma_filter_not_in_distinct(v: Seq<Seq<char>>, excl: Seq<Seq<char>>, i: int)
    requires
        0 <= i <= v.len(),
        distinct_seqs(v),
    ensures
        distinct_seqs(filter_not_in_upto(v, excl, i)),
        forall|x: Seq<char>|
            contains_seq(#[trigger] filter_not_in_upto(v, excl, i), x) ==> exists|j: int|
                0 <= j < i && v[j] == x,
    decreases i,
{
    if i > 0 {
        lemma_filter_not_in_distinct(v, excl, i - 1);
        let prev = filter_not_in_upto(v, excl, i - 1);
        let cur = filter_not_in_upto(v, excl, i);
        if !contains_seq(excl, v[i - 1]) {
            assert(forall|k: int| 0 <= k < prev.len() ==> cur[k] == prev[k]);
            assert(cur[cur.len() - 1] == v[i - 1]);
            assert(!contains_seq(prev, v[i - 1])) by {
                if contains_seq(prev, v[i - 1]) {
                    let j = choose|j: int| 0 <= j < i - 1 && #[trigger] v[j] == v[i - 1];
                    assert(v[j] != v[i - 1]);
                }
            }
            assert forall|a: int, b: int| 0 <= a < b < cur.len() implies cur[a] != cur[b] by {
                if b < cur.len() - 1 {
                    assert(prev[a] != prev[b]);
                } else {
                    assert(contains_seq(prev, cur[a]));
                }
            }
            assert forall|x: Seq<char>| contains_seq(cur, x) implies exists|j: int|
                0 <= j < i && #[trigger] v[j] == x by {
                let k = choose|k: int| 0 <= k < cur.len() && cur[k] == x;
                if k < prev.len() {
                    assert(contains_seq(prev, x));
                    let j = choose|j: int| 0 <= j < i - 1 && #[trigger] v[j] == x;
                } else {
                    assert(v[i - 1] == x);
                }
            }
        } else {
            assert(cur =~= prev);
            assert forall|x: Seq<char>| contains_seq(cur, x) implies exists|j: int|
                0 <= j < i && #[trigger] v[j] == x by {
                assert(contains_seq(prev, x));
                let j = choose|j: int| 0 <= j < i - 1 && #[trigger] v[j] == x;
            }
        }
    }
}

/// The names of `v` that are not in `excl`, in their original order: the
/// pool from which new replica holders are drawn.
pub fn names_difference(v: &Vec<String>, excl: &Vec<String>) -> (r: Vec<String>)
    ensures
        r.deep_view() == filter_not_in(v.deep_view(), excl.deep_view()),
{
    let mut out: Vec<String> = Vec::new();
    let mut i: usize = 0;
    proof {
        assert(out.deep_view() =~= filter_not_in_upto(v.deep_view(), excl.deep_view(), 0));
    }
    while i < v.len()
        invariant
            i <= v@.len(),
            out.deep_view() == filter_not_in_upto(v.deep_view(), excl.deep_view(), i as int),
        decreases v@.len() - i,
    {
        proof {
            assert(v.deep_view()[i as int] == v@[i as int]@);
        }
        if !names_contain(excl, v[i].as_str()) {
            let x = v[i].clone();
            proof {
                assert(cloned::<String>(v@[i as int], x));
            }
            out.push(x);
            proof {
                assert(out.deep_view() =~= out.deep_view().drop_last() + seq![v.deep_view()[i as int]]);
                assert(out.deep_view() =~= filter_not_in_upto(
                    v.deep_view(),
                    excl.deep_view(),
                    i + 1,
                ));
            }
        } else {
            proof {
                assert(out.deep_view() + Seq::<Seq<char>>::empty() =~= out.deep_view());
                assert(out.deep_view() =~= filter_not_in_upto(
                    v.deep_view(),
                    excl.deep_view(),
                    i + 1,
                ));
            }
        }
        i = i + 1;
    }
    out
}

/// The names of `v`, in order, that occur in `incl`, among the first `i`.
pub open spec fn filter_in_upto(v: Seq<Seq<char>>, incl: Seq<Seq<char>>, i: int) -> Seq<Seq<char>>
    decreases i,
{
    if i <= 0 {
        Seq::empty()
    } else {
        filter_in_upto(v, incl, i - 1) + if contains_seq(incl, v[i - 1]) {
            seq![v[i - 1]]
        } else {
            Seq::<Seq<char>>::empty()
        }
    }
}

/// The names of `v`, in order, that occur in `incl`.
pub open spec fn filter_in(v: Seq<Seq<char>>, incl: Seq<Seq<char>>) -> Seq<Seq<char>> {
    filter_in_upto(v, incl, v.len() as int)
}

/// A fully acknowledged report keeps the whole candidate list: when every
/// name of `v` occurs in `incl`, the intersection is `v` itself. So a PUT
/// whose candidates all acknowledge installs its full replica set.
pub proof fn lemma_filter_in_all_kept(v: Seq<Seq<char>>, incl: Seq<Seq<char>>)
    requires
        forall|j: int| 0 <= j < v.len() ==> contains_seq(incl, #[trigger] v[j]),
    ensures
        filter_in(v, incl) == v,
{
    lemma_filter_in_kept_prefix(v, incl, v.len() as int);
    assert(filter_in(v, incl) =~= v);
}

proof fn lemma_filter_in_kept_prefix(v: Seq<Seq<char>>, incl: Seq<Seq<char>>, i: int)
    requires
        0 <= i <= v.len(),
        forall|j: int| 0 <= j < v.len() ==> contains_seq(incl, #[trigger] v[j]),
    ensures
        filter_in_upto(v, incl, i) =~= v.subrange(0, i),
    decreases i,
{
    if i > 0 {
        lemma_filter_in_kept_prefix(v, incl, i - 1);
    }
}

/// An intersection of distinct names is distinct.
pub proof fn lemma_filter_in_distinct(v: Seq<Seq<char>>, incl: Seq<Seq<char>>, i: int)
    requires
        0 <= i <= v.len(),
        distinct_seqs(v),
    ensures
        distinct_seqs(filter_in_upto(v, incl, i)),
        forall|x: Seq<char>|
            contains_seq(#[trigger] filter_in_upto(v, incl, i), x) ==> exists|j: int|
                0 <= j < i && v[j] == x,
    decreases i,
{
    if i > 0 {
        lemma_filter_in_distinct(v, incl, i - 1);
        let prev = filter_in_upto(v, incl, i - 1);
        let cur = filter_in_upto(v, incl, i);
        if contains_seq(incl, v[i - 1]) {
            assert(forall|k: int| 0 <= k < prev.len() ==> cur[k] == prev[k]);
            assert(cur[cur.len() - 1] == v[i - 1]);
            assert(!contains_seq(prev, v[i - 1])) by {
                if contains_seq(prev, v[i - 1]) {
                    let j = choose|j: int| 0 <= j < i - 1 && #[trigger] v[j] == v[i - 1];
                    assert(v[j] != v[i - 1]);
                }
            }
            assert forall|a: int, b: int| 0 <= a < b < cur.len() implies cur[a] != cur[b] by {
                if b < cur.len() - 1 {
                    assert(prev[a] != prev[b]);
                } else {
                    assert(contains_seq(prev, cur[a]));
                }
            }
            assert forall|x: Seq<char>| contains_seq(cur, x) implies exists|j: int|
                0 <= j < i && #[trigger] v[j] == x by {
                let k = choose|k: int| 0 <= k < cur.len() && cur[k] == x;
                if k < prev.len() {
                    assert(contains_seq(prev, x));
                    let j = choose|j: int| 0 <= j < i - 1 && #[trigger] v[j] == x;
                } else {
                    assert(v[i - 1] == x);
                }
            }
        } else {
            assert(cur =~= prev);
            assert forall|x: Seq<char>| contains_seq(cur, x) implies exists|j: int|
                0 <= j < i && #[trigger] v[j] == x by {
                assert(contains_seq(prev, x));
                let j = choose|j: int| 0 <= j < i - 1 && #[trigger] v[j] == x;
            }
        }
    }
}

/// The names of `v` that also occur in `incl`, in `v`'s order: the reported
/// subset of a PUT's candidates that actually took the file.
pub fn names_intersection(v: &Vec<String>, incl: &Vec<String>) -> (r: Vec<String>)
    ensures
        r.deep_view() == filter_in(v.deep_view(), incl.deep_view()),
{
    let mut out: Vec<String> = Vec::new();
    let mut i: usize = 0;
    proof {
        assert(out.deep_view() =~= filter_in_upto(v.deep_view(), incl.deep_view(), 0));
    }
    while i < v.len()
        invariant
            i <= v@.len(),
            out.deep_view() == filter_in_upto(v.deep_view(), incl.deep_view(), i as int),
        decreases v@.len() - i,
    {
        proof {
            assert(v.deep_view()[i as int] == v@[i as int]@);
        }
        if names_contain(incl, v[i].as_str()) {
            let x = v[i].clone();
            proof {
                assert(cloned::<String>(v@[i as int], x));
            }
            out.push(x);
            proof {
                assert(out.deep_view() =~= out.deep_view().drop_last() + seq![v.deep_view()[i as int]]);
                assert(out.deep_view() =~= filter_in_upto(v.deep_view(), incl.deep_view(), i + 1));
            }
        } else {
            proof {
                assert(out.deep_view() + Seq::<Seq<char>>::empty() =~= out.deep_view());
                assert(out.deep_view() =~= filter_in_upto(v.deep_view(), incl.deep_view(), i + 1));
            }
        }
        i = i + 1;
    }
    out
}

/// Appends copies of `src`'s names to `dst`, in order.
pub fn append_names(dst: &mut Vec<String>, src: &Vec<String>)
    ensures
        final(dst).deep_view() == old(dst).deep_view() + src.deep_view(),
{
    let ghost base = dst.deep_view();
    let ghost aview = src.deep_view();
    let mut i: usize = 0;
    proof {
        assert(dst.deep_view() =~= base + aview.subrange(0, 0));
    }
    while i < src.len()
        invariant
            i <= src@.len(),
            aview == src.deep_view(),
            aview.len() == src@.len(),
            dst.deep_view() == base + aview.subrange(0, i as int),
        decreases src@.len() - i,
    {
        let x = src[i].clone();
        proof {
            assert(cloned::<String>(src@[i as int], x));
            assert(src.deep_view()[i as int] == src@[i as int]@);
            assert(x@ == aview[i as int]);
        }
        let ghost prevv = dst@;
        let ghost prevdv = dst.deep_view();
        proof {
            assert(prevdv == base + aview.subrange(0, i as int));
            assert(prevv.len() == prevdv.len());
            assert(prevv.len() == base.len() + i);
        }
        dst.push(x);
        proof {
            assert(dst@ == prevv.push(x));
            assert forall|k: int| 0 <= k < dst@.len() implies dst.deep_view()[k] == (base
                + aview.subrange(0, i + 1 as int))[k] by {
                if k < prevv.len() {
                    assert(dst@[k] == prevv[k]);
                    assert(dst.deep_view()[k] == prevv[k]@);
                    assert(prevdv[k] == prevv[k]@);
                    if k < base.len() {
                        assert(prevdv[k] == base[k]);
                        assert((base + aview.subrange(0, i + 1 as int))[k] == base[k]);
                    } else {
                        assert(prevdv[k] == aview.subrange(0, i as int)[k - base.len()]);
                        assert(aview.subrange(0, i as int)[k - base.len()] == aview[k
                            - base.len()]);
                        assert((base + aview.subrange(0, i + 1 as int))[k] == aview.subrange(
                            0,
                            i + 1 as int,
                        )[k - base.len()]);
                    }
                } else {
                    assert(dst@[k] == x);
                    assert((base + aview.subrange(0, i + 1 as int))[k] == aview[i as int]);
                }
            }
            assert(dst.deep_view() =~= base + aview.subrange(0, i + 1 as int));
        }
        i = i + 1;
    }
    proof {
        assert(aview.subrange(0, aview.len() as int) =~= aview);
    }
}

/// Membership test on a list of names.
pub fn names_contain(v: &Vec<String>, x: &str) -> (r: bool)
    ensures
        r == contains_seq(v.deep_view(), x@),
{
    let mut i: usize = 0;
    while i < v.len()
        invariant
            i <= v.len(),
            forall|j: int| 0 <= j < i ==> v.deep_view()[j] != x@,
        decreases v.len() - i,
    {
        assert(v.deep_view()[i as int] == v@[i as int]@);
        if str_eq(v[i].as_str(), x) {
            return true;
        }
        i = i + 1;
    }
    false
}

} // verus!
