use vstd::prelude::*;
use vstd::string::*;

use crate::membership::has_id;
use crate::membership::view_wf;
use crate::node::Node;
use crate::strutil::contains_seq;
use crate::strutil::first_underscore;
use crate::strutil::lemma_first_underscore_at;
use crate::strutil::lemma_spec_ip_prefix;
use crate::strutil::spec_ip;
use crate::strutil::distinct_seqs;
use crate::strutil::has_prefix;
use crate::strutil::lex_lt;
use crate::strutil::node_ip;
use crate::strutil::str_lt;
use crate::strutil::str_starts_with;

verus! {

/// The machine address of `id`, or nothing when the identifier holds no
/// underscore.
pub fn id_ip(id: &str) -> (r: Option<String>)
    ensures
        match r {
            Some(ip) => first_underscore(id@) < id@.len() && ip@ == spec_ip(id@),
            None => first_underscore(id@) == id@.len(),
        },
{
    match node_ip(id) {
        Some(ip) => {
            proof {
                lemma_first_underscore_at(id@, ip@.len() as int);
            }
            Some(ip.to_owned())
        },
        None => {
            proof {
                lemma_first_underscore_at(id@, id@.len() as int);
            }
            None
        },
    }
}

/// Strict identifier order is transitive.
pub proof fn lemma_lex_lt_trans(a: Seq<char>, b: Seq<char>, c: Seq<char>)
    requires
        lex_lt(a, b),
        lex_lt(b, c),
    ensures
        lex_lt(a, c),
    decreases a.len() + b.len() + c.len(),
{
    assert(c.len() > 0);
    assert(b.len() > 0);
    if a.len() == 0 {
    } else {
        if a[0] != b[0] {
            assert((a[0] as int) < (b[0] as int));
            if b[0] != c[0] {
                assert((b[0] as int) < (c[0] as int));
            }
            assert((a[0] as int) < (c[0] as int));
            assert(a[0] != c[0]);
        } else {
            if b[0] != c[0] {
                assert((b[0] as int) < (c[0] as int));
                assert(a[0] != c[0] && (a[0] as int) < (c[0] as int));
            } else {
                lemma_lex_lt_trans(a.drop_first(), b.drop_first(), c.drop_first());
            }
        }
    }
}

/// Strict identifier order is irreflexive.
pub proof fn lemma_lex_lt_irrefl(a: Seq<char>)
    ensures
        !lex_lt(a, a),
    decreases a.len(),
{
    if a.len() > 0 {
        lemma_lex_lt_irrefl(a.drop_first());
    }
}

/// Two distinct identifiers are ordered one way or the other.
pub proof fn lemma_lex_lt_total(a: Seq<char>, b: Seq<char>)
    requires
        a != b,
    ensures
        lex_lt(a, b) || lex_lt(b, a),
    decreases a.len(),
{
    if a.len() == 0 {
        if b.len() == 0 {
            assert(a =~= b);
        }
    } else if b.len() == 0 {
    } else if a[0] != b[0] {
        assert((a[0] as int) != (b[0] as int)) by {
            if (a[0] as int) == (b[0] as int) {
                assert(a[0] == b[0]);
            }
        }
    } else {
        assert(a.drop_first() != b.drop_first()) by {
            if a.drop_first() == b.drop_first() {
                assert(a.drop_first().len() == a.len() - 1);
                assert(b.drop_first().len() == b.len() - 1);
                assert(a.len() == b.len());
                assert forall|k: int| 0 <= k < a.len() implies a[k] == b[k] by {
                    if k > 0 {
                        assert(a.drop_first()[k - 1] == a[k]);
                        assert(b.drop_first()[k - 1] == b[k]);
                    }
                }
                assert(a =~= b);
            }
        }
        lemma_lex_lt_total(a.drop_first(), b.drop_first());
    }
}

/// The identifiers of the view that sort strictly below `self_id`: the
/// nodes this node must probe with an `Election` message.
pub fn lower_ids(view: &Vec<Node>, self_id: &str) -> (r: Vec<String>)
    requires
        view_wf(view@),
    ensures
        distinct_seqs(r.deep_view()),
        forall|k: int|
            0 <= k < r.deep_view().len() ==> lex_lt(#[trigger] r.deep_view()[k], self_id@)
                && has_id(view@, r.deep_view()[k]),
        forall|i: int|
            0 <= i < view@.len() && lex_lt((#[trigger] view@[i]).spec_id(), self_id@)
                ==> contains_seq(r.deep_view(), view@[i].spec_id()),
{
    let n = view.len();
    let mut r: Vec<String> = Vec::new();
    let mut i: usize = 0;
    while i < n
        invariant
            i <= n,
            n == view@.len(),
            view_wf(view@),
            distinct_seqs(r.deep_view()),
            forall|k: int|
                0 <= k < r.deep_view().len() ==> lex_lt(#[trigger] r.deep_view()[k], self_id@)
                    && has_id(view@, r.deep_view()[k]),
            forall|k: int|
                0 <= k < r.deep_view().len() ==> exists|a: int|
                    0 <= a < i && (#[trigger] r.deep_view()[k]) == view@[a].spec_id(),
            forall|a: int|
                0 <= a < i && lex_lt((#[trigger] view@[a]).spec_id(), self_id@) ==> contains_seq(
                    r.deep_view(),
                    view@[a].spec_id(),
                ),
        decreases n - i,
    {
        let ghost r_before = r.deep_view();
        let id_c = {
            let nd = &view[i];
            nd.id().clone()
        };
        proof {
            assert(id_c@ == view@[i as int].spec_id());
        }
        if str_lt(id_c.as_str(), self_id) {
            r.push(id_c);
            proof {
                assert(r.deep_view() =~= r_before.push(view@[i as int].spec_id()));
                assert(r.deep_view()[r.deep_view().len() - 1] == view@[i as int].spec_id());
                assert(has_id(view@, view@[i as int].spec_id()));
                assert(distinct_seqs(r.deep_view())) by {
                    assert forall|a: int, b: int| 0 <= a < b < r.deep_view().len() implies r.deep_view()[a]
                        != r.deep_view()[b] by {
                        if b == r.deep_view().len() - 1 {
                            let va = choose|va: int|
                                0 <= va < i && (#[trigger] r_before[a]) == view@[va].spec_id();
                            assert(view@[va].spec_id() != view@[i as int].spec_id());
                        } else {
                            assert(r_before[a] != r_before[b]);
                        }
                    }
                }
                assert forall|k: int| 0 <= k < r.deep_view().len() implies exists|a: int|
                    0 <= a < i + 1 && (#[trigger] r.deep_view()[k]) == view@[a].spec_id() by {
                    if k < r_before.len() {
                        let a = choose|a: int|
                            0 <= a < i && (#[trigger] r_before[k]) == view@[a].spec_id();
                        assert(r.deep_view()[k] == view@[a].spec_id());
                    } else {
                        assert(r.deep_view()[k] == view@[i as int].spec_id());
                    }
                }
                assert forall|a: int| 0 <= a < i + 1 && lex_lt(
                    (#[trigger] view@[a]).spec_id(),
                    self_id@,
                ) implies contains_seq(r.deep_view(), view@[a].spec_id()) by {
                    if a < i {
                        let k = choose|k: int|
                            0 <= k < r_before.len() && #[trigger] r_before[k] == view@[a].spec_id();
                        assert(r.deep_view()[k] == view@[a].spec_id());
                    } else {
                        assert(r.deep_view()[r.deep_view().len() - 1] == view@[a].spec_id());
                    }
                }
            }
        }
        i = i + 1;
    }
    r
}

/// The identifiers of the view that sort strictly above `self_id`: the
/// nodes a fresh `Coordinator` message must reach.
pub fn higher_ids(view: &Vec<Node>, self_id: &str) -> (r: Vec<String>)
    ensures
        forall|k: int|
            0 <= k < r.deep_view().len() ==> lex_lt(self_id@, #[trigger] r.deep_view()[k])
                && has_id(view@, r.deep_view()[k]),
        forall|i: int|
            0 <= i < view@.len() && lex_lt(self_id@, (#[trigger] view@[i]).spec_id())
                ==> contains_seq(r.deep_view(), view@[i].spec_id()),
{
    let n = view.len();
    let mut r: Vec<String> = Vec::new();
    let mut i: usize = 0;
    while i < n
        invariant
            i <= n,
            n == view@.len(),
            forall|k: int|
                0 <= k < r.deep_view().len() ==> lex_lt(self_id@, #[trigger] r.deep_view()[k])
                    && has_id(view@, r.deep_view()[k]),
            forall|a: int|
                0 <= a < i && lex_lt(self_id@, (#[trigger] view@[a]).spec_id()) ==> contains_seq(
                    r.deep_view(),
                    view@[a].spec_id(),
                ),
        decreases n - i,
    {
        let ghost r_before = r.deep_view();
        let id_c = {
            let nd = &view[i];
            nd.id().clone()
        };
        proof {
            assert(id_c@ == view@[i as int].spec_id());
        }
        if str_lt(self_id, id_c.as_str()) {
            r.push(id_c);
            proof {
                assert(r.deep_view() =~= r_before.push(view@[i as int].spec_id()));
                assert(r.deep_view()[r.deep_view().len() - 1] == view@[i as int].spec_id());
                assert(has_id(view@, view@[i as int].spec_id()));
                assert forall|a: int| 0 <= a < i + 1 && lex_lt(
                    self_id@,
                    (#[trigger] view@[a]).spec_id(),
                ) implies contains_seq(r.deep_view(), view@[a].spec_id()) by {
                    if a < i {
                        let k = choose|k: int|
                            0 <= k < r_before.len() && #[trigger] r_before[k] == view@[a].spec_id();
                        assert(r.deep_view()[k] == view@[a].spec_id());
                    } else {
                        assert(r.deep_view()[r.deep_view().len() - 1] == view@[a].spec_id());
                    }
                }
            }
        }
        i = i + 1;
    }
    r
}

/// A claimed identifier: it begins with one of the leader addresses
/// received in `Coordinator` messages.
pub open spec fn claimed(id: Seq<char>, claims: Seq<Seq<char>>) -> bool {
    exists|c: int| 0 <= c < claims.len() && has_prefix(id, #[trigger] claims[c])
}

/// An identifier a node can adopt: claimed, and well formed enough to
/// carry a machine address.
pub open spec fn eligible(id: Seq<char>, claims: Seq<Seq<char>>) -> bool {
    claimed(id, claims) && first_underscore(id) < id.len()
}

/// `lower[i]` is an eligible identifier that no other eligible identifier
/// undercuts: the claimant a node settles on.
pub open spec fn least_eligible(lower: Seq<Seq<char>>, claims: Seq<Seq<char>>, i: int) -> bool {
    &&& 0 <= i < lower.len()
    &&& eligible(lower[i], claims)
    &&& forall|j: int|
        0 <= j < lower.len() && eligible(#[trigger] lower[j], claims) ==> !lex_lt(
            lower[j],
            lower[i],
        )
}

/// Whether `id` begins with one of the received leader addresses.
fn is_claimed(id: &str, claims: &Vec<String>) -> (r: bool)
    ensures
        r == claimed(id@, claims.deep_view()),
{
    let n = claims.len();
    let mut c: usize = 0;
    while c < n
        invariant
            c <= n,
            n == claims@.len(),
            forall|q: int| 0 <= q < c ==> !has_prefix(id@, #[trigger] claims.deep_view()[q]),
        decreases n - c,
    {
        proof {
            assert(claims.deep_view()[c as int] == claims@[c as int]@);
        }
        if str_starts_with(id, claims[c].as_str()) {
            return true;
        }
        c = c + 1;
    }
    false
}

/// The decision at the end of an election that received `Coordinator`
/// claims: among the probed lower identifiers that begin with a claimed
/// leader address, the smallest wins, and its machine address becomes the
/// leader. Nothing is adopted when no claimant matches.
pub fn adopt_coordinator(lower: &Vec<String>, claims: &Vec<String>) -> (r: Option<String>)
    ensures
        match r {
            Some(ip) => exists|i: int|
                #[trigger] least_eligible(lower.deep_view(), claims.deep_view(), i) && ip@
                    == spec_ip(lower.deep_view()[i]),
            None => forall|j: int|
                0 <= j < lower.deep_view().len() ==> !eligible(
                    #[trigger] lower.deep_view()[j],
                    claims.deep_view(),
                ),
        },
{
    let n = lower.len();
    let mut best: usize = 0;
    let mut found = false;
    let mut i: usize = 0;
    while i < n
        invariant
            i <= n,
            n == lower@.len(),
            found ==> best < i && eligible(lower.deep_view()[best as int], claims.deep_view())
                && forall|j: int|
                0 <= j < i && eligible(#[trigger] lower.deep_view()[j], claims.deep_view())
                    ==> !lex_lt(lower.deep_view()[j], lower.deep_view()[best as int]),
            !found ==> forall|j: int|
                0 <= j < i ==> !eligible(#[trigger] lower.deep_view()[j], claims.deep_view()),
        decreases n - i,
    {
        proof {
            assert(lower.deep_view()[i as int] == lower@[i as int]@);
        }
        let id = &lower[i];
        let parses = match crate::strutil::find_char(id.as_str(), '_') {
            Some(k) => {
                proof {
                    lemma_first_underscore_at(id@, k as int);
                }
                true
            },
            None => {
                proof {
                    lemma_first_underscore_at(id@, id@.len() as int);
                }
                false
            },
        };
        if parses && is_claimed(id.as_str(), claims) {
            proof {
                assert(eligible(lower.deep_view()[i as int], claims.deep_view()));
            }
            if !found {
                best = i;
                found = true;
                proof {
                    assert forall|j: int| 0 <= j < i + 1 && eligible(
                        #[trigger] lower.deep_view()[j],
                        claims.deep_view(),
                    ) implies !lex_lt(lower.deep_view()[j], lower.deep_view()[i as int]) by {
                        if j < i {
                            assert(false);
                        } else {
                            lemma_lex_lt_irrefl(lower.deep_view()[i as int]);
                        }
                    }
                }
            } else {
                proof {
                    assert(best < i);
                }
                if str_lt(id.as_str(), lower[best].as_str()) {
                    proof {
                        assert(lower.deep_view()[best as int] == lower@[best as int]@);
                        let ghost old_best = lower.deep_view()[best as int];
                        let ghost new_best = lower.deep_view()[i as int];
                        assert(lex_lt(new_best, old_best));
                        assert forall|j: int| 0 <= j < i + 1 && eligible(
                            #[trigger] lower.deep_view()[j],
                            claims.deep_view(),
                        ) implies !lex_lt(lower.deep_view()[j], new_best) by {
                            if j < i {
                                if lex_lt(lower.deep_view()[j], new_best) {
                                    lemma_lex_lt_trans(lower.deep_view()[j], new_best, old_best);
                                }
                            } else {
                                lemma_lex_lt_irrefl(new_best);
                            }
                        }
                    }
                    best = i;
                } else {
                    proof {
                        assert(lower.deep_view()[best as int] == lower@[best as int]@);
                        assert(!lex_lt(lower.deep_view()[i as int], lower.deep_view()[best as int]));
                    }
                }
            }
        }
        i = i + 1;
    }
    if found {
        proof {
            assert(least_eligible(lower.deep_view(), claims.deep_view(), best as int));
        }
        match id_ip(lower[best].as_str()) {
            Some(ip) => {
                proof {
                    assert(lower.deep_view()[best as int] == lower@[best as int]@);
                }
                Some(ip)
            },
            None => {
                proof {
                    assert(lower.deep_view()[best as int] == lower@[best as int]@);
                    assert(false);
                }
                None
            },
        }
    } else {
        None
    }
}

/// `ids[i]` sorts below every other identifier: the bully winner.
pub open spec fn spec_is_least(ids: Seq<Seq<char>>, i: int) -> bool {
    &&& 0 <= i < ids.len()
    &&& forall|j: int| 0 <= j < ids.len() ==> !lex_lt(#[trigger] ids[j], ids[i])
}

/// Election uniqueness. In a stabilized view — every node holds the same
/// distinct identifiers, each identifier carries a machine address, and
/// the winner's address begins no other identifier — the node with the
/// least identifier probes nobody and so declares itself leader, while
/// every other node, fed the winner's address by a `Coordinator` message,
/// adopts exactly that address: one node names itself, all others name it
/// too.
pub proof fn lemma_election_uniqueness(
    ids: Seq<Seq<char>>,
    li: int,
    me: int,
    lower: Seq<Seq<char>>,
    claims: Seq<Seq<char>>,
)
    requires
        distinct_seqs(ids),
        spec_is_least(ids, li),
        0 <= me < ids.len(),
        first_underscore(ids[li]) < ids[li].len(),
        forall|j: int|
            0 <= j < ids.len() && j != li ==> !has_prefix(#[trigger] ids[j], spec_ip(ids[li])),
        // `lower` is the probe set of node `me`: the identifiers below its own
        forall|k: int|
            0 <= k < lower.len() ==> contains_seq(ids, #[trigger] lower[k]) && lex_lt(
                lower[k],
                ids[me],
            ),
        forall|j: int|
            0 <= j < ids.len() && lex_lt(#[trigger] ids[j], ids[me]) ==> contains_seq(
                lower,
                ids[j],
            ),
        // stabilization: the only claim on the wire is the winner's address
        claims == seq![spec_ip(ids[li])],
    ensures
        me == li ==> lower.len() == 0,
        me != li ==> exists|i: int| #[trigger] least_eligible(lower, claims, i),
        forall|i: int|
            #[trigger] least_eligible(lower, claims, i) ==> spec_ip(lower[i]) == spec_ip(ids[li]),
{
    if me == li {
        assert(lower.len() == 0) by {
            if lower.len() > 0 {
                assert(contains_seq(ids, lower[0]) && lex_lt(lower[0], ids[li]));
                let j = choose|j: int| 0 <= j < ids.len() && ids[j] == lower[0];
                assert(!lex_lt(ids[j], ids[li]));
            }
        }
    }
    // every eligible member of `lower` is the winner's identifier
    assert forall|k: int| 0 <= k < lower.len() && eligible(#[trigger] lower[k], claims) implies
        lower[k] == ids[li] by {
        assert(claimed(lower[k], claims));
        let c = choose|c: int| 0 <= c < claims.len() && has_prefix(lower[k], #[trigger] claims[c]);
        assert(claims[c] == spec_ip(ids[li]));
        let j = choose|j: int| 0 <= j < ids.len() && ids[j] == lower[k];
        if j != li {
            assert(!has_prefix(ids[j], spec_ip(ids[li])));
        }
    }
    if me != li {
        // the winner's identifier sits in `lower` and is eligible
        assert(ids[li] != ids[me]);
        lemma_lex_lt_total(ids[li], ids[me]);
        assert(!lex_lt(ids[me], ids[li]));
        assert(lex_lt(ids[li], ids[me]));
        assert(contains_seq(lower, ids[li]));
        let k = choose|k: int| 0 <= k < lower.len() && lower[k] == ids[li];
        assert(eligible(lower[k], claims)) by {
            lemma_spec_ip_prefix(ids[li]);
            assert(claims[0] == spec_ip(ids[li]));
            assert(has_prefix(lower[k], claims[0]));
        }
        assert(least_eligible(lower, claims, k)) by {
            assert forall|j: int| 0 <= j < lower.len() && eligible(
                #[trigger] lower[j],
                claims,
            ) implies !lex_lt(lower[j], lower[k]) by {
                assert(lower[j] == ids[li]);
                lemma_lex_lt_irrefl(ids[li]);
            }
        }
    }
    assert forall|i: int| #[trigger] least_eligible(lower, claims, i) implies spec_ip(lower[i])
        == spec_ip(ids[li]) by {
        assert(lower[i] == ids[li]);
    }
}

} // verus!
