use vstd::prelude::*;
use vstd::seq_lib::*;
use vstd::set_lib::*;

use rand::seq::SliceRandom;

use crate::node::Node;
use crate::strutil::contains_seq;
use crate::strutil::distinct_seqs;
use crate::strutil::filter_not_in;
use crate::strutil::lemma_filter_not_in_distinct;
use crate::strutil::lemma_filter_not_in_membership;
use crate::strutil::names_difference;

verus! {

/// Replica-set size the coordinator aims for on every PUT.
pub const REPLICA_TARGET: usize = 4;

/// Relies on rand's `SliceRandom::choose_multiple` (with `thread_rng`): it
/// samples `amount` distinct indices of the slice, so over a duplicate-free
/// pool it yields `min(amount, len)` distinct elements of the pool, in an
/// unspecified order.
#[verifier::external_body]
pub(crate) fn sample_distinct(pool: &Vec<String>, amount: usize) -> (r: Vec<String>)
    requires
        distinct_seqs(pool.deep_view()),
    ensures
        r.deep_view().len() == if amount <= pool.deep_view().len() {
            amount as int
        } else {
            pool.deep_view().len() as int
        },
        distinct_seqs(r.deep_view()),
        forall|i: int|
            0 <= i < r.deep_view().len() ==> contains_seq(
                pool.deep_view(),
                #[trigger] r.deep_view()[i],
            ),
{
    pool.as_slice().choose_multiple(&mut rand::thread_rng(), amount).cloned().collect()
}

/// Relies on rand's `SliceRandom::choose` (with `thread_rng`): it returns
/// nothing only on an empty slice, otherwise some element of it.
#[verifier::external_body]
pub(crate) fn choose_one(pool: &Vec<String>) -> (r: Option<String>)
    ensures
        match r {
            Some(x) => contains_seq(pool.deep_view(), x@),
            None => pool.deep_view().len() == 0,
        },
{
    pool.as_slice().choose(&mut rand::thread_rng()).cloned()
}

/// Relies on rand's `SliceRandom::shuffle` (with `thread_rng`): a
/// permutation of the slice in place, which the gossip sender applies to
/// its view between rounds. A permutation keeps the nodes, and so their
/// identifiers, as a multiset.
#[verifier::external_body]
pub(crate) fn shuffle_nodes(v: &mut Vec<Node>)
    ensures
        final(v)@.to_multiset() == old(v)@.to_multiset(),
        crate::membership::ids_of(final(v)@).to_multiset() == crate::membership::ids_of(
            old(v)@,
        ).to_multiset(),
        final(v)@.len() == old(v)@.len(),
{
    v.as_mut_slice().shuffle(&mut rand::thread_rng());
}

/// Picks the single output target of a reduce job: some machine of the
/// live view, or nothing when none is live.
pub fn select_reduce_target(active: &Vec<String>) -> (r: Option<String>)
    ensures
        match r {
            Some(t) => contains_seq(active.deep_view(), t@),
            None => active.deep_view().len() == 0,
        },
{
    choose_one(active)
}

/// Picks the receivers that a finished reduce job's output is copied to:
/// as many distinct live machines as are wanted and available, never the
/// output target itself nor a machine that already received it.
pub fn plan_output_replication(
    active: &Vec<String>,
    target: &str,
    already: &Vec<String>,
    missing: usize,
) -> (r: Vec<String>)
    requires
        distinct_seqs(active.deep_view()),
    ensures
        distinct_seqs(r.deep_view()),
        forall|i: int|
            0 <= i < r.deep_view().len() ==> contains_seq(
                active.deep_view(),
                #[trigger] r.deep_view()[i],
            ) && r.deep_view()[i] != target@ && !contains_seq(
                already.deep_view(),
                r.deep_view()[i],
            ),
        r.deep_view().len() == ({
            let pool = filter_not_in(
                filter_not_in(active.deep_view(), seq![target@]),
                already.deep_view(),
            );
            if missing as int <= pool.len() {
                missing as int
            } else {
                pool.len() as int
            }
        }),
{
    let mut excl: Vec<String> = Vec::new();
    excl.push(target.to_owned());
    proof {
        assert(excl.deep_view() =~= seq![target@]);
    }
    let stage = names_difference(active, &excl);
    let pool = names_difference(&stage, already);
    proof {
        lemma_filter_not_in_distinct(active.deep_view(), excl.deep_view(), active@.len() as int);
        lemma_filter_not_in_distinct(stage.deep_view(), already.deep_view(), stage@.len() as int);
        lemma_filter_not_in_membership(active.deep_view(), excl.deep_view(), active@.len() as int);
        lemma_filter_not_in_membership(stage.deep_view(), already.deep_view(), stage@.len() as int);
    }
    let r = sample_distinct(&pool, missing);
    proof {
        assert forall|i: int| 0 <= i < r.deep_view().len() implies contains_seq(
            active.deep_view(),
            #[trigger] r.deep_view()[i],
        ) && r.deep_view()[i] != target@ && !contains_seq(
            already.deep_view(),
            r.deep_view()[i],
        ) by {
            assert(contains_seq(pool.deep_view(), r.deep_view()[i]));
            assert(!contains_seq(seq![target@], r.deep_view()[i]));
            if r.deep_view()[i] == target@ {
                assert(seq![target@][0] == r.deep_view()[i]);
            }
        }
    }
    r
}

/// Picks the candidate set of a PUT: four distinct machines drawn uniformly
/// from the live view, or nothing when fewer than four machines are live.
/// Every candidate comes from the view handed in.
pub fn select_put_candidates(active: &Vec<String>) -> (r: Option<Vec<String>>)
    requires
        distinct_seqs(active.deep_view()),
    ensures
        match r {
            Some(c) => {
                &&& active.deep_view().len() >= REPLICA_TARGET
                &&& c.deep_view().len() == REPLICA_TARGET
                &&& distinct_seqs(c.deep_view())
                &&& forall|i: int|
                    0 <= i < c.deep_view().len() ==> contains_seq(
                        active.deep_view(),
                        #[trigger] c.deep_view()[i],
                    )
            },
            None => active.deep_view().len() < REPLICA_TARGET,
        },
{
    if active.len() < REPLICA_TARGET {
        None
    } else {
        Some(sample_distinct(active, REPLICA_TARGET))
    }
}

/// One planned transfer of a repair round: `sender` proxies the file to
/// `receiver`.
#[derive(Clone, Debug, PartialEq)]
pub struct RepairStep {
    pub sender: String,
    pub receiver: String,
}

/// Plans one round of re-replication for a file. `remaining` are the
/// survivors still holding it, `live` the machines of the current view,
/// `already` the receivers that succeeded in earlier rounds, and `missing`
/// how many new holders are wanted. Receivers are distinct machines drawn
/// from the live view, excluding current holders and earlier successes;
/// senders repeat the first chosen survivor when the survivors run out.
pub fn plan_repair(
    remaining: &Vec<String>,
    live: &Vec<String>,
    already: &Vec<String>,
    missing: usize,
) -> (r: Vec<RepairStep>)
    requires
        distinct_seqs(remaining.deep_view()),
        distinct_seqs(live.deep_view()),
        remaining.deep_view().len() > 0,
    ensures
        ({
            let pool = filter_not_in(
                filter_not_in(live.deep_view(), remaining.deep_view()),
                already.deep_view(),
            );
            &&& r@.len() == if missing as int <= pool.len() {
                missing as int
            } else {
                pool.len() as int
            }
            &&& forall|i: int, j: int|
                0 <= i < j < r@.len() ==> #[trigger] r@[i].receiver@ != #[trigger] r@[j].receiver@
            &&& forall|i: int|
                0 <= i < r@.len() ==> contains_seq(live.deep_view(), #[trigger] r@[i].receiver@)
                    && !contains_seq(remaining.deep_view(), r@[i].receiver@) && !contains_seq(
                    already.deep_view(),
                    r@[i].receiver@,
                )
            &&& forall|i: int|
                0 <= i < r@.len() ==> contains_seq(remaining.deep_view(), #[trigger] r@[i].sender@)
        }),
{
    let stage = names_difference(live, remaining);
    let pool = names_difference(&stage, already);
    proof {
        lemma_filter_not_in_distinct(live.deep_view(), remaining.deep_view(), live@.len() as int);
        lemma_filter_not_in_distinct(stage.deep_view(), already.deep_view(), stage@.len() as int);
        lemma_filter_not_in_membership(live.deep_view(), remaining.deep_view(), live@.len() as int);
        lemma_filter_not_in_membership(stage.deep_view(), already.deep_view(), stage@.len() as int);
    }
    let receivers = sample_distinct(&pool, missing);
    let senders = sample_distinct(remaining, missing);
    let mut r: Vec<RepairStep> = Vec::new();
    let mut i: usize = 0;
    let n = receivers.len();
    while i < n
        invariant
            i <= n,
            n == receivers.deep_view().len(),
            n <= missing,
            n > 0 ==> senders@.len() > 0,
            r@.len() == i,
            distinct_seqs(receivers.deep_view()),
            forall|k: int|
                0 <= k < n ==> contains_seq(pool.deep_view(), #[trigger] receivers.deep_view()[k]),
            forall|k: int|
                0 <= k < senders@.len() ==> contains_seq(
                    remaining.deep_view(),
                    #[trigger] senders.deep_view()[k],
                ),
            forall|k: int| 0 <= k < i ==> #[trigger] r@[k].receiver@ == receivers.deep_view()[k],
            forall|k: int|
                0 <= k < i ==> contains_seq(remaining.deep_view(), #[trigger] r@[k].sender@),
            forall|x: Seq<char>|
                contains_seq(pool.deep_view(), x) ==> contains_seq(live.deep_view(), x)
                    && !contains_seq(remaining.deep_view(), x) && !contains_seq(
                    already.deep_view(),
                    x,
                ),
        decreases n - i,
    {
        let sender = if i < senders.len() {
            senders[i].clone()
        } else {
            senders[0].clone()
        };
        proof {
            if i < senders@.len() {
                assert(cloned::<String>(senders@[i as int], sender));
                assert(senders.deep_view()[i as int] == senders@[i as int]@);
            } else {
                assert(cloned::<String>(senders@[0], sender));
                assert(senders.deep_view()[0] == senders@[0]@);
            }
        }
        let receiver = receivers[i].clone();
        proof {
            assert(cloned::<String>(receivers@[i as int], receiver));
            assert(receivers.deep_view()[i as int] == receivers@[i as int]@);
        }
        r.push(RepairStep { sender, receiver });
        i = i + 1;
    }
    r
}

/// A replica list grown by the receivers that acknowledged: the commit step
/// of one repair round. The result keeps every current holder and appends
/// every new one.
pub fn extend_replicas(current: &Vec<String>, added: &Vec<String>) -> (r: Vec<String>)
    requires
        distinct_seqs(current.deep_view()),
        distinct_seqs(added.deep_view()),
        forall|i: int|
            0 <= i < added.deep_view().len() ==> !contains_seq(
                current.deep_view(),
                #[trigger] added.deep_view()[i],
            ),
    ensures
        r.deep_view() == current.deep_view() + added.deep_view(),
        distinct_seqs(r.deep_view()),
        r.deep_view().len() == current.deep_view().len() + added.deep_view().len(),
{
    let mut r = crate::strutil::clone_names(current);
    let more = crate::strutil::clone_names(added);
    let mut i: usize = 0;
    let ghost cview = current.deep_view();
    let ghost aview = added.deep_view();
    proof {
        assert(r.deep_view() =~= cview);
        assert(more.deep_view() =~= aview);
    }
    while i < more.len()
        invariant
            i <= more@.len(),
            more.deep_view() == aview,
            aview.len() == more@.len(),
            r.deep_view() == cview + aview.subrange(0, i as int),
        decreases more@.len() - i,
    {
        let x = more[i].clone();
        proof {
            assert(cloned::<String>(more@[i as int], x));
            assert(more.deep_view()[i as int] == more@[i as int]@);
            assert(x@ == aview[i as int]);
        }
        let ghost prevv = r@;
        let ghost prevdv = r.deep_view();
        proof {
            assert(prevdv == cview + aview.subrange(0, i as int));
            assert(prevv.len() == prevdv.len());
            assert(prevv.len() == cview.len() + i);
        }
        r.push(x);
        proof {
            assert(r@ == prevv.push(x));
            assert forall|k: int| 0 <= k < r@.len() implies r.deep_view()[k] == (cview
                + aview.subrange(0, i + 1 as int))[k] by {
                if k < prevv.len() {
                    assert(r@[k] == prevv[k]);
                    assert(r.deep_view()[k] == prevv[k]@);
                    assert(prevdv[k] == prevv[k]@);
                    if k < cview.len() {
                        assert(prevdv[k] == cview[k]);
                        assert((cview + aview.subrange(0, i + 1 as int))[k] == cview[k]);
                    } else {
                        assert(prevdv[k] == aview.subrange(0, i as int)[k - cview.len()]);
                        assert(aview.subrange(0, i as int)[k - cview.len()] == aview[k
                            - cview.len()]);
                        assert((cview + aview.subrange(0, i + 1 as int))[k] == aview.subrange(
                            0,
                            i + 1 as int,
                        )[k - cview.len()]);
                    }
                } else {
                    assert(r@[k] == x);
                    assert((cview + aview.subrange(0, i + 1 as int))[k] == aview[i as int]);
                }
            }
            assert(r.deep_view() =~= cview + aview.subrange(0, i + 1 as int));
        }
        i = i + 1;
    }
    proof {
        assert(aview.subrange(0, aview.len() as int) =~= aview);
        assert(distinct_seqs(cview + aview)) by {
            let joined = cview + aview;
            assert forall|a: int, b: int| 0 <= a < b < joined.len() implies joined[a]
                != joined[b] by {
                if a < cview.len() && b >= cview.len() {
                    assert(joined[b] == aview[b - cview.len()]);
                    assert(!contains_seq(cview, aview[b - cview.len()]));
                    if joined[a] == joined[b] {
                        assert(contains_seq(cview, aview[b - cview.len()]));
                    }
                }
            }
        }
    }
    r
}

/// Replica-set monotonicity in steady state: while no machine that holds
/// the file is lost, the failure sweep removes nothing from its replica
/// list, and committing a repair round only appends, so the list never
/// shrinks.
pub proof fn lemma_steady_state_monotonic(
    reps: Seq<Seq<char>>,
    lost: Seq<Seq<char>>,
    added: Seq<Seq<char>>,
)
    requires
        forall|i: int| 0 <= i < reps.len() ==> !contains_seq(lost, #[trigger] reps[i]),
    ensures
        filter_not_in(reps, lost) == reps,
        (filter_not_in(reps, lost) + added).len() >= reps.len(),
{
    assert forall|i: int| 0 <= i <= reps.len() implies filter_not_in_upto_eq(reps, lost, i) by {
        lemma_untouched_prefix(reps, lost, i);
    }
    lemma_untouched_prefix(reps, lost, reps.len() as int);
    assert(filter_not_in(reps, lost) =~= reps);
}

spec fn filter_not_in_upto_eq(reps: Seq<Seq<char>>, lost: Seq<Seq<char>>, i: int) -> bool {
    crate::strutil::filter_not_in_upto(reps, lost, i) =~= reps.subrange(0, if i < 0 {
        0
    } else {
        i
    })
}

proof fn lemma_untouched_prefix(reps: Seq<Seq<char>>, lost: Seq<Seq<char>>, i: int)
    requires
        0 <= i <= reps.len(),
        forall|j: int| 0 <= j < reps.len() ==> !contains_seq(lost, #[trigger] reps[j]),
    ensures
        crate::strutil::filter_not_in_upto(reps, lost, i) =~= reps.subrange(0, i),
    decreases i,
{
    if i > 0 {
        lemma_untouched_prefix(reps, lost, i - 1);
    }
}

/// Re-replication convergence, the deterministic core. With `remaining`
/// the survivors of a replica set of prior size `target`, and a live view
/// of at least `target` distinct machines, the receiver pool holds at least
/// the `missing = target - |remaining|` machines a repair round asks for;
/// the round therefore plans exactly `missing` transfers, and if all of
/// them acknowledge, the committed replica list is back to size `target`.
pub proof fn lemma_repair_restores_size(
    remaining: Seq<Seq<char>>,
    live: Seq<Seq<char>>,
    target: int,
)
    requires
        distinct_seqs(live),
        distinct_seqs(remaining),
        live.len() >= target,
        0 < remaining.len() <= target,
        forall|i: int| 0 <= i < remaining.len() ==> contains_seq(live, #[trigger] remaining[i]),
    ensures
        filter_not_in(filter_not_in(live, remaining), Seq::<Seq<char>>::empty()).len() >= target
            - remaining.len(),
        remaining.len() + (target - remaining.len()) == target,
{
    let pool = filter_not_in(live, remaining);
    lemma_filter_not_in_distinct(live, remaining, live.len() as int);
    lemma_filter_not_in_membership(live, remaining, live.len() as int);
    lemma_untouched_outer(pool, remaining);
    // counting: |pool| >= |live| - |remaining|
    assert(live.no_duplicates());
    assert(pool.no_duplicates());
    live.unique_seq_to_set();
    pool.unique_seq_to_set();
    remaining.lemma_cardinality_of_set();
    broadcast use vstd::seq_lib::seq_to_set_is_finite;
    broadcast use vstd::set::group_set_axioms;

    assert(live.to_set().subset_of(pool.to_set().union(remaining.to_set()))) by {
        assert forall|x: Seq<char>| live.to_set().contains(x) implies pool.to_set().union(
            remaining.to_set(),
        ).contains(x) by {
            assert(live.contains(x));
            let j = choose|j: int| 0 <= j < live.len() && live[j] == x;
            if contains_seq(remaining, x) {
                let k = choose|k: int| 0 <= k < remaining.len() && remaining[k] == x;
                assert(remaining.to_set().contains(x));
            } else {
                assert(contains_seq(pool, live[j]));
                let k = choose|k: int| 0 <= k < pool.len() && pool[k] == x;
                assert(pool.contains(x));
            }
        }
    }
    lemma_len_union(pool.to_set(), remaining.to_set());
    lemma_len_subset(live.to_set(), pool.to_set().union(remaining.to_set()));
}

proof fn lemma_untouched_outer(pool: Seq<Seq<char>>, remaining: Seq<Seq<char>>)
    ensures
        filter_not_in(pool, Seq::<Seq<char>>::empty()) =~= pool,
{
    assert forall|j: int| 0 <= j < pool.len() implies !contains_seq(
        Seq::<Seq<char>>::empty(),
        #[trigger] pool[j],
    ) by {}
    lemma_untouched_prefix(pool, Seq::<Seq<char>>::empty(), pool.len() as int);
}

} // verus!
