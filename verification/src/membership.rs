use vstd::prelude::*;
use vstd::string::*;

use crate::node::Node;
use crate::node::T_CLEAN_MS;
use crate::node::T_FAIL_MS;
use crate::strutil::contains_seq;
use crate::strutil::distinct_seqs;
use crate::strutil::first_underscore;
use crate::strutil::has_prefix;
use crate::strutil::lemma_first_underscore_at;
use crate::strutil::names_contain;
use crate::strutil::spec_ip;
use crate::strutil::node_ip;
use crate::strutil::str_eq;
use crate::strutil::str_starts_with;

verus! {

/// One advertised peer inside a gossip message: its identifier, the
/// sender's heartbeat for it, and the sender's last-refresh time as an
/// RFC 3339 string.
#[derive(Clone, Debug, PartialEq)]
pub struct Member {
    pub id: String,
    pub heartbeat: u32,
    pub time: String,
}

/// The gossip payload: the sender's identifier and its non-failed view.
#[derive(Clone, Debug, PartialEq)]
pub struct MemberList {
    pub sender: String,
    pub machines: Vec<Member>,
}

/// A bully `Coordinator` message naming the new leader.
#[derive(Clone, Debug, PartialEq)]
pub struct Coordinator {
    pub leader_ip: String,
}

/// A bully `Election` probe.
#[derive(Clone, Debug, PartialEq)]
pub struct Election {}

/// The reply to an `Election` probe.
#[derive(Clone, Debug, PartialEq)]
pub struct OkReply {}

/// The failure-detection envelope carried on the gossip port.
#[derive(Clone, Debug, PartialEq)]
pub enum FailureDetection {
    Members(MemberList),
    Coord(Coordinator),
    Elect(Election),
    OkReply(OkReply),
}

/// What an RFC 3339 timestamp string denotes, in non-leap milliseconds
/// since the epoch, or nothing when the string does not parse.
pub uninterp spec fn rfc3339_parse_ms(s: Seq<char>) -> Option<i64>;

/// Relies on chrono's `DateTime::parse_from_rfc3339` and
/// `timestamp_millis`: whether a string parses, and the instant it names,
/// depend on the string alone.
#[verifier::external_body]
pub fn parse_rfc3339_ms(s: &str) -> (r: Option<i64>)
    ensures
        r == rfc3339_parse_ms(s@),
{
    match chrono::DateTime::parse_from_rfc3339(s) {
        Ok(dt) => Some(dt.timestamp_millis()),
        Err(_) => None,
    }
}

/// Highest millisecond value that chrono renders; its documented range
/// covers years up to about 262,000.
pub const RENDER_MAX_MS: i64 = 8000000000000000;

/// The RFC 3339 rendering of an instant given in milliseconds since the
/// epoch.
pub uninterp spec fn rfc3339_render(ms: i64) -> Seq<char>;

/// Relies on chrono's `DateTime::<Utc>::from_timestamp_millis` and
/// `to_rfc3339`: the rendering depends on the millisecond value alone, and
/// chrono documents that every value within its date range renders.
#[verifier::external_body]
pub fn format_rfc3339_ms(ms: i64) -> (r: Option<String>)
    ensures
        match r {
            Some(s) => s@ == rfc3339_render(ms),
            None => true,
        },
        0 <= ms <= RENDER_MAX_MS ==> r is Some,
{
    chrono::DateTime::<chrono::Utc>::from_timestamp_millis(ms).map(|dt| dt.to_rfc3339())
}

/// The identifiers of a view, in view order.
pub open spec fn ids_of(v: Seq<Node>) -> Seq<Seq<char>> {
    Seq::new(v.len(), |i: int| v[i].spec_id())
}

/// Identifiers in a view are unique.
pub open spec fn view_wf(v: Seq<Node>) -> bool {
    forall|i: int, j: int|
        0 <= i < j < v.len() ==> (#[trigger] v[i]).spec_id() != (#[trigger] v[j]).spec_id()
}

/// The view holds a node with identifier `id`.
pub open spec fn has_id(v: Seq<Node>, id: Seq<char>) -> bool {
    exists|i: int| 0 <= i < v.len() && (#[trigger] v[i]).spec_id() == id
}

/// The index of the node with identifier `id` (meaningful under `has_id`
/// and `view_wf`).
pub open spec fn idx_of_id(v: Seq<Node>, id: Seq<char>) -> int {
    choose|i: int| 0 <= i < v.len() && (#[trigger] v[i]).spec_id() == id
}

/// In a well-formed view the node found at an index is the node the
/// specification functions speak of.
pub proof fn lemma_view_index_unique(v: Seq<Node>, i: int)
    requires
        view_wf(v),
        0 <= i < v.len(),
    ensures
        idx_of_id(v, v[i].spec_id()) == i,
{
    assert(has_id(v, v[i].spec_id()));
    let j = idx_of_id(v, v[i].spec_id());
    if j != i {
        assert(v[i].spec_id() != v[j].spec_id());
    }
}

/// The identifier was already in the view or advertised by the message.
pub open spec fn known_or_advertised(v: Seq<Node>, msg: &MemberList, id: Seq<char>) -> bool {
    ||| has_id(v, id)
    ||| id == msg.sender@
    ||| exists|k: int| 0 <= k < msg.machines@.len() && (#[trigger] msg.machines@[k]).id@ == id
}

/// The heartbeat the view records for `id` (meaningful under `has_id` and
/// `view_wf`).
pub open spec fn hb_of(v: Seq<Node>, id: Seq<char>) -> u32 {
    v[idx_of_id(v, id)].spec_heartbeat()
}

/// The last-refresh time the view records for `id` (meaningful under
/// `has_id` and `view_wf`).
pub open spec fn time_of(v: Seq<Node>, id: Seq<char>) -> i64 {
    v[idx_of_id(v, id)].spec_time()
}

/// The suspicion flag the view records for `id` (meaningful under `has_id`
/// and `view_wf`).
pub open spec fn fail_of(v: Seq<Node>, id: Seq<char>) -> bool {
    v[idx_of_id(v, id)].spec_fail()
}

/// A heartbeat raised by one, saturating at the counter's ceiling.
pub open spec fn bumped(h: u32) -> u32 {
    if h < u32::MAX {
        (h + 1) as u32
    } else {
        h
    }
}

/// The heartbeat the sender rule leaves: one past the recorded count, or
/// one for a sender never seen before.
pub open spec fn sender_start_hb(orig: Seq<Node>, sender: Seq<char>) -> u32 {
    if has_id(orig, sender) {
        bumped(hb_of(orig, sender))
    } else {
        1u32
    }
}

/// The message's entry at `q` advertises `id` (entries for the local node
/// never count: the merge skips them).
pub open spec fn entry_for(msg: &MemberList, local: Seq<char>, id: Seq<char>, q: int) -> bool {
    0 <= q < msg.machines@.len() && msg.machines@[q].id@ == id && id != local
}

/// Some entry for `id` advertises exactly heartbeat `h`.
pub open spec fn some_entry_hb(msg: &MemberList, local: Seq<char>, id: Seq<char>, h: u32) -> bool {
    exists|q: int| #[trigger] entry_for(msg, local, id, q) && msg.machines@[q].heartbeat == h
}

/// No entry for `id` among the first `k` advertises past `h`.
pub open spec fn entries_upto_at_most(
    msg: &MemberList,
    local: Seq<char>,
    id: Seq<char>,
    h: u32,
    k: int,
) -> bool {
    forall|q: int|
        0 <= q < k && #[trigger] entry_for(msg, local, id, q) ==> msg.machines@[q].heartbeat <= h
}

/// The advertised time of the entry at `q`, with an unparsable string
/// counting as the epoch.
pub open spec fn entry_time_ms(msg: &MemberList, q: int) -> i64 {
    match rfc3339_parse_ms(msg.machines@[q].time@) {
        Some(t) => t,
        None => 0,
    }
}

/// `id`'s node carries exactly the same heartbeat, time and flag in both
/// views.
pub open spec fn node_same(a: Seq<Node>, b: Seq<Node>, id: Seq<char>) -> bool {
    &&& hb_of(b, id) == hb_of(a, id)
    &&& time_of(b, id) == time_of(a, id)
    &&& fail_of(b, id) == fail_of(a, id)
}

/// Merge rule for the sender, settled: its time is refreshed to local now
/// and its suspicion cleared; its heartbeat is the bumped count, unless the
/// sender's own advertised entry ran past it, in which case it is the
/// largest such advertisement.
pub open spec fn sender_settled(
    orig: Seq<Node>,
    fin: Seq<Node>,
    msg: &MemberList,
    local: Seq<char>,
    now: int,
    k: int,
) -> bool {
    let s = msg.sender@;
    let start = sender_start_hb(orig, s);
    &&& has_id(fin, s)
    &&& time_of(fin, s) == now
    &&& !fail_of(fin, s)
    &&& hb_of(fin, s) >= start
    &&& (hb_of(fin, s) == start || some_entry_hb(msg, local, s, hb_of(fin, s)))
    &&& entries_upto_at_most(msg, local, s, hb_of(fin, s), k)
}

/// Merge rule for a known peer other than the sender, after the first `k`
/// entries: while no advertisement ran past its recorded heartbeat, the
/// node is untouched — a stale advertisement is never applied; once one
/// did, the node carries the largest advertised heartbeat so far, its time
/// refreshed to local now and its suspicion cleared.
pub open spec fn peer_settled(
    orig: Seq<Node>,
    fin: Seq<Node>,
    msg: &MemberList,
    local: Seq<char>,
    now: int,
    k: int,
    i: int,
) -> bool {
    let id = orig[i].spec_id();
    id != msg.sender@ ==> {
        if entries_upto_at_most(msg, local, id, orig[i].spec_heartbeat(), k) {
            &&& hb_of(fin, id) == orig[i].spec_heartbeat()
            &&& time_of(fin, id) == orig[i].spec_time()
            &&& fail_of(fin, id) == orig[i].spec_fail()
        } else {
            &&& hb_of(fin, id) > orig[i].spec_heartbeat()
            &&& some_entry_hb(msg, local, id, hb_of(fin, id))
            &&& entries_upto_at_most(msg, local, id, hb_of(fin, id), k)
            &&& time_of(fin, id) == now
            &&& !fail_of(fin, id)
        }
    }
}

/// Merge rule for a fresh identifier: one neither held before nor naming
/// the sender stands in the view only with its suspicion clear, a
/// heartbeat some entry advertised, a time that is an entry's advertised
/// time or local now, and only because some entry for it fell within the
/// cleanup window.
pub open spec fn inserted_ok(
    orig: Seq<Node>,
    fin: Seq<Node>,
    msg: &MemberList,
    local: Seq<char>,
    now: int,
    j: int,
) -> bool {
    let id = fin[j].spec_id();
    (!has_id(orig, id) && id != msg.sender@) ==> {
        &&& !fin[j].spec_fail()
        &&& some_entry_hb(msg, local, id, fin[j].spec_heartbeat())
        &&& exists|q: int|
            #[trigger] entry_for(msg, local, id, q) && entry_time_ms(msg, q) > now - T_CLEAN_MS
        &&& (fin[j].spec_time() == now || exists|q: int|
            #[trigger] entry_for(msg, local, id, q) && fin[j].spec_time() == entry_time_ms(msg, q))
    }
}

/// Merge rule for a known peer: an advertised heartbeat ahead of the one
/// recorded at the start is applied, so the view ends at least that far.
pub open spec fn advertised_hb_absorbed(
    orig: Seq<Node>,
    cur: Seq<Node>,
    msg: &MemberList,
    local: Seq<char>,
    q: int,
) -> bool {
    let m = msg.machines@[q];
    (m.id@ != local && has_id(orig, m.id@) && m.heartbeat > hb_of(orig, m.id@)) ==> (has_id(
        cur,
        m.id@,
    ) && hb_of(cur, m.id@) >= m.heartbeat)
}

/// Merge rule for an unknown peer: an advertised identifier whose time
/// falls within the cleanup window joins the view (a time that does not
/// parse counts as the epoch).
pub open spec fn advertised_peer_joined(
    cur: Seq<Node>,
    msg: &MemberList,
    local: Seq<char>,
    now: int,
    q: int,
) -> bool {
    let m = msg.machines@[q];
    let t = match rfc3339_parse_ms(m.time@) {
        Some(t) => t,
        None => 0,
    };
    (m.id@ != local && t > now - T_CLEAN_MS) ==> has_id(cur, m.id@)
}

proof fn lemma_upto_breach_extends(
    msg: &MemberList,
    local: Seq<char>,
    id: Seq<char>,
    h: u32,
    k: int,
)
    requires
        0 <= k,
        !entries_upto_at_most(msg, local, id, h, k),
    ensures
        !entries_upto_at_most(msg, local, id, h, k + 1),
{
    assert(exists|q: int|
        0 <= q < k && #[trigger] entry_for(msg, local, id, q) && msg.machines@[q].heartbeat > h);
    let q0 = choose|q0: int|
        0 <= q0 < k && #[trigger] entry_for(msg, local, id, q0) && msg.machines@[q0].heartbeat
            > h;
    assert(0 <= q0 < k + 1 && entry_for(msg, local, id, q0) && msg.machines@[q0].heartbeat > h);
}

proof fn lemma_upto_skip_extends(msg: &MemberList, local: Seq<char>, id: Seq<char>, h: u32, k: int)
    requires
        entries_upto_at_most(msg, local, id, h, k),
        !entry_for(msg, local, id, k),
    ensures
        entries_upto_at_most(msg, local, id, h, k + 1),
{
    assert forall|q: int| 0 <= q < k + 1 && #[trigger] entry_for(msg, local, id, q) implies
        msg.machines@[q].heartbeat <= h by {
        if q == k {
            assert(false);
        }
    }
}

/// Finds the node with the given identifier.
fn find_node(view: &Vec<Node>, id: &str) -> (r: Option<usize>)
    ensures
        match r {
            Some(i) => i < view@.len() && view@[i as int].spec_id() == id@,
            None => !has_id(view@, id@),
        },
{
    let n = view.len();
    let mut i: usize = 0;
    while i < n
        invariant
            i <= n,
            n == view@.len(),
            forall|j: int| 0 <= j < i ==> (#[trigger] view@[j]).spec_id() != id@,
        decreases n - i,
    {
        if str_eq(view[i].id().as_str(), id) {
            return Some(i);
        }
        i = i + 1;
    }
    None
}

/// Applies one received gossip message to the local view, at local
/// wall-clock `now` (milliseconds). The sender's count is bumped by one —
/// or it joins with count one — with its time refreshed and its suspicion
/// cleared; a known peer absorbs the largest advertised heartbeat ahead of
/// its own, refreshed and cleared, and is untouched by stale
/// advertisements; an unknown peer joins exactly when a non-local entry
/// for it falls within the cleanup window, carrying the advertised count
/// and time. No node is removed, no identifier is invented, and no
/// heartbeat moves backwards.
pub fn merge_member_list(view: &mut Vec<Node>, msg: &MemberList, local_id: &str, now: i64)
    requires
        view_wf(old(view)@),
        now >= 0,
    ensures
        view_wf(final(view)@),
        final(view)@.len() >= old(view)@.len(),
        forall|i: int|
            0 <= i < old(view)@.len() ==> has_id(
                final(view)@,
                (#[trigger] old(view)@[i]).spec_id(),
            ) && final(view)@[idx_of_id(final(view)@, old(view)@[i].spec_id())].spec_heartbeat()
                >= old(view)@[i].spec_heartbeat(),
        forall|j: int|
            0 <= j < final(view)@.len() ==> known_or_advertised(
                old(view)@,
                msg,
                (#[trigger] final(view)@[j]).spec_id(),
            ),
        has_id(final(view)@, msg.sender@),
        sender_settled(
            old(view)@,
            final(view)@,
            msg,
            local_id@,
            now as int,
            msg.machines@.len() as int,
        ),
        forall|i: int|
            0 <= i < old(view)@.len() ==> #[trigger] peer_settled(
                old(view)@,
                final(view)@,
                msg,
                local_id@,
                now as int,
                msg.machines@.len() as int,
                i,
            ),
        forall|j: int|
            0 <= j < final(view)@.len() ==> #[trigger] inserted_ok(
                old(view)@,
                final(view)@,
                msg,
                local_id@,
                now as int,
                j,
            ),
        forall|q: int|
            0 <= q < msg.machines@.len() ==> #[trigger] advertised_hb_absorbed(
                old(view)@,
                final(view)@,
                msg,
                local_id@,
                q,
            ),
        forall|q: int|
            0 <= q < msg.machines@.len() ==> #[trigger] advertised_peer_joined(
                final(view)@,
                msg,
                local_id@,
                now as int,
                q,
            ),
{
    let ghost orig = view@;
    // rule for the sender itself: bump or insert with heartbeat 1
    match find_node(view, msg.sender.as_str()) {
        Some(i) => {
            let (id_c, hb) = {
                let nd = &view[i];
                (nd.id().clone(), nd.heartbeat())
            };
            let bumped: u32 = if hb < u32::MAX {
                hb + 1
            } else {
                hb
            };
            let fresh = Node::new(id_c, bumped, now, false);
            view[i] = fresh;
            proof {
                lemma_view_index_unique(orig, i as int);
            }
        },
        None => {
            let fresh = Node::new(msg.sender.clone(), 1, now, false);
            view.push(fresh);
        },
    }
    proof {
        assert(view_wf(view@)) by {
            assert forall|a: int, b: int| 0 <= a < b < view@.len() implies (
            #[trigger] view@[a]).spec_id() != (#[trigger] view@[b]).spec_id() by {
                if b < orig.len() {
                    assert(orig[a].spec_id() != orig[b].spec_id());
                } else if b == orig.len() && view@.len() > orig.len() {
                    assert(!has_id(orig, msg.sender@));
                    assert(orig[a].spec_id() != msg.sender@);
                }
            }
        }
        assert forall|i: int| 0 <= i < orig.len() implies has_id(
            view@,
            (#[trigger] orig[i]).spec_id(),
        ) && view@[idx_of_id(view@, orig[i].spec_id())].spec_heartbeat()
            >= orig[i].spec_heartbeat() by {
            assert(view@[i].spec_id() == orig[i].spec_id());
            lemma_view_index_unique(view@, i);
            assert(view@[i].spec_heartbeat() >= orig[i].spec_heartbeat());
        }
        assert forall|j: int| 0 <= j < view@.len() implies known_or_advertised(
            orig,
            msg,
            (#[trigger] view@[j]).spec_id(),
        ) by {
            if j < orig.len() {
                assert(has_id(orig, orig[j].spec_id()));
            }
        }
        assert(has_id(view@, msg.sender@)) by {
            if orig.len() < view@.len() {
                assert(view@[orig.len() as int].spec_id() == msg.sender@);
            }
        }
        assert(sender_settled(orig, view@, msg, local_id@, now as int, 0)) by {
            let s = msg.sender@;
            if has_id(orig, s) {
                let i0 = idx_of_id(orig, s);
                assert(0 <= i0 < orig.len() && orig[i0].spec_id() == s);
                assert(view@.len() == orig.len());
                assert(view@[i0].spec_id() == s);
                lemma_view_index_unique(view@, i0);
                assert(view@[i0].spec_heartbeat() == bumped(orig[i0].spec_heartbeat()));
                assert(view@[i0].spec_time() == now);
                assert(!view@[i0].spec_fail());
            } else {
                assert(view@[orig.len() as int].spec_id() == s);
                lemma_view_index_unique(view@, orig.len() as int);
                assert(view@[orig.len() as int].spec_heartbeat() == 1u32);
                assert(view@[orig.len() as int].spec_time() == now);
                assert(!view@[orig.len() as int].spec_fail());
            }
        }
        assert forall|i: int| 0 <= i < orig.len() implies #[trigger] peer_settled(
            orig,
            view@,
            msg,
            local_id@,
            now as int,
            0,
            i,
        ) by {
            let id = orig[i].spec_id();
            if id != msg.sender@ {
                assert(view@[i].spec_id() == id);
                lemma_view_index_unique(view@, i);
                assert(view@[i].spec_heartbeat() == orig[i].spec_heartbeat());
                assert(view@[i].spec_time() == orig[i].spec_time());
                assert(view@[i].spec_fail() == orig[i].spec_fail());
            }
        }
        assert forall|j: int| 0 <= j < view@.len() implies #[trigger] inserted_ok(
            orig,
            view@,
            msg,
            local_id@,
            now as int,
            j,
        ) by {
            if j < orig.len() {
                assert(view@[j].spec_id() == orig[j].spec_id());
                assert(has_id(orig, view@[j].spec_id()));
            } else {
                assert(view@[j].spec_id() == msg.sender@);
            }
        }
    }
    let ghost mid = view@;
    // rules for the advertised peers
    let m = msg.machines.len();
    let mut k: usize = 0;
    while k < m
        invariant
            m == msg.machines@.len(),
            k <= m,
            now >= 0,
            view_wf(view@),
            view@.len() >= mid.len(),
            forall|i: int|
                0 <= i < mid.len() ==> has_id(view@, (#[trigger] mid[i]).spec_id())
                    && view@[idx_of_id(view@, mid[i].spec_id())].spec_heartbeat()
                    >= mid[i].spec_heartbeat(),
            forall|j: int|
                0 <= j < view@.len() ==> known_or_advertised(
                    mid,
                    msg,
                    (#[trigger] view@[j]).spec_id(),
                ),
            has_id(view@, msg.sender@),
            forall|i: int|
                0 <= i < orig.len() ==> has_id(mid, (#[trigger] orig[i]).spec_id())
                    && mid[idx_of_id(mid, orig[i].spec_id())].spec_heartbeat()
                    >= orig[i].spec_heartbeat(),
            sender_settled(orig, view@, msg, local_id@, now as int, k as int),
            forall|i: int|
                0 <= i < orig.len() ==> #[trigger] peer_settled(
                    orig,
                    view@,
                    msg,
                    local_id@,
                    now as int,
                    k as int,
                    i,
                ),
            forall|j: int|
                0 <= j < view@.len() ==> #[trigger] inserted_ok(
                    orig,
                    view@,
                    msg,
                    local_id@,
                    now as int,
                    j,
                ),
            forall|q: int|
                0 <= q < k ==> #[trigger] advertised_hb_absorbed(orig, view@, msg, local_id@, q),
            forall|q: int|
                0 <= q < k ==> #[trigger] advertised_peer_joined(
                    view@,
                    msg,
                    local_id@,
                    now as int,
                    q,
                ),
        decreases m - k,
    {
        let ghost before = view@;
        let member = &msg.machines[k];
        if !str_eq(member.id.as_str(), local_id) {
            match find_node(view, member.id.as_str()) {
                Some(i) => {
                    let (id_c, hb) = {
                        let nd = &view[i];
                        (nd.id().clone(), nd.heartbeat())
                    };
                    proof {
                        lemma_view_index_unique(before, i as int);
                    }
                    if member.heartbeat > hb {
                        let fresh = Node::new(id_c, member.heartbeat, now, false);
                        view[i] = fresh;
                        proof {
                            assert(view_wf(view@)) by {
                                assert forall|a: int, b: int|
                                    0 <= a < b < view@.len() implies (
                                #[trigger] view@[a]).spec_id() != (
                                #[trigger] view@[b]).spec_id() by {
                                    assert(view@[a].spec_id() == before[a].spec_id());
                                    assert(view@[b].spec_id() == before[b].spec_id());
                                }
                            }
                            lemma_view_index_unique(view@, i as int);
                        }
                    }
                },
                None => {
                    let remote_ms = match parse_rfc3339_ms(member.time.as_str()) {
                        Some(t) => t,
                        None => 0,
                    };
                    // remote_ms + T_CLEAN_MS > now, written without overflow
                    if remote_ms > now - T_CLEAN_MS {
                        let fresh = Node::new(member.id.clone(), member.heartbeat, remote_ms, false);
                        view.push(fresh);
                    }
                },
            }
        }
        proof {
            assert(view_wf(view@)) by {
                assert forall|a: int, b: int| 0 <= a < b < view@.len() implies (
                #[trigger] view@[a]).spec_id() != (#[trigger] view@[b]).spec_id() by {
                    if b < before.len() {
                        assert(before[a].spec_id() != before[b].spec_id());
                    } else if b == before.len() && view@.len() > before.len() {
                        assert(!has_id(before, msg.machines@[k as int].id@));
                        assert(before[a].spec_id() != msg.machines@[k as int].id@);
                    }
                }
            }
            assert forall|i: int| 0 <= i < mid.len() implies has_id(
                view@,
                (#[trigger] mid[i]).spec_id(),
            ) && view@[idx_of_id(view@, mid[i].spec_id())].spec_heartbeat()
                >= mid[i].spec_heartbeat() by {
                let j = idx_of_id(before, mid[i].spec_id());
                assert(has_id(before, mid[i].spec_id()));
                assert(0 <= j < before.len() && before[j].spec_id() == mid[i].spec_id());
                assert(before[j].spec_heartbeat() >= mid[i].spec_heartbeat());
                assert(view@[j].spec_id() == before[j].spec_id());
                assert(view@[j].spec_heartbeat() >= before[j].spec_heartbeat());
                lemma_view_index_unique(view@, j);
            }
            assert forall|j: int| 0 <= j < view@.len() implies known_or_advertised(
                mid,
                msg,
                (#[trigger] view@[j]).spec_id(),
            ) by {
                if j < before.len() {
                    assert(known_or_advertised(mid, msg, before[j].spec_id()));
                    assert(view@[j].spec_id() == before[j].spec_id());
                } else {
                    assert(view@[j].spec_id() == msg.machines@[k as int].id@);
                }
            }
            assert(has_id(view@, msg.sender@)) by {
                let j = idx_of_id(before, msg.sender@);
                assert(0 <= j < before.len() && before[j].spec_id() == msg.sender@);
                assert(view@[j].spec_id() == msg.sender@);
            }
            // this step forgets nothing: identifiers persist, heartbeats never fall
            assert forall|x: Seq<char>| has_id(before, x) implies has_id(view@, x) && hb_of(
                view@,
                x,
            ) >= hb_of(before, x) by {
                let j = idx_of_id(before, x);
                assert(0 <= j < before.len() && before[j].spec_id() == x);
                assert(view@[j].spec_id() == x);
                assert(view@[j].spec_heartbeat() >= before[j].spec_heartbeat());
                lemma_view_index_unique(view@, j);
            }
            assert forall|q: int| 0 <= q < k + 1 implies #[trigger] advertised_hb_absorbed(
                orig,
                view@,
                msg,
                local_id@,
                q,
            ) by {
                let mq = msg.machines@[q];
                if mq.id@ != local_id@ && has_id(orig, mq.id@) && mq.heartbeat > hb_of(
                    orig,
                    mq.id@,
                ) {
                    let i0 = idx_of_id(orig, mq.id@);
                    assert(0 <= i0 < orig.len() && orig[i0].spec_id() == mq.id@);
                    assert(has_id(mid, mq.id@));
                    let j0 = idx_of_id(mid, mq.id@);
                    assert(0 <= j0 < mid.len() && mid[j0].spec_id() == mq.id@);
                    assert(mid[j0].spec_heartbeat() >= orig[i0].spec_heartbeat());
                    if q < k {
                        assert(advertised_hb_absorbed(orig, before, msg, local_id@, q));
                        assert(has_id(before, mq.id@) && hb_of(before, mq.id@) >= mq.heartbeat);
                        assert(has_id(view@, mq.id@) && hb_of(view@, mq.id@) >= hb_of(
                            before,
                            mq.id@,
                        ));
                    } else {
                        assert(has_id(before, mid[j0].spec_id()));
                        assert(has_id(before, mq.id@));
                        assert(hb_of(view@, mq.id@) >= mq.heartbeat);
                    }
                }
            }
            assert forall|q: int| 0 <= q < k + 1 implies #[trigger] advertised_peer_joined(
                view@,
                msg,
                local_id@,
                now as int,
                q,
            ) by {
                let mq = msg.machines@[q];
                let t = match rfc3339_parse_ms(mq.time@) {
                    Some(t) => t,
                    None => 0,
                };
                if mq.id@ != local_id@ && t > now - T_CLEAN_MS {
                    if q < k {
                        assert(advertised_peer_joined(before, msg, local_id@, now as int, q));
                        assert(has_id(before, mq.id@));
                        assert(has_id(view@, mq.id@) && hb_of(view@, mq.id@) >= hb_of(
                            before,
                            mq.id@,
                        ));
                    } else {
                        if !has_id(before, mq.id@) {
                            assert(view@.len() > before.len());
                            assert(view@[view@.len() - 1].spec_id() == mq.id@);
                        }
                    }
                }
            }
            let ghost eid = msg.machines@[k as int].id@;
            let ghost ehb = msg.machines@[k as int].heartbeat;
            // exact frame: every identifier the processed entry did not name
            // keeps its heartbeat, time and flag
            assert forall|x: Seq<char>| has_id(before, x) && x != eid implies has_id(view@, x)
                && node_same(before, view@, x) by {
                let j = idx_of_id(before, x);
                assert(0 <= j < before.len() && before[j].spec_id() == x);
                assert(view@[j].spec_id() == x);
                assert(view@[j].spec_heartbeat() == before[j].spec_heartbeat());
                assert(view@[j].spec_time() == before[j].spec_time());
                assert(view@[j].spec_fail() == before[j].spec_fail());
                lemma_view_index_unique(view@, j);
            }
            assert(sender_settled(orig, view@, msg, local_id@, now as int, k + 1)) by {
                let s = msg.sender@;
                assert(sender_settled(orig, before, msg, local_id@, now as int, k as int));
                if eid == s && s != local_id@ {
                    // the sender's own advertisement; the sender is present
                    assert(has_id(before, s));
                    if ehb > hb_of(before, s) {
                        assert(hb_of(view@, s) == ehb && time_of(view@, s) == now && !fail_of(
                            view@,
                            s,
                        ));
                        assert(entry_for(msg, local_id@, s, k as int));
                        assert(some_entry_hb(msg, local_id@, s, ehb));
                        assert forall|q: int| 0 <= q < k + 1 && #[trigger] entry_for(
                            msg,
                            local_id@,
                            s,
                            q,
                        ) implies msg.machines@[q].heartbeat <= ehb by {
                            if q < k {
                                assert(msg.machines@[q].heartbeat <= hb_of(before, s));
                            }
                        }
                    } else {
                        assert(node_same(before, view@, s));
                        assert forall|q: int| 0 <= q < k + 1 && #[trigger] entry_for(
                            msg,
                            local_id@,
                            s,
                            q,
                        ) implies msg.machines@[q].heartbeat <= hb_of(view@, s) by {}
                    }
                } else {
                    assert(!entry_for(msg, local_id@, s, k as int));
                    if eid != s {
                        assert(node_same(before, view@, s));
                    }
                    lemma_upto_skip_extends(msg, local_id@, s, hb_of(view@, s), k as int);
                }
            }
            assert forall|i: int| 0 <= i < orig.len() implies #[trigger] peer_settled(
                orig,
                view@,
                msg,
                local_id@,
                now as int,
                k + 1,
                i,
            ) by {
                let id = orig[i].spec_id();
                if id != msg.sender@ {
                    assert(peer_settled(orig, before, msg, local_id@, now as int, k as int, i));
                    if eid == id && id != local_id@ {
                        // this peer's own advertisement; the peer is present
                        assert(has_id(mid, id));
                        let j0 = idx_of_id(mid, id);
                        assert(0 <= j0 < mid.len() && mid[j0].spec_id() == id);
                        assert(has_id(before, mid[j0].spec_id()));
                        assert(has_id(before, id));
                        assert(entry_for(msg, local_id@, id, k as int));
                        if entries_upto_at_most(
                            msg,
                            local_id@,
                            id,
                            orig[i].spec_heartbeat(),
                            k as int,
                        ) {
                            assert(hb_of(before, id) == orig[i].spec_heartbeat());
                            if ehb > orig[i].spec_heartbeat() {
                                assert(hb_of(view@, id) == ehb && time_of(view@, id) == now
                                    && !fail_of(view@, id));
                                assert(some_entry_hb(msg, local_id@, id, ehb));
                                assert(!entries_upto_at_most(
                                    msg,
                                    local_id@,
                                    id,
                                    orig[i].spec_heartbeat(),
                                    k + 1,
                                ));
                                assert forall|q: int| 0 <= q < k + 1 && #[trigger] entry_for(
                                    msg,
                                    local_id@,
                                    id,
                                    q,
                                ) implies msg.machines@[q].heartbeat <= ehb by {
                                    if q < k {
                                        assert(msg.machines@[q].heartbeat
                                            <= orig[i].spec_heartbeat());
                                    }
                                }
                            } else {
                                assert(node_same(before, view@, id) || view@ == before);
                                assert forall|q: int| 0 <= q < k + 1 && #[trigger] entry_for(
                                    msg,
                                    local_id@,
                                    id,
                                    q,
                                ) implies msg.machines@[q].heartbeat
                                    <= orig[i].spec_heartbeat() by {}
                            }
                        } else {
                            lemma_upto_breach_extends(
                                msg,
                                local_id@,
                                id,
                                orig[i].spec_heartbeat(),
                                k as int,
                            );
                            if ehb > hb_of(before, id) {
                                assert(hb_of(view@, id) == ehb && time_of(view@, id) == now
                                    && !fail_of(view@, id));
                                assert(some_entry_hb(msg, local_id@, id, ehb));
                                assert forall|q: int| 0 <= q < k + 1 && #[trigger] entry_for(
                                    msg,
                                    local_id@,
                                    id,
                                    q,
                                ) implies msg.machines@[q].heartbeat <= ehb by {
                                    if q < k {
                                        assert(msg.machines@[q].heartbeat <= hb_of(before, id));
                                    }
                                }
                            } else {
                                assert forall|q: int| 0 <= q < k + 1 && #[trigger] entry_for(
                                    msg,
                                    local_id@,
                                    id,
                                    q,
                                ) implies msg.machines@[q].heartbeat <= hb_of(view@, id) by {}
                            }
                        }
                    } else {
                        if eid != id {
                            assert(has_id(mid, id));
                            let j0 = idx_of_id(mid, id);
                            assert(0 <= j0 < mid.len() && mid[j0].spec_id() == id);
                            assert(has_id(before, mid[j0].spec_id()));
                            assert(has_id(before, id));
                            assert(node_same(before, view@, id));
                        }
                        assert(!entry_for(msg, local_id@, id, k as int));
                        if entries_upto_at_most(
                            msg,
                            local_id@,
                            id,
                            orig[i].spec_heartbeat(),
                            k as int,
                        ) {
                            lemma_upto_skip_extends(
                                msg,
                                local_id@,
                                id,
                                orig[i].spec_heartbeat(),
                                k as int,
                            );
                        } else {
                            lemma_upto_breach_extends(
                                msg,
                                local_id@,
                                id,
                                orig[i].spec_heartbeat(),
                                k as int,
                            );
                            lemma_upto_skip_extends(msg, local_id@, id, hb_of(view@, id), k as int);
                        }
                    }
                }
            }
            assert forall|j: int| 0 <= j < view@.len() implies #[trigger] inserted_ok(
                orig,
                view@,
                msg,
                local_id@,
                now as int,
                j,
            ) by {
                let id = view@[j].spec_id();
                if !has_id(orig, id) && id != msg.sender@ {
                    if j < before.len() {
                        assert(view@[j].spec_id() == before[j].spec_id());
                        assert(inserted_ok(orig, before, msg, local_id@, now as int, j));
                        if view@[j] != before[j] {
                            // only the applied advertisement rewrites a node
                            assert(view@[j].spec_heartbeat() == ehb && view@[j].spec_time() == now
                                && !view@[j].spec_fail());
                            assert(id == eid);
                            assert(entry_for(msg, local_id@, id, k as int));
                            assert(some_entry_hb(msg, local_id@, id, ehb));
                        }
                    } else {
                        // pushed this round: the in-window insert
                        assert(id == eid);
                        assert(entry_for(msg, local_id@, id, k as int));
                        assert(view@[j].spec_heartbeat() == ehb);
                        assert(!view@[j].spec_fail());
                        assert(view@[j].spec_time() == entry_time_ms(msg, k as int));
                        assert(entry_time_ms(msg, k as int) > now - T_CLEAN_MS);
                        assert(some_entry_hb(msg, local_id@, id, ehb));
                    }
                }
            }
        }
        k = k + 1;
    }
    proof {
        assert forall|i: int| 0 <= i < orig.len() implies has_id(
            view@,
            (#[trigger] orig[i]).spec_id(),
        ) && view@[idx_of_id(view@, orig[i].spec_id())].spec_heartbeat()
            >= orig[i].spec_heartbeat() by {
            assert(has_id(mid, orig[i].spec_id()));
            let j = idx_of_id(mid, orig[i].spec_id());
            assert(mid[j].spec_heartbeat() >= orig[i].spec_heartbeat());
            assert(has_id(view@, mid[j].spec_id()));
        }
        assert forall|j: int| 0 <= j < view@.len() implies known_or_advertised(
            orig,
            msg,
            (#[trigger] view@[j]).spec_id(),
        ) by {
            assert(known_or_advertised(mid, msg, view@[j].spec_id()));
            if has_id(mid, view@[j].spec_id()) {
                let i = idx_of_id(mid, view@[j].spec_id());
                assert(known_or_advertised(orig, msg, mid[i].spec_id()));
            }
        }
    }
}

/// What one pass of the failure detector decides at wall-clock `now`: the
/// view with stale nodes suspected and expired nodes removed, the machine
/// addresses of the removed nodes, and whether the current leader was
/// among them.
pub struct SweepOutcome {
    pub view: Vec<Node>,
    pub failed_ips: Vec<String>,
    pub leader_lost: bool,
}

/// The node at `j` of the swept view descends from a node among the first
/// `i` of the original view that was within the cleanup window.
pub open spec fn kept_from(kept: Seq<Node>, view: Seq<Node>, j: int, i: int, now: int) -> bool {
    exists|a: int|
        0 <= a < i && (#[trigger] view[a]).spec_id() == kept[j].spec_id() && keeps(view[a], now)
}

/// A node is kept while its last refresh is within the cleanup window.
pub open spec fn keeps(n: Node, now: int) -> bool {
    now < n.spec_time() + T_CLEAN_MS
}

/// The machine addresses reported for the removed nodes among the first
/// `i`, in view order; an identifier without an address contributes none.
pub open spec fn removed_ips_upto(v: Seq<Node>, now: int, i: int) -> Seq<Seq<char>>
    decreases i,
{
    if i <= 0 {
        Seq::empty()
    } else {
        removed_ips_upto(v, now, i - 1) + if !keeps(v[i - 1], now) && first_underscore(
            v[i - 1].spec_id(),
        ) < v[i - 1].spec_id().len() {
            seq![spec_ip(v[i - 1].spec_id())]
        } else {
            Seq::<Seq<char>>::empty()
        }
    }
}

/// A kept node is suspected once its last refresh is older than the
/// failure window.
pub open spec fn suspected(n: Node, now: int) -> bool {
    now >= n.spec_time() + T_FAIL_MS
}

/// One pass of the failure detector: every node whose last refresh is
/// older than the failure threshold is marked suspected; every node older
/// than the cleanup threshold is removed, its machine address reported,
/// and the leader's loss noticed. Fresh nodes are untouched and no
/// suspicion is ever cleared here.
pub fn sweep_view(view: &Vec<Node>, leader_ip: &str, now: i64) -> (r: SweepOutcome)
    requires
        view_wf(view@),
        now >= 0,
    ensures
        view_wf(r.view@),
        r.view@.len() <= view@.len(),
        // kept nodes: exactly those within the cleanup window, with suspicion widened
        forall|i: int|
            0 <= i < view@.len() && keeps(#[trigger] view@[i], now as int) ==> has_id(
                r.view@,
                view@[i].spec_id(),
            ) && ({
                let j = idx_of_id(r.view@, view@[i].spec_id());
                &&& r.view@[j].spec_heartbeat() == view@[i].spec_heartbeat()
                &&& r.view@[j].spec_time() == view@[i].spec_time()
                &&& r.view@[j].spec_fail() == (view@[i].spec_fail() || suspected(
                    view@[i],
                    now as int,
                ))
            }),
        forall|i: int|
            0 <= i < view@.len() && !keeps(#[trigger] view@[i], now as int) ==> !has_id(
                r.view@,
                view@[i].spec_id(),
            ),
        // nothing is invented
        forall|j: int|
            0 <= j < r.view@.len() ==> #[trigger] kept_from(
                r.view@,
                view@,
                j,
                view@.len() as int,
                now as int,
            ),
        // every removed node's machine address is reported, in view order
        r.failed_ips.deep_view() == removed_ips_upto(view@, now as int, view@.len() as int),
        // the leader is lost exactly when a removed identifier begins with its address
        r.leader_lost == exists|i: int|
            0 <= i < view@.len() && !keeps(#[trigger] view@[i], now as int) && has_prefix(
                view@[i].spec_id(),
                leader_ip@,
            ),
{
    let n = view.len();
    let mut kept: Vec<Node> = Vec::new();
    let mut failed_ips: Vec<String> = Vec::new();
    let mut leader_lost = false;
    let mut i: usize = 0;
    while i < n
        invariant
            i <= n,
            n == view@.len(),
            now >= 0,
            view_wf(view@),
            view_wf(kept@),
            kept@.len() <= i,
            forall|a: int|
                0 <= a < i && keeps(#[trigger] view@[a], now as int) ==> has_id(
                    kept@,
                    view@[a].spec_id(),
                ) && ({
                    let j = idx_of_id(kept@, view@[a].spec_id());
                    &&& kept@[j].spec_heartbeat() == view@[a].spec_heartbeat()
                    &&& kept@[j].spec_time() == view@[a].spec_time()
                    &&& kept@[j].spec_fail() == (view@[a].spec_fail() || suspected(
                        view@[a],
                        now as int,
                    ))
                }),
            forall|a: int|
                0 <= a < view@.len() && !keeps(#[trigger] view@[a], now as int) ==> !has_id(
                    kept@,
                    view@[a].spec_id(),
                ),
            forall|j: int|
                0 <= j < kept@.len() ==> #[trigger] kept_from(
                    kept@,
                    view@,
                    j,
                    i as int,
                    now as int,
                ),
            failed_ips.deep_view() == removed_ips_upto(view@, now as int, i as int),
            leader_lost == exists|a: int|
                0 <= a < i && !keeps(#[trigger] view@[a], now as int) && has_prefix(
                    view@[a].spec_id(),
                    leader_ip@,
                ),
        decreases n - i,
    {
        let ghost kept_before = kept@;
        let (hb, t, fl) = {
            let nd = &view[i];
            (nd.heartbeat(), nd.time(), nd.fail())
        };
        let id_c = {
            let nd = &view[i];
            nd.id().clone()
        };
        // now < t + T_CLEAN_MS, written without overflow
        if t > now - T_CLEAN_MS {
            let mut fresh = Node::new(id_c, hb, t, false);
            // now >= t + T_FAIL_MS, written without overflow
            if fl || t <= now - T_FAIL_MS {
                fresh.set_fail(true);
            }
            kept.push(fresh);
            proof {
                assert(keeps(view@[i as int], now as int));
                assert(kept@[kept@.len() - 1].spec_id() == view@[i as int].spec_id());
                assert(view_wf(kept@)) by {
                    assert forall|a: int, b: int| 0 <= a < b < kept@.len() implies (
                    #[trigger] kept@[a]).spec_id() != (#[trigger] kept@[b]).spec_id() by {
                        if b == kept@.len() - 1 {
                            assert(kept_from(kept_before, view@, a, i as int, now as int));
                            let va = choose|va: int|
                                0 <= va < i && (#[trigger] view@[va]).spec_id()
                                    == kept_before[a].spec_id() && keeps(view@[va], now as int);
                            assert(view@[va].spec_id() != view@[i as int].spec_id());
                        } else {
                            assert(kept_before[a].spec_id() != kept_before[b].spec_id());
                        }
                    }
                }
                assert forall|a: int| 0 <= a < i + 1 && keeps(
                    #[trigger] view@[a],
                    now as int,
                ) implies has_id(kept@, view@[a].spec_id()) && ({
                    let j = idx_of_id(kept@, view@[a].spec_id());
                    &&& kept@[j].spec_heartbeat() == view@[a].spec_heartbeat()
                    &&& kept@[j].spec_time() == view@[a].spec_time()
                    &&& kept@[j].spec_fail() == (view@[a].spec_fail() || suspected(
                        view@[a],
                        now as int,
                    ))
                }) by {
                    if a < i {
                        let j = idx_of_id(kept_before, view@[a].spec_id());
                        assert(kept@[j].spec_id() == view@[a].spec_id());
                        lemma_view_index_unique(kept@, j);
                    } else {
                        lemma_view_index_unique(kept@, kept@.len() - 1);
                    }
                }
                assert forall|j: int| 0 <= j < kept@.len() implies #[trigger] kept_from(
                    kept@,
                    view@,
                    j,
                    i + 1,
                    now as int,
                ) by {
                    if j < kept_before.len() {
                        assert(kept_from(kept_before, view@, j, i as int, now as int));
                        let a = choose|a: int|
                            0 <= a < i && (#[trigger] view@[a]).spec_id()
                                == kept_before[j].spec_id() && keeps(view@[a], now as int);
                        assert(view@[a].spec_id() == kept@[j].spec_id() && keeps(
                            view@[a],
                            now as int,
                        ));
                    } else {
                        assert(view@[i as int].spec_id() == kept@[j].spec_id() && keeps(
                            view@[i as int],
                            now as int,
                        ));
                    }
                }
                assert forall|a: int| 0 <= a < view@.len() && !keeps(
                    #[trigger] view@[a],
                    now as int,
                ) implies !has_id(kept@, view@[a].spec_id()) by {
                    if has_id(kept@, view@[a].spec_id()) {
                        let j = idx_of_id(kept@, view@[a].spec_id());
                        if j == kept@.len() - 1 {
                            lemma_view_index_unique(view@, a);
                            lemma_view_index_unique(view@, i as int);
                        } else {
                            assert(has_id(kept_before, view@[a].spec_id()));
                        }
                    }
                }
                assert(failed_ips.deep_view() + Seq::<Seq<char>>::empty() =~= failed_ips.deep_view());
                assert(failed_ips.deep_view() =~= removed_ips_upto(view@, now as int, i + 1));
            }
        } else {
            proof {
                assert(!keeps(view@[i as int], now as int));
            }
            let ghost ips_before = failed_ips.deep_view();
            match node_ip(id_c.as_str()) {
                Some(ip) => {
                    proof {
                        lemma_first_underscore_at(id_c@, ip@.len() as int);
                        assert(spec_ip(id_c@) =~= ip@);
                    }
                    failed_ips.push(ip.to_owned());
                    proof {
                        assert(failed_ips.deep_view() =~= ips_before + seq![
                            spec_ip(view@[i as int].spec_id()),
                        ]);
                        assert(failed_ips.deep_view() =~= removed_ips_upto(
                            view@,
                            now as int,
                            i + 1,
                        ));
                    }
                },
                None => {
                    proof {
                        lemma_first_underscore_at(id_c@, id_c@.len() as int);
                        assert(failed_ips.deep_view() + Seq::<Seq<char>>::empty()
                            =~= failed_ips.deep_view());
                        assert(failed_ips.deep_view() =~= removed_ips_upto(
                            view@,
                            now as int,
                            i + 1,
                        ));
                    }
                },
            }
            if str_starts_with(id_c.as_str(), leader_ip) {
                leader_lost = true;
            }
            proof {
                assert forall|j: int| 0 <= j < kept@.len() implies #[trigger] kept_from(
                    kept@,
                    view@,
                    j,
                    i + 1,
                    now as int,
                ) by {
                    assert(kept_from(kept@, view@, j, i as int, now as int));
                    let a = choose|a: int|
                        0 <= a < i && (#[trigger] view@[a]).spec_id() == kept@[j].spec_id()
                            && keeps(view@[a], now as int);
                    assert(view@[a].spec_id() == kept@[j].spec_id() && keeps(view@[a], now as int));
                }
            }
        }
        i = i + 1;
    }
    SweepOutcome { view: kept, failed_ips, leader_lost }
}

/// `ip` is the machine address of some non-failed node of the view.
pub open spec fn live_address(v: Seq<Node>, ip: Seq<char>) -> bool {
    exists|i: int|
        0 <= i < v.len() && !(#[trigger] v[i]).spec_fail() && first_underscore(v[i].spec_id())
            < v[i].spec_id().len() && spec_ip(v[i].spec_id()) == ip
}

/// The machine addresses of the view's non-failed nodes, in first-seen
/// order and without duplicates: the pool every placement decision draws
/// from. An identifier without an address contributes nothing.
pub fn active_ips(view: &Vec<Node>) -> (r: Vec<String>)
    ensures
        distinct_seqs(r.deep_view()),
        forall|k: int|
            0 <= k < r.deep_view().len() ==> live_address(view@, #[trigger] r.deep_view()[k]),
        forall|i: int|
            0 <= i < view@.len() && !(#[trigger] view@[i]).spec_fail() && first_underscore(
                view@[i].spec_id(),
            ) < view@[i].spec_id().len() ==> contains_seq(
                r.deep_view(),
                spec_ip(view@[i].spec_id()),
            ),
{
    let n = view.len();
    let mut r: Vec<String> = Vec::new();
    let mut i: usize = 0;
    while i < n
        invariant
            i <= n,
            n == view@.len(),
            distinct_seqs(r.deep_view()),
            forall|k: int|
                0 <= k < r.deep_view().len() ==> live_address(view@, #[trigger] r.deep_view()[k]),
            forall|a: int|
                0 <= a < i && !(#[trigger] view@[a]).spec_fail() && first_underscore(
                    view@[a].spec_id(),
                ) < view@[a].spec_id().len() ==> contains_seq(
                    r.deep_view(),
                    spec_ip(view@[a].spec_id()),
                ),
        decreases n - i,
    {
        let fl = {
            let nd = &view[i];
            nd.fail()
        };
        if !fl {
            let id_c = {
                let nd = &view[i];
                nd.id().clone()
            };
            proof {
                assert(id_c@ == view@[i as int].spec_id());
            }
            match node_ip(id_c.as_str()) {
                Some(ip) => {
                    proof {
                        lemma_first_underscore_at(id_c@, ip@.len() as int);
                        assert(spec_ip(id_c@) =~= ip@);
                    }
                    let owned = ip.to_owned();
                    if !names_contain(&r, owned.as_str()) {
                        let ghost r_before = r.deep_view();
                        r.push(owned);
                        proof {
                            assert(r.deep_view() =~= r_before.push(spec_ip(id_c@)));
                            assert(r.deep_view()[r.deep_view().len() - 1] == spec_ip(
                                view@[i as int].spec_id(),
                            ));
                            assert(live_address(view@, spec_ip(view@[i as int].spec_id())));
                            assert(distinct_seqs(r.deep_view())) by {
                                assert forall|a: int, b: int|
                                    0 <= a < b < r.deep_view().len() implies r.deep_view()[a]
                                    != r.deep_view()[b] by {
                                    if b == r.deep_view().len() - 1 {
                                        assert(contains_seq(r_before, r_before[a]));
                                        if r_before[a] == spec_ip(id_c@) {
                                            assert(contains_seq(r_before, spec_ip(id_c@)));
                                        }
                                    } else {
                                        assert(r_before[a] != r_before[b]);
                                    }
                                }
                            }
                            assert forall|a: int| 0 <= a < i + 1 && !(
                            #[trigger] view@[a]).spec_fail() && first_underscore(
                                view@[a].spec_id(),
                            ) < view@[a].spec_id().len() implies contains_seq(
                                r.deep_view(),
                                spec_ip(view@[a].spec_id()),
                            ) by {
                                if a < i {
                                    let q = choose|q: int|
                                        0 <= q < r_before.len() && #[trigger] r_before[q]
                                            == spec_ip(view@[a].spec_id());
                                    assert(r.deep_view()[q] == spec_ip(view@[a].spec_id()));
                                }
                            }
                        }
                    } else {
                        proof {
                            assert(contains_seq(r.deep_view(), spec_ip(view@[i as int].spec_id())));
                        }
                    }
                },
                None => {
                    proof {
                        lemma_first_underscore_at(id_c@, id_c@.len() as int);
                    }
                },
            }
        }
        i = i + 1;
    }
    r
}

/// Reshuffles the view between gossip rounds, the fairness step of the
/// sender: the same nodes in a new order, no identifier gained or lost.
pub fn reshuffle_view(view: &mut Vec<Node>)
    requires
        view_wf(old(view)@),
    ensures
        view_wf(final(view)@),
        final(view)@.len() == old(view)@.len(),
        final(view)@.to_multiset() == old(view)@.to_multiset(),
        ids_of(final(view)@).to_multiset() == ids_of(old(view)@).to_multiset(),
{
    crate::placement::shuffle_nodes(view);
    proof {
        let oldids = ids_of(old(view)@);
        let newids = ids_of(view@);
        assert(oldids.no_duplicates()) by {
            assert forall|i: int, j: int|
                0 <= i < oldids.len() && 0 <= j < oldids.len() && i != j implies oldids[i]
                != oldids[j] by {
                if i < j {
                    assert(old(view)@[i].spec_id() != old(view)@[j].spec_id());
                } else {
                    assert(old(view)@[j].spec_id() != old(view)@[i].spec_id());
                }
            }
        }
        oldids.lemma_multiset_has_no_duplicates();
        assert forall|x: Seq<char>| newids.to_multiset().contains(x) implies newids.to_multiset()
            .count(x) == 1 by {
            assert(oldids.to_multiset().contains(x));
        }
        newids.lemma_multiset_has_no_duplicates_conv();
        assert forall|a: int, b: int| 0 <= a < b < view@.len() implies (
        #[trigger] view@[a]).spec_id() != (#[trigger] view@[b]).spec_id() by {
            assert(newids[a] == view@[a].spec_id());
            assert(newids[b] == view@[b].spec_id());
        }
    }
}

/// The round-robin fan-out of one gossip round: the indices of the three
/// peers contacted, walking the view from `start` and wrapping at its end.
pub fn gossip_targets(len: usize, start: usize) -> (r: Vec<usize>)
    requires
        len > 0,
    ensures
        r@.len() == 3,
        forall|k: int| 0 <= k < 3 ==> #[trigger] r@[k] < len,
        r@[0] == start % len,
        forall|k: int| 0 < k < 3 ==> #[trigger] r@[k] == (r@[k - 1] + 1) % (len as int),
{
    let mut r: Vec<usize> = Vec::new();
    let mut idx = start % len;
    let mut k: usize = 0;
    while k < 3
        invariant
            k <= 3,
            len > 0,
            idx < len,
            r@.len() == k,
            k > 0 ==> r@[0] == start % len,
            k == 0 ==> idx == start % len,
            forall|q: int| 0 <= q < k ==> #[trigger] r@[q] < len,
            forall|q: int| 0 < q < k ==> #[trigger] r@[q] == (r@[q - 1] + 1) % (len as int),
            k > 0 ==> idx == ((r@[k - 1] + 1) % (len as int)),
        decreases 3 - k,
    {
        r.push(idx);
        idx = (idx + 1) % len;
        k = k + 1;
    }
    r
}

/// A member entry faithfully advertises a node.
pub open spec fn member_matches(m: Member, n: Node) -> bool {
    &&& m.id@ == n.spec_id()
    &&& m.heartbeat == n.spec_heartbeat()
    &&& m.time@ == rfc3339_render(n.spec_time())
}

/// The entry at `j` advertises some non-failed node among the first `i` of
/// the view.
pub open spec fn entry_from(machines: Seq<Member>, view: Seq<Node>, j: int, i: int) -> bool {
    exists|a: int|
        0 <= a < i && !(#[trigger] view[a]).spec_fail() && member_matches(machines[j], view[a])
}

/// The node at `a` of the view is advertised by some entry.
pub open spec fn node_advertised(machines: Seq<Member>, view: Seq<Node>, a: int) -> bool {
    exists|j: int| 0 <= j < machines.len() && member_matches(#[trigger] machines[j], view[a])
}

/// The gossip message a node sends: its own identifier and one entry for
/// every non-failed node of its view, carrying that node's heartbeat and
/// last-refresh time.
pub fn build_member_list(view: &Vec<Node>, sender_id: &str) -> (r: MemberList)
    requires
        view_wf(view@),
        forall|i: int|
            0 <= i < view@.len() ==> 0 <= (#[trigger] view@[i]).spec_time() <= RENDER_MAX_MS,
    ensures
        r.sender@ == sender_id@,
        forall|j: int|
            0 <= j < r.machines@.len() ==> #[trigger] entry_from(
                r.machines@,
                view@,
                j,
                view@.len() as int,
            ),
        forall|a: int|
            0 <= a < view@.len() && !(#[trigger] view@[a]).spec_fail() ==> node_advertised(
                r.machines@,
                view@,
                a,
            ),
        // one entry per node: no identifier is advertised twice
        forall|j1: int, j2: int|
            0 <= j1 < j2 < r.machines@.len() ==> (#[trigger] r.machines@[j1]).id@ != (
            #[trigger] r.machines@[j2]).id@,
{
    let n = view.len();
    let mut machines: Vec<Member> = Vec::new();
    let mut i: usize = 0;
    while i < n
        invariant
            i <= n,
            n == view@.len(),
            view_wf(view@),
            forall|a: int|
                0 <= a < view@.len() ==> 0 <= (#[trigger] view@[a]).spec_time() <= RENDER_MAX_MS,
            forall|j: int|
                0 <= j < machines@.len() ==> #[trigger] entry_from(machines@, view@, j, i as int),
            forall|a: int|
                0 <= a < i && !(#[trigger] view@[a]).spec_fail() ==> node_advertised(
                    machines@,
                    view@,
                    a,
                ),
            forall|j1: int, j2: int|
                0 <= j1 < j2 < machines@.len() ==> (#[trigger] machines@[j1]).id@ != (
                #[trigger] machines@[j2]).id@,
        decreases n - i,
    {
        let ghost mach_before = machines@;
        let fl = {
            let nd = &view[i];
            nd.fail()
        };
        if !fl {
            let (hb, t) = {
                let nd = &view[i];
                (nd.heartbeat(), nd.time())
            };
            let id_c = {
                let nd = &view[i];
                nd.id().clone()
            };
            let time_str = match format_rfc3339_ms(t) {
                Some(s) => s,
                None => {
                    proof {
                        assert(false);
                    }
                    String::new()
                },
            };
            let entry = Member { id: id_c, heartbeat: hb, time: time_str };
            machines.push(entry);
            proof {
                assert(member_matches(machines@[machines@.len() - 1], view@[i as int]));
                assert(forall|j: int| 0 <= j < mach_before.len() ==> machines@[j] == mach_before[j]);
                assert forall|j: int| 0 <= j < machines@.len() implies #[trigger] entry_from(
                    machines@,
                    view@,
                    j,
                    i + 1,
                ) by {
                    if j < mach_before.len() {
                        assert(entry_from(mach_before, view@, j, i as int));
                        let a = choose|a: int|
                            0 <= a < i && !(#[trigger] view@[a]).spec_fail() && member_matches(
                                mach_before[j],
                                view@[a],
                            );
                        assert(!view@[a].spec_fail() && member_matches(machines@[j], view@[a]));
                    } else {
                        assert(!view@[i as int].spec_fail() && member_matches(
                            machines@[j],
                            view@[i as int],
                        ));
                    }
                }
                assert forall|a: int| 0 <= a < i + 1 && !(#[trigger] view@[a]).spec_fail() implies
                    node_advertised(machines@, view@, a) by {
                    if a < i {
                        assert(node_advertised(mach_before, view@, a));
                        let j = choose|j: int|
                            0 <= j < mach_before.len() && member_matches(
                                #[trigger] mach_before[j],
                                view@[a],
                            );
                        assert(member_matches(machines@[j], view@[a]));
                    } else {
                        assert(member_matches(machines@[machines@.len() - 1], view@[a]));
                    }
                }
                assert forall|j1: int, j2: int| 0 <= j1 < j2 < machines@.len() implies (
                #[trigger] machines@[j1]).id@ != (#[trigger] machines@[j2]).id@ by {
                    if j2 == machines@.len() - 1 {
                        assert(entry_from(mach_before, view@, j1, i as int));
                        let a = choose|a: int|
                            0 <= a < i && !(#[trigger] view@[a]).spec_fail() && member_matches(
                                mach_before[j1],
                                view@[a],
                            );
                        assert(machines@[j1].id@ == view@[a].spec_id());
                        assert(machines@[j2].id@ == view@[i as int].spec_id());
                        assert(view@[a].spec_id() != view@[i as int].spec_id());
                    } else {
                        assert(mach_before[j1].id@ != mach_before[j2].id@);
                    }
                }
            }
        } else {
            proof {
                assert forall|j: int| 0 <= j < machines@.len() implies #[trigger] entry_from(
                    machines@,
                    view@,
                    j,
                    i + 1,
                ) by {
                    assert(entry_from(machines@, view@, j, i as int));
                    let a = choose|a: int|
                        0 <= a < i && !(#[trigger] view@[a]).spec_fail() && member_matches(
                            machines@[j],
                            view@[a],
                        );
                    assert(!view@[a].spec_fail() && member_matches(machines@[j], view@[a]));
                }
            }
        }
        i = i + 1;
    }
    MemberList { sender: sender_id.to_owned(), machines }
}

} // verus!
