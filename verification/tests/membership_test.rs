use sdfs::membership::active_ips;
use sdfs::membership::build_member_list;
use sdfs::membership::format_rfc3339_ms;
use sdfs::membership::gossip_targets;
use sdfs::membership::merge_member_list;
use sdfs::membership::parse_rfc3339_ms;
use sdfs::membership::reshuffle_view;
use sdfs::membership::sweep_view;
use sdfs::membership::Member;
use sdfs::membership::MemberList;
use sdfs::node::Node;

const NOW: i64 = 1700000000000;

fn node(id: &str, hb: u32, t: i64, failed: bool) -> Node {
    let mut n = Node::new(id.to_string(), hb, t, false);
    n.set_fail(failed);
    n
}

fn msg(sender: &str, machines: Vec<Member>) -> MemberList {
    MemberList { sender: sender.to_string(), machines }
}

fn member(id: &str, hb: u32, t: i64) -> Member {
    Member { id: id.to_string(), heartbeat: hb, time: format_rfc3339_ms(t).unwrap() }
}

fn find<'a>(view: &'a [Node], id: &str) -> Option<&'a Node> {
    view.iter().find(|n| n.id() == id)
}

#[test]
fn unknown_sender_is_inserted_with_heartbeat_one() {
    let mut view: Vec<Node> = Vec::new();
    merge_member_list(&mut view, &msg("10.0.0.2_12307_t", Vec::new()), "10.0.0.1_12307_t", NOW);
    let s = find(&view, "10.0.0.2_12307_t").unwrap();
    assert_eq!(s.heartbeat(), 1);
    assert_eq!(s.time(), NOW);
    assert!(!s.fail());
}

#[test]
fn known_sender_gets_one_heartbeat_and_fresh_time() {
    let mut view = vec![node("10.0.0.2_12307_t", 5, NOW - 3000, true)];
    merge_member_list(&mut view, &msg("10.0.0.2_12307_t", Vec::new()), "10.0.0.1_12307_t", NOW);
    let s = find(&view, "10.0.0.2_12307_t").unwrap();
    assert_eq!(s.heartbeat(), 6);
    assert_eq!(s.time(), NOW);
    assert!(!s.fail());
}

#[test]
fn advertised_higher_heartbeat_is_applied() {
    let mut view = vec![
        node("10.0.0.2_12307_t", 1, NOW, false),
        node("10.0.0.3_12307_t", 2, NOW - 3000, true),
    ];
    let m = msg("10.0.0.2_12307_t", vec![member("10.0.0.3_12307_t", 7, NOW - 100)]);
    merge_member_list(&mut view, &m, "10.0.0.1_12307_t", NOW);
    let n3 = find(&view, "10.0.0.3_12307_t").unwrap();
    assert_eq!(n3.heartbeat(), 7);
    assert_eq!(n3.time(), NOW);
    assert!(!n3.fail());
}

#[test]
fn advertised_lower_heartbeat_is_never_applied() {
    let mut view = vec![
        node("10.0.0.2_12307_t", 1, NOW, false),
        node("10.0.0.3_12307_t", 9, NOW - 100, false),
    ];
    let m = msg("10.0.0.2_12307_t", vec![member("10.0.0.3_12307_t", 4, NOW - 50)]);
    merge_member_list(&mut view, &m, "10.0.0.1_12307_t", NOW);
    let n3 = find(&view, "10.0.0.3_12307_t").unwrap();
    assert_eq!(n3.heartbeat(), 9);
    assert_eq!(n3.time(), NOW - 100);
}

#[test]
fn fresh_unknown_peer_is_inserted() {
    let mut view: Vec<Node> = Vec::new();
    let m = msg("10.0.0.2_12307_t", vec![member("10.0.0.4_12307_t", 3, NOW - 1000)]);
    merge_member_list(&mut view, &m, "10.0.0.1_12307_t", NOW);
    let n4 = find(&view, "10.0.0.4_12307_t").unwrap();
    assert_eq!(n4.heartbeat(), 3);
    assert_eq!(n4.time(), NOW - 1000);
}

#[test]
fn stale_unknown_peer_is_ignored() {
    let mut view: Vec<Node> = Vec::new();
    let m = msg("10.0.0.2_12307_t", vec![member("10.0.0.4_12307_t", 3, NOW - 10000)]);
    merge_member_list(&mut view, &m, "10.0.0.1_12307_t", NOW);
    assert!(find(&view, "10.0.0.4_12307_t").is_none());
}

#[test]
fn own_identifier_in_a_message_is_skipped() {
    let local = "10.0.0.1_12307_t";
    let mut view: Vec<Node> = Vec::new();
    let m = msg("10.0.0.2_12307_t", vec![member(local, 99, NOW)]);
    merge_member_list(&mut view, &m, local, NOW);
    assert!(find(&view, local).is_none());
}

#[test]
fn sweep_marks_stale_and_removes_expired() {
    let view = vec![
        node("10.0.0.1_12307_t", 1, NOW, false),
        node("10.0.0.2_12307_t", 1, NOW - 3000, false),
        node("10.0.0.3_12307_t", 1, NOW - 6000, false),
    ];
    let out = sweep_view(&view, "10.0.0.9", NOW);
    assert_eq!(out.view.len(), 2);
    assert!(!find(&out.view, "10.0.0.1_12307_t").unwrap().fail());
    assert!(find(&out.view, "10.0.0.2_12307_t").unwrap().fail());
    assert!(find(&out.view, "10.0.0.3_12307_t").is_none());
    assert_eq!(out.failed_ips, vec!["10.0.0.3".to_string()]);
    assert!(!out.leader_lost);
}

#[test]
fn sweep_notices_a_lost_leader() {
    let view = vec![
        node("10.0.0.1_12307_t", 1, NOW, false),
        node("10.0.0.3_12307_t", 1, NOW - 6000, false),
    ];
    let out = sweep_view(&view, "10.0.0.3", NOW);
    assert!(out.leader_lost);
}

#[test]
fn gossip_fans_out_to_three_peers_round_robin() {
    assert_eq!(gossip_targets(5, 3), vec![3, 4, 0]);
    assert_eq!(gossip_targets(1, 0), vec![0, 0, 0]);
}

#[test]
fn member_list_advertises_only_live_nodes() {
    let view = vec![
        node("10.0.0.1_12307_t", 4, NOW, false),
        node("10.0.0.2_12307_t", 2, NOW - 3000, true),
    ];
    let m = build_member_list(&view, "10.0.0.1_12307_t");
    assert_eq!(m.sender, "10.0.0.1_12307_t");
    assert_eq!(m.machines.len(), 1);
    assert_eq!(m.machines[0].id, "10.0.0.1_12307_t");
    assert_eq!(m.machines[0].heartbeat, 4);
    // the advertised time string round-trips to the node's instant
    assert_eq!(parse_rfc3339_ms(&m.machines[0].time), Some(NOW));
}

#[test]
fn active_ips_skips_failed_and_duplicate_addresses() {
    let view = vec![
        node("10.0.0.1_12307_t", 1, NOW, false),
        node("10.0.0.1_12308_u", 1, NOW, false),
        node("10.0.0.2_12307_t", 1, NOW, true),
        node("10.0.0.3_12307_t", 1, NOW, false),
        node("noaddress", 1, NOW, false),
    ];
    assert_eq!(active_ips(&view), vec!["10.0.0.1".to_string(), "10.0.0.3".to_string()]);
}

#[test]
fn stale_advertisement_leaves_peer_untouched() {
    let mut view = vec![
        node("10.0.0.2_12307_t", 1, NOW, false),
        node("10.0.0.3_12307_t", 9, NOW - 3000, true),
    ];
    let m = msg("10.0.0.2_12307_t", vec![member("10.0.0.3_12307_t", 9, NOW)]);
    merge_member_list(&mut view, &m, "10.0.0.1_12307_t", NOW);
    let n3 = find(&view, "10.0.0.3_12307_t").unwrap();
    // an advertisement that is not strictly ahead changes nothing at all
    assert_eq!(n3.heartbeat(), 9);
    assert_eq!(n3.time(), NOW - 3000);
    assert!(n3.fail());
}

#[test]
fn inserted_peer_carries_advertised_count_and_time() {
    let mut view: Vec<Node> = Vec::new();
    let m = msg("10.0.0.2_12307_t", vec![member("10.0.0.4_12307_t", 6, NOW - 2000)]);
    merge_member_list(&mut view, &m, "10.0.0.1_12307_t", NOW);
    let n4 = find(&view, "10.0.0.4_12307_t").unwrap();
    assert_eq!(n4.heartbeat(), 6);
    assert_eq!(n4.time(), NOW - 2000);
    assert!(!n4.fail());
}

#[test]
fn reshuffle_keeps_every_identifier() {
    let mut view = vec![
        node("a_1_t", 1, NOW, false),
        node("b_1_t", 2, NOW, false),
        node("c_1_t", 3, NOW, false),
    ];
    reshuffle_view(&mut view);
    assert_eq!(view.len(), 3);
    for id in ["a_1_t", "b_1_t", "c_1_t"] {
        assert!(find(&view, id).is_some());
    }
}
