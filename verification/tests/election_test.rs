use sdfs::election::adopt_coordinator;
use sdfs::election::higher_ids;
use sdfs::election::id_ip;
use sdfs::election::lower_ids;
use sdfs::node::Node;

fn node(id: &str) -> Node {
    Node::new(id.to_string(), 1, 0, false)
}

fn names(v: &[&str]) -> Vec<String> {
    v.iter().map(|s| s.to_string()).collect()
}

#[test]
fn id_ip_is_the_machine_address() {
    assert_eq!(id_ip("1.2.3.4_12307_t").unwrap(), "1.2.3.4");
    assert!(id_ip("noaddress").is_none());
}

#[test]
fn probe_sets_split_around_own_identifier() {
    let view = vec![node("a_1_t"), node("b_1_t"), node("c_1_t")];
    assert_eq!(lower_ids(&view, "b_1_t"), names(&["a_1_t"]));
    assert_eq!(higher_ids(&view, "b_1_t"), names(&["c_1_t"]));
}

#[test]
fn coordinator_claim_names_the_matching_node() {
    let lower = names(&["10.0.0.1_12307_t", "10.0.0.2_12307_t"]);
    let claims = names(&["10.0.0.2"]);
    assert_eq!(adopt_coordinator(&lower, &claims).unwrap(), "10.0.0.2");
}

#[test]
fn unmatched_claims_adopt_nothing() {
    let lower = names(&["10.0.0.1_12307_t"]);
    let claims = names(&["10.0.0.9"]);
    assert!(adopt_coordinator(&lower, &claims).is_none());
    assert!(adopt_coordinator(&lower, &Vec::new()).is_none());
}

#[test]
fn smallest_claimed_identifier_wins() {
    let lower = names(&["10.0.0.2_12307_t", "10.0.0.1_12307_t"]);
    let claims = names(&["10.0.0.1", "10.0.0.2"]);
    // both claims match, the lex-least identifier's address is adopted
    assert_eq!(adopt_coordinator(&lower, &claims).unwrap(), "10.0.0.1");
}

#[test]
fn failover_elects_the_lowest_surviving_identifier() {
    // five nodes; the leader (lowest identifier) dies
    let survivors = vec![
        node("10.0.0.2_12307_t"),
        node("10.0.0.3_12307_t"),
        node("10.0.0.4_12307_t"),
        node("10.0.0.5_12307_t"),
    ];
    // the new lowest identifier probes nobody below it: it declares itself
    assert!(lower_ids(&survivors, "10.0.0.2_12307_t").is_empty());
    assert_eq!(id_ip("10.0.0.2_12307_t").unwrap(), "10.0.0.2");
    // every higher node, told the new address, adopts exactly it
    let mine = lower_ids(&survivors, "10.0.0.4_12307_t");
    let adopted = adopt_coordinator(&mine, &names(&["10.0.0.2"])).unwrap();
    assert_eq!(adopted, "10.0.0.2");
}
