use sdfs::helpers::FileKey;
use sdfs::local_files::LocalFileList;
use sdfs::node::Node;
use sdfs::strutil::find_char;
use sdfs::strutil::names_contain;
use sdfs::strutil::names_difference;
use sdfs::strutil::names_intersection;
use sdfs::strutil::node_ip;
use sdfs::strutil::split_id_to_components;
use sdfs::strutil::str_eq;
use sdfs::strutil::str_lt;
use sdfs::strutil::str_starts_with;

fn names(v: &[&str]) -> Vec<String> {
    v.iter().map(|s| s.to_string()).collect()
}

#[test]
fn file_key_joins_prefix_and_key() {
    let fk = FileKey::new("tmp", "a");
    assert_eq!(fk.name(), "tmp_a");
}

#[test]
fn file_key_prefix_is_visible() {
    let fk = FileKey::new("tmp", "a");
    assert!(fk.starts_with("tmp"));
    assert!(fk.starts_with("tmp_a"));
    assert!(!fk.starts_with("out"));
}

#[test]
fn split_id_yields_ip_and_port() {
    let id = "10.0.0.1_12307_2023-11-01T00:00:00+00:00";
    let (ip, port) = split_id_to_components(id).unwrap();
    assert_eq!(ip, "10.0.0.1");
    assert_eq!(port, "12307");
}

#[test]
fn split_id_rejects_flat_text() {
    assert!(split_id_to_components("nodename").is_none());
}

#[test]
fn node_ip_is_text_before_first_underscore() {
    assert_eq!(node_ip("172.22.158.225_12307_t").unwrap(), "172.22.158.225");
    assert!(node_ip("nounderscore").is_none());
}

#[test]
fn identifier_order_is_by_code_point() {
    assert!(str_lt("a", "b"));
    assert!(str_lt("abc", "abd"));
    assert!(str_lt("a", "ab"));
    assert!(!str_lt("b", "a"));
    assert!(!str_lt("a", "a"));
}

#[test]
fn string_equality_and_prefix() {
    assert!(str_eq("bar", "bar"));
    assert!(!str_eq("bar", "baz"));
    assert!(str_starts_with("bar_1", "bar"));
    assert!(!str_starts_with("ba", "bar"));
    assert_eq!(find_char("a_b", '_'), Some(1));
    assert_eq!(find_char("ab", '_'), None);
}

#[test]
fn name_lists_difference_and_intersection() {
    let v = names(&["a", "b", "c", "d"]);
    let w = names(&["b", "d", "e"]);
    assert_eq!(names_difference(&v, &w), names(&["a", "c"]));
    assert_eq!(names_intersection(&v, &w), names(&["b", "d"]));
    assert!(names_contain(&v, "c"));
    assert!(!names_contain(&v, "e"));
}

#[test]
fn local_file_list_tracks_put_and_delete() {
    let mut l = LocalFileList::new();
    l.push("bar".to_string());
    l.push("baz".to_string());
    l.push("bar".to_string());
    assert_eq!(l.list(), &names(&["bar", "baz", "bar"]));
    l.remove("bar");
    assert_eq!(l.list(), &names(&["baz"]));
}

#[test]
fn node_accessors_round_trip() {
    let mut n = Node::new("10.0.0.1_12307_t".to_string(), 3, 5000, true);
    assert_eq!(n.id(), "10.0.0.1_12307_t");
    assert_eq!(n.heartbeat(), 3);
    assert_eq!(n.time(), 5000);
    // a freshly observed node is never suspected
    assert!(!n.fail());
    n.set_heartbeat(4);
    n.set_time(6000);
    n.set_fail(true);
    assert_eq!(n.heartbeat(), 4);
    assert_eq!(n.time(), 6000);
    assert!(n.fail());
}
