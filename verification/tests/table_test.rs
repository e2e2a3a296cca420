use sdfs::placement::select_put_candidates;
use sdfs::replica_table::ReplicaTable;

fn names(v: &[&str]) -> Vec<String> {
    v.iter().map(|s| s.to_string()).collect()
}

#[test]
fn install_then_get_returns_replicas() {
    let mut t = ReplicaTable::new();
    t.install("bar", names(&["B", "C", "D", "E"]));
    assert_eq!(t.get("bar"), Some(names(&["B", "C", "D", "E"])));
}

#[test]
fn get_unknown_file_is_not_found() {
    // an empty table answers a GET with nothing: no bytes are written
    // locally and the client sees a failure
    let t = ReplicaTable::new();
    assert_eq!(t.get("ghost"), None);
}

#[test]
fn install_overwrites_only_named_file() {
    let mut t = ReplicaTable::new();
    t.install("bar", names(&["A", "B"]));
    t.install("baz", names(&["C", "D"]));
    t.install("bar", names(&["E"]));
    assert_eq!(t.get("bar"), Some(names(&["E"])));
    assert_eq!(t.get("baz"), Some(names(&["C", "D"])));
    assert_eq!(t.len(), 2);
}

#[test]
fn remove_deletes_only_named_file() {
    let mut t = ReplicaTable::new();
    t.install("bar", names(&["A"]));
    t.install("baz", names(&["B"]));
    t.remove("bar");
    assert_eq!(t.get("bar"), None);
    assert_eq!(t.get("baz"), Some(names(&["B"])));
    t.remove("missing");
    assert_eq!(t.len(), 1);
}

#[test]
fn put_round_trip_with_full_acknowledgement() {
    // empty state, five live machines: a PUT maps the file to a quorum of
    // four, and a GET then returns exactly that quorum
    let active: Vec<String> = ["A", "B", "C", "D", "E"].iter().map(|s| s.to_string()).collect();
    let candidates = select_put_candidates(&active).unwrap();
    let mut t = ReplicaTable::new();
    let installed = t.commit_put("bar", &candidates, &candidates.clone());
    assert!(installed);
    assert_eq!(t.get("bar"), Some(candidates));
}

#[test]
fn commit_put_installs_reported_candidates() {
    let mut t = ReplicaTable::new();
    let candidates = names(&["A", "B", "C", "D"]);
    let reported = names(&["B", "D", "Z"]);
    let installed = t.commit_put("bar", &candidates, &reported);
    assert!(installed);
    // only reported machines that really were candidates, in candidate order
    assert_eq!(t.get("bar"), Some(names(&["B", "D"])));
}

#[test]
fn commit_put_with_no_success_changes_nothing() {
    let mut t = ReplicaTable::new();
    let candidates = names(&["A", "B", "C", "D"]);
    let installed = t.commit_put("bar", &candidates, &Vec::new());
    assert!(!installed);
    assert_eq!(t.get("bar"), None);
    assert_eq!(t.len(), 0);
}

#[test]
fn prefix_find_returns_first_entry_in_order() {
    let mut t = ReplicaTable::new();
    t.install("out", names(&["A"]));
    t.install("data1", names(&["B"]));
    t.install("data2", names(&["C"]));
    let i = t.prefix_find("data").unwrap();
    assert_eq!(t.key_of(i), "data1");
    assert_eq!(t.replicas_cloned(i), names(&["B"]));
    assert!(t.prefix_find("nope").is_none());
}

#[test]
fn set_replicas_at_keeps_name() {
    let mut t = ReplicaTable::new();
    t.install("bar", names(&["A", "B"]));
    let i = t.find("bar").unwrap();
    t.set_replicas_at(i, names(&["C"]));
    assert_eq!(t.get("bar"), Some(names(&["C"])));
}
