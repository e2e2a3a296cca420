use sdfs::placement::extend_replicas;
use sdfs::placement::plan_output_replication;
use sdfs::placement::plan_repair;
use sdfs::placement::select_put_candidates;
use sdfs::placement::select_reduce_target;

fn names(v: &[&str]) -> Vec<String> {
    v.iter().map(|s| s.to_string()).collect()
}

#[test]
fn put_quorum_is_exactly_four_live_distinct_nodes() {
    let active = names(&["A", "B", "C", "D", "E"]);
    let picked = select_put_candidates(&active).unwrap();
    assert_eq!(picked.len(), 4);
    for (i, a) in picked.iter().enumerate() {
        assert!(active.contains(a));
        for b in picked.iter().skip(i + 1) {
            assert_ne!(a, b);
        }
    }
}

#[test]
fn put_fails_below_four_live_nodes() {
    let active = names(&["A", "B", "C"]);
    assert!(select_put_candidates(&active).is_none());
}

#[test]
fn repair_after_one_loss_restores_four_replicas() {
    // file bar sat on {B,C,D,E}; C died; A is the only machine free to take it
    let remaining = names(&["B", "D", "E"]);
    let live = names(&["A", "B", "D", "E"]);
    let plan = plan_repair(&remaining, &live, &Vec::new(), 1);
    assert_eq!(plan.len(), 1);
    assert_eq!(plan[0].receiver, "A");
    assert!(remaining.contains(&plan[0].sender));
    let repaired = extend_replicas(&remaining, &names(&["A"]));
    assert_eq!(repaired.len(), 4);
    assert!(!repaired.contains(&"C".to_string()));
    assert!(repaired.contains(&"A".to_string()));
}

#[test]
fn repair_plans_no_more_receivers_than_free_machines() {
    let remaining = names(&["B"]);
    let live = names(&["A", "B"]);
    let plan = plan_repair(&remaining, &live, &Vec::new(), 3);
    assert_eq!(plan.len(), 1);
    assert_eq!(plan[0].receiver, "A");
}

#[test]
fn repair_senders_repeat_when_survivors_run_out() {
    let remaining = names(&["B"]);
    let live = names(&["A", "B", "C", "D"]);
    let plan = plan_repair(&remaining, &live, &Vec::new(), 3);
    assert_eq!(plan.len(), 3);
    for step in &plan {
        assert_eq!(step.sender, "B");
        assert_ne!(step.receiver, "B");
    }
}

#[test]
fn output_replication_avoids_target_and_earlier_receivers() {
    let active = names(&["A", "B", "C", "D", "E"]);
    let already = names(&["B"]);
    let picked = plan_output_replication(&active, "A", &already, 3);
    assert_eq!(picked.len(), 3);
    for (i, m) in picked.iter().enumerate() {
        assert_ne!(m, "A");
        assert_ne!(m, "B");
        assert!(active.contains(m));
        for n in picked.iter().skip(i + 1) {
            assert_ne!(m, n);
        }
    }
}

#[test]
fn reduce_target_comes_from_live_view() {
    let active = names(&["A", "B"]);
    let t = select_reduce_target(&active).unwrap();
    assert!(active.contains(&t));
    assert!(select_reduce_target(&Vec::new()).is_none());
}
