use sdfs::keyindex::KeyIndex;
use sdfs::lines::count_lines;
use sdfs::lines::split_lines;
use sdfs::mapreduce::attach_servers;
use sdfs::mapreduce::build_map_tasks;
use sdfs::mapreduce::build_reduce_tasks;
use sdfs::mapreduce::collect_map_results;
use sdfs::mapreduce::collect_reduce_results;
use sdfs::mapreduce::install_map_outputs;
use sdfs::mapreduce::install_reduce_output;
use sdfs::mapreduce::next_phase;
use sdfs::mapreduce::DispatchPhase;
use sdfs::mapreduce::MapResult;
use sdfs::mapreduce::ReduceResult;
use sdfs::message_types::KeyServers;
use sdfs::partition::chunk_bounds;
use sdfs::partition::map_chunks;
use sdfs::replica_table::ReplicaTable;

fn names(v: &[&str]) -> Vec<String> {
    v.iter().map(|s| s.to_string()).collect()
}

#[test]
fn map_chunks_cover_every_line() {
    assert_eq!(map_chunks(3, 2), vec![(0, 1), (2, 3)]);
    assert_eq!(map_chunks(10, 3), vec![(0, 3), (4, 7), (8, 11)]);
    assert_eq!(map_chunks(2, 5), vec![(0, 0), (1, 1)]);
}

#[test]
fn chunk_bounds_cover_every_item() {
    assert_eq!(chunk_bounds(5, 2), vec![(0, 3), (3, 5)]);
    assert_eq!(chunk_bounds(3, 5), vec![(0, 1), (1, 2), (2, 3)]);
    assert_eq!(chunk_bounds(4, 2), vec![(0, 2), (2, 4)]);
}

#[test]
fn map_round_folds_workers_blocks_and_keys() {
    let block = ("data".to_string(), KeyServers { servers: names(&["A", "B"]) });
    let results = vec![
        MapResult {
            succ_worker: Some("W1".to_string()),
            fail_blocks: Vec::new(),
            keys: names(&["a", "b"]),
        },
        MapResult { succ_worker: None, fail_blocks: vec![block.clone()], keys: Vec::new() },
        MapResult { succ_worker: Some("W3".to_string()), fail_blocks: Vec::new(), keys: names(&["a"]) },
    ];
    let round = collect_map_results(&results);
    assert_eq!(round.workers, names(&["W1", "W3"]));
    assert_eq!(round.pending.len(), 1);
    assert_eq!(round.pending[0].0, "data");
    assert_eq!(round.pending[0].1.servers, names(&["A", "B"]));
    assert_eq!(round.keys, names(&["a", "b", "a"]));
}

#[test]
fn reduce_round_folds_workers_and_blocks() {
    let block = ("tmp_a".to_string(), KeyServers { servers: names(&["A"]) });
    let results = vec![
        ReduceResult { succ_worker: None, fail_blocks: vec![block] },
        ReduceResult { succ_worker: Some("W2".to_string()), fail_blocks: Vec::new() },
    ];
    let round = collect_reduce_results(&results);
    assert_eq!(round.workers, names(&["W2"]));
    assert_eq!(round.pending.len(), 1);
    assert_eq!(round.pending[0].0, "tmp_a");
}

#[test]
fn map_tasks_carry_block_targets_and_lines() {
    let block = ("data".to_string(), KeyServers { servers: names(&["A", "B", "C"]) });
    let targets = names(&["T1", "T2", "T3", "T4"]);
    let chunks = vec![(0u32, 1u32), (2u32, 3u32)];
    let args = names(&["x"]);
    let tasks = build_map_tasks("wc.py", "tmp", &block, &targets, &chunks, &args);
    assert_eq!(tasks.len(), 2);
    assert_eq!(tasks[0].executable, "wc.py");
    assert_eq!(tasks[0].output_prefix, "tmp");
    assert_eq!(tasks[0].file_server_map.len(), 1);
    assert_eq!(tasks[0].file_server_map[0].0, "data");
    assert_eq!(tasks[0].file_server_map[0].1.servers, names(&["A", "B", "C"]));
    assert_eq!(tasks[0].target_servers, targets);
    assert_eq!((tasks[0].start_line, tasks[0].end_line), (0, 1));
    assert_eq!((tasks[1].start_line, tasks[1].end_line), (2, 3));
    assert_eq!(tasks[1].arguments, args);
}

#[test]
fn reduce_tasks_slice_the_key_blocks() {
    let blocks = vec![
        ("tmp_a".to_string(), KeyServers { servers: names(&["A"]) }),
        ("tmp_b".to_string(), KeyServers { servers: names(&["B"]) }),
        ("tmp_c".to_string(), KeyServers { servers: names(&["C"]) }),
    ];
    let bounds = chunk_bounds(blocks.len(), 2);
    let tasks = build_reduce_tasks(&blocks, &bounds, "T", "out", "sum.py");
    assert_eq!(tasks.len(), 2);
    assert_eq!(tasks[0].key_server_map.len(), 2);
    assert_eq!(tasks[0].key_server_map[0].0, "tmp_a");
    assert_eq!(tasks[0].key_server_map[1].0, "tmp_b");
    assert_eq!(tasks[1].key_server_map.len(), 1);
    assert_eq!(tasks[1].key_server_map[0].0, "tmp_c");
    assert_eq!(tasks[0].target_server, "T");
    assert_eq!(tasks[0].output_file, "out");
    assert_eq!(tasks[0].executable, "sum.py");
}

#[test]
fn map_then_reduce_places_key_files_and_output() {
    // file `data` holds three lines a, b, a; a map over it emits each line
    // as a key, and a reduce folds the keys into `out`
    let content = b"a\nb\na\n".to_vec();
    assert_eq!(count_lines(&content), 3);
    let keys = split_lines("a\nb\na");
    assert_eq!(keys, names(&["a", "b", "a"]));

    let mut table = ReplicaTable::new();
    table.install("data", names(&["A", "B", "C"]));
    let i = table.prefix_find("data").unwrap();
    assert_eq!(table.key_of(i), "data");

    let mut index = KeyIndex::new();
    let targets = names(&["T1", "T2", "T3", "T4"]);
    install_map_outputs(&mut table, &mut index, "tmp", &keys, &targets);
    assert_eq!(table.get("tmp_a"), Some(targets.clone()));
    assert_eq!(table.get("tmp_b"), Some(targets.clone()));

    let inputs = index.reduce_inputs("tmp");
    assert_eq!(inputs, names(&["tmp_a", "tmp_b"]));
    let blocks = attach_servers(&table, &inputs).unwrap();
    assert_eq!(blocks.len(), 2);
    assert_eq!(blocks[0].0, "tmp_a");
    assert_eq!(blocks[0].1.servers, targets);

    install_reduce_output(&mut table, "out", "T1", &names(&["T2", "T3", "T4"]));
    assert_eq!(table.get("out"), Some(names(&["T1", "T2", "T3", "T4"])));
}

#[test]
fn map_outputs_keep_an_existing_replica_set() {
    // a key file that already has holders is not re-placed
    let mut table = ReplicaTable::new();
    table.install("tmp_a", names(&["X", "Y"]));
    let mut index = KeyIndex::new();
    let targets = names(&["T1", "T2", "T3", "T4"]);
    install_map_outputs(&mut table, &mut index, "tmp", &names(&["a", "b"]), &targets);
    assert_eq!(table.get("tmp_a"), Some(names(&["X", "Y"])));
    assert_eq!(table.get("tmp_b"), Some(targets));
}

#[test]
fn reduce_aborts_when_a_key_file_is_unknown() {
    let table = ReplicaTable::new();
    assert!(attach_servers(&table, &names(&["tmp_missing"])).is_none());
}

#[test]
fn key_index_keeps_every_recording() {
    let mut index = KeyIndex::new();
    index.record("a", "tmp");
    index.record("a", "job2");
    index.record("b", "tmp");
    // a key's first file with the wanted prefix represents it
    assert_eq!(index.reduce_inputs("tmp"), names(&["tmp_a", "tmp_b"]));
    assert_eq!(index.reduce_inputs("job2"), names(&["job2_a"]));
    assert_eq!(index.reduce_inputs("zzz"), Vec::<String>::new());
}

#[test]
fn dispatch_phases_follow_the_round() {
    assert_eq!(next_phase(true, true), DispatchPhase::Done);
    assert_eq!(next_phase(true, false), DispatchPhase::Done);
    assert_eq!(next_phase(false, true), DispatchPhase::Dispatching);
    assert_eq!(next_phase(false, false), DispatchPhase::Failed);
}
