use vstd::prelude::*;
use vstd::string::*;

use crate::keyindex::KeyIndex;
use crate::message_types::KeyServers;
use crate::message_types::LeaderMapReq;
use crate::message_types::LeaderReduceReq;
use crate::replica_table::ReplicaTable;
use crate::strutil::append_names;
use crate::strutil::clone_names;
use crate::strutil::contains_seq;
use crate::strutil::distinct_seqs;
use crate::helpers::file_key_name;
use crate::helpers::FileKey;

verus! {

/// What one map worker reported: itself when it succeeded, the input
/// blocks it failed to cover, and the keys it emitted.
pub struct MapResult {
    pub succ_worker: Option<String>,
    pub fail_blocks: Vec<(String, KeyServers)>,
    pub keys: Vec<String>,
}

/// What one reduce worker reported: itself when it succeeded and the key
/// blocks it failed to cover.
pub struct ReduceResult {
    pub succ_worker: Option<String>,
    pub fail_blocks: Vec<(String, KeyServers)>,
}

/// A block as the contracts see it: the file (or key) name and the servers
/// that hold it.
pub open spec fn block_view(b: (String, KeyServers)) -> (Seq<char>, Seq<Seq<char>>) {
    (b.0@, b.1.servers.deep_view())
}

/// A block list as the contracts see it.
pub open spec fn blocks_view(s: Seq<(String, KeyServers)>) -> Seq<(Seq<char>, Seq<Seq<char>>)> {
    Seq::new(s.len(), |i: int| block_view(s[i]))
}

/// The workers of the first `i` map results that succeeded, in order.
pub open spec fn map_succ_upto(rs: Seq<MapResult>, i: int) -> Seq<Seq<char>>
    decreases i,
{
    if i <= 0 {
        Seq::empty()
    } else {
        map_succ_upto(rs, i - 1) + match rs[i - 1].succ_worker {
            Some(w) => seq![w@],
            None => Seq::<Seq<char>>::empty(),
        }
    }
}

/// The failed blocks of the first `i` map results, concatenated.
pub open spec fn map_fails_upto(rs: Seq<MapResult>, i: int) -> Seq<(Seq<char>, Seq<Seq<char>>)>
    decreases i,
{
    if i <= 0 {
        Seq::empty()
    } else {
        map_fails_upto(rs, i - 1) + blocks_view(rs[i - 1].fail_blocks@)
    }
}

/// The keys of the first `i` map results, concatenated.
pub open spec fn map_keys_upto(rs: Seq<MapResult>, i: int) -> Seq<Seq<char>>
    decreases i,
{
    if i <= 0 {
        Seq::empty()
    } else {
        map_keys_upto(rs, i - 1) + rs[i - 1].keys.deep_view()
    }
}

/// The workers of the first `i` reduce results that succeeded, in order.
pub open spec fn red_succ_upto(rs: Seq<ReduceResult>, i: int) -> Seq<Seq<char>>
    decreases i,
{
    if i <= 0 {
        Seq::empty()
    } else {
        red_succ_upto(rs, i - 1) + match rs[i - 1].succ_worker {
            Some(w) => seq![w@],
            None => Seq::<Seq<char>>::empty(),
        }
    }
}

/// The failed blocks of the first `i` reduce results, concatenated.
pub open spec fn red_fails_upto(rs: Seq<ReduceResult>, i: int) -> Seq<(Seq<char>, Seq<Seq<char>>)>
    decreases i,
{
    if i <= 0 {
        Seq::empty()
    } else {
        red_fails_upto(rs, i - 1) + blocks_view(rs[i - 1].fail_blocks@)
    }
}

/// A copy of a block, name and servers alike.
fn clone_block(b: &(String, KeyServers)) -> (r: (String, KeyServers))
    ensures
        block_view(r) == block_view(*b),
{
    let name = b.0.clone();
    let servers = clone_names(&b.1.servers);
    proof {
        assert(servers.deep_view() =~= b.1.servers.deep_view());
    }
    (name, KeyServers { servers })
}

/// Appends copies of `src`'s blocks to `dst`, in order.
fn append_blocks(dst: &mut Vec<(String, KeyServers)>, src: &Vec<(String, KeyServers)>)
    ensures
        blocks_view(final(dst)@) == blocks_view(old(dst)@) + blocks_view(src@),
{
    let ghost base = blocks_view(dst@);
    let mut i: usize = 0;
    proof {
        assert(blocks_view(dst@) =~= base + blocks_view(src@).subrange(0, 0));
    }
    while i < src.len()
        invariant
            i <= src@.len(),
            blocks_view(dst@) == base + blocks_view(src@).subrange(0, i as int),
        decreases src@.len() - i,
    {
        let b = clone_block(&src[i]);
        let ghost prev = blocks_view(dst@);
        dst.push(b);
        proof {
            assert forall|k: int| 0 <= k < dst@.len() implies blocks_view(dst@)[k] == (base
                + blocks_view(src@).subrange(0, i + 1 as int))[k] by {
                if k < prev.len() {
                    assert(blocks_view(dst@)[k] == prev[k]);
                } else {
                    assert(blocks_view(dst@)[k] == block_view(src@[i as int]));
                    assert(blocks_view(src@)[i as int] == block_view(src@[i as int]));
                    assert((base + blocks_view(src@).subrange(0, i + 1 as int))[k] == blocks_view(
                        src@,
                    ).subrange(0, i + 1 as int)[k - base.len()]);
                    assert(blocks_view(src@).subrange(0, i + 1 as int)[k - base.len()]
                        == blocks_view(src@)[i as int]);
                }
            }
            assert(blocks_view(dst@).len() == prev.len() + 1);
            assert(prev.len() == base.len() + i);
            assert(blocks_view(src@).subrange(0, i + 1 as int).len() == i + 1);
            assert((base + blocks_view(src@).subrange(0, i + 1 as int)).len() == base.len() + i
                + 1);
            assert(blocks_view(dst@) =~= base + blocks_view(src@).subrange(0, i + 1 as int));
        }
        i = i + 1;
    }
    proof {
        assert(blocks_view(src@).subrange(0, src@.len() as int) =~= blocks_view(src@));
    }
}

/// One round of map results, folded: the surviving workers, the blocks to
/// retry, and the keys gathered so far.
pub struct MapRound {
    pub workers: Vec<String>,
    pub pending: Vec<(String, KeyServers)>,
    pub keys: Vec<String>,
}

/// Folds the per-worker answers of one map round: workers that answered
/// survive, every failed block is gathered for redispatch, and every
/// emitted key is collected, all in result order.
pub fn collect_map_results(results: &Vec<MapResult>) -> (r: MapRound)
    ensures
        r.workers.deep_view() == map_succ_upto(results@, results@.len() as int),
        blocks_view(r.pending@) == map_fails_upto(results@, results@.len() as int),
        r.keys.deep_view() == map_keys_upto(results@, results@.len() as int),
{
    let n = results.len();
    let mut workers: Vec<String> = Vec::new();
    let mut pending: Vec<(String, KeyServers)> = Vec::new();
    let mut keys: Vec<String> = Vec::new();
    let mut i: usize = 0;
    proof {
        assert(workers.deep_view() =~= map_succ_upto(results@, 0));
        assert(blocks_view(pending@) =~= map_fails_upto(results@, 0));
        assert(keys.deep_view() =~= map_keys_upto(results@, 0));
    }
    while i < n
        invariant
            i <= n,
            n == results@.len(),
            workers.deep_view() == map_succ_upto(results@, i as int),
            blocks_view(pending@) == map_fails_upto(results@, i as int),
            keys.deep_view() == map_keys_upto(results@, i as int),
        decreases n - i,
    {
        let res = &results[i];
        let ghost wbase = workers.deep_view();
        match &res.succ_worker {
            Some(w) => {
                let wc = w.clone();
                proof {
                    assert(cloned::<String>(results@[i as int].succ_worker->0, wc));
                }
                workers.push(wc);
                proof {
                    assert(workers.deep_view() =~= wbase + seq![
                        results@[i as int].succ_worker->0@,
                    ]);
                }
            },
            None => {
                proof {
                    assert(workers.deep_view() =~= wbase + Seq::<Seq<char>>::empty());
                }
            },
        }
        append_blocks(&mut pending, &res.fail_blocks);
        append_names(&mut keys, &res.keys);
        i = i + 1;
    }
    MapRound { workers, pending, keys }
}

/// One round of reduce results, folded.
pub struct ReduceRound {
    pub workers: Vec<String>,
    pub pending: Vec<(String, KeyServers)>,
}

/// Folds the per-worker answers of one reduce round, as for map.
pub fn collect_reduce_results(results: &Vec<ReduceResult>) -> (r: ReduceRound)
    ensures
        r.workers.deep_view() == red_succ_upto(results@, results@.len() as int),
        blocks_view(r.pending@) == red_fails_upto(results@, results@.len() as int),
{
    let n = results.len();
    let mut workers: Vec<String> = Vec::new();
    let mut pending: Vec<(String, KeyServers)> = Vec::new();
    let mut i: usize = 0;
    proof {
        assert(workers.deep_view() =~= red_succ_upto(results@, 0));
        assert(blocks_view(pending@) =~= red_fails_upto(results@, 0));
    }
    while i < n
        invariant
            i <= n,
            n == results@.len(),
            workers.deep_view() == red_succ_upto(results@, i as int),
            blocks_view(pending@) == red_fails_upto(results@, i as int),
        decreases n - i,
    {
        let res = &results[i];
        let ghost wbase = workers.deep_view();
        match &res.succ_worker {
            Some(w) => {
                let wc = w.clone();
                proof {
                    assert(cloned::<String>(results@[i as int].succ_worker->0, wc));
                }
                workers.push(wc);
                proof {
                    assert(workers.deep_view() =~= wbase + seq![
                        results@[i as int].succ_worker->0@,
                    ]);
                }
            },
            None => {
                proof {
                    assert(workers.deep_view() =~= wbase + Seq::<Seq<char>>::empty());
                }
            },
        }
        append_blocks(&mut pending, &res.fail_blocks);
        i = i + 1;
    }
    ReduceRound { workers, pending }
}

/// A map task carries exactly the job's executable, output prefix, single
/// input block, target set, line range and arguments.
pub open spec fn map_task_wf(
    req: LeaderMapReq,
    executable: Seq<char>,
    output_prefix: Seq<char>,
    block: (Seq<char>, Seq<Seq<char>>),
    targets: Seq<Seq<char>>,
    lines: (u32, u32),
    arguments: Seq<Seq<char>>,
) -> bool {
    &&& req.executable@ == executable
    &&& req.output_prefix@ == output_prefix
    &&& blocks_view(req.file_server_map@) == seq![block]
    &&& req.target_servers.deep_view() == targets
    &&& req.start_line == lines.0
    &&& req.end_line == lines.1
    &&& req.arguments.deep_view() == arguments
}

/// Builds the per-worker map tasks of one round: one task per line chunk,
/// all naming the same executable, output prefix, input block and target
/// set.
pub fn build_map_tasks(
    executable: &str,
    output_prefix: &str,
    block: &(String, KeyServers),
    targets: &Vec<String>,
    chunks: &Vec<(u32, u32)>,
    arguments: &Vec<String>,
) -> (r: Vec<LeaderMapReq>)
    ensures
        r@.len() == chunks@.len(),
        forall|c: int|
            0 <= c < r@.len() ==> map_task_wf(
                #[trigger] r@[c],
                executable@,
                output_prefix@,
                block_view(*block),
                targets.deep_view(),
                chunks@[c],
                arguments.deep_view(),
            ),
{
    let n = chunks.len();
    let mut r: Vec<LeaderMapReq> = Vec::new();
    let mut c: usize = 0;
    while c < n
        invariant
            c <= n,
            n == chunks@.len(),
            r@.len() == c,
            forall|k: int|
                0 <= k < c ==> map_task_wf(
                    #[trigger] r@[k],
                    executable@,
                    output_prefix@,
                    block_view(*block),
                    targets.deep_view(),
                    chunks@[k],
                    arguments.deep_view(),
                ),
        decreases n - c,
    {
        let b = clone_block(block);
        let mut fsm: Vec<(String, KeyServers)> = Vec::new();
        fsm.push(b);
        let req = LeaderMapReq {
            executable: executable.to_owned(),
            output_prefix: output_prefix.to_owned(),
            file_server_map: fsm,
            target_servers: clone_names(targets),
            start_line: chunks[c].0,
            end_line: chunks[c].1,
            arguments: clone_names(arguments),
        };
        proof {
            assert(blocks_view(req.file_server_map@) =~= seq![block_view(*block)]);
            assert(req.target_servers.deep_view() =~= targets.deep_view());
            assert(req.arguments.deep_view() =~= arguments.deep_view());
        }
        r.push(req);
        c = c + 1;
    }
    r
}

/// A reduce task carries exactly its slice of the key blocks, the output
/// target, the output file and the executable.
pub open spec fn reduce_task_wf(
    req: LeaderReduceReq,
    blocks: Seq<(Seq<char>, Seq<Seq<char>>)>,
    lo: int,
    hi: int,
    target: Seq<char>,
    output_file: Seq<char>,
    executable: Seq<char>,
) -> bool {
    &&& blocks_view(req.key_server_map@) == blocks.subrange(lo, hi)
    &&& req.target_server@ == target
    &&& req.output_file@ == output_file
    &&& req.executable@ == executable
}

/// Builds the per-worker reduce tasks of one round: one task per run of
/// key blocks, all naming the same target, output file and executable.
pub fn build_reduce_tasks(
    blocks: &Vec<(String, KeyServers)>,
    bounds: &Vec<(usize, usize)>,
    target: &str,
    output_file: &str,
    executable: &str,
) -> (r: Vec<LeaderReduceReq>)
    requires
        forall|c: int|
            0 <= c < bounds@.len() ==> (#[trigger] bounds@[c]).0 <= bounds@[c].1 <= blocks@.len(),
    ensures
        r@.len() == bounds@.len(),
        forall|c: int|
            0 <= c < r@.len() ==> reduce_task_wf(
                #[trigger] r@[c],
                blocks_view(blocks@),
                bounds@[c].0 as int,
                bounds@[c].1 as int,
                target@,
                output_file@,
                executable@,
            ),
{
    let n = bounds.len();
    let mut r: Vec<LeaderReduceReq> = Vec::new();
    let mut c: usize = 0;
    while c < n
        invariant
            c <= n,
            n == bounds@.len(),
            r@.len() == c,
            forall|q: int|
                0 <= q < bounds@.len() ==> (#[trigger] bounds@[q]).0 <= bounds@[q].1
                    <= blocks@.len(),
            forall|k: int|
                0 <= k < c ==> reduce_task_wf(
                    #[trigger] r@[k],
                    blocks_view(blocks@),
                    bounds@[k].0 as int,
                    bounds@[k].1 as int,
                    target@,
                    output_file@,
                    executable@,
                ),
        decreases n - c,
    {
        let (lo, hi) = bounds[c];
        let mut slice: Vec<(String, KeyServers)> = Vec::new();
        let mut j: usize = lo;
        while j < hi
            invariant
                lo <= j <= hi,
                hi <= blocks@.len(),
                blocks_view(slice@) == blocks_view(blocks@).subrange(lo as int, j as int),
            decreases hi - j,
        {
            let b = clone_block(&blocks[j]);
            let ghost prev = blocks_view(slice@);
            slice.push(b);
            proof {
                assert forall|k: int| 0 <= k < slice@.len() implies blocks_view(slice@)[k]
                    == blocks_view(blocks@).subrange(lo as int, j + 1 as int)[k] by {
                    if k < prev.len() {
                        assert(blocks_view(slice@)[k] == prev[k]);
                    } else {
                        assert(blocks_view(slice@)[k] == block_view(blocks@[j as int]));
                    }
                }
                assert(blocks_view(slice@) =~= blocks_view(blocks@).subrange(
                    lo as int,
                    j + 1 as int,
                ));
            }
            j = j + 1;
        }
        let req = LeaderReduceReq {
            key_server_map: slice,
            target_server: target.to_owned(),
            output_file: output_file.to_owned(),
            executable: executable.to_owned(),
        };
        r.push(req);
        c = c + 1;
    }
    r
}

/// The key-file names a finished map job installs: `<prefix>_<key>` for
/// each emitted key.
pub open spec fn key_file_names(prefix: Seq<char>, keys: Seq<Seq<char>>) -> Seq<Seq<char>> {
    Seq::new(keys.len(), |i: int| file_key_name(prefix, keys[i]))
}

/// No key among the first `k` equals the key at `q`.
pub open spec fn key_unseen(keys: Seq<Seq<char>>, k: int, q: int) -> bool {
    forall|p: int| 0 <= p < k ==> keys[p] != keys[q]
}

/// Installs the outputs of a finished map job. Every emitted key gets the
/// key file `<prefix>_<key>` recorded as its latest file in the key index,
/// and that key file's replica set becomes the job's target set — unless
/// the file already had one, which is kept, as for any file the job does
/// not own. Files and keys outside the job are untouched.
pub fn install_map_outputs(
    table: &mut ReplicaTable,
    index: &mut KeyIndex,
    prefix: &str,
    keys: &Vec<String>,
    targets: &Vec<String>,
)
    requires
        old(table).wf(),
        old(index).wf(),
        distinct_seqs(targets.deep_view()),
    ensures
        final(table).wf(),
        final(index).wf(),
        forall|k: int|
            0 <= k < keys.deep_view().len() ==> final(table).has_file(
                file_key_name(prefix@, #[trigger] keys.deep_view()[k]),
            ) && final(index).has_key(keys.deep_view()[k]),
        // every key file carries the target set, or the replica set it
        // already had
        forall|k: int|
            0 <= k < keys.deep_view().len() ==> final(table).replicas_of(
                file_key_name(prefix@, #[trigger] keys.deep_view()[k]),
            ) == (if old(table).has_file(file_key_name(prefix@, keys.deep_view()[k])) {
                old(table).replicas_of(file_key_name(prefix@, keys.deep_view()[k]))
            } else {
                targets.deep_view()
            }),
        // every key's newest recorded file is its key file
        forall|k: int|
            0 <= k < keys.deep_view().len() ==> final(index).files_of(
                #[trigger] keys.deep_view()[k],
            ).len() >= 1 && final(index).files_of(keys.deep_view()[k]).last() == file_key_name(
                prefix@,
                keys.deep_view()[k],
            ),
        forall|n: Seq<char>|
            !contains_seq(key_file_names(prefix@, keys.deep_view()), n)
                ==> #[trigger] final(table).has_file(n) == old(table).has_file(n),
        forall|n: Seq<char>|
            !contains_seq(key_file_names(prefix@, keys.deep_view()), n) && old(table).has_file(n)
                ==> #[trigger] final(table).replicas_of(n) == old(table).replicas_of(n),
        forall|kk: Seq<char>|
            !contains_seq(keys.deep_view(), kk)
                ==> #[trigger] final(index).has_key(kk) == old(index).has_key(kk),
        forall|kk: Seq<char>|
            !contains_seq(keys.deep_view(), kk) && old(index).has_key(kk)
                ==> #[trigger] final(index).files_of(kk) == old(index).files_of(kk),
{
    let ghost kview = keys.deep_view();
    let ghost names = key_file_names(prefix@, kview);
    let n = keys.len();
    let mut k: usize = 0;
    while k < n
        invariant
            k <= n,
            n == keys@.len(),
            n == kview.len(),
            kview == keys.deep_view(),
            table.wf(),
            index.wf(),
            distinct_seqs(targets.deep_view()),
            names == key_file_names(prefix@, kview),
            forall|q: int|
                0 <= q < k ==> table.has_file(file_key_name(prefix@, #[trigger] kview[q]))
                    && index.has_key(kview[q]),
            forall|q: int|
                0 <= q < k ==> table.replicas_of(file_key_name(prefix@, #[trigger] kview[q]))
                    == (if old(table).has_file(file_key_name(prefix@, kview[q])) {
                    old(table).replicas_of(file_key_name(prefix@, kview[q]))
                } else {
                    targets.deep_view()
                }),
            forall|q: int|
                0 <= q < k ==> index.files_of(#[trigger] kview[q]).len() >= 1 && index.files_of(
                    kview[q],
                ).last() == file_key_name(prefix@, kview[q]),
            // a key file whose key was not reached yet is as the job found it
            forall|q: int|
                k <= q < n && key_unseen(kview, k as int, q) ==> (#[trigger] table.has_file(
                    file_key_name(prefix@, kview[q]),
                ) == old(table).has_file(file_key_name(prefix@, kview[q])) && (old(
                    table,
                ).has_file(file_key_name(prefix@, kview[q])) ==> table.replicas_of(
                    file_key_name(prefix@, kview[q]),
                ) == old(table).replicas_of(file_key_name(prefix@, kview[q])))),
            forall|m: Seq<char>|
                !contains_seq(names, m) ==> #[trigger] table.has_file(m) == old(table).has_file(m),
            forall|m: Seq<char>|
                !contains_seq(names, m) && old(table).has_file(m) ==> #[trigger] table.replicas_of(
                    m,
                ) == old(table).replicas_of(m),
            forall|kk: Seq<char>|
                !contains_seq(kview, kk) ==> #[trigger] index.has_key(kk) == old(index).has_key(
                    kk,
                ),
            forall|kk: Seq<char>|
                !contains_seq(kview, kk) && old(index).has_key(kk) ==> #[trigger] index.files_of(
                    kk,
                ) == old(index).files_of(kk),
        decreases n - k,
    {
        proof {
            assert(kview[k as int] == keys@[k as int]@);
        }
        let key = &keys[k];
        let ghost kcur = kview[k as int];
        let ghost fname = file_key_name(prefix@, kcur);
        let ghost index_before = *index;
        index.record(key.as_str(), prefix);
        proof {
            assert(contains_seq(kview, kcur)) by {
                assert(kview[k as int] == kcur);
            }
            assert(index.files_of(kcur).last() == fname);
            assert forall|q: int| 0 <= q < k + 1 implies index.files_of(
                #[trigger] kview[q],
            ).len() >= 1 && index.files_of(kview[q]).last() == file_key_name(
                prefix@,
                kview[q],
            ) by {
                if q < k && kview[q] != kcur {
                    assert(index_before.has_key(kview[q]));
                    assert(index.files_of(kview[q]) == index_before.files_of(kview[q]));
                }
            }
            assert forall|kk: Seq<char>| !contains_seq(kview, kk) implies #[trigger] index.has_key(
                kk,
            ) == old(index).has_key(kk) by {
                assert(kk != kcur);
            }
            assert forall|kk: Seq<char>| !contains_seq(kview, kk) && old(index).has_key(
                kk,
            ) implies #[trigger] index.files_of(kk) == old(index).files_of(kk) by {
                assert(kk != kcur);
                assert(index_before.has_key(kk));
            }
        }
        let fk = FileKey::new(prefix, key.as_str());
        proof {
            assert(fk.spec_name() == fname);
            assert(names[k as int] == fname);
            assert(contains_seq(names, fname));
        }
        let ghost table_before = *table;
        match table.find(fk.name().as_str()) {
            Some(_) => {
                proof {
                    assert(table.has_file(fname));
                }
            },
            None => {
                table.install(fk.name().as_str(), clone_names(targets));
                proof {
                    assert(table.has_file(fname));
                    table_pres_facts(&table_before, table, names, fname);
                }
            },
        }
        proof {
            // the key just handled now carries the right replica set
            assert(table.replicas_of(fname) == (if old(table).has_file(fname) {
                old(table).replicas_of(fname)
            } else {
                targets.deep_view()
            })) by {
                if key_unseen(kview, k as int, k as int) {
                    // first time this key is seen: the table held the
                    // job-start state for its file
                    if old(table).has_file(fname) {
                        assert(table_before.has_file(fname));
                        assert(*table == table_before);
                        assert(table_before.replicas_of(fname) == old(table).replicas_of(fname));
                    } else {
                        assert(!table_before.has_file(fname));
                        assert(table.replicas_of(fname) == targets.deep_view());
                    }
                } else {
                    // a duplicate key: its file was already settled
                    let p = choose|p: int| 0 <= p < k && #[trigger] kview[p] == kcur;
                    assert(table_before.has_file(file_key_name(prefix@, kview[p])));
                    assert(*table == table_before);
                    assert(table_before.replicas_of(fname) == (if old(table).has_file(fname) {
                        old(table).replicas_of(fname)
                    } else {
                        targets.deep_view()
                    }));
                }
            }
            assert forall|q: int| 0 <= q < k + 1 implies table.replicas_of(
                file_key_name(prefix@, #[trigger] kview[q]),
            ) == (if old(table).has_file(file_key_name(prefix@, kview[q])) {
                old(table).replicas_of(file_key_name(prefix@, kview[q]))
            } else {
                targets.deep_view()
            }) by {
                if q < k {
                    let m = file_key_name(prefix@, kview[q]);
                    assert(table_before.has_file(m));
                    if m == fname {
                        assert(table.replicas_of(m) == table.replicas_of(fname));
                        crate::helpers::lemma_file_key_name_injective(prefix@, kview[q], kcur);
                    } else {
                        assert(table.has_file(m) == table_before.has_file(m));
                        assert(table.replicas_of(m) == table_before.replicas_of(m));
                    }
                }
            }
            assert forall|q: int| 0 <= q < k + 1 implies table.has_file(
                file_key_name(prefix@, #[trigger] kview[q]),
            ) && index.has_key(kview[q]) by {
                if q < k {
                    let m = file_key_name(prefix@, kview[q]);
                    assert(table_before.has_file(m));
                    if m != fname {
                        assert(table.has_file(m) == table_before.has_file(m));
                    }
                }
            }
            assert forall|q: int| k + 1 <= q < n && key_unseen(kview, k + 1, q) implies (
            #[trigger] table.has_file(file_key_name(prefix@, kview[q])) == old(table).has_file(
                file_key_name(prefix@, kview[q]),
            ) && (old(table).has_file(file_key_name(prefix@, kview[q])) ==> table.replicas_of(
                file_key_name(prefix@, kview[q]),
            ) == old(table).replicas_of(file_key_name(prefix@, kview[q])))) by {
                let m = file_key_name(prefix@, kview[q]);
                assert(key_unseen(kview, k as int, q));
                assert(kview[k as int] != kview[q]);
                assert(m != fname) by {
                    if m == fname {
                        crate::helpers::lemma_file_key_name_injective(prefix@, kview[q], kcur);
                    }
                }
                assert(table.has_file(m) == table_before.has_file(m));
                if table_before.has_file(m) {
                    assert(table.replicas_of(m) == table_before.replicas_of(m));
                }
            }
        }
        k = k + 1;
    }
}

proof fn table_pres_facts(
    before: &ReplicaTable,
    after: &ReplicaTable,
    names: Seq<Seq<char>>,
    fname: Seq<char>,
)
    requires
        contains_seq(names, fname),
        forall|m: Seq<char>| m != fname ==> #[trigger] after.has_file(m) == before.has_file(m),
        forall|m: Seq<char>|
            m != fname && before.has_file(m) ==> #[trigger] after.replicas_of(m)
                == before.replicas_of(m),
    ensures
        forall|m: Seq<char>|
            !contains_seq(names, m) ==> #[trigger] after.has_file(m) == before.has_file(m),
        forall|m: Seq<char>|
            !contains_seq(names, m) && before.has_file(m) ==> #[trigger] after.replicas_of(m)
                == before.replicas_of(m),
{
    assert forall|m: Seq<char>| !contains_seq(names, m) implies #[trigger] after.has_file(m)
        == before.has_file(m) by {
        assert(m != fname);
    }
    assert forall|m: Seq<char>| !contains_seq(names, m) && before.has_file(m) implies #[trigger] after
        .replicas_of(m) == before.replicas_of(m) by {
        assert(m != fname);
    }
}

/// Attaches to each reduce-input name the servers the table records for
/// it; the whole lookup fails when any input is unknown, as a reduce with
/// a missing key file must abort.
pub fn attach_servers(table: &ReplicaTable, names: &Vec<String>) -> (r: Option<
    Vec<(String, KeyServers)>,
>)
    requires
        table.wf(),
    ensures
        match r {
            Some(v) => {
                &&& blocks_view(v@).len() == names.deep_view().len()
                &&& forall|k: int|
                    0 <= k < names.deep_view().len() ==> table.has_file(
                        #[trigger] names.deep_view()[k],
                    ) && blocks_view(v@)[k] == (
                    names.deep_view()[k],
                    table.replicas_of(names.deep_view()[k]),
                    )
            },
            None => exists|k: int|
                0 <= k < names.deep_view().len() && !table.has_file(
                    #[trigger] names.deep_view()[k],
                ),
        },
{
    let n = names.len();
    let mut out: Vec<(String, KeyServers)> = Vec::new();
    let mut k: usize = 0;
    while k < n
        invariant
            k <= n,
            n == names@.len(),
            table.wf(),
            blocks_view(out@).len() == k,
            forall|q: int|
                0 <= q < k ==> table.has_file(#[trigger] names.deep_view()[q]) && blocks_view(
                    out@,
                )[q] == (names.deep_view()[q], table.replicas_of(names.deep_view()[q])),
        decreases n - k,
    {
        proof {
            assert(names.deep_view()[k as int] == names@[k as int]@);
        }
        match table.get(names[k].as_str()) {
            Some(servers) => {
                let name = names[k].clone();
                proof {
                    assert(cloned::<String>(names@[k as int], name));
                }
                let ghost prev = blocks_view(out@);
                out.push((name, KeyServers { servers }));
                proof {
                    assert(forall|q: int| 0 <= q < prev.len() ==> blocks_view(out@)[q] == prev[q]);
                    assert(blocks_view(out@)[k as int] == (
                        names.deep_view()[k as int],
                        table.replicas_of(names.deep_view()[k as int]),
                    ));
                }
            },
            None => {
                return None;
            },
        }
        k = k + 1;
    }
    Some(out)
}

/// Installs a finished reduce job's output file: its replica set is the
/// output target together with the receivers the target replicated to.
pub fn install_reduce_output(
    table: &mut ReplicaTable,
    output_file: &str,
    target: &str,
    receivers: &Vec<String>,
)
    requires
        old(table).wf(),
        distinct_seqs(receivers.deep_view()),
        !contains_seq(receivers.deep_view(), target@),
    ensures
        final(table).wf(),
        final(table).has_file(output_file@),
        final(table).replicas_of(output_file@) == seq![target@] + receivers.deep_view(),
        forall|n: Seq<char>|
            n != output_file@ ==> #[trigger] final(table).has_file(n) == old(table).has_file(n),
        forall|n: Seq<char>|
            n != output_file@ && old(table).has_file(n) ==> #[trigger] final(table).replicas_of(n)
                == old(table).replicas_of(n),
{
    let mut reps: Vec<String> = Vec::new();
    reps.push(target.to_owned());
    proof {
        assert(reps.deep_view() =~= seq![target@]);
    }
    append_names(&mut reps, receivers);
    proof {
        assert(distinct_seqs(reps.deep_view())) by {
            let joined = seq![target@] + receivers.deep_view();
            assert forall|a: int, b: int| 0 <= a < b < joined.len() implies joined[a]
                != joined[b] by {
                if a == 0 {
                    assert(joined[b] == receivers.deep_view()[b - 1]);
                    if joined[0] == joined[b] {
                        assert(contains_seq(receivers.deep_view(), target@));
                    }
                } else {
                    assert(joined[a] == receivers.deep_view()[a - 1]);
                    assert(joined[b] == receivers.deep_view()[b - 1]);
                }
            }
        }
    }
    table.install(output_file, reps);
}

/// The phases of a dispatch round: tasks out, answers gathering, and the
/// two ends — every block covered, or blocks left with nobody to run them.
#[derive(Clone, Copy, Debug, PartialEq, Eq, Structural)]
pub enum DispatchPhase {
    Dispatching,
    Collecting,
    Done,
    Failed,
}

/// Where a dispatch loop goes after collecting a round: finished when no
/// block remains; another round while any worker survives; abandoned — the
/// client is never acknowledged — when blocks remain and no worker does.
pub fn next_phase(pending_empty: bool, workers_left: bool) -> (r: DispatchPhase)
    ensures
        pending_empty ==> r == DispatchPhase::Done,
        !pending_empty && workers_left ==> r == DispatchPhase::Dispatching,
        !pending_empty && !workers_left ==> r == DispatchPhase::Failed,
{
    if pending_empty {
        DispatchPhase::Done
    } else if workers_left {
        DispatchPhase::Dispatching
    } else {
        DispatchPhase::Failed
    }
}

} // verus!
