use vstd::prelude::*;

verus! {

/// Request to store a logical file.
#[derive(Clone, Debug, PartialEq)]
pub struct PutReq {
    pub file_name: String,
}

/// One chunk of file data travelling to a storage node.
#[derive(Clone, Debug, PartialEq)]
pub struct PutData {
    pub machine: String,
    pub file_name: String,
    pub offset: u64,
    pub data: Vec<u8>,
}

/// Leader-to-node order: proxy the named file to `machine`.
#[derive(Clone, Debug, PartialEq)]
pub struct LeaderPutReq {
    pub machine: String,
    pub file_name: String,
}

/// Request to fetch a logical file.
#[derive(Clone, Debug, PartialEq)]
pub struct GetReq {
    pub file_name: String,
}

/// One chunk of file data travelling back to a client.
#[derive(Clone, Debug, PartialEq)]
pub struct GetData {
    pub machine: String,
    pub file_name: String,
    pub offset: u64,
    pub data: Vec<u8>,
}

/// Request to remove a logical file everywhere.
#[derive(Clone, Debug, PartialEq)]
pub struct Delete {
    pub file_name: String,
}

/// Request for the storage locations of a logical file.
#[derive(Clone, Debug, PartialEq)]
pub struct LsReq {
    pub file_name: String,
}

/// The machines that hold (or will hold) a logical file.
#[derive(Clone, Debug, PartialEq)]
pub struct LsRes {
    pub machines: Vec<String>,
}

/// Positive acknowledgement.
#[derive(Clone, Debug, PartialEq)]
pub struct Ack {
    pub message: String,
}

/// Negative acknowledgement.
#[derive(Clone, Debug, PartialEq)]
pub struct Fail {
    pub message: String,
}

/// Leader request for a node's local file inventory.
#[derive(Clone, Debug, PartialEq)]
pub struct LeaderStoreReq {
    pub message: String,
}

/// A node's local file inventory.
#[derive(Clone, Debug, PartialEq)]
pub struct LeaderStoreRes {
    pub files: Vec<String>,
}

/// Fan-out read: every listed peer fetches the file concurrently.
#[derive(Clone, Debug, PartialEq)]
pub struct MultiRead {
    pub local_file_name: String,
    pub sdfs_file_name: String,
    pub leader_ip: String,
}

/// Fan-out write: every listed peer uploads the file concurrently.
#[derive(Clone, Debug, PartialEq)]
pub struct MultiWrite {
    pub local_file_name: String,
    pub sdfs_file_name: String,
    pub leader_ip: String,
}

/// Client job submission for a map run.
#[derive(Clone, Debug, PartialEq)]
pub struct MapReq {
    pub executable: String,
    pub num_workers: u32,
    pub file_name_prefix: String,
    pub input_dir: String,
    pub arguments: Vec<String>,
}

/// Client job submission for a reduce run.
#[derive(Clone, Debug, PartialEq)]
pub struct ReduceReq {
    pub executable: String,
    pub num_workers: u32,
    pub file_name_prefix: String,
    pub output_file: String,
    pub delete: bool,
}

/// The servers that hold one input file or key file.
#[derive(Clone, Debug, PartialEq)]
pub struct KeyServers {
    pub servers: Vec<String>,
}

/// Leader-to-worker map task: run `executable` over the given line range of
/// the input and publish each emitted key file to every target server.
/// The file-to-servers association is kept as a list of pairs with distinct
/// file names.
#[derive(Clone, Debug, PartialEq)]
pub struct LeaderMapReq {
    pub executable: String,
    pub output_prefix: String,
    pub file_server_map: Vec<(String, KeyServers)>,
    pub target_servers: Vec<String>,
    pub start_line: u32,
    pub end_line: u32,
    pub arguments: Vec<String>,
}

/// Leader-to-worker reduce task over a batch of key files.
/// The key-to-servers association is kept as a list of pairs with distinct
/// key names.
#[derive(Clone, Debug, PartialEq)]
pub struct LeaderReduceReq {
    pub key_server_map: Vec<(String, KeyServers)>,
    pub target_server: String,
    pub output_file: String,
    pub executable: String,
}

/// Worker-to-target append of one map output file.
#[derive(Clone, Debug, PartialEq)]
pub struct ServerMapReq {
    pub output_file: String,
}

/// Worker's answer to a map task: the emitted keys and the targets that
/// received every key file.
#[derive(Clone, Debug, PartialEq)]
pub struct ServerMapRes {
    pub keys: Vec<String>,
    pub replicators: Vec<String>,
}

/// Worker-to-target append of the reduce output file.
#[derive(Clone, Debug, PartialEq)]
pub struct ServerReduceReq {
    pub output_file: String,
}

/// Request for the line count of a stored file.
#[derive(Clone, Debug, PartialEq)]
pub struct FileSizeReq {
    pub file_name: String,
}

/// A stored file's line count.
#[derive(Clone, Debug, PartialEq)]
pub struct FileSizeRes {
    pub size: u32,
}

/// The request/response envelope: every message on the storage and leader
/// ports is one of these.
#[derive(Clone, Debug, PartialEq)]
pub enum Type {
    PutReq(PutReq),
    PutData(PutData),
    GetReq(GetReq),
    GetData(GetData),
    Del(Delete),
    LsReq(LsReq),
    LsRes(LsRes),
    Ack(Ack),
    Fail(Fail),
    LeaderPutReq(LeaderPutReq),
    LeaderStoreReq(LeaderStoreReq),
    LeaderStoreRes(LeaderStoreRes),
    MultiRead(MultiRead),
    MultiWrite(MultiWrite),
    MapReq(MapReq),
    RedReq(ReduceReq),
    LeaderMapReq(LeaderMapReq),
    ServerMapReq(ServerMapReq),
    FileSizeReq(FileSizeReq),
    LeaderRedReq(LeaderReduceReq),
    ServerRedReq(ServerReduceReq),
}

/// A full command as it arrives off the wire; `kind` is absent when the
/// envelope was empty.
#[derive(Clone, Debug, PartialEq)]
pub struct SdfsCommand {
    pub kind: Option<Type>,
}

} // verus!
