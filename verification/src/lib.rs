//! The coordination core of a small replicated file system: gossip
//! membership with failure detection, bully leader election, the leader's
//! per-file replication table and request scheduling, and the map/reduce
//! dispatcher's planning rules.

pub mod election;
pub mod helpers;
pub mod keyindex;
pub mod lines;
pub mod local_files;
pub mod mapreduce;
pub mod membership;
pub mod message_types;
pub mod node;
pub mod partition;
pub mod placement;
pub mod replica_table;
pub mod scheduler;
pub mod strutil;
