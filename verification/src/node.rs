use vstd::prelude::*;

verus! {

/// Milliseconds after which a silent peer is suspected failed.
pub const T_FAIL_MS: i64 = 2200;

/// Milliseconds after which a silent peer is removed from the view.
pub const T_CLEAN_MS: i64 = 5000;

/// One cluster member as this process sees it: its identifier
/// `<ip>_<port>_<joinTime>`, the highest heartbeat observed for it, the local
/// wall-clock time (milliseconds since the epoch) at which that heartbeat was
/// observed, and the suspected-failed flag.
#[derive(Clone, Debug)]
pub struct Node {
    id: String,
    heartbeat_count: u32,
    time_ms: i64,
    failed: bool,
}

impl Node {
    pub closed spec fn spec_id(&self) -> Seq<char> {
        self.id@
    }

    pub closed spec fn spec_heartbeat(&self) -> u32 {
        self.heartbeat_count
    }

    pub closed spec fn spec_time(&self) -> i64 {
        self.time_ms
    }

    pub closed spec fn spec_fail(&self) -> bool {
        self.failed
    }

    pub fn new(id: String, heartbeat_count: u32, time_ms: i64, fail: bool) -> (r: Node)
        ensures
            r.spec_id() == id@,
            r.spec_heartbeat() == heartbeat_count,
            r.spec_time() == time_ms,
            !r.spec_fail(),
    {
        // a freshly observed node is never suspected, whatever the caller says
        Node { id, heartbeat_count, time_ms, failed: false }
    }

    pub fn id(&self) -> (r: &String)
        ensures
            r@ == self.spec_id(),
    {
        &self.id
    }

    pub fn heartbeat(&self) -> (r: u32)
        ensures
            r == self.spec_heartbeat(),
    {
        self.heartbeat_count
    }

    pub fn time(&self) -> (r: i64)
        ensures
            r == self.spec_time(),
    {
        self.time_ms
    }

    pub fn fail(&self) -> (r: bool)
        ensures
            r == self.spec_fail(),
    {
        self.failed
    }

    pub fn set_heartbeat(&mut self, heartbeat: u32)
        ensures
            final(self).spec_heartbeat() == heartbeat,
            final(self).spec_id() == old(self).spec_id(),
            final(self).spec_time() == old(self).spec_time(),
            final(self).spec_fail() == old(self).spec_fail(),
    {
        self.heartbeat_count = heartbeat;
    }

    pub fn set_time(&mut self, time_ms: i64)
        ensures
            final(self).spec_time() == time_ms,
            final(self).spec_id() == old(self).spec_id(),
            final(self).spec_heartbeat() == old(self).spec_heartbeat(),
            final(self).spec_fail() == old(self).spec_fail(),
    {
        self.time_ms = time_ms;
    }

    pub fn set_fail(&mut self, fail: bool)
        ensures
            final(self).spec_fail() == fail,
            final(self).spec_id() == old(self).spec_id(),
            final(self).spec_heartbeat() == old(self).spec_heartbeat(),
            final(self).spec_time() == old(self).spec_time(),
    {
        self.failed = fail;
    }
}

} // verus!
