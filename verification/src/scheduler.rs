use vstd::prelude::*;

use crate::message_types::GetReq;
use crate::message_types::PutReq;

verus! {

/// One queued per-file request: a read (GET) or a write (PUT).
#[derive(Clone, Debug, PartialEq)]
pub enum AccessType {
    Read(GetReq),
    Write(PutReq),
}

pub open spec fn is_read(a: AccessType) -> bool {
    a is Read
}

/// The four requests `q[w..w+4]` all have the kind opposite to `read`.
pub open spec fn opposite_window(q: Seq<AccessType>, w: int, read: bool) -> bool {
    forall|k: int| w <= k < w + 4 ==> is_read(q[k]) != read
}

/// The request's kind.
pub fn access_is_read(a: &AccessType) -> (r: bool)
    ensures
        r == is_read(*a),
{
    match a {
        AccessType::Read(_) => true,
        AccessType::Write(_) => false,
    }
}

/// Where a new request of kind `read` is placed: at the tail, unless four
/// consecutive requests of the opposite kind stand somewhere in the queue,
/// in which case it goes immediately before the fourth member of the first
/// such run.
pub fn starvation_insert_index(queue: &Vec<AccessType>, read: bool) -> (idx: usize)
    ensures
        idx <= queue@.len(),
        forall|w: int|
            0 <= w && w + 4 <= idx ==> !(#[trigger] opposite_window(queue@, w, read)),
        idx < queue@.len() ==> idx >= 3 && opposite_window(queue@, idx - 3, read),
{
    let n = queue.len();
    if n < 4 {
        return n;
    }
    let mut w: usize = 0;
    while w <= n - 4
        invariant
            n >= 4,
            w + 4 <= n + 1,
            n == queue@.len(),
            forall|v: int| 0 <= v < w ==> !(#[trigger] opposite_window(queue@, v, read)),
        decreases n - w,
    {
        assert(w + 4 <= n);
        let mut all_opposite = true;
        let mut k: usize = 0;
        while k < 4
            invariant
                k <= 4,
                w + 4 <= n,
                n == queue@.len(),
                all_opposite == forall|j: int|
                    w <= j < w + k ==> is_read(#[trigger] queue@[j]) != read,
            decreases 4 - k,
        {
            if access_is_read(&queue[w + k]) == read {
                proof {
                    assert(is_read(queue@[w + k]) == read);
                }
                all_opposite = false;
            }
            k = k + 1;
        }
        if all_opposite {
            proof {
                assert(opposite_window(queue@, w as int, read));
            }
            return w + 3;
        }
        proof {
            assert(!opposite_window(queue@, w as int, read));
        }
        w = w + 1;
    }
    proof {
        assert forall|v: int| 0 <= v && v + 4 <= n implies !(#[trigger] opposite_window(
            queue@,
            v,
            read,
        )) by {
            assert(v < w);
        }
    }
    n
}

/// Adds a request to a file's queue under the anti-starvation policy and
/// reports where it was placed. In the queue that results, no run of four
/// consecutive opposite-kind requests stands wholly ahead of the new
/// request; and the new request displaces others only when such a run sat
/// right at its insertion point.
pub fn enqueue_request(queue: &mut Vec<AccessType>, req: AccessType) -> (idx: usize)
    ensures
        idx <= old(queue)@.len(),
        final(queue)@ == old(queue)@.insert(idx as int, req),
        forall|w: int|
            0 <= w && w + 4 <= idx ==> !(#[trigger] opposite_window(
                old(queue)@,
                w,
                is_read(req),
            )),
        idx < old(queue)@.len() ==> idx >= 3 && opposite_window(
            old(queue)@,
            idx - 3,
            is_read(req),
        ),
{
    let read = access_is_read(&req);
    let idx = starvation_insert_index(queue, read);
    queue.insert(idx, req);
    idx
}

/// Takes the request to dispatch next: the queue's front.
pub fn dequeue_request(queue: &mut Vec<AccessType>) -> (r: Option<AccessType>)
    ensures
        match r {
            Some(a) => old(queue)@.len() > 0 && a == old(queue)@[0] && final(queue)@ == old(
                queue,
            )@.drop_first(),
            None => old(queue)@.len() == 0 && final(queue)@ == old(queue)@,
        },
{
    if queue.len() == 0 {
        None
    } else {
        let a = queue.remove(0);
        proof {
            assert(final(queue)@ =~= old(queue)@.drop_first());
        }
        Some(a)
    }
}

/// The two-permit gate of one file actor. A read holds one permit while it
/// runs and a write holds both, which admits several readers or one writer,
/// with the readers capped at two.
pub struct FilePermits {
    reading: u8,
    writing: bool,
}

impl FilePermits {
    /// Number of reads currently holding a permit.
    pub closed spec fn spec_reading(&self) -> int {
        self.reading as int
    }

    /// Whether a write currently holds both permits.
    pub closed spec fn spec_writing(&self) -> bool {
        self.writing
    }

    /// Both permits exist and none is held twice.
    pub closed spec fn wf(&self) -> bool {
        self.reading + (if self.writing {
            2int
        } else {
            0int
        }) <= 2
    }

    /// A fresh gate with both permits free.
    pub fn new() -> (r: FilePermits)
        ensures
            r.wf(),
            r.spec_reading() == 0,
            !r.spec_writing(),
    {
        FilePermits { reading: 0, writing: false }
    }

    /// A read may start only while at most one other read runs and no write
    /// does; it then takes one permit.
    pub fn try_start_read(&mut self) -> (granted: bool)
        requires
            old(self).wf(),
        ensures
            final(self).wf(),
            granted == (old(self).spec_reading() < 2 && !old(self).spec_writing()),
            granted ==> final(self).spec_reading() == old(self).spec_reading() + 1,
            !granted ==> *final(self) == *old(self),
            final(self).spec_writing() == old(self).spec_writing(),
    {
        if self.reading < 2 && !self.writing {
            self.reading = self.reading + 1;
            true
        } else {
            false
        }
    }

    /// A write may start only while nothing else runs; it then takes both
    /// permits.
    pub fn try_start_write(&mut self) -> (granted: bool)
        requires
            old(self).wf(),
        ensures
            final(self).wf(),
            granted == (old(self).spec_reading() == 0 && !old(self).spec_writing()),
            granted ==> final(self).spec_writing(),
            !granted ==> *final(self) == *old(self),
            final(self).spec_reading() == old(self).spec_reading(),
    {
        if self.reading == 0 && !self.writing {
            self.writing = true;
            true
        } else {
            false
        }
    }

    /// A finished read returns its permit.
    pub fn finish_read(&mut self)
        requires
            old(self).wf(),
            old(self).spec_reading() > 0,
        ensures
            final(self).wf(),
            final(self).spec_reading() == old(self).spec_reading() - 1,
            final(self).spec_writing() == old(self).spec_writing(),
    {
        self.reading = self.reading - 1;
    }

    /// A finished write returns both permits.
    pub fn finish_write(&mut self)
        requires
            old(self).wf(),
            old(self).spec_writing(),
        ensures
            final(self).wf(),
            !final(self).spec_writing(),
            final(self).spec_reading() == old(self).spec_reading(),
    {
        self.writing = false;
    }

    /// A well-formed gate never lets a write overlap any other request,
    /// and never lets more than a pair of reads overlap.
    pub proof fn lemma_reader_writer_exclusion(&self)
        requires
            self.wf(),
        ensures
            self.spec_reading() <= 2,
            self.spec_writing() ==> self.spec_reading() == 0,
    {
    }
}

} // verus!
