use vstd::arithmetic::div_mod::lemma_fundamental_div_mod;
use vstd::prelude::*;

verus! {

/// Number of workers a map run actually uses over `size` lines: never more
/// than one per line.
pub open spec fn spec_workers_used(size: u32, workers: u32) -> int {
    if workers <= size {
        workers as int
    } else {
        size as int
    }
}

/// Lines per chunk: the ceiling of `size` divided by the workers used.
pub open spec fn spec_chunk_len(size: u32, workers: u32) -> int
    recommends
        size >= 1,
        workers >= 1,
{
    (size - 1) as int / spec_workers_used(size, workers) + 1
}

proof fn lemma_ceil_chunk(size: int, n: int)
    requires
        1 <= n <= size,
    ensures
        ({
            let cs = (size - 1) / n + 1;
            &&& 1 <= cs <= size
            &&& size <= n * cs <= 2 * size - 1
            &&& forall|c: int| 0 <= c <= n ==> #[trigger] (c * cs) <= n * cs
        }),
{
    let q = (size - 1) / n;
    let r = (size - 1) % n;
    lemma_fundamental_div_mod(size - 1, n);
    assert(size - 1 == n * q + r);
    assert(0 <= r < n);
    let cs = q + 1;
    assert(n * cs == n * q + n) by (nonlinear_arith)
        requires
            cs == q + 1,
    ;
    assert(0 <= q) by (nonlinear_arith)
        requires
            n * q == size - 1 - r,
            r < n,
            1 <= n <= size,
            q == (size - 1) / n,
    ;
    assert(q <= size - 1) by (nonlinear_arith)
        requires
            n * q == size - 1 - r,
            0 <= r,
            1 <= n,
            0 <= q,
    ;
    assert forall|c: int| 0 <= c <= n implies #[trigger] (c * cs) <= n * cs by {
        assert(c * cs <= n * cs) by (nonlinear_arith)
            requires
                0 <= c <= n,
                cs >= 1,
        ;
    }
}

/// Cuts the line range `[0, size)` into contiguous chunks, one per worker
/// used: chunk `c` covers lines `c*chunk .. (c+1)*chunk - 1`, with `chunk`
/// the ceiling of `size` over the worker count. The first chunk starts at
/// line zero and the last reaches at least line `size - 1`, so every line
/// is assigned.
pub fn map_chunks(size: u32, workers: u32) -> (r: Vec<(u32, u32)>)
    requires
        1 <= size,
        1 <= workers,
        size <= 0x80000000u32,
    ensures
        r@.len() == spec_workers_used(size, workers),
        forall|c: int|
            0 <= c < r@.len() ==> (#[trigger] r@[c]).0 == c * spec_chunk_len(size, workers)
                && r@[c].1 == (c + 1) * spec_chunk_len(size, workers) - 1,
        r@[0].0 == 0,
        r@[r@.len() - 1].1 >= size - 1,
{
    let n: u32 = if workers <= size {
        workers
    } else {
        size
    };
    let cs: u32 = (size - 1) / n + 1;
    proof {
        lemma_ceil_chunk(size as int, n as int);
        assert(cs as int == spec_chunk_len(size, workers));
    }
    let mut r: Vec<(u32, u32)> = Vec::new();
    let mut c: u32 = 0;
    let mut start: u32 = 0;
    while c < n
        invariant
            c <= n,
            n == spec_workers_used(size, workers),
            cs as int == spec_chunk_len(size, workers),
            1 <= cs,
            size <= n * cs <= 2 * size - 1,
            2 * size - 1 <= u32::MAX,
            forall|k: int| 0 <= k <= n ==> #[trigger] (k * cs) <= n * cs,
            start as int == c * cs,
            r@.len() == c,
            forall|k: int|
                0 <= k < c ==> (#[trigger] r@[k]).0 == k * (cs as int) && r@[k].1 == (k + 1) * (
                cs as int) - 1,
        decreases n - c,
    {
        proof {
            assert((c + 1) * (cs as int) <= n * cs);
            assert((c + 1) * (cs as int) == c * cs + cs) by (nonlinear_arith);
        }
        let end: u32 = start + cs - 1;
        r.push((start, end));
        start = start + cs;
        c = c + 1;
    }
    proof {
        assert(r@[r@.len() - 1].1 == n * (cs as int) - 1);
    }
    r
}

/// Cuts `len` items into contiguous runs of the ceiling of `len` over
/// `workers`: the bounds `(lo, hi)` of each run, abutting, starting at
/// zero and ending at `len`, never more runs than workers. How a reduce
/// job deals its key files out.
pub fn chunk_bounds(len: usize, workers: usize) -> (r: Vec<(usize, usize)>)
    requires
        1 <= len,
        1 <= workers,
        len <= 0x7fffffffusize,
    ensures
        1 <= r@.len() <= workers,
        r@[0].0 == 0,
        r@[r@.len() - 1].1 == len,
        forall|c: int| 0 <= c < r@.len() ==> (#[trigger] r@[c]).0 < r@[c].1 <= len,
        forall|c: int| 0 < c < r@.len() ==> (#[trigger] r@[c]).0 == r@[c - 1].1,
{
    let w: usize = if workers <= len {
        workers
    } else {
        len
    };
    let cs: usize = (len - 1) / w + 1;
    proof {
        lemma_ceil_chunk(len as int, w as int);
    }
    let mut r: Vec<(usize, usize)> = Vec::new();
    let mut start: usize = 0;
    while start < len
        invariant
            start <= len,
            1 <= cs <= len,
            1 <= w,
            (len as int) <= (w as int) * (cs as int),
            w <= workers,
            len <= 0x7fffffffusize,
            start == len || start as int == (r@.len() as int) * (cs as int),
            r@.len() <= w,
            r@.len() == 0 ==> start == 0,
            r@.len() >= 1 ==> r@[0].0 == 0,
            r@.len() >= 1 ==> r@[r@.len() - 1].1 == start,
            forall|c: int| 0 <= c < r@.len() ==> (#[trigger] r@[c]).0 < r@[c].1 <= len,
            forall|c: int| 0 < c < r@.len() ==> (#[trigger] r@[c]).0 == r@[c - 1].1,
        decreases len - start,
    {
        let ghost count0 = r@.len() as int;
        proof {
            assert(start as int == count0 * (cs as int));
            assert(count0 * (cs as int) < (w as int) * (cs as int));
            assert(count0 < w as int) by (nonlinear_arith)
                requires
                    count0 * (cs as int) < (w as int) * (cs as int),
                    cs >= 1,
                    count0 >= 0,
            ;
        }
        let end: usize = if len - start < cs {
            len
        } else {
            start + cs
        };
        r.push((start, end));
        proof {
            assert((count0 + 1) * (cs as int) == count0 * (cs as int) + (cs as int))
                by (nonlinear_arith);
        }
        start = end;
    }
    proof {
        assert(r@.len() >= 1);
    }
    r
}

} // verus!
