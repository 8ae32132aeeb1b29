//! Splitting the index domain `[0, n]` into contiguous chunks, one per
//! worker, and joining per-chunk results back in index order.
use vstd::prelude::*;

verus! {

/// Width of every chunk but the last: `max(1, n / workers)`.
pub open spec fn chunk_size(n: nat, workers: nat) -> nat {
    if n / workers >= 1 {
        n / workers
    } else {
        1
    }
}

/// Number of non-empty chunks: one per worker, or one per index when there
/// are fewer indices than workers.
pub open spec fn chunk_count(n: nat, workers: nat) -> nat {
    if n < workers {
        n + 1
    } else {
        workers
    }
}

/// First index of chunk `i`.
pub open spec fn chunk_start(n: nat, workers: nat, i: nat) -> nat {
    i * chunk_size(n, workers)
}

/// Last index of chunk `i`: the chunk of the last worker reaches `n`; any
/// other ends one before the next chunk's start, capped at `n`.
pub open spec fn chunk_end(n: nat, workers: nat, i: nat) -> nat {
    let next = (i + 1) * chunk_size(n, workers);
    if i + 1 == workers {
        n
    } else if next - 1 < n {
        (next - 1) as nat
    } else {
        n
    }
}

/// The chunks of `[0, n]` for `workers` workers, as inclusive `(start, end)`
/// pairs in ascending order.
pub open spec fn chunk_plan(n: nat, workers: nat) -> Seq<(u64, u64)> {
    Seq::new(
        chunk_count(n, workers),
        |i: int| (chunk_start(n, workers, i as nat) as u64, chunk_end(n, workers, i as nat) as u64),
    )
}

proof fn lemma_chunk_size(n: nat, workers: nat)
    requires
        workers >= 1,
    ensures
        n < workers ==> chunk_size(n, workers) == 1,
        n >= workers ==> chunk_size(n, workers) == n / workers,
        n >= workers ==> workers * chunk_size(n, workers) <= n,
        chunk_size(n, workers) >= 1,
{
    if n < workers {
        assert(n / workers == 0) by (nonlinear_arith)
            requires
                n < workers,
        ;
    } else {
        assert(n / workers >= 1) by (nonlinear_arith)
            requires
                n >= workers,
                workers >= 1,
        ;
        assert(workers * (n / workers) <= n) by (nonlinear_arith)
            requires
                workers >= 1,
        ;
    }
}

proof fn lemma_chunk_shape(n: nat, workers: nat, i: nat)
    requires
        workers >= 1,
        i < workers,
    ensures
        i < chunk_count(n, workers) ==> chunk_start(n, workers, i) <= chunk_end(n, workers, i) <= n,
        i + 1 < chunk_count(n, workers) ==> chunk_start(n, workers, i + 1) == chunk_end(n, workers, i) + 1,
        i + 1 == chunk_count(n, workers) ==> chunk_end(n, workers, i) == n,
        i >= chunk_count(n, workers) ==> chunk_start(n, workers, i) > chunk_end(n, workers, i),
{
    let cs = chunk_size(n, workers);
    lemma_chunk_size(n, workers);
    if n < workers {
        assert(chunk_start(n, workers, i) == i);
        assert(chunk_start(n, workers, i + 1) == i + 1);
    } else {
        assert(i * cs <= (workers - 1) * cs && i * cs + cs == (i + 1) * cs) by (nonlinear_arith)
            requires
                i < workers,
                cs >= 1,
        ;
        assert((workers - 1) * cs + cs == workers * cs) by (nonlinear_arith);
        if i + 1 < workers {
            assert((i + 1) * cs <= (workers - 1) * cs) by (nonlinear_arith)
                requires
                    i + 1 < workers,
                    cs >= 1,
            ;
        }
    }
}

/// The chunks of `[0, n]` for `workers` workers: chunk `i` starts at
/// `i * max(1, n / workers)`; chunks that would be empty are left out.
pub fn chunk_ranges(n: u64, workers: usize) -> (r: Vec<(u64, u64)>)
    requires
        workers >= 1,
    ensures
        r@ == chunk_plan(n as nat, workers as nat),
{
    let w = workers as u64;
    assert(w == workers);
    let size: u64 = if n / w >= 1 {
        n / w
    } else {
        1
    };
    let ghost count = chunk_count(n as nat, w as nat);
    let mut ranges: Vec<(u64, u64)> = Vec::new();
    let mut i: u64 = 0;
    while i < w
        invariant
            i <= w,
            w == workers,
            w >= 1,
            size == chunk_size(n as nat, w as nat),
            count == chunk_count(n as nat, w as nat),
            ranges@ == chunk_plan(n as nat, w as nat).take(if i < count { i as int } else { count as int }),
        decreases w - i,
    {
        proof {
            lemma_chunk_shape(n as nat, w as nat, i as nat);
            if i + 1 < w {
                lemma_chunk_shape(n as nat, w as nat, (i + 1) as nat);
            }
            lemma_chunk_size(n as nat, w as nat);
            if n >= w {
                assert((i + 1) * size <= w * size) by (nonlinear_arith)
                    requires
                        i < w,
                ;
            }
        }
        let start = i * size;
        let end = if i + 1 == w {
            n
        } else {
            let next_minus_one = (i + 1) * size - 1;
            if next_minus_one < n {
                next_minus_one
            } else {
                n
            }
        };
        assert(start == chunk_start(n as nat, w as nat, i as nat));
        assert(end == chunk_end(n as nat, w as nat, i as nat));
        if start <= end {
            ranges.push((start, end));
        }
        i = i + 1;
        assert(ranges@ =~= chunk_plan(n as nat, w as nat).take(if i < count { i as int } else { count as int }));
    }
    assert(ranges@ =~= chunk_plan(n as nat, w as nat));
    ranges
}

/// Index `x` lies inside one of the intervals `c`.
pub open spec fn in_some_chunk(c: Seq<(u64, u64)>, x: int) -> bool {
    exists|i: int| 0 <= i < c.len() && (#[trigger] c[i]).0 <= x <= c[i].1
}

/// The chunks for any `n` and any positive worker count tile `[0, n]`: each
/// is a non-empty interval inside it, they come in ascending order with no
/// gap between neighbours, no two overlap, and every index of `[0, n]` lies
/// in one of them.
pub proof fn lemma_chunks_tile(n: nat, workers: nat)
    requires
        workers >= 1,
        n <= u64::MAX,
    ensures
        ({
            let c = chunk_plan(n, workers);
            &&& c.len() >= 1
            &&& c[0].0 == 0
            &&& c[c.len() - 1].1 == n
            &&& forall|i: int| 0 <= i < c.len() ==> (#[trigger] c[i]).0 <= c[i].1 <= n
            &&& forall|i: int| 0 <= i < c.len() - 1 ==> #[trigger] c[i + 1].0 == c[i].1 + 1
            &&& forall|i: int, j: int| 0 <= i < j < c.len() ==> #[trigger] c[i].1 < #[trigger] c[j].0
            &&& forall|x: int| 0 <= x <= n ==> #[trigger] in_some_chunk(c, x)
        }),
{
    let c = chunk_plan(n, workers);
    let count = chunk_count(n, workers);
    let cs = chunk_size(n, workers);
    lemma_chunk_size(n, workers);
    assert(count >= 1 && count <= workers);
    assert forall|i: int| 0 <= i < c.len() implies (#[trigger] c[i]).0 <= c[i].1 <= n by {
        lemma_chunk_shape(n, workers, i as nat);
    }
    assert forall|i: int| 0 <= i < c.len() - 1 implies #[trigger] c[i + 1].0 == c[i].1 + 1 by {
        lemma_chunk_shape(n, workers, i as nat);
        lemma_chunk_shape(n, workers, (i + 1) as nat);
    }
    lemma_chunk_shape(n, workers, (count - 1) as nat);
    assert(c[0].0 == 0);
    assert forall|i: int, j: int| 0 <= i < j < c.len() implies #[trigger] c[i].1 < #[trigger] c[j].0 by {
        lemma_chunk_shape(n, workers, i as nat);
        lemma_chunk_shape(n, workers, j as nat);
        lemma_chunk_shape(n, workers, (i + 1) as nat);
        assert((i + 1) * cs <= j * cs) by (nonlinear_arith)
            requires
                i + 1 <= j,
                cs >= 1,
        ;
    }
    assert forall|x: int| 0 <= x <= n implies #[trigger] in_some_chunk(c, x) by {
        let q = x / cs as int;
        assert(q * cs <= x < (q + 1) * cs) by (nonlinear_arith)
            requires
                cs >= 1,
                x >= 0,
                q == x / cs as int,
        ;
        assert(q >= 0) by (nonlinear_arith)
            requires
                cs >= 1,
                x >= 0,
                q == x / cs as int,
        ;
        let i: int = if q < count { q } else { count - 1 };
        lemma_chunk_shape(n, workers, i as nat);
        if q >= count {
            assert(i * cs <= q * cs) by (nonlinear_arith)
                requires
                    i <= q,
                    cs >= 1,
            ;
            if n < workers {
                assert(x <= n);
            }
        } else if i + 1 < count {
            lemma_chunk_shape(n, workers, (i + 1) as nat);
        }
        assert(c[i].0 <= x <= c[i].1);
    }
}

/// All elements of the given chunks, chunk after chunk, in order.
pub open spec fn joined(chunks: Seq<Vec<u64>>) -> Seq<u64>
    decreases chunks.len(),
{
    if chunks.len() == 0 {
        Seq::empty()
    } else {
        joined(chunks.drop_last()) + chunks.last()@
    }
}

/// Concatenates the chunk results in the order given, keeping at most `len`
/// elements.
pub fn assemble_chunks(chunks: Vec<Vec<u64>>, len: usize) -> (r: Vec<u64>)
    ensures
        r@ == joined(chunks@).take(
            if len < joined(chunks@).len() { len as int } else { joined(chunks@).len() as int },
        ),
{
    let mut result: Vec<u64> = Vec::new();
    let mut j: usize = 0;
    while j < chunks.len()
        invariant
            j <= chunks@.len(),
            result@ == joined(chunks@.take(j as int)),
        decreases chunks@.len() - j,
    {
        assert(chunks@.take(j + 1).drop_last() =~= chunks@.take(j as int));
        result.extend_from_slice(chunks[j].as_slice());
        j = j + 1;
    }
    assert(chunks@.take(j as int) =~= chunks@);
    if result.len() > len {
        result.truncate(len);
    }
    assert(result@ =~= joined(chunks@).take(
        if len < joined(chunks@).len() { len as int } else { joined(chunks@).len() as int },
    ));
    result
}

} // verus!
