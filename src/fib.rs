//! Fibonacci numbers: naive recursion, dynamic programming, self-contained
//! chunk evaluation, and the chunked parallel sequence.
use crate::chunks::{assemble_chunks, chunk_plan, chunk_ranges, joined, lemma_chunks_tile};
use rayon::iter::{IntoParallelIterator, ParallelIterator};
use vstd::prelude::*;

verus! {

/// The Fibonacci numbers: `fib(0) = 0`, `fib(1) = 1`, `fib(i) = fib(i-1) + fib(i-2)`.
pub open spec fn fib(n: nat) -> nat
    decreases n,
{
    if n <= 1 {
        n
    } else {
        fib((n - 1) as nat) + fib((n - 2) as nat)
    }
}

/// The largest index whose Fibonacci number fits in a `u64`.
pub const MAX_FIB_INDEX: u64 = 93;

/// `k` steps of the pairwise recurrence started from `(a, b)`.
pub open spec fn fib_steps(k: nat, a: nat, b: nat) -> nat
    decreases k,
{
    if k == 0 {
        a
    } else {
        fib_steps((k - 1) as nat, b, a + b)
    }
}

/// The Fibonacci numbers with indices `lo..=hi`, in index order.
pub open spec fn fib_range(lo: nat, hi: nat) -> Seq<u64> {
    Seq::new((hi + 1 - lo) as nat, |i: int| fib((lo + i) as nat) as u64)
}

proof fn lemma_fib_steps(k: nat, m: nat)
    ensures
        fib_steps(k, fib(m), fib(m + 1)) == fib(m + k),
    decreases k,
{
    if k > 0 {
        assert(fib(m + 2) == fib(m) + fib(m + 1));
        lemma_fib_steps((k - 1) as nat, m + 1);
    }
}

/// Fibonacci numbers never decrease.
pub proof fn lemma_fib_monotonic(i: nat, j: nat)
    requires
        i <= j,
    ensures
        fib(i) <= fib(j),
    decreases j,
{
    if i < j {
        lemma_fib_monotonic(i, (j - 1) as nat);
        if j >= 2 {
            assert(fib(j) == fib((j - 1) as nat) + fib((j - 2) as nat));
        }
    }
}

/// Every Fibonacci number up to index `MAX_FIB_INDEX` fits in a `u64`.
pub proof fn lemma_fib_fits(i: nat)
    requires
        i <= MAX_FIB_INDEX,
    ensures
        fib(i) <= u64::MAX,
{
    lemma_fib_steps(93, 0);
    reveal_with_fuel(fib_steps, 11);
    assert(fib_steps(93, 0, 1) == fib_steps(83, 55, 89));
    assert(fib_steps(83, 55, 89) == fib_steps(73, 6765, 10946));
    assert(fib_steps(73, 6765, 10946) == fib_steps(63, 832040, 1346269));
    assert(fib_steps(63, 832040, 1346269) == fib_steps(53, 102334155, 165580141));
    assert(fib_steps(53, 102334155, 165580141) == fib_steps(43, 12586269025, 20365011074));
    assert(fib_steps(43, 12586269025, 20365011074) == fib_steps(33, 1548008755920, 2504730781961));
    assert(fib_steps(33, 1548008755920, 2504730781961) == fib_steps(23, 190392490709135, 308061521170129));
    assert(fib_steps(23, 190392490709135, 308061521170129) == fib_steps(13, 23416728348467685, 37889062373143906));
    assert(fib_steps(13, 23416728348467685, 37889062373143906) == fib_steps(3, 2880067194370816120, 4660046610375530309));
    assert(fib_steps(3, 2880067194370816120, 4660046610375530309) == 12200160415121876738);
    lemma_fib_monotonic(i, 93);
}

/// The `n`-th Fibonacci number by the two-branch recursion.
pub fn fibonacci_serial(n: u64) -> (r: u64)
    requires
        n <= MAX_FIB_INDEX,
    ensures
        r == fib(n as nat),
    decreases n,
{
    if n <= 1 {
        return n;
    }
    proof {
        lemma_fib_fits(n as nat);
        lemma_fib_monotonic((n - 2) as nat, (n - 1) as nat);
    }
    fibonacci_serial(n - 1) + fibonacci_serial(n - 2)
}

/// The `n`-th Fibonacci number by filling a table from index 0 upward.
pub fn fibonacci_dynamic(n: u64) -> (r: u64)
    requires
        n <= MAX_FIB_INDEX,
    ensures
        r == fib(n as nat),
{
    if n <= 1 {
        return n;
    }
    let mut table: Vec<u64> = Vec::new();
    table.push(0);
    table.push(1);
    let mut i: usize = 2;
    while i <= n as usize
        invariant
            2 <= i <= n + 1,
            n <= MAX_FIB_INDEX,
            table@.len() == i,
            forall|k: int| 0 <= k < i ==> table@[k] == fib(k as nat),
        decreases n + 1 - i,
    {
        proof {
            lemma_fib_fits(i as nat);
        }
        let next = table[i - 1] + table[i - 2];
        table.push(next);
        i = i + 1;
    }
    table[n as usize]
}

/// The Fibonacci numbers with indices `start..=end`, computed from index 0
/// without reading any value computed elsewhere.
pub fn fibonacci_chunk(start: u64, end: u64) -> (r: Vec<u64>)
    requires
        start <= end <= MAX_FIB_INDEX,
    ensures
        r@ == fib_range(start as nat, end as nat),
        r@.len() == end - start + 1,
{
    let mut prefix: Vec<u64> = Vec::new();
    prefix.push(0);
    if end >= 1 {
        prefix.push(1);
    }
    let mut i: usize = prefix.len();
    while i <= end as usize
        invariant
            2 <= i || i == end + 1,
            i <= end + 1,
            end <= MAX_FIB_INDEX,
            prefix@.len() == i,
            forall|k: int| 0 <= k < i ==> prefix@[k] == fib(k as nat),
        decreases end + 1 - i,
    {
        proof {
            lemma_fib_fits(i as nat);
        }
        let next = prefix[i - 1] + prefix[i - 2];
        prefix.push(next);
        i = i + 1;
    }
    let mut out: Vec<u64> = Vec::new();
    let mut j: usize = start as usize;
    while j <= end as usize
        invariant
            start <= j <= end + 1,
            end <= MAX_FIB_INDEX,
            prefix@.len() == end + 1,
            forall|k: int| 0 <= k <= end ==> prefix@[k] == fib(k as nat),
            out@ == fib_range(start as nat, end as nat).take(j - start),
        decreases end + 1 - j,
    {
        out.push(prefix[j]);
        j = j + 1;
    }
    assert(out@ =~= fib_range(start as nat, end as nat));
    out
}

/// Below this index the parallel sequence is computed serially: dispatching
/// chunks to workers would cost more than the work itself.
pub const SERIAL_THRESHOLD: u64 = 10;

/// Relies on rayon's `into_par_iter().map(..).collect()` on a `Vec`: every
/// range is handed to `fibonacci_chunk`, and the collected `Vec` holds the
/// results in the order of the ranges.
#[verifier::external_body]
fn evaluate_chunks_parallel(ranges: Vec<(u64, u64)>) -> (r: Vec<Vec<u64>>)
    requires
        forall|i: int| 0 <= i < ranges@.len() ==> (#[trigger] ranges@[i]).0 <= ranges@[i].1 <= MAX_FIB_INDEX,
    ensures
        r@.len() == ranges@.len(),
        forall|i: int|
            0 <= i < ranges@.len() ==> (#[trigger] r@[i])@ == fib_range(ranges@[i].0 as nat, ranges@[i].1 as nat),
{
    ranges.into_par_iter().map(|range| fibonacci_chunk(range.0, range.1)).collect()
}

proof fn lemma_joined_fib_ranges(chunks: Seq<Vec<u64>>, plan: Seq<(u64, u64)>, j: int)
    requires
        1 <= j <= plan.len(),
        chunks.len() == plan.len(),
        plan[0].0 == 0,
        forall|i: int| 0 <= i < plan.len() ==> (#[trigger] plan[i]).0 <= plan[i].1,
        forall|i: int| 0 <= i < plan.len() - 1 ==> #[trigger] plan[i + 1].0 == plan[i].1 + 1,
        forall|i: int| 0 <= i < plan.len() ==> (#[trigger] chunks[i])@ == fib_range(plan[i].0 as nat, plan[i].1 as nat),
    ensures
        joined(chunks.take(j)) == fib_range(0, plan[j - 1].1 as nat),
    decreases j,
{
    let prefix = chunks.take(j);
    assert(prefix.drop_last() =~= chunks.take(j - 1));
    assert(prefix.last() == chunks[j - 1]);
    if j == 1 {
        assert(chunks.take(0) =~= Seq::<Vec<u64>>::empty());
        assert(joined(chunks.take(0)) == Seq::<u64>::empty());
        assert(chunks[0]@ == fib_range(plan[0].0 as nat, plan[0].1 as nat));
        assert(joined(prefix) == joined(prefix.drop_last()) + prefix.last()@);
        assert(joined(prefix) =~= fib_range(0, plan[0].1 as nat));
    } else {
        lemma_joined_fib_ranges(chunks, plan, j - 1);
        let k = j - 2;
        assert(plan[k + 1].0 == plan[k].1 + 1);
        assert(chunks[j - 1]@ == fib_range(plan[j - 1].0 as nat, plan[j - 1].1 as nat));
        assert(joined(prefix) == joined(prefix.drop_last()) + prefix.last()@);
        assert(joined(prefix) =~= fib_range(0, plan[j - 1].1 as nat));
    }
}

/// The Fibonacci numbers with indices `0..=n`, with the domain split into one
/// chunk per worker, the chunks evaluated in parallel and joined in order.
pub fn fibonacci_parallel(n: u64, workers: usize) -> (r: Vec<u64>)
    requires
        n <= MAX_FIB_INDEX,
        workers >= 1,
    ensures
        r@ == fib_range(0, n as nat),
{
    if n < SERIAL_THRESHOLD {
        let mut result: Vec<u64> = Vec::new();
        let mut i: u64 = 0;
        while i <= n
            invariant
                i <= n + 1,
                n < SERIAL_THRESHOLD,
                result@ == fib_range(0, n as nat).take(i as int),
            decreases n + 1 - i,
        {
            if i <= 1 {
                result.push(i);
            } else {
                proof {
                    lemma_fib_fits(i as nat);
                    assert(fib(i as nat) == fib((i - 1) as nat) + fib((i - 2) as nat));
                }
                let next = result[(i - 1) as usize] + result[(i - 2) as usize];
                result.push(next);
            }
            i = i + 1;
            assert(result@ =~= fib_range(0, n as nat).take(i as int));
        }
        assert(result@ =~= fib_range(0, n as nat));
        return result;
    }
    let ranges = chunk_ranges(n, workers);
    let ghost plan = chunk_plan(n as nat, workers as nat);
    proof {
        lemma_chunks_tile(n as nat, workers as nat);
    }
    let chunks = evaluate_chunks_parallel(ranges);
    let ghost pieces = chunks@;
    proof {
        lemma_joined_fib_ranges(pieces, plan, plan.len() as int);
        assert(pieces.take(plan.len() as int) =~= pieces);
    }
    assemble_chunks(chunks, (n + 1) as usize)
}

/// The chunk over the whole range `[0, n]` lists, at each index `i`, the
/// value that the table-filling computation gives for `i`; the parallel
/// sequence is that same list.
pub proof fn lemma_full_chunk_matches_dynamic(n: nat)
    requires
        n <= MAX_FIB_INDEX,
    ensures
        fib_range(0, n).len() == n + 1,
        forall|i: int| 0 <= i <= n ==> #[trigger] fib_range(0, n)[i] == fib(i as nat),
{
    assert forall|i: int| 0 <= i <= n implies #[trigger] fib_range(0, n)[i] == fib(i as nat) by {
        lemma_fib_fits(i as nat);
    }
}

} // verus!
