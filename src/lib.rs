//! Verified kernels of a small serial/parallel benchmark: Fibonacci over
//! chunked index ranges, a trial-division prime filter, and an in-place
//! partition-exchange sort, each in a serial and a data-parallel form.
use vstd::prelude::*;

pub mod chunks;
pub mod fib;
pub mod primes;
pub mod sort;
pub mod workers;

verus! {

} // verus!
