//! Primality by trial division, and the ascending list of primes up to a
//! bound, computed serially or by a parallel filter.
use rayon::iter::{IntoParallelIterator, ParallelIterator};
use vstd::arithmetic::div_mod::{lemma_fundamental_div_mod, lemma_mod_multiples_basic};
use vstd::prelude::*;

verus! {

/// `n` is prime: at least 2, and no number strictly between 1 and `n` divides it.
pub open spec fn is_prime_spec(n: nat) -> bool {
    n >= 2 && forall|d: nat| 2 <= d < n ==> #[trigger] (n % d) != 0
}

/// The candidates `2, 3, ..., limit`, in ascending order.
pub open spec fn prime_candidates(limit: nat) -> Seq<u64> {
    Seq::new(if limit >= 2 { (limit - 1) as nat } else { 0 }, |i: int| (i + 2) as u64)
}

/// The primes in `[2, limit]`, in ascending order.
pub open spec fn primes_upto(limit: nat) -> Seq<u64> {
    prime_candidates(limit).filter(|x: u64| is_prime_spec(x as nat))
}

proof fn lemma_prime_if_no_small_divisor(n: nat, i: nat)
    requires
        n >= 2,
        i >= 2,
        i * i > n,
        forall|d: nat| 2 <= d < i ==> #[trigger] (n % d) != 0,
    ensures
        is_prime_spec(n),
{
    assert forall|d: nat| 2 <= d < n implies #[trigger] (n % d) != 0 by {
        if d >= i && n % d == 0 {
            let e = n / d;
            lemma_fundamental_div_mod(n as int, d as int);
            assert(n == d * e);
            assert(e >= 2 && e < i) by (nonlinear_arith)
                requires
                    n == d * e,
                    d < n,
                    d >= i,
                    i * i > n,
                    i >= 2,
            ;
            lemma_mod_multiples_basic(d as int, e as int);
            assert(n == d * e);
            assert((d * e) % e == 0);
            assert(n % e == 0);
        }
    }
}

/// Whether `n` is prime, by trial division with every `i` such that `i * i <= n`.
pub fn is_prime(n: u64) -> (r: bool)
    ensures
        r == is_prime_spec(n as nat),
{
    if n < 2 {
        return false;
    }
    let mut i: u64 = 2;
    while i <= n / i
        invariant
            2 <= i <= n,
            n >= 2,
            forall|d: nat| 2 <= d < i ==> #[trigger] ((n as nat) % d) != 0,
        decreases n - i,
    {
        assert(i * i <= n && i < n) by (nonlinear_arith)
            requires
                i <= n / i,
                i >= 2,
        ;
        if n % i == 0 {
            assert(!is_prime_spec(n as nat)) by {
                assert((n as nat) % (i as nat) == 0);
            }
            return false;
        }
        i = i + 1;
    }
    proof {
        lemma_fundamental_div_mod(n as int, i as int);
        assert(i * i > n) by (nonlinear_arith)
            requires
                i > n / i,
                n == i * (n / i) + n % i,
                n % i < i,
                i >= 2,
        ;
        lemma_prime_if_no_small_divisor(n as nat, i as nat);
    }
    true
}

proof fn lemma_candidates_push(k: nat)
    requires
        k >= 2,
    ensures
        prime_candidates(k) == prime_candidates((k - 1) as nat).push(k as u64),
{
    assert(prime_candidates(k) =~= prime_candidates((k - 1) as nat).push(k as u64));
}

proof fn lemma_primes_upto_step(k: nat)
    requires
        k >= 1,
        k <= u64::MAX,
    ensures
        primes_upto(k) == if is_prime_spec(k) {
            primes_upto((k - 1) as nat).push(k as u64)
        } else {
            primes_upto((k - 1) as nat)
        },
{
    if k >= 2 {
        lemma_candidates_push(k);
        prime_candidates((k - 1) as nat).lemma_filter_push(k as u64, |x: u64| is_prime_spec(x as nat));
    } else {
        assert(prime_candidates(k) =~= prime_candidates(0));
    }
}

/// The primes in `[2, limit]` ascending, testing one candidate after another.
pub fn find_primes_serial(limit: u64) -> (r: Vec<u64>)
    ensures
        r@ == primes_upto(limit as nat),
{
    let mut primes: Vec<u64> = Vec::new();
    let mut k: u64 = 0;
    proof {
        assert(primes_upto(0) =~= Seq::<u64>::empty());
    }
    while k < limit
        invariant
            k <= limit,
            primes@ == primes_upto(k as nat),
        decreases limit - k,
    {
        k = k + 1;
        proof {
            lemma_primes_upto_step(k as nat);
        }
        if is_prime(k) {
            primes.push(k);
        }
    }
    primes
}

/// Relies on rayon's parallel `filter(..).collect()` over `2..=limit`: it
/// keeps the candidates for which `is_prime` holds, and the collected `Vec`
/// keeps them in the order of the range.
#[verifier::external_body]
fn filter_primes_parallel(limit: u64) -> (r: Vec<u64>)
    ensures
        r@ == prime_candidates(limit as nat).filter(|x: u64| is_prime_spec(x as nat)),
{
    (2..=limit).into_par_iter().filter(|&n| is_prime(n)).collect()
}

/// The primes in `[2, limit]` ascending, with the candidates tested in
/// parallel.
pub fn find_primes_parallel(limit: u64) -> (r: Vec<u64>)
    ensures
        r@ == primes_upto(limit as nat),
{
    filter_primes_parallel(limit)
}

/// What the prime list holds: exactly the primes of `[2, limit]`, each once,
/// in strictly ascending order.
pub proof fn lemma_primes_upto_exact(limit: nat)
    requires
        limit <= u64::MAX,
    ensures
        forall|i: int|
            0 <= i < primes_upto(limit).len() ==> 2 <= #[trigger] primes_upto(limit)[i] <= limit
                && is_prime_spec(primes_upto(limit)[i] as nat),
        forall|i: int, j: int|
            0 <= i < j < primes_upto(limit).len() ==> #[trigger] primes_upto(limit)[i]
                < #[trigger] primes_upto(limit)[j],
        forall|x: u64| 2 <= x <= limit && is_prime_spec(x as nat) ==> #[trigger] primes_upto(limit).contains(x),
    decreases limit,
{
    if limit == 0 {
        assert(primes_upto(0) =~= Seq::<u64>::empty());
    } else {
        lemma_primes_upto_exact((limit - 1) as nat);
        lemma_primes_upto_step(limit);
        let prev = primes_upto((limit - 1) as nat);
        if is_prime_spec(limit) {
            assert(primes_upto(limit).last() == limit as u64);
        }
        assert forall|x: u64| 2 <= x <= limit && is_prime_spec(x as nat) implies #[trigger] primes_upto(
            limit,
        ).contains(x) by {
            if x < limit {
                assert(prev.contains(x));
                let w = choose|w: int| 0 <= w < prev.len() && prev[w] == x;
                assert(primes_upto(limit)[w] == x);
            } else {
                assert(primes_upto(limit)[primes_upto(limit).len() - 1] == x);
            }
        }
    }
}

/// The serial and the parallel prime lists agree for every bound: the same
/// sequence, hence the same set, and both strictly ascending.
pub proof fn lemma_parallel_primes_agree(limit: nat, serial: Seq<u64>, parallel: Seq<u64>)
    requires
        limit <= u64::MAX,
        serial == primes_upto(limit),
        parallel == primes_upto(limit),
    ensures
        serial == parallel,
        serial.to_set() == parallel.to_set(),
        forall|i: int, j: int| 0 <= i < j < parallel.len() ==> #[trigger] parallel[i] < #[trigger] parallel[j],
{
    lemma_primes_upto_exact(limit);
}

} // verus!
