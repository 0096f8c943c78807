//! Unoptimized primality testing.
use vstd::prelude::*;

verus! {

/// `n` has no divisor in `2..n` and is at least 2.
pub open spec fn spec_is_prime(n: nat) -> bool {
    n >= 2 && forall|d: nat| 2 <= d < n ==> #[trigger] (n % d) != 0
}

/// How many entries of `s` are prime.
pub open spec fn prime_count(s: Seq<usize>) -> nat
    decreases s.len(),
{
    if s.len() == 0 {
        0
    } else {
        prime_count(s.drop_last()) + if spec_is_prime(s.last() as nat) { 1nat } else { 0nat }
    }
}

/// Tells whether `n` is prime, by trial division.
pub fn is_prime(n: usize) -> (r: bool)
    ensures
        r == spec_is_prime(n as nat),
{
    if n <= 1 {
        return false;
    }
    let mut i: usize = 2;
    while i < n
        invariant
            2 <= i <= n,
            forall|d: nat| 2 <= d < i ==> #[trigger] ((n as nat) % d) != 0,
        decreases n - i,
    {
        if n % i == 0 {
            return false;
        }
        i = i + 1;
    }
    true
}

/// Counts the prime numbers in a list.
pub fn count_primes(num_list: &[usize]) -> (r: usize)
    ensures
        r == prime_count(num_list@),
{
    let mut count: usize = 0;
    let mut k: usize = 0;
    while k < num_list.len()
        invariant
            k <= num_list@.len(),
            count == prime_count(num_list@.subrange(0, k as int)),
            count <= k,
        decreases num_list@.len() - k,
    {
        proof {
            assert(num_list@.subrange(0, k as int + 1).drop_last() =~= num_list@.subrange(0, k as int));
        }
        if is_prime(num_list[k]) {
            count = count + 1;
        }
        k = k + 1;
    }
    assert(num_list@.subrange(0, k as int) =~= num_list@);
    count
}

} // verus!
