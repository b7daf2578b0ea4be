//! Prime candidates for parameter generation, drawn from a sieve and
//! then filtered and picked from by verified code.

use vstd::prelude::*;
use crate::math::spec_is_prime;
use crate::rng::random_in_range;

verus! {

/// The largest sieve limit the generators ask for; keeps the sieve's
/// allocation and all derived products comfortably inside 64 bits.
pub const MAX_SIEVE_LIMIT: u64 = 0x4000_0000;

/// Relies on primal_sieve::Sieve: `primes_from(lo)` yields, in strictly
/// ascending order, exactly the primes from `lo` to the end of the sieve,
/// whose end is at least the limit `hi` given to `Sieve::new`.
#[verifier::external_body]
fn sieve_primes_from(lo: u64, hi: u64) -> (r: Vec<u64>)
    requires
        2 <= lo <= hi,
        hi <= MAX_SIEVE_LIMIT,
    ensures
        forall|k: int|
            0 <= k < r@.len() ==> spec_is_prime(#[trigger] r@[k] as int) && lo <= r@[k],
        forall|k1: int, k2: int| 0 <= k1 < k2 < r@.len() ==> r@[k1] < r@[k2],
        forall|p: u64| lo <= p <= hi && spec_is_prime(p as int) ==> r@.contains(p),
{
    let sieve = primal_sieve::Sieve::new(hi as usize);
    sieve.primes_from(lo as usize).map(|p| p as u64).collect()
}

/// Exactly the primes in `[lo, hi]`, in ascending order.
pub fn primes_in_range(lo: u64, hi: u64) -> (r: Vec<u64>)
    requires
        hi <= MAX_SIEVE_LIMIT,
    ensures
        forall|k: int|
            0 <= k < r@.len() ==> spec_is_prime(#[trigger] r@[k] as int) && lo <= r@[k] <= hi,
        forall|k1: int, k2: int| 0 <= k1 < k2 < r@.len() ==> r@[k1] < r@[k2],
        forall|p: u64| lo <= p <= hi && spec_is_prime(p as int) ==> r@.contains(p),
{
    let lo2: u64 = if lo < 2 {
        2
    } else {
        lo
    };
    let mut out: Vec<u64> = Vec::new();
    if lo2 > hi {
        proof {
            assert forall|p: u64| lo <= p <= hi && spec_is_prime(p as int) implies out@.contains(
                p,
            ) by {
                assert(p >= 2);
                assert(false);
            }
        }
        return out;
    }
    let all = sieve_primes_from(lo2, hi);
    let mut idx: usize = 0;
    while idx < all.len()
        invariant
            forall|k: int|
                0 <= k < all@.len() ==> spec_is_prime(#[trigger] all@[k] as int) && lo2 <= all@[k],
            forall|k1: int, k2: int| 0 <= k1 < k2 < all@.len() ==> all@[k1] < all@[k2],
            idx <= all@.len(),
            forall|k: int|
                0 <= k < out@.len() ==> spec_is_prime(#[trigger] out@[k] as int) && lo2 <= out@[k]
                    <= hi,
            forall|k1: int, k2: int| 0 <= k1 < k2 < out@.len() ==> out@[k1] < out@[k2],
            forall|j: int| 0 <= j < idx && all@[j] <= hi ==> out@.contains(#[trigger] all@[j]),
            forall|k: int| 0 <= k < out@.len() ==> all@.contains(#[trigger] out@[k]),
            out@.len() <= idx,
            forall|k: int, j: int|
                0 <= k < out@.len() && idx <= j < all@.len() ==> out@[k] < all@[j],
        decreases all@.len() - idx,
    {
        let p = all[idx];
        let ghost out0 = out@;
        if p <= hi {
            out.push(p);
        }
        proof {
            assert forall|j: int| 0 <= j < idx + 1 && all@[j] <= hi implies out@.contains(
                #[trigger] all@[j],
            ) by {
                if j < idx {
                    let k = choose|k: int| 0 <= k < out0.len() && out0[k] == all@[j];
                    assert(out@[k] == all@[j]);
                } else {
                    assert(all@[j] == p);
                    assert(out@[out@.len() - 1] == p);
                }
            }
        }
        idx += 1;
    }
    proof {
        assert forall|p: u64| lo <= p <= hi && spec_is_prime(p as int) implies out@.contains(
            p,
        ) by {
            assert(p >= 2);
            assert(all@.contains(p));
            let j = choose|j: int| 0 <= j < all@.len() && all@[j] == p;
            assert(out@.contains(all@[j]));
        }
    }
    out
}

/// A prime drawn from `[lo, hi]`; `None` exactly when the range holds no
/// prime. Which prime comes back is up to the random source.
pub fn random_prime_in_range(lo: u64, hi: u64) -> (r: Option<u64>)
    requires
        hi <= MAX_SIEVE_LIMIT,
    ensures
        match r {
            Some(p) => lo <= p <= hi && spec_is_prime(p as int),
            None => forall|p: u64| lo <= p <= hi ==> !spec_is_prime(p as int),
        },
{
    let candidates = primes_in_range(lo, hi);
    if candidates.len() == 0 {
        proof {
            assert forall|p: u64| lo <= p <= hi implies !spec_is_prime(p as int) by {
                if spec_is_prime(p as int) {
                    assert(candidates@.contains(p));
                }
            }
        }
        return None;
    }
    let idx = random_in_range(0, (candidates.len() - 1) as u64);
    Some(candidates[idx as usize])
}

} // verus!
