//! Diffie-Hellman key-exchange exercises: parameter generation and the
//! shared-secret check.

use vstd::prelude::*;
use vstd::arithmetic::power::pow;
use crate::math::{is_order_of, power_mod, primitive, spec_is_prime};
use crate::primes::{random_prime_in_range, MAX_SIEVE_LIMIT};
use crate::rng::random_in_range;

verus! {

/// Private parameters of one exchange: a prime modulus, a generator of
/// its full multiplicative group, and the server's secret exponent.
#[derive(Clone, Debug)]
pub struct DhParams {
    pub g: u64,
    pub n: u64,
    pub sk_server: u64,
}

/// What generation guarantees: `n` prime, `g` a primitive root of `n`,
/// and the secret exponent drawn from the upper half of the range.
pub open spec fn dh_wf(d: DhParams) -> bool {
    &&& spec_is_prime(d.n as int)
    &&& 2 <= d.g < d.n
    &&& is_order_of(d.g as int, (d.n - 1) as nat, d.n as int)
    &&& d.n / 2 <= d.sk_server <= d.n - 1
}

/// Fresh exchange parameters: a random prime modulus from the configured
/// range, its smallest primitive root, and a random secret exponent.
/// `None` when the range holds no prime or the modulus has no generator.
pub fn generate_dh(n_min: u64, n_max: u64) -> (r: Option<DhParams>)
    requires
        n_max <= MAX_SIEVE_LIMIT,
    ensures
        match r {
            Some(d) => dh_wf(d) && n_min <= d.n <= n_max,
            None => true,
        },
{
    let n = match random_prime_in_range(n_min, n_max) {
        Some(n) => n,
        None => {
            return None;
        },
    };
    let g = match primitive(n) {
        Some(g) => g,
        None => {
            return None;
        },
    };
    let sk_server = random_in_range(n / 2, n - 1);
    Some(DhParams { g, n, sk_server })
}

/// The server's public key `g^sk_server mod n`.
pub fn pk_server(d: &DhParams) -> (r: u64)
    requires
        dh_wf(*d),
    ensures
        r as int == pow(d.g as int, d.sk_server as nat) % (d.n as int),
{
    power_mod(d.g, d.sk_server, d.n)
}

/// A submitted shared secret is correct exactly when it equals the user's
/// public key raised to the server's secret exponent.
pub fn check_shared_secret(d: &DhParams, pk_user: u64, k: u64) -> (r: bool)
    requires
        dh_wf(*d),
    ensures
        r == (k as int == pow(pk_user as int, d.sk_server as nat) % (d.n as int)),
{
    power_mod(pk_user, d.sk_server, d.n) == k
}

} // verus!
