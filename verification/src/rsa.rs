//! RSA exercises: generation of a small key pair with a random message,
//! and the encryption / decryption checks.

use vstd::prelude::*;
use vstd::arithmetic::power::pow;
use crate::math::{
    inverse_mod, lemma_inverse_iff_coprime, power_mod, spec_gcd, spec_is_inverse, spec_is_prime,
};
use crate::primes::{random_prime_in_range, MAX_SIEVE_LIMIT};
use crate::rng::random_in_range;

verus! {

/// How often a generator re-samples before giving the search up.
pub const GENERATION_ATTEMPTS: u64 = 64;

/// An encryption exercise: the user is shown everything and must produce
/// the cipher `m^e mod pq`.
#[derive(Clone, Debug)]
pub struct RsaParams {
    pub p: u64,
    pub q: u64,
    pub e: u64,
    pub d: u64,
    pub m: u64,
}

/// A decryption exercise: the message is hidden and only its cipher
/// `c = m^e mod pq` is stored.
#[derive(Clone, Debug)]
pub struct RsaDecryptParams {
    pub p: u64,
    pub q: u64,
    pub e: u64,
    pub d: u64,
    pub c: u64,
}

/// The key material is sound: distinct small primes, and a public
/// exponent coprime to the totient with a distinct inverse.
pub open spec fn rsa_core_wf(p: u64, q: u64, e: u64, d: u64) -> bool {
    &&& spec_is_prime(p as int)
    &&& spec_is_prime(q as int)
    &&& p != q
    &&& p <= MAX_SIEVE_LIMIT
    &&& q <= MAX_SIEVE_LIMIT
    &&& 1 <= e <= (p - 1) * (q - 1) - 2
    &&& spec_is_inverse(e as int, d as int, ((p - 1) * (q - 1)) as int)
    &&& e != d
    &&& spec_gcd(e as nat, ((p - 1) * (q - 1)) as nat) == 1
}

pub open spec fn rsa_wf(r: RsaParams) -> bool {
    &&& rsa_core_wf(r.p, r.q, r.e, r.d)
    &&& (r.p * r.q) / 2 <= r.m <= r.p * r.q - 1
}

pub open spec fn rsa_decrypt_wf(r: RsaDecryptParams) -> bool {
    &&& rsa_core_wf(r.p, r.q, r.e, r.d)
    &&& exists|m0: int|
        (r.p * r.q) / 2 <= m0 <= r.p * r.q - 1 && r.c as int == pow(m0, r.e as nat) % (
        r.p * r.q) as int
}

/// Two distinct primes, an exponent pair, and a random message from the
/// upper half of the modulus; `None` when the prime range is empty or the
/// bounded searches are exhausted.
fn generate_rsa_core(pq_min: u64, pq_max: u64) -> (r: Option<(u64, u64, u64, u64)>)
    requires
        pq_max <= MAX_SIEVE_LIMIT,
    ensures
        match r {
            Some((p, q, e, d)) => rsa_core_wf(p, q, e, d) && pq_min <= p <= pq_max && pq_min <= q
                <= pq_max,
            None => true,
        },
{
    let p = match random_prime_in_range(pq_min, pq_max) {
        Some(p) => p,
        None => {
            return None;
        },
    };
    let mut q: u64 = p;
    let mut tries: u64 = 0;
    while q == p && tries < GENERATION_ATTEMPTS
        invariant
            pq_max <= MAX_SIEVE_LIMIT,
            q == p || (spec_is_prime(q as int) && pq_min <= q <= pq_max),
        decreases GENERATION_ATTEMPTS - tries,
    {
        q = match random_prime_in_range(pq_min, pq_max) {
            Some(q) => q,
            None => {
                return None;
            },
        };
        tries += 1;
    }
    if q == p {
        return None;
    }
    proof {
        assert((p - 1) * (q - 1) < 0x4000_0000 * 0x4000_0000) by (nonlinear_arith)
            requires
                1 <= p <= 0x4000_0000,
                1 <= q <= 0x4000_0000,
        ;
    }
    let totient = (p - 1) * (q - 1);
    if totient < 3 {
        return None;
    }
    let mut tries2: u64 = 0;
    while tries2 < GENERATION_ATTEMPTS
        invariant
            spec_is_prime(p as int),
            spec_is_prime(q as int),
            p != q,
            pq_min <= p <= pq_max,
            pq_min <= q <= pq_max,
            pq_max <= MAX_SIEVE_LIMIT,
            totient as int == (p - 1) * (q - 1),
            totient >= 3,
        decreases GENERATION_ATTEMPTS - tries2,
    {
        let e = random_in_range(1, totient - 2);
        match inverse_mod(e, totient) {
            Some(d) => {
                if d != e {
                    proof {
                        assert(1 <= (d as int) && (d as int) < (totient as int) && ((e as nat)
                            * (d as int)) % (totient as int) == 1);
                        lemma_inverse_iff_coprime(e as nat, totient as nat);
                        assert(spec_gcd(e as nat, totient as nat) == 1);
                    }
                    return Some((p, q, e, d));
                }
            },
            None => {},
        }
        tries2 += 1;
    }
    None
}

/// A fresh encryption exercise.
pub fn generate_rsa_encrypt(pq_min: u64, pq_max: u64) -> (r: Option<RsaParams>)
    requires
        pq_max <= MAX_SIEVE_LIMIT,
    ensures
        match r {
            Some(params) => rsa_wf(params) && pq_min <= params.p <= pq_max && pq_min <= params.q
                <= pq_max,
            None => true,
        },
{
    let (p, q, e, d) = match generate_rsa_core(pq_min, pq_max) {
        Some(core) => core,
        None => {
            return None;
        },
    };
    proof {
        assert(4 <= p * q && p * q <= 0x4000_0000 * 0x4000_0000) by (nonlinear_arith)
            requires
                2 <= p <= 0x4000_0000,
                2 <= q <= 0x4000_0000,
        ;
    }
    let n = p * q;
    let m = random_in_range(n / 2, n - 1);
    Some(RsaParams { p, q, e, d, m })
}

/// A fresh decryption exercise: the hidden message's cipher is
/// precomputed so only `c` needs storing.
pub fn generate_rsa_decrypt(pq_min: u64, pq_max: u64) -> (r: Option<RsaDecryptParams>)
    requires
        pq_max <= MAX_SIEVE_LIMIT,
    ensures
        match r {
            Some(params) => rsa_decrypt_wf(params) && pq_min <= params.p <= pq_max && pq_min
                <= params.q <= pq_max,
            None => true,
        },
{
    let (p, q, e, d) = match generate_rsa_core(pq_min, pq_max) {
        Some(core) => core,
        None => {
            return None;
        },
    };
    proof {
        assert(4 <= p * q && p * q <= 0x4000_0000 * 0x4000_0000) by (nonlinear_arith)
            requires
                2 <= p <= 0x4000_0000,
                2 <= q <= 0x4000_0000,
        ;
    }
    let n = p * q;
    let m = random_in_range(n / 2, n - 1);
    let c = power_mod(m, e, n);
    let params = RsaDecryptParams { p, q, e, d, c };
    proof {
        assert((params.p * params.q) / 2 <= m as int <= params.p * params.q - 1 && params.c as int
            == pow(m as int, params.e as nat) % (params.p * params.q) as int);
    }
    Some(params)
}

/// Every well-formed encryption exercise round-trips: the expected
/// cipher, decrypted with `d`, is the original message.
pub proof fn lemma_rsa_encrypt_round_trip(params: RsaParams)
    requires
        rsa_wf(params),
    ensures
        pow(
            pow(params.m as int, params.e as nat) % (params.p * params.q) as int,
            params.d as nat,
        ) % (params.p * params.q) as int == params.m,
{
    crate::fermat::lemma_rsa_round_trip(
        params.p as nat,
        params.q as nat,
        params.e as nat,
        params.d as nat,
        params.m as nat,
    );
}

/// Every well-formed decryption exercise has exactly one expected
/// answer: `c^d mod pq` is the hidden message the cipher was built from.
pub proof fn lemma_rsa_decrypt_recovers_message(params: RsaDecryptParams)
    requires
        rsa_decrypt_wf(params),
    ensures
        exists|m0: int|
            (params.p * params.q) / 2 <= m0 <= params.p * params.q - 1 && params.c as int == pow(
                m0,
                params.e as nat,
            ) % (params.p * params.q) as int && pow(params.c as int, params.d as nat) % (
            params.p * params.q) as int == m0,
{
    let n = (params.p * params.q) as int;
    let m0 = choose|m0: int|
        (params.p * params.q) / 2 <= m0 <= params.p * params.q - 1 && params.c as int == pow(
            m0,
            params.e as nat,
        ) % n;
    crate::fermat::lemma_rsa_round_trip(
        params.p as nat,
        params.q as nat,
        params.e as nat,
        params.d as nat,
        m0 as nat,
    );
    assert(pow(params.c as int, params.d as nat) % n == m0);
}

/// A submitted cipher is correct exactly when it equals `m^e mod pq`.
pub fn check_rsa_encrypt(params: &RsaParams, c: u64) -> (r: bool)
    requires
        rsa_wf(*params),
    ensures
        r == (c as int == pow(params.m as int, params.e as nat) % (params.p * params.q) as int),
{
    proof {
        assert(4 <= params.p * params.q && params.p * params.q <= 0x4000_0000 * 0x4000_0000)
            by (nonlinear_arith)
            requires
                2 <= params.p <= 0x4000_0000,
                2 <= params.q <= 0x4000_0000,
        ;
    }
    let n = params.p * params.q;
    power_mod(params.m, params.e, n) == c
}

/// A submitted message is correct exactly when it equals `c^d mod pq`.
pub fn check_rsa_decrypt(params: &RsaDecryptParams, m: u64) -> (r: bool)
    requires
        rsa_decrypt_wf(*params),
    ensures
        r == (m as int == pow(params.c as int, params.d as nat) % (params.p * params.q) as int),
{
    proof {
        assert(4 <= params.p * params.q && params.p * params.q <= 0x4000_0000 * 0x4000_0000)
            by (nonlinear_arith)
            requires
                2 <= params.p <= 0x4000_0000,
                2 <= params.q <= 0x4000_0000,
        ;
    }
    let n = params.p * params.q;
    power_mod(params.c, params.d, n) == m
}

} // verus!
