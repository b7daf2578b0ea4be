//! DSS exercises: a toy digest selector, the DSA signing and verification
//! equations, and parameter generation for the sign and verify variants.

use vstd::prelude::*;
use vstd::arithmetic::power::pow;
use vstd::arithmetic::div_mod::lemma_mul_mod_noop_general;
use vstd::arithmetic::div_mod::lemma_small_mod;
use vstd::arithmetic::div_mod::lemma_sub_mod_noop;
use crate::math::inverse_mod;
use crate::math::is_order_of;
use crate::math::lemma_prime_inverse_exists;
use crate::math::mul_mod;
use crate::math::neg_mod;
use crate::math::order;
use crate::math::power_mod;
use crate::math::prime_factors;
use crate::math::spec_is_inverse;
use crate::math::spec_inverse_of;
use crate::math::lemma_inverse_unique;
use crate::math::spec_is_prime;
use crate::math::sub_mod;
use crate::primes::random_prime_in_range;
use crate::primes::MAX_SIEVE_LIMIT;
use crate::rng::random_in_range;
use crate::rsa::GENERATION_ATTEMPTS;

verus! {

/// One of the three toy hash functions standing in for a real digest:
/// `m mod q`, `2m mod q` or `3m mod q`.
#[derive(Clone, Copy, Debug, PartialEq, Eq, Structural)]
pub enum Digest {
    M,
    TwoM,
    ThreeM,
}

pub open spec fn digest_multiplier(h: Digest) -> int {
    match h {
        Digest::M => 1,
        Digest::TwoM => 2,
        Digest::ThreeM => 3,
    }
}

/// The digest of message input `m` under selector `h`, modulo `q`.
pub open spec fn spec_digest(h: Digest, m: u64, q: u64) -> int {
    (digest_multiplier(h) * m) % (q as int)
}

pub fn digest(h: Digest, m: u64, q: u64) -> (r: u64)
    requires
        q >= 1,
    ensures
        r < q,
        r as int == spec_digest(h, m, q),
{
    match h {
        Digest::M => mul_mod(1, m, q),
        Digest::TwoM => mul_mod(2, m, q),
        Digest::ThreeM => mul_mod(3, m, q),
    }
}

/// One of the three selectors, drawn at random.
pub fn generate_digest_selector() -> Digest {
    let pick = random_in_range(0, 2);
    if pick == 0 {
        Digest::M
    } else if pick == 1 {
        Digest::TwoM
    } else {
        Digest::ThreeM
    }
}

/// Shared parameters of a DSS exercise: primes `p` and `q` with `g`
/// generating the order-`q` subgroup, a digest selector, and a message
/// input whose digest is non-zero.
#[derive(Clone, Debug)]
pub struct DssParams {
    pub p: u64,
    pub q: u64,
    pub g: u64,
    pub h: Digest,
    pub m: u64,
}

pub open spec fn dss_wf(s: DssParams) -> bool {
    &&& spec_is_prime(s.p as int)
    &&& spec_is_prime(s.q as int)
    &&& s.p <= MAX_SIEVE_LIMIT
    &&& 2 <= s.q < s.p
    &&& 2 <= s.g <= s.p
    &&& is_order_of(s.g as int, s.q as nat, s.p as int)
    &&& s.p / 2 <= s.m <= s.p - 1
    &&& spec_digest(s.h, s.m, s.q) != 0
}

/// A DSA signature as the exercises use it: public key, then the pair
/// `(r, s)`.
#[derive(Clone, Copy, Debug)]
pub struct DssSignature {
    pub pk: u64,
    pub r: u64,
    pub s: u64,
}

/// `sig` is what the reference signer produces from secret key `sk` and
/// nonce `k`: `pk = g^sk mod p`, `r = (g^k mod p) mod q`, and
/// `s = (digest - sk * r) * k^-1 mod q`, with `r` and `s` non-zero.
pub open spec fn is_signature_of(par: DssParams, sk: u64, k: u64, sig: DssSignature) -> bool {
    &&& sig.pk as int == pow(par.g as int, sk as nat) % (par.p as int)
    &&& sig.r as int == (pow(par.g as int, k as nat) % (par.p as int)) % (par.q as int)
    &&& 1 <= sig.r < par.q
    &&& 1 <= sig.s < par.q
    &&& exists|ki: int| #[trigger] spec_is_inverse(k as int, ki, par.q as int)
    &&& sig.s as int == ((spec_digest(par.h, par.m, par.q) - sk * sig.r) * spec_inverse_of(
        k,
        par.q,
    )) % (par.q as int)
}

/// The reference signer. `None` when the drawn nonce gives a zero `r` or
/// a zero `s`; the caller re-samples.
pub fn sign(par: &DssParams, sk: u64, k: u64) -> (res: Option<DssSignature>)
    requires
        dss_wf(*par),
        1 <= k < par.q,
        1 <= sk < par.q,
    ensures
        match res {
            Some(sig) => is_signature_of(*par, sk, k, sig),
            None => (pow(par.g as int, k as nat) % (par.p as int)) % (par.q as int) == 0
                || ((spec_digest(par.h, par.m, par.q) - sk * ((pow(par.g as int, k as nat) % (
            par.p as int)) % (par.q as int))) * spec_inverse_of(k, par.q)) % (par.q as int) == 0,
        },
{
    let p = par.p;
    let q = par.q;
    let r0 = power_mod(par.g, k, p) % q;
    if r0 == 0 {
        return None;
    }
    let ki = match inverse_mod(k, q) {
        Some(x) => x,
        None => {
            proof {
                lemma_prime_inverse_exists(k, q);
                let i = choose|i: int| spec_is_inverse(k as int, i, q as int);
                assert((k as int * i) % (q as int) == 1);
                assert(false);
            }
            return None;
        },
    };
    let dg = digest(par.h, par.m, q);
    let skr = mul_mod(sk, r0, q);
    let diff = sub_mod(dg, skr, q);
    let s0 = mul_mod(diff, ki, q);
    proof {
        lemma_sign_s_form(
            dg as int,
            sk as int,
            r0 as int,
            skr as int,
            diff as int,
            s0 as int,
            ki as int,
            q as int,
        );
        assert(spec_is_inverse(k as int, ki as int, q as int));
        assert(exists|i: int| spec_is_inverse(k as int, i, q as int));
        assert(spec_is_inverse(k as int, spec_inverse_of(k, q), q as int));
        lemma_inverse_unique(k as int, ki as int, spec_inverse_of(k, q), q as int);
    }
    if s0 == 0 {
        return None;
    }
    let pk = power_mod(par.g, sk, p);
    Some(DssSignature { pk, r: r0, s: s0 })
}

/// Folding the two inner reductions out of the signer's arithmetic: the
/// computed `s` equals `(digest - sk * r) * k^-1 mod q`.
proof fn lemma_sign_s_form(dg: int, sk: int, r0: int, skr: int, diff: int, s0: int, ki: int, q: int)
    requires
        q >= 1,
        0 <= dg < q,
        skr == (sk * r0) % q,
        diff == (dg - skr) % q,
        s0 == (diff * ki) % q,
    ensures
        s0 == ((dg - sk * r0) * ki) % q,
{
    lemma_small_mod(dg as nat, q as nat);
    lemma_sub_mod_noop(dg, sk * r0, q);
    assert((dg % q - (sk * r0) % q) % q == (dg - sk * r0) % q);
    assert(diff == (dg - sk * r0) % q);
    lemma_mul_mod_noop_general(dg - sk * r0, ki, q);
    assert(((dg - sk * r0) % q * ki) % q == ((dg - sk * r0) * ki) % q);
}

/// The verifier's last intermediate: `w = ((g^u * pk^v) mod p) mod q`.
pub open spec fn spec_dss_w(par: DssParams, pk: u64, u: u64, v: u64) -> int {
    ((pow(par.g as int, u as nat) * pow(pk as int, v as nat)) % (par.p as int)) % (par.q as int)
}

/// The verifier's intermediates for an inverse `si` of `s`:
/// `u = digest * s^-1 mod q` and `v = -r * s^-1 mod q`.
pub open spec fn spec_dss_u(par: DssParams, si: int) -> int {
    (spec_digest(par.h, par.m, par.q) * si) % (par.q as int)
}

pub open spec fn spec_dss_v(par: DssParams, r: u64, si: int) -> int {
    (((-(r as int)) % (par.q as int)) * si) % (par.q as int)
}

/// The full acceptance relation, for an inverse `si` of the submitted
/// `s`: the recomputed `w` must land back on `r`.
pub open spec fn spec_dss_accepts(par: DssParams, pk: u64, r: u64, s: u64, si: int) -> bool {
    spec_dss_w(
        par,
        pk,
        ((spec_dss_u(par, si)) as u64),
        ((spec_dss_v(par, r, si)) as u64),
    ) == r as int
}

#[derive(Clone, Copy, Debug, PartialEq, Eq, Structural)]
pub struct DssIntermediates {
    pub u: u64,
    pub v: u64,
    pub w: u64,
}

/// The verifier's three intermediate values; `None` exactly when `s` has
/// no inverse modulo `q`.
pub fn dss_intermediates(par: &DssParams, pk: u64, r: u64, s: u64) -> (res: Option<
    DssIntermediates,
>)
    requires
        dss_wf(*par),
    ensures
        match res {
            Some(iv) => (exists|si: int| #[trigger] spec_is_inverse(s as int, si, par.q as int))
                && iv.u as int == spec_dss_u(*par, spec_inverse_of(s, par.q)) && iv.v as int
                == spec_dss_v(*par, r, spec_inverse_of(s, par.q)) && iv.w as int == spec_dss_w(
                *par,
                pk,
                iv.u,
                iv.v,
            ),
            None => !exists|si: int| #[trigger] spec_is_inverse(s as int, si, par.q as int),
        },
{
    let p = par.p;
    let q = par.q;
    let si = match inverse_mod(s, q) {
        Some(x) => x,
        None => {
            proof {
                if exists|si: int| spec_is_inverse(s as int, si, q as int) {
                    let i = choose|si: int| spec_is_inverse(s as int, si, q as int);
                    assert((s as int * i) % (q as int) == 1);
                    assert(false);
                }
            }
            return None;
        },
    };
    let dg = digest(par.h, par.m, q);
    let u = mul_mod(dg, si, q);
    let nr = neg_mod(r, q);
    let v = mul_mod(nr, si, q);
    let gw = power_mod(par.g, u, p);
    let pw = power_mod(pk, v, p);
    let w = mul_mod(gw, pw, p) % q;
    proof {
        assert(spec_is_inverse(s as int, si as int, q as int));
        assert(exists|i: int| spec_is_inverse(s as int, i, q as int));
        assert(spec_is_inverse(s as int, spec_inverse_of(s, q), q as int));
        lemma_inverse_unique(s as int, si as int, spec_inverse_of(s, q), q as int);
        lemma_small_mod(dg as nat, q as nat);
        assert(u as int == spec_dss_u(*par, si as int));
        assert(v as int == spec_dss_v(*par, r, si as int));
        lemma_mul_mod_noop_general(
            pow(par.g as int, u as nat),
            pow(pk as int, v as nat),
            p as int,
        );
        assert(w as int == spec_dss_w(*par, pk, u, v));
    }
    Some(DssIntermediates { u, v, w })
}

/// The outcome of checking a DSS answer: rejected answers leave the
/// challenge open; a non-invertible `s` is an internal fault, not a
/// rejection.
#[derive(Clone, Copy, Debug, PartialEq, Eq, Structural)]
pub enum DssError {
    NotInvertible,
}

/// Check a submitted signature `(pk, r, s)` against the full DSA
/// verification equation.
pub fn check_dss_sign(par: &DssParams, pk: u64, r: u64, s: u64) -> (res: Result<bool, DssError>)
    requires
        dss_wf(*par),
    ensures
        match res {
            Ok(b) => if pk >= par.p || r >= par.q || s >= par.q {
                b == false
            } else {
                (exists|si: int| #[trigger] spec_is_inverse(s as int, si, par.q as int)) && b
                    == spec_dss_accepts(*par, pk, r, s, spec_inverse_of(s, par.q))
            },
            Err(_) => pk < par.p && r < par.q && s < par.q && !exists|si: int|
                #[trigger] spec_is_inverse(s as int, si, par.q as int),
        },
{
    if pk >= par.p || r >= par.q || s >= par.q {
        return Ok(false);
    }
    match dss_intermediates(par, pk, r, s) {
        Some(iv) => Ok(iv.w == r),
        None => Err(DssError::NotInvertible),
    }
}

/// The smallest `g` in `[2, p]` whose multiplicative order modulo `p` is
/// exactly `q`; `None` when no candidate has that order.
fn find_subgroup_generator(p: u64, q: u64) -> (res: Option<u64>)
    requires
        2 <= p <= MAX_SIEVE_LIMIT,
        1 <= q <= p,
    ensures
        match res {
            Some(g) => 2 <= g <= p && is_order_of(g as int, q as nat, p as int),
            None => forall|g2: int|
                2 <= g2 <= p ==> !(#[trigger] is_order_of(g2, q as nat, p as int)),
        },
{
    let mut g: u64 = 2;
    while g <= p
        invariant
            2 <= p <= MAX_SIEVE_LIMIT,
            1 <= q <= p,
            2 <= g <= p + 1,
            forall|g2: int| 2 <= g2 < g ==> !(#[trigger] is_order_of(g2, q as nat, p as int)),
        decreases p + 1 - g,
    {
        match order(g, p) {
            Some(k) => {
                if k == q {
                    return Some(g);
                }
                proof {
                    if is_order_of(g as int, q as nat, p as int) {
                        if q < k {
                            assert(1 <= (q as nat) && (q as nat) < (k as nat));
                            assert(pow(g as int, q as nat) % (p as int) != 1);
                        } else {
                            assert(1 <= (k as nat) && (k as nat) < (q as nat));
                            assert(pow(g as int, k as nat) % (p as int) != 1);
                        }
                        assert(false);
                    }
                }
            },
            None => {
                proof {
                    if is_order_of(g as int, q as nat, p as int) {
                        assert(1 <= (q as nat) && (q as nat) <= (p as nat));
                        assert(pow(g as int, q as nat) % (p as int) != 1);
                        assert(false);
                    }
                }
            },
        }
        g = g + 1;
    }
    None
}

/// A message input from the upper half of `[0, p)` whose digest under `h`
/// is non-zero, re-sampled a bounded number of times.
fn find_message(p: u64, q: u64, h: Digest) -> (res: Option<u64>)
    requires
        p >= 2,
        q >= 1,
    ensures
        match res {
            Some(m) => p / 2 <= m <= p - 1 && spec_digest(h, m, q) != 0,
            None => true,
        },
{
    let mut tries: u64 = 0;
    while tries < GENERATION_ATTEMPTS
        invariant
            p >= 2,
            q >= 1,
        decreases GENERATION_ATTEMPTS - tries,
    {
        let m = random_in_range(p / 2, p - 1);
        let dg = digest(h, m, q);
        if dg != 0 {
            return Some(m);
        }
        tries += 1;
    }
    None
}

/// Fresh shared DSS parameters: a random prime `p`, the largest prime
/// factor `q` of `p - 1`, the smallest generator of the order-`q`
/// subgroup, a random digest selector and a message input with non-zero
/// digest. Degenerate draws are re-sampled a bounded number of times.
pub fn generate_dss(p_min: u64, p_max: u64) -> (res: Option<DssParams>)
    requires
        p_max <= MAX_SIEVE_LIMIT,
    ensures
        match res {
            Some(s) => dss_wf(s) && p_min <= s.p <= p_max,
            None => true,
        },
{
    let mut attempt: u64 = 0;
    while attempt < GENERATION_ATTEMPTS
        invariant
            p_max <= MAX_SIEVE_LIMIT,
        decreases GENERATION_ATTEMPTS - attempt,
    {
        attempt += 1;
        let p = match random_prime_in_range(p_min, p_max) {
            Some(p) => p,
            None => {
                return None;
            },
        };
        let factors = prime_factors(p - 1);
        if factors.len() == 0 {
            continue ;
        }
        let q = factors[factors.len() - 1];
        if q >= p {
            continue ;
        }
        let g = match find_subgroup_generator(p, q) {
            Some(g) => g,
            None => {
                continue ;
            },
        };
        let h = generate_digest_selector();
        let m = match find_message(p, q, h) {
            Some(m) => m,
            None => {
                continue ;
            },
        };
        return Some(DssParams { p, q, g, h, m });
    }
    None
}

/// A verification exercise: shared parameters together with a valid
/// signature whose intermediates the user must recompute.
#[derive(Clone, Debug)]
pub struct DssVerifyParams {
    pub params: DssParams,
    pub sig: DssSignature,
}

pub open spec fn dss_verify_wf(v: DssVerifyParams) -> bool {
    &&& dss_wf(v.params)
    &&& v.sig.pk < v.params.p
    &&& exists|sk: u64, k: u64|
        1 <= sk < v.params.q && 1 <= k < v.params.q && #[trigger] is_signature_of(
            v.params,
            sk,
            k,
            v.sig,
        )
}

/// Fresh verification-exercise parameters: shared parameters plus a
/// signature from the reference signer under random `sk` and `k`.
pub fn generate_dss_verify(p_min: u64, p_max: u64) -> (res: Option<DssVerifyParams>)
    requires
        p_max <= MAX_SIEVE_LIMIT,
    ensures
        match res {
            Some(v) => dss_verify_wf(v) && p_min <= v.params.p <= p_max,
            None => true,
        },
{
    let params = match generate_dss(p_min, p_max) {
        Some(s) => s,
        None => {
            return None;
        },
    };
    let mut tries: u64 = 0;
    while tries < GENERATION_ATTEMPTS
        invariant
            dss_wf(params),
            p_min <= params.p <= p_max,
        decreases GENERATION_ATTEMPTS - tries,
    {
        let sk = random_in_range(1, params.q - 1);
        let k = random_in_range(1, params.q - 1);
        match sign(&params, sk, k) {
            Some(sig) => {
                proof {
                    vstd::arithmetic::power::lemma_pow_positive(
                        params.g as int,
                        sk as nat,
                    );
                    vstd::arithmetic::div_mod::lemma_mod_bound(
                        pow(params.g as int, sk as nat),
                        params.p as int,
                    );
                    assert(1 <= sk < params.q && 1 <= k < params.q && is_signature_of(
                        params,
                        sk,
                        k,
                        sig,
                    ));
                }
                let out = DssVerifyParams { params, sig };
                proof {
                    assert(1 <= sk < out.params.q && 1 <= k < out.params.q && is_signature_of(
                        out.params,
                        sk,
                        k,
                        out.sig,
                    ));
                    assert(dss_verify_wf(out));
                }
                return Some(out);
            },
            None => {},
        }
        tries += 1;
    }
    None
}

/// Check a submitted triple `(u, v, w)` against the verifier's own
/// recomputation; all three must match and the recomputed `w` must land
/// on the stored `r`.
pub fn check_dss_verify(vp: &DssVerifyParams, u: u64, v: u64, w: u64) -> (res: bool)
    requires
        dss_verify_wf(*vp),
    ensures
        res == (u as int == spec_dss_u(vp.params, spec_inverse_of(vp.sig.s, vp.params.q))
            && v as int == spec_dss_v(
            vp.params,
            vp.sig.r,
            spec_inverse_of(vp.sig.s, vp.params.q),
        ) && w as int == spec_dss_w(vp.params, vp.sig.pk, u, v) && spec_dss_w(
            vp.params,
            vp.sig.pk,
            u,
            v,
        ) == vp.sig.r as int),
{
    proof {
        let (sk, k) = choose|sk: u64, k: u64|
            1 <= sk < vp.params.q && 1 <= k < vp.params.q && #[trigger] is_signature_of(
                vp.params,
                sk,
                k,
                vp.sig,
            );
        assert(1 <= vp.sig.s < vp.params.q);
    }
    let iv = match dss_intermediates(&vp.params, vp.sig.pk, vp.sig.r, vp.sig.s) {
        Some(iv) => iv,
        None => {
            proof {
                lemma_prime_inverse_exists(vp.sig.s, vp.params.q);
                assert(false);
            }
            return false;
        },
    };
    u == iv.u && v == iv.v && w == iv.w && iv.w == vp.sig.r
}

/// With `g^q = 1 (mod p)`, exponents only matter modulo `q`.
proof fn lemma_pow_exponent_mod(g: int, p: int, q: nat, a: nat)
    requires
        p >= 2,
        q >= 1,
        pow(g, q) % p == 1,
    ensures
        pow(g, a) % p == pow(g, (a % q) as nat) % p,
{
    let t = a / q;
    let rem = a % q;
    assert(a == q * t + rem) by {
        vstd::arithmetic::div_mod::lemma_fundamental_div_mod(a as int, q as int);
    }
    vstd::arithmetic::power::lemma_pow_adds(g, (q * t) as nat, rem);
    vstd::arithmetic::power::lemma_pow_multiplies(g, q, t);
    assert(pow(g, a) == pow(pow(g, q), t) * pow(g, rem));
    let hi = pow(pow(g, q), t);
    assert(hi % p == 1) by {
        vstd::arithmetic::power::lemma_pow_mod_noop(pow(g, q), t, p);
        vstd::arithmetic::power::lemma1_pow(t);
        lemma_small_mod(1, p as nat);
        assert(pow(pow(g, q) % p, t) == pow(1, t));
    }
    assert((hi * pow(g, rem)) % p == ((hi % p) * pow(g, rem)) % p) by {
        lemma_mul_mod_noop_general(hi, pow(g, rem), p);
    }
    assert((1int * pow(g, rem)) == pow(g, rem));
}

/// The DSA equation accepts every reference signature: the recomputed
/// `w` of a signature produced by `sign` lands back on its `r`.
pub proof fn lemma_dss_sign_verifies(par: DssParams, sk: u64, k: u64, sig: DssSignature)
    requires
        dss_wf(par),
        1 <= sk < par.q,
        1 <= k < par.q,
        is_signature_of(par, sk, k, sig),
    ensures
        exists|si: int| #[trigger] spec_is_inverse(sig.s as int, si, par.q as int),
        spec_dss_accepts(par, sig.pk, sig.r, sig.s, spec_inverse_of(sig.s, par.q)),
{
    let pi = par.p as int;
    let qi = par.q as int;
    let gi = par.g as int;
    let dg = spec_digest(par.h, par.m, par.q);
    let r = sig.r as int;
    let s = sig.s as int;
    lemma_prime_inverse_exists(sig.s, par.q);
    let si = spec_inverse_of(sig.s, par.q);
    assert(spec_is_inverse(s, si, qi));
    let ki = choose|ki: int| #[trigger] spec_is_inverse(k as int, ki, qi);
    assert(spec_is_inverse(k as int, ki, qi));
    assert(0 <= dg < qi) by {
        vstd::arithmetic::div_mod::lemma_mod_bound(digest_multiplier(par.h) * par.m, qi);
    }
    let x = dg - sk * r;

    // The signature equation inverted: s * k is congruent to dg - sk * r.
    assert((s * k) % qi == x % qi) by {
        assert((s * k) % qi == ((x * ki) * k) % qi) by {
            lemma_mul_mod_noop_general(x * ki, k as int, qi);
        }
        assert(((x * ki) * k) % qi == (x * (ki * k)) % qi) by {
            assert((x * ki) * k == x * (ki * k)) by (nonlinear_arith);
        }
        assert((x * (ki * k)) % qi == (x * ((ki * k) % qi)) % qi) by {
            vstd::arithmetic::div_mod::lemma_mul_mod_noop_right(x, ki * k, qi);
        }
        assert((ki * k) % qi == 1) by {
            assert(ki * k == (k as int) * ki) by (nonlinear_arith);
        }
        assert(x * 1 == x);
    }

    // The exponent u + sk * v is congruent to the nonce k.
    let u = spec_dss_u(par, si);
    let v = spec_dss_v(par, r as u64, si);
    assert(0 <= u < qi && 0 <= v < qi) by {
        vstd::arithmetic::div_mod::lemma_mod_bound(dg * si, qi);
        vstd::arithmetic::div_mod::lemma_mod_bound(((-r) % qi) * si, qi);
    }
    assert((u + sk * v) % qi == k) by {
        assert(v % qi == ((-r) * si) % qi) by {
            lemma_small_mod(v as nat, par.q as nat);
            lemma_mul_mod_noop_general(-r, si, qi);
        }
        assert((sk * v) % qi == ((-(sk * r)) * si) % qi) by {
            vstd::arithmetic::div_mod::lemma_mul_mod_noop_right(sk as int, v, qi);
            vstd::arithmetic::div_mod::lemma_mul_mod_noop_right(sk as int, (-r) * si, qi);
            assert(sk * ((-r) * si) == (-(sk * r)) * si) by (nonlinear_arith);
        }
        assert(u % qi == (dg * si) % qi) by {
            lemma_small_mod(u as nat, par.q as nat);
        }
        assert((u + sk * v) % qi == ((dg * si) % qi + ((-(sk * r)) * si) % qi) % qi) by {
            vstd::arithmetic::div_mod::lemma_add_mod_noop(u, sk * v, qi);
            vstd::arithmetic::div_mod::lemma_add_mod_noop(dg * si, (-(sk * r)) * si, qi);
            assert((u % qi + (sk * v) % qi) % qi == ((dg * si) % qi + ((-(sk * r)) * si) % qi)
                % qi);
        }
        assert(((dg * si) % qi + ((-(sk * r)) * si) % qi) % qi == (dg * si + (-(sk * r)) * si)
            % qi) by {
            vstd::arithmetic::div_mod::lemma_add_mod_noop(dg * si, (-(sk * r)) * si, qi);
        }
        assert(dg * si + (-(sk * r)) * si == x * si) by (nonlinear_arith)
            requires
                x == dg - sk * r,
        ;
        assert((x * si) % qi == ((x % qi) * si) % qi) by {
            lemma_mul_mod_noop_general(x, si, qi);
        }
        assert(((x % qi) * si) % qi == (((s * k) % qi) * si) % qi);
        assert((((s * k) % qi) * si) % qi == ((s * k) * si) % qi) by {
            lemma_mul_mod_noop_general(s * k, si, qi);
        }
        assert(((s * k) * si) % qi == (k * ((s * si) % qi)) % qi) by {
            assert((s * k) * si == k * (s * si)) by (nonlinear_arith);
            vstd::arithmetic::div_mod::lemma_mul_mod_noop_right(k as int, s * si, qi);
        }
        assert((s * si) % qi == 1);
        assert(k * 1 == k);
        lemma_small_mod(k as nat, par.q as nat);
    }

    // The power product collapses to g^(u + sk*v), then to g^k.
    let uu = u as u64;
    let vv = v as u64;
    assert(uu as int == u && vv as int == v);
    assert(pow(sig.pk as int, vv as nat) % pi == pow(gi, (sk * vv) as nat) % pi) by {
        vstd::arithmetic::power::lemma_pow_mod_noop(pow(gi, sk as nat), vv as nat, pi);
        assert(pow(sig.pk as int, vv as nat) == pow(pow(gi, sk as nat) % pi, vv as nat));
        vstd::arithmetic::power::lemma_pow_multiplies(gi, sk as nat, vv as nat);
        assert(pow(pow(gi, sk as nat), vv as nat) == pow(gi, ((sk as nat) * (vv as nat)) as nat));
    }
    let prod = pow(gi, uu as nat) * pow(sig.pk as int, vv as nat);
    assert(prod % pi == pow(gi, (uu + sk * vv) as nat) % pi) by {
        vstd::arithmetic::div_mod::lemma_mul_mod_noop_right(
            pow(gi, uu as nat),
            pow(sig.pk as int, vv as nat),
            pi,
        );
        vstd::arithmetic::div_mod::lemma_mul_mod_noop_right(
            pow(gi, uu as nat),
            pow(gi, (sk * vv) as nat),
            pi,
        );
        vstd::arithmetic::power::lemma_pow_adds(gi, uu as nat, (sk * vv) as nat);
    }
    assert(pow(gi, (uu + sk * vv) as nat) % pi == pow(gi, k as nat) % pi) by {
        assert(pow(gi, par.q as nat) % pi == 1);
        lemma_pow_exponent_mod(gi, pi, par.q as nat, (uu + sk * vv) as nat);
        lemma_pow_exponent_mod(gi, pi, par.q as nat, k as nat);
        assert(((uu + sk * vv) as nat) % (par.q as nat) == (k as nat) % (par.q as nat)) by {
            assert((u + sk * v) % qi == k);
            lemma_small_mod(k as nat, par.q as nat);
        }
    }
    assert((prod % pi) % qi == (pow(gi, k as nat) % pi) % qi);
    assert(spec_dss_w(par, sig.pk, uu, vv) == r);
}

} // verus!
