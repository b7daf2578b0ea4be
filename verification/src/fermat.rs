//! Fermat's little theorem and the RSA exponent round trip, built from
//! binomial coefficients and the Bezout identity of the base engine.

use vstd::prelude::*;
use vstd::arithmetic::power::pow;
use vstd::arithmetic::div_mod::lemma_fundamental_div_mod;
use vstd::arithmetic::div_mod::lemma_fundamental_div_mod_converse_mod;
use vstd::arithmetic::div_mod::lemma_mod_bound;
use vstd::arithmetic::div_mod::lemma_mul_mod_noop_general;
use vstd::arithmetic::div_mod::lemma_small_mod;
use crate::math::{lemma_inverse_iff_coprime, lemma_prime_coprime, spec_is_prime};

verus! {

/// Euclid's lemma: a prime dividing a product divides one of the factors.
pub proof fn lemma_euclid(p: nat, a: int, b: int)
    requires
        spec_is_prime(p as int),
        (a * b) % (p as int) == 0,
    ensures
        a % (p as int) == 0 || b % (p as int) == 0,
{
    let pi = p as int;
    if a % pi != 0 {
        lemma_mod_bound(a, pi);
        let a0 = a % pi;
        lemma_prime_coprime(a0 as nat, p);
        lemma_inverse_iff_coprime(a0 as nat, p);
        let i = choose|i: int| 1 <= i < p && #[trigger] (((a0 as nat) * i) % (p as int)) == 1;
        // b == (a0 * i) * b == i * (a0 * b) modulo p, and a0 * b vanishes.
        assert((a0 * b) % pi == 0) by {
            lemma_mul_mod_noop_general(a, b, pi);
        }
        assert(b % pi == ((a0 * i) % pi * b) % pi) by {
            assert(((a0 * i) % pi) == 1);
            assert((1int * b) == b);
        }
        assert(((a0 * i) % pi * b) % pi == ((a0 * i) * b) % pi) by {
            lemma_mul_mod_noop_general(a0 * i, b, pi);
        }
        assert(((a0 * i) * b) % pi == (i * ((a0 * b) % pi)) % pi) by {
            assert((a0 * i) * b == i * (a0 * b)) by (nonlinear_arith);
            lemma_mul_mod_noop_general(i, a0 * b, pi);
        }
        assert((i * 0) % pi == 0) by {
            lemma_small_mod(0, p);
        }
        assert(b % pi == 0);
    }
}

/// Binomial coefficients by Pascal's rule; zero above the diagonal.
pub open spec fn binom(n: nat, k: nat) -> nat
    decreases n,
{
    if k == 0 {
        1
    } else if n == 0 {
        0
    } else {
        binom((n - 1) as nat, (k - 1) as nat) + binom((n - 1) as nat, k)
    }
}

proof fn lemma_binom_above(n: nat, k: nat)
    requires
        k > n,
    ensures
        binom(n, k) == 0,
    decreases n,
{
    if n > 0 {
        lemma_binom_above((n - 1) as nat, (k - 1) as nat);
        lemma_binom_above((n - 1) as nat, k);
    }
}

proof fn lemma_binom_diag(n: nat)
    ensures
        binom(n, n) == 1,
    decreases n,
{
    if n > 0 {
        lemma_binom_diag((n - 1) as nat);
        lemma_binom_above((n - 1) as nat, n);
    }
}

proof fn lemma_binom_one(n: nat)
    ensures
        binom(n, 1) == n,
    decreases n,
{
    if n > 0 {
        lemma_binom_one((n - 1) as nat);
        assert(binom((n - 1) as nat, 0) == 1);
        assert(binom(n, 1) == binom((n - 1) as nat, 0) + binom((n - 1) as nat, 1));
    }
}

/// The absorption identity `k * C(n, k) == n * C(n-1, k-1)`.
proof fn lemma_binom_absorb(n: nat, k: nat)
    requires
        1 <= k <= n,
    ensures
        k * binom(n, k) == n * binom((n - 1) as nat, (k - 1) as nat),
    decreases n,
{
    let n1 = (n - 1) as nat;
    let k1 = (k - 1) as nat;
    if k == n {
        lemma_binom_diag(n);
        lemma_binom_diag(n1);
        assert(k * binom(n, k) == n * 1);
    } else if k == 1 {
        lemma_binom_one(n);
        assert(binom(n1, 0) == 1);
        assert(1 * binom(n, 1) == n * 1) by {
            lemma_binom_one(n);
        }
    } else {
        // 1 < k < n, so both Pascal summands obey the identity.
        lemma_binom_absorb(n1, k1);
        lemma_binom_absorb(n1, k);
        let n2 = (n - 2) as nat;
        let k2 = (k - 2) as nat;
        assert(binom(n, k) == binom(n1, k1) + binom(n1, k));
        assert(k1 * binom(n1, k1) == n1 * binom(n2, k2));
        assert(k * binom(n1, k) == n1 * binom(n2, k1));
        assert(k * binom(n, k) == k * binom(n1, k1) + k * binom(n1, k)) by (nonlinear_arith)
            requires
                binom(n, k) == binom(n1, k1) + binom(n1, k),
        ;
        assert(k * binom(n1, k1) == k1 * binom(n1, k1) + binom(n1, k1)) by (nonlinear_arith)
            requires
                k == k1 + 1,
        ;
        assert(k * binom(n, k) == n1 * binom(n2, k2) + binom(n1, k1) + n1 * binom(n2, k1));
        assert(n1 * binom(n2, k2) + n1 * binom(n2, k1) == n1 * binom(n1, k1)) by (nonlinear_arith)
            requires
                binom(n1, k1) == binom(n2, k2) + binom(n2, k1),
        ;
        assert(k * binom(n, k) == n1 * binom(n1, k1) + binom(n1, k1));
        assert(n1 * binom(n1, k1) + binom(n1, k1) == n * binom(n1, k1)) by (nonlinear_arith)
            requires
                n == n1 + 1,
        ;
    }
}

/// A prime divides all its inner binomial coefficients.
proof fn lemma_prime_divides_binom(p: nat, k: nat)
    requires
        spec_is_prime(p as int),
        1 <= k < p,
    ensures
        (binom(p, k) as int) % (p as int) == 0,
{
    lemma_binom_absorb(p, k);
    let c = binom(p, k) as int;
    let rhs = (p * binom((p - 1) as nat, (k - 1) as nat)) as int;
    assert((k * c) % (p as int) == 0) by {
        lemma_fundamental_div_mod_converse_mod(
            (k * binom(p, k)) as int,
            p as int,
            binom((p - 1) as nat, (k - 1) as nat) as int,
            0,
        );
        assert((k * binom(p, k)) as int == (p as int) * (binom((p - 1) as nat, (k - 1) as nat) as int) + 0)
            by (nonlinear_arith)
            requires
                k * binom(p, k) == p * binom((p - 1) as nat, (k - 1) as nat),
        ;
    }
    lemma_euclid(p, k as int, c);
    if (k as int) % (p as int) == 0 {
        lemma_small_mod(k, p);
        assert(false);
    }
}

/// Partial binomial sum: the terms `C(n, k) * x^k` for `k` below `j`.
pub open spec fn binom_sum(x: int, n: nat, j: nat) -> int
    decreases j,
{
    if j == 0 {
        0
    } else {
        binom_sum(x, n, (j - 1) as nat) + binom(n, (j - 1) as nat) * pow(x, (j - 1) as nat)
    }
}

/// Pascal's rule lifted to partial sums.
proof fn lemma_sum_pascal(x: int, n: nat, j: nat)
    ensures
        binom_sum(x, (n + 1) as nat, (j + 1) as nat) == x * binom_sum(x, n, j) + binom_sum(
            x,
            n,
            (j + 1) as nat,
        ),
    decreases j,
{
    vstd::arithmetic::power::lemma_pow0(x);
    if j == 0 {
        assert(binom_sum(x, (n + 1) as nat, 0) == 0);
        assert(binom_sum(x, n, 0) == 0);
        assert(binom_sum(x, (n + 1) as nat, 1) == 0 + binom((n + 1) as nat, 0) * pow(x, 0));
        assert(binom_sum(x, n, 1) == 0 + binom(n, 0) * pow(x, 0));
    } else {
        lemma_sum_pascal(x, n, (j - 1) as nat);
        let j1 = (j - 1) as nat;
        let sj = binom_sum(x, n, j);
        let sj1 = binom_sum(x, n, j1);
        let cj = binom(n, j) as int;
        let cj1 = binom(n, j1) as int;
        assert(binom((n + 1) as nat, j) == binom(n, j1) + binom(n, j));
        assert(binom_sum(x, (n + 1) as nat, (j + 1) as nat) == binom_sum(x, (n + 1) as nat, j)
            + (cj1 + cj) * pow(x, j));
        assert(binom_sum(x, (n + 1) as nat, j) == x * sj1 + sj);
        assert(binom_sum(x, n, (j + 1) as nat) == sj + cj * pow(x, j));
        assert(sj == sj1 + cj1 * pow(x, j1));
        assert(pow(x, j) == x * pow(x, j1)) by {
            vstd::arithmetic::power::lemma_pow_adds(x, 1, j1);
            vstd::arithmetic::power::lemma_pow1(x);
        }
        assert((x * sj1 + sj) + (cj1 + cj) * pow(x, j) == x * sj + (sj + cj * pow(x, j)))
            by (nonlinear_arith)
            requires
                sj == sj1 + cj1 * pow(x, j1),
                pow(x, j) == x * pow(x, j1),
        ;
    }
}

/// The binomial theorem for `(x + 1)^n`.
proof fn lemma_binomial_theorem(x: int, n: nat)
    ensures
        pow(x + 1, n) == binom_sum(x, n, (n + 1) as nat),
    decreases n,
{
    vstd::arithmetic::power::lemma_pow0(x);
    if n == 0 {
        assert(binom_sum(x, 0, 0) == 0);
        assert(binom_sum(x, 0, 1) == 0 + binom(0, 0) * pow(x, 0));
        assert(pow(x + 1, 0) == 1) by {
            vstd::arithmetic::power::lemma_pow0(x + 1);
        }
    } else {
        let n1 = (n - 1) as nat;
        lemma_binomial_theorem(x, n1);
        lemma_sum_pascal(x, n1, n1 + 1);
        lemma_binom_above(n1, n);
        assert(binom_sum(x, n1, (n + 1) as nat) == binom_sum(x, n1, n) + binom(n1, n) * pow(
            x,
            n,
        ));
        assert(binom_sum(x, n1, (n + 1) as nat) == binom_sum(x, n1, n));
        assert(binom_sum(x, n, (n + 1) as nat) == x * binom_sum(x, n1, n) + binom_sum(x, n1, n));
        assert(pow(x + 1, n) == (x + 1) * pow(x + 1, n1)) by {
            vstd::arithmetic::power::lemma_pow_adds(x + 1, 1, n1);
            vstd::arithmetic::power::lemma_pow1(x + 1);
        }
        assert((x + 1) * binom_sum(x, n1, n) == x * binom_sum(x, n1, n) + binom_sum(x, n1, n))
            by (nonlinear_arith);
    }
}

/// Below the top term, the binomial sum is one more than a multiple of
/// the prime.
proof fn lemma_middle_terms_vanish(a: int, p: nat, j: nat)
    requires
        spec_is_prime(p as int),
        1 <= j <= p,
    ensures
        (binom_sum(a, p, j) - 1) % (p as int) == 0,
    decreases j,
{
    let pi = p as int;
    if j == 1 {
        vstd::arithmetic::power::lemma_pow0(a);
        assert(binom_sum(a, p, 0) == 0);
        assert(binom_sum(a, p, 1) == 0 + binom(p, 0) * pow(a, 0));
        assert(binom_sum(a, p, 1) - 1 == 0);
        lemma_small_mod(0, p);
    } else {
        let j1 = (j - 1) as nat;
        lemma_middle_terms_vanish(a, p, j1);
        lemma_prime_divides_binom(p, j1);
        let c = binom(p, j1) as int;
        assert(binom_sum(a, p, j) - 1 == pow(a, j1) * c + (binom_sum(a, p, j1) - 1))
            by (nonlinear_arith)
            requires
                binom_sum(a, p, j) == binom_sum(a, p, j1) + c * pow(a, j1),
        ;
        crate::math::lemma_divides_add_mul(pi, c, binom_sum(a, p, j1) - 1, pow(a, j1));
    }
}

/// Fermat's little theorem in the uniform form `a^p = a (mod p)`.
pub proof fn lemma_fermat(p: nat, a: nat)
    requires
        spec_is_prime(p as int),
    ensures
        pow(a as int, p) % (p as int) == (a as int) % (p as int),
    decreases a,
{
    let pi = p as int;
    if a == 0 {
        vstd::arithmetic::power::lemma0_pow(p);
        lemma_small_mod(0, p);
    } else {
        let b = (a - 1) as nat;
        lemma_fermat(p, b);
        lemma_binomial_theorem(b as int, p);
        lemma_binom_diag(p);
        lemma_middle_terms_vanish(b as int, p, p);
        let sp = binom_sum(b as int, p, p);
        assert(binom_sum(b as int, p, (p + 1) as nat) == sp + 1 * pow(b as int, p));
        assert(pow(a as int, p) == (sp - 1) + (1 + pow(b as int, p)));
        assert(pow(a as int, p) % pi == ((sp - 1) % pi + (1 + pow(b as int, p)) % pi) % pi) by {
            vstd::arithmetic::div_mod::lemma_add_mod_noop(
                sp - 1,
                1 + pow(b as int, p),
                pi,
            );
        }
        assert(((1 + pow(b as int, p)) % pi) % pi == (1 + pow(b as int, p)) % pi) by {
            vstd::arithmetic::div_mod::lemma_mod_twice(1 + pow(b as int, p), pi);
        }
        assert((1 + pow(b as int, p)) % pi == (1 + b as int) % pi) by {
            vstd::arithmetic::div_mod::lemma_add_mod_noop_right(1, pow(b as int, p), pi);
            vstd::arithmetic::div_mod::lemma_add_mod_noop_right(1, b as int, pi);
        }
        assert((0int + (1 + pow(b as int, p)) % pi) % pi == (1 + pow(b as int, p)) % pi);
    }
}

/// A power with exponent `1 + c * (p - 1)` lands back on its base
/// modulo the prime `p`.
proof fn lemma_pow_one_plus_multiple(p: nat, m: nat, c: nat)
    requires
        spec_is_prime(p as int),
    ensures
        pow(m as int, (1 + c * ((p - 1) as nat)) as nat) % (p as int) == (m as int) % (p as int),
{
    let pi = p as int;
    let e = (1 + c * ((p - 1) as nat)) as nat;
    let mi = m as int;
    assert(pow(mi, e) == mi * pow(mi, (c * ((p - 1) as nat)) as nat)) by {
        vstd::arithmetic::power::lemma_pow_adds(mi, 1, (c * ((p - 1) as nat)) as nat);
        vstd::arithmetic::power::lemma_pow1(mi);
    }
    if mi % pi == 0 {
        assert((mi * pow(mi, (c * ((p - 1) as nat)) as nat)) % pi == 0) by {
            lemma_mul_mod_noop_general(mi, pow(mi, (c * ((p - 1) as nat)) as nat), pi);
            lemma_small_mod(0, p);
            assert((0int * pow(mi, (c * ((p - 1) as nat)) as nat)) % pi == 0int % pi);
        }
    } else {
        lemma_fermat(p, m);
        // m^p = m * m^(p-1), so m^(p-1) is 1 modulo p once m is cancelled.
        let f = pow(mi, (p - 1) as nat);
        assert(pow(mi, p) == mi * f) by {
            vstd::arithmetic::power::lemma_pow_adds(mi, 1, (p - 1) as nat);
            vstd::arithmetic::power::lemma_pow1(mi);
        }
        assert((mi * (f - 1)) % pi == 0) by {
            assert(mi * (f - 1) == pow(mi, p) - mi) by (nonlinear_arith)
                requires
                    pow(mi, p) == mi * f,
            ;
            vstd::arithmetic::div_mod::lemma_sub_mod_noop(pow(mi, p), mi, pi);
            lemma_small_mod(0, p);
            assert((pow(mi, p) % pi - mi % pi) % pi == 0int % pi);
        }
        lemma_euclid(p, mi, f - 1);
        assert((f - 1) % pi == 0);
        assert(f % pi == 1int % pi) by {
            lemma_fundamental_div_mod(f - 1, pi);
            let t = (f - 1) / pi;
            assert(f == pi * t + 1);
            vstd::arithmetic::div_mod::lemma_mod_multiples_vanish(t, 1, pi);
        }
        lemma_small_mod(1, p);
        assert(pow(mi, (c * ((p - 1) as nat)) as nat) % pi == 1) by {
            vstd::arithmetic::power::lemma_pow_multiplies(mi, (p - 1) as nat, c);
            assert(pow(mi, (((p - 1) as nat) * c) as nat) == pow(f, c));
            assert((((p - 1) as nat) * c) as nat == (c * ((p - 1) as nat)) as nat);
            vstd::arithmetic::power::lemma_pow_mod_noop(f, c, pi);
            assert(pow(f % pi, c) == pow(1, c));
            vstd::arithmetic::power::lemma1_pow(c);
            assert(pow(1, c) % pi == 1);
        }
        assert((mi * pow(mi, (c * ((p - 1) as nat)) as nat)) % pi == (mi * 1) % pi) by {
            vstd::arithmetic::div_mod::lemma_mul_mod_noop_right(
                mi,
                pow(mi, (c * ((p - 1) as nat)) as nat),
                pi,
            );
        }
    }
}

/// Two primes that agree on a congruence combine: equal remainders
/// modulo `p` and modulo `q` give equal remainders modulo `p * q`.
proof fn lemma_same_mod_both_primes(p: nat, q: nat, x: int, m: int)
    requires
        spec_is_prime(p as int),
        spec_is_prime(q as int),
        p != q,
        x % (p as int) == m % (p as int),
        x % (q as int) == m % (q as int),
    ensures
        x % ((p * q) as int) == m % ((p * q) as int),
{
    let pi = p as int;
    let qi = q as int;
    assert((p * q) as int >= 4) by (nonlinear_arith)
        requires
            p >= 2,
            q >= 2,
    ;
    let d = x - m;
    assert(d % pi == 0) by {
        vstd::arithmetic::div_mod::lemma_sub_mod_noop(x, m, pi);
        lemma_small_mod(0, p);
        assert((x % pi - m % pi) % pi == 0int % pi);
    }
    assert(d % qi == 0) by {
        vstd::arithmetic::div_mod::lemma_sub_mod_noop(x, m, qi);
        lemma_small_mod(0, q);
        assert((x % qi - m % qi) % qi == 0int % qi);
    }
    lemma_fundamental_div_mod(d, pi);
    let s = d / pi;
    assert(d == pi * s);
    assert((pi * s) % qi == 0);
    lemma_euclid(q, pi, s);
    assert(pi % qi != 0) by {
        if p < q {
            lemma_small_mod(p, q);
        } else {
            assert(2 <= q < p);
            assert((p as int) % (q as int) != 0);
        }
    }
    assert(s % qi == 0);
    lemma_fundamental_div_mod(s, qi);
    let u = s / qi;
    assert(s == qi * u);
    assert(d == ((p * q) as int) * u + 0) by (nonlinear_arith)
        requires
            d == pi * s,
            s == qi * u,
            pi == p,
            qi == q,
    ;
    lemma_fundamental_div_mod_converse_mod(d, (p * q) as int, u, 0);
    assert((x - m) % ((p * q) as int) == 0);
    assert(x % ((p * q) as int) == m % ((p * q) as int)) by {
        lemma_fundamental_div_mod(x - m, (p * q) as int);
        let w = (x - m) / ((p * q) as int);
        assert(x == ((p * q) as int) * w + m);
        vstd::arithmetic::div_mod::lemma_mod_multiples_vanish(w, m, (p * q) as int);
    }
}

/// The RSA exponent round trip: raising a message to `e` and then to `d`
/// modulo `pq` returns the message whenever `e * d` is congruent to 1
/// modulo `(p - 1) * (q - 1)` and the message is below the modulus.
pub proof fn lemma_rsa_round_trip(p: nat, q: nat, e: nat, d: nat, m: nat)
    requires
        spec_is_prime(p as int),
        spec_is_prime(q as int),
        p != q,
        (e * d) as int % (((p - 1) * (q - 1)) as int) == 1,
        m < p * q,
    ensures
        pow(pow(m as int, e) % ((p * q) as int), d) % ((p * q) as int) == m,
{
    crate::math::lemma_power_mod_compose(m, e, d, p * q);
    let phi = ((p - 1) * (q - 1)) as nat;
    let ed = (e * d) as nat;
    assert(phi >= 1) by (nonlinear_arith)
        requires
            p >= 2,
            q >= 2,
            phi == (p - 1) * (q - 1),
    ;
    lemma_fundamental_div_mod(ed as int, phi as int);
    let t = (ed as int) / (phi as int);
    assert(ed as int == (phi as int) * t + 1);
    assert(t >= 0) by {
        if t < 0 {
            assert((phi as int) * t <= -(phi as int)) by (nonlinear_arith)
                requires
                    t <= -1,
                    phi >= 1,
            ;
        }
    }
    let cp = ((q - 1) as nat * (t as nat)) as nat;
    let cq = ((p - 1) as nat * (t as nat)) as nat;
    assert(ed == 1 + cp * ((p - 1) as nat) && ed == 1 + cq * ((q - 1) as nat))
        by (nonlinear_arith)
        requires
            ed as int == (phi as int) * t + 1,
            phi == (p - 1) * (q - 1),
            cp == (q - 1) * (t as nat),
            cq == (p - 1) * (t as nat),
            t >= 0,
            p >= 2,
            q >= 2,
    ;
    lemma_pow_one_plus_multiple(p, m, cp);
    lemma_pow_one_plus_multiple(q, m, cq);
    lemma_same_mod_both_primes(p, q, pow(m as int, ed), m as int);
    lemma_small_mod(m, p * q);
    assert(pow(m as int, ed) % ((p * q) as int) == m);
}

} // verus!
