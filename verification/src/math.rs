//! Number-theory engine: pure, deterministic functions over 64-bit integers.
//!
//! Every protocol verifier re-derives its expected answer through these
//! functions, so their contracts pin the exact mathematical result.

use vstd::prelude::*;
use vstd::arithmetic::div_mod::lemma_fundamental_div_mod;
use vstd::arithmetic::div_mod::lemma_fundamental_div_mod_converse_mod;
use vstd::arithmetic::div_mod::lemma_mod_bound;
use vstd::arithmetic::div_mod::lemma_mul_mod_noop_general;
use vstd::arithmetic::power::pow;
use vstd::arithmetic::power::lemma_pow_multiplies;
use vstd::arithmetic::power::lemma_pow_mod_noop;

verus! {

/// True Euclidean remainder, needed because Rust's `%` on a negative
/// dividend keeps the dividend's sign.
pub fn safe_mod(num: i64, modulus: u64) -> (r: u64)
    requires
        modulus >= 1,
    ensures
        r < modulus,
        r as int == (num as int) % (modulus as int),
{
    if num >= 0 {
        (num as u64) % modulus
    } else {
        let b = (-(num + 1)) as u64;
        let c = b % modulus;
        proof {
            lemma_mod_of_negative(num as int, modulus as int);
        }
        modulus - 1 - c
    }
}

/// A negative dividend's Euclidean remainder, written over the
/// non-negative value `-(a + 1)` that a machine integer can hold.
proof fn lemma_mod_of_negative(a: int, m: int)
    requires
        m >= 1,
        a < 0,
    ensures
        a % m == m - 1 - ((-(a + 1)) % m),
{
    let b = -(a + 1);
    let q = b / m;
    let c = b % m;
    lemma_fundamental_div_mod(b, m);
    lemma_mod_bound(b, m);
    assert(a == (-(q + 1)) * m + (m - c - 1)) by (nonlinear_arith)
        requires
            b == q * m + c,
            a == -(b + 1),
    ;
    lemma_fundamental_div_mod_converse_mod(a, m, -(q + 1), m - c - 1);
}

/// Modular exponentiation by repeated squaring; intermediate products are
/// widened to 128 bits so no reduction can overflow.
pub fn power_mod(num: u64, exp: u64, modulus: u64) -> (r: u64)
    requires
        modulus >= 1,
    ensures
        r < modulus,
        r as int == pow(num as int, exp as nat) % (modulus as int),
{
    let m: u128 = modulus as u128;
    let mut result: u128 = 1 % m;
    let mut base: u128 = (num as u128) % m;
    let mut e: u64 = exp;

    proof {
        lemma_pow_mod_noop(num as int, exp as nat, m as int);
        lemma_mul_mod_noop_general(1, pow((num as int) % (m as int), exp as nat), m as int);
        assert((1 as int % m as int * pow((num as int) % (m as int), exp as nat)) % (m as int)
            == (1 * pow((num as int) % (m as int), exp as nat)) % (m as int));
    }

    while e > 0
        invariant
            m == modulus as u128,
            m >= 1,
            m <= 0xffff_ffff_ffff_ffff,
            result < m,
            base < m,
            (result as int * pow(base as int, e as nat)) % (m as int)
                == pow(num as int, exp as nat) % (m as int),
        decreases e,
    {
        let ghost r0 = result as int;
        let ghost b0 = base as int;
        let ghost e0 = e as nat;

        proof {
            assert(result * base < m * m && base * base < m * m) by (nonlinear_arith)
                requires
                    result < m,
                    base < m,
                    m >= 1,
            ;
            assert(m * m <= 0xffff_ffff_ffff_ffff * 0xffff_ffff_ffff_ffff)
                by (nonlinear_arith)
                requires
                    m <= 0xffff_ffff_ffff_ffff,
            ;
        }
        if e % 2 == 1 {
            result = result * base % m;
        }
        base = base * base % m;
        e = e / 2;

        proof {
            lemma_square_step(r0, b0, e0, m as int);
        }
    }
    proof {
        assert(pow(base as int, 0) == 1) by {
            vstd::arithmetic::power::lemma_pow0(base as int);
        }
        vstd::arithmetic::div_mod::lemma_small_mod(result as nat, m as nat);
    }
    result as u64
}

/// One squaring step: peeling the low bit of the exponent off `pow` keeps
/// the running product congruent to the original power.
proof fn lemma_square_step(r: int, b: int, e: nat, m: int)
    requires
        m >= 1,
        e > 0,
    ensures
        e % 2 == 1 ==> (((r * b) % m) * pow((b * b) % m, e / 2)) % m == (r * pow(b, e)) % m,
        e % 2 == 0 ==> (r * pow((b * b) % m, e / 2)) % m == (r * pow(b, e)) % m,
{
    lemma_pow_multiplies(b, 2, e / 2);
    vstd::arithmetic::power::lemma_square_is_pow2(b);
    lemma_pow_mod_noop(b * b, e / 2, m);
    let p = pow(b * b, e / 2);
    if e % 2 == 1 {
        assert(e == 2 * (e / 2) + 1);
        vstd::arithmetic::power::lemma_pow_adds(b, 2 * (e / 2), 1);
        vstd::arithmetic::power::lemma_pow1(b);
        assert(pow(b, e) == pow(b, 2 * (e / 2)) * b);
        assert(pow(b, 2 * (e / 2)) == p);
        assert(pow(b, e) == b * p);
        // ((r*b) % m) * pow((b*b) % m, e/2) reduces in two hops to r * pow(b, e).
        lemma_mul_mod_noop_general((r * b) % m, p, m);
        assert((((r * b) % m) * pow((b * b) % m, e / 2)) % m
            == (((r * b) % m) * (p % m)) % m) by {
            lemma_mul_mod_noop_general((r * b) % m, pow((b * b) % m, e / 2), m);
            vstd::arithmetic::div_mod::lemma_mod_twice(pow((b * b) % m, e / 2), m);
        }
        lemma_mul_mod_noop_general(r * b, p, m);
        assert((r * b) * p == r * (b * p)) by (nonlinear_arith);
        assert(r * pow(b, e) == r * (b * p));
    } else {
        assert(e == 2 * (e / 2));
        assert(pow(b, e) == p);
        lemma_mul_mod_noop_general(r, p, m);
        assert((r * pow((b * b) % m, e / 2)) % m == (r * (p % m)) % m) by {
            lemma_mul_mod_noop_general(r, pow((b * b) % m, e / 2), m);
            vstd::arithmetic::div_mod::lemma_mod_twice(pow((b * b) % m, e / 2), m);
        }
    }
}

/// Greatest common divisor by the Euclidean algorithm.
pub open spec fn spec_gcd(a: nat, b: nat) -> nat
    decreases b,
{
    if b == 0 {
        a
    } else {
        spec_gcd(b, a % b)
    }
}

/// Euclidean algorithm; `gcd(a, 0) == a`.
pub fn gcd(a: u64, b: u64) -> (r: u64)
    ensures
        r as nat == spec_gcd(a as nat, b as nat),
    decreases b,
{
    if b == 0 {
        a
    } else {
        gcd(b, a % b)
    }
}

/// Modular product, widened to 128 bits before reducing.
pub fn mul_mod(a: u64, b: u64, m: u64) -> (r: u64)
    requires
        m >= 1,
    ensures
        r < m,
        r as int == (a as int * b as int) % (m as int),
{
    proof {
        assert((a as u128) * (b as u128) <= 0xffff_ffff_ffff_ffff * 0xffff_ffff_ffff_ffff)
            by (nonlinear_arith)
            requires
                a <= 0xffff_ffff_ffff_ffff,
                b <= 0xffff_ffff_ffff_ffff,
        ;
    }
    let wide = (a as u128) * (b as u128) % (m as u128);
    wide as u64
}

/// Smallest positive multiplicative inverse of `num` modulo `modulus`,
/// found by exhaustive search as the moduli here are small; `None` when no
/// inverse below the modulus exists.
pub fn inverse_mod(num: u64, modulus: u64) -> (r: Option<u64>)
    requires
        modulus >= 1,
    ensures
        match r {
            Some(i) => 1 <= i < modulus && (num as int * i as int) % (modulus as int) == 1
                && forall|j: int|
                    1 <= j < i ==> #[trigger] ((num as int * j) % (modulus as int)) != 1,
            None => forall|j: int|
                1 <= j < modulus ==> #[trigger] ((num as int * j) % (modulus as int)) != 1,
        },
{
    let mut i: u64 = 1;
    while i < modulus
        invariant
            modulus >= 1,
            1 <= i <= modulus,
            forall|j: int| 1 <= j < i ==> #[trigger] ((num as int * j) % (modulus as int)) != 1,
        decreases modulus - i,
    {
        if mul_mod(num, i, modulus) == 1 {
            return Some(i);
        }
        i = i + 1;
    }
    None
}

/// Smallest positive `k <= p` with `num^k = 1 (mod p)`; `None` when no
/// such exponent exists.
pub fn order(num: u64, p: u64) -> (r: Option<u64>)
    requires
        p >= 1,
    ensures
        match r {
            Some(k) => 1 <= k <= p && pow(num as int, k as nat) % (p as int) == 1
                && forall|j: nat|
                    1 <= j < k ==> #[trigger] (pow(num as int, j) % (p as int)) != 1,
            None => forall|j: nat|
                1 <= j <= p ==> #[trigger] (pow(num as int, j) % (p as int)) != 1,
        },
{
    let mut k: u64 = 1;
    while k < p
        invariant
            p >= 1,
            1 <= k <= p,
            forall|j: nat|
                1 <= j < k ==> #[trigger] (pow(num as int, j) % (p as int)) != 1,
        decreases p - k,
    {
        if power_mod(num, k, p) == 1 {
            return Some(k);
        }
        k = k + 1;
    }
    if power_mod(num, p, p) == 1 {
        Some(p)
    } else {
        None
    }
}

/// A number is prime when it is at least 2 and no smaller number from 2
/// up divides it.
pub open spec fn spec_is_prime(n: int) -> bool {
    n >= 2 && forall|d: int| 2 <= d < n ==> #[trigger] (n % d) != 0
}

/// Divisibility runs through a middle term.
proof fn lemma_divides_transitive(a: int, b: int, c: int)
    requires
        a >= 1,
        b >= 1,
        b % a == 0,
        c % b == 0,
    ensures
        c % a == 0,
{
    lemma_fundamental_div_mod(c, b);
    lemma_fundamental_div_mod(b, a);
    assert(c == a * ((b / a) * (c / b)) + 0) by (nonlinear_arith)
        requires
            c == b * (c / b),
            b == a * (b / a),
    ;
    lemma_fundamental_div_mod_converse_mod(c, a, (b / a) * (c / b), 0);
}

/// A number with no divisor in `[2, d0)` and `d0 * d0 > n` has no proper
/// divisor at all: a composite's smallest factor is at most its square root.
proof fn lemma_no_small_divisor_prime(n: int, d0: int)
    requires
        n >= 2,
        d0 >= 2,
        d0 * d0 > n,
        forall|e: int| 2 <= e < d0 ==> #[trigger] (n % e) != 0,
    ensures
        spec_is_prime(n),
{
    assert forall|e: int| 2 <= e < n implies #[trigger] (n % e) != 0 by {
        if n % e == 0 {
            assert(e < d0 ==> n % e != 0);
            assert(e >= d0);
            lemma_fundamental_div_mod(n, e);
            let q = n / e;
            assert(n == e * q);
            assert(q >= 2) by (nonlinear_arith)
                requires
                    n == e * q,
                    2 <= e < n,
                    q >= 0,
            ;
            assert(q < d0) by (nonlinear_arith)
                requires
                    n == e * q,
                    e >= d0,
                    d0 * d0 > n,
                    d0 >= 2,
                    q >= 2,
            ;
            assert(n % q == 0) by {
                lemma_fundamental_div_mod_converse_mod(n, q, e, 0);
                assert(n == q * e + 0) by (nonlinear_arith)
                    requires
                        n == e * q,
                ;
            }
            assert(false);
        }
    }
}

/// Exact primality test by trial division up to the square root; false for
/// everything below 2.
pub fn is_prime(num: u64) -> (r: bool)
    ensures
        r == spec_is_prime(num as int),
{
    if num < 2 {
        return false;
    }
    let mut d: u64 = 2;
    while d <= num / d
        invariant
            num >= 2,
            2 <= d <= num,
            forall|e: int| 2 <= e < d ==> #[trigger] ((num as int) % e) != 0,
        decreases num - d,
    {
        if num % d == 0 {
            proof {
                lemma_fundamental_div_mod(num as int, d as int);
                assert(2 <= d < num) by (nonlinear_arith)
                    requires
                        d >= 2,
                        num >= 2,
                        d <= num / d,
                        num % d == 0,
                        num == d * (num / d) + num % d,
                ;
            }
            return false;
        }
        proof {
            lemma_fundamental_div_mod(num as int, d as int);
            vstd::arithmetic::div_mod::lemma_mod_bound(num as int, d as int);
            assert(d < num) by (nonlinear_arith)
                requires
                    d >= 2,
                    num >= 2,
                    d <= num / d,
                    num == d * (num / d) + num % d,
                    num % d >= 0,
            ;
        }
        d = d + 1;
    }
    proof {
        lemma_fundamental_div_mod(num as int, d as int);
        vstd::arithmetic::div_mod::lemma_mod_bound(num as int, d as int);
        assert((d as int) * (d as int) > num) by (nonlinear_arith)
            requires
                d >= 2,
                num >= 2,
                d > num / d,
                num == d * (num / d) + num % d,
                num % d < d,
        ;
        lemma_no_small_divisor_prime(num as int, d as int);
    }
    true
}

/// Product of a sequence of factors, taken right to left.
pub open spec fn seq_product(s: Seq<u64>) -> int
    decreases s.len(),
{
    if s.len() == 0 {
        1
    } else {
        seq_product(s.drop_last()) * s.last()
    }
}

proof fn lemma_seq_product_push(s: Seq<u64>, x: u64)
    ensures
        seq_product(s.push(x)) == seq_product(s) * x,
{
    assert(s.push(x).drop_last() =~= s);
    assert(s.push(x).last() == x);
}

/// Ascending multiset of prime factors by trial division; `[num]` itself
/// when `num` is prime, empty when `num <= 1`.
pub fn prime_factors(num: u64) -> (r: Vec<u64>)
    ensures
        num <= 1 ==> r@.len() == 0,
        num >= 2 ==> seq_product(r@) == num as int,
        forall|k: int| 0 <= k < r@.len() ==> spec_is_prime(#[trigger] r@[k] as int),
        forall|k1: int, k2: int| 0 <= k1 <= k2 < r@.len() ==> r@[k1] <= r@[k2],
{
    let mut factors: Vec<u64> = Vec::new();
    if num <= 1 {
        return factors;
    }
    let mut n: u64 = num;

    while n % 2 == 0
        invariant
            num >= 2,
            n >= 1,
            seq_product(factors@) * (n as int) == num as int,
            forall|k: int| 0 <= k < factors@.len() ==> factors@[k] == 2,
        decreases n,
    {
        proof {
            lemma_seq_product_push(factors@, 2);
            lemma_fundamental_div_mod(n as int, 2);
            assert((seq_product(factors@) * 2) * ((n / 2) as int) == seq_product(factors@) * (n as int))
                by (nonlinear_arith)
                requires
                    n as int == 2 * ((n / 2) as int),
            ;
        }
        factors.push(2);
        n = n / 2;
    }

    let mut i: u64 = 3;
    while i <= n / i
        invariant
            num >= 2,
            n >= 1,
            n % 2 != 0,
            3 <= i,
            i % 2 == 1,
            seq_product(factors@) * (n as int) == num as int,
            forall|k: int| 0 <= k < factors@.len() ==> spec_is_prime(#[trigger] factors@[k] as int),
            forall|k1: int, k2: int| 0 <= k1 <= k2 < factors@.len() ==> factors@[k1] <= factors@[k2],
            forall|k: int| 0 <= k < factors@.len() ==> factors@[k] <= i,
            forall|d: int| 2 <= d < i ==> #[trigger] ((n as int) % d) != 0,
        decreases 2 * (n as int) - i,
    {
        proof {
            lemma_fundamental_div_mod(n as int, i as int);
        }
        if n % i == 0 {
            let q = n / i;
            proof {
                assert(n == i * q);
                assert(1 <= q < n) by (nonlinear_arith)
                    requires
                        n == i * q,
                        n >= 1,
                        i >= 3,
                        q >= 0,
                ;
                assert(n as int % (q as int) == 0) by {
                    lemma_fundamental_div_mod_converse_mod(n as int, q as int, i as int, 0);
                    assert(n == (i as int) * (q as int));
                }
                // q inherits n's freedom from small divisors and from 2.
                assert(q % 2 != 0) by {
                    if q % 2 == 0 {
                        lemma_divides_transitive(2, q as int, n as int);
                    }
                }
                assert forall|d: int| 2 <= d < i implies #[trigger] ((q as int) % d) != 0 by {
                    if (q as int) % d == 0 {
                        lemma_divides_transitive(d, q as int, n as int);
                    }
                }
                // i itself is prime: a proper divisor of i would divide n.
                assert forall|e: int| 2 <= e < i implies #[trigger] ((i as int) % e) != 0 by {
                    if (i as int) % e == 0 {
                        lemma_divides_transitive(e, i as int, n as int);
                    }
                }
                assert(spec_is_prime(i as int));
                lemma_seq_product_push(factors@, i);
                assert((seq_product(factors@) * i) * (q as int) == seq_product(factors@) * (n as int))
                    by (nonlinear_arith)
                    requires
                        n as int == (i as int) * (q as int),
                ;
            }
            factors.push(i);
            n = q;
        } else {
            proof {
                // i + 1 is even, so it cannot divide the odd remainder.
                assert(3 * (i as int) <= n as int) by (nonlinear_arith)
                    requires
                        i >= 3,
                        n as int == (i as int) * ((n / i) as int) + (n as int) % (i as int),
                        n / i >= i,
                        (n as int) % (i as int) >= 0,
                ;
                assert((i + 1) as int % 2 == 0);
                if (n as int) % ((i + 1) as int) == 0 {
                    lemma_divides_transitive(2, (i + 1) as int, n as int);
                }
            }
            i = i + 2;
        }
    }

    if n > 1 {
        proof {
            lemma_fundamental_div_mod(n as int, i as int);
            vstd::arithmetic::div_mod::lemma_mod_bound(n as int, i as int);
            assert((i as int) * (i as int) > n) by (nonlinear_arith)
                requires
                    i >= 3,
                    n >= 1,
                    i > n / i,
                    n == i * (n / i) + n % i,
                    n % i >= 0,
            ;
            lemma_no_small_divisor_prime(n as int, i as int);
            // n is at least i, else it would be its own small divisor.
            assert(n >= i) by {
                if n < i {
                    assert((n as int) % (n as int) == 0) by {
                        vstd::arithmetic::div_mod::lemma_mod_self_0(n as int);
                    }
                }
            }
            lemma_seq_product_push(factors@, n);
        }
        factors.push(n);
    }
    factors
}

/// `k` is the multiplicative order of `g` modulo `p`: the smallest
/// positive exponent sending `g` to 1.
pub open spec fn is_order_of(g: int, k: nat, p: int) -> bool {
    k >= 1 && pow(g, k) % p == 1 && forall|j: nat|
        1 <= j < k ==> #[trigger] (pow(g, j) % p) != 1
}

/// Smallest generator of the full multiplicative group modulo `num`:
/// the least `g` in `[2, num)` of order `num - 1`. `None` when `num` is
/// not prime, or no candidate generates the group.
pub fn primitive(num: u64) -> (r: Option<u64>)
    ensures
        match r {
            Some(g) => spec_is_prime(num as int) && 2 <= g < num && is_order_of(
                g as int,
                (num - 1) as nat,
                num as int,
            ) && forall|g2: int|
                2 <= g2 < g ==> !(#[trigger] is_order_of(g2, (num - 1) as nat, num as int)),
            None => !spec_is_prime(num as int) || forall|g2: int|
                2 <= g2 < num ==> !(#[trigger] is_order_of(g2, (num - 1) as nat, num as int)),
        },
{
    if !is_prime(num) {
        return None;
    }
    let mut g: u64 = 2;
    while g < num
        invariant
            num >= 2,
            2 <= g <= num,
            spec_is_prime(num as int),
            forall|g2: int| 2 <= g2 < g ==> !(#[trigger] is_order_of(g2, (num - 1) as nat, num as int)),
        decreases num - g,
    {
        let k_opt = order(g, num);
        match k_opt {
            Some(k) => {
                if k == num - 1 {
                    return Some(g);
                }
                proof {
                    if is_order_of(g as int, (num - 1) as nat, num as int) {
                        if k < num - 1 {
                            // The claimed full order contradicts the smaller
                            // exponent that already reaches 1.
                            assert(pow(g as int, k as nat) % (num as int) == 1);
                            assert(1 <= (k as nat) && (k as nat) < ((num - 1) as nat));
                            assert(pow(g as int, k as nat) % (num as int) != 1);
                            assert(false);
                        } else {
                            // Here `k == num`, so `num - 1` is below the order
                            // and cannot reach 1 either.
                            assert(k == num);
                            assert(pow(g as int, (num - 1) as nat) % (num as int) == 1);
                            assert(1 <= ((num - 1) as int) && ((num - 1) as int) < (k as int));
                            assert(pow(g as int, (((num - 1) as int)) as nat) % (num as int)
                                != 1);
                            assert(false);
                        }
                    }
                }
            },
            None => {
                proof {
                    if is_order_of(g as int, (num - 1) as nat, num as int) {
                        assert(pow(g as int, (num - 1) as nat) % (num as int) == 1);
                        assert(1 <= ((num - 1) as int) && ((num - 1) as int) <= (num as int));
                        assert(pow(g as int, (((num - 1) as int)) as nat) % (num as int) != 1);
                        assert(false);
                    }
                }
            },
        }
        g = g + 1;
    }
    None
}

/// A multiple plus a multiple is a multiple.
pub(crate) proof fn lemma_divides_add_mul(g: int, b: int, r: int, q: int)
    requires
        g >= 1,
        b % g == 0,
        r % g == 0,
    ensures
        (q * b + r) % g == 0,
{
    lemma_fundamental_div_mod(b, g);
    lemma_fundamental_div_mod(r, g);
    assert(q * b + r == g * (q * (b / g) + r / g) + 0) by (nonlinear_arith)
        requires
            b == g * (b / g),
            r == g * (r / g),
    ;
    lemma_fundamental_div_mod_converse_mod(q * b + r, g, q * (b / g) + r / g, 0);
}

/// The greatest common divisor divides both of its arguments, and is
/// positive as soon as either argument is.
proof fn lemma_gcd_divides(a: nat, b: nat)
    requires
        a >= 1 || b >= 1,
    ensures
        spec_gcd(a, b) >= 1,
        (a as int) % (spec_gcd(a, b) as int) == 0,
        (b as int) % (spec_gcd(a, b) as int) == 0,
    decreases b,
{
    if b == 0 {
        vstd::arithmetic::div_mod::lemma_mod_self_0(a as int);
        assert(0int % (a as int) == 0) by {
            vstd::arithmetic::div_mod::lemma_small_mod(0, a as nat);
        }
    } else {
        lemma_mod_bound(a as int, b as int);
        lemma_gcd_divides(b, a % b);
        let g = spec_gcd(b, a % b);
        lemma_fundamental_div_mod(a as int, b as int);
        lemma_divides_add_mul(g as int, b as int, (a % b) as int, (a as int) / (b as int));
        assert(a as int == (b as int) * ((a as int) / (b as int)) + ((a % b) as int));
        assert(((a as int) / (b as int)) * (b as int) == (b as int) * ((a as int) / (b as int)))
            by (nonlinear_arith);
    }
}

/// Bezout's identity: the greatest common divisor is an integer linear
/// combination of its arguments.
proof fn lemma_bezout(a: nat, b: nat)
    ensures
        exists|x: int, y: int| #[trigger] (a * x + b * y) == spec_gcd(a, b),
    decreases b,
{
    if b == 0 {
        assert(a * 1 + b * 0 == spec_gcd(a, b)) by (nonlinear_arith)
            requires
                b == 0,
                spec_gcd(a, b) == a,
        ;
    } else {
        lemma_bezout(b, a % b);
        let (x, y) = choose|x: int, y: int| #[trigger] (b * x + (a % b) * y) == spec_gcd(
            b,
            a % b,
        );
        lemma_fundamental_div_mod(a as int, b as int);
        let q = (a as int) / (b as int);
        assert(a * y + b * (x - q * y) == b * x + (a % b) * y) by (nonlinear_arith)
            requires
                a as int == (b as int) * q + ((a % b) as int),
        ;
        assert(a * y + b * (x - q * y) == spec_gcd(a, b));
    }
}

/// A multiplicative inverse modulo `m` exists exactly when the argument
/// is coprime to `m`; with one, `inverse_mod` returns `Some`, without
/// one, `None`.
pub proof fn lemma_inverse_iff_coprime(a: nat, m: nat)
    requires
        m >= 2,
    ensures
        (exists|i: int| 1 <= i < m && #[trigger] ((a * i) % (m as int)) == 1) <==> spec_gcd(
            a,
            m,
        ) == 1,
{
    if spec_gcd(a, m) == 1 {
        lemma_bezout(a, m);
        let (x, y) = choose|x: int, y: int| #[trigger] (a * x + m * y) == 1;
        let i = x % (m as int);
        lemma_mod_bound(x, m as int);
        vstd::arithmetic::div_mod::lemma_mul_mod_noop_right(a as int, x, m as int);
        assert((a * x) % (m as int) == 1) by {
            assert(a * x == (m as int) * (-y) + 1) by (nonlinear_arith)
                requires
                    a * x + m * y == 1,
            ;
            assert(((m as int) * (-y) + 1) % (m as int) == 1int % (m as int)) by {
                vstd::arithmetic::div_mod::lemma_mod_multiples_vanish(-y, 1, m as int);
            }
            vstd::arithmetic::div_mod::lemma_small_mod(1, m);
        }
        assert((a * i) % (m as int) == 1);
        if i == 0 {
            assert(((a as int) * 0) % (m as int) == 0) by {
                vstd::arithmetic::div_mod::lemma_small_mod(0, m);
            }
            assert(false);
        }
        assert(1 <= i < m && (a * i) % (m as int) == 1);
    }
    if exists|i: int| 1 <= i < m && #[trigger] ((a * i) % (m as int)) == 1 {
        let i = choose|i: int| 1 <= i < m && #[trigger] ((a * i) % (m as int)) == 1;
        lemma_gcd_divides(a, m);
        let g = spec_gcd(a, m);
        lemma_fundamental_div_mod(a * i, m as int);
        let q = (a * i) / (m as int);
        assert(a * i == (m as int) * q + 1);
        assert(1 == i * (a as int) + (-q) * (m as int)) by (nonlinear_arith)
            requires
                a * i == (m as int) * q + 1,
        ;
        assert(((-q) * (m as int)) % (g as int) == 0) by {
            assert(0int % (g as int) == 0) by {
                vstd::arithmetic::div_mod::lemma_small_mod(0, g);
            }
            lemma_divides_add_mul(g as int, m as int, 0, -q);
            assert((-q) * (m as int) + 0 == (-q) * (m as int));
        }
        lemma_divides_add_mul(g as int, a as int, (-q) * (m as int), i);
        assert(1int % (g as int) == 0);
        if g >= 2 {
            vstd::arithmetic::div_mod::lemma_small_mod(1, g);
            assert(false);
        }
    }
}

/// `i` is a multiplicative inverse of `a` modulo `m`.
pub open spec fn spec_is_inverse(a: int, i: int, m: int) -> bool {
    1 <= i < m && (a * i) % m == 1
}

/// The multiplicative inverse of `a` modulo `m`, as a value: meaningful
/// whenever one exists, in which case every inverse equals it.
pub open spec fn spec_inverse_of(a: u64, m: u64) -> int {
    choose|i: int| spec_is_inverse(a as int, i, m as int)
}

/// Additive inverse modulo `m`.
pub fn neg_mod(a: u64, m: u64) -> (r: u64)
    requires
        m >= 1,
    ensures
        r < m,
        r as int == (-(a as int)) % (m as int),
{
    let am = a % m;
    proof {
        lemma_fundamental_div_mod(a as int, m as int);
        let q = (a as int) / (m as int);
        if am == 0 {
            assert(-(a as int) == (m as int) * (-q) + 0) by (nonlinear_arith)
                requires
                    a as int == (m as int) * q + (am as int),
                    am == 0,
            ;
            lemma_fundamental_div_mod_converse_mod(-(a as int), m as int, -q, 0);
        } else {
            assert(-(a as int) == (m as int) * (-q - 1) + ((m - am) as int)) by (nonlinear_arith)
                requires
                    a as int == (m as int) * q + (am as int),
            ;
            lemma_fundamental_div_mod_converse_mod(-(a as int), m as int, -q - 1, m - am);
        }
    }
    if am == 0 {
        0
    } else {
        m - am
    }
}

/// Modular difference.
pub fn sub_mod(a: u64, b: u64, m: u64) -> (r: u64)
    requires
        m >= 1,
    ensures
        r < m,
        r as int == ((a as int) - (b as int)) % (m as int),
{
    let bn = neg_mod(b, m);
    let wide = ((a % m) as u128 + bn as u128) % (m as u128);
    proof {
        vstd::arithmetic::div_mod::lemma_add_mod_noop(a as int, -(b as int), m as int);
    }
    wide as u64
}

/// Two inverses of one value modulo `m` are equal: `i2` pulled through
/// `s * i1 = 1` and back lands on `i1`.
pub proof fn lemma_inverse_unique(s: int, i1: int, i2: int, m: int)
    requires
        m >= 1,
        1 <= i1 < m,
        1 <= i2 < m,
        (s * i1) % m == 1,
        (s * i2) % m == 1,
    ensures
        i1 == i2,
{
    let x = (i1 * s) * i2;
    assert(x % m == i2) by {
        vstd::arithmetic::div_mod::lemma_mul_mod_noop_left(i1 * s, i2, m);
        assert((i1 * s) % m == 1) by {
            assert(i1 * s == s * i1) by (nonlinear_arith);
        }
        vstd::arithmetic::div_mod::lemma_small_mod(i2 as nat, m as nat);
        assert((1 * i2) % m == i2);
    }
    assert(x % m == i1) by {
        assert((i1 * s) * i2 == i1 * (s * i2)) by (nonlinear_arith);
        assert(x == i1 * (s * i2));
        vstd::arithmetic::div_mod::lemma_mul_mod_noop_right(i1, s * i2, m);
        vstd::arithmetic::div_mod::lemma_small_mod(i1 as nat, m as nat);
        assert((i1 * 1) % m == i1);
    }
}

/// Everything in `[1, p)` is coprime to a prime `p`.
pub proof fn lemma_prime_coprime(s: nat, p: nat)
    requires
        spec_is_prime(p as int),
        1 <= s < p,
    ensures
        spec_gcd(s, p) == 1,
{
    lemma_gcd_divides(s, p);
    let g = spec_gcd(s, p);
    if g >= 2 {
        // A divisor of the prime is 1 or the prime itself; a divisor of
        // `s` is at most `s`, which is below the prime.
        lemma_fundamental_div_mod(s as int, g as int);
        assert(g <= s) by (nonlinear_arith)
            requires
                s as int == (g as int) * ((s as int) / (g as int)) + 0,
                s >= 1,
                g >= 2,
                (s as int) / (g as int) >= 0,
        ;
        vstd::arithmetic::div_mod::lemma_div_pos_is_pos(s as int, g as int);
        assert((p as int) % (g as int) != 0);
        assert(false);
    }
}

/// Modulo a prime, every nonzero residue has an inverse.
pub proof fn lemma_prime_inverse_exists(s: u64, q: u64)
    requires
        spec_is_prime(q as int),
        1 <= s < q,
    ensures
        exists|i: int| #[trigger] spec_is_inverse(s as int, i, q as int),
{
    lemma_prime_coprime(s as nat, q as nat);
    lemma_inverse_iff_coprime(s as nat, q as nat);
    let i = choose|i: int| 1 <= i < q && #[trigger] (((s as nat) * i) % (q as int)) == 1;
    assert(spec_is_inverse(s as int, i, q as int));
}

/// Raising a reduced power to a further exponent agrees with raising the
/// base to the product of the exponents: the compositional half of
/// round-tripping a message through modular exponentiation.
pub proof fn lemma_power_mod_compose(m: nat, e: nat, d: nat, n: nat)
    requires
        n >= 1,
    ensures
        pow(pow(m as int, e) % (n as int), d) % (n as int) == pow(m as int, e * d) % (n as int),
{
    lemma_pow_mod_noop(pow(m as int, e), d, n as int);
    lemma_pow_multiplies(m as int, e, d);
}

} // verus!
