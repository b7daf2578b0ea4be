use crypto_trainer::math::{
    gcd, inverse_mod, is_prime, mul_mod, neg_mod, order, power_mod, prime_factors, primitive,
    safe_mod, sub_mod,
};

#[test]
fn it_calculates_safe_mods() {
    assert_eq!(5, safe_mod(125, 20));
    assert_eq!(8, safe_mod(600, 37));
    assert_eq!(10, safe_mod(-523, 13));
}

#[test]
fn it_calculates_power_mods() {
    assert_eq!(101, power_mod(8, 20, 125));
    assert_eq!(12, power_mod(3, 5, 21));
    assert_eq!(68, power_mod(18, 325, 500));
}

#[test]
fn it_checks_prime_numbers() {
    assert!(is_prime(5));
    assert!(is_prime(1543));
    assert!(is_prime(7477));
    assert!(!is_prime(125));
    assert!(!is_prime(620));
}

#[test]
fn it_finds_prime_factors() {
    assert_eq!(vec![2, 2, 5, 5, 5], prime_factors(500));
    assert_eq!(vec![3, 41], prime_factors(123));
    assert_eq!(vec![7, 103], prime_factors(721));
    assert_eq!(vec![1543], prime_factors(1543));
}

#[test]
fn it_finds_primitives() {
    assert_eq!(Some(2), primitive(5));
    assert_eq!(Some(5), primitive(1543));
    assert_eq!(Some(2), primitive(7477));
    assert_eq!(None, primitive(125));
    assert_eq!(None, primitive(620));
}

#[test]
fn it_finds_gcds() {
    assert_eq!(5, gcd(20, 125));
    assert_eq!(25, gcd(600, 325));
    assert_eq!(1, gcd(27, 1543));
}

#[test]
fn it_finds_inverse_mods() {
    assert_eq!(Some(4), inverse_mod(16, 7));
    assert_eq!(Some(13), inverse_mod(225, 17));
    assert_eq!(Some(10), inverse_mod(1543, 37));
}

#[test]
fn it_calculates_orders() {
    assert_eq!(Some(3), order(16, 7));
    assert_eq!(Some(4), order(225, 17));
    assert_eq!(Some(3), order(1543, 37));
}

#[test]
fn safe_mod_is_a_true_euclidean_remainder() {
    for a in [-1000i64, -523, -26, -1, 0, 1, 25, 523, 1000] {
        for m in [1u64, 2, 13, 26, 1000] {
            let r = safe_mod(a, m);
            assert!(r < m);
            let diff = a - r as i64;
            assert_eq!(diff % m as i64, 0);
        }
    }
}

#[test]
fn is_prime_agrees_with_trial_division_up_to_ten_thousand() {
    for n in 0u64..=10_000 {
        let mut by_trial = n >= 2;
        let mut d = 2u64;
        while d < n {
            if n % d == 0 {
                by_trial = false;
                break;
            }
            d += 1;
        }
        assert_eq!(by_trial, is_prime(n), "disagreement at {n}");
    }
}

#[test]
fn prime_factor_products_rebuild_the_number() {
    assert!(prime_factors(0).is_empty());
    assert!(prime_factors(1).is_empty());
    for n in 2u64..=2_000 {
        let factors = prime_factors(n);
        let product: u64 = factors.iter().product();
        assert_eq!(product, n);
        for window in factors.windows(2) {
            assert!(window[0] <= window[1]);
        }
        for f in &factors {
            assert!(is_prime(*f));
        }
    }
}

#[test]
fn inverses_exist_exactly_for_coprime_pairs() {
    for a in 0u64..60 {
        for m in 2u64..40 {
            match inverse_mod(a, m) {
                Some(i) => {
                    assert_eq!(gcd(a, m), 1);
                    assert_eq!(a * i % m, 1);
                    assert!(1 <= i && i < m);
                },
                None => {
                    assert_ne!(gcd(a, m), 1);
                },
            }
        }
    }
}

#[test]
fn rsa_exponent_pair_round_trips_a_message() {
    let (p, q) = (61u64, 53u64);
    let n = p * q;
    let totient = (p - 1) * (q - 1);
    let (e, d) = (17u64, 2753u64);
    assert_eq!(e * d % totient, 1);
    for m in [1u64, 2, 65, 1234, n - 1] {
        assert_eq!(m, power_mod(power_mod(m, e, n), d, n));
    }
}

#[test]
fn modular_helpers_reduce_correctly() {
    assert_eq!(mul_mod(7, 8, 5), 1);
    assert_eq!(mul_mod(u64::MAX, u64::MAX, 10), 5);
    assert_eq!(sub_mod(3, 7, 10), 6);
    assert_eq!(sub_mod(7, 3, 10), 4);
    assert_eq!(neg_mod(3, 10), 7);
    assert_eq!(neg_mod(20, 10), 0);
}

#[test]
fn primitive_roots_generate_the_whole_group() {
    let p = 23u64;
    let g = primitive(p).unwrap();
    assert_eq!(order(g, p), Some(p - 1));
    for smaller in 2..g {
        assert_ne!(order(smaller, p), Some(p - 1));
    }
}
