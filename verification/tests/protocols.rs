use crypto_trainer::caesar::{decrypt, encrypt, generate_key, generate_message};
use crypto_trainer::challenge::{
    check_answer, generate_caesar_attack, generate_caesar_decryption, generate_caesar_encryption,
    public_view, Answer, CheckError, Payload, PublicView,
};
use crypto_trainer::dh::{check_shared_secret, generate_dh, pk_server};
use crypto_trainer::dss::{check_dss_sign, check_dss_verify, digest, generate_dss,
    generate_dss_verify, sign, Digest, DssParams};
use crypto_trainer::math::power_mod;
use crypto_trainer::primes::{primes_in_range, random_prime_in_range};
use crypto_trainer::rsa::{
    check_rsa_decrypt, check_rsa_encrypt, generate_rsa_decrypt, generate_rsa_encrypt,
};

#[test]
fn caesar_round_trips_for_every_key() {
    let message = b"ATTACKATDAWN".to_vec();
    for key in 0u8..=25 {
        let cipher = encrypt(&message, key);
        assert_eq!(message, decrypt(&cipher, key));
    }
}

#[test]
fn caesar_cipher_matches_known_shift() {
    let message = b"HELLO".to_vec();
    assert_eq!(encrypt(&message, 3), b"KHOOR".to_vec());
    assert_eq!(decrypt(&b"KHOOR".to_vec(), 3), message);
}

#[test]
fn caesar_generators_produce_solvable_challenges() {
    let key = generate_key();
    assert!((8..=18).contains(&key));
    let message = generate_message(10);
    assert_eq!(message.len(), 10);
    assert!(message.iter().all(|c| (65..=90).contains(c)));

    let payload = generate_caesar_encryption(6);
    match &payload {
        Payload::CaesarEncryption { key, message, cipher } => {
            assert!(cipher.is_none());
            let right = Answer::Cipher(encrypt(message, *key));
            assert_eq!(check_answer(&payload, &right), Ok(true));
            let wrong = Answer::Cipher(encrypt(message, (*key + 1) % 26));
            assert_eq!(check_answer(&payload, &wrong), Ok(false));
        },
        _ => panic!("wrong payload kind"),
    }

    let payload = generate_caesar_decryption(6);
    match &payload {
        Payload::CaesarDecryption { key, cipher, .. } => {
            let right = Answer::Message(decrypt(cipher, *key));
            assert_eq!(check_answer(&payload, &right), Ok(true));
        },
        _ => panic!("wrong payload kind"),
    }

    let payload = generate_caesar_attack(6);
    match &payload {
        Payload::CaesarAttack { message, cipher, .. } => {
            let mut solved = None;
            for key in 0u8..=25 {
                if &encrypt(message, key) == cipher {
                    solved = Some(key);
                    break;
                }
            }
            let key = solved.expect("attack challenge must be solvable");
            assert!((8..=18).contains(&key));
            assert_eq!(check_answer(&payload, &Answer::Key(key)), Ok(true));
            assert_eq!(check_answer(&payload, &Answer::Key((key + 1) % 26)), Ok(false));
        },
        _ => panic!("wrong payload kind"),
    }
}

#[test]
fn mismatched_answer_kinds_are_refused() {
    let payload = generate_caesar_encryption(4);
    assert_eq!(check_answer(&payload, &Answer::Key(3)), Err(CheckError::KindMismatch));
    assert_eq!(
        check_answer(&payload, &Answer::RsaCipher(5)),
        Err(CheckError::KindMismatch)
    );
}

#[test]
fn sieve_lists_exactly_the_primes_in_range() {
    assert_eq!(primes_in_range(10, 30), vec![11, 13, 17, 19, 23, 29]);
    assert_eq!(primes_in_range(0, 10), vec![2, 3, 5, 7]);
    assert!(primes_in_range(24, 28).is_empty());
    assert!(random_prime_in_range(24, 28).is_none());
    let p = random_prime_in_range(10, 30).unwrap();
    assert!(primes_in_range(10, 30).contains(&p));
}

#[test]
fn diffie_hellman_exchange_agrees_on_the_secret() {
    let d = generate_dh(50, 200).expect("a prime with a generator exists in range");
    let pks = pk_server(&d);
    let sk_user = 7u64;
    let pk_user = power_mod(d.g, sk_user, d.n);
    let shared = power_mod(pks, sk_user, d.n);
    assert!(check_shared_secret(&d, pk_user, shared));
    assert!(!check_shared_secret(&d, pk_user, (shared + 1) % d.n));

    let view = public_view(&Payload::DiffieHellman(d));
    match view {
        PublicView::DiffieHellman { pk_server: shown, .. } => assert_eq!(shown, pks),
        _ => panic!("wrong view kind"),
    }
}

#[test]
fn rsa_challenges_round_trip_and_verify() {
    let params = generate_rsa_encrypt(100, 500).expect("generation succeeds");
    let n = params.p * params.q;
    let totient = (params.p - 1) * (params.q - 1);
    assert_eq!(params.e * params.d % totient, 1);
    let c = power_mod(params.m, params.e, n);
    assert!(check_rsa_encrypt(&params, c));
    assert!(!check_rsa_encrypt(&params, (c + 1) % n));
    // Decrypting the cipher with d returns the message.
    assert_eq!(params.m, power_mod(c, params.d, n));

    let dec = generate_rsa_decrypt(100, 500).expect("generation succeeds");
    let n2 = dec.p * dec.q;
    let m = power_mod(dec.c, dec.d, n2);
    assert!(check_rsa_decrypt(&dec, m));
    assert!(!check_rsa_decrypt(&dec, (m + 1) % n2));
}

#[test]
fn dss_digest_selectors_scale_the_message() {
    assert_eq!(digest(Digest::M, 15, 7), 1);
    assert_eq!(digest(Digest::TwoM, 15, 7), 2);
    assert_eq!(digest(Digest::ThreeM, 15, 7), 3);
}

#[test]
fn dss_reference_signature_verifies_and_mutations_reject() {
    // A fixed instance with a large subgroup, so that no mutated value
    // collides back onto the verification equation.
    let params = DssParams { p: 1019, q: 509, g: 3, h: Digest::M, m: 512 };
    let sig = sign(&params, 7, 5).expect("this nonce gives a full signature");
    assert_eq!(sig.r, 243);
    assert_eq!(sig.s, 373);
    assert_eq!(check_dss_sign(&params, sig.pk, sig.r, sig.s), Ok(true));

    assert_ne!(check_dss_sign(&params, sig.pk, sig.r + 1, sig.s), Ok(true));
    assert_ne!(check_dss_sign(&params, sig.pk, sig.r, sig.s + 1), Ok(true));
    assert_ne!(check_dss_sign(&params, sig.pk + 1, sig.r, sig.s), Ok(true));

    // Out-of-range submissions are rejected outright.
    assert_eq!(check_dss_sign(&params, params.p, sig.r, sig.s), Ok(false));
    assert_eq!(check_dss_sign(&params, sig.pk, params.q, sig.s), Ok(false));
}

#[test]
fn dss_generated_parameters_yield_valid_signatures() {
    for _ in 0..50 {
        let params = match generate_dss(100, 1000) {
            Some(p) => p,
            None => continue,
        };
        for k in 1..params.q.min(20) {
            for sk in 1..params.q.min(20) {
                if let Some(sig) = sign(&params, sk, k) {
                    // An untampered reference signature always verifies.
                    assert_eq!(check_dss_sign(&params, sig.pk, sig.r, sig.s), Ok(true));
                    return;
                }
            }
        }
    }
    panic!("no signable instance found");
}

#[test]
fn dss_verify_challenge_accepts_the_recomputed_triple() {
    let mut found = None;
    for _ in 0..50 {
        if let Some(v) = generate_dss_verify(100, 1000) {
            found = Some(v);
            break;
        }
    }
    let vp = found.expect("generation succeeds");
    // Recompute the verifier's intermediates the way a student would.
    let iv = crypto_trainer::dss::dss_intermediates(&vp.params, vp.sig.pk, vp.sig.r, vp.sig.s)
        .expect("the signature's s is invertible");
    assert!(check_dss_verify(&vp, iv.u, iv.v, iv.w));
    assert!(!check_dss_verify(&vp, iv.u + 1, iv.v, iv.w));
    assert!(!check_dss_verify(&vp, iv.u, iv.v + 1, iv.w));
    assert!(!check_dss_verify(&vp, iv.u, iv.v, iv.w + 1));
    assert_eq!(iv.w, vp.sig.r);
}
