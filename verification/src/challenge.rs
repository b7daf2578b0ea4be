//! One challenge type for all protocols: a tagged payload, the
//! answer-checking relation, and the public projection that hides every
//! solution field.

use vstd::prelude::*;
use vstd::arithmetic::power::pow;
use crate::caesar::{
    bytes_eq, decrypt, decrypt_spec, encrypt, encrypt_spec, generate_key, generate_message,
    is_uppercase, MAX_KEY,
};
use crate::dh::{check_shared_secret, dh_wf, pk_server, DhParams};
use crate::dss::{
    check_dss_sign, check_dss_verify, dss_verify_wf, dss_wf, spec_dss_accepts, spec_dss_u,
    spec_dss_v, spec_dss_w, Digest, DssParams, DssVerifyParams,
};
use crate::math::{spec_inverse_of, spec_is_inverse};
use crate::rsa::{
    check_rsa_decrypt, check_rsa_encrypt, rsa_decrypt_wf, rsa_wf, RsaDecryptParams, RsaParams,
};

verus! {

/// Protocol-specific parameters of one challenge. Optional fields start
/// empty and are filled with the accepted answer on completion.
#[derive(Debug)]
pub enum Payload {
    CaesarEncryption { key: u8, message: Vec<u8>, cipher: Option<Vec<u8>> },
    CaesarDecryption { key: u8, cipher: Vec<u8>, message: Option<Vec<u8>> },
    CaesarAttack { key: Option<u8>, message: Vec<u8>, cipher: Vec<u8> },
    DiffieHellman(DhParams),
    RsaEncrypt(RsaParams),
    RsaDecrypt(RsaDecryptParams),
    DssSign(DssParams),
    DssVerify(DssVerifyParams),
}

/// A submitted answer, one shape per protocol.
#[derive(Debug)]
pub enum Answer {
    Cipher(Vec<u8>),
    Message(Vec<u8>),
    Key(u8),
    SharedSecret { pk_user: u64, k: u64 },
    RsaCipher(u64),
    RsaMessage(u64),
    Signature { pk: u64, r: u64, s: u64 },
    Intermediates { u: u64, v: u64, w: u64 },
}

/// Why an answer could not be accepted as a completion.
#[derive(Clone, Copy, Debug, PartialEq, Eq, Structural)]
pub enum CheckError {
    /// The answer's shape does not belong to the challenge's protocol.
    KindMismatch,
    /// A value that the verification equation must invert has no inverse.
    NotInvertible,
}

/// The generation invariant each payload carries; filled answer fields
/// only ever hold the correct solution.
pub open spec fn payload_wf(p: Payload) -> bool {
    match p {
        Payload::CaesarEncryption { key, message, cipher } => {
            &&& key < 26
            &&& is_uppercase(message@)
            &&& match cipher {
                Some(c) => c@ == encrypt_spec(message@, key),
                None => true,
            }
        },
        Payload::CaesarDecryption { key, cipher, message } => {
            &&& key < 26
            &&& is_uppercase(cipher@)
            &&& match message {
                Some(m) => m@ == decrypt_spec(cipher@, key),
                None => true,
            }
        },
        Payload::CaesarAttack { key, message, cipher } => {
            &&& is_uppercase(message@)
            &&& is_uppercase(cipher@)
            &&& exists|k0: u8| k0 < 26 && cipher@ == encrypt_spec(message@, k0)
            &&& match key {
                Some(k) => encrypt_spec(message@, k) == cipher@,
                None => true,
            }
        },
        Payload::DiffieHellman(d) => dh_wf(d),
        Payload::RsaEncrypt(r) => rsa_wf(r),
        Payload::RsaDecrypt(r) => rsa_decrypt_wf(r),
        Payload::DssSign(s) => dss_wf(s),
        Payload::DssVerify(v) => dss_verify_wf(v),
    }
}

/// The answer-checking relation: `Ok(true)` accepts, `Ok(false)` rejects
/// and leaves the challenge open, `Err` reports a fault.
pub open spec fn spec_check(p: Payload, a: Answer) -> Result<bool, CheckError> {
    match (p, a) {
        (Payload::CaesarEncryption { key, message, .. }, Answer::Cipher(c)) => Ok(
            c@ == encrypt_spec(message@, key),
        ),
        (Payload::CaesarDecryption { key, cipher, .. }, Answer::Message(m)) => Ok(
            m@ == decrypt_spec(cipher@, key),
        ),
        (Payload::CaesarAttack { message, cipher, .. }, Answer::Key(k)) => Ok(
            encrypt_spec(message@, k) == cipher@,
        ),
        (Payload::DiffieHellman(d), Answer::SharedSecret { pk_user, k }) => Ok(
            k as int == pow(pk_user as int, d.sk_server as nat) % (d.n as int),
        ),
        (Payload::RsaEncrypt(r), Answer::RsaCipher(c)) => Ok(
            c as int == pow(r.m as int, r.e as nat) % (r.p * r.q) as int,
        ),
        (Payload::RsaDecrypt(r), Answer::RsaMessage(m)) => Ok(
            m as int == pow(r.c as int, r.d as nat) % (r.p * r.q) as int,
        ),
        (Payload::DssSign(sp), Answer::Signature { pk, r, s }) => if pk >= sp.p || r >= sp.q || s
            >= sp.q {
            Ok(false)
        } else if !(exists|si: int| spec_is_inverse(s as int, si, sp.q as int)) {
            Err(CheckError::NotInvertible)
        } else {
            Ok(spec_dss_accepts(sp, pk, r, s, spec_inverse_of(s, sp.q)))
        },
        (Payload::DssVerify(vp), Answer::Intermediates { u, v, w }) => {
            let si = spec_inverse_of(vp.sig.s, vp.params.q);
            Ok(u as int == spec_dss_u(vp.params, si) && v as int == spec_dss_v(vp.params, vp.sig.r, si)
                && w as int == spec_dss_w(vp.params, vp.sig.pk, u, v) && spec_dss_w(
                vp.params,
                vp.sig.pk,
                u,
                v,
            ) == vp.sig.r as int)
        },
        _ => Err(CheckError::KindMismatch),
    }
}

/// Recompute the expected value for the challenge's protocol and compare
/// it with the submitted answer.
pub fn check_answer(payload: &Payload, answer: &Answer) -> (res: Result<bool, CheckError>)
    requires
        payload_wf(*payload),
    ensures
        res == spec_check(*payload, *answer),
{
    match (payload, answer) {
        (Payload::CaesarEncryption { key, message, .. }, Answer::Cipher(c)) => {
            let expected = encrypt(message, *key);
            Ok(bytes_eq(&expected, c))
        },
        (Payload::CaesarDecryption { key, cipher, .. }, Answer::Message(m)) => {
            let expected = decrypt(cipher, *key);
            Ok(bytes_eq(&expected, m))
        },
        (Payload::CaesarAttack { message, cipher, .. }, Answer::Key(k)) => {
            let expected = encrypt(message, *k);
            Ok(bytes_eq(&expected, cipher))
        },
        (Payload::DiffieHellman(d), Answer::SharedSecret { pk_user, k }) => Ok(
            check_shared_secret(d, *pk_user, *k),
        ),
        (Payload::RsaEncrypt(r), Answer::RsaCipher(c)) => Ok(check_rsa_encrypt(r, *c)),
        (Payload::RsaDecrypt(r), Answer::RsaMessage(m)) => Ok(check_rsa_decrypt(r, *m)),
        (Payload::DssSign(sp), Answer::Signature { pk, r, s }) => {
            match check_dss_sign(sp, *pk, *r, *s) {
                Ok(b) => Ok(b),
                Err(_) => Err(CheckError::NotInvertible),
            }
        },
        (Payload::DssVerify(vp), Answer::Intermediates { u, v, w }) => {
            let b = check_dss_verify(vp, *u, *v, *w);
            Ok(b)
        },
        _ => Err(CheckError::KindMismatch),
    }
}


/// The answer fields a completion fills in: the accepted cipher, message
/// or key is recorded on the challenge.
pub open spec fn spec_fill(p: Payload, a: Answer) -> Payload {
    match (p, a) {
        (Payload::CaesarEncryption { key, message, .. }, Answer::Cipher(c)) => {
            Payload::CaesarEncryption { key, message, cipher: Some(c) }
        },
        (Payload::CaesarDecryption { key, cipher, .. }, Answer::Message(m)) => {
            Payload::CaesarDecryption { key, cipher, message: Some(m) }
        },
        (Payload::CaesarAttack { message, cipher, .. }, Answer::Key(k)) => {
            Payload::CaesarAttack { key: Some(k), message, cipher }
        },
        (p, _) => p,
    }
}

/// Record an accepted answer on the payload.
pub fn fill_answer(p: Payload, a: Answer) -> (res: Payload)
    ensures
        res == spec_fill(p, a),
{
    match (p, a) {
        (Payload::CaesarEncryption { key, message, .. }, Answer::Cipher(c)) => {
            Payload::CaesarEncryption { key, message, cipher: Some(c) }
        },
        (Payload::CaesarDecryption { key, cipher, .. }, Answer::Message(m)) => {
            Payload::CaesarDecryption { key, cipher, message: Some(m) }
        },
        (Payload::CaesarAttack { message, cipher, .. }, Answer::Key(k)) => {
            Payload::CaesarAttack { key: Some(k), message, cipher }
        },
        (p, _) => p,
    }
}

/// An accepted answer keeps the payload well formed: the fields it fills
/// hold exactly the recomputed solution.
pub proof fn lemma_fill_preserves_wf(p: Payload, a: Answer)
    requires
        payload_wf(p),
        spec_check(p, a) == Ok::<bool, CheckError>(true),
    ensures
        payload_wf(spec_fill(p, a)),
{
}

/// One challenge instance: an owner, a protocol payload, and the two
/// timestamps of its lifecycle, in nanoseconds.
#[derive(Debug)]
pub struct Challenge {
    pub id: i32,
    pub user_id: i32,
    pub payload: Payload,
    pub created_at: u64,
    pub completed_at: Option<u64>,
}

/// A challenge is open until its completion timestamp is set.
pub open spec fn is_incomplete(c: Challenge) -> bool {
    c.completed_at is None
}

pub open spec fn challenge_wf(c: Challenge) -> bool {
    &&& payload_wf(c.payload)
    &&& match c.completed_at {
        Some(t) => c.created_at <= t,
        None => true,
    }
}

impl Challenge {
    /// How long a completed challenge took; `None` while it is open.
    pub fn completed_duration(&self) -> (res: Option<u64>)
        requires
            challenge_wf(*self),
        ensures
            match res {
                Some(d) => self.completed_at matches Some(t) && d == t - self.created_at,
                None => self.completed_at is None,
            },
    {
        match self.completed_at {
            Some(t) => Some(t - self.created_at),
            None => None,
        }
    }
}

/// What a challenge's owner is shown: every public parameter and never a
/// hidden solution field.
#[derive(Debug)]
pub enum PublicView {
    CaesarEncryption { key: u8, message: Vec<u8> },
    CaesarDecryption { key: u8, cipher: Vec<u8> },
    CaesarAttack { message: Vec<u8>, cipher: Vec<u8> },
    DiffieHellman { g: u64, n: u64, pk_server: u64 },
    RsaEncrypt { p: u64, q: u64, e: u64, d: u64, m: u64 },
    RsaDecrypt { p: u64, q: u64, e: u64, d: u64, c: u64 },
    DssSign { p: u64, q: u64, g: u64, h: Digest, m: u64 },
    DssVerify { p: u64, q: u64, g: u64, h: Digest, pk: u64, m: u64, r: u64, s: u64 },
}

/// The view shows exactly the payload's public fields; the server's
/// Diffie-Hellman public key is derived from the secret exponent.
pub open spec fn view_matches(view: PublicView, p: Payload) -> bool {
    match (p, view) {
        (
            Payload::CaesarEncryption { key, message, .. },
            PublicView::CaesarEncryption { key: vk, message: vm },
        ) => vk == key && vm@ == message@,
        (
            Payload::CaesarDecryption { key, cipher, .. },
            PublicView::CaesarDecryption { key: vk, cipher: vc },
        ) => vk == key && vc@ == cipher@,
        (
            Payload::CaesarAttack { message, cipher, .. },
            PublicView::CaesarAttack { message: vm, cipher: vc },
        ) => vm@ == message@ && vc@ == cipher@,
        (
            Payload::DiffieHellman(d),
            PublicView::DiffieHellman { g, n, pk_server: pks },
        ) => g == d.g && n == d.n && pks as int == pow(d.g as int, d.sk_server as nat) % (
        d.n as int),
        (
            Payload::RsaEncrypt(rp),
            PublicView::RsaEncrypt { p, q, e, d, m },
        ) => p == rp.p && q == rp.q && e == rp.e && d == rp.d && m == rp.m,
        (
            Payload::RsaDecrypt(rp),
            PublicView::RsaDecrypt { p, q, e, d, c },
        ) => p == rp.p && q == rp.q && e == rp.e && d == rp.d && c == rp.c,
        (
            Payload::DssSign(sp),
            PublicView::DssSign { p, q, g, h, m },
        ) => p == sp.p && q == sp.q && g == sp.g && h == sp.h && m == sp.m,
        (
            Payload::DssVerify(vp),
            PublicView::DssVerify { p, q, g, h, pk, m, r, s },
        ) => p == vp.params.p && q == vp.params.q && g == vp.params.g && h == vp.params.h && pk
            == vp.sig.pk && m == vp.params.m && r == vp.sig.r && s == vp.sig.s,
        _ => false,
    }
}

/// Build the public projection of a payload.
pub fn public_view(p: &Payload) -> (res: PublicView)
    requires
        payload_wf(*p),
    ensures
        view_matches(res, *p),
{
    match p {
        Payload::CaesarEncryption { key, message, .. } => {
            let vm = copy_bytes(message);
            PublicView::CaesarEncryption { key: *key, message: vm }
        },
        Payload::CaesarDecryption { key, cipher, .. } => {
            let vc = copy_bytes(cipher);
            PublicView::CaesarDecryption { key: *key, cipher: vc }
        },
        Payload::CaesarAttack { message, cipher, .. } => {
            let vm = copy_bytes(message);
            let vc = copy_bytes(cipher);
            PublicView::CaesarAttack { message: vm, cipher: vc }
        },
        Payload::DiffieHellman(d) => {
            let pks = pk_server(d);
            PublicView::DiffieHellman { g: d.g, n: d.n, pk_server: pks }
        },
        Payload::RsaEncrypt(rp) => {
            PublicView::RsaEncrypt { p: rp.p, q: rp.q, e: rp.e, d: rp.d, m: rp.m }
        },
        Payload::RsaDecrypt(rp) => {
            PublicView::RsaDecrypt { p: rp.p, q: rp.q, e: rp.e, d: rp.d, c: rp.c }
        },
        Payload::DssSign(sp) => {
            PublicView::DssSign { p: sp.p, q: sp.q, g: sp.g, h: sp.h, m: sp.m }
        },
        Payload::DssVerify(vp) => {
            PublicView::DssVerify {
                p: vp.params.p,
                q: vp.params.q,
                g: vp.params.g,
                h: vp.params.h,
                pk: vp.sig.pk,
                m: vp.params.m,
                r: vp.sig.r,
                s: vp.sig.s,
            }
        },
    }
}

/// An element-wise copy of a byte buffer.
fn copy_bytes(v: &Vec<u8>) -> (res: Vec<u8>)
    ensures
        res@ == v@,
{
    let mut out: Vec<u8> = Vec::new();
    let mut i: usize = 0;
    while i < v.len()
        invariant
            i <= v@.len(),
            out@ == v@.subrange(0, i as int),
        decreases v@.len() - i,
    {
        out.push(v[i]);
        proof {
            assert(out@ =~= v@.subrange(0, i + 1));
        }
        i += 1;
    }
    proof {
        assert(out@ =~= v@);
    }
    out
}

/// A fresh Caesar encryption exercise: random key, random uppercase
/// message, cipher left for the user to produce.
pub fn generate_caesar_encryption(message_size: usize) -> (res: Payload)
    ensures
        payload_wf(res),
        res matches Payload::CaesarEncryption { key, message, cipher } && crate::caesar::MIN_KEY
            <= key <= MAX_KEY && message@.len() == message_size && cipher is None,
{
    let key = generate_key();
    let message = generate_message(message_size);
    Payload::CaesarEncryption { key, message, cipher: None }
}

/// A fresh Caesar decryption exercise: random key and random uppercase
/// cipher, plaintext left for the user to produce.
pub fn generate_caesar_decryption(cipher_size: usize) -> (res: Payload)
    ensures
        payload_wf(res),
        res matches Payload::CaesarDecryption { key, cipher, message } && crate::caesar::MIN_KEY
            <= key <= MAX_KEY && cipher@.len() == cipher_size && message is None,
{
    let key = generate_key();
    let cipher = generate_message(cipher_size);
    Payload::CaesarDecryption { key, cipher, message: None }
}

/// A fresh Caesar attack exercise: both the message and its cipher are
/// shown, the key is hidden until the user recovers it.
pub fn generate_caesar_attack(message_size: usize) -> (res: Payload)
    ensures
        payload_wf(res),
        res matches Payload::CaesarAttack { key, message, cipher } && key is None
            && message@.len() == message_size && (exists|k0: u8|
            crate::caesar::MIN_KEY <= k0 <= MAX_KEY && cipher@ == encrypt_spec(message@, k0)),
{
    let key = generate_key();
    let message = generate_message(message_size);
    let cipher = encrypt(&message, key);
    proof {
        assert(crate::caesar::MIN_KEY <= key <= MAX_KEY && cipher@ == encrypt_spec(
            message@,
            key,
        ));
    }
    Payload::CaesarAttack { key: None, message, cipher }
}

} // verus!
