//! Caesar cipher over uppercase ASCII: letter-wise shifting, its inverse,
//! and the random parameters the three Caesar exercises start from.

use vstd::prelude::*;
use crate::rng::random_in_range;

verus! {

/// Smallest and largest shift key the generator draws.
pub const MIN_KEY: u8 = 8;

pub const MAX_KEY: u8 = 18;

/// Every byte is an uppercase ASCII letter.
pub open spec fn is_uppercase(s: Seq<u8>) -> bool {
    forall|k: int| 0 <= k < s.len() ==> 65 <= #[trigger] s[k] <= 90
}

/// One letter shifted forward by `key` places around the alphabet.
pub open spec fn shift_letter(c: u8, key: u8) -> u8 {
    ((((c - 65) + (key % 26)) % 26) + 65) as u8
}

/// One letter shifted backward by `key` places around the alphabet.
pub open spec fn unshift_letter(c: u8, key: u8) -> u8 {
    ((((c - 65) - (key % 26)) % 26) + 65) as u8
}

pub open spec fn encrypt_spec(s: Seq<u8>, key: u8) -> Seq<u8> {
    Seq::new(s.len(), |i: int| shift_letter(s[i], key))
}

pub open spec fn decrypt_spec(s: Seq<u8>, key: u8) -> Seq<u8> {
    Seq::new(s.len(), |i: int| unshift_letter(s[i], key))
}

/// Letter-wise forward shift of an uppercase message.
pub fn encrypt(message: &Vec<u8>, key: u8) -> (r: Vec<u8>)
    requires
        is_uppercase(message@),
    ensures
        r@ == encrypt_spec(message@, key),
        is_uppercase(r@),
        r@.len() == message@.len(),
{
    let mut out: Vec<u8> = Vec::new();
    let mut i: usize = 0;
    while i < message.len()
        invariant
            is_uppercase(message@),
            i <= message@.len(),
            out@.len() == i,
            forall|j: int| 0 <= j < i ==> out@[j] == shift_letter(message@[j], key),
        decreases message@.len() - i,
    {
        let c = message[i];
        out.push((c - 65 + key % 26) % 26 + 65);
        i += 1;
    }
    proof {
        assert(out@ =~= encrypt_spec(message@, key));
        assert forall|k: int| 0 <= k < out@.len() implies 65 <= #[trigger] out@[k] <= 90 by {
            assert(out@[k] == shift_letter(message@[k], key));
        }
    }
    out
}

/// Letter-wise backward shift of an uppercase cipher.
pub fn decrypt(cipher: &Vec<u8>, key: u8) -> (r: Vec<u8>)
    requires
        is_uppercase(cipher@),
    ensures
        r@ == decrypt_spec(cipher@, key),
        is_uppercase(r@),
        r@.len() == cipher@.len(),
{
    let mut out: Vec<u8> = Vec::new();
    let mut i: usize = 0;
    while i < cipher.len()
        invariant
            is_uppercase(cipher@),
            i <= cipher@.len(),
            out@.len() == i,
            forall|j: int| 0 <= j < i ==> out@[j] == unshift_letter(cipher@[j], key),
        decreases cipher@.len() - i,
    {
        let c = cipher[i];
        let shifted = (c - 65 + 26 - key % 26) % 26 + 65;
        proof {
            lemma_unshift_exec(c, key);
        }
        out.push(shifted);
        i += 1;
    }
    proof {
        assert(out@ =~= decrypt_spec(cipher@, key));
        assert forall|k: int| 0 <= k < out@.len() implies 65 <= #[trigger] out@[k] <= 90 by {
            assert(out@[k] == unshift_letter(cipher@[k], key));
        }
    }
    out
}

/// Adding a full alphabet before subtracting leaves the backward shift
/// unchanged, which lets the executable code stay in unsigned arithmetic.
proof fn lemma_unshift_exec(c: u8, key: u8)
    requires
        65 <= c <= 90,
    ensures
        ((c - 65 + 26 - key % 26) % 26 + 65) as u8 == unshift_letter(c, key),
{
    let x = c - 65;
    let k = (key % 26) as int;
    vstd::arithmetic::div_mod::lemma_mod_add_multiples_vanish(x - k, 26);
    assert((x + 26 - k) % 26 == (x - k) % 26);
}

/// Ciphering and then deciphering with one key returns the message.
pub proof fn lemma_caesar_round_trip(s: Seq<u8>, key: u8)
    requires
        key <= 25,
        is_uppercase(s),
    ensures
        decrypt_spec(encrypt_spec(s, key), key) == s,
{
    assert forall|i: int| 0 <= i < s.len() implies unshift_letter(
        shift_letter(s[i], key),
        key,
    ) == s[i] by {
        lemma_shift_unshift(s[i], key);
    }
    assert(decrypt_spec(encrypt_spec(s, key), key) =~= s);
}

proof fn lemma_shift_unshift(c: u8, key: u8)
    requires
        65 <= c <= 90,
    ensures
        unshift_letter(shift_letter(c, key), key) == c,
{
    let x = c - 65;
    let k = (key % 26) as int;
    let e = shift_letter(c, key);
    vstd::arithmetic::div_mod::lemma_mod_bound(x + k, 26);
    assert(e - 65 == (x + k) % 26);
    vstd::arithmetic::div_mod::lemma_sub_mod_noop(x + k, k, 26);
    assert((((x + k) % 26) - (k % 26)) % 26 == ((x + k) - k) % 26);
    vstd::arithmetic::div_mod::lemma_small_mod(k as nat, 26);
    vstd::arithmetic::div_mod::lemma_small_mod(x as nat, 26);
    assert((x + k - k) % 26 == x);
}

/// A shift key for a fresh Caesar exercise, drawn from `[8, 18]`.
pub fn generate_key() -> (r: u8)
    ensures
        MIN_KEY <= r <= MAX_KEY,
{
    random_in_range(MIN_KEY as u64, MAX_KEY as u64) as u8
}

/// A random uppercase message of the requested length.
pub fn generate_message(len: usize) -> (r: Vec<u8>)
    ensures
        r@.len() == len,
        is_uppercase(r@),
{
    let mut out: Vec<u8> = Vec::new();
    let mut i: usize = 0;
    while i < len
        invariant
            i <= len,
            out@.len() == i,
            is_uppercase(out@),
        decreases len - i,
    {
        let c = random_in_range(65, 90) as u8;
        out.push(c);
        i += 1;
    }
    out
}

/// Byte-for-byte equality of two buffers.
pub fn bytes_eq(a: &Vec<u8>, b: &Vec<u8>) -> (r: bool)
    ensures
        r == (a@ == b@),
{
    if a.len() != b.len() {
        proof {
            assert(a@ != b@);
        }
        return false;
    }
    let mut i: usize = 0;
    while i < a.len()
        invariant
            a@.len() == b@.len(),
            i <= a@.len(),
            forall|j: int| 0 <= j < i ==> a@[j] == b@[j],
        decreases a@.len() - i,
    {
        if a[i] != b[i] {
            proof {
                assert(a@[i as int] != b@[i as int]);
            }
            return false;
        }
        i += 1;
    }
    proof {
        assert(a@ =~= b@);
    }
    true
}

} // verus!
