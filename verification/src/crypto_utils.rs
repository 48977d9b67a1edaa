//! Cryptographic primitives: hashing, salted-hash derivation, and
//! cryptographically secure random byte and text generation.
//!
//! All randomness comes from the operating system's entropy pool through
//! `rand::rngs::OsRng`; none of these primitives may ever be backed by a
//! non-cryptographic generator.

use rand::rngs::OsRng;
use rand::Rng;
use rand::RngCore;
use sha2::Digest;
use sha2::Sha256;
use vstd::prelude::*;
use vstd::string::*;
use vstd::utf8::decode_utf8;
use vstd::utf8::valid_utf8;
use zeroize::Zeroize;

verus! {

/// Salt and nonce material that accompanies a ciphertext.
#[derive(Clone, Debug)]
pub struct CryptographyData {
    pub salt: Vec<u8>,
    pub nonce: Vec<u8>,
}

/// The SHA-256 digest of a byte sequence.  The digest is a fixed function of
/// the input bytes alone; nothing further is assumed of its value.
pub uninterp spec fn sha256_of(input: Seq<u8>) -> Seq<u8>;

/// Relies on sha2's `Digest::digest` for `Sha256`: a deterministic 32-byte
/// digest of the input bytes.
#[verifier::external_body]
fn sha256_digest(input: &[u8]) -> (r: Vec<u8>)
    ensures
        r@ == sha256_of(input@),
        r@.len() == 32,
{
    Sha256::digest(input).to_vec()
}

/// SHA-256 digest of the UTF-8 bytes of `input`.
pub fn hash(input: &str) -> (r: Vec<u8>)
    ensures
        r@ == sha256_of(input.spec_bytes()),
        r@.len() == 32,
{
    sha256_digest(input.as_bytes())
}

/// The concatenation of a secret and its salt: the preimage that the
/// passphrase verifier is the digest of.
pub fn salt_secret(secret: &[u8], salt: &[u8]) -> (r: Vec<u8>)
    ensures
        r@ == secret@ + salt@,
{
    let mut out: Vec<u8> = Vec::new();
    let mut i: usize = 0;
    while i < secret.len()
        invariant
            0 <= i <= secret@.len(),
            out@ == secret@.subrange(0, i as int),
        decreases secret@.len() - i,
    {
        out.push(secret[i]);
        i = i + 1;
        proof {
            assert(out@ =~= secret@.subrange(0, i as int));
        }
    }
    let mut j: usize = 0;
    while j < salt.len()
        invariant
            0 <= j <= salt@.len(),
            out@ == secret@ + salt@.subrange(0, j as int),
        decreases salt@.len() - j,
    {
        out.push(salt[j]);
        j = j + 1;
        proof {
            assert(out@ =~= secret@ + salt@.subrange(0, j as int));
        }
    }
    proof {
        assert(out@ =~= secret@ + salt@);
    }
    out
}

/// Salted hash: the SHA-256 digest of `secret ++ salt`, so that two vaults
/// with the same passphrase hold different verifiers.
pub fn hash_and_salt(secret: &[u8], salt: &[u8]) -> (r: Vec<u8>)
    ensures
        r@ == sha256_of(secret@ + salt@),
        r@.len() == 32,
{
    let concatenated = salt_secret(secret, salt);
    sha256_digest(concatenated.as_slice())
}

/// Relies on `RngCore::fill_bytes` of `rand::rngs::OsRng`: fills the buffer
/// in place with bytes from the OS entropy pool.  Nothing can be promised of
/// the bytes themselves.
#[verifier::external_body]
fn os_fill_random(buf: &mut Vec<u8>)
    ensures
        final(buf)@.len() == old(buf)@.len(),
{
    let mut rng = OsRng;
    rng.fill_bytes(buf.as_mut_slice());
}

/// A cryptographically secure random byte sequence of the requested length.
pub fn generate_salt(secret_length: usize) -> (r: Vec<u8>)
    ensures
        r@.len() == secret_length,
{
    let mut salt: Vec<u8> = Vec::new();
    while salt.len() < secret_length
        invariant
            salt@.len() <= secret_length,
        decreases secret_length - salt@.len(),
    {
        salt.push(0u8);
    }
    os_fill_random(&mut salt);
    salt
}

/// Relies on rand's `Rng::gen_range`: a byte drawn uniformly from the
/// half-open range 33..127, that is, the printable ASCII range.
#[verifier::external_body]
fn random_printable_byte() -> (b: u8)
    ensures
        33 <= b <= 126,
{
    let mut rng = OsRng;
    rng.gen_range(33_u8..127)
}

/// Relies on std's `String::from_utf8`: succeeds exactly on valid UTF-8 and
/// returns the string made of those bytes.
#[verifier::external_body]
pub(crate) fn bytes_to_string(v: Vec<u8>) -> (r: Option<String>)
    ensures
        r matches Some(s) ==> valid_utf8(v@) && s@ == decode_utf8(v@),
        r is None ==> !valid_utf8(v@),
{
    match String::from_utf8(v) {
        Ok(s) => Some(s),
        Err(_) => None,
    }
}

/// Bytes below 0x80 are one-byte UTF-8 scalars: such a sequence is valid
/// UTF-8 and decodes to the characters with the same code values.
pub proof fn lemma_ascii_decode(bytes: Seq<u8>)
    requires
        forall|i: int| 0 <= i < bytes.len() ==> bytes[i] < 0x80,
    ensures
        valid_utf8(bytes),
        decode_utf8(bytes).len() == bytes.len(),
        forall|i: int|
            0 <= i < bytes.len() ==> #[trigger] decode_utf8(bytes)[i] as u32 == bytes[i] as u32,
    decreases bytes.len(),
{
    if bytes.len() > 0 {
        let b = bytes[0];
        assert(b & 0x7f == b) by (bit_vector)
            requires
                b < 0x80,
        ;
        assert(vstd::utf8::pop_first_scalar(bytes) =~= bytes.drop_first());
        lemma_ascii_decode(bytes.drop_first());
    }
}

/// A string of the requested length whose characters are drawn uniformly
/// from the printable ASCII range 33..=126; used for password generation
/// only, never for key material.
pub fn random_text(len: usize) -> (r: String)
    ensures
        r@.len() == len,
        forall|i: int| 0 <= i < len ==> 33 <= #[trigger] (r@[i] as u32) <= 126,
{
    let mut bytes: Vec<u8> = Vec::new();
    while bytes.len() < len
        invariant
            bytes@.len() <= len,
            forall|i: int| 0 <= i < bytes@.len() ==> 33 <= #[trigger] bytes@[i] <= 126,
        decreases len - bytes@.len(),
    {
        bytes.push(random_printable_byte());
    }
    let ghost drawn = bytes@;
    proof {
        lemma_ascii_decode(drawn);
    }
    match bytes_to_string(bytes) {
        Some(s) => s,
        None => vstd::pervasive::unreached(),
    }
}

/// Relies on zeroize's `Zeroize` for `Vec<u8>`: overwrites every held byte
/// (and the spare capacity) with zeros, then clears the vector.
#[verifier::external_body]
pub(crate) fn zeroize_vec(v: &mut Vec<u8>)
    ensures
        final(v)@.len() == 0,
{
    v.zeroize();
}

/// Equality of two byte strings, accumulated over every byte with no early
/// exit on a mismatch, so that the comparison takes time independent of
/// where the inputs differ.
pub fn ct_eq(a: &[u8], b: &[u8]) -> (r: bool)
    ensures
        r == (a@ == b@),
{
    if a.len() != b.len() {
        return false;
    }
    let mut diff: u8 = 0;
    let mut i: usize = 0;
    while i < a.len()
        invariant
            a@.len() == b@.len(),
            0 <= i <= a@.len(),
            (diff == 0) <==> (forall|j: int| 0 <= j < i ==> a@[j] == b@[j]),
        decreases a@.len() - i,
    {
        let x = a[i];
        let y = b[i];
        let d = x ^ y;
        proof {
            assert((x ^ y == 0) == (x == y)) by (bit_vector);
            let old_diff = diff;
            assert((old_diff | d == 0) == (old_diff == 0 && d == 0)) by (bit_vector);
        }
        diff = diff | d;
        i = i + 1;
    }
    if diff == 0 {
        proof {
            assert(a@ =~= b@);
        }
        true
    } else {
        false
    }
}

} // verus!
