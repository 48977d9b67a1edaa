//! The ephemeral session: the 32-byte symmetric key derived from the master
//! passphrase, held in memory between a successful login and process exit,
//! and scrubbed before its buffer is released.

use crate::crypto_utils::zeroize_vec;
use crate::store::Store;
use crate::VaultError;
use vstd::prelude::*;

verus! {

/// The session key derived from a passphrase: the passphrase bytes,
/// right-padded with zero bytes to exactly 32 bytes.
pub open spec fn derive_key_spec(passphrase: Seq<u8>) -> Seq<u8>
    recommends
        passphrase.len() <= 32,
{
    passphrase + Seq::new((32 - passphrase.len()) as nat, |i: int| 0u8)
}

/// Derives the 32-byte session key from the raw passphrase bytes.
pub fn derive_key(passphrase: &[u8]) -> (r: Vec<u8>)
    requires
        passphrase@.len() <= 32,
    ensures
        r@ == derive_key_spec(passphrase@),
        r@.len() == 32,
{
    let mut key: Vec<u8> = Vec::new();
    let mut i: usize = 0;
    while i < passphrase.len()
        invariant
            0 <= i <= passphrase@.len(),
            key@ == passphrase@.subrange(0, i as int),
        decreases passphrase@.len() - i,
    {
        key.push(passphrase[i]);
        i = i + 1;
        proof {
            assert(key@ =~= passphrase@.subrange(0, i as int));
        }
    }
    while key.len() < 32
        invariant
            passphrase@.len() <= key@.len() <= 32,
            key@.subrange(0, passphrase@.len() as int) == passphrase@,
            forall|j: int| passphrase@.len() <= j < key@.len() ==> key@[j] == 0u8,
        decreases 32 - key@.len(),
    {
        key.push(0u8);
    }
    proof {
        assert(key@ =~= derive_key_spec(passphrase@));
    }
    key
}

/// Process-lifetime holder of the derived session key.  The key is read by
/// entry encryption and decryption, and is overwritten with zeros by
/// [`Session::scrub`] before the process exits.
pub struct Session {
    key: Vec<u8>,
}

impl View for Session {
    type V = Seq<u8>;

    closed spec fn view(&self) -> Seq<u8> {
        self.key@
    }
}

impl Session {
    /// Wraps a freshly derived 32-byte key.
    pub fn begin(key: Vec<u8>) -> (s: Session)
        requires
            key@.len() == 32,
        ensures
            s@ == key@,
    {
        Session { key }
    }

    /// The held key material.
    pub fn key_bytes(&self) -> (r: &Vec<u8>)
        ensures
            r@ == self@,
    {
        &self.key
    }

    /// Overwrites the key buffer with zeros and empties it.  Must be called
    /// on every exit path once the session is over.
    pub fn scrub(&mut self)
        ensures
            final(self)@.len() == 0,
    {
        zeroize_vec(&mut self.key);
    }
}

/// Verifies the passphrase against the store's verifier and, on success,
/// opens a session holding the derived key.  Fails with
/// `VaultError::Authentication` exactly when the verifier does not match.
pub fn create_session(store: &Store, passphrase: &[u8]) -> (r: Result<Session, VaultError>)
    requires
        store@.wf(),
        store@.master is Some,
        passphrase@.len() <= 32,
    ensures
        crate::store::verify_ok(store@, passphrase@) ==> (r matches Ok(s) && s@
            == derive_key_spec(passphrase@)),
        !crate::store::verify_ok(store@, passphrase@) ==> (r matches Err(e) && e
            == VaultError::Authentication),
{
    match store.verify_passphrase(passphrase) {
        Ok(key) => Ok(Session::begin(key)),
        Err(e) => Err(e),
    }
}

} // verus!
