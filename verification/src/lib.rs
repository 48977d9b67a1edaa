use vstd::prelude::*;

pub mod codec;
pub mod crypto_utils;
pub mod order;
pub mod persistence;
pub mod session;
pub mod store;

verus! {

/// The error taxonomy of the vault core.
///
/// `Format` reports a corrupt or unreadable store image, `Authentication` a
/// wrong passphrase or a ciphertext whose integrity tag does not verify, and
/// `Crypto` a misuse of a primitive (a key of the wrong length).  Filesystem
/// failures are reported by the surrounding program, not by this library.
#[derive(Clone, Copy, Debug, PartialEq, Eq, Structural)]
pub enum VaultError {
    Format,
    Authentication,
    Crypto,
}

} // verus!
