//! Encryption of what goes through the tunnel.

pub mod noop;

use vstd::prelude::*;

verus! {

/// Why a buffer could not be encrypted or decrypted.
#[derive(Debug)]
pub struct CryptoError {
    pub reason: String,
}

/// A way to encrypt buffers in place.
pub trait Crypto: Send + Sync {
    fn encrypt(&self, buf: &mut [u8]) -> (done: Result<(), CryptoError>);

    fn decrypt(&self, buf: &mut [u8]) -> (done: Result<(), CryptoError>);

    /// How many bytes encryption adds at most.
    fn max_overhead(&self) -> (bytes: usize);
}

} // verus!
