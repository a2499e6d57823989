//! No encryption at all.

use vstd::prelude::*;
use crate::crypto::{Crypto, CryptoError};

verus! {

/// Passes everything through as it is.
#[derive(Debug)]
pub struct NoopCrypto;

impl Crypto for NoopCrypto {
    fn encrypt(&self, buf: &mut [u8]) -> (done: Result<(), CryptoError>)
        ensures
            done is Ok,
            final(buf)@ == old(buf)@,
    {
        Ok(())
    }

    fn decrypt(&self, buf: &mut [u8]) -> (done: Result<(), CryptoError>)
        ensures
            done is Ok,
            final(buf)@ == old(buf)@,
    {
        Ok(())
    }

    fn max_overhead(&self) -> (bytes: usize)
        ensures
            bytes == 0,
    {
        0
    }
}

} // verus!
