//! CSPRNG (cryptographically secure pseudo random number generator).
//!
//! Implementors fill a buffer with cryptographically secure random data,
//! for example by delegating to an operating-system generator.  Nothing can
//! be promised about the bytes themselves; the buffer keeps its length.

use vstd::prelude::*;

verus! {

/// A source of cryptographically secure random data.
pub trait CSPRNG: Sized {
    /// Overwrites `data` with random bytes, keeping its length.
    fn generate(&mut self, data: &mut Vec<u8>)
        ensures
            final(data)@.len() == old(data)@.len(),
    ;
}

} // verus!
