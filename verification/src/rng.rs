//! The random source behind tile spawning.

use vstd::prelude::*;

verus! {

#[verifier::external_type_specification]
#[verifier::external_body]
pub struct ExGetrandomError(getrandom::Error);

/// Relies on getrandom::getrandom: it fills the buffer from the operating
/// system's random source, or reports that source's failure. Nothing is
/// promised of the byte itself; two calls may return different values.
#[verifier::external_body]
pub(crate) fn random_byte() -> Result<u8, getrandom::Error> {
    let mut buffer = [0u8; 1];
    match getrandom::getrandom(&mut buffer) {
        Ok(()) => Ok(buffer[0]),
        Err(e) => Err(e),
    }
}

} // verus!
