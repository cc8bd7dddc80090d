//! Interface for math operations with long numbers modulo some other number.
use crate::error::ErrorCode;
use crate::hil::trace::{Call, Observed};
use vstd::prelude::*;

verus! {

/// Upcall from the drivers below.
pub trait Client: Observed {
    /// This callback is called when an operation is complete. It hands the buffers back.
    ///
    /// The possible error codes are:
    ///    - `BUSY`: An operation is already on going
    ///    - `INVAL`: An invalid parameter was supplied
    ///    - `SIZE`: The size of the `result` buffer is invalid
    ///    - `NOSUPPORT`: The operation is not supported
    fn operation_done(
        &mut self,
        status: Result<bool, ErrorCode>,
        a: Vec<u8>,
        modulus: Vec<u8>,
        b: Vec<u8>,
        result: Vec<u8>,
    )
        requires
            old(self).valid(),
        ensures
            final(self).valid(),
            final(self).log() == old(self).log().push(
                Call::Returned {
                    status,
                    a: a@,
                    modulus: modulus@,
                    b: b@,
                    output: result@,
                },
            ),
    ;
}

/// A driver for operations modulo a long number.
pub trait MathCryptoBase: Observed {
    /// Set the client to be called on completion.
    fn set_client(&mut self, client: usize)
        requires
            old(self).valid(),
        ensures
            final(self).valid(),
            final(self).log() == old(self).log().push(Call::SetClient { client }),
    ;

    /// Clear any confidential data.
    fn clear_data(&mut self)
        requires
            old(self).valid(),
        ensures
            final(self).valid(),
            final(self).log() == old(self).log().push(Call::ClearData),
    ;
}

/// How a request comes back: an error hands the buffers back as they were, and a `result` buffer that
/// is shorter than the modulus is an error.
pub open spec fn handed_back(
    outcome: Result<(), (ErrorCode, Vec<u8>, Vec<u8>, Vec<u8>, Vec<u8>)>,
    a: Vec<u8>,
    modulus: Vec<u8>,
    b: Vec<u8>,
    result: Vec<u8>,
) -> bool {
    match outcome {
        Ok(_) => result@.len() >= modulus@.len(),
        Err((_, a2, modulus2, b2, result2)) => a2 == a && modulus2 == modulus && b2 == b && result2
            == result,
    }
}

/// A driver that exponentiates.
pub trait ModExponent: MathCryptoBase {
    /// Calculate (`a` ^ `b`) % `modulus` and store it in the `result` buffer.
    ///
    /// The `a` and `b` buffers can be any length. All of the data in the buffer up to the length
    /// of the `modulus` will be used. This allows callers to allocate larger buffers to support
    /// multiple number lengths, but only the operation length (defined by the modulus) will be
    /// used.
    ///
    /// The `result` buffer must be at least as large as the `modulus` buffer, otherwise `SIZE`
    /// will be returned. If `result` is longer than `modulus` the data will be stored in the
    /// `result` buffer from 0 to `modulus.len()`.
    ///
    /// On an error, the buffers are handed back.
    fn mod_exponent(
        &mut self,
        a: Vec<u8>,
        modulus: Vec<u8>,
        b: Vec<u8>,
        result: Vec<u8>,
    ) -> (outcome: Result<(), (ErrorCode, Vec<u8>, Vec<u8>, Vec<u8>, Vec<u8>)>)
        requires
            old(self).valid(),
            modulus@.len() * 8 <= u32::MAX,
        ensures
            final(self).valid(),
            handed_back(outcome, a, modulus, b, result),
    ;
}

/// A driver that multiplies.
pub trait ModMultiplicaiton: MathCryptoBase {
    /// Calculate (`a` * `b`) % `modulus` and store it in the `result` buffer. Buffers are used as
    /// in [`ModExponent::mod_exponent`].
    fn mod_multiplication(
        &mut self,
        a: Vec<u8>,
        modulus: Vec<u8>,
        b: Vec<u8>,
        result: Vec<u8>,
    ) -> (outcome: Result<(), (ErrorCode, Vec<u8>, Vec<u8>, Vec<u8>, Vec<u8>)>)
        requires
            old(self).valid(),
        ensures
            final(self).valid(),
            handed_back(outcome, a, modulus, b, result),
    ;
}

/// A driver that adds.
pub trait ModAddition: MathCryptoBase {
    /// Calculate (`a` + `b`) % `modulus` and store it in the `result` buffer. Buffers are used as
    /// in [`ModExponent::mod_exponent`].
    fn mod_addition(
        &mut self,
        a: Vec<u8>,
        modulus: Vec<u8>,
        b: Vec<u8>,
        result: Vec<u8>,
    ) -> (outcome: Result<(), (ErrorCode, Vec<u8>, Vec<u8>, Vec<u8>, Vec<u8>)>)
        requires
            old(self).valid(),
        ensures
            final(self).valid(),
            handed_back(outcome, a, modulus, b, result),
    ;
}

} // verus!
