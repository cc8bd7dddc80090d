//! What the drivers are asked for while a signature is made.
use crate::capsules::ecdsa::{Driver, SignerView};
use crate::capsules::ecdsa_drivers;
use crate::capsules::ecdsa_laws;
use crate::error::ErrorCode;
use crate::hil::trace::Call;
use vstd::prelude::*;

verus! {

/// A driver that the signer has waited for is started on what the signer holds ready for it: the HMAC
/// driver, over the hash whose digests are as long as the numbers, on exactly as many bytes as the
/// message has, under a key of exactly as many bytes as the key has; the driver for points on the
/// generator; and the driver for numbers on numbers as long as the order.
pub proof fn law_drivers_are_asked_for_the_step(
    signer: SignerView,
    mutex: usize,
    call: Call,
    result: Result<(), ErrorCode>,
)
    requires
        signer.wf(),
        signer.hash is Some,
        signer.awaited() matches Some((_, _, start)) && ecdsa_drivers::asks(start, call, result),
    ensures
        ({
            let ready = ecdsa_laws::admitted(signer, mutex);
            let (driver, state, start) = signer.awaited()->0;
            &&& ecdsa_drivers::driver_of(start) == driver
            &&& driver == Driver::Hmac ==> (call matches Call::Authenticate {
                algorithm,
                input_len,
                key_len,
                result: told,
            } && algorithm is Sha256 && algorithm.digest_len() == ready.v.len() && input_len
                == ready.message().len() && key_len == ready.key.len() && told == result)
            &&& driver == Driver::Ecc ==> (call matches Call::Ecc {
                use_curve_generator,
                result: told,
                ..
            } && use_curve_generator && told == result)
            &&& driver == Driver::Math ==> call is Compute && call->modulus_len
                == crate::hil::ecc_constants::n().len()
        }),
{
    crate::hil::ecc_constants::lemma_sizes();
}

/// While the signer derives, each HMAC that follows another one is started on exactly as many bytes as
/// its message has: that of the step which the signer has come to.
pub proof fn law_next_message_is_asked_for(
    signer: SignerView,
    call: Call,
    result: Result<(), ErrorCode>,
)
    requires
        signer.wf(),
        signer.hash is Some,
        signer.derives(),
        ({
            let (next, step) = signer.after_hash(Ok(()));
            step.start matches Some(start) && ecdsa_drivers::asks(start, call, result)
        }),
    ensures
        ({
            let (next, step) = signer.after_hash(Ok(()));
            &&& next.derives()
            &&& next.input_counter == 0
            &&& next.output_counter == 0
            &&& next.key_counter == 0
            &&& call matches Call::Authenticate { algorithm, input_len, key_len, .. } && {
                &&& algorithm is Sha256
                &&& input_len == next.message().len()
                &&& key_len == next.key.len()
            }
        }),
{
}

/// When one modular operation follows another, the driver is asked for the one that the equation of
/// the signature has there: the product of r and the key, the sum with the hash, and the quotient by
/// the nonce; each on two numbers, from the first on.
pub proof fn law_next_computation_is_asked_for(
    signer: SignerView,
    call: Call,
    result: Result<(), ErrorCode>,
)
    requires
        signer.wf(),
        signer.hash is Some,
        ({
            let (next, step) = signer.after_math(Ok(()));
            step.start matches Some(start) && ecdsa_drivers::asks(start, call, result)
        }),
    ensures
        ({
            let (next, step) = signer.after_math(Ok(()));
            let first = next.number();
            let second = next.number_taken(32).number();
            &&& call is Compute
            &&& call->modulus_len == 32
            &&& next.input_counter == 0
            &&& signer.state is MathModR ==> call->operation is Multiplication && first == Some(
                signer.r,
            ) && second == Some(signer.signing_key)
            &&& signer.state is MathRDaMul ==> call->operation is Addition && first == Some(
                signer.s,
            ) && second == signer.hash
            &&& signer.state is MathResHAdd ==> call->operation is Division && first == Some(
                signer.s,
            ) && second == Some(signer.k)
        }),
{
}

} // verus!
