//! Interfaces for arithmetic with points of an elliptic curve.
use crate::error::ErrorCode;
use crate::hil::trace;
use crate::hil::trace::{Call, EccOperation, Observed, Port};
use vstd::prelude::*;

verus! {

/// Upcalls from the `EccCrypto` trait.
pub trait EccClient: Observed {
    /// What the client says of a call that retrieves an operand, and of itself after it.
    spec fn answers(&self, call: Call, later: &Self) -> bool;

    /// Retrieve the scalar.
    fn read_scalar(&mut self, scalar: &mut [u8]) -> (result: Result<(), ErrorCode>)
        requires
            old(self).valid(),
        ensures
            final(self).valid(),
            final(scalar)@.len() == old(scalar)@.len(),
            final(self).log() == old(self).log().push(
                Call::Fill {
                    port: Port::Scalar,
                    offered: old(scalar)@,
                    buffer: final(scalar)@,
                    result,
                },
            ),
            old(self).answers(final(self).log().last(), &*final(self)),
    ;

    /// Retrieve the first point: its x coordinate, followed by its y coordinate.
    fn read_point(&mut self, point: &mut [u8]) -> (result: Result<(), ErrorCode>)
        requires
            old(self).valid(),
        ensures
            final(self).valid(),
            final(point)@.len() == old(point)@.len(),
            final(self).log() == old(self).log().push(
                Call::Fill {
                    port: Port::Point,
                    offered: old(point)@,
                    buffer: final(point)@,
                    result,
                },
            ),
            old(self).answers(final(self).log().last(), &*final(self)),
    ;

    /// Retrieve the second point.
    fn read_second_point(&mut self, point: &mut [u8]) -> (result: Result<(), ErrorCode>)
        requires
            old(self).valid(),
        ensures
            final(self).valid(),
            final(point)@.len() == old(point)@.len(),
            final(self).log() == old(self).log().push(
                Call::Fill {
                    port: Port::SecondPoint,
                    offered: old(point)@,
                    buffer: final(point)@,
                    result,
                },
            ),
            old(self).answers(final(self).log().last(), &*final(self)),
    ;

    /// Return a point, whole or one coordinate after the other.
    fn write_point(&mut self, point: &[u8]) -> (result: Result<(), ErrorCode>)
        requires
            old(self).valid(),
        ensures
            final(self).valid(),
            final(self).log() == old(self).log().push(
                Call::Write { port: Port::Point, data: point@, result },
            ),
    ;

    /// Signal completion of the operation.
    fn operation_done(&mut self, result: Result<(), ErrorCode>)
        requires
            old(self).valid(),
        ensures
            final(self).valid(),
            final(self).log() == old(self).log().push(Call::Done { result }),
    ;
}

/// `calls` led the client from one state to another, each call answered as the client says.
pub open spec fn served<K: EccClient>(client: K, calls: Seq<Call>, later: K) -> bool
    decreases calls.len(),
{
    if calls.len() == 0 {
        later == client
    } else {
        exists|middle: K|
            served(client, calls.drop_last(), middle) && #[trigger] middle.answers(
                calls.last(),
                &later,
            )
    }
}

/// One call more.
pub proof fn lemma_served_push<K: EccClient>(
    client: K,
    calls: Seq<Call>,
    middle: K,
    call: Call,
    later: K,
)
    requires
        served(client, calls, middle),
        middle.answers(call, &later),
    ensures
        served(client, calls.push(call), later),
{
    assert(calls.push(call).drop_last() =~= calls);
    assert(middle.answers(calls.push(call).last(), &later));
}

/// A driver for a curve whose coordinates take `P_SIZE` bytes. The functions that retrieve
/// operands take the client, and retrieve them before they return.
pub trait EccCrypto<const P_SIZE: usize>: Observed {
    /// Set the client to be called back.
    fn set_ecc_client(&mut self, client: usize)
        requires
            old(self).valid(),
        ensures
            final(self).valid(),
            final(self).log() == old(self).log().push(Call::SetClient { client }),
    ;

    /// Clear any confidential data.
    fn clear_ecc_data(&mut self)
        requires
            old(self).valid(),
        ensures
            final(self).valid(),
            final(self).log() == old(self).log().push(Call::ClearData),
    ;

    /// Double a point, or the generator of the curve.
    fn point_doubling<K: EccClient>(&mut self, use_curve_generator: bool, client: &mut K) -> (result:
        Result<(), ErrorCode>)
        requires
            old(self).valid(),
            old(client).valid(),
        ensures
            final(self).valid(),
            final(client).valid(),
            trace::extends(final(client).log(), old(client).log()),
            final(self).log() == old(self).log().push(
                Call::Ecc { operation: EccOperation::Doubling, use_curve_generator, result },
            ),
            served(
                *old(client),
                trace::since(final(client).log(), old(client).log()),
                *final(client),
            ),
    ;

    /// Add two points, or the generator of the curve and a point.
    fn point_addition<K: EccClient>(&mut self, use_curve_generator: bool, client: &mut K) -> (result:
        Result<(), ErrorCode>)
        requires
            old(self).valid(),
            old(client).valid(),
        ensures
            final(self).valid(),
            final(client).valid(),
            trace::extends(final(client).log(), old(client).log()),
            final(self).log() == old(self).log().push(
                Call::Ecc { operation: EccOperation::Addition, use_curve_generator, result },
            ),
            served(
                *old(client),
                trace::since(final(client).log(), old(client).log()),
                *final(client),
            ),
    ;

    /// Multiply a point, or the generator of the curve, by a scalar.
    fn scalar_multiplication<K: EccClient>(
        &mut self,
        use_curve_generator: bool,
        client: &mut K,
    ) -> (result: Result<(), ErrorCode>)
        requires
            old(self).valid(),
            old(client).valid(),
        ensures
            final(self).valid(),
            final(client).valid(),
            trace::extends(final(client).log(), old(client).log()),
            final(self).log() == old(self).log().push(
                Call::Ecc { operation: EccOperation::Multiplication, use_curve_generator, result },
            ),
            served(
                *old(client),
                trace::since(final(client).log(), old(client).log()),
                *final(client),
            ),
    ;
}

/// A driver that checks whether a point lies on its curve.
pub trait VerifyEccPoint<const P_SIZE: usize>: EccCrypto<P_SIZE> {
    /// Check a point.
    fn verify_point<K: EccClient>(&mut self, client: &mut K) -> (result: Result<(), ErrorCode>)
        requires
            old(self).valid(),
            old(client).valid(),
        ensures
            final(self).valid(),
            final(client).valid(),
            trace::extends(final(client).log(), old(client).log()),
            final(self).log() == old(self).log().push(
                Call::Ecc {
                    operation: EccOperation::Verification,
                    use_curve_generator: false,
                    result,
                },
            ),
            served(
                *old(client),
                trace::since(final(client).log(), old(client).log()),
                *final(client),
            ),
    ;
}

} // verus!
