//! Interfaces for arithmetic with long numbers modulo another number.
use crate::error::ErrorCode;
use crate::hil::trace;
use crate::hil::trace::{Call, Observed, Port};
use vstd::prelude::*;

verus! {

/// A modular operation.
#[derive(Clone, Copy, Debug, PartialEq, Eq, Structural)]
pub enum MathOperation {
    Addition,
    Subtraction,
    Multiplication,
    Division,
    Inverse,
    Modulo,
}

/// A type whose values name the operations that a driver supports.
pub trait OpKind: Sized {
    /// The operation that a value names.
    spec fn kind(self) -> MathOperation;
}

/// Drivers that add.
pub trait OpAddition: OpKind {
    fn addition() -> (op: Self)
        ensures
            op.kind() is Addition,
    ;
}

/// Drivers that subtract.
pub trait OpSubtraction: OpKind {
    fn subtraction() -> (op: Self)
        ensures
            op.kind() is Subtraction,
    ;
}

/// Drivers that multiply.
pub trait OpMultiplication: OpKind {
    fn multiplication() -> (op: Self)
        ensures
            op.kind() is Multiplication,
    ;
}

/// Drivers that divide.
pub trait OpDivision: OpKind {
    fn division() -> (op: Self)
        ensures
            op.kind() is Division,
    ;
}

/// Drivers that invert.
pub trait OpInverse: OpKind {
    fn inverse() -> (op: Self)
        ensures
            op.kind() is Inverse,
    ;
}

/// Drivers that reduce.
pub trait OpModulo: OpKind {
    fn modulo() -> (op: Self)
        ensures
            op.kind() is Modulo,
    ;
}

/// Upcalls from the `MathCryptoBase` trait.
pub trait MathClient<Op>: Observed {
    /// What the client says of a call that retrieves the modulus or an operand, and of itself after
    /// it.
    spec fn replies(&self, call: Call, later: &Self) -> bool;

    /// Retrieve the modulus.
    fn read_modulus(&mut self, modulus: &mut [u8]) -> (result: Result<(), ErrorCode>)
        requires
            old(self).valid(),
        ensures
            final(self).valid(),
            final(modulus)@.len() == old(modulus)@.len(),
            final(self).log() == old(self).log().push(
                Call::Fill {
                    port: Port::Modulus,
                    offered: old(modulus)@,
                    buffer: final(modulus)@,
                    result,
                },
            ),
            old(self).replies(final(self).log().last(), &*final(self)),
    ;

    /// Retrieve the next operand.
    fn read_number(&mut self, num: &mut [u8])
        requires
            old(self).valid(),
        ensures
            final(self).valid(),
            final(num)@.len() == old(num)@.len(),
            final(self).log() == old(self).log().push(
                Call::Fill {
                    port: Port::Number,
                    offered: old(num)@,
                    buffer: final(num)@,
                    result: Ok(()),
                },
            ),
            old(self).replies(final(self).log().last(), &*final(self)),
    ;

    /// Return the result of the operation.
    fn write_number(&mut self, num: &[u8]) -> (result: Result<(), ErrorCode>)
        requires
            old(self).valid(),
        ensures
            final(self).valid(),
            final(self).log() == old(self).log().push(
                Call::Write { port: Port::Number, data: num@, result },
            ),
    ;

    /// Signal completion of the operation.
    fn computation_completed(&mut self, result: Result<(), ErrorCode>)
        requires
            old(self).valid(),
        ensures
            final(self).valid(),
            final(self).log() == old(self).log().push(Call::Done { result }),
    ;
}

/// `calls` led the client from one state to another, each call answered as the client says.
pub open spec fn served<Op, K: MathClient<Op>>(client: K, calls: Seq<Call>, later: K) -> bool
    decreases calls.len(),
{
    if calls.len() == 0 {
        later == client
    } else {
        exists|middle: K|
            served::<Op, K>(client, calls.drop_last(), middle) && #[trigger] middle.replies(
                calls.last(),
                &later,
            )
    }
}

/// One call more.
pub proof fn lemma_served_push<Op, K: MathClient<Op>>(
    client: K,
    calls: Seq<Call>,
    middle: K,
    call: Call,
    later: K,
)
    requires
        served::<Op, K>(client, calls, middle),
        middle.replies(call, &later),
    ensures
        served::<Op, K>(client, calls.push(call), later),
{
    assert(calls.push(call).drop_last() =~= calls);
    assert(middle.replies(calls.push(call).last(), &later));
}

/// A driver for modular arithmetic. The functions that retrieve operands take the client.
pub trait MathCryptoBase<Op: OpKind>: Observed {
    /// Whether the driver computes with numbers of that many bytes.
    spec fn takes_len(modulus_len: usize) -> bool;

    /// Set the client to be called back.
    fn set_math_client(&mut self, client: usize)
        requires
            old(self).valid(),
        ensures
            final(self).valid(),
            final(self).log() == old(self).log().push(Call::SetClient { client }),
    ;

    /// Start an operation on numbers of `modulus_len` bytes. Modulus and operands are retrieved
    /// from the client before this function returns.
    fn start_computation<K: MathClient<Op>>(
        &mut self,
        modulus_len: usize,
        operation: Op,
        client: &mut K,
    ) -> (result: Result<(), ErrorCode>)
        requires
            old(self).valid(),
            old(client).valid(),
            Self::takes_len(modulus_len),
        ensures
            final(self).valid(),
            final(client).valid(),
            trace::extends(final(client).log(), old(client).log()),
            final(self).log() == old(self).log().push(
                Call::Compute { modulus_len, operation: operation.kind(), result },
            ),
            served::<Op, K>(
                *old(client),
                trace::since(final(client).log(), old(client).log()),
                *final(client),
            ),
    ;

    /// Clear any confidential data.
    fn clear_math_data(&mut self)
        requires
            old(self).valid(),
        ensures
            final(self).valid(),
            final(self).log() == old(self).log().push(Call::ClearData),
    ;
}

} // verus!
