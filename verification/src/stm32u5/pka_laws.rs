//! What holds of the public key accelerator across its interrupts.
use crate::hil::ecc_constants;
use crate::stm32u5::pka;
use crate::stm32u5::pka::{PkaEventView, PkaView, SupportedOp};
use crate::stm32u5::pka_constants::{
    Flags, Mode, PkaLayout, Status, CURVE_A_IDX, CURVE_B_IDX, CURVE_MODULUS_IDX, EXP_IDX, K_IDX, MOD_VALUE_IDX,
    OP_A_IDX, PRIME_ORDER_IDX, RAM_WORDS, RESULT_IDX, RESULT_X_IDX, RESULT_Y_IDX, X_IDX, Y_IDX,
};
use crate::stm32u5::pka_ram;
use crate::sw::bytes;
use vstd::prelude::*;

verus! {

broadcast use {
    pka_ram::lemma_written_len,
    pka_ram::lemma_read_len,
    pka_ram::lemma_read_after_write,
    pka_ram::lemma_read_after_update,
};

/// An operation ends, and the driver becomes idle, exactly when its client is told so; every other
/// interrupt of an operation starts the next step.
pub proof fn law_interrupt_ends_or_continues(view: PkaView)
    requires
        view.wf(),
        !(view.state is Idle),
        view.rsa_client is Some,
        view.ecc_client is Some,
        view.math_client is Some,
    ensures
        ({
            let (later, event) = view.interrupted();
            &&& later.state is Idle <==> match event {
                PkaEventView::Nothing => false,
                PkaEventView::ModExponentDone { .. } => true,
                PkaEventView::Point { done, .. } => done is Some,
                PkaEventView::Number { .. } => true,
            }
            &&& !(later.state is Idle) ==> later.control.start && later.control.procendie
        }),
{
}

/// `later` is the driver after the accelerator has worked: it may have changed the RAM and its status.
pub open spec fn worked(view: PkaView, later: PkaView) -> bool {
    later == (PkaView { ram: later.ram, status: later.status, ..view })
}

/// A point sum comes out of three conversions, x first and then y, each of the coordinates once.
pub proof fn law_addition_takes_three_passes(
    added: PkaView,
    once: PkaView,
    twice: PkaView,
    thrice: PkaView,
)
    requires
        added.state is PointAddition,
        added.status.flags.procend,
        added.ecc_client is Some,
        worked(added.interrupted().0, once),
        worked(once.interrupted().0, twice),
        worked(twice.interrupted().0, thrice),
    ensures
        added.interrupted().1 is Nothing,
        once.interrupted().1 is Nothing,
        twice.interrupted().1 == (PkaEventView::Point {
            point: Some(twice.number(RESULT_X_IDX, 32)),
            done: None,
        }),
        thrice.interrupted().1 == (PkaEventView::Point {
            point: Some(thrice.number(RESULT_Y_IDX, 32)),
            done: Some(Ok(())),
        }),
        thrice.interrupted().0.state is Idle,
{
}

/// The words that a layout gives to modular arithmetic are in the RAM, and apart from the others that
/// it works on, for numbers of `len` bytes.
pub open spec fn arithmetic_apart(layout: PkaLayout, len: nat) -> bool {
    &&& layout.arith_op_a + pka_ram::word_count(len) <= RAM_WORDS
    &&& layout.math_result + pka_ram::word_count(len) <= RAM_WORDS
    &&& pka_ram::apart(layout.arith_op_a as int, len, layout.math_result as int, len)
    &&& pka_ram::apart(layout.arith_op_a as int, len, OP_A_IDX as int, len)
    &&& pka_ram::apart(layout.arith_op_a as int, len, EXP_IDX as int, len)
    &&& pka_ram::apart(layout.arith_op_a as int, len, MOD_VALUE_IDX as int, len)
    &&& pka_ram::apart(layout.math_result as int, len, OP_A_IDX as int, len)
    &&& pka_ram::apart(layout.math_result as int, len, EXP_IDX as int, len)
    &&& pka_ram::apart(layout.math_result as int, len, MOD_VALUE_IDX as int, len)
}

/// The driver once the accelerator has come to an end with a result, and has left the operands.
pub open spec fn computed(view: PkaView, result: Seq<u8>) -> PkaView {
    let later = view.with(view.layout.math_result, result);
    PkaView {
        status: Status {
            flags: Flags { procend: true, ..view.status.flags },
            ..view.status
        },
        ..later
    }
}

/// The accelerator was started on two operands and a modulus.
pub open spec fn works_on(
    view: PkaView,
    mode: Mode,
    first: Seq<u8>,
    second: Seq<u8>,
    modulus: Seq<u8>,
) -> bool {
    &&& view.control.start
    &&& view.control.mode == mode
    &&& view.number(OP_A_IDX, modulus.len()) == first
    &&& view.number(view.layout.arith_op_a, modulus.len()) == second
    &&& view.number(MOD_VALUE_IDX, modulus.len()) == modulus
}

/// The accelerator was started on the parameter of a modulus, and two factors wait for it.
pub open spec fn prepares(
    view: PkaView,
    first: Seq<u8>,
    second: Seq<u8>,
    modulus: Seq<u8>,
) -> bool {
    &&& view.state is MathComputeR2
    &&& view.math_len == modulus.len()
    &&& view.control.start
    &&& view.control.mode is MontgomeryOnly
    &&& view.number(OP_A_IDX, modulus.len()) == first
    &&& view.number(EXP_IDX, modulus.len()) == second
    &&& view.number(MOD_VALUE_IDX, modulus.len()) == modulus
}

/// A sum is computed of the two numbers that the client gave, modulo its modulus, and what the
/// accelerator computes is what the client gets.
pub proof fn law_sum_of_the_operands(
    view: PkaView,
    modulus: Seq<u8>,
    first: Seq<u8>,
    second: Seq<u8>,
    sum: Seq<u8>,
)
    requires
        view.wf(),
        modulus.len() <= 512,
        first.len() == modulus.len(),
        second.len() == modulus.len(),
        sum.len() == modulus.len(),
        arithmetic_apart(view.layout, modulus.len()),
        view.math_client is Some,
    ensures
        ({
            let begun = view.computing(SupportedOp::Addition, modulus, first, second);
            let (ended, event) = computed(begun, sum).interrupted();
            &&& works_on(begun, Mode::ModularAddition, second, first, modulus)
            &&& ended.state is Idle
            &&& event == PkaEventView::Number { number: Some(sum), result: Ok(()) }
        }),
{
}

/// What a multiplication computes: first the parameter of the modulus, then the first factor with
/// that parameter, then what came of it with the second factor; that product is what the client gets.
pub proof fn law_product_of_the_factors(
    view: PkaView,
    modulus: Seq<u8>,
    first: Seq<u8>,
    second: Seq<u8>,
    parameter: Seq<u8>,
    lifted: Seq<u8>,
    product: Seq<u8>,
)
    requires
        view.wf(),
        modulus.len() <= 512,
        first.len() == modulus.len(),
        second.len() == modulus.len(),
        parameter.len() == modulus.len(),
        lifted.len() == modulus.len(),
        product.len() == modulus.len(),
        arithmetic_apart(view.layout, modulus.len()),
        view.math_client is Some,
        prepares(view, first, second, modulus),
    ensures
        ({
            let (lifting, e0) = computed(view, parameter).interrupted();
            let (multiplying, e1) = computed(lifting, lifted).interrupted();
            let (ended, e2) = computed(multiplying, product).interrupted();
            &&& e0 is Nothing
            &&& works_on(lifting, Mode::MontgomeryMultiplication, first, parameter, modulus)
            &&& e1 is Nothing
            &&& works_on(multiplying, Mode::MontgomeryMultiplication, lifted, second, modulus)
            &&& e2 == PkaEventView::Number { number: Some(product), result: Ok(()) }
            &&& ended.state is Idle
        }),
{
}

/// A multiplication prepares its factors; a division has the second number inverted first, and then
/// prepares a multiplication of the first number by that inverse.
pub proof fn law_division_multiplies_by_the_inverse(
    view: PkaView,
    modulus: Seq<u8>,
    first: Seq<u8>,
    second: Seq<u8>,
    inverse: Seq<u8>,
)
    requires
        view.wf(),
        modulus.len() <= 512,
        first.len() == modulus.len(),
        second.len() == modulus.len(),
        inverse.len() == modulus.len(),
        arithmetic_apart(view.layout, modulus.len()),
    ensures
        prepares(
            view.computing(SupportedOp::Multiplication, modulus, first, second),
            first,
            second,
            modulus,
        ),
        ({
            let inverting = view.computing(SupportedOp::Division, modulus, first, second);
            let (preparing, event) = computed(inverting, inverse).interrupted();
            &&& works_on(inverting, Mode::ModularInversion, first, second, modulus)
            &&& event is Nothing
            &&& prepares(preparing, first, inverse, modulus)
        }),
{
}

/// A number of the curve's size lies apart from another.
pub open spec fn coordinates_apart(a: usize, b: usize) -> bool {
    pka_ram::apart(a as int, 32, b as int, 32)
}

/// The words that a layout gives to the curve leave its parameters as they are.
pub open spec fn curve_apart(layout: PkaLayout) -> bool {
    forall|idx: usize|
        idx == CURVE_A_IDX || idx == CURVE_B_IDX || idx == PRIME_ORDER_IDX || idx
            == CURVE_MODULUS_IDX ==> #[trigger] coordinates_apart(idx, layout.montgomery_r2)
            && coordinates_apart(idx, layout.add_curve_modulus)
}

/// The parameters of P-256 are in place.
pub open spec fn on_curve(view: PkaView) -> bool {
    &&& view.number(CURVE_A_IDX, 32) == ecc_constants::a()
    &&& view.number(CURVE_B_IDX, 32) == ecc_constants::b()
    &&& view.number(PRIME_ORDER_IDX, 32) == ecc_constants::n()
    &&& view.number(CURVE_MODULUS_IDX, 32) == ecc_constants::p()
}

/// A point is multiplied by the scalar, on P-256, and what the accelerator leaves as coordinates is
/// the point that the client gets.
pub proof fn law_multiple_of_the_point(
    view: PkaView,
    scalar: Seq<u8>,
    point: Seq<u8>,
    later: PkaView,
)
    requires
        view.wf(),
        scalar.len() == 32,
        point.len() == 64,
        curve_apart(view.layout),
        view.ecc_client is Some,
        worked(view.multiplying(scalar, point), later),
    ensures
        ({
            let begun = view.multiplying(scalar, point);
            let (ended, event) = later.interrupted();
            &&& begun.control.start
            &&& begun.control.mode is MontgomeryECC
            &&& on_curve(begun)
            &&& begun.number(K_IDX, 32) == scalar
            &&& begun.number(X_IDX, 32) == point.take(32)
            &&& begun.number(Y_IDX, 32) == point.skip(32)
            &&& ended.state is Idle
            &&& event == PkaEventView::Point {
                point: Some(later.number(RESULT_X_IDX, 32) + later.number(RESULT_Y_IDX, 32)),
                done: Some(Ok(())),
            }
        }),
{
    let begun = view.multiplying(scalar, point);
    ecc_constants::lemma_sizes();
    assert(coordinates_apart(CURVE_A_IDX, view.layout.montgomery_r2));
    assert(coordinates_apart(CURVE_B_IDX, view.layout.montgomery_r2));
    assert(coordinates_apart(PRIME_ORDER_IDX, view.layout.montgomery_r2));
    assert(coordinates_apart(CURVE_MODULUS_IDX, view.layout.montgomery_r2));
    assert(begun.number(CURVE_A_IDX, 32) == ecc_constants::a());
    assert(begun.number(CURVE_B_IDX, 32) == ecc_constants::b());
    assert(begun.number(PRIME_ORDER_IDX, 32) == ecc_constants::n());
    assert(begun.number(CURVE_MODULUS_IDX, 32) == ecc_constants::p());
}

/// The coordinates that a layout gives to two points that are added are in the RAM, and apart from
/// each other.
pub open spec fn points_apart(layout: PkaLayout) -> bool {
    let places = seq![
        layout.add_p_x,
        layout.add_p_y,
        layout.add_p_z,
        layout.add_q_x,
        layout.add_q_y,
        layout.add_q_z,
    ];
    &&& forall|i: int| 0 <= i < 6 ==> #[trigger] places[i] + 8 <= RAM_WORDS
    &&& forall|i: int, j: int|
        0 <= i < j < 6 ==> coordinates_apart(#[trigger] places[i], #[trigger] places[j])
}

/// An addition has both points in place, each with one as its third coordinate.
pub proof fn law_sum_of_the_points(view: PkaView, first: Seq<u8>, second: Seq<u8>)
    requires
        view.wf(),
        first.len() == 64,
        second.len() == 64,
        points_apart(view.layout),
    ensures
        ({
            let begun = view.adding(first, second);
            let one = bytes::zeros(31).push(1);
            &&& begun.control.start
            &&& begun.control.mode is ECCCompleteAddition
            &&& begun.number(view.layout.add_p_x, 32) == first.take(32)
            &&& begun.number(view.layout.add_p_y, 32) == first.skip(32)
            &&& begun.number(view.layout.add_p_z, 32) == one
            &&& begun.number(view.layout.add_q_x, 32) == second.take(32)
            &&& begun.number(view.layout.add_q_y, 32) == second.skip(32)
            &&& begun.number(view.layout.add_q_z, 32) == one
        }),
{
    let l = view.layout;
    let places = seq![l.add_p_x, l.add_p_y, l.add_p_z, l.add_q_x, l.add_q_y, l.add_q_z];
    let begun = view.adding(first, second);
    assert(places[0] == l.add_p_x && places[1] == l.add_p_y && places[2] == l.add_p_z);
    assert(places[3] == l.add_q_x && places[4] == l.add_q_y && places[5] == l.add_q_z);
    assert(begun.number(l.add_p_x, 32) == first.take(32));
    assert(begun.number(l.add_p_y, 32) == first.skip(32));
    assert(begun.number(l.add_q_x, 32) == second.take(32));
    assert(begun.number(l.add_q_y, 32) == second.skip(32));
}

/// An exponentiation has base, exponent and modulus in place, and what the accelerator leaves as
/// result is what the client gets, at the front of its buffer.
pub proof fn law_power_of_the_message(
    view: PkaView,
    job: pka::JobView,
    exp_bits: u32,
    op_bits: u32,
    power: Seq<u8>,
)
    requires
        view.wf(),
        view.rsa_client is Some,
        0 < job.modulus.len() <= 512,
        job.modulus.len() <= job.result.len(),
        power.len() == job.modulus.len(),
    ensures
        ({
            let begun = view.exponentiating(job, exp_bits, op_bits);
            let len = job.modulus.len();
            let exponent = pka::front(job.exponent, len);
            let message = pka::front(job.message, len);
            let flags = Flags {
                procend: true,
                ..view.status.flags
            };
            let done = PkaView {
                status: Status { flags, ..view.status },
                ..begun.with(RESULT_IDX, power)
            };
            let (ended, event) = done.interrupted();
            &&& begun.control.start
            &&& begun.control.mode is MontgomeryModularExp
            &&& begun.number(EXP_IDX, exponent.len()) == exponent
            &&& begun.number(OP_A_IDX, message.len()) == message
            &&& begun.number(MOD_VALUE_IDX, len) == job.modulus
            &&& ended.state is Idle
            &&& event == PkaEventView::ModExponentDone {
                status: Ok(true),
                job: pka::JobView { result: power + job.result.skip(len as int), ..job },
            }
        }),
{
}

} // verus!
