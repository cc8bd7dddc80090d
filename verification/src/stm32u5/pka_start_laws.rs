//! What the accelerator finds in its RAM when an operation is started.
use crate::hil::ecc_constants;
use crate::hil::p256_laws;
use crate::stm32u5::pka;
use crate::stm32u5::pka::{PkaEventView, PkaView, SupportedOp};
use crate::stm32u5::pka_constants::{
    Mode, PkaLayout, CURVE_A_IDX, CURVE_A_SIGN_IDX, CURVE_B_IDX,
    CURVE_MODULUS_IDX, CURVE_MODULUS_LEN_IDX, EXP_IDX, EXP_LEN_IDX, K_IDX, MOD_VALUE_IDX,
    NO_ERRORS_OCCURED, OP_A_IDX, OP_LEN_IDX, PRIME_ORDER_IDX, PRIME_ORDER_LEN_IDX, RAM_WORDS,
    RESULT_IDX, RESULT_X_IDX, RESULT_Y_IDX, X_IDX, Y_IDX,
};
use crate::stm32u5::pka_laws;
use crate::stm32u5::pka_ram;
use crate::sw::bytes;
use vstd::prelude::*;

verus! {

broadcast use {
    pka_ram::lemma_written_len,
    pka_ram::lemma_read_len,
    pka_ram::lemma_read_after_write,
    pka_ram::lemma_read_after_update,
    pka_ram::lemma_word_after_write,
};

/// The double word at `idx` is the bit length of the number in the RAM that the bytes spell: the
/// least number of bits that hold it.
pub open spec fn tells_bits(view: PkaView, idx: usize, number: Seq<u8>) -> bool {
    let bits = view.ram[idx as int] as int;
    &&& bits > 0
    &&& view.ram[idx + 1] == 0
    &&& vstd::arithmetic::power2::pow2((bits - 1) as nat) <= bytes::be_value(number)
        < vstd::arithmetic::power2::pow2(bits as nat)
}

/// The order and the modulus that are in the RAM have the bit lengths that stand there, and the
/// coefficient that is there counts as positive.
pub open spec fn sizes_told(view: PkaView) -> bool {
    &&& tells_bits(view, PRIME_ORDER_LEN_IDX, view.number(PRIME_ORDER_IDX, 32))
    &&& tells_bits(view, CURVE_MODULUS_LEN_IDX, view.number(CURVE_MODULUS_IDX, 32))
    &&& view.ram[CURVE_A_SIGN_IDX as int] == 0
    &&& view.ram[CURVE_A_SIGN_IDX + 1] == 0
}

/// A coordinate from `place` on lies in the RAM, and leaves the parameters of the curve and their
/// sizes as they are.
pub open spec fn leaves_the_curve(place: usize) -> bool {
    &&& CURVE_A_SIGN_IDX + 2 <= place
    &&& place + 8 <= RAM_WORDS
    &&& pka_laws::coordinates_apart(CURVE_A_IDX, place)
    &&& pka_laws::coordinates_apart(CURVE_B_IDX, place)
    &&& pka_laws::coordinates_apart(PRIME_ORDER_IDX, place)
    &&& pka_laws::coordinates_apart(CURVE_MODULUS_IDX, place)
}

/// The words that a layout gives to operations on points leave the parameters of the curve and their
/// sizes as they are.
pub open spec fn curve_left(layout: PkaLayout) -> bool {
    &&& leaves_the_curve(layout.montgomery_r2)
    &&& leaves_the_curve(layout.add_curve_modulus)
    &&& leaves_the_curve(layout.add_p_x)
    &&& leaves_the_curve(layout.add_p_y)
    &&& leaves_the_curve(layout.add_p_z)
    &&& leaves_the_curve(layout.add_q_x)
    &&& leaves_the_curve(layout.add_q_y)
    &&& leaves_the_curve(layout.add_q_z)
}

/// The parameters of P-256 and their sizes are in the RAM.
proof fn lemma_parameters(view: PkaView)
    requires
        view.wf(),
        leaves_the_curve(view.layout.montgomery_r2),
        leaves_the_curve(view.layout.add_curve_modulus),
    ensures
        sizes_told(view.with_p256()),
        pka_laws::on_curve(view.with_p256()),
        view.with_p256().ram.len() == RAM_WORDS,
        view.with_p256().layout == view.layout,
{
    ecc_constants::lemma_sizes();
    p256_laws::law_prime_and_order_have_256_bits();
    let later = view.with_p256();
    assert(later.number(CURVE_A_IDX, 32) == ecc_constants::a());
    assert(later.number(CURVE_B_IDX, 32) == ecc_constants::b());
    assert(later.number(PRIME_ORDER_IDX, 32) == ecc_constants::n());
    assert(later.number(CURVE_MODULUS_IDX, 32) == ecc_constants::p());
}

/// A coordinate that leaves the curve leaves what is said of it.
proof fn lemma_kept(view: PkaView, place: usize, coordinate: Seq<u8>)
    requires
        view.ram.len() == RAM_WORDS,
        leaves_the_curve(place),
        coordinate.len() == 32,
        sizes_told(view),
        pka_laws::on_curve(view),
    ensures
        sizes_told(view.with(place, coordinate)),
        pka_laws::on_curve(view.with(place, coordinate)),
        view.with(place, coordinate).ram.len() == RAM_WORDS,
{
}

/// When a point is multiplied, when points are added and when a point is checked, the accelerator
/// finds the parameters of P-256, and with the order and with the modulus the number of bits that
/// each of them has.
pub proof fn law_sizes_of_the_parameters(
    view: PkaView,
    scalar: Seq<u8>,
    first: Seq<u8>,
    second: Seq<u8>,
)
    requires
        view.wf(),
        curve_left(view.layout),
        scalar.len() == 32,
        first.len() == 64,
        second.len() == 64,
    ensures
        sizes_told(view.multiplying(scalar, first)),
        pka_laws::on_curve(view.multiplying(scalar, first)),
        sizes_told(view.adding(first, second)),
        pka_laws::on_curve(view.adding(first, second)),
        sizes_told(view.verifying(first)),
        pka_laws::on_curve(view.verifying(first)),
{
    let l = view.layout;
    let one = bytes::zeros(31).push(1);
    let a = view.at(pka::State::ScalarMul);
    lemma_parameters(a);
    let a1 = a.with_p256().with(K_IDX, scalar);
    lemma_kept(a.with_p256(), K_IDX, scalar);
    let a2 = a1.with(X_IDX, first.take(32));
    lemma_kept(a1, X_IDX, first.take(32));
    let a3 = a2.with(Y_IDX, first.skip(32));
    lemma_kept(a2, Y_IDX, first.skip(32));
    assert(view.multiplying(scalar, first) == a3.started(Mode::MontgomeryECC));
    let b = view.at(pka::State::PointAddition);
    lemma_parameters(b);
    let b1 = b.with_p256().with(l.add_p_x, first.take(32));
    lemma_kept(b.with_p256(), l.add_p_x, first.take(32));
    let b2 = b1.with(l.add_p_y, first.skip(32));
    lemma_kept(b1, l.add_p_y, first.skip(32));
    let b3 = b2.with(l.add_p_z, one);
    lemma_kept(b2, l.add_p_z, one);
    let b4 = b3.with(l.add_q_x, second.take(32));
    lemma_kept(b3, l.add_q_x, second.take(32));
    let b5 = b4.with(l.add_q_y, second.skip(32));
    lemma_kept(b4, l.add_q_y, second.skip(32));
    let b6 = b5.with(l.add_q_z, one);
    lemma_kept(b5, l.add_q_z, one);
    assert(view.adding(first, second) == b6.started(Mode::ECCCompleteAddition));
    let c = view.at(pka::State::VerifyPoint);
    lemma_parameters(c);
    let c1 = c.with_p256().with(X_IDX, first.take(32));
    lemma_kept(c.with_p256(), X_IDX, first.take(32));
    let c2 = c1.with(RESULT_Y_IDX, first.skip(32));
    lemma_kept(c1, RESULT_Y_IDX, first.skip(32));
    assert(view.verifying(first) == c2.started(Mode::FpCheck));
}

/// When points are added the accelerator finds, at the place for that, the modulus of the curve once
/// more, where the coordinates leave it; and, with the points it multiplies and checks, the square of
/// 2 to the 256 modulo that modulus.
pub proof fn law_modulus_for_an_addition(view: PkaView, first: Seq<u8>, second: Seq<u8>)
    requires
        view.wf(),
        curve_left(view.layout),
        first.len() == 64,
        second.len() == 64,
        forall|place: usize|
            (place == view.layout.add_p_x || place == view.layout.add_p_y || place
                == view.layout.add_p_z || place == view.layout.add_q_x || place
                == view.layout.add_q_y || place == view.layout.add_q_z)
                ==> #[trigger] pka_laws::coordinates_apart(view.layout.add_curve_modulus, place)
                && pka_laws::coordinates_apart(view.layout.montgomery_r2, place),
        pka_laws::coordinates_apart(view.layout.add_curve_modulus, view.layout.montgomery_r2),
    ensures
        ({
            let begun = view.adding(first, second);
            let p = bytes::be_value(begun.number(CURVE_MODULUS_IDX, 32)) as int;
            let r2 = bytes::be_value(begun.number(view.layout.montgomery_r2, 32)) as int;
            &&& begun.number(view.layout.add_curve_modulus, 32) == begun.number(
                CURVE_MODULUS_IDX,
                32,
            )
            &&& (bytes::pow256(32) * bytes::pow256(32)) as int % p == r2
        }),
{
    ecc_constants::lemma_sizes();
    p256_laws::law_montgomery_parameter();
    law_sizes_of_the_parameters(view, bytes::zeros(32), first, second);
    let l = view.layout;
    let begun = view.adding(first, second);
    assert(pka_laws::coordinates_apart(l.add_curve_modulus, l.add_p_x));
    assert(pka_laws::coordinates_apart(l.add_curve_modulus, l.add_p_y));
    assert(pka_laws::coordinates_apart(l.add_curve_modulus, l.add_p_z));
    assert(pka_laws::coordinates_apart(l.add_curve_modulus, l.add_q_x));
    assert(pka_laws::coordinates_apart(l.add_curve_modulus, l.add_q_y));
    assert(pka_laws::coordinates_apart(l.add_curve_modulus, l.add_q_z));
    assert(begun.number(l.add_curve_modulus, 32) == ecc_constants::p());
    assert(begun.number(l.montgomery_r2, 32) == ecc_constants::r2_mod_p());
}

/// Where the generator is asked for, the accelerator is started on a point that meets the equation of
/// the curve whose parameters it finds; and a point is doubled by multiplying it by two.
pub proof fn law_generator_and_double(
    view: PkaView,
    use_curve_generator: bool,
    calls: Seq<crate::hil::trace::Call>,
    scaled: PkaView,
    doubled: PkaView,
)
    requires
        view.wf(),
        curve_left(view.layout),
        pka::multiplication_started(view, use_curve_generator, calls, scaled),
        pka::doubling_started(view, use_curve_generator, calls, doubled),
    ensures
        ({
            let p = bytes::be_value(scaled.number(CURVE_MODULUS_IDX, 32)) as int;
            let a = bytes::be_value(scaled.number(CURVE_A_IDX, 32)) as int;
            let b = bytes::be_value(scaled.number(CURVE_B_IDX, 32)) as int;
            let x = bytes::be_value(scaled.number(X_IDX, 32)) as int;
            let y = bytes::be_value(scaled.number(Y_IDX, 32)) as int;
            &&& use_curve_generator ==> (x * x * x + a * x + b - y * y) % p == 0
            &&& use_curve_generator ==> doubled.number(X_IDX, 32) == scaled.number(X_IDX, 32)
            &&& use_curve_generator ==> doubled.number(Y_IDX, 32) == scaled.number(Y_IDX, 32)
            &&& bytes::be_value(doubled.number(K_IDX, 32)) == 2
        }),
{
    ecc_constants::lemma_sizes();
    p256_laws::law_generator_is_on_the_curve();
    let two = bytes::zeros(31).push(2);
    let (scalar, point) = choose|scalar: Seq<u8>, point: Seq<u8>|
        {
            &&& pka::brought(
                view.ecc_client,
                calls,
                0,
                crate::hil::trace::Port::Scalar,
                32,
                scalar,
            )
            &&& use_curve_generator ==> point == pka::generator()
            &&& scaled == #[trigger] view.multiplying(scalar, point)
        };
    let twin = choose|point: Seq<u8>|
        {
            &&& if use_curve_generator {
                point == pka::generator()
            } else {
                pka::brought(
                    view.ecc_client,
                    calls,
                    0,
                    crate::hil::trace::Port::Point,
                    64,
                    point,
                )
            }
            &&& doubled == #[trigger] view.multiplying(two, point)
        };
    if use_curve_generator {
        assert(point.take(32) =~= ecc_constants::generator_x());
        assert(point.skip(32) =~= ecc_constants::generator_y());
        law_sizes_of_the_parameters(view, scalar, point, point);
        assert(scaled.number(X_IDX, 32) == ecc_constants::generator_x());
        assert(scaled.number(Y_IDX, 32) == ecc_constants::generator_y());
    }
    assert(twin.len() == 64);
    assert(doubled.number(K_IDX, 32) == two);
    lemma_leading_zeros(31, seq![2u8]);
    assert(bytes::zeros(31) + seq![2u8] =~= two);
    assert(seq![2u8].drop_last() =~= Seq::<u8>::empty());
    assert(bytes::be_value(seq![2u8].drop_last()) == 0);
}

/// A point that is checked is in place, both of its coordinates, and the answer is that it lies on the
/// curve exactly if the accelerator leaves its code for success where the layout says.
pub proof fn law_point_that_is_checked(view: PkaView, point: Seq<u8>, later: PkaView)
    requires
        view.wf(),
        point.len() == 64,
        view.ecc_client is Some,
        pka_laws::worked(view.verifying(point), later),
    ensures
        ({
            let begun = view.verifying(point);
            let (ended, event) = later.interrupted();
            &&& begun.control.start
            &&& begun.control.mode is FpCheck
            &&& begun.number(X_IDX, 32) == point.take(32)
            &&& begun.number(RESULT_Y_IDX, 32) == point.skip(32)
            &&& ended.state is Idle
            &&& event is Point
            &&& event->point is None
            &&& event->done == Some(
                if later.ram[view.layout.add_p_y as int] == 0xD60D {
                    Ok(())
                } else {
                    Err(crate::error::ErrorCode::INVAL)
                },
            )
        }),
{
}

/// After the first and the second conversion of a sum the coordinates that came out of it are fed back
/// as the point that is converted, and the conversion is started again.
pub proof fn law_sum_is_fed_back(view: PkaView)
    requires
        view.wf(),
        view.state is ProjToAffinePass1 || view.state is ProjToAffinePass2,
        view.layout.add_result_x + 8 <= RAM_WORDS,
        view.layout.add_result_y + 8 <= RAM_WORDS,
        pka_laws::coordinates_apart(view.layout.add_result_x, view.layout.add_result_y),
        pka_laws::coordinates_apart(view.layout.add_result_x, RESULT_Y_IDX),
    ensures
        ({
            let later = view.interrupted().0;
            &&& later.number(view.layout.add_result_x, 32) == view.number(RESULT_X_IDX, 32)
            &&& later.number(view.layout.add_result_y, 32) == view.number(RESULT_Y_IDX, 32)
            &&& later.control.start
            &&& later.control.en
            &&& later.control.mode is ECCProjectiveToAffine
        }),
{
}

/// An exponentiation is taken on exactly if the accelerator is free, there is room for the result,
/// exponent and message are not empty, and neither the exponent nor the modulus is zero. It works on
/// as many bytes of exponent and message as the modulus has, from the front.
pub proof fn law_power_that_is_accepted(view: PkaView, job: pka::JobView)
    ensures
        view.exponent_result(job) is Ok <==> {
            &&& !view.status.busy
            &&& view.state is Idle
            &&& job.modulus.len() <= job.result.len()
            &&& job.exponent.len() > 0
            &&& job.message.len() > 0
            &&& bytes::be_value(pka::front(job.exponent, job.modulus.len())) > 0
            &&& bytes::be_value(job.modulus) > 0
        },
        view.status.busy || !(view.state is Idle) ==> view.exponent_result(job) == Err::<
            (),
            crate::error::ErrorCode,
        >(crate::error::ErrorCode::BUSY),
        job.exponent.len() <= job.modulus.len() ==> pka::front(job.exponent, job.modulus.len())
            == job.exponent,
        job.exponent.len() > job.modulus.len() ==> pka::front(job.exponent, job.modulus.len())
            == job.exponent.take(job.modulus.len() as int),
{
}

/// A client of operations on points gets a point that is ready before it is told of an end, each once,
/// and a client of modular operations gets the number before that; a client that the event is not for
/// is not called.
pub proof fn law_results_reach_the_client(
    event: PkaEventView,
    point_calls: Seq<crate::hil::trace::Call>,
    number_calls: Seq<crate::hil::trace::Call>,
)
    requires
        pka::point_delivered(event, point_calls),
        pka::number_delivered(event, number_calls),
    ensures
        event matches PkaEventView::Point { point, done } ==> {
            &&& number_calls.len() == 0
            &&& point matches Some(point) ==> point_calls.len() > 0 && point_calls[0] is Write
                && point_calls[0]->data == point
            &&& done matches Some(result) ==> point_calls.len() > 0 && point_calls.last()
                == (crate::hil::trace::Call::Done { result })
            &&& point is Some && done is Some ==> point_calls.len() == 2
            &&& point is None && done is None ==> point_calls.len() == 0
        },
        event matches PkaEventView::Number { number, result } ==> {
            &&& point_calls.len() == 0
            &&& number_calls.len() > 0
            &&& number_calls.last() == (crate::hil::trace::Call::Done { result })
            &&& number matches Some(number) ==> number_calls.len() == 2 && number_calls[0] is Write
                && number_calls[0]->data == number
            &&& number is None ==> number_calls.len() == 1
        },
        event is Nothing ==> point_calls.len() == 0 && number_calls.len() == 0,
{
}

/// A point that is to be checked is the one that the client hands out.
pub proof fn law_point_that_is_handed_out_is_checked(
    view: PkaView,
    calls: Seq<crate::hil::trace::Call>,
    later: PkaView,
)
    requires
        view.wf(),
        view.ecc_client is Some,
        pka::verification_started(view, calls, later),
    ensures
        calls.len() == 1,
        calls[0] is Fill,
        calls[0]->Fill_buffer.len() == 64,
        later.number(X_IDX, 32) + later.number(RESULT_Y_IDX, 32) == calls[0]->Fill_buffer,
        later.control.mode is FpCheck,
{
    let point = choose|point: Seq<u8>|
        {
            &&& pka::brought(
                view.ecc_client,
                calls,
                0,
                crate::hil::trace::Port::Point,
                64,
                point,
            )
            &&& later == #[trigger] view.verifying(point)
        };
    assert(later.number(X_IDX, 32) == point.take(32));
    assert(later.number(RESULT_Y_IDX, 32) == point.skip(32));
    assert(point.take(32) + point.skip(32) =~= point);
}

/// A point is multiplied by the scalar that the client hands out, and it is the point that the client
/// hands out where the generator is not asked for; two points that are added are the two that the
/// client hands out, in that order, or the generator and the one.
pub proof fn law_points_that_are_handed_out(
    view: PkaView,
    use_curve_generator: bool,
    calls: Seq<crate::hil::trace::Call>,
    scaled: PkaView,
    more_calls: Seq<crate::hil::trace::Call>,
    added: PkaView,
)
    requires
        view.wf(),
        curve_left(view.layout),
        pka_laws::points_apart(view.layout),
        view.ecc_client is Some,
        pka::multiplication_started(view, use_curve_generator, calls, scaled),
        pka::addition_started(view, use_curve_generator, more_calls, added),
    ensures
        calls.len() == (if use_curve_generator {
            1nat
        } else {
            2
        }),
        scaled.number(K_IDX, 32) == calls[0]->Fill_buffer,
        scaled.number(X_IDX, 32) + scaled.number(Y_IDX, 32) == (if use_curve_generator {
            pka::generator()
        } else {
            calls[1]->Fill_buffer
        }),
        more_calls.len() == calls.len(),
        added.number(view.layout.add_p_x, 32) + added.number(view.layout.add_p_y, 32) == (
        if use_curve_generator {
            pka::generator()
        } else {
            more_calls[0]->Fill_buffer
        }),
        added.number(view.layout.add_q_x, 32) + added.number(view.layout.add_q_y, 32)
            == more_calls.last()->Fill_buffer,
{
    ecc_constants::lemma_sizes();
    let (scalar, point) = choose|scalar: Seq<u8>, point: Seq<u8>|
        {
            &&& pka::brought(
                view.ecc_client,
                calls,
                0,
                crate::hil::trace::Port::Scalar,
                32,
                scalar,
            )
            &&& if use_curve_generator {
                point == pka::generator()
            } else {
                pka::brought(
                    view.ecc_client,
                    calls,
                    1,
                    crate::hil::trace::Port::Point,
                    64,
                    point,
                )
            }
            &&& scaled == #[trigger] view.multiplying(scalar, point)
        };
    let at: int = if use_curve_generator {
        0
    } else {
        1
    };
    let (first, second) = choose|first: Seq<u8>, second: Seq<u8>|
        {
            &&& if use_curve_generator {
                first == pka::generator()
            } else {
                pka::brought(
                    view.ecc_client,
                    more_calls,
                    0,
                    crate::hil::trace::Port::Point,
                    64,
                    first,
                )
            }
            &&& pka::brought(
                view.ecc_client,
                more_calls,
                at,
                crate::hil::trace::Port::SecondPoint,
                64,
                second,
            )
            &&& added == #[trigger] view.adding(first, second)
        };
    assert(scaled.number(K_IDX, 32) == scalar);
    assert(scaled.number(X_IDX, 32) == point.take(32));
    assert(scaled.number(Y_IDX, 32) == point.skip(32));
    assert(point.take(32) + point.skip(32) =~= point);
    pka_laws::law_sum_of_the_points(view, first, second);
    assert(first.take(32) + first.skip(32) =~= first);
    assert(second.take(32) + second.skip(32) =~= second);
}

/// A modular operation works on what the client hands out: the modulus, then the first number, then
/// the second, all of the length that was asked for.
pub proof fn law_numbers_that_are_handed_out(
    view: PkaView,
    modulus_len: nat,
    operation: SupportedOp,
    calls: Seq<crate::hil::trace::Call>,
    later: PkaView,
)
    requires
        view.wf(),
        view.math_client is Some,
        0 < modulus_len <= 512,
        pka_laws::arithmetic_apart(view.layout, modulus_len),
        pka::computation_started(view, modulus_len, operation, calls, later),
    ensures
        calls.len() == 3,
        later.number(MOD_VALUE_IDX, modulus_len) == calls[0]->Fill_buffer,
        operation is Addition ==> later.control.mode is ModularAddition,
        operation is Multiplication ==> later.control.mode is MontgomeryOnly,
        operation is Division ==> later.control.mode is ModularInversion,
        operation is Addition ==> later.number(view.layout.arith_op_a, modulus_len)
            == calls[1]->Fill_buffer && later.number(OP_A_IDX, modulus_len)
            == calls[2]->Fill_buffer,
        operation is Multiplication ==> later.number(OP_A_IDX, modulus_len)
            == calls[1]->Fill_buffer && later.number(EXP_IDX, modulus_len)
            == calls[2]->Fill_buffer,
        operation is Division ==> later.number(OP_A_IDX, modulus_len) == calls[1]->Fill_buffer
            && later.number(view.layout.arith_op_a, modulus_len) == calls[2]->Fill_buffer,
        calls[0] is Fill && calls[0]->Fill_port is Modulus,
        calls[1] is Fill && calls[1]->Fill_port is Number,
        calls[2] is Fill && calls[2]->Fill_port is Number,
{
}

/// The accelerator is started enabled, on the operation that is asked for, with every interrupt on:
/// that of the end and those of the three errors.
pub proof fn law_started_with_its_interrupts(view: PkaView, mode: Mode)
    ensures
        ({
            let started = view.started(mode);
            &&& started.control.mode == mode
            &&& started.control.en
            &&& started.control.start
            &&& started.control.procendie
            &&& started.control.operrie
            &&& started.control.adderrie
            &&& started.control.ramerrie
            &&& started.ram == view.ram
            &&& started.state == view.state
        }),
{
}

/// An interrupt clears exactly the flags that it finds. One that does not tell of an end ends a power,
/// a sum of points and a modular operation with `FAIL`: the client gets no number and no point, and a
/// buffer for a power comes back as it was.
pub proof fn law_failure_is_told(view: PkaView)
    requires
        view.wf(),
        view.rsa_client is Some,
        view.ecc_client is Some,
        view.math_client is Some,
    ensures
        ({
            let (later, event) = view.interrupted();
            let failed = !view.status.flags.procend;
            let fail = crate::error::ErrorCode::FAIL;
            &&& later.cleared == view.status.flags
            &&& failed && view.state is Rsa ==> later.state is Idle && later.job is None && event
                == PkaEventView::ModExponentDone { status: Err(fail), job: view.job->0 }
            &&& failed && view.state is PointAddition ==> later.state is Idle && event
                == PkaEventView::Point { point: None, done: Some(Err(fail)) }
            &&& failed && (view.state is MathAddition || view.state is MathDivisionInvert
                || view.state is MathComputeR2 || view.state is MathComputeAR
                || view.state is MathComputeAB) ==> later.state is Idle && event
                == PkaEventView::Number { number: None, result: Err(fail) }
            &&& view.state is Idle ==> later.state is Idle && event is Nothing && later.ram
                == view.ram
        }),
{
}

/// The operand length that a modular operation is started with.
pub open spec fn operand_bits(view: PkaView) -> int {
    view.ram[OP_LEN_IDX as int] + 0x1_0000_0000 * view.ram[OP_LEN_IDX + 1]
}

/// One more step of a modular operation keeps the operand length.
proof fn lemma_step_keeps_size(view: PkaView, result: Seq<u8>)
    requires
        view.ram.len() == RAM_WORDS,
        OP_LEN_IDX + 2 <= view.layout.arith_op_a,
        OP_LEN_IDX + 2 <= view.layout.math_result,
        !(view.state is Rsa),
        !(view.state is ProjToAffinePass1),
        !(view.state is ProjToAffinePass2),
    ensures
        ({
            let later = pka_laws::computed(view, result).interrupted().0;
            &&& operand_bits(later) == operand_bits(view)
            &&& later.ram.len() == RAM_WORDS
            &&& later.layout == view.layout
            &&& !(later.state is Rsa)
            &&& !(view.state is PointAddition) ==> !(later.state is ProjToAffinePass1)
            &&& !(later.state is ProjToAffinePass2)
            &&& !(later.state is PointAddition) || view.state is PointAddition
        }),
{
    let done = pka_laws::computed(view, result);
    assert(operand_bits(done) == operand_bits(view));
    let later = done.interrupted().0;
    assert(later.ram[OP_LEN_IDX as int] == done.ram[OP_LEN_IDX as int]);
    assert(later.ram[OP_LEN_IDX + 1] == done.ram[OP_LEN_IDX + 1]);
}

/// Whatever the modular operation, it is started on operands of as many bits as the bytes of the
/// modulus have, and so is each of its later steps.
pub proof fn law_size_of_the_operands(
    view: PkaView,
    operation: SupportedOp,
    modulus: Seq<u8>,
    first: Seq<u8>,
    second: Seq<u8>,
    result: Seq<u8>,
)
    requires
        view.wf(),
        0 < modulus.len() <= 512,
        first.len() == modulus.len(),
        second.len() == modulus.len(),
        result.len() == modulus.len(),
        OP_LEN_IDX + 2 <= view.layout.arith_op_a,
        OP_LEN_IDX + 2 <= view.layout.math_result,
    ensures
        ({
            let begun = view.computing(operation, modulus, first, second);
            let once = pka_laws::computed(begun, result).interrupted().0;
            let twice = pka_laws::computed(once, result).interrupted().0;
            let thrice = pka_laws::computed(twice, result).interrupted().0;
            &&& operand_bits(begun) == 8 * modulus.len()
            &&& operand_bits(once) == 8 * modulus.len()
            &&& operand_bits(twice) == 8 * modulus.len()
            &&& operand_bits(thrice) == 8 * modulus.len()
            &&& begun.math_len == modulus.len()
        }),
{
    let begun = view.computing(operation, modulus, first, second);
    let once = pka_laws::computed(begun, result).interrupted().0;
    let twice = pka_laws::computed(once, result).interrupted().0;
    assert(operand_bits(begun) == 8 * modulus.len());
    lemma_step_keeps_size(begun, result);
    lemma_step_keeps_size(once, result);
    lemma_step_keeps_size(twice, result);
}

/// An exponentiation is started on an exponent and on operands of the bit lengths that are given, in
/// a RAM that holds nothing else: every word outside of exponent, base, modulus and the two lengths
/// is zero.
pub proof fn law_sizes_of_a_power(
    view: PkaView,
    job: pka::JobView,
    exp_bits: u32,
    op_bits: u32,
    k: int,
)
    requires
        view.wf(),
        0 < job.modulus.len() <= 512,
        0 <= k < RAM_WORDS,
    ensures
        ({
            let begun = view.exponentiating(job, exp_bits, op_bits);
            let words = pka_ram::word_count(job.modulus.len());
            &&& begun.ram[EXP_LEN_IDX as int] == exp_bits
            &&& begun.ram[EXP_LEN_IDX + 1] == 0
            &&& begun.ram[OP_LEN_IDX as int] == op_bits
            &&& begun.ram[OP_LEN_IDX + 1] == 0
            &&& OP_LEN_IDX + 2 <= k && !(OP_A_IDX <= k < OP_A_IDX + words) && !(EXP_IDX <= k
                < EXP_IDX + words) && !(MOD_VALUE_IDX <= k < MOD_VALUE_IDX + words)
                ==> begun.ram[k] == 0
        }),
{
}

/// A number has one bit length, whose bytes are those that are left without leading zeros.
pub proof fn law_one_bit_length(bits: u32, other: u32, zeros: nat, rest: Seq<u8>)
    requires
        rest.len() > 0,
        rest[0] != 0,
        pka::bit_length(bits, bytes::zeros(zeros) + rest),
        pka::bit_length(other, bytes::zeros(zeros) + rest),
    ensures
        bits == other,
        8 * (rest.len() - 1) < bits <= 8 * rest.len(),
{
    let data = bytes::zeros(zeros) + rest;
    let value = bytes::be_value(data);
    lemma_leading_zeros(zeros, rest);
    bytes::lemma_be_value_bound(rest);
    lemma_leading_byte(rest);
    pka_ram::lemma_pow256_is_pow2(rest.len());
    pka_ram::lemma_pow256_is_pow2((rest.len() - 1) as nat);
    if bits < other {
        lemma_pow2_grows(bits as nat, (other - 1) as nat);
    }
    if other < bits {
        lemma_pow2_grows(other as nat, (bits - 1) as nat);
    }
    if bits > 8 * rest.len() {
        lemma_pow2_grows(8 * rest.len(), (bits - 1) as nat);
    }
    if bits <= 8 * (rest.len() - 1) {
        lemma_pow2_grows(bits as nat, (8 * (rest.len() - 1)) as nat);
    }
}

/// A higher power of two is no less.
proof fn lemma_pow2_grows(a: nat, b: nat)
    requires
        a <= b,
    ensures
        vstd::arithmetic::power2::pow2(a) <= vstd::arithmetic::power2::pow2(b),
{
    if a < b {
        vstd::arithmetic::power2::lemma_pow2_strictly_increases(a, b);
    }
}

/// Zeros in front of a number leave it as it is.
pub proof fn lemma_leading_zeros(zeros: nat, rest: Seq<u8>)
    ensures
        bytes::be_value(bytes::zeros(zeros) + rest) == bytes::be_value(rest),
    decreases rest.len(), zeros,
{
    let data = bytes::zeros(zeros) + rest;
    if rest.len() > 0 {
        lemma_leading_zeros(zeros, rest.drop_last());
        assert(data.drop_last() =~= bytes::zeros(zeros) + rest.drop_last());
    } else if zeros > 0 {
        lemma_leading_zeros((zeros - 1) as nat, rest);
        assert(data.drop_last() =~= bytes::zeros((zeros - 1) as nat) + rest);
    } else {
        assert(data =~= rest);
    }
}

/// A number whose first byte is not zero has that many bytes.
proof fn lemma_leading_byte(rest: Seq<u8>)
    requires
        rest.len() > 0,
        rest[0] != 0,
    ensures
        bytes::pow256((rest.len() - 1) as nat) <= bytes::be_value(rest),
    decreases rest.len(),
{
    if rest.len() > 1 {
        lemma_leading_byte(rest.drop_last());
        let n = (rest.len() - 1) as nat;
        assert(bytes::pow256(n) == 256 * bytes::pow256((n - 1) as nat));
    } else {
        assert(bytes::be_value(rest.drop_last()) == 0);
        assert(bytes::pow256(0) == 1);
    }
}

/// The operands lie where the memory map of the accelerator has them: four bytes to a word, from the
/// start of the RAM on.
pub proof fn law_addresses_of_the_operands()
    ensures
        0x400 + 4 * RAM_WORDS == 0x14D8,
        0x400 + 4 * EXP_LEN_IDX == 0x400,
        0x400 + 4 * OP_LEN_IDX == 0x408,
        0x400 + 4 * OP_A_IDX == 0xC68,
        0x400 + 4 * EXP_IDX == 0xE78,
        0x400 + 4 * MOD_VALUE_IDX == 0x1088,
        0x400 + 4 * RESULT_IDX == 0x838,
        0x400 + 4 * PRIME_ORDER_LEN_IDX == 0x400,
        0x400 + 4 * CURVE_MODULUS_LEN_IDX == 0x408,
        0x400 + 4 * CURVE_A_SIGN_IDX == 0x410,
        0x400 + 4 * CURVE_A_IDX == 0x418,
        0x400 + 4 * CURVE_B_IDX == 0x520,
        0x400 + 4 * CURVE_MODULUS_IDX == 0x1088,
        0x400 + 4 * K_IDX == 0x12A0,
        0x400 + 4 * X_IDX == 0x578,
        0x400 + 4 * Y_IDX == 0x470,
        0x400 + 4 * PRIME_ORDER_IDX == 0xF88,
        0x400 + 4 * RESULT_X_IDX == 0x578,
        0x400 + 4 * RESULT_Y_IDX == 0x5D0,
        NO_ERRORS_OCCURED == 0xD60D,
{
}

/// Every operation has a code of six bits of its own: no other operation has the same, and the codes
/// are those of the accelerator.
pub proof fn law_codes_of_the_operations(mode: Mode, other: Mode)
    ensures
        mode.spec_code() < 64,
        mode.spec_code() == other.spec_code() ==> mode == other,
        Mode::MontgomeryModularExp.spec_code() == 0x00,
        Mode::MontgomeryOnly.spec_code() == 0x01,
        Mode::ModularInversion.spec_code() == 0x08,
        Mode::ModularAddition.spec_code() == 0x0E,
        Mode::MontgomeryMultiplication.spec_code() == 0x10,
        Mode::MontgomeryECC.spec_code() == 0x20,
        Mode::ECCCompleteAddition.spec_code() == 0x23,
        Mode::FpCheck.spec_code() == 0x28,
        Mode::ECCProjectiveToAffine.spec_code() == 0x2F,
{
}

} // verus!
