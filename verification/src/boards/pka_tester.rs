//! A chain of operations that tries out the public key accelerator: three on points of the curve,
//! then three on numbers.
use crate::error::ErrorCode;
use crate::hil::ecc_math;
use crate::hil::ecc_math::{EccClient, EccCrypto};
use crate::hil::modular_arithmetic;
use crate::hil::modular_arithmetic::{MathClient, MathCryptoBase};
use crate::hil::trace;
use crate::hil::trace::{Call, EccOperation, Observed, Port};
use crate::stm32u5::pka;
use crate::stm32u5::pka::{Pka, PkaView, SupportedOp};
use crate::stm32u5::pka_start_laws;
use crate::sw::bytes;
use vstd::prelude::*;

verus! {

/// Length of a number, in bytes.
pub const NUMBER_LEN: usize = 32;

/// Length of a point, in bytes.
pub const POINT_LEN: usize = 64;

/// Scalar to multiply the doubled point.
pub const TEST_ECC_SCALAR: u8 = 3;

/// Operand A for modular arithmetic.
pub const TEST_MATH_A: u8 = 5;

/// Operand B for modular arithmetic.
pub const TEST_MATH_B: u8 = 7;

/// Last byte of the modulus for modular arithmetic; all the others are 0xff.
pub const TEST_MATH_MODULUS_END: u8 = 0xfd;

/// What the tester waits for.
#[derive(Clone, Copy, Debug, PartialEq, Eq, Structural)]
pub enum TestState {
    EccWaitDoubling,
    EccWaitMul,
    EccWaitAdd,
    MathWaitAdd,
    MathWaitMul,
    MathWaitDiv,
    Done,
}

/// An operation that the accelerator is to start.
#[derive(Clone, Copy, Debug, PartialEq, Eq, Structural)]
pub enum Start {
    /// Double the generator.
    PointDoubling,
    /// Multiply the doubled point by the scalar.
    ScalarMultiplication,
    /// Add the doubled point to the multiplied point.
    PointAddition,
    Computation(SupportedOp),
}

/// How the accelerator says an operation ended, until the tester has acted on it.
#[derive(Clone, Copy)]
pub enum Completion {
    Ecc(Result<(), ErrorCode>),
    Math(Result<(), ErrorCode>),
}

/// A client of the accelerator that has it compute one operation after the other.
pub struct PkaTester {
    state: TestState,
    point_doubled: [u8; 64],
    point_mul: [u8; 64],
    ecc_output: [u8; 64],
    out_done: usize,
    math_output: [u8; 32],
    math_read_count: u8,
    completion: Option<Completion>,
    log: Ghost<Seq<Call>>,
}

/// What the tester is.
#[verifier::ext_equal]
pub struct TesterView {
    pub state: TestState,
    pub point_doubled: Seq<u8>,
    pub point_mul: Seq<u8>,
    /// What has come of a point.
    pub ecc_output: Seq<u8>,
    pub out_done: nat,
    pub math_output: Seq<u8>,
    /// How many operands were read: none, or one.
    pub math_read_count: u8,
    pub completion: Option<Completion>,
}

impl View for PkaTester {
    type V = TesterView;

    closed spec fn view(&self) -> TesterView {
        TesterView {
            state: self.state,
            point_doubled: self.point_doubled@,
            point_mul: self.point_mul@,
            ecc_output: self.ecc_output@,
            out_done: self.out_done as nat,
            math_output: self.math_output@,
            math_read_count: self.math_read_count,
            completion: self.completion,
        }
    }
}

/// A small number, in 32 bytes.
pub open spec fn small(value: u8) -> Seq<u8> {
    bytes::zeros(31).push(value)
}

/// The modulus.
pub open spec fn modulus() -> Seq<u8> {
    Seq::new(31, |i: int| 0xffu8).push(TEST_MATH_MODULUS_END)
}

/// A point that is handed out into a buffer of zeros; without one the zeros stay.
pub open spec fn or_zeros(point: Option<Seq<u8>>) -> Seq<u8> {
    match point {
        Some(point) => point,
        None => bytes::zeros(64),
    }
}

impl TesterView {
    /// The invariant.
    pub open spec fn wf(self) -> bool {
        &&& self.point_doubled.len() == 64
        &&& self.point_mul.len() == 64
        &&& self.ecc_output.len() == 64
        &&& self.out_done <= 64
        &&& self.math_output.len() == 32
        &&& self.math_read_count <= 1
    }

    /// The point that the state hands out, if it does.
    pub open spec fn first_point(self) -> Option<Seq<u8>> {
        match self.state {
            TestState::EccWaitMul | TestState::EccWaitAdd => Some(self.point_doubled),
            _ => None,
        }
    }

    /// The second point that the state hands out, if it does.
    pub open spec fn second_point(self) -> Option<Seq<u8>> {
        match self.state {
            TestState::EccWaitAdd => Some(self.point_mul),
            _ => None,
        }
    }

    /// The operand that comes next: A, then B.
    pub open spec fn operand(self) -> Seq<u8> {
        if self.math_read_count == 0 {
            small(TEST_MATH_A)
        } else {
            small(TEST_MATH_B)
        }
    }

    /// The tester after an operand was read.
    pub open spec fn operand_read(self) -> TesterView {
        TesterView { math_read_count: (1 - self.math_read_count) as u8, ..self }
    }

    /// The accelerator after it has started an operation on the operands that the tester hands out.
    /// Without a client it works on zeros.
    pub open spec fn started(self, start: Start, pka: PkaView) -> PkaView {
        match start {
            Start::PointDoubling => pka.multiplying(small(2), pka::generator()),
            Start::ScalarMultiplication => if pka.ecc_client is Some {
                pka.multiplying(small(TEST_ECC_SCALAR), or_zeros(self.first_point()))
            } else {
                pka.multiplying(bytes::zeros(32), bytes::zeros(64))
            },
            Start::PointAddition => if pka.ecc_client is Some {
                pka.adding(or_zeros(self.first_point()), or_zeros(self.second_point()))
            } else {
                pka.adding(bytes::zeros(64), bytes::zeros(64))
            },
            Start::Computation(operation) => if pka.math_client is Some {
                pka.computing(
                    operation,
                    modulus(),
                    self.operand(),
                    self.operand_read().operand(),
                )
            } else {
                pka.computing(operation, bytes::zeros(32), bytes::zeros(32), bytes::zeros(32))
            },
        }
    }

    /// The tester after a piece of a point came.
    pub open spec fn point_received(self, point: Seq<u8>) -> TesterView {
        TesterView {
            ecc_output: self.ecc_output.take(self.out_done as int) + point + self.ecc_output.skip(
                (self.out_done + point.len()) as int,
            ),
            out_done: self.out_done + point.len(),
            ..self
        }
    }

    /// The tester after an operation on points, and what follows.
    pub open spec fn after_ecc(self, result: Result<(), ErrorCode>) -> (TesterView, Option<Start>) {
        let rewound = TesterView { out_done: 0, ..self };
        let cleared = TesterView { ecc_output: bytes::zeros(64), ..rewound };
        if result is Err {
            (rewound, None)
        } else {
            match self.state {
                TestState::EccWaitDoubling => (
                    TesterView {
                        point_doubled: self.ecc_output,
                        state: TestState::EccWaitMul,
                        ..cleared
                    },
                    Some(Start::ScalarMultiplication),
                ),
                TestState::EccWaitMul => (
                    TesterView {
                        point_mul: self.ecc_output,
                        state: TestState::EccWaitAdd,
                        ..cleared
                    },
                    Some(Start::PointAddition),
                ),
                TestState::EccWaitAdd => (
                    TesterView { state: TestState::MathWaitAdd, math_read_count: 0, ..cleared },
                    Some(Start::Computation(SupportedOp::Addition)),
                ),
                _ => (rewound, None),
            }
        }
    }

    /// The tester after an operation on numbers, and what follows.
    pub open spec fn after_math(self, result: Result<(), ErrorCode>) -> (
        TesterView,
        Option<Start>,
    ) {
        if result is Err {
            (self, None)
        } else {
            match self.state {
                TestState::MathWaitAdd => (
                    TesterView { state: TestState::MathWaitMul, math_read_count: 0, ..self },
                    Some(Start::Computation(SupportedOp::Multiplication)),
                ),
                TestState::MathWaitMul => (
                    TesterView { state: TestState::MathWaitDiv, math_read_count: 0, ..self },
                    Some(Start::Computation(SupportedOp::Division)),
                ),
                TestState::MathWaitDiv => (TesterView { state: TestState::Done, ..self }, None),
                _ => (self, None),
            }
        }
    }

    /// The tester after it has acted on the end of an operation, and what follows.
    pub open spec fn resumed(self) -> (TesterView, Option<Start>) {
        let cleared = TesterView { completion: None, ..self };
        match self.completion {
            None => (self, None),
            Some(Completion::Ecc(result)) => cleared.after_ecc(result),
            Some(Completion::Math(result)) => cleared.after_math(result),
        }
    }
}

impl Observed for PkaTester {
    closed spec fn log(&self) -> Seq<Call> {
        self.log@
    }

    open spec fn valid(&self) -> bool {
        self@.wf()
    }
}

/// A small number, in 32 bytes.
fn small_number(value: u8) -> (number: [u8; 32])
    ensures
        number@ == small(value),
{
    let mut number = [0u8;32];
    number[31] = value;
    assert(number@ =~= small(value));
    number
}

/// Copies all of `source` to a buffer of the same length.
fn copy_whole(source: &[u8], buffer: &mut [u8]) -> (result: Result<(), ErrorCode>)
    ensures
        final(buffer)@.len() == old(buffer)@.len(),
        if source@.len() == old(buffer)@.len() {
            result is Ok && final(buffer)@ == source@
        } else {
            result == Err::<(), ErrorCode>(ErrorCode::SIZE) && final(buffer)@ == old(buffer)@
        },
{
    if source.len() != buffer.len() {
        return Err(ErrorCode::SIZE);
    }
    bytes::copy_into(buffer, 0, source);
    assert(buffer@ =~= source@);
    Ok(())
}

/// A buffer was filled with `data`, was left alone where there is none, or had not the right length.
pub open spec fn filled(
    data: Option<Seq<u8>>,
    result: Result<(), ErrorCode>,
    before: Seq<u8>,
    after: Seq<u8>,
) -> bool {
    match data {
        None => result is Ok && after == before,
        Some(data) => if data.len() == before.len() {
            result is Ok && after == data
        } else {
            result == Err::<(), ErrorCode>(ErrorCode::SIZE) && after == before
        },
    }
}

impl PkaTester {
    /// A tester that has not begun.
    pub fn new() -> (tester: PkaTester)
        ensures
            tester.valid(),
            tester.log() == Seq::<Call>::empty(),
            tester@ == (TesterView {
                state: TestState::EccWaitDoubling,
                point_doubled: bytes::zeros(64),
                point_mul: bytes::zeros(64),
                ecc_output: bytes::zeros(64),
                out_done: 0,
                math_output: bytes::zeros(32),
                math_read_count: 0,
                completion: None,
            }),
    {
        let point = [0u8;64];
        let number = [0u8;32];
        assert(point@ =~= bytes::zeros(64));
        assert(number@ =~= bytes::zeros(32));
        PkaTester {
            state: TestState::EccWaitDoubling,
            point_doubled: point,
            point_mul: point,
            ecc_output: point,
            out_done: 0,
            math_output: number,
            math_read_count: 0,
            completion: None,
            log: Ghost(Seq::empty()),
        }
    }

    /// What the tester waits for.
    pub fn state(&self) -> (state: TestState)
        ensures
            state == self@.state,
    {
        self.state
    }

    /// The last number that the accelerator computed.
    pub fn math_output(&self) -> (number: [u8; 32])
        ensures
            number@ == self@.math_output,
    {
        self.math_output
    }

    /// Begins the chain: the generator is to be doubled.
    pub fn start(&mut self) -> (start: Start)
        requires
            old(self).valid(),
        ensures
            final(self).valid(),
            final(self).log() == old(self).log(),
            final(self)@ == (TesterView { state: TestState::EccWaitDoubling, ..old(self)@ }),
            start is PointDoubling,
    {
        self.state = TestState::EccWaitDoubling;
        Start::PointDoubling
    }

    fn act_on_ecc(&mut self, result: Result<(), ErrorCode>) -> (start: Option<Start>)
        requires
            old(self).valid(),
        ensures
            final(self).valid(),
            final(self).log() == old(self).log(),
            (final(self)@, start) == old(self)@.after_ecc(result),
    {
        self.out_done = 0;
        if result.is_err() {
            return None;
        }
        let zeros = [0u8;64];
        assert(zeros@ =~= bytes::zeros(64));
        match self.state {
            TestState::EccWaitDoubling => {
                self.point_doubled = self.ecc_output;
                self.ecc_output = zeros;
                self.state = TestState::EccWaitMul;
                Some(Start::ScalarMultiplication)
            },
            TestState::EccWaitMul => {
                self.point_mul = self.ecc_output;
                self.ecc_output = zeros;
                self.state = TestState::EccWaitAdd;
                Some(Start::PointAddition)
            },
            TestState::EccWaitAdd => {
                self.state = TestState::MathWaitAdd;
                self.math_read_count = 0;
                self.ecc_output = zeros;
                Some(Start::Computation(SupportedOp::Addition))
            },
            _ => None,
        }
    }

    fn act_on_math(&mut self, result: Result<(), ErrorCode>) -> (start: Option<Start>)
        requires
            old(self).valid(),
        ensures
            final(self).valid(),
            final(self).log() == old(self).log(),
            (final(self)@, start) == old(self)@.after_math(result),
    {
        if result.is_err() {
            return None;
        }
        match self.state {
            TestState::MathWaitAdd => {
                self.state = TestState::MathWaitMul;
                self.math_read_count = 0;
                Some(Start::Computation(SupportedOp::Multiplication))
            },
            TestState::MathWaitMul => {
                self.state = TestState::MathWaitDiv;
                self.math_read_count = 0;
                Some(Start::Computation(SupportedOp::Division))
            },
            TestState::MathWaitDiv => {
                self.state = TestState::Done;
                None
            },
            _ => None,
        }
    }

    /// Acts on the end of an operation, if it has come. Returns what is to be started next.
    pub fn resume(&mut self) -> (start: Option<Start>)
        requires
            old(self).valid(),
        ensures
            final(self).valid(),
            final(self).log() == old(self).log(),
            (final(self)@, start) == old(self)@.resumed(),
    {
        match self.completion {
            None => None,
            Some(Completion::Ecc(result)) => {
                self.completion = None;
                self.act_on_ecc(result)
            },
            Some(Completion::Math(result)) => {
                self.completion = None;
                self.act_on_math(result)
            },
        }
    }

    /// Has the accelerator start an operation for the tester. Returns what the accelerator says.
    pub fn perform(&mut self, start: Start, pka: &mut Pka) -> (result: Result<(), ErrorCode>)
        requires
            old(self).valid(),
            old(pka).valid(),
        ensures
            final(self).valid(),
            final(pka).valid(),
            final(pka).log() == old(pka).log().push(asked(start, result)),
            trace::extends(final(self).log(), old(self).log()),
            result == (if old(pka)@.status.busy {
                Err(ErrorCode::BUSY)
            } else {
                Ok(())
            }),
            result is Err ==> final(pka)@ == old(pka)@ && final(self).log() == old(self).log(),
            result is Ok ==> begun(
                start,
                old(pka)@,
                trace::since(final(self).log(), old(self).log()),
                final(pka)@,
            ),
            final(self)@ == old(self)@,
            result is Ok ==> final(pka)@ == old(self)@.started(start, old(pka)@),
    {
        let ghost tester = *self;
        let ghost before = pka@;
        let result = match start {
            Start::PointDoubling => pka.point_doubling(true, self),
            Start::ScalarMultiplication => pka.scalar_multiplication(false, self),
            Start::PointAddition => pka.point_addition(false, self),
            Start::Computation(operation) => pka.start_computation(NUMBER_LEN, operation, self),
        };
        proof {
            if result is Ok {
                let calls = trace::since(self.log(), tester.log());
                match start {
                    Start::PointDoubling => {},
                    Start::ScalarMultiplication | Start::PointAddition => {
                        if before.ecc_client is Some {
                            lemma_two_points_served(tester, calls, *self);
                        }
                    },
                    Start::Computation(_) => {
                        if before.math_client is Some {
                            lemma_numbers_served(tester, calls, *self);
                        }
                    },
                }
            }
        }
        result
    }
}

/// Two operands of an operation on points leave the tester as it was.
proof fn lemma_two_points_served(tester: PkaTester, calls: Seq<Call>, later: PkaTester)
    requires
        ecc_math::served(tester, calls, later),
        calls.len() == 2,
        calls[0] is Fill,
        calls[1] is Fill,
    ensures
        later@ == tester@,
        tester.answers(calls[0], &later),
        tester.answers(calls[1], &later),
{
    reveal_with_fuel(ecc_math::served, 3);
    let middle = choose|middle: PkaTester|
        ecc_math::served(tester, calls.drop_last(), middle) && #[trigger] middle.answers(
            calls.last(),
            &later,
        );
    let first = choose|first: PkaTester|
        ecc_math::served(tester, calls.drop_last().drop_last(), first)
            && #[trigger] first.answers(calls.drop_last().last(), &middle);
    assert(first == tester);
    assert(calls.drop_last().last() == calls[0]);
}

/// The modulus and two operands leave the tester as it was.
proof fn lemma_numbers_served(tester: PkaTester, calls: Seq<Call>, later: PkaTester)
    requires
        tester@.wf(),
        modular_arithmetic::served::<SupportedOp, PkaTester>(tester, calls, later),
        calls.len() == 3,
        calls[0] is Fill && calls[0]->Fill_port is Modulus,
        calls[1] is Fill && calls[1]->Fill_port is Number,
        calls[2] is Fill && calls[2]->Fill_port is Number,
    ensures
        later@ == tester@,
        handed(tester@, calls[0]),
        handed(tester@, calls[1]),
        handed(tester@.operand_read(), calls[2]),
{
    reveal_with_fuel(modular_arithmetic::served, 4);
    let third = choose|third: PkaTester|
        modular_arithmetic::served::<SupportedOp, PkaTester>(tester, calls.drop_last(), third)
            && #[trigger] third.replies(calls.last(), &later);
    let second = choose|second: PkaTester|
        modular_arithmetic::served::<SupportedOp, PkaTester>(
            tester,
            calls.drop_last().drop_last(),
            second,
        ) && #[trigger] second.replies(calls.drop_last().last(), &third);
    let first = choose|first: PkaTester|
        modular_arithmetic::served::<SupportedOp, PkaTester>(
            tester,
            calls.drop_last().drop_last().drop_last(),
            first,
        ) && #[trigger] first.replies(calls.drop_last().drop_last().last(), &second);
    assert(first == tester);
    assert(calls.drop_last().drop_last().last() == calls[0]);
    assert(calls.drop_last().last() == calls[1]);
    assert(later@ =~= tester@);
}

/// What the tester hands out in a call that retrieves an operand.
pub open spec fn handed(tester: TesterView, call: Call) -> bool {
    match call {
        Call::Fill { port, offered, buffer, result } => match port {
            Port::Scalar => filled(Some(small(TEST_ECC_SCALAR)), result, offered, buffer),
            Port::Point => filled(tester.first_point(), result, offered, buffer),
            Port::SecondPoint => filled(tester.second_point(), result, offered, buffer),
            Port::Modulus => filled(Some(modulus()), result, offered, buffer),
            Port::Number => buffer == (if offered.len() == 32 {
                tester.operand()
            } else {
                offered
            }),
            _ => true,
        },
        _ => true,
    }
}

/// The accelerator has started an operation, on the operands that `calls` have read.
pub open spec fn begun(start: Start, pka: PkaView, calls: Seq<Call>, later: PkaView) -> bool {
    match start {
        Start::PointDoubling => pka::doubling_started(pka, true, calls, later),
        Start::ScalarMultiplication => pka::multiplication_started(pka, false, calls, later),
        Start::PointAddition => pka::addition_started(pka, false, calls, later),
        Start::Computation(operation) => pka::computation_started(
            pka,
            NUMBER_LEN as nat,
            operation,
            calls,
            later,
        ),
    }
}

/// The call by which the accelerator is asked to start an operation.
pub open spec fn asked(start: Start, result: Result<(), ErrorCode>) -> Call {
    match start {
        Start::PointDoubling => Call::Ecc {
            operation: EccOperation::Doubling,
            use_curve_generator: true,
            result,
        },
        Start::ScalarMultiplication => Call::Ecc {
            operation: EccOperation::Multiplication,
            use_curve_generator: false,
            result,
        },
        Start::PointAddition => Call::Ecc {
            operation: EccOperation::Addition,
            use_curve_generator: false,
            result,
        },
        Start::Computation(operation) => Call::Compute {
            modulus_len: NUMBER_LEN,
            operation: crate::hil::modular_arithmetic::OpKind::kind(operation),
            result,
        },
    }
}

impl EccClient for PkaTester {
    open spec fn answers(&self, call: Call, later: &Self) -> bool {
        call is Fill ==> later@ == self@ && handed(self@, call)
    }

    fn read_scalar(&mut self, scalar: &mut [u8]) -> (result: Result<(), ErrorCode>)
        ensures
            final(self)@ == old(self)@,
            filled(Some(small(TEST_ECC_SCALAR)), result, old(scalar)@, final(scalar)@),
    {
        let number = small_number(TEST_ECC_SCALAR);
        let result = copy_whole(&number, scalar);
        proof {
            self.log@ = self.log@.push(
                Call::Fill { port: Port::Scalar, offered: old(scalar)@, buffer: scalar@, result },
            );
        }
        result
    }

    fn read_point(&mut self, point: &mut [u8]) -> (result: Result<(), ErrorCode>)
        ensures
            final(self)@ == old(self)@,
            filled(old(self)@.first_point(), result, old(point)@, final(point)@),
    {
        let result = match self.state {
            TestState::EccWaitMul | TestState::EccWaitAdd => copy_whole(&self.point_doubled, point),
            _ => Ok(()),
        };
        proof {
            self.log@ = self.log@.push(
                Call::Fill {
                    port: Port::Point,
                    offered: old(point)@,
                    buffer: point@,
                    result,
                },
            );
        }
        result
    }

    fn read_second_point(&mut self, point: &mut [u8]) -> (result: Result<(), ErrorCode>)
        ensures
            final(self)@ == old(self)@,
            filled(old(self)@.second_point(), result, old(point)@, final(point)@),
    {
        let result = if self.state == TestState::EccWaitAdd {
            copy_whole(&self.point_mul, point)
        } else {
            Ok(())
        };
        proof {
            self.log@ = self.log@.push(
                Call::Fill {
                    port: Port::SecondPoint,
                    offered: old(point)@,
                    buffer: point@,
                    result,
                },
            );
        }
        result
    }

    /// Takes a piece of a point. `SIZE` if more comes than a point has.
    fn write_point(&mut self, point: &[u8]) -> (result: Result<(), ErrorCode>)
        ensures
            if old(self)@.out_done + point@.len() <= 64 {
                result is Ok && final(self)@ == old(self)@.point_received(point@)
            } else {
                result == Err::<(), ErrorCode>(ErrorCode::SIZE) && final(self)@ == old(self)@
            },
    {
        let ghost before = self@;
        let index: usize = self.out_done;
        let result = if point.len() <= POINT_LEN - index {
            bytes::copy_into(&mut self.ecc_output, index, point);
            self.out_done = index + point.len();
            assert(self@.ecc_output =~= before.point_received(point@).ecc_output);
            Ok(())
        } else {
            Err(ErrorCode::SIZE)
        };
        proof {
            self.log@ = self.log@.push(Call::Write { port: Port::Point, data: point@, result });
        }
        result
    }

    fn operation_done(&mut self, result: Result<(), ErrorCode>)
        ensures
            final(self)@ == (TesterView {
                completion: Some(Completion::Ecc(result)),
                ..old(self)@
            }),
    {
        self.completion = Some(Completion::Ecc(result));
        proof {
            self.log@ = self.log@.push(Call::Done { result });
        }
    }
}

impl MathClient<SupportedOp> for PkaTester {
    open spec fn replies(&self, call: Call, later: &Self) -> bool {
        call is Fill ==> {
            &&& later@ == (if call->Fill_port is Number {
                self@.operand_read()
            } else {
                self@
            })
            &&& handed(self@, call)
        }
    }

    fn read_modulus(&mut self, modulus: &mut [u8]) -> (result: Result<(), ErrorCode>)
        ensures
            final(self)@ == old(self)@,
            filled(Some(self::modulus()), result, old(modulus)@, final(modulus)@),
    {
        let mut number = [0xffu8;32];
        number[31] = TEST_MATH_MODULUS_END;
        assert(number@ =~= self::modulus());
        let result = copy_whole(&number, modulus);
        proof {
            self.log@ = self.log@.push(
                Call::Fill {
                    port: Port::Modulus,
                    offered: old(modulus)@,
                    buffer: modulus@,
                    result,
                },
            );
        }
        result
    }

    fn read_number(&mut self, num: &mut [u8])
        ensures
            final(self)@ == old(self)@.operand_read(),
            final(num)@ == (if old(num)@.len() == 32 {
                old(self)@.operand()
            } else {
                old(num)@
            }),
    {
        let number = if self.math_read_count == 0 {
            self.math_read_count = 1;
            small_number(TEST_MATH_A)
        } else {
            self.math_read_count = 0;
            small_number(TEST_MATH_B)
        };
        let _ = copy_whole(&number, num);
        proof {
            self.log@ = self.log@.push(
                Call::Fill { port: Port::Number, offered: old(num)@, buffer: num@, result: Ok(()) },
            );
        }
    }

    /// Takes the first 32 bytes of a result. `SIZE` if it has fewer.
    fn write_number(&mut self, num: &[u8]) -> (result: Result<(), ErrorCode>)
        ensures
            if num@.len() >= 32 {
                result is Ok && final(self)@ == (TesterView {
                    math_output: num@.take(32),
                    ..old(self)@
                })
            } else {
                result == Err::<(), ErrorCode>(ErrorCode::SIZE) && final(self)@ == old(self)@
            },
    {
        let result = if num.len() >= NUMBER_LEN {
            let front: &[u8] = vstd::slice::slice_subrange(num, 0, NUMBER_LEN);
            bytes::copy_into(&mut self.math_output, 0, front);
            assert(self.math_output@ =~= num@.take(32));
            Ok(())
        } else {
            Err(ErrorCode::SIZE)
        };
        proof {
            self.log@ = self.log@.push(Call::Write { port: Port::Number, data: num@, result });
        }
        result
    }

    fn computation_completed(&mut self, result: Result<(), ErrorCode>)
        ensures
            final(self)@ == (TesterView {
                completion: Some(Completion::Math(result)),
                ..old(self)@
            }),
    {
        self.completion = Some(Completion::Math(result));
        proof {
            self.log@ = self.log@.push(Call::Done { result });
        }
    }
}

/// The tester after the accelerator delivered a point and reported success.
pub open spec fn point_answered(tester: TesterView, point: Seq<u8>) -> (TesterView, Option<Start>) {
    TesterView {
        completion: Some(Completion::Ecc(Ok(()))),
        ..tester.point_received(point)
    }.resumed()
}

/// The tester after the accelerator read two operands, delivered a number and reported success.
pub open spec fn number_answered(tester: TesterView, number: Seq<u8>) -> (
    TesterView,
    Option<Start>,
) {
    TesterView {
        math_output: number.take(32),
        completion: Some(Completion::Math(Ok(()))),
        ..tester
    }.resumed()
}

/// Six operations follow one another, each on what it is meant for: the doubled point is the one that
/// is multiplied and added, the multiplied point the one that it is added to.
pub proof fn law_six_operations(
    tester: TesterView,
    doubled: Seq<u8>,
    multiplied: Seq<u8>,
    added: Seq<u8>,
    sum: Seq<u8>,
    product: Seq<u8>,
    quotient: Seq<u8>,
)
    requires
        tester.wf(),
        tester.state is EccWaitDoubling,
        tester.out_done == 0,
        tester.completion is None,
        doubled.len() == 64,
        multiplied.len() == 64,
        added.len() == 64,
        sum.len() == 32,
        product.len() == 32,
        quotient.len() == 32,
    ensures
        ({
            let (second, multiply) = point_answered(tester, doubled);
            let (third, add_points) = point_answered(second, multiplied);
            let (fourth, add) = point_answered(third, added);
            let (fifth, times) = number_answered(fourth, sum);
            let (sixth, divide) = number_answered(fifth, product);
            let (last, nothing) = number_answered(sixth, quotient);
            &&& multiply == Some(Start::ScalarMultiplication)
            &&& second.first_point() == Some(doubled)
            &&& add_points == Some(Start::PointAddition)
            &&& third.first_point() == Some(doubled)
            &&& third.second_point() == Some(multiplied)
            &&& add == Some(Start::Computation(SupportedOp::Addition))
            &&& fourth.math_read_count == 0
            &&& times == Some(Start::Computation(SupportedOp::Multiplication))
            &&& divide == Some(Start::Computation(SupportedOp::Division))
            &&& nothing is None
            &&& last.state is Done
            &&& last.math_output == quotient
        }),
{
    assert(tester.point_received(doubled).ecc_output =~= doubled);
    let second = point_answered(tester, doubled).0;
    assert(second.point_received(multiplied).ecc_output =~= multiplied);
    assert(quotient.take(32) =~= quotient);
}

/// An operation that fails ends the chain: nothing else is started.
pub proof fn law_failure_ends_the_chain(tester: TesterView, error: ErrorCode)
    requires
        tester.completion == Some(Completion::Ecc(Err::<(), ErrorCode>(error)))
            || tester.completion == Some(Completion::Math(Err::<(), ErrorCode>(error))),
    ensures
        tester.resumed().1 is None,
        tester.resumed().0.state == tester.state,
{
}

/// The numbers of the test: the doubled point is multiplied by three, and five and seven are added,
/// multiplied and divided, in that order, modulo 2 to the 256 less three.
pub proof fn law_numbers_of_the_test(tester: TesterView)
    requires
        tester.math_read_count == 0,
    ensures
        bytes::be_value(small(TEST_ECC_SCALAR)) == 3,
        bytes::be_value(tester.operand()) == 5,
        bytes::be_value(tester.operand_read().operand()) == 7,
        tester.operand_read().operand_read() == tester,
        bytes::be_value(modulus()) + 3 == bytes::pow256(32),
        small(TEST_ECC_SCALAR).len() == 32,
        tester.operand().len() == 32,
        modulus().len() == 32,
{
    lemma_small(TEST_ECC_SCALAR);
    lemma_small(TEST_MATH_A);
    lemma_small(TEST_MATH_B);
    lemma_ones(31);
    assert(modulus().drop_last() =~= Seq::new(31, |i: int| 0xffu8));
    assert(bytes::pow256(32) == 256 * bytes::pow256(31));
}

/// A small number is the number that it is made of.
proof fn lemma_small(value: u8)
    ensures
        bytes::be_value(small(value)) == value,
        small(value).len() == 32,
{
    let rest = seq![value];
    pka_start_laws::lemma_leading_zeros(31, rest);
    assert(bytes::zeros(31) + rest =~= small(value));
    assert(rest.drop_last() =~= Seq::<u8>::empty());
    assert(bytes::be_value(rest.drop_last()) == 0);
}

/// A number of which every bit is set is one less than the next power.
proof fn lemma_ones(n: nat)
    ensures
        bytes::be_value(Seq::new(n, |i: int| 0xffu8)) + 1 == bytes::pow256(n),
    decreases n,
{
    if n > 0 {
        let m = (n - 1) as nat;
        lemma_ones(m);
        assert(Seq::new(n, |i: int| 0xffu8).drop_last() =~= Seq::new(m, |i: int| 0xffu8));
    }
}

} // verus!
