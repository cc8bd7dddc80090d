//! The public key accelerator: modular exponentiation, points of P-256 and modular arithmetic.
//!
//! The driver works on an image of the registers. Whoever runs it copies status and RAM in before
//! an interrupt is handled, and writes RAM, control and cleared flags out after each call. After
//! the accelerator is enabled, it must have initialized before the RAM is written.
use crate::driver_mutex::{Kind, Resource};
use crate::error::ErrorCode;
use crate::hil::ecc_constants;
use crate::hil::ecc_constants::NistP256Constants;
use crate::hil::ecc_math;
use crate::hil::ecc_math::{EccClient, EccCrypto, VerifyEccPoint};
use crate::hil::modular_arithmetic;
use crate::hil::modular_arithmetic::{
    MathClient, MathOperation, OpAddition, OpDivision, OpKind, OpMultiplication,
};
use crate::hil::rsa_math;
use crate::hil::rsa_math::ModExponent;
use crate::hil::trace;
use crate::hil::trace::{Call, EccOperation, Observed, Port};
use crate::stm32u5::pka_constants::{
    Control, Flags, Mode, PkaLayout, Status, CURVE_A_IDX, CURVE_A_SIGN_IDX, CURVE_B_IDX,
    CURVE_MODULUS_IDX, CURVE_MODULUS_LEN_IDX, EXP_IDX, EXP_LEN_IDX, K_IDX, MOD_VALUE_IDX,
    NO_ERRORS_OCCURED, OP_A_IDX, OP_LEN_IDX, PRIME_ORDER_IDX, PRIME_ORDER_LEN_IDX, RAM_WORDS,
    RESULT_IDX, RESULT_X_IDX, RESULT_Y_IDX, X_IDX, Y_IDX,
};
use crate::stm32u5::pka_ram;
use crate::sw::bytes;
use vstd::prelude::*;

verus! {

broadcast use {pka_ram::lemma_written_len, pka_ram::lemma_read_len};

/// Modular operations that the accelerator supports.
#[derive(Clone, Copy, Debug, PartialEq, Eq, Structural)]
pub enum SupportedOp {
    Addition,
    Multiplication,
    Division,
}

impl OpKind for SupportedOp {
    open spec fn kind(self) -> MathOperation {
        match self {
            SupportedOp::Addition => MathOperation::Addition,
            SupportedOp::Multiplication => MathOperation::Multiplication,
            SupportedOp::Division => MathOperation::Division,
        }
    }
}

impl OpAddition for SupportedOp {
    fn addition() -> (op: Self) {
        SupportedOp::Addition
    }
}

impl OpMultiplication for SupportedOp {
    fn multiplication() -> (op: Self) {
        SupportedOp::Multiplication
    }
}

impl OpDivision for SupportedOp {
    fn division() -> (op: Self) {
        SupportedOp::Division
    }
}

/// What the accelerator is doing.
#[derive(Clone, Copy, Debug, PartialEq, Eq, Structural)]
pub enum State {
    Idle,
    Rsa,
    ScalarMul,
    PointAddition,
    ProjToAffinePass1,
    ProjToAffinePass2,
    ProjToAffinePass3,
    VerifyPoint,
    MathAddition,
    MathDivisionInvert,
    MathComputeR2,
    MathComputeAR,
    MathComputeAB,
}

/// What an interrupt has for a client.
pub enum PkaEvent {
    /// Nothing.
    Nothing,
    /// An exponentiation has ended; the buffers go back.
    ModExponentDone {
        status: Result<bool, ErrorCode>,
        message: Vec<u8>,
        modulus: Vec<u8>,
        exponent: Vec<u8>,
        output: Vec<u8>,
    },
    /// A point or a coordinate, and the end of an operation on points.
    Point { point: Option<Vec<u8>>, done: Option<Result<(), ErrorCode>> },
    /// A number, and the end of a modular operation.
    Number { number: Option<Vec<u8>>, result: Result<(), ErrorCode> },
}

/// An event, by contents.
pub enum PkaEventView {
    Nothing,
    ModExponentDone { status: Result<bool, ErrorCode>, job: JobView },
    Point { point: Option<Seq<u8>>, done: Option<Result<(), ErrorCode>> },
    Number { number: Option<Seq<u8>>, result: Result<(), ErrorCode> },
}

/// The buffers of an exponentiation.
pub struct JobView {
    pub message: Seq<u8>,
    pub modulus: Seq<u8>,
    pub exponent: Seq<u8>,
    pub result: Seq<u8>,
}

/// The contents of a vector, if there is one.
pub open spec fn contents(bytes: Option<Vec<u8>>) -> Option<Seq<u8>> {
    match bytes {
        Some(bytes) => Some(bytes@),
        None => None,
    }
}

impl View for PkaEvent {
    type V = PkaEventView;

    open spec fn view(&self) -> PkaEventView {
        match *self {
            PkaEvent::Nothing => PkaEventView::Nothing,
            PkaEvent::ModExponentDone {
                status,
                message,
                modulus,
                exponent,
                output,
            } => PkaEventView::ModExponentDone {
                status,
                job: JobView {
                    message: message@,
                    modulus: modulus@,
                    exponent: exponent@,
                    result: output@,
                },
            },
            PkaEvent::Point { point, done } => PkaEventView::Point { point: contents(point), done },
            PkaEvent::Number { number, result } => PkaEventView::Number {
                number: contents(number),
                result,
            },
        }
    }
}

impl PkaEvent {
    /// Hands the event of an operation on points to its client.
    pub fn deliver_point<K: EccClient>(self, client: &mut K)
        requires
            old(client).valid(),
        ensures
            final(client).valid(),
            trace::extends(final(client).log(), old(client).log()),
            point_delivered(self@, trace::since(final(client).log(), old(client).log())),
    {
        let ghost log = client.log();
        let ghost mut calls: Seq<Call> = Seq::empty();
        assert(log + calls =~= log);
        if let PkaEvent::Point { point, done } = self {
            if let Some(point) = point {
                let result = client.write_point(point.as_slice());
                proof {
                    calls = calls.push(Call::Write { port: Port::Point, data: point@, result });
                    assert(client.log() =~= log + calls);
                }
            }
            if let Some(result) = done {
                client.operation_done(result);
                proof {
                    calls = calls.push(Call::Done { result });
                    assert(client.log() =~= log + calls);
                }
            }
        }
        proof {
            trace::lemma_since_append(log, calls);
        }
    }

    /// Hands the event of a modular operation to its client.
    pub fn deliver_number<Op, K: MathClient<Op>>(self, client: &mut K)
        requires
            old(client).valid(),
        ensures
            final(client).valid(),
            trace::extends(final(client).log(), old(client).log()),
            number_delivered(self@, trace::since(final(client).log(), old(client).log())),
    {
        let ghost log = client.log();
        let ghost mut calls: Seq<Call> = Seq::empty();
        assert(log + calls =~= log);
        if let PkaEvent::Number { number, result } = self {
            if let Some(number) = number {
                let written = client.write_number(number.as_slice());
                proof {
                    calls = calls.push(
                        Call::Write { port: Port::Number, data: number@, result: written },
                    );
                    assert(client.log() =~= log + calls);
                }
            }
            client.computation_completed(result);
            proof {
                calls = calls.push(Call::Done { result });
                assert(client.log() =~= log + calls);
            }
        }
        proof {
            trace::lemma_since_append(log, calls);
        }
    }
}

impl PkaEvent {
    /// Hands the end of an exponentiation to its client, with the buffers.
    pub fn deliver_exponent<K: rsa_math::Client>(self, client: &mut K)
        requires
            old(client).valid(),
        ensures
            final(client).valid(),
            final(client).log() == (match self@ {
                PkaEventView::ModExponentDone { status, job } => old(client).log().push(
                    Call::Returned {
                        status,
                        a: job.message,
                        modulus: job.modulus,
                        b: job.exponent,
                        output: job.result,
                    },
                ),
                _ => old(client).log(),
            }),
    {
        if let PkaEvent::ModExponentDone { status, message, modulus, exponent, output } = self {
            client.operation_done(status, message, modulus, exponent, output);
        }
    }
}

/// `calls` hand the event to a client of operations on points.
pub open spec fn point_delivered(event: PkaEventView, calls: Seq<Call>) -> bool {
    match event {
        PkaEventView::Point { point, done } => {
            let points: nat = if point is Some {
                1
            } else {
                0
            };
            let ends: nat = if done is Some {
                1
            } else {
                0
            };
            &&& calls.len() == points + ends
            &&& point matches Some(point) ==> match calls[0] {
                Call::Write { port, data, .. } => port is Point && data == point,
                _ => false,
            }
            &&& done matches Some(result) ==> calls.last() == (Call::Done { result })
        },
        _ => calls.len() == 0,
    }
}

/// `calls` hand the event to a client of modular operations.
pub open spec fn number_delivered(event: PkaEventView, calls: Seq<Call>) -> bool {
    match event {
        PkaEventView::Number { number, result } => {
            &&& calls.len() == (if number is Some {
                2nat
            } else {
                1
            })
            &&& number matches Some(number) ==> match calls[0] {
                Call::Write { port, data, .. } => port is Number && data == number,
                _ => false,
            }
            &&& calls.last() == (Call::Done { result })
        },
        _ => calls.len() == 0,
    }
}

/// What the accelerator's driver is.
#[verifier::ext_equal]
pub struct PkaView {
    /// The RAM of the accelerator.
    pub ram: Seq<u32>,
    pub control: Control,
    pub status: Status,
    /// The flags that the last interrupt cleared.
    pub cleared: Flags,
    pub layout: PkaLayout,
    pub rsa_client: Option<usize>,
    pub ecc_client: Option<usize>,
    pub math_client: Option<usize>,
    /// The exponentiation under way.
    pub job: Option<JobView>,
    /// Length of the numbers of the modular operation under way.
    pub math_len: nat,
    pub state: State,
}

/// The front of a sequence, at most `len` long.
pub open spec fn front(data: Seq<u8>, len: nat) -> Seq<u8> {
    if data.len() < len {
        data
    } else {
        data.take(len as int)
    }
}

impl PkaView {
    /// The invariant.
    pub open spec fn wf(self) -> bool {
        &&& self.ram.len() == RAM_WORDS
        &&& self.layout.wf()
        &&& self.math_len <= 512
        &&& self.state is Rsa ==> self.job is Some && self.job->0.modulus.len()
            <= self.job->0.result.len()
    }

    /// A driver that is idle, with a cleared RAM.
    pub open spec fn fresh(layout: PkaLayout) -> PkaView {
        let flags = Flags { operr: false, addrerr: false, ramerr: false, procend: false };
        PkaView {
            ram: Seq::new(RAM_WORDS as nat, |i: int| 0u32),
            control: Control {
                operrie: false,
                adderrie: false,
                ramerrie: false,
                procendie: false,
                mode: Mode::MontgomeryModularExp,
                start: false,
                en: false,
            },
            status: Status { flags, busy: false },
            cleared: flags,
            layout,
            rsa_client: None,
            ecc_client: None,
            math_client: None,
            job: None,
            math_len: 0,
            state: State::Idle,
        }
    }

    /// The driver with an operation started.
    pub open spec fn started(self, mode: Mode) -> PkaView {
        PkaView {
            control: Control {
                operrie: true,
                adderrie: true,
                ramerrie: true,
                procendie: true,
                mode,
                start: true,
                en: true,
            },
            ..self
        }
    }

    /// The driver with a big-endian number written to the RAM.
    pub open spec fn with(self, idx: usize, data: Seq<u8>) -> PkaView {
        PkaView { ram: pka_ram::written(self.ram, idx as int, data), ..self }
    }

    /// The driver with a double word set in the RAM.
    pub open spec fn with_word(self, idx: usize, word: u32) -> PkaView {
        PkaView { ram: self.ram.update(idx as int, word).update(idx + 1, 0), ..self }
    }

    /// The big-endian number of `len` bytes at a word of the RAM.
    pub open spec fn number(self, idx: usize, len: nat) -> Seq<u8> {
        pka_ram::read(self.ram, idx as int, bytes::zeros(len))
    }

    /// The driver with the parameters of P-256 in the RAM.
    pub open spec fn with_p256(self) -> PkaView {
        self.with_word(PRIME_ORDER_LEN_IDX, 256).with_word(
            CURVE_MODULUS_LEN_IDX,
            256,
        ).with_word(CURVE_A_SIGN_IDX, 0).with(CURVE_A_IDX, ecc_constants::a()).with(
            CURVE_B_IDX,
            ecc_constants::b(),
        ).with(PRIME_ORDER_IDX, ecc_constants::n()).with(
            self.layout.montgomery_r2,
            ecc_constants::r2_mod_p(),
        ).with(CURVE_MODULUS_IDX, ecc_constants::p()).with(
            self.layout.add_curve_modulus,
            ecc_constants::p(),
        )
    }

    /// The driver with the last affine result fed back as the projective point.
    pub open spec fn fed(self) -> PkaView {
        self.with(self.layout.add_result_x, self.number(RESULT_X_IDX, 32)).with(
            self.layout.add_result_y,
            self.number(RESULT_Y_IDX, 32),
        )
    }

    /// The driver in another state.
    pub open spec fn at(self, state: State) -> PkaView {
        PkaView { state, ..self }
    }

    /// An event for the client of operations on points, if there is one.
    pub open spec fn point_event(
        self,
        point: Option<Seq<u8>>,
        done: Option<Result<(), ErrorCode>>,
    ) -> PkaEventView {
        if self.ecc_client is Some {
            PkaEventView::Point { point, done }
        } else {
            PkaEventView::Nothing
        }
    }

    /// An event for the client of modular operations, if there is one.
    pub open spec fn number_event(
        self,
        number: Option<Seq<u8>>,
        result: Result<(), ErrorCode>,
    ) -> PkaEventView {
        if self.math_client is Some {
            PkaEventView::Number { number, result }
        } else {
            PkaEventView::Nothing
        }
    }

    /// The result of the last modular operation.
    pub open spec fn math_result(self) -> Seq<u8> {
        self.number(self.layout.math_result, self.math_len)
    }

    /// The driver after the interrupt, and what it has for a client. What the flags say is cleared
    /// first; `success` is whether the operation came to its end.
    pub open spec fn interrupted(self) -> (PkaView, PkaEventView) {
        let view = PkaView { cleared: self.status.flags, ..self };
        let success = self.status.flags.procend;
        match self.state {
            State::Idle => (view, PkaEventView::Nothing),
            State::Rsa => {
                let job = self.job->0;
                let later = PkaView { job: None, ..view }.at(State::Idle);
                let status: Result<bool, ErrorCode> = if success {
                    Ok(true)
                } else {
                    Err(ErrorCode::FAIL)
                };
                let len = job.modulus.len();
                let result = if success {
                    pka_ram::read(self.ram, RESULT_IDX as int, job.result.take(len as int))
                        + job.result.skip(len as int)
                } else {
                    job.result
                };
                (
                    later,
                    if self.rsa_client is Some {
                        PkaEventView::ModExponentDone { status, job: JobView { result, ..job } }
                    } else {
                        PkaEventView::Nothing
                    },
                )
            },
            State::ScalarMul => (
                view.at(State::Idle),
                self.point_event(
                    Some(self.number(RESULT_X_IDX, 32) + self.number(RESULT_Y_IDX, 32)),
                    Some(Ok(())),
                ),
            ),
            State::PointAddition => if success {
                (
                    view.at(State::ProjToAffinePass1).started(Mode::ECCProjectiveToAffine),
                    PkaEventView::Nothing,
                )
            } else {
                (view.at(State::Idle), self.point_event(None, Some(Err(ErrorCode::FAIL))))
            },
            State::ProjToAffinePass1 => (
                view.at(State::ProjToAffinePass2).fed().started(Mode::ECCProjectiveToAffine),
                PkaEventView::Nothing,
            ),
            State::ProjToAffinePass2 => (
                view.at(State::ProjToAffinePass3).fed().started(Mode::ECCProjectiveToAffine),
                self.point_event(Some(self.number(RESULT_X_IDX, 32)), None),
            ),
            State::ProjToAffinePass3 => (
                view.at(State::Idle),
                self.point_event(Some(self.number(RESULT_Y_IDX, 32)), Some(Ok(()))),
            ),
            State::VerifyPoint => (
                view.at(State::Idle),
                self.point_event(
                    None,
                    Some(
                        if self.ram[self.layout.add_p_y as int] == NO_ERRORS_OCCURED {
                            Ok(())
                        } else {
                            Err(ErrorCode::INVAL)
                        },
                    ),
                ),
            ),
            State::MathAddition | State::MathComputeAB => if success {
                (view.at(State::Idle), self.number_event(Some(self.math_result()), Ok(())))
            } else {
                (view.at(State::Idle), self.number_event(None, Err(ErrorCode::FAIL)))
            },
            _ => if success {
                (
                    match self.state {
                        State::MathDivisionInvert => view.with(EXP_IDX, self.math_result()).at(
                            State::MathComputeR2,
                        ).started(Mode::MontgomeryOnly),
                        State::MathComputeR2 => view.with(
                            self.layout.arith_op_a,
                            self.math_result(),
                        ).at(State::MathComputeAR).started(Mode::MontgomeryMultiplication),
                        _ => {
                            let moved = view.with(OP_A_IDX, self.math_result());
                            moved.with(
                                self.layout.arith_op_a,
                                moved.number(EXP_IDX, self.math_len),
                            ).at(State::MathComputeAB).started(Mode::MontgomeryMultiplication)
                        },
                    },
                    PkaEventView::Nothing,
                )
            } else {
                (view.at(State::Idle), self.number_event(None, Err(ErrorCode::FAIL)))
            },
        }
    }

    /// The answer to an exponentiation.
    pub open spec fn exponent_result(self, job: JobView) -> Result<(), ErrorCode> {
        if self.status.busy || !(self.state is Idle) {
            Err(ErrorCode::BUSY)
        } else if job.result.len() < job.modulus.len() || job.exponent.len() == 0
            || job.message.len() == 0 {
            Err(ErrorCode::SIZE)
        } else if bytes::be_value(front(job.exponent, job.modulus.len())) == 0 || bytes::be_value(
            job.modulus,
        ) == 0 {
            Err(ErrorCode::INVAL)
        } else {
            Ok(())
        }
    }

    /// The driver with an exponentiation started, on numbers of the given bit lengths.
    pub open spec fn exponentiating(self, job: JobView, exp_bits: u32, op_bits: u32) -> PkaView {
        PkaView { ram: Seq::new(self.ram.len(), |i: int| 0u32), job: Some(job), ..self }.at(
            State::Rsa,
        ).with_word(EXP_LEN_IDX, exp_bits).with_word(OP_LEN_IDX, op_bits).with(
            EXP_IDX,
            front(job.exponent, job.modulus.len()),
        ).with(MOD_VALUE_IDX, job.modulus).with(
            OP_A_IDX,
            front(job.message, job.modulus.len()),
        ).started(Mode::MontgomeryModularExp)
    }

    /// The driver with a point multiplied by a scalar.
    pub open spec fn multiplying(self, scalar: Seq<u8>, point: Seq<u8>) -> PkaView {
        self.at(State::ScalarMul).with_p256().with(K_IDX, scalar).with(
            X_IDX,
            point.take(32),
        ).with(Y_IDX, point.skip(32)).started(Mode::MontgomeryECC)
    }

    /// The driver with two points being added.
    pub open spec fn adding(self, first: Seq<u8>, second: Seq<u8>) -> PkaView {
        let one = bytes::zeros(31).push(1);
        self.at(State::PointAddition).with_p256().with(self.layout.add_p_x, first.take(32)).with(
            self.layout.add_p_y,
            first.skip(32),
        ).with(self.layout.add_p_z, one).with(self.layout.add_q_x, second.take(32)).with(
            self.layout.add_q_y,
            second.skip(32),
        ).with(self.layout.add_q_z, one).started(Mode::ECCCompleteAddition)
    }

    /// The driver with a point being checked.
    pub open spec fn verifying(self, point: Seq<u8>) -> PkaView {
        self.at(State::VerifyPoint).with_p256().with(X_IDX, point.take(32)).with(
            RESULT_Y_IDX,
            point.skip(32),
        ).started(Mode::FpCheck)
    }

    /// The driver with a modular operation started.
    pub open spec fn computing(
        self,
        operation: SupportedOp,
        modulus: Seq<u8>,
        first: Seq<u8>,
        second: Seq<u8>,
    ) -> PkaView {
        let view = PkaView { math_len: modulus.len(), ..self }.with_word(
            OP_LEN_IDX,
            (modulus.len() * 8) as u32,
        ).with(MOD_VALUE_IDX, modulus);
        match operation {
            SupportedOp::Addition => view.at(State::MathAddition).with(
                self.layout.arith_op_a,
                first,
            ).with(OP_A_IDX, second).started(Mode::ModularAddition),
            SupportedOp::Multiplication => view.at(State::MathComputeR2).with(
                OP_A_IDX,
                first,
            ).with(EXP_IDX, second).started(Mode::MontgomeryOnly),
            SupportedOp::Division => view.at(State::MathDivisionInvert).with(
                OP_A_IDX,
                first,
            ).with(self.layout.arith_op_a, second).started(Mode::ModularInversion),
        }
    }
}

/// The generator of P-256: its x coordinate, followed by its y coordinate.
pub open spec fn generator() -> Seq<u8> {
    ecc_constants::generator_x() + ecc_constants::generator_y()
}

/// Call `i` has a buffer of `len` bytes, all zeros, filled from `port`.
pub open spec fn filled(calls: Seq<Call>, i: int, port: Port, len: nat) -> bool {
    &&& calls[i] is Fill
    &&& calls[i]->Fill_port == port
    &&& calls[i]->Fill_offered == bytes::zeros(len)
    &&& calls[i]->Fill_buffer.len() == len
}

/// Image of the registers.
pub struct PkaRegisters {
    pub control: Control,
    pub status: Status,
    pub cleared: Flags,
    pub ram: Vec<u32>,
}

/// Driver of the public key accelerator.
pub struct Pka {
    registers: PkaRegisters,
    layout: PkaLayout,
    rsa_client: Option<usize>,
    ecc_client: Option<usize>,
    math_client: Option<usize>,
    modulus: Option<Vec<u8>>,
    exponent: Option<Vec<u8>>,
    message: Option<Vec<u8>>,
    result: Option<Vec<u8>>,
    math_len: usize,
    state: State,
    log: Ghost<Seq<Call>>,
}

impl View for Pka {
    type V = PkaView;

    closed spec fn view(&self) -> PkaView {
        PkaView {
            ram: self.registers.ram@,
            control: self.registers.control,
            status: self.registers.status,
            cleared: self.registers.cleared,
            layout: self.layout,
            rsa_client: self.rsa_client,
            ecc_client: self.ecc_client,
            math_client: self.math_client,
            job: match (self.message, self.modulus, self.exponent, self.result) {
                (Some(message), Some(modulus), Some(exponent), Some(result)) => Some(
                    JobView {
                        message: message@,
                        modulus: modulus@,
                        exponent: exponent@,
                        result: result@,
                    },
                ),
                _ => None,
            },
            math_len: self.math_len as nat,
            state: self.state,
        }
    }
}

impl Observed for Pka {
    closed spec fn log(&self) -> Seq<Call> {
        self.log@
    }

    open spec fn valid(&self) -> bool {
        self@.wf()
    }
}

impl Resource for Pka {
    open spec fn kind() -> Kind {
        Kind { number: 1, over: 0 }
    }

    fn resource_kind() -> (kind: Kind) {
        Kind { number: 1, over: 0 }
    }
}

impl Pka {
    /// A driver that is idle, with a cleared RAM.
    pub fn new(layout: PkaLayout) -> (pka: Pka)
        requires
            layout.wf(),
        ensures
            pka.valid(),
            pka.log() == Seq::<Call>::empty(),
            pka@ == PkaView::fresh(layout),
    {
        let flags = Flags { operr: false, addrerr: false, ramerr: false, procend: false };
        let ram: Vec<u32> = vec![0u32; RAM_WORDS];
        let pka = Pka {
            registers: PkaRegisters {
                control: Control {
                    operrie: false,
                    adderrie: false,
                    ramerrie: false,
                    procendie: false,
                    mode: Mode::MontgomeryModularExp,
                    start: false,
                    en: false,
                },
                status: Status { flags, busy: false },
                cleared: flags,
                ram,
            },
            layout,
            rsa_client: None,
            ecc_client: None,
            math_client: None,
            modulus: None,
            exponent: None,
            message: None,
            result: None,
            math_len: 0,
            state: State::Idle,
            log: Ghost(Seq::empty()),
        };
        assert(pka.registers.ram@ =~= Seq::new(RAM_WORDS as nat, |i: int| 0u32));
        pka
    }

    /// The image of the registers.
    pub fn registers(&self) -> (registers: &PkaRegisters)
        ensures
            registers.ram@ == self@.ram,
            registers.control == self@.control,
            registers.status == self@.status,
            registers.cleared == self@.cleared,
    {
        &self.registers
    }

    /// Takes over what the accelerator shows: its status, and its RAM.
    pub fn observe(&mut self, status: Status, ram: Vec<u32>)
        requires
            old(self).valid(),
            ram@.len() == RAM_WORDS,
        ensures
            final(self).valid(),
            final(self).log() == old(self).log(),
            final(self)@ == (PkaView { status, ram: ram@, ..old(self)@ }),
    {
        self.registers.status = status;
        self.registers.ram = ram;
    }

    fn write_slice(&mut self, idx: usize, data: &[u8])
        requires
            idx <= old(self)@.ram.len(),
        ensures
            final(self).log() == old(self).log(),
            final(self)@ == old(self)@.with(idx, data@),
    {
        pka_ram::write_slice(&mut self.registers.ram, idx, data);
    }

    fn read_slice(&self, idx: usize, buffer: &mut [u8])
        requires
            idx <= self@.ram.len(),
        ensures
            final(buffer)@ == pka_ram::read(self@.ram, idx as int, old(buffer)@),
    {
        pka_ram::read_slice(&self.registers.ram, idx, buffer);
    }

    fn write_word(&mut self, idx: usize, word: u32)
        requires
            idx + 1 < old(self)@.ram.len(),
        ensures
            final(self).log() == old(self).log(),
            final(self)@ == old(self)@.with_word(idx, word),
    {
        assert(idx + 1 < self.registers.ram.len());
        self.registers.ram[idx] = word;
        self.registers.ram[idx + 1] = 0;
    }

    fn read_coordinate(&self, idx: usize) -> (value: [u8; 32])
        requires
            idx <= self@.ram.len(),
        ensures
            value@ == self@.number(idx, 32),
    {
        let mut value = [0u8;32];
        assert(value@ =~= bytes::zeros(32));
        self.read_slice(idx, &mut value);
        value
    }

    fn read_number_at(&self, idx: usize, len: usize) -> (value: Vec<u8>)
        requires
            idx <= self@.ram.len(),
        ensures
            value@ == self@.number(idx, len as nat),
    {
        let mut value: Vec<u8> = vec![0u8; len];
        assert(value@ =~= bytes::zeros(len as nat));
        self.read_slice(idx, value.as_mut_slice());
        value
    }

    /// Enables the accelerator. Returns `BUSY` if an operation is running.
    fn enable_peripheral(&mut self) -> (result: Result<(), ErrorCode>)
        ensures
            final(self).log() == old(self).log(),
            result == (if old(self)@.status.busy {
                Err(ErrorCode::BUSY)
            } else {
                Ok(())
            }),
            final(self)@ == (if old(self)@.status.busy {
                old(self)@
            } else {
                PkaView { control: Control { en: true, ..old(self)@.control }, ..old(self)@ }
            }),
    {
        if self.registers.status.busy {
            return Err(ErrorCode::BUSY);
        }
        self.registers.control.en = true;
        Ok(())
    }

    fn load_p256_parameters(&mut self)
        requires
            old(self)@.wf(),
        ensures
            final(self).log() == old(self).log(),
            final(self)@ == old(self)@.with_p256(),
    {
        self.write_word(PRIME_ORDER_LEN_IDX, 256);
        self.write_word(CURVE_MODULUS_LEN_IDX, 256);
        self.write_word(CURVE_A_SIGN_IDX, 0);
        self.write_slice(CURVE_A_IDX, &NistP256Constants::a());
        self.write_slice(CURVE_B_IDX, &NistP256Constants::b());
        self.write_slice(PRIME_ORDER_IDX, &NistP256Constants::n());
        self.write_slice(self.layout.montgomery_r2, &NistP256Constants::r2_mod_p());
        self.write_slice(CURVE_MODULUS_IDX, &NistP256Constants::p());
        self.write_slice(self.layout.add_curve_modulus, &NistP256Constants::p());
    }

    fn start_operation(&mut self, mode: Mode)
        ensures
            final(self).log() == old(self).log(),
            final(self)@ == old(self)@.started(mode),
    {
        self.registers.control = Control {
            operrie: true,
            adderrie: true,
            ramerrie: true,
            procendie: true,
            mode,
            start: true,
            en: true,
        };
    }

    fn start_projective_to_affine(&mut self)
        ensures
            final(self).log() == old(self).log(),
            final(self)@ == old(self)@.started(Mode::ECCProjectiveToAffine),
    {
        self.start_operation(Mode::ECCProjectiveToAffine);
    }

    /// Feeds the last affine result back as the projective point. Returns it.
    fn feed_affine_to_projective(&mut self) -> (point: ([u8; 32], [u8; 32]))
        requires
            old(self)@.wf(),
        ensures
            final(self).log() == old(self).log(),
            final(self)@ == old(self)@.fed(),
            point.0@ == old(self)@.number(RESULT_X_IDX, 32),
            point.1@ == old(self)@.number(RESULT_Y_IDX, 32),
    {
        let x = self.read_coordinate(RESULT_X_IDX);
        let y = self.read_coordinate(RESULT_Y_IDX);
        self.write_slice(self.layout.add_result_x, &x);
        self.write_slice(self.layout.add_result_y, &y);
        (x, y)
    }

    fn point_event(
        &self,
        point: Option<Vec<u8>>,
        done: Option<Result<(), ErrorCode>>,
    ) -> (event: PkaEvent)
        ensures
            event@ == self@.point_event(contents(point), done),
    {
        if self.ecc_client.is_some() {
            PkaEvent::Point { point, done }
        } else {
            PkaEvent::Nothing
        }
    }

    fn number_event(&self, number: Option<Vec<u8>>, result: Result<(), ErrorCode>) -> (event:
        PkaEvent)
        ensures
            event@ == self@.number_event(contents(number), result),
    {
        if self.math_client.is_some() {
            PkaEvent::Number { number, result }
        } else {
            PkaEvent::Nothing
        }
    }

    /// Handles the interrupt of the accelerator: clears its flags, and goes on with the operation
    /// under way or ends it. Returns what there is for a client.
    #[verifier::rlimit(40)]
    pub fn handle_interrupt(&mut self) -> (event: PkaEvent)
        requires
            old(self).valid(),
        ensures
            final(self).valid(),
            final(self).log() == old(self).log(),
            (final(self)@, event@) == old(self)@.interrupted(),
    {
        let flags = self.registers.status.flags;
        self.registers.cleared = flags;
        let success = flags.procend;
        match self.state {
            State::Idle => PkaEvent::Nothing,
            State::Rsa => self.handle_exponent(success),
            State::ScalarMul => {
                let x = self.read_coordinate(RESULT_X_IDX);
                let y = self.read_coordinate(RESULT_Y_IDX);
                let mut point: Vec<u8> = vec![0u8; 64];
                bytes::copy_into(point.as_mut_slice(), 0, &x);
                bytes::copy_into(point.as_mut_slice(), 32, &y);
                assert(point@ =~= x@ + y@);
                self.state = State::Idle;
                self.point_event(Some(point), Some(Ok(())))
            },
            State::PointAddition => {
                if success {
                    self.state = State::ProjToAffinePass1;
                    self.start_projective_to_affine();
                    PkaEvent::Nothing
                } else {
                    self.state = State::Idle;
                    self.point_event(None, Some(Err(ErrorCode::FAIL)))
                }
            },
            State::ProjToAffinePass1 => {
                self.state = State::ProjToAffinePass2;
                self.feed_affine_to_projective();
                self.start_projective_to_affine();
                PkaEvent::Nothing
            },
            State::ProjToAffinePass2 => {
                self.state = State::ProjToAffinePass3;
                let (x_out, _y_out) = self.feed_affine_to_projective();
                let event = self.point_event(
                    Some(vstd::slice::slice_to_vec(x_out.as_slice())),
                    None,
                );
                self.start_projective_to_affine();
                event
            },
            State::ProjToAffinePass3 => {
                self.state = State::Idle;
                let y_out = self.read_coordinate(RESULT_Y_IDX);
                self.point_event(
                    Some(vstd::slice::slice_to_vec(y_out.as_slice())),
                    Some(Ok(())),
                )
            },
            State::VerifyPoint => {
                self.state = State::Idle;
                let result = if self.registers.ram[self.layout.add_p_y] == NO_ERRORS_OCCURED {
                    Ok(())
                } else {
                    Err(ErrorCode::INVAL)
                };
                self.point_event(None, Some(result))
            },
            State::MathAddition | State::MathComputeAB => {
                self.state = State::Idle;
                if success {
                    let number = self.read_number_at(self.layout.math_result, self.math_len);
                    self.number_event(Some(number), Ok(()))
                } else {
                    self.number_event(None, Err(ErrorCode::FAIL))
                }
            },
            State::MathDivisionInvert => {
                if success {
                    let inverse = self.read_number_at(self.layout.math_result, self.math_len);
                    self.write_slice(EXP_IDX, inverse.as_slice());
                    self.state = State::MathComputeR2;
                    self.start_operation(Mode::MontgomeryOnly);
                    PkaEvent::Nothing
                } else {
                    self.state = State::Idle;
                    self.number_event(None, Err(ErrorCode::FAIL))
                }
            },
            State::MathComputeR2 => {
                if success {
                    let parameter = self.read_number_at(self.layout.math_result, self.math_len);
                    self.write_slice(self.layout.arith_op_a, parameter.as_slice());
                    self.state = State::MathComputeAR;
                    self.start_operation(Mode::MontgomeryMultiplication);
                    PkaEvent::Nothing
                } else {
                    self.state = State::Idle;
                    self.number_event(None, Err(ErrorCode::FAIL))
                }
            },
            State::MathComputeAR => {
                if success {
                    let product = self.read_number_at(self.layout.math_result, self.math_len);
                    self.write_slice(OP_A_IDX, product.as_slice());
                    let factor = self.read_number_at(EXP_IDX, self.math_len);
                    self.write_slice(self.layout.arith_op_a, factor.as_slice());
                    self.state = State::MathComputeAB;
                    self.start_operation(Mode::MontgomeryMultiplication);
                    PkaEvent::Nothing
                } else {
                    self.state = State::Idle;
                    self.number_event(None, Err(ErrorCode::FAIL))
                }
            },
        }
    }

    fn handle_exponent(&mut self, success: bool) -> (event: PkaEvent)
        requires
            old(self)@.wf(),
            old(self)@.state is Rsa,
            success == old(self)@.status.flags.procend,
            old(self)@.cleared == old(self)@.status.flags,
        ensures
            final(self)@.wf(),
            final(self).log() == old(self).log(),
            (final(self)@, event@) == old(self)@.interrupted(),
    {
        self.state = State::Idle;
        match (self.message.take(), self.modulus.take(), self.exponent.take(), self.result.take()) {
            (Some(message), Some(modulus), Some(exponent), Some(output)) => {
                let mut output = output;
                if success {
                    let ghost before = output@;
                    let len: usize = modulus.len();
                    let (head, tail) = output.as_mut_slice().split_at_mut(len);
                    self.read_slice(RESULT_IDX, head);
                    assert(output@ =~= pka_ram::read(
                        self@.ram,
                        RESULT_IDX as int,
                        before.take(len as int),
                    ) + before.skip(len as int));
                }
                if self.rsa_client.is_some() {
                    let status = if success {
                        Ok(true)
                    } else {
                        Err(ErrorCode::FAIL)
                    };
                    PkaEvent::ModExponentDone { status, message, modulus, exponent, output }
                } else {
                    PkaEvent::Nothing
                }
            },
            _ => PkaEvent::Nothing,
        }
    }

    fn clear_ram(&mut self)
        ensures
            final(self).log() == old(self).log(),
            final(self)@ == (PkaView {
                ram: Seq::new(old(self)@.ram.len(), |i: int| 0u32),
                ..old(self)@
            }),
    {
        let len: usize = self.registers.ram.len();
        let mut i: usize = 0;
        while i < len
            invariant
                i <= len,
                len == self.registers.ram@.len(),
                len == old(self).registers.ram@.len(),
                self.log() == old(self).log(),
                self@ == (PkaView { ram: self.registers.ram@, ..old(self)@ }),
                forall|k: int| 0 <= k < i ==> #[trigger] self.registers.ram@[k] == 0,
            decreases len - i,
        {
            self.registers.ram[i] = 0;
            i = i + 1;
        }
        assert(self.registers.ram@ =~= Seq::new(old(self)@.ram.len(), |i: int| 0u32));
    }
}

/// The front of a vector, at most `len` long.
fn front_of(data: &Vec<u8>, len: usize) -> (part: &[u8])
    ensures
        part@ == front(data@, len as nat),
{
    if data.len() < len {
        assert(data@.subrange(0, data@.len() as int) =~= data@);
        vstd::slice::slice_subrange(data.as_slice(), 0, data.len())
    } else {
        vstd::slice::slice_subrange(data.as_slice(), 0, len)
    }
}

impl rsa_math::MathCryptoBase for Pka {
    fn set_client(&mut self, client: usize)
        ensures
            final(self)@ == (PkaView { rsa_client: Some(client), ..old(self)@ }),
    {
        self.rsa_client = Some(client);
        proof {
            self.log@ = self.log@.push(Call::SetClient { client });
        }
    }

    fn clear_data(&mut self)
        ensures
            final(self)@ == (PkaView {
                ram: Seq::new(old(self)@.ram.len(), |i: int| 0u32),
                ..old(self)@
            }),
    {
        self.clear_ram();
        proof {
            self.log@ = self.log@.push(Call::ClearData);
        }
    }
}

impl ModExponent for Pka {
    #[verifier::rlimit(40)]
    fn mod_exponent(
        &mut self,
        a: Vec<u8>,
        modulus: Vec<u8>,
        b: Vec<u8>,
        result: Vec<u8>,
    ) -> (outcome: Result<(), (ErrorCode, Vec<u8>, Vec<u8>, Vec<u8>, Vec<u8>)>)
        ensures
            final(self).log() == old(self).log(),
            ({
                let job = JobView {
                    message: a@,
                    modulus: modulus@,
                    exponent: b@,
                    result: result@,
                };
                match outcome {
                    Ok(()) => {
                        &&& old(self)@.exponent_result(job) is Ok
                        &&& exists|exp_bits: u32, op_bits: u32|
                            {
                                &&& bit_length(exp_bits, front(b@, modulus@.len()))
                                &&& bit_length(op_bits, modulus@)
                                &&& final(self)@ == #[trigger] old(self)@.exponentiating(
                                    job,
                                    exp_bits,
                                    op_bits,
                                )
                            }
                    },
                    Err((error, _, _, _, _)) => old(self)@.exponent_result(job) == Err::<
                        (),
                        ErrorCode,
                    >(error) && final(self)@ == old(self)@,
                }
            }),
    {
        if self.registers.status.busy || self.state != State::Idle {
            return Err((ErrorCode::BUSY, a, modulus, b, result));
        }
        if result.len() < modulus.len() || b.len() == 0 || a.len() == 0 {
            return Err((ErrorCode::SIZE, a, modulus, b, result));
        }
        let len: usize = modulus.len();
        let exp_bits: u32 = pka_ram::get_bitlen(front_of(&b, len));
        let op_bits: u32 = pka_ram::get_bitlen(modulus.as_slice());
        if exp_bits == 0 || op_bits == 0 {
            return Err((ErrorCode::INVAL, a, modulus, b, result));
        }
        self.state = State::Rsa;
        self.clear_ram();
        self.write_word(EXP_LEN_IDX, exp_bits);
        self.write_word(OP_LEN_IDX, op_bits);
        self.write_slice(EXP_IDX, front_of(&b, len));
        self.write_slice(MOD_VALUE_IDX, modulus.as_slice());
        self.write_slice(OP_A_IDX, front_of(&a, len));
        self.message = Some(a);
        self.modulus = Some(modulus);
        self.exponent = Some(b);
        self.result = Some(result);
        self.start_operation(Mode::MontgomeryModularExp);
        proof {
            let job = JobView {
                message: a@,
                modulus: modulus@,
                exponent: b@,
                result: result@,
            };
            assert(self@ =~= old(self)@.exponentiating(job, exp_bits, op_bits));
        }
        Ok(())
    }
}

/// `bits` is the bit length of a big-endian number that is not zero.
pub open spec fn bit_length(bits: u32, data: Seq<u8>) -> bool {
    &&& bits > 0
    &&& vstd::arithmetic::power2::pow2((bits - 1) as nat) <= bytes::be_value(data)
        < vstd::arithmetic::power2::pow2(bits as nat)
}

/// `data` is what `calls[i]` brought; without a client nothing is called, and it is zeros.
pub open spec fn brought(
    client: Option<usize>,
    calls: Seq<Call>,
    i: int,
    port: Port,
    len: nat,
    data: Seq<u8>,
) -> bool {
    if client is Some {
        0 <= i < calls.len() && filled(calls, i, port, len) && data == calls[i]->Fill_buffer
    } else {
        data == bytes::zeros(len)
    }
}

/// Multiplying a point: what is called, and what becomes of the driver.
pub open spec fn multiplication_started(
    view: PkaView,
    use_curve_generator: bool,
    calls: Seq<Call>,
    later: PkaView,
) -> bool {
    exists|scalar: Seq<u8>, point: Seq<u8>|
        {
            &&& brought(view.ecc_client, calls, 0, Port::Scalar, 32, scalar)
            &&& if use_curve_generator {
                point == generator()
            } else {
                brought(view.ecc_client, calls, 1, Port::Point, 64, point)
            }
            &&& calls.len() == (if view.ecc_client is None {
                0nat
            } else if use_curve_generator {
                1
            } else {
                2
            })
            &&& later == #[trigger] view.multiplying(scalar, point)
        }
}

/// Doubling a point: what is called, and what becomes of the driver.
pub open spec fn doubling_started(
    view: PkaView,
    use_curve_generator: bool,
    calls: Seq<Call>,
    later: PkaView,
) -> bool {
    exists|point: Seq<u8>|
        {
            &&& if use_curve_generator {
                point == generator()
            } else {
                brought(view.ecc_client, calls, 0, Port::Point, 64, point)
            }
            &&& calls.len() == (if view.ecc_client is None || use_curve_generator {
                0nat
            } else {
                1
            })
            &&& later == #[trigger] view.multiplying(bytes::zeros(31).push(2), point)
        }
}

/// Adding points: what is called, and what becomes of the driver.
pub open spec fn addition_started(
    view: PkaView,
    use_curve_generator: bool,
    calls: Seq<Call>,
    later: PkaView,
) -> bool {
    let at: int = if use_curve_generator {
        0
    } else {
        1
    };
    exists|first: Seq<u8>, second: Seq<u8>|
        {
            &&& if use_curve_generator {
                first == generator()
            } else {
                brought(view.ecc_client, calls, 0, Port::Point, 64, first)
            }
            &&& brought(view.ecc_client, calls, at, Port::SecondPoint, 64, second)
            &&& calls.len() == (if view.ecc_client is None {
                0
            } else {
                at + 1
            })
            &&& later == #[trigger] view.adding(first, second)
        }
}

/// Checking a point: what is called, and what becomes of the driver.
pub open spec fn verification_started(view: PkaView, calls: Seq<Call>, later: PkaView) -> bool {
    exists|point: Seq<u8>|
        {
            &&& brought(view.ecc_client, calls, 0, Port::Point, 64, point)
            &&& calls.len() == (if view.ecc_client is None {
                0nat
            } else {
                1
            })
            &&& later == #[trigger] view.verifying(point)
        }
}

/// Starting a modular operation: what is called, and what becomes of the driver.
pub open spec fn computation_started(
    view: PkaView,
    modulus_len: nat,
    operation: SupportedOp,
    calls: Seq<Call>,
    later: PkaView,
) -> bool {
    exists|modulus: Seq<u8>, first: Seq<u8>, second: Seq<u8>|
        {
            &&& brought(view.math_client, calls, 0, Port::Modulus, modulus_len, modulus)
            &&& brought(view.math_client, calls, 1, Port::Number, modulus_len, first)
            &&& brought(view.math_client, calls, 2, Port::Number, modulus_len, second)
            &&& calls.len() == (if view.math_client is None {
                0nat
            } else {
                3
            })
            &&& later == #[trigger] view.computing(operation, modulus, first, second)
        }
}

impl Pka {
    fn client_point<K: EccClient>(&self, client: &mut K) -> (point: [u8; 64])
        requires
            old(client).valid(),
        ensures
            final(client).valid(),
            final(client).log() == (if self@.ecc_client is Some {
                old(client).log().push(final(client).log().last())
            } else {
                old(client).log()
            }),
            brought(
                self@.ecc_client,
                seq![final(client).log().last()],
                0,
                Port::Point,
                64,
                point@,
            ),
            if self@.ecc_client is Some {
                old(client).answers(final(client).log().last(), &*final(client))
            } else {
                *final(client) == *old(client)
            },
    {
        let mut point = [0u8;64];
        assert(point@ =~= bytes::zeros(64));
        if self.ecc_client.is_some() {
            let _ = client.read_point(&mut point);
        }
        point
    }

    fn write_point(&mut self, x_idx: usize, y_idx: usize, point: &[u8])
        requires
            x_idx <= old(self)@.ram.len(),
            y_idx <= old(self)@.ram.len(),
            point@.len() == 64,
        ensures
            final(self).log() == old(self).log(),
            final(self)@ == old(self)@.with(x_idx, point@.take(32)).with(y_idx, point@.skip(32)),
    {
        let x = vstd::slice::slice_subrange(point, 0, 32);
        let y = vstd::slice::slice_subrange(point, 32, 64);
        assert(y@ =~= point@.skip(32));
        self.write_slice(x_idx, x);
        self.write_slice(y_idx, y);
    }

    fn generator() -> (point: [u8; 64])
        ensures
            point@ == self::generator(),
    {
        let mut point = [0u8;64];
        let x = NistP256Constants::generator_x();
        let y = NistP256Constants::generator_y();
        bytes::copy_into(&mut point, 0, &x);
        bytes::copy_into(&mut point, 32, &y);
        assert(point@ =~= self::generator());
        point
    }

    fn multiply_point<K: EccClient>(
        &mut self,
        scalar: [u8; 32],
        use_curve_generator: bool,
        client: &mut K,
    )
        requires
            old(self)@.wf(),
            old(client).valid(),
        ensures
            final(self).log() == old(self).log(),
            final(self)@.wf(),
            final(client).valid(),
            if use_curve_generator || old(self)@.ecc_client is None {
                *final(client) == *old(client)
            } else {
                old(client).answers(final(client).log().last(), &*final(client))
            },
            exists|point: Seq<u8>|
                {
                    &&& if use_curve_generator {
                        point == generator() && final(client).log() == old(client).log()
                    } else {
                        &&& final(client).log() == (if old(self)@.ecc_client is Some {
                            old(client).log().push(final(client).log().last())
                        } else {
                            old(client).log()
                        })
                        &&& brought(
                            old(self)@.ecc_client,
                            seq![final(client).log().last()],
                            0,
                            Port::Point,
                            64,
                            point,
                        )
                    }
                    &&& final(self)@ == #[trigger] old(self)@.multiplying(scalar@, point)
                },
    {
        let ghost before = self@;
        self.state = State::ScalarMul;
        self.load_p256_parameters();
        self.write_slice(K_IDX, &scalar);
        let point = if use_curve_generator {
            Self::generator()
        } else {
            self.client_point(client)
        };
        self.write_point(X_IDX, Y_IDX, &point);
        self.start_operation(Mode::MontgomeryECC);
        assert(self@ =~= before.multiplying(scalar@, point@));
    }
}

impl EccCrypto<32> for Pka {
    fn set_ecc_client(&mut self, client: usize)
        ensures
            final(self)@ == (PkaView { ecc_client: Some(client), ..old(self)@ }),
    {
        self.ecc_client = Some(client);
        proof {
            self.log@ = self.log@.push(Call::SetClient { client });
        }
    }

    fn clear_ecc_data(&mut self)
        ensures
            final(self)@ == (PkaView {
                ram: Seq::new(old(self)@.ram.len(), |i: int| 0u32),
                ..old(self)@
            }),
    {
        self.clear_ram();
        proof {
            self.log@ = self.log@.push(Call::ClearData);
        }
    }

    fn point_doubling<K: EccClient>(&mut self, use_curve_generator: bool, client: &mut K) -> (result:
        Result<(), ErrorCode>)
        ensures
            result == (if old(self)@.status.busy {
                Err(ErrorCode::BUSY)
            } else {
                Ok(())
            }),
            result is Err ==> final(self)@ == old(self)@ && final(client).log() == old(client).log(),
            result is Ok ==> doubling_started(
                old(self)@,
                use_curve_generator,
                trace::since(final(client).log(), old(client).log()),
                final(self)@,
            ),
            result is Err ==> *final(client) == *old(client),
    {
        let ghost log = client.log();
        let ghost before = self@;
        proof {
            assert(log + Seq::empty() =~= log);
            trace::lemma_since_append(log, Seq::empty());
        }
        let result = self.enable_peripheral();
        if result.is_ok() {
            let mut scalar = [0u8;32];
            scalar[31] = 2;
            assert(scalar@ =~= bytes::zeros(31).push(2));
            let ghost enabled = self@;
            let ghost first = *client;
            self.multiply_point(scalar, use_curve_generator, client);
            proof {
                let point = choose|point: Seq<u8>|
                    {
                        &&& if use_curve_generator {
                            point == generator() && client.log() == log
                        } else {
                            &&& client.log() == (if enabled.ecc_client is Some {
                                log.push(client.log().last())
                            } else {
                                log
                            })
                            &&& brought(
                                enabled.ecc_client,
                                seq![client.log().last()],
                                0,
                                Port::Point,
                                64,
                                point,
                            )
                        }
                        &&& self@ == #[trigger] enabled.multiplying(scalar@, point)
                    };
                assert(self@ =~= before.multiplying(scalar@, point));
                if !use_curve_generator && before.ecc_client is Some {
                    assert(client.log() =~= log + seq![client.log().last()]);
                    trace::lemma_since_append(log, seq![client.log().last()]);
                    let call = client.log().last();
                    ecc_math::lemma_served_push(first, Seq::empty(), first, call, *client);
                    assert(Seq::empty().push(call) =~= seq![call]);
                }
            }
        }
        proof {
            self.log@ = self.log@.push(
                Call::Ecc { operation: EccOperation::Doubling, use_curve_generator, result },
            );
        }
        result
    }

    fn point_addition<K: EccClient>(&mut self, use_curve_generator: bool, client: &mut K) -> (result:
        Result<(), ErrorCode>)
        ensures
            result == (if old(self)@.status.busy {
                Err(ErrorCode::BUSY)
            } else {
                Ok(())
            }),
            result is Err ==> final(self)@ == old(self)@ && final(client).log() == old(client).log(),
            result is Ok ==> addition_started(
                old(self)@,
                use_curve_generator,
                trace::since(final(client).log(), old(client).log()),
                final(self)@,
            ),
            result is Err ==> *final(client) == *old(client),
    {
        let ghost log = client.log();
        let ghost first = *client;
        let ghost before = self@;
        let ghost mut calls: Seq<Call> = Seq::empty();
        proof {
            assert(log + calls =~= log);
            trace::lemma_since_append(log, calls);
        }
        let result = self.enable_peripheral();
        if result.is_ok() {
            self.state = State::PointAddition;
            self.load_p256_parameters();
            let mut z_coord = [0u8;32];
            z_coord[31] = 1;
            assert(z_coord@ =~= bytes::zeros(31).push(1));
            let point = if use_curve_generator {
                Self::generator()
            } else {
                let point = self.client_point(client);
                proof {
                    if before.ecc_client is Some {
                        let call = client.log().last();
                        ecc_math::lemma_served_push(first, calls, first, call, *client);
                        calls = calls.push(call);
                        assert(client.log() =~= log + calls);
                    }
                }
                point
            };
            self.write_point(self.layout.add_p_x, self.layout.add_p_y, &point);
            self.write_slice(self.layout.add_p_z, &z_coord);
            let mut second = [0u8;64];
            assert(second@ =~= bytes::zeros(64));
            if self.ecc_client.is_some() {
                let ghost middle = *client;
                let _ = client.read_second_point(&mut second);
                proof {
                    let call = client.log().last();
                    ecc_math::lemma_served_push(first, calls, middle, call, *client);
                    calls = calls.push(call);
                    assert(client.log() =~= log + calls);
                }
            }
            self.write_point(self.layout.add_q_x, self.layout.add_q_y, &second);
            self.write_slice(self.layout.add_q_z, &z_coord);
            self.start_operation(Mode::ECCCompleteAddition);
            proof {
                trace::lemma_since_append(log, calls);
                assert(self@ =~= before.adding(point@, second@));
                let at: int = if use_curve_generator {
                    0
                } else {
                    1
                };
                assert(brought(before.ecc_client, calls, at, Port::SecondPoint, 64, second@));
            }
        }
        proof {
            self.log@ = self.log@.push(
                Call::Ecc { operation: EccOperation::Addition, use_curve_generator, result },
            );
        }
        result
    }

    fn scalar_multiplication<K: EccClient>(
        &mut self,
        use_curve_generator: bool,
        client: &mut K,
    ) -> (result: Result<(), ErrorCode>)
        ensures
            result == (if old(self)@.status.busy {
                Err(ErrorCode::BUSY)
            } else {
                Ok(())
            }),
            result is Err ==> final(self)@ == old(self)@ && final(client).log() == old(client).log(),
            result is Ok ==> multiplication_started(
                old(self)@,
                use_curve_generator,
                trace::since(final(client).log(), old(client).log()),
                final(self)@,
            ),
            result is Err ==> *final(client) == *old(client),
    {
        let ghost log = client.log();
        let ghost first = *client;
        let ghost before = self@;
        let ghost mut calls: Seq<Call> = Seq::empty();
        proof {
            assert(log + calls =~= log);
            trace::lemma_since_append(log, calls);
        }
        let result = self.enable_peripheral();
        if result.is_ok() {
            let mut scalar = [0u8;32];
            assert(scalar@ =~= bytes::zeros(32));
            if self.ecc_client.is_some() {
                let _ = client.read_scalar(&mut scalar);
                proof {
                    let call = client.log().last();
                    ecc_math::lemma_served_push(first, calls, first, call, *client);
                    calls = calls.push(call);
                    assert(client.log() =~= log + calls);
                }
            }
            let ghost second = *client;
            let ghost enabled = self@;
            let ghost middle = client.log();
            self.multiply_point(scalar, use_curve_generator, client);
            proof {
                let point = choose|point: Seq<u8>|
                    {
                        &&& if use_curve_generator {
                            point == generator() && client.log() == middle
                        } else {
                            &&& client.log() == (if enabled.ecc_client is Some {
                                middle.push(client.log().last())
                            } else {
                                middle
                            })
                            &&& brought(
                                enabled.ecc_client,
                                seq![client.log().last()],
                                0,
                                Port::Point,
                                64,
                                point,
                            )
                        }
                        &&& self@ == #[trigger] enabled.multiplying(scalar@, point)
                    };
                assert(self@ =~= before.multiplying(scalar@, point));
                if !use_curve_generator && before.ecc_client is Some {
                    let call = client.log().last();
                    ecc_math::lemma_served_push(first, calls, second, call, *client);
                    calls = calls.push(call);
                    assert(client.log() =~= log + calls);
                }
                trace::lemma_since_append(log, calls);
                assert(brought(before.ecc_client, calls, 0, Port::Scalar, 32, scalar@));
            }
        }
        proof {
            self.log@ = self.log@.push(
                Call::Ecc { operation: EccOperation::Multiplication, use_curve_generator, result },
            );
        }
        result
    }
}

impl VerifyEccPoint<32> for Pka {
    fn verify_point<K: EccClient>(&mut self, client: &mut K) -> (result: Result<(), ErrorCode>)
        ensures
            result == (if old(self)@.status.busy {
                Err(ErrorCode::BUSY)
            } else {
                Ok(())
            }),
            result is Err ==> final(self)@ == old(self)@ && final(client).log() == old(client).log(),
            result is Ok ==> verification_started(
                old(self)@,
                trace::since(final(client).log(), old(client).log()),
                final(self)@,
            ),
    {
        let ghost log = client.log();
        let ghost first = *client;
        let ghost before = self@;
        proof {
            assert(log + Seq::empty() =~= log);
            trace::lemma_since_append(log, Seq::empty());
        }
        let result = self.enable_peripheral();
        if result.is_ok() {
            self.state = State::VerifyPoint;
            self.load_p256_parameters();
            let point = self.client_point(client);
            self.write_point(X_IDX, RESULT_Y_IDX, &point);
            self.start_operation(Mode::FpCheck);
            proof {
                if before.ecc_client is Some {
                    let call = client.log().last();
                    assert(client.log() =~= log + seq![call]);
                    trace::lemma_since_append(log, seq![call]);
                    ecc_math::lemma_served_push(first, Seq::empty(), first, call, *client);
                    assert(Seq::empty().push(call) =~= seq![call]);
                }
                assert(self@ =~= before.verifying(point@));
            }
        }
        proof {
            self.log@ = self.log@.push(
                Call::Ecc {
                    operation: EccOperation::Verification,
                    use_curve_generator: false,
                    result,
                },
            );
        }
        result
    }
}

impl Pka {
    /// Retrieves modulus and operands from the client.
    fn client_operands<K: MathClient<SupportedOp>>(&self, len: usize, client: &mut K) -> (operands: (
        Vec<u8>,
        Vec<u8>,
        Vec<u8>,
    ))
        requires
            old(client).valid(),
        ensures
            final(client).valid(),
            trace::extends(final(client).log(), old(client).log()),
            ({
                let calls = trace::since(final(client).log(), old(client).log());
                let client = self@.math_client;
                &&& brought(client, calls, 0, Port::Modulus, len as nat, operands.0@)
                &&& brought(client, calls, 1, Port::Number, len as nat, operands.1@)
                &&& brought(client, calls, 2, Port::Number, len as nat, operands.2@)
                &&& calls.len() == (if client is None {
                    0nat
                } else {
                    3
                })
                &&& operands.0@.len() == len
            }),
            modular_arithmetic::served::<SupportedOp, K>(
                *old(client),
                trace::since(final(client).log(), old(client).log()),
                *final(client),
            ),
    {
        let ghost log = client.log();
        let ghost mut calls: Seq<Call> = Seq::empty();
        let mut modulus: Vec<u8> = vec![0u8; len];
        let mut first: Vec<u8> = vec![0u8; len];
        let mut second: Vec<u8> = vec![0u8; len];
        proof {
            assert(log + calls =~= log);
            assert(modulus@ =~= bytes::zeros(len as nat));
            assert(first@ =~= bytes::zeros(len as nat));
            assert(second@ =~= bytes::zeros(len as nat));
        }
        if self.math_client.is_some() {
            let ghost start = *client;
            let _ = client.read_modulus(modulus.as_mut_slice());
            let ghost with_modulus = *client;
            client.read_number(first.as_mut_slice());
            let ghost with_first = *client;
            client.read_number(second.as_mut_slice());
            proof {
                let (a, b, c) = (
                    with_modulus.log().last(),
                    with_first.log().last(),
                    client.log().last(),
                );
                modular_arithmetic::lemma_served_push::<SupportedOp, K>(
                    start,
                    calls,
                    start,
                    a,
                    with_modulus,
                );
                modular_arithmetic::lemma_served_push::<SupportedOp, K>(
                    start,
                    calls.push(a),
                    with_modulus,
                    b,
                    with_first,
                );
                modular_arithmetic::lemma_served_push::<SupportedOp, K>(
                    start,
                    calls.push(a).push(b),
                    with_first,
                    c,
                    *client,
                );
                calls = calls.push(a).push(b).push(c);
                assert(client.log() =~= log + calls);
            }
        }
        proof {
            trace::lemma_since_append(log, calls);
        }
        (modulus, first, second)
    }

    /// Loads modulus and operands and starts the first step of a modular operation.
    fn load_operands(
        &mut self,
        operation: SupportedOp,
        modulus: &[u8],
        first: &[u8],
        second: &[u8],
    )
        requires
            old(self)@.wf(),
            modulus@.len() <= 512,
        ensures
            final(self)@.wf(),
            final(self).log() == old(self).log(),
            final(self)@ == old(self)@.computing(operation, modulus@, first@, second@),
    {
        let len: usize = modulus.len();
        self.math_len = len;
        self.write_word(OP_LEN_IDX, (len as u32) * 8);
        self.write_slice(MOD_VALUE_IDX, modulus);
        match operation {
            SupportedOp::Addition => {
                self.state = State::MathAddition;
                self.write_slice(self.layout.arith_op_a, first);
                self.write_slice(OP_A_IDX, second);
                self.start_operation(Mode::ModularAddition);
            },
            SupportedOp::Multiplication => {
                self.state = State::MathComputeR2;
                self.write_slice(OP_A_IDX, first);
                self.write_slice(EXP_IDX, second);
                self.start_operation(Mode::MontgomeryOnly);
            },
            SupportedOp::Division => {
                self.state = State::MathDivisionInvert;
                self.write_slice(OP_A_IDX, first);
                self.write_slice(self.layout.arith_op_a, second);
                self.start_operation(Mode::ModularInversion);
            },
        }
    }
}

impl modular_arithmetic::MathCryptoBase<SupportedOp> for Pka {
    open spec fn takes_len(modulus_len: usize) -> bool {
        modulus_len <= 512
    }

    fn set_math_client(&mut self, client: usize)
        ensures
            final(self)@ == (PkaView { math_client: Some(client), ..old(self)@ }),
    {
        self.math_client = Some(client);
        proof {
            self.log@ = self.log@.push(Call::SetClient { client });
        }
    }

    fn start_computation<K: MathClient<SupportedOp>>(
        &mut self,
        modulus_len: usize,
        operation: SupportedOp,
        client: &mut K,
    ) -> (result: Result<(), ErrorCode>)
        ensures
            result == (if old(self)@.status.busy {
                Err(ErrorCode::BUSY)
            } else {
                Ok(())
            }),
            result is Err ==> final(self)@ == old(self)@ && final(client).log() == old(client).log(),
            result is Ok ==> computation_started(
                old(self)@,
                modulus_len as nat,
                operation,
                trace::since(final(client).log(), old(client).log()),
                final(self)@,
            ),
            result is Err ==> *final(client) == *old(client),
    {
        let ghost log = client.log();
        let ghost before = self@;
        proof {
            assert(log + Seq::empty() =~= log);
            trace::lemma_since_append(log, Seq::empty());
        }
        let result = self.enable_peripheral();
        if result.is_ok() {
            let (modulus, first, second) = self.client_operands(modulus_len, client);
            self.load_operands(
                operation,
                modulus.as_slice(),
                first.as_slice(),
                second.as_slice(),
            );
            proof {
                assert(self@ =~= before.computing(operation, modulus@, first@, second@));
            }
        }
        proof {
            self.log@ = self.log@.push(
                Call::Compute { modulus_len, operation: operation.kind(), result },
            );
        }
        result
    }

    fn clear_math_data(&mut self)
        ensures
            final(self)@ == (PkaView {
                ram: Seq::new(old(self)@.ram.len(), |i: int| 0u32),
                ..old(self)@
            }),
    {
        self.clear_ram();
        proof {
            self.log@ = self.log@.push(Call::ClearData);
        }
    }
}

} // verus!
