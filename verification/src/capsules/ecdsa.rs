//! ECDSA Signer for P256 signatures using Hardware Accelerators.
//!
//! This implements deterministic ECDSA signing per RFC 6979
//! combined with SEC1 signature computation, using
//! hardware-accelerated HMAC-SHA256, elliptic-curve scalar multiplication,
//! and big-integer modular arithmetic peripherals.
//!
//! # Algorithm outline
//!
//! Given a private key `d`, message hash `z`  and curve order `n`:
//!
//! 1. **RFC 6979 nonce derivation** (states `HmacDerivingK1` through
//!    `HmacGeneratingK`): derive a deterministic nonce `k` from `d` and
//!    `z` via repeated HMAC-SHA256, seeded with `K = 0x00..00`,
//!    `V = 0x01..01`:
//!      - `K1 = HMAC(K, V || 0x00 || d || z)`, `V1 = HMAC(K1, V)`
//!      - `K2 = HMAC(K1, V1 || 0x01 || d || z)`, `V2 = HMAC(K2, V1)`
//!      - `T = HMAC(K2, V2)`; if `0 < T < n`, `k = T`; otherwise loop
//!        (`HmacGetNewK` / `HmacDerivingV2`) generating more `T` bytes.
//! 2. **R computation** (`EccCalculatingR`): compute the EC point `k*G`
//!    via the hardware ECC accelerator; `r = (k*G).x`.
//!    If `r == 0`, the nonce is rejected and step 1's retry loop
//!    (`InvalidR` / `HmacGetNewK`) runs again to derive a new `k`.
//! 3. **R reduction** (`MathModR`): `r = r mod n`.
//! 4. **S computation**, done in three hardware modular-arithmetic
//!    passes chained through `computation_completed`:
//!      - `MathRDaMul`: `t = r * d mod n`
//!      - `MathResHAdd`: `t = t + z mod n`  (stored back into `s_val`)
//!      - `MathResKDiv`: `s = t / k mod n`  (i.e. `s = k^-1 * (z + r*d) mod n`)
//!    If `s == 0`, the nonce is rejected and control returns to the
//!    RFC 6979 retry loop (`HmacGetNewK`) to derive a new `k`, exactly
//!    as in the `r == 0` case.
//! 5. Signature is `(r, s)`.
//!
//! The signer decides; whoever runs it performs each [`Step`] that it returns, with the mutexes and
//! drivers at hand, and has the drivers call it back.
//!
//! # Threat model note on timing
//!
//! `check_t`/`check_r`/`check_s` are written to avoid secret-dependent
//! *branches* on individual bytes of `t`/`r`/`s` (all bytes are always
//! scanned, comparisons are accumulated with bitwise operators rather
//! than short-circuiting `if`s). This hides the byte-level memory access
//! pattern of the comparison itself. It does **not** make the surrounding
//! control flow constant-time: the number of HMAC/ECC/math peripheral
//! operations issued, and which state-machine branch runs next, still
//! depends on whether a candidate nonce was rejected. Closing that
//! coarser-grained timing channel (peripheral op counts, request timing)
//! is out of scope for this module; these routines only protect against
//! leaking the comparison result through data-dependent branching within
//! `check_t`/`check_r`/`check_s` themselves.
use crate::driver_mutex;
use crate::driver_mutex::{
    DriverMutex, DriverMutexAny, DriverMutexHandle, DriverMutexRef, Resource,
};
use crate::error::ErrorCode;
use crate::hil::digest::{Client, HmacClient};
use crate::hil::ecc_constants;
use crate::hil::ecc_constants::NistP256Constants;
use crate::hil::ecc_math::EccClient;
use crate::hil::modular_arithmetic::MathClient;
use crate::hil::trace::{Call, Observed, Port};
use crate::sw::bytes;
use std::marker::PhantomData;
use vstd::prelude::*;

verus! {

pub const P_LEN: usize = 32;

pub const SIG_LEN: usize = 64;

/// Which operand of a modular operation comes next.
#[derive(Clone, Copy, Debug, PartialEq, Eq, Structural)]
pub enum Operand {
    First,
    Second,
}

/// What the signer is doing.
#[derive(Clone, Copy, Debug, PartialEq, Eq, Structural)]
pub enum State {
    /// No signing operation in progress.
    Idle,
    /// Reducing the input hash `z` mod `n` (only needed if `z >= n`).
    ModHash,
    /// RFC 6979: `K1 = HMAC(K, V || 0x00 || d || z)`.
    HmacDerivingK1,
    /// RFC 6979: `V1 = HMAC(K1, V)`.
    HmacDerivingV1,
    /// RFC 6979: `K2 = HMAC(K1, V1 || 0x01 || d || z)`.
    HmacDerivingK2,
    /// RFC 6979: `V2 = HMAC(K2, V1)`.
    HmacDerivingV2,
    /// RFC 6979: `T = HMAC(K2, V2)`; candidate nonce `k`.
    HmacGeneratingK,
    /// RFC 6979 retry loop: candidate `k` was rejected; re-derive `K`/`V`
    /// before generating a fresh `T`.
    HmacGetNewK,
    /// SEC1: compute `R = k * G` on the hardware ECC accelerator.
    EccCalculatingR,
    /// `r = R.x == 0`: candidate nonce rejected, re-enter the RFC 6979
    /// retry loop to derive a new `k`.
    InvalidR,
    /// SEC1: `r = r mod n`.
    MathModR,
    /// SEC1: `t = r * d mod n`.
    MathRDaMul,
    /// SEC1: `t = t + z mod n`.
    MathResHAdd,
    /// SEC1: `s = t / k mod n` (i.e. `k^-1 * (z + r*d) mod n`).
    MathResKDiv,
    /// Asynchronously installing a new signing key via a deferred call.
    ChangingKey,
}

/// A guard of one of the three drivers.
pub enum Guard<E, M, H> {
    Ecc(DriverMutexRef<E>),
    Math(DriverMutexRef<M>),
    Hmac(DriverMutexRef<H>),
}

/// One of the three drivers.
#[derive(Clone, Copy, Debug, PartialEq, Eq, Structural)]
pub enum Driver {
    Ecc,
    Math,
    Hmac,
}

impl<E, M, H> View for Guard<E, M, H> {
    type V = (Driver, usize);

    /// The driver, and the mutex that the guard is of.
    open spec fn view(&self) -> (Driver, usize) {
        match *self {
            Guard::Ecc(guard) => (Driver::Ecc, guard.owner()),
            Guard::Math(guard) => (Driver::Math, guard.owner()),
            Guard::Hmac(guard) => (Driver::Hmac, guard.owner()),
        }
    }
}

/// An operation that a driver is to start. Numbers have [`P_LEN`] bytes.
#[derive(Clone, Copy, Debug, PartialEq, Eq, Structural)]
pub enum Start {
    /// HMAC-SHA256 of so many bytes.
    Authenticate(usize),
    Modulo,
    Multiplication,
    Addition,
    Division,
    /// Multiplication of the generator by a scalar.
    ScalarMultiplication,
}

/// The end of a signing operation, for the client: hash and signature buffer go back.
#[derive(Clone, Copy)]
pub struct Signed {
    pub result: Result<(), ErrorCode>,
    pub hash: [u8; 32],
    pub signature: [u8; 64],
}

/// What is to be done for the signer, in this order.
pub struct Step<E, M, H> {
    /// A guard that the signer does not want.
    pub refused: Option<DriverMutexAny>,
    /// A guard that the signer is done with.
    pub dropped: Option<Guard<E, M, H>>,
    /// A driver to be requested from its mutex.
    pub request: Option<(Driver, DriverMutexHandle)>,
    /// The signer is to be made the client of the driver that it holds.
    pub set_client: bool,
    /// An operation that the driver is to start.
    pub start: Option<Start>,
    /// What the client is to be told.
    pub signed: Option<Signed>,
}

/// The end of a signing operation, by contents.
#[verifier::ext_equal]
pub struct SignedView {
    pub result: Result<(), ErrorCode>,
    pub hash: Seq<u8>,
    pub signature: Seq<u8>,
}

/// What is to be done for the signer, by contents.
#[verifier::ext_equal]
pub struct StepView {
    pub refused: Option<DriverMutexAny>,
    pub dropped: Option<(Driver, usize)>,
    pub request: Option<(Driver, DriverMutexHandle)>,
    pub set_client: bool,
    pub start: Option<Start>,
    pub signed: Option<SignedView>,
}

impl<E, M, H> View for Step<E, M, H> {
    type V = StepView;

    open spec fn view(&self) -> StepView {
        StepView {
            refused: self.refused,
            dropped: guard_view(self.dropped),
            request: self.request,
            set_client: self.set_client,
            start: self.start,
            signed: match self.signed {
                Some(signed) => Some(
                    SignedView {
                        result: signed.result,
                        hash: signed.hash@,
                        signature: signed.signature@,
                    },
                ),
                None => None,
            },
        }
    }
}

/// The view of a guard, if there is one.
pub open spec fn guard_view<E, M, H>(guard: Option<Guard<E, M, H>>) -> Option<(Driver, usize)> {
    match guard {
        Some(guard) => Some(guard@),
        None => None,
    }
}

impl StepView {
    /// Nothing is to be done.
    pub open spec fn nothing() -> StepView {
        StepView {
            refused: None,
            dropped: None,
            request: None,
            set_client: false,
            start: None,
            signed: None,
        }
    }
}

/// How a driver says its operation ended, until the signer has acted on it.
#[derive(Clone, Copy)]
pub enum Completion {
    Hash(Result<(), ErrorCode>),
    Ecc(Result<(), ErrorCode>),
    Math(Result<(), ErrorCode>),
}

/// A signer for P256. `E`, `M` and `H` are the drivers, `Op` names the operations of `M`.
pub struct EcdsaP256SignatureSigner<E, Op, M, H> {
    client: Option<usize>,
    client_key_set: Option<usize>,
    ecc_handle: Option<DriverMutexHandle>,
    math_handle: Option<DriverMutexHandle>,
    hmac_handle: Option<DriverMutexHandle>,
    held: Option<Guard<E, M, H>>,
    signing_key: [u8; 32],
    hash_storage: Option<[u8; 32]>,
    signature_storage: Option<[u8; 64]>,
    key_val: [u8; 32],
    k_val: [u8; 32],
    v_val: [u8; 32],
    r_val: [u8; 32],
    s_val: [u8; 32],
    t_val: [u8; 32],
    input_counter: usize,
    output_counter: usize,
    key_counter: usize,
    state: State,
    current_operand: Operand,
    completion: Option<Completion>,
    deferred_call: bool,
    new_key_buffer: Option<[u8; 32]>,
    operations: PhantomData<Op>,
    log: Ghost<Seq<Call>>,
}

/// What the signer is.
#[verifier::ext_equal]
pub struct SignerView {
    pub client: Option<usize>,
    pub client_key_set: Option<usize>,
    pub ecc_handle: Option<DriverMutexHandle>,
    pub math_handle: Option<DriverMutexHandle>,
    pub hmac_handle: Option<DriverMutexHandle>,
    /// The guard of the driver that works for the signer.
    pub held: Option<(Driver, usize)>,
    /// The private key `d`.
    pub signing_key: Seq<u8>,
    /// The hash `z`.
    pub hash: Option<Seq<u8>>,
    pub signature: Option<Seq<u8>>,
    /// `K` of RFC 6979.
    pub key: Seq<u8>,
    /// The nonce `k`.
    pub k: Seq<u8>,
    /// `V` of RFC 6979.
    pub v: Seq<u8>,
    pub r: Seq<u8>,
    pub s: Seq<u8>,
    /// The candidate for a nonce.
    pub t: Seq<u8>,
    pub input_counter: nat,
    pub output_counter: nat,
    pub key_counter: nat,
    pub state: State,
    pub operand: Operand,
    pub completion: Option<Completion>,
    pub deferred_call: bool,
    pub new_key: Option<Seq<u8>>,
}

impl<E, Op, M, H> View for EcdsaP256SignatureSigner<E, Op, M, H> {
    type V = SignerView;

    closed spec fn view(&self) -> SignerView {
        SignerView {
            client: self.client,
            client_key_set: self.client_key_set,
            ecc_handle: self.ecc_handle,
            math_handle: self.math_handle,
            hmac_handle: self.hmac_handle,
            held: guard_view(self.held),
            signing_key: self.signing_key@,
            hash: match self.hash_storage {
                Some(hash) => Some(hash@),
                None => None,
            },
            signature: match self.signature_storage {
                Some(signature) => Some(signature@),
                None => None,
            },
            key: self.key_val@,
            k: self.k_val@,
            v: self.v_val@,
            r: self.r_val@,
            s: self.s_val@,
            t: self.t_val@,
            input_counter: self.input_counter as nat,
            output_counter: self.output_counter as nat,
            key_counter: self.key_counter as nat,
            state: self.state,
            operand: self.current_operand,
            completion: self.completion,
            deferred_call: self.deferred_call,
            new_key: match self.new_key_buffer {
                Some(key) => Some(key@),
                None => None,
            },
        }
    }
}

/// A number in range: not zero and less than the order of the curve.
pub open spec fn is_valid_nonce(t: Seq<u8>) -> bool {
    0 < bytes::be_value(t) < bytes::be_value(ecc_constants::n())
}

/// At most `len` bytes of `data` from `offset` on.
pub open spec fn piece(data: Seq<u8>, offset: nat, len: nat) -> Seq<u8> {
    if offset >= data.len() {
        Seq::empty()
    } else {
        data.subrange(
            offset as int,
            (offset + bytes::least(len, (data.len() - offset) as nat)) as int,
        )
    }
}

/// A number of 32 bytes after more of it came, as far as it reaches.
pub open spec fn updated(number: Seq<u8>, offset: nat, data: Seq<u8>) -> Seq<u8> {
    let count = bytes::least(data.len(), (32 - offset) as nat) as int;
    number.take(offset as int) + data.take(count) + number.skip(offset + count)
}

/// The front of a buffer after `data` was copied there.
pub open spec fn filled(buffer: Seq<u8>, data: Seq<u8>) -> Seq<u8> {
    data + buffer.skip(data.len() as int)
}

impl SignerView {
    /// The invariant.
    pub open spec fn wf(self) -> bool {
        &&& self.signing_key.len() == 32
        &&& self.hash matches Some(hash) ==> hash.len() == 32
        &&& self.signature matches Some(signature) ==> signature.len() == 64
        &&& self.key.len() == 32
        &&& self.k.len() == 32
        &&& self.v.len() == 32
        &&& self.r.len() == 32
        &&& self.s.len() == 32
        &&& self.t.len() == 32
        &&& self.input_counter <= 97
        &&& self.output_counter <= 32
        &&& self.key_counter <= 32
        &&& self.new_key matches Some(key) ==> key.len() == 32
    }

    /// The state derives a nonce.
    pub open spec fn derives(self) -> bool {
        match self.state {
            State::HmacDerivingK1 | State::HmacDerivingV1 | State::HmacDerivingK2
            | State::HmacDerivingV2 | State::HmacGeneratingK | State::HmacGetNewK => true,
            _ => false,
        }
    }

    /// The message of the HMAC that the state computes.
    pub open spec fn message(self) -> Seq<u8> {
        match self.state {
            State::HmacDerivingK1 => match self.hash {
                Some(hash) => self.v + seq![0u8] + self.signing_key + hash,
                None => Seq::empty(),
            },
            State::HmacDerivingK2 => match self.hash {
                Some(hash) => self.v + seq![1u8] + self.signing_key + hash,
                None => Seq::empty(),
            },
            State::HmacGetNewK => self.v + seq![0u8],
            _ => self.v,
        }
    }

    /// The signer after a piece of the result of an HMAC came.
    pub open spec fn hmac_output(self, data: Seq<u8>) -> SignerView {
        let offset = self.output_counter;
        let next = offset + bytes::least(data.len(), (32 - offset) as nat);
        match self.state {
            State::HmacDerivingK1 | State::HmacDerivingK2 | State::HmacGetNewK => SignerView {
                key: updated(self.key, offset, data),
                output_counter: next,
                ..self
            },
            State::HmacDerivingV1 | State::HmacDerivingV2 => SignerView {
                v: updated(self.v, offset, data),
                output_counter: next,
                ..self
            },
            State::HmacGeneratingK => SignerView {
                t: updated(self.t, offset, data),
                v: updated(self.v, offset, data),
                output_counter: next,
                ..self
            },
            _ => self,
        }
    }

    /// The number that a modular operation reads next.
    pub open spec fn number(self) -> Option<Seq<u8>> {
        match (self.state, self.operand) {
            (State::ModHash, _) => self.hash,
            (State::MathModR, _) => Some(self.r),
            (State::MathRDaMul, Operand::First) => Some(self.r),
            (State::MathRDaMul, Operand::Second) => Some(self.signing_key),
            (State::MathResHAdd, Operand::First) => Some(self.s),
            (State::MathResHAdd, Operand::Second) => self.hash,
            (State::MathResKDiv, Operand::First) => Some(self.s),
            (State::MathResKDiv, Operand::Second) => Some(self.k),
            _ => None,
        }
    }

    /// The modular operation has two operands.
    pub open spec fn has_two_operands(self) -> bool {
        match self.state {
            State::MathRDaMul | State::MathResHAdd | State::MathResKDiv => true,
            _ => false,
        }
    }

    /// The signer after `count` bytes of a number were read: after the last byte the next operand
    /// follows.
    pub open spec fn number_taken(self, count: nat) -> SignerView {
        if self.input_counter + count < 32 {
            SignerView { input_counter: self.input_counter + count, ..self }
        } else {
            SignerView {
                input_counter: 0,
                operand: if self.has_two_operands() {
                    Operand::Second
                } else {
                    self.operand
                },
                ..self
            }
        }
    }

    /// The signer after a piece of the result of a modular operation came.
    pub open spec fn number_output(self, data: Seq<u8>) -> SignerView {
        let offset = self.output_counter;
        let next = offset + bytes::least(data.len(), (32 - offset) as nat);
        match self.state {
            State::ModHash => SignerView {
                hash: match self.hash {
                    Some(hash) => Some(updated(hash, offset, data)),
                    None => None,
                },
                output_counter: next,
                ..self
            },
            State::MathModR => SignerView {
                r: updated(self.r, offset, data),
                output_counter: next,
                ..self
            },
            State::MathRDaMul | State::MathResHAdd | State::MathResKDiv => SignerView {
                s: updated(self.s, offset, data),
                output_counter: next,
                ..self
            },
            _ => self,
        }
    }

    /// The signer with as much of its operands read as by another one.
    pub open spec fn at_progress_of(self, other: SignerView) -> SignerView {
        SignerView {
            input_counter: other.input_counter,
            key_counter: other.key_counter,
            operand: other.operand,
            ..self
        }
    }

    /// The signer with its counters at the start.
    pub open spec fn rewound(self) -> SignerView {
        SignerView { input_counter: 0, output_counter: 0, key_counter: 0, ..self }
    }

    /// A driver is to be requested, if the signer is registered with its mutex.
    pub open spec fn wanted(self, driver: Driver) -> Option<(Driver, DriverMutexHandle)> {
        let handle = match driver {
            Driver::Ecc => self.ecc_handle,
            Driver::Math => self.math_handle,
            Driver::Hmac => self.hmac_handle,
        };
        match handle {
            Some(handle) => Some((driver, handle)),
            None => None,
        }
    }

    /// The signer goes to a state and has the driver that it holds start an operation.
    pub open spec fn going_on(self, state: State, start: Start) -> (SignerView, StepView) {
        (
            SignerView { state, ..self },
            StepView {
                start: if self.held is Some {
                    Some(start)
                } else {
                    None
                },
                ..StepView::nothing()
            },
        )
    }

    /// The signer goes to a state, drops the driver that it holds and requests another one.
    pub open spec fn changing(self, state: State, driver: Driver) -> (SignerView, StepView) {
        (
            SignerView { state, held: None, ..self },
            StepView {
                dropped: self.held,
                request: self.wanted(driver),
                ..StepView::nothing()
            },
        )
    }

    /// The signing operation has ended: the client gets hash and signature, and nothing secret is
    /// kept.
    pub open spec fn completed(self, result: Result<(), ErrorCode>) -> (SignerView, StepView) {
        let told = self.client is Some && self.hash is Some && self.signature is Some;
        (
            SignerView {
                state: State::Idle,
                held: None,
                hash: if self.client is Some {
                    None
                } else {
                    self.hash
                },
                signature: if self.client is Some {
                    None
                } else {
                    self.signature
                },
                key: bytes::zeros(32),
                k: bytes::zeros(32),
                v: bytes::zeros(32),
                r: bytes::zeros(32),
                s: bytes::zeros(32),
                t: bytes::zeros(32),
                ..self.rewound()
            },
            StepView {
                dropped: self.held,
                signed: if told {
                    Some(
                        SignedView { result, hash: self.hash->0, signature: self.r + self.s },
                    )
                } else {
                    None
                },
                ..StepView::nothing()
            },
        )
    }

    /// What follows the end of an HMAC.
    pub open spec fn after_hash(self, result: Result<(), ErrorCode>) -> (SignerView, StepView) {
        let rewound = self.rewound();
        if result is Err {
            rewound.completed(result)
        } else {
            match self.state {
                State::HmacDerivingK1 => rewound.going_on(
                    State::HmacDerivingV1,
                    Start::Authenticate(32),
                ),
                State::HmacDerivingV1 => rewound.going_on(
                    State::HmacDerivingK2,
                    Start::Authenticate(97),
                ),
                State::HmacDerivingK2 => rewound.going_on(
                    State::HmacDerivingV2,
                    Start::Authenticate(32),
                ),
                State::HmacDerivingV2 => rewound.going_on(
                    State::HmacGeneratingK,
                    Start::Authenticate(32),
                ),
                State::HmacGeneratingK => if is_valid_nonce(self.t) {
                    SignerView {
                        k: self.t,
                        t: bytes::zeros(32),
                        ..rewound
                    }.changing(State::EccCalculatingR, Driver::Ecc)
                } else {
                    rewound.going_on(State::HmacGetNewK, Start::Authenticate(33))
                },
                State::HmacGetNewK => rewound.going_on(
                    State::HmacDerivingV2,
                    Start::Authenticate(32),
                ),
                _ => rewound.completed(Err(ErrorCode::FAIL)),
            }
        }
    }

    /// What follows the end of an operation on points.
    pub open spec fn after_ecc(self, result: Result<(), ErrorCode>) -> (SignerView, StepView) {
        let rewound = SignerView { input_counter: 0, output_counter: 0, ..self };
        if result is Err {
            rewound.completed(result)
        } else if bytes::be_value(self.r) == 0 {
            rewound.changing(State::InvalidR, Driver::Hmac)
        } else {
            rewound.changing(State::MathModR, Driver::Math)
        }
    }

    /// What follows the end of a modular operation.
    pub open spec fn after_math(self, result: Result<(), ErrorCode>) -> (SignerView, StepView) {
        let next = SignerView { operand: Operand::First, ..self.rewound() };
        if result is Err {
            self.completed(result)
        } else {
            match self.state {
                State::ModHash => self.rewound().changing(State::HmacDerivingK1, Driver::Hmac),
                State::MathModR => next.going_on(State::MathRDaMul, Start::Multiplication),
                State::MathRDaMul => next.going_on(State::MathResHAdd, Start::Addition),
                State::MathResHAdd => next.going_on(State::MathResKDiv, Start::Division),
                State::MathResKDiv => if bytes::be_value(self.s) == 0 {
                    self.rewound().changing(State::HmacGetNewK, Driver::Hmac)
                } else {
                    self.completed(result)
                },
                _ => self.completed(Err(ErrorCode::FAIL)),
            }
        }
    }

    /// What follows the end of an operation that a driver has reported.
    pub open spec fn resumed(self) -> (SignerView, StepView) {
        let cleared = SignerView { completion: None, ..self };
        match self.completion {
            None => (self, StepView::nothing()),
            Some(Completion::Hash(result)) => cleared.after_hash(result),
            Some(Completion::Ecc(result)) => cleared.after_ecc(result),
            Some(Completion::Math(result)) => cleared.after_math(result),
        }
    }

    /// The driver that the signer waits for, the state that follows, and what the driver is to
    /// start.
    pub open spec fn awaited(self) -> Option<(Driver, State, Start)> {
        match self.state {
            State::ModHash => Some((Driver::Math, State::ModHash, Start::Modulo)),
            State::HmacDerivingK1 => Some(
                (Driver::Hmac, State::HmacDerivingK1, Start::Authenticate(97)),
            ),
            State::InvalidR => Some((Driver::Hmac, State::HmacGetNewK, Start::Authenticate(33))),
            State::HmacGetNewK => Some(
                (Driver::Hmac, State::HmacGetNewK, Start::Authenticate(33)),
            ),
            State::EccCalculatingR => Some(
                (Driver::Ecc, State::EccCalculatingR, Start::ScalarMultiplication),
            ),
            State::MathModR => Some((Driver::Math, State::MathModR, Start::Modulo)),
            State::MathRDaMul => Some((Driver::Math, State::MathRDaMul, Start::Multiplication)),
            _ => None,
        }
    }

    /// The signer with a signature begun.
    pub open spec fn begun(self, hash: Seq<u8>, signature: Seq<u8>) -> (SignerView, StepView) {
        let fresh = SignerView {
            v: Seq::new(32, |i: int| 1u8),
            key: bytes::zeros(32),
            hash: Some(hash),
            signature: Some(signature),
            ..self.rewound()
        };
        let (state, driver) = if bytes::be_value(hash) >= bytes::be_value(ecc_constants::n()) {
            (State::ModHash, Driver::Math)
        } else {
            (State::HmacDerivingK1, Driver::Hmac)
        };
        (
            SignerView { state, ..fresh },
            StepView { request: self.wanted(driver), ..StepView::nothing() },
        )
    }
}

impl<E, Op, M, H> Observed for EcdsaP256SignatureSigner<E, Op, M, H> {
    closed spec fn log(&self) -> Seq<Call> {
        self.log@
    }

    open spec fn valid(&self) -> bool {
        self@.wf()
    }
}

/// A number of bytes that are all zero is zero, and only such a one is.
proof fn lemma_be_value_zero(number: Seq<u8>)
    ensures
        bytes::be_value(number) == 0 <==> forall|i: int|
            0 <= i < number.len() ==> #[trigger] number[i] == 0,
    decreases number.len(),
{
    if number.len() > 0 {
        let front = number.drop_last();
        lemma_be_value_zero(front);
        if bytes::be_value(number) == 0 {
            assert forall|i: int| 0 <= i < number.len() implies #[trigger] number[i] == 0 by {
                if i < number.len() - 1 {
                    assert(front[i] == number[i]);
                }
            }
        }
        if forall|i: int| 0 <= i < number.len() ==> #[trigger] number[i] == 0 {
            assert forall|i: int| 0 <= i < front.len() implies #[trigger] front[i] == 0 by {
                assert(front[i] == number[i]);
            }
        }
    }
}

/// Whether a number is not zero. Every byte is looked at, without a branch on it.
pub fn is_non_zero(number: &[u8; 32]) -> (non_zero: bool)
    ensures
        non_zero == (bytes::be_value(number@) != 0),
{
    let mut all: u8 = 0;
    let mut i: usize = 0;
    while i < P_LEN
        invariant
            i <= 32,
            all != 0 <==> exists|j: int| 0 <= j < i && #[trigger] number@[j] != 0,
        decreases 32 - i,
    {
        let byte: u8 = number[i];
        assert((all | byte) != 0 <==> (all != 0 || byte != 0)) by (bit_vector);
        all = all | byte;
        i = i + 1;
    }
    proof {
        lemma_be_value_zero(number@);
    }
    all != 0
}

/// Whether a number is less than another one. Every byte is looked at, without a branch on it.
pub fn is_less_than(a: &[u8; 32], b: &[u8; 32]) -> (less: bool)
    ensures
        less == (bytes::be_value(a@) < bytes::be_value(b@)),
{
    // 1 and 0 stand for true and false.
    let mut less: u32 = 0;
    let mut exactly_equal_so_far: u32 = 1;
    let mut i: usize = 0;
    assert(a@.take(0) =~= Seq::<u8>::empty());
    assert(b@.take(0) =~= Seq::<u8>::empty());
    while i < P_LEN
        invariant
            i <= 32,
            less <= 1,
            exactly_equal_so_far <= 1,
            less == 1 <==> bytes::be_value(a@.take(i as int)) < bytes::be_value(b@.take(i as int)),
            exactly_equal_so_far == 1 <==> bytes::be_value(a@.take(i as int)) == bytes::be_value(
                b@.take(i as int),
            ),
        decreases 32 - i,
    {
        let x: u32 = a[i] as u32;
        let y: u32 = b[i] as u32;
        assert((x ^ y) < 256) by (bit_vector)
            requires
                x < 256,
                y < 256,
        ;
        let difference: u32 = x + 256 - y;
        let mixture: u32 = (x ^ y) + 255;
        proof {
            assert(difference >> 8 <= 1 && (difference >> 8 == 0 <==> difference < 256))
                by (bit_vector)
                requires
                    difference < 512,
            ;
            assert(mixture >> 8 <= 1 && (mixture >> 8 == 0 <==> x == y)) by (bit_vector)
                requires
                    x < 256,
                    y < 256,
                    mixture == (x ^ y) + 255,
            ;
        }
        let byte_less: u32 = 1 - (difference >> 8);
        let byte_equal: u32 = 1 - (mixture >> 8);
        proof {
            assert((less | (byte_less & exactly_equal_so_far)) <= 1 && ((less | (byte_less
                & exactly_equal_so_far)) == 1 <==> less == 1 || byte_less == 1
                && exactly_equal_so_far == 1)) by (bit_vector)
                requires
                    less <= 1,
                    byte_less <= 1,
                    exactly_equal_so_far <= 1,
            ;
            assert((exactly_equal_so_far & byte_equal) <= 1 && ((exactly_equal_so_far & byte_equal)
                == 1 <==> exactly_equal_so_far == 1 && byte_equal == 1)) by (bit_vector)
                requires
                    byte_equal <= 1,
                    exactly_equal_so_far <= 1,
            ;
            assert(a@.take(i + 1).drop_last() =~= a@.take(i as int));
            assert(b@.take(i + 1).drop_last() =~= b@.take(i as int));
        }
        less = less | (byte_less & exactly_equal_so_far);
        exactly_equal_so_far = exactly_equal_so_far & byte_equal;
        i = i + 1;
    }
    assert(a@.take(32) =~= a@);
    assert(b@.take(32) =~= b@);
    less == 1
}

/// Copies at most so many bytes of a number as the buffer takes, from `index` on. Returns how many.
fn read_var_to_buf(number: &[u8], index: usize, buffer: &mut [u8]) -> (count: usize)
    ensures
        count == piece(number@, index as nat, old(buffer)@.len()).len(),
        count <= old(buffer)@.len(),
        index + count <= usize::MAX,
        index <= number@.len() ==> index + count <= number@.len(),
        final(buffer)@.len() == old(buffer)@.len(),
        final(buffer)@ == filled(
            old(buffer)@,
            piece(number@, index as nat, old(buffer)@.len()),
        ),
{
    let ghost given = buffer@;
    let total: usize = number.len();
    let room: usize = buffer.len();
    if index >= total {
        assert(filled(given, Seq::empty()) =~= given);
        return 0;
    }
    let count: usize = if room < total - index {
        room
    } else {
        total - index
    };
    let part: &[u8] = vstd::slice::slice_subrange(number, index, index + count);
    bytes::copy_into(buffer, 0, part);
    assert(part@ =~= piece(number@, index as nat, given.len()));
    assert(buffer@ =~= filled(given, part@));
    count
}

/// Copies as much of the buffer as a number takes from `index` on. Returns how many bytes.
fn update_var_from_buf(number: &mut [u8; 32], index: usize, buffer: &[u8]) -> (count: usize)
    requires
        index <= 32,
    ensures
        count == bytes::least(buffer@.len(), (32 - index) as nat),
        final(number)@ == updated(old(number)@, index as nat, buffer@),
{
    let ghost given = number@;
    let len: usize = buffer.len();
    let count: usize = if len < P_LEN - index {
        len
    } else {
        P_LEN - index
    };
    let part: &[u8] = vstd::slice::slice_subrange(buffer, 0, count);
    bytes::copy_into(number, index, part);
    assert(number@ =~= updated(given, index as nat, buffer@));
    count
}

impl<E, Op, M, H> EcdsaP256SignatureSigner<E, Op, M, H> {
    /// A signer with a key, which is not registered with the mutexes yet.
    pub fn new(signing_key: [u8; 32]) -> (signer: Self)
        ensures
            signer.valid(),
            signer.log() == Seq::<Call>::empty(),
            signer@ == (SignerView {
                client: None,
                client_key_set: None,
                ecc_handle: None,
                math_handle: None,
                hmac_handle: None,
                held: None,
                signing_key: signing_key@,
                hash: None,
                signature: None,
                key: bytes::zeros(32),
                k: bytes::zeros(32),
                v: bytes::zeros(32),
                r: bytes::zeros(32),
                s: bytes::zeros(32),
                t: bytes::zeros(32),
                input_counter: 0,
                output_counter: 0,
                key_counter: 0,
                state: State::Idle,
                operand: Operand::First,
                completion: None,
                deferred_call: false,
                new_key: None,
            }),
    {
        let zeros = [0u8;32];
        assert(zeros@ =~= bytes::zeros(32));
        EcdsaP256SignatureSigner {
            client: None,
            client_key_set: None,
            ecc_handle: None,
            math_handle: None,
            hmac_handle: None,
            held: None,
            signing_key,
            hash_storage: None,
            signature_storage: None,
            key_val: zeros,
            k_val: zeros,
            v_val: zeros,
            r_val: zeros,
            s_val: zeros,
            t_val: zeros,
            input_counter: 0,
            output_counter: 0,
            key_counter: 0,
            state: State::Idle,
            current_operand: Operand::First,
            completion: None,
            deferred_call: false,
            new_key_buffer: None,
            operations: PhantomData,
            log: Ghost(Seq::empty()),
        }
    }

    /// Register the signer, under the number `client`, with the mutex of the HMAC driver.
    pub fn register_hmac(&mut self, hmac_mutex: &mut DriverMutex<H>, client: usize) -> (result:
        Result<(), ErrorCode>)
        requires
            old(self).valid(),
            old(hmac_mutex)@.wf(),
        ensures
            final(self).valid(),
            final(self).log() == old(self).log(),
            final(hmac_mutex)@.wf(),
            final(hmac_mutex).guarded() == old(hmac_mutex).guarded(),
            final(self)@ == (SignerView { hmac_handle: final(self)@.hmac_handle, ..old(self)@ }),
            driver_mutex::joined(
                old(self)@.hmac_handle,
                final(self)@.hmac_handle,
                old(hmac_mutex)@,
                final(hmac_mutex)@,
                client,
                result,
            ),
    {
        if self.hmac_handle.is_some() {
            return Err(ErrorCode::ALREADY);
        }
        match hmac_mutex.add_client(client) {
            Some(handle) => {
                self.hmac_handle = Some(handle);
                Ok(())
            },
            None => Err(ErrorCode::NOMEM),
        }
    }

    /// Register the signer, under the number `client`, with the mutex of the driver for points.
    pub fn register_ecc(&mut self, ecc_mutex: &mut DriverMutex<E>, client: usize) -> (result:
        Result<(), ErrorCode>)
        requires
            old(self).valid(),
            old(ecc_mutex)@.wf(),
        ensures
            final(self).valid(),
            final(self).log() == old(self).log(),
            final(ecc_mutex)@.wf(),
            final(ecc_mutex).guarded() == old(ecc_mutex).guarded(),
            final(self)@ == (SignerView { ecc_handle: final(self)@.ecc_handle, ..old(self)@ }),
            driver_mutex::joined(
                old(self)@.ecc_handle,
                final(self)@.ecc_handle,
                old(ecc_mutex)@,
                final(ecc_mutex)@,
                client,
                result,
            ),
    {
        if self.ecc_handle.is_some() {
            return Err(ErrorCode::ALREADY);
        }
        match ecc_mutex.add_client(client) {
            Some(handle) => {
                self.ecc_handle = Some(handle);
                Ok(())
            },
            None => Err(ErrorCode::NOMEM),
        }
    }

    /// Register the signer, under the number `client`, with the mutex of the driver for numbers.
    pub fn register_math(&mut self, math_mutex: &mut DriverMutex<M>, client: usize) -> (result:
        Result<(), ErrorCode>)
        requires
            old(self).valid(),
            old(math_mutex)@.wf(),
        ensures
            final(self).valid(),
            final(self).log() == old(self).log(),
            final(math_mutex)@.wf(),
            final(math_mutex).guarded() == old(math_mutex).guarded(),
            final(self)@ == (SignerView { math_handle: final(self)@.math_handle, ..old(self)@ }),
            driver_mutex::joined(
                old(self)@.math_handle,
                final(self)@.math_handle,
                old(math_mutex)@,
                final(math_mutex)@,
                client,
                result,
            ),
    {
        if self.math_handle.is_some() {
            return Err(ErrorCode::ALREADY);
        }
        match math_mutex.add_client(client) {
            Some(handle) => {
                self.math_handle = Some(handle);
                Ok(())
            },
            None => Err(ErrorCode::NOMEM),
        }
    }

    /// Returns whether the candidate nonce `t` is a valid `k`: nonzero
    /// and strictly less than the curve order `n` (RFC 6979 step 3.2.h,
    /// SEC1 nonce validity requirement). Every byte of `t` is always
    /// scanned and compared, and the running results are combined with
    /// bitwise operators rather than early-exiting `if`s, so the byte at
    /// which `t` and `n` first differ is not revealed through the
    /// control-flow/memory-access pattern of this function. See the
    /// module-level "Threat model note on timing" for what this does
    /// and does not protect against.
    fn check_t(&self) -> (valid: bool)
        ensures
            valid == is_valid_nonce(self@.t),
    {
        let t_less_than_n = is_less_than(&self.t_val, &NistP256Constants::n());
        let t_non_zero = is_non_zero(&self.t_val);
        t_less_than_n && t_non_zero
    }

    /// Returns whether `r` (the x-coordinate of `k*G`) is
    /// nonzero, i.e. an acceptable signature component per SEC1. See
    /// `check_t` for the constant-time-comparison rationale.
    fn check_r(&self) -> (valid: bool)
        ensures
            valid == (bytes::be_value(self@.r) != 0),
    {
        is_non_zero(&self.r_val)
    }

    /// Returns whether `s = k^-1 * (z + r*d) mod n` is nonzero, i.e. an
    /// acceptable signature component per SEC1. See `check_t` for the
    /// constant-time-comparison rationale.
    fn check_s(&self) -> (valid: bool)
        ensures
            valid == (bytes::be_value(self@.s) != 0),
    {
        is_non_zero(&self.s_val)
    }

    /// Nothing to be done.
    fn nothing() -> (step: Step<E, M, H>)
        ensures
            step@ == StepView::nothing(),
    {
        Step {
            refused: None,
            dropped: None,
            request: None,
            set_client: false,
            start: None,
            signed: None,
        }
    }

    fn wanted(&self, driver: Driver) -> (request: Option<(Driver, DriverMutexHandle)>)
        ensures
            request == self@.wanted(driver),
    {
        let handle = match driver {
            Driver::Ecc => self.ecc_handle,
            Driver::Math => self.math_handle,
            Driver::Hmac => self.hmac_handle,
        };
        match handle {
            Some(handle) => Some((driver, handle)),
            None => None,
        }
    }

    fn rewind(&mut self)
        requires
            old(self)@.wf(),
        ensures
            final(self)@.wf(),
            final(self).log() == old(self).log(),
            final(self)@ == old(self)@.rewound(),
    {
        self.input_counter = 0;
        self.output_counter = 0;
        self.key_counter = 0;
    }

    fn go_on(&mut self, state: State, start: Start) -> (step: Step<E, M, H>)
        requires
            old(self)@.wf(),
        ensures
            final(self)@.wf(),
            final(self).log() == old(self).log(),
            (final(self)@, step@) == old(self)@.going_on(state, start),
    {
        self.state = state;
        let mut step = Self::nothing();
        if self.held.is_some() {
            step.start = Some(start);
        }
        step
    }

    fn change(&mut self, state: State, driver: Driver) -> (step: Step<E, M, H>)
        requires
            old(self)@.wf(),
        ensures
            final(self)@.wf(),
            final(self).log() == old(self).log(),
            (final(self)@, step@) == old(self)@.changing(state, driver),
    {
        self.state = state;
        let mut step = Self::nothing();
        step.dropped = self.held.take();
        step.request = self.wanted(driver);
        step
    }

    fn complete_signature(&mut self, result: Result<(), ErrorCode>) -> (step: Step<E, M, H>)
        requires
            old(self)@.wf(),
        ensures
            final(self)@.wf(),
            final(self).log() == old(self).log(),
            (final(self)@, step@) == old(self)@.completed(result),
    {
        let ghost before = self@;
        self.state = State::Idle;
        let mut step = Self::nothing();
        step.dropped = self.held.take();
        if self.client.is_some() {
            let hash = self.hash_storage.take();
            let storage = self.signature_storage.take();
            if let (Some(hash), Some(_)) = (hash, storage) {
                let mut signature = [0u8;64];
                bytes::copy_into(&mut signature, 0, &self.r_val);
                bytes::copy_into(&mut signature, P_LEN, &self.s_val);
                assert(signature@ =~= before.r + before.s);
                step.signed = Some(Signed { result, hash, signature });
            }
        }
        let zeros = [0u8;32];
        assert(zeros@ =~= bytes::zeros(32));
        self.key_val = zeros;
        self.k_val = zeros;
        self.v_val = zeros;
        self.r_val = zeros;
        self.s_val = zeros;
        self.t_val = zeros;
        self.rewind();
        step
    }

    /// Acts on the end of an HMAC.
    fn act_on_hash(&mut self, result: Result<(), ErrorCode>) -> (step: Step<E, M, H>)
        requires
            old(self)@.wf(),
        ensures
            final(self)@.wf(),
            final(self).log() == old(self).log(),
            (final(self)@, step@) == old(self)@.after_hash(result),
    {
        self.rewind();
        if result.is_err() {
            return self.complete_signature(result);
        }
        match self.state {
            State::HmacDerivingK1 => self.go_on(
                State::HmacDerivingV1,
                Start::Authenticate(P_LEN),
            ),
            State::HmacDerivingV1 => self.go_on(
                State::HmacDerivingK2,
                Start::Authenticate(P_LEN + 1 + P_LEN * 2),
            ),
            State::HmacDerivingK2 => self.go_on(
                State::HmacDerivingV2,
                Start::Authenticate(P_LEN),
            ),
            State::HmacDerivingV2 => self.go_on(
                State::HmacGeneratingK,
                Start::Authenticate(P_LEN),
            ),
            State::HmacGeneratingK => {
                if self.check_t() {
                    let zeros = [0u8;32];
                    assert(zeros@ =~= bytes::zeros(32));
                    self.k_val = self.t_val;
                    self.t_val = zeros;
                    self.change(State::EccCalculatingR, Driver::Ecc)
                } else {
                    self.go_on(State::HmacGetNewK, Start::Authenticate(P_LEN + 1))
                }
            },
            State::HmacGetNewK => self.go_on(State::HmacDerivingV2, Start::Authenticate(P_LEN)),
            _ => self.complete_signature(Err(ErrorCode::FAIL)),
        }
    }

    /// Acts on the end of an operation on points.
    fn act_on_ecc(&mut self, result: Result<(), ErrorCode>) -> (step: Step<E, M, H>)
        requires
            old(self)@.wf(),
        ensures
            final(self)@.wf(),
            final(self).log() == old(self).log(),
            (final(self)@, step@) == old(self)@.after_ecc(result),
    {
        self.input_counter = 0;
        self.output_counter = 0;
        if result.is_err() {
            return self.complete_signature(result);
        }
        if !self.check_r() {
            return self.change(State::InvalidR, Driver::Hmac);
        }
        self.change(State::MathModR, Driver::Math)
    }

    /// Acts on the end of a modular operation.
    fn act_on_math(&mut self, result: Result<(), ErrorCode>) -> (step: Step<E, M, H>)
        requires
            old(self)@.wf(),
        ensures
            final(self)@.wf(),
            final(self).log() == old(self).log(),
            (final(self)@, step@) == old(self)@.after_math(result),
    {
        if result.is_err() {
            return self.complete_signature(result);
        }
        match self.state {
            State::ModHash => {
                self.rewind();
                self.change(State::HmacDerivingK1, Driver::Hmac)
            },
            State::MathModR => {
                self.rewind();
                self.current_operand = Operand::First;
                self.go_on(State::MathRDaMul, Start::Multiplication)
            },
            State::MathRDaMul => {
                self.rewind();
                self.current_operand = Operand::First;
                self.go_on(State::MathResHAdd, Start::Addition)
            },
            State::MathResHAdd => {
                self.rewind();
                self.current_operand = Operand::First;
                self.go_on(State::MathResKDiv, Start::Division)
            },
            State::MathResKDiv => {
                if !self.check_s() {
                    // s == 0: reject this nonce candidate and re-enter the
                    // RFC 6979 retry loop, same as the r == 0 case.
                    self.rewind();
                    self.change(State::HmacGetNewK, Driver::Hmac)
                } else {
                    self.complete_signature(result)
                }
            },
            _ => self.complete_signature(Err(ErrorCode::FAIL)),
        }
    }

    /// Acts on the end of the operation that a driver has reported, if one has.
    pub fn resume(&mut self) -> (step: Step<E, M, H>)
        requires
            old(self).valid(),
        ensures
            final(self).valid(),
            final(self).log() == old(self).log(),
            (final(self)@, step@) == old(self)@.resumed(),
    {
        let completion = match self.completion {
            Some(completion) => completion,
            None => {
                return Self::nothing();
            },
        };
        self.completion = None;
        match completion {
            Completion::Hash(result) => self.act_on_hash(result),
            Completion::Ecc(result) => self.act_on_ecc(result),
            Completion::Math(result) => self.act_on_math(result),
        }
    }

    /// Set the client that gets the signatures.
    pub fn set_sign_client(&mut self, client: usize)
        requires
            old(self).valid(),
        ensures
            final(self).valid(),
            final(self).log() == old(self).log(),
            final(self)@ == (SignerView { client: Some(client), ..old(self)@ }),
    {
        self.client = Some(client);
    }

    /// Begins to sign a hash. `BUSY` while the signer is at work; the buffers go back then.
    pub fn sign(&mut self, hash: [u8; 32], signature: [u8; 64]) -> (result: Result<
        Step<E, M, H>,
        (ErrorCode, [u8; 32], [u8; 64]),
    >)
        requires
            old(self).valid(),
        ensures
            final(self).valid(),
            final(self).log() == old(self).log(),
            result is Ok <==> old(self)@.state is Idle,
            result matches Ok(step) ==> (final(self)@, step@) == old(self)@.begun(
                hash@,
                signature@,
            ),
            result matches Err(refusal) ==> refusal == (ErrorCode::BUSY, hash, signature)
                && final(self)@ == old(self)@,
    {
        if self.state != State::Idle {
            return Err((ErrorCode::BUSY, hash, signature));
        }
        let ones = [1u8;32];
        let zeros = [0u8;32];
        assert(ones@ =~= Seq::new(32, |i: int| 1u8));
        assert(zeros@ =~= bytes::zeros(32));
        self.v_val = ones;
        self.key_val = zeros;
        self.rewind();
        self.hash_storage = Some(hash);
        self.signature_storage = Some(signature);
        let mut step = Self::nothing();
        if !is_less_than(&hash, &NistP256Constants::n()) {
            self.state = State::ModHash;
            step.request = self.wanted(Driver::Math);
        } else {
            self.state = State::HmacDerivingK1;
            step.request = self.wanted(Driver::Hmac);
        }
        Ok(step)
    }

    /// Begins to install another signing key. `BUSY` while the signer is at work; the key goes back
    /// then.
    pub fn set_key(&mut self, key: [u8; 32]) -> (result: Result<(), (ErrorCode, [u8; 32])>)
        requires
            old(self).valid(),
        ensures
            final(self).valid(),
            final(self).log() == old(self).log(),
            result is Ok <==> old(self)@.state is Idle,
            result is Ok ==> final(self)@ == (SignerView {
                state: State::ChangingKey,
                new_key: Some(key@),
                deferred_call: true,
                ..old(self)@
            }),
            result matches Err(refusal) ==> refusal == (ErrorCode::BUSY, key) && final(self)@
                == old(self)@,
    {
        if self.state != State::Idle {
            return Err((ErrorCode::BUSY, key));
        }
        self.state = State::ChangingKey;
        self.new_key_buffer = Some(key);
        self.deferred_call = true;
        Ok(())
    }

    /// Set the client that is told of a key that was installed.
    pub fn set_client(&mut self, client: usize)
        requires
            old(self).valid(),
        ensures
            final(self).valid(),
            final(self).log() == old(self).log(),
            final(self)@ == (SignerView { client_key_set: Some(client), ..old(self)@ }),
    {
        self.client_key_set = Some(client);
    }

    /// Handles a deferred call: installs the signing key. Returns the key's buffer for the client,
    /// if there is one.
    pub fn handle_deferred_call(&mut self) -> (installed: Option<[u8; 32]>)
        requires
            old(self).valid(),
        ensures
            final(self).valid(),
            final(self).log() == old(self).log(),
            ({
                let called = SignerView { deferred_call: false, ..old(self)@ };
                if old(self)@.state is ChangingKey {
                    &&& final(self)@ == (SignerView {
                        state: State::Idle,
                        signing_key: match old(self)@.new_key {
                            Some(key) => key,
                            None => called.signing_key,
                        },
                        new_key: None,
                        ..called
                    })
                    &&& match installed {
                        Some(key) => old(self)@.new_key == Some(key@) && old(
                            self,
                        )@.client_key_set is Some,
                        None => old(self)@.new_key is None || old(self)@.client_key_set is None,
                    }
                } else {
                    installed is None && final(self)@ == called
                }
            }),
    {
        self.deferred_call = false;
        if self.state != State::ChangingKey {
            return None;
        }
        let mut installed = None;
        if let Some(key) = self.new_key_buffer.take() {
            self.signing_key = key;
            if self.client_key_set.is_some() {
                installed = Some(key);
            }
        }
        self.state = State::Idle;
        installed
    }
}

impl<E, Op, M, H> EcdsaP256SignatureSigner<E, Op, M, H> {
    /// Lends the guard of the driver that works for the signer.
    pub fn lend_guard(&mut self) -> (guard: Option<Guard<E, M, H>>)
        requires
            old(self).valid(),
        ensures
            final(self).valid(),
            final(self).log() == old(self).log(),
            guard_view(guard) == old(self)@.held,
            final(self)@ == (SignerView { held: None, ..old(self)@ }),
    {
        self.held.take()
    }

    /// Takes the guard back that was lent.
    pub fn return_guard(&mut self, guard: Guard<E, M, H>)
        requires
            old(self).valid(),
        ensures
            final(self).valid(),
            final(self).log() == old(self).log(),
            final(self)@ == (SignerView { held: Some(guard@), ..old(self)@ }),
    {
        self.held = Some(guard);
    }
}

impl<E: Resource, Op, M: Resource, H: Resource> EcdsaP256SignatureSigner<E, Op, M, H> {
    /// Takes the guard of the driver that the signer waits for, and has the driver start. A guard
    /// that it replaces is to be dropped, and so is a guard that is not waited for, or of another
    /// driver.
    pub fn ready(&mut self, resource: DriverMutexAny) -> (step: Step<E, M, H>)
        requires
            old(self).valid(),
        ensures
            final(self).valid(),
            final(self).log() == old(self).log(),
            match old(self)@.awaited() {
                Some((driver, state, start)) => if resource.kind() == (match driver {
                    Driver::Ecc => E::kind(),
                    Driver::Math => M::kind(),
                    Driver::Hmac => H::kind(),
                }) {
                    &&& final(self)@ == (SignerView {
                        state,
                        held: Some((driver, resource.owner())),
                        operand: if state is MathRDaMul {
                            Operand::First
                        } else {
                            old(self)@.operand
                        },
                        ..old(self)@
                    })
                    &&& step@ == (StepView {
                        dropped: old(self)@.held,
                        set_client: true,
                        start: Some(start),
                        ..StepView::nothing()
                    })
                } else {
                    &&& final(self)@ == old(self)@
                    &&& step@ == (StepView { refused: Some(resource), ..StepView::nothing() })
                },
                None => {
                    &&& final(self)@ == old(self)@
                    &&& step@ == (StepView { refused: Some(resource), ..StepView::nothing() })
                },
            },
    {
        let mut step = Self::nothing();
        let (driver, state, start) = match self.state {
            State::ModHash => (Driver::Math, State::ModHash, Start::Modulo),
            State::HmacDerivingK1 => (
                Driver::Hmac,
                State::HmacDerivingK1,
                Start::Authenticate(P_LEN + 1 + P_LEN + P_LEN),
            ),
            State::InvalidR => (
                Driver::Hmac,
                State::HmacGetNewK,
                Start::Authenticate(P_LEN + 1),
            ),
            State::HmacGetNewK => (
                Driver::Hmac,
                State::HmacGetNewK,
                Start::Authenticate(P_LEN + 1),
            ),
            State::EccCalculatingR => (
                Driver::Ecc,
                State::EccCalculatingR,
                Start::ScalarMultiplication,
            ),
            State::MathModR => (Driver::Math, State::MathModR, Start::Modulo),
            State::MathRDaMul => (Driver::Math, State::MathRDaMul, Start::Multiplication),
            _ => {
                step.refused = Some(resource);
                return step;
            },
        };
        let guard: Result<Guard<E, M, H>, DriverMutexAny> = match driver {
            Driver::Ecc => match resource.downcast::<E>() {
                Ok(guard) => Ok(Guard::Ecc(guard)),
                Err(guard) => Err(guard),
            },
            Driver::Math => match resource.downcast::<M>() {
                Ok(guard) => Ok(Guard::Math(guard)),
                Err(guard) => Err(guard),
            },
            Driver::Hmac => match resource.downcast::<H>() {
                Ok(guard) => Ok(Guard::Hmac(guard)),
                Err(guard) => Err(guard),
            },
        };
        match guard {
            Err(resource) => {
                step.refused = Some(resource);
            },
            Ok(guard) => {
                step.dropped = self.held.take();
                self.held = Some(guard);
                self.state = state;
                if state == State::MathRDaMul {
                    self.current_operand = Operand::First;
                }
                step.set_client = true;
                step.start = Some(start);
            },
        }
        step
    }
}

impl<E, Op, M, H> Client for EcdsaP256SignatureSigner<E, Op, M, H> {
    fn read_input(&mut self, input: &mut [u8]) -> (count: Result<usize, ErrorCode>)
        ensures
            if old(self)@.derives() {
                let data = piece(
                    old(self)@.message(),
                    old(self)@.input_counter,
                    old(input)@.len(),
                );
                &&& count is Ok
                &&& count->Ok_0 == data.len()
                &&& final(input)@ == filled(old(input)@, data)
                &&& final(self)@ == (SignerView {
                    input_counter: old(self)@.input_counter + data.len(),
                    ..old(self)@
                })
            } else {
                &&& count == Err::<usize, ErrorCode>(ErrorCode::FAIL)
                &&& final(self)@ == old(self)@
            },
    {
        let index: usize = self.input_counter;
        let ghost before = self@;
        let count = match self.state {
            State::HmacDerivingK1 | State::HmacDerivingK2 => {
                match self.hash_storage {
                    Some(hash) => {
                        let mut combined = [0u8;97];
                        bytes::copy_into(&mut combined, 0, &self.v_val);
                        combined[P_LEN] = if self.state == State::HmacDerivingK1 {
                            0
                        } else {
                            1
                        };
                        bytes::copy_into(&mut combined, P_LEN + 1, &self.signing_key);
                        bytes::copy_into(&mut combined, P_LEN * 2 + 1, &hash);
                        assert(combined@ =~= before.message());
                        Ok(read_var_to_buf(&combined, index, input))
                    },
                    None => {
                        assert(filled(input@, Seq::empty()) =~= input@);
                        assert(piece(before.message(), before.input_counter, input@.len())
                            =~= Seq::<u8>::empty());
                        Ok(0)
                    },
                }
            },
            State::HmacDerivingV1 | State::HmacDerivingV2 | State::HmacGeneratingK => Ok(
                read_var_to_buf(&self.v_val, index, input),
            ),
            State::HmacGetNewK => {
                let mut combined = [0u8;33];
                bytes::copy_into(&mut combined, 0, &self.v_val);
                assert(combined@ =~= before.message());
                Ok(read_var_to_buf(&combined, index, input))
            },
            _ => Err(ErrorCode::FAIL),
        };
        if let Ok(counter) = count {
            self.input_counter = index + counter;
        }
        proof {
            self.log@ = self.log@.push(
                Call::Read {
                    port: Port::Input,
                    offered: old(input)@,
                    buffer: input@,
                    count,
                },
            );
        }
        count
    }

    fn write_output(&mut self, output: &[u8]) -> (result: Result<(), ErrorCode>)
        ensures
            final(self)@ == old(self)@.hmac_output(output@),
            result is Ok <==> old(self)@.derives(),
            result matches Err(error) ==> error == ErrorCode::FAIL,
    {
        let index: usize = self.output_counter;
        let result = match self.state {
            State::HmacDerivingK1 | State::HmacDerivingK2 | State::HmacGetNewK => {
                let counter: usize = update_var_from_buf(&mut self.key_val, index, output);
                self.output_counter = index + counter;
                Ok(())
            },
            State::HmacDerivingV1 | State::HmacDerivingV2 => {
                let counter: usize = update_var_from_buf(&mut self.v_val, index, output);
                self.output_counter = index + counter;
                Ok(())
            },
            State::HmacGeneratingK => {
                let counter: usize = update_var_from_buf(&mut self.t_val, index, output);
                update_var_from_buf(&mut self.v_val, index, output);
                self.output_counter = index + counter;
                Ok(())
            },
            _ => Err(ErrorCode::FAIL),
        };
        proof {
            self.log@ = self.log@.push(
                Call::Write { port: Port::Output, data: output@, result },
            );
        }
        result
    }

    fn hash_done(&mut self, result: Result<(), ErrorCode>)
        ensures
            final(self)@ == (SignerView {
                completion: Some(Completion::Hash(result)),
                ..old(self)@
            }),
    {
        self.completion = Some(Completion::Hash(result));
        proof {
            self.log@ = self.log@.push(Call::Done { result });
        }
    }
}

impl<E, Op, M, H> HmacClient for EcdsaP256SignatureSigner<E, Op, M, H> {
    /// `K` is the HMAC key throughout the whole RFC 6979 derivation, so there is no single state to
    /// guard against; the key is refused in the states in which it is not meaningful. After its last
    /// byte it can be read anew.
    fn read_key(&mut self, key: &mut [u8]) -> (count: Result<usize, ErrorCode>)
        ensures
            if old(self)@.state is Idle || old(self)@.state is ChangingKey {
                &&& count == Err::<usize, ErrorCode>(ErrorCode::FAIL)
                &&& final(self)@ == old(self)@
            } else {
                let data = piece(old(self)@.key, old(self)@.key_counter, old(key)@.len());
                let next = old(self)@.key_counter + data.len();
                &&& count is Ok
                &&& count->Ok_0 == data.len()
                &&& final(key)@ == filled(old(key)@, data)
                &&& final(self)@ == (SignerView {
                    key_counter: if next == 32 {
                        0
                    } else {
                        next
                    },
                    ..old(self)@
                })
            },
    {
        let count = if self.state == State::Idle || self.state == State::ChangingKey {
            Err(ErrorCode::FAIL)
        } else {
            let index: usize = self.key_counter;
            let counter: usize = read_var_to_buf(&self.key_val, index, key);
            self.key_counter = if index + counter == P_LEN {
                0
            } else {
                index + counter
            };
            Ok(counter)
        };
        proof {
            self.log@ = self.log@.push(
                Call::Read {
                    port: Port::Key,
                    offered: old(key)@,
                    buffer: key@,
                    count,
                },
            );
        }
        count
    }
}

impl<E, Op, M, H> EccClient for EcdsaP256SignatureSigner<E, Op, M, H> {
    open spec fn answers(&self, call: Call, later: &Self) -> bool {
        later@ == self@.at_progress_of(later@)
    }

    fn read_scalar(&mut self, scalar: &mut [u8]) -> (result: Result<(), ErrorCode>)
        ensures
            if old(self)@.state is EccCalculatingR {
                let data = piece(old(self)@.k, old(self)@.input_counter, old(scalar)@.len());
                &&& result is Ok
                &&& final(scalar)@ == filled(old(scalar)@, data)
                &&& final(self)@ == (SignerView {
                    input_counter: old(self)@.input_counter + data.len(),
                    ..old(self)@
                })
            } else {
                &&& result == Err::<(), ErrorCode>(ErrorCode::FAIL)
                &&& final(self)@ == old(self)@
            },
    {
        let result = if self.state == State::EccCalculatingR {
            let index: usize = self.input_counter;
            let counter: usize = read_var_to_buf(&self.k_val, index, scalar);
            self.input_counter = index + counter;
            Ok(())
        } else {
            Err(ErrorCode::FAIL)
        };
        proof {
            self.log@ = self.log@.push(
                Call::Fill { port: Port::Scalar, offered: old(scalar)@, buffer: scalar@, result },
            );
        }
        result
    }

    fn read_point(&mut self, point: &mut [u8]) -> (result: Result<(), ErrorCode>)
        ensures
            result == Err::<(), ErrorCode>(ErrorCode::INVAL),
            final(self)@ == old(self)@,
    {
        let result = Err(ErrorCode::INVAL);
        proof {
            self.log@ = self.log@.push(
                Call::Fill {
                    port: Port::Point,
                    offered: old(point)@,
                    buffer: point@,
                    result,
                },
            );
        }
        result
    }

    fn read_second_point(&mut self, point: &mut [u8]) -> (result: Result<(), ErrorCode>)
        ensures
            result == Err::<(), ErrorCode>(ErrorCode::INVAL),
            final(self)@ == old(self)@,
    {
        let result = Err(ErrorCode::INVAL);
        proof {
            self.log@ = self.log@.push(
                Call::Fill {
                    port: Port::SecondPoint,
                    offered: old(point)@,
                    buffer: point@,
                    result,
                },
            );
        }
        result
    }

    fn write_point(&mut self, point: &[u8]) -> (result: Result<(), ErrorCode>)
        ensures
            if old(self)@.state is EccCalculatingR {
                let offset = old(self)@.output_counter;
                &&& result is Ok
                &&& final(self)@ == (SignerView {
                    r: updated(old(self)@.r, offset, point@),
                    output_counter: offset + bytes::least(point@.len(), (32 - offset) as nat),
                    ..old(self)@
                })
            } else {
                &&& result == Err::<(), ErrorCode>(ErrorCode::FAIL)
                &&& final(self)@ == old(self)@
            },
    {
        let result = if self.state == State::EccCalculatingR {
            let index: usize = self.output_counter;
            let counter: usize = update_var_from_buf(&mut self.r_val, index, point);
            self.output_counter = index + counter;
            Ok(())
        } else {
            Err(ErrorCode::FAIL)
        };
        proof {
            self.log@ = self.log@.push(
                Call::Write { port: Port::Point, data: point@, result },
            );
        }
        result
    }

    fn operation_done(&mut self, result: Result<(), ErrorCode>)
        ensures
            final(self)@ == (SignerView {
                completion: Some(Completion::Ecc(result)),
                ..old(self)@
            }),
    {
        self.completion = Some(Completion::Ecc(result));
        proof {
            self.log@ = self.log@.push(Call::Done { result });
        }
    }
}

impl<E, Op, M, H> MathClient<Op> for EcdsaP256SignatureSigner<E, Op, M, H> {
    open spec fn replies(&self, call: Call, later: &Self) -> bool {
        later@ == self@.at_progress_of(later@)
    }

    /// The order of the curve, from where the last read ended. `SIZE` if not so much of it is left.
    fn read_modulus(&mut self, modulus: &mut [u8]) -> (result: Result<(), ErrorCode>)
        ensures
            if old(self)@.key_counter + old(modulus)@.len() <= 32 {
                let end = old(self)@.key_counter + old(modulus)@.len();
                &&& result is Ok
                &&& final(modulus)@ == ecc_constants::n().subrange(
                    old(self)@.key_counter as int,
                    end as int,
                )
                &&& final(self)@ == (SignerView { key_counter: end, ..old(self)@ })
            } else {
                &&& result == Err::<(), ErrorCode>(ErrorCode::SIZE)
                &&& final(self)@ == old(self)@
            },
    {
        let index: usize = self.key_counter;
        let len: usize = modulus.len();
        let result = if len <= P_LEN - index {
            let order = NistP256Constants::n();
            let part: &[u8] = vstd::slice::slice_subrange(&order, index, index + len);
            bytes::copy_into(modulus, 0, part);
            assert(modulus@ =~= part@);
            self.key_counter = index + len;
            Ok(())
        } else {
            Err(ErrorCode::SIZE)
        };
        proof {
            self.log@ = self.log@.push(
                Call::Fill {
                    port: Port::Modulus,
                    offered: old(modulus)@,
                    buffer: modulus@,
                    result,
                },
            );
        }
        result
    }

    fn read_number(&mut self, num: &mut [u8])
        ensures
            match old(self)@.number() {
                Some(number) => {
                    let data = piece(number, old(self)@.input_counter, old(num)@.len());
                    &&& final(num)@ == filled(old(num)@, data)
                    &&& final(self)@ == old(self)@.number_taken(data.len())
                },
                None => final(num)@ == old(num)@ && final(self)@ == old(self)@,
            },
    {
        let ghost before = self@;
        let index: usize = self.input_counter;
        let number: Option<[u8; 32]> = match self.state {
            State::ModHash => self.hash_storage,
            State::MathModR => Some(self.r_val),
            State::MathRDaMul => match self.current_operand {
                Operand::First => Some(self.r_val),
                Operand::Second => Some(self.signing_key),
            },
            State::MathResHAdd => match self.current_operand {
                Operand::First => Some(self.s_val),
                Operand::Second => self.hash_storage,
            },
            State::MathResKDiv => match self.current_operand {
                Operand::First => Some(self.s_val),
                Operand::Second => Some(self.k_val),
            },
            _ => None,
        };
        if let Some(number) = number {
            assert(before.number() == Some(number@));
            let counter: usize = read_var_to_buf(&number, index, num);
            if index + counter < P_LEN {
                self.input_counter = index + counter;
            } else {
                self.input_counter = 0;
                match self.state {
                    State::MathRDaMul | State::MathResHAdd | State::MathResKDiv => {
                        self.current_operand = Operand::Second;
                    },
                    _ => {},
                }
            }
        }
        proof {
            self.log@ = self.log@.push(
                Call::Fill { port: Port::Number, offered: old(num)@, buffer: num@, result: Ok(()) },
            );
        }
    }

    fn write_number(&mut self, num: &[u8]) -> (result: Result<(), ErrorCode>)
        ensures
            result is Ok,
            final(self)@ == old(self)@.number_output(num@),
    {
        let index: usize = self.output_counter;
        match self.state {
            State::ModHash => {
                let mut counter: usize = P_LEN - index;
                if num.len() < counter {
                    counter = num.len();
                }
                if let Some(hash) = self.hash_storage {
                    let mut hash = hash;
                    update_var_from_buf(&mut hash, index, num);
                    self.hash_storage = Some(hash);
                }
                self.output_counter = index + counter;
            },
            State::MathModR => {
                let counter: usize = update_var_from_buf(&mut self.r_val, index, num);
                self.output_counter = index + counter;
            },
            State::MathRDaMul | State::MathResHAdd | State::MathResKDiv => {
                let counter: usize = update_var_from_buf(&mut self.s_val, index, num);
                self.output_counter = index + counter;
            },
            _ => {},
        }
        let result = Ok(());
        proof {
            self.log@ = self.log@.push(
                Call::Write { port: Port::Number, data: num@, result },
            );
        }
        result
    }

    fn computation_completed(&mut self, result: Result<(), ErrorCode>)
        ensures
            final(self)@ == (SignerView {
                completion: Some(Completion::Math(result)),
                ..old(self)@
            }),
    {
        self.completion = Some(Completion::Math(result));
        proof {
            self.log@ = self.log@.push(Call::Done { result });
        }
    }
}

} // verus!
