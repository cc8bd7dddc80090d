//! Syscall driver for HMAC-based Extract-and-Expand Key Derivation Function (HKDF).
//!
//! # Algorithm
//!
//! HKDF is specified in [IETF RFC 5869], section 2.
//!
//! ## Step 1: Extract (section 2.2)
//!
//! HKDF-Extract(salt, IKM) -> PRK
//!    Options:
//!       - Hash = a hash function; HashLen denotes the length of the hash function output in octets
//!
//!    Inputs:
//!       - salt = optional salt value (a non-secret random value); if not provided, it is set to a string of HashLen zeros.
//!       - IKM = input keying material
//!    Output:
//!       - PRK = a pseudorandom key (of HashLen octets)
//!
//!    The output PRK is calculated as follows:
//!    PRK = HMAC-Hash(salt, IKM)
//!
//! ## Step 2: Expand (section 2.3)
//!
//! HKDF-Expand(PRK, info, L) -> OKM
//!
//!    Inputs:
//!       - PRK = a pseudorandom key of at least HashLen octets (usually, the output from the extract step)
//!       - info = optional context and application specific information (can be a zero-length string)
//!       - L = length of output keying material in octets (<= 255*HashLen)
//!
//!    Output:
//!      - OKM = output keying material (of L octets)
//!
//!      The output OKM is calculated as follows:
//!
//!      N = ceil(L/HashLen)
//!      T = T(1) | T(2) | T(3) | ... | T(N)
//!      OKM = first L octets of T
//!
//!      where:
//!          - T(0) = empty string (zero length)
//!          - T(1) = HMAC-Hash(PRK, T(0) | info | 0x01)
//!          - T(2) = HMAC-Hash(PRK, T(1) | info | 0x02)
//!          - T(3) = HMAC-Hash(PRK, T(2) | info | 0x03)
//!           ...
//!
//!          (where the constant concatenated to the end of each T(n) is a
//!           single octet.)
//!
//! [IETF RFC 5869]: https://www.rfc-editor.org/info/rfc5869/
//!
//! # System call interface
//!
//! ## `subscribe_num`
//!
//! - `0`: operation completion. Callback arguments are `(status, 0, 0)`.
//!
//! ## Read-only allow buffers
//!
//! - `0`: salt
//! - `1`: input keying material (IKM)
//! - `2`: info
//!
//! ## Read-write allow buffers
//!
//! - `0`: pseudorandom key (PRK)
//! - `1`: output keying material (OKM)
//!
//! ## Commands
//!
//! - `0`: existence check
//! - `1`: perform an HKDF operation. `data1` is the algorithm. `data2` is the size of salt.
//!
//! Mode values are `0 = Md5`, `1 = Sha1`, `2 = Sha224`, `3 = Sha256`, `4 = Sha384`, `5 = Sha512`, `6 = Sha512-224`, and `7 = Sha512-256`.
use crate::capsules::hash;
use crate::driver_mutex::{
    DriverMutex, DriverMutexAny, DriverMutexHandle, DriverMutexRef, MutexView, Resource,
};
use crate::error::ErrorCode;
use crate::grant;
use crate::grant::{Grant, GrantView, Upcall};
use crate::hil::digest::{Algorithm, Client, Hmac, HmacClient};
use crate::hil::trace::{Call, Observed, Port};
use crate::sw::bytes;
use vstd::prelude::*;

verus! {

/// The upcall at the end of an operation.
pub const UPCALL_DONE: usize = 0;

/// Optional salt value
pub const RO_SALT: usize = 0;

/// Input Keying Material
pub const RO_IKM: usize = 1;

/// Info
pub const RO_INFO: usize = 2;

/// Pseudorandom key
pub const RW_PRK: usize = 0;

/// Output Keying Material
///
/// Used both for T and OKM
pub const RW_OKM: usize = 1;

/// What the driver is doing, and for which process.
#[derive(Clone, Copy, Debug, PartialEq, Eq, Structural)]
pub enum State {
    Idle,
    Waiting { processid: usize, algorithm: Algorithm },
    Active { processid: usize, algorithm: Algorithm, stage: Stage },
}

/// The step of the derivation. T(`iteration`) goes to OKM from `start` on.
#[derive(Clone, Copy, Debug, PartialEq, Eq, Structural)]
pub enum Stage {
    Extract,
    Expand { iteration: usize, start: usize },
}

/// Whether the process gives a salt.
#[derive(Clone, Copy, Debug, PartialEq, Eq, Structural)]
pub enum SaltStatus {
    NotPresent,
    Present,
}

/// Which of the two uses of its key an HMAC comes to.
#[derive(Clone, Copy, Debug, PartialEq, Eq, Structural)]
pub enum KeyState {
    InnerKey,
    OuterKey,
}

impl KeyState {
    /// The use that follows.
    pub fn update(self) -> (next: Option<Self>)
        ensures
            next == (match self {
                KeyState::InnerKey => Some(KeyState::OuterKey),
                KeyState::OuterKey => None,
            }),
    {
        match self {
            KeyState::InnerKey => Some(KeyState::OuterKey),
            KeyState::OuterKey => None,
        }
    }
}

pub fn parse_algorithm(value: usize) -> (algorithm: Result<Algorithm, ErrorCode>)
    ensures
        algorithm == hash::algorithm_of(value),
{
    hash::parse_mode(value)
}

/// The lengths that a derivation works with.
#[derive(Clone, Copy, Debug, PartialEq, Eq, Structural)]
pub struct Lengths {
    pub salt: usize,
    pub ikm: usize,
    pub prk: usize,
    pub info: usize,
    pub okm: usize,
}

/// How far the parties have come.
#[derive(Clone, Copy, Debug, PartialEq, Eq, Structural)]
pub struct Offsets {
    pub salt: usize,
    pub ikm: usize,
    pub prk: usize,
    /// In T(n - 1) | info | n.
    pub message: usize,
    pub okm: usize,
}

/// Userspace driver for HKDF over a mutexed HMAC driver.
pub struct Hkdf<H> {
    id: usize,
    hmac_handle: Option<DriverMutexHandle>,
    hmac: Option<DriverMutexRef<H>>,
    apps: Grant,
    state: State,
    key_state: Option<KeyState>,
    salt_status: SaltStatus,
    num_of_iterations: usize,
    lengths: Lengths,
    offsets: Offsets,
    completion: Option<Result<(), ErrorCode>>,
    log: Ghost<Seq<Call>>,
}

/// What the driver is.
#[verifier::ext_equal]
pub struct HkdfView {
    /// The number by which the mutex and the HMAC driver know this driver.
    pub id: usize,
    pub handle: Option<DriverMutexHandle>,
    /// The mutex whose guard is held.
    pub held: Option<usize>,
    pub apps: GrantView,
    pub state: State,
    pub key_state: Option<KeyState>,
    pub salt_status: SaltStatus,
    pub num_of_iterations: usize,
    pub lengths: Lengths,
    pub offsets: Offsets,
    /// How the HMAC driver says a digest ended, until this driver has acted on it.
    pub completion: Option<Result<(), ErrorCode>>,
}

impl<H> View for Hkdf<H> {
    type V = HkdfView;

    closed spec fn view(&self) -> HkdfView {
        HkdfView {
            id: self.id,
            handle: self.hmac_handle,
            held: match self.hmac {
                Some(guard) => Some(guard.owner()),
                None => None,
            },
            apps: self.apps@,
            state: self.state,
            key_state: self.key_state,
            salt_status: self.salt_status,
            num_of_iterations: self.num_of_iterations,
            lengths: self.lengths,
            offsets: self.offsets,
            completion: self.completion,
        }
    }
}

/// How many digests OKM is made of at most.
pub const MAX_ITERATIONS: usize = 255;

/// How many digests of `hash_len` bytes make up `len` bytes.
pub open spec fn iterations(len: nat, hash_len: nat) -> nat
    recommends
        hash_len > 0,
{
    if len % hash_len == 0 {
        len / hash_len
    } else {
        len / hash_len + 1
    }
}

impl HkdfView {
    /// A driver that is idle and not registered yet.
    pub open spec fn fresh(id: usize, apps: GrantView) -> HkdfView {
        HkdfView {
            id,
            handle: None,
            held: None,
            apps,
            state: State::Idle,
            key_state: None,
            salt_status: SaltStatus::Present,
            num_of_iterations: 0,
            lengths: Lengths { salt: 0, ikm: 0, prk: 0, info: 0, okm: 0 },
            offsets: Offsets { salt: 0, ikm: 0, prk: 0, message: 0, okm: 0 },
            completion: None,
        }
    }

    /// The invariant: offsets lie within what they are offsets of, and T(n) starts where T(n - 1)
    /// ends.
    pub open spec fn wf(self) -> bool {
        &&& self.offsets.salt <= self.lengths.salt
        &&& self.offsets.prk <= self.lengths.prk
        &&& self.offsets.okm <= self.lengths.okm
        &&& !(self.state is Idle) ==> {
            &&& self.lengths.prk > 0
            &&& self.num_of_iterations == iterations(
                self.lengths.okm as nat,
                self.lengths.prk as nat,
            )
            &&& self.num_of_iterations <= MAX_ITERATIONS
        }
        &&& self.state matches State::Active {
            stage: Stage::Expand { iteration, start },
            ..
        } ==> {
            &&& 0 < iteration <= self.num_of_iterations
            &&& start == (iteration - 1) * self.lengths.prk
            &&& self.message_fits()
        }
    }

    /// T(n - 1) | info | n has a length that can be told.
    pub open spec fn message_fits(self) -> bool {
        self.lengths.prk + self.lengths.info + 1 <= usize::MAX
    }

    /// A guard that is held is one that `mutex` has given out.
    pub open spec fn linked(self, mutex: MutexView) -> bool {
        self.held matches Some(owner) ==> owner == mutex.id && mutex.guards() > 0
    }

    /// The process that the driver works for; `RESERVE` if there is none.
    pub open spec fn processid(self) -> Result<usize, ErrorCode> {
        match self.state {
            State::Active { processid, .. } => Ok(processid),
            _ => Err(ErrorCode::RESERVE),
        }
    }

    /// The step of the derivation.
    pub open spec fn stage(self) -> Stage {
        self.state->stage
    }

    /// A buffer of the process, to be read.
    pub open spec fn source(self, number: usize) -> Result<Seq<u8>, ErrorCode> {
        match self.processid() {
            Err(error) => Err(error),
            Ok(processid) => self.apps.source(processid, number),
        }
    }

    /// A buffer of the process, to be written.
    pub open spec fn sink(self, number: usize) -> Result<Seq<u8>, ErrorCode> {
        match self.processid() {
            Err(error) => Err(error),
            Ok(processid) => self.apps.sink(processid, number),
        }
    }

    /// Length of T(n - 1): T(0) is empty.
    pub open spec fn t_len(self) -> nat {
        match self.stage() {
            Stage::Expand { iteration, .. } => if iteration > 1 {
                self.lengths.prk as nat
            } else {
                0
            },
            Stage::Extract => 0,
        }
    }

    /// Length of T(n - 1) | info | n.
    pub open spec fn message_len(self) -> nat {
        self.t_len() + self.lengths.info as nat + 1
    }

    /// What the part of T(n - 1) | info | n that holds the byte at `offset` has from there on, at
    /// most `len` bytes.
    pub open spec fn message_part(self, offset: nat, len: nat) -> Result<Seq<u8>, ErrorCode> {
        let t_len = self.t_len();
        let info_len = self.lengths.info as nat;
        match self.stage() {
            Stage::Expand { iteration, start } => if offset < t_len {
                grant::part_of(
                    self.sink(RW_OKM),
                    (start - t_len + offset) as nat,
                    bytes::least((t_len - offset) as nat, len),
                )
            } else if offset < t_len + info_len {
                grant::part_of(
                    self.source(RO_INFO),
                    (offset - t_len) as nat,
                    bytes::least((t_len + info_len - offset) as nat, len),
                )
            } else {
                Ok(seq![iteration as u8])
            },
            Stage::Extract => Err(ErrorCode::FAIL),
        }
    }

    /// T(n - 1) | info | n: at most `len` bytes of it from `offset` on.
    pub open spec fn message(self, offset: nat, len: nat) -> Result<Seq<u8>, ErrorCode>
        decreases len,
    {
        if len == 0 || offset >= self.message_len() {
            Ok(Seq::empty())
        } else {
            match self.message_part(offset, len) {
                Err(error) => Err(error),
                Ok(data) => if 0 < data.len() <= len {
                    match self.message(offset + data.len(), (len - data.len()) as nat) {
                        Err(error) => Err(error),
                        Ok(rest) => Ok(data + rest),
                    }
                } else {
                    Err(ErrorCode::SIZE)
                },
            }
        }
    }

    /// What a request for `len` bytes of input delivers.
    pub open spec fn input(self, len: nat) -> Result<Seq<u8>, ErrorCode> {
        match self.state {
            State::Active { stage: Stage::Extract, .. } => grant::part_of(
                self.source(RO_IKM),
                self.offsets.ikm as nat,
                len,
            ),
            State::Active { stage: Stage::Expand { .. }, .. } => match self.message(
                self.offsets.message as nat,
                len,
            ) {
                Err(error) => Err(error),
                Ok(data) => if data.len() == 0 {
                    Err(ErrorCode::SIZE)
                } else {
                    Ok(data)
                },
            },
            _ => Err(ErrorCode::RESERVE),
        }
    }

    /// The driver after `count` bytes of input were delivered.
    pub open spec fn input_taken(self, count: nat) -> HkdfView {
        HkdfView {
            offsets: match self.stage() {
                Stage::Extract => Offsets {
                    ikm: (self.offsets.ikm + count) as usize,
                    ..self.offsets
                },
                Stage::Expand { .. } => Offsets {
                    message: (self.offsets.message + count) as usize,
                    ..self.offsets
                },
            },
            ..self
        }
    }

    /// What a request for `len` bytes of the key delivers: the salt, or zeros in its place, to
    /// extract; PRK to expand.
    pub open spec fn key(self, len: nat) -> Result<Seq<u8>, ErrorCode> {
        match self.state {
            State::Active { stage, .. } => if self.key_state is None {
                Err(ErrorCode::ALREADY)
            } else {
                match stage {
                    Stage::Extract => {
                        let left = (self.lengths.salt - self.offsets.salt) as nat;
                        match self.salt_status {
                            SaltStatus::NotPresent => Ok(bytes::zeros(bytes::least(left, len))),
                            SaltStatus::Present => grant::part_of(
                                self.source(RO_SALT),
                                self.offsets.salt as nat,
                                bytes::least(left, len),
                            ),
                        }
                    },
                    Stage::Expand { .. } => grant::part_of(
                        self.sink(RW_PRK),
                        self.offsets.prk as nat,
                        bytes::least((self.lengths.prk - self.offsets.prk) as nat, len),
                    ),
                }
            },
            _ => Err(ErrorCode::RESERVE),
        }
    }

    /// The driver after `count` bytes of the key were delivered: the next request after the last
    /// byte begins anew.
    pub open spec fn key_taken(self, count: nat) -> HkdfView {
        HkdfView {
            offsets: match self.stage() {
                Stage::Extract => Offsets {
                    salt: if self.offsets.salt + count == self.lengths.salt {
                        0
                    } else {
                        (self.offsets.salt + count) as usize
                    },
                    ..self.offsets
                },
                Stage::Expand { .. } => Offsets {
                    prk: if self.offsets.prk + count == self.lengths.prk {
                        0
                    } else {
                        (self.offsets.prk + count) as usize
                    },
                    ..self.offsets
                },
            },
            ..self
        }
    }

    /// The part of a piece of T(n) that OKM has room for.
    pub open spec fn okm_piece(self, data: Seq<u8>) -> Seq<u8> {
        data.take(
            bytes::least((self.lengths.okm - self.offsets.okm) as nat, data.len()) as int,
        )
    }

    /// The driver after a piece of a digest came, and what comes of it: it goes to PRK, or to OKM as
    /// far as that reaches.
    pub open spec fn output(self, data: Seq<u8>) -> (HkdfView, Result<(), ErrorCode>) {
        match self.state {
            State::Active { processid, stage: Stage::Extract, .. } => {
                let offset = self.offsets.prk as nat;
                let room = grant::room_for(self.sink(RW_PRK), offset, data.len());
                let end = offset + data.len();
                if room is Err {
                    (self, room)
                } else if end > self.lengths.prk {
                    (self, Err(ErrorCode::SIZE))
                } else {
                    (
                        HkdfView {
                            apps: self.apps.written(processid, RW_PRK, offset, data),
                            offsets: Offsets { prk: end as usize, ..self.offsets },
                            ..self
                        },
                        Ok(()),
                    )
                }
            },
            State::Active { processid, stage: Stage::Expand { .. }, .. } => {
                let offset = self.offsets.okm as nat;
                let piece = self.okm_piece(data);
                let room = grant::room_for(self.sink(RW_OKM), offset, piece.len());
                if self.offsets.okm >= self.lengths.okm {
                    (self, Ok(()))
                } else if room is Err {
                    (self, room)
                } else {
                    (
                        HkdfView {
                            apps: self.apps.written(processid, RW_OKM, offset, piece),
                            offsets: Offsets {
                                okm: (offset + piece.len()) as usize,
                                ..self.offsets
                            },
                            ..self
                        },
                        Ok(()),
                    )
                }
            },
            _ => (self, Err(ErrorCode::RESERVE)),
        }
    }

    /// The driver after its operation has ended: the process that it worked for, if there is one, is
    /// told the status.
    pub open spec fn finished(self, result: Result<(), ErrorCode>) -> HkdfView {
        let ended = HkdfView { state: State::Idle, held: None, ..self };
        let upcall = Upcall { number: UPCALL_DONE, status: result, arg1: 0, arg2: 0 };
        match self.state {
            State::Idle => ended,
            State::Waiting { processid, .. } => HkdfView {
                apps: self.apps.scheduled(processid, upcall),
                ..ended
            },
            State::Active { processid, .. } => HkdfView {
                apps: self.apps.scheduled(processid, upcall),
                ..ended
            },
        }
    }

    /// The lengths of a derivation, or what is wrong with the buffers. A salt of no bytes is one of
    /// HashLen zeros. OKM has at most 255 times HashLen bytes: the number of each T is one octet.
    pub open spec fn checked_lengths(
        self,
        processid: usize,
        algorithm: Algorithm,
        salt_len: usize,
    ) -> Result<Lengths, ErrorCode> {
        match (
            grant::len_of(self.apps.readonly(processid, RO_SALT)),
            grant::len_of(self.apps.readonly(processid, RO_IKM)),
            grant::len_of(self.apps.readwrite(processid, RW_PRK)),
            grant::len_of(self.apps.readonly(processid, RO_INFO)),
            grant::len_of(self.apps.readwrite(processid, RW_OKM)),
        ) {
            (Err(error), _, _, _, _) => Err(error),
            (Ok(salt), ikm, prk, info, okm) => if salt_len > algorithm.block_size() || salt_len
                > salt {
                Err(ErrorCode::INVAL)
            } else {
                match (ikm, prk) {
                    (Err(error), _) => Err(error),
                    (_, Err(error)) => Err(error),
                    (Ok(ikm), Ok(prk)) => if prk != algorithm.digest_len() {
                        Err(ErrorCode::INVAL)
                    } else {
                        match (info, okm) {
                            (Err(error), _) => Err(error),
                            (_, Err(error)) => Err(error),
                            (Ok(info), Ok(okm)) => if okm > MAX_ITERATIONS * prk {
                                Err(ErrorCode::INVAL)
                            } else {
                                Ok(
                                    Lengths {
                                        salt: if salt_len == 0 {
                                            prk
                                        } else {
                                            salt_len
                                        },
                                        ikm,
                                        prk,
                                        info,
                                        okm,
                                    },
                                )
                            },
                        }
                    },
                }
            },
        }
    }

    /// What a request of a process comes back with.
    pub open spec fn start_result(
        self,
        processid: usize,
        algo_value: usize,
        salt_len: usize,
        mutex: MutexView,
    ) -> Result<(), ErrorCode> {
        if !(self.state is Idle) {
            Err(ErrorCode::BUSY)
        } else if self.handle is None {
            Err(ErrorCode::OFF)
        } else {
            match hash::algorithm_of(algo_value) {
                Err(error) => Err(error),
                Ok(algorithm) => match self.checked_lengths(processid, algorithm, salt_len) {
                    Err(error) => Err(error),
                    Ok(_) => mutex.request_result(self.handle->0),
                },
            }
        }
    }

    /// The driver with a derivation of a process begun.
    pub open spec fn begun(
        self,
        processid: usize,
        algorithm: Algorithm,
        salt_len: usize,
    ) -> HkdfView {
        let lengths = self.checked_lengths(processid, algorithm, salt_len)->Ok_0;
        HkdfView {
            lengths,
            offsets: Offsets { salt: 0, ikm: 0, prk: 0, message: 0, okm: 0 },
            num_of_iterations: iterations(lengths.okm as nat, lengths.prk as nat) as usize,
            key_state: Some(KeyState::InnerKey),
            salt_status: if salt_len == 0 {
                SaltStatus::NotPresent
            } else {
                SaltStatus::Present
            },
            state: State::Waiting { processid, algorithm },
            ..self
        }
    }

    /// The driver after it has refused a request of a process: what belongs to a derivation is that
    /// of the request once its buffers were found right, and nothing else changes.
    pub open spec fn refused(
        self,
        processid: usize,
        algo_value: usize,
        salt_len: usize,
    ) -> HkdfView {
        if self.state is Idle && self.handle is Some && hash::algorithm_of(algo_value) is Ok
            && self.checked_lengths(
            processid,
            hash::algorithm_of(algo_value)->Ok_0,
            salt_len,
        ) is Ok {
            HkdfView {
                state: State::Idle,
                ..self.begun(processid, hash::algorithm_of(algo_value)->Ok_0, salt_len)
            }
        } else {
            self
        }
    }

    /// The driver about to compute T(`iteration`), which goes to OKM from `start` on.
    pub open spec fn expanding(
        self,
        processid: usize,
        algorithm: Algorithm,
        iteration: usize,
        start: usize,
    ) -> HkdfView {
        HkdfView {
            state: State::Active {
                processid,
                algorithm,
                stage: Stage::Expand { iteration, start },
            },
            key_state: Some(KeyState::InnerKey),
            offsets: Offsets { prk: 0, message: 0, okm: start, ..self.offsets },
            ..self
        }
    }

    /// What follows a digest that went well: the driver as it computes the next T, or `None` if all
    /// of OKM is there.
    pub open spec fn next(self) -> Option<HkdfView> {
        match self.state {
            State::Active { processid, algorithm, stage } => match stage {
                Stage::Extract => if self.num_of_iterations == 0 {
                    None
                } else {
                    Some(self.expanding(processid, algorithm, 1, 0))
                },
                Stage::Expand { iteration, start } => if iteration == self.num_of_iterations {
                    None
                } else {
                    Some(
                        self.expanding(
                            processid,
                            algorithm,
                            (iteration + 1) as usize,
                            (start + self.lengths.prk) as usize,
                        ),
                    )
                },
            },
            _ => None,
        }
    }
}

impl<H> Observed for Hkdf<H> {
    closed spec fn log(&self) -> Seq<Call> {
        self.log@
    }

    open spec fn valid(&self) -> bool {
        self@.wf()
    }
}

/// Output of at most 255 digests takes at most 255 of them.
proof fn lemma_iterations_bounded(okm_len: nat, hash_len: nat)
    requires
        hash_len > 0,
        okm_len <= MAX_ITERATIONS * hash_len,
    ensures
        iterations(okm_len, hash_len) <= MAX_ITERATIONS,
{
    assert(okm_len == (okm_len / hash_len) * hash_len + okm_len % hash_len) by (nonlinear_arith)
        requires
            hash_len > 0,
    ;
    assert(okm_len / hash_len <= 255) by (nonlinear_arith)
        requires
            hash_len > 0,
            okm_len == (okm_len / hash_len) * hash_len + okm_len % hash_len,
            okm_len % hash_len >= 0,
            okm_len <= 255 * hash_len,
    ;
    if okm_len % hash_len != 0 {
        assert(okm_len / hash_len < 255) by (nonlinear_arith)
            requires
                hash_len > 0,
                okm_len == (okm_len / hash_len) * hash_len + okm_len % hash_len,
                okm_len % hash_len > 0,
                okm_len <= 255 * hash_len,
        ;
    }
}

/// Every T starts within OKM, and all but the last end within it.
pub proof fn lemma_iteration_fits(okm_len: nat, hash_len: nat, iteration: nat)
    requires
        hash_len > 0,
        0 < iteration <= iterations(okm_len, hash_len),
    ensures
        0 <= (iteration - 1) * hash_len < okm_len,
        iteration < iterations(okm_len, hash_len) ==> iteration * hash_len < okm_len,
        iteration > 1 ==> (iteration - 1) * hash_len >= hash_len,
        iteration * hash_len == (iteration - 1) * hash_len + hash_len,
{
    let whole = okm_len / hash_len;
    let last = iterations(okm_len, hash_len);
    assert(okm_len == whole * hash_len + okm_len % hash_len) by (nonlinear_arith)
        requires
            hash_len > 0,
            whole == okm_len / hash_len,
    ;
    assert((last - 1) * hash_len < okm_len) by {
        if okm_len % hash_len == 0 {
            assert((whole - 1) * hash_len == whole * hash_len - hash_len) by (nonlinear_arith);
        } else {
            assert(last - 1 == whole);
        }
    }
    assert((iteration - 1) * hash_len <= (last - 1) * hash_len) by (nonlinear_arith)
        requires
            iteration <= last,
    ;
    assert(0 <= (iteration - 1) * hash_len) by (nonlinear_arith)
        requires
            iteration >= 1,
    ;
    if iteration < last {
        assert(iteration * hash_len <= (last - 1) * hash_len) by (nonlinear_arith)
            requires
                iteration <= last - 1,
        ;
    }
    if iteration > 1 {
        assert((iteration - 1) * hash_len >= hash_len) by (nonlinear_arith)
            requires
                iteration >= 2,
        ;
    }
    assert(iteration * hash_len == (iteration - 1) * hash_len + hash_len) by (nonlinear_arith);
}

/// One more part of T(n - 1) | info | n.
proof fn lemma_message_step(
    driver: HkdfView,
    start: nat,
    len: nat,
    offset: nat,
    got: Seq<u8>,
    data: Seq<u8>,
)
    requires
        got.len() < len,
        offset < driver.message_len(),
        driver.message_part(offset, (len - got.len()) as nat) == Ok::<Seq<u8>, ErrorCode>(data),
        0 < data.len() <= len - got.len(),
        match driver.message(offset, (len - got.len()) as nat) {
            Ok(rest) => driver.message(start, len) == Ok::<Seq<u8>, ErrorCode>(got + rest),
            Err(error) => driver.message(start, len) == Err::<Seq<u8>, ErrorCode>(error),
        },
    ensures
        match driver.message(offset + data.len(), (len - got.len() - data.len()) as nat) {
            Ok(rest) => driver.message(start, len) == Ok::<Seq<u8>, ErrorCode>(
                (got + data) + rest,
            ),
            Err(error) => driver.message(start, len) == Err::<Seq<u8>, ErrorCode>(error),
        },
{
    if let Ok(rest) = driver.message(offset + data.len(), (len - got.len() - data.len()) as nat) {
        assert(got + (data + rest) =~= (got + data) + rest);
    }
}

impl<H> Hkdf<H> {
    /// A driver numbered `id`, which is not registered with the mutex yet.
    pub fn new(id: usize, apps: Grant) -> (driver: Self)
        ensures
            driver.valid(),
            driver.log() == Seq::<Call>::empty(),
            driver@ == HkdfView::fresh(id, apps@),
    {
        Hkdf {
            id,
            hmac_handle: None,
            hmac: None,
            apps,
            state: State::Idle,
            key_state: None,
            salt_status: SaltStatus::Present,
            num_of_iterations: 0,
            lengths: Lengths { salt: 0, ikm: 0, prk: 0, info: 0, okm: 0 },
            offsets: Offsets { salt: 0, ikm: 0, prk: 0, message: 0, okm: 0 },
            completion: None,
            log: Ghost(Seq::empty()),
        }
    }

    /// What the processes share with the driver.
    pub fn apps(&self) -> (apps: &Grant)
        ensures
            apps@ == self@.apps,
    {
        &self.apps
    }

    /// Register this driver as a client of the mutex.
    pub fn register(&mut self, hmac_mutex: &mut DriverMutex<H>) -> (result: Result<(), ErrorCode>)
        requires
            old(self).valid(),
            old(hmac_mutex)@.wf(),
        ensures
            final(self).valid(),
            final(self).log() == old(self).log(),
            final(hmac_mutex)@.wf(),
            final(hmac_mutex).guarded() == old(hmac_mutex).guarded(),
            final(self)@ == (HkdfView { handle: final(self)@.handle, ..old(self)@ }),
            old(self)@.handle is Some ==> result == Err::<(), ErrorCode>(ErrorCode::ALREADY),
            old(self)@.handle is None ==> (result is Ok <==> exists|slot: int|
                old(hmac_mutex)@.is_slot_of(old(self)@.id, slot)),
            old(self)@.handle is None && result is Err ==> result == Err::<(), ErrorCode>(
                ErrorCode::NOMEM,
            ),
            result is Err ==> final(self)@ == old(self)@ && final(hmac_mutex)@ == old(hmac_mutex)@,
            result is Ok ==> {
                &&& final(self)@.handle matches Some(handle)
                &&& old(hmac_mutex)@.is_slot_of(old(self)@.id, handle.index() as int)
                &&& final(hmac_mutex)@ == old(hmac_mutex)@.added(
                    old(self)@.id,
                    handle.index() as int,
                )
                &&& final(hmac_mutex)@.issued(handle)
            },
    {
        if self.hmac_handle.is_some() {
            return Err(ErrorCode::ALREADY);
        }
        match hmac_mutex.add_client(self.id) {
            Some(handle) => {
                self.hmac_handle = Some(handle);
                Ok(())
            },
            None => Err(ErrorCode::NOMEM),
        }
    }

    /// Checks the buffers of a process.
    fn check_buffers(&self, processid: usize, algorithm: Algorithm, salt_len: usize) -> (result:
        Result<Lengths, ErrorCode>)
        ensures
            result == self@.checked_lengths(processid, algorithm, salt_len),
            result matches Ok(lengths) ==> lengths.prk == algorithm.digest_len() && lengths.okm
                <= MAX_ITERATIONS * lengths.prk,
    {
        let salt: usize = match self.apps.readonly_buffer_len(processid, RO_SALT) {
            Ok(len) => len,
            Err(error) => {
                return Err(error);
            },
        };
        if salt_len > algorithm.get_block_size() || salt_len > salt {
            return Err(ErrorCode::INVAL);
        }
        let ikm: usize = match self.apps.readonly_buffer_len(processid, RO_IKM) {
            Ok(len) => len,
            Err(error) => {
                return Err(error);
            },
        };
        let prk: usize = match self.apps.readwrite_buffer_len(processid, RW_PRK) {
            Ok(len) => len,
            Err(error) => {
                return Err(error);
            },
        };
        if prk != algorithm.get_digest_len() {
            return Err(ErrorCode::INVAL);
        }
        let info: usize = match self.apps.readonly_buffer_len(processid, RO_INFO) {
            Ok(len) => len,
            Err(error) => {
                return Err(error);
            },
        };
        let okm: usize = match self.apps.readwrite_buffer_len(processid, RW_OKM) {
            Ok(len) => len,
            Err(error) => {
                return Err(error);
            },
        };
        proof {
            assert(MAX_ITERATIONS * prk <= 65535) by (nonlinear_arith)
                requires
                    prk <= 64,
            ;
        }
        if okm > MAX_ITERATIONS * prk {
            return Err(ErrorCode::INVAL);
        }
        let salt_used: usize = if salt_len == 0 {
            prk
        } else {
            salt_len
        };
        Ok(Lengths { salt: salt_used, ikm, prk, info, okm })
    }

    /// Begins a derivation for a process: checks algorithm and buffers, and requests the HMAC
    /// driver.
    ///
    /// Returns `BUSY` while an operation is in progress, `OFF` if the driver is not registered,
    /// `INVAL` if there is no such algorithm, the salt is longer than a block or than its buffer,
    /// PRK has not the length of a digest or OKM is longer than 255 digests, the error of a buffer that cannot be reached, and else
    /// what the mutex answers.
    pub fn start_operation(
        &mut self,
        processid: usize,
        algo_value: usize,
        salt_len: usize,
        hmac_mutex: &mut DriverMutex<H>,
    ) -> (result: Result<(), ErrorCode>)
        requires
            old(self).valid(),
            old(hmac_mutex)@.wf(),
            old(self)@.handle matches Some(handle) ==> old(hmac_mutex)@.admits(handle),
        ensures
            final(self).valid(),
            final(self).log() == old(self).log(),
            final(hmac_mutex)@.wf(),
            final(hmac_mutex).guarded() == old(hmac_mutex).guarded(),
            result == old(self)@.start_result(processid, algo_value, salt_len, old(hmac_mutex)@),
            result is Ok ==> {
                &&& final(self)@ == old(self)@.begun(
                    processid,
                    hash::algorithm_of(algo_value)->Ok_0,
                    salt_len,
                )
                &&& final(hmac_mutex)@ == old(hmac_mutex)@.requested(old(self)@.handle->0)
            },
            result is Err ==> {
                &&& final(self)@ == old(self)@.refused(processid, algo_value, salt_len)
                &&& final(hmac_mutex)@ == old(hmac_mutex)@
            },
    {
        if self.state != State::Idle {
            return Err(ErrorCode::BUSY);
        }
        let handle = match self.hmac_handle {
            Some(handle) => handle,
            None => {
                return Err(ErrorCode::OFF);
            },
        };
        let algorithm = match parse_algorithm(algo_value) {
            Ok(algorithm) => algorithm,
            Err(error) => {
                return Err(error);
            },
        };
        let lengths = match self.check_buffers(processid, algorithm, salt_len) {
            Ok(lengths) => lengths,
            Err(error) => {
                return Err(error);
            },
        };
        self.lengths = lengths;
        self.offsets = Offsets { salt: 0, ikm: 0, prk: 0, message: 0, okm: 0 };
        proof {
            lemma_iterations_bounded(lengths.okm as nat, lengths.prk as nat);
        }
        let whole: usize = lengths.okm / lengths.prk;
        self.num_of_iterations = if lengths.okm % lengths.prk == 0 {
            whole
        } else {
            whole + 1
        };
        self.key_state = Some(KeyState::InnerKey);
        self.salt_status = if salt_len == 0 {
            SaltStatus::NotPresent
        } else {
            SaltStatus::Present
        };
        self.state = State::Waiting { processid, algorithm };
        let result = hmac_mutex.request(handle);
        if result.is_err() {
            self.state = State::Idle;
        }
        result
    }

    /// Handles a command of a process.
    pub fn command(
        &mut self,
        command_num: usize,
        data1: usize,
        data2: usize,
        processid: usize,
        hmac_mutex: &mut DriverMutex<H>,
    ) -> (result: Result<(), ErrorCode>)
        requires
            old(self).valid(),
            old(hmac_mutex)@.wf(),
            old(self)@.handle matches Some(handle) ==> old(hmac_mutex)@.admits(handle),
        ensures
            final(self).valid(),
            final(self).log() == old(self).log(),
            final(hmac_mutex)@.wf(),
            final(hmac_mutex).guarded() == old(hmac_mutex).guarded(),
            command_num == 0 ==> result is Ok,
            command_num > 1 ==> result == Err::<(), ErrorCode>(ErrorCode::NOSUPPORT),
            command_num != 1 ==> final(self)@ == old(self)@ && final(hmac_mutex)@ == old(
                hmac_mutex,
            )@,
            command_num == 1 ==> result == old(self)@.start_result(
                processid,
                data1,
                data2,
                old(hmac_mutex)@,
            ),
            command_num == 1 && result is Ok ==> {
                &&& final(self)@ == old(self)@.begun(
                    processid,
                    hash::algorithm_of(data1)->Ok_0,
                    data2,
                )
                &&& final(hmac_mutex)@ == old(hmac_mutex)@.requested(old(self)@.handle->0)
            },
            command_num == 1 && result is Err ==> {
                &&& final(self)@ == old(self)@.refused(processid, data1, data2)
                &&& final(hmac_mutex)@ == old(hmac_mutex)@
            },
    {
        match command_num {
            0 => Ok(()),
            1 => self.start_operation(processid, data1, data2, hmac_mutex),
            _ => Err(ErrorCode::NOSUPPORT),
        }
    }

    /// Makes sure that a process has a grant.
    pub fn allocate_grant(&self, processid: usize) -> (result: Result<(), ErrorCode>)
        ensures
            result == self@.apps.entry(processid),
    {
        self.apps.enter(processid)
    }

    /// Reads from the part of T(n - 1) | info | n that holds the byte at `offset` to the rest of
    /// `destination` from `written` on.
    fn read_message(
        &self,
        processid: usize,
        iteration: usize,
        start: usize,
        offset: usize,
        destination: &mut [u8],
        written: usize,
    ) -> (count: Result<usize, ErrorCode>)
        requires
            self@.wf(),
            written < old(destination)@.len(),
            offset < self@.message_len(),
            self@.state matches State::Active { processid: own, stage, .. } && own == processid
                && stage == (Stage::Expand { iteration, start }),
        ensures
            grant::copied(
                self@.message_part(
                    offset as nat,
                    (old(destination)@.len() - written) as nat,
                ),
                count,
                old(destination)@,
                final(destination)@,
                written as int,
            ),
            count matches Ok(count) ==> 0 < count <= old(destination)@.len() - written,
    {
        let ghost given = destination@;
        let len: usize = destination.len();
        proof {
            lemma_iteration_fits(
                self@.lengths.okm as nat,
                self@.lengths.prk as nat,
                iteration as nat,
            );
        }
        let t_len: usize = if iteration > 1 {
            self.lengths.prk
        } else {
            0
        };
        let info_len: usize = self.lengths.info;
        if offset < t_len {
            let left: usize = t_len - offset;
            let end: usize = if left < len - written {
                written + left
            } else {
                len
            };
            self.apps.read_back_at(
                processid,
                RW_OKM,
                start - t_len + offset,
                destination,
                written,
                end,
            )
        } else if offset - t_len < info_len {
            let left: usize = info_len - (offset - t_len);
            let end: usize = if left < len - written {
                written + left
            } else {
                len
            };
            self.apps.read_at(processid, RO_INFO, offset - t_len, destination, written, end)
        } else {
            let index: u8 = iteration as u8;
            destination[written] = index;
            assert(destination@ =~= grant::overwritten(given, written as int, seq![index]));
            Ok(1)
        }
    }

    /// Packs as much of T(n - 1) | info | n into `destination` as it takes.
    fn take_message(
        &mut self,
        processid: usize,
        iteration: usize,
        start: usize,
        destination: &mut [u8],
    ) -> (count: Result<usize, ErrorCode>)
        requires
            old(self)@.wf(),
            old(self)@.state matches State::Active { processid: own, stage, .. } && own
                == processid && stage == (Stage::Expand { iteration, start }),
        ensures
            final(self)@.wf(),
            final(self).log() == old(self).log(),
            final(destination)@.len() == old(destination)@.len(),
            match old(self)@.input(old(destination)@.len()) {
                Ok(data) => {
                    &&& count is Ok
                    &&& count->Ok_0 == data.len()
                    &&& final(destination)@ == grant::overwritten(old(destination)@, 0, data)
                    &&& final(self)@ == old(self)@.input_taken(data.len())
                },
                Err(error) => {
                    &&& count == Err::<usize, ErrorCode>(error)
                    &&& final(self)@ == old(self)@
                },
            },
            count matches Ok(count) ==> count <= old(destination)@.len(),
    {
        let ghost before = self@;
        let ghost given = destination@;
        let len: usize = destination.len();
        let start_offset: usize = self.offsets.message;
        let t_len: usize = if iteration > 1 {
            self.lengths.prk
        } else {
            0
        };
        let info_len: usize = self.lengths.info;
        let mut offset: usize = start_offset;
        let mut written: usize = 0;
        let ghost mut got: Seq<u8> = Seq::empty();
        proof {
            assert(grant::overwritten(given, 0, got) =~= given);
            if let Ok(rest) = before.message(start_offset as nat, len as nat) {
                assert(got + rest =~= rest);
            }
        }
        while written < len && (offset < t_len || offset - t_len <= info_len)
            invariant
                written <= len,
                len == destination@.len(),
                len == given.len(),
                given == old(destination)@,
                self@ == before,
                before == old(self)@,
                before.wf(),
                before.state matches State::Active { processid: own, stage, .. } && own
                    == processid && stage == (Stage::Expand { iteration, start }),
                self.log() == old(self).log(),
                t_len == before.t_len(),
                info_len == before.lengths.info,
                start_offset == before.offsets.message,
                offset == start_offset + written,
                got.len() == written,
                destination@ == grant::overwritten(given, 0, got),
                match before.message(offset as nat, (len - written) as nat) {
                    Ok(rest) => before.message(start_offset as nat, len as nat) == Ok::<
                        Seq<u8>,
                        ErrorCode,
                    >(got + rest),
                    Err(error) => before.message(start_offset as nat, len as nat) == Err::<
                        Seq<u8>,
                        ErrorCode,
                    >(error),
                },
            decreases len - written,
        {
            match self.read_message(processid, iteration, start, offset, destination, written) {
                Err(error) => {
                    return Err(error);
                },
                Ok(read) => {
                    proof {
                        let data = before.message_part(
                            offset as nat,
                            (len - written) as nat,
                        )->Ok_0;
                        lemma_message_step(
                            before,
                            start_offset as nat,
                            len as nat,
                            offset as nat,
                            got,
                            data,
                        );
                        grant::lemma_overwritten_twice(given, got, data);
                        got = got + data;
                    }
                    written = written + read;
                    offset = offset + read;
                },
            }
        }
        proof {
            assert(before.message(offset as nat, (len - written) as nat) == Ok::<
                Seq<u8>,
                ErrorCode,
            >(Seq::empty()));
            assert(got + Seq::<u8>::empty() =~= got);
        }
        if written == 0 {
            return Err(ErrorCode::SIZE);
        }
        self.offsets.message = offset;
        Ok(written)
    }
}

impl<H: Hmac + Resource> Hkdf<H> {
    /// Ends the operation: the HMAC driver clears its data and is given back, and the process is
    /// told.
    fn finish(&mut self, result: Result<(), ErrorCode>, hmac_mutex: &mut DriverMutex<H>)
        requires
            old(self).valid(),
            old(hmac_mutex)@.wf(),
            old(hmac_mutex).guarded().valid(),
            old(self)@.linked(old(hmac_mutex)@),
        ensures
            final(self).valid(),
            final(self).log() == old(self).log(),
            final(self)@ == old(self)@.finished(result),
            final(hmac_mutex)@.wf(),
            final(hmac_mutex).guarded().valid(),
            final(hmac_mutex)@ == hash::mutex_after(old(hmac_mutex)@, old(self)@.held),
            final(hmac_mutex).guarded().log() == old(hmac_mutex).guarded().log() + hash::ending(
                old(self)@.held,
            ),
    {
        let ghost log = hmac_mutex.guarded().log();
        let state = self.state;
        self.state = State::Idle;
        assert(log + Seq::<Call>::empty() =~= log);
        if let Some(guard) = self.hmac.take() {
            hmac_mutex.resource(&guard).clear_data();
            assert(hmac_mutex.guarded().log() =~= log + seq![Call::ClearData]);
            hmac_mutex.release(guard);
        }
        let processid: usize = match state {
            State::Waiting { processid, .. } => processid,
            State::Active { processid, .. } => processid,
            State::Idle => {
                return ;
            },
        };
        let upcall = Upcall { number: UPCALL_DONE, status: result, arg1: 0, arg2: 0 };
        self.apps.schedule_upcall(processid, upcall);
    }

    /// Takes the guard that was waited for, makes this driver the client of the HMAC driver and has
    /// it compute PRK from salt and IKM. A guard that is not waited for is given back; one of
    /// another driver ends the operation with `INVAL`, and a refusal ends it with the error.
    pub fn ready(&mut self, resource: DriverMutexAny, hmac_mutex: &mut DriverMutex<H>)
        requires
            old(self).valid(),
            old(hmac_mutex)@.wf(),
            old(hmac_mutex).guarded().valid(),
            resource.owner() == old(hmac_mutex)@.id,
            old(hmac_mutex)@.guards() > 0,
            old(self)@.state is Waiting ==> old(self)@.held is None,
        ensures
            final(self).valid(),
            final(self).log() == old(self).log(),
            final(hmac_mutex)@.wf(),
            final(hmac_mutex).guarded().valid(),
            readied(
                old(self)@,
                final(self)@,
                resource.kind() == H::kind(),
                old(hmac_mutex)@,
                final(hmac_mutex)@,
                old(hmac_mutex).guarded().log(),
                final(hmac_mutex).guarded().log(),
            ),
    {
        let ghost log = hmac_mutex.guarded().log();
        let (processid, algorithm) = match self.state {
            State::Waiting { processid, algorithm } => (processid, algorithm),
            State::Idle | State::Active { .. } => {
                hmac_mutex.release_any(resource);
                return ;
            },
        };
        self.state = State::Active { processid, algorithm, stage: Stage::Extract };
        match resource.downcast::<H>() {
            Err(resource) => {
                hmac_mutex.release_any(resource);
                let ghost middle = hmac_mutex.guarded().log();
                self.finish(Err(ErrorCode::INVAL), hmac_mutex);
                assert(middle + Seq::<Call>::empty() =~= middle);
            },
            Ok(guard) => {
                hmac_mutex.resource(&guard).set_hmac_client(self.id);
                let ghost set = Call::SetHmacClient { client: self.id };
                let ikm_len: usize = self.lengths.ikm;
                let salt_len: usize = self.lengths.salt;
                let result = if salt_len == 0 {
                    hmac_mutex.resource(&guard).hash(algorithm, ikm_len)
                } else {
                    hmac_mutex.resource(&guard).authenticate(algorithm, ikm_len, salt_len)
                };
                self.hmac = Some(guard);
                let ghost asked = if salt_len == 0 {
                    Call::Hash { algorithm, len: ikm_len, result }
                } else {
                    Call::Authenticate {
                        algorithm,
                        input_len: ikm_len,
                        key_len: salt_len,
                        result,
                    }
                };
                let ghost calls = seq![set, asked];
                assert(hmac_mutex.guarded().log() =~= log + calls);
                assert((log + calls).take(log.len() as int) =~= log);
                assert((log + calls)[log.len() as int + 1] == asked);
                if result.is_err() {
                    self.finish(result, hmac_mutex);
                    let ghost all = log + calls.push(Call::ClearData);
                    assert(hmac_mutex.guarded().log() =~= all);
                    assert(all.take(log.len() as int) =~= log);
                    assert(all[log.len() as int + 1] == asked);
                }
            },
        }
    }

    /// Has the HMAC driver compute T(`iteration`), which goes to OKM from `start` on.
    fn expand(
        &mut self,
        processid: usize,
        algorithm: Algorithm,
        iteration: usize,
        start: usize,
        hmac_mutex: &mut DriverMutex<H>,
    )
        requires
            old(self).valid(),
            old(hmac_mutex)@.wf(),
            old(hmac_mutex).guarded().valid(),
            old(self)@.linked(old(hmac_mutex)@),
            old(self)@.message_fits(),
            old(self)@.lengths.prk > 0,
            old(self)@.num_of_iterations == iterations(
                old(self)@.lengths.okm as nat,
                old(self)@.lengths.prk as nat,
            ),
            0 < iteration <= old(self)@.num_of_iterations <= MAX_ITERATIONS,
            start == (iteration - 1) * old(self)@.lengths.prk,
        ensures
            final(self).valid(),
            final(self).log() == old(self).log(),
            final(hmac_mutex)@.wf(),
            final(hmac_mutex).guarded().valid(),
            expanded(
                old(self)@.expanding(processid, algorithm, iteration, start),
                final(self)@,
                old(hmac_mutex)@,
                final(hmac_mutex)@,
                old(hmac_mutex).guarded().log(),
                final(hmac_mutex).guarded().log(),
            ),
    {
        let ghost log = hmac_mutex.guarded().log();
        let ghost next = self@.expanding(processid, algorithm, iteration, start);
        proof {
            lemma_iteration_fits(
                self@.lengths.okm as nat,
                self@.lengths.prk as nat,
                iteration as nat,
            );
        }
        self.offsets.prk = 0;
        self.offsets.message = 0;
        self.offsets.okm = start;
        self.key_state = Some(KeyState::InnerKey);
        self.state = State::Active {
            processid,
            algorithm,
            stage: Stage::Expand { iteration, start },
        };
        assert(self@ =~= next);
        let t_len: usize = if iteration > 1 {
            self.lengths.prk
        } else {
            0
        };
        let input_len: usize = t_len + self.lengths.info + 1;
        let key_len: usize = self.lengths.prk;
        match self.hmac.take() {
            None => {
                self.finish(Err(ErrorCode::FAIL), hmac_mutex);
                assert(log + Seq::<Call>::empty() =~= log);
            },
            Some(guard) => {
                let result = hmac_mutex.resource(&guard).authenticate(
                    algorithm,
                    input_len,
                    key_len,
                );
                self.hmac = Some(guard);
                let ghost asked = Call::Authenticate { algorithm, input_len, key_len, result };
                assert(hmac_mutex.guarded().log() =~= log.push(asked));
                if result.is_err() {
                    self.finish(result, hmac_mutex);
                    assert(hmac_mutex.guarded().log() =~= log.push(asked).push(Call::ClearData));
                }
            },
        }
    }

    /// Acts on the end of a digest, if it has come: PRK is followed by T(1), T(n) by T(n + 1), and
    /// the last T by the end of the operation. An error ends the operation.
    pub fn resume(&mut self, hmac_mutex: &mut DriverMutex<H>)
        requires
            old(self).valid(),
            old(hmac_mutex)@.wf(),
            old(hmac_mutex).guarded().valid(),
            old(self)@.linked(old(hmac_mutex)@),
        ensures
            final(self).valid(),
            final(self).log() == old(self).log(),
            final(hmac_mutex)@.wf(),
            final(hmac_mutex).guarded().valid(),
            resumed(
                old(self)@,
                final(self)@,
                old(hmac_mutex)@,
                final(hmac_mutex)@,
                old(hmac_mutex).guarded().log(),
                final(hmac_mutex).guarded().log(),
            ),
    {
        let result = match self.completion {
            Some(result) => result,
            None => {
                return ;
            },
        };
        self.completion = None;
        let (processid, algorithm, stage) = match self.state {
            State::Active { processid, algorithm, stage } => (processid, algorithm, stage),
            State::Idle | State::Waiting { .. } => {
                return ;
            },
        };
        if result.is_err() {
            self.finish(result, hmac_mutex);
            return ;
        }
        match stage {
            Stage::Extract => {
                if self.num_of_iterations == 0 {
                    self.finish(result, hmac_mutex);
                } else if self.lengths.info >= usize::MAX - self.lengths.prk {
                    self.finish(Err(ErrorCode::SIZE), hmac_mutex);
                } else {
                    assert((1 - 1) * self@.lengths.prk == 0) by (nonlinear_arith);
                    self.expand(processid, algorithm, 1, 0, hmac_mutex);
                }
            },
            Stage::Expand { iteration, start } => {
                if iteration == self.num_of_iterations {
                    self.finish(result, hmac_mutex);
                } else {
                    proof {
                        lemma_iteration_fits(
                            self@.lengths.okm as nat,
                            self@.lengths.prk as nat,
                            iteration as nat,
                        );
                    }
                    self.expand(
                        processid,
                        algorithm,
                        iteration + 1,
                        start + self.lengths.prk,
                        hmac_mutex,
                    );
                }
            },
        }
    }
}

/// The driver goes from `before` to `after` when it is given the guard of its mutex.
pub open spec fn readied(
    before: HkdfView,
    after: HkdfView,
    right_kind: bool,
    mutex: MutexView,
    later: MutexView,
    log: Seq<Call>,
    later_log: Seq<Call>,
) -> bool {
    match before.state {
        State::Waiting { processid, algorithm } => {
            let active = HkdfView {
                state: State::Active { processid, algorithm, stage: Stage::Extract },
                ..before
            };
            let holding = HkdfView { held: Some(mutex.id), ..active };
            if !right_kind {
                &&& after == active.finished(Err(ErrorCode::INVAL))
                &&& later == mutex.released()
                &&& later_log == log
            } else {
                let asked = later_log[log.len() as int + 1];
                let result = match asked {
                    Call::Hash { result, .. } => result,
                    Call::Authenticate { result, .. } => result,
                    _ => Ok(()),
                };
                &&& later_log.len() >= log.len() + 2
                &&& later_log.take(log.len() as int) == log
                &&& later_log[log.len() as int] == (Call::SetHmacClient { client: before.id })
                &&& asked == if before.lengths.salt == 0 {
                    Call::Hash { algorithm, len: before.lengths.ikm, result }
                } else {
                    Call::Authenticate {
                        algorithm,
                        input_len: before.lengths.ikm,
                        key_len: before.lengths.salt,
                        result,
                    }
                }
                &&& if result is Err {
                    &&& after == holding.finished(result)
                    &&& later == mutex.released()
                    &&& later_log.len() == log.len() + 3
                    &&& later_log.last() is ClearData
                } else {
                    &&& after == holding
                    &&& later == mutex
                    &&& later_log.len() == log.len() + 2
                }
            }
        },
        _ => after == before && later == mutex.released() && later_log == log,
    }
}

/// The driver, about to compute T(n) as `next`, asks the HMAC driver for it and comes to `after`.
pub open spec fn expanded(
    next: HkdfView,
    after: HkdfView,
    mutex: MutexView,
    later: MutexView,
    log: Seq<Call>,
    later_log: Seq<Call>,
) -> bool {
    if next.held is None {
        &&& after == next.finished(Err(ErrorCode::FAIL))
        &&& later == mutex
        &&& later_log == log
    } else {
        let result = match later_log[log.len() as int] {
            Call::Authenticate { result, .. } => result,
            _ => Ok(()),
        };
        let asked = Call::Authenticate {
            algorithm: next.state->Active_algorithm,
            input_len: next.message_len() as usize,
            key_len: next.lengths.prk,
            result,
        };
        if result is Err {
            &&& after == next.finished(result)
            &&& later == mutex.released()
            &&& later_log == log.push(asked).push(Call::ClearData)
        } else {
            &&& after == next
            &&& later == mutex
            &&& later_log == log.push(asked)
        }
    }
}

/// The operation of `before` has ended.
pub open spec fn ended(
    before: HkdfView,
    after: HkdfView,
    result: Result<(), ErrorCode>,
    mutex: MutexView,
    later: MutexView,
    log: Seq<Call>,
    later_log: Seq<Call>,
) -> bool {
    &&& after == before.finished(result)
    &&& later == hash::mutex_after(mutex, before.held)
    &&& later_log == log + hash::ending(before.held)
}

/// The driver goes from `before` to `after` when it acts on the end of a digest.
pub open spec fn resumed(
    before: HkdfView,
    after: HkdfView,
    mutex: MutexView,
    later: MutexView,
    log: Seq<Call>,
    later_log: Seq<Call>,
) -> bool {
    let cleared = HkdfView { completion: None, ..before };
    match before.completion {
        None => after == before && later == mutex && later_log == log,
        Some(result) => if !(before.state is Active) {
            after == cleared && later == mutex && later_log == log
        } else if result is Err {
            ended(cleared, after, result, mutex, later, log, later_log)
        } else {
            match cleared.next() {
                None => ended(cleared, after, result, mutex, later, log, later_log),
                Some(next) => if !cleared.message_fits() {
                    ended(cleared, after, Err(ErrorCode::SIZE), mutex, later, log, later_log)
                } else {
                    expanded(next, after, mutex, later, log, later_log)
                },
            }
        },
    }
}

impl<H> Client for Hkdf<H> {
    fn read_input(&mut self, input: &mut [u8]) -> (count: Result<usize, ErrorCode>)
        ensures
            match old(self)@.input(old(input)@.len()) {
                Ok(data) => {
                    &&& count is Ok
                    &&& count->Ok_0 == data.len()
                    &&& final(input)@ == grant::overwritten(old(input)@, 0, data)
                    &&& final(self)@ == old(self)@.input_taken(data.len())
                },
                Err(error) => {
                    &&& count == Err::<usize, ErrorCode>(error)
                    &&& final(self)@ == old(self)@
                },
            },
    {
        let len: usize = input.len();
        let count = match self.state {
            State::Active { processid, stage: Stage::Extract, .. } => {
                let offset: usize = self.offsets.ikm;
                let count = self.apps.read_at(processid, RO_IKM, offset, input, 0, len);
                if let Ok(read) = count {
                    self.offsets.ikm = offset + read;
                }
                count
            },
            State::Active {
                processid,
                stage: Stage::Expand { iteration, start },
                ..
            } => self.take_message(processid, iteration, start, input),
            State::Idle | State::Waiting { .. } => Err(ErrorCode::RESERVE),
        };
        proof {
            self.log@ = self.log@.push(
                Call::Read {
                    port: Port::Input,
                    offered: old(input)@,
                    buffer: input@,
                    count,
                },
            );
        }
        count
    }

    fn write_output(&mut self, output: &[u8]) -> (result: Result<(), ErrorCode>)
        ensures
            final(self)@ == old(self)@.output(output@).0,
            grant::same_result(result, old(self)@.output(output@).1),
    {
        let len: usize = output.len();
        let result = match self.state {
            State::Active { processid, stage: Stage::Extract, .. } => {
                let offset: usize = self.offsets.prk;
                match self.apps.get_readwrite_processbuffer(processid, RW_PRK) {
                    Err(grant::AccessError::Grant(error)) => Err(error),
                    Err(grant::AccessError::Buffer(_)) => Err(ErrorCode::RESERVE),
                    Ok(buffer) => {
                        let room: usize = buffer.len();
                        if len > room || offset > room - len || len > self.lengths.prk - offset {
                            Err(ErrorCode::SIZE)
                        } else {
                            let result = self.apps.write_at(processid, RW_PRK, offset, output);
                            self.offsets.prk = offset + len;
                            result
                        }
                    },
                }
            },
            State::Active { processid, stage: Stage::Expand { .. }, .. } => {
                let offset: usize = self.offsets.okm;
                if offset < self.lengths.okm {
                    let left: usize = self.lengths.okm - offset;
                    let count: usize = if left < len {
                        left
                    } else {
                        len
                    };
                    let piece: &[u8] = vstd::slice::slice_subrange(output, 0, count);
                    assert(piece@ =~= self@.okm_piece(output@));
                    let result = self.apps.write_at(processid, RW_OKM, offset, piece);
                    if result.is_ok() {
                        self.offsets.okm = offset + count;
                    }
                    result
                } else {
                    Ok(())
                }
            },
            State::Idle | State::Waiting { .. } => Err(ErrorCode::RESERVE),
        };
        proof {
            self.log@ = self.log@.push(
                Call::Write { port: Port::Output, data: output@, result },
            );
        }
        result
    }

    fn hash_done(&mut self, result: Result<(), ErrorCode>)
        ensures
            final(self)@ == (HkdfView { completion: Some(result), ..old(self)@ }),
    {
        self.completion = Some(result);
        proof {
            self.log@ = self.log@.push(Call::Done { result });
        }
    }
}

impl<H> Hkdf<H> {
    fn read_salt(&mut self, processid: usize, destination: &mut [u8]) -> (count: Result<
        usize,
        ErrorCode,
    >)
        requires
            old(self)@.wf(),
            old(self)@.state matches State::Active { processid: own, stage, .. } && own
                == processid && stage is Extract,
        ensures
            final(self)@.wf(),
            final(self).log() == old(self).log(),
            key_delivered(
                old(self)@,
                final(self)@,
                old(destination)@,
                final(destination)@,
                count,
            ),
    {
        let ghost given = destination@;
        let len: usize = destination.len();
        if self.key_state.is_none() {
            return Err(ErrorCode::ALREADY);
        }
        let offset: usize = self.offsets.salt;
        let left: usize = self.lengths.salt - offset;
        let wanted: usize = if left < len {
            left
        } else {
            len
        };
        let count = match self.salt_status {
            SaltStatus::NotPresent => {
                // Fill the buffer with zeros
                let mut i: usize = 0;
                while i < wanted
                    invariant
                        i <= wanted <= destination@.len(),
                        destination@.len() == given.len(),
                        forall|j: int| 0 <= j < i ==> #[trigger] destination@[j] == 0,
                        forall|j: int|
                            i <= j < given.len() ==> #[trigger] destination@[j] == given[j],
                    decreases wanted - i,
                {
                    destination[i] = 0;
                    i = i + 1;
                }
                assert(destination@ =~= grant::overwritten(
                    given,
                    0,
                    bytes::zeros(wanted as nat),
                ));
                Ok(wanted)
            },
            SaltStatus::Present => self.apps.read_at(
                processid,
                RO_SALT,
                offset,
                destination,
                0,
                wanted,
            ),
        };
        if let Ok(read) = count {
            let updated: usize = offset + read;
            self.offsets.salt = if updated == self.lengths.salt {
                0
            } else {
                updated
            };
        }
        count
    }

    fn read_prk(&mut self, processid: usize, destination: &mut [u8]) -> (count: Result<
        usize,
        ErrorCode,
    >)
        requires
            old(self)@.wf(),
            old(self)@.state matches State::Active { processid: own, stage, .. } && own
                == processid && stage is Expand,
        ensures
            final(self)@.wf(),
            final(self).log() == old(self).log(),
            key_delivered(
                old(self)@,
                final(self)@,
                old(destination)@,
                final(destination)@,
                count,
            ),
    {
        let len: usize = destination.len();
        if self.key_state.is_none() {
            return Err(ErrorCode::ALREADY);
        }
        let offset: usize = self.offsets.prk;
        let left: usize = self.lengths.prk - offset;
        let wanted: usize = if left < len {
            left
        } else {
            len
        };
        let count = self.apps.read_back_at(processid, RW_PRK, offset, destination, 0, wanted);
        if let Ok(read) = count {
            let updated: usize = offset + read;
            self.offsets.prk = if updated == self.lengths.prk {
                0
            } else {
                updated
            };
        }
        count
    }
}

/// What a request for the key does.
pub open spec fn key_delivered(
    before: HkdfView,
    after: HkdfView,
    buffer: Seq<u8>,
    later_buffer: Seq<u8>,
    count: Result<usize, ErrorCode>,
) -> bool {
    &&& grant::copied(before.key(buffer.len()), count, buffer, later_buffer, 0)
    &&& later_buffer.len() == buffer.len()
    &&& count matches Ok(count) ==> count <= buffer.len()
    &&& after == (match count {
        Ok(count) => before.key_taken(count as nat),
        Err(_) => before,
    })
}

impl<H> HmacClient for Hkdf<H> {
    fn read_key(&mut self, key: &mut [u8]) -> (count: Result<usize, ErrorCode>)
        ensures
            key_delivered(old(self)@, final(self)@, old(key)@, final(key)@, count),
    {
        let count = match self.state {
            State::Active { processid, stage: Stage::Extract, .. } => self.read_salt(
                processid,
                key,
            ),
            State::Active { processid, stage: Stage::Expand { .. }, .. } => self.read_prk(
                processid,
                key,
            ),
            State::Idle | State::Waiting { .. } => Err(ErrorCode::RESERVE),
        };
        proof {
            self.log@ = self.log@.push(
                Call::Read {
                    port: Port::Key,
                    offered: old(key)@,
                    buffer: key@,
                    count,
                },
            );
        }
        count
    }
}

} // verus!
