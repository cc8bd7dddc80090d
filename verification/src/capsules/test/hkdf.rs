//! Test the implementation of HMAC driver by performing an HKDF operation
//! and checking it against the expected value.
//!
//! # Algorithm
//!
//! HKDF is specified in [IETF RFC 5869], section 2.
//!
//! ## Step 1: Extract (section 2.2)
//!
//! HKDF-Extract(salt, IKM) -> PRK
//!    Options:
//!       - Hash = a hash function; HashLen denotes the length of the hash function output in octets
//!
//!    Inputs:
//!       - salt = optional salt value (a non-secret random value); if not provided, it is set to a
//!         string of HashLen zeros.
//!       - IKM = input keying material
//!    Output:
//!       - PRK = a pseudorandom key (of HashLen octets)
//!
//!    The output PRK is calculated as follows:
//!    PRK = HMAC-Hash(salt, IKM)
//!
//! ## Step 2: Expand (section 2.3)
//!
//! HKDF-Expand(PRK, info, L) -> OKM
//!
//!    Options:
//!       - Hash = a hash function; HashLen denotes the length of the hash function output in octets
//!
//!    Inputs:
//!       - PRK = a pseudorandom key of at least HashLen octets (usually, the output from the extract
//!         step)
//!       - info = optional context and application specific information (can be a zero-length
//!         string)
//!       - L = length of output keying material in octets (<= 255*HashLen)
//!
//!    Output:
//!      - OKM = output keying material (of L octets)
//!
//!      The output OKM is calculated as follows:
//!
//!      N = ceil(L/HashLen)
//!      T = T(1) | T(2) | T(3) | ... | T(N)
//!      OKM = first L octets of T
//!
//!      where:
//!          - T(0) = empty string (zero length)
//!          - T(1) = HMAC-Hash(PRK, T(0) | info | 0x01)
//!          - T(2) = HMAC-Hash(PRK, T(1) | info | 0x02)
//!          - T(3) = HMAC-Hash(PRK, T(2) | info | 0x03)
//!           ...
//!
//!          (where the constant concatenated to the end of each T(n) is a
//!           single octet.)
//!
//! [IETF RFC 5869]: https://www.rfc-editor.org/info/rfc5869/
use crate::capsules::hash;
use crate::capsules::hkdf;
use crate::capsules::test::failure;
use crate::capsules::test::failure::Failure;
use crate::driver_mutex;
use crate::driver_mutex::{
    DriverMutex, DriverMutexAny, DriverMutexHandle, DriverMutexRef, MutexView, Resource,
};
use crate::error::ErrorCode;
use crate::hil::digest::{Algorithm, Client, Hmac, HmacClient};
use crate::hil::trace::{Call, Observed, Port};
use crate::sw::bytes;
use vstd::prelude::*;

verus! {

/// Which of the two keys of an HMAC comes next.
#[derive(Clone, Copy, Debug, PartialEq, Eq, Structural)]
pub enum KeyState {
    InnerKey,
    OuterKey,
}

impl KeyState {
    /// The key after this one, if there is one.
    pub fn update(self) -> (next: Option<Self>)
        ensures
            next == (match self {
                KeyState::InnerKey => Some(KeyState::OuterKey),
                KeyState::OuterKey => None,
            }),
    {
        match self {
            KeyState::InnerKey => Some(KeyState::OuterKey),
            KeyState::OuterKey => None,
        }
    }
}

/// The step of HKDF that the test is at.
#[derive(Clone, Copy, Debug, PartialEq, Eq, Structural)]
pub enum Stage {
    Extract,
    /// T(`iteration`), which goes to OKM from `start` on.
    Expand { iteration: usize, start: usize },
}

/// A test of an HMAC driver by HKDF.
pub struct TestHkdf<H> {
    id: usize,
    hmac_handle: Option<DriverMutexHandle>,
    hmac: Option<DriverMutexRef<H>>,
    algorithm: Algorithm,
    stage: Stage,
    num_of_iterations: usize,
    ikm_buffer: Vec<u8>,
    salt_buffer: Option<Vec<u8>>,
    prk_buffer: Vec<u8>,
    info_buffer: Vec<u8>,
    okm_buffer: Option<Vec<u8>>,
    correct_buffer: Option<Vec<u8>>,
    key_state: Option<KeyState>,
    key_offset: usize,
    message_offset: usize,
    output_offset: usize,
    client: Option<usize>,
    failure: Option<Failure>,
    completion: Option<Result<(), ErrorCode>>,
    log: Ghost<Seq<Call>>,
}

/// What the test is.
#[verifier::ext_equal]
pub struct TestHkdfView {
    /// The number by which the mutex and the driver know the test.
    pub id: usize,
    pub handle: Option<DriverMutexHandle>,
    /// The mutex whose guard is held.
    pub held: Option<usize>,
    pub algorithm: Algorithm,
    pub stage: Stage,
    /// N.
    pub num_of_iterations: nat,
    pub ikm: Seq<u8>,
    pub salt: Option<Seq<u8>>,
    pub prk: Seq<u8>,
    pub info: Seq<u8>,
    /// OKM, until the test has compared it.
    pub okm: Option<Seq<u8>>,
    /// The expected OKM, until the test has compared it.
    pub correct: Option<Seq<u8>>,
    /// Set once the lengths of the buffers are known to fit.
    pub key_state: Option<KeyState>,
    /// How much of the key was read.
    pub key_offset: nat,
    /// How much of the message was read.
    pub message_offset: nat,
    /// How much of PRK or of T(n) came.
    pub output_offset: nat,
    /// Who is told of the end of the test.
    pub client: Option<usize>,
    /// What has stopped the test.
    pub failure: Option<Failure>,
    /// How the driver says the operation ended, until the test has acted on it.
    pub completion: Option<Result<(), ErrorCode>>,
}

/// The contents of a buffer, if it is at hand.
pub open spec fn contents(buffer: Option<Vec<u8>>) -> Option<Seq<u8>> {
    match buffer {
        Some(buffer) => Some(buffer@),
        None => None,
    }
}

impl<H> View for TestHkdf<H> {
    type V = TestHkdfView;

    closed spec fn view(&self) -> TestHkdfView {
        TestHkdfView {
            id: self.id,
            handle: self.hmac_handle,
            held: match self.hmac {
                Some(guard) => Some(guard.owner()),
                None => None,
            },
            algorithm: self.algorithm,
            stage: self.stage,
            num_of_iterations: self.num_of_iterations as nat,
            ikm: self.ikm_buffer@,
            salt: contents(self.salt_buffer),
            prk: self.prk_buffer@,
            info: self.info_buffer@,
            okm: contents(self.okm_buffer),
            correct: contents(self.correct_buffer),
            key_state: self.key_state,
            key_offset: self.key_offset as nat,
            message_offset: self.message_offset as nat,
            output_offset: self.output_offset as nat,
            client: self.client,
            failure: self.failure,
            completion: self.completion,
        }
    }
}

/// A buffer after `data` was written from `offset` on.
pub open spec fn written(buffer: Seq<u8>, offset: nat, data: Seq<u8>) -> Seq<u8> {
    buffer.take(offset as int) + data + buffer.skip((offset + data.len()) as int)
}

impl TestHkdfView {
    /// The invariant: PRK has the length of a digest, T(n) starts where T(n - 1) ends, and the key
    /// is read within its bounds.
    pub open spec fn wf(self) -> bool {
        &&& self.key_state is Some ==> {
            &&& self.prk.len() == self.algorithm.digest_len()
            &&& self.okm matches Some(okm) ==> self.num_of_iterations == hkdf::iterations(
                okm.len(),
                self.algorithm.digest_len(),
            )
        }
        &&& self.stage matches Stage::Expand { iteration, start } ==> {
            &&& self.key_state is Some
            &&& 0 < iteration <= self.num_of_iterations
            &&& self.okm is Some ==> start == (iteration - 1) * self.algorithm.digest_len()
            &&& self.message_fits()
        }
        &&& self.salt is None ==> self.key_offset <= self.algorithm.digest_len()
        &&& self.key_offset <= usize::MAX
        &&& self.okm matches Some(okm) ==> okm.len() <= usize::MAX
    }

    /// T(n - 1) | info | n has a length that can be told.
    pub open spec fn message_fits(self) -> bool {
        self.algorithm.digest_len() + self.info.len() + 1 <= usize::MAX
    }

    /// A guard that is held is one that `mutex` has given out.
    pub open spec fn linked(self, mutex: MutexView) -> bool {
        self.held matches Some(owner) ==> owner == mutex.id && mutex.guards() > 0
    }

    /// The test, stopped.
    pub open spec fn stopped(self, failure: Failure) -> TestHkdfView {
        TestHkdfView { failure: Some(failure), ..self }
    }

    /// Length of the salt; a salt that is missing or empty counts as HashLen bytes.
    pub open spec fn salt_len(self) -> nat {
        match self.salt {
            Some(salt) => if salt.len() == 0 {
                self.algorithm.digest_len()
            } else {
                salt.len()
            },
            None => self.algorithm.digest_len(),
        }
    }

    /// T(n - 1); T(0) is empty.
    pub open spec fn previous_t(self) -> Seq<u8> {
        match self.stage {
            Stage::Expand { iteration, start } => if iteration > 1 {
                self.okm->0.subrange(start - self.algorithm.digest_len(), start as int)
            } else {
                Seq::empty()
            },
            Stage::Extract => Seq::empty(),
        }
    }

    /// The message of the HMAC: IKM to extract, T(n - 1) | info | n to expand.
    pub open spec fn message(self) -> Seq<u8> {
        match self.stage {
            Stage::Extract => self.ikm,
            Stage::Expand { iteration, start } => self.previous_t() + self.info + seq![
                (iteration % 256) as u8,
            ],
        }
    }

    /// What the driver gets when it asks for `len` bytes of input.
    pub open spec fn next_input(self, len: nat) -> Option<Seq<u8>> {
        if self.failure is Some || (self.stage is Expand && self.okm is None) {
            None
        } else {
            failure::next_piece(self.message(), self.message_offset, len)
        }
    }

    /// The test after the driver asked for `len` bytes of input.
    pub open spec fn input_taken(self, len: nat) -> TestHkdfView {
        match self.next_input(len) {
            Some(data) => TestHkdfView {
                message_offset: self.message_offset + data.len(),
                ..self
            },
            None => if self.failure is Some {
                self
            } else if self.stage is Expand && self.okm is None {
                self.stopped(Failure::MissingBuffer)
            } else {
                self.stopped(
                    Failure::NothingToRead {
                        offset: self.message_offset as usize,
                        size: self.message().len() as usize,
                    },
                )
            },
        }
    }

    /// What the driver gets when it asks for `len` bytes of the key: of the salt, or of HashLen zeros
    /// in its place, to extract; of PRK to expand.
    pub open spec fn next_key(self, len: nat) -> Option<Seq<u8>> {
        if self.failure is Some {
            None
        } else {
            match (self.stage, self.salt) {
                (Stage::Extract, None) => Some(
                    bytes::zeros(
                        bytes::least((self.algorithm.digest_len() - self.key_offset) as nat, len),
                    ),
                ),
                (Stage::Extract, Some(salt)) => failure::next_piece(salt, self.key_offset, len),
                (Stage::Expand { .. }, _) => failure::next_piece(self.prk, self.key_offset, len),
            }
        }
    }

    /// The test after the driver asked for `len` bytes of the key. After its last byte the key can
    /// be read anew.
    pub open spec fn key_taken(self, len: nat) -> TestHkdfView {
        let (key_len, size) = match (self.stage, self.salt) {
            (Stage::Extract, Some(salt)) => (self.salt_len(), salt.len()),
            (Stage::Extract, None) => (self.salt_len(), self.salt_len()),
            (Stage::Expand { .. }, _) => (self.prk.len(), self.prk.len()),
        };
        match self.next_key(len) {
            Some(data) => TestHkdfView {
                key_offset: if self.key_offset + data.len() == key_len {
                    0
                } else {
                    self.key_offset + data.len()
                },
                ..self
            },
            None => if self.failure is Some {
                self
            } else {
                self.stopped(
                    Failure::NothingToRead {
                        offset: self.key_offset as usize,
                        size: size as usize,
                    },
                )
            },
        }
    }

    /// The part of a piece of T(n) that OKM has room for.
    pub open spec fn okm_piece(self, data: Seq<u8>) -> Seq<u8> {
        let position = self.stage->start + self.output_offset;
        if position >= self.okm->0.len() {
            Seq::empty()
        } else {
            data.take(bytes::least((self.okm->0.len() - position) as nat, data.len()) as int)
        }
    }

    /// The test after a piece of a digest came: it goes to PRK, or to OKM as far as that reaches.
    pub open spec fn output(self, data: Seq<u8>) -> (TestHkdfView, Result<(), ErrorCode>) {
        let end = self.output_offset + data.len();
        if self.failure is Some {
            (self, Err(ErrorCode::FAIL))
        } else {
            match self.stage {
                Stage::Extract => if end > usize::MAX {
                    (self, Err(ErrorCode::SIZE))
                } else if end > self.prk.len() {
                    (
                        self.stopped(
                            Failure::TooMuchOutput {
                                offset: self.output_offset as usize,
                                size: self.prk.len() as usize,
                            },
                        ),
                        Err(ErrorCode::FAIL),
                    )
                } else {
                    (
                        TestHkdfView {
                            prk: written(self.prk, self.output_offset, data),
                            output_offset: end,
                            ..self
                        },
                        Ok(()),
                    )
                },
                Stage::Expand { start, .. } => match self.okm {
                    None => (self.stopped(Failure::MissingBuffer), Err(ErrorCode::FAIL)),
                    Some(okm) => {
                        let piece = self.okm_piece(data);
                        (
                            TestHkdfView {
                                okm: Some(
                                    if piece.len() == 0 {
                                        okm
                                    } else {
                                        written(okm, start as nat + self.output_offset, piece)
                                    },
                                ),
                                output_offset: self.output_offset + piece.len(),
                                ..self
                            },
                            Ok(()),
                        )
                    },
                },
            }
        }
    }

    /// What stops [`TestHkdf::run`] before it asks for the driver: the salt is longer than a key of
    /// the HMAC can be, PRK has not the length of a digest, or OKM is not at hand.
    pub open spec fn obstacle(self) -> Option<Failure> {
        if self.salt is Some && self.salt->0.len() > self.algorithm.block_size() {
            Some(
                Failure::WrongLength {
                    wanted: self.algorithm.block_size() as usize,
                    got: self.salt->0.len() as usize,
                },
            )
        } else if self.prk.len() != self.algorithm.digest_len() {
            Some(
                Failure::WrongLength {
                    wanted: self.algorithm.digest_len() as usize,
                    got: self.prk.len() as usize,
                },
            )
        } else if self.okm is None {
            Some(Failure::MissingBuffer)
        } else {
            None
        }
    }

    /// The test and what [`TestHkdf::run`] comes back with.
    pub open spec fn begun(self, mutex: MutexView) -> (TestHkdfView, Result<(), ErrorCode>) {
        if self.handle is None {
            (self, Err(ErrorCode::OFF))
        } else if self.failure is Some {
            (self, Err(ErrorCode::FAIL))
        } else {
            match self.obstacle() {
                Some(failure) => (self.stopped(failure), Err(ErrorCode::FAIL)),
                None => {
                    let ready = TestHkdfView {
                        num_of_iterations: hkdf::iterations(
                            self.okm->0.len(),
                            self.algorithm.digest_len(),
                        ),
                        key_state: Some(KeyState::InnerKey),
                        key_offset: 0,
                        message_offset: 0,
                        output_offset: 0,
                        ..self
                    };
                    match mutex.request_result(self.handle->0) {
                        Ok(_) => (ready, Ok(())),
                        Err(error) => (
                            ready.stopped(Failure::Request(error)),
                            Err(ErrorCode::FAIL),
                        ),
                    }
                },
            }
        }
    }

    /// The test about to compute T(`iteration`), which goes to OKM from `start` on.
    pub open spec fn expanding(self, iteration: usize, start: usize) -> TestHkdfView {
        TestHkdfView {
            stage: Stage::Expand { iteration, start },
            key_state: Some(KeyState::InnerKey),
            key_offset: 0,
            message_offset: 0,
            output_offset: 0,
            ..self
        }
    }

    /// What follows a digest that went well: the test as it computes the next T, or `None` if all of
    /// OKM is there.
    pub open spec fn next(self) -> Option<TestHkdfView> {
        match self.stage {
            Stage::Extract => if self.num_of_iterations == 0 || self.okm is None {
                None
            } else {
                Some(self.expanding(1, 0))
            },
            Stage::Expand { iteration, start } => if iteration == self.num_of_iterations
                || self.okm is None {
                None
            } else {
                Some(
                    self.expanding(
                        (iteration + 1) as usize,
                        (start + self.algorithm.digest_len()) as usize,
                    ),
                )
            },
        }
    }

    /// Where OKM and the expected OKM first differ, as far as both reach.
    pub open spec fn difference(self) -> Option<nat> {
        let len = bytes::least(self.okm->0.len(), self.correct->0.len()) as int;
        failure::first_mismatch(self.correct->0, 0, self.okm->0.take(len))
    }

    /// The test after it has ended: OKM must be the expected one.
    pub open spec fn finished(self, result: Result<(), ErrorCode>) -> TestHkdfView {
        let free = TestHkdfView { held: None, ..self };
        if self.failure is Some {
            free
        } else {
            match result {
                Err(error) => free.stopped(Failure::Driver(error)),
                Ok(_) => {
                    let compared = TestHkdfView { okm: None, correct: None, ..free };
                    if self.okm is None || self.correct is None {
                        compared.stopped(Failure::MissingBuffer)
                    } else {
                        match self.difference() {
                            Some(index) => compared.stopped(
                                Failure::Mismatch {
                                    expected: self.correct->0[index as int],
                                    index: index as usize,
                                },
                            ),
                            None => compared,
                        }
                    }
                },
            }
        }
    }

    /// Who is told when the test has ended so: the client, if OKM is the expected one.
    pub open spec fn told(self, result: Result<(), ErrorCode>) -> Option<usize> {
        if result is Ok && self.finished(result).failure is None {
            self.client
        } else {
            None
        }
    }
}

impl<H> Observed for TestHkdf<H> {
    closed spec fn log(&self) -> Seq<Call> {
        self.log@
    }

    open spec fn valid(&self) -> bool {
        self@.wf()
    }
}

/// The test goes from `before` to `after` when its HMAC driver is to compute what it has prepared.
pub open spec fn expanded(
    before: TestHkdfView,
    after: TestHkdfView,
    told: Option<usize>,
    mutex: MutexView,
    later: MutexView,
    log: Seq<Call>,
    later_log: Seq<Call>,
) -> bool {
    &&& told is None
    &&& if before.held is None {
        &&& after == before.finished(Err(ErrorCode::FAIL))
        &&& later == mutex
        &&& later_log == log
    } else {
        &&& later_log.len() > log.len()
        &&& later_log.take(log.len() as int) == log
        &&& match later_log[log.len() as int] {
            Call::Authenticate { algorithm, input_len, key_len, result } => {
                &&& algorithm == before.algorithm
                &&& input_len == before.message().len()
                &&& key_len == before.prk.len()
                &&& if result is Err {
                    &&& after == before.finished(result)
                    &&& later == mutex.released()
                    &&& later_log.len() == log.len() + 2
                    &&& later_log.last() is ClearData
                } else {
                    &&& after == before
                    &&& later == mutex
                    &&& later_log.len() == log.len() + 1
                }
            },
            _ => false,
        }
    }
}

/// The test goes from `before` to `after` when it acts on the end of a digest.
pub open spec fn resumed(
    before: TestHkdfView,
    after: TestHkdfView,
    told: Option<usize>,
    mutex: MutexView,
    later: MutexView,
    log: Seq<Call>,
    later_log: Seq<Call>,
) -> bool {
    let cleared = TestHkdfView { completion: None, ..before };
    match before.completion {
        None => told is None && after == before && later == mutex && later_log == log,
        Some(result) => if result is Err || before.failure is Some || cleared.next() is None {
            &&& told == cleared.told(result)
            &&& after == cleared.finished(result)
            &&& later == hash::mutex_after(mutex, before.held)
            &&& later_log == log + hash::ending(before.held)
        } else if !before.message_fits() {
            &&& told is None
            &&& after == cleared.finished(Err(ErrorCode::SIZE))
            &&& later == hash::mutex_after(mutex, before.held)
            &&& later_log == log + hash::ending(before.held)
        } else {
            expanded(cleared.next()->0, after, told, mutex, later, log, later_log)
        },
    }
}

/// The test goes from `before` to `after` when it is given the guard of its mutex.
pub open spec fn readied(
    before: TestHkdfView,
    after: TestHkdfView,
    right_kind: bool,
    mutex: MutexView,
    later: MutexView,
    log: Seq<Call>,
    later_log: Seq<Call>,
) -> bool {
    let extracting = TestHkdfView { stage: Stage::Extract, ..before };
    if !right_kind {
        &&& after == extracting.finished(Err(ErrorCode::INVAL))
        &&& later == mutex.released()
        &&& later_log == log
    } else {
        let holding = TestHkdfView { held: Some(mutex.id), ..extracting };
        &&& later_log.len() >= log.len() + 2
        &&& later_log.take(log.len() as int) == log
        &&& later_log[log.len() as int] == (Call::SetHmacClient { client: before.id })
        &&& match later_log[log.len() as int + 1] {
            Call::Authenticate { algorithm, input_len, key_len, result } => {
                &&& algorithm == before.algorithm
                &&& input_len == before.ikm.len()
                &&& key_len == before.salt_len()
                &&& if result is Err {
                    &&& after == holding.finished(result)
                    &&& later == mutex.released()
                    &&& later_log.len() == log.len() + 3
                    &&& later_log.last() is ClearData
                } else {
                    &&& after == holding
                    &&& later == mutex
                    &&& later_log.len() == log.len() + 2
                }
            },
            _ => false,
        }
    }
}

impl<H> TestHkdf<H> {
    /// A test numbered `id`, which is not registered with the mutex yet.
    pub fn new(
        id: usize,
        algorithm: Algorithm,
        ikm_buffer: Vec<u8>,
        salt_buffer: Option<Vec<u8>>,
        prk_buffer: Vec<u8>,
        info_buffer: Option<Vec<u8>>,
        okm_buffer: Vec<u8>,
        correct_buffer: Vec<u8>,
    ) -> (test: Self)
        ensures
            test.valid(),
            test.log() == Seq::<Call>::empty(),
            test@ == (TestHkdfView {
                id,
                handle: None,
                held: None,
                algorithm,
                stage: Stage::Extract,
                num_of_iterations: 0,
                ikm: ikm_buffer@,
                salt: contents(salt_buffer),
                prk: prk_buffer@,
                info: match info_buffer {
                    Some(info) => info@,
                    None => Seq::empty(),
                },
                okm: Some(okm_buffer@),
                correct: Some(correct_buffer@),
                key_state: None,
                key_offset: 0,
                message_offset: 0,
                output_offset: 0,
                client: None,
                failure: None,
                completion: None,
            }),
    {
        let info_buffer: Vec<u8> = match info_buffer {
            Some(info) => info,
            None => Vec::new(),
        };
        assert(okm_buffer.len() <= usize::MAX);
        TestHkdf {
            id,
            hmac_handle: None,
            hmac: None,
            algorithm,
            stage: Stage::Extract,
            num_of_iterations: 0,
            ikm_buffer,
            salt_buffer,
            prk_buffer,
            info_buffer,
            okm_buffer: Some(okm_buffer),
            correct_buffer: Some(correct_buffer),
            key_state: None,
            key_offset: 0,
            message_offset: 0,
            output_offset: 0,
            client: None,
            failure: None,
            completion: None,
            log: Ghost(Seq::empty()),
        }
    }

    /// What has stopped the test, if something has.
    pub fn failure(&self) -> (failure: Option<Failure>)
        ensures
            failure == self@.failure,
    {
        self.failure
    }

    /// Set the client that is told of the end of the test.
    pub fn set_client(&mut self, client: usize)
        requires
            old(self).valid(),
        ensures
            final(self).valid(),
            final(self).log() == old(self).log(),
            final(self)@ == (TestHkdfView { client: Some(client), ..old(self)@ }),
    {
        self.client = Some(client);
    }

    /// Register the test as a client of the mutex.
    pub fn register(&mut self, hmac_mutex: &mut DriverMutex<H>) -> (result: Result<(), ErrorCode>)
        requires
            old(self).valid(),
            old(hmac_mutex)@.wf(),
        ensures
            final(self).valid(),
            final(self).log() == old(self).log(),
            final(hmac_mutex)@.wf(),
            final(hmac_mutex).guarded() == old(hmac_mutex).guarded(),
            final(self)@ == (TestHkdfView { handle: final(self)@.handle, ..old(self)@ }),
            driver_mutex::joined(
                old(self)@.handle,
                final(self)@.handle,
                old(hmac_mutex)@,
                final(hmac_mutex)@,
                old(self)@.id,
                result,
            ),
    {
        if self.hmac_handle.is_some() {
            return Err(ErrorCode::ALREADY);
        }
        match hmac_mutex.add_client(self.id) {
            Some(handle) => {
                self.hmac_handle = Some(handle);
                Ok(())
            },
            None => Err(ErrorCode::NOMEM),
        }
    }

    /// Finds what stops the test before it has begun.
    fn find_obstacle(&self) -> (obstacle: Option<Failure>)
        ensures
            obstacle == self@.obstacle(),
    {
        if let Some(salt) = &self.salt_buffer {
            let wanted: usize = self.algorithm.get_block_size();
            let got: usize = salt.len();
            if got > wanted {
                return Some(Failure::WrongLength { wanted, got });
            }
        }
        let wanted: usize = self.algorithm.get_digest_len();
        let got: usize = self.prk_buffer.len();
        if got != wanted {
            return Some(Failure::WrongLength { wanted, got });
        }
        if self.okm_buffer.is_none() {
            return Some(Failure::MissingBuffer);
        }
        None
    }

    /// Starts the test: requests the driver. `OFF` if the test is not registered; `FAIL` if it is
    /// stopped.
    pub fn run(&mut self, hmac_mutex: &mut DriverMutex<H>) -> (result: Result<(), ErrorCode>)
        requires
            old(self).valid(),
            old(hmac_mutex)@.wf(),
            old(self)@.handle matches Some(handle) ==> old(hmac_mutex)@.admits(handle),
        ensures
            final(self).valid(),
            final(self).log() == old(self).log(),
            final(hmac_mutex)@.wf(),
            final(hmac_mutex).guarded() == old(hmac_mutex).guarded(),
            final(self)@ == old(self)@.begun(old(hmac_mutex)@).0,
            result is Ok <==> old(self)@.begun(old(hmac_mutex)@).1 is Ok,
            result is Err ==> result->Err_0 == old(self)@.begun(old(hmac_mutex)@).1->Err_0,
            final(hmac_mutex)@ == (if result is Ok {
                old(hmac_mutex)@.requested(old(self)@.handle->0)
            } else {
                old(hmac_mutex)@
            }),
    {
        let handle = match self.hmac_handle {
            Some(handle) => handle,
            None => {
                return Err(ErrorCode::OFF);
            },
        };
        if self.failure.is_some() {
            return Err(ErrorCode::FAIL);
        }
        let obstacle = self.find_obstacle();
        if obstacle.is_some() {
            self.failure = obstacle;
            return Err(ErrorCode::FAIL);
        }
        let okm_len: usize = match &self.okm_buffer {
            Some(okm) => okm.len(),
            None => 0,
        };
        let hash_len: usize = self.algorithm.get_digest_len();
        self.num_of_iterations = count_iterations(okm_len, hash_len);
        self.key_state = Some(KeyState::InnerKey);
        self.key_offset = 0;
        self.message_offset = 0;
        self.output_offset = 0;
        match hmac_mutex.request(handle) {
            Ok(()) => Ok(()),
            Err(error) => {
                self.failure = Some(Failure::Request(error));
                Err(ErrorCode::FAIL)
            },
        }
    }

    /// The message of the HMAC.
    fn message(&self) -> (message: Vec<u8>)
        requires
            self.valid(),
            self@.stage is Expand ==> self@.okm is Some,
        ensures
            message@ == self@.message(),
            message@.len() <= usize::MAX,
    {
        let mut message: Vec<u8> = Vec::new();
        match self.stage {
            Stage::Extract => {
                message.extend_from_slice(self.ikm_buffer.as_slice());
                assert(message@ =~= self@.message());
            },
            Stage::Expand { iteration, start } => {
                proof {
                    hkdf::lemma_iteration_fits(
                        self@.okm->0.len(),
                        self@.algorithm.digest_len(),
                        iteration as nat,
                    );
                }
                if iteration > 1 {
                    if let Some(okm) = &self.okm_buffer {
                        let hash_len: usize = self.algorithm.get_digest_len();
                        message.extend_from_slice(
                            vstd::slice::slice_subrange(okm.as_slice(), start - hash_len, start),
                        );
                    }
                }
                assert(message@ =~= self@.previous_t());
                message.extend_from_slice(self.info_buffer.as_slice());
                message.push((iteration % 256) as u8);
                assert(message@ =~= self@.message());
            },
        }
        let len: usize = message.len();
        message
    }

    fn take_input(&mut self, input: &mut [u8]) -> (count: Result<usize, ErrorCode>)
        requires
            old(self).valid(),
        ensures
            final(self).valid(),
            final(self).log() == old(self).log(),
            final(self)@ == old(self)@.input_taken(old(input)@.len()),
            delivered(
                old(self)@.next_input(old(input)@.len()),
                count,
                old(input)@,
                final(input)@,
            ),
    {
        if self.failure.is_some() {
            return Err(ErrorCode::FAIL);
        }
        if self.stage != Stage::Extract && self.okm_buffer.is_none() {
            self.failure = Some(Failure::MissingBuffer);
            return Err(ErrorCode::FAIL);
        }
        let message = self.message();
        let offset: usize = self.message_offset;
        match failure::copy_piece(message.as_slice(), offset, input) {
            Some(read_len) => {
                self.message_offset = offset + read_len;
                Ok(read_len)
            },
            None => {
                self.failure = Some(Failure::NothingToRead { offset, size: message.len() });
                Err(ErrorCode::FAIL)
            },
        }
    }

    fn take_key(&mut self, key: &mut [u8]) -> (count: Result<usize, ErrorCode>)
        requires
            old(self).valid(),
            old(self)@.key_state is Some,
        ensures
            final(self).valid(),
            final(self).log() == old(self).log(),
            final(self)@ == old(self)@.key_taken(old(key)@.len()),
            delivered(old(self)@.next_key(old(key)@.len()), count, old(key)@, final(key)@),
    {
        if self.failure.is_some() {
            return Err(ErrorCode::FAIL);
        }
        let offset: usize = self.key_offset;
        let hash_len: usize = self.algorithm.get_digest_len();
        let expanding = self.stage != Stage::Extract;
        let read: Option<usize>;
        let key_len: usize;
        let size: usize;
        if expanding {
            key_len = self.prk_buffer.len();
            size = key_len;
            read = failure::copy_piece(self.prk_buffer.as_slice(), offset, key);
        } else {
            match &self.salt_buffer {
                Some(salt) => {
                    size = salt.len();
                    key_len = if size == 0 {
                        hash_len
                    } else {
                        size
                    };
                    read = failure::copy_piece(salt.as_slice(), offset, key);
                },
                None => {
                    key_len = hash_len;
                    size = hash_len;
                    let room: usize = key.len();
                    let count: usize = if hash_len - offset < room {
                        hash_len - offset
                    } else {
                        room
                    };
                    let ghost given = key@;
                    let zeros = [0u8;64];
                    bytes::copy_into(key, 0, vstd::slice::slice_subrange(&zeros, 0, count));
                    assert(key@ =~= bytes::zeros(count as nat) + given.skip(count as int));
                    read = Some(count);
                },
            }
        }
        match read {
            Some(read_len) => {
                let updated_offset: usize = offset + read_len;
                self.key_offset = if updated_offset == key_len {
                    0
                } else {
                    updated_offset
                };
                Ok(read_len)
            },
            None => {
                self.failure = Some(Failure::NothingToRead { offset, size });
                Err(ErrorCode::FAIL)
            },
        }
    }

    fn take_output(&mut self, output: &[u8]) -> (result: Result<(), ErrorCode>)
        requires
            old(self).valid(),
        ensures
            final(self).valid(),
            final(self).log() == old(self).log(),
            final(self)@ == old(self)@.output(output@).0,
            result is Ok <==> old(self)@.output(output@).1 is Ok,
            result is Err ==> result->Err_0 == old(self)@.output(output@).1->Err_0,
    {
        if self.failure.is_some() {
            return Err(ErrorCode::FAIL);
        }
        let ghost before = self@;
        let offset: usize = self.output_offset;
        match self.stage {
            Stage::Extract => {
                let size: usize = self.prk_buffer.len();
                let end: usize = match offset.checked_add(output.len()) {
                    Some(end) => end,
                    None => {
                        return Err(ErrorCode::SIZE);
                    },
                };
                if end > size {
                    self.failure = Some(Failure::TooMuchOutput { offset, size });
                    return Err(ErrorCode::FAIL);
                }
                bytes::copy_into(self.prk_buffer.as_mut_slice(), offset, output);
                assert(self.prk_buffer@ =~= written(before.prk, offset as nat, output@));
                self.output_offset = end;
                Ok(())
            },
            Stage::Expand { iteration, start } => {
                let mut okm = match self.okm_buffer.take() {
                    Some(okm) => okm,
                    None => {
                        self.failure = Some(Failure::MissingBuffer);
                        return Err(ErrorCode::FAIL);
                    },
                };
                let len: usize = okm.len();
                if offset < len && start < len - offset {
                    let position: usize = start + offset;
                    let room: usize = len - position;
                    let count: usize = if room < output.len() {
                        room
                    } else {
                        output.len()
                    };
                    let piece: &[u8] = vstd::slice::slice_subrange(output, 0, count);
                    assert(piece@ =~= before.okm_piece(output@));
                    bytes::copy_into(okm.as_mut_slice(), position, piece);
                    assert(okm@ =~= written(before.okm->0, position as nat, piece@));
                    assert(count == 0 ==> okm@ =~= before.okm->0);
                    self.output_offset = offset + count;
                }
                self.okm_buffer = Some(okm);
                Ok(())
            },
        }
    }
}

/// N: how many digests of `hash_len` bytes make up `len` bytes.
fn count_iterations(len: usize, hash_len: usize) -> (count: usize)
    requires
        hash_len > 0,
    ensures
        count == hkdf::iterations(len as nat, hash_len as nat),
{
    let whole: usize = len / hash_len;
    if len % hash_len == 0 {
        whole
    } else {
        assert(whole < usize::MAX) by (nonlinear_arith)
            requires
                whole == len / hash_len,
                len % hash_len != 0,
                hash_len > 0,
                len <= usize::MAX,
        ;
        whole + 1
    }
}

/// A request for bytes was answered by `piece` at the front of the buffer, or by `FAIL`.
pub open spec fn delivered(
    piece: Option<Seq<u8>>,
    count: Result<usize, ErrorCode>,
    before: Seq<u8>,
    after: Seq<u8>,
) -> bool {
    match piece {
        Some(data) => {
            &&& count is Ok
            &&& count->Ok_0 == data.len()
            &&& data.len() <= before.len()
            &&& after == data + before.skip(data.len() as int)
        },
        None => count == Err::<usize, ErrorCode>(ErrorCode::FAIL) && after == before,
    }
}

impl<H: Hmac + Resource> TestHkdf<H> {
    /// Ends the test: the driver clears its data and is given back, and OKM is compared with the
    /// expected one. Returns the client that is to be told of the success.
    fn finish(&mut self, result: Result<(), ErrorCode>, hmac_mutex: &mut DriverMutex<H>) -> (told:
        Option<usize>)
        requires
            old(self).valid(),
            old(hmac_mutex)@.wf(),
            old(hmac_mutex).guarded().valid(),
            old(self)@.linked(old(hmac_mutex)@),
        ensures
            final(self).valid(),
            final(self).log() == old(self).log(),
            final(self)@ == old(self)@.finished(result),
            told == old(self)@.told(result),
            final(hmac_mutex)@.wf(),
            final(hmac_mutex).guarded().valid(),
            final(hmac_mutex)@ == hash::mutex_after(old(hmac_mutex)@, old(self)@.held),
            final(hmac_mutex).guarded().log() == old(hmac_mutex).guarded().log() + hash::ending(
                old(self)@.held,
            ),
    {
        let ghost log = hmac_mutex.guarded().log();
        let ghost before = self@;
        assert(log + Seq::<Call>::empty() =~= log);
        if let Some(guard) = self.hmac.take() {
            hmac_mutex.resource(&guard).clear_data();
            assert(hmac_mutex.guarded().log() =~= log + seq![Call::ClearData]);
            hmac_mutex.release(guard);
        }
        if self.failure.is_some() {
            return None;
        }
        if let Err(error) = result {
            self.failure = Some(Failure::Driver(error));
            return None;
        }
        let okm = self.okm_buffer.take();
        let correct = self.correct_buffer.take();
        if let (Some(okm), Some(correct)) = (okm, correct) {
            let len: usize = if okm.len() < correct.len() {
                okm.len()
            } else {
                correct.len()
            };
            let front: &[u8] = vstd::slice::slice_subrange(okm.as_slice(), 0, len);
            assert(front@ =~= before.okm->0.take(len as int));
            proof {
                failure::lemma_first_mismatch(correct@, 0, front@);
            }
            match failure::find_mismatch(correct.as_slice(), 0, front) {
                Some(index) => {
                    self.failure = Some(Failure::Mismatch { expected: correct[index], index });
                    None
                },
                None => self.client,
            }
        } else {
            self.failure = Some(Failure::MissingBuffer);
            None
        }
    }

    /// Takes the guard of the driver, makes the test its client and has it compute PRK from salt and
    /// IKM.
    pub fn ready(&mut self, resource: DriverMutexAny, hmac_mutex: &mut DriverMutex<H>)
        requires
            old(self).valid(),
            old(hmac_mutex)@.wf(),
            old(hmac_mutex).guarded().valid(),
            resource.owner() == old(hmac_mutex)@.id,
            old(hmac_mutex)@.guards() > 0,
            old(self)@.held is None,
        ensures
            final(self).valid(),
            final(self).log() == old(self).log(),
            final(hmac_mutex)@.wf(),
            final(hmac_mutex).guarded().valid(),
            readied(
                old(self)@,
                final(self)@,
                resource.kind() == H::kind(),
                old(hmac_mutex)@,
                final(hmac_mutex)@,
                old(hmac_mutex).guarded().log(),
                final(hmac_mutex).guarded().log(),
            ),
    {
        let ghost log = hmac_mutex.guarded().log();
        self.stage = Stage::Extract;
        match resource.downcast::<H>() {
            Err(resource) => {
                hmac_mutex.release_any(resource);
                let ghost middle = hmac_mutex.guarded().log();
                self.finish(Err(ErrorCode::INVAL), hmac_mutex);
                assert(middle + Seq::<Call>::empty() =~= middle);
            },
            Ok(guard) => {
                let hash_len: usize = self.algorithm.get_digest_len();
                let key_len: usize = match &self.salt_buffer {
                    Some(salt) => {
                        if salt.len() == 0 {
                            hash_len
                        } else {
                            salt.len()
                        }
                    },
                    None => hash_len,
                };
                let input_len: usize = self.ikm_buffer.len();
                hmac_mutex.resource(&guard).set_hmac_client(self.id);
                let result = hmac_mutex.resource(&guard).authenticate(
                    self.algorithm,
                    input_len,
                    key_len,
                );
                self.hmac = Some(guard);
                let ghost asked = Call::Authenticate {
                    algorithm: self.algorithm,
                    input_len,
                    key_len,
                    result,
                };
                let ghost calls = seq![Call::SetHmacClient { client: self.id }, asked];
                assert(hmac_mutex.guarded().log() =~= log + calls);
                assert((log + calls).take(log.len() as int) =~= log);
                assert((log + calls)[log.len() as int + 1] == asked);
                if result.is_err() {
                    self.finish(result, hmac_mutex);
                    let ghost all = log + calls.push(Call::ClearData);
                    assert(hmac_mutex.guarded().log() =~= all);
                    assert(all.take(log.len() as int) =~= log);
                    assert(all[log.len() as int + 1] == asked);
                }
            },
        }
    }

    /// Has the HMAC driver compute T(`iteration`), which goes to OKM from `start` on.
    fn expand(&mut self, iteration: usize, start: usize, hmac_mutex: &mut DriverMutex<H>)
        requires
            old(self)@.expanding(iteration, start).wf(),
            old(self)@.okm is Some,
            old(hmac_mutex)@.wf(),
            old(hmac_mutex).guarded().valid(),
            old(self)@.linked(old(hmac_mutex)@),
        ensures
            final(self).valid(),
            final(self).log() == old(self).log(),
            final(hmac_mutex)@.wf(),
            final(hmac_mutex).guarded().valid(),
            expanded(
                old(self)@.expanding(iteration, start),
                final(self)@,
                None,
                old(hmac_mutex)@,
                final(hmac_mutex)@,
                old(hmac_mutex).guarded().log(),
                final(hmac_mutex).guarded().log(),
            ),
    {
        let ghost log = hmac_mutex.guarded().log();
        let ghost next = self@.expanding(iteration, start);
        self.stage = Stage::Expand { iteration, start };
        self.key_state = Some(KeyState::InnerKey);
        self.key_offset = 0;
        self.message_offset = 0;
        self.output_offset = 0;
        assert(self@ =~= next);
        let t_len: usize = if iteration > 1 {
            self.algorithm.get_digest_len()
        } else {
            0
        };
        proof {
            hkdf::lemma_iteration_fits(
                self@.okm->0.len(),
                self@.algorithm.digest_len(),
                iteration as nat,
            );
            assert(self@.previous_t().len() == t_len);
        }
        let input_len: usize = t_len + self.info_buffer.len() + 1;
        let key_len: usize = self.prk_buffer.len();
        match self.hmac.take() {
            None => {
                self.finish(Err(ErrorCode::FAIL), hmac_mutex);
                assert(log + Seq::<Call>::empty() =~= log);
            },
            Some(guard) => {
                let result = hmac_mutex.resource(&guard).authenticate(
                    self.algorithm,
                    input_len,
                    key_len,
                );
                self.hmac = Some(guard);
                let ghost asked = Call::Authenticate {
                    algorithm: self.algorithm,
                    input_len,
                    key_len,
                    result,
                };
                assert(hmac_mutex.guarded().log() =~= log.push(asked));
                assert(log.push(asked).take(log.len() as int) =~= log);
                assert(self@ =~= next);
                assert(next.message().len() == input_len);
                if result.is_err() {
                    self.finish(result, hmac_mutex);
                    let ghost all = log.push(asked).push(Call::ClearData);
                    assert(hmac_mutex.guarded().log() =~= all);
                    assert(all.take(log.len() as int) =~= log);
                }
            },
        }
    }

    /// Acts on the end of a digest, if it has come: PRK is followed by T(1), T(n) by T(n + 1), and
    /// the last T by the end of the test. Returns the client that is to be told of the success.
    pub fn resume(&mut self, hmac_mutex: &mut DriverMutex<H>) -> (told: Option<usize>)
        requires
            old(self).valid(),
            old(self)@.key_state is Some,
            old(hmac_mutex)@.wf(),
            old(hmac_mutex).guarded().valid(),
            old(self)@.linked(old(hmac_mutex)@),
        ensures
            final(self).valid(),
            final(self).log() == old(self).log(),
            final(hmac_mutex)@.wf(),
            final(hmac_mutex).guarded().valid(),
            resumed(
                old(self)@,
                final(self)@,
                told,
                old(hmac_mutex)@,
                final(hmac_mutex)@,
                old(hmac_mutex).guarded().log(),
                final(hmac_mutex).guarded().log(),
            ),
    {
        let result = match self.completion {
            Some(result) => result,
            None => {
                return None;
            },
        };
        self.completion = None;
        if result.is_err() || self.failure.is_some() {
            return self.finish(result, hmac_mutex);
        }
        let hash_len: usize = self.algorithm.get_digest_len();
        let (iteration, start): (usize, usize) = match self.stage {
            Stage::Extract => {
                if self.num_of_iterations == 0 || self.okm_buffer.is_none() {
                    return self.finish(result, hmac_mutex);
                }
                if self.info_buffer.len() >= usize::MAX - hash_len {
                    return self.finish(Err(ErrorCode::SIZE), hmac_mutex);
                }
                (1, 0)
            },
            Stage::Expand { iteration, start } => {
                if iteration == self.num_of_iterations || self.okm_buffer.is_none() {
                    return self.finish(result, hmac_mutex);
                }
                proof {
                    hkdf::lemma_iteration_fits(
                        self@.okm->0.len(),
                        self@.algorithm.digest_len(),
                        iteration as nat,
                    );
                    assert((iteration - 1) * (hash_len as int) + hash_len == iteration * (
                    hash_len as int)) by (nonlinear_arith);
                }
                (iteration + 1, start + hash_len)
            },
        };
        self.expand(iteration, start, hmac_mutex);
        None
    }
}

impl<H> Client for TestHkdf<H> {
    fn read_input(&mut self, input: &mut [u8]) -> (count: Result<usize, ErrorCode>)
        ensures
            final(self)@ == old(self)@.input_taken(old(input)@.len()),
            delivered(
                old(self)@.next_input(old(input)@.len()),
                count,
                old(input)@,
                final(input)@,
            ),
    {
        let count = self.take_input(input);
        proof {
            self.log@ = self.log@.push(
                Call::Read {
                    port: Port::Input,
                    offered: old(input)@,
                    buffer: input@,
                    count,
                },
            );
        }
        count
    }

    fn write_output(&mut self, output: &[u8]) -> (result: Result<(), ErrorCode>)
        ensures
            final(self)@ == old(self)@.output(output@).0,
            result is Ok <==> old(self)@.output(output@).1 is Ok,
            result is Err ==> result->Err_0 == old(self)@.output(output@).1->Err_0,
    {
        let result = self.take_output(output);
        proof {
            self.log@ = self.log@.push(
                Call::Write { port: Port::Output, data: output@, result },
            );
        }
        result
    }

    fn hash_done(&mut self, result: Result<(), ErrorCode>)
        ensures
            final(self)@ == (TestHkdfView { completion: Some(result), ..old(self)@ }),
    {
        self.completion = Some(result);
        proof {
            self.log@ = self.log@.push(Call::Done { result });
        }
    }
}

impl<H> HmacClient for TestHkdf<H> {
    /// The key that the stage needs; `ALREADY` before the test has begun.
    fn read_key(&mut self, key: &mut [u8]) -> (count: Result<usize, ErrorCode>)
        ensures
            if old(self)@.key_state is None {
                &&& count == Err::<usize, ErrorCode>(ErrorCode::ALREADY)
                &&& final(self)@ == old(self)@
            } else {
                &&& final(self)@ == old(self)@.key_taken(old(key)@.len())
                &&& delivered(
                    old(self)@.next_key(old(key)@.len()),
                    count,
                    old(key)@,
                    final(key)@,
                )
            },
    {
        let count = if self.key_state.is_none() {
            Err(ErrorCode::ALREADY)
        } else {
            self.take_key(key)
        };
        proof {
            self.log@ = self.log@.push(
                Call::Read {
                    port: Port::Key,
                    offered: old(key)@,
                    buffer: key@,
                    count,
                },
            );
        }
        count
    }
}

} // verus!
