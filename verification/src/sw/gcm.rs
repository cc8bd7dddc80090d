//! AES-128 GCM in software over an ECB driver.
use crate::driver_mutex::{DriverMutex, DriverMutexAny, Kind, MutexView, Resource};
use crate::error::ErrorCode;
use crate::hil::cipher::{Aes128, Ecb, EcbClient, GcmClient, GcmTagLength, Operation};
use crate::hil::trace;
use crate::hil::trace::{Call, Observed, Port};
use crate::sw::bytes;
use crate::sw::gcm_math;
use crate::sw::session;
use crate::sw::session::{EcbSession, SessionView, BLOCK_SIZE};
use vstd::prelude::*;

verus! {

/// Size of an initialization vector, in bytes.
pub const IV_SIZE: usize = 12;

/// Where an operation stands.
#[derive(Clone, Copy, Debug, PartialEq, Eq, Structural)]
pub enum State {
    Idle,
    WaitingForEcb,
    HashKey,
    Payload,
    TagMask,
}

/// What follows a block that the driver has returned.
#[derive(Clone, Copy, Debug, PartialEq, Eq, Structural)]
pub enum Next {
    /// Hash the associated data.
    AssociatedData,
    /// Compute the mask of a block of payload.
    Payload,
    /// Compute the mask of the tag.
    TagMask,
    /// Hand out the payload, and when encrypting the tag, and finish.
    Output,
    /// Finish without output: the tag is wrong.
    Reject,
    /// Finish with an error: the counter cannot advance.
    Overflow,
}

/// What a GCM implementation is.
#[verifier::ext_equal]
pub struct GcmView {
    pub session: SessionView,
    pub state: State,
    pub operation: Operation,
    pub len: nat,
    /// Length of the associated data.
    pub aad_len: nat,
    pub tag_len: nat,
    /// How much of the payload has been masked.
    pub offset: nat,
    pub iv: Seq<u8>,
    /// The counter block.
    pub counter: Seq<u8>,
    pub hash_key: Seq<u8>,
    pub hash: Seq<u8>,
    pub tag: Seq<u8>,
    pub workspace: Seq<u8>,
    /// What the client gave as input.
    pub input: Seq<u8>,
    /// The associated data that the client gave.
    pub associated_data: Seq<u8>,
}

impl GcmView {
    /// An operation has the driver.
    pub open spec fn is_running(self) -> bool {
        self.state is HashKey || self.state is Payload || self.state is TagMask
    }

    /// What an accepted request has established.
    pub open spec fn is_requested(self) -> bool {
        &&& self.session.client is Some
        &&& self.session.handle is Some
        &&& self.len <= self.workspace.len()
        &&& self.tag_len <= 16
        &&& self.aad_len * 8 <= u64::MAX
        &&& self.len * 8 <= u64::MAX
        &&& bytes::block_count(self.len) < u32::MAX
    }

    /// Sizes are as they must be at all times.
    pub open spec fn is_sound(self) -> bool {
        &&& self.session.wf()
        &&& self.iv.len() == 12
        &&& self.counter.len() == 16
        &&& self.hash_key.len() == 16
        &&& self.hash.len() == 16
        &&& self.tag.len() == 16
        &&& self.workspace.len() <= usize::MAX
    }

    /// The invariant.
    pub open spec fn wf(self) -> bool {
        &&& self.is_sound()
        &&& !self.is_running() ==> self.session.guard is None
        &&& self.state is WaitingForEcb ==> self.is_requested()
        &&& self.is_running() ==> self.is_requested() && self.session.guard is Some
        &&& self.state is Payload ==> self.offset < self.len && self.offset % 16 == 0
    }

    /// The answer to a request.
    pub open spec fn crypt_result(self, mutex: MutexView, len: nat, aad_len: nat) -> Result<
        (),
        ErrorCode,
    > {
        if !(self.state is Idle) {
            Err(ErrorCode::BUSY)
        } else if self.session.client is None || self.session.handle is None {
            Err(ErrorCode::OFF)
        } else if len > self.workspace.len() {
            Err(ErrorCode::SIZE)
        } else if len * 8 > u64::MAX || aad_len * 8 > u64::MAX {
            Err(ErrorCode::SIZE)
        } else if bytes::block_count(len) > u32::MAX - 1 {
            Err(ErrorCode::SIZE)
        } else {
            mutex.request_result(self.session.handle->0)
        }
    }

    /// The mode after a request that was refused: it has the parameters of the request if only the
    /// mutex refused it.
    pub open spec fn refused(
        self,
        len: nat,
        aad_len: nat,
        tag_len: nat,
        operation: Operation,
    ) -> GcmView {
        if self.state is Idle && self.session.client is Some && self.session.handle is Some && len
            <= self.workspace.len() && len * 8 <= u64::MAX && aad_len * 8 <= u64::MAX
            && bytes::block_count(len) <= u32::MAX - 1 {
            GcmView { operation, len, aad_len, tag_len, ..self }
        } else {
            self
        }
    }

    /// What `calls` make of an operation that has just got the driver: they must read a key, an
    /// initialization vector, when decrypting the tag, and the whole input, and end it where one
    /// of these fails.
    pub open spec fn initialized(self, calls: Seq<Call>) -> Option<Result<GcmView, ErrorCode>> {
        if calls.len() == 0 {
            None
        } else {
            match calls[0] {
                Call::Fill { port: Port::Key, buffer: key, result, .. } => if key.len() != 16 {
                    None
                } else {
                    match result {
                        Err(error) => if calls.len() == 1 {
                            Some(Err(error))
                        } else {
                            None
                        },
                        Ok(()) => if calls.len() == 1 {
                            None
                        } else {
                            self.initialized_with_key(key, calls.skip(1))
                        },
                    }
                },
                _ => None,
            }
        }
    }

    /// What `calls`, the first of which reads the initialization vector, make of an operation that
    /// has its key.
    pub open spec fn initialized_with_key(self, key: Seq<u8>, calls: Seq<Call>) -> Option<
        Result<GcmView, ErrorCode>,
    > {
        match calls[0] {
            Call::Fill { port: Port::Iv, buffer: iv, result, .. } => if iv.len() != 12 {
                None
            } else {
                match result {
                    Err(error) => if calls.len() == 1 {
                        Some(Err(error))
                    } else {
                        None
                    },
                    Ok(()) => match self.operation {
                        Operation::Encrypt => self.initialized_with_tag(
                            key,
                            iv,
                            bytes::zeros(16),
                            calls.skip(1),
                        ),
                        Operation::Decrypt => if calls.len() == 1 {
                            None
                        } else {
                            self.initialized_with_iv(key, iv, calls.skip(1))
                        },
                    },
                }
            },
            _ => None,
        }
    }

    /// What `calls`, the first of which reads the tag, make of a decryption that has its key and
    /// initialization vector.
    pub open spec fn initialized_with_iv(
        self,
        key: Seq<u8>,
        iv: Seq<u8>,
        calls: Seq<Call>,
    ) -> Option<Result<GcmView, ErrorCode>> {
        match calls[0] {
            Call::Fill { port: Port::Tag, buffer: tag, result, .. } => if tag.len() != self.tag_len {
                None
            } else {
                match result {
                    Err(error) => if calls.len() == 1 {
                        Some(Err(error))
                    } else {
                        None
                    },
                    Ok(()) => self.initialized_with_tag(
                        key,
                        iv,
                        tag + bytes::zeros((16 - tag.len()) as nat),
                        calls.skip(1),
                    ),
                }
            },
            _ => None,
        }
    }

    /// What `calls`, which read the input, make of an operation that has all but that.
    pub open spec fn initialized_with_tag(
        self,
        key: Seq<u8>,
        iv: Seq<u8>,
        tag: Seq<u8>,
        calls: Seq<Call>,
    ) -> Option<Result<GcmView, ErrorCode>> {
        match trace::gather_outcome(calls, Port::Input, self.len) {
            Some(Ok(input)) => Some(
                Ok(
                    GcmView {
                        session: SessionView { key, ..self.session },
                        iv,
                        tag,
                        workspace: input + self.workspace.skip(input.len() as int),
                        input,
                        ..self
                    },
                ),
            ),
            Some(Err(error)) => Some(Err(error)),
            None => None,
        }
    }

    /// This operation after `calls` that failed to initialize it. Until all that comes before the
    /// input has come, nothing changes; input that fails leaves in the workspace what has come of it.
    pub open spec fn stranded(self, calls: Seq<Call>) -> GcmView {
        if session::reached_input(calls) {
            let (tag, reads) = match self.operation {
                Operation::Encrypt => (Seq::empty(), calls.skip(2)),
                Operation::Decrypt => (calls[2]->Fill_buffer, calls.skip(3)),
            };
            GcmView {
                session: SessionView { key: calls[0]->Fill_buffer, ..self.session },
                iv: calls[1]->Fill_buffer,
                tag: tag + bytes::zeros((16 - tag.len()) as nat),
                workspace: trace::read_into(self.workspace, reads, self.len),
                ..self
            }
        } else {
            self
        }
    }

    /// The operation with the hash key asked for.
    pub open spec fn keyed(self) -> GcmView {
        GcmView {
            state: State::HashKey,
            session: self.session.staged(bytes::zeros(16)),
            ..self
        }
    }

    /// The operation with the payload in its workspace hashed.
    pub open spec fn payload_hashed(self) -> GcmView {
        GcmView {
            hash: gcm_math::ghash(
                self.hash_key,
                self.hash,
                self.workspace.take(self.len as int),
                bytes::block_count(self.len),
            ),
            ..self
        }
    }

    /// The operation with the lengths hashed.
    pub open spec fn lengths_hashed(self) -> GcmView {
        GcmView {
            hash: gcm_math::ghash(
                self.hash_key,
                self.hash,
                gcm_math::length_block(self.aad_len, self.len),
                1,
            ),
            ..self
        }
    }

    /// The operation about to mask its payload.
    pub open spec fn payload_started(self) -> GcmView {
        GcmView { offset: 0, counter: gcm_math::counter_block(self.iv, 2), ..self }
    }

    /// The operation with its associated data hashed, and what follows.
    pub open spec fn aad_hashed(self, aad: Seq<u8>) -> (GcmView, Next) {
        let view = GcmView {
            hash: gcm_math::ghash(
                self.hash_key,
                self.hash,
                aad,
                bytes::block_count(self.aad_len),
            ),
            associated_data: aad,
            ..self
        };
        match self.operation {
            Operation::Encrypt => if self.len > 0 {
                (view.payload_started(), Next::Payload)
            } else {
                (view.lengths_hashed(), Next::TagMask)
            },
            Operation::Decrypt => (view.payload_hashed().lengths_hashed(), Next::TagMask),
        }
    }

    /// The operation with a mask applied to its payload.
    pub open spec fn masked(self, output: Seq<u8>) -> GcmView {
        let end = if self.len - self.offset < 16 {
            self.len
        } else {
            self.offset + 16
        };
        GcmView {
            workspace: Seq::new(
                self.workspace.len(),
                |i: int|
                    if self.offset <= i < end {
                        self.workspace[i] ^ output[i - self.offset]
                    } else {
                        self.workspace[i]
                    },
            ),
            offset: end,
            ..self
        }
    }

    /// The count in the counter block.
    pub open spec fn count(self) -> nat {
        bytes::be_value(self.counter.skip(12))
    }

    /// The operation with its counter block counted one further.
    pub open spec fn advanced(self) -> GcmView {
        GcmView {
            counter: self.counter.take(12) + bytes::be_bytes(self.count() + 1, 4),
            ..self
        }
    }

    /// The operation after the mask of a block of payload, and what follows.
    pub open spec fn payload_block_done(self, output: Seq<u8>) -> (GcmView, Next) {
        let view = self.masked(output);
        if view.offset < view.len {
            if view.count() < u32::MAX {
                (view.advanced(), Next::Payload)
            } else {
                (view, Next::Overflow)
            }
        } else {
            match self.operation {
                Operation::Encrypt => (view.payload_hashed().lengths_hashed(), Next::TagMask),
                Operation::Decrypt => (view, Next::Output),
            }
        }
    }

    /// The operation after the mask of the tag, and what follows.
    pub open spec fn tag_mask_done(self, output: Seq<u8>) -> (GcmView, Next) {
        let computed = bytes::xor(self.hash, output);
        match self.operation {
            Operation::Encrypt => (GcmView { tag: computed, ..self }, Next::Output),
            Operation::Decrypt => if computed.take(self.tag_len as int) != self.tag.take(
                self.tag_len as int,
            ) {
                (self, Next::Reject)
            } else if self.len == 0 {
                (self, Next::Output)
            } else {
                (self.payload_started(), Next::Payload)
            },
        }
    }

    /// The operation after a block that the driver has returned, and what follows.
    pub open spec fn absorbed(self, output: Seq<u8>) -> (GcmView, Next) {
        match self.state {
            State::HashKey => (
                GcmView { hash_key: output, hash: bytes::zeros(16), ..self },
                Next::AssociatedData,
            ),
            State::Payload => self.payload_block_done(output),
            _ => self.tag_mask_done(output),
        }
    }

    /// The operation with the block of `next` handed to the driver.
    pub open spec fn begun(self, next: Next) -> GcmView {
        match next {
            Next::Payload => GcmView {
                state: State::Payload,
                session: self.session.staged(self.counter),
                ..self
            },
            Next::TagMask => GcmView {
                state: State::TagMask,
                session: self.session.staged(gcm_math::counter_block(self.iv, 1)),
                ..self
            },
            _ => self,
        }
    }

    /// What must hold for `next` to follow.
    pub open spec fn may(self, next: Next) -> bool {
        &&& self.is_sound()
        &&& self.is_requested()
        &&& !(self.state is Idle)
        &&& self.session.guard is Some
        &&& next is Payload ==> self.offset < self.len && self.offset % 16 == 0
    }

    /// `later` is the operation ended with `result`: the driver is given back, and the client is
    /// told.
    pub open spec fn ended(
        self,
        result: Result<(), ErrorCode>,
        calls: Seq<Call>,
        later: GcmView,
        mutex: MutexView,
        later_mutex: MutexView,
    ) -> bool {
        &&& later == (GcmView {
            state: State::Idle,
            session: SessionView { guard: None, ..self.session },
            ..self
        })
        &&& later_mutex == (if self.session.guard is Some {
            mutex.released()
        } else {
            mutex
        })
        &&& calls == seq![Call::Done { result }]
    }

    /// `later` is this operation after its block was handed to the driver: it goes on if the
    /// driver takes the block, and ends with the driver's error if not.
    pub open spec fn launched(
        self,
        driver_calls: Seq<Call>,
        calls: Seq<Call>,
        later: GcmView,
        mutex: MutexView,
        later_mutex: MutexView,
    ) -> bool {
        &&& driver_calls.len() == 1
        &&& match driver_calls[0] {
            Call::EcbCrypt { len: 16, operation, result } => operation == Operation::Encrypt
                && match result {
                Ok(()) => later == self && later_mutex == mutex && calls.len() == 0,
                Err(error) => self.ended(Err(error), calls, later, mutex, later_mutex),
            },
            _ => false,
        }
    }

    /// `later` is this operation after the driver said how its block ended.
    pub open spec fn resumed(
        self,
        driver_calls: Seq<Call>,
        calls: Seq<Call>,
        later: GcmView,
        mutex: MutexView,
        later_mutex: MutexView,
    ) -> bool {
        let view = GcmView { session: SessionView { completion: None, ..self.session }, ..self };
        match self.session.completion {
            None => driver_calls.len() == 0 && calls.len() == 0 && later == self && later_mutex
                == mutex,
            Some(completion) => if self.state is Idle {
                driver_calls.len() == 0 && calls.len() == 0 && later == view && later_mutex == mutex
            } else if completion is Ok && self.session.exchanged() && self.is_running() {
                let (view, next) = view.absorbed(self.session.output);
                view.carried_out(next, driver_calls, calls, later, mutex, later_mutex)
            } else {
                let error = match completion {
                    Err(error) => error,
                    Ok(()) => ErrorCode::FAIL,
                };
                driver_calls.len() == 0 && view.ended(
                    Err(error),
                    calls,
                    later,
                    mutex,
                    later_mutex,
                )
            },
        }
    }

    /// `later` is this operation after the mutex handed out the driver.
    pub open spec fn readied(
        self,
        driver_calls: Seq<Call>,
        calls: Seq<Call>,
        later: GcmView,
        mutex: MutexView,
        later_mutex: MutexView,
    ) -> bool {
        let view = GcmView {
            session: SessionView { guard: Some(mutex.id), ..self.session },
            ..self
        };
        &&& driver_calls.len() > 0
        &&& driver_calls[0] == (Call::SetClient { client: self.session.id })
        &&& exists|n: int|
            0 <= n <= calls.len() && match view.initialized(#[trigger] calls.take(n)) {
                Some(Ok(view)) => view.keyed().launched(
                    driver_calls.skip(1),
                    calls.skip(n),
                    later,
                    mutex,
                    later_mutex,
                ),
                Some(Err(error)) => driver_calls.len() == 1 && view.stranded(calls.take(n)).ended(
                    Err(error),
                    calls.skip(n),
                    later,
                    mutex,
                    later_mutex,
                ),
                None => false,
            }
    }

    /// `later` is this operation after `next` was carried out, with the calls that were made to
    /// the driver and to the client.
    pub open spec fn carried_out(
        self,
        next: Next,
        driver_calls: Seq<Call>,
        calls: Seq<Call>,
        later: GcmView,
        mutex: MutexView,
        later_mutex: MutexView,
    ) -> bool {
        match next {
            Next::AssociatedData => exists|n: int, outcome: Result<Seq<u8>, ErrorCode>|
                0 <= n <= calls.len() && #[trigger] trace::blocks_outcome(
                    calls.take(n),
                    Port::AssociatedData,
                    self.aad_len,
                    outcome,
                ) && match outcome {
                    Ok(aad) => {
                        let (view, next) = self.aad_hashed(aad);
                        view.begun(next).launched(
                            driver_calls,
                            calls.skip(n),
                            later,
                            mutex,
                            later_mutex,
                        )
                    },
                    Err(error) => driver_calls.len() == 0 && GcmView {
                        hash: later.hash,
                        ..self
                    }.ended(Err(error), calls.skip(n), later, mutex, later_mutex),
                },
            Next::Output => {
                &&& driver_calls.len() == 0
                &&& calls.len() > 1
                &&& match calls[0] {
                    Call::Write { port: Port::Output, data, result } => {
                        &&& data == self.workspace.take(self.len as int)
                        &&& if result is Err || self.operation is Decrypt {
                            self.ended(result, calls.skip(1), later, mutex, later_mutex)
                        } else {
                            match calls[1] {
                                Call::Write { port: Port::Tag, data: tag, result } => tag
                                    == self.tag.take(self.tag_len as int) && self.ended(
                                    result,
                                    calls.skip(2),
                                    later,
                                    mutex,
                                    later_mutex,
                                ),
                                _ => false,
                            }
                        }
                    },
                    _ => false,
                }
            },
            Next::Reject => driver_calls.len() == 0 && self.ended(
                Err(ErrorCode::FAIL),
                calls,
                later,
                mutex,
                later_mutex,
            ),
            Next::Overflow => driver_calls.len() == 0 && self.ended(
                Err(ErrorCode::SIZE),
                calls,
                later,
                mutex,
                later_mutex,
            ),
            _ => self.begun(next).launched(driver_calls, calls, later, mutex, later_mutex),
        }
    }
}

/// AES-128 GCM implemented in software using an encryption-only ECB driver.
///
/// The `workspace` passed to [`SoftwareGcm::new`] must be large enough to hold the payload.
/// Decryption authenticates the ciphertext before it is decrypted.
pub struct SoftwareGcm<E> {
    session: EcbSession<E>,
    workspace: Vec<u8>,
    state: State,
    operation: Operation,
    len: usize,
    associated_data_len: usize,
    tag_len: usize,
    offset: usize,
    iv: [u8; 12],
    counter: [u8; 16],
    hash_key: [u8; 16],
    hash: [u8; 16],
    tag: [u8; 16],
    input: Ghost<Seq<u8>>,
    associated_data: Ghost<Seq<u8>>,
}

impl<E> View for SoftwareGcm<E> {
    type V = GcmView;

    closed spec fn view(&self) -> GcmView {
        GcmView {
            session: self.session@,
            state: self.state,
            operation: self.operation,
            len: self.len as nat,
            aad_len: self.associated_data_len as nat,
            tag_len: self.tag_len as nat,
            offset: self.offset as nat,
            iv: self.iv@,
            counter: self.counter@,
            hash_key: self.hash_key@,
            hash: self.hash@,
            tag: self.tag@,
            workspace: self.workspace@,
            input: self.input@,
            associated_data: self.associated_data@,
        }
    }
}

impl<E: Resource> Resource for SoftwareGcm<E> {
    open spec fn kind() -> Kind {
        Kind { number: 8, over: E::kind().number }
    }

    fn resource_kind() -> (kind: Kind) {
        Kind { number: 8, over: E::resource_kind().number }
    }
}

impl<E> Observed for SoftwareGcm<E> {
    closed spec fn log(&self) -> Seq<Call> {
        self.session.log()
    }

    open spec fn valid(&self) -> bool {
        self@.wf()
    }
}

impl<E> SoftwareGcm<E> {
    /// Create a software GCM implementation numbered `id` with a workspace.
    pub fn new(id: usize, workspace: Vec<u8>) -> (gcm: Self)
        ensures
            gcm.valid(),
            gcm.log() == Seq::<Call>::empty(),
            gcm@.state is Idle,
            gcm@.workspace == workspace@,
            gcm@.session == SessionView::fresh(id),
    {
        assert(workspace.len() <= usize::MAX);
        SoftwareGcm {
            session: EcbSession::new(id),
            workspace,
            state: State::Idle,
            operation: Operation::Encrypt,
            len: 0,
            associated_data_len: 0,
            tag_len: 0,
            offset: 0,
            iv: [0u8;12],
            counter: [0u8;16],
            hash_key: [0u8;16],
            hash: [0u8;16],
            tag: [0u8;16],
            input: Ghost(Seq::empty()),
            associated_data: Ghost(Seq::empty()),
        }
    }

    /// Register this GCM implementation as a client of its ECB mutex. Returns `ALREADY` if it is
    /// registered, and `NOMEM` if the mutex has no room for another client.
    pub fn register(&mut self, ecb_mutex: &mut DriverMutex<E>) -> (result: Result<(), ErrorCode>)
        requires
            old(self).valid(),
            old(ecb_mutex)@.wf(),
        ensures
            final(self).valid(),
            final(ecb_mutex)@.wf(),
            final(ecb_mutex).guarded() == old(ecb_mutex).guarded(),
            final(self).log() == old(self).log(),
            final(self)@ == (GcmView { session: final(self)@.session, ..old(self)@ }),
            session::register_result(
                old(self)@.session,
                old(ecb_mutex)@,
                result,
                final(self)@.session,
                final(ecb_mutex)@,
            ),
    {
        self.session.register(ecb_mutex)
    }

    /// Set the client that will receive callbacks for GCM operations.
    pub fn set_client(&mut self, client: usize)
        requires
            old(self).valid(),
        ensures
            final(self).valid(),
            final(self).log() == old(self).log(),
            final(self)@ == (GcmView {
                session: SessionView { client: Some(client), ..old(self)@.session },
                ..old(self)@
            }),
    {
        self.session.set_client(client);
    }

    /// Multiplies two elements of the field of GHASH.
    pub fn multiply(value: [u8; 16], factor: [u8; 16]) -> (product: [u8; 16])
        ensures
            product@ == gcm_math::product(value@, factor@),
    {
        broadcast use bytes::lemma_be_bytes_len;

        let x: u128 = bytes::read_be(&value);
        let y: u128 = bytes::read_be(&factor);
        let mut sum: u128 = 0;
        let mut power: u128 = y;
        let mut n: u32 = 0;
        while n < 128
            invariant
                n <= 128,
                power == gcm_math::gf_power(y, n as nat),
                sum == gcm_math::gf_partial(x, y, n as nat),
            decreases 128 - n,
        {
            let shift: u128 = (127 - n) as u128;
            if (x >> shift) & 1 == 1 {
                sum = sum ^ power;
            }
            power = if power & 1 == 1 {
                (power >> 1) ^ gcm_math::REDUCTION
            } else {
                power >> 1
            };
            n = n + 1;
        }
        let mut product = [0u8;16];
        bytes::write_be(&mut product, BLOCK_SIZE, sum, BLOCK_SIZE);
        assert(product@ =~= gcm_math::product(value@, factor@));
        product
    }

    /// Hashes one block.
    fn hash_block(&mut self, block: [u8; 16])
        ensures
            final(self).log() == old(self).log(),
            final(self)@ == (GcmView {
                hash: gcm_math::product(bytes::xor(old(self)@.hash, block@), old(self)@.hash_key),
                ..old(self)@
            }),
    {
        let value = bytes::xor_blocks(self.hash, block);
        self.hash = Self::multiply(value, self.hash_key);
    }

    /// Hashes the payload in the workspace.
    fn hash_payload(&mut self)
        requires
            old(self)@.len <= old(self)@.workspace.len(),
        ensures
            final(self).log() == old(self).log(),
            final(self)@ == old(self)@.payload_hashed(),
    {
        let len: usize = self.len;
        let room: usize = self.workspace.len();
        let ghost data = self.workspace@.take(len as int);
        let ghost mut blocks: nat = 0;
        let mut offset: usize = 0;
        while offset < len
            invariant
                offset <= len <= room,
                len == old(self).len,
                room == self.workspace@.len(),
                data == self.workspace@.take(len as int),
                blocks == bytes::block_count(offset as nat),
                offset % 16 == 0 || offset == len,
                self.log() == old(self).log(),
                self@ == (GcmView {
                    hash: gcm_math::ghash(old(self)@.hash_key, old(self)@.hash, data, blocks),
                    ..old(self)@
                }),
            decreases len - offset,
        {
            let left: usize = len - offset;
            let block_len: usize = if left < BLOCK_SIZE {
                left
            } else {
                BLOCK_SIZE
            };
            let mut block = [0u8;16];
            let part = vstd::slice::slice_subrange(
                self.workspace.as_slice(),
                offset,
                offset + block_len,
            );
            bytes::copy_into(&mut block, 0, part);
            assert(block@ =~= bytes::block_at(data, offset as int));
            self.hash_block(block);
            offset = offset + block_len;
            proof {
                blocks = blocks + 1;
                assert((blocks - 1) * 16 == offset - block_len);
            }
        }
    }

    /// Hashes the lengths of associated data and payload.
    fn hash_lengths(&mut self)
        requires
            old(self)@.aad_len * 8 <= u64::MAX,
            old(self)@.len * 8 <= u64::MAX,
        ensures
            final(self).log() == old(self).log(),
            final(self)@ == old(self)@.lengths_hashed(),
    {
        broadcast use bytes::lemma_be_bytes_len;

        let mut block = [0u8;16];
        let associated_data_bits: u64 = (self.associated_data_len as u64) * 8;
        let payload_bits: u64 = (self.len as u64) * 8;
        bytes::write_be(&mut block, 8, associated_data_bits as u128, 8);
        bytes::write_be(&mut block, BLOCK_SIZE, payload_bits as u128, 8);
        let ghost lengths = gcm_math::length_block(self@.aad_len, self@.len);
        assert(block@ =~= lengths);
        assert(bytes::block_at(lengths, 0) =~= lengths);
        assert(gcm_math::ghash(self@.hash_key, self@.hash, lengths, 1) == gcm_math::product(
            bytes::xor(
                gcm_math::ghash(self@.hash_key, self@.hash, lengths, 0),
                bytes::block_at(lengths, 0),
            ),
            self@.hash_key,
        ));
        self.hash_block(block);
    }

    /// The counter block that masks the tag.
    fn initial_counter(&self) -> (counter: [u8; 16])
        ensures
            counter@ == gcm_math::counter_block(self@.iv, 1),
    {
        broadcast use bytes::lemma_be_bytes_len;

        let mut counter = [0u8;16];
        bytes::copy_into(&mut counter, 0, &self.iv);
        bytes::write_be(&mut counter, BLOCK_SIZE, 1, 4);
        assert(counter@ =~= gcm_math::counter_block(self@.iv, 1));
        counter
    }

    /// Counts the counter block one further. Returns `false`, and changes nothing, if it would
    /// wrap.
    fn increment_counter(&mut self) -> (advanced: bool)
        ensures
            final(self).log() == old(self).log(),
            advanced <==> old(self)@.count() < u32::MAX,
            advanced ==> final(self)@ == old(self)@.advanced(),
            !advanced ==> final(self)@ == old(self)@,
    {
        broadcast use bytes::lemma_be_bytes_len;

        let mut counter = self.counter;
        let counting = vstd::slice::slice_subrange(counter.as_slice(), IV_SIZE, BLOCK_SIZE);
        assert(counting@ =~= self.counter@.skip(12));
        let value: u128 = bytes::read_be(counting);
        if value >= u32::MAX as u128 {
            return false;
        }
        bytes::write_be(&mut counter, BLOCK_SIZE, value + 1, 4);
        self.counter = counter;
        assert(self.counter@ =~= old(self)@.advanced().counter);
        true
    }

    /// Prepares to mask the payload.
    fn start_payload(&mut self)
        ensures
            final(self).log() == old(self).log(),
            final(self)@ == old(self)@.payload_started(),
    {
        broadcast use bytes::lemma_be_bytes_len;

        self.offset = 0;
        self.counter = self.initial_counter();
        proof {
            assert(self.counter@.skip(12) =~= bytes::be_bytes(1, 4));
            assert(bytes::pow256(4) == 0x1_0000_0000) by {
                reveal_with_fuel(bytes::pow256, 5);
            }
            bytes::law_be_round_trip(1, 4);
        }
        self.increment_counter();
        assert(self.counter@ =~= gcm_math::counter_block(self@.iv, 2));
    }

    /// Takes the hash key. Returns what follows.
    fn hash_key_done(&mut self, hash_key: [u8; 16]) -> (next: Next)
        requires
            old(self)@.wf(),
            old(self)@.state is HashKey,
        ensures
            final(self)@.may(next),
            final(self).log() == old(self).log(),
            (final(self)@, next) == old(self)@.absorbed(hash_key@),
    {
        self.hash_key = hash_key;
        self.hash = [0u8;16];
        assert(self.hash@ =~= bytes::zeros(16));
        Next::AssociatedData
    }

    /// Applies the mask to a block of payload.
    fn mask_payload_block(&mut self, keystream: [u8; 16])
        requires
            old(self)@.wf(),
            old(self)@.state is Payload,
        ensures
            final(self).log() == old(self).log(),
            final(self)@ == old(self)@.masked(keystream@),
    {
        let offset: usize = self.offset;
        let left: usize = self.len - offset;
        let block_len: usize = if left < BLOCK_SIZE {
            left
        } else {
            BLOCK_SIZE
        };
        let room: usize = self.workspace.len();
        let ghost before = self@;
        let mut i: usize = 0;
        while i < block_len
            invariant
                i <= block_len <= 16,
                offset + block_len <= before.workspace.len(),
                room == before.workspace.len(),
                self.log() == old(self).log(),
                self@ == (GcmView { workspace: self@.workspace, ..before }),
                self@.workspace.len() == before.workspace.len(),
                forall|j: int|
                    0 <= j < before.workspace.len() ==> #[trigger] self@.workspace[j] == (
                    if offset <= j < offset + i {
                        before.workspace[j] ^ keystream@[j - offset]
                    } else {
                        before.workspace[j]
                    }),
            decreases block_len - i,
        {
            self.workspace[offset + i] = self.workspace[offset + i] ^ keystream[i];
            i = i + 1;
        }
        self.offset = offset + block_len;
        assert(self@ =~= before.masked(keystream@));
    }

    /// Takes the mask of a block of payload and applies it. Returns what follows.
    fn payload_block_done(&mut self, keystream: [u8; 16]) -> (next: Next)
        requires
            old(self)@.wf(),
            old(self)@.state is Payload,
        ensures
            final(self)@.may(next),
            final(self).log() == old(self).log(),
            (final(self)@, next) == old(self)@.payload_block_done(keystream@),
    {
        self.mask_payload_block(keystream);
        proof {
            lemma_ghash_len(
                self@.hash_key,
                self@.hash,
                self@.workspace.take(self@.len as int),
                bytes::block_count(self@.len),
            );
            lemma_hashes_len(self@);
            bytes::lemma_be_bytes_len(self@.count() + 1, 4);
        }
        if self.offset < self.len {
            if self.increment_counter() {
                Next::Payload
            } else {
                Next::Overflow
            }
        } else if self.operation == Operation::Encrypt {
            self.hash_payload();
            self.hash_lengths();
            Next::TagMask
        } else {
            Next::Output
        }
    }

    /// Takes the mask of the tag: masks the tag, or compares it with the one that was given.
    /// Returns what follows.
    fn tag_mask_done(&mut self, mask: [u8; 16]) -> (next: Next)
        requires
            old(self)@.wf(),
            old(self)@.state is TagMask,
        ensures
            final(self)@.may(next),
            final(self).log() == old(self).log(),
            (final(self)@, next) == old(self)@.tag_mask_done(mask@),
    {
        let computed_tag = bytes::xor_blocks(self.hash, mask);
        match self.operation {
            Operation::Encrypt => {
                self.tag = computed_tag;
                Next::Output
            },
            Operation::Decrypt => {
                let mut difference: u8 = 0;
                let mut i: usize = 0;
                while i < self.tag_len
                    invariant
                        i <= self.tag_len <= 16,
                        difference == 0 <==> forall|j: int|
                            0 <= j < i ==> #[trigger] computed_tag@[j] == self.tag@[j],
                    decreases self.tag_len - i,
                {
                    let a: u8 = computed_tag[i];
                    let b: u8 = self.tag[i];
                    let ghost before = difference;
                    difference = difference | (a ^ b);
                    assert(difference == 0 <==> before == 0 && a == b) by (bit_vector)
                        requires
                            difference == before | (a ^ b),
                    ;
                    i = i + 1;
                }
                proof {
                    let n = self.tag_len as int;
                    if difference == 0 {
                        assert(computed_tag@.take(n) =~= self.tag@.take(n));
                    } else {
                        let j = choose|j: int|
                            0 <= j < n && #[trigger] computed_tag@[j] != self.tag@[j];
                        assert(computed_tag@.take(n)[j] != self.tag@.take(n)[j]);
                    }
                    bytes::lemma_be_bytes_len(2, 4);
                }
                if difference != 0 {
                    Next::Reject
                } else if self.len == 0 {
                    Next::Output
                } else {
                    self.start_payload();
                    Next::Payload
                }
            },
        }
    }
}

/// Hashing keeps the size of the hash.
proof fn lemma_ghash_len(h: Seq<u8>, start: Seq<u8>, data: Seq<u8>, blocks: nat)
    requires
        start.len() == 16,
    ensures
        gcm_math::ghash(h, start, data, blocks).len() == 16,
{
    broadcast use bytes::lemma_be_bytes_len;

}

/// Hashing payload and lengths keeps the size of the hash.
proof fn lemma_hashes_len(view: GcmView)
    requires
        view.hash.len() == 16,
    ensures
        view.payload_hashed().hash.len() == 16,
        view.lengths_hashed().hash.len() == 16,
        view.payload_hashed().lengths_hashed().hash.len() == 16,
{
    lemma_ghash_len(
        view.hash_key,
        view.hash,
        view.workspace.take(view.len as int),
        bytes::block_count(view.len),
    );
    lemma_ghash_len(
        view.hash_key,
        view.hash,
        gcm_math::length_block(view.aad_len, view.len),
        1,
    );
    lemma_ghash_len(
        view.hash_key,
        view.payload_hashed().hash,
        gcm_math::length_block(view.aad_len, view.len),
        1,
    );
}

impl<E: Ecb<Aes128> + Resource> SoftwareGcm<E> {
    /// Initiate a GCM operation on `len` bytes.
    ///
    /// Returns `BUSY` while an operation is in progress, `OFF` if the client or the registration
    /// is missing, `SIZE` if a length is too large, and else what the mutex answers.
    pub fn crypt(
        &mut self,
        ecb_mutex: &mut DriverMutex<E>,
        len: usize,
        associated_data_len: usize,
        tag_len: GcmTagLength,
        operation: Operation,
    ) -> (result: Result<(), ErrorCode>)
        requires
            old(self).valid(),
            old(ecb_mutex)@.wf(),
            old(self)@.session.handle matches Some(handle) ==> old(ecb_mutex)@.admits(handle),
        ensures
            final(self).valid(),
            final(ecb_mutex)@.wf(),
            final(ecb_mutex).guarded() == old(ecb_mutex).guarded(),
            final(self).log() == old(self).log(),
            result == old(self)@.crypt_result(
                old(ecb_mutex)@,
                len as nat,
                associated_data_len as nat,
            ),
            result is Ok ==> {
                &&& final(self)@ == (GcmView {
                    state: State::WaitingForEcb,
                    operation,
                    len: len as nat,
                    aad_len: associated_data_len as nat,
                    tag_len: tag_len.bits() / 8,
                    ..old(self)@
                })
                &&& final(ecb_mutex)@ == old(ecb_mutex)@.requested(old(self)@.session.handle->0)
            },
            result is Err ==> final(ecb_mutex)@ == old(ecb_mutex)@,
            result is Err ==> final(self)@ == old(self)@.refused(
                len as nat,
                associated_data_len as nat,
                tag_len.bits() / 8,
                operation,
            ),
    {
        if self.state != State::Idle {
            return Err(ErrorCode::BUSY);
        }
        if !self.session.is_configured() {
            return Err(ErrorCode::OFF);
        }
        if self.workspace.len() < len {
            return Err(ErrorCode::SIZE);
        }
        if len as u64 > u64::MAX / 8 || associated_data_len as u64 > u64::MAX / 8 {
            return Err(ErrorCode::SIZE);
        }
        let blocks: usize = len / BLOCK_SIZE + if len % BLOCK_SIZE == 0 {
            0
        } else {
            1
        };
        if blocks > u32::MAX as usize - 1 {
            return Err(ErrorCode::SIZE);
        }
        self.len = len;
        self.associated_data_len = associated_data_len;
        self.tag_len = tag_len.bytes();
        self.operation = operation;
        self.state = State::WaitingForEcb;
        let result = self.session.request(ecb_mutex);
        if result.is_err() {
            self.state = State::Idle;
        }
        result
    }

    /// Gives up the driver and tells the client how the operation ended. Does nothing if no
    /// operation is in progress.
    fn finish<K: GcmClient<Aes128>>(
        &mut self,
        result: Result<(), ErrorCode>,
        ecb_mutex: &mut DriverMutex<E>,
        client: &mut K,
    )
        requires
            old(self)@.is_sound(),
            old(self)@.state is Idle ==> old(self).valid(),
            !(old(self)@.state is Idle) ==> old(self)@.session.client is Some,
            old(self)@.session.linked(old(ecb_mutex)@),
            old(ecb_mutex)@.wf(),
            old(client).valid(),
        ensures
            final(self).valid(),
            final(self)@.session.linked(final(ecb_mutex)@),
            final(ecb_mutex)@.wf(),
            final(ecb_mutex).guarded() == old(ecb_mutex).guarded(),
            final(client).valid(),
            final(self).log() == old(self).log(),
            trace::extends(final(client).log(), old(client).log()),
            old(self)@.state is Idle ==> final(self)@ == old(self)@ && final(ecb_mutex)@
                == old(ecb_mutex)@ && final(client).log() == old(client).log(),
            !(old(self)@.state is Idle) ==> old(self)@.ended(
                result,
                trace::since(final(client).log(), old(client).log()),
                final(self)@,
                old(ecb_mutex)@,
                final(ecb_mutex)@,
            ),
    {
        broadcast use trace::lemma_since_append;

        let ghost log = client.log();
        if self.state == State::Idle {
            assert(log + Seq::empty() =~= log);
            return ;
        }
        self.state = State::Idle;
        self.session.detach(ecb_mutex);
        if self.session.has_client() {
            client.crypt_done(result);
            assert(client.log() =~= log + seq![Call::Done { result }]);
        }
    }

    /// Reads the whole input into the front of the workspace.
    fn read_full_input<K: GcmClient<Aes128>>(&mut self, client: &mut K) -> (result: Result<
        (),
        ErrorCode,
    >)
        requires
            old(self)@.len <= old(self)@.workspace.len(),
            old(client).valid(),
        ensures
            final(client).valid(),
            final(self).log() == old(self).log(),
            final(self)@.workspace.len() == old(self)@.workspace.len(),
            final(self)@.workspace.skip(old(self)@.len as int) == old(self)@.workspace.skip(
                old(self)@.len as int,
            ),
            final(self)@ == (GcmView { workspace: final(self)@.workspace, ..old(self)@ }),
            trace::extends(final(client).log(), old(client).log()),
            final(self)@.workspace == trace::read_into(
                old(self)@.workspace,
                trace::since(final(client).log(), old(client).log()),
                old(self)@.len,
            ),
            trace::gather_outcome(
                trace::since(final(client).log(), old(client).log()),
                Port::Input,
                old(self)@.len,
            ) == Some(
                match result {
                    Ok(()) => Ok(final(self)@.workspace.take(old(self)@.len as int)),
                    Err(error) => Err(error),
                },
            ),
    {
        broadcast use trace::lemma_since_append;

        let ghost log = client.log();
        let ghost mut calls: Seq<Call> = Seq::empty();
        let len: usize = self.len;
        let mut offset: usize = 0;
        assert(log + calls =~= log);
        assert(self.workspace@.take(0) =~= Seq::<u8>::empty());
        while offset < len
            invariant
                offset <= len <= self.workspace@.len(),
                len as nat == old(self)@.len,
                self.log() == old(self).log(),
                self@ == (GcmView { workspace: self.workspace@, ..old(self)@ }),
                self.workspace@.len() == old(self).workspace@.len(),
                self.workspace@.skip(len as int) == old(self).workspace@.skip(len as int),
                client.valid(),
                client.log() == log + calls,
                self.workspace@ == trace::read_into(
                    old(self).workspace@,
                    calls,
                    len as nat,
                ),
                log == old(client).log(),
                trace::gathered(calls, Port::Input, len as nat) == Some(
                    self.workspace@.take(offset as int),
                ),
            decreases len - offset,
        {
            broadcast use trace::lemma_since_append;

            let ghost before = self.workspace@;
            let wanted: usize = len - offset;
            let (_done, rest) = self.workspace.as_mut_slice().split_at_mut(offset);
            let (destination, _beyond) = rest.split_at_mut(wanted);
            let count = client.read_input(destination);
            let ghost buffer = destination@;
            assert(self.workspace@.subrange(offset as int, len as int) =~= buffer);
            let ghost call = client.log().last();
            proof {
                assert(self.workspace@.take(offset as int) =~= before.take(offset as int));
                assert(self.workspace@.skip(len as int) =~= before.skip(len as int));
                assert(client.log() =~= log + calls.push(call));
                trace::lemma_gather_step(
                    calls,
                    call,
                    Port::Input,
                    len as nat,
                    before.take(offset as int),
                );
                trace::lemma_read_into_push(old(self).workspace@, calls, len as nat, call);
                assert(self.workspace@ =~= crate::grant::overwritten(
                    before,
                    offset as int,
                    buffer,
                ));
                calls = calls.push(call);
            }
            match count {
                Err(error) => {
                    return Err(error);
                },
                Ok(read) => {
                    if read == 0 || read > wanted {
                        return Err(ErrorCode::INVAL);
                    }
                    assert(self.workspace@.take(offset + read) =~= before.take(offset as int)
                        + buffer.take(read as int));
                    offset = offset + read;
                },
            }
        }
        proof {
            trace::lemma_gather_complete(
                calls,
                Port::Input,
                len as nat,
                self.workspace@.take(len as int),
            );
        }
        Ok(())
    }

    /// Retrieves key, initialization vector, when decrypting the tag, and input.
    #[verifier::rlimit(40)]
    fn initialize<K: GcmClient<Aes128>>(&mut self, client: &mut K) -> (result: Result<
        (),
        ErrorCode,
    >)
        requires
            old(self)@.is_sound(),
            old(self)@.is_requested(),
            old(client).valid(),
        ensures
            final(client).valid(),
            final(self).log() == old(self).log(),
            trace::extends(final(client).log(), old(client).log()),
            final(self)@.is_sound(),
            final(self)@.workspace.len() == old(self)@.workspace.len(),
            result is Err ==> final(self)@ == old(self)@.stranded(
                trace::since(final(client).log(), old(client).log()),
            ),
            old(self)@.initialized(trace::since(final(client).log(), old(client).log())) == Some(
                match result {
                    Ok(()) => Ok(final(self)@),
                    Err(error) => Err(error),
                },
            ),
    {
        let ghost log = client.log();
        let ghost start = self@;
        let mut key = [0u8;16];
        let result = client.read_key(&mut key);
        let ghost fill = client.log().last();
        proof {
            assert(client.log() =~= log + seq![fill]);
            trace::lemma_since_append(log, seq![fill]);
        }
        if let Err(error) = result {
            return Err(error);
        }
        let mut iv = [0u8;12];
        let result = client.read_iv(&mut iv);
        let ghost read = client.log().last();
        proof {
            assert(client.log() =~= log + seq![fill, read]);
            trace::lemma_since_append(log, seq![fill, read]);
            assert(seq![fill, read].skip(1) =~= seq![read]);
        }
        if let Err(error) = result {
            return Err(error);
        }
        let mut tag = [0u8;16];
        assert(tag@ =~= bytes::zeros(16));
        let ghost mut before_input = seq![fill, read];
        if self.operation == Operation::Decrypt {
            let tag_len: usize = self.tag_len;
            let whole: &mut [u8] = &mut tag;
            let (part, _rest) = whole.split_at_mut(tag_len);
            let result = client.read_tag(part);
            let ghost given = part@;
            let ghost third = client.log().last();
            proof {
                assert(tag@ =~= given + bytes::zeros((16 - given.len()) as nat));
                assert(client.log() =~= log + seq![fill, read, third]);
                trace::lemma_since_append(log, seq![fill, read, third]);
                assert(seq![fill, read, third].skip(1) =~= seq![read, third]);
                assert(seq![read, third].skip(1) =~= seq![third]);
                before_input = seq![fill, read, third];
            }
            if let Err(error) = result {
                return Err(error);
            }
        }
        self.session.set_key(key);
        self.iv = iv;
        self.tag = tag;
        let ghost middle = client.log();
        let ghost before = self@;
        let result = self.read_full_input(client);
        proof {
            let reads = trace::since(client.log(), middle);
            trace::lemma_extends_append(client.log(), middle);
            let calls = before_input + reads;
            assert(client.log() =~= log + calls);
            trace::lemma_since_append(log, calls);
            assert(calls.skip(1)[0] == read);
            assert(start.initialized(calls) == start.initialized_with_key(key@, calls.skip(1)));
            match start.operation {
                Operation::Encrypt => {
                    assert(calls.skip(1).skip(1) =~= reads);
                },
                Operation::Decrypt => {
                    assert(calls.skip(1).skip(1).skip(1) =~= reads);
                    assert(calls.skip(1).skip(1)[0] == before_input[2]);
                    assert(start.initialized(calls) == start.initialized_with_iv(
                        key@,
                        iv@,
                        calls.skip(1).skip(1),
                    ));
                },
            }
            assert(start.initialized(calls) == start.initialized_with_tag(key@, iv@, tag@, reads));
            if result is Ok {
                self.input@ = self.workspace@.take(start.len as int);
                assert(self.workspace@ =~= self.input@ + before.workspace.skip(start.len as int));
                assert(start.initialized(calls) == Some(Ok::<GcmView, ErrorCode>(self@)));
            } else {
                trace::lemma_gather_failed(reads, Port::Input, start.len);
                assert(calls.last() == reads.last());
                match start.operation {
                    Operation::Encrypt => {
                        assert(calls.skip(2) =~= reads);
                        assert(Seq::<u8>::empty() + bytes::zeros(16) =~= bytes::zeros(16));
                    },
                    Operation::Decrypt => {
                        assert(calls.skip(3) =~= reads);
                    },
                }
                assert(self@ =~= start.stranded(calls));
            }
        }
        result
    }

    /// Fills the front of a block, up to `len`, with associated data.
    fn read_aad_block<K: GcmClient<Aes128>>(client: &mut K, len: usize) -> (result: Result<
        [u8; 16],
        ErrorCode,
    >)
        requires
            old(client).valid(),
            len <= 16,
        ensures
            final(client).valid(),
            trace::extends(final(client).log(), old(client).log()),
            match trace::gather_outcome(
                trace::since(final(client).log(), old(client).log()),
                Port::AssociatedData,
                len as nat,
            ) {
                Some(Ok(part)) => part.len() == len && match result {
                    Ok(block) => block@ == bytes::block_at(part, 0),
                    Err(_) => false,
                },
                Some(Err(error)) => match result {
                    Ok(_) => false,
                    Err(other) => other == error,
                },
                None => false,
            },
    {
        broadcast use trace::lemma_since_append;

        let ghost log = client.log();
        let ghost mut calls: Seq<Call> = Seq::empty();
        let mut block = [0u8;16];
        let mut offset: usize = 0;
        assert(log + calls =~= log);
        assert(block@.take(0) =~= Seq::<u8>::empty());
        while offset < len
            invariant
                offset <= len <= 16,
                forall|i: int| len <= i < 16 ==> #[trigger] block@[i] == 0,
                client.valid(),
                client.log() == log + calls,
                log == old(client).log(),
                trace::gathered(calls, Port::AssociatedData, len as nat) == Some(
                    block@.take(offset as int),
                ),
            decreases len - offset,
        {
            broadcast use trace::lemma_since_append;

            let ghost before = block@;
            let wanted: usize = len - offset;
            let whole: &mut [u8] = &mut block;
            let (_done, rest) = whole.split_at_mut(offset);
            let (destination, _beyond) = rest.split_at_mut(wanted);
            let count = client.read_associated_data(destination);
            let ghost buffer = destination@;
            let ghost call = client.log().last();
            proof {
                assert(block@.take(offset as int) =~= before.take(offset as int));
                assert(block@.subrange(offset as int, len as int) =~= buffer);
                assert(forall|i: int| len <= i < 16 ==> #[trigger] block@[i] == before[i]);
                assert(client.log() =~= log + calls.push(call));
                trace::lemma_gather_step(
                    calls,
                    call,
                    Port::AssociatedData,
                    len as nat,
                    before.take(offset as int),
                );
                calls = calls.push(call);
            }
            match count {
                Err(error) => {
                    return Err(error);
                },
                Ok(read) => {
                    if read == 0 || read > wanted {
                        return Err(ErrorCode::INVAL);
                    }
                    assert(block@.take(offset + read) =~= before.take(offset as int)
                        + buffer.take(read as int));
                    offset = offset + read;
                },
            }
        }
        proof {
            assert(block@ =~= bytes::block_at(block@.take(len as int), 0));
            trace::lemma_gather_complete(
                calls,
                Port::AssociatedData,
                len as nat,
                block@.take(len as int),
            );
        }
        Ok(block)
    }

    /// Reads and hashes the associated data.
    fn hash_associated_data<K: GcmClient<Aes128>>(&mut self, client: &mut K) -> (result: Result<
        (),
        ErrorCode,
    >)
        requires
            old(self)@.is_sound(),
            old(client).valid(),
        ensures
            final(client).valid(),
            final(self).log() == old(self).log(),
            trace::extends(final(client).log(), old(client).log()),
            final(self)@.is_sound(),
            match result {
                Ok(()) => {
                    &&& trace::blocks_outcome(
                        trace::since(final(client).log(), old(client).log()),
                        Port::AssociatedData,
                        old(self)@.aad_len,
                        Ok(final(self)@.associated_data),
                    )
                    &&& final(self)@ == (GcmView {
                        hash: gcm_math::ghash(
                            old(self)@.hash_key,
                            old(self)@.hash,
                            final(self)@.associated_data,
                            bytes::block_count(old(self)@.aad_len),
                        ),
                        associated_data: final(self)@.associated_data,
                        ..old(self)@
                    })
                },
                Err(error) => {
                    &&& trace::blocks_outcome(
                        trace::since(final(client).log(), old(client).log()),
                        Port::AssociatedData,
                        old(self)@.aad_len,
                        Err(error),
                    )
                    &&& final(self)@ == (GcmView { hash: final(self)@.hash, ..old(self)@ })
                },
            },
    {
        broadcast use bytes::lemma_be_bytes_len;

        let ghost log = client.log();
        let ghost mut calls: Seq<Call> = Seq::empty();
        let ghost mut data: Seq<u8> = Seq::empty();
        let ghost want = self@.aad_len;
        let ghost mut blocks: nat = 0;
        let mut remaining: usize = self.associated_data_len;
        proof {
            assert(log + calls =~= log);
            trace::lemma_since_append(log, calls);
        }
        while remaining > 0
            invariant
                data.len() + remaining == want,
                want == old(self)@.aad_len,
                data.len() % 16 == 0 || remaining == 0,
                blocks == bytes::block_count(data.len()),
                client.valid(),
                client.log() == log + calls,
                log == old(client).log(),
                trace::gathered_in_blocks(calls, Port::AssociatedData, want, data),
                self.log() == old(self).log(),
                self@.is_sound(),
                self@ == (GcmView {
                    hash: gcm_math::ghash(old(self)@.hash_key, old(self)@.hash, data, blocks),
                    ..old(self)@
                }),
            decreases remaining,
        {
            broadcast use bytes::lemma_be_bytes_len;

            let block_len: usize = if remaining < BLOCK_SIZE {
                remaining
            } else {
                BLOCK_SIZE
            };
            let ghost middle = client.log();
            let result = Self::read_aad_block(client, block_len);
            let ghost reads = trace::since(client.log(), middle);
            proof {
                trace::lemma_extends_append(client.log(), middle);
                assert(client.log() =~= log + (calls + reads));
                trace::lemma_since_append(log, calls + reads);
                assert((calls + reads).take(calls.len() as int) =~= calls);
                assert((calls + reads).skip(calls.len() as int) =~= reads);
                assert(block_len == trace::next_block_len(want, data.len() as int));
            }
            let block: [u8; 16] = match result {
                Ok(block) => block,
                Err(error) => {
                    proof {
                        let k = calls.len() as int;
                        assert(trace::gathered_in_blocks(
                            (calls + reads).take(k),
                            Port::AssociatedData,
                            want,
                            data,
                        ));
                    }
                    return Err(error);
                },
            };
            let ghost part = trace::gather_outcome(
                reads,
                Port::AssociatedData,
                block_len as nat,
            )->0->Ok_0;
            self.hash_block(block);
            proof {
                let longer = data + part;
                let start = (longer.len() - 1) / 16 * 16;
                assert(start == data.len());
                assert(longer.take(start) =~= data);
                assert(longer.skip(start) =~= part);
                let k = calls.len() as int;
                assert(trace::gathered_in_blocks(
                    (calls + reads).take(k),
                    Port::AssociatedData,
                    want,
                    longer.take(start),
                ));
                assert(trace::gathered_in_blocks(
                    calls + reads,
                    Port::AssociatedData,
                    want,
                    longer,
                ));
                assert(bytes::block_at(longer, start) =~= bytes::block_at(part, 0));
                lemma_ghash_prefix(old(self)@.hash_key, old(self)@.hash, data, longer, blocks);
                assert(blocks * 16 == start);
                blocks = blocks + 1;
                data = longer;
                calls = calls + reads;
            }
            remaining = remaining - block_len;
        }
        proof {
            trace::lemma_since_append(log, calls);
            self.associated_data@ = data;
        }
        Ok(())
    }

    /// Hands a block to the driver and goes to `state`; ends the operation if the driver refuses.
    fn start_ecb_block<K: GcmClient<Aes128>>(
        &mut self,
        state: State,
        input: [u8; 16],
        ecb_mutex: &mut DriverMutex<E>,
        client: &mut K,
    )
        requires
            old(self)@.session.wf(),
            (GcmView { state, session: old(self)@.session.staged(input@), ..old(self)@ }).wf(),
            (GcmView { state, ..old(self)@ }).is_running(),
            old(self)@.session.linked(old(ecb_mutex)@),
            old(ecb_mutex)@.wf(),
            old(ecb_mutex).guarded().valid(),
            old(client).valid(),
        ensures
            final(self).valid(),
            final(self)@.session.linked(final(ecb_mutex)@),
            final(ecb_mutex)@.wf(),
            final(ecb_mutex).guarded().valid(),
            final(client).valid(),
            final(self).log() == old(self).log(),
            trace::extends(final(client).log(), old(client).log()),
            trace::extends(final(ecb_mutex).guarded().log(), old(ecb_mutex).guarded().log()),
            (GcmView {
                state,
                session: old(self)@.session.staged(input@),
                ..old(self)@
            }).launched(
                trace::since(final(ecb_mutex).guarded().log(), old(ecb_mutex).guarded().log()),
                trace::since(final(client).log(), old(client).log()),
                final(self)@,
                old(ecb_mutex)@,
                final(ecb_mutex)@,
            ),
    {
        broadcast use trace::lemma_since_append;

        let ghost log = client.log();
        let ghost driver_log = ecb_mutex.guarded().log();
        self.state = state;
        let result = self.session.start(ecb_mutex, input, Operation::Encrypt);
        proof {
            assert(log + Seq::empty() =~= log);
            let call = Call::EcbCrypt { len: 16, operation: Operation::Encrypt, result };
            assert(ecb_mutex.guarded().log() =~= driver_log + seq![call]);
        }
        if let Err(error) = result {
            self.finish(Err(error), ecb_mutex, client);
        }
    }

    /// Hashes the associated data and goes on from there.
    #[verifier::rlimit(60)]
    fn start_hashing<K: GcmClient<Aes128>>(
        &mut self,
        ecb_mutex: &mut DriverMutex<E>,
        client: &mut K,
    )
        requires
            old(self)@.may(Next::AssociatedData),
            old(self)@.session.linked(old(ecb_mutex)@),
            old(ecb_mutex)@.wf(),
            old(ecb_mutex).guarded().valid(),
            old(client).valid(),
        ensures
            final(self).valid(),
            final(self)@.session.linked(final(ecb_mutex)@),
            final(ecb_mutex)@.wf(),
            final(ecb_mutex).guarded().valid(),
            final(client).valid(),
            final(self).log() == old(self).log(),
            trace::extends(final(client).log(), old(client).log()),
            trace::extends(final(ecb_mutex).guarded().log(), old(ecb_mutex).guarded().log()),
            old(self)@.carried_out(
                Next::AssociatedData,
                trace::since(final(ecb_mutex).guarded().log(), old(ecb_mutex).guarded().log()),
                trace::since(final(client).log(), old(client).log()),
                final(self)@,
                old(ecb_mutex)@,
                final(ecb_mutex)@,
            ),
    {
        let ghost start = self@;
        let ghost log = client.log();
        let ghost driver_log = ecb_mutex.guarded().log();
        let result = self.hash_associated_data(client);
        let ghost reads = trace::since(client.log(), log);
        let ghost middle = client.log();
        let ghost outcome: Result<Seq<u8>, ErrorCode> = match result {
            Ok(()) => Ok(self@.associated_data),
            Err(error) => Err(error),
        };
        proof {
            trace::lemma_extends_append(middle, log);
        }
        match result {
            Err(error) => {
                self.finish(Err(error), ecb_mutex, client);
                proof {
                    assert(driver_log + Seq::empty() =~= driver_log);
                    trace::lemma_since_append(driver_log, Seq::empty());
                }
            },
            Ok(()) => {
                let ghost hashed = self@;
                proof {
                    lemma_hashes_len(hashed);
                    bytes::lemma_be_bytes_len(2, 4);
                    assert(gcm_math::ghash(
                        hashed.hash_key,
                        hashed.hash,
                        hashed.workspace.take(0),
                        0,
                    ) == hashed.hash);
                }
                let next = match self.operation {
                    Operation::Encrypt => if self.len > 0 {
                        self.start_payload();
                        Next::Payload
                    } else {
                        self.hash_lengths();
                        Next::TagMask
                    },
                    Operation::Decrypt => {
                        self.hash_payload();
                        self.hash_lengths();
                        Next::TagMask
                    },
                };
                assert((self@, next) == start.aad_hashed(outcome->Ok_0));
                self.proceed_block(next, ecb_mutex, client);
            },
        }
        proof {
            let ends = trace::since(client.log(), middle);
            trace::lemma_extends_append(client.log(), middle);
            let calls = reads + ends;
            assert(client.log() =~= log + calls);
            trace::lemma_since_append(log, calls);
            let n = reads.len() as int;
            assert(calls.take(n) =~= reads);
            assert(calls.skip(n) =~= ends);
            assert(trace::blocks_outcome(
                calls.take(n),
                Port::AssociatedData,
                start.aad_len,
                outcome,
            ));
        }
    }

    /// Hands the block of `next` to the driver.
    fn proceed_block<K: GcmClient<Aes128>>(
        &mut self,
        next: Next,
        ecb_mutex: &mut DriverMutex<E>,
        client: &mut K,
    )
        requires
            old(self)@.may(next),
            next is Payload || next is TagMask,
            old(self)@.session.linked(old(ecb_mutex)@),
            old(ecb_mutex)@.wf(),
            old(ecb_mutex).guarded().valid(),
            old(client).valid(),
        ensures
            final(self).valid(),
            final(self)@.session.linked(final(ecb_mutex)@),
            final(ecb_mutex)@.wf(),
            final(ecb_mutex).guarded().valid(),
            final(client).valid(),
            final(self).log() == old(self).log(),
            trace::extends(final(client).log(), old(client).log()),
            trace::extends(final(ecb_mutex).guarded().log(), old(ecb_mutex).guarded().log()),
            old(self)@.carried_out(
                next,
                trace::since(final(ecb_mutex).guarded().log(), old(ecb_mutex).guarded().log()),
                trace::since(final(client).log(), old(client).log()),
                final(self)@,
                old(ecb_mutex)@,
                final(ecb_mutex)@,
            ),
    {
        match next {
            Next::Payload => self.start_ecb_block(State::Payload, self.counter, ecb_mutex, client),
            _ => {
                let counter = self.initial_counter();
                self.start_ecb_block(State::TagMask, counter, ecb_mutex, client);
            },
        }
    }

    /// Hands the result to the client and ends the operation.
    fn write_output<K: GcmClient<Aes128>>(
        &mut self,
        ecb_mutex: &mut DriverMutex<E>,
        client: &mut K,
    )
        requires
            old(self)@.may(Next::Output),
            old(self)@.session.linked(old(ecb_mutex)@),
            old(ecb_mutex)@.wf(),
            old(ecb_mutex).guarded().valid(),
            old(client).valid(),
        ensures
            final(self).valid(),
            final(self)@.session.linked(final(ecb_mutex)@),
            final(ecb_mutex)@.wf(),
            final(ecb_mutex).guarded().valid(),
            final(client).valid(),
            final(self).log() == old(self).log(),
            trace::extends(final(client).log(), old(client).log()),
            trace::extends(final(ecb_mutex).guarded().log(), old(ecb_mutex).guarded().log()),
            old(self)@.carried_out(
                Next::Output,
                trace::since(final(ecb_mutex).guarded().log(), old(ecb_mutex).guarded().log()),
                trace::since(final(client).log(), old(client).log()),
                final(self)@,
                old(ecb_mutex)@,
                final(ecb_mutex)@,
            ),
    {
        let ghost log = client.log();
        let ghost driver_log = ecb_mutex.guarded().log();
        let output = vstd::slice::slice_subrange(self.workspace.as_slice(), 0, self.len);
        let mut result = client.write_output(output);
        let ghost mut calls = seq![Call::Write { port: Port::Output, data: output@, result }];
        if result.is_ok() && self.operation == Operation::Encrypt {
            let tag = vstd::slice::slice_subrange(self.tag.as_slice(), 0, self.tag_len);
            assert(tag@ =~= self@.tag.take(self@.tag_len as int));
            result = client.write_tag(tag);
            proof {
                calls = calls.push(Call::Write { port: Port::Tag, data: tag@, result });
            }
        }
        let ghost middle = client.log();
        self.finish(result, ecb_mutex, client);
        proof {
            let ends = trace::since(client.log(), middle);
            trace::lemma_extends_append(client.log(), middle);
            assert(middle =~= log + calls);
            assert(client.log() =~= log + (calls + ends));
            trace::lemma_since_append(log, calls + ends);
            assert(driver_log + Seq::empty() =~= driver_log);
            trace::lemma_since_append(driver_log, Seq::empty());
            assert((calls + ends).skip(calls.len() as int) =~= ends);
        }
    }

    /// Carries out what follows.
    fn proceed<K: GcmClient<Aes128>>(
        &mut self,
        next: Next,
        ecb_mutex: &mut DriverMutex<E>,
        client: &mut K,
    )
        requires
            old(self)@.may(next),
            old(self)@.session.linked(old(ecb_mutex)@),
            old(ecb_mutex)@.wf(),
            old(ecb_mutex).guarded().valid(),
            old(client).valid(),
        ensures
            final(self).valid(),
            final(self)@.session.linked(final(ecb_mutex)@),
            final(ecb_mutex)@.wf(),
            final(ecb_mutex).guarded().valid(),
            final(client).valid(),
            final(self).log() == old(self).log(),
            trace::extends(final(client).log(), old(client).log()),
            trace::extends(final(ecb_mutex).guarded().log(), old(ecb_mutex).guarded().log()),
            old(self)@.carried_out(
                next,
                trace::since(final(ecb_mutex).guarded().log(), old(ecb_mutex).guarded().log()),
                trace::since(final(client).log(), old(client).log()),
                final(self)@,
                old(ecb_mutex)@,
                final(ecb_mutex)@,
            ),
    {
        match next {
            Next::AssociatedData => self.start_hashing(ecb_mutex, client),
            Next::Payload | Next::TagMask => self.proceed_block(next, ecb_mutex, client),
            Next::Output => self.write_output(ecb_mutex, client),
            Next::Reject | Next::Overflow => {
                let ghost driver_log = ecb_mutex.guarded().log();
                let error = if next == Next::Reject {
                    ErrorCode::FAIL
                } else {
                    ErrorCode::SIZE
                };
                self.finish(Err(error), ecb_mutex, client);
                proof {
                    assert(driver_log + Seq::empty() =~= driver_log);
                    trace::lemma_since_append(driver_log, Seq::empty());
                }
            },
        }
    }

    /// Called when the mutex hands out the driver. Starts the operation that waits for it, after
    /// retrieving what it needs; gives the driver back if none waits.
    pub fn ready<K: GcmClient<Aes128>>(
        &mut self,
        resource: DriverMutexAny,
        ecb_mutex: &mut DriverMutex<E>,
        client: &mut K,
    )
        requires
            old(self).valid(),
            resource.owner() == old(ecb_mutex)@.id,
            old(ecb_mutex)@.guards() > (if old(self)@.session.guard is Some {
                1nat
            } else {
                0
            }),
            old(self)@.session.linked(old(ecb_mutex)@),
            old(ecb_mutex)@.wf(),
            old(ecb_mutex).guarded().valid(),
            old(client).valid(),
        ensures
            final(self).valid(),
            final(self)@.session.linked(final(ecb_mutex)@),
            final(ecb_mutex)@.wf(),
            final(ecb_mutex).guarded().valid(),
            final(client).valid(),
            final(self).log() == old(self).log(),
            trace::extends(final(client).log(), old(client).log()),
            trace::extends(final(ecb_mutex).guarded().log(), old(ecb_mutex).guarded().log()),
            !(old(self)@.state is WaitingForEcb) ==> {
                &&& final(self)@ == old(self)@
                &&& final(ecb_mutex)@ == old(ecb_mutex)@.released()
                &&& final(ecb_mutex).guarded() == old(ecb_mutex).guarded()
                &&& final(client).log() == old(client).log()
            },
            old(self)@.state is WaitingForEcb && resource.kind() != E::kind() ==> {
                &&& old(self)@.ended(
                    Err(ErrorCode::INVAL),
                    trace::since(final(client).log(), old(client).log()),
                    final(self)@,
                    old(ecb_mutex)@.released(),
                    final(ecb_mutex)@,
                )
                &&& final(ecb_mutex).guarded() == old(ecb_mutex).guarded()
            },
            old(self)@.state is WaitingForEcb && resource.kind() == E::kind() ==> old(self)@.readied(
                trace::since(final(ecb_mutex).guarded().log(), old(ecb_mutex).guarded().log()),
                trace::since(final(client).log(), old(client).log()),
                final(self)@,
                old(ecb_mutex)@,
                final(ecb_mutex)@,
            ),
    {
        let ghost start = self@;
        let ghost log = client.log();
        let ghost driver_log = ecb_mutex.guarded().log();
        proof {
            assert(log + Seq::empty() =~= log);
            trace::lemma_since_append(log, Seq::empty());
            assert(driver_log + Seq::empty() =~= driver_log);
            trace::lemma_since_append(driver_log, Seq::empty());
        }
        if self.state != State::WaitingForEcb {
            ecb_mutex.release_any(resource);
            return ;
        }
        if !self.session.attach(resource, ecb_mutex) {
            self.finish(Err(ErrorCode::INVAL), ecb_mutex, client);
            return ;
        }
        let ghost set_client = Call::SetClient { client: start.session.id };
        let ghost driver_middle = ecb_mutex.guarded().log();
        let result = self.initialize(client);
        let ghost reads = trace::since(client.log(), log);
        let ghost middle = client.log();
        proof {
            trace::lemma_extends_append(middle, log);
            assert(driver_middle =~= driver_log + seq![set_client]);
            trace::lemma_since_append(driver_log, seq![set_client]);
        }
        match result {
            Err(error) => {
                self.finish(Err(error), ecb_mutex, client);
                proof {
                    assert(driver_middle + Seq::empty() =~= driver_middle);
                    trace::lemma_since_append(driver_middle, Seq::empty());
                }
            },
            Ok(()) => {
                let zeros = [0u8;16];
                assert(zeros@ =~= bytes::zeros(16));
                self.start_ecb_block(State::HashKey, zeros, ecb_mutex, client);
            },
        }
        proof {
            let ends = trace::since(client.log(), middle);
            trace::lemma_extends_append(client.log(), middle);
            assert(client.log() =~= log + (reads + ends));
            trace::lemma_since_append(log, reads + ends);
            assert((reads + ends).take(reads.len() as int) =~= reads);
            assert((reads + ends).skip(reads.len() as int) =~= ends);
            let driver_ends = trace::since(ecb_mutex.guarded().log(), driver_middle);
            trace::lemma_extends_append(ecb_mutex.guarded().log(), driver_middle);
            assert(ecb_mutex.guarded().log() =~= driver_log + (seq![set_client] + driver_ends));
            trace::lemma_since_append(driver_log, seq![set_client] + driver_ends);
            assert((seq![set_client] + driver_ends).skip(1) =~= driver_ends);
        }
    }

    /// Acts on what the driver said of the block under way: goes on with the operation, or ends
    /// it. To be called after the driver's completion callback.
    pub fn resume<K: GcmClient<Aes128>>(&mut self, ecb_mutex: &mut DriverMutex<E>, client: &mut K)
        requires
            old(self).valid(),
            old(self)@.session.linked(old(ecb_mutex)@),
            old(ecb_mutex)@.wf(),
            old(ecb_mutex).guarded().valid(),
            old(client).valid(),
        ensures
            final(self).valid(),
            final(self)@.session.linked(final(ecb_mutex)@),
            final(ecb_mutex)@.wf(),
            final(ecb_mutex).guarded().valid(),
            final(client).valid(),
            final(self).log() == old(self).log(),
            trace::extends(final(client).log(), old(client).log()),
            trace::extends(final(ecb_mutex).guarded().log(), old(ecb_mutex).guarded().log()),
            old(self)@.resumed(
                trace::since(final(ecb_mutex).guarded().log(), old(ecb_mutex).guarded().log()),
                trace::since(final(client).log(), old(client).log()),
                final(self)@,
                old(ecb_mutex)@,
                final(ecb_mutex)@,
            ),
    {
        let ghost log = client.log();
        let ghost driver_log = ecb_mutex.guarded().log();
        proof {
            assert(log + Seq::empty() =~= log);
            trace::lemma_since_append(log, Seq::empty());
            assert(driver_log + Seq::empty() =~= driver_log);
            trace::lemma_since_append(driver_log, Seq::empty());
        }
        let completion = match self.session.take_completion() {
            Some(completion) => completion,
            None => {
                return ;
            },
        };
        if let Err(error) = completion {
            self.finish(Err(error), ecb_mutex, client);
            return ;
        }
        if !self.session.is_exchanged() {
            self.finish(Err(ErrorCode::FAIL), ecb_mutex, client);
            return ;
        }
        match self.state {
            State::HashKey => {
                let output = self.session.output();
                let next = self.hash_key_done(output);
                self.proceed(next, ecb_mutex, client);
            },
            State::Payload => {
                let output = self.session.output();
                let next = self.payload_block_done(output);
                self.proceed(next, ecb_mutex, client);
            },
            State::TagMask => {
                let output = self.session.output();
                let next = self.tag_mask_done(output);
                self.proceed(next, ecb_mutex, client);
            },
            State::Idle | State::WaitingForEcb => {
                self.finish(Err(ErrorCode::FAIL), ecb_mutex, client);
            },
        }
    }
}

/// GHASH depends only on the blocks that it covers.
proof fn lemma_ghash_prefix(h: Seq<u8>, start: Seq<u8>, a: Seq<u8>, b: Seq<u8>, blocks: nat)
    requires
        blocks * 16 <= a.len(),
        blocks * 16 <= b.len(),
        forall|i: int| 0 <= i < blocks * 16 ==> #[trigger] a[i] == b[i],
    ensures
        gcm_math::ghash(h, start, a, blocks) == gcm_math::ghash(h, start, b, blocks),
    decreases blocks,
{
    if blocks > 0 {
        lemma_ghash_prefix(h, start, a, b, (blocks - 1) as nat);
        let at = (blocks - 1) * 16;
        assert(bytes::block_at(a, at) =~= bytes::block_at(b, at));
    }
}

impl<E> EcbClient<Aes128> for SoftwareGcm<E> {
    /// Hands out the key. Returns `SIZE` if the buffer does not have the size of a key.
    fn read_key(&mut self, key: &mut [u8]) -> (result: Result<(), ErrorCode>)
        ensures
            final(self)@ == old(self)@,
            result == session::key_result(old(key)@),
            final(key)@ == session::key_buffer(old(self)@.session, old(key)@),
    {
        self.session.read_key(key)
    }

    /// Hands out the next part of the block under way. Returns `INVAL` if nothing is asked for or
    /// nothing is left.
    fn read_input(&mut self, input: &mut [u8]) -> (count: Result<usize, ErrorCode>)
        ensures
            final(self)@ == (GcmView { session: final(self)@.session, ..old(self)@ }),
            session::input_read(
                old(self)@.session,
                old(input)@,
                count,
                final(self)@.session,
                final(input)@,
            ),
    {
        self.session.read_input(input)
    }

    /// Takes the next part of the block that the driver returns. Returns `SIZE` if it does not fit.
    fn write_output(&mut self, output: &[u8]) -> (result: Result<(), ErrorCode>)
        ensures
            final(self)@ == (GcmView { session: final(self)@.session, ..old(self)@ }),
            session::output_written(old(self)@.session, output@, result, final(self)@.session),
    {
        self.session.write_output(output)
    }

    /// Notes how the driver says the block ended; [`SoftwareGcm::resume`] acts on it.
    fn crypt_done(&mut self, result: Result<(), ErrorCode>)
        ensures
            final(self)@ == (GcmView {
                session: SessionView { completion: Some(result), ..old(self)@.session },
                ..old(self)@
            }),
    {
        self.session.crypt_done(result)
    }
}

} // verus!
