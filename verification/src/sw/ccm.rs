//! AES-128 CCM in software over an ECB driver.
use crate::driver_mutex::{DriverMutex, DriverMutexAny, Kind, MutexView, Resource};
use crate::error::ErrorCode;
use crate::hil::cipher::{Aes128, CcmClient, CcmTagLength, Ecb, EcbClient, Operation};
use crate::hil::trace;
use crate::hil::trace::{Call, Observed, Port};
use crate::sw::bytes;
use crate::sw::ccm_math;
use crate::sw::session;
use crate::sw::session::{EcbSession, SessionView, BLOCK_SIZE};
use vstd::prelude::*;

verus! {

/// Longest nonce, in bytes.
pub const MAX_NONCE_SIZE: usize = 13;

/// Longest encoding of the length of the associated data, in bytes.
pub const MAX_AAD_PREFIX_SIZE: usize = 10;

/// Where an operation stands.
#[derive(Clone, Copy, Debug, PartialEq, Eq, Structural)]
pub enum State {
    Idle,
    WaitingForEcb,
    Mac,
    Tag,
    Payload,
}

/// Which part of the message the authentication code has come to.
#[derive(Clone, Copy, Debug, PartialEq, Eq, Structural)]
pub enum MacStage {
    B0,
    AssociatedData,
    Payload,
}

/// What follows a block that the driver has returned.
#[derive(Clone, Copy, Debug, PartialEq, Eq, Structural)]
pub enum Next {
    /// Authenticate the first block.
    Mac,
    /// Authenticate a block of associated data.
    AssociatedData,
    /// Authenticate a block of payload.
    MacPayload,
    /// Compute the mask of the tag.
    Tag,
    /// Compute the mask of a block of payload.
    Payload,
    /// Hand out the front of the workspace and finish.
    Output { len: usize },
    /// Finish without output: the tag is wrong.
    Reject,
}

/// What a CCM implementation is.
#[verifier::ext_equal]
pub struct CcmView {
    pub session: SessionView,
    pub state: State,
    pub operation: Operation,
    /// Length of the payload.
    pub len: nat,
    /// Length of the associated data.
    pub aad_len: nat,
    /// Length of the tag.
    pub tag_len: nat,
    pub nonce: Seq<u8>,
    pub mac_stage: MacStage,
    /// Chaining value of the authentication code.
    pub mac: Seq<u8>,
    /// How much of the encoded associated data has been authenticated.
    pub aad_offset: nat,
    /// How much of the payload has been authenticated or masked.
    pub payload_offset: nat,
    pub tag: Seq<u8>,
    /// The payload, followed by the tag.
    pub workspace: Seq<u8>,
    /// What the client gave as input.
    pub input: Seq<u8>,
    /// The associated data that the client has given so far.
    pub associated_data: Seq<u8>,
}

impl CcmView {
    /// An operation has the driver.
    pub open spec fn is_running(self) -> bool {
        self.state is Mac || self.state is Tag || self.state is Payload
    }

    /// How much associated data the encoded data up to `offset` holds.
    pub open spec fn aad_taken(self, offset: nat) -> nat {
        let prefix = ccm_math::aad_prefix(self.aad_len).len();
        if offset <= prefix {
            0
        } else if offset <= prefix + self.aad_len {
            (offset - prefix) as nat
        } else {
            self.aad_len
        }
    }

    /// How far the authentication code may have come in each of its stages.
    pub open spec fn mac_in_order(self) -> bool {
        let padded = ccm_math::aad_padded_len(self.aad_len);
        &&& self.aad_offset % 16 == 0
        &&& self.aad_offset <= padded
        &&& self.associated_data.len() == self.aad_taken(self.aad_offset)
        &&& match self.mac_stage {
            MacStage::B0 => self.aad_offset == 0 && self.payload_offset == 0,
            MacStage::AssociatedData => self.payload_offset == 0,
            MacStage::Payload => {
                &&& self.aad_offset == padded
                &&& self.payload_offset <= self.len
                &&& self.payload_offset % 16 == 0 || self.payload_offset == self.len
            },
        }
    }

    /// What an accepted request has established.
    pub open spec fn is_requested(self) -> bool {
        &&& self.session.client is Some
        &&& self.session.handle is Some
        &&& 4 <= self.tag_len <= 16
        &&& self.tag_len % 2 == 0
        &&& self.len + self.tag_len <= self.workspace.len()
    }

    /// What holds once key, nonce and input have come.
    pub open spec fn is_initialized(self) -> bool {
        &&& self.is_requested()
        &&& self.session.guard is Some
        &&& 7 <= self.nonce.len() <= 13
        &&& self.len < bytes::pow256(ccm_math::length_bytes(self.nonce.len()))
    }

    /// The invariant.
    pub open spec fn wf(self) -> bool {
        &&& self.session.wf()
        &&& self.mac.len() == 16
        &&& self.tag.len() == 16
        &&& self.workspace.len() <= usize::MAX
        &&& !self.is_running() ==> self.session.guard is None
        &&& self.state is WaitingForEcb ==> self.is_requested()
        &&& self.is_running() ==> self.is_initialized()
        &&& self.state is Mac ==> self.mac_in_order()
        &&& self.state is Payload ==> self.payload_offset < self.len && self.payload_offset % 16
            == 0
    }

    /// The answer to a request.
    pub open spec fn crypt_result(
        self,
        mutex: MutexView,
        len: nat,
        aad_len: nat,
        tag_len: nat,
    ) -> Result<(), ErrorCode> {
        if !(self.state is Idle) {
            Err(ErrorCode::BUSY)
        } else if self.session.client is None || self.session.handle is None {
            Err(ErrorCode::OFF)
        } else if len + tag_len > self.workspace.len() {
            Err(ErrorCode::SIZE)
        } else if ccm_math::aad_prefix(aad_len).len() + aad_len + 15 > usize::MAX {
            Err(ErrorCode::SIZE)
        } else {
            mutex.request_result(self.session.handle->0)
        }
    }

    /// The mode after a request that was refused: it has the parameters of the request if only the
    /// mutex refused it.
    pub open spec fn refused(
        self,
        len: nat,
        aad_len: nat,
        tag_len: nat,
        operation: Operation,
    ) -> CcmView {
        if self.state is Idle && self.session.client is Some && self.session.handle is Some && len
            + tag_len <= self.workspace.len() && ccm_math::aad_prefix(aad_len).len() + aad_len + 15
            <= usize::MAX {
            CcmView { operation, len, aad_len, tag_len, ..self }
        } else {
            self
        }
    }

    /// The operation after an accepted request.
    pub open spec fn accepted(
        self,
        len: nat,
        aad_len: nat,
        tag_len: nat,
        operation: Operation,
    ) -> CcmView {
        CcmView { state: State::WaitingForEcb, operation, len, aad_len, tag_len, ..self }
    }

    /// How much input an operation takes: the payload, and when decrypting the tag behind it.
    pub open spec fn input_len(self) -> nat {
        match self.operation {
            Operation::Encrypt => self.len,
            Operation::Decrypt => self.len + self.tag_len,
        }
    }

    /// What `calls` make of an operation that has just got the driver: they must read a key, a
    /// nonce and the whole input, and end it where one of these fails.
    pub open spec fn initialized(self, calls: Seq<Call>) -> Option<Result<CcmView, ErrorCode>> {
        if calls.len() == 0 {
            None
        } else {
            match calls[0] {
                Call::Fill { port: Port::Key, buffer: key, result, .. } => if key.len() != 16 {
                    None
                } else {
                    match result {
                        Err(error) => if calls.len() == 1 {
                            Some(Err(error))
                        } else {
                            None
                        },
                        Ok(()) => if calls.len() == 1 {
                            None
                        } else {
                            self.initialized_with_key(key, calls.skip(1))
                        },
                    }
                },
                _ => None,
            }
        }
    }

    /// What `calls`, the first of which reads the nonce, make of an operation that has its key.
    pub open spec fn initialized_with_key(self, key: Seq<u8>, calls: Seq<Call>) -> Option<
        Result<CcmView, ErrorCode>,
    > {
        match calls[0] {
            Call::Read { port: Port::Nonce, buffer, count, .. } => if buffer.len() != 13 {
                None
            } else {
                match count {
                    Err(error) => if calls.len() == 1 {
                        Some(Err(error))
                    } else {
                        None
                    },
                    Ok(nonce_len) => if !(7 <= nonce_len <= 13) {
                        if calls.len() == 1 {
                            Some(Err(ErrorCode::INVAL))
                        } else {
                            None
                        }
                    } else if self.len >= bytes::pow256(ccm_math::length_bytes(nonce_len as nat)) {
                        if calls.len() == 1 {
                            Some(Err(ErrorCode::SIZE))
                        } else {
                            None
                        }
                    } else {
                        match trace::gather_outcome(calls.skip(1), Port::Input, self.input_len()) {
                            Some(Ok(input)) => Some(
                                Ok(
                                    CcmView {
                                        session: SessionView { key, ..self.session },
                                        nonce: buffer.take(nonce_len as int),
                                        workspace: input + self.workspace.skip(input.len() as int),
                                        input,
                                        ..self
                                    },
                                ),
                            ),
                            Some(Err(error)) => Some(Err(error)),
                            None => None,
                        }
                    },
                }
            },
            _ => None,
        }
    }

    /// What an operation that has its input starts with.
    pub open spec fn first(self) -> Next {
        match self.operation {
            Operation::Encrypt => Next::Mac,
            Operation::Decrypt => Next::Tag,
        }
    }

    /// The operation once the authentication code is complete, and what follows.
    pub open spec fn mac_done(self) -> (CcmView, Next) {
        match self.operation {
            Operation::Encrypt => (CcmView { tag: self.mac, ..self }, Next::Tag),
            Operation::Decrypt => (
                self,
                if self.mac.take(self.tag_len as int) == self.tag.take(self.tag_len as int) {
                    Next::Output { len: self.len as usize }
                } else {
                    Next::Reject
                },
            ),
        }
    }

    /// The operation after a block of the authentication code, and what follows.
    pub open spec fn mac_block_done(self, output: Seq<u8>) -> (CcmView, Next) {
        if self.aad_offset < ccm_math::aad_padded_len(self.aad_len) {
            (
                CcmView { mac: output, mac_stage: MacStage::AssociatedData, ..self },
                Next::AssociatedData,
            )
        } else if self.payload_offset < self.len {
            (CcmView { mac: output, mac_stage: MacStage::Payload, ..self }, Next::MacPayload)
        } else {
            CcmView { mac: output, ..self }.mac_done()
        }
    }

    /// What follows once the payload is masked.
    pub open spec fn payload_done(self) -> Next {
        match self.operation {
            Operation::Encrypt => Next::Output { len: (self.len + self.tag_len) as usize },
            Operation::Decrypt => Next::Mac,
        }
    }

    /// The operation after the mask of the tag, and what follows.
    pub open spec fn tag_block_done(self, output: Seq<u8>) -> (CcmView, Next) {
        let view = match self.operation {
            Operation::Encrypt => CcmView {
                workspace: self.workspace.take(self.len as int) + bytes::xor(
                    self.tag.take(self.tag_len as int),
                    output,
                ) + self.workspace.skip((self.len + self.tag_len) as int),
                payload_offset: 0,
                ..self
            },
            Operation::Decrypt => CcmView {
                tag: bytes::xor(
                    self.workspace.subrange(self.len as int, (self.len + self.tag_len) as int),
                    output,
                ) + bytes::zeros((16 - self.tag_len) as nat),
                payload_offset: 0,
                ..self
            },
        };
        (
            view,
            if self.len == 0 {
                view.payload_done()
            } else {
                Next::Payload
            },
        )
    }

    /// The operation after the mask of a block of payload, and what follows.
    pub open spec fn payload_block_done(self, output: Seq<u8>) -> (CcmView, Next) {
        let end = if self.len - self.payload_offset < 16 {
            self.len
        } else {
            self.payload_offset + 16
        };
        let view = CcmView {
            workspace: Seq::new(
                self.workspace.len(),
                |i: int|
                    if self.payload_offset <= i < end {
                        self.workspace[i] ^ output[i - self.payload_offset]
                    } else {
                        self.workspace[i]
                    },
            ),
            payload_offset: end,
            ..self
        };
        (
            view,
            if end == self.len {
                view.payload_done()
            } else {
                Next::Payload
            },
        )
    }

    /// The operation after a block that the driver has returned, and what follows.
    pub open spec fn absorbed(self, output: Seq<u8>) -> (CcmView, Next) {
        match self.state {
            State::Mac => self.mac_block_done(output),
            State::Tag => self.tag_block_done(output),
            _ => self.payload_block_done(output),
        }
    }

    /// How much associated data the next block needs.
    pub open spec fn aad_wanted(self) -> nat {
        (self.aad_taken(self.aad_offset + 16) - self.aad_taken(self.aad_offset)) as nat
    }

    /// The operation with the block of `next` handed to the driver; `part` is the associated data
    /// that the block needs.
    pub open spec fn begun(self, next: Next, part: Seq<u8>) -> CcmView {
        match next {
            Next::Mac => CcmView {
                state: State::Mac,
                mac: bytes::zeros(16),
                mac_stage: MacStage::B0,
                aad_offset: 0,
                payload_offset: 0,
                associated_data: Seq::empty(),
                session: self.session.staged(
                    ccm_math::first_block(self.nonce, self.len, self.aad_len, self.tag_len),
                ),
                ..self
            },
            Next::AssociatedData => CcmView {
                state: State::Mac,
                aad_offset: self.aad_offset + 16,
                associated_data: self.associated_data + part,
                session: self.session.staged(
                    bytes::xor(
                        bytes::block_at(
                            ccm_math::aad_prefix(self.aad_len) + self.associated_data + part,
                            self.aad_offset as int,
                        ),
                        self.mac,
                    ),
                ),
                ..self
            },
            Next::MacPayload => CcmView {
                state: State::Mac,
                payload_offset: if self.len - self.payload_offset < 16 {
                    self.len
                } else {
                    self.payload_offset + 16
                },
                session: self.session.staged(
                    bytes::xor(
                        bytes::block_at(
                            self.workspace.take(self.len as int),
                            self.payload_offset as int,
                        ),
                        self.mac,
                    ),
                ),
                ..self
            },
            Next::Tag => CcmView {
                state: State::Tag,
                session: self.session.staged(ccm_math::counter_block(self.nonce, 0)),
                ..self
            },
            Next::Payload => CcmView {
                state: State::Payload,
                session: self.session.staged(
                    ccm_math::counter_block(self.nonce, (self.payload_offset / 16 + 1) as nat),
                ),
                ..self
            },
            _ => self,
        }
    }

    /// What must hold for `next` to follow.
    pub open spec fn may(self, next: Next) -> bool {
        &&& self.session.wf()
        &&& self.mac.len() == 16
        &&& self.tag.len() == 16
        &&& self.workspace.len() <= usize::MAX
        &&& !(self.state is Idle)
        &&& self.is_initialized()
        &&& match next {
            Next::AssociatedData => {
                &&& self.mac_in_order()
                &&& self.mac_stage is AssociatedData
                &&& self.aad_offset < ccm_math::aad_padded_len(self.aad_len)
            },
            Next::MacPayload => {
                &&& self.mac_in_order()
                &&& self.mac_stage is Payload
                &&& self.payload_offset < self.len
            },
            Next::Payload => self.payload_offset < self.len && self.payload_offset % 16 == 0,
            Next::Output { len } => len <= self.workspace.len(),
            _ => true,
        }
    }

    /// `later` is the operation ended with `result`: the driver is given back, and the client is
    /// told.
    pub open spec fn ended(
        self,
        result: Result<(), ErrorCode>,
        calls: Seq<Call>,
        later: CcmView,
        mutex: MutexView,
        later_mutex: MutexView,
    ) -> bool {
        &&& later == (CcmView {
            state: State::Idle,
            session: SessionView { guard: None, ..self.session },
            ..self
        })
        &&& later_mutex == (if self.session.guard is Some {
            mutex.released()
        } else {
            mutex
        })
        &&& calls == seq![Call::Done { result }]
    }

    /// `later` is this operation after its block was handed to the driver: it goes on if the
    /// driver takes the block, and ends with the driver's error if not.
    pub open spec fn launched(
        self,
        driver_calls: Seq<Call>,
        calls: Seq<Call>,
        later: CcmView,
        mutex: MutexView,
        later_mutex: MutexView,
    ) -> bool {
        &&& driver_calls.len() == 1
        &&& match driver_calls[0] {
            Call::EcbCrypt { len: 16, operation: Operation::Encrypt, result } => match result {
                Ok(()) => later == self && later_mutex == mutex && calls.len() == 0,
                Err(error) => self.ended(Err(error), calls, later, mutex, later_mutex),
            },
            _ => false,
        }
    }

    /// `later` is this operation after `next` was carried out, with the calls that were made to
    /// the driver and to the client.
    pub open spec fn carried_out(
        self,
        next: Next,
        driver_calls: Seq<Call>,
        calls: Seq<Call>,
        later: CcmView,
        mutex: MutexView,
        later_mutex: MutexView,
    ) -> bool {
        match next {
            Next::Reject => driver_calls.len() == 0 && self.ended(
                Err(ErrorCode::FAIL),
                calls,
                later,
                mutex,
                later_mutex,
            ),
            Next::Output { len } => {
                &&& driver_calls.len() == 0
                &&& calls.len() > 0
                &&& match calls[0] {
                    Call::Write { port: Port::Output, data, result } => data
                        == self.workspace.take(len as int) && self.ended(
                        result,
                        calls.skip(1),
                        later,
                        mutex,
                        later_mutex,
                    ),
                    _ => false,
                }
            },
            Next::AssociatedData => exists|n: int|
                0 <= n <= calls.len() && match trace::gather_outcome(
                    #[trigger] calls.take(n),
                    Port::AssociatedData,
                    self.aad_wanted(),
                ) {
                    Some(Ok(part)) => self.begun(next, part).launched(
                        driver_calls,
                        calls.skip(n),
                        later,
                        mutex,
                        later_mutex,
                    ),
                    Some(Err(error)) => driver_calls.len() == 0 && self.ended(
                        Err(error),
                        calls.skip(n),
                        later,
                        mutex,
                        later_mutex,
                    ),
                    None => false,
                },
            _ => self.begun(next, Seq::empty()).launched(
                driver_calls,
                calls,
                later,
                mutex,
                later_mutex,
            ),
        }
    }

    /// `later` is this operation after the driver said how its block ended.
    pub open spec fn resumed(
        self,
        driver_calls: Seq<Call>,
        calls: Seq<Call>,
        later: CcmView,
        mutex: MutexView,
        later_mutex: MutexView,
    ) -> bool {
        let view = CcmView { session: SessionView { completion: None, ..self.session }, ..self };
        match self.session.completion {
            None => driver_calls.len() == 0 && calls.len() == 0 && later == self && later_mutex
                == mutex,
            Some(completion) => if self.state is Idle {
                driver_calls.len() == 0 && calls.len() == 0 && later == view && later_mutex == mutex
            } else if completion is Ok && self.session.exchanged() && self.is_running() {
                let (view, next) = view.absorbed(self.session.output);
                view.carried_out(next, driver_calls, calls, later, mutex, later_mutex)
            } else {
                let error = match completion {
                    Err(error) => error,
                    Ok(()) => ErrorCode::FAIL,
                };
                driver_calls.len() == 0 && view.ended(
                    Err(error),
                    calls,
                    later,
                    mutex,
                    later_mutex,
                )
            },
        }
    }

    /// `later` is this operation after the mutex handed out the driver.
    pub open spec fn readied(
        self,
        driver_calls: Seq<Call>,
        calls: Seq<Call>,
        later: CcmView,
        mutex: MutexView,
        later_mutex: MutexView,
    ) -> bool {
        let view = CcmView {
            session: SessionView { guard: Some(mutex.id), ..self.session },
            ..self
        };
        &&& driver_calls.len() > 0
        &&& driver_calls[0] == (Call::SetClient { client: self.session.id })
        &&& exists|n: int|
            0 <= n <= calls.len() && match view.initialized(#[trigger] calls.take(n)) {
                Some(Ok(view)) => view.carried_out(
                    view.first(),
                    driver_calls.skip(1),
                    calls.skip(n),
                    later,
                    mutex,
                    later_mutex,
                ),
                Some(Err(error)) => driver_calls.len() == 1 && view.stranded(calls.take(n)).ended(
                    Err(error),
                    calls.skip(n),
                    later,
                    mutex,
                    later_mutex,
                ),
                None => false,
            }
    }

    /// This operation after `calls` that failed to initialize it. Until all that comes before the
    /// input has come, nothing changes; input that fails leaves in the workspace what has come of it.
    pub open spec fn stranded(self, calls: Seq<Call>) -> CcmView {
        if session::reached_input(calls) {
            CcmView {
                session: SessionView { key: calls[0]->Fill_buffer, ..self.session },
                nonce: calls[1]->Read_buffer.take(calls[1]->count->Ok_0 as int),
                workspace: trace::read_into(self.workspace, calls.skip(2), self.input_len()),
                ..self
            }
        } else {
            self
        }
    }
}

/// AES-128 CCM implemented in software using an encryption-only ECB driver.
///
/// The `workspace` passed to [`SoftwareCcm::new`] must be large enough to hold the payload and
/// authentication tag. Encryption retains the plaintext there while computing the CBC-MAC, and
/// decryption retains plaintext there until authentication succeeds.
///
/// A `SoftwareCcm` must be registered with its ECB mutex using [`SoftwareCcm::register`].
pub struct SoftwareCcm<E> {
    session: EcbSession<E>,
    workspace: Vec<u8>,
    state: State,
    operation: Operation,
    len: usize,
    associated_data_len: usize,
    tag_len: usize,
    nonce: [u8; 13],
    nonce_len: usize,
    mac_stage: MacStage,
    mac: [u8; 16],
    aad_prefix: [u8; 10],
    aad_prefix_len: usize,
    aad_encoded_offset: usize,
    aad_padded_len: usize,
    payload_offset: usize,
    tag: [u8; 16],
    input: Ghost<Seq<u8>>,
    associated_data: Ghost<Seq<u8>>,
}

impl<E> View for SoftwareCcm<E> {
    type V = CcmView;

    closed spec fn view(&self) -> CcmView {
        CcmView {
            session: self.session@,
            state: self.state,
            operation: self.operation,
            len: self.len as nat,
            aad_len: self.associated_data_len as nat,
            tag_len: self.tag_len as nat,
            nonce: self.nonce@.take(self.nonce_len as int),
            mac_stage: self.mac_stage,
            mac: self.mac@,
            aad_offset: self.aad_encoded_offset as nat,
            payload_offset: self.payload_offset as nat,
            tag: self.tag@,
            workspace: self.workspace@,
            input: self.input@,
            associated_data: self.associated_data@,
        }
    }
}

impl<E: Resource> Resource for SoftwareCcm<E> {
    open spec fn kind() -> Kind {
        Kind { number: 6, over: E::kind().number }
    }

    fn resource_kind() -> (kind: Kind) {
        Kind { number: 6, over: E::resource_kind().number }
    }
}

impl<E> Observed for SoftwareCcm<E> {
    closed spec fn log(&self) -> Seq<Call> {
        self.session.log()
    }

    closed spec fn valid(&self) -> bool {
        &&& self.fits()
        &&& self@.wf()
    }
}

impl<E> SoftwareCcm<E> {
    /// The prepared encoding of the length of the associated data is right, and the nonce lies in
    /// its buffer.
    spec fn fits(&self) -> bool {
        &&& self.nonce_len <= 13
        &&& self.aad_prefix_len <= 10
        &&& self.aad_prefix@.take(self.aad_prefix_len as int) == ccm_math::aad_prefix(
            self.associated_data_len as nat,
        )
        &&& self.aad_padded_len == ccm_math::aad_padded_len(self.associated_data_len as nat)
    }
}

impl<E> SoftwareCcm<E> {
    /// Create a software CCM implementation numbered `id` with a workspace.
    pub fn new(id: usize, workspace: Vec<u8>) -> (ccm: Self)
        ensures
            ccm.valid(),
            ccm.log() == Seq::<Call>::empty(),
            ccm@.state is Idle,
            ccm@.workspace == workspace@,
            ccm@.session == SessionView::fresh(id),
    {
        assert(workspace.len() <= usize::MAX);
        let ccm = SoftwareCcm {
            session: EcbSession::new(id),
            workspace,
            state: State::Idle,
            operation: Operation::Encrypt,
            len: 0,
            associated_data_len: 0,
            tag_len: 0,
            nonce: [0u8;13],
            nonce_len: 0,
            mac_stage: MacStage::B0,
            mac: [0u8;16],
            aad_prefix: [0u8;10],
            aad_prefix_len: 0,
            aad_encoded_offset: 0,
            aad_padded_len: 0,
            payload_offset: 0,
            tag: [0u8;16],
            input: Ghost(Seq::empty()),
            associated_data: Ghost(Seq::empty()),
        };
        assert(ccm.aad_prefix@.take(0) =~= Seq::<u8>::empty());
        ccm
    }

    /// Register this CCM implementation as a client of its ECB mutex. Returns `ALREADY` if it is
    /// registered, and `NOMEM` if the mutex has no room for another client.
    pub fn register(&mut self, ecb_mutex: &mut DriverMutex<E>) -> (result: Result<(), ErrorCode>)
        requires
            old(self).valid(),
            old(ecb_mutex)@.wf(),
        ensures
            final(self).valid(),
            final(ecb_mutex)@.wf(),
            final(ecb_mutex).guarded() == old(ecb_mutex).guarded(),
            final(self).log() == old(self).log(),
            final(self)@ == (CcmView { session: final(self)@.session, ..old(self)@ }),
            session::register_result(
                old(self)@.session,
                old(ecb_mutex)@,
                result,
                final(self)@.session,
                final(ecb_mutex)@,
            ),
    {
        self.session.register(ecb_mutex)
    }

    /// Set the client that will receive callbacks for CCM operations.
    pub fn set_client(&mut self, client: usize)
        requires
            old(self).valid(),
        ensures
            final(self).valid(),
            final(self).log() == old(self).log(),
            final(self)@ == (CcmView {
                session: SessionView { client: Some(client), ..old(self)@.session },
                ..old(self)@
            }),
    {
        self.session.set_client(client);
    }

    /// Encodes the length of the associated data. Returns the encoding and its length.
    pub fn aad_prefix(associated_data_len: usize) -> (encoded: ([u8; 10], usize))
        ensures
            encoded.1 <= 10,
            encoded.0@.take(encoded.1 as int) == ccm_math::aad_prefix(associated_data_len as nat),
    {
        broadcast use bytes::lemma_be_bytes_len;

        let mut prefix = [0u8;10];
        if associated_data_len == 0 {
            assert(prefix@.take(0) =~= ccm_math::aad_prefix(0));
            (prefix, 0)
        } else if associated_data_len < 0xff00 {
            bytes::write_be(&mut prefix, 2, associated_data_len as u128, 2);
            assert(prefix@.take(2) =~= ccm_math::aad_prefix(associated_data_len as nat));
            (prefix, 2)
        } else if associated_data_len as u64 <= 0xffff_ffff {
            prefix[0] = 0xff;
            prefix[1] = 0xfe;
            bytes::write_be(&mut prefix, 6, associated_data_len as u128, 4);
            assert(prefix@.take(6) =~= ccm_math::aad_prefix(associated_data_len as nat));
            (prefix, 6)
        } else {
            prefix[0] = 0xff;
            prefix[1] = 0xff;
            bytes::write_be(&mut prefix, 10, associated_data_len as u128, 8);
            assert(prefix@.take(10) =~= ccm_math::aad_prefix(associated_data_len as nat));
            (prefix, 10)
        }
    }

    /// Whether the payload length can be encoded beside a nonce of the given length.
    pub fn payload_fits_nonce(payload_len: usize, nonce_len: usize) -> (fits: bool)
        requires
            nonce_len <= 13,
        ensures
            fits <==> payload_len < bytes::pow256(ccm_math::length_bytes(nonce_len as nat)),
    {
        let length_bytes: usize = BLOCK_SIZE - 1 - nonce_len;
        let mut limit: u128 = 1;
        let mut i: usize = 0;
        while i < length_bytes
            invariant
                i <= length_bytes <= 15,
                limit == bytes::pow256(i as nat),
            decreases length_bytes - i,
        {
            proof {
                bytes::lemma_pow256_below(i as nat);
            }
            limit = limit * 256;
            i = i + 1;
        }
        (payload_len as u128) < limit
    }

    /// Writes `value` to the last `bytes` bytes of a block.
    fn encode_length(block: &mut [u8; 16], value: usize, bytes: usize)
        requires
            bytes <= 16,
        ensures
            final(block)@ == old(block)@.take(16 - bytes) + bytes::be_bytes(
                value as nat,
                bytes as nat,
            ),
    {
        broadcast use bytes::lemma_be_bytes_len;

        let ghost before = block@;
        bytes::write_be(block, 16, value as u128, bytes);
        assert(block@ =~= before.take(16 - bytes) + bytes::be_bytes(value as nat, bytes as nat));
    }
}

impl<E: Ecb<Aes128> + Resource> SoftwareCcm<E> {
    /// Initiate a CCM operation. `len` is the length of the payload without the tag.
    ///
    /// Returns `BUSY` while an operation is in progress, `OFF` if the client or the registration
    /// is missing, `SIZE` if a length is too large, and else what the mutex answers.
    pub fn crypt(
        &mut self,
        ecb_mutex: &mut DriverMutex<E>,
        len: usize,
        associated_data_len: usize,
        tag_len: CcmTagLength,
        operation: Operation,
    ) -> (result: Result<(), ErrorCode>)
        requires
            old(self).valid(),
            old(ecb_mutex)@.wf(),
            old(self)@.session.handle matches Some(handle) ==> old(ecb_mutex)@.admits(handle),
        ensures
            final(self).valid(),
            final(ecb_mutex)@.wf(),
            final(ecb_mutex).guarded() == old(ecb_mutex).guarded(),
            final(self).log() == old(self).log(),
            result == old(self)@.crypt_result(
                old(ecb_mutex)@,
                len as nat,
                associated_data_len as nat,
                tag_len.bits() / 8,
            ),
            result is Ok ==> {
                &&& final(self)@ == old(self)@.accepted(
                    len as nat,
                    associated_data_len as nat,
                    tag_len.bits() / 8,
                    operation,
                )
                &&& final(ecb_mutex)@ == old(ecb_mutex)@.requested(old(self)@.session.handle->0)
            },
            result is Err ==> final(ecb_mutex)@ == old(ecb_mutex)@,
            result is Err ==> final(self)@ == old(self)@.refused(
                len as nat,
                associated_data_len as nat,
                tag_len.bits() / 8,
                operation,
            ),
    {
        if self.state != State::Idle {
            return Err(ErrorCode::BUSY);
        }
        if !self.session.is_configured() {
            return Err(ErrorCode::OFF);
        }
        let tag_len: usize = tag_len.bytes();
        let room: usize = self.workspace.len();
        let workspace_len: usize = match len.checked_add(tag_len) {
            Some(sum) => sum,
            None => {
                return Err(ErrorCode::SIZE);
            },
        };
        if room < workspace_len {
            return Err(ErrorCode::SIZE);
        }
        let (aad_prefix, aad_prefix_len) = Self::aad_prefix(associated_data_len);
        assert(aad_prefix_len == ccm_math::aad_prefix(associated_data_len as nat).len());
        let encoded_len: usize = match aad_prefix_len.checked_add(associated_data_len) {
            Some(sum) => sum,
            None => {
                return Err(ErrorCode::SIZE);
            },
        };
        let rounded_len: usize = match encoded_len.checked_add(BLOCK_SIZE - 1) {
            Some(sum) => sum,
            None => {
                return Err(ErrorCode::SIZE);
            },
        };
        let aad_padded_len: usize = rounded_len / BLOCK_SIZE * BLOCK_SIZE;

        self.operation = operation;
        self.len = len;
        self.associated_data_len = associated_data_len;
        self.tag_len = tag_len;
        self.aad_prefix = aad_prefix;
        self.aad_prefix_len = aad_prefix_len;
        self.aad_padded_len = aad_padded_len;
        self.state = State::WaitingForEcb;

        let result = self.session.request(ecb_mutex);
        if result.is_err() {
            self.state = State::Idle;
        }
        result
    }

    /// Gives up the driver and tells the client how the operation ended. Does nothing if no
    /// operation is in progress.
    fn finish<K: CcmClient<Aes128>>(
        &mut self,
        result: Result<(), ErrorCode>,
        ecb_mutex: &mut DriverMutex<E>,
        client: &mut K,
    )
        requires
            old(self).fits(),
            old(self)@.session.wf(),
            old(self)@.mac.len() == 16,
            old(self)@.tag.len() == 16,
            old(self)@.workspace.len() <= usize::MAX,
            old(self)@.state is Idle ==> old(self)@.wf(),
            !(old(self)@.state is Idle) ==> old(self)@.session.client is Some,
            old(self)@.session.linked(old(ecb_mutex)@),
            old(ecb_mutex)@.wf(),
            old(client).valid(),
        ensures
            final(self).valid(),
            final(self)@.session.linked(final(ecb_mutex)@),
            final(ecb_mutex)@.wf(),
            final(ecb_mutex).guarded() == old(ecb_mutex).guarded(),
            final(client).valid(),
            final(self).log() == old(self).log(),
            trace::extends(final(client).log(), old(client).log()),
            old(self)@.state is Idle ==> final(self)@ == old(self)@ && final(ecb_mutex)@ == old(ecb_mutex)@ && final(client).log() == old(client).log(),
            !(old(self)@.state is Idle) ==> old(self)@.ended(
                result,
                trace::since(final(client).log(), old(client).log()),
                final(self)@,
                old(ecb_mutex)@,
                final(ecb_mutex)@,
            ),
    {
        broadcast use trace::lemma_since_append;

        let ghost log = client.log();
        if self.state == State::Idle {
            assert(log + Seq::empty() =~= log);
            return;
        }
        self.state = State::Idle;
        self.session.detach(ecb_mutex);
        if self.session.has_client() {
            client.crypt_done(result);
            assert(client.log() =~= log + seq![Call::Done { result }]);
        }
    }

    /// Reads `input_len` bytes of input into the front of the workspace.
    fn read_full_input<K: CcmClient<Aes128>>(&mut self, client: &mut K, input_len: usize) -> (result:
        Result<(), ErrorCode>)
        requires
            old(self).fits(),
            input_len <= old(self)@.workspace.len(),
            old(client).valid(),
        ensures
            final(self).fits(),
            final(client).valid(),
            final(self).log() == old(self).log(),
            final(self)@.workspace.len() == old(self)@.workspace.len(),
            final(self)@.workspace.skip(input_len as int) == old(self)@.workspace.skip(
                input_len as int,
            ),
            final(self)@ == (CcmView { workspace: final(self)@.workspace, ..old(self)@ }),
            trace::extends(final(client).log(), old(client).log()),
            final(self)@.workspace == trace::read_into(
                old(self)@.workspace,
                trace::since(final(client).log(), old(client).log()),
                input_len as nat,
            ),
            trace::gather_outcome(
                trace::since(final(client).log(), old(client).log()),
                Port::Input,
                input_len as nat,
            ) == Some(
                match result {
                    Ok(()) => Ok(final(self)@.workspace.take(input_len as int)),
                    Err(error) => Err(error),
                },
            ),
    {
        broadcast use trace::lemma_since_append;

        let ghost log = client.log();
        let ghost mut calls: Seq<Call> = Seq::empty();
        let mut offset: usize = 0;
        assert(log + calls =~= log);
        assert(self.workspace@.take(0) =~= Seq::<u8>::empty());
        while offset < input_len
            invariant
                offset <= input_len <= self.workspace@.len(),
                self.fits(),
                self.log() == old(self).log(),
                self@ == (CcmView { workspace: self.workspace@, ..old(self)@ }),
                self.workspace@.len() == old(self).workspace@.len(),
                self.workspace@.skip(input_len as int) == old(self).workspace@.skip(
                    input_len as int,
                ),
                client.valid(),
                client.log() == log + calls,
                self.workspace@ == trace::read_into(
                    old(self).workspace@,
                    calls,
                    input_len as nat,
                ),
                log == old(client).log(),
                trace::gathered(calls, Port::Input, input_len as nat) == Some(
                    self.workspace@.take(offset as int),
                ),
            decreases input_len - offset,
        {
            broadcast use trace::lemma_since_append;

            let ghost before = self.workspace@;
            let wanted: usize = input_len - offset;
            let (_done, rest) = self.workspace.as_mut_slice().split_at_mut(offset);
            let (destination, _beyond) = rest.split_at_mut(wanted);
            let count = client.read_input(destination);
            let ghost buffer = destination@;
            assert(self.workspace@.subrange(offset as int, input_len as int) =~= buffer);
            let ghost call = client.log().last();
            proof {
                assert(self.workspace@.take(offset as int) =~= before.take(offset as int));
                assert(self.workspace@.skip(input_len as int) =~= before.skip(input_len as int));
                assert(client.log() =~= log + calls.push(call));
                trace::lemma_gather_step(
                    calls,
                    call,
                    Port::Input,
                    input_len as nat,
                    before.take(offset as int),
                );
                trace::lemma_read_into_push(old(self).workspace@, calls, input_len as nat, call);
                assert(self.workspace@ =~= crate::grant::overwritten(
                    before,
                    offset as int,
                    buffer,
                ));
                calls = calls.push(call);
            }
            match count {
                Err(error) => {
                    return Err(error);
                },
                Ok(read) => {
                    if read == 0 || read > wanted {
                        return Err(ErrorCode::INVAL);
                    }
                    assert(self.workspace@.take(offset + read) =~= before.take(offset as int)
                        + buffer.take(read as int));
                    offset = offset + read;
                },
            }
        }
        proof {
            trace::lemma_gather_complete(
                calls,
                Port::Input,
                input_len as nat,
                self.workspace@.take(input_len as int),
            );
        }
        Ok(())
    }
}

impl<E: Ecb<Aes128> + Resource> SoftwareCcm<E> {
    /// Fills `destination` with associated data.
    fn read_associated_data<K: CcmClient<Aes128>>(client: &mut K, destination: &mut [u8]) -> (result:
        Result<(), ErrorCode>)
        requires
            old(client).valid(),
        ensures
            final(client).valid(),
            final(destination)@.len() == old(destination)@.len(),
            trace::extends(final(client).log(), old(client).log()),
            trace::gather_outcome(
                trace::since(final(client).log(), old(client).log()),
                Port::AssociatedData,
                old(destination)@.len(),
            ) == Some(
                match result {
                    Ok(()) => Ok(final(destination)@),
                    Err(error) => Err(error),
                },
            ),
    {
        broadcast use trace::lemma_since_append;

        let ghost log = client.log();
        let ghost mut calls: Seq<Call> = Seq::empty();
        let len: usize = destination.len();
        let mut offset: usize = 0;
        assert(log + calls =~= log);
        assert(destination@.take(0) =~= Seq::<u8>::empty());
        while offset < len
            invariant
                offset <= len,
                len == destination@.len(),
                len == old(destination)@.len(),
                client.valid(),
                client.log() == log + calls,
                log == old(client).log(),
                trace::gathered(calls, Port::AssociatedData, len as nat) == Some(
                    destination@.take(offset as int),
                ),
            decreases len - offset,
        {
            broadcast use trace::lemma_since_append;

            let ghost before = destination@;
            let (_done, remaining) = destination.split_at_mut(offset);
            let wanted: usize = remaining.len();
            let count = client.read_associated_data(remaining);
            let ghost buffer = remaining@;
            let ghost call = client.log().last();
            proof {
                assert(destination@.take(offset as int) =~= before.take(offset as int));
                assert(destination@.skip(offset as int) =~= buffer);
                assert(client.log() =~= log + calls.push(call));
                trace::lemma_gather_step(
                    calls,
                    call,
                    Port::AssociatedData,
                    len as nat,
                    before.take(offset as int),
                );
                calls = calls.push(call);
            }
            match count {
                Err(error) => {
                    return Err(error);
                },
                Ok(read) => {
                    if read == 0 || read > wanted {
                        return Err(ErrorCode::INVAL);
                    }
                    assert(destination@.take(offset + read) =~= before.take(offset as int)
                        + buffer.take(read as int));
                    offset = offset + read;
                },
            }
        }
        assert(destination@.take(len as int) =~= destination@);
        proof {
            trace::lemma_gather_complete(
                calls,
                Port::AssociatedData,
                len as nat,
                destination@,
            );
        }
        Ok(())
    }

    /// Retrieves key, nonce and input.
    fn initialize<K: CcmClient<Aes128>>(&mut self, client: &mut K) -> (result: Result<
        (),
        ErrorCode,
    >)
        requires
            old(self).fits(),
            old(self)@.session.wf(),
            old(self)@.is_requested(),
            old(client).valid(),
        ensures
            final(self).fits(),
            final(client).valid(),
            final(self).log() == old(self).log(),
            trace::extends(final(client).log(), old(client).log()),
            final(self)@.workspace.len() == old(self)@.workspace.len(),
            final(self)@.session.key.len() == 16,
            result is Err ==> final(self)@ == old(self)@.stranded(
                trace::since(final(client).log(), old(client).log()),
            ),
            old(self)@.initialized(trace::since(final(client).log(), old(client).log())) == Some(
                match result {
                    Ok(()) => Ok(final(self)@),
                    Err(error) => Err(error),
                },
            ),
            result is Ok ==> 7 <= final(self)@.nonce.len() <= 13 && final(self)@.len
                < bytes::pow256(ccm_math::length_bytes(final(self)@.nonce.len())),
    {
        let ghost log = client.log();
        let ghost start = self@;
        assert(self.workspace.len() <= usize::MAX);
        let mut key = [0u8;16];
        let result = client.read_key(&mut key);
        let ghost fill = client.log().last();
        proof {
            assert(client.log() =~= log + seq![fill]);
            trace::lemma_since_append(log, seq![fill]);
        }
        if let Err(error) = result {
            return Err(error);
        }
        let mut nonce = [0u8;13];
        let count = client.read_nonce(&mut nonce);
        let ghost read = client.log().last();
        proof {
            assert(client.log() =~= log + seq![fill, read]);
            trace::lemma_since_append(log, seq![fill, read]);
            assert(seq![fill, read].skip(1) =~= seq![read]);
        }
        let nonce_len: usize = match count {
            Ok(nonce_len) => nonce_len,
            Err(error) => {
                return Err(error);
            },
        };
        if nonce_len < 7 || nonce_len > MAX_NONCE_SIZE {
            return Err(ErrorCode::INVAL);
        }
        if !Self::payload_fits_nonce(self.len, nonce_len) {
            return Err(ErrorCode::SIZE);
        }
        self.session.set_key(key);
        self.nonce = nonce;
        self.nonce_len = nonce_len;

        let input_len: usize = match self.operation {
            Operation::Encrypt => self.len,
            Operation::Decrypt => self.len + self.tag_len,
        };
        let ghost middle = client.log();
        let ghost before = self@;
        let result = self.read_full_input(client, input_len);
        proof {
            let reads = trace::since(client.log(), middle);
            trace::lemma_extends_append(client.log(), middle);
            let calls = seq![fill, read] + reads;
            assert(client.log() =~= log + calls);
            trace::lemma_since_append(log, calls);
            assert(calls.skip(1).skip(1) =~= reads);
            assert(calls.skip(1)[0] == read);
            assert(start.initialized(calls) == start.initialized_with_key(key@, calls.skip(1)));
            if result is Ok {
                self.input@ = self.workspace@.take(input_len as int);
                assert(self.workspace@ =~= self.input@ + before.workspace.skip(input_len as int));
                assert(start.initialized(calls) == Some(Ok::<CcmView, ErrorCode>(self@)));
            } else {
                trace::lemma_gather_failed(reads, Port::Input, start.input_len());
                assert(calls.last() == reads.last());
                assert(calls.skip(2) =~= reads);
                assert(self@ =~= start.stranded(calls));
            }
        }
        result
    }

    /// Hands a block to the driver and goes to `state`; ends the operation if the driver refuses.
    fn start_ecb_block<K: CcmClient<Aes128>>(
        &mut self,
        state: State,
        input: [u8; 16],
        ecb_mutex: &mut DriverMutex<E>,
        client: &mut K,
    )
        requires
            old(self).fits(),
            old(self)@.session.wf(),
            (CcmView { state, session: old(self)@.session.staged(input@), ..old(self)@ }).wf(),
            (CcmView { state, ..old(self)@ }).is_running(),
            old(self)@.session.linked(old(ecb_mutex)@),
            old(ecb_mutex)@.wf(),
            old(ecb_mutex).guarded().valid(),
            old(client).valid(),
        ensures
            final(self).valid(),
            final(self)@.session.linked(final(ecb_mutex)@),
            final(ecb_mutex)@.wf(),
            final(ecb_mutex).guarded().valid(),
            final(client).valid(),
            final(self).log() == old(self).log(),
            trace::extends(final(client).log(), old(client).log()),
            trace::extends(final(ecb_mutex).guarded().log(), old(ecb_mutex).guarded().log()),
            (CcmView {
                state,
                session: old(self)@.session.staged(input@),
                ..old(self)@
            }).launched(
                trace::since(final(ecb_mutex).guarded().log(), old(ecb_mutex).guarded().log()),
                trace::since(final(client).log(), old(client).log()),
                final(self)@,
                old(ecb_mutex)@,
                final(ecb_mutex)@,
            ),
    {
        broadcast use trace::lemma_since_append;

        let ghost log = client.log();
        let ghost driver_log = ecb_mutex.guarded().log();
        self.state = state;
        let result = self.session.start(ecb_mutex, input, Operation::Encrypt);
        proof {
            assert(log + Seq::empty() =~= log);
            let call = Call::EcbCrypt { len: 16, operation: Operation::Encrypt, result };
            assert(ecb_mutex.guarded().log() =~= driver_log + seq![call]);
        }
        if let Err(error) = result {
            self.finish(Err(error), ecb_mutex, client);
        }
    }
}

impl<E: Ecb<Aes128> + Resource> SoftwareCcm<E> {
    /// Starts to authenticate the message with its first block.
    fn start_mac<K: CcmClient<Aes128>>(
        &mut self,
        ecb_mutex: &mut DriverMutex<E>,
        client: &mut K,
    )
        requires
            old(self).fits(),
            old(self)@.may(Next::Mac),
            old(self)@.session.linked(old(ecb_mutex)@),
            old(ecb_mutex)@.wf(),
            old(ecb_mutex).guarded().valid(),
            old(client).valid(),
        ensures
            final(self).valid(),
            final(self)@.session.linked(final(ecb_mutex)@),
            final(ecb_mutex)@.wf(),
            final(ecb_mutex).guarded().valid(),
            final(client).valid(),
            final(self).log() == old(self).log(),
            trace::extends(final(client).log(), old(client).log()),
            trace::extends(final(ecb_mutex).guarded().log(), old(ecb_mutex).guarded().log()),
            old(self)@.carried_out(
                Next::Mac,
                trace::since(final(ecb_mutex).guarded().log(), old(ecb_mutex).guarded().log()),
                trace::since(final(client).log(), old(client).log()),
                final(self)@,
                old(ecb_mutex)@,
                final(ecb_mutex)@,
            ),
    {
        broadcast use bytes::lemma_be_bytes_len;

        self.mac = [0u8;16];
        self.mac_stage = MacStage::B0;
        self.aad_encoded_offset = 0;
        self.payload_offset = 0;
        proof {
            self.associated_data@ = Seq::empty();
            assert(self.mac@ =~= bytes::zeros(16));
        }
        let nonce_len: usize = self.nonce_len;
        let length_bytes: usize = BLOCK_SIZE - 1 - nonce_len;
        let mut block = [0u8;16];
        let adata: u8 = if self.associated_data_len > 0 {
            64
        } else {
            0
        };
        block[0] = adata + (((self.tag_len - 2) / 2) as u8) * 8 + (length_bytes - 1) as u8;
        let nonce = vstd::slice::slice_subrange(self.nonce.as_slice(), 0, nonce_len);
        bytes::copy_into(&mut block, 1, nonce);
        Self::encode_length(&mut block, self.len, length_bytes);
        assert(block@ =~= ccm_math::first_block(
            self@.nonce,
            self@.len,
            self@.aad_len,
            self@.tag_len,
        ));
        self.start_ecb_block(State::Mac, block, ecb_mutex, client);
    }

    /// Builds the next block of the encoded associated data, reading what it needs of the data.
    fn aad_block<K: CcmClient<Aes128>>(&self, client: &mut K) -> (result: Result<
        [u8; 16],
        ErrorCode,
    >)
        requires
            self.fits(),
            self@.mac_in_order(),
            self@.aad_offset < ccm_math::aad_padded_len(self@.aad_len),
            old(client).valid(),
        ensures
            final(client).valid(),
            trace::extends(final(client).log(), old(client).log()),
            match trace::gather_outcome(
                trace::since(final(client).log(), old(client).log()),
                Port::AssociatedData,
                self@.aad_wanted(),
            ) {
                Some(Ok(part)) => part.len() == self@.aad_wanted() && match result {
                    Ok(block) => block@ == bytes::block_at(
                        ccm_math::aad_prefix(self@.aad_len) + self@.associated_data + part,
                        self@.aad_offset as int,
                    ),
                    Err(_) => false,
                },
                Some(Err(error)) => match result {
                    Ok(_) => false,
                    Err(other) => other == error,
                },
                None => false,
            },
    {
        proof {
            lemma_aad_bounds(self@);
        }
        let block_start: usize = self.aad_encoded_offset;
        assert(self.aad_padded_len <= usize::MAX);
        let block_end: usize = block_start + BLOCK_SIZE;
        let prefix_len: usize = self.aad_prefix_len;
        assert(prefix_len == ccm_math::aad_prefix(self@.aad_len).len());
        let data_end: usize = prefix_len + self.associated_data_len;
        let mut block = [0u8;16];

        if block_start < prefix_len {
            let prefix_end: usize = if prefix_len < block_end {
                prefix_len
            } else {
                block_end
            };
            let prefix = vstd::slice::slice_subrange(
                self.aad_prefix.as_slice(),
                block_start,
                prefix_end,
            );
            bytes::copy_into(&mut block, 0, prefix);
        }
        let associated_start: usize = if block_start < prefix_len {
            prefix_len
        } else {
            block_start
        };
        let associated_end: usize = if block_end < data_end {
            block_end
        } else {
            data_end
        };
        let destination_start: usize = associated_start - block_start;
        let destination_end: usize = associated_end - block_start;
        let whole: &mut [u8] = &mut block;
        let (_front, rest) = whole.split_at_mut(destination_start);
        let (destination, _back) = rest.split_at_mut(destination_end - destination_start);
        let ghost log = client.log();
        let result = Self::read_associated_data(client, destination);
        let ghost part = destination@;
        if let Err(error) = result {
            return Err(error);
        }
        proof {
            lemma_aad_block(
                ccm_math::aad_prefix(self@.aad_len),
                self@.associated_data,
                part,
                self@.aad_offset as int,
                block@,
            );
        }
        Ok(block)
    }

    /// Authenticates the next block of the encoded associated data.
    #[verifier::rlimit(40)]
    fn start_aad_block<K: CcmClient<Aes128>>(
        &mut self,
        ecb_mutex: &mut DriverMutex<E>,
        client: &mut K,
    )
        requires
            old(self).fits(),
            old(self)@.may(Next::AssociatedData),
            old(self)@.session.linked(old(ecb_mutex)@),
            old(ecb_mutex)@.wf(),
            old(ecb_mutex).guarded().valid(),
            old(client).valid(),
        ensures
            final(self).valid(),
            final(self)@.session.linked(final(ecb_mutex)@),
            final(ecb_mutex)@.wf(),
            final(ecb_mutex).guarded().valid(),
            final(client).valid(),
            final(self).log() == old(self).log(),
            trace::extends(final(client).log(), old(client).log()),
            trace::extends(final(ecb_mutex).guarded().log(), old(ecb_mutex).guarded().log()),
            old(self)@.carried_out(
                Next::AssociatedData,
                trace::since(final(ecb_mutex).guarded().log(), old(ecb_mutex).guarded().log()),
                trace::since(final(client).log(), old(client).log()),
                final(self)@,
                old(ecb_mutex)@,
                final(ecb_mutex)@,
            ),
    {
        let ghost start = self@;
        let ghost log = client.log();
        let result = self.aad_block(client);
        let ghost reads = trace::since(client.log(), log);
        let ghost middle = client.log();
        let ghost driver_log = ecb_mutex.guarded().log();
        proof {
            trace::lemma_extends_append(middle, log);
        }
        match result {
            Err(error) => {
                self.finish(Err(error), ecb_mutex, client);
                proof {
                    assert(driver_log + Seq::empty() =~= driver_log);
                    trace::lemma_since_append(driver_log, Seq::empty());
                }
            },
            Ok(block) => {
                proof {
                    let part = trace::gather_outcome(
                        reads,
                        Port::AssociatedData,
                        start.aad_wanted(),
                    )->0->Ok_0;
                    self.associated_data@ = self.associated_data@ + part;
                }
                self.aad_encoded_offset = self.aad_encoded_offset + BLOCK_SIZE;
                let block = bytes::xor_blocks(block, self.mac);
                self.start_ecb_block(State::Mac, block, ecb_mutex, client);
            },
        }
        proof {
            let ends = trace::since(client.log(), middle);
            trace::lemma_extends_append(client.log(), middle);
            assert(client.log() =~= log + (reads + ends));
            trace::lemma_since_append(log, reads + ends);
            assert((reads + ends).take(reads.len() as int) =~= reads);
            assert((reads + ends).skip(reads.len() as int) =~= ends);
        }
    }

    /// Authenticates the next block of the payload.
    fn start_mac_payload_block<K: CcmClient<Aes128>>(
        &mut self,
        ecb_mutex: &mut DriverMutex<E>,
        client: &mut K,
    )
        requires
            old(self).fits(),
            old(self)@.may(Next::MacPayload),
            old(self)@.session.linked(old(ecb_mutex)@),
            old(ecb_mutex)@.wf(),
            old(ecb_mutex).guarded().valid(),
            old(client).valid(),
        ensures
            final(self).valid(),
            final(self)@.session.linked(final(ecb_mutex)@),
            final(ecb_mutex)@.wf(),
            final(ecb_mutex).guarded().valid(),
            final(client).valid(),
            final(self).log() == old(self).log(),
            trace::extends(final(client).log(), old(client).log()),
            trace::extends(final(ecb_mutex).guarded().log(), old(ecb_mutex).guarded().log()),
            old(self)@.carried_out(
                Next::MacPayload,
                trace::since(final(ecb_mutex).guarded().log(), old(ecb_mutex).guarded().log()),
                trace::since(final(client).log(), old(client).log()),
                final(self)@,
                old(ecb_mutex)@,
                final(ecb_mutex)@,
            ),
    {
        let offset: usize = self.payload_offset;
        let left: usize = self.len - offset;
        let block_len: usize = if left < BLOCK_SIZE {
            left
        } else {
            BLOCK_SIZE
        };
        let mut block = [0u8;16];
        let part = vstd::slice::slice_subrange(self.workspace.as_slice(), offset, offset + block_len);
        bytes::copy_into(&mut block, 0, part);
        assert(block@ =~= bytes::block_at(
            self.workspace@.take(self.len as int),
            offset as int,
        ));
        self.payload_offset = offset + block_len;
        let block = bytes::xor_blocks(block, self.mac);
        self.start_ecb_block(State::Mac, block, ecb_mutex, client);
    }

    /// The counter block of this operation with the given counter.
    fn counter_block(&self, counter: usize) -> (block: [u8; 16])
        requires
            self.fits(),
            7 <= self@.nonce.len() <= 13,
        ensures
            block@ == ccm_math::counter_block(self@.nonce, counter as nat),
    {
        broadcast use bytes::lemma_be_bytes_len;

        let nonce_len: usize = self.nonce_len;
        let length_bytes: usize = BLOCK_SIZE - 1 - nonce_len;
        let mut block = [0u8;16];
        block[0] = (length_bytes - 1) as u8;
        let nonce = vstd::slice::slice_subrange(self.nonce.as_slice(), 0, nonce_len);
        bytes::copy_into(&mut block, 1, nonce);
        Self::encode_length(&mut block, counter, length_bytes);
        assert(block@ =~= ccm_math::counter_block(self@.nonce, counter as nat));
        block
    }

    /// Computes the mask of the tag.
    fn start_tag<K: CcmClient<Aes128>>(
        &mut self,
        ecb_mutex: &mut DriverMutex<E>,
        client: &mut K,
    )
        requires
            old(self).fits(),
            old(self)@.may(Next::Tag),
            old(self)@.session.linked(old(ecb_mutex)@),
            old(ecb_mutex)@.wf(),
            old(ecb_mutex).guarded().valid(),
            old(client).valid(),
        ensures
            final(self).valid(),
            final(self)@.session.linked(final(ecb_mutex)@),
            final(ecb_mutex)@.wf(),
            final(ecb_mutex).guarded().valid(),
            final(client).valid(),
            final(self).log() == old(self).log(),
            trace::extends(final(client).log(), old(client).log()),
            trace::extends(final(ecb_mutex).guarded().log(), old(ecb_mutex).guarded().log()),
            old(self)@.carried_out(
                Next::Tag,
                trace::since(final(ecb_mutex).guarded().log(), old(ecb_mutex).guarded().log()),
                trace::since(final(client).log(), old(client).log()),
                final(self)@,
                old(ecb_mutex)@,
                final(ecb_mutex)@,
            ),
    {
        let block = self.counter_block(0);
        self.start_ecb_block(State::Tag, block, ecb_mutex, client);
    }

    /// Computes the mask of the next block of the payload.
    fn start_payload_block<K: CcmClient<Aes128>>(
        &mut self,
        ecb_mutex: &mut DriverMutex<E>,
        client: &mut K,
    )
        requires
            old(self).fits(),
            old(self)@.may(Next::Payload),
            old(self)@.session.linked(old(ecb_mutex)@),
            old(ecb_mutex)@.wf(),
            old(ecb_mutex).guarded().valid(),
            old(client).valid(),
        ensures
            final(self).valid(),
            final(self)@.session.linked(final(ecb_mutex)@),
            final(ecb_mutex)@.wf(),
            final(ecb_mutex).guarded().valid(),
            final(client).valid(),
            final(self).log() == old(self).log(),
            trace::extends(final(client).log(), old(client).log()),
            trace::extends(final(ecb_mutex).guarded().log(), old(ecb_mutex).guarded().log()),
            old(self)@.carried_out(
                Next::Payload,
                trace::since(final(ecb_mutex).guarded().log(), old(ecb_mutex).guarded().log()),
                trace::since(final(client).log(), old(client).log()),
                final(self)@,
                old(ecb_mutex)@,
                final(ecb_mutex)@,
            ),
    {
        let block = self.counter_block(self.payload_offset / BLOCK_SIZE + 1);
        self.start_ecb_block(State::Payload, block, ecb_mutex, client);
    }

    /// Hands the front of the workspace to the client and ends the operation.
    fn write_output<K: CcmClient<Aes128>>(
        &mut self,
        output_len: usize,
        ecb_mutex: &mut DriverMutex<E>,
        client: &mut K,
    )
        requires
            old(self).fits(),
            old(self)@.may((Next::Output { len: output_len })),
            old(self)@.session.linked(old(ecb_mutex)@),
            old(ecb_mutex)@.wf(),
            old(ecb_mutex).guarded().valid(),
            old(client).valid(),
        ensures
            final(self).valid(),
            final(self)@.session.linked(final(ecb_mutex)@),
            final(ecb_mutex)@.wf(),
            final(ecb_mutex).guarded().valid(),
            final(client).valid(),
            final(self).log() == old(self).log(),
            trace::extends(final(client).log(), old(client).log()),
            trace::extends(final(ecb_mutex).guarded().log(), old(ecb_mutex).guarded().log()),
            old(self)@.carried_out(
                (Next::Output { len: output_len }),
                trace::since(final(ecb_mutex).guarded().log(), old(ecb_mutex).guarded().log()),
                trace::since(final(client).log(), old(client).log()),
                final(self)@,
                old(ecb_mutex)@,
                final(ecb_mutex)@,
            ),
    {
        let ghost log = client.log();
        let ghost driver_log = ecb_mutex.guarded().log();
        let output = vstd::slice::slice_subrange(self.workspace.as_slice(), 0, output_len);
        let result = client.write_output(output);
        let ghost call = Call::Write { port: Port::Output, data: output@, result };
        let ghost middle = client.log();
        self.finish(result, ecb_mutex, client);
        proof {
            let ends = trace::since(client.log(), middle);
            trace::lemma_extends_append(client.log(), middle);
            assert(client.log() =~= log + (seq![call] + ends));
            trace::lemma_since_append(log, seq![call] + ends);
            assert(driver_log + Seq::empty() =~= driver_log);
            trace::lemma_since_append(driver_log, Seq::empty());
            assert((seq![call] + ends).skip(1) =~= ends);
        }
    }
}

impl<E> SoftwareCcm<E> {
    /// Takes a block of the authentication code. Returns what follows.
    fn mac_block_done(&mut self, output: [u8; 16]) -> (next: Next)
        requires
            old(self).fits(),
            old(self)@.wf(),
            old(self)@.state is Mac,
        ensures
            final(self).fits(),
            final(self)@.may(next),
            final(self).log() == old(self).log(),
            (final(self)@, next) == old(self)@.mac_block_done(output@),
    {
        proof {
            let padded = ccm_math::aad_padded_len(self@.aad_len);
            assert(padded % 16 == 0);
        }
        self.mac = output;
        match self.mac_stage {
            MacStage::B0 => {
                if self.aad_padded_len > 0 {
                    self.mac_stage = MacStage::AssociatedData;
                    Next::AssociatedData
                } else if self.len > 0 {
                    self.mac_stage = MacStage::Payload;
                    Next::MacPayload
                } else {
                    self.mac_done()
                }
            },
            MacStage::AssociatedData => {
                if self.aad_encoded_offset < self.aad_padded_len {
                    Next::AssociatedData
                } else if self.len > 0 {
                    self.mac_stage = MacStage::Payload;
                    Next::MacPayload
                } else {
                    self.mac_done()
                }
            },
            MacStage::Payload => {
                if self.payload_offset < self.len {
                    Next::MacPayload
                } else {
                    self.mac_done()
                }
            },
        }
    }

    /// Takes the complete authentication code. Returns what follows: when decrypting, output only
    /// if it agrees with the tag.
    fn mac_done(&mut self) -> (next: Next)
        requires
            old(self).fits(),
            old(self)@.wf(),
            old(self)@.state is Mac,
        ensures
            final(self).fits(),
            final(self)@.may(next),
            final(self).log() == old(self).log(),
            (final(self)@, next) == old(self)@.mac_done(),
    {
        match self.operation {
            Operation::Encrypt => {
                self.tag = self.mac;
                Next::Tag
            },
            Operation::Decrypt => {
                let mut difference: u8 = 0;
                let mut i: usize = 0;
                while i < self.tag_len
                    invariant
                        i <= self.tag_len <= 16,
                        difference == 0 <==> forall|j: int|
                            0 <= j < i ==> #[trigger] self.mac@[j] == self.tag@[j],
                    decreases self.tag_len - i,
                {
                    let a: u8 = self.mac[i];
                    let b: u8 = self.tag[i];
                    let ghost before = difference;
                    difference = difference | (a ^ b);
                    assert(difference == 0 <==> before == 0 && a == b) by (bit_vector)
                        requires
                            difference == before | (a ^ b),
                    ;
                    i = i + 1;
                }
                proof {
                    let n = self.tag_len as int;
                    if difference == 0 {
                        assert(self.mac@.take(n) =~= self.tag@.take(n));
                    } else {
                        let j = choose|j: int|
                            0 <= j < n && #[trigger] self.mac@[j] != self.tag@[j];
                        assert(self.mac@.take(n)[j] != self.tag@.take(n)[j]);
                    }
                }
                if difference == 0 {
                    Next::Output { len: self.len }
                } else {
                    Next::Reject
                }
            },
        }
    }

    /// Takes the mask of the tag: masks the tag behind the payload, or unmasks the one that came
    /// with the input. Returns what follows.
    fn tag_block_done(&mut self, output: [u8; 16]) -> (next: Next)
        requires
            old(self).fits(),
            old(self)@.wf(),
            old(self)@.state is Tag,
        ensures
            final(self).fits(),
            final(self)@.may(next),
            final(self).log() == old(self).log(),
            (final(self)@, next) == old(self)@.tag_block_done(output@),
    {
        let tag_len: usize = self.tag_len;
        let len: usize = self.len;
        let room: usize = self.workspace.len();
        match self.operation {
            Operation::Encrypt => {
                let ghost before = self@;
                let mut i: usize = 0;
                while i < tag_len
                    invariant
                        i <= tag_len <= 16,
                        tag_len == before.tag_len,
                        len == before.len,
                        len + tag_len <= before.workspace.len(),
                        room == before.workspace.len(),
                        self.fits(),
                        self.log() == old(self).log(),
                        self@ == (CcmView { workspace: self@.workspace, ..before }),
                        self@.workspace.len() == before.workspace.len(),
                        self.tag@ == before.tag,
                        forall|j: int|
                            0 <= j < before.workspace.len() ==> #[trigger] self@.workspace[j] == (
                            if len <= j < len + i {
                                before.tag[j - len] ^ output@[j - len]
                            } else {
                                before.workspace[j]
                            }),
                    decreases tag_len - i,
                {
                    self.workspace[len + i] = self.tag[i] ^ output[i];
                    i = i + 1;
                }
                assert(self@.workspace =~= before.workspace.take(len as int) + bytes::xor(
                    before.tag.take(tag_len as int),
                    output@,
                ) + before.workspace.skip(len + tag_len));
            },
            Operation::Decrypt => {
                let mut tag = [0u8;16];
                let mut i: usize = 0;
                while i < tag_len
                    invariant
                        i <= tag_len <= 16,
                        tag_len == self.tag_len,
                        len == self.len,
                        len + tag_len <= self.workspace@.len(),
                        room == self.workspace@.len(),
                        forall|j: int|
                            0 <= j < 16 ==> #[trigger] tag@[j] == (if j < i {
                                self.workspace@[len + j] ^ output@[j]
                            } else {
                                0u8
                            }),
                    decreases tag_len - i,
                {
                    tag[i] = self.workspace[len + i] ^ output[i];
                    i = i + 1;
                }
                assert(tag@ =~= bytes::xor(
                    self.workspace@.subrange(len as int, len + tag_len),
                    output@,
                ) + bytes::zeros((16 - tag_len) as nat));
                self.tag = tag;
            },
        }
        self.payload_offset = 0;
        if len == 0 {
            self.payload_done()
        } else {
            Next::Payload
        }
    }

    /// Takes the mask of a block of payload and applies it. Returns what follows.
    fn payload_block_done(&mut self, output: [u8; 16]) -> (next: Next)
        requires
            old(self).fits(),
            old(self)@.wf(),
            old(self)@.state is Payload,
        ensures
            final(self).fits(),
            final(self)@.may(next),
            final(self).log() == old(self).log(),
            (final(self)@, next) == old(self)@.payload_block_done(output@),
    {
        let offset: usize = self.payload_offset;
        let left: usize = self.len - offset;
        let block_len: usize = if left < BLOCK_SIZE {
            left
        } else {
            BLOCK_SIZE
        };
        let ghost before = self@;
        let room: usize = self.workspace.len();
        let mut i: usize = 0;
        while i < block_len
            invariant
                i <= block_len <= 16,
                offset + block_len <= before.workspace.len(),
                room == before.workspace.len(),
                self.fits(),
                self.log() == old(self).log(),
                self@ == (CcmView { workspace: self@.workspace, ..before }),
                self@.workspace.len() == before.workspace.len(),
                forall|j: int|
                    0 <= j < before.workspace.len() ==> #[trigger] self@.workspace[j] == (
                    if offset <= j < offset + i {
                        before.workspace[j] ^ output@[j - offset]
                    } else {
                        before.workspace[j]
                    }),
            decreases block_len - i,
        {
            self.workspace[offset + i] = self.workspace[offset + i] ^ output[i];
            i = i + 1;
        }
        let next_offset: usize = offset + block_len;
        self.payload_offset = next_offset;
        assert(self@ =~= before.payload_block_done(output@).0);
        if next_offset == self.len {
            self.payload_done()
        } else {
            Next::Payload
        }
    }

    /// Returns what follows once the payload is masked.
    fn payload_done(&self) -> (next: Next)
        requires
            self@.len + self@.tag_len <= self@.workspace.len(),
        ensures
            next == self@.payload_done(),
    {
        assert(self.workspace.len() <= usize::MAX);
        match self.operation {
            Operation::Encrypt => Next::Output { len: self.len + self.tag_len },
            Operation::Decrypt => Next::Mac,
        }
    }
}

impl<E: Ecb<Aes128> + Resource> SoftwareCcm<E> {
    /// Carries out what follows.
    fn proceed<K: CcmClient<Aes128>>(
        &mut self,
        next: Next,
        ecb_mutex: &mut DriverMutex<E>,
        client: &mut K,
    )
        requires
            old(self).fits(),
            old(self)@.may(next),
            old(self)@.session.linked(old(ecb_mutex)@),
            old(ecb_mutex)@.wf(),
            old(ecb_mutex).guarded().valid(),
            old(client).valid(),
        ensures
            final(self).valid(),
            final(self)@.session.linked(final(ecb_mutex)@),
            final(ecb_mutex)@.wf(),
            final(ecb_mutex).guarded().valid(),
            final(client).valid(),
            final(self).log() == old(self).log(),
            trace::extends(final(client).log(), old(client).log()),
            trace::extends(final(ecb_mutex).guarded().log(), old(ecb_mutex).guarded().log()),
            old(self)@.carried_out(
                next,
                trace::since(final(ecb_mutex).guarded().log(), old(ecb_mutex).guarded().log()),
                trace::since(final(client).log(), old(client).log()),
                final(self)@,
                old(ecb_mutex)@,
                final(ecb_mutex)@,
            ),
    {
        match next {
            Next::Mac => self.start_mac(ecb_mutex, client),
            Next::AssociatedData => self.start_aad_block(ecb_mutex, client),
            Next::MacPayload => self.start_mac_payload_block(ecb_mutex, client),
            Next::Tag => self.start_tag(ecb_mutex, client),
            Next::Payload => self.start_payload_block(ecb_mutex, client),
            Next::Output { len } => self.write_output(len, ecb_mutex, client),
            Next::Reject => {
                let ghost driver_log = ecb_mutex.guarded().log();
                self.finish(Err(ErrorCode::FAIL), ecb_mutex, client);
                proof {
                    assert(driver_log + Seq::empty() =~= driver_log);
                    trace::lemma_since_append(driver_log, Seq::empty());
                }
            },
        }
    }

    /// Called when the mutex hands out the driver. Starts the operation that waits for it, after
    /// retrieving key, nonce and input; gives the driver back if none waits.
    pub fn ready<K: CcmClient<Aes128>>(
        &mut self,
        resource: DriverMutexAny,
        ecb_mutex: &mut DriverMutex<E>,
        client: &mut K,
    )
        requires
            old(self).valid(),
            resource.owner() == old(ecb_mutex)@.id,
            old(ecb_mutex)@.guards() > (if old(self)@.session.guard is Some {
                1nat
            } else {
                0
            }),
            old(self)@.session.linked(old(ecb_mutex)@),
            old(ecb_mutex)@.wf(),
            old(ecb_mutex).guarded().valid(),
            old(client).valid(),
        ensures
            final(self).valid(),
            final(self)@.session.linked(final(ecb_mutex)@),
            final(ecb_mutex)@.wf(),
            final(ecb_mutex).guarded().valid(),
            final(client).valid(),
            final(self).log() == old(self).log(),
            trace::extends(final(client).log(), old(client).log()),
            trace::extends(final(ecb_mutex).guarded().log(), old(ecb_mutex).guarded().log()),
            !(old(self)@.state is WaitingForEcb) ==> {
                &&& final(self)@ == old(self)@
                &&& final(ecb_mutex)@ == old(ecb_mutex)@.released()
                &&& final(ecb_mutex).guarded() == old(ecb_mutex).guarded()
                &&& final(client).log() == old(client).log()
            },
            old(self)@.state is WaitingForEcb && resource.kind() != E::kind() ==> {
                &&& old(self)@.ended(
                    Err(ErrorCode::INVAL),
                    trace::since(final(client).log(), old(client).log()),
                    final(self)@,
                    old(ecb_mutex)@.released(),
                    final(ecb_mutex)@,
                )
                &&& final(ecb_mutex).guarded() == old(ecb_mutex).guarded()
            },
            old(self)@.state is WaitingForEcb && resource.kind() == E::kind() ==> old(self)@.readied(
                trace::since(final(ecb_mutex).guarded().log(), old(ecb_mutex).guarded().log()),
                trace::since(final(client).log(), old(client).log()),
                final(self)@,
                old(ecb_mutex)@,
                final(ecb_mutex)@,
            ),
    {
        let ghost start = self@;
        let ghost log = client.log();
        let ghost driver_log = ecb_mutex.guarded().log();
        proof {
            assert(log + Seq::empty() =~= log);
            trace::lemma_since_append(log, Seq::empty());
            assert(driver_log + Seq::empty() =~= driver_log);
            trace::lemma_since_append(driver_log, Seq::empty());
        }
        if self.state != State::WaitingForEcb {
            ecb_mutex.release_any(resource);
            return ;
        }
        if !self.session.attach(resource, ecb_mutex) {
            self.finish(Err(ErrorCode::INVAL), ecb_mutex, client);
            return ;
        }
        let ghost attached = self@;
        let ghost set_client = Call::SetClient { client: start.session.id };
        let ghost driver_middle = ecb_mutex.guarded().log();
        let result = self.initialize(client);
        let ghost reads = trace::since(client.log(), log);
        let ghost middle = client.log();
        proof {
            trace::lemma_extends_append(middle, log);
            assert(driver_middle =~= driver_log + seq![set_client]);
            trace::lemma_since_append(driver_log, seq![set_client]);
        }
        match result {
            Err(error) => {
                self.finish(Err(error), ecb_mutex, client);
                proof {
                    assert(driver_middle + Seq::empty() =~= driver_middle);
                    trace::lemma_since_append(driver_middle, Seq::empty());
                }
            },
            Ok(()) => {
                let next = match self.operation {
                    Operation::Encrypt => Next::Mac,
                    Operation::Decrypt => Next::Tag,
                };
                self.proceed(next, ecb_mutex, client);
            },
        }
        proof {
            let ends = trace::since(client.log(), middle);
            trace::lemma_extends_append(client.log(), middle);
            assert(client.log() =~= log + (reads + ends));
            trace::lemma_since_append(log, reads + ends);
            assert((reads + ends).take(reads.len() as int) =~= reads);
            assert((reads + ends).skip(reads.len() as int) =~= ends);
            let driver_ends = trace::since(ecb_mutex.guarded().log(), driver_middle);
            trace::lemma_extends_append(ecb_mutex.guarded().log(), driver_middle);
            assert(ecb_mutex.guarded().log() =~= driver_log + (seq![set_client] + driver_ends));
            trace::lemma_since_append(driver_log, seq![set_client] + driver_ends);
            assert((seq![set_client] + driver_ends).skip(1) =~= driver_ends);
        }
    }

    /// Acts on what the driver said of the block under way: goes on with the operation, or ends
    /// it. To be called after the driver's completion callback.
    pub fn resume<K: CcmClient<Aes128>>(&mut self, ecb_mutex: &mut DriverMutex<E>, client: &mut K)
        requires
            old(self).valid(),
            old(self)@.session.linked(old(ecb_mutex)@),
            old(ecb_mutex)@.wf(),
            old(ecb_mutex).guarded().valid(),
            old(client).valid(),
        ensures
            final(self).valid(),
            final(self)@.session.linked(final(ecb_mutex)@),
            final(ecb_mutex)@.wf(),
            final(ecb_mutex).guarded().valid(),
            final(client).valid(),
            final(self).log() == old(self).log(),
            trace::extends(final(client).log(), old(client).log()),
            trace::extends(final(ecb_mutex).guarded().log(), old(ecb_mutex).guarded().log()),
            old(self)@.resumed(
                trace::since(final(ecb_mutex).guarded().log(), old(ecb_mutex).guarded().log()),
                trace::since(final(client).log(), old(client).log()),
                final(self)@,
                old(ecb_mutex)@,
                final(ecb_mutex)@,
            ),
    {
        let ghost log = client.log();
        let ghost driver_log = ecb_mutex.guarded().log();
        proof {
            assert(log + Seq::empty() =~= log);
            trace::lemma_since_append(log, Seq::empty());
            assert(driver_log + Seq::empty() =~= driver_log);
            trace::lemma_since_append(driver_log, Seq::empty());
        }
        let completion = match self.session.take_completion() {
            Some(completion) => completion,
            None => {
                return ;
            },
        };
        if let Err(error) = completion {
            self.finish(Err(error), ecb_mutex, client);
            return ;
        }
        if !self.session.is_exchanged() {
            self.finish(Err(ErrorCode::FAIL), ecb_mutex, client);
            return ;
        }
        let output = self.session.output();
        match self.state {
            State::Mac => {
                let next = self.mac_block_done(output);
                self.proceed(next, ecb_mutex, client);
            },
            State::Tag => {
                let next = self.tag_block_done(output);
                self.proceed(next, ecb_mutex, client);
            },
            State::Payload => {
                let next = self.payload_block_done(output);
                self.proceed(next, ecb_mutex, client);
            },
            State::Idle | State::WaitingForEcb => {
                self.finish(Err(ErrorCode::FAIL), ecb_mutex, client);
            },
        }
    }
}

impl<E> EcbClient<Aes128> for SoftwareCcm<E> {
    /// Hands out the key. Returns `SIZE` if the buffer does not have the size of a key.
    fn read_key(&mut self, key: &mut [u8]) -> (result: Result<(), ErrorCode>)
        ensures
            final(self)@ == old(self)@,
            result == session::key_result(old(key)@),
            final(key)@ == session::key_buffer(old(self)@.session, old(key)@),
    {
        self.session.read_key(key)
    }

    /// Hands out the next part of the block under way. Returns `INVAL` if nothing is asked for or
    /// nothing is left.
    fn read_input(&mut self, input: &mut [u8]) -> (count: Result<usize, ErrorCode>)
        ensures
            final(self)@ == (CcmView { session: final(self)@.session, ..old(self)@ }),
            session::input_read(
                old(self)@.session,
                old(input)@,
                count,
                final(self)@.session,
                final(input)@,
            ),
    {
        self.session.read_input(input)
    }

    /// Takes the next part of the encrypted block. Returns `SIZE` if it does not fit.
    fn write_output(&mut self, output: &[u8]) -> (result: Result<(), ErrorCode>)
        ensures
            final(self)@ == (CcmView { session: final(self)@.session, ..old(self)@ }),
            session::output_written(old(self)@.session, output@, result, final(self)@.session),
    {
        self.session.write_output(output)
    }

    /// Notes how the driver says the block ended; [`SoftwareCcm::resume`] acts on it.
    fn crypt_done(&mut self, result: Result<(), ErrorCode>)
        ensures
            final(self)@ == (CcmView {
                session: SessionView { completion: Some(result), ..old(self)@.session },
                ..old(self)@
            }),
    {
        self.session.crypt_done(result)
    }
}

/// Where a block of encoded associated data lies.
proof fn lemma_aad_bounds(view: CcmView)
    requires
        view.mac_in_order(),
        view.aad_offset < ccm_math::aad_padded_len(view.aad_len),
    ensures
        ({
            let prefix = ccm_math::aad_prefix(view.aad_len).len();
            let end = prefix + view.aad_len;
            &&& prefix <= 10
            &&& view.aad_offset + 16 <= ccm_math::aad_padded_len(view.aad_len)
            &&& view.aad_offset < end
            &&& view.aad_offset < prefix ==> view.aad_offset == 0
            &&& view.associated_data.len() == (if view.aad_offset < prefix {
                0
            } else {
                view.aad_offset - prefix
            })
            &&& view.aad_wanted() == (if view.aad_offset + 16 < end {
                view.aad_offset + 16
            } else {
                end
            }) - (if view.aad_offset < prefix {
                prefix
            } else {
                view.aad_offset
            })
        }),
{
    broadcast use bytes::lemma_be_bytes_len;

}

/// A block made of the prefix and the new part is the block of the whole encoding.
proof fn lemma_aad_block(prefix: Seq<u8>, data: Seq<u8>, part: Seq<u8>, offset: int, block: Seq<u8>)
    requires
        0 <= offset,
        prefix.len() <= 10,
        block.len() == 16,
        offset < prefix.len() ==> offset == 0,
        data.len() == (if offset < prefix.len() {
            0
        } else {
            offset - prefix.len()
        }),
        forall|i: int|
            0 <= i < 16 ==> #[trigger] block[i] == ({
                let front = if offset < prefix.len() {
                    prefix.len() as int
                } else {
                    0
                };
                if i < front {
                    prefix[i]
                } else if i < front + part.len() {
                    part[i - front]
                } else {
                    0u8
                }
            }),
    ensures
        block == bytes::block_at(prefix + data + part, offset),
{
    assert(block =~= bytes::block_at(prefix + data + part, offset));
}

} // verus!
