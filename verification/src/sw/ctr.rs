//! AES-128 CTR in software over an ECB driver.
use crate::driver_mutex::{DriverMutex, DriverMutexAny, Kind, MutexView, Resource};
use crate::error::ErrorCode;
use crate::hil::cipher::{Aes128, CtrClient, Ecb, EcbClient, Operation};
use crate::hil::trace;
use crate::hil::trace::{Call, Observed, Port};
use crate::sw::bytes;
use crate::sw::session;
use crate::sw::session::{EcbSession, SessionView, BLOCK_SIZE};
use vstd::prelude::*;

verus! {

/// Where an operation stands.
#[derive(Clone, Copy, Debug, PartialEq, Eq, Structural)]
pub enum State {
    Idle,
    WaitingForEcb,
    Crypt,
}

/// What follows a block that the driver has returned.
#[derive(Clone, Copy, Debug, PartialEq, Eq, Structural)]
pub enum Next {
    /// Encrypt the next counter block.
    Block,
    /// Hand out the workspace and finish.
    Output,
    /// Finish with an error: the counter cannot advance.
    Overflow,
}

/// What a CTR implementation is.
#[verifier::ext_equal]
pub struct CtrView {
    pub session: SessionView,
    pub state: State,
    pub len: nat,
    /// How much has been masked.
    pub offset: nat,
    /// The counter block.
    pub counter: Seq<u8>,
    /// Where the counting part of the counter block begins.
    pub counter_start: nat,
    pub workspace: Seq<u8>,
    /// What the client gave as input.
    pub input: Seq<u8>,
    /// The counter block with which the operation began.
    pub initial: Seq<u8>,
}

impl CtrView {
    /// An operation has the driver.
    pub open spec fn is_running(self) -> bool {
        self.state is Crypt
    }

    /// What an accepted request has established.
    pub open spec fn is_requested(self) -> bool {
        &&& self.session.client is Some
        &&& self.session.handle is Some
        &&& self.len <= self.workspace.len()
    }

    /// Sizes are as they must be at all times.
    pub open spec fn is_sound(self) -> bool {
        &&& self.session.wf()
        &&& self.counter.len() == 16
        &&& self.counter_start <= 16
        &&& self.workspace.len() <= usize::MAX
    }

    /// The number that the counting part of the counter block holds.
    pub open spec fn count(self) -> nat {
        bytes::be_value(self.counter.skip(self.counter_start as int))
    }

    /// The number of values of the counting part.
    pub open spec fn capacity(self) -> nat {
        bytes::pow256((16 - self.counter_start) as nat)
    }

    /// The invariant.
    pub open spec fn wf(self) -> bool {
        &&& self.is_sound()
        &&& !self.is_running() ==> self.session.guard is None
        &&& self.state is WaitingForEcb ==> self.is_requested()
        &&& self.state is Crypt ==> {
            &&& self.is_requested()
            &&& self.session.guard is Some
            &&& self.offset < self.len
            &&& self.offset % 16 == 0
        }
    }

    /// The answer to a request.
    pub open spec fn crypt_result(self, mutex: MutexView, len: nat) -> Result<(), ErrorCode> {
        if !(self.state is Idle) {
            Err(ErrorCode::BUSY)
        } else if self.session.client is None || self.session.handle is None {
            Err(ErrorCode::OFF)
        } else if len > self.workspace.len() {
            Err(ErrorCode::SIZE)
        } else {
            mutex.request_result(self.session.handle->0)
        }
    }

    /// The mode after a request that was refused: it has the parameters of the request if only the
    /// mutex refused it.
    pub open spec fn refused(self, len: nat) -> CtrView {
        if self.state is Idle && self.session.client is Some && self.session.handle is Some && len
            <= self.workspace.len() {
            CtrView { len, ..self }
        } else {
            self
        }
    }

    /// What `calls` make of an operation that has just got the driver: they must read a key, the
    /// two parts of the counter block and the whole input, and end it where one of these fails.
    pub open spec fn initialized(self, calls: Seq<Call>) -> Option<Result<CtrView, ErrorCode>> {
        if calls.len() == 0 {
            None
        } else {
            match calls[0] {
                Call::Fill { port: Port::Key, buffer: key, result, .. } => if key.len() != 16 {
                    None
                } else {
                    match result {
                        Err(error) => if calls.len() == 1 {
                            Some(Err(error))
                        } else {
                            None
                        },
                        Ok(()) => if calls.len() == 1 {
                            None
                        } else {
                            self.initialized_with_key(key, calls.skip(1))
                        },
                    }
                },
                _ => None,
            }
        }
    }

    /// What `calls`, the first of which reads the nonce, make of an operation that has its key.
    pub open spec fn initialized_with_key(self, key: Seq<u8>, calls: Seq<Call>) -> Option<
        Result<CtrView, ErrorCode>,
    > {
        match calls[0] {
            Call::Read { port: Port::Nonce, buffer, count, .. } => if buffer.len() != 16 {
                None
            } else {
                match count {
                    Err(error) => if calls.len() == 1 {
                        Some(Err(error))
                    } else {
                        None
                    },
                    Ok(nonce_len) => if nonce_len >= 16 {
                        if calls.len() == 1 {
                            Some(Err(ErrorCode::INVAL))
                        } else {
                            None
                        }
                    } else if calls.len() == 1 {
                        None
                    } else {
                        self.initialized_with_nonce(
                            key,
                            buffer.take(nonce_len as int),
                            calls.skip(1),
                        )
                    },
                }
            },
            _ => None,
        }
    }

    /// What `calls`, the first of which reads the counter, make of an operation that has its key
    /// and nonce.
    pub open spec fn initialized_with_nonce(
        self,
        key: Seq<u8>,
        nonce: Seq<u8>,
        calls: Seq<Call>,
    ) -> Option<Result<CtrView, ErrorCode>> {
        match calls[0] {
            Call::Read { port: Port::Counter, buffer, count, .. } => if buffer.len() + nonce.len()
                != 16 {
                None
            } else {
                match count {
                    Err(error) => if calls.len() == 1 {
                        Some(Err(error))
                    } else {
                        None
                    },
                    Ok(counter_len) => if counter_len != buffer.len() {
                        if calls.len() == 1 {
                            Some(Err(ErrorCode::INVAL))
                        } else {
                            None
                        }
                    } else if bytes::be_value(buffer) + bytes::block_count(self.len)
                        > bytes::pow256(buffer.len()) {
                        if calls.len() == 1 {
                            Some(Err(ErrorCode::SIZE))
                        } else {
                            None
                        }
                    } else {
                        match trace::gather_outcome(calls.skip(1), Port::Input, self.len) {
                            Some(Ok(input)) => Some(
                                Ok(
                                    CtrView {
                                        session: SessionView { key, ..self.session },
                                        counter: nonce + buffer,
                                        counter_start: nonce.len(),
                                        offset: 0,
                                        workspace: input + self.workspace.skip(input.len() as int),
                                        input,
                                        initial: nonce + buffer,
                                        ..self
                                    },
                                ),
                            ),
                            Some(Err(error)) => Some(Err(error)),
                            None => None,
                        }
                    },
                }
            },
            _ => None,
        }
    }

    /// What an operation that has its input starts with.
    pub open spec fn first(self) -> Next {
        if self.len == 0 {
            Next::Output
        } else {
            Next::Block
        }
    }

    /// This operation after `calls` that failed to initialize it. Until all that comes before the
    /// input has come, nothing changes; input that fails leaves in the workspace what has come of it.
    pub open spec fn stranded(self, calls: Seq<Call>) -> CtrView {
        if session::reached_input(calls) {
            let counter = calls[2]->Read_buffer;
            let nonce = calls[1]->Read_buffer.take(16 - counter.len());
            CtrView {
                session: SessionView { key: calls[0]->Fill_buffer, ..self.session },
                counter: nonce + counter,
                counter_start: nonce.len(),
                offset: 0,
                workspace: trace::read_into(self.workspace, calls.skip(3), self.len),
                ..self
            }
        } else {
            self
        }
    }

    /// The counter block of `later` is that of this operation, counted one further.
    pub open spec fn advanced(self, later: CtrView) -> bool {
        &&& later.counter.len() == 16
        &&& later.counter.take(self.counter_start as int) == self.counter.take(
            self.counter_start as int,
        )
        &&& later.count() == self.count() + 1
        &&& later == (CtrView { counter: later.counter, ..self })
    }

    /// The operation with the block that the driver has returned applied to the input.
    pub open spec fn masked(self, output: Seq<u8>) -> CtrView {
        let end = if self.len - self.offset < 16 {
            self.len
        } else {
            self.offset + 16
        };
        CtrView {
            workspace: Seq::new(
                self.workspace.len(),
                |i: int|
                    if self.offset <= i < end {
                        self.workspace[i] ^ output[i - self.offset]
                    } else {
                        self.workspace[i]
                    },
            ),
            offset: end,
            ..self
        }
    }

    /// `later` is the operation after a block that the driver has returned, and `next` is what
    /// follows.
    pub open spec fn absorbed(self, output: Seq<u8>, later: CtrView, next: Next) -> bool {
        let masked = self.masked(output);
        if masked.offset == self.len {
            later == masked && next is Output
        } else if masked.count() + 1 < masked.capacity() {
            masked.advanced(later) && next is Block
        } else {
            later == masked && next is Overflow
        }
    }

    /// The operation with its counter block handed to the driver.
    pub open spec fn begun(self) -> CtrView {
        CtrView { state: State::Crypt, session: self.session.staged(self.counter), ..self }
    }

    /// What must hold for `next` to follow.
    pub open spec fn may(self, next: Next) -> bool {
        &&& self.is_sound()
        &&& self.is_requested()
        &&& !(self.state is Idle)
        &&& self.session.guard is Some
        &&& next is Block ==> self.offset < self.len && self.offset % 16 == 0
    }

    /// `later` is the operation ended with `result`: the driver is given back, and the client is
    /// told.
    pub open spec fn ended(
        self,
        result: Result<(), ErrorCode>,
        calls: Seq<Call>,
        later: CtrView,
        mutex: MutexView,
        later_mutex: MutexView,
    ) -> bool {
        &&& later == (CtrView {
            state: State::Idle,
            session: SessionView { guard: None, ..self.session },
            ..self
        })
        &&& later_mutex == (if self.session.guard is Some {
            mutex.released()
        } else {
            mutex
        })
        &&& calls == seq![Call::Done { result }]
    }

    /// `later` is this operation after its block was handed to the driver: it goes on if the
    /// driver takes the block, and ends with the driver's error if not.
    pub open spec fn launched(
        self,
        driver_calls: Seq<Call>,
        calls: Seq<Call>,
        later: CtrView,
        mutex: MutexView,
        later_mutex: MutexView,
    ) -> bool {
        &&& driver_calls.len() == 1
        &&& match driver_calls[0] {
            Call::EcbCrypt { len: 16, operation, result } => operation == Operation::Encrypt
                && match result {
                Ok(()) => later == self && later_mutex == mutex && calls.len() == 0,
                Err(error) => self.ended(Err(error), calls, later, mutex, later_mutex),
            },
            _ => false,
        }
    }

    /// `later` is this operation after the driver said how its block ended.
    pub open spec fn resumed(
        self,
        driver_calls: Seq<Call>,
        calls: Seq<Call>,
        later: CtrView,
        mutex: MutexView,
        later_mutex: MutexView,
    ) -> bool {
        let view = CtrView { session: SessionView { completion: None, ..self.session }, ..self };
        match self.session.completion {
            None => driver_calls.len() == 0 && calls.len() == 0 && later == self && later_mutex
                == mutex,
            Some(completion) => if self.state is Idle {
                driver_calls.len() == 0 && calls.len() == 0 && later == view && later_mutex == mutex
            } else if completion is Ok && self.session.exchanged() && self.is_running() {
                exists|after: CtrView, next: Next|
                    #[trigger] view.absorbed(self.session.output, after, next)
                        && after.carried_out(
                        next,
                        driver_calls,
                        calls,
                        later,
                        mutex,
                        later_mutex,
                    )
            } else {
                let error = match completion {
                    Err(error) => error,
                    Ok(()) => ErrorCode::FAIL,
                };
                driver_calls.len() == 0 && view.ended(
                    Err(error),
                    calls,
                    later,
                    mutex,
                    later_mutex,
                )
            },
        }
    }

    /// `later` is this operation after the mutex handed out the driver.
    pub open spec fn readied(
        self,
        driver_calls: Seq<Call>,
        calls: Seq<Call>,
        later: CtrView,
        mutex: MutexView,
        later_mutex: MutexView,
    ) -> bool {
        let view = CtrView {
            session: SessionView { guard: Some(mutex.id), ..self.session },
            ..self
        };
        &&& driver_calls.len() > 0
        &&& driver_calls[0] == (Call::SetClient { client: self.session.id })
        &&& exists|n: int|
            0 <= n <= calls.len() && match view.initialized(#[trigger] calls.take(n)) {
                Some(Ok(view)) => view.carried_out(
                    view.first(),
                    driver_calls.skip(1),
                    calls.skip(n),
                    later,
                    mutex,
                    later_mutex,
                ),
                Some(Err(error)) => driver_calls.len() == 1 && view.stranded(calls.take(n)).ended(
                    Err(error),
                    calls.skip(n),
                    later,
                    mutex,
                    later_mutex,
                ),
                None => false,
            }
    }

    /// `later` is this operation after `next` was carried out, with the calls that were made to
    /// the driver and to the client.
    pub open spec fn carried_out(
        self,
        next: Next,
        driver_calls: Seq<Call>,
        calls: Seq<Call>,
        later: CtrView,
        mutex: MutexView,
        later_mutex: MutexView,
    ) -> bool {
        match next {
            Next::Block => self.begun().launched(driver_calls, calls, later, mutex, later_mutex),
            Next::Output => {
                &&& driver_calls.len() == 0
                &&& calls.len() > 0
                &&& match calls[0] {
                    Call::Write { port: Port::Output, data, result } => data
                        == self.workspace.take(self.len as int) && self.ended(
                        result,
                        calls.skip(1),
                        later,
                        mutex,
                        later_mutex,
                    ),
                    _ => false,
                }
            },
            Next::Overflow => driver_calls.len() == 0 && self.ended(
                Err(ErrorCode::SIZE),
                calls,
                later,
                mutex,
                later_mutex,
            ),
        }
    }
}

/// AES-128 CTR implemented in software using an encryption-only ECB driver.
///
/// The `workspace` passed to [`SoftwareCtr::new`] must be large enough to hold the message.
pub struct SoftwareCtr<E> {
    session: EcbSession<E>,
    workspace: Vec<u8>,
    state: State,
    len: usize,
    offset: usize,
    counter: [u8; 16],
    counter_start: usize,
    input: Ghost<Seq<u8>>,
    initial: Ghost<Seq<u8>>,
}

impl<E> View for SoftwareCtr<E> {
    type V = CtrView;

    closed spec fn view(&self) -> CtrView {
        CtrView {
            session: self.session@,
            state: self.state,
            len: self.len as nat,
            offset: self.offset as nat,
            counter: self.counter@,
            counter_start: self.counter_start as nat,
            workspace: self.workspace@,
            input: self.input@,
            initial: self.initial@,
        }
    }
}

impl<E: Resource> Resource for SoftwareCtr<E> {
    open spec fn kind() -> Kind {
        Kind { number: 7, over: E::kind().number }
    }

    fn resource_kind() -> (kind: Kind) {
        Kind { number: 7, over: E::resource_kind().number }
    }
}

impl<E> Observed for SoftwareCtr<E> {
    closed spec fn log(&self) -> Seq<Call> {
        self.session.log()
    }

    open spec fn valid(&self) -> bool {
        self@.wf()
    }
}

impl<E> SoftwareCtr<E> {
    /// Create a software CTR implementation numbered `id` with a workspace.
    pub fn new(id: usize, workspace: Vec<u8>) -> (ctr: Self)
        ensures
            ctr.valid(),
            ctr.log() == Seq::<Call>::empty(),
            ctr@.state is Idle,
            ctr@.workspace == workspace@,
            ctr@.session == SessionView::fresh(id),
    {
        assert(workspace.len() <= usize::MAX);
        SoftwareCtr {
            session: EcbSession::new(id),
            workspace,
            state: State::Idle,
            len: 0,
            offset: 0,
            counter: [0u8;16],
            counter_start: 0,
            input: Ghost(Seq::empty()),
            initial: Ghost(Seq::empty()),
        }
    }

    /// Register this CTR implementation as a client of its ECB mutex. Returns `ALREADY` if it is
    /// registered, and `NOMEM` if the mutex has no room for another client.
    pub fn register(&mut self, ecb_mutex: &mut DriverMutex<E>) -> (result: Result<(), ErrorCode>)
        requires
            old(self).valid(),
            old(ecb_mutex)@.wf(),
        ensures
            final(self).valid(),
            final(ecb_mutex)@.wf(),
            final(ecb_mutex).guarded() == old(ecb_mutex).guarded(),
            final(self).log() == old(self).log(),
            final(self)@ == (CtrView { session: final(self)@.session, ..old(self)@ }),
            session::register_result(
                old(self)@.session,
                old(ecb_mutex)@,
                result,
                final(self)@.session,
                final(ecb_mutex)@,
            ),
    {
        self.session.register(ecb_mutex)
    }

    /// Set the client that will receive callbacks for CTR operations.
    pub fn set_client(&mut self, client: usize)
        requires
            old(self).valid(),
        ensures
            final(self).valid(),
            final(self).log() == old(self).log(),
            final(self)@ == (CtrView {
                session: SessionView { client: Some(client), ..old(self)@.session },
                ..old(self)@
            }),
    {
        self.session.set_client(client);
    }

    /// Whether a big-endian counter can be incremented that often without wrapping.
    pub fn counter_can_advance(counter: &[u8], increments: usize) -> (can: bool)
        ensures
            can <==> bytes::be_value(counter@) + increments < bytes::pow256(counter@.len()),
    {
        let len: usize = counter.len();
        let mut carry: usize = increments;
        let mut done: usize = 0;
        let ghost mut rest: nat = 0;
        proof {
            let p = bytes::pow256(0);
            assert(counter@.skip(len as int) =~= Seq::<u8>::empty());
            assert(carry * p == carry) by (nonlinear_arith)
                requires
                    p == 1,
            ;
        }
        while done < len
            invariant
                done <= len,
                len == counter@.len(),
                bytes::be_value(counter@.skip(len - done)) + increments == carry * bytes::pow256(
                    done as nat,
                ) + rest,
                rest < bytes::pow256(done as nat),
                carry <= increments || carry <= 1,
            decreases len - done,
        {
            let byte: u8 = counter[len - 1 - done];
            let sum: usize = byte as usize + carry % 256;
            let next: usize = carry / 256 + sum / 256;
            proof {
                let k = done as nat;
                let p = bytes::pow256(k) as int;
                let m = (carry + byte) % 256;
                let tail = counter@.skip(len - done);
                assert(counter@.skip(len - done - 1) =~= seq![byte] + tail);
                bytes::lemma_be_value_prepend(byte, tail);
                assert(next == (carry + byte) / 256);
                assert(carry + byte == next * 256 + m);
                assert((byte * p + carry * p + rest) == next * (256 * p) + (m * p + rest))
                    by (nonlinear_arith)
                    requires
                        carry + byte == next * 256 + m,
                ;
                assert(m * p + rest < 256 * p) by (nonlinear_arith)
                    requires
                        0 <= m < 256,
                        rest < p,
                ;
                assert(0 <= m * p) by (nonlinear_arith)
                    requires
                        0 <= m,
                        0 <= p,
                ;
                rest = (m * p + rest) as nat;
            }
            carry = next;
            done = done + 1;
        }
        proof {
            let p = bytes::pow256(len as nat) as int;
            assert(counter@.skip(0) =~= counter@);
            if carry > 0 {
                assert(carry * p >= p) by (nonlinear_arith)
                    requires
                        carry >= 1,
                        p >= 0,
                ;
            } else {
                assert(carry * p == 0) by (nonlinear_arith)
                    requires
                        carry == 0,
                ;
            }
        }
        carry == 0
    }

    /// Counts the counter block one further. Returns `false`, and changes nothing, if it would
    /// wrap.
    fn increment_counter(&mut self) -> (advanced: bool)
        requires
            old(self)@.is_sound(),
        ensures
            final(self).log() == old(self).log(),
            advanced <==> old(self)@.count() + 1 < old(self)@.capacity(),
            advanced ==> old(self)@.advanced(final(self)@),
            !advanced ==> final(self)@ == old(self)@,
    {
        let start: usize = self.counter_start;
        let mut counter = self.counter;
        let mut at: usize = BLOCK_SIZE;
        while at > start
            invariant
                start <= at <= 16,
                *self == *old(self),
                start == self.counter_start,
                self.counter_start <= 16,
                forall|j: int| 0 <= j < at ==> #[trigger] counter@[j] == self.counter@[j],
                forall|j: int| at <= j < 16 ==> #[trigger] counter@[j] == 0,
                forall|j: int| at <= j < 16 ==> #[trigger] self.counter@[j] == 255,
            decreases at - start,
        {
            at = at - 1;
            if counter[at] == 255 {
                counter[at] = 0;
            } else {
                proof {
                    bytes::lemma_be_value_increment(
                        self.counter@.skip(start as int),
                        counter@.update(at as int, (counter@[at as int] + 1) as u8).skip(
                            start as int,
                        ),
                        at - start,
                    );
                }
                counter[at] = counter[at] + 1;
                self.counter = counter;
                proof {
                    assert(self.counter@.take(start as int) =~= old(self).counter@.take(
                        start as int,
                    ));
                    bytes::lemma_be_value_bound(self.counter@.skip(start as int));
                }
                return true;
            }
        }
        proof {
            bytes::lemma_be_value_full(self.counter@.skip(start as int));
        }
        false
    }

    /// Takes a block that the driver has returned. Returns what follows.
    fn block_done(&mut self) -> (next: Next)
        requires
            old(self)@.wf(),
            old(self)@.state is Crypt,
        ensures
            final(self)@.may(next),
            final(self).log() == old(self).log(),
            old(self)@.absorbed(old(self)@.session.output, final(self)@, next),
    {
        let offset: usize = self.offset;
        let left: usize = self.len - offset;
        let block_len: usize = if left < BLOCK_SIZE {
            left
        } else {
            BLOCK_SIZE
        };
        let output = self.session.output();
        let room: usize = self.workspace.len();
        let ghost before = self@;
        let mut i: usize = 0;
        while i < block_len
            invariant
                i <= block_len <= 16,
                offset + block_len <= before.workspace.len(),
                room == before.workspace.len(),
                self.log() == old(self).log(),
                self@ == (CtrView { workspace: self@.workspace, ..before }),
                self@.workspace.len() == before.workspace.len(),
                forall|j: int|
                    0 <= j < before.workspace.len() ==> #[trigger] self@.workspace[j] == (
                    if offset <= j < offset + i {
                        before.workspace[j] ^ output@[j - offset]
                    } else {
                        before.workspace[j]
                    }),
            decreases block_len - i,
        {
            self.workspace[offset + i] = self.workspace[offset + i] ^ output[i];
            i = i + 1;
        }
        let next_offset: usize = offset + block_len;
        self.offset = next_offset;
        assert(self@ =~= before.masked(output@));
        if next_offset == self.len {
            Next::Output
        } else if self.increment_counter() {
            Next::Block
        } else {
            Next::Overflow
        }
    }
}

impl<E: Ecb<Aes128> + Resource> SoftwareCtr<E> {
    /// Initiate a CTR operation on `len` bytes. Encryption and decryption are the same.
    ///
    /// Returns `BUSY` while an operation is in progress, `OFF` if the client or the registration
    /// is missing, `SIZE` if `len` is too large, and else what the mutex answers.
    pub fn crypt(
        &mut self,
        ecb_mutex: &mut DriverMutex<E>,
        len: usize,
        _operation: Operation,
    ) -> (result: Result<(), ErrorCode>)
        requires
            old(self).valid(),
            old(ecb_mutex)@.wf(),
            old(self)@.session.handle matches Some(handle) ==> old(ecb_mutex)@.admits(handle),
        ensures
            final(self).valid(),
            final(ecb_mutex)@.wf(),
            final(ecb_mutex).guarded() == old(ecb_mutex).guarded(),
            final(self).log() == old(self).log(),
            result == old(self)@.crypt_result(old(ecb_mutex)@, len as nat),
            result is Ok ==> {
                &&& final(self)@ == (CtrView {
                    state: State::WaitingForEcb,
                    len: len as nat,
                    ..old(self)@
                })
                &&& final(ecb_mutex)@ == old(ecb_mutex)@.requested(old(self)@.session.handle->0)
            },
            result is Err ==> final(ecb_mutex)@ == old(ecb_mutex)@,
            result is Err ==> final(self)@ == old(self)@.refused(len as nat),
    {
        if self.state != State::Idle {
            return Err(ErrorCode::BUSY);
        }
        if !self.session.is_configured() {
            return Err(ErrorCode::OFF);
        }
        if self.workspace.len() < len {
            return Err(ErrorCode::SIZE);
        }
        self.len = len;
        self.state = State::WaitingForEcb;
        let result = self.session.request(ecb_mutex);
        if result.is_err() {
            self.state = State::Idle;
        }
        result
    }

    /// Gives up the driver and tells the client how the operation ended. Does nothing if no
    /// operation is in progress.
    fn finish<K: CtrClient<Aes128>>(
        &mut self,
        result: Result<(), ErrorCode>,
        ecb_mutex: &mut DriverMutex<E>,
        client: &mut K,
    )
        requires
            old(self)@.is_sound(),
            old(self)@.state is Idle ==> old(self).valid(),
            !(old(self)@.state is Idle) ==> old(self)@.session.client is Some,
            old(self)@.session.linked(old(ecb_mutex)@),
            old(ecb_mutex)@.wf(),
            old(client).valid(),
        ensures
            final(self).valid(),
            final(self)@.session.linked(final(ecb_mutex)@),
            final(ecb_mutex)@.wf(),
            final(ecb_mutex).guarded() == old(ecb_mutex).guarded(),
            final(client).valid(),
            final(self).log() == old(self).log(),
            trace::extends(final(client).log(), old(client).log()),
            old(self)@.state is Idle ==> final(self)@ == old(self)@ && final(ecb_mutex)@
                == old(ecb_mutex)@ && final(client).log() == old(client).log(),
            !(old(self)@.state is Idle) ==> old(self)@.ended(
                result,
                trace::since(final(client).log(), old(client).log()),
                final(self)@,
                old(ecb_mutex)@,
                final(ecb_mutex)@,
            ),
    {
        broadcast use trace::lemma_since_append;

        let ghost log = client.log();
        if self.state == State::Idle {
            assert(log + Seq::empty() =~= log);
            return ;
        }
        self.state = State::Idle;
        self.session.detach(ecb_mutex);
        if self.session.has_client() {
            client.crypt_done(result);
            assert(client.log() =~= log + seq![Call::Done { result }]);
        }
    }

    /// Reads the whole input into the front of the workspace.
    fn read_full_input<K: CtrClient<Aes128>>(&mut self, client: &mut K) -> (result: Result<
        (),
        ErrorCode,
    >)
        requires
            old(self)@.len <= old(self)@.workspace.len(),
            old(client).valid(),
        ensures
            final(client).valid(),
            final(self).log() == old(self).log(),
            final(self)@.workspace.len() == old(self)@.workspace.len(),
            final(self)@.workspace.skip(old(self)@.len as int) == old(self)@.workspace.skip(
                old(self)@.len as int,
            ),
            final(self)@ == (CtrView { workspace: final(self)@.workspace, ..old(self)@ }),
            trace::extends(final(client).log(), old(client).log()),
            final(self)@.workspace == trace::read_into(
                old(self)@.workspace,
                trace::since(final(client).log(), old(client).log()),
                old(self)@.len,
            ),
            trace::gather_outcome(
                trace::since(final(client).log(), old(client).log()),
                Port::Input,
                old(self)@.len,
            ) == Some(
                match result {
                    Ok(()) => Ok(final(self)@.workspace.take(old(self)@.len as int)),
                    Err(error) => Err(error),
                },
            ),
    {
        broadcast use trace::lemma_since_append;

        let ghost log = client.log();
        let ghost mut calls: Seq<Call> = Seq::empty();
        let len: usize = self.len;
        let mut offset: usize = 0;
        assert(log + calls =~= log);
        assert(self.workspace@.take(0) =~= Seq::<u8>::empty());
        while offset < len
            invariant
                offset <= len <= self.workspace@.len(),
                len as nat == old(self)@.len,
                self.log() == old(self).log(),
                self@ == (CtrView { workspace: self.workspace@, ..old(self)@ }),
                self.workspace@.len() == old(self).workspace@.len(),
                self.workspace@.skip(len as int) == old(self).workspace@.skip(len as int),
                client.valid(),
                client.log() == log + calls,
                self.workspace@ == trace::read_into(
                    old(self).workspace@,
                    calls,
                    len as nat,
                ),
                log == old(client).log(),
                trace::gathered(calls, Port::Input, len as nat) == Some(
                    self.workspace@.take(offset as int),
                ),
            decreases len - offset,
        {
            broadcast use trace::lemma_since_append;

            let ghost before = self.workspace@;
            let wanted: usize = len - offset;
            let (_done, rest) = self.workspace.as_mut_slice().split_at_mut(offset);
            let (destination, _beyond) = rest.split_at_mut(wanted);
            let count = client.read_input(destination);
            let ghost buffer = destination@;
            assert(self.workspace@.subrange(offset as int, len as int) =~= buffer);
            let ghost call = client.log().last();
            proof {
                assert(self.workspace@.take(offset as int) =~= before.take(offset as int));
                assert(self.workspace@.skip(len as int) =~= before.skip(len as int));
                assert(client.log() =~= log + calls.push(call));
                trace::lemma_gather_step(
                    calls,
                    call,
                    Port::Input,
                    len as nat,
                    before.take(offset as int),
                );
                trace::lemma_read_into_push(old(self).workspace@, calls, len as nat, call);
                assert(self.workspace@ =~= crate::grant::overwritten(
                    before,
                    offset as int,
                    buffer,
                ));
                calls = calls.push(call);
            }
            match count {
                Err(error) => {
                    return Err(error);
                },
                Ok(read) => {
                    if read == 0 || read > wanted {
                        return Err(ErrorCode::INVAL);
                    }
                    assert(self.workspace@.take(offset + read) =~= before.take(offset as int)
                        + buffer.take(read as int));
                    offset = offset + read;
                },
            }
        }
        proof {
            trace::lemma_gather_complete(
                calls,
                Port::Input,
                len as nat,
                self.workspace@.take(len as int),
            );
        }
        Ok(())
    }

    /// Retrieves key, counter block and input.
    fn initialize<K: CtrClient<Aes128>>(&mut self, client: &mut K) -> (result: Result<
        (),
        ErrorCode,
    >)
        requires
            old(self)@.is_sound(),
            old(self)@.is_requested(),
            old(client).valid(),
        ensures
            final(client).valid(),
            final(self).log() == old(self).log(),
            trace::extends(final(client).log(), old(client).log()),
            final(self)@.is_sound(),
            final(self)@.workspace.len() == old(self)@.workspace.len(),
            result is Err ==> final(self)@ == old(self)@.stranded(
                trace::since(final(client).log(), old(client).log()),
            ),
            old(self)@.initialized(trace::since(final(client).log(), old(client).log())) == Some(
                match result {
                    Ok(()) => Ok(final(self)@),
                    Err(error) => Err(error),
                },
            ),
            result is Ok ==> final(self)@.offset == 0,
    {
        let ghost log = client.log();
        let ghost start = self@;
        let mut key = [0u8;16];
        let result = client.read_key(&mut key);
        let ghost fill = client.log().last();
        proof {
            assert(client.log() =~= log + seq![fill]);
            trace::lemma_since_append(log, seq![fill]);
        }
        if let Err(error) = result {
            return Err(error);
        }
        let mut counter = [0u8;16];
        let count = client.read_nonce(&mut counter);
        let ghost read = client.log().last();
        let ghost nonce_buffer = counter@;
        proof {
            assert(client.log() =~= log + seq![fill, read]);
            trace::lemma_since_append(log, seq![fill, read]);
            assert(seq![fill, read].skip(1) =~= seq![read]);
        }
        let nonce_len: usize = match count {
            Ok(nonce_len) => nonce_len,
            Err(error) => {
                return Err(error);
            },
        };
        if nonce_len >= BLOCK_SIZE {
            return Err(ErrorCode::INVAL);
        }
        let whole: &mut [u8] = &mut counter;
        let (_nonce, part) = whole.split_at_mut(nonce_len);
        let count = client.read_counter(part);
        let ghost buffer = part@;
        let ghost second = client.log().last();
        let ghost nonce = nonce_buffer.take(nonce_len as int);
        proof {
            assert(counter@ =~= nonce + buffer);
            assert(counter@.skip(nonce_len as int) =~= buffer);
            assert(client.log() =~= log + seq![fill, read, second]);
            trace::lemma_since_append(log, seq![fill, read, second]);
            assert(seq![fill, read, second].skip(1) =~= seq![read, second]);
            assert(seq![read, second].skip(1) =~= seq![second]);
        }
        let counter_len: usize = match count {
            Ok(counter_len) => counter_len,
            Err(error) => {
                return Err(error);
            },
        };
        if counter_len == 0 || counter_len != BLOCK_SIZE - nonce_len {
            return Err(ErrorCode::INVAL);
        }
        let blocks: usize = self.len / BLOCK_SIZE + if self.len % BLOCK_SIZE == 0 {
            0
        } else {
            1
        };
        assert(blocks == bytes::block_count(start.len));
        proof {
            bytes::lemma_be_value_bound(buffer);
        }
        if blocks > 0 {
            let counting = vstd::slice::slice_subrange(counter.as_slice(), nonce_len, BLOCK_SIZE);
            assert(counting@ =~= buffer);
            if !Self::counter_can_advance(counting, blocks - 1) {
                return Err(ErrorCode::SIZE);
            }
        }
        self.session.set_key(key);
        self.counter = counter;
        self.counter_start = nonce_len;
        self.offset = 0;
        let ghost middle = client.log();
        let ghost before = self@;
        let result = self.read_full_input(client);
        proof {
            let reads = trace::since(client.log(), middle);
            trace::lemma_extends_append(client.log(), middle);
            let calls = seq![fill, read, second] + reads;
            assert(client.log() =~= log + calls);
            trace::lemma_since_append(log, calls);
            assert(calls.skip(1).skip(1).skip(1) =~= reads);
            assert(calls.skip(1)[0] == read);
            assert(calls.skip(1).skip(1)[0] == second);
            assert(start.initialized(calls) == start.initialized_with_key(key@, calls.skip(1)));
            assert(start.initialized(calls) == start.initialized_with_nonce(
                key@,
                nonce,
                calls.skip(1).skip(1),
            ));
            if result is Ok {
                self.input@ = self.workspace@.take(start.len as int);
                self.initial@ = self.counter@;
                assert(self.workspace@ =~= self.input@ + before.workspace.skip(start.len as int));
                assert(start.initialized(calls) == Some(Ok::<CtrView, ErrorCode>(self@)));
            } else {
                trace::lemma_gather_failed(reads, Port::Input, start.len);
                assert(calls.last() == reads.last());
                assert(calls.skip(3) =~= reads);
                assert(self@ =~= start.stranded(calls));
            }
        }
        result
    }

    /// Hands a block to the driver and goes to `state`; ends the operation if the driver refuses.
    fn start_ecb_block<K: CtrClient<Aes128>>(
        &mut self,
        state: State,
        input: [u8; 16],
        ecb_mutex: &mut DriverMutex<E>,
        client: &mut K,
    )
        requires
            old(self)@.session.wf(),
            (CtrView { state, session: old(self)@.session.staged(input@), ..old(self)@ }).wf(),
            (CtrView { state, ..old(self)@ }).is_running(),
            old(self)@.session.linked(old(ecb_mutex)@),
            old(ecb_mutex)@.wf(),
            old(ecb_mutex).guarded().valid(),
            old(client).valid(),
        ensures
            final(self).valid(),
            final(self)@.session.linked(final(ecb_mutex)@),
            final(ecb_mutex)@.wf(),
            final(ecb_mutex).guarded().valid(),
            final(client).valid(),
            final(self).log() == old(self).log(),
            trace::extends(final(client).log(), old(client).log()),
            trace::extends(final(ecb_mutex).guarded().log(), old(ecb_mutex).guarded().log()),
            (CtrView {
                state,
                session: old(self)@.session.staged(input@),
                ..old(self)@
            }).launched(
                trace::since(final(ecb_mutex).guarded().log(), old(ecb_mutex).guarded().log()),
                trace::since(final(client).log(), old(client).log()),
                final(self)@,
                old(ecb_mutex)@,
                final(ecb_mutex)@,
            ),
    {
        broadcast use trace::lemma_since_append;

        let ghost log = client.log();
        let ghost driver_log = ecb_mutex.guarded().log();
        self.state = state;
        let result = self.session.start(ecb_mutex, input, Operation::Encrypt);
        proof {
            assert(log + Seq::empty() =~= log);
            let call = Call::EcbCrypt { len: 16, operation: Operation::Encrypt, result };
            assert(ecb_mutex.guarded().log() =~= driver_log + seq![call]);
        }
        if let Err(error) = result {
            self.finish(Err(error), ecb_mutex, client);
        }
    }

    /// Hands the counter block to the driver.
    fn start_block<K: CtrClient<Aes128>>(
        &mut self,
        ecb_mutex: &mut DriverMutex<E>,
        client: &mut K,
    )
        requires
            old(self)@.may(Next::Block),
            old(self)@.session.linked(old(ecb_mutex)@),
            old(ecb_mutex)@.wf(),
            old(ecb_mutex).guarded().valid(),
            old(client).valid(),
        ensures
            final(self).valid(),
            final(self)@.session.linked(final(ecb_mutex)@),
            final(ecb_mutex)@.wf(),
            final(ecb_mutex).guarded().valid(),
            final(client).valid(),
            final(self).log() == old(self).log(),
            trace::extends(final(client).log(), old(client).log()),
            trace::extends(final(ecb_mutex).guarded().log(), old(ecb_mutex).guarded().log()),
            old(self)@.carried_out(
                Next::Block,
                trace::since(final(ecb_mutex).guarded().log(), old(ecb_mutex).guarded().log()),
                trace::since(final(client).log(), old(client).log()),
                final(self)@,
                old(ecb_mutex)@,
                final(ecb_mutex)@,
            ),
    {
        self.start_ecb_block(State::Crypt, self.counter, ecb_mutex, client);
    }

    /// Hands the result to the client and ends the operation.
    fn write_output<K: CtrClient<Aes128>>(
        &mut self,
        ecb_mutex: &mut DriverMutex<E>,
        client: &mut K,
    )
        requires
            old(self)@.may(Next::Output),
            old(self)@.session.linked(old(ecb_mutex)@),
            old(ecb_mutex)@.wf(),
            old(ecb_mutex).guarded().valid(),
            old(client).valid(),
        ensures
            final(self).valid(),
            final(self)@.session.linked(final(ecb_mutex)@),
            final(ecb_mutex)@.wf(),
            final(ecb_mutex).guarded().valid(),
            final(client).valid(),
            final(self).log() == old(self).log(),
            trace::extends(final(client).log(), old(client).log()),
            trace::extends(final(ecb_mutex).guarded().log(), old(ecb_mutex).guarded().log()),
            old(self)@.carried_out(
                Next::Output,
                trace::since(final(ecb_mutex).guarded().log(), old(ecb_mutex).guarded().log()),
                trace::since(final(client).log(), old(client).log()),
                final(self)@,
                old(ecb_mutex)@,
                final(ecb_mutex)@,
            ),
    {
        let ghost log = client.log();
        let ghost driver_log = ecb_mutex.guarded().log();
        let output = vstd::slice::slice_subrange(self.workspace.as_slice(), 0, self.len);
        let result = client.write_output(output);
        let ghost calls = seq![Call::Write { port: Port::Output, data: output@, result }];
        let ghost middle = client.log();
        self.finish(result, ecb_mutex, client);
        proof {
            let ends = trace::since(client.log(), middle);
            trace::lemma_extends_append(client.log(), middle);
            assert(middle =~= log + calls);
            assert(client.log() =~= log + (calls + ends));
            trace::lemma_since_append(log, calls + ends);
            assert(driver_log + Seq::empty() =~= driver_log);
            trace::lemma_since_append(driver_log, Seq::empty());
            assert((calls + ends).skip(calls.len() as int) =~= ends);
        }
    }

    /// Carries out what follows.
    fn proceed<K: CtrClient<Aes128>>(
        &mut self,
        next: Next,
        ecb_mutex: &mut DriverMutex<E>,
        client: &mut K,
    )
        requires
            old(self)@.may(next),
            old(self)@.session.linked(old(ecb_mutex)@),
            old(ecb_mutex)@.wf(),
            old(ecb_mutex).guarded().valid(),
            old(client).valid(),
        ensures
            final(self).valid(),
            final(self)@.session.linked(final(ecb_mutex)@),
            final(ecb_mutex)@.wf(),
            final(ecb_mutex).guarded().valid(),
            final(client).valid(),
            final(self).log() == old(self).log(),
            trace::extends(final(client).log(), old(client).log()),
            trace::extends(final(ecb_mutex).guarded().log(), old(ecb_mutex).guarded().log()),
            old(self)@.carried_out(
                next,
                trace::since(final(ecb_mutex).guarded().log(), old(ecb_mutex).guarded().log()),
                trace::since(final(client).log(), old(client).log()),
                final(self)@,
                old(ecb_mutex)@,
                final(ecb_mutex)@,
            ),
    {
        match next {
            Next::Block => self.start_block(ecb_mutex, client),
            Next::Output => self.write_output(ecb_mutex, client),
            Next::Overflow => {
                let ghost driver_log = ecb_mutex.guarded().log();
                self.finish(Err(ErrorCode::SIZE), ecb_mutex, client);
                proof {
                    assert(driver_log + Seq::empty() =~= driver_log);
                    trace::lemma_since_append(driver_log, Seq::empty());
                }
            },
        }
    }

    /// Called when the mutex hands out the driver. Starts the operation that waits for it, after
    /// retrieving what it needs; gives the driver back if none waits.
    pub fn ready<K: CtrClient<Aes128>>(
        &mut self,
        resource: DriverMutexAny,
        ecb_mutex: &mut DriverMutex<E>,
        client: &mut K,
    )
        requires
            old(self).valid(),
            resource.owner() == old(ecb_mutex)@.id,
            old(ecb_mutex)@.guards() > (if old(self)@.session.guard is Some {
                1nat
            } else {
                0
            }),
            old(self)@.session.linked(old(ecb_mutex)@),
            old(ecb_mutex)@.wf(),
            old(ecb_mutex).guarded().valid(),
            old(client).valid(),
        ensures
            final(self).valid(),
            final(self)@.session.linked(final(ecb_mutex)@),
            final(ecb_mutex)@.wf(),
            final(ecb_mutex).guarded().valid(),
            final(client).valid(),
            final(self).log() == old(self).log(),
            trace::extends(final(client).log(), old(client).log()),
            trace::extends(final(ecb_mutex).guarded().log(), old(ecb_mutex).guarded().log()),
            !(old(self)@.state is WaitingForEcb) ==> {
                &&& final(self)@ == old(self)@
                &&& final(ecb_mutex)@ == old(ecb_mutex)@.released()
                &&& final(ecb_mutex).guarded() == old(ecb_mutex).guarded()
                &&& final(client).log() == old(client).log()
            },
            old(self)@.state is WaitingForEcb && resource.kind() != E::kind() ==> {
                &&& old(self)@.ended(
                    Err(ErrorCode::INVAL),
                    trace::since(final(client).log(), old(client).log()),
                    final(self)@,
                    old(ecb_mutex)@.released(),
                    final(ecb_mutex)@,
                )
                &&& final(ecb_mutex).guarded() == old(ecb_mutex).guarded()
            },
            old(self)@.state is WaitingForEcb && resource.kind() == E::kind() ==> old(self)@.readied(
                trace::since(final(ecb_mutex).guarded().log(), old(ecb_mutex).guarded().log()),
                trace::since(final(client).log(), old(client).log()),
                final(self)@,
                old(ecb_mutex)@,
                final(ecb_mutex)@,
            ),
    {
        let ghost start = self@;
        let ghost log = client.log();
        let ghost driver_log = ecb_mutex.guarded().log();
        proof {
            assert(log + Seq::empty() =~= log);
            trace::lemma_since_append(log, Seq::empty());
            assert(driver_log + Seq::empty() =~= driver_log);
            trace::lemma_since_append(driver_log, Seq::empty());
        }
        if self.state != State::WaitingForEcb {
            ecb_mutex.release_any(resource);
            return ;
        }
        if !self.session.attach(resource, ecb_mutex) {
            self.finish(Err(ErrorCode::INVAL), ecb_mutex, client);
            return ;
        }
        let ghost set_client = Call::SetClient { client: start.session.id };
        let ghost driver_middle = ecb_mutex.guarded().log();
        let result = self.initialize(client);
        let ghost reads = trace::since(client.log(), log);
        let ghost middle = client.log();
        proof {
            trace::lemma_extends_append(middle, log);
            assert(driver_middle =~= driver_log + seq![set_client]);
            trace::lemma_since_append(driver_log, seq![set_client]);
        }
        match result {
            Err(error) => {
                self.finish(Err(error), ecb_mutex, client);
                proof {
                    assert(driver_middle + Seq::empty() =~= driver_middle);
                    trace::lemma_since_append(driver_middle, Seq::empty());
                }
            },
            Ok(()) => {
                let next = if self.len == 0 {
                    Next::Output
                } else {
                    Next::Block
                };
                self.proceed(next, ecb_mutex, client);
            },
        }
        proof {
            let ends = trace::since(client.log(), middle);
            trace::lemma_extends_append(client.log(), middle);
            assert(client.log() =~= log + (reads + ends));
            trace::lemma_since_append(log, reads + ends);
            assert((reads + ends).take(reads.len() as int) =~= reads);
            assert((reads + ends).skip(reads.len() as int) =~= ends);
            let driver_ends = trace::since(ecb_mutex.guarded().log(), driver_middle);
            trace::lemma_extends_append(ecb_mutex.guarded().log(), driver_middle);
            assert(ecb_mutex.guarded().log() =~= driver_log + (seq![set_client] + driver_ends));
            trace::lemma_since_append(driver_log, seq![set_client] + driver_ends);
            assert((seq![set_client] + driver_ends).skip(1) =~= driver_ends);
        }
    }

    /// Acts on what the driver said of the block under way: goes on with the operation, or ends
    /// it. To be called after the driver's completion callback.
    pub fn resume<K: CtrClient<Aes128>>(&mut self, ecb_mutex: &mut DriverMutex<E>, client: &mut K)
        requires
            old(self).valid(),
            old(self)@.session.linked(old(ecb_mutex)@),
            old(ecb_mutex)@.wf(),
            old(ecb_mutex).guarded().valid(),
            old(client).valid(),
        ensures
            final(self).valid(),
            final(self)@.session.linked(final(ecb_mutex)@),
            final(ecb_mutex)@.wf(),
            final(ecb_mutex).guarded().valid(),
            final(client).valid(),
            final(self).log() == old(self).log(),
            trace::extends(final(client).log(), old(client).log()),
            trace::extends(final(ecb_mutex).guarded().log(), old(ecb_mutex).guarded().log()),
            old(self)@.resumed(
                trace::since(final(ecb_mutex).guarded().log(), old(ecb_mutex).guarded().log()),
                trace::since(final(client).log(), old(client).log()),
                final(self)@,
                old(ecb_mutex)@,
                final(ecb_mutex)@,
            ),
    {
        let ghost log = client.log();
        let ghost driver_log = ecb_mutex.guarded().log();
        proof {
            assert(log + Seq::empty() =~= log);
            trace::lemma_since_append(log, Seq::empty());
            assert(driver_log + Seq::empty() =~= driver_log);
            trace::lemma_since_append(driver_log, Seq::empty());
        }
        let completion = match self.session.take_completion() {
            Some(completion) => completion,
            None => {
                return ;
            },
        };
        if let Err(error) = completion {
            self.finish(Err(error), ecb_mutex, client);
            return ;
        }
        if !self.session.is_exchanged() {
            self.finish(Err(ErrorCode::FAIL), ecb_mutex, client);
            return ;
        }
        match self.state {
            State::Crypt => {
                let ghost view = self@;
                let next = self.block_done();
                assert(view.absorbed(view.session.output, self@, next));
                self.proceed(next, ecb_mutex, client);
            },
            State::Idle | State::WaitingForEcb => {
                self.finish(Err(ErrorCode::FAIL), ecb_mutex, client);
            },
        }
    }
}

impl<E> EcbClient<Aes128> for SoftwareCtr<E> {
    /// Hands out the key. Returns `SIZE` if the buffer does not have the size of a key.
    fn read_key(&mut self, key: &mut [u8]) -> (result: Result<(), ErrorCode>)
        ensures
            final(self)@ == old(self)@,
            result == session::key_result(old(key)@),
            final(key)@ == session::key_buffer(old(self)@.session, old(key)@),
    {
        self.session.read_key(key)
    }

    /// Hands out the next part of the block under way. Returns `INVAL` if nothing is asked for or
    /// nothing is left.
    fn read_input(&mut self, input: &mut [u8]) -> (count: Result<usize, ErrorCode>)
        ensures
            final(self)@ == (CtrView { session: final(self)@.session, ..old(self)@ }),
            session::input_read(
                old(self)@.session,
                old(input)@,
                count,
                final(self)@.session,
                final(input)@,
            ),
    {
        self.session.read_input(input)
    }

    /// Takes the next part of the block that the driver returns. Returns `SIZE` if it does not fit.
    fn write_output(&mut self, output: &[u8]) -> (result: Result<(), ErrorCode>)
        ensures
            final(self)@ == (CtrView { session: final(self)@.session, ..old(self)@ }),
            session::output_written(old(self)@.session, output@, result, final(self)@.session),
    {
        self.session.write_output(output)
    }

    /// Notes how the driver says the block ended; [`SoftwareCtr::resume`] acts on it.
    fn crypt_done(&mut self, result: Result<(), ErrorCode>)
        ensures
            final(self)@ == (CtrView {
                session: SessionView { completion: Some(result), ..old(self)@.session },
                ..old(self)@
            }),
    {
        self.session.crypt_done(result)
    }
}

} // verus!
