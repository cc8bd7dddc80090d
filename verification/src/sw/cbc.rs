//! AES-128 CBC in software over an ECB driver.
use crate::driver_mutex::{DriverMutex, DriverMutexAny, Kind, MutexView, Resource};
use crate::error::ErrorCode;
use crate::hil::cipher::{Aes128, CbcClient, Ecb, EcbClient, Operation};
use crate::hil::trace;
use crate::hil::trace::{Call, Observed, Port};
use crate::sw::bytes;
use crate::sw::session;
use crate::sw::session::{EcbSession, SessionView, BLOCK_SIZE};
use vstd::prelude::*;

verus! {

/// Where an operation stands.
#[derive(Clone, Copy, Debug, PartialEq, Eq, Structural)]
pub enum State {
    Idle,
    WaitingForEcb,
    Crypt,
}

/// What follows a block that the driver has returned.
#[derive(Clone, Copy, Debug, PartialEq, Eq, Structural)]
pub enum Next {
    /// Hand the next block to the driver.
    Block,
    /// Hand out the workspace and the chaining value, and finish.
    Output,
}

/// What a CBC implementation is.
#[verifier::ext_equal]
pub struct CbcView {
    pub session: SessionView,
    pub state: State,
    pub operation: Operation,
    pub len: nat,
    /// How much has been encrypted or decrypted.
    pub offset: nat,
    /// What the next block is chained to.
    pub chaining_value: Seq<u8>,
    pub workspace: Seq<u8>,
    /// What the client gave as input.
    pub input: Seq<u8>,
    /// What the client gave as initialization vector.
    pub iv: Seq<u8>,
}

impl CbcView {
    /// An operation has the driver.
    pub open spec fn is_running(self) -> bool {
        self.state is Crypt
    }

    /// What an accepted request has established.
    pub open spec fn is_requested(self) -> bool {
        &&& self.session.client is Some
        &&& self.session.handle is Some
        &&& self.len % 16 == 0
        &&& self.len <= self.workspace.len()
    }

    /// Sizes are as they must be at all times.
    pub open spec fn is_sound(self) -> bool {
        &&& self.session.wf()
        &&& self.chaining_value.len() == 16
        &&& self.workspace.len() <= usize::MAX
    }

    /// The invariant.
    pub open spec fn wf(self) -> bool {
        &&& self.is_sound()
        &&& !self.is_running() ==> self.session.guard is None
        &&& self.state is WaitingForEcb ==> self.is_requested()
        &&& self.state is Crypt ==> {
            &&& self.is_requested()
            &&& self.session.guard is Some
            &&& self.offset < self.len
            &&& self.offset % 16 == 0
        }
    }

    /// The answer to a request.
    pub open spec fn crypt_result(self, mutex: MutexView, len: nat) -> Result<(), ErrorCode> {
        if !(self.state is Idle) {
            Err(ErrorCode::BUSY)
        } else if self.session.client is None || self.session.handle is None {
            Err(ErrorCode::OFF)
        } else if len % 16 != 0 {
            Err(ErrorCode::INVAL)
        } else if len > self.workspace.len() {
            Err(ErrorCode::SIZE)
        } else {
            mutex.request_result(self.session.handle->0)
        }
    }

    /// The mode after a request that was refused: it has the parameters of the request if only the
    /// mutex refused it.
    pub open spec fn refused(self, len: nat, operation: Operation) -> CbcView {
        if self.state is Idle && self.session.client is Some && self.session.handle is Some && len
            % 16 == 0 && len <= self.workspace.len() {
            CbcView { operation, len, ..self }
        } else {
            self
        }
    }

    /// What `calls` make of an operation that has just got the driver: they must read a key, an
    /// initialization vector and the whole input, and end it where one of these fails.
    pub open spec fn initialized(self, calls: Seq<Call>) -> Option<Result<CbcView, ErrorCode>> {
        if calls.len() == 0 {
            None
        } else {
            match calls[0] {
                Call::Fill { port: Port::Key, buffer: key, result, .. } => if key.len() != 16 {
                    None
                } else {
                    match result {
                        Err(error) => if calls.len() == 1 {
                            Some(Err(error))
                        } else {
                            None
                        },
                        Ok(()) => if calls.len() == 1 {
                            None
                        } else {
                            self.initialized_with_key(key, calls.skip(1))
                        },
                    }
                },
                _ => None,
            }
        }
    }

    /// What `calls`, the first of which reads the initialization vector, make of an operation that
    /// has its key.
    pub open spec fn initialized_with_key(self, key: Seq<u8>, calls: Seq<Call>) -> Option<
        Result<CbcView, ErrorCode>,
    > {
        match calls[0] {
            Call::Fill { port: Port::Iv, buffer: iv, result, .. } => if iv.len() != 16 {
                None
            } else {
                match result {
                    Err(error) => if calls.len() == 1 {
                        Some(Err(error))
                    } else {
                        None
                    },
                    Ok(()) => match trace::gather_outcome(
                        calls.skip(1),
                        Port::Input,
                        self.len,
                    ) {
                        Some(Ok(input)) => Some(
                            Ok(
                                CbcView {
                                    session: SessionView { key, ..self.session },
                                    chaining_value: iv,
                                    offset: 0,
                                    workspace: input + self.workspace.skip(input.len() as int),
                                    input,
                                    iv,
                                    ..self
                                },
                            ),
                        ),
                        Some(Err(error)) => Some(Err(error)),
                        None => None,
                    },
                }
            },
            _ => None,
        }
    }

    /// What an operation that has its input starts with.
    pub open spec fn first(self) -> Next {
        if self.len == 0 {
            Next::Output
        } else {
            Next::Block
        }
    }

    /// This operation after `calls` that failed to initialize it. Until all that comes before the
    /// input has come, nothing changes; input that fails leaves in the workspace what has come of it.
    pub open spec fn stranded(self, calls: Seq<Call>) -> CbcView {
        if session::reached_input(calls) {
            CbcView {
                session: SessionView { key: calls[0]->Fill_buffer, ..self.session },
                chaining_value: calls[1]->Fill_buffer,
                offset: 0,
                workspace: trace::read_into(self.workspace, calls.skip(2), self.len),
                ..self
            }
        } else {
            self
        }
    }

    /// The operation after a block that the driver has returned, and what follows.
    pub open spec fn absorbed(self, output: Seq<u8>) -> (CbcView, Next) {
        let offset = self.offset as int;
        let (block, chaining_value) = match self.operation {
            Operation::Encrypt => (output, output),
            Operation::Decrypt => (bytes::xor(output, self.chaining_value), self.session.input),
        };
        (
            CbcView {
                workspace: self.workspace.take(offset) + block + self.workspace.skip(offset + 16),
                chaining_value,
                offset: self.offset + 16,
                ..self
            },
            if self.offset + 16 == self.len {
                Next::Output
            } else {
                Next::Block
            },
        )
    }

    /// The operation with its next block handed to the driver.
    pub open spec fn begun(self) -> CbcView {
        let block = bytes::block_at(self.workspace, self.offset as int);
        CbcView {
            state: State::Crypt,
            session: self.session.staged(
                match self.operation {
                    Operation::Encrypt => bytes::xor(block, self.chaining_value),
                    Operation::Decrypt => block,
                },
            ),
            ..self
        }
    }

    /// What must hold for `next` to follow.
    pub open spec fn may(self, next: Next) -> bool {
        &&& self.is_sound()
        &&& self.is_requested()
        &&& !(self.state is Idle)
        &&& self.session.guard is Some
        &&& next is Block ==> self.offset < self.len && self.offset % 16 == 0
    }

    /// `later` is the operation ended with `result`: the driver is given back, and the client is
    /// told.
    pub open spec fn ended(
        self,
        result: Result<(), ErrorCode>,
        calls: Seq<Call>,
        later: CbcView,
        mutex: MutexView,
        later_mutex: MutexView,
    ) -> bool {
        &&& later == (CbcView {
            state: State::Idle,
            session: SessionView { guard: None, ..self.session },
            ..self
        })
        &&& later_mutex == (if self.session.guard is Some {
            mutex.released()
        } else {
            mutex
        })
        &&& calls == seq![Call::Done { result }]
    }

    /// `later` is this operation after its block was handed to the driver: it goes on if the
    /// driver takes the block, and ends with the driver's error if not.
    pub open spec fn launched(
        self,
        driver_calls: Seq<Call>,
        calls: Seq<Call>,
        later: CbcView,
        mutex: MutexView,
        later_mutex: MutexView,
    ) -> bool {
        &&& driver_calls.len() == 1
        &&& match driver_calls[0] {
            Call::EcbCrypt { len: 16, operation, result } => operation == self.operation
                && match result {
                Ok(()) => later == self && later_mutex == mutex && calls.len() == 0,
                Err(error) => self.ended(Err(error), calls, later, mutex, later_mutex),
            },
            _ => false,
        }
    }

    /// `later` is this operation after the driver said how its block ended.
    pub open spec fn resumed(
        self,
        driver_calls: Seq<Call>,
        calls: Seq<Call>,
        later: CbcView,
        mutex: MutexView,
        later_mutex: MutexView,
    ) -> bool {
        let view = CbcView { session: SessionView { completion: None, ..self.session }, ..self };
        match self.session.completion {
            None => driver_calls.len() == 0 && calls.len() == 0 && later == self && later_mutex
                == mutex,
            Some(completion) => if self.state is Idle {
                driver_calls.len() == 0 && calls.len() == 0 && later == view && later_mutex == mutex
            } else if completion is Ok && self.session.exchanged() && self.is_running() {
                let (view, next) = view.absorbed(self.session.output);
                view.carried_out(next, driver_calls, calls, later, mutex, later_mutex)
            } else {
                let error = match completion {
                    Err(error) => error,
                    Ok(()) => ErrorCode::FAIL,
                };
                driver_calls.len() == 0 && view.ended(
                    Err(error),
                    calls,
                    later,
                    mutex,
                    later_mutex,
                )
            },
        }
    }

    /// `later` is this operation after the mutex handed out the driver.
    pub open spec fn readied(
        self,
        driver_calls: Seq<Call>,
        calls: Seq<Call>,
        later: CbcView,
        mutex: MutexView,
        later_mutex: MutexView,
    ) -> bool {
        let view = CbcView {
            session: SessionView { guard: Some(mutex.id), ..self.session },
            ..self
        };
        &&& driver_calls.len() > 0
        &&& driver_calls[0] == (Call::SetClient { client: self.session.id })
        &&& exists|n: int|
            0 <= n <= calls.len() && match view.initialized(#[trigger] calls.take(n)) {
                Some(Ok(view)) => view.carried_out(
                    view.first(),
                    driver_calls.skip(1),
                    calls.skip(n),
                    later,
                    mutex,
                    later_mutex,
                ),
                Some(Err(error)) => driver_calls.len() == 1 && view.stranded(calls.take(n)).ended(
                    Err(error),
                    calls.skip(n),
                    later,
                    mutex,
                    later_mutex,
                ),
                None => false,
            }
    }

    /// `later` is this operation after `next` was carried out, with the calls that were made to
    /// the driver and to the client.
    pub open spec fn carried_out(
        self,
        next: Next,
        driver_calls: Seq<Call>,
        calls: Seq<Call>,
        later: CbcView,
        mutex: MutexView,
        later_mutex: MutexView,
    ) -> bool {
        match next {
            Next::Block => self.begun().launched(driver_calls, calls, later, mutex, later_mutex),
            Next::Output => {
                &&& driver_calls.len() == 0
                &&& calls.len() > 1
                &&& match calls[0] {
                    Call::Write { port: Port::Output, data, result: Err(error) } => data
                        == self.workspace.take(self.len as int) && self.ended(
                        Err(error),
                        calls.skip(1),
                        later,
                        mutex,
                        later_mutex,
                    ),
                    Call::Write { port: Port::Output, data, result: Ok(()) } => data
                        == self.workspace.take(self.len as int) && match calls[1] {
                        Call::Write { port: Port::Iv, data: iv, result } => iv
                            == self.chaining_value && self.ended(
                            result,
                            calls.skip(2),
                            later,
                            mutex,
                            later_mutex,
                        ),
                        _ => false,
                    },
                    _ => false,
                }
            },
        }
    }
}

/// AES-128 CBC implemented in software using an ECB driver.
///
/// The `workspace` passed to [`SoftwareCbc::new`] must be large enough to hold the message.
/// Decryption needs a driver that decrypts.
pub struct SoftwareCbc<E> {
    session: EcbSession<E>,
    workspace: Vec<u8>,
    state: State,
    operation: Operation,
    len: usize,
    offset: usize,
    chaining_value: [u8; 16],
    input: Ghost<Seq<u8>>,
    iv: Ghost<Seq<u8>>,
}

impl<E> View for SoftwareCbc<E> {
    type V = CbcView;

    closed spec fn view(&self) -> CbcView {
        CbcView {
            session: self.session@,
            state: self.state,
            operation: self.operation,
            len: self.len as nat,
            offset: self.offset as nat,
            chaining_value: self.chaining_value@,
            workspace: self.workspace@,
            input: self.input@,
            iv: self.iv@,
        }
    }
}

impl<E: Resource> Resource for SoftwareCbc<E> {
    open spec fn kind() -> Kind {
        Kind { number: 5, over: E::kind().number }
    }

    fn resource_kind() -> (kind: Kind) {
        Kind { number: 5, over: E::resource_kind().number }
    }
}

impl<E> Observed for SoftwareCbc<E> {
    closed spec fn log(&self) -> Seq<Call> {
        self.session.log()
    }

    open spec fn valid(&self) -> bool {
        self@.wf()
    }
}

impl<E> SoftwareCbc<E> {
    /// Create a software CBC implementation numbered `id` with a workspace.
    pub fn new(id: usize, workspace: Vec<u8>) -> (cbc: Self)
        ensures
            cbc.valid(),
            cbc.log() == Seq::<Call>::empty(),
            cbc@.state is Idle,
            cbc@.workspace == workspace@,
            cbc@.session == SessionView::fresh(id),
    {
        assert(workspace.len() <= usize::MAX);
        SoftwareCbc {
            session: EcbSession::new(id),
            workspace,
            state: State::Idle,
            operation: Operation::Encrypt,
            len: 0,
            offset: 0,
            chaining_value: [0u8;16],
            input: Ghost(Seq::empty()),
            iv: Ghost(Seq::empty()),
        }
    }

    /// Register this CBC implementation as a client of its ECB mutex. Returns `ALREADY` if it is
    /// registered, and `NOMEM` if the mutex has no room for another client.
    pub fn register(&mut self, ecb_mutex: &mut DriverMutex<E>) -> (result: Result<(), ErrorCode>)
        requires
            old(self).valid(),
            old(ecb_mutex)@.wf(),
        ensures
            final(self).valid(),
            final(ecb_mutex)@.wf(),
            final(ecb_mutex).guarded() == old(ecb_mutex).guarded(),
            final(self).log() == old(self).log(),
            final(self)@ == (CbcView { session: final(self)@.session, ..old(self)@ }),
            session::register_result(
                old(self)@.session,
                old(ecb_mutex)@,
                result,
                final(self)@.session,
                final(ecb_mutex)@,
            ),
    {
        self.session.register(ecb_mutex)
    }

    /// Set the client that will receive callbacks for CBC operations.
    pub fn set_client(&mut self, client: usize)
        requires
            old(self).valid(),
        ensures
            final(self).valid(),
            final(self).log() == old(self).log(),
            final(self)@ == (CbcView {
                session: SessionView { client: Some(client), ..old(self)@.session },
                ..old(self)@
            }),
    {
        self.session.set_client(client);
    }

    /// Takes a block that the driver has returned. Returns what follows.
    fn block_done(&mut self) -> (next: Next)
        requires
            old(self)@.wf(),
            old(self)@.state is Crypt,
        ensures
            final(self)@.may(next),
            final(self).log() == old(self).log(),
            (final(self)@, next) == old(self)@.absorbed(old(self)@.session.output),
    {
        let offset: usize = self.offset;
        assert(self.workspace.len() <= usize::MAX);
        let mut output = self.session.output();
        let next_chain = match self.operation {
            Operation::Encrypt => output,
            Operation::Decrypt => {
                output = bytes::xor_blocks(output, self.chaining_value);
                self.session.input()
            },
        };
        bytes::copy_into(self.workspace.as_mut_slice(), offset, &output);
        assert(self.workspace@ =~= old(self).workspace@.take(offset as int) + output@ + old(self).workspace@.skip(offset + 16));
        self.chaining_value = next_chain;
        let next_offset: usize = offset + BLOCK_SIZE;
        self.offset = next_offset;
        if next_offset == self.len {
            Next::Output
        } else {
            Next::Block
        }
    }
}

impl<E: Ecb<Aes128> + Resource> SoftwareCbc<E> {
    /// Initiate a CBC operation on `len` bytes.
    ///
    /// Returns `BUSY` while an operation is in progress, `OFF` if the client or the registration
    /// is missing, `INVAL` if `len` is no multiple of the block size, `SIZE` if it is too large,
    /// and else what the mutex answers.
    pub fn crypt(
        &mut self,
        ecb_mutex: &mut DriverMutex<E>,
        len: usize,
        operation: Operation,
    ) -> (result: Result<(), ErrorCode>)
        requires
            old(self).valid(),
            old(ecb_mutex)@.wf(),
            old(self)@.session.handle matches Some(handle) ==> old(ecb_mutex)@.admits(handle),
        ensures
            final(self).valid(),
            final(ecb_mutex)@.wf(),
            final(ecb_mutex).guarded() == old(ecb_mutex).guarded(),
            final(self).log() == old(self).log(),
            result == old(self)@.crypt_result(old(ecb_mutex)@, len as nat),
            result is Ok ==> {
                &&& final(self)@ == (CbcView {
                    state: State::WaitingForEcb,
                    operation,
                    len: len as nat,
                    ..old(self)@
                })
                &&& final(ecb_mutex)@ == old(ecb_mutex)@.requested(old(self)@.session.handle->0)
            },
            result is Err ==> final(ecb_mutex)@ == old(ecb_mutex)@,
            result is Err ==> final(self)@ == old(self)@.refused(len as nat, operation),
    {
        if self.state != State::Idle {
            return Err(ErrorCode::BUSY);
        }
        if !self.session.is_configured() {
            return Err(ErrorCode::OFF);
        }
        if len % BLOCK_SIZE != 0 {
            return Err(ErrorCode::INVAL);
        }
        if self.workspace.len() < len {
            return Err(ErrorCode::SIZE);
        }
        self.len = len;
        self.operation = operation;
        self.state = State::WaitingForEcb;
        let result = self.session.request(ecb_mutex);
        if result.is_err() {
            self.state = State::Idle;
        }
        result
    }

    /// Gives up the driver and tells the client how the operation ended. Does nothing if no
    /// operation is in progress.
    fn finish<K: CbcClient<Aes128>>(
        &mut self,
        result: Result<(), ErrorCode>,
        ecb_mutex: &mut DriverMutex<E>,
        client: &mut K,
    )
        requires
            old(self)@.is_sound(),
            old(self)@.state is Idle ==> old(self).valid(),
            !(old(self)@.state is Idle) ==> old(self)@.session.client is Some,
            old(self)@.session.linked(old(ecb_mutex)@),
            old(ecb_mutex)@.wf(),
            old(client).valid(),
        ensures
            final(self).valid(),
            final(self)@.session.linked(final(ecb_mutex)@),
            final(ecb_mutex)@.wf(),
            final(ecb_mutex).guarded() == old(ecb_mutex).guarded(),
            final(client).valid(),
            final(self).log() == old(self).log(),
            trace::extends(final(client).log(), old(client).log()),
            old(self)@.state is Idle ==> final(self)@ == old(self)@ && final(ecb_mutex)@
                == old(ecb_mutex)@ && final(client).log() == old(client).log(),
            !(old(self)@.state is Idle) ==> old(self)@.ended(
                result,
                trace::since(final(client).log(), old(client).log()),
                final(self)@,
                old(ecb_mutex)@,
                final(ecb_mutex)@,
            ),
    {
        broadcast use trace::lemma_since_append;

        let ghost log = client.log();
        if self.state == State::Idle {
            assert(log + Seq::empty() =~= log);
            return ;
        }
        self.state = State::Idle;
        self.session.detach(ecb_mutex);
        if self.session.has_client() {
            client.crypt_done(result);
            assert(client.log() =~= log + seq![Call::Done { result }]);
        }
    }

    /// Reads the whole input into the front of the workspace.
    fn read_full_input<K: CbcClient<Aes128>>(&mut self, client: &mut K) -> (result: Result<
        (),
        ErrorCode,
    >)
        requires
            old(self)@.len <= old(self)@.workspace.len(),
            old(client).valid(),
        ensures
            final(client).valid(),
            final(self).log() == old(self).log(),
            final(self)@.workspace.len() == old(self)@.workspace.len(),
            final(self)@.workspace.skip(old(self)@.len as int) == old(self)@.workspace.skip(
                old(self)@.len as int,
            ),
            final(self)@ == (CbcView { workspace: final(self)@.workspace, ..old(self)@ }),
            trace::extends(final(client).log(), old(client).log()),
            final(self)@.workspace == trace::read_into(
                old(self)@.workspace,
                trace::since(final(client).log(), old(client).log()),
                old(self)@.len,
            ),
            trace::gather_outcome(
                trace::since(final(client).log(), old(client).log()),
                Port::Input,
                old(self)@.len,
            ) == Some(
                match result {
                    Ok(()) => Ok(final(self)@.workspace.take(old(self)@.len as int)),
                    Err(error) => Err(error),
                },
            ),
    {
        broadcast use trace::lemma_since_append;

        let ghost log = client.log();
        let ghost mut calls: Seq<Call> = Seq::empty();
        let len: usize = self.len;
        let mut offset: usize = 0;
        assert(log + calls =~= log);
        assert(self.workspace@.take(0) =~= Seq::<u8>::empty());
        while offset < len
            invariant
                offset <= len <= self.workspace@.len(),
                len as nat == old(self)@.len,
                self.log() == old(self).log(),
                self@ == (CbcView { workspace: self.workspace@, ..old(self)@ }),
                self.workspace@.len() == old(self).workspace@.len(),
                self.workspace@.skip(len as int) == old(self).workspace@.skip(len as int),
                client.valid(),
                client.log() == log + calls,
                self.workspace@ == trace::read_into(
                    old(self).workspace@,
                    calls,
                    len as nat,
                ),
                log == old(client).log(),
                trace::gathered(calls, Port::Input, len as nat) == Some(
                    self.workspace@.take(offset as int),
                ),
            decreases len - offset,
        {
            broadcast use trace::lemma_since_append;

            let ghost before = self.workspace@;
            let wanted: usize = len - offset;
            let (_done, rest) = self.workspace.as_mut_slice().split_at_mut(offset);
            let (destination, _beyond) = rest.split_at_mut(wanted);
            let count = client.read_input(destination);
            let ghost buffer = destination@;
            assert(self.workspace@.subrange(offset as int, len as int) =~= buffer);
            let ghost call = client.log().last();
            proof {
                assert(self.workspace@.take(offset as int) =~= before.take(offset as int));
                assert(self.workspace@.skip(len as int) =~= before.skip(len as int));
                assert(client.log() =~= log + calls.push(call));
                trace::lemma_gather_step(
                    calls,
                    call,
                    Port::Input,
                    len as nat,
                    before.take(offset as int),
                );
                trace::lemma_read_into_push(old(self).workspace@, calls, len as nat, call);
                assert(self.workspace@ =~= crate::grant::overwritten(
                    before,
                    offset as int,
                    buffer,
                ));
                calls = calls.push(call);
            }
            match count {
                Err(error) => {
                    return Err(error);
                },
                Ok(read) => {
                    if read == 0 || read > wanted {
                        return Err(ErrorCode::INVAL);
                    }
                    assert(self.workspace@.take(offset + read) =~= before.take(offset as int)
                        + buffer.take(read as int));
                    offset = offset + read;
                },
            }
        }
        proof {
            trace::lemma_gather_complete(
                calls,
                Port::Input,
                len as nat,
                self.workspace@.take(len as int),
            );
        }
        Ok(())
    }

    /// Retrieves key, initialization vector and input.
    fn initialize<K: CbcClient<Aes128>>(&mut self, client: &mut K) -> (result: Result<
        (),
        ErrorCode,
    >)
        requires
            old(self)@.is_sound(),
            old(self)@.is_requested(),
            old(client).valid(),
        ensures
            final(client).valid(),
            final(self).log() == old(self).log(),
            trace::extends(final(client).log(), old(client).log()),
            final(self)@.is_sound(),
            final(self)@.workspace.len() == old(self)@.workspace.len(),
            result is Err ==> final(self)@ == old(self)@.stranded(
                trace::since(final(client).log(), old(client).log()),
            ),
            old(self)@.initialized(trace::since(final(client).log(), old(client).log())) == Some(
                match result {
                    Ok(()) => Ok(final(self)@),
                    Err(error) => Err(error),
                },
            ),
            result is Ok ==> final(self)@.offset == 0,
    {
        let ghost log = client.log();
        let ghost start = self@;
        let mut key = [0u8;16];
        let result = client.read_key(&mut key);
        let ghost fill = client.log().last();
        proof {
            assert(client.log() =~= log + seq![fill]);
            trace::lemma_since_append(log, seq![fill]);
        }
        if let Err(error) = result {
            return Err(error);
        }
        let mut iv = [0u8;16];
        let result = client.read_iv(&mut iv);
        let ghost read = client.log().last();
        proof {
            assert(client.log() =~= log + seq![fill, read]);
            trace::lemma_since_append(log, seq![fill, read]);
            assert(seq![fill, read].skip(1) =~= seq![read]);
        }
        if let Err(error) = result {
            return Err(error);
        }
        self.session.set_key(key);
        self.chaining_value = iv;
        self.offset = 0;
        let ghost middle = client.log();
        let ghost before = self@;
        let result = self.read_full_input(client);
        proof {
            let reads = trace::since(client.log(), middle);
            trace::lemma_extends_append(client.log(), middle);
            let calls = seq![fill, read] + reads;
            assert(client.log() =~= log + calls);
            trace::lemma_since_append(log, calls);
            assert(calls.skip(1).skip(1) =~= reads);
            assert(calls.skip(1)[0] == read);
            assert(start.initialized(calls) == start.initialized_with_key(key@, calls.skip(1)));
            if result is Ok {
                self.input@ = self.workspace@.take(start.len as int);
                self.iv@ = iv@;
                assert(self.workspace@ =~= self.input@ + before.workspace.skip(start.len as int));
                assert(start.initialized(calls) == Some(Ok::<CbcView, ErrorCode>(self@)));
            } else {
                trace::lemma_gather_failed(reads, Port::Input, start.len);
                assert(calls.last() == reads.last());
                assert(calls.skip(2) =~= reads);
                assert(self@ =~= start.stranded(calls));
            }
        }
        result
    }

    /// Hands a block to the driver and goes to `state`; ends the operation if the driver refuses.
    fn start_ecb_block<K: CbcClient<Aes128>>(
        &mut self,
        state: State,
        input: [u8; 16],
        ecb_mutex: &mut DriverMutex<E>,
        client: &mut K,
    )
        requires
            old(self)@.session.wf(),
            (CbcView { state, session: old(self)@.session.staged(input@), ..old(self)@ }).wf(),
            (CbcView { state, ..old(self)@ }).is_running(),
            old(self)@.session.linked(old(ecb_mutex)@),
            old(ecb_mutex)@.wf(),
            old(ecb_mutex).guarded().valid(),
            old(client).valid(),
        ensures
            final(self).valid(),
            final(self)@.session.linked(final(ecb_mutex)@),
            final(ecb_mutex)@.wf(),
            final(ecb_mutex).guarded().valid(),
            final(client).valid(),
            final(self).log() == old(self).log(),
            trace::extends(final(client).log(), old(client).log()),
            trace::extends(final(ecb_mutex).guarded().log(), old(ecb_mutex).guarded().log()),
            (CbcView {
                state,
                session: old(self)@.session.staged(input@),
                ..old(self)@
            }).launched(
                trace::since(final(ecb_mutex).guarded().log(), old(ecb_mutex).guarded().log()),
                trace::since(final(client).log(), old(client).log()),
                final(self)@,
                old(ecb_mutex)@,
                final(ecb_mutex)@,
            ),
    {
        broadcast use trace::lemma_since_append;

        let ghost log = client.log();
        let ghost driver_log = ecb_mutex.guarded().log();
        self.state = state;
        let result = self.session.start(ecb_mutex, input, self.operation);
        proof {
            assert(log + Seq::empty() =~= log);
            let call = Call::EcbCrypt { len: 16, operation: self.operation, result };
            assert(ecb_mutex.guarded().log() =~= driver_log + seq![call]);
        }
        if let Err(error) = result {
            self.finish(Err(error), ecb_mutex, client);
        }
    }

    /// Hands the next block to the driver.
    fn start_block<K: CbcClient<Aes128>>(
        &mut self,
        ecb_mutex: &mut DriverMutex<E>,
        client: &mut K,
    )
        requires
            old(self)@.may(Next::Block),
            old(self)@.session.linked(old(ecb_mutex)@),
            old(ecb_mutex)@.wf(),
            old(ecb_mutex).guarded().valid(),
            old(client).valid(),
        ensures
            final(self).valid(),
            final(self)@.session.linked(final(ecb_mutex)@),
            final(ecb_mutex)@.wf(),
            final(ecb_mutex).guarded().valid(),
            final(client).valid(),
            final(self).log() == old(self).log(),
            trace::extends(final(client).log(), old(client).log()),
            trace::extends(final(ecb_mutex).guarded().log(), old(ecb_mutex).guarded().log()),
            old(self)@.carried_out(
                Next::Block,
                trace::since(final(ecb_mutex).guarded().log(), old(ecb_mutex).guarded().log()),
                trace::since(final(client).log(), old(client).log()),
                final(self)@,
                old(ecb_mutex)@,
                final(ecb_mutex)@,
            ),
    {
        let offset: usize = self.offset;
        assert(self.workspace.len() <= usize::MAX);
        let mut input = [0u8;16];
        let part = vstd::slice::slice_subrange(
            self.workspace.as_slice(),
            offset,
            offset + BLOCK_SIZE,
        );
        bytes::copy_into(&mut input, 0, part);
        assert(input@ =~= bytes::block_at(self.workspace@, offset as int));
        if self.operation == Operation::Encrypt {
            input = bytes::xor_blocks(input, self.chaining_value);
        }
        self.start_ecb_block(State::Crypt, input, ecb_mutex, client);
    }

    /// Hands the result and the chaining value to the client and ends the operation.
    fn write_output<K: CbcClient<Aes128>>(
        &mut self,
        ecb_mutex: &mut DriverMutex<E>,
        client: &mut K,
    )
        requires
            old(self)@.may(Next::Output),
            old(self)@.session.linked(old(ecb_mutex)@),
            old(ecb_mutex)@.wf(),
            old(ecb_mutex).guarded().valid(),
            old(client).valid(),
        ensures
            final(self).valid(),
            final(self)@.session.linked(final(ecb_mutex)@),
            final(ecb_mutex)@.wf(),
            final(ecb_mutex).guarded().valid(),
            final(client).valid(),
            final(self).log() == old(self).log(),
            trace::extends(final(client).log(), old(client).log()),
            trace::extends(final(ecb_mutex).guarded().log(), old(ecb_mutex).guarded().log()),
            old(self)@.carried_out(
                Next::Output,
                trace::since(final(ecb_mutex).guarded().log(), old(ecb_mutex).guarded().log()),
                trace::since(final(client).log(), old(client).log()),
                final(self)@,
                old(ecb_mutex)@,
                final(ecb_mutex)@,
            ),
    {
        let ghost log = client.log();
        let ghost driver_log = ecb_mutex.guarded().log();
        let output = vstd::slice::slice_subrange(self.workspace.as_slice(), 0, self.len);
        let mut result = client.write_output(output);
        let ghost mut calls = seq![Call::Write { port: Port::Output, data: output@, result }];
        if result.is_ok() {
            result = client.write_iv(&self.chaining_value);
            proof {
                calls = calls.push(
                    Call::Write { port: Port::Iv, data: self.chaining_value@, result },
                );
            }
        }
        let ghost middle = client.log();
        self.finish(result, ecb_mutex, client);
        proof {
            let ends = trace::since(client.log(), middle);
            trace::lemma_extends_append(client.log(), middle);
            assert(middle =~= log + calls);
            assert(client.log() =~= log + (calls + ends));
            trace::lemma_since_append(log, calls + ends);
            assert(driver_log + Seq::empty() =~= driver_log);
            trace::lemma_since_append(driver_log, Seq::empty());
            assert((calls + ends).skip(calls.len() as int) =~= ends);
        }
    }

    /// Carries out what follows.
    fn proceed<K: CbcClient<Aes128>>(
        &mut self,
        next: Next,
        ecb_mutex: &mut DriverMutex<E>,
        client: &mut K,
    )
        requires
            old(self)@.may(next),
            old(self)@.session.linked(old(ecb_mutex)@),
            old(ecb_mutex)@.wf(),
            old(ecb_mutex).guarded().valid(),
            old(client).valid(),
        ensures
            final(self).valid(),
            final(self)@.session.linked(final(ecb_mutex)@),
            final(ecb_mutex)@.wf(),
            final(ecb_mutex).guarded().valid(),
            final(client).valid(),
            final(self).log() == old(self).log(),
            trace::extends(final(client).log(), old(client).log()),
            trace::extends(final(ecb_mutex).guarded().log(), old(ecb_mutex).guarded().log()),
            old(self)@.carried_out(
                next,
                trace::since(final(ecb_mutex).guarded().log(), old(ecb_mutex).guarded().log()),
                trace::since(final(client).log(), old(client).log()),
                final(self)@,
                old(ecb_mutex)@,
                final(ecb_mutex)@,
            ),
    {
        match next {
            Next::Block => self.start_block(ecb_mutex, client),
            Next::Output => self.write_output(ecb_mutex, client),
        }
    }

    /// Called when the mutex hands out the driver. Starts the operation that waits for it, after
    /// retrieving what it needs; gives the driver back if none waits.
    pub fn ready<K: CbcClient<Aes128>>(
        &mut self,
        resource: DriverMutexAny,
        ecb_mutex: &mut DriverMutex<E>,
        client: &mut K,
    )
        requires
            old(self).valid(),
            resource.owner() == old(ecb_mutex)@.id,
            old(ecb_mutex)@.guards() > (if old(self)@.session.guard is Some {
                1nat
            } else {
                0
            }),
            old(self)@.session.linked(old(ecb_mutex)@),
            old(ecb_mutex)@.wf(),
            old(ecb_mutex).guarded().valid(),
            old(client).valid(),
        ensures
            final(self).valid(),
            final(self)@.session.linked(final(ecb_mutex)@),
            final(ecb_mutex)@.wf(),
            final(ecb_mutex).guarded().valid(),
            final(client).valid(),
            final(self).log() == old(self).log(),
            trace::extends(final(client).log(), old(client).log()),
            trace::extends(final(ecb_mutex).guarded().log(), old(ecb_mutex).guarded().log()),
            !(old(self)@.state is WaitingForEcb) ==> {
                &&& final(self)@ == old(self)@
                &&& final(ecb_mutex)@ == old(ecb_mutex)@.released()
                &&& final(ecb_mutex).guarded() == old(ecb_mutex).guarded()
                &&& final(client).log() == old(client).log()
            },
            old(self)@.state is WaitingForEcb && resource.kind() != E::kind() ==> {
                &&& old(self)@.ended(
                    Err(ErrorCode::INVAL),
                    trace::since(final(client).log(), old(client).log()),
                    final(self)@,
                    old(ecb_mutex)@.released(),
                    final(ecb_mutex)@,
                )
                &&& final(ecb_mutex).guarded() == old(ecb_mutex).guarded()
            },
            old(self)@.state is WaitingForEcb && resource.kind() == E::kind() ==> old(self)@.readied(
                trace::since(final(ecb_mutex).guarded().log(), old(ecb_mutex).guarded().log()),
                trace::since(final(client).log(), old(client).log()),
                final(self)@,
                old(ecb_mutex)@,
                final(ecb_mutex)@,
            ),
    {
        let ghost start = self@;
        let ghost log = client.log();
        let ghost driver_log = ecb_mutex.guarded().log();
        proof {
            assert(log + Seq::empty() =~= log);
            trace::lemma_since_append(log, Seq::empty());
            assert(driver_log + Seq::empty() =~= driver_log);
            trace::lemma_since_append(driver_log, Seq::empty());
        }
        if self.state != State::WaitingForEcb {
            ecb_mutex.release_any(resource);
            return ;
        }
        if !self.session.attach(resource, ecb_mutex) {
            self.finish(Err(ErrorCode::INVAL), ecb_mutex, client);
            return ;
        }
        let ghost set_client = Call::SetClient { client: start.session.id };
        let ghost driver_middle = ecb_mutex.guarded().log();
        let result = self.initialize(client);
        let ghost reads = trace::since(client.log(), log);
        let ghost middle = client.log();
        proof {
            trace::lemma_extends_append(middle, log);
            assert(driver_middle =~= driver_log + seq![set_client]);
            trace::lemma_since_append(driver_log, seq![set_client]);
        }
        match result {
            Err(error) => {
                self.finish(Err(error), ecb_mutex, client);
                proof {
                    assert(driver_middle + Seq::empty() =~= driver_middle);
                    trace::lemma_since_append(driver_middle, Seq::empty());
                }
            },
            Ok(()) => {
                let next = if self.len == 0 {
                    Next::Output
                } else {
                    Next::Block
                };
                self.proceed(next, ecb_mutex, client);
            },
        }
        proof {
            let ends = trace::since(client.log(), middle);
            trace::lemma_extends_append(client.log(), middle);
            assert(client.log() =~= log + (reads + ends));
            trace::lemma_since_append(log, reads + ends);
            assert((reads + ends).take(reads.len() as int) =~= reads);
            assert((reads + ends).skip(reads.len() as int) =~= ends);
            let driver_ends = trace::since(ecb_mutex.guarded().log(), driver_middle);
            trace::lemma_extends_append(ecb_mutex.guarded().log(), driver_middle);
            assert(ecb_mutex.guarded().log() =~= driver_log + (seq![set_client] + driver_ends));
            trace::lemma_since_append(driver_log, seq![set_client] + driver_ends);
            assert((seq![set_client] + driver_ends).skip(1) =~= driver_ends);
        }
    }

    /// Acts on what the driver said of the block under way: goes on with the operation, or ends
    /// it. To be called after the driver's completion callback.
    pub fn resume<K: CbcClient<Aes128>>(&mut self, ecb_mutex: &mut DriverMutex<E>, client: &mut K)
        requires
            old(self).valid(),
            old(self)@.session.linked(old(ecb_mutex)@),
            old(ecb_mutex)@.wf(),
            old(ecb_mutex).guarded().valid(),
            old(client).valid(),
        ensures
            final(self).valid(),
            final(self)@.session.linked(final(ecb_mutex)@),
            final(ecb_mutex)@.wf(),
            final(ecb_mutex).guarded().valid(),
            final(client).valid(),
            final(self).log() == old(self).log(),
            trace::extends(final(client).log(), old(client).log()),
            trace::extends(final(ecb_mutex).guarded().log(), old(ecb_mutex).guarded().log()),
            old(self)@.resumed(
                trace::since(final(ecb_mutex).guarded().log(), old(ecb_mutex).guarded().log()),
                trace::since(final(client).log(), old(client).log()),
                final(self)@,
                old(ecb_mutex)@,
                final(ecb_mutex)@,
            ),
    {
        let ghost log = client.log();
        let ghost driver_log = ecb_mutex.guarded().log();
        proof {
            assert(log + Seq::empty() =~= log);
            trace::lemma_since_append(log, Seq::empty());
            assert(driver_log + Seq::empty() =~= driver_log);
            trace::lemma_since_append(driver_log, Seq::empty());
        }
        let completion = match self.session.take_completion() {
            Some(completion) => completion,
            None => {
                return ;
            },
        };
        if let Err(error) = completion {
            self.finish(Err(error), ecb_mutex, client);
            return ;
        }
        if !self.session.is_exchanged() {
            self.finish(Err(ErrorCode::FAIL), ecb_mutex, client);
            return ;
        }
        match self.state {
            State::Crypt => {
                let next = self.block_done();
                self.proceed(next, ecb_mutex, client);
            },
            State::Idle | State::WaitingForEcb => {
                self.finish(Err(ErrorCode::FAIL), ecb_mutex, client);
            },
        }
    }
}

impl<E> EcbClient<Aes128> for SoftwareCbc<E> {
    /// Hands out the key. Returns `SIZE` if the buffer does not have the size of a key.
    fn read_key(&mut self, key: &mut [u8]) -> (result: Result<(), ErrorCode>)
        ensures
            final(self)@ == old(self)@,
            result == session::key_result(old(key)@),
            final(key)@ == session::key_buffer(old(self)@.session, old(key)@),
    {
        self.session.read_key(key)
    }

    /// Hands out the next part of the block under way. Returns `INVAL` if nothing is asked for or
    /// nothing is left.
    fn read_input(&mut self, input: &mut [u8]) -> (count: Result<usize, ErrorCode>)
        ensures
            final(self)@ == (CbcView { session: final(self)@.session, ..old(self)@ }),
            session::input_read(
                old(self)@.session,
                old(input)@,
                count,
                final(self)@.session,
                final(input)@,
            ),
    {
        self.session.read_input(input)
    }

    /// Takes the next part of the block that the driver returns. Returns `SIZE` if it does not fit.
    fn write_output(&mut self, output: &[u8]) -> (result: Result<(), ErrorCode>)
        ensures
            final(self)@ == (CbcView { session: final(self)@.session, ..old(self)@ }),
            session::output_written(old(self)@.session, output@, result, final(self)@.session),
    {
        self.session.write_output(output)
    }

    /// Notes how the driver says the block ended; [`SoftwareCbc::resume`] acts on it.
    fn crypt_done(&mut self, result: Result<(), ErrorCode>)
        ensures
            final(self)@ == (CbcView {
                session: SessionView { completion: Some(result), ..old(self)@.session },
                ..old(self)@
            }),
    {
        self.session.crypt_done(result)
    }
}

} // verus!
