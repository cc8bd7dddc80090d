//! The part that every software mode shares: its place at the mutex of the block cipher driver,
//! and the block that it exchanges with that driver.
use crate::driver_mutex::{
    DriverMutex, DriverMutexAny, DriverMutexHandle, DriverMutexRef, MutexView, Resource,
};
use crate::error::ErrorCode;
use crate::hil::cipher::{Aes128, Ecb, EcbClient, Operation};
use crate::hil::trace::{Call, Observed, Port};
use crate::sw::bytes;
use vstd::prelude::*;

verus! {

/// Block size of AES, in bytes.
pub const BLOCK_SIZE: usize = 16;

/// Key size of AES-128, in bytes.
pub const KEY_SIZE: usize = 16;

/// What a session is.
#[verifier::ext_equal]
pub struct SessionView {
    /// The number by which the mutex and the driver know this mode.
    pub id: usize,
    /// Registration with the mutex.
    pub handle: Option<DriverMutexHandle>,
    /// The mutex whose guard is held.
    pub guard: Option<usize>,
    /// The client of the mode.
    pub client: Option<usize>,
    /// Key of the running operation.
    pub key: Seq<u8>,
    /// The block that the driver reads.
    pub input: Seq<u8>,
    /// How much of it the driver has read.
    pub input_offset: nat,
    /// The block that the driver writes.
    pub output: Seq<u8>,
    /// How much of it the driver has written.
    pub output_offset: nat,
    /// How the driver says the block ended, until the mode has acted on it.
    pub completion: Option<Result<(), ErrorCode>>,
}

impl SessionView {
    /// The offsets lie within the blocks.
    pub open spec fn wf(self) -> bool {
        &&& self.key.len() == 16
        &&& self.input.len() == 16
        &&& self.output.len() == 16
        &&& self.input_offset <= 16
        &&& self.output_offset <= 16
    }

    /// A guard that is held is one that `mutex` has given out.
    pub open spec fn linked(self, mutex: MutexView) -> bool {
        self.guard matches Some(owner) ==> owner == mutex.id && mutex.guards() > 0
    }

    /// A session of the mode numbered `id` that is not registered yet.
    pub open spec fn fresh(id: usize) -> SessionView {
        SessionView {
            id,
            handle: None,
            guard: None,
            client: None,
            key: bytes::zeros(16),
            input: bytes::zeros(16),
            input_offset: 0,
            output: bytes::zeros(16),
            output_offset: 0,
            completion: None,
        }
    }

    /// The session with a fresh block to be handed to the driver.
    pub open spec fn staged(self, input: Seq<u8>) -> SessionView {
        SessionView {
            input,
            input_offset: 0,
            output: bytes::zeros(16),
            output_offset: 0,
            completion: None,
            ..self
        }
    }

    /// Both blocks have gone through whole.
    pub open spec fn exchanged(self) -> bool {
        self.input_offset == 16 && self.output_offset == 16
    }
}

/// A mode's registration with the mutex of its block cipher driver, and the block under way.
pub struct EcbSession<E> {
    id: usize,
    handle: Option<DriverMutexHandle>,
    guard: Option<DriverMutexRef<E>>,
    client: Option<usize>,
    key: [u8; 16],
    input: [u8; 16],
    input_offset: usize,
    output: [u8; 16],
    output_offset: usize,
    completion: Option<Result<(), ErrorCode>>,
    log: Ghost<Seq<Call>>,
}

impl<E> View for EcbSession<E> {
    type V = SessionView;

    closed spec fn view(&self) -> SessionView {
        SessionView {
            id: self.id,
            handle: self.handle,
            guard: match self.guard {
                Some(guard) => Some(guard.owner()),
                None => None,
            },
            client: self.client,
            key: self.key@,
            input: self.input@,
            input_offset: self.input_offset as nat,
            output: self.output@,
            output_offset: self.output_offset as nat,
            completion: self.completion,
        }
    }
}

impl<E> Observed for EcbSession<E> {
    closed spec fn log(&self) -> Seq<Call> {
        self.log@
    }

    open spec fn valid(&self) -> bool {
        self@.wf()
    }
}

impl<E> EcbSession<E> {
    /// A session of the mode numbered `id` that is not registered yet.
    pub fn new(id: usize) -> (session: Self)
        ensures
            session.valid(),
            session.log() == Seq::<Call>::empty(),
            session@ == SessionView::fresh(id),
    {
        let session = EcbSession {
            id,
            handle: None,
            guard: None,
            client: None,
            key: [0u8;16],
            input: [0u8;16],
            input_offset: 0,
            output: [0u8;16],
            output_offset: 0,
            completion: None,
            log: Ghost(Seq::empty()),
        };
        assert(session.key@ =~= bytes::zeros(16));
        session
    }

    /// Whether a client is set and the mode is registered.
    pub fn is_configured(&self) -> (configured: bool)
        ensures
            configured <==> self@.client is Some && self@.handle is Some,
    {
        self.client.is_some() && self.handle.is_some()
    }

    /// Whether a client is set.
    pub fn has_client(&self) -> (set: bool)
        ensures
            set <==> self@.client is Some,
    {
        self.client.is_some()
    }

    /// Sets the client of the mode.
    pub fn set_client(&mut self, client: usize)
        ensures
            final(self)@ == (SessionView { client: Some(client), ..old(self)@ }),
            final(self).log() == old(self).log(),
    {
        self.client = Some(client);
    }

    /// Sets the key for the blocks to come.
    pub fn set_key(&mut self, key: [u8; 16])
        ensures
            final(self)@ == (SessionView { key: key@, ..old(self)@ }),
            final(self).log() == old(self).log(),
    {
        self.key = key;
    }

    /// The block that the driver was given.
    pub fn input(&self) -> (block: [u8; 16])
        ensures
            block@ == self@.input,
    {
        self.input
    }

    /// The block that the driver returned.
    pub fn output(&self) -> (block: [u8; 16])
        ensures
            block@ == self@.output,
    {
        self.output
    }

    /// Whether the driver has read its whole input and written its whole output.
    pub fn is_exchanged(&self) -> (whole: bool)
        ensures
            whole == self@.exchanged(),
    {
        self.input_offset == BLOCK_SIZE && self.output_offset == BLOCK_SIZE
    }

    /// Takes the driver's word on how the block ended.
    pub fn take_completion(&mut self) -> (completion: Option<Result<(), ErrorCode>>)
        ensures
            completion == old(self)@.completion,
            final(self)@ == (SessionView { completion: None, ..old(self)@ }),
            final(self).log() == old(self).log(),
    {
        self.completion.take()
    }

    /// Registers the mode as a client of the mutex of its block cipher driver. Returns `ALREADY`
    /// if it is registered, and `NOMEM` if the mutex has no room for another client.
    pub fn register(&mut self, mutex: &mut DriverMutex<E>) -> (result: Result<(), ErrorCode>)
        requires
            old(mutex)@.wf(),
        ensures
            final(mutex)@.wf(),
            final(mutex).guarded() == old(mutex).guarded(),
            final(self).log() == old(self).log(),
            register_result(old(self)@, old(mutex)@, result, final(self)@, final(mutex)@),
    {
        if self.handle.is_some() {
            return Err(ErrorCode::ALREADY);
        }
        match mutex.add_client(self.id) {
            None => Err(ErrorCode::NOMEM),
            Some(handle) => {
                self.handle = Some(handle);
                Ok(())
            },
        }
    }

    /// Requests the driver. Returns `OFF` if the mode is not registered.
    pub fn request(&self, mutex: &mut DriverMutex<E>) -> (result: Result<(), ErrorCode>)
        requires
            old(mutex)@.wf(),
            self@.handle matches Some(handle) ==> old(mutex)@.admits(handle),
        ensures
            final(mutex)@.wf(),
            final(mutex).guarded() == old(mutex).guarded(),
            match self@.handle {
                Some(handle) => result == old(mutex)@.request_result(handle) && final(mutex)@
                    == old(mutex)@.requested(handle),
                None => result == Err::<(), ErrorCode>(ErrorCode::OFF) && final(mutex)@ == old(mutex)@,
            },
    {
        match self.handle {
            Some(handle) => mutex.request(handle),
            None => Err(ErrorCode::OFF),
        }
    }

    /// Drops the guard, if one is held.
    pub fn detach(&mut self, mutex: &mut DriverMutex<E>)
        requires
            old(mutex)@.wf(),
            old(self)@.linked(old(mutex)@),
        ensures
            final(mutex)@.wf(),
            final(mutex).guarded() == old(mutex).guarded(),
            final(mutex)@ == (if old(self)@.guard is Some {
                old(mutex)@.released()
            } else {
                old(mutex)@
            }),
            final(self)@ == (SessionView { guard: None, ..old(self)@ }),
            final(self).log() == old(self).log(),
    {
        if let Some(guard) = self.guard.take() {
            mutex.release(guard);
        }
    }
}

impl<E: Ecb<Aes128> + Resource> EcbSession<E> {
    /// Takes over the driver that the mutex has handed out and makes the mode its client. Returns
    /// `false`, and drops the guard, if the resource is no driver of the expected type.
    pub fn attach(&mut self, resource: DriverMutexAny, mutex: &mut DriverMutex<E>) -> (attached:
        bool)
        requires
            old(mutex)@.wf(),
            old(mutex).guarded().valid(),
            old(mutex)@.guards() > 0,
            resource.owner() == old(mutex)@.id,
            old(self)@.guard is None,
        ensures
            final(mutex)@.wf(),
            final(mutex).guarded().valid(),
            final(self).log() == old(self).log(),
            attached <==> resource.kind() == E::kind(),
            attached ==> {
                &&& final(self)@ == (SessionView { guard: Some(old(mutex)@.id), ..old(self)@ })
                &&& final(mutex)@ == old(mutex)@
                &&& final(mutex).guarded().log() == old(mutex).guarded().log().push(
                    Call::SetClient { client: old(self)@.id },
                )
            },
            !attached ==> {
                &&& final(self)@ == old(self)@
                &&& final(mutex)@ == old(mutex)@.released()
                &&& final(mutex).guarded() == old(mutex).guarded()
            },
    {
        match resource.downcast::<E>() {
            Ok(guard) => {
                let driver = mutex.resource(&guard);
                driver.set_client(self.id);
                self.guard = Some(guard);
                true
            },
            Err(resource) => {
                mutex.release_any(resource);
                false
            },
        }
    }

    /// Hands a block to the driver. Returns the driver's answer, or `FAIL` if no guard is held.
    pub fn start(
        &mut self,
        mutex: &mut DriverMutex<E>,
        input: [u8; 16],
        operation: Operation,
    ) -> (result: Result<(), ErrorCode>)
        requires
            old(mutex)@.wf(),
            old(mutex).guarded().valid(),
            old(self)@.linked(old(mutex)@),
            old(self)@.wf(),
        ensures
            final(mutex)@ == old(mutex)@,
            final(mutex).guarded().valid(),
            final(self)@ == old(self)@.staged(input@),
            final(self).log() == old(self).log(),
            match old(self)@.guard {
                Some(_) => final(mutex).guarded().log() == old(mutex).guarded().log().push(
                    Call::EcbCrypt { len: 16, operation, result },
                ),
                None => result == Err::<(), ErrorCode>(ErrorCode::FAIL) && final(mutex).guarded()
                    == old(mutex).guarded(),
            },
    {
        self.input = input;
        self.input_offset = 0;
        self.output = [0u8;16];
        self.output_offset = 0;
        self.completion = None;
        assert(self.output@ =~= bytes::zeros(16));
        match &self.guard {
            Some(guard) => {
                let driver = mutex.resource(guard);
                driver.crypt(BLOCK_SIZE, operation)
            },
            None => Err(ErrorCode::FAIL),
        }
    }
}

/// The calls of an initialization have come as far as the input, which is read last.
pub open spec fn reached_input(calls: Seq<Call>) -> bool {
    calls.len() > 0 && calls.last() is Read && calls.last()->Read_port == Port::Input
}

/// How registering ends.
pub open spec fn register_result(
    session: SessionView,
    mutex: MutexView,
    result: Result<(), ErrorCode>,
    later: SessionView,
    later_mutex: MutexView,
) -> bool {
    match result {
        Ok(()) => {
            &&& session.handle is None
            &&& later.handle matches Some(handle) && mutex.is_slot_of(
                session.id,
                handle.index() as int,
            ) && later_mutex == mutex.added(session.id, handle.index() as int)
                && later_mutex.issued(handle)
            &&& later == (SessionView { handle: later.handle, ..session })
        },
        Err(error) => {
            &&& later == session
            &&& later_mutex == mutex
            &&& error == (if session.handle is Some {
                ErrorCode::ALREADY
            } else {
                ErrorCode::NOMEM
            })
            &&& session.handle is None ==> forall|slot: int| !mutex.is_slot_of(session.id, slot)
        },
    }
}

/// The answer to a driver that asks for the key.
pub open spec fn key_result(buffer: Seq<u8>) -> Result<(), ErrorCode> {
    if buffer.len() == 16 {
        Ok(())
    } else {
        Err(ErrorCode::SIZE)
    }
}

/// What a driver that asks for the key finds in its buffer.
pub open spec fn key_buffer(session: SessionView, buffer: Seq<u8>) -> Seq<u8> {
    if buffer.len() == 16 {
        session.key
    } else {
        buffer
    }
}

/// How a driver's read of the input block ends.
pub open spec fn input_read(
    session: SessionView,
    buffer: Seq<u8>,
    count: Result<usize, ErrorCode>,
    later: SessionView,
    later_buffer: Seq<u8>,
) -> bool {
    let offset = session.input_offset as int;
    let sent = if buffer.len() < 16 - offset {
        buffer.len() as int
    } else {
        16 - offset
    };
    if sent == 0 {
        &&& count == Err::<usize, ErrorCode>(ErrorCode::INVAL)
        &&& later == session
        &&& later_buffer == buffer
    } else {
        &&& count == Ok::<usize, ErrorCode>(sent as usize)
        &&& later == (SessionView { input_offset: (offset + sent) as nat, ..session })
        &&& later_buffer == session.input.subrange(offset, offset + sent) + buffer.skip(sent)
    }
}

/// How a driver's write of the output block ends.
pub open spec fn output_written(
    session: SessionView,
    output: Seq<u8>,
    result: Result<(), ErrorCode>,
    later: SessionView,
) -> bool {
    let offset = session.output_offset;
    if offset + output.len() > 16 {
        &&& result == Err::<(), ErrorCode>(ErrorCode::SIZE)
        &&& later == session
    } else {
        &&& result == Ok::<(), ErrorCode>(())
        &&& later == (SessionView {
            output: session.output.take(offset as int) + output + session.output.skip(
                (offset + output.len()) as int,
            ),
            output_offset: offset + output.len(),
            ..session
        })
    }
}

impl<E> EcbClient<Aes128> for EcbSession<E> {
    /// Hands out the key. Returns `SIZE` if the buffer does not have the size of a key.
    fn read_key(&mut self, key: &mut [u8]) -> (result: Result<(), ErrorCode>)
        ensures
            final(self)@ == old(self)@,
            result == key_result(old(key)@),
            final(key)@ == key_buffer(old(self)@, old(key)@),
    {
        let result = if key.len() != KEY_SIZE {
            Err(ErrorCode::SIZE)
        } else {
            bytes::copy_into(key, 0, self.key.as_slice());
            assert(key@ =~= self.key@);
            Ok(())
        };
        proof {
            self.log@ = self.log@.push(
                Call::Fill {
                    port: Port::Key,
                    offered: old(key)@,
                    buffer: key@,
                    result,
                },
            );
        }
        result
    }

    /// Hands out the next part of the input block. Returns `INVAL` if nothing is asked for or
    /// nothing is left.
    fn read_input(&mut self, input: &mut [u8]) -> (count: Result<usize, ErrorCode>)
        ensures
            input_read(old(self)@, old(input)@, count, final(self)@, final(input)@),
    {
        let offset: usize = self.input_offset;
        let left: usize = BLOCK_SIZE - offset;
        let read_len: usize = if input.len() < left {
            input.len()
        } else {
            left
        };
        let count: Result<usize, ErrorCode> = if read_len == 0 {
            Err(ErrorCode::INVAL)
        } else {
            let part = vstd::slice::slice_subrange(self.input.as_slice(), offset, offset + read_len);
            bytes::copy_into(input, 0, part);
            self.input_offset = offset + read_len;
            assert(input@ =~= self.input@.subrange(offset as int, offset + read_len) + old(input)@.skip(read_len as int));
            Ok(read_len)
        };
        proof {
            self.log@ = self.log@.push(
                Call::Read {
                    port: Port::Input,
                    offered: old(input)@,
                    buffer: input@,
                    count,
                },
            );
        }
        count
    }

    /// Takes the next part of the output block. Returns `SIZE` if it does not fit.
    fn write_output(&mut self, output: &[u8]) -> (result: Result<(), ErrorCode>)
        ensures
            output_written(old(self)@, output@, result, final(self)@),
    {
        let offset: usize = self.output_offset;
        let result = if output.len() > BLOCK_SIZE - offset {
            Err(ErrorCode::SIZE)
        } else {
            let mut block = self.output;
            let mut i: usize = 0;
            while i < output.len()
                invariant
                    i <= output@.len(),
                    offset + output@.len() <= 16,
                    forall|j: int|
                        0 <= j < 16 ==> #[trigger] block@[j] == (if offset <= j < offset + i {
                            output@[j - offset]
                        } else {
                            self.output@[j]
                        }),
                decreases output@.len() - i,
            {
                block[offset + i] = output[i];
                i = i + 1;
            }
            assert(block@ =~= self.output@.take(offset as int) + output@ + self.output@.skip(
                (offset + output@.len()) as int,
            ));
            self.output = block;
            self.output_offset = offset + output.len();
            Ok(())
        };
        proof {
            self.log@ = self.log@.push(Call::Write { port: Port::Output, data: output@, result });
        }
        result
    }

    /// Notes how the driver says the block ended.
    fn crypt_done(&mut self, result: Result<(), ErrorCode>)
        ensures
            final(self)@ == (SessionView { completion: Some(result), ..old(self)@ }),
    {
        self.completion = Some(result);
        proof {
            self.log@ = self.log@.push(Call::Done { result });
        }
    }
}

} // verus!
