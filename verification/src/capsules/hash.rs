//! Hash Userspace Driver
//!
//! # System call interface
//!
//! ## `subscribe_num`
//!
//! - `0`: operation completion. Callback arguments are `(status, output_len, 0)`.
//!
//! ## Read-only allow buffers
//!
//! - `0`: the data
//!
//! ## Read-write allow buffers
//!
//! - `0`: the digest, of exactly the length that the algorithm's digest has
//!
//! ## Commands
//!
//! - `0`: driver check
//! - `1`: hash. `data1` is the algorithm: `0 = Md5`, `1 = Sha1`, `2 = Sha224`, `3 = Sha256`,
//!   `4 = Sha384`, `5 = Sha512`, `6 = Sha512-224`, and `7 = Sha512-256`.
//!
//! We expect userspace to setup buffers for the data and the generated hash. These buffers must be
//! allocated and specified to the kernel with allow calls.
//!
//! We expect userspace not to change the value while running. If userspace changes the value we
//! have no guarantee of what is passed to the hardware. This isn't a security issue, it will just
//! provide the requesting app with invalid data.
//!
//! The driver takes care of clearing data from the underlying implementation when the operation
//! has ended.
use crate::driver_mutex::{
    DriverMutex, DriverMutexAny, DriverMutexHandle, DriverMutexRef, MutexView, Resource,
};
use crate::error::ErrorCode;
use crate::grant;
use crate::grant::{Grant, GrantView, Upcall};
use crate::hil::digest::{Algorithm, Client, Digest};
use crate::hil::trace::{Call, Observed, Port};
use crate::sub_slice::SubSlice;
use vstd::prelude::*;

verus! {

/// The upcall at the end of an operation.
pub const UPCALL_DONE: usize = 0;

pub const RO_INPUT: usize = 0;

pub const RW_OUTPUT: usize = 0;

/// What the driver is doing, and for which process.
#[derive(Clone, Copy, Debug, PartialEq, Eq, Structural)]
pub enum State {
    Idle,
    Waiting { processid: usize, algorithm: Algorithm },
    Active { processid: usize },
}

/// The algorithm that a value stands for.
pub open spec fn algorithm_of(value: usize) -> Result<Algorithm, ErrorCode> {
    if value == 0 {
        Ok(Algorithm::Md5)
    } else if value == 1 {
        Ok(Algorithm::Sha1)
    } else if value == 2 {
        Ok(Algorithm::Sha224)
    } else if value == 3 {
        Ok(Algorithm::Sha256)
    } else if value == 4 {
        Ok(Algorithm::Sha384)
    } else if value == 5 {
        Ok(Algorithm::Sha512)
    } else if value == 6 {
        Ok(Algorithm::Sha512_224)
    } else if value == 7 {
        Ok(Algorithm::Sha512_256)
    } else {
        Err(ErrorCode::INVAL)
    }
}

pub fn parse_mode(value: usize) -> (algorithm: Result<Algorithm, ErrorCode>)
    ensures
        algorithm == algorithm_of(value),
{
    match value {
        0 => Ok(Algorithm::Md5),
        1 => Ok(Algorithm::Sha1),
        2 => Ok(Algorithm::Sha224),
        3 => Ok(Algorithm::Sha256),
        4 => Ok(Algorithm::Sha384),
        5 => Ok(Algorithm::Sha512),
        6 => Ok(Algorithm::Sha512_224),
        7 => Ok(Algorithm::Sha512_256),
        _ => Err(ErrorCode::INVAL),
    }
}

/// Userspace driver for digests over a mutexed hash driver.
pub struct Hash<H> {
    id: usize,
    hash_handle: Option<DriverMutexHandle>,
    hash: Option<DriverMutexRef<H>>,
    apps: Grant,
    state: State,
    data_buffer: Option<Vec<u8>>,
    input_len: usize,
    output_len: usize,
    input_offset: usize,
    output_offset: usize,
    completion: Option<Result<(), ErrorCode>>,
    log: Ghost<Seq<Call>>,
}

/// What the driver is.
#[verifier::ext_equal]
pub struct HashView {
    /// The number by which the mutex and the hash driver know this driver.
    pub id: usize,
    pub handle: Option<DriverMutexHandle>,
    /// The mutex whose guard is held.
    pub held: Option<usize>,
    pub apps: GrantView,
    pub state: State,
    /// The buffer for input by DMA, while it is at hand.
    pub data_buffer: Option<Seq<u8>>,
    pub input_len: usize,
    pub output_len: usize,
    pub input_offset: usize,
    pub output_offset: usize,
    /// How the hash driver says the operation ended, until this driver has acted on it.
    pub completion: Option<Result<(), ErrorCode>>,
}

impl<H> View for Hash<H> {
    type V = HashView;

    closed spec fn view(&self) -> HashView {
        HashView {
            id: self.id,
            handle: self.hash_handle,
            held: match self.hash {
                Some(guard) => Some(guard.owner()),
                None => None,
            },
            apps: self.apps@,
            state: self.state,
            data_buffer: match self.data_buffer {
                Some(buffer) => Some(buffer@),
                None => None,
            },
            input_len: self.input_len,
            output_len: self.output_len,
            input_offset: self.input_offset,
            output_offset: self.output_offset,
            completion: self.completion,
        }
    }
}

impl HashView {
    /// A driver that is idle and not registered yet.
    pub open spec fn fresh(id: usize, data_buffer: Seq<u8>, apps: GrantView) -> HashView {
        HashView {
            id,
            handle: None,
            held: None,
            apps,
            state: State::Idle,
            data_buffer: Some(data_buffer),
            input_len: 0,
            output_len: 0,
            input_offset: 0,
            output_offset: 0,
            completion: None,
        }
    }

    /// A guard that is held is one that `mutex` has given out.
    pub open spec fn linked(self, mutex: MutexView) -> bool {
        self.held matches Some(owner) ==> owner == mutex.id && mutex.guards() > 0
    }

    /// The process that the driver works for; `RESERVE` if there is none.
    pub open spec fn processid(self) -> Result<usize, ErrorCode> {
        match self.state {
            State::Active { processid } => Ok(processid),
            _ => Err(ErrorCode::RESERVE),
        }
    }

    /// At most `len` bytes of the input that come next.
    pub open spec fn next_input(self, len: nat) -> Result<Seq<u8>, ErrorCode> {
        match self.processid() {
            Err(error) => Err(error),
            Ok(processid) => grant::part_of(
                self.apps.source(processid, RO_INPUT),
                self.input_offset as nat,
                len,
            ),
        }
    }

    /// The driver after a part of the digest came, and what comes of it.
    pub open spec fn output(self, data: Seq<u8>) -> (HashView, Result<(), ErrorCode>) {
        match self.processid() {
            Err(error) => (self, Err(error)),
            Ok(processid) => {
                let offset = self.output_offset as nat;
                let room = grant::room_for(
                    self.apps.sink(processid, RW_OUTPUT),
                    offset,
                    data.len(),
                );
                if room is Ok {
                    (
                        HashView {
                            apps: self.apps.written(processid, RW_OUTPUT, offset, data),
                            output_offset: (offset + data.len()) as usize,
                            ..self
                        },
                        room,
                    )
                } else {
                    (self, room)
                }
            },
        }
    }

    /// The driver after its operation has ended: the process that it worked for, if there is one, is
    /// told the status and how much of the digest it has got.
    pub open spec fn finished(self, result: Result<(), ErrorCode>) -> HashView {
        let ended = HashView { state: State::Idle, held: None, ..self };
        let upcall = Upcall {
            number: UPCALL_DONE,
            status: result,
            arg1: self.output_offset,
            arg2: 0,
        };
        match self.state {
            State::Idle => ended,
            State::Waiting { processid, .. } => HashView {
                apps: self.apps.scheduled(processid, upcall),
                ..ended
            },
            State::Active { processid } => HashView {
                apps: self.apps.scheduled(processid, upcall),
                ..ended
            },
        }
    }

    /// The lengths of input and output of an operation, or what is wrong with the buffers.
    pub open spec fn lengths(self, processid: usize, algorithm: Algorithm) -> Result<
        (usize, usize),
        ErrorCode,
    > {
        match (
            grant::len_of(self.apps.readwrite(processid, RW_OUTPUT)),
            grant::len_of(self.apps.readonly(processid, RO_INPUT)),
        ) {
            (Err(error), _) => Err(error),
            (Ok(output), input) => if output != algorithm.digest_len() {
                Err(ErrorCode::INVAL)
            } else {
                match input {
                    Err(error) => Err(error),
                    Ok(input) => Ok((input, output)),
                }
            },
        }
    }

    /// What a request of a process comes back with.
    pub open spec fn start_result(
        self,
        processid: usize,
        mode_value: usize,
        mutex: MutexView,
    ) -> Result<(), ErrorCode> {
        if !(self.state is Idle) {
            Err(ErrorCode::BUSY)
        } else if self.handle is None {
            Err(ErrorCode::OFF)
        } else {
            match algorithm_of(mode_value) {
                Err(error) => Err(error),
                Ok(algorithm) => match self.lengths(processid, algorithm) {
                    Err(error) => Err(error),
                    Ok(_) => mutex.request_result(self.handle->0),
                },
            }
        }
    }

    /// The driver with an operation of a process begun.
    pub open spec fn begun(self, processid: usize, algorithm: Algorithm) -> HashView {
        let (input_len, output_len) = self.lengths(processid, algorithm)->Ok_0;
        HashView {
            input_len,
            output_len,
            input_offset: 0,
            output_offset: 0,
            state: State::Waiting { processid, algorithm },
            ..self
        }
    }

    /// The driver after it has refused a request of a process: lengths and offsets are those of the
    /// request once its buffers were found right, and nothing else changes.
    pub open spec fn refused(self, processid: usize, mode_value: usize) -> HashView {
        if self.state is Idle && self.handle is Some && algorithm_of(mode_value) is Ok
            && self.lengths(processid, algorithm_of(mode_value)->Ok_0) is Ok {
            HashView {
                state: State::Idle,
                ..self.begun(processid, algorithm_of(mode_value)->Ok_0)
            }
        } else {
            self
        }
    }

    /// The driver after it has filled its buffer for the DMA with the input that comes next, and how
    /// many bytes are in it. A buffer that could not be filled stays at hand.
    pub open spec fn filled(self) -> (HashView, Result<(Seq<u8>, nat), ErrorCode>) {
        match self.data_buffer {
            None => (self, Err(ErrorCode::FAIL)),
            Some(buffer) => match self.next_input(buffer.len()) {
                Err(error) => (self, Err(error)),
                Ok(data) => (
                    HashView {
                        data_buffer: None,
                        input_offset: (self.input_offset + data.len()) as usize,
                        ..self
                    },
                    Ok((grant::overwritten(buffer, 0, data), data.len())),
                ),
            },
        }
    }
}

impl<H> Observed for Hash<H> {
    closed spec fn log(&self) -> Seq<Call> {
        self.log@
    }

    open spec fn valid(&self) -> bool {
        true
    }
}

/// The mutex after its guard was given back, where one was held.
pub open spec fn mutex_after(mutex: MutexView, held: Option<usize>) -> MutexView {
    if held is Some {
        mutex.released()
    } else {
        mutex
    }
}

/// The calls of an end to the hash driver, where its guard was held.
pub open spec fn ending(held: Option<usize>) -> Seq<Call> {
    if held is Some {
        seq![Call::ClearData]
    } else {
        Seq::empty()
    }
}

impl<H> Hash<H> {
    /// A driver numbered `id`, which is not registered with the mutex yet.
    pub fn new(id: usize, data_buffer: Vec<u8>, apps: Grant) -> (driver: Self)
        ensures
            driver.log() == Seq::<Call>::empty(),
            driver@ == HashView::fresh(id, data_buffer@, apps@),
    {
        Hash {
            id,
            hash_handle: None,
            hash: None,
            apps,
            state: State::Idle,
            data_buffer: Some(data_buffer),
            input_len: 0,
            output_len: 0,
            input_offset: 0,
            output_offset: 0,
            completion: None,
            log: Ghost(Seq::empty()),
        }
    }

    /// What the processes share with the driver.
    pub fn apps(&self) -> (apps: &Grant)
        ensures
            apps@ == self@.apps,
    {
        &self.apps
    }

    /// Register this driver as a client of the mutex.
    pub fn register(&mut self, hash_mutex: &mut DriverMutex<H>) -> (result: Result<(), ErrorCode>)
        requires
            old(hash_mutex)@.wf(),
        ensures
            final(self).log() == old(self).log(),
            final(hash_mutex)@.wf(),
            final(hash_mutex).guarded() == old(hash_mutex).guarded(),
            final(self)@ == (HashView { handle: final(self)@.handle, ..old(self)@ }),
            old(self)@.handle is Some ==> result == Err::<(), ErrorCode>(ErrorCode::ALREADY),
            old(self)@.handle is None ==> (result is Ok <==> exists|slot: int|
                old(hash_mutex)@.is_slot_of(old(self)@.id, slot)),
            old(self)@.handle is None && result is Err ==> result == Err::<(), ErrorCode>(
                ErrorCode::NOMEM,
            ),
            result is Err ==> final(self)@ == old(self)@ && final(hash_mutex)@ == old(hash_mutex)@,
            result is Ok ==> {
                &&& final(self)@.handle matches Some(handle)
                &&& old(hash_mutex)@.is_slot_of(old(self)@.id, handle.index() as int)
                &&& final(hash_mutex)@ == old(hash_mutex)@.added(
                    old(self)@.id,
                    handle.index() as int,
                )
                &&& final(hash_mutex)@.issued(handle)
            },
    {
        if self.hash_handle.is_some() {
            return Err(ErrorCode::ALREADY);
        }
        match hash_mutex.add_client(self.id) {
            Some(handle) => {
                self.hash_handle = Some(handle);
                Ok(())
            },
            None => Err(ErrorCode::NOMEM),
        }
    }

    fn active_processid(&self) -> (processid: Result<usize, ErrorCode>)
        ensures
            processid == self@.processid(),
    {
        match self.state {
            State::Active { processid } => Ok(processid),
            State::Idle | State::Waiting { .. } => Err(ErrorCode::RESERVE),
        }
    }

    /// Begins the digest of a process: checks algorithm and buffers, and requests the hash driver.
    ///
    /// Returns `BUSY` while an operation is in progress, `OFF` if the driver is not registered,
    /// `INVAL` if there is no such algorithm or the output has not the length of its digest, the
    /// error of a buffer that cannot be reached, and else what the mutex answers.
    pub fn start_operation(
        &mut self,
        processid: usize,
        mode_value: usize,
        hash_mutex: &mut DriverMutex<H>,
    ) -> (result: Result<(), ErrorCode>)
        requires
            old(hash_mutex)@.wf(),
            old(self)@.handle matches Some(handle) ==> old(hash_mutex)@.admits(handle),
        ensures
            final(self).log() == old(self).log(),
            final(hash_mutex)@.wf(),
            final(hash_mutex).guarded() == old(hash_mutex).guarded(),
            result == old(self)@.start_result(processid, mode_value, old(hash_mutex)@),
            result is Ok ==> {
                &&& final(self)@ == old(self)@.begun(processid, algorithm_of(mode_value)->Ok_0)
                &&& final(hash_mutex)@ == old(hash_mutex)@.requested(old(self)@.handle->0)
            },
            result is Err ==> {
                &&& final(self)@ == old(self)@.refused(processid, mode_value)
                &&& final(hash_mutex)@ == old(hash_mutex)@
            },
    {
        if self.state != State::Idle {
            return Err(ErrorCode::BUSY);
        }
        let handle = match self.hash_handle {
            Some(handle) => handle,
            None => {
                return Err(ErrorCode::OFF);
            },
        };
        let algorithm = match parse_mode(mode_value) {
            Ok(algorithm) => algorithm,
            Err(error) => {
                return Err(error);
            },
        };
        let output_len: usize = match self.apps.readwrite_buffer_len(processid, RW_OUTPUT) {
            Ok(len) => len,
            Err(error) => {
                return Err(error);
            },
        };
        if output_len != algorithm.get_digest_len() {
            return Err(ErrorCode::INVAL);
        }
        let input_len: usize = match self.apps.readonly_buffer_len(processid, RO_INPUT) {
            Ok(len) => len,
            Err(error) => {
                return Err(error);
            },
        };
        self.input_len = input_len;
        self.output_len = output_len;
        self.input_offset = 0;
        self.output_offset = 0;
        self.state = State::Waiting { processid, algorithm };
        let result = hash_mutex.request(handle);
        if result.is_err() {
            self.state = State::Idle;
        }
        result
    }

    /// Handles a command of a process.
    pub fn command(
        &mut self,
        command_num: usize,
        data1: usize,
        processid: usize,
        hash_mutex: &mut DriverMutex<H>,
    ) -> (result: Result<(), ErrorCode>)
        requires
            old(hash_mutex)@.wf(),
            old(self)@.handle matches Some(handle) ==> old(hash_mutex)@.admits(handle),
        ensures
            final(self).log() == old(self).log(),
            final(hash_mutex)@.wf(),
            final(hash_mutex).guarded() == old(hash_mutex).guarded(),
            command_num == 0 ==> result is Ok,
            command_num > 1 ==> result == Err::<(), ErrorCode>(ErrorCode::NOSUPPORT),
            command_num != 1 ==> final(self)@ == old(self)@ && final(hash_mutex)@ == old(
                hash_mutex,
            )@,
            command_num == 1 ==> result == old(self)@.start_result(
                processid,
                data1,
                old(hash_mutex)@,
            ),
            command_num == 1 && result is Ok ==> {
                &&& final(self)@ == old(self)@.begun(processid, algorithm_of(data1)->Ok_0)
                &&& final(hash_mutex)@ == old(hash_mutex)@.requested(old(self)@.handle->0)
            },
            command_num == 1 && result is Err ==> {
                &&& final(self)@ == old(self)@.refused(processid, data1)
                &&& final(hash_mutex)@ == old(hash_mutex)@
            },
    {
        match command_num {
            0 => Ok(()),
            1 => self.start_operation(processid, data1, hash_mutex),
            _ => Err(ErrorCode::NOSUPPORT),
        }
    }

    /// Makes sure that a process has a grant.
    pub fn allocate_grant(&self, processid: usize) -> (result: Result<(), ErrorCode>)
        ensures
            result == self@.apps.entry(processid),
    {
        self.apps.enter(processid)
    }

    /// Fills the buffer for the DMA with the input that comes next, which is then passed. A buffer
    /// that cannot be filled stays at hand.
    fn handle_dma_buffer(&mut self) -> (result: Result<SubSlice, ErrorCode>)
        ensures
            final(self).log() == old(self).log(),
            final(self)@ == old(self)@.filled().0,
            match result {
                Ok(slice) => {
                    &&& slice@.wf()
                    &&& slice@.start == 0
                    &&& old(self)@.filled().1 == Ok::<(Seq<u8>, nat), ErrorCode>(
                        (slice@.data, slice@.end as nat),
                    )
                },
                Err(error) => old(self)@.filled().1 == Err::<(Seq<u8>, nat), ErrorCode>(error),
            },
    {
        let offset: usize = self.input_offset;
        let mut data_buffer: Option<Vec<u8>> = None;
        std::mem::swap(&mut data_buffer, &mut self.data_buffer);
        let mut buffer = match data_buffer {
            Some(buffer) => buffer,
            None => {
                return Err(ErrorCode::FAIL);
            },
        };
        let ghost given = buffer@;
        let processid: usize = match self.active_processid() {
            Ok(processid) => processid,
            Err(error) => {
                self.data_buffer = Some(buffer);
                return Err(error);
            },
        };
        let len: usize = buffer.len();
        match self.apps.read_at(
            processid,
            RO_INPUT,
            offset,
            buffer.as_mut_slice(),
            0,
            len,
        ) {
            Ok(bytes_read) => {
                let mut lease = SubSlice::new(buffer);
                lease.keep(bytes_read);
                self.input_offset = offset + bytes_read;
                Ok(lease)
            },
            Err(error) => {
                assert(buffer@ =~= given);
                self.data_buffer = Some(buffer);
                Err(error)
            },
        }
    }
}

impl<H: Digest + Resource> Hash<H> {
    /// Ends the operation: the hash driver clears its data and is given back, and the process is
    /// told.
    fn finish(&mut self, result: Result<(), ErrorCode>, hash_mutex: &mut DriverMutex<H>)
        requires
            old(hash_mutex)@.wf(),
            old(hash_mutex).guarded().valid(),
            old(self)@.linked(old(hash_mutex)@),
        ensures
            final(self).log() == old(self).log(),
            final(self)@ == old(self)@.finished(result),
            final(hash_mutex)@.wf(),
            final(hash_mutex).guarded().valid(),
            final(hash_mutex)@ == mutex_after(old(hash_mutex)@, old(self)@.held),
            final(hash_mutex).guarded().log() == old(hash_mutex).guarded().log() + ending(
                old(self)@.held,
            ),
    {
        let ghost log = hash_mutex.guarded().log();
        let state = self.state;
        self.state = State::Idle;
        assert(log + Seq::<Call>::empty() =~= log);
        if let Some(guard) = self.hash.take() {
            hash_mutex.resource(&guard).clear_data();
            assert(hash_mutex.guarded().log() =~= log + seq![Call::ClearData]);
            hash_mutex.release(guard);
        }
        let processid: usize = match state {
            State::Waiting { processid, .. } => processid,
            State::Active { processid } => processid,
            State::Idle => {
                return ;
            },
        };
        let upcall = Upcall {
            number: UPCALL_DONE,
            status: result,
            arg1: self.output_offset,
            arg2: 0,
        };
        self.apps.schedule_upcall(processid, upcall);
    }

    /// Takes the guard that was waited for, makes this driver the client of the hash driver and has
    /// it hash the input. A guard that is not waited for is given back; one of another driver ends
    /// the operation with `INVAL`, and a refusal ends it with the error.
    pub fn ready(&mut self, resource: DriverMutexAny, hash_mutex: &mut DriverMutex<H>)
        requires
            old(hash_mutex)@.wf(),
            old(hash_mutex).guarded().valid(),
            resource.owner() == old(hash_mutex)@.id,
            old(hash_mutex)@.guards() > 0,
            old(self)@.state is Waiting ==> old(self)@.held is None,
        ensures
            final(self).log() == old(self).log(),
            final(hash_mutex)@.wf(),
            final(hash_mutex).guarded().valid(),
            readied(
                old(self)@,
                final(self)@,
                resource.kind() == H::kind(),
                old(hash_mutex)@,
                final(hash_mutex)@,
                old(hash_mutex).guarded().log(),
                final(hash_mutex).guarded().log(),
            ),
    {
        let ghost log = hash_mutex.guarded().log();
        let (processid, algorithm) = match self.state {
            State::Waiting { processid, algorithm } => (processid, algorithm),
            State::Idle | State::Active { .. } => {
                hash_mutex.release_any(resource);
                return ;
            },
        };
        self.state = State::Active { processid };
        match resource.downcast::<H>() {
            Err(resource) => {
                hash_mutex.release_any(resource);
                let ghost middle = hash_mutex.guarded().log();
                self.finish(Err(ErrorCode::INVAL), hash_mutex);
                assert(middle + Seq::<Call>::empty() =~= middle);
            },
            Ok(guard) => {
                hash_mutex.resource(&guard).set_client(self.id);
                let result = hash_mutex.resource(&guard).hash(algorithm, self.input_len);
                self.hash = Some(guard);
                let ghost asked = Call::Hash { algorithm, len: self.input_len, result };
                let ghost calls = seq![Call::SetClient { client: self.id }, asked];
                assert(hash_mutex.guarded().log() =~= log + calls);
                assert((log + calls).take(log.len() as int) =~= log);
                assert((log + calls)[log.len() as int + 1] == asked);
                if result.is_err() {
                    self.finish(result, hash_mutex);
                    let ghost all = log + calls.push(Call::ClearData);
                    assert(hash_mutex.guarded().log() =~= all);
                    assert(all.take(log.len() as int) =~= log);
                    assert(all[log.len() as int + 1] == asked);
                }
            },
        }
    }

    /// Acts on the end of the digest, if it has come.
    pub fn resume(&mut self, hash_mutex: &mut DriverMutex<H>)
        requires
            old(hash_mutex)@.wf(),
            old(hash_mutex).guarded().valid(),
            old(self)@.linked(old(hash_mutex)@),
        ensures
            final(self).log() == old(self).log(),
            final(hash_mutex)@.wf(),
            final(hash_mutex).guarded().valid(),
            match old(self)@.completion {
                None => {
                    &&& final(self)@ == old(self)@
                    &&& final(hash_mutex)@ == old(hash_mutex)@
                    &&& final(hash_mutex).guarded() == old(hash_mutex).guarded()
                },
                Some(result) => {
                    &&& final(self)@ == (HashView { completion: None, ..old(self)@ }).finished(
                        result,
                    )
                    &&& final(hash_mutex)@ == mutex_after(old(hash_mutex)@, old(self)@.held)
                    &&& final(hash_mutex).guarded().log() == old(hash_mutex).guarded().log()
                        + ending(old(self)@.held)
                },
            },
    {
        if let Some(result) = self.completion {
            self.completion = None;
            self.finish(result, hash_mutex);
        }
    }

    /// Begins to feed a hash driver that takes its input by DMA: returns the first buffer for it.
    /// If there is none, the operation ends with the error.
    pub fn start_feeding(&mut self, hash_mutex: &mut DriverMutex<H>) -> (buffer: Option<SubSlice>)
        requires
            old(hash_mutex)@.wf(),
            old(hash_mutex).guarded().valid(),
            old(self)@.linked(old(hash_mutex)@),
        ensures
            final(self).log() == old(self).log(),
            final(hash_mutex)@.wf(),
            final(hash_mutex).guarded().valid(),
            fed(
                old(self)@,
                final(self)@,
                buffer,
                old(hash_mutex)@,
                final(hash_mutex)@,
                old(hash_mutex).guarded().log(),
                final(hash_mutex).guarded().log(),
            ),
    {
        let ghost log = hash_mutex.guarded().log();
        match self.handle_dma_buffer() {
            Ok(buffer) => Some(buffer),
            Err(error) => {
                self.finish(Err(error), hash_mutex);
                None
            },
        }
    }

    /// The hash driver has refused a buffer: the buffer is back, and the operation ends with the
    /// error.
    pub fn feed_refused(
        &mut self,
        error: ErrorCode,
        buffer: Vec<u8>,
        hash_mutex: &mut DriverMutex<H>,
    )
        requires
            old(hash_mutex)@.wf(),
            old(hash_mutex).guarded().valid(),
            old(self)@.linked(old(hash_mutex)@),
        ensures
            final(self).log() == old(self).log(),
            final(hash_mutex)@.wf(),
            final(hash_mutex).guarded().valid(),
            final(self)@ == (HashView { data_buffer: Some(buffer@), ..old(self)@ }).finished(
                Err(error),
            ),
            final(hash_mutex)@ == mutex_after(old(hash_mutex)@, old(self)@.held),
            final(hash_mutex).guarded().log() == old(hash_mutex).guarded().log() + ending(
                old(self)@.held,
            ),
    {
        self.data_buffer = Some(buffer);
        self.finish(Err(error), hash_mutex);
    }

    /// The hash driver is done with a buffer. Returns the next one while input is missing; an error
    /// ends the operation.
    pub fn dma_buffer_done(
        &mut self,
        result: Result<(), ErrorCode>,
        dma_buffer: Vec<u8>,
        hash_mutex: &mut DriverMutex<H>,
    ) -> (buffer: Option<SubSlice>)
        requires
            old(hash_mutex)@.wf(),
            old(hash_mutex).guarded().valid(),
            old(self)@.linked(old(hash_mutex)@),
        ensures
            final(self).log() == old(self).log(),
            final(hash_mutex)@.wf(),
            final(hash_mutex).guarded().valid(),
            ({
                let back = HashView { data_buffer: Some(dma_buffer@), ..old(self)@ };
                let log = old(hash_mutex).guarded().log();
                if result is Err {
                    &&& buffer is None
                    &&& final(self)@ == back.finished(result)
                    &&& final(hash_mutex)@ == mutex_after(old(hash_mutex)@, old(self)@.held)
                    &&& final(hash_mutex).guarded().log() == log + ending(old(self)@.held)
                } else if back.input_offset >= back.input_len {
                    &&& buffer is None
                    &&& final(self)@ == back
                    &&& final(hash_mutex)@ == old(hash_mutex)@
                    &&& final(hash_mutex).guarded() == old(hash_mutex).guarded()
                } else if back.held is None {
                    &&& buffer is None
                    &&& final(self)@ == back.finished(Err(ErrorCode::FAIL))
                    &&& final(hash_mutex)@ == old(hash_mutex)@
                    &&& final(hash_mutex).guarded().log() == log
                } else {
                    fed(
                        back,
                        final(self)@,
                        buffer,
                        old(hash_mutex)@,
                        final(hash_mutex)@,
                        log,
                        final(hash_mutex).guarded().log(),
                    )
                }
            }),
    {
        let ghost log = hash_mutex.guarded().log();
        assert(log + Seq::<Call>::empty() =~= log);
        self.data_buffer = Some(dma_buffer);
        if result.is_err() {
            self.finish(result, hash_mutex);
            return None;
        }
        if self.input_offset >= self.input_len {
            return None;
        }
        if self.hash.is_none() {
            self.finish(Err(ErrorCode::FAIL), hash_mutex);
            return None;
        }
        self.start_feeding(hash_mutex)
    }
}

/// The driver goes from `before` to `after` when it is given the guard of its mutex.
pub open spec fn readied(
    before: HashView,
    after: HashView,
    right_kind: bool,
    mutex: MutexView,
    later: MutexView,
    log: Seq<Call>,
    later_log: Seq<Call>,
) -> bool {
    match before.state {
        State::Waiting { processid, algorithm } => {
            let active = HashView { state: State::Active { processid }, ..before };
            let holding = HashView { held: Some(mutex.id), ..active };
            if !right_kind {
                &&& after == active.finished(Err(ErrorCode::INVAL))
                &&& later == mutex.released()
                &&& later_log == log
            } else {
                let asked = later_log[log.len() as int + 1];
                &&& later_log.len() >= log.len() + 2
                &&& later_log.take(log.len() as int) == log
                &&& later_log[log.len() as int] == (Call::SetClient { client: before.id })
                &&& match asked {
                    Call::Hash { algorithm: chosen, len, result } => {
                        &&& chosen == algorithm
                        &&& len == before.input_len
                        &&& if result is Err {
                            &&& after == holding.finished(result)
                            &&& later == mutex.released()
                            &&& later_log.len() == log.len() + 3
                            &&& later_log.last() is ClearData
                        } else {
                            &&& after == holding
                            &&& later == mutex
                            &&& later_log.len() == log.len() + 2
                        }
                    },
                    _ => false,
                }
            }
        },
        _ => after == before && later == mutex.released() && later_log == log,
    }
}

/// The driver goes from `before` to `after` when it is to feed the DMA.
pub open spec fn fed(
    before: HashView,
    after: HashView,
    buffer: Option<SubSlice>,
    mutex: MutexView,
    later: MutexView,
    log: Seq<Call>,
    later_log: Seq<Call>,
) -> bool {
    let (taken, result) = before.filled();
    match result {
        Ok((data, count)) => {
            &&& buffer matches Some(slice) && slice@.data == data && slice@.start == 0
                && slice@.end == count
            &&& after == taken
            &&& later == mutex
            &&& later_log == log
        },
        Err(error) => {
            &&& buffer is None
            &&& after == taken.finished(Err(error))
            &&& later == mutex_after(mutex, before.held)
            &&& later_log == log + ending(before.held)
        },
    }
}

impl<H> Client for Hash<H> {
    fn read_input(&mut self, input: &mut [u8]) -> (count: Result<usize, ErrorCode>)
        ensures
            grant::copied(
                old(self)@.next_input(old(input)@.len()),
                count,
                old(input)@,
                final(input)@,
                0,
            ),
            final(self)@ == (match count {
                Ok(count) => HashView {
                    input_offset: (old(self)@.input_offset + count) as usize,
                    ..old(self)@
                },
                Err(_) => old(self)@,
            }),
    {
        let len: usize = input.len();
        let offset: usize = self.input_offset;
        let count = match self.active_processid() {
            Ok(processid) => self.apps.read_at(processid, RO_INPUT, offset, input, 0, len),
            Err(error) => Err(error),
        };
        if let Ok(read) = count {
            self.input_offset = offset + read;
        }
        proof {
            self.log@ = self.log@.push(
                Call::Read {
                    port: Port::Input,
                    offered: old(input)@,
                    buffer: input@,
                    count,
                },
            );
        }
        count
    }

    fn write_output(&mut self, output: &[u8]) -> (result: Result<(), ErrorCode>)
        ensures
            final(self)@ == old(self)@.output(output@).0,
            grant::same_result(result, old(self)@.output(output@).1),
    {
        let offset: usize = self.output_offset;
        let result = match self.active_processid() {
            Ok(processid) => self.apps.write_at(processid, RW_OUTPUT, offset, output),
            Err(error) => Err(error),
        };
        if result.is_ok() {
            self.output_offset = offset + output.len();
        }
        proof {
            self.log@ = self.log@.push(
                Call::Write { port: Port::Output, data: output@, result },
            );
        }
        result
    }

    fn hash_done(&mut self, result: Result<(), ErrorCode>)
        ensures
            final(self)@ == (HashView { completion: Some(result), ..old(self)@ }),
    {
        self.completion = Some(result);
        proof {
            self.log@ = self.log@.push(Call::Done { result });
        }
    }
}

} // verus!
