//! Test the implementation of Hash driver by performing a hash
//! and checking it against the expected hash value.
use crate::capsules::hash;
use crate::capsules::test::failure;
use crate::capsules::test::failure::Failure;
use crate::driver_mutex;
use crate::driver_mutex::{
    DriverMutex, DriverMutexAny, DriverMutexHandle, DriverMutexRef, MutexView, Resource,
};
use crate::error::ErrorCode;
use crate::hil::digest::{Algorithm, Client, Digest};
use crate::hil::trace::{Call, Observed, Port};
use vstd::prelude::*;

verus! {

/// A test of a hash driver.
pub struct TestHash<H> {
    id: usize,
    hash_handle: Option<DriverMutexHandle>,
    hash: Option<DriverMutexRef<H>>,
    algorithm: Algorithm,
    input_buffer: Vec<u8>,
    output_buffer: Vec<u8>,
    input_len: usize,
    input_offset: usize,
    output_offset: usize,
    client: Option<usize>,
    failure: Option<Failure>,
    completion: Option<Result<(), ErrorCode>>,
    log: Ghost<Seq<Call>>,
}

/// What the test is.
#[verifier::ext_equal]
pub struct TestHashView {
    /// The number by which the mutex and the driver know the test.
    pub id: usize,
    pub handle: Option<DriverMutexHandle>,
    /// The mutex whose guard is held.
    pub held: Option<usize>,
    pub algorithm: Algorithm,
    pub input: Seq<u8>,
    /// The expected digest.
    pub output: Seq<u8>,
    /// How many bytes are hashed.
    pub input_len: usize,
    pub input_offset: nat,
    pub output_offset: nat,
    /// Who is told of the end of the test.
    pub client: Option<usize>,
    /// What has stopped the test.
    pub failure: Option<Failure>,
    /// How the driver says the operation ended, until the test has acted on it.
    pub completion: Option<Result<(), ErrorCode>>,
}

impl<H> View for TestHash<H> {
    type V = TestHashView;

    closed spec fn view(&self) -> TestHashView {
        TestHashView {
            id: self.id,
            handle: self.hash_handle,
            held: match self.hash {
                Some(guard) => Some(guard.owner()),
                None => None,
            },
            algorithm: self.algorithm,
            input: self.input_buffer@,
            output: self.output_buffer@,
            input_len: self.input_len,
            input_offset: self.input_offset as nat,
            output_offset: self.output_offset as nat,
            client: self.client,
            failure: self.failure,
            completion: self.completion,
        }
    }
}

impl TestHashView {
    /// A guard that is held is one that `mutex` has given out.
    pub open spec fn linked(self, mutex: MutexView) -> bool {
        self.held matches Some(owner) ==> owner == mutex.id && mutex.guards() > 0
    }

    /// The test, stopped.
    pub open spec fn stopped(self, failure: Failure) -> TestHashView {
        TestHashView { failure: Some(failure), ..self }
    }

    /// What the driver gets when it asks for `len` bytes of input.
    pub open spec fn next_input(self, len: nat) -> Option<Seq<u8>> {
        if self.failure is Some {
            None
        } else {
            failure::next_piece(self.input, self.input_offset, len)
        }
    }

    /// The test after the driver asked for `len` bytes of input.
    pub open spec fn input_taken(self, len: nat) -> TestHashView {
        match self.next_input(len) {
            Some(data) => TestHashView { input_offset: self.input_offset + data.len(), ..self },
            None => if self.failure is Some {
                self
            } else {
                self.stopped(
                    Failure::NothingToRead {
                        offset: self.input_offset as usize,
                        size: self.input.len() as usize,
                    },
                )
            },
        }
    }

    /// The test after a piece of the digest came: it must be the expected one.
    pub open spec fn output_checked(self, data: Seq<u8>) -> (TestHashView, Result<(), ErrorCode>) {
        let end = self.output_offset + data.len();
        if self.failure is Some {
            (self, Err(ErrorCode::FAIL))
        } else if end > usize::MAX {
            (self, Err(ErrorCode::SIZE))
        } else if end > self.output.len() {
            (
                self.stopped(
                    Failure::TooMuchOutput {
                        offset: self.output_offset as usize,
                        size: self.output.len() as usize,
                    },
                ),
                Err(ErrorCode::FAIL),
            )
        } else {
            match failure::first_mismatch(self.output, self.output_offset, data) {
                Some(index) => (
                    self.stopped(
                        Failure::Mismatch {
                            expected: self.output[(self.output_offset + index) as int],
                            index: (self.output_offset + index) as usize,
                        },
                    ),
                    Err(ErrorCode::FAIL),
                ),
                None => (TestHashView { output_offset: end, ..self }, Ok(())),
            }
        }
    }

    /// The test and what [`TestHash::run`] comes back with.
    pub open spec fn begun(self, mutex: MutexView) -> (TestHashView, Result<(), ErrorCode>) {
        if self.handle is None {
            (self, Err(ErrorCode::OFF))
        } else if self.failure is Some {
            (self, Err(ErrorCode::FAIL))
        } else if self.output.len() != self.algorithm.digest_len() {
            (
                TestHashView {
                    input_len: self.input.len() as usize,
                    ..self.stopped(
                        Failure::WrongLength {
                            wanted: self.algorithm.digest_len() as usize,
                            got: self.output.len() as usize,
                        },
                    )
                },
                Err(ErrorCode::FAIL),
            )
        } else {
            let ready = TestHashView {
                input_len: self.input.len() as usize,
                input_offset: 0,
                output_offset: 0,
                ..self
            };
            match mutex.request_result(self.handle->0) {
                Ok(_) => (ready, Ok(())),
                Err(error) => (ready.stopped(Failure::Request(error)), Err(ErrorCode::FAIL)),
            }
        }
    }

    /// The test after the driver said that the operation ended.
    pub open spec fn finished(self, result: Result<(), ErrorCode>) -> TestHashView {
        let free = TestHashView { held: None, completion: None, ..self };
        match result {
            Ok(_) => free,
            Err(error) => if self.failure is Some {
                free
            } else {
                free.stopped(Failure::Driver(error))
            },
        }
    }
}

impl<H> Observed for TestHash<H> {
    closed spec fn log(&self) -> Seq<Call> {
        self.log@
    }

    /// What was read and what came back stays within the buffers.
    closed spec fn valid(&self) -> bool {
        &&& self@.input_offset <= self@.input.len()
        &&& self@.output_offset <= self@.output.len()
    }
}

impl<H> TestHash<H> {
    /// A test numbered `id`, which is not registered with the mutex yet.
    pub fn new(
        id: usize,
        algorithm: Algorithm,
        input_buffer: Vec<u8>,
        output_buffer: Vec<u8>,
    ) -> (test: Self)
        ensures
            test.valid(),
            test.log() == Seq::<Call>::empty(),
            test@ == (TestHashView {
                id,
                handle: None,
                held: None,
                algorithm,
                input: input_buffer@,
                output: output_buffer@,
                input_len: 0,
                input_offset: 0,
                output_offset: 0,
                client: None,
                failure: None,
                completion: None,
            }),
    {
        TestHash {
            id,
            hash_handle: None,
            hash: None,
            algorithm,
            input_buffer,
            output_buffer,
            input_len: 0,
            input_offset: 0,
            output_offset: 0,
            client: None,
            failure: None,
            completion: None,
            log: Ghost(Seq::empty()),
        }
    }

    /// What has stopped the test, if something has.
    pub fn failure(&self) -> (failure: Option<Failure>)
        ensures
            failure == self@.failure,
    {
        self.failure
    }

    /// Set the client that is told of the end of the test.
    pub fn set_client(&mut self, client: usize)
        requires
            old(self).valid(),
        ensures
            final(self).valid(),
            final(self).log() == old(self).log(),
            final(self)@ == (TestHashView { client: Some(client), ..old(self)@ }),
    {
        self.client = Some(client);
    }

    /// Register the test as a client of the mutex.
    pub fn register(&mut self, hash_mutex: &mut DriverMutex<H>) -> (result: Result<(), ErrorCode>)
        requires
            old(self).valid(),
            old(hash_mutex)@.wf(),
        ensures
            final(self).valid(),
            final(self).log() == old(self).log(),
            final(hash_mutex)@.wf(),
            final(hash_mutex).guarded() == old(hash_mutex).guarded(),
            final(self)@ == (TestHashView { handle: final(self)@.handle, ..old(self)@ }),
            driver_mutex::joined(
                old(self)@.handle,
                final(self)@.handle,
                old(hash_mutex)@,
                final(hash_mutex)@,
                old(self)@.id,
                result,
            ),
    {
        if self.hash_handle.is_some() {
            return Err(ErrorCode::ALREADY);
        }
        match hash_mutex.add_client(self.id) {
            Some(handle) => {
                self.hash_handle = Some(handle);
                Ok(())
            },
            None => Err(ErrorCode::NOMEM),
        }
    }

    /// Starts the test: requests the driver. `OFF` if the test is not registered; `FAIL` if it is
    /// stopped.
    pub fn run(&mut self, hash_mutex: &mut DriverMutex<H>) -> (result: Result<(), ErrorCode>)
        requires
            old(self).valid(),
            old(hash_mutex)@.wf(),
            old(self)@.handle matches Some(handle) ==> old(hash_mutex)@.admits(handle),
        ensures
            final(self).valid(),
            final(self).log() == old(self).log(),
            final(hash_mutex)@.wf(),
            final(hash_mutex).guarded() == old(hash_mutex).guarded(),
            final(self)@ == old(self)@.begun(old(hash_mutex)@).0,
            result is Ok <==> old(self)@.begun(old(hash_mutex)@).1 is Ok,
            result is Err ==> result->Err_0 == old(self)@.begun(old(hash_mutex)@).1->Err_0,
            final(hash_mutex)@ == (if result is Ok {
                old(hash_mutex)@.requested(old(self)@.handle->0)
            } else {
                old(hash_mutex)@
            }),
    {
        let handle = match self.hash_handle {
            Some(handle) => handle,
            None => {
                return Err(ErrorCode::OFF);
            },
        };
        if self.failure.is_some() {
            return Err(ErrorCode::FAIL);
        }
        self.input_len = self.input_buffer.len();
        let wanted: usize = self.algorithm.get_digest_len();
        let got: usize = self.output_buffer.len();
        if got != wanted {
            self.failure = Some(Failure::WrongLength { wanted, got });
            return Err(ErrorCode::FAIL);
        }
        self.input_offset = 0;
        self.output_offset = 0;
        match hash_mutex.request(handle) {
            Ok(()) => Ok(()),
            Err(error) => {
                self.failure = Some(Failure::Request(error));
                Err(ErrorCode::FAIL)
            },
        }
    }
}

impl<H: Digest + Resource> TestHash<H> {
    /// Takes the guard of the driver, makes the test its client and has it hash the input.
    pub fn ready(&mut self, resource: DriverMutexAny, hash_mutex: &mut DriverMutex<H>)
        requires
            old(self).valid(),
            old(hash_mutex)@.wf(),
            old(hash_mutex).guarded().valid(),
            resource.owner() == old(hash_mutex)@.id,
            old(hash_mutex)@.guards() > 0,
            old(self)@.held is None,
        ensures
            final(self).valid(),
            final(self).log() == old(self).log(),
            final(hash_mutex)@.wf(),
            final(hash_mutex).guarded().valid(),
            readied(
                old(self)@,
                final(self)@,
                resource.kind() == H::kind(),
                old(hash_mutex)@,
                final(hash_mutex)@,
                old(hash_mutex).guarded().log(),
                final(hash_mutex).guarded().log(),
            ),
    {
        let ghost log = hash_mutex.guarded().log();
        match resource.downcast::<H>() {
            Err(resource) => {
                hash_mutex.release_any(resource);
                self.failure = Some(Failure::NotStarted(ErrorCode::INVAL));
            },
            Ok(guard) => {
                hash_mutex.resource(&guard).set_client(self.id);
                let result = hash_mutex.resource(&guard).hash(self.algorithm, self.input_len);
                self.hash = Some(guard);
                proof {
                    let asked = Call::Hash {
                        algorithm: self.algorithm,
                        len: self.input_len,
                        result,
                    };
                    let calls = seq![Call::SetClient { client: self.id }, asked];
                    assert(hash_mutex.guarded().log() =~= log + calls);
                    assert((log + calls).take(log.len() as int) =~= log);
                    assert((log + calls)[log.len() as int + 1] == asked);
                }
                if let Err(error) = result {
                    self.failure = Some(Failure::NotStarted(error));
                }
            },
        }
    }

    /// Acts on the end of the operation, if it has come: the driver clears its data and is given
    /// back. Returns the client that is to be told of the success.
    pub fn resume(&mut self, hash_mutex: &mut DriverMutex<H>) -> (told: Option<usize>)
        requires
            old(self).valid(),
            old(hash_mutex)@.wf(),
            old(hash_mutex).guarded().valid(),
            old(self)@.linked(old(hash_mutex)@),
        ensures
            final(self).valid(),
            final(self).log() == old(self).log(),
            final(hash_mutex)@.wf(),
            final(hash_mutex).guarded().valid(),
            match old(self)@.completion {
                None => {
                    &&& told is None
                    &&& final(self)@ == old(self)@
                    &&& final(hash_mutex)@ == old(hash_mutex)@
                    &&& final(hash_mutex).guarded() == old(hash_mutex).guarded()
                },
                Some(result) => {
                    &&& told == (if result is Ok && old(self)@.failure is None {
                        old(self)@.client
                    } else {
                        None
                    })
                    &&& final(self)@ == old(self)@.finished(result)
                    &&& final(hash_mutex)@ == hash::mutex_after(old(hash_mutex)@, old(self)@.held)
                    &&& final(hash_mutex).guarded().log() == old(hash_mutex).guarded().log()
                        + hash::ending(old(self)@.held)
                },
            },
    {
        let result = match self.completion {
            Some(result) => result,
            None => {
                return None;
            },
        };
        let ghost log = hash_mutex.guarded().log();
        assert(log + Seq::<Call>::empty() =~= log);
        self.completion = None;
        if let Some(guard) = self.hash.take() {
            hash_mutex.resource(&guard).clear_data();
            assert(hash_mutex.guarded().log() =~= log + seq![Call::ClearData]);
            hash_mutex.release(guard);
        }
        if self.failure.is_some() {
            return None;
        }
        match result {
            Err(error) => {
                self.failure = Some(Failure::Driver(error));
                None
            },
            Ok(()) => self.client,
        }
    }
}

/// The test goes from `before` to `after` when it is given the guard of its mutex.
pub open spec fn readied(
    before: TestHashView,
    after: TestHashView,
    right_kind: bool,
    mutex: MutexView,
    later: MutexView,
    log: Seq<Call>,
    later_log: Seq<Call>,
) -> bool {
    if !right_kind {
        &&& after == before.stopped(Failure::NotStarted(ErrorCode::INVAL))
        &&& later == mutex.released()
        &&& later_log == log
    } else {
        let holding = TestHashView { held: Some(mutex.id), ..before };
        &&& later == mutex
        &&& later_log.len() == log.len() + 2
        &&& later_log.take(log.len() as int) == log
        &&& later_log[log.len() as int] == (Call::SetClient { client: before.id })
        &&& match later_log[log.len() as int + 1] {
            Call::Hash { algorithm, len, result } => {
                &&& algorithm == before.algorithm
                &&& len == before.input_len
                &&& after == (match result {
                    Ok(_) => holding,
                    Err(error) => holding.stopped(Failure::NotStarted(error)),
                })
            },
            _ => false,
        }
    }
}

impl<H> Client for TestHash<H> {
    fn read_input(&mut self, input: &mut [u8]) -> (count: Result<usize, ErrorCode>)
        ensures
            final(self)@ == old(self)@.input_taken(old(input)@.len()),
            match old(self)@.next_input(old(input)@.len()) {
                Some(data) => count is Ok && count->Ok_0 == data.len() && final(input)@ == data
                    + old(input)@.skip(data.len() as int),
                None => count == Err::<usize, ErrorCode>(ErrorCode::FAIL) && final(input)@ == old(
                    input,
                )@,
            },
    {
        let count = if self.failure.is_some() {
            Err(ErrorCode::FAIL)
        } else {
            let offset: usize = self.input_offset;
            match failure::copy_piece(self.input_buffer.as_slice(), offset, input) {
                Some(read_len) => {
                    self.input_offset = offset + read_len;
                    Ok(read_len)
                },
                None => {
                    self.failure = Some(
                        Failure::NothingToRead { offset, size: self.input_buffer.len() },
                    );
                    Err(ErrorCode::FAIL)
                },
            }
        };
        proof {
            self.log@ = self.log@.push(
                Call::Read {
                    port: Port::Input,
                    offered: old(input)@,
                    buffer: input@,
                    count,
                },
            );
        }
        count
    }

    fn write_output(&mut self, output: &[u8]) -> (result: Result<(), ErrorCode>)
        ensures
            final(self)@ == old(self)@.output_checked(output@).0,
            result is Ok <==> old(self)@.output_checked(output@).1 is Ok,
            result is Err ==> result->Err_0 == old(self)@.output_checked(output@).1->Err_0,
    {
        let result = self.check_output(output);
        proof {
            self.log@ = self.log@.push(
                Call::Write { port: Port::Output, data: output@, result },
            );
        }
        result
    }

    fn hash_done(&mut self, result: Result<(), ErrorCode>)
        ensures
            final(self)@ == (TestHashView { completion: Some(result), ..old(self)@ }),
    {
        self.completion = Some(result);
        proof {
            self.log@ = self.log@.push(Call::Done { result });
        }
    }
}

impl<H> TestHash<H> {
    fn check_output(&mut self, output: &[u8]) -> (result: Result<(), ErrorCode>)
        requires
            old(self).valid(),
        ensures
            final(self).valid(),
            final(self).log() == old(self).log(),
            final(self)@ == old(self)@.output_checked(output@).0,
            result is Ok <==> old(self)@.output_checked(output@).1 is Ok,
            result is Err ==> result->Err_0 == old(self)@.output_checked(output@).1->Err_0,
    {
        if self.failure.is_some() {
            return Err(ErrorCode::FAIL);
        }
        let offset: usize = self.output_offset;
        let size: usize = self.output_buffer.len();
        let end: usize = match offset.checked_add(output.len()) {
            Some(end) => end,
            None => {
                return Err(ErrorCode::SIZE);
            },
        };
        if end > size {
            self.failure = Some(Failure::TooMuchOutput { offset, size });
            return Err(ErrorCode::FAIL);
        }
        proof {
            failure::lemma_first_mismatch(self.output_buffer@, offset as nat, output@);
        }
        match failure::find_mismatch(self.output_buffer.as_slice(), offset, output) {
            Some(i) => {
                let index: usize = offset + i;
                self.failure = Some(
                    Failure::Mismatch { expected: self.output_buffer[index], index },
                );
                Err(ErrorCode::FAIL)
            },
            None => {
                self.output_offset = end;
                Ok(())
            },
        }
    }
}

/// Output that does not stop the test is the next piece of the expected digest: by and by, the whole
/// of it.
pub proof fn law_digest_is_the_expected_one(test: TestHashView, data: Seq<u8>)
    requires
        test.failure is None,
        test.output_checked(data).1 is Ok,
    ensures
        test.output.take(test.output_offset as int) + data == test.output.take(
            test.output_checked(data).0.output_offset as int,
        ),
        test.output_checked(data).0.failure is None,
        test.output_checked(data).0.output == test.output,
{
    failure::lemma_first_mismatch(test.output, test.output_offset, data);
    assert(test.output.take(test.output_offset as int) + data =~= test.output.take(
        (test.output_offset + data.len()) as int,
    ));
}

/// Output that differs from the expected digest stops the test, and so no client is told.
pub proof fn law_wrong_digest_stops_the_test(test: TestHashView, data: Seq<u8>)
    requires
        test.failure is None,
        test.output_offset + data.len() <= test.output.len() <= usize::MAX,
        data != test.output.subrange(
            test.output_offset as int,
            (test.output_offset + data.len()) as int,
        ),
    ensures
        test.output_checked(data).0.failure is Some,
        test.output_checked(data).0.failure->0 is Mismatch,
        test.output_checked(data).1 is Err,
{
    failure::lemma_first_mismatch(test.output, test.output_offset, data);
}

} // verus!
