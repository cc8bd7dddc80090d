//! AES-128 Electronic Codebook (ECB) peripheral.
//!
//! The driver works on an image of the registers. Whoever runs it copies events and output in before
//! an interrupt is handled, and starts the transfer that the driver holds after each call.
use crate::driver_mutex::{Kind, Resource};
use crate::error::ErrorCode;
use crate::grant;
use crate::hil::cipher::{self, Aes128, EcbClient, Operation};
use crate::hil::trace;
use crate::hil::trace::{Call, Observed, Port};
use crate::sw::bytes;
use vstd::prelude::*;

verus! {

/// Where the key stands in the buffer.
pub const KEY_START: usize = 0;

/// Where the input stands in the buffer.
pub const INPUT_START: usize = 16;

/// Where the output stands in the buffer.
pub const OUTPUT_START: usize = 32;

/// Length of a block.
pub const BLOCK_SIZE: usize = 16;

/// Length of the buffer.
pub const DATA_SIZE: usize = 48;

/// The image of the registers: the events, which interrupts are on, and the buffer that the
/// peripheral works on.
pub struct AesEcbRegistersManager {
    event_error: bool,
    event_end: bool,
    interrupts: bool,
    dma: Option<[u8; 48]>,
}

impl AesEcbRegistersManager {
    /// Registers of an idle peripheral.
    pub fn new() -> (registers: Self)
        ensures
            !registers.event_error(),
            !registers.event_end(),
            !registers.interrupts(),
            registers.dma() is None,
    {
        AesEcbRegistersManager {
            event_error: false,
            event_end: false,
            interrupts: false,
            dma: None,
        }
    }

    pub closed spec fn event_error(self) -> bool {
        self.event_error
    }

    pub closed spec fn event_end(self) -> bool {
        self.event_end
    }

    pub closed spec fn interrupts(self) -> bool {
        self.interrupts
    }

    pub closed spec fn dma(self) -> Option<[u8; 48]> {
        self.dma
    }

    /// Hands the buffer to the peripheral and starts it. The buffer comes back if the peripheral has
    /// one already.
    pub fn start_ecb_dma(&mut self, data: [u8; 48]) -> (result: Result<(), [u8; 48]>)
        ensures
            result is Ok <==> old(self).dma() is None,
            result matches Err(back) ==> back == data && *final(self) == *old(self),
            result is Ok ==> {
                &&& final(self).dma() == Some(data)
                &&& !final(self).event_end()
                &&& final(self).event_error() == old(self).event_error()
                &&& final(self).interrupts() == old(self).interrupts()
            },
    {
        if self.dma.is_some() {
            return Err(data);
        }
        self.event_end = false;
        self.dma = Some(data);
        Ok(())
    }

    /// Takes the buffer back from the peripheral.
    pub fn finish_ecb_dma(&mut self) -> (data: Option<[u8; 48]>)
        ensures
            data == old(self).dma(),
            final(self).dma() is None,
            final(self).event_end() == old(self).event_end(),
            final(self).event_error() == old(self).event_error(),
            final(self).interrupts() == old(self).interrupts(),
    {
        self.dma.take()
    }
}

/// nRF5x AES-128 ECB peripheral.
///
/// The hardware supports encryption only. Decryption requests return `NOSUPPORT`.
pub struct Ecb {
    registers: AesEcbRegistersManager,
    data: Option<[u8; 48]>,
    client: Option<usize>,
    active: bool,
    len: usize,
    offset: usize,
    deferred_call: bool,
    log: Ghost<Seq<Call>>,
}

/// What the driver is.
#[verifier::ext_equal]
pub struct EcbView {
    /// The peripheral has met an error.
    pub event_error: bool,
    /// The peripheral has finished a block.
    pub event_end: bool,
    /// The interrupts of the two events are on.
    pub interrupts: bool,
    /// The buffer, while the peripheral works on it.
    pub dma: Option<Seq<u8>>,
    /// The buffer, while it is at hand.
    pub data: Option<Seq<u8>>,
    pub client: Option<usize>,
    pub active: bool,
    pub len: nat,
    pub offset: nat,
    pub deferred_call: bool,
}

/// The contents of a buffer, if there is one.
pub open spec fn contents(data: Option<[u8; 48]>) -> Option<Seq<u8>> {
    match data {
        Some(data) => Some(data@),
        None => None,
    }
}

impl View for Ecb {
    type V = EcbView;

    closed spec fn view(&self) -> EcbView {
        EcbView {
            event_error: self.registers.event_error(),
            event_end: self.registers.event_end(),
            interrupts: self.registers.interrupts(),
            dma: contents(self.registers.dma()),
            data: contents(self.data),
            client: self.client,
            active: self.active,
            len: self.len as nat,
            offset: self.offset as nat,
            deferred_call: self.deferred_call,
        }
    }
}

impl EcbView {
    /// The buffers have their length, and the numbers fit.
    pub open spec fn wf(self) -> bool {
        &&& self.data matches Some(data) ==> data.len() == DATA_SIZE
        &&& self.dma matches Some(data) ==> data.len() == DATA_SIZE
        &&& self.len <= usize::MAX
        &&& self.offset <= usize::MAX
    }

    /// Blocks are dealt with one after the other: what is done is whole blocks of the message, the
    /// peripheral has the buffer or it is at hand, and a message that is under way waits for the
    /// peripheral or for a deferred call.
    pub open spec fn on_track(self) -> bool {
        &&& self.dma is Some <==> self.data is None
        &&& self.dma is Some ==> self.active && self.offset < self.len && !self.deferred_call
        &&& self.active ==> {
            &&& self.len % 16 == 0
            &&& self.offset % 16 == 0
            &&& self.offset <= self.len
            &&& self.client is Some
            &&& self.dma is Some || self.deferred_call
        }
    }

    /// What a request comes back with.
    pub open spec fn crypt_result(self, len: nat, operation: Operation) -> Result<(), ErrorCode> {
        if self.active {
            Err(ErrorCode::BUSY)
        } else if operation is Decrypt {
            Err(ErrorCode::NOSUPPORT)
        } else if len % 16 != 0 {
            Err(ErrorCode::INVAL)
        } else if self.client is None {
            Err(ErrorCode::OFF)
        } else {
            Ok(())
        }
    }

    /// The driver with a message begun.
    pub open spec fn begun(self, len: nat) -> EcbView {
        EcbView { len, offset: 0, active: true, deferred_call: true, ..self }
    }

    /// The driver with its operation ended.
    pub open spec fn finished(self) -> EcbView {
        EcbView { active: false, ..self }
    }

    /// The driver with its operation given up.
    pub open spec fn aborted(self) -> EcbView {
        EcbView { interrupts: false, active: false, ..self }
    }

    /// The calls that tell the client, if there is one, how an operation has ended.
    pub open spec fn report(self, result: Result<(), ErrorCode>) -> Seq<Call> {
        if self.client is Some {
            seq![Call::Done { result }]
        } else {
            Seq::empty()
        }
    }

    /// What the calls of a block fetch: the buffer with key and input, or why there is none. `None`
    /// if a block makes no such calls.
    pub open spec fn fetched(self, calls: Seq<Call>) -> Option<Result<Seq<u8>, ErrorCode>> {
        if self.client is None {
            if calls.len() == 0 {
                Some(Err(ErrorCode::OFF))
            } else {
                None
            }
        } else {
            match self.data {
                None => if calls.len() == 0 {
                    Some(Err(ErrorCode::FAIL))
                } else {
                    None
                },
                Some(data) => if self.offset == 0 {
                    match calls[0] {
                        Call::Fill { port: Port::Key, buffer, result, .. } => if calls.len() > 0
                            && buffer.len() == 16 {
                            match result {
                                Err(error) => if calls.len() == 1 {
                                    Some(Err(error))
                                } else {
                                    None
                                },
                                Ok(_) => with_input(buffer, data, calls.skip(1)),
                            }
                        } else {
                            None
                        },
                        _ => None,
                    }
                } else {
                    with_input(data.take(16), data, calls)
                },
            }
        }
    }
}

/// The buffer with a key and the input that the calls fetch.
pub open spec fn with_input(key: Seq<u8>, data: Seq<u8>, calls: Seq<Call>) -> Option<
    Result<Seq<u8>, ErrorCode>,
> {
    match trace::gather_outcome(calls, Port::Input, 16) {
        Some(Ok(input)) => Some(Ok(key + input + data.skip(32))),
        Some(Err(error)) => Some(Err(error)),
        None => None,
    }
}

/// A buffer after the calls of a block that could not be fetched: the key, where it was asked for,
/// and what has come of the input stay in it.
pub open spec fn left_behind(driver: EcbView, calls: Seq<Call>) -> Option<Seq<u8>> {
    match driver.data {
        None => None,
        Some(data) => Some(
            if calls.len() == 0 {
                data
            } else if driver.offset == 0 {
                trace::read_into(
                    grant::overwritten(data, 0, calls[0]->Fill_buffer),
                    calls.skip(1),
                    32,
                )
            } else {
                trace::read_into(data, calls, 32)
            },
        ),
    }
}

/// A deferred call takes the driver from `before` to `after` with `calls` to the client: it ends the
/// message once all of it is done, else it fetches the next block, the key first with the first
/// one, and starts the peripheral; where it cannot, it gives up and says why.
pub open spec fn block_started(before: EcbView, calls: Seq<Call>, after: EcbView) -> bool {
    let called = EcbView { deferred_call: false, ..before };
    if !before.active {
        calls.len() == 0 && after == called
    } else if before.offset == before.len {
        after == called.finished() && calls == before.report(Ok(()))
    } else {
        let fetch = trace::before_report(calls);
        match before.fetched(fetch) {
            Some(Ok(data)) => if before.dma is None {
                &&& calls == fetch
                &&& after == EcbView {
                    event_error: false,
                    event_end: false,
                    interrupts: true,
                    dma: Some(data),
                    data: None,
                    ..called
                }
            } else {
                &&& calls == fetch + before.report(Err(ErrorCode::BUSY))
                &&& after == EcbView {
                    event_error: false,
                    data: Some(data),
                    ..called
                }.aborted()
            },
            Some(Err(error)) => {
                &&& calls == fetch + before.report(Err(error))
                &&& after == EcbView { data: left_behind(before, fetch), ..called }.aborted()
            },
            None => false,
        }
    }
}

/// The driver with the buffer taken back from the peripheral.
pub open spec fn recovered(before: EcbView) -> EcbView {
    EcbView {
        interrupts: false,
        dma: None,
        data: if before.dma is Some {
            before.dma
        } else {
            before.data
        },
        ..before
    }
}

/// An interrupt takes the driver from `before` to `after` with `calls` to the client: the output of
/// a finished block goes to the client and the next block follows; on an error it gives up.
pub open spec fn interrupted(before: EcbView, calls: Seq<Call>, after: EcbView) -> bool {
    let back = recovered(before);
    if before.event_error {
        after == back.aborted() && calls == before.report(Err(ErrorCode::FAIL))
    } else if before.event_end {
        if back.data is None {
            after == back.aborted() && calls == before.report(Err(ErrorCode::FAIL))
        } else if before.client is None {
            after == back.aborted() && calls == before.report(Err(ErrorCode::OFF))
        } else {
            &&& calls.len() > 0
            &&& match calls[0] {
                Call::Write { port, data, result } => {
                    &&& port is Output
                    &&& data == back.data->0.skip(32)
                    &&& match result {
                        Err(error) => {
                            &&& calls == seq![calls[0]] + before.report(Err(error))
                            &&& after == back.aborted()
                        },
                        Ok(_) => {
                            &&& calls.len() == 1
                            &&& after == EcbView {
                                offset: back.offset + 16,
                                deferred_call: true,
                                ..back
                            }
                        },
                    }
                },
                _ => false,
            }
        }
    } else {
        after == EcbView { interrupts: false, ..before } && calls.len() == 0
    }
}

impl Observed for Ecb {
    closed spec fn log(&self) -> Seq<Call> {
        self.log@
    }

    open spec fn valid(&self) -> bool {
        self@.wf()
    }
}

impl Resource for Ecb {
    open spec fn kind() -> Kind {
        Kind { number: 3, over: 0 }
    }

    fn resource_kind() -> (kind: Kind) {
        Kind { number: 3, over: 0 }
    }
}

impl Ecb {
    /// A driver without a client, with a buffer for key, input and output.
    pub fn new(registers: AesEcbRegistersManager, data: [u8; 48]) -> (ecb: Self)
        ensures
            ecb.valid(),
            ecb.log() == Seq::<Call>::empty(),
            ecb@ == (EcbView {
                event_error: registers.event_error(),
                event_end: registers.event_end(),
                interrupts: registers.interrupts(),
                dma: contents(registers.dma()),
                data: Some(data@),
                client: None,
                active: false,
                len: 0,
                offset: 0,
                deferred_call: false,
            }),
    {
        Ecb {
            registers,
            data: Some(data),
            client: None,
            active: false,
            len: 0,
            offset: 0,
            deferred_call: false,
            log: Ghost(Seq::empty()),
        }
    }

    /// What the peripheral is to work on.
    pub fn transfer(&self) -> (dma: Option<[u8; 48]>)
        ensures
            contents(dma) == self@.dma,
    {
        self.registers.dma
    }

    /// Whether a deferred call is wanted.
    pub fn deferred_call_is_set(&self) -> (set: bool)
        ensures
            set == self@.deferred_call,
    {
        self.deferred_call
    }

    /// Takes over what the peripheral shows: its events, and the output that it has written.
    pub fn observe(&mut self, event_error: bool, event_end: bool, output: [u8; 16])
        requires
            old(self).valid(),
        ensures
            final(self).valid(),
            final(self).log() == old(self).log(),
            final(self)@ == (EcbView {
                event_error,
                event_end,
                dma: match old(self)@.dma {
                    Some(data) => Some(data.take(32) + output@),
                    None => None,
                },
                ..old(self)@
            }),
    {
        self.registers.event_error = event_error;
        self.registers.event_end = event_end;
        if let Some(data) = self.registers.dma {
            let ghost given = data@;
            let mut data = data;
            bytes::copy_into(&mut data, OUTPUT_START, &output);
            assert(data@ =~= given.take(32) + output@);
            self.registers.dma = Some(data);
        }
    }

    /// Fetches the key, with the first block, and the input of a block.
    fn fetch_block<K: EcbClient<Aes128>>(&mut self, client: &mut K) -> (result: Result<
        (),
        ErrorCode,
    >)
        requires
            old(self)@.wf(),
            old(client).valid(),
        ensures
            final(self)@.wf(),
            final(self).log() == old(self).log(),
            final(client).valid(),
            trace::extends(final(client).log(), old(client).log()),
            final(self)@ == (EcbView { data: final(self)@.data, ..old(self)@ }),
            final(self)@.data is Some <==> old(self)@.data is Some,
            old(self)@.fetched(trace::since(final(client).log(), old(client).log())) == Some(
                match result {
                    Ok(_) => Ok(final(self)@.data->0),
                    Err(error) => Err(error),
                },
            ),
            result is Ok ==> old(self)@.data is Some,
            result is Err ==> final(self)@.data == left_behind(
                old(self)@,
                trace::since(final(client).log(), old(client).log()),
            ),
            forall|i: int|
                #![trigger trace::since(final(client).log(), old(client).log())[i]]
                0 <= i < trace::since(final(client).log(), old(client).log()).len() ==> trace::since(
                    final(client).log(),
                    old(client).log(),
                )[i] !is Done,
    {
        let ghost log = client.log();
        let ghost mut calls: Seq<Call> = Seq::empty();
        let ghost before = self@;
        assert(log + calls =~= log);
        proof {
            trace::lemma_since_append(log, calls);
        }
        if self.client.is_none() {
            return Err(ErrorCode::OFF);
        }
        let mut data = match self.data {
            Some(data) => data,
            None => {
                return Err(ErrorCode::FAIL);
            },
        };
        let ghost given = data@;
        if self.offset == 0 {
            let space: &mut [u8] = &mut data;
            let (key, _rest) = space.split_at_mut(INPUT_START);
            let result = client.read_key(key);
            let ghost key_bytes = key@;
            let ghost fill = client.log().last();
            assert(data@ =~= key_bytes + given.skip(16));
            proof {
                calls = seq![fill];
                assert(client.log() =~= log + calls);
                trace::lemma_since_append(log, calls);
                assert(calls.skip(1) =~= Seq::<Call>::empty());
                assert(data@ =~= grant::overwritten(given, 0, key_bytes));
            }
            if let Err(error) = result {
                self.data = Some(data);
                return Err(error);
            }
        }
        let ghost keyed = data@;
        let ghost key_calls = calls;
        let ghost mut reads: Seq<Call> = Seq::empty();
        let mut bytes_read: usize = 0;
        assert(keyed.subrange(16, 16) =~= Seq::<u8>::empty());
        assert(key_calls + reads =~= key_calls);
        while bytes_read < BLOCK_SIZE
            invariant
                bytes_read <= 16,
                log == old(client).log(),
                self.log() == old(self).log(),
                self@ == before,
                before == old(self)@,
                before.wf(),
                before.client is Some,
                before.data == Some(given),
                client.valid(),
                client.log() == log + (key_calls + reads),
                data@.len() == 48,
                data@.take(16) == keyed.take(16),
                data@.skip(32) == keyed.skip(32),
                keyed.len() == 48,
                keyed.skip(32) == given.skip(32),
                before.offset != 0 ==> key_calls.len() == 0 && keyed == given,
                data@ == trace::read_into(keyed, reads, 32),
                before.offset == 0 ==> {
                    &&& key_calls.len() == 1
                    &&& keyed == grant::overwritten(given, 0, key_calls[0]->Fill_buffer)
                    &&& match key_calls[0] {
                        Call::Fill { port, buffer, result, .. } => port is Key && buffer
                            == keyed.take(16) && result is Ok,
                        _ => false,
                    }
                },
                trace::gathered(reads, Port::Input, 16) == Some(
                    data@.subrange(16, 16 + bytes_read),
                ),
            decreases 16 - bytes_read,
        {
            let ghost current = data@;
            let wanted: usize = BLOCK_SIZE - bytes_read;
            let space: &mut [u8] = &mut data;
            let (_done, rest) = space.split_at_mut(INPUT_START + bytes_read);
            let (input, _beyond) = rest.split_at_mut(wanted);
            let count = client.read_input(input);
            let ghost buffer = input@;
            let ghost read = client.log().last();
            assert(data@.subrange(16 + bytes_read, 32) =~= buffer);
            assert(data@.take(16) =~= current.take(16));
            assert(data@.skip(32) =~= current.skip(32));
            assert(data@.subrange(16, 16 + bytes_read) =~= current.subrange(16, 16 + bytes_read));
            proof {
                trace::lemma_gather_step(
                    reads,
                    read,
                    Port::Input,
                    16,
                    current.subrange(16, 16 + bytes_read),
                );
                assert(client.log() =~= log + (key_calls + reads.push(read)));
                assert((key_calls + reads.push(read)).skip(key_calls.len() as int) =~= reads.push(
                    read,
                ));
                assert(reads.push(read).drop_last() =~= reads);
                assert(data@ =~= grant::overwritten(current, 32 - buffer.len(), buffer));
                reads = reads.push(read);
                calls = key_calls + reads;
                trace::lemma_since_append(log, calls);
                assert(before.offset != 0 ==> calls =~= reads);
                assert(before.offset == 0 ==> calls[0] == key_calls[0]);
            }
            match count {
                Err(error) => {
                    proof {
                        trace::lemma_reads_only(reads, Port::Input, 16);
                    }
                    self.data = Some(data);
                    return Err(error);
                },
                Ok(count) => {
                    if count == 0 || count > wanted {
                        proof {
                            trace::lemma_reads_only(reads, Port::Input, 16);
                        }
                        self.data = Some(data);
                        return Err(ErrorCode::INVAL);
                    }
                    assert(data@.subrange(16, 16 + bytes_read + count) =~= current.subrange(
                        16,
                        16 + bytes_read,
                    ) + buffer.take(count as int));
                    bytes_read = bytes_read + count;
                },
            }
        }
        proof {
            calls = key_calls + reads;
            trace::lemma_gather_complete(reads, Port::Input, 16, data@.subrange(16, 32));
            trace::lemma_reads_only(reads, Port::Input, 16);
            trace::lemma_since_append(log, calls);
            assert(calls.skip(key_calls.len() as int) =~= reads);
            assert(before.offset != 0 ==> calls =~= reads);
            assert(data@ =~= keyed.take(16) + data@.subrange(16, 32) + given.skip(32));
        }
        self.data = Some(data);
        Ok(())
    }

    /// Tells the client that the operation has ended.
    fn finish<K: EcbClient<Aes128>>(&mut self, result: Result<(), ErrorCode>, client: &mut K)
        requires
            old(self)@.wf(),
            old(client).valid(),
        ensures
            final(self)@.wf(),
            final(self).log() == old(self).log(),
            final(self)@ == old(self)@.finished(),
            final(client).valid(),
            final(client).log() == old(client).log() + old(self)@.report(result),
    {
        let ghost log = client.log();
        self.active = false;
        assert(log + Seq::<Call>::empty() =~= log);
        if self.client.is_some() {
            client.crypt_done(result);
            assert(client.log() =~= log + seq![Call::Done { result }]);
        }
    }

    /// Turns the interrupts off and tells the client that the operation has failed.
    fn abort<K: EcbClient<Aes128>>(&mut self, error: ErrorCode, client: &mut K)
        requires
            old(self)@.wf(),
            old(client).valid(),
        ensures
            final(self)@.wf(),
            final(self).log() == old(self).log(),
            final(self)@ == old(self)@.aborted(),
            final(client).valid(),
            final(client).log() == old(client).log() + old(self)@.report(Err(error)),
    {
        self.registers.interrupts = false;
        self.finish(Err(error), client);
    }

    /// Fetches the next block and starts the peripheral, or ends the message.
    fn start_next_block<K: EcbClient<Aes128>>(&mut self, client: &mut K)
        requires
            old(self)@.wf(),
            !old(self)@.deferred_call,
            old(client).valid(),
        ensures
            final(self)@.wf(),
            final(self).log() == old(self).log(),
            final(client).valid(),
            trace::extends(final(client).log(), old(client).log()),
            block_started(
                old(self)@,
                trace::since(final(client).log(), old(client).log()),
                final(self)@,
            ),
    {
        let ghost log = client.log();
        let ghost before = self@;
        assert(log + Seq::<Call>::empty() =~= log);
        assert(before =~= (EcbView { deferred_call: false, ..before }));
        if !self.active {
            proof {
                trace::lemma_since_append(log, Seq::empty());
            }
            return ;
        }
        if self.offset == self.len {
            self.finish(Ok(()), client);
            proof {
                trace::lemma_since_append(log, before.report(Ok(())));
            }
            return ;
        }
        let result = self.fetch_block(client);
        let ghost fetch = trace::since(client.log(), log);
        proof {
            trace::lemma_extends_append(client.log(), log);
            assert(trace::before_report(fetch) == fetch);
            trace::lemma_since_append(log, fetch);
        }
        if let Err(error) = result {
            self.abort(error, client);
            proof {
                trace::lemma_reported(log, fetch, before.report(Err(error)), client.log());
            }
            return ;
        }
        self.registers.event_error = false;
        self.registers.interrupts = true;
        match self.data.take() {
            Some(data) => {
                if let Err(data) = self.registers.start_ecb_dma(data) {
                    self.data = Some(data);
                    self.abort(ErrorCode::BUSY, client);
                    proof {
                        trace::lemma_reported(log, fetch, before.report(Err(ErrorCode::BUSY)), client.log());
                    }
                }
            },
            None => {
                self.abort(ErrorCode::FAIL, client);
            },
        }
    }

    /// Handles a deferred call.
    pub fn handle_deferred_call<K: EcbClient<Aes128>>(&mut self, client: &mut K)
        requires
            old(self).valid(),
            old(client).valid(),
        ensures
            final(self).valid(),
            final(self).log() == old(self).log(),
            final(client).valid(),
            trace::extends(final(client).log(), old(client).log()),
            block_started(
                old(self)@,
                trace::since(final(client).log(), old(client).log()),
                final(self)@,
            ),
    {
        let ghost before = self@;
        self.deferred_call = false;
        let ghost called = self@;
        self.start_next_block(client);
        proof {
            let calls = trace::since(client.log(), old(client).log());
            assert(called =~= (EcbView { deferred_call: false, ..before }));
            assert(called.fetched(trace::before_report(calls)) == before.fetched(trace::before_report(calls)));
        }
    }

    /// Handles an interrupt of the peripheral.
    pub fn handle_interrupt<K: EcbClient<Aes128>>(&mut self, client: &mut K)
        requires
            old(self).valid(),
            old(self)@.offset + BLOCK_SIZE <= usize::MAX,
            old(client).valid(),
        ensures
            final(self).valid(),
            final(self).log() == old(self).log(),
            final(client).valid(),
            trace::extends(final(client).log(), old(client).log()),
            interrupted(
                old(self)@,
                trace::since(final(client).log(), old(client).log()),
                final(self)@,
            ),
    {
        let ghost log = client.log();
        let ghost before = self@;
        assert(log + Seq::<Call>::empty() =~= log);
        self.registers.interrupts = false;
        if !self.registers.event_error && !self.registers.event_end {
            proof {
                trace::lemma_since_append(log, Seq::empty());
            }
            return ;
        }
        if let Some(data) = self.registers.finish_ecb_dma() {
            self.data = Some(data);
        }
        let ghost back = self@;
        assert(back =~= recovered(before));
        if self.registers.event_error {
            self.abort(ErrorCode::FAIL, client);
            proof {
                trace::lemma_since_append(log, before.report(Err(ErrorCode::FAIL)));
            }
            return ;
        }
        let data = match self.data {
            Some(data) => data,
            None => {
                self.abort(ErrorCode::FAIL, client);
                proof {
                    trace::lemma_since_append(log, before.report(Err(ErrorCode::FAIL)));
                }
                return ;
            },
        };
        if self.client.is_none() {
            self.abort(ErrorCode::OFF, client);
            proof {
                trace::lemma_since_append(log, before.report(Err(ErrorCode::OFF)));
            }
            return ;
        }
        let output: &[u8] = vstd::slice::slice_subrange(&data, OUTPUT_START, DATA_SIZE);
        assert(output@ =~= data@.skip(32));
        let result = client.write_output(output);
        let ghost write = Call::Write { port: Port::Output, data: output@, result };
        assert(client.log() =~= log + seq![write]);
        if let Err(error) = result {
            self.abort(error, client);
            proof {
                let calls = seq![write] + before.report(Err(error));
                assert(client.log() =~= log + calls);
                trace::lemma_since_append(log, calls);
            }
            return ;
        }
        self.offset = self.offset + BLOCK_SIZE;
        self.deferred_call = true;
        proof {
            trace::lemma_since_append(log, seq![write]);
        }
    }

    fn request(&mut self, len: usize, operation: Operation) -> (result: Result<(), ErrorCode>)
        requires
            old(self)@.wf(),
        ensures
            final(self)@.wf(),
            final(self).log() == old(self).log(),
            result == old(self)@.crypt_result(len as nat, operation),
            final(self)@ == (if result is Ok {
                old(self)@.begun(len as nat)
            } else {
                old(self)@
            }),
    {
        if self.active {
            return Err(ErrorCode::BUSY);
        }
        if operation == Operation::Decrypt {
            return Err(ErrorCode::NOSUPPORT);
        }
        if len % BLOCK_SIZE != 0 {
            return Err(ErrorCode::INVAL);
        }
        if self.client.is_none() {
            return Err(ErrorCode::OFF);
        }
        self.len = len;
        self.offset = 0;
        self.active = true;
        self.deferred_call = true;
        Ok(())
    }
}

impl cipher::Ecb<Aes128> for Ecb {
    fn crypt(&mut self, len: usize, operation: Operation) -> (result: Result<(), ErrorCode>)
        ensures
            result == old(self)@.crypt_result(len as nat, operation),
            final(self)@ == (if result is Ok {
                old(self)@.begun(len as nat)
            } else {
                old(self)@
            }),
    {
        let result = self.request(len, operation);
        proof {
            self.log@ = self.log@.push(Call::EcbCrypt { len, operation, result });
        }
        result
    }

    fn set_client(&mut self, client: usize)
        ensures
            final(self)@ == (EcbView { client: Some(client), ..old(self)@ }),
    {
        self.client = Some(client);
        proof {
            self.log@ = self.log@.push(Call::SetClient { client });
        }
    }
}

/// A message that is accepted is on track.
pub proof fn law_begun_on_track(driver: EcbView, len: nat, operation: Operation)
    requires
        driver.on_track(),
        driver.crypt_result(len, operation) is Ok,
    ensures
        driver.begun(len).on_track(),
{
}

/// A driver that is on track stays so through a deferred call that it has asked for. The message
/// ends only when all of it is done, or with the error of a callback, or with `INVAL` where one
/// claims no progress or more than was asked.
pub proof fn law_deferred_call_stays_on_track(before: EcbView, calls: Seq<Call>, after: EcbView)
    requires
        before.wf(),
        before.on_track(),
        before.deferred_call,
        block_started(before, calls, after),
    ensures
        after.on_track(),
        before.active && !after.active ==> calls.len() > 0 && calls.last() is Done && (
        calls.last()->Done_result is Ok <==> before.offset == before.len),
        before.active && after.active ==> after.dma is Some && after.offset == before.offset,
        trace::told_once(calls, before.active && !after.active),
{
    let fetch = trace::before_report(calls);
    if before.active && before.offset < before.len {
        lemma_fetched_tells_nothing(before, fetch);
        if after.active {
            assert(calls == fetch);
        } else {
            assert(calls.drop_last() =~= fetch);
        }
    }
}

/// Fetching a block tells the client of no end.
proof fn lemma_fetched_tells_nothing(driver: EcbView, calls: Seq<Call>)
    requires
        driver.fetched(calls) is Some,
    ensures
        trace::told_nothing(calls),
{
    if driver.client is Some && driver.data is Some {
        if driver.offset == 0 {
            let rest = calls.skip(1);
            if calls[0]->Fill_result is Ok {
                trace::lemma_reads_only(rest, Port::Input, 16);
            }
            assert forall|i: int| 0 <= i < calls.len() implies !((#[trigger] calls[i]) is Done) by {
                if i > 0 {
                    assert(calls[i] == rest[i - 1]);
                }
            }
        } else {
            trace::lemma_reads_only(calls, Port::Input, 16);
        }
    }
}

/// A driver that is on track stays so through an interrupt for a transfer. The block that was
/// transferred is done; the message ends only with an error of the peripheral or of the client.
pub proof fn law_interrupt_stays_on_track(before: EcbView, calls: Seq<Call>, after: EcbView)
    requires
        before.wf(),
        before.on_track(),
        before.dma is Some,
        interrupted(before, calls, after),
    ensures
        before.event_error || before.event_end ==> after.on_track(),
        after.active && before.event_end ==> after.offset == before.offset + 16,
        !after.active ==> calls.len() > 0 && calls.last() is Done && calls.last()->Done_result
            is Err,
        trace::told_once(calls, !after.active),
{
    if before.event_end && !before.event_error && !after.active {
        assert(calls.drop_last() =~= seq![calls[0]]);
    }
}

} // verus!
