//! HASH core computing unit performing digest calculations for various algorithms.
//!
//! The driver works on an image of the registers. Whoever runs it copies status and digest in before
//! an interrupt or a deferred call is handled, and writes control, the words for the data register,
//! and the start of a computation out after each call.
//!
//! Simple digest calculation:
//! Add -> callback -> (if the FIFO is not empty) Run(false) -> Run(true) -> callback
//!
//! HMAC digest calculation: the same three times over, for the inner key, the input and the outer
//! key.
use crate::driver_mutex::{Kind, Resource};
use crate::error::ErrorCode;
use crate::hil::digest::{Algorithm, Client, Digest, Hmac, HmacClient};
use crate::hil::trace;
use crate::hil::trace::{Call, Observed, Port};
use crate::stm32u5::hash_utils;
use crate::stm32u5::hash_utils::{DataType, Leftover, LeftoverView, State, TransferMode};
use crate::sub_slice::{SubSlice, SubSliceView};
use crate::sw::bytes;
use vstd::prelude::*;

verus! {

/// The longest key that is fed as it is.
pub const LONG_HMAC_KEY_LEN: usize = 64;

/// How many bytes the FIFO takes.
pub const FIFO_SIZE: usize = 68;

/// How many words the digest registers hold.
pub const DIGEST_WORDS: usize = 8;

/// The control register.
#[derive(Clone, Copy, Debug, PartialEq, Eq, Structural)]
pub struct Control {
    /// The algorithm: one of those that the accelerator has.
    pub algorithm: Option<Algorithm>,
    /// A keyed digest.
    pub hmac: bool,
    /// The key is longer than a block.
    pub long_key: bool,
    /// Several DMA transfers make one message.
    pub multiple_dma: bool,
    /// Data comes as bytes.
    pub byte_data: bool,
    /// A message begins.
    pub init: bool,
    /// The DMA is served.
    pub dma_enabled: bool,
}

/// The status register.
#[derive(Clone, Copy, Debug, PartialEq, Eq, Structural)]
pub struct Status {
    /// A digest is complete.
    pub digest_complete: bool,
    /// A block can be entered.
    pub input_ready: bool,
    /// A block is being processed.
    pub busy: bool,
    /// How many words the FIFO takes.
    pub words_expected: u8,
}

/// Which interrupts are on.
#[derive(Clone, Copy, Debug, PartialEq, Eq, Structural)]
pub struct Interrupts {
    pub digest_complete: bool,
    pub input_ready: bool,
}

/// The start register.
#[derive(Clone, Copy, Debug, PartialEq, Eq, Structural)]
pub struct Start {
    /// How many bits of the last word count; zero if all do.
    pub valid_bits: u32,
    /// The digest is to be computed.
    pub calculate: bool,
}

/// The image of the registers.
pub struct HashRegisters {
    pub control: Control,
    pub status: Status,
    pub interrupts: Interrupts,
    pub start: Start,
    /// Words written to the data register, oldest first.
    pub data_in: Vec<u32>,
    /// The digest.
    pub digest: [u32; 8],
}

/// Which client gets the callbacks.
#[derive(Clone, Copy, Debug, PartialEq, Eq, Structural)]
pub enum ClientId {
    Hash(usize),
    Hmac(usize),
}

/// The driver for the hash accelerator.
pub struct Hash {
    registers: HashRegisters,
    dma_channel: Option<usize>,
    dma_buffer: Option<SubSlice>,
    data_buffer: Option<SubSlice>,
    algorithm: Option<Algorithm>,
    transfer_mode: TransferMode,
    state: Option<State>,
    leftover: Leftover,
    data_length: usize,
    key_length: usize,
    cancelled: bool,
    client: Option<ClientId>,
    deferred_call: bool,
    log: Ghost<Seq<Call>>,
}

/// What the driver is.
#[verifier::ext_equal]
pub struct HashView {
    pub control: Control,
    pub status: Status,
    pub interrupts: Interrupts,
    pub start: Start,
    pub data_in: Seq<u32>,
    pub digest: Seq<u32>,
    /// The channel of the DMA controller, where there is one.
    pub dma_channel: Option<usize>,
    /// What the DMA is transferring.
    pub dma_buffer: Option<SubSliceView>,
    /// The buffer for the DMA, while it is at hand.
    pub data_buffer: Option<SubSliceView>,
    pub algorithm: Option<Algorithm>,
    pub transfer_mode: TransferMode,
    pub state: Option<State>,
    pub leftover: LeftoverView,
    pub data_length: usize,
    pub key_length: usize,
    pub cancelled: bool,
    pub client: Option<ClientId>,
    pub deferred_call: bool,
}

/// The view of a buffer, if there is one.
pub open spec fn slice_view(slice: Option<SubSlice>) -> Option<SubSliceView> {
    match slice {
        Some(slice) => Some(slice@),
        None => None,
    }
}

impl View for Hash {
    type V = HashView;

    closed spec fn view(&self) -> HashView {
        HashView {
            control: self.registers.control,
            status: self.registers.status,
            interrupts: self.registers.interrupts,
            start: self.registers.start,
            data_in: self.registers.data_in@,
            digest: self.registers.digest@,
            dma_channel: self.dma_channel,
            dma_buffer: slice_view(self.dma_buffer),
            data_buffer: slice_view(self.data_buffer),
            algorithm: self.algorithm,
            transfer_mode: self.transfer_mode,
            state: self.state,
            leftover: self.leftover@,
            data_length: self.data_length,
            key_length: self.key_length,
            cancelled: self.cancelled,
            client: self.client,
            deferred_call: self.deferred_call,
        }
    }
}

/// The whole words of a message.
pub open spec fn words(data: Seq<u8>) -> Seq<u32> {
    Seq::new(
        data.len() / 4,
        |i: int|
            hash_utils::le_word(
                data[4 * i],
                data[4 * i + 1],
                data[4 * i + 2],
                data[4 * i + 3],
            ),
    )
}

/// What follows the whole words of a message.
pub open spec fn tail(data: Seq<u8>) -> Seq<u8> {
    data.skip((data.len() / 4 * 4) as int)
}

/// The bytes of words, the lowest byte of each first.
pub open spec fn word_bytes(data_in: Seq<u32>) -> Seq<u8> {
    Seq::new(data_in.len() * 4, |i: int| hash_utils::byte_of(data_in[i / 4], i % 4))
}

/// The accelerator has the algorithm.
pub open spec fn is_supported(algorithm: Algorithm) -> bool {
    algorithm is Md5 || algorithm is Sha1 || algorithm is Sha224 || algorithm is Sha256
}

/// Which callback fetches data.
pub open spec fn port_of(data_type: DataType) -> Port {
    match data_type {
        DataType::Input => Port::Input,
        _ => Port::Key,
    }
}

/// What a client answers to a request for data: the buffer as it comes back, and the count.
pub struct Answer {
    pub buffer: Seq<u8>,
    pub count: Result<usize, ErrorCode>,
}

impl Answer {
    /// The data that was delivered.
    pub open spec fn data(self) -> Seq<u8> {
        match self.count {
            Ok(count) => self.buffer.take(count as int),
            Err(_) => Seq::empty(),
        }
    }
}

/// The answer to the first call.
pub open spec fn answer(calls: Seq<Call>) -> Answer {
    match calls[0] {
        Call::Read { buffer, count, .. } => Answer { buffer, count },
        _ => Answer { buffer: Seq::empty(), count: Err(ErrorCode::FAIL) },
    }
}

/// `calls` are one request for at most `asked` bytes, if any, then the end of the operation, if it
/// ends.
pub open spec fn exchanged(
    calls: Seq<Call>,
    asked: Option<(Port, nat)>,
    done: Option<Result<(), ErrorCode>>,
) -> bool {
    &&& calls.len() == (if asked is Some {
        1nat
    } else {
        0
    }) + (if done is Some {
        1nat
    } else {
        0
    })
    &&& asked matches Some((port, len)) ==> match calls[0] {
        Call::Read { port: called, buffer, count, .. } => {
            &&& called == port
            &&& buffer.len() == len
            &&& count matches Ok(count) ==> count <= len
        },
        _ => false,
    }
    &&& done matches Some(result) ==> calls.last() == (Call::Done { result })
}

/// `calls` hand the first `count` digest words to the client, most significant byte first, until one
/// is refused; `result` is the refusal, if there is one.
pub open spec fn digest_delivered(
    digest: Seq<u32>,
    count: nat,
    calls: Seq<Call>,
    result: Result<(), ErrorCode>,
) -> bool {
    &&& calls.len() <= count
    &&& forall|i: int|
        0 <= i < calls.len() ==> match #[trigger] calls[i] {
            Call::Write { port, data, result: written } => {
                &&& port is Output
                &&& data == bytes::be_bytes(digest[i] as nat, 4)
                &&& i < calls.len() - 1 ==> written is Ok
                &&& i == calls.len() - 1 ==> written == result
            },
            _ => false,
        }
    &&& result is Ok ==> calls.len() == count
    &&& result is Err ==> calls.len() > 0
}

impl HashView {
    /// The invariant.
    pub open spec fn wf(self) -> bool {
        &&& self.digest.len() == DIGEST_WORDS
        &&& self.leftover.is_orderly()
        &&& self.algorithm matches Some(algorithm) ==> is_supported(algorithm)
        &&& self.dma_buffer matches Some(slice) ==> slice.wf()
        &&& self.data_buffer matches Some(slice) ==> slice.wf()
        &&& self.cancelled ==> self.state is Some
    }

    /// Data of the type is written word by word, by the processor.
    pub open spec fn streams(self, data_type: DataType) -> bool {
        self.transfer_mode is DirectStream || data_type != DataType::Input
    }

    /// How many bytes at the front of data complete the word that waits.
    pub open spec fn completing_len(self, data: Seq<u8>) -> nat {
        if self.leftover.buffer is None {
            0
        } else {
            bytes::least((4 - self.leftover.index) as nat, data.len())
        }
    }

    /// The driver after the front of data went to the word that waits, which is written once it is
    /// complete.
    pub open spec fn completed(self, data: Seq<u8>) -> HashView {
        let filled = HashView {
            leftover: self.leftover.filled(data.take(self.completing_len(data) as int)),
            ..self
        };
        if filled.leftover.is_full() {
            filled.leftover_written()
        } else {
            filled
        }
    }

    /// The driver after it has written data to the accelerator: first the word that waits, if there
    /// is one, then whole words at once; what follows them goes to the leftover.
    pub open spec fn fed(self, data: Seq<u8>) -> HashView {
        let rest = data.skip(self.completing_len(data) as int);
        let started = self.completed(data);
        HashView {
            data_in: started.data_in + words(rest),
            leftover: started.leftover.filled(tail(rest)),
            ..started
        }
    }

    /// The driver after the word of the leftover was written.
    pub open spec fn leftover_written(self) -> HashView {
        HashView {
            data_in: self.data_in.push(self.leftover.word()),
            leftover: self.leftover.taken(),
            ..self
        }
    }

    /// How many bytes at the front of a DMA buffer go to the leftover.
    pub open spec fn trim_len(self, slice: SubSliceView) -> nat {
        bytes::least((4 - self.leftover.index) as nat, slice.active().len())
    }

    /// The driver after bytes at the front of a DMA buffer went to the leftover, and whether the
    /// leftover needs not wait for the FIFO.
    pub open spec fn trimmed(self, slice: SubSliceView) -> (HashView, bool) {
        let filled = HashView {
            leftover: self.leftover.filled(slice.active().take(self.trim_len(slice) as int)),
            ..self
        };
        if filled.leftover.is_full() {
            if self.status.words_expected == 0 {
                (filled, false)
            } else {
                (filled.leftover_written(), true)
            }
        } else {
            (filled, true)
        }
    }

    /// The driver after what follows the whole words of a DMA buffer went to the leftover.
    pub open spec fn truncated(self, slice: SubSliceView) -> HashView {
        HashView { leftover: self.leftover.filled(tail(slice.active())), ..self }
    }

    /// A DMA buffer without what follows its whole words.
    pub open spec fn whole_words(slice: SubSliceView) -> SubSliceView {
        slice.keeping((slice.active().len() / 4 * 4) as int)
    }

    /// The driver with a transfer started.
    pub open spec fn transferring(self, slice: SubSliceView) -> HashView {
        HashView {
            dma_buffer: Some(slice),
            control: Control { dma_enabled: true, ..self.control },
            ..self
        }
    }

    /// The driver after the rest of a DMA buffer was truncated and its whole words, if there are
    /// any, are being transferred; without any the buffer is at hand again.
    pub open spec fn sent(self, slice: SubSliceView) -> HashView {
        let rest = HashView::whole_words(slice);
        if rest.active().len() == 0 {
            HashView { data_buffer: Some(slice.whole()), ..self.truncated(slice) }
        } else {
            self.truncated(slice).transferring(rest)
        }
    }

    /// The client is asked for a key, and has none to give.
    pub open spec fn lacks_key(self, data_type: DataType) -> bool {
        data_type != DataType::Input && self.client matches Some(ClientId::Hash(_))
    }

    /// What is asked of the client when data is loaded of which `left` bytes are missing.
    pub open spec fn load_asks(self, data_type: DataType, left: nat) -> Option<(Port, nat)> {
        if self.lacks_key(data_type) {
            None
        } else if self.streams(data_type) {
            Some(
                (
                    port_of(data_type),
                    bytes::least(
                        bytes::least((self.status.words_expected * 4) as nat, FIFO_SIZE as nat),
                        left,
                    ),
                ),
            )
        } else {
            match self.data_buffer {
                Some(slice) => Some((port_of(data_type), bytes::least(slice.data.len(), left))),
                None => None,
            }
        }
    }

    /// The DMA buffer with what the client put into it, none of which is kept.
    pub open spec fn returned(self, answer: Answer) -> SubSliceView {
        let data = self.data_buffer->0.data;
        SubSliceView {
            data: answer.buffer + data.skip(answer.buffer.len() as int),
            start: 0,
            end: data.len() as int,
        }
    }

    /// The DMA buffer after the client has answered.
    pub open spec fn received(self, answer: Answer) -> SubSliceView {
        let data = self.data_buffer->0.data;
        SubSliceView {
            data: answer.buffer + data.skip(answer.buffer.len() as int),
            start: 0,
            end: answer.count->Ok_0 as int,
        }
    }

    /// The driver after data was loaded, and what comes of it: how many bytes were read, and whether
    /// nothing of them waits for the FIFO.
    pub open spec fn loaded(self, data_type: DataType, answer: Answer) -> (
        HashView,
        Result<(usize, bool), ErrorCode>,
    ) {
        if self.lacks_key(data_type) {
            (self, Err(ErrorCode::INVAL))
        } else if self.streams(data_type) {
            match answer.count {
                Err(error) => (self, Err(error)),
                Ok(count) => (self.fed(answer.data()), Ok((count, true))),
            }
        } else if self.data_buffer is None {
            (self, Err(ErrorCode::FAIL))
        } else {
            let emptied = HashView { data_buffer: None, ..self };
            let refilled = HashView { data_buffer: Some(self.returned(answer)), ..self };
            match answer.count {
                Err(error) => (refilled, Err(error)),
                Ok(count) => if self.dma_channel is None {
                    (refilled, Err(ErrorCode::NODEVICE))
                } else {
                    let slice = self.received(answer);
                    if self.leftover.buffer is None {
                        (emptied.sent(slice), Ok((count, true)))
                    } else {
                        let (trimmed, written) = emptied.trimmed(slice);
                        let rest = slice.dropping(emptied.trim_len(slice) as int);
                        if !written {
                            (HashView { data_buffer: Some(rest), ..trimmed }, Ok((count, false)))
                        } else {
                            (trimmed.sent(rest), Ok((count, true)))
                        }
                    }
                },
            }
        }
    }

    /// How many bytes of a message are fed, by what they are.
    pub open spec fn length_of(self, data_type: DataType) -> usize {
        match data_type {
            DataType::Input => self.data_length,
            _ => self.key_length,
        }
    }

    /// The driver after it has started a computation, and whether it could.
    pub open spec fn ran(self, data_type: DataType) -> (HashView, Result<bool, ErrorCode>) {
        if self.algorithm is None {
            (self, Err(ErrorCode::INVAL))
        } else if self.leftover.buffer is Some && self.status.busy {
            (self, Ok(false))
        } else {
            let written = if self.leftover.buffer is Some {
                self.leftover_written()
            } else {
                self
            };
            match self.state {
                None => (written, Err(ErrorCode::FAIL)),
                Some(state) => {
                    let last = match data_type {
                        DataType::Input => !self.control.hmac,
                        DataType::InnerKey => false,
                        DataType::OuterKey => true,
                    };
                    (
                        HashView {
                            state: state.next(None),
                            interrupts: Interrupts {
                                digest_complete: self.interrupts.digest_complete || last,
                                input_ready: self.interrupts.input_ready || !last,
                            },
                            start: Start {
                                valid_bits: ((self.length_of(data_type) % 4) * 8) as u32,
                                calculate: true,
                            },
                            ..written
                        },
                        Ok(true),
                    )
                },
            }
        }
    }

    /// The driver with its operation ended.
    pub open spec fn ended(self) -> HashView {
        HashView { state: None, ..self }
    }

    /// The driver with its flag for cancellation taken back.
    pub open spec fn uncancelled(self) -> HashView {
        HashView { cancelled: false, ..self }
    }

    /// The driver, waiting for room in the FIFO.
    pub open spec fn awaiting_room(self) -> HashView {
        HashView { interrupts: Interrupts { input_ready: true, ..self.interrupts }, ..self }
    }

    /// The driver, to be called again soon.
    pub open spec fn to_be_called(self) -> HashView {
        HashView { deferred_call: true, ..self }
    }

    /// The driver with its operation ended by a failure.
    pub open spec fn failed(self, error: ErrorCode) -> (HashView, Option<Result<(), ErrorCode>>) {
        (self.ended(), Some(Err(error)))
    }

    /// What a deferred call asks of the client.
    pub open spec fn deferred_asks(self) -> Option<(Port, nat)> {
        if self.client is None || self.cancelled {
            None
        } else {
            match self.state {
                Some(State::Add(left, data_type)) => self.load_asks(data_type, left as nat),
                _ => None,
            }
        }
    }

    /// The driver after data of which `left` bytes were missing was loaded in a deferred call.
    pub open spec fn added(self, left: usize, data_type: DataType, answer: Answer) -> (
        HashView,
        Option<Result<(), ErrorCode>>,
    ) {
        let (loaded, result) = self.loaded(data_type, answer);
        match result {
            Err(error) => loaded.failed(error),
            Ok((count, ready)) => {
                let next = State::Add(left, data_type).next(Some((left - count) as usize));
                let after = HashView {
                    state: next,
                    transfer_mode: match loaded.transfer_mode {
                        TransferMode::Dma(_) => TransferMode::Dma(ready),
                        TransferMode::DirectStream => TransferMode::DirectStream,
                    },
                    ..loaded
                };
                (
                    if self.streams(data_type) {
                        if self.status.busy {
                            after.awaiting_room()
                        } else {
                            after.to_be_called()
                        }
                    } else if !ready {
                        after.awaiting_room()
                    } else if next matches Some(State::Run(_, _)) || after.dma_buffer is None {
                        after.to_be_called()
                    } else {
                        after
                    },
                    None,
                )
            },
        }
    }

    /// The driver after a deferred call, and how the operation ends, if it does.
    pub open spec fn deferred(self, answer: Answer) -> (HashView, Option<Result<(), ErrorCode>>) {
        let called = HashView { deferred_call: false, ..self };
        if self.client is None || self.state is None {
            (called, None)
        } else if self.cancelled {
            called.uncancelled().failed(ErrorCode::CANCEL)
        } else {
            match self.state->0 {
                State::Add(left, data_type) => called.added(left, data_type, answer),
                State::Run(false, data_type) => if called.dma_buffer is Some {
                    (called, None)
                } else {
                    let (after, result) = called.ran(data_type);
                    match result {
                        Ok(true) => (after, None),
                        Ok(false) => (after.awaiting_room(), None),
                        Err(error) => after.failed(error),
                    }
                },
                State::Run(true, _) => called.failed(ErrorCode::FAIL),
            }
        }
    }

    /// An interrupt finds the digest that the client waits for.
    pub open spec fn digest_due(self) -> bool {
        &&& self.client is Some
        &&& !self.cancelled
        &&& self.status.digest_complete
        &&& self.state == Some(State::Run(true, DataType::Input)) || self.state == Some(
            State::Run(true, DataType::OuterKey),
        )
    }

    /// The driver with its interrupts off.
    pub open spec fn silenced(self) -> HashView {
        HashView {
            interrupts: Interrupts { digest_complete: false, input_ready: false },
            ..self
        }
    }

    /// An interrupt comes for an operation that waits for room.
    pub open spec fn room_due(self) -> bool {
        &&& self.client is Some
        &&& !self.cancelled
        &&& self.state is Some
        &&& !self.status.digest_complete
        &&& self.status.input_ready
    }

    /// What an interrupt asks of the client.
    pub open spec fn interrupt_asks(self) -> Option<(Port, nat)> {
        if self.room_due() {
            self.room_asks()
        } else {
            None
        }
    }

    /// What room in the FIFO has the driver ask of the client.
    pub open spec fn room_asks(self) -> Option<(Port, nat)> {
        match self.state {
            Some(State::Add(left, data_type)) => if self.streams(data_type) {
                self.load_asks(data_type, left as nat)
            } else {
                None
            },
            _ => None,
        }
    }

    /// Input that was read for the DMA waits for room in the FIFO.
    pub open spec fn held_back(self) -> bool {
        self.transfer_mode == TransferMode::Dma(false) && self.leftover.is_full()
    }

    /// An operation that runs is on its way to its end: the driver is to be called, an interrupt is
    /// on, or a transfer runs.
    pub open spec fn on_track(self) -> bool {
        self.state is Some ==> {
            ||| self.deferred_call
            ||| self.interrupts.digest_complete
            ||| self.interrupts.input_ready
            ||| self.dma_buffer is Some
        }
    }

    /// The driver after the word that waited was written and the rest of the DMA buffer sent.
    pub open spec fn resumed(self) -> (HashView, Option<Result<(), ErrorCode>>) {
        if !self.leftover.is_full() {
            self.failed(ErrorCode::FAIL)
        } else {
            let written = self.leftover_written();
            match self.data_buffer {
                None => written.failed(ErrorCode::FAIL),
                Some(slice) => {
                    if self.dma_channel is None {
                        HashView { data_buffer: Some(slice.whole()), ..written }.failed(
                            ErrorCode::NODEVICE,
                        )
                    } else {
                        let emptied = HashView { data_buffer: None, ..written };
                        let after = HashView {
                            transfer_mode: TransferMode::Dma(true),
                            ..emptied.sent(slice)
                        };
                        (
                            if after.dma_buffer is None {
                                after.to_be_called()
                            } else {
                                after
                            },
                            None,
                        )
                    }
                },
            }
        }
    }

    /// The driver after an interrupt for an operation that waits for room.
    pub open spec fn given_room(self, answer: Answer) -> (
        HashView,
        Option<Result<(), ErrorCode>>,
    ) {
        let state = self.state->0;
        match state {
            State::Run(true, DataType::InnerKey) => (
                HashView { state: state.next(Some(self.data_length)), ..self }.to_be_called(),
                None,
            ),
            State::Run(true, DataType::Input) => (
                HashView { state: state.next(Some(self.key_length)), ..self }.to_be_called(),
                None,
            ),
            State::Run(true, DataType::OuterKey) => self.failed(ErrorCode::FAIL),
            State::Run(false, data_type) => if self.held_back() {
                self.resumed()
            } else {
                let (after, result) = self.ran(data_type);
                match result {
                    Ok(true) => (after, None),
                    Ok(false) => after.failed(ErrorCode::FAIL),
                    Err(error) => after.failed(error),
                }
            },
            State::Add(left, data_type) => if self.streams(data_type) {
                let (loaded, result) = self.loaded(data_type, answer);
                match result {
                    Err(error) => loaded.failed(error),
                    Ok((count, _)) => (
                        HashView {
                            state: state.next(Some((left - count) as usize)),
                            ..loaded
                        }.to_be_called(),
                        None,
                    ),
                }
            } else if self.transfer_mode == TransferMode::Dma(false) {
                self.resumed()
            } else {
                self.failed(ErrorCode::FAIL)
            },
        }
    }

    /// The driver after an interrupt that finds no digest for the client, and how the operation
    /// ends, if it does.
    pub open spec fn interrupted(self, answer: Answer) -> (
        HashView,
        Option<Result<(), ErrorCode>>,
    ) {
        let silenced = self.silenced();
        if self.client is None {
            (silenced, None)
        } else if self.cancelled {
            silenced.uncancelled().failed(ErrorCode::CANCEL)
        } else if self.state is None {
            (silenced, None)
        } else if self.status.digest_complete {
            silenced.failed(ErrorCode::FAIL)
        } else if self.status.input_ready {
            silenced.given_room(answer)
        } else {
            (silenced, None)
        }
    }

    /// The driver after the interrupt of the DMA, and how the operation ends, if it does.
    pub open spec fn dma_interrupted(self) -> (HashView, Option<Result<(), ErrorCode>>) {
        let released = HashView {
            control: Control { dma_enabled: false, ..self.control },
            dma_buffer: None,
            ..self
        };
        match self.dma_buffer {
            Some(slice) => if self.client is Some {
                let back = HashView {
                    transfer_mode: TransferMode::Dma(false),
                    data_buffer: Some(slice.whole()),
                    ..released
                };
                if self.cancelled {
                    back.uncancelled().failed(ErrorCode::CANCEL)
                } else {
                    (back.to_be_called(), None)
                }
            } else {
                (released, None)
            },
            None => (released, None),
        }
    }

    /// What a request for a digest comes back with.
    pub open spec fn hash_result(self, algorithm: Algorithm, len: usize) -> Result<(), ErrorCode> {
        if self.state is Some {
            Err(ErrorCode::BUSY)
        } else if !is_supported(algorithm) {
            Err(ErrorCode::NOSUPPORT)
        } else if len == 0 {
            Err(ErrorCode::INVAL)
        } else {
            Ok(())
        }
    }

    /// The driver with a digest begun.
    pub open spec fn hash_begun(self, algorithm: Algorithm, len: usize) -> HashView {
        HashView {
            control: Control {
                algorithm: Some(algorithm),
                hmac: false,
                multiple_dma: true,
                byte_data: true,
                init: true,
                ..self.control
            },
            data_length: len,
            key_length: 0,
            leftover: LeftoverView::empty(),
            state: Some(State::Add(len, DataType::Input)),
            algorithm: Some(algorithm),
            transfer_mode: if self.dma_channel is Some {
                TransferMode::Dma(false)
            } else {
                TransferMode::DirectStream
            },
            deferred_call: true,
            ..self
        }
    }

    /// What a request for a keyed digest comes back with.
    pub open spec fn authenticate_result(
        self,
        algorithm: Algorithm,
        input_len: usize,
        key_len: usize,
    ) -> Result<(), ErrorCode> {
        if self.state is Some {
            Err(ErrorCode::BUSY)
        } else if !is_supported(algorithm) {
            Err(ErrorCode::NOSUPPORT)
        } else if input_len == 0 || key_len > algorithm.block_size() {
            Err(ErrorCode::INVAL)
        } else {
            Ok(())
        }
    }

    /// The driver with a keyed digest begun.
    pub open spec fn authenticate_begun(
        self,
        algorithm: Algorithm,
        input_len: usize,
        key_len: usize,
    ) -> HashView {
        HashView {
            control: Control {
                algorithm: Some(algorithm),
                hmac: true,
                long_key: key_len > LONG_HMAC_KEY_LEN,
                multiple_dma: true,
                byte_data: true,
                init: true,
                ..self.control
            },
            data_length: input_len,
            key_length: key_len,
            leftover: LeftoverView::empty(),
            state: Some(State::Add(key_len, DataType::InnerKey)),
            algorithm: Some(algorithm),
            transfer_mode: if self.dma_channel is Some && self.data_buffer is Some {
                TransferMode::Dma(false)
            } else {
                TransferMode::DirectStream
            },
            deferred_call: true,
            ..self
        }
    }

    /// The driver after a request to clear its data: cleared if it is idle, else to be cancelled.
    pub open spec fn cleared(self) -> HashView {
        if self.state is None {
            HashView {
                control: Control { init: true, ..self.control },
                data_length: 0,
                key_length: 0,
                data_buffer: match self.data_buffer {
                    Some(slice) => Some(slice.whole()),
                    None => None,
                },
                leftover: LeftoverView::empty(),
                ..self
            }
        } else {
            HashView { cancelled: true, ..self }
        }
    }
}

impl Observed for Hash {
    closed spec fn log(&self) -> Seq<Call> {
        self.log@
    }

    open spec fn valid(&self) -> bool {
        self@.wf()
    }
}

impl Resource for Hash {
    open spec fn kind() -> Kind {
        Kind { number: 2, over: 0 }
    }

    fn resource_kind() -> (kind: Kind) {
        Kind { number: 2, over: 0 }
    }
}

/// Asks the client for data of the type.
fn fetch<K: HmacClient>(client: &mut K, data_type: DataType, buffer: &mut [u8]) -> (count: Result<
    usize,
    ErrorCode,
>)
    requires
        old(client).valid(),
    ensures
        final(client).valid(),
        final(buffer)@.len() == old(buffer)@.len(),
        count matches Ok(count) ==> count <= old(buffer)@.len(),
        final(client).log() == old(client).log().push(
            Call::Read {
                port: port_of(data_type),
                offered: old(buffer)@,
                buffer: final(buffer)@,
                count,
            },
        ),
{
    match data_type {
        DataType::Input => client.read_input(buffer),
        DataType::InnerKey | DataType::OuterKey => client.read_key(buffer),
    }
}

impl Hash {
    /// A driver without DMA and without a client.
    pub fn new() -> (hash: Self)
        ensures
            hash.valid(),
            hash@.state is None,
            hash@.client is None,
            hash@.dma_channel is None,
            hash@.dma_buffer is None,
            hash@.data_buffer is None,
            hash@.algorithm is None,
            hash@.transfer_mode == TransferMode::DirectStream,
            hash@.leftover == LeftoverView::empty(),
            hash@.data_length == 0,
            hash@.key_length == 0,
            !hash@.cancelled,
            !hash@.deferred_call,
            hash@.data_in == Seq::<u32>::empty(),
    {
        Hash {
            registers: HashRegisters {
                control: Control {
                    algorithm: None,
                    hmac: false,
                    long_key: false,
                    multiple_dma: false,
                    byte_data: false,
                    init: false,
                    dma_enabled: false,
                },
                status: Status {
                    digest_complete: false,
                    input_ready: false,
                    busy: false,
                    words_expected: 0,
                },
                interrupts: Interrupts { digest_complete: false, input_ready: false },
                start: Start { valid_bits: 0, calculate: false },
                data_in: Vec::new(),
                digest: [0u32;8],
            },
            dma_channel: None,
            dma_buffer: None,
            data_buffer: None,
            algorithm: None,
            transfer_mode: TransferMode::DirectStream,
            state: None,
            leftover: Leftover::new(),
            data_length: 0,
            key_length: 0,
            cancelled: false,
            client: None,
            deferred_call: false,
            log: Ghost(Seq::empty()),
        }
    }

    /// Associates a channel of the DMA controller and a buffer with the driver.
    pub fn set_dma(&mut self, channel: usize, buffer: Vec<u8>)
        requires
            old(self).valid(),
        ensures
            final(self).valid(),
            final(self).log() == old(self).log(),
            final(self)@ == (HashView {
                dma_channel: Some(channel),
                data_buffer: Some(
                    SubSliceView { data: buffer@, start: 0, end: buffer@.len() as int },
                ),
                ..old(self)@
            }),
    {
        self.dma_channel = Some(channel);
        self.data_buffer = Some(SubSlice::new(buffer));
    }

    /// The image of the registers.
    pub fn registers(&self) -> (registers: &HashRegisters)
        ensures
            registers.control == self@.control,
            registers.status == self@.status,
            registers.interrupts == self@.interrupts,
            registers.start == self@.start,
            registers.data_in@ == self@.data_in,
            registers.digest@ == self@.digest,
    {
        &self.registers
    }

    /// What the DMA is to transfer.
    pub fn dma_transfer(&self) -> (slice: Option<&SubSlice>)
        ensures
            slice is Some <==> self@.dma_buffer is Some,
            slice matches Some(slice) ==> self@.dma_buffer == Some(slice@),
    {
        self.dma_buffer.as_ref()
    }

    /// Whether a deferred call is wanted.
    pub fn deferred_call_is_set(&self) -> (set: bool)
        ensures
            set == self@.deferred_call,
    {
        self.deferred_call
    }

    /// Takes over what the accelerator shows: its status and the digest.
    pub fn observe(&mut self, status: Status, digest: [u32; 8])
        requires
            old(self).valid(),
        ensures
            final(self).valid(),
            final(self).log() == old(self).log(),
            final(self)@ == (HashView { status, digest: digest@, ..old(self)@ }),
    {
        self.registers.status = status;
        self.registers.digest = digest;
    }

    /// Takes the words for the data register, and the commands that clear themselves, to be written
    /// to the accelerator.
    pub fn flush(&mut self) -> (data_in: Vec<u32>)
        requires
            old(self).valid(),
        ensures
            final(self).valid(),
            final(self).log() == old(self).log(),
            data_in@ == old(self)@.data_in,
            final(self)@ == (HashView {
                data_in: Seq::empty(),
                control: Control { init: false, ..old(self)@.control },
                start: Start { calculate: false, ..old(self)@.start },
                ..old(self)@
            }),
    {
        let mut data_in: Vec<u32> = Vec::new();
        std::mem::swap(&mut data_in, &mut self.registers.data_in);
        self.registers.control.init = false;
        self.registers.start.calculate = false;
        data_in
    }

    fn start_dma_transfer(&mut self, dma_buffer: SubSlice)
        requires
            old(self)@.wf(),
            dma_buffer@.wf(),
        ensures
            final(self)@.wf(),
            final(self).log() == old(self).log(),
            final(self)@ == old(self)@.transferring(dma_buffer@),
    {
        self.dma_buffer = Some(dma_buffer);
        self.registers.control.dma_enabled = true;
    }

    /// Write data using CPU.
    ///
    /// Completes the word that waits, if there is one, and writes whole words into the accelerator.
    ///
    /// Bytes that make no word accumulate in the leftover.
    fn write_data_cpu(&mut self, buffer: &[u8])
        requires
            old(self)@.wf(),
        ensures
            final(self)@.wf(),
            final(self).log() == old(self).log(),
            final(self)@ == old(self)@.fed(buffer@),
    {
        let ghost before = self@;
        let len: usize = buffer.len();
        let mut start: usize = 0;
        if !self.leftover.is_empty() {
            let room: usize = self.leftover.bytes_left();
            start = if room < len {
                room
            } else {
                len
            };
            self.keep_leftover(buffer, 0, start);
        }
        assert(buffer@.subrange(0, start as int) =~= buffer@.take(start as int));
        assert(start == before.completing_len(buffer@));
        assert(before.leftover.filled(Seq::empty()) == before.leftover);
        assert(start == 0 ==> buffer@.take(0) =~= Seq::<u8>::empty());
        if self.leftover.is_full() {
            self.write_leftover();
        }
        let ghost started = self@;
        assert(started =~= before.completed(buffer@));
        let ghost rest = buffer@.skip(start as int);
        let count: usize = (len - start) / 4;
        let mut word: usize = 0;
        assert(words(rest).take(0) =~= Seq::<u32>::empty());
        assert(started.data_in + words(rest).take(0) =~= started.data_in);
        while word < count
            invariant
                word <= count,
                count == (len - start) / 4,
                start <= len,
                len == buffer@.len(),
                rest == buffer@.skip(start as int),
                self@ == (HashView {
                    data_in: started.data_in + words(rest).take(word as int),
                    ..started
                }),
                self.log() == old(self).log(),
            decreases count - word,
        {
            let at: usize = start + 4 * word;
            let data: u32 = buffer[at] as u32 + 256 * (buffer[at + 1] as u32) + 65536 * (buffer[at
                + 2] as u32) + 16777216 * (buffer[at + 3] as u32);
            self.registers.data_in.push(data);
            assert(words(rest)[word as int] == data);
            assert(words(rest).take(word + 1) =~= words(rest).take(word as int).push(data));
            assert(started.data_in + words(rest).take(word + 1) =~= (started.data_in + words(
                rest,
            ).take(word as int)).push(data));
            word = word + 1;
        }
        assert(words(rest).take(word as int) =~= words(rest));
        self.keep_leftover(buffer, start + 4 * count, len);
        assert(buffer@.subrange(start + 4 * count, len as int) =~= tail(rest));
    }

    /// Adds the bytes from `start` to `end` to the leftover.
    fn keep_leftover(&mut self, data: &[u8], start: usize, end: usize)
        requires
            old(self)@.leftover.is_orderly(),
            start <= end <= data@.len(),
        ensures
            final(self).log() == old(self).log(),
            final(self)@ == (HashView {
                leftover: old(self)@.leftover.filled(data@.subrange(start as int, end as int)),
                ..old(self)@
            }),
            final(self)@.leftover.is_orderly(),
    {
        let ghost before = self@;
        let mut at: usize = start;
        assert(data@.subrange(start as int, start as int) =~= Seq::<u8>::empty());
        while at < end
            invariant
                start <= at <= end <= data@.len(),
                self@.leftover.is_orderly(),
                self@ == (HashView {
                    leftover: before.leftover.filled(data@.subrange(start as int, at as int)),
                    ..before
                }),
                self.log() == old(self).log(),
            decreases end - at,
        {
            self.leftover.add(data[at]);
            let ghost more = data@.subrange(start as int, at + 1);
            assert(more.drop_last() =~= data@.subrange(start as int, at as int));
            at = at + 1;
        }
    }

    /// Writes the word of the leftover.
    fn write_leftover(&mut self)
        requires
            old(self)@.wf(),
        ensures
            final(self)@.wf(),
            final(self).log() == old(self).log(),
            final(self)@ == old(self)@.leftover_written(),
    {
        let word: u32 = self.leftover.to_le();
        self.registers.data_in.push(word);
    }

    /// Trim the subslice to get rid of the old leftover bytes.
    ///
    /// Fill the leftover buffer with bytes from the beginning of subslice.
    /// Return boolean value showing if the write operation was successful
    /// and there is no need to wait for the interrupt
    /// when the FIFO is free.
    ///
    /// Slice the passed subslice respectively.
    fn trim_dma_subslice(&mut self, dma_buffer: &mut SubSlice) -> (written: bool)
        requires
            old(self)@.wf(),
            old(dma_buffer)@.wf(),
        ensures
            final(self)@.wf(),
            final(self).log() == old(self).log(),
            (final(self)@, written) == old(self)@.trimmed(old(dma_buffer)@),
            final(dma_buffer)@.wf(),
            final(dma_buffer)@ == old(dma_buffer)@.dropping(
                old(self)@.trim_len(old(dma_buffer)@) as int,
            ),
    {
        let ghost before = self@;
        let ghost slice = dma_buffer@;
        let room: usize = self.leftover.bytes_left();
        let len: usize = dma_buffer.len();
        let bytes_to_write: usize = if room < len {
            room
        } else {
            len
        };
        self.keep_leftover(
            dma_buffer.data.as_slice(),
            dma_buffer.start,
            dma_buffer.start + bytes_to_write,
        );
        assert(slice.data.subrange(slice.start, slice.start + bytes_to_write)
            =~= slice.active().take(bytes_to_write as int));
        dma_buffer.skip(bytes_to_write);
        // Leftover buffer is full, it is time to empty it
        if self.leftover.is_full() {
            if self.registers.status.words_expected == 0 {
                // New data cannot be written at the moment
                // Wait for an interrupt when FIFO is empty
                return false;
            }
            self.write_leftover();
        }
        true
    }

    /// Truncate the subslice to make its size divisible by 4.
    ///
    /// Fill the leftover buffer with bytes from the end of subslice.
    /// Slice the passed subslice respectively.
    fn truncate_dma_subslice(&mut self, dma_buffer: &mut SubSlice)
        requires
            old(self)@.wf(),
            old(dma_buffer)@.wf(),
        ensures
            final(self)@.wf(),
            final(self).log() == old(self).log(),
            final(self)@ == old(self)@.truncated(old(dma_buffer)@),
            final(dma_buffer)@.wf(),
            final(dma_buffer)@ == HashView::whole_words(old(dma_buffer)@),
    {
        let ghost slice = dma_buffer@;
        let len: usize = dma_buffer.len();
        let kept: usize = len - len % 4;
        self.keep_leftover(dma_buffer.data.as_slice(), dma_buffer.start + kept, dma_buffer.end);
        assert(slice.data.subrange(slice.start + kept, slice.end) =~= tail(slice.active()));
        dma_buffer.keep(kept);
    }

    /// Truncates the subslice, and starts its transfer if anything of it is left. Without a
    /// transfer the buffer is at hand again.
    fn send(&mut self, dma_buffer: SubSlice)
        requires
            old(self)@.wf(),
            dma_buffer@.wf(),
        ensures
            final(self)@.wf(),
            final(self).log() == old(self).log(),
            final(self)@ == old(self)@.sent(dma_buffer@),
    {
        let mut dma_buffer = dma_buffer;
        // As DMA slice can be of arbitrary size whereas DMA can send only 32-bit words,
        // it has to be ensured that DMA buffer contains only 32-bit words
        self.truncate_dma_subslice(&mut dma_buffer);
        if dma_buffer.len() == 0 {
            dma_buffer.reset();
            self.data_buffer = Some(dma_buffer);
        } else {
            self.start_dma_transfer(dma_buffer);
        }
    }

    /// Whether data of the type is written by the processor.
    fn is_streaming(&self, data_type: DataType) -> (streaming: bool)
        ensures
            streaming == self@.streams(data_type),
    {
        match self.transfer_mode {
            TransferMode::DirectStream => true,
            TransferMode::Dma(_) => match data_type {
                DataType::Input => false,
                DataType::InnerKey | DataType::OuterKey => true,
            },
        }
    }

    /// Whether the data is a key and the client has none.
    fn has_no_key(&self, data_type: DataType) -> (lacking: bool)
        ensures
            lacking == self@.lacks_key(data_type),
    {
        match data_type {
            DataType::Input => false,
            DataType::InnerKey | DataType::OuterKey => match self.client {
                Some(ClientId::Hash(_)) => true,
                _ => false,
            },
        }
    }

    /// Load data into the accelerator.
    ///
    /// Handles both DMA and Direct Stream operations. No more than `left` bytes are requested.
    fn load_data<K: HmacClient>(&mut self, data_type: DataType, left: usize, client: &mut K) -> (
    result: Result<(usize, bool), ErrorCode>)
        requires
            old(self)@.wf(),
            old(client).valid(),
        ensures
            final(self)@.wf(),
            final(self).log() == old(self).log(),
            final(client).valid(),
            trace::extends(final(client).log(), old(client).log()),
            exchanged(
                trace::since(final(client).log(), old(client).log()),
                old(self)@.load_asks(data_type, left as nat),
                None,
            ),
            (final(self)@, result) == old(self)@.loaded(
                data_type,
                answer(trace::since(final(client).log(), old(client).log())),
            ),
    {
        let ghost before = self@;
        let ghost log = client.log();
        if self.has_no_key(data_type) {
            proof {
                trace::lemma_since_append(log, Seq::empty());
                assert(client.log() =~= log + Seq::<Call>::empty());
            }
            return Err(ErrorCode::INVAL);
        }
        if self.is_streaming(data_type) {
            let mut buffer = [0u8;68];
            let fifo_space: usize = self.registers.status.words_expected as usize * 4;
            let space_limit: usize = if fifo_space < FIFO_SIZE {
                fifo_space
            } else {
                FIFO_SIZE
            };
            let limit: usize = if space_limit < left {
                space_limit
            } else {
                left
            };
            let space: &mut [u8] = &mut buffer;
            let (front, _) = space.split_at_mut(limit);
            let count = fetch(client, data_type, front);
            let ghost read = client.log().last();
            proof {
                trace::lemma_since_append(log, seq![read]);
                assert(client.log() =~= log + seq![read]);
            }
            match count {
                Err(error) => Err(error),
                Ok(count) => {
                    self.write_data_cpu(vstd::slice::slice_subrange(front, 0, count));
                    assert(front@.subrange(0, count as int) =~= front@.take(count as int));
                    Ok((count, true))
                },
            }
        } else {
            let mut data_buffer: Option<SubSlice> = None;
            std::mem::swap(&mut data_buffer, &mut self.data_buffer);
            match data_buffer {
                None => {
                    proof {
                        trace::lemma_since_append(log, Seq::empty());
                        assert(client.log() =~= log + Seq::<Call>::empty());
                        assert(self@ =~= before);
                    }
                    Err(ErrorCode::FAIL)
                },
                Some(slice) => self.load_dma(slice, left, client),
            }
        }
    }

    /// Reads input into the buffer for the DMA and has it transferred.
    fn load_dma<K: HmacClient>(&mut self, slice: SubSlice, left: usize, client: &mut K) -> (result:
        Result<(usize, bool), ErrorCode>)
        requires
            old(self)@.wf(),
            old(self)@.data_buffer is None,
            !old(self)@.streams(DataType::Input),
            slice@.wf(),
            old(client).valid(),
        ensures
            final(self)@.wf(),
            final(self).log() == old(self).log(),
            final(client).valid(),
            trace::extends(final(client).log(), old(client).log()),
            ({
                let before = HashView { data_buffer: Some(slice@), ..old(self)@ };
                let calls = trace::since(final(client).log(), old(client).log());
                &&& exchanged(calls, before.load_asks(DataType::Input, left as nat), None)
                &&& (final(self)@, result) == before.loaded(DataType::Input, answer(calls))
            }),
    {
        let ghost emptied = self@;
        let ghost before = HashView { data_buffer: Some(slice@), ..self@ };
        let ghost log = client.log();
        let ghost given = slice@.data;
        assert(emptied =~= (HashView { data_buffer: None, ..before }));
        let mut slice = slice;
        let room: usize = slice.data.len();
        let limit: usize = if room < left {
            room
        } else {
            left
        };
        let (front, back) = slice.data.as_mut_slice().split_at_mut(limit);
        let count = fetch(client, DataType::Input, front);
        let ghost filled = front@;
        let ghost read = client.log().last();
        proof {
            trace::lemma_since_append(log, seq![read]);
            assert(client.log() =~= log + seq![read]);
        }
        let ghost reply = Answer { buffer: filled, count };
        assert(slice.data@ =~= filled + given.skip(limit as int));
        slice.reset();
        match count {
            Err(error) => {
                self.data_buffer = Some(slice);
                assert(slice@ =~= before.returned(reply));
                Err(error)
            },
            Ok(count) => {
                if self.dma_channel.is_none() {
                    self.data_buffer = Some(slice);
                    assert(slice@ =~= before.returned(reply));
                    return Err(ErrorCode::NODEVICE);
                }
                slice.keep(count);
                assert(slice@ =~= before.received(reply));
                // If the leftover is not empty, it has to be filled first and written to the
                // accelerator
                if !self.leftover.is_empty() && !self.trim_dma_subslice(&mut slice) {
                    // Failed to write, accelerator is busy
                    // Try to write later
                    self.data_buffer = Some(slice);
                    return Ok((count, false));
                }
                self.send(slice);
                Ok((count, true))
            },
        }
    }

    /// Starts the final digest computation.
    ///
    /// Responsible for writing the leftover and starting the computation.
    fn run(&mut self, data_type: DataType) -> (result: Result<bool, ErrorCode>)
        requires
            old(self)@.wf(),
            !old(self)@.cancelled,
        ensures
            final(self)@.wf(),
            final(self).log() == old(self).log(),
            (final(self)@, result) == old(self)@.ran(data_type),
    {
        // No computations without the algorithm set
        if self.algorithm.is_none() {
            return Err(ErrorCode::INVAL);
        }
        // If the leftover is not empty, write it right now

        if !self.leftover.is_empty() {
            // Check if it is possible to write it at the moment
            //
            // There might be some computations in action
            if self.registers.status.busy {
                return Ok(false);
            }
            self.write_leftover();
        }
        match self.state {
            Some(state) => {
                self.state = state.update(None);
            },
            None => {
                return Err(ErrorCode::FAIL);
            },
        }
        // Start the digest calculation
        let data_length: usize = match data_type {
            DataType::Input => {
                if self.registers.control.hmac {
                    // The outer key follows, be it empty
                    self.registers.interrupts.input_ready = true;
                } else {
                    self.registers.interrupts.digest_complete = true;
                }
                self.data_length
            },
            DataType::InnerKey => {
                self.registers.interrupts.input_ready = true;
                self.key_length
            },
            DataType::OuterKey => {
                self.registers.interrupts.digest_complete = true;
                self.key_length
            },
        };
        self.registers.start.valid_bits = (data_length % 4) as u32 * 8;
        self.registers.start.calculate = true;
        Ok(true)
    }

    /// Finish the hashing / HMAC operation.
    ///
    /// Called to signal the client that the operation is done regardless of its result.
    fn finish<K: Client>(&mut self, result: Result<(), ErrorCode>, client: &mut K)
        requires
            old(self)@.wf(),
            !old(self)@.cancelled,
            old(client).valid(),
        ensures
            final(self)@.wf(),
            final(self).log() == old(self).log(),
            final(self)@ == old(self)@.ended(),
            final(client).valid(),
            final(client).log() == old(client).log().push(Call::Done { result }),
    {
        self.state = None;
        client.hash_done(result);
    }

    /// Write digest back to client.
    ///
    /// Called when the final digest is ready.
    fn get_digest<K: Client>(&self, client: &mut K) -> (result: Result<(), ErrorCode>)
        requires
            self@.wf(),
            self@.client is Some,
            old(client).valid(),
        ensures
            final(client).valid(),
            trace::extends(final(client).log(), old(client).log()),
            match self@.algorithm {
                Some(algorithm) => digest_delivered(
                    self@.digest,
                    algorithm.digest_len() / 4,
                    trace::since(final(client).log(), old(client).log()),
                    result,
                ),
                None => {
                    &&& final(client).log() == old(client).log()
                    &&& result == Err::<(), ErrorCode>(ErrorCode::FAIL)
                },
            },
    {
        let ghost log = client.log();
        match self.algorithm {
            None => {
                proof {
                    trace::lemma_since_append(log, Seq::empty());
                    assert(log + Seq::<Call>::empty() =~= log);
                }
                Err(ErrorCode::FAIL)
            },
            Some(algorithm) => {
                let count: usize = algorithm.get_digest_len() / 4;
                let mut at: usize = 0;
                let ghost mut calls: Seq<Call> = Seq::empty();
                assert(log + calls =~= log);
                while at < count
                    invariant
                        at <= count <= 8,
                        log == old(client).log(),
                        self@.algorithm == Some(algorithm),
                        count == algorithm.digest_len() / 4,
                        self.registers.digest@ == self@.digest,
                        client.valid(),
                        client.log() == log + calls,
                        calls.len() == at,
                        digest_delivered(self@.digest, at as nat, calls, Ok(())),
                    decreases count - at,
                {
                    let ghost earlier = calls;
                    let mut data = [0u8;4];
                    bytes::write_be(&mut data, 4, self.registers.digest[at] as u128, 4);
                    assert(data@ =~= bytes::be_bytes(self@.digest[at as int] as nat, 4));
                    let result = client.write_output(&data);
                    proof {
                        let ghost call = Call::Write { port: Port::Output, data: data@, result };
                        assert(client.log() =~= log + calls.push(call));
                        calls = calls.push(call);
                    }
                    if result.is_err() {
                        proof {
                            trace::lemma_since_append(log, calls);
                        }
                        return result;
                    }
                    proof {
                        assert(result->Ok_0 == ());
                        assert(result == Ok::<(), ErrorCode>(()));
                        assert forall|i: int| 0 <= i < calls.len() implies match #[trigger] calls[i] {
                            Call::Write { port, data, result: written } => {
                                &&& port is Output
                                &&& data == bytes::be_bytes(self@.digest[i] as nat, 4)
                                &&& written is Ok
                            },
                            _ => false,
                        } by {
                            if i < at {
                                assert(calls[i] == earlier[i]);
                            }
                        }
                    }
                    at = at + 1;
                }
                proof {
                    trace::lemma_since_append(log, calls);
                }
                Ok(())
            },
        }
    }

    /// Ends the operation with an error, after the calls that were made before.
    fn fail<K: Client>(&mut self, error: ErrorCode, client: &mut K)
        requires
            old(self)@.wf(),
            !old(self)@.cancelled,
            old(client).valid(),
        ensures
            final(self)@.wf(),
            final(self).log() == old(self).log(),
            final(self)@ == old(self)@.failed(error).0,
            final(client).valid(),
            final(client).log() == old(client).log().push(Call::Done { result: Err(error) }),
    {
        self.finish(Err(error), client);
    }

    /// Handles an interrupt of the accelerator: gives the digest to the client, or goes on with what
    /// waits for room in the FIFO.
    pub fn handle_interupts<K: HmacClient>(&mut self, client: &mut K)
        requires
            old(self).valid(),
            old(client).valid(),
        ensures
            final(self).valid(),
            final(self).log() == old(self).log(),
            final(client).valid(),
            trace::extends(final(client).log(), old(client).log()),
            ({
                let before = old(self)@;
                let calls = trace::since(final(client).log(), old(client).log());
                if before.digest_due() {
                    &&& final(self)@ == before.silenced().ended()
                    &&& digest_reported(before, calls)
                } else {
                    let (after, done) = before.interrupted(answer(calls));
                    &&& final(self)@ == after
                    &&& exchanged(calls, before.interrupt_asks(), done)
                }
            }),
    {
        let ghost log = client.log();
        let ghost before = self@;
        assert(log + Seq::<Call>::empty() =~= log);
        proof {
            trace::lemma_since_append(log, Seq::empty());
        }
        // Disable all the interrupts
        self.registers.interrupts.digest_complete = false;
        self.registers.interrupts.input_ready = false;
        let ghost silenced = self@;
        assert(silenced =~= before.silenced());
        if self.client.is_none() {
            return ;
        }
        if self.cancelled {
            self.cancelled = false;
            self.fail(ErrorCode::CANCEL, client);
            proof {
                let done = Call::Done { result: Err(ErrorCode::CANCEL) };
                assert(client.log() =~= log + seq![done]);
                trace::lemma_since_append(log, seq![done]);
            }
            return ;
        }
        if let Some(state) = self.state {
            // Is final digest ready?
            if self.registers.status.digest_complete {
                let due = match state {
                    State::Run(true, DataType::Input) | State::Run(true, DataType::OuterKey) => true,
                    _ => false,
                };
                if due {
                    let result = self.get_digest(client);
                    let ghost written = trace::since(client.log(), log);
                    assert(client.log() =~= log + written);
                    self.finish(result, client);
                    proof {
                        let calls = written.push(Call::Done { result });
                        assert(client.log() =~= log + calls);
                        trace::lemma_since_append(log, calls);
                        assert(calls.drop_last() =~= written);
                    }
                } else {
                    self.fail(ErrorCode::FAIL, client);
                    proof {
                        let done = Call::Done { result: Err(ErrorCode::FAIL) };
                        assert(client.log() =~= log + seq![done]);
                        trace::lemma_since_append(log, seq![done]);
                    }
                }
            } else if self.registers.status.input_ready {
                // FIFO is ready
                self.use_room(state, client);
            }
        }
    }

    /// Goes on with what waits for room in the FIFO.
    fn use_room<K: HmacClient>(&mut self, state: State, client: &mut K)
        requires
            old(self)@.wf(),
            old(self)@.state == Some(state),
            old(self)@.client is Some,
            !old(self)@.cancelled,
            old(client).valid(),
        ensures
            final(self)@.wf(),
            final(self).log() == old(self).log(),
            final(client).valid(),
            trace::extends(final(client).log(), old(client).log()),
            ({
                let before = old(self)@;
                let calls = trace::since(final(client).log(), old(client).log());
                let (after, done) = before.given_room(answer(calls));
                &&& final(self)@ == after
                &&& exchanged(calls, before.room_asks(), done)
            }),
    {
        let ghost log = client.log();
        let ghost before = self@;
        let ghost mut calls: Seq<Call> = Seq::empty();
        assert(log + calls =~= log);
        let result: Result<(), ErrorCode> = match state {
            State::Run(true, DataType::InnerKey) => {
                self.state = state.update(Some(self.data_length));
                self.deferred_call = true;
                Ok(())
            },
            State::Run(true, DataType::Input) => {
                self.state = state.update(Some(self.key_length));
                self.deferred_call = true;
                Ok(())
            },
            State::Run(false, data_type) => {
                if self.is_held_back() {
                    self.resume_dma()
                } else {
                    match self.run(data_type) {
                        Ok(true) => Ok(()),
                        Ok(false) => Err(ErrorCode::FAIL),
                        Err(error) => Err(error),
                    }
                }
            },
            State::Add(left, data_type) => {
                if self.is_streaming(data_type) {
                    let loaded = self.load_data(data_type, left, client);
                    proof {
                        calls = trace::since(client.log(), log);
                        assert(client.log() =~= log + calls);
                    }
                    match loaded {
                        Ok((bytes_loaded, _)) => {
                            self.state = state.update(Some(left - bytes_loaded));
                            self.deferred_call = true;
                            Ok(())
                        },
                        Err(error) => Err(error),
                    }
                } else {
                    match self.transfer_mode {
                        TransferMode::Dma(false) => self.resume_dma(),
                        // This should never happen
                        _ => Err(ErrorCode::FAIL),
                    }
                }
            },
            State::Run(true, DataType::OuterKey) => Err(ErrorCode::FAIL),
        };
        if let Err(error) = result {
            self.fail(error, client);
            proof {
                let ended = calls.push(Call::Done { result: Err(error) });
                assert(client.log() =~= log + ended);
                trace::lemma_since_append(log, ended);
            }
        } else {
            proof {
                trace::lemma_since_append(log, calls);
            }
        }
    }

    /// Whether input that was read for the DMA waits for room in the FIFO.
    fn is_held_back(&self) -> (held_back: bool)
        ensures
            held_back == self@.held_back(),
    {
        match self.transfer_mode {
            TransferMode::Dma(false) => self.leftover.is_full(),
            _ => false,
        }
    }

    /// Writes the word that waited for room, and transfers what is left in the buffer for the DMA.
    /// If nothing is left, the driver is called again.
    fn resume_dma(&mut self) -> (result: Result<(), ErrorCode>)
        requires
            old(self)@.wf(),
        ensures
            final(self)@.wf(),
            final(self).log() == old(self).log(),
            match result {
                Ok(_) => old(self)@.resumed() == (final(self)@, None::<Result<(), ErrorCode>>),
                Err(error) => old(self)@.resumed() == final(self)@.failed(error),
            },
    {
        if !self.leftover.is_full() {
            // This should never happen
            return Err(ErrorCode::FAIL);
        }
        self.write_leftover();
        let ghost written = self@;
        let mut data_buffer: Option<SubSlice> = None;
        std::mem::swap(&mut data_buffer, &mut self.data_buffer);
        match data_buffer {
            None => {
                assert(self@ =~= written);
                Err(ErrorCode::FAIL)
            },
            Some(slice) => {
                if self.dma_channel.is_none() {
                    let mut dma_buffer = slice;
                    dma_buffer.reset();
                    self.data_buffer = Some(dma_buffer);
                    return Err(ErrorCode::NODEVICE);
                }
                self.send(slice);
                self.transfer_mode = TransferMode::Dma(true);
                if self.dma_buffer.is_none() {
                    self.deferred_call = true;
                }
                Ok(())
            },
        }
    }

    /// Handles the end of a transfer: the buffer is at hand again.
    pub fn handle_dma_interrupt<K: Client>(&mut self, client: &mut K)
        requires
            old(self).valid(),
            old(client).valid(),
        ensures
            final(self).valid(),
            final(self).log() == old(self).log(),
            final(client).valid(),
            trace::extends(final(client).log(), old(client).log()),
            ({
                let (after, done) = old(self)@.dma_interrupted();
                &&& final(self)@ == after
                &&& exchanged(trace::since(final(client).log(), old(client).log()), None, done)
            }),
    {
        let ghost log = client.log();
        assert(log + Seq::<Call>::empty() =~= log);
        proof {
            trace::lemma_since_append(log, Seq::empty());
        }
        // Disable the DMA trigger to release the channel
        self.registers.control.dma_enabled = false;
        let mut dma_buffer: Option<SubSlice> = None;
        std::mem::swap(&mut dma_buffer, &mut self.dma_buffer);
        if let Some(slice) = dma_buffer {
            if self.client.is_some() {
                let mut subslice = slice;
                subslice.reset();
                // Reset DMA readiness for new operations
                self.transfer_mode = TransferMode::Dma(false);
                self.data_buffer = Some(subslice);
                if self.cancelled {
                    self.cancelled = false;
                    self.fail(ErrorCode::CANCEL, client);
                    proof {
                        let done = Call::Done { result: Err(ErrorCode::CANCEL) };
                        assert(client.log() =~= log + seq![done]);
                        trace::lemma_since_append(log, seq![done]);
                    }
                } else {
                    self.deferred_call = true;
                }
            }
        }
    }

    /// The DMA controller has finished a transfer on a channel.
    pub fn transfer_done<K: Client>(&mut self, channel: usize, client: &mut K)
        requires
            old(self).valid(),
            old(client).valid(),
        ensures
            final(self).valid(),
            final(self).log() == old(self).log(),
            final(client).valid(),
            trace::extends(final(client).log(), old(client).log()),
            ({
                let (after, done) = if old(self)@.dma_channel == Some(channel) {
                    old(self)@.dma_interrupted()
                } else {
                    (old(self)@, None)
                };
                &&& final(self)@ == after
                &&& exchanged(trace::since(final(client).log(), old(client).log()), None, done)
            }),
    {
        let ghost log = client.log();
        assert(log + Seq::<Call>::empty() =~= log);
        proof {
            trace::lemma_since_append(log, Seq::empty());
        }
        if let Some(own) = self.dma_channel {
            if own == channel {
                self.handle_dma_interrupt(client);
            }
        }
    }

    /// Loads data of which `left` bytes are missing, and has the driver called again when more can
    /// be done.
    fn add_data<K: HmacClient>(&mut self, left: usize, data_type: DataType, client: &mut K) -> (
    result: Result<(), ErrorCode>)
        requires
            old(self)@.wf(),
            old(self)@.state == Some(State::Add(left, data_type)),
            !old(self)@.cancelled,
            old(client).valid(),
        ensures
            final(self)@.wf(),
            final(self).log() == old(self).log(),
            !final(self)@.cancelled,
            final(client).valid(),
            trace::extends(final(client).log(), old(client).log()),
            ({
                let before = old(self)@;
                let calls = trace::since(final(client).log(), old(client).log());
                &&& exchanged(calls, before.load_asks(data_type, left as nat), None)
                &&& match result {
                    Ok(_) => before.added(left, data_type, answer(calls)) == (
                        final(self)@,
                        None::<Result<(), ErrorCode>>,
                    ),
                    Err(error) => before.added(left, data_type, answer(calls))
                        == final(self)@.failed(error),
                }
            }),
    {
        let loaded = self.load_data(data_type, left, client);
        match loaded {
            Err(error) => Err(error),
            Ok((bytes_loaded, is_dma_ready)) => {
                let direct = self.is_streaming(data_type);
                if let TransferMode::Dma(_) = self.transfer_mode {
                    self.transfer_mode = TransferMode::Dma(is_dma_ready);
                }
                let new_state = State::Add(left, data_type).update(Some(left - bytes_loaded));
                self.state = new_state;
                if direct {
                    if !self.registers.status.busy {
                        self.deferred_call = true;
                    } else {
                        self.registers.interrupts.input_ready = true;
                    }
                } else if !is_dma_ready {
                    self.registers.interrupts.input_ready = true;
                } else if self.dma_buffer.is_none() {
                    // Nothing is transferred, so no interrupt of the DMA follows
                    self.deferred_call = true;
                } else if let Some(State::Run(_, _)) = new_state {
                    self.deferred_call = true;
                }
                Ok(())
            },
        }
    }

    /// Handles a deferred call: loads data, or starts a computation.
    pub fn handle_deferred_call<K: HmacClient>(&mut self, client: &mut K)
        requires
            old(self).valid(),
            old(client).valid(),
        ensures
            final(self).valid(),
            final(self).log() == old(self).log(),
            final(client).valid(),
            trace::extends(final(client).log(), old(client).log()),
            ({
                let before = old(self)@;
                let calls = trace::since(final(client).log(), old(client).log());
                let (after, done) = before.deferred(answer(calls));
                &&& final(self)@ == after
                &&& exchanged(calls, before.deferred_asks(), done)
            }),
    {
        let ghost log = client.log();
        let ghost before = self@;
        let ghost mut calls: Seq<Call> = Seq::empty();
        assert(log + calls =~= log);
        proof {
            trace::lemma_since_append(log, calls);
        }
        self.deferred_call = false;
        let ghost called = self@;
        assert(called =~= (HashView { deferred_call: false, ..before }));
        if self.client.is_none() {
            return ;
        }
        let state = match self.state {
            Some(state) => state,
            None => {
                return ;
            },
        };
        if self.cancelled {
            self.cancelled = false;
            self.fail(ErrorCode::CANCEL, client);
            proof {
                let done = Call::Done { result: Err(ErrorCode::CANCEL) };
                assert(client.log() =~= log + seq![done]);
                trace::lemma_since_append(log, seq![done]);
            }
            return ;
        }
        let result: Result<(), ErrorCode> = match state {
            State::Add(left, data_type) => {
                let added = self.add_data(left, data_type, client);
                proof {
                    calls = trace::since(client.log(), log);
                    assert(client.log() =~= log + calls);
                }
                added
            },
            State::Run(false, data_type) => {
                // no need for setting deferred call, wait for an interrupt
                if self.dma_buffer.is_some() {
                    // The data is still on its way to the accelerator
                    Ok(())
                } else {
                    match self.run(data_type) {
                        Ok(is_sent) => {
                            if !is_sent {
                                self.registers.interrupts.input_ready = true;
                            }
                            Ok(())
                        },
                        Err(error) => Err(error),
                    }
                }
            },
            State::Run(true, _) => Err(ErrorCode::FAIL),
        };
        if let Err(error) = result {
            self.fail(error, client);
            proof {
                let ended = calls.push(Call::Done { result: Err(error) });
                assert(client.log() =~= log + ended);
                trace::lemma_since_append(log, ended);
            }
        } else {
            proof {
                trace::lemma_since_append(log, calls);
            }
        }
    }

    /// Whether the accelerator has the algorithm.
    fn parse_algo(algorithm: Algorithm) -> (result: Result<Algorithm, ErrorCode>)
        ensures
            result == (if is_supported(algorithm) {
                Ok::<Algorithm, ErrorCode>(algorithm)
            } else {
                Err(ErrorCode::NOSUPPORT)
            }),
    {
        match algorithm {
            Algorithm::Md5 | Algorithm::Sha1 | Algorithm::Sha224 | Algorithm::Sha256 => Ok(
                algorithm,
            ),
            _ => Err(ErrorCode::NOSUPPORT),
        }
    }

    fn request_hash(&mut self, algorithm: Algorithm, len: usize) -> (result: Result<(), ErrorCode>)
        requires
            old(self)@.wf(),
        ensures
            final(self)@.wf(),
            final(self).log() == old(self).log(),
            result == old(self)@.hash_result(algorithm, len),
            final(self)@ == (if result is Ok {
                old(self)@.hash_begun(algorithm, len)
            } else {
                old(self)@
            }),
    {
        if self.state.is_some() {
            return Err(ErrorCode::BUSY);
        }
        let algorithm = match Self::parse_algo(algorithm) {
            Ok(algorithm) => algorithm,
            Err(error) => {
                return Err(error);
            },
        };
        if len == 0 {
            return Err(ErrorCode::INVAL);
        }
        self.data_length = len;
        self.key_length = 0;
        self.leftover.reset();
        self.state = Some(State::Add(len, DataType::Input));
        self.algorithm = Some(algorithm);
        self.registers.control.algorithm = Some(algorithm);
        self.registers.control.multiple_dma = true;
        self.registers.control.byte_data = true;
        self.registers.control.hmac = false;
        self.registers.control.init = true;
        if self.dma_channel.is_some() {
            self.transfer_mode = TransferMode::Dma(false);
        } else {
            self.transfer_mode = TransferMode::DirectStream;
        }
        self.deferred_call = true;
        Ok(())
    }

    fn request_authenticate(&mut self, algorithm: Algorithm, input_len: usize, key_len: usize) -> (
    result: Result<(), ErrorCode>)
        requires
            old(self)@.wf(),
        ensures
            final(self)@.wf(),
            final(self).log() == old(self).log(),
            result == old(self)@.authenticate_result(algorithm, input_len, key_len),
            final(self)@ == (if result is Ok {
                old(self)@.authenticate_begun(algorithm, input_len, key_len)
            } else {
                old(self)@
            }),
    {
        if self.state.is_some() {
            return Err(ErrorCode::BUSY);
        }
        let algorithm = match Self::parse_algo(algorithm) {
            Ok(algorithm) => algorithm,
            Err(error) => {
                return Err(error);
            },
        };
        if input_len == 0 || key_len > algorithm.get_block_size() {
            return Err(ErrorCode::INVAL);
        }
        self.key_length = key_len;
        self.data_length = input_len;
        self.leftover.reset();
        self.registers.control.algorithm = Some(algorithm);
        self.registers.control.long_key = key_len > LONG_HMAC_KEY_LEN;
        self.registers.control.multiple_dma = true;
        self.registers.control.byte_data = true;
        self.registers.control.hmac = true;
        self.registers.control.init = true;
        self.state = Some(State::Add(key_len, DataType::InnerKey));
        self.algorithm = Some(algorithm);
        if self.dma_channel.is_some() && self.data_buffer.is_some() {
            self.transfer_mode = TransferMode::Dma(false);
        } else {
            self.transfer_mode = TransferMode::DirectStream;
        }
        self.deferred_call = true;
        Ok(())
    }
}

/// `calls` hand the digest to the client and tell it how the operation ends.
pub open spec fn digest_reported(driver: HashView, calls: Seq<Call>) -> bool {
    &&& calls.len() > 0
    &&& calls.last() is Done
    &&& match driver.algorithm {
        Some(algorithm) => digest_delivered(
            driver.digest,
            algorithm.digest_len() / 4,
            calls.drop_last(),
            calls.last()->Done_result,
        ),
        None => calls == seq![Call::Done { result: Err(ErrorCode::FAIL) }],
    }
}

impl Digest for Hash {
    fn hash(&mut self, algorithm: Algorithm, len: usize) -> (result: Result<(), ErrorCode>)
        ensures
            result == old(self)@.hash_result(algorithm, len),
            final(self)@ == (if result is Ok {
                old(self)@.hash_begun(algorithm, len)
            } else {
                old(self)@
            }),
    {
        let result = self.request_hash(algorithm, len);
        proof {
            self.log@ = self.log@.push(Call::Hash { algorithm, len, result });
        }
        result
    }

    fn clear_data(&mut self)
        ensures
            final(self)@ == old(self)@.cleared(),
    {
        if self.state.is_none() {
            // No operation at the moment -> reset the peripheral keeping the settings
            self.registers.control.init = true;
            self.data_length = 0;
            self.key_length = 0;
            let mut data_buffer: Option<SubSlice> = None;
            std::mem::swap(&mut data_buffer, &mut self.data_buffer);
            if let Some(slice) = data_buffer {
                let mut slice = slice;
                slice.reset();
                self.data_buffer = Some(slice);
            }
            self.leftover.reset();
        } else {
            // Set the cancellation flag and wait for the interrupt / deferred call
            self.cancelled = true;
        }
        proof {
            self.log@ = self.log@.push(Call::ClearData);
        }
    }

    fn set_client(&mut self, client: usize)
        ensures
            final(self)@ == (HashView { client: Some(ClientId::Hash(client)), ..old(self)@ }),
    {
        self.client = Some(ClientId::Hash(client));
        proof {
            self.log@ = self.log@.push(Call::SetClient { client });
        }
    }
}

impl Hmac for Hash {
    fn authenticate(&mut self, algorithm: Algorithm, input_len: usize, key_len: usize) -> (result:
        Result<(), ErrorCode>)
        ensures
            result == old(self)@.authenticate_result(algorithm, input_len, key_len),
            final(self)@ == (if result is Ok {
                old(self)@.authenticate_begun(algorithm, input_len, key_len)
            } else {
                old(self)@
            }),
    {
        let result = self.request_authenticate(algorithm, input_len, key_len);
        proof {
            self.log@ = self.log@.push(
                Call::Authenticate { algorithm, input_len, key_len, result },
            );
        }
        result
    }

    fn set_hmac_client(&mut self, client: usize)
        ensures
            final(self)@ == (HashView { client: Some(ClientId::Hmac(client)), ..old(self)@ }),
    {
        self.client = Some(ClientId::Hmac(client));
        proof {
            self.log@ = self.log@.push(Call::SetHmacClient { client });
        }
    }
}

} // verus!
