//! AES-128 Counter with CBC-MAC (CCM) peripheral.
//!
//! The nRF52840 CCM peripheral implements the Bluetooth Low Energy packet
//! profile rather than arbitrary NIST CCM. It supports a 13-byte nonce, one
//! byte of associated data subject to the BLE header mask, a 4-byte tag, and
//! payloads of at most 251 bytes.
use crate::driver_mutex::{Kind, Resource};
use crate::error::ErrorCode;
use crate::grant;
use crate::hil::cipher::{self, Aes128, CcmClient, CcmTagLength, Operation};
use crate::hil::trace;
use crate::hil::trace::{Call, Observed, Port};
use crate::nrf5x::ccm_registers;
use crate::nrf5x::ccm_registers::{
    CcmData, CcmDmaResult, CcmRegisters, CcmRegistersManager, CcmRegistersView, CCM_CONFIG_START,
    CCM_DATA_SIZE, CCM_INPUT_START, CCM_MAX_PAYLOAD_SIZE, CCM_OUTPUT_START,
    CCM_PACKET_HEADER_SIZE, CCM_TAG_SIZE,
};
use crate::sw::bytes;
use vstd::prelude::*;

verus! {

pub const KEY_SIZE: usize = 16;

pub const NONCE_SIZE: usize = 13;

pub const ASSOCIATED_DATA_SIZE: usize = 1;

/// The bits of a header that are authenticated.
pub const BLE_HEADER_MASK: u8 = 0xe3;

/// No callback carries more.
pub const IO_CHUNK_SIZE: usize = 32;

/// nRF52840 AES-128 CCM peripheral.
pub struct Ccm {
    registers: CcmRegistersManager,
    data: Option<Vec<u8>>,
    client: Option<usize>,
    active: bool,
    len: usize,
    operation: Operation,
    deferred_call: bool,
    log: Ghost<Seq<Call>>,
}

/// What the driver is.
#[verifier::ext_equal]
pub struct CcmView {
    pub registers: CcmRegistersView,
    /// The buffer, while it is at hand.
    pub data: Option<Seq<u8>>,
    pub client: Option<usize>,
    pub active: bool,
    pub len: nat,
    pub operation: Operation,
    pub deferred_call: bool,
}

impl View for Ccm {
    type V = CcmView;

    closed spec fn view(&self) -> CcmView {
        CcmView {
            registers: self.registers@,
            data: ccm_registers::contents(self.data),
            client: self.client,
            active: self.active,
            len: self.len as nat,
            operation: self.operation,
            deferred_call: self.deferred_call,
        }
    }
}

/// How many bytes the next callback carries.
pub open spec fn chunk_len(left: int) -> nat {
    if left < IO_CHUNK_SIZE {
        left as nat
    } else {
        IO_CHUNK_SIZE as nat
    }
}

/// The bytes that a run of successful reads of input delivered, where each read asked for a chunk of
/// what was missing of `want` bytes. `None` if some call is not such a read.
pub open spec fn chunks_read(calls: Seq<Call>, want: nat) -> Option<Seq<u8>>
    decreases calls.len(),
{
    if calls.len() == 0 {
        Some(Seq::empty())
    } else {
        match (chunks_read(calls.drop_last(), want), calls.last()) {
            (Some(data), Call::Read { port: Port::Input, buffer, count: Ok(count), .. }) => {
                if data.len() < want && buffer.len() == chunk_len(want - data.len()) && 0 < count
                    <= buffer.len() {
                    Some(data + buffer.take(count as int))
                } else {
                    None
                }
            },
            _ => None,
        }
    }
}

/// How a loop ends that reads `want` bytes of input in chunks.
pub open spec fn chunks_outcome(calls: Seq<Call>, want: nat) -> Option<
    Result<Seq<u8>, ErrorCode>,
> {
    match chunks_read(calls, want) {
        Some(data) => if data.len() == want {
            Some(Ok(data))
        } else {
            None
        },
        None => match (chunks_read(calls.drop_last(), want), calls.last()) {
            (Some(data), Call::Read { port: Port::Input, buffer, count, .. }) => if data.len() < want
                && buffer.len() == chunk_len(want - data.len()) {
                match count {
                    Err(error) => Some(Err(error)),
                    Ok(_) => Some(Err(ErrorCode::INVAL)),
                }
            } else {
                None
            },
            _ => None,
        },
    }
}

/// `calls` hand a message to the client in chunks, until one is refused; `result` is the refusal, if
/// there is one.
pub open spec fn chunks_written(
    message: Seq<u8>,
    calls: Seq<Call>,
    result: Result<(), ErrorCode>,
) -> bool {
    &&& calls.len() <= (message.len() + 31) / 32
    &&& forall|i: int|
        0 <= i < calls.len() ==> match #[trigger] calls[i] {
            Call::Write { port, data, result: written } => {
                &&& port is Output
                &&& data == message.subrange(32 * i, 32 * i + chunk_len(message.len() - 32 * i))
                &&& i < calls.len() - 1 ==> written is Ok
                &&& i == calls.len() - 1 ==> match (written, result) {
                    (Ok(_), Ok(_)) => true,
                    (Err(a), Err(b)) => a == b,
                    _ => false,
                }
            },
            _ => false,
        }
    &&& result is Ok ==> calls.len() == (message.len() + 31) / 32
    &&& result is Err ==> calls.len() > 0
}

/// The configuration of the peripheral: the key; the packet counter of 39 bits, which is the front
/// of the nonce, in eight bytes; the direction, which is the bit above the counter; the
/// initialization vector, which is the rest of the nonce.
pub open spec fn config(key: Seq<u8>, nonce: Seq<u8>) -> Seq<u8> {
    key + nonce.take(4) + seq![
        (nonce[4] % 128) as u8,
        0u8,
        0u8,
        0u8,
        (nonce[4] / 128) as u8,
    ] + nonce.skip(5)
}

/// The buffer with configuration, header and input.
pub open spec fn prepared(data: Seq<u8>, config: Seq<u8>, header: u8, input: Seq<u8>) -> Seq<u8> {
    config + data.subrange(33, 36) + seq![header, input.len() as u8, 0u8] + input + data.skip(
        (39 + input.len()) as int,
    )
}

/// A header byte has bits that the peripheral does not authenticate.
pub open spec fn has_masked_bits(header: u8) -> bool {
    header / 4 % 8 != 0
}

impl CcmView {
    /// The buffers have their length, and the payload fits.
    pub open spec fn wf(self) -> bool {
        &&& self.registers.wf()
        &&& self.data matches Some(data) ==> data.len() == CCM_DATA_SIZE
        &&& self.len <= CCM_MAX_PAYLOAD_SIZE
    }

    /// The peripheral has the buffer or it is at hand, on a word, and an operation that is under way
    /// waits for the peripheral or for a deferred call.
    pub open spec fn on_track(self) -> bool {
        &&& self.registers.base % 4 == 0
        &&& self.registers.dma_buf is Some <==> self.data is None
        &&& self.registers.dma_buf is Some ==> self.active && !self.deferred_call
        &&& self.active ==> self.client is Some && (self.registers.dma_buf is Some
            || self.deferred_call)
    }

    /// What a request comes back with.
    pub open spec fn crypt_result(
        self,
        len: nat,
        associated_data_len: nat,
        tag_len: CcmTagLength,
    ) -> Result<(), ErrorCode> {
        if self.active {
            Err(ErrorCode::BUSY)
        } else if tag_len != CcmTagLength::Tag32 || associated_data_len != ASSOCIATED_DATA_SIZE {
            Err(ErrorCode::NOSUPPORT)
        } else if len > CCM_MAX_PAYLOAD_SIZE {
            Err(ErrorCode::SIZE)
        } else if self.client is None {
            Err(ErrorCode::OFF)
        } else {
            Ok(())
        }
    }

    /// The driver with a packet begun.
    pub open spec fn begun(self, len: nat, operation: Operation) -> CcmView {
        CcmView { len, operation, active: true, deferred_call: true, ..self }
    }

    /// Length of the input: for decryption the tag belongs to it.
    pub open spec fn input_len(self) -> nat {
        match self.operation {
            Operation::Encrypt => self.len,
            Operation::Decrypt => self.len + CCM_TAG_SIZE as nat,
        }
    }

    /// The output in a buffer that the peripheral has worked on: for encryption the payload of the
    /// packet and the tag, which stand behind the packet's header; for decryption the payload alone,
    /// which is taken from where the output begins, without a header before it.
    pub open spec fn output(self, data: Seq<u8>) -> Seq<u8> {
        match self.operation {
            Operation::Encrypt => data.subrange(
                CCM_OUTPUT_START + CCM_PACKET_HEADER_SIZE,
                CCM_OUTPUT_START + CCM_PACKET_HEADER_SIZE + self.len + CCM_TAG_SIZE,
            ),
            Operation::Decrypt => data.subrange(
                CCM_OUTPUT_START as int,
                CCM_OUTPUT_START + self.len,
            ),
        }
    }

    /// The driver with its operation ended.
    pub open spec fn finished(self) -> CcmView {
        CcmView { active: false, ..self }
    }

    /// The calls that tell the client, if there is one, how an operation has ended.
    pub open spec fn report(self, result: Result<(), ErrorCode>) -> Seq<Call> {
        if self.client is Some {
            seq![Call::Done { result }]
        } else {
            Seq::empty()
        }
    }

    /// What the calls of a packet fetch: the buffer with configuration, header and input, or why
    /// there is none. `None` if a packet makes no such calls.
    pub open spec fn fetched(self, calls: Seq<Call>) -> Option<Result<Seq<u8>, ErrorCode>> {
        if self.client is None {
            failed_at(0, calls, ErrorCode::OFF)
        } else {
            match self.data {
                None => failed_at(0, calls, ErrorCode::FAIL),
                Some(data) => key_fetched(data, self.input_len(), calls),
            }
        }
    }
}

/// What the calls of a packet fetch after the nonce: header and input.
pub open spec fn body_fetched(
    data: Seq<u8>,
    config: Seq<u8>,
    input_len: nat,
    calls: Seq<Call>,
) -> Option<Result<Seq<u8>, ErrorCode>> {
    match calls[0] {
        Call::Read { port: Port::AssociatedData, buffer, count, .. } => if calls.len() == 0
            || buffer.len() != 1 {
            None
        } else if let Err(error) = count {
            failed_at(1, calls, error)
        } else if count->Ok_0 != 1 {
            failed_at(1, calls, ErrorCode::INVAL)
        } else if has_masked_bits(buffer[0]) {
            failed_at(1, calls, ErrorCode::NOSUPPORT)
        } else {
            match chunks_outcome(calls.skip(1), input_len) {
                Some(Ok(input)) => Some(Ok(prepared(data, config, buffer[0], input))),
                Some(Err(error)) => Some(Err(error)),
                None => None,
            }
        },
        _ => None,
    }
}

/// What the calls of a packet fetch after the key.
pub open spec fn nonce_fetched(
    data: Seq<u8>,
    key: Seq<u8>,
    input_len: nat,
    calls: Seq<Call>,
) -> Option<Result<Seq<u8>, ErrorCode>> {
    match calls[0] {
        Call::Read { port: Port::Nonce, buffer, count, .. } => if calls.len() == 0 || buffer.len()
            != 13 {
            None
        } else if let Err(error) = count {
            failed_at(1, calls, error)
        } else if !(7 <= count->Ok_0 <= 13) {
            failed_at(1, calls, ErrorCode::INVAL)
        } else if count->Ok_0 != 13 {
            failed_at(1, calls, ErrorCode::NOSUPPORT)
        } else {
            body_fetched(data, config(key, buffer), input_len, calls.skip(1))
        },
        _ => None,
    }
}

/// What the calls of a packet fetch into a buffer.
pub open spec fn key_fetched(data: Seq<u8>, input_len: nat, calls: Seq<Call>) -> Option<
    Result<Seq<u8>, ErrorCode>,
> {
    match calls[0] {
        Call::Fill { port: Port::Key, buffer, result, .. } => if calls.len() == 0 || buffer.len()
            != 16 {
            None
        } else if let Err(error) = result {
            failed_at(1, calls, error)
        } else {
            nonce_fetched(data, buffer, input_len, calls.skip(1))
        },
        _ => None,
    }
}

/// A buffer after reads of input in chunks.
pub open spec fn input_left(data: Seq<u8>, input_len: nat, calls: Seq<Call>) -> Seq<u8>
    decreases calls.len(),
{
    if calls.len() == 0 {
        data
    } else {
        let earlier = calls.drop_last();
        grant::overwritten(
            input_left(data, input_len, earlier),
            (39 + chunks_read(earlier, input_len)->0.len()) as int,
            calls.last()->Read_buffer,
        )
    }
}

/// A buffer with the header of a packet.
pub open spec fn headed(data: Seq<u8>, header: u8, input_len: nat) -> Seq<u8> {
    grant::overwritten(data, 36, seq![header, input_len as u8, 0u8])
}

/// A buffer with a configuration, after the calls of a body that could not be fetched.
pub open spec fn body_left(data: Seq<u8>, input_len: nat, calls: Seq<Call>) -> Seq<u8> {
    if calls.len() <= 1 {
        data
    } else {
        input_left(
            headed(data, calls[0]->Read_buffer[0], input_len),
            input_len,
            calls.skip(1),
        )
    }
}

/// A buffer after the calls of a packet that could not be fetched: the key, the configuration once
/// the nonce was read, the header, and what has come of the input stay in it.
pub open spec fn left_behind(data: Seq<u8>, input_len: nat, calls: Seq<Call>) -> Seq<u8> {
    if calls.len() == 0 {
        data
    } else {
        let key = calls[0]->Fill_buffer;
        if calls.len() <= 2 {
            grant::overwritten(data, 0, key)
        } else {
            body_left(
                grant::overwritten(data, 0, config(key, calls[1]->Read_buffer)),
                input_len,
                calls.skip(2),
            )
        }
    }
}

/// A failure after `count` calls.
pub open spec fn failed_at(count: nat, calls: Seq<Call>, error: ErrorCode) -> Option<
    Result<Seq<u8>, ErrorCode>,
> {
    if calls.len() == count {
        Some(Err(error))
    } else {
        None
    }
}

/// A deferred call takes the driver from `before` to `after` with `calls` to the client: it fetches
/// the packet and starts the peripheral; where it cannot, it gives up and says why.
pub open spec fn packet_started(before: CcmView, calls: Seq<Call>, after: CcmView) -> bool {
    let called = CcmView { deferred_call: false, ..before };
    if !before.active {
        calls.len() == 0 && after == called
    } else {
        let fetch = trace::before_report(calls);
        match before.fetched(fetch) {
            Some(Ok(data)) => if before.registers.accepts(data) {
                &&& calls == fetch
                &&& after == CcmView {
                    registers: CcmRegistersView {
                        registers: before.registers.registers.started(
                            before.registers.base,
                            before.operation is Decrypt,
                        ),
                        dma_buf: Some(data),
                        ..before.registers
                    },
                    data: None,
                    ..called
                }
            } else {
                &&& calls == fetch + before.report(Err(ErrorCode::BUSY))
                &&& after == CcmView { data: Some(data), ..called }.finished()
            },
            Some(Err(error)) => {
                &&& calls == fetch + before.report(Err(error))
                &&& after == CcmView {
                    data: match before.data {
                        Some(data) => Some(left_behind(data, before.input_len(), fetch)),
                        None => None,
                    },
                    ..called
                }.finished()
            },
            None => false,
        }
    }
}

/// An interrupt takes the driver from `before` to `after` with `calls` to the client: the output of
/// a finished packet goes to the client, unless the tag of the input was wrong, and the operation
/// ends. Nothing happens if no packet has ended.
pub open spec fn interrupted(before: CcmView, calls: Seq<Call>, after: CcmView) -> bool {
    let registers = before.registers.registers;
    if !registers.has_ended() {
        calls.len() == 0 && after == before
    } else {
        let stopped = CcmRegistersView {
            registers: registers.stopped(),
            dma_buf: None,
            ..before.registers
        };
        match before.registers.dma_buf {
            None => calls.len() == 0 && after == CcmView { registers: stopped, ..before },
            Some(data) => {
                &&& after == CcmView {
                    registers: stopped,
                    data: Some(data),
                    ..before
                }.finished()
                &&& if registers.event_error || (before.operation is Decrypt
                    && !registers.mic_passed) {
                    calls == before.report(Err(ErrorCode::FAIL))
                } else if before.client is None {
                    calls.len() == 0
                } else {
                    &&& calls.len() > 0
                    &&& calls.last() is Done
                    &&& chunks_written(
                        before.output(data),
                        calls.drop_last(),
                        calls.last()->Done_result,
                    )
                }
            },
        }
    }
}

impl Observed for Ccm {
    closed spec fn log(&self) -> Seq<Call> {
        self.log@
    }

    open spec fn valid(&self) -> bool {
        self@.wf()
    }
}

impl Resource for Ccm {
    open spec fn kind() -> Kind {
        Kind { number: 4, over: 0 }
    }

    fn resource_kind() -> (kind: Kind) {
        Kind { number: 4, over: 0 }
    }
}

/// One more chunk.
proof fn lemma_chunk_step(calls: Seq<Call>, call: Call, want: nat, data: Seq<u8>)
    requires
        chunks_read(calls, want) == Some(data),
        data.len() < want,
        call is Read,
        call->Read_port is Input,
        call->Read_buffer.len() == chunk_len(want - data.len()),
    ensures
        match call->count {
            Ok(count) => if 0 < count <= call->Read_buffer.len() {
                chunks_read(calls.push(call), want) == Some(
                    data + call->Read_buffer.take(count as int),
                )
            } else {
                chunks_outcome(calls.push(call), want) == Some(
                    Err::<Seq<u8>, ErrorCode>(ErrorCode::INVAL),
                )
            },
            Err(error) => chunks_outcome(calls.push(call), want) == Some(
                Err::<Seq<u8>, ErrorCode>(error),
            ),
        },
{
    assert(calls.push(call).drop_last() =~= calls);
}

/// A loop of chunks makes no other calls.
proof fn lemma_chunks_read_only(calls: Seq<Call>, want: nat)
    requires
        chunks_read(calls, want) is Some || calls.len() > 0 && calls.last() is Read && chunks_read(
            calls.drop_last(),
            want,
        ) is Some,
    ensures
        forall|i: int| 0 <= i < calls.len() ==> (#[trigger] calls[i]) is Read,
    decreases calls.len(),
{
    if calls.len() > 0 {
        lemma_chunks_read_only(calls.drop_last(), want);
        assert forall|i: int| 0 <= i < calls.len() implies (#[trigger] calls[i]) is Read by {
            if i < calls.len() - 1 {
                assert(calls.drop_last()[i] == calls[i]);
            }
        }
    }
}

/// The header bits that are not authenticated.
proof fn lemma_mask(header: u8)
    ensures
        header & !BLE_HEADER_MASK != 0 <==> has_masked_bits(header),
{
    assert(header & !0xe3u8 != 0 <==> header / 4 % 8 != 0) by (bit_vector);
}

/// Reads the input of a packet in chunks.
#[verifier::rlimit(40)]
fn fetch_input<K: CcmClient<Aes128>>(data: &mut Vec<u8>, input_len: usize, client: &mut K) -> (
result: Result<(), ErrorCode>)
    requires
        old(data)@.len() == CCM_DATA_SIZE,
        input_len <= 255,
        old(client).valid(),
    ensures
        final(data)@.len() == CCM_DATA_SIZE,
        final(data)@.take(39) == old(data)@.take(39),
        final(data)@.skip(39 + input_len) == old(data)@.skip(39 + input_len),
        final(client).valid(),
        trace::extends(final(client).log(), old(client).log()),
        chunks_outcome(
            trace::since(final(client).log(), old(client).log()),
            input_len as nat,
        ) == Some(
            match result {
                Ok(_) => Ok(final(data)@.subrange(39, 39 + input_len)),
                Err(error) => Err(error),
            },
        ),
        final(data)@ == input_left(
            old(data)@,
            input_len as nat,
            trace::since(final(client).log(), old(client).log()),
        ),
        trace::told_nothing(trace::since(final(client).log(), old(client).log())),
{
    let ghost log = client.log();
    let ghost given = data@;
    let ghost mut calls: Seq<Call> = Seq::empty();
    let mut offset: usize = 0;
    assert(log + calls =~= log);
    assert(data@.subrange(39, 39) =~= Seq::<u8>::empty());
    while offset < input_len
        invariant
            offset <= input_len <= 255,
            log == old(client).log(),
            data@.len() == CCM_DATA_SIZE,
            data@.take(39) == given.take(39),
            data@.skip(39 + input_len) == given.skip(39 + input_len),
            client.valid(),
            client.log() == log + calls,
            given == old(data)@,
            data@ == input_left(given, input_len as nat, calls),
            chunks_read(calls, input_len as nat) == Some(data@.subrange(39, 39 + offset)),
        decreases input_len - offset,
    {
        let ghost current = data@;
        let left: usize = input_len - offset;
        let requested: usize = if left < IO_CHUNK_SIZE {
            left
        } else {
            IO_CHUNK_SIZE
        };
        let start: usize = CCM_INPUT_START + CCM_PACKET_HEADER_SIZE + offset;
        let (_done, rest) = data.as_mut_slice().split_at_mut(start);
        let (input, _beyond) = rest.split_at_mut(requested);
        let count = client.read_input(input);
        let ghost buffer = input@;
        let ghost read = client.log().last();
        assert(data@.subrange(start as int, start + requested) =~= buffer);
        assert(data@.take(39) =~= current.take(39));
        assert(data@.skip(39 + input_len) =~= current.skip(39 + input_len));
        assert(data@.subrange(39, 39 + offset) =~= current.subrange(39, 39 + offset));
        proof {
            lemma_chunk_step(calls, read, input_len as nat, current.subrange(39, 39 + offset));
            assert(client.log() =~= log + calls.push(read));
            assert(calls.push(read).drop_last() =~= calls);
            assert(data@ =~= grant::overwritten(current, 39 + offset, buffer));
            calls = calls.push(read);
            trace::lemma_since_append(log, calls);
            lemma_chunks_read_only(calls, input_len as nat);
        }
        match count {
            Err(error) => {
                return Err(error);
            },
            Ok(bytes_read) => {
                if bytes_read == 0 || bytes_read > requested {
                    return Err(ErrorCode::INVAL);
                }
                assert(data@.subrange(39, 39 + offset + bytes_read) =~= current.subrange(
                    39,
                    39 + offset,
                ) + buffer.take(bytes_read as int));
                offset = offset + bytes_read;
            },
        }
    }
    proof {
        trace::lemma_since_append(log, calls);
        lemma_chunks_read_only(calls, input_len as nat);
    }
    Ok(())
}

/// Reads header and input of a packet into a buffer that holds its configuration.
fn fetch_body<K: CcmClient<Aes128>>(data: &mut Vec<u8>, input_len: usize, client: &mut K) -> (
result: Result<(), ErrorCode>)
    requires
        old(data)@.len() == CCM_DATA_SIZE,
        input_len <= 255,
        old(client).valid(),
    ensures
        final(data)@.len() == CCM_DATA_SIZE,
        final(client).valid(),
        trace::extends(final(client).log(), old(client).log()),
        body_fetched(
            old(data)@,
            old(data)@.take(33),
            input_len as nat,
            trace::since(final(client).log(), old(client).log()),
        ) == Some(
            match result {
                Ok(_) => Ok(final(data)@),
                Err(error) => Err(error),
            },
        ),
        result is Err ==> final(data)@ == body_left(
            old(data)@,
            input_len as nat,
            trace::since(final(client).log(), old(client).log()),
        ),
        trace::told_nothing(trace::since(final(client).log(), old(client).log())),
{
    let ghost log = client.log();
    let ghost given = data@;
    let mut associated_data = [0u8;1];
    let count = client.read_associated_data(&mut associated_data);
    let ghost read = client.log().last();
    proof {
        assert(client.log() =~= log + seq![read]);
        trace::lemma_since_append(log, seq![read]);
    }
    match count {
        Err(error) => {
            return Err(error);
        },
        Ok(count) => {
            if count != ASSOCIATED_DATA_SIZE {
                return Err(ErrorCode::INVAL);
            }
        },
    }
    let header: u8 = associated_data[0];
    proof {
        lemma_mask(header);
    }
    if header & !BLE_HEADER_MASK != 0 {
        return Err(ErrorCode::NOSUPPORT);
    }
    data.set(CCM_INPUT_START, header);
    data.set(CCM_INPUT_START + 1, input_len as u8);
    data.set(CCM_INPUT_START + 2, 0);
    let ghost headed = data@;
    let ghost middle = client.log();
    let result = fetch_input(data, input_len, client);
    proof {
        let reads = trace::since(client.log(), middle);
        let calls = seq![read] + reads;
        trace::lemma_extends_append(client.log(), middle);
        assert(client.log() =~= log + calls);
        trace::lemma_since_append(log, calls);
        assert(calls.skip(1) =~= reads);
        assert forall|i: int| 0 <= i < calls.len() implies (#[trigger] calls[i]) !is Done by {
            if i > 0 {
                assert(calls[i] == reads[i - 1]);
            }
        }
        assert(headed =~= self::headed(given, header, input_len as nat));
        if result is Ok {
            let input = data@.subrange(39, 39 + input_len);
            assert(data@ =~= headed.take(39) + input + headed.skip(39 + input_len));
            assert(headed.take(39) =~= given.take(33) + given.subrange(33, 36) + seq![
                header,
                input_len as u8,
                0u8,
            ]);
            assert(headed.skip(39 + input_len) =~= given.skip(39 + input_len));
            assert(data@ =~= prepared(given, given.take(33), header, input));
        }
    }
    result
}

/// Reads a packet into the buffer: key, nonce, header and input.
fn fetch_packet<K: CcmClient<Aes128>>(data: &mut Vec<u8>, input_len: usize, client: &mut K) -> (
result: Result<(), ErrorCode>)
    requires
        old(data)@.len() == CCM_DATA_SIZE,
        input_len <= 255,
        old(client).valid(),
    ensures
        final(data)@.len() == CCM_DATA_SIZE,
        final(client).valid(),
        trace::extends(final(client).log(), old(client).log()),
        key_fetched(
            old(data)@,
            input_len as nat,
            trace::since(final(client).log(), old(client).log()),
        ) == Some(
            match result {
                Ok(_) => Ok(final(data)@),
                Err(error) => Err(error),
            },
        ),
        result is Err ==> final(data)@ == left_behind(
            old(data)@,
            input_len as nat,
            trace::since(final(client).log(), old(client).log()),
        ),
        trace::told_nothing(trace::since(final(client).log(), old(client).log())),
{
    let ghost log = client.log();
    let ghost given = data@;
    let (key_space, _rest) = data.as_mut_slice().split_at_mut(KEY_SIZE);
    let result = client.read_key(key_space);
    let ghost key = key_space@;
    let ghost fill = client.log().last();
    assert(data@ =~= key + given.skip(16));
    assert(data@ =~= grant::overwritten(given, 0, key));
    proof {
        assert(client.log() =~= log + seq![fill]);
        trace::lemma_since_append(log, seq![fill]);
    }
    if let Err(error) = result {
        return Err(error);
    }
    let mut nonce = [0u8;13];
    let count = client.read_nonce(&mut nonce);
    let ghost read = client.log().last();
    proof {
        assert(client.log() =~= log + seq![fill, read]);
        trace::lemma_since_append(log, seq![fill, read]);
        assert(seq![fill, read].skip(1) =~= seq![read]);
    }
    match count {
        Err(error) => {
            return Err(error);
        },
        Ok(count) => {
            if count < 7 || count > NONCE_SIZE {
                return Err(ErrorCode::INVAL);
            }
            if count != NONCE_SIZE {
                return Err(ErrorCode::NOSUPPORT);
            }
        },
    }
    let ghost keyed = data@;
    write_nonce(data, &nonce);
    let ghost configured = data@;
    let ghost middle = client.log();
    let result = fetch_body(data, input_len, client);
    proof {
        let body = trace::since(client.log(), middle);
        let calls = seq![fill, read] + body;
        trace::lemma_extends_append(client.log(), middle);
        assert(client.log() =~= log + calls);
        trace::lemma_since_append(log, calls);
        assert(calls.skip(1) =~= seq![read] + body);
        assert(calls.skip(1).skip(1) =~= body);
        assert forall|i: int| 0 <= i < calls.len() implies (#[trigger] calls[i]) !is Done by {
            if i > 1 {
                assert(calls[i] == body[i - 2]);
            }
        }
        assert(calls.skip(2) =~= body);
        assert(configured =~= grant::overwritten(given, 0, config(key, nonce@)));
        assert(configured.take(33) =~= config(key, nonce@));
        assert(configured.subrange(33, 36) =~= given.subrange(33, 36));
        assert forall|n: int| 39 <= n <= 824 implies #[trigger] configured.skip(n) == given.skip(
            n,
        ) by {
            assert(configured.skip(n) =~= given.skip(n));
        }
        assert forall|header: u8, input: Seq<u8>| input.len() == input_len implies
            #[trigger] prepared(configured, configured.take(33), header, input) == prepared(
            given,
            config(key, nonce@),
            header,
            input,
        ) by {
            assert(configured.skip((39 + input.len()) as int) == given.skip(
                (39 + input.len()) as int,
            ));
        }
        if let Some(Ok(input)) = chunks_outcome(body.skip(1), input_len as nat) {
            assert(input.len() == input_len);
            assert(prepared(configured, configured.take(33), body[0]->Read_buffer[0], input)
                == prepared(given, config(key, nonce@), body[0]->Read_buffer[0], input));
        }
    }
    result
}

/// Writes packet counter, direction and initialization vector behind the key.
fn write_nonce(data: &mut Vec<u8>, nonce: &[u8; 13])
    requires
        old(data)@.len() == CCM_DATA_SIZE,
    ensures
        final(data)@ == config(old(data)@.take(16), nonce@) + old(data)@.skip(33),
{
    let ghost given = data@;
    let start: usize = CCM_CONFIG_START + KEY_SIZE;
    let high: u8 = nonce[4];
    data.set(start, nonce[0]);
    data.set(start + 1, nonce[1]);
    data.set(start + 2, nonce[2]);
    data.set(start + 3, nonce[3]);
    data.set(start + 4, high % 128);
    data.set(start + 5, 0);
    data.set(start + 6, 0);
    data.set(start + 7, 0);
    data.set(start + 8, high / 128);
    let ghost counted = data@;
    let vector: &[u8] = vstd::slice::slice_subrange(nonce, 5, 13);
    bytes::copy_into(data.as_mut_slice(), start + 9, vector);
    assert(data@ =~= config(given.take(16), nonce@) + given.skip(33));
}

/// Hands a message to the client in chunks.
fn write_chunks<K: CcmClient<Aes128>>(message: &[u8], client: &mut K) -> (result: Result<
    (),
    ErrorCode,
>)
    requires
        message@.len() <= 255,
        old(client).valid(),
    ensures
        final(client).valid(),
        trace::extends(final(client).log(), old(client).log()),
        chunks_written(
            message@,
            trace::since(final(client).log(), old(client).log()),
            result,
        ),
{
    let ghost log = client.log();
    let ghost mut calls: Seq<Call> = Seq::empty();
    let len: usize = message.len();
    let mut offset: usize = 0;
    assert(log + calls =~= log);
    while offset < len
        invariant
            offset <= len <= 255,
            len == message@.len(),
            log == old(client).log(),
            client.valid(),
            client.log() == log + calls,
            calls.len() == (offset + 31) / 32,
            offset < len ==> offset % 32 == 0,
            forall|i: int|
                0 <= i < calls.len() ==> match #[trigger] calls[i] {
                    Call::Write { port, data, result: written } => {
                        &&& port is Output
                        &&& data == message@.subrange(
                            32 * i,
                            32 * i + chunk_len(message@.len() - 32 * i),
                        )
                        &&& written is Ok
                    },
                    _ => false,
                },
        decreases len - offset,
    {
        let ghost earlier = calls;
        let left: usize = len - offset;
        let chunk: usize = if left < IO_CHUNK_SIZE {
            left
        } else {
            IO_CHUNK_SIZE
        };
        let part: &[u8] = vstd::slice::slice_subrange(message, offset, offset + chunk);
        let result = client.write_output(part);
        let ghost write = Call::Write { port: Port::Output, data: part@, result };
        proof {
            calls = calls.push(write);
            assert(client.log() =~= log + calls);
            trace::lemma_since_append(log, calls);
            assert forall|i: int| 0 <= i < earlier.len() implies calls[i] == earlier[i] by {}
        }
        if result.is_err() {
            return result;
        }
        offset = offset + chunk;
    }
    proof {
        trace::lemma_since_append(log, calls);
    }
    Ok(())
}

impl Ccm {
    /// A driver without a client.
    pub fn new(registers: CcmRegistersManager, data: CcmData) -> (ccm: Self)
        requires
            registers@.wf(),
        ensures
            ccm.valid(),
            ccm.log() == Seq::<Call>::empty(),
            ccm@ == (CcmView {
                registers: registers@,
                data: Some(data.0@),
                client: None,
                active: false,
                len: 0,
                operation: Operation::Encrypt,
                deferred_call: false,
            }),
    {
        let buffer: Vec<u8> = vstd::slice::slice_to_vec(&data.0);
        assert(buffer@ =~= data.0@);
        Ccm {
            registers,
            data: Some(buffer),
            client: None,
            active: false,
            len: 0,
            operation: Operation::Encrypt,
            deferred_call: false,
            log: Ghost(Seq::empty()),
        }
    }

    /// The registers, and what the peripheral is to work on.
    pub fn registers(&self) -> (registers: &CcmRegistersManager)
        ensures
            registers@ == self@.registers,
    {
        &self.registers
    }

    /// Whether a deferred call is wanted.
    pub fn deferred_call_is_set(&self) -> (set: bool)
        ensures
            set == self@.deferred_call,
    {
        self.deferred_call
    }

    /// Takes over what the peripheral shows: its registers, and the buffer that it has worked on.
    pub fn observe(&mut self, registers: CcmRegisters, buffer: Vec<u8>)
        requires
            old(self).valid(),
            buffer@.len() == CCM_DATA_SIZE,
        ensures
            final(self).valid(),
            final(self).log() == old(self).log(),
            final(self)@ == (CcmView {
                registers: CcmRegistersView {
                    registers,
                    dma_buf: if old(self)@.registers.dma_buf is Some {
                        Some(buffer@)
                    } else {
                        None
                    },
                    ..old(self)@.registers
                },
                ..old(self)@
            }),
    {
        self.registers.observe(registers, buffer);
    }

    /// Tells the client that the operation has ended.
    fn finish<K: CcmClient<Aes128>>(&mut self, result: Result<(), ErrorCode>, client: &mut K)
        requires
            old(self)@.wf(),
            old(client).valid(),
        ensures
            final(self)@.wf(),
            final(self).log() == old(self).log(),
            final(self)@ == old(self)@.finished(),
            final(client).valid(),
            final(client).log() == old(client).log() + old(self)@.report(result),
    {
        let ghost log = client.log();
        self.active = false;
        assert(log + Seq::<Call>::empty() =~= log);
        if self.client.is_some() {
            client.crypt_done(result);
            assert(client.log() =~= log + seq![Call::Done { result }]);
        }
    }

    /// Fetches the packet and starts the peripheral.
    fn prepare_and_start<K: CcmClient<Aes128>>(&mut self, client: &mut K)
        requires
            old(self)@.wf(),
            !old(self)@.deferred_call,
            old(client).valid(),
        ensures
            final(self)@.wf(),
            final(self).log() == old(self).log(),
            final(client).valid(),
            trace::extends(final(client).log(), old(client).log()),
            packet_started(
                old(self)@,
                trace::since(final(client).log(), old(client).log()),
                final(self)@,
            ),
    {
        let ghost log = client.log();
        let ghost before = self@;
        let ghost none: Seq<Call> = Seq::empty();
        assert(log + none =~= log);
        assert(before =~= (CcmView { deferred_call: false, ..before }));
        proof {
            trace::lemma_since_append(log, none);
        }
        if !self.active {
            return ;
        }
        let mut data = None;
        if self.client.is_some() {
            std::mem::swap(&mut data, &mut self.data);
        }
        match data {
            None => {
                let error = if self.client.is_none() {
                    ErrorCode::OFF
                } else {
                    ErrorCode::FAIL
                };
                assert(self@ =~= before);
                self.finish(Err(error), client);
                proof {
                    assert((log + none) + before.report(Err(error)) =~= log + before.report(
                        Err(error),
                    ));
                    trace::lemma_reported(log, none, before.report(Err(error)), client.log());
                }
            },
            Some(buffer) => {
                let mut buffer = buffer;
                let input_len: usize = match self.operation {
                    Operation::Encrypt => self.len,
                    Operation::Decrypt => self.len + CCM_TAG_SIZE,
                };
                let result = fetch_packet(&mut buffer, input_len, client);
                let ghost fetch = trace::since(client.log(), log);
                proof {
                    trace::lemma_extends_append(client.log(), log);
                    trace::lemma_since_append(log, fetch);
                    assert(trace::before_report(fetch) == fetch);
                }
                if let Err(error) = result {
                    self.data = Some(buffer);
                    self.finish(Err(error), client);
                    proof {
                        trace::lemma_reported(log, fetch, before.report(Err(error)), client.log());
                    }
                    return ;
                }
                let decrypt = self.operation == Operation::Decrypt;
                if let Err(buffer) = self.registers.start_ccm_dma(buffer, decrypt) {
                    self.data = Some(buffer);
                    self.finish(Err(ErrorCode::BUSY), client);
                    proof {
                        trace::lemma_reported(log, fetch, before.report(Err(ErrorCode::BUSY)), client.log());
                    }
                }
            },
        }
    }

    /// Handles a deferred call.
    pub fn handle_deferred_call<K: CcmClient<Aes128>>(&mut self, client: &mut K)
        requires
            old(self).valid(),
            old(client).valid(),
        ensures
            final(self).valid(),
            final(self).log() == old(self).log(),
            final(client).valid(),
            trace::extends(final(client).log(), old(client).log()),
            packet_started(
                old(self)@,
                trace::since(final(client).log(), old(client).log()),
                final(self)@,
            ),
    {
        let ghost before = self@;
        self.deferred_call = false;
        let ghost called = self@;
        self.prepare_and_start(client);
        proof {
            let calls = trace::since(client.log(), old(client).log());
            assert(called =~= (CcmView { deferred_call: false, ..before }));
            assert(called.fetched(trace::before_report(calls)) == before.fetched(trace::before_report(calls)));
        }
    }

    /// Handles an interrupt of the peripheral.
    pub fn handle_interrupt<K: CcmClient<Aes128>>(&mut self, client: &mut K)
        requires
            old(self).valid(),
            old(client).valid(),
        ensures
            final(self).valid(),
            final(self).log() == old(self).log(),
            final(client).valid(),
            trace::extends(final(client).log(), old(client).log()),
            interrupted(
                old(self)@,
                trace::since(final(client).log(), old(client).log()),
                final(self)@,
            ),
    {
        let ghost log = client.log();
        let ghost before = self@;
        assert(log + Seq::<Call>::empty() =~= log);
        proof {
            trace::lemma_since_append(log, Seq::empty());
            trace::lemma_since_append(log, before.report(Err(ErrorCode::FAIL)));
        }
        let (buffer, mic_valid) = match self.registers.handle_interrupt() {
            None => {
                return ;
            },
            Some(CcmDmaResult::Error(buffer)) => {
                self.data = Some(buffer);
                self.finish(Err(ErrorCode::FAIL), client);
                return ;
            },
            Some(CcmDmaResult::Complete { buffer, mic_valid }) => (buffer, mic_valid),
        };
        if self.operation == Operation::Decrypt && !mic_valid {
            self.data = Some(buffer);
            self.finish(Err(ErrorCode::FAIL), client);
            return ;
        }
        let start: usize = match self.operation {
            Operation::Encrypt => CCM_OUTPUT_START + CCM_PACKET_HEADER_SIZE,
            Operation::Decrypt => CCM_OUTPUT_START,
        };
        let len: usize = match self.operation {
            Operation::Encrypt => self.len + CCM_TAG_SIZE,
            Operation::Decrypt => self.len,
        };
        if self.client.is_none() {
            self.data = Some(buffer);
            self.finish(Err(ErrorCode::OFF), client);
            return ;
        }
        let output: &[u8] = vstd::slice::slice_subrange(buffer.as_slice(), start, start + len);
        assert(output@ == before.output(buffer@));
        let result = write_chunks(output, client);
        let ghost written = trace::since(client.log(), log);
        proof {
            trace::lemma_extends_append(client.log(), log);
        }
        self.data = Some(buffer);
        self.finish(result, client);
        proof {
            let calls = written.push(Call::Done { result });
            assert(client.log() =~= log + calls);
            trace::lemma_since_append(log, calls);
            assert(calls.drop_last() =~= written);
        }
    }

    fn request(
        &mut self,
        len: usize,
        associated_data_len: usize,
        tag_len: CcmTagLength,
        operation: Operation,
    ) -> (result: Result<(), ErrorCode>)
        requires
            old(self)@.wf(),
        ensures
            final(self)@.wf(),
            final(self).log() == old(self).log(),
            result == old(self)@.crypt_result(len as nat, associated_data_len as nat, tag_len),
            final(self)@ == (if result is Ok {
                old(self)@.begun(len as nat, operation)
            } else {
                old(self)@
            }),
    {
        if self.active {
            return Err(ErrorCode::BUSY);
        }
        if tag_len != CcmTagLength::Tag32 || associated_data_len != ASSOCIATED_DATA_SIZE {
            return Err(ErrorCode::NOSUPPORT);
        }
        if len > CCM_MAX_PAYLOAD_SIZE {
            return Err(ErrorCode::SIZE);
        }
        if self.client.is_none() {
            return Err(ErrorCode::OFF);
        }
        self.len = len;
        self.operation = operation;
        self.active = true;
        self.deferred_call = true;
        Ok(())
    }
}

impl cipher::Ccm<Aes128> for Ccm {
    fn crypt(
        &mut self,
        len: usize,
        associated_data_len: usize,
        tag_len: CcmTagLength,
        operation: Operation,
    ) -> (result: Result<(), ErrorCode>)
        ensures
            result == old(self)@.crypt_result(len as nat, associated_data_len as nat, tag_len),
            final(self)@ == (if result is Ok {
                old(self)@.begun(len as nat, operation)
            } else {
                old(self)@
            }),
    {
        let result = self.request(len, associated_data_len, tag_len, operation);
        proof {
            self.log@ = self.log@.push(
                Call::CcmCrypt { len, associated_data_len, tag_len, operation, result },
            );
        }
        result
    }

    fn set_client(&mut self, client: usize)
        ensures
            final(self)@ == (CcmView { client: Some(client), ..old(self)@ }),
    {
        self.client = Some(client);
        proof {
            self.log@ = self.log@.push(Call::SetClient { client });
        }
    }
}

/// The configuration holds key and nonce: both can be read back from it.
pub proof fn law_config_holds_key_and_nonce(key: Seq<u8>, nonce: Seq<u8>)
    requires
        key.len() == 16,
        nonce.len() == 13,
    ensures
        config(key, nonce).len() == ccm_registers::CCM_CONFIG_SIZE,
        config(key, nonce).take(16) == key,
        config(key, nonce).subrange(16, 20) == nonce.take(4),
        config(key, nonce)[20] + 128 * config(key, nonce)[24] == nonce[4],
        config(key, nonce).skip(25) == nonce.skip(5),
{
    let all = config(key, nonce);
    assert(all.take(16) =~= key);
    assert(all.subrange(16, 20) =~= nonce.take(4));
    assert(all.skip(25) =~= nonce.skip(5));
}

/// A packet in the buffer is its configuration, its header and its input, each in its place; the
/// buffer keeps its length and the rest of its contents.
pub proof fn law_packet_in_its_place(
    data: Seq<u8>,
    config: Seq<u8>,
    header: u8,
    input: Seq<u8>,
)
    requires
        data.len() == CCM_DATA_SIZE,
        config.len() == ccm_registers::CCM_CONFIG_SIZE,
        input.len() <= CCM_MAX_PAYLOAD_SIZE + CCM_TAG_SIZE,
    ensures
        ({
            let packet = prepared(data, config, header, input);
            &&& packet.len() == data.len()
            &&& packet.take(33) == config
            &&& packet[CCM_INPUT_START as int] == header
            &&& packet[CCM_INPUT_START + 1] == input.len()
            &&& packet[CCM_INPUT_START + 2] == 0
            &&& packet.subrange(39, (39 + input.len()) as int) == input
            &&& packet.skip(CCM_OUTPUT_START as int) == data.skip(CCM_OUTPUT_START as int)
        }),
{
    let packet = prepared(data, config, header, input);
    assert(packet.take(33) =~= config);
    assert(packet.subrange(39, (39 + input.len()) as int) =~= input);
    assert(packet.skip(CCM_OUTPUT_START as int) =~= data.skip(CCM_OUTPUT_START as int));
}

/// A packet that is accepted is on track.
pub proof fn law_begun_on_track(
    driver: CcmView,
    len: nat,
    associated_data_len: nat,
    tag_len: CcmTagLength,
    operation: Operation,
)
    requires
        driver.wf(),
        driver.on_track(),
        driver.crypt_result(len, associated_data_len, tag_len) is Ok,
    ensures
        driver.begun(len, operation).wf(),
        driver.begun(len, operation).on_track(),
{
}

/// A driver that is on track stays so through a deferred call that it has asked for. The operation
/// ends there only with an error, which is reported once; else the peripheral has the packet.
pub proof fn law_deferred_call_stays_on_track(before: CcmView, calls: Seq<Call>, after: CcmView)
    requires
        before.wf(),
        before.on_track(),
        before.deferred_call,
        packet_started(before, calls, after),
        after.wf(),
    ensures
        after.on_track(),
        before.active && after.active ==> after.registers.dma_buf is Some,
        before.active && !after.active ==> calls.len() > 0 && calls.last() is Done
            && calls.last()->Done_result is Err,
        trace::told_once(calls, before.active && !after.active),
{
    let fetch = trace::before_report(calls);
    if before.active {
        lemma_fetched_tells_nothing(before, fetch);
        if after.active {
            assert(calls == fetch);
        } else {
            assert(calls.drop_last() =~= fetch);
        }
        if let Some(Ok(data)) = before.fetched(fetch) {
            lemma_prepared_len(before, fetch);
        }
    }
}

/// Fetching a packet tells the client of no end.
proof fn lemma_fetched_tells_nothing(driver: CcmView, calls: Seq<Call>)
    requires
        driver.fetched(calls) is Some,
    ensures
        trace::told_nothing(calls),
{
    if calls.len() > 1 {
        let nonce = calls.skip(1);
        let body = nonce.skip(1);
        if nonce.len() > 1 {
            let input = body.skip(1);
            if body.len() > 1 {
                lemma_chunks_tell_nothing(input, driver.input_len());
            }
            assert forall|i: int| 0 <= i < calls.len() implies !((#[trigger] calls[i]) is Done) by {
                if i == 1 {
                    assert(calls[i] == nonce[0]);
                } else if i == 2 {
                    assert(calls[i] == body[0]);
                } else if i > 2 {
                    assert(calls[i] == input[i - 3]);
                }
            }
        } else {
            assert(calls[1] == nonce[0]);
        }
    }
}

proof fn lemma_chunks_tell_nothing(calls: Seq<Call>, want: nat)
    requires
        chunks_outcome(calls, want) is Some,
    ensures
        trace::told_nothing(calls),
{
    if chunks_read(calls, want) is Some {
        lemma_chunks_read_tell_nothing(calls, want);
    } else {
        lemma_chunks_read_tell_nothing(calls.drop_last(), want);
        assert forall|i: int| 0 <= i < calls.len() implies !((#[trigger] calls[i]) is Done) by {
            if i < calls.len() - 1 {
                assert(calls.drop_last()[i] == calls[i]);
            }
        }
    }
}

proof fn lemma_chunks_read_tell_nothing(calls: Seq<Call>, want: nat)
    requires
        chunks_read(calls, want) is Some,
    ensures
        trace::told_nothing(calls),
    decreases calls.len(),
{
    if calls.len() > 0 {
        lemma_chunks_read_tell_nothing(calls.drop_last(), want);
        assert forall|i: int| 0 <= i < calls.len() implies !((#[trigger] calls[i]) is Done) by {
            if i < calls.len() - 1 {
                assert(calls.drop_last()[i] == calls[i]);
            }
        }
    }
}

/// A packet that was fetched fills the buffer.
proof fn lemma_prepared_len(driver: CcmView, calls: Seq<Call>)
    requires
        driver.wf(),
    ensures
        driver.fetched(calls) matches Some(Ok(data)) ==> data.len() == CCM_DATA_SIZE,
{
    if let Some(Ok(data)) = driver.fetched(calls) {
        let key = calls[0]->Fill_buffer;
        let nonce = calls.skip(1)[0]->Read_buffer;
        let body = calls.skip(1).skip(1);
        law_config_holds_key_and_nonce(key, nonce);
        let input = chunks_outcome(body.skip(1), driver.input_len())->0->Ok_0;
        law_packet_in_its_place(driver.data->0, config(key, nonce), body[0]->Read_buffer[0], input);
    }
}

/// A driver that is on track stays so through an interrupt that ends a packet; the operation ends
/// there and its end is reported once. If the peripheral has met an error, or the tag of the input
/// was wrong, the client sees no output.
pub proof fn law_interrupt_ends_packet(before: CcmView, calls: Seq<Call>, after: CcmView)
    requires
        before.wf(),
        before.on_track(),
        before.registers.dma_buf is Some,
        before.registers.registers.has_ended(),
        interrupted(before, calls, after),
    ensures
        after.on_track(),
        !after.active,
        calls.len() > 0,
        calls.last() is Done,
        forall|i: int| 0 <= i < calls.len() - 1 ==> (#[trigger] calls[i]) is Write,
        before.registers.registers.event_error || before.operation is Decrypt
            && !before.registers.registers.mic_passed ==> calls == seq![
            Call::Done { result: Err(ErrorCode::FAIL) },
        ],
{
    assert forall|i: int| 0 <= i < calls.len() - 1 implies (#[trigger] calls[i]) is Write by {
        assert(calls.drop_last()[i] == calls[i]);
    }
}

/// The chunks of a message that the client takes in full are the message.
pub proof fn law_chunks_make_the_message(
    message: Seq<u8>,
    calls: Seq<Call>,
    result: Result<(), ErrorCode>,
    at: int,
)
    requires
        chunks_written(message, calls, result),
        result is Ok,
        0 <= at < message.len(),
    ensures
        at / 32 < calls.len(),
        calls[at / 32] is Write,
        at % 32 < calls[at / 32]->Write_data.len(),
        calls[at / 32]->Write_data[at % 32] == message[at],
{
    let i = at / 32;
    assert(at == 32 * i + at % 32);
    assert(0 <= i < calls.len());
    assert(calls[i] is Write);
}

} // verus!
