//! What the CCM peripheral finds when a packet is started, and what becomes of the packet.
use crate::error::ErrorCode;
use crate::hil::cipher::{CcmTagLength, Operation};
use crate::hil::trace::{Call, Port};
use crate::nrf5x::ccm;
use crate::nrf5x::ccm::CcmView;
use crate::nrf5x::ccm_registers::{CcmRegisters, CCM_DATA_SIZE};
use vstd::prelude::*;

verus! {

/// A packet is taken on exactly if the driver is idle, the tag has four bytes, the associated data is
/// one byte, the payload has at most 251 bytes and there is a client; then all of the payload is
/// fetched, and for decryption the four bytes of the tag with it.
pub proof fn law_what_is_accepted(
    driver: CcmView,
    len: nat,
    associated_data_len: nat,
    tag_len: CcmTagLength,
    operation: Operation,
)
    ensures
        driver.crypt_result(len, associated_data_len, tag_len) == (if driver.active {
            Err::<(), ErrorCode>(ErrorCode::BUSY)
        } else if tag_len.bits() != 32 || associated_data_len != 1 {
            Err(ErrorCode::NOSUPPORT)
        } else if len > 251 {
            Err(ErrorCode::SIZE)
        } else if driver.client is None {
            Err(ErrorCode::OFF)
        } else {
            Ok(())
        }),
        ({
            let begun = driver.begun(len, operation);
            &&& begun.active
            &&& begun.deferred_call
            &&& begun.len == len
            &&& begun.operation == operation
            &&& begun.input_len() == len + (if operation is Decrypt {
                4nat
            } else {
                0
            })
        }),
{
}

/// The bits of a header that the peripheral does not authenticate are its third, fourth and fifth; a
/// header with one of them set is refused.
pub proof fn law_masked_bits(header: u8)
    ensures
        ccm::has_masked_bits(header) <==> header & ccm::BLE_HEADER_MASK != header,
        ccm::BLE_HEADER_MASK == 0xff - 4 - 8 - 16,
{
    let mask: u8 = ccm::BLE_HEADER_MASK;
    assert(header / 4 % 8 != 0 <==> header & mask != header) by (bit_vector)
        requires
            mask == 0xe3,
    ;
}

/// A packet counter is 39 bits, the lowest byte first, and the direction is one bit; between and above
/// them there is nothing.
pub proof fn law_counter_and_direction(key: Seq<u8>, nonce: Seq<u8>)
    requires
        key.len() == 16,
        nonce.len() == 13,
    ensures
        ({
            let config = ccm::config(key, nonce);
            &&& config.len() == 33
            &&& config[20] < 128
            &&& config[20] == nonce[4] % 128
            &&& config[21] == 0 && config[22] == 0 && config[23] == 0
            &&& config[24] <= 1
            &&& config[24] == 1 <==> nonce[4] >= 128
        }),
{
}

/// The peripheral that is started finds, where its pointers say, the configuration with key and
/// nonce, and the packet with its header, its length and its input; it has room behind its other
/// pointers for the longest packet and for its scratch area; and it is told whether to decrypt, and
/// how long payloads may be.
pub proof fn law_pointers_lead_to_the_packet(
    registers: CcmRegisters,
    base: nat,
    decrypt: bool,
    data: Seq<u8>,
    key: Seq<u8>,
    nonce: Seq<u8>,
    header: u8,
    input: Seq<u8>,
)
    requires
        base + CCM_DATA_SIZE <= u32::MAX,
        data.len() == CCM_DATA_SIZE,
        key.len() == 16,
        nonce.len() == 13,
        input.len() <= 255,
    ensures
        ({
            let started = registers.started(base, decrypt);
            let packet = ccm::prepared(data, ccm::config(key, nonce), header, input);
            let config = started.cnfptr - base;
            let front = started.inptr - base;
            &&& packet.len() == data.len()
            &&& packet.subrange(config, config + 16) == key
            &&& packet.subrange(config + 16, config + 20) == nonce.take(4)
            &&& packet.subrange(config + 25, config + 33) == nonce.skip(5)
            &&& config + 33 <= front
            &&& packet[front] == header
            &&& packet[front + 1] == input.len()
            &&& packet[front + 2] == 0
            &&& packet.subrange(front + 3, front + 3 + input.len()) == input
            &&& started.inptr + 258 <= started.outptr
            &&& started.outptr + 258 <= started.scratchptr
            &&& started.scratchptr + 16 + 251 <= base + data.len()
            &&& started.maxpacketsize == 251
            &&& started.decryption == decrypt
            &&& started.enabled
            &&& started.extended_length
            &&& started.task_ksgen && started.short_endksgen_crypt && !started.task_stop
            &&& started.interrupt_endcrypt && started.interrupt_error
            &&& !started.event_endksgen && !started.event_endcrypt && !started.event_error
        }),
{
    let packet = ccm::prepared(data, ccm::config(key, nonce), header, input);
    assert(packet.subrange(0, 16) =~= key);
    assert(packet.subrange(16, 20) =~= nonce.take(4));
    assert(packet.subrange(25, 33) =~= nonce.skip(5));
    assert(packet.subrange(39, (39 + input.len()) as int) =~= input);
}

/// The packet that is fetched is made of what the client hands out: the key, the nonce, the header,
/// and the whole input.
pub proof fn law_packet_is_what_is_handed_out(
    driver: CcmView,
    key_offered: Seq<u8>,
    key: Seq<u8>,
    nonce_offered: Seq<u8>,
    nonce: Seq<u8>,
    header_offered: Seq<u8>,
    header: u8,
    reads: Seq<Call>,
    input: Seq<u8>,
)
    requires
        driver.client is Some,
        driver.data is Some,
        key.len() == 16,
        nonce.len() == 13,
        header / 4 % 8 == 0,
        ccm::chunks_outcome(reads, driver.input_len()) == Some(Ok::<Seq<u8>, ErrorCode>(input)),
    ensures
        driver.fetched(
            seq![
                Call::Fill { port: Port::Key, offered: key_offered, buffer: key, result: Ok(()) },
                Call::Read {
                    port: Port::Nonce,
                    offered: nonce_offered,
                    buffer: nonce,
                    count: Ok(13usize),
                },
                Call::Read {
                    port: Port::AssociatedData,
                    offered: header_offered,
                    buffer: seq![header],
                    count: Ok(1usize),
                },
            ] + reads,
        ) == Some(
            Ok::<Seq<u8>, ErrorCode>(
                ccm::prepared(driver.data->0, ccm::config(key, nonce), header, input),
            ),
        ),
        input.len() == driver.input_len(),
{
    let parameters = seq![
        Call::Fill { port: Port::Key, offered: key_offered, buffer: key, result: Ok(()) },
        Call::Read {
            port: Port::Nonce,
            offered: nonce_offered,
            buffer: nonce,
            count: Ok(13usize),
        },
        Call::Read {
            port: Port::AssociatedData,
            offered: header_offered,
            buffer: seq![header],
            count: Ok(1usize),
        },
    ];
    let calls = parameters + reads;
    assert(calls.skip(1)[0] == parameters[1]);
    assert(calls.skip(1).skip(1)[0] == parameters[2]);
    assert(calls.skip(1).skip(1).skip(1) =~= reads);
}

/// A client that hands out the input in two pieces is asked for what is missing, at most 32 bytes at
/// a time, and the pieces make the input in order.
pub proof fn law_input_in_chunks(calls: Seq<Call>, want: nat, data: Seq<u8>, call: Call, count: usize)
    requires
        ccm::chunks_read(calls, want) == Some(data),
        data.len() < want,
        call is Read,
        call->Read_port is Input,
        call->count == Ok::<usize, ErrorCode>(count),
        call->Read_buffer.len() == (if want - data.len() < 32 {
            want - data.len()
        } else {
            32
        }),
        0 < count <= call->Read_buffer.len(),
    ensures
        ccm::chunks_read(calls.push(call), want) == Some(
            data + call->Read_buffer.take(count as int),
        ),
        data.len() + count == want ==> ccm::chunks_outcome(calls.push(call), want) == Some(
            Ok::<Seq<u8>, ErrorCode>(data + call->Read_buffer.take(count as int)),
        ),
{
    assert(calls.push(call).drop_last() =~= calls);
}

/// What an encrypted packet hands out is as many bytes as the payload and the tag have, from behind
/// the header of the packet that the peripheral wrote; what a decrypted one hands out is as many as
/// the payload has.
pub proof fn law_output_of_a_packet(driver: CcmView, registers: CcmRegisters, data: Seq<u8>, i: int)
    requires
        driver.wf(),
        data.len() == CCM_DATA_SIZE,
        0 <= i < driver.output(data).len(),
    ensures
        driver.operation is Encrypt ==> driver.output(data).len() == driver.len + 4,
        driver.operation is Decrypt ==> driver.output(data).len() == driver.len,
        ({
            let base = driver.registers.base;
            let started = registers.started(base, driver.operation is Decrypt);
            driver.output(data)[i] == data[started.outptr - base + i + (
            if driver.operation is Encrypt {
                3int
            } else {
                0
            })]
        }),
{
}

} // verus!
