//! What a process gets enciphered or deciphered.
use crate::capsules::aes;
use crate::capsules::aes::{AesView, Mode, ModeRequest, MutexViews, State};
use crate::capsules::aes_laws;
use crate::error::ErrorCode;
use crate::grant_laws;
use crate::hil::cipher::Operation;
use vstd::prelude::*;

verus! {

/// What a process shares for an operation: key, IV, nonce, counter, input, associated data and tag to
/// be read; output, chaining IV and tag to be written.
pub struct Shared {
    pub key: Seq<u8>,
    pub iv: Seq<u8>,
    pub nonce: Seq<u8>,
    pub counter: Seq<u8>,
    pub input: Seq<u8>,
    pub associated_data: Seq<u8>,
    pub tag: Seq<u8>,
    pub output: Seq<u8>,
    pub chaining_iv: Seq<u8>,
    pub tag_room: Seq<u8>,
}

/// The process shares its buffers under the numbers that are documented.
pub open spec fn shares(driver: AesView, processid: usize, shared: Shared) -> bool {
    &&& grant_laws::lends(driver.apps, processid, 0, shared.key)
    &&& grant_laws::lends(driver.apps, processid, 1, shared.iv)
    &&& grant_laws::lends(driver.apps, processid, 2, shared.nonce)
    &&& grant_laws::lends(driver.apps, processid, 3, shared.counter)
    &&& grant_laws::lends(driver.apps, processid, 4, shared.input)
    &&& grant_laws::lends(driver.apps, processid, 5, shared.associated_data)
    &&& grant_laws::lends(driver.apps, processid, 6, shared.tag)
    &&& grant_laws::offers(driver.apps, processid, 0, shared.output)
    &&& grant_laws::offers(driver.apps, processid, 1, shared.chaining_iv)
    &&& grant_laws::offers(driver.apps, processid, 2, shared.tag_room)
}

/// Each number from 0 to 4 stands for a mode of its own, in the order in which they are documented,
/// and 0 and 1 for encryption and decryption; no other number stands for anything.
pub proof fn law_numbers_of_the_modes(value: usize)
    ensures
        aes::mode_of(0) == Ok::<Mode, ErrorCode>(Mode::Cbc),
        aes::mode_of(1) == Ok::<Mode, ErrorCode>(Mode::Ccm),
        aes::mode_of(2) == Ok::<Mode, ErrorCode>(Mode::Ctr),
        aes::mode_of(3) == Ok::<Mode, ErrorCode>(Mode::Ecb),
        aes::mode_of(4) == Ok::<Mode, ErrorCode>(Mode::Gcm),
        value > 4 ==> aes::mode_of(value) == Err::<Mode, ErrorCode>(ErrorCode::INVAL),
        aes::operation_of(0) == Ok::<Operation, ErrorCode>(Operation::Encrypt),
        aes::operation_of(1) == Ok::<Operation, ErrorCode>(Operation::Decrypt),
        value > 1 ==> aes::operation_of(value) == Err::<Operation, ErrorCode>(ErrorCode::INVAL),
{
}

/// The tag of an operation: what is to be checked, or the room for what is computed.
pub open spec fn tag_of(shared: Shared, operation: Operation) -> Seq<u8> {
    if operation is Encrypt {
        shared.tag_room
    } else {
        shared.tag
    }
}

/// What the buffers have to be for a mode, by its number: CBC an IV of a block and room for one, CCM
/// a nonce of 7 to 13 bytes and a tag of an even number of bytes from 4 to 16, CTR a nonce and a
/// counter that make up a block and of which the counter is not empty, ECB nothing, and GCM an IV of
/// 12 bytes and a tag of 4, 8, or 12 to 16 bytes.
pub open spec fn fits(shared: Shared, mode_value: usize, operation: Operation) -> bool {
    let tag = tag_of(shared, operation).len();
    if mode_value == 0 {
        shared.iv.len() == 16 && shared.chaining_iv.len() >= 16
    } else if mode_value == 1 {
        7 <= shared.nonce.len() <= 13 && 4 <= tag <= 16 && tag % 2 == 0
    } else if mode_value == 2 {
        shared.counter.len() > 0 && shared.nonce.len() + shared.counter.len() == 16
    } else if mode_value == 3 {
        true
    } else {
        shared.iv.len() == 12 && (tag == 4 || tag == 8 || 12 <= tag <= 16)
    }
}

/// A request of a process that shares its buffers is accepted exactly if the driver is idle and
/// registered, the numbers stand for a mode and an operation, the key has 16 bytes, the output has
/// room for the input, what the mode needs besides fits, and the mutex of the mode takes the request;
/// however long the input and the associated data.
pub proof fn law_what_is_accepted(
    driver: AesView,
    processid: usize,
    mode_value: usize,
    operation_value: usize,
    mutexes: MutexViews,
    shared: Shared,
)
    requires
        shares(driver, processid, shared),
    ensures
        ({
            let result = driver.start_result(processid, mode_value, operation_value, mutexes);
            let ready = driver.state is Idle && driver.handles.all();
            let known = mode_value <= 4 && operation_value <= 1;
            let operation = if operation_value == 0 {
                Operation::Encrypt
            } else {
                Operation::Decrypt
            };
            let mode = aes::mode_of(mode_value)->Ok_0;
            let room = shared.input.len() <= shared.output.len();
            &&& result is Ok <==> {
                &&& ready && known && shared.key.len() == 16 && room
                &&& fits(shared, mode_value, operation)
                &&& mutexes.of(mode).request_result(driver.handles.of(mode)->0) is Ok
            }
            &&& !(driver.state is Idle) ==> result == Err::<(), ErrorCode>(ErrorCode::BUSY)
            &&& driver.state is Idle && !ready ==> result == Err::<(), ErrorCode>(ErrorCode::OFF)
            &&& ready && !known ==> result == Err::<(), ErrorCode>(ErrorCode::INVAL)
            &&& ready && known && shared.key.len() != 16 ==> result == Err::<(), ErrorCode>(
                ErrorCode::INVAL,
            )
            &&& ready && known && shared.key.len() == 16 && !room ==> result == Err::<
                (),
                ErrorCode,
            >(ErrorCode::SIZE)
            &&& ready && known && shared.key.len() == 16 && room && !fits(
                shared,
                mode_value,
                operation,
            ) ==> result == Err::<(), ErrorCode>(ErrorCode::INVAL)
        }),
{
    aes_laws::law_tag_lengths(shared.tag.len() as usize);
    aes_laws::law_tag_lengths(shared.tag_room.len() as usize);
}

/// What a request to a mode says, as numbers: how many bytes of input, how many of associated data,
/// how many bits of tag, and whether to encrypt.
pub open spec fn asks(
    request: ModeRequest,
    mode: Mode,
    len: nat,
    associated_data_len: nat,
    tag_bits: nat,
    operation: Operation,
) -> bool {
    match request {
        ModeRequest::Cbc { len: l, operation: o } => mode is Cbc && l == len && o == operation,
        ModeRequest::Ctr { len: l, operation: o } => mode is Ctr && l == len && o == operation,
        ModeRequest::Ecb { len: l, operation: o } => mode is Ecb && l == len && o == operation,
        ModeRequest::Ccm { len: l, associated_data_len: a, tag_len, operation: o } => {
            &&& mode is Ccm && l == len && o == operation
            &&& a == associated_data_len
            &&& tag_len.bits() == tag_bits
        },
        ModeRequest::Gcm { len: l, associated_data_len: a, tag_len, operation: o } => {
            &&& mode is Gcm && l == len && o == operation
            &&& a == associated_data_len
            &&& tag_len.bits() == tag_bits
        },
    }
}

/// An operation that is accepted works on all that the process shares: the mode that was asked for is
/// asked to do what was asked for, on exactly as many bytes as the input has, with exactly as many
/// bytes of associated data as there are, and with a tag of exactly the length of its buffer.
pub proof fn law_whole_buffers_are_worked_on(
    driver: AesView,
    processid: usize,
    mode_value: usize,
    operation_value: usize,
    mutexes: MutexViews,
    shared: Shared,
    request: Option<ModeRequest>,
)
    requires
        shares(driver, processid, shared),
        driver.start_result(processid, mode_value, operation_value, mutexes) is Ok,
        driver.begun(
            processid,
            aes::mode_of(mode_value)->Ok_0,
            aes::operation_of(operation_value)->Ok_0,
        ).request(aes::mode_of(mode_value)->Ok_0, request),
    ensures
        ({
            let mode = aes::mode_of(mode_value)->Ok_0;
            let operation = aes::operation_of(operation_value)->Ok_0;
            let begun = driver.begun(processid, mode, operation);
            let tagged = mode is Ccm || mode is Gcm;
            &&& begun.state == (State::Waiting { processid, mode })
            &&& begun.operation == operation
            &&& begun.apps == driver.apps
            &&& begun.lengths.input == shared.input.len()
            &&& begun.lengths.associated_data == (if tagged {
                shared.associated_data.len()
            } else {
                0
            })
            &&& begun.lengths.tag == (if tagged {
                tag_of(shared, operation).len()
            } else {
                0
            })
            &&& begun.input_offset == 0
            &&& begun.associated_data_offset == 0
            &&& begun.output_offset == 0
            &&& begun.ccm_output_offset == 0
            &&& request is Some
            &&& asks(
                request->0,
                mode,
                shared.input.len(),
                shared.associated_data.len(),
                8 * tag_of(shared, operation).len(),
                operation,
            )
        }),
{
    law_what_is_accepted(
        driver,
        processid,
        mode_value,
        operation_value,
        mutexes,
        shared,
    );
    law_numbers_of_the_modes(mode_value);
    aes_laws::law_tag_lengths(shared.tag.len() as usize);
    aes_laws::law_tag_lengths(shared.tag_room.len() as usize);
}

/// What a mode that works for a process is handed when it asks: the key, the IV and the tag where
/// they have the length that it asks for, the nonce and the counter where they are no longer, and of
/// input and associated data what comes next.
pub proof fn law_mode_is_handed_the_buffers(
    driver: AesView,
    processid: usize,
    shared: Shared,
    len: nat,
)
    requires
        shares(driver, processid, shared),
        driver.state == (State::Active { processid }),
        len > 0,
    ensures
        driver.exact(aes::RO_KEY, len) == (if shared.key.len() == len {
            Ok::<Seq<u8>, ErrorCode>(shared.key)
        } else {
            Err(ErrorCode::SIZE)
        }),
        driver.exact(aes::RO_IV, len) == (if shared.iv.len() == len {
            Ok::<Seq<u8>, ErrorCode>(shared.iv)
        } else {
            Err(ErrorCode::SIZE)
        }),
        driver.exact(aes::RO_TAG, len) == (if shared.tag.len() == len {
            Ok::<Seq<u8>, ErrorCode>(shared.tag)
        } else {
            Err(ErrorCode::SIZE)
        }),
        driver.whole(aes::RO_NONCE, len) == (if shared.nonce.len() <= len {
            Ok::<Seq<u8>, ErrorCode>(shared.nonce)
        } else {
            Err(ErrorCode::SIZE)
        }),
        driver.whole(aes::RO_COUNTER, len) == (if shared.counter.len() <= len {
            Ok::<Seq<u8>, ErrorCode>(shared.counter)
        } else {
            Err(ErrorCode::SIZE)
        }),
        0 < shared.input.len() <= len ==> driver.part(aes::RO_INPUT, 0, len) == Ok::<
            Seq<u8>,
            ErrorCode,
        >(shared.input),
        0 < shared.associated_data.len() <= len ==> driver.part(
            aes::RO_ASSOCIATED_DATA,
            0,
            len,
        ) == Ok::<Seq<u8>, ErrorCode>(shared.associated_data),
{
    assert(shared.input.subrange(0, shared.input.len() as int) =~= shared.input);
    assert(shared.associated_data.subrange(0, shared.associated_data.len() as int)
        =~= shared.associated_data);
}

/// What a mode hands back lands in the buffer for it: payload in the output, the last block of CBC in
/// the chaining IV, and the tag of GCM in the room for the tag, each from its first byte on, and no
/// other buffer of any process is touched.
pub proof fn law_mode_fills_the_buffers(
    driver: AesView,
    processid: usize,
    shared: Shared,
    data: Seq<u8>,
)
    requires
        shares(driver, processid, shared),
        driver.state == (State::Active { processid }),
        driver.output_offset == 0,
    ensures
        data.len() <= shared.output.len() ==> {
            let (after, result) = driver.output(data);
            &&& result is Ok
            &&& after.output_offset == data.len()
            &&& shares(
                after,
                processid,
                Shared { output: data + shared.output.skip(data.len() as int), ..shared },
            )
        },
        data.len() > shared.output.len() ==> driver.output(data).1 == Err::<(), ErrorCode>(
            ErrorCode::SIZE,
        ),
        data.len() <= shared.chaining_iv.len() ==> shares(
            driver.written(aes::RW_IV, 0, data),
            processid,
            Shared { chaining_iv: data + shared.chaining_iv.skip(data.len() as int), ..shared },
        ),
        driver.write_result(aes::RW_IV, 0, data.len()) is Ok <==> data.len()
            <= shared.chaining_iv.len(),
        data.len() <= shared.tag_room.len() ==> shares(
            driver.written(aes::RW_TAG, 0, data),
            processid,
            Shared { tag_room: data + shared.tag_room.skip(data.len() as int), ..shared },
        ),
        driver.write_result(aes::RW_TAG, 0, data.len()) is Ok <==> data.len()
            <= shared.tag_room.len(),
{
    grant_laws::law_write_changes_one_place(
        driver.apps,
        processid,
        aes::RW_OUTPUT,
        shared.output,
        0,
        data,
        processid as int,
    );
    grant_laws::law_write_changes_one_place(
        driver.apps,
        processid,
        aes::RW_IV,
        shared.chaining_iv,
        0,
        data,
        processid as int,
    );
    grant_laws::law_write_changes_one_place(
        driver.apps,
        processid,
        aes::RW_TAG,
        shared.tag_room,
        0,
        data,
        processid as int,
    );
    assert(shared.output.take(0) + data =~= data);
    assert(shared.chaining_iv.take(0) + data =~= data);
    assert(shared.tag_room.take(0) + data =~= data);
}

/// The length that a process is told at the end counts the payload alone: of a piece of output of CCM
/// that encrypts, as many bytes as lie before the end of the payload, and none of the tag.
pub proof fn law_ccm_tells_the_payload_length(driver: AesView, data: Seq<u8>)
    requires
        driver.operation is Encrypt,
        aes_laws::outputs_fit(driver),
        driver.ccm_output_offset + data.len() <= aes_laws::outputs(driver).len(),
        driver.output_offset + data.len() <= usize::MAX,
        aes_laws::outputs(driver).len() <= usize::MAX,
    ensures
        ({
            let (after, result) = driver.ccm_output(data);
            let payload = driver.lengths.input as int;
            let start = driver.ccm_output_offset as int;
            let end = start + data.len();
            &&& result is Ok
            &&& after.output_offset - driver.output_offset == (if end <= payload {
                data.len() as int
            } else if start < payload {
                payload - start
            } else {
                0
            })
        }),
{
    aes_laws::law_ccm_writes_payload_then_tag(driver, data);
}

/// A mode that is ready for an operation but is not the one that was asked for, or that refuses the
/// operation, ends it: the process is told the error, and the driver is idle.
pub proof fn law_process_is_told_of_a_failure(
    driver: AesView,
    processid: usize,
    mode: Mode,
    error: ErrorCode,
)
    requires
        driver.state == (State::Waiting { processid, mode }),
        processid < driver.apps.apps.len(),
        driver.apps.apps[processid as int].fault is None,
    ensures
        ({
            let ended = driver.finished(Err(error));
            let app = ended.apps.apps[processid as int];
            &&& ended.state is Idle
            &&& ended.held is None
            &&& app.upcalls.len() == driver.apps.apps[processid as int].upcalls.len() + 1
            &&& app.upcalls.last().number == 0
            &&& app.upcalls.last().status == Err::<(), ErrorCode>(error)
            &&& app.upcalls.last().arg1 == driver.output_offset
            &&& app.upcalls.last().arg2 == 0
        }),
{
}

} // verus!
