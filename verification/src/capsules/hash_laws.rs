//! What the hash driver does for a process.
use crate::capsules::hash;
use crate::capsules::hash::{HashView, State, RO_INPUT, RW_OUTPUT, UPCALL_DONE};
use crate::driver_mutex::MutexView;
use crate::error::ErrorCode;
use crate::grant;
use crate::grant::Upcall;
use vstd::prelude::*;

verus! {

/// What the process gave to be hashed is handed to the hash driver in order: the next piece begins
/// where the last one ended, and a request for all of it gets all of it.
pub proof fn law_input_in_order(driver: HashView, processid: usize, data: Seq<u8>, len: nat)
    requires
        driver.state == (State::Active { processid }),
        driver.apps.source(processid, RO_INPUT) == Ok::<Seq<u8>, ErrorCode>(data),
        driver.input_offset < data.len(),
        len > 0,
    ensures
        driver.next_input(len) is Ok,
        driver.next_input(len)->Ok_0.len() > 0,
        data.take(driver.input_offset as int) + driver.next_input(len)->Ok_0 == data.take(
            driver.input_offset + driver.next_input(len)->Ok_0.len(),
        ),
        driver.input_offset == 0 && len >= data.len() ==> driver.next_input(len)->Ok_0 == data,
{
    let offset = driver.input_offset as int;
    let piece = driver.next_input(len)->Ok_0;
    assert(data.take(offset) + piece =~= data.take(offset + piece.len()));
    if offset == 0 && len >= data.len() {
        assert(piece =~= data);
    }
}

/// What the process gave to be hashed is fed to the DMA in order: a buffer is filled with the piece
/// that follows what was fed before, and the next one follows it. A buffer that could not be filled
/// is not lost.
pub proof fn law_buffers_in_order(driver: HashView, processid: usize, data: Seq<u8>)
    requires
        driver.state == (State::Active { processid }),
        driver.apps.source(processid, RO_INPUT) == Ok::<Seq<u8>, ErrorCode>(data),
        data.len() <= usize::MAX,
        driver.data_buffer matches Some(buffer) && buffer.len() > 0,
    ensures
        ({
            let (after, result) = driver.filled();
            if driver.input_offset < data.len() {
                &&& result matches Ok((buffer, count)) && {
                    &&& 0 < count <= buffer.len()
                    &&& after.input_offset == driver.input_offset + count
                    &&& data.take(driver.input_offset as int) + buffer.take(count as int)
                        == data.take(after.input_offset as int)
                }
            } else {
                result is Err && after == driver
            }
        }),
{
    let buffer = driver.data_buffer->0;
    if driver.input_offset < data.len() {
        law_input_in_order(driver, processid, data, buffer.len());
        let piece = driver.next_input(buffer.len())->Ok_0;
        assert(grant::overwritten(buffer, 0, piece).take(piece.len() as int) =~= piece);
    }
}

/// A piece of the digest lands in the output of the process behind what has come of it, and the
/// whole digest fills it.
pub proof fn law_digest_lands_in_output(
    driver: HashView,
    processid: usize,
    digest: Seq<u8>,
    piece: Seq<u8>,
)
    requires
        driver.state == (State::Active { processid }),
        driver.apps.sink(processid, RW_OUTPUT) is Ok,
        driver.apps.sink(processid, RW_OUTPUT)->Ok_0.len() == digest.len(),
        digest.len() <= usize::MAX,
        driver.output_offset + piece.len() <= digest.len(),
        driver.apps.sink(processid, RW_OUTPUT)->Ok_0.take(driver.output_offset as int)
            == digest.take(driver.output_offset as int),
        piece == digest.subrange(
            driver.output_offset as int,
            (driver.output_offset + piece.len()) as int,
        ),
    ensures
        ({
            let (after, result) = driver.output(piece);
            let end = driver.output_offset + piece.len();
            let buffer = after.apps.sink(processid, RW_OUTPUT);
            &&& result is Ok
            &&& after.output_offset == end
            &&& buffer is Ok
            &&& buffer->Ok_0.len() == digest.len()
            &&& buffer->Ok_0.take(end as int) == digest.take(end as int)
            &&& end == digest.len() ==> buffer->Ok_0 == digest
        }),
{
    let buffer = driver.apps.sink(processid, RW_OUTPUT)->Ok_0;
    let offset = driver.output_offset as int;
    let later = grant::overwritten(buffer, offset, piece);
    let after = driver.output(piece).0;
    let end = offset + piece.len();
    grant::law_write_stays_in_its_buffer(
        driver.apps,
        processid,
        RW_OUTPUT,
        later,
        processid,
        RW_OUTPUT,
    );
    assert(driver.apps.readwrite(processid, RW_OUTPUT) is Ok);
    assert(after.apps.sink(processid, RW_OUTPUT) == Ok::<Seq<u8>, ErrorCode>(later));
    assert forall|i: int| 0 <= i < end implies later.take(end)[i] == digest.take(end)[i] by {
        if i < offset {
            assert(buffer.take(offset)[i] == digest.take(offset)[i]);
        } else {
            assert(later[i] == piece[i - offset]);
        }
    }
    assert(later.take(end) =~= digest.take(end));
    if end == digest.len() {
        assert(later.take(end) =~= later);
        assert(digest.take(end) =~= digest);
    }
}

/// An operation that is accepted is told to its process exactly once, when it ends, with the status
/// and the length of what was written; afterwards the driver is idle, holds no guard and tells no
/// one.
pub proof fn law_process_is_told_once(
    driver: HashView,
    result: Result<(), ErrorCode>,
    again: Result<(), ErrorCode>,
)
    requires
        !(driver.state is Idle),
    ensures
        ({
            let ended = driver.finished(result);
            let processid = match driver.state {
                State::Waiting { processid, .. } => processid,
                State::Active { processid } => processid,
                State::Idle => 0,
            };
            let upcall = Upcall {
                number: UPCALL_DONE,
                status: result,
                arg1: driver.output_offset,
                arg2: 0,
            };
            &&& ended.apps == driver.apps.scheduled(processid, upcall)
            &&& ended.state is Idle
            &&& ended.held is None
            &&& ended.finished(again) == ended
        }),
{
}

/// The buffers of an operation that is accepted fit: the output has the length of the digest of the
/// algorithm that was asked for.
pub proof fn law_accepted_output_fits(
    driver: HashView,
    processid: usize,
    mode_value: usize,
    mutex: MutexView,
)
    requires
        driver.start_result(processid, mode_value, mutex) is Ok,
    ensures
        hash::algorithm_of(mode_value) is Ok,
        ({
            let algorithm = hash::algorithm_of(mode_value)->Ok_0;
            let begun = driver.begun(processid, algorithm);
            &&& driver.state is Idle
            &&& begun.output_len == algorithm.digest_len()
            &&& begun.state == (State::Waiting { processid, algorithm })
            &&& begun.input_offset == 0
            &&& begun.output_offset == 0
        }),
{
}

} // verus!
