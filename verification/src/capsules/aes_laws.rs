//! What holds of the AES-128 syscall driver for every operation of a process.
use crate::capsules::aes;
use crate::capsules::aes::{
    AesView, Mode, State, AES128_KEY_SIZE, RO_INPUT, RO_KEY, RO_TAG, RW_OUTPUT, RW_TAG,
};
use crate::error::ErrorCode;
use crate::grant;
use crate::grant::{AccessError, GrantView};
use crate::hil::cipher::{CcmTagLength, GcmTagLength, Operation};
use crate::sw::bytes;
use vstd::prelude::*;

verus! {

/// The tags of CCM have an even number of bytes from 4 to 16; those of GCM have 4, 8, or 12 to 16.
pub proof fn law_tag_lengths(value: usize)
    ensures
        aes::is_ccm_tag_len(value) <==> 4 <= value <= 16 && value % 2 == 0,
        aes::is_gcm_tag_len(value) <==> value == 4 || value == 8 || 12 <= value <= 16,
{
    assert(CcmTagLength::Tag32.bits() == 32 && CcmTagLength::Tag48.bits() == 48);
    assert(CcmTagLength::Tag64.bits() == 64 && CcmTagLength::Tag80.bits() == 80);
    assert(CcmTagLength::Tag96.bits() == 96 && CcmTagLength::Tag112.bits() == 112);
    assert(CcmTagLength::Tag128.bits() == 128);
    assert(GcmTagLength::Tag32.bits() == 32 && GcmTagLength::Tag64.bits() == 64);
    assert(GcmTagLength::Tag96.bits() == 96 && GcmTagLength::Tag104.bits() == 104);
    assert(GcmTagLength::Tag112.bits() == 112 && GcmTagLength::Tag120.bits() == 120);
    assert(GcmTagLength::Tag128.bits() == 128);
    if 4 <= value <= 16 && value % 2 == 0 {
        assert(value == 4 || value == 6 || value == 8 || value == 10 || value == 12 || value == 14
            || value == 16);
    }
}

/// An operation that is accepted has a key of its length, an output with room for the input, and, in
/// a mode that authenticates, a tag of a proper length.
pub proof fn law_accepted_buffers_fit(
    apps: GrantView,
    processid: usize,
    mode: Mode,
    operation: Operation,
)
    requires
        aes::lengths_of(apps, processid, mode, operation) is Ok,
        apps.readonly(processid, RO_INPUT) matches Ok(data) ==> data.len() <= usize::MAX,
        apps.readwrite(processid, RW_OUTPUT) matches Ok(data) ==> data.len() <= usize::MAX,
        apps.readonly(processid, RO_KEY) matches Ok(data) ==> data.len() <= usize::MAX,
    ensures
        ({
            let lengths = aes::lengths_of(apps, processid, mode, operation)->Ok_0;
            let input = apps.readonly(processid, RO_INPUT);
            let output = apps.readwrite(processid, RW_OUTPUT);
            let key = apps.readonly(processid, RO_KEY);
            &&& key is Ok && key->Ok_0.len() == AES128_KEY_SIZE
            &&& input is Ok && input->Ok_0.len() == lengths.input
            &&& output is Ok && output->Ok_0.len() >= lengths.input
            &&& mode is Ccm ==> aes::is_ccm_tag_len(lengths.tag)
            &&& mode is Gcm ==> aes::is_gcm_tag_len(lengths.tag)
            &&& !aes::has_tag(mode) ==> lengths.tag == 0 && lengths.associated_data == 0
        }),
{
}

/// The buffers that input and tag come from are as long as they were when the operation began.
pub open spec fn inputs_kept(driver: AesView) -> bool {
    &&& driver.source(RO_INPUT) matches Ok(payload) && payload.len() == driver.lengths.input
    &&& driver.source(RO_TAG) matches Ok(tag) && tag.len() == driver.lengths.tag
}

/// What CCM reads for decryption is the payload and the tag behind it, from wherever it is and in
/// pieces of whatever length.
pub proof fn law_ccm_reads_payload_then_tag(driver: AesView, offset: nat, len: nat)
    requires
        inputs_kept(driver),
    ensures
        ({
            let all = driver.source(RO_INPUT)->Ok_0 + driver.source(RO_TAG)->Ok_0;
            let end = if offset + len < all.len() {
                offset + len
            } else {
                all.len()
            };
            driver.stream(offset, len) == Ok::<Seq<u8>, ErrorCode>(
                if offset < all.len() {
                    all.subrange(offset as int, end as int)
                } else {
                    Seq::empty()
                },
            )
        }),
    decreases len,
{
    let payload = driver.source(RO_INPUT)->Ok_0;
    let tag = driver.source(RO_TAG)->Ok_0;
    let all = payload + tag;
    if len > 0 && offset < all.len() {
        let part = driver.stream_part(offset, len)->Ok_0;
        let end = if offset + len < all.len() {
            offset + len
        } else {
            all.len()
        };
        if offset < payload.len() {
            let piece = bytes::least((payload.len() - offset) as nat, len);
            assert(driver.part(RO_INPUT, offset, piece) is Ok);
            assert(part =~= all.subrange(offset as int, (offset + part.len()) as int));
        } else {
            assert(driver.part(RO_TAG, (offset - payload.len()) as nat, len) is Ok);
            assert(part =~= all.subrange(offset as int, (offset + part.len()) as int));
        }
        law_ccm_reads_payload_then_tag(
            driver,
            offset + part.len(),
            (len - part.len()) as nat,
        );
        let rest = driver.stream(offset + part.len(), (len - part.len()) as nat)->Ok_0;
        assert(part + rest =~= all.subrange(offset as int, end as int));
    } else if offset < all.len() {
        assert(all.subrange(offset as int, offset as int) =~= Seq::<u8>::empty());
    }
}

/// The room for payload and tag, as one.
pub open spec fn outputs(driver: AesView) -> Seq<u8> {
    driver.sink(RW_OUTPUT)->Ok_0.take(driver.lengths.input as int) + driver.sink(RW_TAG)->Ok_0
}

/// There is room for payload and tag.
pub open spec fn outputs_fit(driver: AesView) -> bool {
    &&& driver.sink(RW_OUTPUT) matches Ok(output) && output.len() >= driver.lengths.input
    &&& driver.sink(RW_TAG) is Ok
}

/// What CCM writes for encryption goes to the output as far as the payload reaches, and behind it to
/// the tag, in pieces of whatever length: output and tag as one hold the piece where it belongs, and
/// all else as before.
pub proof fn law_ccm_writes_payload_then_tag(driver: AesView, data: Seq<u8>)
    requires
        driver.operation is Encrypt,
        outputs_fit(driver),
        driver.ccm_output_offset + data.len() <= outputs(driver).len(),
        outputs(driver).len() <= usize::MAX,
    ensures
        ({
            let (after, result) = driver.ccm_output(data);
            &&& result is Ok
            &&& outputs_fit(after)
            &&& outputs(after) == grant::overwritten(
                outputs(driver),
                driver.ccm_output_offset as int,
                data,
            )
            &&& after.ccm_output_offset == driver.ccm_output_offset + data.len()
        }),
{
    let (after, result) = driver.ccm_output(data);
    let processid = driver.processid()->Ok_0;
    let output = driver.sink(RW_OUTPUT)->Ok_0;
    let tag = driver.sink(RW_TAG)->Ok_0;
    let payload = driver.lengths.input as int;
    let offset = driver.ccm_output_offset as int;
    let room = driver.payload_room(data.len()) as int;
    assert(driver.apps.readwrite(processid, RW_OUTPUT) == Ok::<Seq<u8>, AccessError>(output));
    assert(driver.apps.readwrite(processid, RW_TAG) == Ok::<Seq<u8>, AccessError>(tag));
    let front = data.take(room);
    let back = data.skip(room);
    let first = if room > 0 {
        driver.payload_written(front)
    } else {
        driver
    };
    let written = if room > 0 {
        grant::overwritten(output, offset, front)
    } else {
        output
    };
    if room > 0 {
        grant::law_write_stays_in_its_buffer(
            driver.apps,
            processid,
            RW_OUTPUT,
            written,
            processid,
            RW_TAG,
        );
    }
    assert(first.sink(RW_OUTPUT) == Ok::<Seq<u8>, ErrorCode>(written));
    assert(first.sink(RW_TAG) == Ok::<Seq<u8>, ErrorCode>(tag));
    let all = grant::overwritten(outputs(driver), offset, data);
    if room == data.len() {
        assert(front =~= data);
        assert(written.take(payload) + tag =~= all);
    } else {
        let behind = offset + room - payload;
        let sealed = grant::overwritten(tag, behind, back);
        grant::law_write_stays_in_its_buffer(
            first.apps,
            processid,
            RW_TAG,
            sealed,
            processid,
            RW_OUTPUT,
        );
        assert(after.sink(RW_TAG) == Ok::<Seq<u8>, ErrorCode>(sealed));
        assert(after.sink(RW_OUTPUT) == Ok::<Seq<u8>, ErrorCode>(written));
        assert(front + back =~= data);
        assert(written.take(payload) + sealed =~= all);
    }
}

/// The end of an operation is told to its process once: the process gets one upcall, with the status
/// and the length of its output; no other process gets any; and an end without an operation tells
/// nobody.
pub proof fn law_process_is_told_once(
    driver: AesView,
    result: Result<(), ErrorCode>,
    again: Result<(), ErrorCode>,
    other: int,
)
    requires
        driver.state matches State::Active { processid } && driver.apps.entry(processid) is Ok,
        0 <= other < driver.apps.apps.len(),
    ensures
        ({
            let processid = driver.state->Active_processid;
            let after = driver.finished(result);
            let before = driver.apps.apps[processid as int];
            let told = after.apps.apps[processid as int];
            &&& after.state is Idle
            &&& after.held is None
            &&& told.upcalls == before.upcalls.push(
                grant::Upcall {
                    number: aes::UPCALL_DONE,
                    status: result,
                    arg1: driver.output_offset,
                    arg2: 0,
                },
            )
            &&& told.readonly == before.readonly && told.readwrite == before.readwrite
            &&& other != processid ==> after.apps.apps[other] == driver.apps.apps[other]
            &&& after.finished(again) == after
        }),
{
}

/// Output that a mode delivers piece by piece lands in the output buffer one piece behind the other.
pub proof fn law_output_in_order(driver: AesView, first: Seq<u8>, second: Seq<u8>)
    requires
        driver.sink(RW_OUTPUT) matches Ok(output) && driver.output_offset + first.len()
            + second.len() <= output.len() <= usize::MAX,
    ensures
        ({
            let (middle, a) = driver.output(first);
            let (after, b) = middle.output(second);
            &&& a is Ok
            &&& b is Ok
            &&& after.sink(RW_OUTPUT) == Ok::<Seq<u8>, ErrorCode>(
                grant::overwritten(
                    driver.sink(RW_OUTPUT)->Ok_0,
                    driver.output_offset as int,
                    first + second,
                ),
            )
            &&& after.output_offset == driver.output_offset + first.len() + second.len()
        }),
{
    let processid = driver.processid()->Ok_0;
    let output = driver.sink(RW_OUTPUT)->Ok_0;
    let offset = driver.output_offset as int;
    let (middle, a) = driver.output(first);
    let (after, b) = middle.output(second);
    let once = grant::overwritten(output, offset, first);
    let twice = grant::overwritten(once, offset + first.len(), second);
    grant::law_write_stays_in_its_buffer(
        driver.apps,
        processid,
        RW_OUTPUT,
        once,
        processid,
        RW_OUTPUT,
    );
    assert(middle.sink(RW_OUTPUT) == Ok::<Seq<u8>, ErrorCode>(once));
    grant::law_write_stays_in_its_buffer(
        middle.apps,
        processid,
        RW_OUTPUT,
        twice,
        processid,
        RW_OUTPUT,
    );
    assert(twice =~= grant::overwritten(output, offset, first + second));
}

} // verus!
