//! What the modes in software work on for a process.
use crate::capsules::aes;
use crate::capsules::aes::{AesView, Mode, ModeRequest, MutexViews, State};
use crate::capsules::aes_laws;
use crate::capsules::aes_request_laws;
use crate::capsules::aes_request_laws::Shared;
use crate::capsules::aes_software;
use crate::capsules::aes_software::SoftwareMutexes;
use crate::driver_mutex::{DriverMutexAny, Resource};
use crate::error::ErrorCode;
use crate::grant_laws;
use crate::hil::cipher::{Aes128, Ecb, Operation};
use crate::hil::trace::{Call, Observed};
use vstd::prelude::*;

verus! {

/// The mode waits for the block driver to work for `client`, on so many bytes of input, with so many
/// bytes of associated data and so many bits of tag, in the direction that is asked for; ECB, which is
/// the block driver itself, was told its client and then asked for that.
pub open spec fn works_on<E: Ecb<Aes128>>(
    mutexes: SoftwareMutexes<E>,
    mode: Mode,
    client: usize,
    len: nat,
    aad_len: nat,
    tag_bits: nat,
    operation: Operation,
) -> bool {
    match mode {
        Mode::Cbc => {
            let view = mutexes.cbc.guarded()@;
            &&& view.state is WaitingForEcb
            &&& view.session.client == Some(client)
            &&& view.len == len
            &&& view.operation == operation
        },
        Mode::Ctr => {
            let view = mutexes.ctr.guarded()@;
            &&& view.state is WaitingForEcb
            &&& view.session.client == Some(client)
            &&& view.len == len
        },
        Mode::Gcm => {
            let view = mutexes.gcm.guarded()@;
            &&& view.state is WaitingForEcb
            &&& view.session.client == Some(client)
            &&& view.len == len
            &&& view.aad_len == aad_len
            &&& 8 * view.tag_len == tag_bits
            &&& view.operation == operation
        },
        Mode::Ccm => {
            let view = mutexes.ccm.guarded()@;
            &&& view.state is WaitingForEcb
            &&& view.session.client == Some(client)
            &&& view.len == len
            &&& view.aad_len == aad_len
            &&& 8 * view.tag_len == tag_bits
            &&& view.operation == operation
        },
        Mode::Ecb => {
            let log = mutexes.ecb.guarded().log();
            &&& log.len() >= 2
            &&& log[log.len() - 2] == (Call::SetClient { client })
            &&& log.last() matches Call::EcbCrypt { len: asked, operation: what, result } && asked
                == len && what == operation && result is Ok
        },
    }
}

/// A mode that takes a request works on exactly what the request says.
pub proof fn law_mode_works_on_the_request<E: Ecb<Aes128>>(
    request: ModeRequest,
    mode: Mode,
    len: nat,
    aad_len: nat,
    tag_bits: nat,
    operation: Operation,
    client: usize,
    before: SoftwareMutexes<E>,
    after: SoftwareMutexes<E>,
    result: Result<(), ErrorCode>,
)
    requires
        aes_request_laws::asks(request, mode, len, aad_len, tag_bits, operation),
        aes_software::performed(request, client, before, after, result),
        result is Ok,
    ensures
        works_on(after, mode, client, len, aad_len, tag_bits, operation),
        mode != Mode::Cbc ==> after.cbc == before.cbc,
        mode != Mode::Ctr ==> after.ctr == before.ctr,
        mode != Mode::Gcm ==> after.gcm == before.gcm,
        mode != Mode::Ccm ==> after.ccm == before.ccm,
{
}

/// An operation of a process that is accepted, and whose mode is ready and takes it, is worked on
/// whole: the mode that the number stands for works on exactly as many bytes as the input has, with
/// exactly as much associated data and a tag of exactly the length as the process shares.
pub proof fn law_process_is_served<E: Ecb<Aes128> + Resource>(
    driver: AesView,
    processid: usize,
    mode_value: usize,
    operation_value: usize,
    mutexes: MutexViews,
    shared: Shared,
    guard: DriverMutexAny,
    client: usize,
    later: AesView,
    before: SoftwareMutexes<E>,
    after: SoftwareMutexes<E>,
)
    requires
        aes_request_laws::shares(driver, processid, shared),
        driver.start_result(processid, mode_value, operation_value, mutexes) is Ok,
        aes_software::is_of_mode::<E>(guard, aes::mode_of(mode_value)->Ok_0),
        aes_software::attended(
            driver.begun(
                processid,
                aes::mode_of(mode_value)->Ok_0,
                aes::operation_of(operation_value)->Ok_0,
            ),
            later,
            guard,
            client,
            before,
            after,
        ),
        later.state is Active,
    ensures
        ({
            let operation = aes::operation_of(operation_value)->Ok_0;
            &&& works_on(
                after,
                aes::mode_of(mode_value)->Ok_0,
                client,
                shared.input.len(),
                shared.associated_data.len(),
                8 * aes_request_laws::tag_of(shared, operation).len(),
                operation,
            )
            &&& later.processid() == Ok::<usize, ErrorCode>(processid)
            &&& later.apps == driver.apps
            &&& later.held == Some((aes::mode_of(mode_value)->Ok_0, guard.owner()))
        }),
{
    let mode = aes::mode_of(mode_value)->Ok_0;
    let operation = aes::operation_of(operation_value)->Ok_0;
    let begun = driver.begun(processid, mode, operation);
    let active = AesView { state: State::Active { processid }, ..begun };
    let (request, middle, result) = choose|
        request: ModeRequest,
        middle: SoftwareMutexes<E>,
        result: Result<(), ErrorCode>,
    |
        {
            &&& active.request(mode, Some(request))
            &&& #[trigger] aes_software::performed(request, client, before, middle, result)
            &&& if result is Ok {
                later == (AesView { held: Some((mode, guard.owner())), ..active }) && after
                    == middle
            } else {
                later == active.finished(result) && aes_software::given_back(middle, after, mode)
            }
        };
    aes_request_laws::law_whole_buffers_are_worked_on(
        driver,
        processid,
        mode_value,
        operation_value,
        mutexes,
        shared,
        Some(request),
    );
    if active.request(mode, None) {
        aes_laws::law_tag_lengths(begun.lengths.tag);
        aes_request_laws::law_what_is_accepted(
            driver,
            processid,
            mode_value,
            operation_value,
            mutexes,
            shared,
        );
    }
    law_mode_works_on_the_request(
        request,
        mode,
        shared.input.len(),
        shared.associated_data.len(),
        8 * aes_request_laws::tag_of(shared, operation).len(),
        operation,
        client,
        before,
        middle,
        result,
    );
}

/// What CCM reads for a process follows what it has read before: of the input to encrypt, and of the
/// input with the tag behind it to decrypt; and once all of that is read there is no more.
pub proof fn law_ccm_reads_in_order(
    driver: AesView,
    processid: usize,
    shared: Shared,
    len: nat,
)
    requires
        aes_request_laws::shares(driver, processid, shared),
        driver.state == (State::Active { processid }),
        driver.lengths.input == shared.input.len(),
        driver.lengths.tag == shared.tag.len(),
        shared.input.len() + shared.tag.len() <= usize::MAX,
        len > 0,
    ensures
        ({
            let all = if driver.operation is Encrypt {
                shared.input
            } else {
                shared.input + shared.tag
            };
            let offset = driver.input_offset as int;
            let piece = driver.ccm_input(len);
            if offset < all.len() {
                &&& piece is Ok
                &&& 0 < piece->Ok_0.len() <= len
                &&& all.take(offset) + piece->Ok_0 == all.take((offset + piece->Ok_0.len()) as int)
                &&& piece->Ok_0.len() < len ==> offset + piece->Ok_0.len() == all.len()
            } else {
                piece == Err::<Seq<u8>, ErrorCode>(ErrorCode::SIZE)
            }
        }),
{
    grant_laws::law_shared_buffer_is_reached(driver.apps, processid, aes::RO_INPUT, shared.input);
    grant_laws::law_shared_buffer_is_reached(driver.apps, processid, aes::RO_TAG, shared.tag);
    let offset = driver.input_offset as nat;
    if driver.operation is Encrypt {
        grant_laws::law_piece_follows(shared.input, offset, len);
    } else {
        let all = shared.input + shared.tag;
        assert(aes_laws::inputs_kept(driver));
        aes_laws::law_ccm_reads_payload_then_tag(driver, offset, len);
        if offset < all.len() {
            let piece = driver.ccm_input(len)->Ok_0;
            assert(all.take(offset as int) + piece =~= all.take((offset + piece.len()) as int));
        }
    }
}

} // verus!
