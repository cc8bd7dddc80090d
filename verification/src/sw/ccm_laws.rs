//! Software CCM computes CCM: what it hands out is the sealed message, or the message behind a
//! sealed one whose tag is right.
use crate::driver_mutex::MutexView;
use crate::error::ErrorCode;
use crate::hil::cipher::Operation;
use crate::hil::trace;
use crate::hil::trace::{Call, Port};
use crate::sw::bytes;
use crate::sw::ccm::{CcmView, MacStage, Next, State};
use crate::sw::ccm_math;
use crate::sw::session::SessionView;
use vstd::prelude::*;

verus! {

/// The plaintext of the operation.
pub open spec fn plaintext(view: CcmView, e: spec_fn(Seq<u8>) -> Seq<u8>) -> Seq<u8> {
    match view.operation {
        Operation::Encrypt => view.input,
        Operation::Decrypt => ccm_math::masked(
            e,
            view.nonce,
            view.input.take(view.len as int),
            view.len as int,
        ),
    }
}

/// All of the associated data has come.
pub open spec fn aad_complete(view: CcmView) -> bool {
    view.associated_data.len() == view.aad_len
}

/// The unmasked tag of the input is in place when decrypting.
pub open spec fn tag_loaded(view: CcmView, e: spec_fn(Seq<u8>) -> Seq<u8>) -> bool {
    view.operation is Decrypt ==> view.tag.take(view.tag_len as int) == bytes::xor(
        view.input.skip(view.len as int),
        e(ccm_math::counter_block(view.nonce, 0)),
    )
}

/// The workspace holds the plaintext.
pub open spec fn holds_plaintext(view: CcmView, e: spec_fn(Seq<u8>) -> Seq<u8>) -> bool {
    view.workspace.take(view.len as int) == plaintext(view, e)
}

/// The chaining value once `blocks` blocks of the encoded associated data are authenticated.
pub open spec fn chain_in_aad(view: CcmView, e: spec_fn(Seq<u8>) -> Seq<u8>, blocks: nat) -> Seq<
    u8,
> {
    ccm_math::cbc_mac(
        e,
        e(ccm_math::first_block(view.nonce, view.len, view.aad_len, view.tag_len)),
        ccm_math::aad_prefix(view.aad_len) + view.associated_data,
        blocks,
    )
}

/// The chaining value once `blocks` blocks of the plaintext are authenticated.
pub open spec fn chain_in_payload(
    view: CcmView,
    e: spec_fn(Seq<u8>) -> Seq<u8>,
    blocks: nat,
) -> Seq<u8> {
    ccm_math::cbc_mac(
        e,
        ccm_math::mac_of_header(e, view.nonce, view.associated_data, view.len, view.tag_len),
        plaintext(view, e),
        blocks,
    )
}

/// What the operation has computed while the driver works on a block with the cipher `e`.
pub open spec fn on_track(view: CcmView, e: spec_fn(Seq<u8>) -> Seq<u8>) -> bool {
    &&& view.input.len() == view.input_len()
    &&& match view.state {
        State::Mac => {
            &&& holds_plaintext(view, e)
            &&& tag_loaded(view, e)
            &&& e(view.session.input) == match view.mac_stage {
                MacStage::B0 => chain_in_aad(view, e, 0),
                MacStage::AssociatedData => chain_in_aad(view, e, view.aad_offset / 16),
                MacStage::Payload => chain_in_payload(
                    view,
                    e,
                    bytes::block_count(view.payload_offset),
                ),
            }
        },
        State::Tag => {
            &&& view.session.input == ccm_math::counter_block(view.nonce, 0)
            &&& match view.operation {
                Operation::Encrypt => {
                    &&& holds_plaintext(view, e)
                    &&& aad_complete(view)
                    &&& view.tag == ccm_math::mac(
                        e,
                        view.nonce,
                        view.associated_data,
                        view.input,
                        view.tag_len,
                    )
                },
                Operation::Decrypt => view.workspace.take((view.len + view.tag_len) as int)
                    == view.input,
            }
        },
        State::Payload => {
            &&& view.session.input == ccm_math::counter_block(
                view.nonce,
                (view.payload_offset / 16 + 1) as nat,
            )
            &&& payload_masked(view, e)
        },
        _ => true,
    }
}

/// The payload is masked up to the offset, and the tag is done.
pub open spec fn payload_masked(view: CcmView, e: spec_fn(Seq<u8>) -> Seq<u8>) -> bool {
    &&& view.workspace.take(view.len as int) == ccm_math::masked(
        e,
        view.nonce,
        view.input.take(view.len as int),
        view.payload_offset as int,
    )
    &&& tag_loaded(view, e)
    &&& view.operation is Encrypt ==> {
        &&& aad_complete(view)
        &&& view.workspace.subrange(view.len as int, (view.len + view.tag_len) as int)
            == ccm_math::tag(e, view.nonce, view.associated_data, view.input, view.tag_len)
    }
}

/// What the operation has computed when `next` is to follow.
pub open spec fn on_track_for(view: CcmView, next: Next, e: spec_fn(Seq<u8>) -> Seq<u8>) -> bool {
    &&& view.input.len() == view.input_len()
    &&& match next {
        Next::Mac => holds_plaintext(view, e) && tag_loaded(view, e),
        Next::AssociatedData => {
            &&& holds_plaintext(view, e)
            &&& tag_loaded(view, e)
            &&& view.mac == chain_in_aad(view, e, view.aad_offset / 16)
        },
        Next::MacPayload => {
            &&& holds_plaintext(view, e)
            &&& tag_loaded(view, e)
            &&& view.mac == chain_in_payload(view, e, view.payload_offset / 16)
        },
        Next::Tag => match view.operation {
            Operation::Encrypt => {
                &&& holds_plaintext(view, e)
                &&& aad_complete(view)
                &&& view.tag == ccm_math::mac(
                    e,
                    view.nonce,
                    view.associated_data,
                    view.input,
                    view.tag_len,
                )
            },
            Operation::Decrypt => view.workspace.take((view.len + view.tag_len) as int)
                == view.input,
        },
        Next::Payload => payload_masked(view, e),
        Next::Output { len } => aad_complete(view) && match view.operation {
            Operation::Encrypt => view.workspace.take(len as int) == ccm_math::sealed(
                e,
                view.nonce,
                view.associated_data,
                view.input,
                view.tag_len,
            ),
            Operation::Decrypt => ccm_math::unsealed(
                e,
                view.nonce,
                view.associated_data,
                view.input,
                view.tag_len,
            ) == Some(view.workspace.take(len as int)),
        },
        Next::Reject => aad_complete(view) && view.operation is Decrypt && ccm_math::unsealed(
            e,
            view.nonce,
            view.associated_data,
            view.input,
            view.tag_len,
        ) is None,
    }
}

/// An operation that has its input starts on track.
pub proof fn law_initialized_on_track(
    view: CcmView,
    calls: Seq<Call>,
    later: CcmView,
    e: spec_fn(Seq<u8>) -> Seq<u8>,
)
    requires
        view.is_requested(),
        view.initialized(calls) == Some(Ok::<CcmView, ErrorCode>(later)),
    ensures
        on_track_for(later, later.first(), e),
{
    broadcast use trace::lemma_gather_len;

    assert(later.workspace.take(later.input.len() as int) =~= later.input);
}

/// Handing a block to the driver keeps an operation on track.
pub proof fn law_begun_on_track(
    view: CcmView,
    next: Next,
    part: Seq<u8>,
    e: spec_fn(Seq<u8>) -> Seq<u8>,
)
    requires
        view.may(next),
        on_track_for(view, next, e),
        !(next is Output),
        !(next is Reject),
        next is AssociatedData ==> part.len() == view.aad_wanted(),
    ensures
        on_track(view.begun(next, part), e),
{
    let later = view.begun(next, part);
    match next {
        Next::AssociatedData => {
            lemma_aad_extended(view, part, e);
        },
        Next::MacPayload => {
            let n = view.payload_offset / 16;
            assert(bytes::block_count(later.payload_offset) == n + 1);
            assert(view.payload_offset % 16 == 0);
            assert(view.payload_offset == n * 16);
        },
        _ => {},
    }
}

proof fn lemma_aad_extended(view: CcmView, part: Seq<u8>, e: spec_fn(Seq<u8>) -> Seq<u8>)
    requires
        view.mac_in_order(),
        view.mac == chain_in_aad(view, e, view.aad_offset / 16),
        view.aad_offset < ccm_math::aad_padded_len(view.aad_len),
    ensures
        e(
            bytes::xor(
                bytes::block_at(
                    ccm_math::aad_prefix(view.aad_len) + view.associated_data + part,
                    view.aad_offset as int,
                ),
                view.mac,
            ),
        ) == ccm_math::cbc_mac(
            e,
            e(ccm_math::first_block(view.nonce, view.len, view.aad_len, view.tag_len)),
            ccm_math::aad_prefix(view.aad_len) + (view.associated_data + part),
            (view.aad_offset + 16) / 16,
        ),
{
    broadcast use bytes::lemma_be_bytes_len;

    let start = e(ccm_math::first_block(view.nonce, view.len, view.aad_len, view.tag_len));
    let prefix = ccm_math::aad_prefix(view.aad_len);
    let old_data = prefix + view.associated_data;
    let new_data = prefix + (view.associated_data + part);
    assert(prefix + view.associated_data + part =~= new_data);
    let n = view.aad_offset / 16;
    assert(n * 16 == view.aad_offset);
    if view.aad_offset > 0 {
        assert(old_data.len() == view.aad_offset);
    }
    assert forall|at: int| 0 <= at < n * 16 && at % 16 == 0 implies #[trigger] bytes::block_at(
        new_data,
        at,
    ) == bytes::block_at(old_data, at) by {
        assert(bytes::block_at(new_data, at) =~= bytes::block_at(old_data, at));
    }
    ccm_math::lemma_cbc_mac_prefix(e, start, new_data, old_data, n);
    assert((view.aad_offset + 16) / 16 == n + 1);
}

/// A block that the driver has encrypted keeps an operation on track. In particular, what is
/// handed out is the sealed message when encrypting, and when decrypting it is handed out exactly
/// if the tag is right.
pub proof fn law_absorbed_on_track(view: CcmView, e: spec_fn(Seq<u8>) -> Seq<u8>)
    requires
        view.wf(),
        view.is_running(),
        on_track(view, e),
        forall|block: Seq<u8>| (#[trigger] e(block)).len() == 16,
    ensures
        ({
            let (later, next) = view.absorbed(e(view.session.input));
            on_track_for(later, next, e)
        }),
{
    let output = e(view.session.input);
    let (later, next) = view.absorbed(output);
    match view.state {
        State::Mac => {
            lemma_mac_absorbed(view, e);
        },
        State::Tag => {
            lemma_tag_absorbed(view, e);
        },
        _ => {
            lemma_payload_absorbed(view, e);
        },
    }
}

proof fn lemma_mac_absorbed(view: CcmView, e: spec_fn(Seq<u8>) -> Seq<u8>)
    requires
        view.wf(),
        view.state is Mac,
        on_track(view, e),
        forall|block: Seq<u8>| (#[trigger] e(block)).len() == 16,
    ensures
        ({
            let (later, next) = view.mac_block_done(e(view.session.input));
            on_track_for(later, next, e)
        }),
{
    broadcast use bytes::lemma_be_bytes_len;

    let output = e(view.session.input);
    let (later, next) = view.mac_block_done(output);
    let padded = ccm_math::aad_padded_len(view.aad_len);
    let prefix = ccm_math::aad_prefix(view.aad_len);
    assert(holds_plaintext(later, e));
    if view.aad_offset < padded {
        assert(view.mac_stage is B0 ==> view.aad_offset / 16 == 0);
    } else {
        assert(view.aad_offset == padded);
        assert(view.aad_offset / 16 == bytes::block_count(prefix.len() + view.aad_len));
        assert(aad_complete(view));
        let header = ccm_math::mac_of_header(
            e,
            view.nonce,
            view.associated_data,
            view.len,
            view.tag_len,
        );
        if !(view.mac_stage is Payload) {
            assert(padded == 0 ==> prefix.len() + view.aad_len == 0);
            assert(output == header);
            assert(chain_in_payload(view, e, 0) == header);
        }
        if view.payload_offset < view.len {
            assert(bytes::block_count(view.payload_offset) == view.payload_offset / 16);
        } else {
            assert(view.payload_offset == view.len);
            let payload = plaintext(view, e);
            assert(payload.len() == view.len);
            let mac = ccm_math::mac(e, view.nonce, view.associated_data, payload, view.tag_len);
            assert(output == mac);
            if view.operation is Decrypt {
                lemma_tag_agrees(view, e, mac);
            }
        }
    }
}

proof fn lemma_tag_agrees(view: CcmView, e: spec_fn(Seq<u8>) -> Seq<u8>, mac: Seq<u8>)
    requires
        view.wf(),
        view.is_running(),
        view.operation is Decrypt,
        view.input.len() == view.len + view.tag_len,
        tag_loaded(view, e),
        aad_complete(view),
        holds_plaintext(view, e),
        mac.len() == 16,
        mac == ccm_math::mac(
            e,
            view.nonce,
            view.associated_data,
            plaintext(view, e),
            view.tag_len,
        ),
        forall|block: Seq<u8>| (#[trigger] e(block)).len() == 16,
    ensures
        ccm_math::unsealed(
            e,
            view.nonce,
            view.associated_data,
            view.input,
            view.tag_len,
        ) == (if mac.take(view.tag_len as int) == view.tag.take(view.tag_len as int) {
            Some(view.workspace.take(view.len as int))
        } else {
            None
        }),
{
    let n = view.tag_len as int;
    let mask = e(ccm_math::counter_block(view.nonce, 0));
    let given = view.input.skip(view.len as int);
    let right = bytes::xor(mac.take(n), mask.take(n));
    assert(view.tag.take(n) == bytes::xor(given, mask));
    bytes::lemma_xor_twice(given, mask);
    bytes::lemma_xor_twice(mac.take(n), mask);
    assert(bytes::xor(mac.take(n), mask) =~= right);
    if mac.take(n) == view.tag.take(n) {
        assert(right == bytes::xor(bytes::xor(given, mask), mask));
    }
    if right == given {
        assert(mac.take(n) == bytes::xor(given, mask));
    }
    assert(view.input.len() - view.tag_len == view.len);
}

proof fn lemma_tag_absorbed(view: CcmView, e: spec_fn(Seq<u8>) -> Seq<u8>)
    requires
        view.wf(),
        view.state is Tag,
        on_track(view, e),
        forall|block: Seq<u8>| (#[trigger] e(block)).len() == 16,
    ensures
        ({
            let (later, next) = view.tag_block_done(e(view.session.input));
            on_track_for(later, next, e)
        }),
{
    let mask = e(view.session.input);
    let (later, next) = view.tag_block_done(mask);
    let len = view.len as int;
    let n = view.tag_len as int;
    assert(ccm_math::masked(e, view.nonce, view.input.take(len), 0) =~= view.input.take(len));
    match view.operation {
        Operation::Encrypt => {
            assert(view.input.take(len) =~= view.input);
            assert(later.workspace.take(len) =~= view.workspace.take(len));
            let tag = ccm_math::tag(e, view.nonce, view.associated_data, view.input, view.tag_len);
            assert(bytes::xor(view.tag.take(n), mask) =~= tag);
            assert(later.workspace.subrange(len, len + n) =~= tag);
            assert(payload_masked(later, e));
            if view.len == 0 {
                assert(later.workspace.take(n) =~= later.workspace.subrange(0, n));
                assert(ccm_math::sealed(
                    e,
                    view.nonce,
                    view.associated_data,
                    view.input,
                    view.tag_len,
                ) =~= tag);
            }
        },
        Operation::Decrypt => {
            assert(view.workspace.subrange(len, len + n) =~= view.input.skip(len));
            assert(later.workspace.take(len) =~= view.input.take(len));
            assert(later.tag.take(n) =~= bytes::xor(view.input.skip(len), mask));
            if view.len == 0 {
                assert(plaintext(later, e) =~= later.workspace.take(len));
            }
        },
    }
}

proof fn lemma_payload_absorbed(view: CcmView, e: spec_fn(Seq<u8>) -> Seq<u8>)
    requires
        view.wf(),
        view.state is Payload,
        on_track(view, e),
        forall|block: Seq<u8>| (#[trigger] e(block)).len() == 16,
    ensures
        ({
            let (later, next) = view.payload_block_done(e(view.session.input));
            on_track_for(later, next, e)
        }),
{
    let output = e(view.session.input);
    let (later, next) = view.payload_block_done(output);
    let len = view.len as int;
    let n = view.tag_len as int;
    let offset = view.payload_offset as int;
    let data = view.input.take(len);
    let masked = ccm_math::masked(e, view.nonce, data, later.payload_offset as int);
    assert(later.workspace.take(len) =~= masked) by {
        assert forall|i: int| 0 <= i < len implies #[trigger] later.workspace.take(len)[i]
            == masked[i] by {
            assert(view.workspace.take(len)[i] == view.workspace[i]);
            assert(view.workspace.take(len)[i] == ccm_math::masked(e, view.nonce, data, offset)[i]);
            if offset <= i < later.payload_offset {
                assert(i / 16 == offset / 16);
                assert(i % 16 == i - offset);
            }
        }
    }
    if view.operation is Encrypt {
        assert(later.workspace.subrange(len, len + n) =~= view.workspace.subrange(len, len + n));
        assert(data =~= view.input);
        if later.payload_offset == view.len {
            let tag = ccm_math::tag(e, view.nonce, view.associated_data, view.input, view.tag_len);
            assert(later.workspace.take(len + n) =~= masked + tag) by {
                assert(later.workspace.take(len + n) =~= later.workspace.take(len)
                    + later.workspace.subrange(len, len + n));
            }
        }
    }
}

/// The parameters of an operation do not change while it runs.
pub open spec fn same_operation(view: CcmView, later: CcmView) -> bool {
    &&& later.operation == view.operation
    &&& later.len == view.len
    &&& later.aad_len == view.aad_len
    &&& later.tag_len == view.tag_len
    &&& later.nonce == view.nonce
    &&& later.input == view.input
}

/// What the calls to a client that one completed block causes may be: nothing but the sealed
/// message is handed out when encrypting, and nothing but the authenticated plaintext when
/// decrypting; an operation that goes on is on track.
pub proof fn law_ccm_computes_ccm(
    view: CcmView,
    e: spec_fn(Seq<u8>) -> Seq<u8>,
    driver_calls: Seq<Call>,
    calls: Seq<Call>,
    later: CcmView,
    mutex: MutexView,
    later_mutex: MutexView,
)
    requires
        view.wf(),
        view.is_running(),
        on_track(view, e),
        forall|block: Seq<u8>| (#[trigger] e(block)).len() == 16,
        view.session.completion == Some(Ok::<(), ErrorCode>(())),
        view.session.exchanged(),
        view.session.output == e(view.session.input),
        view.resumed(driver_calls, calls, later, mutex, later_mutex),
    ensures
        same_operation(view, later),
        !(later.state is Idle) ==> on_track(later, e),
        forall|i: int|
            0 <= i < calls.len() && (#[trigger] calls[i]) is Write ==> aad_complete(later) && (
            match view.operation {
                Operation::Encrypt => calls[i]->data == ccm_math::sealed(
                    e,
                    view.nonce,
                    later.associated_data,
                    view.input,
                    view.tag_len,
                ),
                Operation::Decrypt => ccm_math::unsealed(
                    e,
                    view.nonce,
                    later.associated_data,
                    view.input,
                    view.tag_len,
                ) == Some(calls[i]->data),
            }),
{
    let clean = CcmView {
        session: SessionView { completion: None, ..view.session },
        ..view
    };
    assert(clean.wf());
    assert(on_track(clean, e));
    law_absorbed_on_track(clean, e);
    let (after, next) = clean.absorbed(view.session.output);
    match next {
        Next::Output { len } => {
            let ends = calls.skip(1);
            let result = calls[0]->Write_result;
            assert(after.ended(result, ends, later, mutex, later_mutex));
            assert(ends.len() == 1 && ends[0] is Done);
            assert forall|i: int| 0 <= i < calls.len() && (#[trigger] calls[i]) is Write implies i
                == 0 by {
                if i > 0 {
                    assert(ends[i - 1] == calls[i]);
                }
            }
        },
        Next::Reject => {},
        Next::AssociatedData => {
            let n = choose|n: int|
                0 <= n <= calls.len() && match trace::gather_outcome(
                    #[trigger] calls.take(n),
                    Port::AssociatedData,
                    after.aad_wanted(),
                ) {
                    Some(Ok(part)) => after.begun(next, part).launched(
                        driver_calls,
                        calls.skip(n),
                        later,
                        mutex,
                        later_mutex,
                    ),
                    Some(Err(error)) => driver_calls.len() == 0 && after.ended(
                        Err(error),
                        calls.skip(n),
                        later,
                        mutex,
                        later_mutex,
                    ),
                    None => false,
                };
            let reads = calls.take(n);
            let ends = calls.skip(n);
            trace::lemma_reads_only(reads, Port::AssociatedData, after.aad_wanted());
            assert(ends.len() == 0 || ends.len() == 1 && ends[0] is Done);
            assert forall|i: int| 0 <= i < calls.len() implies !((#[trigger] calls[i]) is Write) by {
                if i < n {
                    assert(reads[i] == calls[i]);
                } else {
                    assert(ends[i - n] == calls[i]);
                }
            }
            if let Some(Ok(part)) = trace::gather_outcome(
                reads,
                Port::AssociatedData,
                after.aad_wanted(),
            ) {
                lemma_absorbed_may(clean, view.session.output);
                trace::lemma_gather_len(reads, Port::AssociatedData, after.aad_wanted());
                law_begun_on_track(after, next, part, e);
            }
        },
        _ => {
            lemma_absorbed_may(clean, view.session.output);
            law_begun_on_track(after, next, Seq::empty(), e);
        },
    }
}

proof fn lemma_absorbed_may(view: CcmView, output: Seq<u8>)
    requires
        view.wf(),
        view.is_running(),
        output.len() == 16,
    ensures
        view.absorbed(output).0.may(view.absorbed(output).1) || view.absorbed(output).1 is Output,
{
    let padded = ccm_math::aad_padded_len(view.aad_len);
    assert(padded % 16 == 0);
}

/// While an operation waits for its driver or works, the client is told of its end exactly when it
/// ends, by the last call, and of a success only after it took the output.
pub proof fn law_client_is_told_once(
    view: CcmView,
    driver_calls: Seq<Call>,
    calls: Seq<Call>,
    later: CcmView,
    mutex: MutexView,
    later_mutex: MutexView,
)
    requires
        !(view.state is Idle),
        ({
            ||| view.resumed(driver_calls, calls, later, mutex, later_mutex)
            ||| view.readied(driver_calls, calls, later, mutex, later_mutex)
        }),
    ensures
        trace::told_once(calls, later.state is Idle),
        trace::success_after_output(calls),
{
    if view.resumed(driver_calls, calls, later, mutex, later_mutex) {
        lemma_resumed_tells(view, driver_calls, calls, later, mutex, later_mutex);
    } else {
        let held = CcmView {
            session: SessionView { guard: Some(mutex.id), ..view.session },
            ..view
        };
        let n = choose|n: int|
            0 <= n <= calls.len() && match held.initialized(#[trigger] calls.take(n)) {
                Some(Ok(view)) => view.carried_out(
                    view.first(),
                    driver_calls.skip(1),
                    calls.skip(n),
                    later,
                    mutex,
                    later_mutex,
                ),
                Some(Err(error)) => driver_calls.len() == 1 && held.stranded(calls.take(n)).ended(
                    Err(error),
                    calls.skip(n),
                    later,
                    mutex,
                    later_mutex,
                ),
                None => false,
            };
        lemma_initialized_tells_nothing(held, calls.take(n));
        if let Some(Ok(started)) = held.initialized(calls.take(n)) {
            lemma_carried_out_tells(
                started,
                started.first(),
                driver_calls.skip(1),
                calls.skip(n),
                later,
                mutex,
                later_mutex,
            );
        }
        trace::lemma_told_behind(calls, n, later.state is Idle);
    }
}

proof fn lemma_resumed_tells(
    view: CcmView,
    driver_calls: Seq<Call>,
    calls: Seq<Call>,
    later: CcmView,
    mutex: MutexView,
    later_mutex: MutexView,
)
    requires
        !(view.state is Idle),
        view.resumed(driver_calls, calls, later, mutex, later_mutex),
    ensures
        trace::told_once(calls, later.state is Idle),
        trace::success_after_output(calls),
{
    let clean = CcmView {
        session: SessionView { completion: None, ..view.session },
        ..view
    };
    if view.session.completion is Some && view.session.completion->0 is Ok
        && view.session.exchanged() && view.is_running() {
        let (after, next) = clean.absorbed(view.session.output);
        lemma_carried_out_tells(after, next, driver_calls, calls, later, mutex, later_mutex);
    }
}

/// A step tells the client of the end exactly when it ends the operation.
proof fn lemma_carried_out_tells(
    view: CcmView,
    next: Next,
    driver_calls: Seq<Call>,
    calls: Seq<Call>,
    later: CcmView,
    mutex: MutexView,
    later_mutex: MutexView,
)
    requires
        !(view.state is Idle),
        view.carried_out(next, driver_calls, calls, later, mutex, later_mutex),
    ensures
        trace::told_once(calls, later.state is Idle),
        trace::success_after_output(calls),
{
    match next {
        Next::Output { len } => {
            trace::lemma_told_after_output(calls, 1, calls[0]->Write_result);
        },
        Next::AssociatedData => {
            let n = choose|n: int|
                0 <= n <= calls.len() && match trace::gather_outcome(
                    #[trigger] calls.take(n),
                    Port::AssociatedData,
                    view.aad_wanted(),
                ) {
                    Some(Ok(part)) => view.begun(next, part).launched(
                        driver_calls,
                        calls.skip(n),
                        later,
                        mutex,
                        later_mutex,
                    ),
                    Some(Err(error)) => driver_calls.len() == 0 && view.ended(
                        Err(error),
                        calls.skip(n),
                        later,
                        mutex,
                        later_mutex,
                    ),
                    None => false,
                };
            trace::lemma_reads_only(calls.take(n), Port::AssociatedData, view.aad_wanted());
            trace::lemma_told_behind(calls, n, later.state is Idle);
        },
        _ => {},
    }
}

/// Reading what an operation needs tells the client of no end.
proof fn lemma_initialized_tells_nothing(view: CcmView, calls: Seq<Call>)
    requires
        view.initialized(calls) is Some,
    ensures
        trace::told_nothing(calls),
{
    if calls.len() > 1 {
        let rest = calls.skip(1);
        let reads = rest.skip(1);
        if rest.len() > 1 || trace::gather_outcome(reads, Port::Input, view.input_len()) is Some {
            trace::lemma_reads_only(reads, Port::Input, view.input_len());
        }
        assert forall|i: int| 0 <= i < calls.len() implies !((#[trigger] calls[i]) is Done) by {
            if i == 1 {
                assert(calls[i] == rest[0]);
            } else if i > 1 {
                assert(calls[i] == reads[i - 2]);
            }
        }
    }
}

} // verus!
