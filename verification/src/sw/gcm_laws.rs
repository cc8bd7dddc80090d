//! Software GCM computes GCM: what it hands out is the ciphertext with its tag, or the message
//! behind a ciphertext whose tag is right. Its counter never wraps.
use crate::driver_mutex::MutexView;
use crate::error::ErrorCode;
use crate::hil::cipher::Operation;
use crate::hil::trace;
use crate::hil::trace::{Call, Port};
use crate::sw::bytes;
use crate::sw::gcm::{GcmView, Next, State};
use crate::sw::gcm_math;
use crate::sw::session::SessionView;
use vstd::prelude::*;

verus! {

/// The ciphertext of the operation.
pub open spec fn ciphertext(view: GcmView, e: spec_fn(Seq<u8>) -> Seq<u8>) -> Seq<u8> {
    match view.operation {
        Operation::Encrypt => gcm_math::masked(e, view.iv, view.input, view.len as int),
        Operation::Decrypt => view.input,
    }
}

/// The tag that the client gave with a ciphertext.
pub open spec fn given_tag(view: GcmView) -> Seq<u8> {
    view.tag.take(view.tag_len as int)
}

/// The outcome of decrypting.
pub open spec fn message(view: GcmView, e: spec_fn(Seq<u8>) -> Seq<u8>) -> Option<Seq<u8>> {
    gcm_math::unsealed(e, view.iv, view.associated_data, view.input, given_tag(view))
}

/// What the operation has computed when the block of a payload is to be masked.
pub open spec fn payload_on_track(view: GcmView, e: spec_fn(Seq<u8>) -> Seq<u8>) -> bool {
    &&& view.counter == gcm_math::counter_block(view.iv, (view.offset / 16 + 2) as nat)
    &&& view.workspace.take(view.len as int) == gcm_math::masked(
        e,
        view.iv,
        view.input,
        view.offset as int,
    )
    &&& view.associated_data.len() == view.aad_len
    &&& view.hash_key == e(bytes::zeros(16))
    &&& match view.operation {
        Operation::Encrypt => view.hash == gcm_math::ghash(
            view.hash_key,
            bytes::zeros(16),
            view.associated_data,
            bytes::block_count(view.aad_len),
        ),
        Operation::Decrypt => message(view, e) is Some,
    }
}

/// What the operation has computed when the tag is to be masked.
pub open spec fn tag_on_track(view: GcmView, e: spec_fn(Seq<u8>) -> Seq<u8>) -> bool {
    &&& view.workspace.take(view.len as int) == ciphertext(view, e)
    &&& view.associated_data.len() == view.aad_len
    &&& view.hash_key == e(bytes::zeros(16))
    &&& view.hash == gcm_math::full_hash(
        e(bytes::zeros(16)),
        view.associated_data,
        ciphertext(view, e),
    )
}

/// What the operation has computed when `next` is to follow.
pub open spec fn on_track_for(view: GcmView, next: Next, e: spec_fn(Seq<u8>) -> Seq<u8>) -> bool {
    &&& view.input.len() == view.len
    &&& match next {
        Next::AssociatedData => {
            &&& view.workspace.take(view.len as int) == view.input
            &&& view.hash_key == e(bytes::zeros(16))
            &&& view.hash == bytes::zeros(16)
        },
        Next::Payload => payload_on_track(view, e),
        Next::TagMask => tag_on_track(view, e),
        Next::Output => match view.operation {
            Operation::Encrypt => {
                &&& view.workspace.take(view.len as int) == ciphertext(view, e)
                &&& view.tag.take(view.tag_len as int) == gcm_math::tag(
                    e,
                    view.iv,
                    view.associated_data,
                    ciphertext(view, e),
                    view.tag_len,
                )
            },
            Operation::Decrypt => message(view, e) == Some(view.workspace.take(view.len as int)),
        },
        Next::Reject => view.operation is Decrypt && message(view, e) is None,
        Next::Overflow => false,
    }
}

/// What the operation has computed while the driver works on a block.
pub open spec fn on_track(view: GcmView, e: spec_fn(Seq<u8>) -> Seq<u8>) -> bool {
    &&& view.input.len() == view.len
    &&& match view.state {
        State::HashKey => {
            &&& view.session.input == bytes::zeros(16)
            &&& view.workspace.take(view.len as int) == view.input
        },
        State::Payload => view.session.input == view.counter && payload_on_track(view, e),
        State::TagMask => view.session.input == gcm_math::counter_block(view.iv, 1)
            && tag_on_track(view, e),
        _ => true,
    }
}

/// An operation that has its input starts on track.
pub proof fn law_initialized_on_track(
    view: GcmView,
    calls: Seq<Call>,
    later: GcmView,
    e: spec_fn(Seq<u8>) -> Seq<u8>,
)
    requires
        view.is_requested(),
        view.initialized(calls) == Some(Ok::<GcmView, ErrorCode>(later)),
    ensures
        on_track(later.keyed(), e),
{
    broadcast use trace::lemma_gather_len;

    assert(later.workspace.take(later.len as int) =~= later.input);
}

/// Hashing the associated data keeps an operation on track.
pub proof fn law_aad_on_track(view: GcmView, aad: Seq<u8>, e: spec_fn(Seq<u8>) -> Seq<u8>)
    requires
        view.may(Next::AssociatedData),
        on_track_for(view, Next::AssociatedData, e),
        aad.len() == view.aad_len,
    ensures
        on_track_for(view.aad_hashed(aad).0, view.aad_hashed(aad).1, e),
{
    let (later, next) = view.aad_hashed(aad);
    let len = view.len as int;
    assert(gcm_math::masked(e, view.iv, view.input, 0) =~= view.input);
    if view.operation is Encrypt && view.len == 0 {
        assert(gcm_math::masked(e, view.iv, view.input, len) =~= view.input);
    }
}

/// A block that the driver has encrypted keeps an operation on track. In particular, the counter
/// can always advance, what is handed out is the ciphertext with its tag when encrypting, and when
/// decrypting the message is handed out exactly if the tag is right.
pub proof fn law_absorbed_on_track(view: GcmView, e: spec_fn(Seq<u8>) -> Seq<u8>)
    requires
        view.wf(),
        view.is_running(),
        on_track(view, e),
        forall|block: Seq<u8>| (#[trigger] e(block)).len() == 16,
    ensures
        ({
            let (later, next) = view.absorbed(e(view.session.input));
            on_track_for(later, next, e)
        }),
{
    match view.state {
        State::Payload => {
            lemma_payload_absorbed(view, e);
        },
        State::TagMask => {
            lemma_tag_absorbed(view, e);
        },
        _ => {},
    }
}

proof fn lemma_tag_absorbed(view: GcmView, e: spec_fn(Seq<u8>) -> Seq<u8>)
    requires
        view.wf(),
        view.state is TagMask,
        on_track(view, e),
        forall|block: Seq<u8>| (#[trigger] e(block)).len() == 16,
    ensures
        ({
            let (later, next) = view.tag_mask_done(e(view.session.input));
            on_track_for(later, next, e)
        }),
{
    let (later, next) = view.tag_mask_done(e(view.session.input));
    let computed = bytes::xor(view.hash, e(view.session.input));
    assert(computed.take(view.tag_len as int) == gcm_math::tag(
        e,
        view.iv,
        view.associated_data,
        ciphertext(view, e),
        view.tag_len,
    ));
    if view.operation is Decrypt {
        assert(given_tag(view).len() == view.tag_len);
        assert(gcm_math::masked(e, view.iv, view.input, 0) =~= view.input);
        if view.len == 0 {
            assert(gcm_math::masked(e, view.iv, view.input, 0) =~= view.workspace.take(0));
        }
    }
}

proof fn lemma_payload_absorbed(view: GcmView, e: spec_fn(Seq<u8>) -> Seq<u8>)
    requires
        view.wf(),
        view.state is Payload,
        on_track(view, e),
        forall|block: Seq<u8>| (#[trigger] e(block)).len() == 16,
    ensures
        ({
            let (later, next) = view.payload_block_done(e(view.session.input));
            on_track_for(later, next, e)
        }),
{
    let output = e(view.session.input);
    let (later, next) = view.payload_block_done(output);
    let step = view.masked(output);
    let len = view.len as int;
    let offset = view.offset as int;
    let n = view.offset / 16;
    let expected = gcm_math::masked(e, view.iv, view.input, step.offset as int);
    assert forall|i: int| 0 <= i < len implies #[trigger] step.workspace.take(len)[i]
        == expected[i] by {
        assert(view.workspace.take(len)[i] == view.workspace[i]);
        assert(view.workspace.take(len)[i] == gcm_math::masked(e, view.iv, view.input, offset)[i]);
        if offset <= i < step.offset {
            assert(i / 16 == offset / 16);
            assert(i % 16 == i - offset);
        }
    }
    assert(step.workspace.take(len) =~= expected);
    if step.offset < view.len {
        assert(step.offset / 16 == n + 1);
        assert(n + 2 <= bytes::block_count(view.len));
        bytes::lemma_be_bytes_len((n + 2) as nat, 4);
        assert(view.counter.skip(12) =~= bytes::be_bytes((n + 2) as nat, 4));
        assert(view.counter.take(12) =~= view.iv);
        assert(bytes::pow256(4) == 0x1_0000_0000) by {
            reveal_with_fuel(bytes::pow256, 5);
        }
        bytes::law_be_round_trip((n + 2) as nat, 4);
    } else {
        assert(step.offset == view.len);
    }
}

/// What the calls to a client that one completed block causes may be: when encrypting, nothing but
/// the ciphertext and its tag is handed out; when decrypting, nothing but the message behind a
/// ciphertext whose tag is right. An operation that goes on is on track.
pub proof fn law_gcm_computes_gcm(
    view: GcmView,
    e: spec_fn(Seq<u8>) -> Seq<u8>,
    driver_calls: Seq<Call>,
    calls: Seq<Call>,
    later: GcmView,
    mutex: MutexView,
    later_mutex: MutexView,
)
    requires
        view.wf(),
        view.is_running(),
        on_track(view, e),
        forall|block: Seq<u8>| (#[trigger] e(block)).len() == 16,
        view.session.completion == Some(Ok::<(), ErrorCode>(())),
        view.session.exchanged(),
        view.session.output == e(view.session.input),
        view.resumed(driver_calls, calls, later, mutex, later_mutex),
    ensures
        later.operation == view.operation && later.len == view.len && later.aad_len
            == view.aad_len && later.tag_len == view.tag_len && later.iv == view.iv && later.input
            == view.input,
        !(later.state is Idle) ==> on_track(later, e),
        forall|i: int|
            0 <= i < calls.len() && (#[trigger] calls[i]) is Write ==> match view.operation {
                Operation::Encrypt => calls[i]->data == (match calls[i]->Write_port {
                    Port::Output => ciphertext(view, e),
                    _ => gcm_math::tag(
                        e,
                        view.iv,
                        view.associated_data,
                        ciphertext(view, e),
                        view.tag_len,
                    ),
                }),
                Operation::Decrypt => message(view, e) == Some(calls[i]->data),
            },
{
    let clean = GcmView { session: SessionView { completion: None, ..view.session }, ..view };
    assert(clean.wf());
    assert(on_track(clean, e));
    law_absorbed_on_track(clean, e);
    let (after, next) = clean.absorbed(view.session.output);
    assert(after.carried_out(next, driver_calls, calls, later, mutex, later_mutex));
    match next {
        Next::Output => {
            let first = calls.skip(1);
            let second = calls.skip(2);
            let failed = calls[0]->Write_result is Err || view.operation is Decrypt;
            if failed {
                assert(first.len() == 1 && first[0] is Done);
            } else {
                assert(second.len() == 1 && second[0] is Done);
            }
            assert forall|i: int| 0 <= i < calls.len() && (#[trigger] calls[i]) is Write implies i
                == 0 || (i == 1 && !failed) by {
                if i > 0 {
                    assert(first[i - 1] == calls[i]);
                }
                if i > 1 {
                    assert(second[i - 2] == calls[i]);
                }
            }
        },
        Next::AssociatedData => {
            let (n, outcome) = choose|n: int, outcome: Result<Seq<u8>, ErrorCode>|
                0 <= n <= calls.len() && #[trigger] trace::blocks_outcome(
                    calls.take(n),
                    Port::AssociatedData,
                    after.aad_len,
                    outcome,
                ) && match outcome {
                    Ok(aad) => {
                        let (view, next) = after.aad_hashed(aad);
                        view.begun(next).launched(
                            driver_calls,
                            calls.skip(n),
                            later,
                            mutex,
                            later_mutex,
                        )
                    },
                    Err(error) => driver_calls.len() == 0 && GcmView {
                        hash: later.hash,
                        ..after
                    }.ended(Err(error), calls.skip(n), later, mutex, later_mutex),
                };
            let reads = calls.take(n);
            let ends = calls.skip(n);
            trace::lemma_blocks_reads_only(reads, Port::AssociatedData, after.aad_len, outcome);
            assert(ends.len() == 0 || ends.len() == 1 && ends[0] is Done);
            assert forall|i: int| 0 <= i < calls.len() implies !((#[trigger] calls[i]) is Write) by {
                if i < n {
                    assert(reads[i] == calls[i]);
                } else {
                    assert(ends[i - n] == calls[i]);
                }
            }
            if let Ok(aad) = outcome {
                law_aad_on_track(after, aad, e);
            }
        },
        _ => {},
    }
}

/// While an operation waits for its driver or works, the client is told of its end exactly when it
/// ends, by the last call, and of a success only after it took the output.
pub proof fn law_client_is_told_once(
    view: GcmView,
    driver_calls: Seq<Call>,
    calls: Seq<Call>,
    later: GcmView,
    mutex: MutexView,
    later_mutex: MutexView,
)
    requires
        !(view.state is Idle),
        ({
            ||| view.resumed(driver_calls, calls, later, mutex, later_mutex)
            ||| view.readied(driver_calls, calls, later, mutex, later_mutex)
        }),
    ensures
        trace::told_once(calls, later.state is Idle),
        trace::success_after_output(calls),
{
    if view.resumed(driver_calls, calls, later, mutex, later_mutex) {
        lemma_resumed_tells(view, driver_calls, calls, later, mutex, later_mutex);
    } else {
        let held = GcmView {
            session: SessionView { guard: Some(mutex.id), ..view.session },
            ..view
        };
        let n = choose|n: int|
            0 <= n <= calls.len() && match held.initialized(#[trigger] calls.take(n)) {
                Some(Ok(view)) => view.keyed().launched(
                    driver_calls.skip(1),
                    calls.skip(n),
                    later,
                    mutex,
                    later_mutex,
                ),
                Some(Err(error)) => driver_calls.len() == 1 && held.stranded(calls.take(n)).ended(
                    Err(error),
                    calls.skip(n),
                    later,
                    mutex,
                    later_mutex,
                ),
                None => false,
            };
        lemma_initialized_tells_nothing(held, calls.take(n));
        if let Some(Ok(started)) = held.initialized(calls.take(n)) {
            assert(started.keyed().state is HashKey);
        }
        trace::lemma_told_behind(calls, n, later.state is Idle);
    }
}

proof fn lemma_resumed_tells(
    view: GcmView,
    driver_calls: Seq<Call>,
    calls: Seq<Call>,
    later: GcmView,
    mutex: MutexView,
    later_mutex: MutexView,
)
    requires
        !(view.state is Idle),
        view.resumed(driver_calls, calls, later, mutex, later_mutex),
    ensures
        trace::told_once(calls, later.state is Idle),
        trace::success_after_output(calls),
{
    let clean = GcmView {
        session: SessionView { completion: None, ..view.session },
        ..view
    };
    if view.session.completion is Some && view.session.completion->0 is Ok
        && view.session.exchanged() && view.is_running() {
        let (after, next) = clean.absorbed(view.session.output);
        lemma_carried_out_tells(after, next, driver_calls, calls, later, mutex, later_mutex);
    }
}

/// A step tells the client of the end exactly when it ends the operation.
proof fn lemma_carried_out_tells(
    view: GcmView,
    next: Next,
    driver_calls: Seq<Call>,
    calls: Seq<Call>,
    later: GcmView,
    mutex: MutexView,
    later_mutex: MutexView,
)
    requires
        !(view.state is Idle),
        view.carried_out(next, driver_calls, calls, later, mutex, later_mutex),
    ensures
        trace::told_once(calls, later.state is Idle),
        trace::success_after_output(calls),
{
    match next {
        Next::AssociatedData => {
            let (n, outcome) = choose|n: int, outcome: Result<Seq<u8>, ErrorCode>|
                0 <= n <= calls.len() && #[trigger] trace::blocks_outcome(
                    calls.take(n),
                    Port::AssociatedData,
                    view.aad_len,
                    outcome,
                ) && match outcome {
                    Ok(aad) => {
                        let (hashed, next) = view.aad_hashed(aad);
                        hashed.begun(next).launched(
                            driver_calls,
                            calls.skip(n),
                            later,
                            mutex,
                            later_mutex,
                        )
                    },
                    Err(error) => driver_calls.len() == 0 && GcmView {
                        hash: later.hash,
                        ..view
                    }.ended(Err(error), calls.skip(n), later, mutex, later_mutex),
                };
            trace::lemma_blocks_reads_only(
                calls.take(n),
                Port::AssociatedData,
                view.aad_len,
                outcome,
            );
            trace::lemma_told_behind(calls, n, later.state is Idle);
        },
        Next::Output => {
            if calls[0]->Write_result is Err || view.operation is Decrypt {
                trace::lemma_told_after_output(calls, 1, calls[0]->Write_result);
            } else {
                trace::lemma_told_after_output(calls, 2, calls[1]->Write_result);
            }
        },
        _ => {},
    }
}

/// Reading what an operation needs tells the client of no end.
proof fn lemma_initialized_tells_nothing(view: GcmView, calls: Seq<Call>)
    requires
        view.initialized(calls) is Some,
    ensures
        trace::told_nothing(calls),
{
    if calls.len() > 1 {
        let rest = calls.skip(1);
        let reads = rest.skip(1);
        if rest[0]->Fill_result is Ok {
            if view.operation is Encrypt {
                trace::lemma_reads_only(reads, Port::Input, view.len);
            } else if reads[0]->Fill_result is Ok {
                trace::lemma_reads_only(reads.skip(1), Port::Input, view.len);
            }
        }
        assert forall|i: int| 0 <= i < calls.len() implies !((#[trigger] calls[i]) is Done) by {
            if i == 1 {
                assert(calls[i] == rest[0]);
            } else if i > 1 {
                assert(calls[i] == reads[i - 2]);
                if i > 2 {
                    assert(calls[i] == reads.skip(1)[i - 3]);
                }
            }
        }
    }
}

} // verus!
