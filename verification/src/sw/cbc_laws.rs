//! Software CBC computes CBC.
use crate::driver_mutex::MutexView;
use crate::error::ErrorCode;
use crate::hil::cipher::Operation;
use crate::hil::trace;
use crate::hil::trace::{Call, Port};
use crate::sw::bytes;
use crate::sw::cbc::{CbcView, Next};
use crate::sw::cbc_math;
use crate::sw::session::SessionView;
use vstd::prelude::*;

verus! {

/// What the first `blocks` blocks of the input become under the block function `c`, which encrypts
/// or decrypts as the operation does.
pub open spec fn result_of(view: CbcView, c: spec_fn(Seq<u8>) -> Seq<u8>, blocks: nat) -> Seq<u8> {
    match view.operation {
        Operation::Encrypt => cbc_math::encrypted(c, view.iv, view.input, blocks),
        Operation::Decrypt => cbc_math::decrypted(c, view.iv, view.input, blocks),
    }
}

/// The ciphertext that the first `upto` bytes of the workspace stand for.
pub open spec fn ciphertext(view: CbcView, upto: int) -> Seq<u8> {
    match view.operation {
        Operation::Encrypt => view.workspace.take(upto),
        Operation::Decrypt => view.input.take(upto),
    }
}

/// What the operation has computed when its next step is to follow.
pub open spec fn on_track(view: CbcView, c: spec_fn(Seq<u8>) -> Seq<u8>) -> bool {
    let offset = view.offset as int;
    &&& view.input.len() == view.len
    &&& view.iv.len() == 16
    &&& view.offset % 16 == 0
    &&& view.offset <= view.len
    &&& view.workspace.take(offset) == result_of(view, c, view.offset / 16)
    &&& forall|i: int| offset <= i < view.len ==> view.workspace[i] == view.input[i]
    &&& view.chaining_value == cbc_math::chain(view.iv, ciphertext(view, offset))
}

/// What the operation has computed while the driver works on a block.
pub open spec fn on_track_in_block(view: CbcView, c: spec_fn(Seq<u8>) -> Seq<u8>) -> bool {
    &&& on_track(view, c)
    &&& view.session.input == view.begun().session.input
}

/// An operation that has its input starts on track.
pub proof fn law_initialized_on_track(
    view: CbcView,
    calls: Seq<Call>,
    later: CbcView,
    c: spec_fn(Seq<u8>) -> Seq<u8>,
)
    requires
        view.is_requested(),
        view.initialized(calls) == Some(Ok::<CbcView, ErrorCode>(later)),
    ensures
        on_track(later, c),
{
    broadcast use trace::lemma_gather_len;

    assert(later.workspace.take(0) =~= Seq::<u8>::empty());
    assert(later.input.take(0) =~= Seq::<u8>::empty());
}

/// A block on which the driver has worked keeps an operation on track.
pub proof fn law_absorbed_on_track(view: CbcView, c: spec_fn(Seq<u8>) -> Seq<u8>)
    requires
        view.wf(),
        view.is_running(),
        on_track_in_block(view, c),
        forall|block: Seq<u8>| (#[trigger] c(block)).len() == 16,
    ensures
        on_track(view.absorbed(c(view.session.input)).0, c),
{
    let output = c(view.session.input);
    let later = view.absorbed(output).0;
    let offset = view.offset as int;
    let n = view.offset / 16;
    assert(later.offset / 16 == n + 1);
    assert(n * 16 == offset);
    assert(bytes::block_at(view.workspace, offset) =~= bytes::block_at(view.input, offset));
    assert(view.workspace.take(offset).len() == offset);
    match view.operation {
        Operation::Encrypt => {
            assert(later.workspace.take(offset + 16) =~= view.workspace.take(offset) + output);
            let front = view.workspace.take(offset);
            assert(cbc_math::chain(view.iv, front + output) =~= output);
        },
        Operation::Decrypt => {
            let block = bytes::xor(output, view.chaining_value);
            assert(later.workspace.take(offset + 16) =~= view.workspace.take(offset) + block);
            assert(cbc_math::chain(view.iv, view.input.take(offset + 16)) =~= bytes::block_at(
                view.input,
                offset,
            ));
        },
    }
    assert forall|i: int| later.offset <= i < later.len implies later.workspace[i]
        == later.input[i] by {}
}

/// What the calls to a client that one completed block causes may be: nothing but the encrypted
/// or decrypted message is handed out, with the initialization vector that continues it; an
/// operation that goes on is on track.
pub proof fn law_cbc_computes_cbc(
    view: CbcView,
    c: spec_fn(Seq<u8>) -> Seq<u8>,
    driver_calls: Seq<Call>,
    calls: Seq<Call>,
    later: CbcView,
    mutex: MutexView,
    later_mutex: MutexView,
)
    requires
        view.wf(),
        view.is_running(),
        on_track_in_block(view, c),
        forall|block: Seq<u8>| (#[trigger] c(block)).len() == 16,
        view.session.completion == Some(Ok::<(), ErrorCode>(())),
        view.session.exchanged(),
        view.session.output == c(view.session.input),
        view.resumed(driver_calls, calls, later, mutex, later_mutex),
    ensures
        later.operation == view.operation && later.len == view.len && later.input == view.input
            && later.iv == view.iv,
        !(later.state is Idle) ==> on_track_in_block(later, c),
        forall|i: int|
            0 <= i < calls.len() && (#[trigger] calls[i]) is Write ==> calls[i]->data == (
            match calls[i]->Write_port {
                Port::Output => result_of(view, c, view.len / 16),
                _ => cbc_math::chain(
                    view.iv,
                    match view.operation {
                        Operation::Encrypt => result_of(view, c, view.len / 16),
                        Operation::Decrypt => view.input,
                    },
                ),
            }),
{
    let clean = CbcView { session: SessionView { completion: None, ..view.session }, ..view };
    assert(clean.wf());
    assert(on_track_in_block(clean, c));
    law_absorbed_on_track(clean, c);
    let (after, next) = clean.absorbed(view.session.output);
    match next {
        Next::Output => {
            assert(after.offset == after.len);
            assert(view.input.take(view.len as int) =~= view.input);
            let first = calls.skip(1);
            let second = calls.skip(2);
            assert(after.carried_out(next, driver_calls, calls, later, mutex, later_mutex));
            if calls[0]->Write_result is Err {
                assert(first.len() == 1 && first[0] is Done);
            } else {
                assert(second.len() == 1 && second[0] is Done);
            }
            assert forall|i: int| 0 <= i < calls.len() && (#[trigger] calls[i]) is Write implies i
                == 0 || (i == 1 && calls[0]->Write_result is Ok) by {
                if i > 0 {
                    assert(first[i - 1] == calls[i]);
                }
                if i > 1 {
                    assert(second[i - 2] == calls[i]);
                }
            }
        },
        Next::Block => {
            assert(after.begun().begun().session.input == after.begun().session.input);
            assert(on_track(after.begun(), c));
        },
    }
}

/// While an operation waits for its driver or works, the client is told of its end exactly when it
/// ends, by the last call, and of a success only after it took the output.
pub proof fn law_client_is_told_once(
    view: CbcView,
    driver_calls: Seq<Call>,
    calls: Seq<Call>,
    later: CbcView,
    mutex: MutexView,
    later_mutex: MutexView,
)
    requires
        !(view.state is Idle),
        ({
            ||| view.resumed(driver_calls, calls, later, mutex, later_mutex)
            ||| view.readied(driver_calls, calls, later, mutex, later_mutex)
        }),
    ensures
        trace::told_once(calls, later.state is Idle),
        trace::success_after_output(calls),
{
    if view.resumed(driver_calls, calls, later, mutex, later_mutex) {
        lemma_resumed_tells(view, driver_calls, calls, later, mutex, later_mutex);
    } else {
        let held = CbcView {
            session: SessionView { guard: Some(mutex.id), ..view.session },
            ..view
        };
        let n = choose|n: int|
            0 <= n <= calls.len() && match held.initialized(#[trigger] calls.take(n)) {
                Some(Ok(view)) => view.carried_out(
                    view.first(),
                    driver_calls.skip(1),
                    calls.skip(n),
                    later,
                    mutex,
                    later_mutex,
                ),
                Some(Err(error)) => driver_calls.len() == 1 && held.stranded(calls.take(n)).ended(
                    Err(error),
                    calls.skip(n),
                    later,
                    mutex,
                    later_mutex,
                ),
                None => false,
            };
        lemma_initialized_tells_nothing(held, calls.take(n));
        if let Some(Ok(started)) = held.initialized(calls.take(n)) {
            lemma_carried_out_tells(
                started,
                started.first(),
                driver_calls.skip(1),
                calls.skip(n),
                later,
                mutex,
                later_mutex,
            );
        }
        trace::lemma_told_behind(calls, n, later.state is Idle);
    }
}

proof fn lemma_resumed_tells(
    view: CbcView,
    driver_calls: Seq<Call>,
    calls: Seq<Call>,
    later: CbcView,
    mutex: MutexView,
    later_mutex: MutexView,
)
    requires
        !(view.state is Idle),
        view.resumed(driver_calls, calls, later, mutex, later_mutex),
    ensures
        trace::told_once(calls, later.state is Idle),
        trace::success_after_output(calls),
{
    let clean = CbcView {
        session: SessionView { completion: None, ..view.session },
        ..view
    };
    if view.session.completion is Some && view.session.completion->0 is Ok
        && view.session.exchanged() && view.is_running() {
        let (after, next) = clean.absorbed(view.session.output);
        lemma_carried_out_tells(after, next, driver_calls, calls, later, mutex, later_mutex);
    }
}

/// A step tells the client of the end exactly when it ends the operation.
proof fn lemma_carried_out_tells(
    view: CbcView,
    next: Next,
    driver_calls: Seq<Call>,
    calls: Seq<Call>,
    later: CbcView,
    mutex: MutexView,
    later_mutex: MutexView,
)
    requires
        !(view.state is Idle),
        view.carried_out(next, driver_calls, calls, later, mutex, later_mutex),
    ensures
        trace::told_once(calls, later.state is Idle),
        trace::success_after_output(calls),
{
    if next is Output {
        if calls[0]->Write_result is Err {
            trace::lemma_told_after_output(calls, 1, calls[0]->Write_result);
        } else {
            trace::lemma_told_after_output(calls, 2, calls[1]->Write_result);
        }
    }
}

/// Reading what an operation needs tells the client of no end.
proof fn lemma_initialized_tells_nothing(view: CbcView, calls: Seq<Call>)
    requires
        view.initialized(calls) is Some,
    ensures
        trace::told_nothing(calls),
{
    if calls.len() > 1 {
        let rest = calls.skip(1);
        let reads = rest.skip(1);
        if rest.len() > 1 || trace::gather_outcome(reads, Port::Input, view.len) is Some {
            trace::lemma_reads_only(reads, Port::Input, view.len);
        }
        assert forall|i: int| 0 <= i < calls.len() implies !((#[trigger] calls[i]) is Done) by {
            if i == 1 {
                assert(calls[i] == rest[0]);
            } else if i > 1 {
                assert(calls[i] == reads[i - 2]);
            }
        }
    }
}

} // verus!
