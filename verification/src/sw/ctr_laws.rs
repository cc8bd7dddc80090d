//! Software CTR computes CTR, and its counter never wraps.
use crate::driver_mutex::MutexView;
use crate::error::ErrorCode;
use crate::hil::trace;
use crate::hil::trace::{Call, Port};
use crate::sw::bytes;
use crate::sw::ctr::{CtrView, Next};
use crate::sw::ctr_math;
use crate::sw::session::SessionView;
use vstd::prelude::*;

verus! {

/// What the operation has computed when its next step is to follow.
pub open spec fn on_track(view: CtrView, e: spec_fn(Seq<u8>) -> Seq<u8>) -> bool {
    &&& view.input.len() == view.len
    &&& view.initial.len() == 16
    &&& view.counter.len() == 16
    &&& view.counter_start <= 16
    &&& view.offset <= view.len
    &&& view.offset % 16 == 0 || view.offset == view.len
    &&& view.workspace.take(view.len as int) == ctr_math::masked(
        e,
        view.initial,
        view.counter_start,
        view.input,
        view.offset as int,
    )
    &&& bytes::be_value(view.initial.skip(view.counter_start as int)) + bytes::block_count(
        view.len,
    ) <= view.capacity()
    &&& view.offset < view.len ==> view.counter == ctr_math::counter_at(
        view.initial,
        view.counter_start,
        view.offset / 16,
    )
}

/// What the operation has computed while the driver works on a block.
pub open spec fn on_track_in_block(view: CtrView, e: spec_fn(Seq<u8>) -> Seq<u8>) -> bool {
    &&& on_track(view, e)
    &&& view.session.input == view.counter
}

/// An operation that has its input starts on track.
pub proof fn law_initialized_on_track(
    view: CtrView,
    calls: Seq<Call>,
    later: CtrView,
    e: spec_fn(Seq<u8>) -> Seq<u8>,
)
    requires
        view.is_requested(),
        view.initialized(calls) == Some(Ok::<CtrView, ErrorCode>(later)),
    ensures
        on_track(later, e),
{
    broadcast use trace::lemma_gather_len;

    let start = later.counter_start as int;
    let initial = later.initial;
    assert(later.workspace.take(later.len as int) =~= later.input);
    assert(ctr_math::masked(e, initial, later.counter_start, later.input, 0) =~= later.input);
    assert(calls.len() >= 3);
    let buffer = calls.skip(1).skip(1)[0]->Read_buffer;
    assert(initial.skip(start) =~= buffer);
    bytes::law_be_bytes_of_value(initial.skip(start));
    assert(initial =~= initial.take(start) + initial.skip(start));
}

/// A block that the driver has encrypted keeps an operation on track, and the counter can always
/// advance.
pub proof fn law_absorbed_on_track(
    view: CtrView,
    e: spec_fn(Seq<u8>) -> Seq<u8>,
    later: CtrView,
    next: Next,
)
    requires
        view.wf(),
        view.is_running(),
        on_track_in_block(view, e),
        view.absorbed(e(view.session.input), later, next),
    ensures
        on_track(later, e),
        !(next is Overflow),
        next is Block ==> later.offset < later.len && later.offset % 16 == 0,
        next is Output ==> later.offset == later.len,
{
    let output = e(view.session.input);
    let masked = view.masked(output);
    let len = view.len as int;
    let offset = view.offset as int;
    let start = view.counter_start;
    let first = bytes::be_value(view.initial.skip(start as int));
    let n = view.offset / 16;
    let expected = ctr_math::masked(e, view.initial, start, view.input, masked.offset as int);
    assert forall|i: int| 0 <= i < len implies #[trigger] masked.workspace.take(len)[i]
        == expected[i] by {
        assert(view.workspace.take(len)[i] == view.workspace[i]);
        assert(view.workspace.take(len)[i] == ctr_math::masked(
            e,
            view.initial,
            start,
            view.input,
            offset,
        )[i]);
        if offset <= i < masked.offset {
            assert(i / 16 == offset / 16);
            assert(i % 16 == i - offset);
        }
    }
    assert(masked.workspace.take(len) =~= expected);
    if masked.offset < view.len {
        assert(masked.offset / 16 == n + 1);
        assert(n + 1 < bytes::block_count(view.len));
        let width = (16 - start) as nat;
        bytes::lemma_be_bytes_len(first + n, width);
        assert(view.counter.skip(start as int) =~= bytes::be_bytes(first + n, width));
        assert(view.counter.take(start as int) =~= view.initial.take(start as int));
        bytes::law_be_round_trip(first + n, width);
        assert(masked.count() == first + n);
        bytes::law_be_bytes_of_value(later.counter.skip(start as int));
        assert(later.counter =~= later.counter.take(start as int) + later.counter.skip(
            start as int,
        ));
    }
}

/// What the calls to a client that one completed block causes may be: nothing but the masked
/// message is handed out; an operation that goes on is on track.
pub proof fn law_ctr_computes_ctr(
    view: CtrView,
    e: spec_fn(Seq<u8>) -> Seq<u8>,
    driver_calls: Seq<Call>,
    calls: Seq<Call>,
    later: CtrView,
    mutex: MutexView,
    later_mutex: MutexView,
)
    requires
        view.wf(),
        view.is_running(),
        on_track_in_block(view, e),
        view.session.completion == Some(Ok::<(), ErrorCode>(())),
        view.session.exchanged(),
        view.session.output == e(view.session.input),
        view.resumed(driver_calls, calls, later, mutex, later_mutex),
    ensures
        later.len == view.len && later.input == view.input && later.initial == view.initial
            && later.counter_start == view.counter_start,
        !(later.state is Idle) ==> on_track_in_block(later, e),
        forall|i: int|
            0 <= i < calls.len() && (#[trigger] calls[i]) is Write ==> calls[i]->data
                == ctr_math::masked(
                e,
                view.initial,
                view.counter_start,
                view.input,
                view.len as int,
            ),
{
    let clean = CtrView { session: SessionView { completion: None, ..view.session }, ..view };
    assert(clean.wf());
    assert(on_track_in_block(clean, e));
    let (after, next) = choose|after: CtrView, next: Next|
        #[trigger] clean.absorbed(view.session.output, after, next) && after.carried_out(
            next,
            driver_calls,
            calls,
            later,
            mutex,
            later_mutex,
        );
    law_absorbed_on_track(clean, e, after, next);
    match next {
        Next::Output => {
            let ends = calls.skip(1);
            let result = calls[0]->Write_result;
            assert(after.ended(result, ends, later, mutex, later_mutex));
            assert(ends.len() == 1 && ends[0] is Done);
            assert forall|i: int| 0 <= i < calls.len() && (#[trigger] calls[i]) is Write implies i
                == 0 by {
                if i > 0 {
                    assert(ends[i - 1] == calls[i]);
                }
            }
        },
        _ => {
            assert(on_track(after.begun(), e));
        },
    }
}

/// While an operation waits for its driver or works, the client is told of its end exactly when it
/// ends, by the last call, and of a success only after it took the output.
pub proof fn law_client_is_told_once(
    view: CtrView,
    driver_calls: Seq<Call>,
    calls: Seq<Call>,
    later: CtrView,
    mutex: MutexView,
    later_mutex: MutexView,
)
    requires
        !(view.state is Idle),
        ({
            ||| view.resumed(driver_calls, calls, later, mutex, later_mutex)
            ||| view.readied(driver_calls, calls, later, mutex, later_mutex)
        }),
    ensures
        trace::told_once(calls, later.state is Idle),
        trace::success_after_output(calls),
{
    if view.resumed(driver_calls, calls, later, mutex, later_mutex) {
        lemma_resumed_tells(view, driver_calls, calls, later, mutex, later_mutex);
    } else {
        let held = CtrView {
            session: SessionView { guard: Some(mutex.id), ..view.session },
            ..view
        };
        let n = choose|n: int|
            0 <= n <= calls.len() && match held.initialized(#[trigger] calls.take(n)) {
                Some(Ok(view)) => view.carried_out(
                    view.first(),
                    driver_calls.skip(1),
                    calls.skip(n),
                    later,
                    mutex,
                    later_mutex,
                ),
                Some(Err(error)) => driver_calls.len() == 1 && held.stranded(calls.take(n)).ended(
                    Err(error),
                    calls.skip(n),
                    later,
                    mutex,
                    later_mutex,
                ),
                None => false,
            };
        lemma_initialized_tells_nothing(held, calls.take(n));
        if let Some(Ok(started)) = held.initialized(calls.take(n)) {
            lemma_carried_out_tells(
                started,
                started.first(),
                driver_calls.skip(1),
                calls.skip(n),
                later,
                mutex,
                later_mutex,
            );
        }
        trace::lemma_told_behind(calls, n, later.state is Idle);
    }
}

proof fn lemma_resumed_tells(
    view: CtrView,
    driver_calls: Seq<Call>,
    calls: Seq<Call>,
    later: CtrView,
    mutex: MutexView,
    later_mutex: MutexView,
)
    requires
        !(view.state is Idle),
        view.resumed(driver_calls, calls, later, mutex, later_mutex),
    ensures
        trace::told_once(calls, later.state is Idle),
        trace::success_after_output(calls),
{
    let clean = CtrView {
        session: SessionView { completion: None, ..view.session },
        ..view
    };
    if view.session.completion is Some && view.session.completion->0 is Ok
        && view.session.exchanged() && view.is_running() {
        let (after, next) = choose|after: CtrView, next: Next|
            #[trigger] clean.absorbed(view.session.output, after, next) && after.carried_out(
                next,
                driver_calls,
                calls,
                later,
                mutex,
                later_mutex,
            );
        lemma_carried_out_tells(after, next, driver_calls, calls, later, mutex, later_mutex);
    }
}

/// A step tells the client of the end exactly when it ends the operation.
proof fn lemma_carried_out_tells(
    view: CtrView,
    next: Next,
    driver_calls: Seq<Call>,
    calls: Seq<Call>,
    later: CtrView,
    mutex: MutexView,
    later_mutex: MutexView,
)
    requires
        !(view.state is Idle),
        view.carried_out(next, driver_calls, calls, later, mutex, later_mutex),
    ensures
        trace::told_once(calls, later.state is Idle),
        trace::success_after_output(calls),
{
    if next is Output {
        trace::lemma_told_after_output(calls, 1, calls[0]->Write_result);
    }
}

/// Reading what an operation needs tells the client of no end.
proof fn lemma_initialized_tells_nothing(view: CtrView, calls: Seq<Call>)
    requires
        view.initialized(calls) is Some,
    ensures
        trace::told_nothing(calls),
{
    if calls.len() > 1 {
        let rest = calls.skip(1);
        if rest.len() > 1 {
            let reads = rest.skip(1);
            let input = reads.skip(1);
            if reads.len() > 1 || trace::gather_outcome(input, Port::Input, view.len) is Some {
                trace::lemma_reads_only(input, Port::Input, view.len);
            }
            assert forall|i: int| 0 <= i < calls.len() implies !((#[trigger] calls[i]) is Done) by {
                if i == 1 {
                    assert(calls[i] == rest[0]);
                } else if i == 2 {
                    assert(calls[i] == reads[0]);
                } else if i > 2 {
                    assert(calls[i] == input[i - 3]);
                }
            }
        } else {
            assert(calls[1] == rest[0]);
        }
    }
}

} // verus!
