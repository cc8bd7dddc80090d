//! What the hash driver makes of a whole request, from its acceptance to the report of its end.
use crate::error::ErrorCode;
use crate::hil::digest::Algorithm;
use crate::hil::trace;
use crate::hil::trace::{Call, Port};
use crate::stm32u5::hash;
use crate::stm32u5::hash::{Answer, Control, HashView, Interrupts, Start, Status};
use crate::stm32u5::hash_laws;
use crate::stm32u5::hash_utils;
use crate::stm32u5::hash_utils::{DataType, LeftoverView, State, TransferMode};
use crate::sw::bytes;
use vstd::prelude::*;

verus! {

/// What the driver is called for.
pub enum Event {
    DeferredCall,
    Interrupt,
    TransferEnd,
}

/// One call of the driver: what the accelerator shows when it comes, and the calls that the driver
/// makes to its client.
pub struct Step {
    pub event: Event,
    pub status: Status,
    pub digest: Seq<u32>,
    pub calls: Seq<Call>,
}

/// A part of a message for which a computation was started: what the client delivered, what was
/// entered, and how many bits of the last word count.
#[verifier::ext_equal]
pub struct Part {
    pub data_type: DataType,
    pub delivered: Seq<u8>,
    pub entered: Seq<u8>,
    pub valid_bits: u32,
}

/// A request under way. Between two calls of the driver the words for the data register are entered.
#[verifier::ext_equal]
pub struct Course {
    pub driver: HashView,
    /// What the client has delivered of the part that is being added.
    pub delivered: Seq<u8>,
    /// What has been entered of it.
    pub entered: Seq<u8>,
    /// The parts before it.
    pub parts: Seq<Part>,
    /// All calls to the client so far.
    pub told: Seq<Call>,
}

/// An interrupt of the accelerator: it is on, and a digest is complete only where one is awaited.
pub open spec fn is_raised(seen: HashView) -> bool {
    &&& seen.status.digest_complete && seen.interrupts.digest_complete || seen.status.input_ready
        && seen.interrupts.input_ready
    &&& seen.status.digest_complete ==> seen.interrupts.digest_complete
}

impl Course {
    /// A request that has just been accepted.
    pub open spec fn begun(driver: HashView) -> Course {
        Course {
            driver,
            delivered: Seq::empty(),
            entered: Seq::empty(),
            parts: Seq::empty(),
            told: Seq::empty(),
        }
    }

    /// The driver with what the accelerator shows.
    pub open spec fn seen(self, step: Step) -> HashView {
        HashView { status: step.status, digest: step.digest, ..self.driver }
    }

    /// What is asked of the client.
    pub open spec fn asks(self, step: Step) -> Option<(Port, nat)> {
        match step.event {
            Event::DeferredCall => self.seen(step).deferred_asks(),
            Event::Interrupt => self.seen(step).interrupt_asks(),
            Event::TransferEnd => None,
        }
    }

    /// The driver after the call, and how the operation ends, if it does.
    pub open spec fn reached(self, step: Step) -> (HashView, Option<Result<(), ErrorCode>>) {
        let seen = self.seen(step);
        match step.event {
            Event::DeferredCall => seen.deferred(hash::answer(step.calls)),
            Event::Interrupt => if seen.digest_due() {
                (seen.silenced().ended(), Some(step.calls.last()->Done_result))
            } else {
                seen.interrupted(hash::answer(step.calls))
            },
            Event::TransferEnd => seen.dma_interrupted(),
        }
    }

    /// The call comes when it is called for, and makes these calls to the client.
    pub open spec fn happens(self, step: Step) -> bool {
        let seen = self.seen(step);
        &&& step.digest.len() == hash::DIGEST_WORDS
        &&& match step.event {
            Event::DeferredCall => seen.deferred_call,
            Event::Interrupt => is_raised(seen),
            Event::TransferEnd => seen.dma_buffer is Some,
        }
        &&& if step.event is Interrupt && seen.digest_due() {
            hash::digest_reported(seen, step.calls)
        } else {
            hash::exchanged(step.calls, self.asks(step), self.reached(step).1)
        }
    }

    /// The call starts a computation.
    pub open spec fn starts(self, step: Step) -> bool {
        &&& self.driver.state matches Some(State::Run(false, _))
        &&& self.reached(step).0.state matches Some(State::Run(true, _))
    }

    /// The request after a call, with the words for the data register entered. The end of a transfer
    /// has entered what was transferred.
    pub open spec fn after(self, step: Step) -> Course {
        let reached = self.reached(step).0;
        let delivered = if self.asks(step) is Some {
            self.delivered + hash::answer(step.calls).data()
        } else {
            self.delivered
        };
        let entered = (if step.event is TransferEnd {
            self.entered + hash_laws::in_transfer(self.driver)
        } else {
            self.entered
        }) + hash::word_bytes(reached.data_in);
        let driver = HashView {
            data_in: Seq::empty(),
            control: Control { init: false, ..reached.control },
            start: Start { calculate: false, ..reached.start },
            ..reached
        };
        let told = self.told + step.calls;
        if self.starts(step) {
            let part = Part {
                data_type: self.driver.state->0.data_type(),
                delivered,
                entered,
                valid_bits: reached.start.valid_bits,
            };
            Course {
                driver,
                delivered: Seq::empty(),
                entered: Seq::empty(),
                parts: self.parts.push(part),
                told,
            }
        } else {
            Course { driver, delivered, entered, parts: self.parts, told }
        }
    }

    /// The calls of the driver come one after the other while the operation runs.
    pub open spec fn runs(self, steps: Seq<Step>) -> bool
        decreases steps.len(),
    {
        steps.len() > 0 ==> {
            &&& self.driver.state is Some
            &&& self.happens(steps[0])
            &&& self.after(steps[0]).runs(steps.skip(1))
        }
    }

    /// The request after calls of the driver.
    pub open spec fn end(self, steps: Seq<Step>) -> Course
        decreases steps.len(),
    {
        if steps.len() == 0 {
            self
        } else {
            self.after(steps[0]).end(steps.skip(1))
        }
    }
}

/// Calls that only ask for data.
pub open spec fn only_reads(calls: Seq<Call>) -> bool {
    forall|i: int| 0 <= i < calls.len() ==> (#[trigger] calls[i]) is Read
}

/// What calls that ask for data have delivered, one after the other.
pub open spec fn taken(calls: Seq<Call>) -> Seq<u8>
    decreases calls.len(),
{
    if calls.len() == 0 {
        Seq::empty()
    } else {
        taken(calls.drop_last()) + hash::answer(seq![calls.last()]).data()
    }
}

/// What was delivered for parts, one after the other.
pub open spec fn joined(parts: Seq<Part>) -> Seq<u8>
    decreases parts.len(),
{
    if parts.len() == 0 {
        Seq::empty()
    } else {
        joined(parts.drop_last()) + parts.last().delivered
    }
}

/// The parts of a message, in order.
pub open spec fn kinds(keyed: bool) -> Seq<DataType> {
    if keyed {
        seq![DataType::InnerKey, DataType::Input, DataType::OuterKey]
    } else {
        seq![DataType::Input]
    }
}

/// How many parts come before one.
pub open spec fn place(keyed: bool, data_type: DataType) -> nat {
    match data_type {
        DataType::InnerKey => 0,
        DataType::Input => if keyed {
            1
        } else {
            0
        },
        DataType::OuterKey => 2,
    }
}

/// How many bytes fill up the last word.
pub open spec fn padding(len: nat) -> nat {
    ((4 - len % 4) % 4) as nat
}

impl Part {
    /// `len` bytes were delivered and entered in order, filled up with zeros to whole words, and of
    /// the last word as many bits count as it has of them.
    pub open spec fn is_complete(self, len: nat) -> bool {
        &&& self.delivered.len() == len
        &&& self.entered == self.delivered + bytes::zeros(padding(len))
        &&& self.valid_bits == len % 4 * 8
    }
}

/// The parts for which computations were started are complete, the first `count` of the message.
pub open spec fn parts_complete(driver: HashView, parts: Seq<Part>, count: nat) -> bool {
    &&& parts.len() == count
    &&& count <= kinds(driver.control.hmac).len()
    &&& forall|i: int|
        0 <= i < count ==> {
            &&& (#[trigger] parts[i]).data_type == kinds(driver.control.hmac)[i]
            &&& parts[i].is_complete(driver.length_of(parts[i].data_type) as nat)
        }
}

/// What the driver has taken from the client and not yet entered, in order.
pub open spec fn stream(driver: HashView) -> Seq<u8> {
    hash::word_bytes(driver.data_in) + hash_laws::in_transfer(driver) + driver.leftover.bytes()
}

/// All that was delivered is entered or about to be, in order, and whole words are entered. Fewer
/// bytes wait than make a word, but for a word that is held back until the FIFO takes it.
pub open spec fn in_order(course: Course) -> bool {
    let driver = course.driver;
    &&& course.entered.len() % 4 == 0
    &&& hash_laws::in_transfer(driver).len() % 4 == 0
    &&& if driver.leftover.is_full() {
        let resumed = driver.resumed().0;
        &&& driver.resumed().1 is None
        &&& course.entered + stream(resumed) == course.delivered
        &&& hash_laws::in_transfer(resumed).len() % 4 == 0
        &&& resumed.leftover.is_orderly()
        &&& !resumed.leftover.is_full()
    } else {
        course.entered + stream(driver) == course.delivered
    }
}

/// What the driver waits for while data of the type is added or about to be computed.
pub open spec fn awaits(driver: HashView, data_type: DataType, adding: bool) -> bool {
    &&& !driver.interrupts.digest_complete
    &&& driver.deferred_call ==> !driver.interrupts.input_ready
    &&& driver.leftover.is_full() ==> {
        &&& driver.transfer_mode == TransferMode::Dma(false)
        &&& data_type is Input
        &&& driver.data_buffer is Some
        &&& driver.dma_buffer is None
        &&& !driver.deferred_call
    }
    &&& driver.dma_buffer is Some ==> {
        &&& !driver.streams(data_type)
        &&& !driver.interrupts.input_ready
        &&& adding ==> !driver.deferred_call
    }
    &&& driver.transfer_mode is Dma ==> {
        &&& driver.dma_channel is Some
        &&& driver.data_buffer is Some || driver.dma_buffer is Some
    }
    &&& adding && driver.interrupts.input_ready ==> driver.streams(data_type)
        || driver.leftover.is_full()
}

/// A request is on its way: what has come of it is complete and in order, and the client has been
/// asked for data and for nothing else.
pub open spec fn on_course(course: Course) -> bool {
    let driver = course.driver;
    &&& driver.wf()
    &&& driver.client is Some
    &&& !driver.cancelled
    &&& driver.algorithm is Some
    &&& driver.data_in.len() == 0
    &&& only_reads(course.told)
    &&& taken(course.told) == joined(course.parts) + course.delivered
    &&& match driver.state {
        None => false,
        Some(state) => {
            let data_type = state.data_type();
            let before = place(driver.control.hmac, data_type);
            &&& !driver.control.hmac ==> data_type is Input
            &&& match state {
                State::Add(left, _) => {
                    &&& parts_complete(driver, course.parts, before)
                    &&& course.delivered.len() + left == driver.length_of(data_type)
                    &&& in_order(course)
                    &&& awaits(driver, data_type, true)
                },
                State::Run(false, _) => {
                    &&& parts_complete(driver, course.parts, before)
                    &&& course.delivered.len() == driver.length_of(data_type)
                    &&& in_order(course)
                    &&& awaits(driver, data_type, false)
                },
                State::Run(true, _) => {
                    let last = before + 1 == kinds(driver.control.hmac).len();
                    &&& parts_complete(driver, course.parts, before + 1)
                    &&& course.delivered.len() == 0
                    &&& course.entered.len() == 0
                    &&& driver.leftover == LeftoverView::empty()
                    &&& driver.dma_buffer is None
                    &&& !driver.deferred_call
                    &&& driver.interrupts == (Interrupts {
                        digest_complete: last,
                        input_ready: !last,
                    })
                    &&& driver.transfer_mode is Dma ==> {
                        &&& driver.dma_channel is Some
                        &&& driver.data_buffer is Some
                    }
                },
            }
        },
    }
}

/// A call of the client, or the accelerator, is why an operation fails: a request for data or a
/// piece of the digest was refused, the client has no key, or the accelerator has room and is busy.
pub open spec fn has_cause(course: Course, step: Step) -> bool {
    ||| step.calls[0] matches Call::Read { count: Err(_), .. }
    ||| step.calls.len() > 1 && step.calls[step.calls.len() - 2] matches Call::Write {
        result: Err(_),
        ..
    }
    ||| course.driver.lacks_key(course.driver.state->0.data_type())
    ||| step.status.busy
}

/// A request has ended: the client is told once, after all other calls. A success follows the whole
/// message, each part of it complete, and the digest in full.
pub open spec fn is_over(course: Course) -> bool {
    let count = (course.driver.algorithm->0.digest_len() / 4) as int;
    let told = course.told;
    &&& trace::told_once(told, true)
    &&& told.last()->Done_result is Ok ==> {
        &&& parts_complete(
            course.driver,
            course.parts,
            kinds(course.driver.control.hmac).len(),
        )
        &&& told.len() > count
        &&& only_reads(told.take(told.len() - 1 - count))
        &&& taken(told.take(told.len() - 1 - count)) == joined(course.parts)
        &&& hash::digest_delivered(
            course.driver.digest,
            count as nat,
            told.subrange(told.len() - 1 - count, told.len() - 1),
            Ok(()),
        )
    }
}

/// What one call of the driver makes of a request.
pub open spec fn goes_on(course: Course, step: Step) -> bool {
    let after = course.after(step);
    if after.driver.state is Some {
        on_course(after)
    } else {
        &&& is_over(after)
        &&& after.told.last()->Done_result is Err ==> has_cause(course, step)
    }
}

/// What calls have delivered, one call after the others.
proof fn lemma_taken_push(calls: Seq<Call>, call: Call)
    ensures
        taken(calls.push(call)) == taken(calls) + hash::answer(seq![call]).data(),
{
    assert(calls.push(call).drop_last() =~= calls);
}

/// A call that does not end the operation asks for data at most.
proof fn lemma_asked(course: Course, step: Step)
    requires
        on_course(course),
        hash::exchanged(step.calls, course.asks(step), None),
    ensures
        only_reads(course.told + step.calls),
        taken(course.told + step.calls) == taken(course.told) + (if course.asks(step) is Some {
            hash::answer(step.calls).data()
        } else {
            Seq::empty()
        }),
{
    if course.asks(step) is Some {
        assert(step.calls =~= seq![step.calls[0]]);
        assert(course.told + step.calls =~= course.told.push(step.calls[0]));
        lemma_taken_push(course.told, step.calls[0]);
    } else {
        assert(course.told + step.calls =~= course.told);
        assert(taken(course.told) + Seq::<u8>::empty() =~= taken(course.told));
    }
}

/// A call that fails tells the client so, once.
proof fn lemma_failed(course: Course, step: Step)
    requires
        on_course(course),
        course.reached(step).1 matches Some(Err(_)),
        hash::exchanged(step.calls, course.asks(step), course.reached(step).1),
    ensures
        trace::told_once(course.told + step.calls, true),
        (course.told + step.calls).last()->Done_result is Err,
{
    let told = course.told + step.calls;
    assert(told.last() == step.calls.last());
    assert forall|i: int| 0 <= i < told.len() - 1 implies !((#[trigger] told.drop_last()[i]) is Done) by {
        if i < course.told.len() {
            assert(told[i] == course.told[i]);
        } else {
            assert(told[i] == step.calls[i - course.told.len()]);
        }
    }
}

/// Loading data leaves the rest of the driver as it is.
proof fn lemma_loaded_frame(driver: HashView, data_type: DataType, answer: Answer)
    ensures
        ({
            let after = driver.loaded(data_type, answer).0;
            &&& after.state == driver.state
            &&& after.client == driver.client
            &&& after.cancelled == driver.cancelled
            &&& after.algorithm == driver.algorithm
            &&& after.status == driver.status
            &&& after.digest == driver.digest
            &&& after.start == driver.start
            &&& after.interrupts == driver.interrupts
            &&& after.control.hmac == driver.control.hmac
            &&& after.data_length == driver.data_length
            &&& after.key_length == driver.key_length
            &&& after.transfer_mode == driver.transfer_mode
            &&& after.dma_channel == driver.dma_channel
            &&& after.deferred_call == driver.deferred_call
        }),
{
}

/// Nothing of a word is held back, no transfer runs, and what the client has delivered can be
/// loaded.
pub open spec fn can_load(driver: HashView, data_type: DataType, answer: Answer) -> bool {
    &&& driver.wf()
    &&& driver.data_in.len() == 0
    &&& !driver.leftover.is_full()
    &&& driver.dma_buffer is None
    &&& !driver.lacks_key(data_type)
    &&& answer.count matches Ok(count) && count <= answer.buffer.len()
    &&& driver.streams(data_type) || {
        &&& data_type is Input
        &&& driver.dma_channel is Some
        &&& driver.data_buffer is Some
        &&& answer.buffer.len() <= driver.data_buffer->0.data.len()
    }
}

/// What loading makes of the stream.
proof fn lemma_loading(driver: HashView, data_type: DataType, answer: Answer)
    requires
        can_load(driver, data_type, answer),
    ensures
        ({
            let (after, result) = driver.loaded(data_type, answer);
            &&& after.wf()
            &&& hash_laws::in_transfer(after).len() % 4 == 0
            &&& result matches Ok((count, ready)) && {
                &&& count == answer.count->Ok_0
                &&& driver.streams(data_type) ==> {
                    &&& ready
                    &&& after.dma_buffer is None
                    &&& after.data_buffer == driver.data_buffer
                }
                &&& if ready {
                    &&& !after.leftover.is_full()
                    &&& stream(after) == driver.leftover.bytes() + answer.data()
                    &&& driver.streams(data_type) || after.data_buffer is Some
                        || after.dma_buffer is Some
                } else {
                    let resumed = after.resumed().0;
                    &&& after.leftover.is_full()
                    &&& after.data_in.len() == 0
                    &&& after.dma_buffer is None
                    &&& after.data_buffer is Some
                    &&& after.resumed().1 is None
                    &&& stream(resumed) == driver.leftover.bytes() + answer.data()
                    &&& hash_laws::in_transfer(resumed).len() % 4 == 0
                    &&& resumed.leftover.is_orderly()
                    &&& !resumed.leftover.is_full()
                }
            }
        }),
{
    let data = answer.data();
    assert(hash::word_bytes(driver.data_in) =~= Seq::<u8>::empty());
    assert(hash::word_bytes(driver.data_in) + driver.leftover.bytes() + data
        =~= driver.leftover.bytes() + data);
    if driver.streams(data_type) {
        hash_laws::law_fed_in_order(driver, data);
        assert(driver.fed(data).dma_buffer is None);
    } else {
        hash_laws::law_loaded_by_dma_in_order(driver, answer);
    }
}

/// What was delivered before, then data, is what was entered before, then what the driver has.
proof fn lemma_ordered(course: Course, reached: HashView, data: Seq<u8>)
    requires
        course.driver.data_in.len() == 0,
        course.driver.dma_buffer is None,
        course.entered + stream(course.driver) == course.delivered,
        stream(reached) == course.driver.leftover.bytes() + data,
    ensures
        course.entered + stream(reached) == course.delivered + data,
        course.entered + hash::word_bytes(reached.data_in) + (hash_laws::in_transfer(reached)
            + reached.leftover.bytes()) == course.delivered + data,
{
    let waiting = course.driver.leftover.bytes();
    assert(stream(course.driver) =~= waiting);
    assert(course.entered + (waiting + data) =~= (course.entered + waiting) + data);
    assert(course.entered + stream(reached) =~= course.entered + hash::word_bytes(reached.data_in)
        + (hash_laws::in_transfer(reached) + reached.leftover.bytes()));
}

/// The stream of a driver whose words were entered.
proof fn lemma_flushed_stream(driver: HashView)
    requires
        driver.data_in.len() == 0,
    ensures
        stream(driver) == hash_laws::in_transfer(driver) + driver.leftover.bytes(),
{
    assert(stream(driver) =~= hash_laws::in_transfer(driver) + driver.leftover.bytes());
}

/// What the driver has after it was given data: all of it in the stream, or a word of it held back
/// until the FIFO takes it.
pub open spec fn holds(driver: HashView, waiting: Seq<u8>) -> bool {
    &&& hash_laws::in_transfer(driver).len() % 4 == 0
    &&& if driver.leftover.is_full() {
        let resumed = driver.resumed().0;
        &&& driver.data_in.len() == 0
        &&& driver.resumed().1 is None
        &&& stream(resumed) == waiting
        &&& hash_laws::in_transfer(resumed).len() % 4 == 0
        &&& resumed.leftover.is_orderly()
        &&& !resumed.leftover.is_full()
    } else {
        stream(driver) == waiting
    }
}

/// What a request asks for stays as it is.
pub open spec fn keeps_request(driver: HashView, after: HashView) -> bool {
    &&& after.algorithm == driver.algorithm
    &&& after.control.hmac == driver.control.hmac
    &&& after.data_length == driver.data_length
    &&& after.key_length == driver.key_length
}

/// The same request is under way, for the same client.
pub open spec fn same_request(driver: HashView, after: HashView) -> bool {
    &&& keeps_request(driver, after)
    &&& after.client == driver.client
    &&& after.cancelled == driver.cancelled
}

/// The driver has taken up data that was missing.
pub open spec fn took_up(
    driver: HashView,
    after: HashView,
    left: usize,
    data_type: DataType,
    answer: Answer,
) -> bool {
    let count = answer.count->Ok_0;
    &&& after.wf()
    &&& same_request(driver, after)
    &&& after.state == Some(
        if count == left {
            State::Run(false, data_type)
        } else {
            State::Add((left - count) as usize, data_type)
        },
    )
    &&& awaits(after, data_type, count < left)
    &&& holds(after, driver.leftover.bytes() + answer.data())
}

/// The driver after data was added in a deferred call.
proof fn lemma_added(driver: HashView, left: usize, data_type: DataType, answer: Answer)
    requires
        can_load(driver, data_type, answer),
        answer.count->Ok_0 <= left,
        awaits(driver, data_type, true),
        !driver.deferred_call,
        !driver.interrupts.input_ready,
        driver.streams(DataType::Input) || driver.transfer_mode is Dma,
    ensures
        ({
            let (after, done) = driver.added(left, data_type, answer);
            &&& done is None
            &&& took_up(driver, after, left, data_type, answer)
        }),
{
    lemma_loaded_frame(driver, data_type, answer);
    lemma_loading(driver, data_type, answer);
    let (loaded, result) = driver.loaded(data_type, answer);
    let after = driver.added(left, data_type, answer).0;
    assert(stream(after) == stream(loaded));
    if loaded.leftover.is_full() {
        assert(stream(after.resumed().0) == stream(loaded.resumed().0));
    }
}

/// The words that were entered, and what the driver then has.
proof fn lemma_entered(course: Course, reached: HashView, entered: Course, data: Seq<u8>)
    requires
        course.entered.len() % 4 == 0,
        course.driver.data_in.len() == 0,
        course.driver.dma_buffer is None,
        !course.driver.leftover.is_full(),
        course.entered + stream(course.driver) == course.delivered,
        holds(reached, course.driver.leftover.bytes() + data),
        entered.entered == course.entered + hash::word_bytes(reached.data_in),
        entered.delivered == course.delivered + data,
        entered.driver == (HashView {
            data_in: Seq::empty(),
            control: entered.driver.control,
            start: entered.driver.start,
            ..reached
        }),
    ensures
        in_order(entered),
{
    let driver = entered.driver;
    if reached.leftover.is_full() {
        let resumed = reached.resumed().0;
        lemma_ordered(course, resumed, data);
        assert(reached.data_in =~= Seq::<u32>::empty());
        assert(stream(driver.resumed().0) == stream(resumed));
        assert(hash::word_bytes(reached.data_in) =~= Seq::<u8>::empty());
        assert(entered.entered =~= course.entered);
    } else {
        lemma_ordered(course, reached, data);
        lemma_flushed_stream(driver);
    }
}

/// What a deferred call that adds data comes down to.
proof fn lemma_called(course: Course, step: Step, left: usize, data_type: DataType)
    requires
        on_course(course),
        course.happens(step),
        step.event is DeferredCall,
        course.driver.state == Some(State::Add(left, data_type)),
    ensures
        ({
            let called = HashView { deferred_call: false, ..course.seen(step) };
            let answer = hash::answer(step.calls);
            &&& course.asks(step) == called.load_asks(data_type, left as nat)
            &&& course.reached(step) == called.added(left, data_type, answer)
            &&& hash::exchanged(step.calls, course.asks(step), course.reached(step).1)
            &&& !called.lacks_key(data_type) ==> course.asks(step) is Some
            &&& course.asks(step) is Some && answer.count is Ok ==> {
                &&& can_load(called, data_type, answer)
                &&& answer.count->Ok_0 <= left
            }
            &&& course.driver.dma_buffer is None
            &&& !course.driver.leftover.is_full()
        }),
{
}

/// The data of an answer that was given in full.
proof fn lemma_longer(course: Course, after: Course, data: Seq<u8>)
    requires
        taken(course.told) == joined(course.parts) + course.delivered,
        taken(after.told) == taken(course.told) + data,
        after.parts == course.parts,
        after.delivered == course.delivered + data,
    ensures
        taken(after.told) == joined(after.parts) + after.delivered,
{
    assert(joined(course.parts) + (course.delivered + data) =~= (joined(course.parts)
        + course.delivered) + data);
}

/// A request that has taken up data goes on.
proof fn lemma_data_taken(
    course: Course,
    step: Step,
    reached: HashView,
    left: usize,
    data_type: DataType,
)
    requires
        on_course(course),
        course.driver.state == Some(State::Add(left, data_type)),
        course.driver.dma_buffer is None,
        !course.driver.leftover.is_full(),
        course.asks(step) is Some,
        hash::exchanged(step.calls, course.asks(step), None),
        hash::answer(step.calls).count is Ok,
        hash::answer(step.calls).count->Ok_0 <= left,
        hash::answer(step.calls).count->Ok_0 <= hash::answer(step.calls).buffer.len(),
        took_up(course.driver, reached, left, data_type, hash::answer(step.calls)),
        reached == course.reached(step).0,
        !(step.event is TransferEnd),
    ensures
        on_course(course.after(step)),
{
    let answer = hash::answer(step.calls);
    let after = course.after(step);
    lemma_asked(course, step);
    assert(!course.starts(step));
    lemma_longer(course, after, answer.data());
    lemma_entered(course, reached, after, answer.data());
    assert(answer.data().len() == answer.count->Ok_0);
}

/// A deferred call that adds data.
proof fn lemma_add_deferred(course: Course, step: Step, left: usize, data_type: DataType)
    requires
        on_course(course),
        course.happens(step),
        step.event is DeferredCall,
        course.driver.state == Some(State::Add(left, data_type)),
    ensures
        goes_on(course, step),
{
    let called = HashView { deferred_call: false, ..course.seen(step) };
    let answer = hash::answer(step.calls);
    lemma_called(course, step, left, data_type);
    if called.lacks_key(data_type) || answer.count is Err {
        assert(course.reached(step).1 matches Some(Err(_))) by {
            lemma_loaded_frame(called, data_type, answer);
        }
        lemma_failed(course, step);
    } else {
        lemma_added(called, left, data_type, answer);
        lemma_data_taken(course, step, course.reached(step).0, left, data_type);
    }
}

/// An interrupt that comes while no digest is awaited finds room in the FIFO.
proof fn lemma_room(course: Course, step: Step)
    requires
        on_course(course),
        course.happens(step),
        step.event is Interrupt,
        !course.driver.interrupts.digest_complete,
    ensures
        course.seen(step).room_due(),
        course.driver.interrupts.input_ready,
        !course.seen(step).digest_due(),
        course.reached(step) == course.seen(step).silenced().given_room(hash::answer(step.calls)),
        course.asks(step) == course.seen(step).room_asks(),
        hash::exchanged(step.calls, course.asks(step), course.reached(step).1),
{
}

/// The driver after data was added for which there was room.
proof fn lemma_room_added(driver: HashView, left: usize, data_type: DataType, answer: Answer)
    requires
        driver.state == Some(State::Add(left, data_type)),
        driver.streams(data_type),
        can_load(driver, data_type, answer),
        answer.count->Ok_0 <= left,
        awaits(driver, data_type, true),
        !driver.interrupts.input_ready,
    ensures
        ({
            let (after, done) = driver.given_room(answer);
            &&& done is None
            &&& took_up(driver, after, left, data_type, answer)
        }),
{
    lemma_loaded_frame(driver, data_type, answer);
    lemma_loading(driver, data_type, answer);
    let (loaded, result) = driver.loaded(data_type, answer);
    let after = driver.given_room(answer).0;
    assert(stream(after) == stream(loaded));
}

/// An interrupt that has data added word by word.
proof fn lemma_add_room(course: Course, step: Step)
    requires
        on_course(course),
        course.happens(step),
        step.event is Interrupt,
        course.driver.state matches Some(State::Add(_, _)),
        !course.driver.leftover.is_full(),
    ensures
        goes_on(course, step),
{
    let silenced = course.seen(step).silenced();
    let left = course.driver.state->0->Add_0;
    let data_type = course.driver.state->0.data_type();
    let answer = hash::answer(step.calls);
    lemma_room(course, step);
    assert(course.driver.dma_buffer is None);
    assert(!course.starts(step)) by {
        lemma_loaded_frame(silenced, data_type, answer);
    }
    if silenced.lacks_key(data_type) || answer.count is Err {
        lemma_failed(course, step);
    } else {
        lemma_room_added(silenced, left, data_type, answer);
        lemma_data_taken(course, step, course.reached(step).0, left, data_type);
    }
}

/// An interrupt that takes up what was held back.
proof fn lemma_held_room(course: Course, step: Step)
    requires
        on_course(course),
        course.happens(step),
        step.event is Interrupt,
        course.driver.leftover.is_full(),
    ensures
        goes_on(course, step),
{
    let silenced = course.seen(step).silenced();
    let reached = course.reached(step).0;
    let resumed = course.driver.resumed().0;
    let after = course.after(step);
    lemma_room(course, step);
    assert(course.reached(step) == silenced.resumed());
    assert(reached.state == course.driver.state);
    assert(stream(reached) == stream(resumed));
    lemma_asked(course, step);
    assert(course.entered + hash::word_bytes(reached.data_in) + (hash_laws::in_transfer(reached)
        + reached.leftover.bytes()) =~= course.entered + stream(resumed));
    lemma_flushed_stream(after.driver);
    assert(taken(course.told) + Seq::<u8>::empty() =~= taken(course.told));
}

/// The end of a transfer.
proof fn lemma_transfer(course: Course, step: Step)
    requires
        on_course(course),
        course.happens(step),
        step.event is TransferEnd,
    ensures
        goes_on(course, step),
{
    let driver = course.driver;
    let reached = course.reached(step).0;
    let after = course.after(step);
    lemma_asked(course, step);
    lemma_flushed_stream(driver);
    lemma_flushed_stream(after.driver);
    assert(hash::word_bytes(reached.data_in) =~= Seq::<u8>::empty());
    assert(hash_laws::in_transfer(reached) =~= Seq::<u8>::empty());
    assert(after.entered + (Seq::<u8>::empty() + driver.leftover.bytes()) =~= course.entered
        + (hash_laws::in_transfer(driver) + driver.leftover.bytes()));
    assert(taken(course.told) + Seq::<u8>::empty() =~= taken(course.told));
}

/// The last word of a part holds the bytes that wait, and zeros behind them.
proof fn lemma_last_word(driver: HashView)
    requires
        driver.leftover.is_orderly(),
        driver.leftover.buffer is Some,
        driver.data_in.len() == 0,
    ensures
        hash::word_bytes(driver.leftover_written().data_in) == driver.leftover.bytes()
            + bytes::zeros((4 - driver.leftover.index) as nat),
{
    let leftover = driver.leftover;
    let word = leftover.word();
    hash_utils::law_word_is_little_endian(leftover, 0);
    hash_utils::law_word_is_little_endian(leftover, 1);
    hash_utils::law_word_is_little_endian(leftover, 2);
    hash_utils::law_word_is_little_endian(leftover, 3);
    assert(driver.leftover_written().data_in =~= seq![word]);
    assert(hash::word_bytes(seq![word]) =~= leftover.bytes() + bytes::zeros(
        (4 - leftover.index) as nat,
    ));
}

/// A part whose last word was entered is complete.
proof fn lemma_part(course: Course, entered: Seq<u8>)
    requires
        course.driver.wf(),
        course.driver.data_in.len() == 0,
        course.driver.dma_buffer is None,
        !course.driver.leftover.is_full(),
        in_order(course),
        entered == course.entered + hash::word_bytes(
            if course.driver.leftover.buffer is Some {
                course.driver.leftover_written().data_in
            } else {
                course.driver.data_in
            },
        ),
    ensures
        entered == course.delivered + bytes::zeros(padding(course.delivered.len())),
{
    let driver = course.driver;
    let waiting = driver.leftover.bytes();
    lemma_flushed_stream(driver);
    assert(stream(driver) =~= waiting);
    assert(course.delivered.len() % 4 == waiting.len());
    if driver.leftover.buffer is Some {
        lemma_last_word(driver);
        let zeros = bytes::zeros((4 - driver.leftover.index) as nat);
        assert(course.entered + (waiting + zeros) =~= (course.entered + waiting) + zeros);
    } else {
        assert(entered =~= course.delivered + bytes::zeros(0));
    }
}

/// A computation that is started, from a driver that differs from the request's by what it waits for.
proof fn lemma_started(course: Course, step: Step, driver: HashView, data_type: DataType)
    requires
        on_course(course),
        course.driver.state == Some(State::Run(false, data_type)),
        course.driver.dma_buffer is None,
        !course.driver.leftover.is_full(),
        course.asks(step) is None,
        hash::exchanged(step.calls, course.asks(step), None),
        !(step.event is TransferEnd),
        driver == (HashView {
            status: driver.status,
            digest: driver.digest,
            deferred_call: false,
            interrupts: Interrupts { digest_complete: false, input_ready: false },
            ..course.driver
        }),
        driver.digest.len() == hash::DIGEST_WORDS,
        driver.ran(data_type).1 == Ok::<bool, ErrorCode>(true),
        course.reached(step).0 == driver.ran(data_type).0,
    ensures
        on_course(course.after(step)),
{
    let reached = course.reached(step).0;
    let after = course.after(step);
    let before = place(driver.control.hmac, data_type);
    lemma_asked(course, step);
    assert(course.starts(step));
    let part = after.parts.last();
    lemma_part(course, part.entered);
    assert(taken(course.told) + Seq::<u8>::empty() =~= taken(course.told));
    assert(after.parts.drop_last() =~= course.parts);
    assert(joined(after.parts) + Seq::<u8>::empty() =~= joined(course.parts) + course.delivered);
    assert(part.is_complete(driver.length_of(data_type) as nat));
    assert forall|i: int| 0 <= i < before + 1 implies {
        &&& (#[trigger] after.parts[i]).data_type == kinds(driver.control.hmac)[i]
        &&& after.parts[i].is_complete(driver.length_of(after.parts[i].data_type) as nat)
    } by {
        if i < before {
            assert(after.parts[i] == course.parts[i]);
        }
    }
}

/// A deferred call when all data was added.
proof fn lemma_run_deferred(course: Course, step: Step, data_type: DataType)
    requires
        on_course(course),
        course.happens(step),
        step.event is DeferredCall,
        course.driver.state == Some(State::Run(false, data_type)),
    ensures
        goes_on(course, step),
{
    let called = HashView { deferred_call: false, ..course.seen(step) };
    let after = course.after(step);
    assert(course.asks(step) is None);
    if course.driver.dma_buffer is None && called.ran(data_type).1 == Ok::<bool, ErrorCode>(true) {
        lemma_started(course, step, called, data_type);
    } else {
        let reached = course.reached(step).0;
        assert(course.reached(step).1 is None);
        lemma_asked(course, step);
        assert(hash::word_bytes(reached.data_in) =~= Seq::<u8>::empty());
        assert(after.entered =~= course.entered);
        assert(after.driver.data_in =~= course.driver.data_in);
        assert(stream(after.driver) == stream(course.driver));
        assert(taken(course.told) + Seq::<u8>::empty() =~= taken(course.told));
    }
}

/// An interrupt when all data was added.
proof fn lemma_run_room(course: Course, step: Step, data_type: DataType)
    requires
        on_course(course),
        course.happens(step),
        step.event is Interrupt,
        course.driver.state == Some(State::Run(false, data_type)),
        !course.driver.leftover.is_full(),
    ensures
        goes_on(course, step),
{
    let silenced = course.seen(step).silenced();
    lemma_room(course, step);
    assert(course.driver.dma_buffer is None);
    if silenced.ran(data_type).1 == Ok::<bool, ErrorCode>(true) {
        lemma_started(course, step, silenced, data_type);
    } else {
        lemma_failed(course, step);
    }
}

/// An interrupt that ends a computation on which another part follows.
proof fn lemma_next_part(course: Course, step: Step, data_type: DataType)
    requires
        on_course(course),
        course.happens(step),
        step.event is Interrupt,
        course.driver.state == Some(State::Run(true, data_type)),
        course.driver.interrupts.input_ready,
    ensures
        goes_on(course, step),
{
    let after = course.after(step);
    let reached = course.reached(step).0;
    lemma_room(course, step);
    lemma_asked(course, step);
    assert(hash::word_bytes(reached.data_in) =~= Seq::<u8>::empty());
    assert(after.entered =~= Seq::<u8>::empty());
    assert(after.delivered =~= Seq::<u8>::empty());
    assert(stream(after.driver) =~= Seq::<u8>::empty());
    assert(after.entered + stream(after.driver) =~= after.delivered);
    assert(taken(course.told) + Seq::<u8>::empty() =~= taken(course.told));
}

/// An interrupt that finds the digest.
proof fn lemma_digest(course: Course, step: Step, data_type: DataType)
    requires
        on_course(course),
        course.happens(step),
        step.event is Interrupt,
        course.driver.state == Some(State::Run(true, data_type)),
        course.driver.interrupts.digest_complete,
    ensures
        goes_on(course, step),
{
    let seen = course.seen(step);
    let after = course.after(step);
    let told = after.told;
    assert(seen.digest_due());
    assert(hash::digest_reported(seen, step.calls));
    let writes = step.calls.drop_last();
    let count = (course.driver.algorithm->0.digest_len() / 4) as int;
    assert(told.last() == step.calls.last());
    assert forall|i: int| 0 <= i < told.len() - 1 implies !((#[trigger] told.drop_last()[i]) is Done) by {
        if i < course.told.len() {
            assert(told[i] == course.told[i]);
        } else {
            assert(told[i] == writes[i - course.told.len()]);
        }
    }
    if told.last()->Done_result is Ok {
        assert(told.take(told.len() - 1 - count) =~= course.told);
        assert(told.subrange(told.len() - 1 - count, told.len() - 1) =~= writes);
        assert(course.delivered =~= Seq::<u8>::empty());
        assert(joined(course.parts) + Seq::<u8>::empty() =~= joined(course.parts));
        assert(told.last()->Done_result->Ok_0 == ());
        assert(told.last()->Done_result == Ok::<(), ErrorCode>(()));
    } else {
        assert(writes.last() == step.calls[step.calls.len() - 2]);
    }
}

/// Every call of the driver takes a request on, or ends it.
proof fn lemma_step(course: Course, step: Step)
    requires
        on_course(course),
        course.happens(step),
    ensures
        goes_on(course, step),
{
    let state = course.driver.state->0;
    match step.event {
        Event::TransferEnd => {
            lemma_transfer(course, step);
        },
        Event::DeferredCall => match state {
            State::Add(left, data_type) => {
                lemma_add_deferred(course, step, left, data_type);
            },
            State::Run(_, data_type) => {
                lemma_run_deferred(course, step, data_type);
            },
        },
        Event::Interrupt => match state {
            State::Run(true, data_type) => {
                if course.driver.interrupts.input_ready {
                    lemma_next_part(course, step, data_type);
                } else {
                    lemma_digest(course, step, data_type);
                }
            },
            State::Run(false, data_type) => {
                if course.driver.leftover.is_full() {
                    lemma_held_room(course, step);
                } else {
                    lemma_run_room(course, step, data_type);
                }
            },
            State::Add(_, _) => {
                if course.driver.leftover.is_full() {
                    lemma_held_room(course, step);
                } else {
                    lemma_add_room(course, step);
                }
            },
        },
    }
}

proof fn lemma_resumed_keeps(driver: HashView)
    ensures
        keeps_request(driver, driver.resumed().0),
{
}

proof fn lemma_ran_keeps(driver: HashView, data_type: DataType)
    ensures
        keeps_request(driver, driver.ran(data_type).0),
{
}

proof fn lemma_given_room_keeps(driver: HashView, answer: Answer)
    requires
        driver.state is Some,
    ensures
        keeps_request(driver, driver.given_room(answer).0),
{
    let data_type = driver.state->0.data_type();
    lemma_resumed_keeps(driver);
    lemma_ran_keeps(driver, data_type);
    lemma_loaded_frame(driver, data_type, answer);
}

proof fn lemma_deferred_keeps(driver: HashView, answer: Answer)
    ensures
        keeps_request(driver, driver.deferred(answer).0),
{
    let called = HashView { deferred_call: false, ..driver };
    if let Some(state) = driver.state {
        lemma_ran_keeps(called, state.data_type());
        lemma_loaded_frame(called, state.data_type(), answer);
    }
}

proof fn lemma_keeps_request(course: Course, step: Step)
    ensures
        keeps_request(course.driver, course.after(step).driver),
{
    let seen = course.seen(step);
    let answer = hash::answer(step.calls);
    match step.event {
        Event::DeferredCall => {
            lemma_deferred_keeps(seen, answer);
        },
        Event::Interrupt => {
            if seen.state is Some {
                lemma_given_room_keeps(seen.silenced(), answer);
            }
        },
        Event::TransferEnd => {},
    }
}

impl Course {
    /// Where a request fails, the client or the accelerator is the cause.
    pub open spec fn fails_for_cause(self, steps: Seq<Step>) -> bool
        decreases steps.len(),
    {
        steps.len() > 0 ==> {
            let after = self.after(steps[0]);
            &&& after.driver.state is None && after.told.last()->Done_result is Err ==> has_cause(
                self,
                steps[0],
            )
            &&& after.fails_for_cause(steps.skip(1))
        }
    }
}

/// Calls of the driver, one after the other.
proof fn lemma_steps(course: Course, steps: Seq<Step>)
    requires
        on_course(course),
        course.runs(steps),
    ensures
        ({
            let end = course.end(steps);
            &&& if end.driver.state is Some {
                on_course(end)
            } else {
                is_over(end)
            }
            &&& course.fails_for_cause(steps)
            &&& keeps_request(course.driver, end.driver)
        }),
    decreases steps.len(),
{
    reveal_with_fuel(Course::runs, 2);
    reveal_with_fuel(Course::end, 2);
    reveal_with_fuel(Course::fails_for_cause, 2);
    if steps.len() > 0 {
        let after = course.after(steps[0]);
        lemma_step(course, steps[0]);
        lemma_keeps_request(course, steps[0]);
        if after.driver.state is Some {
            lemma_steps(after, steps.skip(1));
        } else {
            assert(steps.skip(1).len() == 0);
        }
    }
}

/// No operation runs, nothing of an earlier one is left over, and the DMA buffer is at hand.
pub open spec fn is_idle(driver: HashView) -> bool {
    &&& driver.wf()
    &&& driver.client is Some
    &&& driver.state is None
    &&& driver.data_in.len() == 0
    &&& driver.dma_buffer is None
    &&& !driver.interrupts.digest_complete
    &&& !driver.interrupts.input_ready
    &&& hash_laws::keeps_buffer(driver)
}

/// `told` are requests for data, which delivered `data`, then the digest in full, then one report of
/// success.
pub open spec fn digest_told(
    told: Seq<Call>,
    data: Seq<u8>,
    digest: Seq<u32>,
    algorithm: Algorithm,
) -> bool {
    let count = (algorithm.digest_len() / 4) as int;
    let reads = told.take(told.len() - 1 - count);
    &&& told.len() > count
    &&& only_reads(reads)
    &&& taken(reads) == data
    &&& hash::digest_delivered(
        digest,
        count as nat,
        told.subrange(told.len() - 1 - count, told.len() - 1),
        Ok(()),
    )
    &&& told.last() == (Call::Done { result: Ok(()) })
}

/// A digest from its request to its end, in whatever pieces the client delivers the input, by
/// processor or by DMA. While it is under way the client is only asked for data. Once it has ended
/// the client has been told so once, behind all other calls. A success comes after exactly `len`
/// bytes of input, which were entered in the order in which they came, with as many bits of the last
/// word as count, and after the digest in full. A failure has its cause with the client or in an
/// accelerator that is busy though it has room.
pub proof fn law_whole_digest(
    driver: HashView,
    algorithm: Algorithm,
    len: usize,
    steps: Seq<Step>,
)
    requires
        is_idle(driver),
        driver.hash_result(algorithm, len) is Ok,
        Course::begun(driver.hash_begun(algorithm, len)).runs(steps),
    ensures
        ({
            let begun = Course::begun(driver.hash_begun(algorithm, len));
            let end = begun.end(steps);
            let result = end.told.last()->Done_result;
            &&& end.driver.state is Some ==> only_reads(end.told) && end.parts.len() <= 1
            &&& end.driver.state is None ==> {
                &&& trace::told_once(end.told, true)
                &&& result is Ok ==> {
                    &&& end.parts.len() == 1
                    &&& end.parts[0].data_type is Input
                    &&& end.parts[0].is_complete(len as nat)
                    &&& digest_told(
                        end.told,
                        end.parts[0].delivered,
                        end.driver.digest,
                        algorithm,
                    )
                }
            }
            &&& begun.fails_for_cause(steps)
        }),
{
    let begun = Course::begun(driver.hash_begun(algorithm, len));
    let end = begun.end(steps);
    assert(stream(begun.driver) =~= Seq::<u8>::empty());
    assert(begun.entered + stream(begun.driver) =~= begun.delivered);
    assert(joined(begun.parts) + begun.delivered =~= Seq::<u8>::empty());
    assert(on_course(begun));
    lemma_steps(begun, steps);
    if end.driver.state is None && end.told.last()->Done_result is Ok {
        assert(end.told.last()->Done_result->Ok_0 == ());
        assert(end.parts.drop_last() =~= Seq::<Part>::empty());
        assert(joined(end.parts) =~= end.parts[0].delivered) by {
            reveal_with_fuel(joined, 2);
        }
    }
}

/// A keyed digest from its request to its end, as `law_whole_digest` says of a plain one. A success
/// comes after exactly `key_len` bytes of key, `input_len` bytes of input and `key_len` bytes of key
/// again, each of them a part of its own; keys may be empty.
pub proof fn law_whole_keyed_digest(
    driver: HashView,
    algorithm: Algorithm,
    input_len: usize,
    key_len: usize,
    steps: Seq<Step>,
)
    requires
        is_idle(driver),
        driver.authenticate_result(algorithm, input_len, key_len) is Ok,
        Course::begun(driver.authenticate_begun(algorithm, input_len, key_len)).runs(steps),
    ensures
        ({
            let begun = Course::begun(driver.authenticate_begun(algorithm, input_len, key_len));
            let end = begun.end(steps);
            let result = end.told.last()->Done_result;
            &&& end.driver.state is Some ==> only_reads(end.told) && end.parts.len() <= 3
            &&& end.driver.state is None ==> {
                &&& trace::told_once(end.told, true)
                &&& result is Ok ==> {
                    &&& end.parts.len() == 3
                    &&& end.parts[0].data_type is InnerKey
                    &&& end.parts[0].is_complete(key_len as nat)
                    &&& end.parts[1].data_type is Input
                    &&& end.parts[1].is_complete(input_len as nat)
                    &&& end.parts[2].data_type is OuterKey
                    &&& end.parts[2].is_complete(key_len as nat)
                    &&& digest_told(
                        end.told,
                        end.parts[0].delivered + end.parts[1].delivered + end.parts[2].delivered,
                        end.driver.digest,
                        algorithm,
                    )
                }
            }
            &&& begun.fails_for_cause(steps)
        }),
{
    let begun = Course::begun(driver.authenticate_begun(algorithm, input_len, key_len));
    let end = begun.end(steps);
    assert(stream(begun.driver) =~= Seq::<u8>::empty());
    assert(begun.entered + stream(begun.driver) =~= begun.delivered);
    assert(joined(begun.parts) + begun.delivered =~= Seq::<u8>::empty());
    assert(on_course(begun));
    lemma_steps(begun, steps);
    if end.driver.state is None && end.told.last()->Done_result is Ok {
        assert(end.told.last()->Done_result->Ok_0 == ());
        let parts = end.parts;
        let two = parts.drop_last();
        let one = two.drop_last();
        assert(one.drop_last() =~= Seq::<Part>::empty());
        assert(joined(parts) =~= parts[0].delivered + parts[1].delivered + parts[2].delivered) by {
            reveal_with_fuel(joined, 4);
        }
    }
}

} // verus!
