//! What holds of the hash driver across its events.
use crate::error::ErrorCode;
use crate::hil::digest::Algorithm;
use crate::hil::trace::Call;
use crate::stm32u5::hash;
use crate::stm32u5::hash::{Answer, HashView};
use crate::stm32u5::hash_utils;
use crate::stm32u5::hash_utils::{DataType, State};
use crate::sub_slice::SubSliceView;
use crate::sw::bytes;
use vstd::prelude::*;

verus! {

/// Loading data ends no operation.
proof fn lemma_loaded_keeps_state(driver: HashView, data_type: DataType, answer: Answer)
    ensures
        driver.loaded(data_type, answer).0.state == driver.state,
{
}

/// Loading data calls for no event, and the DMA buffer stays at hand or in transfer.
proof fn lemma_loaded_keeps_buffer(driver: HashView, data_type: DataType, answer: Answer)
    requires
        keeps_buffer(driver),
    ensures
        keeps_buffer(driver.loaded(data_type, answer).0),
{
}

/// What is sent to the DMA is in transfer or at hand.
proof fn lemma_resumed(driver: HashView)
    requires
        driver.state is Some,
    ensures
        ({
            let (after, done) = driver.resumed();
            &&& done is Some <==> after.state is None
            &&& after.on_track()
            &&& keeps_buffer(driver) ==> keeps_buffer(after)
        }),
{
}

/// A computation that is started has an interrupt ahead of it.
proof fn lemma_ran(driver: HashView, data_type: DataType)
    requires
        driver.state == Some(State::Run(false, data_type)),
    ensures
        ({
            let (after, result) = driver.ran(data_type);
            &&& result matches Ok(true) ==> after.state is Some && after.on_track()
            &&& result matches Ok(false) ==> after == driver
            &&& keeps_buffer(driver) ==> keeps_buffer(after)
        }),
{
}

/// The end of an operation is reported exactly when a deferred call ends it; without an operation a
/// deferred call reports no end and begins none.
pub proof fn law_deferred_call_reports_once(driver: HashView, answer: Answer)
    requires
        driver.wf(),
    ensures
        ({
            let (after, done) = driver.deferred(answer);
            &&& done is Some <==> driver.state is Some && after.state is None
            &&& driver.state is None ==> after.state is None
        }),
{
    let called = HashView { deferred_call: false, ..driver };
    if let Some(state) = driver.state {
        lemma_loaded_keeps_state(called, state.data_type(), answer);
    }
}

/// Room in the FIFO takes an operation on, or ends it.
proof fn lemma_given_room(driver: HashView, answer: Answer)
    requires
        driver.state is Some,
    ensures
        ({
            let (after, done) = driver.given_room(answer);
            &&& done is Some <==> after.state is None
            &&& after.on_track()
            &&& keeps_buffer(driver) ==> keeps_buffer(after)
        }),
{
    let state = driver.state->0;
    match state {
        State::Run(false, data_type) => {
            lemma_resumed(driver);
            lemma_ran(driver, data_type);
        },
        State::Add(left, data_type) => {
            lemma_resumed(driver);
            lemma_loaded_keeps_state(driver, data_type, answer);
            if keeps_buffer(driver) {
                lemma_loaded_keeps_buffer(driver, data_type, answer);
            }
        },
        _ => {},
    }
}

/// A deferred call takes an operation on, or ends it.
proof fn lemma_deferred(driver: HashView, answer: Answer)
    requires
        driver.client is Some,
    ensures
        ({
            let (after, done) = driver.deferred(answer);
            &&& after.on_track()
            &&& keeps_buffer(driver) ==> keeps_buffer(after)
        }),
{
    let called = HashView { deferred_call: false, ..driver };
    if let Some(state) = driver.state {
        if !driver.cancelled {
            match state {
                State::Add(left, data_type) => {
                    lemma_loaded_keeps_state(called, data_type, answer);
                    if keeps_buffer(driver) {
                        lemma_loaded_keeps_buffer(called, data_type, answer);
                    }
                },
                State::Run(false, data_type) => {
                    lemma_ran(called, data_type);
                },
                _ => {},
            }
        }
    }
}

/// The end of an operation is reported exactly when an interrupt ends it; without an operation an
/// interrupt reports no end and begins none.
pub proof fn law_interrupt_reports_once(driver: HashView, answer: Answer)
    requires
        driver.wf(),
    ensures
        ({
            let (after, done) = driver.interrupted(answer);
            &&& done is Some <==> driver.state is Some && after.state is None
            &&& driver.state is None ==> after.state is None
        }),
        ({
            let (after, done) = driver.dma_interrupted();
            &&& done is Some <==> driver.state is Some && after.state is None
            &&& driver.state is None ==> after.state is None
        }),
        driver.digest_due() ==> driver.state is Some && driver.silenced().ended().state is None,
{
    if driver.state is Some {
        lemma_given_room(driver.silenced(), answer);
    }
}

/// A request that is accepted begins an operation and has the driver called; until that operation
/// has ended, every further request is refused as busy.
pub proof fn law_accepted_request_keeps_driver_busy(
    driver: HashView,
    algorithm: Algorithm,
    len: usize,
    key_len: usize,
    other: Algorithm,
    other_len: usize,
    other_key_len: usize,
)
    requires
        driver.wf(),
    ensures
        driver.hash_result(algorithm, len) is Ok ==> {
            let begun = driver.hash_begun(algorithm, len);
            &&& begun.wf()
            &&& begun.deferred_call
            &&& begun.state == Some(State::Add(len, DataType::Input))
        },
        driver.authenticate_result(algorithm, len, key_len) is Ok ==> {
            let begun = driver.authenticate_begun(algorithm, len, key_len);
            &&& begun.wf()
            &&& begun.deferred_call
            &&& begun.state == Some(State::Add(key_len, DataType::InnerKey))
        },
        driver.state is Some ==> driver.hash_result(other, other_len) == Err::<(), ErrorCode>(
            ErrorCode::BUSY,
        ) && driver.authenticate_result(other, other_len, other_key_len) == Err::<(), ErrorCode>(
            ErrorCode::BUSY,
        ),
{
}

/// An accepted request comes to its end: at each moment from the request on, an operation that runs
/// has a call of the driver, an interrupt or a transfer ahead of it. The request brings that about;
/// a deferred call, an interrupt that the accelerator has raised, the end of a transfer and a request
/// to clear the data keep it so, whatever the client answers.
pub proof fn law_operation_stays_on_track(
    driver: HashView,
    algorithm: Algorithm,
    len: usize,
    key_len: usize,
    answer: Answer,
)
    requires
        driver.wf(),
        driver.client is Some,
    ensures
        driver.hash_result(algorithm, len) is Ok ==> driver.hash_begun(algorithm, len).on_track(),
        driver.authenticate_result(algorithm, len, key_len) is Ok ==> driver.authenticate_begun(
            algorithm,
            len,
            key_len,
        ).on_track(),
        driver.deferred(answer).0.on_track(),
        driver.status.digest_complete || driver.status.input_ready ==> driver.interrupted(
            answer,
        ).0.on_track(),
        driver.silenced().ended().on_track(),
        driver.on_track() ==> driver.dma_interrupted().0.on_track(),
        driver.on_track() ==> driver.cleared().on_track(),
{
    lemma_deferred(driver, answer);
    if driver.state is Some {
        lemma_given_room(driver.silenced(), answer);
    }
}

/// No computation is started while data is on its way to the accelerator: a deferred call that finds
/// a transfer waits for its end, which has the driver called again.
pub proof fn law_no_start_during_a_transfer(driver: HashView, answer: Answer)
    requires
        driver.wf(),
        driver.client is Some,
        !driver.cancelled,
        driver.state matches Some(State::Run(false, _)),
        driver.dma_buffer is Some,
    ensures
        driver.deferred(answer).0 == (HashView { deferred_call: false, ..driver }),
        driver.deferred(answer).1 is None,
        driver.dma_interrupted().0.deferred_call,
        driver.dma_interrupted().0.state == driver.state,
        driver.dma_interrupted().0.dma_buffer is None,
{
}

/// The DMA buffer is at hand or in transfer.
pub open spec fn keeps_buffer(driver: HashView) -> bool {
    driver.dma_channel is Some ==> driver.data_buffer is Some || driver.dma_buffer is Some
}

/// The buffer for the DMA is never lost: it is at hand or in transfer, whatever the client answers.
pub proof fn law_dma_buffer_is_kept(
    driver: HashView,
    algorithm: Algorithm,
    len: usize,
    key_len: usize,
    answer: Answer,
)
    requires
        driver.wf(),
        driver.client is Some,
        keeps_buffer(driver),
    ensures
        keeps_buffer(driver.hash_begun(algorithm, len)),
        keeps_buffer(driver.authenticate_begun(algorithm, len, key_len)),
        keeps_buffer(driver.deferred(answer).0),
        keeps_buffer(driver.interrupted(answer).0),
        keeps_buffer(driver.silenced().ended()),
        keeps_buffer(driver.dma_interrupted().0),
        keeps_buffer(driver.cleared()),
{
    lemma_deferred(driver, answer);
    if driver.state is Some {
        lemma_given_room(driver.silenced(), answer);
    }
}

/// A key that is due from a client that has none ends the operation with `INVAL`, and the client is
/// asked for nothing.
pub proof fn law_client_without_key_is_not_asked(driver: HashView, answer: Answer)
    requires
        driver.wf(),
        !driver.cancelled,
        driver.state matches Some(State::Add(_, data_type)) && driver.lacks_key(data_type),
    ensures
        driver.deferred_asks() is None,
        driver.deferred(answer).1 == Some(Err::<(), ErrorCode>(ErrorCode::INVAL)),
        driver.interrupt_asks() is None,
        driver.room_due() ==> driver.interrupted(answer).1 == Some(
            Err::<(), ErrorCode>(ErrorCode::INVAL),
        ),
{
}

/// A running operation that is told to clear its data ends with `CANCEL` at the next event that
/// reaches a client.
pub proof fn law_cleared_operation_is_cancelled(driver: HashView, answer: Answer)
    requires
        driver.wf(),
        driver.state is Some,
        driver.client is Some,
    ensures
        driver.cleared().deferred(answer).1 == Some(
            Err::<(), ErrorCode>(ErrorCode::CANCEL),
        ),
        driver.cleared().interrupted(answer).1 == Some(
            Err::<(), ErrorCode>(ErrorCode::CANCEL),
        ),
        driver.dma_buffer is Some ==> driver.cleared().dma_interrupted().1 == Some(
            Err::<(), ErrorCode>(ErrorCode::CANCEL),
        ),
{
}

/// No more is asked of a client than is missing, and what it delivers is missing no longer: in total
/// no more is asked for than the request said.
pub proof fn law_asks_for_what_is_missing(
    driver: HashView,
    left: usize,
    data_type: DataType,
    answer: Answer,
)
    requires
        driver.wf(),
        driver.state == Some(State::Add(left, data_type)),
        driver.deferred_asks() matches Some((_, len)) ==> {
            &&& answer.buffer.len() == len
            &&& answer.count matches Ok(count) ==> count <= len
        },
    ensures
        driver.deferred_asks() matches Some((port, len)) ==> len <= left && port == hash::port_of(
            data_type,
        ),
        ({
            let (after, done) = driver.deferred(answer);
            driver.deferred_asks() is Some && done is None ==> {
                &&& answer.count is Ok
                &&& after.state == Some(
                    if answer.count->Ok_0 == left {
                        State::Run(false, data_type)
                    } else {
                        State::Add((left - answer.count->Ok_0) as usize, data_type)
                    },
                )
            }
        }),
{
}

/// A keyed digest takes the inner key, then the input, then the outer key, each in its full length,
/// an empty key too: only the computation on the outer key is awaited for the digest, the others for
/// room for what follows.
pub proof fn law_keyed_digest_in_three_parts(driver: HashView, answer: Answer)
    requires
        driver.wf(),
        driver.state is Some,
    ensures
        driver.control.hmac && !driver.interrupts.digest_complete ==> forall|data_type: DataType|
            #[trigger] driver.ran(data_type).1 == Ok::<bool, ErrorCode>(true) ==> {
                let interrupts = driver.ran(data_type).0.interrupts;
                &&& interrupts.digest_complete <==> data_type is OuterKey
                &&& data_type !is OuterKey ==> interrupts.input_ready
            },
        driver.state == Some(State::Run(true, DataType::InnerKey)) ==> driver.given_room(
            answer,
        ).0.state == Some(State::Add(driver.data_length, DataType::Input)),
        driver.state == Some(State::Run(true, DataType::Input)) ==> driver.given_room(
            answer,
        ).0.state == Some(State::Add(driver.key_length, DataType::OuterKey)),
        driver.state == Some(State::Run(true, DataType::OuterKey)) ==> driver.given_room(
            answer,
        ).1 == Some(Err::<(), ErrorCode>(ErrorCode::FAIL)),
{
}

/// A digest that the client takes in full comes in as many bytes as the algorithm's digest has.
pub proof fn law_digest_in_full(
    algorithm: Algorithm,
    digest: Seq<u32>,
    calls: Seq<Call>,
    result: Result<(), ErrorCode>,
)
    requires
        hash::digest_delivered(digest, algorithm.digest_len() / 4, calls, result),
        result is Ok,
    ensures
        4 * calls.len() == algorithm.digest_len(),
        forall|i: int|
            0 <= i < calls.len() ==> match #[trigger] calls[i] {
                Call::Write { data, .. } => data.len() == 4 && bytes::be_value(data)
                    == digest[i],
                _ => false,
            },
{
    assert forall|i: int| 0 <= i < calls.len() implies match #[trigger] calls[i] {
        Call::Write { data, .. } => data.len() == 4 && bytes::be_value(data) == digest[i],
        _ => false,
    } by {
        assert(bytes::pow256(4) == 4294967296) by {
            reveal_with_fuel(bytes::pow256, 6);
        }
        bytes::law_be_round_trip(digest[i] as nat, 4);
        assert(calls[i]->Write_data == bytes::be_bytes(digest[i] as nat, 4));
        bytes::lemma_be_bytes_len(digest[i] as nat, 4);
    }
}

/// The whole words of a message and what follows them make up the message.
pub proof fn law_words_and_tail_make_the_message(data: Seq<u8>)
    ensures
        hash::word_bytes(hash::words(data)) + hash::tail(data) == data,
        hash::tail(data).len() < 4,
{
    let joined = hash::word_bytes(hash::words(data)) + hash::tail(data);
    assert forall|i: int| 0 <= i < data.len() implies joined[i] == data[i] by {
        if i < data.len() / 4 * 4 {
            let at = 4 * (i / 4);
            hash_utils::law_word_gives_back_bytes(
                data[at],
                data[at + 1],
                data[at + 2],
                data[at + 3],
            );
            assert(hash::words(data)[i / 4] == hash_utils::le_word(
                data[at],
                data[at + 1],
                data[at + 2],
                data[at + 3],
            ));
        }
    }
    assert(joined =~= data);
}

/// Words one after the other give their bytes one after the other.
pub proof fn lemma_word_bytes_append(a: Seq<u32>, b: Seq<u32>)
    ensures
        hash::word_bytes(a + b) == hash::word_bytes(a) + hash::word_bytes(b),
{
    let joined = hash::word_bytes(a) + hash::word_bytes(b);
    assert forall|i: int| 0 <= i < joined.len() implies hash::word_bytes(a + b)[i] == joined[i] by {
        if i >= 4 * a.len() {
            assert((i - 4 * a.len()) / 4 == i / 4 - a.len());
            assert((i - 4 * a.len()) % 4 == i % 4);
        }
    }
    assert(hash::word_bytes(a + b) =~= joined);
}

/// The bytes that the DMA is transferring.
pub open spec fn in_transfer(driver: HashView) -> Seq<u8> {
    match driver.dma_buffer {
        Some(slice) => slice.active(),
        None => Seq::empty(),
    }
}

/// A word that is taken from a full leftover holds its bytes.
proof fn lemma_full_word(driver: HashView)
    requires
        driver.leftover.is_orderly(),
        driver.leftover.is_full(),
    ensures
        hash::word_bytes(driver.leftover_written().data_in) == hash::word_bytes(driver.data_in)
            + driver.leftover.bytes(),
        driver.leftover_written().leftover == hash_utils::LeftoverView::empty(),
{
    let word = driver.leftover.word();
    lemma_word_bytes_append(driver.data_in, seq![word]);
    assert(driver.data_in.push(word) =~= driver.data_in + seq![word]);
    hash_utils::law_word_is_little_endian(driver.leftover, 0);
    hash_utils::law_word_is_little_endian(driver.leftover, 1);
    hash_utils::law_word_is_little_endian(driver.leftover, 2);
    hash_utils::law_word_is_little_endian(driver.leftover, 3);
    assert(hash::word_bytes(seq![word]) =~= driver.leftover.bytes());
}

/// What `sent` does to the stream.
proof fn lemma_sent_in_order(driver: HashView, slice: SubSliceView)
    requires
        slice.wf(),
        driver.leftover == hash_utils::LeftoverView::empty(),
        driver.dma_buffer is None,
    ensures
        driver.sent(slice).data_in == driver.data_in,
        driver.sent(slice).leftover.is_orderly(),
        in_transfer(driver.sent(slice)) + driver.sent(slice).leftover.bytes() == slice.active(),
        in_transfer(driver.sent(slice)).len() % 4 == 0,
        !driver.sent(slice).leftover.is_full(),
{
    let active = slice.active();
    let rest = HashView::whole_words(slice);
    hash_utils::law_filled_waits_in_order(driver.leftover, hash::tail(active));
    assert(driver.leftover.bytes() =~= Seq::<u8>::empty());
    assert(driver.leftover.bytes() + hash::tail(active) =~= hash::tail(active));
    assert(rest.active() =~= active.take((active.len() / 4 * 4) as int));
    assert(rest.active() + hash::tail(active) =~= active);
    assert(rest.active().len() == 0 ==> Seq::<u8>::empty() + hash::tail(active) =~= active);
}

/// Input that the client delivers can go to the DMA.
pub open spec fn dma_ready(driver: HashView, answer: Answer) -> bool {
    &&& driver.wf()
    &&& !driver.streams(DataType::Input)
    &&& driver.data_buffer is Some
    &&& driver.dma_channel is Some
    &&& driver.dma_buffer is None
    &&& driver.leftover.is_orderly()
    &&& !driver.leftover.is_full()
    &&& answer.buffer.len() <= driver.data_buffer->0.data.len()
    &&& answer.count is Ok
    &&& answer.count->Ok_0 <= answer.buffer.len()
}

/// `after` has the bytes of `driver`, in order, and then the data.
pub open spec fn continues(driver: HashView, after: HashView, data: Seq<u8>) -> bool {
    &&& hash::word_bytes(after.data_in) + in_transfer(after) + after.leftover.bytes()
        == hash::word_bytes(driver.data_in) + driver.leftover.bytes() + data
    &&& in_transfer(after).len() % 4 == 0
    &&& after.leftover.is_orderly()
}

/// The buffer after the client's answer holds what was delivered.
proof fn lemma_received(driver: HashView, answer: Answer)
    requires
        dma_ready(driver, answer),
    ensures
        driver.received(answer).wf(),
        driver.received(answer).active() == answer.data(),
{
    let room = driver.data_buffer->0;
    let slice = driver.received(answer);
    assert(room.wf());
    assert(slice.data.len() == room.data.len());
    assert(slice.active() =~= answer.data());
}

/// Nothing waited before the data.
proof fn lemma_sent_continues(driver: HashView, slice: SubSliceView)
    requires
        slice.wf(),
        driver.leftover.is_orderly(),
        driver.leftover.buffer is None,
        driver.dma_buffer is None,
    ensures
        continues(driver, driver.sent(slice), slice.active()),
        !driver.sent(slice).leftover.is_full(),
{
    lemma_sent_in_order(driver, slice);
    let after = driver.sent(slice);
    let before = hash::word_bytes(driver.data_in);
    assert(driver.leftover.bytes() =~= Seq::<u8>::empty());
    assert(before + in_transfer(after) + after.leftover.bytes() =~= before + (in_transfer(after)
        + after.leftover.bytes()));
    assert(before + Seq::<u8>::empty() + slice.active() =~= before + slice.active());
}

/// Something waited before the data, and the data does not complete a word.
proof fn lemma_waiting_continues(driver: HashView, data: Seq<u8>)
    requires
        driver.leftover.is_orderly(),
        driver.leftover.index + data.len() <= 4,
        driver.dma_buffer is None,
    ensures
        continues(
            driver,
            HashView { leftover: driver.leftover.filled(data), ..driver },
            data,
        ),
{
    hash_utils::law_filled_waits_in_order(driver.leftover, data);
    let before = hash::word_bytes(driver.data_in);
    let waiting = driver.leftover.bytes();
    assert(before + waiting + data =~= before + (waiting + data));
    assert(before + Seq::<u8>::empty() + (waiting + data) =~= before + (waiting + data));
}

/// Something waited before the data, and the data completes a word.
proof fn lemma_written_continues(driver: HashView, data: Seq<u8>)
    requires
        driver.leftover.is_orderly(),
        driver.leftover.index + data.len() == 4,
        driver.dma_buffer is None,
    ensures
        ({
            let filled = HashView { leftover: driver.leftover.filled(data), ..driver };
            &&& filled.leftover.is_full()
            &&& continues(driver, filled.leftover_written(), data)
            &&& filled.leftover_written().leftover == hash_utils::LeftoverView::empty()
        }),
{
    let filled = HashView { leftover: driver.leftover.filled(data), ..driver };
    hash_utils::law_filled_waits_in_order(driver.leftover, data);
    lemma_full_word(filled);
    let before = hash::word_bytes(driver.data_in);
    let waiting = driver.leftover.bytes();
    let written = filled.leftover_written();
    assert(before + waiting + data =~= before + (waiting + data));
    assert(written.leftover.bytes() =~= Seq::<u8>::empty());
    assert(hash::word_bytes(written.data_in) + Seq::<u8>::empty() + written.leftover.bytes()
        =~= hash::word_bytes(written.data_in));
}

/// Nothing waits, and the data is written word by word.
proof fn lemma_words_continue(driver: HashView, data: Seq<u8>)
    requires
        driver.leftover == hash_utils::LeftoverView::empty(),
        driver.dma_buffer is None,
    ensures
        ({
            let after = HashView {
                data_in: driver.data_in + hash::words(data),
                leftover: driver.leftover.filled(hash::tail(data)),
                ..driver
            };
            &&& continues(driver, after, data)
            &&& !after.leftover.is_full()
        }),
{
    law_words_and_tail_make_the_message(data);
    lemma_word_bytes_append(driver.data_in, hash::words(data));
    hash_utils::law_filled_waits_in_order(driver.leftover, hash::tail(data));
    let before = hash::word_bytes(driver.data_in);
    let written = hash::word_bytes(hash::words(data));
    assert(driver.leftover.bytes() =~= Seq::<u8>::empty());
    assert(driver.leftover.bytes() + hash::tail(data) =~= hash::tail(data));
    assert((before + written) + Seq::<u8>::empty() + hash::tail(data) =~= before + (written
        + hash::tail(data)));
    assert(before + Seq::<u8>::empty() + data =~= before + data);
}

/// What is fed reaches the accelerator in order, in pieces of whatever length: the words in the data
/// register and the bytes that wait are what they were, and then the data. Fewer bytes wait than make
/// a word.
pub proof fn law_fed_in_order(driver: HashView, data: Seq<u8>)
    requires
        driver.leftover.is_orderly(),
        !driver.leftover.is_full(),
        driver.dma_buffer is None,
    ensures
        continues(driver, driver.fed(data), data),
        !driver.fed(data).leftover.is_full(),
{
    let len = driver.completing_len(data);
    let front = data.take(len as int);
    let rest = data.skip(len as int);
    let started = driver.completed(data);
    assert(front + rest =~= data);
    if driver.leftover.buffer is None {
        assert(front =~= Seq::<u8>::empty());
        assert(started =~= driver);
        assert(rest =~= data);
        lemma_words_continue(driver, data);
    } else if driver.leftover.index + front.len() == 4 {
        lemma_written_continues(driver, front);
        lemma_words_continue(started, rest);
        lemma_continues_twice(driver, started, driver.fed(data), front, rest);
    } else {
        assert(front =~= data);
        lemma_waiting_continues(driver, front);
        hash_utils::law_filled_waits_in_order(driver.leftover, front);
        assert(rest =~= Seq::<u8>::empty());
        assert(hash::words(rest) =~= Seq::<u32>::empty());
        assert(hash::tail(rest) =~= Seq::<u8>::empty());
        assert(started.data_in + hash::words(rest) =~= started.data_in);
        assert(driver.fed(data) =~= started);
    }
}

/// What is read for the DMA reaches the accelerator in order: the words in the data register, the
/// bytes in transfer and the bytes that wait are what they were without a transfer, and then the
/// data. The transfer is whole words, and fewer bytes wait than make a word. Where the FIFO takes no
/// word at the moment, the data is held back, and the same holds once there is room.
pub proof fn law_loaded_by_dma_in_order(driver: HashView, answer: Answer)
    requires
        dma_ready(driver, answer),
    ensures
        ({
            let (after, result) = driver.loaded(DataType::Input, answer);
            &&& result matches Ok((count, written)) && {
                &&& count == answer.count->Ok_0
                &&& driver.status.words_expected > 0 ==> written
                &&& if written {
                    &&& continues(driver, after, answer.data())
                    &&& !after.leftover.is_full()
                } else {
                    &&& after.leftover.is_full()
                    &&& after.resumed().1 is None
                    &&& continues(driver, after.resumed().0, answer.data())
                    &&& !after.resumed().0.leftover.is_full()
                }
            }
        }),
{
    let emptied = HashView { data_buffer: None, ..driver };
    let slice = driver.received(answer);
    let data = answer.data();
    lemma_received(driver, answer);
    if driver.leftover.buffer is None {
        lemma_sent_continues(emptied, slice);
    } else {
        let len = emptied.trim_len(slice);
        let front = slice.active().take(len as int);
        let rest = slice.dropping(len as int);
        assert(rest.active() =~= data.skip(len as int));
        assert(front + rest.active() =~= data);
        hash_utils::law_filled_waits_in_order(emptied.leftover, front);
        if emptied.leftover.index + front.len() == 4 {
            lemma_written_continues(emptied, front);
            let filled = HashView { leftover: emptied.leftover.filled(front), ..emptied };
            let written = filled.leftover_written();
            lemma_sent_continues(written, rest);
            lemma_continues_twice(emptied, written, written.sent(rest), front, rest.active());
            if driver.status.words_expected == 0 {
                let held = driver.loaded(DataType::Input, answer).0;
                assert(held.data_buffer == Some(rest));
                assert(HashView { data_buffer: None, ..held.leftover_written() } =~= written);
            }
        } else {
            assert(front =~= data);
            lemma_waiting_continues(emptied, front);
            let trimmed = HashView { leftover: emptied.leftover.filled(front), ..emptied };
            assert(rest.active() =~= Seq::<u8>::empty());
            assert(hash::tail(rest.active()) =~= Seq::<u8>::empty());
            assert(HashView::whole_words(rest).active() =~= Seq::<u8>::empty());
            assert(trimmed.sent(rest).leftover == trimmed.leftover);
            assert(trimmed.sent(rest).dma_buffer == trimmed.dma_buffer);
        }
    }
}

/// One load after the other.
proof fn lemma_continues_twice(
    driver: HashView,
    middle: HashView,
    after: HashView,
    first: Seq<u8>,
    second: Seq<u8>,
)
    requires
        continues(driver, middle, first),
        continues(middle, after, second),
        middle.dma_buffer is None,
    ensures
        continues(driver, after, first + second),
{
    let before = hash::word_bytes(driver.data_in) + driver.leftover.bytes();
    let between = hash::word_bytes(middle.data_in);
    assert(between + Seq::<u8>::empty() + middle.leftover.bytes() =~= between
        + middle.leftover.bytes());
    assert(before + first + second =~= before + (first + second));
}

} // verus!
