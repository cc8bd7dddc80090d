//! What the ECB peripheral's driver makes of a whole message.
use crate::error::ErrorCode;
use crate::hil::cipher::Operation;
use crate::hil::trace;
use crate::hil::trace::{Call, Port};
use crate::nrf5x::ecb;
use crate::nrf5x::ecb::EcbView;
use vstd::prelude::*;

verus! {

/// One block: the deferred call that fetches it, the peripheral's work, and the interrupt that hands
/// its output on.
pub struct Round {
    pub before: EcbView,
    /// The calls that fetch the block.
    pub fetch: Seq<Call>,
    pub started: EcbView,
    /// The calls that hand its output on.
    pub write: Seq<Call>,
    pub after: EcbView,
}

/// The driver when the peripheral has finished its block: `e` of key and input stands behind them.
pub open spec fn encrypted(e: spec_fn(Seq<u8>, Seq<u8>) -> Seq<u8>, driver: EcbView) -> EcbView {
    let data = driver.dma->0;
    EcbView {
        event_end: true,
        event_error: false,
        dma: Some(data.take(32) + e(data.take(16), data.subrange(16, 32))),
        ..driver
    }
}

impl Round {
    /// The block was fetched, encrypted and handed on.
    pub open spec fn done(self, e: spec_fn(Seq<u8>, Seq<u8>) -> Seq<u8>) -> bool {
        &&& ecb::block_started(self.before, self.fetch, self.started)
        &&& self.started.dma is Some
        &&& ecb::interrupted(encrypted(e, self.started), self.write, self.after)
        &&& self.after.active
    }

    /// The calls that read the input of the block: all but the one that reads the key.
    pub open spec fn reads(self) -> Seq<Call> {
        if self.before.offset == 0 {
            self.fetch.skip(1)
        } else {
            self.fetch
        }
    }

    /// The input of the block.
    pub open spec fn input(self) -> Seq<u8> {
        trace::gather_outcome(self.reads(), Port::Input, 16)->0->Ok_0
    }
}

/// Blocks of a message of `len` bytes, from the first on, are dealt with one after the other.
pub open spec fn blocks_done(
    e: spec_fn(Seq<u8>, Seq<u8>) -> Seq<u8>,
    driver: EcbView,
    len: nat,
    rounds: Seq<Round>,
) -> bool {
    &&& rounds.len() * 16 <= len
    &&& forall|i: int| 0 <= i < rounds.len() ==> (#[trigger] rounds[i]).done(e)
    &&& forall|i: int|
        0 <= i < rounds.len() ==> (#[trigger] rounds[i]).before == state_at(
            driver,
            len,
            rounds,
            i,
        )
}

/// The driver before block `i`.
pub open spec fn state_at(driver: EcbView, len: nat, rounds: Seq<Round>, i: int) -> EcbView {
    if i == 0 {
        driver.begun(len)
    } else {
        rounds[i - 1].after
    }
}

/// The key of the message, which comes with the first block.
pub open spec fn key_of(rounds: Seq<Round>) -> Seq<u8> {
    rounds[0].fetch[0]->Fill_buffer
}

/// Every block is encrypted to one block.
pub open spec fn keeps_len(e: spec_fn(Seq<u8>, Seq<u8>) -> Seq<u8>) -> bool {
    forall|key: Seq<u8>, block: Seq<u8>| (#[trigger] e(key, block)).len() == 16
}

/// The driver before block `i` has done what comes before it and holds the key.
pub open spec fn ready_for(driver: EcbView, len: nat, key: Seq<u8>, i: int) -> bool {
    &&& driver.wf()
    &&& driver.on_track()
    &&& driver.active
    &&& driver.dma is None
    &&& driver.len == len
    &&& driver.offset == 16 * i
    &&& i > 0 ==> driver.data->0.take(16) == key
}

/// A block that is fetched is key and input, and what is handed on is `e` of them.
proof fn lemma_round(
    e: spec_fn(Seq<u8>, Seq<u8>) -> Seq<u8>,
    round: Round,
    len: nat,
    key: Seq<u8>,
    i: int,
)
    requires
        keeps_len(e),
        len <= usize::MAX,
        0 <= i,
        16 * (i + 1) <= len,
        ready_for(round.before, len, key, i),
        round.done(e),
        i == 0 ==> key == round.fetch[0]->Fill_buffer,
    ensures
        round.input().len() == 16,
        round.write.len() == 1,
        round.write[0] matches Call::Write { port, data, result } && port is Output && data == e(
            key,
            round.input(),
        ) && result is Ok,
        ready_for(round.after, len, key, i + 1),
        trace::told_nothing(round.fetch),
{
    let before = round.before;
    let data = before.data->0;
    let fetch = trace::before_report(round.fetch);
    ecb::law_deferred_call_stays_on_track(before, round.fetch, round.started);
    assert(round.started.active);
    assert(fetch == round.fetch);
    let outcome = trace::gather_outcome(round.reads(), Port::Input, 16);
    assert(outcome matches Some(Ok(_)));
    let input = round.input();
    trace::lemma_gather_len(round.reads(), Port::Input, 16);
    let first = if i == 0 {
        round.fetch[0]->Fill_buffer
    } else {
        data.take(16)
    };
    assert(first == key);
    assert(key.len() == 16);
    let block = key + input + data.skip(32);
    assert(round.started.dma == Some(block));
    assert(block.take(16) =~= key);
    assert(block.subrange(16, 32) =~= input);
    let made = block.take(32) + e(key, input);
    let finished = encrypted(e, round.started);
    assert(finished.dma == Some(made));
    assert(made.skip(32) =~= e(key, input));
    assert(made.take(16) =~= key);
    assert(round.write[0]->Write_result is Ok);
    assert(round.after.data == Some(made));
}

/// The state before each block.
proof fn lemma_rounds(
    e: spec_fn(Seq<u8>, Seq<u8>) -> Seq<u8>,
    driver: EcbView,
    len: nat,
    rounds: Seq<Round>,
    i: int,
)
    requires
        keeps_len(e),
        len <= usize::MAX,
        driver.wf(),
        driver.on_track(),
        driver.crypt_result(len, Operation::Encrypt) is Ok,
        blocks_done(e, driver, len, rounds),
        0 <= i <= rounds.len(),
    ensures
        ready_for(state_at(driver, len, rounds, i), len, key_of(rounds), i),
    decreases i,
{
    if i > 0 {
        lemma_rounds(e, driver, len, rounds, i - 1);
        assert(rounds[i - 1].done(e));
        assert(rounds[i - 1].before == state_at(driver, len, rounds, i - 1));
        lemma_round(e, rounds[i - 1], len, key_of(rounds), i - 1);
    }
}

/// All calls to the client in the first `n` rounds.
pub open spec fn spoken(rounds: Seq<Round>, n: int) -> Seq<Call>
    decreases n,
{
    if n <= 0 {
        Seq::empty()
    } else {
        spoken(rounds, n - 1) + rounds[n - 1].fetch + rounds[n - 1].write
    }
}

/// The output that calls hand to the client, one piece for each of them.
pub open spec fn outputs(calls: Seq<Call>) -> Seq<Seq<u8>>
    decreases calls.len(),
{
    if calls.len() == 0 {
        Seq::empty()
    } else {
        let before = outputs(calls.drop_last());
        match calls.last() {
            Call::Write { port: Port::Output, data, .. } => before.push(data),
            _ => before,
        }
    }
}

/// Output of calls, one after the other.
proof fn lemma_outputs_append(a: Seq<Call>, b: Seq<Call>)
    ensures
        outputs(a + b) == outputs(a) + outputs(b),
    decreases b.len(),
{
    if b.len() == 0 {
        assert(a + b =~= a);
        assert(outputs(a) + outputs(b) =~= outputs(a));
    } else {
        lemma_outputs_append(a, b.drop_last());
        assert((a + b).drop_last() =~= a + b.drop_last());
        assert((a + b).last() == b.last());
        assert(outputs(a + b) =~= outputs(a) + outputs(b));
    }
}

/// Calls that only fetch hand no output on.
proof fn lemma_fetch_has_no_output(calls: Seq<Call>)
    requires
        forall|i: int| 0 <= i < calls.len() ==> (#[trigger] calls[i]) is Read || calls[i] is Fill,
    ensures
        outputs(calls) == Seq::<Seq<u8>>::empty(),
        trace::told_nothing(calls),
    decreases calls.len(),
{
    if calls.len() > 0 {
        assert forall|i: int| 0 <= i < calls.drop_last().len() implies (
        #[trigger] calls.drop_last()[i]) is Read || calls.drop_last()[i] is Fill by {
            assert(calls[i] is Read || calls[i] is Fill);
        }
        lemma_fetch_has_no_output(calls.drop_last());
        assert(calls.last() is Read || calls.last() is Fill);
    }
}

/// A deferred call that starts the peripheral only fetches.
proof fn lemma_fetch_only(before: EcbView, fetch: Seq<Call>, started: EcbView)
    requires
        before.active,
        before.dma is None,
        before.data is Some,
        before.client is Some,
        before.offset < before.len,
        ecb::block_started(before, fetch, started),
        started.dma is Some,
    ensures
        forall|i: int| 0 <= i < fetch.len() ==> (#[trigger] fetch[i]) is Read || fetch[i] is Fill,
{
    let reads = if before.offset == 0 {
        fetch.skip(1)
    } else {
        fetch
    };
    assert(trace::before_report(fetch) == fetch);
    trace::lemma_reads_only(reads, Port::Input, 16);
    assert forall|i: int| 0 <= i < fetch.len() implies (#[trigger] fetch[i]) is Read
        || fetch[i] is Fill by {
        if before.offset == 0 {
            if i > 0 {
                assert(fetch.skip(1)[i - 1] == fetch[i]);
            }
        }
    }
}

/// What blocks give: each its output, and nothing is told of an end.
proof fn lemma_spoken(
    e: spec_fn(Seq<u8>, Seq<u8>) -> Seq<u8>,
    driver: EcbView,
    len: nat,
    rounds: Seq<Round>,
    n: int,
)
    requires
        keeps_len(e),
        len <= usize::MAX,
        driver.wf(),
        driver.on_track(),
        driver.crypt_result(len, Operation::Encrypt) is Ok,
        blocks_done(e, driver, len, rounds),
        0 <= n <= rounds.len(),
    ensures
        outputs(spoken(rounds, n)) == encrypted_blocks(e, rounds, n),
        trace::told_nothing(spoken(rounds, n)),
    decreases n,
{
    if n > 0 {
        let round = rounds[n - 1];
        let before = spoken(rounds, n - 1);
        lemma_spoken(e, driver, len, rounds, n - 1);
        lemma_rounds(e, driver, len, rounds, n - 1);
        assert(round.done(e));
        assert(round.before == state_at(driver, len, rounds, n - 1));
        lemma_round(e, round, len, key_of(rounds), n - 1);
        lemma_fetch_only(round.before, round.fetch, round.started);
        lemma_fetch_has_no_output(round.fetch);
        lemma_outputs_append(before, round.fetch);
        lemma_outputs_append(before + round.fetch, round.write);
        assert(round.write =~= seq![round.write[0]]);
        assert(round.write.drop_last() =~= Seq::<Call>::empty());
        assert(outputs(round.write) =~= seq![e(key_of(rounds), round.input())]) by {
            reveal_with_fuel(outputs, 2);
        }
        assert(outputs(spoken(rounds, n)) =~= encrypted_blocks(e, rounds, n));
        assert forall|i: int| 0 <= i < spoken(rounds, n).len() implies !((#[trigger] spoken(
            rounds,
            n,
        )[i]) is Done) by {
            let call = spoken(rounds, n)[i];
            if i < before.len() {
                assert(call == before[i]);
            } else if i < before.len() + round.fetch.len() {
                assert(call == round.fetch[i - before.len()]);
            } else {
                assert(call == round.write[i - before.len() - round.fetch.len()]);
            }
        }
    }
}

/// The first `n` blocks of the input, each encrypted under the key that was read with the first.
pub open spec fn encrypted_blocks(
    e: spec_fn(Seq<u8>, Seq<u8>) -> Seq<u8>,
    rounds: Seq<Round>,
    n: int,
) -> Seq<Seq<u8>> {
    Seq::new(n as nat, |i: int| e(key_of(rounds), rounds[i].input()))
}

/// One more call behind calls that tell of no end.
proof fn lemma_told_last(calls: Seq<Call>, result: Result<(), ErrorCode>)
    requires
        trace::told_nothing(calls),
    ensures
        ({
            let told = calls + seq![Call::Done { result }];
            &&& trace::told_once(told, true)
            &&& told.last() == (Call::Done { result })
            &&& outputs(told) == outputs(calls)
        }),
{
    let told = calls + seq![Call::Done { result }];
    assert(told.drop_last() =~= calls);
}

/// The output of a block that the peripheral has finished goes to the client. If it was the last
/// block and the client takes it, the deferred call that follows tells the client that the operation
/// has ended well, and makes no other call.
pub proof fn law_last_block(
    before: EcbView,
    write: Seq<Call>,
    after: EcbView,
    calls: Seq<Call>,
    ended: EcbView,
)
    requires
        before.wf(),
        before.on_track(),
        before.dma is Some,
        before.event_end,
        !before.event_error,
        before.offset + 16 == before.len,
        ecb::interrupted(before, write, after),
        write[0]->Write_result is Ok,
        ecb::block_started(after, calls, ended),
    ensures
        write.len() == 1,
        write[0]->Write_port is Output,
        write[0]->Write_data == before.dma->0.skip(32),
        after.deferred_call,
        calls == seq![Call::Done { result: Ok(()) }],
        !ended.active,
{
}

/// A message that is accepted, of as many blocks as the peripheral finishes: over the whole operation
/// the client is handed as many outputs of one block, output `i` being block `i` of the input
/// encrypted under the key that was read with the first, and then it is told once that the operation
/// has ended well.
pub proof fn law_whole_message(
    e: spec_fn(Seq<u8>, Seq<u8>) -> Seq<u8>,
    driver: EcbView,
    len: nat,
    rounds: Seq<Round>,
    calls: Seq<Call>,
    ended: EcbView,
)
    requires
        keeps_len(e),
        len <= usize::MAX,
        driver.wf(),
        driver.on_track(),
        driver.crypt_result(len, Operation::Encrypt) is Ok,
        blocks_done(e, driver, len, rounds),
        rounds.len() * 16 == len,
        ecb::block_started(state_at(driver, len, rounds, rounds.len() as int), calls, ended),
    ensures
        ({
            let told = spoken(rounds, rounds.len() as int) + calls;
            &&& outputs(told) == encrypted_blocks(e, rounds, rounds.len() as int)
            &&& trace::told_once(told, true)
            &&& told.last() == (Call::Done { result: Ok(()) })
        }),
        calls == seq![Call::Done { result: Ok(()) }],
        forall|i: int|
            0 <= i < rounds.len() ==> {
                &&& (#[trigger] rounds[i]).input().len() == 16
                &&& rounds[i].write.len() == 1
            },
        !ended.active,
{
    let n = rounds.len() as int;
    assert forall|i: int| 0 <= i < n implies {
        &&& (#[trigger] rounds[i]).input().len() == 16
        &&& rounds[i].write.len() == 1
    } by {
        lemma_rounds(e, driver, len, rounds, i);
        lemma_round(e, rounds[i], len, key_of(rounds), i);
    }
    lemma_rounds(e, driver, len, rounds, n);
    lemma_spoken(e, driver, len, rounds, n);
    lemma_told_last(spoken(rounds, n), Ok(()));
}

/// An error of the peripheral ends a message, whichever of its blocks it comes with: the client has
/// the outputs of the blocks before it and gets no further one, it is told once that the operation has
/// failed, and a later deferred call makes no call at all.
pub proof fn law_error_ends_the_message(
    e: spec_fn(Seq<u8>, Seq<u8>) -> Seq<u8>,
    driver: EcbView,
    len: nat,
    rounds: Seq<Round>,
    fetch: Seq<Call>,
    started: EcbView,
    failed: EcbView,
    calls: Seq<Call>,
    after: EcbView,
    later_calls: Seq<Call>,
    later: EcbView,
)
    requires
        keeps_len(e),
        len <= usize::MAX,
        driver.wf(),
        driver.on_track(),
        driver.crypt_result(len, Operation::Encrypt) is Ok,
        blocks_done(e, driver, len, rounds),
        rounds.len() * 16 < len,
        ecb::block_started(
            state_at(driver, len, rounds, rounds.len() as int),
            fetch,
            started,
        ),
        started.dma is Some,
        failed == (EcbView {
            event_error: true,
            event_end: failed.event_end,
            dma: failed.dma,
            ..started
        }),
        failed.dma is Some,
        ecb::interrupted(failed, calls, after),
        ecb::block_started(after, later_calls, later),
    ensures
        calls == seq![Call::Done { result: Err(ErrorCode::FAIL) }],
        ({
            let told = spoken(rounds, rounds.len() as int) + fetch + calls + later_calls;
            &&& outputs(told) == encrypted_blocks(e, rounds, rounds.len() as int)
            &&& trace::told_once(told, true)
            &&& told.last() == (Call::Done { result: Err(ErrorCode::FAIL) })
        }),
        !after.active,
        later_calls.len() == 0,
        !later.active,
{
    let n = rounds.len() as int;
    let before = spoken(rounds, n);
    lemma_rounds(e, driver, len, rounds, n);
    lemma_spoken(e, driver, len, rounds, n);
    lemma_fetch_only(state_at(driver, len, rounds, n), fetch, started);
    lemma_fetch_has_no_output(fetch);
    lemma_outputs_append(before, fetch);
    assert(outputs(before) + Seq::<Seq<u8>>::empty() =~= outputs(before));
    assert forall|i: int| 0 <= i < (before + fetch).len() implies !((#[trigger] (before
        + fetch)[i]) is Done) by {
        if i < before.len() {
            assert((before + fetch)[i] == before[i]);
        } else {
            assert((before + fetch)[i] == fetch[i - before.len()]);
        }
    }
    lemma_told_last(before + fetch, Err(ErrorCode::FAIL));
    assert(before + fetch + calls + later_calls =~= before + fetch + calls);
}

} // verus!
