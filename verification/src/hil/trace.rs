//! Records of the calls that cross a hardware-independent interface.
//!
//! Every implementor of a client or driver trait is observed through a log:
//! each call appends one entry that holds what was passed and what came back.
//! Contracts speak of the entries that a function adds.
use crate::error::ErrorCode;
use crate::grant;
use crate::hil::cipher::{CcmTagLength, Operation};
use crate::hil::digest::Algorithm;
use crate::hil::modular_arithmetic::MathOperation;
use vstd::prelude::*;

verus! {

/// What a data callback carries.
#[derive(Clone, Copy, Debug, PartialEq, Eq, Structural)]
pub enum Port {
    Key,
    Iv,
    Nonce,
    Counter,
    AssociatedData,
    Input,
    Output,
    Tag,
    Scalar,
    Point,
    SecondPoint,
    Modulus,
    Number,
}

/// An operation on points of a curve.
#[derive(Clone, Copy, Debug, PartialEq, Eq, Structural)]
pub enum EccOperation {
    Doubling,
    Addition,
    Multiplication,
    Verification,
}

/// One call across an interface, with its outcome.
#[verifier::ext_equal]
#[allow(inconsistent_fields)]
pub enum Call {
    /// The callee filled what was `offered` entirely, which made it `buffer`, or failed.
    Fill { port: Port, offered: Seq<u8>, buffer: Seq<u8>, result: Result<(), ErrorCode> },
    /// The callee wrote `count` bytes to the front of what was `offered`, which made it `buffer`, or
    /// failed.
    Read { port: Port, offered: Seq<u8>, buffer: Seq<u8>, count: Result<usize, ErrorCode> },
    /// The callee was given `data`.
    Write { port: Port, data: Seq<u8>, result: Result<(), ErrorCode> },
    /// The callee was told that its operation has ended.
    Done { result: Result<(), ErrorCode> },
    /// The callee was told that its operation has ended, and got its buffers back.
    Returned {
        status: Result<bool, ErrorCode>,
        a: Seq<u8>,
        modulus: Seq<u8>,
        b: Seq<u8>,
        output: Seq<u8>,
    },
    /// The callee was told which client to call back.
    SetClient { client: usize },
    /// The callee was told which client to call back, for keys too.
    SetHmacClient { client: usize },
    /// The callee was asked to start an ECB operation.
    EcbCrypt { len: usize, operation: Operation, result: Result<(), ErrorCode> },
    /// The callee was asked to start a CCM operation.
    CcmCrypt {
        len: usize,
        associated_data_len: usize,
        tag_len: CcmTagLength,
        operation: Operation,
        result: Result<(), ErrorCode>,
    },
    /// The callee was asked to start an operation on points.
    Ecc { operation: EccOperation, use_curve_generator: bool, result: Result<(), ErrorCode> },
    /// The callee was asked to start a modular operation.
    Compute { modulus_len: usize, operation: MathOperation, result: Result<(), ErrorCode> },
    /// The callee was asked to compute a digest.
    Hash { algorithm: Algorithm, len: usize, result: Result<(), ErrorCode> },
    /// The callee was asked to compute a keyed digest.
    Authenticate {
        algorithm: Algorithm,
        input_len: usize,
        key_len: usize,
        result: Result<(), ErrorCode>,
    },
    /// The callee was asked to clear its data.
    ClearData,
}

/// Calls, oldest first.
pub type Log = Seq<Call>;

/// A party whose calls are recorded.
pub trait Observed {
    /// The calls received so far.
    spec fn log(&self) -> Log;

    /// What the party needs of its own state in order to take a call.
    spec fn valid(&self) -> bool;
}

/// `later` holds everything in `earlier`, in front.
pub open spec fn extends(later: Seq<Call>, earlier: Seq<Call>) -> bool {
    earlier.len() <= later.len() && later.take(earlier.len() as int) == earlier
}

/// The calls that `later` has and `earlier` has not.
pub open spec fn since(later: Seq<Call>, earlier: Seq<Call>) -> Seq<Call> {
    later.skip(earlier.len() as int)
}

/// The client is told of no end.
pub open spec fn told_nothing(calls: Seq<Call>) -> bool {
    forall|i: int| 0 <= i < calls.len() ==> !((#[trigger] calls[i]) is Done)
}

/// If an operation has ended, the last call tells the client, and no call before it does; if not, the
/// client is told of no end.
pub open spec fn told_once(calls: Seq<Call>, ended: bool) -> bool {
    if ended {
        calls.len() > 0 && calls.last() is Done && told_nothing(calls.drop_last())
    } else {
        told_nothing(calls)
    }
}

/// `calls` without the report of an end.
pub open spec fn before_report(calls: Seq<Call>) -> Seq<Call> {
    if calls.len() > 0 && calls.last() is Done {
        calls.drop_last()
    } else {
        calls
    }
}

/// The log after calls that tell of no end, and then a report, if there is one.
pub proof fn lemma_reported(log: Seq<Call>, fetch: Seq<Call>, report: Seq<Call>, after: Seq<Call>)
    requires
        after == (log + fetch) + report,
        before_report(fetch) == fetch,
        report.len() <= 1,
        report.len() == 1 ==> report[0] is Done,
    ensures
        extends(after, log),
        since(after, log) == fetch + report,
        before_report(fetch + report) == fetch,
{
    assert(after =~= log + (fetch + report));
    lemma_since_append(log, fetch + report);
    assert(report.len() == 1 ==> (fetch + report).drop_last() =~= fetch);
    assert(report.len() == 0 ==> fetch + report =~= fetch);
}

/// An end that is told as a success follows output that the client took.
pub open spec fn success_after_output(calls: Seq<Call>) -> bool {
    calls.len() > 0 && calls.last() is Done && calls.last()->Done_result is Ok ==> exists|i: int|
        0 <= i < calls.len() && (#[trigger] calls[i]) is Write && calls[i]->Write_port
            == Port::Output && calls[i]->Write_result is Ok
}

/// An end that is told behind calls that tell of none, with a success only if the first of them is
/// output that the client took.
pub proof fn lemma_told_after_output(calls: Seq<Call>, n: int, result: Result<(), ErrorCode>)
    requires
        0 < n <= calls.len(),
        told_nothing(calls.take(n)),
        calls.skip(n) == seq![Call::Done { result }],
        result is Ok ==> calls[0] is Write && calls[0]->Write_port == Port::Output
            && calls[0]->Write_result is Ok,
    ensures
        told_once(calls, true),
        success_after_output(calls),
{
    let rest = calls.skip(n);
    assert(rest.len() == calls.len() - n);
    assert(calls.len() == n + 1);
    assert(rest[0] == calls[n]);
    assert(calls.drop_last() =~= calls.take(n));
}

/// Calls that tell of no end may precede.
pub proof fn lemma_told_behind(calls: Seq<Call>, n: int, ended: bool)
    requires
        0 <= n <= calls.len(),
        told_nothing(calls.take(n)),
        told_once(calls.skip(n), ended),
        success_after_output(calls.skip(n)),
    ensures
        told_once(calls, ended),
        success_after_output(calls),
{
    let front = calls.take(n);
    let rest = calls.skip(n);
    assert forall|i: int| 0 <= i < (if ended {
        calls.len() - 1
    } else {
        calls.len() as int
    }) implies !((#[trigger] calls[i]) is Done) by {
        if i < n {
            assert(front[i] == calls[i]);
        } else {
            assert(rest[i - n] == calls[i]);
            if ended {
                assert(rest.drop_last()[i - n] == calls[i]);
            }
        }
    }
    if calls.len() > 0 && calls.last() is Done && calls.last()->Done_result is Ok {
        if rest.len() == 0 {
            assert(front[calls.len() - 1] == calls.last());
        } else {
            assert(rest.last() == calls.last());
            let i = choose|i: int|
                0 <= i < rest.len() && (#[trigger] rest[i]) is Write && rest[i]->Write_port
                    == Port::Output && rest[i]->Write_result is Ok;
            assert(calls[i + n] == rest[i]);
        }
    }
}

/// The bytes that a run of successful reads of `port` delivered, where each
/// read asked for all that was missing of `want` bytes. `None` if some call
/// is not such a read.
pub open spec fn gathered(calls: Seq<Call>, port: Port, want: nat) -> Option<Seq<u8>>
    decreases calls.len(),
{
    if calls.len() == 0 {
        Some(Seq::empty())
    } else {
        match (gathered(calls.drop_last(), port, want), calls.last()) {
            (Some(data), Call::Read { port: asked, buffer, count: Ok(count), .. }) => if asked == port
                && data.len() + buffer.len() == want && 0 < count <= buffer.len() {
                Some(data + buffer.take(count as int))
            } else {
                None
            },
            _ => None,
        }
    }
}

/// How a loop that reads `want` bytes from `port` ends after `calls`: with
/// the bytes, once all of them have come; with the error of the last call; or
/// with `INVAL` if the last call claims no progress or more than was asked.
/// `None` if no such loop makes exactly these calls.
#[verifier::opaque]
pub open spec fn gather_outcome(calls: Seq<Call>, port: Port, want: nat) -> Option<
    Result<Seq<u8>, ErrorCode>,
> {
    match gathered(calls, port, want) {
        Some(data) => if data.len() == want {
            Some(Ok(data))
        } else {
            None
        },
        None => match (gathered(calls.drop_last(), port, want), calls.last()) {
            (Some(data), Call::Read { port: asked, buffer, count, .. }) => if asked == port
                && data.len() + buffer.len() == want && data.len() < want {
                match count {
                    Err(error) => Some(Err(error)),
                    Ok(_) => Some(Err(ErrorCode::INVAL)),
                }
            } else {
                None
            },
            _ => None,
        },
    }
}

/// What one more read makes of a loop that has gathered `data`.
pub proof fn lemma_gather_step(calls: Seq<Call>, call: Call, port: Port, want: nat, data: Seq<u8>)
    requires
        gathered(calls, port, want) == Some(data),
        call is Read,
        call->Read_port == port,
        data.len() + call->Read_buffer.len() == want,
        data.len() < want,
    ensures
        ({
            let buffer = call->Read_buffer;
            match call->count {
                Ok(count) => if 0 < count <= buffer.len() {
                    gathered(calls.push(call), port, want) == Some(data + buffer.take(count as int))
                } else {
                    gather_outcome(calls.push(call), port, want) == Some(
                        Err::<Seq<u8>, ErrorCode>(ErrorCode::INVAL),
                    )
                },
                Err(error) => gather_outcome(calls.push(call), port, want) == Some(
                    Err::<Seq<u8>, ErrorCode>(error),
                ),
            }
        }),
{
    reveal(gather_outcome);
    assert(calls.push(call).drop_last() =~= calls);
}

/// A loop that has all it wants ends with it.
pub proof fn lemma_gather_complete(calls: Seq<Call>, port: Port, want: nat, data: Seq<u8>)
    requires
        gathered(calls, port, want) == Some(data),
        data.len() == want,
    ensures
        gather_outcome(calls, port, want) == Some(Ok::<Seq<u8>, ErrorCode>(data)),
{
    reveal(gather_outcome);
}

/// A loop that fails ends with the read that failed.
pub proof fn lemma_gather_failed(calls: Seq<Call>, port: Port, want: nat)
    requires
        gather_outcome(calls, port, want) matches Some(Err(_)),
    ensures
        calls.len() > 0,
        calls.last() is Read,
        calls.last()->Read_port == port,
{
    reveal(gather_outcome);
}

/// A loop that succeeds has all it wants.
pub broadcast proof fn lemma_gather_len(calls: Seq<Call>, port: Port, want: nat)
    ensures
        #[trigger] gather_outcome(calls, port, want) matches Some(Ok(data)) ==> data.len() == want,
{
    reveal(gather_outcome);
}

/// What was appended to a log is what it has since.
pub broadcast proof fn lemma_since_append(log: Seq<Call>, calls: Seq<Call>)
    ensures
        #![trigger log + calls]
        extends(log + calls, log),
        since(log + calls, log) == calls,
{
    assert((log + calls).take(log.len() as int) =~= log);
    assert((log + calls).skip(log.len() as int) =~= calls);
}

/// A log that extends another is that log with what it has since.
pub proof fn lemma_extends_append(later: Seq<Call>, earlier: Seq<Call>)
    requires
        extends(later, earlier),
    ensures
        later == earlier + since(later, earlier),
{
    assert(later =~= earlier + since(later, earlier));
}

/// A buffer after reads, each of which was offered what was missing of its first `want` bytes.
pub open spec fn read_into(data: Seq<u8>, calls: Seq<Call>, want: nat) -> Seq<u8>
    decreases calls.len(),
{
    if calls.len() == 0 {
        data
    } else {
        let buffer = calls.last()->Read_buffer;
        grant::overwritten(
            read_into(data, calls.drop_last(), want),
            want - buffer.len(),
            buffer,
        )
    }
}

/// One read after the others.
pub proof fn lemma_read_into_push(data: Seq<u8>, calls: Seq<Call>, want: nat, call: Call)
    ensures
        read_into(data, calls.push(call), want) == grant::overwritten(
            read_into(data, calls, want),
            want - call->Read_buffer.len(),
            call->Read_buffer,
        ),
{
    assert(calls.push(call).drop_last() =~= calls);
}

/// `calls` are those of a loop that has read `data` of `want` bytes from `port` block by block,
/// each block of 16 bytes, but for the last, with a loop of its own.
pub open spec fn gathered_in_blocks(
    calls: Seq<Call>,
    port: Port,
    want: nat,
    data: Seq<u8>,
) -> bool
    decreases data.len(),
{
    if data.len() == 0 {
        calls.len() == 0
    } else {
        let start = (data.len() - 1) / 16 * 16;
        exists|k: int|
            0 <= k <= calls.len() && gathered_in_blocks(
                #[trigger] calls.take(k),
                port,
                want,
                data.take(start),
            ) && gather_outcome(calls.skip(k), port, next_block_len(want, start)) == Some(
                Ok::<Seq<u8>, ErrorCode>(data.skip(start)),
            )
    }
}

/// The length of the block that follows `done` bytes of `want`.
pub open spec fn next_block_len(want: nat, done: int) -> nat {
    if want - done < 16 {
        (want - done) as nat
    } else {
        16
    }
}

/// How a loop ends that reads `want` bytes from `port` block by block.
pub open spec fn blocks_outcome(
    calls: Seq<Call>,
    port: Port,
    want: nat,
    outcome: Result<Seq<u8>, ErrorCode>,
) -> bool {
    match outcome {
        Ok(data) => data.len() == want && gathered_in_blocks(calls, port, want, data),
        Err(error) => exists|k: int, data: Seq<u8>|
            0 <= k <= calls.len() && data.len() < want && data.len() % 16 == 0
                && #[trigger] gathered_in_blocks(calls.take(k), port, want, data)
                && gather_outcome(
                calls.skip(k),
                port,
                next_block_len(want, data.len() as int),
            ) == Some(Err::<Seq<u8>, ErrorCode>(error)),
    }
}

/// A loop of reads makes no other calls.
pub proof fn lemma_reads_only(calls: Seq<Call>, port: Port, want: nat)
    requires
        gather_outcome(calls, port, want) is Some,
    ensures
        forall|i: int| 0 <= i < calls.len() ==> (#[trigger] calls[i]) is Read,
{
    reveal(gather_outcome);
    if gathered(calls, port, want) is Some {
        lemma_gathered_reads(calls, port, want);
    } else {
        lemma_gathered_reads(calls.drop_last(), port, want);
        assert forall|i: int| 0 <= i < calls.len() implies (#[trigger] calls[i]) is Read by {
            if i < calls.len() - 1 {
                assert(calls.drop_last()[i] == calls[i]);
            }
        }
    }
}

proof fn lemma_gathered_reads(calls: Seq<Call>, port: Port, want: nat)
    requires
        gathered(calls, port, want) is Some,
    ensures
        forall|i: int| 0 <= i < calls.len() ==> (#[trigger] calls[i]) is Read,
    decreases calls.len(),
{
    if calls.len() > 0 {
        lemma_gathered_reads(calls.drop_last(), port, want);
        assert forall|i: int| 0 <= i < calls.len() implies (#[trigger] calls[i]) is Read by {
            if i < calls.len() - 1 {
                assert(calls.drop_last()[i] == calls[i]);
            }
        }
    }
}

proof fn lemma_gathered_in_blocks_reads(calls: Seq<Call>, port: Port, want: nat, data: Seq<u8>)
    requires
        gathered_in_blocks(calls, port, want, data),
    ensures
        forall|i: int| 0 <= i < calls.len() ==> (#[trigger] calls[i]) is Read,
    decreases data.len(),
{
    if data.len() > 0 {
        let start = (data.len() - 1) / 16 * 16;
        let k = choose|k: int|
            0 <= k <= calls.len() && gathered_in_blocks(
                #[trigger] calls.take(k),
                port,
                want,
                data.take(start),
            ) && gather_outcome(calls.skip(k), port, next_block_len(want, start)) == Some(
                Ok::<Seq<u8>, ErrorCode>(data.skip(start)),
            );
        lemma_gathered_in_blocks_reads(calls.take(k), port, want, data.take(start));
        lemma_reads_only(calls.skip(k), port, next_block_len(want, start));
        assert forall|i: int| 0 <= i < calls.len() implies (#[trigger] calls[i]) is Read by {
            if i < k {
                assert(calls.take(k)[i] == calls[i]);
            } else {
                assert(calls.skip(k)[i - k] == calls[i]);
            }
        }
    }
}

/// A loop of reads, block by block, makes no other calls.
pub proof fn lemma_blocks_reads_only(
    calls: Seq<Call>,
    port: Port,
    want: nat,
    outcome: Result<Seq<u8>, ErrorCode>,
)
    requires
        blocks_outcome(calls, port, want, outcome),
    ensures
        forall|i: int| 0 <= i < calls.len() ==> (#[trigger] calls[i]) is Read,
{
    match outcome {
        Ok(data) => {
            lemma_gathered_in_blocks_reads(calls, port, want, data);
        },
        Err(error) => {
            let (k, data) = choose|k: int, data: Seq<u8>|
                0 <= k <= calls.len() && data.len() < want && data.len() % 16 == 0
                    && #[trigger] gathered_in_blocks(calls.take(k), port, want, data)
                    && gather_outcome(
                    calls.skip(k),
                    port,
                    next_block_len(want, data.len() as int),
                ) == Some(Err::<Seq<u8>, ErrorCode>(error));
            lemma_gathered_in_blocks_reads(calls.take(k), port, want, data);
            lemma_reads_only(calls.skip(k), port, next_block_len(want, data.len() as int));
            assert forall|i: int| 0 <= i < calls.len() implies (#[trigger] calls[i]) is Read by {
                if i < k {
                    assert(calls.take(k)[i] == calls[i]);
                } else {
                    assert(calls.skip(k)[i - k] == calls[i]);
                }
            }
        },
    }
}

} // verus!
