//! What a process gets hashed.
use crate::capsules::hash;
use crate::capsules::hash::HashView;
use crate::driver_mutex::MutexView;
use crate::error::ErrorCode;
use crate::grant_laws;
use crate::hil::digest::Algorithm;
use crate::hil::trace::Call;
use vstd::prelude::*;

verus! {

/// The bits of a digest, by the number of its algorithm: MD5, SHA-1, SHA-224, SHA-256, SHA-384,
/// SHA-512, SHA-512/224 and SHA-512/256.
pub open spec fn digest_bits() -> Seq<int> {
    seq![128, 160, 224, 256, 384, 512, 224, 256]
}

/// Each number from 0 to 7 stands for an algorithm of its own, in the order in which they are
/// documented, and no other number stands for one.
pub proof fn law_numbers_of_the_algorithms(value: usize, other: usize)
    ensures
        hash::algorithm_of(value) is Ok <==> value < 8,
        value >= 8 ==> hash::algorithm_of(value) == Err::<Algorithm, ErrorCode>(ErrorCode::INVAL),
        value < 8 && hash::algorithm_of(value) == hash::algorithm_of(other) ==> value == other,
        value < 8 ==> hash::algorithm_of(value)->Ok_0.digest_len() * 8 == digest_bits()[value as int],
        value < 8 ==> hash::algorithm_of(value)->Ok_0.block_size() == (if value < 4 {
            64nat
        } else {
            128
        }),
        hash::algorithm_of(0) == Ok::<Algorithm, ErrorCode>(Algorithm::Md5),
        hash::algorithm_of(1) == Ok::<Algorithm, ErrorCode>(Algorithm::Sha1),
        hash::algorithm_of(2) == Ok::<Algorithm, ErrorCode>(Algorithm::Sha224),
        hash::algorithm_of(3) == Ok::<Algorithm, ErrorCode>(Algorithm::Sha256),
        hash::algorithm_of(4) == Ok::<Algorithm, ErrorCode>(Algorithm::Sha384),
        hash::algorithm_of(5) == Ok::<Algorithm, ErrorCode>(Algorithm::Sha512),
        hash::algorithm_of(6) == Ok::<Algorithm, ErrorCode>(Algorithm::Sha512_224),
        hash::algorithm_of(7) == Ok::<Algorithm, ErrorCode>(Algorithm::Sha512_256),
{
}

/// A request of a process that shares input and output is accepted exactly if the driver is idle and
/// registered, the number stands for an algorithm whose digest fills the output, and the mutex takes
/// the request; however long the input.
pub proof fn law_what_is_accepted(
    driver: HashView,
    processid: usize,
    mode_value: usize,
    mutex: MutexView,
    input: Seq<u8>,
    output: Seq<u8>,
)
    requires
        grant_laws::lends(driver.apps, processid, 0, input),
        grant_laws::offers(driver.apps, processid, 0, output),
    ensures
        driver.start_result(processid, mode_value, mutex) is Ok <==> {
            &&& driver.state is Idle
            &&& driver.handle is Some
            &&& mode_value < 8
            &&& 8 * output.len() == digest_bits()[mode_value as int]
            &&& mutex.request_result(driver.handle->0) is Ok
        },
        !(driver.state is Idle) ==> driver.start_result(processid, mode_value, mutex) == Err::<
            (),
            ErrorCode,
        >(ErrorCode::BUSY),
        driver.state is Idle && driver.handle is None ==> driver.start_result(
            processid,
            mode_value,
            mutex,
        ) == Err::<(), ErrorCode>(ErrorCode::OFF),
        driver.state is Idle && driver.handle is Some && (mode_value >= 8 || 8 * output.len()
            != digest_bits()[mode_value as int]) ==> driver.start_result(
            processid,
            mode_value,
            mutex,
        ) == Err::<(), ErrorCode>(ErrorCode::INVAL),
{
    grant_laws::law_shared_buffer_is_reached(driver.apps, processid, hash::RO_INPUT, input);
    grant_laws::law_shared_buffer_is_reached(driver.apps, processid, hash::RW_OUTPUT, output);
    law_numbers_of_the_algorithms(mode_value, mode_value);
}

/// An operation that is accepted works on all that the process shares: the hash driver is asked, by
/// the algorithm that the number stands for, to hash exactly as many bytes as the input has, and is
/// told who its client is before.
pub proof fn law_whole_input_is_hashed(
    driver: HashView,
    processid: usize,
    mode_value: usize,
    mutex: MutexView,
    input: Seq<u8>,
    output: Seq<u8>,
    after: HashView,
    given: MutexView,
    later: MutexView,
    log: Seq<Call>,
    later_log: Seq<Call>,
)
    requires
        grant_laws::lends(driver.apps, processid, 0, input),
        grant_laws::offers(driver.apps, processid, 0, output),
        driver.start_result(processid, mode_value, mutex) is Ok,
        hash::readied(
            driver.begun(processid, hash::algorithm_of(mode_value)->Ok_0),
            after,
            true,
            given,
            later,
            log,
            later_log,
        ),
    ensures
        ({
            let begun = driver.begun(processid, hash::algorithm_of(mode_value)->Ok_0);
            &&& begun.input_len == input.len()
            &&& begun.output_len == output.len()
            &&& begun.input_offset == 0
            &&& begun.output_offset == 0
            &&& begun.apps == driver.apps
        }),
        later_log.len() >= log.len() + 2,
        later_log[log.len() as int] == (Call::SetClient { client: driver.id }),
        later_log[log.len() as int + 1] matches Call::Hash { algorithm, len, result } && {
            &&& hash::algorithm_of(mode_value) == Ok::<Algorithm, ErrorCode>(algorithm)
            &&& len == input.len()
            &&& result is Ok ==> {
                &&& after.processid() == Ok::<usize, ErrorCode>(processid)
                &&& after.next_input(input.len()) == (if input.len() > 0 {
                    Ok::<Seq<u8>, ErrorCode>(input)
                } else {
                    Err(ErrorCode::SIZE)
                })
            }
        },
{
    grant_laws::law_shared_buffer_is_reached(driver.apps, processid, hash::RO_INPUT, input);
    grant_laws::law_shared_buffer_is_reached(driver.apps, processid, hash::RW_OUTPUT, output);
    assert(input.subrange(0, input.len() as int) =~= input);
}

/// Two processes that share inputs of different lengths have the hash driver asked for different
/// numbers of bytes.
pub proof fn law_longer_input_is_asked_for(
    driver: HashView,
    processid: usize,
    other: usize,
    algorithm: Algorithm,
    input: Seq<u8>,
    longer: Seq<u8>,
)
    requires
        grant_laws::lends(driver.apps, processid, 0, input),
        grant_laws::lends(driver.apps, other, 0, longer),
        input.len() < longer.len(),
        driver.lengths(processid, algorithm) is Ok,
        driver.lengths(other, algorithm) is Ok,
    ensures
        driver.begun(other, algorithm).input_len - driver.begun(processid, algorithm).input_len
            == longer.len() - input.len(),
{
}

/// The end of an operation is told to its process once, with the status and the length of what was
/// written of the digest.
pub proof fn law_process_gets_one_upcall(
    driver: HashView,
    processid: usize,
    result: Result<(), ErrorCode>,
)
    requires
        driver.state == (hash::State::Active { processid }),
        processid < driver.apps.apps.len(),
        driver.apps.apps[processid as int].fault is None,
    ensures
        ({
            let ended = driver.finished(result);
            let before = driver.apps.apps[processid as int];
            let app = ended.apps.apps[processid as int];
            &&& app.upcalls.len() == before.upcalls.len() + 1
            &&& app.upcalls.drop_last() == before.upcalls
            &&& app.upcalls.last().number == 0
            &&& app.upcalls.last().status == result
            &&& app.upcalls.last().arg1 == driver.output_offset
            &&& app.upcalls.last().arg2 == 0
            &&& app.readwrite == before.readwrite
            &&& app.readonly == before.readonly
        }),
{
    let before = driver.apps.apps[processid as int];
    let ended = driver.finished(result);
    assert(ended.apps.apps[processid as int].upcalls.drop_last() =~= before.upcalls);
}

} // verus!
