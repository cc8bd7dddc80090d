//! What a process gets derived.
use crate::capsules::hash;
use crate::capsules::hash_request_laws;
use crate::capsules::hkdf;
use crate::capsules::hkdf::{HkdfView, KeyState};
use crate::capsules::hkdf_laws;
use crate::driver_mutex::MutexView;
use crate::error::ErrorCode;
use crate::grant_laws;
use crate::hil::digest::Algorithm;
use crate::hil::trace::Call;
use crate::sw::bytes;
use vstd::prelude::*;

verus! {

/// What a process shares for a derivation: salt, input keying material and info to be read,
/// pseudorandom key and output keying material to be written.
pub struct Shared {
    pub salt: Seq<u8>,
    pub ikm: Seq<u8>,
    pub info: Seq<u8>,
    pub prk: Seq<u8>,
    pub okm: Seq<u8>,
}

/// The process shares its buffers under the numbers that are documented.
pub open spec fn shares(driver: HkdfView, processid: usize, shared: Shared) -> bool {
    &&& grant_laws::lends(driver.apps, processid, 0, shared.salt)
    &&& grant_laws::lends(driver.apps, processid, 1, shared.ikm)
    &&& grant_laws::lends(driver.apps, processid, 2, shared.info)
    &&& grant_laws::offers(driver.apps, processid, 0, shared.prk)
    &&& grant_laws::offers(driver.apps, processid, 1, shared.okm)
}

proof fn lemma_reached(driver: HkdfView, processid: usize, shared: Shared)
    requires
        shares(driver, processid, shared),
    ensures
        driver.apps.source(processid, hkdf::RO_SALT) == Ok::<Seq<u8>, ErrorCode>(shared.salt),
        driver.apps.source(processid, hkdf::RO_IKM) == Ok::<Seq<u8>, ErrorCode>(shared.ikm),
        driver.apps.source(processid, hkdf::RO_INFO) == Ok::<Seq<u8>, ErrorCode>(shared.info),
        driver.apps.sink(processid, hkdf::RW_PRK) == Ok::<Seq<u8>, ErrorCode>(shared.prk),
        driver.apps.sink(processid, hkdf::RW_OKM) == Ok::<Seq<u8>, ErrorCode>(shared.okm),
{
}

/// The digests that OKM is made of are as many as it takes and no more.
pub proof fn law_as_many_digests_as_it_takes(len: nat, hash_len: nat)
    requires
        hash_len > 0,
    ensures
        len <= hkdf::iterations(len, hash_len) * hash_len < len + hash_len,
        len > 0 ==> hkdf::iterations(len, hash_len) > 0,
{
    let q = len / hash_len;
    let r = len % hash_len;
    let n = hkdf::iterations(len, hash_len);
    assert(len == q * hash_len + r && r < hash_len) by (nonlinear_arith)
        requires
            hash_len > 0,
            q == len / hash_len,
            r == len % hash_len,
    ;
    if r != 0 {
        assert(n * hash_len == q * hash_len + hash_len) by (nonlinear_arith)
            requires
                n == q + 1,
        ;
    }
    if len > 0 && n == 0 {
        assert(0 * hash_len == 0) by (nonlinear_arith);
    }
}

/// A request of a process that shares its five buffers is accepted exactly if the driver is idle and
/// registered, the number stands for an algorithm, the salt is in its buffer and no longer than a
/// block of the algorithm, PRK has the length of a digest, OKM is at most 255 times as long, and the
/// mutex takes the request; however long IKM and info.
pub proof fn law_what_is_accepted(
    driver: HkdfView,
    processid: usize,
    algo_value: usize,
    salt_len: usize,
    mutex: MutexView,
    shared: Shared,
)
    requires
        shares(driver, processid, shared),
    ensures
        ({
            let result = driver.start_result(processid, algo_value, salt_len, mutex);
            let ready = driver.state is Idle && driver.handle is Some;
            let fits = {
                &&& algo_value < 8
                &&& salt_len <= shared.salt.len()
                &&& salt_len <= (if algo_value < 4 {
                    64
                } else {
                    128int
                })
                &&& 8 * shared.prk.len() == hash_request_laws::digest_bits()[algo_value as int]
                &&& shared.okm.len() <= 255 * shared.prk.len()
            };
            &&& result is Ok <==> ready && fits && mutex.request_result(driver.handle->0) is Ok
            &&& !(driver.state is Idle) ==> result == Err::<(), ErrorCode>(ErrorCode::BUSY)
            &&& driver.state is Idle && driver.handle is None ==> result == Err::<(), ErrorCode>(
                ErrorCode::OFF,
            )
            &&& ready && !fits ==> result == Err::<(), ErrorCode>(ErrorCode::INVAL)
        }),
{
    lemma_reached(driver, processid, shared);
    hash_request_laws::law_numbers_of_the_algorithms(algo_value, algo_value);
}

/// A derivation that is accepted works with all that the process shares: each length is that of its
/// buffer, and the salt is as long as the process says, or a digest long where it gives none. The
/// HMAC that extracts is asked for, by the algorithm that the number stands for, on exactly as many
/// bytes as IKM has, under a key of exactly as many bytes as the salt has; and what it is handed then
/// is IKM and the salt.
pub proof fn law_derivation_takes_all_that_is_shared(
    driver: HkdfView,
    processid: usize,
    algo_value: usize,
    salt_len: usize,
    mutex: MutexView,
    shared: Shared,
    after: HkdfView,
    given: MutexView,
    later: MutexView,
    log: Seq<Call>,
    later_log: Seq<Call>,
)
    requires
        shares(driver, processid, shared),
        driver.start_result(processid, algo_value, salt_len, mutex) is Ok,
        hkdf::readied(
            driver.begun(processid, hash::algorithm_of(algo_value)->Ok_0, salt_len),
            after,
            true,
            given,
            later,
            log,
            later_log,
        ),
    ensures
        ({
            let begun = driver.begun(processid, hash::algorithm_of(algo_value)->Ok_0, salt_len);
            let n = begun.num_of_iterations as int;
            let hash_len = shared.prk.len();
            &&& begun.lengths.ikm == shared.ikm.len()
            &&& begun.lengths.info == shared.info.len()
            &&& begun.lengths.prk == shared.prk.len()
            &&& begun.lengths.okm == shared.okm.len()
            &&& begun.lengths.salt == (if salt_len == 0 {
                hash_len as int
            } else {
                salt_len as int
            })
            &&& begun.apps == driver.apps
            &&& shared.okm.len() <= n * hash_len < shared.okm.len() + hash_len
        }),
        later_log.len() >= log.len() + 2,
        later_log[log.len() as int] == (Call::SetHmacClient { client: driver.id }),
        later_log[log.len() as int + 1] matches Call::Authenticate {
            algorithm,
            input_len,
            key_len,
            result,
        } && {
            let salt = if salt_len == 0 {
                bytes::zeros(shared.prk.len())
            } else {
                shared.salt.take(salt_len as int)
            };
            &&& hash::algorithm_of(algo_value) == Ok::<Algorithm, ErrorCode>(algorithm)
            &&& input_len == shared.ikm.len()
            &&& key_len == salt.len()
            &&& result is Ok ==> {
                &&& after.processid() == Ok::<usize, ErrorCode>(processid)
                &&& after.key(salt.len()) == Ok::<Seq<u8>, ErrorCode>(salt)
                &&& after.input(shared.ikm.len()) == (if shared.ikm.len() > 0 {
                    Ok::<Seq<u8>, ErrorCode>(shared.ikm)
                } else {
                    Err(ErrorCode::SIZE)
                })
                &&& after.message_fits() <==> shared.prk.len() + shared.info.len() < usize::MAX
            }
        },
{
    lemma_reached(driver, processid, shared);
    law_what_is_accepted(driver, processid, algo_value, salt_len, mutex, shared);
    hash_request_laws::law_numbers_of_the_algorithms(algo_value, algo_value);
    let algorithm = hash::algorithm_of(algo_value)->Ok_0;
    let begun = driver.begun(processid, algorithm, salt_len);
    let hash_len = shared.prk.len();
    law_as_many_digests_as_it_takes(shared.okm.len(), hash_len);
    let n = hkdf::iterations(shared.okm.len(), hash_len);
    assert(n <= 255) by (nonlinear_arith)
        requires
            n * hash_len < shared.okm.len() + hash_len,
            shared.okm.len() <= 255 * hash_len,
            hash_len > 0,
    ;
    assert(shared.ikm.subrange(0, shared.ikm.len() as int) =~= shared.ikm);
    assert(shared.salt.subrange(0, salt_len as int) =~= shared.salt.take(salt_len as int));
}

/// For T(n) the HMAC is asked for, by the algorithm of the derivation, on exactly as many bytes as
/// T(n - 1) | info | n has, under a key of as many bytes as PRK has; and whatever the n, the message
/// and the key are handed out from their first byte on.
pub proof fn law_each_t_is_asked_for(
    driver: HkdfView,
    hmac: spec_fn(Seq<u8>, Seq<u8>) -> Seq<u8>,
    prk: Seq<u8>,
    info: Seq<u8>,
    next: HkdfView,
    after: HkdfView,
    mutex: MutexView,
    later: MutexView,
    log: Seq<Call>,
    later_log: Seq<Call>,
)
    requires
        hkdf_laws::has_len(hmac, next.lengths.prk as nat),
        driver.next() == Some(next),
        hkdf_laws::on_track(next, hmac, prk, info),
        next.held is Some,
        hkdf::expanded(next, after, mutex, later, log, later_log),
    ensures
        ({
            let n = next.stage()->iteration as nat;
            let message = hkdf_laws::t(hmac, prk, info, (n - 1) as nat) + info + seq![n as u8];
            &&& 1 <= n <= 255
            &&& next.state->Active_algorithm == driver.state->Active_algorithm
            &&& next.processid() == driver.processid()
            &&& later_log.len() > log.len()
            &&& later_log[log.len() as int] matches Call::Authenticate {
                algorithm,
                input_len,
                key_len,
                result,
            } && {
                &&& algorithm == driver.state->Active_algorithm
                &&& input_len == message.len()
                &&& key_len == prk.len()
                &&& result is Ok ==> {
                    &&& after.input(message.len()) == Ok::<Seq<u8>, ErrorCode>(message)
                    &&& after.key(prk.len()) == Ok::<Seq<u8>, ErrorCode>(prk)
                }
            }
        }),
{
    let n = next.stage()->iteration as nat;
    let message = hkdf_laws::t(hmac, prk, info, (n - 1) as nat) + info + seq![n as u8];
    hkdf_laws::law_message_of_each_t(next, hmac, prk, info, 0, message.len());
    hkdf_laws::law_expand_takes_prk(next, prk.len());
    assert(message.subrange(0, message.len() as int) =~= message);
}

/// The message of T(n) ends in the one octet n, and has T(n - 1) and then info before it; the first
/// has nothing before info. What is derived is the front of T(1) | T(2) | ..., and shorter output is
/// the front of longer output.
pub proof fn law_shape_of_the_expansion(
    hmac: spec_fn(Seq<u8>, Seq<u8>) -> Seq<u8>,
    hash_len: nat,
    prk: Seq<u8>,
    info: Seq<u8>,
    n: nat,
    message: Seq<u8>,
    len: nat,
)
    requires
        hkdf_laws::has_len(hmac, hash_len),
        hash_len > 0,
        0 < n <= 255,
        message.len() == (if n == 1 {
            0
        } else {
            hash_len as int
        }) + info.len() + 1,
        message.last() == n,
        message.drop_last().skip(message.len() - 1 - info.len()) == info,
        n > 1 ==> message.take(hash_len as int) == hkdf_laws::t(
            hmac,
            prk,
            info,
            (n - 1) as nat,
        ),
        (n - 1) * hash_len < len <= n * hash_len,
    ensures
        hkdf_laws::t(hmac, prk, info, n) == hmac(prk, message),
        hkdf_laws::expand(hmac, hash_len, prk, info, len).len() == len,
        hkdf_laws::expand(hmac, hash_len, prk, info, len) == hkdf_laws::expand(
            hmac,
            hash_len,
            prk,
            info,
            (n - 1) as nat * hash_len,
        ) + hmac(prk, message).take(len - (n - 1) * hash_len),
{
    let before = hkdf_laws::t(hmac, prk, info, (n - 1) as nat);
    hkdf_laws::lemma_ts_len(hmac, hash_len, prk, info, (n - 1) as nat);
    hkdf_laws::lemma_ts_len(hmac, hash_len, prk, info, n);
    let whole = before + info + seq![n as u8];
    let t_len = message.len() - 1 - info.len();
    assert forall|i: int| 0 <= i < message.len() implies message[i] == whole[i] by {
        if i < t_len {
            assert(message.take(hash_len as int)[i] == before[i]);
        } else if i < message.len() - 1 {
            assert(message.drop_last().skip(t_len)[i - t_len] == info[i - t_len]);
        }
    }
    assert(message =~= whole);
    let k = (n - 1) as nat;
    law_as_many_digests_as_it_takes(len, hash_len);
    law_as_many_digests_as_it_takes(k * hash_len, hash_len);
    let i = hkdf::iterations(len, hash_len);
    let j = hkdf::iterations(k * hash_len, hash_len);
    assert(i == n) by (nonlinear_arith)
        requires
            len <= i * hash_len < len + hash_len,
            (n - 1) * hash_len < len <= n * hash_len,
            hash_len > 0,
    ;
    assert(j == k) by (nonlinear_arith)
        requires
            k * hash_len <= j * hash_len < k * hash_len + hash_len,
            hash_len > 0,
    ;
    assert(n * hash_len == k * hash_len + hash_len) by (nonlinear_arith)
        requires
            k + 1 == n,
    ;
    let all = hkdf_laws::ts(hmac, prk, info, n);
    let front = hkdf_laws::ts(hmac, prk, info, k);
    assert(front.take((k * hash_len) as int) =~= front);
    assert(all.take(len as int) =~= front + hmac(prk, message).take(len - k * hash_len));
}

/// The key of an HMAC is handed out for its inner use and then for its outer use, and once more for
/// the next HMAC.
pub proof fn law_key_begins_anew(driver: HkdfView, next: HkdfView)
    requires
        driver.next() == Some(next),
    ensures
        next.key_state == Some(KeyState::InnerKey),
        next.offsets.prk == 0,
        next.offsets.message == 0,
        next.apps == driver.apps,
        next.lengths == driver.lengths,
        next.salt_status == driver.salt_status,
        next.num_of_iterations == driver.num_of_iterations,
        driver.state is Active,
{
}

/// The end of a derivation is told to its process once, with the status and nothing else; afterwards
/// the driver is idle, holds no guard and tells no one.
pub proof fn law_process_is_told_once(
    driver: HkdfView,
    processid: usize,
    result: Result<(), ErrorCode>,
    again: Result<(), ErrorCode>,
)
    requires
        driver.state matches hkdf::State::Active { processid: p, .. } && p == processid,
        processid < driver.apps.apps.len(),
        driver.apps.apps[processid as int].fault is None,
    ensures
        ({
            let ended = driver.finished(result);
            let before = driver.apps.apps[processid as int];
            let app = ended.apps.apps[processid as int];
            &&& ended.state is Idle
            &&& ended.held is None
            &&& ended.finished(again) == ended
            &&& app.upcalls.len() == before.upcalls.len() + 1
            &&& app.upcalls.drop_last() == before.upcalls
            &&& app.upcalls.last().number == 0
            &&& app.upcalls.last().status == result
            &&& app.upcalls.last().arg1 == 0
            &&& app.upcalls.last().arg2 == 0
            &&& app.readwrite == before.readwrite
            &&& app.readonly == before.readonly
        }),
{
    let before = driver.apps.apps[processid as int];
    let ended = driver.finished(result);
    assert(ended.apps.apps[processid as int].upcalls.drop_last() =~= before.upcalls);
}

/// A derivation goes on after a digest exactly as long as OKM is not complete: where the HMAC driver
/// reports a success and more is missing, the next T follows; where nothing is missing, or where it
/// reports a failure, the derivation ends with that result.
pub proof fn law_success_or_failure_is_passed_on(
    driver: HkdfView,
    result: Result<(), ErrorCode>,
    after: HkdfView,
    mutex: MutexView,
    later: MutexView,
    log: Seq<Call>,
    later_log: Seq<Call>,
)
    requires
        driver.state is Active,
        driver.completion == Some(result),
        driver.message_fits(),
        hkdf::resumed(driver, after, mutex, later, log, later_log),
    ensures
        ({
            let cleared = HkdfView { completion: None, ..driver };
            &&& result is Err ==> after == cleared.finished(result)
            &&& result is Ok && driver.next() is None ==> after == cleared.finished(result)
            &&& result is Ok && driver.next() is Some && driver.held is Some && after.state is Active
                ==> after.stage() is Expand
        }),
{
}

/// A request for the key finds in the buffer what the key has next, as much as the count says, and
/// the rest of the buffer as it was; the next request goes on behind it. Without an operation there is
/// no key.
pub proof fn law_key_is_delivered(
    before: HkdfView,
    after: HkdfView,
    buffer: Seq<u8>,
    later_buffer: Seq<u8>,
    count: Result<usize, ErrorCode>,
)
    requires
        hkdf::key_delivered(before, after, buffer, later_buffer, count),
    ensures
        later_buffer.len() == buffer.len(),
        count matches Ok(count) ==> {
            &&& before.key(buffer.len()) == Ok::<Seq<u8>, ErrorCode>(
                later_buffer.take(count as int),
            )
            &&& later_buffer.skip(count as int) == buffer.skip(count as int)
            &&& after == before.key_taken(count as nat)
        },
        count matches Err(error) ==> later_buffer == buffer && after == before,
        before.state !is Active ==> count == Err::<usize, ErrorCode>(ErrorCode::RESERVE),
        before.state is Active && before.key_state is None ==> count == Err::<usize, ErrorCode>(
            ErrorCode::ALREADY,
        ),
{
    if let Ok(n) = count {
        let data = before.key(buffer.len())->Ok_0;
        assert(later_buffer.take(n as int) =~= data);
        assert(later_buffer.skip(n as int) =~= buffer.skip(n as int));
    }
}

} // verus!
