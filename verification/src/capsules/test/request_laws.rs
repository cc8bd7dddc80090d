//! What the tests on a board ask of the drivers that they test.
use crate::capsules::hkdf_request_laws;
use crate::capsules::test::failure;
use crate::capsules::test::hash;
use crate::capsules::test::hash::TestHashView;
use crate::capsules::test::hkdf;
use crate::capsules::test::hkdf::TestHkdfView;
use crate::capsules::test::hmac;
use crate::capsules::test::hmac::TestHmacView;
use crate::driver_mutex::MutexView;
use crate::hil::trace::Call;
use vstd::prelude::*;

verus! {

/// A test of a digest begins exactly if it is registered, nothing has stopped it, the expected digest
/// has the length of those of the algorithm, and the mutex takes the request. Then the driver is asked,
/// by that algorithm, for the digest of exactly as many bytes as the input has.
pub proof fn law_whole_input_is_tested(
    test: TestHashView,
    mutex: MutexView,
    after: TestHashView,
    given: MutexView,
    later: MutexView,
    log: Seq<Call>,
    later_log: Seq<Call>,
)
    requires
        test.input.len() <= usize::MAX,
    ensures
        test.begun(mutex).1 is Ok <==> {
            &&& test.handle is Some
            &&& test.failure is None
            &&& test.output.len() == test.algorithm.digest_len()
            &&& mutex.request_result(test.handle->0) is Ok
        },
        test.begun(mutex).1 is Ok && hash::readied(
            test.begun(mutex).0,
            after,
            true,
            given,
            later,
            log,
            later_log,
        ) ==> {
            &&& later_log.len() == log.len() + 2
            &&& later_log.last() matches Call::Hash { algorithm, len, result } && {
                &&& algorithm == test.algorithm
                &&& len == test.input.len()
                &&& result is Ok ==> after.input_offset == 0 && after.output_offset == 0
                    && after.failure is None && after.input == test.input && after.output
                    == test.output
            }
        },
{
}

/// A test of a keyed digest, as `law_whole_input_is_tested` says of a plain one: the driver is asked
/// for exactly as many bytes of input and of key as there are.
pub proof fn law_whole_key_and_input_are_tested(
    test: TestHmacView,
    mutex: MutexView,
    after: TestHmacView,
    given: MutexView,
    later: MutexView,
    log: Seq<Call>,
    later_log: Seq<Call>,
)
    requires
        test.input.len() <= usize::MAX,
        test.key.len() <= usize::MAX,
    ensures
        test.begun(mutex).1 is Ok <==> {
            &&& test.handle is Some
            &&& test.failure is None
            &&& test.output.len() == test.algorithm.digest_len()
            &&& mutex.request_result(test.handle->0) is Ok
        },
        test.begun(mutex).1 is Ok && hmac::readied(
            test.begun(mutex).0,
            after,
            true,
            given,
            later,
            log,
            later_log,
        ) ==> {
            &&& later_log.len() == log.len() + 2
            &&& later_log.last() matches Call::Authenticate {
                algorithm,
                input_len,
                key_len,
                result,
            } && {
                &&& algorithm == test.algorithm
                &&& input_len == test.input.len()
                &&& key_len == test.key.len()
                &&& result is Ok ==> after.input_offset == 0 && after.output_offset == 0
                    && after.key_offset == 0 && after.failure is None && after.input == test.input
                    && after.key == test.key && after.output == test.output
            }
        },
{
}

/// A test of a derivation begins exactly if it is registered, nothing has stopped it, the salt is no
/// longer than a block of the algorithm, PRK has the length of a digest, there is room for OKM and the
/// mutex takes the request. Then as many digests are computed as OKM takes and no more.
pub proof fn law_derivation_that_is_tested(test: TestHkdfView, mutex: MutexView)
    requires
        test.okm matches Some(okm) ==> okm.len() <= usize::MAX,
    ensures
        test.begun(mutex).1 is Ok <==> {
            &&& test.handle is Some
            &&& test.failure is None
            &&& test.salt matches Some(salt) ==> salt.len() <= test.algorithm.block_size()
            &&& test.prk.len() == test.algorithm.digest_len()
            &&& test.okm is Some
            &&& mutex.request_result(test.handle->0) is Ok
        },
        test.begun(mutex).1 is Ok ==> {
            let begun = test.begun(mutex).0;
            let len = test.okm->0.len();
            let hash_len = test.algorithm.digest_len();
            &&& len <= begun.num_of_iterations * hash_len < len + hash_len
            &&& begun.ikm == test.ikm
            &&& begun.info == test.info
            &&& begun.salt == test.salt
            &&& begun.key_offset == 0
            &&& begun.message_offset == 0
            &&& begun.output_offset == 0
        },
{
    crate::hil::digest::law_digest_fits_block(test.algorithm);
    if test.okm is Some {
        hkdf_request_laws::law_as_many_digests_as_it_takes(
            test.okm->0.len(),
            test.algorithm.digest_len(),
        );
    }
}

/// What a driver reads from a test follows what it has read before, is not empty, is no longer than
/// asked for, and is shorter only at the end; behind the end there is nothing.
pub proof fn law_piece_follows(data: Seq<u8>, offset: nat, len: nat)
    ensures
        match failure::next_piece(data, offset, len) {
            Some(piece) => {
                &&& 0 < piece.len() <= len
                &&& data.take(offset as int) + piece == data.take((offset + piece.len()) as int)
                &&& piece.len() < len ==> offset + piece.len() == data.len()
            },
            None => offset >= data.len() || len == 0,
        },
{
    if let Some(piece) = failure::next_piece(data, offset, len) {
        assert(data.take(offset as int) + piece =~= data.take((offset + piece.len()) as int));
    }
}

/// The HMAC that extracts for a test is asked for, by the algorithm of the test, on exactly as many
/// bytes as IKM has, under a key of exactly as many bytes as the salt has, or as a digest has where
/// there is none or an empty one; and what is handed out then is IKM.
pub proof fn law_whole_ikm_is_tested(
    test: TestHkdfView,
    after: TestHkdfView,
    mutex: MutexView,
    later: MutexView,
    log: Seq<Call>,
    later_log: Seq<Call>,
)
    requires
        test.failure is None,
        test.message_offset == 0,
        test.ikm.len() > 0,
        hkdf::readied(test, after, true, mutex, later, log, later_log),
    ensures
        later_log[log.len() as int] == (Call::SetHmacClient { client: test.id }),
        later_log[log.len() as int + 1] matches Call::Authenticate {
            algorithm,
            input_len,
            key_len,
            result,
        } && {
            &&& algorithm == test.algorithm
            &&& input_len == test.ikm.len()
            &&& key_len == (match test.salt {
                Some(salt) if salt.len() > 0 => salt.len(),
                _ => test.algorithm.digest_len(),
            })
            &&& result is Ok ==> after.next_input(test.ikm.len()) == Some(test.ikm)
        },
{
    assert(test.ikm.subrange(0, test.ikm.len() as int) =~= test.ikm);
}

/// The HMAC for a T of a test is asked for, by the algorithm of the test, on exactly as many bytes as
/// its message has, under a key of as many bytes as PRK has.
pub proof fn law_whole_messages_are_tested(
    test: TestHkdfView,
    after: TestHkdfView,
    told: Option<usize>,
    mutex: MutexView,
    later: MutexView,
    log: Seq<Call>,
    later_log: Seq<Call>,
)
    requires
        test.held is Some,
    ensures
        hkdf::expanded(test, after, told, mutex, later, log, later_log) ==> {
            &&& told is None
            &&& later_log[log.len() as int] matches Call::Authenticate {
                algorithm,
                input_len,
                key_len,
                ..
            } && {
                &&& algorithm == test.algorithm
                &&& input_len == test.message().len()
                &&& key_len == test.prk.len()
            }
        },
{
}

} // verus!
