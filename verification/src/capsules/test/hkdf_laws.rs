//! The test derives keys as HKDF says, and passes only where the result is the expected one.
//!
//! The HMAC is any function of key and message.
use crate::capsules::hkdf;
use crate::capsules::hkdf_laws;
use crate::capsules::test::failure;
use crate::capsules::test::hkdf as testing;
use crate::capsules::test::hkdf::{Stage, TestHkdfView};
use crate::error::ErrorCode;
use crate::sw::bytes;
use vstd::prelude::*;

verus! {

/// The test computes T(n) from its PRK, and OKM holds T(1) | ... | T(n - 1) and then what has come of
/// T(n).
pub open spec fn on_track(
    test: TestHkdfView,
    hmac: spec_fn(Seq<u8>, Seq<u8>) -> Seq<u8>,
    len: nat,
) -> bool {
    &&& test.wf()
    &&& test.failure is None
    &&& test.stage is Expand
    &&& test.okm is Some
    &&& test.okm->0.len() == len
    &&& test.output_offset <= test.algorithm.digest_len()
    &&& test.stage->start + test.output_offset <= len
    &&& test.okm->0.take(test.stage->start + test.output_offset) == hkdf_laws::ts(
        hmac,
        test.prk,
        test.info,
        test.stage->iteration as nat,
    ).take(test.stage->start + test.output_offset)
}

/// Once PRK is there, the test goes on with T(1) and is on track; if nothing of OKM is wanted, it
/// ends.
pub proof fn law_extract_leads_to_expand(
    test: TestHkdfView,
    hmac: spec_fn(Seq<u8>, Seq<u8>) -> Seq<u8>,
)
    requires
        test.wf(),
        test.failure is None,
        test.key_state is Some,
        test.stage is Extract,
        test.message_fits(),
        test.okm is Some,
    ensures
        match test.next() {
            Some(next) => {
                &&& on_track(next, hmac, test.okm->0.len())
                &&& next.stage == (Stage::Expand { iteration: 1, start: 0 })
                &&& next.prk == test.prk
            },
            None => test.okm->0.len() == 0,
        },
{
    let hash_len = test.algorithm.digest_len();
    let len = test.okm->0.len();
    assert(0 * hash_len == 0) by (nonlinear_arith);
    if test.num_of_iterations > 0 {
        hkdf::lemma_iteration_fits(len, hash_len, 1);
        assert(test.okm->0.take(0) =~= hkdf_laws::ts(hmac, test.prk, test.info, 1).take(0));
    } else {
        assert(len == (len / hash_len) * hash_len + len % hash_len) by (nonlinear_arith)
            requires
                hash_len > 0,
        ;
    }
}

/// What is handed to the HMAC for T(n) is T(n - 1) | info | n.
pub proof fn law_message_of_each_t(
    test: TestHkdfView,
    hmac: spec_fn(Seq<u8>, Seq<u8>) -> Seq<u8>,
    len: nat,
)
    requires
        hkdf_laws::has_len(hmac, test.algorithm.digest_len()),
        on_track(test, hmac, len),
    ensures
        ({
            let n = test.stage->iteration as nat;
            test.message() == hkdf_laws::t(hmac, test.prk, test.info, (n - 1) as nat) + test.info
                + seq![(n % 256) as u8]
        }),
{
    let n = test.stage->iteration as nat;
    let start = test.stage->start as int;
    let hash_len = test.algorithm.digest_len();
    let okm = test.okm->0;
    let offset = start + test.output_offset;
    hkdf::lemma_iteration_fits(len, hash_len, n);
    if n > 1 {
        let all = hkdf_laws::ts(hmac, test.prk, test.info, n);
        let previous = hkdf_laws::ts(hmac, test.prk, test.info, (n - 1) as nat);
        let earlier = hkdf_laws::ts(hmac, test.prk, test.info, (n - 2) as nat);
        let before = hkdf_laws::t(hmac, test.prk, test.info, (n - 1) as nat);
        hkdf_laws::lemma_ts_len(hmac, hash_len, test.prk, test.info, (n - 2) as nat);
        hkdf_laws::lemma_ts_len(hmac, hash_len, test.prk, test.info, (n - 1) as nat);
        hkdf_laws::lemma_ts_len(hmac, hash_len, test.prk, test.info, n);
        assert((n - 2) * hash_len == start - hash_len) by (nonlinear_arith)
            requires
                start == (n - 1) * hash_len,
        ;
        assert(previous == earlier + before);
        assert(all == previous + hkdf_laws::t(hmac, test.prk, test.info, n));
        assert forall|i: int| 0 <= i < hash_len implies test.previous_t()[i] == before[i] by {
            let at = start - hash_len + i;
            assert(okm.take(offset)[at] == okm[at]);
            assert(all.take(offset)[at] == all[at]);
            assert(all[at] == previous[at]);
            assert(previous[at] == before[i]);
        }
        assert(test.previous_t() =~= before);
    }
}

/// A piece of T(n) that the HMAC delivers lands in OKM behind what has come of it, as far as OKM
/// reaches.
pub proof fn law_piece_of_t_lands_in_okm(
    test: TestHkdfView,
    hmac: spec_fn(Seq<u8>, Seq<u8>) -> Seq<u8>,
    len: nat,
    piece: Seq<u8>,
)
    requires
        hkdf_laws::has_len(hmac, test.algorithm.digest_len()),
        on_track(test, hmac, len),
        test.output_offset + piece.len() <= test.algorithm.digest_len(),
        piece == hkdf_laws::t(
            hmac,
            test.prk,
            test.info,
            test.stage->iteration as nat,
        ).subrange(test.output_offset as int, (test.output_offset + piece.len()) as int),
    ensures
        ({
            let (after, result) = test.output(piece);
            &&& result is Ok
            &&& on_track(after, hmac, len)
            &&& after.stage == test.stage
            &&& after.stage->start + after.output_offset == bytes::least(
                test.stage->start as nat + test.output_offset + piece.len(),
                len,
            )
        }),
{
    let n = test.stage->iteration as nat;
    let start = test.stage->start as int;
    let hash_len = test.algorithm.digest_len();
    let okm = test.okm->0;
    let offset = start + test.output_offset;
    let all = hkdf_laws::ts(hmac, test.prk, test.info, n);
    hkdf_laws::lemma_ts_len(hmac, hash_len, test.prk, test.info, n);
    hkdf_laws::lemma_ts_len(hmac, hash_len, test.prk, test.info, (n - 1) as nat);
    hkdf::lemma_iteration_fits(len, hash_len, n);
    let after = test.output(piece).0;
    let taken = test.okm_piece(piece);
    let later = after.okm->0;
    let end = offset + taken.len();
    assert(later.len() == okm.len());
    assert forall|i: int| 0 <= i < end implies later.take(end)[i] == all.take(end)[i] by {
        if i < offset {
            assert(okm.take(offset)[i] == all.take(offset)[i]);
            assert(later[i] == okm[i]);
        } else {
            assert(later[i] == piece[i - offset]);
            assert(all[i] == hkdf_laws::t(hmac, test.prk, test.info, n)[i - start]);
        }
    }
    assert(later.take(end) =~= all.take(end));
}

/// When all of T(n) has come and more of OKM is missing, the test goes on with T(n + 1) and stays on
/// track.
pub proof fn law_next_t_stays_on_track(
    test: TestHkdfView,
    hmac: spec_fn(Seq<u8>, Seq<u8>) -> Seq<u8>,
    len: nat,
)
    requires
        hkdf_laws::has_len(hmac, test.algorithm.digest_len()),
        on_track(test, hmac, len),
        test.stage->iteration < test.num_of_iterations,
        test.output_offset == test.algorithm.digest_len(),
        len <= usize::MAX,
    ensures
        test.next() matches Some(next) && on_track(next, hmac, len) && next.stage->iteration
            == test.stage->iteration + 1,
{
    let n = test.stage->iteration as nat;
    let start = test.stage->start as int;
    let hash_len = test.algorithm.digest_len();
    hkdf::lemma_iteration_fits(len, hash_len, n);
    hkdf::lemma_iteration_fits(len, hash_len, n + 1);
    hkdf_laws::lemma_ts_len(hmac, hash_len, test.prk, test.info, n);
    let all = hkdf_laws::ts(hmac, test.prk, test.info, n);
    let more = hkdf_laws::ts(hmac, test.prk, test.info, n + 1);
    let offset = start + hash_len;
    assert(n < usize::MAX) by (nonlinear_arith)
        requires
            n * hash_len < len,
            len <= usize::MAX,
            hash_len > 0,
    ;
    assert(more.take(offset) =~= all.take(offset));
}

/// When all of the last T has come, OKM is what HKDF-Expand derives from PRK and info; the client is
/// told of it exactly if it is the expected one.
pub proof fn law_client_is_told_of_the_expected_okm(
    test: TestHkdfView,
    hmac: spec_fn(Seq<u8>, Seq<u8>) -> Seq<u8>,
    len: nat,
)
    requires
        hkdf_laws::has_len(hmac, test.algorithm.digest_len()),
        on_track(test, hmac, len),
        test.stage->iteration == test.num_of_iterations,
        test.stage->start + test.output_offset == len,
        test.client is Some,
        test.correct is Some,
        test.correct->0.len() == len,
    ensures
        test.next() is None,
        test.okm->0 == hkdf_laws::expand(
            hmac,
            test.algorithm.digest_len(),
            test.prk,
            test.info,
            len,
        ),
        test.told(Ok(())) is Some <==> test.correct->0 == hkdf_laws::expand(
            hmac,
            test.algorithm.digest_len(),
            test.prk,
            test.info,
            len,
        ),
{
    let okm = test.okm->0;
    let correct = test.correct->0;
    assert(okm.take(len as int) =~= okm);
    failure::lemma_first_mismatch(correct, 0, okm);
    assert(correct.subrange(0, len as int) =~= correct);
}

/// A piece of PRK that the HMAC delivers lands behind what has come of it.
pub proof fn law_piece_of_prk_lands_in_prk(test: TestHkdfView, prk: Seq<u8>, piece: Seq<u8>)
    requires
        test.wf(),
        test.failure is None,
        test.stage is Extract,
        test.prk.len() == prk.len(),
        prk.len() <= usize::MAX,
        test.output_offset + piece.len() <= prk.len(),
        test.prk.take(test.output_offset as int) == prk.take(test.output_offset as int),
        piece == prk.subrange(
            test.output_offset as int,
            (test.output_offset + piece.len()) as int,
        ),
    ensures
        ({
            let (after, result) = test.output(piece);
            &&& result is Ok
            &&& after.output_offset == test.output_offset + piece.len()
            &&& after.prk.take(after.output_offset as int) == prk.take(
                after.output_offset as int,
            )
            &&& after.output_offset == prk.len() ==> after.prk == prk
        }),
{
    let after = test.output(piece).0;
    let end = after.output_offset as int;
    assert(after.prk.take(end) =~= prk.take(end)) by {
        assert forall|i: int| 0 <= i < end implies after.prk[i] == prk[i] by {
            if i < test.output_offset {
                assert(test.prk.take(test.output_offset as int)[i] == prk.take(
                    test.output_offset as int,
                )[i]);
            } else {
                assert(after.prk[i] == piece[i - test.output_offset]);
            }
        }
    }
    if end == prk.len() {
        assert(after.prk.take(end) =~= after.prk);
        assert(prk.take(end) =~= prk);
    }
}

/// The key is the salt, or HashLen zeros where there is none, to extract, and PRK to expand: whole,
/// and once more whole when it is asked for again.
pub proof fn law_key_comes_whole(test: TestHkdfView, len: nat)
    requires
        test.wf(),
        test.failure is None,
        test.key_state is Some,
        test.key_offset == 0,
        test.prk.len() <= len,
        test.salt_len() <= len,
        test.salt matches Some(salt) ==> salt.len() > 0,
    ensures
        test.next_key(len) == Some(
            match (test.stage, test.salt) {
                (Stage::Extract, Some(salt)) => salt,
                (Stage::Extract, None) => bytes::zeros(test.algorithm.digest_len()),
                (Stage::Expand { .. }, _) => test.prk,
            },
        ),
        test.key_taken(len) == test,
{
    match (test.stage, test.salt) {
        (Stage::Extract, Some(salt)) => {
            assert(salt.subrange(0, salt.len() as int) =~= salt);
        },
        (Stage::Extract, None) => {},
        (Stage::Expand { .. }, _) => {
            assert(test.prk.subrange(0, test.prk.len() as int) =~= test.prk);
        },
    }
    assert(test.key_taken(len) =~= test);
}

/// A client is told only where OKM agrees with the expected one as far as both reach.
pub proof fn law_told_only_of_agreement(test: TestHkdfView, result: Result<(), ErrorCode>)
    requires
        test.wf(),
        test.failure is None,
        test.told(result) is Some,
    ensures
        result is Ok,
        ({
            let len = bytes::least(test.okm->0.len(), test.correct->0.len()) as int;
            test.okm->0.take(len) == test.correct->0.take(len)
        }),
{
    let len = bytes::least(test.okm->0.len(), test.correct->0.len()) as int;
    failure::lemma_first_mismatch(test.correct->0, 0, test.okm->0.take(len));
    assert(test.correct->0.subrange(0, len) =~= test.correct->0.take(len));
}

} // verus!
