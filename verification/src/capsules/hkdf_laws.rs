//! The driver derives keys as HKDF says.
//!
//! The HMAC is any function of key and message; the laws say what the driver hands to it and what it
//! makes of its results.
use crate::capsules::hash;
use crate::capsules::hkdf;
use crate::capsules::hkdf::{HkdfView, RO_IKM, RO_INFO, RW_OKM, RW_PRK};
use crate::driver_mutex::MutexView;
use crate::error::ErrorCode;
use crate::grant;
use crate::sw::bytes;
use vstd::prelude::*;

verus! {

/// T(n): the HMAC under PRK of T(n - 1) | info | n; T(0) is empty. The number is a single octet, and
/// at most 255.
pub open spec fn t(
    hmac: spec_fn(Seq<u8>, Seq<u8>) -> Seq<u8>,
    prk: Seq<u8>,
    info: Seq<u8>,
    n: nat,
) -> Seq<u8>
    decreases n,
{
    if n == 0 {
        Seq::empty()
    } else {
        hmac(prk, t(hmac, prk, info, (n - 1) as nat) + info + seq![n as u8])
    }
}

/// T(1) | T(2) | ... | T(n).
pub open spec fn ts(
    hmac: spec_fn(Seq<u8>, Seq<u8>) -> Seq<u8>,
    prk: Seq<u8>,
    info: Seq<u8>,
    n: nat,
) -> Seq<u8>
    decreases n,
{
    if n == 0 {
        Seq::empty()
    } else {
        ts(hmac, prk, info, (n - 1) as nat) + t(hmac, prk, info, n)
    }
}

/// HKDF-Expand: the first `len` octets of T(1) | T(2) | ...
pub open spec fn expand(
    hmac: spec_fn(Seq<u8>, Seq<u8>) -> Seq<u8>,
    hash_len: nat,
    prk: Seq<u8>,
    info: Seq<u8>,
    len: nat,
) -> Seq<u8> {
    ts(hmac, prk, info, hkdf::iterations(len, hash_len)).take(len as int)
}

/// Every result of the HMAC has `hash_len` octets.
pub open spec fn has_len(hmac: spec_fn(Seq<u8>, Seq<u8>) -> Seq<u8>, hash_len: nat) -> bool {
    forall|key: Seq<u8>, message: Seq<u8>| (#[trigger] hmac(key, message)).len() == hash_len
}

/// T(1) | ... | T(n) has n times the length of a digest.
pub proof fn lemma_ts_len(
    hmac: spec_fn(Seq<u8>, Seq<u8>) -> Seq<u8>,
    hash_len: nat,
    prk: Seq<u8>,
    info: Seq<u8>,
    n: nat,
)
    requires
        has_len(hmac, hash_len),
    ensures
        ts(hmac, prk, info, n).len() == n * hash_len,
        n > 0 ==> t(hmac, prk, info, n).len() == hash_len,
    decreases n,
{
    if n > 0 {
        lemma_ts_len(hmac, hash_len, prk, info, (n - 1) as nat);
        assert(n * hash_len == (n - 1) * hash_len + hash_len) by (nonlinear_arith)
            requires
                n > 0,
        ;
    } else {
        assert(0 * hash_len == 0) by (nonlinear_arith);
    }
}

/// The driver computes T(n) under PRK, and OKM holds T(1) | ... | T(n - 1) and then what has come of
/// T(n); PRK, info and OKM are as long as they were when the operation began.
pub open spec fn on_track(
    driver: HkdfView,
    hmac: spec_fn(Seq<u8>, Seq<u8>) -> Seq<u8>,
    prk: Seq<u8>,
    info: Seq<u8>,
) -> bool {
    &&& driver.wf()
    &&& driver.state is Active
    &&& driver.stage() is Expand
    &&& driver.source(RO_INFO) == Ok::<Seq<u8>, ErrorCode>(info)
    &&& info.len() == driver.lengths.info
    &&& driver.sink(RW_PRK) == Ok::<Seq<u8>, ErrorCode>(prk)
    &&& prk.len() == driver.lengths.prk
    &&& driver.sink(RW_OKM) is Ok
    &&& driver.sink(RW_OKM)->Ok_0.len() == driver.lengths.okm
    &&& driver.stage()->start <= driver.offsets.okm <= driver.stage()->start + driver.lengths.prk
    &&& driver.sink(RW_OKM)->Ok_0.take(driver.offsets.okm as int) == ts(
        hmac,
        prk,
        info,
        driver.stage()->iteration as nat,
    ).take(driver.offsets.okm as int)
}

/// T(n - 1) stands in OKM right before T(n).
proof fn lemma_previous_t_in_okm(
    driver: HkdfView,
    hmac: spec_fn(Seq<u8>, Seq<u8>) -> Seq<u8>,
    prk: Seq<u8>,
    info: Seq<u8>,
)
    requires
        has_len(hmac, driver.lengths.prk as nat),
        on_track(driver, hmac, prk, info),
        driver.stage()->iteration > 1,
    ensures
        ({
            let n = driver.stage()->iteration as nat;
            let start = driver.stage()->start as int;
            let hash_len = driver.lengths.prk as int;
            driver.sink(RW_OKM)->Ok_0.subrange(start - hash_len, start) == t(
                hmac,
                prk,
                info,
                (n - 1) as nat,
            )
        }),
{
    let n = driver.stage()->iteration as nat;
    let start = driver.stage()->start as int;
    let hash_len = driver.lengths.prk as nat;
    let okm = driver.sink(RW_OKM)->Ok_0;
    let offset = driver.offsets.okm as int;
    let all = ts(hmac, prk, info, n);
    let previous = ts(hmac, prk, info, (n - 1) as nat);
    let earlier = ts(hmac, prk, info, (n - 2) as nat);
    let before = t(hmac, prk, info, (n - 1) as nat);
    lemma_ts_len(hmac, hash_len, prk, info, (n - 2) as nat);
    lemma_ts_len(hmac, hash_len, prk, info, (n - 1) as nat);
    lemma_ts_len(hmac, hash_len, prk, info, n);
    hkdf::lemma_iteration_fits(driver.lengths.okm as nat, hash_len, n);
    assert((n - 2) * hash_len == start - hash_len) by (nonlinear_arith)
        requires
            start == (n - 1) * hash_len,
    ;
    assert(previous == earlier + before);
    assert(all == previous + t(hmac, prk, info, n));
    assert forall|i: int| 0 <= i < hash_len implies okm.subrange(start - hash_len, start)[i]
        == before[i] by {
        let at = start - hash_len + i;
        assert(okm.take(offset)[at] == okm[at]);
        assert(all.take(offset)[at] == all[at]);
        assert(all[at] == previous[at]);
        assert(previous[at] == before[i]);
    }
    assert(okm.subrange(start - hash_len, start) =~= before);
}

/// What is handed to the HMAC for T(n) is T(n - 1) | info | n, in pieces of whatever length.
#[verifier::rlimit(40)]
pub proof fn law_message_of_each_t(
    driver: HkdfView,
    hmac: spec_fn(Seq<u8>, Seq<u8>) -> Seq<u8>,
    prk: Seq<u8>,
    info: Seq<u8>,
    offset: nat,
    len: nat,
)
    requires
        has_len(hmac, driver.lengths.prk as nat),
        on_track(driver, hmac, prk, info),
    ensures
        ({
            let n = driver.stage()->iteration as nat;
            let message = t(hmac, prk, info, (n - 1) as nat) + info + seq![n as u8];
            let end = if offset + len < message.len() {
                offset + len
            } else {
                message.len()
            };
            &&& message.len() == driver.message_len()
            &&& driver.message(offset, len) == Ok::<Seq<u8>, ErrorCode>(
                if offset < message.len() {
                    message.subrange(offset as int, end as int)
                } else {
                    Seq::empty()
                },
            )
        }),
    decreases len,
{
    let n = driver.stage()->iteration as nat;
    let start = driver.stage()->start as int;
    let hash_len = driver.lengths.prk as nat;
    let before = t(hmac, prk, info, (n - 1) as nat);
    let message = before + info + seq![n as u8];
    lemma_ts_len(hmac, hash_len, prk, info, (n - 1) as nat);
    hkdf::lemma_iteration_fits(driver.lengths.okm as nat, hash_len, n);
    assert(before.len() == driver.t_len());
    if len > 0 && offset < message.len() {
        let t_len = driver.t_len();
        if offset < t_len {
            lemma_previous_t_in_okm(driver, hmac, prk, info);
            let okm = driver.sink(RW_OKM)->Ok_0;
            assert forall|i: int| 0 <= i < t_len implies #[trigger] before[i] == okm[start - t_len
                + i] by {
                assert(okm.subrange(start - t_len, start)[i] == okm[start - t_len + i]);
            }
        }
        let part = driver.message_part(offset, len)->Ok_0;
        assert(driver.message_part(offset, len) is Ok);
        assert(n <= 255);
        if offset < t_len {
            assert(part =~= message.subrange(offset as int, (offset + part.len()) as int));
        } else if offset < t_len + info.len() {
            assert(part =~= message.subrange(offset as int, (offset + part.len()) as int));
        } else {
            assert(part =~= seq![n as u8]);
            assert(part =~= message.subrange(offset as int, (offset + part.len()) as int));
        }
        law_message_of_each_t(
            driver,
            hmac,
            prk,
            info,
            offset + part.len(),
            (len - part.len()) as nat,
        );
        let rest = driver.message(offset + part.len(), (len - part.len()) as nat)->Ok_0;
        let end = if offset + len < message.len() {
            offset + len
        } else {
            message.len()
        };
        assert(part + rest =~= message.subrange(offset as int, end as int));
    } else if offset < message.len() {
        assert(message.subrange(offset as int, offset as int) =~= Seq::<u8>::empty());
    }
}

/// A piece of T(n) that the HMAC delivers lands in OKM behind what has come of it, as far as OKM
/// reaches.
pub proof fn law_piece_of_t_lands_in_okm(
    driver: HkdfView,
    hmac: spec_fn(Seq<u8>, Seq<u8>) -> Seq<u8>,
    prk: Seq<u8>,
    info: Seq<u8>,
    piece: Seq<u8>,
)
    requires
        has_len(hmac, driver.lengths.prk as nat),
        on_track(driver, hmac, prk, info),
        ({
            let n = driver.stage()->iteration as nat;
            let done = driver.offsets.okm - driver.stage()->start;
            &&& done + piece.len() <= driver.lengths.prk
            &&& piece == t(hmac, prk, info, n).subrange(done, (done + piece.len()) as int)
        }),
    ensures
        ({
            let (after, result) = driver.output(piece);
            &&& result is Ok
            &&& on_track(after, hmac, prk, info)
            &&& after.offsets.okm == bytes::least(
                (driver.offsets.okm + piece.len()) as nat,
                driver.lengths.okm as nat,
            )
            &&& after.state == driver.state
        }),
{
    let n = driver.stage()->iteration as nat;
    let start = driver.stage()->start as int;
    let hash_len = driver.lengths.prk as nat;
    let offset = driver.offsets.okm as int;
    let processid = driver.processid()->Ok_0;
    let okm = driver.sink(RW_OKM)->Ok_0;
    let all = ts(hmac, prk, info, n);
    lemma_ts_len(hmac, hash_len, prk, info, n);
    lemma_ts_len(hmac, hash_len, prk, info, (n - 1) as nat);
    hkdf::lemma_iteration_fits(driver.lengths.okm as nat, hash_len, n);
    let (after, result) = driver.output(piece);
    if offset < driver.lengths.okm {
        let taken = driver.okm_piece(piece);
        let later = grant::overwritten(okm, offset, taken);
        grant::law_write_stays_in_its_buffer(
            driver.apps,
            processid,
            RW_OKM,
            later,
            processid,
            RO_INFO,
        );
        grant::law_write_stays_in_its_buffer(
            driver.apps,
            processid,
            RW_OKM,
            later,
            processid,
            RW_PRK,
        );
        assert(driver.apps.readwrite(processid, RW_OKM) is Ok);
        assert(after.sink(RW_PRK) == driver.sink(RW_PRK));
        assert(after.sink(RW_OKM) == Ok::<Seq<u8>, ErrorCode>(later));
        assert(after.source(RO_INFO) == driver.source(RO_INFO));
        let end = offset + taken.len();
        assert forall|i: int| 0 <= i < end implies later.take(end)[i] == all.take(end)[i] by {
            if i < offset {
                assert(okm.take(offset)[i] == all.take(offset)[i]);
            } else {
                assert(later[i] == piece[i - offset]);
                assert(all[i] == t(hmac, prk, info, n)[i - start]);
            }
        }
        assert(later.take(end) =~= all.take(end));
    }
}

/// When all of T(n) has come and more of OKM is missing, the driver goes on with T(n + 1) and stays
/// on track.
pub proof fn law_next_t_stays_on_track(
    driver: HkdfView,
    hmac: spec_fn(Seq<u8>, Seq<u8>) -> Seq<u8>,
    prk: Seq<u8>,
    info: Seq<u8>,
)
    requires
        has_len(hmac, driver.lengths.prk as nat),
        on_track(driver, hmac, prk, info),
        driver.stage()->iteration < driver.num_of_iterations,
        driver.offsets.okm == driver.stage()->start + driver.lengths.prk,
    ensures
        driver.next() matches Some(next) && on_track(next, hmac, prk, info)
            && next.stage()->iteration == driver.stage()->iteration + 1,
{
    let n = driver.stage()->iteration as nat;
    let hash_len = driver.lengths.prk as nat;
    hkdf::lemma_iteration_fits(driver.lengths.okm as nat, hash_len, n);
    hkdf::lemma_iteration_fits(driver.lengths.okm as nat, hash_len, n + 1);
    lemma_ts_len(hmac, hash_len, prk, info, n);
    let next = driver.next()->0;
    let all = ts(hmac, prk, info, n);
    let more = ts(hmac, prk, info, n + 1);
    let offset = driver.offsets.okm as int;
    assert(more.take(offset) =~= all.take(offset));
    assert(next.sink(RW_OKM) == driver.sink(RW_OKM));
    assert(next.sink(RW_PRK) == driver.sink(RW_PRK));
}

/// When all of the last T has come, OKM is what HKDF-Expand derives from PRK and info, and the
/// operation ends.
pub proof fn law_okm_is_hkdf_expand(
    driver: HkdfView,
    hmac: spec_fn(Seq<u8>, Seq<u8>) -> Seq<u8>,
    prk: Seq<u8>,
    info: Seq<u8>,
)
    requires
        has_len(hmac, driver.lengths.prk as nat),
        on_track(driver, hmac, prk, info),
        driver.stage()->iteration == driver.num_of_iterations,
        driver.offsets.okm == driver.lengths.okm,
    ensures
        driver.sink(RW_OKM) == Ok::<Seq<u8>, ErrorCode>(
            expand(
                hmac,
                driver.lengths.prk as nat,
                prk,
                info,
                driver.lengths.okm as nat,
            ),
        ),
        driver.next() is None,
{
    let okm = driver.sink(RW_OKM)->Ok_0;
    assert(okm.take(okm.len() as int) =~= okm);
}

/// Once PRK is there, the driver goes on with T(1) and is on track; if nothing of OKM is wanted, it
/// has what HKDF-Expand derives, which is nothing.
pub proof fn law_extract_leads_to_expand(
    driver: HkdfView,
    hmac: spec_fn(Seq<u8>, Seq<u8>) -> Seq<u8>,
    prk: Seq<u8>,
    info: Seq<u8>,
)
    requires
        driver.wf(),
        driver.state is Active,
        driver.stage() is Extract,
        driver.message_fits(),
        driver.source(RO_INFO) == Ok::<Seq<u8>, ErrorCode>(info),
        info.len() == driver.lengths.info,
        driver.sink(RW_PRK) == Ok::<Seq<u8>, ErrorCode>(prk),
        prk.len() == driver.lengths.prk,
        driver.sink(RW_OKM) is Ok,
        driver.sink(RW_OKM)->Ok_0.len() == driver.lengths.okm,
    ensures
        match driver.next() {
            Some(next) => on_track(next, hmac, prk, info) && next.stage()->iteration == 1,
            None => driver.lengths.okm == 0 && expand(
                hmac,
                driver.lengths.prk as nat,
                prk,
                info,
                0,
            ) == Seq::<u8>::empty(),
        },
{
    let okm_len = driver.lengths.okm as nat;
    let hash_len = driver.lengths.prk as nat;
    assert(0 * hash_len == 0) by (nonlinear_arith);
    if driver.num_of_iterations > 0 {
        hkdf::lemma_iteration_fits(okm_len, hash_len, 1);
        let next = driver.next()->0;
        assert(next.sink(RW_OKM) == driver.sink(RW_OKM));
        assert(next.sink(RW_PRK) == driver.sink(RW_PRK));
        assert(next.sink(RW_OKM)->Ok_0.take(0) =~= ts(hmac, prk, info, 1).take(0));
    } else {
        assert(okm_len == 0) by {
            assert(okm_len == (okm_len / hash_len) * hash_len + okm_len % hash_len)
                by (nonlinear_arith)
                requires
                    hash_len > 0,
            ;
        }
        assert(hkdf::iterations(0, hash_len) == 0) by {
            assert(0nat / hash_len == 0) by (nonlinear_arith)
                requires
                    hash_len > 0,
            ;
            assert(0nat % hash_len == 0) by (nonlinear_arith)
                requires
                    hash_len > 0,
            ;
        }
        assert(ts(hmac, prk, info, 0).take(0) =~= Seq::<u8>::empty());
    }
}

/// A piece of PRK that the HMAC delivers lands in the process's buffer behind what has come of it.
pub proof fn law_piece_of_prk_lands_in_prk(driver: HkdfView, prk: Seq<u8>, piece: Seq<u8>)
    requires
        driver.wf(),
        driver.state is Active,
        driver.stage() is Extract,
        driver.sink(RW_PRK) is Ok,
        driver.sink(RW_PRK)->Ok_0.len() == driver.lengths.prk,
        prk.len() == driver.lengths.prk,
        driver.offsets.prk + piece.len() <= prk.len(),
        driver.sink(RW_PRK)->Ok_0.take(driver.offsets.prk as int) == prk.take(
            driver.offsets.prk as int,
        ),
        piece == prk.subrange(
            driver.offsets.prk as int,
            (driver.offsets.prk + piece.len()) as int,
        ),
    ensures
        ({
            let (after, result) = driver.output(piece);
            let end = driver.offsets.prk + piece.len();
            &&& result is Ok
            &&& after.offsets.prk == end
            &&& after.sink(RW_PRK) is Ok
            &&& after.sink(RW_PRK)->Ok_0.len() == prk.len()
            &&& after.sink(RW_PRK)->Ok_0.take(end as int) == prk.take(end as int)
            &&& end == prk.len() ==> after.sink(RW_PRK)->Ok_0 == prk
        }),
{
    let processid = driver.processid()->Ok_0;
    let buffer = driver.sink(RW_PRK)->Ok_0;
    let offset = driver.offsets.prk as int;
    let later = grant::overwritten(buffer, offset, piece);
    let after = driver.output(piece).0;
    let end = offset + piece.len();
    grant::law_write_stays_in_its_buffer(
        driver.apps,
        processid,
        RW_PRK,
        later,
        processid,
        RW_PRK,
    );
    assert(driver.apps.readwrite(processid, RW_PRK) is Ok);
    assert(after.sink(RW_PRK) == Ok::<Seq<u8>, ErrorCode>(later));
    assert forall|i: int| 0 <= i < end implies later.take(end)[i] == prk.take(end)[i] by {
        if i < offset {
            assert(buffer.take(offset)[i] == prk.take(offset)[i]);
        } else {
            assert(later[i] == piece[i - offset]);
        }
    }
    assert(later.take(end) =~= prk.take(end));
    if end == prk.len() {
        assert(later.take(end) =~= later);
        assert(prk.take(end) =~= prk);
    }
}

/// What is handed to the HMAC to extract: IKM as input, and as key the salt, or HashLen zeros where
/// the process gives none. The key comes whole, and once more whole when it is asked for again.
pub proof fn law_extract_takes_salt_and_ikm(driver: HkdfView, len: nat)
    requires
        driver.wf(),
        driver.state is Active,
        driver.stage() is Extract,
        driver.key_state is Some,
        driver.offsets.salt == 0,
        driver.offsets.ikm == 0,
        driver.lengths.salt > 0,
        driver.lengths.salt <= len,
        driver.source(RO_IKM) is Ok,
        0 < driver.source(RO_IKM)->Ok_0.len() <= len,
        driver.salt_status is Present ==> driver.source(hkdf::RO_SALT) is Ok && driver.source(
            hkdf::RO_SALT,
        )->Ok_0.len() >= driver.lengths.salt,
    ensures
        driver.input(len) == driver.source(RO_IKM),
        driver.key(len) == Ok::<Seq<u8>, ErrorCode>(
            if driver.salt_status is Present {
                driver.source(hkdf::RO_SALT)->Ok_0.take(driver.lengths.salt as int)
            } else {
                bytes::zeros(driver.lengths.salt as nat)
            },
        ),
        driver.key_taken(driver.lengths.salt as nat) == driver,
{
    let ikm = driver.source(RO_IKM)->Ok_0;
    assert(ikm.subrange(0, ikm.len() as int) =~= ikm);
    if driver.salt_status is Present {
        let salt = driver.source(hkdf::RO_SALT)->Ok_0;
        assert(salt.subrange(0, driver.lengths.salt as int) =~= salt.take(
            driver.lengths.salt as int,
        ));
    }
    assert(driver.key_taken(driver.lengths.salt as nat) =~= driver);
}

/// A derivation that is accepted has an OKM of at most 255 times HashLen octets; a longer one is
/// refused.
pub proof fn law_longest_okm(
    driver: HkdfView,
    processid: usize,
    algo_value: usize,
    salt_len: usize,
    mutex: MutexView,
)
    requires
        driver.start_result(processid, algo_value, salt_len, mutex) is Ok,
    ensures
        ({
            let algorithm = hash::algorithm_of(algo_value)->Ok_0;
            driver.begun(processid, algorithm, salt_len).lengths.okm <= 255
                * algorithm.digest_len()
        }),
{
}

/// The key of the extraction: the salt, or HashLen zeros where the process gives none.
pub open spec fn extraction_key(driver: HkdfView) -> Seq<u8> {
    if driver.salt_status is Present {
        driver.source(hkdf::RO_SALT)->Ok_0.take(driver.lengths.salt as int)
    } else {
        bytes::zeros(driver.lengths.salt as nat)
    }
}

/// IKM reaches the HMAC in pieces of whatever length, in order: each piece that is asked for begins
/// where the one before ended.
pub proof fn law_ikm_in_pieces(driver: HkdfView, len: nat)
    requires
        driver.wf(),
        driver.state is Active,
        driver.stage() is Extract,
        driver.source(RO_IKM) is Ok,
        driver.source(RO_IKM)->Ok_0.len() <= usize::MAX,
        driver.offsets.ikm < driver.source(RO_IKM)->Ok_0.len(),
        len > 0,
    ensures
        ({
            let ikm = driver.source(RO_IKM)->Ok_0;
            let piece = driver.input(len)->Ok_0;
            let after = driver.input_taken(piece.len());
            &&& driver.input(len) is Ok
            &&& 0 < piece.len() <= len
            &&& ikm.take(driver.offsets.ikm as int) + piece == ikm.take(after.offsets.ikm as int)
            &&& after.offsets.ikm == driver.offsets.ikm + piece.len()
            &&& piece.len() == bytes::least((ikm.len() - driver.offsets.ikm) as nat, len)
        }),
{
    let ikm = driver.source(RO_IKM)->Ok_0;
    let piece = driver.input(len)->Ok_0;
    let offset = driver.offsets.ikm as int;
    assert(ikm.take(offset) + piece =~= ikm.take(offset + piece.len()));
}

/// The key of the extraction reaches the HMAC in pieces of whatever length, in order, and begins
/// anew after its last byte.
pub proof fn law_salt_in_pieces(driver: HkdfView, len: nat)
    requires
        driver.wf(),
        driver.state is Active,
        driver.stage() is Extract,
        driver.key_state is Some,
        driver.offsets.salt < driver.lengths.salt,
        driver.salt_status is Present ==> driver.source(hkdf::RO_SALT) is Ok && driver.source(
            hkdf::RO_SALT,
        )->Ok_0.len() >= driver.lengths.salt,
        len > 0,
    ensures
        ({
            let salt = extraction_key(driver);
            let piece = driver.key(len)->Ok_0;
            let end = driver.offsets.salt + piece.len();
            &&& driver.key(len) is Ok
            &&& 0 < piece.len() <= len
            &&& salt.take(driver.offsets.salt as int) + piece == salt.take(end)
            &&& piece.len() == bytes::least(
                (driver.lengths.salt - driver.offsets.salt) as nat,
                len,
            )
            &&& driver.key_taken(piece.len()).offsets.salt == (if end == salt.len() {
                0
            } else {
                end
            })
        }),
{
    let salt = extraction_key(driver);
    let piece = driver.key(len)->Ok_0;
    let offset = driver.offsets.salt as int;
    assert(salt.take(offset) + piece =~= salt.take(offset + piece.len()));
}

/// PRK as key of the expansion reaches the HMAC in pieces of whatever length, in order, and begins
/// anew after its last byte.
pub proof fn law_prk_in_pieces(driver: HkdfView, len: nat)
    requires
        driver.wf(),
        driver.state is Active,
        driver.stage() is Expand,
        driver.key_state is Some,
        driver.offsets.prk < driver.lengths.prk,
        driver.sink(RW_PRK) is Ok,
        driver.sink(RW_PRK)->Ok_0.len() == driver.lengths.prk,
        len > 0,
    ensures
        ({
            let prk = driver.sink(RW_PRK)->Ok_0;
            let piece = driver.key(len)->Ok_0;
            let end = driver.offsets.prk + piece.len();
            &&& driver.key(len) is Ok
            &&& 0 < piece.len() <= len
            &&& prk.take(driver.offsets.prk as int) + piece == prk.take(end)
            &&& driver.key_taken(piece.len()).offsets.prk == (if end == prk.len() {
                0
            } else {
                end
            })
        }),
{
    let prk = driver.sink(RW_PRK)->Ok_0;
    let piece = driver.key(len)->Ok_0;
    let offset = driver.offsets.prk as int;
    assert(prk.take(offset) + piece =~= prk.take(offset + piece.len()));
}

/// What is handed to the HMAC as key to expand is PRK, whole, and once more whole when it is asked
/// for again.
pub proof fn law_expand_takes_prk(driver: HkdfView, len: nat)
    requires
        driver.wf(),
        driver.state is Active,
        driver.stage() is Expand,
        driver.key_state is Some,
        driver.offsets.prk == 0,
        driver.lengths.prk <= len,
        driver.sink(RW_PRK) is Ok,
        driver.sink(RW_PRK)->Ok_0.len() == driver.lengths.prk,
    ensures
        driver.key(len) == driver.sink(RW_PRK),
        driver.key_taken(driver.lengths.prk as nat) == driver,
{
    let prk = driver.sink(RW_PRK)->Ok_0;
    assert(prk.subrange(0, prk.len() as int) =~= prk);
    assert(driver.key_taken(driver.lengths.prk as nat) =~= driver);
}

} // verus!
