//! The signer derives its nonces as RFC 6979 says and computes signatures as SEC1 says.
//!
//! The HMAC, the multiplication of points and the modular operations are any functions of bytes; the
//! laws say what the signer hands to them and what it makes of their results.
use crate::capsules::ecdsa;
use crate::capsules::ecdsa::{
    Completion, Driver, Operand, SignedView, SignerView, Start, State, StepView,
};
use crate::error::ErrorCode;
use crate::hil::ecc_constants;
use crate::sw::bytes;
use vstd::prelude::*;

verus! {

/// `K` and `V` of RFC 6979, from which the next candidate comes.
#[verifier::ext_equal]
pub struct Generator {
    pub key: Seq<u8>,
    pub v: Seq<u8>,
}

/// `K2` and `V2` for the private key `d` and the hash `z`.
pub open spec fn seeded(
    hmac: spec_fn(Seq<u8>, Seq<u8>) -> Seq<u8>,
    d: Seq<u8>,
    z: Seq<u8>,
) -> Generator {
    let v = Seq::new(32, |i: int| 1u8);
    let k1 = hmac(bytes::zeros(32), v + seq![0u8] + d + z);
    let v1 = hmac(k1, v);
    let k2 = hmac(k1, v1 + seq![1u8] + d + z);
    Generator { key: k2, v: hmac(k2, v1) }
}

impl Generator {
    /// The candidate `T` for a nonce.
    pub open spec fn candidate(self, hmac: spec_fn(Seq<u8>, Seq<u8>) -> Seq<u8>) -> Seq<u8> {
        hmac(self.key, self.v)
    }

    /// The generator after its candidate was rejected.
    pub open spec fn next(self, hmac: spec_fn(Seq<u8>, Seq<u8>) -> Seq<u8>) -> Generator {
        let t = self.candidate(hmac);
        let key = hmac(self.key, t + seq![0u8]);
        Generator { key, v: hmac(key, t) }
    }
}

/// The generator after so many candidates were rejected.
pub open spec fn generator(
    hmac: spec_fn(Seq<u8>, Seq<u8>) -> Seq<u8>,
    d: Seq<u8>,
    z: Seq<u8>,
    rejected: nat,
) -> Generator
    decreases rejected,
{
    if rejected == 0 {
        seeded(hmac, d, z)
    } else {
        generator(hmac, d, z, (rejected - 1) as nat).next(hmac)
    }
}

/// Every result has 32 bytes.
pub open spec fn gives_numbers(f: spec_fn(Seq<u8>, Seq<u8>) -> Seq<u8>) -> bool {
    forall|a: Seq<u8>, b: Seq<u8>| (#[trigger] f(a, b)).len() == 32
}

/// The signer after the HMAC driver has read key and message, written the result and reported
/// success, and what is to be done then.
pub open spec fn hmac_answered(
    signer: SignerView,
    hmac: spec_fn(Seq<u8>, Seq<u8>) -> Seq<u8>,
) -> (SignerView, StepView) {
    SignerView {
        input_counter: signer.message().len(),
        key_counter: 0,
        completion: Some(Completion::Hash(Ok(()))),
        ..signer.hmac_output(hmac(signer.key, signer.message()))
    }.resumed()
}

/// The signer after the driver for points has read the nonce, written the x-coordinate and reported
/// success, and what is to be done then.
pub open spec fn point_answered(signer: SignerView, x: Seq<u8>) -> (SignerView, StepView) {
    SignerView {
        input_counter: 32,
        r: ecdsa::updated(signer.r, signer.output_counter, x),
        output_counter: 32,
        completion: Some(Completion::Ecc(Ok(()))),
        ..signer
    }.resumed()
}

/// The signer after the driver for numbers has read the operands and the modulus, written the result
/// and reported success, and what is to be done then.
pub open spec fn number_answered(signer: SignerView, result: Seq<u8>) -> (SignerView, StepView) {
    SignerView {
        input_counter: 0,
        key_counter: 32,
        completion: Some(Completion::Math(Ok(()))),
        ..operands_read(signer).number_output(result)
    }.resumed()
}

/// The signer after all of its operands were read.
pub open spec fn operands_read(signer: SignerView) -> SignerView {
    if signer.has_two_operands() {
        signer.number_taken(32).number_taken(32)
    } else {
        signer.number_taken(32)
    }
}

/// The signer after it got the guard of the driver that it waits for.
pub open spec fn admitted(signer: SignerView, mutex: usize) -> SignerView {
    let (driver, state, start) = signer.awaited()->0;
    SignerView {
        state,
        held: Some((driver, mutex)),
        operand: if state is MathRDaMul {
            Operand::First
        } else {
            signer.operand
        },
        ..signer
    }
}

/// The signer derives a nonce for `z` under `d`, with its driver at hand.
pub open spec fn at_work(signer: SignerView, d: Seq<u8>, z: Seq<u8>) -> bool {
    &&& signer.wf()
    &&& signer.held is Some
    &&& signer.signing_key == d
    &&& signer.hash == Some(z)
    &&& signer.signature is Some
    &&& signer.input_counter == 0
    &&& signer.output_counter == 0
    &&& signer.key_counter == 0
    &&& signer.completion is None
}

/// The signer computes the candidate that follows `rejected` other ones.
pub open spec fn generates(
    signer: SignerView,
    hmac: spec_fn(Seq<u8>, Seq<u8>) -> Seq<u8>,
    d: Seq<u8>,
    z: Seq<u8>,
    rejected: nat,
) -> bool {
    &&& at_work(signer, d, z)
    &&& signer.state is HmacGeneratingK
    &&& (Generator { key: signer.key, v: signer.v }) == generator(hmac, d, z, rejected)
}

/// The signer has taken the candidate that follows `rejected` other ones as nonce.
pub open spec fn has_nonce(
    signer: SignerView,
    hmac: spec_fn(Seq<u8>, Seq<u8>) -> Seq<u8>,
    d: Seq<u8>,
    z: Seq<u8>,
    rejected: nat,
) -> bool {
    let source = generator(hmac, d, z, rejected);
    &&& signer.wf()
    &&& signer.signing_key == d
    &&& signer.hash == Some(z)
    &&& signer.signature is Some
    &&& signer.completion is None
    &&& signer.key == source.key
    &&& signer.v == source.candidate(hmac)
    &&& signer.k == source.candidate(hmac)
    &&& ecdsa::is_valid_nonce(signer.k)
}

/// What is read in two pieces is what is read in one.
pub proof fn law_read_in_pieces(data: Seq<u8>, offset: nat, first: nat, second: nat)
    ensures
        ({
            let front = ecdsa::piece(data, offset, first);
            front + ecdsa::piece(data, offset + front.len(), second) == ecdsa::piece(
                data,
                offset,
                first + second,
            )
        }),
        offset == 0 && first >= data.len() ==> ecdsa::piece(data, offset, first) == data,
{
    let front = ecdsa::piece(data, offset, first);
    let back = ecdsa::piece(data, offset + front.len(), second);
    assert(front + back =~= ecdsa::piece(data, offset, first + second));
    if offset == 0 && first >= data.len() {
        assert(ecdsa::piece(data, offset, first) =~= data);
    }
}

/// A number that is written in two pieces is the one that is written at once, and 32 bytes that are
/// written to the front are the number.
pub proof fn law_written_in_pieces(number: Seq<u8>, offset: nat, front: Seq<u8>, back: Seq<u8>)
    requires
        number.len() == 32,
        offset + front.len() + back.len() <= 32,
    ensures
        ecdsa::updated(
            ecdsa::updated(number, offset, front),
            offset + front.len(),
            back,
        ) == ecdsa::updated(number, offset, front + back),
        offset == 0 && front.len() == 32 ==> ecdsa::updated(number, offset, front) == front,
{
    assert(ecdsa::updated(
        ecdsa::updated(number, offset, front),
        offset + front.len(),
        back,
    ) =~= ecdsa::updated(number, offset, front + back));
    if offset == 0 && front.len() == 32 {
        assert(ecdsa::updated(number, offset, front) =~= front);
    }
}

/// What one HMAC does to the numbers of the signer.
proof fn lemma_hmac_answered(
    signer: SignerView,
    hmac: spec_fn(Seq<u8>, Seq<u8>) -> Seq<u8>,
    d: Seq<u8>,
    z: Seq<u8>,
)
    requires
        at_work(signer, d, z),
        gives_numbers(hmac),
    ensures
        ({
            let result = hmac(signer.key, signer.message());
            match signer.state {
                State::HmacDerivingK1 | State::HmacDerivingK2 | State::HmacGetNewK => {
                    &&& at_work(hmac_answered(signer, hmac).0, d, z)
                    &&& hmac_answered(signer, hmac).0.key == result
                    &&& hmac_answered(signer, hmac).0.v == signer.v
                },
                State::HmacDerivingV1 | State::HmacDerivingV2 => {
                    &&& at_work(hmac_answered(signer, hmac).0, d, z)
                    &&& hmac_answered(signer, hmac).0.v == result
                    &&& hmac_answered(signer, hmac).0.key == signer.key
                },
                State::HmacGeneratingK => {
                    &&& hmac_answered(signer, hmac).0.v == result
                    &&& hmac_answered(signer, hmac).0.key == signer.key
                    &&& signer.hmac_output(result).t == result
                },
                _ => true,
            }
        }),
{
    let result = hmac(signer.key, signer.message());
    law_written_in_pieces(signer.key, 0, result, Seq::empty());
    law_written_in_pieces(signer.v, 0, result, Seq::empty());
    law_written_in_pieces(signer.t, 0, result, Seq::empty());
}

/// The driver for HMACs is asked for as many bytes as the message has.
pub proof fn law_hmac_takes_whole_message(
    signer: SignerView,
    hmac: spec_fn(Seq<u8>, Seq<u8>) -> Seq<u8>,
    d: Seq<u8>,
    z: Seq<u8>,
)
    requires
        at_work(signer, d, z),
        signer.derives(),
        gives_numbers(hmac),
    ensures
        ({
            let (next, step) = hmac_answered(signer, hmac);
            next.derives() ==> step.start == Some(
                Start::Authenticate(next.message().len() as usize),
            )
        }),
{
    lemma_hmac_answered(signer, hmac, d, z);
}

/// From the start, four HMACs under the keys and over the messages of RFC 6979 lead to the first
/// candidate.
pub proof fn law_derivation_as_in_rfc(
    signer: SignerView,
    hmac: spec_fn(Seq<u8>, Seq<u8>) -> Seq<u8>,
    hash: Seq<u8>,
    signature: Seq<u8>,
    mutex: usize,
)
    requires
        signer.wf(),
        signer.state is Idle,
        signer.completion is None,
        hash.len() == 32,
        signature.len() == 64,
        bytes::be_value(hash) < bytes::be_value(ecc_constants::n()),
        gives_numbers(hmac),
    ensures
        ({
            let begun = signer.begun(hash, signature).0;
            let first = admitted(begun, mutex);
            let second = hmac_answered(first, hmac).0;
            let third = hmac_answered(second, hmac).0;
            let fourth = hmac_answered(third, hmac).0;
            &&& begun.awaited() == Some(
                (Driver::Hmac, State::HmacDerivingK1, Start::Authenticate(97)),
            )
            &&& first.message().len() == 97
            &&& generates(hmac_answered(fourth, hmac).0, hmac, signer.signing_key, hash, 0)
        }),
{
    let d = signer.signing_key;
    let begun = signer.begun(hash, signature).0;
    let first = admitted(begun, mutex);
    let second = hmac_answered(first, hmac).0;
    let third = hmac_answered(second, hmac).0;
    let fourth = hmac_answered(third, hmac).0;
    lemma_hmac_answered(first, hmac, d, hash);
    lemma_hmac_answered(second, hmac, d, hash);
    lemma_hmac_answered(third, hmac, d, hash);
    lemma_hmac_answered(fourth, hmac, d, hash);
    reveal_with_fuel(generator, 1);
}

/// A hash that is not less than the order is reduced before the derivation.
pub proof fn law_large_hash_is_reduced(
    signer: SignerView,
    hash: Seq<u8>,
    signature: Seq<u8>,
    mutex: usize,
    reduced: Seq<u8>,
)
    requires
        signer.wf(),
        signer.state is Idle,
        signer.held is None,
        signer.completion is None,
        hash.len() == 32,
        signature.len() == 64,
        bytes::be_value(hash) >= bytes::be_value(ecc_constants::n()),
        reduced.len() == 32,
        bytes::be_value(reduced) < bytes::be_value(ecc_constants::n()),
    ensures
        ({
            let begun = signer.begun(hash, signature).0;
            let reducing = admitted(begun, mutex);
            let (after, step) = number_answered(reducing, reduced);
            &&& begun.awaited() == Some((Driver::Math, State::ModHash, Start::Modulo))
            &&& reducing.number() == Some(hash)
            &&& step.dropped == Some((Driver::Math, mutex))
            &&& step.request == signer.wanted(Driver::Hmac)
            &&& after == signer.begun(reduced, signature).0
        }),
{
    law_written_in_pieces(hash, 0, reduced, Seq::empty());
}

/// A candidate in range becomes the nonce, and the driver for points is asked for.
pub proof fn law_valid_candidate_is_taken(
    signer: SignerView,
    hmac: spec_fn(Seq<u8>, Seq<u8>) -> Seq<u8>,
    d: Seq<u8>,
    z: Seq<u8>,
    rejected: nat,
)
    requires
        generates(signer, hmac, d, z, rejected),
        gives_numbers(hmac),
        ecdsa::is_valid_nonce(generator(hmac, d, z, rejected).candidate(hmac)),
    ensures
        ({
            let (next, step) = hmac_answered(signer, hmac);
            &&& has_nonce(next, hmac, d, z, rejected)
            &&& next.state is EccCalculatingR
            &&& next.output_counter == 0
            &&& step.dropped == signer.held
            &&& step.request == signer.wanted(Driver::Ecc)
        }),
{
    lemma_hmac_answered(signer, hmac, d, z);
}

/// From a key and a candidate, two HMACs lead to the next candidate.
proof fn lemma_next_candidate(
    signer: SignerView,
    hmac: spec_fn(Seq<u8>, Seq<u8>) -> Seq<u8>,
    d: Seq<u8>,
    z: Seq<u8>,
    rejected: nat,
)
    requires
        at_work(signer, d, z),
        signer.state is HmacGetNewK,
        gives_numbers(hmac),
        signer.key == generator(hmac, d, z, rejected).key,
        signer.v == generator(hmac, d, z, rejected).candidate(hmac),
    ensures
        generates(
            hmac_answered(hmac_answered(signer, hmac).0, hmac).0,
            hmac,
            d,
            z,
            rejected + 1,
        ),
{
    lemma_hmac_answered(signer, hmac, d, z);
    lemma_hmac_answered(hmac_answered(signer, hmac).0, hmac, d, z);
    reveal_with_fuel(generator, 1);
    assert(generator(hmac, d, z, rejected + 1) == generator(hmac, d, z, rejected).next(hmac));
}

/// A candidate out of range is replaced by the next one of RFC 6979, with the driver at hand.
pub proof fn law_invalid_candidate_is_replaced(
    signer: SignerView,
    hmac: spec_fn(Seq<u8>, Seq<u8>) -> Seq<u8>,
    d: Seq<u8>,
    z: Seq<u8>,
    rejected: nat,
)
    requires
        generates(signer, hmac, d, z, rejected),
        gives_numbers(hmac),
        !ecdsa::is_valid_nonce(generator(hmac, d, z, rejected).candidate(hmac)),
    ensures
        ({
            let (retrying, step) = hmac_answered(signer, hmac);
            &&& step.start == Some(Start::Authenticate(33))
            &&& generates(
                hmac_answered(hmac_answered(retrying, hmac).0, hmac).0,
                hmac,
                d,
                z,
                rejected + 1,
            )
        }),
{
    lemma_hmac_answered(signer, hmac, d, z);
    let retrying = hmac_answered(signer, hmac).0;
    lemma_next_candidate(retrying, hmac, d, z, rejected);
}

/// A nonce whose point has the x-coordinate 0 is replaced by the next candidate of RFC 6979.
pub proof fn law_zero_r_rejects_nonce(
    signer: SignerView,
    hmac: spec_fn(Seq<u8>, Seq<u8>) -> Seq<u8>,
    d: Seq<u8>,
    z: Seq<u8>,
    rejected: nat,
    x: Seq<u8>,
    mutex: usize,
)
    requires
        has_nonce(signer, hmac, d, z, rejected),
        signer.state is EccCalculatingR,
        signer.held is Some,
        signer.output_counter == 0,
        signer.key_counter == 0,
        gives_numbers(hmac),
        x.len() == 32,
        bytes::be_value(x) == 0,
    ensures
        ({
            let (waiting, step) = point_answered(signer, x);
            &&& step.dropped == signer.held
            &&& step.request == signer.wanted(Driver::Hmac)
            &&& waiting.awaited() == Some(
                (Driver::Hmac, State::HmacGetNewK, Start::Authenticate(33)),
            )
            &&& generates(
                hmac_answered(hmac_answered(admitted(waiting, mutex), hmac).0, hmac).0,
                hmac,
                d,
                z,
                rejected + 1,
            )
        }),
{
    law_written_in_pieces(signer.r, 0, x, Seq::empty());
    let waiting = point_answered(signer, x).0;
    lemma_next_candidate(admitted(waiting, mutex), hmac, d, z, rejected);
}

/// The modular operations of SEC1, on numbers of 32 bytes.
pub struct Arithmetic {
    /// A number modulo the order.
    pub modulo: spec_fn(Seq<u8>) -> Seq<u8>,
    pub multiplication: spec_fn(Seq<u8>, Seq<u8>) -> Seq<u8>,
    pub addition: spec_fn(Seq<u8>, Seq<u8>) -> Seq<u8>,
    pub division: spec_fn(Seq<u8>, Seq<u8>) -> Seq<u8>,
}

impl Arithmetic {
    pub open spec fn wf(self) -> bool {
        &&& forall|a: Seq<u8>| (#[trigger] (self.modulo)(a)).len() == 32
        &&& gives_numbers(self.multiplication)
        &&& gives_numbers(self.addition)
        &&& gives_numbers(self.division)
    }

    /// `r`, from the x-coordinate of `k*G`.
    pub open spec fn r(self, x: Seq<u8>) -> Seq<u8> {
        (self.modulo)(x)
    }

    /// `s = (r * d + z) / k`.
    pub open spec fn s(self, r: Seq<u8>, d: Seq<u8>, z: Seq<u8>, k: Seq<u8>) -> Seq<u8> {
        (self.division)((self.addition)((self.multiplication)(r, d), z), k)
    }
}

/// The signer after the operation on its two operands.
pub open spec fn computed(
    signer: SignerView,
    operation: spec_fn(Seq<u8>, Seq<u8>) -> Seq<u8>,
) -> (SignerView, StepView) {
    number_answered(
        signer,
        operation(signer.number()->0, signer.number_taken(32).number()->0),
    )
}

/// The signer from the point `k*G` up to the division that gives `s`.
pub open spec fn dividing(
    signer: SignerView,
    arithmetic: Arithmetic,
    x: Seq<u8>,
    mutex: usize,
) -> SignerView {
    let reducing = admitted(point_answered(signer, x).0, mutex);
    let multiplying = number_answered(reducing, (arithmetic.modulo)(reducing.number()->0)).0;
    let adding = computed(multiplying, arithmetic.multiplication).0;
    computed(adding, arithmetic.addition).0
}

/// What the signer holds when it divides.
proof fn lemma_dividing(
    signer: SignerView,
    hmac: spec_fn(Seq<u8>, Seq<u8>) -> Seq<u8>,
    arithmetic: Arithmetic,
    d: Seq<u8>,
    z: Seq<u8>,
    rejected: nat,
    x: Seq<u8>,
    mutex: usize,
)
    requires
        has_nonce(signer, hmac, d, z, rejected),
        signer.state is EccCalculatingR,
        signer.held is Some,
        signer.output_counter == 0,
        signer.key_counter == 0,
        arithmetic.wf(),
        x.len() == 32,
        bytes::be_value(x) != 0,
    ensures
        ({
            let divider = dividing(signer, arithmetic, x, mutex);
            &&& has_nonce(divider, hmac, d, z, rejected)
            &&& divider.state is MathResKDiv
            &&& divider.operand is First
            &&& divider.held == Some((Driver::Math, mutex))
            &&& divider.input_counter == 0
            &&& divider.output_counter == 0
            &&& divider.r == arithmetic.r(x)
            &&& divider.s == (arithmetic.addition)(
                (arithmetic.multiplication)(arithmetic.r(x), d),
                z,
            )
            &&& divider.client == signer.client
        }),
{
    let waiting = point_answered(signer, x).0;
    law_written_in_pieces(signer.r, 0, x, Seq::empty());
    let reducing = admitted(waiting, mutex);
    assert(reducing.number() == Some(x));
    let r = arithmetic.r(x);
    law_written_in_pieces(x, 0, r, Seq::empty());
    let multiplying = number_answered(reducing, r).0;
    assert(multiplying.number() == Some(r));
    assert(multiplying.number_taken(32).number() == Some(d));
    let product = (arithmetic.multiplication)(r, d);
    law_written_in_pieces(multiplying.s, 0, product, Seq::empty());
    let adding = computed(multiplying, arithmetic.multiplication).0;
    assert(adding.number() == Some(product));
    assert(adding.number_taken(32).number() == Some(z));
    law_written_in_pieces(product, 0, (arithmetic.addition)(product, z), Seq::empty());
}

/// From a nonce and the x-coordinate of its point, the client gets the signature `(r, s)` of SEC1,
/// and the signer keeps nothing of it; unless `s` is zero.
pub proof fn law_signature_as_in_sec1(
    signer: SignerView,
    hmac: spec_fn(Seq<u8>, Seq<u8>) -> Seq<u8>,
    arithmetic: Arithmetic,
    d: Seq<u8>,
    z: Seq<u8>,
    rejected: nat,
    x: Seq<u8>,
    mutex: usize,
)
    requires
        has_nonce(signer, hmac, d, z, rejected),
        signer.state is EccCalculatingR,
        signer.held is Some,
        signer.output_counter == 0,
        signer.key_counter == 0,
        signer.client is Some,
        arithmetic.wf(),
        x.len() == 32,
        bytes::be_value(x) != 0,
        bytes::be_value(arithmetic.s(arithmetic.r(x), d, z, signer.k)) != 0,
    ensures
        ({
            let r = arithmetic.r(x);
            let (after, step) = computed(
                dividing(signer, arithmetic, x, mutex),
                arithmetic.division,
            );
            &&& step.signed == Some(
                SignedView {
                    result: Ok(()),
                    hash: z,
                    signature: r + arithmetic.s(r, d, z, signer.k),
                },
            )
            &&& step.dropped == Some((Driver::Math, mutex))
            &&& after.state is Idle
            &&& keeps_nothing(after)
        }),
{
    lemma_dividing(signer, hmac, arithmetic, d, z, rejected, x, mutex);
    let divider = dividing(signer, arithmetic, x, mutex);
    let r = arithmetic.r(x);
    let s = arithmetic.s(r, d, z, signer.k);
    assert(divider.number() == Some(divider.s));
    assert(divider.number_taken(32).number() == Some(signer.k));
    law_written_in_pieces(divider.s, 0, s, Seq::empty());
    assert(operands_read(divider).number_output(s).s == s);
}

/// A nonce that gives `s = 0` is replaced by the next candidate of RFC 6979.
pub proof fn law_zero_s_rejects_nonce(
    signer: SignerView,
    hmac: spec_fn(Seq<u8>, Seq<u8>) -> Seq<u8>,
    arithmetic: Arithmetic,
    d: Seq<u8>,
    z: Seq<u8>,
    rejected: nat,
    x: Seq<u8>,
    mutex: usize,
    hmac_mutex: usize,
)
    requires
        has_nonce(signer, hmac, d, z, rejected),
        signer.state is EccCalculatingR,
        signer.held is Some,
        signer.output_counter == 0,
        signer.key_counter == 0,
        gives_numbers(hmac),
        arithmetic.wf(),
        x.len() == 32,
        bytes::be_value(x) != 0,
        bytes::be_value(arithmetic.s(arithmetic.r(x), d, z, signer.k)) == 0,
    ensures
        ({
            let (waiting, step) = computed(
                dividing(signer, arithmetic, x, mutex),
                arithmetic.division,
            );
            &&& step.signed is None
            &&& waiting.awaited() == Some(
                (Driver::Hmac, State::HmacGetNewK, Start::Authenticate(33)),
            )
            &&& generates(
                hmac_answered(hmac_answered(admitted(waiting, hmac_mutex), hmac).0, hmac).0,
                hmac,
                d,
                z,
                rejected + 1,
            )
        }),
{
    lemma_dividing(signer, hmac, arithmetic, d, z, rejected, x, mutex);
    let divider = dividing(signer, arithmetic, x, mutex);
    let s = arithmetic.s(arithmetic.r(x), d, z, signer.k);
    assert(divider.number() == Some(divider.s));
    assert(divider.number_taken(32).number() == Some(signer.k));
    law_written_in_pieces(divider.s, 0, s, Seq::empty());
    assert(operands_read(divider).number_output(s).s == s);
    let waiting = computed(divider, arithmetic.division).0;
    lemma_next_candidate(admitted(waiting, hmac_mutex), hmac, d, z, rejected);
}

/// Nothing of a signing operation is left but zeros.
pub open spec fn keeps_nothing(signer: SignerView) -> bool {
    &&& signer.key == bytes::zeros(32)
    &&& signer.k == bytes::zeros(32)
    &&& signer.v == bytes::zeros(32)
    &&& signer.r == bytes::zeros(32)
    &&& signer.s == bytes::zeros(32)
    &&& signer.t == bytes::zeros(32)
    &&& signer.held is None
}

/// The client is told of a signature exactly when the operation ends, hash and buffer in its hands
/// again; then the signer is idle and keeps nothing of it. While it goes on, no one is told.
pub proof fn law_signed_once(signer: SignerView)
    requires
        signer.wf(),
        signer.client is Some,
        signer.hash is Some,
        signer.signature is Some,
        signer.completion is Some,
        !(signer.state is Idle),
    ensures
        ({
            let (next, step) = signer.resumed();
            &&& step.signed is Some <==> next.state is Idle
            &&& next.state is Idle ==> keeps_nothing(next) && next.hash is None
                && next.signature is None && step.signed->0.hash == signer.hash->0
                && step.dropped == signer.held
            &&& !(next.state is Idle) ==> next.hash == signer.hash && next.signature
                == signer.signature
        }),
{
}

/// What a driver reports as failed ends the operation with that error.
pub proof fn law_failure_ends_the_operation(signer: SignerView, error: ErrorCode)
    requires
        signer.wf(),
        signer.client is Some,
        signer.hash is Some,
        signer.signature is Some,
        match signer.completion {
            Some(Completion::Hash(result)) | Some(Completion::Ecc(result)) | Some(
                Completion::Math(result),
            ) => result == Err::<(), ErrorCode>(error),
            None => false,
        },
    ensures
        ({
            let (next, step) = signer.resumed();
            &&& next.state is Idle
            &&& step.signed is Some
            &&& step.signed->0.result == Err::<(), ErrorCode>(error)
        }),
{
}

/// A signature that is reported as a success has an `s` other than zero.
pub proof fn law_success_means_nonzero_s(signer: SignerView)
    requires
        signer.wf(),
    ensures
        ({
            let step = signer.resumed().1;
            step.signed is Some && step.signed->0.result is Ok ==> signer.state is MathResKDiv
                && bytes::be_value(signer.s) != 0 && step.signed->0.signature == signer.r
                + signer.s
        }),
{
}

} // verus!
