//! What makes the constants of P-256 those of that curve.
use crate::hil::ecc_constants;
use crate::stm32u5::pka_ram;
use crate::sw::bytes;
use vstd::prelude::*;

verus! {

/// A number of four bytes.
proof fn lemma_four(data: Seq<u8>)
    requires
        data.len() == 4,
    ensures
        bytes::be_value(data) == 0x100_0000 * data[0] + 0x1_0000 * data[1] + 0x100 * data[2]
            + data[3],
{
    reveal_with_fuel(bytes::be_value, 5);
    let (c, b, a) = (data.drop_last(), data.drop_last().drop_last(), data.take(1));
    assert(b.drop_last() =~= a);
    assert(a.drop_last() =~= Seq::<u8>::empty());
}

/// Word `i` of a number of 32 bytes, the most significant first.
pub open spec fn word(data: Seq<u8>, i: int) -> int {
    0x100_0000 * data[4 * i] + 0x1_0000 * data[4 * i + 1] + 0x100 * data[4 * i + 2] + data[4 * i
        + 3]
}

/// The first `n` words of a number.
spec fn front(data: Seq<u8>, n: nat) -> int
    decreases n,
{
    if n == 0 {
        0
    } else {
        front(data, (n - 1) as nat) * 0x1_0000_0000 + word(data, n - 1)
    }
}

proof fn lemma_front(data: Seq<u8>, n: nat)
    requires
        4 * n <= data.len(),
    ensures
        bytes::be_value(data.take((4 * n) as int)) == front(data, n),
    decreases n,
{
    let part = data.take((4 * n) as int);
    if n > 0 {
        let m = (n - 1) as nat;
        lemma_front(data, m);
        pka_ram::lemma_be_value_split(part, 4 * m);
        assert(part.take(4 * m as int) =~= data.take(4 * m as int));
        lemma_four(part.skip(4 * m as int));
        assert(bytes::pow256(4) == 0x1_0000_0000) by {
            reveal_with_fuel(bytes::pow256, 5);
        }
    } else {
        assert(part =~= Seq::<u8>::empty());
    }
}

/// A number of 32 bytes by its words.
proof fn lemma_value(data: Seq<u8>)
    requires
        data.len() == 32,
    ensures
        bytes::be_value(data) == front(data, 8),
{
    lemma_front(data, 8);
    assert(data.take(32) =~= data);
}

proof fn lemma_p()
    ensures
        bytes::be_value(ecc_constants::p()) == 0xffffffff00000001000000000000000000000000ffffffffffffffffffffffffint,
{
    let data = ecc_constants::p();
    ecc_constants::lemma_sizes();
    lemma_value(data);
    reveal(ecc_constants::p);
    assert(front(data, 0) == 0);
    assert(word(data, 0) == 0xffffffff);
    assert(front(data, 1) == 0xffffffffint);
    assert(word(data, 1) == 0x1);
    assert(front(data, 2) == 0xffffffff00000001int);
    assert(word(data, 2) == 0x0);
    assert(front(data, 3) == 0xffffffff0000000100000000int);
    assert(word(data, 3) == 0x0);
    assert(front(data, 4) == 0xffffffff000000010000000000000000int);
    assert(word(data, 4) == 0x0);
    assert(front(data, 5) == 0xffffffff00000001000000000000000000000000int);
    assert(word(data, 5) == 0xffffffff);
    assert(front(data, 6) == 0xffffffff00000001000000000000000000000000ffffffffint);
    assert(word(data, 6) == 0xffffffff);
    assert(front(data, 7) == 0xffffffff00000001000000000000000000000000ffffffffffffffffint);
    assert(word(data, 7) == 0xffffffff);
    assert(front(data, 8) == 0xffffffff00000001000000000000000000000000ffffffffffffffffffffffffint);
}

proof fn lemma_n()
    ensures
        bytes::be_value(ecc_constants::n()) == 0xffffffff00000000ffffffffffffffffbce6faada7179e84f3b9cac2fc632551int,
{
    let data = ecc_constants::n();
    ecc_constants::lemma_sizes();
    lemma_value(data);
    reveal(ecc_constants::n);
    assert(front(data, 0) == 0);
    assert(word(data, 0) == 0xffffffff);
    assert(front(data, 1) == 0xffffffffint);
    assert(word(data, 1) == 0x0);
    assert(front(data, 2) == 0xffffffff00000000int);
    assert(word(data, 2) == 0xffffffff);
    assert(front(data, 3) == 0xffffffff00000000ffffffffint);
    assert(word(data, 3) == 0xffffffff);
    assert(front(data, 4) == 0xffffffff00000000ffffffffffffffffint);
    assert(word(data, 4) == 0xbce6faad);
    assert(front(data, 5) == 0xffffffff00000000ffffffffffffffffbce6faadint);
    assert(word(data, 5) == 0xa7179e84);
    assert(front(data, 6) == 0xffffffff00000000ffffffffffffffffbce6faada7179e84int);
    assert(word(data, 6) == 0xf3b9cac2);
    assert(front(data, 7) == 0xffffffff00000000ffffffffffffffffbce6faada7179e84f3b9cac2int);
    assert(word(data, 7) == 0xfc632551);
    assert(front(data, 8) == 0xffffffff00000000ffffffffffffffffbce6faada7179e84f3b9cac2fc632551int);
}

proof fn lemma_a()
    ensures
        bytes::be_value(ecc_constants::a()) == 0xffffffff00000001000000000000000000000000fffffffffffffffffffffffcint,
{
    let data = ecc_constants::a();
    ecc_constants::lemma_sizes();
    lemma_value(data);
    reveal(ecc_constants::a);
    assert(front(data, 0) == 0);
    assert(word(data, 0) == 0xffffffff);
    assert(front(data, 1) == 0xffffffffint);
    assert(word(data, 1) == 0x1);
    assert(front(data, 2) == 0xffffffff00000001int);
    assert(word(data, 2) == 0x0);
    assert(front(data, 3) == 0xffffffff0000000100000000int);
    assert(word(data, 3) == 0x0);
    assert(front(data, 4) == 0xffffffff000000010000000000000000int);
    assert(word(data, 4) == 0x0);
    assert(front(data, 5) == 0xffffffff00000001000000000000000000000000int);
    assert(word(data, 5) == 0xffffffff);
    assert(front(data, 6) == 0xffffffff00000001000000000000000000000000ffffffffint);
    assert(word(data, 6) == 0xffffffff);
    assert(front(data, 7) == 0xffffffff00000001000000000000000000000000ffffffffffffffffint);
    assert(word(data, 7) == 0xfffffffc);
    assert(front(data, 8) == 0xffffffff00000001000000000000000000000000fffffffffffffffffffffffcint);
}

proof fn lemma_b()
    ensures
        bytes::be_value(ecc_constants::b()) == 0x5ac635d8aa3a93e7b3ebbd55769886bc651d06b0cc53b0f63bce3c3e27d2604bint,
{
    let data = ecc_constants::b();
    ecc_constants::lemma_sizes();
    lemma_value(data);
    reveal(ecc_constants::b);
    assert(front(data, 0) == 0);
    assert(word(data, 0) == 0x5ac635d8);
    assert(front(data, 1) == 0x5ac635d8int);
    assert(word(data, 1) == 0xaa3a93e7);
    assert(front(data, 2) == 0x5ac635d8aa3a93e7int);
    assert(word(data, 2) == 0xb3ebbd55);
    assert(front(data, 3) == 0x5ac635d8aa3a93e7b3ebbd55int);
    assert(word(data, 3) == 0x769886bc);
    assert(front(data, 4) == 0x5ac635d8aa3a93e7b3ebbd55769886bcint);
    assert(word(data, 4) == 0x651d06b0);
    assert(front(data, 5) == 0x5ac635d8aa3a93e7b3ebbd55769886bc651d06b0int);
    assert(word(data, 5) == 0xcc53b0f6);
    assert(front(data, 6) == 0x5ac635d8aa3a93e7b3ebbd55769886bc651d06b0cc53b0f6int);
    assert(word(data, 6) == 0x3bce3c3e);
    assert(front(data, 7) == 0x5ac635d8aa3a93e7b3ebbd55769886bc651d06b0cc53b0f63bce3c3eint);
    assert(word(data, 7) == 0x27d2604b);
    assert(front(data, 8) == 0x5ac635d8aa3a93e7b3ebbd55769886bc651d06b0cc53b0f63bce3c3e27d2604bint);
}

proof fn lemma_generator_x()
    ensures
        bytes::be_value(ecc_constants::generator_x()) == 0x6b17d1f2e12c4247f8bce6e563a440f277037d812deb33a0f4a13945d898c296int,
{
    let data = ecc_constants::generator_x();
    ecc_constants::lemma_sizes();
    lemma_value(data);
    reveal(ecc_constants::generator_x);
    assert(front(data, 0) == 0);
    assert(word(data, 0) == 0x6b17d1f2);
    assert(front(data, 1) == 0x6b17d1f2int);
    assert(word(data, 1) == 0xe12c4247);
    assert(front(data, 2) == 0x6b17d1f2e12c4247int);
    assert(word(data, 2) == 0xf8bce6e5);
    assert(front(data, 3) == 0x6b17d1f2e12c4247f8bce6e5int);
    assert(word(data, 3) == 0x63a440f2);
    assert(front(data, 4) == 0x6b17d1f2e12c4247f8bce6e563a440f2int);
    assert(word(data, 4) == 0x77037d81);
    assert(front(data, 5) == 0x6b17d1f2e12c4247f8bce6e563a440f277037d81int);
    assert(word(data, 5) == 0x2deb33a0);
    assert(front(data, 6) == 0x6b17d1f2e12c4247f8bce6e563a440f277037d812deb33a0int);
    assert(word(data, 6) == 0xf4a13945);
    assert(front(data, 7) == 0x6b17d1f2e12c4247f8bce6e563a440f277037d812deb33a0f4a13945int);
    assert(word(data, 7) == 0xd898c296);
    assert(front(data, 8) == 0x6b17d1f2e12c4247f8bce6e563a440f277037d812deb33a0f4a13945d898c296int);
}

proof fn lemma_generator_y()
    ensures
        bytes::be_value(ecc_constants::generator_y()) == 0x4fe342e2fe1a7f9b8ee7eb4a7c0f9e162bce33576b315ececbb6406837bf51f5int,
{
    let data = ecc_constants::generator_y();
    ecc_constants::lemma_sizes();
    lemma_value(data);
    reveal(ecc_constants::generator_y);
    assert(front(data, 0) == 0);
    assert(word(data, 0) == 0x4fe342e2);
    assert(front(data, 1) == 0x4fe342e2int);
    assert(word(data, 1) == 0xfe1a7f9b);
    assert(front(data, 2) == 0x4fe342e2fe1a7f9bint);
    assert(word(data, 2) == 0x8ee7eb4a);
    assert(front(data, 3) == 0x4fe342e2fe1a7f9b8ee7eb4aint);
    assert(word(data, 3) == 0x7c0f9e16);
    assert(front(data, 4) == 0x4fe342e2fe1a7f9b8ee7eb4a7c0f9e16int);
    assert(word(data, 4) == 0x2bce3357);
    assert(front(data, 5) == 0x4fe342e2fe1a7f9b8ee7eb4a7c0f9e162bce3357int);
    assert(word(data, 5) == 0x6b315ece);
    assert(front(data, 6) == 0x4fe342e2fe1a7f9b8ee7eb4a7c0f9e162bce33576b315eceint);
    assert(word(data, 6) == 0xcbb64068);
    assert(front(data, 7) == 0x4fe342e2fe1a7f9b8ee7eb4a7c0f9e162bce33576b315ececbb64068int);
    assert(word(data, 7) == 0x37bf51f5);
    assert(front(data, 8) == 0x4fe342e2fe1a7f9b8ee7eb4a7c0f9e162bce33576b315ececbb6406837bf51f5int);
}

proof fn lemma_r2_mod_p()
    ensures
        bytes::be_value(ecc_constants::r2_mod_p()) == 0x4fffffffdfffffffffffffffefffffffbffffffff0000000000000003int,
{
    let data = ecc_constants::r2_mod_p();
    ecc_constants::lemma_sizes();
    lemma_value(data);
    reveal(ecc_constants::r2_mod_p);
    assert(front(data, 0) == 0);
    assert(word(data, 0) == 0x4);
    assert(front(data, 1) == 0x4int);
    assert(word(data, 1) == 0xfffffffd);
    assert(front(data, 2) == 0x4fffffffdint);
    assert(word(data, 2) == 0xffffffff);
    assert(front(data, 3) == 0x4fffffffdffffffffint);
    assert(word(data, 3) == 0xfffffffe);
    assert(front(data, 4) == 0x4fffffffdfffffffffffffffeint);
    assert(word(data, 4) == 0xfffffffb);
    assert(front(data, 5) == 0x4fffffffdfffffffffffffffefffffffbint);
    assert(word(data, 5) == 0xffffffff);
    assert(front(data, 6) == 0x4fffffffdfffffffffffffffefffffffbffffffffint);
    assert(word(data, 6) == 0x0);
    assert(front(data, 7) == 0x4fffffffdfffffffffffffffefffffffbffffffff00000000int);
    assert(word(data, 7) == 0x3);
    assert(front(data, 8) == 0x4fffffffdfffffffffffffffefffffffbffffffff0000000000000003int);
}

/// The prime of the field is that of P-256, and the curve is y^2 = x^3 - 3x + b.
pub proof fn law_prime_and_coefficient()
    ensures
        bytes::be_value(ecc_constants::p()) == bytes::pow256(32) - bytes::pow256(28)
            + bytes::pow256(24) + bytes::pow256(12) - 1,
        bytes::be_value(ecc_constants::a()) + 3 == bytes::be_value(ecc_constants::p()),
        0 < bytes::be_value(ecc_constants::b()) < bytes::be_value(ecc_constants::p()),
{
    lemma_p();
    lemma_a();
    lemma_b();
    reveal_with_fuel(bytes::pow256, 33);
}

/// The generator is a point of the curve: its coordinates are below the prime and meet the equation of
/// the curve.
pub proof fn law_generator_is_on_the_curve()
    ensures
        ({
            let p = bytes::be_value(ecc_constants::p()) as int;
            let x = bytes::be_value(ecc_constants::generator_x()) as int;
            let y = bytes::be_value(ecc_constants::generator_y()) as int;
            let a = bytes::be_value(ecc_constants::a()) as int;
            let b = bytes::be_value(ecc_constants::b()) as int;
            &&& 0 < x < p
            &&& 0 < y < p
            &&& (x * x * x + a * x + b - y * y) % p == 0
        }),
{
    lemma_p();
    lemma_a();
    lemma_b();
    lemma_generator_x();
    lemma_generator_y();
    let p = bytes::be_value(ecc_constants::p()) as int;
    let x = bytes::be_value(ecc_constants::generator_x()) as int;
    let y = bytes::be_value(ecc_constants::generator_y()) as int;
    let a = bytes::be_value(ecc_constants::a()) as int;
    let b = bytes::be_value(ecc_constants::b()) as int;
    let q = 0x12bdd1ad23dfc833dccf5f6141d6bb4a1f365dc1430b0e600b52dd851938d2d6fe48d89a1028327df66c2a7b9edc3e46cdec89e6af942f1b022b7fe93b37c6eeint;
    assert(x * x * x + a * x + b - y * y == q * p) by (nonlinear_arith)
        requires
            p == 0xffffffff00000001000000000000000000000000ffffffffffffffffffffffffint,
            x == 0x6b17d1f2e12c4247f8bce6e563a440f277037d812deb33a0f4a13945d898c296int,
            y == 0x4fe342e2fe1a7f9b8ee7eb4a7c0f9e162bce33576b315ececbb6406837bf51f5int,
            a == 0xffffffff00000001000000000000000000000000fffffffffffffffffffffffcint,
            b == 0x5ac635d8aa3a93e7b3ebbd55769886bc651d06b0cc53b0f63bce3c3e27d2604bint,
            q == 0x12bdd1ad23dfc833dccf5f6141d6bb4a1f365dc1430b0e600b52dd851938d2d6fe48d89a1028327df66c2a7b9edc3e46cdec89e6af942f1b022b7fe93b37c6eeint,
    ;
    vstd::arithmetic::div_mod::lemma_mod_multiples_basic(q, p);
}

/// The order of the generator is as far from the prime as the order of a curve over its field can be.
pub proof fn law_order_is_near_the_prime()
    ensures
        ({
            let p = bytes::be_value(ecc_constants::p()) as int;
            let n = bytes::be_value(ecc_constants::n()) as int;
            &&& n < p
            &&& (p + 1 - n) * (p + 1 - n) <= 4 * p
        }),
{
    lemma_p();
    lemma_n();
    let p = bytes::be_value(ecc_constants::p()) as int;
    let n = bytes::be_value(ecc_constants::n()) as int;
    assert((p + 1 - n) * (p + 1 - n) <= 4 * p) by (nonlinear_arith)
        requires
            p == 0xffffffff00000001000000000000000000000000ffffffffffffffffffffffffint,
            n == 0xffffffff00000000ffffffffffffffffbce6faada7179e84f3b9cac2fc632551int,
    ;
}

/// The Montgomery parameter is the square of 2 to the 256, modulo the prime.
pub proof fn law_montgomery_parameter()
    ensures
        ({
            let p = bytes::be_value(ecc_constants::p()) as int;
            (bytes::pow256(32) * bytes::pow256(32)) as int % p == bytes::be_value(
                ecc_constants::r2_mod_p(),
            )
        }),
{
    lemma_p();
    lemma_r2_mod_p();
    let p = bytes::be_value(ecc_constants::p()) as int;
    let r = bytes::pow256(32) as int;
    let r2 = bytes::be_value(ecc_constants::r2_mod_p()) as int;
    let q = 0x100000000fffffffffffffffefffffffefffffffeffffffff0000000000000003int;
    assert(r == 0x10000000000000000000000000000000000000000000000000000000000000000int) by {
        reveal_with_fuel(bytes::pow256, 33);
    }
    assert(r * r == q * p + r2) by (nonlinear_arith)
        requires
            p == 0xffffffff00000001000000000000000000000000ffffffffffffffffffffffffint,
            r == 0x10000000000000000000000000000000000000000000000000000000000000000int,
            q == 0x100000000fffffffffffffffefffffffefffffffeffffffff0000000000000003int,
            r2 == 0x4fffffffdfffffffffffffffefffffffbffffffff0000000000000003int,
    ;
    vstd::arithmetic::div_mod::lemma_fundamental_div_mod_converse(r * r, p, q, r2);
}

/// Prime and order have 256 bits.
pub proof fn law_prime_and_order_have_256_bits()
    ensures
        ({
            let p = bytes::be_value(ecc_constants::p());
            let n = bytes::be_value(ecc_constants::n());
            &&& vstd::arithmetic::power2::pow2(255) <= p < vstd::arithmetic::power2::pow2(256)
            &&& vstd::arithmetic::power2::pow2(255) <= n < vstd::arithmetic::power2::pow2(256)
        }),
{
    lemma_p();
    lemma_n();
    pka_ram::lemma_pow256_is_pow2(32);
    vstd::arithmetic::power2::lemma_pow2_unfold(256);
    reveal_with_fuel(bytes::pow256, 33);
}

} // verus!
