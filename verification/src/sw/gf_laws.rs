//! The field that GHASH multiplies in: its product is commutative and associative, distributes over
//! the sum, which is exclusive or, and has a one and a zero.
use crate::sw::bytes;
use crate::sw::gcm_math;
use vstd::arithmetic::power2;
use vstd::prelude::*;

verus! {

/// The one of the field: its first coefficient alone.
pub const ONE: u128 = 0x8000_0000_0000_0000_0000_0000_0000_0000;

/// The product of two field elements.
pub open spec fn times(x: u128, y: u128) -> u128 {
    gcm_math::gf_partial(x, y, 128)
}

/// Multiplication by the indeterminate respects sums.
proof fn lemma_shifted_sum(a: u128, b: u128)
    ensures
        gcm_math::gf_shifted(a ^ b) == gcm_math::gf_shifted(a) ^ gcm_math::gf_shifted(b),
        gcm_math::gf_shifted(0) == 0,
{
    let r = gcm_math::REDUCTION;
    assert((a ^ b) & 1 == 1 <==> (a & 1 == 1) != (b & 1 == 1)) by (bit_vector);
    assert((a ^ b) >> 1 == (a >> 1) ^ (b >> 1)) by (bit_vector);
    lemma_sums(a >> 1, b >> 1, r);
    assert(0u128 & 1 == 0 && 0u128 >> 1 == 0) by (bit_vector);
}

/// The order of summands does not matter, and an element is its own opposite.
proof fn lemma_sums(a: u128, b: u128, c: u128)
    ensures
        (a ^ b) ^ c == (a ^ c) ^ b,
        (a ^ b) ^ c == a ^ (b ^ c),
        (a ^ c) ^ (b ^ c) == a ^ b,
        0u128 ^ a == a,
        a ^ 0u128 == a,
{
    assert((a ^ b) ^ c == (a ^ c) ^ b && (a ^ b) ^ c == a ^ (b ^ c) && (a ^ c) ^ (b ^ c) == a ^ b
        && 0u128 ^ a == a && a ^ 0u128 == a) by (bit_vector);
}

/// Multiplication by a power of the indeterminate respects sums.
proof fn lemma_power_sum(a: u128, b: u128, n: nat)
    ensures
        gcm_math::gf_power(a ^ b, n) == gcm_math::gf_power(a, n) ^ gcm_math::gf_power(b, n),
        gcm_math::gf_power(0, n) == 0,
    decreases n,
{
    if n > 0 {
        lemma_power_sum(a, b, (n - 1) as nat);
        lemma_shifted_sum(
            gcm_math::gf_power(a, (n - 1) as nat),
            gcm_math::gf_power(b, (n - 1) as nat),
        );
    }
}

/// The product distributes over a sum on its right.
proof fn lemma_distributes(x: u128, a: u128, b: u128, n: nat)
    ensures
        gcm_math::gf_partial(x, a ^ b, n) == gcm_math::gf_partial(x, a, n) ^ gcm_math::gf_partial(
            x,
            b,
            n,
        ),
        gcm_math::gf_partial(x, 0, n) == 0,
    decreases n,
{
    if n > 0 {
        let m = (n - 1) as nat;
        lemma_distributes(x, a, b, m);
        lemma_power_sum(a, b, m);
        let (p, q) = (gcm_math::gf_partial(x, a, m), gcm_math::gf_partial(x, b, m));
        let (u, v) = (gcm_math::gf_power(a, m), gcm_math::gf_power(b, m));
        lemma_sums(p ^ q, u, v);
        lemma_sums(p, q, u);
        lemma_sums(p ^ u, q, v);
        lemma_sums(0, 0, 0);
    } else {
        lemma_sums(0, 0, 0);
    }
}

/// A product with an element times a power of the indeterminate is the product times that power.
proof fn lemma_power_moves_out(x: u128, y: u128, k: nat, n: nat)
    ensures
        gcm_math::gf_partial(x, gcm_math::gf_power(y, k), n) == gcm_math::gf_power(
            gcm_math::gf_partial(x, y, n),
            k,
        ),
    decreases n,
{
    if n > 0 {
        let m = (n - 1) as nat;
        lemma_power_moves_out(x, y, k, m);
        lemma_power_sum(gcm_math::gf_partial(x, y, m), gcm_math::gf_power(y, m), k);
        lemma_powers_commute(y, k, m);
    } else {
        lemma_power_sum(0, 0, k);
    }
}

/// Two powers of the indeterminate one after the other.
proof fn lemma_powers_commute(y: u128, k: nat, n: nat)
    ensures
        gcm_math::gf_power(gcm_math::gf_power(y, k), n) == gcm_math::gf_power(
            gcm_math::gf_power(y, n),
            k,
        ),
    decreases k + n,
{
    lemma_powers_add(y, k, n);
    lemma_powers_add(y, n, k);
}

/// Exponents add up.
proof fn lemma_powers_add(y: u128, k: nat, n: nat)
    ensures
        gcm_math::gf_power(gcm_math::gf_power(y, k), n) == gcm_math::gf_power(y, k + n),
    decreases n,
{
    if n > 0 {
        lemma_powers_add(y, k, (n - 1) as nat);
    }
}

/// The powers of the indeterminate, up to the degree of the field.
proof fn lemma_power_of_one(n: nat)
    requires
        n < 128,
    ensures
        gcm_math::gf_power(ONE, n) == ONE >> (n as u128),
    decreases n,
{
    let one = ONE;
    if n > 0 {
        lemma_power_of_one((n - 1) as nat);
        let m = (n - 1) as u128;
        let k = n as u128;
        assert((one >> m) & 1 != 1 && (one >> m) >> 1 == one >> k) by (bit_vector)
            requires
                one == 0x8000_0000_0000_0000_0000_0000_0000_0000u128,
                m < 127,
                k == m + 1,
        ;
    } else {
        assert(one >> 0 == one) by (bit_vector);
    }
}

/// Two to the power of 127, and the bound of an element.
proof fn lemma_powers_of_two()
    ensures
        ONE == power2::pow2(127),
        power2::pow2(128) == 0x1_0000_0000_0000_0000_0000_0000_0000_0000,
{
    power2::lemma2_to64();
    power2::lemma2_to64_rest();
    power2::lemma_pow2_adds(64, 63);
    power2::lemma_pow2_adds(64, 64);
    assert(power2::pow2(64) == 0x1_0000_0000_0000_0000);
    assert(power2::pow2(63) == 0x8000_0000_0000_0000);
    assert(0x1_0000_0000_0000_0000int * 0x8000_0000_0000_0000int
        == 0x8000_0000_0000_0000_0000_0000_0000_0000int) by (nonlinear_arith);
    assert(0x1_0000_0000_0000_0000int * 0x1_0000_0000_0000_0000int
        == 0x1_0000_0000_0000_0000_0000_0000_0000_0000int) by (nonlinear_arith);
}

/// A bit that is not set is added by exclusive or.
proof fn lemma_set_bit(a: u128, s: u128)
    requires
        s < 128,
        (a >> s) & 1 == 0,
    ensures
        a ^ (1u128 << s) == a + (1u128 << s),
{
    let b = 1u128 << s;
    assert(a & b == 0) by (bit_vector)
        requires
            b == 1u128 << s,
            s < 128,
            (a >> s) & 1 == 0,
    ;
    assert(a ^ b == a + b) by (bit_vector)
        requires
            a & b == 0,
    ;
}

/// The first `n` terms of an element are its first `n` coefficients.
proof fn lemma_front(x: u128, n: nat)
    requires
        n <= 128,
    ensures
        gcm_math::gf_partial(x, ONE, n) == power2::pow2((128 - n) as nat) * (x as nat / power2::pow2(
            (128 - n) as nat,
        )),
    decreases n,
{
    lemma_powers_of_two();
    if n == 0 {
        assert(x as nat / power2::pow2(128) == 0) by (nonlinear_arith)
            requires
                0 <= x < power2::pow2(128),
        ;
    } else {
        let m = (n - 1) as nat;
        let s = (128 - n) as nat;
        let shift = s as u128;
        let p = power2::pow2(s) as int;
        let q = x as int / p;
        let a = gcm_math::gf_partial(x, ONE, m);
        lemma_front(x, m);
        power2::lemma_pow2_pos(s);
        power2::lemma_pow2_pos(m);
        power2::lemma_pow2_unfold(s + 1);
        power2::lemma_pow2_adds(m, s);
        vstd::bits::lemma_u128_shr_is_div(x, shift);
        vstd::bits::lemma_u128_shr_is_div(a, shift);
        vstd::bits::lemma_u128_shr_is_div(ONE, m as u128);
        lemma_power_of_one(m);
        assert(x as int / (2 * p) == q / 2) by {
            vstd::arithmetic::div_mod::lemma_div_denominator(x as int, p, 2);
            assert(p * 2 == 2 * p);
        }
        assert(2 * p * (q / 2) == p * (2 * (q / 2))) by (nonlinear_arith);
        assert(a == p * (2 * (q / 2)));
        assert(p * (2 * (q / 2)) / p == 2 * (q / 2)) by {
            vstd::arithmetic::div_mod::lemma_div_multiples_vanish(2 * (q / 2), p);
        }
        assert(power2::pow2(127) as int / power2::pow2(m) as int == p) by {
            vstd::arithmetic::div_mod::lemma_div_multiples_vanish(p, power2::pow2(m) as int);
            assert(power2::pow2(m) as int * p == p * power2::pow2(m) as int) by (nonlinear_arith);
        }
        let w = x >> shift;
        let v = a >> shift;
        assert(w & 1 == w % 2 && v & 1 == v % 2) by (bit_vector);
        if w & 1 == 1 {
            assert(v & 1 == 0);
            lemma_set_bit(a, shift);
            lemma_one_bit(m, shift);
            assert(p * (2 * (q / 2)) + p == p * (2 * (q / 2) + 1)) by (nonlinear_arith);
        }
    }
}

/// The same bit, counted from either end.
proof fn lemma_one_bit(m: nat, s: u128)
    requires
        m + s == 127,
    ensures
        ONE >> (m as u128) == 1u128 << s,
{
    let one = ONE;
    let k = m as u128;
    assert(one >> k == 1u128 << s) by (bit_vector)
        requires
            one == 0x8000_0000_0000_0000_0000_0000_0000_0000u128,
            s < 128,
            k == 127 - s,
    ;
}

/// An element is the sum of its terms.
proof fn lemma_times_one(x: u128)
    ensures
        times(x, ONE) == x,
{
    lemma_front(x, 128);
    power2::lemma2_to64();
    assert(x as nat / 1 == x);
}

/// The product with an element that is put together from its terms.
proof fn lemma_term_by_term(x: u128, y: u128, n: nat)
    requires
        times(y, ONE) == y,
    ensures
        times(y, gcm_math::gf_partial(x, ONE, n)) == gcm_math::gf_partial(x, y, n),
    decreases n,
{
    if n > 0 {
        let m = (n - 1) as nat;
        lemma_term_by_term(x, y, m);
        lemma_distributes(y, gcm_math::gf_partial(x, ONE, m), gcm_math::gf_power(ONE, m), 128);
        lemma_power_moves_out(y, ONE, m, 128);
    } else {
        lemma_distributes(y, 0, 0, 128);
    }
}

/// The one of the field leaves an element as it is, on either side; the zero makes it zero.
pub proof fn law_one_and_zero(x: u128)
    ensures
        times(x, ONE) == x,
        times(ONE, x) == x,
        times(x, 0) == 0,
        times(0, x) == 0,
{
    lemma_times_one(x);
    gcm_math::law_product_one(x, 128);
    lemma_distributes(x, 0, 0, 128);
    law_commutative(0, x);
}

/// The order of factors does not matter.
pub proof fn law_commutative(x: u128, y: u128)
    ensures
        times(x, y) == times(y, x),
{
    lemma_times_one(x);
    lemma_times_one(y);
    lemma_term_by_term(x, y, 128);
}

/// A product of a product, put together term by term.
proof fn lemma_terms_of_product(x: u128, y: u128, z: u128, n: nat)
    ensures
        times(gcm_math::gf_partial(x, y, n), z) == gcm_math::gf_partial(x, times(y, z), n),
    decreases n,
{
    if n > 0 {
        let m = (n - 1) as nat;
        lemma_terms_of_product(x, y, z, m);
        gcm_math::law_product_distributes(
            gcm_math::gf_partial(x, y, m),
            gcm_math::gf_power(y, m),
            z,
            128,
        );
        law_commutative(gcm_math::gf_power(y, m), z);
        lemma_power_moves_out(z, y, m, 128);
        law_commutative(z, y);
    } else {
        law_one_and_zero(z);
    }
}

/// The grouping of factors does not matter.
pub proof fn law_associative(x: u128, y: u128, z: u128)
    ensures
        times(times(x, y), z) == times(x, times(y, z)),
{
    lemma_terms_of_product(x, y, z, 128);
}

/// The product of blocks is commutative and associative.
pub proof fn law_blocks(a: Seq<u8>, b: Seq<u8>, c: Seq<u8>)
    ensures
        gcm_math::product(a, b) == gcm_math::product(b, a),
        gcm_math::product(gcm_math::product(a, b), c) == gcm_math::product(
            a,
            gcm_math::product(b, c),
        ),
{
    let x = bytes::be_value(a) as u128;
    let y = bytes::be_value(b) as u128;
    let z = bytes::be_value(c) as u128;
    law_commutative(x, y);
    law_associative(x, y, z);
    lemma_block_value(times(x, y));
    lemma_block_value(times(y, z));
}

/// A block holds the value that was put into it.
proof fn lemma_block_value(x: u128)
    ensures
        bytes::be_value(bytes::be_bytes(x as nat, 16)) == x,
{
    assert(bytes::pow256(16) == 0x1_0000_0000_0000_0000_0000_0000_0000_0000) by {
        reveal_with_fuel(bytes::pow256, 17);
    }
    bytes::law_be_round_trip(x as nat, 16);
}

/// The field is that of the polynomial of GHASH: the 128th power of the indeterminate is the sum of
/// its 7th power, its square, itself and one; and multiplying by a power of the indeterminate adds to
/// the exponent.
pub proof fn law_field_polynomial(x: u128, k: nat)
    ensures
        gcm_math::gf_power(ONE, 128) == gcm_math::gf_power(ONE, 7) ^ gcm_math::gf_power(ONE, 2)
            ^ gcm_math::gf_power(ONE, 1) ^ ONE,
        gcm_math::gf_power(ONE, 1) == 0x4000_0000_0000_0000_0000_0000_0000_0000,
        gcm_math::gf_power(ONE, 127) == 1,
        times(x, gcm_math::gf_power(ONE, k)) == gcm_math::gf_power(x, k),
{
    lemma_power_of_one(1);
    lemma_power_of_one(2);
    lemma_power_of_one(7);
    lemma_power_of_one(127);
    let one: u128 = ONE;
    let r: u128 = gcm_math::REDUCTION;
    assert(one >> 127u128 == 1 && one >> 1u128 == 0x4000_0000_0000_0000_0000_0000_0000_0000 && (
    1u128 & 1 == 1) && (1u128 >> 1) ^ r == (one >> 7u128) ^ (one >> 2u128) ^ (one >> 1u128) ^ one)
        by (bit_vector)
        requires
            one == 0x8000_0000_0000_0000_0000_0000_0000_0000,
            r == 0xe100_0000_0000_0000_0000_0000_0000_0000,
    ;
    lemma_power_moves_out(x, ONE, k, 128);
    law_one_and_zero(x);
}

} // verus!
