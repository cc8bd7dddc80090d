//! What GCM is, over any block cipher: NIST SP 800-38D, with initialization vectors of 12 bytes.
use crate::sw::bytes;
use vstd::prelude::*;

verus! {

/// The reduction polynomial of the field, in the bit order of the standard.
pub const REDUCTION: u128 = 0xe100_0000_0000_0000_0000_0000_0000_0000;

/// A field element times the indeterminate.
pub open spec fn gf_shifted(v: u128) -> u128 {
    if v & 1 == 1 {
        (v >> 1) ^ REDUCTION
    } else {
        v >> 1
    }
}

/// A field element times the `n`-th power of the indeterminate.
pub open spec fn gf_power(v: u128, n: nat) -> u128
    decreases n,
{
    if n == 0 {
        v
    } else {
        gf_shifted(gf_power(v, (n - 1) as nat))
    }
}

/// Coefficient `n` of a field element; the first is the most significant bit.
pub open spec fn gf_bit(x: u128, n: nat) -> bool {
    (x >> ((127 - n) as u128)) & 1 == 1
}

/// The product of the first `n` terms of `x` with `y`.
pub open spec fn gf_partial(x: u128, y: u128, n: nat) -> u128
    decreases n,
{
    if n == 0 {
        0
    } else {
        let sum = gf_partial(x, y, (n - 1) as nat);
        if gf_bit(x, (n - 1) as nat) {
            sum ^ gf_power(y, (n - 1) as nat)
        } else {
            sum
        }
    }
}

/// The product of two blocks in the field.
pub open spec fn product(x: Seq<u8>, y: Seq<u8>) -> Seq<u8> {
    bytes::be_bytes(
        gf_partial(bytes::be_value(x) as u128, bytes::be_value(y) as u128, 128) as nat,
        16,
    )
}

/// GHASH of the first `blocks` blocks of `data`, padded with zeros, continuing from `start`.
pub open spec fn ghash(h: Seq<u8>, start: Seq<u8>, data: Seq<u8>, blocks: nat) -> Seq<u8>
    decreases blocks,
{
    if blocks == 0 {
        start
    } else {
        let hash = ghash(h, start, data, (blocks - 1) as nat);
        product(bytes::xor(hash, bytes::block_at(data, (blocks - 1) * 16)), h)
    }
}

/// The block that holds the lengths of associated data and ciphertext, in bits.
pub open spec fn length_block(aad_len: nat, len: nat) -> Seq<u8> {
    bytes::be_bytes(aad_len * 8, 8) + bytes::be_bytes(len * 8, 8)
}

/// GHASH of associated data, ciphertext and their lengths.
pub open spec fn full_hash(h: Seq<u8>, aad: Seq<u8>, ciphertext: Seq<u8>) -> Seq<u8> {
    let after_aad = ghash(h, bytes::zeros(16), aad, bytes::block_count(aad.len()));
    let after_data = ghash(h, after_aad, ciphertext, bytes::block_count(ciphertext.len()));
    ghash(h, after_data, length_block(aad.len(), ciphertext.len()), 1)
}

/// The counter block with the given count. Count 1 masks the tag, 2 and up the payload.
pub open spec fn counter_block(iv: Seq<u8>, count: nat) -> Seq<u8> {
    iv + bytes::be_bytes(count, 4)
}

/// The byte that masks payload byte `i`.
pub open spec fn keystream(e: spec_fn(Seq<u8>) -> Seq<u8>, iv: Seq<u8>, i: int) -> u8 {
    e(counter_block(iv, (i / 16 + 2) as nat))[i % 16]
}

/// `data` with the first `upto` bytes masked.
pub open spec fn masked(
    e: spec_fn(Seq<u8>) -> Seq<u8>,
    iv: Seq<u8>,
    data: Seq<u8>,
    upto: int,
) -> Seq<u8> {
    Seq::new(
        data.len(),
        |i: int|
            if i < upto {
                data[i] ^ keystream(e, iv, i)
            } else {
                data[i]
            },
    )
}

/// The authentication tag of a ciphertext.
pub open spec fn tag(
    e: spec_fn(Seq<u8>) -> Seq<u8>,
    iv: Seq<u8>,
    aad: Seq<u8>,
    ciphertext: Seq<u8>,
    tag_len: nat,
) -> Seq<u8> {
    bytes::xor(
        full_hash(e(bytes::zeros(16)), aad, ciphertext),
        e(counter_block(iv, 1)),
    ).take(tag_len as int)
}

/// The message behind a ciphertext, if the tag is right.
pub open spec fn unsealed(
    e: spec_fn(Seq<u8>) -> Seq<u8>,
    iv: Seq<u8>,
    aad: Seq<u8>,
    ciphertext: Seq<u8>,
    given: Seq<u8>,
) -> Option<Seq<u8>> {
    if tag(e, iv, aad, ciphertext, given.len()) == given {
        Some(masked(e, iv, ciphertext, ciphertext.len() as int))
    } else {
        None
    }
}

/// What is sealed comes back when it is unsealed with its tag, whatever the block cipher is.
pub proof fn law_unseal_after_seal(
    e: spec_fn(Seq<u8>) -> Seq<u8>,
    iv: Seq<u8>,
    aad: Seq<u8>,
    payload: Seq<u8>,
    tag_len: nat,
)
    requires
        tag_len <= 16,
    ensures
        ({
            let ciphertext = masked(e, iv, payload, payload.len() as int);
            unsealed(e, iv, aad, ciphertext, tag(e, iv, aad, ciphertext, tag_len)) == Some(payload)
        }),
{
    let len = payload.len() as int;
    let ciphertext = masked(e, iv, payload, len);
    lemma_full_hash_len(e(bytes::zeros(16)), aad, ciphertext);
    assert(tag(e, iv, aad, ciphertext, tag_len).len() == tag_len);
    assert forall|i: int| 0 <= i < len implies masked(e, iv, ciphertext, len)[i]
        == payload[i] by {
        let x = payload[i];
        let y = keystream(e, iv, i);
        assert((x ^ y) ^ y == x) by (bit_vector);
    }
    assert(masked(e, iv, ciphertext, len) =~= payload);
}

/// A hash is one block.
pub proof fn lemma_full_hash_len(h: Seq<u8>, aad: Seq<u8>, ciphertext: Seq<u8>)
    ensures
        full_hash(h, aad, ciphertext).len() == 16,
{
    let after_aad = ghash(h, bytes::zeros(16), aad, bytes::block_count(aad.len()));
    let after_data = ghash(h, after_aad, ciphertext, bytes::block_count(ciphertext.len()));
    let block = length_block(aad.len(), ciphertext.len());
    assert(ghash(h, after_data, block, 1) == product(
        bytes::xor(ghash(h, after_data, block, 0), bytes::block_at(block, 0)),
        h,
    ));
    bytes::lemma_be_bytes_len(
        gf_partial(
            bytes::be_value(
                bytes::xor(ghash(h, after_data, block, 0), bytes::block_at(block, 0)),
            ) as u128,
            bytes::be_value(h) as u128,
            128,
        ) as nat,
        16,
    );
}

/// Multiplication distributes over addition, which is exclusive or.
pub proof fn law_product_distributes(x: u128, z: u128, y: u128, n: nat)
    requires
        n <= 128,
    ensures
        gf_partial(x ^ z, y, n) == gf_partial(x, y, n) ^ gf_partial(z, y, n),
    decreases n,
{
    if n > 0 {
        let m = (n - 1) as nat;
        law_product_distributes(x, z, y, m);
        let a = gf_partial(x, y, m);
        let b = gf_partial(z, y, m);
        let p = gf_power(y, m);
        let s = (127 - m) as u128;
        assert((((x ^ z) >> s) & 1 == 1) == (((x >> s) & 1 == 1) != ((z >> s) & 1 == 1)))
            by (bit_vector);
        assert((a ^ b) ^ p == (a ^ p) ^ b) by (bit_vector);
        assert((a ^ b) ^ p == a ^ (b ^ p)) by (bit_vector);
        assert((a ^ p) ^ (b ^ p) == a ^ b) by (bit_vector);
    } else {
        assert(0u128 ^ 0u128 == 0u128) by (bit_vector);
    }
}

/// The most significant bit is the one of the field.
pub proof fn law_product_one(y: u128, n: nat)
    requires
        1 <= n <= 128,
    ensures
        gf_partial(0x8000_0000_0000_0000_0000_0000_0000_0000, y, n) == y,
    decreases n,
{
    let one = 0x8000_0000_0000_0000_0000_0000_0000_0000u128;
    let m = (n - 1) as nat;
    let s = (127 - m) as u128;
    if n == 1 {
        assert((one >> 127u128) & 1 == 1) by (bit_vector)
            requires
                one == 0x8000_0000_0000_0000_0000_0000_0000_0000u128,
        ;
        assert(gf_partial(one, y, 0) == 0);
        assert(0u128 ^ y == y) by (bit_vector);
        assert(gf_power(y, 0) == y);
    } else {
        law_product_one(y, m);
        assert(s < 127 ==> (one >> s) & 1 == 0) by (bit_vector)
            requires
                one == 0x8000_0000_0000_0000_0000_0000_0000_0000u128,
        ;
    }
}

/// Counter blocks differ as long as the count fits in its four bytes.
pub proof fn law_counter_blocks_differ(iv: Seq<u8>, a: nat, b: nat)
    requires
        a <= u32::MAX,
        b <= u32::MAX,
        a != b,
    ensures
        counter_block(iv, a) != counter_block(iv, b),
{
    assert(bytes::pow256(4) == 0x1_0000_0000) by {
        reveal_with_fuel(bytes::pow256, 5);
    }
    bytes::law_be_round_trip(a, 4);
    bytes::law_be_round_trip(b, 4);
    bytes::lemma_be_bytes_len(a, 4);
    bytes::lemma_be_bytes_len(b, 4);
    let n = iv.len() as int;
    assert(counter_block(iv, a).skip(n) =~= bytes::be_bytes(a, 4));
    assert(counter_block(iv, b).skip(n) =~= bytes::be_bytes(b, 4));
}

} // verus!
