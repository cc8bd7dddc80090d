//! What is authenticated and masked by GCM, told by what can be read back from it: the lengths, the
//! counters, and the hash of associated data and ciphertext as one sequence of blocks.
use crate::sw::bytes;
use crate::sw::bytes_laws;
use crate::sw::gcm_math;
use vstd::prelude::*;

verus! {

/// `block` holds two lengths in bits: that of the associated data in its first eight bytes, and that
/// of the ciphertext in its last eight.
pub open spec fn tells_lengths(block: Seq<u8>, aad_len: nat, len: nat) -> bool {
    &&& block.len() == 16
    &&& bytes::be_value(block.take(8)) == 8 * aad_len
    &&& bytes::be_value(block.skip(8)) == 8 * len
}

/// `block` is the counter block that stands behind an initialization vector with a count.
pub open spec fn is_counter(block: Seq<u8>, iv: Seq<u8>, count: nat) -> bool {
    &&& block.len() == 16
    &&& block.take(12) == iv
    &&& bytes::be_value(block.skip(12)) == count
}

proof fn lemma_powers()
    ensures
        bytes::pow256(8) == 0x1_0000_0000_0000_0000,
        bytes::pow256(4) == 0x1_0000_0000,
{
    reveal_with_fuel(bytes::pow256, 9);
}

/// The last block that is hashed tells the lengths of associated data and ciphertext, in bits, for
/// all lengths below 2 to the 61, and it is the only block that does.
pub proof fn law_lengths_can_be_read_back(aad_len: nat, len: nat)
    requires
        aad_len < 0x2000_0000_0000_0000,
        len < 0x2000_0000_0000_0000,
    ensures
        tells_lengths(gcm_math::length_block(aad_len, len), aad_len, len),
        forall|block: Seq<u8>| #[trigger]
            tells_lengths(block, aad_len, len) ==> block == gcm_math::length_block(aad_len, len),
{
    let block = gcm_math::length_block(aad_len, len);
    lemma_powers();
    bytes::lemma_be_bytes_len(8 * aad_len, 8);
    bytes::lemma_be_bytes_len(8 * len, 8);
    bytes::law_be_round_trip(8 * aad_len, 8);
    bytes::law_be_round_trip(8 * len, 8);
    assert(block.take(8) =~= bytes::be_bytes(8 * aad_len, 8));
    assert(block.skip(8) =~= bytes::be_bytes(8 * len, 8));
    assert forall|other: Seq<u8>| #[trigger] tells_lengths(other, aad_len, len) implies other
        == block by {
        bytes::lemma_be_value_injective(other.take(8), block.take(8));
        bytes::lemma_be_value_injective(other.skip(8), block.skip(8));
        assert(other =~= other.take(8) + other.skip(8));
        assert(block =~= block.take(8) + block.skip(8));
    }
}

/// Messages whose associated data or ciphertexts differ in length have different last blocks.
pub proof fn law_length_blocks_differ(aad_len: nat, len: nat, other_aad_len: nat, other_len: nat)
    requires
        aad_len < 0x2000_0000_0000_0000,
        len < 0x2000_0000_0000_0000,
        other_aad_len < 0x2000_0000_0000_0000,
        other_len < 0x2000_0000_0000_0000,
        aad_len != other_aad_len || len != other_len,
    ensures
        gcm_math::length_block(aad_len, len) != gcm_math::length_block(other_aad_len, other_len),
{
    law_lengths_can_be_read_back(aad_len, len);
    law_lengths_can_be_read_back(other_aad_len, other_len);
}

/// A counter block is the initialization vector with the count behind it, and no other block is.
pub proof fn law_count_can_be_read_back(iv: Seq<u8>, count: nat)
    requires
        iv.len() == 12,
        count <= u32::MAX,
    ensures
        is_counter(gcm_math::counter_block(iv, count), iv, count),
        forall|block: Seq<u8>| #[trigger]
            is_counter(block, iv, count) ==> block == gcm_math::counter_block(iv, count),
{
    let block = gcm_math::counter_block(iv, count);
    lemma_powers();
    bytes::lemma_be_bytes_len(count, 4);
    bytes::law_be_round_trip(count, 4);
    assert(block.take(12) =~= iv);
    assert(block.skip(12) =~= bytes::be_bytes(count, 4));
    assert forall|other: Seq<u8>| #[trigger] is_counter(other, iv, count) implies other
        == block by {
        bytes::lemma_be_value_injective(other.skip(12), block.skip(12));
        assert(other =~= other.take(12) + other.skip(12));
        assert(block =~= block.take(12) + block.skip(12));
    }
}

/// Byte `j` of payload block `n` is masked with byte `j` of the encrypted counter block that follows
/// the one of the tag by `n + 1`; the length stays.
pub proof fn law_payload_is_masked_in_counter_mode(
    e: spec_fn(Seq<u8>) -> Seq<u8>,
    iv: Seq<u8>,
    payload: Seq<u8>,
    n: nat,
    j: nat,
    block: Seq<u8>,
)
    requires
        iv.len() == 12,
        j < 16,
        16 * n + j < payload.len(),
        n + 2 <= u32::MAX,
        is_counter(block, iv, n + 2),
    ensures
        ({
            let ciphertext = gcm_math::masked(e, iv, payload, payload.len() as int);
            &&& ciphertext.len() == payload.len()
            &&& ciphertext[(16 * n + j) as int] == payload[(16 * n + j) as int] ^ e(block)[j as int]
        }),
{
    law_count_can_be_read_back(iv, n + 2);
    let i = 16 * n + j;
    assert(i / 16 == n && i % 16 == j);
}

/// The hash of a sequence is the hash of its end, continued from the hash of its front.
proof fn lemma_ghash_append(h: Seq<u8>, start: Seq<u8>, a: Seq<u8>, b: Seq<u8>, m: nat, n: nat)
    requires
        a.len() == 16 * m,
        b.len() >= 16 * n,
    ensures
        gcm_math::ghash(h, start, a + b, m + n) == gcm_math::ghash(
            h,
            gcm_math::ghash(h, start, a, m),
            b,
            n,
        ),
    decreases n,
{
    if n == 0 {
        assert forall|k: int| 0 <= k < m implies #[trigger] bytes::block_at(a + b, 16 * k)
            == bytes::block_at(a, 16 * k) by {
            assert(bytes::block_at(a + b, 16 * k) =~= bytes::block_at(a, 16 * k));
        }
        lemma_ghash_same(h, start, a + b, a, m);
    } else {
        lemma_ghash_append(h, start, a, b, m, (n - 1) as nat);
        assert(bytes::block_at(a + b, (m + n - 1) * 16) =~= bytes::block_at(b, (n - 1) * 16));
    }
}

/// A hash depends on the blocks alone.
proof fn lemma_ghash_same(h: Seq<u8>, start: Seq<u8>, a: Seq<u8>, b: Seq<u8>, n: nat)
    requires
        forall|k: int|
            0 <= k < n ==> #[trigger] bytes::block_at(a, 16 * k) == bytes::block_at(b, 16 * k),
    ensures
        gcm_math::ghash(h, start, a, n) == gcm_math::ghash(h, start, b, n),
    decreases n,
{
    if n > 0 {
        lemma_ghash_same(h, start, a, b, (n - 1) as nat);
        let k = n - 1;
        assert(bytes::block_at(a, 16 * k) == bytes::block_at(b, 16 * k));
    }
}

proof fn lemma_ghash_padded(h: Seq<u8>, start: Seq<u8>, data: Seq<u8>)
    ensures
        gcm_math::ghash(h, start, data, bytes::block_count(data.len())) == gcm_math::ghash(
            h,
            start,
            bytes_laws::padded(data),
            bytes::block_count(data.len()),
        ),
{
    let all = bytes_laws::padded(data);
    let n = bytes::block_count(data.len());
    bytes_laws::law_blocks_make_the_message(data);
    assert forall|k: int| 0 <= k < n implies #[trigger] bytes::block_at(data, 16 * k)
        == bytes::block_at(all, 16 * k) by {
        assert(bytes::block_at(all, 16 * k) =~= all.subrange(16 * k, 16 * k + 16));
    }
    lemma_ghash_same(h, start, data, all, n);
}

/// What is authenticated is one sequence of whole blocks: the associated data and the ciphertext,
/// each filled up with zeros, and a block that tells their lengths in bits.
pub proof fn law_hash_of_one_sequence(
    h: Seq<u8>,
    aad: Seq<u8>,
    ciphertext: Seq<u8>,
    lengths: Seq<u8>,
)
    requires
        aad.len() < 0x2000_0000_0000_0000,
        ciphertext.len() < 0x2000_0000_0000_0000,
        tells_lengths(lengths, aad.len(), ciphertext.len()),
    ensures
        ({
            let all = bytes_laws::padded(aad) + bytes_laws::padded(ciphertext) + lengths;
            &&& all.len() % 16 == 0
            &&& gcm_math::full_hash(h, aad, ciphertext) == gcm_math::ghash(
                h,
                bytes::zeros(16),
                all,
                all.len() / 16,
            )
        }),
{
    let (a, c) = (bytes_laws::padded(aad), bytes_laws::padded(ciphertext));
    let (m, n) = (bytes::block_count(aad.len()), bytes::block_count(ciphertext.len()));
    let zero = bytes::zeros(16);
    law_lengths_can_be_read_back(aad.len(), ciphertext.len());
    bytes_laws::law_blocks_make_the_message(aad);
    bytes_laws::law_blocks_make_the_message(ciphertext);
    let after_aad = gcm_math::ghash(h, zero, aad, m);
    lemma_ghash_padded(h, zero, aad);
    lemma_ghash_padded(h, after_aad, ciphertext);
    lemma_ghash_append(h, zero, a, c, m, n);
    lemma_ghash_append(h, zero, a + c, lengths, m + n, 1);
    let all = a + c + lengths;
    assert(all.len() / 16 == m + n + 1);
}

/// A hash is a value of a polynomial: each block that is appended is added to what there is, and the
/// sum is multiplied by the hash key.
pub proof fn law_hash_block_by_block(h: Seq<u8>, start: Seq<u8>, data: Seq<u8>, block: Seq<u8>)
    requires
        data.len() % 16 == 0,
        block.len() == 16,
    ensures
        gcm_math::ghash(h, start, Seq::empty(), 0) == start,
        gcm_math::ghash(h, start, data + block, data.len() / 16 + 1) == gcm_math::product(
            bytes::xor(gcm_math::ghash(h, start, data, data.len() / 16), block),
            h,
        ),
{
    let n = data.len() / 16;
    lemma_ghash_append(h, start, data, block, n, 1);
    let before = gcm_math::ghash(h, start, data, n);
    assert(bytes::block_at(block, 0) =~= block);
    assert(gcm_math::ghash(h, before, block, 0) == before);
    assert(gcm_math::ghash(h, before, block, 1) == gcm_math::product(
        bytes::xor(gcm_math::ghash(h, before, block, 0), bytes::block_at(block, 0)),
        h,
    ));
}

/// A tag is the front of the hash under the encrypted block of zeros, masked with the first counter
/// block, encrypted. A shorter tag is the front of a longer one.
pub proof fn law_tag_is_the_masked_hash(
    e: spec_fn(Seq<u8>) -> Seq<u8>,
    iv: Seq<u8>,
    aad: Seq<u8>,
    ciphertext: Seq<u8>,
    tag_len: nat,
    first: Seq<u8>,
)
    requires
        iv.len() == 12,
        tag_len <= 16,
        is_counter(first, iv, 1),
        e(first).len() == 16,
    ensures
        ({
            let tag = gcm_math::tag(e, iv, aad, ciphertext, tag_len);
            let hash = gcm_math::full_hash(e(bytes::zeros(16)), aad, ciphertext);
            &&& hash.len() == 16
            &&& tag.len() == tag_len
            &&& bytes::xor(tag, e(first)) == hash.take(tag_len as int)
            &&& gcm_math::tag(e, iv, aad, ciphertext, 16).take(tag_len as int) == tag
        }),
{
    let hash = gcm_math::full_hash(e(bytes::zeros(16)), aad, ciphertext);
    law_count_can_be_read_back(iv, 1);
    gcm_math::lemma_full_hash_len(e(bytes::zeros(16)), aad, ciphertext);
    bytes::lemma_xor_twice(hash, e(first));
    let tag = gcm_math::tag(e, iv, aad, ciphertext, tag_len);
    let whole = bytes::xor(hash, e(first));
    assert(bytes::xor(tag, e(first)) =~= bytes::xor(whole, e(first)).take(tag_len as int));
    assert(gcm_math::tag(e, iv, aad, ciphertext, 16).take(tag_len as int) =~= tag);
}

/// A ciphertext is opened exactly if all of the given tag is right; a wrong tag opens nothing.
pub proof fn law_only_the_right_tag_opens(
    e: spec_fn(Seq<u8>) -> Seq<u8>,
    iv: Seq<u8>,
    aad: Seq<u8>,
    ciphertext: Seq<u8>,
    given: Seq<u8>,
)
    ensures
        gcm_math::unsealed(e, iv, aad, ciphertext, given) is Some <==> given == gcm_math::tag(
            e,
            iv,
            aad,
            ciphertext,
            given.len(),
        ),
{
}

} // verus!
