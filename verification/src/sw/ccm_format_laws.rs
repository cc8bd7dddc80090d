//! What is authenticated and masked by CCM, told by what can be read back from it: flags, nonce and
//! length from the first block, the length of the associated data from what stands before it, and the
//! counters.
use crate::sw::bytes;
use crate::sw::bytes_laws;
use crate::sw::ccm_math;
use vstd::prelude::*;

verus! {

/// A nonce has 7 to 13 bytes, and a tag an even number of bytes from 4 to 16.
pub open spec fn are_sizes(nonce_len: nat, tag_len: nat) -> bool {
    &&& 7 <= nonce_len <= 13
    &&& 4 <= tag_len <= 16
    &&& tag_len % 2 == 0
}

/// From `block` the parameters of a message can be read: from its flags the length of the length
/// field, the length of the tag, and whether there is associated data; then the nonce; then the length
/// of the payload.
pub open spec fn tells_parameters(
    block: Seq<u8>,
    nonce: Seq<u8>,
    len: nat,
    aad_len: nat,
    tag_len: nat,
) -> bool {
    let n = nonce.len() as int;
    &&& block.len() == 16
    &&& block[0] % 8 + 1 == 15 - n
    &&& 2 * (block[0] / 8 % 8) + 2 == tag_len
    &&& block[0] / 64 == (if aad_len > 0 {
        1int
    } else {
        0
    })
    &&& block.subrange(1, 1 + n) == nonce
    &&& bytes::be_value(block.skip(1 + n)) == len
}

/// `block` is the counter block of a nonce with a count.
pub open spec fn is_counter(block: Seq<u8>, nonce: Seq<u8>, count: nat) -> bool {
    let n = nonce.len() as int;
    &&& block.len() == 16
    &&& block[0] + 1 == 15 - n
    &&& block.subrange(1, 1 + n) == nonce
    &&& bytes::be_value(block.skip(1 + n)) == count
}

/// `prefix` tells the length of the associated data behind it: nothing if there is none, two bytes
/// for a short length, and a mark of two bytes with four or eight bytes behind it for longer ones,
/// always the shortest that can tell it.
pub open spec fn tells_aad_len(prefix: Seq<u8>, len: nat) -> bool {
    let front = bytes::be_value(prefix.take(2));
    if len == 0 {
        prefix.len() == 0
    } else if prefix.len() == 2 {
        front == len && len < 0xff00
    } else if prefix.len() == 6 {
        front == 0xfffe && bytes::be_value(prefix.skip(2)) == len && 0xff00 <= len < 0x1_0000_0000
    } else {
        prefix.len() == 10 && front == 0xffff && bytes::be_value(prefix.skip(2)) == len && len
            >= 0x1_0000_0000
    }
}

/// A block is its first byte, a nonce, and a number.
proof fn lemma_same_block(a: Seq<u8>, b: Seq<u8>, n: int)
    requires
        a.len() == 16,
        b.len() == 16,
        0 <= n <= 15,
        a[0] == b[0],
        a.subrange(1, 1 + n) == b.subrange(1, 1 + n),
        bytes::be_value(a.skip(1 + n)) == bytes::be_value(b.skip(1 + n)),
    ensures
        a == b,
{
    bytes::lemma_be_value_injective(a.skip(1 + n), b.skip(1 + n));
    assert(a =~= seq![a[0]] + a.subrange(1, 1 + n) + a.skip(1 + n));
    assert(b =~= seq![b[0]] + b.subrange(1, 1 + n) + b.skip(1 + n));
}

/// From the first block all parameters of a message can be read back, and it is the only block from
/// which they are.
pub proof fn law_parameters_can_be_read_back(
    nonce: Seq<u8>,
    len: nat,
    aad_len: nat,
    tag_len: nat,
)
    requires
        are_sizes(nonce.len(), tag_len),
        len < bytes::pow256((15 - nonce.len()) as nat),
    ensures
        tells_parameters(
            ccm_math::first_block(nonce, len, aad_len, tag_len),
            nonce,
            len,
            aad_len,
            tag_len,
        ),
        forall|block: Seq<u8>| #[trigger]
            tells_parameters(block, nonce, len, aad_len, tag_len) ==> block
                == ccm_math::first_block(nonce, len, aad_len, tag_len),
{
    let block = ccm_math::first_block(nonce, len, aad_len, tag_len);
    let n = nonce.len() as int;
    let rest = (15 - n) as nat;
    bytes::lemma_be_bytes_len(len, rest);
    bytes::law_be_round_trip(len, rest);
    assert(block.subrange(1, 1 + n) =~= nonce);
    assert(block.skip(1 + n) =~= bytes::be_bytes(len, rest));
    assert forall|other: Seq<u8>| #[trigger]
        tells_parameters(other, nonce, len, aad_len, tag_len) implies other == block by {
        assert(other[0] == 64 * (other[0] / 64) + 8 * (other[0] / 8 % 8) + other[0] % 8);
        assert(block[0] == 64 * (block[0] / 64) + 8 * (block[0] / 8 % 8) + block[0] % 8);
        lemma_same_block(other, block, n);
    }
}

/// Messages whose tags, payloads or nonces differ in length, or whose nonces differ, or of which one
/// alone has associated data, have different first blocks.
pub proof fn law_first_blocks_differ(
    nonce: Seq<u8>,
    len: nat,
    aad_len: nat,
    tag_len: nat,
    other_nonce: Seq<u8>,
    other_len: nat,
    other_aad_len: nat,
    other_tag_len: nat,
)
    requires
        are_sizes(nonce.len(), tag_len),
        are_sizes(other_nonce.len(), other_tag_len),
        len < bytes::pow256((15 - nonce.len()) as nat),
        other_len < bytes::pow256((15 - other_nonce.len()) as nat),
        nonce != other_nonce || len != other_len || tag_len != other_tag_len || (aad_len == 0)
            != (other_aad_len == 0),
    ensures
        ccm_math::first_block(nonce, len, aad_len, tag_len) != ccm_math::first_block(
            other_nonce,
            other_len,
            other_aad_len,
            other_tag_len,
        ),
{
    law_parameters_can_be_read_back(nonce, len, aad_len, tag_len);
    law_parameters_can_be_read_back(other_nonce, other_len, other_aad_len, other_tag_len);
}

/// From a counter block nonce and count can be read back, and no other block is that counter block.
pub proof fn law_count_can_be_read_back(nonce: Seq<u8>, count: nat)
    requires
        7 <= nonce.len() <= 13,
        count < bytes::pow256((15 - nonce.len()) as nat),
    ensures
        is_counter(ccm_math::counter_block(nonce, count), nonce, count),
        forall|block: Seq<u8>| #[trigger]
            is_counter(block, nonce, count) ==> block == ccm_math::counter_block(nonce, count),
{
    let block = ccm_math::counter_block(nonce, count);
    let n = nonce.len() as int;
    let rest = (15 - n) as nat;
    bytes::lemma_be_bytes_len(count, rest);
    bytes::law_be_round_trip(count, rest);
    assert(block.subrange(1, 1 + n) =~= nonce);
    assert(block.skip(1 + n) =~= bytes::be_bytes(count, rest));
    assert forall|other: Seq<u8>| #[trigger] is_counter(other, nonce, count) implies other
        == block by {
        lemma_same_block(other, block, n);
    }
}

/// No counter block is the first block of a message, so what masks is never what authenticates.
pub proof fn law_counters_are_no_first_blocks(
    nonce: Seq<u8>,
    count: nat,
    len: nat,
    aad_len: nat,
    tag_len: nat,
)
    requires
        are_sizes(nonce.len(), tag_len),
        count < bytes::pow256((15 - nonce.len()) as nat),
        len < bytes::pow256((15 - nonce.len()) as nat),
    ensures
        ccm_math::counter_block(nonce, count) != ccm_math::first_block(
            nonce,
            len,
            aad_len,
            tag_len,
        ),
{
    law_count_can_be_read_back(nonce, count);
    law_parameters_can_be_read_back(nonce, len, aad_len, tag_len);
}

/// What stands before the associated data tells its length, and nothing else does.
pub proof fn law_aad_len_can_be_read_back(len: nat)
    requires
        len <= u64::MAX,
    ensures
        tells_aad_len(ccm_math::aad_prefix(len), len),
        forall|prefix: Seq<u8>| #[trigger]
            tells_aad_len(prefix, len) ==> prefix == ccm_math::aad_prefix(len),
{
    let told = ccm_math::aad_prefix(len);
    reveal_with_fuel(bytes::pow256, 9);
    assert(bytes::pow256(2) == 0x1_0000);
    assert(bytes::pow256(4) == 0x1_0000_0000);
    assert(bytes::pow256(8) == 0x1_0000_0000_0000_0000);
    lemma_mark(0xff, 0xfe);
    lemma_mark(0xff, 0xff);
    if 0 < len < 0xff00 {
        bytes::lemma_be_bytes_len(len, 2);
        bytes::law_be_round_trip(len, 2);
        assert(told.take(2) =~= told);
    } else if len > 0 {
        let size: nat = if len <= 0xffff_ffff {
            4
        } else {
            8
        };
        bytes::lemma_be_bytes_len(len, size);
        bytes::law_be_round_trip(len, size);
        assert(told.skip(2) =~= bytes::be_bytes(len, size));
        assert(told.take(2) =~= seq![told[0], told[1]]);
    }
    assert forall|prefix: Seq<u8>| #[trigger] tells_aad_len(prefix, len) implies prefix
        == told by {
        if len == 0 {
            assert(prefix =~= told);
        } else {
            if prefix.len() == 2 {
                assert(prefix.take(2) =~= prefix);
            }
            assert(prefix.len() == told.len());
            bytes::lemma_be_value_injective(prefix.take(2), told.take(2));
            if prefix.len() > 2 {
                bytes::lemma_be_value_injective(prefix.skip(2), told.skip(2));
            }
            assert(prefix =~= prefix.take(2) + prefix.skip(2));
            assert(told =~= told.take(2) + told.skip(2));
            if prefix.len() == 2 {
                assert(prefix.skip(2) =~= told.skip(2));
            }
        }
    }
}

/// Two bytes as a number.
proof fn lemma_mark(a: u8, b: u8)
    ensures
        bytes::be_value(seq![a, b]) == 256 * a + b,
{
    reveal_with_fuel(bytes::be_value, 3);
    assert(seq![a, b].drop_last() =~= seq![a]);
    assert(seq![a].drop_last() =~= Seq::<u8>::empty());
}

/// Associated data of different lengths are told apart by what stands before them, whatever follows.
pub proof fn law_aad_lens_differ(len: nat, other_len: nat, rest: Seq<u8>, other_rest: Seq<u8>)
    requires
        0 < len <= u64::MAX,
        0 < other_len <= u64::MAX,
        len != other_len,
    ensures
        ccm_math::aad_prefix(len) + rest != ccm_math::aad_prefix(other_len) + other_rest,
{
    law_aad_len_can_be_read_back(len);
    law_aad_len_can_be_read_back(other_len);
    let (p, q) = (ccm_math::aad_prefix(len), ccm_math::aad_prefix(other_len));
    let (a, b) = (p + rest, q + other_rest);
    if a == b {
        assert(a.take(2) =~= p.take(2));
        assert(b.take(2) =~= q.take(2));
        assert(p.len() == q.len());
        assert(a.take(p.len() as int) =~= p);
        assert(b.take(p.len() as int) =~= q);
    }
}

/// A chained code depends on the blocks alone, and goes on from where the front of them has left it.
proof fn lemma_mac_append(
    e: spec_fn(Seq<u8>) -> Seq<u8>,
    start: Seq<u8>,
    a: Seq<u8>,
    b: Seq<u8>,
    m: nat,
    n: nat,
)
    requires
        a.len() == 16 * m,
        b.len() >= 16 * n,
    ensures
        ccm_math::cbc_mac(e, start, a + b, m + n) == ccm_math::cbc_mac(
            e,
            ccm_math::cbc_mac(e, start, a, m),
            b,
            n,
        ),
    decreases n,
{
    if n == 0 {
        assert forall|at: int| 0 <= at < m * 16 && at % 16 == 0 implies #[trigger] bytes::block_at(
            a + b,
            at,
        ) == bytes::block_at(a, at) by {
            assert(bytes::block_at(a + b, at) =~= bytes::block_at(a, at));
        }
        ccm_math::lemma_cbc_mac_prefix(e, start, a + b, a, m);
    } else {
        lemma_mac_append(e, start, a, b, m, (n - 1) as nat);
        assert(bytes::block_at(a + b, (m + n - 1) * 16) =~= bytes::block_at(b, (n - 1) * 16));
    }
}

proof fn lemma_mac_padded(e: spec_fn(Seq<u8>) -> Seq<u8>, start: Seq<u8>, data: Seq<u8>)
    ensures
        ccm_math::cbc_mac(e, start, data, bytes::block_count(data.len())) == ccm_math::cbc_mac(
            e,
            start,
            bytes_laws::padded(data),
            bytes::block_count(data.len()),
        ),
{
    let all = bytes_laws::padded(data);
    let n = bytes::block_count(data.len());
    bytes_laws::law_blocks_make_the_message(data);
    assert forall|at: int| 0 <= at < n * 16 && at % 16 == 0 implies #[trigger] bytes::block_at(
        data,
        at,
    ) == bytes::block_at(all, at) by {
        let k = at / 16;
        assert(bytes::block_at(data, 16 * k) == all.subrange(16 * k, 16 * k + 16));
        assert(bytes::block_at(all, at) =~= all.subrange(at, at + 16));
    }
    ccm_math::lemma_cbc_mac_prefix(e, start, data, all, n);
}

/// What is authenticated is one sequence of whole blocks, chained from zeros: a block that tells the
/// parameters, the associated data behind its length, filled up with zeros, and the payload, filled
/// up with zeros.
pub proof fn law_code_of_one_sequence(
    e: spec_fn(Seq<u8>) -> Seq<u8>,
    nonce: Seq<u8>,
    aad: Seq<u8>,
    payload: Seq<u8>,
    tag_len: nat,
    first: Seq<u8>,
    prefix: Seq<u8>,
)
    requires
        are_sizes(nonce.len(), tag_len),
        payload.len() < bytes::pow256((15 - nonce.len()) as nat),
        aad.len() <= u64::MAX,
        tells_parameters(first, nonce, payload.len(), aad.len(), tag_len),
        tells_aad_len(prefix, aad.len()),
    ensures
        ({
            let all = first + bytes_laws::padded(prefix + aad) + bytes_laws::padded(payload);
            &&& all.len() % 16 == 0
            &&& ccm_math::mac(e, nonce, aad, payload, tag_len) == ccm_math::cbc_mac(
                e,
                bytes::zeros(16),
                all,
                all.len() / 16,
            )
        }),
{
    let zero = bytes::zeros(16);
    let head = prefix + aad;
    let (a, c) = (bytes_laws::padded(head), bytes_laws::padded(payload));
    let (m, n) = (bytes::block_count(head.len()), bytes::block_count(payload.len()));
    law_parameters_can_be_read_back(nonce, payload.len(), aad.len(), tag_len);
    law_aad_len_can_be_read_back(aad.len());
    bytes_laws::law_blocks_make_the_message(head);
    bytes_laws::law_blocks_make_the_message(payload);
    assert(bytes::block_at(first, 0) =~= first);
    bytes_laws::law_exclusive_or_cancels(first, zero);
    let begun = ccm_math::cbc_mac(e, zero, first, 1);
    assert(ccm_math::cbc_mac(e, zero, first, 0) == zero);
    assert(begun == e(first));
    lemma_mac_padded(e, begun, head);
    let after_aad = ccm_math::cbc_mac(e, begun, head, m);
    lemma_mac_padded(e, after_aad, payload);
    lemma_mac_append(e, zero, first, a, 1, m);
    lemma_mac_append(e, zero, first + a, c, 1 + m, n);
    let all = first + a + c;
    assert(all.len() / 16 == 1 + m + n);
}

/// A chained code: each block that is appended is added to what there is, and the sum is encrypted.
pub proof fn law_code_block_by_block(
    e: spec_fn(Seq<u8>) -> Seq<u8>,
    start: Seq<u8>,
    data: Seq<u8>,
    block: Seq<u8>,
)
    requires
        data.len() % 16 == 0,
        block.len() == 16,
    ensures
        ccm_math::cbc_mac(e, start, Seq::empty(), 0) == start,
        ccm_math::cbc_mac(e, start, data + block, data.len() / 16 + 1) == e(
            bytes::xor(block, ccm_math::cbc_mac(e, start, data, data.len() / 16)),
        ),
{
    let n = data.len() / 16;
    lemma_mac_append(e, start, data, block, n, 1);
    let before = ccm_math::cbc_mac(e, start, data, n);
    assert(bytes::block_at(block, 0) =~= block);
    assert(ccm_math::cbc_mac(e, before, block, 0) == before);
    assert(ccm_math::cbc_mac(e, before, block, 1) == e(
        bytes::xor(bytes::block_at(block, 0), ccm_math::cbc_mac(e, before, block, 0)),
    ));
}

/// What is sealed is as long as payload and tag. Byte `j` of payload block `n` is masked with byte `j`
/// of the encrypted counter block with count `n + 1`; behind the payload the front of the code is
/// masked with the encrypted counter block with count zero.
pub proof fn law_sealed_in_counter_mode(
    e: spec_fn(Seq<u8>) -> Seq<u8>,
    nonce: Seq<u8>,
    aad: Seq<u8>,
    payload: Seq<u8>,
    tag_len: nat,
    n: nat,
    j: nat,
    block: Seq<u8>,
    zeroth: Seq<u8>,
)
    requires
        are_sizes(nonce.len(), tag_len),
        forall|input: Seq<u8>| (#[trigger] e(input)).len() == 16,
        payload.len() < bytes::pow256((15 - nonce.len()) as nat),
        n + 1 < bytes::pow256((15 - nonce.len()) as nat),
        j < 16,
        is_counter(block, nonce, n + 1),
        is_counter(zeroth, nonce, 0),
    ensures
        ({
            let sealed = ccm_math::sealed(e, nonce, aad, payload, tag_len);
            let i = (16 * n + j) as int;
            &&& sealed.len() == payload.len() + tag_len
            &&& i < payload.len() ==> sealed[i] == payload[i] ^ e(block)[j as int]
            &&& bytes::xor(sealed.skip(payload.len() as int), e(zeroth)) == ccm_math::mac(
                e,
                nonce,
                aad,
                payload,
                tag_len,
            ).take(tag_len as int)
        }),
{
    let sealed = ccm_math::sealed(e, nonce, aad, payload, tag_len);
    let i = (16 * n + j) as int;
    law_count_can_be_read_back(nonce, n + 1);
    assert(0 < bytes::pow256((15 - nonce.len()) as nat));
    law_count_can_be_read_back(nonce, 0);
    assert(i / 16 == n && i % 16 == j);
    ccm_math::lemma_mac_len(e, nonce, aad, payload, tag_len);
    let code = ccm_math::mac(e, nonce, aad, payload, tag_len).take(tag_len as int);
    let mask = e(zeroth).take(tag_len as int);
    bytes::lemma_xor_twice(code, mask);
    assert(sealed.skip(payload.len() as int) =~= bytes::xor(code, mask));
    assert(bytes::xor(bytes::xor(code, mask), e(zeroth)) =~= code);
}

/// What was not sealed with this nonce, associated data and length of tag is not opened: exactly the
/// sealed messages are.
pub proof fn law_only_what_was_sealed_opens(
    e: spec_fn(Seq<u8>) -> Seq<u8>,
    nonce: Seq<u8>,
    aad: Seq<u8>,
    input: Seq<u8>,
    tag_len: nat,
)
    requires
        forall|block: Seq<u8>| (#[trigger] e(block)).len() == 16,
        tag_len <= 16,
        tag_len <= input.len(),
    ensures
        ccm_math::unsealed(e, nonce, aad, input, tag_len) matches Some(payload) ==> input
            == ccm_math::sealed(e, nonce, aad, payload, tag_len),
        forall|payload: Seq<u8>|
            input == #[trigger] ccm_math::sealed(e, nonce, aad, payload, tag_len)
                ==> ccm_math::unsealed(e, nonce, aad, input, tag_len) == Some(payload),
{
    let len = input.len() - tag_len;
    ccm_math::lemma_masked_twice(e, nonce, input.take(len), len);
    assert(input =~= input.take(len) + input.skip(len));
    assert forall|payload: Seq<u8>|
        input == #[trigger] ccm_math::sealed(
            e,
            nonce,
            aad,
            payload,
            tag_len,
        ) implies ccm_math::unsealed(e, nonce, aad, input, tag_len) == Some(payload) by {
        ccm_math::law_unseal_after_seal(e, nonce, aad, payload, tag_len);
    }
}

} // verus!
