//! What CCM is, over any block cipher: NIST SP 800-38C with the formatting of its appendix A.
use crate::sw::bytes;
use vstd::prelude::*;

verus! {

/// The encoding of the length of the associated data that goes in front of it.
pub open spec fn aad_prefix(len: nat) -> Seq<u8> {
    if len == 0 {
        Seq::empty()
    } else if len < 0xff00 {
        bytes::be_bytes(len, 2)
    } else if len <= 0xffff_ffff {
        seq![0xffu8, 0xfeu8] + bytes::be_bytes(len, 4)
    } else {
        seq![0xffu8, 0xffu8] + bytes::be_bytes(len, 8)
    }
}

/// The length of the encoded associated data, padded to whole blocks.
pub open spec fn aad_padded_len(len: nat) -> nat {
    bytes::block_count(aad_prefix(len).len() + len) * 16
}

/// The number of bytes left for a counter or a length beside a nonce.
pub open spec fn length_bytes(nonce_len: nat) -> nat {
    (15 - nonce_len) as nat
}

/// The first block that is authenticated.
pub open spec fn first_block(nonce: Seq<u8>, len: nat, aad_len: nat, tag_len: nat) -> Seq<u8> {
    let adata: nat = if aad_len > 0 {
        64
    } else {
        0
    };
    let flags = adata + 8 * ((tag_len - 2) / 2) + (length_bytes(nonce.len()) - 1);
    seq![flags as u8] + nonce + bytes::be_bytes(len, length_bytes(nonce.len()))
}

/// The block whose encryption masks the tag (`counter` 0) or payload block `counter` (from 1 on).
pub open spec fn counter_block(nonce: Seq<u8>, counter: nat) -> Seq<u8> {
    seq![(length_bytes(nonce.len()) - 1) as u8] + nonce + bytes::be_bytes(
        counter,
        length_bytes(nonce.len()),
    )
}

/// CBC-MAC of the first `blocks` blocks of `data`, padded with zeros, chained to `start`.
pub open spec fn cbc_mac(
    e: spec_fn(Seq<u8>) -> Seq<u8>,
    start: Seq<u8>,
    data: Seq<u8>,
    blocks: nat,
) -> Seq<u8>
    decreases blocks,
{
    if blocks == 0 {
        start
    } else {
        let chain = cbc_mac(e, start, data, (blocks - 1) as nat);
        e(bytes::xor(bytes::block_at(data, (blocks - 1) * 16), chain))
    }
}

/// The chaining value after the first block and the associated data.
pub open spec fn mac_of_header(
    e: spec_fn(Seq<u8>) -> Seq<u8>,
    nonce: Seq<u8>,
    aad: Seq<u8>,
    len: nat,
    tag_len: nat,
) -> Seq<u8> {
    cbc_mac(
        e,
        e(first_block(nonce, len, aad.len(), tag_len)),
        aad_prefix(aad.len()) + aad,
        bytes::block_count(aad_prefix(aad.len()).len() + aad.len()),
    )
}

/// The authentication code of a message, before it is masked and cut.
pub open spec fn mac(
    e: spec_fn(Seq<u8>) -> Seq<u8>,
    nonce: Seq<u8>,
    aad: Seq<u8>,
    payload: Seq<u8>,
    tag_len: nat,
) -> Seq<u8> {
    cbc_mac(
        e,
        mac_of_header(e, nonce, aad, payload.len(), tag_len),
        payload,
        bytes::block_count(payload.len()),
    )
}

/// The byte that masks payload byte `i`.
pub open spec fn keystream(e: spec_fn(Seq<u8>) -> Seq<u8>, nonce: Seq<u8>, i: int) -> u8 {
    e(counter_block(nonce, (i / 16 + 1) as nat))[i % 16]
}

/// `data` with the first `upto` bytes masked.
pub open spec fn masked(
    e: spec_fn(Seq<u8>) -> Seq<u8>,
    nonce: Seq<u8>,
    data: Seq<u8>,
    upto: int,
) -> Seq<u8> {
    Seq::new(
        data.len(),
        |i: int|
            if i < upto {
                data[i] ^ keystream(e, nonce, i)
            } else {
                data[i]
            },
    )
}

/// The authentication tag of a message.
pub open spec fn tag(
    e: spec_fn(Seq<u8>) -> Seq<u8>,
    nonce: Seq<u8>,
    aad: Seq<u8>,
    payload: Seq<u8>,
    tag_len: nat,
) -> Seq<u8> {
    bytes::xor(
        mac(e, nonce, aad, payload, tag_len).take(tag_len as int),
        e(counter_block(nonce, 0)).take(tag_len as int),
    )
}

/// The ciphertext of a message, followed by its tag.
pub open spec fn sealed(
    e: spec_fn(Seq<u8>) -> Seq<u8>,
    nonce: Seq<u8>,
    aad: Seq<u8>,
    payload: Seq<u8>,
    tag_len: nat,
) -> Seq<u8> {
    masked(e, nonce, payload, payload.len() as int) + tag(e, nonce, aad, payload, tag_len)
}

/// The message behind a ciphertext that is followed by its tag, if the tag is right.
pub open spec fn unsealed(
    e: spec_fn(Seq<u8>) -> Seq<u8>,
    nonce: Seq<u8>,
    aad: Seq<u8>,
    input: Seq<u8>,
    tag_len: nat,
) -> Option<Seq<u8>> {
    let len = input.len() - tag_len;
    let payload = masked(e, nonce, input.take(len), len);
    if tag(e, nonce, aad, payload, tag_len) == input.skip(len) {
        Some(payload)
    } else {
        None
    }
}

/// What is sealed comes back when it is unsealed, whatever the block cipher is.
pub proof fn law_unseal_after_seal(
    e: spec_fn(Seq<u8>) -> Seq<u8>,
    nonce: Seq<u8>,
    aad: Seq<u8>,
    payload: Seq<u8>,
    tag_len: nat,
)
    requires
        forall|block: Seq<u8>| (#[trigger] e(block)).len() == 16,
        tag_len <= 16,
    ensures
        unsealed(e, nonce, aad, sealed(e, nonce, aad, payload, tag_len), tag_len) == Some(payload),
{
    let len = payload.len() as int;
    let input = sealed(e, nonce, aad, payload, tag_len);
    lemma_mac_len(e, nonce, aad, payload, tag_len);
    assert(tag(e, nonce, aad, payload, tag_len).len() == tag_len);
    assert(input.take(len) =~= masked(e, nonce, payload, len));
    assert(input.skip(len) =~= tag(e, nonce, aad, payload, tag_len));
    lemma_masked_twice(e, nonce, payload, len);
}

/// Masking twice changes nothing.
pub proof fn lemma_masked_twice(
    e: spec_fn(Seq<u8>) -> Seq<u8>,
    nonce: Seq<u8>,
    data: Seq<u8>,
    upto: int,
)
    ensures
        masked(e, nonce, masked(e, nonce, data, upto), upto) == data,
{
    assert forall|i: int| 0 <= i < data.len() implies masked(
        e,
        nonce,
        masked(e, nonce, data, upto),
        upto,
    )[i] == data[i] by {
        let x = data[i];
        let y = keystream(e, nonce, i);
        assert((x ^ y) ^ y == x) by (bit_vector);
    }
    assert(masked(e, nonce, masked(e, nonce, data, upto), upto) =~= data);
}

/// An authentication code is one block.
pub proof fn lemma_mac_len(
    e: spec_fn(Seq<u8>) -> Seq<u8>,
    nonce: Seq<u8>,
    aad: Seq<u8>,
    payload: Seq<u8>,
    tag_len: nat,
)
    requires
        forall|block: Seq<u8>| (#[trigger] e(block)).len() == 16,
    ensures
        mac(e, nonce, aad, payload, tag_len).len() == 16,
{
}

/// CBC-MAC depends only on the blocks that it covers.
pub proof fn lemma_cbc_mac_prefix(
    e: spec_fn(Seq<u8>) -> Seq<u8>,
    start: Seq<u8>,
    a: Seq<u8>,
    b: Seq<u8>,
    blocks: nat,
)
    requires
        forall|at: int|
            0 <= at < blocks * 16 && at % 16 == 0 ==> #[trigger] bytes::block_at(a, at)
                == bytes::block_at(b, at),
    ensures
        cbc_mac(e, start, a, blocks) == cbc_mac(e, start, b, blocks),
    decreases blocks,
{
    if blocks > 0 {
        lemma_cbc_mac_prefix(e, start, a, b, (blocks - 1) as nat);
        assert(bytes::block_at(a, (blocks - 1) * 16) == bytes::block_at(b, (blocks - 1) * 16));
    }
}

/// The counter blocks of one message differ from one another, so no part of the keystream, nor
/// the mask of the tag, is used twice.
pub proof fn law_counter_blocks_differ(nonce: Seq<u8>, a: nat, b: nat)
    requires
        nonce.len() <= 13,
        a < bytes::pow256(length_bytes(nonce.len())),
        b < bytes::pow256(length_bytes(nonce.len())),
        a != b,
    ensures
        counter_block(nonce, a) != counter_block(nonce, b),
{
    let n = length_bytes(nonce.len());
    bytes::law_be_round_trip(a, n);
    bytes::law_be_round_trip(b, n);
    bytes::lemma_be_bytes_len(a, n);
    bytes::lemma_be_bytes_len(b, n);
    assert(counter_block(nonce, a).skip(1 + nonce.len() as int) =~= bytes::be_bytes(a, n));
    assert(counter_block(nonce, b).skip(1 + nonce.len() as int) =~= bytes::be_bytes(b, n));
}

} // verus!
