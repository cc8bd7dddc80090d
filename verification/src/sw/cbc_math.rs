//! What CBC is, over any block cipher: NIST SP 800-38A.
use crate::sw::bytes;
use vstd::prelude::*;

verus! {

/// What the block behind `front` is chained to.
pub open spec fn chain(iv: Seq<u8>, front: Seq<u8>) -> Seq<u8> {
    if front.len() == 0 {
        iv
    } else {
        front.skip(front.len() - 16)
    }
}

/// The first `blocks` blocks of `data`, encrypted.
pub open spec fn encrypted(
    e: spec_fn(Seq<u8>) -> Seq<u8>,
    iv: Seq<u8>,
    data: Seq<u8>,
    blocks: nat,
) -> Seq<u8>
    decreases blocks,
{
    if blocks == 0 {
        Seq::empty()
    } else {
        let front = encrypted(e, iv, data, (blocks - 1) as nat);
        front + e(bytes::xor(bytes::block_at(data, (blocks - 1) * 16), chain(iv, front)))
    }
}

/// The first `blocks` blocks of `data`, decrypted.
pub open spec fn decrypted(
    d: spec_fn(Seq<u8>) -> Seq<u8>,
    iv: Seq<u8>,
    data: Seq<u8>,
    blocks: nat,
) -> Seq<u8>
    decreases blocks,
{
    if blocks == 0 {
        Seq::empty()
    } else {
        decrypted(d, iv, data, (blocks - 1) as nat) + bytes::xor(
            d(bytes::block_at(data, (blocks - 1) * 16)),
            chain(iv, data.take((blocks - 1) * 16)),
        )
    }
}

/// Encryption keeps the length.
pub proof fn lemma_encrypted_len(
    e: spec_fn(Seq<u8>) -> Seq<u8>,
    iv: Seq<u8>,
    data: Seq<u8>,
    blocks: nat,
)
    requires
        forall|block: Seq<u8>| (#[trigger] e(block)).len() == 16,
    ensures
        encrypted(e, iv, data, blocks).len() == blocks * 16,
    decreases blocks,
{
    if blocks > 0 {
        lemma_encrypted_len(e, iv, data, (blocks - 1) as nat);
    }
}

/// Decryption of whole blocks keeps the length.
pub proof fn lemma_decrypted_len(
    d: spec_fn(Seq<u8>) -> Seq<u8>,
    iv: Seq<u8>,
    data: Seq<u8>,
    blocks: nat,
)
    requires
        forall|block: Seq<u8>| (#[trigger] d(block)).len() == 16,
    ensures
        decrypted(d, iv, data, blocks).len() == blocks * 16,
    decreases blocks,
{
    if blocks > 0 {
        lemma_decrypted_len(d, iv, data, (blocks - 1) as nat);
    }
}

/// Decryption depends only on the blocks that it covers.
proof fn lemma_decrypted_prefix(
    d: spec_fn(Seq<u8>) -> Seq<u8>,
    iv: Seq<u8>,
    a: Seq<u8>,
    b: Seq<u8>,
    blocks: nat,
)
    requires
        blocks * 16 <= a.len(),
        blocks * 16 <= b.len(),
        forall|i: int| 0 <= i < blocks * 16 ==> a[i] == b[i],
    ensures
        decrypted(d, iv, a, blocks) == decrypted(d, iv, b, blocks),
    decreases blocks,
{
    if blocks > 0 {
        let at = (blocks - 1) * 16;
        assert(a.take(at) =~= b.take(at));
        assert(bytes::block_at(a, at) =~= bytes::block_at(b, at));
        lemma_decrypted_prefix(d, iv, a, b, (blocks - 1) as nat);
    }
}

/// What is encrypted comes back when it is decrypted, if `d` undoes `e` on blocks.
pub proof fn law_decrypt_after_encrypt(
    e: spec_fn(Seq<u8>) -> Seq<u8>,
    d: spec_fn(Seq<u8>) -> Seq<u8>,
    iv: Seq<u8>,
    data: Seq<u8>,
    blocks: nat,
)
    requires
        forall|block: Seq<u8>| (#[trigger] e(block)).len() == 16,
        forall|block: Seq<u8>| block.len() == 16 ==> d(#[trigger] e(block)) == block,
        iv.len() == 16,
        data.len() == blocks * 16,
    ensures
        decrypted(d, iv, encrypted(e, iv, data, blocks), blocks) == data,
{
    lemma_decrypt_after_encrypt(e, d, iv, data, blocks);
    assert(data.take((blocks * 16) as int) =~= data);
}

proof fn lemma_decrypt_after_encrypt(
    e: spec_fn(Seq<u8>) -> Seq<u8>,
    d: spec_fn(Seq<u8>) -> Seq<u8>,
    iv: Seq<u8>,
    data: Seq<u8>,
    blocks: nat,
)
    requires
        forall|block: Seq<u8>| (#[trigger] e(block)).len() == 16,
        forall|block: Seq<u8>| block.len() == 16 ==> d(#[trigger] e(block)) == block,
        iv.len() == 16,
        blocks * 16 <= data.len(),
    ensures
        decrypted(d, iv, encrypted(e, iv, data, blocks), blocks) == data.take((blocks * 16) as int),
    decreases blocks,
{
    if blocks > 0 {
        let n = (blocks - 1) as nat;
        let at = n * 16;
        let front = encrypted(e, iv, data, n);
        let last = bytes::xor(bytes::block_at(data, at as int), chain(iv, front));
        let all = encrypted(e, iv, data, blocks);
        lemma_decrypt_after_encrypt(e, d, iv, data, n);
        lemma_encrypted_len(e, iv, data, n);
        assert(all == front + e(last));
        assert(all.take(at as int) =~= front);
        assert forall|i: int| 0 <= i < at implies all[i] == front[i] by {}
        lemma_decrypted_prefix(d, iv, all, front, n);
        assert(bytes::block_at(all, at as int) =~= e(last));
        bytes::lemma_xor_twice(bytes::block_at(data, at as int), chain(iv, front));
        assert(data.take((blocks * 16) as int) =~= data.take(at as int) + bytes::block_at(data, at as int));
    } else {
        assert(data.take(0) =~= Seq::<u8>::empty());
    }
}

/// A message whose initialization vector is what an earlier one handed back continues that one:
/// encrypting the two in turn is encrypting them as one.
pub proof fn law_iv_continues(
    e: spec_fn(Seq<u8>) -> Seq<u8>,
    iv: Seq<u8>,
    first: Seq<u8>,
    second: Seq<u8>,
    m: nat,
    n: nat,
)
    requires
        forall|block: Seq<u8>| (#[trigger] e(block)).len() == 16,
        first.len() == m * 16,
        second.len() == n * 16,
    ensures
        encrypted(e, iv, first + second, m + n) == encrypted(e, iv, first, m) + encrypted(
            e,
            chain(iv, encrypted(e, iv, first, m)),
            second,
            n,
        ),
    decreases n,
{
    let head = encrypted(e, iv, first, m);
    let next_iv = chain(iv, head);
    lemma_encrypted_len(e, iv, first, m);
    if n == 0 {
        lemma_encrypted_prefix(e, iv, first + second, first, m);
        assert(head + Seq::empty() =~= head);
    } else {
        let k = (n - 1) as nat;
        let shorter = second.take((k * 16) as int);
        law_iv_continues(e, iv, first, shorter, m, k);
        assert(first + second =~= first + shorter + second.skip((k * 16) as int));
        lemma_encrypted_prefix(e, iv, first + second, first + shorter, m + k);
        lemma_encrypted_prefix(e, next_iv, second, shorter, k);
        let tail = encrypted(e, next_iv, second, k);
        lemma_encrypted_len(e, next_iv, second, k);
        let front = encrypted(e, iv, first + second, m + k);
        assert(front == head + tail);
        assert(chain(iv, front) =~= chain(next_iv, tail));
        assert(bytes::block_at(first + second, ((m + k) * 16) as int) =~= bytes::block_at(
            second,
            (k * 16) as int,
        ));
        let block = e(
            bytes::xor(bytes::block_at(second, (k * 16) as int), chain(next_iv, tail)),
        );
        assert(head + tail + block =~= head + (tail + block));
    }
}

/// Encryption depends only on the blocks that it covers.
proof fn lemma_encrypted_prefix(
    e: spec_fn(Seq<u8>) -> Seq<u8>,
    iv: Seq<u8>,
    a: Seq<u8>,
    b: Seq<u8>,
    blocks: nat,
)
    requires
        blocks * 16 <= a.len(),
        blocks * 16 <= b.len(),
        forall|i: int| 0 <= i < blocks * 16 ==> a[i] == b[i],
    ensures
        encrypted(e, iv, a, blocks) == encrypted(e, iv, b, blocks),
    decreases blocks,
{
    if blocks > 0 {
        let at = (blocks - 1) * 16;
        lemma_encrypted_prefix(e, iv, a, b, (blocks - 1) as nat);
        assert(bytes::block_at(a, at) =~= bytes::block_at(b, at));
    }
}

} // verus!
