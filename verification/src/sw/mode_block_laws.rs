//! What CBC and CTR make of each block.
use crate::sw::bytes;
use crate::sw::cbc_math;
use crate::sw::ctr_math;
use vstd::prelude::*;

verus! {

/// What ciphertext block `n` is chained to, byte by byte: the initialization vector for the first, and
/// the ciphertext block before for the others.
pub open spec fn chained_to(iv: Seq<u8>, ciphertext: Seq<u8>, n: int, j: int) -> u8 {
    if n == 0 {
        iv[j]
    } else {
        ciphertext[16 * (n - 1) + j]
    }
}

/// More blocks leave the earlier ones as they are.
proof fn lemma_encrypted_front(
    e: spec_fn(Seq<u8>) -> Seq<u8>,
    iv: Seq<u8>,
    data: Seq<u8>,
    n: nat,
    blocks: nat,
)
    requires
        forall|block: Seq<u8>| (#[trigger] e(block)).len() == 16,
        n <= blocks,
    ensures
        cbc_math::encrypted(e, iv, data, blocks).take((16 * n) as int) == cbc_math::encrypted(
            e,
            iv,
            data,
            n,
        ),
    decreases blocks,
{
    cbc_math::lemma_encrypted_len(e, iv, data, n);
    cbc_math::lemma_encrypted_len(e, iv, data, blocks);
    let all = cbc_math::encrypted(e, iv, data, blocks);
    if n < blocks {
        let k = (blocks - 1) as nat;
        lemma_encrypted_front(e, iv, data, n, k);
        cbc_math::lemma_encrypted_len(e, iv, data, k);
        let front = cbc_math::encrypted(e, iv, data, k);
        assert(all.take((16 * n) as int) =~= front.take((16 * n) as int));
    } else {
        assert(all.take((16 * n) as int) =~= all);
    }
}

/// More blocks leave the earlier ones as they are.
proof fn lemma_decrypted_front(
    d: spec_fn(Seq<u8>) -> Seq<u8>,
    iv: Seq<u8>,
    data: Seq<u8>,
    n: nat,
    blocks: nat,
)
    requires
        forall|block: Seq<u8>| (#[trigger] d(block)).len() == 16,
        n <= blocks,
    ensures
        cbc_math::decrypted(d, iv, data, blocks).take((16 * n) as int) == cbc_math::decrypted(
            d,
            iv,
            data,
            n,
        ),
    decreases blocks,
{
    cbc_math::lemma_decrypted_len(d, iv, data, n);
    cbc_math::lemma_decrypted_len(d, iv, data, blocks);
    let all = cbc_math::decrypted(d, iv, data, blocks);
    if n < blocks {
        let k = (blocks - 1) as nat;
        lemma_decrypted_front(d, iv, data, n, k);
        cbc_math::lemma_decrypted_len(d, iv, data, k);
        let front = cbc_math::decrypted(d, iv, data, k);
        assert(all.take((16 * n) as int) =~= front.take((16 * n) as int));
    } else {
        assert(all.take((16 * n) as int) =~= all);
    }
}

/// CBC encrypts block `n` of the message combined, by exclusive or, with the ciphertext block before
/// it, and the first with the initialization vector; the ciphertext has the length of the message.
pub proof fn law_cbc_encrypts_chained_blocks(
    e: spec_fn(Seq<u8>) -> Seq<u8>,
    iv: Seq<u8>,
    data: Seq<u8>,
    blocks: nat,
    n: nat,
    combined: Seq<u8>,
)
    requires
        forall|block: Seq<u8>| (#[trigger] e(block)).len() == 16,
        iv.len() == 16,
        data.len() == 16 * blocks,
        n < blocks,
        combined.len() == 16,
        forall|j: int|
            0 <= j < 16 ==> #[trigger] combined[j] == data[16 * n + j] ^ chained_to(
                iv,
                cbc_math::encrypted(e, iv, data, blocks),
                n as int,
                j,
            ),
    ensures
        cbc_math::encrypted(e, iv, data, blocks).len() == data.len(),
        cbc_math::encrypted(e, iv, data, blocks).subrange((16 * n) as int, (16 * n + 16) as int) == e(
            combined,
        ),
{
    let all = cbc_math::encrypted(e, iv, data, blocks);
    cbc_math::lemma_encrypted_len(e, iv, data, blocks);
    cbc_math::lemma_encrypted_len(e, iv, data, n);
    cbc_math::lemma_encrypted_len(e, iv, data, n + 1);
    lemma_encrypted_front(e, iv, data, n, blocks);
    lemma_encrypted_front(e, iv, data, n + 1, blocks);
    let front = cbc_math::encrypted(e, iv, data, n);
    let more = cbc_math::encrypted(e, iv, data, n + 1);
    let chain = cbc_math::chain(iv, front);
    let block = bytes::xor(bytes::block_at(data, (16 * n) as int), chain);
    assert forall|j: int| 0 <= j < 16 implies block[j] == combined[j] by {
        if n > 0 {
            assert(chain[j] == front[16 * (n - 1) + j]);
            assert(front[16 * (n - 1) + j] == all.take((16 * n) as int)[16 * (n - 1) + j]);
        }
    }
    assert(block =~= combined);
    assert(((n + 1) - 1) * 16 == 16 * n);
    assert(more == front + e(block));
    assert(all.subrange((16 * n) as int, (16 * n + 16) as int) =~= all.take(
        (16 * (n + 1)) as int,
    ).subrange((16 * n) as int, (16 * n + 16) as int));
    assert(more.subrange((16 * n) as int, (16 * n + 16) as int) =~= e(block));
}

/// CBC decrypts block `n` of a ciphertext and combines it, by exclusive or, with the ciphertext block
/// before it, and the first with the initialization vector.
pub proof fn law_cbc_decrypts_chained_blocks(
    d: spec_fn(Seq<u8>) -> Seq<u8>,
    iv: Seq<u8>,
    data: Seq<u8>,
    blocks: nat,
    n: nat,
    j: nat,
)
    requires
        forall|block: Seq<u8>| (#[trigger] d(block)).len() == 16,
        iv.len() == 16,
        data.len() == 16 * blocks,
        n < blocks,
        j < 16,
    ensures
        cbc_math::decrypted(d, iv, data, blocks).len() == data.len(),
        cbc_math::decrypted(d, iv, data, blocks)[(16 * n + j) as int] == d(
            data.subrange((16 * n) as int, (16 * n + 16) as int),
        )[j as int] ^ chained_to(iv, data, n as int, j as int),
{
    let all = cbc_math::decrypted(d, iv, data, blocks);
    cbc_math::lemma_decrypted_len(d, iv, data, blocks);
    cbc_math::lemma_decrypted_len(d, iv, data, n);
    cbc_math::lemma_decrypted_len(d, iv, data, n + 1);
    lemma_decrypted_front(d, iv, data, n + 1, blocks);
    let front = cbc_math::decrypted(d, iv, data, n);
    let more = cbc_math::decrypted(d, iv, data, n + 1);
    let before = data.take((16 * n) as int);
    assert(((n + 1) - 1) * 16 == 16 * n);
    assert(bytes::block_at(data, (16 * n) as int) =~= data.subrange(
        (16 * n) as int,
        (16 * n + 16) as int,
    ));
    assert(more == front + bytes::xor(
        d(bytes::block_at(data, (16 * n) as int)),
        cbc_math::chain(iv, before),
    ));
    assert(all.take((16 * (n + 1)) as int)[16 * n + j as int] == all[16 * n + j as int]);
    if n > 0 {
        assert(cbc_math::chain(iv, before)[j as int] == data[16 * (n - 1) + j as int]);
    }
}

/// What continues a message is its last ciphertext block, and the initialization vector itself where
/// there is none.
pub proof fn law_last_block_continues(iv: Seq<u8>, ciphertext: Seq<u8>, j: int)
    requires
        ciphertext.len() == 0 || ciphertext.len() >= 16,
        iv.len() == 16,
        0 <= j < 16,
    ensures
        cbc_math::chain(iv, ciphertext).len() == 16,
        cbc_math::chain(iv, ciphertext)[j] == (if ciphertext.len() == 0 {
            iv[j]
        } else {
            ciphertext[ciphertext.len() - 16 + j]
        }),
{
}

/// The counter blocks of CTR keep their front and count by one from block to block: block `n` holds
/// `n` more than the first, as long as that fits, and no other block does.
pub proof fn law_ctr_counts_by_one(initial: Seq<u8>, start: nat, n: nat, block: Seq<u8>)
    requires
        initial.len() == 16,
        start <= 16,
        bytes::be_value(initial.skip(start as int)) + n < bytes::pow256((16 - start) as nat),
    ensures
        ctr_math::counter_at(initial, start, 0) == initial,
        block == ctr_math::counter_at(initial, start, n) <==> {
            &&& block.len() == 16
            &&& block.take(start as int) == initial.take(start as int)
            &&& bytes::be_value(block.skip(start as int)) == bytes::be_value(
                initial.skip(start as int),
            ) + n
        },
{
    let first = bytes::be_value(initial.skip(start as int));
    let k = (16 - start) as nat;
    let right = ctr_math::counter_at(initial, start, n);
    bytes::lemma_be_bytes_len(first + n, k);
    bytes::lemma_be_bytes_len(first, k);
    bytes::law_be_round_trip(first + n, k);
    bytes::law_be_bytes_of_value(initial.skip(start as int));
    assert(ctr_math::counter_at(initial, start, 0) =~= initial.take(start as int) + initial.skip(
        start as int,
    ));
    assert(initial =~= initial.take(start as int) + initial.skip(start as int));
    assert(right.skip(start as int) =~= bytes::be_bytes(first + n, k));
    assert(right.take(start as int) =~= initial.take(start as int));
    if block.len() == 16 && block.take(start as int) == initial.take(start as int)
        && bytes::be_value(block.skip(start as int)) == first + n {
        bytes::lemma_be_value_injective(block.skip(start as int), right.skip(start as int));
        assert(block =~= block.take(start as int) + block.skip(start as int));
        assert(right =~= right.take(start as int) + right.skip(start as int));
    }
}

/// CTR masks byte `j` of block `n` with byte `j` of the encrypted counter block `n`; the length
/// stays.
pub proof fn law_ctr_masks_each_byte(
    e: spec_fn(Seq<u8>) -> Seq<u8>,
    initial: Seq<u8>,
    start: nat,
    data: Seq<u8>,
    n: nat,
    j: nat,
    counter: Seq<u8>,
)
    requires
        initial.len() == 16,
        start <= 16,
        j < 16,
        16 * n + j < data.len(),
        counter.len() == 16,
        counter.take(start as int) == initial.take(start as int),
        bytes::be_value(counter.skip(start as int)) == bytes::be_value(initial.skip(start as int))
            + n,
        bytes::be_value(initial.skip(start as int)) + n < bytes::pow256((16 - start) as nat),
    ensures
        ({
            let masked = ctr_math::masked(e, initial, start, data, data.len() as int);
            &&& masked.len() == data.len()
            &&& masked[(16 * n + j) as int] == data[(16 * n + j) as int] ^ e(counter)[j as int]
        }),
{
    law_ctr_counts_by_one(initial, start, n, counter);
    let i = 16 * n + j;
    assert(i / 16 == n && i % 16 == j);
}

} // verus!
