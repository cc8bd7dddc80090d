//! What blocks and exclusive or are, whatever they are made of.
use crate::sw::bytes;
use vstd::prelude::*;

verus! {

/// `data` followed by as many zeros as fill up its last block.
pub open spec fn padded(data: Seq<u8>) -> Seq<u8> {
    data + bytes::zeros(((16 - data.len() % 16) % 16) as nat)
}

/// The blocks of a message are no more than hold it, and one after the other they are the message,
/// filled up with zeros: fewer than a block of them.
pub proof fn law_blocks_make_the_message(data: Seq<u8>)
    ensures
        ({
            let blocks = bytes::block_count(data.len());
            &&& data.len() <= 16 * blocks < data.len() + 16
            &&& padded(data).len() == 16 * blocks
            &&& padded(data).take(data.len() as int) == data
            &&& forall|i: int| data.len() <= i < 16 * blocks ==> #[trigger] padded(data)[i] == 0
            &&& forall|n: int|
                0 <= n < blocks ==> #[trigger] bytes::block_at(data, 16 * n) == padded(
                    data,
                ).subrange(16 * n, 16 * n + 16)
        }),
{
    let blocks = bytes::block_count(data.len());
    assert(padded(data).take(data.len() as int) =~= data);
    assert forall|n: int| 0 <= n < blocks implies #[trigger] bytes::block_at(data, 16 * n)
        == padded(data).subrange(16 * n, 16 * n + 16) by {
        assert(bytes::block_at(data, 16 * n) =~= padded(data).subrange(16 * n, 16 * n + 16));
    }
}

/// Bit `n` of an exclusive or is set exactly if it is set in one of the two bytes.
pub proof fn law_exclusive_or_bit_by_bit(a: Seq<u8>, b: Seq<u8>, i: int, n: u8)
    requires
        0 <= i < a.len(),
        n < 8,
    ensures
        bytes::xor(a, b).len() == a.len(),
        ((bytes::xor(a, b)[i] >> n) & 1 == 1) == (((a[i] >> n) & 1 == 1) != ((b[i] >> n) & 1
            == 1)),
{
    let (x, y) = (a[i], b[i]);
    assert((((x ^ y) >> n) & 1 == 1) == (((x >> n) & 1 == 1) != ((y >> n) & 1 == 1)))
        by (bit_vector)
        requires
            n < 8,
    ;
}

/// Exclusive or does not depend on the order, zeros change nothing, what is done twice is undone, and
/// the same bytes cancel each other out.
pub proof fn law_exclusive_or_cancels(a: Seq<u8>, b: Seq<u8>)
    requires
        a.len() == b.len(),
    ensures
        bytes::xor(a, b) == bytes::xor(b, a),
        bytes::xor(a, bytes::zeros(a.len())) == a,
        bytes::xor(bytes::xor(a, b), b) == a,
        bytes::xor(a, a) == bytes::zeros(a.len()),
{
    assert forall|i: int| 0 <= i < a.len() implies {
        &&& a[i] ^ b[i] == b[i] ^ a[i]
        &&& #[trigger] a[i] ^ 0u8 == a[i]
        &&& a[i] ^ a[i] == 0u8
    } by {
        let (x, y) = (a[i], b[i]);
        assert(x ^ y == y ^ x && x ^ 0u8 == x && x ^ x == 0u8) by (bit_vector);
    }
    bytes::lemma_xor_twice(a, b);
    assert(bytes::xor(a, b) =~= bytes::xor(b, a));
    assert(bytes::xor(a, bytes::zeros(a.len())) =~= a);
    assert(bytes::xor(a, a) =~= bytes::zeros(a.len()));
}

/// A number of `len` bytes: its last byte is the number modulo 256, and what comes before it is the
/// number divided by 256, so the bytes weigh powers of 256 from the end on.
pub proof fn law_big_endian(value: nat, len: nat)
    requires
        0 < len,
        value < bytes::pow256(len),
    ensures
        bytes::be_bytes(value, len).len() == len,
        bytes::be_bytes(value, len).last() == value % 256,
        bytes::be_value(bytes::be_bytes(value, len)) == value,
        bytes::be_value(bytes::be_bytes(value, len).drop_last()) == value / 256,
{
    bytes::lemma_be_bytes_len(value, len);
    bytes::lemma_be_bytes_len(value / 256, (len - 1) as nat);
    bytes::law_be_round_trip(value, len);
    let front = bytes::be_bytes(value / 256, (len - 1) as nat);
    assert(bytes::be_bytes(value, len).drop_last() =~= front);
    assert(value / 256 < bytes::pow256((len - 1) as nat));
    bytes::law_be_round_trip(value / 256, (len - 1) as nat);
}

} // verus!
