//! What CTR is, over any block cipher: NIST SP 800-38A.
use crate::sw::bytes;
use vstd::prelude::*;

verus! {

/// Counter block number `n`: the front stays, the part from `start` on counts.
pub open spec fn counter_at(initial: Seq<u8>, start: nat, n: nat) -> Seq<u8> {
    initial.take(start as int) + bytes::be_bytes(
        bytes::be_value(initial.skip(start as int)) + n,
        (16 - start) as nat,
    )
}

/// The byte that masks byte `i`.
pub open spec fn keystream(
    e: spec_fn(Seq<u8>) -> Seq<u8>,
    initial: Seq<u8>,
    start: nat,
    i: int,
) -> u8 {
    e(counter_at(initial, start, (i / 16) as nat))[i % 16]
}

/// `data` with the first `upto` bytes masked.
pub open spec fn masked(
    e: spec_fn(Seq<u8>) -> Seq<u8>,
    initial: Seq<u8>,
    start: nat,
    data: Seq<u8>,
    upto: int,
) -> Seq<u8> {
    Seq::new(
        data.len(),
        |i: int|
            if i < upto {
                data[i] ^ keystream(e, initial, start, i)
            } else {
                data[i]
            },
    )
}

/// Encryption and decryption are the same: masking twice gives the message back.
pub proof fn law_mask_twice(
    e: spec_fn(Seq<u8>) -> Seq<u8>,
    initial: Seq<u8>,
    start: nat,
    data: Seq<u8>,
)
    ensures
        ({
            let len = data.len() as int;
            masked(e, initial, start, masked(e, initial, start, data, len), len) == data
        }),
{
    let len = data.len() as int;
    let once = masked(e, initial, start, data, len);
    assert forall|i: int| 0 <= i < data.len() implies masked(e, initial, start, once, len)[i]
        == data[i] by {
        let x = data[i];
        let y = keystream(e, initial, start, i);
        assert((x ^ y) ^ y == x) by (bit_vector);
    }
    assert(masked(e, initial, start, once, len) =~= data);
}

/// Counter blocks differ as long as the counter does not wrap.
pub proof fn law_counters_differ(initial: Seq<u8>, start: nat, a: nat, b: nat)
    requires
        initial.len() == 16,
        start <= 16,
        bytes::be_value(initial.skip(start as int)) + a < bytes::pow256((16 - start) as nat),
        bytes::be_value(initial.skip(start as int)) + b < bytes::pow256((16 - start) as nat),
        a != b,
    ensures
        counter_at(initial, start, a) != counter_at(initial, start, b),
{
    let first = bytes::be_value(initial.skip(start as int));
    let n = (16 - start) as nat;
    bytes::law_be_round_trip(first + a, n);
    bytes::law_be_round_trip(first + b, n);
    bytes::lemma_be_bytes_len(first + a, n);
    bytes::lemma_be_bytes_len(first + b, n);
    assert(counter_at(initial, start, a).skip(start as int) =~= bytes::be_bytes(first + a, n));
    assert(counter_at(initial, start, b).skip(start as int) =~= bytes::be_bytes(first + b, n));
}

} // verus!
