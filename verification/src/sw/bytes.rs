//! Sequences of bytes, blocks and big-endian numbers.
use vstd::prelude::*;

verus! {

/// `len` zero bytes.
pub open spec fn zeros(len: nat) -> Seq<u8> {
    Seq::new(len, |i: int| 0u8)
}

/// The smaller of two numbers.
pub open spec fn least(a: nat, b: nat) -> nat {
    if a < b {
        a
    } else {
        b
    }
}

/// The exclusive or of two sequences, as long as the first.
pub open spec fn xor(a: Seq<u8>, b: Seq<u8>) -> Seq<u8> {
    Seq::new(a.len(), |i: int| a[i] ^ b[i])
}

/// The 16 bytes of `data` from `start` on, with zeros beyond its end.
pub open spec fn block_at(data: Seq<u8>, start: int) -> Seq<u8> {
    Seq::new(
        16,
        |i: int|
            if start + i < data.len() {
                data[start + i]
            } else {
                0u8
            },
    )
}

/// The number of 16-byte blocks that hold `len` bytes.
pub open spec fn block_count(len: nat) -> nat {
    (len + 15) / 16
}

/// `value` as a big-endian number of `len` bytes; higher bytes are cut off.
pub open spec fn be_bytes(value: nat, len: nat) -> Seq<u8>
    decreases len,
{
    if len == 0 {
        Seq::empty()
    } else {
        be_bytes(value / 256, (len - 1) as nat).push((value % 256) as u8)
    }
}

/// The number that `bytes` is in big-endian order.
pub open spec fn be_value(bytes: Seq<u8>) -> nat
    decreases bytes.len(),
{
    if bytes.len() == 0 {
        0
    } else {
        be_value(bytes.drop_last()) * 256 + bytes.last() as nat
    }
}

/// 256 to the power of `n`.
pub open spec fn pow256(n: nat) -> nat
    decreases n,
{
    if n == 0 {
        1
    } else {
        256 * pow256((n - 1) as nat)
    }
}

/// `be_bytes` is as long as it says.
pub broadcast proof fn lemma_be_bytes_len(value: nat, len: nat)
    ensures
        (#[trigger] be_bytes(value, len)).len() == len,
    decreases len,
{
    if len > 0 {
        lemma_be_bytes_len(value / 256, (len - 1) as nat);
    }
}

/// A big-endian number is less than its length allows.
pub proof fn lemma_be_value_bound(bytes: Seq<u8>)
    ensures
        be_value(bytes) < pow256(bytes.len()),
    decreases bytes.len(),
{
    if bytes.len() > 0 {
        lemma_be_value_bound(bytes.drop_last());
    }
}

/// Reading a big-endian number gives back what was written, where it fits.
pub proof fn law_be_round_trip(value: nat, len: nat)
    requires
        value < pow256(len),
    ensures
        be_value(be_bytes(value, len)) == value,
    decreases len,
{
    if len > 0 {
        lemma_be_bytes_len(value / 256, (len - 1) as nat);
        law_be_round_trip(value / 256, (len - 1) as nat);
        assert(be_bytes(value, len).drop_last() =~= be_bytes(value / 256, (len - 1) as nat));
    }
}

/// A byte in front of a big-endian number weighs as much as the number is long.
pub proof fn lemma_be_value_prepend(byte: u8, tail: Seq<u8>)
    ensures
        be_value(seq![byte] + tail) == byte * pow256(tail.len()) + be_value(tail),
    decreases tail.len(),
{
    let all = seq![byte] + tail;
    if tail.len() == 0 {
        assert(all.drop_last() =~= Seq::<u8>::empty());
        assert(be_value(all.drop_last()) == 0);
        assert(all.last() == byte);
        let p = pow256(0);
        assert(byte * p == byte) by (nonlinear_arith)
            requires
                p == 1,
        ;
    } else {
        assert(all.drop_last() =~= seq![byte] + tail.drop_last());
        lemma_be_value_prepend(byte, tail.drop_last());
        assert(all.last() == tail.last());
        let p = pow256((tail.len() - 1) as nat);
        assert((byte * p) * 256 == byte * (256 * p)) by (nonlinear_arith);
    }
}

/// The largest number of a length.
pub proof fn lemma_be_value_full(bytes: Seq<u8>)
    requires
        forall|i: int| 0 <= i < bytes.len() ==> #[trigger] bytes[i] == 255,
    ensures
        be_value(bytes) + 1 == pow256(bytes.len()),
    decreases bytes.len(),
{
    if bytes.len() > 0 {
        lemma_be_value_full(bytes.drop_last());
    }
}

/// Counting up: trailing bytes of 255 become 0, and the byte at `at` in front of them grows by one.
pub proof fn lemma_be_value_increment(before: Seq<u8>, after: Seq<u8>, at: int)
    requires
        before.len() == after.len(),
        0 <= at < before.len(),
        before[at] < 255,
        after[at] == before[at] + 1,
        forall|i: int| 0 <= i < at ==> #[trigger] after[i] == before[i],
        forall|i: int| at < i < before.len() ==> #[trigger] before[i] == 255,
        forall|i: int| at < i < before.len() ==> #[trigger] after[i] == 0,
    ensures
        be_value(after) == be_value(before) + 1,
    decreases before.len(),
{
    if at == before.len() - 1 {
        assert(after.drop_last() =~= before.drop_last());
    } else {
        lemma_be_value_increment(before.drop_last(), after.drop_last(), at);
    }
}

/// Two big-endian numbers of the same length are equal only if their bytes are.
pub proof fn lemma_be_value_injective(a: Seq<u8>, b: Seq<u8>)
    requires
        a.len() == b.len(),
        be_value(a) == be_value(b),
    ensures
        a == b,
    decreases a.len(),
{
    if a.len() > 0 {
        lemma_be_value_injective(a.drop_last(), b.drop_last());
        assert(a =~= a.drop_last().push(a.last()));
        assert(b =~= b.drop_last().push(b.last()));
    } else {
        assert(a =~= b);
    }
}

/// Writing the number that was read gives the same bytes.
pub proof fn law_be_bytes_of_value(bytes: Seq<u8>)
    ensures
        be_bytes(be_value(bytes), bytes.len()) == bytes,
    decreases bytes.len(),
{
    if bytes.len() > 0 {
        law_be_bytes_of_value(bytes.drop_last());
        assert(bytes =~= bytes.drop_last().push(bytes.last()));
    } else {
        assert(be_bytes(0, 0) =~= bytes);
    }
}

/// Exclusive or with the same bytes twice changes nothing.
pub proof fn lemma_xor_twice(a: Seq<u8>, b: Seq<u8>)
    ensures
        xor(xor(a, b), b) == a,
{
    assert forall|i: int| 0 <= i < a.len() implies (a[i] ^ b[i]) ^ b[i] == a[i] by {
        let x = a[i];
        let y = b[i];
        assert((x ^ y) ^ y == x) by (bit_vector);
    }
    assert(xor(xor(a, b), b) =~= a);
}

/// So many zero bytes.
pub fn zero_bytes(len: usize) -> (zeros: Vec<u8>)
    ensures
        zeros@ == self::zeros(len as nat),
{
    let mut zeros: Vec<u8> = Vec::new();
    while zeros.len() < len
        invariant
            zeros@.len() <= len,
            zeros@ == self::zeros(zeros@.len()),
        decreases len - zeros@.len(),
    {
        zeros.push(0);
        assert(zeros@ =~= self::zeros(zeros@.len()));
    }
    zeros
}

/// Copies `source` into `target` from `start` on.
pub fn copy_into(target: &mut [u8], start: usize, source: &[u8])
    requires
        start + source@.len() <= old(target)@.len(),
    ensures
        final(target)@.len() == old(target)@.len(),
        forall|i: int|
            0 <= i < final(target)@.len() ==> #[trigger] final(target)@[i] == (if start <= i
                < start + source@.len() {
                source@[i - start]
            } else {
                old(target)@[i]
            }),
{
    let room: usize = target.len();
    let mut n: usize = 0;
    while n < source.len()
        invariant
            n <= source@.len(),
            room == target@.len(),
            start + source@.len() <= target@.len(),
            target@.len() == old(target)@.len(),
            forall|i: int|
                0 <= i < target@.len() ==> #[trigger] target@[i] == (if start <= i < start + n {
                    source@[i - start]
                } else {
                    old(target)@[i]
                }),
        decreases source@.len() - n,
    {
        target[start + n] = source[n];
        n = n + 1;
    }
}

/// Returns the exclusive or of two blocks.
pub fn xor_blocks(a: [u8; 16], b: [u8; 16]) -> (c: [u8; 16])
    ensures
        c@ == xor(a@, b@),
{
    let mut c = a;
    let mut i: usize = 0;
    while i < 16
        invariant
            i <= 16,
            forall|j: int| 0 <= j < i ==> #[trigger] c@[j] == a@[j] ^ b@[j],
            forall|j: int| i <= j < 16 ==> #[trigger] c@[j] == a@[j],
        decreases 16 - i,
    {
        c[i] = a[i] ^ b[i];
        i = i + 1;
    }
    assert(c@ =~= xor(a@, b@));
    c
}

/// Writes `value` in big-endian order to the `len` bytes of `target` before `end`.
pub fn write_be(target: &mut [u8], end: usize, value: u128, len: usize)
    requires
        len <= end <= old(target)@.len(),
    ensures
        final(target)@ == old(target)@.take(end - len) + be_bytes(value as nat, len as nat) + old(target)@.skip(end as int),
{
    let mut remaining: u128 = value;
    let mut n: usize = 0;
    proof {
        assert(be_bytes(value as nat, len as nat) =~= be_bytes(value as nat, len as nat)
            + target@.subrange(end as int, end as int));
    }
    while n < len
        invariant
            n <= len <= end <= target@.len(),
            target@.len() == old(target)@.len(),
            forall|i: int|
                0 <= i < target@.len() && !(end - n <= i < end) ==> #[trigger] target@[i] == old(target)@[i],
            be_bytes(value as nat, len as nat) == be_bytes(remaining as nat, (len - n) as nat)
                + target@.subrange(end - n, end as int),
        decreases len - n,
    {
        let at: usize = end - 1 - n;
        let ghost before = target@;
        let ghost rest = remaining as nat;
        target[at] = (remaining % 256) as u8;
        remaining = remaining / 256;
        n = n + 1;
        proof {
            let tail = (len - n) as nat;
            assert(be_bytes(rest, (tail + 1) as nat) == be_bytes(rest / 256, tail).push(
                (rest % 256) as u8,
            ));
            assert(target@.subrange(end - n, end as int) =~= seq![(rest % 256) as u8]
                + before.subrange(end - n + 1, end as int));
            assert(be_bytes(rest, (tail + 1) as nat) + before.subrange(end - n + 1, end as int)
                =~= be_bytes(rest / 256, tail) + target@.subrange(end - n, end as int));
        }
    }
    proof {
        assert(be_bytes(remaining as nat, 0) =~= Seq::<u8>::empty());
        lemma_be_bytes_len(value as nat, len as nat);
        let want = old(target)@.take(end - len) + be_bytes(value as nat, len as nat) + old(target)@.skip(end as int);
        assert(be_bytes(value as nat, len as nat) =~= target@.subrange(end - len, end as int));
        assert(target@ =~= want);
    }
}

/// Reads the big-endian number in `bytes`, at most 16 bytes long.
pub fn read_be(bytes: &[u8]) -> (value: u128)
    requires
        bytes@.len() <= 16,
    ensures
        value == be_value(bytes@),
{
    let len: usize = bytes.len();
    let mut value: u128 = 0;
    let mut n: usize = 0;
    assert(bytes@.take(0) =~= Seq::<u8>::empty());
    while n < len
        invariant
            n <= len <= 16,
            len == bytes@.len(),
            value == be_value(bytes@.take(n as int)),
        decreases len - n,
    {
        proof {
            assert(bytes@.take(n + 1).drop_last() =~= bytes@.take(n as int));
            lemma_be_value_bound(bytes@.take(n as int));
            lemma_pow256_below(n as nat);
        }
        value = value * 256 + bytes[n] as u128;
        n = n + 1;
    }
    assert(bytes@.take(len as int) =~= bytes@);
    value
}

/// Fifteen bytes hold less than 120 bits.
pub proof fn lemma_pow256_below(n: nat)
    requires
        n <= 15,
    ensures
        pow256(n) <= 0x1_00_0000_0000_0000_0000_0000_0000_0000,
        n <= 14 ==> pow256(n) <= 0x1_0000_0000_0000_0000_0000_0000_0000,
{
    reveal_with_fuel(pow256, 16);
}

} // verus!
