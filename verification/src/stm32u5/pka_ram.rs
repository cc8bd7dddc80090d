//! Long numbers in the RAM of the public key accelerator: words of 32 bits, the least significant
//! first.
use crate::sw::bytes;
use vstd::prelude::*;

verus! {

/// The number of words that hold `len` bytes.
pub open spec fn word_count(len: nat) -> nat {
    (len + 3) / 4
}

/// The bytes of word `i` of a big-endian number.
pub open spec fn limb(data: Seq<u8>, i: int) -> Seq<u8> {
    let end = data.len() - 4 * i;
    let start = if end < 4 {
        0
    } else {
        end - 4
    };
    data.subrange(start, end)
}

/// Word `i` of a big-endian number; word 0 is the least significant.
pub open spec fn word_of(data: Seq<u8>, i: int) -> u32 {
    bytes::be_value(limb(data, i)) as u32
}

/// The RAM with a big-endian number written from word `idx` on, as far as it reaches.
#[verifier::opaque]
pub open spec fn written(ram: Seq<u32>, idx: int, data: Seq<u8>) -> Seq<u32> {
    Seq::new(
        ram.len(),
        |k: int|
            if idx <= k < idx + word_count(data.len()) {
                word_of(data, k - idx)
            } else {
                ram[k]
            },
    )
}

/// Byte `q` of a number, counted from its least significant byte.
pub open spec fn byte_of(ram: Seq<u32>, idx: int, q: int) -> u8 {
    ((ram[idx + q / 4] as nat / bytes::pow256((q % 4) as nat)) % 256) as u8
}

/// A buffer after the number from word `idx` on was read into it, as far as the RAM reaches.
#[verifier::opaque]
pub open spec fn read(ram: Seq<u32>, idx: int, buffer: Seq<u8>) -> Seq<u8> {
    Seq::new(
        buffer.len(),
        |p: int|
            {
                let q = buffer.len() - 1 - p;
                if idx + q / 4 < ram.len() {
                    byte_of(ram, idx, q)
                } else {
                    buffer[p]
                }
            },
    )
}

/// Writing keeps the size of the RAM.
pub broadcast proof fn lemma_written_len(ram: Seq<u32>, idx: int, data: Seq<u8>)
    ensures
        (#[trigger] written(ram, idx, data)).len() == ram.len(),
{
    reveal(written);
}

/// Reading keeps the size of the buffer.
pub broadcast proof fn lemma_read_len(ram: Seq<u32>, idx: int, buffer: Seq<u8>)
    ensures
        (#[trigger] read(ram, idx, buffer)).len() == buffer.len(),
{
    reveal(read);
}

/// The number that words hold, the least significant first.
pub open spec fn words_value(words: Seq<u32>) -> nat
    decreases words.len(),
{
    if words.len() == 0 {
        0
    } else {
        words[0] as nat + 0x1_0000_0000 * words_value(words.drop_first())
    }
}

/// Digit `j` of a big-endian number, counted from its end.
proof fn lemma_digit(data: Seq<u8>, j: nat)
    requires
        j < data.len(),
    ensures
        (bytes::be_value(data) / bytes::pow256(j)) % 256 == data[data.len() - 1 - j],
    decreases j,
{
    if j == 0 {
        let v = bytes::be_value(data);
        assert(v / 1 == v) by (nonlinear_arith);
    } else {
        let front = data.drop_last();
        lemma_digit(front, (j - 1) as nat);
        let v = bytes::be_value(data);
        let p = bytes::pow256((j - 1) as nat);
        assert(v / 256 == bytes::be_value(front));
        lemma_pow256_positive((j - 1) as nat);
        assert(v / (256 * p) == (v / 256) / p) by {
            vstd::arithmetic::div_mod::lemma_div_denominator(v as int, 256, p as int);
        }
        assert(front[front.len() - 1 - (j - 1)] == data[data.len() - 1 - j]);
    }
}

proof fn lemma_pow256_positive(n: nat)
    ensures
        bytes::pow256(n) > 0,
    decreases n,
{
    if n > 0 {
        lemma_pow256_positive((n - 1) as nat);
    }
}

/// A word of a number fits.
proof fn lemma_limb_fits(data: Seq<u8>, i: int)
    requires
        0 <= i < word_count(data.len()),
    ensures
        bytes::be_value(limb(data, i)) <= u32::MAX,
        0 < limb(data, i).len() <= 4,
{
    bytes::lemma_be_value_bound(limb(data, i));
    reveal_with_fuel(bytes::pow256, 5);
    let n = limb(data, i).len();
    assert(n == 1 || n == 2 || n == 3 || n == 4);
}

/// A number that was written is read back.
pub proof fn law_read_after_write(ram: Seq<u32>, idx: int, data: Seq<u8>, buffer: Seq<u8>)
    requires
        0 <= idx,
        idx + word_count(data.len()) <= ram.len(),
        buffer.len() == data.len(),
    ensures
        read(written(ram, idx, data), idx, buffer) == data,
{
    reveal(written);
    reveal(read);
    let later = written(ram, idx, data);
    assert forall|p: int| 0 <= p < data.len() implies #[trigger] read(later, idx, buffer)[p]
        == data[p] by {
        let q = data.len() - 1 - p;
        let i = q / 4;
        lemma_limb_fits(data, i);
        lemma_digit(limb(data, i), (q % 4) as nat);
        assert(limb(data, i)[limb(data, i).len() - 1 - q % 4] == data[p]);
    }
    assert(read(later, idx, buffer) =~= data);
}

/// Writing a number leaves every word outside of it as it was.
pub proof fn law_write_leaves_the_rest(ram: Seq<u32>, idx: int, data: Seq<u8>, k: int)
    requires
        0 <= k < ram.len(),
        k < idx || idx + word_count(data.len()) <= k,
    ensures
        written(ram, idx, data)[k] == ram[k],
{
    reveal(written);
}

/// A word that a number does not reach stays as it was when the number is written.
pub broadcast proof fn lemma_word_after_write(ram: Seq<u32>, idx: int, data: Seq<u8>, k: int)
    requires
        0 <= k < ram.len(),
        k < idx || idx + word_count(data.len()) <= k,
    ensures
        (#[trigger] written(ram, idx, data)[k]) == ram[k],
{
    law_write_leaves_the_rest(ram, idx, data, k);
}

/// Two numbers of `a_len` and `b_len` bytes, from the words `a` and `b` on, share no word.
pub open spec fn apart(a: int, a_len: nat, b: int, b_len: nat) -> bool {
    a + word_count(a_len) <= b || b + word_count(b_len) <= a
}

/// A number is read back as it was written, and one that lies apart as it was before.
pub broadcast proof fn lemma_read_after_write(
    ram: Seq<u32>,
    idx: int,
    data: Seq<u8>,
    at: int,
    buffer: Seq<u8>,
)
    requires
        0 <= idx,
        0 <= at,
    ensures
        #![trigger read(written(ram, idx, data), at, buffer)]
        apart(idx, data.len(), at, buffer.len()) ==> read(written(ram, idx, data), at, buffer)
            == read(ram, at, buffer),
        at == idx && buffer.len() == data.len() && idx + word_count(data.len()) <= ram.len()
            ==> read(written(ram, idx, data), at, buffer) == data,
{
    if at == idx && buffer.len() == data.len() && idx + word_count(data.len()) <= ram.len() {
        law_read_after_write(ram, idx, data, buffer);
    }
    if apart(idx, data.len(), at, buffer.len()) {
        reveal(written);
        reveal(read);
        let later = written(ram, idx, data);
        assert forall|p: int| 0 <= p < buffer.len() implies #[trigger] read(later, at, buffer)[p]
            == read(ram, at, buffer)[p] by {
            let q = buffer.len() - 1 - p;
            assert(q / 4 < word_count(buffer.len()));
        }
        assert(read(later, at, buffer) =~= read(ram, at, buffer));
    }
}

/// A number is read as before after a word apart from it was set.
pub broadcast proof fn lemma_read_after_update(
    ram: Seq<u32>,
    k: int,
    word: u32,
    at: int,
    buffer: Seq<u8>,
)
    requires
        0 <= k < ram.len(),
        0 <= at,
        k < at || at + word_count(buffer.len()) <= k,
    ensures
        #[trigger] read(ram.update(k, word), at, buffer) == read(ram, at, buffer),
{
    reveal(read);
    let later = ram.update(k, word);
    assert forall|p: int| 0 <= p < buffer.len() implies #[trigger] read(later, at, buffer)[p]
        == read(ram, at, buffer)[p] by {
        let q = buffer.len() - 1 - p;
        assert(q / 4 < word_count(buffer.len()));
    }
    assert(read(later, at, buffer) =~= read(ram, at, buffer));
}

/// The words that hold a number are that number.
pub proof fn law_words_hold_the_number(ram: Seq<u32>, idx: int, data: Seq<u8>)
    requires
        0 <= idx,
        idx + word_count(data.len()) <= ram.len(),
    ensures
        words_value(
            written(ram, idx, data).subrange(idx, idx + word_count(data.len())),
        ) == bytes::be_value(data),
{
    reveal(written);
    let words = Seq::new(word_count(data.len()), |i: int| word_of(data, i));
    assert(written(ram, idx, data).subrange(idx, idx + word_count(data.len())) =~= words);
    lemma_words_value(data);
}

proof fn lemma_words_value(data: Seq<u8>)
    ensures
        words_value(Seq::new(word_count(data.len()), |i: int| word_of(data, i)))
            == bytes::be_value(data),
    decreases data.len(),
{
    let words = Seq::new(word_count(data.len()), |i: int| word_of(data, i));
    if data.len() > 0 {
        let n = data.len();
        let front = if n < 4 {
            data.take(0)
        } else {
            data.take(n - 4)
        };
        lemma_words_value(front);
        let rest = Seq::new(word_count(front.len()), |i: int| word_of(front, i));
        assert forall|i: int| 0 <= i < rest.len() implies words.drop_first()[i] == rest[i] by {
            assert(limb(data, i + 1) =~= limb(front, i));
        }
        assert(words.drop_first() =~= rest);
        lemma_limb_fits(data, 0);
        lemma_be_value_split(data, front.len());
        assert(data.skip(front.len() as int) =~= limb(data, 0));
        assert(data.take(front.len() as int) =~= front);
        reveal_with_fuel(bytes::pow256, 5);
        let a = bytes::be_value(front) as int;
        let p = bytes::pow256((n - front.len()) as nat) as int;
        if n < 4 {
            assert(a == 0);
            assert(words_value(rest) == 0);
            assert(a * p == 0) by (nonlinear_arith)
                requires
                    a == 0,
            ;
        } else {
            assert(p == 0x1_0000_0000);
            assert(a * p == 0x1_0000_0000 * a) by (nonlinear_arith)
                requires
                    p == 0x1_0000_0000,
            ;
        }
        assert(words[0] == bytes::be_value(limb(data, 0)));
    }
}

/// A big-endian number is its front, shifted, and its back.
pub proof fn lemma_be_value_split(data: Seq<u8>, at: nat)
    requires
        at <= data.len(),
    ensures
        bytes::be_value(data) == bytes::be_value(data.take(at as int)) * bytes::pow256(
            (data.len() - at) as nat,
        ) + bytes::be_value(data.skip(at as int)),
    decreases data.len() - at,
{
    if at == data.len() {
        let v = bytes::be_value(data);
        assert(data.take(at as int) =~= data);
        assert(v * 1 == v) by (nonlinear_arith);
    } else {
        let front = data.drop_last();
        lemma_be_value_split(front, at);
        assert(front.take(at as int) =~= data.take(at as int));
        assert(front.skip(at as int) =~= data.skip(at as int).drop_last());
        let a = bytes::be_value(data.take(at as int));
        let p = bytes::pow256((front.len() - at) as nat);
        assert((a * p) * 256 == a * (256 * p)) by (nonlinear_arith);
    }
}

/// Writes a big-endian number from word `idx` on.
pub fn write_slice(ram: &mut Vec<u32>, idx: usize, data: &[u8])
    requires
        idx <= old(ram)@.len(),
    ensures
        final(ram)@ == written(old(ram)@, idx as int, data@),
{
    let len: usize = data.len();
    let words: usize = ram.len();
    let count: usize = len / 4 + if len % 4 == 0 {
        0
    } else {
        1
    };
    let mut i: usize = 0;
    while i < count && idx + i < words
        invariant
            i <= count,
            count == word_count(len as nat),
            len == data@.len(),
            words == ram@.len(),
            words == old(ram)@.len(),
            idx + i <= words,
            forall|k: int|
                0 <= k < ram@.len() ==> #[trigger] ram@[k] == (if idx <= k < idx + i {
                    word_of(data@, k - idx)
                } else {
                    old(ram)@[k]
                }),
        decreases count - i,
    {
        let end: usize = len - 4 * i;
        let start: usize = if end < 4 {
            0
        } else {
            end - 4
        };
        let chunk = vstd::slice::slice_subrange(data, start, end);
        proof {
            assert(chunk@ =~= limb(data@, i as int));
            lemma_limb_fits(data@, i as int);
        }
        ram[idx + i] = bytes::read_be(chunk) as u32;
        i = i + 1;
    }
    proof {
        reveal(written);
        assert(ram@ =~= written(old(ram)@, idx as int, data@));
    }
}

/// Reads the number from word `idx` on into a buffer.
pub fn read_slice(ram: &Vec<u32>, idx: usize, buffer: &mut [u8])
    requires
        idx <= ram@.len(),
    ensures
        final(buffer)@ == read(ram@, idx as int, old(buffer)@),
{
    let len: usize = buffer.len();
    let words: usize = ram.len();
    let mut q: usize = 0;
    while q < len && q / 4 < words - idx
        invariant
            q <= len,
            len == buffer@.len(),
            len == old(buffer)@.len(),
            idx <= words,
            words == ram@.len(),
            forall|p: int|
                0 <= p < len ==> #[trigger] buffer@[p] == (if len - 1 - p < q {
                    byte_of(ram@, idx as int, len - 1 - p)
                } else {
                    old(buffer)@[p]
                }),
            q > 0 ==> idx + (q - 1) / 4 < words,
        decreases len - q,
    {
        let divisor: u32 = match q % 4 {
            0 => 1,
            1 => 256,
            2 => 0x1_0000,
            _ => 0x100_0000,
        };
        proof {
            reveal_with_fuel(bytes::pow256, 5);
            assert(divisor == bytes::pow256((q % 4) as nat));
        }
        buffer[len - 1 - q] = (ram[idx + q / 4] / divisor % 256) as u8;
        q = q + 1;
    }
    proof {
        reveal(read);
        assert forall|p: int| 0 <= p < len implies #[trigger] buffer@[p] == read(
            ram@,
            idx as int,
            old(buffer)@,
        )[p] by {
            let r = len - 1 - p;
            if r < q {
                assert(r / 4 <= (q - 1) / 4);
            } else {
                assert(r / 4 >= q as int / 4);
            }
        }
        assert(buffer@ =~= read(ram@, idx as int, old(buffer)@));
    }
}

/// The number of bits of a big-endian number.
pub fn get_bitlen(data: &[u8]) -> (bits: u32)
    requires
        data@.len() * 8 <= u32::MAX,
    ensures
        bits == 0 <==> bytes::be_value(data@) == 0,
        bits > 0 ==> vstd::arithmetic::power2::pow2((bits - 1) as nat) <= bytes::be_value(data@)
            < vstd::arithmetic::power2::pow2(bits as nat),
{
    let len: usize = data.len();
    let mut i: usize = 0;
    proof {
        assert(data@.skip(0) =~= data@);
    }
    while i < len
        invariant
            i <= len,
            len == data@.len(),
            len * 8 <= u32::MAX,
            bytes::be_value(data@) == bytes::be_value(data@.skip(i as int)),
        decreases len - i,
    {
        let byte: u8 = data[i];
        proof {
            assert(data@.skip(i as int) =~= seq![byte] + data@.skip(i + 1));
            bytes::lemma_be_value_prepend(byte, data@.skip(i + 1));
        }
        if byte != 0 {
            let width: u32 = byte_width(byte);
            let remained: u32 = (len - 1 - i) as u32;
            proof {
                lemma_bitlen(byte, width as nat, data@.skip(i + 1));
                vstd::arithmetic::power2::lemma_pow2_pos((width + remained * 8 - 1) as nat);
            }
            return width + remained * 8;
        }
        proof {
            let p = bytes::pow256((len - 1 - i) as nat);
            assert(0 * p == 0) by (nonlinear_arith);
        }
        i = i + 1;
    }
    assert(data@.skip(len as int) =~= Seq::<u8>::empty());
    0
}

/// The number of bits of a byte.
fn byte_width(byte: u8) -> (width: u32)
    requires
        byte > 0,
    ensures
        1 <= width <= 8,
        vstd::arithmetic::power2::pow2((width - 1) as nat) <= byte
            < vstd::arithmetic::power2::pow2(width as nat),
{
    proof {
        vstd::arithmetic::power2::lemma2_to64();
    }
    if byte >= 128 {
        8
    } else if byte >= 64 {
        7
    } else if byte >= 32 {
        6
    } else if byte >= 16 {
        5
    } else if byte >= 8 {
        4
    } else if byte >= 4 {
        3
    } else if byte >= 2 {
        2
    } else {
        1
    }
}

pub proof fn lemma_pow256_is_pow2(n: nat)
    ensures
        bytes::pow256(n) == vstd::arithmetic::power2::pow2(8 * n),
    decreases n,
{
    vstd::arithmetic::power2::lemma2_to64();
    if n > 0 {
        lemma_pow256_is_pow2((n - 1) as nat);
        vstd::arithmetic::power2::lemma_pow2_adds(8, 8 * (n - 1) as nat);
    }
}

pub proof fn lemma_bitlen(byte: u8, width: nat, tail: Seq<u8>)
    requires
        1 <= width <= 8,
        vstd::arithmetic::power2::pow2((width - 1) as nat) <= byte
            < vstd::arithmetic::power2::pow2(width),
    ensures
        vstd::arithmetic::power2::pow2((width + tail.len() * 8 - 1) as nat) <= byte * bytes::pow256(
            tail.len(),
        ) + bytes::be_value(tail) < vstd::arithmetic::power2::pow2(width + tail.len() * 8),
{
    let n = tail.len();
    let p = bytes::pow256(n) as int;
    let low = vstd::arithmetic::power2::pow2((width - 1) as nat) as int;
    let high = vstd::arithmetic::power2::pow2(width) as int;
    let rest = bytes::be_value(tail) as int;
    bytes::lemma_be_value_bound(tail);
    lemma_pow256_is_pow2(n);
    vstd::arithmetic::power2::lemma_pow2_adds((width - 1) as nat, 8 * n);
    vstd::arithmetic::power2::lemma_pow2_adds(width, 8 * n);
    assert(low * p <= byte * p + rest) by (nonlinear_arith)
        requires
            low <= byte,
            0 <= p,
            0 <= rest,
    ;
    assert(byte * p + rest < high * p) by (nonlinear_arith)
        requires
            byte + 1 <= high,
            rest < p,
            0 <= p,
    ;
}

} // verus!
