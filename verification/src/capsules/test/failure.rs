//! What stops a test.
use crate::error::ErrorCode;
use crate::sw::bytes;
use vstd::prelude::*;

verus! {

/// Why a test has failed. Whoever runs the test panics with it; the test itself goes no further.
#[derive(Clone, Copy, Debug, PartialEq, Eq, Structural)]
pub enum Failure {
    /// The driver asked for no bytes, or for some where none are left: `offset` is not below the
    /// size of the buffer.
    NothingToRead { offset: usize, size: usize },
    /// The driver wrote past the end of the expected output.
    TooMuchOutput { offset: usize, size: usize },
    /// The driver wrote another byte than this one at this index.
    Mismatch { expected: u8, index: usize },
    /// A buffer has not the length that the algorithm asks for.
    WrongLength { wanted: usize, got: usize },
    /// A buffer is not at hand.
    MissingBuffer,
    /// The mutex did not take the request.
    Request(ErrorCode),
    /// The driver did not start.
    NotStarted(ErrorCode),
    /// The driver reported an error.
    Driver(ErrorCode),
}

/// The position of the first byte of `data` that differs from what is expected from `offset` on.
pub open spec fn first_mismatch(expected: Seq<u8>, offset: nat, data: Seq<u8>) -> Option<nat>
    decreases data.len(),
{
    if data.len() == 0 {
        None
    } else {
        match first_mismatch(expected, offset, data.drop_last()) {
            Some(index) => Some(index),
            None => if expected[offset + data.len() - 1] == data.last() {
                None
            } else {
                Some((data.len() - 1) as nat)
            },
        }
    }
}

/// Data that agrees everywhere is what is expected, and only such data.
pub proof fn lemma_first_mismatch(expected: Seq<u8>, offset: nat, data: Seq<u8>)
    requires
        offset + data.len() <= expected.len(),
    ensures
        match first_mismatch(expected, offset, data) {
            None => data == expected.subrange(offset as int, (offset + data.len()) as int),
            Some(index) => {
                &&& index < data.len()
                &&& expected[(offset + index) as int] != data[index as int]
                &&& data.take(index as int) == expected.subrange(
                    offset as int,
                    (offset + index) as int,
                )
            },
        },
    decreases data.len(),
{
    if data.len() == 0 {
        assert(data =~= expected.subrange(offset as int, offset as int));
    } else {
        let front = data.drop_last();
        lemma_first_mismatch(expected, offset, front);
        match first_mismatch(expected, offset, front) {
            Some(index) => {
                assert(data.take(index as int) =~= front.take(index as int));
            },
            None => {
                let last = data.len() - 1;
                assert(data.take(last) =~= front);
                if expected[offset + last] == data.last() {
                    assert(data =~= expected.subrange(
                        offset as int,
                        (offset + data.len()) as int,
                    ));
                }
            },
        }
    }
}

/// Finds the first byte of `data` that differs from what is expected from `offset` on.
pub fn find_mismatch(expected: &[u8], offset: usize, data: &[u8]) -> (index: Option<usize>)
    requires
        offset + data@.len() <= expected@.len(),
    ensures
        match first_mismatch(expected@, offset as nat, data@) {
            Some(position) => index matches Some(index) && index == position,
            None => index is None,
        },
{
    let total: usize = expected.len();
    let mut i: usize = 0;
    while i < data.len()
        invariant
            i <= data@.len(),
            offset + data@.len() <= expected@.len(),
            expected@.len() == total,
            first_mismatch(expected@, offset as nat, data@.take(i as int)) is None,
        decreases data@.len() - i,
    {
        proof {
            assert(data@.take(i + 1).drop_last() =~= data@.take(i as int));
        }
        if expected[offset + i] != data[i] {
            proof {
                assert(first_mismatch(expected@, offset as nat, data@.take(i + 1)) == Some(
                    i as nat,
                ));
                lemma_mismatch_stays(expected@, offset as nat, data@, i as nat + 1);
            }
            return Some(i);
        }
        i = i + 1;
    }
    assert(data@.take(i as int) =~= data@);
    None
}

/// A mismatch in the front is the first mismatch.
proof fn lemma_mismatch_stays(expected: Seq<u8>, offset: nat, data: Seq<u8>, len: nat)
    requires
        len <= data.len(),
        first_mismatch(expected, offset, data.take(len as int)) is Some,
    ensures
        first_mismatch(expected, offset, data) == first_mismatch(
            expected,
            offset,
            data.take(len as int),
        ),
    decreases data.len(),
{
    if len == data.len() {
        assert(data.take(len as int) =~= data);
    } else {
        let front = data.drop_last();
        assert(front.take(len as int) =~= data.take(len as int));
        lemma_mismatch_stays(expected, offset, front, len);
    }
}

/// What a driver gets when it asks for `len` bytes of a buffer from `offset` on.
pub open spec fn next_piece(buffer: Seq<u8>, offset: nat, len: nat) -> Option<Seq<u8>> {
    if offset >= buffer.len() || len == 0 {
        None
    } else {
        let end = if offset + len < buffer.len() {
            offset + len
        } else {
            buffer.len()
        };
        Some(buffer.subrange(offset as int, end as int))
    }
}

/// Copies the next piece of a buffer to the front of another one.
pub fn copy_piece(source: &[u8], offset: usize, destination: &mut [u8]) -> (count: Option<usize>)
    ensures
        final(destination)@.len() == old(destination)@.len(),
        match next_piece(source@, offset as nat, old(destination)@.len()) {
            Some(piece) => {
                &&& count matches Some(count) && count == piece.len()
                &&& piece.len() <= old(destination)@.len()
                &&& offset + piece.len() <= source@.len() <= usize::MAX
                &&& final(destination)@ == piece + old(destination)@.skip(piece.len() as int)
            },
            None => count is None && final(destination)@ == old(destination)@,
        },
{
    let room: usize = destination.len();
    if offset >= source.len() || room == 0 {
        return None;
    }
    let left: usize = source.len() - offset;
    let read_len: usize = if room < left {
        room
    } else {
        left
    };
    let ghost given = destination@;
    let piece: &[u8] = vstd::slice::slice_subrange(source, offset, offset + read_len);
    bytes::copy_into(destination, 0, piece);
    assert(destination@ =~= piece@ + given.skip(read_len as int));
    Some(read_len)
}

} // verus!
