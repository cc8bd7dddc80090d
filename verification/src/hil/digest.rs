//! Interfaces for digests / cryptographic hashes.
//!
//! This module defines the algorithm enum and traits for message digest calculation. The algorithm
//! supplies block and digest sizes.
use crate::error::ErrorCode;
use crate::hil::trace::{Call, Observed, Port};
use vstd::prelude::*;

verus! {

/// Algorithms performing digest calculation.
#[derive(Clone, Copy, Debug, PartialEq, Eq, Structural)]
pub enum Algorithm {
    Md5,
    Sha1,
    Sha224,
    Sha256,
    Sha384,
    Sha512_224,
    Sha512_256,
    Sha512,
}

impl Algorithm {
    /// The length of a digest, in bits.
    pub open spec fn digest_bits(self) -> nat {
        match self {
            Algorithm::Md5 => 128,
            Algorithm::Sha1 => 160,
            Algorithm::Sha224 => 224,
            Algorithm::Sha256 => 256,
            Algorithm::Sha384 => 384,
            Algorithm::Sha512_224 => 224,
            Algorithm::Sha512_256 => 256,
            Algorithm::Sha512 => 512,
        }
    }

    /// The size of a block, in bits: 1024 for the family of SHA-512, 512 for the others.
    pub open spec fn block_bits(self) -> nat {
        match self {
            Algorithm::Md5 | Algorithm::Sha1 | Algorithm::Sha224 | Algorithm::Sha256 => 512,
            _ => 1024,
        }
    }

    /// The length of a digest, in bytes.
    pub open spec fn digest_len(self) -> nat {
        self.digest_bits() / 8
    }

    /// The size of a block, in bytes.
    pub open spec fn block_size(self) -> nat {
        self.block_bits() / 8
    }

    /// Returns length of digest in accordance with passed algorithm in bytes.
    pub fn get_digest_len(&self) -> (len: usize)
        ensures
            len == self.digest_len(),
    {
        match self {
            Algorithm::Md5 => 16,
            Algorithm::Sha1 => 20,
            Algorithm::Sha224 | Algorithm::Sha512_224 => 28,
            Algorithm::Sha256 | Algorithm::Sha512_256 => 32,
            Algorithm::Sha384 => 48,
            Algorithm::Sha512 => 64,
        }
    }

    /// Returns block size in accordance with passed algorithm in bytes.
    ///
    /// Usually used in key calculation at HMAC mode.
    pub fn get_block_size(&self) -> (size: usize)
        ensures
            size == self.block_size(),
    {
        match self {
            Algorithm::Md5 | Algorithm::Sha1 | Algorithm::Sha224 | Algorithm::Sha256 => 64,
            Algorithm::Sha384 | Algorithm::Sha512_224 | Algorithm::Sha512_256
            | Algorithm::Sha512 => 128,
        }
    }
}

/// A digest is whole words and fits in a block.
pub proof fn law_digest_fits_block(algorithm: Algorithm)
    ensures
        algorithm.digest_len() % 4 == 0,
        0 < algorithm.digest_len() <= algorithm.block_size(),
        algorithm.digest_len() * 8 == algorithm.digest_bits(),
        algorithm.block_size() * 8 == algorithm.block_bits(),
{
}

/// The lengths of the digests, in bits, and of the blocks: those of the SHA-2 family are in the name,
/// and a block is 64 bytes up to SHA-256, and twice that from SHA-384 on.
pub proof fn law_lengths_of_the_algorithms()
    ensures
        Algorithm::Md5.digest_len() * 8 == 128,
        Algorithm::Sha1.digest_len() * 8 == 160,
        Algorithm::Sha224.digest_len() * 8 == 224,
        Algorithm::Sha256.digest_len() * 8 == 256,
        Algorithm::Sha384.digest_len() * 8 == 384,
        Algorithm::Sha512.digest_len() * 8 == 512,
        Algorithm::Sha512_224.digest_len() * 8 == 224,
        Algorithm::Sha512_256.digest_len() * 8 == 256,
        Algorithm::Md5.block_size() == 64,
        Algorithm::Sha1.block_size() == 64,
        Algorithm::Sha224.block_size() == 64,
        Algorithm::Sha256.block_size() == 64,
        Algorithm::Sha384.block_size() == 128,
        Algorithm::Sha512.block_size() == 128,
        Algorithm::Sha512_224.block_size() == 128,
        Algorithm::Sha512_256.block_size() == 128,
{
}

/// A driver that computes digests.
pub trait Digest: Observed {
    /// Initiate a hashing operation over `len` bytes.
    ///
    /// `len` must be greater than zero. The input is retrieved through [`Client`] callbacks. The
    /// driver returns exactly [`Algorithm::get_digest_len`] bytes of output, then issues exactly
    /// one [`Client::hash_done`] callback. Callbacks must not occur before this method returns.
    ///
    /// Returns `BUSY` if an operation is in progress, `INVAL` if `len` is zero, or `NOSUPPORT` if
    /// the selected algorithm is unsupported. On `Ok(())`, a completion callback will occur. On
    /// `Err`, no callbacks will occur for this request.
    fn hash(&mut self, algorithm: Algorithm, len: usize) -> (result: Result<(), ErrorCode>)
        requires
            old(self).valid(),
        ensures
            final(self).valid(),
            final(self).log() == old(self).log().push(Call::Hash { algorithm, len, result }),
    ;

    /// Clears any confidential data, or cancels the operation in progress.
    fn clear_data(&mut self)
        requires
            old(self).valid(),
        ensures
            final(self).valid(),
            final(self).log() == old(self).log().push(Call::ClearData),
    ;

    /// Set the client that provides inputs and receives outputs.
    fn set_client(&mut self, client: usize)
        requires
            old(self).valid(),
        ensures
            final(self).valid(),
            final(self).log() == old(self).log().push(Call::SetClient { client }),
    ;
}

/// Client callbacks for [`Digest`] operations.
pub trait Client: Observed {
    /// Retrieve input. Returns the number of bytes written to the front of the buffer.
    ///
    /// The driver may issue this callback multiple times, but must not request more than the `len`
    /// passed to [`Digest::hash`] in total.
    fn read_input(&mut self, input: &mut [u8]) -> (count: Result<usize, ErrorCode>)
        requires
            old(self).valid(),
        ensures
            final(self).valid(),
            final(input)@.len() == old(input)@.len(),
            count matches Ok(count) ==> count <= old(input)@.len(),
            final(self).log() == old(self).log().push(
                Call::Read {
                    port: Port::Input,
                    offered: old(input)@,
                    buffer: final(input)@,
                    count,
                },
            ),
    ;

    /// Return digest output.
    ///
    /// Across all calls, the driver returns exactly [`Algorithm::get_digest_len`] bytes in order.
    fn write_output(&mut self, output: &[u8]) -> (result: Result<(), ErrorCode>)
        requires
            old(self).valid(),
        ensures
            final(self).valid(),
            final(self).log() == old(self).log().push(
                Call::Write { port: Port::Output, data: output@, result },
            ),
    ;

    /// Signal completion of a hashing operation.
    ///
    /// This callback occurs exactly once after a request accepted by [`Digest::hash`]. If a data
    /// callback returns an error, the driver must abort and report that error through `result`.
    fn hash_done(&mut self, result: Result<(), ErrorCode>)
        requires
            old(self).valid(),
        ensures
            final(self).valid(),
            final(self).log() == old(self).log().push(Call::Done { result }),
    ;
}

/// A driver that computes keyed digests.
pub trait Hmac: Digest {
    /// Initiate an HMAC operation over `input_len` bytes with `key_len` bytes as a key.
    ///
    /// `input_len` must be greater than zero. The input is retrieved through [`Client`] callbacks.
    /// The driver returns exactly [`Algorithm::get_digest_len`] bytes of output, then issues
    /// exactly one [`Client::hash_done`] callback.
    ///
    /// `key_len` must not be greater than [`Algorithm::get_block_size`] bytes.
    ///
    /// Returns `BUSY` if an operation is in progress, `INVAL` if `input_len` is zero or `key_len`
    /// is greater than the block size, or `NOSUPPORT` if the selected algorithm is unsupported. On
    /// `Ok(())`, a completion callback will occur. On `Err`, no callbacks will occur for this
    /// request.
    fn authenticate(
        &mut self,
        algorithm: Algorithm,
        input_len: usize,
        key_len: usize,
    ) -> (result: Result<(), ErrorCode>)
        requires
            old(self).valid(),
        ensures
            final(self).valid(),
            final(self).log() == old(self).log().push(
                Call::Authenticate { algorithm, input_len, key_len, result },
            ),
    ;

    /// Set the client that provides key and inputs and receives outputs.
    fn set_hmac_client(&mut self, client: usize)
        requires
            old(self).valid(),
        ensures
            final(self).valid(),
            final(self).log() == old(self).log().push(Call::SetHmacClient { client }),
    ;
}

/// Client callbacks for [`Hmac`] operations.
pub trait HmacClient: Client {
    /// Retrieve the key. Returns the number of bytes written to the front of the buffer.
    ///
    /// The driver provides at most [`Algorithm::get_block_size`] bytes.
    fn read_key(&mut self, key: &mut [u8]) -> (count: Result<usize, ErrorCode>)
        requires
            old(self).valid(),
        ensures
            final(self).valid(),
            final(key)@.len() == old(key)@.len(),
            count matches Ok(count) ==> count <= old(key)@.len(),
            final(self).log() == old(self).log().push(
                Call::Read { port: Port::Key, offered: old(key)@, buffer: final(key)@, count },
            ),
    ;
}

} // verus!
