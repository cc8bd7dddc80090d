//! Interfaces for symmetric block ciphers.
//!
//! This module defines cipher types and mode-specific traits for symmetric encryption and
//! decryption. The cipher type supplies block and key sizes, while each mode has a separate
//! driver trait and client trait, so that implementations and clients expose only the operations
//! and callbacks relevant to that mode.
//!
//! A driver does not hold its client: functions that call back take the client as an argument.
//! A driver knows its client by number, see `set_client`.
use crate::error::ErrorCode;
use crate::hil::trace::{Call, Observed, Port};
use vstd::prelude::*;

verus! {

/// Properties of a symmetric block cipher.
pub trait Cipher {
    /// Block size, in bytes.
    const BLOCK_SIZE: usize;

    /// Encryption key size, in bytes.
    const KEY_SIZE: usize;
}

/// AES with 128-bit keys.
#[derive(Clone, Copy, Debug, PartialEq, Eq, Structural)]
pub struct Aes128;

impl Cipher for Aes128 {
    const BLOCK_SIZE: usize = 16;

    const KEY_SIZE: usize = 16;
}

/// AES with 256-bit keys.
#[derive(Clone, Copy, Debug, PartialEq, Eq, Structural)]
pub struct Aes256;

impl Cipher for Aes256 {
    const BLOCK_SIZE: usize = 16;

    const KEY_SIZE: usize = 32;
}

/// Encryption or decryption.
#[derive(Clone, Copy, Debug, PartialEq, Eq, Structural)]
pub enum Operation {
    Encrypt,
    Decrypt,
}

/// Authentication tag length for Counter with CBC-MAC (CCM) mode.
#[derive(Clone, Copy, Debug, PartialEq, Eq, Structural)]
pub enum CcmTagLength {
    Tag32,
    Tag48,
    Tag64,
    Tag80,
    Tag96,
    Tag112,
    Tag128,
}

impl CcmTagLength {
    /// The tag length, in bits, as the variant's name gives it.
    pub open spec fn bits(self) -> nat {
        match self {
            CcmTagLength::Tag32 => 32,
            CcmTagLength::Tag48 => 48,
            CcmTagLength::Tag64 => 64,
            CcmTagLength::Tag80 => 80,
            CcmTagLength::Tag96 => 96,
            CcmTagLength::Tag112 => 112,
            CcmTagLength::Tag128 => 128,
        }
    }

    /// Return the tag length, in bytes.
    pub fn bytes(&self) -> (len: usize)
        ensures
            len * 8 == self.bits(),
    {
        match self {
            CcmTagLength::Tag32 => 4,
            CcmTagLength::Tag48 => 6,
            CcmTagLength::Tag64 => 8,
            CcmTagLength::Tag80 => 10,
            CcmTagLength::Tag96 => 12,
            CcmTagLength::Tag112 => 14,
            CcmTagLength::Tag128 => 16,
        }
    }
}

/// Authentication tag length for Galois/Counter Mode (GCM).
#[derive(Clone, Copy, Debug, PartialEq, Eq, Structural)]
pub enum GcmTagLength {
    Tag32,
    Tag64,
    Tag96,
    Tag104,
    Tag112,
    Tag120,
    Tag128,
}

impl GcmTagLength {
    /// The tag length, in bits, as the variant's name gives it.
    pub open spec fn bits(self) -> nat {
        match self {
            GcmTagLength::Tag32 => 32,
            GcmTagLength::Tag64 => 64,
            GcmTagLength::Tag96 => 96,
            GcmTagLength::Tag104 => 104,
            GcmTagLength::Tag112 => 112,
            GcmTagLength::Tag120 => 120,
            GcmTagLength::Tag128 => 128,
        }
    }

    /// Return the tag length, in bytes.
    pub fn bytes(&self) -> (len: usize)
        ensures
            len * 8 == self.bits(),
    {
        match self {
            GcmTagLength::Tag32 => 4,
            GcmTagLength::Tag64 => 8,
            GcmTagLength::Tag96 => 12,
            GcmTagLength::Tag104 => 13,
            GcmTagLength::Tag112 => 14,
            GcmTagLength::Tag120 => 15,
            GcmTagLength::Tag128 => 16,
        }
    }
}

/// Counter with Cipher Block Chaining-Message Authentication Code mode.
///
/// CCM mode is specified in NIST SP 800-38C. CCM is only defined for block ciphers with a
/// 16-byte block size.
pub trait Ccm<C: Cipher>: Observed {
    /// Initiate a CCM operation.
    ///
    /// `len` is the length of the plaintext or ciphertext, excluding the authentication tag, and
    /// `associated_data_len` is the length of the associated data. `tag_len` selects the
    /// authentication tag length.
    ///
    /// For encryption, the client provides `len` bytes of plaintext and receives `len` bytes of
    /// ciphertext followed by the authentication tag. For decryption, the client provides `len`
    /// bytes of ciphertext followed by the authentication tag and receives `len` bytes of
    /// plaintext. Associated data is authenticated but is neither encrypted nor returned.
    ///
    /// Returns `BUSY` if an operation is already in progress or `SIZE` if a length exceeds an
    /// implementation limit known when this method is called. On `Ok(())`, exactly one
    /// completion callback will occur. On `Err`, no callbacks will occur for this request.
    fn crypt(
        &mut self,
        len: usize,
        associated_data_len: usize,
        tag_len: CcmTagLength,
        operation: Operation,
    ) -> (result: Result<(), ErrorCode>)
        requires
            old(self).valid(),
        ensures
            final(self).valid(),
            final(self).log() == old(self).log().push(
                Call::CcmCrypt { len, associated_data_len, tag_len, operation, result },
            ),
    ;

    /// Set the client that will receive callbacks for CCM operations.
    fn set_client(&mut self, client: usize)
        requires
            old(self).valid(),
        ensures
            final(self).valid(),
            final(self).log() == old(self).log().push(Call::SetClient { client }),
    ;
}

/// Client callbacks for [`Ccm`] operations.
pub trait CcmClient<C: Cipher>: Observed {
    /// Retrieve the encryption key.
    ///
    /// The driver provides a `key` buffer of exactly `C::KEY_SIZE` bytes. The client fills the
    /// entire buffer before returning `Ok(())`.
    fn read_key(&mut self, key: &mut [u8]) -> (result: Result<(), ErrorCode>)
        requires
            old(self).valid(),
        ensures
            final(self).valid(),
            final(key)@.len() == old(key)@.len(),
            final(self).log() == old(self).log().push(
                Call::Fill { port: Port::Key, offered: old(key)@, buffer: final(key)@, result },
            ),
    ;

    /// Retrieve the nonce.
    ///
    /// The client writes the nonce into `nonce` and returns the number of bytes written. The
    /// driver provides a buffer of at least 13 bytes. A nonce length outside 7 to 13 bytes aborts
    /// the operation with `INVAL`; a payload length that cannot be encoded with the returned
    /// nonce length aborts it with `SIZE`.
    fn read_nonce(&mut self, nonce: &mut [u8]) -> (count: Result<usize, ErrorCode>)
        requires
            old(self).valid(),
        ensures
            final(self).valid(),
            final(nonce)@.len() == old(nonce)@.len(),
            final(self).log() == old(self).log().push(
                Call::Read {
                    port: Port::Nonce,
                    offered: old(nonce)@,
                    buffer: final(nonce)@,
                    count,
                },
            ),
    ;

    /// Retrieve associated data.
    ///
    /// A driver may issue this callback multiple times, but requests no more than the
    /// `associated_data_len` passed to [`Ccm::crypt`] in total.
    fn read_associated_data(&mut self, associated_data: &mut [u8]) -> (count: Result<
        usize,
        ErrorCode,
    >)
        requires
            old(self).valid(),
        ensures
            final(self).valid(),
            final(associated_data)@.len() == old(associated_data)@.len(),
            final(self).log() == old(self).log().push(
                Call::Read {
                    port: Port::AssociatedData,
                    offered: old(associated_data)@,
                    buffer: final(associated_data)@,
                    count,
                },
            ),
    ;

    /// Retrieve plaintext, or ciphertext and its authentication tag.
    ///
    /// For encryption, the client provides exactly the `len` bytes of plaintext specified in
    /// [`Ccm::crypt`]. For decryption, it provides `len` bytes of ciphertext followed by the
    /// selected authentication tag. A driver may issue this callback multiple times, preserving
    /// that byte order.
    fn read_input(&mut self, input: &mut [u8]) -> (count: Result<usize, ErrorCode>)
        requires
            old(self).valid(),
        ensures
            final(self).valid(),
            final(input)@.len() == old(input)@.len(),
            final(self).log() == old(self).log().push(
                Call::Read {
                    port: Port::Input,
                    offered: old(input)@,
                    buffer: final(input)@,
                    count,
                },
            ),
    ;

    /// Return ciphertext and its authentication tag, or authenticated plaintext.
    ///
    /// For decryption, the driver authenticates the complete input before calling this method and
    /// exposes no plaintext if authentication fails.
    fn write_output(&mut self, output: &[u8]) -> (result: Result<(), ErrorCode>)
        requires
            old(self).valid(),
        ensures
            final(self).valid(),
            final(self).log() == old(self).log().push(
                Call::Write { port: Port::Output, data: output@, result },
            ),
    ;

    /// Signal completion of a CCM operation.
    ///
    /// This callback occurs exactly once after a request accepted by [`Ccm::crypt`].
    /// Authentication failure is reported as `FAIL`. If any data callback returns an error, the
    /// driver aborts the operation at once and reports that error through `result`.
    fn crypt_done(&mut self, result: Result<(), ErrorCode>)
        requires
            old(self).valid(),
        ensures
            final(self).valid(),
            final(self).log() == old(self).log().push(Call::Done { result }),
    ;
}

/// Electronic Codebook mode.
///
/// ECB mode is specified in NIST SP 800-38A, section 6.1.
///
/// **Warning:** ECB mode does not protect the confidentiality of messages except in very narrow
/// circumstances. Use with extreme caution.
pub trait Ecb<C: Cipher>: Observed {
    /// Initiate an ECB operation.
    ///
    /// `len` is the length of the plaintext or ciphertext input, in bytes, and must be a multiple
    /// of `C::BLOCK_SIZE`. The output has the same length as the input.
    ///
    /// Returns `BUSY` if an operation is already in progress or `INVAL` if `len` is not a
    /// multiple of the cipher's block size. On `Ok(())`, exactly one completion callback will
    /// occur. On `Err`, no callbacks will occur for this request.
    fn crypt(&mut self, len: usize, operation: Operation) -> (result: Result<(), ErrorCode>)
        requires
            old(self).valid(),
        ensures
            final(self).valid(),
            final(self).log() == old(self).log().push(Call::EcbCrypt { len, operation, result }),
    ;

    /// Set the client that will receive callbacks for ECB operations.
    fn set_client(&mut self, client: usize)
        requires
            old(self).valid(),
        ensures
            final(self).valid(),
            final(self).log() == old(self).log().push(Call::SetClient { client }),
    ;
}

/// Client callbacks for [`Ecb`] operations.
pub trait EcbClient<C: Cipher>: Observed {
    /// Retrieve the encryption key.
    ///
    /// The driver provides a `key` buffer of exactly `C::KEY_SIZE` bytes. The client fills the
    /// entire buffer before returning `Ok(())`.
    fn read_key(&mut self, key: &mut [u8]) -> (result: Result<(), ErrorCode>)
        requires
            old(self).valid(),
        ensures
            final(self).valid(),
            final(key)@.len() == old(key)@.len(),
            final(self).log() == old(self).log().push(
                Call::Fill { port: Port::Key, offered: old(key)@, buffer: final(key)@, result },
            ),
    ;

    /// Retrieve plaintext or ciphertext input.
    ///
    /// A driver may issue this callback multiple times, but requests no more than the `len`
    /// passed to [`Ecb::crypt`] in total.
    fn read_input(&mut self, input: &mut [u8]) -> (count: Result<usize, ErrorCode>)
        requires
            old(self).valid(),
        ensures
            final(self).valid(),
            final(input)@.len() == old(input)@.len(),
            final(self).log() == old(self).log().push(
                Call::Read {
                    port: Port::Input,
                    offered: old(input)@,
                    buffer: final(input)@,
                    count,
                },
            ),
    ;

    /// Return ciphertext or plaintext output.
    ///
    /// A driver may issue this callback multiple times. Across all calls, it returns exactly the
    /// `len` bytes requested by [`Ecb::crypt`], in input order.
    fn write_output(&mut self, output: &[u8]) -> (result: Result<(), ErrorCode>)
        requires
            old(self).valid(),
        ensures
            final(self).valid(),
            final(self).log() == old(self).log().push(
                Call::Write { port: Port::Output, data: output@, result },
            ),
    ;

    /// Signal completion of an ECB operation.
    ///
    /// This callback occurs exactly once after a request accepted by [`Ecb::crypt`]. If any data
    /// callback returns an error, the driver aborts the operation at once and reports that error
    /// through `result`.
    fn crypt_done(&mut self, result: Result<(), ErrorCode>)
        requires
            old(self).valid(),
        ensures
            final(self).valid(),
            final(self).log() == old(self).log().push(Call::Done { result }),
    ;
}

/// Client callbacks for Cipher Block Chaining (CBC) mode, specified in NIST SP 800-38A.
pub trait CbcClient<C: Cipher>: Observed {
    /// Retrieve the encryption key, of exactly `C::KEY_SIZE` bytes.
    fn read_key(&mut self, key: &mut [u8]) -> (result: Result<(), ErrorCode>)
        requires
            old(self).valid(),
        ensures
            final(self).valid(),
            final(key)@.len() == old(key)@.len(),
            final(self).log() == old(self).log().push(
                Call::Fill { port: Port::Key, offered: old(key)@, buffer: final(key)@, result },
            ),
    ;

    /// Retrieve the initialization vector, one block long.
    fn read_iv(&mut self, iv: &mut [u8]) -> (result: Result<(), ErrorCode>)
        requires
            old(self).valid(),
        ensures
            final(self).valid(),
            final(iv)@.len() == old(iv)@.len(),
            final(self).log() == old(self).log().push(
                Call::Fill { port: Port::Iv, offered: old(iv)@, buffer: final(iv)@, result },
            ),
    ;

    /// Retrieve plaintext or ciphertext, in one or several parts.
    fn read_input(&mut self, input: &mut [u8]) -> (count: Result<usize, ErrorCode>)
        requires
            old(self).valid(),
        ensures
            final(self).valid(),
            final(input)@.len() == old(input)@.len(),
            final(self).log() == old(self).log().push(
                Call::Read {
                    port: Port::Input,
                    offered: old(input)@,
                    buffer: final(input)@,
                    count,
                },
            ),
    ;

    /// Return ciphertext or plaintext, in input order.
    fn write_output(&mut self, output: &[u8]) -> (result: Result<(), ErrorCode>)
        requires
            old(self).valid(),
        ensures
            final(self).valid(),
            final(self).log() == old(self).log().push(
                Call::Write { port: Port::Output, data: output@, result },
            ),
    ;

    /// Return the initialization vector with which a further message continues this one.
    fn write_iv(&mut self, iv: &[u8]) -> (result: Result<(), ErrorCode>)
        requires
            old(self).valid(),
        ensures
            final(self).valid(),
            final(self).log() == old(self).log().push(
                Call::Write { port: Port::Iv, data: iv@, result },
            ),
    ;

    /// Signal completion of a CBC operation. This callback occurs exactly once after an accepted
    /// request.
    fn crypt_done(&mut self, result: Result<(), ErrorCode>)
        requires
            old(self).valid(),
        ensures
            final(self).valid(),
            final(self).log() == old(self).log().push(Call::Done { result }),
    ;
}

/// Client callbacks for Counter (CTR) mode, specified in NIST SP 800-38A.
pub trait CtrClient<C: Cipher>: Observed {
    /// Retrieve the encryption key, of exactly `C::KEY_SIZE` bytes.
    fn read_key(&mut self, key: &mut [u8]) -> (result: Result<(), ErrorCode>)
        requires
            old(self).valid(),
        ensures
            final(self).valid(),
            final(key)@.len() == old(key)@.len(),
            final(self).log() == old(self).log().push(
                Call::Fill { port: Port::Key, offered: old(key)@, buffer: final(key)@, result },
            ),
    ;

    /// Retrieve the high-order part of the counter block, which stays fixed.
    fn read_nonce(&mut self, nonce: &mut [u8]) -> (count: Result<usize, ErrorCode>)
        requires
            old(self).valid(),
        ensures
            final(self).valid(),
            final(nonce)@.len() == old(nonce)@.len(),
            final(self).log() == old(self).log().push(
                Call::Read {
                    port: Port::Nonce,
                    offered: old(nonce)@,
                    buffer: final(nonce)@,
                    count,
                },
            ),
    ;

    /// Retrieve the low-order part of the counter block, which counts.
    fn read_counter(&mut self, counter: &mut [u8]) -> (count: Result<usize, ErrorCode>)
        requires
            old(self).valid(),
        ensures
            final(self).valid(),
            final(counter)@.len() == old(counter)@.len(),
            final(self).log() == old(self).log().push(
                Call::Read {
                    port: Port::Counter,
                    offered: old(counter)@,
                    buffer: final(counter)@,
                    count,
                },
            ),
    ;

    /// Retrieve plaintext or ciphertext, in one or several parts.
    fn read_input(&mut self, input: &mut [u8]) -> (count: Result<usize, ErrorCode>)
        requires
            old(self).valid(),
        ensures
            final(self).valid(),
            final(input)@.len() == old(input)@.len(),
            final(self).log() == old(self).log().push(
                Call::Read {
                    port: Port::Input,
                    offered: old(input)@,
                    buffer: final(input)@,
                    count,
                },
            ),
    ;

    /// Return ciphertext or plaintext, in input order.
    fn write_output(&mut self, output: &[u8]) -> (result: Result<(), ErrorCode>)
        requires
            old(self).valid(),
        ensures
            final(self).valid(),
            final(self).log() == old(self).log().push(
                Call::Write { port: Port::Output, data: output@, result },
            ),
    ;

    /// Signal completion of a CTR operation. This callback occurs exactly once after an accepted
    /// request.
    fn crypt_done(&mut self, result: Result<(), ErrorCode>)
        requires
            old(self).valid(),
        ensures
            final(self).valid(),
            final(self).log() == old(self).log().push(Call::Done { result }),
    ;
}

/// Client callbacks for Galois/Counter Mode (GCM), specified in NIST SP 800-38D.
pub trait GcmClient<C: Cipher>: Observed {
    /// Retrieve the encryption key, of exactly `C::KEY_SIZE` bytes.
    fn read_key(&mut self, key: &mut [u8]) -> (result: Result<(), ErrorCode>)
        requires
            old(self).valid(),
        ensures
            final(self).valid(),
            final(key)@.len() == old(key)@.len(),
            final(self).log() == old(self).log().push(
                Call::Fill { port: Port::Key, offered: old(key)@, buffer: final(key)@, result },
            ),
    ;

    /// Retrieve the initialization vector, 12 bytes long.
    fn read_iv(&mut self, iv: &mut [u8]) -> (result: Result<(), ErrorCode>)
        requires
            old(self).valid(),
        ensures
            final(self).valid(),
            final(iv)@.len() == old(iv)@.len(),
            final(self).log() == old(self).log().push(
                Call::Fill { port: Port::Iv, offered: old(iv)@, buffer: final(iv)@, result },
            ),
    ;

    /// Retrieve associated data, in one or several parts.
    fn read_associated_data(&mut self, associated_data: &mut [u8]) -> (count: Result<usize, ErrorCode>)
        requires
            old(self).valid(),
        ensures
            final(self).valid(),
            final(associated_data)@.len() == old(associated_data)@.len(),
            final(self).log() == old(self).log().push(
                Call::Read {
                    port: Port::AssociatedData,
                    offered: old(associated_data)@,
                    buffer: final(associated_data)@,
                    count,
                },
            ),
    ;

    /// Retrieve plaintext or ciphertext, in one or several parts.
    fn read_input(&mut self, input: &mut [u8]) -> (count: Result<usize, ErrorCode>)
        requires
            old(self).valid(),
        ensures
            final(self).valid(),
            final(input)@.len() == old(input)@.len(),
            final(self).log() == old(self).log().push(
                Call::Read {
                    port: Port::Input,
                    offered: old(input)@,
                    buffer: final(input)@,
                    count,
                },
            ),
    ;

    /// Retrieve the authentication tag of the input, when decrypting.
    fn read_tag(&mut self, tag: &mut [u8]) -> (result: Result<(), ErrorCode>)
        requires
            old(self).valid(),
        ensures
            final(self).valid(),
            final(tag)@.len() == old(tag)@.len(),
            final(self).log() == old(self).log().push(
                Call::Fill { port: Port::Tag, offered: old(tag)@, buffer: final(tag)@, result },
            ),
    ;

    /// Return ciphertext or plaintext, in input order.
    fn write_output(&mut self, output: &[u8]) -> (result: Result<(), ErrorCode>)
        requires
            old(self).valid(),
        ensures
            final(self).valid(),
            final(self).log() == old(self).log().push(
                Call::Write { port: Port::Output, data: output@, result },
            ),
    ;

    /// Return the authentication tag, when encrypting.
    fn write_tag(&mut self, tag: &[u8]) -> (result: Result<(), ErrorCode>)
        requires
            old(self).valid(),
        ensures
            final(self).valid(),
            final(self).log() == old(self).log().push(
                Call::Write { port: Port::Tag, data: tag@, result },
            ),
    ;

    /// Signal completion of a GCM operation. This callback occurs exactly once after an accepted
    /// request.
    fn crypt_done(&mut self, result: Result<(), ErrorCode>)
        requires
            old(self).valid(),
        ensures
            final(self).valid(),
            final(self).log() == old(self).log().push(Call::Done { result }),
    ;
}

} // verus!
