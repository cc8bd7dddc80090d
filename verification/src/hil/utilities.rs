//! Digest algorithms as types.
use crate::error::ErrorCode;
use crate::hil::digest::Algorithm;
use vstd::prelude::*;

verus! {

/// Proof that a digest of some algorithm is configured.
pub trait ModeToken {

}

pub struct Sha512Token;

pub struct Sha512_224Token;

pub struct Sha512_256Token;

pub struct Sha256Token;

pub struct Sha224Token;

pub struct Sha1Token;

pub struct Sha384Token;

pub struct Md5Token;

impl ModeToken for Sha512Token {

}

impl ModeToken for Sha512_224Token {

}

impl ModeToken for Sha512_256Token {

}

impl ModeToken for Sha256Token {

}

impl ModeToken for Sha224Token {

}

impl ModeToken for Sha1Token {

}

impl ModeToken for Sha384Token {

}

impl ModeToken for Md5Token {

}

/// An algorithm, with its token where it holds one.
pub enum DigestMode {
    Md5(Option<Md5Token>),
    Sha1(Option<Sha1Token>),
    Sha224(Option<Sha224Token>),
    Sha256(Option<Sha256Token>),
    Sha384(Option<Sha384Token>),
    Sha512_224(Option<Sha512_224Token>),
    Sha512_256(Option<Sha512_256Token>),
    Sha512(Option<Sha512Token>),
}

impl DigestMode {
    /// The mode holds a token.
    pub open spec fn has_token(self) -> bool {
        match self {
            DigestMode::Md5(token) => token is Some,
            DigestMode::Sha1(token) => token is Some,
            DigestMode::Sha224(token) => token is Some,
            DigestMode::Sha256(token) => token is Some,
            DigestMode::Sha384(token) => token is Some,
            DigestMode::Sha512_224(token) => token is Some,
            DigestMode::Sha512_256(token) => token is Some,
            DigestMode::Sha512(token) => token is Some,
        }
    }

    /// Whether the slot of the mode is free to be taken: it still holds its token.
    pub fn is_empty(&self) -> (empty: bool)
        ensures
            empty == self.has_token(),
    {
        match self {
            DigestMode::Md5(Some(_)) | DigestMode::Sha1(Some(_)) | DigestMode::Sha224(Some(_))
            | DigestMode::Sha256(Some(_)) | DigestMode::Sha384(Some(_))
            | DigestMode::Sha512_224(Some(_)) | DigestMode::Sha512_256(Some(_))
            | DigestMode::Sha512(Some(_)) => true,
            _ => false,
        }
    }
}

impl Default for DigestMode {
    fn default() -> (mode: Self)
        ensures
            mode == DigestMode::Sha256(None),
    {
        DigestMode::Sha256(None)
    }
}

/// Sizes and types of an algorithm.
pub trait Algotithm {
    /// Length of a digest, in bytes.
    const DIGEST_LEN: usize;

    /// Size of a block, in bytes.
    const BLOCK_SIZE: usize;

    /// A digest.
    type Slice;

    /// The token of the algorithm.
    type Token: ModeToken;
}

pub struct Sha512;

impl Algotithm for Sha512 {
    const DIGEST_LEN: usize = 64;

    const BLOCK_SIZE: usize = 128;

    type Slice = [u8; 64];

    type Token = Sha512Token;
}

pub struct Sha512_256;

impl Algotithm for Sha512_256 {
    const DIGEST_LEN: usize = 32;

    const BLOCK_SIZE: usize = 128;

    type Slice = [u8; 32];

    type Token = Sha512_256Token;
}

pub struct Sha512_224;

impl Algotithm for Sha512_224 {
    const DIGEST_LEN: usize = 28;

    const BLOCK_SIZE: usize = 128;

    type Slice = [u8; 28];

    type Token = Sha512_224Token;
}

pub struct Sha384;

impl Algotithm for Sha384 {
    const DIGEST_LEN: usize = 48;

    const BLOCK_SIZE: usize = 128;

    type Slice = [u8; 48];

    type Token = Sha384Token;
}

pub struct Sha256;

impl Algotithm for Sha256 {
    const DIGEST_LEN: usize = 32;

    const BLOCK_SIZE: usize = 64;

    type Slice = [u8; 32];

    type Token = Sha256Token;
}

pub struct Sha224;

impl Algotithm for Sha224 {
    const DIGEST_LEN: usize = 28;

    const BLOCK_SIZE: usize = 64;

    type Slice = [u8; 28];

    type Token = Sha224Token;
}

pub struct Sha1;

impl Algotithm for Sha1 {
    const DIGEST_LEN: usize = 20;

    const BLOCK_SIZE: usize = 64;

    type Slice = [u8; 20];

    type Token = Sha1Token;
}

pub struct Md5;

impl Algotithm for Md5 {
    const DIGEST_LEN: usize = 16;

    const BLOCK_SIZE: usize = 64;

    type Slice = [u8; 16];

    type Token = Md5Token;
}

/// A digest, by its length.
pub enum DigestSlice {
    Slice16([u8; 16]),
    Slice20([u8; 20]),
    Slice28([u8; 28]),
    Slice32([u8; 32]),
    Slice48([u8; 48]),
    Slice64([u8; 64]),
}

impl DigestSlice {
    /// The bytes of the digest.
    pub open spec fn bytes(self) -> Seq<u8> {
        match self {
            DigestSlice::Slice16(digest) => digest@,
            DigestSlice::Slice20(digest) => digest@,
            DigestSlice::Slice28(digest) => digest@,
            DigestSlice::Slice32(digest) => digest@,
            DigestSlice::Slice48(digest) => digest@,
            DigestSlice::Slice64(digest) => digest@,
        }
    }

    /// Takes a digest whose length is that of one of the algorithms; gives it back with `INVAL` if
    /// it has another length.
    pub fn new<'a>(digest: &'a [u8]) -> (slice: Result<Self, (ErrorCode, &'a [u8])>)
        ensures
            slice is Ok <==> is_digest_len(digest@.len()),
            slice matches Ok(slice) ==> slice.bytes() == digest@,
            slice matches Err((error, given)) ==> error == ErrorCode::INVAL && given == digest,
    {
        assert(Algorithm::Md5.digest_len() == 16 && Algorithm::Sha1.digest_len() == 20);
        assert(Algorithm::Sha224.digest_len() == 28 && Algorithm::Sha256.digest_len() == 32);
        assert(Algorithm::Sha384.digest_len() == 48 && Algorithm::Sha512.digest_len() == 64);
        match digest.len() {
            16 => {
                let mut bytes = [0u8;16];
                crate::sw::bytes::copy_into(&mut bytes, 0, digest);
                assert(bytes@ =~= digest@);
                Ok(DigestSlice::Slice16(bytes))
            },
            20 => {
                let mut bytes = [0u8;20];
                crate::sw::bytes::copy_into(&mut bytes, 0, digest);
                assert(bytes@ =~= digest@);
                Ok(DigestSlice::Slice20(bytes))
            },
            28 => {
                let mut bytes = [0u8;28];
                crate::sw::bytes::copy_into(&mut bytes, 0, digest);
                assert(bytes@ =~= digest@);
                Ok(DigestSlice::Slice28(bytes))
            },
            32 => {
                let mut bytes = [0u8;32];
                crate::sw::bytes::copy_into(&mut bytes, 0, digest);
                assert(bytes@ =~= digest@);
                Ok(DigestSlice::Slice32(bytes))
            },
            48 => {
                let mut bytes = [0u8;48];
                crate::sw::bytes::copy_into(&mut bytes, 0, digest);
                assert(bytes@ =~= digest@);
                Ok(DigestSlice::Slice48(bytes))
            },
            64 => {
                let mut bytes = [0u8;64];
                crate::sw::bytes::copy_into(&mut bytes, 0, digest);
                assert(bytes@ =~= digest@);
                Ok(DigestSlice::Slice64(bytes))
            },
            _ => Err((ErrorCode::INVAL, digest)),
        }
    }
}

/// The length of a digest of one of the algorithms.
pub open spec fn is_digest_len(len: nat) -> bool {
    exists|algorithm: Algorithm|
        len == #[trigger] algorithm.digest_len()
}

/// The lengths that a digest can have, in bytes.
pub proof fn law_digest_lengths(len: nat)
    ensures
        is_digest_len(len) <==> len == 16 || len == 20 || len == 28 || len == 32 || len == 48 || len
            == 64,
{
    assert(Algorithm::Md5.digest_len() == 16 && Algorithm::Sha1.digest_len() == 20);
    assert(Algorithm::Sha224.digest_len() == 28 && Algorithm::Sha256.digest_len() == 32);
    assert(Algorithm::Sha384.digest_len() == 48 && Algorithm::Sha512.digest_len() == 64);
}

} // verus!
