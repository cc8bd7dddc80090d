//! Tests of digest drivers that run on a board.
pub mod failure;
pub mod hash;
pub mod hkdf;
pub mod hkdf_laws;
pub mod hmac;
pub mod request_laws;
