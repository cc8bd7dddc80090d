//! Hardware-independent interfaces.
pub mod cipher;
pub mod digest;
pub mod ecc_constants;
pub mod ecc_math;
pub mod modular_arithmetic;
pub mod p256_laws;
pub mod rsa_math;
pub mod trace;
pub mod utilities;
