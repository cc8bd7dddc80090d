//! Services on top of the drivers.
pub mod aes;
pub mod aes_laws;
pub mod aes_request_laws;
pub mod aes_software;
pub mod aes_software_laws;
pub mod ecdsa;
pub mod ecdsa_drivers;
pub mod ecdsa_laws;
pub mod ecdsa_request_laws;
pub mod hash;
pub mod hash_laws;
pub mod hash_request_laws;
pub mod hkdf;
pub mod hkdf_laws;
pub mod hkdf_request_laws;
pub mod test;
