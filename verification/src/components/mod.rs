//! Builders of drivers with their mutexes, as boards need them.
pub mod aes128_cipher;
pub mod driver_mutex;
pub mod hash;
pub mod hkdf;
pub mod hmac;
pub mod ieee802154;
pub mod software_aes128;
pub mod software_ccm;
