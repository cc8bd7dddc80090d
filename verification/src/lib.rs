//! Cryptographic drivers of an embedded kernel: cipher modes, digests, key
//! derivation, signatures and the mutex that shares one driver among clients.
pub mod boards;
pub mod capsules;
pub mod components;
pub mod driver_mutex;
pub mod error;
pub mod grant;
pub mod grant_laws;
pub mod hil;
pub mod nrf5x;
pub mod stm32u5;
pub mod sub_slice;
pub mod sw;
