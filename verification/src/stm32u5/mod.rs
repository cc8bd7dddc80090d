//! Drivers for the accelerators of the STM32U5.
pub mod hash;
pub mod hash_laws;
pub mod hash_request_laws;
pub mod hash_start_laws;
pub mod hash_utils;
pub mod pka;
pub mod pka_constants;
pub mod pka_laws;
pub mod pka_ram;
pub mod pka_start_laws;
