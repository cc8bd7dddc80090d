//! Drivers for the accelerators of the nRF5x.
pub mod ccm;
pub mod ccm_packet_laws;
pub mod ccm_registers;
pub mod ecb;
pub mod ecb_laws;
