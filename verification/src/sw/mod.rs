//! Cipher modes in software over a block cipher driver.
pub mod bytes;
pub mod bytes_laws;
pub mod cbc;
pub mod cbc_laws;
pub mod cbc_math;
pub mod ccm;
pub mod ccm_format_laws;
pub mod ccm_laws;
pub mod ccm_math;
pub mod ctr;
pub mod ctr_laws;
pub mod ctr_math;
pub mod gcm;
pub mod gcm_format_laws;
pub mod gcm_laws;
pub mod gcm_math;
pub mod gf_laws;
pub mod mode_block_laws;
pub mod mode_end_laws;
pub mod mode_start_laws;
pub mod session;
pub mod session_laws;
