//! What boards decide.
pub mod nucleo_u545re_q;
pub mod pka_tester;
