pub mod modular;
pub mod qpow;
