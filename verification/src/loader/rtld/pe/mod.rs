//! Linking of PE modules at startup.
pub mod imports;
pub mod modules;
pub mod order;
pub mod tls;
