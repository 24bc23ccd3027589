//! Linking of ELF objects at startup and at runtime.
pub mod arena;
pub mod dlfcn;
pub mod load;
pub mod object;
pub mod scope;
pub mod startup;
pub mod tables;
pub mod tls;
