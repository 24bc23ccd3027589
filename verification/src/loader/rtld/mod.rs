//! The runtime linker.
pub mod cap;
pub mod elf;
pub mod image_sink;
pub mod io;
pub mod main;
pub mod mem;
pub mod pe;
pub mod runtime;
pub mod serial;
pub mod state;
