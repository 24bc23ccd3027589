//! ELF64 images.
pub mod dynamic;
pub mod header;
pub mod loader;
pub mod reloc;
pub mod run_plan;
pub mod symbol;
pub mod tls;
pub mod types;
