//! PE/COFF images.
pub mod export;
pub mod header;
pub mod import;
pub mod memory_image;
pub mod reloc;
pub mod run_plan;
pub mod types;
