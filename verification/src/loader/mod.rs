//! ELF and PE image loading.
pub mod boot;
pub mod bytes;
pub mod cpio;
pub mod elf;
pub mod image;
pub mod link_flags;
pub mod link_map;
pub mod pe;
pub mod rtld;
