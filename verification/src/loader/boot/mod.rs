//! Loading of programs from the boot archive, page by page.
pub mod contents;
pub mod cpio;
pub mod elf_dynamic;
pub mod elf_loader;
pub mod pe_loader;
pub mod phdr_table;
