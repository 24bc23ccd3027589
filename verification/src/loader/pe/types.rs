//! PE/COFF type definitions and constants.
use vstd::prelude::*;

verus! {

#[derive(Clone, Copy)]
pub struct DosHeader {
    pub e_magic: u16,
    pub e_cblp: u16,
    pub e_cp: u16,
    pub e_crlc: u16,
    pub e_cparhdr: u16,
    pub e_minalloc: u16,
    pub e_maxalloc: u16,
    pub e_ss: u16,
    pub e_sp: u16,
    pub e_csum: u16,
    pub e_ip: u16,
    pub e_cs: u16,
    pub e_lfarlc: u16,
    pub e_ovno: u16,
    pub e_res: [u16; 4],
    pub e_oemid: u16,
    pub e_oeminfo: u16,
    pub e_res2: [u16; 10],
    pub e_lfanew: i32,
}

/// "MZ".
pub const DOS_MAGIC: u16 = 0x5A4D;
/// "PE\0\0".
pub const PE_SIGNATURE: u32 = 0x00004550;

#[derive(Clone, Copy)]
pub struct CoffHeader {
    pub machine: u16,
    pub number_of_sections: u16,
    pub time_date_stamp: u32,
    pub pointer_to_symbol_table: u32,
    pub number_of_symbols: u32,
    pub size_of_optional_header: u16,
    pub characteristics: u16,
}

pub const IMAGE_FILE_MACHINE_AMD64: u16 = 0x8664;

pub const IMAGE_FILE_MACHINE_ARM64: u16 = 0xAA64;

#[derive(Clone, Copy)]
pub struct OptionalHeader64 {
    pub magic: u16,
    pub major_linker_version: u8,
    pub minor_linker_version: u8,
    pub size_of_code: u32,
    pub size_of_initialized_data: u32,
    pub size_of_uninitialized_data: u32,
    pub address_of_entry_point: u32,
    pub base_of_code: u32,
    pub image_base: u64,
    pub section_alignment: u32,
    pub file_alignment: u32,
    pub major_os_version: u16,
    pub minor_os_version: u16,
    pub major_image_version: u16,
    pub minor_image_version: u16,
    pub major_subsystem_version: u16,
    pub minor_subsystem_version: u16,
    pub win32_version_value: u32,
    pub size_of_image: u32,
    pub size_of_headers: u32,
    pub checksum: u32,
    pub subsystem: u16,
    pub dll_characteristics: u16,
    pub size_of_stack_reserve: u64,
    pub size_of_stack_commit: u64,
    pub size_of_heap_reserve: u64,
    pub size_of_heap_commit: u64,
    pub loader_flags: u32,
    pub number_of_rva_and_sizes: u32,
}

pub const PE32_PLUS_MAGIC: u16 = 0x020B;

#[derive(Clone, Copy)]
pub struct DataDirectory {
    pub virtual_address: u32,
    pub size: u32,
}

pub const IMAGE_DIRECTORY_ENTRY_EXPORT: usize = 0;

pub const IMAGE_DIRECTORY_ENTRY_IMPORT: usize = 1;

pub const IMAGE_DIRECTORY_ENTRY_RESOURCE: usize = 2;

pub const IMAGE_DIRECTORY_ENTRY_EXCEPTION: usize = 3;

pub const IMAGE_DIRECTORY_ENTRY_TLS: usize = 9;

pub const IMAGE_DIRECTORY_ENTRY_BASERELOC: usize = 5;

pub const IMAGE_DIRECTORY_ENTRY_IAT: usize = 12;

pub const IMAGE_DIRECTORY_ENTRY_DELAY_IMPORT: usize = 13;

pub const IMAGE_NUMBER_OF_DIRECTORY_ENTRIES: usize = 16;

#[derive(Clone, Copy)]
pub struct SectionHeader {
    pub name: [u8; 8],
    pub virtual_size: u32,
    pub virtual_address: u32,
    pub size_of_raw_data: u32,
    pub pointer_to_raw_data: u32,
    pub pointer_to_relocations: u32,
    pub pointer_to_linenumbers: u32,
    pub number_of_relocations: u16,
    pub number_of_linenumbers: u16,
    pub characteristics: u32,
}

pub const IMAGE_SCN_MEM_EXECUTE: u32 = 0x20000000;

pub const IMAGE_SCN_MEM_READ: u32 = 0x40000000;

pub const IMAGE_SCN_MEM_WRITE: u32 = 0x80000000;

#[derive(Clone, Copy)]
pub struct ImportDescriptor {
    pub original_first_thunk: u32,
    pub time_date_stamp: u32,
    pub forwarder_chain: u32,
    pub name: u32,
    pub first_thunk: u32,
}

#[derive(Clone, Copy)]
pub struct DelayImportDescriptor {
    pub attributes: u32,
    pub name: u32,
    pub module_handle: u32,
    pub delay_import_address_table: u32,
    pub delay_import_name_table: u32,
    pub bound_delay_import_table: u32,
    pub unload_delay_import_table: u32,
    pub time_date_stamp: u32,
}

pub const DELAY_IMPORT_ATTR_RVA: u32 = 1;

#[derive(Clone, Copy)]
pub struct BaseRelocation {
    pub virtual_address: u32,
    pub size_of_block: u32,
}

pub const IMAGE_REL_BASED_ABSOLUTE: u16 = 0;

pub const IMAGE_REL_BASED_HIGH: u16 = 1;

pub const IMAGE_REL_BASED_LOW: u16 = 2;

pub const IMAGE_REL_BASED_HIGHLOW: u16 = 3;

pub const IMAGE_REL_BASED_DIR64: u16 = 10;

#[derive(Clone, Copy)]
pub struct ExportDirectory {
    pub characteristics: u32,
    pub time_date_stamp: u32,
    pub major_version: u16,
    pub minor_version: u16,
    pub name: u32,
    pub base: u32,
    pub number_of_functions: u32,
    pub number_of_names: u32,
    pub address_of_functions: u32,
    pub address_of_names: u32,
    pub address_of_name_ordinals: u32,
}

#[derive(Clone, Copy)]
pub struct TlsDirectory64 {
    pub start_address_of_raw_data: u64,
    pub end_address_of_raw_data: u64,
    pub address_of_index: u64,
    pub address_of_callbacks: u64,
    pub size_of_zero_fill: u32,
    pub characteristics: u32,
}

pub const IMAGE_SUBSYSTEM_WINDOWS_CUI: u16 = 3;

pub const DLL_PROCESS_ATTACH: u32 = 1;

} // verus!
