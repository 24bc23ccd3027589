//! PE32+ loading plans for a child address space.
//!
//! The same page-by-page strategy as the ELF loader: [`pe_load`] decides which
//! pages there are, what is copied into each, with which permissions it is
//! mapped, and which words the base relocations change.
//! [`pe_resolve_imports`] lists the symbols that an image imports, and where
//! their addresses go.
use crate::loader::boot::elf_loader::{
    after_page, lemma_after_page, lemma_page_index, load_state_ok, page_index, pages_aligned,
    LoadState, LoadStep, PageCopy, PageEntry, PageFlags,
};
use crate::loader::bytes::{
    c_len, field, has_record, le_u16, le_u32, le_u64, lemma_c_len, lemma_field_16, lemma_field_32,
    lemma_field_64, lemma_write_read_u64, overwrite, read_u16, read_u32, read_u64, u64_bytes,
    write_u64,
};
use crate::loader::elf::header::Arch;
use crate::loader::elf::types::{page_ceil, page_floor};
use crate::loader::pe::header::{
    is_pe_headers, lemma_headers_are_adjacent, pe_machine_of, pe_offset, section_at, sections_of,
    sections_offset, PeHeaders, SectionView,
};
use crate::loader::pe::types::{
    DataDirectory, DOS_MAGIC, IMAGE_FILE_MACHINE_AMD64, IMAGE_FILE_MACHINE_ARM64,
    IMAGE_SCN_MEM_EXECUTE, IMAGE_SCN_MEM_WRITE, PE32_PLUS_MAGIC, PE_SIGNATURE,
};
use vstd::prelude::*;

verus! {

/// Most pages that one PE image may have.
pub const MAX_PE_PAGES: usize = 512;

/// Most sections that one PE image may have.
pub const MAX_PE_SECTIONS: usize = 32;

/// Most imported modules that are listed.
pub const MAX_PE_IMPORTS: usize = 16;

/// Longest name of an imported module that is listed.
pub const MAX_PE_IMPORT_NAME: usize = 32;

/// Sections marked with this bit are not loaded.
pub const IMAGE_SCN_MEM_DISCARDABLE: u32 = 0x0200_0000;

/// Why a PE image cannot be loaded.
#[derive(Clone, Copy, PartialEq, Eq, Debug, Structural)]
pub enum PeLoadError {
    TooSmall,
    NotPe,
    Not64Bit,
    BadArch,
    NoSections,
    OutOfMemory,
    MapFailed,
    RelocFailed,
    BadImport,
}

/// Header information extracted by [`pe_validate`].
#[derive(Clone, Copy, PartialEq, Eq, Debug, Structural)]
pub struct PeInfo {
    /// Offset of the COFF header from the start of the file.
    pub coff_offset: usize,
    pub machine: u16,
    pub number_of_sections: u16,
    pub size_of_optional_header: u16,
    pub characteristics: u16,
    /// Entry point RVA.
    pub entry_point_rva: u32,
    /// Preferred image base.
    pub image_base: u64,
    pub section_alignment: u32,
    pub file_alignment: u32,
    /// Total virtual size of the loaded image.
    pub size_of_image: u32,
    /// Size of all headers.
    pub size_of_headers: u32,
    /// Number of data directory entries.
    pub number_of_rva_and_sizes: u32,
    /// Offset of the first section header from file start.
    pub section_headers_offset: usize,
    /// Offset of the data directory array from file start.
    pub data_dir_offset: usize,
}

impl PeInfo {
    /// Header information of nothing.
    pub fn zeroed() -> (r: PeInfo)
        ensures
            r == (PeInfo {
                coff_offset: 0,
                machine: 0,
                number_of_sections: 0,
                size_of_optional_header: 0,
                characteristics: 0,
                entry_point_rva: 0,
                image_base: 0,
                section_alignment: 0,
                file_alignment: 0,
                size_of_image: 0,
                size_of_headers: 0,
                number_of_rva_and_sizes: 0,
                section_headers_offset: 0,
                data_dir_offset: 0,
            }),
    {
        PeInfo {
            coff_offset: 0,
            machine: 0,
            number_of_sections: 0,
            size_of_optional_header: 0,
            characteristics: 0,
            entry_point_rva: 0,
            image_base: 0,
            section_alignment: 0,
            file_alignment: 0,
            size_of_image: 0,
            size_of_headers: 0,
            number_of_rva_and_sizes: 0,
            section_headers_offset: 0,
            data_dir_offset: 0,
        }
    }
}

/// Why `s` is not a loadable PE file; `None` if it is.
pub open spec fn pe_load_error(s: Seq<u8>, arch: Arch) -> Option<PeLoadError> {
    let p = pe_offset(s);
    if s.len() < 64 {
        Some(PeLoadError::TooSmall)
    } else if le_u16(s, 0) != 0x5A4D {
        Some(PeLoadError::NotPe)
    } else if p >= 0x8000_0000 || p + 24 > s.len() {
        Some(PeLoadError::TooSmall)
    } else if le_u32(s, p) != 0x4550 {
        Some(PeLoadError::NotPe)
    } else if le_u16(s, p + 4) != pe_machine_of(arch) {
        Some(PeLoadError::BadArch)
    } else if le_u16(s, p + 6) == 0 {
        Some(PeLoadError::NoSections)
    } else if p + 136 > s.len() {
        Some(PeLoadError::TooSmall)
    } else if le_u16(s, p + 24) != 0x020B {
        Some(PeLoadError::Not64Bit)
    } else if p + 24 + le_u16(s, p + 20) + le_u16(s, p + 6) * 40 > s.len() {
        Some(PeLoadError::TooSmall)
    } else {
        None
    }
}

/// The header information of the loadable PE file `s`.
pub open spec fn pe_info_of(s: Seq<u8>) -> PeInfo {
    let p = pe_offset(s);
    PeInfo {
        coff_offset: (p + 4) as usize,
        machine: le_u16(s, p + 4),
        number_of_sections: le_u16(s, p + 6),
        size_of_optional_header: le_u16(s, p + 20),
        characteristics: le_u16(s, p + 22),
        entry_point_rva: le_u32(s, p + 40),
        image_base: le_u64(s, p + 48),
        section_alignment: le_u32(s, p + 56),
        file_alignment: le_u32(s, p + 60),
        size_of_image: le_u32(s, p + 80),
        size_of_headers: le_u32(s, p + 84),
        number_of_rva_and_sizes: le_u32(s, p + 132),
        section_headers_offset: (p + 24 + le_u16(s, p + 20)) as usize,
        data_dir_offset: (p + 136) as usize,
    }
}

/// Validates a PE file and extracts header information.
///
/// Checks the DOS magic, the PE signature, the machine, and that the headers
/// and the section table are in the file.
pub fn pe_validate(data: &[u8], arch: Arch) -> (r: Result<PeInfo, PeLoadError>)
    ensures
        match pe_load_error(data@, arch) {
            Some(e) => r == Err::<PeInfo, PeLoadError>(e),
            None => r == Ok::<PeInfo, PeLoadError>(pe_info_of(data@)) && info_in(
                pe_info_of(data@),
                data@.len() as int,
            ),
        },
{
    let len: u64 = data.len() as u64;
    if len < 64 {
        return Err(PeLoadError::TooSmall);
    }
    if read_u16(data, 0) != DOS_MAGIC {
        return Err(PeLoadError::NotPe);
    }
    let lfanew: u32 = read_u32(data, 60);
    if lfanew >= 0x8000_0000 || lfanew as u64 + 24 > len {
        return Err(PeLoadError::TooSmall);
    }
    let p: usize = lfanew as usize;
    if read_u32(data, p) != PE_SIGNATURE {
        return Err(PeLoadError::NotPe);
    }
    let machine: u16 = read_u16(data, p + 4);
    let wanted: u16 = match arch {
        Arch::X86_64 => IMAGE_FILE_MACHINE_AMD64,
        Arch::Aarch64 => IMAGE_FILE_MACHINE_ARM64,
    };
    if machine != wanted {
        return Err(PeLoadError::BadArch);
    }
    let number_of_sections: u16 = read_u16(data, p + 6);
    if number_of_sections == 0 {
        return Err(PeLoadError::NoSections);
    }
    if p as u64 + 136 > len {
        return Err(PeLoadError::TooSmall);
    }
    if read_u16(data, p + 24) != PE32_PLUS_MAGIC {
        return Err(PeLoadError::Not64Bit);
    }
    let size_of_optional_header: u16 = read_u16(data, p + 20);
    let sections: u64 = p as u64 + 24 + size_of_optional_header as u64;
    if sections + number_of_sections as u64 * 40 > len {
        return Err(PeLoadError::TooSmall);
    }
    Ok(
        PeInfo {
            coff_offset: p + 4,
            machine,
            number_of_sections,
            size_of_optional_header,
            characteristics: read_u16(data, p + 22),
            entry_point_rva: read_u32(data, p + 40),
            image_base: read_u64(data, p + 48),
            section_alignment: read_u32(data, p + 56),
            file_alignment: read_u32(data, p + 60),
            size_of_image: read_u32(data, p + 80),
            size_of_headers: read_u32(data, p + 84),
            number_of_rva_and_sizes: read_u32(data, p + 132),
            section_headers_offset: sections as usize,
            data_dir_offset: p + 136,
        },
    )
}

/// The section table of `info` lies in a file of length `len`.
pub open spec fn info_in(info: PeInfo, len: int) -> bool {
    info.section_headers_offset + info.number_of_sections * 40 <= len && info.data_dir_offset <= len
}

/// Section `i` of `info` in `s`.
pub open spec fn info_section(s: Seq<u8>, info: PeInfo, i: int) -> SectionView {
    section_at(s, info.section_headers_offset + 40 * i)
}

/// Data directory `index` of `info` in `s`; zero if it is not declared or not in
/// the file.
pub open spec fn info_directory(s: Seq<u8>, info: PeInfo, index: int) -> DataDirectory {
    let off = info.data_dir_offset + index * 8;
    if index >= info.number_of_rva_and_sizes || off + 8 > s.len() {
        DataDirectory { virtual_address: 0, size: 0 }
    } else {
        DataDirectory { virtual_address: le_u32(s, off), size: le_u32(s, off + 4) }
    }
}

fn read_data_dir(data: &[u8], info: &PeInfo, index: usize) -> (r: DataDirectory)
    requires
        index < 16,
        info.data_dir_offset <= data@.len(),
    ensures
        r == info_directory(data@, *info, index as int),
{
    let len: u128 = data.len() as u128;
    let off: u128 = info.data_dir_offset as u128 + index as u128 * 8;
    if index >= info.number_of_rva_and_sizes as usize || off + 8 > len {
        return DataDirectory { virtual_address: 0, size: 0 };
    }
    DataDirectory {
        virtual_address: read_u32(data, off as usize),
        size: read_u32(data, off as usize + 4),
    }
}

/// Mapping permissions of a section. If it is both writable and executable,
/// writable wins.
pub open spec fn section_flags(characteristics: u32) -> PageFlags {
    PageFlags {
        writable: characteristics & 0x8000_0000 != 0,
        executable: characteristics & 0x8000_0000 == 0 && characteristics & 0x2000_0000 != 0,
    }
}

fn section_to_vspace_flags(characteristics: u32) -> (r: PageFlags)
    ensures
        r == section_flags(characteristics),
{
    let w: bool = characteristics & IMAGE_SCN_MEM_WRITE != 0;
    let x: bool = characteristics & IMAGE_SCN_MEM_EXECUTE != 0;
    PageFlags { writable: w, executable: !w && x }
}

/// Counts the pages needed to load a PE image; 0 if it is not loadable.
pub fn pe_count_load_pages(data: &[u8], arch: Arch) -> (r: usize)
    ensures
        r == if pe_load_error(data@, arch) is None {
            page_ceil(pe_info_of(data@).size_of_image as int) / 4096
        } else {
            0
        },
{
    match pe_validate(data, arch) {
        Ok(info) => (((info.size_of_image as u64 + 4095) / 4096 * 4096) / 4096) as usize,
        Err(_) => 0,
    }
}

/// Computes the size of the address range that a PE image needs; 0 if it is not
/// loadable.
pub fn pe_compute_load_span(data: &[u8], arch: Arch) -> (r: u64)
    ensures
        r == if pe_load_error(data@, arch) is None {
            page_ceil(pe_info_of(data@).size_of_image as int)
        } else {
            0
        },
{
    match pe_validate(data, arch) {
        Ok(info) => (info.size_of_image as u64 + 4095) / 4096 * 4096,
        Err(_) => 0,
    }
}

/// Checks whether a buffer starts with the DOS magic.
pub fn pe_is_pe(data: &[u8]) -> (r: bool)
    ensures
        r == (data@.len() >= 2 && le_u16(data@, 0) == 0x5A4D),
{
    data.len() >= 2 && read_u16(data, 0) == DOS_MAGIC
}

// ---------------------------------------------------------------------------
// Pages
// ---------------------------------------------------------------------------

/// The state after a page is loaded; `None` if there is no room for a new one.
pub open spec fn pe_after_page(
    state: LoadState,
    page: int,
    flags: PageFlags,
    copy: Option<PageCopy>,
) -> Option<LoadState> {
    if page_index(state.pages, page, 0) >= state.pages.len() && state.pages.len() >= 512 {
        None
    } else {
        Some(after_page(state, page, flags, copy))
    }
}

/// What of the file belongs into the header page at offset `off` of the image.
pub open spec fn header_copy(off: int, file_len: int) -> Option<PageCopy> {
    if off < file_len {
        Some(
            PageCopy {
                src_offset: off as u64,
                dst_offset: 0,
                len: if file_len - off < 4096 {
                    (file_len - off) as u64
                } else {
                    4096
                },
            },
        )
    } else {
        None
    }
}

/// The state after the header pages from offset `off` up to `end` are loaded.
pub open spec fn after_headers(
    load_base: u64,
    file_len: int,
    end: int,
    off: int,
    state: LoadState,
) -> (LoadState, bool)
    decreases end - off + 4096,
{
    if off >= end {
        (state, true)
    } else {
        match pe_after_page(
            state,
            load_base + off,
            PageFlags { writable: false, executable: false },
            header_copy(off, file_len),
        ) {
            None => (state, false),
            Some(next) => after_headers(load_base, file_len, end, off + 4096, next),
        }
    }
}

/// Bytes that a section occupies in memory.
pub open spec fn loaded_size(sec: SectionView) -> int {
    if sec.virtual_size > 0 {
        sec.virtual_size as int
    } else {
        sec.size_of_raw_data as int
    }
}

/// Whether a section is loaded at all.
pub open spec fn is_loaded(sec: SectionView) -> bool {
    sec.characteristics & 0x0200_0000 == 0 && loaded_size(sec) > 0
}

/// What of a section's file bytes belongs into the page at `page`, if all of it
/// is in the file.
pub open spec fn section_copy(sec: SectionView, load_base: u64, page: int, file_len: int) -> Option<
    PageCopy,
> {
    let start = load_base + sec.virtual_address;
    let from = if page > start {
        page
    } else {
        start
    };
    let to = if page + 4096 < start + sec.size_of_raw_data {
        page + 4096
    } else {
        start + sec.size_of_raw_data
    };
    let src = sec.pointer_to_raw_data + (from - start);
    if from < to && src + (to - from) <= file_len {
        Some(
            PageCopy {
                src_offset: src as u64,
                dst_offset: (from - page) as u64,
                len: (to - from) as u64,
            },
        )
    } else {
        None
    }
}

/// End of the last page of a section.
pub open spec fn section_page_end(sec: SectionView, load_base: u64) -> int {
    page_ceil(load_base + sec.virtual_address + loaded_size(sec))
}

/// The state after the pages of a section from `page` on are loaded.
pub open spec fn after_section(
    sec: SectionView,
    load_base: u64,
    file_len: int,
    page: int,
    state: LoadState,
) -> (LoadState, bool)
    decreases section_page_end(sec, load_base) - page + 4096,
{
    if page >= section_page_end(sec, load_base) {
        (state, true)
    } else {
        match pe_after_page(
            state,
            page,
            section_flags(sec.characteristics),
            section_copy(sec, load_base, page, file_len),
        ) {
            None => (state, false),
            Some(next) => after_section(sec, load_base, file_len, page + 4096, next),
        }
    }
}

/// The state after the sections from `i` on are loaded.
pub open spec fn after_sections(
    s: Seq<u8>,
    info: PeInfo,
    load_base: u64,
    i: int,
    state: LoadState,
) -> (LoadState, bool)
    decreases info.number_of_sections - i,
{
    let sec = info_section(s, info, i);
    if i >= info.number_of_sections {
        (state, true)
    } else if !is_loaded(sec) {
        after_sections(s, info, load_base, i + 1, state)
    } else {
        match after_section(
            sec,
            load_base,
            s.len() as int,
            page_floor(load_base + sec.virtual_address),
            state,
        ) {
            (next, false) => (next, false),
            (next, true) => after_sections(s, info, load_base, i + 1, next),
        }
    }
}

/// The addresses that loading uses are representable.
pub open spec fn pe_addresses_fit(s: Seq<u8>, info: PeInfo, load_base: u64) -> bool {
    &&& load_base + page_ceil(info.size_of_image as int) <= u64::MAX
    &&& load_base + page_ceil(info.size_of_headers as int) <= u64::MAX
    &&& load_base + info.entry_point_rva <= u64::MAX
    &&& forall|i: int|
        0 <= i < info.number_of_sections && is_loaded(#[trigger] info_section(s, info, i))
            ==> load_base + info_section(s, info, i).virtual_address + loaded_size(
            info_section(s, info, i),
        ) + 4095 <= u64::MAX
}

fn find_page(pages: &Vec<PageEntry>, vaddr: u64) -> (r: usize)
    ensures
        r == page_index(pages@, vaddr as int, 0),
        r <= pages@.len(),
{
    let mut j: usize = 0;
    while j < pages.len()
        invariant
            j <= pages@.len(),
            page_index(pages@, vaddr as int, 0) == page_index(pages@, vaddr as int, j as int),
        decreases pages@.len() - j,
    {
        if pages[j].vaddr == vaddr {
            return j;
        }
        j = j + 1;
    }
    j
}

/// Plans a single page. If there is one at this address already, more data is
/// copied into it and the permissions are merged; otherwise it is new.
fn map_pe_page_raw(
    pages: &mut Vec<PageEntry>,
    steps: &mut Vec<LoadStep>,
    page: u64,
    flags: PageFlags,
    copy: Option<PageCopy>,
) -> (ok: bool)
    ensures
        match pe_after_page(
            LoadState { pages: old(pages)@, steps: old(steps)@ },
            page as int,
            flags,
            copy,
        ) {
            Some(next) => ok && final(pages)@ == next.pages && final(steps)@ == next.steps,
            None => !ok && final(pages)@ == old(pages)@ && final(steps)@ == old(steps)@,
        },
{
    let k: usize = find_page(pages, page);
    proof {
        lemma_page_index(pages@, page as int, 0);
    }
    if k < pages.len() {
        let existing: PageEntry = pages[k];
        let w: bool = existing.flags.writable || flags.writable;
        let merged = PageFlags {
            writable: w,
            executable: !w && (existing.flags.executable || flags.executable),
        };
        let remap: Option<PageFlags> = if merged != existing.flags {
            Some(merged)
        } else {
            None
        };
        pages.set(k, PageEntry { vaddr: page, flags: merged });
        steps.push(LoadStep::Refill { page: k, copy, remap });
        return true;
    }
    if pages.len() >= MAX_PE_PAGES {
        return false;
    }
    let entry = PageEntry { vaddr: page, flags };
    pages.push(entry);
    steps.push(LoadStep::NewPage { entry, copy });
    true
}

fn map_headers(
    load_base: u64,
    file_len: usize,
    size_of_headers: u32,
    pages: &mut Vec<PageEntry>,
    steps: &mut Vec<LoadStep>,
) -> (ok: bool)
    requires
        load_base + page_ceil(size_of_headers as int) <= u64::MAX,
    ensures
        ({
            let (next, done) = after_headers(
                load_base,
                file_len as int,
                page_ceil(size_of_headers as int),
                0,
                LoadState { pages: old(pages)@, steps: old(steps)@ },
            );
            ok == done && final(pages)@ == next.pages && final(steps)@ == next.steps
        }),
{
    let end: u64 = (size_of_headers as u64 + 4095) / 4096 * 4096;
    let flags = PageFlags { writable: false, executable: false };
    let mut off: u64 = 0;
    let ghost goal = after_headers(
        load_base,
        file_len as int,
        end as int,
        0,
        LoadState { pages: pages@, steps: steps@ },
    );
    while off < end
        invariant
            end == page_ceil(size_of_headers as int),
            load_base + end <= u64::MAX,
            end <= 0x1_0000_0000,
            off <= 0x1_0000_1000,
            flags == (PageFlags { writable: false, executable: false }),
            goal == after_headers(
                load_base,
                file_len as int,
                end as int,
                off as int,
                LoadState { pages: pages@, steps: steps@ },
            ),
            goal == after_headers(
                load_base,
                file_len as int,
                end as int,
                0,
                LoadState { pages: old(pages)@, steps: old(steps)@ },
            ),
        decreases end + 4096 - off,
    {
        let copy: Option<PageCopy> = if off < file_len as u64 {
            let avail: u64 = file_len as u64 - off;
            Some(
                PageCopy {
                    src_offset: off,
                    dst_offset: 0,
                    len: if avail < 4096 {
                        avail
                    } else {
                        4096
                    },
                },
            )
        } else {
            None
        };
        if !map_pe_page_raw(pages, steps, load_base + off, flags, copy) {
            return false;
        }
        off = off + 4096;
    }
    true
}

/// The numbers of a section header that loading uses.
#[derive(Clone, Copy)]
struct SectionRange {
    vaddr: u64,
    vsize: u64,
    raw_size: u64,
    raw_offset: u64,
    characteristics: u32,
}

fn read_section(data: &[u8], info: &PeInfo, i: u16) -> (r: SectionRange)
    requires
        info_in(*info, data.len() as int),
        i < info.number_of_sections,
    ensures
        ({
            let sec = info_section(data@, *info, i as int);
            &&& r.vaddr == sec.virtual_address
            &&& r.vsize == loaded_size(sec)
            &&& r.raw_size == sec.size_of_raw_data
            &&& r.raw_offset == sec.pointer_to_raw_data
            &&& r.characteristics == sec.characteristics
        }),
        r.vaddr <= 0xffff_ffff,
        r.vsize <= 0xffff_ffff,
        r.raw_size <= 0xffff_ffff,
        r.raw_offset <= 0xffff_ffff,
{
    let off: usize = info.section_headers_offset + i as usize * 40;
    let virtual_size: u32 = read_u32(data, off + 8);
    let raw_size: u32 = read_u32(data, off + 16);
    SectionRange {
        vaddr: read_u32(data, off + 12) as u64,
        vsize: if virtual_size > 0 {
            virtual_size as u64
        } else {
            raw_size as u64
        },
        raw_size: raw_size as u64,
        raw_offset: read_u32(data, off + 20) as u64,
        characteristics: read_u32(data, off + 36),
    }
}

fn map_section(
    sec: &SectionRange,
    Ghost(view): Ghost<SectionView>,
    load_base: u64,
    file_len: usize,
    pages: &mut Vec<PageEntry>,
    steps: &mut Vec<LoadStep>,
) -> (ok: bool)
    requires
        sec.vaddr == view.virtual_address,
        sec.vsize == loaded_size(view),
        sec.raw_size == view.size_of_raw_data,
        sec.raw_offset == view.pointer_to_raw_data,
        sec.characteristics == view.characteristics,
        load_base + view.virtual_address + loaded_size(view) + 4095 <= u64::MAX,
    ensures
        ({
            let (next, done) = after_section(
                view,
                load_base,
                file_len as int,
                page_floor(load_base + view.virtual_address),
                LoadState { pages: old(pages)@, steps: old(steps)@ },
            );
            ok == done && final(pages)@ == next.pages && final(steps)@ == next.steps
        }),
{
    let start: u64 = load_base + sec.vaddr;
    let end: u64 = (start + sec.vsize + 4095) / 4096 * 4096;
    let flags: PageFlags = section_to_vspace_flags(sec.characteristics);
    let file_end: u128 = start as u128 + sec.raw_size as u128;
    let mut page: u64 = start / 4096 * 4096;
    let ghost goal = after_section(
        view,
        load_base,
        file_len as int,
        page as int,
        LoadState { pages: pages@, steps: steps@ },
    );
    while page < end
        invariant
            start == load_base + view.virtual_address,
            end == section_page_end(view, load_base),
            end % 4096 == 0,
            page % 4096 == 0,
            file_end == start + view.size_of_raw_data,
            sec.raw_offset == view.pointer_to_raw_data,
            flags == section_flags(view.characteristics),
            goal == after_section(
                view,
                load_base,
                file_len as int,
                page as int,
                LoadState { pages: pages@, steps: steps@ },
            ),
            goal == after_section(
                view,
                load_base,
                file_len as int,
                page_floor(load_base + view.virtual_address),
                LoadState { pages: old(pages)@, steps: old(steps)@ },
            ),
        decreases end + 4096 - page,
    {
        let from: u64 = if page > start { page } else { start };
        let page_end: u128 = page as u128 + 4096;
        let to: u128 = if page_end < file_end { page_end } else { file_end };
        let mut copy: Option<PageCopy> = None;
        if (from as u128) < to {
            let len: u128 = to - from as u128;
            let src: u128 = sec.raw_offset as u128 + (from - start) as u128;
            if src + len <= file_len as u128 {
                copy = Some(
                    PageCopy { src_offset: src as u64, dst_offset: from - page, len: len as u64 },
                );
            }
        }
        if !map_pe_page_raw(pages, steps, page, flags, copy) {
            return false;
        }
        page = page + 4096;
    }
    true
}

// ---------------------------------------------------------------------------
// Addresses
// ---------------------------------------------------------------------------

/// File offset of the byte at `rva`, by the sections from `i` on.
pub open spec fn section_offset_from(s: Seq<u8>, info: PeInfo, rva: u32, i: int) -> Option<int>
    decreases info.number_of_sections - i,
{
    let sec = info_section(s, info, i);
    if i >= info.number_of_sections {
        None
    } else if sec.virtual_address <= rva < sec.virtual_address + loaded_size(sec) {
        let off = rva - sec.virtual_address;
        if off < sec.size_of_raw_data && sec.pointer_to_raw_data + off < s.len() {
            Some(sec.pointer_to_raw_data + off)
        } else {
            None
        }
    } else {
        section_offset_from(s, info, rva, i + 1)
    }
}

/// File offset of the byte at `rva`. Headers are at the same offset in the file
/// and in memory.
pub open spec fn file_offset_of(s: Seq<u8>, info: PeInfo, rva: u32) -> Option<int> {
    if rva < info.size_of_headers {
        Some(rva as int)
    } else {
        section_offset_from(s, info, rva, 0)
    }
}

/// Converts an RVA to a file offset by the section table.
pub fn rva_to_file_offset(data: &[u8], info: &PeInfo, rva: u32) -> (r: Option<u64>)
    requires
        info_in(*info, data@.len() as int),
    ensures
        match r {
            Some(off) => file_offset_of(data@, *info, rva) == Some(off as int),
            None => file_offset_of(data@, *info, rva) is None,
        },
        r matches Some(off) ==> off <= 0x1_ffff_ffff,
{
    if rva < info.size_of_headers {
        return Some(rva as u64);
    }
    let len: u64 = data.len() as u64;
    let mut i: u16 = 0;
    while i < info.number_of_sections
        invariant
            i <= info.number_of_sections,
            rva >= info.size_of_headers,
            len == data.len(),
            info_in(*info, data.len() as int),
            section_offset_from(data@, *info, rva, 0) == section_offset_from(
                data@,
                *info,
                rva,
                i as int,
            ),
        decreases info.number_of_sections - i,
    {
        let sec: SectionRange = read_section(data, info, i);
        let at: u64 = rva as u64;
        if at >= sec.vaddr && at < sec.vaddr + sec.vsize {
            let within: u64 = at - sec.vaddr;
            if within < sec.raw_size && sec.raw_offset + within < len {
                return Some(sec.raw_offset + within);
            }
            return None;
        }
        i = i + 1;
    }
    None
}

// ---------------------------------------------------------------------------
// Base relocations
// ---------------------------------------------------------------------------

/// A word of a loaded page that `delta` is added to.
#[derive(Clone, Copy, PartialEq, Eq, Debug, Structural)]
pub struct PageAdd {
    pub page: usize,
    pub offset: u64,
    pub delta: u64,
}

/// The page and offset of the word at `vaddr`; `None` if no loaded page holds
/// the whole word.
pub open spec fn word_slot(pages: Seq<PageEntry>, vaddr: int) -> Option<(int, int)> {
    let page = page_floor(vaddr);
    let k = page_index(pages, page, 0);
    if k >= pages.len() || vaddr - page > 4088 {
        None
    } else {
        Some((k, vaddr - page))
    }
}

fn find_word_slot(pages: &Vec<PageEntry>, vaddr: u128) -> (r: Option<(usize, u64)>)
    ensures
        match r {
            Some((k, off)) => word_slot(pages@, vaddr as int) == Some((k as int, off as int)),
            None => word_slot(pages@, vaddr as int) is None,
        },
{
    let page: u128 = vaddr / 4096 * 4096;
    if page > u64::MAX as u128 {
        proof {
            lemma_page_index(pages@, page as int, 0);
        }
        return None;
    }
    let k: usize = find_page(pages, page as u64);
    if k >= pages.len() || vaddr - page > 4088 {
        return None;
    }
    Some((k, (vaddr - page) as u64))
}

/// The changes of the `n` relocation entries from `pos` on, for the block at
/// `block_rva`, after `adds`; the flag tells whether all of them could be done.
pub open spec fn block_adds(
    s: Seq<u8>,
    pages: Seq<PageEntry>,
    delta: u64,
    load_base: u64,
    block_rva: int,
    n: int,
    pos: int,
    adds: Seq<PageAdd>,
) -> (Seq<PageAdd>, bool)
    decreases n,
{
    let entry = le_u16(s, pos);
    if n <= 0 {
        (adds, true)
    } else if entry / 4096 != 10 {
        block_adds(s, pages, delta, load_base, block_rva, n - 1, pos + 2, adds)
    } else {
        match word_slot(pages, load_base + block_rva + entry % 4096) {
            None => (adds, false),
            Some((k, off)) => block_adds(
                s,
                pages,
                delta,
                load_base,
                block_rva,
                n - 1,
                pos + 2,
                adds.push(PageAdd { page: k as usize, offset: off as u64, delta }),
            ),
        }
    }
}

/// The changes of the relocation blocks from `pos` up to `end`.
pub open spec fn blocks_adds(
    s: Seq<u8>,
    pages: Seq<PageEntry>,
    delta: u64,
    load_base: u64,
    end: int,
    pos: int,
    adds: Seq<PageAdd>,
) -> (Seq<PageAdd>, bool)
    decreases s.len() + 8 - pos,
{
    let size = le_u32(s, pos + 4);
    if pos + 8 > end || end > s.len() || size == 0 {
        (adds, true)
    } else if size < 8 || pos + size > s.len() {
        (adds, false)
    } else {
        match block_adds(
            s,
            pages,
            delta,
            load_base,
            le_u32(s, pos) as int,
            (size - 8) / 2,
            pos + 8,
            adds,
        ) {
            (next, false) => (next, false),
            (next, true) => blocks_adds(
                s,
                pages,
                delta,
                load_base,
                end,
                (pos + size + 3) / 4 * 4,
                next,
            ),
        }
    }
}

/// All changes that moving the loaded pages by `delta` takes.
pub open spec fn all_adds(
    s: Seq<u8>,
    info: PeInfo,
    pages: Seq<PageEntry>,
    delta: u64,
    load_base: u64,
) -> (Seq<PageAdd>, bool) {
    let dir = info_directory(s, info, 5);
    if dir.virtual_address == 0 || dir.size == 0 {
        (Seq::empty(), true)
    } else {
        match file_offset_of(s, info, dir.virtual_address) {
            None => (Seq::empty(), false),
            Some(off) => if off + dir.size > s.len() {
                (Seq::empty(), false)
            } else {
                blocks_adds(s, pages, delta, load_base, off + dir.size, off, Seq::empty())
            },
        }
    }
}

fn relocate_block(
    data: &[u8],
    pages: &Vec<PageEntry>,
    delta: u64,
    load_base: u64,
    block_rva: u32,
    count: u64,
    start: usize,
    adds: &mut Vec<PageAdd>,
) -> (ok: bool)
    requires
        start + count * 2 <= data.len(),
    ensures
        (final(adds)@, ok) == block_adds(
            data@,
            pages@,
            delta,
            load_base,
            block_rva as int,
            count as int,
            start as int,
            old(adds)@,
        ),
{
    let mut left: u64 = count;
    let mut pos: usize = start;
    while left > 0
        invariant
            pos + left * 2 <= data.len(),
            block_adds(
                data@,
                pages@,
                delta,
                load_base,
                block_rva as int,
                count as int,
                start as int,
                old(adds)@,
            ) == block_adds(
                data@,
                pages@,
                delta,
                load_base,
                block_rva as int,
                left as int,
                pos as int,
                adds@,
            ),
        decreases left,
    {
        let entry: u16 = read_u16(data, pos);
        if entry / 4096 == 10 {
            let target: u128 = load_base as u128 + block_rva as u128 + (entry % 4096) as u128;
            match find_word_slot(pages, target) {
                Some((page, offset)) => {
                    adds.push(PageAdd { page, offset, delta });
                },
                None => {
                    return false;
                },
            }
        }
        pos = pos + 2;
        left = left - 1;
    }
    true
}

/// Lists the words that base relocation changes.
///
/// Walks the relocation blocks; `DIR64` entries add `delta` to their target,
/// padding and other types are skipped. No relocation directory means that
/// there is nothing to change.
fn pe_relocate(
    data: &[u8],
    info: &PeInfo,
    delta: u64,
    load_base: u64,
    pages: &Vec<PageEntry>,
) -> (r: (Vec<PageAdd>, bool))
    requires
        info_in(*info, data@.len() as int),
    ensures
        (r.0@, r.1) == all_adds(data@, *info, pages@, delta, load_base),
{
    let mut adds: Vec<PageAdd> = Vec::new();
    assert(adds@ =~= Seq::empty());
    let dir: DataDirectory = read_data_dir(data, info, 5);
    if dir.virtual_address == 0 || dir.size == 0 {
        return (adds, true);
    }
    let off: u64 = match rva_to_file_offset(data, info, dir.virtual_address) {
        Some(off) => off,
        None => {
            return (adds, false);
        },
    };
    let len: u64 = data.len() as u64;
    let end: u64 = off + dir.size as u64;
    if end > len {
        return (adds, false);
    }
    let mut pos: u64 = off;
    while pos + 8 <= end
        invariant
            len == data.len(),
            end <= len,
            end <= 0x3_0000_0000,
            pos <= 0x5_0000_0000,
            all_adds(data@, *info, pages@, delta, load_base) == blocks_adds(
                data@,
                pages@,
                delta,
                load_base,
                end as int,
                pos as int,
                adds@,
            ),
        decreases len + 8 - pos,
    {
        let rva: u32 = read_u32(data, pos as usize);
        let size: u32 = read_u32(data, pos as usize + 4);
        if size == 0 {
            return (adds, true);
        }
        if size < 8 || pos + size as u64 > len {
            return (adds, false);
        }
        if !relocate_block(
            data,
            pages,
            delta,
            load_base,
            rva,
            (size as u64 - 8) / 2,
            pos as usize + 8,
            &mut adds,
        ) {
            return (adds, false);
        }
        pos = (pos + size as u64 + 3) / 4 * 4;
    }
    (adds, true)
}

/// A page after a word is written at `offset`, or added to the word that is
/// there.
pub open spec fn page_with_word(page: Seq<u8>, offset: int, value: u64, additive: bool) -> Seq<u8> {
    overwrite(
        page,
        offset,
        u64_bytes(
            if additive {
                le_u64(page, offset).wrapping_add(value)
            } else {
                value
            },
        ),
    )
}

/// Writes a word into a page. If `additive`, it is added to the word that is
/// there.
pub fn write_u64_to_page(page: &mut [u8], offset: usize, value: u64, additive: bool)
    requires
        offset + 8 <= old(page)@.len(),
    ensures
        final(page)@ == page_with_word(old(page)@, offset as int, value, additive),
{
    let len: usize = page.len();
    assert(offset + 8 <= len);
    let word: u64 = if additive { read_u64(page, offset).wrapping_add(value) } else { value };
    write_u64(page, offset, word);
}

// ---------------------------------------------------------------------------
// Whole images
// ---------------------------------------------------------------------------

/// Where a loaded PE image starts and ends.
#[derive(Clone, Copy, PartialEq, Eq, Debug, Structural)]
pub struct PeLoadResult {
    pub entry: u64,
    pub base: u64,
    pub image_end: u64,
}

/// What loading does, in order: the steps, then the additions; `outcome` is what
/// it then reports.
pub struct PeLoadPlan {
    pub steps: Vec<LoadStep>,
    pub pages: Vec<PageEntry>,
    pub adds: Vec<PageAdd>,
    pub outcome: Result<PeLoadResult, PeLoadError>,
}

/// The pages and steps of the headers and sections.
pub open spec fn pe_load_state(s: Seq<u8>, load_base: u64) -> (LoadState, bool) {
    let info = pe_info_of(s);
    match after_headers(
        load_base,
        s.len() as int,
        page_ceil(info.size_of_headers as int),
        0,
        LoadState { pages: Seq::empty(), steps: Seq::empty() },
    ) {
        (state, false) => (state, false),
        (state, true) => after_sections(s, info, load_base, 0, state),
    }
}

/// `plan` loads the file `s`, whose headers are usable.
pub open spec fn is_pe_load_plan(s: Seq<u8>, load_base: u64, plan: PeLoadPlan) -> bool {
    let info = pe_info_of(s);
    let delta = load_base.wrapping_sub(info.image_base);
    let (state, placed) = pe_load_state(s, load_base);
    let (adds, relocated) = if placed && delta != 0 {
        all_adds(s, info, state.pages, delta, load_base)
    } else {
        (Seq::empty(), true)
    };
    if info.number_of_sections > 32 {
        &&& plan.steps@.len() == 0
        &&& plan.pages@.len() == 0
        &&& plan.adds@.len() == 0
        &&& plan.outcome == Err::<PeLoadResult, PeLoadError>(PeLoadError::NoSections)
    } else {
        &&& plan.steps@ == state.steps
        &&& plan.pages@ == state.pages
        &&& plan.adds@ == adds
        &&& plan.outcome == if !placed {
            Err::<PeLoadResult, PeLoadError>(PeLoadError::OutOfMemory)
        } else if !relocated {
            Err::<PeLoadResult, PeLoadError>(PeLoadError::RelocFailed)
        } else {
            Ok(
                PeLoadResult {
                    entry: (load_base + info.entry_point_rva) as u64,
                    base: load_base,
                    image_end: (load_base + page_ceil(info.size_of_image as int)) as u64,
                },
            )
        }
    }
}

fn pe_refused(e: PeLoadError) -> (r: PeLoadPlan)
    ensures
        r.steps@.len() == 0,
        r.pages@.len() == 0,
        r.adds@.len() == 0,
        r.outcome == Err::<PeLoadResult, PeLoadError>(e),
{
    PeLoadPlan { steps: Vec::new(), pages: Vec::new(), adds: Vec::new(), outcome: Err(e) }
}

/// Whether [`pe_load`] can be asked for this image.
pub fn pe_load_is_representable(data: &[u8], load_base: u64, arch: Arch) -> (r: bool)
    ensures
        r == (pe_load_error(data@, arch) is None ==> pe_addresses_fit(
            data@,
            pe_info_of(data@),
            load_base,
        )),
{
    let info: PeInfo = match pe_validate(data, arch) {
        Ok(info) => info,
        Err(_) => {
            return true;
        },
    };
    let base: u128 = load_base as u128;
    let max: u128 = u64::MAX as u128;
    if base + (info.size_of_image as u128 + 4095) / 4096 * 4096 > max || base + (
    info.size_of_headers as u128 + 4095) / 4096 * 4096 > max || base + info.entry_point_rva as u128
        > max {
        return false;
    }
    let mut i: u16 = 0;
    while i < info.number_of_sections
        invariant
            i <= info.number_of_sections,
            info_in(info, data.len() as int),
            info == pe_info_of(data@),
            pe_load_error(data@, arch) is None,
            base == load_base,
            max == u64::MAX,
            forall|j: int|
                0 <= j < i && is_loaded(#[trigger] info_section(data@, info, j)) ==> load_base
                    + info_section(data@, info, j).virtual_address + loaded_size(
                    info_section(data@, info, j),
                ) + 4095 <= u64::MAX,
        decreases info.number_of_sections - i,
    {
        let sec: SectionRange = read_section(data, &info, i);
        if sec.characteristics & IMAGE_SCN_MEM_DISCARDABLE == 0 && sec.vsize > 0 && base
            + sec.vaddr as u128 + sec.vsize as u128 + 4095 > max {
            assert(is_loaded(info_section(data@, info, i as int)));
            return false;
        }
        i = i + 1;
    }
    true
}

/// Plans the loading of a PE32+ image into a child address space.
///
/// Maps the headers read-only, then each section that is not discardable, in
/// table order. An image that is not at its preferred base is relocated.
pub fn pe_load(data: &[u8], load_base: u64, arch: Arch) -> (r: PeLoadPlan)
    requires
        pe_load_error(data@, arch) is None ==> pe_addresses_fit(
            data@,
            pe_info_of(data@),
            load_base,
        ),
    ensures
        match pe_load_error(data@, arch) {
            Some(e) => r.steps@.len() == 0 && r.pages@.len() == 0 && r.adds@.len() == 0
                && r.outcome == Err::<PeLoadResult, PeLoadError>(e),
            None => is_pe_load_plan(data@, load_base, r),
        },
{
    let info: PeInfo = match pe_validate(data, arch) {
        Ok(info) => info,
        Err(e) => {
            return pe_refused(e);
        },
    };
    if info.number_of_sections as usize > MAX_PE_SECTIONS {
        return pe_refused(PeLoadError::NoSections);
    }
    let delta: u64 = load_base.wrapping_sub(info.image_base);
    let image_end: u64 = load_base + (info.size_of_image as u64 + 4095) / 4096 * 4096;
    let mut pages: Vec<PageEntry> = Vec::new();
    let mut steps: Vec<LoadStep> = Vec::new();
    let mut adds: Vec<PageAdd> = Vec::new();
    assert(pages@ =~= Seq::empty() && steps@ =~= Seq::empty() && adds@ =~= Seq::empty());
    if !map_headers(load_base, data.len(), info.size_of_headers, &mut pages, &mut steps) {
        return PeLoadPlan { steps, pages, adds, outcome: Err(PeLoadError::OutOfMemory) };
    }
    let ghost goal = pe_load_state(data@, load_base);
    let mut i: u16 = 0;
    while i < info.number_of_sections
        invariant
            i <= info.number_of_sections,
            info_in(info, data.len() as int),
            info == pe_info_of(data@),
            info.number_of_sections <= 32,
            pe_load_error(data@, arch) is None,
            adds@ =~= Seq::empty(),
            pe_addresses_fit(data@, info, load_base),
            goal == pe_load_state(data@, load_base),
            goal == after_sections(
                data@,
                info,
                load_base,
                i as int,
                LoadState { pages: pages@, steps: steps@ },
            ),
        decreases info.number_of_sections - i,
    {
        let sec: SectionRange = read_section(data, &info, i);
        let ghost view = info_section(data@, info, i as int);
        if sec.characteristics & IMAGE_SCN_MEM_DISCARDABLE == 0 && sec.vsize > 0 {
            assert(is_loaded(info_section(data@, info, i as int)));
            if !map_section(&sec, Ghost(view), load_base, data.len(), &mut pages, &mut steps) {
                return PeLoadPlan { steps, pages, adds, outcome: Err(PeLoadError::OutOfMemory) };
            }
        }
        i = i + 1;
    }
    if delta != 0 {
        let (changes, relocated) = pe_relocate(data, &info, delta, load_base, &pages);
        if !relocated {
            return PeLoadPlan {
                steps,
                pages,
                adds: changes,
                outcome: Err(PeLoadError::RelocFailed),
            };
        }
        adds = changes;
    }
    PeLoadPlan {
        steps,
        pages,
        adds,
        outcome: Ok(
            PeLoadResult {
                entry: load_base + info.entry_point_rva as u64,
                base: load_base,
                image_end,
            },
        ),
    }
}

proof fn lemma_after_headers(
    load_base: u64,
    file_len: int,
    end: int,
    off: int,
    state: LoadState,
)
    requires
        load_state_ok(state, file_len),
        state.pages.len() <= 512,
        0 <= off,
        off % 4096 == 0,
        load_base + end <= u64::MAX,
        0 <= file_len <= usize::MAX,
    ensures
        ({
            let next = after_headers(load_base, file_len, end, off, state).0;
            &&& load_state_ok(next, file_len)
            &&& next.pages.len() <= 512
            &&& load_base % 4096 == 0 && pages_aligned(state.pages) ==> pages_aligned(next.pages)
        }),
    decreases end - off + 4096,
{
    if off < end {
        let flags = PageFlags { writable: false, executable: false };
        let copy = header_copy(off, file_len);
        lemma_after_page(state, load_base + off, flags, copy, file_len);
        lemma_page_index(state.pages, load_base + off, 0);
        match pe_after_page(state, load_base + off, flags, copy) {
            None => {},
            Some(next) => {
                lemma_after_headers(load_base, file_len, end, off + 4096, next);
            },
        }
    }
}

proof fn lemma_after_section(
    sec: SectionView,
    load_base: u64,
    file_len: int,
    page: int,
    state: LoadState,
)
    requires
        load_state_ok(state, file_len),
        state.pages.len() <= 512,
        0 <= page,
        page % 4096 == 0,
        load_base + sec.virtual_address + loaded_size(sec) + 4095 <= u64::MAX,
        0 <= file_len <= usize::MAX,
    ensures
        ({
            let next = after_section(sec, load_base, file_len, page, state).0;
            &&& load_state_ok(next, file_len)
            &&& next.pages.len() <= 512
            &&& pages_aligned(state.pages) ==> pages_aligned(next.pages)
        }),
    decreases section_page_end(sec, load_base) - page + 4096,
{
    if page < section_page_end(sec, load_base) {
        let flags = section_flags(sec.characteristics);
        let copy = section_copy(sec, load_base, page, file_len);
        lemma_after_page(state, page, flags, copy, file_len);
        lemma_page_index(state.pages, page, 0);
        match pe_after_page(state, page, flags, copy) {
            None => {},
            Some(next) => {
                lemma_after_section(sec, load_base, file_len, page + 4096, next);
            },
        }
    }
}

proof fn lemma_after_sections(
    s: Seq<u8>,
    info: PeInfo,
    load_base: u64,
    i: int,
    state: LoadState,
)
    requires
        0 <= i,
        load_state_ok(state, s.len() as int),
        state.pages.len() <= 512,
        pe_addresses_fit(s, info, load_base),
        s.len() <= usize::MAX,
    ensures
        ({
            let next = after_sections(s, info, load_base, i, state).0;
            &&& load_state_ok(next, s.len() as int)
            &&& next.pages.len() <= 512
            &&& pages_aligned(state.pages) ==> pages_aligned(next.pages)
        }),
    decreases info.number_of_sections - i,
{
    if i < info.number_of_sections {
        let sec = info_section(s, info, i);
        if !is_loaded(sec) {
            lemma_after_sections(s, info, load_base, i + 1, state);
        } else {
            let page = page_floor(load_base + sec.virtual_address);
            lemma_after_section(sec, load_base, s.len() as int, page, state);
            match after_section(sec, load_base, s.len() as int, page, state) {
                (_, false) => {},
                (next, true) => {
                    lemma_after_sections(s, info, load_base, i + 1, next);
                },
            }
        }
    }
}

/// Loading a PE image keeps W^X page by page, lists every page once, and never
/// copies outside a page or outside the file, whether it gets through or not.
/// At a page-aligned base all pages are aligned.
pub proof fn lemma_pe_load_state_ok(s: Seq<u8>, load_base: u64)
    requires
        s.len() <= usize::MAX,
        pe_addresses_fit(s, pe_info_of(s), load_base),
    ensures
        load_state_ok(pe_load_state(s, load_base).0, s.len() as int),
        pe_load_state(s, load_base).0.pages.len() <= 512,
        load_base % 4096 == 0 ==> pages_aligned(pe_load_state(s, load_base).0.pages),
{
    let info = pe_info_of(s);
    let empty = LoadState { pages: Seq::empty(), steps: Seq::empty() };
    let end = page_ceil(info.size_of_headers as int);
    lemma_after_headers(load_base, s.len() as int, end, 0, empty);
    match after_headers(load_base, s.len() as int, end, 0, empty) {
        (_, false) => {},
        (state, true) => {
            lemma_after_sections(s, info, load_base, 0, state);
        },
    }
}

// ---------------------------------------------------------------------------
// Imports
// ---------------------------------------------------------------------------

/// Names of the modules that an image imports from.
pub struct PeImports {
    pub count: usize,
    pub names: [[u8; MAX_PE_IMPORT_NAME]; MAX_PE_IMPORTS],
    pub name_lens: [usize; MAX_PE_IMPORTS],
}

impl PeImports {
    /// The listed names.
    pub open spec fn listed(self) -> Seq<Seq<u8>> {
        Seq::new(self.count as nat, |i: int| self.names@[i]@.take(self.name_lens@[i] as int))
    }

    /// Every listed name is in the table.
    pub open spec fn wf(self) -> bool {
        &&& self.count <= 16
        &&& forall|i: int| 0 <= i < self.count ==> 0 < #[trigger] self.name_lens@[i] <= 32
    }

    /// What is in the table besides the listed names is zero.
    pub open spec fn rest_is_zero(self) -> bool {
        &&& forall|i: int, j: int|
            0 <= i < 16 && 0 <= j < 32 && (i >= self.count || j >= self.name_lens@[i])
                ==> #[trigger] self.names@[i]@[j] == 0
        &&& forall|i: int| self.count <= i < 16 ==> #[trigger] self.name_lens@[i] == 0
    }

    /// No names; every entry of the table is zero.
    pub fn new() -> (r: PeImports)
        ensures
            r.wf(),
            r.listed() == Seq::<Seq<u8>>::empty(),
            r.count == 0,
            forall|i: int, j: int| 0 <= i < 16 && 0 <= j < 32 ==> #[trigger] r.names@[i]@[j] == 0,
            forall|i: int| 0 <= i < 16 ==> #[trigger] r.name_lens@[i] == 0,
    {
        let r = PeImports { count: 0, names: [[0u8; 32]; 16], name_lens: [0; 16] };
        assert(r.listed() =~= Seq::<Seq<u8>>::empty());
        r
    }
}

/// Whether the import descriptor at `pos` ends the table.
pub open spec fn is_null_descriptor(s: Seq<u8>, pos: int) -> bool {
    le_u32(s, pos + 12) == 0 && le_u32(s, pos + 16) == 0
}

/// The name at file offset `off`, cut off at 32 bytes.
pub open spec fn short_name(s: Seq<u8>, off: int) -> Seq<u8> {
    let n = c_len(s, off);
    s.subrange(
        off,
        off + if n < 32 {
            n
        } else {
            32
        },
    )
}

/// The module names of the descriptors from `pos` on, after `names`.
pub open spec fn import_names(s: Seq<u8>, info: PeInfo, pos: int, names: Seq<Seq<u8>>) -> Seq<
    Seq<u8>,
>
    decreases s.len() - pos,
{
    if pos + 20 > s.len() || is_null_descriptor(s, pos) || names.len() >= 16 {
        names
    } else {
        let next = match file_offset_of(s, info, le_u32(s, pos + 12)) {
            Some(off) => if off < s.len() && s[off] != 0 {
                names.push(short_name(s, off))
            } else {
                names
            },
            None => names,
        };
        import_names(s, info, pos + 20, next)
    }
}

/// All module names that the image imports from, as far as they are listed.
pub open spec fn all_import_names(s: Seq<u8>, info: PeInfo) -> Seq<Seq<u8>> {
    let dir = info_directory(s, info, 1);
    if dir.virtual_address == 0 || dir.size == 0 {
        Seq::empty()
    } else {
        match file_offset_of(s, info, dir.virtual_address) {
            None => Seq::empty(),
            Some(off) => import_names(s, info, off, Seq::empty()),
        }
    }
}

/// Copies the name at `off` into a row, and returns its length.
fn copy_short_name(data: &[u8], off: usize) -> (r: ([u8; 32], usize))
    requires
        off < data@.len(),
    ensures
        r.1 <= 32,
        r.0@.take(r.1 as int) == short_name(data@, off as int),
        r.1 > 0 <==> data@[off as int] != 0,
        forall|i: int| r.1 <= i < 32 ==> #[trigger] r.0@[i] == 0,
{
    let mut row: [u8; 32] = [0u8; 32];
    let mut len: usize = 0;
    let total: usize = data.len();
    while len < MAX_PE_IMPORT_NAME && len < total - off && data[off + len] != 0
        invariant
            len <= 32,
            total == data.len(),
            off < total,
            off + len <= data@.len(),
            forall|i: int| 0 <= i < len ==> row@[i] == data@[off + i],
            forall|i: int| len <= i < 32 ==> #[trigger] row@[i] == 0,
            forall|i: int| off <= i < off + len ==> data@[i] != 0,
            len > 0 ==> data@[off as int] != 0,
        decreases 32 - len,
    {
        row[len] = data[off + len];
        len = len + 1;
    }
    proof {
        if len < 32 {
            lemma_c_len(data@, off as int, len as int);
        } else {
            lemma_c_len_at_least(data@, off as int, 32);
        }
        assert(row@.take(len as int) =~= short_name(data@, off as int));
    }
    (row, len)
}

proof fn lemma_c_len_at_least(s: Seq<u8>, off: int, n: int)
    requires
        0 <= off,
        0 <= n,
        off + n <= s.len(),
        forall|i: int| off <= i < off + n ==> s[i] != 0,
    ensures
        c_len(s, off) >= n,
    decreases n,
{
    crate::loader::bytes::lemma_c_len_bounds(s, off);
    if n > 0 {
        lemma_c_len_at_least(s, off + 1, n - 1);
    }
}

/// Parses the import directory of a PE file and extracts module names.
pub fn pe_get_imports(data: &[u8], info: &PeInfo) -> (r: PeImports)
    requires
        info_in(*info, data@.len() as int),
    ensures
        r.wf(),
        r.listed() == all_import_names(data@, *info),
        r.rest_is_zero(),
{
    let mut result = PeImports::new();
    let dir: DataDirectory = read_data_dir(data, info, 1);
    if dir.virtual_address == 0 || dir.size == 0 {
        return result;
    }
    let start: u64 = match rva_to_file_offset(data, info, dir.virtual_address) {
        Some(off) => off,
        None => {
            return result;
        },
    };
    let len: u128 = data.len() as u128;
    let mut pos: u128 = start as u128;
    while pos + 20 <= len
        invariant
            len == data.len(),
            pos <= u64::MAX,
            info_in(*info, data.len() as int),
            result.wf(),
            result.rest_is_zero(),
            all_import_names(data@, *info) == import_names(
                data@,
                *info,
                pos as int,
                result.listed(),
            ),
        decreases len + 20 - pos,
    {
        let name_rva: u32 = read_u32(data, pos as usize + 12);
        let first_thunk: u32 = read_u32(data, pos as usize + 16);
        if name_rva == 0 && first_thunk == 0 {
            return result;
        }
        if result.count >= MAX_PE_IMPORTS {
            return result;
        }
        match rva_to_file_offset(data, info, name_rva) {
            Some(off) => {
                if (off as u128) < len {
                    let (row, n) = copy_short_name(data, off as usize);
                    if n > 0 {
                        let ghost before = result.listed();
                        let c: usize = result.count;
                        result.names[c] = row;
                        result.name_lens[c] = n;
                        result.count = c + 1;
                        assert(result.listed() =~= before.push(short_name(data@, off as int)));
                    }
                }
            },
            None => {},
        }
        pos = pos + 20;
    }
    result
}

/// A symbol that an image imports, and where its address goes. Names are file
/// ranges.
#[derive(Clone, Copy, PartialEq, Eq, Debug)]
pub struct ImportRequest {
    pub dll_offset: u64,
    pub dll_len: u64,
    /// The symbol's name, unless it is imported by ordinal or its name is not in
    /// the file.
    pub name: Option<(u64, u64)>,
    /// The symbol's ordinal; 0 if it is imported by name.
    pub ordinal: u16,
    /// Page and offset of the address table entry; `None` if no loaded page
    /// holds it.
    pub slot: Option<(usize, u64)>,
}

/// The name and ordinal that a lookup entry asks for.
pub open spec fn lookup_symbol(s: Seq<u8>, info: PeInfo, entry: u64) -> (Option<(u64, u64)>, u16) {
    if entry >= 0x8000_0000_0000_0000 {
        (None, (entry % 0x1_0000) as u16)
    } else {
        match file_offset_of(s, info, (entry % 0x8000_0000) as u32) {
            Some(off) => if off + 2 < s.len() {
                (Some(((off + 2) as u64, c_len(s, off + 2) as u64)), 0)
            } else {
                (None, 0)
            },
            None => (None, 0),
        }
    }
}

/// The page and offset of the address table entry at `vaddr`.
pub open spec fn iat_slot(pages: Seq<PageEntry>, vaddr: int) -> Option<(usize, u64)> {
    match word_slot(pages, vaddr) {
        Some((k, off)) => Some((k as usize, off as u64)),
        None => None,
    }
}

/// The requests of the lookup table at `ilt` from entry `idx` on, after `reqs`.
/// The flag tells whether every address had a place; the request without one
/// is the last.
pub open spec fn thunk_requests(
    s: Seq<u8>,
    info: PeInfo,
    load_base: u64,
    pages: Seq<PageEntry>,
    dll: (u64, u64),
    ilt: int,
    iat_rva: int,
    idx: int,
    reqs: Seq<ImportRequest>,
) -> (Seq<ImportRequest>, bool)
    decreases s.len() - (ilt + 8 * idx),
{
    let entry = le_u64(s, ilt + 8 * idx);
    if ilt + 8 * idx + 8 > s.len() || entry == 0 {
        (reqs, true)
    } else {
        let (name, ordinal) = lookup_symbol(s, info, entry);
        let slot = iat_slot(pages, load_base + iat_rva + 8 * idx);
        let next = reqs.push(
            ImportRequest { dll_offset: dll.0, dll_len: dll.1, name, ordinal, slot },
        );
        if slot is None {
            (next, false)
        } else {
            thunk_requests(s, info, load_base, pages, dll, ilt, iat_rva, idx + 1, next)
        }
    }
}

/// The requests of the descriptor at `pos`. A descriptor without a name or
/// without a lookup table in the file is skipped.
pub open spec fn descriptor_requests(
    s: Seq<u8>,
    info: PeInfo,
    load_base: u64,
    pages: Seq<PageEntry>,
    pos: int,
    reqs: Seq<ImportRequest>,
) -> (Seq<ImportRequest>, bool) {
    let ilt_rva = if le_u32(s, pos) != 0 {
        le_u32(s, pos)
    } else {
        le_u32(s, pos + 16)
    };
    match (file_offset_of(s, info, le_u32(s, pos + 12)), file_offset_of(s, info, ilt_rva)) {
        (Some(name), Some(ilt)) => thunk_requests(
            s,
            info,
            load_base,
            pages,
            (name as u64, c_len(s, name) as u64),
            ilt,
            le_u32(s, pos + 16) as int,
            0,
            reqs,
        ),
        _ => (reqs, true),
    }
}

/// The requests of the descriptors from `pos` on.
pub open spec fn import_requests(
    s: Seq<u8>,
    info: PeInfo,
    load_base: u64,
    pages: Seq<PageEntry>,
    pos: int,
    reqs: Seq<ImportRequest>,
) -> (Seq<ImportRequest>, bool)
    decreases s.len() - pos,
{
    if pos + 20 > s.len() || is_null_descriptor(s, pos) {
        (reqs, true)
    } else {
        match descriptor_requests(s, info, load_base, pages, pos, reqs) {
            (next, false) => (next, false),
            (next, true) => import_requests(s, info, load_base, pages, pos + 20, next),
        }
    }
}

/// All requests of an image.
pub open spec fn all_import_requests(
    s: Seq<u8>,
    info: PeInfo,
    load_base: u64,
    pages: Seq<PageEntry>,
) -> (Seq<ImportRequest>, bool) {
    let dir = info_directory(s, info, 1);
    if dir.virtual_address == 0 || dir.size == 0 {
        (Seq::empty(), true)
    } else {
        match file_offset_of(s, info, dir.virtual_address) {
            None => (Seq::empty(), false),
            Some(off) => import_requests(s, info, load_base, pages, off, Seq::empty()),
        }
    }
}

fn c_len_at(data: &[u8], off: u64) -> (r: u64)
    ensures
        r == c_len(data@, off as int),
{
    let len: u64 = data.len() as u64;
    if off >= len {
        return 0;
    }
    let s: &[u8] = crate::loader::bytes::read_c_str(data, off as usize);
    proof {
        crate::loader::bytes::lemma_c_len_bounds(data@, off as int);
    }
    s.len() as u64
}

fn read_lookup_symbol(data: &[u8], info: &PeInfo, entry: u64) -> (r: (Option<(u64, u64)>, u16))
    requires
        info_in(*info, data@.len() as int),
    ensures
        r == lookup_symbol(data@, *info, entry),
{
    if entry >= 0x8000_0000_0000_0000 {
        return (None, (entry % 0x1_0000) as u16);
    }
    match rva_to_file_offset(data, info, (entry % 0x8000_0000) as u32) {
        Some(off) => {
            if off + 2 < data.len() as u64 {
                (Some((off + 2, c_len_at(data, off + 2))), 0)
            } else {
                (None, 0)
            }
        },
        None => (None, 0),
    }
}

fn push_thunk_requests(
    data: &[u8],
    info: &PeInfo,
    load_base: u64,
    pages: &Vec<PageEntry>,
    dll_offset: u64,
    dll_len: u64,
    ilt: u64,
    iat_rva: u32,
    reqs: &mut Vec<ImportRequest>,
) -> (ok: bool)
    requires
        info_in(*info, data@.len() as int),
        ilt <= 0x1_ffff_ffff,
    ensures
        (final(reqs)@, ok) == thunk_requests(
            data@,
            *info,
            load_base,
            pages@,
            (dll_offset, dll_len),
            ilt as int,
            iat_rva as int,
            0,
            old(reqs)@,
        ),
{
    let len: u128 = data.len() as u128;
    let mut idx: u128 = 0;
    while ilt as u128 + idx * 8 + 8 <= len
        invariant
            len == data.len(),
            info_in(*info, data.len() as int),
            ilt <= 0x1_ffff_ffff,
            idx <= u64::MAX,
            thunk_requests(
                data@,
                *info,
                load_base,
                pages@,
                (dll_offset, dll_len),
                ilt as int,
                iat_rva as int,
                0,
                old(reqs)@,
            ) == thunk_requests(
                data@,
                *info,
                load_base,
                pages@,
                (dll_offset, dll_len),
                ilt as int,
                iat_rva as int,
                idx as int,
                reqs@,
            ),
        decreases len + 8 - (ilt + idx * 8),
    {
        let entry: u64 = read_u64(data, (ilt as u128 + idx * 8) as usize);
        if entry == 0 {
            return true;
        }
        let (name, ordinal) = read_lookup_symbol(data, info, entry);
        let slot: Option<(usize, u64)> = find_word_slot(
            pages,
            load_base as u128 + iat_rva as u128 + idx * 8,
        );
        let ghost vaddr = load_base + iat_rva + 8 * idx;
        proof {
            lemma_page_index(pages@, page_floor(vaddr), 0);
            assert(slot == iat_slot(pages@, vaddr));
        }
        reqs.push(ImportRequest { dll_offset, dll_len, name, ordinal, slot });
        if slot.is_none() {
            return false;
        }
        idx = idx + 1;
    }
    true
}

/// Lists the symbols that a loaded PE image imports, each with the place of its
/// address in the loaded pages, in the order in which they are resolved.
///
/// Whoever knows the exports resolves each symbol in turn and writes its
/// address. With `Err`, the last symbol listed has no place in a loaded page:
/// it is still looked up before the failure is reported.
pub fn pe_resolve_imports(
    data: &[u8],
    info: &PeInfo,
    load_base: u64,
    pages: &Vec<PageEntry>,
) -> (r: (Vec<ImportRequest>, Result<(), PeLoadError>))
    requires
        info_in(*info, data@.len() as int),
    ensures
        ({
            let (reqs, ok) = all_import_requests(data@, *info, load_base, pages@);
            r.0@ == reqs && r.1 == if ok {
                Ok::<(), PeLoadError>(())
            } else {
                Err::<(), PeLoadError>(PeLoadError::BadImport)
            }
        }),
{
    let mut reqs: Vec<ImportRequest> = Vec::new();
    assert(reqs@ =~= Seq::empty());
    let dir: DataDirectory = read_data_dir(data, info, 1);
    if dir.virtual_address == 0 || dir.size == 0 {
        return (reqs, Ok(()));
    }
    let start: u64 = match rva_to_file_offset(data, info, dir.virtual_address) {
        Some(off) => off,
        None => {
            return (reqs, Err(PeLoadError::BadImport));
        },
    };
    let len: u128 = data.len() as u128;
    let mut pos: u128 = start as u128;
    while pos + 20 <= len
        invariant
            len == data.len(),
            pos <= u64::MAX,
            info_in(*info, data.len() as int),
            all_import_requests(data@, *info, load_base, pages@) == import_requests(
                data@,
                *info,
                load_base,
                pages@,
                pos as int,
                reqs@,
            ),
        decreases len + 20 - pos,
    {
        let at: usize = pos as usize;
        let original_first_thunk: u32 = read_u32(data, at);
        let name_rva: u32 = read_u32(data, at + 12);
        let first_thunk: u32 = read_u32(data, at + 16);
        if name_rva == 0 && first_thunk == 0 {
            return (reqs, Ok(()));
        }
        let ilt_rva: u32 = if original_first_thunk != 0 {
            original_first_thunk
        } else {
            first_thunk
        };
        let name: Option<u64> = rva_to_file_offset(data, info, name_rva);
        let ilt: Option<u64> = rva_to_file_offset(data, info, ilt_rva);
        match (name, ilt) {
            (Some(name_off), Some(ilt_off)) => {
                let dll_len: u64 = c_len_at(data, name_off);
                if !push_thunk_requests(
                    data,
                    info,
                    load_base,
                    pages,
                    name_off,
                    dll_len,
                    ilt_off,
                    first_thunk,
                    &mut reqs,
                ) {
                    return (reqs, Err(PeLoadError::BadImport));
                }
            },
            _ => {},
        }
        pos = pos + 20;
    }
    (reqs, Ok(()))
}

// ---------------------------------------------------------------------------
// What is found in a file
// ---------------------------------------------------------------------------

/// An RVA is found in the file as far from the data of a section as it is from
/// the address of the section: the first section whose memory has it.
pub proof fn lemma_rva_is_found_in_file(s: Seq<u8>, info: PeInfo, rva: u32, i: int, k: int)
    requires
        0 <= i <= k < info.number_of_sections,
        ({
            let sec = info_section(s, info, k);
            &&& sec.virtual_address <= rva < sec.virtual_address + sec.size_of_raw_data
            &&& sec.virtual_size == 0 || rva < sec.virtual_address + sec.virtual_size
            &&& sec.pointer_to_raw_data + sec.size_of_raw_data <= s.len()
        }),
        forall|j: int|
            0 <= j < k ==> {
                let sec = #[trigger] info_section(s, info, j);
                rva < sec.virtual_address || (rva >= sec.virtual_address + sec.virtual_size && rva
                    >= sec.virtual_address + sec.size_of_raw_data)
            },
    ensures
        section_offset_from(s, info, rva, i) == Some(
            info_section(s, info, k).pointer_to_raw_data + (rva - info_section(
                s,
                info,
                k,
            ).virtual_address),
        ),
    decreases k - i,
{
    let sec = info_section(s, info, i);
    if i < k {
        lemma_rva_is_found_in_file(s, info, rva, i + 1, k);
    }
}

/// The headers are in the file where they are in memory.
pub proof fn lemma_header_rva(s: Seq<u8>, info: PeInfo, rva: u32)
    requires
        rva < info.size_of_headers,
    ensures
        file_offset_of(s, info, rva) == Some(rva as int),
{
}

/// The place of a word is the page that holds its first byte, and the offset of
/// the word in it; it has none only if no page holds all of it.
pub proof fn lemma_word_has_a_place(pages: Seq<PageEntry>, vaddr: int)
    requires
        vaddr >= 0,
    ensures
        match word_slot(pages, vaddr) {
            Some((k, off)) => 0 <= k < pages.len() && 0 <= off && off + 8 <= 4096 && pages[k].vaddr
                + off == vaddr,
            None => forall|k: int|
                0 <= k < pages.len() && (#[trigger] pages[k]).vaddr % 4096 == 0 ==> !(pages[k].vaddr
                    <= vaddr && vaddr + 8 <= pages[k].vaddr + 4096),
        },
{
    let page = page_floor(vaddr);
    lemma_page_index(pages, page, 0);
    if word_slot(pages, vaddr) is None {
        assert forall|k: int|
            0 <= k < pages.len() && (#[trigger] pages[k]).vaddr % 4096 == 0 implies !(pages[k].vaddr
            <= vaddr && vaddr + 8 <= pages[k].vaddr + 4096) by {
            if pages[k].vaddr <= vaddr && vaddr + 8 <= pages[k].vaddr + 4096 {
                assert(pages[k].vaddr == page);
            }
        }
    }
}

/// The request that entry `t` of the lookup table at `ilt` makes: for a symbol of
/// the module that is named at `dll`, by ordinal if the highest bit of the entry is
/// set and by the name behind the hint otherwise, to be written as far into the
/// address table as the entry is in the lookup table.
pub open spec fn is_request(
    s: Seq<u8>,
    info: PeInfo,
    load_base: u64,
    pages: Seq<PageEntry>,
    dll: int,
    ilt: int,
    iat_rva: int,
    t: int,
    req: ImportRequest,
) -> bool {
    let entry = field(s, ilt + 8 * t, 8);
    let hint = file_offset_of(s, info, (entry % 0x8000_0000) as u32);
    &&& req.dll_offset == dll as u64
    &&& req.dll_len == c_len(s, dll) as u64
    &&& req.slot == iat_slot(pages, load_base + iat_rva + 8 * t)
    &&& entry >= 0x8000_0000_0000_0000 ==> req.name is None && req.ordinal == entry % 0x1_0000
    &&& entry < 0x8000_0000_0000_0000 ==> req.ordinal == 0
    &&& entry < 0x8000_0000_0000_0000 && hint is Some && hint->0 + 2 < s.len() ==> req.name == Some(
        ((hint->0 + 2) as u64, c_len(s, hint->0 + 2) as u64),
    )
}

/// Whether entry `j` of the lookup table at `ilt` is in the file, and does not end
/// the table.
pub open spec fn has_thunk(s: Seq<u8>, ilt: int, j: int) -> bool {
    ilt + 8 * j + 8 <= s.len() && field(s, ilt + 8 * j, 8) != 0
}

proof fn lemma_thunk_is_requested(
    s: Seq<u8>,
    info: PeInfo,
    load_base: u64,
    pages: Seq<PageEntry>,
    dll: int,
    ilt: int,
    iat_rva: int,
    idx: int,
    reqs: Seq<ImportRequest>,
    t: int,
)
    requires
        0 <= idx,
        ({
            let dll = (dll as u64, c_len(s, dll) as u64);
            thunk_requests(s, info, load_base, pages, dll, ilt, iat_rva, idx, reqs).1
        }),
        forall|j: int| idx <= j <= t ==> #[trigger] has_thunk(s, ilt, j),
    ensures
        ({
            let named = (dll as u64, c_len(s, dll) as u64);
            let all = thunk_requests(s, info, load_base, pages, named, ilt, iat_rva, idx, reqs).0;
            &&& all.len() >= reqs.len()
            &&& all.subrange(0, reqs.len() as int) == reqs
            &&& idx <= t ==> reqs.len() + (t - idx) < all.len() && is_request(
                s,
                info,
                load_base,
                pages,
                dll,
                ilt,
                iat_rva,
                t,
                all[reqs.len() + (t - idx)],
            )
        }),
    decreases s.len() - (ilt + 8 * idx),
{
    let named = (dll as u64, c_len(s, dll) as u64);
    let all = thunk_requests(s, info, load_base, pages, named, ilt, iat_rva, idx, reqs).0;
    let entry = le_u64(s, ilt + 8 * idx);
    lemma_field_64(s, ilt + 8 * idx);
    if idx <= t {
        assert(has_thunk(s, ilt, idx));
    }
    if ilt + 8 * idx + 8 > s.len() || entry == 0 {
        assert(all.subrange(0, reqs.len() as int) =~= reqs);
    } else {
        let (name, ordinal) = lookup_symbol(s, info, entry);
        let slot = iat_slot(pages, load_base + iat_rva + 8 * idx);
        let req = ImportRequest {
            dll_offset: named.0,
            dll_len: named.1,
            name,
            ordinal,
            slot,
        };
        let next = reqs.push(req);
        lemma_thunk_is_requested(
            s,
            info,
            load_base,
            pages,
            dll,
            ilt,
            iat_rva,
            idx + 1,
            next,
            t,
        );
        assert(all.subrange(0, reqs.len() as int) =~= reqs) by {
            assert(next.subrange(0, reqs.len() as int) =~= reqs);
            assert(forall|j: int| 0 <= j < next.len() ==> all[j] == #[trigger] next[j]) by {
                assert forall|j: int| 0 <= j < next.len() implies all[j] == #[trigger] next[j] by {
                    assert(all.subrange(0, next.len() as int)[j] == next[j]);
                }
            }
        }
        if t == idx {
            assert(all.subrange(0, next.len() as int)[reqs.len() as int] == req);
        }
    }
}

proof fn lemma_import_is_requested(
    s: Seq<u8>,
    info: PeInfo,
    load_base: u64,
    pages: Seq<PageEntry>,
    pos: int,
    reqs: Seq<ImportRequest>,
    k: int,
    t: int,
)
    requires
        import_requests(s, info, load_base, pages, pos, reqs).1,
        0 <= k ==> is_requested_place(s, info, pos, k, t),
    ensures
        ({
            let all = import_requests(s, info, load_base, pages, pos, reqs).0;
            &&& all.len() >= reqs.len()
            &&& all.subrange(0, reqs.len() as int) == reqs
            &&& 0 <= k ==> exists|j: int|
                0 <= j < all.len() && is_request(
                    s,
                    info,
                    load_base,
                    pages,
                    module_name_at(s, info, pos, k),
                    lookup_table_at(s, info, pos, k),
                    field(s, pos + 20 * k + 16, 4),
                    t,
                    #[trigger] all[j],
                )
        }),
    decreases s.len() - pos,
{
    let all = import_requests(s, info, load_base, pages, pos, reqs).0;
    lemma_field_32(s, pos);
    lemma_field_32(s, pos + 12);
    lemma_field_32(s, pos + 16);
    if 0 <= k {
        assert(has_descriptor(s, pos, 0));
    }
    if pos + 20 > s.len() || is_null_descriptor(s, pos) {
        assert(all.subrange(0, reqs.len() as int) =~= reqs);
    } else {
        let (next, ok) = descriptor_requests(s, info, load_base, pages, pos, reqs);
        let ilt_rva = if le_u32(s, pos) != 0 {
            le_u32(s, pos)
        } else {
            le_u32(s, pos + 16)
        };
        let name = file_offset_of(s, info, le_u32(s, pos + 12));
        let ilt = file_offset_of(s, info, ilt_rva);
        if k == 0 {
            assert(pos + 20 * k == pos);
            assert(lookup_table_at(s, info, pos, k) == ilt->0);
        }
        if name is Some && ilt is Some {
            lemma_thunk_is_requested(
                s,
                info,
                load_base,
                pages,
                name->0,
                ilt->0,
                le_u32(s, pos + 16) as int,
                0,
                reqs,
                if k == 0 {
                    t
                } else {
                    -1
                },
            );
        } else {
            assert(next.subrange(0, reqs.len() as int) =~= reqs);
        }
        let rest = pos + 20;
        if k > 0 {
            assert(is_requested_place(s, info, rest, k - 1, t)) by {
                assert forall|j: int| 0 <= j <= k - 1 implies #[trigger] has_descriptor(
                    s,
                    rest,
                    j,
                ) by {
                    assert(has_descriptor(s, pos, j + 1));
                }
                assert(rest + 20 * (k - 1) == pos + 20 * k);
                assert(lookup_table_at(s, info, rest, k - 1) == lookup_table_at(s, info, pos, k));
            }
        }
        lemma_import_is_requested(s, info, load_base, pages, rest, next, k - 1, t);
        assert(all.subrange(0, reqs.len() as int) =~= reqs) by {
            assert forall|j: int| 0 <= j < reqs.len() implies all[j] == #[trigger] reqs[j] by {
                assert(all.subrange(0, next.len() as int)[j] == next[j]);
                assert(next.subrange(0, reqs.len() as int)[j] == reqs[j]);
            }
        }
        if k == 0 {
            let j = reqs.len() + t;
            assert(all.subrange(0, next.len() as int)[j] == next[j]);
            assert(all[j] == next[j]);
        } else if k > 0 {
            assert(rest + 20 * (k - 1) == pos + 20 * k);
            assert(rest + 20 * (k - 1) + 16 == pos + 20 * k + 16);
        }
    }
}

/// Whether descriptor `k` of the import table at `pos` is in the file, and does not
/// end the table.
pub open spec fn has_descriptor(s: Seq<u8>, pos: int, k: int) -> bool {
    &&& pos + 20 * k + 20 <= s.len()
    &&& field(s, pos + 20 * k + 12, 4) != 0 || field(s, pos + 20 * k + 16, 4) != 0
}

/// Where the file has the module name of descriptor `k`.
pub open spec fn module_name_at(s: Seq<u8>, info: PeInfo, pos: int, k: int) -> int {
    file_offset_of(s, info, field(s, pos + 20 * k + 12, 4) as u32)->0
}

/// Where the file has the lookup table of descriptor `k`: its name table, or its
/// address table if it has no name table.
pub open spec fn lookup_table_at(s: Seq<u8>, info: PeInfo, pos: int, k: int) -> int {
    let names = field(s, pos + 20 * k, 4);
    file_offset_of(
        s,
        info,
        (if names != 0 {
            names
        } else {
            field(s, pos + 20 * k + 16, 4)
        }) as u32,
    )->0
}

/// Whether the import table at `pos` has a descriptor `k` whose lookup table has an
/// entry `t`.
pub open spec fn is_requested_place(
    s: Seq<u8>,
    info: PeInfo,
    pos: int,
    k: int,
    t: int,
) -> bool {
    let names = field(s, pos + 20 * k, 4);
    let ilt = lookup_table_at(s, info, pos, k);
    &&& 0 <= t
    &&& forall|j: int| 0 <= j <= k ==> #[trigger] has_descriptor(s, pos, j)
    &&& file_offset_of(s, info, field(s, pos + 20 * k + 12, 4) as u32) is Some
    &&& file_offset_of(
        s,
        info,
        (if names != 0 {
            names
        } else {
            field(s, pos + 20 * k + 16, 4)
        }) as u32,
    ) is Some
    &&& forall|j: int| 0 <= j <= t ==> #[trigger] has_thunk(s, ilt, j)
}

/// Every symbol that an image imports is requested, with the module it comes from
/// and the place that its address is to be written to.
pub proof fn lemma_every_import_is_requested(
    s: Seq<u8>,
    info: PeInfo,
    load_base: u64,
    pages: Seq<PageEntry>,
    pos: int,
    k: int,
    t: int,
)
    requires
        all_import_requests(s, info, load_base, pages).1,
        info_directory(s, info, 1).virtual_address != 0,
        info_directory(s, info, 1).size != 0,
        file_offset_of(s, info, info_directory(s, info, 1).virtual_address) == Some(pos),
        0 <= k,
        is_requested_place(s, info, pos, k, t),
    ensures
        exists|j: int|
            0 <= j < all_import_requests(s, info, load_base, pages).0.len() && is_request(
                s,
                info,
                load_base,
                pages,
                module_name_at(s, info, pos, k),
                lookup_table_at(s, info, pos, k),
                field(s, pos + 20 * k + 16, 4),
                t,
                #[trigger] all_import_requests(s, info, load_base, pages).0[j],
            ),
{
    lemma_import_is_requested(s, info, load_base, pages, pos, Seq::empty(), k, t);
}

/// Data directory `index` is the pair of address and size behind those before it.
pub proof fn lemma_directory_record(s: Seq<u8>, info: PeInfo, index: int, v: Seq<int>)
    requires
        0 <= index < info.number_of_rva_and_sizes,
        info.data_dir_offset + 8 * index + 8 <= s.len(),
        has_record(s, info.data_dir_offset + 8 * index, seq![4int, 4], v, 0),
    ensures
        info_directory(s, info, index).virtual_address == v[0],
        info_directory(s, info, index).size == v[1],
{
    reveal_with_fuel(has_record, 3);
    lemma_field_32(s, info.data_dir_offset + 8 * index);
    lemma_field_32(s, info.data_dir_offset + 8 * index + 4);
}

/// What the loader of the boot archive reads of the headers of an image is what
/// the loader of mapped images reads of them.
pub proof fn lemma_readers_agree(s: Seq<u8>, h: PeHeaders)
    requires
        is_pe_headers(s, h),
        s.len() <= usize::MAX,
        pe_offset(s) + 136 <= s.len(),
        sections_offset(s) <= s.len(),
    ensures
        ({
            let info = pe_info_of(s);
            &&& info.machine == h.coff.machine
            &&& info.number_of_sections == h.coff.number_of_sections
            &&& info.size_of_optional_header == h.coff.size_of_optional_header
            &&& info.characteristics == h.coff.characteristics
            &&& info.entry_point_rva == h.opt.address_of_entry_point
            &&& info.image_base == h.opt.image_base
            &&& info.section_alignment == h.opt.section_alignment
            &&& info.file_alignment == h.opt.file_alignment
            &&& info.size_of_image == h.opt.size_of_image
            &&& info.size_of_headers == h.opt.size_of_headers
            &&& info.number_of_rva_and_sizes == h.opt.number_of_rva_and_sizes
            &&& info.data_dir_offset == h.datadir_offset
            &&& h.coff.size_of_optional_header == 112 + 8 * h.num_dirs ==> {
                &&& info.section_headers_offset == h.section_offset
                &&& forall|i: int|
                    0 <= i < h.num_sections ==> #[trigger] info_section(s, info, i) == sections_of(
                        s,
                        h,
                    )[i]
            }
        }),
{
    lemma_headers_are_adjacent(s, h);
}

/// A word that is written to a page is read back, alone or added to what was there
/// modulo 2^64; no other byte changes.
pub proof fn lemma_word_is_written(page: Seq<u8>, offset: int, value: u64, additive: bool, i: int)
    requires
        0 <= offset,
        offset + 8 <= page.len(),
    ensures
        ({
            let after = page_with_word(page, offset, value, additive);
            &&& after.len() == page.len()
            &&& !additive ==> le_u64(after, offset) == value
            &&& additive ==> (le_u64(after, offset) - le_u64(page, offset) - value)
                % 0x1_0000_0000_0000_0000 == 0
            &&& 0 <= i < page.len() && (i < offset || offset + 8 <= i) ==> after[i] == page[i]
        }),
{
    let word = if additive {
        le_u64(page, offset).wrapping_add(value)
    } else {
        value
    };
    lemma_write_read_u64(page, offset, word, offset);
}

/// A file is loadable for a processor exactly if it starts with `MZ`, has `PE` and
/// two zero bytes where the DOS header says, the number of the processor, a section,
/// the magic of 64-bit images, and all of its headers in the file.
pub proof fn lemma_loadable_files(s: Seq<u8>, arch: Arch)
    ensures
        pe_load_error(s, arch) is None <==> {
            let at = field(s, 60, 4);
            &&& s.len() >= 64
            &&& field(s, 0, 2) == 0x5a4d
            &&& at < 0x8000_0000
            &&& at + 136 <= s.len()
            &&& field(s, at, 4) == 0x4550
            &&& field(s, at + 4, 2) == match arch {
                Arch::X86_64 => 0x8664int,
                Arch::Aarch64 => 0xaa64,
            }
            &&& field(s, at + 6, 2) > 0
            &&& field(s, at + 24, 2) == 0x20b
            &&& at + 24 + field(s, at + 20, 2) + 40 * field(s, at + 6, 2) <= s.len()
        },
{
    let at = field(s, 60, 4);
    lemma_field_32(s, 60);
    lemma_field_16(s, 0);
    lemma_field_32(s, at);
    lemma_field_16(s, at + 4);
    lemma_field_16(s, at + 6);
    lemma_field_16(s, at + 20);
    lemma_field_16(s, at + 24);
}

/// Whether descriptor `k` of the import table at `pos` names a module in the file.
pub open spec fn names_module(s: Seq<u8>, info: PeInfo, pos: int, k: int) -> bool {
    let at = file_offset_of(s, info, field(s, pos + 20 * k + 12, 4) as u32);
    at is Some && at->0 < s.len() && s[at->0] != 0
}

/// How many of the first `k` descriptors name a module.
pub open spec fn modules_before(s: Seq<u8>, info: PeInfo, pos: int, k: int) -> int
    decreases k,
{
    if k <= 0 {
        0
    } else {
        modules_before(s, info, pos, k - 1) + if names_module(s, info, pos, k - 1) {
            1int
        } else {
            0
        }
    }
}

proof fn lemma_modules_shift(s: Seq<u8>, info: PeInfo, pos: int, k: int)
    requires
        k >= 1,
    ensures
        modules_before(s, info, pos, k) == modules_before(s, info, pos + 20, k - 1)
            + if names_module(s, info, pos, 0) {
            1int
        } else {
            0
        },
        modules_before(s, info, pos, k) >= 0,
    decreases k,
{
    reveal_with_fuel(modules_before, 2);
    if k > 1 {
        lemma_modules_shift(s, info, pos, k - 1);
        assert(pos + 20 + 20 * (k - 2) + 12 == pos + 20 * (k - 1) + 12);
    }
}

proof fn lemma_import_names_from(
    s: Seq<u8>,
    info: PeInfo,
    pos: int,
    names: Seq<Seq<u8>>,
    k: int,
)
    requires
        forall|j: int| 0 <= j <= k ==> #[trigger] has_descriptor(s, pos, j),
        0 <= k ==> names_module(s, info, pos, k) && names.len() + modules_before(s, info, pos, k)
            < 16,
    ensures
        ({
            let all = import_names(s, info, pos, names);
            let at = names.len() + modules_before(s, info, pos, k);
            &&& all.len() >= names.len()
            &&& forall|j: int| 0 <= j < names.len() ==> all[j] == #[trigger] names[j]
            &&& 0 <= k ==> at < all.len() && all[at] == short_name(
                s,
                module_name_at(s, info, pos, k),
            )
        }),
    decreases s.len() - pos,
{
    let all = import_names(s, info, pos, names);
    lemma_field_32(s, pos + 12);
    lemma_field_32(s, pos + 16);
    if 0 <= k {
        assert(has_descriptor(s, pos, 0));
        if k > 0 {
            lemma_modules_shift(s, info, pos, k);
        }
    }
    if !(pos + 20 > s.len() || is_null_descriptor(s, pos) || names.len() >= 16) {
        let at = file_offset_of(s, info, le_u32(s, pos + 12));
        let next = if at is Some && at->0 < s.len() && s[at->0] != 0 {
            names.push(short_name(s, at->0))
        } else {
            names
        };
        let rest = pos + 20;
        if k > 0 {
            assert forall|j: int| 0 <= j <= k - 1 implies #[trigger] has_descriptor(
                s,
                rest,
                j,
            ) by {
                assert(has_descriptor(s, pos, j + 1));
            }
            assert(rest + 20 * (k - 1) + 12 == pos + 20 * k + 12);
            if k > 1 {
                lemma_modules_shift(s, info, rest, k - 1);
            }
        }
        lemma_import_names_from(
            s,
            info,
            rest,
            next,
            if k > 0 {
                k - 1
            } else {
                -1
            },
        );
        assert forall|j: int| 0 <= j < names.len() implies all[j] == #[trigger] names[j] by {
            assert(all[j] == next[j]);
        }
        if k == 0 {
            assert(all[names.len() as int] == next[names.len() as int]);
        }
    }
}

/// Every module that an image imports from is listed, in the order of the table,
/// up to sixteen of them; a name is cut off at 32 bytes.
pub proof fn lemma_every_imported_module_is_listed(s: Seq<u8>, info: PeInfo, pos: int, k: int)
    requires
        0 <= k,
        forall|j: int| 0 <= j <= k ==> #[trigger] has_descriptor(s, pos, j),
        names_module(s, info, pos, k),
        modules_before(s, info, pos, k) < 16,
    ensures
        ({
            let all = import_names(s, info, pos, Seq::empty());
            let at = modules_before(s, info, pos, k);
            let off = module_name_at(s, info, pos, k);
            &&& 0 <= at < all.len()
            &&& c_len(s, off) <= 32 ==> all[at] == s.subrange(off, off + c_len(s, off))
            &&& c_len(s, off) > 32 ==> all[at] == s.subrange(off, off + 32)
        }),
{
    if k > 0 {
        lemma_modules_shift(s, info, pos, k);
    }
    lemma_import_names_from(s, info, pos, Seq::empty(), k);
}

} // verus!
