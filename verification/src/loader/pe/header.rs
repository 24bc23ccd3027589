//! PE/COFF header validation and section parsing.
use crate::loader::bytes::{
    field, has_record, le_u16, le_u32, le_u64, lemma_field_16, lemma_field_32, lemma_field_64, lemma_field_8,
    read_u16, read_u32, read_u64,
};
use crate::loader::elf::header::Arch;
use crate::loader::pe::types::{
    CoffHeader, DataDirectory, DosHeader, OptionalHeader64, SectionHeader, DOS_MAGIC,
    IMAGE_FILE_MACHINE_AMD64, IMAGE_FILE_MACHINE_ARM64, PE32_PLUS_MAGIC, PE_SIGNATURE,
};
use vstd::prelude::*;

verus! {

/// PE validation errors.
#[derive(Clone, Copy, PartialEq, Eq, Debug, Structural)]
pub enum PeError {
    TooSmall,
    BadDosMagic,
    BadPeSignature,
    Not64Bit,
    BadMachine,
    SectionOverflow,
}

/// Parsed PE headers and where the tables behind them start.
pub struct PeHeaders {
    pub dos: DosHeader,
    pub coff: CoffHeader,
    pub opt: OptionalHeader64,
    pub datadir_offset: usize,
    pub num_dirs: usize,
    pub section_offset: usize,
    pub num_sections: usize,
}

/// COFF machine of images for `arch`.
pub open spec fn pe_machine_of(arch: Arch) -> u16 {
    match arch {
        Arch::X86_64 => 0x8664,
        Arch::Aarch64 => 0xAA64,
    }
}

/// Offset of the PE signature; negative offsets never lie in the file.
pub open spec fn pe_offset(s: Seq<u8>) -> int {
    le_u32(s, 60) as int
}

/// Offset of the COFF header.
pub open spec fn coff_offset(s: Seq<u8>) -> int {
    pe_offset(s) + 4
}

/// Offset of the optional header.
pub open spec fn opt_offset(s: Seq<u8>) -> int {
    pe_offset(s) + 24
}

/// Offset of the data directories.
pub open spec fn dirs_offset(s: Seq<u8>) -> int {
    pe_offset(s) + 136
}

/// Number of data directories that the optional header declares.
pub open spec fn dirs_count(s: Seq<u8>) -> int {
    le_u32(s, opt_offset(s) + 108) as int
}

/// Offset of the section table.
pub open spec fn sections_offset(s: Seq<u8>) -> int {
    dirs_offset(s) + dirs_count(s) * 8
}

/// Number of sections that the COFF header declares.
pub open spec fn sections_count(s: Seq<u8>) -> int {
    le_u16(s, coff_offset(s) + 2) as int
}

/// Why `s` is not a usable PE image; `None` if it is.
pub open spec fn pe_error(s: Seq<u8>, arch: Arch) -> Option<PeError> {
    if s.len() < 64 {
        Some(PeError::TooSmall)
    } else if le_u16(s, 0) != 0x5A4D {
        Some(PeError::BadDosMagic)
    } else if pe_offset(s) >= 0x8000_0000 || dirs_offset(s) > s.len() {
        Some(PeError::TooSmall)
    } else if le_u32(s, pe_offset(s)) != 0x4550 {
        Some(PeError::BadPeSignature)
    } else if le_u16(s, coff_offset(s)) != pe_machine_of(arch) {
        Some(PeError::BadMachine)
    } else if le_u16(s, opt_offset(s)) != 0x020B {
        Some(PeError::Not64Bit)
    } else if sections_offset(s) + sections_count(s) * 40 > s.len() {
        Some(PeError::SectionOverflow)
    } else {
        None
    }
}

/// The fields of the COFF header at `off`.
pub open spec fn coff_at(s: Seq<u8>, off: int) -> CoffHeader {
    CoffHeader {
        machine: le_u16(s, off),
        number_of_sections: le_u16(s, off + 2),
        time_date_stamp: le_u32(s, off + 4),
        pointer_to_symbol_table: le_u32(s, off + 8),
        number_of_symbols: le_u32(s, off + 12),
        size_of_optional_header: le_u16(s, off + 16),
        characteristics: le_u16(s, off + 18),
    }
}

/// The fields of the optional header at `off`.
pub open spec fn opt_at(s: Seq<u8>, off: int) -> OptionalHeader64 {
    OptionalHeader64 {
        magic: le_u16(s, off),
        major_linker_version: s[off + 2],
        minor_linker_version: s[off + 3],
        size_of_code: le_u32(s, off + 4),
        size_of_initialized_data: le_u32(s, off + 8),
        size_of_uninitialized_data: le_u32(s, off + 12),
        address_of_entry_point: le_u32(s, off + 16),
        base_of_code: le_u32(s, off + 20),
        image_base: le_u64(s, off + 24),
        section_alignment: le_u32(s, off + 32),
        file_alignment: le_u32(s, off + 36),
        major_os_version: le_u16(s, off + 40),
        minor_os_version: le_u16(s, off + 42),
        major_image_version: le_u16(s, off + 44),
        minor_image_version: le_u16(s, off + 46),
        major_subsystem_version: le_u16(s, off + 48),
        minor_subsystem_version: le_u16(s, off + 50),
        win32_version_value: le_u32(s, off + 52),
        size_of_image: le_u32(s, off + 56),
        size_of_headers: le_u32(s, off + 60),
        checksum: le_u32(s, off + 64),
        subsystem: le_u16(s, off + 68),
        dll_characteristics: le_u16(s, off + 70),
        size_of_stack_reserve: le_u64(s, off + 72),
        size_of_stack_commit: le_u64(s, off + 80),
        size_of_heap_reserve: le_u64(s, off + 88),
        size_of_heap_commit: le_u64(s, off + 96),
        loader_flags: le_u32(s, off + 104),
        number_of_rva_and_sizes: le_u32(s, off + 108),
    }
}

/// The fields of the DOS header at the start of `s`.
pub open spec fn is_dos_header(s: Seq<u8>, h: DosHeader) -> bool {
    &&& h.e_magic == le_u16(s, 0)
    &&& h.e_cblp == le_u16(s, 2)
    &&& h.e_cp == le_u16(s, 4)
    &&& h.e_crlc == le_u16(s, 6)
    &&& h.e_cparhdr == le_u16(s, 8)
    &&& h.e_minalloc == le_u16(s, 10)
    &&& h.e_maxalloc == le_u16(s, 12)
    &&& h.e_ss == le_u16(s, 14)
    &&& h.e_sp == le_u16(s, 16)
    &&& h.e_csum == le_u16(s, 18)
    &&& h.e_ip == le_u16(s, 20)
    &&& h.e_cs == le_u16(s, 22)
    &&& h.e_lfarlc == le_u16(s, 24)
    &&& h.e_ovno == le_u16(s, 26)
    &&& forall|i: int| 0 <= i < 4 ==> #[trigger] h.e_res@[i] == le_u16(s, 28 + 2 * i)
    &&& h.e_oemid == le_u16(s, 36)
    &&& h.e_oeminfo == le_u16(s, 38)
    &&& forall|i: int| 0 <= i < 10 ==> #[trigger] h.e_res2@[i] == le_u16(s, 40 + 2 * i)
    &&& h.e_lfanew == if le_u32(s, 60) < 0x8000_0000 {
        le_u32(s, 60) as int
    } else {
        le_u32(s, 60) - 0x1_0000_0000
    }
}

/// `h` are the headers of the usable image `s`.
pub open spec fn is_pe_headers(s: Seq<u8>, h: PeHeaders) -> bool {
    &&& is_dos_header(s, h.dos)
    &&& h.coff == coff_at(s, coff_offset(s))
    &&& h.opt == opt_at(s, opt_offset(s))
    &&& h.datadir_offset == dirs_offset(s)
    &&& h.num_dirs == dirs_count(s)
    &&& h.section_offset == sections_offset(s)
    &&& h.num_sections == sections_count(s)
}

/// The tables that `h` points at lie in data of length `len`.
pub open spec fn tables_in(h: PeHeaders, len: int) -> bool {
    &&& h.datadir_offset + h.num_dirs * 8 <= len
    &&& h.section_offset + h.num_sections * 40 <= len
}

fn read_dos_header(data: &[u8]) -> (r: DosHeader)
    requires
        data@.len() >= 64,
    ensures
        is_dos_header(data@, r),
{
    let raw: u32 = read_u32(data, 60);
    let e_lfanew: i32 = if raw < 0x8000_0000 {
        raw as i32
    } else {
        -((0xffff_ffff - raw) as i32) - 1
    };
    DosHeader {
        e_magic: read_u16(data, 0),
        e_cblp: read_u16(data, 2),
        e_cp: read_u16(data, 4),
        e_crlc: read_u16(data, 6),
        e_cparhdr: read_u16(data, 8),
        e_minalloc: read_u16(data, 10),
        e_maxalloc: read_u16(data, 12),
        e_ss: read_u16(data, 14),
        e_sp: read_u16(data, 16),
        e_csum: read_u16(data, 18),
        e_ip: read_u16(data, 20),
        e_cs: read_u16(data, 22),
        e_lfarlc: read_u16(data, 24),
        e_ovno: read_u16(data, 26),
        e_res: [read_u16(data, 28), read_u16(data, 30), read_u16(data, 32), read_u16(data, 34)],
        e_oemid: read_u16(data, 36),
        e_oeminfo: read_u16(data, 38),
        e_res2: [
            read_u16(data, 40),
            read_u16(data, 42),
            read_u16(data, 44),
            read_u16(data, 46),
            read_u16(data, 48),
            read_u16(data, 50),
            read_u16(data, 52),
            read_u16(data, 54),
            read_u16(data, 56),
            read_u16(data, 58),
        ],
        e_lfanew,
    }
}

fn read_coff_header(data: &[u8], off: usize) -> (r: CoffHeader)
    requires
        off + 20 <= data.len(),
    ensures
        r == coff_at(data@, off as int),
{
    CoffHeader {
        machine: read_u16(data, off),
        number_of_sections: read_u16(data, off + 2),
        time_date_stamp: read_u32(data, off + 4),
        pointer_to_symbol_table: read_u32(data, off + 8),
        number_of_symbols: read_u32(data, off + 12),
        size_of_optional_header: read_u16(data, off + 16),
        characteristics: read_u16(data, off + 18),
    }
}

fn read_opt_header(data: &[u8], off: usize) -> (r: OptionalHeader64)
    requires
        off + 112 <= data.len(),
    ensures
        r == opt_at(data@, off as int),
{
    OptionalHeader64 {
        magic: read_u16(data, off),
        major_linker_version: data[off + 2],
        minor_linker_version: data[off + 3],
        size_of_code: read_u32(data, off + 4),
        size_of_initialized_data: read_u32(data, off + 8),
        size_of_uninitialized_data: read_u32(data, off + 12),
        address_of_entry_point: read_u32(data, off + 16),
        base_of_code: read_u32(data, off + 20),
        image_base: read_u64(data, off + 24),
        section_alignment: read_u32(data, off + 32),
        file_alignment: read_u32(data, off + 36),
        major_os_version: read_u16(data, off + 40),
        minor_os_version: read_u16(data, off + 42),
        major_image_version: read_u16(data, off + 44),
        minor_image_version: read_u16(data, off + 46),
        major_subsystem_version: read_u16(data, off + 48),
        minor_subsystem_version: read_u16(data, off + 50),
        win32_version_value: read_u32(data, off + 52),
        size_of_image: read_u32(data, off + 56),
        size_of_headers: read_u32(data, off + 60),
        checksum: read_u32(data, off + 64),
        subsystem: read_u16(data, off + 68),
        dll_characteristics: read_u16(data, off + 70),
        size_of_stack_reserve: read_u64(data, off + 72),
        size_of_stack_commit: read_u64(data, off + 80),
        size_of_heap_reserve: read_u64(data, off + 88),
        size_of_heap_commit: read_u64(data, off + 96),
        loader_flags: read_u32(data, off + 104),
        number_of_rva_and_sizes: read_u32(data, off + 108),
    }
}

/// Validates the DOS and PE headers at the start of `data`.
pub fn validate(data: &[u8], arch: Arch) -> (r: Result<PeHeaders, PeError>)
    ensures
        match pe_error(data@, arch) {
            Some(e) => r == Err::<PeHeaders, PeError>(e),
            None => r is Ok && is_pe_headers(data@, r->Ok_0) && tables_in(
                r->Ok_0,
                data@.len() as int,
            ),
        },
{
    let len: u64 = data.len() as u64;
    if len < 64 {
        return Err(PeError::TooSmall);
    }
    let dos: DosHeader = read_dos_header(data);
    if dos.e_magic != DOS_MAGIC {
        return Err(PeError::BadDosMagic);
    }
    if dos.e_lfanew < 0 || dos.e_lfanew as u64 + 136 > len {
        return Err(PeError::TooSmall);
    }
    let pe_off: usize = dos.e_lfanew as usize;
    if read_u32(data, pe_off) != PE_SIGNATURE {
        return Err(PeError::BadPeSignature);
    }
    let coff: CoffHeader = read_coff_header(data, pe_off + 4);
    let machine: u16 = match arch {
        Arch::X86_64 => IMAGE_FILE_MACHINE_AMD64,
        Arch::Aarch64 => IMAGE_FILE_MACHINE_ARM64,
    };
    if coff.machine != machine {
        return Err(PeError::BadMachine);
    }
    let opt: OptionalHeader64 = read_opt_header(data, pe_off + 24);
    if opt.magic != PE32_PLUS_MAGIC {
        return Err(PeError::Not64Bit);
    }
    let num_dirs: u64 = opt.number_of_rva_and_sizes as u64;
    let section_offset: u64 = pe_off as u64 + 136 + num_dirs * 8;
    let num_sections: u64 = coff.number_of_sections as u64;
    if section_offset + num_sections * 40 > len {
        return Err(PeError::SectionOverflow);
    }
    Ok(
        PeHeaders {
            dos,
            coff,
            opt,
            datadir_offset: pe_off + 136,
            num_dirs: num_dirs as usize,
            section_offset: section_offset as usize,
            num_sections: num_sections as usize,
        },
    )
}

/// What a section header says, its name as a sequence.
pub struct SectionView {
    pub name: Seq<u8>,
    pub virtual_size: u32,
    pub virtual_address: u32,
    pub size_of_raw_data: u32,
    pub pointer_to_raw_data: u32,
    pub pointer_to_relocations: u32,
    pub pointer_to_linenumbers: u32,
    pub number_of_relocations: u16,
    pub number_of_linenumbers: u16,
    pub characteristics: u32,
}

impl View for SectionHeader {
    type V = SectionView;

    open spec fn view(&self) -> SectionView {
        SectionView {
            name: self.name@,
            virtual_size: self.virtual_size,
            virtual_address: self.virtual_address,
            size_of_raw_data: self.size_of_raw_data,
            pointer_to_raw_data: self.pointer_to_raw_data,
            pointer_to_relocations: self.pointer_to_relocations,
            pointer_to_linenumbers: self.pointer_to_linenumbers,
            number_of_relocations: self.number_of_relocations,
            number_of_linenumbers: self.number_of_linenumbers,
            characteristics: self.characteristics,
        }
    }
}

/// The section header at `off`.
pub open spec fn section_at(s: Seq<u8>, off: int) -> SectionView {
    SectionView {
        name: s.subrange(off, off + 8),
        virtual_size: le_u32(s, off + 8),
        virtual_address: le_u32(s, off + 12),
        size_of_raw_data: le_u32(s, off + 16),
        pointer_to_raw_data: le_u32(s, off + 20),
        pointer_to_relocations: le_u32(s, off + 24),
        pointer_to_linenumbers: le_u32(s, off + 28),
        number_of_relocations: le_u16(s, off + 32),
        number_of_linenumbers: le_u16(s, off + 34),
        characteristics: le_u32(s, off + 36),
    }
}

/// The section table of `h` in `s`.
pub open spec fn sections_of(s: Seq<u8>, h: PeHeaders) -> Seq<SectionView> {
    Seq::new(h.num_sections as nat, |i: int| section_at(s, h.section_offset + 40 * i))
}

/// Data directory `idx` of `h` in `s`, if it is declared and not empty.
pub open spec fn directory_of(s: Seq<u8>, h: PeHeaders, idx: int) -> Option<DataDirectory> {
    let off = h.datadir_offset + idx * 8;
    if idx >= h.num_dirs || le_u32(s, off) == 0 || le_u32(s, off + 4) == 0 {
        None
    } else {
        Some(DataDirectory { virtual_address: le_u32(s, off), size: le_u32(s, off + 4) })
    }
}

impl PeHeaders {
    /// Returns a data directory entry by index, if it exists.
    pub fn data_directory(&self, data: &[u8], idx: usize) -> (r: Option<DataDirectory>)
        requires
            tables_in(*self, data@.len() as int),
        ensures
            r == directory_of(data@, *self, idx as int),
    {
        if idx >= self.num_dirs {
            return None;
        }
        let len: usize = data.len();
        assert(self.datadir_offset + idx * 8 + 8 <= len);
        let off: usize = self.datadir_offset + idx * 8;
        let virtual_address: u32 = read_u32(data, off);
        let size: u32 = read_u32(data, off + 4);
        if virtual_address == 0 || size == 0 {
            return None;
        }
        Some(DataDirectory { virtual_address, size })
    }

    /// Returns the section headers.
    pub fn sections(&self, data: &[u8]) -> (r: Vec<SectionHeader>)
        requires
            tables_in(*self, data@.len() as int),
        ensures
            r@.len() == self.num_sections,
            forall|i: int|
                0 <= i < r@.len() ==> (#[trigger] r@[i])@ == sections_of(data@, *self)[i],
    {
        let mut out: Vec<SectionHeader> = Vec::new();
        let mut i: usize = 0;
        while i < self.num_sections
            invariant
                i <= self.num_sections,
                tables_in(*self, data.len() as int),
                out@.len() == i,
                forall|j: int|
                    0 <= j < i ==> (#[trigger] out@[j])@ == sections_of(data@, *self)[j],
            decreases self.num_sections - i,
        {
            let off: usize = self.section_offset + i * 40;
            let header = SectionHeader {
                name: [
                    data[off],
                    data[off + 1],
                    data[off + 2],
                    data[off + 3],
                    data[off + 4],
                    data[off + 5],
                    data[off + 6],
                    data[off + 7],
                ],
                virtual_size: read_u32(data, off + 8),
                virtual_address: read_u32(data, off + 12),
                size_of_raw_data: read_u32(data, off + 16),
                pointer_to_raw_data: read_u32(data, off + 20),
                pointer_to_relocations: read_u32(data, off + 24),
                pointer_to_linenumbers: read_u32(data, off + 28),
                number_of_relocations: read_u16(data, off + 32),
                number_of_linenumbers: read_u16(data, off + 34),
                characteristics: read_u32(data, off + 36),
            };
            assert(header.name@ =~= data@.subrange(off as int, off + 8));
            out.push(header);
            i = i + 1;
        }
        out
    }
}

/// A COFF header is machine, number of sections, time, symbol table, number of
/// symbols, size of the optional header and characteristics, one behind the other.
pub proof fn lemma_coff_record(s: Seq<u8>, off: int, v: Seq<int>)
    requires
        has_record(s, off, seq![2int, 2, 4, 4, 4, 2, 2], v, 0),
    ensures
        coff_at(s, off).machine == v[0],
        coff_at(s, off).number_of_sections == v[1],
        coff_at(s, off).time_date_stamp == v[2],
        coff_at(s, off).pointer_to_symbol_table == v[3],
        coff_at(s, off).number_of_symbols == v[4],
        coff_at(s, off).size_of_optional_header == v[5],
        coff_at(s, off).characteristics == v[6],
{
    reveal_with_fuel(has_record, 8);
    lemma_field_16(s, off);
    lemma_field_16(s, off + 2);
    lemma_field_32(s, off + 4);
    lemma_field_32(s, off + 8);
    lemma_field_32(s, off + 12);
    lemma_field_16(s, off + 16);
    lemma_field_16(s, off + 18);
}

/// The fields of an optional header are one behind the other in the order of
/// [`OptionalHeader64`].
pub proof fn lemma_optional_header_record(s: Seq<u8>, off: int, v: Seq<int>)
    requires
        has_record(
            s,
            off,
            seq![
                2int, 1, 1, 4, 4, 4, 4, 4, 8, 4, 4, 2, 2, 2, 2, 2, 2, 4, 4, 4, 4, 2, 2, 8, 8, 8, 8,
                4, 4,
            ],
            v,
            0,
        ),
    ensures
        opt_at(s, off).magic == v[0],
        opt_at(s, off).major_linker_version == v[1],
        opt_at(s, off).minor_linker_version == v[2],
        opt_at(s, off).size_of_code == v[3],
        opt_at(s, off).size_of_initialized_data == v[4],
        opt_at(s, off).size_of_uninitialized_data == v[5],
        opt_at(s, off).address_of_entry_point == v[6],
        opt_at(s, off).base_of_code == v[7],
        opt_at(s, off).image_base == v[8],
        opt_at(s, off).section_alignment == v[9],
        opt_at(s, off).file_alignment == v[10],
        opt_at(s, off).major_os_version == v[11],
        opt_at(s, off).minor_os_version == v[12],
        opt_at(s, off).major_image_version == v[13],
        opt_at(s, off).minor_image_version == v[14],
        opt_at(s, off).major_subsystem_version == v[15],
        opt_at(s, off).minor_subsystem_version == v[16],
        opt_at(s, off).win32_version_value == v[17],
        opt_at(s, off).size_of_image == v[18],
        opt_at(s, off).size_of_headers == v[19],
        opt_at(s, off).checksum == v[20],
        opt_at(s, off).subsystem == v[21],
        opt_at(s, off).dll_characteristics == v[22],
        opt_at(s, off).size_of_stack_reserve == v[23],
        opt_at(s, off).size_of_stack_commit == v[24],
        opt_at(s, off).size_of_heap_reserve == v[25],
        opt_at(s, off).size_of_heap_commit == v[26],
        opt_at(s, off).loader_flags == v[27],
        opt_at(s, off).number_of_rva_and_sizes == v[28],
{
    reveal_with_fuel(has_record, 30);
    lemma_field_16(s, off);
    lemma_field_8(s, off + 2);
    lemma_field_8(s, off + 3);
    lemma_field_32(s, off + 4);
    lemma_field_32(s, off + 8);
    lemma_field_32(s, off + 12);
    lemma_field_32(s, off + 16);
    lemma_field_32(s, off + 20);
    lemma_field_64(s, off + 24);
    lemma_field_32(s, off + 32);
    lemma_field_32(s, off + 36);
    lemma_field_16(s, off + 40);
    lemma_field_16(s, off + 42);
    lemma_field_16(s, off + 44);
    lemma_field_16(s, off + 46);
    lemma_field_16(s, off + 48);
    lemma_field_16(s, off + 50);
    lemma_field_32(s, off + 52);
    lemma_field_32(s, off + 56);
    lemma_field_32(s, off + 60);
    lemma_field_32(s, off + 64);
    lemma_field_16(s, off + 68);
    lemma_field_16(s, off + 70);
    lemma_field_64(s, off + 72);
    lemma_field_64(s, off + 80);
    lemma_field_64(s, off + 88);
    lemma_field_64(s, off + 96);
    lemma_field_32(s, off + 104);
    lemma_field_32(s, off + 108);
}

/// A section header is eight bytes of name; then size and address in memory, size and
/// offset in the file, and five fields more, of which the last is the characteristics,
/// one behind the other.
pub proof fn lemma_section_record(s: Seq<u8>, off: int, v: Seq<int>)
    requires
        has_record(s, off, seq![4int, 4, 4, 4, 4, 4, 2, 2, 4], v, 0),
    ensures
        section_at(s, off - 8).virtual_size == v[0],
        section_at(s, off - 8).virtual_address == v[1],
        section_at(s, off - 8).size_of_raw_data == v[2],
        section_at(s, off - 8).pointer_to_raw_data == v[3],
        section_at(s, off - 8).pointer_to_relocations == v[4],
        section_at(s, off - 8).pointer_to_linenumbers == v[5],
        section_at(s, off - 8).number_of_relocations == v[6],
        section_at(s, off - 8).number_of_linenumbers == v[7],
        section_at(s, off - 8).characteristics == v[8],
{
    reveal_with_fuel(has_record, 10);
    lemma_field_32(s, off);
    lemma_field_32(s, off + 4);
    lemma_field_32(s, off + 8);
    lemma_field_32(s, off + 12);
    lemma_field_32(s, off + 16);
    lemma_field_32(s, off + 20);
    lemma_field_16(s, off + 24);
    lemma_field_16(s, off + 26);
    lemma_field_32(s, off + 28);
}

/// The headers are one behind the other: the four bytes of the signature at the
/// offset that the DOS header has at 60, the COFF header of 20 bytes, the optional
/// header of 112, as many directories of eight bytes as that says, and the sections,
/// as many as the COFF header says.
pub proof fn lemma_headers_are_adjacent(s: Seq<u8>, h: PeHeaders)
    requires
        is_pe_headers(s, h),
    ensures
        ({
            let at = field(s, 60, 4);
            &&& h.coff == coff_at(s, at + 4)
            &&& h.opt == opt_at(s, at + 4 + 20)
            &&& h.datadir_offset == at + 4 + 20 + 112
            &&& h.num_dirs == h.opt.number_of_rva_and_sizes
            &&& h.section_offset == h.datadir_offset + 8 * h.num_dirs
            &&& h.num_sections == h.coff.number_of_sections
        }),
{
    lemma_field_32(s, 60);
}

/// A file is a usable image for a processor exactly if it starts with `MZ`, has
/// `PE` and two zero bytes where the DOS header says, the number of the processor,
/// the magic of 64-bit images, and all of its headers in the file.
pub proof fn lemma_usable_images(s: Seq<u8>, arch: Arch)
    ensures
        pe_error(s, arch) is None <==> {
            let at = field(s, 60, 4);
            &&& s.len() >= 64
            &&& s[0] == 0x4d && s[1] == 0x5a
            &&& at < 0x8000_0000
            &&& at + 136 <= s.len()
            &&& field(s, at, 4) == 0x4550
            &&& field(s, at + 4, 2) == match arch {
                Arch::X86_64 => 0x8664int,
                Arch::Aarch64 => 0xaa64,
            }
            &&& field(s, at + 24, 2) == 0x20b
            &&& at + 136 + 8 * field(s, at + 132, 4) + 40 * field(s, at + 6, 2) <= s.len()
        },
{
    let at = field(s, 60, 4);
    lemma_field_32(s, 60);
    lemma_field_16(s, 0);
    reveal_with_fuel(field, 3);
    assert(le_u16(s, 0) == s[0] + 256 * s[1]);
    lemma_field_32(s, at);
    lemma_field_16(s, at + 4);
    lemma_field_16(s, at + 6);
    lemma_field_16(s, at + 24);
    lemma_field_32(s, at + 132);
    assert(opt_offset(s) + 108 == at + 132);
    assert(coff_offset(s) + 2 == at + 6);
}

} // verus!
