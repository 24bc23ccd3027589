//! ELF header validation and program header parsing.
use crate::loader::bytes::{
    field, has_record, le_u16, le_u32, le_u64, lemma_field_16, lemma_field_32, lemma_field_64, read_u16,
    read_u32, read_u64,
};
use crate::loader::elf::types::{
    page_ceil, page_floor, Elf64Ehdr, Elf64Phdr, ELFCLASS64,
    ELFDATA2LSB, EM_AARCH64, EM_X86_64, ET_DYN, ET_EXEC, PT_DYNAMIC, PT_INTERP, PT_LOAD, PT_PHDR,
    PT_TLS,
};
use vstd::prelude::*;

verus! {

/// The processor that images have to be built for.
#[derive(Clone, Copy, PartialEq, Eq, Debug, Structural)]
pub enum Arch {
    X86_64,
    Aarch64,
}

#[derive(Clone, Copy, PartialEq, Eq, Debug, Structural)]
pub enum ElfError {
    TooSmall,
    BadMagic,
    Not64Bit,
    NotLittleEndian,
    BadType,
    BadMachine,
    NoPhdr,
    PhdrOverflow,
}

/// Size of the ELF64 file header.
pub const EHDR_SIZE: usize = 64;

/// Size of one program header.
pub const PHDR_SIZE: usize = 56;

/// `e_machine` of images for `arch`.
pub open spec fn machine_of(arch: Arch) -> u16 {
    match arch {
        Arch::X86_64 => 62,
        Arch::Aarch64 => 183,
    }
}

/// The fields of the file header that starts at offset 0.
pub open spec fn is_ehdr(s: Seq<u8>, h: Elf64Ehdr) -> bool {
    &&& h.e_ident@ == s.subrange(0, 16)
    &&& h.e_type == le_u16(s, 16)
    &&& h.e_machine == le_u16(s, 18)
    &&& h.e_version == le_u32(s, 20)
    &&& h.e_entry == le_u64(s, 24)
    &&& h.e_phoff == le_u64(s, 32)
    &&& h.e_shoff == le_u64(s, 40)
    &&& h.e_flags == le_u32(s, 48)
    &&& h.e_ehsize == le_u16(s, 52)
    &&& h.e_phentsize == le_u16(s, 54)
    &&& h.e_phnum == le_u16(s, 56)
    &&& h.e_shentsize == le_u16(s, 58)
    &&& h.e_shnum == le_u16(s, 60)
    &&& h.e_shstrndx == le_u16(s, 62)
}

/// Why `s` is not the start of a usable ELF64 image; `None` if it is.
pub open spec fn ehdr_error(s: Seq<u8>, arch: Arch) -> Option<ElfError> {
    if s.len() < 64 {
        Some(ElfError::TooSmall)
    } else if !(s[0] == 0x7f && s[1] == 0x45 && s[2] == 0x4c && s[3] == 0x46) {
        Some(ElfError::BadMagic)
    } else if s[4] != 2 {
        Some(ElfError::Not64Bit)
    } else if s[5] != 1 {
        Some(ElfError::NotLittleEndian)
    } else if le_u16(s, 16) != 2 && le_u16(s, 16) != 3 {
        Some(ElfError::BadType)
    } else if le_u16(s, 18) != machine_of(arch) {
        Some(ElfError::BadMachine)
    } else {
        None
    }
}

/// Reads the file header at the start of `data`.
pub fn read_ehdr(data: &[u8]) -> (r: Elf64Ehdr)
    requires
        data@.len() >= 64,
    ensures
        is_ehdr(data@, r),
{
    let h = Elf64Ehdr {
        e_ident: [
            data[0],
            data[1],
            data[2],
            data[3],
            data[4],
            data[5],
            data[6],
            data[7],
            data[8],
            data[9],
            data[10],
            data[11],
            data[12],
            data[13],
            data[14],
            data[15],
        ],
        e_type: read_u16(data, 16),
        e_machine: read_u16(data, 18),
        e_version: read_u32(data, 20),
        e_entry: read_u64(data, 24),
        e_phoff: read_u64(data, 32),
        e_shoff: read_u64(data, 40),
        e_flags: read_u32(data, 48),
        e_ehsize: read_u16(data, 52),
        e_phentsize: read_u16(data, 54),
        e_phnum: read_u16(data, 56),
        e_shentsize: read_u16(data, 58),
        e_shnum: read_u16(data, 60),
        e_shstrndx: read_u16(data, 62),
    };
    assert(h.e_ident@ =~= data@.subrange(0, 16));
    h
}

/// Validates the ELF64 header at the start of `data`.
pub fn validate_ehdr(data: &[u8], arch: Arch) -> (r: Result<Elf64Ehdr, ElfError>)
    ensures
        match ehdr_error(data@, arch) {
            Some(e) => r == Err::<Elf64Ehdr, ElfError>(e),
            None => r is Ok && is_ehdr(data@, r->Ok_0),
        },
{
    if data.len() < EHDR_SIZE {
        return Err(ElfError::TooSmall);
    }
    let ehdr: Elf64Ehdr = read_ehdr(data);
    if !(data[0] == 0x7f && data[1] == 0x45 && data[2] == 0x4c && data[3] == 0x46) {
        return Err(ElfError::BadMagic);
    }
    if data[4] != ELFCLASS64 {
        return Err(ElfError::Not64Bit);
    }
    if data[5] != ELFDATA2LSB {
        return Err(ElfError::NotLittleEndian);
    }
    if ehdr.e_type != ET_EXEC && ehdr.e_type != ET_DYN {
        return Err(ElfError::BadType);
    }
    let machine: u16 = match arch {
        Arch::X86_64 => EM_X86_64,
        Arch::Aarch64 => EM_AARCH64,
    };
    if ehdr.e_machine != machine {
        return Err(ElfError::BadMachine);
    }
    Ok(ehdr)
}

/// The program header at offset `off`.
pub open spec fn phdr_at(s: Seq<u8>, off: int) -> Elf64Phdr {
    Elf64Phdr {
        p_type: le_u32(s, off),
        p_flags: le_u32(s, off + 4),
        p_offset: le_u64(s, off + 8),
        p_vaddr: le_u64(s, off + 16),
        p_paddr: le_u64(s, off + 24),
        p_filesz: le_u64(s, off + 32),
        p_memsz: le_u64(s, off + 40),
        p_align: le_u64(s, off + 48),
    }
}

/// Reads the program header at offset `off`.
pub fn read_phdr(data: &[u8], off: usize) -> (r: Elf64Phdr)
    requires
        off + 56 <= data.len(),
    ensures
        r == phdr_at(data@, off as int),
{
    Elf64Phdr {
        p_type: read_u32(data, off),
        p_flags: read_u32(data, off + 4),
        p_offset: read_u64(data, off + 8),
        p_vaddr: read_u64(data, off + 16),
        p_paddr: read_u64(data, off + 24),
        p_filesz: read_u64(data, off + 32),
        p_memsz: read_u64(data, off + 40),
        p_align: read_u64(data, off + 48),
    }
}

/// Why the program header table of `ehdr` is not usable; `None` if it is. The
/// declared table and the entries themselves have to lie in the file.
pub open spec fn phdr_error(len: int, ehdr: Elf64Ehdr) -> Option<ElfError> {
    if ehdr.e_phnum == 0 {
        Some(ElfError::NoPhdr)
    } else if ehdr.e_phoff + ehdr.e_phnum * ehdr.e_phentsize > len || ehdr.e_phoff + ehdr.e_phnum
        * 56 > len {
        Some(ElfError::PhdrOverflow)
    } else {
        None
    }
}

/// Returns the program headers of a validated ELF image.
pub fn phdr_slice(data: &[u8], ehdr: &Elf64Ehdr) -> (r: Result<Vec<Elf64Phdr>, ElfError>)
    ensures
        match phdr_error(data@.len() as int, *ehdr) {
            Some(e) => r == Err::<Vec<Elf64Phdr>, ElfError>(e),
            None => r is Ok && r->Ok_0@.len() == ehdr.e_phnum && forall|i: int|
                0 <= i < ehdr.e_phnum ==> #[trigger] r->Ok_0@[i] == phdr_at(
                    data@,
                    ehdr.e_phoff + 56 * i,
                ),
        },
{
    let phnum: usize = ehdr.e_phnum as usize;
    let phentsize: usize = ehdr.e_phentsize as usize;
    if phnum == 0 {
        return Err(ElfError::NoPhdr);
    }
    proof {
        assert(phnum * phentsize <= 0xffff * 0xffff) by (nonlinear_arith)
            requires phnum <= 0xffff, phentsize <= 0xffff;
    }
    let table: u64 = phnum as u64 * phentsize as u64;
    let entries: u64 = phnum as u64 * 56;
    let len: u64 = data.len() as u64;
    if table > len || ehdr.e_phoff > len - table || entries > len || ehdr.e_phoff > len - entries {
        return Err(ElfError::PhdrOverflow);
    }
    let phoff: usize = ehdr.e_phoff as usize;
    let mut out: Vec<Elf64Phdr> = Vec::new();
    let mut i: usize = 0;
    while i < phnum
        invariant
            i <= phnum,
            phoff == ehdr.e_phoff,
            phoff + phnum * 56 <= data.len(),
            out@.len() == i,
            forall|j: int|
                0 <= j < i ==> #[trigger] out@[j] == phdr_at(data@, ehdr.e_phoff + 56 * j),
        decreases phnum - i,
    {
        let ph: Elf64Phdr = read_phdr(data, phoff + i * 56);
        out.push(ph);
        i = i + 1;
    }
    Ok(out)
}

/// Whether a header describes a loadable segment.
pub open spec fn is_load(ph: Elf64Phdr) -> bool {
    ph.p_type == 1
}

/// Lowest address of the loadable segments among the first `n` headers.
pub open spec fn span_lo(phdrs: Seq<Elf64Phdr>, n: int) -> int
    decreases n,
{
    if n <= 0 {
        u64::MAX as int
    } else {
        let lo = span_lo(phdrs, n - 1);
        let ph = phdrs[n - 1];
        if is_load(ph) && ph.p_vaddr < lo {
            ph.p_vaddr as int
        } else {
            lo
        }
    }
}

/// Highest end address of the loadable segments among the first `n` headers.
pub open spec fn span_hi(phdrs: Seq<Elf64Phdr>, n: int) -> int
    decreases n,
{
    if n <= 0 {
        0
    } else {
        let hi = span_hi(phdrs, n - 1);
        let ph = phdrs[n - 1];
        if is_load(ph) && ph.p_vaddr + ph.p_memsz > hi {
            ph.p_vaddr + ph.p_memsz
        } else {
            hi
        }
    }
}

/// Whether there is a loadable segment, and none of them ends past the address
/// space.
pub open spec fn has_span(phdrs: Seq<Elf64Phdr>) -> bool {
    &&& exists|i: int| 0 <= i < phdrs.len() && is_load(#[trigger] phdrs[i])
    &&& forall|i: int|
        0 <= i < phdrs.len() && is_load(#[trigger] phdrs[i]) ==> phdrs[i].p_vaddr
            + phdrs[i].p_memsz <= u64::MAX
}

/// The page-aligned address range of the loadable segments.
pub open spec fn span_of(phdrs: Seq<Elf64Phdr>) -> (int, int) {
    (page_floor(span_lo(phdrs, phdrs.len() as int)), page_ceil(span_hi(phdrs, phdrs.len() as int)))
}

/// Every loadable segment lies within the span.
pub proof fn lemma_span_covers(phdrs: Seq<Elf64Phdr>, n: int, i: int)
    requires
        0 <= i < n <= phdrs.len(),
        is_load(phdrs[i]),
    ensures
        span_lo(phdrs, n) <= phdrs[i].p_vaddr,
        phdrs[i].p_vaddr + phdrs[i].p_memsz <= span_hi(phdrs, n),
    decreases n,
{
    if i < n - 1 {
        lemma_span_covers(phdrs, n - 1, i);
    }
}

/// Computes the virtual address span of all `PT_LOAD` segments.
///
/// Returns `(lo, hi)` where `lo` is the lowest vaddr (page-aligned down) and
/// `hi` is the highest vaddr+memsz (page-aligned up), or `None` if there is no
/// such segment or one wraps around the address space.
pub fn load_span(phdrs: &[Elf64Phdr]) -> (r: Option<(u64, u64)>)
    requires
        has_span(phdrs@) ==> span_hi(phdrs@, phdrs@.len() as int) + 4095 <= u64::MAX,
    ensures
        match r {
            Some((lo, hi)) => has_span(phdrs@) && (lo as int, hi as int) == span_of(phdrs@),
            None => !has_span(phdrs@),
        },
{
    let mut lo: u64 = u64::MAX;
    let mut hi: u64 = 0;
    let mut found: bool = false;
    let mut i: usize = 0;
    while i < phdrs.len()
        invariant
            i <= phdrs@.len(),
            lo == span_lo(phdrs@, i as int),
            hi == span_hi(phdrs@, i as int),
            found == exists|j: int| 0 <= j < i && is_load(#[trigger] phdrs@[j]),
            forall|j: int|
                0 <= j < i && is_load(#[trigger] phdrs@[j]) ==> phdrs@[j].p_vaddr
                    + phdrs@[j].p_memsz <= u64::MAX,
        decreases phdrs@.len() - i,
    {
        let ph: Elf64Phdr = phdrs[i];
        assert(ph == phdrs@[i as int]);
        if ph.p_type == PT_LOAD {
            found = true;
            if ph.p_memsz > u64::MAX - ph.p_vaddr {
                return None;
            }
            if ph.p_vaddr < lo {
                lo = ph.p_vaddr;
            }
            if ph.p_vaddr + ph.p_memsz > hi {
                hi = ph.p_vaddr + ph.p_memsz;
            }
        }
        i = i + 1;
    }
    if !found {
        return None;
    }
    Some((lo / 4096 * 4096, (hi + 4095) / 4096 * 4096))
}

/// Index of the first header of type `t`, as an option over `phdrs`.
pub open spec fn is_first_of_type(phdrs: Seq<Elf64Phdr>, t: u32, r: Option<&Elf64Phdr>) -> bool {
    match r {
        Some(ph) => exists|i: int|
            0 <= i < phdrs.len() && #[trigger] phdrs[i] == *ph && ph.p_type == t && forall|j: int|
                0 <= j < i ==> (#[trigger] phdrs[j]).p_type != t,
        None => forall|j: int| 0 <= j < phdrs.len() ==> (#[trigger] phdrs[j]).p_type != t,
    }
}

fn find_phdr(phdrs: &[Elf64Phdr], t: u32) -> (r: Option<&Elf64Phdr>)
    ensures
        is_first_of_type(phdrs@, t, r),
{
    let mut i: usize = 0;
    while i < phdrs.len()
        invariant
            i <= phdrs@.len(),
            forall|j: int| 0 <= j < i ==> (#[trigger] phdrs@[j]).p_type != t,
        decreases phdrs@.len() - i,
    {
        let ph = &phdrs[i];
        if ph.p_type == t {
            assert(phdrs@[i as int] == *ph);
            return Some(ph);
        }
        i = i + 1;
    }
    None
}

/// Returns `true` if this ELF has a `PT_INTERP` segment.
pub fn has_interp(phdrs: &[Elf64Phdr]) -> (r: bool)
    ensures
        r == exists|i: int| 0 <= i < phdrs@.len() && (#[trigger] phdrs@[i]).p_type == 3,
{
    match find_phdr(phdrs, PT_INTERP) {
        Some(_) => true,
        None => false,
    }
}

/// The bytes of an interpreter segment, without a trailing NUL; `None` if they
/// are not all in the file.
pub open spec fn interp_of(s: Seq<u8>, ph: Elf64Phdr) -> Option<Seq<u8>> {
    let end = ph.p_offset + ph.p_filesz;
    if end > s.len() {
        None
    } else if ph.p_filesz > 0 && s[end - 1] == 0 {
        Some(s.subrange(ph.p_offset as int, end - 1))
    } else {
        Some(s.subrange(ph.p_offset as int, end))
    }
}

/// Returns the interpreter path from the first `PT_INTERP` segment.
pub fn get_interp<'a>(data: &'a [u8], phdrs: &[Elf64Phdr]) -> (r: Option<&'a [u8]>)
    ensures
        exists|ph: Option<&Elf64Phdr>|
            #[trigger] is_first_of_type(phdrs@, 3, ph) && match (ph, r) {
                (None, r) => r is None,
                (Some(ph), None) => interp_of(data@, *ph) is None,
                (Some(ph), Some(path)) => interp_of(data@, *ph) == Some(path@),
            },
{
    let found = find_phdr(phdrs, PT_INTERP);
    assert(is_first_of_type(phdrs@, 3, found));
    let ph = match found {
        Some(ph) => ph,
        None => return None,
    };
    let len: usize = data.len();
    if ph.p_filesz > len as u64 || ph.p_offset > len as u64 - ph.p_filesz {
        return None;
    }
    let start: usize = ph.p_offset as usize;
    let mut end: usize = start + ph.p_filesz as usize;
    if end > start && data[end - 1] == 0 {
        end = end - 1;
    }
    Some(vstd::slice::slice_subrange(data, start, end))
}

/// Finds the `PT_TLS` program header if present.
pub fn find_tls_phdr(phdrs: &[Elf64Phdr]) -> (r: Option<&Elf64Phdr>)
    ensures
        is_first_of_type(phdrs@, 7, r),
{
    find_phdr(phdrs, PT_TLS)
}

/// Finds the `PT_DYNAMIC` program header if present.
pub fn find_dynamic_phdr(phdrs: &[Elf64Phdr]) -> (r: Option<&Elf64Phdr>)
    ensures
        is_first_of_type(phdrs@, 2, r),
{
    find_phdr(phdrs, PT_DYNAMIC)
}

/// Finds the `PT_PHDR` program header if present.
pub fn find_phdr_phdr(phdrs: &[Elf64Phdr]) -> (r: Option<&Elf64Phdr>)
    ensures
        is_first_of_type(phdrs@, 6, r),
{
    find_phdr(phdrs, PT_PHDR)
}

proof fn lemma_span_bounds(phdrs: Seq<Elf64Phdr>, n: int)
    requires
        0 <= n <= phdrs.len(),
        exists|i: int| 0 <= i < n && is_load(#[trigger] phdrs[i]),
    ensures
        exists|i: int|
            0 <= i < n && is_load(#[trigger] phdrs[i]) && phdrs[i].p_vaddr == span_lo(phdrs, n),
        span_hi(phdrs, n) == 0 || exists|i: int|
            0 <= i < n && is_load(#[trigger] phdrs[i]) && phdrs[i].p_vaddr + phdrs[i].p_memsz
                == span_hi(phdrs, n),
    decreases n,
{
    let ph = phdrs[n - 1];
    if exists|i: int| 0 <= i < n - 1 && is_load(#[trigger] phdrs[i]) {
        lemma_span_bounds(phdrs, n - 1);
        let i = choose|i: int|
            0 <= i < n - 1 && is_load(#[trigger] phdrs[i]) && phdrs[i].p_vaddr == span_lo(
                phdrs,
                n - 1,
            );
        assert(is_load(phdrs[i]));
        if span_hi(phdrs, n - 1) != 0 {
            let j = choose|j: int|
                0 <= j < n - 1 && is_load(#[trigger] phdrs[j]) && phdrs[j].p_vaddr
                    + phdrs[j].p_memsz == span_hi(phdrs, n - 1);
            assert(is_load(phdrs[j]));
        }
    } else {
        lemma_span_without_load(phdrs, n - 1);
    }
    assert(is_load(ph) ==> is_load(phdrs[n - 1]));
}

proof fn lemma_span_without_load(phdrs: Seq<Elf64Phdr>, n: int)
    requires
        0 <= n <= phdrs.len(),
        forall|i: int| 0 <= i < n ==> !is_load(#[trigger] phdrs[i]),
    ensures
        span_lo(phdrs, n) == u64::MAX,
        span_hi(phdrs, n) == 0,
    decreases n,
{
    if n > 0 {
        lemma_span_without_load(phdrs, n - 1);
        assert(!is_load(phdrs[n - 1]));
    }
}

/// The span of the loadable segments is whole pages, has every segment in it, and
/// is no larger than that takes: a segment starts in its first page, and one ends
/// in its last.
pub proof fn lemma_span_is_tight(phdrs: Seq<Elf64Phdr>)
    requires
        has_span(phdrs),
    ensures
        ({
            let (lo, hi) = span_of(phdrs);
            &&& lo % 4096 == 0
            &&& hi % 4096 == 0
            &&& forall|i: int|
                0 <= i < phdrs.len() && (#[trigger] phdrs[i]).p_type == 1 ==> lo
                    <= phdrs[i].p_vaddr && phdrs[i].p_vaddr + phdrs[i].p_memsz <= hi
            &&& exists|i: int|
                0 <= i < phdrs.len() && (#[trigger] phdrs[i]).p_type == 1 && phdrs[i].p_vaddr < lo
                    + 4096
            &&& hi == 0 || exists|i: int|
                0 <= i < phdrs.len() && (#[trigger] phdrs[i]).p_type == 1 && hi
                    < phdrs[i].p_vaddr + phdrs[i].p_memsz + 4096
        }),
{
    let n = phdrs.len() as int;
    lemma_span_bounds(phdrs, n);
    assert forall|i: int| 0 <= i < phdrs.len() && (#[trigger] phdrs[i]).p_type == 1 implies span_of(
        phdrs,
    ).0 <= phdrs[i].p_vaddr && phdrs[i].p_vaddr + phdrs[i].p_memsz <= span_of(phdrs).1 by {
        lemma_span_covers(phdrs, n, i);
    }
    let i = choose|i: int|
        0 <= i < n && is_load(#[trigger] phdrs[i]) && phdrs[i].p_vaddr == span_lo(phdrs, n);
    assert(phdrs[i].p_type == 1);
    lemma_span_covers(phdrs, n, i);
    if span_hi(phdrs, n) != 0 {
        let j = choose|j: int|
            0 <= j < n && is_load(#[trigger] phdrs[j]) && phdrs[j].p_vaddr + phdrs[j].p_memsz
                == span_hi(phdrs, n);
        assert(phdrs[j].p_type == 1);
    }
}

/// A file header is sixteen bytes of identification; then type, machine, version,
/// entry, the offsets of the program and the section headers, flags, its own size,
/// and the size and number of both, one behind the other.
pub proof fn lemma_file_header_record(s: Seq<u8>, off: int, v: Seq<int>, h: Elf64Ehdr)
    requires
        has_record(s, off, seq![2int, 2, 4, 8, 8, 8, 4, 2, 2, 2, 2, 2, 2], v, 0),
        off == 16,
        is_ehdr(s, h),
    ensures
        h.e_type == v[0],
        h.e_machine == v[1],
        h.e_version == v[2],
        h.e_entry == v[3],
        h.e_phoff == v[4],
        h.e_shoff == v[5],
        h.e_flags == v[6],
        h.e_ehsize == v[7],
        h.e_phentsize == v[8],
        h.e_phnum == v[9],
        h.e_shentsize == v[10],
        h.e_shnum == v[11],
        h.e_shstrndx == v[12],
{
    reveal_with_fuel(has_record, 14);
    lemma_field_16(s, off);
    lemma_field_16(s, off + 2);
    lemma_field_32(s, off + 4);
    lemma_field_64(s, off + 8);
    lemma_field_64(s, off + 16);
    lemma_field_64(s, off + 24);
    lemma_field_32(s, off + 32);
    lemma_field_16(s, off + 36);
    lemma_field_16(s, off + 38);
    lemma_field_16(s, off + 40);
    lemma_field_16(s, off + 42);
    lemma_field_16(s, off + 44);
    lemma_field_16(s, off + 46);
}

/// A program header is type, flags, offset, address, physical address, size in the
/// file, size in memory and alignment, one behind the other.
pub proof fn lemma_program_header_record(s: Seq<u8>, off: int, v: Seq<int>)
    requires
        has_record(s, off, seq![4int, 4, 8, 8, 8, 8, 8, 8], v, 0),
    ensures
        phdr_at(s, off).p_type == v[0],
        phdr_at(s, off).p_flags == v[1],
        phdr_at(s, off).p_offset == v[2],
        phdr_at(s, off).p_vaddr == v[3],
        phdr_at(s, off).p_paddr == v[4],
        phdr_at(s, off).p_filesz == v[5],
        phdr_at(s, off).p_memsz == v[6],
        phdr_at(s, off).p_align == v[7],
{
    reveal_with_fuel(has_record, 9);
    lemma_field_32(s, off);
    lemma_field_32(s, off + 4);
    lemma_field_64(s, off + 8);
    lemma_field_64(s, off + 16);
    lemma_field_64(s, off + 24);
    lemma_field_64(s, off + 32);
    lemma_field_64(s, off + 40);
    lemma_field_64(s, off + 48);
}

/// A file is a usable image for a processor exactly if it is as long as its header,
/// starts with the byte 0x7f and `ELF`, has 64 bits, the lowest byte first, is an
/// executable or a shared object, and has the number of the processor.
pub proof fn lemma_usable_files(s: Seq<u8>, arch: Arch)
    ensures
        ehdr_error(s, arch) is None <==> {
            &&& s.len() >= 64
            &&& s[0] == 0x7f && s[1] == 0x45 && s[2] == 0x4c && s[3] == 0x46
            &&& s[4] == 2
            &&& s[5] == 1
            &&& field(s, 16, 2) == 2 || field(s, 16, 2) == 3
            &&& field(s, 18, 2) == match arch {
                Arch::X86_64 => 62int,
                Arch::Aarch64 => 183,
            }
        },
{
    lemma_field_16(s, 16);
    lemma_field_16(s, 18);
}

/// An interpreter is what the file has at the offset of its segment, as long as
/// the segment, less a zero byte at the end.
pub proof fn lemma_interpreter(s: Seq<u8>, ph: Elf64Phdr, path: Seq<u8>)
    requires
        ph.p_offset + ph.p_filesz <= s.len(),
        forall|i: int| 0 <= i < path.len() ==> s[ph.p_offset + i] == #[trigger] path[i],
        path.len() == ph.p_filesz && (path.len() > 0 ==> path.last() != 0) || (path.len() + 1
            == ph.p_filesz && s[ph.p_offset + path.len()] == 0),
    ensures
        interp_of(s, ph) == Some(path),
{
    let end = ph.p_offset + ph.p_filesz;
    assert(s.subrange(ph.p_offset as int, ph.p_offset + path.len()) =~= path);
    if path.len() == ph.p_filesz && path.len() > 0 {
        assert(s[end - 1] == path.last());
    }
}

} // verus!
