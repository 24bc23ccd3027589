//! ELF64 loading plans for a child address space.
//!
//! Loading goes page by page through a scratch mapping: a frame is allocated,
//! filled from the file, and mapped into the child. [`elf_load`] decides which
//! pages there are, what is copied into each and with which permissions it is
//! mapped; whoever owns the kernel capabilities carries the steps out in order.
//!
//! Both `ET_EXEC` (fixed address) and `ET_DYN` (position independent, moved to
//! `load_base`) are supported. `RELATIVE` relocations become word writes.
use crate::loader::boot::phdr_table::{
    file_phdrs, has_elf_header, read_phdr_table, starts_like_elf,
};
use crate::loader::bytes::{le_u16, le_u64, read_u64};
use crate::loader::elf::header::{
    ehdr_error, is_load, span_hi, span_lo, validate_ehdr, Arch, ElfError,
};
use crate::loader::elf::types::{
    page_ceil, page_floor, rela_type, Elf64Ehdr, Elf64Phdr, ET_DYN, PF_W, PF_X, PT_DYNAMIC,
    PT_LOAD,
};
use vstd::prelude::*;

verus! {

/// Why an ELF image cannot be loaded.
#[derive(Clone, Copy, PartialEq, Eq, Debug, Structural)]
pub enum ElfLoadError {
    TooSmall,
    NotElf,
    Not64Bit,
    NotLittleEndian,
    BadType,
    BadArch,
    /// No loadable segment, or none that occupies memory.
    NoLoad,
    /// More pages than one image may have, or no frame for a page.
    OutOfMemory,
    /// The kernel refused a mapping.
    MapFailed,
    /// The relocation table is not usable, or points outside the image.
    RelocFailed,
}

/// How a user page is mapped besides being readable.
#[derive(Clone, Copy, PartialEq, Eq, Debug, Structural)]
pub struct PageFlags {
    pub writable: bool,
    pub executable: bool,
}

/// A page of the child and how it is mapped.
#[derive(Clone, Copy, PartialEq, Eq, Debug, Structural)]
pub struct PageEntry {
    pub vaddr: u64,
    pub flags: PageFlags,
}

/// `len` file bytes from `src_offset`, placed at `dst_offset` in a page.
#[derive(Clone, Copy, PartialEq, Eq, Debug, Structural)]
pub struct PageCopy {
    pub src_offset: u64,
    pub dst_offset: u64,
    pub len: u64,
}

/// One step of loading.
#[derive(Clone, Copy, PartialEq, Eq, Debug, Structural)]
pub enum LoadStep {
    /// Allocate a zeroed frame, copy, and map it into the child.
    NewPage { entry: PageEntry, copy: Option<PageCopy> },
    /// Copy into the frame of an earlier page, and map it anew if its
    /// permissions change.
    Refill { page: usize, copy: Option<PageCopy>, remap: Option<PageFlags> },
}

/// A word written into a loaded page.
#[derive(Clone, Copy, PartialEq, Eq, Debug, Structural)]
pub struct PageWrite {
    pub page: usize,
    pub offset: u64,
    pub value: u64,
}

/// Where a loaded image starts and ends.
#[derive(Clone, Copy, PartialEq, Eq, Debug, Structural)]
pub struct ElfLoadResult {
    pub entry: u64,
    pub base: u64,
    pub brk: u64,
}

/// What loading does, in order: the steps, then the writes; `outcome` is what
/// it then reports.
pub struct ElfLoadPlan {
    pub steps: Vec<LoadStep>,
    pub pages: Vec<PageEntry>,
    pub writes: Vec<PageWrite>,
    pub outcome: Result<ElfLoadResult, ElfLoadError>,
}

/// Most pages that one image may have.
pub const MAX_PAGES: usize = 256;

// ---------------------------------------------------------------------------
// Segments
// ---------------------------------------------------------------------------

/// Mapping permissions of a segment. If it is both writable and executable,
/// writable wins.
pub open spec fn segment_flags(p_flags: u32) -> PageFlags {
    PageFlags { writable: p_flags & 2 != 0, executable: p_flags & 2 == 0 && p_flags & 1 != 0 }
}

/// Permissions of a page that two segments share. A page that would become
/// writable and executable is not executable.
pub open spec fn merged_flags(a: PageFlags, b: PageFlags) -> PageFlags {
    PageFlags {
        writable: a.writable || b.writable,
        executable: !(a.writable || b.writable) && (a.executable || b.executable),
    }
}

fn phdr_to_flags(p_flags: u32) -> (r: PageFlags)
    ensures
        r == segment_flags(p_flags),
{
    let w: bool = p_flags & PF_W != 0;
    let x: bool = p_flags & PF_X != 0;
    PageFlags { writable: w, executable: !w && x }
}

fn merge_flags(a: PageFlags, b: PageFlags) -> (r: PageFlags)
    ensures
        r == merged_flags(a, b),
{
    let w: bool = a.writable || b.writable;
    PageFlags { writable: w, executable: !w && (a.executable || b.executable) }
}

/// Where a segment is loaded.
pub open spec fn segment_vaddr(ph: Elf64Phdr, delta: u64) -> u64 {
    ph.p_vaddr.wrapping_add(delta)
}

/// First page of a segment.
pub open spec fn segment_start(ph: Elf64Phdr, delta: u64) -> int {
    page_floor(segment_vaddr(ph, delta) as int)
}

/// End of the last page of a segment.
pub open spec fn segment_end(ph: Elf64Phdr, delta: u64) -> int {
    page_ceil(segment_vaddr(ph, delta) + ph.p_memsz)
}

/// The memory of no loadable segment reaches the end of the address space.
pub open spec fn memory_representable(phdrs: Seq<Elf64Phdr>, delta: u64) -> bool {
    forall|i: int|
        0 <= i < phdrs.len() && is_load(#[trigger] phdrs[i]) ==> segment_vaddr(phdrs[i], delta)
            + phdrs[i].p_memsz + 4095 <= u64::MAX
}

/// Neither the memory nor the file part of a loadable segment reaches the end of
/// the address space.
pub open spec fn segments_representable(phdrs: Seq<Elf64Phdr>, delta: u64) -> bool {
    &&& memory_representable(phdrs, delta)
    &&& forall|i: int|
        0 <= i < phdrs.len() && is_load(#[trigger] phdrs[i]) ==> segment_vaddr(phdrs[i], delta)
            + phdrs[i].p_filesz <= u64::MAX
}

/// Lowest link-time address of the loadable segments among the first `n`.
pub open spec fn lowest_vaddr(phdrs: Seq<Elf64Phdr>, n: int) -> u64
    decreases n,
{
    if n <= 0 {
        u64::MAX
    } else {
        let lo = lowest_vaddr(phdrs, n - 1);
        if is_load(phdrs[n - 1]) && phdrs[n - 1].p_vaddr < lo {
            phdrs[n - 1].p_vaddr
        } else {
            lo
        }
    }
}

/// Pages that the loadable segments among the first `n` occupy, pages that
/// segments share counted once for each.
pub open spec fn page_total(phdrs: Seq<Elf64Phdr>, delta: u64, n: int) -> int
    decreases n,
{
    if n <= 0 {
        0
    } else {
        let before = page_total(phdrs, delta, n - 1);
        if is_load(phdrs[n - 1]) {
            before + (segment_end(phdrs[n - 1], delta) - segment_start(phdrs[n - 1], delta)) / 4096
        } else {
            before
        }
    }
}

/// Highest page end of the loadable segments among the first `n`.
pub open spec fn highest_end(phdrs: Seq<Elf64Phdr>, delta: u64, n: int) -> int
    decreases n,
{
    if n <= 0 {
        0
    } else {
        let before = highest_end(phdrs, delta, n - 1);
        if is_load(phdrs[n - 1]) && segment_end(phdrs[n - 1], delta) > before {
            segment_end(phdrs[n - 1], delta)
        } else {
            before
        }
    }
}

/// What of a segment's file bytes belongs into the page at `page`, if all of it
/// is in the file.
pub open spec fn page_copy(ph: Elf64Phdr, delta: u64, page: int, file_len: int) -> Option<
    PageCopy,
> {
    let start = segment_vaddr(ph, delta) as int;
    let from = if page > start {
        page
    } else {
        start
    };
    let to = if page + 4096 < start + ph.p_filesz {
        page + 4096
    } else {
        start + ph.p_filesz
    };
    let src = ph.p_offset + (from - start);
    if from < to && src + (to - from) <= file_len {
        Some(
            PageCopy {
                src_offset: src as u64,
                dst_offset: (from - page) as u64,
                len: (to - from) as u64,
            },
        )
    } else {
        None
    }
}

fn copy_for_page(ph: &Elf64Phdr, delta: u64, page: u64, file_len: usize) -> (r: Option<PageCopy>)
    requires
        page + 4096 <= u64::MAX,
        segment_vaddr(*ph, delta) + ph.p_filesz <= u64::MAX,
    ensures
        r == page_copy(*ph, delta, page as int, file_len as int),
{
    let start: u64 = ph.p_vaddr.wrapping_add(delta);
    let file_end: u64 = start + ph.p_filesz;
    let from: u64 = if page > start { page } else { start };
    let to: u64 = if page + 4096 < file_end { page + 4096 } else { file_end };
    if from >= to {
        return None;
    }
    let src: u128 = ph.p_offset as u128 + (from - start) as u128;
    if src + (to - from) as u128 > file_len as u128 {
        return None;
    }
    Some(PageCopy { src_offset: src as u64, dst_offset: from - page, len: to - from })
}

// ---------------------------------------------------------------------------
// Pages
// ---------------------------------------------------------------------------

/// Index of the first page at `vaddr`, looking from `j` on; the number of pages
/// if there is none.
pub open spec fn page_index(pages: Seq<PageEntry>, vaddr: int, j: int) -> int
    decreases pages.len() - j,
{
    if j >= pages.len() || pages[j].vaddr == vaddr {
        j
    } else {
        page_index(pages, vaddr, j + 1)
    }
}

pub proof fn lemma_page_index(pages: Seq<PageEntry>, vaddr: int, j: int)
    requires
        0 <= j <= pages.len(),
    ensures
        j <= page_index(pages, vaddr, j) <= pages.len(),
        page_index(pages, vaddr, j) < pages.len() ==> pages[page_index(pages, vaddr, j)].vaddr
            == vaddr,
        forall|k: int|
            j <= k < page_index(pages, vaddr, j) ==> (#[trigger] pages[k]).vaddr != vaddr,
    decreases pages.len() - j,
{
    if j < pages.len() && pages[j].vaddr != vaddr {
        lemma_page_index(pages, vaddr, j + 1);
    }
}

fn find_page(pages: &Vec<PageEntry>, vaddr: u64) -> (r: usize)
    ensures
        r == page_index(pages@, vaddr as int, 0),
        r <= pages@.len(),
{
    let mut j: usize = 0;
    while j < pages.len()
        invariant
            j <= pages@.len(),
            page_index(pages@, vaddr as int, 0) == page_index(pages@, vaddr as int, j as int),
        decreases pages@.len() - j,
    {
        if pages[j].vaddr == vaddr {
            return j;
        }
        j = j + 1;
    }
    j
}

/// Pages and steps so far.
pub struct LoadState {
    pub pages: Seq<PageEntry>,
    pub steps: Seq<LoadStep>,
}

/// The state after the page at `page` of a segment is loaded.
pub open spec fn after_page(
    state: LoadState,
    page: int,
    flags: PageFlags,
    copy: Option<PageCopy>,
) -> LoadState {
    let k = page_index(state.pages, page, 0);
    if k < state.pages.len() {
        let merged = merged_flags(state.pages[k].flags, flags);
        let remap = if merged != state.pages[k].flags {
            Some(merged)
        } else {
            None
        };
        LoadState {
            pages: state.pages.update(k, PageEntry { vaddr: page as u64, flags: merged }),
            steps: state.steps.push(LoadStep::Refill { page: k as usize, copy, remap }),
        }
    } else {
        let entry = PageEntry { vaddr: page as u64, flags };
        LoadState {
            pages: state.pages.push(entry),
            steps: state.steps.push(LoadStep::NewPage { entry, copy }),
        }
    }
}

/// The state after the pages of a segment from `page` on are loaded.
pub open spec fn after_segment(
    ph: Elf64Phdr,
    delta: u64,
    file_len: int,
    page: int,
    state: LoadState,
) -> LoadState
    decreases segment_end(ph, delta) - page + 4096,
{
    if page >= segment_end(ph, delta) {
        state
    } else {
        after_segment(
            ph,
            delta,
            file_len,
            page + 4096,
            after_page(
                state,
                page,
                segment_flags(ph.p_flags),
                page_copy(ph, delta, page, file_len),
            ),
        )
    }
}

/// The state after the loadable segments among the first `n` are loaded.
pub open spec fn after_segments(
    phdrs: Seq<Elf64Phdr>,
    delta: u64,
    file_len: int,
    n: int,
) -> LoadState
    decreases n,
{
    if n <= 0 {
        LoadState { pages: Seq::empty(), steps: Seq::empty() }
    } else {
        let before = after_segments(phdrs, delta, file_len, n - 1);
        if is_load(phdrs[n - 1]) {
            after_segment(
                phdrs[n - 1],
                delta,
                file_len,
                segment_start(phdrs[n - 1], delta),
                before,
            )
        } else {
            before
        }
    }
}

fn load_page(
    pages: &mut Vec<PageEntry>,
    steps: &mut Vec<LoadStep>,
    page: u64,
    flags: PageFlags,
    copy: Option<PageCopy>,
)
    ensures
        ({
            let next = after_page(
                LoadState { pages: old(pages)@, steps: old(steps)@ },
                page as int,
                flags,
                copy,
            );
            final(pages)@ == next.pages && final(steps)@ == next.steps
        }),
{
    let k: usize = find_page(pages, page);
    proof {
        lemma_page_index(pages@, page as int, 0);
    }
    if k < pages.len() {
        let existing: PageEntry = pages[k];
        let merged: PageFlags = merge_flags(existing.flags, flags);
        let remap: Option<PageFlags> = if merged != existing.flags {
            Some(merged)
        } else {
            None
        };
        pages.set(k, PageEntry { vaddr: page, flags: merged });
        steps.push(LoadStep::Refill { page: k, copy, remap });
    } else {
        let entry = PageEntry { vaddr: page, flags };
        pages.push(entry);
        steps.push(LoadStep::NewPage { entry, copy });
    }
}

fn load_segment(
    ph: &Elf64Phdr,
    delta: u64,
    file_len: usize,
    pages: &mut Vec<PageEntry>,
    steps: &mut Vec<LoadStep>,
) -> (end: u64)
    requires
        segment_vaddr(*ph, delta) + ph.p_memsz + 4095 <= u64::MAX,
        segment_vaddr(*ph, delta) + ph.p_filesz <= u64::MAX,
    ensures
        end == segment_end(*ph, delta),
        ({
            let next = after_segment(
                *ph,
                delta,
                file_len as int,
                segment_start(*ph, delta),
                LoadState { pages: old(pages)@, steps: old(steps)@ },
            );
            final(pages)@ == next.pages && final(steps)@ == next.steps
        }),
{
    let vaddr: u64 = ph.p_vaddr.wrapping_add(delta);
    let start: u64 = vaddr / 4096 * 4096;
    let end: u64 = (vaddr + ph.p_memsz + 4095) / 4096 * 4096;
    let flags: PageFlags = phdr_to_flags(ph.p_flags);
    let ghost goal = after_segment(
        *ph,
        delta,
        file_len as int,
        segment_start(*ph, delta),
        LoadState { pages: pages@, steps: steps@ },
    );
    let mut page: u64 = start;
    while page < end
        invariant
            end == segment_end(*ph, delta),
            end % 4096 == 0,
            page % 4096 == 0,
            segment_vaddr(*ph, delta) + ph.p_filesz <= u64::MAX,
            flags == segment_flags(ph.p_flags),
            goal == after_segment(
                *ph,
                delta,
                file_len as int,
                page as int,
                LoadState { pages: pages@, steps: steps@ },
            ),
        decreases end + 4096 - page,
    {
        let copy: Option<PageCopy> = copy_for_page(ph, delta, page, file_len);
        load_page(pages, steps, page, flags, copy);
        page = page + 4096;
    }
    end
}

// ---------------------------------------------------------------------------
// Relocations
// ---------------------------------------------------------------------------

/// Offset in the file of the byte that a segment puts at `vaddr`, looking from
/// header `i` on.
pub open spec fn file_offset_from(phdrs: Seq<Elf64Phdr>, file_len: int, vaddr: u64, i: int) -> Option<
    int,
>
    decreases phdrs.len() - i,
{
    if i < 0 || i >= phdrs.len() {
        None
    } else {
        let ph = phdrs[i];
        if is_load(ph) && vaddr >= ph.p_vaddr && vaddr - ph.p_vaddr < ph.p_filesz {
            let off = ph.p_offset + (vaddr - ph.p_vaddr);
            if off >= file_len {
                None
            } else {
                Some(off)
            }
        } else {
            file_offset_from(phdrs, file_len, vaddr, i + 1)
        }
    }
}

/// Converts a virtual address to its file offset by the loadable segments.
pub fn vaddr_to_file_offset(phdrs: &Vec<Elf64Phdr>, file_len: usize, vaddr: u64) -> (r: Option<
    usize,
>)
    ensures
        match r {
            Some(off) => file_offset_from(phdrs@, file_len as int, vaddr, 0) == Some(off as int),
            None => file_offset_from(phdrs@, file_len as int, vaddr, 0) is None,
        },
        r matches Some(off) ==> off < file_len,
{
    let mut i: usize = 0;
    while i < phdrs.len()
        invariant
            i <= phdrs@.len(),
            file_offset_from(phdrs@, file_len as int, vaddr, 0) == file_offset_from(
                phdrs@,
                file_len as int,
                vaddr,
                i as int,
            ),
        decreases phdrs@.len() - i,
    {
        let ph: Elf64Phdr = phdrs[i];
        if ph.p_type == PT_LOAD && vaddr >= ph.p_vaddr && vaddr - ph.p_vaddr < ph.p_filesz {
            let off: u128 = ph.p_offset as u128 + (vaddr - ph.p_vaddr) as u128;
            if off >= file_len as u128 {
                return None;
            }
            return Some(off as usize);
        }
        i = i + 1;
    }
    None
}

/// Address, size and entry size of the relocation table.
#[derive(Clone, Copy)]
pub struct RelaTable {
    pub vaddr: u64,
    pub size: u64,
    pub entry: u64,
}

/// What the dynamic entries from `pos` up to `end` say of the relocation table;
/// later entries override earlier ones.
pub open spec fn rela_table_from(s: Seq<u8>, end: int, pos: int, acc: RelaTable) -> RelaTable
    decreases end - pos,
{
    if pos + 16 > end || le_u64(s, pos) == 0 {
        acc
    } else {
        let v = le_u64(s, pos + 8);
        rela_table_from(
            s,
            end,
            pos + 16,
            if le_u64(s, pos) == 7 {
                RelaTable { vaddr: v, ..acc }
            } else if le_u64(s, pos) == 8 {
                RelaTable { size: v, ..acc }
            } else if le_u64(s, pos) == 9 {
                RelaTable { entry: v, ..acc }
            } else {
                acc
            },
        )
    }
}

/// The dynamic segment's part of the file, by the first header of that type
/// from `i` on.
pub open spec fn dynamic_extent(phdrs: Seq<Elf64Phdr>, i: int) -> (int, int)
    decreases phdrs.len() - i,
{
    if i < 0 || i >= phdrs.len() {
        (0, 0)
    } else if phdrs[i].p_type == 2 {
        (phdrs[i].p_offset as int, phdrs[i].p_filesz as int)
    } else {
        dynamic_extent(phdrs, i + 1)
    }
}

/// The relocation table that the file declares, if it has a dynamic segment.
pub open spec fn declared_rela_table(s: Seq<u8>, phdrs: Seq<Elf64Phdr>) -> RelaTable {
    let (off, size) = dynamic_extent(phdrs, 0);
    let none = RelaTable { vaddr: 0, size: 0, entry: 0 };
    if off == 0 {
        none
    } else {
        rela_table_from(
            s,
            if off + size < s.len() {
                off + size
            } else {
                s.len() as int
            },
            off,
            none,
        )
    }
}

/// The `RELATIVE` relocation type of `arch`.
pub open spec fn relative_type(arch: Arch) -> u32 {
    match arch {
        Arch::X86_64 => 8,
        Arch::Aarch64 => 1027,
    }
}

/// The write that a `RELATIVE` relocation asks for; `None` if no loaded page
/// holds the whole word.
pub open spec fn relative_write(
    pages: Seq<PageEntry>,
    delta: u64,
    load_base: u64,
    offset: u64,
    addend: u64,
) -> Option<PageWrite> {
    let target = offset.wrapping_add(delta) as int;
    let page = page_floor(target);
    let k = page_index(pages, page, 0);
    if k >= pages.len() || target - page > 4088 {
        None
    } else {
        Some(
            PageWrite {
                page: k as usize,
                offset: (target - page) as u64,
                value: load_base.wrapping_add(addend),
            },
        )
    }
}

/// The writes of `n` relocation entries, `size` bytes apart from `pos` on, after
/// `writes`; the flag tells whether all of them could be done.
pub open spec fn relocation_writes(
    s: Seq<u8>,
    pages: Seq<PageEntry>,
    arch: Arch,
    delta: u64,
    load_base: u64,
    size: int,
    n: int,
    pos: int,
    writes: Seq<PageWrite>,
) -> (Seq<PageWrite>, bool)
    decreases n,
{
    if n <= 0 {
        (writes, true)
    } else if pos + 24 > s.len() {
        (writes, false)
    } else if rela_type(le_u64(s, pos + 8)) != relative_type(arch) {
        relocation_writes(
            s,
            pages,
            arch,
            delta,
            load_base,
            size,
            n - 1,
            pos + size,
            writes,
        )
    } else {
        match relative_write(pages, delta, load_base, le_u64(s, pos), le_u64(s, pos + 16)) {
            None => (writes, false),
            Some(w) => relocation_writes(
                s,
                pages,
                arch,
                delta,
                load_base,
                size,
                n - 1,
                pos + size,
                writes.push(w),
            ),
        }
    }
}

/// All writes that relocating the loaded pages takes.
pub open spec fn all_relocation_writes(
    s: Seq<u8>,
    phdrs: Seq<Elf64Phdr>,
    pages: Seq<PageEntry>,
    arch: Arch,
    delta: u64,
    load_base: u64,
) -> (Seq<PageWrite>, bool) {
    let t = declared_rela_table(s, phdrs);
    if t.vaddr == 0 || t.size == 0 || t.entry == 0 {
        (Seq::empty(), true)
    } else if t.entry < 24 {
        (Seq::empty(), false)
    } else {
        match file_offset_from(phdrs, s.len() as int, t.vaddr, 0) {
            None => (Seq::empty(), false),
            Some(off) => relocation_writes(
                s,
                pages,
                arch,
                delta,
                load_base,
                t.entry as int,
                (t.size / t.entry) as int,
                off,
                Seq::empty(),
            ),
        }
    }
}

fn find_rela_table(data: &[u8], phdrs: &Vec<Elf64Phdr>) -> (r: RelaTable)
    ensures
        r == declared_rela_table(data@, phdrs@),
{
    let mut t = RelaTable { vaddr: 0, size: 0, entry: 0 };
    let mut off: u64 = 0;
    let mut size: u64 = 0;
    let mut i: usize = 0;
    while i < phdrs.len() && !(phdrs[i].p_type == PT_DYNAMIC)
        invariant
            i <= phdrs@.len(),
            dynamic_extent(phdrs@, 0) == dynamic_extent(phdrs@, i as int),
        decreases phdrs@.len() - i,
    {
        i = i + 1;
    }
    if i < phdrs.len() {
        off = phdrs[i].p_offset;
        size = phdrs[i].p_filesz;
    }
    if off == 0 {
        return t;
    }
    let len: u128 = data.len() as u128;
    let end: u128 = if (off as u128) + (size as u128) < len {
        off as u128 + size as u128
    } else {
        len
    };
    let mut pos: u128 = off as u128;
    let ghost goal = rela_table_from(data@, end as int, pos as int, t);
    while pos + 16 <= end
        invariant
            len == data.len(),
            end <= len,
            pos <= u64::MAX + 16,
            goal == rela_table_from(data@, end as int, pos as int, t),
            goal == declared_rela_table(data@, phdrs@),
        decreases end + 16 - pos,
    {
        let tag: u64 = read_u64(data, pos as usize);
        let val: u64 = read_u64(data, pos as usize + 8);
        if tag == 0 {
            return t;
        }
        if tag == 7 {
            t.vaddr = val;
        }
        if tag == 8 {
            t.size = val;
        }
        if tag == 9 {
            t.entry = val;
        }
        pos = pos + 16;
    }
    t
}

/// Lists the writes of the `RELATIVE` relocations of an image.
///
/// Reads the dynamic segment to find the relocation table. Other relocation
/// types are left alone (a static position-independent image has none).
fn apply_relocations(
    data: &[u8],
    phdrs: &Vec<Elf64Phdr>,
    pages: &Vec<PageEntry>,
    arch: Arch,
    delta: u64,
    load_base: u64,
) -> (r: (Vec<PageWrite>, bool))
    ensures
        (r.0@, r.1) == all_relocation_writes(data@, phdrs@, pages@, arch, delta, load_base),
{
    let mut writes: Vec<PageWrite> = Vec::new();
    assert(writes@ =~= Seq::empty());
    let t: RelaTable = find_rela_table(data, phdrs);
    if t.vaddr == 0 || t.size == 0 || t.entry == 0 {
        return (writes, true);
    }
    if t.entry < 24 {
        return (writes, false);
    }
    let off: usize = match vaddr_to_file_offset(phdrs, data.len(), t.vaddr) {
        Some(off) => off,
        None => {
            return (writes, false);
        },
    };
    let relative: u32 = match arch {
        Arch::X86_64 => 8,
        Arch::Aarch64 => 1027,
    };
    let len: u128 = data.len() as u128;
    let size: u128 = t.entry as u128;
    let mut left: u64 = t.size / t.entry;
    let mut pos: u128 = off as u128;
    let ghost goal = all_relocation_writes(data@, phdrs@, pages@, arch, delta, load_base);
    while left > 0
        invariant
            len == data.len(),
            size == t.entry,
            pos <= 2 * u64::MAX,
            relative == relative_type(arch),
            goal == relocation_writes(
                data@,
                pages@,
                arch,
                delta,
                load_base,
                size as int,
                left as int,
                pos as int,
                writes@,
            ),
            goal == all_relocation_writes(data@, phdrs@, pages@, arch, delta, load_base),
        decreases left,
    {
        if pos + 24 > len {
            return (writes, false);
        }
        let at: usize = pos as usize;
        let offset: u64 = read_u64(data, at);
        let info: u64 = read_u64(data, at + 8);
        let addend: u64 = read_u64(data, at + 16);
        if (info % 0x1_0000_0000) as u32 == relative {
            let target: u64 = offset.wrapping_add(delta);
            let page: u64 = target / 4096 * 4096;
            let k: usize = find_page(pages, page);
            if k >= pages.len() || target - page > 4088 {
                return (writes, false);
            }
            writes.push(
                PageWrite { page: k, offset: target - page, value: load_base.wrapping_add(addend) },
            );
        }
        pos = pos + size;
        left = left - 1;
    }
    (writes, true)
}

// ---------------------------------------------------------------------------
// Whole images
// ---------------------------------------------------------------------------

/// How far an image is moved from its link-time addresses.
pub open spec fn load_delta(s: Seq<u8>, load_base: u64) -> u64 {
    let phdrs = file_phdrs(s);
    if le_u16(s, 16) == 3 {
        load_base.wrapping_sub(lowest_vaddr(phdrs, phdrs.len() as int))
    } else {
        0
    }
}

/// Whether any header is loadable.
pub open spec fn any_load(phdrs: Seq<Elf64Phdr>) -> bool {
    exists|i: int| 0 <= i < phdrs.len() && is_load(#[trigger] phdrs[i])
}

/// The error that a header error is reported as.
pub open spec fn load_error_of(e: ElfError) -> ElfLoadError {
    match e {
        ElfError::TooSmall => ElfLoadError::TooSmall,
        ElfError::BadMagic => ElfLoadError::NotElf,
        ElfError::Not64Bit => ElfLoadError::Not64Bit,
        ElfError::NotLittleEndian => ElfLoadError::NotLittleEndian,
        ElfError::BadType => ElfLoadError::BadType,
        ElfError::BadMachine => ElfLoadError::BadArch,
        ElfError::NoPhdr => ElfLoadError::NoLoad,
        ElfError::PhdrOverflow => ElfLoadError::NoLoad,
    }
}

/// Why an image has no page to load, or too many; `None` if it can be loaded.
pub open spec fn layout_error(phdrs: Seq<Elf64Phdr>, delta: u64) -> Option<ElfLoadError> {
    let total = page_total(phdrs, delta, phdrs.len() as int);
    if !any_load(phdrs) || total == 0 {
        Some(ElfLoadError::NoLoad)
    } else if total > 256 {
        Some(ElfLoadError::OutOfMemory)
    } else {
        None
    }
}

/// `plan` loads the image `s`, whose header is usable.
pub open spec fn is_load_plan(
    s: Seq<u8>,
    arch: Arch,
    load_base: u64,
    plan: ElfLoadPlan,
) -> bool {
    let phdrs = file_phdrs(s);
    let delta = load_delta(s, load_base);
    let state = after_segments(phdrs, delta, s.len() as int, phdrs.len() as int);
    let (writes, relocated) = if le_u16(s, 16) == 3 {
        all_relocation_writes(s, phdrs, state.pages, arch, delta, load_base)
    } else {
        (Seq::empty(), true)
    };
    match layout_error(phdrs, delta) {
        Some(e) => {
            &&& plan.steps@.len() == 0
            &&& plan.pages@.len() == 0
            &&& plan.writes@.len() == 0
            &&& plan.outcome == Err::<ElfLoadResult, ElfLoadError>(e)
        },
        None => {
            &&& plan.steps@ == state.steps
            &&& plan.pages@ == state.pages
            &&& plan.writes@ == writes
            &&& plan.outcome == if relocated {
                Ok(
                    ElfLoadResult {
                        entry: le_u64(s, 24).wrapping_add(delta),
                        base: load_base,
                        brk: highest_end(phdrs, delta, phdrs.len() as int) as u64,
                    },
                )
            } else {
                Err::<ElfLoadResult, ElfLoadError>(ElfLoadError::RelocFailed)
            }
        },
    }
}

fn refused(e: ElfLoadError) -> (r: ElfLoadPlan)
    ensures
        r.steps@.len() == 0,
        r.pages@.len() == 0,
        r.writes@.len() == 0,
        r.outcome == Err::<ElfLoadResult, ElfLoadError>(e),
{
    ElfLoadPlan { steps: Vec::new(), pages: Vec::new(), writes: Vec::new(), outcome: Err(e) }
}

fn lowest_load_vaddr(phdrs: &Vec<Elf64Phdr>) -> (r: Option<u64>)
    ensures
        match r {
            Some(lo) => any_load(phdrs@) && lo == lowest_vaddr(phdrs@, phdrs@.len() as int),
            None => !any_load(phdrs@),
        },
{
    let mut lo: u64 = u64::MAX;
    let mut has_load: bool = false;
    let mut i: usize = 0;
    while i < phdrs.len()
        invariant
            i <= phdrs@.len(),
            lo == lowest_vaddr(phdrs@, i as int),
            has_load == exists|j: int| 0 <= j < i && is_load(#[trigger] phdrs@[j]),
        decreases phdrs@.len() - i,
    {
        let ph: Elf64Phdr = phdrs[i];
        assert(ph == phdrs@[i as int]);
        if ph.p_type == PT_LOAD {
            assert(is_load(phdrs@[i as int]));
            has_load = true;
            if ph.p_vaddr < lo {
                lo = ph.p_vaddr;
            }
        }
        i = i + 1;
    }
    if has_load {
        Some(lo)
    } else {
        None
    }
}

fn count_pages(phdrs: &Vec<Elf64Phdr>, delta: u64) -> (r: u128)
    requires
        memory_representable(phdrs@, delta),
        phdrs@.len() <= 0xffff,
    ensures
        r == page_total(phdrs@, delta, phdrs@.len() as int),
{
    let mut total: u128 = 0;
    let mut i: usize = 0;
    while i < phdrs.len()
        invariant
            i <= phdrs@.len() <= 0xffff,
            memory_representable(phdrs@, delta),
            total == page_total(phdrs@, delta, i as int),
            total <= i * u64::MAX,
        decreases phdrs@.len() - i,
    {
        let ph: Elf64Phdr = phdrs[i];
        assert(ph == phdrs@[i as int]);
        if ph.p_type == PT_LOAD {
            assert(is_load(phdrs@[i as int]));
            let vaddr: u64 = ph.p_vaddr.wrapping_add(delta);
            let start: u64 = vaddr / 4096 * 4096;
            let end: u64 = (vaddr + ph.p_memsz + 4095) / 4096 * 4096;
            total = total + ((end - start) / 4096) as u128;
        }
        i = i + 1;
    }
    total
}

/// Whether every page address of the moved image is representable, and the end of
/// every file part too, if the image has pages and not too many.
pub open spec fn can_plan_load(s: Seq<u8>, load_base: u64, arch: Arch) -> bool {
    let phdrs = file_phdrs(s);
    let delta = load_delta(s, load_base);
    ehdr_error(s, arch) is None ==> {
        &&& memory_representable(phdrs, delta)
        &&& layout_error(phdrs, delta) is None ==> segments_representable(phdrs, delta)
    }
}

/// Whether [`elf_load`] can be asked for this image.
pub fn elf_load_is_representable(data: &[u8], load_base: u64, arch: Arch) -> (r: bool)
    ensures
        r == can_plan_load(data@, load_base, arch),
{
    let ehdr: Elf64Ehdr = match validate_ehdr(data, arch) {
        Ok(h) => h,
        Err(_) => {
            return true;
        },
    };
    let phdrs: Vec<Elf64Phdr> = read_phdr_table(data);
    let min_vaddr: u64 = match lowest_load_vaddr(&phdrs) {
        Some(lo) => lo,
        None => {
            return true;
        },
    };
    let delta: u64 = if ehdr.e_type == ET_DYN { load_base.wrapping_sub(min_vaddr) } else { 0 };
    if !all_representable(&phdrs, delta, false) {
        return false;
    }
    let capacity: u128 = count_pages(&phdrs, delta);
    capacity == 0 || capacity > MAX_PAGES as u128 || all_representable(&phdrs, delta, true)
}

fn all_representable(phdrs: &Vec<Elf64Phdr>, delta: u64, files: bool) -> (r: bool)
    ensures
        r == if files {
            segments_representable(phdrs@, delta)
        } else {
            memory_representable(phdrs@, delta)
        },
{
    let mut i: usize = 0;
    while i < phdrs.len()
        invariant
            i <= phdrs@.len(),
            forall|j: int|
                0 <= j < i && is_load(#[trigger] phdrs@[j]) ==> segment_vaddr(phdrs@[j], delta)
                    + phdrs@[j].p_memsz + 4095 <= u64::MAX && (files ==> segment_vaddr(
                    phdrs@[j],
                    delta,
                ) + phdrs@[j].p_filesz <= u64::MAX),
        decreases phdrs@.len() - i,
    {
        let ph: Elf64Phdr = phdrs[i];
        assert(ph == phdrs@[i as int]);
        if ph.p_type == PT_LOAD {
            let vaddr: u128 = ph.p_vaddr.wrapping_add(delta) as u128;
            if vaddr + ph.p_memsz as u128 + 4095 > u64::MAX as u128 || (files && vaddr
                + ph.p_filesz as u128 > u64::MAX as u128) {
                assert(is_load(phdrs@[i as int]));
                return false;
            }
        }
        i = i + 1;
    }
    true
}

/// Plans the loading of an ELF64 image into a child address space.
///
/// Walks the loadable segments in order: each page is either new, or was
/// brought in by an earlier segment, in which case more data is copied into it
/// and the permissions are merged. A position-independent image is moved to
/// `load_base` and relocated.
pub fn elf_load(data: &[u8], load_base: u64, arch: Arch) -> (r: ElfLoadPlan)
    requires
        can_plan_load(data@, load_base, arch),
    ensures
        match ehdr_error(data@, arch) {
            Some(e) => r.steps@.len() == 0 && r.pages@.len() == 0 && r.writes@.len() == 0
                && r.outcome == Err::<ElfLoadResult, ElfLoadError>(load_error_of(e)),
            None => is_load_plan(data@, arch, load_base, r),
        },
{
    let ehdr: Elf64Ehdr = match validate_ehdr(data, arch) {
        Ok(h) => h,
        Err(e) => {
            let error: ElfLoadError = match e {
                ElfError::TooSmall => ElfLoadError::TooSmall,
                ElfError::BadMagic => ElfLoadError::NotElf,
                ElfError::Not64Bit => ElfLoadError::Not64Bit,
                ElfError::NotLittleEndian => ElfLoadError::NotLittleEndian,
                ElfError::BadType => ElfLoadError::BadType,
                ElfError::BadMachine => ElfLoadError::BadArch,
                ElfError::NoPhdr => ElfLoadError::NoLoad,
                ElfError::PhdrOverflow => ElfLoadError::NoLoad,
            };
            return refused(error);
        },
    };
    let phdrs: Vec<Elf64Phdr> = read_phdr_table(data);
    let is_pie: bool = ehdr.e_type == ET_DYN;
    let min_vaddr: u64 = match lowest_load_vaddr(&phdrs) {
        Some(lo) => lo,
        None => {
            let r = refused(ElfLoadError::NoLoad);
            assert(is_load_plan(data@, arch, load_base, r));
            return r;
        },
    };
    let delta: u64 = if is_pie { load_base.wrapping_sub(min_vaddr) } else { 0 };
    let capacity: u128 = count_pages(&phdrs, delta);
    if capacity == 0 {
        let r = refused(ElfLoadError::NoLoad);
        assert(is_load_plan(data@, arch, load_base, r));
        return r;
    }
    if capacity > MAX_PAGES as u128 {
        let r = refused(ElfLoadError::OutOfMemory);
        assert(is_load_plan(data@, arch, load_base, r));
        return r;
    }
    let mut pages: Vec<PageEntry> = Vec::new();
    let mut steps: Vec<LoadStep> = Vec::new();
    let mut brk: u64 = 0;
    let mut i: usize = 0;
    assert(pages@ =~= Seq::empty() && steps@ =~= Seq::empty());
    while i < phdrs.len()
        invariant
            i <= phdrs@.len(),
            segments_representable(phdrs@, delta),
            brk == highest_end(phdrs@, delta, i as int),
            ({
                let state = after_segments(phdrs@, delta, data@.len() as int, i as int);
                pages@ == state.pages && steps@ == state.steps
            }),
        decreases phdrs@.len() - i,
    {
        let ph: Elf64Phdr = phdrs[i];
        assert(ph == phdrs@[i as int]);
        if ph.p_type == PT_LOAD {
            assert(is_load(phdrs@[i as int]));
            let end: u64 = load_segment(&ph, delta, data.len(), &mut pages, &mut steps);
            if end > brk {
                brk = end;
            }
        }
        i = i + 1;
    }
    let (writes, relocated): (Vec<PageWrite>, bool) = if is_pie {
        apply_relocations(data, &phdrs, &pages, arch, delta, load_base)
    } else {
        let none: Vec<PageWrite> = Vec::new();
        assert(none@ =~= Seq::empty());
        (none, true)
    };
    let outcome: Result<ElfLoadResult, ElfLoadError> = if relocated {
        Ok(ElfLoadResult { entry: ehdr.e_entry.wrapping_add(delta), base: load_base, brk })
    } else {
        Err(ElfLoadError::RelocFailed)
    };
    let r = ElfLoadPlan { steps, pages, writes, outcome };
    assert(is_load_plan(data@, arch, load_base, r));
    r
}

/// Counts the pages needed to load all loadable segments.
///
/// Pages that segments share are counted once for each, so this is an upper
/// bound of the frames that loading takes. 0 if this is no ELF file.
pub fn elf_count_load_pages(data: &[u8]) -> (r: usize)
    requires
        has_elf_header(data@) ==> memory_representable(file_phdrs(data@), 0) && page_total(
            file_phdrs(data@),
            0,
            file_phdrs(data@).len() as int,
        ) <= usize::MAX,
    ensures
        r == if has_elf_header(data@) {
            page_total(file_phdrs(data@), 0, file_phdrs(data@).len() as int)
        } else {
            0
        },
{
    if !starts_like_elf(data) {
        return 0;
    }
    let phdrs: Vec<Elf64Phdr> = read_phdr_table(data);
    count_pages(&phdrs, 0) as usize
}

/// Size of the address range, in whole pages, that all loadable segments span.
pub open spec fn span_size(phdrs: Seq<Elf64Phdr>) -> int {
    let lo = span_lo(phdrs, phdrs.len() as int);
    let hi = span_hi(phdrs, phdrs.len() as int);
    if lo == u64::MAX || hi == 0 {
        0
    } else {
        page_ceil(hi) - page_floor(lo)
    }
}

/// Computes the size of the address range needed to load all loadable segments:
/// `page_align_up(max_vaddr_end) - page_align_down(min_vaddr)`. 0 if this is no
/// ELF file, or nothing is loadable.
pub fn elf_compute_load_span(data: &[u8]) -> (r: u64)
    requires
        has_elf_header(data@) ==> memory_representable(file_phdrs(data@), 0),
    ensures
        r == if has_elf_header(data@) {
            span_size(file_phdrs(data@))
        } else {
            0
        },
{
    if !starts_like_elf(data) {
        return 0;
    }
    let phdrs: Vec<Elf64Phdr> = read_phdr_table(data);
    let mut lo: u64 = u64::MAX;
    let mut hi: u64 = 0;
    let mut i: usize = 0;
    while i < phdrs.len()
        invariant
            i <= phdrs@.len(),
            memory_representable(phdrs@, 0),
            lo == span_lo(phdrs@, i as int),
            hi == span_hi(phdrs@, i as int),
            hi + 4095 <= u64::MAX,
            lo == u64::MAX || lo <= hi,
        decreases phdrs@.len() - i,
    {
        let ph: Elf64Phdr = phdrs[i];
        assert(ph == phdrs@[i as int]);
        if ph.p_type == PT_LOAD {
            assert(is_load(phdrs@[i as int]));
            assert(segment_vaddr(phdrs@[i as int], 0) == ph.p_vaddr);
            if ph.p_vaddr < lo {
                lo = ph.p_vaddr;
            }
            let end: u64 = ph.p_vaddr + ph.p_memsz;
            if end > hi {
                hi = end;
            }
        }
        i = i + 1;
    }
    if lo == u64::MAX || hi == 0 {
        return 0;
    }
    (hi + 4095) / 4096 * 4096 - lo / 4096 * 4096
}

// ---------------------------------------------------------------------------
// What every plan has in common
// ---------------------------------------------------------------------------

/// Whether a copy stays inside its page and inside the file.
pub open spec fn copy_in_bounds(copy: Option<PageCopy>, file_len: int) -> bool {
    copy matches Some(c) ==> c.dst_offset + c.len <= 4096 && c.src_offset + c.len <= file_len
}

/// Whether every page starts at a page boundary.
pub open spec fn pages_aligned(pages: Seq<PageEntry>) -> bool {
    forall|i: int| 0 <= i < pages.len() ==> (#[trigger] pages[i]).vaddr % 4096 == 0
}

/// What holds of the pages and steps at any time: no page is writable and
/// executable, pages are listed once, every step copies inside its page and the
/// file, and refills a page that exists.
pub open spec fn load_state_ok(state: LoadState, file_len: int) -> bool {
    &&& forall|i: int|
        0 <= i < state.pages.len() ==> {
            let p = #[trigger] state.pages[i];
            !(p.flags.writable && p.flags.executable)
        }
    &&& forall|i: int, j: int|
        0 <= i < j < state.pages.len() ==> (#[trigger] state.pages[i]).vaddr != (
        #[trigger] state.pages[j]).vaddr
    &&& forall|i: int|
        0 <= i < state.steps.len() ==> match #[trigger] state.steps[i] {
            LoadStep::NewPage { entry, copy } => copy_in_bounds(copy, file_len) && !(
            entry.flags.writable && entry.flags.executable),
            LoadStep::Refill { page, copy, remap } => page < state.pages.len() && copy_in_bounds(
                copy,
                file_len,
            ) && (remap matches Some(f) ==> !(f.writable && f.executable)),
        }
}

/// Loading one more page keeps what holds of the pages and steps.
pub proof fn lemma_after_page(
    state: LoadState,
    page: int,
    flags: PageFlags,
    copy: Option<PageCopy>,
    file_len: int,
)
    requires
        load_state_ok(state, file_len),
        0 <= page <= u64::MAX,
        !(flags.writable && flags.executable),
        copy_in_bounds(copy, file_len),
        state.pages.len() < usize::MAX,
    ensures
        load_state_ok(after_page(state, page, flags, copy), file_len),
        pages_aligned(state.pages) && page % 4096 == 0 ==> pages_aligned(
            after_page(state, page, flags, copy).pages,
        ),
        after_page(state, page, flags, copy).pages.len() <= state.pages.len() + 1,
{
    lemma_page_index(state.pages, page, 0);
    let next = after_page(state, page, flags, copy);
    let k = page_index(state.pages, page, 0);
    assert forall|i: int| 0 <= i < next.pages.len() implies {
        let p = #[trigger] next.pages[i];
        !(p.flags.writable && p.flags.executable)
    } by {
        if i < state.pages.len() {
            let p = state.pages[i];
            assert(!(p.flags.writable && p.flags.executable));
        }
    }
    if pages_aligned(state.pages) && page % 4096 == 0 {
        assert forall|i: int| 0 <= i < next.pages.len() implies (#[trigger] next.pages[i]).vaddr
            % 4096 == 0 by {
            if i < state.pages.len() {
                assert(state.pages[i].vaddr % 4096 == 0);
            }
        }
    }
    assert forall|i: int, j: int| 0 <= i < j < next.pages.len() implies (
    #[trigger] next.pages[i]).vaddr != (#[trigger] next.pages[j]).vaddr by {
        if j < state.pages.len() {
            assert(state.pages[i].vaddr != state.pages[j].vaddr);
        } else {
            assert(state.pages[i].vaddr != page);
        }
    }
    assert forall|i: int| 0 <= i < next.steps.len() implies match #[trigger] next.steps[i] {
        LoadStep::NewPage { entry, copy } => copy_in_bounds(copy, file_len) && !(
        entry.flags.writable && entry.flags.executable),
        LoadStep::Refill { page, copy, remap } => page < next.pages.len() && copy_in_bounds(
            copy,
            file_len,
        ) && (remap matches Some(f) ==> !(f.writable && f.executable)),
    } by {
        if i < state.steps.len() {
            assert(next.steps[i] == state.steps[i]);
        }
    }
}

proof fn lemma_after_segment(
    ph: Elf64Phdr,
    delta: u64,
    file_len: int,
    page: int,
    state: LoadState,
)
    requires
        load_state_ok(state, file_len),
        pages_aligned(state.pages),
        segment_vaddr(ph, delta) + ph.p_memsz + 4095 <= u64::MAX,
        0 <= page,
        page % 4096 == 0,
        0 <= file_len <= usize::MAX,
        page < segment_end(ph, delta) ==> state.pages.len() + (segment_end(ph, delta) - page) / 4096
            <= usize::MAX,
    ensures
        load_state_ok(after_segment(ph, delta, file_len, page, state), file_len),
        pages_aligned(after_segment(ph, delta, file_len, page, state).pages),
        page < segment_end(ph, delta) ==> after_segment(ph, delta, file_len, page, state).pages.len()
            <= state.pages.len() + (segment_end(ph, delta) - page) / 4096,
        page >= segment_end(ph, delta) ==> after_segment(ph, delta, file_len, page, state) == state,
    decreases segment_end(ph, delta) - page + 4096,
{
    if page < segment_end(ph, delta) {
        let flags = segment_flags(ph.p_flags);
        let copy = page_copy(ph, delta, page, file_len);
        lemma_after_page(state, page, flags, copy, file_len);
        lemma_after_segment(
            ph,
            delta,
            file_len,
            page + 4096,
            after_page(state, page, flags, copy),
        );
    }
}

/// Loading keeps W^X page by page, lists every page once, and never copies
/// outside a page or outside the file. There are no more pages than
/// [`elf_count_load_pages`] counts.
pub proof fn lemma_load_state_ok(phdrs: Seq<Elf64Phdr>, delta: u64, file_len: int, n: int)
    requires
        0 <= n <= phdrs.len(),
        memory_representable(phdrs, delta),
        page_total(phdrs, delta, n) <= usize::MAX,
        0 <= file_len <= usize::MAX,
    ensures
        load_state_ok(after_segments(phdrs, delta, file_len, n), file_len),
        pages_aligned(after_segments(phdrs, delta, file_len, n).pages),
        after_segments(phdrs, delta, file_len, n).pages.len() <= page_total(phdrs, delta, n),
        page_total(phdrs, delta, n) >= 0,
    decreases n,
{
    if n > 0 {
        let ph = phdrs[n - 1];
        lemma_page_total_step(phdrs, delta, n);
        lemma_load_state_ok(phdrs, delta, file_len, n - 1);
        if is_load(ph) {
            let before = after_segments(phdrs, delta, file_len, n - 1);
            lemma_after_segment(ph, delta, file_len, segment_start(ph, delta), before);
        }
    }
}

proof fn lemma_page_total_step(phdrs: Seq<Elf64Phdr>, delta: u64, n: int)
    requires
        0 < n <= phdrs.len(),
        memory_representable(phdrs, delta),
    ensures
        page_total(phdrs, delta, n - 1) <= page_total(phdrs, delta, n),
{
    assert(is_load(phdrs[n - 1]) ==> segment_start(phdrs[n - 1], delta) <= segment_end(
        phdrs[n - 1],
        delta,
    ));
}

/// Relocation writes whole words inside loaded pages.
pub proof fn lemma_relocation_writes_in_pages(
    s: Seq<u8>,
    phdrs: Seq<Elf64Phdr>,
    pages: Seq<PageEntry>,
    arch: Arch,
    delta: u64,
    load_base: u64,
    i: int,
)
    requires
        pages.len() <= usize::MAX,
        0 <= i < all_relocation_writes(s, phdrs, pages, arch, delta, load_base).0.len(),
    ensures
        ({
            let w = all_relocation_writes(s, phdrs, pages, arch, delta, load_base).0[i];
            w.page < pages.len() && w.offset + 8 <= 4096
        }),
{
    let t = declared_rela_table(s, phdrs);
    let off = file_offset_from(phdrs, s.len() as int, t.vaddr, 0)->0;
    lemma_relocation_writes(
        s,
        pages,
        arch,
        delta,
        load_base,
        t.entry as int,
        (t.size / t.entry) as int,
        off,
        Seq::empty(),
    );
}

spec fn writes_in_pages(writes: Seq<PageWrite>, n: int) -> bool {
    forall|i: int|
        0 <= i < writes.len() ==> (#[trigger] writes[i]).page < n && writes[i].offset + 8 <= 4096
}

proof fn lemma_relocation_writes(
    s: Seq<u8>,
    pages: Seq<PageEntry>,
    arch: Arch,
    delta: u64,
    load_base: u64,
    size: int,
    n: int,
    pos: int,
    writes: Seq<PageWrite>,
)
    requires
        pages.len() <= usize::MAX,
        writes_in_pages(writes, pages.len() as int),
    ensures
        writes_in_pages(
            relocation_writes(s, pages, arch, delta, load_base, size, n, pos, writes).0,
            pages.len() as int,
        ),
    decreases n,
{
    if n > 0 && pos + 24 <= s.len() {
        if rela_type(le_u64(s, pos + 8)) != relative_type(arch) {
            lemma_relocation_writes(
                s,
                pages,
                arch,
                delta,
                load_base,
                size,
                n - 1,
                pos + size,
                writes,
            );
        } else {
            let target = le_u64(s, pos).wrapping_add(delta) as int;
            lemma_page_index(pages, page_floor(target), 0);
            match relative_write(pages, delta, load_base, le_u64(s, pos), le_u64(s, pos + 16)) {
                None => {},
                Some(w) => {
                    let next = writes.push(w);
                    assert forall|i: int| 0 <= i < next.len() implies (#[trigger] next[i]).page
                        < pages.len() && next[i].offset + 8 <= 4096 by {
                        if i < writes.len() {
                            assert(writes[i].page < pages.len());
                        }
                    }
                    lemma_relocation_writes(
                        s,
                        pages,
                        arch,
                        delta,
                        load_base,
                        size,
                        n - 1,
                        pos + size,
                        next,
                    );
                },
            }
        }
    }
}

// ---------------------------------------------------------------------------
// Frame allocation
// ---------------------------------------------------------------------------

/// First slot of the untyped capabilities in the standard child layout.
pub const CAP_UNTYPED_START: u64 = 16;

/// Upper bound for untyped scanning when nothing is known of the CNode.
pub const ELF_UT_SCAN_END_FALLBACK: u64 = 200;

/// Upper bound for untyped scanning; `num_slots` is the size of the CNode if it
/// could be queried.
pub fn untyped_scan_end(num_slots: Option<u64>) -> (r: u64)
    ensures
        r == match num_slots {
            Some(n) => if 16 < n < 200 {
                n
            } else {
                200
            },
            None => 200,
        },
{
    match num_slots {
        Some(n) => {
            if n > CAP_UNTYPED_START && n < ELF_UT_SCAN_END_FALLBACK {
                n
            } else {
                ELF_UT_SCAN_END_FALLBACK
            }
        },
        None => ELF_UT_SCAN_END_FALLBACK,
    }
}

/// Slots `lo..hi` without `skip`, in order.
pub open spec fn slots_without(lo: int, hi: int, skip: u64) -> Seq<u64>
    decreases hi - lo,
{
    if lo >= hi {
        Seq::empty()
    } else if lo == skip {
        slots_without(lo + 1, hi, skip)
    } else {
        seq![lo as u64] + slots_without(lo + 1, hi, skip)
    }
}

/// Where the scan starts: at the hint, if it is in range.
pub open spec fn scan_first(hint: u64, end: u64) -> u64 {
    if hint < 16 || hint >= end {
        16
    } else {
        hint
    }
}

/// The untyped capabilities to try, in order: the current one, then from the
/// hint up to `end`, then the ones below the hint.
pub open spec fn retype_order(untyped: u64, hint: u64, end: u64) -> Seq<u64> {
    let first = scan_first(hint, end);
    seq![untyped] + slots_without(first as int, end as int, untyped) + slots_without(
        16,
        first as int,
        untyped,
    )
}

fn push_slots(out: &mut Vec<u64>, lo: u64, hi: u64, skip: u64)
    ensures
        final(out)@ == old(out)@ + slots_without(lo as int, hi as int, skip),
{
    let mut ut: u64 = lo;
    assert(out@ + slots_without(lo as int, hi as int, skip) =~= old(out)@ + slots_without(
        lo as int,
        hi as int,
        skip,
    ));
    while ut < hi
        invariant
            lo <= ut,
            out@ + slots_without(ut as int, hi as int, skip) == old(out)@ + slots_without(
                lo as int,
                hi as int,
                skip,
            ),
        decreases hi - ut,
    {
        if ut != skip {
            proof {
                let rest = slots_without(ut + 1, hi as int, skip);
                assert(out@ + (seq![ut] + rest) =~= out@.push(ut) + rest);
            }
            out.push(ut);
        }
        ut = ut + 1;
    }
    assert(out@ + Seq::<u64>::empty() =~= out@);
}

/// Lists the untyped capabilities to retype a frame from, in the order in which
/// they are tried. `untyped` is the one that succeeded last for this loader,
/// `hint` the one that succeeded last for any.
pub fn retype_candidates(untyped: u64, hint: u64, end: u64) -> (r: Vec<u64>)
    ensures
        r@ == retype_order(untyped, hint, end),
{
    let first: u64 = if hint < CAP_UNTYPED_START || hint >= end { CAP_UNTYPED_START } else { hint };
    let mut out: Vec<u64> = Vec::new();
    out.push(untyped);
    assert(out@ =~= seq![untyped]);
    push_slots(&mut out, first, end, untyped);
    push_slots(&mut out, CAP_UNTYPED_START, first, untyped);
    out
}

/// Kernel error codes that only say that a slot holds nothing usable.
#[derive(Clone, Copy)]
pub struct EmptySlotErrors {
    pub invalid_capability: i32,
    pub invalid_operation: i32,
    pub not_found: i32,
}

impl EmptySlotErrors {
    /// Whether `err` is one of them.
    pub open spec fn has(self, err: i32) -> bool {
        err == self.invalid_capability || err == self.invalid_operation || err == self.not_found
    }
}

/// The error that `n` failed attempts report: the last one that says more than
/// that a slot is empty, or the first one.
pub open spec fn retype_error(errs: Seq<i32>, codes: EmptySlotErrors, n: int) -> i32
    decreases n,
{
    if n <= 1 {
        errs[0]
    } else if codes.has(errs[n - 1]) {
        retype_error(errs, codes, n - 1)
    } else {
        errs[n - 1]
    }
}

/// What trying the candidates amounts to, given the error of each attempt: the
/// index of the candidate that succeeded, or the error to report.
pub fn try_retype_frame_any_untyped(errs: &[i32], codes: EmptySlotErrors) -> (r: Result<usize, i32>)
    requires
        errs@.len() > 0,
    ensures
        match r {
            Ok(i) => i < errs@.len() && errs@[i as int] == 0 && forall|j: int|
                0 <= j < i ==> errs@[j] != 0,
            Err(e) => e == retype_error(errs@, codes, errs@.len() as int) && forall|j: int|
                0 <= j < errs@.len() ==> errs@[j] != 0,
        },
{
    let mut best: i32 = errs[0];
    let mut i: usize = 0;
    while i < errs.len()
        invariant
            i <= errs@.len(),
            errs@.len() > 0,
            best == retype_error(errs@, codes, i as int),
            forall|j: int| 0 <= j < i ==> errs@[j] != 0,
        decreases errs@.len() - i,
    {
        let err: i32 = errs[i];
        if err == 0 {
            return Ok(i);
        }
        if i > 0 && err != codes.invalid_capability && err != codes.invalid_operation && err
            != codes.not_found {
            best = err;
        }
        i = i + 1;
    }
    Err(best)
}

// ---------------------------------------------------------------------------
// Which slots are tried
// ---------------------------------------------------------------------------

proof fn lemma_slots_without(lo: int, hi: int, skip: u64, x: u64)
    requires
        0 <= lo,
        hi <= u64::MAX,
    ensures
        slots_without(lo, hi, skip).contains(x) <==> lo <= x < hi && x != skip,
        slots_without(lo, hi, skip).no_duplicates(),
    decreases hi - lo,
{
    if lo < hi {
        let rest = slots_without(lo + 1, hi, skip);
        lemma_slots_without(lo + 1, hi, skip, x);
        if lo != skip {
            let all = slots_without(lo, hi, skip);
            lemma_slots_without(lo + 1, hi, skip, lo as u64);
            assert(all[0] == lo);
            assert forall|i: int, j: int| 0 <= i < j < all.len() implies all[i] != all[j] by {
                assert(all[j] == rest[j - 1]);
                if i > 0 {
                    assert(all[i] == rest[i - 1]);
                } else {
                    assert(rest.contains(rest[j - 1]));
                }
            }
            if rest.contains(x) {
                let j = choose|j: int| 0 <= j < rest.len() && rest[j] == x;
                assert(all[j + 1] == x);
            }
            if all.contains(x) {
                let j = choose|j: int| 0 <= j < all.len() && all[j] == x;
                if j > 0 {
                    assert(rest[j - 1] == x);
                }
            }
        }
    }
}

/// The current capability is tried first, and then every other one from slot 16 up
/// to the end, once each.
pub proof fn lemma_every_slot_is_tried(untyped: u64, hint: u64, end: u64, x: u64)
    requires
        16 <= untyped < end,
    ensures
        retype_order(untyped, hint, end)[0] == untyped,
        retype_order(untyped, hint, end).contains(x) <==> 16 <= x < end,
        retype_order(untyped, hint, end).no_duplicates(),
{
    let first = scan_first(hint, end) as int;
    let a = slots_without(first, end as int, untyped);
    let b = slots_without(16, first, untyped);
    let all = retype_order(untyped, hint, end);
    lemma_slots_without(first, end as int, untyped, x);
    lemma_slots_without(16, first, untyped, x);
    assert(all == seq![untyped] + a + b);
    assert(all[0] == untyped);
    if a.contains(x) {
        let j = choose|j: int| 0 <= j < a.len() && a[j] == x;
        assert(all[1 + j] == x);
    }
    if b.contains(x) {
        let j = choose|j: int| 0 <= j < b.len() && b[j] == x;
        assert(all[1 + a.len() + j] == x);
    }
    if all.contains(x) {
        let j = choose|j: int| 0 <= j < all.len() && all[j] == x;
        if 1 <= j <= a.len() {
            assert(a[j - 1] == x);
        } else if j > 0 {
            assert(b[j - 1 - a.len()] == x);
        }
    }
    assert forall|i: int, j: int| 0 <= i < j < all.len() implies all[i] != all[j] by {
        let y = all[j];
        lemma_slots_without(first, end as int, untyped, y);
        lemma_slots_without(16, first, untyped, y);
        lemma_slots_without(first, end as int, untyped, all[i]);
        if j <= a.len() {
            assert(a[j - 1] == y);
            if i > 0 {
                assert(a[i - 1] == all[i]);
            }
        } else {
            assert(b[j - 1 - a.len()] == y);
            if 0 < i <= a.len() {
                assert(a[i - 1] == all[i]);
            } else if i > 0 {
                assert(b[i - 1 - a.len()] == all[i]);
            }
        }
    }
}

/// The error reported is that of the last attempt that says more than that a slot
/// is empty, and that of the first attempt if none does.
pub proof fn lemma_reported_error(errs: Seq<i32>, codes: EmptySlotErrors, n: int, k: int)
    requires
        0 <= k < n <= errs.len(),
        k == 0 || !codes.has(errs[k]),
        forall|j: int| k < j < n ==> codes.has(#[trigger] errs[j]),
    ensures
        retype_error(errs, codes, n) == errs[k],
    decreases n,
{
    if k < n - 1 {
        assert(codes.has(errs[n - 1]));
        lemma_reported_error(errs, codes, n - 1, k);
    }
}

} // verus!
