//! Loading of an object: header checks, placement, and its link map entry.
use crate::loader::bytes::{le_u16, le_u64, lemma_fields_of_rest, read_u16, read_u64};
use crate::loader::elf::dynamic::{
    dyn_info_of, dynamic_at, dynamic_len, parse_dynamic, read_dynamic,
};
use crate::loader::elf::header::{
    ehdr_error, find_dynamic_phdr, find_tls_phdr, has_span, is_ehdr, is_first_of_type, is_load,
    load_span, phdr_at, phdr_slice, read_ehdr, span_hi, span_of, validate_ehdr, Arch,
};
use crate::loader::elf::run_plan::{plan_elf, plan_envelope, plan_outcome};
use crate::loader::elf::types::{page_ceil, page_floor, Elf64Ehdr, Elf64Phdr};
use crate::loader::elf::tls::aligned;
use crate::loader::image::{ImageEnvelope, Run};
use crate::loader::link_flags::{FINI_DONE, INIT_DONE, RUNTIME_LOADED, STARTUP};
use crate::loader::link_map::{lemma_flags, ArenaState, CName, LinkMap, RtldState};
use crate::loader::rtld::elf::arena::{arena_alloc_link_map, has_room};
use crate::loader::rtld::elf::object::{
    addressed, apply_dyn_info, holds_tables, is_entry_string, symbol_total, table_string,
};
use crate::loader::rtld::elf::tables::{copy_bytes, tail, Memory};
use vstd::prelude::*;
use vstd::slice::slice_subrange;

verus! {

/// Errors from loading an object at runtime.
#[derive(Clone, Copy, PartialEq, Eq, Debug, Structural)]
pub enum LoadError {
    ArenaMmapFailed,
    OpenFailed,
    StatFailed,
    ReadFailed,
    NotElf,
    UnsupportedClass,
    UnsupportedMachine,
    NoLoadable,
    DsoWindowExhausted,
    RunPlanFailed,
    ImageReserveFailed,
    ImageAliasFailed,
    ImageMapRunFailed,
    MmapFailed,
    Mprotect,
    OutOfArena,
    DependencyMissing,
    RelocationFailed,
}

/// Open flags.
pub const RTLD_LAZY_FLAG: i32 = 0x0001;

pub const RTLD_NOW_FLAG: i32 = 0x0002;

/// Open only what is loaded already.
pub const RTLD_NOLOAD_FLAG: i32 = 0x0004;

pub const RTLD_GLOBAL_FLAG: i32 = 0x0100;

pub const RTLD_NODELETE_FLAG: i32 = 0x1000;

/// Largest run buffer for one image.
pub const MAX_RTLD_RUNS: usize = 128;

/// Bytes of an image that are read for its headers.
pub const RTLD_HEADER_SCRATCH: usize = 8192;

/// Whether `r` is the part of `name` behind its last slash.
pub open spec fn is_basename(name: Seq<u8>, r: Seq<u8>) -> bool {
    &&& !r.contains(0x2f)
    &&& r.len() <= name.len()
    &&& r == name.skip(name.len() - r.len())
    &&& r.len() == name.len() || name[name.len() - r.len() - 1] == 0x2f
}

/// The last component of a path.
pub fn basename(name: &[u8]) -> (r: &[u8])
    ensures
        is_basename(name@, r@),
{
    let mut i: usize = name.len();
    while i > 0 && name[i - 1] != 0x2f
        invariant
            i <= name@.len(),
            forall|j: int| i <= j < name@.len() ==> name@[j] != 0x2f,
        decreases i,
    {
        i = i - 1;
    }
    let r: &[u8] = slice_subrange(name, i, name.len());
    assert(r@ =~= name@.skip(name@.len() - r@.len()));
    r
}

/// How much to read next of an image of `size` bytes for its headers, when `have`
/// bytes were read; `None` when there is nothing left to read.
pub fn read_headers_want(size: u64, have: usize) -> (r: Option<u64>)
    requires
        have <= RTLD_HEADER_SCRATCH,
    ensures
        ({
            let total = if size < 8192 {
                size as int
            } else {
                8192
            };
            r == if have >= total {
                None
            } else if total - have < 2048 {
                Some((total - have) as u64)
            } else {
                Some(2048)
            }
        }),
{
    let total: u64 = if size < 8192 {
        size
    } else {
        8192
    };
    if have as u64 >= total {
        return None;
    }
    let left: u64 = total - have as u64;
    Some(
        if left < 2048 {
            left
        } else {
            2048
        },
    )
}

/// How many bytes of a reply to a read of `want` bytes count; `None` to stop
/// reading.
pub fn read_headers_got(want: u64, error: i32, got: u64) -> (r: Option<u64>)
    ensures
        r == if error != 0 || got == 0 {
            None
        } else if got < want {
            Some(got)
        } else {
            Some(want)
        },
{
    if error != 0 || got == 0 {
        return None;
    }
    Some(
        if got < want {
            got
        } else {
            want
        },
    )
}

// ---------------------------------------------------------------------------
// Placement
// ---------------------------------------------------------------------------

/// Where the next image of `size` bytes goes in the library window; 0 if there
/// is no room. An end past the largest address counts as that address.
pub open spec fn load_hint(st: RtldState, size: int) -> u64 {
    let end = if st.lib_load_addr + size > u64::MAX {
        u64::MAX as int
    } else {
        st.lib_load_addr + size
    };
    if st.lib_load_limit != 0 && end > st.lib_load_limit {
        0
    } else {
        st.lib_load_addr
    }
}

fn chain_next_load_hint(st: &RtldState, size: u64) -> (r: u64)
    ensures
        r == load_hint(*st, size as int),
{
    let end: u64 = if size > u64::MAX - st.lib_load_addr {
        u64::MAX
    } else {
        st.lib_load_addr + size
    };
    if st.lib_load_limit != 0 && end > st.lib_load_limit {
        return 0;
    }
    st.lib_load_addr
}

/// The program headers of a file.
pub open spec fn file_phdrs(s: Seq<u8>) -> Seq<Elf64Phdr> {
    Seq::new(le_u16(s, 56) as nat, |i: int| phdr_at(s, le_u64(s, 32) + 56 * i))
}

/// Why the headers of a file are not those of an object for `arch`.
pub open spec fn is_object_file(s: Seq<u8>, arch: Arch) -> bool {
    &&& ehdr_error(s, arch) is None
    &&& le_u16(s, 56) != 0
    &&& le_u64(s, 32) + le_u16(s, 56) * le_u16(s, 54) <= s.len()
    &&& le_u64(s, 32) + le_u16(s, 56) * 56 <= s.len()
}

/// The segments end where their end can be rounded up to a page.
pub open spec fn span_is_representable(phdrs: Seq<Elf64Phdr>) -> bool {
    has_span(phdrs) ==> span_hi(phdrs, phdrs.len() as int) + 4095 <= u64::MAX
}

/// Whether the end of the segments can be rounded up to a page.
pub fn check_span(phdrs: &[Elf64Phdr]) -> (r: bool)
    ensures
        r == span_is_representable(phdrs@),
{
    let mut hi: u64 = 0;
    let mut found: bool = false;
    let mut i: usize = 0;
    while i < phdrs.len()
        invariant
            i <= phdrs@.len(),
            hi == span_hi(phdrs@, i as int),
            found == exists|j: int| 0 <= j < i && is_load(#[trigger] phdrs@[j]),
            forall|j: int|
                0 <= j < i && is_load(#[trigger] phdrs@[j]) ==> phdrs@[j].p_vaddr
                    + phdrs@[j].p_memsz <= u64::MAX,
        decreases phdrs@.len() - i,
    {
        let ph: &Elf64Phdr = &phdrs[i];
        assert(*ph == phdrs@[i as int]);
        if ph.p_type == 1 {
            found = true;
            if ph.p_memsz > u64::MAX - ph.p_vaddr {
                return true;
            }
            if ph.p_vaddr + ph.p_memsz > hi {
                hi = ph.p_vaddr + ph.p_memsz;
            }
        }
        i = i + 1;
    }
    !found || hi <= u64::MAX - 4095
}

/// A checked file and where it goes.
pub struct ObjectPlan {
    pub ehdr: Elf64Ehdr,
    pub phdrs: Vec<Elf64Phdr>,
    pub envelope: ImageEnvelope,
    /// Number of runs.
    pub run_count: usize,
}

/// Why an object cannot be placed; `None` if it can.
pub open spec fn place_error(st: RtldState, s: Seq<u8>, arch: Arch, cap: nat) -> Option<LoadError> {
    let phdrs = file_phdrs(s);
    let (lo, hi) = span_of(phdrs);
    if !is_object_file(s, arch) {
        Some(LoadError::NotElf)
    } else if !has_span(phdrs) {
        Some(LoadError::NoLoadable)
    } else if load_hint(st, hi - lo) == 0 {
        Some(LoadError::DsoWindowExhausted)
    } else if plan_outcome(phdrs, load_hint(st, hi - lo), cap).1 is Some {
        Some(LoadError::RunPlanFailed)
    } else {
        None
    }
}

/// Checks the headers of a file, chooses a place in the library window, and
/// plans the runs of the image there into `runs`.
pub fn plan_object(st: &RtldState, hdr: &[u8], arch: Arch, runs: &mut [Run]) -> (r: Result<
    ObjectPlan,
    LoadError,
>)
    requires
        is_object_file(hdr@, arch) ==> span_is_representable(file_phdrs(hdr@)),
    ensures
        match place_error(*st, hdr@, arch, old(runs)@.len()) {
            Some(e) => r == Err::<ObjectPlan, LoadError>(e),
            None => {
                let plan = r->Ok_0;
                let (lo, hi) = span_of(file_phdrs(hdr@));
                let outcome = plan_outcome(
                    file_phdrs(hdr@),
                    load_hint(*st, hi - lo),
                    old(runs)@.len(),
                );
                &&& r is Ok
                &&& is_ehdr(hdr@, plan.ehdr)
                &&& plan.phdrs@ == file_phdrs(hdr@)
                &&& plan.envelope == plan_envelope(
                    file_phdrs(hdr@),
                    load_hint(*st, hi - lo),
                    le_u64(hdr@, 24),
                )
                &&& plan.run_count == outcome.0.len()
                &&& outcome.0.len() <= old(runs)@.len()
                &&& final(runs)@ == outcome.0 + old(runs)@.skip(outcome.0.len() as int)
            },
        },
{
    let ehdr: Elf64Ehdr = match validate_ehdr(hdr, arch) {
        Ok(e) => e,
        Err(_) => {
            return Err(LoadError::NotElf);
        },
    };
    let phdrs: Vec<Elf64Phdr> = match phdr_slice(hdr, &ehdr) {
        Ok(p) => p,
        Err(_) => {
            return Err(LoadError::NotElf);
        },
    };
    assert(phdrs@ =~= file_phdrs(hdr@));
    let (lo, hi): (u64, u64) = match load_span(phdrs.as_slice()) {
        Some(s) => s,
        None => {
            return Err(LoadError::NoLoadable);
        },
    };
    proof {
        lemma_span_order(phdrs@);
    }
    let load_base: u64 = chain_next_load_hint(st, hi - lo);
    if load_base == 0 {
        return Err(LoadError::DsoWindowExhausted);
    }
    let (envelope, run_count): (ImageEnvelope, usize) = match plan_elf(
        phdrs.as_slice(),
        load_base,
        ehdr.e_entry,
        runs,
    ) {
        Ok(p) => p,
        Err(_) => {
            return Err(LoadError::RunPlanFailed);
        },
    };
    Ok(ObjectPlan { ehdr, phdrs, envelope, run_count })
}

proof fn lemma_span_order(phdrs: Seq<Elf64Phdr>)
    requires
        has_span(phdrs),
    ensures
        span_of(phdrs).0 <= span_of(phdrs).1,
{
    let i = choose|i: int| 0 <= i < phdrs.len() && is_load(#[trigger] phdrs[i]);
    crate::loader::elf::header::lemma_span_covers(phdrs, phdrs.len() as int, i);
}

// ---------------------------------------------------------------------------
// Link map entry
// ---------------------------------------------------------------------------

/// The first program header of a type, from `i` on.
pub open spec fn first_phdr(phdrs: Seq<Elf64Phdr>, t: u32, i: int) -> Option<Elf64Phdr>
    decreases phdrs.len() - i,
{
    if i < 0 || i >= phdrs.len() {
        None
    } else if phdrs[i].p_type == t {
        Some(phdrs[i])
    } else {
        first_phdr(phdrs, t, i + 1)
    }
}

pub proof fn lemma_first_phdr(phdrs: Seq<Elf64Phdr>, t: u32, r: Option<&Elf64Phdr>, i: int)
    requires
        is_first_of_type(phdrs, t, r),
        0 <= i,
        forall|j: int| 0 <= j < i && j < phdrs.len() ==> (#[trigger] phdrs[j]).p_type != t,
    ensures
        match r {
            Some(ph) => first_phdr(phdrs, t, i) == Some(*ph),
            None => first_phdr(phdrs, t, i) is None,
        },
    decreases phdrs.len() - i,
{
    if i < phdrs.len() && phdrs[i].p_type != t {
        lemma_first_phdr(phdrs, t, r, i + 1);
    }
}

/// An entry with the dynamic section at an address.
pub open spec fn with_dynamic(lm: LinkMap, addr: u64, start: u64, bytes: Seq<u8>) -> LinkMap {
    let entries = dynamic_at(tail(start, bytes, addr), 0);
    LinkMap {
        dynamic: addr,
        dyn_info: dyn_info_of(entries, dynamic_len(entries, 0)),
        ..lm
    }
}

/// Whether `after` is `before` with everything that the dynamic section at `addr`
/// leads to.
pub open spec fn has_dynamic(
    before: LinkMap,
    addr: u64,
    start: u64,
    bytes: Seq<u8>,
    after: LinkMap,
) -> bool {
    let pre = with_dynamic(before, addr, start, bytes);
    &&& after == (LinkMap {
        tables: after.tables,
        runpath: after.runpath,
        rpath: after.rpath,
        nsyms: after.nsyms,
        ..addressed(pre)
    })
    &&& holds_tables(after.tables, addressed(pre), start, bytes)
    &&& after.tables.dynamic@ == dynamic_at(tail(start, bytes, addr), 0)
    &&& after.tables.phdrs == before.tables.phdrs
    &&& is_entry_string(after.runpath, before.runpath, after, pre.dyn_info.runpath)
    &&& is_entry_string(after.rpath, before.rpath, after, pre.dyn_info.rpath)
    &&& after.nsyms == symbol_total(after) % 0x1_0000_0000
}

/// Takes over the dynamic section at `addr`.
pub fn describe_dynamic(lm: &mut LinkMap, addr: u64, mem: &Memory<'_>)
    ensures
        has_dynamic(*old(lm), addr, mem.start, mem.bytes@, *final(lm)),
{
    let bytes: &[u8] = mem.from(addr);
    lm.dynamic = addr;
    lm.tables.dynamic = read_dynamic(bytes, 0);
    lm.dyn_info = parse_dynamic(lm.tables.dynamic.as_slice());
    apply_dyn_info(lm, mem);
}

/// An entry with the TLS segment among its program headers, if there is one.
pub open spec fn with_tls(lm: LinkMap) -> LinkMap {
    match first_phdr(lm.tables.phdrs@, 7, 0) {
        Some(ph) => LinkMap {
            tls_image: lm.base.wrapping_add(ph.p_vaddr),
            tls_filesz: ph.p_filesz,
            tls_memsz: ph.p_memsz,
            tls_align: ph.p_align,
            ..lm
        },
        None => lm,
    }
}

/// Takes over the TLS segment, if there is one.
pub fn describe_tls(lm: &mut LinkMap)
    ensures
        *final(lm) == with_tls(*old(lm)),
{
    let found: Option<Elf64Phdr> = match find_tls_phdr(lm.tables.phdrs.as_slice()) {
        Some(ph) => {
            proof {
                lemma_first_phdr(lm.tables.phdrs@, 7, Some(ph), 0);
            }
            Some(*ph)
        },
        None => {
            proof {
                lemma_first_phdr(lm.tables.phdrs@, 7, None, 0);
            }
            None
        },
    };
    match found {
        Some(ph) => {
            lm.tls_image = lm.base.wrapping_add(ph.p_vaddr);
            lm.tls_filesz = ph.p_filesz;
            lm.tls_memsz = ph.p_memsz;
            lm.tls_align = ph.p_align;
        },
        None => {},
    }
}

/// Whether `after` is `before` with the dynamic section among its program
/// headers, if there is one.
pub open spec fn takes_dynamic(before: LinkMap, start: u64, bytes: Seq<u8>, after: LinkMap) -> bool {
    match first_phdr(before.tables.phdrs@, 2, 0) {
        Some(ph) => has_dynamic(
            before,
            before.base.wrapping_add(ph.p_vaddr),
            start,
            bytes,
            after,
        ),
        None => after == before,
    }
}

/// Whether `after` is `before` with what its program headers lead to: the
/// dynamic section, and if `soname` the shared object name there, and the TLS
/// segment.
pub open spec fn is_described(
    before: LinkMap,
    soname: bool,
    start: u64,
    bytes: Seq<u8>,
    after: LinkMap,
) -> bool {
    exists|mid: LinkMap|
        {
            &&& #[trigger] takes_dynamic(before, start, bytes, mid)
            &&& after == (LinkMap { soname: after.soname, ..with_tls(mid) })
            &&& if soname && first_phdr(before.tables.phdrs@, 2, 0) is Some {
                is_entry_string(after.soname, before.soname, mid, mid.dyn_info.soname)
            } else {
                after.soname == before.soname
            }
        }
}

/// Takes over what the program headers of an entry lead to.
pub fn describe(lm: &mut LinkMap, soname: bool, mem: &Memory<'_>)
    ensures
        is_described(*old(lm), soname, mem.start, mem.bytes@, *final(lm)),
{
    let dynamic: Option<u64> = match find_dynamic_phdr(lm.tables.phdrs.as_slice()) {
        Some(ph) => {
            proof {
                lemma_first_phdr(lm.tables.phdrs@, 2, Some(ph), 0);
            }
            Some(lm.base.wrapping_add(ph.p_vaddr))
        },
        None => {
            proof {
                lemma_first_phdr(lm.tables.phdrs@, 2, None, 0);
            }
            None
        },
    };
    let ghost before = *lm;
    let ghost mut mid = *lm;
    match dynamic {
        Some(addr) => {
            describe_dynamic(lm, addr, mem);
            proof {
                mid = *lm;
            }
            assert(has_dynamic(before, addr, mem.start, mem.bytes@, mid));
            if soname && lm.dyn_info.soname != 0 && lm.strtab != 0 {
                let s: CName = table_string(lm, lm.dyn_info.soname);
                lm.soname = Some(s);
            }
        },
        None => {},
    }
    describe_tls(lm);
    assert(takes_dynamic(before, mem.start, mem.bytes@, mid));
}

/// Copies a string.
pub fn copy_name(n: &CName) -> (r: CName)
    ensures
        r.addr == n.addr,
        r.bytes@ == n.bytes@,
{
    CName { addr: n.addr, bytes: copy_bytes(n.bytes.as_slice()) }
}

/// The end of an image.
pub open spec fn image_end(plan: ObjectPlan) -> int {
    plan.envelope.base + plan.envelope.bytes
}

/// The entry of a placed image, before its memory is looked at.
pub open spec fn is_placed(plan: ObjectPlan, name: CName, image_id: u64, lm: LinkMap) -> bool {
    &&& lm.is_unlinked()
    &&& lm.addr == 0
    &&& lm.base == plan.envelope.load_base
    &&& lm.name is Some && lm.name->0.addr == name.addr && lm.name->0.bytes@ == name.bytes@
    &&& lm.path is Some && lm.path->0.addr == name.addr && lm.path->0.bytes@ == name.bytes@
    &&& lm.phdr == plan.envelope.load_base.wrapping_add(plan.ehdr.e_phoff)
    &&& lm.phnum == plan.ehdr.e_phnum
    &&& lm.e_type == plan.ehdr.e_type
    &&& lm.entry == plan.envelope.entry_pc
    &&& lm.map_start == plan.envelope.base
    &&& lm.map_end == image_end(plan)
    &&& lm.image_id == image_id
    &&& lm.tables.phdrs@ == plan.phdrs@
}

/// The window cursor behind an image: on the first page that leaves a page free
/// behind it, unless it is further already.
pub open spec fn window_after(cursor: u64, end: int) -> int {
    if cursor <= end {
        page_ceil(end + 4096)
    } else {
        cursor as int
    }
}

/// Makes the link map entry of a placed image from its plan and its memory, and
/// moves the window cursor past it. `name` is the interned name, `image_id` the
/// reservation that the image was placed in.
pub fn load_object_into(
    st: &mut RtldState,
    plan: ObjectPlan,
    name: &CName,
    image_id: u64,
    mem: &Memory<'_>,
) -> (r: LinkMap)
    requires
        image_end(plan) + 8191 <= u64::MAX,
    ensures
        exists|placed: LinkMap|
            #[trigger] is_placed(plan, *name, image_id, placed) && is_described(
                placed,
                true,
                mem.start,
                mem.bytes@,
                r,
            ),
        *final(st) == (RtldState {
            lib_load_addr: window_after(old(st).lib_load_addr, image_end(plan)) as u64,
            ..*old(st)
        }),
{
    let end: u64 = plan.envelope.base + plan.envelope.bytes;
    let ghost given = plan;
    let mut lm: LinkMap = LinkMap::zeroed();
    lm.base = plan.envelope.load_base;
    lm.path = Some(copy_name(name));
    lm.name = Some(copy_name(name));
    lm.map_start = plan.envelope.base;
    lm.map_end = end;
    lm.image_id = image_id;
    lm.e_type = plan.ehdr.e_type;
    lm.entry = plan.envelope.entry_pc;
    lm.phdr = plan.envelope.load_base.wrapping_add(plan.ehdr.e_phoff);
    lm.phnum = plan.ehdr.e_phnum;
    lm.tables.phdrs = plan.phdrs;
    assert(is_placed(given, *name, image_id, lm));
    describe(&mut lm, true, mem);
    if st.lib_load_addr <= end {
        st.lib_load_addr = (end + 8191) / 4096 * 4096;
    }
    lm
}

/// Images do not collide: whatever is placed after an image lies behind it.
pub proof fn lemma_loads_are_disjoint(
    before: RtldState,
    first: ObjectPlan,
    after: RtldState,
    s: Seq<u8>,
    arch: Arch,
    cap: nat,
)
    requires
        image_end(first) + 8191 <= u64::MAX,
        image_end(first) % 4096 == 0,
        after.lib_load_addr == window_after(before.lib_load_addr, image_end(first)),
        place_error(after, s, arch, cap) is None,
    ensures
        ({
            let (lo, hi) = span_of(file_phdrs(s));
            plan_envelope(file_phdrs(s), load_hint(after, hi - lo), le_u64(s, 24)).base
                >= image_end(first)
        }),
{
    let phdrs = file_phdrs(s);
    let (lo, hi) = span_of(phdrs);
    lemma_span_order(phdrs);
    assert(load_hint(after, hi - lo) == after.lib_load_addr);
    assert(after.lib_load_addr >= image_end(first));
    lemma_span_lo(phdrs, phdrs.len() as int);
    assert(lo >= 0);
    assert(page_floor(after.lib_load_addr + lo) >= image_end(first));
    assert(after.lib_load_addr + hi + 4095 <= u64::MAX);
}

proof fn lemma_span_lo(phdrs: Seq<Elf64Phdr>, n: int)
    ensures
        0 <= crate::loader::elf::header::span_lo(phdrs, n) <= u64::MAX,
    decreases n,
{
    if n > 0 {
        lemma_span_lo(phdrs, n - 1);
    }
}

/// Links a loaded object into the chain, in front of the others, as opened once.
/// Returns its handle.
pub fn load_object(st: &mut RtldState, lm: LinkMap) -> (r: Result<u64, LoadError>)
    requires
        old(st).arena.wf(),
        old(st).arena.cursor + 7 <= u64::MAX,
    ensures
        final(st).arena.wf(),
        if has_room(old(st).arena, 592, 8) {
            let addr = (old(st).arena.base + aligned(old(st).arena.cursor, 8)) as u64;
            &&& r == Ok::<u64, LoadError>(addr)
            &&& *final(st) == (RtldState {
                chain: final(st).chain,
                arena: ArenaState {
                    cursor: (aligned(old(st).arena.cursor, 8) + 592) as u64,
                    ..old(st).arena
                },
                ..*old(st)
            })
            &&& final(st).chain@ == old(st).chain@.insert(
                0,
                (LinkMap { addr, flags: lm.flags | RUNTIME_LOADED, refcount: 1, ..lm }),
            )
        } else {
            r == Err::<u64, LoadError>(LoadError::OutOfArena) && *final(st) == *old(st)
        },
{
    match arena_alloc_link_map(&mut st.arena) {
        Some(addr) => {
            let mut entry: LinkMap = lm;
            entry.set_flag(RUNTIME_LOADED);
            entry.refcount = 1;
            entry.addr = addr;
            st.chain.insert(0, entry);
            Ok(addr)
        },
        None => Err(LoadError::OutOfArena),
    }
}

// ---------------------------------------------------------------------------
// The header of the main program
// ---------------------------------------------------------------------------

/// Whether the file header of a program with the given program headers is at an
/// address.
pub open spec fn ehdr_matches(
    start: u64,
    bytes: Seq<u8>,
    cand: u64,
    at_phdr: u64,
    at_phent: u64,
    at_phnum: u64,
) -> bool {
    let s = tail(start, bytes, cand);
    &&& s.len() >= 64
    &&& s[0] == 0x7f && s[1] == 0x45 && s[2] == 0x4c && s[3] == 0x46
    &&& le_u16(s, 54) == at_phent
    &&& le_u16(s, 56) == at_phnum
    &&& cand + le_u64(s, 32) == at_phdr || (at_phdr == u64::MAX && cand + le_u64(s, 32) > u64::MAX)
}

/// The address of the file header, at `back` bytes or more before the program
/// headers: the nearest one that matches, no more than a page away.
pub open spec fn main_ehdr(
    start: u64,
    bytes: Seq<u8>,
    at_phdr: u64,
    at_phent: u64,
    at_phnum: u64,
    back: int,
) -> Option<u64>
    decreases 4105 - back,
{
    if back < 0 || back > 4096 || back > at_phdr {
        None
    } else if ehdr_matches(
        start,
        bytes,
        (at_phdr - back) as u64,
        at_phdr,
        at_phent,
        at_phnum,
    ) {
        Some((at_phdr - back) as u64)
    } else {
        main_ehdr(start, bytes, at_phdr, at_phent, at_phnum, back + 8)
    }
}

/// Searches backwards from the program headers for the file header whose program
/// header data match. `None` if there is none within a page.
pub fn find_main_ehdr_from_at_phdr(mem: &Memory<'_>, at_phdr: u64, at_phent: u64, at_phnum: u64) -> (r:
    Option<Elf64Ehdr>)
    ensures
        match main_ehdr(mem.start, mem.bytes@, at_phdr, at_phent, at_phnum, 0) {
            Some(addr) => r is Some && is_ehdr(tail(mem.start, mem.bytes@, addr), r->0),
            None => r is None,
        },
{
    let mut back: u64 = 0;
    while back <= 4096 && back <= at_phdr
        invariant
            back <= 4104,
            main_ehdr(mem.start, mem.bytes@, at_phdr, at_phent, at_phnum, 0) == main_ehdr(
                mem.start,
                mem.bytes@,
                at_phdr,
                at_phent,
                at_phnum,
                back as int,
            ),
        decreases 4105 - back,
    {
        let cand: u64 = at_phdr - back;
        let s: &[u8] = mem.from(cand);
        if s.len() >= 64 && s[0] == 0x7f && s[1] == 0x45 && s[2] == 0x4c && s[3] == 0x46
            && read_u16(s, 54) as u64 == at_phent && read_u16(s, 56) as u64 == at_phnum {
            let sum: u128 = cand as u128 + read_u64(s, 32) as u128;
            if sum == at_phdr as u128 || (at_phdr == u64::MAX && sum > u64::MAX as u128) {
                return Some(read_ehdr(s));
            }
        }
        back = back + 8;
    }
    None
}

// ---------------------------------------------------------------------------
// Initialisers and finalisers
// ---------------------------------------------------------------------------

/// The function addresses in an array of `size` bytes.
pub open spec fn functions_in(s: Seq<u8>, size: u64) -> Seq<u64> {
    let n = if size / 8 < s.len() / 8 {
        (size / 8) as nat
    } else {
        s.len() / 8
    };
    Seq::new(n, |i: int| le_u64(s, 8 * i))
}

fn read_functions(s: &[u8], size: u64) -> (r: Vec<u64>)
    ensures
        r@ == functions_in(s@, size),
{
    let all: usize = s.len() / 8;
    let n: usize = if size / 8 < all as u64 {
        (size / 8) as usize
    } else {
        all
    };
    let mut out: Vec<u64> = Vec::new();
    let mut i: usize = 0;
    while i < n
        invariant
            n <= s@.len() / 8,
            s.len() >= 8 * n,
            i <= n,
            out@.len() == i,
            forall|j: int| 0 <= j < i ==> out@[j] == le_u64(s@, 8 * j),
        decreases n - i,
    {
        out.push(read_u64(s, 8 * i));
        i = i + 1;
    }
    assert(out@ =~= functions_in(s@, size));
    out
}

/// The initialisers of an object in the order of their calls: the init function,
/// then the init array. None if they ran before.
pub open spec fn init_calls(lm: LinkMap, start: u64, bytes: Seq<u8>) -> Seq<u64> {
    if lm.flagged(INIT_DONE) {
        Seq::empty()
    } else {
        (if lm.init != 0 {
            seq![lm.init]
        } else {
            Seq::empty()
        }) + (if lm.init_array != 0 {
            functions_in(tail(start, bytes, lm.init_array), lm.init_arraysz)
        } else {
            Seq::empty()
        })
    }
}

/// Which functions to call to initialise an object. They count as called.
pub fn run_init(lm: &mut LinkMap, mem: &Memory<'_>) -> (r: Vec<u64>)
    ensures
        r@ == init_calls(*old(lm), mem.start, mem.bytes@),
        *final(lm) == if old(lm).flagged(INIT_DONE) {
            *old(lm)
        } else {
            LinkMap { flags: old(lm).flags | INIT_DONE, ..*old(lm) }
        },
{
    let mut out: Vec<u64> = Vec::new();
    if lm.has_flag(INIT_DONE) {
        assert(out@ =~= Seq::empty());
        return out;
    }
    if lm.init != 0 {
        out.push(lm.init);
    }
    if lm.init_array != 0 {
        let mut more: Vec<u64> = read_functions(mem.from(lm.init_array), lm.init_arraysz);
        out.append(&mut more);
    }
    assert(out@ =~= init_calls(*old(lm), mem.start, mem.bytes@));
    lm.set_flag(INIT_DONE);
    out
}

/// The finalisers of an object in the order of their calls: the fini array from
/// its end, then the fini function. None if they ran before.
pub open spec fn fini_calls(lm: LinkMap, start: u64, bytes: Seq<u8>) -> Seq<u64> {
    if lm.flagged(FINI_DONE) {
        Seq::empty()
    } else {
        (if lm.fini_array != 0 {
            functions_in(tail(start, bytes, lm.fini_array), lm.fini_arraysz).reverse()
        } else {
            Seq::empty()
        }) + (if lm.fini != 0 {
            seq![lm.fini]
        } else {
            Seq::empty()
        })
    }
}

/// Which functions to call to finalise an object. They count as called.
pub fn run_fini(lm: &mut LinkMap, mem: &Memory<'_>) -> (r: Vec<u64>)
    ensures
        r@ == fini_calls(*old(lm), mem.start, mem.bytes@),
        *final(lm) == if old(lm).flagged(FINI_DONE) {
            *old(lm)
        } else {
            LinkMap { flags: old(lm).flags | FINI_DONE, ..*old(lm) }
        },
{
    let mut out: Vec<u64> = Vec::new();
    if lm.has_flag(FINI_DONE) {
        assert(out@ =~= Seq::empty());
        return out;
    }
    if lm.fini_array != 0 {
        let array: Vec<u64> = read_functions(mem.from(lm.fini_array), lm.fini_arraysz);
        let n: usize = array.len();
        let mut i: usize = 0;
        while i < n
            invariant
                n == array@.len(),
                i <= n,
                out@.len() == i,
                forall|j: int| 0 <= j < i ==> out@[j] == array@[n - 1 - j],
            decreases n - i,
        {
            out.push(array[n - 1 - i]);
            i = i + 1;
        }
        assert(out@ =~= array@.reverse());
    }
    if lm.fini != 0 {
        out.push(lm.fini);
    }
    assert(out@ =~= fini_calls(*old(lm), mem.start, mem.bytes@));
    lm.set_flag(FINI_DONE);
    out
}

/// Initialisers run exactly once, and so do finalisers: whatever the memory
/// holds the second time, nothing is called again.
pub proof fn lemma_runs_once(lm: LinkMap, start: u64, bytes: Seq<u8>)
    ensures
        init_calls((LinkMap { flags: lm.flags | INIT_DONE, ..lm }), start, bytes).len() == 0,
        fini_calls((LinkMap { flags: lm.flags | FINI_DONE, ..lm }), start, bytes).len() == 0,
{
    assert(64u32 & 0 == 0 && 128u32 & 0 == 0) by (bit_vector);
    lemma_flags(lm.flags, INIT_DONE, 0);
    lemma_flags(lm.flags, FINI_DONE, 0);
}

/// How an object is unmapped.
#[derive(Clone, Copy, PartialEq, Eq, Debug, Structural)]
pub enum UnmapAction {
    /// Not at all: it was placed at startup, or is not mapped.
    Keep,
    /// As a whole, by its image reservation.
    Image(u64),
    /// As a range of addresses, from start and length.
    Range(u64, u64),
}

/// How an entry is unmapped.
pub open spec fn unmap_action(lm: LinkMap) -> UnmapAction {
    if lm.flagged(STARTUP) || lm.map_start == 0 || lm.map_end <= lm.map_start {
        UnmapAction::Keep
    } else if lm.image_id != 0 {
        UnmapAction::Image(lm.image_id)
    } else {
        UnmapAction::Range(lm.map_start, (lm.map_end - lm.map_start) as u64)
    }
}

/// Unmaps a runtime object. Startup objects stay for the process lifetime.
pub fn unmap_runtime_object(lm: &mut LinkMap) -> (r: UnmapAction)
    ensures
        r == unmap_action(*old(lm)),
        *final(lm) == if r is Keep {
            *old(lm)
        } else {
            LinkMap { map_start: 0, map_end: 0, image_id: 0, ..*old(lm) }
        },
{
    if lm.has_flag(STARTUP) || lm.map_start == 0 || lm.map_end <= lm.map_start {
        return UnmapAction::Keep;
    }
    let action: UnmapAction = if lm.image_id != 0 {
        UnmapAction::Image(lm.image_id)
    } else {
        UnmapAction::Range(lm.map_start, lm.map_end - lm.map_start)
    };
    lm.map_start = 0;
    lm.map_end = 0;
    lm.image_id = 0;
    action
}

// ---------------------------------------------------------------------------
// The order of initialisers and finalisers
// ---------------------------------------------------------------------------

/// An object that is not initialised yet is initialised by its single initialiser,
/// if it has one, and then by the functions in its array, in their order: function
/// `i` is the word `8 * i` bytes behind the start of the array.
pub proof fn lemma_initialisers_in_order(lm: LinkMap, start: u64, bytes: Seq<u8>, i: int)
    requires
        lm.flags & 64 == 0,
        lm.init_array != 0,
        start <= lm.init_array,
        0 <= i < lm.init_arraysz as int / 8,
        lm.init_array - start + lm.init_arraysz <= bytes.len(),
    ensures
        ({
            let calls = init_calls(lm, start, bytes);
            let first = if lm.init != 0 {
                1int
            } else {
                0
            };
            &&& lm.init != 0 ==> calls[0] == lm.init
            &&& calls.len() == first + lm.init_arraysz as int / 8
            &&& calls[first + i] == le_u64(bytes, lm.init_array - start + 8 * i)
        }),
{
    lemma_fields_of_rest(bytes, lm.init_array - start, 8 * i);
}

/// An object that is not finalised yet is finalised by the functions in its array,
/// the last one first, and then by its single finaliser, if it has one.
pub proof fn lemma_finalisers_in_reverse(lm: LinkMap, start: u64, bytes: Seq<u8>, i: int)
    requires
        lm.flags & 128 == 0,
        lm.fini_array != 0,
        start <= lm.fini_array,
        0 <= i < lm.fini_arraysz as int / 8,
        lm.fini_array - start + lm.fini_arraysz <= bytes.len(),
    ensures
        ({
            let calls = fini_calls(lm, start, bytes);
            let n = lm.fini_arraysz as int / 8;
            &&& calls.len() == n + if lm.fini != 0 {
                1int
            } else {
                0
            }
            &&& lm.fini != 0 ==> calls[n] == lm.fini
            &&& calls[n - 1 - i] == le_u64(bytes, lm.fini_array - start + 8 * i)
        }),
{
    lemma_fields_of_rest(bytes, lm.fini_array - start, 8 * i);
}

/// The TLS of an object is its first TLS segment: the template at the address of
/// the segment from the base on, with the sizes and the alignment of the segment.
pub proof fn lemma_tls_segment_is_taken(lm: LinkMap, i: int, k: int)
    requires
        0 <= i <= k < lm.tables.phdrs@.len(),
        lm.tables.phdrs@[k].p_type == 7,
        forall|j: int| 0 <= j < k ==> (#[trigger] lm.tables.phdrs@[j]).p_type != 7,
    ensures
        first_phdr(lm.tables.phdrs@, 7, i) == Some(lm.tables.phdrs@[k]),
        i == 0 ==> {
            let ph = lm.tables.phdrs@[k];
            &&& (with_tls(lm).tls_image - lm.base - ph.p_vaddr) % 0x1_0000_0000_0000_0000 == 0
            &&& with_tls(lm).tls_filesz == ph.p_filesz
            &&& with_tls(lm).tls_memsz == ph.p_memsz
            &&& with_tls(lm).tls_align == ph.p_align
        },
    decreases k - i,
{
    if i < k {
        lemma_tls_segment_is_taken(lm, i + 1, k);
    }
}

/// A path has one last component only: what is behind its last slash.
pub proof fn lemma_basename(dir: Seq<u8>, file: Seq<u8>, r: Seq<u8>)
    requires
        !file.contains(0x2f),
        is_basename(dir.push(0x2f) + file, r),
    ensures
        r == file,
{
    let name = dir.push(0x2f) + file;
    let n = name.len() - r.len();
    assert(name[dir.len() as int] == 0x2f);
    if r.len() > file.len() {
        assert(r[dir.len() - n] == 0x2f);
        assert(r.contains(0x2f));
    } else if r.len() < file.len() {
        assert(name[n - 1] == file[n - 1 - dir.len() - 1]);
        assert(file.contains(file[n - 1 - dir.len() - 1]));
    }
    assert(r =~= file);
}

/// The file header of the main program is found where it matches, at the nearest
/// multiple of eight bytes before the program headers, up to a page away.
pub proof fn lemma_main_header_is_found(
    start: u64,
    bytes: Seq<u8>,
    at_phdr: u64,
    at_phent: u64,
    at_phnum: u64,
    i: int,
    k: int,
)
    requires
        0 <= i <= k,
        8 * k <= 4096,
        8 * k <= at_phdr,
        ehdr_matches(start, bytes, (at_phdr - 8 * k) as u64, at_phdr, at_phent, at_phnum),
        forall|j: int|
            0 <= j < k ==> !ehdr_matches(
                start,
                bytes,
                #[trigger] ((at_phdr - 8 * j) as u64),
                at_phdr,
                at_phent,
                at_phnum,
            ),
    ensures
        main_ehdr(start, bytes, at_phdr, at_phent, at_phnum, 8 * i) == Some(
            (at_phdr - 8 * k) as u64,
        ),
    decreases k - i,
{
    if i < k {
        assert(!ehdr_matches(
            start,
            bytes,
            (at_phdr - 8 * i) as u64,
            at_phdr,
            at_phent,
            at_phnum,
        ));
        lemma_main_header_is_found(start, bytes, at_phdr, at_phent, at_phnum, i + 1, k);
    }
}

} // verus!
