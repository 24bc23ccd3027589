//! The startup of an ELF process: the objects that are there, those that they
//! need, their TLS, and the order of their initialisers.
use crate::kernel::core_types::{SaltyOSMappedImageV1, SALTYOS_IMAGE_KIND_ELF};
use crate::loader::elf::dynamic::{needed_from, NeededIter};
use crate::loader::elf::header::{
    ehdr_error, find_phdr_phdr, is_load, lemma_span_covers, load_span, phdr_slice, span_of,
    has_span, validate_ehdr, Arch,
};
use crate::loader::elf::symbol::{gnu_hash_lookup, hash_find};
use crate::loader::elf::tls::{
    aligned, effective_align, layout_with, lemma_tls_blocks_disjoint, tls_alloc_module, tls_fits,
    TlsLayout, TlsModule,
};
use crate::loader::elf::types::{
    page_ceil, page_floor, Elf64Ehdr, Elf64Phdr, ET_DYN, ET_EXEC, PT_GNU_RELRO,
};
use crate::loader::link_flags::{INIT_DONE, STARTUP};
use crate::loader::link_map::{CName, LinkMap, RtldState, RTLD_MAX_OBJECTS};
use crate::loader::rtld::elf::load::{
    describe, file_phdrs, find_main_ehdr_from_at_phdr, first_phdr, is_described, is_object_file,
    lemma_first_phdr, main_ehdr, span_is_representable, LoadError,
};
use crate::loader::rtld::elf::object::{
    find_loaded_object, seed_answers, seed_named, string_at, table_string, is_table_string,
};
use crate::loader::rtld::elf::tables::{tail, Memory};
use crate::loader::rtld::io::AuxvInfo;
use crate::loader::bytes::{le_u16, le_u64};
use vstd::arithmetic::power2::pow2;
use vstd::prelude::*;

verus! {

/// Why the startup fails.
#[derive(Clone, Copy, PartialEq, Eq, Debug, Structural)]
pub enum StartupError {
    /// The main program has neither a header for its program headers nor a file
    /// header in front of them.
    NoMainHeader,
    TooManyObjects,
    /// A preloaded image has no address or no size.
    InvalidMetadata,
    /// A preloaded image has no valid file header.
    InvalidImage,
    /// A preloaded image has no valid program headers.
    InvalidPhdrs,
}

// ---------------------------------------------------------------------------
// The main program and the preloaded images
// ---------------------------------------------------------------------------

/// Link-time address of the program headers of the main program: by their own
/// header, else by the file header in front of them.
pub open spec fn phdr_vaddr(
    auxv: AuxvInfo,
    phdrs: Seq<Elf64Phdr>,
    start: u64,
    bytes: Seq<u8>,
) -> Option<u64> {
    match first_phdr(phdrs, 6, 0) {
        Some(ph) => Some(ph.p_vaddr),
        None => match main_ehdr(
            start,
            bytes,
            auxv.at_phdr,
            auxv.at_phent,
            auxv.at_phnum,
            0,
        ) {
            Some(addr) => Some(le_u64(tail(start, bytes, addr), 32)),
            None => None,
        },
    }
}

/// A difference, 0 where it would be negative.
pub open spec fn floored(a: u64, b: u64) -> u64 {
    if a < b {
        0
    } else {
        (a - b) as u64
    }
}

/// Whether `lm` is the entry of the main program before its memory is looked at.
pub open spec fn is_main_entry(
    addr: u64,
    auxv: AuxvInfo,
    vaddr: u64,
    name: CName,
    phdrs: Seq<Elf64Phdr>,
    lm: LinkMap,
) -> bool {
    &&& lm.is_unlinked()
    &&& lm.addr == addr
    &&& lm.base == floored(auxv.at_phdr, vaddr)
    &&& lm.name == Some(name)
    &&& lm.path is None
    &&& lm.phdr == auxv.at_phdr
    &&& lm.phnum == (auxv.at_phnum % 0x1_0000) as u16
    &&& lm.e_type == if lm.base != 0 {
        3u16
    } else {
        2u16
    }
    &&& lm.entry == auxv.at_entry
    &&& lm.map_start == 0 && lm.map_end == 0 && lm.image_id == 0
    &&& lm.tables.phdrs@ == phdrs
}

/// Whether `lm` is the entry of the main program.
pub open spec fn is_main_object(
    addr: u64,
    auxv: AuxvInfo,
    vaddr: u64,
    name: CName,
    phdrs: Seq<Elf64Phdr>,
    start: u64,
    bytes: Seq<u8>,
    lm: LinkMap,
) -> bool {
    exists|bare: LinkMap| #[trigger]
        is_main_entry(addr, auxv, vaddr, name, phdrs, bare) && is_described(
            bare,
            false,
            start,
            bytes,
            lm,
        )
}

/// Makes the entry of the main program from the auxiliary vector, its program
/// headers and its memory.
pub fn setup_main_object(
    addr: u64,
    auxv: &AuxvInfo,
    phdrs: Vec<Elf64Phdr>,
    name: CName,
    mem: &Memory<'_>,
) -> (r: Result<LinkMap, StartupError>)
    ensures
        match phdr_vaddr(*auxv, phdrs@, mem.start, mem.bytes@) {
            None => r == Err::<LinkMap, StartupError>(StartupError::NoMainHeader),
            Some(vaddr) => r is Ok && is_main_object(
                addr,
                *auxv,
                vaddr,
                name,
                phdrs@,
                mem.start,
                mem.bytes@,
                r->Ok_0,
            ),
        },
{
    let by_phdr: Option<u64> = match find_phdr_phdr(phdrs.as_slice()) {
        Some(ph) => {
            proof {
                lemma_first_phdr(phdrs@, 6, Some(ph), 0);
            }
            Some(ph.p_vaddr)
        },
        None => {
            proof {
                lemma_first_phdr(phdrs@, 6, None, 0);
            }
            None
        },
    };
    let vaddr: u64 = match by_phdr {
        Some(v) => v,
        None => match find_main_ehdr_from_at_phdr(mem, auxv.at_phdr, auxv.at_phent, auxv.at_phnum) {
            Some(ehdr) => ehdr.e_phoff,
            None => {
                return Err(StartupError::NoMainHeader);
            },
        },
    };
    let ghost given = name;
    let ghost headers = phdrs@;
    let mut lm: LinkMap = LinkMap::zeroed();
    lm.addr = addr;
    lm.base = if auxv.at_phdr < vaddr {
        0
    } else {
        auxv.at_phdr - vaddr
    };
    lm.phdr = auxv.at_phdr;
    lm.phnum = (auxv.at_phnum % 0x1_0000) as u16;
    lm.entry = auxv.at_entry;
    lm.e_type = if lm.base != 0 {
        ET_DYN
    } else {
        ET_EXEC
    };
    lm.name = Some(name);
    lm.tables.phdrs = phdrs;
    let ghost bare = lm;
    assert(phdr_vaddr(*auxv, headers, mem.start, mem.bytes@) == Some(vaddr));
    assert(is_main_entry(addr, *auxv, vaddr, given, headers, bare));
    describe(&mut lm, false, mem);
    assert(is_main_object(addr, *auxv, vaddr, given, headers, mem.start, mem.bytes@, lm));
    Ok(lm)
}

/// Why a preloaded image cannot be taken over; `None` if it can.
pub open spec fn preload_error(m: SaltyOSMappedImageV1, bytes: Seq<u8>, arch: Arch) -> Option<
    StartupError,
> {
    if m.image.base == 0 || m.image.size == 0 {
        Some(StartupError::InvalidMetadata)
    } else if ehdr_error(bytes, arch) is Some {
        Some(StartupError::InvalidImage)
    } else if !is_object_file(bytes, arch) {
        Some(StartupError::InvalidPhdrs)
    } else {
        None
    }
}

/// Whether `lm` is the entry of a preloaded image before its dynamic section is
/// looked at.
pub open spec fn is_preloaded(
    addr: u64,
    m: SaltyOSMappedImageV1,
    name_addr: u64,
    bytes: Seq<u8>,
    lm: LinkMap,
) -> bool {
    &&& lm.is_unlinked()
    &&& lm.addr == addr
    &&& lm.base == m.image.base
    &&& lm.name is Some && lm.name->0.addr == name_addr && lm.name->0.bytes@ == m.label()
    &&& lm.path is None
    &&& lm.e_type == le_u16(bytes, 16)
    &&& lm.entry == if m.image.entry != 0 {
        m.image.entry
    } else {
        m.image.base.wrapping_add(le_u64(bytes, 24))
    }
    &&& lm.phdr == m.image.base.wrapping_add(le_u64(bytes, 32))
    &&& lm.phnum == le_u16(bytes, 56)
    &&& lm.map_start == m.image.base
    &&& lm.map_end == m.image.base + m.image.size
    &&& lm.image_id == 0
    &&& lm.tables.phdrs@ == file_phdrs(bytes)
}

/// Makes the entry of a preloaded image. `mem` is its memory.
pub fn setup_preloaded_object(
    addr: u64,
    mapped: &SaltyOSMappedImageV1,
    name_addr: u64,
    arch: Arch,
    mem: &Memory<'_>,
) -> (r: Result<LinkMap, StartupError>)
    requires
        mapped.image.base + mapped.image.size <= u64::MAX,
        mem.start == mapped.image.base,
        mem.bytes@.len() == mapped.image.size,
    ensures
        match preload_error(*mapped, mem.bytes@, arch) {
            Some(e) => r == Err::<LinkMap, StartupError>(e),
            None => r is Ok && exists|bare: LinkMap| #[trigger]
                is_preloaded(addr, *mapped, name_addr, mem.bytes@, bare) && is_described(
                    bare,
                    true,
                    mem.start,
                    mem.bytes@,
                    r->Ok_0,
                ),
        },
{
    if mapped.image.base == 0 || mapped.image.size == 0 {
        return Err(StartupError::InvalidMetadata);
    }
    let ehdr: Elf64Ehdr = match validate_ehdr(mem.bytes, arch) {
        Ok(e) => e,
        Err(_) => {
            return Err(StartupError::InvalidImage);
        },
    };
    let phdrs: Vec<Elf64Phdr> = match phdr_slice(mem.bytes, &ehdr) {
        Ok(p) => p,
        Err(_) => {
            return Err(StartupError::InvalidPhdrs);
        },
    };
    assert(phdrs@ =~= file_phdrs(mem.bytes@));
    let mut lm: LinkMap = LinkMap::zeroed();
    lm.addr = addr;
    lm.base = mapped.image.base;
    lm.name = Some(
        CName {
            addr: name_addr,
            bytes: crate::loader::rtld::elf::tables::copy_bytes(mapped.name_bytes()),
        },
    );
    lm.e_type = ehdr.e_type;
    lm.entry = if mapped.image.entry != 0 {
        mapped.image.entry
    } else {
        lm.base.wrapping_add(ehdr.e_entry)
    };
    lm.phdr = lm.base.wrapping_add(ehdr.e_phoff);
    lm.phnum = ehdr.e_phnum;
    lm.map_start = mapped.image.base;
    lm.map_end = mapped.image.base + mapped.image.size;
    lm.tables.phdrs = phdrs;
    assert(is_preloaded(addr, *mapped, name_addr, mem.bytes@, lm));
    describe(&mut lm, true, mem);
    Ok(lm)
}

/// Appends a startup object.
pub fn add_startup_object(st: &mut RtldState, lm: LinkMap, addr: u64)
    ensures
        *final(st) == (RtldState { objects: final(st).objects, ..*old(st) }),
        final(st).objects@ == old(st).objects@.push(
            (LinkMap { addr, flags: lm.flags | STARTUP, ..lm }),
        ),
{
    let mut entry: LinkMap = lm;
    entry.addr = addr;
    entry.set_flag(STARTUP);
    st.objects.push(entry);
}

/// Whether a preloaded image is to be taken over: it is an ELF image, and no
/// startup object answers to its name. An error if there are too many objects.
pub fn seed_preloaded_object(st: &RtldState, mapped: &SaltyOSMappedImageV1) -> (r: Result<
    bool,
    StartupError,
>)
    ensures
        r == if mapped.image.kind != 1 || seed_named(st.objects@, mapped.label(), 0) is Some {
            Ok::<bool, StartupError>(false)
        } else if st.objects@.len() >= 16 {
            Err::<bool, StartupError>(StartupError::TooManyObjects)
        } else {
            Ok::<bool, StartupError>(true)
        },
{
    if mapped.image.kind != SALTYOS_IMAGE_KIND_ELF {
        return Ok(false);
    }
    if find_loaded_object(st, mapped.name_bytes()).is_some() {
        return Ok(false);
    }
    if st.objects.len() >= RTLD_MAX_OBJECTS {
        return Err(StartupError::TooManyObjects);
    }
    Ok(true)
}

// ---------------------------------------------------------------------------
// The library window
// ---------------------------------------------------------------------------

/// Where an object ends in memory, as far as its program headers say.
pub open spec fn load_end(lm: LinkMap) -> u64 {
    if lm.phdr == 0 || lm.phnum == 0 || !has_span(lm.tables.phdrs@) {
        lm.entry
    } else {
        lm.base.wrapping_add(span_of(lm.tables.phdrs@).1 as u64)
    }
}

/// Where an object ends in memory.
pub fn object_load_end(lm: &LinkMap) -> (r: u64)
    requires
        span_is_representable(lm.tables.phdrs@),
    ensures
        r == load_end(*lm),
{
    if lm.phdr == 0 || lm.phnum == 0 {
        return lm.entry;
    }
    match load_span(lm.tables.phdrs.as_slice()) {
        Some((_, hi)) => lm.base.wrapping_add(hi),
        None => lm.entry,
    }
}

/// The larger of two ends.
pub open spec fn later(a: u64, b: u64) -> u64 {
    if a > b {
        a
    } else {
        b
    }
}

/// Chooses where shared libraries go: in the window that the spawner gave, or
/// else behind the main program and the linker, with a page between, unbounded.
pub fn init_shared_lib_window(st: &mut RtldState, auxv: &AuxvInfo)
    requires
        old(st).objects@.len() >= 2,
        span_is_representable(old(st).objects@[0].tables.phdrs@),
        span_is_representable(old(st).objects@[1].tables.phdrs@),
        auxv.dso_window_base == 0 ==> later(
            load_end(old(st).objects@[0]),
            load_end(old(st).objects@[1]),
        ) + 8191 <= u64::MAX,
    ensures
        *final(st) == if auxv.dso_window_base != 0 {
            RtldState {
                lib_load_addr: auxv.dso_window_base,
                lib_load_limit: if auxv.dso_window_base + auxv.dso_window_size > u64::MAX {
                    u64::MAX
                } else {
                    (auxv.dso_window_base + auxv.dso_window_size) as u64
                },
                ..*old(st)
            }
        } else {
            RtldState {
                lib_load_addr: page_ceil(
                    later(load_end(old(st).objects@[0]), load_end(old(st).objects@[1])) + 4096,
                ) as u64,
                lib_load_limit: 0,
                ..*old(st)
            }
        },
{
    if auxv.dso_window_base != 0 {
        st.lib_load_addr = auxv.dso_window_base;
        st.lib_load_limit = if auxv.dso_window_size > u64::MAX - auxv.dso_window_base {
            u64::MAX
        } else {
            auxv.dso_window_base + auxv.dso_window_size
        };
        return;
    }
    let main_end: u64 = object_load_end(&st.objects[1]);
    let rtld_end: u64 = object_load_end(&st.objects[0]);
    let end: u64 = if rtld_end > main_end {
        rtld_end
    } else {
        main_end
    };
    st.lib_load_addr = (end + 8191) / 4096 * 4096;
    st.lib_load_limit = 0;
}

// ---------------------------------------------------------------------------
// Dependencies
// ---------------------------------------------------------------------------

/// The names that a startup object needs, as string table offsets.
pub open spec fn startup_needs(lm: LinkMap) -> Seq<u64> {
    if lm.dynamic == 0 {
        Seq::empty()
    } else {
        needed_from(lm.tables.dynamic@, 0)
    }
}

/// The `p`-th name that an object needs.
pub open spec fn needed_name(lm: LinkMap, p: int) -> Seq<u8> {
    string_at(lm.tables.strtab@, startup_needs(lm)[p])
}

/// Whether a name that an object needs is there.
pub open spec fn is_met(objects: Seq<LinkMap>, i: int, p: int) -> bool {
    seed_named(objects, needed_name(objects[i], p), 0) is Some
}

/// The first need that is not met, from need `p` of object `i` on.
pub open spec fn next_unmet(objects: Seq<LinkMap>, i: int, p: int) -> Option<(int, int)>
    decreases objects.len() - i, startup_needs(objects[i]).len() - p,
{
    if i < 0 || p < 0 || i >= objects.len() {
        None
    } else if p >= startup_needs(objects[i]).len() {
        next_unmet(objects, i + 1, 0)
    } else if is_met(objects, i, p) {
        next_unmet(objects, i, p + 1)
    } else {
        Some((i, p))
    }
}

/// Whether every need before need `p` of object `i` is met; the linker itself
/// needs nothing.
pub open spec fn met_before(objects: Seq<LinkMap>, i: int, p: int) -> bool {
    forall|j: int, q: int|
        1 <= j < objects.len() && 0 <= q < startup_needs(objects[j]).len() && (j < i || (j == i
            && q < p)) ==> #[trigger] is_met(objects, j, q)
}

/// A walk through the needs of the startup objects.
#[derive(Clone, Copy, PartialEq, Eq, Debug, Structural)]
pub struct NeedCursor {
    /// The object.
    pub object: usize,
    /// The need.
    pub need: usize,
}

/// What the walk came to.
pub enum StartupNeed {
    /// Load the object with this name, append it, and go on.
    Load(CName),
    TooManyObjects,
    /// Every need is met.
    Done,
}

fn count_needs(lm: &LinkMap, limit: usize) -> (r: (usize, u64))
    ensures
        limit < startup_needs(*lm).len() ==> r.0 == limit + 1 && r.1 == startup_needs(
            *lm,
        )[limit as int],
        limit >= startup_needs(*lm).len() ==> r.0 == startup_needs(*lm).len() && r.0 <= limit,
{
    if lm.dynamic == 0 {
        return (0, 0);
    }
    let mut it = NeededIter::new(lm.tables.dynamic.as_slice());
    let ghost all = needed_from(lm.tables.dynamic@, 0);
    assert(all.skip(0) =~= all);
    let mut n: usize = 0;
    loop
        invariant
            n <= limit,
            n <= all.len(),
            all == startup_needs(*lm),
            it.remaining() == all.skip(n as int),
        decreases limit - n,
    {
        match it.next() {
            Some(off) => {
                assert(all.skip(n as int).skip(1) =~= all.skip(n + 1));
                if n == limit {
                    assert(limit < usize::MAX) by {
                        lemma_needs_bounded(lm.tables.dynamic@, 0);
                        assert(lm.tables.dynamic.len() <= usize::MAX);
                    }
                    return (n + 1, off);
                }
                n = n + 1;
            },
            None => {
                return (n, 0);
            },
        }
    }
}

proof fn lemma_needs_bounded(entries: Seq<crate::loader::elf::types::Elf64Dyn>, i: int)
    requires
        0 <= i,
    ensures
        needed_from(entries, i).len() <= if i < entries.len() {
            entries.len() - i
        } else {
            0
        },
    decreases entries.len() - i,
{
    if i < entries.len() && entries[i].d_tag != 0 {
        lemma_needs_bounded(entries, i + 1);
    }
}

/// Goes on to the first need that is not met. The walk visits the objects that
/// are appended meanwhile too, so that needs are met transitively.
pub fn resolve_startup_dependencies(st: &RtldState, cursor: &mut NeedCursor) -> (r: StartupNeed)
    requires
        old(cursor).object >= 1,
    ensures
        final(cursor).object >= 1,
        match next_unmet(st.objects@, old(cursor).object as int, old(cursor).need as int) {
            None => r is Done && (old(cursor).object <= st.objects@.len() ==> final(cursor).object
                >= st.objects@.len()),
            Some((i, p)) => if st.objects@.len() >= 16 {
                r is TooManyObjects
            } else {
                &&& r is Load
                &&& is_table_string(
                    Some(r->Load_0),
                    st.objects@[i],
                    startup_needs(st.objects@[i])[p],
                )
                &&& final(cursor).object == i
                &&& final(cursor).need == p + 1
                &&& 0 <= p < startup_needs(st.objects@[i]).len()
            },
        },
        met_before(st.objects@, old(cursor).object as int, old(cursor).need as int) ==> match r {
            StartupNeed::Done => old(cursor).object <= st.objects@.len() ==> met_before(
                st.objects@,
                st.objects@.len() as int,
                0,
            ),
            StartupNeed::Load(_) => met_before(
                st.objects@,
                final(cursor).object as int,
                final(cursor).need - 1,
            ),
            StartupNeed::TooManyObjects => true,
        },
{
    let ghost start = next_unmet(st.objects@, cursor.object as int, cursor.need as int);
    let ghost met = met_before(st.objects@, cursor.object as int, cursor.need as int);
    while cursor.object < st.objects.len()
        invariant
            cursor.object >= 1,
            old(cursor).object <= cursor.object,
            old(cursor).object <= st.objects@.len() ==> cursor.object <= st.objects@.len(),
            start == next_unmet(
                st.objects@,
                old(cursor).object as int,
                old(cursor).need as int,
            ),
            start == next_unmet(st.objects@, cursor.object as int, cursor.need as int),
            met == met_before(st.objects@, old(cursor).object as int, old(cursor).need as int),
            met ==> met_before(st.objects@, cursor.object as int, cursor.need as int),
        decreases
                st.objects@.len() - cursor.object,
                startup_needs(st.objects@[cursor.object as int]).len() - cursor.need,
    {
        let lm: &LinkMap = &st.objects[cursor.object];
        let (count, off): (usize, u64) = count_needs(lm, cursor.need);
        if count <= cursor.need {
            let ghost i = cursor.object as int;
            let ghost p = cursor.need as int;
            cursor.object = cursor.object + 1;
            cursor.need = 0;
            assert(met ==> met_before(st.objects@, i + 1, 0));
        } else {
            let name: CName = table_string(lm, off);
            proof {
                lemma_needs_bounded(lm.tables.dynamic@, 0);
            }
            assert(lm.tables.dynamic.len() <= usize::MAX);
            assert(startup_needs(*lm).len() <= usize::MAX);
            assert(name.bytes@ == needed_name(st.objects@[cursor.object as int], cursor.need as int));
            if find_loaded_object(st, name.bytes.as_slice()).is_some() {
                assert(is_met(st.objects@, cursor.object as int, cursor.need as int));
                cursor.need = cursor.need + 1;
            } else {
                if st.objects.len() >= RTLD_MAX_OBJECTS {
                    return StartupNeed::TooManyObjects;
                }
                cursor.need = cursor.need + 1;
                return StartupNeed::Load(name);
            }
        }
    }
    StartupNeed::Done
}

proof fn lemma_seed_named_grows(objects: Seq<LinkMap>, more: Seq<LinkMap>, name: Seq<u8>, i: int)
    requires
        0 <= i,
        objects.len() <= more.len(),
        forall|j: int| 0 <= j < objects.len() ==> #[trigger] more[j] == objects[j],
    ensures
        seed_named(objects, name, i) is Some ==> seed_named(more, name, i) is Some,
    decreases objects.len() - i,
{
    if i < objects.len() {
        assert(more[i] == objects[i]);
        if !seed_answers(objects[i], name) {
            lemma_seed_named_grows(objects, more, name, i + 1);
        }
    }
}

proof fn lemma_seed_named_hit(objects: Seq<LinkMap>, name: Seq<u8>, i: int, at: int)
    requires
        0 <= i <= at < objects.len(),
        seed_answers(objects[at], name),
    ensures
        seed_named(objects, name, i) is Some,
    decreases at - i,
{
    if i < at && !seed_answers(objects[i], name) {
        lemma_seed_named_hit(objects, name, i + 1, at);
    }
}

/// A need is met once an object that answers to its name is appended, and what
/// was met before stays met: the walk can go on behind that need.
pub proof fn lemma_loading_meets_needs(objects: Seq<LinkMap>, lm: LinkMap, i: int, p: int)
    requires
        1 <= i < objects.len(),
        0 <= p < startup_needs(objects[i]).len(),
        met_before(objects, i, p),
        seed_answers(lm, needed_name(objects[i], p)),
    ensures
        met_before(objects.push(lm), i, p + 1),
{
    let more = objects.push(lm);
    assert forall|j: int, q: int|
        1 <= j < more.len() && 0 <= q < startup_needs(more[j]).len() && (j < i || (j == i && q < p
            + 1)) implies #[trigger] is_met(more, j, q) by {
        assert(more[j] == objects[j]);
        if j == i && q == p {
            lemma_seed_named_hit(more, needed_name(objects[i], p), 0, objects.len() as int);
        } else {
            assert(is_met(objects, j, q));
            lemma_seed_named_grows(objects, more, needed_name(objects[j], q), 0);
        }
    }
}

// ---------------------------------------------------------------------------
// Read-only data after relocation
// ---------------------------------------------------------------------------

/// A number, cut off at the largest address.
pub open spec fn saturated(x: int) -> int {
    if x > u64::MAX {
        u64::MAX as int
    } else {
        x
    }
}

/// The whole pages strictly inside a region that is read-only after relocation,
/// as address and count; `None` if there are none. A page that straddles an edge
/// also holds data that stays writable.
pub open spec fn relro_pages(ph: Elf64Phdr, base: u64) -> Option<(u64, u64)> {
    let start = saturated(base + page_ceil(ph.p_vaddr as int));
    let end = saturated(base + page_floor(saturated(ph.p_vaddr + ph.p_memsz)));
    if ph.p_type != 0x6474e552 || ph.p_memsz == 0 || end <= start {
        None
    } else {
        Some((start as u64, ((end - start) / 4096) as u64))
    }
}

/// Protection never extends past the bounds of the region.
pub proof fn lemma_relro_is_inside(ph: Elf64Phdr, base: u64)
    ensures
        match relro_pages(ph, base) {
            Some((start, count)) => base + ph.p_vaddr <= start && start + count * 4096 <= base
                + ph.p_vaddr + ph.p_memsz,
            None => true,
        },
{
}

fn relro_of(ph: &Elf64Phdr, base: u64) -> (r: Option<(u64, u64)>)
    ensures
        r == relro_pages(*ph, base),
{
    if ph.p_type != PT_GNU_RELRO || ph.p_memsz == 0 {
        return None;
    }
    let max: u128 = u64::MAX as u128;
    let start: u128 = base as u128 + (ph.p_vaddr as u128 + 4095) / 4096 * 4096;
    let start: u128 = if start > max {
        max
    } else {
        start
    };
    let last: u128 = ph.p_vaddr as u128 + ph.p_memsz as u128;
    let last: u128 = if last > max {
        max
    } else {
        last
    };
    let end: u128 = base as u128 + last / 4096 * 4096;
    let end: u128 = if end > max {
        max
    } else {
        end
    };
    if end <= start {
        return None;
    }
    Some((start as u64, ((end - start) / 4096) as u64))
}

/// The page ranges of the first `n` headers.
pub open spec fn relro_ranges(phdrs: Seq<Elf64Phdr>, base: u64, n: int) -> Seq<(u64, u64)>
    decreases n,
{
    if n <= 0 {
        Seq::empty()
    } else {
        match relro_pages(phdrs[n - 1], base) {
            Some(range) => relro_ranges(phdrs, base, n - 1).push(range),
            None => relro_ranges(phdrs, base, n - 1),
        }
    }
}

/// Which pages of an object become read-only once it is relocated, as addresses
/// and counts.
pub fn apply_relro(lm: &LinkMap) -> (r: Vec<(u64, u64)>)
    ensures
        r@ == if lm.phdr == 0 || lm.phnum == 0 {
            Seq::empty()
        } else {
            relro_ranges(lm.tables.phdrs@, lm.base, lm.tables.phdrs@.len() as int)
        },
{
    let mut out: Vec<(u64, u64)> = Vec::new();
    assert(out@ =~= Seq::empty());
    if lm.phdr == 0 || lm.phnum == 0 {
        return out;
    }
    let mut i: usize = 0;
    while i < lm.tables.phdrs.len()
        invariant
            i <= lm.tables.phdrs@.len(),
            out@ == relro_ranges(lm.tables.phdrs@, lm.base, i as int),
        decreases lm.tables.phdrs@.len() - i,
    {
        match relro_of(&lm.tables.phdrs[i], lm.base) {
            Some(range) => {
                out.push(range);
            },
            None => {},
        }
        i = i + 1;
    }
    out
}

// ---------------------------------------------------------------------------
// TLS and initialisers
// ---------------------------------------------------------------------------

/// Whether an object gets a static TLS module, with the layout of those before
/// it.
pub open spec fn takes_module(lm: LinkMap, layout: TlsLayout) -> bool {
    lm.tls_memsz != 0 && layout.count < 16
}

/// The TLS layout of the first `n` objects.
pub open spec fn layout_after(objects: Seq<LinkMap>, layout: TlsLayout, n: int) -> TlsLayout
    decreases n,
{
    if n <= 0 {
        layout
    } else {
        let before = layout_after(objects, layout, n - 1);
        if takes_module(objects[n - 1], before) {
            layout_with(before, objects[n - 1].tls_memsz, objects[n - 1].tls_align)
        } else {
            before
        }
    }
}

/// The TLS modules of the first `n` objects.
pub open spec fn modules_after(
    objects: Seq<LinkMap>,
    layout: TlsLayout,
    modules: Seq<TlsModule>,
    n: int,
) -> Seq<TlsModule>
    decreases n,
{
    if n <= 0 {
        modules
    } else {
        let lm = objects[n - 1];
        let before = layout_after(objects, layout, n - 1);
        let rest = modules_after(objects, layout, modules, n - 1);
        if takes_module(lm, before) {
            rest.update(
                before.count as int,
                TlsModule {
                    base: lm.tls_image,
                    filesz: lm.tls_filesz,
                    memsz: lm.tls_memsz,
                    align: effective_align(lm.tls_align),
                    offset: (layout_after(objects, layout, n).size - lm.tls_memsz) as u64,
                    mod_id: (before.count + 1) as usize,
                },
            )
        } else {
            rest
        }
    }
}

/// The entry of object `i` with its TLS module.
pub open spec fn with_module(objects: Seq<LinkMap>, layout: TlsLayout, i: int) -> LinkMap {
    let before = layout_after(objects, layout, i);
    if takes_module(objects[i], before) {
        LinkMap { tls_mod_id: (before.count + 1) as usize, ..objects[i] }
    } else {
        objects[i]
    }
}

/// Whether the static TLS of all objects can be laid out.
pub open spec fn startup_tls_fits(objects: Seq<LinkMap>, layout: TlsLayout) -> bool {
    forall|i: int|
        0 <= i < objects.len() && takes_module(
            objects[i],
            #[trigger] layout_after(objects, layout, i),
        ) ==> tls_fits(
            layout_after(objects, layout, i),
            objects[i].tls_memsz,
            objects[i].tls_align,
        )
}

/// Whether the static TLS of all startup objects can be laid out.
pub fn check_startup_tls(st: &RtldState) -> (r: bool)
    ensures
        r ==> startup_tls_fits(st.objects@, st.tls_layout),
        !r ==> exists|i: int|
            0 <= i < st.objects@.len() && takes_module(
                st.objects@[i],
                #[trigger] layout_after(st.objects@, st.tls_layout, i),
            ) && !tls_fits(
                layout_after(st.objects@, st.tls_layout, i),
                st.objects@[i].tls_memsz,
                st.objects@[i].tls_align,
            ),
{
    let mut layout: TlsLayout = st.tls_layout;
    let mut i: usize = 0;
    while i < st.objects.len()
        invariant
            i <= st.objects@.len(),
            layout == layout_after(st.objects@, st.tls_layout, i as int),
            forall|j: int|
                0 <= j < i && takes_module(
                    st.objects@[j],
                    #[trigger] layout_after(st.objects@, st.tls_layout, j),
                ) ==> tls_fits(
                    layout_after(st.objects@, st.tls_layout, j),
                    st.objects@[j].tls_memsz,
                    st.objects@[j].tls_align,
                ),
        decreases st.objects@.len() - i,
    {
        let memsz: u64 = st.objects[i].tls_memsz;
        let align: u64 = st.objects[i].tls_align;
        if memsz != 0 && layout.count < 16 {
            let a: u64 = if align == 0 {
                1
            } else {
                align
            };
            let top: u128 = layout.size as u128 + memsz as u128 + (a - 1) as u128;
            if top > u64::MAX as u128 {
                assert(!tls_fits(layout, memsz, align));
                return false;
            }
            let size: u64 = (top as u64) & !(a - 1);
            assert(size == aligned((layout.size + memsz) as u64, effective_align(align)));
            if size < memsz {
                assert(!tls_fits(layout, memsz, align));
                return false;
            }
            layout = TlsLayout {
                size,
                align: if a > layout.align {
                    a
                } else {
                    layout.align
                },
                count: layout.count + 1,
            };
        }
        i = i + 1;
    }
    true
}

/// Gives every startup object with TLS a static module, as far as there are any.
/// Runtime modules are numbered from behind the static ones on.
pub fn setup_tls(st: &mut RtldState)
    requires
        startup_tls_fits(old(st).objects@, old(st).tls_layout),
    ensures
        *final(st) == (RtldState {
            objects: final(st).objects,
            tls_layout: layout_after(
                old(st).objects@,
                old(st).tls_layout,
                old(st).objects@.len() as int,
            ),
            tls_modules: final(st).tls_modules,
            next_dynamic_tls_module_id: 17,
            ..*old(st)
        }),
        final(st).tls_modules@ == modules_after(
            old(st).objects@,
            old(st).tls_layout,
            old(st).tls_modules@,
            old(st).objects@.len() as int,
        ),
        final(st).objects@ == Seq::new(
            old(st).objects@.len(),
            |i: int| with_module(old(st).objects@, old(st).tls_layout, i),
        ),
{
    let ghost objects = st.objects@;
    let ghost layout = st.tls_layout;
    let n: usize = st.objects.len();
    let mut i: usize = 0;
    while i < n
        invariant
            i <= n,
            n == objects.len(),
            n == st.objects@.len(),
            objects == old(st).objects@,
            layout == old(st).tls_layout,
            startup_tls_fits(objects, layout),
            *st == (RtldState {
                objects: st.objects,
                tls_layout: st.tls_layout,
                tls_modules: st.tls_modules,
                ..*old(st)
            }),
            st.tls_layout == layout_after(objects, layout, i as int),
            st.tls_modules@ == modules_after(objects, layout, old(st).tls_modules@, i as int),
            forall|j: int|
                0 <= j < n ==> #[trigger] st.objects@[j] == if j < i {
                    with_module(objects, layout, j)
                } else {
                    objects[j]
                },
        decreases n - i,
    {
        let ghost before = st.objects@;
        assert(before[i as int] == objects[i as int]);
        if st.objects[i].tls_memsz != 0 {
            let memsz: u64 = st.objects[i].tls_memsz;
            let filesz: u64 = st.objects[i].tls_filesz;
            let align: u64 = st.objects[i].tls_align;
            let base: u64 = st.objects[i].tls_image;
            assert(takes_module(objects[i as int], layout_after(objects, layout, i as int))
                ==> tls_fits(st.tls_layout, memsz, align));
            match tls_alloc_module(
                &mut st.tls_layout,
                &mut st.tls_modules,
                memsz,
                filesz,
                align,
                base,
            ) {
                Some(id) => {
                    st.objects[i].tls_mod_id = id;
                },
                None => {},
            }
        }
        assert(st.objects@ =~= before.update(i as int, with_module(objects, layout, i as int)));
        assert(layout_after(objects, layout, i + 1) == st.tls_layout);
        i = i + 1;
    }
    assert(st.objects@ =~= Seq::new(objects.len(), |i: int| with_module(objects, layout, i)));
    st.next_dynamic_tls_module_id = 17;
}

proof fn lemma_layout_count(objects: Seq<LinkMap>, layout: TlsLayout, i: int, j: int)
    requires
        0 <= i <= j,
        layout.count <= 16,
    ensures
        layout_after(objects, layout, i).count <= layout_after(objects, layout, j).count <= 16,
    decreases j,
{
    if i < j {
        lemma_layout_count(objects, layout, i, j - 1);
    } else if j > 0 {
        lemma_layout_count(objects, layout, i - 1, j - 1);
    }
}

/// No two startup objects share a static TLS module, and their IDs are below
/// those of runtime modules.
pub proof fn lemma_startup_modules_differ(
    objects: Seq<LinkMap>,
    layout: TlsLayout,
    i: int,
    j: int,
)
    requires
        0 <= i < j < objects.len(),
        layout.count <= 16,
        takes_module(objects[i], layout_after(objects, layout, i)),
        takes_module(objects[j], layout_after(objects, layout, j)),
    ensures
        with_module(objects, layout, i).tls_mod_id < with_module(objects, layout, j).tls_mod_id
            < 17,
{
    lemma_layout_count(objects, layout, i + 1, j);
}

/// The startup objects whose initialisers are to be called, among the first `n`:
/// the last one first. The linker has none left, and those of the main program
/// are called by the C library.
pub open spec fn init_order(objects: Seq<LinkMap>, n: int) -> Seq<int>
    decreases n,
{
    if n <= 2 {
        Seq::empty()
    } else if objects[n - 1].flagged(INIT_DONE) {
        init_order(objects, n - 1)
    } else {
        seq![n - 1] + init_order(objects, n - 1)
    }
}

/// The initialisers of every startup object behind the linker that has not been
/// initialised yet are called, and of none twice: the order goes down.
pub proof fn lemma_init_order_is_complete(objects: Seq<LinkMap>, n: int)
    requires
        0 <= n <= objects.len(),
    ensures
        forall|i: int| #[trigger]
            init_order(objects, n).contains(i) <==> 2 <= i < n && !objects[i].flagged(INIT_DONE),
        forall|p: int, q: int|
            0 <= p < q < init_order(objects, n).len() ==> #[trigger] init_order(objects, n)[q]
                < #[trigger] init_order(objects, n)[p],
    decreases n,
{
    let order = init_order(objects, n);
    if n > 2 {
        lemma_init_order_is_complete(objects, n - 1);
        let rest = init_order(objects, n - 1);
        if !objects[n - 1].flagged(INIT_DONE) {
            assert(order == seq![n - 1] + rest);
            assert(order[0] == n - 1);
            assert forall|k: int| 0 <= k < rest.len() implies #[trigger] order[k + 1]
                == rest[k] by {}
            assert forall|i: int| #[trigger] order.contains(i) <==> 2 <= i < n
                && !objects[i].flagged(INIT_DONE) by {
                if order.contains(i) {
                    let k = choose|k: int| 0 <= k < order.len() && order[k] == i;
                    if k > 0 {
                        assert(rest[k - 1] == i);
                        assert(rest.contains(i));
                    }
                } else if 2 <= i < n && !objects[i].flagged(INIT_DONE) {
                    assert(order.contains(n - 1));
                    assert(rest.contains(i));
                    let k = choose|k: int| 0 <= k < rest.len() && rest[k] == i;
                    assert(order[k + 1] == i);
                }
            }
            assert forall|p: int, q: int| 0 <= p < q < order.len() implies #[trigger] order[q]
                < #[trigger] order[p] by {
                assert(order[q] == rest[q - 1]);
                assert(rest.contains(rest[q - 1]));
                if p > 0 {
                    assert(order[p] == rest[p - 1]);
                }
            }
        }
    }
}

/// The order in which startup objects are initialised: from the last one on, so
/// that an object that was loaded for another one is initialised before it.
pub fn call_dso_inits(st: &RtldState) -> (r: Vec<usize>)
    ensures
        r@.len() == init_order(st.objects@, st.objects@.len() as int).len(),
        forall|k: int|
            0 <= k < r@.len() ==> #[trigger] r@[k] == init_order(
                st.objects@,
                st.objects@.len() as int,
            )[k],
{
    let mut out: Vec<usize> = Vec::new();
    let mut idx: usize = st.objects.len();
    let ghost goal = init_order(st.objects@, st.objects@.len() as int);
    while idx > 2
        invariant
            idx <= st.objects@.len(),
            goal == init_order(st.objects@, st.objects@.len() as int),
            goal.len() == out@.len() + init_order(st.objects@, idx as int).len(),
            forall|k: int| 0 <= k < out@.len() ==> #[trigger] out@[k] == goal[k],
            forall|k: int|
                0 <= k < init_order(st.objects@, idx as int).len() ==> goal[out@.len() + k]
                    == #[trigger] init_order(st.objects@, idx as int)[k],
        decreases idx,
    {
        let ghost rest = init_order(st.objects@, idx as int);
        let ghost n = out@.len() as int;
        idx = idx - 1;
        let ghost next = init_order(st.objects@, idx as int);
        if !st.objects[idx].has_flag(INIT_DONE) {
            assert(rest[0] == idx);
            assert(goal[n + 0] == rest[0]);
            assert forall|k: int| 0 <= k < next.len() implies goal[n + 1 + k] == #[trigger] next[k] by {
                assert(rest[k + 1] == next[k]);
            }
            out.push(idx);
        }
    }
    out
}

/// The address of an exported symbol of startup object `i` or a later one, found
/// by hash; definitions at zero do not count.
pub open spec fn exported_symbol(objects: Seq<LinkMap>, name: Seq<u8>, i: int) -> Option<u64>
    decreases objects.len() - i,
{
    if i < 0 || i >= objects.len() {
        None
    } else {
        let lm = objects[i];
        let found = match lm.tables.gnu_hash {
            Some(t) => hash_find(t@, lm.tables.symtab@, lm.tables.strtab@, name, None),
            None => None,
        };
        match found {
            Some(k) => if lm.tables.symtab@[k].st_value != 0 {
                Some(lm.base.wrapping_add(lm.tables.symtab@[k].st_value))
            } else {
                exported_symbol(objects, name, i + 1)
            },
            None => exported_symbol(objects, name, i + 1),
        }
    }
}

/// Finds an exported symbol in the startup objects behind the linker.
pub fn find_extern_symbol(st: &RtldState, name: &[u8]) -> (r: Option<u64>)
    ensures
        r == exported_symbol(st.objects@, name@, 1),
{
    let mut i: usize = 1;
    while i < st.objects.len()
        invariant
            1 <= i,
            exported_symbol(st.objects@, name@, 1) == exported_symbol(st.objects@, name@, i as int),
        decreases st.objects@.len() - i,
    {
        let lm: &LinkMap = &st.objects[i];
        match &lm.tables.gnu_hash {
            Some(t) => {
                match gnu_hash_lookup(
                    t.as_slice(),
                    lm.tables.symtab.as_slice(),
                    lm.tables.strtab.as_slice(),
                    name,
                    None,
                ) {
                    Some(sym) => {
                        if sym.st_value != 0 {
                            return Some(lm.base.wrapping_add(sym.st_value));
                        }
                    },
                    None => {},
                }
            },
            None => {},
        }
        i = i + 1;
    }
    None
}

/// The stage at which a load failed, for diagnostics.
pub fn object_load_error_stage(err: LoadError) -> (r: &'static str)
    ensures
        r@ == (match err {
            LoadError::ArenaMmapFailed => "arena-mmap",
            LoadError::OpenFailed => "ldsrv-resolve",
            LoadError::StatFailed => "stat",
            LoadError::ReadFailed => "read",
            LoadError::NotElf => "elf-header",
            LoadError::UnsupportedClass => "elf-class",
            LoadError::UnsupportedMachine => "elf-machine",
            LoadError::NoLoadable => "no-pt-load",
            LoadError::DsoWindowExhausted => "dso-window",
            LoadError::RunPlanFailed => "run-plan",
            LoadError::ImageReserveFailed => "image-reserve",
            LoadError::ImageAliasFailed => "image-alias",
            LoadError::ImageMapRunFailed => "image-map-run",
            LoadError::MmapFailed => "mmap",
            LoadError::Mprotect => "mprotect",
            LoadError::OutOfArena => "rtld-arena",
            LoadError::DependencyMissing => "dependency",
            LoadError::RelocationFailed => "relocation",
        })@,
{
    match err {
        LoadError::ArenaMmapFailed => "arena-mmap",
        LoadError::OpenFailed => "ldsrv-resolve",
        LoadError::StatFailed => "stat",
        LoadError::ReadFailed => "read",
        LoadError::NotElf => "elf-header",
        LoadError::UnsupportedClass => "elf-class",
        LoadError::UnsupportedMachine => "elf-machine",
        LoadError::NoLoadable => "no-pt-load",
        LoadError::DsoWindowExhausted => "dso-window",
        LoadError::RunPlanFailed => "run-plan",
        LoadError::ImageReserveFailed => "image-reserve",
        LoadError::ImageAliasFailed => "image-alias",
        LoadError::ImageMapRunFailed => "image-map-run",
        LoadError::MmapFailed => "mmap",
        LoadError::Mprotect => "mprotect",
        LoadError::OutOfArena => "rtld-arena",
        LoadError::DependencyMissing => "dependency",
        LoadError::RelocationFailed => "relocation",
    }
}

// ---------------------------------------------------------------------------
// What the startup promises
// ---------------------------------------------------------------------------

proof fn lemma_seed_named_answers(objects: Seq<LinkMap>, name: Seq<u8>, i: int)
    requires
        0 <= i,
    ensures
        seed_named(objects, name, i) matches Some(k) ==> i <= k < objects.len() && seed_answers(
            objects[k],
            name,
        ),
    decreases objects.len() - i,
{
    if i < objects.len() && !seed_answers(objects[i], name) {
        lemma_seed_named_answers(objects, name, i + 1);
    }
}

/// Whether some object answers to a name.
pub open spec fn is_answered(objects: Seq<LinkMap>, name: Seq<u8>) -> bool {
    exists|k: int| 0 <= k < objects.len() && seed_answers(#[trigger] objects[k], name)
}

/// Whether need `q` of object `j` comes before need `p` of object `i`.
pub open spec fn comes_before(j: int, q: int, i: int, p: int) -> bool {
    j < i || (j == i && q < p)
}

/// The walk stops at the first need that no object answers to, and at the end only
/// if each one from where it stands on is answered.
pub proof fn lemma_walk_finds_first_unmet_need(objects: Seq<LinkMap>, i: int, p: int)
    requires
        0 <= i,
        0 <= p,
    ensures
        match next_unmet(objects, i, p) {
            Some((a, b)) => {
                &&& i <= a < objects.len()
                &&& 0 <= b < startup_needs(objects[a]).len()
                &&& !comes_before(a, b, i, p)
                &&& !is_answered(objects, needed_name(objects[a], b))
                &&& forall|j: int, q: int|
                    #![trigger needed_name(objects[j], q)]
                    i <= j < objects.len() && 0 <= q < startup_needs(objects[j]).len()
                        && !comes_before(j, q, i, p) && comes_before(j, q, a, b) ==> is_answered(
                        objects,
                        needed_name(objects[j], q),
                    )
            },
            None => forall|j: int, q: int|
                #![trigger needed_name(objects[j], q)]
                i <= j < objects.len() && 0 <= q < startup_needs(objects[j]).len()
                    && !comes_before(j, q, i, p) ==> is_answered(
                    objects,
                    needed_name(objects[j], q),
                ),
        },
    decreases objects.len() - i, startup_needs(objects[i]).len() - p,
{
    if i < objects.len() {
        if p >= startup_needs(objects[i]).len() {
            lemma_walk_finds_first_unmet_need(objects, i + 1, 0);
        } else {
            let name = needed_name(objects[i], p);
            lemma_seed_named_answers(objects, name, 0);
            if is_met(objects, i, p) {
                let k = seed_named(objects, name, 0)->0;
                assert(seed_answers(objects[k], name));
                lemma_walk_finds_first_unmet_need(objects, i, p + 1);
            } else if is_answered(objects, name) {
                let k = choose|k: int|
                    0 <= k < objects.len() && seed_answers(#[trigger] objects[k], name);
                lemma_seed_named_hit(objects, name, 0, k);
            }
        }
    }
}

/// Every page of an object that lies in a region that is read-only after
/// relocation, from its start to its end, becomes read-only.
pub proof fn lemma_relro_is_whole(phdrs: Seq<Elf64Phdr>, base: u64, k: int, page: int)
    requires
        0 <= k < phdrs.len(),
        phdrs[k].p_type == 0x6474e552,
        base % 4096 == 0,
        page % 4096 == 0,
        base + phdrs[k].p_vaddr <= page,
        page + 4096 <= base + phdrs[k].p_vaddr + phdrs[k].p_memsz,
        base + phdrs[k].p_vaddr + phdrs[k].p_memsz <= u64::MAX,
    ensures
        exists|j: int|
            0 <= j < relro_ranges(phdrs, base, phdrs.len() as int).len() && {
                let (start, count) = #[trigger] relro_ranges(phdrs, base, phdrs.len() as int)[j];
                start <= page && page + 4096 <= start + count * 4096
            },
{
    let ph = phdrs[k];
    let (start, end) = (base + page_ceil(ph.p_vaddr as int), base + page_floor(
        ph.p_vaddr + ph.p_memsz,
    ));
    assert(start <= page && page + 4096 <= end);
    assert((end - start) % 4096 == 0);
    assert(relro_pages(ph, base) is Some);
    lemma_relro_range_is_listed(phdrs, base, phdrs.len() as int, k);
    let ranges = relro_ranges(phdrs, base, phdrs.len() as int);
    let j = choose|j: int| 0 <= j < ranges.len() && ranges[j] == relro_pages(ph, base)->0;
    assert(ranges[j].0 == start);
}

proof fn lemma_relro_range_is_listed(phdrs: Seq<Elf64Phdr>, base: u64, n: int, k: int)
    requires
        0 <= k < n <= phdrs.len(),
        relro_pages(phdrs[k], base) is Some,
    ensures
        relro_ranges(phdrs, base, n).contains(relro_pages(phdrs[k], base)->0),
    decreases n,
{
    let ranges = relro_ranges(phdrs, base, n);
    let before = relro_ranges(phdrs, base, n - 1);
    let range = relro_pages(phdrs[k], base)->0;
    if k == n - 1 {
        assert(ranges[before.len() as int] == range);
    } else {
        lemma_relro_range_is_listed(phdrs, base, n - 1, k);
        let j = choose|j: int| 0 <= j < before.len() && before[j] == range;
        assert(ranges[j] == range);
    }
}

/// Whether every object asks for an alignment that is a power of two.
pub open spec fn aligns_are_powers(objects: Seq<LinkMap>) -> bool {
    forall|i: int|
        0 <= i < objects.len() && (#[trigger] objects[i]).tls_memsz != 0 ==> exists|k: nat|
            k < 64 && effective_align(objects[i].tls_align) == #[trigger] pow2(k)
}

proof fn lemma_layout_grows(objects: Seq<LinkMap>, layout: TlsLayout, i: int, j: int)
    requires
        0 <= i <= j <= objects.len(),
        aligns_are_powers(objects),
        startup_tls_fits(objects, layout),
    ensures
        layout_after(objects, layout, i).size <= layout_after(objects, layout, j).size,
    decreases j - i,
{
    if i < j {
        lemma_layout_grows(objects, layout, i, j - 1);
        let before = layout_after(objects, layout, j - 1);
        let lm = objects[j - 1];
        if takes_module(lm, before) {
            let k = choose|k: nat|
                k < 64 && effective_align(lm.tls_align) == #[trigger] pow2(k);
            lemma_tls_blocks_disjoint(before, lm.tls_memsz, lm.tls_align, k);
        }
    }
}

proof fn lemma_module_is_kept(
    objects: Seq<LinkMap>,
    layout: TlsLayout,
    modules: Seq<TlsModule>,
    i: int,
    n: int,
)
    requires
        0 <= i < n <= objects.len(),
        layout.count <= 16,
        modules.len() == 16,
        takes_module(objects[i], layout_after(objects, layout, i)),
    ensures
        modules_after(objects, layout, modules, n).len() == 16,
        ({
            let m = modules_after(objects, layout, modules, n)[layout_after(
                objects,
                layout,
                i,
            ).count as int];
            &&& m.base == objects[i].tls_image
            &&& m.filesz == objects[i].tls_filesz
            &&& m.memsz == objects[i].tls_memsz
            &&& m.mod_id == layout_after(objects, layout, i).count + 1
            &&& m.offset == (layout_after(objects, layout, i + 1).size
                - objects[i].tls_memsz) as u64
        }),
    decreases n,
{
    lemma_modules_len(objects, layout, modules, n - 1);
    if i < n - 1 {
        lemma_module_is_kept(objects, layout, modules, i, n - 1);
        lemma_layout_count(objects, layout, i + 1, n - 1);
    }
}

proof fn lemma_modules_len(
    objects: Seq<LinkMap>,
    layout: TlsLayout,
    modules: Seq<TlsModule>,
    n: int,
)
    requires
        modules.len() == 16,
    ensures
        modules_after(objects, layout, modules, n).len() == 16,
    decreases n,
{
    if n > 0 {
        lemma_modules_len(objects, layout, modules, n - 1);
    }
}

/// Every startup object with TLS, as long as there are slots, gets a module of its
/// own with its template and its sizes, in the slot of its ID; the blocks of two of
/// them do not overlap, and all lie in the region.
pub proof fn lemma_startup_blocks_are_apart(
    objects: Seq<LinkMap>,
    layout: TlsLayout,
    modules: Seq<TlsModule>,
    i: int,
    j: int,
)
    requires
        0 <= i < j < objects.len(),
        layout.count <= 16,
        modules.len() == 16,
        aligns_are_powers(objects),
        startup_tls_fits(objects, layout),
        takes_module(objects[i], layout_after(objects, layout, i)),
        takes_module(objects[j], layout_after(objects, layout, j)),
    ensures
        ({
            let n = objects.len() as int;
            let all = modules_after(objects, layout, modules, n);
            let a = all[with_module(objects, layout, i).tls_mod_id - 1];
            let b = all[with_module(objects, layout, j).tls_mod_id - 1];
            &&& a.mod_id == with_module(objects, layout, i).tls_mod_id
            &&& b.mod_id == with_module(objects, layout, j).tls_mod_id
            &&& a.base == objects[i].tls_image && b.base == objects[j].tls_image
            &&& a.filesz == objects[i].tls_filesz && b.filesz == objects[j].tls_filesz
            &&& a.memsz == objects[i].tls_memsz && b.memsz == objects[j].tls_memsz
            &&& layout.size <= a.offset && a.offset + a.memsz <= b.offset
            &&& b.offset + b.memsz <= layout_after(objects, layout, n).size
        }),
{
    let n = objects.len() as int;
    lemma_module_is_kept(objects, layout, modules, i, n);
    lemma_module_is_kept(objects, layout, modules, j, n);
    lemma_layout_grows(objects, layout, 0, i);
    lemma_layout_grows(objects, layout, i + 1, j);
    lemma_layout_grows(objects, layout, j + 1, n);
    lemma_new_block(objects, layout, i);
    lemma_new_block(objects, layout, j);
    lemma_layout_count(objects, layout, 0, i);
    lemma_layout_count(objects, layout, 0, j);
}

proof fn lemma_new_block(objects: Seq<LinkMap>, layout: TlsLayout, i: int)
    requires
        0 <= i < objects.len(),
        aligns_are_powers(objects),
        startup_tls_fits(objects, layout),
        takes_module(objects[i], layout_after(objects, layout, i)),
    ensures
        layout_after(objects, layout, i + 1).size - objects[i].tls_memsz >= layout_after(
            objects,
            layout,
            i,
        ).size,
{
    let k = choose|k: nat|
        k < 64 && effective_align(objects[i].tls_align) == #[trigger] pow2(k);
    lemma_tls_blocks_disjoint(
        layout_after(objects, layout, i),
        objects[i].tls_memsz,
        objects[i].tls_align,
        k,
    );
}

/// The symbol that the hash table of an object leads to, unless it is at zero.
pub open spec fn exports(lm: LinkMap, name: Seq<u8>) -> Option<u64> {
    match lm.tables.gnu_hash {
        None => None,
        Some(t) => match hash_find(t@, lm.tables.symtab@, lm.tables.strtab@, name, None) {
            Some(k) if lm.tables.symtab@[k].st_value != 0 => Some(lm.tables.symtab@[k].st_value),
            _ => None,
        },
    }
}

/// An exported symbol is that of the first object that has one, at its value from
/// the base of the object; there is none only if no object has one.
pub proof fn lemma_first_export_is_found(objects: Seq<LinkMap>, name: Seq<u8>, i: int, k: int)
    requires
        0 <= i <= k <= objects.len(),
        forall|j: int| i <= j < k ==> exports(#[trigger] objects[j], name) is None,
        k < objects.len() ==> exports(objects[k], name) is Some,
    ensures
        exported_symbol(objects, name, i) == if k < objects.len() {
            Some(
                ((objects[k].base + exports(objects[k], name)->0)
                    % 0x1_0000_0000_0000_0000) as u64,
            )
        } else {
            None
        },
    decreases k - i,
{
    if i < k {
        assert(exports(objects[i], name) is None);
        lemma_first_export_is_found(objects, name, i + 1, k);
    }
}

/// What an object has in memory ends at its load end or before.
pub proof fn lemma_load_end_is_behind_segments(lm: LinkMap, k: int)
    requires
        lm.phdr != 0,
        lm.phnum != 0,
        has_span(lm.tables.phdrs@),
        0 <= k < lm.tables.phdrs@.len(),
        lm.tables.phdrs@[k].p_type == 1,
        lm.base + span_of(lm.tables.phdrs@).1 <= u64::MAX,
    ensures
        lm.base + lm.tables.phdrs@[k].p_vaddr + lm.tables.phdrs@[k].p_memsz <= load_end(lm),
{
    let phdrs = lm.tables.phdrs@;
    assert(is_load(phdrs[k]));
    lemma_span_covers(phdrs, phdrs.len() as int, k);
}

} // verus!
