//! What the runtime linker sets up for itself and hands to the C library.
use crate::kernel::core_types::{
    no_pe_tls, no_static_tls, PeTlsModuleV1, RtldDlfcnV1, SaltyOSCspaceLayoutV1, StaticTlsModule,
    TronaLoaderRuntimeV1, TronaRuntimeV1, MAX_PE_TLS_MODULES, MAX_STATIC_TLS_MODULES,
};
use crate::loader::bytes::{signed, to_signed};
use crate::loader::elf::tls::TlsModule;
use crate::loader::elf::types::{Elf64Ehdr, Elf64Phdr, ET_DYN};
use crate::loader::link_flags::{INIT_DONE, RELOCATED};
use crate::loader::link_map::{CName, LinkMap, PeTlsModuleState, RtldState};
use crate::loader::rtld::elf::load::{describe_dynamic, describe_tls, has_dynamic, with_tls};
use crate::loader::rtld::elf::tables::Memory;
use crate::loader::rtld::io::AuxvInfo;
use vstd::prelude::*;

verus! {

/// Slots of the linker's own slot allocator.
pub const RTLD_ALLOC_WINDOW: u32 = 32;

/// Why the linker's state cannot be set up.
#[derive(Clone, Copy, PartialEq, Eq, Debug, Structural)]
pub enum InitError {
    /// There is no slot layout.
    MissingLayout,
    /// The slot allocator window does not fit.
    WindowTooSmall,
}

/// The low 32 bits of a number.
pub open spec fn low32(x: int) -> u32 {
    (x % 0x1_0000_0000) as u32
}

/// Whether the slot allocator window fits in a layout.
pub open spec fn window_fits(layout: SaltyOSCspaceLayoutV1) -> bool {
    &&& low32(layout.frame_slot_base as int) != 0
    &&& low32(layout.frame_slot_base as int) + 32 <= u32::MAX
    &&& low32(layout.frame_slot_base as int) + 32 <= low32(layout.frame_slot_limit as int)
}

/// A sum, cut off at the largest number.
pub open spec fn capped_sum(a: u64, b: u64) -> int {
    if a + b > u64::MAX {
        u64::MAX as int
    } else {
        a + b
    }
}

/// Sets up the linker's slots from the slot layout. Returns the start of the
/// window for its own slot allocator; the slots that are handed on start behind
/// that window.
pub fn init_state_from_auxv(st: &mut RtldState, layout: Option<&SaltyOSCspaceLayoutV1>, sc_cap: u32) -> (r:
    Result<u32, InitError>)
    ensures
        match layout {
            None => r == Err::<u32, InitError>(InitError::MissingLayout) && *final(st) == *old(st),
            Some(l) => {
                &&& *final(st) == (RtldState {
                    next_untyped_slot: low32(l.rtld_untyped_base as int),
                    untyped_limit: low32(capped_sum(l.rtld_untyped_base, l.rtld_untyped_count)),
                    next_free_slot: if window_fits(*l) {
                        (low32(l.frame_slot_base as int) + 32) as u32
                    } else {
                        low32(l.frame_slot_base as int)
                    },
                    frame_slot_limit: low32(l.frame_slot_limit as int),
                    sc_cap,
                    ..*old(st)
                })
                &&& r == if window_fits(*l) {
                    Ok::<u32, InitError>(low32(l.frame_slot_base as int))
                } else {
                    Err::<u32, InitError>(InitError::WindowTooSmall)
                }
            },
        },
{
    let l: &SaltyOSCspaceLayoutV1 = match layout {
        Some(l) => l,
        None => {
            return Err(InitError::MissingLayout);
        },
    };
    st.next_untyped_slot = (l.rtld_untyped_base % 0x1_0000_0000) as u32;
    let limit: u64 = if l.rtld_untyped_count > u64::MAX - l.rtld_untyped_base {
        u64::MAX
    } else {
        l.rtld_untyped_base + l.rtld_untyped_count
    };
    st.untyped_limit = (limit % 0x1_0000_0000) as u32;
    st.next_free_slot = (l.frame_slot_base % 0x1_0000_0000) as u32;
    st.frame_slot_limit = (l.frame_slot_limit % 0x1_0000_0000) as u32;
    st.sc_cap = sc_cap;
    let base: u32 = st.next_free_slot;
    if base == 0 || base > u32::MAX - RTLD_ALLOC_WINDOW || base + RTLD_ALLOC_WINDOW
        > st.frame_slot_limit {
        return Err(InitError::WindowTooSmall);
    }
    st.next_free_slot = base + RTLD_ALLOC_WINDOW;
    Ok(base)
}

/// The export record of a static TLS module.
pub open spec fn static_tls(m: TlsModule) -> StaticTlsModule {
    StaticTlsModule {
        module_id: m.mod_id as u64,
        template_addr: m.base,
        filesz: m.filesz,
        memsz: m.memsz,
        tp_offset: signed(m.offset),
    }
}

/// The export record of a PE TLS module.
pub open spec fn pe_tls(m: PeTlsModuleState) -> PeTlsModuleV1 {
    PeTlsModuleV1 {
        tls_index: m.tls_index,
        reserved: 0,
        template_addr: m.template_addr,
        filesz: m.filesz,
        memsz: m.memsz,
    }
}

/// A count, cut off at a limit.
pub open spec fn capped(n: int, limit: int) -> int {
    if n < limit {
        n
    } else {
        limit
    }
}

/// Builds the block that is handed to the C library.
pub fn build_runtime(st: &RtldState, auxv: &AuxvInfo) -> (r: TronaRuntimeV1)
    ensures
        r.magic == 0x3154_5254,
        r.version == 1,
        r.flags == 0,
        r.auxv_ptr == auxv.raw_auxv,
        r.startup_ptr == auxv.startup,
        r.cap_table_ptr == auxv.cap_table_ptr,
        r.cspace_layout_ptr == auxv.cspace_layout_ptr,
        r.ipc_buffer_vaddr == auxv.ipc_buffer_vaddr,
        r.next_free_slot == st.next_free_slot,
        r.sc_cap == st.sc_cap,
        r.tls_module_count == capped(st.tls_layout.count as int, 8),
        if st.tls_layout.count > 0 {
            &&& r.tls_align == st.tls_layout.align
            &&& r.tls_memsz == st.tls_layout.size
            &&& r.tls_template == st.tls_modules@[0].base
            &&& r.tls_filesz == st.tls_modules@[0].filesz
        } else {
            r.tls_align == 1 && r.tls_memsz == 0 && r.tls_template == 0 && r.tls_filesz == 0
        },
        forall|i: int|
            0 <= i < 8 ==> #[trigger] r.tls_modules@[i] == if i < st.tls_layout.count {
                static_tls(st.tls_modules@[i])
            } else {
                no_static_tls()
            },
        r.pe_abi_tp == st.pe_abi_tp,
        r.pe_tls_vector_len == st.pe_tls_vector_len,
        r.pe_tls_module_count == capped(st.pe_tls_module_count as int, 16),
        forall|i: int|
            0 <= i < 16 ==> #[trigger] r.pe_tls_modules@[i] == if i < st.pe_tls_module_count {
                pe_tls(st.pe_tls_modules@[i])
            } else {
                no_pe_tls()
            },
{
    let mut r: TronaRuntimeV1 = TronaRuntimeV1::zeroed();
    r.magic = TronaRuntimeV1::MAGIC;
    r.version = TronaRuntimeV1::VERSION;
    r.auxv_ptr = auxv.raw_auxv;
    r.startup_ptr = auxv.startup;
    r.cap_table_ptr = auxv.cap_table_ptr;
    r.cspace_layout_ptr = auxv.cspace_layout_ptr;
    r.ipc_buffer_vaddr = auxv.ipc_buffer_vaddr;
    r.next_free_slot = st.next_free_slot as u64;
    r.sc_cap = st.sc_cap as u64;
    let n: usize = if st.tls_layout.count < MAX_STATIC_TLS_MODULES {
        st.tls_layout.count
    } else {
        MAX_STATIC_TLS_MODULES
    };
    let mut modules: [StaticTlsModule; 8] = r.tls_modules;
    let mut i: usize = 0;
    while i < n
        invariant
            i <= n <= 8,
            forall|j: int|
                0 <= j < 8 ==> #[trigger] modules@[j] == if j < i {
                    static_tls(st.tls_modules@[j])
                } else {
                    no_static_tls()
                },
        decreases n - i,
    {
        let src: TlsModule = st.tls_modules[i];
        modules[i] = StaticTlsModule {
            module_id: src.mod_id as u64,
            template_addr: src.base,
            filesz: src.filesz,
            memsz: src.memsz,
            tp_offset: to_signed(src.offset),
        };
        i = i + 1;
    }
    let m: usize = if st.pe_tls_module_count < MAX_PE_TLS_MODULES {
        st.pe_tls_module_count
    } else {
        MAX_PE_TLS_MODULES
    };
    let mut pe_modules: [PeTlsModuleV1; 16] = r.pe_tls_modules;
    i = 0;
    while i < m
        invariant
            i <= m <= 16,
            forall|j: int|
                0 <= j < 16 ==> #[trigger] pe_modules@[j] == if j < i {
                    pe_tls(st.pe_tls_modules@[j])
                } else {
                    no_pe_tls()
                },
        decreases m - i,
    {
        let src: PeTlsModuleState = st.pe_tls_modules[i];
        pe_modules[i] = PeTlsModuleV1 {
            tls_index: src.tls_index,
            reserved: 0,
            template_addr: src.template_addr,
            filesz: src.filesz,
            memsz: src.memsz,
        };
        i = i + 1;
    }
    r.tls_module_count = n as u64;
    r.tls_modules = modules;
    if st.tls_layout.count > 0 {
        r.tls_align = st.tls_layout.align;
        r.tls_memsz = st.tls_layout.size;
        r.tls_template = st.tls_modules[0].base;
        r.tls_filesz = st.tls_modules[0].filesz;
    }
    r.pe_abi_tp = st.pe_abi_tp;
    r.pe_tls_vector_len = st.pe_tls_vector_len as u64;
    r.pe_tls_module_count = m as u64;
    r.pe_tls_modules = pe_modules;
    r
}

/// Builds the loader block around a function table.
pub fn build_loader_runtime(dlfcn: RtldDlfcnV1) -> (r: TronaLoaderRuntimeV1)
    ensures
        r == (TronaLoaderRuntimeV1 { magic: 0x5452_4C54, version: 1, flags: 0, dlfcn }),
{
    TronaLoaderRuntimeV1 {
        magic: TronaLoaderRuntimeV1::MAGIC,
        version: TronaLoaderRuntimeV1::VERSION,
        flags: 0,
        dlfcn,
    }
}

/// Whether `lm` is the entry of the linker itself before its memory is looked
/// at.
pub open spec fn is_rtld_entry(
    addr: u64,
    at_base: u64,
    ehdr: Elf64Ehdr,
    phdr: u64,
    name: CName,
    phdrs: Seq<Elf64Phdr>,
    lm: LinkMap,
) -> bool {
    &&& lm.addr == addr
    &&& lm.base == at_base
    &&& lm.name == Some(name)
    &&& lm.phdr == phdr
    &&& lm.phnum == ehdr.e_phnum
    &&& lm.e_type == 3
    &&& lm.entry == at_base.wrapping_add(ehdr.e_entry)
    &&& lm.tables.phdrs@ == phdrs
    &&& lm.is_unlinked()
    &&& lm.path is None
    &&& lm.map_start == 0 && lm.map_end == 0 && lm.image_id == 0
}

/// Makes the entry of the linker itself, which is mapped and relocated already.
/// `name` is its name, `dynamic` the address of its dynamic section.
pub fn setup_rtld_object(
    addr: u64,
    at_base: u64,
    ehdr: &Elf64Ehdr,
    phdr: u64,
    phdrs: Vec<Elf64Phdr>,
    dynamic: u64,
    name: CName,
    mem: &Memory<'_>,
) -> (r: LinkMap)
    ensures
        exists|bare: LinkMap, mid: LinkMap|
            #![trigger is_rtld_entry(addr, at_base, *ehdr, phdr, name, phdrs@, bare), has_dynamic(
                bare,
                dynamic,
                mem.start,
                mem.bytes@,
                mid,
            )]
            is_rtld_entry(addr, at_base, *ehdr, phdr, name, phdrs@, bare) && has_dynamic(
                bare,
                dynamic,
                mem.start,
                mem.bytes@,
                mid,
            ) && r == (LinkMap {
                flags: with_tls(mid).flags | RELOCATED | INIT_DONE,
                ..with_tls(mid)
            }),
{
    let mut lm: LinkMap = LinkMap::zeroed();
    lm.addr = addr;
    lm.base = at_base;
    let ghost given = name;
    lm.name = Some(name);
    lm.phdr = phdr;
    lm.phnum = ehdr.e_phnum;
    lm.e_type = ET_DYN;
    lm.entry = at_base.wrapping_add(ehdr.e_entry);
    let ghost headers = phdrs@;
    lm.tables.phdrs = phdrs;
    let ghost bare = lm;
    assert(is_rtld_entry(addr, at_base, *ehdr, phdr, given, headers, bare));
    describe_dynamic(&mut lm, dynamic, mem);
    let ghost mid = lm;
    assert(has_dynamic(bare, dynamic, mem.start, mem.bytes@, mid));
    describe_tls(&mut lm);
    lm.set_flag(RELOCATED);
    lm.set_flag(INIT_DONE);
    lm
}

} // verus!
