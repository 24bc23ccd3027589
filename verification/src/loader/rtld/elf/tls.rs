//! Runtime TLS modules and the dynamic TLS vector of a thread.
//!
//! The vector has a header and one slot per dynamic module ID. A slot gets its
//! block when the thread first touches the module's TLS; blocks and vector are
//! unmapped when the thread ends.
use crate::loader::bytes::{to_unsigned, unsigned};
use crate::loader::elf::header::Arch;
use crate::loader::elf::reloc::{kind_of, reloc_kind, RelocKind, RelocWrite};
use crate::loader::elf::symbol::{string_is, sym_name_eq};
use crate::loader::elf::tls::{aligned, lemma_aligned, DYNAMIC_TLS_MODULE_BASE};
use crate::loader::elf::types::{
    elf64_r_sym, elf64_r_type, elf64_st_type, page_ceil, rela_sym, rela_type, Elf64Rela, Elf64Sym,
    STT_TLS,
};
use crate::loader::link_flags::RTLD_GLOBAL;
use crate::loader::link_map::{ArenaState, LinkMap, RtldState};
use crate::loader::rtld::elf::arena::{arena_alloc, has_room};
use crate::loader::rtld::elf::object::{string_at, sym_count, symbols_counted, table_string};
use vstd::arithmetic::power2::pow2;
use vstd::prelude::*;

verus! {

/// Slots of a fresh vector.
pub const DEFAULT_DTV_SLOTS: u64 = 32;

/// One slot: the thread's block for a dynamic module, and the size of its
/// mapping.
#[derive(Clone, Copy, PartialEq, Eq, Debug, Structural)]
pub struct DtvSlot {
    pub block: u64,
    pub size: u64,
}

/// The dynamic TLS vector of a thread.
pub struct Dtv {
    /// Address of the vector.
    pub addr: u64,
    /// Counts how often the vector was built.
    pub generation: u64,
    pub slots: Vec<DtvSlot>,
}

/// The ID that the counter issues, and the counter behind it. A counter below
/// the dynamic ID space was never set up.
pub open spec fn issued_id(counter: u32) -> (u32, u32) {
    if counter < 17 {
        (17, 18)
    } else {
        (counter, counter.wrapping_add(1))
    }
}

/// Issues a fresh dynamic TLS module ID for the runtime object at index `idx` of
/// the chain.
pub fn register_runtime_module(st: &mut RtldState, idx: usize) -> (r: u32)
    requires
        idx < old(st).chain@.len(),
    ensures
        r == issued_id(old(st).next_dynamic_tls_module_id).0,
        *final(st) == (RtldState {
            chain: final(st).chain,
            next_dynamic_tls_module_id: issued_id(old(st).next_dynamic_tls_module_id).1,
            ..*old(st)
        }),
        final(st).chain@ == old(st).chain@.update(
            idx as int,
            (LinkMap { tls_mod_id: r as usize, ..old(st).chain@[idx as int] }),
        ),
{
    let raw: u32 = st.next_dynamic_tls_module_id;
    let id: u32 = if raw < DYNAMIC_TLS_MODULE_BASE {
        st.next_dynamic_tls_module_id = DYNAMIC_TLS_MODULE_BASE + 1;
        DYNAMIC_TLS_MODULE_BASE
    } else {
        st.next_dynamic_tls_module_id = raw.wrapping_add(1);
        raw
    };
    st.chain[idx].tls_mod_id = id as usize;
    id
}

/// Dynamic IDs are never those of static modules, and the next one is a new one
/// as long as the counter does not wrap around.
pub proof fn lemma_dynamic_ids(counter: u32)
    requires
        counter < u32::MAX,
    ensures
        issued_id(counter).0 >= 17,
        issued_id(issued_id(counter).1).0 == issued_id(counter).0 + 1,
{
}

/// TLS of a module.
#[derive(Clone, Copy, PartialEq, Eq, Debug, Structural)]
pub struct ModuleTemplate {
    pub template: u64,
    pub filesz: u64,
    pub memsz: u64,
    pub align: u64,
}

/// The TLS of an entry.
pub open spec fn template_of(lm: LinkMap) -> ModuleTemplate {
    ModuleTemplate {
        template: lm.tls_image,
        filesz: lm.tls_filesz,
        memsz: lm.tls_memsz,
        align: if lm.tls_align < 1 {
            1
        } else {
            lm.tls_align
        },
    }
}

/// The TLS of the first runtime object from `i` on with a module ID.
pub open spec fn runtime_module(chain: Seq<LinkMap>, mod_id: u32, i: int) -> Option<ModuleTemplate>
    decreases chain.len() - i,
{
    if i < 0 || i >= chain.len() {
        None
    } else if chain[i].tls_mod_id as int % 0x1_0000_0000 == mod_id {
        Some(template_of(chain[i]))
    } else {
        runtime_module(chain, mod_id, i + 1)
    }
}

/// Finds the TLS of a runtime object by its module ID.
pub fn find_runtime_module(st: &RtldState, mod_id: u32) -> (r: Option<ModuleTemplate>)
    ensures
        r == runtime_module(st.chain@, mod_id, 0),
{
    let mut i: usize = 0;
    while i < st.chain.len()
        invariant
            i <= st.chain@.len(),
            runtime_module(st.chain@, mod_id, 0) == runtime_module(st.chain@, mod_id, i as int),
        decreases st.chain@.len() - i,
    {
        let lm: &LinkMap = &st.chain[i];
        if lm.tls_mod_id as u64 % 0x1_0000_0000 == mod_id as u64 {
            return Some(
                ModuleTemplate {
                    template: lm.tls_image,
                    filesz: lm.tls_filesz,
                    memsz: lm.tls_memsz,
                    align: if lm.tls_align < 1 {
                        1
                    } else {
                        lm.tls_align
                    },
                },
            );
        }
        i = i + 1;
    }
    None
}

// ---------------------------------------------------------------------------
// The vector
// ---------------------------------------------------------------------------

/// Size of the mapping of a vector with room for `capacity` slots.
pub open spec fn dtv_bytes(capacity: int) -> int {
    page_ceil(16 + capacity * 16)
}

/// Size of the mapping of a vector.
pub fn dtv_total_bytes(capacity: u64) -> (r: u64)
    requires
        capacity <= 0x1_0000_0000,
    ensures
        r == dtv_bytes(capacity as int),
{
    (16 + capacity * 16 + 4095) / 4096 * 4096
}

/// The first of `c`, `2 c`, `4 c`, ... that is at least `n`.
pub open spec fn doubled(c: int, n: int) -> int
    decreases 2 * n - c,
{
    if c >= n || c <= 0 {
        c
    } else {
        doubled(2 * c, n)
    }
}

fn grown_capacity(n: u64) -> (r: u64)
    requires
        n <= 0x8000_0000,
    ensures
        r == doubled(32, n as int),
        n <= r,
        32 <= r <= 0x1_0000_0000,
{
    let mut c: u64 = DEFAULT_DTV_SLOTS;
    while c < n
        invariant
            32 <= c,
            c <= 0x1_0000_0000,
            n <= 0x8000_0000,
            doubled(32, n as int) == doubled(c as int, n as int),
        decreases 2 * n - c,
    {
        c = 2 * c;
    }
    c
}

/// Size of the mapping of a block.
pub open spec fn block_bytes(m: ModuleTemplate) -> int {
    let bytes = aligned(m.memsz, m.align);
    page_ceil(
        if bytes < 1 {
            1
        } else {
            bytes as int
        },
    )
}

/// Whether the block of a module can be sized.
pub open spec fn block_fits(m: ModuleTemplate) -> bool {
    m.align >= 1 && m.memsz + m.align + 4095 <= u64::MAX
}

fn block_size(m: &ModuleTemplate) -> (r: u64)
    requires
        block_fits(*m),
    ensures
        r == block_bytes(*m),
{
    let top: u64 = m.memsz + (m.align - 1);
    let mask: u64 = !(m.align - 1);
    assert(top & mask <= top) by (bit_vector);
    let rounded: u64 = top & mask;
    let bytes: u64 = if rounded < 1 {
        1
    } else {
        rounded
    };
    (bytes + 4095) / 4096 * 4096
}

/// What is needed to give a thread the address of a TLS variable.
#[derive(Clone, Copy, PartialEq, Eq, Debug, Structural)]
pub enum TlsStep {
    /// The module is a static one.
    Static,
    /// There is no such module.
    Missing,
    /// Map this many bytes for a first vector.
    MapVector(u64),
    /// Map this many bytes for a vector with this capacity.
    GrowVector(u64, u64),
    /// Map this many bytes for the block of this slot.
    MapBlock(usize, u64),
    /// The address.
    Found(u64),
}

/// The next step towards the address of a TLS variable.
pub open spec fn tls_step(
    chain: Seq<LinkMap>,
    dtv: Option<Seq<DtvSlot>>,
    module_id: u64,
    offset: u64,
) -> TlsStep {
    let id = (module_id % 0x1_0000_0000) as u32;
    if id < 17 {
        TlsStep::Static
    } else {
        match runtime_module(chain, id, 0) {
            None => TlsStep::Missing,
            Some(m) => match dtv {
                None => TlsStep::MapVector(dtv_bytes(32) as u64),
                Some(slots) => {
                    let idx = id - 17;
                    if idx >= slots.len() {
                        let capacity = doubled(32, idx + 1);
                        TlsStep::GrowVector(dtv_bytes(capacity) as u64, capacity as u64)
                    } else if slots[idx].block != 0 {
                        TlsStep::Found(slots[idx].block.wrapping_add(offset))
                    } else {
                        TlsStep::MapBlock(idx as usize, block_bytes(m) as u64)
                    }
                },
            },
        }
    }
}

/// The slots of a thread's vector.
pub open spec fn slots_of(dtv: Option<Dtv>) -> Option<Seq<DtvSlot>> {
    match dtv {
        Some(d) => Some(d.slots@),
        None => None,
    }
}

/// The next step towards the address of a TLS variable, for a thread with the
/// given vector.
pub fn tls_addr_impl(st: &RtldState, dtv: &Option<Dtv>, module_id: u64, offset: u64) -> (r: TlsStep)
    requires
        module_id % 0x1_0000_0000 < 17 + 0x8000_0000,
        match runtime_module(st.chain@, (module_id % 0x1_0000_0000) as u32, 0) {
            Some(m) => block_fits(m),
            None => true,
        },
    ensures
        r == tls_step(st.chain@, slots_of(*dtv), module_id, offset),
{
    let id: u32 = (module_id % 0x1_0000_0000) as u32;
    if id < DYNAMIC_TLS_MODULE_BASE {
        return TlsStep::Static;
    }
    let module: ModuleTemplate = match find_runtime_module(st, id) {
        Some(m) => m,
        None => {
            return TlsStep::Missing;
        },
    };
    match dtv {
        None => TlsStep::MapVector(dtv_total_bytes(DEFAULT_DTV_SLOTS)),
        Some(d) => {
            let idx: u64 = (id - DYNAMIC_TLS_MODULE_BASE) as u64;
            if idx >= d.slots.len() as u64 {
                let capacity: u64 = grown_capacity(idx + 1);
                return TlsStep::GrowVector(dtv_total_bytes(capacity), capacity);
            }
            let slot: DtvSlot = d.slots[idx as usize];
            if slot.block != 0 {
                return TlsStep::Found(slot.block.wrapping_add(offset));
            }
            TlsStep::MapBlock(idx as usize, block_size(&module))
        },
    }
}

/// Whether a vector has `capacity` slots: the old ones, then empty ones.
pub open spec fn has_slots(slots: Seq<DtvSlot>, old: Seq<DtvSlot>, capacity: int) -> bool {
    &&& slots.len() == capacity
    &&& forall|i: int|
        0 <= i < capacity ==> #[trigger] slots[i] == if i < old.len() {
            old[i]
        } else {
            DtvSlot { block: 0, size: 0 }
        }
}

/// A first vector, mapped at `addr`.
pub fn new_dtv(addr: u64) -> (r: Dtv)
    ensures
        r.addr == addr,
        r.generation == 1,
        has_slots(r.slots@, Seq::empty(), 32),
{
    let mut slots: Vec<DtvSlot> = Vec::new();
    let mut i: u64 = 0;
    while i < DEFAULT_DTV_SLOTS
        invariant
            i <= 32,
            slots@.len() == i,
            forall|j: int| 0 <= j < i ==> slots@[j] == (DtvSlot { block: 0, size: 0 }),
        decreases 32 - i,
    {
        slots.push(DtvSlot { block: 0, size: 0 });
        i = i + 1;
    }
    Dtv { addr, generation: 1, slots }
}

/// Moves a vector to a larger mapping at `addr`. The blocks stay; the old mapping
/// is to be unmapped, from address and size.
pub fn grow_dtv(dtv: &mut Dtv, addr: u64, capacity: u64) -> (r: (u64, u64))
    requires
        old(dtv).slots@.len() <= capacity <= 0x1_0000_0000,
        old(dtv).generation < u64::MAX,
    ensures
        r == (old(dtv).addr, dtv_bytes(old(dtv).slots@.len() as int) as u64),
        final(dtv).addr == addr,
        final(dtv).generation == old(dtv).generation + 1,
        has_slots(final(dtv).slots@, old(dtv).slots@, capacity as int),
{
    let before: u64 = dtv.addr;
    let bytes: u64 = dtv_total_bytes(dtv.slots.len() as u64);
    let ghost slots = dtv.slots@;
    let mut n: u64 = dtv.slots.len() as u64;
    while n < capacity
        invariant
            n == dtv.slots@.len(),
            slots.len() <= n <= capacity,
            dtv.generation == old(dtv).generation,
            forall|j: int|
                0 <= j < n ==> #[trigger] dtv.slots@[j] == if j < slots.len() {
                    slots[j]
                } else {
                    DtvSlot { block: 0, size: 0 }
                },
        decreases capacity - n,
    {
        dtv.slots.push(DtvSlot { block: 0, size: 0 });
        n = n + 1;
    }
    dtv.addr = addr;
    dtv.generation = dtv.generation + 1;
    (before, bytes)
}

/// How a fresh block is filled.
#[derive(Clone, Copy, PartialEq, Eq, Debug, Structural)]
pub struct BlockFill {
    /// Bytes to copy from the template to the start of the block.
    pub copy: u64,
    /// Address of the first byte to clear, and how many.
    pub clear_at: u64,
    pub clear: u64,
}

/// How the block of a module at an address is filled.
pub open spec fn fill_of(m: ModuleTemplate, block: u64) -> BlockFill {
    BlockFill {
        copy: if m.template != 0 {
            m.filesz
        } else {
            0
        },
        clear_at: block.wrapping_add(m.filesz),
        clear: if m.memsz > m.filesz {
            (m.memsz - m.filesz) as u64
        } else {
            0
        },
    }
}

/// Gives slot `idx` the block mapped at `block`, and says how to fill it.
pub fn take_block(dtv: &mut Dtv, idx: usize, module: &ModuleTemplate, block: u64, size: u64) -> (r:
    BlockFill)
    requires
        idx < old(dtv).slots@.len(),
    ensures
        r == fill_of(*module, block),
        final(dtv).slots@ == old(dtv).slots@.update(idx as int, (DtvSlot { block, size })),
        final(dtv).addr == old(dtv).addr,
        final(dtv).generation == old(dtv).generation,
{
    dtv.slots[idx] = DtvSlot { block, size };
    BlockFill {
        copy: if module.template != 0 {
            module.filesz
        } else {
            0
        },
        clear_at: block.wrapping_add(module.filesz),
        clear: if module.memsz > module.filesz {
            module.memsz - module.filesz
        } else {
            0
        },
    }
}

/// The mappings of the first `n` slots that hold one.
pub open spec fn block_mappings(slots: Seq<DtvSlot>, n: int) -> Seq<(u64, u64)>
    decreases n,
{
    if n <= 0 {
        Seq::empty()
    } else if slots[n - 1].block != 0 && slots[n - 1].size > 0 {
        block_mappings(slots, n - 1).push((slots[n - 1].block, slots[n - 1].size))
    } else {
        block_mappings(slots, n - 1)
    }
}

/// What to unmap when a thread ends, as addresses and sizes: every block, then
/// the vector.
pub fn tls_destroy_impl(dtv: Dtv) -> (r: Vec<(u64, u64)>)
    requires
        dtv.slots@.len() <= 0x1_0000_0000,
    ensures
        r@ == block_mappings(dtv.slots@, dtv.slots@.len() as int).push(
            (dtv.addr, dtv_bytes(dtv.slots@.len() as int) as u64),
        ),
{
    let mut out: Vec<(u64, u64)> = Vec::new();
    assert(out@ =~= Seq::empty());
    let mut i: usize = 0;
    while i < dtv.slots.len()
        invariant
            i <= dtv.slots@.len(),
            out@ == block_mappings(dtv.slots@, i as int),
        decreases dtv.slots@.len() - i,
    {
        let slot: DtvSlot = dtv.slots[i];
        if slot.block != 0 && slot.size > 0 {
            out.push((slot.block, slot.size));
        }
        i = i + 1;
    }
    out.push((dtv.addr, dtv_total_bytes(dtv.slots.len() as u64)));
    out
}

/// Once the next step was done, the one after it is no longer the same: a
/// vector is mapped once, grown to fit, and a block mapped once.
pub proof fn lemma_tls_steps_advance(
    chain: Seq<LinkMap>,
    slots: Seq<DtvSlot>,
    module_id: u64,
    offset: u64,
    after: Seq<DtvSlot>,
    block: u64,
    size: u64,
)
    requires
        module_id % 0x1_0000_0000 < 17 + 0x8000_0000,
    ensures
        match tls_step(chain, Some(slots), module_id, offset) {
            TlsStep::GrowVector(_, capacity) => has_slots(after, slots, capacity as int) ==> !(
            tls_step(chain, Some(after), module_id, offset) is GrowVector),
            TlsStep::MapBlock(idx, _) => block != 0 && after == slots.update(
                idx as int,
                (DtvSlot { block, size }),
            ) ==> tls_step(chain, Some(after), module_id, offset) == TlsStep::Found(
                block.wrapping_add(offset),
            ),
            _ => true,
        },
{
    let id = (module_id % 0x1_0000_0000) as u32;
    if id >= 17 {
        lemma_doubled(32, id - 17 + 1);
    }
}

proof fn lemma_doubled(c: int, n: int)
    requires
        32 <= c <= 0x1_0000_0000,
        n <= 0x8000_0000,
    ensures
        doubled(c, n) >= n,
        doubled(c, n) <= 0x1_0000_0000,
    decreases 2 * n - c,
{
    if c < n {
        lemma_doubled(2 * c, n);
    }
}

// ---------------------------------------------------------------------------
// TLS descriptors
// ---------------------------------------------------------------------------

/// Argument of the dynamic TLS descriptor resolver.
#[derive(Clone, Copy, PartialEq, Eq, Debug, Structural)]
pub struct TlsDescDyn {
    pub module_id: u64,
    pub offset: u64,
}

/// Whether symbol `i` of an object is a TLS symbol with a name.
pub open spec fn is_tls_symbol(lm: LinkMap, i: int, name: Seq<u8>) -> bool {
    let sym = lm.tables.symtab@[i];
    sym.st_info % 16 == 6 && string_is(lm.tables.strtab@, sym.st_name as int, name)
}

/// The offset of the first TLS symbol from `i` on with a name.
pub open spec fn tls_symbol(lm: LinkMap, name: Seq<u8>, i: int) -> Option<u64>
    decreases lm.tables.symtab@.len() - i,
{
    if lm.symtab == 0 || lm.strtab == 0 || i < 0 || i >= lm.tables.symtab@.len() || i
        >= symbols_counted(lm) {
        None
    } else if is_tls_symbol(lm, i, name) {
        Some(lm.tables.symtab@[i].st_value)
    } else {
        tls_symbol(lm, name, i + 1)
    }
}

fn lookup_tls_in(lm: &LinkMap, name: &[u8]) -> (r: Option<u64>)
    ensures
        r == tls_symbol(*lm, name@, 0),
{
    if lm.symtab == 0 || lm.strtab == 0 {
        return None;
    }
    let count: u128 = sym_count(lm);
    let mut i: usize = 0;
    while i < lm.tables.symtab.len() && (i as u128) < count
        invariant
            lm.symtab != 0 && lm.strtab != 0,
            count == symbols_counted(*lm),
            i <= lm.tables.symtab@.len(),
            tls_symbol(*lm, name@, 0) == tls_symbol(*lm, name@, i as int),
        decreases lm.tables.symtab@.len() - i,
    {
        let sym: &Elf64Sym = &lm.tables.symtab[i];
        if elf64_st_type(sym.st_info) == STT_TLS && sym_name_eq(
            lm.tables.strtab.as_slice(),
            sym.st_name,
            name,
        ) {
            return Some(sym.st_value);
        }
        i = i + 1;
    }
    None
}

/// The module and offset of the first TLS symbol with a name among `entries`
/// from `i` on: of those that are not `not`, and with `global` only of those in
/// the global scope.
pub open spec fn tls_symbol_among(
    entries: Seq<LinkMap>,
    not: u64,
    global: bool,
    name: Seq<u8>,
    i: int,
) -> Option<(u64, u64)>
    decreases entries.len() - i,
{
    if i < 0 || i >= entries.len() {
        None
    } else if entries[i].addr != not && (!global || entries[i].flagged(RTLD_GLOBAL)) && tls_symbol(
        entries[i],
        name,
        0,
    ) is Some {
        Some((entries[i].tls_mod_id as u64, tls_symbol(entries[i], name, 0)->0))
    } else {
        tls_symbol_among(entries, not, global, name, i + 1)
    }
}

fn lookup_tls_among(entries: &Vec<LinkMap>, not: u64, global: bool, name: &[u8]) -> (r: Option<
    (u64, u64),
>)
    ensures
        r == tls_symbol_among(entries@, not, global, name@, 0),
{
    let mut i: usize = 0;
    while i < entries.len()
        invariant
            i <= entries@.len(),
            tls_symbol_among(entries@, not, global, name@, 0) == tls_symbol_among(
                entries@,
                not,
                global,
                name@,
                i as int,
            ),
        decreases entries@.len() - i,
    {
        let lm: &LinkMap = &entries[i];
        if lm.addr != not && (!global || lm.has_flag(RTLD_GLOBAL)) {
            match lookup_tls_in(lm, name) {
                Some(off) => {
                    return Some((lm.tls_mod_id as u64, off));
                },
                None => {},
            }
        }
        i = i + 1;
    }
    None
}

/// The module and offset of TLS symbol `sym_idx` of an object: its own
/// definition first, then those of the startup objects, then of the global
/// runtime objects.
pub open spec fn tls_target(st: RtldState, req: LinkMap, sym_idx: u32) -> Option<(u64, u64)> {
    if sym_idx >= req.tables.symtab@.len() || req.tables.symtab@[sym_idx as int].st_name == 0 {
        None
    } else {
        let name = string_at(
            req.tables.strtab@,
            req.tables.symtab@[sym_idx as int].st_name as u64,
        );
        match tls_symbol(req, name, 0) {
            Some(off) => Some((req.tls_mod_id as u64, off)),
            None => match tls_symbol_among(st.objects@, req.addr, false, name, 0) {
                Some(t) => Some(t),
                None => tls_symbol_among(st.chain@, req.addr, true, name, 0),
            },
        }
    }
}

fn resolve_tls_symbol(st: &RtldState, req: &LinkMap, sym_idx: u32) -> (r: Option<(u64, u64)>)
    ensures
        r == tls_target(*st, *req, sym_idx),
{
    if sym_idx as u64 >= req.tables.symtab.len() as u64 {
        return None;
    }
    let st_name: u32 = req.tables.symtab[sym_idx as usize].st_name;
    if st_name == 0 {
        return None;
    }
    let name = table_string(req, st_name as u64);
    match lookup_tls_in(req, name.bytes.as_slice()) {
        Some(off) => {
            return Some((req.tls_mod_id as u64, off));
        },
        None => {},
    }
    match lookup_tls_among(&st.objects, req.addr, false, name.bytes.as_slice()) {
        Some(t) => {
            return Some(t);
        },
        None => {},
    }
    lookup_tls_among(&st.chain, req.addr, true, name.bytes.as_slice())
}

/// The offset of a static module from slot `i` on; 0 if there is none.
pub open spec fn tp_offset(st: RtldState, mod_id: u64, i: int) -> u64
    decreases 16 - i,
{
    if i < 0 || i >= 16 {
        0
    } else if st.tls_modules@[i].mod_id == mod_id {
        st.tls_modules@[i].offset
    } else {
        tp_offset(st, mod_id, i + 1)
    }
}

fn static_tp_offset(st: &RtldState, mod_id: u64) -> (r: u64)
    ensures
        r == tp_offset(*st, mod_id, 0),
{
    let mut i: usize = 0;
    while i < 16
        invariant
            i <= 16,
            tp_offset(*st, mod_id, 0) == tp_offset(*st, mod_id, i as int),
        decreases 16 - i,
    {
        if st.tls_modules[i].mod_id as u64 == mod_id {
            return st.tls_modules[i].offset;
        }
        i = i + 1;
    }
    0
}

/// Addresses of the two TLS descriptor resolvers.
#[derive(Clone, Copy, PartialEq, Eq, Debug, Structural)]
pub struct TlsdescResolvers {
    pub fixed: u64,
    pub dynamic: u64,
}

/// What binding one relocation writes: nothing, if it is no TLS descriptor or its
/// symbol is not found; the static resolver with the offset from the thread
/// pointer, for a static module; otherwise the dynamic resolver with an argument
/// that is put into the arena. `None` if the arena is exhausted.
pub open spec fn desc_writes(
    st: RtldState,
    lm: LinkMap,
    arena: ArenaState,
    arch: Arch,
    res: TlsdescResolvers,
    r: Elf64Rela,
) -> Option<Seq<RelocWrite>> {
    let addr = lm.base.wrapping_add(r.r_offset);
    if kind_of(arch, rela_type(r.r_info)) != Some(RelocKind::TlsDesc) {
        Some(Seq::empty())
    } else if rela_sym(r.r_info) == 0 {
        Some(seq![RelocWrite::Pair { addr, first: res.fixed, second: unsigned(r.r_addend) }])
    } else {
        match tls_target(st, lm, rela_sym(r.r_info)) {
            None => Some(Seq::empty()),
            Some((mod_id, sym_offset)) => {
                let offset = sym_offset.wrapping_add(unsigned(r.r_addend));
                if mod_id % 0x1_0000_0000 < 17 {
                    Some(
                        seq![
                            RelocWrite::Pair {
                                addr,
                                first: res.fixed,
                                second: tp_offset(st, mod_id, 0).wrapping_add(offset),
                            },
                        ],
                    )
                } else if has_room(arena, 16, 8) {
                    let desc = (arena.base + aligned(arena.cursor, 8)) as u64;
                    Some(
                        seq![
                            RelocWrite::Pair { addr: desc, first: mod_id, second: offset },
                            RelocWrite::Pair { addr, first: res.dynamic, second: desc },
                        ],
                    )
                } else {
                    None
                }
            },
        }
    }
}

/// The arena behind the binding of one relocation.
pub open spec fn desc_arena(arena: ArenaState, writes: Seq<RelocWrite>) -> ArenaState {
    if writes.len() == 2 {
        ArenaState { cursor: (aligned(arena.cursor, 8) + 16) as u64, ..arena }
    } else {
        arena
    }
}

/// Binding the relocations from `i` on, after `writes`: all writes, the arena
/// behind them, and whether the arena sufficed.
pub open spec fn desc_table(
    st: RtldState,
    lm: LinkMap,
    arch: Arch,
    res: TlsdescResolvers,
    relas: Seq<Elf64Rela>,
    i: int,
    arena: ArenaState,
    writes: Seq<RelocWrite>,
) -> (Seq<RelocWrite>, ArenaState, bool)
    decreases relas.len() - i,
{
    if i < 0 || i >= relas.len() {
        (writes, arena, true)
    } else {
        match desc_writes(st, lm, arena, arch, res, relas[i]) {
            None => (writes, arena, false),
            Some(w) => desc_table(
                st,
                lm,
                arch,
                res,
                relas,
                i + 1,
                desc_arena(arena, w),
                writes + w,
            ),
        }
    }
}

fn bind_one(
    st: &RtldState,
    lm: &LinkMap,
    arena: &mut ArenaState,
    arch: Arch,
    res: TlsdescResolvers,
    r: &Elf64Rela,
    writes: &mut Vec<RelocWrite>,
) -> (ok: bool)
    requires
        old(arena).wf(),
        old(arena).size <= u64::MAX - 7,
    ensures
        match desc_writes(*st, *lm, *old(arena), arch, res, *r) {
            None => !ok && *final(arena) == *old(arena) && final(writes)@ == old(writes)@,
            Some(w) => ok && *final(arena) == desc_arena(*old(arena), w) && final(writes)@ == old(
                writes,
            )@ + w,
        },
        final(arena).wf(),
        final(arena).size == old(arena).size,
{
    let ghost goal = desc_writes(*st, *lm, *old(arena), arch, res, *r);
    let desc: bool = match reloc_kind(arch, elf64_r_type(r.r_info)) {
        Some(RelocKind::TlsDesc) => true,
        _ => false,
    };
    if !desc {
        assert(writes@ + goal->0 =~= writes@);
        return true;
    }
    let addr: u64 = lm.base.wrapping_add(r.r_offset);
    let sym_idx: u32 = elf64_r_sym(r.r_info);
    let addend: u64 = to_unsigned(r.r_addend);
    if sym_idx == 0 {
        writes.push(RelocWrite::Pair { addr, first: res.fixed, second: addend });
        assert(writes@ =~= old(writes)@ + goal->0);
        return true;
    }
    let (mod_id, sym_offset): (u64, u64) = match resolve_tls_symbol(st, lm, sym_idx) {
        Some(t) => t,
        None => {
            assert(writes@ + goal->0 =~= writes@);
            return true;
        },
    };
    let offset: u64 = sym_offset.wrapping_add(addend);
    if mod_id % 0x1_0000_0000 < DYNAMIC_TLS_MODULE_BASE as u64 {
        let tp: u64 = static_tp_offset(st, mod_id);
        writes.push(
            RelocWrite::Pair { addr, first: res.fixed, second: tp.wrapping_add(offset) },
        );
        assert(writes@ =~= old(writes)@ + goal->0);
        return true;
    }
    match arena_alloc(arena, 16, 8) {
        Some(desc) => {
            writes.push(RelocWrite::Pair { addr: desc, first: mod_id, second: offset });
            writes.push(RelocWrite::Pair { addr, first: res.dynamic, second: desc });
            assert(writes@ =~= old(writes)@ + goal->0);
            true
        },
        None => false,
    }
}

fn bind_table(
    st: &RtldState,
    lm: &LinkMap,
    arena: &mut ArenaState,
    arch: Arch,
    res: TlsdescResolvers,
    relas: &Vec<Elf64Rela>,
    writes: &mut Vec<RelocWrite>,
) -> (ok: bool)
    requires
        old(arena).wf(),
        old(arena).size <= u64::MAX - 7,
    ensures
        (final(writes)@, *final(arena), ok) == desc_table(
            *st,
            *lm,
            arch,
            res,
            relas@,
            0,
            *old(arena),
            old(writes)@,
        ),
        final(arena).wf(),
        final(arena).size == old(arena).size,
{
    let mut i: usize = 0;
    let ghost goal = desc_table(*st, *lm, arch, res, relas@, 0, *old(arena), old(writes)@);
    while i < relas.len()
        invariant
            i <= relas@.len(),
            arena.wf(),
            arena.size == old(arena).size,
            arena.size <= u64::MAX - 7,
            goal == desc_table(*st, *lm, arch, res, relas@, 0, *old(arena), old(writes)@),
            goal == desc_table(*st, *lm, arch, res, relas@, i as int, *arena, writes@),
        decreases relas@.len() - i,
    {
        if !bind_one(st, lm, arena, arch, res, &relas[i], writes) {
            return false;
        }
        i = i + 1;
    }
    true
}

/// What binding the TLS descriptors of an object gives: both tables in turn.
pub open spec fn desc_outcome(
    st: RtldState,
    lm: LinkMap,
    arch: Arch,
    res: TlsdescResolvers,
) -> (Seq<RelocWrite>, ArenaState, bool) {
    let (w1, a1, ok1) = desc_table(
        st,
        lm,
        arch,
        res,
        lm.tables.rela@,
        0,
        st.arena,
        Seq::empty(),
    );
    if ok1 {
        desc_table(st, lm, arch, res, lm.tables.jmprel@, 0, a1, w1)
    } else {
        (w1, a1, false)
    }
}

/// Binds every TLS descriptor of the runtime object at index `idx` of the chain.
/// Returns the writes to make, and whether the arena sufficed.
pub fn bind_tlsdesc(st: &mut RtldState, idx: usize, arch: Arch, res: TlsdescResolvers) -> (r: (
    Vec<RelocWrite>,
    bool,
))
    requires
        idx < old(st).chain@.len(),
        old(st).arena.wf(),
        old(st).arena.size <= u64::MAX - 7,
    ensures
        ({
            let (writes, arena, ok) = desc_outcome(*old(st), old(st).chain@[idx as int], arch, res);
            r.0@ == writes && r.1 == ok && *final(st) == (RtldState { arena, ..*old(st) })
        }),
        final(st).arena.wf(),
        final(st).arena.size == old(st).arena.size,
{
    let mut writes: Vec<RelocWrite> = Vec::new();
    assert(writes@ =~= Seq::empty());
    let mut arena: ArenaState = st.arena;
    let mut ok: bool = bind_table(
        st,
        &st.chain[idx],
        &mut arena,
        arch,
        res,
        &st.chain[idx].tables.rela,
        &mut writes,
    );
    if ok {
        ok = bind_table(
            st,
            &st.chain[idx],
            &mut arena,
            arch,
            res,
            &st.chain[idx].tables.jmprel,
            &mut writes,
        );
    }
    st.arena = arena;
    (writes, ok)
}

/// The offset from the thread pointer of a variable at an address; 0 if there is
/// no such variable.
pub fn tlsdesc_offset(var_addr: u64, tp: u64) -> (r: u64)
    ensures
        r == if var_addr == 0 {
            0
        } else {
            var_addr.wrapping_sub(tp)
        },
{
    if var_addr == 0 {
        0
    } else {
        var_addr.wrapping_sub(tp)
    }
}

// ---------------------------------------------------------------------------
// What is found, filled and freed
// ---------------------------------------------------------------------------

proof fn lemma_runtime_module_from(chain: Seq<LinkMap>, mod_id: u32, i: int, k: int)
    requires
        0 <= i <= k < chain.len(),
        chain[k].tls_mod_id as int % 0x1_0000_0000 == mod_id,
        forall|j: int|
            0 <= j < k ==> (#[trigger] chain[j]).tls_mod_id as int % 0x1_0000_0000 != mod_id,
    ensures
        runtime_module(chain, mod_id, i) == Some(template_of(chain[k])),
    decreases k - i,
{
    if i < k {
        lemma_runtime_module_from(chain, mod_id, i + 1, k);
    }
}

/// A thread finds a variable of the first runtime object with the module's ID at
/// the variable's offset in the block of the slot that is as far from the first
/// slot as the ID is from the first dynamic one. Before it has one, it is told to
/// map a vector, then to grow it to a power of two of slots that holds this one,
/// then to map the block.
pub proof fn lemma_variable_is_found(
    chain: Seq<LinkMap>,
    dtv: Option<Seq<DtvSlot>>,
    id: u32,
    offset: u64,
    k: int,
)
    requires
        17 <= id < 17 + 0x8000_0000,
        0 <= k < chain.len(),
        chain[k].tls_mod_id == id,
        forall|j: int|
            0 <= j < k ==> (#[trigger] chain[j]).tls_mod_id as int % 0x1_0000_0000 != id,
        chain[k].tls_memsz + chain[k].tls_align + 4096 <= u64::MAX,
    ensures
        ({
            let step = tls_step(chain, dtv, id as u64, offset);
            match dtv {
                None => step == TlsStep::MapVector(4096),
                Some(slots) => if id - 17 < slots.len() {
                    if slots[id - 17].block != 0 {
                        step is Found && (slots[id - 17].block + offset - step->Found_0)
                            % 0x1_0000_0000_0000_0000 == 0
                    } else {
                        step is MapBlock && step->MapBlock_0 == id - 17
                    }
                } else {
                    step is GrowVector && step->GrowVector_1 > id - 17 && step->GrowVector_0
                        % 4096 == 0 && 16 + 16 * step->GrowVector_1 <= step->GrowVector_0 < 16 + 16
                        * step->GrowVector_1 + 4096
                },
            }
        }),
{
    lemma_runtime_module_from(chain, id, 0, k);
    lemma_doubled(32, id - 17 + 1);
    if let Some(slots) = dtv {
        if id - 17 < slots.len() {
            lemma_wrapped_sum(slots[id - 17].block, offset);
        }
    }
}

proof fn lemma_wrapped_sum(a: u64, b: u64)
    ensures
        (a + b - a.wrapping_add(b)) % 0x1_0000_0000_0000_0000 == 0,
{
}

/// With a power-of-two alignment, the block of a module is whole pages that hold
/// its memory, and wastes less than an alignment and a page.
pub proof fn lemma_block_holds_module(m: ModuleTemplate, k: nat)
    requires
        k < 64,
        m.align == pow2(k),
        block_fits(m),
    ensures
        block_bytes(m) % 4096 == 0,
        m.memsz <= block_bytes(m) < m.memsz + m.align + 4096,
        block_bytes(m) > 0,
{
    lemma_aligned(m.memsz, k);
}

/// A new block starts with the module's template, and what is behind it is
/// cleared up to the size of the module.
pub proof fn lemma_block_is_filled(m: ModuleTemplate, block: u64)
    requires
        m.template != 0,
        m.filesz <= m.memsz,
        block + m.memsz <= u64::MAX,
    ensures
        ({
            let fill = fill_of(m, block);
            &&& fill.copy == m.filesz
            &&& fill.clear_at == block + fill.copy
            &&& fill.clear_at + fill.clear == block + m.memsz
        }),
{
}

/// Every block of a thread is unmapped with its size, and nothing else is.
pub proof fn lemma_every_block_is_unmapped(slots: Seq<DtvSlot>, n: int)
    requires
        0 <= n <= slots.len(),
    ensures
        forall|i: int|
            0 <= i < n && (#[trigger] slots[i]).block != 0 && slots[i].size > 0
                ==> block_mappings(slots, n).contains((slots[i].block, slots[i].size)),
        forall|j: int|
            0 <= j < block_mappings(slots, n).len() ==> exists|i: int|
                0 <= i < n && (#[trigger] slots[i]).block != 0 && (slots[i].block, slots[i].size)
                    == #[trigger] block_mappings(slots, n)[j],
        block_mappings(slots, n).len() <= n,
    decreases n,
{
    if n > 0 {
        lemma_every_block_is_unmapped(slots, n - 1);
        let before = block_mappings(slots, n - 1);
        let after = block_mappings(slots, n);
        let last = (slots[n - 1].block, slots[n - 1].size);
        if slots[n - 1].block != 0 && slots[n - 1].size > 0 {
            assert(after[before.len() as int] == last);
        }
        assert forall|i: int|
            0 <= i < n && (#[trigger] slots[i]).block != 0 && slots[i].size
                > 0 implies after.contains((slots[i].block, slots[i].size)) by {
            if i < n - 1 {
                let j = choose|j: int|
                    0 <= j < before.len() && before[j] == (slots[i].block, slots[i].size);
                assert(after[j] == before[j]);
            }
        }
        assert forall|j: int| 0 <= j < after.len() implies exists|i: int|
            0 <= i < n && (#[trigger] slots[i]).block != 0 && (slots[i].block, slots[i].size)
                == #[trigger] after[j] by {
            if j < before.len() {
                assert(after[j] == before[j]);
            }
        }
    }
}

proof fn lemma_tls_symbol_from(lm: LinkMap, name: Seq<u8>, i: int, k: int)
    requires
        lm.symtab != 0,
        lm.strtab != 0,
        0 <= i <= k < lm.tables.symtab@.len(),
        k < symbols_counted(lm),
        is_tls_symbol(lm, k, name),
        forall|j: int| 0 <= j < k ==> !#[trigger] is_tls_symbol(lm, j, name),
    ensures
        tls_symbol(lm, name, i) == Some(lm.tables.symtab@[k].st_value),
    decreases k - i,
{
    if i < k {
        lemma_tls_symbol_from(lm, name, i + 1, k);
    }
}

/// A TLS symbol is found by its name, the first one of an object; its offset in
/// the module is its value.
pub proof fn lemma_tls_symbol_is_found(lm: LinkMap, name: Seq<u8>, k: int)
    requires
        lm.symtab != 0,
        lm.strtab != 0,
        0 <= k < lm.tables.symtab@.len(),
        k < symbols_counted(lm),
        lm.tables.symtab@[k].st_info % 16 == 6,
        string_is(lm.tables.strtab@, lm.tables.symtab@[k].st_name as int, name),
        forall|j: int|
            0 <= j < k && (#[trigger] lm.tables.symtab@[j]).st_info % 16 == 6 ==> !string_is(
                lm.tables.strtab@,
                lm.tables.symtab@[j].st_name as int,
                name,
            ),
    ensures
        tls_symbol(lm, name, 0) == Some(lm.tables.symtab@[k].st_value),
{
    assert forall|j: int| 0 <= j < k implies !#[trigger] is_tls_symbol(lm, j, name) by {
        let sym = lm.tables.symtab@[j];
    }
    lemma_tls_symbol_from(lm, name, 0, k);
}

/// The static module with an ID is found at its offset.
pub proof fn lemma_static_module_is_found(st: RtldState, mod_id: u64, i: int, k: int)
    requires
        0 <= i <= k < 16,
        st.tls_modules@[k].mod_id == mod_id,
        forall|j: int| 0 <= j < k ==> (#[trigger] st.tls_modules@[j]).mod_id != mod_id,
    ensures
        tp_offset(st, mod_id, i) == st.tls_modules@[k].offset,
    decreases k - i,
{
    if i < k {
        lemma_static_module_is_found(st, mod_id, i + 1, k);
    }
}

/// Whether a pair of words is written at an address.
pub open spec fn writes_pair(
    writes: Seq<RelocWrite>,
    addr: u64,
    first: u64,
    second: u64,
) -> bool {
    writes.contains(RelocWrite::Pair { addr, first, second })
}

/// Whether the writes bind one descriptor: its resolver, and with the static one
/// the offset from the thread pointer, with the dynamic one a pair of module and
/// offset that is written too.
pub open spec fn binds(
    writes: Seq<RelocWrite>,
    st: RtldState,
    lm: LinkMap,
    res: TlsdescResolvers,
    r: Elf64Rela,
) -> bool {
    let addr = ((lm.base + r.r_offset) % 0x1_0000_0000_0000_0000) as u64;
    let sym = (r.r_info / 0x1_0000_0000) as u32;
    if sym == 0 {
        writes_pair(writes, addr, res.fixed, (r.r_addend as int % 0x1_0000_0000_0000_0000) as u64)
    } else {
        match tls_target(st, lm, sym) {
            None => true,
            Some((mod_id, off)) => if mod_id % 0x1_0000_0000 <= 16 {
                writes_pair(
                    writes,
                    addr,
                    res.fixed,
                    ((tp_offset(st, mod_id, 0) + off + r.r_addend) % 0x1_0000_0000_0000_0000) as u64,
                )
            } else {
                exists|desc: u64|
                    writes_pair(writes, addr, res.dynamic, desc) && #[trigger] writes_pair(
                        writes,
                        desc,
                        mod_id,
                        ((off + r.r_addend) % 0x1_0000_0000_0000_0000) as u64,
                    )
            },
        }
    }
}

proof fn lemma_sums_wrap(a: u64, b: u64, c: i64)
    ensures
        a.wrapping_add(b) == (a + b) % 0x1_0000_0000_0000_0000,
        b.wrapping_add(unsigned(c)) == (b + c) % 0x1_0000_0000_0000_0000,
        a.wrapping_add(b.wrapping_add(unsigned(c))) == (a + b + c) % 0x1_0000_0000_0000_0000,
{
}

proof fn lemma_desc_binds(
    st: RtldState,
    lm: LinkMap,
    arena: ArenaState,
    arch: Arch,
    res: TlsdescResolvers,
    r: Elf64Rela,
)
    requires
        desc_writes(st, lm, arena, arch, res, r) is Some,
        rela_type(r.r_info) == match arch {
            Arch::X86_64 => 36u32,
            Arch::Aarch64 => 1031,
        },
    ensures
        binds(desc_writes(st, lm, arena, arch, res, r)->0, st, lm, res, r),
{
    let w = desc_writes(st, lm, arena, arch, res, r)->0;
    let addr = lm.base.wrapping_add(r.r_offset);
    lemma_sums_wrap(lm.base, r.r_offset, 0);
    lemma_sums_wrap(0, 0, r.r_addend);
    if rela_sym(r.r_info) == 0 {
        assert(w[0] == (RelocWrite::Pair { addr, first: res.fixed, second: unsigned(r.r_addend) }));
    } else {
        match tls_target(st, lm, rela_sym(r.r_info)) {
            None => {},
            Some((mod_id, off)) => {
                let offset = off.wrapping_add(unsigned(r.r_addend));
                lemma_sums_wrap(0, off, r.r_addend);
                lemma_sums_wrap(tp_offset(st, mod_id, 0), off, r.r_addend);
                if mod_id % 0x1_0000_0000 < 17 {
                    let second = tp_offset(st, mod_id, 0).wrapping_add(offset);
                    assert(w[0] == (RelocWrite::Pair { addr, first: res.fixed, second }));
                } else {
                    let desc = (arena.base + aligned(arena.cursor, 8)) as u64;
                    assert(w[0] == (RelocWrite::Pair {
                        addr: desc,
                        first: mod_id,
                        second: offset,
                    }));
                    assert(w[1] == (RelocWrite::Pair { addr, first: res.dynamic, second: desc }));
                    assert(writes_pair(w, desc, mod_id, offset));
                    assert(writes_pair(w, addr, res.dynamic, desc));
                }
            },
        }
    }
}

proof fn lemma_binds_more(
    w: Seq<RelocWrite>,
    before: Seq<RelocWrite>,
    behind: Seq<RelocWrite>,
    st: RtldState,
    lm: LinkMap,
    res: TlsdescResolvers,
    r: Elf64Rela,
)
    requires
        binds(w, st, lm, res, r),
    ensures
        binds(before + w + behind, st, lm, res, r),
{
    let all = before + w + behind;
    assert forall|x: RelocWrite| w.contains(x) implies #[trigger] all.contains(x) by {
        let j = choose|j: int| 0 <= j < w.len() && w[j] == x;
        assert(all[before.len() + j] == x);
    }
    let sym = (r.r_info / 0x1_0000_0000) as u32;
    if sym != 0 {
        if let Some((mod_id, off)) = tls_target(st, lm, sym) {
            if mod_id % 0x1_0000_0000 > 16 {
                let addr = ((lm.base + r.r_offset) % 0x1_0000_0000_0000_0000) as u64;
                let second = ((off + r.r_addend) % 0x1_0000_0000_0000_0000) as u64;
                let desc = choose|desc: u64|
                    writes_pair(w, addr, res.dynamic, desc) && #[trigger] writes_pair(
                        w,
                        desc,
                        mod_id,
                        second,
                    );
                assert(writes_pair(all, desc, mod_id, second));
            }
        }
    }
}

proof fn lemma_desc_table_binds(
    st: RtldState,
    lm: LinkMap,
    arch: Arch,
    res: TlsdescResolvers,
    relas: Seq<Elf64Rela>,
    i: int,
    arena: ArenaState,
    writes: Seq<RelocWrite>,
    k: int,
)
    requires
        0 <= i,
        desc_table(st, lm, arch, res, relas, i, arena, writes).2,
    ensures
        ({
            let all = desc_table(st, lm, arch, res, relas, i, arena, writes).0;
            &&& writes.len() <= all.len() && all.subrange(0, writes.len() as int) == writes
            &&& i <= k < relas.len() && rela_type(relas[k].r_info) == match arch {
                Arch::X86_64 => 36u32,
                Arch::Aarch64 => 1031,
            } ==> binds(all, st, lm, res, relas[k])
        }),
    decreases relas.len() - i,
{
    let all = desc_table(st, lm, arch, res, relas, i, arena, writes).0;
    if i < relas.len() {
        let w = desc_writes(st, lm, arena, arch, res, relas[i])->0;
        let next = writes + w;
        lemma_desc_table_binds(st, lm, arch, res, relas, i + 1, desc_arena(arena, w), next, k);
        assert(all.subrange(0, writes.len() as int) =~= writes) by {
            assert(next.subrange(0, writes.len() as int) =~= writes);
        }
        if k == i && rela_type(relas[k].r_info) == match arch {
            Arch::X86_64 => 36u32,
            Arch::Aarch64 => 1031,
        } {
            lemma_desc_binds(st, lm, arena, arch, res, relas[i]);
            let behind = all.skip(next.len() as int);
            assert(all =~= next + behind);
            lemma_binds_more(w, writes, behind, st, lm, res, relas[i]);
        }
    } else {
        assert(all =~= writes);
    }
}

/// Where the arena suffices, every TLS descriptor of both tables of an object is
/// bound.
pub proof fn lemma_every_descriptor_is_bound(
    st: RtldState,
    lm: LinkMap,
    arch: Arch,
    res: TlsdescResolvers,
    r: Elf64Rela,
)
    requires
        desc_outcome(st, lm, arch, res).2,
        lm.tables.rela@.contains(r) || lm.tables.jmprel@.contains(r),
        r.r_info as int % 0x1_0000_0000 == match arch {
            Arch::X86_64 => 36int,
            Arch::Aarch64 => 1031,
        },
    ensures
        binds(desc_outcome(st, lm, arch, res).0, st, lm, res, r),
{
    let rela = lm.tables.rela@;
    let jmprel = lm.tables.jmprel@;
    let (w1, a1, ok1) = desc_table(st, lm, arch, res, rela, 0, st.arena, Seq::empty());
    let all = desc_outcome(st, lm, arch, res).0;
    lemma_desc_table_binds(st, lm, arch, res, jmprel, 0, a1, w1, -1);
    if rela.contains(r) {
        let k = choose|k: int| 0 <= k < rela.len() && rela[k] == r;
        lemma_desc_table_binds(st, lm, arch, res, rela, 0, st.arena, Seq::empty(), k);
        assert(all =~= Seq::<RelocWrite>::empty() + w1 + all.skip(w1.len() as int));
        lemma_binds_more(w1, Seq::empty(), all.skip(w1.len() as int), st, lm, res, r);
    } else {
        let k = choose|k: int| 0 <= k < jmprel.len() && jmprel[k] == r;
        lemma_desc_table_binds(st, lm, arch, res, jmprel, 0, a1, w1, k);
    }
}

} // verus!
