//! Thread-local storage layout.
//!
//! Module-ID space: static modules registered at process startup occupy
//! `1..=TLS_MAX_MODULES` (set by [`tls_alloc_module`]). Modules registered at
//! runtime live at or above [`DYNAMIC_TLS_MODULE_BASE`].
use vstd::arithmetic::power2::*;
use vstd::bits::*;
use vstd::prelude::*;

verus! {

/// Maximum number of TLS modules tracked by the runtime linker.
pub const TLS_MAX_MODULES: usize = 16;

/// First module ID reserved for runtime-loaded TLS modules.
pub const DYNAMIC_TLS_MODULE_BASE: u32 = 17;

/// Which ID space a module ID belongs to.
#[derive(Clone, Copy, PartialEq, Eq, Debug, Structural)]
pub enum TlsModuleKind {
    /// Issued by [`tls_alloc_module`] at startup.
    Static,
    /// Issued for an object loaded at runtime.
    Dynamic,
}

/// The kind of a module ID.
pub open spec fn module_kind(mod_id: u32) -> TlsModuleKind {
    if mod_id >= 17 {
        TlsModuleKind::Dynamic
    } else {
        TlsModuleKind::Static
    }
}

/// Classifies a module ID by ID space.
pub fn tls_module_kind(mod_id: u32) -> (r: TlsModuleKind)
    ensures
        r == module_kind(mod_id),
{
    if mod_id >= DYNAMIC_TLS_MODULE_BASE {
        TlsModuleKind::Dynamic
    } else {
        TlsModuleKind::Static
    }
}

/// One shared object's static TLS segment (registered at startup).
#[derive(Clone, Copy, PartialEq, Eq, Debug, Structural)]
pub struct TlsModule {
    /// Load base address of the module.
    pub base: u64,
    /// File size of the TLS segment (initialized data).
    pub filesz: u64,
    /// Memory size of the TLS segment.
    pub memsz: u64,
    /// Alignment requirement.
    pub align: u64,
    /// Offset of this module's block within the static TLS area.
    pub offset: u64,
    /// 1-based module ID (0 = unused slot).
    pub mod_id: usize,
}

impl Default for TlsModule {
    fn default() -> (r: TlsModule)
        ensures
            r == (TlsModule { base: 0, filesz: 0, memsz: 0, align: 0, offset: 0, mod_id: 0 }),
    {
        TlsModule { base: 0, filesz: 0, memsz: 0, align: 0, offset: 0, mod_id: 0 }
    }
}

/// One runtime-registered TLS module. It has no fixed place in the static TLS
/// region: storage is allocated per thread on first use.
#[derive(Clone, Copy, PartialEq, Eq, Debug, Structural)]
pub struct DynamicTlsModule {
    /// Address of the initialized bytes.
    pub template: u64,
    /// Number of initialized bytes.
    pub filesz: u64,
    /// Total module size in bytes.
    pub memsz: u64,
    /// Required alignment.
    pub align: u64,
    /// Module ID, in the dynamic ID space.
    pub mod_id: u32,
}

impl DynamicTlsModule {
    pub fn empty() -> (r: DynamicTlsModule)
        ensures
            r == (DynamicTlsModule { template: 0, filesz: 0, memsz: 0, align: 1, mod_id: 0 }),
    {
        DynamicTlsModule { template: 0, filesz: 0, memsz: 0, align: 1, mod_id: 0 }
    }
}

/// An alignment of 0 means 1.
pub open spec fn effective_align(align: u64) -> u64 {
    if align == 0 {
        1
    } else {
        align
    }
}

/// Builds the descriptor of a runtime-loaded object's TLS.
pub fn register_dynamic_module(
    template: u64,
    filesz: u64,
    memsz: u64,
    align: u64,
    mod_id: u32,
) -> (r: DynamicTlsModule)
    ensures
        r == (DynamicTlsModule {
            template,
            filesz,
            memsz,
            align: effective_align(align),
            mod_id,
        }),
{
    DynamicTlsModule {
        template,
        filesz,
        memsz,
        align: if align == 0 {
            1
        } else {
            align
        },
        mod_id,
    }
}

/// Aggregate TLS layout for all loaded modules.
#[derive(Clone, Copy, PartialEq, Eq, Debug, Structural)]
pub struct TlsLayout {
    /// Total size of the static TLS region.
    pub size: u64,
    /// Overall alignment of the TLS region.
    pub align: u64,
    /// Number of allocated module slots.
    pub count: usize,
}

impl Default for TlsLayout {
    fn default() -> (r: TlsLayout)
        ensures
            r == (TlsLayout { size: 0, align: 0, count: 0 }),
    {
        TlsLayout { size: 0, align: 0, count: 0 }
    }
}

/// `val` rounded up to `align`, which is meant to be a power of two.
pub open spec fn aligned(val: u64, align: u64) -> u64 {
    ((val + align - 1) as u64) & !((align - 1) as u64)
}

/// Rounding up to a power of two gives the first multiple at or after the value.
pub proof fn lemma_aligned(val: u64, k: nat)
    requires
        k < 64,
        val + pow2(k) - 1 <= u64::MAX,
    ensures
        aligned(val, pow2(k) as u64) % pow2(k) as u64 == 0,
        val <= aligned(val, pow2(k) as u64) < val + pow2(k),
{
    lemma_pow2_pos(k);
    lemma_u64_pow2_no_overflow(k);
    let a = pow2(k) as u64;
    let x = (val + a - 1) as u64;
    let m = (a - 1) as u64;
    lemma_u64_low_bits_mask_is_mod(x, k);
    assert(low_bits_mask(k) == m);
    assert((x & !m) == x - (x & m)) by (bit_vector);
    let q = x as int / a as int;
    vstd::arithmetic::div_mod::lemma_fundamental_div_mod(x as int, a as int);
    vstd::arithmetic::div_mod::lemma_mod_bound(x as int, a as int);
    assert(x - x as int % a as int == a * q);
    vstd::arithmetic::div_mod::lemma_mod_multiples_basic(q, a as int);
    assert(q * a == a * q) by (nonlinear_arith);
}

/// The layout after a module is added.
pub open spec fn layout_with(layout: TlsLayout, memsz: u64, align: u64) -> TlsLayout {
    let a = effective_align(align);
    TlsLayout {
        size: aligned((layout.size + memsz) as u64, a),
        align: if a > layout.align {
            a
        } else {
            layout.align
        },
        count: (layout.count + 1) as usize,
    }
}

/// Whether a module can be placed without running out of addresses.
pub open spec fn tls_fits(layout: TlsLayout, memsz: u64, align: u64) -> bool {
    let a = effective_align(align);
    &&& layout.size + memsz + a - 1 <= u64::MAX
    &&& aligned((layout.size + memsz) as u64, a) >= memsz
}

/// Allocates a TLS module slot and updates the aggregate layout.
///
/// Returns the 1-based module ID, or `None` if all slots are used.
pub fn tls_alloc_module(
    layout: &mut TlsLayout,
    modules: &mut [TlsModule; TLS_MAX_MODULES],
    memsz: u64,
    filesz: u64,
    align: u64,
    base: u64,
) -> (r: Option<usize>)
    requires
        old(layout).count < 16 ==> tls_fits(*old(layout), memsz, align),
    ensures
        old(layout).count >= 16 ==> r is None && *final(layout) == *old(layout) && final(modules)@
            == old(modules)@,
        r matches Some(id) ==> module_kind(id as u32) == TlsModuleKind::Static,
        old(layout).count < 16 ==> {
            &&& r == Some((old(layout).count + 1) as usize)
            &&& *final(layout) == layout_with(*old(layout), memsz, align)
            &&& final(modules)@ == old(modules)@.update(
                old(layout).count as int,
                TlsModule {
                    base,
                    filesz,
                    memsz,
                    align: effective_align(align),
                    offset: (final(layout).size - memsz) as u64,
                    mod_id: (old(layout).count + 1) as usize,
                },
            )
        },
{
    if layout.count >= TLS_MAX_MODULES {
        return None;
    }
    let a: u64 = if align == 0 { 1 } else { align };
    let mod_id: usize = layout.count + 1;
    let size: u64 = align_up(layout.size + memsz, a);
    modules[layout.count] = TlsModule {
        base,
        filesz,
        memsz,
        align: a,
        offset: size - memsz,
        mod_id,
    };
    layout.size = size;
    if a > layout.align {
        layout.align = a;
    }
    layout.count = mod_id;
    Some(mod_id)
}

fn align_up(val: u64, align: u64) -> (r: u64)
    requires
        align > 0,
        val + align - 1 <= u64::MAX,
    ensures
        r == aligned(val, align),
{
    (val + (align - 1)) & !(align - 1)
}

/// With power-of-two alignments, a new block starts at or after the end of the
/// earlier ones, ends where the region ends, and the region grows to a multiple
/// of the alignment.
pub proof fn lemma_tls_blocks_disjoint(layout: TlsLayout, memsz: u64, align: u64, k: nat)
    requires
        k < 64,
        effective_align(align) == pow2(k),
        tls_fits(layout, memsz, align),
    ensures
        layout_with(layout, memsz, align).size - memsz >= layout.size,
        layout_with(layout, memsz, align).size % effective_align(align) == 0,
{
    lemma_aligned((layout.size + memsz) as u64, k);
}

/// Static module IDs never reach the dynamic ID space, and what is behind them is
/// all dynamic.
pub proof fn lemma_static_ids(id: u32)
    ensures
        module_kind(id) == TlsModuleKind::Static <==> id <= TLS_MAX_MODULES,
        module_kind(id) == TlsModuleKind::Dynamic <==> DYNAMIC_TLS_MODULE_BASE <= id,
{
}

/// With power-of-two alignments, the region wastes less than one alignment on a
/// new block, counts it, and is aligned for every block so far.
pub proof fn lemma_tls_region_is_tight(layout: TlsLayout, memsz: u64, align: u64, k: nat)
    requires
        k < 64,
        effective_align(align) == pow2(k),
        tls_fits(layout, memsz, align),
        layout.count < 16,
    ensures
        ({
            let after = layout_with(layout, memsz, align);
            &&& after.size < layout.size + memsz + if align == 0 {
                1
            } else {
                align
            }
            &&& after.count == layout.count + 1
            &&& after.align >= layout.align && after.align >= align
            &&& after.align == layout.align || after.align == align || after.align == 1
        }),
{
    lemma_aligned((layout.size + memsz) as u64, k);
}

} // verus!
