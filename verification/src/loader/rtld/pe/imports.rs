//! Import resolution of a PE image: what each import slot gets.
use crate::loader::bytes::{
    c_str, has_record, le_u32, le_u64, lemma_field_32, lemma_fields_of_rest, read_c_str, read_u32,
    read_u64,
};
use crate::loader::elf::header::Arch;
use crate::loader::elf::reloc::{stores, RelocWrite};
use crate::loader::pe::export::{
    export_address, has_string, lemma_has_string, lemma_module_index, module_index,
    module_matches, modules_view, resolve_import, ImportSymbol, ModuleView, PeModuleImage,
    SymbolView,
};
use crate::loader::pe::header::{dirs_count, dirs_offset, pe_error, validate, PeHeaders};
use crate::loader::pe::import::{
    descriptor_at, descriptors_from, hint_name_name, hint_name_rva, is_ordinal, iter_import_descriptors,
    ordinal,
};
use crate::loader::pe::types::{
    DataDirectory, DelayImportDescriptor, ImportDescriptor, DELAY_IMPORT_ATTR_RVA,
    IMAGE_DIRECTORY_ENTRY_DELAY_IMPORT, IMAGE_DIRECTORY_ENTRY_IMPORT,
};
use crate::loader::rtld::elf::tables::{tail, Memory};
use crate::loader::rtld::pe::modules::{
    find_loaded_module_idx, index_named, is_named, LoadedPeModule, LoadedPeModules, PeStartError,
};
use vstd::prelude::*;

verus! {

/// Data directory `idx` of a usable image, if it is declared and not empty.
pub open spec fn image_directory(s: Seq<u8>, idx: int) -> Option<DataDirectory> {
    let off = dirs_offset(s) + idx * 8;
    if idx >= dirs_count(s) || le_u32(s, off) == 0 || le_u32(s, off + 4) == 0 {
        None
    } else {
        Some(DataDirectory { virtual_address: le_u32(s, off), size: le_u32(s, off + 4) })
    }
}

/// A data directory of an image; an error if its headers are not usable.
pub fn find_directory(image: &[u8], arch: Arch, idx: usize) -> (r: Result<
    Option<DataDirectory>,
    PeStartError,
>)
    ensures
        r == if pe_error(image@, arch) is Some {
            Err::<Option<DataDirectory>, PeStartError>(PeStartError::InvalidImage)
        } else {
            Ok::<Option<DataDirectory>, PeStartError>(image_directory(image@, idx as int))
        },
{
    let pe: PeHeaders = match validate(image, arch) {
        Ok(h) => h,
        Err(_) => {
            return Err(PeStartError::InvalidImage);
        },
    };
    Ok(pe.data_directory(image, idx))
}

// ---------------------------------------------------------------------------
// Delay-import descriptors
// ---------------------------------------------------------------------------

/// The delay-import descriptor at `off`.
pub open spec fn delay_at(s: Seq<u8>, off: int) -> DelayImportDescriptor {
    DelayImportDescriptor {
        attributes: le_u32(s, off),
        name: le_u32(s, off + 4),
        module_handle: le_u32(s, off + 8),
        delay_import_address_table: le_u32(s, off + 12),
        delay_import_name_table: le_u32(s, off + 16),
        bound_delay_import_table: le_u32(s, off + 20),
        unload_delay_import_table: le_u32(s, off + 24),
        time_date_stamp: le_u32(s, off + 28),
    }
}

/// Whether a descriptor ends the table.
pub open spec fn ends_table(d: DelayImportDescriptor) -> bool {
    d.name == 0 && d.delay_import_address_table == 0 && d.delay_import_name_table == 0
}

/// The descriptors from `off` on, of which `n` are declared, up to the one that
/// ends the table or the end of the image.
pub open spec fn delays_from(s: Seq<u8>, off: int, n: int) -> Seq<DelayImportDescriptor>
    decreases n,
{
    if n <= 0 || off + 32 > s.len() || ends_table(delay_at(s, off)) {
        Seq::empty()
    } else {
        seq![delay_at(s, off)] + delays_from(s, off + 32, n - 1)
    }
}

/// The delay-import descriptors of an image.
pub open spec fn image_delays(s: Seq<u8>) -> Seq<DelayImportDescriptor> {
    match image_directory(s, 13) {
        Some(dir) => delays_from(s, dir.virtual_address as int, dir.size as int / 32),
        None => Seq::empty(),
    }
}

/// The import descriptors of an image.
pub open spec fn image_imports(s: Seq<u8>) -> Seq<ImportDescriptor> {
    match image_directory(s, 1) {
        Some(dir) => descriptors_from(s, dir.virtual_address as int, dir.size as int / 20),
        None => Seq::empty(),
    }
}

fn read_delays(image: &[u8], rva: u32, size: u32) -> (r: Vec<DelayImportDescriptor>)
    ensures
        r@ == delays_from(image@, rva as int, size as int / 32),
{
    let mut out: Vec<DelayImportDescriptor> = Vec::new();
    let mut off: u64 = rva as u64;
    let mut left: u32 = size / 32;
    let len: u64 = image.len() as u64;
    let ghost goal = delays_from(image@, rva as int, size as int / 32);
    assert(out@ + goal =~= goal);
    while left > 0 && off + 32 <= len
        invariant
            len == image.len(),
            left <= size / 32,
            off == rva + 32 * (size / 32 - left),
            goal == delays_from(image@, rva as int, size as int / 32),
            goal == out@ + delays_from(image@, off as int, left as int),
        decreases left,
    {
        let at: usize = off as usize;
        let d = DelayImportDescriptor {
            attributes: read_u32(image, at),
            name: read_u32(image, at + 4),
            module_handle: read_u32(image, at + 8),
            delay_import_address_table: read_u32(image, at + 12),
            delay_import_name_table: read_u32(image, at + 16),
            bound_delay_import_table: read_u32(image, at + 20),
            unload_delay_import_table: read_u32(image, at + 24),
            time_date_stamp: read_u32(image, at + 28),
        };
        assert(d == delay_at(image@, off as int));
        if d.name == 0 && d.delay_import_address_table == 0 && d.delay_import_name_table == 0 {
            assert(out@ + Seq::<DelayImportDescriptor>::empty() =~= out@);
            return out;
        }
        proof {
            let rest = delays_from(image@, off + 32, left - 1);
            assert(out@ + (seq![d] + rest) =~= out@.push(d) + rest);
        }
        out.push(d);
        off = off + 32;
        left = left - 1;
    }
    assert(out@ + Seq::<DelayImportDescriptor>::empty() =~= out@);
    out
}

/// The address that a field of a delay-import descriptor stands for: the
/// attribute tells whether it is relative to the image.
pub open spec fn delay_address(base: u64, attributes: u32, value: u64) -> u64 {
    if attributes & 1 != 0 {
        base.wrapping_add(value)
    } else {
        value
    }
}

fn delay_ptr(base: u64, attributes: u32, value: u64) -> (r: u64)
    ensures
        r == delay_address(base, attributes, value),
{
    if attributes & DELAY_IMPORT_ATTR_RVA != 0 {
        base.wrapping_add(value)
    } else {
        value
    }
}

/// The module name of a delay-import descriptor.
pub open spec fn delay_name(s: Seq<u8>, base: u64, d: DelayImportDescriptor) -> Seq<u8> {
    c_str(tail(base, s, delay_address(base, d.attributes, d.name as u64)), 0)
}

/// The module name of an import descriptor; empty if it is not in the image.
pub open spec fn import_name(s: Seq<u8>, d: ImportDescriptor) -> Seq<u8> {
    if d.name <= s.len() {
        c_str(s, d.name as int)
    } else {
        Seq::empty()
    }
}

// ---------------------------------------------------------------------------
// Import slots
// ---------------------------------------------------------------------------

/// The symbol that a lookup entry asks for; `None` if its name is not in the
/// image. With `delay` attributes the name is at an address as they say.
pub open spec fn thunk_symbol(s: Seq<u8>, base: u64, delay: Option<u32>, entry: u64) -> Option<
    SymbolView,
> {
    if entry >= 0x8000_0000_0000_0000 {
        Some(SymbolView::Ordinal((entry % 0x1_0000) as u16))
    } else {
        match delay {
            None => {
                let rva = entry % 0x1_0000_0000;
                if rva + 2 <= s.len() {
                    Some(SymbolView::Name(c_str(s, rva + 2)))
                } else {
                    None
                }
            },
            Some(attributes) => Some(
                SymbolView::Name(
                    c_str(
                        tail(
                            base,
                            s,
                            delay_address(base, attributes, entry).wrapping_add(2),
                        ),
                        0,
                    ),
                ),
            ),
        }
    }
}

/// What a lookup entry of the module `dll` resolves to.
pub open spec fn thunk_value(
    modules: Seq<ModuleView>,
    arch: Arch,
    dll: Seq<u8>,
    symbol: Option<SymbolView>,
) -> Option<u64> {
    match symbol {
        None => None,
        Some(sym) => match module_index(modules, dll, 0) {
            None => None,
            Some(i) => export_address(modules, arch, modules[i], sym, 0),
        },
    }
}

/// The error for an entry that does not resolve.
pub open spec fn unresolved(entry: u64) -> PeStartError {
    if entry >= 0x8000_0000_0000_0000 {
        PeStartError::UnresolvedOrdinal
    } else {
        PeStartError::UnresolvedName
    }
}

/// The writes to the slots of one module, from slot `k` on, behind `writes`. The
/// lookup table is at offset `ilt` of `lookup` and ends with a zero entry or
/// where the data end; the slots are at `iat`.
pub open spec fn slot_writes(
    modules: Seq<ModuleView>,
    arch: Arch,
    s: Seq<u8>,
    base: u64,
    delay: Option<u32>,
    dll: Seq<u8>,
    lookup: Seq<u8>,
    iat: u64,
    k: int,
    writes: Seq<RelocWrite>,
) -> (Seq<RelocWrite>, Option<PeStartError>)
    decreases lookup.len() - k * 8,
{
    let entry = le_u64(lookup, k * 8);
    if k < 0 || k * 8 + 8 > lookup.len() || entry == 0 {
        (writes, None)
    } else {
        match thunk_value(modules, arch, dll, thunk_symbol(s, base, delay, entry)) {
            None => (writes, Some(unresolved(entry))),
            Some(value) => slot_writes(
                modules,
                arch,
                s,
                base,
                delay,
                dll,
                lookup,
                iat,
                k + 1,
                writes.push(
                    RelocWrite::Word { addr: iat.wrapping_add((k * 8) as u64), value },
                ),
            ),
        }
    }
}

fn resolve_thunk(
    modules: &[PeModuleImage<'_>],
    arch: Arch,
    image: &[u8],
    base: u64,
    delay: Option<u32>,
    dll: &[u8],
    entry: u64,
) -> (r: Option<u64>)
    ensures
        r == thunk_value(
            modules_view(modules@),
            arch,
            dll@,
            thunk_symbol(image@, base, delay, entry),
        ),
{
    if is_ordinal(entry) {
        return resolve_import(modules, arch, dll, ImportSymbol::Ordinal(ordinal(entry)));
    }
    match delay {
        None => match hint_name_name(image, hint_name_rva(entry)) {
            Some(name) => resolve_import(modules, arch, dll, ImportSymbol::Name(name)),
            None => None,
        },
        Some(attributes) => {
            let at: u64 = delay_ptr(base, attributes, entry).wrapping_add(2);
            let mem = Memory { start: base, bytes: image };
            let name: &[u8] = read_c_str(mem.from(at), 0);
            resolve_import(modules, arch, dll, ImportSymbol::Name(name))
        },
    }
}

fn resolve_slots(
    modules: &[PeModuleImage<'_>],
    arch: Arch,
    image: &[u8],
    base: u64,
    delay: Option<u32>,
    dll: &[u8],
    lookup: &[u8],
    iat: u64,
    writes: &mut Vec<RelocWrite>,
) -> (r: Option<PeStartError>)
    ensures
        (final(writes)@, r) == slot_writes(
            modules_view(modules@),
            arch,
            image@,
            base,
            delay,
            dll@,
            lookup@,
            iat,
            0,
            old(writes)@,
        ),
{
    let n: usize = lookup.len() / 8;
    let ghost goal = slot_writes(
        modules_view(modules@),
        arch,
        image@,
        base,
        delay,
        dll@,
        lookup@,
        iat,
        0,
        old(writes)@,
    );
    let mut k: usize = 0;
    while k < n
        invariant
            n == lookup@.len() / 8,
            k <= n,
            lookup.len() <= usize::MAX,
            goal == slot_writes(
                modules_view(modules@),
                arch,
                image@,
                base,
                delay,
                dll@,
                lookup@,
                iat,
                0,
                old(writes)@,
            ),
            goal == slot_writes(
                modules_view(modules@),
                arch,
                image@,
                base,
                delay,
                dll@,
                lookup@,
                iat,
                k as int,
                writes@,
            ),
        decreases n - k,
    {
        let entry: u64 = read_u64(lookup, k * 8);
        if entry == 0 {
            return None;
        }
        match resolve_thunk(modules, arch, image, base, delay, dll, entry) {
            Some(value) => {
                writes.push(
                    RelocWrite::Word { addr: iat.wrapping_add(k as u64 * 8), value },
                );
            },
            None => {
                return Some(
                    if is_ordinal(entry) {
                        PeStartError::UnresolvedOrdinal
                    } else {
                        PeStartError::UnresolvedName
                    },
                );
            },
        }
        k = k + 1;
    }
    None
}

/// Offset of the lookup table of an import descriptor: the address table where
/// it has none.
pub open spec fn lookup_rva(d: ImportDescriptor) -> u32 {
    if d.original_first_thunk != 0 {
        d.original_first_thunk
    } else {
        d.first_thunk
    }
}

/// What is in an image from an offset on.
pub open spec fn from_rva(s: Seq<u8>, rva: int) -> Seq<u8> {
    if rva <= s.len() {
        s.skip(rva)
    } else {
        Seq::empty()
    }
}

/// The writes of the import descriptors `descs`, behind `writes`. Every module
/// that is imported from has to be loaded.
pub open spec fn import_writes(
    loaded: Seq<LoadedPeModule>,
    modules: Seq<ModuleView>,
    arch: Arch,
    s: Seq<u8>,
    base: u64,
    descs: Seq<ImportDescriptor>,
    writes: Seq<RelocWrite>,
) -> (Seq<RelocWrite>, Option<PeStartError>)
    decreases descs.len(),
{
    if descs.len() == 0 {
        (writes, None)
    } else {
        let d = descs[0];
        if index_named(loaded, import_name(s, d), 0) is None {
            (writes, Some(PeStartError::NotPreloaded))
        } else {
            let (next, error) = slot_writes(
                modules,
                arch,
                s,
                base,
                None,
                import_name(s, d),
                from_rva(s, lookup_rva(d) as int),
                base.wrapping_add(d.first_thunk as u64),
                0,
                writes,
            );
            match error {
                Some(e) => (next, Some(e)),
                None => import_writes(loaded, modules, arch, s, base, descs.skip(1), next),
            }
        }
    }
}

/// Resolves the imports of the image at `base`: what its slots get, up to the
/// first symbol that does not resolve.
fn resolve_imports(
    loaded: &LoadedPeModules,
    modules: &[PeModuleImage<'_>],
    arch: Arch,
    image: &[u8],
    base: u64,
    dir: &DataDirectory,
    writes: &mut Vec<RelocWrite>,
) -> (r: Option<PeStartError>)
    requires
        loaded.wf(),
    ensures
        (final(writes)@, r) == import_writes(
            loaded.modules@,
            modules_view(modules@),
            arch,
            image@,
            base,
            descriptors_from(image@, dir.virtual_address as int, dir.size as int / 20),
            old(writes)@,
        ),
{
    let mut it = iter_import_descriptors(image, base, dir.virtual_address, dir.size);
    let ghost goal = import_writes(
        loaded.modules@,
        modules_view(modules@),
        arch,
        image@,
        base,
        it.remaining(),
        old(writes)@,
    );
    loop
        invariant
            loaded.wf(),
            it.image() == image@,
            goal == import_writes(
                loaded.modules@,
                modules_view(modules@),
                arch,
                image@,
                base,
                descriptors_from(image@, dir.virtual_address as int, dir.size as int / 20),
                old(writes)@,
            ),
            goal == import_writes(
                loaded.modules@,
                modules_view(modules@),
                arch,
                image@,
                base,
                it.remaining(),
                writes@,
            ),
        decreases it.remaining().len(),
    {
        match it.next() {
            None => {
                return None;
            },
            Some(entry) => {
                let dll: &[u8] = entry.dll_name();
                if find_loaded_module_idx(loaded, dll).is_none() {
                    return Some(PeStartError::NotPreloaded);
                }
                let rva: u32 = entry.lookup_table_rva();
                let lookup: &[u8] = bytes_from(image, rva as u64);
                let iat: u64 = base.wrapping_add(entry.desc.first_thunk as u64);
                match resolve_slots(modules, arch, image, base, None, dll, lookup, iat, writes) {
                    Some(e) => {
                        return Some(e);
                    },
                    None => {},
                }
            },
        }
    }
}

fn bytes_from(image: &[u8], rva: u64) -> (r: &[u8])
    ensures
        r@ == from_rva(image@, rva as int),
{
    if rva <= image.len() as u64 {
        let r: &[u8] = vstd::slice::slice_subrange(image, rva as usize, image.len());
        assert(r@ =~= from_rva(image@, rva as int));
        r
    } else {
        let r: &[u8] = vstd::slice::slice_subrange(image, 0, 0);
        assert(r@ =~= Seq::<u8>::empty());
        r
    }
}

/// The field that holds the lookup table of a delay-import descriptor.
pub open spec fn delay_lookup(d: DelayImportDescriptor) -> u32 {
    if d.delay_import_name_table != 0 {
        d.delay_import_name_table
    } else {
        d.delay_import_address_table
    }
}

/// The writes of the delay-import descriptors `descs`, behind `writes`: for each
/// the module handle, then the slots.
pub open spec fn delay_writes(
    loaded: Seq<LoadedPeModule>,
    modules: Seq<ModuleView>,
    arch: Arch,
    s: Seq<u8>,
    base: u64,
    descs: Seq<DelayImportDescriptor>,
    writes: Seq<RelocWrite>,
) -> (Seq<RelocWrite>, Option<PeStartError>)
    decreases descs.len(),
{
    if descs.len() == 0 {
        (writes, None)
    } else {
        let d = descs[0];
        let dll = delay_name(s, base, d);
        match index_named(loaded, dll, 0) {
            None => (writes, Some(PeStartError::NotPreloaded)),
            Some(i) => {
                let handled = if d.module_handle != 0 {
                    writes.push(
                        RelocWrite::Word {
                            addr: delay_address(base, d.attributes, d.module_handle as u64),
                            value: loaded[i].base,
                        },
                    )
                } else {
                    writes
                };
                let (next, error) = slot_writes(
                    modules,
                    arch,
                    s,
                    base,
                    Some(d.attributes),
                    dll,
                    tail(base, s, delay_address(base, d.attributes, delay_lookup(d) as u64)),
                    delay_address(base, d.attributes, d.delay_import_address_table as u64),
                    0,
                    handled,
                );
                match error {
                    Some(e) => (next, Some(e)),
                    None => delay_writes(loaded, modules, arch, s, base, descs.skip(1), next),
                }
            },
        }
    }
}

fn resolve_delay_imports(
    loaded: &LoadedPeModules,
    modules: &[PeModuleImage<'_>],
    arch: Arch,
    image: &[u8],
    base: u64,
    dir: &DataDirectory,
    writes: &mut Vec<RelocWrite>,
) -> (r: Option<PeStartError>)
    requires
        loaded.wf(),
    ensures
        (final(writes)@, r) == delay_writes(
            loaded.modules@,
            modules_view(modules@),
            arch,
            image@,
            base,
            delays_from(image@, dir.virtual_address as int, dir.size as int / 32),
            old(writes)@,
        ),
{
    let descs: Vec<DelayImportDescriptor> = read_delays(image, dir.virtual_address, dir.size);
    let mem = Memory { start: base, bytes: image };
    let ghost goal = delay_writes(
        loaded.modules@,
        modules_view(modules@),
        arch,
        image@,
        base,
        descs@,
        old(writes)@,
    );
    let mut i: usize = 0;
    assert(descs@.skip(0) =~= descs@);
    while i < descs.len()
        invariant
            loaded.wf(),
            i <= descs@.len(),
            mem.start == base,
            mem.bytes@ == image@,
            descs@ == delays_from(image@, dir.virtual_address as int, dir.size as int / 32),
            goal == delay_writes(
                loaded.modules@,
                modules_view(modules@),
                arch,
                image@,
                base,
                descs@,
                old(writes)@,
            ),
            goal == delay_writes(
                loaded.modules@,
                modules_view(modules@),
                arch,
                image@,
                base,
                descs@.skip(i as int),
                writes@,
            ),
        decreases descs@.len() - i,
    {
        let d: DelayImportDescriptor = descs[i];
        assert(descs@.skip(i as int)[0] == d);
        assert(descs@.skip(i as int).skip(1) =~= descs@.skip(i + 1));
        let dll: &[u8] = read_c_str(mem.from(delay_ptr(base, d.attributes, d.name as u64)), 0);
        let at: usize = match find_loaded_module_idx(loaded, dll) {
            Some(at) => at,
            None => {
                return Some(PeStartError::NotPreloaded);
            },
        };
        if d.module_handle != 0 {
            writes.push(
                RelocWrite::Word {
                    addr: delay_ptr(base, d.attributes, d.module_handle as u64),
                    value: loaded.modules[at].base,
                },
            );
        }
        let table: u32 = if d.delay_import_name_table != 0 {
            d.delay_import_name_table
        } else {
            d.delay_import_address_table
        };
        let lookup: &[u8] = mem.from(delay_ptr(base, d.attributes, table as u64));
        let iat: u64 = delay_ptr(base, d.attributes, d.delay_import_address_table as u64);
        match resolve_slots(
            modules,
            arch,
            image,
            base,
            Some(d.attributes),
            dll,
            lookup,
            iat,
            writes,
        ) {
            Some(e) => {
                return Some(e);
            },
            None => {},
        }
        i = i + 1;
    }
    assert(descs@.skip(i as int).len() == 0);
    None
}

/// What linking one image writes: the slots of its imports, then those of its
/// delay imports; and the error if one does not resolve.
pub open spec fn image_writes(
    loaded: Seq<LoadedPeModule>,
    modules: Seq<ModuleView>,
    arch: Arch,
    s: Seq<u8>,
    base: u64,
) -> (Seq<RelocWrite>, Option<PeStartError>) {
    if pe_error(s, arch) is Some {
        (Seq::empty(), Some(PeStartError::InvalidImage))
    } else {
        let (first, error) = import_writes(
            loaded,
            modules,
            arch,
            s,
            base,
            image_imports(s),
            Seq::empty(),
        );
        match error {
            Some(e) => (first, Some(e)),
            None => delay_writes(loaded, modules, arch, s, base, image_delays(s), first),
        }
    }
}

/// Links one image: what its import and delay-import slots get. The writes
/// listed are those before the first symbol that does not resolve.
pub fn link_image(
    loaded: &LoadedPeModules,
    modules: &[PeModuleImage<'_>],
    arch: Arch,
    image: &[u8],
    base: u64,
) -> (r: (Vec<RelocWrite>, Result<(), PeStartError>))
    requires
        loaded.wf(),
    ensures
        ({
            let (writes, error) = image_writes(
                loaded.modules@,
                modules_view(modules@),
                arch,
                image@,
                base,
            );
            r.0@ == writes && r.1 == match error {
                None => Ok::<(), PeStartError>(()),
                Some(e) => Err::<(), PeStartError>(e),
            }
        }),
{
    let mut writes: Vec<RelocWrite> = Vec::new();
    assert(writes@ =~= Seq::empty());
    let imports: Option<DataDirectory> = match find_directory(
        image,
        arch,
        IMAGE_DIRECTORY_ENTRY_IMPORT,
    ) {
        Ok(d) => d,
        Err(e) => {
            return (writes, Err(e));
        },
    };
    match imports {
        Some(dir) => {
            match resolve_imports(loaded, modules, arch, image, base, &dir, &mut writes) {
                Some(e) => {
                    return (writes, Err(e));
                },
                None => {},
            }
        },
        None => {},
    }
    let delays: Option<DataDirectory> = match find_directory(
        image,
        arch,
        IMAGE_DIRECTORY_ENTRY_DELAY_IMPORT,
    ) {
        Ok(d) => d,
        Err(e) => {
            return (writes, Err(e));
        },
    };
    match delays {
        Some(dir) => {
            match resolve_delay_imports(loaded, modules, arch, image, base, &dir, &mut writes) {
                Some(e) => {
                    return (writes, Err(e));
                },
                None => {},
            }
        },
        None => {},
    }
    (writes, Ok(()))
}

// ---------------------------------------------------------------------------
// Dependencies
// ---------------------------------------------------------------------------

/// The names of the modules that an image needs: its imports, then its delay
/// imports.
pub open spec fn needed_modules(s: Seq<u8>, base: u64) -> Seq<Seq<u8>> {
    let imports = image_imports(s);
    let delays = image_delays(s);
    Seq::new(imports.len(), |i: int| import_name(s, imports[i])) + Seq::new(
        delays.len(),
        |i: int| delay_name(s, base, delays[i]),
    )
}

/// The indices of the modules with the given names, from name `k` on, behind
/// `found`; `None` if one is not loaded.
pub open spec fn module_indices(
    loaded: Seq<LoadedPeModule>,
    names: Seq<Seq<u8>>,
    k: int,
    found: Seq<int>,
) -> Option<Seq<int>>
    decreases names.len() - k,
{
    if k < 0 || k >= names.len() {
        Some(found)
    } else {
        match index_named(loaded, names[k], 0) {
            None => None,
            Some(i) => module_indices(loaded, names, k + 1, found.push(i)),
        }
    }
}

/// The indices in a list.
pub open spec fn as_ints(v: Seq<usize>) -> Seq<int> {
    Seq::new(v.len(), |i: int| v[i] as int)
}

fn add_module(loaded: &LoadedPeModules, name: &[u8], found: &mut Vec<usize>) -> (r: bool)
    requires
        loaded.wf(),
        forall|i: int| 0 <= i < old(found)@.len() ==> old(found)@[i] < loaded.modules@.len(),
    ensures
        match index_named(loaded.modules@, name@, 0) {
            None => !r && final(found)@ == old(found)@,
            Some(i) => r && as_ints(final(found)@) == as_ints(old(found)@).push(i),
        },
        forall|i: int| 0 <= i < final(found)@.len() ==> final(found)@[i] < loaded.modules@.len(),
{
    match find_loaded_module_idx(loaded, name) {
        Some(i) => {
            found.push(i);
            assert(as_ints(found@) =~= as_ints(old(found)@).push(i as int));
            true
        },
        None => false,
    }
}

/// The modules that the image at `base` needs, as indices; an error if one is
/// not loaded or the image is not usable.
pub fn image_dependencies(loaded: &LoadedPeModules, arch: Arch, image: &[u8], base: u64) -> (r:
    Result<Vec<usize>, PeStartError>)
    requires
        loaded.wf(),
    ensures
        if pe_error(image@, arch) is Some {
            r is Err && r->Err_0 == PeStartError::InvalidImage
        } else {
            match module_indices(
                loaded.modules@,
                needed_modules(image@, base),
                0,
                Seq::empty(),
            ) {
                None => r is Err && r->Err_0 == PeStartError::NotPreloaded,
                Some(indices) => r is Ok && as_ints(r->Ok_0@) == indices && forall|i: int|
                    0 <= i < r->Ok_0@.len() ==> r->Ok_0@[i] < loaded.modules@.len(),
            }
        },
{
    let imports: Option<DataDirectory> = match find_directory(
        image,
        arch,
        IMAGE_DIRECTORY_ENTRY_IMPORT,
    ) {
        Ok(d) => d,
        Err(e) => {
            return Err(e);
        },
    };
    let delays: Option<DataDirectory> = match find_directory(
        image,
        arch,
        IMAGE_DIRECTORY_ENTRY_DELAY_IMPORT,
    ) {
        Ok(d) => d,
        Err(e) => {
            return Err(e);
        },
    };
    let ghost names = needed_modules(image@, base);
    let ghost all = image_imports(image@);
    let ghost all_delays = image_delays(image@);
    let mut found: Vec<usize> = Vec::new();
    assert(as_ints(found@) =~= Seq::empty());
    let ghost goal = module_indices(loaded.modules@, names, 0, Seq::empty());
    let ghost mut k: int = 0;
    match imports {
        Some(dir) => {
            let mut it = iter_import_descriptors(image, base, dir.virtual_address, dir.size);
            assert(all.skip(0) =~= all);
            let mut more: bool = true;
            while more
                invariant
                    loaded.wf(),
                    it.image() == image@,
                    0 <= k <= all.len(),
                    all == image_imports(image@),
                    names == needed_modules(image@, base),
                    it.remaining() == all.skip(k),
                    !more ==> k == all.len(),
                    pe_error(image@, arch) is None,
                    goal == module_indices(loaded.modules@, names, 0, Seq::empty()),
                    goal == module_indices(loaded.modules@, names, k, as_ints(found@)),
                    forall|i: int| 0 <= i < found@.len() ==> found@[i] < loaded.modules@.len(),
                decreases it.remaining().len(), if more { 1int } else { 0int },
            {
                match it.next() {
                    None => {
                        more = false;
                    },
                    Some(entry) => {
                        assert(all.skip(k)[0] == all[k]);
                        assert(names[k] == import_name(image@, all[k]));
                        assert(all.skip(k).skip(1) =~= all.skip(k + 1));
                        if !add_module(loaded, entry.dll_name(), &mut found) {
                            return Err(PeStartError::NotPreloaded);
                        }
                        proof {
                            k = k + 1;
                        }
                    },
                }
            }
        },
        None => {},
    }
    assert(k == all.len());
    match delays {
        Some(dir) => {
            let descs: Vec<DelayImportDescriptor> = read_delays(
                image,
                dir.virtual_address,
                dir.size,
            );
            let mem = Memory { start: base, bytes: image };
            let mut i: usize = 0;
            while i < descs.len()
                invariant
                    loaded.wf(),
                    i <= descs@.len(),
                    mem.start == base,
                    mem.bytes@ == image@,
                    descs@ == all_delays,
                    all == image_imports(image@),
                    all_delays == image_delays(image@),
                    names == needed_modules(image@, base),
                    k == all.len() + i,
                    pe_error(image@, arch) is None,
                    goal == module_indices(loaded.modules@, names, 0, Seq::empty()),
                    goal == module_indices(loaded.modules@, names, k, as_ints(found@)),
                    forall|j: int| 0 <= j < found@.len() ==> found@[j] < loaded.modules@.len(),
                decreases descs@.len() - i,
            {
                let d: DelayImportDescriptor = descs[i];
                assert(names[k] == delay_name(image@, base, all_delays[i as int]));
                let dll: &[u8] = read_c_str(
                    mem.from(delay_ptr(base, d.attributes, d.name as u64)),
                    0,
                );
                if !add_module(loaded, dll, &mut found) {
                    return Err(PeStartError::NotPreloaded);
                }
                i = i + 1;
                proof {
                    k = k + 1;
                }
            }
        },
        None => {},
    }
    assert(k == names.len());
    Ok(found)
}

// ---------------------------------------------------------------------------
// What linking an image does
// ---------------------------------------------------------------------------

/// Whether a list of writes starts with another one.
spec fn continues(writes: Seq<RelocWrite>, done: Seq<RelocWrite>) -> bool {
    writes.len() <= done.len() && forall|j: int|
        0 <= j < writes.len() ==> done[j] == #[trigger] writes[j]
}

proof fn lemma_continues(a: Seq<RelocWrite>, b: Seq<RelocWrite>, c: Seq<RelocWrite>)
    requires
        continues(a, b),
        continues(b, c),
    ensures
        continues(a, c),
{
    assert forall|j: int| 0 <= j < a.len() implies c[j] == #[trigger] a[j] by {
        assert(b[j] == a[j]);
    }
}

proof fn lemma_slots_continue(
    modules: Seq<ModuleView>,
    arch: Arch,
    s: Seq<u8>,
    base: u64,
    delay: Option<u32>,
    dll: Seq<u8>,
    lookup: Seq<u8>,
    iat: u64,
    k: int,
    writes: Seq<RelocWrite>,
)
    ensures
        continues(
            writes,
            slot_writes(modules, arch, s, base, delay, dll, lookup, iat, k, writes).0,
        ),
    decreases lookup.len() - k * 8,
{
    let entry = le_u64(lookup, k * 8);
    if !(k < 0 || k * 8 + 8 > lookup.len() || entry == 0) {
        match thunk_value(modules, arch, dll, thunk_symbol(s, base, delay, entry)) {
            None => {},
            Some(value) => {
                let next = writes.push(
                    RelocWrite::Word { addr: iat.wrapping_add((k * 8) as u64), value },
                );
                lemma_slots_continue(
                    modules,
                    arch,
                    s,
                    base,
                    delay,
                    dll,
                    lookup,
                    iat,
                    k + 1,
                    next,
                );
                let done = slot_writes(
                    modules,
                    arch,
                    s,
                    base,
                    delay,
                    dll,
                    lookup,
                    iat,
                    k,
                    writes,
                ).0;
                assert(continues(writes, next));
                lemma_continues(writes, next, done);
            },
        }
    }
}

/// Slot `j` of a table is bound if the table is.
proof fn lemma_slot_is_bound(
    modules: Seq<ModuleView>,
    arch: Arch,
    s: Seq<u8>,
    base: u64,
    delay: Option<u32>,
    dll: Seq<u8>,
    lookup: Seq<u8>,
    iat: u64,
    k: int,
    writes: Seq<RelocWrite>,
    j: int,
)
    requires
        0 <= k <= j,
        j * 8 + 8 <= lookup.len() <= u64::MAX,
        forall|i: int| 0 <= i <= j ==> #[trigger] le_u64(lookup, i * 8) != 0,
        slot_writes(modules, arch, s, base, delay, dll, lookup, iat, k, writes).1 is None,
    ensures
        ({
            let value = thunk_value(
                modules,
                arch,
                dll,
                thunk_symbol(s, base, delay, le_u64(lookup, j * 8)),
            );
            let done = slot_writes(
                modules,
                arch,
                s,
                base,
                delay,
                dll,
                lookup,
                iat,
                k,
                writes,
            ).0;
            value is Some && exists|w: int|
                0 <= w < done.len() && stores(#[trigger] done[w], iat + 8 * j, value->0 as int)
        }),
    decreases j - k,
{
    let entry = le_u64(lookup, k * 8);
    assert(entry != 0);
    let value = thunk_value(modules, arch, dll, thunk_symbol(s, base, delay, entry))->0;
    let next = writes.push(RelocWrite::Word { addr: iat.wrapping_add((k * 8) as u64), value });
    if k == j {
        lemma_slots_continue(modules, arch, s, base, delay, dll, lookup, iat, k + 1, next);
        let done = slot_writes(modules, arch, s, base, delay, dll, lookup, iat, k, writes).0;
        let w = writes.len() as int;
        assert(next[w] == next.last());
        assert(stores(done[w], iat + 8 * j, value as int));
    } else {
        lemma_slot_is_bound(modules, arch, s, base, delay, dll, lookup, iat, k + 1, next, j);
    }
}

proof fn lemma_imports_continue(
    loaded: Seq<LoadedPeModule>,
    modules: Seq<ModuleView>,
    arch: Arch,
    s: Seq<u8>,
    base: u64,
    descs: Seq<ImportDescriptor>,
    writes: Seq<RelocWrite>,
)
    ensures
        continues(writes, import_writes(loaded, modules, arch, s, base, descs, writes).0),
    decreases descs.len(),
{
    if descs.len() > 0 {
        let d = descs[0];
        if index_named(loaded, import_name(s, d), 0) is Some {
            let lookup = from_rva(s, lookup_rva(d) as int);
            let iat = base.wrapping_add(d.first_thunk as u64);
            lemma_slots_continue(
                modules,
                arch,
                s,
                base,
                None,
                import_name(s, d),
                lookup,
                iat,
                0,
                writes,
            );
            let (next, error) = slot_writes(
                modules,
                arch,
                s,
                base,
                None,
                import_name(s, d),
                lookup,
                iat,
                0,
                writes,
            );
            if error is None {
                lemma_imports_continue(loaded, modules, arch, s, base, descs.skip(1), next);
                lemma_continues(
                    writes,
                    next,
                    import_writes(loaded, modules, arch, s, base, descs, writes).0,
                );
            }
        }
    }
}

proof fn lemma_delays_continue(
    loaded: Seq<LoadedPeModule>,
    modules: Seq<ModuleView>,
    arch: Arch,
    s: Seq<u8>,
    base: u64,
    descs: Seq<DelayImportDescriptor>,
    writes: Seq<RelocWrite>,
)
    ensures
        continues(writes, delay_writes(loaded, modules, arch, s, base, descs, writes).0),
    decreases descs.len(),
{
    if descs.len() > 0 {
        let d = descs[0];
        let dll = delay_name(s, base, d);
        let done = delay_writes(loaded, modules, arch, s, base, descs, writes).0;
        match index_named(loaded, dll, 0) {
            None => {},
            Some(i) => {
                let handled = if d.module_handle != 0 {
                    writes.push(
                        RelocWrite::Word {
                            addr: delay_address(base, d.attributes, d.module_handle as u64),
                            value: loaded[i].base,
                        },
                    )
                } else {
                    writes
                };
                let lookup = tail(
                    base,
                    s,
                    delay_address(base, d.attributes, delay_lookup(d) as u64),
                );
                let iat = delay_address(base, d.attributes, d.delay_import_address_table as u64);
                assert(continues(writes, handled));
                lemma_slots_continue(
                    modules,
                    arch,
                    s,
                    base,
                    Some(d.attributes),
                    dll,
                    lookup,
                    iat,
                    0,
                    handled,
                );
                let (next, error) = slot_writes(
                    modules,
                    arch,
                    s,
                    base,
                    Some(d.attributes),
                    dll,
                    lookup,
                    iat,
                    0,
                    handled,
                );
                lemma_continues(writes, handled, next);
                if error is None {
                    lemma_delays_continue(loaded, modules, arch, s, base, descs.skip(1), next);
                    lemma_continues(writes, next, done);
                }
            },
        }
    }
}

proof fn lemma_descriptor_slot(
    loaded: Seq<LoadedPeModule>,
    modules: Seq<ModuleView>,
    arch: Arch,
    s: Seq<u8>,
    base: u64,
    descs: Seq<ImportDescriptor>,
    writes: Seq<RelocWrite>,
    di: int,
    j: int,
)
    requires
        0 <= di < descs.len(),
        0 <= j,
        s.len() <= u64::MAX,
        import_writes(loaded, modules, arch, s, base, descs, writes).1 is None,
        ({
            let lookup = from_rva(s, lookup_rva(descs[di]) as int);
            &&& j * 8 + 8 <= lookup.len()
            &&& forall|i: int| 0 <= i <= j ==> #[trigger] le_u64(lookup, i * 8) != 0
        }),
    ensures
        ({
            let d = descs[di];
            let lookup = from_rva(s, lookup_rva(d) as int);
            let value = thunk_value(
                modules,
                arch,
                import_name(s, d),
                thunk_symbol(s, base, None, le_u64(lookup, j * 8)),
            );
            let done = import_writes(loaded, modules, arch, s, base, descs, writes).0;
            value is Some && exists|w: int|
                0 <= w < done.len() && stores(
                    #[trigger] done[w],
                    base + d.first_thunk + 8 * j,
                    value->0 as int,
                )
        }),
    decreases di,
{
    let d0 = descs[0];
    let lookup0 = from_rva(s, lookup_rva(d0) as int);
    let iat0 = base.wrapping_add(d0.first_thunk as u64);
    let (next, error) = slot_writes(
        modules,
        arch,
        s,
        base,
        None,
        import_name(s, d0),
        lookup0,
        iat0,
        0,
        writes,
    );
    let done = import_writes(loaded, modules, arch, s, base, descs, writes).0;
    if di == 0 {
        lemma_slot_is_bound(
            modules,
            arch,
            s,
            base,
            None,
            import_name(s, d0),
            lookup0,
            iat0,
            0,
            writes,
            j,
        );
        lemma_imports_continue(loaded, modules, arch, s, base, descs.skip(1), next);
        let value = thunk_value(
            modules,
            arch,
            import_name(s, d0),
            thunk_symbol(s, base, None, le_u64(lookup0, j * 8)),
        )->0;
        let w = choose|w: int|
            0 <= w < next.len() && stores(#[trigger] next[w], iat0 + 8 * j, value as int);
        assert(done[w] == next[w]);
        assert(stores(done[w], base + d0.first_thunk + 8 * j, value as int));
    } else {
        assert(descs.skip(1)[di - 1] == descs[di]);
        lemma_descriptor_slot(loaded, modules, arch, s, base, descs.skip(1), next, di - 1, j);
    }
}

proof fn lemma_descriptors(s: Seq<u8>, off: int, n: int, di: int)
    requires
        0 <= di < n,
        off + 20 * di + 20 <= s.len(),
        forall|j: int|
            0 <= j <= di ==> le_u32(s, #[trigger] (off + 20 * j) + 12) != 0 || le_u32(
                s,
                off + 20 * j + 16,
            ) != 0,
    ensures
        descriptors_from(s, off, n).len() > di,
        descriptors_from(s, off, n)[di] == descriptor_at(s, off + 20 * di),
    decreases di,
{
    assert(le_u32(s, (off + 20 * 0) + 12) != 0 || le_u32(s, off + 20 * 0 + 16) != 0);
    if di > 0 {
        assert forall|j: int| 0 <= j <= di - 1 implies le_u32(
            s,
            #[trigger] (off + 20 + 20 * j) + 12,
        ) != 0 || le_u32(s, off + 20 + 20 * j + 16) != 0 by {
            assert(off + 20 + 20 * j == off + 20 * (j + 1));
        }
        lemma_descriptors(s, off + 20, n - 1, di - 1);
    }
}

/// Linking an image binds every slot of every import descriptor: slot `j` of the
/// descriptor gets the address that the module named there exports under the
/// symbol that entry `j` of the lookup table asks for. An entry with the highest
/// bit set asks for an ordinal, another one for the name two bytes behind the
/// offset in it. Without a lookup table the slots themselves are one.
///
/// The import directory is the second one, 144 bytes behind the headers.
pub proof fn lemma_every_import_is_bound(
    loaded: Seq<LoadedPeModule>,
    modules: Seq<ModuleView>,
    arch: Arch,
    s: Seq<u8>,
    base: u64,
    di: int,
    ilt: int,
    j: int,
    dll: Seq<u8>,
    mi: int,
    symbol: SymbolView,
)
    requires
        image_writes(loaded, modules, arch, s, base).1 is None,
        s.len() <= u64::MAX,
        0 <= di,
        0 <= j,
        0 <= mi < modules.len(),
        module_matches(modules[mi], dll),
        forall|i: int| 0 <= i < mi ==> !module_matches(#[trigger] modules[i], dll),
        ({
            let headers = le_u32(s, 60) as int;
            let dir = le_u32(s, headers + 144) as int;
            let size = le_u32(s, headers + 148) as int;
            let at = dir + 20 * di;
            let entry = le_u64(s, ilt + 8 * j) as int;
            &&& le_u32(s, headers + 132) > 1
            &&& dir > 0
            &&& 20 * (di + 1) <= size
            &&& at + 20 <= s.len()
            &&& forall|i: int|
                0 <= i <= di ==> le_u32(s, #[trigger] (dir + 20 * i) + 12) != 0 || le_u32(
                    s,
                    dir + 20 * i + 16,
                ) != 0
            &&& has_string(s, le_u32(s, at + 12) as int, dll)
            &&& ilt == if le_u32(s, at) != 0 {
                le_u32(s, at)
            } else {
                le_u32(s, at + 16)
            }
            &&& ilt + 8 * j + 8 <= s.len()
            &&& forall|i: int| 0 <= i <= j ==> #[trigger] le_u64(s, ilt + 8 * i) != 0
            &&& match symbol {
                SymbolView::Ordinal(o) => entry >= 0x8000_0000_0000_0000 && o == entry % 0x1_0000,
                SymbolView::Name(name) => entry < 0x8000_0000_0000_0000 && has_string(
                    s,
                    entry % 0x1_0000_0000 + 2,
                    name,
                ),
            }
        }),
    ensures
        ({
            let headers = le_u32(s, 60) as int;
            let at = le_u32(s, headers + 144) + 20 * di;
            let value = export_address(modules, arch, modules[mi], symbol, 0);
            let done = image_writes(loaded, modules, arch, s, base).0;
            value is Some && exists|w: int|
                0 <= w < done.len() && stores(
                    #[trigger] done[w],
                    base + le_u32(s, at + 16) + 8 * j,
                    value->0 as int,
                )
        }),
{
    let headers = le_u32(s, 60) as int;
    let dir = le_u32(s, headers + 144) as int;
    let size = le_u32(s, headers + 148) as int;
    let at = dir + 20 * di;
    assert(image_directory(s, 1) == Some(
        DataDirectory { virtual_address: dir as u32, size: size as u32 },
    ));
    let descs = image_imports(s);
    lemma_descriptors(s, dir, size / 20, di);
    let d = descs[di];
    let lookup = from_rva(s, ilt);
    assert forall|i: int| 0 <= i <= j implies #[trigger] le_u64(lookup, i * 8) != 0 by {
        lemma_fields_of_rest(s, ilt, i * 8);
        assert(le_u64(s, ilt + 8 * i) != 0);
    }
    lemma_fields_of_rest(s, ilt, j * 8);
    let first = import_writes(loaded, modules, arch, s, base, descs, Seq::empty()).0;
    lemma_descriptor_slot(loaded, modules, arch, s, base, descs, Seq::empty(), di, j);
    lemma_has_string(s, d.name as int, dll);
    lemma_module_index(modules, dll, mi, 0);
    match symbol {
        SymbolView::Name(name) => {
            lemma_has_string(s, le_u64(lookup, j * 8) as int % 0x1_0000_0000 + 2, name);
        },
        SymbolView::Ordinal(_) => {},
    }
    lemma_delays_continue(loaded, modules, arch, s, base, image_delays(s), first);
    let done = image_writes(loaded, modules, arch, s, base).0;
    let value = export_address(modules, arch, modules[mi], symbol, 0);
    let w = choose|w: int|
        0 <= w < first.len() && stores(
            #[trigger] first[w],
            base + d.first_thunk + 8 * j,
            value->0 as int,
        );
    assert(done[w] == first[w]);
}

/// A delay-import descriptor is attributes, module name, module handle, address table,
/// name table, bound table, unload table and time, one behind the other.
pub proof fn lemma_delay_record(s: Seq<u8>, off: int, v: Seq<int>)
    requires
        has_record(s, off, seq![4int, 4, 4, 4, 4, 4, 4, 4], v, 0),
    ensures
        delay_at(s, off).attributes == v[0],
        delay_at(s, off).name == v[1],
        delay_at(s, off).module_handle == v[2],
        delay_at(s, off).delay_import_address_table == v[3],
        delay_at(s, off).delay_import_name_table == v[4],
        delay_at(s, off).bound_delay_import_table == v[5],
        delay_at(s, off).unload_delay_import_table == v[6],
        delay_at(s, off).time_date_stamp == v[7],
{
    reveal_with_fuel(has_record, 9);
    lemma_field_32(s, off);
    lemma_field_32(s, off + 4);
    lemma_field_32(s, off + 8);
    lemma_field_32(s, off + 12);
    lemma_field_32(s, off + 16);
    lemma_field_32(s, off + 20);
    lemma_field_32(s, off + 24);
    lemma_field_32(s, off + 28);
}

proof fn lemma_index_named(loaded: Seq<LoadedPeModule>, name: Seq<u8>, i: int, k: int)
    requires
        0 <= i <= k < loaded.len(),
        is_named(loaded[k], name),
        forall|j: int| 0 <= j < k ==> !is_named(#[trigger] loaded[j], name),
    ensures
        index_named(loaded, name, i) == Some(k),
    decreases k - i,
{
    if i < k {
        lemma_index_named(loaded, name, i + 1, k);
    }
}

proof fn lemma_delay_descriptors(s: Seq<u8>, off: int, n: int, di: int)
    requires
        0 <= di < n,
        off + 32 * di + 32 <= s.len(),
        forall|j: int| 0 <= j <= di ==> !ends_table(delay_at(s, #[trigger] (off + 32 * j))),
    ensures
        delays_from(s, off, n).len() > di,
        delays_from(s, off, n)[di] == delay_at(s, off + 32 * di),
    decreases di,
{
    assert(!ends_table(delay_at(s, off + 32 * 0)));
    if di > 0 {
        assert forall|j: int| 0 <= j <= di - 1 implies !ends_table(
            delay_at(s, #[trigger] (off + 32 + 32 * j)),
        ) by {
            assert(off + 32 + 32 * j == off + 32 * (j + 1));
        }
        lemma_delay_descriptors(s, off + 32, n - 1, di - 1);
    }
}

proof fn lemma_delay_slot(
    loaded: Seq<LoadedPeModule>,
    modules: Seq<ModuleView>,
    arch: Arch,
    s: Seq<u8>,
    base: u64,
    descs: Seq<DelayImportDescriptor>,
    writes: Seq<RelocWrite>,
    di: int,
    j: int,
)
    requires
        0 <= di < descs.len(),
        0 <= j,
        s.len() <= u64::MAX,
        delay_writes(loaded, modules, arch, s, base, descs, writes).1 is None,
        ({
            let d = descs[di];
            let lookup = tail(
                base,
                s,
                delay_address(base, d.attributes, delay_lookup(d) as u64),
            );
            &&& j * 8 + 8 <= lookup.len()
            &&& forall|i: int| 0 <= i <= j ==> #[trigger] le_u64(lookup, i * 8) != 0
        }),
    ensures
        ({
            let d = descs[di];
            let dll = delay_name(s, base, d);
            let lookup = tail(
                base,
                s,
                delay_address(base, d.attributes, delay_lookup(d) as u64),
            );
            let value = thunk_value(
                modules,
                arch,
                dll,
                thunk_symbol(s, base, Some(d.attributes), le_u64(lookup, j * 8)),
            );
            let iat = delay_address(base, d.attributes, d.delay_import_address_table as u64);
            let done = delay_writes(loaded, modules, arch, s, base, descs, writes).0;
            &&& value is Some && exists|w: int|
                0 <= w < done.len() && stores(#[trigger] done[w], iat + 8 * j, value->0 as int)
            &&& index_named(loaded, dll, 0) is Some
            &&& d.module_handle != 0 ==> exists|w: int|
                0 <= w < done.len() && stores(
                    #[trigger] done[w],
                    delay_address(base, d.attributes, d.module_handle as u64) as int,
                    loaded[index_named(loaded, dll, 0)->0].base as int,
                )
        }),
    decreases di,
{
    let d0 = descs[0];
    let dll0 = delay_name(s, base, d0);
    let at0 = index_named(loaded, dll0, 0)->0;
    let handle0 = delay_address(base, d0.attributes, d0.module_handle as u64);
    let handled = if d0.module_handle != 0 {
        writes.push(RelocWrite::Word { addr: handle0, value: loaded[at0].base })
    } else {
        writes
    };
    let lookup0 = tail(base, s, delay_address(base, d0.attributes, delay_lookup(d0) as u64));
    let iat0 = delay_address(base, d0.attributes, d0.delay_import_address_table as u64);
    let attributes = Some(d0.attributes);
    let (next, error) = slot_writes(
        modules,
        arch,
        s,
        base,
        attributes,
        dll0,
        lookup0,
        iat0,
        0,
        handled,
    );
    let done = delay_writes(loaded, modules, arch, s, base, descs, writes).0;
    if di == 0 {
        lemma_slot_is_bound(
            modules,
            arch,
            s,
            base,
            attributes,
            dll0,
            lookup0,
            iat0,
            0,
            handled,
            j,
        );
        lemma_slots_continue(
            modules,
            arch,
            s,
            base,
            attributes,
            dll0,
            lookup0,
            iat0,
            0,
            handled,
        );
        lemma_delays_continue(loaded, modules, arch, s, base, descs.skip(1), next);
        let value = thunk_value(
            modules,
            arch,
            dll0,
            thunk_symbol(s, base, attributes, le_u64(lookup0, j * 8)),
        )->0;
        let w = choose|w: int|
            0 <= w < next.len() && stores(#[trigger] next[w], iat0 + 8 * j, value as int);
        assert(done[w] == next[w]);
        assert(stores(done[w], iat0 + 8 * j, value as int));
        if d0.module_handle != 0 {
            let h = writes.len() as int;
            assert(next[h] == handled[h]);
            assert(done[h] == next[h]);
            assert(stores(done[h], handle0 as int, loaded[at0].base as int));
        }
    } else {
        assert(descs.skip(1)[di - 1] == descs[di]);
        lemma_delay_slot(loaded, modules, arch, s, base, descs.skip(1), next, di - 1, j);
    }
}

/// Linking an image binds every slot of every delay-import descriptor whose fields
/// are relative to the image: slot `j` gets the address that the module named there
/// exports under the symbol that entry `j` of the name table asks for, and the
/// module handle gets the address of the module.
///
/// The delay-import directory is the fourteenth one, 240 bytes behind the headers.
#[verifier::spinoff_prover]
#[verifier::rlimit(60)]
pub proof fn lemma_every_delay_import_is_bound(
    loaded: Seq<LoadedPeModule>,
    modules: Seq<ModuleView>,
    arch: Arch,
    s: Seq<u8>,
    base: u64,
    di: int,
    ilt: int,
    j: int,
    dll: Seq<u8>,
    mi: int,
    li: int,
    symbol: SymbolView,
)
    requires
        image_writes(loaded, modules, arch, s, base).1 is None,
        base + s.len() <= u64::MAX,
        0 <= di,
        0 <= j,
        0 <= mi < modules.len(),
        module_matches(modules[mi], dll),
        forall|i: int| 0 <= i < mi ==> !module_matches(#[trigger] modules[i], dll),
        0 <= li < loaded.len(),
        is_named(loaded[li], dll),
        forall|i: int| 0 <= i < li ==> !is_named(#[trigger] loaded[i], dll),
        ({
            let headers = le_u32(s, 60) as int;
            let dir = le_u32(s, headers + 240) as int;
            let size = le_u32(s, headers + 244) as int;
            let d = delay_at(s, dir + 32 * di);
            let entry = le_u64(s, ilt + 8 * j) as int;
            &&& le_u32(s, headers + 132) > 13
            &&& dir > 0
            &&& 32 * (di + 1) <= size
            &&& dir + 32 * di + 32 <= s.len()
            &&& forall|i: int| 0 <= i <= di ==> !ends_table(delay_at(s, #[trigger] (dir + 32 * i)))
            &&& d.attributes & 1 != 0
            &&& has_string(s, d.name as int, dll)
            &&& ilt == if d.delay_import_name_table != 0 {
                d.delay_import_name_table
            } else {
                d.delay_import_address_table
            }
            &&& ilt + 8 * j + 8 <= s.len()
            &&& forall|i: int| 0 <= i <= j ==> #[trigger] le_u64(s, ilt + 8 * i) != 0
            &&& match symbol {
                SymbolView::Ordinal(o) => entry >= 0x8000_0000_0000_0000 && o == entry % 0x1_0000,
                SymbolView::Name(name) => entry < 0x8000_0000_0000_0000 && has_string(
                    s,
                    entry + 2,
                    name,
                ),
            }
        }),
    ensures
        ({
            let headers = le_u32(s, 60) as int;
            let d = delay_at(s, le_u32(s, headers + 240) + 32 * di);
            let value = export_address(modules, arch, modules[mi], symbol, 0);
            let done = image_writes(loaded, modules, arch, s, base).0;
            &&& value is Some && exists|w: int|
                0 <= w < done.len() && stores(
                    #[trigger] done[w],
                    base + d.delay_import_address_table + 8 * j,
                    value->0 as int,
                )
            &&& d.module_handle != 0 ==> exists|w: int|
                0 <= w < done.len() && stores(
                    #[trigger] done[w],
                    base + d.module_handle,
                    loaded[li].base as int,
                )
        }),
{
    let headers = le_u32(s, 60) as int;
    let dir = le_u32(s, headers + 240) as int;
    let size = le_u32(s, headers + 244) as int;
    assert(image_directory(s, 13) == Some(
        DataDirectory { virtual_address: dir as u32, size: size as u32 },
    ));
    let descs = image_delays(s);
    lemma_delay_descriptors(s, dir, size / 32, di);
    let d = descs[di];
    let first = import_writes(loaded, modules, arch, s, base, image_imports(s), Seq::empty()).0;
    lemma_string_of_rest(s, base, d.name as int, dll);
    assert(delay_address(base, d.attributes, d.name as u64) == base + d.name);
    assert(delay_name(s, base, d) == dll);
    let lookup = tail(base, s, delay_address(base, d.attributes, delay_lookup(d) as u64));
    assert(lookup == s.skip(ilt));
    assert forall|i: int| 0 <= i <= j implies #[trigger] le_u64(lookup, i * 8) != 0 by {
        lemma_fields_of_rest(s, ilt, i * 8);
        assert(le_u64(s, ilt + 8 * i) != 0);
    }
    lemma_fields_of_rest(s, ilt, j * 8);
    lemma_delay_slot(loaded, modules, arch, s, base, descs, first, di, j);
    lemma_module_index(modules, dll, mi, 0);
    lemma_index_named(loaded, dll, 0, li);
    let entry = le_u64(lookup, j * 8);
    assert(entry == le_u64(s, ilt + 8 * j));
    match symbol {
        SymbolView::Name(name) => {
            assert(delay_address(base, d.attributes, entry).wrapping_add(2) == base + (entry + 2));
            lemma_string_of_rest(s, base, entry + 2, name);
        },
        SymbolView::Ordinal(_) => {},
    }
    let iat = delay_address(base, d.attributes, d.delay_import_address_table as u64);
    let done = image_writes(loaded, modules, arch, s, base).0;
    let value = export_address(modules, arch, modules[mi], symbol, 0);
    let w = choose|w: int|
        0 <= w < done.len() && stores(#[trigger] done[w], iat + 8 * j, value->0 as int);
    assert(stores(done[w], base + d.delay_import_address_table + 8 * j, value->0 as int));
    if d.module_handle != 0 {
        let at = delay_address(base, d.attributes, d.module_handle as u64);
        let h = choose|h: int|
            0 <= h < done.len() && stores(
                #[trigger] done[h],
                at as int,
                loaded[li].base as int,
            );
        assert(stores(done[h], base + d.module_handle, loaded[li].base as int));
    }
}

proof fn lemma_string_of_rest(s: Seq<u8>, base: u64, off: int, name: Seq<u8>)
    requires
        has_string(s, off, name),
        0 <= off,
        base + s.len() <= u64::MAX,
    ensures
        c_str(tail(base, s, (base + off) as u64), 0) == name,
        base + off <= u64::MAX,
{
    let rest = tail(base, s, (base + off) as u64);
    assert(rest == s.skip(off));
    assert(has_string(rest, 0, name)) by {
        assert(forall|i: int| 0 <= i < rest.len() ==> #[trigger] rest[i] == s[off + i]);
        assert forall|j: int| 0 <= j < name.len() implies #[trigger] rest[0 + j] == name[j]
            && name[j] != 0 by {
            assert(s[off + j] == name[j]);
        }
    }
    lemma_has_string(rest, 0, name);
}

/// Every module that an image needs, by an import or by a delay import, is listed
/// with the index of the first loaded module of its name.
pub proof fn lemma_every_dependency_is_listed(
    loaded: Seq<LoadedPeModule>,
    names: Seq<Seq<u8>>,
    k: int,
    found: Seq<int>,
    n: int,
    li: int,
)
    requires
        0 <= k,
        module_indices(loaded, names, k, found) is Some,
        k <= n < names.len() ==> 0 <= li < loaded.len() && is_named(loaded[li], names[n])
            && forall|j: int| 0 <= j < li ==> !is_named(#[trigger] loaded[j], names[n]),
    ensures
        ({
            let all = module_indices(loaded, names, k, found)->0;
            &&& k <= names.len() ==> all.len() == found.len() + (names.len() - k)
            &&& all.len() >= found.len() && forall|j: int|
                0 <= j < found.len() ==> all[j] == #[trigger] found[j]
            &&& k <= n < names.len() ==> all[found.len() + (n - k)] == li
        }),
    decreases names.len() - k,
{
    if k < names.len() {
        let i = index_named(loaded, names[k], 0)->0;
        let next = found.push(i);
        lemma_every_dependency_is_listed(loaded, names, k + 1, next, n, li);
        let all = module_indices(loaded, names, k, found)->0;
        assert forall|j: int| 0 <= j < found.len() implies all[j] == #[trigger] found[j] by {
            assert(all[j] == next[j]);
        }
        if n == k {
            lemma_index_named(loaded, names[n], 0, li);
            assert(all[found.len() as int] == next[found.len() as int]);
        }
    }
}

} // verus!
