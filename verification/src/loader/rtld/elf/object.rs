//! Objects of the link map: their tables, relocation, names and placement.
use crate::loader::bytes::{
    bytes_eq, c_str, le_u32, lemma_fields_of_rest, read_c_str, read_u32,
};
use crate::loader::elf::header::Arch;
use crate::loader::elf::reloc::{
    apply_rela_table, lemma_table_relocates_every_entry, needed_symbol, stores, symbol_needed,
    table_effects, RelocCtx, RelocError, RelocWrite,
};
use crate::loader::elf::types::{elf64_r_sym, rela_sym, Elf64Rela};
use crate::loader::link_flags::RELOCATED;
use crate::loader::link_map::{name_of, CName, LinkMap, ObjectTables, RtldState};
use crate::loader::rtld::elf::scope::{
    global_symbol, resolve_symbol_for_runtime, resolve_symbol_global, runtime_symbol,
};
use crate::loader::rtld::elf::tables::{
    copy_bytes, gnu_hash_max_index, halves_in, hashed_total, read_halves, read_relas, read_syms,
    read_words, rela_at, relas_in, sym_at, syms_in, tail, words_in, Memory,
};
use vstd::prelude::*;

verus! {

// ---------------------------------------------------------------------------
// Dynamic section
// ---------------------------------------------------------------------------

/// The address that an entry of the dynamic section gives; `keep` if there is no
/// such entry.
pub open spec fn address(base: u64, entry: u64, keep: u64) -> u64 {
    if entry != 0 {
        base.wrapping_add(entry)
    } else {
        keep
    }
}

fn address_of(base: u64, entry: u64, keep: u64) -> (r: u64)
    ensures
        r == address(base, entry, keep),
{
    if entry != 0 {
        base.wrapping_add(entry)
    } else {
        keep
    }
}

/// Number of relocations in a table of `size` bytes; an entry size of 0 means
/// the usual one.
pub open spec fn rela_entries(size: u64, ent: u64) -> u64 {
    if ent != 0 {
        size / ent
    } else {
        size / 24
    }
}

/// An entry with the addresses that its dynamic section gives.
pub open spec fn addressed(lm: LinkMap) -> LinkMap {
    let di = lm.dyn_info;
    LinkMap {
        symtab: lm.base.wrapping_add(di.symtab),
        strtab: lm.base.wrapping_add(di.strtab),
        strsz: di.strsz,
        gnu_hash: address(lm.base, di.gnu_hash, lm.gnu_hash),
        rela: address(lm.base, di.rela, lm.rela),
        rela_count: if di.rela != 0 {
            rela_entries(di.relasz, di.relaent)
        } else {
            lm.rela_count
        },
        jmprel: address(lm.base, di.jmprel, lm.jmprel),
        jmprel_count: if di.jmprel != 0 {
            di.pltrelsz / 24
        } else {
            lm.jmprel_count
        },
        pltgot: address(lm.base, di.pltgot, lm.pltgot),
        init: address(lm.base, di.init, lm.init),
        fini: address(lm.base, di.fini, lm.fini),
        init_array: address(lm.base, di.init_array, lm.init_array),
        init_arraysz: if di.init_array != 0 {
            di.init_arraysz
        } else {
            lm.init_arraysz
        },
        fini_array: address(lm.base, di.fini_array, lm.fini_array),
        fini_arraysz: if di.fini_array != 0 {
            di.fini_arraysz
        } else {
            lm.fini_arraysz
        },
        verdef: address(lm.base, di.verdef, lm.verdef),
        verdef_num: if di.verdef != 0 {
            (di.verdef_num % 0x1_0000_0000) as u32
        } else {
            lm.verdef_num
        },
        verneed: address(lm.base, di.verneed, lm.verneed),
        verneed_num: if di.verneed != 0 {
            (di.verneed_num % 0x1_0000_0000) as u32
        } else {
            lm.verneed_num
        },
        versym: address(lm.base, di.versym, lm.versym),
        ..lm
    }
}

/// The second word at an address, 0 if it is not there.
pub open spec fn second_word(start: u64, bytes: Seq<u8>, addr: u64) -> u32 {
    let t = tail(start, bytes, addr);
    if t.len() >= 8 {
        le_u32(t, 4)
    } else {
        0
    }
}

/// The contents of an optional table.
pub open spec fn table_view<T>(t: Option<Vec<T>>) -> Option<Seq<T>> {
    match t {
        Some(v) => Some(v@),
        None => None,
    }
}

/// `some` where there is an address.
pub open spec fn where_present<T>(addr: u64, some: Seq<T>) -> Option<Seq<T>> {
    if addr != 0 {
        Some(some)
    } else {
        None
    }
}

/// Whether `t` holds what memory holds at the addresses in `lm`.
pub open spec fn holds_tables(t: ObjectTables, lm: LinkMap, start: u64, bytes: Seq<u8>) -> bool {
    &&& t.symtab@ == syms_in(tail(start, bytes, lm.symtab))
    &&& t.strtab@ == tail(start, bytes, lm.strtab)
    &&& t.hash_nchain == if lm.dyn_info.hash != 0 {
        Some(second_word(start, bytes, lm.base.wrapping_add(lm.dyn_info.hash)))
    } else {
        None
    }
    &&& table_view(t.gnu_hash) == where_present(
        lm.gnu_hash,
        words_in(tail(start, bytes, lm.gnu_hash)),
    )
    &&& table_view(t.versym) == where_present(lm.versym, halves_in(tail(start, bytes, lm.versym)))
    &&& table_view(t.verdef) == where_present(lm.verdef, tail(start, bytes, lm.verdef))
    &&& table_view(t.verneed) == where_present(lm.verneed, tail(start, bytes, lm.verneed))
    &&& t.rela@ == if lm.rela != 0 {
        relas_in(tail(start, bytes, lm.rela), lm.rela_count)
    } else {
        Seq::empty()
    }
    &&& t.jmprel@ == if lm.jmprel != 0 {
        relas_in(tail(start, bytes, lm.jmprel), lm.jmprel_count)
    } else {
        Seq::empty()
    }
}

/// The string at offset `off` of a string table; empty outside of it.
pub open spec fn string_at(strtab: Seq<u8>, off: u64) -> Seq<u8> {
    if off <= strtab.len() {
        c_str(strtab, off as int)
    } else {
        Seq::empty()
    }
}

/// Whether `n` is the string at offset `off` of an object's string table.
pub open spec fn is_table_string(n: Option<CName>, lm: LinkMap, off: u64) -> bool {
    &&& n is Some
    &&& n->0.addr == lm.strtab.wrapping_add(off)
    &&& n->0.bytes@ == string_at(lm.tables.strtab@, off)
}

/// The string at offset `off` of an object's string table.
pub fn table_string(lm: &LinkMap, off: u64) -> (r: CName)
    ensures
        is_table_string(Some(r), *lm, off),
{
    let strtab: &[u8] = lm.tables.strtab.as_slice();
    let bytes: Vec<u8> = if off <= strtab.len() as u64 {
        copy_bytes(read_c_str(strtab, off as usize))
    } else {
        Vec::new()
    };
    assert(bytes@ =~= string_at(strtab@, off));
    CName { addr: lm.strtab.wrapping_add(off), bytes }
}

/// Whether `n` is the string that an entry of the dynamic section names; `keep`
/// if there is no such entry or no string table.
pub open spec fn is_entry_string(
    n: Option<CName>,
    keep: Option<CName>,
    lm: LinkMap,
    off: u64,
) -> bool {
    if off != 0 && lm.strtab != 0 {
        is_table_string(n, lm, off)
    } else {
        n == keep
    }
}

/// Turns what the dynamic section says into addresses, reads the tables there,
/// and counts the symbols. `mem` is the memory of the object.
pub fn apply_dyn_info(lm: &mut LinkMap, mem: &Memory<'_>)
    ensures
        *final(lm) == (LinkMap {
            tables: final(lm).tables,
            runpath: final(lm).runpath,
            rpath: final(lm).rpath,
            nsyms: final(lm).nsyms,
            ..addressed(*old(lm))
        }),
        holds_tables(final(lm).tables, addressed(*old(lm)), mem.start, mem.bytes@),
        final(lm).tables.dynamic == old(lm).tables.dynamic,
        final(lm).tables.phdrs == old(lm).tables.phdrs,
        is_entry_string(
            final(lm).runpath,
            old(lm).runpath,
            *final(lm),
            old(lm).dyn_info.runpath,
        ),
        is_entry_string(final(lm).rpath, old(lm).rpath, *final(lm), old(lm).dyn_info.rpath),
        final(lm).nsyms == symbol_total(*final(lm)) % 0x1_0000_0000,
{
    let base: u64 = lm.base;
    let di = lm.dyn_info;
    lm.symtab = base.wrapping_add(di.symtab);
    lm.strtab = base.wrapping_add(di.strtab);
    lm.strsz = di.strsz;
    lm.gnu_hash = address_of(base, di.gnu_hash, lm.gnu_hash);
    if di.rela != 0 {
        lm.rela = base.wrapping_add(di.rela);
        lm.rela_count = if di.relaent != 0 {
            di.relasz / di.relaent
        } else {
            di.relasz / 24
        };
    }
    if di.jmprel != 0 {
        lm.jmprel = base.wrapping_add(di.jmprel);
        lm.jmprel_count = di.pltrelsz / 24;
    }
    lm.pltgot = address_of(base, di.pltgot, lm.pltgot);
    lm.init = address_of(base, di.init, lm.init);
    lm.fini = address_of(base, di.fini, lm.fini);
    if di.init_array != 0 {
        lm.init_array = base.wrapping_add(di.init_array);
        lm.init_arraysz = di.init_arraysz;
    }
    if di.fini_array != 0 {
        lm.fini_array = base.wrapping_add(di.fini_array);
        lm.fini_arraysz = di.fini_arraysz;
    }
    if di.verdef != 0 {
        lm.verdef = base.wrapping_add(di.verdef);
        lm.verdef_num = (di.verdef_num % 0x1_0000_0000) as u32;
    }
    if di.verneed != 0 {
        lm.verneed = base.wrapping_add(di.verneed);
        lm.verneed_num = (di.verneed_num % 0x1_0000_0000) as u32;
    }
    lm.versym = address_of(base, di.versym, lm.versym);
    assert(*lm == addressed(*old(lm)));

    read_tables(lm, mem);
    if di.runpath != 0 && lm.strtab != 0 {
        let s: CName = table_string(lm, di.runpath);
        lm.runpath = Some(s);
    }
    if di.rpath != 0 && lm.strtab != 0 {
        let s: CName = table_string(lm, di.rpath);
        lm.rpath = Some(s);
    }
    lm.nsyms = (compute_nsyms(lm) % 0x1_0000_0000) as u32;
}

/// Reads the tables at the addresses of an entry.
fn read_tables(lm: &mut LinkMap, mem: &Memory<'_>)
    ensures
        *final(lm) == (LinkMap { tables: final(lm).tables, ..*old(lm) }),
        holds_tables(final(lm).tables, *old(lm), mem.start, mem.bytes@),
        final(lm).tables.dynamic == old(lm).tables.dynamic,
        final(lm).tables.phdrs == old(lm).tables.phdrs,
{
    lm.tables.symtab = read_syms(mem.from(lm.symtab));
    lm.tables.strtab = copy_bytes(mem.from(lm.strtab));
    lm.tables.hash_nchain = if lm.dyn_info.hash != 0 {
        let t: &[u8] = mem.from(lm.base.wrapping_add(lm.dyn_info.hash));
        if t.len() >= 8 {
            Some(read_u32(t, 4))
        } else {
            Some(0)
        }
    } else {
        None
    };
    lm.tables.gnu_hash = if lm.gnu_hash != 0 {
        Some(read_words(mem.from(lm.gnu_hash)))
    } else {
        None
    };
    lm.tables.versym = if lm.versym != 0 {
        Some(read_halves(mem.from(lm.versym)))
    } else {
        None
    };
    lm.tables.verdef = if lm.verdef != 0 {
        Some(copy_bytes(mem.from(lm.verdef)))
    } else {
        None
    };
    lm.tables.verneed = if lm.verneed != 0 {
        Some(copy_bytes(mem.from(lm.verneed)))
    } else {
        None
    };
    lm.tables.rela = if lm.rela != 0 {
        read_relas(mem.from(lm.rela), lm.rela_count)
    } else {
        Vec::new()
    };
    lm.tables.jmprel = if lm.jmprel != 0 {
        read_relas(mem.from(lm.jmprel), lm.jmprel_count)
    } else {
        Vec::new()
    };
    assert(lm.rela == 0 ==> lm.tables.rela@ =~= Seq::empty());
    assert(lm.jmprel == 0 ==> lm.tables.jmprel@ =~= Seq::empty());
}

/// Number of symbols of an object: by its SysV hash table, else by its GNU hash
/// table, else by the gap between the symbol and the string table.
pub open spec fn symbol_total(lm: LinkMap) -> int {
    if lm.symtab == 0 {
        0
    } else if lm.dyn_info.hash != 0 {
        match lm.tables.hash_nchain {
            Some(n) => n as int,
            None => 0,
        }
    } else {
        match lm.tables.gnu_hash {
            Some(table) => hashed_total(table@),
            None => if lm.strtab <= lm.symtab {
                0
            } else {
                (lm.strtab - lm.symtab) / 24
            },
        }
    }
}

/// Computes the number of symbols from whichever hash table the object provides.
fn compute_nsyms(lm: &LinkMap) -> (r: u128)
    ensures
        r == symbol_total(*lm),
{
    if lm.symtab == 0 {
        return 0;
    }
    if lm.dyn_info.hash != 0 {
        return match lm.tables.hash_nchain {
            Some(n) => n as u128,
            None => 0,
        };
    }
    match &lm.tables.gnu_hash {
        Some(table) => gnu_hash_max_index(table.as_slice()),
        None => if lm.strtab <= lm.symtab {
            0
        } else {
            ((lm.strtab - lm.symtab) / 24) as u128
        },
    }
}

/// The cached number of symbols; computed anew where the cache holds zero.
pub open spec fn symbols_counted(lm: LinkMap) -> int {
    if lm.nsyms != 0 {
        lm.nsyms as int
    } else {
        symbol_total(lm)
    }
}

/// The number of symbols of an object.
pub fn sym_count(lm: &LinkMap) -> (r: u128)
    ensures
        r == symbols_counted(*lm),
{
    if lm.nsyms != 0 {
        return lm.nsyms as u128;
    }
    compute_nsyms(lm)
}

// ---------------------------------------------------------------------------
// Objects by name and address
// ---------------------------------------------------------------------------

/// Whether a name is there and is `needle`.
pub open spec fn named(name: Option<CName>, needle: Seq<u8>) -> bool {
    name_of(name) == Some(needle)
}

fn name_eq(name: &Option<CName>, needle: &[u8]) -> (r: bool)
    ensures
        r == named(*name, needle@),
{
    match name {
        Some(n) => bytes_eq(n.bytes.as_slice(), needle),
        None => false,
    }
}

/// Whether a startup object answers to a needed-library name: by its shared
/// object name, or by its name.
pub open spec fn seed_answers(lm: LinkMap, needle: Seq<u8>) -> bool {
    named(lm.soname, needle) || named(lm.name, needle)
}

/// Index of the first startup object from `i` on that answers to a name.
pub open spec fn seed_named(objects: Seq<LinkMap>, needle: Seq<u8>, i: int) -> Option<int>
    decreases objects.len() - i,
{
    if i < 0 || i >= objects.len() {
        None
    } else if seed_answers(objects[i], needle) {
        Some(i)
    } else {
        seed_named(objects, needle, i + 1)
    }
}

/// Locates a startup object by name. A needed-library name is a shared object
/// name, never a path, so that is what is compared first.
pub fn find_loaded_object(st: &RtldState, name: &[u8]) -> (r: Option<usize>)
    ensures
        match seed_named(st.objects@, name@, 0) {
            Some(i) => r is Some && r->0 == i && i < st.objects@.len() && seed_answers(
                st.objects@[i],
                name@,
            ),
            None => r is None,
        },
{
    let mut i: usize = 0;
    while i < st.objects.len()
        invariant
            i <= st.objects@.len(),
            seed_named(st.objects@, name@, 0) == seed_named(st.objects@, name@, i as int),
        decreases st.objects@.len() - i,
    {
        if name_eq(&st.objects[i].soname, name) || name_eq(&st.objects[i].name, name) {
            return Some(i);
        }
        i = i + 1;
    }
    None
}

/// Whether a runtime object answers to a path or name.
pub open spec fn chain_answers(lm: LinkMap, needle: Seq<u8>) -> bool {
    named(lm.path, needle) || named(lm.soname, needle) || named(lm.name, needle)
}

/// Index of the first runtime object from `i` on that answers to a name.
pub open spec fn chain_named(chain: Seq<LinkMap>, needle: Seq<u8>, i: int) -> Option<int>
    decreases chain.len() - i,
{
    if i < 0 || i >= chain.len() {
        None
    } else if chain_answers(chain[i], needle) {
        Some(i)
    } else {
        chain_named(chain, needle, i + 1)
    }
}

/// Locates a runtime object by path, shared object name or name.
pub fn find_in_chain_by_name(st: &RtldState, needle: &[u8]) -> (r: Option<usize>)
    ensures
        match chain_named(st.chain@, needle@, 0) {
            Some(i) => r is Some && r->0 == i && i < st.chain@.len() && chain_answers(
                st.chain@[i],
                needle@,
            ),
            None => r is None,
        },
{
    let mut i: usize = 0;
    while i < st.chain.len()
        invariant
            i <= st.chain@.len(),
            chain_named(st.chain@, needle@, 0) == chain_named(st.chain@, needle@, i as int),
        decreases st.chain@.len() - i,
    {
        if name_eq(&st.chain[i].path, needle) || name_eq(&st.chain[i].soname, needle) || name_eq(
            &st.chain[i].name,
            needle,
        ) {
            return Some(i);
        }
        i = i + 1;
    }
    None
}

/// Index of the first entry from `i` on with address `addr`.
pub open spec fn index_of(entries: Seq<LinkMap>, addr: u64, i: int) -> Option<int>
    decreases entries.len() - i,
{
    if i < 0 || i >= entries.len() {
        None
    } else if entries[i].addr == addr {
        Some(i)
    } else {
        index_of(entries, addr, i + 1)
    }
}

/// Finds an entry by its address.
pub fn find_by_address(entries: &Vec<LinkMap>, addr: u64) -> (r: Option<usize>)
    ensures
        match index_of(entries@, addr, 0) {
            Some(i) => r is Some && r->0 == i && i < entries@.len() && entries@[i].addr == addr,
            None => r is None,
        },
{
    let mut i: usize = 0;
    while i < entries.len()
        invariant
            i <= entries@.len(),
            index_of(entries@, addr, 0) == index_of(entries@, addr, i as int),
        decreases entries@.len() - i,
    {
        if entries[i].addr == addr {
            return Some(i);
        }
        i = i + 1;
    }
    None
}

// ---------------------------------------------------------------------------
// Relocation
// ---------------------------------------------------------------------------

/// The diagnostic for a relocation that failed, and the number that goes with
/// it: the relocation type, if that is not supported.
pub fn relocation_error_text(err: RelocError) -> (r: (&'static str, Option<u32>))
    ensures
        match err {
            RelocError::UnsupportedType(typ) => r.0@ == "[ldtrona-elf] unsupported relocation "@
                && r.1 == Some(typ),
            RelocError::SymbolNotFound => r.0@ == "[ldtrona-elf] relocation symbol not found\n"@
                && r.1 is None,
            RelocError::IfuncFailed => r.0@ == "[ldtrona-elf] ifunc resolver failed\n"@ && r.1
                is None,
        },
{
    match err {
        RelocError::UnsupportedType(typ) => (
            "[ldtrona-elf] unsupported relocation ",
            Some(typ),
        ),
        RelocError::SymbolNotFound => ("[ldtrona-elf] relocation symbol not found\n", None),
        RelocError::IfuncFailed => ("[ldtrona-elf] ifunc resolver failed\n", None),
    }
}

/// The effects of the two relocation tables of an object, in order; the second
/// one is not begun if the first one fails.
pub open spec fn object_effects(
    arch: Arch,
    lm: LinkMap,
    first: Seq<Option<u64>>,
    second: Seq<Option<u64>>,
) -> (Seq<RelocWrite>, Option<RelocError>) {
    let (rela, error) = table_effects(
        arch,
        lm.base,
        lm.tables.rela@,
        first,
        no_handlers(lm.tables.rela@.len()),
        0,
        Seq::empty(),
    );
    match error {
        Some(e) => (rela, Some(e)),
        None => {
            let (jmprel, failed) = table_effects(
                arch,
                lm.base,
                lm.tables.jmprel@,
                second,
                no_handlers(lm.tables.jmprel@.len()),
                0,
                Seq::empty(),
            );
            (rela + jmprel, failed)
        },
    }
}

/// Relocation without special handlers.
pub open spec fn no_handlers(n: nat) -> Seq<RelocCtx> {
    Seq::new(n, |i: int| RelocCtx { tlsdesc: None, ifunc: None })
}

fn relocate(arch: Arch, lm: &LinkMap, first: &Vec<Option<u64>>, second: &Vec<Option<u64>>) -> (r: (
    Vec<RelocWrite>,
    Result<(), RelocError>,
))
    requires
        first@.len() == lm.tables.rela@.len(),
        second@.len() == lm.tables.jmprel@.len(),
    ensures
        ({
            let (writes, error) = object_effects(arch, *lm, first@, second@);
            r.0@ == writes && r.1 == match error {
                None => Ok::<(), RelocError>(()),
                Some(e) => Err::<(), RelocError>(e),
            }
        }),
{
    let (mut writes, done): (Vec<RelocWrite>, Result<(), RelocError>) = apply_rela_table(
        arch,
        lm.base,
        lm.tables.rela.as_slice(),
        first.as_slice(),
    );
    match done {
        Ok(_) => {},
        Err(e) => {
            return (writes, Err(e));
        },
    }
    let (mut more, done): (Vec<RelocWrite>, Result<(), RelocError>) = apply_rela_table(
        arch,
        lm.base,
        lm.tables.jmprel.as_slice(),
        second.as_slice(),
    );
    writes.append(&mut more);
    (writes, done)
}

/// How the symbols that a relocation table needs resolve for a startup object.
pub open spec fn global_symbols(
    st: RtldState,
    idx: int,
    arch: Arch,
    relas: Seq<Elf64Rela>,
) -> Seq<Option<u64>> {
    Seq::new(
        relas.len(),
        |i: int|
            match symbol_needed(arch, relas[i]) {
                Some(sym) => global_symbol(st, idx, sym),
                None => None,
            },
    )
}

fn resolve_globally(st: &RtldState, idx: usize, arch: Arch, relas: &Vec<Elf64Rela>) -> (r: Vec<
    Option<u64>,
>)
    requires
        idx < st.objects@.len(),
    ensures
        r@ == global_symbols(*st, idx as int, arch, relas@),
{
    let mut out: Vec<Option<u64>> = Vec::new();
    let mut i: usize = 0;
    while i < relas.len()
        invariant
            idx < st.objects@.len(),
            i <= relas@.len(),
            out@.len() == i,
            forall|j: int|
                0 <= j < i ==> out@[j] == global_symbols(*st, idx as int, arch, relas@)[j],
        decreases relas@.len() - i,
    {
        out.push(
            match needed_symbol(arch, &relas[i]) {
                Some(sym) => resolve_symbol_global(st, idx, sym),
                None => None,
            },
        );
        i = i + 1;
    }
    assert(out@ =~= global_symbols(*st, idx as int, arch, relas@));
    out
}

/// Relocates the startup object `idx` with symbols of the global scope. On
/// success the object counts as relocated; the writes are to be made in any
/// case.
pub fn relocate_object(st: &mut RtldState, idx: usize, arch: Arch) -> (r: (
    Vec<RelocWrite>,
    Result<(), RelocError>,
))
    requires
        idx < old(st).objects@.len(),
    ensures
        ({
            let lm = old(st).objects@[idx as int];
            let (writes, error) = object_effects(
                arch,
                lm,
                global_symbols(*old(st), idx as int, arch, lm.tables.rela@),
                global_symbols(*old(st), idx as int, arch, lm.tables.jmprel@),
            );
            &&& r.0@ == writes
            &&& r.1 == match error {
                None => Ok::<(), RelocError>(()),
                Some(e) => Err::<(), RelocError>(e),
            }
            &&& *final(st) == (RtldState { objects: final(st).objects, ..*old(st) })
            &&& final(st).objects@ == if error is None {
                old(st).objects@.update(
                    idx as int,
                    (LinkMap { flags: lm.flags | RELOCATED, ..lm }),
                )
            } else {
                old(st).objects@
            }
        }),
{
    let first: Vec<Option<u64>> = resolve_globally(st, idx, arch, &st.objects[idx].tables.rela);
    let second: Vec<Option<u64>> = resolve_globally(st, idx, arch, &st.objects[idx].tables.jmprel);
    let (writes, done): (Vec<RelocWrite>, Result<(), RelocError>) = relocate(
        arch,
        &st.objects[idx],
        &first,
        &second,
    );
    match done {
        Ok(_) => {
            st.objects[idx].set_flag(RELOCATED);
        },
        Err(_) => {},
    }
    (writes, done)
}

/// How the symbols that a relocation table needs resolve for a runtime object.
pub open spec fn runtime_symbols(
    st: RtldState,
    obj: LinkMap,
    arch: Arch,
    relas: Seq<Elf64Rela>,
) -> Seq<Option<u64>> {
    Seq::new(
        relas.len(),
        |i: int|
            match symbol_needed(arch, relas[i]) {
                Some(sym) => runtime_symbol(st, obj, sym),
                None => None,
            },
    )
}

fn resolve_at_runtime(st: &RtldState, obj: &LinkMap, arch: Arch, relas: &Vec<Elf64Rela>) -> (r: Vec<
    Option<u64>,
>)
    ensures
        r@ == runtime_symbols(*st, *obj, arch, relas@),
{
    let mut out: Vec<Option<u64>> = Vec::new();
    let mut i: usize = 0;
    while i < relas.len()
        invariant
            i <= relas@.len(),
            out@.len() == i,
            forall|j: int| 0 <= j < i ==> out@[j] == runtime_symbols(*st, *obj, arch, relas@)[j],
        decreases relas@.len() - i,
    {
        out.push(
            match needed_symbol(arch, &relas[i]) {
                Some(sym) => resolve_symbol_for_runtime(st, obj, sym),
                None => None,
            },
        );
        i = i + 1;
    }
    assert(out@ =~= runtime_symbols(*st, *obj, arch, relas@));
    out
}

/// Relocates the runtime object at index `idx` of the chain, which sees all
/// scopes loaded before it. On success the object counts as relocated; the
/// writes are to be made in any case.
pub fn relocate_runtime_object(st: &mut RtldState, idx: usize, arch: Arch) -> (r: (
    Vec<RelocWrite>,
    Result<(), RelocError>,
))
    requires
        idx < old(st).chain@.len(),
    ensures
        ({
            let lm = old(st).chain@[idx as int];
            let (writes, error) = object_effects(
                arch,
                lm,
                runtime_symbols(*old(st), lm, arch, lm.tables.rela@),
                runtime_symbols(*old(st), lm, arch, lm.tables.jmprel@),
            );
            &&& r.0@ == writes
            &&& r.1 == match error {
                None => Ok::<(), RelocError>(()),
                Some(e) => Err::<(), RelocError>(e),
            }
            &&& *final(st) == (RtldState { chain: final(st).chain, ..*old(st) })
            &&& final(st).chain@ == if error is None {
                old(st).chain@.update(
                    idx as int,
                    (LinkMap { flags: lm.flags | RELOCATED, ..lm }),
                )
            } else {
                old(st).chain@
            }
        }),
{
    let first: Vec<Option<u64>> = resolve_at_runtime(
        st,
        &st.chain[idx],
        arch,
        &st.chain[idx].tables.rela,
    );
    let second: Vec<Option<u64>> = resolve_at_runtime(
        st,
        &st.chain[idx],
        arch,
        &st.chain[idx].tables.jmprel,
    );
    let (writes, done): (Vec<RelocWrite>, Result<(), RelocError>) = relocate(
        arch,
        &st.chain[idx],
        &first,
        &second,
    );
    match done {
        Ok(_) => {
            st.chain[idx].set_flag(RELOCATED);
        },
        Err(_) => {},
    }
    (writes, done)
}

/// The writes that wire the GOT for lazy binding: entry 1 is the link map entry,
/// entry 2 the resolver.
pub open spec fn got_writes(lm: LinkMap, resolver: u64) -> Seq<RelocWrite> {
    if lm.pltgot == 0 {
        Seq::empty()
    } else {
        seq![
            RelocWrite::Word { addr: lm.pltgot.wrapping_add(8), value: lm.addr },
            RelocWrite::Word { addr: lm.pltgot.wrapping_add(16), value: resolver },
        ]
    }
}

/// Wires the GOT of an object for lazy binding through `resolver`.
pub fn install_got_entries(lm: &LinkMap, resolver: u64) -> (r: Vec<RelocWrite>)
    ensures
        r@ == got_writes(*lm, resolver),
{
    let mut out: Vec<RelocWrite> = Vec::new();
    if lm.pltgot != 0 {
        out.push(RelocWrite::Word { addr: lm.pltgot.wrapping_add(8), value: lm.addr });
        out.push(RelocWrite::Word { addr: lm.pltgot.wrapping_add(16), value: resolver });
    }
    assert(out@ =~= got_writes(*lm, resolver));
    out
}

/// The value that a lazily bound symbol gets; 0 if it resolves to nothing.
pub open spec fn fixup_value(symbol: Option<u64>) -> u64 {
    match symbol {
        Some(v) => v,
        None => 0,
    }
}

/// The entry with a given address, startup objects first.
pub open spec fn entry_at(st: RtldState, addr: u64) -> Option<LinkMap> {
    match index_of(st.objects@, addr, 0) {
        Some(i) => Some(st.objects@[i]),
        None => match index_of(st.chain@, addr, 0) {
            Some(i) => Some(st.chain@[i]),
            None => None,
        },
    }
}

/// Binds PLT relocation `rel_idx` of the entry at address `link_map`: what to
/// store, and the address to continue at. `None` if there is no such entry or
/// relocation.
pub fn _dl_fixup(st: &RtldState, link_map: u64, rel_idx: usize) -> (r: Option<(RelocWrite, u64)>)
    ensures
        match entry_at(*st, link_map) {
            Some(lm) => if rel_idx < lm.tables.jmprel@.len() {
                let rela = lm.tables.jmprel@[rel_idx as int];
                let value = fixup_value(
                    match index_of(st.objects@, link_map, 0) {
                        Some(i) => global_symbol(*st, i, rela_sym(rela.r_info)),
                        None => runtime_symbol(*st, lm, rela_sym(rela.r_info)),
                    },
                );
                r == Some(
                    (RelocWrite::Word { addr: lm.base.wrapping_add(rela.r_offset), value }, value),
                )
            } else {
                r is None
            },
            None => r is None,
        },
{
    match find_by_address(&st.objects, link_map) {
        Some(i) => {
            if rel_idx >= st.objects[i].tables.jmprel.len() {
                return None;
            }
            let rela: Elf64Rela = st.objects[i].tables.jmprel[rel_idx];
            let value: u64 = match resolve_symbol_global(st, i, elf64_r_sym(rela.r_info)) {
                Some(v) => v,
                None => 0,
            };
            Some(
                (
                    RelocWrite::Word { addr: st.objects[i].base.wrapping_add(rela.r_offset), value },
                    value,
                ),
            )
        },
        None => match find_by_address(&st.chain, link_map) {
            Some(i) => {
                if rel_idx >= st.chain[i].tables.jmprel.len() {
                    return None;
                }
                let rela: Elf64Rela = st.chain[i].tables.jmprel[rel_idx];
                let value: u64 = match resolve_symbol_for_runtime(
                    st,
                    &st.chain[i],
                    elf64_r_sym(rela.r_info),
                ) {
                    Some(v) => v,
                    None => 0,
                };
                Some(
                    (
                        RelocWrite::Word {
                            addr: st.chain[i].base.wrapping_add(rela.r_offset),
                            value,
                        },
                        value,
                    ),
                )
            },
            None => None,
        },
    }
}

// ---------------------------------------------------------------------------
// What relocating an object does
// ---------------------------------------------------------------------------

/// Entry `i` of the two relocation tables of an object, one behind the other.
pub open spec fn relocation(lm: LinkMap, i: int) -> Elf64Rela {
    if i < lm.tables.rela@.len() {
        lm.tables.rela@[i]
    } else {
        lm.tables.jmprel@[i - lm.tables.rela@.len()]
    }
}

/// Whether a write is what a relocation of an object asks for, where `value` is
/// what its symbol resolved to: the symbol's value plus the addend, or the load
/// base plus the addend, stored at the place counted from the load base.
pub open spec fn is_relocated(
    arch: Arch,
    lm: LinkMap,
    r: Elf64Rela,
    value: Option<u64>,
    w: RelocWrite,
) -> bool {
    let typ = r.r_info as int % 0x1_0000_0000;
    let (against_symbol, relative) = match arch {
        Arch::X86_64 => (typ == 1 || typ == 6 || typ == 7 || typ == 17 || typ == 18, typ == 8),
        Arch::Aarch64 => (
            typ == 257 || typ == 1025 || typ == 1026 || typ == 1029 || typ == 1030,
            typ == 1027,
        ),
    };
    &&& relative ==> stores(w, lm.base + r.r_offset, lm.base + r.r_addend)
    &&& against_symbol && r.r_info as int / 0x1_0000_0000 != 0 ==> value is Some && stores(
        w,
        lm.base + r.r_offset,
        value->0 + r.r_addend,
    )
}

proof fn lemma_effects(
    arch: Arch,
    lm: LinkMap,
    first: Seq<Option<u64>>,
    second: Seq<Option<u64>>,
    i: int,
)
    requires
        object_effects(arch, lm, first, second).1 is None,
        0 <= i < lm.tables.rela@.len() + lm.tables.jmprel@.len(),
    ensures
        ({
            let writes = object_effects(arch, lm, first, second).0;
            let n = lm.tables.rela@.len();
            &&& writes.len() == n + lm.tables.jmprel@.len()
            &&& is_relocated(
                arch,
                lm,
                relocation(lm, i),
                if i < n {
                    first[i]
                } else {
                    second[i - n]
                },
                writes[i],
            )
        }),
{
    let (rela, jmprel) = (lm.tables.rela@, lm.tables.jmprel@);
    let n = rela.len() as int;
    if n > 0 {
        lemma_table_relocates_every_entry(
            arch,
            lm.base,
            rela,
            first,
            no_handlers(rela.len()),
            if i < n {
                i
            } else {
                0
            },
        );
    }
    if jmprel.len() > 0 {
        lemma_table_relocates_every_entry(
            arch,
            lm.base,
            jmprel,
            second,
            no_handlers(jmprel.len()),
            if i < n {
                0
            } else {
                i - n
            },
        );
    }
}

/// A runtime object that is relocated without an error has one write for each of
/// its relocations, those of the second table behind those of the first: an entry
/// against a symbol stores what that symbol resolves to for the object, plus the
/// addend.
pub proof fn lemma_runtime_object_is_relocated(st: RtldState, lm: LinkMap, arch: Arch, i: int)
    requires
        object_effects(
            arch,
            lm,
            runtime_symbols(st, lm, arch, lm.tables.rela@),
            runtime_symbols(st, lm, arch, lm.tables.jmprel@),
        ).1 is None,
        0 <= i < lm.tables.rela@.len() + lm.tables.jmprel@.len(),
    ensures
        ({
            let writes = object_effects(
                arch,
                lm,
                runtime_symbols(st, lm, arch, lm.tables.rela@),
                runtime_symbols(st, lm, arch, lm.tables.jmprel@),
            ).0;
            let r = relocation(lm, i);
            &&& writes.len() == lm.tables.rela@.len() + lm.tables.jmprel@.len()
            &&& is_relocated(
                arch,
                lm,
                r,
                runtime_symbol(st, lm, (r.r_info / 0x1_0000_0000) as u32),
                writes[i],
            )
        }),
{
    lemma_effects(
        arch,
        lm,
        runtime_symbols(st, lm, arch, lm.tables.rela@),
        runtime_symbols(st, lm, arch, lm.tables.jmprel@),
        i,
    );
}

/// The same for a startup object, whose symbols resolve in the global scope.
pub proof fn lemma_startup_object_is_relocated(st: RtldState, idx: int, arch: Arch, i: int)
    requires
        0 <= idx < st.objects@.len(),
        ({
            let lm = st.objects@[idx];
            &&& object_effects(
                arch,
                lm,
                global_symbols(st, idx, arch, lm.tables.rela@),
                global_symbols(st, idx, arch, lm.tables.jmprel@),
            ).1 is None
            &&& 0 <= i < lm.tables.rela@.len() + lm.tables.jmprel@.len()
        }),
    ensures
        ({
            let lm = st.objects@[idx];
            let writes = object_effects(
                arch,
                lm,
                global_symbols(st, idx, arch, lm.tables.rela@),
                global_symbols(st, idx, arch, lm.tables.jmprel@),
            ).0;
            let r = relocation(lm, i);
            &&& writes.len() == lm.tables.rela@.len() + lm.tables.jmprel@.len()
            &&& is_relocated(
                arch,
                lm,
                r,
                global_symbol(st, idx, (r.r_info / 0x1_0000_0000) as u32),
                writes[i],
            )
        }),
{
    let lm = st.objects@[idx];
    lemma_effects(
        arch,
        lm,
        global_symbols(st, idx, arch, lm.tables.rela@),
        global_symbols(st, idx, arch, lm.tables.jmprel@),
        i,
    );
}

// ---------------------------------------------------------------------------
// Where the tables are
// ---------------------------------------------------------------------------

/// Symbol `i` of an object is what memory has `24 i` bytes behind the address that
/// the dynamic section gives, from the base of the object on.
pub proof fn lemma_symbols_are_read(
    t: ObjectTables,
    lm: LinkMap,
    start: u64,
    bytes: Seq<u8>,
    i: int,
)
    requires
        holds_tables(t, addressed(lm), start, bytes),
        lm.base + lm.dyn_info.symtab <= u64::MAX,
        start <= lm.base + lm.dyn_info.symtab,
        0 <= i,
        lm.base + lm.dyn_info.symtab - start + 24 * i + 24 <= bytes.len(),
    ensures
        i < t.symtab@.len(),
        t.symtab@[i] == sym_at(bytes, lm.base + lm.dyn_info.symtab - start + 24 * i),
{
    let n = lm.base + lm.dyn_info.symtab - start;
    let rest = tail(start, bytes, lm.base.wrapping_add(lm.dyn_info.symtab));
    assert(rest == bytes.skip(n));
    lemma_symbol_of_rest(bytes, n, 24 * i);
}

proof fn lemma_symbol_of_rest(s: Seq<u8>, n: int, off: int)
    requires
        0 <= n,
        0 <= off,
        n + off + 24 <= s.len(),
    ensures
        sym_at(s.skip(n), off) == sym_at(s, n + off),
{
    lemma_fields_of_rest(s, n, off);
    lemma_fields_of_rest(s, n, off + 6);
    lemma_fields_of_rest(s, n, off + 8);
    lemma_fields_of_rest(s, n, off + 16);
    assert(n + (off + 6) == n + off + 6 && n + (off + 8) == n + off + 8 && n + (off + 16) == n + off
        + 16);
}

/// Relocation `i` of an object is what memory has `24 i` bytes behind the address
/// that the dynamic section gives, for both tables; with entries of 24 bytes there
/// are as many as fit in the size that it gives.
pub proof fn lemma_relocations_are_read(
    t: ObjectTables,
    lm: LinkMap,
    start: u64,
    bytes: Seq<u8>,
    i: int,
)
    requires
        holds_tables(t, addressed(lm), start, bytes),
        0 <= i,
        lm.dyn_info.relaent == 24 || lm.dyn_info.relaent == 0,
    ensures
        ({
            let at = lm.base + lm.dyn_info.rela;
            let n = at - start;
            lm.dyn_info.rela != 0 && start <= at <= u64::MAX && n + lm.dyn_info.relasz
                <= bytes.len() ==> {
                &&& t.rela@.len() == lm.dyn_info.relasz / 24
                &&& 24 * i + 24 <= lm.dyn_info.relasz ==> t.rela@[i] == rela_at(bytes, n + 24 * i)
            }
        }),
        ({
            let at = lm.base + lm.dyn_info.jmprel;
            let n = at - start;
            lm.dyn_info.jmprel != 0 && start < at <= u64::MAX && n + lm.dyn_info.pltrelsz
                <= bytes.len() ==> {
                &&& t.jmprel@.len() == lm.dyn_info.pltrelsz / 24
                &&& 24 * i + 24 <= lm.dyn_info.pltrelsz ==> t.jmprel@[i] == rela_at(
                    bytes,
                    n + 24 * i,
                )
            }
        }),
{
    let di = lm.dyn_info;
    let n = lm.base + di.rela - start;
    if di.rela != 0 && start <= lm.base + di.rela <= u64::MAX && n + di.relasz <= bytes.len() {
        let rest = tail(start, bytes, lm.base.wrapping_add(di.rela));
        assert(rest == bytes.skip(n));
        assert(addressed(lm).rela != 0) by {
            assert(lm.base.wrapping_add(di.rela) == lm.base + di.rela);
        }
        if 24 * i + 24 <= di.relasz {
            lemma_relocation_of_rest(bytes, n, 24 * i);
        }
    }
    let m = lm.base + di.jmprel - start;
    if di.jmprel != 0 && start < lm.base + di.jmprel <= u64::MAX && m + di.pltrelsz
        <= bytes.len() {
        let rest = tail(start, bytes, lm.base.wrapping_add(di.jmprel));
        assert(rest == bytes.skip(m));
        if 24 * i + 24 <= di.pltrelsz {
            lemma_relocation_of_rest(bytes, m, 24 * i);
        }
    }
}

proof fn lemma_relocation_of_rest(s: Seq<u8>, n: int, off: int)
    requires
        0 <= n,
        0 <= off,
        n + off + 24 <= s.len(),
    ensures
        rela_at(s.skip(n), off) == rela_at(s, n + off),
{
    lemma_fields_of_rest(s, n, off);
    lemma_fields_of_rest(s, n, off + 8);
    lemma_fields_of_rest(s, n, off + 16);
    assert(n + (off + 8) == n + off + 8 && n + (off + 16) == n + off + 16);
}

/// Lazy binding finds its way: the second word of the GOT is the entry of the
/// object, the third the resolver.
pub proof fn lemma_got_is_wired(lm: LinkMap, resolver: u64)
    requires
        lm.pltgot != 0,
    ensures
        got_writes(lm, resolver).len() == 2,
        stores(got_writes(lm, resolver)[0], lm.pltgot + 8, lm.addr as int),
        stores(got_writes(lm, resolver)[1], lm.pltgot + 16, resolver as int),
{
}

/// A runtime object is found by its path, its shared object name or its name, the
/// first one of several; none is found only if none answers.
pub proof fn lemma_first_answer_is_found(chain: Seq<LinkMap>, needle: Seq<u8>, i: int, k: int)
    requires
        0 <= i <= k <= chain.len(),
        forall|j: int| i <= j < k ==> !chain_answers(#[trigger] chain[j], needle),
        k < chain.len() ==> chain_answers(chain[k], needle),
    ensures
        chain_named(chain, needle, i) == if k < chain.len() {
            Some(k)
        } else {
            None
        },
    decreases k - i,
{
    if i < k {
        assert(!chain_answers(chain[i], needle));
        lemma_first_answer_is_found(chain, needle, i + 1, k);
    }
}

/// An object answers to its path, its shared object name and its name.
pub proof fn lemma_object_answers(lm: LinkMap)
    ensures
        lm.path is Some ==> chain_answers(lm, lm.path->0.bytes@),
        lm.soname is Some ==> chain_answers(lm, lm.soname->0.bytes@) && seed_answers(
            lm,
            lm.soname->0.bytes@,
        ),
        lm.name is Some ==> chain_answers(lm, lm.name->0.bytes@) && seed_answers(
            lm,
            lm.name->0.bytes@,
        ),
{
}

} // verus!
