//! Symbol scopes.
//!
//! - **Global**: visible to every lookup. The startup objects, and every runtime
//!   object opened for the global scope.
//! - **Local**: visible only through the handle that an open gave, with the
//!   dependencies of that object.
//! - **Next**: the global scope from behind the object that holds the caller on.
use crate::loader::elf::symbol::{
    lemma_linear_lookup_finds_first, lookup_symbol_versioned, policy_of, symbol_find, verneed_name,
    verneed_required_name,
    versym_index, VersionCheck, VersionPolicy,
};
use crate::loader::elf::types::{
    elf64_st_bind, elf64_st_visibility, Elf64Phdr, Elf64Sym, PT_LOAD, SHN_UNDEF, STB_LOCAL,
    STB_WEAK, STV_HIDDEN, STV_PROTECTED, VER_NDX_GLOBAL,
};
use crate::loader::bytes::{c_str, read_c_str};
use crate::loader::link_flags::RTLD_GLOBAL;
use crate::loader::link_map::{LinkMap, RtldState};
use crate::loader::rtld::elf::object::{
    entry_at, find_by_address, string_at, sym_count, symbols_counted, table_view,
};
use vstd::prelude::*;
use vstd::slice::slice_subrange;

verus! {

/// Scope that an open asks for.
#[derive(Clone, Copy, PartialEq, Eq, Debug, Structural)]
pub enum Scope {
    Global,
    Local,
    Nodelete,
}

impl Scope {
    /// The scope in open flags.
    pub fn from_flags(flags: i32) -> (r: Scope)
        ensures
            r == if flags & 0x1000 != 0 {
                Scope::Nodelete
            } else if flags & 0x0100 != 0 {
                Scope::Global
            } else {
                Scope::Local
            },
    {
        if flags & 0x1000 != 0 {
            Scope::Nodelete
        } else if flags & 0x0100 != 0 {
            Scope::Global
        } else {
            Scope::Local
        }
    }
}

// ---------------------------------------------------------------------------
// Lookup in one object
// ---------------------------------------------------------------------------

/// An optional byte string.
pub open spec fn bytes_view(s: Option<&[u8]>) -> Option<Seq<u8>> {
    match s {
        Some(b) => Some(b@),
        None => None,
    }
}

/// The symbols that a lookup considers: with a hash table those it leads to,
/// otherwise as many as are counted.
pub open spec fn lookup_syms(lm: LinkMap) -> Seq<Elf64Sym> {
    if lm.tables.gnu_hash is Some || symbols_counted(lm) >= lm.tables.symtab@.len() {
        lm.tables.symtab@
    } else {
        lm.tables.symtab@.take(symbols_counted(lm))
    }
}

/// The version policy of a lookup in an object. Without versions and without a
/// request there is nothing to enforce.
pub open spec fn lookup_policy(lm: LinkMap, required: Option<Seq<u8>>) -> Option<VersionPolicy> {
    if lm.tables.versym is None && required is None {
        None
    } else {
        Some(
            VersionPolicy {
                versym: table_view(lm.tables.versym),
                verdef: table_view(lm.tables.verdef),
                strtab: lm.tables.strtab@,
                required,
            },
        )
    }
}

/// The address of a symbol that an object defines.
pub open spec fn object_symbol(lm: LinkMap, name: Seq<u8>, required: Option<Seq<u8>>) -> Option<
    u64,
> {
    if lm.symtab == 0 || lm.strtab == 0 {
        None
    } else {
        match symbol_find(
            table_view(lm.tables.gnu_hash),
            lookup_syms(lm),
            lm.tables.strtab@,
            name,
            lookup_policy(lm, required),
        ) {
            Some(i) => Some(lm.base.wrapping_add(lookup_syms(lm)[i].st_value)),
            None => None,
        }
    }
}

/// Looks a name up in one object.
fn lookup_one(lm: &LinkMap, name: &[u8], required: Option<&[u8]>) -> (r: Option<u64>)
    ensures
        r == object_symbol(*lm, name@, bytes_view(required)),
{
    if lm.symtab == 0 || lm.strtab == 0 {
        return None;
    }
    let versym: Option<&[u16]> = match &lm.tables.versym {
        Some(v) => Some(v.as_slice()),
        None => None,
    };
    let verdef: Option<&[u8]> = match &lm.tables.verdef {
        Some(v) => Some(v.as_slice()),
        None => None,
    };
    let check = VersionCheck { versym, verdef, strtab: lm.tables.strtab.as_slice(), required };
    let version_check: Option<&VersionCheck<'_>> = if versym.is_none() && required.is_none() {
        None
    } else {
        Some(&check)
    };
    let table: Option<&[u32]> = match &lm.tables.gnu_hash {
        Some(t) => Some(t.as_slice()),
        None => None,
    };
    let all: &[Elf64Sym] = lm.tables.symtab.as_slice();
    let count: u128 = sym_count(lm);
    let syms: &[Elf64Sym] = if table.is_some() || count >= all.len() as u128 {
        all
    } else {
        slice_subrange(all, 0, count as usize)
    };
    assert(syms@ =~= lookup_syms(*lm));
    assert(policy_of(version_check) == lookup_policy(*lm, bytes_view(required)));
    match lookup_symbol_versioned(table, syms, lm.tables.strtab.as_slice(), name, version_check) {
        Some(sym) => Some(lm.base.wrapping_add(sym.st_value)),
        None => None,
    }
}

/// The version that an object asks for with the symbol `sym_idx`, if any.
pub open spec fn required_version(lm: LinkMap, sym_idx: u32) -> Option<Seq<u8>> {
    match lm.tables.versym {
        Some(v) => if sym_idx < v@.len() && v@[sym_idx as int] % 0x8000 > 1 {
            match lm.tables.verneed {
                Some(needs) => match verneed_name(
                    needs@,
                    (v@[sym_idx as int] % 0x8000) as u16,
                    lm.verneed_num as int,
                    0,
                ) {
                    Some(off) => if off <= lm.tables.strtab@.len() {
                        Some(c_str(lm.tables.strtab@, off as int))
                    } else {
                        None
                    },
                    None => None,
                },
                None => None,
            }
        } else {
            None
        },
        None => None,
    }
}

/// The version that the requesting object asks for: its version index, unless
/// that is the local or the global one, looked up in its requirements.
fn required_version_for(obj: &LinkMap, sym_idx: u32) -> (r: Option<&[u8]>)
    ensures
        bytes_view(r) == required_version(*obj, sym_idx),
{
    let versym: Option<&[u16]> = match &obj.tables.versym {
        Some(v) => Some(v.as_slice()),
        None => None,
    };
    match versym_index(versym, sym_idx) {
        None => None,
        Some(raw) => {
            if raw <= VER_NDX_GLOBAL {
                return None;
            }
            match &obj.tables.verneed {
                Some(needs) => verneed_required_name(
                    needs.as_slice(),
                    obj.verneed_num,
                    obj.tables.strtab.as_slice(),
                    raw,
                ),
                None => None,
            }
        },
    }
}

fn symbol_name(obj: &LinkMap, st_name: u32) -> (r: &[u8])
    ensures
        r@ == string_at(obj.tables.strtab@, st_name as u64),
{
    let strtab: &[u8] = obj.tables.strtab.as_slice();
    if st_name as u64 <= strtab.len() as u64 {
        read_c_str(strtab, st_name as usize)
    } else {
        let none: &[u8] = slice_subrange(strtab, 0, 0);
        assert(none@ =~= Seq::<u8>::empty());
        none
    }
}

// ---------------------------------------------------------------------------
// The global scope
// ---------------------------------------------------------------------------

/// Number of startup objects behind the linker itself.
pub open spec fn seed_len(st: RtldState) -> int {
    if st.objects@.len() == 0 {
        0
    } else {
        st.objects@.len() - 1
    }
}

/// Number of objects in the search order: the startup objects behind the linker
/// itself, then the runtime objects.
pub open spec fn scope_len(st: RtldState) -> int {
    seed_len(st) + st.chain@.len()
}

/// The `k`-th object of the search order.
pub open spec fn scope_object(st: RtldState, k: int) -> LinkMap {
    if k < seed_len(st) {
        st.objects@[k + 1]
    } else {
        st.chain@[k - seed_len(st)]
    }
}

/// Whether the `k`-th object of the search order is in the global scope.
pub open spec fn in_global_scope(st: RtldState, k: int) -> bool {
    k < seed_len(st) || scope_object(st, k).flagged(RTLD_GLOBAL)
}

/// The definition of a name in the linker itself; none before it is set up.
pub open spec fn linker_symbol(
    st: RtldState,
    name: Seq<u8>,
    required: Option<Seq<u8>>,
) -> Option<u64> {
    if st.objects@.len() == 0 {
        None
    } else {
        object_symbol(st.objects@[0], name, required)
    }
}

fn lookup_in_linker(st: &RtldState, name: &[u8], required: Option<&[u8]>) -> (r: Option<u64>)
    ensures
        r == linker_symbol(*st, name@, bytes_view(required)),
{
    if st.objects.len() == 0 {
        None
    } else {
        lookup_one(&st.objects[0], name, required)
    }
}

fn count_seeds(st: &RtldState) -> (r: usize)
    ensures
        r == seed_len(*st),
{
    if st.objects.len() == 0 {
        0
    } else {
        st.objects.len() - 1
    }
}

/// The first definition of a name in the global scope, from the `k`-th object of
/// the search order on.
pub open spec fn scope_symbol(
    st: RtldState,
    k: int,
    name: Seq<u8>,
    required: Option<Seq<u8>>,
) -> Option<u64>
    decreases scope_len(st) - k,
{
    if k < 0 || k >= scope_len(st) {
        None
    } else if in_global_scope(st, k) && object_symbol(scope_object(st, k), name, required) is Some {
        object_symbol(scope_object(st, k), name, required)
    } else {
        scope_symbol(st, k + 1, name, required)
    }
}

fn lookup_in_scope(st: &RtldState, from: usize, name: &[u8], required: Option<&[u8]>) -> (r: Option<
    u64,
>)
    ensures
        r == scope_symbol(*st, from as int, name@, bytes_view(required)),
{
    let seeds: usize = count_seeds(st);
    let mut k: usize = from;
    while k < seeds
        invariant
            seeds == seed_len(*st),
            if from <= seeds {
                k <= seeds
            } else {
                k == from
            },
            scope_symbol(*st, from as int, name@, bytes_view(required)) == scope_symbol(
                *st,
                k as int,
                name@,
                bytes_view(required),
            ),
        decreases seeds - k,
    {
        match lookup_one(&st.objects[k + 1], name, required) {
            Some(addr) => {
                return Some(addr);
            },
            None => {},
        }
        k = k + 1;
    }
    let mut i: usize = if from > seeds {
        from - seeds
    } else {
        0
    };
    while i < st.chain.len()
        invariant
            seeds == seed_len(*st),
            scope_symbol(*st, from as int, name@, bytes_view(required)) == scope_symbol(
                *st,
                seeds + i,
                name@,
                bytes_view(required),
            ),
        decreases st.chain@.len() - i,
    {
        assert(scope_object(*st, seeds + i) == st.chain@[i as int]);
        if st.chain[i].has_flag(RTLD_GLOBAL) {
            match lookup_one(&st.chain[i], name, required) {
                Some(addr) => {
                    return Some(addr);
                },
                None => {},
            }
        }
        i = i + 1;
    }
    None
}

/// `a`, or `b` where there is none.
pub open spec fn or_else(a: Option<u64>, b: Option<u64>) -> Option<u64> {
    match a {
        Some(_) => a,
        None => b,
    }
}

/// Whether a symbol of an object binds to that object whatever others define: it
/// is defined, and local, hidden or protected.
pub open spec fn binds_locally(sym: Elf64Sym) -> bool {
    sym.st_shndx != 0 && (sym.st_info / 16 == 0 || sym.st_other % 4 == 2 || sym.st_other % 4 == 3)
}

/// What a symbol that nothing defines resolves to: zero if it is weak.
pub open spec fn undefined_symbol(sym: Elf64Sym) -> Option<u64> {
    if sym.st_info / 16 == 2 {
        Some(0)
    } else {
        None
    }
}

/// How symbol `sym_idx` of the startup object `requesting` resolves.
pub open spec fn global_symbol(st: RtldState, requesting: int, sym_idx: u32) -> Option<u64> {
    let obj = st.objects@[requesting];
    if sym_idx >= obj.tables.symtab@.len() {
        None
    } else {
        let sym = obj.tables.symtab@[sym_idx as int];
        let name = string_at(obj.tables.strtab@, sym.st_name as u64);
        let required = required_version(obj, sym_idx);
        if sym.st_name == 0 {
            Some(0)
        } else if binds_locally(sym) {
            Some(obj.base.wrapping_add(sym.st_value))
        } else {
            or_else(
                scope_symbol(st, 0, name, required),
                or_else(linker_symbol(st, name, required), undefined_symbol(sym)),
            )
        }
    }
}

fn is_local(sym: &Elf64Sym) -> (r: bool)
    ensures
        r == binds_locally(*sym),
{
    let bind: u8 = elf64_st_bind(sym.st_info);
    let visibility: u8 = elf64_st_visibility(sym.st_other);
    sym.st_shndx != SHN_UNDEF && (bind == STB_LOCAL || visibility == STV_HIDDEN || visibility
        == STV_PROTECTED)
}

fn or_weak(sym: &Elf64Sym) -> (r: Option<u64>)
    ensures
        r == undefined_symbol(*sym),
{
    if elf64_st_bind(sym.st_info) == STB_WEAK {
        Some(0)
    } else {
        None
    }
}

/// Resolves symbol `sym_idx` of the startup object `requesting` in the global
/// scope, the linker itself last. A weak symbol that nothing defines is zero; an
/// index outside of the symbol table resolves to nothing.
pub fn resolve_symbol_global(st: &RtldState, requesting: usize, sym_idx: u32) -> (r: Option<u64>)
    requires
        requesting < st.objects@.len(),
    ensures
        r == global_symbol(*st, requesting as int, sym_idx),
{
    let obj: &LinkMap = &st.objects[requesting];
    if sym_idx as u64 >= obj.tables.symtab.len() as u64 {
        return None;
    }
    let sym: &Elf64Sym = &obj.tables.symtab[sym_idx as usize];
    if sym.st_name == 0 {
        return Some(0);
    }
    if is_local(sym) {
        return Some(obj.base.wrapping_add(sym.st_value));
    }
    let name: &[u8] = symbol_name(obj, sym.st_name);
    let required: Option<&[u8]> = required_version_for(obj, sym_idx);
    match lookup_in_scope(st, 0, name, required) {
        Some(addr) => {
            return Some(addr);
        },
        None => {},
    }
    match lookup_in_linker(st, name, required) {
        Some(addr) => {
            return Some(addr);
        },
        None => {},
    }
    or_weak(sym)
}

// ---------------------------------------------------------------------------
// Dependencies
// ---------------------------------------------------------------------------

/// Most objects that a search through dependencies visits or has in hand.
pub const MAX_RUNTIME_SCOPE_OBJECTS: usize = 64;

/// The stack with the dependencies of an object on it, the first one on top, as
/// far as they fit; the last ones are pushed first.
pub open spec fn pushed(stack: Seq<u64>, deps: Seq<u64>, n: int) -> Seq<u64>
    decreases n,
{
    if n <= 0 || stack.len() >= 64 {
        stack
    } else {
        pushed(stack.push(deps[n - 1]), deps, n - 1)
    }
}

/// Searches the objects on a stack and their dependencies, depth first, each
/// object at most once.
pub open spec fn deps_search(
    st: RtldState,
    stack: Seq<u64>,
    seen: Seq<u64>,
    name: Seq<u8>,
    required: Option<Seq<u8>>,
) -> Option<u64>
    decreases 64 - seen.len(), stack.len(),
{
    if stack.len() == 0 {
        None
    } else {
        let addr = stack.last();
        let rest = stack.drop_last();
        match entry_at(st, addr) {
            Some(lm) => if addr == 0 || seen.contains(addr) || seen.len() >= 64 {
                deps_search(st, rest, seen, name, required)
            } else {
                match object_symbol(lm, name, required) {
                    Some(value) => Some(value),
                    None => deps_search(
                        st,
                        pushed(rest, lm.deps@, lm.deps@.len() as int),
                        seen.push(addr),
                        name,
                        required,
                    ),
                }
            },
            None => deps_search(st, rest, seen, name, required),
        }
    }
}

/// The definition of a name in the dependencies of an object.
pub open spec fn deps_symbol(
    st: RtldState,
    root: LinkMap,
    name: Seq<u8>,
    required: Option<Seq<u8>>,
) -> Option<u64> {
    deps_search(
        st,
        pushed(Seq::empty(), root.deps@, root.deps@.len() as int),
        seq![root.addr],
        name,
        required,
    )
}

fn push_deps_reverse(lm: &LinkMap, stack: &mut Vec<u64>)
    ensures
        final(stack)@ == pushed(old(stack)@, lm.deps@, lm.deps@.len() as int),
{
    let mut i: usize = lm.deps.len();
    while i > 0
        invariant
            i <= lm.deps@.len(),
            pushed(old(stack)@, lm.deps@, lm.deps@.len() as int) == pushed(
                stack@,
                lm.deps@,
                i as int,
            ),
        decreases i,
    {
        if stack.len() >= MAX_RUNTIME_SCOPE_OBJECTS {
            return;
        }
        i = i - 1;
        stack.push(lm.deps[i]);
    }
}

fn ptr_seen(seen: &Vec<u64>, addr: u64) -> (r: bool)
    ensures
        r == seen@.contains(addr),
{
    let mut i: usize = 0;
    while i < seen.len()
        invariant
            i <= seen@.len(),
            forall|j: int| 0 <= j < i ==> seen@[j] != addr,
        decreases seen@.len() - i,
    {
        if seen[i] == addr {
            assert(seen@.contains(seen@[i as int]));
            return true;
        }
        i = i + 1;
    }
    false
}

/// The entry with a given address, startup objects first.
pub fn find_entry(st: &RtldState, addr: u64) -> (r: Option<&LinkMap>)
    ensures
        match entry_at(*st, addr) {
            Some(lm) => r is Some && *r->0 == lm,
            None => r is None,
        },
{
    match find_by_address(&st.objects, addr) {
        Some(i) => Some(&st.objects[i]),
        None => match find_by_address(&st.chain, addr) {
            Some(i) => Some(&st.chain[i]),
            None => None,
        },
    }
}

/// Looks a name up in the dependencies of an object, depth first.
fn lookup_in_runtime_deps(st: &RtldState, root: &LinkMap, name: &[u8], required: Option<&[u8]>) -> (r:
    Option<u64>)
    ensures
        r == deps_symbol(*st, *root, name@, bytes_view(required)),
{
    let mut stack: Vec<u64> = Vec::new();
    assert(stack@ =~= Seq::empty());
    let mut seen: Vec<u64> = Vec::new();
    seen.push(root.addr);
    assert(seen@ =~= seq![root.addr]);
    push_deps_reverse(root, &mut stack);
    loop
        invariant
            deps_symbol(*st, *root, name@, bytes_view(required)) == deps_search(
                *st,
                stack@,
                seen@,
                name@,
                bytes_view(required),
            ),
            seen@.len() <= 64,
        decreases 64 - seen@.len(), stack@.len(),
    {
        let addr: u64 = match stack.pop() {
            Some(a) => a,
            None => {
                return None;
            },
        };
        match find_entry(st, addr) {
            Some(lm) => {
                if addr != 0 && !ptr_seen(&seen, addr) && seen.len() < MAX_RUNTIME_SCOPE_OBJECTS {
                    seen.push(addr);
                    match lookup_one(lm, name, required) {
                        Some(value) => {
                            return Some(value);
                        },
                        None => {},
                    }
                    push_deps_reverse(lm, &mut stack);
                }
            },
            None => {},
        }
    }
}

/// How symbol `sym_idx` of the runtime object `obj` resolves.
pub open spec fn runtime_symbol(st: RtldState, obj: LinkMap, sym_idx: u32) -> Option<u64> {
    if sym_idx >= obj.tables.symtab@.len() {
        None
    } else {
        let sym = obj.tables.symtab@[sym_idx as int];
        let name = string_at(obj.tables.strtab@, sym.st_name as u64);
        let required = required_version(obj, sym_idx);
        if sym.st_name == 0 {
            Some(0)
        } else if binds_locally(sym) {
            Some(obj.base.wrapping_add(sym.st_value))
        } else {
            or_else(
                scope_symbol(st, 0, name, required),
                or_else(
                    deps_symbol(st, obj, name, required),
                    or_else(
                        object_symbol(obj, name, required),
                        or_else(
                            linker_symbol(st, name, required),
                            undefined_symbol(sym),
                        ),
                    ),
                ),
            )
        }
    }
}

/// Resolves symbol `sym_idx` of the runtime object `obj`: startup objects first,
/// then the global runtime objects, then the object's own dependencies, the
/// object itself, and the linker.
///
/// The dependencies count even where they are local: they are not globally
/// visible, but part of the object's own scope.
pub fn resolve_symbol_for_runtime(st: &RtldState, obj: &LinkMap, sym_idx: u32) -> (r: Option<u64>)
    ensures
        r == runtime_symbol(*st, *obj, sym_idx),
{
    if sym_idx as u64 >= obj.tables.symtab.len() as u64 {
        return None;
    }
    let sym: &Elf64Sym = &obj.tables.symtab[sym_idx as usize];
    if sym.st_name == 0 {
        return Some(0);
    }
    if is_local(sym) {
        return Some(obj.base.wrapping_add(sym.st_value));
    }
    let name: &[u8] = symbol_name(obj, sym.st_name);
    let required: Option<&[u8]> = required_version_for(obj, sym_idx);
    match lookup_in_scope(st, 0, name, required) {
        Some(addr) => {
            return Some(addr);
        },
        None => {},
    }
    match lookup_in_runtime_deps(st, obj, name, required) {
        Some(addr) => {
            return Some(addr);
        },
        None => {},
    }
    match lookup_one(obj, name, required) {
        Some(addr) => {
            return Some(addr);
        },
        None => {},
    }
    match lookup_in_linker(st, name, required) {
        Some(addr) => {
            return Some(addr);
        },
        None => {},
    }
    or_weak(sym)
}

// ---------------------------------------------------------------------------
// Lookup by name
// ---------------------------------------------------------------------------

/// The definition of a name in the global scope, the linker itself last.
pub open spec fn default_symbol(st: RtldState, name: Seq<u8>) -> Option<u64> {
    or_else(scope_symbol(st, 0, name, None), linker_symbol(st, name, None))
}

/// Resolves a name in the global scope: in the startup objects in load order, then
/// in the global runtime objects, in the linker last.
pub fn resolve_default(st: &RtldState, name: &[u8]) -> (r: Option<u64>)
    ensures
        r == default_symbol(*st, name@),
{
    match lookup_in_scope(st, 0, name, None) {
        Some(addr) => Some(addr),
        None => lookup_in_linker(st, name, None),
    }
}

/// Resolves a name strictly within a handle: the object itself first, then its
/// dependencies.
pub fn resolve_in_handle(st: &RtldState, handle: &LinkMap, name: &[u8]) -> (r: Option<u64>)
    ensures
        r == or_else(
            object_symbol(*handle, name@, None),
            deps_symbol(*st, *handle, name@, None),
        ),
{
    match lookup_one(handle, name, None) {
        Some(addr) => Some(addr),
        None => lookup_in_runtime_deps(st, handle, name, None),
    }
}

/// Whether a segment of an object at `base` covers an address.
pub open spec fn segment_covers(ph: Elf64Phdr, base: u64, pc: u64) -> bool {
    let lo = base.wrapping_add(ph.p_vaddr);
    ph.p_type == 1 && ph.p_memsz != 0 && lo <= pc < lo.wrapping_add(ph.p_memsz)
}

/// Whether an object covers an address: by its mapping, or where that is not
/// known by its segments.
pub open spec fn covers_pc(lm: LinkMap, pc: u64) -> bool {
    if lm.map_start != 0 && lm.map_end > lm.map_start {
        lm.map_start <= pc < lm.map_end
    } else {
        lm.phdr != 0 && lm.phnum != 0 && exists|i: int|
            0 <= i < lm.tables.phdrs@.len() && segment_covers(
                #[trigger] lm.tables.phdrs@[i],
                lm.base,
                pc,
            )
    }
}

fn pc_in_object(lm: &LinkMap, pc: u64) -> (r: bool)
    ensures
        r == covers_pc(*lm, pc),
{
    if lm.map_start != 0 && lm.map_end > lm.map_start {
        return pc >= lm.map_start && pc < lm.map_end;
    }
    if lm.phdr == 0 || lm.phnum == 0 {
        return false;
    }
    let mut i: usize = 0;
    while i < lm.tables.phdrs.len()
        invariant
            i <= lm.tables.phdrs@.len(),
            forall|j: int|
                0 <= j < i ==> !segment_covers(#[trigger] lm.tables.phdrs@[j], lm.base, pc),
            !(lm.map_start != 0 && lm.map_end > lm.map_start),
            lm.phdr != 0 && lm.phnum != 0,
        decreases lm.tables.phdrs@.len() - i,
    {
        let ph: &Elf64Phdr = &lm.tables.phdrs[i];
        let lo: u64 = lm.base.wrapping_add(ph.p_vaddr);
        let hi: u64 = lo.wrapping_add(ph.p_memsz);
        if ph.p_type == PT_LOAD && ph.p_memsz != 0 && pc >= lo && pc < hi {
            assert(segment_covers(lm.tables.phdrs@[i as int], lm.base, pc));
            return true;
        }
        i = i + 1;
    }
    false
}

/// Index of the first entry from `i` on that covers an address.
pub open spec fn index_covering(entries: Seq<LinkMap>, pc: u64, i: int) -> Option<int>
    decreases entries.len() - i,
{
    if i < 0 || i >= entries.len() {
        None
    } else if covers_pc(entries[i], pc) {
        Some(i)
    } else {
        index_covering(entries, pc, i + 1)
    }
}

/// The object that covers an address, startup objects first.
pub open spec fn object_covering(st: RtldState, pc: u64) -> Option<LinkMap> {
    match index_covering(st.objects@, pc, 0) {
        Some(i) => Some(st.objects@[i]),
        None => match index_covering(st.chain@, pc, 0) {
            Some(i) => Some(st.chain@[i]),
            None => None,
        },
    }
}

fn find_covering(entries: &Vec<LinkMap>, pc: u64) -> (r: Option<usize>)
    ensures
        match index_covering(entries@, pc, 0) {
            Some(i) => r is Some && r->0 == i && i < entries@.len(),
            None => r is None,
        },
{
    let mut i: usize = 0;
    while i < entries.len()
        invariant
            i <= entries@.len(),
            index_covering(entries@, pc, 0) == index_covering(entries@, pc, i as int),
        decreases entries@.len() - i,
    {
        if pc_in_object(&entries[i], pc) {
            return Some(i);
        }
        i = i + 1;
    }
    None
}

/// Locates the object that maps the address `pc`.
pub fn locate_object_by_pc(st: &RtldState, pc: u64) -> (r: Option<&LinkMap>)
    ensures
        match object_covering(*st, pc) {
            Some(lm) => r is Some && *r->0 == lm,
            None => r is None,
        },
{
    match find_covering(&st.objects, pc) {
        Some(i) => Some(&st.objects[i]),
        None => match find_covering(&st.chain, pc) {
            Some(i) => Some(&st.chain[i]),
            None => None,
        },
    }
}

/// The place of an entry in the search order, from the `k`-th on.
pub open spec fn scope_index(st: RtldState, addr: u64, k: int) -> Option<int>
    decreases scope_len(st) - k,
{
    if k < 0 || k >= scope_len(st) {
        None
    } else if scope_object(st, k).addr == addr {
        Some(k)
    } else {
        scope_index(st, addr, k + 1)
    }
}

/// The next definition of a name behind the object that holds the caller. The
/// linker itself has no place in the search order: nothing is behind it.
pub open spec fn next_symbol(st: RtldState, caller_pc: u64, name: Seq<u8>) -> Option<u64> {
    match object_covering(st, caller_pc) {
        Some(caller) => match scope_index(st, caller.addr, 0) {
            Some(k) => or_else(
                scope_symbol(st, k + 1, name, None),
                linker_symbol(st, name, None),
            ),
            None => None,
        },
        None => None,
    }
}

/// Resolves a name from behind the object that holds `caller_pc` on.
pub fn resolve_next_after(st: &RtldState, caller_pc: u64, name: &[u8]) -> (r: Option<u64>)
    requires
        scope_len(*st) < usize::MAX,
    ensures
        r == next_symbol(*st, caller_pc, name@),
{
    let caller: u64 = match locate_object_by_pc(st, caller_pc) {
        Some(lm) => lm.addr,
        None => {
            return None;
        },
    };
    let seeds: usize = count_seeds(st);
    let len: usize = seeds + st.chain.len();
    let mut k: usize = 0;
    while k < len
        invariant
            seeds == seed_len(*st),
            len == scope_len(*st),
            len < usize::MAX,
            k <= len,
            object_covering(*st, caller_pc) is Some,
            object_covering(*st, caller_pc)->0.addr == caller,
            scope_index(*st, caller, 0) == scope_index(*st, caller, k as int),
        decreases len - k,
    {
        let addr: u64 = if k < seeds {
            st.objects[k + 1].addr
        } else {
            st.chain[k - seeds].addr
        };
        assert(addr == scope_object(*st, k as int).addr);
        if addr == caller {
            return match lookup_in_scope(st, k + 1, name, None) {
                Some(value) => Some(value),
                None => lookup_in_linker(st, name, None),
            };
        }
        k = k + 1;
    }
    None
}

// ---------------------------------------------------------------------------
// Laws
// ---------------------------------------------------------------------------

proof fn lemma_scope_hit(st: RtldState, k: int, i: int, name: Seq<u8>, required: Option<Seq<u8>>)
    requires
        0 <= k <= i < scope_len(st),
        in_global_scope(st, i),
        object_symbol(scope_object(st, i), name, required) is Some,
    ensures
        scope_symbol(st, k, name, required) is Some,
    decreases i - k,
{
    if k < i {
        lemma_scope_hit(st, k + 1, i, name, required);
    }
}

/// Startup libraries take priority: a name that one of them defines resolves for
/// a runtime object as it does for the whole process, whatever was loaded later.
pub proof fn lemma_startup_objects_take_priority(
    st: RtldState,
    obj: LinkMap,
    sym_idx: u32,
    i: int,
)
    requires
        1 <= i < st.objects@.len(),
        sym_idx < obj.tables.symtab@.len(),
        obj.tables.symtab@[sym_idx as int].st_name != 0,
        !binds_locally(obj.tables.symtab@[sym_idx as int]),
        object_symbol(
            st.objects@[i],
            string_at(
                obj.tables.strtab@,
                obj.tables.symtab@[sym_idx as int].st_name as u64,
            ),
            required_version(obj, sym_idx),
        ) is Some,
    ensures
        runtime_symbol(st, obj, sym_idx) == scope_symbol(
            st,
            0,
            string_at(
                obj.tables.strtab@,
                obj.tables.symtab@[sym_idx as int].st_name as u64,
            ),
            required_version(obj, sym_idx),
        ),
{
    lemma_scope_hit(
        st,
        0,
        i - 1,
        string_at(obj.tables.strtab@, obj.tables.symtab@[sym_idx as int].st_name as u64),
        required_version(obj, sym_idx),
    );
}

/// The startup part of the scope decides first: what it finds does not depend on
/// the runtime objects.
proof fn lemma_scope_skip(
    a: RtldState,
    b: RtldState,
    j: int,
    k: int,
    name: Seq<u8>,
    required: Option<Seq<u8>>,
)
    requires
        a.objects@ == b.objects@,
        0 <= j < a.chain@.len(),
        b.chain@ == a.chain@.remove(j),
        !a.chain@[j].flagged(RTLD_GLOBAL),
        0 <= k,
    ensures
        k <= seed_len(a) + j ==> scope_symbol(a, k, name, required) == scope_symbol(
            b,
            k,
            name,
            required,
        ),
        k > seed_len(a) + j ==> scope_symbol(a, k, name, required) == scope_symbol(
            b,
            k - 1,
            name,
            required,
        ),
    decreases scope_len(a) - k,
{
    let at = seed_len(a) + j;
    if k < scope_len(a) {
        lemma_scope_skip(a, b, j, k + 1, name, required);
        if k < at {
            assert(scope_object(a, k) == scope_object(b, k));
        } else if k > at {
            assert(scope_object(a, k) == scope_object(b, k - 1));
        }
    }
}

/// An object outside of the global scope is invisible there: taking it out of
/// the chain changes no global lookup.
pub proof fn lemma_local_objects_are_invisible(a: RtldState, b: RtldState, j: int, name: Seq<u8>)
    requires
        a.objects@ == b.objects@,
        0 <= j < a.chain@.len(),
        b.chain@ == a.chain@.remove(j),
        !a.chain@[j].flagged(RTLD_GLOBAL),
    ensures
        default_symbol(a, name) == default_symbol(b, name),
{
    lemma_scope_skip(a, b, j, 0, name, None);
}

proof fn lemma_pushed_within(stack: Seq<u64>, deps: Seq<u64>, n: int, within: Set<u64>)
    requires
        0 <= n <= deps.len(),
        forall|i: int| 0 <= i < stack.len() ==> within.contains(#[trigger] stack[i]),
        forall|i: int| 0 <= i < deps.len() ==> within.contains(#[trigger] deps[i]),
    ensures
        forall|i: int|
            0 <= i < pushed(stack, deps, n).len() ==> within.contains(
                #[trigger] pushed(stack, deps, n)[i],
            ),
    decreases n,
{
    if n > 0 && stack.len() < 64 {
        let next = stack.push(deps[n - 1]);
        assert forall|i: int| 0 <= i < next.len() implies within.contains(#[trigger] next[i]) by {
            if i < stack.len() {
                assert(within.contains(stack[i]));
            }
        }
        lemma_pushed_within(next, deps, n - 1, within);
        assert(pushed(stack, deps, n) == pushed(next, deps, n - 1));
    }
}

/// Whether a set of handles holds the dependencies of every object in it.
pub open spec fn closed_under_deps(st: RtldState, within: Set<u64>) -> bool {
    forall|a: u64, i: int|
        #![trigger entry_at(st, a)->0.deps@[i]]
        within.contains(a) && entry_at(st, a) is Some && 0 <= i < entry_at(st, a)->0.deps@.len()
            ==> within.contains(entry_at(st, a)->0.deps@[i])
}

proof fn lemma_deps_search_within(
    st: RtldState,
    stack: Seq<u64>,
    seen: Seq<u64>,
    name: Seq<u8>,
    required: Option<Seq<u8>>,
    within: Set<u64>,
)
    requires
        closed_under_deps(st, within),
        forall|i: int| 0 <= i < stack.len() ==> within.contains(#[trigger] stack[i]),
        deps_search(st, stack, seen, name, required) is Some,
    ensures
        exists|a: u64|
            #![trigger within.contains(a)]
            within.contains(a) && entry_at(st, a) is Some && object_symbol(
                entry_at(st, a)->0,
                name,
                required,
            ) == deps_search(st, stack, seen, name, required),
    decreases 64 - seen.len(), stack.len(),
{
    if stack.len() > 0 {
        let addr = stack.last();
        let rest = stack.drop_last();
        assert(within.contains(stack[stack.len() - 1]));
        assert forall|i: int| 0 <= i < rest.len() implies within.contains(#[trigger] rest[i]) by {
            assert(within.contains(stack[i]));
        }
        match entry_at(st, addr) {
            Some(lm) => {
                if addr == 0 || seen.contains(addr) || seen.len() >= 64 {
                    lemma_deps_search_within(st, rest, seen, name, required, within);
                } else if object_symbol(lm, name, required) is None {
                    assert forall|i: int| 0 <= i < lm.deps@.len() implies within.contains(
                        #[trigger] lm.deps@[i],
                    ) by {
                        assert(entry_at(st, addr)->0.deps@[i] == lm.deps@[i]);
                    }
                    lemma_pushed_within(rest, lm.deps@, lm.deps@.len() as int, within);
                    lemma_deps_search_within(
                        st,
                        pushed(rest, lm.deps@, lm.deps@.len() as int),
                        seen.push(addr),
                        name,
                        required,
                        within,
                    );
                }
            },
            None => {
                lemma_deps_search_within(st, rest, seen, name, required, within);
            },
        }
    }
}

/// A lookup in the dependencies of an object finds only what one of the objects
/// reachable through dependencies defines.
pub proof fn lemma_deps_symbol_is_reachable(
    st: RtldState,
    root: LinkMap,
    name: Seq<u8>,
    required: Option<Seq<u8>>,
    within: Set<u64>,
)
    requires
        closed_under_deps(st, within),
        forall|i: int| 0 <= i < root.deps@.len() ==> within.contains(#[trigger] root.deps@[i]),
        deps_symbol(st, root, name, required) is Some,
    ensures
        exists|a: u64|
            #![trigger within.contains(a)]
            within.contains(a) && entry_at(st, a) is Some && object_symbol(
                entry_at(st, a)->0,
                name,
                required,
            ) == deps_symbol(st, root, name, required),
{
    lemma_pushed_within(Seq::empty(), root.deps@, root.deps@.len() as int, within);
    lemma_deps_search_within(
        st,
        pushed(Seq::empty(), root.deps@, root.deps@.len() as int),
        seq![root.addr],
        name,
        required,
        within,
    );
}

// ---------------------------------------------------------------------------
// Nothing that is reachable is missed
// ---------------------------------------------------------------------------

/// Number of dependencies of the object with a handle.
pub open spec fn dep_count(st: RtldState, a: u64) -> nat {
    match entry_at(st, a) {
        Some(lm) => lm.deps@.len(),
        None => 0,
    }
}

/// Number of dependencies of all objects in a list.
pub open spec fn dep_total(st: RtldState, list: Seq<u64>) -> nat
    decreases list.len(),
{
    if list.len() == 0 {
        0
    } else {
        dep_total(st, list.drop_last()) + dep_count(st, list.last())
    }
}

/// Whether `path` leads from an object to another one by dependencies: the first
/// handle is a dependency of `root`, each other one of the object before it.
pub open spec fn is_dep_path(st: RtldState, root: LinkMap, path: Seq<u64>) -> bool {
    &&& path.len() > 0
    &&& root.deps@.contains(path[0])
    &&& forall|k: int|
        0 <= k < path.len() ==> entry_at(st, #[trigger] path[k]) is Some && path[k] != 0 && path[k]
            != root.addr
    &&& forall|k: int, l: int|
        0 <= k && l == k + 1 && l < path.len() ==> entry_at(
            st,
            #[trigger] path[k],
        )->0.deps@.contains(#[trigger] path[l])
}

/// The elements of a list that are not seen.
spec fn unseen(list: Seq<u64>, seen: Seq<u64>) -> Seq<u64>
    decreases list.len(),
{
    if list.len() == 0 {
        Seq::empty()
    } else if seen.contains(list.last()) {
        unseen(list.drop_last(), seen)
    } else {
        unseen(list.drop_last(), seen).push(list.last())
    }
}

proof fn lemma_dep_total_push(st: RtldState, list: Seq<u64>, a: u64)
    ensures
        dep_total(st, list.push(a)) == dep_total(st, list) + dep_count(st, a),
{
    assert(list.push(a).drop_last() =~= list);
}

/// What is left to see once one more element is seen.
proof fn lemma_unseen_step(st: RtldState, list: Seq<u64>, seen: Seq<u64>, a: u64)
    requires
        list.no_duplicates(),
        !seen.contains(a),
    ensures
        list.contains(a) ==> {
            &&& dep_total(st, unseen(list, seen)) == dep_total(st, unseen(list, seen.push(a)))
                + dep_count(st, a)
            &&& unseen(list, seen).len() == unseen(list, seen.push(a)).len() + 1
        },
        !list.contains(a) ==> unseen(list, seen) == unseen(list, seen.push(a)),
    decreases list.len(),
{
    let after = seen.push(a);
    assert forall|x: u64| after.contains(x) <==> seen.contains(x) || x == a by {
        if seen.contains(x) {
            let k = choose|k: int| 0 <= k < seen.len() && seen[k] == x;
            assert(after[k] == x);
        }
        assert(after[seen.len() as int] == a);
    }
    if list.len() > 0 {
        let rest = list.drop_last();
        let last = list.last();
        assert(rest.no_duplicates());
        lemma_unseen_step(st, rest, seen, a);
        assert(list.contains(a) <==> rest.contains(a) || last == a) by {
            if rest.contains(a) {
                let k = choose|k: int| 0 <= k < rest.len() && rest[k] == a;
                assert(list[k] == a);
            }
            assert(list[list.len() - 1] == last);
            if list.contains(a) && last != a {
                let k = choose|k: int| 0 <= k < list.len() && list[k] == a;
                assert(rest[k] == a);
            }
        }
        assert(last == a ==> !rest.contains(a)) by {
            if last == a && rest.contains(a) {
                let k = choose|k: int| 0 <= k < rest.len() && rest[k] == a;
                assert(list[k] == list[list.len() - 1]);
            }
        }
        lemma_dep_total_push(st, unseen(rest, seen), last);
        lemma_dep_total_push(st, unseen(rest, after), last);
    }
}

proof fn lemma_pushed_all(stack: Seq<u64>, deps: Seq<u64>, n: int)
    requires
        0 <= n <= deps.len(),
        stack.len() + n <= 64,
    ensures
        pushed(stack, deps, n).len() == stack.len() + n,
        forall|i: int| 0 <= i < stack.len() ==> pushed(stack, deps, n)[i] == #[trigger] stack[i],
        forall|i: int| 0 <= i < n ==> pushed(stack, deps, n)[stack.len() + n - 1 - i]
            == #[trigger] deps[i],
    decreases n,
{
    if n > 0 {
        let next = stack.push(deps[n - 1]);
        lemma_pushed_all(next, deps, n - 1);
        assert forall|i: int| 0 <= i < stack.len() implies pushed(stack, deps, n)[i]
            == #[trigger] stack[i] by {
            assert(next[i] == stack[i]);
        }
        assert forall|i: int| 0 <= i < n implies pushed(stack, deps, n)[stack.len() + n - 1 - i]
            == #[trigger] deps[i] by {
            if i == n - 1 {
                assert(next[stack.len() as int] == deps[n - 1]);
            }
        }
    }
}

/// What holds of a search that has found nothing yet: the objects seen do not
/// define the name, and each of their dependencies is seen or still to come.
spec fn search_ok(
    st: RtldState,
    root: LinkMap,
    stack: Seq<u64>,
    seen: Seq<u64>,
    name: Seq<u8>,
    required: Option<Seq<u8>>,
    reach: Seq<u64>,
) -> bool {
    &&& seen.contains(root.addr)
    &&& forall|d: u64| #[trigger] root.deps@.contains(d) ==> stack.contains(d) || seen.contains(d)
        || d == 0 || entry_at(st, d) is None
    &&& forall|a: u64| #[trigger]
        seen.contains(a) && a != root.addr ==> entry_at(st, a) is Some && object_symbol(
            entry_at(st, a)->0,
            name,
            required,
        ) is None
    &&& forall|a: u64, d: u64|
        seen.contains(a) && a != root.addr && #[trigger] entry_at(st, a)->0.deps@.contains(d)
            ==> stack.contains(d) || seen.contains(d) || d == 0 || entry_at(st, d) is None
    &&& forall|i: int| 0 <= i < stack.len() ==> reach.contains(#[trigger] stack[i])
    &&& stack.len() + dep_total(st, unseen(reach, seen)) <= 64
    &&& seen.len() + unseen(reach, seen).len() <= 64
}

proof fn lemma_search_misses_nothing(
    st: RtldState,
    root: LinkMap,
    stack: Seq<u64>,
    seen: Seq<u64>,
    name: Seq<u8>,
    required: Option<Seq<u8>>,
    reach: Seq<u64>,
    path: Seq<u64>,
)
    requires
        reach.no_duplicates(),
        closed_under_deps(st, reach.to_set()),
        search_ok(st, root, stack, seen, name, required, reach),
        is_dep_path(st, root, path),
        object_symbol(entry_at(st, path.last())->0, name, required) is Some,
    ensures
        deps_search(st, stack, seen, name, required) is Some,
    decreases 64 - seen.len(), stack.len(),
{
    if stack.len() == 0 {
        lemma_path_is_seen(st, root, stack, seen, name, required, reach, path, path.len() - 1);
    } else {
        let addr = stack.last();
        let rest = stack.drop_last();
        let n = stack.len() - 1;
        assert(reach.contains(stack[n]));
        assert forall|d: u64| stack.contains(d) && d != addr implies rest.contains(d) by {
            let k = choose|k: int| 0 <= k < stack.len() && stack[k] == d;
            assert(rest[k] == d);
        }
        assert forall|i: int| 0 <= i < rest.len() implies reach.contains(#[trigger] rest[i]) by {
            assert(reach.contains(stack[i]));
        }
        let skipped = match entry_at(st, addr) {
            Some(lm) => addr == 0 || seen.contains(addr) || seen.len() >= 64,
            None => true,
        };
        if !seen.contains(addr) {
            lemma_unseen_step(st, reach, seen, addr);
        }
        if skipped {
            assert(search_ok(st, root, rest, seen, name, required, reach));
            lemma_search_misses_nothing(st, root, rest, seen, name, required, reach, path);
        } else {
            let lm = entry_at(st, addr)->0;
            if object_symbol(lm, name, required) is None {
                let deps = lm.deps@;
                let after = seen.push(addr);
                let next = pushed(rest, deps, deps.len() as int);
                lemma_pushed_all(rest, deps, deps.len() as int);
                assert forall|x: u64| after.contains(x) <==> seen.contains(x) || x == addr by {
                    if seen.contains(x) {
                        let k = choose|k: int| 0 <= k < seen.len() && seen[k] == x;
                        assert(after[k] == x);
                    }
                    assert(after[seen.len() as int] == addr);
                }
                assert forall|d: u64| rest.contains(d) || deps.contains(d) implies next.contains(
                    d,
                ) by {
                    if rest.contains(d) {
                        let k = choose|k: int| 0 <= k < rest.len() && rest[k] == d;
                        assert(next[k] == d);
                    } else {
                        let k = choose|k: int| 0 <= k < deps.len() && deps[k] == d;
                        assert(next[rest.len() + deps.len() - 1 - k] == d);
                    }
                }
                assert forall|i: int| 0 <= i < next.len() implies reach.contains(
                    #[trigger] next[i],
                ) by {
                    if i < rest.len() {
                        assert(next[i] == rest[i]);
                    } else {
                        let k = rest.len() + deps.len() - 1 - i;
                        assert(next[i] == deps[k]);
                        assert(reach.to_set().contains(addr));
                        assert(entry_at(st, addr)->0.deps@[k] == deps[k]);
                        assert(reach.to_set().contains(deps[k]));
                    }
                }
                assert(search_ok(st, root, next, after, name, required, reach));
                lemma_search_misses_nothing(st, root, next, after, name, required, reach, path);
            }
        }
    }
}

proof fn lemma_path_is_seen(
    st: RtldState,
    root: LinkMap,
    stack: Seq<u64>,
    seen: Seq<u64>,
    name: Seq<u8>,
    required: Option<Seq<u8>>,
    reach: Seq<u64>,
    path: Seq<u64>,
    k: int,
)
    requires
        stack.len() == 0,
        search_ok(st, root, stack, seen, name, required, reach),
        is_dep_path(st, root, path),
        0 <= k < path.len(),
    ensures
        seen.contains(path[k]),
        object_symbol(entry_at(st, path[k])->0, name, required) is None,
    decreases k,
{
    if k > 0 {
        lemma_path_is_seen(st, root, stack, seen, name, required, reach, path, k - 1);
        assert(entry_at(st, path[k - 1])->0.deps@.contains(path[k]));
    }
}

/// The search through dependencies misses nothing: if any object that can be
/// reached from another one, over however many dependencies, defines a name, the
/// lookup finds a definition. The objects that can be reached have to be few
/// enough, and so do their dependencies.
pub proof fn lemma_reachable_definition_is_found(
    st: RtldState,
    root: LinkMap,
    name: Seq<u8>,
    required: Option<Seq<u8>>,
    reach: Seq<u64>,
    path: Seq<u64>,
)
    requires
        reach.no_duplicates(),
        closed_under_deps(st, reach.to_set()),
        forall|i: int| 0 <= i < root.deps@.len() ==> reach.contains(#[trigger] root.deps@[i]),
        reach.len() < 64,
        root.deps@.len() + dep_total(st, reach) <= 64,
        is_dep_path(st, root, path),
        object_symbol(entry_at(st, path.last())->0, name, required) is Some,
    ensures
        deps_symbol(st, root, name, required) is Some,
{
    let deps = root.deps@;
    let none = Seq::<u64>::empty();
    let seen = seq![root.addr];
    let stack = pushed(none, deps, deps.len() as int);
    lemma_pushed_all(none, deps, deps.len() as int);
    lemma_unseen_none(reach);
    assert(none.push(root.addr) =~= seen);
    lemma_unseen_step(st, reach, none, root.addr);
    assert(seen[0] == root.addr);
    assert forall|d: u64| #[trigger] deps.contains(d) implies stack.contains(d) by {
        let k = choose|k: int| 0 <= k < deps.len() && deps[k] == d;
        assert(stack[deps.len() - 1 - k] == d);
    }
    assert forall|i: int| 0 <= i < stack.len() implies reach.contains(#[trigger] stack[i]) by {
        assert(stack[deps.len() - 1 - (deps.len() - 1 - i)] == deps[deps.len() - 1 - i]);
    }
    assert(search_ok(st, root, stack, seen, name, required, reach));
    lemma_search_misses_nothing(st, root, stack, seen, name, required, reach, path);
}

proof fn lemma_unseen_none(list: Seq<u64>)
    ensures
        unseen(list, Seq::empty()) == list,
    decreases list.len(),
{
    if list.len() > 0 {
        lemma_unseen_none(list.drop_last());
        assert(list.drop_last().push(list.last()) =~= list);
    }
}

// ---------------------------------------------------------------------------
// The first definition, depth first
// ---------------------------------------------------------------------------

/// The definition of a name that an object stands for: its own, or else the first
/// one that its dependencies stand for. The ranks, which go down from an object to
/// its dependencies, show that this ends.
pub open spec fn definition_in(
    st: RtldState,
    a: u64,
    name: Seq<u8>,
    required: Option<Seq<u8>>,
    rank: spec_fn(u64) -> nat,
) -> Option<u64>
    decreases rank(a), 1int, 0int,
{
    match entry_at(st, a) {
        Some(lm) => if a == 0 {
            None
        } else if object_symbol(lm, name, required) is Some {
            object_symbol(lm, name, required)
        } else {
            first_definition(st, lm.deps@, 0, name, required, rank, rank(a))
        },
        None => None,
    }
}

/// The first definition that one of the objects in a list stands for, from the
/// `j`-th on, those of too high a rank left out.
pub open spec fn first_definition(
    st: RtldState,
    list: Seq<u64>,
    j: int,
    name: Seq<u8>,
    required: Option<Seq<u8>>,
    rank: spec_fn(u64) -> nat,
    below: nat,
) -> Option<u64>
    decreases below, 0int, list.len() - j,
{
    if j < 0 || j >= list.len() {
        None
    } else {
        let here = if rank(list[j]) < below {
            definition_in(st, list[j], name, required, rank)
        } else {
            None
        };
        match here {
            Some(v) => Some(v),
            None => first_definition(st, list, j + 1, name, required, rank, below),
        }
    }
}

/// Whether the objects that can be reached depend on each other in the order of
/// their ranks, and the search has room for what waits: `room` is how much of the
/// stack it takes to search an object.
pub open spec fn is_searchable(
    st: RtldState,
    reach: Seq<u64>,
    rank: spec_fn(u64) -> nat,
    room: spec_fn(u64) -> nat,
) -> bool {
    forall|a: u64, i: int|
        #![trigger entry_at(st, a)->0.deps@[i]]
        reach.contains(a) && entry_at(st, a) is Some && 0 <= i < entry_at(st, a)->0.deps@.len() ==> {
            let deps = entry_at(st, a)->0.deps@;
            &&& reach.contains(deps[i])
            &&& rank(deps[i]) < rank(a)
            &&& deps.len() <= room(a)
            &&& deps.len() - 1 - i + room(deps[i]) <= room(a)
        }
}

/// The seen objects below a rank stand for no definition.
spec fn clear_below(
    st: RtldState,
    seen: Seq<u64>,
    name: Seq<u8>,
    required: Option<Seq<u8>>,
    rank: spec_fn(u64) -> nat,
    below: nat,
) -> bool {
    forall|y: u64| #[trigger]
        seen.contains(y) && rank(y) < below ==> definition_in(st, y, name, required, rank) is None
}

/// A stack with the dependencies from the `j`-th on, the first one on top.
spec fn stacked(rest: Seq<u64>, deps: Seq<u64>, j: int) -> Seq<u64> {
    rest + Seq::new((deps.len() - j) as nat, |i: int| deps[deps.len() - 1 - i])
}

/// What was seen while an object was searched in vain.
spec fn seen_more(
    seen: Seq<u64>,
    after: Seq<u64>,
    reach: Seq<u64>,
    rank: spec_fn(u64) -> nat,
    top: nat,
) -> bool {
    &&& forall|y: u64| #[trigger] seen.contains(y) ==> after.contains(y)
    &&& forall|y: u64| #[trigger] after.contains(y) ==> seen.contains(y) || rank(y) < top
    &&& after.len() + unseen(reach, after).len() <= 64
}

proof fn lemma_search_object(
    st: RtldState,
    rest: Seq<u64>,
    seen: Seq<u64>,
    x: u64,
    below: nat,
    name: Seq<u8>,
    required: Option<Seq<u8>>,
    reach: Seq<u64>,
    rank: spec_fn(u64) -> nat,
    room: spec_fn(u64) -> nat,
) -> (after: Seq<u64>)
    requires
        reach.no_duplicates(),
        is_searchable(st, reach, rank, room),
        reach.contains(x),
        rank(x) < below,
        clear_below(st, seen, name, required, rank, below),
        rest.len() + room(x) <= 64,
        seen.len() + unseen(reach, seen).len() <= 64,
    ensures
        match definition_in(st, x, name, required, rank) {
            Some(v) => deps_search(st, rest.push(x), seen, name, required) == Some(v),
            None => {
                &&& deps_search(st, rest.push(x), seen, name, required) == deps_search(
                    st,
                    rest,
                    after,
                    name,
                    required,
                )
                &&& clear_below(st, after, name, required, rank, below)
                &&& seen_more(seen, after, reach, rank, rank(x) + 1)
            },
        },
    decreases rank(x), 1int, 0int,
{
    let stack = rest.push(x);
    assert(stack.drop_last() =~= rest);
    assert(stack.last() == x);
    if entry_at(st, x) is None || x == 0 || seen.contains(x) {
        seen
    } else {
        lemma_unseen_step(st, reach, seen, x);
        let lm = entry_at(st, x)->0;
        let deps = lm.deps@;
        let now = seen.push(x);
        if object_symbol(lm, name, required) is Some {
            seen
        } else {
            assert forall|y: u64| now.contains(y) <==> seen.contains(y) || y == x by {
                if seen.contains(y) {
                    let k = choose|k: int| 0 <= k < seen.len() && seen[k] == y;
                    assert(now[k] == y);
                }
                assert(now[seen.len() as int] == x);
            }
            if deps.len() > 0 {
                assert(entry_at(st, x)->0.deps@[0] == deps[0]);
                lemma_pushed_all(rest, deps, deps.len() as int);
            }
            assert(pushed(rest, deps, deps.len() as int) =~= stacked(rest, deps, 0)) by {
                if deps.len() > 0 {
                    let next = pushed(rest, deps, deps.len() as int);
                    let n = deps.len() as int;
                    assert forall|i: int| 0 <= i < next.len() implies next[i] == stacked(
                        rest,
                        deps,
                        0,
                    )[i] by {
                        if i < rest.len() {
                            assert(next[i] == rest[i]);
                        } else {
                            let k = rest.len() + n - 1 - i;
                            assert(next[rest.len() + n - 1 - k] == deps[k]);
                        }
                    }
                }
            }
            let after = lemma_search_list(
                st,
                rest,
                now,
                x,
                0,
                name,
                required,
                reach,
                rank,
                room,
            );
            if definition_in(st, x, name, required, rank) is None {
                assert forall|y: u64| #[trigger] after.contains(y) && rank(y)
                    < below implies definition_in(st, y, name, required, rank) is None by {
                    if !now.contains(y) {
                        assert(rank(y) < rank(x));
                    }
                }
                assert forall|y: u64| #[trigger] seen.contains(y) implies after.contains(y) by {
                    assert(now.contains(y));
                }
                assert forall|y: u64| #[trigger] after.contains(y) implies seen.contains(y)
                    || rank(y) < rank(x) + 1 by {
                    if now.contains(y) {
                    } else {
                        assert(rank(y) < rank(x));
                    }
                }
            }
            after
        }
    }
}

proof fn lemma_search_list(
    st: RtldState,
    rest: Seq<u64>,
    seen: Seq<u64>,
    x: u64,
    j: int,
    name: Seq<u8>,
    required: Option<Seq<u8>>,
    reach: Seq<u64>,
    rank: spec_fn(u64) -> nat,
    room: spec_fn(u64) -> nat,
) -> (after: Seq<u64>)
    requires
        reach.no_duplicates(),
        is_searchable(st, reach, rank, room),
        reach.contains(x),
        entry_at(st, x) is Some,
        0 <= j <= entry_at(st, x)->0.deps@.len(),
        clear_below(st, seen, name, required, rank, rank(x)),
        rest.len() + room(x) <= 64,
        seen.len() + unseen(reach, seen).len() <= 64,
    ensures
        ({
            let deps = entry_at(st, x)->0.deps@;
            match first_definition(st, deps, j, name, required, rank, rank(x)) {
                Some(v) => deps_search(st, stacked(rest, deps, j), seen, name, required) == Some(
                    v,
                ),
                None => {
                    &&& deps_search(st, stacked(rest, deps, j), seen, name, required)
                        == deps_search(st, rest, after, name, required)
                    &&& clear_below(st, after, name, required, rank, rank(x))
                    &&& seen_more(seen, after, reach, rank, rank(x))
                },
            }
        }),
    decreases rank(x), 0int, entry_at(st, x)->0.deps@.len() - j,
{
    let deps = entry_at(st, x)->0.deps@;
    if j >= deps.len() {
        assert(stacked(rest, deps, j) =~= rest);
        seen
    } else {
        let d = deps[j];
        assert(entry_at(st, x)->0.deps@[j] == d);
        let lower = stacked(rest, deps, j + 1);
        assert(stacked(rest, deps, j) =~= lower.push(d));
        let mid = lemma_search_object(
            st,
            lower,
            seen,
            d,
            rank(x),
            name,
            required,
            reach,
            rank,
            room,
        );
        if definition_in(st, d, name, required, rank) is Some {
            mid
        } else {
            let after = lemma_search_list(
                st,
                rest,
                mid,
                x,
                j + 1,
                name,
                required,
                reach,
                rank,
                room,
            );
            if first_definition(st, deps, j, name, required, rank, rank(x)) is None {
                assert forall|y: u64| #[trigger] seen.contains(y) implies after.contains(y) by {
                    assert(mid.contains(y));
                }
                assert forall|y: u64| #[trigger] after.contains(y) implies seen.contains(y)
                    || rank(y) < rank(x) by {
                    if mid.contains(y) {
                    }
                }
            }
            after
        }
    }
}

/// Where nothing depends on itself, not even through others, the search through
/// dependencies goes depth first: the dependencies of an object are asked in their
/// order, each one together with all that it depends on before the next one. So
/// a lookup by handle gives the object's own definition, or else what a lookup by
/// the handle of its first dependency that leads to a definition gives.
pub proof fn lemma_dependencies_are_searched_depth_first(
    st: RtldState,
    root: LinkMap,
    name: Seq<u8>,
    required: Option<Seq<u8>>,
    reach: Seq<u64>,
    rank: spec_fn(u64) -> nat,
    room: spec_fn(u64) -> nat,
)
    requires
        reach.no_duplicates(),
        reach.len() <= 64,
        is_searchable(st, reach, rank, room),
        reach.contains(root.addr),
        entry_at(st, root.addr) == Some(root),
        root.addr != 0,
        room(root.addr) <= 64,
    ensures
        deps_symbol(st, root, name, required) == first_definition(
            st,
            root.deps@,
            0,
            name,
            required,
            rank,
            rank(root.addr),
        ),
        or_else(object_symbol(root, name, required), deps_symbol(st, root, name, required))
            == definition_in(st, root.addr, name, required, rank),
{
    let none = Seq::<u64>::empty();
    let seen = seq![root.addr];
    let deps = root.deps@;
    lemma_unseen_none(reach);
    assert(none.push(root.addr) =~= seen);
    lemma_unseen_step(st, reach, none, root.addr);
    assert forall|y: u64| seen.contains(y) implies y == root.addr by {}
    if deps.len() > 0 {
        assert(entry_at(st, root.addr)->0.deps@[0] == deps[0]);
    }
    lemma_pushed_all(none, deps, deps.len() as int);
    let stack = pushed(none, deps, deps.len() as int);
    assert(stack =~= stacked(none, deps, 0)) by {
        assert forall|i: int| 0 <= i < stack.len() implies stack[i] == stacked(none, deps, 0)[i] by {
            let k = deps.len() - 1 - i;
            assert(stack[deps.len() - 1 - k] == deps[k]);
        }
    }
    let after = lemma_search_list(
        st,
        none,
        seen,
        root.addr,
        0,
        name,
        required,
        reach,
        rank,
        room,
    );
}

// ---------------------------------------------------------------------------
// Who defines a name
// ---------------------------------------------------------------------------

proof fn lemma_scope_first(
    st: RtldState,
    k: int,
    i: int,
    name: Seq<u8>,
    required: Option<Seq<u8>>,
)
    requires
        0 <= k <= i <= scope_len(st),
        forall|j: int|
            k <= j < i ==> !in_global_scope(st, j) || object_symbol(
                #[trigger] scope_object(st, j),
                name,
                required,
            ) is None,
        i < scope_len(st) ==> in_global_scope(st, i) && object_symbol(
            scope_object(st, i),
            name,
            required,
        ) is Some,
    ensures
        scope_symbol(st, k, name, required) == if i < scope_len(st) {
            object_symbol(scope_object(st, i), name, required)
        } else {
            None
        },
    decreases i - k,
{
    if k < i {
        assert(!in_global_scope(st, k) || object_symbol(scope_object(st, k), name, required) is None);
        lemma_scope_first(st, k + 1, i, name, required);
    }
}

/// The startup object that defines a name first, the linker left out, gives the
/// definition, to every lookup in the global scope and to every runtime object.
pub proof fn lemma_first_startup_definition(
    st: RtldState,
    name: Seq<u8>,
    required: Option<Seq<u8>>,
    i: int,
)
    requires
        1 <= i < st.objects@.len(),
        object_symbol(st.objects@[i], name, required) is Some,
        forall|j: int|
            1 <= j < i ==> object_symbol(#[trigger] st.objects@[j], name, required) is None,
    ensures
        scope_symbol(st, 0, name, required) == object_symbol(st.objects@[i], name, required),
        required is None ==> default_symbol(st, name) == object_symbol(
            st.objects@[i],
            name,
            required,
        ),
{
    assert forall|j: int| 0 <= j < i - 1 implies !in_global_scope(st, j) || object_symbol(
        #[trigger] scope_object(st, j),
        name,
        required,
    ) is None by {
        assert(object_symbol(st.objects@[j + 1], name, required) is None);
    }
    lemma_scope_first(st, 0, i - 1, name, required);
}

/// Where no startup object defines a name, the first runtime object of the chain
/// that is in the global scope and defines it does; where none does, the linker.
pub proof fn lemma_first_runtime_definition(
    st: RtldState,
    name: Seq<u8>,
    required: Option<Seq<u8>>,
    i: int,
)
    requires
        0 <= i <= st.chain@.len(),
        forall|j: int|
            1 <= j < st.objects@.len() ==> object_symbol(
                #[trigger] st.objects@[j],
                name,
                required,
            ) is None,
        forall|j: int|
            0 <= j < i ==> (#[trigger] st.chain@[j]).flags & 2 == 0 || object_symbol(
                st.chain@[j],
                name,
                required,
            ) is None,
        i < st.chain@.len() ==> st.chain@[i].flags & 2 != 0 && object_symbol(
            st.chain@[i],
            name,
            required,
        ) is Some,
    ensures
        scope_symbol(st, 0, name, required) == if i < st.chain@.len() {
            object_symbol(st.chain@[i], name, required)
        } else {
            None
        },
        required is None ==> default_symbol(st, name) == if i < st.chain@.len() {
            object_symbol(st.chain@[i], name, required)
        } else if st.objects@.len() > 0 {
            object_symbol(st.objects@[0], name, required)
        } else {
            None
        },
{
    let seeds = seed_len(st);
    assert forall|j: int| 0 <= j < seeds + i implies !in_global_scope(st, j) || object_symbol(
        #[trigger] scope_object(st, j),
        name,
        required,
    ) is None by {
        if j < seeds {
            assert(object_symbol(st.objects@[j + 1], name, required) is None);
        } else {
            assert(st.chain@[j - seeds].flags & 2 == 0 || object_symbol(
                st.chain@[j - seeds],
                name,
                required,
            ) is None);
        }
    }
    if i < st.chain@.len() {
        assert(scope_object(st, seeds + i) == st.chain@[i]);
    }
    lemma_scope_first(st, 0, seeds + i, name, required);
}

/// How a symbol of a runtime object resolves: a symbol without a name is 0; one
/// that the object defines, and that is local, hidden or protected, is its own.
/// Otherwise the global scope decides, then the object's dependencies, the object
/// itself, the linker; and what nobody defines is 0 if it is weak.
pub proof fn lemma_runtime_resolution(st: RtldState, obj: LinkMap, sym_idx: u32)
    requires
        sym_idx < obj.tables.symtab@.len(),
    ensures
        ({
            let sym = obj.tables.symtab@[sym_idx as int];
            let name = string_at(obj.tables.strtab@, sym.st_name as u64);
            let required = required_version(obj, sym_idx);
            let r = runtime_symbol(st, obj, sym_idx);
            let (bind, visibility) = (sym.st_info as int / 16, sym.st_other as int % 4);
            let own = sym.st_shndx != 0 && (bind == 0 || visibility == 2 || visibility == 3);
            let global = scope_symbol(st, 0, name, required);
            let deps = deps_symbol(st, obj, name, required);
            let itself = object_symbol(obj, name, required);
            &&& sym.st_name == 0 ==> r == Some(0u64)
            &&& sym.st_name != 0 && own ==> r is Some && (r->0 - obj.base - sym.st_value)
                % 0x1_0000_0000_0000_0000 == 0
            &&& sym.st_name != 0 && !own ==> {
                &&& global is Some ==> r == global
                &&& global is None && deps is Some ==> r == deps
                &&& global is None && deps is None && itself is Some ==> r == itself
                &&& global is None && deps is None && itself is None ==> {
                    let linker = if st.objects@.len() > 0 {
                        object_symbol(st.objects@[0], name, required)
                    } else {
                        None
                    };
                    &&& linker is Some ==> r == linker
                    &&& linker is None && bind == 2 ==> r == Some(0u64)
                    &&& linker is None && bind != 2 ==> r is None
                }
            }
        }),
{
}

/// The same for a symbol of a startup object, which has no dependencies of its
/// own to ask: they are all in the global scope.
pub proof fn lemma_startup_resolution(st: RtldState, requesting: int, sym_idx: u32)
    requires
        0 <= requesting < st.objects@.len(),
        sym_idx < st.objects@[requesting].tables.symtab@.len(),
    ensures
        ({
            let obj = st.objects@[requesting];
            let sym = obj.tables.symtab@[sym_idx as int];
            let name = string_at(obj.tables.strtab@, sym.st_name as u64);
            let required = required_version(obj, sym_idx);
            let r = global_symbol(st, requesting, sym_idx);
            let (bind, visibility) = (sym.st_info as int / 16, sym.st_other as int % 4);
            let own = sym.st_shndx != 0 && (bind == 0 || visibility == 2 || visibility == 3);
            let global = scope_symbol(st, 0, name, required);
            let linker = object_symbol(st.objects@[0], name, required);
            &&& sym.st_name == 0 ==> r == Some(0u64)
            &&& sym.st_name != 0 && own ==> r is Some && (r->0 - obj.base - sym.st_value)
                % 0x1_0000_0000_0000_0000 == 0
            &&& sym.st_name != 0 && !own ==> {
                &&& global is Some ==> r == global
                &&& global is None && linker is Some ==> r == linker
                &&& global is None && linker is None && bind == 2 ==> r == Some(0u64)
                &&& global is None && linker is None && bind != 2 ==> r is None
            }
        }),
{
}

/// In an object without a hash table the first symbol that is defined and has the
/// name gives the address: the load base plus its value.
pub proof fn lemma_object_defines(lm: LinkMap, name: Seq<u8>, i: int)
    requires
        lm.symtab != 0,
        lm.strtab != 0,
        lm.tables.gnu_hash is None,
        lm.tables.versym is None,
        0 <= i < lm.tables.symtab@.len(),
        i < symbols_counted(lm),
        ({
            let sym = lm.tables.symtab@[i];
            let strtab = lm.tables.strtab@;
            &&& sym.st_shndx != 0
            &&& sym.st_name + name.len() < strtab.len()
            &&& strtab.subrange(sym.st_name as int, sym.st_name + name.len()) == name
            &&& strtab[sym.st_name + name.len()] == 0
        }),
    ensures
        ({
            let r = object_symbol(lm, name, None);
            r is Some && exists|j: int|
                0 <= j <= i && (#[trigger] lm.tables.symtab@[j]).st_shndx != 0 && (r->0 - lm.base
                    - lm.tables.symtab@[j].st_value) % 0x1_0000_0000_0000_0000 == 0
                    && lm.tables.strtab@.subrange(
                    lm.tables.symtab@[j].st_name as int,
                    lm.tables.symtab@[j].st_name + name.len(),
                ) == name
        }),
{
    let syms = lookup_syms(lm);
    assert(syms[i] == lm.tables.symtab@[i]);
    lemma_linear_lookup_finds_first(syms, lm.tables.strtab@, name, None, 0, i);
    let j = symbol_find(None, syms, lm.tables.strtab@, name, None)->0;
    assert(syms[j] == lm.tables.symtab@[j]);
}

proof fn lemma_scope_index_first(st: RtldState, addr: u64, k: int, i: int)
    requires
        0 <= k <= i < scope_len(st),
        scope_object(st, i).addr == addr,
        forall|j: int| k <= j < i ==> (#[trigger] scope_object(st, j)).addr != addr,
    ensures
        scope_index(st, addr, k) == Some(i),
    decreases i - k,
{
    if k < i {
        assert(scope_object(st, k).addr != addr);
        lemma_scope_index_first(st, addr, k + 1, i);
    }
}

/// A lookup from behind a caller in startup object `c` finds the first definition
/// in the startup objects behind it.
pub proof fn lemma_next_startup_definition(
    st: RtldState,
    caller_pc: u64,
    name: Seq<u8>,
    c: int,
    i: int,
)
    requires
        1 <= c < i < st.objects@.len(),
        object_covering(st, caller_pc) == Some(st.objects@[c]),
        forall|j: int| 1 <= j < c ==> (#[trigger] st.objects@[j]).addr != st.objects@[c].addr,
        object_symbol(st.objects@[i], name, None) is Some,
        forall|j: int|
            c < j < i ==> object_symbol(#[trigger] st.objects@[j], name, None) is None,
    ensures
        next_symbol(st, caller_pc, name) == object_symbol(st.objects@[i], name, None),
{
    assert forall|j: int| 0 <= j < c - 1 implies (#[trigger] scope_object(st, j)).addr
        != st.objects@[c].addr by {
        assert(st.objects@[j + 1].addr != st.objects@[c].addr);
    }
    lemma_scope_index_first(st, st.objects@[c].addr, 0, c - 1);
    assert forall|j: int| c <= j < i - 1 implies !in_global_scope(st, j) || object_symbol(
        #[trigger] scope_object(st, j),
        name,
        None,
    ) is None by {
        assert(object_symbol(st.objects@[j + 1], name, None) is None);
    }
    lemma_scope_first(st, c, i - 1, name, None);
}

// ---------------------------------------------------------------------------
// Addresses
// ---------------------------------------------------------------------------

proof fn lemma_index_covering(entries: Seq<LinkMap>, pc: u64, i: int, k: int)
    requires
        0 <= i <= k < entries.len(),
        covers_pc(entries[k], pc),
        forall|j: int| 0 <= j < k ==> !covers_pc(#[trigger] entries[j], pc),
    ensures
        index_covering(entries, pc, i) == Some(k),
    decreases k - i,
{
    if i < k {
        lemma_index_covering(entries, pc, i + 1, k);
    }
}

proof fn lemma_none_covering(entries: Seq<LinkMap>, pc: u64, i: int)
    requires
        0 <= i,
        forall|j: int| 0 <= j < entries.len() ==> !covers_pc(#[trigger] entries[j], pc),
    ensures
        index_covering(entries, pc, i) is None,
    decreases entries.len() - i,
{
    if i < entries.len() {
        lemma_none_covering(entries, pc, i + 1);
    }
}

/// An address in the mapping of a startup object is found to be that object's,
/// where no startup object before it covers it.
pub proof fn lemma_startup_object_is_located(st: RtldState, pc: u64, k: int)
    requires
        0 <= k < st.objects@.len(),
        0 < st.objects@[k].map_start <= pc < st.objects@[k].map_end,
        forall|j: int| 0 <= j < k ==> !covers_pc(#[trigger] st.objects@[j], pc),
    ensures
        object_covering(st, pc) == Some(st.objects@[k]),
{
    lemma_index_covering(st.objects@, pc, 0, k);
}

/// An address in the mapping of a runtime object is found to be that object's,
/// where no startup object and no runtime object before it covers it.
pub proof fn lemma_runtime_object_is_located(st: RtldState, pc: u64, k: int)
    requires
        0 <= k < st.chain@.len(),
        0 < st.chain@[k].map_start <= pc < st.chain@[k].map_end,
        forall|j: int| 0 <= j < k ==> !covers_pc(#[trigger] st.chain@[j], pc),
        forall|j: int| 0 <= j < st.objects@.len() ==> !covers_pc(#[trigger] st.objects@[j], pc),
    ensures
        object_covering(st, pc) == Some(st.chain@[k]),
{
    lemma_none_covering(st.objects@, pc, 0);
    lemma_index_covering(st.chain@, pc, 0, k);
}

/// Where the mapping is not known, an object covers the memory of its loadable
/// segments, moved by its base, and nothing else.
pub proof fn lemma_segments_are_covered(lm: LinkMap, pc: u64)
    requires
        lm.map_start == 0,
        lm.phdr != 0,
        lm.phnum != 0,
        forall|i: int|
            0 <= i < lm.tables.phdrs@.len() ==> lm.base + (#[trigger] lm.tables.phdrs@[i]).p_vaddr
                + lm.tables.phdrs@[i].p_memsz <= u64::MAX,
    ensures
        covers_pc(lm, pc) <==> exists|i: int|
            0 <= i < lm.tables.phdrs@.len() && (#[trigger] lm.tables.phdrs@[i]).p_type == 1
                && lm.base + lm.tables.phdrs@[i].p_vaddr <= pc < lm.base
                + lm.tables.phdrs@[i].p_vaddr + lm.tables.phdrs@[i].p_memsz,
{
    if covers_pc(lm, pc) {
        let i = choose|i: int|
            0 <= i < lm.tables.phdrs@.len() && segment_covers(
                #[trigger] lm.tables.phdrs@[i],
                lm.base,
                pc,
            );
        let ph = lm.tables.phdrs@[i];
        assert(lm.base + ph.p_vaddr + ph.p_memsz <= u64::MAX);
    }
    if exists|i: int|
        0 <= i < lm.tables.phdrs@.len() && (#[trigger] lm.tables.phdrs@[i]).p_type == 1 && lm.base
            + lm.tables.phdrs@[i].p_vaddr <= pc < lm.base + lm.tables.phdrs@[i].p_vaddr
            + lm.tables.phdrs@[i].p_memsz {
        let i = choose|i: int|
            0 <= i < lm.tables.phdrs@.len() && (#[trigger] lm.tables.phdrs@[i]).p_type == 1
                && lm.base + lm.tables.phdrs@[i].p_vaddr <= pc < lm.base
                + lm.tables.phdrs@[i].p_vaddr + lm.tables.phdrs@[i].p_memsz;
        assert(segment_covers(lm.tables.phdrs@[i], lm.base, pc));
    }
}

} // verus!
