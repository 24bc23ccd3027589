//! Opening, closing and looking up objects at runtime.
//!
//! Handle conventions:
//! - the largest address asks for the next definition behind the caller, and is
//!   good for symbol lookups only;
//! - 0 asks for the global scope;
//! - 1 is the handle of the program itself, and also means the global scope;
//! - anything else is the address of a link map entry.
//!
//! Opening an object loads it and everything it needs, depth first. That takes
//! outside work in between (finding files, mapping images), so it runs in steps:
//! [`dlopen_begin`], then [`dlopen_load`], [`dlopen_step`] and [`dlopen_found`] as
//! the actions say, and at the end [`dlopen_link`] if everything was loaded, or
//! [`dlopen_abort`].
use crate::kernel::core_types::{DlInfo, DlPhdrInfo};
use crate::loader::elf::dynamic::{needed_from, NeededIter};
use crate::loader::elf::header::Arch;
use crate::loader::elf::reloc::{RelocError, RelocWrite};
use crate::loader::elf::tls::{aligned, lemma_aligned};
use crate::loader::elf::types::{Elf64Sym, SHN_UNDEF};
use crate::loader::link_flags::{
    FINI_DONE, RELOCATED, RTLD_GLOBAL, RTLD_LOCAL, RTLD_NODELETE, RUNTIME_LOADED, STARTUP,
};
use crate::loader::link_map::{ArenaState, CName, LinkMap, RtldState};
use crate::loader::rtld::elf::arena::{arena_alloc, has_room};
use crate::loader::rtld::elf::load::{
    fini_calls, load_object, run_fini, unmap_action, unmap_runtime_object, LoadError, UnmapAction,
    RTLD_GLOBAL_FLAG, RTLD_NODELETE_FLAG, RTLD_NOLOAD_FLAG,
};
use crate::loader::rtld::elf::object::{
    chain_named, entry_at, find_by_address, find_in_chain_by_name, find_loaded_object, got_writes,
    index_of, install_got_entries, is_relocated, lemma_runtime_object_is_relocated,
    object_effects, relocate_runtime_object, relocation, runtime_symbols, seed_named, sym_count,
    symbols_counted, table_string, is_table_string,
};
use crate::loader::rtld::elf::scope::{
    default_symbol, deps_symbol, find_entry, locate_object_by_pc, next_symbol, object_covering,
    object_symbol, or_else, resolve_default, resolve_in_handle, resolve_next_after,
    runtime_symbol, scope_len,
};
use crate::loader::rtld::elf::tables::Memory;
use crate::loader::rtld::elf::tls::{
    bind_tlsdesc, desc_outcome, issued_id, register_runtime_module, TlsdescResolvers,
};
use vstd::arithmetic::power2::pow2;
use vstd::prelude::*;

verus! {

/// Handle of the program itself.
pub const DEFAULT_HANDLE_MARKER: u64 = 1;

/// Handle that asks for the next definition.
pub const RTLD_NEXT_HANDLE: u64 = 0xffff_ffff_ffff_ffff;

/// Most objects that one open may load.
pub const MAX_DLOPEN_GRAPH: usize = 64;

/// Most dependencies of one object that are followed.
pub const MAX_NEEDED: usize = 32;

/// Why a runtime operation fails.
#[derive(Clone, Copy, PartialEq, Eq, Debug, Structural)]
pub enum DlError {
    ArenaInit,
    NotLoaded,
    Load(LoadError),
    DependencyNotFound,
    ArenaExhausted,
    GraphTooDeep,
    TlsdescBind,
    Relocation,
    NullSymbol,
    UndefinedSymbol,
    SymbolNotFound,
    NullInfo,
}

/// The message for an error.
pub fn error_message(e: DlError) -> (r: &'static str)
    ensures
        r@ == (match e {
            DlError::ArenaInit => "dlopen: arena init failed",
            DlError::NotLoaded => "dlopen: RTLD_NOLOAD: not loaded",
            DlError::Load(LoadError::ArenaMmapFailed) => "dlopen: arena mmap failed",
            DlError::Load(LoadError::OpenFailed) => "dlopen: open failed",
            DlError::Load(LoadError::StatFailed) => "dlopen: stat failed",
            DlError::Load(LoadError::ReadFailed) => "dlopen: read failed",
            DlError::Load(LoadError::NotElf) => "dlopen: not a valid ELF",
            DlError::Load(LoadError::UnsupportedClass) => "dlopen: unsupported ELF class",
            DlError::Load(LoadError::UnsupportedMachine) => "dlopen: unsupported machine",
            DlError::Load(LoadError::NoLoadable) => "dlopen: no PT_LOAD segments",
            DlError::Load(LoadError::DsoWindowExhausted) => "dlopen: DSO window exhausted",
            DlError::Load(LoadError::RunPlanFailed) => "dlopen: image run plan failed",
            DlError::Load(LoadError::ImageReserveFailed) => "dlopen: image reservation failed",
            DlError::Load(LoadError::ImageAliasFailed) => "dlopen: image alias failed",
            DlError::Load(LoadError::ImageMapRunFailed) => "dlopen: image run mapping failed",
            DlError::Load(LoadError::MmapFailed) => "dlopen: mmap failed",
            DlError::Load(LoadError::Mprotect) => "dlopen: mprotect failed",
            DlError::Load(LoadError::OutOfArena) => "dlopen: rtld arena exhausted",
            DlError::Load(LoadError::DependencyMissing) => "dlopen: dependency missing",
            DlError::Load(LoadError::RelocationFailed) => "dlopen: relocation failed",
            DlError::DependencyNotFound => "dlopen: dependency not found",
            DlError::ArenaExhausted => "dlopen: arena exhausted",
            DlError::GraphTooDeep => "dlopen: dependency graph too deep",
            DlError::TlsdescBind => "dlopen: tlsdesc bind failed",
            DlError::Relocation => "dlopen: relocation failed",
            DlError::NullSymbol => "dlsym: null symbol name",
            DlError::UndefinedSymbol => "dlsym: undefined symbol",
            DlError::SymbolNotFound => "dlsym: symbol not found",
            DlError::NullInfo => "dladdr: null info pointer",
        })@,
{
    match e {
        DlError::ArenaInit => "dlopen: arena init failed",
        DlError::NotLoaded => "dlopen: RTLD_NOLOAD: not loaded",
        DlError::Load(LoadError::ArenaMmapFailed) => "dlopen: arena mmap failed",
        DlError::Load(LoadError::OpenFailed) => "dlopen: open failed",
        DlError::Load(LoadError::StatFailed) => "dlopen: stat failed",
        DlError::Load(LoadError::ReadFailed) => "dlopen: read failed",
        DlError::Load(LoadError::NotElf) => "dlopen: not a valid ELF",
        DlError::Load(LoadError::UnsupportedClass) => "dlopen: unsupported ELF class",
        DlError::Load(LoadError::UnsupportedMachine) => "dlopen: unsupported machine",
        DlError::Load(LoadError::NoLoadable) => "dlopen: no PT_LOAD segments",
        DlError::Load(LoadError::DsoWindowExhausted) => "dlopen: DSO window exhausted",
        DlError::Load(LoadError::RunPlanFailed) => "dlopen: image run plan failed",
        DlError::Load(LoadError::ImageReserveFailed) => "dlopen: image reservation failed",
        DlError::Load(LoadError::ImageAliasFailed) => "dlopen: image alias failed",
        DlError::Load(LoadError::ImageMapRunFailed) => "dlopen: image run mapping failed",
        DlError::Load(LoadError::MmapFailed) => "dlopen: mmap failed",
        DlError::Load(LoadError::Mprotect) => "dlopen: mprotect failed",
        DlError::Load(LoadError::OutOfArena) => "dlopen: rtld arena exhausted",
        DlError::Load(LoadError::DependencyMissing) => "dlopen: dependency missing",
        DlError::Load(LoadError::RelocationFailed) => "dlopen: relocation failed",
        DlError::DependencyNotFound => "dlopen: dependency not found",
        DlError::ArenaExhausted => "dlopen: arena exhausted",
        DlError::GraphTooDeep => "dlopen: dependency graph too deep",
        DlError::TlsdescBind => "dlopen: tlsdesc bind failed",
        DlError::Relocation => "dlopen: relocation failed",
        DlError::NullSymbol => "dlsym: null symbol name",
        DlError::UndefinedSymbol => "dlsym: undefined symbol",
        DlError::SymbolNotFound => "dlsym: symbol not found",
        DlError::NullInfo => "dladdr: null info pointer",
    }
}

/// A buffer that a message was written to: as much of it as fits with a
/// terminator.
pub open spec fn message_written(before: Seq<u8>, msg: Seq<u8>) -> Seq<u8> {
    if before.len() == 0 {
        before
    } else {
        let n = if msg.len() < before.len() - 1 {
            msg.len() as int
        } else {
            before.len() - 1
        };
        msg.take(n).push(0) + before.skip(n + 1)
    }
}

/// Writes a message with a terminator to a buffer.
pub fn write_err(buf: &mut [u8], msg: &[u8])
    ensures
        final(buf)@ == message_written(old(buf)@, msg@),
{
    let len: usize = buf.len();
    if len == 0 {
        return;
    }
    let n: usize = if msg.len() < len - 1 {
        msg.len()
    } else {
        len - 1
    };
    let mut i: usize = 0;
    while i < n
        invariant
            i <= n,
            n <= msg@.len(),
            n < len,
            len == buf@.len(),
            len == old(buf)@.len(),
            buf@ == msg@.take(i as int) + old(buf)@.skip(i as int),
        decreases n - i,
    {
        buf[i] = msg[i];
        i = i + 1;
        assert(buf@ =~= msg@.take(i as int) + old(buf)@.skip(i as int));
    }
    buf[n] = 0;
    assert(buf@ =~= message_written(old(buf)@, msg@));
}

// ---------------------------------------------------------------------------
// Opening
// ---------------------------------------------------------------------------

/// The flags of an entry that is opened with the given open flags. Opening for
/// the global scope takes an object out of the local one; the other way round
/// it stays global.
pub open spec fn handle_flags(f: u32, flags: i32) -> u32 {
    let scoped = if flags & RTLD_GLOBAL_FLAG != 0 {
        (f | RTLD_GLOBAL) & !RTLD_LOCAL
    } else {
        f | RTLD_LOCAL
    };
    if flags & RTLD_NODELETE_FLAG != 0 {
        scoped | RTLD_NODELETE
    } else {
        scoped
    }
}

fn update_handle_flags(lm: &mut LinkMap, flags: i32)
    ensures
        *final(lm) == (LinkMap { flags: handle_flags(old(lm).flags, flags), ..*old(lm) }),
{
    if flags & RTLD_GLOBAL_FLAG != 0 {
        lm.set_flag(RTLD_GLOBAL);
        lm.clear_flag(RTLD_LOCAL);
    } else {
        lm.set_flag(RTLD_LOCAL);
    }
    if flags & RTLD_NODELETE_FLAG != 0 {
        lm.set_flag(RTLD_NODELETE);
    }
}

/// New objects of one open, dependencies first. Objects that were there before
/// are not among them: they are relocated and initialised already.
pub struct LoadOrder {
    pub items: Vec<u64>,
}

impl LoadOrder {
    pub fn empty() -> (r: LoadOrder)
        ensures
            r.items@.len() == 0,
    {
        LoadOrder { items: Vec::new() }
    }

    /// Appends an object; fails when there are as many as one open may load.
    pub fn push(&mut self, handle: u64) -> (r: Result<(), ()>)
        ensures
            if old(self).items@.len() >= 64 {
                r is Err && *final(self) == *old(self)
            } else {
                r is Ok && final(self).items@ == old(self).items@.push(handle)
            },
    {
        if self.items.len() >= MAX_DLOPEN_GRAPH {
            return Err(());
        }
        self.items.push(handle);
        Ok(())
    }
}

/// An object whose dependencies are being loaded.
pub struct Frame {
    pub handle: u64,
    /// String table offsets of the names that it needs.
    pub needed: Vec<u64>,
    /// The first one that is not settled.
    pub next: usize,
    /// Handles of the dependencies that are settled.
    pub deps: Vec<u64>,
}

/// An open under way.
pub struct DlopenRun {
    /// The open flags.
    pub flags: i32,
    /// Objects that wait for dependencies; each is needed by the one before it.
    pub frames: Vec<Frame>,
    pub order: LoadOrder,
}

/// No object waits for more names than it needs, nor for more than are followed;
/// and each but the last waits for the one behind it.
pub open spec fn frames_ok(frames: Seq<Frame>) -> bool {
    forall|k: int|
        0 <= k < frames.len() ==> {
            let f = #[trigger] frames[k];
            &&& f.next <= f.needed@.len() <= 32
            &&& f.deps@.len() <= 32
            &&& k + 1 < frames.len() ==> f.next < f.needed@.len()
        }
}

impl DlopenRun {
    /// Every object that waits is well-formed.
    pub open spec fn wf(self) -> bool {
        frames_ok(self.frames@)
    }

    /// The object that was loaded last needs a name that is not settled.
    pub open spec fn needs_name(self) -> bool {
        self.frames@.last().next < self.frames@.last().needed@.len()
    }
}

/// How an open starts.
pub enum DlopenStart {
    /// The object is there already; this is its handle.
    Opened(u64),
    Refused(DlError),
    /// It has to be loaded.
    Load(DlopenRun),
}

/// An entry that is opened once more.
pub open spec fn reopened(lm: LinkMap, flags: i32) -> LinkMap {
    LinkMap {
        refcount: if lm.refcount == u32::MAX {
            u32::MAX
        } else {
            (lm.refcount + 1) as u32
        },
        flags: handle_flags(lm.flags, flags),
        ..lm
    }
}

/// Starts an open of the object at `path`. A runtime object that is there counts
/// one more open; a startup object is pinned and counts none.
pub fn dlopen_begin(st: &mut RtldState, path: &[u8], flags: i32) -> (r: DlopenStart)
    ensures
        *final(st) == (RtldState { chain: final(st).chain, ..*old(st) }),
        match chain_named(old(st).chain@, path@, 0) {
            Some(i) => r == DlopenStart::Opened(old(st).chain@[i].addr) && final(st).chain@ == old(
                st,
            ).chain@.update(i, reopened(old(st).chain@[i], flags)),
            None => final(st).chain@ == old(st).chain@ && match seed_named(
                old(st).objects@,
                path@,
                0,
            ) {
                Some(i) => r == DlopenStart::Opened(old(st).objects@[i].addr),
                None => if flags & RTLD_NOLOAD_FLAG != 0 {
                    r == DlopenStart::Refused(DlError::NotLoaded)
                } else {
                    r is Load && r->Load_0.flags == flags && r->Load_0.frames@.len() == 0
                        && r->Load_0.order.items@.len() == 0 && r->Load_0.wf()
                },
            },
        },
{
    match find_in_chain_by_name(st, path) {
        Some(i) => {
            if st.chain[i].refcount < u32::MAX {
                st.chain[i].refcount = st.chain[i].refcount + 1;
            }
            update_handle_flags(&mut st.chain[i], flags);
            assert(st.chain@ =~= old(st).chain@.update(
                i as int,
                reopened(old(st).chain@[i as int], flags),
            ));
            return DlopenStart::Opened(st.chain[i].addr);
        },
        None => {},
    }
    match find_loaded_object(st, path) {
        Some(i) => {
            return DlopenStart::Opened(st.objects[i].addr);
        },
        None => {},
    }
    if flags & RTLD_NOLOAD_FLAG != 0 {
        return DlopenStart::Refused(DlError::NotLoaded);
    }
    DlopenStart::Load(DlopenRun { flags, frames: Vec::new(), order: LoadOrder::empty() })
}

/// The names that an object needs, as string table offsets, as far as they are
/// followed.
pub open spec fn needed_offsets(lm: LinkMap) -> Seq<u64> {
    if lm.dynamic == 0 || lm.strtab == 0 {
        Seq::empty()
    } else {
        let all = needed_from(lm.tables.dynamic@, 0);
        if all.len() > 32 {
            all.take(32)
        } else {
            all
        }
    }
}

fn collect_needed(lm: &LinkMap) -> (r: Vec<u64>)
    ensures
        r@ == needed_offsets(*lm),
{
    let mut out: Vec<u64> = Vec::new();
    if lm.dynamic == 0 || lm.strtab == 0 {
        assert(out@ =~= Seq::empty());
        return out;
    }
    let mut it = NeededIter::new(lm.tables.dynamic.as_slice());
    let ghost all = needed_from(lm.tables.dynamic@, 0);
    assert(all.skip(0) =~= all);
    while out.len() < MAX_NEEDED
        invariant
            out@.len() <= 32,
            out@.len() <= all.len(),
            out@ == all.take(out@.len() as int),
            it.remaining() == all.skip(out@.len() as int),
            all == needed_from(lm.tables.dynamic@, 0),
            lm.dynamic != 0 && lm.strtab != 0,
        decreases 32 - out@.len(),
    {
        match it.next() {
            Some(off) => {
                let ghost n = out@.len() as int;
                out.push(off);
                assert(out@ =~= all.take(n + 1));
                assert(all.skip(n).skip(1) =~= all.skip(n + 1));
            },
            None => {
                assert(out@ =~= all);
                return out;
            },
        }
    }
    assert(all.take(32) =~= out@);
    assert(all.len() == 32 ==> all.take(32) =~= all);
    out
}

/// The entry of an object that one open loads: the root is flagged as the open
/// asks, everything it needs joins the global scope.
pub open spec fn fresh_entry(
    lm: LinkMap,
    addr: u64,
    flags: i32,
    root: bool,
    counter: u32,
) -> LinkMap {
    let loaded = lm.flags | RUNTIME_LOADED;
    LinkMap {
        addr,
        refcount: 1,
        flags: if root {
            handle_flags(loaded, flags)
        } else {
            loaded | RTLD_GLOBAL
        },
        tls_mod_id: if lm.tls_memsz > 0 {
            issued_id(counter).0 as usize
        } else {
            lm.tls_mod_id
        },
        ..lm
    }
}

/// The handle that the next link map entry gets.
pub open spec fn next_handle(arena: ArenaState) -> u64 {
    (arena.base + aligned(arena.cursor, 8)) as u64
}

/// Takes the result of loading an object: it joins the chain and waits for its
/// own dependencies. The first object of an open is its root.
pub fn dlopen_load(
    st: &mut RtldState,
    run: &mut DlopenRun,
    loaded: Result<LinkMap, LoadError>,
) -> (r:
    Result<(), DlError>)
    requires
        old(st).arena.wf(),
        old(st).arena.size <= u64::MAX - 7,
        old(run).wf(),
        old(run).frames@.len() > 0 ==> old(run).needs_name(),
    ensures
        final(st).arena.wf(),
        final(st).arena.size == old(st).arena.size,
        final(run).wf(),
        match loaded {
            Err(e) => r == Err::<(), DlError>(DlError::Load(e)) && *final(st) == *old(st)
                && *final(run) == *old(run),
            Ok(lm) => if !has_room(old(st).arena, 592, 8) {
                r == Err::<(), DlError>(DlError::Load(LoadError::OutOfArena)) && *final(st) == *old(
                    st,
                ) && *final(run) == *old(run)
            } else {
                &&& r is Ok
                &&& *final(st) == (RtldState {
                    chain: final(st).chain,
                    arena: ArenaState {
                        cursor: (aligned(old(st).arena.cursor, 8) + 592) as u64,
                        ..old(st).arena
                    },
                    next_dynamic_tls_module_id: if lm.tls_memsz > 0 {
                        issued_id(old(st).next_dynamic_tls_module_id).1
                    } else {
                        old(st).next_dynamic_tls_module_id
                    },
                    ..*old(st)
                })
                &&& final(st).chain@ == old(st).chain@.insert(
                    0,
                    fresh_entry(
                        lm,
                        next_handle(old(st).arena),
                        old(run).flags,
                        old(run).frames@.len() == 0,
                        old(st).next_dynamic_tls_module_id,
                    ),
                )
                &&& *final(run) == (DlopenRun { frames: final(run).frames, ..*old(run) })
                &&& final(run).frames@.len() == old(run).frames@.len() + 1
                &&& final(run).frames@.drop_last() == old(run).frames@
                &&& is_new_frame(
                    final(run).frames@.last(),
                    next_handle(old(st).arena),
                    needed_offsets(lm),
                )
            },
        },
        forall|before: Set<u64>| #[trigger]
            run_ok(*old(st), *old(run), before) ==> run_ok(*final(st), *final(run), before),
        forall|before: Set<u64>, rank: spec_fn(u64) -> int|
            run_ok(*old(st), *old(run), before) && #[trigger] run_sorted(
                *old(st),
                *old(run),
                before,
                rank,
            ) && (loaded matches Ok(lm) ==> lm.deps@.len() == 0) && (old(run).frames@.len() > 0
                ==> rank(next_handle(old(st).arena)) < rank(old(run).frames@.last().handle))
                ==> run_sorted(*final(st), *final(run), before, rank),
        forall|before: Set<u64>, chain: Seq<LinkMap>| #[trigger]
            run_ok(*old(st), *old(run), before) && #[trigger] opened_on(
                old(st).chain@,
                *old(run),
                chain,
            ) && (loaded matches Ok(lm) ==> !lm.flagged(STARTUP)) ==> opened_on(
                final(st).chain@,
                *final(run),
                chain,
            ),
{
    let lm: LinkMap = match loaded {
        Ok(lm) => lm,
        Err(e) => {
            return Err(DlError::Load(e));
        },
    };
    let ghost given = lm;
    let root: bool = run.frames.len() == 0;
    let has_tls: bool = lm.tls_memsz > 0;
    let needed: Vec<u64> = collect_needed(&lm);
    let handle: u64 = match load_object(st, lm) {
        Ok(h) => h,
        Err(e) => {
            return Err(DlError::Load(e));
        },
    };
    if root {
        update_handle_flags(&mut st.chain[0], run.flags);
    } else {
        st.chain[0].set_flag(RTLD_GLOBAL);
    }
    if has_tls {
        let _ = register_runtime_module(st, 0);
    }
    run.frames.push(Frame { handle, needed, next: 0, deps: Vec::new() });
    proof {
        let entry = fresh_entry(
            given,
            handle,
            run.flags,
            root,
            old(st).next_dynamic_tls_module_id,
        );
        assert(st.chain@ =~= old(st).chain@.insert(0, entry));
        assert(run.frames@.drop_last() =~= old(run).frames@);
        assert forall|k: int| 0 <= k < run.frames@.len() implies {
            let f = #[trigger] run.frames@[k];
            &&& f.next <= f.needed@.len() <= 32
            &&& f.deps@.len() <= 32
            &&& k + 1 < run.frames@.len() ==> f.next < f.needed@.len()
        } by {
            if k < old(run).frames@.len() {
                assert(run.frames@[k] == old(run).frames@[k]);
            }
        }
        assert forall|before: Set<u64>| #[trigger] run_ok(
            *old(st),
            *old(run),
            before,
        ) implies run_ok(
            *st,
            *run,
            before,
        ) by {
            lemma_load_keeps_run(*old(st), *old(run), *st, *run, before, entry);
        }
        lemma_aligned_8(old(st).arena.cursor);
        assert(is_free(old(st).arena, entry.addr));
        assert forall|before: Set<u64>, rank: spec_fn(u64) -> int|
            run_ok(*old(st), *old(run), before) && #[trigger] run_sorted(
                *old(st),
                *old(run),
                before,
                rank,
            ) && given.deps@.len() == 0 && (old(run).frames@.len() > 0 ==> rank(
                next_handle(old(st).arena),
            ) < rank(old(run).frames@.last().handle)) implies run_sorted(
            *st,
            *run,
            before,
            rank,
        ) by {
            lemma_load_keeps_sorted(*old(st), *old(run), *st, *run, before, rank, entry);
        }
        assert forall|before: Set<u64>, chain: Seq<LinkMap>| #[trigger]
            run_ok(*old(st), *old(run), before) && #[trigger] opened_on(
                old(st).chain@,
                *old(run),
                chain,
            ) && !given.flagged(STARTUP) implies opened_on(st.chain@, *run, chain) by {
            lemma_fresh_flags(given.flags, run.flags);
            lemma_load_keeps_opened(*old(st), *old(run), *run, before, chain, entry);
        }
    }
    Ok(())
}

/// A frame with nothing settled yet.
pub open spec fn is_new_frame(f: Frame, handle: u64, needed: Seq<u64>) -> bool {
    f.handle == handle && f.needed@ == needed && f.next == 0 && f.deps@.len() == 0
}

/// What an open does next.
pub enum DlopenAction {
    /// Find the path of a dependency of the object with the handle given, by
    /// name, and go on with [`dlopen_found`].
    Search(u64, CName),
    /// Go on with [`dlopen_step`].
    Continue,
    /// Everything is loaded; this is the handle of the root.
    Done(u64),
    Fail(DlError),
}

/// The frames with one more dependency of the last one settled.
pub open spec fn is_settled_by(before: Seq<Frame>, dep: u64, after: Seq<Frame>) -> bool {
    let old_top = before.last();
    let top = after.last();
    &&& after.len() == before.len()
    &&& after.drop_last() == before.drop_last()
    &&& top.handle == old_top.handle
    &&& top.needed == old_top.needed
    &&& top.next == old_top.next + 1
    &&& top.deps@ == if old_top.deps@.len() < 32 {
        old_top.deps@.push(dep)
    } else {
        old_top.deps@
    }
}

fn settle(frames: &mut Vec<Frame>, dep: u64)
    requires
        old(frames)@.len() > 0,
        old(frames)@.last().next < usize::MAX,
    ensures
        is_settled_by(old(frames)@, dep, final(frames)@),
{
    let top: usize = frames.len() - 1;
    if frames[top].deps.len() < MAX_NEEDED {
        frames[top].deps.push(dep);
    }
    frames[top].next = frames[top].next + 1;
    assert(frames@.drop_last() =~= old(frames)@.drop_last());
}

proof fn lemma_settle_shape(before: Seq<Frame>, dep: u64, after: Seq<Frame>)
    requires
        before.len() > 0,
        is_settled_by(before, dep, after),
        before.last().next < before.last().needed@.len(),
        frames_ok(before),
    ensures
        frames_ok(after),
{
    let n = before.len() - 1;
    assert(before[n] == before.last() && after[n] == after.last());
    assert forall|k: int| 0 <= k < after.len() implies {
        let f = #[trigger] after[k];
        &&& f.next <= f.needed@.len() <= 32
        &&& f.deps@.len() <= 32
        &&& k + 1 < after.len() ==> f.next < f.needed@.len()
    } by {
        if k < n {
            assert(after.drop_last()[k] == before.drop_last()[k]);
            assert(after[k] == before[k]);
        }
    }
}

/// Whether the arena has room for the dependencies of an object.
pub open spec fn deps_fit(arena: ArenaState, n: int) -> bool {
    n == 0 || has_room(arena, n * 8, 8)
}

/// The arena with the dependencies of an object.
pub open spec fn deps_arena(arena: ArenaState, n: int) -> ArenaState {
    if n == 0 {
        arena
    } else {
        ArenaState { cursor: (aligned(arena.cursor, 8) + n * 8) as u64, ..arena }
    }
}

/// Whether `after` is `before` with dependencies at the start of the free part of
/// the arena.
pub open spec fn has_deps(
    before: LinkMap,
    arena: ArenaState,
    deps: Seq<u64>,
    after: LinkMap,
) -> bool {
    if deps.len() == 0 {
        after == before
    } else {
        after == (LinkMap { deps_ptr: next_handle(arena), deps: after.deps, ..before })
            && after.deps@ == deps
    }
}

/// Whether the steps of an open can go on: something waits, and what waits is in
/// the chain.
pub open spec fn can_step(st: RtldState, run: DlopenRun) -> bool {
    &&& run.frames@.len() > 0
    &&& index_of(st.chain@, run.frames@.last().handle, 0) is Some
    &&& st.arena.wf()
    &&& st.arena.size <= u64::MAX - 7
    &&& run.wf()
}

/// The next step of an open. The object that was loaded last either needs a name
/// that is not settled, or has all its dependencies: then they are recorded, it
/// joins the order behind them, and it is settled for the object that needs it.
pub fn dlopen_step(st: &mut RtldState, run: &mut DlopenRun) -> (r: DlopenAction)
    requires
        can_step(*old(st), *old(run)),
    ensures
        ({
            let top = old(run).frames@.last();
            let at = index_of(old(st).chain@, top.handle, 0)->0;
            let n = top.deps@.len() as int;
            if top.next < top.needed@.len() {
                r is Search && r->Search_0 == top.handle && is_table_string(
                    Some(r->Search_1),
                    old(st).chain@[at],
                    top.needed@[top.next as int],
                ) && *final(st) == *old(st) && *final(run) == *old(run)
            } else if !deps_fit(old(st).arena, n) {
                r == DlopenAction::Fail(DlError::ArenaExhausted) && *final(st) == *old(st)
                    && *final(run) == *old(run)
            } else {
                &&& *final(st) == (RtldState {
                    chain: final(st).chain,
                    arena: deps_arena(old(st).arena, n),
                    ..*old(st)
                })
                &&& final(st).chain@ == old(st).chain@.update(at, final(st).chain@[at])
                &&& has_deps(
                    old(st).chain@[at],
                    old(st).arena,
                    top.deps@,
                    final(st).chain@[at],
                )
                &&& if old(run).order.items@.len() >= 64 {
                    r == DlopenAction::Fail(DlError::GraphTooDeep) && *final(run) == *old(run)
                } else {
                    &&& final(run).flags == old(run).flags
                    &&& final(run).order.items@ == old(run).order.items@.push(top.handle)
                    &&& if old(run).frames@.len() == 1 {
                        r == DlopenAction::Done(top.handle) && final(run).frames@.len() == 0
                    } else {
                        r is Continue && is_settled_by(
                            old(run).frames@.drop_last(),
                            top.handle,
                            final(run).frames@,
                        )
                    }
                }
            }
        }),
        final(st).arena.wf(),
        final(st).arena.size == old(st).arena.size,
        final(run).wf(),
        forall|before: Set<u64>| #[trigger]
            run_ok(*old(st), *old(run), before) && !(r is Fail) ==> run_ok(
                *final(st),
                *final(run),
                before,
            ),
        forall|before: Set<u64>, rank: spec_fn(u64) -> int|
            run_ok(*old(st), *old(run), before) && #[trigger] run_sorted(
                *old(st),
                *old(run),
                before,
                rank,
            ) && deps_ranked(*old(run), rank) && !(r is Fail) ==> run_sorted(
                *final(st),
                *final(run),
                before,
                rank,
            ),
        forall|chain: Seq<LinkMap>| #[trigger]
            opened_on(old(st).chain@, *old(run), chain) ==> opened_on(
                final(st).chain@,
                *final(run),
                chain,
            ),
{
    let top: usize = run.frames.len() - 1;
    let handle: u64 = run.frames[top].handle;
    let at: usize = match find_by_address(&st.chain, handle) {
        Some(i) => i,
        None => {
            return DlopenAction::Continue;
        },
    };
    if run.frames[top].next < run.frames[top].needed.len() {
        let off: u64 = run.frames[top].needed[run.frames[top].next];
        return DlopenAction::Search(handle, table_string(&st.chain[at], off));
    }
    let n: usize = run.frames[top].deps.len();
    if n > 0 {
        let mut arena: ArenaState = st.arena;
        match arena_alloc(&mut arena, n as u64 * 8, 8) {
            Some(p) => {
                st.arena = arena;
                let deps: Vec<u64> = copy_handles(&run.frames[top].deps);
                st.chain[at].deps_ptr = p;
                st.chain[at].deps = deps;
            },
            None => {
                return DlopenAction::Fail(DlError::ArenaExhausted);
            },
        }
    }
    assert(st.chain@ =~= old(st).chain@.update(at as int, st.chain@[at as int]));
    proof {
        assert(run.frames@[top as int].handle == handle);
        assert forall|chain: Seq<LinkMap>| #[trigger]
            opened_on(old(st).chain@, *old(run), chain) implies opened_on(
            st.chain@,
            *run,
            chain,
        ) by {
            lemma_index_of(old(st).chain@, handle, 0);
            lemma_update_keeps_opened(
                old(st).chain@,
                *run,
                chain,
                at as int,
                st.chain@[at as int],
            );
        }
    }
    match run.order.push(handle) {
        Ok(_) => {},
        Err(_) => {
            return DlopenAction::Fail(DlError::GraphTooDeep);
        },
    }
    let _ = run.frames.pop();
    if run.frames.len() == 0 {
        proof {
            assert forall|before: Set<u64>| #[trigger]
                run_ok(*old(st), *old(run), before) implies run_ok(*st, *run, before) by {
                lemma_finish_keeps_run(*old(st), *old(run), *st, *run, before, at as int);
            }
            assert forall|before: Set<u64>, rank: spec_fn(u64) -> int|
                run_ok(*old(st), *old(run), before) && #[trigger] run_sorted(
                    *old(st),
                    *old(run),
                    before,
                    rank,
                ) && deps_ranked(*old(run), rank) implies run_sorted(*st, *run, before, rank) by {
                lemma_finish_keeps_sorted(*old(st), *old(run), *st, *run, before, rank);
            }
            assert forall|chain: Seq<LinkMap>| #[trigger]
                opened_on(old(st).chain@, *old(run), chain) implies opened_on(
                st.chain@,
                *run,
                chain,
            ) by {
                lemma_finish_keeps_opened(st.chain@, *old(run), *run, chain);
            }
        }
        return DlopenAction::Done(handle);
    }
    assert(run.frames@ =~= old(run).frames@.drop_last());
    assert(run.frames@.last() == old(run).frames@[old(run).frames@.len() - 2]);
    let ghost waiting = run.frames@;
    settle(&mut run.frames, handle);
    proof {
        lemma_settle_shape(waiting, handle, run.frames@);
    }
    proof {
        assert forall|before: Set<u64>| #[trigger]
            run_ok(*old(st), *old(run), before) implies run_ok(*st, *run, before) by {
            lemma_finish_keeps_run(*old(st), *old(run), *st, *run, before, at as int);
        }
        assert forall|before: Set<u64>, rank: spec_fn(u64) -> int|
            run_ok(*old(st), *old(run), before) && #[trigger] run_sorted(
                *old(st),
                *old(run),
                before,
                rank,
            ) && deps_ranked(*old(run), rank) implies run_sorted(*st, *run, before, rank) by {
            lemma_finish_keeps_sorted(*old(st), *old(run), *st, *run, before, rank);
        }
        assert forall|chain: Seq<LinkMap>| #[trigger]
            opened_on(old(st).chain@, *old(run), chain) implies opened_on(
            st.chain@,
            *run,
            chain,
        ) by {
            lemma_finish_keeps_opened(st.chain@, *old(run), *run, chain);
        }
    }
    DlopenAction::Continue
}

fn copy_handles(s: &Vec<u64>) -> (r: Vec<u64>)
    ensures
        r@ == s@,
{
    let mut out: Vec<u64> = Vec::new();
    let mut i: usize = 0;
    while i < s.len()
        invariant
            i <= s@.len(),
            out@ == s@.take(i as int),
        decreases s@.len() - i,
    {
        out.push(s[i]);
        i = i + 1;
        assert(out@ =~= s@.take(i as int));
    }
    assert(s@.take(i as int) =~= s@);
    out
}

/// What to do with the path of a dependency.
pub enum FoundAction {
    /// Load the object at the path, and go on with [`dlopen_load`].
    Load(CName),
    /// The object is there already; go on with [`dlopen_step`].
    Continue,
    Fail(DlError),
}

/// Takes the path that was found for the dependency asked for, if any. An object
/// that is there already is reused as it is.
pub fn dlopen_found(st: &RtldState, run: &mut DlopenRun, path: Option<CName>) -> (r: FoundAction)
    requires
        old(run).wf(),
        old(run).frames@.len() > 0,
        old(run).needs_name(),
    ensures
        final(run).wf(),
        match path {
            None => r == FoundAction::Fail(DlError::DependencyNotFound) && *final(run) == *old(run),
            Some(p) => match chain_named(st.chain@, p.bytes@, 0) {
                Some(i) => r is Continue && is_settled_by(
                    old(run).frames@,
                    st.chain@[i].addr,
                    final(run).frames@,
                ),
                None => match seed_named(st.objects@, p.bytes@, 0) {
                    Some(i) => r is Continue && is_settled_by(
                        old(run).frames@,
                        st.objects@[i].addr,
                        final(run).frames@,
                    ),
                    None => r == FoundAction::Load(p) && *final(run) == *old(run),
                },
            },
        },
        *final(run) == (DlopenRun { frames: final(run).frames, ..*old(run) }),
        forall|before: Set<u64>| #[trigger]
            run_ok(*st, *old(run), before) ==> run_ok(*st, *final(run), before),
        forall|before: Set<u64>, rank: spec_fn(u64) -> int| #[trigger]
            run_sorted(*st, *old(run), before, rank) ==> run_sorted(
                *st,
                *final(run),
                before,
                rank,
            ),
        forall|chain: Seq<LinkMap>| #[trigger]
            opened_on(st.chain@, *old(run), chain) ==> opened_on(st.chain@, *final(run), chain),
{
    let p: CName = match path {
        Some(p) => p,
        None => {
            return FoundAction::Fail(DlError::DependencyNotFound);
        },
    };
    let dep: u64 = match find_in_chain_by_name(st, p.bytes.as_slice()) {
        Some(i) => st.chain[i].addr,
        None => match find_loaded_object(st, p.bytes.as_slice()) {
            Some(i) => st.objects[i].addr,
            None => {
                return FoundAction::Load(p);
            },
        },
    };
    assert(old(run).frames@[old(run).frames@.len() - 1] == old(run).frames@.last());
    settle(&mut run.frames, dep);
    proof {
        lemma_settle_shape(old(run).frames@, dep, run.frames@);
        assert forall|before: Set<u64>| #[trigger]
            run_ok(*st, *old(run), before) implies run_ok(*st, *run, before) by {
            lemma_settle_keeps_run(*st, *old(run), *run, before, dep);
        }
        assert forall|before: Set<u64>, rank: spec_fn(u64) -> int| #[trigger]
            run_sorted(*st, *old(run), before, rank) implies run_sorted(
            *st,
            *run,
            before,
            rank,
        ) by {
            lemma_settle_keeps_sorted(*st, *old(run), *run, before, rank, dep);
        }
        assert forall|chain: Seq<LinkMap>| #[trigger]
            opened_on(st.chain@, *old(run), chain) implies opened_on(st.chain@, *run, chain) by {
            lemma_settle_keeps_opened(st.chain@, *old(run), *run, chain, dep);
        }
    }
    FoundAction::Continue
}

// ---------------------------------------------------------------------------
// What every open keeps
// ---------------------------------------------------------------------------

/// Whether an object waits for dependencies.
pub open spec fn waits(frames: Seq<Frame>, h: u64) -> bool {
    exists|k: int| 0 <= k < frames.len() && (#[trigger] frames[k]).handle == h
}

/// Whether an object was there before the open, has all its dependencies, or
/// waits for some: one that waits is needed by whatever is loaded meanwhile, so
/// that it cannot come first.
pub open spec fn settled(run: DlopenRun, before: Set<u64>, h: u64) -> bool {
    before.contains(h) || run.order.items@.contains(h) || waits(run.frames@, h)
}

/// Whether an address is in the free part of the arena.
pub open spec fn is_free(arena: ArenaState, h: u64) -> bool {
    arena.base + arena.cursor <= h < arena.base + arena.size
}

/// What holds of an open at all times, where `before` are the handles that there
/// were when it began.
pub open spec fn run_ok(st: RtldState, run: DlopenRun, before: Set<u64>) -> bool {
    &&& st.arena.wf()
    &&& forall|k: int|
        0 <= k < run.frames@.len() ==> exists|i: int|
            0 <= i < st.chain@.len() && (#[trigger] st.chain@[i]).addr == (
            #[trigger] run.frames@[k]).handle
    &&& forall|k: int, d: u64|
        0 <= k < run.frames@.len() && #[trigger] run.frames@[k].deps@.contains(d) ==> settled(
            run,
            before,
            d,
        )
    &&& forall|i: int|
        0 <= i < st.objects@.len() ==> settled(run, before, (#[trigger] st.objects@[i]).addr)
    &&& forall|i: int|
        0 <= i < st.chain@.len() ==> settled(run, before, (#[trigger] st.chain@[i]).addr)
    &&& forall|h: u64| #[trigger] settled(run, before, h) ==> !is_free(st.arena, h)
    &&& run.order.items@.no_duplicates()
    &&& forall|h: u64| #[trigger]
        run.order.items@.contains(h) ==> !before.contains(h) && !waits(run.frames@, h)
    &&& forall|k: int, l: int|
        0 <= k < l < run.frames@.len() ==> (#[trigger] run.frames@[k]).handle != (
        #[trigger] run.frames@[l]).handle
    &&& forall|k: int|
        0 <= k < run.frames@.len() ==> !before.contains((#[trigger] run.frames@[k]).handle)
}

/// The handles that there are.
pub open spec fn handles(st: RtldState) -> Set<u64> {
    Set::new(
        |h: u64|
            (exists|i: int| 0 <= i < st.objects@.len() && (#[trigger] st.objects@[i]).addr == h)
                || (exists|i: int| 0 <= i < st.chain@.len() && (#[trigger] st.chain@[i]).addr == h),
    )
}

/// An open begins in order, if no handle is in the free part of the arena.
pub proof fn lemma_run_begins(st: RtldState, run: DlopenRun)
    requires
        st.arena.wf(),
        run.frames@.len() == 0,
        run.order.items@.len() == 0,
        forall|h: u64| #[trigger] handles(st).contains(h) ==> !is_free(st.arena, h),
    ensures
        run_ok(st, run, handles(st)),
{
    let before = handles(st);
    assert forall|i: int| 0 <= i < st.objects@.len() implies settled(
        run,
        before,
        (#[trigger] st.objects@[i]).addr,
    ) by {
        assert(before.contains(st.objects@[i].addr));
    }
    assert forall|i: int| 0 <= i < st.chain@.len() implies settled(
        run,
        before,
        (#[trigger] st.chain@[i]).addr,
    ) by {
        assert(before.contains(st.chain@[i].addr));
    }
}

proof fn lemma_settle_keeps_run(
    st: RtldState,
    run: DlopenRun,
    after: DlopenRun,
    before: Set<u64>,
    dep: u64,
)
    requires
        run_ok(st, run, before),
        run.frames@.len() > 0,
        is_settled_by(run.frames@, dep, after.frames@),
        after.order == run.order,
        settled(run, before, dep),
    ensures
        run_ok(st, after, before),
{
    let n = run.frames@.len() - 1;
    assert forall|k: int| 0 <= k < n implies after.frames@[k] == run.frames@[k] by {
        assert(after.frames@.drop_last()[k] == run.frames@.drop_last()[k]);
    }
    assert(after.frames@[n].handle == run.frames@[n].handle);
    assert forall|k: int| 0 <= k <= n implies (#[trigger] after.frames@[k]).handle
        == run.frames@[k].handle by {}
    assert forall|h: u64| waits(after.frames@, h) == waits(run.frames@, h) by {
        if waits(run.frames@, h) {
            let k = choose|k: int|
                0 <= k < run.frames@.len() && (#[trigger] run.frames@[k]).handle == h;
            assert(after.frames@[k].handle == h);
        }
    }
    assert forall|h: u64| settled(after, before, h) == settled(run, before, h) by {}
    assert forall|k: int, d: u64|
        0 <= k < after.frames@.len() && #[trigger] after.frames@[k].deps@.contains(
            d,
        ) implies settled(after, before, d) by {
        assert(settled(run, before, dep));
        if run.frames@[k].deps@.contains(d) {
        } else {
            assert(k == n);
            assert(d == dep);
        }
    }
    assert forall|k: int| 0 <= k < after.frames@.len() implies exists|i: int|
        0 <= i < st.chain@.len() && (#[trigger] st.chain@[i]).addr == (
        #[trigger] after.frames@[k]).handle by {
        assert(run.frames@[k].handle == after.frames@[k].handle);
    }
}

proof fn lemma_aligned_8(x: u64)
    requires
        x + 7 <= u64::MAX,
    ensures
        aligned(x, 8) >= x,
{
    assert(pow2(3) == 8) by {
        vstd::arithmetic::power2::lemma2_to64();
    }
    lemma_aligned(x, 3);
}

proof fn lemma_load_keeps_run(
    st: RtldState,
    run: DlopenRun,
    st2: RtldState,
    run2: DlopenRun,
    before: Set<u64>,
    entry: LinkMap,
)
    requires
        run_ok(st, run, before),
        st.arena.size <= u64::MAX - 7,
        has_room(st.arena, 592, 8),
        entry.addr == next_handle(st.arena),
        st2.objects == st.objects,
        st2.chain@ == st.chain@.insert(0, entry),
        st2.arena == (
            ArenaState { cursor: (aligned(st.arena.cursor, 8) + 592) as u64, ..st.arena }
        ),
        run2.order == run.order,
        run2.frames@.len() == run.frames@.len() + 1,
        run2.frames@.drop_last() == run.frames@,
        run2.frames@.last().handle == entry.addr,
        run2.frames@.last().deps@.len() == 0,
    ensures
        run_ok(st2, run2, before),
{
    let n = run.frames@.len() as int;
    let new = entry.addr;
    lemma_aligned_8(st.arena.cursor);
    assert(is_free(st.arena, new));
    assert(!settled(run, before, new));
    assert forall|k: int| 0 <= k < n implies (#[trigger] run2.frames@[k]) == run.frames@[k] by {
        assert(run2.frames@.drop_last()[k] == run.frames@[k]);
    }
    assert(run2.frames@[n].handle == new);
    assert forall|h: u64| #[trigger] waits(run2.frames@, h) == (
        waits(run.frames@, h) || h == new
    ) by {
        if waits(run.frames@, h) {
            let k = choose|k: int|
                0 <= k < run.frames@.len() && (#[trigger] run.frames@[k]).handle == h;
            assert(run2.frames@[k].handle == h);
        }
        if waits(run2.frames@, h) && h != new {
            let k = choose|k: int|
                0 <= k < run2.frames@.len() && (#[trigger] run2.frames@[k]).handle == h;
            assert(k != n);
            assert(run.frames@[k].handle == h);
        }
    }
    assert forall|h: u64| #[trigger] settled(run2, before, h) == (settled(run, before, h) || h
        == new) by {}
    assert forall|k: int| 0 <= k < run2.frames@.len() implies exists|i: int|
        0 <= i < st2.chain@.len() && (#[trigger] st2.chain@[i]).addr == (
        #[trigger] run2.frames@[k]).handle by {
        if k == n {
            assert(st2.chain@[0].addr == new);
        } else {
            assert(run.frames@[k] == run2.frames@[k]);
            let i = choose|i: int|
                0 <= i < st.chain@.len() && (#[trigger] st.chain@[i]).addr == run.frames@[k].handle;
            assert(st2.chain@[i + 1] == st.chain@[i]);
        }
    }
    assert forall|k: int, d: u64|
        0 <= k < run2.frames@.len() && #[trigger] run2.frames@[k].deps@.contains(
            d,
        ) implies settled(run2, before, d) by {
        assert(k != n);
        assert(run.frames@[k].deps@.contains(d));
        assert(settled(run, before, d));
    }
    assert forall|i: int| 0 <= i < st2.objects@.len() implies settled(
        run2,
        before,
        (#[trigger] st2.objects@[i]).addr,
    ) by {
        assert(settled(run, before, st.objects@[i].addr));
    }
    assert forall|i: int| 0 <= i < st2.chain@.len() implies settled(
        run2,
        before,
        (#[trigger] st2.chain@[i]).addr,
    ) by {
        if i > 0 {
            assert(st2.chain@[i] == st.chain@[i - 1]);
            assert(settled(run, before, st.chain@[i - 1].addr));
        }
    }
    assert forall|k: int, l: int| 0 <= k < l < run2.frames@.len() implies (
    #[trigger] run2.frames@[k]).handle != (#[trigger] run2.frames@[l]).handle by {
        assert(run2.frames@[k] == run.frames@[k]);
        if l == n {
            assert(waits(run.frames@, run.frames@[k].handle));
        } else {
            assert(run2.frames@[l] == run.frames@[l]);
        }
    }
    assert forall|h: u64| #[trigger] run2.order.items@.contains(h) implies !before.contains(h)
        && !waits(run2.frames@, h) by {
        assert(run.order.items@.contains(h));
        assert(settled(run, before, h));
    }
    assert forall|k: int| 0 <= k < run2.frames@.len() implies !before.contains(
        (#[trigger] run2.frames@[k]).handle,
    ) by {
        if k < n {
            assert(!before.contains(run.frames@[k].handle));
        }
    }
}

proof fn lemma_finish_keeps_run(
    st: RtldState,
    run: DlopenRun,
    st2: RtldState,
    run2: DlopenRun,
    before: Set<u64>,
    at: int,
)
    requires
        run_ok(st, run, before),
        run.frames@.len() > 0,
        st.arena.size <= u64::MAX - 7,
        0 <= at < st.chain@.len(),
        st2.objects == st.objects,
        st2.chain@ == st.chain@.update(at, st2.chain@[at]),
        st2.chain@[at].addr == st.chain@[at].addr,
        deps_fit(st.arena, run.frames@.last().deps@.len() as int),
        st2.arena == deps_arena(st.arena, run.frames@.last().deps@.len() as int),
        run2.order.items@ == run.order.items@.push(run.frames@.last().handle),
        if run.frames@.len() == 1 {
            run2.frames@.len() == 0
        } else {
            is_settled_by(run.frames@.drop_last(), run.frames@.last().handle, run2.frames@)
        },
    ensures
        run_ok(st2, run2, before),
{
    let n = run.frames@.len() - 1;
    let h0 = run.frames@[n].handle;
    lemma_aligned_8(st.arena.cursor);
    assert(run2.frames@.len() == n);
    assert(waits(run.frames@, h0));
    assert(run2.order.items@[run2.order.items@.len() - 1] == h0);
    assert(run2.order.items@.contains(h0));
    assert forall|k: int| 0 <= k < n implies (#[trigger] run2.frames@[k]).handle
        == run.frames@[k].handle by {
        if k < n - 1 {
            assert(run2.frames@.drop_last()[k] == run.frames@.drop_last().drop_last()[k]);
        }
    }
    assert forall|h: u64| #[trigger] run2.order.items@.contains(h) == (run.order.items@.contains(h)
        || h == h0) by {
        if run.order.items@.contains(h) {
            let j = choose|j: int| 0 <= j < run.order.items@.len() && run.order.items@[j] == h;
            assert(run2.order.items@[j] == h);
        }
    }
    assert forall|h: u64| #[trigger] waits(run2.frames@, h) == (
        waits(run.frames@, h) && h != h0
    ) by {
        if waits(run.frames@, h) && h != h0 {
            let k = choose|k: int|
                0 <= k < run.frames@.len() && (#[trigger] run.frames@[k]).handle == h;
            assert(k != n);
            assert(run2.frames@[k].handle == h);
        }
        if waits(run2.frames@, h) {
            let k = choose|k: int|
                0 <= k < run2.frames@.len() && (#[trigger] run2.frames@[k]).handle == h;
            assert(run.frames@[k].handle == h);
            assert(run.frames@[k].handle != run.frames@[n].handle);
        }
    }
    assert forall|h: u64| #[trigger] settled(run2, before, h) == settled(run, before, h) by {}
    assert forall|k: int| 0 <= k < run2.frames@.len() implies exists|i: int|
        0 <= i < st2.chain@.len() && (#[trigger] st2.chain@[i]).addr == (
        #[trigger] run2.frames@[k]).handle by {
        let i = choose|i: int|
            0 <= i < st.chain@.len() && (#[trigger] st.chain@[i]).addr == run.frames@[k].handle;
        assert(st2.chain@[i].addr == st.chain@[i].addr);
    }
    assert forall|k: int, d: u64|
        0 <= k < run2.frames@.len() && #[trigger] run2.frames@[k].deps@.contains(
            d,
        ) implies settled(run2, before, d) by {
        if k < n - 1 {
            assert(run2.frames@.drop_last()[k] == run.frames@.drop_last().drop_last()[k]);
            assert(run.frames@[k].deps@.contains(d));
            assert(settled(run, before, d));
        } else {
            assert(run.frames@.drop_last().last() == run.frames@[k]);
            if run.frames@[k].deps@.contains(d) {
                assert(settled(run, before, d));
            } else {
                assert(d == h0);
                assert(settled(run, before, h0));
            }
        }
    }
    assert forall|i: int| 0 <= i < st2.objects@.len() implies settled(
        run2,
        before,
        (#[trigger] st2.objects@[i]).addr,
    ) by {
        assert(settled(run, before, st.objects@[i].addr));
    }
    assert forall|i: int| 0 <= i < st2.chain@.len() implies settled(
        run2,
        before,
        (#[trigger] st2.chain@[i]).addr,
    ) by {
        assert(st2.chain@[i].addr == st.chain@[i].addr);
        assert(settled(run, before, st.chain@[i].addr));
    }
    assert forall|k: int, l: int| 0 <= k < l < run2.frames@.len() implies (
    #[trigger] run2.frames@[k]).handle != (#[trigger] run2.frames@[l]).handle by {
        assert(run.frames@[k].handle != run.frames@[l].handle);
    }
    assert forall|k: int| 0 <= k < run2.frames@.len() implies !before.contains(
        (#[trigger] run2.frames@[k]).handle,
    ) by {
        assert(!before.contains(run.frames@[k].handle));
    }
    assert forall|h: u64| #[trigger] run2.order.items@.contains(h) implies !before.contains(h)
        && !waits(run2.frames@, h) by {
        if h != h0 {
            assert(run.order.items@.contains(h));
        } else {
            assert(!before.contains(run.frames@[n].handle));
        }
    }
    assert(!run.order.items@.contains(h0));
    assert(run2.order.items@.no_duplicates());
}

/// What waits can be found: an open in order can always go on.
pub proof fn lemma_open_goes_on(st: RtldState, run: DlopenRun, before: Set<u64>)
    requires
        run_ok(st, run, before),
        run.frames@.len() > 0,
    ensures
        index_of(st.chain@, run.frames@.last().handle, 0) is Some,
{
    let h = run.frames@.last().handle;
    assert(run.frames@[run.frames@.len() - 1].handle == h);
    lemma_index_of(st.chain@, h, 0);
}

/// Dependencies come first: when an object joins the order, each of its recorded
/// dependencies was there before the open, is in the order already, or still
/// waits itself. Only a dependency that needs the object in turn does.
pub proof fn lemma_dependencies_come_first(
    st: RtldState,
    run: DlopenRun,
    before: Set<u64>,
    dep: u64,
)
    requires
        run_ok(st, run, before),
        run.frames@.len() > 0,
        run.frames@.last().deps@.contains(dep),
    ensures
        before.contains(dep) || run.order.items@.contains(dep) || waits(run.frames@, dep),
{
    assert(run.frames@[run.frames@.len() - 1].deps@.contains(dep));
    assert(settled(run, before, dep));
}

/// When an open is done, its order lists exactly the objects that are new, each
/// once.
pub proof fn lemma_order_is_complete(st: RtldState, run: DlopenRun, before: Set<u64>, h: u64)
    requires
        run_ok(st, run, before),
        run.frames@.len() == 0,
        handles(st).contains(h),
    ensures
        before.contains(h) <==> !run.order.items@.contains(h),
        run.order.items@.no_duplicates(),
{
    if exists|i: int| 0 <= i < st.objects@.len() && (#[trigger] st.objects@[i]).addr == h {
        let i = choose|i: int| 0 <= i < st.objects@.len() && (#[trigger] st.objects@[i]).addr == h;
        assert(settled(run, before, st.objects@[i].addr));
    } else {
        let i = choose|i: int| 0 <= i < st.chain@.len() && (#[trigger] st.chain@[i]).addr == h;
        assert(settled(run, before, st.chain@[i].addr));
    }
}

/// The recorded dependencies of the object with a handle.
pub open spec fn deps_of(chain: Seq<LinkMap>, h: u64) -> Seq<u64> {
    match index_of(chain, h, 0) {
        Some(i) => chain[i].deps@,
        None => Seq::empty(),
    }
}

/// Whether the order of an open is sorted: every recorded dependency of an object
/// in it was there before the open or stands before the object. And what holds
/// on the way there, with ranks that show that nothing depends on itself: the
/// ranks of what waits go down, and nothing is recorded for it yet.
pub open spec fn run_sorted(
    st: RtldState,
    run: DlopenRun,
    before: Set<u64>,
    rank: spec_fn(u64) -> int,
) -> bool {
    &&& forall|i: int, d: u64|
        0 <= i < run.order.items@.len() && #[trigger] deps_of(
            st.chain@,
            run.order.items@[i],
        ).contains(d) ==> before.contains(d) || run.order.items@.take(i).contains(d)
    &&& forall|k: int, l: int|
        0 <= k < l < run.frames@.len() ==> rank((#[trigger] run.frames@[l]).handle) < rank(
            (#[trigger] run.frames@[k]).handle,
        )
    &&& forall|k: int|
        0 <= k < run.frames@.len() ==> deps_of(
            st.chain@,
            (#[trigger] run.frames@[k]).handle,
        ).len() == 0
}

/// Whether the object that was loaded last ranks above its dependencies.
pub open spec fn deps_ranked(run: DlopenRun, rank: spec_fn(u64) -> int) -> bool {
    forall|d: u64| #[trigger]
        run.frames@.last().deps@.contains(d) ==> rank(d) < rank(run.frames@.last().handle)
}

proof fn lemma_index_of_shift(chain: Seq<LinkMap>, entry: LinkMap, h: u64, i: int)
    requires
        entry.addr != h,
        0 <= i,
    ensures
        index_of(chain.insert(0, entry), h, i + 1) == match index_of(chain, h, i) {
            Some(j) => Some(j + 1),
            None => None,
        },
    decreases chain.len() - i,
{
    let longer = chain.insert(0, entry);
    if i < chain.len() {
        assert(longer[i + 1] == chain[i]);
        if chain[i].addr != h {
            lemma_index_of_shift(chain, entry, h, i + 1);
        }
    }
}

proof fn lemma_deps_of_insert(chain: Seq<LinkMap>, entry: LinkMap, h: u64)
    ensures
        deps_of(chain.insert(0, entry), h) == if entry.addr == h {
            entry.deps@
        } else {
            deps_of(chain, h)
        },
{
    let longer = chain.insert(0, entry);
    assert(longer[0] == entry);
    if entry.addr != h {
        lemma_index_of_shift(chain, entry, h, 0);
        assert(index_of(longer, h, 0) == index_of(longer, h, 1));
        lemma_index_of(chain, h, 0);
        if index_of(chain, h, 0) is Some {
            let j = index_of(chain, h, 0)->0;
            assert(longer[j + 1] == chain[j]);
        }
    }
}

proof fn lemma_index_of_update(chain: Seq<LinkMap>, at: int, entry: LinkMap, h: u64, i: int)
    requires
        0 <= at < chain.len(),
        entry.addr == chain[at].addr,
        0 <= i,
    ensures
        index_of(chain.update(at, entry), h, i) == index_of(chain, h, i),
    decreases chain.len() - i,
{
    if i < chain.len() && chain[i].addr != h {
        lemma_index_of_update(chain, at, entry, h, i + 1);
    }
}

proof fn lemma_load_keeps_sorted(
    st: RtldState,
    run: DlopenRun,
    st2: RtldState,
    run2: DlopenRun,
    before: Set<u64>,
    rank: spec_fn(u64) -> int,
    entry: LinkMap,
)
    requires
        run_ok(st, run, before),
        run_sorted(st, run, before, rank),
        is_free(st.arena, entry.addr),
        st2.chain@ == st.chain@.insert(0, entry),
        entry.deps@.len() == 0,
        run2.order == run.order,
        run2.frames@.len() == run.frames@.len() + 1,
        run2.frames@.drop_last() == run.frames@,
        run2.frames@.last().handle == entry.addr,
        run.frames@.len() > 0 ==> rank(entry.addr) < rank(run.frames@.last().handle),
    ensures
        run_sorted(st2, run2, before, rank),
{
    let n = run.frames@.len() as int;
    assert(!settled(run, before, entry.addr));
    assert forall|k: int| 0 <= k < n implies (#[trigger] run2.frames@[k]) == run.frames@[k] by {
        assert(run2.frames@.drop_last()[k] == run.frames@[k]);
    }
    assert(run2.frames@[n] == run2.frames@.last());
    assert forall|i: int, d: u64|
        0 <= i < run2.order.items@.len() && #[trigger] deps_of(
            st2.chain@,
            run2.order.items@[i],
        ).contains(d) implies before.contains(d) || run2.order.items@.take(i).contains(d) by {
        let h = run.order.items@[i];
        assert(run.order.items@.contains(h));
        assert(settled(run, before, h));
        lemma_deps_of_insert(st.chain@, entry, h);
        assert(deps_of(st.chain@, run.order.items@[i]).contains(d));
    }
    assert forall|k: int, l: int| 0 <= k < l < run2.frames@.len() implies rank(
        (#[trigger] run2.frames@[l]).handle,
    ) < rank((#[trigger] run2.frames@[k]).handle) by {
        assert(run2.frames@[k] == run.frames@[k]);
        if l == n {
            assert(run.frames@[n - 1] == run.frames@.last());
            if k < n - 1 {
                assert(rank(run.frames@[n - 1].handle) < rank(run.frames@[k].handle));
            }
        } else {
            assert(run2.frames@[l] == run.frames@[l]);
        }
    }
    assert forall|k: int| 0 <= k < run2.frames@.len() implies deps_of(
        st2.chain@,
        (#[trigger] run2.frames@[k]).handle,
    ).len() == 0 by {
        let h = run2.frames@[k].handle;
        lemma_deps_of_insert(st.chain@, entry, h);
        if k < n {
            assert(waits(run.frames@, run.frames@[k].handle));
            assert(settled(run, before, run.frames@[k].handle));
        }
    }
}

proof fn lemma_finish_keeps_sorted(
    st: RtldState,
    run: DlopenRun,
    st2: RtldState,
    run2: DlopenRun,
    before: Set<u64>,
    rank: spec_fn(u64) -> int,
)
    requires
        run_ok(st, run, before),
        run_sorted(st, run, before, rank),
        deps_ranked(run, rank),
        run.frames@.len() > 0,
        index_of(st.chain@, run.frames@.last().handle, 0) is Some,
        ({
            let top = run.frames@.last();
            let at = index_of(st.chain@, top.handle, 0)->0;
            &&& st2.chain@ == st.chain@.update(at, st2.chain@[at])
            &&& has_deps(st.chain@[at], st.arena, top.deps@, st2.chain@[at])
        }),
        run2.order.items@ == run.order.items@.push(run.frames@.last().handle),
        if run.frames@.len() == 1 {
            run2.frames@.len() == 0
        } else {
            is_settled_by(run.frames@.drop_last(), run.frames@.last().handle, run2.frames@)
        },
    ensures
        run_sorted(st2, run2, before, rank),
{
    let n = run.frames@.len() - 1;
    let top = run.frames@[n];
    let h0 = top.handle;
    let order = run.order.items@;
    let order2 = run2.order.items@;
    lemma_index_of(st.chain@, h0, 0);
    let at = index_of(st.chain@, h0, 0)->0;
    let entry = st2.chain@[at];
    assert(entry.addr == st.chain@[at].addr);
    assert forall|h: u64| h != h0 implies #[trigger] deps_of(st2.chain@, h) == deps_of(
        st.chain@,
        h,
    ) by {
        lemma_index_of_update(st.chain@, at, entry, h, 0);
        lemma_index_of(st.chain@, h, 0);
    }
    lemma_index_of_update(st.chain@, at, entry, h0, 0);
    assert(deps_of(st.chain@, h0).len() == 0);
    assert(deps_of(st2.chain@, h0) == entry.deps@);
    assert(waits(run.frames@, h0));
    assert forall|k: int| 0 <= k < n implies (#[trigger] run2.frames@[k]).handle
        == run.frames@[k].handle by {
        if k < n - 1 {
            assert(run2.frames@.drop_last()[k] == run.frames@.drop_last().drop_last()[k]);
        }
    }
    assert forall|i: int, d: u64|
        0 <= i < order2.len() && #[trigger] deps_of(st2.chain@, order2[i]).contains(
            d,
        ) implies before.contains(d) || order2.take(i).contains(d) by {
        if i < order.len() {
            assert(order2[i] == order[i]);
            assert(order.contains(order[i]));
            assert(order[i] != h0);
            assert(deps_of(st.chain@, order[i]).contains(d));
            assert(order2.take(i) =~= order.take(i));
        } else {
            assert(order2[i] == h0);
            assert(top.deps@.contains(d));
            assert(run.frames@[n].deps@.contains(d));
            assert(settled(run, before, d));
            assert(rank(d) < rank(h0));
            if waits(run.frames@, d) {
                let k = choose|k: int|
                    0 <= k < run.frames@.len() && (#[trigger] run.frames@[k]).handle == d;
                if k < n {
                    assert(rank(run.frames@[n].handle) < rank(run.frames@[k].handle));
                }
            }
            assert(order2.take(i) =~= order);
        }
    }
    assert forall|k: int, l: int| 0 <= k < l < run2.frames@.len() implies rank(
        (#[trigger] run2.frames@[l]).handle,
    ) < rank((#[trigger] run2.frames@[k]).handle) by {
        assert(rank(run.frames@[l].handle) < rank(run.frames@[k].handle));
    }
    assert forall|k: int| 0 <= k < run2.frames@.len() implies deps_of(
        st2.chain@,
        (#[trigger] run2.frames@[k]).handle,
    ).len() == 0 by {
        assert(run.frames@[k].handle != run.frames@[n].handle);
        assert(deps_of(st.chain@, run.frames@[k].handle).len() == 0);
    }
}

proof fn lemma_settle_keeps_sorted(
    st: RtldState,
    run: DlopenRun,
    run2: DlopenRun,
    before: Set<u64>,
    rank: spec_fn(u64) -> int,
    dep: u64,
)
    requires
        run_sorted(st, run, before, rank),
        run.frames@.len() > 0,
        is_settled_by(run.frames@, dep, run2.frames@),
        run2.order == run.order,
    ensures
        run_sorted(st, run2, before, rank),
{
    let n = run.frames@.len() - 1;
    assert forall|k: int| 0 <= k <= n implies (#[trigger] run2.frames@[k]).handle
        == run.frames@[k].handle by {
        if k < n {
            assert(run2.frames@.drop_last()[k] == run.frames@.drop_last()[k]);
        }
    }
    assert forall|k: int, l: int| 0 <= k < l < run2.frames@.len() implies rank(
        (#[trigger] run2.frames@[l]).handle,
    ) < rank((#[trigger] run2.frames@[k]).handle) by {
        assert(rank(run.frames@[l].handle) < rank(run.frames@[k].handle));
    }
    assert forall|k: int| 0 <= k < run2.frames@.len() implies deps_of(
        st.chain@,
        (#[trigger] run2.frames@[k]).handle,
    ).len() == 0 by {
        assert(deps_of(st.chain@, run.frames@[k].handle).len() == 0);
    }
}

/// An open begins sorted.
pub proof fn lemma_run_begins_sorted(
    st: RtldState,
    run: DlopenRun,
    before: Set<u64>,
    rank: spec_fn(u64) -> int,
)
    requires
        run.frames@.len() == 0,
        run.order.items@.len() == 0,
    ensures
        run_sorted(st, run, before, rank),
{
}

/// Where nothing depends on itself, not even through others, the order of an
/// open is a topological one: whatever a new object depends on was there before
/// or comes earlier.
pub proof fn lemma_order_is_topological(
    st: RtldState,
    run: DlopenRun,
    before: Set<u64>,
    rank: spec_fn(u64) -> int,
    i: int,
    dep: u64,
)
    requires
        run_sorted(st, run, before, rank),
        0 <= i < run.order.items@.len(),
        deps_of(st.chain@, run.order.items@[i]).contains(dep),
    ensures
        before.contains(dep) || run.order.items@.take(i).contains(dep),
{
}

// ---------------------------------------------------------------------------
// Linking and undoing
// ---------------------------------------------------------------------------

/// Whether linking the object with a handle leads from one state to another, with
/// the writes to make and the result: first its TLS descriptors, then its
/// relocations, then the GOT.
pub open spec fn is_linked(
    before: RtldState,
    handle: u64,
    arch: Arch,
    res: TlsdescResolvers,
    resolver: u64,
    after: RtldState,
    writes: Seq<RelocWrite>,
    result: Result<(), DlError>,
) -> bool {
    let at = index_of(before.chain@, handle, 0)->0;
    let lm = before.chain@[at];
    let (descs, arena, bound) = desc_outcome(before, lm, arch, res);
    let mid = RtldState { arena, ..before };
    let (relocs, error) = object_effects(
        arch,
        lm,
        runtime_symbols(mid, lm, arch, lm.tables.rela@),
        runtime_symbols(mid, lm, arch, lm.tables.jmprel@),
    );
    if !bound {
        writes == descs && result == Err::<(), DlError>(DlError::TlsdescBind) && after == mid
    } else {
        &&& after == (RtldState { chain: after.chain, ..mid })
        &&& if error is Some {
            &&& writes == descs + relocs
            &&& result == Err::<(), DlError>(DlError::Relocation)
            &&& after.chain@ == before.chain@
        } else {
            &&& writes == descs + relocs + got_writes(lm, resolver)
            &&& result is Ok
            &&& after.chain@ == before.chain@.update(
                at,
                (LinkMap { flags: lm.flags | RELOCATED, ..lm }),
            )
        }
    }
}

/// Relocates a new object: first its TLS descriptors, then its relocations, then
/// the GOT. Objects are linked in the load order, so that each one sees the
/// symbols of its dependencies. The writes are to be made in any case.
pub fn link_object(
    st: &mut RtldState,
    handle: u64,
    arch: Arch,
    res: TlsdescResolvers,
    resolver: u64,
) -> (r: (Vec<RelocWrite>, Result<(), DlError>))
    requires
        old(st).arena.wf(),
        old(st).arena.size <= u64::MAX - 7,
        index_of(old(st).chain@, handle, 0) is Some,
    ensures
        is_linked(*old(st), handle, arch, res, resolver, *final(st), r.0@, r.1),
        final(st).arena.size == old(st).arena.size,
        final(st).arena.wf(),
{
    let at: usize = match find_by_address(&st.chain, handle) {
        Some(i) => i,
        None => {
            return (Vec::new(), Ok(()));
        },
    };
    let (mut writes, bound): (Vec<RelocWrite>, bool) = bind_tlsdesc(st, at, arch, res);
    if !bound {
        return (writes, Err(DlError::TlsdescBind));
    }
    let (mut relocs, done): (Vec<RelocWrite>, Result<(), RelocError>) = relocate_runtime_object(
        st,
        at,
        arch,
    );
    writes.append(&mut relocs);
    match done {
        Ok(_) => {},
        Err(_) => {
            return (writes, Err(DlError::Relocation));
        },
    }
    let mut got: Vec<RelocWrite> = install_got_entries(&st.chain[at], resolver);
    writes.append(&mut got);
    (writes, Ok(()))
}

/// The chain without the object with a handle.
pub open spec fn without(chain: Seq<LinkMap>, handle: u64) -> Seq<LinkMap> {
    match index_of(chain, handle, 0) {
        Some(i) => chain.remove(i),
        None => chain,
    }
}

/// Takes an object out of the chain, and says how to unmap it.
pub fn unlink_and_unmap(st: &mut RtldState, handle: u64) -> (r: UnmapAction)
    ensures
        *final(st) == (RtldState { chain: final(st).chain, ..*old(st) }),
        final(st).chain@ == without(old(st).chain@, handle),
        r == match index_of(old(st).chain@, handle, 0) {
            Some(i) => unmap_action(old(st).chain@[i]),
            None => UnmapAction::Keep,
        },
{
    match find_by_address(&st.chain, handle) {
        Some(i) => {
            let mut lm: LinkMap = st.chain.remove(i);
            unmap_runtime_object(&mut lm)
        },
        None => UnmapAction::Keep,
    }
}

/// The chain after the last `k` objects of an order were undone, and how to
/// unmap them. Startup objects stay.
pub open spec fn undone(chain: Seq<LinkMap>, order: Seq<u64>, k: int) -> (
    Seq<LinkMap>,
    Seq<UnmapAction>,
)
    decreases k,
{
    if k <= 0 {
        (chain, Seq::empty())
    } else {
        let (rest, actions) = undone(chain, order, k - 1);
        let h = order[order.len() - k];
        match index_of(rest, h, 0) {
            Some(i) => if rest[i].flagged(STARTUP) {
                (rest, actions)
            } else {
                (rest.remove(i), actions.push(unmap_action(rest[i])))
            },
            None => (rest, actions),
        }
    }
}

/// Unlinks and unmaps every object in an order, dependents before their
/// dependencies.
pub fn rollback(st: &mut RtldState, order: &LoadOrder) -> (r: Vec<UnmapAction>)
    ensures
        *final(st) == (RtldState { chain: final(st).chain, ..*old(st) }),
        (final(st).chain@, r@) == undone(
            old(st).chain@,
            order.items@,
            order.items@.len() as int,
        ),
{
    let mut out: Vec<UnmapAction> = Vec::new();
    assert(out@ =~= Seq::empty());
    let n: usize = order.items.len();
    let mut k: usize = 0;
    while k < n
        invariant
            n == order.items@.len(),
            k <= n,
            *st == (RtldState { chain: st.chain, ..*old(st) }),
            (st.chain@, out@) == undone(old(st).chain@, order.items@, k as int),
        decreases n - k,
    {
        k = k + 1;
        let h: u64 = order.items[n - k];
        match find_by_address(&st.chain, h) {
            Some(i) => {
                if !st.chain[i].has_flag(STARTUP) {
                    out.push(unlink_and_unmap(st, h));
                }
            },
            None => {},
        }
    }
    out
}

/// The objects that an open loaded: those in its order, then those that wait for
/// their dependencies.
pub open spec fn new_objects(run: DlopenRun) -> Seq<u64> {
    run.order.items@ + run.frames@.map_values(|f: Frame| f.handle)
}

/// Undoes an open that failed: everything that it loaded is unlinked and unmapped,
/// first the objects that wait for their dependencies, the last one first, then
/// those in the order.
pub fn dlopen_abort(st: &mut RtldState, run: &DlopenRun) -> (r: Vec<UnmapAction>)
    ensures
        *final(st) == (RtldState { chain: final(st).chain, ..*old(st) }),
        (final(st).chain@, r@) == undone(
            old(st).chain@,
            new_objects(*run),
            new_objects(*run).len() as int,
        ),
        forall|before: Seq<LinkMap>| #[trigger]
            opened_on(old(st).chain@, *run, before) ==> final(st).chain@ == before,
{
    let mut items: Vec<u64> = copy_handles(&run.order.items);
    let mut i: usize = 0;
    let ghost waiting = run.frames@.map_values(|f: Frame| f.handle);
    assert(items@ =~= run.order.items@ + waiting.take(0));
    while i < run.frames.len()
        invariant
            waiting == run.frames@.map_values(|f: Frame| f.handle),
            i <= run.frames@.len(),
            items@ == run.order.items@ + waiting.take(i as int),
        decreases run.frames@.len() - i,
    {
        items.push(run.frames[i].handle);
        i = i + 1;
        assert(items@ =~= run.order.items@ + waiting.take(i as int));
    }
    assert(items@ =~= new_objects(*run));
    let all = LoadOrder { items };
    let r: Vec<UnmapAction> = rollback(st, &all);
    proof {
        assert forall|before: Seq<LinkMap>| #[trigger]
            opened_on(old(st).chain@, *run, before) implies st.chain@ == before by {
            lemma_failed_open_is_undone(old(st).chain@, *run, before);
        }
    }
    r
}

proof fn lemma_index_of(chain: Seq<LinkMap>, h: u64, i: int)
    requires
        0 <= i,
    ensures
        match index_of(chain, h, i) {
            Some(j) => i <= j < chain.len() && chain[j].addr == h,
            None => forall|j: int| i <= j < chain.len() ==> (#[trigger] chain[j]).addr != h,
        },
    decreases chain.len() - i,
{
    if i < chain.len() && chain[i].addr != h {
        lemma_index_of(chain, h, i + 1);
        if index_of(chain, h, i + 1) is None {
            assert forall|j: int| i <= j < chain.len() implies (#[trigger] chain[j]).addr != h by {
                if j > i {
                    assert(i + 1 <= j);
                }
            }
        }
    }
}

/// Whether the entries of a chain have different handles and none is a startup
/// object.
pub open spec fn is_runtime_chain(chain: Seq<LinkMap>) -> bool {
    &&& forall|i: int, j: int|
        0 <= i < j < chain.len() ==> (#[trigger] chain[i]).addr != (#[trigger] chain[j]).addr
    &&& forall|i: int| 0 <= i < chain.len() ==> !(#[trigger] chain[i]).flagged(STARTUP)
}

proof fn lemma_remove(chain: Seq<LinkMap>, at: int)
    requires
        is_runtime_chain(chain),
        0 <= at < chain.len(),
    ensures
        is_runtime_chain(chain.remove(at)),
        forall|lm: LinkMap| #[trigger]
            chain.remove(at).contains(lm) <==> chain.contains(lm) && lm.addr != chain[at].addr,
{
    let rest = chain.remove(at);
    assert forall|lm: LinkMap| #[trigger] rest.contains(lm) <==> chain.contains(lm) && lm.addr
        != chain[at].addr by {
        if rest.contains(lm) {
            let i = choose|i: int| 0 <= i < rest.len() && rest[i] == lm;
            if i < at {
                assert(chain[i] == lm);
            } else {
                assert(chain[i + 1] == lm);
            }
        }
        if chain.contains(lm) && lm.addr != chain[at].addr {
            let i = choose|i: int| 0 <= i < chain.len() && chain[i] == lm;
            if i < at {
                assert(rest[i] == lm);
            } else {
                assert(rest[i - 1] == lm);
            }
        }
    }
    assert forall|i: int, j: int| 0 <= i < j < rest.len() implies (#[trigger] rest[i]).addr != (
    #[trigger] rest[j]).addr by {
        let i2 = if i < at {
            i
        } else {
            i + 1
        };
        let j2 = if j < at {
            j
        } else {
            j + 1
        };
        assert(rest[i] == chain[i2]);
        assert(rest[j] == chain[j2]);
    }
    assert forall|i: int| 0 <= i < rest.len() implies !(#[trigger] rest[i]).flagged(STARTUP) by {
        let i2 = if i < at {
            i
        } else {
            i + 1
        };
        assert(rest[i] == chain[i2]);
    }
}

/// Undoing takes away the entries whose handle is in the undone part of the
/// order, and nothing else.
pub proof fn lemma_rollback_is_exact(chain: Seq<LinkMap>, order: Seq<u64>, k: int, lm: LinkMap)
    requires
        is_runtime_chain(chain),
        0 <= k <= order.len(),
    ensures
        is_runtime_chain(undone(chain, order, k).0),
        undone(chain, order, k).0.contains(lm) <==> chain.contains(lm) && !order.skip(
            order.len() - k,
        ).contains(lm.addr),
    decreases k,
{
    if k > 0 {
        lemma_rollback_is_exact(chain, order, k - 1, lm);
        let (rest, _) = undone(chain, order, k - 1);
        let h = order[order.len() - k];
        let tail = order.skip(order.len() - k);
        let shorter = order.skip(order.len() - (k - 1));
        assert(tail =~= seq![h] + shorter);
        assert(tail.contains(lm.addr) <==> lm.addr == h || shorter.contains(lm.addr)) by {
            if shorter.contains(lm.addr) {
                let j = choose|j: int| 0 <= j < shorter.len() && shorter[j] == lm.addr;
                assert(tail[j + 1] == lm.addr);
            }
            assert(tail[0] == h);
        }
        lemma_index_of(rest, h, 0);
        match index_of(rest, h, 0) {
            Some(i) => {
                lemma_remove(rest, i);
            },
            None => {
                if rest.contains(lm) {
                    let j = choose|j: int| 0 <= j < rest.len() && rest[j] == lm;
                    assert(rest[j].addr != h);
                }
            },
        }
    } else {
        assert(order.skip(order.len() as int).len() == 0);
    }
}

// ---------------------------------------------------------------------------
// Linking everything that an open loaded
// ---------------------------------------------------------------------------

/// Lists of writes, one behind the other.
pub open spec fn joined(parts: Seq<Seq<RelocWrite>>) -> Seq<RelocWrite>
    decreases parts.len(),
{
    if parts.len() == 0 {
        Seq::empty()
    } else {
        joined(parts.drop_last()) + parts.last()
    }
}

/// Whether linking the object with a handle succeeds; a handle of no entry is
/// passed over.
pub open spec fn is_linked_ok(
    before: RtldState,
    handle: u64,
    arch: Arch,
    res: TlsdescResolvers,
    resolver: u64,
    after: RtldState,
    writes: Seq<RelocWrite>,
) -> bool {
    if index_of(before.chain@, handle, 0) is Some {
        is_linked(before, handle, arch, res, resolver, after, writes, Ok(()))
    } else {
        after == before && writes.len() == 0
    }
}

/// Whether the first `n` objects of an order were linked, with the states in
/// between and the writes of each.
pub open spec fn are_linked(
    order: Seq<u64>,
    n: int,
    arch: Arch,
    res: TlsdescResolvers,
    resolver: u64,
    states: Seq<RtldState>,
    parts: Seq<Seq<RelocWrite>>,
) -> bool {
    forall|i: int|
        0 <= i < n ==> is_linked_ok(
            #[trigger] states[i],
            order[i],
            arch,
            res,
            resolver,
            states[i + 1],
            parts[i],
        )
}

/// What linking an order comes to, with the states on the way and the writes of
/// each object: all are linked, or those before the first one that fails, and
/// then the whole open is undone.
pub open spec fn is_link_run(
    before: RtldState,
    run: DlopenRun,
    arch: Arch,
    res: TlsdescResolvers,
    resolver: u64,
    states: Seq<RtldState>,
    parts: Seq<Seq<RelocWrite>>,
    after: RtldState,
    result: Result<(), (DlError, Vec<UnmapAction>)>,
) -> bool {
    let order = run.order.items@;
    let n = parts.len() - 1;
    &&& states.len() == parts.len() + 1
    &&& states[0] == before
    &&& match result {
        Ok(_) => {
            &&& parts.len() == order.len()
            &&& are_linked(order, order.len() as int, arch, res, resolver, states, parts)
            &&& after == states.last()
        },
        Err((e, actions)) => {
            &&& 0 <= n < order.len()
            &&& are_linked(order, n, arch, res, resolver, states, parts)
            &&& index_of(states[n].chain@, order[n], 0) is Some
            &&& is_linked(
                states[n],
                order[n],
                arch,
                res,
                resolver,
                states[n + 1],
                parts[n],
                Err(e),
            )
            &&& after == (RtldState { chain: after.chain, ..states[n + 1] })
            &&& (after.chain@, actions@) == undone(
                states[n + 1].chain@,
                new_objects(run),
                new_objects(run).len() as int,
            )
        },
    }
}

/// Links everything that an open loaded, in load order. If an object cannot be
/// linked, the open is undone: the result says how to unmap its objects. The
/// writes are to be made before that.
pub fn dlopen_link(
    st: &mut RtldState,
    run: &DlopenRun,
    arch: Arch,
    res: TlsdescResolvers,
    resolver: u64,
) -> (r: (Vec<RelocWrite>, Result<(), (DlError, Vec<UnmapAction>)>))
    requires
        old(st).arena.wf(),
        old(st).arena.size <= u64::MAX - 7,
    ensures
        exists|states: Seq<RtldState>, parts: Seq<Seq<RelocWrite>>|
            r.0@ == joined(parts) && #[trigger] is_link_run(
                *old(st),
                *run,
                arch,
                res,
                resolver,
                states,
                parts,
                *final(st),
                r.1,
            ),
        final(st).arena.wf(),
        final(st).arena.size == old(st).arena.size,
        forall|chain: Seq<LinkMap>| #[trigger]
            opened_on(old(st).chain@, *run, chain) ==> match r.1 {
                Ok(_) => opened_on(final(st).chain@, *run, chain),
                Err(_) => final(st).chain@ == chain,
            },
{
    let mut writes: Vec<RelocWrite> = Vec::new();
    let ghost order = run.order.items@;
    let ghost mut states: Seq<RtldState> = seq![*st];
    let ghost mut parts: Seq<Seq<RelocWrite>> = Seq::empty();
    assert(writes@ =~= joined(parts));
    let mut i: usize = 0;
    while i < run.order.items.len()
        invariant
            order == run.order.items@,
            i <= order.len(),
            st.arena.wf(),
            st.arena.size == old(st).arena.size,
            st.arena.size <= u64::MAX - 7,
            states.len() == i + 1,
            parts.len() == i,
            states[0] == *old(st),
            states[i as int] == *st,
            writes@ == joined(parts),
            are_linked(order, i as int, arch, res, resolver, states, parts),
            forall|chain: Seq<LinkMap>| #[trigger]
                opened_on(old(st).chain@, *run, chain) ==> opened_on(st.chain@, *run, chain),
        decreases order.len() - i,
    {
        let handle: u64 = run.order.items[i];
        let ghost prev = *st;
        let ghost (states0, parts0) = (states, parts);
        if find_by_address(&st.chain, handle).is_some() {
            let (mut more, done): (Vec<RelocWrite>, Result<(), DlError>) = link_object(
                st,
                handle,
                arch,
                res,
                resolver,
            );
            let ghost part = more@;
            writes.append(&mut more);
            let ghost linked = *st;
            proof {
                states = states.push(linked);
                parts = parts.push(part);
                assert(parts.drop_last() =~= parts0);
                assert forall|k: int| 0 <= k < i implies is_linked_ok(
                    #[trigger] states[k],
                    order[k],
                    arch,
                    res,
                    resolver,
                    states[k + 1],
                    parts[k],
                ) by {
                    assert(states0[k] == states[k]);
                }
                assert(order.contains(handle));
                assert forall|chain: Seq<LinkMap>| #[trigger]
                    opened_on(old(st).chain@, *run, chain) implies opened_on(
                    linked.chain@,
                    *run,
                    chain,
                ) by {
                    lemma_link_keeps_opened(
                        prev,
                        handle,
                        arch,
                        res,
                        resolver,
                        linked,
                        part,
                        done,
                        *run,
                        chain,
                    );
                }
            }
            match done {
                Ok(u) => {
                    assert(u == ());
                },
                Err(e) => {
                    let actions: Vec<UnmapAction> = dlopen_abort(st, run);
                    let r: Result<(), (DlError, Vec<UnmapAction>)> = Err((e, actions));
                    proof {
                        assert(is_link_run(
                            *old(st),
                            *run,
                            arch,
                            res,
                            resolver,
                            states,
                            parts,
                            *st,
                            r,
                        ));
                    }
                    return (writes, r);
                },
            }
        } else {
            proof {
                states = states.push(*st);
                parts = parts.push(Seq::empty());
                assert(parts.drop_last() =~= parts0);
                assert(writes@ =~= joined(parts));
                assert forall|k: int| 0 <= k < i implies is_linked_ok(
                    #[trigger] states[k],
                    order[k],
                    arch,
                    res,
                    resolver,
                    states[k + 1],
                    parts[k],
                ) by {
                    assert(states0[k] == states[k]);
                }
            }
        }
        i = i + 1;
    }
    proof {
        let r: Result<(), (DlError, Vec<UnmapAction>)> = Ok(());
        assert(is_link_run(*old(st), *run, arch, res, resolver, states, parts, *st, r));
    }
    (writes, Ok(()))
}

// ---------------------------------------------------------------------------
// What a failed open leaves
// ---------------------------------------------------------------------------

/// Whether an object is one that an open loaded.
pub open spec fn is_new(run: DlopenRun, h: u64) -> bool {
    run.order.items@.contains(h) || waits(run.frames@, h)
}

/// Whether an open that began on the chain `before` has only put entries in front
/// of it: one for each object that it loaded, none of them a startup object.
pub open spec fn opened_on(chain: Seq<LinkMap>, run: DlopenRun, before: Seq<LinkMap>) -> bool {
    let n = chain.len() - before.len();
    &&& 0 <= n
    &&& chain.skip(n) == before
    &&& forall|i: int|
        0 <= i < n ==> is_new(run, (#[trigger] chain[i]).addr) && !chain[i].flagged(STARTUP)
    &&& forall|i: int, j: int|
        0 <= i < j < n ==> (#[trigger] chain[i]).addr != (#[trigger] chain[j]).addr
    &&& forall|i: int| 0 <= i < before.len() ==> !is_new(run, (#[trigger] before[i]).addr)
}

/// An open begins on the chain that there is.
pub proof fn lemma_open_begins_on(chain: Seq<LinkMap>, run: DlopenRun)
    requires
        run.frames@.len() == 0,
        run.order.items@.len() == 0,
    ensures
        opened_on(chain, run, chain),
{
    assert(chain.skip(0) =~= chain);
}

/// An entry of a new object can change, but for its handle.
proof fn lemma_update_keeps_opened(
    chain: Seq<LinkMap>,
    run: DlopenRun,
    before: Seq<LinkMap>,
    at: int,
    entry: LinkMap,
)
    requires
        opened_on(chain, run, before),
        0 <= at < chain.len(),
        is_new(run, chain[at].addr),
        entry.addr == chain[at].addr,
        !chain[at].flagged(STARTUP) ==> !entry.flagged(STARTUP),
    ensures
        opened_on(chain.update(at, entry), run, before),
{
    let n = chain.len() - before.len();
    let after = chain.update(at, entry);
    if at >= n {
        assert(chain.skip(n)[at - n] == chain[at]);
        assert(before[at - n].addr == chain[at].addr);
    }
    assert forall|i: int| n <= i < chain.len() implies after[i] == #[trigger] chain[i] by {}
    assert(after.skip(n) =~= before) by {
        assert forall|i: int| 0 <= i < before.len() implies after.skip(n)[i]
            == #[trigger] before[i] by {
            assert(chain.skip(n)[i] == chain[n + i]);
        }
    }
    assert forall|i: int| 0 <= i < n implies is_new(run, (#[trigger] after[i]).addr)
        && !after[i].flagged(STARTUP) by {
        assert(is_new(run, chain[i].addr) && !chain[i].flagged(STARTUP));
    }
    assert forall|i: int, j: int| 0 <= i < j < n implies (#[trigger] after[i]).addr != (
    #[trigger] after[j]).addr by {
        assert(chain[i].addr != chain[j].addr);
    }
}

/// Loading does not make an object a startup object.
proof fn lemma_fresh_flags(f: u32, flags: i32)
    requires
        f & 1 == 0,
    ensures
        handle_flags(f | RUNTIME_LOADED, flags) & 1 == 0,
        ((f | RUNTIME_LOADED) | RTLD_GLOBAL) & 1 == 0,
{
    assert({
        &&& ((f | 16u32) | 2u32) & 1 == f & 1
        &&& (((f | 16u32) | 2u32) & !4u32) & 1 == f & 1
        &&& ((((f | 16u32) | 2u32) & !4u32) | 8u32) & 1 == f & 1
        &&& ((f | 16u32) | 4u32) & 1 == f & 1
        &&& (((f | 16u32) | 4u32) | 8u32) & 1 == f & 1
    }) by (bit_vector);
}

proof fn lemma_load_keeps_opened(
    st: RtldState,
    run: DlopenRun,
    run2: DlopenRun,
    before: Set<u64>,
    chain: Seq<LinkMap>,
    entry: LinkMap,
)
    requires
        run_ok(st, run, before),
        opened_on(st.chain@, run, chain),
        is_free(st.arena, entry.addr),
        !entry.flagged(STARTUP),
        run2.order == run.order,
        run2.frames@.len() == run.frames@.len() + 1,
        run2.frames@.drop_last() == run.frames@,
        run2.frames@.last().handle == entry.addr,
    ensures
        opened_on(st.chain@.insert(0, entry), run2, chain),
{
    let n = st.chain@.len() - chain.len();
    let m = run.frames@.len() as int;
    let after = st.chain@.insert(0, entry);
    assert(!settled(run, before, entry.addr));
    assert(run2.frames@[m] == run2.frames@.last());
    assert forall|h: u64| waits(run2.frames@, h) == (waits(run.frames@, h) || h
        == entry.addr) by {
        if waits(run.frames@, h) {
            let k = choose|k: int| 0 <= k < m && (#[trigger] run.frames@[k]).handle == h;
            assert(run2.frames@.drop_last()[k] == run.frames@[k]);
            assert(run2.frames@[k].handle == h);
        }
        if h == entry.addr {
            assert(run2.frames@[m].handle == h);
        }
        if waits(run2.frames@, h) {
            let k = choose|k: int| 0 <= k < m + 1 && (#[trigger] run2.frames@[k]).handle == h;
            if k < m {
                assert(run2.frames@.drop_last()[k] == run.frames@[k]);
                assert(run.frames@[k].handle == h);
            }
        }
    }
    assert forall|i: int| 0 <= i < n + 1 implies is_new(run2, (#[trigger] after[i]).addr)
        && !after[i].flagged(STARTUP) by {
        if i > 0 {
            assert(after[i] == st.chain@[i - 1]);
        }
    }
    assert forall|i: int, j: int| 0 <= i < j < n + 1 implies (#[trigger] after[i]).addr != (
    #[trigger] after[j]).addr by {
        assert(after[j] == st.chain@[j - 1]);
        assert(settled(run, before, st.chain@[j - 1].addr));
        if i > 0 {
            assert(after[i] == st.chain@[i - 1]);
        }
    }
    assert(after.skip(n + 1) =~= st.chain@.skip(n));
    assert forall|i: int| 0 <= i < chain.len() implies !is_new(
        run2,
        (#[trigger] chain[i]).addr,
    ) by {
        assert(st.chain@.skip(n)[i] == st.chain@[n + i]);
        assert(settled(run, before, st.chain@[n + i].addr));
    }
}

proof fn lemma_same_new_keeps_opened(
    chain: Seq<LinkMap>,
    run: DlopenRun,
    run2: DlopenRun,
    before: Seq<LinkMap>,
)
    requires
        opened_on(chain, run, before),
        forall|h: u64| #[trigger] is_new(run2, h) <==> is_new(run, h),
    ensures
        opened_on(chain, run2, before),
{
    let n = chain.len() - before.len();
    assert forall|i: int| 0 <= i < n implies is_new(run2, (#[trigger] chain[i]).addr)
        && !chain[i].flagged(STARTUP) by {
        assert(is_new(run, chain[i].addr));
    }
    assert forall|i: int| 0 <= i < before.len() implies !is_new(
        run2,
        (#[trigger] before[i]).addr,
    ) by {
        assert(!is_new(run, before[i].addr));
    }
}

proof fn lemma_settle_keeps_opened(
    chain: Seq<LinkMap>,
    run: DlopenRun,
    run2: DlopenRun,
    before: Seq<LinkMap>,
    dep: u64,
)
    requires
        opened_on(chain, run, before),
        run.frames@.len() > 0,
        is_settled_by(run.frames@, dep, run2.frames@),
        run2.order == run.order,
    ensures
        opened_on(chain, run2, before),
{
    lemma_settle_keeps_waiting(run.frames@, dep, run2.frames@);
    lemma_same_new_keeps_opened(chain, run, run2, before);
}

proof fn lemma_settle_keeps_waiting(before: Seq<Frame>, dep: u64, after: Seq<Frame>)
    requires
        before.len() > 0,
        is_settled_by(before, dep, after),
    ensures
        forall|h: u64| #[trigger] waits(after, h) <==> waits(before, h),
{
    let n = before.len() - 1;
    assert forall|k: int| 0 <= k <= n implies (#[trigger] after[k]).handle == before[k].handle by {
        if k < n {
            assert(after.drop_last()[k] == before.drop_last()[k]);
        }
    }
    assert forall|h: u64| #[trigger] waits(after, h) <==> waits(before, h) by {
        if waits(after, h) {
            let k = choose|k: int| 0 <= k <= n && (#[trigger] after[k]).handle == h;
            assert(before[k].handle == h);
        }
        if waits(before, h) {
            let k = choose|k: int| 0 <= k <= n && (#[trigger] before[k]).handle == h;
            assert(after[k].handle == h);
        }
    }
}

proof fn lemma_finish_keeps_opened(
    chain: Seq<LinkMap>,
    run: DlopenRun,
    run2: DlopenRun,
    before: Seq<LinkMap>,
)
    requires
        opened_on(chain, run, before),
        run.frames@.len() > 0,
        run2.order.items@ == run.order.items@.push(run.frames@.last().handle),
        if run.frames@.len() == 1 {
            run2.frames@.len() == 0
        } else {
            is_settled_by(run.frames@.drop_last(), run.frames@.last().handle, run2.frames@)
        },
    ensures
        opened_on(chain, run2, before),
{
    let n = run.frames@.len() - 1;
    let h0 = run.frames@[n].handle;
    let (order, order2) = (run.order.items@, run2.order.items@);
    let rest = run.frames@.drop_last();
    if n > 0 {
        lemma_settle_keeps_waiting(rest, h0, run2.frames@);
    }
    assert forall|h: u64| #[trigger] is_new(run2, h) <==> is_new(run, h) by {
        assert(order2.contains(h) <==> order.contains(h) || h == h0) by {
            assert(order2[order.len() as int] == h0);
            if order.contains(h) {
                let k = choose|k: int| 0 <= k < order.len() && order[k] == h;
                assert(order2[k] == h);
            }
        }
        assert(waits(run2.frames@, h) <==> waits(rest, h));
        if waits(run.frames@, h) {
            let k = choose|k: int| 0 <= k <= n && (#[trigger] run.frames@[k]).handle == h;
            if k < n {
                assert(rest[k].handle == h);
            }
        }
        if waits(rest, h) {
            let k = choose|k: int| 0 <= k < n && (#[trigger] rest[k]).handle == h;
            assert(run.frames@[k].handle == h);
        }
    }
    lemma_same_new_keeps_opened(chain, run, run2, before);
}

proof fn lemma_link_keeps_opened(
    before: RtldState,
    handle: u64,
    arch: Arch,
    res: TlsdescResolvers,
    resolver: u64,
    after: RtldState,
    writes: Seq<RelocWrite>,
    result: Result<(), DlError>,
    run: DlopenRun,
    chain: Seq<LinkMap>,
)
    requires
        is_linked(before, handle, arch, res, resolver, after, writes, result),
        index_of(before.chain@, handle, 0) is Some,
        run.order.items@.contains(handle),
        opened_on(before.chain@, run, chain),
    ensures
        opened_on(after.chain@, run, chain),
{
    lemma_index_of(before.chain@, handle, 0);
    let at = index_of(before.chain@, handle, 0)->0;
    let lm = before.chain@[at];
    let f = lm.flags;
    assert((f | 32u32) & 1 == f & 1) by (bit_vector);
    lemma_update_keeps_opened(
        before.chain@,
        run,
        chain,
        at,
        LinkMap { flags: lm.flags | RELOCATED, ..lm },
    );
}

proof fn lemma_undone_keeps_opened(
    chain: Seq<LinkMap>,
    run: DlopenRun,
    before: Seq<LinkMap>,
    order: Seq<u64>,
    k: int,
)
    requires
        opened_on(chain, run, before),
        forall|j: int| 0 <= j < order.len() ==> is_new(run, #[trigger] order[j]),
        0 <= k <= order.len(),
    ensures
        ({
            let rest = undone(chain, order, k).0;
            &&& opened_on(rest, run, before)
            &&& forall|i: int, j: int|
                0 <= i < rest.len() - before.len() && order.len() - k <= j < order.len()
                    ==> (#[trigger] rest[i]).addr != #[trigger] order[j]
        }),
    decreases k,
{
    if k > 0 {
        lemma_undone_keeps_opened(chain, run, before, order, k - 1);
        let rest = undone(chain, order, k - 1).0;
        let n = rest.len() - before.len();
        let h = order[order.len() - k];
        assert(is_new(run, h));
        lemma_index_of(rest, h, 0);
        match index_of(rest, h, 0) {
            Some(at) => {
                if at >= n {
                    assert(rest.skip(n)[at - n] == rest[at]);
                    assert(is_new(run, before[at - n].addr));
                }
                let less = rest.remove(at);
                assert forall|i: int| 0 <= i < n - 1 implies {
                    let lm = #[trigger] less[i];
                    is_new(run, lm.addr) && !lm.flagged(STARTUP) && lm.addr != h
                } by {
                    if i < at {
                        assert(less[i] == rest[i]);
                        assert(rest[i].addr != rest[at].addr);
                    } else {
                        assert(less[i] == rest[i + 1]);
                        assert(rest[at].addr != rest[i + 1].addr);
                    }
                }
                assert forall|i: int, j: int| 0 <= i < j < n - 1 implies (#[trigger] less[i]).addr
                    != (#[trigger] less[j]).addr by {
                    let i2 = if i < at {
                        i
                    } else {
                        i + 1
                    };
                    let j2 = if j < at {
                        j
                    } else {
                        j + 1
                    };
                    assert(less[i] == rest[i2] && less[j] == rest[j2]);
                }
                assert(less.skip(n - 1) =~= rest.skip(n));
                assert forall|i: int, j: int|
                    0 <= i < n - 1 && order.len() - k <= j < order.len() implies (
                #[trigger] less[i]).addr != #[trigger] order[j] by {
                    let i2 = if i < at {
                        i
                    } else {
                        i + 1
                    };
                    assert(less[i] == rest[i2]);
                }
            },
            None => {},
        }
    }
}

/// A failed open is undone whole: once all that it loaded is undone, the chain is
/// the one that the open began on.
pub proof fn lemma_failed_open_is_undone(
    chain: Seq<LinkMap>,
    run: DlopenRun,
    before: Seq<LinkMap>,
)
    requires
        opened_on(chain, run, before),
    ensures
        undone(chain, new_objects(run), new_objects(run).len() as int).0 == before,
{
    let order = run.order.items@;
    let waiting = run.frames@.map_values(|f: Frame| f.handle);
    let all = new_objects(run);
    assert forall|j: int| 0 <= j < all.len() implies is_new(run, #[trigger] all[j]) by {
        if j < order.len() {
            assert(order[j] == all[j]);
        } else {
            assert(run.frames@[j - order.len()].handle == all[j]);
        }
    }
    lemma_undone_keeps_opened(chain, run, before, all, all.len() as int);
    let rest = undone(chain, all, all.len() as int).0;
    if rest.len() > before.len() {
        let h = rest[0].addr;
        assert(is_new(run, h));
        if order.contains(h) {
            let j = choose|j: int| 0 <= j < order.len() && order[j] == h;
            assert(all[j] == h);
        } else {
            let k = choose|k: int|
                0 <= k < run.frames@.len() && (#[trigger] run.frames@[k]).handle == h;
            assert(waiting[k] == h);
            assert(all[order.len() + k] == h);
        }
    }
    assert(rest.skip(0) =~= rest);
}

// ---------------------------------------------------------------------------
// Lookup
// ---------------------------------------------------------------------------

/// The definition of a name that a handle leads to. A handle of no entry leads
/// nowhere.
pub open spec fn handle_symbol(st: RtldState, handle: u64, name: Seq<u8>, caller_pc: u64) -> Option<
    u64,
> {
    if handle == u64::MAX {
        next_symbol(st, caller_pc, name)
    } else if handle == 0 || handle == 1 {
        default_symbol(st, name)
    } else {
        match entry_at(st, handle) {
            Some(lm) => or_else(
                object_symbol(lm, name, None),
                deps_symbol(st, lm, name, None),
            ),
            None => None,
        }
    }
}

/// Looks up a symbol by handle and name. A definition at address zero counts as
/// undefined.
pub fn dlsym_from(st: &RtldState, handle: u64, symbol: Option<&[u8]>, caller_pc: u64) -> (r: Result<
    u64,
    DlError,
>)
    requires
        scope_len(*st) < usize::MAX,
    ensures
        r == match symbol {
            None => Err::<u64, DlError>(DlError::NullSymbol),
            Some(name) => match handle_symbol(*st, handle, name@, caller_pc) {
                None => Err::<u64, DlError>(DlError::SymbolNotFound),
                Some(addr) => if addr == 0 {
                    Err::<u64, DlError>(DlError::UndefinedSymbol)
                } else {
                    Ok::<u64, DlError>(addr)
                },
            },
        },
{
    let name: &[u8] = match symbol {
        Some(n) => n,
        None => {
            return Err(DlError::NullSymbol);
        },
    };
    let resolved: Option<u64> = if handle == RTLD_NEXT_HANDLE {
        resolve_next_after(st, caller_pc, name)
    } else if handle == 0 || handle == DEFAULT_HANDLE_MARKER {
        resolve_default(st, name)
    } else {
        match find_entry(st, handle) {
            Some(lm) => resolve_in_handle(st, lm, name),
            None => None,
        }
    };
    match resolved {
        None => Err(DlError::SymbolNotFound),
        Some(addr) => {
            if addr == 0 {
                Err(DlError::UndefinedSymbol)
            } else {
                Ok(addr)
            }
        },
    }
}

/// Whether symbol `i` of an object is defined and starts at or before an address.
pub open spec fn starts_before(lm: LinkMap, i: int, pc: u64) -> bool {
    let sym = lm.tables.symtab@[i];
    &&& 0 <= i < lm.tables.symtab@.len()
    &&& i < symbols_counted(lm)
    &&& sym.st_shndx != 0
    &&& sym.st_value != 0
    &&& lm.base.wrapping_add(sym.st_value) <= pc
}

/// The address of symbol `i`.
pub open spec fn sym_addr(lm: LinkMap, i: int) -> u64 {
    lm.base.wrapping_add(lm.tables.symtab@[i].st_value)
}

/// Whether symbol `i` is the nearest one at or before an address; of several at
/// the same address the first.
pub open spec fn is_nearest(lm: LinkMap, i: int, pc: u64) -> bool {
    &&& starts_before(lm, i, pc)
    &&& forall|j: int| #[trigger]
        starts_before(lm, j, pc) ==> sym_addr(lm, j) < sym_addr(lm, i) || (sym_addr(lm, j)
            == sym_addr(lm, i) && i <= j)
}

/// The nearest symbol at or before an address, as the address of its name and
/// its own.
pub fn nearest_symbol(lm: &LinkMap, pc: u64) -> (r: Option<(u64, u64)>)
    ensures
        match r {
            Some((name, addr)) => lm.symtab != 0 && lm.strtab != 0 && exists|i: int| #[trigger]
                is_nearest(*lm, i, pc) && name == lm.strtab.wrapping_add(
                    lm.tables.symtab@[i].st_name as u64,
                ) && addr == sym_addr(*lm, i),
            None => lm.symtab == 0 || lm.strtab == 0 || forall|i: int|
                !#[trigger] starts_before(*lm, i, pc),
        },
{
    if lm.symtab == 0 || lm.strtab == 0 {
        return None;
    }
    let count: u128 = sym_count(lm);
    let mut best: Option<usize> = None;
    let mut i: usize = 0;
    while i < lm.tables.symtab.len() && (i as u128) < count
        invariant
            count == symbols_counted(*lm),
            i <= lm.tables.symtab@.len(),
            match best {
                Some(b) => b < i && starts_before(*lm, b as int, pc) && forall|j: int|
                    j < i && #[trigger] starts_before(*lm, j, pc) ==> sym_addr(*lm, j) < sym_addr(
                        *lm,
                        b as int,
                    ) || (sym_addr(*lm, j) == sym_addr(*lm, b as int) && b <= j),
                None => forall|j: int| j < i ==> !#[trigger] starts_before(*lm, j, pc),
            },
        decreases lm.tables.symtab@.len() - i,
    {
        let sym: &Elf64Sym = &lm.tables.symtab[i];
        if sym.st_shndx != SHN_UNDEF && sym.st_value != 0 {
            let addr: u64 = lm.base.wrapping_add(sym.st_value);
            if addr <= pc {
                assert(starts_before(*lm, i as int, pc));
                match best {
                    Some(b) => {
                        if addr > lm.base.wrapping_add(lm.tables.symtab[b].st_value) {
                            best = Some(i);
                        }
                    },
                    None => {
                        best = Some(i);
                    },
                }
            }
        }
        i = i + 1;
    }
    match best {
        Some(b) => {
            assert(is_nearest(*lm, b as int, pc));
            Some(
                (
                    lm.strtab.wrapping_add(lm.tables.symtab[b].st_name as u64),
                    lm.base.wrapping_add(lm.tables.symtab[b].st_value),
                ),
            )
        },
        None => None,
    }
}

/// The address of a name, 0 if there is none.
pub open spec fn name_addr(n: Option<CName>) -> u64 {
    match n {
        Some(c) => c.addr,
        None => 0,
    }
}

/// Describes the object and the nearest symbol at an address; `None` if no
/// object covers it.
pub fn dladdr(st: &RtldState, addr: u64) -> (r: Option<DlInfo>)
    ensures
        match object_covering(*st, addr) {
            None => r is None,
            Some(lm) => {
                &&& r is Some
                &&& r->0.dli_fname == if lm.path is Some {
                    name_addr(lm.path)
                } else {
                    name_addr(lm.name)
                }
                &&& r->0.dli_fbase == lm.base
                &&& if lm.symtab != 0 && lm.strtab != 0 && exists|i: int| #[trigger]
                    starts_before(lm, i, addr) {
                    exists|i: int| #[trigger]
                        is_nearest(lm, i, addr) && r->0.dli_sname == lm.strtab.wrapping_add(
                            lm.tables.symtab@[i].st_name as u64,
                        ) && r->0.dli_saddr == sym_addr(lm, i)
                } else {
                    r->0.dli_sname == 0 && r->0.dli_saddr == 0
                }
            },
        },
{
    let lm: &LinkMap = match locate_object_by_pc(st, addr) {
        Some(lm) => lm,
        None => {
            return None;
        },
    };
    let mut out: DlInfo = DlInfo::zeroed();
    out.dli_fname = match &lm.path {
        Some(p) => p.addr,
        None => match &lm.name {
            Some(n) => n.addr,
            None => 0,
        },
    };
    out.dli_fbase = lm.base;
    match nearest_symbol(lm, addr) {
        Some((name, at)) => {
            out.dli_sname = name;
            out.dli_saddr = at;
        },
        None => {},
    }
    Some(out)
}

/// The program header record of an object; `None` if it has no program headers.
/// `no_name` is the address of an empty string.
pub open spec fn phdr_info(lm: LinkMap, no_name: u64) -> Option<DlPhdrInfo> {
    if lm.phdr == 0 || lm.phnum == 0 {
        None
    } else {
        Some(
            DlPhdrInfo {
                dlpi_addr: lm.base,
                dlpi_name: match lm.name {
                    Some(n) => n.addr,
                    None => no_name,
                },
                dlpi_phdr: lm.phdr,
                dlpi_phnum: lm.phnum,
                _pad0: 0,
                _pad1: 0,
            },
        )
    }
}

fn build_phdr_info(lm: &LinkMap, no_name: u64) -> (r: Option<DlPhdrInfo>)
    ensures
        r == phdr_info(*lm, no_name),
{
    if lm.phdr == 0 || lm.phnum == 0 {
        return None;
    }
    Some(
        DlPhdrInfo {
            dlpi_addr: lm.base,
            dlpi_name: match &lm.name {
                Some(n) => n.addr,
                None => no_name,
            },
            dlpi_phdr: lm.phdr,
            dlpi_phnum: lm.phnum,
            _pad0: 0,
            _pad1: 0,
        },
    )
}

/// The program header records of the first `n` entries that have one.
pub open spec fn phdr_infos(entries: Seq<LinkMap>, no_name: u64, n: int) -> Seq<DlPhdrInfo>
    decreases n,
{
    if n <= 0 {
        Seq::empty()
    } else {
        match phdr_info(entries[n - 1], no_name) {
            Some(info) => phdr_infos(entries, no_name, n - 1).push(info),
            None => phdr_infos(entries, no_name, n - 1),
        }
    }
}

fn collect_phdr_infos(entries: &Vec<LinkMap>, no_name: u64) -> (r: Vec<DlPhdrInfo>)
    ensures
        r@ == phdr_infos(entries@, no_name, entries@.len() as int),
{
    let mut out: Vec<DlPhdrInfo> = Vec::new();
    assert(out@ =~= Seq::empty());
    let mut i: usize = 0;
    while i < entries.len()
        invariant
            i <= entries@.len(),
            out@ == phdr_infos(entries@, no_name, i as int),
        decreases entries@.len() - i,
    {
        match build_phdr_info(&entries[i], no_name) {
            Some(info) => {
                out.push(info);
            },
            None => {},
        }
        i = i + 1;
    }
    out
}

/// The program header records of all objects, startup objects first, in the
/// order in which a callback gets them. A callback that returns something other
/// than zero ends the walk.
pub fn dl_iterate_phdr(st: &RtldState, no_name: u64) -> (r: Vec<DlPhdrInfo>)
    ensures
        r@ == phdr_infos(st.objects@, no_name, st.objects@.len() as int) + phdr_infos(
            st.chain@,
            no_name,
            st.chain@.len() as int,
        ),
{
    let mut out: Vec<DlPhdrInfo> = collect_phdr_infos(&st.objects, no_name);
    let mut more: Vec<DlPhdrInfo> = collect_phdr_infos(&st.chain, no_name);
    out.append(&mut more);
    out
}

// ---------------------------------------------------------------------------
// Closing
// ---------------------------------------------------------------------------

/// What closing a handle takes.
#[derive(Clone, Copy, PartialEq, Eq, Debug, Structural)]
pub enum CloseAction {
    /// Nothing more.
    Done,
    /// Call the finalisers, see [`dlclose_finalise`], then [`unlink_and_unmap`].
    Unload,
}

/// What closing an entry takes, and how often it is open afterwards.
pub open spec fn close_action(lm: LinkMap) -> (CloseAction, u32) {
    if lm.flagged(STARTUP) {
        (CloseAction::Done, lm.refcount)
    } else if lm.refcount > 1 {
        (CloseAction::Done, (lm.refcount - 1) as u32)
    } else if lm.flagged(RTLD_NODELETE) {
        (CloseAction::Done, 0)
    } else {
        (CloseAction::Unload, 0)
    }
}

/// Closes a handle. Startup objects stay, and so do objects that are open
/// elsewhere or must not be deleted.
pub fn dlclose(st: &mut RtldState, handle: u64) -> (r: CloseAction)
    ensures
        *final(st) == (RtldState { chain: final(st).chain, ..*old(st) }),
        if handle == 0 || handle == 1 || handle == u64::MAX || index_of(
            old(st).chain@,
            handle,
            0,
        ) is None {
            r is Done && final(st).chain@ == old(st).chain@
        } else {
            let at = index_of(old(st).chain@, handle, 0)->0;
            let (action, refcount) = close_action(old(st).chain@[at]);
            r == action && final(st).chain@ == old(st).chain@.update(
                at,
                (LinkMap { refcount, ..old(st).chain@[at] }),
            )
        },
{
    if handle == 0 || handle == DEFAULT_HANDLE_MARKER || handle == RTLD_NEXT_HANDLE {
        return CloseAction::Done;
    }
    let at: usize = match find_by_address(&st.chain, handle) {
        Some(i) => i,
        None => {
            return CloseAction::Done;
        },
    };
    let ghost lm = st.chain@[at as int];
    if st.chain[at].has_flag(STARTUP) {
        assert(st.chain@ =~= old(st).chain@.update(at as int, (LinkMap { ..lm })));
        return CloseAction::Done;
    }
    if st.chain[at].refcount > 1 {
        st.chain[at].refcount = st.chain[at].refcount - 1;
        return CloseAction::Done;
    }
    st.chain[at].refcount = 0;
    if st.chain[at].has_flag(RTLD_NODELETE) {
        return CloseAction::Done;
    }
    CloseAction::Unload
}

/// Which functions to call before the object with a handle is unloaded. They
/// count as called.
pub fn dlclose_finalise(st: &mut RtldState, handle: u64, mem: &Memory<'_>) -> (r: Vec<u64>)
    ensures
        *final(st) == (RtldState { chain: final(st).chain, ..*old(st) }),
        match index_of(old(st).chain@, handle, 0) {
            Some(at) => {
                let lm = old(st).chain@[at];
                r@ == fini_calls(lm, mem.start, mem.bytes@) && final(st).chain@ == old(
                    st,
                ).chain@.update(
                    at,
                    if lm.flagged(FINI_DONE) {
                        lm
                    } else {
                        LinkMap { flags: lm.flags | FINI_DONE, ..lm }
                    },
                )
            },
            None => r@.len() == 0 && final(st).chain@ == old(st).chain@,
        },
{
    match find_by_address(&st.chain, handle) {
        Some(at) => {
            let r: Vec<u64> = run_fini(&mut st.chain[at], mem);
            assert(st.chain@ =~= old(st).chain@.update(at as int, st.chain@[at as int]));
            r
        },
        None => Vec::new(),
    }
}

/// What was opened once more and closed is open as often as before, unless the
/// count is at its end: closing undoes reopening.
pub proof fn lemma_close_undoes_reopen(lm: LinkMap, flags: i32)
    requires
        !lm.flagged(STARTUP),
        1 <= lm.refcount < u32::MAX,
    ensures
        close_action(reopened(lm, flags)) == (CloseAction::Done, lm.refcount),
{
    let f = lm.flags;
    assert(((f | 2) & !4) & 1 == f & 1 && (f | 4) & 1 == f & 1 && (((f | 2) & !4) | 8) & 1 == f & 1
        && ((f | 4) | 8) & 1 == f & 1) by (bit_vector);
}

// ---------------------------------------------------------------------------
// Scope flags
// ---------------------------------------------------------------------------

/// What opening does to the flags of an object: with 0x100 it joins the global
/// scope (2) and leaves the local one (4); without, it is marked local and stays
/// global if it was; with 0x1000 it is never unloaded (8), and once that is so it
/// stays so. Nothing else changes.
pub proof fn lemma_open_flags(f: u32, flags: i32)
    ensures
        ({
            let r = handle_flags(f, flags);
            &&& flags & 0x100 != 0 ==> r & 2 != 0 && r & 4 == 0
            &&& flags & 0x100 == 0 ==> r & 2 == f & 2 && r & 4 != 0
            &&& flags & 0x1000 != 0 ==> r & 8 != 0
            &&& flags & 0x1000 == 0 ==> r & 8 == f & 8
            &&& r & 0xffff_fff1 == f & 0xffff_fff1
        }),
{
    assert({
        let g = (f | 2u32) & !4u32;
        let l = f | 4u32;
        &&& g & 2 != 0 && g & 4 == 0 && g & 8 == f & 8 && g & 0xffff_fff1 == f & 0xffff_fff1
        &&& l & 2 == f & 2 && l & 4 != 0 && l & 8 == f & 8 && l & 0xffff_fff1 == f & 0xffff_fff1
        &&& (g | 8u32) & 2 != 0 && (g | 8u32) & 4 == 0 && (g | 8u32) & 8 != 0 && (g | 8u32)
            & 0xffff_fff1 == f & 0xffff_fff1
        &&& (l | 8u32) & 2 == f & 2 && (l | 8u32) & 4 != 0 && (l | 8u32) & 8 != 0 && (l | 8u32)
            & 0xffff_fff1 == f & 0xffff_fff1
    }) by (bit_vector);
}

// ---------------------------------------------------------------------------
// Handles
// ---------------------------------------------------------------------------

/// An entry that was closed `k` times.
pub open spec fn closed(lm: LinkMap, k: int) -> LinkMap
    decreases k,
{
    if k <= 0 {
        lm
    } else {
        let before = closed(lm, k - 1);
        LinkMap { refcount: close_action(before).1, ..before }
    }
}

/// An object is unloaded by as many closes as it was opened, and not before; one
/// that must not be deleted (8) never is, and neither is a startup object (1).
pub proof fn lemma_last_close_unloads(lm: LinkMap, k: int)
    requires
        0 <= k < lm.refcount,
    ensures
        lm.flags & 1 == 0 && lm.flags & 8 == 0 ==> (close_action(closed(lm, k)).0
            == CloseAction::Unload <==> k == lm.refcount - 1),
        lm.flags & 8 != 0 || lm.flags & 1 != 0 ==> close_action(closed(lm, k)).0
            == CloseAction::Done,
        lm.flags & 1 != 0 ==> closed(lm, k).refcount == lm.refcount,
        lm.flags & 1 == 0 ==> closed(lm, k).refcount == lm.refcount - k,
        closed(lm, k).flags == lm.flags,
    decreases k,
{
    if k > 0 {
        lemma_last_close_unloads(lm, k - 1);
    }
}

proof fn lemma_phdr_info_is_listed(entries: Seq<LinkMap>, no_name: u64, n: int, k: int)
    requires
        0 <= k < n <= entries.len(),
        phdr_info(entries[k], no_name) is Some,
    ensures
        phdr_infos(entries, no_name, n).contains(phdr_info(entries[k], no_name)->0),
    decreases n,
{
    let info = phdr_info(entries[k], no_name)->0;
    let all = phdr_infos(entries, no_name, n);
    let before = phdr_infos(entries, no_name, n - 1);
    if k == n - 1 {
        assert(all[before.len() as int] == info);
    } else {
        lemma_phdr_info_is_listed(entries, no_name, n - 1, k);
        let j = choose|j: int| 0 <= j < before.len() && before[j] == info;
        assert(all[j] == info);
    }
}

/// Every object with program headers is listed with its base, its name and where
/// its headers are.
pub proof fn lemma_every_object_is_listed(entries: Seq<LinkMap>, no_name: u64, k: int) -> (j: int)
    requires
        0 <= k < entries.len(),
        entries[k].phdr != 0,
        entries[k].phnum != 0,
    ensures
        ({
            let all = phdr_infos(entries, no_name, entries.len() as int);
            let lm = entries[k];
            &&& 0 <= j < all.len()
            &&& all[j].dlpi_addr == lm.base
            &&& all[j].dlpi_phdr == lm.phdr
            &&& all[j].dlpi_phnum == lm.phnum
            &&& lm.name is Some ==> all[j].dlpi_name == lm.name->0.addr
            &&& lm.name is None ==> all[j].dlpi_name == no_name
        }),
{
    let all = phdr_infos(entries, no_name, entries.len() as int);
    lemma_phdr_info_is_listed(entries, no_name, entries.len() as int, k);
    choose|j: int| 0 <= j < all.len() && all[j] == phdr_info(entries[k], no_name)->0
}

/// A lookup by handle finds the definition of the object itself before those of
/// what it needs, and both 0 and 1 stand for the global scope.
pub proof fn lemma_handle_lookup(
    st: RtldState,
    handle: u64,
    name: Seq<u8>,
    caller_pc: u64,
    lm: LinkMap,
)
    requires
        1 < handle < u64::MAX,
        entry_at(st, handle) == Some(lm),
    ensures
        object_symbol(lm, name, None) is Some ==> handle_symbol(st, handle, name, caller_pc)
            == object_symbol(lm, name, None),
        object_symbol(lm, name, None) is None ==> handle_symbol(st, handle, name, caller_pc)
            == deps_symbol(st, lm, name, None),
        handle_symbol(st, 0, name, caller_pc) == handle_symbol(st, 1, name, caller_pc),
{
}

/// A message that fits with its terminator is read back from the buffer, and one
/// that does not is cut off; the buffer keeps its length.
pub proof fn lemma_message_reads_back(before: Seq<u8>, msg: Seq<u8>)
    requires
        before.len() > 0,
        !msg.contains(0),
    ensures
        ({
            let after = message_written(before, msg);
            let n = if msg.len() < before.len() {
                msg.len() as int
            } else {
                before.len() - 1
            };
            &&& after.len() == before.len()
            &&& after.subrange(0, n) == msg.subrange(0, n)
            &&& after[n] == 0
            &&& forall|i: int| n < i < before.len() ==> #[trigger] after[i] == before[i]
        }),
{
    let n = if msg.len() < before.len() {
        msg.len() as int
    } else {
        before.len() - 1
    };
    let after = message_written(before, msg);
    assert(after == msg.take(n).push(0) + before.skip(n + 1));
    assert(after.subrange(0, n) =~= msg.subrange(0, n));
}

/// A newly loaded object is open once and marked as loaded at runtime (16). What
/// another object needs joins the global scope (2); what was opened itself is in it
/// if it was opened for that.
pub proof fn lemma_fresh_entry(lm: LinkMap, addr: u64, flags: i32, root: bool, counter: u32)
    ensures
        ({
            let e = fresh_entry(lm, addr, flags, root, counter);
            &&& e.addr == addr
            &&& e.refcount == 1
            &&& e.flags & 16 != 0
            &&& !root ==> e.flags & 2 != 0
            &&& root && flags & 0x100 != 0 ==> e.flags & 2 != 0
            &&& root && flags & 0x100 == 0 ==> e.flags & 2 == lm.flags & 2
        }),
{
    let f = lm.flags;
    assert((f | 16) & 16 != 0 && (f | 16) & 2 == f & 2 && ((f | 16) | 2) & 16 != 0 && ((f | 16) | 2)
        & 2 != 0 && (((f | 16) | 2) & !4) & 16 != 0 && ((f | 16) | 4) & 16 != 0 && ((((f | 16) | 2)
        & !4) | 8) & 16 != 0 && (((f | 16) | 4) | 8) & 16 != 0) by (bit_vector);
    lemma_open_flags(f | 16, flags);
}

// ---------------------------------------------------------------------------
// What linking leaves
// ---------------------------------------------------------------------------

/// Linking an object without an error makes the write that each of its relocations
/// asks for, and marks the object as relocated (32).
pub proof fn lemma_linked_object_is_relocated(
    before: RtldState,
    handle: u64,
    arch: Arch,
    res: TlsdescResolvers,
    resolver: u64,
    after: RtldState,
    writes: Seq<RelocWrite>,
    at: int,
    i: int,
)
    requires
        is_linked(before, handle, arch, res, resolver, after, writes, Ok(())),
        index_of(before.chain@, handle, 0) == Some(at),
        0 <= at < before.chain@.len(),
        0 <= i < before.chain@[at].tables.rela@.len() + before.chain@[at].tables.jmprel@.len(),
    ensures
        ({
            let lm = before.chain@[at];
            let r = relocation(lm, i);
            let st = RtldState { arena: after.arena, ..before };
            &&& exists|w: int|
                0 <= w < writes.len() && is_relocated(
                    arch,
                    lm,
                    r,
                    runtime_symbol(st, lm, (r.r_info / 0x1_0000_0000) as u32),
                    #[trigger] writes[w],
                )
            &&& after.chain@[at].flags & 32 != 0
            &&& after.chain@[at].base == lm.base
            &&& after.chain@[at].addr == lm.addr
        }),
{
    let lm = before.chain@[at];
    let (descs, arena, bound) = desc_outcome(before, lm, arch, res);
    let mid = RtldState { arena, ..before };
    let relocs = object_effects(
        arch,
        lm,
        runtime_symbols(mid, lm, arch, lm.tables.rela@),
        runtime_symbols(mid, lm, arch, lm.tables.jmprel@),
    ).0;
    lemma_runtime_object_is_relocated(mid, lm, arch, i);
    assert(writes[descs.len() + i] == relocs[i]);
    let f = lm.flags;
    assert((f | 32) & 32 != 0) by (bit_vector);
}

spec fn same_objects(a: Seq<LinkMap>, b: Seq<LinkMap>) -> bool {
    &&& a.len() == b.len()
    &&& forall|j: int|
        0 <= j < a.len() ==> (#[trigger] b[j]).addr == a[j].addr && (a[j].flags & 32 != 0
            ==> b[j].flags & 32 != 0)
}

proof fn lemma_index_is_kept(a: Seq<LinkMap>, b: Seq<LinkMap>, addr: u64, i: int)
    requires
        same_objects(a, b),
        0 <= i,
    ensures
        index_of(a, addr, i) == index_of(b, addr, i),
        index_of(a, addr, i) matches Some(at) ==> i <= at < a.len() && a[at].addr == addr,
    decreases a.len() - i,
{
    if i < a.len() {
        assert(b[i].addr == a[i].addr);
        lemma_index_is_kept(a, b, addr, i + 1);
    }
}

proof fn lemma_link_step(
    before: RtldState,
    handle: u64,
    arch: Arch,
    res: TlsdescResolvers,
    resolver: u64,
    after: RtldState,
    writes: Seq<RelocWrite>,
)
    requires
        is_linked_ok(before, handle, arch, res, resolver, after, writes),
    ensures
        same_objects(before.chain@, after.chain@),
        index_of(before.chain@, handle, 0) matches Some(at) ==> after.chain@[at].flags & 32 != 0,
{
    assert(same_objects(before.chain@, before.chain@));
    lemma_index_is_kept(before.chain@, before.chain@, handle, 0);
    if let Some(at) = index_of(before.chain@, handle, 0) {
        let f = before.chain@[at].flags;
        assert((f | 32) & 32 != 0) by (bit_vector);
    }
}

proof fn lemma_links_keep(
    order: Seq<u64>,
    arch: Arch,
    res: TlsdescResolvers,
    resolver: u64,
    states: Seq<RtldState>,
    parts: Seq<Seq<RelocWrite>>,
    m: int,
    n: int,
)
    requires
        are_linked(order, order.len() as int, arch, res, resolver, states, parts),
        0 <= m <= n <= order.len(),
    ensures
        same_objects(states[m].chain@, states[n].chain@),
    decreases n - m,
{
    if m < n {
        lemma_links_keep(order, arch, res, resolver, states, parts, m, n - 1);
        assert(is_linked_ok(
            states[n - 1],
            order[n - 1],
            arch,
            res,
            resolver,
            states[n - 1 + 1],
            parts[n - 1],
        ));
        lemma_link_step(states[n - 1], order[n - 1], arch, res, resolver, states[n], parts[n - 1]);
        assert forall|j: int| 0 <= j < states[m].chain@.len() implies (
        #[trigger] states[n].chain@[j]).addr == states[m].chain@[j].addr && (
        states[m].chain@[j].flags & 32 != 0 ==> states[n].chain@[j].flags & 32 != 0) by {
            assert(states[n - 1].chain@[j].addr == states[m].chain@[j].addr);
        }
    }
}

proof fn lemma_joined_has_parts(parts: Seq<Seq<RelocWrite>>, k: int, w: int)
    requires
        0 <= k < parts.len(),
        0 <= w < parts[k].len(),
    ensures
        joined(parts).contains(parts[k][w]),
    decreases parts.len(),
{
    let rest = joined(parts.drop_last());
    let all = joined(parts);
    if k == parts.len() - 1 {
        assert(all[rest.len() + w] == parts[k][w]);
    } else {
        lemma_joined_has_parts(parts.drop_last(), k, w);
        let j = choose|j: int| 0 <= j < rest.len() && rest[j] == parts[k][w];
        assert(all[j] == parts[k][w]);
    }
}

/// An open that is linked without an error leaves every object that it loaded marked
/// as relocated (32), and makes all the writes of each of them.
pub proof fn lemma_every_opened_object_is_linked(
    before: RtldState,
    run: DlopenRun,
    arch: Arch,
    res: TlsdescResolvers,
    resolver: u64,
    states: Seq<RtldState>,
    parts: Seq<Seq<RelocWrite>>,
    after: RtldState,
    result: Result<(), (DlError, Vec<UnmapAction>)>,
    k: int,
    at: int,
)
    requires
        is_link_run(before, run, arch, res, resolver, states, parts, after, result),
        result is Ok,
        0 <= k < run.order.items@.len(),
        index_of(before.chain@, run.order.items@[k], 0) == Some(at),
    ensures
        0 <= at < after.chain@.len(),
        after.chain@[at].addr == run.order.items@[k],
        after.chain@[at].flags & 32 != 0,
        is_linked(
            states[k],
            run.order.items@[k],
            arch,
            res,
            resolver,
            states[k + 1],
            parts[k],
            Ok(()),
        ),
        forall|w: int|
            0 <= w < parts[k].len() ==> joined(parts).contains(#[trigger] parts[k][w]),
{
    let order = run.order.items@;
    let n = order.len() as int;
    lemma_links_keep(order, arch, res, resolver, states, parts, 0, k);
    lemma_index_is_kept(states[0].chain@, states[k].chain@, order[k], 0);
    assert(is_linked_ok(states[k], order[k], arch, res, resolver, states[k + 1], parts[k]));
    lemma_link_step(states[k], order[k], arch, res, resolver, states[k + 1], parts[k]);
    lemma_links_keep(order, arch, res, resolver, states, parts, k + 1, n);
    assert(states[n].chain@[at].addr == states[k + 1].chain@[at].addr);
    assert(states[k + 1].chain@[at].addr == states[k].chain@[at].addr);
    assert forall|w: int| 0 <= w < parts[k].len() implies joined(parts).contains(
        #[trigger] parts[k][w],
    ) by {
        lemma_joined_has_parts(parts, k, w);
    }
}

} // verus!
