use trona::kernel::abi::{InvokeLabel, Target};
use trona::kernel::core_types::{
    CapRef, RtldDlfcnV1, SaltyOSCapEntryV1, SaltyOSCspaceLayoutV1, SaltyOSImageInfoV1,
    SaltyOSMappedImageV1, SaltyOSStartupLayoutV1,
};
use trona::loader::elf::header::Arch;
use trona::loader::elf::reloc::{RelocError, RelocWrite};
use trona::loader::elf::symbol::gnu_hash;
use trona::loader::elf::types::{Elf64Auxv, Elf64Dyn, Elf64Phdr, Elf64Rela, Elf64Sym};
use trona::loader::image::{
    map_image, Carve, ImageEnvelope, ImageId, ImageRunKind, PlacementSink, Prot, Run, RunPlan,
    RunSource,
};
use trona::loader::link_flags::{INIT_DONE, RELOCATED, RTLD_GLOBAL, RTLD_LOCAL, RTLD_NODELETE, STARTUP};
use trona::loader::link_map::{ArenaState, CName, LinkMap, RtldState};
use trona::loader::rtld::cap::{
    alloc_and_map_range, alloc_frame_slot, invoke_untyped_retype, map_frame, retype_result,
    unmap_page, RetypeResult,
};
use trona::loader::rtld::elf::arena::{
    arena_alloc, arena_alloc_link_map, arena_intern, arena_is_unmapped, ensure_arena,
    resolve_dependency_path, search_paths, PathStage, PathStep,
};
use trona::loader::rtld::elf::dlfcn::{
    dl_iterate_phdr, dladdr, dlclose, dlclose_finalise, dlopen_abort, dlopen_begin, dlopen_found,
    dlopen_link,
    dlopen_load, dlopen_step, dlsym_from, error_message, link_object, rollback, unlink_and_unmap,
    write_err, CloseAction, DlError, DlopenAction, DlopenRun, DlopenStart, FoundAction, LoadOrder,
    RTLD_NEXT_HANDLE,
};
use trona::loader::rtld::elf::load::{
    basename, check_span, find_main_ehdr_from_at_phdr, load_object_into, plan_object,
    read_headers_got, read_headers_want, run_fini, run_init, unmap_runtime_object, LoadError,
    UnmapAction, MAX_RTLD_RUNS, RTLD_GLOBAL_FLAG, RTLD_NOLOAD_FLAG,
};
use trona::loader::rtld::elf::object::{
    _dl_fixup, apply_dyn_info, find_in_chain_by_name, find_loaded_object, install_got_entries,
    relocate_object, relocation_error_text, sym_count,
};
use trona::loader::rtld::elf::scope::{
    locate_object_by_pc, resolve_default, resolve_in_handle, resolve_next_after,
    resolve_symbol_for_runtime, resolve_symbol_global, Scope,
};
use trona::loader::rtld::elf::startup::{
    add_startup_object, apply_relro, call_dso_inits, check_startup_tls, find_extern_symbol,
    init_shared_lib_window, object_load_error_stage, resolve_startup_dependencies,
    seed_preloaded_object, setup_main_object, setup_preloaded_object, setup_tls, NeedCursor,
    StartupError, StartupNeed,
};
use trona::loader::rtld::elf::tables::{gnu_hash_max_index, Memory};
use trona::loader::rtld::elf::tls::{
    bind_tlsdesc, dtv_total_bytes, find_runtime_module, grow_dtv, new_dtv,
    register_runtime_module, take_block, tls_addr_impl, tls_destroy_impl, tlsdesc_offset,
    TlsStep, TlsdescResolvers,
};
use trona::loader::rtld::image_sink::{
    alias_rights, place_image, place_run, placement_error, reserved_image, run_is_representable,
    PlaceRun, SelfSink, SinkError,
};
use trona::loader::rtld::io::{parse_auxv, parse_stack};
use trona::loader::rtld::main::{rtld_main, StartupKind};
use trona::loader::rtld::mem::{memcpy, memzero, pages_for};
use trona::loader::rtld::runtime::{
    build_loader_runtime, build_runtime, init_state_from_auxv, setup_rtld_object, InitError,
};
use trona::loader::rtld::serial::{print_dec, print_hex, print_trona_error, TronaError};
use trona::loader::rtld::state::publish_exports;

const X: Arch = Arch::X86_64;

fn cname(addr: u64, s: &[u8]) -> CName {
    CName { addr, bytes: s.to_vec() }
}

/// An object at `addr` with load base `base` that defines the given names at
/// the given offsets, and needs the names behind them.
fn object(addr: u64, base: u64, name: &[u8], symbols: &[(&[u8], u64)], needs: &[&[u8]]) -> LinkMap {
    let mut lm = LinkMap::zeroed();
    lm.addr = addr;
    lm.base = base;
    lm.name = Some(cname(1, name));
    lm.symtab = base + 0x100;
    lm.strtab = base + 0x200;
    lm.dynamic = base + 0x300;
    lm.map_start = base;
    lm.map_end = base + 0x1000;
    lm.tables.strtab.push(0);
    lm.tables.symtab.push(symbol(0, 0, 0, 0));
    for (name, value) in symbols {
        let at = lm.tables.strtab.len() as u32;
        lm.tables.strtab.extend_from_slice(name);
        lm.tables.strtab.push(0);
        lm.tables.symtab.push(symbol(at, 0x12, 1, *value));
    }
    for name in needs {
        let at = lm.tables.strtab.len() as u64;
        lm.tables.strtab.extend_from_slice(name);
        lm.tables.strtab.push(0);
        lm.tables.dynamic.push(Elf64Dyn { d_tag: 1, d_val: at });
    }
    lm.nsyms = lm.tables.symtab.len() as u32;
    lm
}

fn symbol(name: u32, info: u8, shndx: u16, value: u64) -> Elf64Sym {
    Elf64Sym { st_name: name, st_info: info, st_other: 0, st_shndx: shndx, st_value: value, st_size: 0 }
}

/// Adds an undefined symbol to an object; returns its index.
fn wants(lm: &mut LinkMap, name: &[u8], info: u8) -> u32 {
    let at = lm.tables.strtab.len() as u32;
    lm.tables.strtab.extend_from_slice(name);
    lm.tables.strtab.push(0);
    lm.tables.symtab.push(symbol(at, info, 0, 0));
    lm.nsyms += 1;
    lm.nsyms - 1
}

/// The linker defines `ld`, the program `main`, a library `f` and `g`.
fn state() -> RtldState {
    let mut st = RtldState::zeroed();
    st.objects.push(object(0x10, 0x1000_0000, b"<rtld>", &[(b"ld", 0x11), (b"both", 0x12)], &[]));
    st.objects.push(object(0x20, 0x2000_0000, b"<main>", &[(b"main", 0x21)], &[b"libc.so"]));
    st.objects.push(object(0x30, 0x3000_0000, b"libc.so", &[(b"f", 0x31), (b"g", 0x32)], &[]));
    for lm in st.objects.iter_mut() {
        lm.set_flag(STARTUP);
    }
    st.arena = ArenaState { base: 0x7000_0000, size: 0x1_0000, cursor: 0 };
    st.lib_load_addr = 0x6000_0000;
    st
}

fn loaded(addr: u64, base: u64, name: &[u8], symbols: &[(&[u8], u64)], flags: u32) -> LinkMap {
    let mut lm = object(addr, base, name, symbols, &[]);
    lm.set_flag(flags);
    lm.refcount = 1;
    lm.image_id = base;
    lm
}

#[test]
fn scopes_are_read_from_open_flags() {
    assert_eq!(Scope::from_flags(0x1100), Scope::Nodelete);
    assert_eq!(Scope::from_flags(0x0102), Scope::Global);
    assert_eq!(Scope::from_flags(2), Scope::Local);
}

#[test]
fn the_global_scope_has_the_linker_last() {
    let mut st = state();
    assert_eq!(resolve_default(&st, b"f"), Some(0x3000_0031));
    assert_eq!(resolve_default(&st, b"ld"), Some(0x1000_0011));
    st.chain.push(loaded(0x40, 0x4000_0000, b"x.so", &[(b"both", 0x41), (b"f", 0x42)], RTLD_GLOBAL));
    assert_eq!(resolve_default(&st, b"both"), Some(0x4000_0041));
    assert_eq!(resolve_default(&st, b"f"), Some(0x3000_0031));
    assert_eq!(resolve_default(&st, b"nothing"), None);
}

#[test]
fn local_objects_are_seen_through_their_handle_only() {
    let mut st = state();
    let mut user = loaded(0x40, 0x4000_0000, b"user.so", &[(b"u", 0x41)], RTLD_LOCAL);
    user.deps = vec![0x50, 0x30];
    st.chain.push(user);
    st.chain.push(loaded(0x50, 0x5000_0000, b"dep.so", &[(b"d", 0x51)], RTLD_LOCAL));
    assert_eq!(resolve_default(&st, b"d"), None);
    assert_eq!(resolve_in_handle(&st, &st.chain[0], b"u"), Some(0x4000_0041));
    assert_eq!(resolve_in_handle(&st, &st.chain[0], b"d"), Some(0x5000_0051));
    assert_eq!(resolve_in_handle(&st, &st.chain[0], b"f"), Some(0x3000_0031));
    assert_eq!(resolve_in_handle(&st, &st.chain[1], b"u"), None);
}

#[test]
fn dependency_cycles_are_searched_once() {
    let mut st = state();
    let mut a = loaded(0x40, 0x4000_0000, b"a.so", &[], 0);
    a.deps = vec![0x50];
    let mut b = loaded(0x50, 0x5000_0000, b"b.so", &[(b"d", 0x51)], 0);
    b.deps = vec![0x40, 0x50];
    st.chain.push(a);
    st.chain.push(b);
    assert_eq!(resolve_in_handle(&st, &st.chain[0], b"d"), Some(0x5000_0051));
    assert_eq!(resolve_in_handle(&st, &st.chain[0], b"zzz"), None);
}

#[test]
fn symbols_of_startup_objects_resolve_globally() {
    let mut st = state();
    let f = wants(&mut st.objects[1], b"f", 0x10);
    let weak = wants(&mut st.objects[1], b"gone", 0x20);
    let strong = wants(&mut st.objects[1], b"gone", 0x10);
    assert_eq!(resolve_symbol_global(&st, 1, f), Some(0x3000_0031));
    assert_eq!(resolve_symbol_global(&st, 1, weak), Some(0));
    assert_eq!(resolve_symbol_global(&st, 1, strong), None);
    assert_eq!(resolve_symbol_global(&st, 1, 0), Some(0));
    assert_eq!(resolve_symbol_global(&st, 1, 999), None);
    st.objects[1].tables.symtab[1].st_other = 2;
    assert_eq!(resolve_symbol_global(&st, 1, 1), Some(0x2000_0021));
}

#[test]
fn symbols_of_runtime_objects_prefer_startup_definitions() {
    let mut st = state();
    let mut lm = loaded(0x40, 0x4000_0000, b"x.so", &[(b"f", 0x41), (b"own", 0x42)], RTLD_LOCAL);
    let f = wants(&mut lm, b"f", 0x10);
    let own = wants(&mut lm, b"own", 0x10);
    let dep = wants(&mut lm, b"d", 0x10);
    let ld = wants(&mut lm, b"ld", 0x10);
    lm.deps = vec![0x50];
    st.chain.push(loaded(0x50, 0x5000_0000, b"dep.so", &[(b"d", 0x51)], RTLD_LOCAL));
    assert_eq!(resolve_symbol_for_runtime(&st, &lm, f), Some(0x3000_0031));
    assert_eq!(resolve_symbol_for_runtime(&st, &lm, own), Some(0x4000_0042));
    assert_eq!(resolve_symbol_for_runtime(&st, &lm, dep), Some(0x5000_0051));
    assert_eq!(resolve_symbol_for_runtime(&st, &lm, ld), Some(0x1000_0011));
}

#[test]
fn the_next_definition_is_behind_the_caller() {
    let mut st = state();
    st.chain.push(loaded(0x40, 0x4000_0000, b"x.so", &[(b"f", 0x41)], RTLD_GLOBAL));
    assert_eq!(resolve_next_after(&st, 0x2000_0500, b"f"), Some(0x3000_0031));
    assert_eq!(resolve_next_after(&st, 0x3000_0500, b"f"), Some(0x4000_0041));
    assert_eq!(resolve_next_after(&st, 0x4000_0500, b"ld"), Some(0x1000_0011));
    assert_eq!(resolve_next_after(&st, 0x1000_0500, b"f"), None);
    assert_eq!(resolve_next_after(&st, 0x9000_0000, b"f"), None);
}

#[test]
fn objects_are_located_by_address() {
    let mut st = state();
    assert_eq!(locate_object_by_pc(&st, 0x3000_0fff).unwrap().addr, 0x30);
    assert!(locate_object_by_pc(&st, 0x3000_1000).is_none());
    st.objects[2].map_start = 0;
    assert!(locate_object_by_pc(&st, 0x3000_0fff).is_none());
    st.objects[2].phdr = 1;
    st.objects[2].phnum = 1;
    st.objects[2].tables.phdrs.push(phdr(1, 0x100, 0x10, 0x10));
    assert_eq!(locate_object_by_pc(&st, 0x3000_010f).unwrap().addr, 0x30);
    assert!(locate_object_by_pc(&st, 0x3000_0110).is_none());
}

fn phdr(t: u32, vaddr: u64, filesz: u64, memsz: u64) -> Elf64Phdr {
    Elf64Phdr {
        p_type: t,
        p_flags: 6,
        p_offset: vaddr,
        p_vaddr: vaddr,
        p_paddr: vaddr,
        p_filesz: filesz,
        p_memsz: memsz,
        p_align: 16,
    }
}

#[test]
fn symbols_are_looked_up_by_handle() {
    let mut st = state();
    st.objects[1].tables.symtab[1].st_value = 0u64.wrapping_sub(0x2000_0000);
    assert_eq!(dlsym_from(&st, 0, Some(b"f"), 0), Ok(0x3000_0031));
    assert_eq!(dlsym_from(&st, 1, Some(b"f"), 0), Ok(0x3000_0031));
    assert_eq!(dlsym_from(&st, 0x30, Some(b"g"), 0), Ok(0x3000_0032));
    assert_eq!(dlsym_from(&st, RTLD_NEXT_HANDLE, Some(b"f"), 0x2000_0001), Ok(0x3000_0031));
    assert_eq!(dlsym_from(&st, 0, None, 0), Err(DlError::NullSymbol));
    assert_eq!(dlsym_from(&st, 0, Some(b"none"), 0), Err(DlError::SymbolNotFound));
    assert_eq!(dlsym_from(&st, 0, Some(b"main"), 0), Err(DlError::UndefinedSymbol));
}

#[test]
fn addresses_are_described() {
    let mut st = state();
    st.objects[2].path = Some(cname(0x77, b"/lib/libc.so"));
    let info = dladdr(&st, 0x3000_0100).unwrap();
    assert_eq!((info.dli_fname, info.dli_fbase), (0x77, 0x3000_0000));
    assert_eq!((info.dli_saddr, info.dli_sname), (0x3000_0032, 0x3000_0203));
    let before = dladdr(&st, 0x3000_0001).unwrap();
    assert_eq!((before.dli_saddr, before.dli_sname), (0, 0));
    assert!(dladdr(&st, 5).is_none());
}

#[test]
fn program_headers_are_iterated_startup_first() {
    let mut st = state();
    st.objects[1].phdr = 0x2000_0040;
    st.objects[1].phnum = 3;
    let mut lm = loaded(0x40, 0x4000_0000, b"x.so", &[], 0);
    lm.phdr = 0x4000_0040;
    lm.phnum = 2;
    lm.name = None;
    st.chain.push(lm);
    let infos = dl_iterate_phdr(&st, 0x99);
    assert_eq!(infos.len(), 2);
    assert_eq!((infos[0].dlpi_addr, infos[0].dlpi_phnum), (0x2000_0000, 3));
    assert_eq!((infos[1].dlpi_addr, infos[1].dlpi_name), (0x4000_0000, 0x99));
}

#[test]
fn opening_what_is_there_counts_an_open() {
    let mut st = state();
    st.chain.push(loaded(0x40, 0x4000_0000, b"x.so", &[], RTLD_LOCAL));
    assert!(matches!(dlopen_begin(&mut st, b"x.so", RTLD_GLOBAL_FLAG), DlopenStart::Opened(0x40)));
    assert_eq!(st.chain[0].refcount, 2);
    assert!(st.chain[0].has_flag(RTLD_GLOBAL) && !st.chain[0].has_flag(RTLD_LOCAL));
    assert!(matches!(dlopen_begin(&mut st, b"libc.so", 0), DlopenStart::Opened(0x30)));
    assert_eq!(st.objects[2].refcount, 0);
    let refused = dlopen_begin(&mut st, b"y.so", RTLD_NOLOAD_FLAG);
    assert!(matches!(refused, DlopenStart::Refused(DlError::NotLoaded)));
    assert!(matches!(dlclose(&mut st, 0x40), CloseAction::Done));
    assert_eq!(st.chain[0].refcount, 1);
}

fn begin(st: &mut RtldState, flags: i32) -> DlopenRun {
    match dlopen_begin(st, b"root.so", flags) {
        DlopenStart::Load(run) => run,
        _ => panic!("not to be loaded"),
    }
}

/// Loads `root.so`, which needs `a.so` and `b.so`; `a.so` needs `b.so` and
/// `libc.so`; `b.so` needs `root.so`.
fn open_graph(st: &mut RtldState, missing: Option<&[u8]>) -> (DlopenRun, Result<u64, DlError>) {
    let mut run = begin(st, RTLD_GLOBAL_FLAG);
    let make = |name: &[u8]| -> LinkMap {
        let needs: &[&[u8]] = match name {
            b"root.so" => &[b"a.so", b"b.so"],
            b"a.so" => &[b"b.so", b"libc.so"],
            _ => &[b"root.so"],
        };
        object(0, 0x5000_0000, name, &[], needs)
    };
    assert_eq!(dlopen_load(st, &mut run, Ok(make(b"root.so"))), Ok(()));
    loop {
        match dlopen_step(st, &mut run) {
            DlopenAction::Done(handle) => return (run, Ok(handle)),
            DlopenAction::Fail(e) => return (run, Err(e)),
            DlopenAction::Continue => {}
            DlopenAction::Search(_, name) => {
                let path = if missing == Some(&name.bytes[..]) { None } else { Some(name) };
                match dlopen_found(st, &mut run, path) {
                    FoundAction::Continue => {}
                    FoundAction::Fail(e) => return (run, Err(e)),
                    FoundAction::Load(path) => {
                        assert_eq!(dlopen_load(st, &mut run, Ok(make(&path.bytes))), Ok(()));
                    }
                }
            }
        }
    }
}

#[test]
fn an_open_loads_dependencies_first() {
    let mut st = state();
    let (run, done) = open_graph(&mut st, None);
    let root = done.unwrap();
    let names: Vec<Vec<u8>> = run
        .order
        .items
        .iter()
        .map(|h| st.chain.iter().find(|lm| lm.addr == *h).unwrap().name.as_ref().unwrap().bytes.clone())
        .collect();
    assert_eq!(names, vec![b"b.so".to_vec(), b"a.so".to_vec(), b"root.so".to_vec()]);
    let find = |h: u64| st.chain.iter().find(|lm| lm.addr == h).unwrap();
    assert_eq!(find(root).deps, vec![run.order.items[1], run.order.items[0]]);
    assert_eq!(find(run.order.items[1]).deps, vec![run.order.items[0], 0x30]);
    assert_eq!(find(run.order.items[0]).deps, vec![root]);
    assert!(find(run.order.items[0]).has_flag(RTLD_GLOBAL));
    assert_eq!(find(root).refcount, 1);
}

#[test]
fn a_failed_open_is_rolled_back() {
    let mut st = state();
    st.chain.push(loaded(0x40, 0x4000_0000, b"keep.so", &[], RTLD_GLOBAL));
    let (run, done) = open_graph(&mut st, Some(b"libc.so"));
    assert_eq!(done, Err(DlError::DependencyNotFound));
    assert_eq!(run.order.items.len(), 1);
    let actions = rollback(&mut st, &run.order);
    assert_eq!(actions.len(), 1);
    assert!(st.chain.iter().any(|lm| lm.addr == 0x40));
    assert!(!st.chain.iter().any(|lm| lm.addr == run.order.items[0]));
}

#[test]
fn a_failed_open_leaves_nothing_behind() {
    let mut st = state();
    st.chain.push(loaded(0x40, 0x4000_0000, b"keep.so", &[], RTLD_GLOBAL));
    let (run, done) = open_graph(&mut st, Some(b"libc.so"));
    assert_eq!(done, Err(DlError::DependencyNotFound));
    let waiting: Vec<u64> = run.frames.iter().map(|f| f.handle).collect();
    assert_eq!((waiting.len(), run.order.items.len(), st.chain.len()), (2, 1, 4));
    let ids: Vec<u64> = waiting
        .iter()
        .rev()
        .chain(&run.order.items)
        .map(|h| st.chain.iter().find(|lm| lm.addr == *h).unwrap().image_id)
        .collect();
    let actions = dlopen_abort(&mut st, &run);
    assert_eq!(actions.len(), 3);
    for (action, id) in actions.iter().zip(ids) {
        assert!(id == 0 || *action == UnmapAction::Image(id));
    }
    assert_eq!(st.chain.len(), 1);
    assert_eq!(st.chain[0].addr, 0x40);
    assert!(matches!(dlopen_begin(&mut st, b"root.so", 0), DlopenStart::Load(_)));
}

#[test]
fn nothing_is_found_before_the_linker_is_set_up() {
    let mut st = RtldState::zeroed();
    st.objects.clear();
    assert_eq!(resolve_default(&st, b"f"), None);
    assert_eq!(resolve_next_after(&st, 0x1000, b"f"), None);
    assert_eq!(dlsym_from(&st, 0, Some(b"f"), 0), Err(DlError::SymbolNotFound));
}

#[test]
fn opens_fail_where_the_arena_ends() {
    let mut st = state();
    st.arena.size = 100;
    let mut run = begin(&mut st, 0);
    let lm = object(0, 0x5000_0000, b"root.so", &[], &[]);
    let full = Err(DlError::Load(LoadError::OutOfArena));
    assert_eq!(dlopen_load(&mut st, &mut run, Ok(lm)), full);
    let failed = Err(DlError::Load(LoadError::NotElf));
    assert_eq!(dlopen_load(&mut st, &mut run, Err(LoadError::NotElf)), failed);
    let mut order = LoadOrder::empty();
    for i in 0..64 {
        assert!(order.push(i).is_ok());
    }
    assert!(order.push(64).is_err());
}

#[test]
fn closing_unloads_the_last_open() {
    let mut st = state();
    let mut lm = loaded(0x40, 0x4000_0000, b"x.so", &[], RTLD_GLOBAL);
    lm.fini = 0x4000_0500;
    st.chain.push(lm);
    assert!(matches!(dlclose(&mut st, 0x40), CloseAction::Unload));
    let mem = Memory { start: 0x4000_0000, bytes: &[] };
    assert_eq!(dlclose_finalise(&mut st, 0x40, &mem), vec![0x4000_0500]);
    assert_eq!(dlclose_finalise(&mut st, 0x40, &mem), Vec::<u64>::new());
    assert_eq!(unlink_and_unmap(&mut st, 0x40), UnmapAction::Image(0x4000_0000));
    assert!(st.chain.is_empty());
    assert!(matches!(dlclose(&mut st, 0x30), CloseAction::Done));
    assert!(matches!(dlclose(&mut st, 1), CloseAction::Done));
    st.chain.push(loaded(0x50, 0x5000_0000, b"y.so", &[], RTLD_NODELETE));
    assert!(matches!(dlclose(&mut st, 0x50), CloseAction::Done));
    assert_eq!(st.chain[0].refcount, 0);
}

#[test]
fn new_objects_are_linked_in_one_go() {
    let mut st = state();
    let mut lm = loaded(0x40, 0x4000_0000, b"x.so", &[], RTLD_GLOBAL);
    let f = wants(&mut lm, b"f", 0x10);
    lm.pltgot = 0x4000_0800;
    lm.tables.rela.push(Elf64Rela { r_offset: 0x10, r_info: 8, r_addend: 4 });
    lm.tables.jmprel.push(Elf64Rela { r_offset: 0x18, r_info: (f as u64) << 32 | 7, r_addend: 0 });
    st.chain.push(lm);
    let res = TlsdescResolvers { fixed: 1, dynamic: 2 };
    let (writes, done) = link_object(&mut st, 0x40, X, res, 0x99);
    assert_eq!(done, Ok(()));
    assert_eq!(
        writes,
        vec![
            RelocWrite::Word { addr: 0x4000_0010, value: 0x4000_0004 },
            RelocWrite::Word { addr: 0x4000_0018, value: 0x3000_0031 },
            RelocWrite::Word { addr: 0x4000_0808, value: 0x40 },
            RelocWrite::Word { addr: 0x4000_0810, value: 0x99 },
        ]
    );
    assert!(st.chain[0].has_flag(RELOCATED));
    let gone = wants(&mut st.chain[0], b"gone", 0x10);
    st.chain[0].tables.rela.push(Elf64Rela { r_offset: 0, r_info: (gone as u64) << 32 | 6, r_addend: 0 });
    assert_eq!(link_object(&mut st, 0x40, X, res, 0x99).1, Err(DlError::Relocation));
}

#[test]
fn an_open_is_linked_whole_or_undone() {
    let res = TlsdescResolvers { fixed: 1, dynamic: 2 };
    let mut st = state();
    st.chain.push(loaded(0x40, 0x4000_0000, b"keep.so", &[], RTLD_GLOBAL));
    let (run, done) = open_graph(&mut st, None);
    assert!(done.is_ok());
    let at = |st: &RtldState, h: u64| st.chain.iter().position(|lm| lm.addr == h).unwrap();
    for (k, h) in run.order.items.iter().enumerate() {
        let i = at(&st, *h);
        let rela = Elf64Rela { r_offset: 0x10 * k as u64, r_info: 8, r_addend: 4 };
        st.chain[i].tables.rela.push(rela);
    }
    let (writes, linked) = dlopen_link(&mut st, &run, X, res, 0x99);
    assert!(linked.is_ok());
    let bases: Vec<u64> = run.order.items.iter().map(|h| st.chain[at(&st, *h)].base).collect();
    assert_eq!(
        writes,
        (0..3)
            .map(|k| RelocWrite::Word { addr: bases[k] + 0x10 * k as u64, value: bases[k] + 4 })
            .collect::<Vec<_>>()
    );
    assert!(run.order.items.iter().all(|h| st.chain[at(&st, *h)].has_flag(RELOCATED)));
    assert!(!st.chain[at(&st, 0x40)].has_flag(RELOCATED));

    let second = at(&st, run.order.items[1]);
    let gone = wants(&mut st.chain[second], b"gone", 0x10);
    st.chain[second].tables.rela.push(Elf64Rela {
        r_offset: 0,
        r_info: (gone as u64) << 32 | 6,
        r_addend: 0,
    });
    let (writes, linked) = dlopen_link(&mut st, &run, X, res, 0x99);
    assert_eq!(writes[0], RelocWrite::Word { addr: bases[0], value: bases[0] + 4 });
    match linked {
        Err((e, actions)) => assert_eq!((e, actions.len()), (DlError::Relocation, 3)),
        Ok(()) => panic!("linked with an undefined symbol"),
    }
    assert_eq!(st.chain.len(), 1);
    assert_eq!(st.chain[0].addr, 0x40);
}

#[test]
fn lazy_binding_writes_the_slot() {
    let mut st = state();
    let f = wants(&mut st.objects[1], b"f", 0x10);
    st.objects[1]
        .tables
        .jmprel
        .push(Elf64Rela { r_offset: 0x18, r_info: (f as u64) << 32 | 7, r_addend: 0 });
    let (write, value) = _dl_fixup(&st, 0x20, 0).unwrap();
    assert_eq!(value, 0x3000_0031);
    assert_eq!(write, RelocWrite::Word { addr: 0x2000_0018, value });
    assert!(_dl_fixup(&st, 0x20, 1).is_none());
    assert!(_dl_fixup(&st, 0x99, 0).is_none());
    assert!(install_got_entries(&st.objects[1], 5).is_empty());
    let (writes, done) = relocate_object(&mut st, 1, X);
    assert_eq!((writes.len(), done), (1, Ok(())));
    assert!(st.objects[1].has_flag(RELOCATED));
    assert_eq!(relocation_error_text(RelocError::UnsupportedType(9)).1, Some(9));
}

#[test]
fn objects_are_found_by_their_names() {
    let mut st = state();
    st.objects[1].soname = Some(cname(0, b"prog"));
    assert_eq!(find_loaded_object(&st, b"prog"), Some(1));
    assert_eq!(find_loaded_object(&st, b"libc.so"), Some(2));
    assert_eq!(find_loaded_object(&st, b"libm.so"), None);
    let mut lm = loaded(0x40, 0x4000_0000, b"x.so", &[], 0);
    lm.path = Some(cname(0, b"/lib/x.so"));
    st.chain.push(lm);
    assert_eq!(find_in_chain_by_name(&st, b"/lib/x.so"), Some(0));
    assert_eq!(find_in_chain_by_name(&st, b"libc.so"), None);
}

#[test]
fn errors_have_messages() {
    assert_eq!(error_message(DlError::NotLoaded), "dlopen: RTLD_NOLOAD: not loaded");
    assert_eq!(error_message(DlError::Load(LoadError::NoLoadable)), "dlopen: no PT_LOAD segments");
    assert_eq!(object_load_error_stage(LoadError::OutOfArena), "rtld-arena");
    let mut buf = [9u8; 8];
    write_err(&mut buf, b"failed");
    assert_eq!(&buf, b"failed\0\x09");
    write_err(&mut buf, b"a long message");
    assert_eq!(&buf, b"a long \0");
    write_err(&mut buf[..0], b"x");
}

#[test]
fn the_arena_hands_out_aligned_blocks() {
    let mut st = RtldState::zeroed();
    assert!(arena_is_unmapped(&st.arena));
    assert_eq!(ensure_arena(&mut st, Some(u64::MAX)), Err(LoadError::ArenaMmapFailed));
    assert_eq!(ensure_arena(&mut st, Some(0x7000_0000)), Ok(()));
    assert_eq!(ensure_arena(&mut st, None), Ok(()));
    assert_eq!(st.arena.size, 4 << 20);
    let s = arena_intern(&mut st.arena, b"abc").unwrap();
    assert_eq!((s.addr, st.arena.cursor), (0x7000_0000, 4));
    assert_eq!(arena_alloc(&mut st.arena, 10, 16), Some(0x7000_0010));
    assert_eq!(arena_alloc_link_map(&mut st.arena), Some(0x7000_0020));
    assert_eq!(st.arena.cursor, 0x20 + 592);
    assert_eq!(arena_alloc(&mut st.arena, u64::MAX, 1), None);
}

#[test]
fn library_paths_are_tried_in_order() {
    let mut arena = ArenaState { base: 0x1000, size: 0x1000, cursor: 0 };
    let (first, next) = search_paths(&mut arena, b":/usr/lib/:/lib", b"x.so", 0).unwrap();
    assert_eq!((first.bytes.as_slice(), first.addr), (&b"/usr/lib/x.so"[..], 0x1000));
    let (second, next) = search_paths(&mut arena, b":/usr/lib/:/lib", b"x.so", next).unwrap();
    assert_eq!(second.bytes, b"/lib/x.so");
    assert!(search_paths(&mut arena, b":/usr/lib/:/lib", b"x.so", next).is_none());
}

#[test]
fn dependencies_are_searched_by_run_path_first() {
    let mut arena = ArenaState { base: 0x1000, size: 0x1000, cursor: 0 };
    let runpath = Some(cname(0, b"/r"));
    let rpath = Some(cname(0, b"/p"));
    let mut seen = Vec::new();
    let mut stage = PathStage::RunPath(0);
    loop {
        match resolve_dependency_path(&mut arena, b"x.so", &runpath, &rpath, stage) {
            PathStep::Probe(name, next) => {
                seen.push(String::from_utf8(name.bytes).unwrap());
                stage = next;
            }
            PathStep::Missing => break,
            PathStep::Take(_) => panic!("no slash in the name"),
        }
    }
    assert_eq!(seen, vec!["/r/x.so", "/p/x.so", "/usr/lib/x.so", "/lib/x.so"]);
    let taken = resolve_dependency_path(&mut arena, b"./x.so", &runpath, &rpath, stage);
    assert!(matches!(taken, PathStep::Take(n) if n.bytes == b"./x.so"));
}

#[test]
fn base_names_have_no_directories() {
    assert_eq!(basename(b"/usr/lib/x.so"), b"x.so");
    assert_eq!(basename(b"x.so"), b"x.so");
    assert_eq!(basename(b"dir/"), b"");
}

#[test]
fn headers_are_read_in_chunks() {
    assert_eq!(read_headers_want(5000, 0), Some(2048));
    assert_eq!(read_headers_want(5000, 4096), Some(904));
    assert_eq!(read_headers_want(5000, 5000), None);
    assert_eq!(read_headers_want(1 << 20, 8192), None);
    assert_eq!(read_headers_got(2048, 0, 100), Some(100));
    assert_eq!(read_headers_got(100, 0, 2048), Some(100));
    assert_eq!(read_headers_got(100, 1, 50), None);
    assert_eq!(read_headers_got(100, 0, 0), None);
}

fn put64(d: &mut [u8], at: usize, v: u64) {
    d[at..at + 8].copy_from_slice(&v.to_le_bytes());
}

/// A shared object in memory: one writable segment of 0x1000 bytes that holds
/// a dynamic section, symbols, strings and a hash table.
fn elf_image() -> Vec<u8> {
    let mut d = vec![0u8; 0x1000];
    d[..7].copy_from_slice(&[0x7f, b'E', b'L', b'F', 2, 1, 1]);
    d[16] = 3;
    d[18] = 62;
    put64(&mut d, 24, 0x40);
    d[32] = 64;
    d[54] = 56;
    d[56] = 3;
    for (i, (t, vaddr, size)) in
        [(1u32, 0u64, 0x1000u64), (2, 0x200, 0x100), (7, 0x900, 0x20)].iter().enumerate()
    {
        let at = 64 + 56 * i;
        d[at..at + 4].copy_from_slice(&t.to_le_bytes());
        d[at + 4] = 6;
        for (k, v) in [*vaddr, *vaddr, *vaddr, *size, *size, 16].iter().enumerate() {
            put64(&mut d, at + 8 + 8 * k, *v);
        }
    }
    let entries = [
        (1u64, 1u64),
        (5, 0x400),
        (6, 0x500),
        (0x6fff_fef5, 0x600),
        (14, 9),
        (29, 14),
        (12, 0x700),
        (25, 0x800),
        (27, 16),
    ];
    for (k, (tag, val)) in entries.iter().enumerate() {
        put64(&mut d, 0x200 + 16 * k, *tag);
        put64(&mut d, 0x208 + 16 * k, *val);
    }
    d[0x400..0x418].copy_from_slice(b"\0libc.so\0x.so\0/opt\0open\0");
    d[0x518] = 19;
    d[0x51c] = 0x12;
    d[0x51e] = 1;
    put64(&mut d, 0x520, 0x40);
    let words: [u32; 8] = [1, 1, 1, 5, u32::MAX, u32::MAX, 1, gnu_hash(b"open") | 1];
    for (k, w) in words.iter().enumerate() {
        d[0x600 + 4 * k..0x604 + 4 * k].copy_from_slice(&w.to_le_bytes());
    }
    put64(&mut d, 0x800, 0x1111);
    put64(&mut d, 0x808, 0x2222);
    d
}

#[test]
fn an_object_is_planned_and_entered() {
    let mut st = state();
    let image = elf_image();
    let mut runs = [Run::empty(); MAX_RTLD_RUNS];
    let plan = plan_object(&st, &image, X, &mut runs).ok().unwrap();
    assert_eq!((plan.envelope.base, plan.envelope.bytes, plan.run_count), (0x6000_0000, 0x1000, 1));
    assert!(check_span(&plan.phdrs));
    let name = cname(0x7000_0000, b"x.so");
    let mem = Memory { start: 0x6000_0000, bytes: &image };
    let lm = load_object_into(&mut st, plan, &name, 5, &mem);
    assert_eq!(st.lib_load_addr, 0x6000_2000);
    assert_eq!((lm.base, lm.map_start, lm.map_end, lm.image_id), (0x6000_0000, 0x6000_0000, 0x6000_1000, 5));
    assert_eq!((lm.entry, lm.phdr, lm.phnum), (0x6000_0040, 0x6000_0040, 3));
    assert_eq!((lm.dynamic, lm.symtab, lm.strtab), (0x6000_0200, 0x6000_0500, 0x6000_0400));
    assert_eq!(lm.soname.as_ref().unwrap().bytes, b"x.so");
    assert_eq!(lm.runpath.as_ref().unwrap().bytes, b"/opt");
    assert_eq!((lm.tls_image, lm.tls_memsz, lm.tls_align), (0x6000_0900, 0x20, 16));
    assert_eq!((lm.nsyms, sym_count(&lm)), (2, 2));
    assert_eq!(resolve_in_handle(&st, &lm, b"open"), Some(0x6000_0040));
    let mut lm = lm;
    assert_eq!(run_init(&mut lm, &mem), vec![0x6000_0700, 0x1111, 0x2222]);
    assert_eq!(run_init(&mut lm, &mem), Vec::<u64>::new());
    assert!(lm.has_flag(INIT_DONE));
}

#[test]
fn objects_that_cannot_be_placed_are_refused() {
    let mut st = state();
    let mut runs = [Run::empty(); MAX_RTLD_RUNS];
    let image = elf_image();
    assert_eq!(plan_object(&st, &image[..40], X, &mut runs).err(), Some(LoadError::NotElf));
    let mut none = image.clone();
    none[64] = 4;
    assert_eq!(plan_object(&st, &none, X, &mut runs).err(), Some(LoadError::NoLoadable));
    let mut rwx = image.clone();
    rwx[68] = 7;
    assert_eq!(plan_object(&st, &rwx, X, &mut runs).err(), Some(LoadError::RunPlanFailed));
    st.lib_load_limit = 0x6000_0800;
    assert_eq!(plan_object(&st, &image, X, &mut runs).err(), Some(LoadError::DsoWindowExhausted));
    st.lib_load_addr = 0;
    st.lib_load_limit = 0;
    assert_eq!(plan_object(&st, &image, X, &mut runs).err(), Some(LoadError::DsoWindowExhausted));
    st.lib_load_addr = u64::MAX - 0xfff;
    st.lib_load_limit = u64::MAX;
    assert_eq!(plan_object(&st, &image, X, &mut runs).err(), Some(LoadError::RunPlanFailed));
}

#[test]
fn symbol_counts_come_from_the_hash_table() {
    let table: [u32; 10] = [2, 1, 1, 5, 0, 0, 1, 0, 2, 5];
    assert_eq!(gnu_hash_max_index(&table), 3);
    let empty: [u32; 4] = [0, 7, 1, 5];
    assert_eq!(gnu_hash_max_index(&empty), 7);
    let mut lm = LinkMap::zeroed();
    lm.dyn_info.symtab = 0x100;
    lm.dyn_info.strtab = 0x100 + 24 * 5;
    apply_dyn_info(&mut lm, &Memory { start: 0, bytes: &[] });
    assert_eq!(lm.nsyms, 5);
}

#[test]
fn finalisers_run_backwards() {
    let mut lm = LinkMap::zeroed();
    lm.fini = 7;
    lm.fini_array = 0x100;
    lm.fini_arraysz = 16;
    let mut bytes = vec![0u8; 16];
    put64(&mut bytes, 0, 1);
    put64(&mut bytes, 8, 2);
    let mem = Memory { start: 0x100, bytes: &bytes };
    assert_eq!(run_fini(&mut lm, &mem), vec![2, 1, 7]);
    assert_eq!(run_fini(&mut lm, &mem), Vec::<u64>::new());
}

#[test]
fn unmapping_depends_on_the_reservation() {
    let mut lm = loaded(0x40, 0x4000_0000, b"x.so", &[], 0);
    lm.image_id = 0;
    assert_eq!(unmap_runtime_object(&mut lm), UnmapAction::Range(0x4000_0000, 0x1000));
    assert_eq!(unmap_runtime_object(&mut lm), UnmapAction::Keep);
    let mut startup = loaded(0x40, 0x4000_0000, b"x.so", &[], STARTUP);
    assert_eq!(unmap_runtime_object(&mut startup), UnmapAction::Keep);
}

#[test]
fn the_main_header_is_found_backwards() {
    let image = elf_image();
    let mem = Memory { start: 0x40_0000, bytes: &image };
    let ehdr = find_main_ehdr_from_at_phdr(&mem, 0x40_0040, 56, 3).unwrap();
    assert_eq!(ehdr.e_phoff, 64);
    assert!(find_main_ehdr_from_at_phdr(&mem, 0x40_0040, 56, 4).is_none());
    assert!(find_main_ehdr_from_at_phdr(&mem, 0x40_0048, 56, 3).is_none());
}

fn auxv(entries: &[(u64, u64)]) -> Vec<Elf64Auxv> {
    entries.iter().map(|(t, v)| Elf64Auxv { a_type: *t, a_val: *v }).collect()
}

#[test]
fn the_initial_stack_is_taken_apart() {
    let words = [2, 100, 101, 0, 200, 0, 3, 0x40, 0, 0];
    let stack = parse_stack(&words).unwrap();
    assert_eq!((stack.argc, stack.argv, stack.envp, stack.auxv), (2, 1, 4, 6));
    assert!(parse_stack(&[5, 0, 0]).is_none());
    assert!(parse_stack(&[0, 0, 1]).is_none());
    assert!(parse_stack(&[]).is_none());
}

#[test]
fn the_auxiliary_vector_is_read_with_the_startup_block() {
    let entries = auxv(&[(3, 0x40), (5, 3), (9, 0x99), (0x2005, 0x8000), (77, 1), (0, 0), (3, 1)]);
    let mut info = parse_auxv(&entries, 0x555);
    assert_eq!((info.at_phdr, info.at_phnum, info.at_entry, info.startup), (0x40, 3, 0x99, 0x8000));
    assert_eq!(info.raw_auxv, 0x555);
    let mut block = SaltyOSStartupLayoutV1::new(1, 2, 3, 4, 5, 6);
    let image = SaltyOSImageInfoV1::new(1, 0, 0x1000, 0x2000, 0);
    block.push_mapped_image(image, b"libc.so");
    info.apply_startup(&SaltyOSStartupLayoutV1::zeroed());
    assert_eq!(info.dso_window_base, 0);
    info.apply_startup(&block);
    assert_eq!((info.ipc_buffer_vaddr, info.dso_window_base, info.cap_table_ptr), (1, 3, 5));
    assert_eq!(info.mapped_images(&block).len(), 1);
    let mut layout = SaltyOSCspaceLayoutV1::zeroed();
    assert!(info.cspace_layout(&layout).is_none());
    layout.version = 1;
    assert!(info.cspace_layout(&layout).is_some());
    let entry = SaltyOSCapEntryV1 { role_id: 1, slot: 44, rights: 0, flags: 0 };
    assert_eq!((info.cap_slot(Some(entry)), info.cap_slot(None)), (44, 0));
    info.startup = 0;
    assert!(info.mapped_images(&block).is_empty());
}

#[test]
fn the_linker_is_chosen_by_image_kind() {
    let mut info = parse_auxv(&[], 0);
    assert_eq!(rtld_main(&info), StartupKind::Unsupported);
    info.at_phdr = 1;
    info.at_phnum = 1;
    assert_eq!(rtld_main(&info), StartupKind::Elf);
    info.main_image.kind = 2;
    assert_eq!(rtld_main(&info), StartupKind::Pe);
}

#[test]
fn the_main_program_is_entered() {
    let image = elf_image();
    let mem = Memory { start: 0x40_0000, bytes: &image };
    let mut info = parse_auxv(&[], 0);
    info.at_phdr = 0x40_0040;
    info.at_phent = 56;
    info.at_phnum = 3;
    info.at_entry = 0x40_0040;
    let phdrs = vec![phdr(1, 0, 0x1000, 0x1000), phdr(2, 0x200, 0x100, 0x100)];
    let lm = setup_main_object(0x20, &info, phdrs, cname(0, b"<main>"), &mem).ok().unwrap();
    assert_eq!((lm.base, lm.e_type, lm.entry), (0x40_0000, 3, 0x40_0040));
    assert_eq!((lm.symtab, lm.soname.is_none()), (0x40_0500, true));
    let by_phdr = vec![phdr(6, 0x40_0040, 0, 0)];
    let lm = setup_main_object(0x20, &info, by_phdr, cname(0, b"<main>"), &mem).ok().unwrap();
    assert_eq!((lm.base, lm.e_type), (0, 2));
    info.at_phnum = 9;
    let missing = setup_main_object(0x20, &info, vec![], cname(0, b"<main>"), &mem);
    assert_eq!(missing.err(), Some(StartupError::NoMainHeader));
}

fn preloaded(kind: u32, base: u64, size: u64, name: &[u8]) -> SaltyOSMappedImageV1 {
    let mut m = SaltyOSMappedImageV1::zeroed();
    m.image = SaltyOSImageInfoV1::new(kind, 0, base, size, 0);
    m.set_name(name);
    m
}

#[test]
fn preloaded_objects_are_entered_once() {
    let mut st = state();
    let image = elf_image();
    let m = preloaded(1, 0x5000_0000, 0x1000, b"libx.so");
    assert_eq!(seed_preloaded_object(&st, &m), Ok(true));
    let mem = Memory { start: 0x5000_0000, bytes: &image };
    let lm = setup_preloaded_object(0x40, &m, 0x99, X, &mem).ok().unwrap();
    assert_eq!((lm.base, lm.entry, lm.map_end), (0x5000_0000, 0x5000_0040, 0x5000_1000));
    assert_eq!(lm.soname.as_ref().unwrap().bytes, b"x.so");
    add_startup_object(&mut st, lm, 0x40);
    assert!(st.objects[3].has_flag(STARTUP));
    assert_eq!(seed_preloaded_object(&st, &m), Ok(false));
    assert_eq!(seed_preloaded_object(&st, &preloaded(2, 1, 1, b"a.dll")), Ok(false));
    let empty = Memory { start: 0, bytes: &[] };
    let none = preloaded(1, 0, 0, b"a");
    let refused = setup_preloaded_object(0, &none, 0, X, &empty).err();
    assert_eq!(refused, Some(StartupError::InvalidMetadata));
    let junk = [0u8; 16];
    let mem = Memory { start: 0x5000_0000, bytes: &junk };
    let bad = preloaded(1, 0x5000_0000, 16, b"a");
    assert_eq!(setup_preloaded_object(0, &bad, 0, X, &mem).err(), Some(StartupError::InvalidImage));
    let mut cut = image.clone();
    cut[56] = 200;
    let mem = Memory { start: 0x5000_0000, bytes: &cut };
    assert_eq!(setup_preloaded_object(0, &m, 0, X, &mem).err(), Some(StartupError::InvalidPhdrs));
    while st.objects.len() < 16 {
        st.objects.push(LinkMap::zeroed());
    }
    let more = preloaded(1, 1, 1, b"more.so");
    assert_eq!(seed_preloaded_object(&st, &more), Err(StartupError::TooManyObjects));
}

#[test]
fn startup_needs_are_met_transitively() {
    let mut st = state();
    st.objects[2] = object(0x30, 0x3000_0000, b"libc.so", &[], &[b"libm.so", b"libc.so"]);
    let mut cursor = NeedCursor { object: 1, need: 0 };
    match resolve_startup_dependencies(&st, &mut cursor) {
        StartupNeed::Load(name) => assert_eq!(name.bytes, b"libm.so"),
        _ => panic!("a need is not met"),
    }
    add_startup_object(&mut st, object(0, 0x4000_0000, b"libm.so", &[], &[b"libq.so"]), 0x40);
    match resolve_startup_dependencies(&st, &mut cursor) {
        StartupNeed::Load(name) => assert_eq!(name.bytes, b"libq.so"),
        _ => panic!("a need is not met"),
    }
    add_startup_object(&mut st, object(0, 0x5000_0000, b"libq.so", &[], &[]), 0x50);
    assert!(matches!(resolve_startup_dependencies(&st, &mut cursor), StartupNeed::Done));
    assert_eq!(call_dso_inits(&st), vec![4, 3, 2]);
    st.objects[3].set_flag(INIT_DONE);
    assert_eq!(call_dso_inits(&st), vec![4, 2]);
}

#[test]
fn the_library_window_is_given_or_behind_the_program() {
    let mut st = state();
    let mut info = parse_auxv(&[], 0);
    info.dso_window_base = 0x5000_0000;
    info.dso_window_size = 0x1000;
    init_shared_lib_window(&mut st, &info);
    assert_eq!((st.lib_load_addr, st.lib_load_limit), (0x5000_0000, 0x5000_1000));
    info.dso_window_base = 0;
    st.objects[1].entry = 0x2000_0123;
    st.objects[0].phdr = 1;
    st.objects[0].phnum = 1;
    st.objects[0].tables.phdrs.push(phdr(1, 0x100, 0x10, 0x1100));
    init_shared_lib_window(&mut st, &info);
    assert_eq!((st.lib_load_addr, st.lib_load_limit), (0x2000_2000, 0));
}

#[test]
fn only_whole_pages_become_read_only() {
    let mut lm = LinkMap::zeroed();
    lm.base = 0x1000_0000;
    lm.phdr = 1;
    lm.phnum = 2;
    lm.tables.phdrs = vec![phdr(0x6474e552, 0x1800, 0, 0x2900), phdr(0x6474e552, 0x8100, 0, 0x100)];
    assert_eq!(apply_relro(&lm), vec![(0x1000_2000, 2)]);
    lm.phdr = 0;
    assert!(apply_relro(&lm).is_empty());
}

#[test]
fn startup_tls_is_numbered_in_order() {
    let mut st = state();
    st.objects[1].tls_memsz = 24;
    st.objects[1].tls_align = 8;
    st.objects[2].tls_memsz = 8;
    st.objects[2].tls_align = 16;
    assert!(check_startup_tls(&st));
    setup_tls(&mut st);
    assert_eq!((st.objects[0].tls_mod_id, st.objects[1].tls_mod_id, st.objects[2].tls_mod_id), (0, 1, 2));
    assert_eq!((st.tls_layout.size, st.tls_layout.align), (32, 16));
    assert_eq!(st.next_dynamic_tls_module_id, 17);
    st.objects[1].tls_memsz = u64::MAX;
    assert!(!check_startup_tls(&st));
}

#[test]
fn exported_symbols_are_found_by_hash() {
    let mut st = state();
    assert_eq!(find_extern_symbol(&st, b"f"), None);
    st.objects[2].tables.gnu_hash =
        Some(vec![1, 1, 1, 5, u32::MAX, u32::MAX, 1, gnu_hash(b"f") & !1, gnu_hash(b"g") | 1]);
    assert_eq!(find_extern_symbol(&st, b"g"), Some(0x3000_0032));
    st.objects[2].tables.symtab[1].st_value = 0;
    assert_eq!(find_extern_symbol(&st, b"f"), None);
}

fn with_tls(mut lm: LinkMap, memsz: u64) -> LinkMap {
    lm.tls_memsz = memsz;
    lm.tls_filesz = 8;
    lm.tls_image = 0x4000_0900;
    lm
}

#[test]
fn dynamic_tls_modules_get_fresh_ids() {
    let mut st = state();
    st.chain.push(with_tls(loaded(0x40, 0x4000_0000, b"x.so", &[], 0), 100));
    st.chain.push(with_tls(loaded(0x50, 0x5000_0000, b"y.so", &[], 0), 100));
    assert_eq!(register_runtime_module(&mut st, 0), 17);
    assert_eq!(register_runtime_module(&mut st, 1), 18);
    assert_eq!(st.next_dynamic_tls_module_id, 19);
    assert_eq!(find_runtime_module(&st, 18).unwrap().align, 1);
    assert!(find_runtime_module(&st, 19).is_none());
}

#[test]
fn tls_addresses_are_reached_step_by_step() {
    let mut st = state();
    st.chain.push(with_tls(loaded(0x40, 0x4000_0000, b"x.so", &[], 0), 100));
    register_runtime_module(&mut st, 0);
    assert_eq!(tls_addr_impl(&st, &None, 3, 0), TlsStep::Static);
    assert_eq!(tls_addr_impl(&st, &None, 18, 0), TlsStep::Missing);
    assert_eq!(tls_addr_impl(&st, &None, 17, 0), TlsStep::MapVector(4096));
    let mut dtv = new_dtv(0x8000);
    assert_eq!((dtv.generation, dtv.slots.len()), (1, 32));
    assert_eq!(tls_addr_impl(&st, &Some(new_dtv(0x8000)), 17, 0), TlsStep::MapBlock(0, 4096));
    let module = find_runtime_module(&st, 17).unwrap();
    let fill = take_block(&mut dtv, 0, &module, 0x9000, 4096);
    assert_eq!((fill.copy, fill.clear_at, fill.clear), (8, 0x9008, 92));
    st.chain[0].tls_mod_id = 17 + 40;
    let dtv = Some(dtv);
    assert_eq!(tls_addr_impl(&st, &dtv, 57, 0), TlsStep::GrowVector(4096, 64));
    let mut dtv = dtv.unwrap();
    assert_eq!(grow_dtv(&mut dtv, 0xa000, 64), (0x8000, 4096));
    assert_eq!((dtv.generation, dtv.slots.len(), dtv.slots[0].block), (2, 64, 0x9000));
    st.chain[0].tls_mod_id = 17;
    let dtv = Some(dtv);
    assert_eq!(tls_addr_impl(&st, &dtv, 17, 5), TlsStep::Found(0x9005));
    assert_eq!(tls_destroy_impl(dtv.unwrap()), vec![(0x9000, 4096), (0xa000, 4096)]);
    assert_eq!(dtv_total_bytes(256), 8192);
}

#[test]
fn tls_descriptors_are_bound() {
    let mut st = state();
    st.tls_modules[0].mod_id = 1;
    st.tls_modules[0].offset = 0x40;
    st.objects[2].tls_mod_id = 1;
    st.objects[2].tables.symtab[1].st_info = 0x16;
    let mut lm = with_tls(loaded(0x40, 0x4000_0000, b"x.so", &[(b"own", 8)], 0), 100);
    lm.tables.symtab[1].st_info = 0x16;
    let f = wants(&mut lm, b"f", 0x16);
    let gone = wants(&mut lm, b"gone", 0x26);
    lm.tls_mod_id = 17;
    for (off, sym, addend) in [(0u64, 0u64, 5i64), (16, f as u64, 2), (32, 1, 1), (48, gone as u64, 0)] {
        lm.tables.rela.push(Elf64Rela { r_offset: off, r_info: sym << 32 | 36, r_addend: addend });
    }
    // a lookup by name alone would find the undefined symbol of the object itself
    lm.tables.symtab[f as usize].st_info = 0x10;
    lm.tables.symtab[gone as usize].st_info = 0x20;
    st.chain.push(lm);
    let res = TlsdescResolvers { fixed: 0x1, dynamic: 0x2 };
    let (writes, ok) = bind_tlsdesc(&mut st, 0, X, res);
    assert!(ok);
    assert_eq!(
        writes,
        vec![
            RelocWrite::Pair { addr: 0x4000_0000, first: 1, second: 5 },
            RelocWrite::Pair { addr: 0x4000_0010, first: 1, second: 0x40 + 0x31 + 2 },
            RelocWrite::Pair { addr: 0x7000_0000, first: 17, second: 9 },
            RelocWrite::Pair { addr: 0x4000_0020, first: 2, second: 0x7000_0000 },
        ]
    );
    st.arena.size = 20;
    assert!(!bind_tlsdesc(&mut st, 0, X, res).1);
    assert_eq!(tlsdesc_offset(0x9000, 0xa000), 0u64.wrapping_sub(0x1000));
    assert_eq!(tlsdesc_offset(0, 5), 0);
}

#[test]
fn frames_come_from_the_next_untyped_that_has_one() {
    let mut next = 5;
    let results = [RetypeResult::TryNext(9), RetypeResult::TryNext(6), RetypeResult::Retyped];
    assert_eq!(alloc_frame_slot(&mut next, 10, 1, &results), Some(Ok(())));
    assert_eq!(next, 7);
    assert_eq!(alloc_frame_slot(&mut next, 10, 1, &[RetypeResult::Failed(3)]), Some(Err(3)));
    assert_eq!(alloc_frame_slot(&mut next, 10, 1, &results[..1]), None);
    assert_eq!(alloc_frame_slot(&mut next, 8, 1, &results), Some(Err(9)));
    assert_eq!(alloc_frame_slot(&mut next, 7, 1, &results), Some(Err(1)));
    for err in [
        TronaError::OutOfMemory,
        TronaError::InvalidCapability,
        TronaError::InvalidOperation,
        TronaError::NotFound,
    ] {
        assert_eq!(retype_result(err, 8), RetypeResult::TryNext(8));
    }
    assert_eq!(retype_result(TronaError::Success, 0), RetypeResult::Retyped);
    assert_eq!(retype_result(TronaError::Busy, 4), RetypeResult::Failed(4));
    assert_eq!(alloc_and_map_range(50, 0x1000, 2), vec![(50, 0x1000), (51, 0x2000)]);
    let retype = invoke_untyped_retype(5, 3, 60);
    assert_eq!((retype.label, retype.a2, retype.a3, retype.a4), (InvokeLabel::UntypedRetype, 3, 0, 60));
    let map = map_frame(60, 0x1000, 3);
    assert_eq!((map.target, map.a2, map.a3, map.a4), (Target::SelfVspace, 60, 0x1000, 3));
    assert_eq!(unmap_page(0x1000).label, InvokeLabel::VspaceUnmap);
}

#[test]
fn runs_are_mapped_without_write_and_execute() {
    assert!(alias_rights(ImageRunKind::Text).execute);
    assert!(!alias_rights(ImageRunKind::Data).execute);
    let rodata = Run {
        va: 0x1000,
        bytes: 0x1000,
        prot: Prot(1),
        kind: ImageRunKind::RoData,
        source: RunSource::PrivateFromCodeMo { mo_offset_pages: 2, file_bytes: 0x300 },
    };
    assert!(run_is_representable(&rodata));
    match place_run(&rodata) {
        PlaceRun::FromMo { prot, private, offset, clear_at, clear, protect, .. } => {
            assert_eq!((prot, private, offset), (3, true, 0x2000));
            assert_eq!((clear_at, clear, protect), (0x1300, 0xd00, Some(1)));
        }
        _ => panic!("not from the code object"),
    }
    let text = Run {
        kind: ImageRunKind::Text,
        prot: Prot(5),
        source: RunSource::CleanFromCodeMo { mo_offset_pages: 0 },
        ..rodata
    };
    match place_run(&text) {
        PlaceRun::FromMo { prot, kind, private, rights, clear, protect, .. } => {
            assert_eq!(kind, ImageRunKind::Text);
            assert_eq!((prot, private, rights.execute, clear, protect), (5, false, true, 0, None));
        }
        _ => panic!("not from the code object"),
    }
    let bss = Run { source: RunSource::ZeroFill, kind: ImageRunKind::Bss, prot: Prot(3), ..rodata };
    assert!(matches!(
        place_run(&bss),
        PlaceRun::Anon { prot: 3, kind: ImageRunKind::Bss, va: 0x1000, bytes: 0x1000 }
    ));
    assert_eq!(placement_error(SinkError::Alias), LoadError::ImageAliasFailed);
    assert_eq!(reserved_image(7).value0, 7);
}

#[test]
fn slots_are_set_up_from_the_layout() {
    let mut st = RtldState::zeroed();
    assert_eq!(init_state_from_auxv(&mut st, None, 1), Err(InitError::MissingLayout));
    let mut layout = SaltyOSCspaceLayoutV1::zeroed();
    layout.rtld_untyped_base = 10;
    layout.rtld_untyped_count = 4;
    layout.frame_slot_base = 100;
    layout.frame_slot_limit = 131;
    assert_eq!(init_state_from_auxv(&mut st, Some(&layout), 1), Err(InitError::WindowTooSmall));
    layout.frame_slot_limit = 200;
    assert_eq!(init_state_from_auxv(&mut st, Some(&layout), 77), Ok(100));
    assert_eq!((st.next_untyped_slot, st.untyped_limit, st.next_free_slot, st.sc_cap), (10, 14, 132, 77));
    let exports = publish_exports(&st);
    assert_eq!((exports.next_free_slot, exports.sc_cap), (132, 77));
}

#[test]
fn the_runtime_block_describes_the_state() {
    let mut st = state();
    st.objects[2].tls_memsz = 8;
    st.objects[2].tls_image = 0x3000_0900;
    setup_tls(&mut st);
    st.next_free_slot = 9;
    st.pe_tls_module_count = 1;
    st.pe_tls_modules[0].tls_index = 4;
    let mut info = parse_auxv(&[], 0x66);
    info.ipc_buffer_vaddr = 0x77;
    let runtime = build_runtime(&st, &info);
    assert!(runtime.is_valid());
    assert_eq!((runtime.auxv_ptr, runtime.ipc_buffer_vaddr, runtime.next_free_slot), (0x66, 0x77, 9));
    assert_eq!((runtime.tls_module_count, runtime.tls_template), (1, 0x3000_0900));
    assert_eq!((runtime.tls_modules[0].module_id, runtime.tls_modules[1].module_id), (1, 0));
    assert_eq!((runtime.pe_tls_module_count, runtime.pe_tls_modules[0].tls_index), (1, 4));
    let table = RtldDlfcnV1 {
        dlopen: 1,
        dlsym_from: 2,
        dlclose: 3,
        dladdr: 4,
        dl_iterate_phdr: 5,
        tls_addr: 6,
        tls_destroy: 7,
    };
    let block = build_loader_runtime(table);
    assert!(block.is_valid());
    assert_eq!(block.dlfcn.tls_destroy, 7);
}

#[test]
fn the_linker_enters_itself() {
    let image = elf_image();
    let mem = Memory { start: 0x1000_0000, bytes: &image };
    let ehdr = find_main_ehdr_from_at_phdr(&mem, 0x1000_0040, 56, 3).unwrap();
    let phdrs = vec![phdr(7, 0x900, 0x10, 0x20)];
    let lm = setup_rtld_object(0x10, 0x1000_0000, &ehdr, 0x1000_0040, phdrs, 0x1000_0200, cname(0, b"<rtld>"), &mem);
    assert!(lm.has_flag(RELOCATED) && lm.has_flag(INIT_DONE));
    assert_eq!((lm.symtab, lm.entry, lm.tls_memsz), (0x1000_0500, 0x1000_0040, 0x20));
}

#[test]
fn numbers_and_errors_are_printed() {
    assert_eq!(print_hex(0), b"0x0");
    assert_eq!(print_hex(0xdead_beef), b"0xdeadbeef");
    assert_eq!(print_dec(0), b"0");
    assert_eq!(print_dec(u64::MAX), b"18446744073709551615");
    assert_eq!(print_trona_error(TronaError::NotFound, 6), b"KERNITE_ERR_NOT_FOUND (0x6)");
    assert_eq!(print_trona_error(TronaError::Unknown, 255), b"KERNITE_UNKNOWN (0xff)");
}

#[test]
fn memory_helpers_zero_and_copy() {
    let mut a = [1u8; 4];
    memcpy(&mut a, b"xyz", 2);
    assert_eq!(&a, b"xy\x01\x01");
    memzero(&mut a);
    assert_eq!(a, [0; 4]);
    assert_eq!((pages_for(0), pages_for(1), pages_for(4097)), (0, 1, 2));
}

fn plan_of(runs: &[Run]) -> RunPlan<'_> {
    RunPlan {
        envelope: ImageEnvelope { base: 0x1000, bytes: 0x2000, load_base: 0, entry_pc: 0 },
        runs,
        carves: &[],
    }
}

/// Refuses a call, and counts aborts.
struct Refusing {
    inner: SelfSink,
    at: usize,
    aborts: usize,
}

impl PlacementSink for Refusing {
    type CodeMo = CapRef;
    type Error = u32;

    fn begin_image(
        &mut self,
        code_mo: CapRef,
        envelope: ImageEnvelope,
        carves: &[Carve],
    ) -> Result<ImageId, u32> {
        self.inner.begin_image(code_mo, envelope, carves).map_err(|_| 100)
    }

    fn place_run(&mut self, image: ImageId, run: &Run) -> Result<(), u32> {
        if self.inner.steps.len() == self.at {
            return Err(self.at as u32 + 1);
        }
        self.inner.place_run(image, run).map_err(|_| 200)
    }

    fn finish_image(&mut self, _image: ImageId) -> Result<(), u32> {
        Err(300)
    }

    fn abort_image(&mut self, image: ImageId) {
        self.aborts += 1;
        self.inner.abort_image(image);
    }
}

#[test]
fn the_error_of_the_sink_is_returned() {
    let run = Run { bytes: 0x1000, ..Run::empty() };
    for (reservation, at, error, aborts) in
        [(None, 0, 100, 0), (Some(4), 0, 1, 1), (Some(4), 1, 2, 1), (Some(4), 2, 300, 1)]
    {
        let mut sink = Refusing { inner: SelfSink::new(reservation), at, aborts: 0 };
        let code = CapRef::flat(9);
        assert_eq!(map_image(&mut sink, code, &plan_of(&[run, run])), Err(error));
        assert_eq!(sink.aborts, aborts);
    }
}

#[test]
fn an_image_is_placed_run_by_run_or_not_at_all() {
    let bss = Run {
        va: 0x1000,
        bytes: 0x1000,
        prot: Prot(3),
        kind: ImageRunKind::Bss,
        source: RunSource::ZeroFill,
    };
    let code = CapRef::flat(9);
    let mut sink = SelfSink::new(Some(44));
    assert_eq!(place_image(&mut sink, code, &plan_of(&[bss, bss])), Ok(44));
    assert_eq!(sink.steps.len(), 2);
    let mut sink = SelfSink::new(None);
    assert_eq!(place_image(&mut sink, code, &plan_of(&[bss])), Err(SinkError::Reserve));
    let mut sink = SelfSink::new(Some(44));
    let bad = Run { bytes: u64::MAX, ..bss };
    assert_eq!(place_image(&mut sink, code, &plan_of(&[bss, bad])), Err(SinkError::MapRun));
    assert!(sink.steps.is_empty());
}
