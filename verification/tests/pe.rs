use trona::loader::boot::pe_loader::{
    pe_compute_load_span, pe_count_load_pages, pe_get_imports, pe_is_pe, pe_load,
    pe_load_is_representable, pe_resolve_imports, pe_validate, rva_to_file_offset,
    write_u64_to_page, PeLoadError,
};
use trona::loader::elf::header::Arch;
use trona::loader::elf::reloc::RelocWrite;
use trona::loader::image::{Carve, ImageRunKind, Run};
use trona::kernel::core_types::{SaltyOSImageInfoV1, SaltyOSMappedImageV1};
use trona::loader::link_map::RtldState;
use trona::loader::pe::export::{
    ascii_eq_ignore_case, find_module, module_basename, resolve_export, resolve_import,
    ImportSymbol, PeModuleImage,
};
use trona::loader::pe::header::{validate, PeError};
use trona::loader::pe::import::{
    hint_name_hint, hint_name_name, hint_name_rva, is_ordinal, iter_import_descriptors, ordinal,
};
use trona::loader::pe::memory_image::{plan_memory_image, PeCopy, PeMemoryImageError, MAX_COPIES};
use trona::loader::pe::reloc::apply_base_relocations;
use trona::loader::pe::run_plan::{build_carves, plan_pe, PePlanError};
use trona::loader::rtld::pe::imports::{image_dependencies, link_image};
use trona::loader::rtld::pe::modules::{
    entry_point, find_loaded_module_idx, init_builtin_modules, reserve_space,
    seed_preloaded_module, BuiltinInit, LoadedPeModules, PeStartError, Reservation,
};
use trona::loader::rtld::pe::order::initialization_order;
use trona::loader::rtld::pe::tls::{
    find_tls, image_has_tls, install_tls_vector, needs_tls_setup, publish_pe_tls_module,
    run_tls_callbacks, setup_module_tls, tls_block, tls_vector_size, write_tls_vector_entry,
};
use trona::loader::rtld::io::parse_auxv;

const X: Arch = Arch::X86_64;

fn put16(d: &mut [u8], at: usize, v: u16) {
    d[at..at + 2].copy_from_slice(&v.to_le_bytes());
}

fn put32(d: &mut [u8], at: usize, v: u32) {
    d[at..at + 4].copy_from_slice(&v.to_le_bytes());
}

fn put64(d: &mut [u8], at: usize, v: u64) {
    d[at..at + 8].copy_from_slice(&v.to_le_bytes());
}

fn put_dir(d: &mut [u8], idx: usize, rva: u32, size: u32) {
    put32(d, 200 + 8 * idx, rva);
    put32(d, 204 + 8 * idx, size);
}

fn put_section(d: &mut [u8], idx: usize, rva: u32, flags: u32) {
    let at = 328 + 40 * idx;
    put32(d, at + 8, 0x1000);
    put32(d, at + 12, rva);
    put32(d, at + 16, 0x1000);
    put32(d, at + 20, rva);
    put32(d, at + 36, flags);
}

/// An image of four pages: headers, text, read-only data, data. File offsets are
/// the same as RVAs.
fn pe_image() -> Vec<u8> {
    let mut d = vec![0u8; 0x4000];
    d[0] = b'M';
    d[1] = b'Z';
    put32(&mut d, 60, 64);
    d[64..68].copy_from_slice(b"PE\0\0");
    put16(&mut d, 68, 0x8664);
    put16(&mut d, 70, 3);
    put16(&mut d, 84, 240);
    put16(&mut d, 88, 0x20b);
    put32(&mut d, 104, 0x1010);
    put64(&mut d, 112, 0x1_4000_0000);
    put32(&mut d, 120, 0x1000);
    put32(&mut d, 124, 0x200);
    put32(&mut d, 144, 0x4000);
    put32(&mut d, 148, 0x1000);
    put32(&mut d, 196, 16);
    put_section(&mut d, 0, 0x1000, 0x6000_0020);
    put_section(&mut d, 1, 0x2000, 0x4000_0040);
    put_section(&mut d, 2, 0x3000, 0xc000_0040);
    d
}

/// Exports `Alpha` (ordinal 5) at 0x1100 and `Beta` (ordinal 6), which forwards
/// to `other.Gamma`.
fn with_exports(mut d: Vec<u8>) -> Vec<u8> {
    put_dir(&mut d, 0, 0x2000, 0x100);
    put32(&mut d, 0x2010, 5);
    put32(&mut d, 0x2014, 2);
    put32(&mut d, 0x2018, 2);
    put32(&mut d, 0x201c, 0x2040);
    put32(&mut d, 0x2020, 0x2050);
    put32(&mut d, 0x2024, 0x2060);
    put32(&mut d, 0x2040, 0x1100);
    put32(&mut d, 0x2044, 0x2090);
    put32(&mut d, 0x2050, 0x2070);
    put32(&mut d, 0x2054, 0x2080);
    put16(&mut d, 0x2062, 1);
    d[0x2070..0x2075].copy_from_slice(b"Alpha");
    d[0x2080..0x2084].copy_from_slice(b"Beta");
    d[0x2090..0x209b].copy_from_slice(b"other.Gamma");
    d
}

fn gamma() -> Vec<u8> {
    let mut d = with_exports(pe_image());
    d[0x2070..0x2075].copy_from_slice(b"Gamma");
    d
}

/// Imports `Alpha` by name and ordinal 5 from `dll`; slots at 0x3000.
fn with_imports(mut d: Vec<u8>, dll: &[u8]) -> Vec<u8> {
    put_dir(&mut d, 1, 0x2200, 40);
    put32(&mut d, 0x2200, 0x2240);
    put32(&mut d, 0x220c, 0x2280);
    put32(&mut d, 0x2210, 0x3000);
    put64(&mut d, 0x2240, 0x2260);
    put64(&mut d, 0x2248, 0x8000_0000_0000_0005);
    put64(&mut d, 0x3000, 0x2260);
    put64(&mut d, 0x3008, 0x8000_0000_0000_0005);
    d[0x2262..0x2267].copy_from_slice(b"Alpha");
    d[0x2280..0x2280 + dll.len()].copy_from_slice(dll);
    d
}

#[test]
fn rejects_non_pe_bytes() {
    let mut copies = [PeCopy::empty(); MAX_COPIES];
    assert!(plan_memory_image(b"hello world, not a PE\0\0\0\0\0\0\0", X, &mut copies).is_err());
}

#[test]
fn rejects_truncated_dos_header() {
    let mut copies = [PeCopy::empty(); MAX_COPIES];
    assert_eq!(
        plan_memory_image(&[b'M', b'Z'], X, &mut copies),
        Err(PeMemoryImageError::TooSmall)
    );
}

#[test]
fn memory_images_copy_headers_and_sections() {
    let d = pe_image();
    let mut copies = [PeCopy::empty(); MAX_COPIES];
    let (size, headers, entry, n) = plan_memory_image(&d, X, &mut copies).unwrap();
    assert_eq!((size, headers, entry, n), (0x4000, 0x1000, 0x1010, 4));
    assert_eq!((copies[0].src_file_offset, copies[0].dst_rva, copies[0].bytes), (0, 0, 0x1000));
    assert_eq!((copies[3].dst_rva, copies[3].bytes), (0x3000, 0x1000));
    for c in &copies[..n] {
        assert!(c.src_file_offset + c.bytes <= d.len() as u64 && c.dst_rva + c.bytes <= 0x4000);
    }
}

#[test]
fn pe_headers_are_checked_in_order() {
    let good = pe_image();
    let error = |d: &[u8]| validate(d, X).err();
    assert!(error(&good).is_none());
    assert_eq!(error(&good[..10]), Some(PeError::TooSmall));
    let mut bad = good.clone();
    bad[0] = b'X';
    assert_eq!(error(&bad), Some(PeError::BadDosMagic));
    let mut bad = good.clone();
    bad[64] = b'X';
    assert_eq!(error(&bad), Some(PeError::BadPeSignature));
    let mut bad = good.clone();
    put16(&mut bad, 68, 0xaa64);
    assert_eq!(error(&bad), Some(PeError::BadMachine));
    assert!(validate(&bad, Arch::Aarch64).is_ok());
    let mut bad = good.clone();
    put16(&mut bad, 88, 0x10b);
    assert_eq!(error(&bad), Some(PeError::Not64Bit));
    let mut bad = good.clone();
    put16(&mut bad, 70, 0xffff);
    assert_eq!(error(&bad), Some(PeError::SectionOverflow));
}

#[test]
fn directories_and_sections_are_read() {
    let d = with_exports(pe_image());
    let pe = validate(&d, X).ok().unwrap();
    let dir = pe.data_directory(&d, 0).unwrap();
    assert_eq!((dir.virtual_address, dir.size), (0x2000, 0x100));
    assert!(pe.data_directory(&d, 1).is_none());
    assert!(pe.data_directory(&d, 16).is_none());
    let sections = pe.sections(&d);
    assert_eq!(sections.len(), 3);
    assert_eq!(sections[2].virtual_address, 0x3000);
}

#[test]
fn lookup_entries_are_taken_apart() {
    assert!(is_ordinal(0x8000_0000_0000_0005) && !is_ordinal(0x2260));
    assert_eq!(ordinal(0x8000_0000_0001_0005), 5);
    assert_eq!(hint_name_rva(0x2260), 0x2260);
    let d = with_imports(pe_image(), b"a.dll");
    assert_eq!(hint_name_hint(&d, 0x2260), Some(0));
    assert_eq!(hint_name_name(&d, 0x2260), Some(&b"Alpha"[..]));
    assert_eq!(hint_name_name(&d, 0x4000), None);
    let mut it = iter_import_descriptors(&d, 0x1000_0000, 0x2200, 40);
    let entry = it.next().unwrap();
    assert_eq!(entry.dll_name(), b"a.dll");
    assert_eq!((entry.lookup_table_rva(), entry.iat_ptr()), (0x2240, 0x1000_3000));
    assert!(it.next().is_none());
}

#[test]
fn module_names_ignore_case_and_directories() {
    assert!(ascii_eq_ignore_case(b"Kernel32.DLL", b"kernel32.dll"));
    assert!(!ascii_eq_ignore_case(b"a", b"ab"));
    assert_eq!(module_basename(b"c:\\win/lib\\a.dll"), b"a.dll");
    let image = pe_image();
    let modules = [PeModuleImage { name: b"lib/User32.dll", base: 0x10, image: &image }];
    assert!(find_module(&modules, b"USER32").is_some());
    assert!(find_module(&modules, b"gdi32").is_none());
}

#[test]
fn exports_resolve_by_name_ordinal_and_forwarder() {
    let a = with_exports(pe_image());
    let b = gamma();
    let modules = [
        PeModuleImage { name: b"a.dll", base: 0x1000_0000, image: &a },
        PeModuleImage { name: b"other.dll", base: 0x2000_0000, image: &b },
    ];
    let by_name = |n: &'static [u8]| resolve_import(&modules, X, b"a.dll", ImportSymbol::Name(n));
    assert_eq!(by_name(b"Alpha"), Some(0x1000_1100));
    assert_eq!(by_name(b"Beta"), Some(0x2000_1100));
    assert_eq!(by_name(b"Delta"), None);
    let ord = resolve_export(&modules, X, &modules[0], ImportSymbol::Ordinal(5));
    assert_eq!(ord, Some(0x1000_1100));
    assert_eq!(resolve_import(&modules, X, b"a.dll", ImportSymbol::Ordinal(4)), None);
    assert_eq!(resolve_import(&modules, X, b"b.dll", ImportSymbol::Ordinal(5)), None);
}

#[test]
fn forwarder_cycles_end() {
    let mut a = with_exports(pe_image());
    a[0x2090..0x2099].copy_from_slice(b"self.Beta");
    a[0x2099] = 0;
    let modules = [PeModuleImage { name: b"self.dll", base: 0x1000, image: &a }];
    assert_eq!(resolve_import(&modules, X, b"self", ImportSymbol::Name(b"Beta")), None);
}

#[test]
fn base_relocations_move_addresses() {
    let mut d = pe_image();
    put32(&mut d, 0x2300, 0x3000);
    put32(&mut d, 0x2304, 12);
    put16(&mut d, 0x2308, 10 << 12 | 0x10);
    put16(&mut d, 0x230a, 0);
    put64(&mut d, 0x3010, 0x1_4000_1234);
    apply_base_relocations(&mut d, 0x2_0000_0000, 0x1_4000_0000, 0x2300, 12);
    assert_eq!(&d[0x3010..0x3018], &0x2_0000_1234u64.to_le_bytes());
}

#[test]
fn a_pe_image_is_planned_by_section() {
    let d = with_imports(pe_image(), b"a.dll");
    let pe = validate(&d, X).ok().unwrap();
    let mut carves = [Carve { rva: 0, bytes: 0 }; 8];
    let n = build_carves(&pe, &d, &d, &mut carves).unwrap();
    assert_eq!(n, 1);
    assert_eq!((carves[0].rva, carves[0].bytes), (0x3000, 0x1000));
    let mut runs = [Run::empty(); 8];
    let (envelope, count) = plan_pe(&pe, &d, 0x1_4000_0000, &carves[..n], &mut runs).unwrap();
    assert_eq!((envelope.base, envelope.bytes), (0x1_4000_0000, 0x4000));
    assert_eq!(envelope.entry_pc, 0x1_4000_1010);
    assert_eq!(runs[1].kind, ImageRunKind::Text);
    for run in &runs[..count] {
        assert!(!(run.prot.contains(2) && run.prot.contains(4)));
    }
    for pair in runs[..count].windows(2) {
        assert_eq!(pair[0].va + pair[0].bytes, pair[1].va);
        assert_ne!(pair[0].prot, pair[1].prot);
    }
    assert!(runs[count - 1].prot.contains(2));
    assert_eq!(
        plan_pe(&pe, &d, 0, &carves[..n], &mut runs[..1]),
        Err(PePlanError::TooManyRuns)
    );
    let text = [Carve { rva: 0x1000, bytes: 8 }];
    assert_eq!(plan_pe(&pe, &d, 0, &text, &mut runs), Err(PePlanError::WriteExecPage));
    assert_eq!(build_carves(&pe, &d, &d, &mut carves[..0]), Err(PePlanError::TooManyCarves));
    assert_eq!(build_carves(&pe, &d, &d[..0x2100], &mut carves), Err(PePlanError::InvalidImage));
}

#[test]
fn boot_pe_images_are_validated_and_loaded() {
    let d = pe_image();
    assert!(pe_is_pe(&d));
    let info = pe_validate(&d, X).ok().unwrap();
    assert_eq!((info.entry_point_rva, info.number_of_sections), (0x1010, 3));
    assert_eq!(pe_validate(&d[..20], X).err(), Some(PeLoadError::TooSmall));
    assert_eq!(pe_validate(&d, Arch::Aarch64).err(), Some(PeLoadError::BadArch));
    assert_eq!(pe_compute_load_span(&d, X), 0x4000);
    assert_eq!(pe_count_load_pages(&d, X), 4);
    assert_eq!(rva_to_file_offset(&d, &info, 0x2345), Some(0x2345));
    assert!(pe_load_is_representable(&d, 0x1000_0000, X));
    let plan = pe_load(&d, 0x1000_0000, X);
    let result = plan.outcome.ok().unwrap();
    assert_eq!((result.entry, result.base), (0x1000_1010, 0x1000_0000));
    assert_eq!(plan.pages.len(), 4);
    assert!(plan.pages[1].flags.executable && !plan.pages[1].flags.writable);
    assert!(plan.pages[3].flags.writable && !plan.pages[3].flags.executable);
}

#[test]
fn boot_imports_are_listed_and_requested() {
    let d = with_imports(pe_image(), b"a.dll");
    let info = pe_validate(&d, X).ok().unwrap();
    let imports = pe_get_imports(&d, &info);
    assert_eq!(imports.count, 1);
    assert_eq!(&imports.names[0][..imports.name_lens[0]], b"a.dll");
    let plan = pe_load(&d, 0x1000_0000, X);
    let (requests, done) = pe_resolve_imports(&d, &info, 0x1000_0000, &plan.pages);
    assert!(done.is_ok());
    assert_eq!(requests.len(), 2);
    assert_eq!((requests[0].dll_offset, requests[0].dll_len), (0x2280, 5));
    assert_eq!(requests[0].name, Some((0x2262, 5)));
    assert_eq!((requests[1].name, requests[1].ordinal), (None, 5));
    assert_eq!(requests[1].slot, Some((3, 8)));
}

#[test]
fn words_are_written_or_added_to_pages() {
    let mut page = vec![0u8; 4096];
    write_u64_to_page(&mut page, 8, 5, false);
    write_u64_to_page(&mut page, 8, 7, true);
    assert_eq!(&page[8..16], &12u64.to_le_bytes());
}

fn mapped(kind: u32, base: u64, name: &[u8]) -> SaltyOSMappedImageV1 {
    let mut m = SaltyOSMappedImageV1::zeroed();
    m.image = SaltyOSImageInfoV1::new(kind, 0, base, 0x4000, base + 0x1010);
    m.set_name(name);
    m
}

fn two_modules() -> LoadedPeModules {
    let mut modules = LoadedPeModules::zeroed();
    assert_eq!(seed_preloaded_module(&mut modules, &mapped(2, 0x1000_0000, b"A.dll")), Ok(true));
    assert_eq!(seed_preloaded_module(&mut modules, &mapped(2, 0x2000_0000, b"other.dll")), Ok(true));
    modules
}

#[test]
fn preloaded_modules_are_taken_over_once() {
    let mut modules = two_modules();
    assert_eq!(seed_preloaded_module(&mut modules, &mapped(2, 0x3000_0000, b"a.DLL")), Ok(false));
    assert_eq!(seed_preloaded_module(&mut modules, &mapped(1, 0x3000_0000, b"x.so")), Ok(false));
    assert_eq!(
        seed_preloaded_module(&mut modules, &mapped(2, 0, b"x.dll")),
        Err(PeStartError::InvalidMetadata)
    );
    assert_eq!(find_loaded_module_idx(&modules, b"dir/OTHER.DLL"), Some(1));
    assert_eq!(find_loaded_module_idx(&modules, b"other"), None);
    for i in 0..14u8 {
        assert!(modules.push(&[b'm', i], 1, 1, 1).is_ok());
    }
    assert_eq!(modules.push(b"last", 1, 1, 1), Err(PeStartError::TooManyModules));
    assert_eq!(modules.modules[0].name_bytes(), b"A.dll");
}

#[test]
fn images_are_linked_to_their_modules() {
    let a = with_exports(pe_image());
    let b = gamma();
    let modules = two_modules();
    let images = [
        PeModuleImage { name: b"A.dll", base: 0x1000_0000, image: &a },
        PeModuleImage { name: b"other.dll", base: 0x2000_0000, image: &b },
    ];
    let main = with_imports(pe_image(), b"a.dll");
    let (writes, done) = link_image(&modules, &images, X, &main, 0x5000_0000);
    assert_eq!(done, Ok(()));
    assert_eq!(
        writes,
        vec![
            RelocWrite::Word { addr: 0x5000_3000, value: 0x1000_1100 },
            RelocWrite::Word { addr: 0x5000_3008, value: 0x1000_1100 },
        ]
    );
    let missing = with_imports(pe_image(), b"none.dll");
    assert_eq!(link_image(&modules, &images, X, &missing, 0).1, Err(PeStartError::NotPreloaded));
    assert_eq!(
        image_dependencies(&modules, X, &missing, 0),
        Err(PeStartError::NotPreloaded)
    );
    assert_eq!(image_dependencies(&modules, X, &main, 0x5000_0000), Ok(vec![0]));
    let wrong = with_imports(pe_image(), b"other.dll");
    assert_eq!(link_image(&modules, &images, X, &wrong, 0).1, Err(PeStartError::UnresolvedName));
    let mut by_ordinal = wrong.clone();
    put64(&mut by_ordinal, 0x2240, 0x8000_0000_0000_0001);
    assert_eq!(
        link_image(&modules, &images, X, &by_ordinal, 0).1,
        Err(PeStartError::UnresolvedOrdinal)
    );
    assert_eq!(link_image(&modules, &images, X, b"x", 0).1, Err(PeStartError::InvalidImage));
}

#[test]
fn delay_imports_get_handle_and_slots() {
    let a = with_exports(pe_image());
    let modules = two_modules();
    let images = [PeModuleImage { name: b"A.dll", base: 0x1000_0000, image: &a }];
    let mut d = pe_image();
    put_dir(&mut d, 13, 0x2400, 64);
    put32(&mut d, 0x2400, 1);
    put32(&mut d, 0x2404, 0x2480);
    put32(&mut d, 0x2408, 0x3100);
    put32(&mut d, 0x240c, 0x3108);
    put32(&mut d, 0x2410, 0x2440);
    put64(&mut d, 0x2440, 0x2460);
    d[0x2462..0x2467].copy_from_slice(b"Alpha");
    d[0x2480..0x2485].copy_from_slice(b"a.dll");
    let (writes, done) = link_image(&modules, &images, X, &d, 0x5000_0000);
    assert_eq!(done, Ok(()));
    assert_eq!(
        writes,
        vec![
            RelocWrite::Word { addr: 0x5000_3100, value: 0x1000_0000 },
            RelocWrite::Word { addr: 0x5000_3108, value: 0x1000_1100 },
        ]
    );
    assert_eq!(image_dependencies(&modules, X, &d, 0x5000_0000), Ok(vec![0]));
}

#[test]
fn modules_are_initialised_after_what_they_need() {
    let deps = vec![vec![2], vec![0], vec![], vec![3, 1]];
    assert_eq!(initialization_order(&deps, &[0, 1, 2, 3]), vec![2, 0, 1, 3]);
    assert_eq!(initialization_order(&deps, &[1]), vec![2, 0, 1]);
    let cycle = vec![vec![1], vec![0]];
    assert_eq!(initialization_order(&cycle, &[0, 1]), vec![1, 0]);
}

#[test]
fn the_builtin_initialiser_is_found() {
    let mut a = with_exports(pe_image());
    let images = [PeModuleImage { name: b"kernel32.dll", base: 0x1000_0000, image: &a }];
    assert_eq!(init_builtin_modules(&images, X), BuiltinInit::Missing);
    assert_eq!(init_builtin_modules(&[], X), BuiltinInit::Absent);
    a[0x20a0..0x20b5].copy_from_slice(b"kernel32_runtime_init");
    put32(&mut a, 0x2050, 0x20a0);
    let images = [PeModuleImage { name: b"KERNEL32.dll", base: 0x1000_0000, image: &a }];
    assert_eq!(init_builtin_modules(&images, X), BuiltinInit::At(0x1000_1100));
}

#[test]
fn memory_is_reserved_in_order() {
    let mut st = RtldState::zeroed();
    assert_eq!(reserve_space(&mut st, 1), Err(PeStartError::MissingWindow));
    st.lib_load_addr = 0x10_0000;
    st.lib_load_limit = 0x10_4000;
    assert_eq!(reserve_space(&mut st, 1), Err(PeStartError::UntypedExhausted));
    st.next_untyped_slot = 1;
    st.untyped_limit = 2;
    assert_eq!(reserve_space(&mut st, 1), Err(PeStartError::FrameSlotsExhausted));
    st.next_free_slot = 50;
    st.frame_slot_limit = 60;
    let first = Reservation { addr: 0x10_0000, pages: 2, first_slot: 50 };
    assert_eq!(reserve_space(&mut st, 0x1001), Ok(first));
    let second = Reservation { addr: 0x10_2000, pages: 1, first_slot: 52 };
    assert_eq!(reserve_space(&mut st, 0x1000), Ok(second));
    assert_eq!(reserve_space(&mut st, 0x2000), Err(PeStartError::WindowExhausted));
}

fn with_tls(mut d: Vec<u8>, base: u64) -> Vec<u8> {
    put_dir(&mut d, 9, 0x2600, 40);
    put64(&mut d, 0x2600, base + 0x3200);
    put64(&mut d, 0x2608, base + 0x3210);
    put64(&mut d, 0x2610, base + 0x3300);
    put64(&mut d, 0x2618, base + 0x2700);
    put32(&mut d, 0x2620, 0x30);
    put64(&mut d, 0x2700, base + 0x1200);
    put64(&mut d, 0x2708, base + 0x1300);
    d
}

#[test]
fn pe_tls_is_found_and_published() {
    let base = 0x1000_0000;
    let d = with_tls(pe_image(), base);
    assert_eq!(image_has_tls(&d, X), Ok(true));
    assert_eq!(image_has_tls(&pe_image(), X), Ok(false));
    assert_eq!(image_has_tls(b"", X), Err(PeStartError::InvalidImage));
    let tls = find_tls(&d, X).ok().unwrap().unwrap();
    let block = tls_block(&tls);
    assert_eq!((block.filesz, block.memsz, block.index_at), (0x10, 0x40, base + 0x3300));
    assert_eq!(run_tls_callbacks(&d, base, X), Ok(vec![base + 0x1200, base + 0x1300]));
    assert_eq!(run_tls_callbacks(&pe_image(), base, X), Ok(vec![]));
    let mut st = RtldState::zeroed();
    assert_eq!(publish_pe_tls_module(&mut st, 3, &block), Ok(()));
    assert_eq!(publish_pe_tls_module(&mut st, 3, &block), Ok(()));
    assert_eq!(st.pe_tls_module_count, 1);
    for i in 10..25 {
        assert_eq!(publish_pe_tls_module(&mut st, i, &block), Ok(()));
    }
    assert_eq!(publish_pe_tls_module(&mut st, 99, &block), Err(PeStartError::TooManyTlsModules));
}

#[test]
fn the_tls_vector_has_a_slot_for_each_module() {
    let mut st = RtldState::zeroed();
    let mut modules = two_modules();
    assert_eq!(write_tls_vector_entry(&modules, 0), Err(PeStartError::TlsVectorMissing));
    assert_eq!(tls_vector_size(&modules), (3, 24));
    let teb = install_tls_vector(&mut st, &mut modules, 0x8000, 0x9000);
    assert_eq!((teb.thread_local_storage_pointer, teb.self_ptr, teb.tls_vector_len), (0x8000, 0x9000, 3));
    assert_eq!((st.pe_abi_tp, st.pe_tls_vector_len), (0x9000, 3));
    assert_eq!(write_tls_vector_entry(&modules, 2), Ok(0x8010));
    assert_eq!(write_tls_vector_entry(&modules, 3), Err(PeStartError::TlsVectorOverflow));
    let block = tls_block(&find_tls(&with_tls(pe_image(), 0), X).ok().unwrap().unwrap());
    assert!(needs_tls_setup(&modules, 1));
    assert_eq!(setup_module_tls(&mut modules, 1, &block, 0xa000), 2);
    assert!(!needs_tls_setup(&modules, 1));
    assert_eq!((modules.modules[1].tls_raw_data, modules.modules[1].tls_raw_size), (0xa000, 0x40));
}

#[test]
fn the_entry_point_has_fallbacks() {
    let mut auxv = parse_auxv(&[], 0);
    auxv.main_image = SaltyOSImageInfoV1::new(2, 0, 0x1000_0000, 0x4000, 0);
    assert_eq!(entry_point(&auxv, 0x1010), 0x1000_1010);
    auxv.main_image.entry = 7;
    assert_eq!(entry_point(&auxv, 0x1010), 7);
    auxv.at_entry = 9;
    assert_eq!(entry_point(&auxv, 0x1010), 9);
}
