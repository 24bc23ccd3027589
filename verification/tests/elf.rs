use trona::loader::cpio::{
    check_magic, cpio_archive_size, cpio_find_file, cpio_find_file_ext, is_trailer, read_hex_digit,
    CpioIter,
};
use trona::loader::elf::dynamic::{parse_dynamic, read_dynamic, strtab_entry, NeededIter};
use trona::loader::elf::header::{
    find_dynamic_phdr, find_phdr_phdr, find_tls_phdr, get_interp, has_interp, load_span, phdr_slice,
    validate_ehdr, Arch, ElfError,
};
use trona::loader::elf::loader::get_phdr_info;
use trona::loader::elf::reloc::{
    apply_rela, apply_rela_ctx, apply_rela_table, needed_symbol, RelocCtx, RelocError, RelocWrite,
    TlsdescEntry,
};
use trona::loader::elf::run_plan::{plan_elf, PlanError};
use trona::loader::elf::symbol::{
    gnu_hash, gnu_hash_lookup, linear_lookup, lookup_symbol_versioned, sym_name_eq,
    verneed_required_name, versym_index, VersionCheck,
};
use trona::loader::elf::tls::{
    register_dynamic_module, tls_alloc_module, tls_module_kind, TlsLayout, TlsModule, TlsModuleKind,
};
use trona::loader::elf::types::{
    elf64_r_sym, elf64_r_type, elf64_st_bind, elf64_st_type, elf64_st_visibility, page_align_down,
    page_align_up, Elf64Dyn, Elf64Phdr, Elf64Rela, Elf64Sym,
};
use trona::loader::image::{ImageRunKind, Prot, Run, RunSource};

fn phdr(t: u32, flags: u32, vaddr: u64, filesz: u64, memsz: u64) -> Elf64Phdr {
    Elf64Phdr {
        p_type: t,
        p_flags: flags,
        p_offset: vaddr,
        p_vaddr: vaddr,
        p_paddr: vaddr,
        p_filesz: filesz,
        p_memsz: memsz,
        p_align: 4096,
    }
}

fn put_phdr(data: &mut [u8], off: usize, ph: &Elf64Phdr) {
    data[off..off + 4].copy_from_slice(&ph.p_type.to_le_bytes());
    data[off + 4..off + 8].copy_from_slice(&ph.p_flags.to_le_bytes());
    data[off + 8..off + 16].copy_from_slice(&ph.p_offset.to_le_bytes());
    data[off + 16..off + 24].copy_from_slice(&ph.p_vaddr.to_le_bytes());
    data[off + 24..off + 32].copy_from_slice(&ph.p_paddr.to_le_bytes());
    data[off + 32..off + 40].copy_from_slice(&ph.p_filesz.to_le_bytes());
    data[off + 40..off + 48].copy_from_slice(&ph.p_memsz.to_le_bytes());
    data[off + 48..off + 56].copy_from_slice(&ph.p_align.to_le_bytes());
}

fn elf_file(phdrs: &[Elf64Phdr], len: usize) -> Vec<u8> {
    let mut data = vec![0u8; len];
    data[..7].copy_from_slice(&[0x7f, b'E', b'L', b'F', 2, 1, 1]);
    data[16] = 3;
    data[18] = 62;
    data[20] = 1;
    data[24..32].copy_from_slice(&0x1040u64.to_le_bytes());
    data[32] = 64;
    data[52] = 64;
    data[54] = 56;
    data[56] = phdrs.len() as u8;
    for (i, ph) in phdrs.iter().enumerate() {
        put_phdr(&mut data, 64 + 56 * i, ph);
    }
    data
}

fn header_error(data: &[u8]) -> Option<ElfError> {
    validate_ehdr(data, Arch::X86_64).err()
}

#[test]
fn elf_headers_are_checked_in_order() {
    let good = elf_file(&[phdr(1, 5, 0, 0x100, 0x100)], 0x200);
    assert!(header_error(&good).is_none());
    assert_eq!(header_error(&good[..63]), Some(ElfError::TooSmall));
    let mut bad = good.clone();
    bad[1] = b'X';
    assert_eq!(header_error(&bad), Some(ElfError::BadMagic));
    let mut bad = good.clone();
    bad[4] = 1;
    assert_eq!(header_error(&bad), Some(ElfError::Not64Bit));
    let mut bad = good.clone();
    bad[5] = 2;
    assert_eq!(header_error(&bad), Some(ElfError::NotLittleEndian));
    let mut bad = good.clone();
    bad[16] = 1;
    assert_eq!(header_error(&bad), Some(ElfError::BadType));
    let mut bad = good.clone();
    bad[18] = 183;
    assert_eq!(header_error(&bad), Some(ElfError::BadMachine));
    assert!(validate_ehdr(&bad, Arch::Aarch64).is_ok());
}

#[test]
fn program_headers_have_to_be_in_the_file() {
    let mut file = elf_file(&[phdr(1, 5, 0, 0x100, 0x100), phdr(2, 6, 0x80, 8, 8)], 0x200);
    let ehdr = validate_ehdr(&file, Arch::X86_64).ok().unwrap();
    let phdrs = phdr_slice(&file, &ehdr).ok().unwrap();
    assert_eq!(phdrs.len(), 2);
    assert_eq!(phdrs[1].p_vaddr, 0x80);
    assert_eq!(phdr_slice(&file[..100], &ehdr).err(), Some(ElfError::PhdrOverflow));
    file[56] = 0;
    let ehdr = validate_ehdr(&file, Arch::X86_64).ok().unwrap();
    assert_eq!(phdr_slice(&file, &ehdr).err(), Some(ElfError::NoPhdr));
}

#[test]
fn load_spans_are_page_aligned() {
    let phdrs = [phdr(1, 5, 0x1234, 0x10, 0x10), phdr(6, 4, 0x9000, 1, 1), phdr(1, 6, 0x3f00, 1, 0x200)];
    assert_eq!(load_span(&phdrs), Some((0x1000, 0x5000)));
    assert_eq!(load_span(&phdrs[1..2]), None);
    let wraps = [phdr(1, 5, u64::MAX - 10, 1, 100)];
    assert_eq!(load_span(&wraps), None);
}

#[test]
fn special_segments_are_found() {
    let mut file = elf_file(&[phdr(3, 4, 0x100, 6, 6), phdr(7, 4, 0x40, 4, 8)], 0x200);
    file[0x100..0x106].copy_from_slice(b"/ld.s\0");
    let ehdr = validate_ehdr(&file, Arch::X86_64).ok().unwrap();
    let phdrs = phdr_slice(&file, &ehdr).ok().unwrap();
    assert!(has_interp(&phdrs));
    assert_eq!(get_interp(&file, &phdrs), Some(&b"/ld.s"[..]));
    assert_eq!(find_tls_phdr(&phdrs).unwrap().p_memsz, 8);
    assert!(find_dynamic_phdr(&phdrs).is_none());
    assert!(find_phdr_phdr(&phdrs).is_none());
}

#[test]
fn program_header_addresses_are_computed() {
    let file = elf_file(&[phdr(1, 5, 0, 0x200, 0x200)], 0x200);
    let info = get_phdr_info(&file, Arch::X86_64, 0x7000_0000).unwrap();
    assert_eq!((info.phdr_vaddr, info.phent, info.phnum), (0x7000_0040, 56, 1));
    assert!(get_phdr_info(&file[..10], Arch::X86_64, 0).is_none());
}

#[test]
fn dynamic_entries_are_parsed_up_to_the_terminator() {
    let d = |tag: i64, val: u64| Elf64Dyn { d_tag: tag, d_val: val };
    let entries = [d(1, 10), d(5, 0x100), d(6, 0x200), d(1, 20), d(5, 0x300), d(0, 0), d(6, 9)];
    let info = parse_dynamic(&entries);
    assert_eq!((info.strtab, info.symtab, info.rela), (0x300, 0x200, 0));
    let mut it = NeededIter::new(&entries);
    assert_eq!((it.next(), it.next(), it.next()), (Some(10), Some(20), None));
    assert_eq!(strtab_entry(b"\0libc.so\0x\0", 1), Some(&b"libc.so"[..]));
    assert_eq!(strtab_entry(b"\0a\0", 3), None);
    let mut raw = vec![0u8; 48];
    raw[8] = 1;
    raw[16] = 7;
    assert_eq!(read_dynamic(&raw, 8).len(), 1);
}

#[test]
fn symbol_fields_are_taken_apart() {
    assert_eq!((elf64_st_bind(0x21), elf64_st_type(0x26), elf64_st_visibility(0xfe)), (2, 6, 2));
    assert_eq!((elf64_r_sym(0x5_0000_0007), elf64_r_type(0x5_0000_0007)), (5, 7));
    assert_eq!((page_align_up(1), page_align_up(4096), page_align_down(8191)), (4096, 4096, 4096));
}

fn sym(name: u32, shndx: u16, value: u64) -> Elf64Sym {
    Elf64Sym { st_name: name, st_info: 0x12, st_other: 0, st_shndx: shndx, st_value: value, st_size: 0 }
}

/// A hash table with one bucket for symbols 1 and 2.
fn hash_table(names: [&[u8]; 2]) -> Vec<u32> {
    let mut table = vec![1, 1, 1, 5, 0xffff_ffff, 0xffff_ffff, 1];
    table.push(gnu_hash(names[0]) & !1);
    table.push(gnu_hash(names[1]) | 1);
    table
}

#[test]
fn the_gnu_hash_is_djb2() {
    assert_eq!(gnu_hash(b""), 5381);
    assert_eq!(gnu_hash(b"printf"), 0x156b2bb8);
    assert!(sym_name_eq(b"\0open\0", 1, b"open"));
    assert!(!sym_name_eq(b"\0opens\0", 1, b"open"));
}

#[test]
fn symbols_are_looked_up_by_hash_and_linearly() {
    let strtab = b"\0open\0close\0";
    let syms = [sym(0, 0, 0), sym(1, 1, 0x10), sym(6, 1, 0x20)];
    let table = hash_table([b"open", b"close"]);
    assert_eq!(gnu_hash_lookup(&table, &syms, strtab, b"open", None).unwrap().st_value, 0x10);
    assert_eq!(gnu_hash_lookup(&table, &syms, strtab, b"close", None).unwrap().st_value, 0x20);
    assert!(gnu_hash_lookup(&table, &syms, strtab, b"read", None).is_none());
    assert_eq!(linear_lookup(&syms, strtab, b"close", None).unwrap().st_value, 0x20);
    let undefined = [sym(0, 0, 0), sym(1, 0, 0x10)];
    assert!(linear_lookup(&undefined, strtab, b"open", None).is_none());
    let found = lookup_symbol_versioned(Some(&table), &syms, strtab, b"open", None);
    assert_eq!(found.unwrap().st_value, 0x10);
}

#[test]
fn versions_decide_between_symbols() {
    let strtab = b"\0f\0V1\0V2\0";
    let syms = [sym(0, 0, 0), sym(1, 1, 0x10), sym(1, 1, 0x20)];
    let versym = [0u16, 0x8002, 3];
    let mut verdef = vec![0u8; 56];
    verdef[4] = 2;
    verdef[6] = 1;
    verdef[12] = 20;
    verdef[16] = 28;
    verdef[20] = 3;
    verdef[28 + 4] = 3;
    verdef[28 + 6] = 1;
    verdef[28 + 12] = 20;
    verdef[48] = 6;
    let check = |required: Option<&'static [u8]>| VersionCheck {
        versym: Some(&versym),
        verdef: Some(&verdef),
        strtab,
        required,
    };
    let pick = |required: Option<&'static [u8]>| {
        linear_lookup(&syms, strtab, b"f", Some(&check(required))).map(|s| s.st_value)
    };
    assert_eq!(pick(None), Some(0x20));
    assert_eq!(pick(Some(b"V1")), Some(0x10));
    assert_eq!(pick(Some(b"V2")), Some(0x20));
    assert_eq!(pick(Some(b"V3")), None);
    assert_eq!(versym_index(Some(&versym), 1), Some(2));
    assert_eq!(versym_index(Some(&versym), 3), None);
    let mut verneed = vec![0u8; 32];
    verneed[2] = 1;
    verneed[8] = 16;
    verneed[22] = 5;
    verneed[24] = 3;
    assert_eq!(verneed_required_name(&verneed, 1, strtab, 5), Some(&b"V1"[..]));
    assert_eq!(verneed_required_name(&verneed, 1, strtab, 6), None);
}

fn rela(offset: u64, sym: u64, typ: u64, addend: i64) -> Elf64Rela {
    Elf64Rela { r_offset: offset, r_info: sym << 32 | typ, r_addend: addend }
}

#[test]
fn relocations_compute_their_values() {
    let x = Arch::X86_64;
    let word = |addr: u64, value: u64| Ok(RelocWrite::Word { addr, value });
    assert_eq!(apply_rela(x, 0x1000, &rela(8, 0, 8, 0x20), 0), word(0x1008, 0x1020));
    assert_eq!(apply_rela(x, 0x1000, &rela(8, 3, 1, -4), 0x500), word(0x1008, 0x4fc));
    assert_eq!(apply_rela(x, 0x1000, &rela(8, 3, 16, 5), 2), word(0x1008, 2));
    assert_eq!(apply_rela(x, 0, &rela(8, 0, 0, 0), 0), Ok(RelocWrite::Keep));
    assert_eq!(apply_rela(x, 0, &rela(8, 0, 99, 0), 0), Err(RelocError::UnsupportedType(99)));
    let a = Arch::Aarch64;
    assert_eq!(apply_rela(a, 0x1000, &rela(8, 0, 1027, 0x20), 0), word(0x1008, 0x1020));
}

#[test]
fn special_relocations_ask_their_handlers() {
    let x = Arch::X86_64;
    let r = rela(0, 0, 37, 0x30);
    let call = RelocWrite::CallIfunc { addr: 0x1000, resolver: 0x1030 };
    assert_eq!(apply_rela(x, 0x1000, &r, 0), Ok(call));
    let ctx = RelocCtx { tlsdesc: None, ifunc: Some(None) };
    assert_eq!(apply_rela_ctx(x, 0x1000, &r, 0, &ctx), Err(RelocError::IfuncFailed));
    let desc = TlsdescEntry { resolver: 1, arg: 2 };
    let ctx = RelocCtx { tlsdesc: Some(Some(desc)), ifunc: None };
    assert_eq!(
        apply_rela_ctx(x, 0x1000, &rela(8, 1, 36, 0), 0, &ctx),
        Ok(RelocWrite::Pair { addr: 0x1008, first: 1, second: 2 })
    );
    assert_eq!(apply_rela(x, 0x1000, &rela(8, 1, 36, 0), 0), Ok(RelocWrite::Keep));
}

#[test]
fn relocation_tables_stop_at_the_first_failure() {
    let x = Arch::X86_64;
    let table = [rela(0, 0, 8, 1), rela(8, 2, 6, 0), rela(16, 0, 8, 2)];
    assert_eq!(needed_symbol(x, &table[0]), None);
    assert_eq!(needed_symbol(x, &table[1]), Some(2));
    let (writes, done) = apply_rela_table(x, 0, &table, &[None, Some(7), None]);
    assert_eq!((writes.len(), done), (3, Ok(())));
    let (writes, done) = apply_rela_table(x, 0, &table, &[None, None, None]);
    assert_eq!((writes.len(), done), (1, Err(RelocError::SymbolNotFound)));
}

fn no_module() -> TlsModule {
    TlsModule { base: 0, filesz: 0, memsz: 0, align: 0, offset: 0, mod_id: 0 }
}

#[test]
fn tls_modules_are_laid_out_one_behind_the_other() {
    let mut layout = TlsLayout { size: 0, align: 0, count: 0 };
    let mut modules = [no_module(); 16];
    assert_eq!(tls_alloc_module(&mut layout, &mut modules, 20, 4, 16, 0x100), Some(1));
    assert_eq!(tls_alloc_module(&mut layout, &mut modules, 8, 8, 0, 0x200), Some(2));
    assert_eq!((layout.size, layout.align, layout.count), (40, 16, 2));
    assert_eq!((modules[0].offset, modules[1].offset), (12, 32));
    for _ in 2..16 {
        assert!(tls_alloc_module(&mut layout, &mut modules, 1, 1, 1, 0).is_some());
    }
    assert_eq!(tls_alloc_module(&mut layout, &mut modules, 1, 1, 1, 0), None);
    assert_eq!(tls_module_kind(16), TlsModuleKind::Static);
    assert_eq!(tls_module_kind(17), TlsModuleKind::Dynamic);
    assert_eq!(register_dynamic_module(1, 2, 3, 0, 17).align, 1);
}

#[test]
fn an_elf_image_is_planned_page_by_page() {
    let phdrs = [
        phdr(1, 5, 0, 0x1800, 0x1800),
        phdr(1, 4, 0x2000, 0x100, 0x100),
        phdr(1, 6, 0x3000, 0x500, 0x2800),
    ];
    let mut runs = [Run::empty(); 8];
    let (envelope, n) = plan_elf(&phdrs, 0x7000_0000, 0x40, &mut runs).unwrap();
    assert_eq!((envelope.base, envelope.bytes), (0x7000_0000, 0x6000));
    assert_eq!(envelope.entry_pc, 0x7000_0040);
    assert_eq!(n, 4);
    assert_eq!(runs[0].kind, ImageRunKind::Text);
    assert_eq!((runs[0].va, runs[0].prot), (0x7000_0000, Prot(5)));
    for run in &runs[..n] {
        assert!(!(run.prot.contains(2) && run.prot.contains(4)));
    }
    assert_eq!(runs[0].source, RunSource::CleanFromCodeMo { mo_offset_pages: 0 });
    assert_eq!(
        runs[2].source,
        RunSource::PrivateFromCodeMo { mo_offset_pages: 3, file_bytes: 0x500 }
    );
    let last = runs[n - 1];
    assert_eq!((last.kind, last.source), (ImageRunKind::Bss, RunSource::ZeroFill));
    assert_eq!((last.va, last.bytes), (0x7000_4000, 0x2000));
}

#[test]
fn a_zero_tail_is_one_run() {
    let mut runs = [Run::empty(); 8];
    let data = [phdr(1, 6, 0, 0x800, 0x3000)];
    let (_, n) = plan_elf(&data, 0x10000, 0, &mut runs).unwrap();
    assert_eq!(n, 2);
    assert_eq!(
        runs[0],
        Run {
            va: 0x10000,
            bytes: 0x1000,
            prot: Prot(3),
            kind: ImageRunKind::Data,
            source: RunSource::PrivateFromCodeMo { mo_offset_pages: 0, file_bytes: 0x800 },
        }
    );
    assert_eq!(
        runs[1],
        Run {
            va: 0x11000,
            bytes: 0x2000,
            prot: Prot(3),
            kind: ImageRunKind::Bss,
            source: RunSource::ZeroFill,
        }
    );
    let large = [phdr(1, 6, 0, 0x800, 0x100_0000)];
    assert_eq!(plan_elf(&large, 0x10000, 0, &mut runs).unwrap().1, 2);
    let apart = [phdr(1, 6, 0, 0x800, 0x2000), phdr(1, 6, 0x2000, 0x1000, 0x1000)];
    assert_eq!(plan_elf(&apart, 0x10000, 0, &mut runs).unwrap().1, 3);
    assert_eq!(
        runs[2].source,
        RunSource::PrivateFromCodeMo { mo_offset_pages: 2, file_bytes: 0x1000 }
    );
}

#[test]
fn only_images_without_segments_are_empty() {
    let mut runs = [Run::empty(); 4];
    let none = [phdr(2, 6, 0x1000, 0x80, 0x80)];
    let (envelope, n) = plan_elf(&none, 0x10000, 4, &mut runs).unwrap();
    assert_eq!((envelope.base, envelope.bytes, envelope.entry_pc, n), (0, 0, 0x10004, 0));
    let wraps = [phdr(1, 4, u64::MAX, 0, 2)];
    assert_eq!(plan_elf(&wraps, 0, 0, &mut runs), Err(PlanError::Overflow));
    let ends_late = [phdr(1, 4, u64::MAX - 0x100, 0, 0x80)];
    assert_eq!(plan_elf(&ends_late, 0, 0, &mut runs), Err(PlanError::Overflow));
    let mut skewed = ends_late;
    skewed[0].p_offset = 0;
    assert_eq!(plan_elf(&skewed, 0, 0, &mut runs), Err(PlanError::SkewedSegment));
    assert_eq!(runs, [Run::empty(); 4]);
}

#[test]
fn planning_refuses_what_cannot_be_mapped() {
    let mut runs = [Run::empty(); 8];
    let rwx = [phdr(1, 7, 0, 0x100, 0x100)];
    assert_eq!(plan_elf(&rwx, 0, 0, &mut runs), Err(PlanError::WriteExecPage));
    let mut skewed = phdr(1, 5, 0x1000, 0x100, 0x100);
    skewed.p_offset = 0x10;
    assert_eq!(plan_elf(&[skewed], 0, 0, &mut runs), Err(PlanError::SkewedSegment));
    let two = [phdr(1, 5, 0, 0x100, 0x100), phdr(1, 6, 0x1000, 0x100, 0x100)];
    assert_eq!(plan_elf(&two, 0, 0, &mut runs[..1]), Err(PlanError::TooManyRuns));
    assert_eq!(plan_elf(&two, u64::MAX - 0x1000, 0, &mut runs), Err(PlanError::Overflow));
    let bss_text = [phdr(1, 5, 0, 0x100, 0x3000)];
    assert_eq!(plan_elf(&bss_text, 0, 0, &mut runs), Err(PlanError::PrivateExec));
}

fn cpio_entry(out: &mut Vec<u8>, name: &str, data: &[u8]) {
    let mut header = String::from("070701");
    for v in [1u32, 0o100644, 5, 6, 1, 77, data.len() as u32, 0, 0, 0, 0, name.len() as u32 + 1, 0] {
        header.push_str(&format!("{:08X}", v));
    }
    out.extend_from_slice(header.as_bytes());
    out.extend_from_slice(name.as_bytes());
    out.push(0);
    while out.len() % 4 != 0 {
        out.push(0);
    }
    out.extend_from_slice(data);
    while out.len() % 4 != 0 {
        out.push(0);
    }
}

fn archive() -> Vec<u8> {
    let mut out = Vec::new();
    cpio_entry(&mut out, "lib/a.so", b"AAAAA");
    cpio_entry(&mut out, "lib/b.so", b"BB");
    cpio_entry(&mut out, "lib/a.so", b"second");
    cpio_entry(&mut out, "TRAILER!!!", b"");
    out
}

#[test]
fn archives_are_walked_entry_by_entry() {
    let data = archive();
    assert!(check_magic(&data, 0));
    assert!(is_trailer(b"TRAILER!!!"));
    assert_eq!((read_hex_digit(b'a'), read_hex_digit(b'F'), read_hex_digit(b'g')), (Some(10), Some(15), None));
    let mut it = CpioIter::new(&data);
    let first = it.next_entry_ext().unwrap();
    assert_eq!((first.name, first.data), (&b"lib/a.so"[..], &b"AAAAA"[..]));
    assert_eq!((first.mode, first.uid, first.gid, first.mtime), (0o100644, 5, 6, 77));
    assert_eq!(it.next_entry().unwrap().name, b"lib/b.so");
    assert!(it.next_entry().is_some());
    assert!(it.next_entry().is_none());
}

#[test]
fn the_first_file_with_a_name_is_found() {
    let data = archive();
    assert_eq!(cpio_find_file(&data, b"lib/a.so").unwrap().data, b"AAAAA");
    assert_eq!(cpio_find_file_ext(&data, b"lib/b.so").unwrap().gid, 6);
    assert!(cpio_find_file(&data, b"lib/c.so").is_none());
    assert_eq!(cpio_archive_size(&data), data.len());
    assert!(cpio_find_file(&data[..50], b"lib/a.so").is_none());
}
