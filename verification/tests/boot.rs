use trona::loader::boot::cpio::{
    cpio_archive_size, cpio_find_file, cpio_find_file_ext, cpio_next, cpio_next_ext,
};
use trona::loader::boot::elf_dynamic::{
    build_initrd_lib_path, elf_compute_lib_info, elf_get_interp, elf_get_needed,
    elf_get_phdr_info, elf_get_phdr_load_offset, elf_has_interp, resolve_interp_to_cpio_path,
    NeededLibs,
};
use trona::loader::boot::elf_loader::{
    elf_compute_load_span, elf_count_load_pages, elf_load, elf_load_is_representable,
    retype_candidates, try_retype_frame_any_untyped, untyped_scan_end, ElfLoadError,
    EmptySlotErrors, LoadStep,
};
use trona::loader::elf::header::Arch;

const X: Arch = Arch::X86_64;

fn put_phdr(d: &mut [u8], i: usize, t: u32, flags: u32, vaddr: u64, filesz: u64, memsz: u64) {
    let at = 64 + 56 * i;
    d[at..at + 4].copy_from_slice(&t.to_le_bytes());
    d[at + 4..at + 8].copy_from_slice(&flags.to_le_bytes());
    for (k, v) in [vaddr, vaddr, vaddr, filesz, memsz, 4096].iter().enumerate() {
        d[at + 8 + 8 * k..at + 16 + 8 * k].copy_from_slice(&v.to_le_bytes());
    }
}

fn put64(d: &mut [u8], at: usize, v: u64) {
    d[at..at + 8].copy_from_slice(&v.to_le_bytes());
}

/// A shared object: text at 0, data with a dynamic section and one relative
/// relocation at 0x1000.
fn elf() -> Vec<u8> {
    let mut d = vec![0u8; 0x1400];
    d[..7].copy_from_slice(&[0x7f, b'E', b'L', b'F', 2, 1, 1]);
    d[16] = 3;
    d[18] = 62;
    put64(&mut d, 24, 0x40);
    d[32] = 64;
    d[54] = 56;
    d[56] = 4;
    put_phdr(&mut d, 0, 1, 5, 0, 0x1000, 0x1000);
    put_phdr(&mut d, 1, 1, 6, 0x1000, 0x400, 0x1800);
    put_phdr(&mut d, 2, 2, 6, 0x1000, 0x80, 0x80);
    put_phdr(&mut d, 3, 3, 4, 0x1300, 16, 16);
    for (k, (tag, val)) in
        [(1, 1), (5, 0x1200), (10, 0x40), (7, 0x1100), (8, 24), (9, 24), (0, 0)].iter().enumerate()
    {
        put64(&mut d, 0x1000 + 16 * k, *tag);
        put64(&mut d, 0x1008 + 16 * k, *val);
    }
    put64(&mut d, 0x1100, 0x1180);
    put64(&mut d, 0x1108, 8);
    put64(&mut d, 0x1110, 0x30);
    d[0x1201..0x1209].copy_from_slice(b"libc.so\0");
    d[0x1300..0x1310].copy_from_slice(b"/lib/ld-trona.so");
    d
}

#[test]
fn boot_elf_images_are_loaded_page_by_page() {
    let d = elf();
    assert_eq!(elf_compute_load_span(&d), 0x3000);
    assert_eq!(elf_count_load_pages(&d), 3);
    assert!(elf_load_is_representable(&d, 0x1000_0000, X));
    let mut large = elf();
    put_phdr(&mut large, 1, 1, 6, 0x1000, u64::MAX, 0x20_0000);
    assert!(elf_load_is_representable(&large, 0x1000_0000, X));
    assert!(matches!(elf_load(&large, 0x1000_0000, X).outcome, Err(ElfLoadError::OutOfMemory)));
    put_phdr(&mut large, 1, 1, 6, 0x1000, u64::MAX, 0x2000);
    assert!(!elf_load_is_representable(&large, 0x1000_0000, X));
    let plan = elf_load(&d, 0x1000_0000, X);
    let result = plan.outcome.ok().unwrap();
    assert_eq!((result.entry, result.base), (0x1000_0040, 0x1000_0000));
    assert_eq!(plan.pages.len(), 3);
    assert!(plan.pages[0].flags.executable && !plan.pages[0].flags.writable);
    assert!(plan.pages[2].flags.writable && !plan.pages[2].flags.executable);
    assert!(matches!(plan.steps[2], LoadStep::NewPage { copy: None, .. }));
    assert_eq!(plan.writes.len(), 1);
    let w = &plan.writes[0];
    assert_eq!((w.page, w.offset, w.value), (1, 0x180, 0x1000_0030));
}

#[test]
fn boot_elf_errors_are_told_apart() {
    let load = |d: &[u8]| elf_load(d, 0, X).outcome.err();
    let good = elf();
    assert_eq!(load(&good[..20]), Some(ElfLoadError::TooSmall));
    let mut bad = good.clone();
    bad[0] = 0;
    assert_eq!(load(&bad), Some(ElfLoadError::NotElf));
    let mut bad = good.clone();
    bad[4] = 1;
    assert_eq!(load(&bad), Some(ElfLoadError::Not64Bit));
    let mut bad = good.clone();
    bad[5] = 2;
    assert_eq!(load(&bad), Some(ElfLoadError::NotLittleEndian));
    let mut bad = good.clone();
    bad[16] = 1;
    assert_eq!(load(&bad), Some(ElfLoadError::BadType));
    let mut bad = good.clone();
    bad[18] = 3;
    assert_eq!(load(&bad), Some(ElfLoadError::BadArch));
    let mut bad = good.clone();
    bad[56] = 0;
    assert_eq!(load(&bad), Some(ElfLoadError::NoLoad));
}

#[test]
fn needed_libraries_are_listed_once() {
    let needed = elf_get_needed(&elf());
    assert_eq!(needed.count, 1);
    assert!(needed.contains(b"libc.so"));
    assert!(!needed.contains(b"libm.so"));
    let mut libs = NeededLibs::new();
    assert!(libs.add(b"a.so"));
    assert!(libs.contains(b"a.so"));
    assert_eq!(&libs.names[0][..libs.name_lens[0]], b"a.so");
    let mut used = NeededLibs::new();
    used.names[0] = [7; 24];
    assert!(used.add(b"b.so"));
    assert_eq!((&used.names[0][..4], used.names[0][4]), (&b"b.so"[..], 7));
    assert_eq!((used.names[1], used.name_lens[1]), ([0; 24], 0));
}

#[test]
fn interpreters_and_library_paths_are_resolved() {
    let d = elf();
    assert!(elf_has_interp(&d));
    assert_eq!(elf_get_interp(&d), Some(&b"/lib/ld-trona.so"[..]));
    let mut path = [0u8; 64];
    let n = build_initrd_lib_path(b"libc.so", &mut path);
    assert_eq!(&path[..n], b"lib/libc.so");
    for (interp, expected) in [
        (&b"/lib/ld-trona.so"[..], &b"lib/ld-trona.so"[..]),
        (b"usr/ld.so", b"usr/ld.so"),
        (b"ld.so", b"lib/ld.so"),
        (b"", b"lib/ld-trona.so"),
    ] {
        let n = resolve_interp_to_cpio_path(interp, &mut path);
        assert_eq!(&path[..n], expected);
    }
    let mut short = [0u8; 4];
    assert_eq!(build_initrd_lib_path(b"libc.so", &mut short), 0);
}

#[test]
fn library_spans_and_header_addresses_are_computed() {
    let d = elf();
    let info = elf_compute_lib_info(&d).unwrap();
    assert_eq!((info.min_vaddr, info.lib_span, info.phnum), (0, 0x3000, 4));
    let mut moved = elf();
    put_phdr(&mut moved, 0, 1, 5, 0x1234, 0x100, 0x100);
    put_phdr(&mut moved, 1, 0, 0, 0, 0, 0);
    let info = elf_compute_lib_info(&moved).unwrap();
    assert_eq!((info.min_vaddr, info.lib_span), (0x1000, 0x1000));
    put_phdr(&mut moved, 0, 1, 5, 0x1234, u64::MAX, 0x100);
    assert_eq!(elf_compute_lib_info(&moved).unwrap().lib_span, 0x1000);
    assert_eq!((elf_count_load_pages(&moved), elf_compute_load_span(&moved)), (1, 0x1000));
    assert_eq!(elf_get_phdr_info(&d, 0x1000_0000), Some((0x1000_0040, 56, 4)));
    assert_eq!(elf_get_phdr_load_offset(&d[64..], 4, 56, 64), Some(64));
}

#[test]
fn untyped_slots_are_tried_from_the_hint_on() {
    assert_eq!(retype_candidates(17, 18, 20), vec![17, 18, 19, 16]);
    assert_eq!(retype_candidates(40, 3, 18), vec![40, 16, 17]);
    assert_eq!((untyped_scan_end(Some(20)), untyped_scan_end(Some(10))), (20, 200));
    assert_eq!(untyped_scan_end(None), 200);
    let codes = EmptySlotErrors { invalid_capability: 1, invalid_operation: 2, not_found: 6 };
    assert_eq!(try_retype_frame_any_untyped(&[1, 0], codes), Ok(1));
    assert_eq!(try_retype_frame_any_untyped(&[9, 6, 1], codes), Err(9));
}

fn entry(out: &mut Vec<u8>, name: &str, data: &[u8]) {
    let mut header = String::from("070701");
    for v in [1u32, 0o100755, 0, 3, 1, 0, data.len() as u32, 0, 0, 0, 0, name.len() as u32 + 1, 0] {
        header.push_str(&format!("{:08x}", v));
    }
    out.extend_from_slice(header.as_bytes());
    out.extend_from_slice(name.as_bytes());
    out.push(0);
    while out.len() % 4 != 0 {
        out.push(0);
    }
    out.extend_from_slice(data);
    while out.len() % 4 != 0 {
        out.push(0);
    }
}

#[test]
fn the_boot_archive_is_searched() {
    let mut data = Vec::new();
    entry(&mut data, "bin/init", b"ELF");
    entry(&mut data, "lib/libc.so", b"so");
    entry(&mut data, "TRAILER!!!", b"");
    assert_eq!(cpio_find_file(&data, b"lib/libc.so").unwrap().data, b"so");
    assert_eq!(cpio_find_file_ext(&data, b"bin/init").unwrap().gid, 3);
    assert!(cpio_find_file(&data, b"nothing").is_none());
    let mut at = 0;
    assert_eq!(cpio_next(&data, &mut at).unwrap().name, b"bin/init");
    assert_eq!(cpio_next_ext(&data, &mut at).unwrap().name, b"lib/libc.so");
    assert!(cpio_next(&data, &mut at).is_none());
    assert_eq!(cpio_archive_size(&data), data.len() as u128);
    assert_eq!(cpio_archive_size(&data[..200]), 200);
}
