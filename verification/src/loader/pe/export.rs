//! PE export resolution over mapped module images.
use crate::loader::bytes::{
    bytes_eq, c_str, le_u16, le_u32, lemma_c_len, read_c_str, read_u16, read_u32,
};
use crate::loader::elf::header::Arch;
use crate::loader::pe::header::{pe_error, validate, PeHeaders};
use crate::loader::pe::types::{DataDirectory, IMAGE_DIRECTORY_ENTRY_EXPORT};
use vstd::prelude::*;
use vstd::slice::slice_subrange;

verus! {

/// A mapped module: its name, where it is, and its bytes.
#[derive(Clone, Copy)]
pub struct PeModuleImage<'a> {
    pub name: &'a [u8],
    pub base: u64,
    pub image: &'a [u8],
}

/// What a [`PeModuleImage`] holds.
pub struct ModuleView {
    pub name: Seq<u8>,
    pub base: u64,
    pub image: Seq<u8>,
}

impl<'a> View for PeModuleImage<'a> {
    type V = ModuleView;

    open spec fn view(&self) -> ModuleView {
        ModuleView { name: self.name@, base: self.base, image: self.image@ }
    }
}

/// An imported symbol.
#[derive(Clone, Copy)]
pub enum ImportSymbol<'a> {
    Name(&'a [u8]),
    Ordinal(u16),
}

/// What an [`ImportSymbol`] says.
pub enum SymbolView {
    Name(Seq<u8>),
    Ordinal(u16),
}

impl<'a> View for ImportSymbol<'a> {
    type V = SymbolView;

    open spec fn view(&self) -> SymbolView {
        match self {
            ImportSymbol::Name(n) => SymbolView::Name(n@),
            ImportSymbol::Ordinal(o) => SymbolView::Ordinal(*o),
        }
    }
}

pub open spec fn modules_view(modules: Seq<PeModuleImage<'_>>) -> Seq<ModuleView> {
    Seq::new(modules.len(), |i: int| modules[i]@)
}

// ---------------------------------------------------------------------------
// Module names
// ---------------------------------------------------------------------------

/// A letter in lower case.
pub open spec fn folded(b: u8) -> u8 {
    if 0x41 <= b <= 0x5a {
        (b + 32) as u8
    } else {
        b
    }
}

/// A string in lower case.
pub open spec fn folded_seq(s: Seq<u8>) -> Seq<u8> {
    Seq::new(s.len(), |i: int| folded(s[i]))
}

fn fold_ascii(b: u8) -> (r: u8)
    ensures
        r == folded(b),
{
    if b >= 0x41 && b <= 0x5a {
        b + 32
    } else {
        b
    }
}

/// Whether two strings are equal without regard to case.
pub fn ascii_eq_ignore_case(a: &[u8], b: &[u8]) -> (r: bool)
    ensures
        r == (folded_seq(a@) == folded_seq(b@)),
{
    if a.len() != b.len() {
        assert(folded_seq(a@).len() != folded_seq(b@).len());
        return false;
    }
    let mut i: usize = 0;
    while i < a.len()
        invariant
            i <= a@.len(),
            a@.len() == b@.len(),
            forall|j: int| 0 <= j < i ==> folded(a@[j]) == folded(b@[j]),
        decreases a@.len() - i,
    {
        if fold_ascii(a[i]) != fold_ascii(b[i]) {
            assert(folded_seq(a@)[i as int] != folded_seq(b@)[i as int]);
            return false;
        }
        i = i + 1;
    }
    assert(folded_seq(a@) =~= folded_seq(b@));
    true
}

/// Offset past the last `/` or `\` among the first `n` bytes.
pub open spec fn basename_start(name: Seq<u8>, n: int) -> int
    decreases n,
{
    if n <= 0 {
        0
    } else if name[n - 1] == 0x2f || name[n - 1] == 0x5c {
        n
    } else {
        basename_start(name, n - 1)
    }
}

/// The last component of a path.
pub open spec fn basename_of(name: Seq<u8>) -> Seq<u8> {
    name.skip(basename_start(name, name.len() as int))
}

/// `.dll`.
pub open spec fn dll_suffix() -> Seq<u8> {
    seq![0x2eu8, 0x64, 0x6c, 0x6c]
}

/// A module name without directories and without the suffix `.dll`.
pub open spec fn canonical_name(name: Seq<u8>) -> Seq<u8> {
    let base = basename_of(name);
    let n = base.len();
    if n >= 4 && folded_seq(base.subrange(n - 4, n as int)) == dll_suffix() {
        base.take(n - 4)
    } else {
        base
    }
}

/// Returns the last component of a path.
pub fn module_basename(name: &[u8]) -> (r: &[u8])
    ensures
        r@ == basename_of(name@),
{
    let n: usize = name.len();
    let mut start: usize = 0;
    let mut i: usize = 0;
    while i < n
        invariant
            i <= n,
            n == name@.len(),
            start <= i,
            start == basename_start(name@, i as int),
        decreases n - i,
    {
        if name[i] == 0x2f || name[i] == 0x5c {
            start = i + 1;
        }
        i = i + 1;
    }
    let r: &[u8] = slice_subrange(name, start, n);
    assert(r@ =~= name@.skip(start as int));
    r
}

fn canonical_module_name(name: &[u8]) -> (r: &[u8])
    ensures
        r@ == canonical_name(name@),
{
    let base: &[u8] = module_basename(name);
    let n: usize = base.len();
    if n >= 4 {
        let tail: &[u8] = slice_subrange(base, n - 4, n);
        let dll: [u8; 4] = [0x2e, 0x64, 0x6c, 0x6c];
        proof {
            assert(dll@ =~= dll_suffix());
            assert(folded_seq(dll_suffix()) =~= dll_suffix());
        }
        if ascii_eq_ignore_case(tail, dll.as_slice()) {
            let r: &[u8] = slice_subrange(base, 0, n - 4);
            assert(r@ =~= base@.take(n - 4));
            return r;
        }
    }
    base
}

/// Whether a module is mapped and has the name `requested`.
pub open spec fn module_matches(m: ModuleView, requested: Seq<u8>) -> bool {
    &&& m.base != 0
    &&& m.image.len() != 0
    &&& folded_seq(canonical_name(m.name)) == folded_seq(canonical_name(requested))
}

/// The first module from `i` on that has the name `requested`.
pub open spec fn module_index(modules: Seq<ModuleView>, requested: Seq<u8>, i: int) -> Option<int>
    decreases modules.len() - i,
{
    if i < 0 || i >= modules.len() {
        None
    } else if module_matches(modules[i], requested) {
        Some(i)
    } else {
        module_index(modules, requested, i + 1)
    }
}

/// Finds a mapped module by name, without regard to directories, case, or the
/// suffix `.dll`.
pub fn find_module<'a, 'b>(modules: &'a [PeModuleImage<'b>], requested: &[u8]) -> (r: Option<
    &'a PeModuleImage<'b>,
>)
    ensures
        match module_index(modules_view(modules@), requested@, 0) {
            Some(i) => 0 <= i < modules@.len() && r is Some && *r->0 == modules@[i],
            None => r is None,
        },
{
    let wanted: &[u8] = canonical_module_name(requested);
    let ghost views = modules_view(modules@);
    let mut i: usize = 0;
    while i < modules.len()
        invariant
            i <= modules@.len(),
            views == modules_view(modules@),
            wanted@ == canonical_name(requested@),
            module_index(views, requested@, 0) == module_index(views, requested@, i as int),
        decreases modules@.len() - i,
    {
        let module = &modules[i];
        assert(module@ == views[i as int]);
        if module.base != 0 && module.image.len() != 0 && ascii_eq_ignore_case(
            canonical_module_name(module.name),
            wanted,
        ) {
            return Some(module);
        }
        i = i + 1;
    }
    None
}

// ---------------------------------------------------------------------------
// Forwarders
// ---------------------------------------------------------------------------

/// Offset of the last `.` among the first `n` bytes.
pub open spec fn last_dot(s: Seq<u8>, n: int) -> Option<int>
    decreases n,
{
    if n <= 0 {
        None
    } else if s[n - 1] == 0x2e {
        Some(n - 1)
    } else {
        last_dot(s, n - 1)
    }
}

/// The number in the decimal digits `s[1..n]`, if it is one and fits 16 bits.
pub open spec fn decimal_after_first(s: Seq<u8>, n: int) -> Option<int>
    decreases n,
{
    if n <= 1 {
        Some(0)
    } else {
        match decimal_after_first(s, n - 1) {
            Some(v) => if 0x30 <= s[n - 1] <= 0x39 && v * 10 + (s[n - 1] - 0x30) <= 0xffff {
                Some(v * 10 + (s[n - 1] - 0x30))
            } else {
                None
            },
            None => None,
        }
    }
}

/// The module and symbol that a forwarder string names: `module.symbol`, or
/// `module.#ordinal`.
pub open spec fn forwarder_target(f: Seq<u8>) -> Option<(Seq<u8>, SymbolView)> {
    match last_dot(f, f.len() as int) {
        None => None,
        Some(dot) => {
            let symbol = f.skip(dot + 1);
            if symbol.len() == 0 {
                None
            } else if symbol[0] == 0x23 {
                match decimal_after_first(symbol, symbol.len() as int) {
                    Some(v) => Some((f.take(dot), SymbolView::Ordinal(v as u16))),
                    None => None,
                }
            } else {
                Some((f.take(dot), SymbolView::Name(symbol)))
            }
        },
    }
}

proof fn lemma_decimal_none(s: Seq<u8>, n: int, m: int)
    requires
        n <= m,
        decimal_after_first(s, n) is None,
    ensures
        decimal_after_first(s, m) is None,
    decreases m - n,
{
    if n < m {
        lemma_decimal_none(s, n, m - 1);
    }
}

fn parse_ordinal(symbol: &[u8]) -> (r: Option<u16>)
    requires
        symbol@.len() > 0,
    ensures
        match decimal_after_first(symbol@, symbol@.len() as int) {
            Some(v) => r == Some(v as u16) && 0 <= v <= 0xffff,
            None => r is None,
        },
{
    let n: usize = symbol.len();
    let mut ordinal: u32 = 0;
    let mut j: usize = 1;
    while j < n
        invariant
            1 <= j <= n,
            n == symbol@.len(),
            ordinal <= 0xffff,
            decimal_after_first(symbol@, j as int) == Some(ordinal as int),
        decreases n - j,
    {
        let ch: u8 = symbol[j];
        if ch < 0x30 || ch > 0x39 || ordinal * 10 + (ch - 0x30) as u32 > 0xffff {
            proof {
                lemma_decimal_none(symbol@, j + 1, n as int);
            }
            return None;
        }
        ordinal = ordinal * 10 + (ch - 0x30) as u32;
        j = j + 1;
    }
    Some(ordinal as u16)
}

fn parse_forwarder(forwarder: &[u8]) -> (r: Option<(&[u8], ImportSymbol<'_>)>)
    ensures
        match forwarder_target(forwarder@) {
            Some((module, symbol)) => r is Some && (r->0).0@ == module && (r->0).1@ == symbol,
            None => r is None,
        },
{
    let n: usize = forwarder.len();
    let mut dot: Option<usize> = None;
    let mut i: usize = 0;
    while i < n
        invariant
            i <= n,
            n == forwarder@.len(),
            match dot {
                Some(d) => last_dot(forwarder@, i as int) == Some(d as int) && d < i,
                None => last_dot(forwarder@, i as int) is None,
            },
        decreases n - i,
    {
        if forwarder[i] == 0x2e {
            dot = Some(i);
        }
        i = i + 1;
    }
    let d: usize = match dot {
        Some(d) => d,
        None => {
            return None;
        },
    };
    let module: &[u8] = slice_subrange(forwarder, 0, d);
    let symbol: &[u8] = slice_subrange(forwarder, d + 1, n);
    proof {
        assert(module@ =~= forwarder@.take(d as int));
        assert(symbol@ =~= forwarder@.skip(d + 1));
    }
    if symbol.len() == 0 {
        return None;
    }
    if symbol[0] == 0x23 {
        match parse_ordinal(symbol) {
            Some(o) => Some((module, ImportSymbol::Ordinal(o))),
            None => None,
        }
    } else {
        Some((module, ImportSymbol::Name(symbol)))
    }
}

// ---------------------------------------------------------------------------
// Exports
// ---------------------------------------------------------------------------

/// The fields of an export directory that resolution uses.
#[derive(Clone, Copy)]
pub struct ExportTables {
    pub base: u32,
    pub functions: u32,
    pub names: u32,
    pub functions_rva: u32,
    pub names_rva: u32,
    pub ordinals_rva: u32,
}

/// The export directory at `rva` of the image `s`, if it is in the image.
pub open spec fn export_tables_at(s: Seq<u8>, rva: int) -> Option<ExportTables> {
    if rva + 40 > s.len() {
        None
    } else {
        Some(
            ExportTables {
                base: le_u32(s, rva + 16),
                functions: le_u32(s, rva + 20),
                names: le_u32(s, rva + 24),
                functions_rva: le_u32(s, rva + 28),
                names_rva: le_u32(s, rva + 32),
                ordinals_rva: le_u32(s, rva + 36),
            },
        )
    }
}

/// Whether the string at `rva` is `name`.
pub open spec fn export_name_is(s: Seq<u8>, rva: u32, name: Seq<u8>) -> bool {
    rva <= s.len() && c_str(s, rva as int) == name
}

/// The function index of the first name from `i` on that is `name`. Tables that
/// leave the image end the search.
pub open spec fn name_index(s: Seq<u8>, t: ExportTables, name: Seq<u8>, i: int) -> Option<int>
    decreases t.names - i,
{
    if i < 0 || i >= t.names || t.names_rva + 4 * i + 4 > s.len() {
        None
    } else if export_name_is(s, le_u32(s, t.names_rva + 4 * i), name) {
        if t.ordinals_rva + 2 * i + 2 <= s.len() && le_u16(s, t.ordinals_rva + 2 * i)
            < t.functions {
            Some(le_u16(s, t.ordinals_rva + 2 * i) as int)
        } else {
            None
        }
    } else {
        name_index(s, t, name, i + 1)
    }
}

/// The function index that a symbol stands for.
pub open spec fn function_index(s: Seq<u8>, t: ExportTables, symbol: SymbolView) -> Option<int> {
    match symbol {
        SymbolView::Name(name) => name_index(s, t, name, 0),
        SymbolView::Ordinal(o) => if o < t.base || o - t.base >= t.functions {
            None
        } else {
            Some(o - t.base)
        },
    }
}

/// What an export table says of a symbol.
pub enum ExportEntry {
    /// It is not exported.
    Missing,
    /// It is at this RVA.
    At(u32),
    /// It is what another module exports: the forwarder string.
    Forwarded(Seq<u8>),
}

/// What the image `s` exports as `symbol`.
pub open spec fn export_entry(s: Seq<u8>, arch: Arch, symbol: SymbolView) -> ExportEntry {
    let dir = export_directory(s);
    if pe_error(s, arch) is Some || dir is None {
        ExportEntry::Missing
    } else {
        match export_tables_at(s, dir->0.virtual_address as int) {
            None => ExportEntry::Missing,
            Some(t) => match function_index(s, t, symbol) {
                None => ExportEntry::Missing,
                Some(k) => {
                    let at = t.functions_rva + 4 * k;
                    let rva = le_u32(s, at);
                    let lo = dir->0.virtual_address;
                    let hi = lo + dir->0.size;
                    if at + 4 > s.len() || rva == 0 || hi > u32::MAX {
                        ExportEntry::Missing
                    } else if lo <= rva < hi {
                        if rva <= s.len() {
                            ExportEntry::Forwarded(c_str(s, rva as int))
                        } else {
                            ExportEntry::Missing
                        }
                    } else {
                        ExportEntry::At(rva)
                    }
                },
            },
        }
    }
}

/// The export directory of the usable image `s`.
pub open spec fn export_directory(s: Seq<u8>) -> Option<DataDirectory> {
    let off = crate::loader::pe::header::dirs_offset(s);
    if crate::loader::pe::header::dirs_count(s) == 0 || le_u32(s, off) == 0 || le_u32(s, off + 4)
        == 0 {
        None
    } else {
        Some(DataDirectory { virtual_address: le_u32(s, off), size: le_u32(s, off + 4) })
    }
}

/// The address that `module` exports as `symbol`; forwarders are followed up to
/// 8 modules in all.
pub open spec fn export_address(
    modules: Seq<ModuleView>,
    arch: Arch,
    module: ModuleView,
    symbol: SymbolView,
    depth: int,
) -> Option<u64>
    decreases 8 - depth,
{
    if depth >= 8 {
        None
    } else {
        match export_entry(module.image, arch, symbol) {
            ExportEntry::Missing => None,
            ExportEntry::At(rva) => Some(module.base.wrapping_add(rva as u64)),
            ExportEntry::Forwarded(f) => match forwarder_target(f) {
                None => None,
                Some((name, target)) => match module_index(modules, name, 0) {
                    None => None,
                    Some(i) => export_address(modules, arch, modules[i], target, depth + 1),
                },
            },
        }
    }
}

/// The address that the module named `module_name` exports as `symbol`.
pub fn resolve_import<'a>(
    modules: &[PeModuleImage<'a>],
    arch: Arch,
    module_name: &[u8],
    symbol: ImportSymbol<'_>,
) -> (r: Option<u64>)
    ensures
        r == match module_index(modules_view(modules@), module_name@, 0) {
            None => None,
            Some(i) => export_address(
                modules_view(modules@),
                arch,
                modules_view(modules@)[i],
                symbol@,
                0,
            ),
        },
{
    match find_module(modules, module_name) {
        None => None,
        Some(module) => resolve_export_with_depth(modules, arch, module, symbol, 0),
    }
}

/// The address that `module` exports as `symbol`, following forwarders through
/// `modules`.
pub fn resolve_export<'a>(
    modules: &[PeModuleImage<'a>],
    arch: Arch,
    module: &PeModuleImage<'a>,
    symbol: ImportSymbol<'_>,
) -> (r: Option<u64>)
    ensures
        r == export_address(modules_view(modules@), arch, module@, symbol@, 0),
{
    resolve_export_with_depth(modules, arch, module, symbol, 0)
}

fn resolve_name_index(image: &[u8], t: &ExportTables, requested: &[u8]) -> (r: Option<u32>)
    ensures
        match name_index(image@, *t, requested@, 0) {
            Some(k) => r == Some(k as u32) && 0 <= k <= 0xffff,
            None => r is None,
        },
{
    let len: u64 = image.len() as u64;
    let mut i: u32 = 0;
    while i < t.names
        invariant
            i <= t.names,
            len == image.len(),
            name_index(image@, *t, requested@, 0) == name_index(image@, *t, requested@, i as int),
        decreases t.names - i,
    {
        let at: u64 = t.names_rva as u64 + 4 * i as u64;
        if at + 4 > len {
            return None;
        }
        let name_rva: u32 = read_u32(image, at as usize);
        if name_rva as u64 <= len {
            let name: &[u8] = read_c_str(image, name_rva as usize);
            if bytes_eq(name, requested) {
                let ord_at: u64 = t.ordinals_rva as u64 + 2 * i as u64;
                if ord_at + 2 > len {
                    return None;
                }
                let index: u32 = read_u16(image, ord_at as usize) as u32;
                if index < t.functions {
                    return Some(index);
                }
                return None;
            }
        }
        i = i + 1;
    }
    None
}

/// What a module's export table says of a symbol, with the forwarder in place.
enum FoundExport<'a> {
    Missing,
    At(u32),
    Forwarded(&'a [u8]),
}

fn find_export<'a>(image: &'a [u8], arch: Arch, symbol: ImportSymbol<'_>) -> (r: FoundExport<'a>)
    ensures
        match export_entry(image@, arch, symbol@) {
            ExportEntry::Missing => r is Missing,
            ExportEntry::At(rva) => r == FoundExport::At(rva),
            ExportEntry::Forwarded(f) => r matches FoundExport::Forwarded(s) && s@ == f,
        },
{
    let pe: PeHeaders = match validate(image, arch) {
        Ok(pe) => pe,
        Err(_) => {
            return FoundExport::Missing;
        },
    };
    let dir: DataDirectory = match pe.data_directory(image, IMAGE_DIRECTORY_ENTRY_EXPORT) {
        Some(dir) => dir,
        None => {
            return FoundExport::Missing;
        },
    };
    let len: u64 = image.len() as u64;
    if dir.virtual_address as u64 + 40 > len {
        return FoundExport::Missing;
    }
    let at: usize = dir.virtual_address as usize;
    let t = ExportTables {
        base: read_u32(image, at + 16),
        functions: read_u32(image, at + 20),
        names: read_u32(image, at + 24),
        functions_rva: read_u32(image, at + 28),
        names_rva: read_u32(image, at + 32),
        ordinals_rva: read_u32(image, at + 36),
    };
    let index: u32 = match symbol {
        ImportSymbol::Name(name) => match resolve_name_index(image, &t, name) {
            Some(k) => k,
            None => {
                return FoundExport::Missing;
            },
        },
        ImportSymbol::Ordinal(o) => {
            if (o as u32) < t.base || o as u32 - t.base >= t.functions {
                return FoundExport::Missing;
            }
            o as u32 - t.base
        },
    };
    let func_at: u64 = t.functions_rva as u64 + 4 * index as u64;
    if func_at + 4 > len {
        return FoundExport::Missing;
    }
    let rva: u32 = read_u32(image, func_at as usize);
    let lo: u64 = dir.virtual_address as u64;
    let hi: u64 = lo + dir.size as u64;
    if rva == 0 || hi > 0xffff_ffff {
        return FoundExport::Missing;
    }
    if rva as u64 >= lo && (rva as u64) < hi {
        if rva as u64 > len {
            return FoundExport::Missing;
        }
        return FoundExport::Forwarded(read_c_str(image, rva as usize));
    }
    FoundExport::At(rva)
}

fn resolve_export_with_depth<'a>(
    modules: &[PeModuleImage<'a>],
    arch: Arch,
    module: &PeModuleImage<'a>,
    symbol: ImportSymbol<'_>,
    depth: usize,
) -> (r: Option<u64>)
    ensures
        r == export_address(modules_view(modules@), arch, module@, symbol@, depth as int),
    decreases 8 - depth,
{
    if depth >= 8 {
        return None;
    }
    match find_export(module.image, arch, symbol) {
        FoundExport::Missing => None,
        FoundExport::At(rva) => Some(module.base.wrapping_add(rva as u64)),
        FoundExport::Forwarded(f) => match parse_forwarder(f) {
            None => None,
            Some((name, target)) => match find_module(modules, name) {
                None => None,
                Some(next) => resolve_export_with_depth(modules, arch, next, target, depth + 1),
            },
        },
    }
}

// ---------------------------------------------------------------------------
// What an export table says
// ---------------------------------------------------------------------------

/// Whether a usable image has its export directory at `d`, `size` bytes long. The
/// offset of the headers is at 60; the first data directory follows 136 bytes
/// behind, if there are any.
pub open spec fn has_exports_at(s: Seq<u8>, arch: Arch, d: int, size: int) -> bool {
    let headers = le_u32(s, 60) as int;
    &&& pe_error(s, arch) is None
    &&& le_u32(s, headers + 132) > 0
    &&& le_u32(s, headers + 136) == d
    &&& le_u32(s, headers + 140) == size
    &&& 0 < d
    &&& d + 40 <= s.len()
    &&& 0 < size
    &&& d + size <= 0xffff_ffff
}

/// Whether a terminated string is at an offset.
pub open spec fn has_string(s: Seq<u8>, off: int, name: Seq<u8>) -> bool {
    &&& 0 <= off
    &&& off + name.len() < s.len()
    &&& s[off + name.len()] == 0
    &&& forall|j: int| 0 <= j < name.len() ==> #[trigger] s[off + j] == name[j] && name[j] != 0
}

pub proof fn lemma_has_string(s: Seq<u8>, off: int, name: Seq<u8>)
    requires
        has_string(s, off, name),
    ensures
        c_str(s, off) == name,
{
    assert forall|i: int| off <= i < off + name.len() implies s[i] != 0 by {
        assert(s[off + (i - off)] == name[i - off]);
    }
    lemma_c_len(s, off, name.len() as int);
    assert forall|j: int| 0 <= j < name.len() implies c_str(s, off)[j] == #[trigger] name[j] by {
        assert(s[off + j] == name[j]);
    }
    assert(c_str(s, off) =~= name);
}

/// The function with an ordinal is where its entry in the function table says,
/// counted from the base of the module: ordinals count from the number at 16 of
/// the directory, the table is at the offset at 28.
pub proof fn lemma_export_by_ordinal(
    modules: Seq<ModuleView>,
    arch: Arch,
    m: ModuleView,
    d: int,
    size: int,
    o: u16,
    depth: int,
)
    requires
        has_exports_at(m.image, arch, d, size),
        0 <= depth < 8,
        le_u32(m.image, d + 16) <= o < le_u32(m.image, d + 16) + le_u32(m.image, d + 20),
        ({
            let at = le_u32(m.image, d + 28) + 4 * (o - le_u32(m.image, d + 16));
            let rva = le_u32(m.image, at);
            &&& at + 4 <= m.image.len()
            &&& rva != 0
            &&& rva < d || d + size <= rva
        }),
    ensures
        ({
            let at = le_u32(m.image, d + 28) + 4 * (o - le_u32(m.image, d + 16));
            let r = export_address(modules, arch, m, SymbolView::Ordinal(o), depth);
            r is Some && (r->0 - m.base - le_u32(m.image, at)) % 0x1_0000_0000_0000_0000 == 0
        }),
{
}

proof fn lemma_name_index(s: Seq<u8>, t: ExportTables, name: Seq<u8>, i: int, j: int)
    requires
        0 <= j <= i < t.names,
        t.names_rva + 4 * i + 4 <= s.len(),
        export_name_is(s, le_u32(s, t.names_rva + 4 * i), name),
        forall|k: int|
            0 <= k < i ==> !export_name_is(s, #[trigger] le_u32(s, t.names_rva + 4 * k), name),
        t.ordinals_rva + 2 * i + 2 <= s.len(),
        le_u16(s, t.ordinals_rva + 2 * i) < t.functions,
    ensures
        name_index(s, t, name, j) == Some(le_u16(s, t.ordinals_rva + 2 * i) as int),
    decreases i - j,
{
    if j < i {
        assert(!export_name_is(s, le_u32(s, t.names_rva + 4 * j), name));
        lemma_name_index(s, t, name, i, j + 1);
    }
}

/// A name stands for an ordinal: looking up the `i`-th name of the table gives what
/// looking up the `i`-th entry of the ordinal table, counted from the first
/// ordinal, gives, forwarders included. Of equal names the first one counts.
pub proof fn lemma_names_stand_for_ordinals(
    modules: Seq<ModuleView>,
    arch: Arch,
    m: ModuleView,
    d: int,
    size: int,
    name: Seq<u8>,
    i: int,
    o: u16,
    depth: int,
)
    requires
        has_exports_at(m.image, arch, d, size),
        ({
            let s = m.image;
            let (names, ordinals) = (le_u32(s, d + 32) as int, le_u32(s, d + 36) as int);
            &&& 0 <= i < le_u32(s, d + 24)
            &&& names + 4 * i + 4 <= s.len()
            &&& ordinals + 2 * i + 2 <= s.len()
            &&& has_string(s, le_u32(s, names + 4 * i) as int, name)
            &&& forall|j: int|
                0 <= j < i ==> {
                    let rva = #[trigger] le_u32(s, names + 4 * j);
                    rva > s.len() || c_str(s, rva as int) != name
                }
            &&& le_u16(s, ordinals + 2 * i) < le_u32(s, d + 20)
            &&& o == le_u32(s, d + 16) + le_u16(s, ordinals + 2 * i)
        }),
    ensures
        export_address(modules, arch, m, SymbolView::Name(name), depth) == export_address(
            modules,
            arch,
            m,
            SymbolView::Ordinal(o),
            depth,
        ),
{
    let s = m.image;
    let t = export_tables_at(s, d)->0;
    lemma_has_string(s, le_u32(s, t.names_rva + 4 * i) as int, name);
    assert forall|k: int| 0 <= k < i implies !export_name_is(
        s,
        #[trigger] le_u32(s, t.names_rva + 4 * k),
        name,
    ) by {}
    lemma_name_index(s, t, name, i, 0);
    assert(function_index(s, t, SymbolView::Name(name)) == function_index(
        s,
        t,
        SymbolView::Ordinal(o),
    ));
    assert(export_entry(s, arch, SymbolView::Name(name)) == export_entry(
        s,
        arch,
        SymbolView::Ordinal(o),
    ));
}

/// A name that is not in the name table, as far as that is in the image, is not
/// exported.
pub proof fn lemma_unknown_names_are_not_exported(
    modules: Seq<ModuleView>,
    arch: Arch,
    m: ModuleView,
    d: int,
    size: int,
    name: Seq<u8>,
    depth: int,
)
    requires
        has_exports_at(m.image, arch, d, size),
        forall|j: int|
            0 <= j < le_u32(m.image, d + 24) ==> {
                let rva = #[trigger] le_u32(m.image, le_u32(m.image, d + 32) + 4 * j);
                rva > m.image.len() || c_str(m.image, rva as int) != name
            },
    ensures
        export_address(modules, arch, m, SymbolView::Name(name), depth) is None,
{
    let s = m.image;
    let t = export_tables_at(s, d)->0;
    assert forall|k: int| 0 <= k < t.names implies !export_name_is(
        s,
        #[trigger] le_u32(s, t.names_rva + 4 * k),
        name,
    ) by {}
    lemma_no_name(s, t, name, 0);
    assert(function_index(s, t, SymbolView::Name(name)) is None);
}

proof fn lemma_no_name(s: Seq<u8>, t: ExportTables, name: Seq<u8>, i: int)
    requires
        0 <= i,
        forall|k: int|
            0 <= k < t.names ==> !export_name_is(
                s,
                #[trigger] le_u32(s, t.names_rva + 4 * k),
                name,
            ),
    ensures
        name_index(s, t, name, i) is None,
    decreases t.names - i,
{
    if i < t.names {
        assert(!export_name_is(s, le_u32(s, t.names_rva + 4 * i), name));
        lemma_no_name(s, t, name, i + 1);
    }
}

proof fn lemma_last_dot(s: Seq<u8>, dot: int, n: int)
    requires
        0 <= dot < n <= s.len(),
        s[dot] == 0x2e,
        forall|i: int| dot < i < n ==> #[trigger] s[i] != 0x2e,
    ensures
        last_dot(s, n) == Some(dot),
    decreases n,
{
    if dot < n - 1 {
        assert(s[n - 1] != 0x2e);
        lemma_last_dot(s, dot, n - 1);
    }
}

/// A forwarder is the name of a module, a dot, and a symbol, which has no dot: a
/// name, or `#` and the digits of an ordinal. One more digit makes the ordinal ten
/// times as large, plus the digit.
pub proof fn lemma_forwarders(module: Seq<u8>, symbol: Seq<u8>, c: u8)
    requires
        symbol.len() > 0,
        forall|i: int| 0 <= i < symbol.len() ==> #[trigger] symbol[i] != 0x2e,
    ensures
        ({
            let f = module + seq![0x2eu8] + symbol;
            let target = forwarder_target(f);
            let longer = forwarder_target(f.push(c));
            &&& symbol[0] != 0x23 ==> target == Some((module, SymbolView::Name(symbol)))
            &&& target matches Some(t) ==> t.0 == module
            &&& symbol == seq![0x23u8] ==> target == Some((module, SymbolView::Ordinal(0)))
            &&& symbol[0] == 0x23 && 0x30 <= c <= 0x39 ==> match target {
                Some((m, SymbolView::Ordinal(o))) => if o * 10 + (c - 0x30) <= 0xffff {
                    longer == Some(
                        (module, SymbolView::Ordinal((o * 10 + (c - 0x30)) as u16)),
                    )
                } else {
                    longer is None
                },
                Some(_) => false,
                None => longer is None,
            }
            &&& symbol[0] == 0x23 && c != 0x2e && !(0x30 <= c <= 0x39) ==> longer is None
        }),
{
    let f = module + seq![0x2eu8] + symbol;
    let dot = module.len() as int;
    assert forall|i: int| dot < i < f.len() implies #[trigger] f[i] != 0x2e by {
        assert(f[i] == symbol[i - dot - 1]);
    }
    lemma_last_dot(f, dot, f.len() as int);
    assert(f.skip(dot + 1) =~= symbol);
    assert(f.take(dot) =~= module);
    if symbol[0] == 0x23 {
        lemma_decimal_bound(symbol, symbol.len() as int);
    }
    if symbol[0] == 0x23 && c != 0x2e {
        let g = f.push(c);
        let more = symbol.push(c);
        assert forall|i: int| dot < i < g.len() implies #[trigger] g[i] != 0x2e by {
            if i < f.len() {
                assert(g[i] == f[i]);
            }
        }
        assert(g[dot] == 0x2e);
        lemma_last_dot(g, dot, g.len() as int);
        assert(g.skip(dot + 1) =~= more);
        assert(g.take(dot) =~= module);
        lemma_decimal_prefix(symbol, c, symbol.len() as int);
        assert(more[0] == symbol[0]);
        assert(more[more.len() - 1] == c);
        lemma_decimal_bound(symbol, symbol.len() as int);
        lemma_decimal_bound(more, more.len() as int);
    }
}

proof fn lemma_decimal_bound(s: Seq<u8>, n: int)
    ensures
        decimal_after_first(s, n) matches Some(v) ==> 0 <= v <= 0xffff,
    decreases n,
{
    if n > 1 {
        lemma_decimal_bound(s, n - 1);
    }
}

proof fn lemma_decimal_prefix(s: Seq<u8>, c: u8, n: int)
    requires
        n <= s.len(),
    ensures
        decimal_after_first(s.push(c), n) == decimal_after_first(s, n),
    decreases n,
{
    if n > 1 {
        lemma_decimal_prefix(s, c, n - 1);
        assert(s.push(c)[n - 1] == s[n - 1]);
    }
}

/// An entry of the function table that leads into the export directory itself is a
/// forwarder: the symbol is what the module named there exports, at the address
/// that it has in that module.
pub proof fn lemma_forwarded_export(
    modules: Seq<ModuleView>,
    arch: Arch,
    m: ModuleView,
    d: int,
    size: int,
    o: u16,
    depth: int,
    module: Seq<u8>,
    symbol: Seq<u8>,
    i: int,
)
    requires
        has_exports_at(m.image, arch, d, size),
        0 <= depth < 7,
        le_u32(m.image, d + 16) <= o < le_u32(m.image, d + 16) + le_u32(m.image, d + 20),
        symbol.len() > 0,
        symbol[0] != 0x23,
        forall|j: int| 0 <= j < symbol.len() ==> #[trigger] symbol[j] != 0x2e,
        ({
            let at = le_u32(m.image, d + 28) + 4 * (o - le_u32(m.image, d + 16));
            let rva = le_u32(m.image, at);
            &&& at + 4 <= m.image.len()
            &&& d <= rva < d + size
            &&& has_string(m.image, rva as int, module + seq![0x2eu8] + symbol)
        }),
        0 <= i < modules.len(),
        module_matches(modules[i], module),
        forall|j: int| 0 <= j < i ==> !module_matches(#[trigger] modules[j], module),
    ensures
        export_address(modules, arch, m, SymbolView::Ordinal(o), depth) == export_address(
            modules,
            arch,
            modules[i],
            SymbolView::Name(symbol),
            depth + 1,
        ),
{
    let at = le_u32(m.image, d + 28) + 4 * (o - le_u32(m.image, d + 16));
    let f = module + seq![0x2eu8] + symbol;
    lemma_has_string(m.image, le_u32(m.image, at) as int, f);
    lemma_forwarders(module, symbol, 0x30);
    lemma_module_index(modules, module, i, 0);
}

pub proof fn lemma_module_index(modules: Seq<ModuleView>, requested: Seq<u8>, i: int, j: int)
    requires
        0 <= j <= i < modules.len(),
        module_matches(modules[i], requested),
        forall|k: int| 0 <= k < i ==> !module_matches(#[trigger] modules[k], requested),
    ensures
        module_index(modules, requested, j) == Some(i),
    decreases i - j,
{
    if j < i {
        assert(!module_matches(modules[j], requested));
        lemma_module_index(modules, requested, i, j + 1);
    }
}

proof fn lemma_basename_start(name: Seq<u8>, from: int, n: int)
    requires
        0 <= from <= n <= name.len(),
        from > 0 ==> name[from - 1] == 0x2f || name[from - 1] == 0x5c,
        forall|i: int| from <= i < n ==> #[trigger] name[i] != 0x2f && name[i] != 0x5c,
    ensures
        basename_start(name, n) == from,
    decreases n,
{
    if n > from {
        assert(name[n - 1] != 0x2f && name[n - 1] != 0x5c);
        lemma_basename_start(name, from, n - 1);
    }
}

/// A module is found by its name whatever directory it is given with, with or
/// without the suffix `.dll`, in any case of the letters.
pub proof fn lemma_module_names(
    m: ModuleView,
    dir: Seq<u8>,
    file: Seq<u8>,
    suffix: Seq<u8>,
    requested: Seq<u8>,
)
    requires
        m.base != 0,
        m.image.len() != 0,
        m.name == dir + file + suffix,
        dir.len() > 0 ==> dir.last() == 0x2f || dir.last() == 0x5c,
        forall|i: int| 0 <= i < file.len() ==> #[trigger] file[i] != 0x2f && file[i] != 0x5c,
        suffix.len() == 0 || suffix.len() == 4 && suffix[0] == 0x2e && (suffix[1] == 0x64
            || suffix[1] == 0x44) && (suffix[2] == 0x6c || suffix[2] == 0x4c) && (suffix[3] == 0x6c
            || suffix[3] == 0x4c),
        file.len() >= 4 ==> file[file.len() - 4] != 0x2e,
        requested.len() == file.len(),
        forall|i: int|
            0 <= i < file.len() ==> {
                let (a, b) = (#[trigger] requested[i] as int, file[i] as int);
                a == b || (0x41 <= a <= 0x5a && b == a + 32) || (0x41 <= b <= 0x5a && a == b + 32)
            },
    ensures
        module_matches(m, requested),
{
    let name = m.name;
    let from = dir.len() as int;
    let n = name.len() as int;
    let tail = file + suffix;
    assert forall|i: int| from <= i < n implies #[trigger] name[i] != 0x2f && name[i] != 0x5c by {
        assert(name[i] == tail[i - from]);
        if i - from < file.len() {
            assert(tail[i - from] == file[i - from]);
        } else {
            assert(tail[i - from] == suffix[i - from - file.len()]);
        }
    }
    if from > 0 {
        assert(name[from - 1] == dir.last());
    }
    lemma_basename_start(name, from, n);
    assert(name.skip(from) =~= tail);
    let k = tail.len() as int;
    if suffix.len() == 4 {
        assert(tail.subrange(k - 4, k) =~= suffix);
        assert(folded_seq(suffix) =~= dll_suffix());
        assert(tail.take(k - 4) =~= file);
    } else {
        assert(tail =~= file);
    }
    if file.len() >= 4 {
        let f = file.len() as int;
        let end = file.subrange(f - 4, f);
        let want = requested.subrange(f - 4, f);
        assert(end[0] == file[f - 4] && want[0] == requested[f - 4]);
        assert(folded_seq(end)[0] == folded(end[0]) && folded_seq(want)[0] == folded(want[0]));
        assert(dll_suffix()[0] == 0x2e);
        let a = requested[f - 4];
    }
    assert(canonical_name(name) =~= file);
    assert forall|i: int|
        0 <= i < requested.len() implies #[trigger] requested[i] != 0x2f && requested[i] != 0x5c by {
        let f = file[i];
    }
    lemma_basename_start(requested, 0, requested.len() as int);
    assert(requested.skip(0) =~= requested);
    assert(canonical_name(requested) =~= requested);
    assert(folded_seq(file) =~= folded_seq(requested)) by {
        assert forall|i: int| 0 <= i < file.len() implies folded(file[i]) == folded(
            requested[i],
        ) by {
            let a = requested[i];
        }
    }
}

} // verus!
