//! The modules of a PE process.
use crate::kernel::core_types::{SaltyOSMappedImageV1, SALTYOS_IMAGE_KIND_PE};
use crate::loader::elf::header::Arch;
use crate::loader::elf::types::page_ceil;
use crate::loader::link_map::RtldState;
use crate::loader::pe::export::{
    ascii_eq_ignore_case, basename_of, export_address, find_module, folded_seq, module_basename,
    module_index, modules_view, resolve_export, ImportSymbol, PeModuleImage, SymbolView,
};
use crate::loader::rtld::elf::load::span_is_representable;
use crate::loader::rtld::elf::startup::{later, load_end, object_load_end};
use crate::loader::rtld::io::AuxvInfo;
use vstd::prelude::*;
use vstd::slice::slice_subrange;

verus! {

/// Most modules of a process.
pub const MAX_PE_MODULES: usize = 16;

/// Longest module name that is kept.
pub const MAX_PE_MODULE_NAME: usize = 64;

/// Why a PE process cannot be started.
#[derive(Clone, Copy, PartialEq, Eq, Debug, Structural)]
pub enum PeStartError {
    TooManyModules,
    /// A preloaded image has no address or no size.
    InvalidMetadata,
    /// An image has no valid headers.
    InvalidImage,
    /// An imported module is not among those that are loaded.
    NotPreloaded,
    UnresolvedOrdinal,
    UnresolvedName,
    MissingWindow,
    WindowExhausted,
    UntypedExhausted,
    FrameSlotsExhausted,
    TooManyTlsModules,
    TlsVectorMissing,
    TlsVectorOverflow,
}

/// A loaded module.
#[derive(Clone, Copy)]
pub struct LoadedPeModule {
    pub name_len: usize,
    pub name: [u8; MAX_PE_MODULE_NAME],
    pub base: u64,
    pub size: u64,
    pub entry: u64,
    pub tls_raw_data: u64,
    pub tls_raw_size: u64,
    pub tls_index: u32,
}

/// A name, cut off at the longest that is kept.
pub open spec fn cut_name(s: Seq<u8>) -> Seq<u8> {
    if s.len() < 64 {
        s
    } else {
        s.take(64)
    }
}

impl LoadedPeModule {
    /// The name field holds the name.
    pub open spec fn wf(self) -> bool {
        self.name_len <= 64
    }

    /// The module's name.
    pub open spec fn label(self) -> Seq<u8> {
        self.name@.take(self.name_len as int)
    }

    /// No module.
    pub fn zeroed() -> (r: LoadedPeModule)
        ensures
            r.name_len == 0,
            forall|i: int| 0 <= i < 64 ==> r.name@[i] == 0,
            r.base == 0 && r.size == 0 && r.entry == 0,
            r.tls_raw_data == 0 && r.tls_raw_size == 0 && r.tls_index == 0,
    {
        LoadedPeModule {
            name_len: 0,
            name: [0;64],
            base: 0,
            size: 0,
            entry: 0,
            tls_raw_data: 0,
            tls_raw_size: 0,
            tls_index: 0,
        }
    }

    /// Sets the name, cut off at 64 bytes; the rest of the field is zero.
    pub fn set_name(&mut self, value: &[u8])
        ensures
            *final(self) == (LoadedPeModule {
                name_len: final(self).name_len,
                name: final(self).name,
                ..*old(self)
            }),
            final(self).wf(),
            final(self).label() == cut_name(value@),
            forall|i: int| cut_name(value@).len() <= i < 64 ==> final(self).name@[i] == 0,
    {
        let len: usize = if value.len() < MAX_PE_MODULE_NAME {
            value.len()
        } else {
            MAX_PE_MODULE_NAME
        };
        self.name_len = len;
        let mut i: usize = 0;
        while i < MAX_PE_MODULE_NAME
            invariant
                i <= 64,
                len <= 64,
                len <= value@.len(),
                len == cut_name(value@).len(),
                *self == (LoadedPeModule { name_len: len, name: self.name, ..*old(self) }),
                forall|j: int|
                    0 <= j < i ==> #[trigger] self.name@[j] == if j < len {
                        value@[j]
                    } else {
                        0
                    },
            decreases 64 - i,
        {
            self.name[i] = if i < len {
                value[i]
            } else {
                0
            };
            i = i + 1;
        }
        assert(self.label() =~= cut_name(value@));
    }

    /// The module's name.
    pub fn name_bytes(&self) -> (r: &[u8])
        requires
            self.wf(),
        ensures
            r@ == self.label(),
    {
        let r: &[u8] = slice_subrange(self.name.as_slice(), 0, self.name_len);
        assert(r@ =~= self.label());
        r
    }
}

/// The loaded modules, and the TLS vector of the process.
pub struct LoadedPeModules {
    pub modules: Vec<LoadedPeModule>,
    pub tls_vector: u64,
    pub tls_vector_len: usize,
}

impl LoadedPeModules {
    /// There are not too many modules, and each is well-formed.
    pub open spec fn wf(self) -> bool {
        &&& self.modules@.len() <= 16
        &&& forall|i: int| 0 <= i < self.modules@.len() ==> (#[trigger] self.modules@[i]).wf()
    }

    /// No modules.
    pub fn zeroed() -> (r: LoadedPeModules)
        ensures
            r.wf(),
            r.modules@.len() == 0,
            r.tls_vector == 0,
            r.tls_vector_len == 0,
    {
        LoadedPeModules { modules: Vec::new(), tls_vector: 0, tls_vector_len: 0 }
    }

    /// Appends a module. Returns its index.
    pub fn push(&mut self, name: &[u8], base: u64, size: u64, entry: u64) -> (r: Result<
        usize,
        PeStartError,
    >)
        requires
            old(self).wf(),
        ensures
            final(self).wf(),
            final(self).tls_vector == old(self).tls_vector,
            final(self).tls_vector_len == old(self).tls_vector_len,
            if old(self).modules@.len() >= 16 {
                r == Err::<usize, PeStartError>(PeStartError::TooManyModules)
                    && final(self).modules@ == old(self).modules@
            } else {
                let m = final(self).modules@.last();
                &&& r == Ok::<usize, PeStartError>(old(self).modules@.len() as usize)
                &&& final(self).modules@ == old(self).modules@.push(m)
                &&& m.label() == cut_name(name@)
                &&& m.base == base && m.size == size && m.entry == entry
                &&& m.tls_raw_data == 0 && m.tls_raw_size == 0 && m.tls_index == 0
            },
    {
        if self.modules.len() >= MAX_PE_MODULES {
            return Err(PeStartError::TooManyModules);
        }
        let idx: usize = self.modules.len();
        let mut m: LoadedPeModule = LoadedPeModule::zeroed();
        m.set_name(name);
        m.base = base;
        m.size = size;
        m.entry = entry;
        self.modules.push(m);
        assert(self.modules@ =~= old(self).modules@.push(self.modules@.last()));
        Ok(idx)
    }
}

/// Whether a module has a name, without regard to directories and case.
pub open spec fn is_named(m: LoadedPeModule, name: Seq<u8>) -> bool {
    folded_seq(basename_of(m.label())) == folded_seq(basename_of(name))
}

/// Index of the first module from `i` on with a name.
pub open spec fn index_named(modules: Seq<LoadedPeModule>, name: Seq<u8>, i: int) -> Option<int>
    decreases modules.len() - i,
{
    if i < 0 || i >= modules.len() {
        None
    } else if is_named(modules[i], name) {
        Some(i)
    } else {
        index_named(modules, name, i + 1)
    }
}

/// Finds a loaded module by name, without regard to directories and case.
pub fn find_loaded_module_idx(modules: &LoadedPeModules, dll_name: &[u8]) -> (r: Option<usize>)
    requires
        modules.wf(),
    ensures
        match index_named(modules.modules@, dll_name@, 0) {
            Some(i) => r is Some && r->0 == i && i < modules.modules@.len(),
            None => r is None,
        },
{
    let wanted: &[u8] = module_basename(dll_name);
    let mut i: usize = 0;
    while i < modules.modules.len()
        invariant
            modules.wf(),
            wanted@ == basename_of(dll_name@),
            i <= modules.modules@.len(),
            index_named(modules.modules@, dll_name@, 0) == index_named(
                modules.modules@,
                dll_name@,
                i as int,
            ),
        decreases modules.modules@.len() - i,
    {
        if ascii_eq_ignore_case(module_basename(modules.modules[i].name_bytes()), wanted) {
            return Some(i);
        }
        i = i + 1;
    }
    None
}

/// Takes over a preloaded image, if it is a PE image and no module has its name.
/// Returns whether it was.
pub fn seed_preloaded_module(modules: &mut LoadedPeModules, mapped: &SaltyOSMappedImageV1) -> (r:
    Result<bool, PeStartError>)
    requires
        old(modules).wf(),
    ensures
        final(modules).wf(),
        if mapped.image.kind != 2 || index_named(
            old(modules).modules@,
            mapped.label(),
            0,
        ) is Some {
            r == Ok::<bool, PeStartError>(false) && *final(modules) == *old(modules)
        } else if mapped.image.base == 0 || mapped.image.size == 0 {
            r == Err::<bool, PeStartError>(PeStartError::InvalidMetadata) && *final(modules)
                == *old(modules)
        } else if old(modules).modules@.len() >= 16 {
            r == Err::<bool, PeStartError>(PeStartError::TooManyModules)
                && final(modules).modules@ == old(modules).modules@
        } else {
            let m = final(modules).modules@.last();
            &&& r == Ok::<bool, PeStartError>(true)
            &&& final(modules).modules@ == old(modules).modules@.push(m)
            &&& m.label() == mapped.label()
            &&& m.base == mapped.image.base
            &&& m.size == mapped.image.size
            &&& m.entry == mapped.image.entry
            &&& m.tls_raw_data == 0 && m.tls_raw_size == 0 && m.tls_index == 0
        },
{
    if mapped.image.kind != SALTYOS_IMAGE_KIND_PE {
        return Ok(false);
    }
    if find_loaded_module_idx(modules, mapped.name_bytes()).is_some() {
        return Ok(false);
    }
    if mapped.image.base == 0 || mapped.image.size == 0 {
        return Err(PeStartError::InvalidMetadata);
    }
    match modules.push(
        mapped.name_bytes(),
        mapped.image.base,
        mapped.image.size,
        mapped.image.entry,
    ) {
        Ok(_) => Ok(true),
        Err(e) => Err(e),
    }
}

/// A sum, cut off at the largest address.
pub open spec fn capped_add(a: u64, b: int) -> int {
    if a + b > u64::MAX {
        u64::MAX as int
    } else {
        a + b
    }
}

/// End of the main image in memory.
pub open spec fn main_image_end(auxv: AuxvInfo) -> u64 {
    capped_add(auxv.main_image.base, page_ceil(auxv.main_image.size as int)) as u64
}

/// Chooses where the linker maps memory: in the window that the spawner gave, or
/// else behind the main image and the linker, with a page between, unbounded.
pub fn init_shared_lib_window(st: &mut RtldState, auxv: &AuxvInfo)
    requires
        old(st).objects@.len() >= 1,
        span_is_representable(old(st).objects@[0].tables.phdrs@),
        auxv.main_image.size + 4095 <= u64::MAX,
        auxv.dso_window_base == 0 ==> later(
            main_image_end(*auxv),
            load_end(old(st).objects@[0]),
        ) + 8191 <= u64::MAX,
    ensures
        *final(st) == if auxv.dso_window_base != 0 {
            RtldState {
                lib_load_addr: auxv.dso_window_base,
                lib_load_limit: capped_add(
                    auxv.dso_window_base,
                    auxv.dso_window_size as int,
                ) as u64,
                ..*old(st)
            }
        } else {
            RtldState {
                lib_load_addr: page_ceil(
                    later(main_image_end(*auxv), load_end(old(st).objects@[0])) + 4096,
                ) as u64,
                lib_load_limit: 0,
                ..*old(st)
            }
        },
{
    if auxv.dso_window_base != 0 {
        st.lib_load_addr = auxv.dso_window_base;
        st.lib_load_limit = if auxv.dso_window_size > u64::MAX - auxv.dso_window_base {
            u64::MAX
        } else {
            auxv.dso_window_base + auxv.dso_window_size
        };
        return;
    }
    let rtld_end: u64 = object_load_end(&st.objects[0]);
    let size: u64 = (auxv.main_image.size + 4095) / 4096 * 4096;
    let main_end: u64 = if size > u64::MAX - auxv.main_image.base {
        u64::MAX
    } else {
        auxv.main_image.base + size
    };
    let end: u64 = if main_end > rtld_end {
        main_end
    } else {
        rtld_end
    };
    st.lib_load_addr = (end + 8191) / 4096 * 4096;
    st.lib_load_limit = 0;
}

/// Memory that the linker maps for itself.
#[derive(Clone, Copy, PartialEq, Eq, Debug, Structural)]
pub struct Reservation {
    pub addr: u64,
    pub pages: u64,
    /// First of as many frame slots as there are pages.
    pub first_slot: u32,
}

/// Why memory cannot be reserved; `None` if it can.
pub open spec fn reserve_error(st: RtldState, size: u64) -> Option<PeStartError> {
    let next = capped_add(st.lib_load_addr, page_ceil(size as int));
    let slots = (page_ceil(size as int) / 4096) % 0x1_0000_0000;
    if st.lib_load_addr == 0 {
        Some(PeStartError::MissingWindow)
    } else if st.lib_load_limit != 0 && next > st.lib_load_limit {
        Some(PeStartError::WindowExhausted)
    } else if st.next_untyped_slot == 0 || st.next_untyped_slot >= st.untyped_limit {
        Some(PeStartError::UntypedExhausted)
    } else if st.next_free_slot == 0 || st.next_free_slot + slots > st.frame_slot_limit || (
    st.next_free_slot + slots > u32::MAX) {
        Some(PeStartError::FrameSlotsExhausted)
    } else {
        None
    }
}

/// What is reserved for `size` bytes.
pub open spec fn reservation(st: RtldState, size: u64) -> Reservation {
    Reservation {
        addr: st.lib_load_addr,
        pages: (page_ceil(size as int) / 4096) as u64,
        first_slot: st.next_free_slot,
    }
}

/// The state after `size` bytes were reserved.
pub open spec fn after_reservation(st: RtldState, size: u64) -> RtldState {
    let pages = page_ceil(size as int) / 4096;
    RtldState {
        next_free_slot: (st.next_free_slot + pages) as u32,
        lib_load_addr: capped_add(st.lib_load_addr, pages * 4096) as u64,
        ..st
    }
}

/// Reserves whole pages of the library window, with a frame slot for each. They
/// are mapped one by one (see `alloc_and_map_range`).
pub fn reserve_space(st: &mut RtldState, size: u64) -> (r: Result<Reservation, PeStartError>)
    requires
        size + 4095 <= u64::MAX,
        size / 4096 < u32::MAX,
    ensures
        match reserve_error(*old(st), size) {
            Some(e) => r == Err::<Reservation, PeStartError>(e) && *final(st) == *old(st),
            None => r == Ok::<Reservation, PeStartError>(reservation(*old(st), size)) && *final(st)
                == after_reservation(*old(st), size),
        },
{
    let addr: u64 = st.lib_load_addr;
    if addr == 0 {
        return Err(PeStartError::MissingWindow);
    }
    let bytes: u64 = (size + 4095) / 4096 * 4096;
    let next: u64 = if bytes > u64::MAX - addr {
        u64::MAX
    } else {
        addr + bytes
    };
    if st.lib_load_limit != 0 && next > st.lib_load_limit {
        return Err(PeStartError::WindowExhausted);
    }
    let pages: u64 = bytes / 4096;
    assert(pages <= u32::MAX);
    if st.next_untyped_slot == 0 || st.next_untyped_slot >= st.untyped_limit {
        return Err(PeStartError::UntypedExhausted);
    }
    let first_slot: u32 = st.next_free_slot;
    let end_slot: u64 = first_slot as u64 + pages;
    if first_slot == 0 || end_slot > u32::MAX as u64 || end_slot > st.frame_slot_limit as u64 {
        return Err(PeStartError::FrameSlotsExhausted);
    }
    st.next_free_slot = end_slot as u32;
    st.lib_load_addr = next;
    Ok(Reservation { addr, pages, first_slot })
}

/// Reservations do not overlap, neither in memory nor in slots: the next one starts
/// where the last one ends, unless that is past the largest address.
pub proof fn lemma_reservations_are_disjoint(st: RtldState, size: u64, next_size: u64)
    requires
        reserve_error(st, size) is None,
        size / 4096 < u32::MAX,
        st.lib_load_addr + page_ceil(size as int) <= u64::MAX,
    ensures
        ({
            let first = reservation(st, size);
            let next = reservation(after_reservation(st, size), next_size);
            &&& first.addr + first.pages * 4096 == next.addr
            &&& first.first_slot + first.pages == next.first_slot
        }),
{
}

/// Where the program starts: as the auxiliary vector says, else as the image
/// description says, else at the entry point of the image.
pub fn entry_point(auxv: &AuxvInfo, image_entry: u32) -> (r: u64)
    ensures
        r == if auxv.at_entry != 0 {
            auxv.at_entry
        } else if auxv.main_image.entry != 0 {
            auxv.main_image.entry
        } else {
            auxv.main_image.base.wrapping_add(image_entry as u64)
        },
{
    if auxv.at_entry != 0 {
        auxv.at_entry
    } else if auxv.main_image.entry != 0 {
        auxv.main_image.entry
    } else {
        auxv.main_image.base.wrapping_add(image_entry as u64)
    }
}

/// `kernel32.dll`.
pub open spec fn builtin_module() -> Seq<u8> {
    seq![
        0x6bu8, 0x65u8, 0x72u8, 0x6eu8, 0x65u8, 0x6cu8, 0x33u8, 0x32u8, 0x2eu8, 0x64u8, 0x6cu8,
        0x6cu8,
    ]
}

/// `kernel32_runtime_init`.
pub open spec fn builtin_symbol() -> Seq<u8> {
    seq![
        0x6bu8, 0x65u8, 0x72u8, 0x6eu8, 0x65u8, 0x6cu8, 0x33u8, 0x32u8, 0x5fu8, 0x72u8, 0x75u8,
        0x6eu8, 0x74u8, 0x69u8, 0x6du8, 0x65u8, 0x5fu8, 0x69u8, 0x6eu8, 0x69u8, 0x74u8,
    ]
}

/// The initialiser of a builtin module.
#[derive(Clone, Copy, PartialEq, Eq, Debug, Structural)]
pub enum BuiltinInit {
    /// The module is not loaded.
    Absent,
    /// The module has no such export.
    Missing,
    At(u64),
}

/// The runtime initialiser of the base module, which is called before any module
/// entry.
pub fn init_builtin_modules(images: &[PeModuleImage<'_>], arch: Arch) -> (r: BuiltinInit)
    ensures
        r == match module_index(modules_view(images@), builtin_module(), 0) {
            None => BuiltinInit::Absent,
            Some(i) => match export_address(
                modules_view(images@),
                arch,
                modules_view(images@)[i],
                SymbolView::Name(builtin_symbol()),
                0,
            ) {
                None => BuiltinInit::Missing,
                Some(addr) => BuiltinInit::At(addr),
            },
        },
{
    let module: [u8; 12] = [
        0x6b,
        0x65,
        0x72,
        0x6e,
        0x65,
        0x6c,
        0x33,
        0x32,
        0x2e,
        0x64,
        0x6c,
        0x6c,
    ];
    let symbol: [u8; 21] = [
        0x6b,
        0x65,
        0x72,
        0x6e,
        0x65,
        0x6c,
        0x33,
        0x32,
        0x5f,
        0x72,
        0x75,
        0x6e,
        0x74,
        0x69,
        0x6d,
        0x65,
        0x5f,
        0x69,
        0x6e,
        0x69,
        0x74,
    ];
    assert(module@ =~= builtin_module());
    assert(symbol@ =~= builtin_symbol());
    match find_module(images, module.as_slice()) {
        None => BuiltinInit::Absent,
        Some(m) => match resolve_export(
            images,
            arch,
            m,
            ImportSymbol::Name(symbol.as_slice()),
        ) {
            None => BuiltinInit::Missing,
            Some(addr) => BuiltinInit::At(addr),
        },
    }
}

} // verus!
