//! Link map and runtime linker state.
use crate::kernel::core_types::MAX_PE_TLS_MODULES;
use crate::loader::elf::dynamic::DynInfo;
use crate::loader::elf::tls::{TlsLayout, TlsModule, TLS_MAX_MODULES};
use crate::loader::elf::types::{Elf64Dyn, Elf64Phdr, Elf64Rela, Elf64Sym};
use vstd::prelude::*;

verus! {

/// Most objects that can be placed at startup. Objects loaded later live in the
/// chain of [`RtldState`].
pub const RTLD_MAX_OBJECTS: usize = 16;

/// A NUL-terminated string in memory: where it is, and its bytes without the
/// terminator.
pub struct CName {
    pub addr: u64,
    pub bytes: Vec<u8>,
}

/// The bytes of an optional string.
pub open spec fn name_of(name: Option<CName>) -> Option<Seq<u8>> {
    match name {
        Some(n) => Some(n.bytes@),
        None => None,
    }
}

/// A dynamic section without entries.
pub open spec fn no_entries() -> DynInfo {
    DynInfo {
        strtab: 0,
        strsz: 0,
        symtab: 0,
        syment: 0,
        rela: 0,
        relasz: 0,
        relaent: 0,
        jmprel: 0,
        pltrelsz: 0,
        pltgot: 0,
        pltrel: 0,
        init: 0,
        fini: 0,
        init_array: 0,
        init_arraysz: 0,
        fini_array: 0,
        fini_arraysz: 0,
        gnu_hash: 0,
        hash: 0,
        soname: 0,
        flags: 0,
        flags_1: 0,
        rpath: 0,
        runpath: 0,
        verdef: 0,
        verdef_num: 0,
        verneed: 0,
        verneed_num: 0,
        versym: 0,
    }
}

/// The tables of a mapped object.
pub struct ObjectTables {
    /// The symbols, up to the end of the mapping.
    pub symtab: Vec<Elf64Sym>,
    /// The string table, up to the end of the mapping.
    pub strtab: Vec<u8>,
    /// Chain count of the SysV hash table, if the object has one.
    pub hash_nchain: Option<u32>,
    /// The GNU hash table as words.
    pub gnu_hash: Option<Vec<u32>>,
    /// The symbol versions.
    pub versym: Option<Vec<u16>>,
    /// The version definitions.
    pub verdef: Option<Vec<u8>>,
    /// The version requirements.
    pub verneed: Option<Vec<u8>>,
    /// The relocations.
    pub rela: Vec<Elf64Rela>,
    /// The PLT relocations.
    pub jmprel: Vec<Elf64Rela>,
    /// The dynamic section.
    pub dynamic: Vec<Elf64Dyn>,
    /// The program headers.
    pub phdrs: Vec<Elf64Phdr>,
}

impl ObjectTables {
    /// No tables.
    pub fn empty() -> (r: ObjectTables)
        ensures
            r.is_empty(),
    {
        ObjectTables {
            symtab: Vec::new(),
            strtab: Vec::new(),
            hash_nchain: None,
            gnu_hash: None,
            versym: None,
            verdef: None,
            verneed: None,
            rela: Vec::new(),
            jmprel: Vec::new(),
            dynamic: Vec::new(),
            phdrs: Vec::new(),
        }
    }

    /// Only the program headers are known.
    pub open spec fn only_phdrs(self) -> bool {
        &&& self.symtab@.len() == 0
        &&& self.strtab@.len() == 0
        &&& self.hash_nchain is None
        &&& self.gnu_hash is None
        &&& self.versym is None
        &&& self.verdef is None
        &&& self.verneed is None
        &&& self.rela@.len() == 0
        &&& self.jmprel@.len() == 0
        &&& self.dynamic@.len() == 0
    }

    pub open spec fn is_empty(self) -> bool {
        &&& self.symtab@.len() == 0
        &&& self.strtab@.len() == 0
        &&& self.hash_nchain is None
        &&& self.gnu_hash is None
        &&& self.versym is None
        &&& self.verdef is None
        &&& self.verneed is None
        &&& self.rela@.len() == 0
        &&& self.jmprel@.len() == 0
        &&& self.dynamic@.len() == 0
        &&& self.phdrs@.len() == 0
    }
}

/// Entry of one object in the link map.
pub struct LinkMap {
    /// Address of this entry itself, which is its handle.
    pub addr: u64,
    /// Load base address (bias for `ET_DYN`, 0 for `ET_EXEC`).
    pub base: u64,
    /// The object's name.
    pub name: Option<CName>,
    /// Full path of a runtime-loaded object.
    pub path: Option<CName>,
    /// The shared object name, if the object has one.
    pub soname: Option<CName>,
    /// Address of the dynamic section.
    pub dynamic: u64,
    /// Parsed dynamic section.
    pub dyn_info: DynInfo,
    /// Address of the symbol table.
    pub symtab: u64,
    /// Address of the string table.
    pub strtab: u64,
    /// String table size.
    pub strsz: u64,
    /// Address of the GNU hash table, or 0.
    pub gnu_hash: u64,
    /// Address of the relocations.
    pub rela: u64,
    /// Number of relocations.
    pub rela_count: u64,
    /// Address of the PLT relocations.
    pub jmprel: u64,
    /// Number of PLT relocations.
    pub jmprel_count: u64,
    /// Address of the GOT, or 0.
    pub pltgot: u64,
    /// Address of the program headers.
    pub phdr: u64,
    /// Number of program headers.
    pub phnum: u16,
    /// ELF type (`ET_EXEC` or `ET_DYN`).
    pub e_type: u16,
    /// Entry point.
    pub entry: u64,
    /// Start of the mapping that covers all segments.
    pub map_start: u64,
    /// End of the mapping.
    pub map_end: u64,
    /// Final protection across the mapping; 0 for objects mapped run by run.
    pub map_prot: u32,
    /// Image reservation that groups this object's runs (0 for none).
    pub image_id: u64,
    /// Set of the flags in [`crate::loader::link_flags`].
    pub flags: u32,
    /// How often the object was opened and not closed. Zero for startup objects.
    pub refcount: u32,
    /// Address of the vector of dependencies.
    pub deps_ptr: u64,
    /// Handles of the direct dependencies.
    pub deps: Vec<u64>,
    /// TLS module ID (0 for no TLS).
    pub tls_mod_id: usize,
    /// Address of the TLS image.
    pub tls_image: u64,
    /// Size of the initialized TLS data.
    pub tls_filesz: u64,
    /// Total TLS size.
    pub tls_memsz: u64,
    /// TLS alignment.
    pub tls_align: u64,
    /// Address of the init function.
    pub init: u64,
    /// Address of the fini function.
    pub fini: u64,
    /// Address of the init array.
    pub init_array: u64,
    /// Init array size in bytes.
    pub init_arraysz: u64,
    /// Address of the fini array.
    pub fini_array: u64,
    /// Fini array size in bytes.
    pub fini_arraysz: u64,
    /// Address of the version definitions, or 0.
    pub verdef: u64,
    /// Number of version definitions.
    pub verdef_num: u32,
    /// Address of the version requirements, or 0.
    pub verneed: u64,
    /// Number of version requirements.
    pub verneed_num: u32,
    /// Address of the symbol versions, or 0.
    pub versym: u64,
    /// Number of symbols, once the dynamic section was applied.
    pub nsyms: u32,
    /// The `DT_RUNPATH` string.
    pub runpath: Option<CName>,
    /// The `DT_RPATH` string.
    pub rpath: Option<CName>,
    /// What the tables hold.
    pub tables: ObjectTables,
}

impl LinkMap {
    /// An entry without an object.
    pub open spec fn is_zeroed(self) -> bool {
        &&& self.addr == 0
        &&& self.base == 0
        &&& self.name is None
        &&& self.path is None
        &&& self.soname is None
        &&& self.dynamic == 0
        &&& self.symtab == 0
        &&& self.strtab == 0
        &&& self.strsz == 0
        &&& self.gnu_hash == 0
        &&& self.rela == 0
        &&& self.rela_count == 0
        &&& self.jmprel == 0
        &&& self.jmprel_count == 0
        &&& self.pltgot == 0
        &&& self.phdr == 0
        &&& self.phnum == 0
        &&& self.e_type == 0
        &&& self.entry == 0
        &&& self.map_start == 0
        &&& self.map_end == 0
        &&& self.map_prot == 0
        &&& self.image_id == 0
        &&& self.flags == 0
        &&& self.refcount == 0
        &&& self.deps_ptr == 0
        &&& self.deps@.len() == 0
        &&& self.tls_mod_id == 0
        &&& self.tls_image == 0
        &&& self.tls_filesz == 0
        &&& self.tls_memsz == 0
        &&& self.tls_align == 0
        &&& self.init == 0
        &&& self.fini == 0
        &&& self.init_array == 0
        &&& self.init_arraysz == 0
        &&& self.fini_array == 0
        &&& self.fini_arraysz == 0
        &&& self.verdef == 0
        &&& self.verdef_num == 0
        &&& self.verneed == 0
        &&& self.verneed_num == 0
        &&& self.versym == 0
        &&& self.nsyms == 0
        &&& self.runpath is None
        &&& self.rpath is None
        &&& self.tables.is_empty()
        &&& self.dyn_info == no_entries()
    }

    /// Only what is known of an object before its dynamic section was read may
    /// be set: where it is, its name and its program headers.
    pub open spec fn is_unlinked(self) -> bool {
        &&& self.soname is None
        &&& self.dynamic == 0
        &&& self.dyn_info == no_entries()
        &&& self.symtab == 0
        &&& self.strtab == 0
        &&& self.strsz == 0
        &&& self.gnu_hash == 0
        &&& self.rela == 0
        &&& self.rela_count == 0
        &&& self.jmprel == 0
        &&& self.jmprel_count == 0
        &&& self.pltgot == 0
        &&& self.map_prot == 0
        &&& self.flags == 0
        &&& self.refcount == 0
        &&& self.deps_ptr == 0
        &&& self.deps@.len() == 0
        &&& self.tls_mod_id == 0
        &&& self.tls_image == 0
        &&& self.tls_filesz == 0
        &&& self.tls_memsz == 0
        &&& self.tls_align == 0
        &&& self.init == 0
        &&& self.fini == 0
        &&& self.init_array == 0
        &&& self.init_arraysz == 0
        &&& self.fini_array == 0
        &&& self.fini_arraysz == 0
        &&& self.verdef == 0
        &&& self.verdef_num == 0
        &&& self.verneed == 0
        &&& self.verneed_num == 0
        &&& self.versym == 0
        &&& self.nsyms == 0
        &&& self.runpath is None
        &&& self.rpath is None
        &&& self.tables.only_phdrs()
    }

    /// An entry without an object.
    pub fn zeroed() -> (r: LinkMap)
        ensures
            r.is_zeroed(),
    {
        LinkMap {
            addr: 0,
            base: 0,
            name: None,
            path: None,
            soname: None,
            dynamic: 0,
            dyn_info: DynInfo::zeroed(),
            symtab: 0,
            strtab: 0,
            strsz: 0,
            gnu_hash: 0,
            rela: 0,
            rela_count: 0,
            jmprel: 0,
            jmprel_count: 0,
            pltgot: 0,
            phdr: 0,
            phnum: 0,
            e_type: 0,
            entry: 0,
            map_start: 0,
            map_end: 0,
            map_prot: 0,
            image_id: 0,
            flags: 0,
            refcount: 0,
            deps_ptr: 0,
            deps: Vec::new(),
            tls_mod_id: 0,
            tls_image: 0,
            tls_filesz: 0,
            tls_memsz: 0,
            tls_align: 0,
            init: 0,
            fini: 0,
            init_array: 0,
            init_arraysz: 0,
            fini_array: 0,
            fini_arraysz: 0,
            verdef: 0,
            verdef_num: 0,
            verneed: 0,
            verneed_num: 0,
            versym: 0,
            nsyms: 0,
            runpath: None,
            rpath: None,
            tables: ObjectTables::empty(),
        }
    }

    /// Whether a flag is set.
    pub open spec fn flagged(self, flag: u32) -> bool {
        self.flags & flag != 0
    }

    /// Tests whether `flag` is set.
    pub fn has_flag(&self, flag: u32) -> (r: bool)
        ensures
            r == self.flagged(flag),
    {
        self.flags & flag != 0
    }

    /// Sets `flag`.
    pub fn set_flag(&mut self, flag: u32)
        ensures
            *final(self) == (LinkMap { flags: old(self).flags | flag, ..*old(self) }),
    {
        self.flags = self.flags | flag;
    }

    /// Clears `flag`.
    pub fn clear_flag(&mut self, flag: u32)
        ensures
            *final(self) == (LinkMap { flags: old(self).flags & !flag, ..*old(self) }),
    {
        self.flags = self.flags & !flag;
    }
}

/// Setting a flag makes it set, clearing it makes it unset, and neither touches
/// a flag of another bit.
pub proof fn lemma_flags(flags: u32, flag: u32, other: u32)
    requires
        flag != 0,
        flag & other == 0,
    ensures
        (flags | flag) & flag != 0,
        (flags & !flag) & flag == 0,
        (flags | flag) & other == flags & other,
        (flags & !flag) & other == flags & other,
{
    assert(flag != 0 && flag & other == 0 ==> (flags | flag) & flag != 0 && (flags & !flag) & flag
        == 0 && (flags | flag) & other == flags & other && (flags & !flag) & other == flags
        & other) by (bit_vector);
}

/// Bump arena of the runtime linker: entries, dependency vectors and strings are
/// cut from it and never given back.
#[derive(Clone, Copy, PartialEq, Eq, Debug, Structural)]
pub struct ArenaState {
    /// Mapping base.
    pub base: u64,
    /// Total mapping size in bytes.
    pub size: u64,
    /// Next free byte, from `base` on.
    pub cursor: u64,
}

impl ArenaState {
    pub fn zeroed() -> (r: ArenaState)
        ensures
            r == (ArenaState { base: 0, size: 0, cursor: 0 }),
    {
        ArenaState { base: 0, size: 0, cursor: 0 }
    }
}

/// TLS of one PE module.
#[derive(Clone, Copy, PartialEq, Eq, Debug, Structural)]
pub struct PeTlsModuleState {
    pub tls_index: u32,
    pub reserved: u32,
    pub template_addr: u64,
    pub filesz: u64,
    pub memsz: u64,
}

impl PeTlsModuleState {
    pub fn zeroed() -> (r: PeTlsModuleState)
        ensures
            r == (PeTlsModuleState {
                tls_index: 0,
                reserved: 0,
                template_addr: 0,
                filesz: 0,
                memsz: 0,
            }),
    {
        PeTlsModuleState { tls_index: 0, reserved: 0, template_addr: 0, filesz: 0, memsz: 0 }
    }
}

/// Global state of the runtime linker.
pub struct RtldState {
    /// The startup objects: the linker itself, the main executable, and their
    /// dependencies.
    pub objects: Vec<LinkMap>,
    pub tls_layout: TlsLayout,
    pub tls_modules: [TlsModule; TLS_MAX_MODULES],
    /// Shared library load address cursor.
    pub lib_load_addr: u64,
    /// End of the shared library window (0 = unbounded).
    pub lib_load_limit: u64,
    /// Next untyped slot for the linker.
    pub next_untyped_slot: u32,
    /// End of the untyped slots.
    pub untyped_limit: u32,
    /// Next available frame slot.
    pub next_free_slot: u32,
    /// End of the frame slots.
    pub frame_slot_limit: u32,
    /// Scheduling context capability slot.
    pub sc_cap: u32,
    /// The installed PE ABI thread pointer base.
    pub pe_abi_tp: u64,
    /// Number of slots in the PE TLS vector.
    pub pe_tls_vector_len: usize,
    /// Number of published PE TLS modules.
    pub pe_tls_module_count: usize,
    pub pe_tls_modules: [PeTlsModuleState; MAX_PE_TLS_MODULES],
    /// The objects loaded at runtime, the latest first.
    pub chain: Vec<LinkMap>,
    pub arena: ArenaState,
    /// Next ID in the dynamic TLS module ID space.
    pub next_dynamic_tls_module_id: u32,
}

impl RtldState {
    /// A state without objects.
    pub fn zeroed() -> (r: RtldState)
        ensures
            r.objects@.len() == 0,
            r.chain@.len() == 0,
            r.tls_layout == (TlsLayout { size: 0, align: 0, count: 0 }),
            forall|i: int|
                0 <= i < TLS_MAX_MODULES ==> r.tls_modules@[i] == (TlsModule {
                    base: 0,
                    filesz: 0,
                    memsz: 0,
                    align: 0,
                    offset: 0,
                    mod_id: 0,
                }),
            forall|i: int|
                0 <= i < MAX_PE_TLS_MODULES ==> r.pe_tls_modules@[i] == (PeTlsModuleState {
                    tls_index: 0,
                    reserved: 0,
                    template_addr: 0,
                    filesz: 0,
                    memsz: 0,
                }),
            r.arena == (ArenaState { base: 0, size: 0, cursor: 0 }),
            r.lib_load_addr == 0 && r.lib_load_limit == 0,
            r.next_untyped_slot == 0 && r.untyped_limit == 0,
            r.next_free_slot == 0 && r.frame_slot_limit == 0 && r.sc_cap == 0,
            r.pe_abi_tp == 0 && r.pe_tls_vector_len == 0 && r.pe_tls_module_count == 0,
            r.next_dynamic_tls_module_id == 0,
    {
        RtldState {
            objects: Vec::new(),
            tls_layout: TlsLayout { size: 0, align: 0, count: 0 },
            tls_modules: [TlsModule {
                base: 0,
                filesz: 0,
                memsz: 0,
                align: 0,
                offset: 0,
                mod_id: 0,
            };TLS_MAX_MODULES],
            lib_load_addr: 0,
            lib_load_limit: 0,
            next_untyped_slot: 0,
            untyped_limit: 0,
            next_free_slot: 0,
            frame_slot_limit: 0,
            sc_cap: 0,
            pe_abi_tp: 0,
            pe_tls_vector_len: 0,
            pe_tls_module_count: 0,
            pe_tls_modules: [PeTlsModuleState::zeroed();MAX_PE_TLS_MODULES],
            chain: Vec::new(),
            arena: ArenaState::zeroed(),
            next_dynamic_tls_module_id: 0,
        }
    }
}

/// Version of [`CspaceLayoutV1`].
pub const CSPACE_LAYOUT_VERSION: u32 = 1;

/// Where things are in a capability space.
#[derive(Clone, Copy, PartialEq, Eq, Debug, Structural)]
pub struct CspaceLayoutV1 {
    pub version: u32,
    pub flags: u32,
    pub cnode_bits: u32,
    pub frame_slot_base: u32,
    pub alloc_base: u32,
    pub alloc_limit: u32,
    pub recv_base: u32,
    pub recv_limit: u32,
    pub expand_base: u32,
    pub expand_limit: u32,
}

} // verus!
