//! Core userland types: kernel ABI return shape, message staging, startup
//! contract, runtime handoff, capability table, service registry, TLS layout.
//!
//! Addresses in other structures are plain 64-bit words; 0 stands for none.
use vstd::prelude::*;
use vstd::slice::slice_subrange;

verus! {

/// Capability slot index: a slot in the thread's CNode.
pub type Cap = u64;

/// A borrowed, non-owning reference to a capability: its slot address plus the
/// CSpace invoke depth needed to resolve it.
#[derive(Clone, Copy, PartialEq, Eq, Debug, Structural)]
pub struct CapRef {
    addr: Cap,
    depth: u8,
}

impl CapRef {
    /// The slot address.
    pub closed spec fn slot(self) -> u64 {
        self.addr
    }

    /// The invoke depth.
    pub closed spec fn levels(self) -> u8 {
        self.depth
    }

    /// The null reference (slot 0, depth 0). Treated as absent.
    pub fn null() -> (r: CapRef)
        ensures
            r.slot() == 0,
            r.levels() == 0,
    {
        CapRef { addr: 0, depth: 0 }
    }

    /// A reference to a flat root-CNode slot (invoke depth 0).
    pub fn flat(addr: Cap) -> (r: CapRef)
        ensures
            r.slot() == addr,
            r.levels() == 0,
    {
        CapRef { addr, depth: 0 }
    }

    /// A reference carrying an explicit CSpace invoke depth.
    pub fn at_depth(addr: Cap, depth: u8) -> (r: CapRef)
        ensures
            r.slot() == addr,
            r.levels() == depth,
    {
        CapRef { addr, depth }
    }

    /// The raw slot address.
    pub fn addr(&self) -> (r: Cap)
        ensures
            r == self.slot(),
    {
        self.addr
    }

    /// The CSpace invoke depth required to resolve this slot.
    pub fn depth(&self) -> (r: u8)
        ensures
            r == self.levels(),
    {
        self.depth
    }

    /// Whether the reference is absent.
    pub fn is_null(&self) -> (r: bool)
        ensures
            r == (self.slot() == 0),
    {
        self.addr == 0
    }
}

/// Slot and depth determine a reference.
pub broadcast proof fn lemma_cap_ref_ext(a: CapRef, b: CapRef)
    requires
        #[trigger] a.slot() == #[trigger] b.slot(),
        a.levels() == b.levels(),
    ensures
        a == b,
{
}

impl Default for CapRef {
    /// An absent capability.
    fn default() -> (r: CapRef)
        ensures
            r.slot() == 0,
            r.levels() == 0,
    {
        CapRef::null()
    }
}

impl From<Cap> for CapRef {
    /// A bare slot address resolves as a flat root-CNode slot.
    fn from(addr: Cap) -> (r: CapRef) {
        CapRef { addr, depth: 0 }
    }
}

/// A slot address converts to the flat reference to that slot.
pub proof fn lemma_cap_ref_from(addr: Cap)
    ensures
        <CapRef as vstd::std_specs::convert::FromSpec<Cap>>::obeys_from_spec(),
        <CapRef as vstd::std_specs::convert::FromSpec<Cap>>::from_spec(addr).slot() == addr,
        <CapRef as vstd::std_specs::convert::FromSpec<Cap>>::from_spec(addr).levels() == 0,
{
}

impl vstd::std_specs::convert::FromSpecImpl<Cap> for CapRef {
    closed spec fn obeys_from_spec() -> bool {
        true
    }

    closed spec fn from_spec(addr: Cap) -> CapRef {
        CapRef { addr, depth: 0 }
    }
}

/// A process-lifetime capability that is intentionally never released.
#[derive(Clone, Copy, PartialEq, Eq, Debug, Structural)]
pub struct LeakedCapRef(CapRef);

impl LeakedCapRef {
    /// The reference inside.
    pub closed spec fn inner(self) -> CapRef {
        self.0
    }

    /// The null reference.
    pub fn null() -> (r: LeakedCapRef)
        ensures
            r.inner().slot() == 0,
            r.inner().levels() == 0,
    {
        LeakedCapRef(CapRef::null())
    }

    /// A leaked reference to a flat root-CNode slot.
    pub fn flat(addr: Cap) -> (r: LeakedCapRef)
        ensures
            r.inner().slot() == addr,
            r.inner().levels() == 0,
    {
        LeakedCapRef(CapRef::flat(addr))
    }

    /// A leaked reference carrying an explicit CSpace invoke depth.
    pub fn at_depth(addr: Cap, depth: u8) -> (r: LeakedCapRef)
        ensures
            r.inner().slot() == addr,
            r.inner().levels() == depth,
    {
        LeakedCapRef(CapRef::at_depth(addr, depth))
    }

    /// Borrow as a plain [`CapRef`] for an invocation.
    pub fn cap_ref(self) -> (r: CapRef)
        ensures
            r == self.inner(),
    {
        self.0
    }

    /// The raw slot address.
    pub fn addr(self) -> (r: Cap)
        ensures
            r == self.inner().slot(),
    {
        self.0.addr()
    }

    /// The CSpace invoke depth.
    pub fn depth(self) -> (r: u8)
        ensures
            r == self.inner().levels(),
    {
        self.0.depth()
    }

    /// Whether the reference is absent.
    pub fn is_null(self) -> (r: bool)
        ensures
            r == (self.inner().slot() == 0),
    {
        self.0.is_null()
    }
}

impl From<LeakedCapRef> for CapRef {
    fn from(leaked: LeakedCapRef) -> (r: CapRef) {
        leaked.0
    }
}

impl vstd::std_specs::convert::FromSpecImpl<LeakedCapRef> for CapRef {
    closed spec fn obeys_from_spec() -> bool {
        true
    }

    closed spec fn from_spec(leaked: LeakedCapRef) -> CapRef {
        leaked.0
    }
}

/// Result of a raw kernel call: `error` is 0 on success, otherwise an error
/// code; `value` carries the return payload.
#[derive(Clone, Copy, PartialEq, Eq, Debug, Structural)]
pub struct TronaResult {
    pub error: u64,
    pub value: u64,
}

/// Userland message, the staging shape that is filled before a kernel call.
#[derive(Clone, Copy)]
pub struct TronaMsg {
    pub label: u64,
    pub length: u64,
    pub regs: [u64; 32],
}

impl TronaMsg {
    /// A zero-initialized message.
    pub fn zeroed() -> (r: TronaMsg)
        ensures
            r.label == 0,
            r.length == 0,
            forall|i: int| 0 <= i < 32 ==> r.regs@[i] == 0,
    {
        TronaMsg {
            label: 0,
            length: 0,
            regs: [0; 32],
        }
    }
}

impl Default for TronaMsg {
    fn default() -> (r: TronaMsg)
        ensures
            r.label == 0,
            r.length == 0,
            forall|i: int| 0 <= i < 32 ==> r.regs@[i] == 0,
    {
        TronaMsg::zeroed()
    }
}

/// Number of `u64` words in the message buffer's reserved payload area.
pub const IPC_BUFFER_RESERVED_WORDS: usize = 468;

/// Number of bytes in the message buffer's reserved payload area.
pub const IPC_BUFFER_RESERVED_BYTES: usize = 3744;

/// `reserved[0]` carries the receive-slot path depth for nested cap delivery.
pub const IPC_BUFFER_RECV_SLOT_DEPTH_INDEX: usize = 0;

/// `reserved[1..]` is available for extended payloads.
pub const IPC_BUFFER_RESERVED_PAYLOAD_BASE: usize = 1;

/// Maximum number of endpoint slots that fit in the extended payload area.
pub const IPC_BUFFER_RECV_ANY_ENDPOINT_WORDS: usize = 467;

/// Usable slot ranges of a child, as half-open ranges.
/// 
/// `[alloc_base, alloc_limit)` is an allocator envelope: reserved holes such as
/// `[recv_base, recv_limit)` and `[expand_base, expand_limit)` must be excluded
/// before handing slots to the general allocator.
#[derive(Clone, Copy)]
pub struct SaltyOSCspaceLayoutV1 {
    pub version: u64,
    pub flags: u64,
    pub cnode_bits: u64,
    pub rtld_untyped_base: u64,
    pub rtld_untyped_count: u64,
    /// Size (as power of 2) of every untyped capability in the window
    /// `[rtld_untyped_base, rtld_untyped_base + rtld_untyped_count)`.
    pub rtld_untyped_size_bits: u64,
    pub frame_slot_base: u64,
    pub frame_slot_limit: u64,
    pub alloc_base: u64,
    pub alloc_limit: u64,
    pub recv_base: u64,
    pub recv_limit: u64,
    pub expand_base: u64,
    pub expand_limit: u64,
}

impl SaltyOSCspaceLayoutV1 {
    pub const VERSION: u64 = 1;

    pub const FLAG_HAS_RECV_RANGE: u64 = 1;

    pub const FLAG_HAS_EXPAND_RANGE: u64 = 2;

    /// All fields zero.
    pub fn zeroed() -> (r: SaltyOSCspaceLayoutV1)
        ensures
            r.version == 0,
            r.flags == 0,
            r.cnode_bits == 0,
            r.rtld_untyped_base == 0,
            r.rtld_untyped_count == 0,
            r.rtld_untyped_size_bits == 0,
            r.frame_slot_base == 0,
            r.frame_slot_limit == 0,
            r.alloc_base == 0,
            r.alloc_limit == 0,
            r.recv_base == 0,
            r.recv_limit == 0,
            r.expand_base == 0,
            r.expand_limit == 0,
    {
        SaltyOSCspaceLayoutV1 {
            version: 0,
            flags: 0,
            cnode_bits: 0,
            rtld_untyped_base: 0,
            rtld_untyped_count: 0,
            rtld_untyped_size_bits: 0,
            frame_slot_base: 0,
            frame_slot_limit: 0,
            alloc_base: 0,
            alloc_limit: 0,
            recv_base: 0,
            recv_limit: 0,
            expand_base: 0,
            expand_limit: 0,
        }
    }

    /// Slots in the allocator envelope.
    pub fn alloc_envelope_count(&self) -> (r: u64)
        ensures
            r == range_len(self.alloc_base, self.alloc_limit),
    {
        if self.alloc_limit > self.alloc_base {
            self.alloc_limit - self.alloc_base
        } else {
            0
        }
    }

    /// Slots in the allocator envelope.
    pub fn alloc_count(&self) -> (r: u64)
        ensures
            r == range_len(self.alloc_base, self.alloc_limit),
    {
        self.alloc_envelope_count()
    }

    /// Slots in the receive range.
    pub fn recv_count(&self) -> (r: u64)
        ensures
            r == range_len(self.recv_base, self.recv_limit),
    {
        if self.recv_limit > self.recv_base {
            self.recv_limit - self.recv_base
        } else {
            0
        }
    }

    /// Whether the receive range is not empty.
    pub fn has_recv_range(&self) -> (r: bool)
        ensures
            r == (range_len(self.recv_base, self.recv_limit) > 0),
    {
        self.recv_limit > self.recv_base
    }

    /// Whether the expand range is not empty.
    pub fn has_expand_range(&self) -> (r: bool)
        ensures
            r == (range_len(self.expand_base, self.expand_limit) > 0),
    {
        self.expand_limit > self.expand_base
    }
}

/// Length of the half-open range `[base, limit)`.
pub open spec fn range_len(base: u64, limit: u64) -> int {
    if limit > base {
        limit - base
    } else {
        0
    }
}

/// auxv tag for the startup descriptor pointer.
pub const AT_SALTYOS_STARTUP: u64 = 0x2005;

pub const SALTYOS_IMAGE_KIND_NONE: u32 = 0;

pub const SALTYOS_IMAGE_KIND_ELF: u32 = 1;

pub const SALTYOS_IMAGE_KIND_PE: u32 = 2;

pub const SALTYOS_STARTUP_MAX_MAPPED_IMAGES: usize = 16;

pub const SALTYOS_STARTUP_IMAGE_NAME_LEN: usize = 32;

/// An image in the address space: what it is, where it is, where it starts.
#[derive(Clone, Copy, PartialEq, Eq, Debug, Structural)]
pub struct SaltyOSImageInfoV1 {
    pub kind: u32,
    pub aux: u32,
    pub base: u64,
    pub size: u64,
    pub entry: u64,
}

/// No image.
pub open spec fn no_image() -> SaltyOSImageInfoV1 {
    SaltyOSImageInfoV1 { kind: 0, aux: 0, base: 0, size: 0, entry: 0 }
}

impl SaltyOSImageInfoV1 {
    /// No image.
    pub fn zeroed() -> (r: SaltyOSImageInfoV1)
        ensures
            r == no_image(),
    {
        SaltyOSImageInfoV1 { kind: SALTYOS_IMAGE_KIND_NONE, aux: 0, base: 0, size: 0, entry: 0 }
    }

    pub fn new(kind: u32, aux: u32, base: u64, size: u64, entry: u64) -> (r: SaltyOSImageInfoV1)
        ensures
            r == (SaltyOSImageInfoV1 { kind, aux, base, size, entry }),
    {
        SaltyOSImageInfoV1 { kind, aux, base, size, entry }
    }
}

/// A mapped image and its name.
#[derive(Clone, Copy)]
pub struct SaltyOSMappedImageV1 {
    pub image: SaltyOSImageInfoV1,
    pub name_len: u32,
    pub name: [u8; SALTYOS_STARTUP_IMAGE_NAME_LEN],
}

impl SaltyOSMappedImageV1 {
    /// The image's name.
    pub open spec fn label(self) -> Seq<u8> {
        self.name@.take(
            if self.name_len < 32 {
                self.name_len as int
            } else {
                32
            },
        )
    }

    /// No image, without a name.
    pub fn zeroed() -> (r: SaltyOSMappedImageV1)
        ensures
            r.image == no_image(),
            r.name_len == 0,
            forall|i: int| 0 <= i < 32 ==> r.name@[i] == 0,
    {
        SaltyOSMappedImageV1 { image: SaltyOSImageInfoV1::zeroed(), name_len: 0, name: [0; 32] }
    }

    /// Sets the name, cut off at 32 bytes; the rest of the field is zero.
    pub fn set_name(&mut self, value: &[u8])
        ensures
            final(self).image == old(self).image,
            final(self).label() == cut32(value@),
            final(self).name_len == cut32(value@).len(),
            forall|i: int| cut32(value@).len() <= i < 32 ==> final(self).name@[i] == 0,
    {
        let len: usize = if value.len() < 32 { value.len() } else { 32 };
        self.name_len = len as u32;
        let mut i: usize = 0;
        while i < len
            invariant
                i <= len <= 32,
                len <= value@.len(),
                self.image == old(self).image,
                self.name_len == len,
                forall|j: int| 0 <= j < i ==> self.name@[j] == value@[j],
            decreases len - i,
        {
            self.name[i] = value[i];
            i = i + 1;
        }
        while i < 32
            invariant
                len <= i <= 32,
                len <= value@.len(),
                self.image == old(self).image,
                self.name_len == len,
                forall|j: int| 0 <= j < len ==> self.name@[j] == value@[j],
                forall|j: int| len <= j < i ==> self.name@[j] == 0,
            decreases 32 - i,
        {
            self.name[i] = 0;
            i = i + 1;
        }
        assert(self.label() =~= cut32(value@));
    }

    /// The image's name.
    pub fn name_bytes(&self) -> (r: &[u8])
        ensures
            r@ == self.label(),
    {
        let len: usize = if self.name_len < 32 { self.name_len as usize } else { 32 };
        let r: &[u8] = slice_subrange(self.name.as_slice(), 0, len);
        assert(r@ =~= self.label());
        r
    }
}

/// A name cut off at 32 bytes.
pub open spec fn cut32(s: Seq<u8>) -> Seq<u8> {
    if s.len() < 32 {
        s
    } else {
        s.take(32)
    }
}

/// Range and pixel layout of a framebuffer.
#[derive(Clone, Copy, PartialEq, Eq, Debug, Structural)]
pub struct SaltyOSFramebufferInfoV1 {
    pub phys_addr: u64,
    pub width: u32,
    pub height: u32,
    pub pitch: u32,
    pub bpp: u8,
    pub red_pos: u8,
    pub red_size: u8,
    pub green_pos: u8,
    pub green_size: u8,
    pub blue_pos: u8,
    pub blue_size: u8,
    pub reserved: u8,
}

impl SaltyOSFramebufferInfoV1 {
    /// All fields zero.
    pub fn zeroed() -> (r: SaltyOSFramebufferInfoV1)
        ensures
            r.phys_addr == 0,
            r.width == 0,
            r.height == 0,
            r.pitch == 0,
            r.bpp == 0,
            r.red_pos == 0,
            r.red_size == 0,
            r.green_pos == 0,
            r.green_size == 0,
            r.blue_pos == 0,
            r.blue_size == 0,
            r.reserved == 0,
    {
        SaltyOSFramebufferInfoV1 {
            phys_addr: 0,
            width: 0,
            height: 0,
            pitch: 0,
            bpp: 0,
            red_pos: 0,
            red_size: 0,
            green_pos: 0,
            green_size: 0,
            blue_pos: 0,
            blue_size: 0,
            reserved: 0,
        }
    }

    /// Whether there is a framebuffer.
    pub fn is_present(&self) -> (r: bool)
        ensures
            r == (self.phys_addr != 0 && self.width != 0 && self.height != 0 && self.pitch != 0),
    {
        self.phys_addr != 0 && self.width != 0 && self.height != 0 && self.pitch != 0
    }
}

/// The startup block that a spawner hands to a child.
#[derive(Clone, Copy)]
pub struct SaltyOSStartupLayoutV1 {
    pub magic: u32,
    pub version: u32,
    pub flags: u64,
    pub ipc_buffer_vaddr: u64,
    pub scratch_vaddr: u64,
    pub dso_window_base: u64,
    pub dso_window_size: u64,
    pub cap_table_ptr: u64,
    pub cspace_layout_ptr: u64,
    pub boot_untyped_slot: u64,
    pub boot_untyped_size_bits: u64,
    pub boot_untyped_size_bytes: u64,
    pub boot_untyped_available_bytes: u64,
    pub main_image: SaltyOSImageInfoV1,
    pub mapped_image_count: u64,
    pub mapped_images: [SaltyOSMappedImageV1; SALTYOS_STARTUP_MAX_MAPPED_IMAGES],
    /// Bitmap of child VFS client-state slots the spawner pre-populated. Word 0
    /// is slots 0..64, word 1 is slots 64..128.
    pub preinstalled_slot_bitmap: [u64; 2],
    /// Device metadata of the framebuffer capability.
    pub framebuffer: SaltyOSFramebufferInfoV1,
}

/// Whether bit `n` of a 128-bit map is set.
pub open spec fn map_bit(map: Seq<u64>, n: int) -> bool {
    map[n / 64] & (1u64 << ((n % 64) as u64)) != 0
}

impl SaltyOSStartupLayoutV1 {
    /// "SLT1".
    pub const MAGIC: u32 = 0x3154_4C53;

    pub const VERSION: u32 = 1;

    /// Nothing is mapped, preinstalled or described yet.
    pub open spec fn is_bare(self) -> bool {
        &&& self.flags == 0
        &&& self.boot_untyped_slot == 0
        &&& self.boot_untyped_size_bits == 0
        &&& self.boot_untyped_size_bytes == 0
        &&& self.boot_untyped_available_bytes == 0
        &&& self.main_image == no_image()
        &&& self.mapped_image_count == 0
        &&& forall|i: int|
            0 <= i < 16 ==> {
                let m = #[trigger] self.mapped_images@[i];
                m.image == no_image() && m.name_len == 0 && forall|j: int|
                    0 <= j < 32 ==> m.name@[j] == 0
            }
        &&& self.preinstalled_slot_bitmap@ == seq![0u64, 0u64]
        &&& self.framebuffer == (SaltyOSFramebufferInfoV1 {
            phys_addr: 0,
            width: 0,
            height: 0,
            pitch: 0,
            bpp: 0,
            red_pos: 0,
            red_size: 0,
            green_pos: 0,
            green_size: 0,
            blue_pos: 0,
            blue_size: 0,
            reserved: 0,
        })
    }

    /// An empty block, not valid.
    pub fn zeroed() -> (r: SaltyOSStartupLayoutV1)
        ensures
            r.is_bare(),
            r.magic == 0,
            r.version == 0,
            r.ipc_buffer_vaddr == 0,
            r.scratch_vaddr == 0,
            r.dso_window_base == 0,
            r.dso_window_size == 0,
            r.cap_table_ptr == 0,
            r.cspace_layout_ptr == 0,
    {
        let r = SaltyOSStartupLayoutV1 {
            magic: 0,
            version: 0,
            flags: 0,
            ipc_buffer_vaddr: 0,
            scratch_vaddr: 0,
            dso_window_base: 0,
            dso_window_size: 0,
            cap_table_ptr: 0,
            cspace_layout_ptr: 0,
            boot_untyped_slot: 0,
            boot_untyped_size_bits: 0,
            boot_untyped_size_bytes: 0,
            boot_untyped_available_bytes: 0,
            main_image: SaltyOSImageInfoV1::zeroed(),
            mapped_image_count: 0,
            mapped_images: [SaltyOSMappedImageV1::zeroed(); 16],
            preinstalled_slot_bitmap: [0; 2],
            framebuffer: SaltyOSFramebufferInfoV1::zeroed(),
        };
        assert(r.preinstalled_slot_bitmap@ =~= seq![0u64, 0u64]);
        r
    }

    /// A valid block without images.
    pub fn new(
        ipc_buffer_vaddr: u64,
        scratch_vaddr: u64,
        dso_window_base: u64,
        dso_window_size: u64,
        cap_table_ptr: u64,
        cspace_layout_ptr: u64,
    ) -> (r: SaltyOSStartupLayoutV1)
        ensures
            r.is_bare(),
            r.magic == 0x3154_4C53,
            r.version == 1,
            r.ipc_buffer_vaddr == ipc_buffer_vaddr,
            r.scratch_vaddr == scratch_vaddr,
            r.dso_window_base == dso_window_base,
            r.dso_window_size == dso_window_size,
            r.cap_table_ptr == cap_table_ptr,
            r.cspace_layout_ptr == cspace_layout_ptr,
    {
        let r = SaltyOSStartupLayoutV1 {
            magic: 0x3154_4C53,
            version: 1,
            flags: 0,
            ipc_buffer_vaddr,
            scratch_vaddr,
            dso_window_base,
            dso_window_size,
            cap_table_ptr,
            cspace_layout_ptr,
            boot_untyped_slot: 0,
            boot_untyped_size_bits: 0,
            boot_untyped_size_bytes: 0,
            boot_untyped_available_bytes: 0,
            main_image: SaltyOSImageInfoV1::zeroed(),
            mapped_image_count: 0,
            mapped_images: [SaltyOSMappedImageV1::zeroed(); 16],
            preinstalled_slot_bitmap: [0; 2],
            framebuffer: SaltyOSFramebufferInfoV1::zeroed(),
        };
        assert(r.preinstalled_slot_bitmap@ =~= seq![0u64, 0u64]);
        r
    }

    /// Whether magic and version are those of this layout.
    pub fn is_valid(&self) -> (r: bool)
        ensures
            r == (self.magic == 0x3154_4C53 && self.version == 1),
    {
        self.magic == 0x3154_4C53 && self.version == 1
    }

    /// Whether slot `n` is flagged as pre-populated. Out-of-range indices are
    /// not.
    pub open spec fn has_slot(self, n: int) -> bool {
        0 <= n < 128 && map_bit(self.preinstalled_slot_bitmap@, n)
    }

    /// Returns `true` if slot `n` is flagged as pre-populated.
    pub fn slot_preinstalled(&self, n: usize) -> (r: bool)
        ensures
            r == self.has_slot(n as int),
    {
        if n >= 128 {
            return false;
        }
        let word: usize = n / 64;
        let bit: u64 = (n % 64) as u64;
        self.preinstalled_slot_bitmap[word] & (1u64 << bit) != 0
    }

    /// Sets the preinstalled flag for slot `n`. Out-of-range indices are
    /// ignored; no other flag changes.
    pub fn set_slot_preinstalled(&mut self, n: usize)
        ensures
            *final(self) == (SaltyOSStartupLayoutV1 {
                preinstalled_slot_bitmap: final(self).preinstalled_slot_bitmap,
                ..*old(self)
            }),
            forall|m: int|
                final(self).has_slot(m) == (old(self).has_slot(m) || (m == n && n < 128)),
    {
        if n >= 128 {
            return;
        }
        let word: usize = n / 64;
        let bit: u64 = (n % 64) as u64;
        let before: u64 = self.preinstalled_slot_bitmap[word];
        self.preinstalled_slot_bitmap[word] = before | (1u64 << bit);
        proof {
            assert forall|m: int| self.has_slot(m) == (old(self).has_slot(m) || m == n) by {
                if 0 <= m < 128 && m / 64 == word {
                    lemma_set_bit(before, bit, (m % 64) as u64);
                }
            }
        }
    }

    /// Sets the main image.
    pub fn set_main_image(&mut self, image: SaltyOSImageInfoV1)
        ensures
            *final(self) == (SaltyOSStartupLayoutV1 { main_image: image, ..*old(self) }),
    {
        self.main_image = image;
    }

    /// Adds a mapped image. Returns false if there is no room.
    pub fn push_mapped_image(&mut self, image: SaltyOSImageInfoV1, name: &[u8]) -> (r: bool)
        ensures
            r == (old(self).mapped_image_count < 16),
            !r ==> *final(self) == *old(self),
            r ==> {
                let k = old(self).mapped_image_count;
                &&& *final(self) == (SaltyOSStartupLayoutV1 {
                    mapped_images: final(self).mapped_images,
                    mapped_image_count: (k + 1) as u64,
                    ..*old(self)
                })
                &&& forall|i: int|
                    0 <= i < 16 && i != k ==> #[trigger] final(self).mapped_images@[i]
                        == old(self).mapped_images@[i]
                &&& final(self).mapped_images@[k as int].image == image
                &&& final(self).mapped_images@[k as int].label() == cut32(name@)
            },
    {
        if self.mapped_image_count >= 16 {
            return false;
        }
        let idx: usize = self.mapped_image_count as usize;
        let mut slot = SaltyOSMappedImageV1::zeroed();
        slot.image = image;
        slot.set_name(name);
        self.mapped_images[idx] = slot;
        self.mapped_image_count = self.mapped_image_count + 1;
        true
    }

    /// Sets the framebuffer description.
    pub fn set_framebuffer(&mut self, framebuffer: SaltyOSFramebufferInfoV1)
        ensures
            *final(self) == (SaltyOSStartupLayoutV1 { framebuffer, ..*old(self) }),
    {
        self.framebuffer = framebuffer;
    }
}

proof fn lemma_set_bit(word: u64, a: u64, b: u64)
    requires
        a < 64,
        b < 64,
    ensures
        ((word | (1u64 << a)) & (1u64 << b) != 0) == (word & (1u64 << b) != 0 || a == b),
{
    assert(((word | (1u64 << a)) & (1u64 << b) != 0) == (word & (1u64 << b) != 0 || a == b))
        by (bit_vector)
        requires
            a < 64,
            b < 64,
    ;
}

/// Maximum number of static TLS modules exported by the runtime linker.
pub const MAX_STATIC_TLS_MODULES: usize = 8;

/// Maximum number of PE TLS modules exported by the runtime linker.
pub const MAX_PE_TLS_MODULES: usize = 16;

/// First TLS module ID reserved for runtime-loaded modules.
pub const DYNAMIC_TLS_MODULE_BASE: u64 = 17;

/// Per-module static TLS metadata exported by the runtime linker.
#[derive(Clone, Copy, PartialEq, Eq, Debug, Structural)]
pub struct StaticTlsModule {
    pub module_id: u64,
    pub template_addr: u64,
    pub filesz: u64,
    pub memsz: u64,
    pub tp_offset: i64,
}

/// An unused static TLS slot.
pub open spec fn no_static_tls() -> StaticTlsModule {
    StaticTlsModule { module_id: 0, template_addr: 0, filesz: 0, memsz: 0, tp_offset: 0 }
}

impl StaticTlsModule {
    /// An unused slot.
    pub fn zeroed() -> (r: StaticTlsModule)
        ensures
            r == no_static_tls(),
    {
        StaticTlsModule { module_id: 0, template_addr: 0, filesz: 0, memsz: 0, tp_offset: 0 }
    }
}

/// Per-module PE TLS metadata exported by the runtime linker.
#[derive(Clone, Copy, PartialEq, Eq, Debug, Structural)]
pub struct PeTlsModuleV1 {
    pub tls_index: u32,
    pub reserved: u32,
    pub template_addr: u64,
    pub filesz: u64,
    pub memsz: u64,
}

/// An unused PE TLS slot.
pub open spec fn no_pe_tls() -> PeTlsModuleV1 {
    PeTlsModuleV1 { tls_index: 0, reserved: 0, template_addr: 0, filesz: 0, memsz: 0 }
}

impl PeTlsModuleV1 {
    /// An unused slot.
    pub fn zeroed() -> (r: PeTlsModuleV1)
        ensures
            r == no_pe_tls(),
    {
        PeTlsModuleV1 { tls_index: 0, reserved: 0, template_addr: 0, filesz: 0, memsz: 0 }
    }
}

/// Runtime block that the runtime linker hands to the C library.
#[derive(Clone, Copy)]
pub struct TronaRuntimeV1 {
    pub magic: u32,
    pub version: u32,
    pub flags: u64,
    pub auxv_ptr: u64,
    pub startup_ptr: u64,
    pub cap_table_ptr: u64,
    pub cspace_layout_ptr: u64,
    pub ipc_buffer_vaddr: u64,
    pub next_free_slot: u64,
    pub sc_cap: u64,
    pub tls_template: u64,
    pub tls_filesz: u64,
    pub tls_memsz: u64,
    pub tls_align: u64,
    pub tls_module_count: u64,
    pub tls_modules: [StaticTlsModule; MAX_STATIC_TLS_MODULES],
    pub pe_abi_tp: u64,
    pub pe_tls_vector_len: u64,
    pub pe_tls_module_count: u64,
    pub pe_tls_modules: [PeTlsModuleV1; MAX_PE_TLS_MODULES],
}

impl TronaRuntimeV1 {
    /// "TRT1".
    pub const MAGIC: u32 = 0x3154_5254;

    pub const VERSION: u32 = 1;

    /// An empty block with alignment 1, not valid.
    pub fn zeroed() -> (r: TronaRuntimeV1)
        ensures
            r.magic == 0,
            r.version == 0,
            r.flags == 0,
            r.auxv_ptr == 0,
            r.startup_ptr == 0,
            r.cap_table_ptr == 0,
            r.cspace_layout_ptr == 0,
            r.ipc_buffer_vaddr == 0,
            r.next_free_slot == 0,
            r.sc_cap == 0,
            r.tls_template == 0,
            r.tls_filesz == 0,
            r.tls_memsz == 0,
            r.tls_align == 1,
            r.tls_module_count == 0,
            forall|i: int| 0 <= i < 8 ==> r.tls_modules@[i] == no_static_tls(),
            r.pe_abi_tp == 0,
            r.pe_tls_vector_len == 0,
            r.pe_tls_module_count == 0,
            forall|i: int| 0 <= i < 16 ==> r.pe_tls_modules@[i] == no_pe_tls(),
    {
        TronaRuntimeV1 {
            magic: 0,
            version: 0,
            flags: 0,
            auxv_ptr: 0,
            startup_ptr: 0,
            cap_table_ptr: 0,
            cspace_layout_ptr: 0,
            ipc_buffer_vaddr: 0,
            next_free_slot: 0,
            sc_cap: 0,
            tls_template: 0,
            tls_filesz: 0,
            tls_memsz: 0,
            tls_align: 1,
            tls_module_count: 0,
            tls_modules: [StaticTlsModule::zeroed(); 8],
            pe_abi_tp: 0,
            pe_tls_vector_len: 0,
            pe_tls_module_count: 0,
            pe_tls_modules: [PeTlsModuleV1::zeroed(); 16],
        }
    }

    /// Whether magic and version are those of this block.
    pub fn is_valid(&self) -> (r: bool)
        ensures
            r == (self.magic == 0x3154_5254 && self.version == 1),
    {
        self.magic == 0x3154_5254 && self.version == 1
    }
}

/// `dladdr` result: addresses of the file name, the load base, the symbol name
/// and the symbol.
#[derive(Clone, Copy, PartialEq, Eq, Debug, Structural)]
pub struct DlInfo {
    pub dli_fname: u64,
    pub dli_fbase: u64,
    pub dli_sname: u64,
    pub dli_saddr: u64,
}

impl DlInfo {
    /// All fields zero.
    pub fn zeroed() -> (r: DlInfo)
        ensures
            r.dli_fname == 0,
            r.dli_fbase == 0,
            r.dli_sname == 0,
            r.dli_saddr == 0,
    {
        DlInfo {
            dli_fname: 0,
            dli_fbase: 0,
            dli_sname: 0,
            dli_saddr: 0,
        }
    }
}

/// `dl_iterate_phdr` per-object descriptor.
#[derive(Clone, Copy, PartialEq, Eq, Debug, Structural)]
pub struct DlPhdrInfo {
    pub dlpi_addr: u64,
    pub dlpi_name: u64,
    pub dlpi_phdr: u64,
    pub dlpi_phnum: u16,
    pub _pad0: u16,
    pub _pad1: u32,
}

impl DlPhdrInfo {
    /// All fields zero.
    pub fn zeroed() -> (r: DlPhdrInfo)
        ensures
            r.dlpi_addr == 0,
            r.dlpi_name == 0,
            r.dlpi_phdr == 0,
            r.dlpi_phnum == 0,
            r._pad0 == 0,
            r._pad1 == 0,
    {
        DlPhdrInfo {
            dlpi_addr: 0,
            dlpi_name: 0,
            dlpi_phdr: 0,
            dlpi_phnum: 0,
            _pad0: 0,
            _pad1: 0,
        }
    }
}

/// Bit set carried by `TronaLoaderRuntimeV1.flags`. Reserved; currently 0.
pub type LoaderFlag = u64;

/// Opaque per-thread vector of runtime-loaded TLS blocks. Its layout belongs to
/// the runtime linker; here it is only an address.
#[derive(Clone, Copy, PartialEq, Eq, Debug, Structural)]
pub struct DynamicTlsVector {
    pub addr: u64,
}

/// Function table that the runtime linker publishes, as entry addresses.
#[derive(Clone, Copy, PartialEq, Eq, Debug, Structural)]
pub struct RtldDlfcnV1 {
    pub dlopen: u64,
    pub dlsym_from: u64,
    pub dlclose: u64,
    pub dladdr: u64,
    pub dl_iterate_phdr: u64,
    pub tls_addr: u64,
    pub tls_destroy: u64,
}

/// Loader runtime block, with a magic and version of its own.
#[derive(Clone, Copy, PartialEq, Eq, Debug, Structural)]
pub struct TronaLoaderRuntimeV1 {
    pub magic: u32,
    pub version: u32,
    pub flags: u64,
    pub dlfcn: RtldDlfcnV1,
}

impl TronaLoaderRuntimeV1 {
    /// "TLRT".
    pub const MAGIC: u32 = 0x5452_4C54;

    pub const VERSION: u32 = 1;

    /// Whether magic and version are those of this block.
    pub fn is_valid(&self) -> (r: bool)
        ensures
            r == (self.magic == 0x5452_4C54 && self.version == 1),
    {
        self.magic == 0x5452_4C54 && self.version == 1
    }
}

/// One capability delivered to a child: its role, and the slot that holds it.
#[derive(Clone, Copy, PartialEq, Eq, Debug, Structural)]
pub struct SaltyOSCapEntryV1 {
    pub role_id: u32,
    pub slot: u32,
    pub rights: u32,
    pub flags: u32,
}

impl SaltyOSCapEntryV1 {
    /// All fields zero.
    pub fn zeroed() -> (r: SaltyOSCapEntryV1)
        ensures
            r.role_id == 0,
            r.slot == 0,
            r.rights == 0,
            r.flags == 0,
    {
        SaltyOSCapEntryV1 {
            role_id: 0,
            slot: 0,
            rights: 0,
            flags: 0,
        }
    }
}

/// Header of the startup capability table, and the entries behind it.
pub struct SaltyOSCapTableV1 {
    pub magic: u32,
    pub version: u32,
    pub count: u32,
    pub reserved: u32,
    pub entries: Vec<SaltyOSCapEntryV1>,
}

impl SaltyOSCapTableV1 {
    /// An empty table.
    pub fn zeroed() -> (r: SaltyOSCapTableV1)
        ensures
            r.magic == 0,
            r.version == 0,
            r.count == 0,
            r.reserved == 0,
            r.entries@.len() == 0,
    {
        SaltyOSCapTableV1 { magic: 0, version: 0, count: 0, reserved: 0, entries: Vec::new() }
    }
}

/// Maximum length of a provider service name in a lowered attachment entry.
pub const MAX_REQUIRE_PROVIDER: usize = 32;

/// Maximum length of a service-local alias.
pub const MAX_REQUIRE_ALIAS: usize = 24;

/// Maximum number of lowered attachment descriptors.
pub const MAX_REQUIRES: usize = 8;

/// The provider lives in the system namespace.
pub const REQUIRE_KIND_SYSTEM: u8 = 0;

/// The provider lives in the service namespace.
pub const REQUIRE_KIND_LOCAL: u8 = 1;

/// Endpoint attachment.
pub const ATTACHMENT_TYPE_ENDPOINT: u8 = 0;

/// Capability attachment.
pub const ATTACHMENT_TYPE_CAP: u8 = 1;

/// Parsed attachment entry.
#[derive(Clone, Copy)]
pub struct TronaRequireDefV1 {
    pub provider: [u8; MAX_REQUIRE_PROVIDER],
    pub provider_len: u8,
    pub alias: [u8; MAX_REQUIRE_ALIAS],
    pub alias_len: u8,
    pub kind: u8,
    pub attachment_type: u8,
    pub badged: u8,
    pub raw: u8,
    pub role_id: u32,
}

impl TronaRequireDefV1 {
    /// All fields zero.
    pub fn zeroed() -> (r: TronaRequireDefV1)
        ensures
            forall|i: int| 0 <= i < 32 ==> r.provider@[i] == 0,
            r.provider_len == 0,
            forall|i: int| 0 <= i < 24 ==> r.alias@[i] == 0,
            r.alias_len == 0,
            r.kind == 0,
            r.attachment_type == 0,
            r.badged == 0,
            r.raw == 0,
            r.role_id == 0,
    {
        TronaRequireDefV1 {
            provider: [0; 32],
            provider_len: 0,
            alias: [0; 24],
            alias_len: 0,
            kind: 0,
            attachment_type: 0,
            badged: 0,
            raw: 0,
            role_id: 0,
        }
    }
}

/// Magic of a service registry chunk, "PMSD" in little-endian order.
pub const TRONA_SERVICE_DEFS_MAGIC: u32 = 0x44534D50;

/// This chunk starts a new registry stream.
pub const TRONA_SERVICE_DEFS_FLAG_FIRST: u32 = 1;

/// This chunk is the final registry chunk.
pub const TRONA_SERVICE_DEFS_FLAG_LAST: u32 = 2;

/// One attachment entry as the registry consumer sees it.
#[derive(Clone, Copy)]
pub struct TronaServiceAttachment {
    pub provider: [u8; MAX_REQUIRE_PROVIDER],
    pub provider_len: u8,
    pub kind: u8,
    pub attachment_type: u8,
    pub badged: u8,
    pub raw: u8,
    pub _pad: [u8; 3],
    pub role_id: u32,
}

impl TronaServiceAttachment {
    /// All fields zero.
    pub fn zeroed() -> (r: TronaServiceAttachment)
        ensures
            forall|i: int| 0 <= i < 32 ==> r.provider@[i] == 0,
            r.provider_len == 0,
            r.kind == 0,
            r.attachment_type == 0,
            r.badged == 0,
            r.raw == 0,
            forall|i: int| 0 <= i < 3 ==> r._pad@[i] == 0,
            r.role_id == 0,
    {
        TronaServiceAttachment {
            provider: [0; 32],
            provider_len: 0,
            kind: 0,
            attachment_type: 0,
            badged: 0,
            raw: 0,
            _pad: [0; 3],
            role_id: 0,
        }
    }
}

/// One service as the registry consumer sees it.
#[derive(Clone, Copy)]
pub struct TronaServiceDef {
    pub name: [u8; MAX_REQUIRE_PROVIDER],
    pub name_len: u8,
    pub bootstrap_privileged: u8,
    pub _pad: u16,
    pub provider_slot: u64,
    pub attachment_start: u32,
    pub attachment_count: u32,
}

impl TronaServiceDef {
    /// All fields zero.
    pub fn zeroed() -> (r: TronaServiceDef)
        ensures
            forall|i: int| 0 <= i < 32 ==> r.name@[i] == 0,
            r.name_len == 0,
            r.bootstrap_privileged == 0,
            r._pad == 0,
            r.provider_slot == 0,
            r.attachment_start == 0,
            r.attachment_count == 0,
    {
        TronaServiceDef {
            name: [0; 32],
            name_len: 0,
            bootstrap_privileged: 0,
            _pad: 0,
            provider_slot: 0,
            attachment_start: 0,
            attachment_count: 0,
        }
    }
}

/// Header of a service registry chunk, and the services behind it.
pub struct TronaServiceDefs {
    pub magic: u32,
    pub flags: u32,
    pub service_count: u32,
    pub attachment_count: u32,
    pub reserved: u64,
    pub services: Vec<TronaServiceDef>,
}

impl TronaServiceDefs {
    /// An empty chunk.
    pub fn zeroed() -> (r: TronaServiceDefs)
        ensures
            r.magic == 0,
            r.flags == 0,
            r.service_count == 0,
            r.attachment_count == 0,
            r.reserved == 0,
            r.services@.len() == 0,
    {
        TronaServiceDefs {
            magic: 0,
            flags: 0,
            service_count: 0,
            attachment_count: 0,
            reserved: 0,
            services: Vec::new(),
        }
    }
}

/// Cleanup handler node: addresses of the routine, its argument and the next
/// node.
#[derive(Clone, Copy, PartialEq, Eq, Debug, Structural)]
pub struct CleanupHandler {
    pub routine: u64,
    pub arg: u64,
    pub next: u64,
}

/// Per-thread local storage block.
pub struct ThreadLocalBlock {
    /// Address of the block itself; the x86_64 TLS ABI reads it at offset 0.
    pub self_ptr: u64,
    /// Address of the thread's message buffer.
    pub ipc_buffer: u64,
    pub send_cap_count: i32,
    pub thread_id: u64,
    pub errno: i32,
    pub _pad0: i32,
    pub desc: u64,
    /// 0 = enabled, 1 = disabled.
    pub cancel_state: u32,
    /// 0 = deferred.
    pub cancel_type: u32,
    pub cancel_pending: u32,
    pub _pad1: u32,
    pub cleanup_stack: u64,
    /// Futex address the thread is blocked on; 0 if it is not.
    pub blocked_futex_addr: u64,
    pub strtok_save: u64,
    pub libc_tm_buf: [u8; 56],
    pub libc_asctime_buf: [u8; 64],
    pub libc_ctime_buf: [u8; 64],
    pub dynamic_tls: u64,
    pub dlerror_msg: u64,
    pub dlerror_pending: u64,
}

impl ThreadLocalBlock {
    /// All fields zero.
    pub fn zeroed() -> (r: ThreadLocalBlock)
        ensures
            r.self_ptr == 0,
            r.ipc_buffer == 0,
            r.send_cap_count == 0,
            r.thread_id == 0,
            r.errno == 0,
            r._pad0 == 0,
            r.desc == 0,
            r.cancel_state == 0,
            r.cancel_type == 0,
            r.cancel_pending == 0,
            r._pad1 == 0,
            r.cleanup_stack == 0,
            r.blocked_futex_addr == 0,
            r.strtok_save == 0,
            forall|i: int| 0 <= i < 56 ==> r.libc_tm_buf@[i] == 0,
            forall|i: int| 0 <= i < 64 ==> r.libc_asctime_buf@[i] == 0,
            forall|i: int| 0 <= i < 64 ==> r.libc_ctime_buf@[i] == 0,
            r.dynamic_tls == 0,
            r.dlerror_msg == 0,
            r.dlerror_pending == 0,
    {
        ThreadLocalBlock {
            self_ptr: 0,
            ipc_buffer: 0,
            send_cap_count: 0,
            thread_id: 0,
            errno: 0,
            _pad0: 0,
            desc: 0,
            cancel_state: 0,
            cancel_type: 0,
            cancel_pending: 0,
            _pad1: 0,
            cleanup_stack: 0,
            blocked_futex_addr: 0,
            strtok_save: 0,
            libc_tm_buf: [0; 56],
            libc_asctime_buf: [0; 64],
            libc_ctime_buf: [0; 64],
            dynamic_tls: 0,
            dlerror_msg: 0,
            dlerror_pending: 0,
        }
    }
}

/// Minimal Win32 ABI thread-pointer block: the TLS vector is at offset 0x58.
#[derive(Clone, Copy)]
pub struct Win32ThreadPointerBlock {
    pub reserved0: [u64; 11],
    pub thread_local_storage_pointer: u64,
    pub runtime_tcb: u64,
    pub self_ptr: u64,
    pub tls_vector_len: u64,
}

impl Win32ThreadPointerBlock {
    /// All fields zero.
    pub fn zeroed() -> (r: Win32ThreadPointerBlock)
        ensures
            forall|i: int| 0 <= i < 11 ==> r.reserved0@[i] == 0,
            r.thread_local_storage_pointer == 0,
            r.runtime_tcb == 0,
            r.self_ptr == 0,
            r.tls_vector_len == 0,
    {
        Win32ThreadPointerBlock {
            reserved0: [0; 11],
            thread_local_storage_pointer: 0,
            runtime_tcb: 0,
            self_ptr: 0,
            tls_vector_len: 0,
        }
    }
}

/// aarch64 ABI thread-pointer block.
#[derive(Clone, Copy, PartialEq, Eq, Debug, Structural)]
pub struct AbiThreadPointerBlock {
    pub runtime_tcb: u64,
    pub reserved: u64,
}

impl AbiThreadPointerBlock {
    /// All fields zero.
    pub fn zeroed() -> (r: AbiThreadPointerBlock)
        ensures
            r.runtime_tcb == 0,
            r.reserved == 0,
    {
        AbiThreadPointerBlock {
            runtime_tcb: 0,
            reserved: 0,
        }
    }
}

} // verus!
