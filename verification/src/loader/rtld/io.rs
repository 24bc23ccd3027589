//! What the runtime linker learns at its start: the initial stack, the auxiliary
//! vector and the startup block.
use crate::kernel::core_types::{
    no_image, SaltyOSCapEntryV1, SaltyOSCspaceLayoutV1, SaltyOSImageInfoV1,
    SaltyOSMappedImageV1, SaltyOSStartupLayoutV1, SALTYOS_STARTUP_MAX_MAPPED_IMAGES,
};
use crate::loader::elf::types::{
    Elf64Auxv, AT_BASE, AT_ENTRY, AT_NULL, AT_PAGESZ, AT_PHDR, AT_PHENT, AT_PHNUM,
    AT_SALTYOS_STARTUP,
};
use vstd::prelude::*;
use vstd::slice::slice_subrange;

verus! {

/// What the auxiliary vector and the startup block say.
#[derive(Clone, Copy, PartialEq, Eq, Debug, Structural)]
pub struct AuxvInfo {
    pub at_phdr: u64,
    pub at_phent: u64,
    pub at_phnum: u64,
    pub at_pagesz: u64,
    pub at_base: u64,
    pub at_entry: u64,
    /// Address of the startup block, or 0.
    pub startup: u64,
    pub ipc_buffer_vaddr: u64,
    pub scratch_vaddr: u64,
    pub cspace_layout_ptr: u64,
    pub cap_table_ptr: u64,
    pub dso_window_base: u64,
    pub dso_window_size: u64,
    pub main_image: SaltyOSImageInfoV1,
    /// Address of the auxiliary vector itself.
    pub raw_auxv: u64,
}

/// Number of entries before the terminator, from `i` on.
pub open spec fn auxv_len(entries: Seq<Elf64Auxv>, i: int) -> int
    decreases entries.len() - i,
{
    if i < 0 || i >= entries.len() || entries[i].a_type == 0 {
        i
    } else {
        auxv_len(entries, i + 1)
    }
}

/// The value of the last of the first `n` entries of a type; 0 if there is none.
pub open spec fn auxv_value(entries: Seq<Elf64Auxv>, t: u64, n: int) -> u64
    decreases n,
{
    if n <= 0 {
        0
    } else if entries[n - 1].a_type == t {
        entries[n - 1].a_val
    } else {
        auxv_value(entries, t, n - 1)
    }
}

/// What the first `n` entries of the auxiliary vector say.
pub open spec fn auxv_info(entries: Seq<Elf64Auxv>, raw_auxv: u64, n: int) -> AuxvInfo {
    AuxvInfo {
        at_phdr: auxv_value(entries, 3, n),
        at_phent: auxv_value(entries, 4, n),
        at_phnum: auxv_value(entries, 5, n),
        at_pagesz: auxv_value(entries, 6, n),
        at_base: auxv_value(entries, 7, n),
        at_entry: auxv_value(entries, 9, n),
        startup: auxv_value(entries, 0x2005, n),
        ipc_buffer_vaddr: 0,
        scratch_vaddr: 0,
        cspace_layout_ptr: 0,
        cap_table_ptr: 0,
        dso_window_base: 0,
        dso_window_size: 0,
        main_image: no_image(),
        raw_auxv,
    }
}

/// Parses the auxiliary vector up to its terminator. What the startup block adds
/// is taken over by [`AuxvInfo::apply_startup`].
pub fn parse_auxv(entries: &[Elf64Auxv], raw_auxv: u64) -> (r: AuxvInfo)
    ensures
        r == auxv_info(entries@, raw_auxv, auxv_len(entries@, 0)),
{
    let mut info = AuxvInfo {
        at_phdr: 0,
        at_phent: 0,
        at_phnum: 0,
        at_pagesz: 0,
        at_base: 0,
        at_entry: 0,
        startup: 0,
        ipc_buffer_vaddr: 0,
        scratch_vaddr: 0,
        cspace_layout_ptr: 0,
        cap_table_ptr: 0,
        dso_window_base: 0,
        dso_window_size: 0,
        main_image: SaltyOSImageInfoV1::zeroed(),
        raw_auxv,
    };
    let mut i: usize = 0;
    while i < entries.len() && entries[i].a_type != AT_NULL
        invariant
            i <= entries@.len(),
            auxv_len(entries@, 0) == auxv_len(entries@, i as int),
            info == auxv_info(entries@, raw_auxv, i as int),
        decreases entries@.len() - i,
    {
        let t: u64 = entries[i].a_type;
        let v: u64 = entries[i].a_val;
        if t == AT_PHDR {
            info.at_phdr = v;
        } else if t == AT_PHENT {
            info.at_phent = v;
        } else if t == AT_PHNUM {
            info.at_phnum = v;
        } else if t == AT_PAGESZ {
            info.at_pagesz = v;
        } else if t == AT_BASE {
            info.at_base = v;
        } else if t == AT_ENTRY {
            info.at_entry = v;
        } else if t == AT_SALTYOS_STARTUP {
            info.startup = v;
        }
        i = i + 1;
    }
    info
}

/// Whether a startup block is what it should be.
pub open spec fn block_is_valid(b: SaltyOSStartupLayoutV1) -> bool {
    b.magic == 0x3154_4C53 && b.version == 1
}

impl AuxvInfo {
    /// The startup block, given what is at its address: `None` if there is no
    /// address or the block is not valid.
    pub fn startup_block<'a>(&self, at: &'a SaltyOSStartupLayoutV1) -> (r: Option<
        &'a SaltyOSStartupLayoutV1,
    >)
        ensures
            if self.startup != 0 && block_is_valid(*at) {
                r is Some && *r->0 == *at
            } else {
                r is None
            },
    {
        if self.startup == 0 {
            return None;
        }
        if at.is_valid() {
            Some(at)
        } else {
            None
        }
    }

    /// Takes over what the startup block says, given what is at its address.
    pub fn apply_startup(&mut self, at: &SaltyOSStartupLayoutV1)
        ensures
            *final(self) == if old(self).startup != 0 && block_is_valid(*at) {
                AuxvInfo {
                    ipc_buffer_vaddr: at.ipc_buffer_vaddr,
                    scratch_vaddr: at.scratch_vaddr,
                    cspace_layout_ptr: at.cspace_layout_ptr,
                    cap_table_ptr: at.cap_table_ptr,
                    dso_window_base: at.dso_window_base,
                    dso_window_size: at.dso_window_size,
                    main_image: at.main_image,
                    ..*old(self)
                }
            } else {
                *old(self)
            },
    {
        match self.startup_block(at) {
            Some(b) => {
                self.ipc_buffer_vaddr = b.ipc_buffer_vaddr;
                self.scratch_vaddr = b.scratch_vaddr;
                self.cspace_layout_ptr = b.cspace_layout_ptr;
                self.cap_table_ptr = b.cap_table_ptr;
                self.dso_window_base = b.dso_window_base;
                self.dso_window_size = b.dso_window_size;
                self.main_image = b.main_image;
            },
            None => {},
        }
    }

    /// The slot layout, given what is at its address: `None` if there is no
    /// address or the version is another one.
    pub fn cspace_layout<'a>(&self, at: &'a SaltyOSCspaceLayoutV1) -> (r: Option<
        &'a SaltyOSCspaceLayoutV1,
    >)
        ensures
            if self.cspace_layout_ptr != 0 && at.version == 1 {
                r is Some && *r->0 == *at
            } else {
                r is None
            },
    {
        if self.cspace_layout_ptr == 0 || at.version != SaltyOSCspaceLayoutV1::VERSION {
            return None;
        }
        Some(at)
    }

    /// The slot of a capability, given the table entry that was found for its
    /// role; 0 if there is no table or no entry.
    pub fn cap_slot(&self, entry: Option<SaltyOSCapEntryV1>) -> (r: u32)
        ensures
            r == match entry {
                Some(e) => if self.cap_table_ptr != 0 {
                    e.slot
                } else {
                    0
                },
                None => 0,
            },
    {
        if self.cap_table_ptr == 0 {
            return 0;
        }
        match entry {
            Some(e) => e.slot,
            None => 0,
        }
    }

    /// The images that are mapped already, given what is at the address of the
    /// startup block.
    pub fn mapped_images<'a>(&self, at: &'a SaltyOSStartupLayoutV1) -> (r:
        &'a [SaltyOSMappedImageV1])
        ensures
            r@ == if self.startup != 0 && block_is_valid(*at) {
                at.mapped_images@.take(
                    if at.mapped_image_count < 16 {
                        at.mapped_image_count as int
                    } else {
                        16
                    },
                )
            } else {
                Seq::empty()
            },
    {
        let all: &'a [SaltyOSMappedImageV1] = at.mapped_images.as_slice();
        let n: usize = if self.startup == 0 || !at.is_valid() {
            0
        } else if at.mapped_image_count < SALTYOS_STARTUP_MAX_MAPPED_IMAGES as u64 {
            at.mapped_image_count as usize
        } else {
            SALTYOS_STARTUP_MAX_MAPPED_IMAGES
        };
        let r: &'a [SaltyOSMappedImageV1] = slice_subrange(all, 0, n);
        assert(r@ =~= at.mapped_images@.take(n as int));
        assert(n == 0 ==> r@ =~= Seq::empty());
        r
    }
}

/// The parts of the initial stack, as word positions.
#[derive(Clone, Copy, PartialEq, Eq, Debug, Structural)]
pub struct StackInfo {
    pub argc: u64,
    pub argv: usize,
    pub envp: usize,
    pub auxv: usize,
}

/// Position of the first zero word from `i` on, the length if there is none.
pub open spec fn zero_word(words: Seq<u64>, i: int) -> int
    decreases words.len() - i,
{
    if i < 0 || i >= words.len() || words[i] == 0 {
        i
    } else {
        zero_word(words, i + 1)
    }
}

/// The parts of an initial stack: the argument count, the arguments, a zero
/// word, the environment, a zero word, the auxiliary vector. `None` if the stack
/// ends before that.
pub open spec fn stack_parts(words: Seq<u64>) -> Option<(u64, int, int, int)> {
    if words.len() == 0 || words[0] + 2 > words.len() {
        None
    } else {
        let envp = words[0] + 2;
        let end = zero_word(words, envp);
        if end >= words.len() {
            None
        } else {
            Some((words[0], 1, envp, end + 1))
        }
    }
}

/// Walks the initial stack to find the arguments, the environment and the
/// auxiliary vector.
pub fn parse_stack(words: &[u64]) -> (r: Option<StackInfo>)
    ensures
        match stack_parts(words@) {
            Some((argc, argv, envp, auxv)) => r is Some && r->0.argc == argc && r->0.argv == argv
                && r->0.envp == envp && r->0.auxv == auxv,
            None => r is None,
        },
{
    let len: usize = words.len();
    if len == 0 {
        return None;
    }
    let argc: u64 = words[0];
    if argc as u128 + 2 > len as u128 {
        return None;
    }
    let envp: usize = argc as usize + 2;
    let mut p: usize = envp;
    while p < len && words[p] != 0
        invariant
            len == words@.len(),
            p <= len,
            zero_word(words@, envp as int) == zero_word(words@, p as int),
        decreases len - p,
    {
        p = p + 1;
    }
    if p >= len {
        return None;
    }
    Some(StackInfo { argc, argv: 1, envp, auxv: p + 1 })
}

// ---------------------------------------------------------------------------
// What is found on the stack
// ---------------------------------------------------------------------------

proof fn lemma_zero_word(words: Seq<u64>, i: int, end: int)
    requires
        0 <= i <= end < words.len(),
        words[end] == 0,
        forall|j: int| i <= j < end ==> words[j] != 0,
    ensures
        zero_word(words, i) == end,
    decreases end - i,
{
    if i < end {
        lemma_zero_word(words, i + 1, end);
    }
}

/// A stack of argument count, arguments, a zero word, environment, a zero word and
/// auxiliary vector is taken apart into just these.
pub proof fn lemma_stack_is_taken_apart(args: Seq<u64>, env: Seq<u64>, rest: Seq<u64>)
    requires
        args.len() <= u64::MAX,
        !env.contains(0),
    ensures
        ({
            let words = seq![args.len() as u64] + args + seq![0u64] + env + seq![0u64] + rest;
            let parts = stack_parts(words);
            &&& parts is Some
            &&& parts->0 == (
                args.len() as u64,
                1int,
                (1 + args.len() + 1) as int,
                (1 + args.len() + 1 + env.len() + 1) as int,
            )
            &&& words.skip((1 + args.len() + 1 + env.len() + 1) as int) == rest
        }),
{
    let words = seq![args.len() as u64] + args + seq![0u64] + env + seq![0u64] + rest;
    let envp = (args.len() + 2) as int;
    let end = envp + env.len();
    assert(words[0] == args.len());
    assert(words[end] == 0);
    assert forall|j: int| envp <= j < end implies words[j] != 0 by {
        assert(words[j] == env[j - envp]);
        assert(env.contains(env[j - envp]));
    }
    lemma_zero_word(words, envp, end);
    assert(words.skip(end + 1) =~= rest);
}

proof fn lemma_auxv_len(entries: Seq<Elf64Auxv>, i: int, n: int)
    requires
        0 <= i <= n <= entries.len(),
        forall|j: int| 0 <= j < n ==> (#[trigger] entries[j]).a_type != 0,
        n == entries.len() || entries[n].a_type == 0,
    ensures
        auxv_len(entries, i) == n,
    decreases n - i,
{
    if i < n {
        lemma_auxv_len(entries, i + 1, n);
    }
}

proof fn lemma_auxv_value(entries: Seq<Elf64Auxv>, t: u64, n: int, k: int)
    requires
        0 <= k < n <= entries.len(),
        entries[k].a_type == t,
        forall|j: int| k < j < n ==> (#[trigger] entries[j]).a_type != t,
    ensures
        auxv_value(entries, t, n) == entries[k].a_val,
    decreases n,
{
    if k < n - 1 {
        lemma_auxv_value(entries, t, n - 1, k);
    }
}

/// What the auxiliary vector says of a thing is the value of the last entry with
/// its number in front of the terminator: 3 is the address of the program headers,
/// 4 and 5 are their size and number, 6 is the page size, 7 the base of the linker,
/// 9 the entry point and 0x2005 the startup block.
pub proof fn lemma_auxiliary_values(
    entries: Seq<Elf64Auxv>,
    raw_auxv: u64,
    n: int,
    k: int,
)
    requires
        0 <= k < n <= entries.len(),
        forall|j: int| 0 <= j < n ==> (#[trigger] entries[j]).a_type != 0,
        n == entries.len() || entries[n].a_type == 0,
        forall|j: int| k < j < n ==> (#[trigger] entries[j]).a_type != entries[k].a_type,
    ensures
        ({
            let info = auxv_info(entries, raw_auxv, auxv_len(entries, 0));
            let (t, v) = (entries[k].a_type, entries[k].a_val);
            &&& t == 3 ==> info.at_phdr == v
            &&& t == 4 ==> info.at_phent == v
            &&& t == 5 ==> info.at_phnum == v
            &&& t == 6 ==> info.at_pagesz == v
            &&& t == 7 ==> info.at_base == v
            &&& t == 9 ==> info.at_entry == v
            &&& t == 0x2005 ==> info.startup == v
        }),
{
    lemma_auxv_len(entries, 0, n);
    lemma_auxv_value(entries, entries[k].a_type, n, k);
}

} // verus!
