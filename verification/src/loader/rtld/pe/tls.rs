//! TLS of a PE process.
use crate::kernel::core_types::{Win32ThreadPointerBlock, MAX_PE_TLS_MODULES};
use crate::loader::bytes::{
    field, has_record, le_u32, le_u64, lemma_field_32, lemma_field_64, read_u32, read_u64,
};
use crate::loader::elf::header::Arch;
use crate::loader::link_map::{PeTlsModuleState, RtldState};
use crate::loader::pe::header::pe_error;
use crate::loader::pe::types::{TlsDirectory64, IMAGE_DIRECTORY_ENTRY_TLS};
use crate::loader::rtld::elf::tables::{tail, Memory};
use crate::loader::rtld::pe::imports::{find_directory, image_directory};
use crate::loader::rtld::pe::modules::{LoadedPeModules, PeStartError};
use vstd::prelude::*;

verus! {

/// The TLS directory at `off`.
pub open spec fn tls_at(s: Seq<u8>, off: int) -> TlsDirectory64 {
    TlsDirectory64 {
        start_address_of_raw_data: le_u64(s, off),
        end_address_of_raw_data: le_u64(s, off + 8),
        address_of_index: le_u64(s, off + 16),
        address_of_callbacks: le_u64(s, off + 24),
        size_of_zero_fill: le_u32(s, off + 32),
        characteristics: le_u32(s, off + 36),
    }
}

/// The TLS directory of an image, if it has one.
pub open spec fn image_tls(s: Seq<u8>) -> Option<TlsDirectory64> {
    match image_directory(s, 9) {
        Some(dir) => if dir.virtual_address + 40 <= s.len() {
            Some(tls_at(s, dir.virtual_address as int))
        } else {
            None
        },
        None => None,
    }
}

/// Whether an image has TLS; an error if its headers are not usable.
pub fn image_has_tls(image: &[u8], arch: Arch) -> (r: Result<bool, PeStartError>)
    ensures
        r == if pe_error(image@, arch) is Some {
            Err::<bool, PeStartError>(PeStartError::InvalidImage)
        } else {
            Ok::<bool, PeStartError>(image_directory(image@, 9) is Some)
        },
{
    match find_directory(image, arch, IMAGE_DIRECTORY_ENTRY_TLS) {
        Ok(dir) => Ok(dir.is_some()),
        Err(e) => Err(e),
    }
}

/// The TLS directory of an image, if it has one; an error if its headers are not
/// usable.
pub fn find_tls(image: &[u8], arch: Arch) -> (r: Result<Option<TlsDirectory64>, PeStartError>)
    ensures
        r == if pe_error(image@, arch) is Some {
            Err::<Option<TlsDirectory64>, PeStartError>(PeStartError::InvalidImage)
        } else {
            Ok::<Option<TlsDirectory64>, PeStartError>(image_tls(image@))
        },
{
    match find_directory(image, arch, IMAGE_DIRECTORY_ENTRY_TLS) {
        Err(e) => Err(e),
        Ok(None) => Ok(None),
        Ok(Some(dir)) => {
            if dir.virtual_address as u64 + 40 > image.len() as u64 {
                return Ok(None);
            }
            let off: usize = dir.virtual_address as usize;
            Ok(
                Some(
                    TlsDirectory64 {
                        start_address_of_raw_data: read_u64(image, off),
                        end_address_of_raw_data: read_u64(image, off + 8),
                        address_of_index: read_u64(image, off + 16),
                        address_of_callbacks: read_u64(image, off + 24),
                        size_of_zero_fill: read_u32(image, off + 32),
                        characteristics: read_u32(image, off + 36),
                    },
                ),
            )
        },
    }
}

/// Number of initialised bytes of TLS.
pub open spec fn raw_len(tls: TlsDirectory64) -> int {
    if tls.end_address_of_raw_data > tls.start_address_of_raw_data {
        tls.end_address_of_raw_data - tls.start_address_of_raw_data
    } else {
        0
    }
}

/// Size of a block of TLS.
pub open spec fn tls_size(tls: TlsDirectory64) -> int {
    if raw_len(tls) + tls.size_of_zero_fill > u64::MAX {
        u64::MAX as int
    } else {
        raw_len(tls) + tls.size_of_zero_fill
    }
}

/// How a block of TLS is made.
#[derive(Clone, Copy, PartialEq, Eq, Debug, Structural)]
pub struct TlsBlock {
    /// Address of the initialised bytes.
    pub template: u64,
    /// Number of initialised bytes, which are copied to the start of the block.
    pub filesz: u64,
    /// Size of the block; what is not copied is zero. No block is needed if it
    /// is 0.
    pub memsz: u64,
    /// Where the module's index is stored, if anywhere.
    pub index_at: u64,
}

/// How a block of TLS is made.
pub fn tls_block(tls: &TlsDirectory64) -> (r: TlsBlock)
    ensures
        r == (TlsBlock {
            template: tls.start_address_of_raw_data,
            filesz: raw_len(*tls) as u64,
            memsz: tls_size(*tls) as u64,
            index_at: tls.address_of_index,
        }),
{
    let filesz: u64 = if tls.end_address_of_raw_data > tls.start_address_of_raw_data {
        tls.end_address_of_raw_data - tls.start_address_of_raw_data
    } else {
        0
    };
    let zero: u64 = tls.size_of_zero_fill as u64;
    TlsBlock {
        template: tls.start_address_of_raw_data,
        filesz,
        memsz: if zero > u64::MAX - filesz {
            u64::MAX
        } else {
            filesz + zero
        },
        index_at: tls.address_of_index,
    }
}

/// Number of entries of the TLS vector, the main image's first, and the bytes to
/// reserve for it.
pub fn tls_vector_size(modules: &LoadedPeModules) -> (r: (usize, u64))
    requires
        modules.wf(),
    ensures
        r.0 == modules.modules@.len() + 1,
        r.1 == r.0 * 8,
{
    let n: usize = modules.modules.len() + 1;
    (n, n as u64 * 8)
}

/// Takes over the TLS vector and the thread-pointer block that refers to it.
pub fn install_tls_vector(
    st: &mut RtldState,
    modules: &mut LoadedPeModules,
    vector: u64,
    teb: u64,
) -> (r: Win32ThreadPointerBlock)
    requires
        old(modules).wf(),
    ensures
        final(modules).wf(),
        final(modules).modules == old(modules).modules,
        final(modules).tls_vector == vector,
        final(modules).tls_vector_len == old(modules).modules@.len() + 1,
        *final(st) == (RtldState {
            pe_abi_tp: teb,
            pe_tls_vector_len: (old(modules).modules@.len() + 1) as usize,
            ..*old(st)
        }),
        forall|i: int| 0 <= i < 11 ==> r.reserved0@[i] == 0,
        r.thread_local_storage_pointer == vector,
        r.runtime_tcb == 0,
        r.self_ptr == teb,
        r.tls_vector_len == old(modules).modules@.len() + 1,
{
    let n: usize = modules.modules.len() + 1;
    modules.tls_vector = vector;
    modules.tls_vector_len = n;
    st.pe_abi_tp = teb;
    st.pe_tls_vector_len = n;
    let mut block: Win32ThreadPointerBlock = Win32ThreadPointerBlock::zeroed();
    block.thread_local_storage_pointer = vector;
    block.self_ptr = teb;
    block.tls_vector_len = n as u64;
    block
}

/// Where the block of a module is entered in the TLS vector.
pub fn write_tls_vector_entry(modules: &LoadedPeModules, index: usize) -> (r: Result<
    u64,
    PeStartError,
>)
    requires
        modules.tls_vector + modules.tls_vector_len * 8 <= u64::MAX,
    ensures
        r == if modules.tls_vector == 0 {
            Err::<u64, PeStartError>(PeStartError::TlsVectorMissing)
        } else if index >= modules.tls_vector_len {
            Err::<u64, PeStartError>(PeStartError::TlsVectorOverflow)
        } else {
            Ok::<u64, PeStartError>((modules.tls_vector + index * 8) as u64)
        },
{
    if modules.tls_vector == 0 {
        return Err(PeStartError::TlsVectorMissing);
    }
    if index >= modules.tls_vector_len {
        return Err(PeStartError::TlsVectorOverflow);
    }
    Ok(modules.tls_vector + index as u64 * 8)
}

/// Position of the published module with a TLS index, from `i` on.
pub open spec fn published_at(
    modules: Seq<PeTlsModuleState>,
    n: int,
    tls_index: u32,
    i: int,
) -> Option<
    int,
>
    decreases n - i,
{
    if i < 0 || i >= n {
        None
    } else if modules[i].tls_index == tls_index {
        Some(i)
    } else {
        published_at(modules, n, tls_index, i + 1)
    }
}

/// Publishes the TLS of a module, in place of what was published with the same
/// index before.
pub fn publish_pe_tls_module(st: &mut RtldState, tls_index: u32, block: &TlsBlock) -> (r: Result<
    (),
    PeStartError,
>)
    requires
        old(st).pe_tls_module_count <= 16,
    ensures
        final(st).pe_tls_module_count <= 16,
        ({
            let n = old(st).pe_tls_module_count as int;
            match published_at(old(st).pe_tls_modules@, n, tls_index, 0) {
                Some(i) => {
                    &&& r is Ok
                    &&& *final(st) == (RtldState {
                        pe_tls_modules: final(st).pe_tls_modules,
                        ..*old(st)
                    })
                    &&& final(st).pe_tls_modules@ == old(st).pe_tls_modules@.update(
                        i,
                        (PeTlsModuleState {
                            template_addr: block.template,
                            filesz: block.filesz,
                            memsz: block.memsz,
                            ..old(st).pe_tls_modules@[i]
                        }),
                    )
                },
                None => if n >= 16 {
                    r == Err::<(), PeStartError>(PeStartError::TooManyTlsModules) && *final(st)
                        == *old(st)
                } else {
                    &&& r is Ok
                    &&& *final(st) == (RtldState {
                        pe_tls_modules: final(st).pe_tls_modules,
                        pe_tls_module_count: (n + 1) as usize,
                        ..*old(st)
                    })
                    &&& final(st).pe_tls_modules@ == old(st).pe_tls_modules@.update(
                        n,
                        (PeTlsModuleState {
                            tls_index,
                            reserved: 0,
                            template_addr: block.template,
                            filesz: block.filesz,
                            memsz: block.memsz,
                        }),
                    )
                },
            }
        }),
{
    let n: usize = st.pe_tls_module_count;
    let mut i: usize = 0;
    while i < n
        invariant
            i <= n,
            n <= 16,
            n == old(st).pe_tls_module_count,
            *st == *old(st),
            published_at(old(st).pe_tls_modules@, n as int, tls_index, 0) == published_at(
                old(st).pe_tls_modules@,
                n as int,
                tls_index,
                i as int,
            ),
        decreases n - i,
    {
        if st.pe_tls_modules[i].tls_index == tls_index {
            let mut m: PeTlsModuleState = st.pe_tls_modules[i];
            m.template_addr = block.template;
            m.filesz = block.filesz;
            m.memsz = block.memsz;
            st.pe_tls_modules[i] = m;
            return Ok(());
        }
        i = i + 1;
    }
    if n >= MAX_PE_TLS_MODULES {
        return Err(PeStartError::TooManyTlsModules);
    }
    st.pe_tls_modules[n] = PeTlsModuleState {
        tls_index,
        reserved: 0,
        template_addr: block.template,
        filesz: block.filesz,
        memsz: block.memsz,
    };
    st.pe_tls_module_count = n + 1;
    Ok(())
}

/// What was published is found again, whatever was there before.
pub proof fn lemma_published_is_found(
    modules: Seq<PeTlsModuleState>,
    n: int,
    tls_index: u32,
    m: PeTlsModuleState,
)
    requires
        0 <= n < modules.len(),
        published_at(modules, n, tls_index, 0) is None,
        m.tls_index == tls_index,
    ensures
        published_at(modules.update(n, m), n + 1, tls_index, 0) == Some(n),
{
    lemma_published(modules, n, tls_index, m, 0);
}

proof fn lemma_published(
    modules: Seq<PeTlsModuleState>,
    n: int,
    tls_index: u32,
    m: PeTlsModuleState,
    i: int,
)
    requires
        0 <= i <= n < modules.len(),
        published_at(modules, n, tls_index, i) is None,
        m.tls_index == tls_index,
    ensures
        published_at(modules.update(n, m), n + 1, tls_index, i) == Some(n),
    decreases n - i,
{
    if i < n {
        lemma_published(modules, n, tls_index, m, i + 1);
    }
}

/// Whether the TLS of a module still has to be set up.
pub fn needs_tls_setup(modules: &LoadedPeModules, idx: usize) -> (r: bool)
    requires
        idx < modules.modules@.len(),
    ensures
        r == (modules.modules@[idx as int].tls_raw_data == 0 && modules.modules@[idx as int].tls_index
            == 0),
{
    modules.modules[idx].tls_raw_data == 0 && modules.modules[idx].tls_index == 0
}

/// Takes over the block of a module: its index is one more than the module's, so
/// that 0 is left for the main image. A module without TLS data has no block.
pub fn setup_module_tls(
    modules: &mut LoadedPeModules,
    idx: usize,
    block: &TlsBlock,
    raw_base: u64,
) -> (r:
    u32)
    requires
        old(modules).wf(),
        idx < old(modules).modules@.len(),
    ensures
        final(modules).wf(),
        r == idx + 1,
        final(modules).tls_vector == old(modules).tls_vector,
        final(modules).tls_vector_len == old(modules).tls_vector_len,
        final(modules).modules@ == old(modules).modules@.update(
            idx as int,
            if block.memsz == 0 {
                crate::loader::rtld::pe::modules::LoadedPeModule {
                    tls_index: r,
                    ..old(modules).modules@[idx as int]
                }
            } else {
                crate::loader::rtld::pe::modules::LoadedPeModule {
                    tls_index: r,
                    tls_raw_data: raw_base,
                    tls_raw_size: block.memsz,
                    ..old(modules).modules@[idx as int]
                }
            },
        ),
{
    let index: u32 = idx as u32 + 1;
    if block.memsz != 0 {
        modules.modules[idx].tls_raw_data = raw_base;
        modules.modules[idx].tls_raw_size = block.memsz;
    }
    modules.modules[idx].tls_index = index;
    assert(modules.modules@ =~= old(modules).modules@.update(
        idx as int,
        modules.modules@[idx as int],
    ));
    index
}

/// The callbacks in a list that ends with zero, from position `k` on, behind
/// `found`.
pub open spec fn callbacks_from(s: Seq<u8>, k: int, found: Seq<u64>) -> Seq<u64>
    decreases s.len() - 8 * k,
{
    if k < 0 || 8 * k + 8 > s.len() || le_u64(s, 8 * k) == 0 {
        found
    } else {
        callbacks_from(s, k + 1, found.push(le_u64(s, 8 * k)))
    }
}

/// The TLS callbacks of an image at `base`, in the order of their calls.
pub open spec fn image_callbacks(s: Seq<u8>, base: u64) -> Seq<u64> {
    match image_tls(s) {
        Some(tls) => if tls.address_of_callbacks != 0 {
            callbacks_from(tail(base, s, tls.address_of_callbacks), 0, Seq::empty())
        } else {
            Seq::empty()
        },
        None => Seq::empty(),
    }
}

/// The TLS callbacks to call for an image at `base`, in order; an error if its
/// headers are not usable.
pub fn run_tls_callbacks(image: &[u8], base: u64, arch: Arch) -> (r: Result<Vec<u64>, PeStartError>)
    ensures
        if pe_error(image@, arch) is Some {
            r is Err && r->Err_0 == PeStartError::InvalidImage
        } else {
            r is Ok && r->Ok_0@ == image_callbacks(image@, base)
        },
{
    let mut out: Vec<u64> = Vec::new();
    assert(out@ =~= Seq::empty());
    let tls: TlsDirectory64 = match find_tls(image, arch) {
        Err(e) => {
            return Err(e);
        },
        Ok(None) => {
            return Ok(out);
        },
        Ok(Some(t)) => t,
    };
    if tls.address_of_callbacks == 0 {
        return Ok(out);
    }
    let mem = Memory { start: base, bytes: image };
    let list: &[u8] = mem.from(tls.address_of_callbacks);
    let n: usize = list.len() / 8;
    let mut k: usize = 0;
    while k < n
        invariant
            k <= n,
            n == list@.len() / 8,
            list.len() <= usize::MAX,
            pe_error(image@, arch) is None,
            image_callbacks(image@, base) == callbacks_from(list@, k as int, out@),
        decreases n - k,
    {
        let callback: u64 = read_u64(list, 8 * k);
        if callback == 0 {
            return Ok(out);
        }
        out.push(callback);
        k = k + 1;
    }
    Ok(out)
}

/// A TLS directory is start and end of the template, index slot, callbacks, zero fill
/// and characteristics, one behind the other.
pub proof fn lemma_tls_record(s: Seq<u8>, off: int, v: Seq<int>)
    requires
        has_record(s, off, seq![8int, 8, 8, 8, 4, 4], v, 0),
    ensures
        tls_at(s, off).start_address_of_raw_data == v[0],
        tls_at(s, off).end_address_of_raw_data == v[1],
        tls_at(s, off).address_of_index == v[2],
        tls_at(s, off).address_of_callbacks == v[3],
        tls_at(s, off).size_of_zero_fill == v[4],
        tls_at(s, off).characteristics == v[5],
{
    reveal_with_fuel(has_record, 7);
    lemma_field_64(s, off);
    lemma_field_64(s, off + 8);
    lemma_field_64(s, off + 16);
    lemma_field_64(s, off + 24);
    lemma_field_32(s, off + 32);
    lemma_field_32(s, off + 36);
}

proof fn lemma_callbacks_from(s: Seq<u8>, k: int, found: Seq<u64>, n: int)
    requires
        0 <= k <= n,
        8 * n <= s.len(),
        forall|j: int| k <= j < n ==> #[trigger] field(s, 8 * j, 8) != 0,
        8 * n + 8 > s.len() || field(s, 8 * n, 8) == 0,
        found.len() == k,
        forall|j: int| 0 <= j < k ==> #[trigger] found[j] == field(s, 8 * j, 8),
    ensures
        callbacks_from(s, k, found).len() == n,
        forall|j: int|
            0 <= j < n ==> #[trigger] callbacks_from(s, k, found)[j] == field(s, 8 * j, 8),
    decreases n - k,
{
    lemma_field_64(s, 8 * k);
    if k < n {
        assert(field(s, 8 * k, 8) != 0);
        lemma_callbacks_from(s, k + 1, found.push(le_u64(s, 8 * k)), n);
    }
}

/// Every callback of a list up to the zero that ends it is called, in order.
pub proof fn lemma_every_callback_is_called(s: Seq<u8>, n: int)
    requires
        0 <= n,
        8 * n <= s.len(),
        forall|j: int| 0 <= j < n ==> #[trigger] field(s, 8 * j, 8) != 0,
        8 * n + 8 > s.len() || field(s, 8 * n, 8) == 0,
    ensures
        callbacks_from(s, 0, Seq::empty()).len() == n,
        forall|j: int|
            0 <= j < n ==> #[trigger] callbacks_from(s, 0, Seq::empty())[j] == field(s, 8 * j, 8),
{
    lemma_callbacks_from(s, 0, Seq::empty(), n);
}

/// The template of a module is what is between its start and its end, and a block
/// is as much longer as the zero fill.
pub proof fn lemma_block_sizes(tls: TlsDirectory64)
    requires
        tls.start_address_of_raw_data <= tls.end_address_of_raw_data,
        tls.end_address_of_raw_data - tls.start_address_of_raw_data + tls.size_of_zero_fill
            <= u64::MAX,
    ensures
        tls.start_address_of_raw_data + raw_len(tls) == tls.end_address_of_raw_data,
        tls_size(tls) == raw_len(tls) + tls.size_of_zero_fill,
{
}

} // verus!
