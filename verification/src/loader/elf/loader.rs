//! Program header location for the auxiliary vector.
use crate::loader::elf::header::{
    ehdr_error, find_phdr_phdr, has_span, is_first_of_type, load_span, phdr_at, phdr_slice,
    span_hi, span_of, validate_ehdr, Arch,
};
use crate::loader::bytes::{le_u16, le_u64};
use crate::loader::elf::types::{Elf64Ehdr, Elf64Phdr};
use vstd::prelude::*;

verus! {

/// Program header table location for auxv construction.
#[derive(Clone, Copy, PartialEq, Eq, Debug, Structural)]
pub struct PhdrInfo {
    pub phdr_vaddr: u64,
    pub phent: u16,
    pub phnum: u16,
}

/// The program headers of `s`, one after the other.
pub open spec fn packed_phdrs(s: Seq<u8>) -> Seq<Elf64Phdr> {
    Seq::new(le_u16(s, 56) as nat, |i: int| phdr_at(s, le_u64(s, 32) + 56 * i))
}

/// Whether the program header table of `s` lies in the file.
pub open spec fn phdrs_usable(s: Seq<u8>) -> bool {
    &&& le_u16(s, 56) != 0
    &&& le_u64(s, 32) + le_u16(s, 56) * le_u16(s, 54) <= s.len()
    &&& le_u64(s, 32) + le_u16(s, 56) * 56 <= s.len()
}

/// The link-time address of the program header table: that of the first
/// `PT_PHDR` header, or else its file offset.
pub open spec fn phdr_link_vaddr(s: Seq<u8>, i: int) -> u64
    decreases packed_phdrs(s).len() - i,
{
    if i < 0 || i >= packed_phdrs(s).len() {
        le_u64(s, 32)
    } else if packed_phdrs(s)[i].p_type == 6 {
        packed_phdrs(s)[i].p_vaddr
    } else {
        phdr_link_vaddr(s, i + 1)
    }
}

/// Whether `s` is an image for `arch` whose program header location is known.
pub open spec fn has_phdr_info(s: Seq<u8>, arch: Arch) -> bool {
    ehdr_error(s, arch) is None && phdrs_usable(s) && has_span(packed_phdrs(s))
}

/// Whether the addresses that [`get_phdr_info`] computes are representable.
pub open spec fn phdr_info_fits(s: Seq<u8>, arch: Arch, load_base: u64) -> bool {
    has_phdr_info(s, arch) ==> {
        let phdrs = packed_phdrs(s);
        &&& span_hi(phdrs, phdrs.len() as int) + 4095 <= u64::MAX
        &&& load_base + phdr_link_vaddr(s, 0) <= u64::MAX
        &&& load_base + phdr_link_vaddr(s, 0) >= span_of(phdrs).0
    }
}

proof fn lemma_phdr_link_vaddr(s: Seq<u8>, found: Option<&Elf64Phdr>, i: int)
    requires
        0 <= i <= packed_phdrs(s).len(),
        is_first_of_type(packed_phdrs(s), 6, found),
        forall|j: int| 0 <= j < i ==> (#[trigger] packed_phdrs(s)[j]).p_type != 6,
    ensures
        phdr_link_vaddr(s, i) == match found {
            Some(ph) => ph.p_vaddr,
            None => le_u64(s, 32),
        },
    decreases packed_phdrs(s).len() - i,
{
    let phdrs = packed_phdrs(s);
    if i < phdrs.len() {
        if phdrs[i].p_type != 6 {
            lemma_phdr_link_vaddr(s, found, i + 1);
        } else if found is Some {
            let k = choose|k: int|
                0 <= k < phdrs.len() && #[trigger] phdrs[k] == *found->0 && found->0.p_type == 6
                    && forall|j: int| 0 <= j < k ==> (#[trigger] phdrs[j]).p_type != 6;
            if k < i {
                assert(phdrs[k].p_type != 6);
            }
            if i < k {
                assert(phdrs[i].p_type != 6);
            }
        } else {
            assert(phdrs[i].p_type != 6);
        }
    }
}

/// Extracts the location, entry size and count of the program header table, for
/// `AT_PHDR`, `AT_PHENT` and `AT_PHNUM`.
pub fn get_phdr_info(data: &[u8], arch: Arch, load_base: u64) -> (r: Option<PhdrInfo>)
    requires
        phdr_info_fits(data@, arch, load_base),
    ensures
        r == if has_phdr_info(data@, arch) {
            Some(
                PhdrInfo {
                    phdr_vaddr: (load_base + phdr_link_vaddr(data@, 0) - span_of(
                        packed_phdrs(data@),
                    ).0) as u64,
                    phent: le_u16(data@, 54),
                    phnum: le_u16(data@, 56),
                },
            )
        } else {
            None
        },
{
    let ehdr: Elf64Ehdr = match validate_ehdr(data, arch) {
        Ok(h) => h,
        Err(_) => {
            return None;
        },
    };
    let phdrs: Vec<Elf64Phdr> = match phdr_slice(data, &ehdr) {
        Ok(p) => p,
        Err(_) => {
            return None;
        },
    };
    assert(phdrs@ =~= packed_phdrs(data@));
    let lo: u64 = match load_span(phdrs.as_slice()) {
        Some((lo, _)) => lo,
        None => {
            return None;
        },
    };
    let found = find_phdr_phdr(phdrs.as_slice());
    proof {
        lemma_phdr_link_vaddr(data@, found, 0);
    }
    let phdr_vaddr: u64 = match found {
        Some(ph) => ph.p_vaddr,
        None => ehdr.e_phoff,
    };
    Some(
        PhdrInfo {
            phdr_vaddr: load_base + phdr_vaddr - lo,
            phent: ehdr.e_phentsize,
            phnum: ehdr.e_phnum,
        },
    )
}

/// The program headers are at the address of the first header that tells it, and
/// where their offset is if none does.
pub proof fn lemma_headers_have_an_address(s: Seq<u8>, i: int, k: int)
    requires
        0 <= i <= k <= packed_phdrs(s).len(),
        forall|j: int| 0 <= j < k ==> (#[trigger] packed_phdrs(s)[j]).p_type != 6,
        k < packed_phdrs(s).len() ==> packed_phdrs(s)[k].p_type == 6,
    ensures
        k < packed_phdrs(s).len() ==> phdr_link_vaddr(s, i) == packed_phdrs(s)[k].p_vaddr,
        k == packed_phdrs(s).len() ==> phdr_link_vaddr(s, i) == le_u64(s, 32),
    decreases k - i,
{
    if i < k {
        lemma_headers_have_an_address(s, i + 1, k);
    }
}

} // verus!
