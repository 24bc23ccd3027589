//! PE file to memory-image layout planner.
//!
//! The planner validates the headers, checks bounds, and lists the
//! (file offset, RVA, bytes) copies that turn a PE file into its memory image.
//! What no copy touches stays zero.
use crate::loader::elf::header::Arch;
use crate::loader::pe::header::{
    opt_at, opt_offset, pe_error, sections_of, validate, PeError, PeHeaders, SectionView,
};
use crate::loader::pe::types::SectionHeader;
use vstd::prelude::*;

verus! {

/// A single copy operation: read `bytes` from `src_file_offset` of the source
/// PE file and write them at `dst_rva` inside the destination image.
#[derive(Clone, Copy, PartialEq, Eq, Debug, Structural)]
pub struct PeCopy {
    pub src_file_offset: u64,
    pub dst_rva: u64,
    pub bytes: u64,
}

impl PeCopy {
    /// A copy of nothing, for fresh buffers.
    pub fn empty() -> (r: PeCopy)
        ensures
            r == (PeCopy { src_file_offset: 0, dst_rva: 0, bytes: 0 }),
    {
        PeCopy { src_file_offset: 0, dst_rva: 0, bytes: 0 }
    }
}

/// Why no memory image can be laid out.
#[derive(Clone, Copy, PartialEq, Eq, Debug, Structural)]
pub enum PeMemoryImageError {
    /// The file is shorter than its headers.
    TooSmall,
    /// The DOS, PE, COFF or optional header is not usable.
    BadHeaders,
    /// Empty image, `size_of_headers` oversize, entry RVA past image end, or a
    /// section oversize relative to the image or the file.
    InvalidImage,
}

/// Bounded copy-list size.
pub const MAX_COPIES: usize = 32;

/// The copy that places a section's file bytes.
pub open spec fn section_copy(sec: SectionView) -> PeCopy {
    PeCopy {
        src_file_offset: sec.pointer_to_raw_data as u64,
        dst_rva: sec.virtual_address as u64,
        bytes: sec.size_of_raw_data as u64,
    }
}

/// Whether a section's file bytes lie in the file and fit in the image.
pub open spec fn section_fits(sec: SectionView, image_size: int, file_len: int) -> bool {
    &&& sec.virtual_address + sec.size_of_raw_data <= image_size
    &&& sec.pointer_to_raw_data + sec.size_of_raw_data <= file_len
}

/// The copies for the sections from `i` on, after `copies`; the flag tells
/// whether every section that has file bytes got its copy.
pub open spec fn copies_from(
    sections: Seq<SectionView>,
    image_size: int,
    file_len: int,
    i: int,
    copies: Seq<PeCopy>,
) -> (Seq<PeCopy>, bool)
    decreases sections.len() - i,
{
    if i >= sections.len() || i < 0 {
        (copies, true)
    } else if sections[i].size_of_raw_data == 0 {
        copies_from(sections, image_size, file_len, i + 1, copies)
    } else if !section_fits(sections[i], image_size, file_len) || copies.len() >= 32 {
        (copies, false)
    } else {
        copies_from(
            sections,
            image_size,
            file_len,
            i + 1,
            copies.push(section_copy(sections[i])),
        )
    }
}

/// Whether the optional header describes a sane image.
pub open spec fn image_is_sane(s: Seq<u8>) -> bool {
    let opt = opt_at(s, opt_offset(s));
    &&& opt.size_of_image > 0
    &&& opt.address_of_entry_point < opt.size_of_image
    &&& 0 < opt.size_of_headers <= opt.size_of_image
    &&& opt.size_of_headers <= s.len()
}

/// The sections of the image in `s`.
pub open spec fn file_sections(s: Seq<u8>) -> Seq<SectionView> {
    Seq::new(
        crate::loader::pe::header::sections_count(s) as nat,
        |i: int|
            crate::loader::pe::header::section_at(
                s,
                crate::loader::pe::header::sections_offset(s) + 40 * i,
            ),
    )
}

/// The outcome of planning: the copies listed, and the error if any.
pub open spec fn memory_image_outcome(s: Seq<u8>, arch: Arch) -> (
    Seq<PeCopy>,
    Option<PeMemoryImageError>,
) {
    let opt = opt_at(s, opt_offset(s));
    match pe_error(s, arch) {
        Some(PeError::TooSmall) => (Seq::empty(), Some(PeMemoryImageError::TooSmall)),
        Some(_) => (Seq::empty(), Some(PeMemoryImageError::BadHeaders)),
        None => if !image_is_sane(s) {
            (Seq::empty(), Some(PeMemoryImageError::InvalidImage))
        } else {
            let (copies, ok) = copies_from(
                file_sections(s),
                opt.size_of_image as int,
                s.len() as int,
                0,
                seq![
                    PeCopy {
                        src_file_offset: 0,
                        dst_rva: 0,
                        bytes: opt.size_of_headers as u64,
                    },
                ],
            );
            (
                copies,
                if ok {
                    None
                } else {
                    Some(PeMemoryImageError::InvalidImage)
                },
            )
        },
    }
}

/// Plans the copy list for the PE file `file_bytes`.
///
/// Writes the entries to the front of `out_copies` and returns `(image_size,
/// size_of_headers, entry_rva, copies_len)`. The headers are copied first, then
/// each section that has file bytes, in table order.
pub fn plan_memory_image(
    file_bytes: &[u8],
    arch: Arch,
    out_copies: &mut [PeCopy; MAX_COPIES],
) -> (r: Result<(u64, u64, u64, usize), PeMemoryImageError>)
    ensures
        ({
            let (copies, error) = memory_image_outcome(file_bytes@, arch);
            let opt = opt_at(file_bytes@, opt_offset(file_bytes@));
            &&& match error {
                Some(e) => r == Err::<(u64, u64, u64, usize), PeMemoryImageError>(e),
                None => r is Ok && r->Ok_0.0 == opt.size_of_image && r->Ok_0.1
                    == opt.size_of_headers && r->Ok_0.2 == opt.address_of_entry_point && r->Ok_0.3
                    == copies.len(),
            }
            &&& copies.len() <= 32
            &&& final(out_copies)@ == copies + old(out_copies)@.skip(copies.len() as int)
        }),
{
    let ghost before = out_copies@;
    let ghost s = file_bytes@;
    proof {
        assert(Seq::<PeCopy>::empty() + before.skip(0) =~= before);
    }
    let headers: PeHeaders = match validate(file_bytes, arch) {
        Ok(h) => h,
        Err(PeError::TooSmall) => {
            return Err(PeMemoryImageError::TooSmall);
        },
        Err(_) => {
            return Err(PeMemoryImageError::BadHeaders);
        },
    };
    let image_size: u64 = headers.opt.size_of_image as u64;
    let size_of_headers: u64 = headers.opt.size_of_headers as u64;
    let entry_rva: u64 = headers.opt.address_of_entry_point as u64;
    let file_len: u64 = file_bytes.len() as u64;
    if image_size == 0 || entry_rva >= image_size || size_of_headers == 0 || size_of_headers
        > image_size || size_of_headers > file_len {
        return Err(PeMemoryImageError::InvalidImage);
    }
    let mut n: usize = 1;
    out_copies[0] = PeCopy { src_file_offset: 0, dst_rva: 0, bytes: size_of_headers };
    let ghost mut copies: Seq<PeCopy> = seq![out_copies@[0]];
    let sections: Vec<SectionHeader> = headers.sections(file_bytes);
    let ghost views = file_sections(s);
    proof {
        assert(out_copies@ =~= copies + before.skip(1));
        assert(views =~= sections_of(s, headers));
    }
    let mut i: usize = 0;
    while i < sections.len()
        invariant
            i <= sections@.len(),
            n == copies.len(),
            n <= 32,
            before == old(out_copies)@,
            before.len() == 32,
            s == file_bytes@,
            file_len == s.len(),
            out_copies@ == copies + before.skip(n as int),
            views.len() == sections@.len(),
            forall|j: int| 0 <= j < views.len() ==> (#[trigger] sections@[j])@ == views[j],
            memory_image_outcome(s, arch) == ({
                let (done, ok) = copies_from(
                    views,
                    image_size as int,
                    file_len as int,
                    i as int,
                    copies,
                );
                (
                    done,
                    if ok {
                        None
                    } else {
                        Some(PeMemoryImageError::InvalidImage)
                    },
                )
            }),
        decreases sections@.len() - i,
    {
        let raw: u64 = sections[i].size_of_raw_data as u64;
        let rva: u64 = sections[i].virtual_address as u64;
        let raw_off: u64 = sections[i].pointer_to_raw_data as u64;
        assert(sections@[i as int]@ == views[i as int]);
        if raw != 0 {
            if rva >= image_size {
                return Err(PeMemoryImageError::InvalidImage);
            }
            if raw_off + raw > file_len {
                return Err(PeMemoryImageError::InvalidImage);
            }
            if raw > image_size - rva {
                return Err(PeMemoryImageError::InvalidImage);
            }
            if n >= MAX_COPIES {
                return Err(PeMemoryImageError::InvalidImage);
            }
            out_copies[n] = PeCopy { src_file_offset: raw_off, dst_rva: rva, bytes: raw };
            proof {
                copies = copies.push(section_copy(views[i as int]));
                assert(out_copies@ =~= copies + before.skip(n as int + 1));
            }
            n = n + 1;
        }
        i = i + 1;
    }
    Ok((image_size, size_of_headers, entry_rva, n))
}

/// Whether a copy reads inside the file and writes inside the image.
pub open spec fn copy_in_bounds(c: PeCopy, image_size: int, file_len: int) -> bool {
    c.src_file_offset + c.bytes <= file_len && c.dst_rva + c.bytes <= image_size
}

spec fn all_in_bounds(copies: Seq<PeCopy>, image_size: int, file_len: int) -> bool {
    forall|j: int|
        0 <= j < copies.len() ==> copy_in_bounds(#[trigger] copies[j], image_size, file_len)
}

proof fn lemma_copies_from(
    sections: Seq<SectionView>,
    image_size: int,
    file_len: int,
    i: int,
    copies: Seq<PeCopy>,
)
    requires
        all_in_bounds(copies, image_size, file_len),
        i >= 0,
    ensures
        all_in_bounds(
            copies_from(sections, image_size, file_len, i, copies).0,
            image_size,
            file_len,
        ),
    decreases sections.len() - i,
{
    if i < sections.len() {
        if sections[i].size_of_raw_data == 0 {
            lemma_copies_from(sections, image_size, file_len, i + 1, copies);
        } else if section_fits(sections[i], image_size, file_len) && copies.len() < 32 {
            let next = copies.push(section_copy(sections[i]));
            assert(all_in_bounds(next, image_size, file_len)) by {
                assert forall|j: int| 0 <= j < next.len() implies copy_in_bounds(
                    #[trigger] next[j],
                    image_size,
                    file_len,
                ) by {
                    if j < copies.len() {
                        assert(copy_in_bounds(copies[j], image_size, file_len));
                    }
                }
            }
            lemma_copies_from(sections, image_size, file_len, i + 1, next);
        }
    }
}

/// Every planned copy reads inside the file and writes inside the image.
pub proof fn lemma_copies_in_bounds(s: Seq<u8>, arch: Arch, j: int)
    requires
        0 <= j < memory_image_outcome(s, arch).0.len(),
    ensures
        copy_in_bounds(
            memory_image_outcome(s, arch).0[j],
            opt_at(s, opt_offset(s)).size_of_image as int,
            s.len() as int,
        ),
{
    let opt = opt_at(s, opt_offset(s));
    let head = seq![
        PeCopy { src_file_offset: 0, dst_rva: 0, bytes: opt.size_of_headers as u64 },
    ];
    if image_is_sane(s) {
        lemma_copies_from(file_sections(s), opt.size_of_image as int, s.len() as int, 0, head);
    }
}

// ---------------------------------------------------------------------------
// What the image holds
// ---------------------------------------------------------------------------

/// The byte of the image at an RVA after the first `n` copies: that of the last
/// copy that reaches it, zero if none does.
pub open spec fn image_byte(copies: Seq<PeCopy>, file: Seq<u8>, rva: int, n: int) -> u8
    decreases n,
{
    if n <= 0 {
        0
    } else {
        let c = copies[n - 1];
        if c.dst_rva <= rva < c.dst_rva + c.bytes {
            file[c.src_file_offset + (rva - c.dst_rva)]
        } else {
            image_byte(copies, file, rva, n - 1)
        }
    }
}

/// Whether a section has file bytes for an RVA.
pub open spec fn fills(sec: SectionView, rva: int) -> bool {
    sec.virtual_address <= rva < sec.virtual_address + sec.size_of_raw_data
}

proof fn lemma_image_byte_of_prefix(
    a: Seq<PeCopy>,
    b: Seq<PeCopy>,
    file: Seq<u8>,
    rva: int,
    n: int,
)
    requires
        0 <= n <= a.len(),
        n <= b.len(),
        forall|i: int| 0 <= i < n ==> a[i] == b[i],
    ensures
        image_byte(a, file, rva, n) == image_byte(b, file, rva, n),
    decreases n,
{
    if n > 0 {
        lemma_image_byte_of_prefix(a, b, file, rva, n - 1);
    }
}

proof fn lemma_image_byte_from(
    sections: Seq<SectionView>,
    image_size: int,
    file: Seq<u8>,
    i: int,
    copies: Seq<PeCopy>,
    rva: int,
    k: int,
)
    requires
        i >= 0,
        copies_from(sections, image_size, file.len() as int, i, copies).1,
        forall|m: int|
            i <= m < sections.len() && m > k ==> !fills(#[trigger] sections[m], rva),
    ensures
        ({
            let all = copies_from(sections, image_size, file.len() as int, i, copies).0;
            let byte = image_byte(all, file, rva, all.len() as int);
            &&& k < i ==> byte == image_byte(copies, file, rva, copies.len() as int)
            &&& i <= k < sections.len() && fills(sections[k], rva) ==> byte
                == file[sections[k].pointer_to_raw_data + (rva - sections[k].virtual_address)]
        }),
    decreases sections.len() - i,
{
    if i < sections.len() {
        if sections[i].size_of_raw_data == 0 {
            lemma_image_byte_from(sections, image_size, file, i + 1, copies, rva, k);
        } else {
            let next = copies.push(section_copy(sections[i]));
            lemma_image_byte_from(sections, image_size, file, i + 1, next, rva, k);
            lemma_image_byte_of_prefix(copies, next, file, rva, copies.len() as int);
        }
    }
}

/// What a section has in the file stands at its address in the image: a byte of
/// the section is the byte of the file that is as far from the start of the
/// section's data, where no later section has one there.
pub proof fn lemma_image_holds_sections(s: Seq<u8>, arch: Arch, k: int, rva: int)
    requires
        memory_image_outcome(s, arch).1 is None,
        0 <= k < file_sections(s).len(),
        fills(file_sections(s)[k], rva),
        forall|m: int| k < m < file_sections(s).len() ==> !fills(#[trigger] file_sections(s)[m], rva),
    ensures
        ({
            let copies = memory_image_outcome(s, arch).0;
            let sec = file_sections(s)[k];
            image_byte(copies, s, rva, copies.len() as int) == s[sec.pointer_to_raw_data + (rva
                - sec.virtual_address)]
        }),
{
    let opt = opt_at(s, opt_offset(s));
    let head = seq![PeCopy { src_file_offset: 0, dst_rva: 0, bytes: opt.size_of_headers as u64 }];
    lemma_image_byte_from(file_sections(s), opt.size_of_image as int, s, 0, head, rva, k);
}

/// Where no section has a byte of the file, the image holds the headers of the
/// file, and zeroes behind them.
pub proof fn lemma_image_holds_headers(s: Seq<u8>, arch: Arch, rva: int)
    requires
        memory_image_outcome(s, arch).1 is None,
        0 <= rva,
        forall|m: int| 0 <= m < file_sections(s).len() ==> !fills(#[trigger] file_sections(s)[m], rva),
    ensures
        ({
            let copies = memory_image_outcome(s, arch).0;
            image_byte(copies, s, rva, copies.len() as int) == if rva < opt_at(
                s,
                opt_offset(s),
            ).size_of_headers {
                s[rva]
            } else {
                0
            }
        }),
{
    let opt = opt_at(s, opt_offset(s));
    let head = seq![PeCopy { src_file_offset: 0, dst_rva: 0, bytes: opt.size_of_headers as u64 }];
    lemma_image_byte_from(file_sections(s), opt.size_of_image as int, s, 0, head, rva, -1);
    reveal_with_fuel(image_byte, 2);
}

} // verus!
