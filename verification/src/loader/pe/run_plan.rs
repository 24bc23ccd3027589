//! Run plans of PE images, and the regions written after mapping.
//!
//! The code object of a PE image is a memory image: sections are already at
//! their RVAs, so a section's page offset in the object equals its RVA. The
//! producer classifies each page by section protection: executable sections map
//! shared `R-X`, read-only sections shared `R--`, writable sections a private
//! copy-on-write child `R-W`.
//!
//! [`build_carves`] enumerates the regions the PE loader writes after mapping
//! (import address tables, delay-import tables and module handles, the TLS
//! index slot). [`plan_pe`] forces those pages writable; a carve that lands on
//! an executable page is rejected.
use crate::loader::bytes::{
    field, le_u32, le_u64, lemma_field_32, lemma_field_64, read_u32, read_u64,
};
use crate::loader::elf::types::{page_ceil, page_floor};
use crate::loader::image::{
    executable, lemma_prot_bits, prot_bits, run_holds, run_is_wx_safe, source_offset, writable,
    Carve, ImageEnvelope, ImageRunKind, Prot, Run, RunSource, PROT_EXEC, PROT_WRITE,
};
use crate::loader::pe::header::{
    directory_of, sections_of, tables_in, PeHeaders, SectionView,
};
use crate::loader::pe::types::{
    DataDirectory, SectionHeader, IMAGE_DIRECTORY_ENTRY_DELAY_IMPORT, IMAGE_DIRECTORY_ENTRY_IAT,
    IMAGE_DIRECTORY_ENTRY_IMPORT, IMAGE_DIRECTORY_ENTRY_TLS, IMAGE_SCN_MEM_EXECUTE,
    IMAGE_SCN_MEM_WRITE,
};
use vstd::prelude::*;

verus! {

/// Why a PE image cannot be reduced to a W^X-safe run plan.
#[derive(Clone, Copy, PartialEq, Eq, Debug, Structural)]
pub enum PePlanError {
    /// A page is both executable and writable: a W+X section, or a carve that
    /// lands on executable code.
    WriteExecPage,
    /// The caller's run buffer was too small for the produced plan.
    TooManyRuns,
    /// The caller's carve buffer was too small for the produced plan.
    TooManyCarves,
    /// A PE metadata table referenced bytes outside the memory image.
    InvalidImage,
    /// Address arithmetic overflowed.
    Overflow,
}

// ---------------------------------------------------------------------------
// Page classification
// ---------------------------------------------------------------------------

/// The end of the page at `rva`, cut off at the end of the image.
pub open spec fn pe_page_end(rva: int, image_size: int) -> int {
    if rva + 4096 < image_size {
        rva + 4096
    } else {
        image_size
    }
}

/// Bytes a section occupies in memory.
pub open spec fn section_size(sec: SectionView) -> int {
    if sec.virtual_size > sec.size_of_raw_data {
        sec.virtual_size as int
    } else {
        sec.size_of_raw_data as int
    }
}

/// Whether a section has a byte in the page at `rva`.
pub open spec fn section_covers(sec: SectionView, rva: int, image_size: int) -> bool {
    &&& section_size(sec) > 0
    &&& rva < sec.virtual_address + section_size(sec)
    &&& sec.virtual_address < pe_page_end(rva, image_size)
}

/// Whether a carve reaches into the page at `rva`.
pub open spec fn carve_covers(c: Carve, rva: int, image_size: int) -> bool {
    let end = if c.rva + c.bytes > u64::MAX {
        u64::MAX as int
    } else {
        c.rva + c.bytes
    };
    c.rva < pe_page_end(rva, image_size) && end > rva
}

/// Whether an executable section has a byte in the page.
pub open spec fn pe_page_exec(secs: Seq<SectionView>, rva: int, image_size: int) -> bool {
    exists|i: int|
        0 <= i < secs.len() && section_covers(#[trigger] secs[i], rva, image_size)
            && secs[i].characteristics & 0x2000_0000 != 0
}

/// Whether a writable section or a carve has a byte in the page.
pub open spec fn pe_page_write(
    secs: Seq<SectionView>,
    carves: Seq<Carve>,
    rva: int,
    image_size: int,
) -> bool {
    ||| exists|i: int|
        0 <= i < secs.len() && section_covers(#[trigger] secs[i], rva, image_size)
            && secs[i].characteristics & 0x8000_0000 != 0
    ||| exists|i: int| 0 <= i < carves.len() && carve_covers(#[trigger] carves[i], rva, image_size)
}

/// The protection of the page at `rva`. Pages outside every section are
/// read-only.
pub open spec fn pe_page_prot(
    secs: Seq<SectionView>,
    carves: Seq<Carve>,
    rva: int,
    image_size: int,
) -> Result<u8, PePlanError> {
    let exec = pe_page_exec(secs, rva, image_size);
    let write = pe_page_write(secs, carves, rva, image_size);
    if exec && write {
        Err(PePlanError::WriteExecPage)
    } else {
        Ok(prot_bits(exec, write))
    }
}

spec fn views(secs: Seq<SectionHeader>) -> Seq<SectionView> {
    Seq::new(secs.len(), |i: int| secs[i]@)
}

/// Unions the section protections covering the page at `rva`, then applies the
/// carve override (force writable).
fn classify_pe_page(
    sections: &Vec<SectionHeader>,
    rva: u64,
    image_size: u64,
    carves: &[Carve],
) -> (r: Result<u8, PePlanError>)
    requires
        rva < image_size <= 0xffff_ffff,
    ensures
        r == pe_page_prot(views(sections@), carves@, rva as int, image_size as int),
{
    let page_end: u64 = if rva + 4096 < image_size {
        rva + 4096
    } else {
        image_size
    };
    let ghost secs = views(sections@);
    let mut wants_exec: bool = false;
    let mut wants_write: bool = false;
    let mut i: usize = 0;
    while i < sections.len()
        invariant
            i <= sections@.len(),
            secs == views(sections@),
            page_end == pe_page_end(rva as int, image_size as int),
            wants_exec == exists|j: int|
                0 <= j < i && section_covers(#[trigger] secs[j], rva as int, image_size as int)
                    && secs[j].characteristics & 0x2000_0000 != 0,
            wants_write == exists|j: int|
                0 <= j < i && section_covers(#[trigger] secs[j], rva as int, image_size as int)
                    && secs[j].characteristics & 0x8000_0000 != 0,
        decreases sections@.len() - i,
    {
        let sec = &sections[i];
        assert(sec@ == secs[i as int]);
        let sec_rva: u64 = sec.virtual_address as u64;
        let sec_size: u64 = if sec.virtual_size > sec.size_of_raw_data {
            sec.virtual_size as u64
        } else {
            sec.size_of_raw_data as u64
        };
        if sec_size != 0 && sec_rva + sec_size > rva && sec_rva < page_end {
            assert(section_covers(secs[i as int], rva as int, image_size as int));
            if sec.characteristics & IMAGE_SCN_MEM_EXECUTE != 0 {
                wants_exec = true;
            }
            if sec.characteristics & IMAGE_SCN_MEM_WRITE != 0 {
                wants_write = true;
            }
        }
        i = i + 1;
    }
    let mut carved: bool = false;
    let mut k: usize = 0;
    while k < carves.len()
        invariant
            k <= carves@.len(),
            page_end == pe_page_end(rva as int, image_size as int),
            carved == exists|j: int|
                0 <= j < k && carve_covers(#[trigger] carves@[j], rva as int, image_size as int),
        decreases carves@.len() - k,
    {
        let c: Carve = carves[k];
        assert(c == carves@[k as int]);
        let c_end: u64 = c.rva.saturating_add(c.bytes);
        if c.rva < page_end && c_end > rva {
            assert(carve_covers(carves@[k as int], rva as int, image_size as int));
            carved = true;
        }
        k = k + 1;
    }
    if carved {
        wants_write = true;
    }
    if wants_exec && wants_write {
        return Err(PePlanError::WriteExecPage);
    }
    Ok(
        if wants_exec {
            5
        } else if wants_write {
            3
        } else {
            1
        },
    )
}

// ---------------------------------------------------------------------------
// Run plan
// ---------------------------------------------------------------------------

/// A maximal run of consecutive pages with the same protection.
#[derive(Clone, Copy)]
pub struct PendingPages {
    pub start_va: u64,
    pub pages: u64,
    pub prot: u8,
}

impl PendingPages {
    /// The finished run. Writable runs (data, zero-fill, carves) are a private
    /// child of the memory image, which already holds all of their bytes.
    pub open spec fn finished(self, load_base: u64) -> Run {
        let offset = ((self.start_va - load_base) / 4096) as u64;
        let bytes = (self.pages * 4096) as u64;
        Run {
            va: self.start_va,
            bytes,
            prot: Prot(self.prot),
            kind: if writable(self.prot) {
                ImageRunKind::Data
            } else if executable(self.prot) {
                ImageRunKind::Text
            } else {
                ImageRunKind::RoData
            },
            source: if writable(self.prot) {
                RunSource::PrivateFromCodeMo { mo_offset_pages: offset, file_bytes: bytes }
            } else {
                RunSource::CleanFromCodeMo { mo_offset_pages: offset }
            },
        }
    }
}

/// The runs after a pending one is emitted into a buffer of `cap` entries.
pub open spec fn pe_emitted(
    pending: Option<PendingPages>,
    load_base: u64,
    cap: nat,
    runs: Seq<Run>,
) -> Result<Seq<Run>, PePlanError> {
    match pending {
        None => Ok(runs),
        Some(p) => if runs.len() >= cap {
            Err(PePlanError::TooManyRuns)
        } else {
            Ok(runs.push(p.finished(load_base)))
        },
    }
}

/// Plans the pages from `rva` on, given the runs emitted so far and the one
/// still growing. The outcome is the runs emitted, and the error that stopped
/// the planner.
pub open spec fn pe_plan_pages(
    secs: Seq<SectionView>,
    carves: Seq<Carve>,
    load_base: u64,
    cap: nat,
    image_size: int,
    rva: int,
    runs: Seq<Run>,
    pending: Option<PendingPages>,
) -> (Seq<Run>, Option<PePlanError>)
    decreases image_size - rva + 4096,
{
    let flushed = pe_emitted(pending, load_base, cap, runs);
    if rva >= image_size {
        match flushed {
            Ok(done) => (done, None),
            Err(e) => (runs, Some(e)),
        }
    } else {
        match pe_page_prot(secs, carves, rva, image_size) {
            Err(e) => (runs, Some(e)),
            Ok(prot) => if load_base + rva > u64::MAX {
                (runs, Some(PePlanError::Overflow))
            } else if pending is Some && pending->0.prot == prot {
                pe_plan_pages(
                    secs,
                    carves,
                    load_base,
                    cap,
                    image_size,
                    rva + 4096,
                    runs,
                    Some(PendingPages { pages: (pending->0.pages + 1) as u64, ..pending->0 }),
                )
            } else {
                match flushed {
                    Err(e) => (runs, Some(e)),
                    Ok(done) => pe_plan_pages(
                        secs,
                        carves,
                        load_base,
                        cap,
                        image_size,
                        rva + 4096,
                        done,
                        Some(
                            PendingPages { start_va: (load_base + rva) as u64, pages: 1, prot },
                        ),
                    ),
                }
            },
        }
    }
}

/// The outcome of planning the image with headers `pe` in `s`.
pub open spec fn pe_plan_outcome(
    pe: PeHeaders,
    s: Seq<u8>,
    load_base: u64,
    carves: Seq<Carve>,
    cap: nat,
) -> (Seq<Run>, Option<PePlanError>) {
    pe_plan_pages(
        sections_of(s, pe),
        carves,
        load_base,
        cap,
        pe.opt.size_of_image as int,
        0,
        Seq::empty(),
        None,
    )
}

/// The envelope of the image with headers `pe`.
pub open spec fn pe_envelope(pe: PeHeaders, load_base: u64) -> ImageEnvelope {
    ImageEnvelope {
        base: load_base,
        bytes: page_ceil(pe.opt.size_of_image as int) as u64,
        load_base,
        entry_pc: load_base.wrapping_add(pe.opt.address_of_entry_point as u64),
    }
}

spec fn holds<T>(out: Seq<T>, before: Seq<T>, done: Seq<T>) -> bool {
    &&& done.len() <= before.len()
    &&& out == done + before.skip(done.len() as int)
}

fn emit(
    pending: &Option<PendingPages>,
    load_base: u64,
    out: &mut [Run],
    count: usize,
    Ghost(before): Ghost<Seq<Run>>,
    Ghost(runs): Ghost<Seq<Run>>,
) -> (r: Result<usize, PePlanError>)
    requires
        holds(old(out)@, before, runs),
        count == runs.len(),
        pending is Some ==> pending->0.start_va >= load_base && pending->0.pages * 4096 <= u64::MAX,
    ensures
        match pe_emitted(*pending, load_base, before.len(), runs) {
            Ok(done) => r is Ok && r->Ok_0 == done.len() && holds(final(out)@, before, done),
            Err(e) => r == Err::<usize, PePlanError>(e) && final(out)@ == old(out)@,
        },
{
    match pending {
        None => Ok(count),
        Some(p) => {
            if count >= out.len() {
                return Err(PePlanError::TooManyRuns);
            }
            let bytes: u64 = p.pages * 4096;
            let mo_offset_pages: u64 = (p.start_va - load_base) / 4096;
            let write: bool = p.prot & PROT_WRITE != 0;
            let exec: bool = p.prot & PROT_EXEC != 0;
            let (source, kind) = if write {
                (
                    RunSource::PrivateFromCodeMo { mo_offset_pages, file_bytes: bytes },
                    ImageRunKind::Data,
                )
            } else if exec {
                (RunSource::CleanFromCodeMo { mo_offset_pages }, ImageRunKind::Text)
            } else {
                (RunSource::CleanFromCodeMo { mo_offset_pages }, ImageRunKind::RoData)
            };
            let run = Run { va: p.start_va, bytes, prot: Prot(p.prot), kind, source };
            out[count] = run;
            assert(out@ =~= runs.push(run) + before.skip(runs.len() as int + 1));
            Ok(count + 1)
        },
    }
}

/// Produces the run plan for a memory-image PE at `load_base`.
///
/// `data` holds the headers, so that the section table can be read; `carves`
/// are the post-map writable regions from [`build_carves`]. Returns the
/// envelope and the number of runs written to `out`.
pub fn plan_pe(
    pe: &PeHeaders,
    data: &[u8],
    load_base: u64,
    carves: &[Carve],
    out: &mut [Run],
) -> (r: Result<(ImageEnvelope, usize), PePlanError>)
    requires
        tables_in(*pe, data@.len() as int),
    ensures
        ({
            let (runs, error) = pe_plan_outcome(*pe, data@, load_base, carves@, old(out)@.len());
            &&& match error {
                Some(e) => r == Err::<(ImageEnvelope, usize), PePlanError>(e),
                None => r is Ok && r->Ok_0.0 == pe_envelope(*pe, load_base) && r->Ok_0.1
                    == runs.len(),
            }
            &&& runs.len() <= old(out)@.len()
            &&& final(out)@ == runs + old(out)@.skip(runs.len() as int)
        }),
{
    let ghost before = out@;
    let ghost cap = out@.len();
    let image_size: u64 = pe.opt.size_of_image as u64;
    let entry_pc: u64 = load_base.wrapping_add(pe.opt.address_of_entry_point as u64);
    let envelope = ImageEnvelope {
        base: load_base,
        bytes: (image_size + 4095) / 4096 * 4096,
        load_base,
        entry_pc,
    };
    let sections: Vec<SectionHeader> = pe.sections(data);
    let ghost secs = sections_of(data@, *pe);
    let mut count: usize = 0;
    let ghost mut runs: Seq<Run> = Seq::empty();
    let mut pending: Option<PendingPages> = None;
    let mut rva: u64 = 0;
    proof {
        assert(views(sections@) =~= secs);
        assert(Seq::<Run>::empty() + before.skip(0) =~= before);
    }
    while rva < image_size
        invariant
            image_size <= 0xffff_ffff,
            rva % 4096 == 0,
            rva < image_size + 4096,
            views(sections@) == secs,
            cap == before.len(),
            before == old(out)@,
            holds(out@, before, runs),
            count == runs.len(),
            pending is Some ==> pending->0.start_va >= load_base && pending->0.pages * 4096
                + pending->0.start_va == load_base + rva && pending->0.pages <= 0x10_0000,
            pe_plan_outcome(*pe, data@, load_base, carves@, cap) == pe_plan_pages(
                secs,
                carves@,
                load_base,
                cap,
                image_size as int,
                rva as int,
                runs,
                pending,
            ),
        decreases image_size + 4096 - rva,
    {
        let prot: u8 = match classify_pe_page(&sections, rva, image_size, carves) {
            Ok(prot) => prot,
            Err(e) => {
                return Err(e);
            },
        };
        if rva > u64::MAX - load_base {
            return Err(PePlanError::Overflow);
        }
        let page_va: u64 = load_base + rva;
        let extend: bool = match &pending {
            Some(p) => p.prot == prot,
            None => false,
        };
        if extend {
            pending = match &pending {
                Some(p) => Some(
                    PendingPages { start_va: p.start_va, pages: p.pages + 1, prot: p.prot },
                ),
                None => None,
            };
        } else {
            match emit(&pending, load_base, out, count, Ghost(before), Ghost(runs)) {
                Err(e) => {
                    return Err(e);
                },
                Ok(n) => {
                    count = n;
                    proof {
                        runs = pe_emitted(pending, load_base, cap, runs)->Ok_0;
                    }
                },
            }
            pending = Some(PendingPages { start_va: page_va, pages: 1, prot });
        }
        rva = rva + 4096;
    }
    match emit(&pending, load_base, out, count, Ghost(before), Ghost(runs)) {
        Err(e) => Err(e),
        Ok(n) => Ok((envelope, n)),
    }
}

// ---------------------------------------------------------------------------
// What every plan has in common
// ---------------------------------------------------------------------------

/// Every page of the image from `lo` to `hi` (RVAs) is in a run with the page's
/// protection.
pub open spec fn pe_pages_placed(
    secs: Seq<SectionView>,
    carves: Seq<Carve>,
    load_base: u64,
    image_size: int,
    runs: Seq<Run>,
    hi: int,
) -> bool {
    forall|rva: int|
        0 <= rva < hi && rva % 4096 == 0 ==> match #[trigger] pe_page_prot(
            secs,
            carves,
            rva,
            image_size,
        ) {
            Ok(prot) => exists|i: int|
                0 <= i < runs.len() && run_holds(#[trigger] runs[i], load_base + rva, prot),
            Err(_) => false,
        }
}

spec fn pe_with_pending(runs: Seq<Run>, pending: Option<PendingPages>, load_base: u64) -> Seq<Run> {
    match pending {
        None => runs,
        Some(p) => runs.push(p.finished(load_base)),
    }
}

spec fn pe_pending_ok(p: PendingPages, va: int) -> bool {
    &&& p.start_va + p.pages * 4096 == va
    &&& 1 <= p.pages <= 0x10_0000
    &&& p.prot == 1 || p.prot == 3 || p.prot == 5
}

/// Runs start at whole pages from `base`, in ascending order, without overlap.
pub open spec fn pe_runs_in_order(runs: Seq<Run>, base: int, hi: int) -> bool {
    &&& forall|i: int|
        0 <= i < runs.len() ==> {
            let run = #[trigger] runs[i];
            &&& (run.va - base) % 4096 == 0
            &&& run.bytes % 4096 == 0
            &&& run.bytes > 0
            &&& base <= run.va
            &&& run.va + run.bytes <= hi
        }
    &&& forall|i: int, j: int|
        0 <= i < j < runs.len() ==> (#[trigger] runs[i]).va + runs[i].bytes <= (
        #[trigger] runs[j]).va
}

proof fn lemma_pe_plan_pages(
    secs: Seq<SectionView>,
    carves: Seq<Carve>,
    load_base: u64,
    cap: nat,
    image_size: int,
    rva: int,
    runs: Seq<Run>,
    pending: Option<PendingPages>,
)
    requires
        0 <= rva,
        rva < image_size + 4096,
        0 <= image_size <= 0xffff_ffff,
        rva % 4096 == 0,
        pe_plan_pages(secs, carves, load_base, cap, image_size, rva, runs, pending).1 is None,
        forall|i: int| 0 <= i < runs.len() ==> run_is_wx_safe(#[trigger] runs[i]),
        pending is Some ==> pe_pending_ok(pending->0, load_base + rva) && pending->0.start_va
            >= load_base && (pending->0.start_va - load_base) % 4096 == 0,
        pe_runs_in_order(
            pe_with_pending(runs, pending, load_base),
            load_base as int,
            load_base + rva,
        ),
        pe_pages_placed(
            secs,
            carves,
            load_base,
            image_size,
            pe_with_pending(runs, pending, load_base),
            rva,
        ),
    ensures
        ({
            let done = pe_plan_pages(
                secs,
                carves,
                load_base,
                cap,
                image_size,
                rva,
                runs,
                pending,
            ).0;
            &&& forall|i: int| 0 <= i < done.len() ==> run_is_wx_safe(#[trigger] done[i])
            &&& pe_runs_in_order(done, load_base as int, load_base + page_ceil(image_size))
            &&& pe_pages_placed(secs, carves, load_base, image_size, done, image_size)
        }),
    decreases image_size - rva + 4096,
{
    let flushed = pe_emitted(pending, load_base, cap, runs);
    let all = pe_with_pending(runs, pending, load_base);
    lemma_prot_bits(false, false);
    lemma_prot_bits(false, true);
    lemma_prot_bits(true, false);
    if flushed is Ok {
        let done = flushed->Ok_0;
        assert(done == all);
        assert(forall|i: int| 0 <= i < done.len() ==> run_is_wx_safe(#[trigger] done[i]));
    }
    if rva < image_size {
        let prot = pe_page_prot(secs, carves, rva, image_size)->Ok_0;
        let joined = pending is Some && pending->0.prot == prot;
        let (base_runs, next) = if joined {
            (
                runs,
                PendingPages { pages: (pending->0.pages + 1) as u64, ..pending->0 },
            )
        } else {
            (
                flushed->Ok_0,
                PendingPages { start_va: (load_base + rva) as u64, pages: 1, prot },
            )
        };
        let new_all = pe_with_pending(base_runs, Some(next), load_base);
        let last = new_all.len() - 1;
        assert(run_holds(new_all[last], load_base + rva, prot));
        assert(pe_pages_placed(secs, carves, load_base, image_size, new_all, rva + 4096)) by {
            assert forall|pg: int| 0 <= pg < rva + 4096 && pg % 4096 == 0 implies match
            #[trigger] pe_page_prot(secs, carves, pg, image_size) {
                Ok(prot) => exists|i: int|
                    0 <= i < new_all.len() && run_holds(#[trigger] new_all[i], load_base + pg, prot),
                Err(_) => false,
            } by {
                if pg >= rva {
                    assert(pg == rva);
                } else {
                    let pr = pe_page_prot(secs, carves, pg, image_size)->Ok_0;
                    let i = choose|i: int|
                        0 <= i < all.len() && run_holds(#[trigger] all[i], load_base + pg, pr);
                    assert(run_holds(new_all[i], load_base + pg, pr));
                }
            }
        }
        assert(pe_runs_in_order(new_all, load_base as int, load_base + rva + 4096)) by {
            assert forall|i: int| 0 <= i < new_all.len() implies {
                let run = #[trigger] new_all[i];
                &&& (run.va - load_base) % 4096 == 0
                &&& run.bytes % 4096 == 0
                &&& run.bytes > 0
                &&& load_base <= run.va
                &&& run.va + run.bytes <= load_base + rva + 4096
            } by {
                if i < all.len() {
                    let run = all[i];
                    assert((run.va - load_base) % 4096 == 0 && run.bytes % 4096 == 0);
                }
            }
            assert forall|i: int, j: int| 0 <= i < j < new_all.len() implies (
            #[trigger] new_all[i]).va + new_all[i].bytes <= (#[trigger] new_all[j]).va by {
                if j < all.len() {
                    assert(all[i].va + all[i].bytes <= all[j].va);
                } else {
                    assert(all[i].va + all[i].bytes <= load_base + rva);
                }
            }
        }
        lemma_pe_plan_pages(
            secs,
            carves,
            load_base,
            cap,
            image_size,
            rva + 4096,
            base_runs,
            Some(next),
        );
    } else {
        assert(rva == page_ceil(image_size));
    }
}

proof fn lemma_pe_plan(pe: PeHeaders, s: Seq<u8>, load_base: u64, carves: Seq<Carve>, cap: nat)
    requires
        pe_plan_outcome(pe, s, load_base, carves, cap).1 is None,
    ensures
        ({
            let done = pe_plan_outcome(pe, s, load_base, carves, cap).0;
            let size = pe.opt.size_of_image as int;
            &&& forall|i: int| 0 <= i < done.len() ==> run_is_wx_safe(#[trigger] done[i])
            &&& pe_runs_in_order(done, load_base as int, load_base + page_ceil(size))
            &&& pe_pages_placed(sections_of(s, pe), carves, load_base, size, done, size)
        }),
{
    lemma_pe_plan_pages(
        sections_of(s, pe),
        carves,
        load_base,
        cap,
        pe.opt.size_of_image as int,
        0,
        Seq::empty(),
        None,
    );
}

/// An accepted PE image keeps W^X, whatever its carves are.
pub proof fn lemma_pe_plan_is_wx_safe(
    pe: PeHeaders,
    s: Seq<u8>,
    load_base: u64,
    carves: Seq<Carve>,
    cap: nat,
    i: int,
)
    requires
        pe_plan_outcome(pe, s, load_base, carves, cap).1 is None,
        0 <= i < pe_plan_outcome(pe, s, load_base, carves, cap).0.len(),
    ensures
        run_is_wx_safe(pe_plan_outcome(pe, s, load_base, carves, cap).0[i]),
{
    lemma_pe_plan(pe, s, load_base, carves, cap);
}

/// The runs of an accepted PE image are whole pages in ascending order,
/// disjoint, inside the envelope, and hold every page of the image with its
/// protection.
pub proof fn lemma_pe_plan_places_every_page(
    pe: PeHeaders,
    s: Seq<u8>,
    load_base: u64,
    carves: Seq<Carve>,
    cap: nat,
)
    requires
        pe_plan_outcome(pe, s, load_base, carves, cap).1 is None,
    ensures
        pe_runs_in_order(
            pe_plan_outcome(pe, s, load_base, carves, cap).0,
            load_base as int,
            load_base + page_ceil(pe.opt.size_of_image as int),
        ),
        pe_pages_placed(
            sections_of(s, pe),
            carves,
            load_base,
            pe.opt.size_of_image as int,
            pe_plan_outcome(pe, s, load_base, carves, cap).0,
            pe.opt.size_of_image as int,
        ),
{
    lemma_pe_plan(pe, s, load_base, carves, cap);
}

/// Whether each run ends where the next one starts, and has another protection.
pub open spec fn pe_runs_maximal(runs: Seq<Run>) -> bool {
    forall|i: int, j: int|
        0 <= i && j == i + 1 && j < runs.len() ==> {
            let (a, b) = (#[trigger] runs[i], #[trigger] runs[j]);
            a.va + a.bytes == b.va && a.prot != b.prot
        }
}

proof fn lemma_pe_plan_maximal(
    secs: Seq<SectionView>,
    carves: Seq<Carve>,
    load_base: u64,
    cap: nat,
    image_size: int,
    rva: int,
    runs: Seq<Run>,
    pending: Option<PendingPages>,
)
    requires
        0 <= rva,
        rva < image_size + 4096,
        0 <= image_size <= 0xffff_ffff,
        rva % 4096 == 0,
        pe_plan_pages(secs, carves, load_base, cap, image_size, rva, runs, pending).1 is None,
        pending is Some ==> pe_pending_ok(pending->0, load_base + rva) && pending->0.start_va
            >= load_base,
        pending is None ==> runs.len() == 0,
        pe_runs_maximal(pe_with_pending(runs, pending, load_base)),
    ensures
        pe_runs_maximal(
            pe_plan_pages(secs, carves, load_base, cap, image_size, rva, runs, pending).0,
        ),
    decreases image_size - rva + 4096,
{
    let flushed = pe_emitted(pending, load_base, cap, runs);
    let all = pe_with_pending(runs, pending, load_base);
    if flushed is Ok {
        assert(flushed->Ok_0 == all);
    }
    if rva < image_size {
        let prot = pe_page_prot(secs, carves, rva, image_size)->Ok_0;
        let joined = pending is Some && pending->0.prot == prot;
        let (base_runs, next) = if joined {
            (
                runs,
                PendingPages { pages: (pending->0.pages + 1) as u64, ..pending->0 },
            )
        } else {
            (
                flushed->Ok_0,
                PendingPages { start_va: (load_base + rva) as u64, pages: 1, prot },
            )
        };
        let new_all = pe_with_pending(base_runs, Some(next), load_base);
        assert forall|i: int, j: int| 0 <= i && j == i + 1 && j < new_all.len() implies {
            let (a, b) = (#[trigger] new_all[i], #[trigger] new_all[j]);
            a.va + a.bytes == b.va && a.prot != b.prot
        } by {
            assert(new_all[i] == all[i]);
            if j < all.len() {
                assert(all[i].va + all[i].bytes == all[j].va && all[i].prot != all[j].prot);
            }
        }
        lemma_pe_plan_maximal(
            secs,
            carves,
            load_base,
            cap,
            image_size,
            rva + 4096,
            base_runs,
            Some(next),
        );
    }
}

/// The runs of an accepted PE image are maximal: each ends where the next one
/// starts, and the next one has another protection.
pub proof fn lemma_pe_plan_is_maximal(
    pe: PeHeaders,
    s: Seq<u8>,
    load_base: u64,
    carves: Seq<Carve>,
    cap: nat,
)
    requires
        pe_plan_outcome(pe, s, load_base, carves, cap).1 is None,
    ensures
        pe_runs_maximal(pe_plan_outcome(pe, s, load_base, carves, cap).0),
{
    lemma_pe_plan_maximal(
        sections_of(s, pe),
        carves,
        load_base,
        cap,
        pe.opt.size_of_image as int,
        0,
        Seq::empty(),
        None,
    );
}

/// Post-map writes never hit a page that is not writable: a page that a carve
/// reaches is in a writable run.
pub proof fn lemma_carved_pages_are_writable(
    pe: PeHeaders,
    s: Seq<u8>,
    load_base: u64,
    carves: Seq<Carve>,
    cap: nat,
    c: int,
    rva: int,
)
    requires
        pe_plan_outcome(pe, s, load_base, carves, cap).1 is None,
        0 <= c < carves.len(),
        0 <= rva < pe.opt.size_of_image,
        rva % 4096 == 0,
        carve_covers(carves[c], rva, pe.opt.size_of_image as int),
    ensures
        exists|i: int|
            0 <= i < pe_plan_outcome(pe, s, load_base, carves, cap).0.len() && {
                let run = #[trigger] pe_plan_outcome(pe, s, load_base, carves, cap).0[i];
                &&& run.va <= load_base + rva < run.va + run.bytes
                &&& writable(run.prot.0)
            },
{
    lemma_pe_plan(pe, s, load_base, carves, cap);
    let size = pe.opt.size_of_image as int;
    let secs = sections_of(s, pe);
    let runs = pe_plan_outcome(pe, s, load_base, carves, cap).0;
    assert(pe_page_write(secs, carves, rva, size));
    let prot = pe_page_prot(secs, carves, rva, size)->Ok_0;
    lemma_prot_bits(false, true);
    let i = choose|i: int|
        0 <= i < runs.len() && run_holds(#[trigger] runs[i], load_base + rva, prot);
    assert(run_holds(runs[i], load_base + rva, prot));
}

// ---------------------------------------------------------------------------
// What is at an address
// ---------------------------------------------------------------------------

/// Whether every run takes its bytes from as far into the memory image as it is
/// from the load base.
spec fn all_from_image(runs: Seq<Run>, load_base: u64) -> bool {
    forall|i: int, a: int|
        0 <= i < runs.len() && runs[i].va <= a < runs[i].va + runs[i].bytes
            ==> #[trigger] source_offset(runs[i], a) == Some(a - load_base)
}

proof fn lemma_pe_plan_sources(
    secs: Seq<SectionView>,
    carves: Seq<Carve>,
    load_base: u64,
    cap: nat,
    image_size: int,
    rva: int,
    runs: Seq<Run>,
    pending: Option<PendingPages>,
)
    requires
        all_from_image(runs, load_base),
        0 <= rva,
        image_size <= u32::MAX,
        pending matches Some(p) ==> p.start_va >= load_base && (p.start_va - load_base) % 4096
            == 0 && p.pages * 4096 <= rva,
        rva % 4096 == 0,
    ensures
        all_from_image(
            pe_plan_pages(secs, carves, load_base, cap, image_size, rva, runs, pending).0,
            load_base,
        ),
    decreases image_size - rva + 4096,
{
    if let Some(p) = pending {
        if rva <= image_size + 4096 {
            let run = p.finished(load_base);
            let done = runs.push(run);
            assert forall|i: int, a: int|
                0 <= i < done.len() && done[i].va <= a < done[i].va
                    + done[i].bytes implies #[trigger] source_offset(done[i], a) == Some(
                a - load_base,
            ) by {
                if i < runs.len() {
                    assert(done[i] == runs[i]);
                    assert(source_offset(runs[i], a) == Some(a - load_base));
                }
            }
        }
    }
    let flushed = pe_emitted(pending, load_base, cap, runs);
    if rva < image_size {
        match pe_page_prot(secs, carves, rva, image_size) {
            Err(_) => {},
            Ok(prot) => {
                if load_base + rva > u64::MAX {
                } else if pending is Some && pending->0.prot == prot {
                    lemma_pe_plan_sources(
                        secs,
                        carves,
                        load_base,
                        cap,
                        image_size,
                        rva + 4096,
                        runs,
                        Some(PendingPages { pages: (pending->0.pages + 1) as u64, ..pending->0 }),
                    );
                } else if let Ok(done) = flushed {
                    lemma_pe_plan_sources(
                        secs,
                        carves,
                        load_base,
                        cap,
                        image_size,
                        rva + 4096,
                        done,
                        Some(PendingPages { start_va: (load_base + rva) as u64, pages: 1, prot }),
                    );
                }
            },
        }
    }
}

/// Whether an RVA is in the memory of a section, whose size is the larger of its
/// virtual size and that of its file bytes.
pub open spec fn in_section_memory(sec: SectionView, rva: int) -> bool {
    &&& sec.virtual_address <= rva
    &&& rva < sec.virtual_address + sec.virtual_size || rva < sec.virtual_address
        + sec.size_of_raw_data
}

/// Every byte of an accepted image is in a run, and what is there is the byte of
/// the memory image at its RVA. It is readable; it is writable where a writable
/// section or a carve has it, and executable where an executable section has it.
pub proof fn lemma_planned_image_bytes(
    pe: PeHeaders,
    s: Seq<u8>,
    load_base: u64,
    carves: Seq<Carve>,
    cap: nat,
    rva: int,
) -> (i: int)
    requires
        pe_plan_outcome(pe, s, load_base, carves, cap).1 is None,
        0 <= rva < pe.opt.size_of_image,
    ensures
        ({
            let runs = pe_plan_outcome(pe, s, load_base, carves, cap).0;
            let secs = sections_of(s, pe);
            &&& 0 <= i < runs.len()
            &&& runs[i].va <= load_base + rva < runs[i].va + runs[i].bytes
            &&& source_offset(runs[i], load_base + rva) == Some(rva)
            &&& runs[i].prot.0 & 1 != 0
            &&& forall|k: int|
                0 <= k < secs.len() && in_section_memory(#[trigger] secs[k], rva) ==> (
                secs[k].characteristics & 0x8000_0000 != 0 ==> runs[i].prot.0 & 2 != 0) && (
                secs[k].characteristics & 0x2000_0000 != 0 ==> runs[i].prot.0 & 4 != 0)
            &&& forall|k: int|
                0 <= k < carves.len() && (#[trigger] carves[k]).rva <= rva < carves[k].rva
                    + carves[k].bytes ==> runs[i].prot.0 & 2 != 0
        }),
{
    lemma_pe_plan(pe, s, load_base, carves, cap);
    let size = pe.opt.size_of_image as int;
    let secs = sections_of(s, pe);
    let runs = pe_plan_outcome(pe, s, load_base, carves, cap).0;
    let page = rva / 4096 * 4096;
    lemma_pe_plan_sources(secs, carves, load_base, cap, size, 0, Seq::empty(), None);
    assert(pe_page_prot(secs, carves, page, size) is Ok);
    let prot = pe_page_prot(secs, carves, page, size)->Ok_0;
    let i = choose|i: int|
        0 <= i < runs.len() && run_holds(#[trigger] runs[i], load_base + page, prot);
    assert(run_holds(runs[i], load_base + page, prot));
    assert(source_offset(runs[i], load_base + rva) == Some(rva));
    lemma_prot_bits(pe_page_exec(secs, page, size), pe_page_write(secs, carves, page, size));
    assert(1u8 & 1 != 0 && 3u8 & 1 != 0 && 5u8 & 1 != 0) by (bit_vector);
    assert forall|k: int|
        0 <= k < secs.len() && in_section_memory(#[trigger] secs[k], rva) implies (
    secs[k].characteristics & 0x8000_0000 != 0 ==> runs[i].prot.0 & 2 != 0) && (
    secs[k].characteristics & 0x2000_0000 != 0 ==> runs[i].prot.0 & 4 != 0) by {
        assert(section_covers(secs[k], page, size));
    }
    assert forall|k: int|
        0 <= k < carves.len() && (#[trigger] carves[k]).rva <= rva < carves[k].rva
            + carves[k].bytes implies runs[i].prot.0 & 2 != 0 by {
        assert(carve_covers(carves[k], page, size));
    }
    i
}

/// A page of an accepted image is writable only where it has a byte of a writable
/// section or of a carve, and executable only where it has one of an executable
/// section.
pub proof fn lemma_planned_image_rights(
    pe: PeHeaders,
    s: Seq<u8>,
    load_base: u64,
    carves: Seq<Carve>,
    cap: nat,
    i: int,
    page: int,
)
    requires
        pe_plan_outcome(pe, s, load_base, carves, cap).1 is None,
        0 <= page < pe.opt.size_of_image,
        page % 4096 == 0,
        0 <= i < pe_plan_outcome(pe, s, load_base, carves, cap).0.len(),
        ({
            let run = pe_plan_outcome(pe, s, load_base, carves, cap).0[i];
            run.va <= load_base + page < run.va + run.bytes
        }),
    ensures
        ({
            let prot = pe_plan_outcome(pe, s, load_base, carves, cap).0[i].prot.0;
            let secs = sections_of(s, pe);
            &&& prot & 4 != 0 ==> exists|k: int, a: int|
                0 <= k < secs.len() && page <= a < page + 4096 && #[trigger] in_section_memory(
                    secs[k],
                    a,
                ) && secs[k].characteristics & 0x2000_0000 != 0
            &&& prot & 2 != 0 ==> {
                ||| exists|k: int, a: int|
                    0 <= k < secs.len() && page <= a < page + 4096 && #[trigger] in_section_memory(
                        secs[k],
                        a,
                    ) && secs[k].characteristics & 0x8000_0000 != 0
                ||| exists|k: int|
                    0 <= k < carves.len() && (#[trigger] carves[k]).rva < page + 4096 && page
                        < carves[k].rva + carves[k].bytes
            }
        }),
{
    lemma_pe_plan(pe, s, load_base, carves, cap);
    let size = pe.opt.size_of_image as int;
    let secs = sections_of(s, pe);
    let runs = pe_plan_outcome(pe, s, load_base, carves, cap).0;
    assert(pe_page_prot(secs, carves, page, size) is Ok);
    let prot = pe_page_prot(secs, carves, page, size)->Ok_0;
    let j = choose|j: int|
        0 <= j < runs.len() && run_holds(#[trigger] runs[j], load_base + page, prot);
    assert(run_holds(runs[j], load_base + page, prot));
    assert(i == j) by {
        let (a, b) = (runs[i], runs[j]);
    }
    lemma_prot_bits(pe_page_exec(secs, page, size), pe_page_write(secs, carves, page, size));
    if pe_page_exec(secs, page, size) {
        let k = choose|k: int|
            0 <= k < secs.len() && section_covers(#[trigger] secs[k], page, size)
                && secs[k].characteristics & 0x2000_0000 != 0;
        lemma_covered_section_byte(secs[k], page, size);
    }
    if exists|k: int|
        0 <= k < secs.len() && section_covers(#[trigger] secs[k], page, size)
            && secs[k].characteristics & 0x8000_0000 != 0 {
        let k = choose|k: int|
            0 <= k < secs.len() && section_covers(#[trigger] secs[k], page, size)
                && secs[k].characteristics & 0x8000_0000 != 0;
        lemma_covered_section_byte(secs[k], page, size);
    } else if pe_page_write(secs, carves, page, size) {
        let k = choose|k: int|
            0 <= k < carves.len() && carve_covers(#[trigger] carves[k], page, size);
        assert(carves[k].rva < page + 4096);
    }
}

proof fn lemma_covered_section_byte(sec: SectionView, page: int, size: int)
    requires
        section_covers(sec, page, size),
    ensures
        exists|a: int| page <= a < page + 4096 && #[trigger] in_section_memory(sec, a),
{
    let a = if sec.virtual_address < page {
        page
    } else {
        sec.virtual_address as int
    };
    assert(in_section_memory(sec, a));
}

// ---------------------------------------------------------------------------
// Carves
// ---------------------------------------------------------------------------

/// The carves after the region `rva..rva + bytes` is added, widened to pages.
pub open spec fn with_carve(
    carves: Seq<Carve>,
    cap: nat,
    image_size: int,
    rva: int,
    bytes: int,
) -> Result<Seq<Carve>, PePlanError> {
    if bytes == 0 {
        Ok(carves)
    } else if rva + bytes > u64::MAX {
        Err(PePlanError::Overflow)
    } else if rva + bytes > image_size {
        Err(PePlanError::InvalidImage)
    } else if carves.len() >= cap {
        Err(PePlanError::TooManyCarves)
    } else {
        Ok(
            carves.push(
                Carve {
                    rva: page_floor(rva) as u64,
                    bytes: (page_ceil(rva + bytes) - page_floor(rva)) as u64,
                },
            ),
        )
    }
}

/// Number of nonzero entries of the thunk table at `rva`, counted from `k` on.
/// A table that leaves the image, or has more than 4096 entries, has none.
pub open spec fn thunk_count(image: Seq<u8>, rva: int, k: int) -> Option<int>
    decreases 4097 - k,
{
    if k > 4096 || rva + 8 * k + 8 > image.len() {
        None
    } else if le_u64(image, rva + 8 * k) == 0 {
        Some(k)
    } else {
        thunk_count(image, rva, k + 1)
    }
}

/// Whether the range `inner` lies in the range `outer`.
pub open spec fn is_range_within(
    inner_rva: int,
    inner_bytes: int,
    outer_rva: int,
    outer_bytes: int,
) -> bool {
    inner_rva >= outer_rva && inner_rva + inner_bytes <= outer_rva + outer_bytes
}

/// Adds a carve for the `FirstThunk` table of each import descriptor from `desc`
/// up to `end`. The outcome is the carves, and the error that stopped it.
pub open spec fn import_carves(
    image: Seq<u8>,
    image_size: int,
    iat: Option<DataDirectory>,
    cap: nat,
    end: int,
    desc: int,
    carves: Seq<Carve>,
) -> (Seq<Carve>, Option<PePlanError>)
    decreases end - desc,
{
    let first_thunk = le_u32(image, desc + 16) as int;
    if desc + 20 > end {
        (carves, None)
    } else if desc + 20 > image.len() {
        (carves, Some(PePlanError::InvalidImage))
    } else if le_u32(image, desc + 12) == 0 && first_thunk == 0 {
        (carves, None)
    } else if first_thunk == 0 {
        (carves, Some(PePlanError::InvalidImage))
    } else {
        match thunk_count(image, first_thunk, 0) {
            None => (carves, Some(PePlanError::InvalidImage)),
            Some(n) => if iat is Some && !is_range_within(
                first_thunk,
                (n + 1) * 8,
                iat->0.virtual_address as int,
                iat->0.size as int,
            ) {
                (carves, Some(PePlanError::InvalidImage))
            } else {
                match with_carve(carves, cap, image_size, first_thunk, (n + 1) * 8) {
                    Err(e) => (carves, Some(e)),
                    Ok(next) => import_carves(image, image_size, iat, cap, end, desc + 20, next),
                }
            },
        }
    }
}

/// Adds a carve for the TLS index slot of the directory at `dir`, if its
/// address is not below the image base.
pub open spec fn tls_carves(
    image: Seq<u8>,
    image_base: u64,
    image_size: int,
    cap: nat,
    dir: int,
    carves: Seq<Carve>,
) -> (Seq<Carve>, Option<PePlanError>) {
    let index = le_u64(image, dir + 16);
    if dir + 40 > image.len() {
        (carves, Some(PePlanError::InvalidImage))
    } else if index < image_base {
        (carves, None)
    } else {
        match with_carve(carves, cap, image_size, index - image_base, 8) {
            Err(e) => (carves, Some(e)),
            Ok(next) => (next, None),
        }
    }
}

/// The RVA that a field of a delay-import descriptor stands for: the attribute
/// tells whether fields are RVAs or addresses.
pub open spec fn delay_rva(attributes: u32, image_base: u64, v: u32) -> Option<int> {
    if attributes & 1 != 0 {
        Some(v as int)
    } else if v as int >= image_base {
        Some(v - image_base)
    } else {
        None
    }
}

/// The carves of one delay-import descriptor: its address table, sized by its
/// name table, and its module handle.
pub open spec fn delay_descriptor_carves(
    image: Seq<u8>,
    image_base: u64,
    image_size: int,
    cap: nat,
    desc: int,
    carves: Seq<Carve>,
) -> (Seq<Carve>, Option<PePlanError>) {
    let attributes = le_u32(image, desc);
    let handle = le_u32(image, desc + 8);
    let iat = delay_rva(attributes, image_base, le_u32(image, desc + 12));
    let names = delay_rva(attributes, image_base, le_u32(image, desc + 16));
    if iat is None || names is None {
        (carves, Some(PePlanError::InvalidImage))
    } else {
        match thunk_count(image, names->0, 0) {
            None => (carves, Some(PePlanError::InvalidImage)),
            Some(n) => match with_carve(carves, cap, image_size, iat->0, (n + 1) * 8) {
                Err(e) => (carves, Some(e)),
                Ok(next) => if handle == 0 {
                    (next, None)
                } else {
                    match delay_rva(attributes, image_base, handle) {
                        None => (next, Some(PePlanError::InvalidImage)),
                        Some(rva) => match with_carve(next, cap, image_size, rva, 8) {
                            Err(e) => (next, Some(e)),
                            Ok(last) => (last, None),
                        },
                    }
                },
            },
        }
    }
}

/// Adds the carves of each delay-import descriptor from `desc` up to `end`.
pub open spec fn delay_carves(
    image: Seq<u8>,
    image_base: u64,
    image_size: int,
    cap: nat,
    end: int,
    desc: int,
    carves: Seq<Carve>,
) -> (Seq<Carve>, Option<PePlanError>)
    decreases end - desc,
{
    if desc + 32 > end {
        (carves, None)
    } else if desc + 32 > image.len() {
        (carves, Some(PePlanError::InvalidImage))
    } else if le_u32(image, desc) == 0 && le_u32(image, desc + 12) == 0 && le_u32(image, desc + 4)
        == 0 {
        (carves, None)
    } else {
        match delay_descriptor_carves(image, image_base, image_size, cap, desc, carves) {
            (next, None) => delay_carves(
                image,
                image_base,
                image_size,
                cap,
                end,
                desc + 32,
                next,
            ),
            (next, Some(e)) => (next, Some(e)),
        }
    }
}

/// What the import directory contributes.
pub open spec fn import_stage(pe: PeHeaders, s: Seq<u8>, image: Seq<u8>, cap: nat) -> (
    Seq<Carve>,
    Option<PePlanError>,
) {
    match directory_of(s, pe, 1) {
        None => (Seq::empty(), None),
        Some(dd) => import_carves(
            image,
            pe.opt.size_of_image as int,
            directory_of(s, pe, 12),
            cap,
            dd.virtual_address + dd.size,
            dd.virtual_address as int,
            Seq::empty(),
        ),
    }
}

/// What the TLS directory adds to `carves`.
pub open spec fn tls_stage(
    pe: PeHeaders,
    s: Seq<u8>,
    image: Seq<u8>,
    cap: nat,
    carves: Seq<Carve>,
) -> (Seq<Carve>, Option<PePlanError>) {
    match directory_of(s, pe, 9) {
        None => (carves, None),
        Some(dd) => tls_carves(
            image,
            pe.opt.image_base,
            pe.opt.size_of_image as int,
            cap,
            dd.virtual_address as int,
            carves,
        ),
    }
}

/// What the delay-import directory adds to `carves`.
pub open spec fn delay_stage(
    pe: PeHeaders,
    s: Seq<u8>,
    image: Seq<u8>,
    cap: nat,
    carves: Seq<Carve>,
) -> (Seq<Carve>, Option<PePlanError>) {
    match directory_of(s, pe, 13) {
        None => (carves, None),
        Some(dd) => delay_carves(
            image,
            pe.opt.image_base,
            pe.opt.size_of_image as int,
            cap,
            dd.virtual_address + dd.size,
            dd.virtual_address as int,
            carves,
        ),
    }
}

/// The outcome of enumerating the carves: imports, then TLS, then delay imports.
pub open spec fn carves_outcome(pe: PeHeaders, s: Seq<u8>, image: Seq<u8>, cap: nat) -> (
    Seq<Carve>,
    Option<PePlanError>,
) {
    let (c1, e1) = import_stage(pe, s, image, cap);
    if e1 is Some {
        (c1, e1)
    } else {
        let (c2, e2) = tls_stage(pe, s, image, cap, c1);
        if e2 is Some {
            (c2, e2)
        } else {
            delay_stage(pe, s, image, cap, c2)
        }
    }
}

fn push_carve(
    out: &mut [Carve],
    n: usize,
    image_size: u64,
    rva: u64,
    bytes: u64,
    Ghost(before): Ghost<Seq<Carve>>,
    Ghost(carves): Ghost<Seq<Carve>>,
) -> (r: Result<usize, PePlanError>)
    requires
        image_size <= 0xffff_ffff,
        holds(old(out)@, before, carves),
        n == carves.len(),
    ensures
        match with_carve(carves, before.len(), image_size as int, rva as int, bytes as int) {
            Ok(done) => r is Ok && r->Ok_0 == done.len() && holds(final(out)@, before, done),
            Err(e) => r == Err::<usize, PePlanError>(e) && final(out)@ == old(out)@,
        },
{
    if bytes == 0 {
        return Ok(n);
    }
    if bytes > u64::MAX - rva {
        return Err(PePlanError::Overflow);
    }
    let raw_end: u64 = rva + bytes;
    if raw_end > image_size {
        return Err(PePlanError::InvalidImage);
    }
    if n >= out.len() {
        return Err(PePlanError::TooManyCarves);
    }
    let start: u64 = rva / 4096 * 4096;
    let end: u64 = (raw_end + 4095) / 4096 * 4096;
    let carve = Carve { rva: start, bytes: end - start };
    out[n] = carve;
    assert(out@ =~= carves.push(carve) + before.skip(carves.len() as int + 1));
    Ok(n + 1)
}

/// Counts the entries of the thunk table at `rva`.
fn count_thunks(image: &[u8], rva: u64) -> (r: Option<u64>)
    requires
        rva <= 0xffff_ffff,
    ensures
        match r {
            Some(n) => thunk_count(image@, rva as int, 0) == Some(n as int) && n <= 4096,
            None => thunk_count(image@, rva as int, 0) is None,
        },
{
    let len: u64 = image.len() as u64;
    let mut k: u64 = 0;
    while k <= 4096
        invariant
            len == image@.len(),
            len == image.len(),
            rva <= 0xffff_ffff,
            k <= 4097,
            thunk_count(image@, rva as int, 0) == thunk_count(image@, rva as int, k as int),
        decreases 4097 - k,
    {
        if rva + k * 8 + 8 > len {
            return None;
        }
        let value: u64 = read_u64(image, (rva + k * 8) as usize);
        if value == 0 {
            return Some(k);
        }
        k = k + 1;
    }
    None
}

fn range_within(inner_rva: u64, inner_bytes: u64, outer_rva: u64, outer_bytes: u64) -> (r: bool)
    requires
        inner_rva + inner_bytes <= u64::MAX,
        outer_rva + outer_bytes <= u64::MAX,
    ensures
        r == is_range_within(
            inner_rva as int,
            inner_bytes as int,
            outer_rva as int,
            outer_bytes as int,
        ),
{
    inner_rva >= outer_rva && inner_rva + inner_bytes <= outer_rva + outer_bytes
}

fn carve_imports(
    image: &[u8],
    image_size: u64,
    iat: &Option<DataDirectory>,
    dd: &DataDirectory,
    out: &mut [Carve],
    Ghost(before): Ghost<Seq<Carve>>,
) -> (r: Result<usize, PePlanError>)
    requires
        image_size <= 0xffff_ffff,
        holds(old(out)@, before, Seq::empty()),
    ensures
        ({
            let (done, error) = import_carves(
                image@,
                image_size as int,
                *iat,
                before.len(),
                dd.virtual_address + dd.size,
                dd.virtual_address as int,
                Seq::empty(),
            );
            &&& holds(final(out)@, before, done)
            &&& match error {
                Some(e) => r == Err::<usize, PePlanError>(e),
                None => r is Ok && r->Ok_0 == done.len(),
            }
        }),
{
    let ghost cap = before.len();
    let ghost mut carves: Seq<Carve> = Seq::empty();
    let mut n: usize = 0;
    let len: u64 = image.len() as u64;
    let mut desc: u64 = dd.virtual_address as u64;
    let end: u64 = desc + dd.size as u64;
    while desc + 20 <= end
        invariant
            image_size <= 0xffff_ffff,
            end <= 0x2_0000_0000,
            desc <= 0x2_0000_0000,
            len == image.len(),
            cap == before.len(),
            end == dd.virtual_address + dd.size,
            holds(out@, before, carves),
            n == carves.len(),
            import_carves(
                image@,
                image_size as int,
                *iat,
                cap,
                end as int,
                dd.virtual_address as int,
                Seq::empty(),
            ) == import_carves(image@, image_size as int, *iat, cap, end as int, desc as int, carves),
        decreases end + 20 - desc,
    {
        if desc + 20 > len {
            return Err(PePlanError::InvalidImage);
        }
        let name: u32 = read_u32(image, (desc + 12) as usize);
        let first_thunk: u32 = read_u32(image, (desc + 16) as usize);
        if name == 0 && first_thunk == 0 {
            return Ok(n);
        }
        if first_thunk == 0 {
            return Err(PePlanError::InvalidImage);
        }
        let iat_rva: u64 = first_thunk as u64;
        let thunks: u64 = match count_thunks(image, iat_rva) {
            Some(k) => k,
            None => {
                return Err(PePlanError::InvalidImage);
            },
        };
        let bytes: u64 = (thunks + 1) * 8;
        match iat {
            Some(dir) => {
                if !range_within(iat_rva, bytes, dir.virtual_address as u64, dir.size as u64) {
                    return Err(PePlanError::InvalidImage);
                }
            },
            None => {},
        }
        match push_carve(out, n, image_size, iat_rva, bytes, Ghost(before), Ghost(carves)) {
            Err(e) => {
                return Err(e);
            },
            Ok(k) => {
                n = k;
                proof {
                    carves = with_carve(
                        carves,
                        cap,
                        image_size as int,
                        iat_rva as int,
                        bytes as int,
                    )->Ok_0;
                }
            },
        }
        desc = desc + 20;
    }
    Ok(n)
}

fn carve_tls(
    image: &[u8],
    image_base: u64,
    image_size: u64,
    dir: u32,
    out: &mut [Carve],
    n: usize,
    Ghost(before): Ghost<Seq<Carve>>,
    Ghost(carves): Ghost<Seq<Carve>>,
) -> (r: Result<usize, PePlanError>)
    requires
        image_size <= 0xffff_ffff,
        holds(old(out)@, before, carves),
        n == carves.len(),
    ensures
        ({
            let (done, error) = tls_carves(
                image@,
                image_base,
                image_size as int,
                before.len(),
                dir as int,
                carves,
            );
            &&& holds(final(out)@, before, done)
            &&& match error {
                Some(e) => r == Err::<usize, PePlanError>(e),
                None => r is Ok && r->Ok_0 == done.len(),
            }
        }),
{
    if dir as u64 + 40 > image.len() as u64 {
        return Err(PePlanError::InvalidImage);
    }
    let index: u64 = read_u64(image, dir as usize + 16);
    if index >= image_base {
        push_carve(out, n, image_size, index - image_base, 8, Ghost(before), Ghost(carves))
    } else {
        Ok(n)
    }
}

fn delay_field_rva(attributes: u32, image_base: u64, v: u32) -> (r: Option<u64>)
    ensures
        match r {
            Some(x) => delay_rva(attributes, image_base, v) == Some(x as int) && x <= 0xffff_ffff,
            None => delay_rva(attributes, image_base, v) is None,
        },
{
    if attributes & 1 != 0 {
        Some(v as u64)
    } else if v as u64 >= image_base {
        Some(v as u64 - image_base)
    } else {
        None
    }
}

fn carve_delay_descriptor(
    image: &[u8],
    image_base: u64,
    image_size: u64,
    desc: u64,
    out: &mut [Carve],
    n: usize,
    Ghost(before): Ghost<Seq<Carve>>,
    Ghost(carves): Ghost<Seq<Carve>>,
) -> (r: Result<usize, PePlanError>)
    requires
        image_size <= 0xffff_ffff,
        desc + 32 <= image.len(),
        holds(old(out)@, before, carves),
        n == carves.len(),
    ensures
        ({
            let (done, error) = delay_descriptor_carves(
                image@,
                image_base,
                image_size as int,
                before.len(),
                desc as int,
                carves,
            );
            &&& holds(final(out)@, before, done)
            &&& match error {
                Some(e) => r == Err::<usize, PePlanError>(e),
                None => r is Ok && r->Ok_0 == done.len(),
            }
        }),
{
    let at: usize = desc as usize;
    let attributes: u32 = read_u32(image, at);
    let module_handle: u32 = read_u32(image, at + 8);
    let diat: u64 = match delay_field_rva(attributes, image_base, read_u32(image, at + 12)) {
        Some(rva) => rva,
        None => {
            return Err(PePlanError::InvalidImage);
        },
    };
    let dint: u64 = match delay_field_rva(attributes, image_base, read_u32(image, at + 16)) {
        Some(rva) => rva,
        None => {
            return Err(PePlanError::InvalidImage);
        },
    };
    let thunks: u64 = match count_thunks(image, dint) {
        Some(k) => k,
        None => {
            return Err(PePlanError::InvalidImage);
        },
    };
    let bytes: u64 = (thunks + 1) * 8;
    let n1: usize = match push_carve(
        out,
        n,
        image_size,
        diat,
        bytes,
        Ghost(before),
        Ghost(carves),
    ) {
        Ok(k) => k,
        Err(e) => {
            return Err(e);
        },
    };
    if module_handle == 0 {
        return Ok(n1);
    }
    let ghost next = with_carve(
        carves,
        before.len(),
        image_size as int,
        diat as int,
        bytes as int,
    )->Ok_0;
    let handle: u64 = match delay_field_rva(attributes, image_base, module_handle) {
        Some(rva) => rva,
        None => {
            return Err(PePlanError::InvalidImage);
        },
    };
    push_carve(out, n1, image_size, handle, 8, Ghost(before), Ghost(next))
}

fn carve_delay_imports(
    image: &[u8],
    image_base: u64,
    image_size: u64,
    dd: &DataDirectory,
    out: &mut [Carve],
    n0: usize,
    Ghost(before): Ghost<Seq<Carve>>,
    Ghost(start): Ghost<Seq<Carve>>,
) -> (r: Result<usize, PePlanError>)
    requires
        image_size <= 0xffff_ffff,
        holds(old(out)@, before, start),
        n0 == start.len(),
    ensures
        ({
            let (done, error) = delay_carves(
                image@,
                image_base,
                image_size as int,
                before.len(),
                dd.virtual_address + dd.size,
                dd.virtual_address as int,
                start,
            );
            &&& holds(final(out)@, before, done)
            &&& match error {
                Some(e) => r == Err::<usize, PePlanError>(e),
                None => r is Ok && r->Ok_0 == done.len(),
            }
        }),
{
    let ghost cap = before.len();
    let ghost mut carves: Seq<Carve> = start;
    let mut n: usize = n0;
    let len: u64 = image.len() as u64;
    let mut desc: u64 = dd.virtual_address as u64;
    let end: u64 = desc + dd.size as u64;
    while desc + 32 <= end
        invariant
            image_size <= 0xffff_ffff,
            end <= 0x2_0000_0000,
            desc <= 0x2_0000_0000,
            len == image.len(),
            cap == before.len(),
            end == dd.virtual_address + dd.size,
            holds(out@, before, carves),
            n == carves.len(),
            delay_carves(
                image@,
                image_base,
                image_size as int,
                cap,
                end as int,
                dd.virtual_address as int,
                start,
            ) == delay_carves(
                image@,
                image_base,
                image_size as int,
                cap,
                end as int,
                desc as int,
                carves,
            ),
        decreases end + 32 - desc,
    {
        if desc + 32 > len {
            return Err(PePlanError::InvalidImage);
        }
        let attributes: u32 = read_u32(image, desc as usize);
        let name: u32 = read_u32(image, desc as usize + 4);
        let iat: u32 = read_u32(image, desc as usize + 12);
        if attributes == 0 && iat == 0 && name == 0 {
            return Ok(n);
        }
        match carve_delay_descriptor(
            image,
            image_base,
            image_size,
            desc,
            out,
            n,
            Ghost(before),
            Ghost(carves),
        ) {
            Err(e) => {
                return Err(e);
            },
            Ok(k) => {
                n = k;
                proof {
                    carves = delay_descriptor_carves(
                        image@,
                        image_base,
                        image_size as int,
                        cap,
                        desc as int,
                        carves,
                    ).0;
                }
            },
        }
        desc = desc + 32;
    }
    Ok(n)
}

/// Enumerates the post-map writable regions of a PE image into `out`, returning
/// the carve count.
///
/// `headers` holds the headers that `pe` was read from; `image` holds the bytes
/// of the memory image that could be read, from RVA 0 on. An image whose tables
/// lie beyond them is rejected.
///
/// Covered: each import descriptor's `FirstThunk` extent, the TLS index slot,
/// and each delay-import IAT and module-handle slot. The IAT data directory is
/// used only to cross-check import-descriptor `FirstThunk` ranges when present.
pub fn build_carves(pe: &PeHeaders, headers: &[u8], image: &[u8], out: &mut [Carve]) -> (r: Result<
    usize,
    PePlanError,
>)
    requires
        tables_in(*pe, headers@.len() as int),
    ensures
        ({
            let (carves, error) = carves_outcome(*pe, headers@, image@, old(out)@.len());
            &&& match error {
                Some(e) => r == Err::<usize, PePlanError>(e),
                None => r is Ok && r->Ok_0 == carves.len(),
            }
            &&& carves.len() <= old(out)@.len()
            &&& final(out)@ == carves + old(out)@.skip(carves.len() as int)
        }),
{
    let ghost before = out@;
    let ghost cap = out@.len();
    let image_base: u64 = pe.opt.image_base;
    let image_size: u64 = pe.opt.size_of_image as u64;
    proof {
        assert(Seq::<Carve>::empty() + before.skip(0) =~= before);
    }
    let iat: Option<DataDirectory> = pe.data_directory(headers, IMAGE_DIRECTORY_ENTRY_IAT);
    let n1: usize = match pe.data_directory(headers, IMAGE_DIRECTORY_ENTRY_IMPORT) {
        None => 0,
        Some(dd) => match carve_imports(image, image_size, &iat, &dd, out, Ghost(before)) {
            Ok(n) => n,
            Err(e) => {
                return Err(e);
            },
        },
    };
    let ghost c1 = import_stage(*pe, headers@, image@, cap).0;
    let n2: usize = match pe.data_directory(headers, IMAGE_DIRECTORY_ENTRY_TLS) {
        None => n1,
        Some(dd) => match carve_tls(
            image,
            image_base,
            image_size,
            dd.virtual_address,
            out,
            n1,
            Ghost(before),
            Ghost(c1),
        ) {
            Ok(n) => n,
            Err(e) => {
                return Err(e);
            },
        },
    };
    let ghost c2 = tls_stage(*pe, headers@, image@, cap, c1).0;
    match pe.data_directory(headers, IMAGE_DIRECTORY_ENTRY_DELAY_IMPORT) {
        None => Ok(n2),
        Some(dd) => carve_delay_imports(
            image,
            image_base,
            image_size,
            &dd,
            out,
            n2,
            Ghost(before),
            Ghost(c2),
        ),
    }
}

// ---------------------------------------------------------------------------
// What is carved out
// ---------------------------------------------------------------------------

/// Whether a carve has the word at an RVA.
pub open spec fn is_carved(carves: Seq<Carve>, rva: int) -> bool {
    exists|i: int|
        0 <= i < carves.len() && (#[trigger] carves[i]).rva <= rva && rva + 8 <= carves[i].rva
            + carves[i].bytes
}

/// Whether a list of carves starts with another one.
spec fn extends(more: Seq<Carve>, carves: Seq<Carve>) -> bool {
    carves.len() <= more.len() && forall|i: int|
        0 <= i < carves.len() ==> more[i] == #[trigger] carves[i]
}

proof fn lemma_stays_carved(more: Seq<Carve>, carves: Seq<Carve>, rva: int)
    requires
        extends(more, carves),
        is_carved(carves, rva),
    ensures
        is_carved(more, rva),
{
    let i = choose|i: int|
        0 <= i < carves.len() && (#[trigger] carves[i]).rva <= rva && rva + 8 <= carves[i].rva
            + carves[i].bytes;
    assert(more[i] == carves[i]);
}

proof fn lemma_with_carve(
    carves: Seq<Carve>,
    cap: nat,
    image_size: int,
    rva: int,
    bytes: int,
    word: int,
)
    requires
        with_carve(carves, cap, image_size, rva, bytes) is Ok,
        0 <= rva,
        0 <= bytes,
        image_size <= u32::MAX,
    ensures
        extends(with_carve(carves, cap, image_size, rva, bytes)->Ok_0, carves),
        rva <= word && word + 8 <= rva + bytes ==> is_carved(
            with_carve(carves, cap, image_size, rva, bytes)->Ok_0,
            word,
        ),
{
    let more = with_carve(carves, cap, image_size, rva, bytes)->Ok_0;
    if bytes > 0 && rva <= word && word + 8 <= rva + bytes {
        let c = more[carves.len() as int];
        assert(c.rva <= word && word + 8 <= c.rva + c.bytes);
    }
}

/// Whether entry `k` of a table of thunks is in the image, and does not end it.
pub open spec fn has_image_thunk(image: Seq<u8>, rva: int, k: int) -> bool {
    rva + 8 * k + 8 <= image.len() && field(image, rva + 8 * k, 8) != 0
}

proof fn lemma_thunks_are_counted(image: Seq<u8>, rva: int, k: int, t: int)
    requires
        0 <= k,
        forall|j: int| 0 <= j <= t ==> #[trigger] has_image_thunk(image, rva, j),
        thunk_count(image, rva, k) is Some,
    ensures
        thunk_count(image, rva, k)->0 >= k,
        k <= t + 1 ==> thunk_count(image, rva, k)->0 > t,
    decreases 4097 - k,
{
    lemma_field_64(image, rva + 8 * k);
    if k <= t {
        assert(has_image_thunk(image, rva, k));
    }
    if le_u64(image, rva + 8 * k) != 0 {
        lemma_thunks_are_counted(image, rva, k + 1, t);
    }
}

proof fn lemma_import_slots_are_carved(
    image: Seq<u8>,
    image_size: int,
    iat: Option<DataDirectory>,
    cap: nat,
    end: int,
    desc: int,
    carves: Seq<Carve>,
    di: int,
    t: int,
)
    requires
        import_carves(image, image_size, iat, cap, end, desc, carves).1 is None,
        image_size <= u32::MAX,
        0 <= di ==> {
            let first_thunk = field(image, desc + 20 * di + 16, 4);
            &&& desc + 20 * di + 20 <= end
            &&& forall|j: int| 0 <= j <= di ==> field(image, #[trigger] (desc + 20 * j) + 16, 4) != 0
            &&& 0 <= t
            &&& forall|j: int| 0 <= j <= t ==> #[trigger] has_image_thunk(image, first_thunk, j)
        },
    ensures
        ({
            let all = import_carves(image, image_size, iat, cap, end, desc, carves).0;
            &&& extends(all, carves)
            &&& 0 <= di ==> is_carved(all, field(image, desc + 20 * di + 16, 4) + 8 * t)
        }),
    decreases end - desc,
{
    let all = import_carves(image, image_size, iat, cap, end, desc, carves).0;
    let first_thunk = le_u32(image, desc + 16) as int;
    lemma_field_32(image, desc + 16);
    if 0 <= di {
        assert(field(image, (desc + 20 * 0) + 16, 4) != 0);
    }
    if desc + 20 <= end && !(le_u32(image, desc + 12) == 0 && first_thunk == 0) {
        let n = thunk_count(image, first_thunk, 0)->0;
        if di == 0 {
            assert(desc + 20 * di + 16 == desc + 16);
            lemma_thunks_are_counted(image, first_thunk, 0, t);
        } else {
            lemma_thunks_are_counted(image, first_thunk, 0, -1);
        }
        let next = with_carve(carves, cap, image_size, first_thunk, (n + 1) * 8)->Ok_0;
        lemma_with_carve(
            carves,
            cap,
            image_size,
            first_thunk,
            (n + 1) * 8,
            first_thunk + 8 * t,
        );
        if di > 0 {
            assert forall|j: int| 0 <= j <= di - 1 implies field(
                image,
                #[trigger] (desc + 20 + 20 * j) + 16,
                4,
            ) != 0 by {
                assert(desc + 20 + 20 * j == desc + 20 * (j + 1));
            }
            assert(desc + 20 + 20 * (di - 1) + 16 == desc + 20 * di + 16);
        }
        lemma_import_slots_are_carved(
            image,
            image_size,
            iat,
            cap,
            end,
            desc + 20,
            next,
            if di > 0 {
                di - 1
            } else {
                -1
            },
            t,
        );
        if di == 0 {
            lemma_stays_carved(all, next, first_thunk + 8 * t);
        }
    }
}

proof fn lemma_extends(a: Seq<Carve>, b: Seq<Carve>, c: Seq<Carve>)
    requires
        extends(b, a),
        extends(c, b),
    ensures
        extends(c, a),
{
    assert forall|i: int| 0 <= i < a.len() implies c[i] == #[trigger] a[i] by {
        assert(b[i] == a[i]);
    }
}

/// Whether the descriptor at `desc` is one of a delay-import table whose fields are
/// relative to the image, with an entry `t` in its name table.
pub open spec fn has_delay_slot(image: Seq<u8>, desc: int, t: int) -> bool {
    let names = field(image, desc + 16, 4);
    &&& 0 <= t
    &&& field(image, desc, 4) as u32 & 1 != 0
    &&& forall|j: int| 0 <= j <= t ==> #[trigger] has_image_thunk(image, names, j)
}

proof fn lemma_delay_words_are_carved(
    image: Seq<u8>,
    image_base: u64,
    image_size: int,
    cap: nat,
    desc: int,
    carves: Seq<Carve>,
    t: int,
)
    requires
        delay_descriptor_carves(image, image_base, image_size, cap, desc, carves).1 is None,
        image_size <= u32::MAX,
    ensures
        ({
            let all = delay_descriptor_carves(
                image,
                image_base,
                image_size,
                cap,
                desc,
                carves,
            ).0;
            let handle = field(image, desc + 8, 4);
            &&& extends(all, carves)
            &&& has_delay_slot(image, desc, t) ==> is_carved(
                all,
                field(image, desc + 12, 4) + 8 * t,
            )
            &&& has_delay_slot(image, desc, t) && handle != 0 ==> is_carved(all, handle)
        }),
{
    let all = delay_descriptor_carves(image, image_base, image_size, cap, desc, carves).0;
    lemma_field_32(image, desc);
    lemma_field_32(image, desc + 8);
    lemma_field_32(image, desc + 12);
    lemma_field_32(image, desc + 16);
    let attributes = le_u32(image, desc);
    let handle = le_u32(image, desc + 8);
    let iat = delay_rva(attributes, image_base, le_u32(image, desc + 12))->0;
    let names = delay_rva(attributes, image_base, le_u32(image, desc + 16))->0;
    let n = thunk_count(image, names, 0)->0;
    let slotted = has_delay_slot(image, desc, t);
    lemma_thunks_are_counted(
        image,
        names,
        0,
        if slotted {
            t
        } else {
            -1
        },
    );
    let next = with_carve(carves, cap, image_size, iat, (n + 1) * 8)->Ok_0;
    lemma_with_carve(carves, cap, image_size, iat, (n + 1) * 8, iat + 8 * t);
    if handle != 0 {
        let rva = delay_rva(attributes, image_base, handle)->0;
        lemma_with_carve(next, cap, image_size, rva, 8, rva);
        lemma_extends(carves, next, all);
    }
    if slotted {
        assert(extends(all, next));
        lemma_stays_carved(all, next, iat + 8 * t);
    }
}

proof fn lemma_delay_slots_are_carved(
    image: Seq<u8>,
    image_base: u64,
    image_size: int,
    cap: nat,
    end: int,
    desc: int,
    carves: Seq<Carve>,
    di: int,
    t: int,
)
    requires
        delay_carves(image, image_base, image_size, cap, end, desc, carves).1 is None,
        image_size <= u32::MAX,
        0 <= di ==> {
            &&& desc + 32 * di + 32 <= end
            &&& forall|j: int|
                0 <= j <= di ==> field(image, #[trigger] (desc + 32 * j) + 12, 4) != 0
            &&& has_delay_slot(image, desc + 32 * di, t)
        },
    ensures
        ({
            let all = delay_carves(image, image_base, image_size, cap, end, desc, carves).0;
            let at = desc + 32 * di;
            &&& extends(all, carves)
            &&& 0 <= di ==> is_carved(all, field(image, at + 12, 4) + 8 * t)
            &&& 0 <= di && field(image, at + 8, 4) != 0 ==> is_carved(all, field(image, at + 8, 4))
        }),
    decreases end - desc,
{
    let all = delay_carves(image, image_base, image_size, cap, end, desc, carves).0;
    lemma_field_32(image, desc + 12);
    if 0 <= di {
        assert(field(image, (desc + 32 * 0) + 12, 4) != 0);
    }
    if desc + 32 <= end && !(le_u32(image, desc) == 0 && le_u32(image, desc + 12) == 0 && le_u32(
        image,
        desc + 4,
    ) == 0) {
        let next = delay_descriptor_carves(image, image_base, image_size, cap, desc, carves).0;
        lemma_delay_words_are_carved(image, image_base, image_size, cap, desc, carves, t);
        if di > 0 {
            assert forall|j: int| 0 <= j <= di - 1 implies field(
                image,
                #[trigger] (desc + 32 + 32 * j) + 12,
                4,
            ) != 0 by {
                assert(desc + 32 + 32 * j == desc + 32 * (j + 1));
            }
            assert(desc + 32 + 32 * (di - 1) == desc + 32 * di);
        }
        lemma_delay_slots_are_carved(
            image,
            image_base,
            image_size,
            cap,
            end,
            desc + 32,
            next,
            if di > 0 {
                di - 1
            } else {
                -1
            },
            t,
        );
        lemma_extends(carves, next, all);
        if di == 0 {
            assert(desc + 32 * di == desc);
            lemma_stays_carved(all, next, field(image, desc + 12, 4) + 8 * t);
            if field(image, desc + 8, 4) != 0 {
                lemma_stays_carved(all, next, field(image, desc + 8, 4));
            }
        }
    }
}

proof fn lemma_carve_stages(pe: PeHeaders, s: Seq<u8>, image: Seq<u8>, cap: nat)
    requires
        carves_outcome(pe, s, image, cap).1 is None,
    ensures
        ({
            let all = carves_outcome(pe, s, image, cap).0;
            let first = import_stage(pe, s, image, cap);
            let second = tls_stage(pe, s, image, cap, first.0);
            &&& first.1 is None && second.1 is None
            &&& extends(second.0, first.0) && extends(all, second.0)
        }),
{
    let size = pe.opt.size_of_image as int;
    let base = pe.opt.image_base;
    let first = import_stage(pe, s, image, cap).0;
    let second = tls_stage(pe, s, image, cap, first).0;
    if let Some(dd) = directory_of(s, pe, 9) {
        let index = le_u64(image, dd.virtual_address + 16);
        if index >= base {
            lemma_with_carve(first, cap, size, index - base, 8, index - base);
        }
    }
    if let Some(dd) = directory_of(s, pe, 13) {
        lemma_delay_slots_are_carved(
            image,
            base,
            size,
            cap,
            dd.virtual_address + dd.size,
            dd.virtual_address as int,
            second,
            -1,
            0,
        );
    }
}

/// Every slot of every import descriptor is carved out, so that its page is
/// writable.
pub proof fn lemma_every_import_slot_is_carved(
    pe: PeHeaders,
    s: Seq<u8>,
    image: Seq<u8>,
    cap: nat,
    di: int,
    t: int,
)
    requires
        carves_outcome(pe, s, image, cap).1 is None,
        directory_of(s, pe, 1) is Some,
        0 <= di,
        0 <= t,
        ({
            let dd = directory_of(s, pe, 1)->0;
            let desc = dd.virtual_address as int;
            &&& 20 * di + 20 <= dd.size
            &&& forall|j: int| 0 <= j <= di ==> field(image, #[trigger] (desc + 20 * j) + 16, 4) != 0
            &&& forall|j: int|
                0 <= j <= t ==> #[trigger] has_image_thunk(
                    image,
                    field(image, desc + 20 * di + 16, 4),
                    j,
                )
        }),
    ensures
        is_carved(
            carves_outcome(pe, s, image, cap).0,
            field(image, directory_of(s, pe, 1)->0.virtual_address + 20 * di + 16, 4) + 8 * t,
        ),
{
    let dd = directory_of(s, pe, 1)->0;
    let desc = dd.virtual_address as int;
    let word = field(image, desc + 20 * di + 16, 4) + 8 * t;
    let all = carves_outcome(pe, s, image, cap).0;
    let first = import_stage(pe, s, image, cap).0;
    let second = tls_stage(pe, s, image, cap, first).0;
    lemma_carve_stages(pe, s, image, cap);
    lemma_import_slots_are_carved(
        image,
        pe.opt.size_of_image as int,
        directory_of(s, pe, 12),
        cap,
        desc + dd.size,
        desc,
        Seq::empty(),
        di,
        t,
    );
    lemma_stays_carved(second, first, word);
    lemma_stays_carved(all, second, word);
}

/// The TLS index slot is carved out.
pub proof fn lemma_tls_index_is_carved(pe: PeHeaders, s: Seq<u8>, image: Seq<u8>, cap: nat)
    requires
        carves_outcome(pe, s, image, cap).1 is None,
        directory_of(s, pe, 9) is Some,
        field(image, directory_of(s, pe, 9)->0.virtual_address + 16, 8) >= pe.opt.image_base,
    ensures
        is_carved(
            carves_outcome(pe, s, image, cap).0,
            field(image, directory_of(s, pe, 9)->0.virtual_address + 16, 8) - pe.opt.image_base,
        ),
{
    let dd = directory_of(s, pe, 9)->0;
    let size = pe.opt.size_of_image as int;
    lemma_field_64(image, dd.virtual_address + 16);
    let word = field(image, dd.virtual_address + 16, 8) - pe.opt.image_base;
    let first = import_stage(pe, s, image, cap).0;
    let second = tls_stage(pe, s, image, cap, first).0;
    lemma_carve_stages(pe, s, image, cap);
    lemma_with_carve(first, cap, size, word, 8, word);
    lemma_stays_carved(carves_outcome(pe, s, image, cap).0, second, word);
}

/// Every slot and every module handle of the delay-import descriptors whose fields
/// are relative to the image is carved out.
pub proof fn lemma_every_delay_slot_is_carved(
    pe: PeHeaders,
    s: Seq<u8>,
    image: Seq<u8>,
    cap: nat,
    di: int,
    t: int,
)
    requires
        carves_outcome(pe, s, image, cap).1 is None,
        directory_of(s, pe, 13) is Some,
        0 <= di,
        ({
            let dd = directory_of(s, pe, 13)->0;
            let desc = dd.virtual_address as int;
            &&& 32 * di + 32 <= dd.size
            &&& forall|j: int|
                0 <= j <= di ==> field(image, #[trigger] (desc + 32 * j) + 12, 4) != 0
            &&& has_delay_slot(image, desc + 32 * di, t)
        }),
    ensures
        ({
            let at = directory_of(s, pe, 13)->0.virtual_address + 32 * di;
            let all = carves_outcome(pe, s, image, cap).0;
            &&& is_carved(all, field(image, at + 12, 4) + 8 * t)
            &&& field(image, at + 8, 4) != 0 ==> is_carved(all, field(image, at + 8, 4))
        }),
{
    let dd = directory_of(s, pe, 13)->0;
    let first = import_stage(pe, s, image, cap).0;
    let second = tls_stage(pe, s, image, cap, first).0;
    lemma_delay_slots_are_carved(
        image,
        pe.opt.image_base,
        pe.opt.size_of_image as int,
        cap,
        dd.virtual_address + dd.size,
        dd.virtual_address as int,
        second,
        di,
        t,
    );
}

/// The envelope of an image is its size in whole pages, from the load base on; the
/// entry point is as far from there as the headers say.
pub proof fn lemma_image_envelope(pe: PeHeaders, load_base: u64)
    ensures
        ({
            let e = pe_envelope(pe, load_base);
            &&& e.base == load_base && e.load_base == load_base
            &&& e.bytes % 4096 == 0
            &&& pe.opt.size_of_image <= e.bytes < pe.opt.size_of_image + 4096
            &&& (e.entry_pc - load_base - pe.opt.address_of_entry_point)
                % 0x1_0000_0000_0000_0000 == 0
        }),
{
}

} // verus!
