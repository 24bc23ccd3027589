//! Run plans of ELF images.
//!
//! Pure over the parsed program headers, the load bias and the entry point: the
//! planner classifies each page of the image's load span, and groups pages into
//! [`Run`]s whose source is expressed against the shared code object (the ELF
//! file itself).
use crate::loader::elf::header::{
    has_span, is_load, lemma_span_covers, load_span, span_hi, span_lo, span_of,
};
use crate::loader::elf::types::{page_ceil, page_floor, Elf64Phdr, PF_W, PF_X, PT_LOAD};
use crate::loader::image::{
    executable, lemma_prot_bits, prot_bits, run_holds, run_is_wx_safe, runs_in_order,
    source_offset, writable, ImageEnvelope, ImageRunKind, Prot, Run, RunSource, PROT_EXEC, PROT_WRITE,
};
use vstd::prelude::*;

verus! {

/// Why an ELF image cannot be reduced to a shareable run plan.
#[derive(Clone, Copy, PartialEq, Eq, Debug, Structural)]
pub enum PlanError {
    /// A `PT_LOAD`'s file offset differs from its virtual address, or its file
    /// size exceeds its memory size, so its pages do not line up with the code
    /// object's pages.
    SkewedSegment,
    /// One page is covered by both a writable and an executable segment.
    WriteExecPage,
    /// An executable page is not cleanly shareable, so realizing it would need
    /// a private executable copy.
    PrivateExec,
    /// The caller's run buffer was too small for the produced plan.
    TooManyRuns,
    /// Address arithmetic overflowed.
    Overflow,
}

/// Per-page classification of an image page.
#[derive(Clone, Copy)]
pub struct PageClass {
    /// Union protection (POSIX bits) of the segments covering the page.
    pub prot: u8,
    /// Highest file-backed virtual address within the page (its start if none).
    pub file_end_va: u64,
    /// The page is non-writable and completely file-backed by load segments.
    pub clean: bool,
}

/// A maximal run of consecutive pages with the same protection and share class.
#[derive(Clone, Copy)]
pub struct PendingRun {
    pub start_va: u64,
    pub pages: u64,
    pub prot: u8,
    pub clean: bool,
    pub file_end_va: u64,
}

/// Whether a header describes a segment that occupies memory.
pub open spec fn loaded(ph: Elf64Phdr) -> bool {
    is_load(ph) && ph.p_memsz != 0
}

/// Whether a segment does not line up with the code object.
pub open spec fn skewed(ph: Elf64Phdr) -> bool {
    loaded(ph) && (ph.p_filesz > ph.p_memsz || ph.p_offset != ph.p_vaddr)
}

/// Whether a segment has a byte in the page at `page`.
pub open spec fn covers(ph: Elf64Phdr, load_base: u64, page: int) -> bool {
    &&& loaded(ph)
    &&& page < load_base + ph.p_vaddr + ph.p_memsz
    &&& load_base + ph.p_vaddr < page + 4096
}

/// Whether any segment has a byte in the page at `page`.
pub open spec fn page_used(phdrs: Seq<Elf64Phdr>, load_base: u64, page: int) -> bool {
    exists|i: int| 0 <= i < phdrs.len() && covers(#[trigger] phdrs[i], load_base, page)
}

/// Whether an executable segment has a byte in the page at `page`.
pub open spec fn page_exec(phdrs: Seq<Elf64Phdr>, load_base: u64, page: int) -> bool {
    exists|i: int|
        0 <= i < phdrs.len() && covers(#[trigger] phdrs[i], load_base, page) && phdrs[i].p_flags & 1
            != 0
}

/// Whether a writable segment has a byte in the page at `page`.
pub open spec fn page_write(phdrs: Seq<Elf64Phdr>, load_base: u64, page: int) -> bool {
    exists|i: int|
        0 <= i < phdrs.len() && covers(#[trigger] phdrs[i], load_base, page) && phdrs[i].p_flags & 2
            != 0
}

/// Whether the loaded bytes of the page all come from the file.
pub open spec fn page_backed(phdrs: Seq<Elf64Phdr>, load_base: u64, page: int) -> bool {
    forall|i: int|
        0 <= i < phdrs.len() && covers(#[trigger] phdrs[i], load_base, page) ==> segment_backed(
            phdrs[i],
            load_base,
            page,
        )
}

/// Whether a segment's bytes in the page all come from the file.
pub open spec fn segment_backed(ph: Elf64Phdr, load_base: u64, page: int) -> bool {
    let start = load_base + ph.p_vaddr;
    ||| page + 4096 <= start + ph.p_filesz
    ||| start + ph.p_memsz <= start + ph.p_filesz
}

/// Highest file-backed address in the page, over the first `n` headers.
pub open spec fn page_file_end(
    phdrs: Seq<Elf64Phdr>,
    load_base: u64,
    page: int,
    n: int,
) -> int
    decreases n,
{
    if n <= 0 {
        page
    } else {
        let prev = page_file_end(phdrs, load_base, page, n - 1);
        let ph = phdrs[n - 1];
        let file_end = load_base + ph.p_vaddr + ph.p_filesz;
        let clamped = if page + 4096 < file_end {
            page + 4096
        } else {
            file_end
        };
        if covers(ph, load_base, page) && clamped > prev {
            clamped
        } else {
            prev
        }
    }
}

/// How a page is classified: `None` is a hole that no segment reaches.
pub open spec fn classify(phdrs: Seq<Elf64Phdr>, load_base: u64, page: int) -> Result<
    Option<PageClass>,
    PlanError,
> {
    if !page_used(phdrs, load_base, page) {
        Ok(None)
    } else if page_exec(phdrs, load_base, page) && page_write(phdrs, load_base, page) {
        Err(PlanError::WriteExecPage)
    } else {
        Ok(
            Some(
                PageClass {
                    prot: prot_bits(
                        page_exec(phdrs, load_base, page),
                        page_write(phdrs, load_base, page),
                    ),
                    file_end_va: page_file_end(
                        phdrs,
                        load_base,
                        page,
                        phdrs.len() as int,
                    ) as u64,
                    clean: !page_write(phdrs, load_base, page) && page_backed(
                        phdrs,
                        load_base,
                        page,
                    ),
                },
            ),
        )
    }
}

/// No segment wraps around the address space once the bias is applied, and no
/// file part is longer than its memory.
pub open spec fn segments_fit(phdrs: Seq<Elf64Phdr>, load_base: u64) -> bool {
    forall|i: int|
        0 <= i < phdrs.len() && loaded(#[trigger] phdrs[i]) ==> load_base + phdrs[i].p_vaddr
            + phdrs[i].p_memsz <= u64::MAX && phdrs[i].p_filesz <= phdrs[i].p_memsz
}

fn loaded_bytes_are_file_backed(phdrs: &[Elf64Phdr], load_base: u64, page_va: u64) -> (r: bool)
    requires
        segments_fit(phdrs@, load_base),
        page_va + 4096 <= u64::MAX,
    ensures
        r == page_backed(phdrs@, load_base, page_va as int),
{
    let page_end: u64 = page_va + 4096;
    let mut i: usize = 0;
    while i < phdrs.len()
        invariant
            i <= phdrs@.len(),
            segments_fit(phdrs@, load_base),
            page_end == page_va + 4096,
            forall|j: int|
                0 <= j < i && covers(#[trigger] phdrs@[j], load_base, page_va as int)
                    ==> segment_backed(phdrs@[j], load_base, page_va as int),
        decreases phdrs@.len() - i,
    {
        let ph: Elf64Phdr = phdrs[i];
        assert(ph == phdrs@[i as int]);
        if ph.p_type == PT_LOAD && ph.p_memsz != 0 {
            let seg_start: u64 = load_base + ph.p_vaddr;
            let seg_mem_end: u64 = seg_start + ph.p_memsz;
            if seg_mem_end > page_va && seg_start < page_end {
                let seg_file_end: u64 = seg_start + ph.p_filesz;
                let covered_end: u64 = if page_end < seg_mem_end {
                    page_end
                } else {
                    seg_mem_end
                };
                if covered_end > seg_file_end {
                    return false;
                }
            }
        }
        i = i + 1;
    }
    true
}

/// Classifies one page. `None` means no `PT_LOAD` covers it (a reserved hole).
fn classify_page(phdrs: &[Elf64Phdr], load_base: u64, page_va: u64) -> (r: Result<
    Option<PageClass>,
    PlanError,
>)
    requires
        segments_fit(phdrs@, load_base),
        page_va + 4096 <= u64::MAX,
    ensures
        r == classify(phdrs@, load_base, page_va as int),
{
    let page_end: u64 = page_va + 4096;
    let mut used: bool = false;
    let mut wants_exec: bool = false;
    let mut wants_write: bool = false;
    let mut file_end_va: u64 = page_va;
    let mut i: usize = 0;
    while i < phdrs.len()
        invariant
            i <= phdrs@.len(),
            segments_fit(phdrs@, load_base),
            page_end == page_va + 4096,
            used == exists|j: int|
                0 <= j < i && covers(#[trigger] phdrs@[j], load_base, page_va as int),
            wants_exec == exists|j: int|
                0 <= j < i && covers(#[trigger] phdrs@[j], load_base, page_va as int)
                    && phdrs@[j].p_flags & 1 != 0,
            wants_write == exists|j: int|
                0 <= j < i && covers(#[trigger] phdrs@[j], load_base, page_va as int)
                    && phdrs@[j].p_flags & 2 != 0,
            file_end_va == page_file_end(phdrs@, load_base, page_va as int, i as int),
        decreases phdrs@.len() - i,
    {
        let ph: Elf64Phdr = phdrs[i];
        assert(ph == phdrs@[i as int]);
        if ph.p_type == PT_LOAD && ph.p_memsz != 0 {
            let seg_start: u64 = load_base + ph.p_vaddr;
            let seg_mem_end: u64 = seg_start + ph.p_memsz;
            if seg_mem_end > page_va && seg_start < page_end {
                assert(covers(phdrs@[i as int], load_base, page_va as int));
                used = true;
                if ph.p_flags & PF_X != 0 {
                    wants_exec = true;
                }
                if ph.p_flags & PF_W != 0 {
                    wants_write = true;
                }
                let seg_file_end: u64 = seg_start + ph.p_filesz;
                let clamped: u64 = if page_end < seg_file_end {
                    page_end
                } else {
                    seg_file_end
                };
                if clamped > file_end_va {
                    file_end_va = clamped;
                }
            }
        }
        i = i + 1;
    }
    if !used {
        return Ok(None);
    }
    if wants_exec && wants_write {
        return Err(PlanError::WriteExecPage);
    }
    let prot: u8 = if wants_exec {
        5
    } else if wants_write {
        3
    } else {
        1
    };
    let clean: bool = !wants_write && loaded_bytes_are_file_backed(phdrs, load_base, page_va);
    Ok(Some(PageClass { prot, file_end_va, clean }))
}

impl PendingRun {
    /// The address after the last page.
    pub open spec fn end(self) -> int {
        self.start_va + self.pages * 4096
    }

    /// Whether the page at `page` may join the run. A private run clones one
    /// contiguous file extent and zero-fills the tail within its last page, so
    /// a page with file content does not join once the run has opened a zero
    /// gap. Pages without file content make up a run of their own.
    pub open spec fn joins(self, info: PageClass, page: int) -> bool {
        &&& page == self.end()
        &&& self.prot == info.prot
        &&& self.clean == info.clean
        &&& !self.clean ==> {
            ||| info.file_end_va > page && self.file_end_va >= self.end()
            ||| info.file_end_va <= page && self.file_end_va <= self.start_va
        }
    }

    /// The run with one more page.
    pub open spec fn extended(self, info: PageClass) -> PendingRun {
        PendingRun {
            pages: (self.pages + 1) as u64,
            file_end_va: if info.file_end_va > self.end() && info.file_end_va > self.file_end_va {
                info.file_end_va
            } else {
                self.file_end_va
            },
            ..self
        }
    }

    /// The finished run.
    pub open spec fn finished(self, load_base: u64) -> Result<Run, PlanError> {
        let offset = ((self.start_va - load_base) / 4096) as u64;
        let file_bytes = if self.file_end_va > self.start_va {
            (self.file_end_va - self.start_va) as u64
        } else {
            0
        };
        let run = |kind: ImageRunKind, source: RunSource|
            Run {
                va: self.start_va,
                bytes: (self.pages * 4096) as u64,
                prot: Prot(self.prot),
                kind,
                source,
            };
        if self.start_va < load_base {
            Err(PlanError::Overflow)
        } else if self.clean {
            Ok(
                run(
                    if executable(self.prot) {
                        ImageRunKind::Text
                    } else {
                        ImageRunKind::RoData
                    },
                    RunSource::CleanFromCodeMo { mo_offset_pages: offset },
                ),
            )
        } else if executable(self.prot) {
            Err(PlanError::PrivateExec)
        } else if file_bytes == 0 {
            Ok(
                run(
                    if writable(self.prot) {
                        ImageRunKind::Bss
                    } else {
                        ImageRunKind::RoData
                    },
                    RunSource::ZeroFill,
                ),
            )
        } else {
            Ok(
                run(
                    if writable(self.prot) {
                        ImageRunKind::Data
                    } else {
                        ImageRunKind::RoData
                    },
                    RunSource::PrivateFromCodeMo { mo_offset_pages: offset, file_bytes },
                ),
            )
        }
    }

    fn can_extend(&self, info: &PageClass, page_va: u64) -> (r: bool)
        requires
            self.end() <= u64::MAX,
        ensures
            r == self.joins(*info, page_va as int),
    {
        let end_va: u64 = self.start_va + self.pages * 4096;
        if page_va != end_va || self.prot != info.prot || self.clean != info.clean {
            return false;
        }
        if self.clean {
            return true;
        }
        if info.file_end_va > page_va {
            self.file_end_va >= end_va
        } else {
            self.file_end_va <= self.start_va
        }
    }

    fn extend(&self, info: &PageClass) -> (r: PendingRun)
        requires
            self.end() <= u64::MAX,
        ensures
            r == self.extended(*info),
    {
        let page_start: u64 = self.start_va + self.pages * 4096;
        let file_end_va: u64 = if info.file_end_va > page_start && info.file_end_va
            > self.file_end_va {
            info.file_end_va
        } else {
            self.file_end_va
        };
        PendingRun {
            start_va: self.start_va,
            pages: self.pages + 1,
            prot: self.prot,
            clean: self.clean,
            file_end_va,
        }
    }

    /// Converts a finished run into a [`Run`].
    fn finish(&self, load_base: u64) -> (r: Result<Run, PlanError>)
        requires
            self.end() <= u64::MAX,
        ensures
            r == self.finished(load_base),
    {
        let bytes: u64 = self.pages * 4096;
        if self.start_va < load_base {
            return Err(PlanError::Overflow);
        }
        // file offsets equal link-time addresses, so the run's code-object page
        // offset is its page offset from the load base
        let mo_offset_pages: u64 = (self.start_va - load_base) / 4096;
        let (source, kind) = if self.clean {
            let kind = if self.prot & PROT_EXEC != 0 {
                ImageRunKind::Text
            } else {
                ImageRunKind::RoData
            };
            (RunSource::CleanFromCodeMo { mo_offset_pages }, kind)
        } else if self.prot & PROT_EXEC != 0 {
            return Err(PlanError::PrivateExec);
        } else {
            let file_bytes: u64 = if self.file_end_va > self.start_va {
                self.file_end_va - self.start_va
            } else {
                0
            };
            if file_bytes == 0 {
                let kind = if self.prot & PROT_WRITE != 0 {
                    ImageRunKind::Bss
                } else {
                    ImageRunKind::RoData
                };
                (RunSource::ZeroFill, kind)
            } else {
                let kind = if self.prot & PROT_WRITE != 0 {
                    ImageRunKind::Data
                } else {
                    ImageRunKind::RoData
                };
                (RunSource::PrivateFromCodeMo { mo_offset_pages, file_bytes }, kind)
            }
        };
        Ok(Run { va: self.start_va, bytes, prot: Prot(self.prot), kind, source })
    }
}

/// The runs after a pending one is emitted into a buffer of `cap` entries.
pub open spec fn emitted(
    pending: Option<PendingRun>,
    load_base: u64,
    cap: nat,
    runs: Seq<Run>,
) -> Result<Seq<Run>, PlanError> {
    match pending {
        None => Ok(runs),
        Some(p) => if runs.len() >= cap {
            Err(PlanError::TooManyRuns)
        } else {
            match p.finished(load_base) {
                Err(e) => Err(e),
                Ok(run) => Ok(runs.push(run)),
            }
        },
    }
}

/// Plans the pages from `page` up to `end`, given the runs emitted so far and
/// the one still growing. The outcome is the runs emitted, and the error that
/// stopped the planner.
pub open spec fn plan_pages(
    phdrs: Seq<Elf64Phdr>,
    load_base: u64,
    cap: nat,
    end: int,
    page: int,
    runs: Seq<Run>,
    pending: Option<PendingRun>,
) -> (Seq<Run>, Option<PlanError>)
    decreases end - page + 4096,
{
    let flushed = emitted(pending, load_base, cap, runs);
    if page >= end {
        match flushed {
            Ok(done) => (done, None),
            Err(e) => (runs, Some(e)),
        }
    } else {
        match classify(phdrs, load_base, page) {
            Err(e) => (runs, Some(e)),
            Ok(None) => match flushed {
                Err(e) => (runs, Some(e)),
                Ok(done) => plan_pages(phdrs, load_base, cap, end, page + 4096, done, None),
            },
            Ok(Some(info)) => if pending is Some && pending->0.joins(info, page) {
                plan_pages(
                    phdrs,
                    load_base,
                    cap,
                    end,
                    page + 4096,
                    runs,
                    Some(pending->0.extended(info)),
                )
            } else {
                match flushed {
                    Err(e) => (runs, Some(e)),
                    Ok(done) => plan_pages(
                        phdrs,
                        load_base,
                        cap,
                        end,
                        page + 4096,
                        done,
                        Some(first_page(info, page)),
                    ),
                }
            },
        }
    }
}

/// A run of one page.
pub open spec fn first_page(info: PageClass, page: int) -> PendingRun {
    PendingRun {
        start_va: page as u64,
        pages: 1,
        prot: info.prot,
        clean: info.clean,
        file_end_va: info.file_end_va,
    }
}

/// Whether a segment is skewed.
pub open spec fn any_skewed(phdrs: Seq<Elf64Phdr>) -> bool {
    exists|i: int| 0 <= i < phdrs.len() && skewed(#[trigger] phdrs[i])
}

/// Whether there is a loadable segment.
pub open spec fn any_load(phdrs: Seq<Elf64Phdr>) -> bool {
    exists|i: int| 0 <= i < phdrs.len() && is_load(#[trigger] phdrs[i])
}

/// First address of the envelope.
pub open spec fn envelope_lo(phdrs: Seq<Elf64Phdr>, load_base: u64) -> int {
    page_floor(load_base + span_of(phdrs).0)
}

/// End address of the envelope.
pub open spec fn envelope_hi(phdrs: Seq<Elf64Phdr>, load_base: u64) -> int {
    page_ceil(load_base + span_of(phdrs).1)
}

/// The outcome of planning an image into a buffer of `cap` runs: the runs
/// emitted, and the error if the image is refused. An image without loadable
/// segments has no runs; one that does not fit into the address space overflows.
pub open spec fn plan_outcome(phdrs: Seq<Elf64Phdr>, load_base: u64, cap: nat) -> (
    Seq<Run>,
    Option<PlanError>,
) {
    if any_skewed(phdrs) {
        (Seq::empty(), Some(PlanError::SkewedSegment))
    } else if !any_load(phdrs) {
        (Seq::empty(), None)
    } else if !has_span(phdrs) || load_base + span_of(phdrs).1 + 4095 > u64::MAX {
        (Seq::empty(), Some(PlanError::Overflow))
    } else {
        plan_pages(
            phdrs,
            load_base,
            cap,
            envelope_hi(phdrs, load_base),
            envelope_lo(phdrs, load_base),
            Seq::empty(),
            None,
        )
    }
}

/// The envelope of an image that is not refused.
pub open spec fn plan_envelope(phdrs: Seq<Elf64Phdr>, load_base: u64, entry: u64) -> ImageEnvelope {
    ImageEnvelope {
        base: if has_span(phdrs) {
            envelope_lo(phdrs, load_base) as u64
        } else {
            0
        },
        bytes: if has_span(phdrs) {
            (envelope_hi(phdrs, load_base) - envelope_lo(phdrs, load_base)) as u64
        } else {
            0
        },
        load_base,
        entry_pc: load_base.wrapping_add(entry),
    }
}

/// `out` holds the emitted runs in front of what it held before.
spec fn holds(out: Seq<Run>, before: Seq<Run>, runs: Seq<Run>) -> bool {
    &&& runs.len() <= before.len()
    &&& out == runs + before.skip(runs.len() as int)
}

fn emit_run(
    pending: &Option<PendingRun>,
    load_base: u64,
    out: &mut [Run],
    count: usize,
    Ghost(before): Ghost<Seq<Run>>,
    Ghost(runs): Ghost<Seq<Run>>,
) -> (r: Result<usize, PlanError>)
    requires
        holds(old(out)@, before, runs),
        count == runs.len(),
        pending is Some ==> pending->0.end() <= u64::MAX,
    ensures
        match emitted(*pending, load_base, before.len(), runs) {
            Ok(done) => r is Ok && r->Ok_0 == done.len() && holds(final(out)@, before, done),
            Err(e) => r == Err::<usize, PlanError>(e) && final(out)@ == old(out)@,
        },
{
    match pending {
        None => Ok(count),
        Some(p) => {
            if count >= out.len() {
                return Err(PlanError::TooManyRuns);
            }
            let run = match p.finish(load_base) {
                Ok(run) => run,
                Err(e) => {
                    return Err(e);
                },
            };
            out[count] = run;
            assert(out@ =~= runs.push(run) + before.skip(runs.len() as int + 1));
            Ok(count + 1)
        },
    }
}

/// Whether there are loadable segments, and whether their end can be rounded up
/// to a page.
fn find_loads(phdrs: &[Elf64Phdr]) -> (r: (bool, bool))
    ensures
        r.0 == any_load(phdrs@),
        r.0 ==> r.1 == (has_span(phdrs@) && span_hi(phdrs@, phdrs@.len() as int) + 4095
            <= u64::MAX),
{
    let mut hi: u64 = 0;
    let mut found: bool = false;
    let mut i: usize = 0;
    while i < phdrs.len()
        invariant
            i <= phdrs@.len(),
            hi == span_hi(phdrs@, i as int),
            found == exists|j: int| 0 <= j < i && is_load(#[trigger] phdrs@[j]),
            forall|j: int|
                0 <= j < i && is_load(#[trigger] phdrs@[j]) ==> phdrs@[j].p_vaddr
                    + phdrs@[j].p_memsz <= u64::MAX,
        decreases phdrs@.len() - i,
    {
        let ph: Elf64Phdr = phdrs[i];
        assert(ph == phdrs@[i as int]);
        if ph.p_type == PT_LOAD {
            assert(is_load(phdrs@[i as int]));
            found = true;
            if ph.p_memsz > u64::MAX - ph.p_vaddr {
                return (true, false);
            }
            if ph.p_vaddr + ph.p_memsz > hi {
                hi = ph.p_vaddr + ph.p_memsz;
            }
        }
        i = i + 1;
    }
    (found, hi <= u64::MAX - 4095)
}

/// Produces the runs of an ELF image into `out`.
///
/// `load_base` is the load bias (0 for `ET_EXEC`, the chosen base for
/// `ET_DYN`), `entry` is the ELF header entry point (relative to the bias).
/// Returns the envelope and the number of runs written to `out`.
pub fn plan_elf(phdrs: &[Elf64Phdr], load_base: u64, entry: u64, out: &mut [Run]) -> (r: Result<
    (ImageEnvelope, usize),
    PlanError,
>)
    ensures
        ({
            let (runs, error) = plan_outcome(phdrs@, load_base, old(out)@.len());
            &&& match error {
                Some(e) => r == Err::<(ImageEnvelope, usize), PlanError>(e),
                None => r is Ok && r->Ok_0.0 == plan_envelope(phdrs@, load_base, entry)
                    && r->Ok_0.1 == runs.len(),
            }
            &&& runs.len() <= old(out)@.len()
            &&& final(out)@ == runs + old(out)@.skip(runs.len() as int)
        }),
{
    let ghost before = out@;
    let ghost cap = out@.len();
    assert(Seq::<Run>::empty() + before.skip(0) =~= before);
    let mut i: usize = 0;
    while i < phdrs.len()
        invariant
            i <= phdrs@.len(),
            out@ == before,
            before == old(out)@,
            before == Seq::<Run>::empty() + before.skip(0),
            forall|j: int| 0 <= j < i ==> !skewed(#[trigger] phdrs@[j]),
        decreases phdrs@.len() - i,
    {
        let ph: Elf64Phdr = phdrs[i];
        assert(ph == phdrs@[i as int]);
        if ph.p_type == PT_LOAD && ph.p_memsz != 0 && (ph.p_filesz > ph.p_memsz || ph.p_offset
            != ph.p_vaddr) {
            assert(skewed(phdrs@[i as int]));
            return Err(PlanError::SkewedSegment);
        }
        i = i + 1;
    }
    assert(!any_skewed(phdrs@));
    let entry_pc: u64 = load_base.wrapping_add(entry);
    let (found, fits) = find_loads(phdrs);
    if !found {
        return Ok((ImageEnvelope { base: 0, bytes: 0, load_base, entry_pc }, 0));
    }
    if !fits {
        return Err(PlanError::Overflow);
    }
    let (span_start, span_end) = match load_span(phdrs) {
        Some(span) => span,
        None => {
            return Err(PlanError::Overflow);
        },
    };
    proof {
        lemma_span_order(phdrs@);
    }
    if span_end > u64::MAX - load_base || load_base + span_end > u64::MAX - 4095 {
        return Err(PlanError::Overflow);
    }
    let base: u64 = (load_base + span_start) / 4096 * 4096;
    let end: u64 = (load_base + span_end + 4095) / 4096 * 4096;
    proof {
        lemma_segments_fit(phdrs@, load_base);
    }
    let mut count: usize = 0;
    let ghost mut runs: Seq<Run> = Seq::empty();
    let mut pending: Option<PendingRun> = None;
    let mut page_va: u64 = base;
    while page_va < end
        invariant
            segments_fit(phdrs@, load_base),
            base <= page_va <= end,
            page_va % 4096 == 0,
            end % 4096 == 0,
            cap == before.len(),
            before == old(out)@,
            holds(out@, before, runs),
            count == runs.len(),
            pending is Some ==> pending->0.end() == page_va,
            plan_outcome(phdrs@, load_base, cap) == plan_pages(
                phdrs@,
                load_base,
                cap,
                end as int,
                page_va as int,
                runs,
                pending,
            ),
        decreases end - page_va,
    {
        match classify_page(phdrs, load_base, page_va) {
            Err(e) => {
                return Err(e);
            },
            Ok(None) => {
                match emit_run(&pending, load_base, out, count, Ghost(before), Ghost(runs)) {
                    Err(e) => {
                        return Err(e);
                    },
                    Ok(n) => {
                        count = n;
                        proof {
                            runs = emitted(pending, load_base, cap, runs)->Ok_0;
                        }
                        pending = None;
                    },
                }
            },
            Ok(Some(info)) => {
                let extend: bool = match &pending {
                    Some(p) => p.can_extend(&info, page_va),
                    None => false,
                };
                if extend {
                    pending = match &pending {
                        Some(p) => Some(p.extend(&info)),
                        None => None,
                    };
                } else {
                    match emit_run(&pending, load_base, out, count, Ghost(before), Ghost(runs)) {
                        Err(e) => {
                            return Err(e);
                        },
                        Ok(n) => {
                            count = n;
                            proof {
                                runs = emitted(pending, load_base, cap, runs)->Ok_0;
                            }
                        },
                    }
                    pending = Some(
                        PendingRun {
                            start_va: page_va,
                            pages: 1,
                            prot: info.prot,
                            clean: info.clean,
                            file_end_va: info.file_end_va,
                        },
                    );
                }
            },
        }
        page_va = page_va + 4096;
    }
    match emit_run(&pending, load_base, out, count, Ghost(before), Ghost(runs)) {
        Err(e) => Err(e),
        Ok(n) => Ok((ImageEnvelope { base, bytes: end - base, load_base, entry_pc }, n)),
    }
}

proof fn lemma_span_order(phdrs: Seq<Elf64Phdr>)
    requires
        has_span(phdrs),
    ensures
        0 <= span_of(phdrs).0 <= span_of(phdrs).1,
{
    let i = choose|i: int| 0 <= i < phdrs.len() && is_load(#[trigger] phdrs[i]);
    lemma_span_covers(phdrs, phdrs.len() as int, i);
    lemma_span_lo_nonneg(phdrs, phdrs.len() as int);
}

proof fn lemma_span_lo_nonneg(phdrs: Seq<Elf64Phdr>, n: int)
    requires
        n <= phdrs.len(),
    ensures
        span_lo(phdrs, n) >= 0,
    decreases n,
{
    if n > 0 {
        lemma_span_lo_nonneg(phdrs, n - 1);
    }
}

proof fn lemma_segments_fit(phdrs: Seq<Elf64Phdr>, load_base: u64)
    requires
        has_span(phdrs),
        !any_skewed(phdrs),
        load_base + span_of(phdrs).1 + 4095 <= u64::MAX,
    ensures
        segments_fit(phdrs, load_base),
{
    assert forall|i: int| 0 <= i < phdrs.len() && loaded(#[trigger] phdrs[i]) implies load_base
        + phdrs[i].p_vaddr + phdrs[i].p_memsz <= u64::MAX && phdrs[i].p_filesz
        <= phdrs[i].p_memsz by {
        assert(!skewed(phdrs[i]));
        lemma_span_covers(phdrs, phdrs.len() as int, i);
    }
}

// ---------------------------------------------------------------------------
// What every plan has in common
// ---------------------------------------------------------------------------

/// Every used page from `lo` to `hi` is in a run with the page's protection,
/// and no other page is in a run.
pub open spec fn pages_placed(
    phdrs: Seq<Elf64Phdr>,
    load_base: u64,
    runs: Seq<Run>,
    lo: int,
    hi: int,
) -> bool {
    forall|page: int|
        lo <= page < hi && page % 4096 == 0 ==> match #[trigger] classify(phdrs, load_base, page) {
            Ok(Some(info)) => exists|i: int|
                0 <= i < runs.len() && run_holds(#[trigger] runs[i], page, info.prot),
            Ok(None) => forall|i: int|
                0 <= i < runs.len() ==> !((#[trigger] runs[i]).va <= page < runs[i].va
                    + runs[i].bytes),
            Err(_) => false,
        }
}

/// The runs so far, the growing one added as a plain span.
spec fn with_pending(runs: Seq<Run>, pending: Option<PendingRun>) -> Seq<Run> {
    match pending {
        None => runs,
        Some(p) => runs.push(span_run(p)),
    }
}

spec fn span_run(p: PendingRun) -> Run {
    Run {
        va: p.start_va,
        bytes: (p.pages * 4096) as u64,
        prot: Prot(p.prot),
        kind: ImageRunKind::Bss,
        source: RunSource::ZeroFill,
    }
}

spec fn pending_ok(p: PendingRun, page: int) -> bool {
    &&& p.end() == page
    &&& p.pages >= 1
    &&& p.start_va % 4096 == 0
    &&& p.prot == 1 || p.prot == 3 || p.prot == 5
    &&& p.clean ==> p.prot != 3
}

proof fn lemma_plan_pages(
    phdrs: Seq<Elf64Phdr>,
    load_base: u64,
    cap: nat,
    lo: int,
    end: int,
    page: int,
    runs: Seq<Run>,
    pending: Option<PendingRun>,
)
    requires
        0 <= lo <= page <= end <= u64::MAX,
        page % 4096 == 0,
        end % 4096 == 0,
        runs.len() <= cap,
        plan_pages(phdrs, load_base, cap, end, page, runs, pending).1 is None,
        forall|i: int| 0 <= i < runs.len() ==> run_is_wx_safe(#[trigger] runs[i]),
        pending is Some ==> pending_ok(pending->0, page),
        runs_in_order(with_pending(runs, pending), lo, page),
        pages_placed(phdrs, load_base, with_pending(runs, pending), lo, page),
    ensures
        ({
            let done = plan_pages(phdrs, load_base, cap, end, page, runs, pending).0;
            &&& done.len() <= cap
            &&& forall|i: int| 0 <= i < done.len() ==> run_is_wx_safe(#[trigger] done[i])
            &&& runs_in_order(done, lo, end)
            &&& pages_placed(phdrs, load_base, done, lo, end)
        }),
    decreases end - page + 4096,
{
    let all = with_pending(runs, pending);
    let flushed = emitted(pending, load_base, cap, runs);
    if flushed is Ok {
        lemma_emitted(phdrs, load_base, cap, lo, page, runs, pending);
    }
    if page < end {
        match classify(phdrs, load_base, page) {
            Err(_) => {},
            Ok(None) => {
                let done = flushed->Ok_0;
                assert(pages_placed(phdrs, load_base, done, lo, page + 4096)) by {
                    assert forall|pg: int| lo <= pg < page + 4096 && pg % 4096 == 0 implies match
                    #[trigger] classify(phdrs, load_base, pg) {
                        Ok(Some(info)) => exists|i: int|
                            0 <= i < done.len() && run_holds(#[trigger] done[i], pg, info.prot),
                        Ok(None) => forall|i: int|
                            0 <= i < done.len() ==> !((#[trigger] done[i]).va <= pg < done[i].va
                                + done[i].bytes),
                        Err(_) => false,
                    } by {
                        if pg >= page {
                            assert(pg == page);
                        }
                    }
                }
                assert(runs_in_order(done, lo, page + 4096));
                lemma_plan_pages(phdrs, load_base, cap, lo, end, page + 4096, done, None);
            },
            Ok(Some(info)) => {
                lemma_prot_bits(
                    page_exec(phdrs, load_base, page),
                    page_write(phdrs, load_base, page),
                );
                let joined = pending is Some && pending->0.joins(info, page);
                let (base_runs, next) = if joined {
                    (runs, pending->0.extended(info))
                } else {
                    (flushed->Ok_0, first_page(info, page))
                };
                let old_all = if joined {
                    all
                } else {
                    flushed->Ok_0
                };
                let new_all = with_pending(base_runs, Some(next));
                let last = new_all.len() - 1;
                assert(run_holds(new_all[last], page, info.prot));
                assert(forall|i: int| 0 <= i < last ==> #[trigger] new_all[i] == base_runs[i]);
                assert(pages_placed(phdrs, load_base, new_all, lo, page + 4096)) by {
                    assert forall|pg: int| lo <= pg < page + 4096 && pg % 4096 == 0 implies match
                    #[trigger] classify(phdrs, load_base, pg) {
                        Ok(Some(info)) => exists|i: int|
                            0 <= i < new_all.len() && run_holds(
                                #[trigger] new_all[i],
                                pg,
                                info.prot,
                            ),
                        Ok(None) => forall|i: int|
                            0 <= i < new_all.len() ==> !((#[trigger] new_all[i]).va <= pg
                                < new_all[i].va + new_all[i].bytes),
                        Err(_) => false,
                    } by {
                        if pg >= page {
                            assert(pg == page);
                        } else {
                            match classify(phdrs, load_base, pg) {
                                Ok(Some(inf)) => {
                                    let i = choose|i: int|
                                        0 <= i < old_all.len() && run_holds(
                                            #[trigger] old_all[i],
                                            pg,
                                            inf.prot,
                                        );
                                    assert(run_holds(new_all[i], pg, inf.prot));
                                },
                                Ok(None) => {
                                    assert forall|i: int| 0 <= i < new_all.len() implies !((
                                    #[trigger] new_all[i]).va <= pg < new_all[i].va
                                        + new_all[i].bytes) by {
                                        if i < old_all.len() {
                                            assert(!(old_all[i].va <= pg < old_all[i].va
                                                + old_all[i].bytes));
                                        }
                                    }
                                },
                                Err(_) => {},
                            }
                        }
                    }
                }
                assert(runs_in_order(new_all, lo, page + 4096)) by {
                    assert forall|i: int| 0 <= i < new_all.len() implies {
                        let run = #[trigger] new_all[i];
                        &&& run.va % 4096 == 0
                        &&& run.bytes % 4096 == 0
                        &&& run.bytes > 0
                        &&& lo <= run.va
                        &&& run.va + run.bytes <= page + 4096
                    } by {
                        if i < old_all.len() {
                            let run = old_all[i];
                            assert(run.va % 4096 == 0 && run.bytes % 4096 == 0);
                        }
                    }
                    assert forall|i: int, j: int| 0 <= i < j < new_all.len() implies (
                    #[trigger] new_all[i]).va + new_all[i].bytes <= (#[trigger] new_all[j]).va by {
                        if j < old_all.len() {
                            assert(old_all[i].va + old_all[i].bytes <= old_all[j].va);
                        } else {
                            assert(old_all[i].va + old_all[i].bytes <= page);
                        }
                    }
                }
                lemma_plan_pages(
                    phdrs,
                    load_base,
                    cap,
                    lo,
                    end,
                    page + 4096,
                    base_runs,
                    Some(next),
                );
            },
        }
    }
}

/// Emitting the growing run keeps what holds of the runs.
proof fn lemma_emitted(
    phdrs: Seq<Elf64Phdr>,
    load_base: u64,
    cap: nat,
    lo: int,
    page: int,
    runs: Seq<Run>,
    pending: Option<PendingRun>,
)
    requires
        page <= u64::MAX,
        runs.len() <= cap,
        emitted(pending, load_base, cap, runs) is Ok,
        forall|i: int| 0 <= i < runs.len() ==> run_is_wx_safe(#[trigger] runs[i]),
        pending is Some ==> pending_ok(pending->0, page),
        runs_in_order(with_pending(runs, pending), lo, page),
        pages_placed(phdrs, load_base, with_pending(runs, pending), lo, page),
    ensures
        ({
            let done = emitted(pending, load_base, cap, runs)->Ok_0;
            &&& done.len() <= cap
            &&& forall|i: int| 0 <= i < done.len() ==> run_is_wx_safe(#[trigger] done[i])
            &&& runs_in_order(done, lo, page)
            &&& pages_placed(phdrs, load_base, done, lo, page)
        }),
{
    if pending is Some {
        let p = pending->0;
        let all = with_pending(runs, pending);
        let done = emitted(pending, load_base, cap, runs)->Ok_0;
        lemma_prot_bits(false, false);
        lemma_prot_bits(false, true);
        lemma_prot_bits(true, false);
        assert(run_is_wx_safe(done.last()));
        assert(forall|i: int|
            0 <= i < done.len() ==> (#[trigger] done[i]).va == all[i].va && done[i].bytes
                == all[i].bytes && done[i].prot == all[i].prot);
        assert forall|pg: int| lo <= pg < page && pg % 4096 == 0 implies match #[trigger] classify(
            phdrs,
            load_base,
            pg,
        ) {
            Ok(Some(info)) => exists|i: int|
                0 <= i < done.len() && run_holds(#[trigger] done[i], pg, info.prot),
            Ok(None) => forall|i: int|
                0 <= i < done.len() ==> !((#[trigger] done[i]).va <= pg < done[i].va
                    + done[i].bytes),
            Err(_) => false,
        } by {
            match classify(phdrs, load_base, pg) {
                Ok(Some(info)) => {
                    let i = choose|i: int|
                        0 <= i < all.len() && run_holds(#[trigger] all[i], pg, info.prot);
                    assert(run_holds(done[i], pg, info.prot));
                },
                Ok(None) => {
                    assert forall|i: int| 0 <= i < done.len() implies !((#[trigger] done[i]).va
                        <= pg < done[i].va + done[i].bytes) by {
                        assert(!(all[i].va <= pg < all[i].va + all[i].bytes));
                    }
                },
                Err(_) => {},
            }
        }
        assert forall|i: int, j: int| 0 <= i < j < done.len() implies (#[trigger] done[i]).va
            + done[i].bytes <= (#[trigger] done[j]).va by {
            assert(all[i].va + all[i].bytes <= all[j].va);
        }
    }
}

/// An accepted image keeps W^X: no run is writable and executable, text is
/// shared clean from the code object, and writable runs are private.
pub proof fn lemma_plan_is_wx_safe(phdrs: Seq<Elf64Phdr>, load_base: u64, cap: nat, i: int)
    requires
        plan_outcome(phdrs, load_base, cap).1 is None,
        0 <= i < plan_outcome(phdrs, load_base, cap).0.len(),
    ensures
        run_is_wx_safe(plan_outcome(phdrs, load_base, cap).0[i]),
{
    lemma_plan(phdrs, load_base, cap);
}

/// The runs of an accepted image are whole pages in ascending order, disjoint,
/// and inside the envelope; together they hold exactly the pages that a segment
/// reaches, each with the protection its segments ask for.
pub proof fn lemma_plan_places_every_page(phdrs: Seq<Elf64Phdr>, load_base: u64, cap: nat)
    requires
        plan_outcome(phdrs, load_base, cap).1 is None,
        has_span(phdrs),
    ensures
        runs_in_order(
            plan_outcome(phdrs, load_base, cap).0,
            envelope_lo(phdrs, load_base),
            envelope_hi(phdrs, load_base),
        ),
        pages_placed(
            phdrs,
            load_base,
            plan_outcome(phdrs, load_base, cap).0,
            envelope_lo(phdrs, load_base),
            envelope_hi(phdrs, load_base),
        ),
{
    lemma_plan(phdrs, load_base, cap);
}

proof fn lemma_plan(phdrs: Seq<Elf64Phdr>, load_base: u64, cap: nat)
    requires
        plan_outcome(phdrs, load_base, cap).1 is None,
        has_span(phdrs),
    ensures
        ({
            let done = plan_outcome(phdrs, load_base, cap).0;
            let lo = envelope_lo(phdrs, load_base);
            let hi = envelope_hi(phdrs, load_base);
            &&& forall|i: int| 0 <= i < done.len() ==> run_is_wx_safe(#[trigger] done[i])
            &&& runs_in_order(done, lo, hi)
            &&& pages_placed(phdrs, load_base, done, lo, hi)
        }),
{
    lemma_span_order(phdrs);
    let lo = envelope_lo(phdrs, load_base);
    let hi = envelope_hi(phdrs, load_base);
    lemma_plan_pages(phdrs, load_base, cap, lo, hi, lo, Seq::empty(), None);
}

// ---------------------------------------------------------------------------
// Where the bytes of a run come from
// ---------------------------------------------------------------------------

/// Highest file-backed address in the page, its start if it has none.
pub open spec fn file_end(phdrs: Seq<Elf64Phdr>, load_base: u64, page: int) -> int {
    page_file_end(phdrs, load_base, page, phdrs.len() as int)
}

/// Whether the source of a run is where its bytes are: file offsets equal link-time
/// addresses, so a page of the code object is as far from its start as the page of
/// the run is from the load base. A clean run is not writable and all from the
/// file; a private run holds file bytes up to `file_bytes` and none behind them,
/// and is not executable; a zero-fill run holds none. What the run contributes
/// goes with its protection.
pub open spec fn run_source_ok(phdrs: Seq<Elf64Phdr>, load_base: u64, run: Run) -> bool {
    &&& run.kind == ImageRunKind::Text <==> executable(run.prot.0)
    &&& run.kind == ImageRunKind::Data || run.kind == ImageRunKind::Bss <==> writable(run.prot.0)
    &&& match run.source {
        RunSource::CleanFromCodeMo { mo_offset_pages } => {
            &&& mo_offset_pages * 4096 == run.va - load_base
            &&& !writable(run.prot.0)
            &&& forall|page: int|
                run.va <= page < run.va + run.bytes && page % 4096 == 0 ==> #[trigger] page_backed(
                    phdrs,
                    load_base,
                    page,
                )
        },
        RunSource::PrivateFromCodeMo { mo_offset_pages, file_bytes } => {
            &&& mo_offset_pages * 4096 == run.va - load_base
            &&& 0 < file_bytes <= run.bytes
            &&& !executable(run.prot.0)
            &&& forall|page: int|
                run.va <= page < run.va + run.bytes && page % 4096 == 0 ==> #[trigger] file_end(
                    phdrs,
                    load_base,
                    page,
                ) == if page + 4096 < run.va + file_bytes {
                    page + 4096
                } else {
                    run.va + file_bytes
                }
        },
        RunSource::ZeroFill => forall|page: int|
            run.va <= page < run.va + run.bytes && page % 4096 == 0 ==> #[trigger] file_end(
                phdrs,
                load_base,
                page,
            ) == page,
    }
}

/// What the growing run knows of its pages.
spec fn pending_source_ok(
    phdrs: Seq<Elf64Phdr>,
    load_base: u64,
    p: PendingRun,
    page: int,
) -> bool {
    &&& pending_ok(p, page)
    &&& p.start_va <= p.file_end_va <= page
    &&& p.clean ==> forall|pg: int|
        p.start_va <= pg < page && pg % 4096 == 0 ==> #[trigger] page_backed(phdrs, load_base, pg)
    &&& !p.clean ==> forall|pg: int|
        p.start_va <= pg < page && pg % 4096 == 0 ==> #[trigger] file_end(phdrs, load_base, pg)
            == if p.file_end_va == p.start_va {
            pg
        } else if pg + 4096 < p.file_end_va {
            pg + 4096
        } else {
            p.file_end_va as int
        }
}

proof fn lemma_file_end(phdrs: Seq<Elf64Phdr>, load_base: u64, page: int, n: int)
    ensures
        page <= page_file_end(phdrs, load_base, page, n) <= page + 4096,
    decreases n,
{
    if n > 0 {
        lemma_file_end(phdrs, load_base, page, n - 1);
    }
}

proof fn lemma_finished_source(phdrs: Seq<Elf64Phdr>, load_base: u64, p: PendingRun, page: int)
    requires
        page <= u64::MAX,
        load_base % 4096 == 0,
        pending_source_ok(phdrs, load_base, p, page),
        p.finished(load_base) is Ok,
    ensures
        run_source_ok(phdrs, load_base, p.finished(load_base)->Ok_0),
{
    lemma_prot_bits(false, false);
    lemma_prot_bits(false, true);
    lemma_prot_bits(true, false);
}

proof fn lemma_plan_sources(
    phdrs: Seq<Elf64Phdr>,
    load_base: u64,
    cap: nat,
    end: int,
    page: int,
    runs: Seq<Run>,
    pending: Option<PendingRun>,
)
    requires
        load_base % 4096 == 0,
        0 <= page <= end <= u64::MAX,
        page % 4096 == 0,
        end % 4096 == 0,
        plan_pages(phdrs, load_base, cap, end, page, runs, pending).1 is None,
        forall|i: int| 0 <= i < runs.len() ==> run_source_ok(phdrs, load_base, #[trigger] runs[i]),
        pending is Some ==> pending_source_ok(phdrs, load_base, pending->0, page),
    ensures
        ({
            let done = plan_pages(phdrs, load_base, cap, end, page, runs, pending).0;
            forall|i: int|
                0 <= i < done.len() ==> run_source_ok(phdrs, load_base, #[trigger] done[i])
        }),
    decreases end - page + 4096,
{
    let flushed = emitted(pending, load_base, cap, runs);
    if flushed is Ok && pending is Some {
        lemma_finished_source(phdrs, load_base, pending->0, page);
    }
    if page < end {
        match classify(phdrs, load_base, page) {
            Err(_) => {},
            Ok(None) => {
                lemma_plan_sources(
                    phdrs,
                    load_base,
                    cap,
                    end,
                    page + 4096,
                    flushed->Ok_0,
                    None,
                );
            },
            Ok(Some(info)) => {
                lemma_file_end(phdrs, load_base, page, phdrs.len() as int);
                assert(info.file_end_va == file_end(phdrs, load_base, page));
                if pending is Some && pending->0.joins(info, page) {
                    let next = pending->0.extended(info);
                    assert forall|pg: int|
                        next.start_va <= pg < page + 4096 && pg % 4096
                            == 0 && next.clean implies #[trigger] page_backed(
                        phdrs,
                        load_base,
                        pg,
                    ) by {
                        if pg >= page {
                            assert(pg == page);
                        }
                    }
                    assert forall|pg: int|
                        next.start_va <= pg < page + 4096 && pg % 4096
                            == 0 && !next.clean implies #[trigger] file_end(phdrs, load_base, pg)
                        == if next.file_end_va == next.start_va {
                        pg
                    } else if pg + 4096 < next.file_end_va {
                        pg + 4096
                    } else {
                        next.file_end_va as int
                    } by {
                        if pg >= page {
                            assert(pg == page);
                        } else {
                            assert(pg + 4096 <= page);
                        }
                    }
                    lemma_plan_sources(
                        phdrs,
                        load_base,
                        cap,
                        end,
                        page + 4096,
                        runs,
                        Some(next),
                    );
                } else {
                    let next = first_page(info, page);
                    lemma_plan_sources(
                        phdrs,
                        load_base,
                        cap,
                        end,
                        page + 4096,
                        flushed->Ok_0,
                        Some(next),
                    );
                }
            },
        }
    }
}

/// The source of every run of an accepted image is where its bytes are.
pub proof fn lemma_plan_sources_are_right(phdrs: Seq<Elf64Phdr>, load_base: u64, cap: nat, i: int)
    requires
        load_base % 4096 == 0,
        plan_outcome(phdrs, load_base, cap).1 is None,
        0 <= i < plan_outcome(phdrs, load_base, cap).0.len(),
    ensures
        run_source_ok(phdrs, load_base, plan_outcome(phdrs, load_base, cap).0[i]),
{
    lemma_span_order(phdrs);
    let lo = envelope_lo(phdrs, load_base);
    let hi = envelope_hi(phdrs, load_base);
    lemma_plan_sources(phdrs, load_base, cap, hi, lo, Seq::empty(), None);
}

/// Every page of a run of an accepted image is readable, and writable or
/// executable exactly if a segment with a byte in the page is; no page is both.
pub proof fn lemma_plan_protects_pages(
    phdrs: Seq<Elf64Phdr>,
    load_base: u64,
    cap: nat,
    i: int,
    page: int,
)
    requires
        plan_outcome(phdrs, load_base, cap).1 is None,
        0 <= i < plan_outcome(phdrs, load_base, cap).0.len(),
        page % 4096 == 0,
        ({
            let run = plan_outcome(phdrs, load_base, cap).0[i];
            run.va <= page < run.va + run.bytes
        }),
    ensures
        ({
            let prot = plan_outcome(phdrs, load_base, cap).0[i].prot.0;
            &&& prot & 1 != 0
            &&& writable(prot) == page_write(phdrs, load_base, page)
            &&& executable(prot) == page_exec(phdrs, load_base, page)
            &&& !(writable(prot) && executable(prot))
        }),
{
    lemma_plan(phdrs, load_base, cap);
    let runs = plan_outcome(phdrs, load_base, cap).0;
    let run = runs[i];
    let (exec, write) = (page_exec(phdrs, load_base, page), page_write(phdrs, load_base, page));
    match classify(phdrs, load_base, page) {
        Ok(Some(info)) => {
            let j = choose|j: int| 0 <= j < runs.len() && run_holds(
                #[trigger] runs[j],
                page,
                info.prot,
            );
            if i < j {
                assert(runs[i].va + runs[i].bytes <= runs[j].va);
            }
            if j < i {
                assert(runs[j].va + runs[j].bytes <= runs[i].va);
            }
            assert(run.prot.0 == prot_bits(exec, write));
            lemma_prot_bits(exec, write);
            assert(1u8 & 1 != 0 && 3u8 & 1 != 0 && 5u8 & 1 != 0 && 7u8 & 1 != 0) by (bit_vector);
        },
        _ => {},
    }
}

// ---------------------------------------------------------------------------
// Maximal runs
// ---------------------------------------------------------------------------

/// Whether a run that starts where another one ends could not be part of it: it
/// has another protection, only one of the two is clean, or they are parted by a
/// zero gap. Of two private runs the first one has a tail to be zeroed; two
/// zero-fill runs never touch.
pub open spec fn run_starts_anew(a: Run, b: Run) -> bool {
    a.va + a.bytes == b.va && a.prot == b.prot ==> match (a.source, b.source) {
        (RunSource::CleanFromCodeMo { .. }, RunSource::CleanFromCodeMo { .. }) => false,
        (
            RunSource::PrivateFromCodeMo { mo_offset_pages: _, file_bytes },
            RunSource::PrivateFromCodeMo { .. },
        ) => file_bytes < a.bytes,
        (RunSource::ZeroFill, RunSource::ZeroFill) => false,
        _ => true,
    }
}

/// Whether no run could be part of the one before it.
pub open spec fn runs_maximal(runs: Seq<Run>) -> bool {
    forall|i: int, j: int|
        0 <= i && j == i + 1 && j < runs.len() ==> run_starts_anew(
            #[trigger] runs[i],
            #[trigger] runs[j],
        )
}

/// [`run_starts_anew`] of a run that still grows.
spec fn pending_starts_anew(a: Run, p: PendingRun) -> bool {
    a.va + a.bytes == p.start_va && a.prot.0 == p.prot ==> match a.source {
        RunSource::CleanFromCodeMo { mo_offset_pages: _ } => !p.clean,
        RunSource::PrivateFromCodeMo { mo_offset_pages: _, file_bytes } => p.clean || p.file_end_va
            <= p.start_va || file_bytes < a.bytes,
        RunSource::ZeroFill => p.clean || p.file_end_va > p.start_va,
    }
}

proof fn lemma_plan_maximal(
    phdrs: Seq<Elf64Phdr>,
    load_base: u64,
    cap: nat,
    end: int,
    page: int,
    runs: Seq<Run>,
    pending: Option<PendingRun>,
)
    requires
        0 <= page <= end <= u64::MAX,
        page % 4096 == 0,
        end % 4096 == 0,
        plan_pages(phdrs, load_base, cap, end, page, runs, pending).1 is None,
        runs_maximal(runs),
        match pending {
            Some(p) => p.end() == page && p.pages >= 1 && (runs.len() > 0 ==> pending_starts_anew(
                runs.last(),
                p,
            )),
            None => runs.len() > 0 ==> runs.last().va + runs.last().bytes < page,
        },
    ensures
        runs_maximal(plan_pages(phdrs, load_base, cap, end, page, runs, pending).0),
    decreases end - page + 4096,
{
    let flushed = emitted(pending, load_base, cap, runs);
    if flushed is Ok {
        let done = flushed->Ok_0;
        assert forall|i: int, j: int| 0 <= i && j == i + 1 && j < done.len() implies run_starts_anew(
            #[trigger] done[i],
            #[trigger] done[j],
        ) by {
            if j < runs.len() {
                assert(run_starts_anew(runs[i], runs[j]));
            } else {
                assert(done[i] == runs.last());
            }
        }
    }
    if page < end {
        match classify(phdrs, load_base, page) {
            Err(_) => {},
            Ok(None) => {
                lemma_plan_maximal(
                    phdrs,
                    load_base,
                    cap,
                    end,
                    page + 4096,
                    flushed->Ok_0,
                    None,
                );
            },
            Ok(Some(info)) => {
                if pending is Some && pending->0.joins(info, page) {
                    lemma_plan_maximal(
                        phdrs,
                        load_base,
                        cap,
                        end,
                        page + 4096,
                        runs,
                        Some(pending->0.extended(info)),
                    );
                } else {
                    lemma_plan_maximal(
                        phdrs,
                        load_base,
                        cap,
                        end,
                        page + 4096,
                        flushed->Ok_0,
                        Some(first_page(info, page)),
                    );
                }
            },
        }
    }
}

/// The runs of an accepted image are maximal: two runs that touch differ in
/// protection or in share class, or are parted by a zero gap.
pub proof fn lemma_plan_is_maximal(phdrs: Seq<Elf64Phdr>, load_base: u64, cap: nat)
    requires
        plan_outcome(phdrs, load_base, cap).1 is None,
    ensures
        runs_maximal(plan_outcome(phdrs, load_base, cap).0),
{
    if any_load(phdrs) {
        lemma_span_order(phdrs);
        let lo = envelope_lo(phdrs, load_base);
        let hi = envelope_hi(phdrs, load_base);
        lemma_plan_maximal(phdrs, load_base, cap, hi, lo, Seq::empty(), None);
    }
}

// ---------------------------------------------------------------------------
// What is at an address
// ---------------------------------------------------------------------------

/// Whether an address is in the memory of a loadable segment.
pub open spec fn in_segment(ph: Elf64Phdr, load_base: u64, a: int) -> bool {
    ph.p_type == 1 && load_base + ph.p_vaddr <= a < load_base + ph.p_vaddr + ph.p_memsz
}

proof fn lemma_page_file_end(
    phdrs: Seq<Elf64Phdr>,
    load_base: u64,
    page: int,
    n: int,
    k: int,
    a: int,
)
    requires
        0 <= n <= phdrs.len(),
        page <= a,
    ensures
        0 <= k < n && covers(phdrs[k], load_base, page) && a < page + 4096 && a < load_base
            + phdrs[k].p_vaddr + phdrs[k].p_filesz ==> page_file_end(phdrs, load_base, page, n) > a,
        (forall|m: int|
            0 <= m < n && covers(#[trigger] phdrs[m], load_base, page) ==> load_base
                + phdrs[m].p_vaddr + phdrs[m].p_filesz <= a) ==> page_file_end(
            phdrs,
            load_base,
            page,
            n,
        ) <= a,
    decreases n,
{
    if n > 0 {
        lemma_page_file_end(phdrs, load_base, page, n - 1, k, a);
    }
}

/// Every address of a segment is in a run of an accepted image. What is there is
/// the byte of the file that is as far into the segment; past the segment's file
/// part it is zero, where no segment has a file byte further on in the same page.
/// The address is readable, and writable and executable if the segment is.
pub proof fn lemma_planned_bytes(
    phdrs: Seq<Elf64Phdr>,
    load_base: u64,
    cap: nat,
    k: int,
    a: int,
) -> (i: int)
    requires
        load_base % 4096 == 0,
        plan_outcome(phdrs, load_base, cap).1 is None,
        0 <= k < phdrs.len(),
        in_segment(phdrs[k], load_base, a),
    ensures
        ({
            let runs = plan_outcome(phdrs, load_base, cap).0;
            let ph = phdrs[k];
            &&& 0 <= i < runs.len()
            &&& runs[i].va <= a < runs[i].va + runs[i].bytes
            &&& a < load_base + ph.p_vaddr + ph.p_filesz ==> source_offset(runs[i], a) == Some(
                ph.p_offset + (a - load_base - ph.p_vaddr),
            )
            &&& (forall|m: int|
                0 <= m < phdrs.len() && (#[trigger] phdrs[m]).p_type == 1 ==> load_base
                    + phdrs[m].p_vaddr + phdrs[m].p_filesz <= a || load_base + phdrs[m].p_vaddr
                    >= a / 4096 * 4096 + 4096) ==> source_offset(runs[i], a) is None
            &&& runs[i].prot.0 & 1 != 0
            &&& ph.p_flags & 2 != 0 ==> runs[i].prot.0 & 2 != 0
            &&& ph.p_flags & 1 != 0 ==> runs[i].prot.0 & 4 != 0
        }),
{
    let runs = plan_outcome(phdrs, load_base, cap).0;
    let ph = phdrs[k];
    let page = a / 4096 * 4096;
    let n = phdrs.len() as int;
    assert(is_load(ph) && loaded(ph));
    assert(!skewed(ph));
    assert(covers(ph, load_base, page));
    lemma_span_covers(phdrs, n, k);
    let lo = envelope_lo(phdrs, load_base);
    let hi = envelope_hi(phdrs, load_base);
    assert(lo <= page < hi && page % 4096 == 0);
    lemma_plan(phdrs, load_base, cap);
    assert(page_used(phdrs, load_base, page));
    assert(classify(phdrs, load_base, page) is Ok);
    let info = classify(phdrs, load_base, page)->Ok_0->0;
    let i = choose|i: int| 0 <= i < runs.len() && run_holds(#[trigger] runs[i], page, info.prot);
    assert(run_holds(runs[i], page, info.prot));
    lemma_plan_sources_are_right(phdrs, load_base, cap, i);
    lemma_plan_protects_pages(phdrs, load_base, cap, i, page);
    assert(runs[i].va % 4096 == 0 && runs[i].bytes % 4096 == 0);
    lemma_page_file_end(phdrs, load_base, page, n, k, a);
    if runs[i].source is CleanFromCodeMo {
        assert(page_backed(phdrs, load_base, page));
        assert(segment_backed(ph, load_base, page));
    } else {
        assert(file_end(phdrs, load_base, page) == page_file_end(phdrs, load_base, page, n));
    }
    assert forall|m: int|
        (forall|m: int|
            0 <= m < phdrs.len() && (#[trigger] phdrs[m]).p_type == 1 ==> load_base
                + phdrs[m].p_vaddr + phdrs[m].p_filesz <= a || load_base + phdrs[m].p_vaddr >= page
                + 4096) && 0 <= m < n && covers(#[trigger] phdrs[m], load_base, page) implies load_base
        + phdrs[m].p_vaddr + phdrs[m].p_filesz <= a by {}
    i
}

/// A page of a run of an accepted image has a byte of a segment, and is writable
/// or executable only where it has one of a segment that is.
pub proof fn lemma_planned_pages_are_used(
    phdrs: Seq<Elf64Phdr>,
    load_base: u64,
    cap: nat,
    i: int,
    page: int,
)
    requires
        plan_outcome(phdrs, load_base, cap).1 is None,
        0 <= i < plan_outcome(phdrs, load_base, cap).0.len(),
        page % 4096 == 0,
        ({
            let run = plan_outcome(phdrs, load_base, cap).0[i];
            run.va <= page < run.va + run.bytes
        }),
    ensures
        exists|k: int, a: int|
            0 <= k < phdrs.len() && page <= a < page + 4096 && #[trigger] in_segment(
                phdrs[k],
                load_base,
                a,
            ),
        plan_outcome(phdrs, load_base, cap).0[i].prot.0 & 2 != 0 ==> exists|k: int, a: int|
            0 <= k < phdrs.len() && page <= a < page + 4096 && phdrs[k].p_flags & 2 != 0
                && #[trigger] in_segment(phdrs[k], load_base, a),
        plan_outcome(phdrs, load_base, cap).0[i].prot.0 & 4 != 0 ==> exists|k: int, a: int|
            0 <= k < phdrs.len() && page <= a < page + 4096 && phdrs[k].p_flags & 1 != 0
                && #[trigger] in_segment(phdrs[k], load_base, a),
{
    let runs = plan_outcome(phdrs, load_base, cap).0;
    lemma_plan(phdrs, load_base, cap);
    lemma_plan_protects_pages(phdrs, load_base, cap, i, page);
    let run = runs[i];
    assert(run.va >= envelope_lo(phdrs, load_base));
    assert(run.va + run.bytes <= envelope_hi(phdrs, load_base));
    assert(classify(phdrs, load_base, page) is Ok);
    assert(page_used(phdrs, load_base, page));
    let k = choose|k: int| 0 <= k < phdrs.len() && covers(#[trigger] phdrs[k], load_base, page);
    lemma_covered_byte(phdrs[k], load_base, page);
    if page_write(phdrs, load_base, page) {
        let k = choose|k: int|
            0 <= k < phdrs.len() && covers(#[trigger] phdrs[k], load_base, page)
                && phdrs[k].p_flags & 2 != 0;
        lemma_covered_byte(phdrs[k], load_base, page);
    }
    if page_exec(phdrs, load_base, page) {
        let k = choose|k: int|
            0 <= k < phdrs.len() && covers(#[trigger] phdrs[k], load_base, page)
                && phdrs[k].p_flags & 1 != 0;
        lemma_covered_byte(phdrs[k], load_base, page);
    }
}

proof fn lemma_covered_byte(ph: Elf64Phdr, load_base: u64, page: int)
    requires
        covers(ph, load_base, page),
    ensures
        exists|a: int| page <= a < page + 4096 && #[trigger] in_segment(ph, load_base, a),
{
    let start = load_base + ph.p_vaddr;
    let a = if start < page {
        page
    } else {
        start
    };
    assert(in_segment(ph, load_base, a));
}

/// The envelope of an accepted image is whole pages that hold the memory of every
/// loadable segment; the entry point is moved like the image.
pub proof fn lemma_envelope_holds_segments(
    phdrs: Seq<Elf64Phdr>,
    load_base: u64,
    cap: nat,
    entry: u64,
    k: int,
    a: int,
)
    requires
        plan_outcome(phdrs, load_base, cap).1 is None,
        load_base % 4096 == 0,
        0 <= k < phdrs.len(),
        in_segment(phdrs[k], load_base, a),
    ensures
        ({
            let e = plan_envelope(phdrs, load_base, entry);
            &&& e.base % 4096 == 0 && e.bytes % 4096 == 0
            &&& e.base <= a < e.base + e.bytes
            &&& e.load_base == load_base
            &&& (e.entry_pc - load_base - entry) % 0x1_0000_0000_0000_0000 == 0
        }),
{
    assert(is_load(phdrs[k]));
    lemma_span_covers(phdrs, phdrs.len() as int, k);
    lemma_span_order(phdrs);
}

} // verus!
