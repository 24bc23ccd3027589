//! What the steps of loading an image leave in memory.
//!
//! The steps are given a meaning of their own here: frames that are filled one
//! after the other. What is proved of it is what an image should look like in
//! memory: the bytes of the file where its headers put them, zeroes elsewhere.
use crate::loader::boot::elf_loader::{
    after_page, after_segment, after_segments, any_load, declared_rela_table, dynamic_extent,
    file_offset_from, highest_end, is_load_plan, layout_error, lemma_page_index, load_delta,
    lowest_vaddr, page_copy, page_index, page_total, rela_table_from, relative_type, relative_write,
    relocation_writes, segment_end, segment_flags, segment_start, segment_vaddr,
    segments_representable, ElfLoadPlan,
    LoadState, LoadStep, PageCopy, PageEntry, PageFlags, PageWrite, RelaTable,
};
use crate::loader::boot::pe_loader::{
    after_headers, after_section, after_sections, all_adds, block_adds, blocks_adds,
    file_offset_of, header_copy, info_directory, info_section, is_loaded, is_pe_load_plan,
    loaded_size, pe_addresses_fit, pe_info_of, pe_load_state, section_copy, section_flags,
    section_page_end, word_slot, PageAdd, PeInfo, PeLoadPlan,
};
use crate::loader::boot::phdr_table::file_phdrs;
use crate::loader::bytes::{le_u16, le_u32, le_u64};
use crate::loader::elf::header::{is_load, Arch};
use crate::loader::elf::types::{page_ceil, page_floor, rela_type, Elf64Phdr};
use crate::loader::pe::header::SectionView;
use vstd::prelude::*;

verus! {

// ---------------------------------------------------------------------------
// Frames
// ---------------------------------------------------------------------------

/// A page after a copy from the file.
pub open spec fn filled(page: Seq<u8>, file: Seq<u8>, copy: Option<PageCopy>) -> Seq<u8> {
    match copy {
        None => page,
        Some(c) => Seq::new(
            page.len(),
            |i: int|
                if c.dst_offset <= i < c.dst_offset + c.len {
                    file[c.src_offset + (i - c.dst_offset)]
                } else {
                    page[i]
                },
        ),
    }
}

/// The contents of the frames after the steps: a new frame is zeroed, then filled.
pub open spec fn frames(file: Seq<u8>, steps: Seq<LoadStep>) -> Seq<Seq<u8>>
    decreases steps.len(),
{
    if steps.len() == 0 {
        Seq::empty()
    } else {
        let before = frames(file, steps.drop_last());
        match steps.last() {
            LoadStep::NewPage { entry: _, copy } => before.push(
                filled(Seq::new(4096, |i: int| 0u8), file, copy),
            ),
            LoadStep::Refill { page, copy, remap: _ } => before.update(
                page as int,
                filled(before[page as int], file, copy),
            ),
        }
    }
}

/// How the frames are mapped after the steps.
pub open spec fn rights(steps: Seq<LoadStep>) -> Seq<PageFlags>
    decreases steps.len(),
{
    if steps.len() == 0 {
        Seq::empty()
    } else {
        let before = rights(steps.drop_last());
        match steps.last() {
            LoadStep::NewPage { entry, copy: _ } => before.push(entry.flags),
            LoadStep::Refill { page, copy: _, remap } => match remap {
                Some(f) => before.update(page as int, f),
                None => before,
            },
        }
    }
}

/// Where the frames are mapped after the steps.
pub open spec fn places(steps: Seq<LoadStep>) -> Seq<u64>
    decreases steps.len(),
{
    if steps.len() == 0 {
        Seq::empty()
    } else {
        let before = places(steps.drop_last());
        match steps.last() {
            LoadStep::NewPage { entry, copy: _ } => before.push(entry.vaddr),
            LoadStep::Refill { .. } => before,
        }
    }
}

/// Whether the frames are those of the pages: each page has one frame, mapped at
/// its address with its permissions, and no address has two.
pub open spec fn steps_make_pages(file: Seq<u8>, state: LoadState) -> bool {
    let n = state.pages.len();
    &&& frames(file, state.steps).len() == n
    &&& rights(state.steps).len() == n
    &&& places(state.steps).len() == n
    &&& forall|q: int|
        0 <= q < n ==> {
            &&& frames(file, state.steps)[q].len() == 4096
            &&& rights(state.steps)[q] == (#[trigger] state.pages[q]).flags
            &&& places(state.steps)[q] == state.pages[q].vaddr
        }
    &&& forall|q: int, r: int|
        0 <= q < r < n ==> (#[trigger] state.pages[q]).vaddr != (#[trigger] state.pages[r]).vaddr
}

// ---------------------------------------------------------------------------
// One page
// ---------------------------------------------------------------------------

spec fn at_page(state: LoadState, page: int) -> int {
    page_index(state.pages, page, 0)
}

spec fn has_page(state: LoadState, page: int) -> bool {
    at_page(state, page) < state.pages.len()
}

/// The byte at an address, 0 where there is no page.
spec fn byte_at(file: Seq<u8>, state: LoadState, a: int) -> u8 {
    let k = at_page(state, page_floor(a));
    if k < state.pages.len() {
        frames(file, state.steps)[k][a - page_floor(a)]
    } else {
        0
    }
}

spec fn is_writable(state: LoadState, page: int) -> bool {
    has_page(state, page) && state.pages[at_page(state, page)].flags.writable
}

spec fn is_executable(state: LoadState, page: int) -> bool {
    has_page(state, page) && state.pages[at_page(state, page)].flags.executable
}

/// Whether a copy fills byte `i` of its page.
pub open spec fn fills(copy: Option<PageCopy>, i: int) -> bool {
    match copy {
        Some(c) => c.dst_offset <= i < c.dst_offset + c.len,
        None => false,
    }
}

spec fn source(copy: Option<PageCopy>, i: int) -> int {
    copy->0.src_offset + (i - copy->0.dst_offset)
}

proof fn lemma_page_index_is(pages: Seq<PageEntry>, vaddr: int, k: int)
    requires
        0 <= k < pages.len(),
        pages[k].vaddr == vaddr,
        forall|q: int, r: int|
            0 <= q < r < pages.len() ==> (#[trigger] pages[q]).vaddr != (#[trigger] pages[r]).vaddr,
    ensures
        page_index(pages, vaddr, 0) == k,
{
    lemma_page_index(pages, vaddr, 0);
    let j = page_index(pages, vaddr, 0);
    if j < k {
        assert(pages[j].vaddr != pages[k].vaddr);
    } else if k < j {
        assert(pages[k].vaddr != vaddr);
    }
}

/// What loading one page does.
pub proof fn lemma_page_step(
    file: Seq<u8>,
    state: LoadState,
    page: int,
    flags: PageFlags,
    copy: Option<PageCopy>,
)
    requires
        steps_make_pages(file, state),
        state.pages.len() < usize::MAX,
        0 <= page <= u64::MAX,
    ensures
        steps_make_pages(file, after_page(state, page, flags, copy)),
        after_page(state, page, flags, copy).pages.len() <= state.pages.len() + 1,
{
    let k = page_index(state.pages, page, 0);
    lemma_page_index(state.pages, page, 0);
    let next = after_page(state, page, flags, copy);
    assert(next.steps.drop_last() =~= state.steps);
    let before = frames(file, state.steps);
    if k < state.pages.len() {
        assert(state.pages[k].vaddr == page);
        assert(before[k].len() == 4096) by {
            assert(rights(state.steps)[k] == state.pages[k].flags);
        }
        assert(frames(file, next.steps) == before.update(k, filled(before[k], file, copy)));
        assert(places(next.steps) == places(state.steps));
        assert(rights(next.steps).len() == state.pages.len());
        assert forall|q: int| 0 <= q < next.pages.len() implies (#[trigger] frames(
            file,
            next.steps,
        )[q]).len() == 4096 by {
            assert(rights(state.steps)[q] == state.pages[q].flags);
        }
        assert forall|q: int, r: int| 0 <= q < r < next.pages.len() implies (
        #[trigger] next.pages[q]).vaddr != (#[trigger] next.pages[r]).vaddr by {
            assert(state.pages[q].vaddr != state.pages[r].vaddr);
        }
        assert forall|q: int| 0 <= q < next.pages.len() implies {
            &&& frames(file, next.steps)[q].len() == 4096
            &&& rights(next.steps)[q] == (#[trigger] next.pages[q]).flags
            &&& places(next.steps)[q] == next.pages[q].vaddr
        } by {
            assert(rights(state.steps)[q] == state.pages[q].flags);
        }
    } else {
        assert(frames(file, next.steps) == before.push(
            filled(Seq::new(4096, |i: int| 0u8), file, copy),
        ));
        assert(places(next.steps) == places(state.steps).push(page as u64));
        assert(rights(next.steps) == rights(state.steps).push(flags));
        assert forall|q: int| 0 <= q < next.pages.len() implies (#[trigger] frames(
            file,
            next.steps,
        )[q]).len() == 4096 by {
            if q < state.pages.len() {
                assert(rights(state.steps)[q] == state.pages[q].flags);
            }
        }
        assert forall|q: int| 0 <= q < next.pages.len() implies {
            &&& frames(file, next.steps)[q].len() == 4096
            &&& rights(next.steps)[q] == (#[trigger] next.pages[q]).flags
            &&& places(next.steps)[q] == next.pages[q].vaddr
        } by {
            if q < state.pages.len() {
                assert(rights(state.steps)[q] == state.pages[q].flags);
            }
        }
        assert forall|q: int, r: int| 0 <= q < r < next.pages.len() implies (
        #[trigger] next.pages[q]).vaddr != (#[trigger] next.pages[r]).vaddr by {
            assert(next.pages[q] == state.pages[q]);
            if r < state.pages.len() {
                assert(state.pages[q].vaddr != state.pages[r].vaddr);
            }
        }
    }
}

proof fn lemma_page_effect(
    file: Seq<u8>,
    state: LoadState,
    page: int,
    flags: PageFlags,
    copy: Option<PageCopy>,
    a: int,
)
    requires
        steps_make_pages(file, state),
        state.pages.len() < usize::MAX,
        0 <= page <= u64::MAX,
        page % 4096 == 0,
        0 <= a,
        !(flags.writable && flags.executable),
    ensures
        ({
            let next = after_page(state, page, flags, copy);
            let pg = page_floor(a);
            &&& has_page(next, pg) == (has_page(state, pg) || page == pg)
            &&& byte_at(file, next, a) == if page == pg && fills(copy, a - pg) {
                file[source(copy, a - pg)]
            } else {
                byte_at(file, state, a)
            }
            &&& is_writable(next, pg) == (is_writable(state, pg) || (page == pg
                && flags.writable))
            &&& is_executable(next, pg) == if page == pg {
                !is_writable(next, pg) && (is_executable(state, pg) || flags.executable)
            } else {
                is_executable(state, pg)
            }
        }),
{
    let k = page_index(state.pages, page, 0);
    lemma_page_index(state.pages, page, 0);
    lemma_page_step(file, state, page, flags, copy);
    let next = after_page(state, page, flags, copy);
    let pg = page_floor(a);
    let kp = page_index(state.pages, pg, 0);
    lemma_page_index(state.pages, pg, 0);
    lemma_page_index(next.pages, pg, 0);
    assert(next.steps.drop_last() =~= state.steps);
    if k < state.pages.len() {
        lemma_page_index_is(next.pages, page, k);
        if pg != page && kp < state.pages.len() {
            assert(next.pages[kp] == state.pages[kp]);
            lemma_page_index_is(next.pages, pg, kp);
        }
        if pg != page && kp >= state.pages.len() && page_index(next.pages, pg, 0)
            < next.pages.len() {
            let q = page_index(next.pages, pg, 0);
            assert(q == k || next.pages[q] == state.pages[q]);
        }
    } else {
        let n = state.pages.len() as int;
        assert(next.pages[n].vaddr == page);
        lemma_page_index_is(next.pages, page, n);
        if pg != page && kp < state.pages.len() {
            assert(next.pages[kp] == state.pages[kp]);
            lemma_page_index_is(next.pages, pg, kp);
        }
        if pg != page && kp >= state.pages.len() && page_index(next.pages, pg, 0)
            < next.pages.len() {
            let q = page_index(next.pages, pg, 0);
            assert(q == n || next.pages[q] == state.pages[q]);
        }
    }
    assert(0 <= a - pg < 4096);
    if kp < state.pages.len() {
        assert(frames(file, state.steps)[kp].len() == 4096) by {
            assert(rights(state.steps)[kp] == state.pages[kp].flags);
        }
    }
}

// ---------------------------------------------------------------------------
// Segments
// ---------------------------------------------------------------------------

proof fn lemma_segment_effect(
    file: Seq<u8>,
    ph: Elf64Phdr,
    delta: u64,
    page: int,
    state: LoadState,
    a: int,
)
    requires
        steps_make_pages(file, state),
        0 <= page,
        page % 4096 == 0,
        page <= segment_end(ph, delta) <= u64::MAX,
        segment_end(ph, delta) % 4096 == 0,
        state.pages.len() + (segment_end(ph, delta) - page) / 4096 <= usize::MAX,
        0 <= a,
    ensures
        ({
            let next = after_segment(ph, delta, file.len() as int, page, state);
            let pg = page_floor(a);
            let here = page <= pg < segment_end(ph, delta);
            let copy = page_copy(ph, delta, pg, file.len() as int);
            let f = segment_flags(ph.p_flags);
            &&& steps_make_pages(file, next)
            &&& next.pages.len() <= state.pages.len() + (segment_end(ph, delta) - page) / 4096
            &&& has_page(next, pg) == (has_page(state, pg) || here)
            &&& byte_at(file, next, a) == if here && fills(copy, a - pg) {
                file[source(copy, a - pg)]
            } else {
                byte_at(file, state, a)
            }
            &&& is_writable(next, pg) == (is_writable(state, pg) || (here && f.writable))
            &&& is_executable(next, pg) == if here {
                !is_writable(next, pg) && (is_executable(state, pg) || f.executable)
            } else {
                is_executable(state, pg)
            }
        }),
    decreases segment_end(ph, delta) - page + 4096,
{
    if page < segment_end(ph, delta) {
        let copy = page_copy(ph, delta, page, file.len() as int);
        let f = segment_flags(ph.p_flags);
        let next = after_page(state, page, f, copy);
        lemma_page_step(file, state, page, f, copy);
        lemma_page_effect(file, state, page, f, copy, a);
        lemma_segment_effect(file, ph, delta, page + 4096, next, a);
    }
}

/// Where segment `i` starts in memory.
pub open spec fn placed_at(phdrs: Seq<Elf64Phdr>, delta: u64, i: int) -> int {
    (phdrs[i].p_vaddr + delta) % 0x1_0000_0000_0000_0000
}

/// Whether the file part of loadable segment `i` has an address.
pub open spec fn in_file_part(phdrs: Seq<Elf64Phdr>, delta: u64, i: int, a: int) -> bool {
    &&& 0 <= i < phdrs.len()
    &&& phdrs[i].p_type == 1
    &&& placed_at(phdrs, delta, i) <= a < placed_at(phdrs, delta, i) + phdrs[i].p_filesz
}

/// Whether the memory of loadable segment `i` reaches into a page.
pub open spec fn reaches_page(phdrs: Seq<Elf64Phdr>, delta: u64, i: int, page: int) -> bool {
    &&& 0 <= i < phdrs.len()
    &&& phdrs[i].p_type == 1
    &&& placed_at(phdrs, delta, i) < page + 4096
    &&& page < placed_at(phdrs, delta, i) + phdrs[i].p_memsz
}

proof fn lemma_one_segment(
    file: Seq<u8>,
    phdrs: Seq<Elf64Phdr>,
    delta: u64,
    i: int,
    state: LoadState,
    a: int,
)
    requires
        0 <= i < phdrs.len(),
        is_load(phdrs[i]),
        segments_representable(phdrs, delta),
        file.len() <= usize::MAX,
        steps_make_pages(file, state),
        state.pages.len() + (segment_end(phdrs[i], delta) - segment_start(phdrs[i], delta)) / 4096
            <= usize::MAX,
        0 <= a,
    ensures
        ({
            let ph = phdrs[i];
            let next = after_segment(
                ph,
                delta,
                file.len() as int,
                segment_start(ph, delta),
                state,
            );
            let pg = page_floor(a);
            let here = reaches_page(phdrs, delta, i, pg);
            let v = placed_at(phdrs, delta, i);
            &&& steps_make_pages(file, next)
            &&& next.pages.len() <= state.pages.len() + (segment_end(ph, delta) - segment_start(
                ph,
                delta,
            )) / 4096
            &&& has_page(next, pg) == (has_page(state, pg) || here)
            &&& in_file_part(phdrs, delta, i, a) && here && ph.p_offset + ph.p_filesz <= file.len()
                ==> byte_at(file, next, a) == file[ph.p_offset + (a - v)]
            &&& !in_file_part(phdrs, delta, i, a) ==> byte_at(file, next, a) == byte_at(
                file,
                state,
                a,
            )
            &&& is_writable(next, pg) == (is_writable(state, pg) || (here && ph.p_flags & 2 != 0))
            &&& is_executable(next, pg) == if here {
                !is_writable(next, pg) && (is_executable(state, pg) || ph.p_flags & 1 != 0)
            } else {
                is_executable(state, pg)
            }
        }),
{
    let ph = phdrs[i];
    let start = segment_start(ph, delta);
    let v = placed_at(phdrs, delta, i);
    assert(segment_vaddr(ph, delta) == v);
    lemma_segment_effect(file, ph, delta, start, state, a);
}

proof fn lemma_segments_effect(
    file: Seq<u8>,
    phdrs: Seq<Elf64Phdr>,
    delta: u64,
    n: int,
    a: int,
)
    requires
        0 <= n <= phdrs.len(),
        segments_representable(phdrs, delta),
        file.len() <= usize::MAX,
        page_total(phdrs, delta, n) <= usize::MAX,
        0 <= a,
    ensures
        ({
            let state = after_segments(phdrs, delta, file.len() as int, n);
            let pg = page_floor(a);
            &&& steps_make_pages(file, state)
            &&& state.pages.len() <= page_total(phdrs, delta, n)
            &&& page_total(phdrs, delta, n) >= 0
            &&& has_page(state, pg) <==> exists|i: int|
                i < n && #[trigger] reaches_page(phdrs, delta, i, pg)
            &&& (forall|i: int| i < n ==> !#[trigger] in_file_part(phdrs, delta, i, a)) ==> byte_at(
                file,
                state,
                a,
            ) == 0
            &&& is_writable(state, pg) <==> exists|i: int|
                i < n && #[trigger] reaches_page(phdrs, delta, i, pg) && phdrs[i].p_flags & 2 != 0
            &&& is_executable(state, pg) <==> !is_writable(state, pg) && exists|i: int|
                i < n && #[trigger] reaches_page(phdrs, delta, i, pg) && phdrs[i].p_flags & 1 != 0
        }),
    decreases n,
{
    let pg = page_floor(a);
    if n > 0 {
        let ph = phdrs[n - 1];
        assert(is_load(ph) ==> segment_start(ph, delta) <= segment_end(ph, delta));
        lemma_segments_effect(file, phdrs, delta, n - 1, a);
        let before = after_segments(phdrs, delta, file.len() as int, n - 1);
        let state = after_segments(phdrs, delta, file.len() as int, n);
        if is_load(ph) {
            lemma_one_segment(file, phdrs, delta, n - 1, before, a);
        }
        let here = reaches_page(phdrs, delta, n - 1, pg);
        if has_page(before, pg) {
            let i = choose|i: int| i < n - 1 && #[trigger] reaches_page(phdrs, delta, i, pg);
            assert(reaches_page(phdrs, delta, i, pg));
        }
        if is_writable(before, pg) {
            let i = choose|i: int|
                i < n - 1 && #[trigger] reaches_page(phdrs, delta, i, pg) && phdrs[i].p_flags & 2
                    != 0;
            assert(reaches_page(phdrs, delta, i, pg));
        }
        if is_executable(before, pg) {
            let i = choose|i: int|
                i < n - 1 && #[trigger] reaches_page(phdrs, delta, i, pg) && phdrs[i].p_flags & 1
                    != 0;
            assert(reaches_page(phdrs, delta, i, pg));
        }
        assert(here ==> is_load(ph));
    } else {
        let state = after_segments(phdrs, delta, file.len() as int, n);
        assert(frames(file, state.steps).len() == 0);
        assert(rights(state.steps).len() == 0);
        assert(places(state.steps).len() == 0);
    }
}

proof fn lemma_file_bytes(
    file: Seq<u8>,
    phdrs: Seq<Elf64Phdr>,
    delta: u64,
    n: int,
    k: int,
    a: int,
)
    requires
        0 <= k < n <= phdrs.len(),
        segments_representable(phdrs, delta),
        file.len() <= usize::MAX,
        page_total(phdrs, delta, n) <= usize::MAX,
        in_file_part(phdrs, delta, k, a),
        reaches_page(phdrs, delta, k, page_floor(a)),
        phdrs[k].p_offset + phdrs[k].p_filesz <= file.len(),
        forall|i: int| k < i < n ==> !#[trigger] in_file_part(phdrs, delta, i, a),
    ensures
        byte_at(file, after_segments(phdrs, delta, file.len() as int, n), a)
            == file[phdrs[k].p_offset + (a - placed_at(phdrs, delta, k))],
    decreases n,
{
    let ph = phdrs[n - 1];
    assert(is_load(ph) ==> segment_start(ph, delta) <= segment_end(ph, delta));
    lemma_segments_effect(file, phdrs, delta, n - 1, a);
    let before = after_segments(phdrs, delta, file.len() as int, n - 1);
    if is_load(ph) {
        lemma_one_segment(file, phdrs, delta, n - 1, before, a);
    }
    if k < n - 1 {
        lemma_file_bytes(file, phdrs, delta, n - 1, k, a);
        assert(!in_file_part(phdrs, delta, n - 1, a));
    }
}

// ---------------------------------------------------------------------------
// Images
// ---------------------------------------------------------------------------

/// Whether a planned image has a byte at an address once its steps are done: the
/// frame at the address's page has it.
pub open spec fn has_byte(file: Seq<u8>, plan: ElfLoadPlan, a: int, b: u8) -> bool {
    exists|q: int|
        0 <= q < places(plan.steps@).len() && #[trigger] places(plan.steps@)[q] == a / 4096 * 4096
            && frames(file, plan.steps@)[q][a % 4096] == b
}

/// The file bytes of a segment are in memory where the segment is: the byte at
/// an address is the one as far into the segment's part of the file as the address
/// is into the segment, unless a later segment puts another one there.
pub proof fn lemma_segment_bytes_are_loaded(
    file: Seq<u8>,
    arch: Arch,
    load_base: u64,
    plan: ElfLoadPlan,
    k: int,
    a: int,
)
    requires
        is_load_plan(file, arch, load_base, plan),
        layout_error(file_phdrs(file), load_delta(file, load_base)) is None,
        segments_representable(file_phdrs(file), load_delta(file, load_base)),
        file.len() <= usize::MAX,
        in_file_part(file_phdrs(file), load_delta(file, load_base), k, a),
        a < placed_at(file_phdrs(file), load_delta(file, load_base), k) + file_phdrs(
            file,
        )[k].p_memsz,
        file_phdrs(file)[k].p_offset + file_phdrs(file)[k].p_filesz <= file.len(),
        forall|i: int|
            k < i ==> !#[trigger] in_file_part(
                file_phdrs(file),
                load_delta(file, load_base),
                i,
                a,
            ),
    ensures
        has_byte(
            file,
            plan,
            a,
            file[file_phdrs(file)[k].p_offset + (a - placed_at(
                file_phdrs(file),
                load_delta(file, load_base),
                k,
            ))],
        ),
{
    let phdrs = file_phdrs(file);
    let delta = load_delta(file, load_base);
    let n = phdrs.len() as int;
    let state = after_segments(phdrs, delta, file.len() as int, n);
    let pg = page_floor(a);
    assert(reaches_page(phdrs, delta, k, pg));
    lemma_segments_effect(file, phdrs, delta, n, a);
    lemma_file_bytes(file, phdrs, delta, n, k, a);
    lemma_page_index(state.pages, pg, 0);
    let q = at_page(state, pg);
    assert(places(plan.steps@)[q] == state.pages[q].vaddr);
}

/// The memory of a segment that no segment has file bytes for is zero.
pub proof fn lemma_rest_of_segment_is_zero(
    file: Seq<u8>,
    arch: Arch,
    load_base: u64,
    plan: ElfLoadPlan,
    k: int,
    a: int,
)
    requires
        is_load_plan(file, arch, load_base, plan),
        layout_error(file_phdrs(file), load_delta(file, load_base)) is None,
        segments_representable(file_phdrs(file), load_delta(file, load_base)),
        file.len() <= usize::MAX,
        0 <= a,
        reaches_page(file_phdrs(file), load_delta(file, load_base), k, a / 4096 * 4096),
        forall|i: int|
            !#[trigger] in_file_part(file_phdrs(file), load_delta(file, load_base), i, a),
    ensures
        has_byte(file, plan, a, 0),
{
    let phdrs = file_phdrs(file);
    let delta = load_delta(file, load_base);
    let n = phdrs.len() as int;
    let state = after_segments(phdrs, delta, file.len() as int, n);
    let pg = page_floor(a);
    lemma_segments_effect(file, phdrs, delta, n, a);
    lemma_page_index(state.pages, pg, 0);
    let q = at_page(state, pg);
    assert(places(plan.steps@)[q] == state.pages[q].vaddr);
}

/// A page is mapped if a segment reaches into it, and only then; it is writable
/// if one of those segments is, and executable if one is and none is writable.
pub proof fn lemma_pages_have_their_rights(
    file: Seq<u8>,
    arch: Arch,
    load_base: u64,
    plan: ElfLoadPlan,
    page: int,
)
    requires
        is_load_plan(file, arch, load_base, plan),
        layout_error(file_phdrs(file), load_delta(file, load_base)) is None,
        segments_representable(file_phdrs(file), load_delta(file, load_base)),
        file.len() <= usize::MAX,
        0 <= page,
        page % 4096 == 0,
    ensures
        ({
            let phdrs = file_phdrs(file);
            let delta = load_delta(file, load_base);
            let w = exists|i: int| #[trigger]
                reaches_page(phdrs, delta, i, page) && phdrs[i].p_flags & 2 != 0;
            let x = exists|i: int| #[trigger]
                reaches_page(phdrs, delta, i, page) && phdrs[i].p_flags & 1 != 0;
            &&& places(plan.steps@).len() == rights(plan.steps@).len()
            &&& (exists|q: int|
                0 <= q < places(plan.steps@).len() && #[trigger] places(plan.steps@)[q] == page)
                <==> exists|i: int| #[trigger] reaches_page(phdrs, delta, i, page)
            &&& forall|q: int|
                0 <= q < places(plan.steps@).len() && #[trigger] places(plan.steps@)[q] == page
                    ==> rights(plan.steps@)[q].writable == w && rights(plan.steps@)[q].executable
                    == (x && !w)
        }),
{
    let phdrs = file_phdrs(file);
    let delta = load_delta(file, load_base);
    let n = phdrs.len() as int;
    let state = after_segments(phdrs, delta, file.len() as int, n);
    assert(page_floor(page) == page);
    lemma_segments_effect(file, phdrs, delta, n, page);
    lemma_page_index(state.pages, page, 0);
    let k = at_page(state, page);
    assert forall|i: int| #[trigger] reaches_page(phdrs, delta, i, page) implies i < n by {}
    if has_page(state, page) {
        assert(places(plan.steps@)[k] == state.pages[k].vaddr);
    }
    assert forall|q: int|
        0 <= q < places(plan.steps@).len() && #[trigger] places(plan.steps@)[q] == page implies q
        == k by {
        assert(places(plan.steps@)[q] == state.pages[q].vaddr);
        lemma_page_index_is(state.pages, page, q);
    }
    if has_page(state, page) {
        assert(rights(plan.steps@)[k] == state.pages[k].flags);
    }
}

// ---------------------------------------------------------------------------
// Where an image goes
// ---------------------------------------------------------------------------

proof fn lemma_lowest(phdrs: Seq<Elf64Phdr>, n: int)
    requires
        0 <= n <= phdrs.len(),
    ensures
        forall|i: int|
            0 <= i < n && is_load(#[trigger] phdrs[i]) ==> lowest_vaddr(phdrs, n)
                <= phdrs[i].p_vaddr,
        (exists|i: int| 0 <= i < n && is_load(#[trigger] phdrs[i])) ==> exists|i: int|
            0 <= i < n && is_load(#[trigger] phdrs[i]) && phdrs[i].p_vaddr == lowest_vaddr(
                phdrs,
                n,
            ),
    decreases n,
{
    if n > 0 {
        lemma_lowest(phdrs, n - 1);
        let ph = phdrs[n - 1];
        if exists|i: int| 0 <= i < n && is_load(#[trigger] phdrs[i]) {
            if exists|i: int| 0 <= i < n - 1 && is_load(#[trigger] phdrs[i]) {
                let i = choose|i: int|
                    0 <= i < n - 1 && is_load(#[trigger] phdrs[i]) && phdrs[i].p_vaddr
                        == lowest_vaddr(phdrs, n - 1);
                assert(is_load(phdrs[i]));
            }
            assert(is_load(ph) && lowest_vaddr(phdrs, n) == ph.p_vaddr || lowest_vaddr(phdrs, n)
                == lowest_vaddr(phdrs, n - 1));
            if is_load(ph) && lowest_vaddr(phdrs, n) == lowest_vaddr(phdrs, n - 1) {
                if !(exists|i: int| 0 <= i < n - 1 && is_load(#[trigger] phdrs[i])) {
                    lemma_lowest_without_load(phdrs, n - 1);
                    assert(phdrs[n - 1].p_vaddr == u64::MAX);
                }
            }
        }
    }
}

proof fn lemma_lowest_without_load(phdrs: Seq<Elf64Phdr>, n: int)
    requires
        0 <= n <= phdrs.len(),
        forall|i: int| 0 <= i < n ==> !is_load(#[trigger] phdrs[i]),
    ensures
        lowest_vaddr(phdrs, n) == u64::MAX,
    decreases n,
{
    if n > 0 {
        lemma_lowest_without_load(phdrs, n - 1);
        assert(!is_load(phdrs[n - 1]));
    }
}

/// A position-independent image (file type 3) is moved as a whole, its lowest
/// segment to the load base; any other one stays where it was linked for.
pub proof fn lemma_image_is_moved_to_its_base(file: Seq<u8>, load_base: u64, i: int)
    requires
        0 <= i < file_phdrs(file).len(),
        file_phdrs(file)[i].p_type == 1,
    ensures
        ({
            let phdrs = file_phdrs(file);
            let delta = load_delta(file, load_base);
            if le_u16(file, 16) == 3 {
                exists|k: int|
                    #![trigger phdrs[k]]
                    0 <= k < phdrs.len() && phdrs[k].p_type == 1 && phdrs[k].p_vaddr
                        <= phdrs[i].p_vaddr && placed_at(phdrs, delta, k) == load_base && (
                    placed_at(phdrs, delta, i) - placed_at(phdrs, delta, k) - (phdrs[i].p_vaddr
                        - phdrs[k].p_vaddr)) % 0x1_0000_0000_0000_0000 == 0
            } else {
                placed_at(phdrs, delta, i) == phdrs[i].p_vaddr
            }
        }),
{
    let phdrs = file_phdrs(file);
    let n = phdrs.len() as int;
    let delta = load_delta(file, load_base);
    assert(is_load(phdrs[i]));
    lemma_lowest(phdrs, n);
    if le_u16(file, 16) == 3 {
        let k = choose|k: int|
            0 <= k < n && is_load(#[trigger] phdrs[k]) && phdrs[k].p_vaddr == lowest_vaddr(
                phdrs,
                n,
            );
        assert(is_load(phdrs[k]));
        assert(delta == load_base.wrapping_sub(phdrs[k].p_vaddr));
        assert(placed_at(phdrs, delta, k) == load_base);
    }
}

proof fn lemma_highest(phdrs: Seq<Elf64Phdr>, delta: u64, n: int)
    requires
        0 <= n <= phdrs.len(),
        segments_representable(phdrs, delta),
    ensures
        0 <= highest_end(phdrs, delta, n) <= u64::MAX,
        highest_end(phdrs, delta, n) % 4096 == 0,
        forall|i: int|
            0 <= i < n && is_load(#[trigger] phdrs[i]) ==> placed_at(phdrs, delta, i)
                + phdrs[i].p_memsz <= highest_end(phdrs, delta, n),
        highest_end(phdrs, delta, n) > 0 ==> exists|i: int|
            0 <= i < n && is_load(#[trigger] phdrs[i]) && highest_end(phdrs, delta, n) < placed_at(
                phdrs,
                delta,
                i,
            ) + phdrs[i].p_memsz + 4096,
    decreases n,
{
    if n > 0 {
        lemma_highest(phdrs, delta, n - 1);
        let ph = phdrs[n - 1];
        assert(segment_vaddr(ph, delta) == placed_at(phdrs, delta, n - 1));
        if highest_end(phdrs, delta, n) > 0 {
            if highest_end(phdrs, delta, n) == highest_end(phdrs, delta, n - 1) {
                let i = choose|i: int|
                    0 <= i < n - 1 && is_load(#[trigger] phdrs[i]) && highest_end(
                        phdrs,
                        delta,
                        n - 1,
                    ) < placed_at(phdrs, delta, i) + phdrs[i].p_memsz + 4096;
                assert(is_load(phdrs[i]));
            } else {
                assert(is_load(phdrs[n - 1]));
            }
        }
    }
}

/// What a load reports: the entry point, moved like the image; the load base; and
/// as the break the first page behind all segments.
pub proof fn lemma_load_reports_entry_and_break(
    file: Seq<u8>,
    arch: Arch,
    load_base: u64,
    plan: ElfLoadPlan,
)
    requires
        is_load_plan(file, arch, load_base, plan),
        plan.outcome is Ok,
        segments_representable(file_phdrs(file), load_delta(file, load_base)),
    ensures
        ({
            let phdrs = file_phdrs(file);
            let delta = load_delta(file, load_base);
            let r = plan.outcome->Ok_0;
            &&& (r.entry - le_u64(file, 24) - delta) % 0x1_0000_0000_0000_0000 == 0
            &&& r.base == load_base
            &&& r.brk % 4096 == 0
            &&& forall|i: int|
                0 <= i < phdrs.len() && (#[trigger] phdrs[i]).p_type == 1 ==> placed_at(
                    phdrs,
                    delta,
                    i,
                ) + phdrs[i].p_memsz <= r.brk
            &&& r.brk > 0 ==> exists|i: int|
                0 <= i < phdrs.len() && (#[trigger] phdrs[i]).p_type == 1 && r.brk < placed_at(
                    phdrs,
                    delta,
                    i,
                ) + phdrs[i].p_memsz + 4096
        }),
{
    let phdrs = file_phdrs(file);
    let delta = load_delta(file, load_base);
    let n = phdrs.len() as int;
    lemma_highest(phdrs, delta, n);
    assert forall|i: int|
        0 <= i < phdrs.len() && (#[trigger] phdrs[i]).p_type == 1 implies placed_at(
        phdrs,
        delta,
        i,
    ) + phdrs[i].p_memsz <= plan.outcome->Ok_0.brk by {
        assert(is_load(phdrs[i]));
    }
    if highest_end(phdrs, delta, n) > 0 {
        let i = choose|i: int|
            0 <= i < n && is_load(#[trigger] phdrs[i]) && highest_end(phdrs, delta, n) < placed_at(
                phdrs,
                delta,
                i,
            ) + phdrs[i].p_memsz + 4096;
        assert(phdrs[i].p_type == 1);
    }
}

// ---------------------------------------------------------------------------
// Relocation
// ---------------------------------------------------------------------------

/// Whether a write stores the value at the address, both up to multiples of 2^64.
pub open spec fn writes_word(pages: Seq<PageEntry>, w: PageWrite, addr: int, value: int) -> bool {
    &&& w.page < pages.len()
    &&& w.offset + 8 <= 4096
    &&& (pages[w.page as int].vaddr + w.offset - addr) % 0x1_0000_0000_0000_0000 == 0
    &&& (w.value - value) % 0x1_0000_0000_0000_0000 == 0
}

proof fn lemma_relocation_prefix(
    s: Seq<u8>,
    pages: Seq<PageEntry>,
    arch: Arch,
    delta: u64,
    load_base: u64,
    size: int,
    n: int,
    pos: int,
    writes: Seq<PageWrite>,
)
    ensures
        ({
            let done = relocation_writes(
                s,
                pages,
                arch,
                delta,
                load_base,
                size,
                n,
                pos,
                writes,
            ).0;
            &&& writes.len() <= done.len()
            &&& forall|k: int| 0 <= k < writes.len() ==> done[k] == #[trigger] writes[k]
        }),
    decreases n,
{
    if n > 0 && pos + 24 <= s.len() {
        if rela_type(le_u64(s, pos + 8)) != relative_type(arch) {
            lemma_relocation_prefix(
                s,
                pages,
                arch,
                delta,
                load_base,
                size,
                n - 1,
                pos + size,
                writes,
            );
        } else {
            match relative_write(pages, delta, load_base, le_u64(s, pos), le_u64(s, pos + 16)) {
                None => {},
                Some(w) => {
                    let next = writes.push(w);
                    lemma_relocation_prefix(
                        s,
                        pages,
                        arch,
                        delta,
                        load_base,
                        size,
                        n - 1,
                        pos + size,
                        next,
                    );
                    let done = relocation_writes(
                        s,
                        pages,
                        arch,
                        delta,
                        load_base,
                        size,
                        n,
                        pos,
                        writes,
                    ).0;
                    assert forall|k: int| 0 <= k < writes.len() implies done[k]
                        == #[trigger] writes[k] by {
                        assert(next[k] == writes[k]);
                    }
                },
            }
        }
    }
}

proof fn lemma_relocation_entry(
    s: Seq<u8>,
    pages: Seq<PageEntry>,
    arch: Arch,
    delta: u64,
    load_base: u64,
    size: int,
    n: int,
    pos: int,
    writes: Seq<PageWrite>,
    i: int,
)
    requires
        pages.len() <= usize::MAX,
        0 <= i < n,
        relocation_writes(s, pages, arch, delta, load_base, size, n, pos, writes).1,
        le_u64(s, pos + size * i + 8) as int % 0x1_0000_0000 == match arch {
            Arch::X86_64 => 8int,
            Arch::Aarch64 => 1027int,
        },
    ensures
        ({
            let done = relocation_writes(
                s,
                pages,
                arch,
                delta,
                load_base,
                size,
                n,
                pos,
                writes,
            ).0;
            let p = pos + size * i;
            exists|k: int|
                0 <= k < done.len() && writes_word(
                    pages,
                    #[trigger] done[k],
                    le_u64(s, p) + delta,
                    load_base + le_u64(s, p + 16),
                )
        }),
    decreases n,
{
    let p = pos + size * i;
    if i == 0 {
        assert(size * i == 0) by (nonlinear_arith)
            requires
                i == 0,
        ;
        let w = relative_write(pages, delta, load_base, le_u64(s, pos), le_u64(s, pos + 16))->0;
        let next = writes.push(w);
        lemma_relocation_prefix(
            s,
            pages,
            arch,
            delta,
            load_base,
            size,
            n - 1,
            pos + size,
            next,
        );
        let done = relocation_writes(
            s,
            pages,
            arch,
            delta,
            load_base,
            size,
            n,
            pos,
            writes,
        ).0;
        let k = writes.len() as int;
        assert(next[k] == w);
        assert(done[k] == w);
        let target = le_u64(s, pos).wrapping_add(delta) as int;
        lemma_page_index(pages, page_floor(target), 0);
        assert(writes_word(
            pages,
            done[k],
            le_u64(s, p) + delta,
            load_base + le_u64(s, p + 16),
        ));
    } else {
        assert(pos + size + size * (i - 1) == pos + size * i) by (nonlinear_arith);
        if rela_type(le_u64(s, pos + 8)) != relative_type(arch) {
            lemma_relocation_entry(
                s,
                pages,
                arch,
                delta,
                load_base,
                size,
                n - 1,
                pos + size,
                writes,
                i - 1,
            );
        } else {
            let w = relative_write(
                pages,
                delta,
                load_base,
                le_u64(s, pos),
                le_u64(s, pos + 16),
            )->0;
            lemma_relocation_entry(
                s,
                pages,
                arch,
                delta,
                load_base,
                size,
                n - 1,
                pos + size,
                writes.push(w),
                i - 1,
            );
        }
    }
}

/// Whether entry `i` of the dynamic section, `m` entries from `pos` on with none of
/// type 0 among them, is the only one of its type.
pub open spec fn is_only_entry(s: Seq<u8>, pos: int, m: int, tag: int, i: int) -> bool {
    &&& 0 <= i < m
    &&& forall|j: int|
        0 <= j < m ==> (#[trigger] le_u64(s, pos + 16 * j) == tag <==> i == j) && le_u64(
            s,
            pos + 16 * j,
        ) != 0
}

proof fn lemma_table_field(
    s: Seq<u8>,
    end: int,
    pos: int,
    m: int,
    tag: int,
    i: int,
    j: int,
    acc: RelaTable,
)
    requires
        is_only_entry(s, pos, m, tag, i),
        0 <= j <= m,
        pos + 16 * m <= end,
        pos + 16 * m + 16 > end || le_u64(s, pos + 16 * m) == 0,
        j > i ==> {
            &&& tag == 7 ==> acc.vaddr == le_u64(s, pos + 16 * i + 8)
            &&& tag == 8 ==> acc.size == le_u64(s, pos + 16 * i + 8)
            &&& tag == 9 ==> acc.entry == le_u64(s, pos + 16 * i + 8)
        },
    ensures
        ({
            let t = rela_table_from(s, end, pos + 16 * j, acc);
            &&& tag == 7 ==> t.vaddr == le_u64(s, pos + 16 * i + 8)
            &&& tag == 8 ==> t.size == le_u64(s, pos + 16 * i + 8)
            &&& tag == 9 ==> t.entry == le_u64(s, pos + 16 * i + 8)
        }),
    decreases m - j,
{
    if j < m {
        let at = pos + 16 * j;
        let v = le_u64(s, at + 8);
        assert(le_u64(s, pos + 16 * j) == tag <==> i == j);
        let next = if le_u64(s, at) == 7 {
            RelaTable { vaddr: v, ..acc }
        } else if le_u64(s, at) == 8 {
            RelaTable { size: v, ..acc }
        } else if le_u64(s, at) == 9 {
            RelaTable { entry: v, ..acc }
        } else {
            acc
        };
        assert(at + 16 == pos + 16 * (j + 1));
        lemma_table_field(s, end, pos, m, tag, i, j + 1, next);
        assert(rela_table_from(s, end, at, acc) == rela_table_from(s, end, at + 16, next));
    }
}

proof fn lemma_dynamic_extent(phdrs: Seq<Elf64Phdr>, d: int, i: int)
    requires
        0 <= i <= d < phdrs.len(),
        phdrs[d].p_type == 2,
        forall|j: int| 0 <= j < d ==> (#[trigger] phdrs[j]).p_type != 2,
    ensures
        dynamic_extent(phdrs, i) == (phdrs[d].p_offset as int, phdrs[d].p_filesz as int),
    decreases d - i,
{
    if i < d {
        assert(phdrs[i].p_type != 2);
        lemma_dynamic_extent(phdrs, d, i + 1);
    }
}

proof fn lemma_offset_of_segment(
    phdrs: Seq<Elf64Phdr>,
    len: int,
    vaddr: u64,
    k: int,
    i: int,
)
    requires
        0 <= i <= k < phdrs.len(),
        phdrs[k].p_type == 1,
        phdrs[k].p_vaddr <= vaddr < phdrs[k].p_vaddr + phdrs[k].p_filesz,
        phdrs[k].p_offset + phdrs[k].p_filesz <= len,
        forall|j: int|
            0 <= j < k ==> !((#[trigger] phdrs[j]).p_type == 1 && phdrs[j].p_vaddr <= vaddr
                < phdrs[j].p_vaddr + phdrs[j].p_filesz),
    ensures
        file_offset_from(phdrs, len, vaddr, i) == Some(
            phdrs[k].p_offset + (vaddr - phdrs[k].p_vaddr),
        ),
    decreases k - i,
{
    if i < k {
        assert(!(phdrs[i].p_type == 1 && phdrs[i].p_vaddr <= vaddr < phdrs[i].p_vaddr
            + phdrs[i].p_filesz));
        lemma_offset_of_segment(phdrs, len, vaddr, k, i + 1);
    }
}

/// Every relative relocation of a position-independent image is applied: the word
/// at its place, moved like the image, becomes the load base plus its addend.
///
/// The table is where the dynamic section of the file says: entry 7 is its address,
/// 8 its size, 9 the size of one entry, which has the place, the type in the lower
/// half of a word, and the addend.
pub proof fn lemma_every_relocation_is_applied(
    file: Seq<u8>,
    arch: Arch,
    load_base: u64,
    plan: ElfLoadPlan,
    d: int,
    m: int,
    i7: int,
    i8: int,
    i9: int,
    k: int,
    i: int,
)
    requires
        is_load_plan(file, arch, load_base, plan),
        plan.outcome is Ok,
        le_u16(file, 16) == 3,
        plan.pages@.len() <= usize::MAX,
        ({
            let phdrs = file_phdrs(file);
            let dyn_at = phdrs[d].p_offset as int;
            let rela = le_u64(file, dyn_at + 16 * i7 + 8);
            let size = le_u64(file, dyn_at + 16 * i8 + 8);
            let entry = le_u64(file, dyn_at + 16 * i9 + 8);
            let p = phdrs[k].p_offset + (rela - phdrs[k].p_vaddr) + entry * i;
            &&& 0 <= d < phdrs.len()
            &&& phdrs[d].p_type == 2
            &&& forall|j: int| 0 <= j < d ==> (#[trigger] phdrs[j]).p_type != 2
            &&& 0 < dyn_at
            &&& dyn_at + phdrs[d].p_filesz < file.len()
            &&& 16 * m <= phdrs[d].p_filesz
            &&& 16 * m + 16 > phdrs[d].p_filesz || le_u64(file, dyn_at + 16 * m) == 0
            &&& is_only_entry(file, dyn_at, m, 7, i7)
            &&& is_only_entry(file, dyn_at, m, 8, i8)
            &&& is_only_entry(file, dyn_at, m, 9, i9)
            &&& 0 <= k < phdrs.len()
            &&& phdrs[k].p_type == 1
            &&& 0 < rela
            &&& phdrs[k].p_vaddr <= rela < phdrs[k].p_vaddr + phdrs[k].p_filesz
            &&& phdrs[k].p_offset + phdrs[k].p_filesz <= file.len()
            &&& forall|j: int|
                0 <= j < k ==> !((#[trigger] phdrs[j]).p_type == 1 && phdrs[j].p_vaddr <= rela
                    < phdrs[j].p_vaddr + phdrs[j].p_filesz)
            &&& 24 <= entry
            &&& 0 <= i
            &&& entry * (i + 1) <= size
            &&& le_u64(file, p + 8) as int % 0x1_0000_0000 == match arch {
                Arch::X86_64 => 8int,
                Arch::Aarch64 => 1027int,
            }
        }),
    ensures
        ({
            let phdrs = file_phdrs(file);
            let dyn_at = phdrs[d].p_offset as int;
            let rela = le_u64(file, dyn_at + 16 * i7 + 8);
            let entry = le_u64(file, dyn_at + 16 * i9 + 8);
            let p = phdrs[k].p_offset + (rela - phdrs[k].p_vaddr) + entry * i;
            exists|w: int|
                0 <= w < plan.writes@.len() && writes_word(
                    plan.pages@,
                    #[trigger] plan.writes@[w],
                    le_u64(file, p) + load_delta(file, load_base),
                    load_base + le_u64(file, p + 16),
                )
        }),
{
    let phdrs = file_phdrs(file);
    let delta = load_delta(file, load_base);
    let dyn_at = phdrs[d].p_offset as int;
    let end = dyn_at + phdrs[d].p_filesz;
    let none = RelaTable { vaddr: 0, size: 0, entry: 0 };
    lemma_dynamic_extent(phdrs, d, 0);
    lemma_table_field(file, end, dyn_at, m, 7, i7, 0, none);
    lemma_table_field(file, end, dyn_at, m, 8, i8, 0, none);
    lemma_table_field(file, end, dyn_at, m, 9, i9, 0, none);
    let t = declared_rela_table(file, phdrs);
    lemma_offset_of_segment(phdrs, file.len() as int, t.vaddr, k, 0);
    let n = (t.size / t.entry) as int;
    let e = t.entry as int;
    let size = t.size as int;
    assert(i < n && size > 0) by (nonlinear_arith)
        requires
            n == size / e,
            e >= 24,
            0 <= i,
            e * (i + 1) <= size,
    ;
    let off = phdrs[k].p_offset + (t.vaddr - phdrs[k].p_vaddr);
    lemma_relocation_entry(
        file,
        plan.pages@,
        arch,
        delta,
        load_base,
        e,
        n,
        off,
        Seq::empty(),
        i,
    );
}

// ---------------------------------------------------------------------------
// PE images
// ---------------------------------------------------------------------------

proof fn lemma_section_effect(
    file: Seq<u8>,
    sec: SectionView,
    load_base: u64,
    page: int,
    state: LoadState,
    a: int,
)
    requires
        steps_make_pages(file, state),
        state.pages.len() <= 512,
        file.len() <= usize::MAX,
        0 <= page,
        page % 4096 == 0,
        section_page_end(sec, load_base) <= u64::MAX,
        0 <= a,
        after_section(sec, load_base, file.len() as int, page, state).1,
    ensures
        ({
            let next = after_section(sec, load_base, file.len() as int, page, state).0;
            let pg = page_floor(a);
            let here = page <= pg < section_page_end(sec, load_base);
            let copy = section_copy(sec, load_base, pg, file.len() as int);
            let f = section_flags(sec.characteristics);
            &&& steps_make_pages(file, next)
            &&& next.pages.len() <= 512
            &&& has_page(next, pg) == (has_page(state, pg) || here)
            &&& byte_at(file, next, a) == if here && fills(copy, a - pg) {
                file[source(copy, a - pg)]
            } else {
                byte_at(file, state, a)
            }
            &&& is_writable(next, pg) == (is_writable(state, pg) || (here && f.writable))
            &&& is_executable(next, pg) == if here {
                !is_writable(next, pg) && (is_executable(state, pg) || f.executable)
            } else {
                is_executable(state, pg)
            }
        }),
    decreases section_page_end(sec, load_base) - page + 4096,
{
    if page < section_page_end(sec, load_base) {
        let copy = section_copy(sec, load_base, page, file.len() as int);
        let f = section_flags(sec.characteristics);
        let next = after_page(state, page, f, copy);
        lemma_page_step(file, state, page, f, copy);
        lemma_page_effect(file, state, page, f, copy, a);
        lemma_page_index(state.pages, page, 0);
        lemma_section_effect(file, sec, load_base, page + 4096, next, a);
    }
}

proof fn lemma_headers_effect(
    file: Seq<u8>,
    load_base: u64,
    end: int,
    off: int,
    state: LoadState,
    a: int,
)
    requires
        steps_make_pages(file, state),
        state.pages.len() <= 512,
        file.len() <= usize::MAX,
        load_base % 4096 == 0,
        0 <= off,
        off % 4096 == 0,
        end % 4096 == 0,
        load_base + end <= u64::MAX,
        0 <= a,
        after_headers(load_base, file.len() as int, end, off, state).1,
    ensures
        ({
            let next = after_headers(load_base, file.len() as int, end, off, state).0;
            let pg = page_floor(a);
            let here = load_base + off <= pg < load_base + end;
            &&& steps_make_pages(file, next)
            &&& next.pages.len() <= 512
            &&& has_page(next, pg) == (has_page(state, pg) || here)
            &&& byte_at(file, next, a) == if here && a - load_base < file.len() {
                file[a - load_base]
            } else {
                byte_at(file, state, a)
            }
            &&& is_writable(next, pg) == is_writable(state, pg)
            &&& !here ==> is_executable(next, pg) == is_executable(state, pg)
            &&& !is_writable(state, pg) ==> is_executable(next, pg) == is_executable(state, pg)
        }),
    decreases end - off + 4096,
{
    if off < end {
        let copy = header_copy(off, file.len() as int);
        let f = PageFlags { writable: false, executable: false };
        let page = load_base + off;
        let next = after_page(state, page, f, copy);
        lemma_page_step(file, state, page, f, copy);
        lemma_page_effect(file, state, page, f, copy, a);
        lemma_page_index(state.pages, page, 0);
        lemma_headers_effect(file, load_base, end, off + 4096, next, a);
    }
}

/// Whether the file part of loaded section `i` has an address.
pub open spec fn in_raw_part(s: Seq<u8>, info: PeInfo, load_base: u64, i: int, a: int) -> bool {
    let sec = info_section(s, info, i);
    &&& 0 <= i < info.number_of_sections
    &&& sec.characteristics & 0x0200_0000 == 0
    &&& load_base + sec.virtual_address <= a < load_base + sec.virtual_address
        + sec.size_of_raw_data
}

/// Whether the memory of loaded section `i` has an address.
pub open spec fn in_section(s: Seq<u8>, info: PeInfo, load_base: u64, i: int, a: int) -> bool {
    let sec = info_section(s, info, i);
    let size = if sec.virtual_size > 0 {
        sec.virtual_size
    } else {
        sec.size_of_raw_data
    };
    &&& 0 <= i < info.number_of_sections
    &&& sec.characteristics & 0x0200_0000 == 0
    &&& load_base + sec.virtual_address <= a < load_base + sec.virtual_address + size
}

proof fn lemma_sections_effect(
    file: Seq<u8>,
    info: PeInfo,
    load_base: u64,
    i: int,
    state: LoadState,
    a: int,
    k: int,
)
    requires
        steps_make_pages(file, state),
        state.pages.len() <= 512,
        file.len() <= usize::MAX,
        pe_addresses_fit(file, info, load_base),
        0 <= i,
        0 <= a,
        after_sections(file, info, load_base, i, state).1,
    ensures
        ({
            let next = after_sections(file, info, load_base, i, state).0;
            let pg = page_floor(a);
            let sec = info_section(file, info, k);
            &&& steps_make_pages(file, next)
            &&& has_page(state, pg) ==> has_page(next, pg)
            &&& (forall|j: int|
                i <= j ==> !#[trigger] in_raw_part(file, info, load_base, j, a)) ==> byte_at(
                file,
                next,
                a,
            ) == byte_at(file, state, a)
            &&& i <= k && in_section(file, info, load_base, k, a) ==> has_page(next, pg)
            &&& i <= k && in_section(file, info, load_base, k, a) && in_raw_part(
                file,
                info,
                load_base,
                k,
                a,
            ) && sec.pointer_to_raw_data + sec.size_of_raw_data <= file.len() && (forall|j: int|
                k < j ==> !#[trigger] in_raw_part(file, info, load_base, j, a)) ==> byte_at(
                file,
                next,
                a,
            ) == file[sec.pointer_to_raw_data + (a - load_base - sec.virtual_address)]
        }),
    decreases info.number_of_sections - i,
{
    if i < info.number_of_sections {
        let sec = info_section(file, info, i);
        if !is_loaded(sec) {
            lemma_sections_effect(file, info, load_base, i + 1, state, a, k);
            assert(!in_section(file, info, load_base, i, a));
            if in_raw_part(file, info, load_base, i, a) {
                assert(loaded_size(sec) == 0);
            }
        } else {
            let start = page_floor(load_base + sec.virtual_address);
            let (next, done) = after_section(sec, load_base, file.len() as int, start, state);
            lemma_section_effect(file, sec, load_base, start, state, a);
            lemma_sections_effect(file, info, load_base, i + 1, next, a, k);
            if forall|j: int| i <= j ==> !#[trigger] in_raw_part(file, info, load_base, j, a) {
                assert(!in_raw_part(file, info, load_base, i, a));
                assert(forall|j: int|
                    i + 1 <= j ==> !#[trigger] in_raw_part(file, info, load_base, j, a));
            }
        }
    }
}

/// Whether a planned image has a byte at an address once its steps are done.
pub open spec fn pe_has_byte(file: Seq<u8>, plan: PeLoadPlan, a: int, b: u8) -> bool {
    exists|q: int|
        0 <= q < places(plan.steps@).len() && #[trigger] places(plan.steps@)[q] == a / 4096 * 4096
            && frames(file, plan.steps@)[q][a % 4096] == b
}

proof fn lemma_pe_state(file: Seq<u8>, load_base: u64, a: int, k: int)
    requires
        file.len() <= usize::MAX,
        pe_addresses_fit(file, pe_info_of(file), load_base),
        load_base % 4096 == 0,
        0 <= a,
        pe_load_state(file, load_base).1,
    ensures
        ({
            let info = pe_info_of(file);
            let state = pe_load_state(file, load_base).0;
            let pg = page_floor(a);
            let sec = info_section(file, info, k);
            let in_headers = load_base <= a < load_base + page_ceil(info.size_of_headers as int);
            &&& steps_make_pages(file, state)
            &&& in_headers ==> has_page(state, pg)
            &&& in_headers && a - load_base < file.len() && (forall|j: int|
                !#[trigger] in_raw_part(file, info, load_base, j, a)) ==> byte_at(file, state, a)
                == file[a - load_base]
            &&& !in_headers && (forall|j: int|
                !#[trigger] in_raw_part(file, info, load_base, j, a)) ==> byte_at(file, state, a)
                == 0
            &&& in_section(file, info, load_base, k, a) ==> has_page(state, pg)
            &&& in_section(file, info, load_base, k, a) && in_raw_part(
                file,
                info,
                load_base,
                k,
                a,
            ) && sec.pointer_to_raw_data + sec.size_of_raw_data <= file.len() && (forall|j: int|
                k < j ==> !#[trigger] in_raw_part(file, info, load_base, j, a)) ==> byte_at(
                file,
                state,
                a,
            ) == file[sec.pointer_to_raw_data + (a - load_base - sec.virtual_address)]
        }),
{
    let info = pe_info_of(file);
    let empty = LoadState { pages: Seq::empty(), steps: Seq::empty() };
    let end = page_ceil(info.size_of_headers as int);
    assert(frames(file, empty.steps).len() == 0);
    assert(rights(empty.steps).len() == 0);
    assert(places(empty.steps).len() == 0);
    assert(steps_make_pages(file, empty));
    lemma_headers_effect(file, load_base, end, 0, empty, a);
    let mid = after_headers(load_base, file.len() as int, end, 0, empty).0;
    lemma_sections_effect(file, info, load_base, 0, mid, a, k);
    let state = pe_load_state(file, load_base).0;
    if forall|j: int| !#[trigger] in_raw_part(file, info, load_base, j, a) {
        assert(forall|j: int| 0 <= j ==> !#[trigger] in_raw_part(file, info, load_base, j, a));
    }
}

/// The file bytes of a section are in memory where the section is: the byte at
/// an address is the one as far into the section's part of the file as the address
/// is into the section, unless a later section puts another one there.
pub proof fn lemma_section_bytes_are_loaded(
    file: Seq<u8>,
    load_base: u64,
    plan: PeLoadPlan,
    k: int,
    a: int,
)
    requires
        is_pe_load_plan(file, load_base, plan),
        plan.outcome is Ok,
        file.len() <= usize::MAX,
        pe_addresses_fit(file, pe_info_of(file), load_base),
        load_base % 4096 == 0,
        in_section(file, pe_info_of(file), load_base, k, a),
        in_raw_part(file, pe_info_of(file), load_base, k, a),
        ({
            let sec = info_section(file, pe_info_of(file), k);
            sec.pointer_to_raw_data + sec.size_of_raw_data <= file.len()
        }),
        forall|j: int|
            k < j ==> !#[trigger] in_raw_part(file, pe_info_of(file), load_base, j, a),
    ensures
        ({
            let sec = info_section(file, pe_info_of(file), k);
            pe_has_byte(
                file,
                plan,
                a,
                file[sec.pointer_to_raw_data + (a - load_base - sec.virtual_address)],
            )
        }),
{
    let state = pe_load_state(file, load_base).0;
    lemma_pe_state(file, load_base, a, k);
    lemma_page_index(state.pages, page_floor(a), 0);
    let q = at_page(state, page_floor(a));
    assert(places(plan.steps@)[q] == state.pages[q].vaddr);
}

/// The headers are in memory as they are in the file, where no section is over
/// them; and the memory of a section that no section has file bytes for is zero.
pub proof fn lemma_headers_and_zeroes_are_loaded(
    file: Seq<u8>,
    load_base: u64,
    plan: PeLoadPlan,
    k: int,
    a: int,
)
    requires
        is_pe_load_plan(file, load_base, plan),
        plan.outcome is Ok,
        file.len() <= usize::MAX,
        pe_addresses_fit(file, pe_info_of(file), load_base),
        load_base % 4096 == 0,
        0 <= a,
        forall|j: int| !#[trigger] in_raw_part(file, pe_info_of(file), load_base, j, a),
    ensures
        ({
            let info = pe_info_of(file);
            &&& load_base <= a < load_base + info.size_of_headers && a - load_base < file.len()
                ==> pe_has_byte(file, plan, a, file[a - load_base])
            &&& in_section(file, info, load_base, k, a) && a >= load_base + info.size_of_headers
                + 4096 ==> pe_has_byte(file, plan, a, 0)
        }),
{
    let info = pe_info_of(file);
    let state = pe_load_state(file, load_base).0;
    lemma_pe_state(file, load_base, a, k);
    lemma_page_index(state.pages, page_floor(a), 0);
    let q = at_page(state, page_floor(a));
    if has_page(state, page_floor(a)) {
        assert(places(plan.steps@)[q] == state.pages[q].vaddr);
    }
}

/// Whether an addition is to the word at an address, of an amount that is given up
/// to multiples of 2^64.
pub open spec fn adds_to(pages: Seq<PageEntry>, w: PageAdd, addr: int, delta: int) -> bool {
    &&& w.page < pages.len()
    &&& w.offset + 8 <= 4096
    &&& pages[w.page as int].vaddr + w.offset == addr
    &&& (w.delta - delta) % 0x1_0000_0000_0000_0000 == 0
}

spec fn adds_continue(adds: Seq<PageAdd>, done: Seq<PageAdd>) -> bool {
    adds.len() <= done.len() && forall|j: int| 0 <= j < adds.len() ==> done[j] == #[trigger] adds[j]
}

proof fn lemma_block_continues(
    s: Seq<u8>,
    pages: Seq<PageEntry>,
    delta: u64,
    load_base: u64,
    block_rva: int,
    n: int,
    pos: int,
    adds: Seq<PageAdd>,
)
    ensures
        adds_continue(adds, block_adds(s, pages, delta, load_base, block_rva, n, pos, adds).0),
    decreases n,
{
    let entry = le_u16(s, pos);
    if n > 0 {
        if entry / 4096 != 10 {
            lemma_block_continues(
                s,
                pages,
                delta,
                load_base,
                block_rva,
                n - 1,
                pos + 2,
                adds,
            );
        } else {
            match word_slot(pages, load_base + block_rva + entry % 4096) {
                None => {},
                Some((k, off)) => {
                    let next = adds.push(
                        PageAdd { page: k as usize, offset: off as u64, delta },
                    );
                    lemma_block_continues(
                        s,
                        pages,
                        delta,
                        load_base,
                        block_rva,
                        n - 1,
                        pos + 2,
                        next,
                    );
                    let done = block_adds(
                        s,
                        pages,
                        delta,
                        load_base,
                        block_rva,
                        n,
                        pos,
                        adds,
                    ).0;
                    assert forall|j: int| 0 <= j < adds.len() implies done[j]
                        == #[trigger] adds[j] by {
                        assert(next[j] == adds[j]);
                    }
                },
            }
        }
    }
}

proof fn lemma_blocks_continue(
    s: Seq<u8>,
    pages: Seq<PageEntry>,
    delta: u64,
    load_base: u64,
    end: int,
    pos: int,
    adds: Seq<PageAdd>,
)
    ensures
        adds_continue(adds, blocks_adds(s, pages, delta, load_base, end, pos, adds).0),
    decreases s.len() + 8 - pos,
{
    let size = le_u32(s, pos + 4);
    if !(pos + 8 > end || end > s.len() || size == 0 || size < 8 || pos + size > s.len()) {
        let rva = le_u32(s, pos) as int;
        let n = (size - 8) / 2;
        lemma_block_continues(s, pages, delta, load_base, rva, n, pos + 8, adds);
        let (next, ok) = block_adds(s, pages, delta, load_base, rva, n, pos + 8, adds);
        if ok {
            lemma_blocks_continue(
                s,
                pages,
                delta,
                load_base,
                end,
                (pos + size + 3) / 4 * 4,
                next,
            );
            let done = blocks_adds(s, pages, delta, load_base, end, pos, adds).0;
            assert forall|j: int| 0 <= j < adds.len() implies done[j] == #[trigger] adds[j] by {
                assert(next[j] == adds[j]);
            }
        }
    }
}

proof fn lemma_block_entry(
    s: Seq<u8>,
    pages: Seq<PageEntry>,
    delta: u64,
    load_base: u64,
    block_rva: int,
    n: int,
    pos: int,
    adds: Seq<PageAdd>,
    i: int,
)
    requires
        pages.len() <= usize::MAX,
        0 <= block_rva,
        0 <= i < n,
        le_u16(s, pos + 2 * i) as int / 4096 == 10,
        block_adds(s, pages, delta, load_base, block_rva, n, pos, adds).1,
    ensures
        ({
            let done = block_adds(s, pages, delta, load_base, block_rva, n, pos, adds).0;
            exists|w: int|
                0 <= w < done.len() && adds_to(
                    pages,
                    #[trigger] done[w],
                    load_base + block_rva + le_u16(s, pos + 2 * i) as int % 4096,
                    delta as int,
                )
        }),
    decreases n,
{
    let entry = le_u16(s, pos);
    if i == 0 {
        let addr = load_base + block_rva + entry % 4096;
        let (k, off) = word_slot(pages, addr)->0;
        let next = adds.push(PageAdd { page: k as usize, offset: off as u64, delta });
        lemma_page_index(pages, page_floor(addr), 0);
        lemma_block_continues(s, pages, delta, load_base, block_rva, n - 1, pos + 2, next);
        let done = block_adds(s, pages, delta, load_base, block_rva, n, pos, adds).0;
        let w = adds.len() as int;
        assert(done[w] == next[w]);
        assert(adds_to(pages, done[w], addr, delta as int));
    } else {
        assert(pos + 2 + 2 * (i - 1) == pos + 2 * i);
        let next = if entry / 4096 != 10 {
            adds
        } else {
            let (k, off) = word_slot(pages, load_base + block_rva + entry % 4096)->0;
            adds.push(PageAdd { page: k as usize, offset: off as u64, delta })
        };
        lemma_block_entry(
            s,
            pages,
            delta,
            load_base,
            block_rva,
            n - 1,
            pos + 2,
            next,
            i - 1,
        );
    }
}

/// Whether `at` are the positions of the first blocks of a relocation table in a
/// file, which ends at `end`: each block starts with an address and its own size,
/// and the next one follows at a multiple of four.
pub open spec fn is_file_block_list(s: Seq<u8>, end: int, at: Seq<int>) -> bool {
    &&& at.len() > 0
    &&& 0 <= at[0]
    &&& end <= s.len()
    &&& forall|k: int|
        0 <= k < at.len() ==> {
            let pos = #[trigger] at[k];
            &&& pos + 8 <= end
            &&& le_u32(s, pos + 4) >= 8
            &&& pos + le_u32(s, pos + 4) <= s.len()
        }
    &&& forall|k: int, l: int|
        0 <= k && l == k + 1 && l < at.len() ==> {
            let next = #[trigger] at[k] + le_u32(s, at[k] + 4);
            next <= #[trigger] at[l] < next + 4 && at[l] % 4 == 0
        }
}

proof fn lemma_blocks_entry(
    s: Seq<u8>,
    pages: Seq<PageEntry>,
    delta: u64,
    load_base: u64,
    end: int,
    at: Seq<int>,
    k: int,
    adds: Seq<PageAdd>,
    i: int,
)
    requires
        pages.len() <= usize::MAX,
        is_file_block_list(s, end, at),
        0 <= k < at.len(),
        0 <= i,
        8 + 2 * i + 2 <= le_u32(s, at.last() + 4),
        le_u16(s, at.last() + 8 + 2 * i) as int / 4096 == 10,
        blocks_adds(s, pages, delta, load_base, end, at[k], adds).1,
    ensures
        ({
            let done = blocks_adds(s, pages, delta, load_base, end, at[k], adds).0;
            exists|w: int|
                0 <= w < done.len() && adds_to(
                    pages,
                    #[trigger] done[w],
                    load_base + le_u32(s, at.last()) + le_u16(s, at.last() + 8 + 2 * i) as int
                        % 4096,
                    delta as int,
                )
        }),
    decreases at.len() - k,
{
    let pos = at[k];
    let size = le_u32(s, pos + 4);
    let rva = le_u32(s, pos) as int;
    let n = (size - 8) / 2;
    let (next, ok) = block_adds(s, pages, delta, load_base, rva, n, pos + 8, adds);
    let after = (pos + size + 3) / 4 * 4;
    let done = blocks_adds(s, pages, delta, load_base, end, pos, adds).0;
    if k == at.len() - 1 {
        lemma_block_entry(s, pages, delta, load_base, rva, n, pos + 8, adds, i);
        lemma_blocks_continue(s, pages, delta, load_base, end, after, next);
        let addr = load_base + rva + le_u16(s, pos + 8 + 2 * i) as int % 4096;
        let w = choose|w: int|
            0 <= w < next.len() && adds_to(pages, #[trigger] next[w], addr, delta as int);
        assert(done[w] == next[w]);
    } else {
        assert(at[k + 1] == after);
        lemma_blocks_entry(s, pages, delta, load_base, end, at, k + 1, next, i);
    }
}

/// Every `DIR64` entry of the relocation table of an image that is not loaded at
/// its preferred base is applied: the difference of the bases is added to the word
/// that the entry refers to. The table is the sixth data directory, 176 bytes
/// behind the headers.
pub proof fn lemma_every_base_relocation_is_applied(
    file: Seq<u8>,
    load_base: u64,
    plan: PeLoadPlan,
    at: Seq<int>,
    i: int,
)
    requires
        is_pe_load_plan(file, load_base, plan),
        plan.outcome is Ok,
        plan.pages@.len() <= usize::MAX,
        ({
            let headers = le_u32(file, 60) as int;
            let rva = le_u32(file, headers + 176);
            let size = le_u32(file, headers + 180);
            &&& headers + 184 <= file.len() <= usize::MAX
            &&& le_u32(file, headers + 132) > 5
            &&& load_base != le_u64(file, headers + 48)
            &&& rva > 0
            &&& size > 0
            &&& file_offset_of(file, pe_info_of(file), rva) == Some(at[0])
            &&& is_file_block_list(file, at[0] + size, at)
        }),
        0 <= i,
        8 + 2 * i + 2 <= le_u32(file, at.last() + 4),
        le_u16(file, at.last() + 8 + 2 * i) as int / 4096 == 10,
    ensures
        exists|w: int|
            0 <= w < plan.adds@.len() && adds_to(
                plan.pages@,
                #[trigger] plan.adds@[w],
                load_base + le_u32(file, at.last()) + le_u16(file, at.last() + 8 + 2 * i) as int
                    % 4096,
                load_base - le_u64(file, le_u32(file, 60) + 48),
            ),
{
    let headers = le_u32(file, 60) as int;
    let info = pe_info_of(file);
    let delta = load_base.wrapping_sub(info.image_base);
    let size = le_u32(file, headers + 180);
    assert(info.data_dir_offset == headers + 136);
    assert(info_directory(file, info, 5).size == size);
    lemma_blocks_entry(
        file,
        plan.pages@,
        delta,
        load_base,
        at[0] + size,
        at,
        0,
        Seq::empty(),
        i,
    );
    let addr = load_base + le_u32(file, at.last()) + le_u16(file, at.last() + 8 + 2 * i) as int
        % 4096;
    let w = choose|w: int|
        0 <= w < plan.adds@.len() && adds_to(
            plan.pages@,
            #[trigger] plan.adds@[w],
            addr,
            delta as int,
        );
    assert(adds_to(
        plan.pages@,
        plan.adds@[w],
        addr,
        load_base - le_u64(file, le_u32(file, 60) + 48),
    ));
}

/// Whether the memory of loaded section `i` reaches into a page.
pub open spec fn section_reaches(
    s: Seq<u8>,
    info: PeInfo,
    load_base: u64,
    i: int,
    page: int,
) -> bool {
    let sec = info_section(s, info, i);
    let start = load_base + sec.virtual_address;
    let size = if sec.virtual_size > 0 {
        sec.virtual_size
    } else {
        sec.size_of_raw_data
    };
    &&& 0 <= i < info.number_of_sections
    &&& sec.characteristics & 0x0200_0000 == 0
    &&& size > 0
    &&& start < page + 4096 && page < start + size
}

/// Whether a section from `i` on that reaches into a page has one of these
/// characteristics.
spec fn reached_with(
    s: Seq<u8>,
    info: PeInfo,
    load_base: u64,
    i: int,
    page: int,
    bit: u32,
) -> bool {
    exists|j: int|
        i <= j && #[trigger] section_reaches(s, info, load_base, j, page) && info_section(
            s,
            info,
            j,
        ).characteristics & bit != 0
}

proof fn lemma_sections_rights(
    file: Seq<u8>,
    info: PeInfo,
    load_base: u64,
    i: int,
    state: LoadState,
    page: int,
)
    requires
        steps_make_pages(file, state),
        state.pages.len() <= 512,
        file.len() <= usize::MAX,
        pe_addresses_fit(file, info, load_base),
        0 <= i,
        0 <= page,
        page % 4096 == 0,
        after_sections(file, info, load_base, i, state).1,
        !(is_writable(state, page) && is_executable(state, page)),
    ensures
        ({
            let next = after_sections(file, info, load_base, i, state).0;
            let w = reached_with(file, info, load_base, i, page, 0x8000_0000);
            let x = reached_with(file, info, load_base, i, page, 0x2000_0000);
            &&& steps_make_pages(file, next)
            &&& is_writable(next, page) == (is_writable(state, page) || w)
            &&& is_executable(next, page) == (!is_writable(next, page) && (is_executable(
                state,
                page,
            ) || x))
        }),
    decreases info.number_of_sections - i,
{
    assert(page_floor(page) == page);
    if i < info.number_of_sections {
        let sec = info_section(file, info, i);
        let reached = section_reaches(file, info, load_base, i, page);
        if !is_loaded(sec) {
            assert(!reached);
            lemma_sections_rights(file, info, load_base, i + 1, state, page);
        } else {
            let start = page_floor(load_base + sec.virtual_address);
            let (next, done) = after_section(sec, load_base, file.len() as int, start, state);
            lemma_section_effect(file, sec, load_base, start, state, page);
            assert(reached == (start <= page < section_page_end(sec, load_base)));
            lemma_sections_rights(file, info, load_base, i + 1, next, page);
        }
        lemma_reached_step(file, info, load_base, i, page, 0x8000_0000);
        lemma_reached_step(file, info, load_base, i, page, 0x2000_0000);
    } else {
        assert(forall|j: int| i <= j ==> !#[trigger] section_reaches(file, info, load_base, j, page));
    }
}

proof fn lemma_reached_step(
    s: Seq<u8>,
    info: PeInfo,
    load_base: u64,
    i: int,
    page: int,
    bit: u32,
)
    ensures
        reached_with(s, info, load_base, i, page, bit) == (reached_with(
            s,
            info,
            load_base,
            i + 1,
            page,
            bit,
        ) || (section_reaches(s, info, load_base, i, page) && info_section(
            s,
            info,
            i,
        ).characteristics & bit != 0)),
{
    if reached_with(s, info, load_base, i, page, bit) {
        let j = choose|j: int|
            i <= j && #[trigger] section_reaches(s, info, load_base, j, page) && info_section(
                s,
                info,
                j,
            ).characteristics & bit != 0;
        if j > i {
            assert(i + 1 <= j && section_reaches(s, info, load_base, j, page));
        }
    }
}

/// A page of an image is writable if a writable section reaches into it, and
/// executable if an executable one does and no writable one.
pub proof fn lemma_section_pages_have_their_rights(
    file: Seq<u8>,
    load_base: u64,
    plan: PeLoadPlan,
    q: int,
)
    requires
        is_pe_load_plan(file, load_base, plan),
        plan.outcome is Ok,
        file.len() <= usize::MAX,
        pe_addresses_fit(file, pe_info_of(file), load_base),
        load_base % 4096 == 0,
        0 <= q < places(plan.steps@).len(),
        places(plan.steps@)[q] % 4096 == 0,
    ensures
        ({
            let info = pe_info_of(file);
            let page = places(plan.steps@)[q] as int;
            let w = exists|j: int| #[trigger]
                section_reaches(file, info, load_base, j, page) && info_section(
                    file,
                    info,
                    j,
                ).characteristics & 0x8000_0000 != 0;
            let x = exists|j: int| #[trigger]
                section_reaches(file, info, load_base, j, page) && info_section(
                    file,
                    info,
                    j,
                ).characteristics & 0x2000_0000 != 0;
            &&& q < rights(plan.steps@).len()
            &&& rights(plan.steps@)[q].writable == w
            &&& rights(plan.steps@)[q].executable == (x && !w)
        }),
{
    let info = pe_info_of(file);
    let page = places(plan.steps@)[q] as int;
    let empty = LoadState { pages: Seq::empty(), steps: Seq::empty() };
    let end = page_ceil(info.size_of_headers as int);
    assert(frames(file, empty.steps).len() == 0);
    assert(rights(empty.steps).len() == 0);
    assert(places(empty.steps).len() == 0);
    assert(steps_make_pages(file, empty));
    assert(page_floor(page) == page);
    lemma_headers_effect(file, load_base, end, 0, empty, page);
    let mid = after_headers(load_base, file.len() as int, end, 0, empty).0;
    lemma_sections_rights(file, info, load_base, 0, mid, page);
    let state = pe_load_state(file, load_base).0;
    assert(places(plan.steps@)[q] == state.pages[q].vaddr);
    lemma_page_index_is(state.pages, page, q);
    assert(rights(plan.steps@)[q] == state.pages[q].flags);
    assert forall|j: int| #[trigger] section_reaches(file, info, load_base, j, page) implies 0
        <= j by {}
}

} // verus!
