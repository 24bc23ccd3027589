//! Frames for the runtime linker.
use crate::kernel::abi::{on, on_slot, Invocation, InvokeLabel, Target};
use crate::loader::rtld::serial::TronaError;
use vstd::prelude::*;

verus! {

/// How a retype attempt ended.
#[derive(Clone, Copy, PartialEq, Eq, Debug, Structural)]
pub enum RetypeResult {
    /// The frame is there.
    Retyped,
    /// This untyped is used up or none; the next one may do. With the error.
    TryNext(u64),
    /// Anything else, with the error.
    Failed(u64),
}

/// How a retype attempt ended, by the kernel's error and its code. An untyped that
/// is used up, and a slot that holds none, leave the next one to try.
pub fn retype_result(err: TronaError, code: u64) -> (r: RetypeResult)
    ensures
        r == match err {
            TronaError::Success => RetypeResult::Retyped,
            TronaError::OutOfMemory
            | TronaError::InvalidCapability
            | TronaError::InvalidOperation
            | TronaError::NotFound => RetypeResult::TryNext(code),
            _ => RetypeResult::Failed(code),
        },
{
    match err {
        TronaError::Success => RetypeResult::Retyped,
        TronaError::OutOfMemory => RetypeResult::TryNext(code),
        TronaError::InvalidCapability => RetypeResult::TryNext(code),
        TronaError::InvalidOperation => RetypeResult::TryNext(code),
        TronaError::NotFound => RetypeResult::TryNext(code),
        _ => RetypeResult::Failed(code),
    }
}

/// A search for an untyped that still has a frame.
#[derive(Clone, Copy, PartialEq, Eq, Debug, Structural)]
pub struct FrameSearch {
    /// The untyped slot to try.
    pub current: u32,
    /// The error if there is none.
    pub last_err: u64,
}

/// Whether a search still has an untyped to try.
pub fn has_untyped(search: &FrameSearch, untyped_limit: u32) -> (r: bool)
    ensures
        r == (search.current != 0 && search.current < untyped_limit),
{
    search.current != 0 && search.current < untyped_limit
}

/// A slot further, or where it is at the end.
pub open spec fn next_slot(slot: u32) -> u32 {
    if slot == u32::MAX {
        slot
    } else {
        (slot + 1) as u32
    }
}

/// The outcome of trying untypeds from a slot on, with what each attempt gave:
/// the slot that gave the frame, or the error.
pub open spec fn frame_outcome(
    search: FrameSearch,
    untyped_limit: u32,
    results: Seq<RetypeResult>,
) -> Option<Result<u32, u64>>
    decreases results.len(),
{
    if search.current == 0 || search.current >= untyped_limit {
        Some(Err::<u32, u64>(search.last_err))
    } else if results.len() == 0 {
        None
    } else {
        match results[0] {
            RetypeResult::Retyped => Some(Ok::<u32, u64>(search.current)),
            RetypeResult::Failed(e) => Some(Err::<u32, u64>(e)),
            RetypeResult::TryNext(e) => frame_outcome(
                FrameSearch { current: next_slot(search.current), last_err: e },
                untyped_limit,
                results.skip(1),
            ),
        }
    }
}

/// Searches an untyped for a frame from `next_untyped_slot` on, given what each
/// attempt gave in turn; `None` if more attempts are needed. The slot that gave
/// the frame is where the next search starts.
pub fn alloc_frame_slot(
    next_untyped_slot: &mut u32,
    untyped_limit: u32,
    out_of_memory: u64,
    results: &[RetypeResult],
) -> (r: Option<Result<(), u64>>)
    ensures
        match frame_outcome(
            (FrameSearch { current: *old(next_untyped_slot), last_err: out_of_memory }),
            untyped_limit,
            results@,
        ) {
            None => r is None && *final(next_untyped_slot) == *old(next_untyped_slot),
            Some(Ok(slot)) => r == Some(Ok::<(), u64>(())) && *final(next_untyped_slot) == slot,
            Some(Err(e)) => r == Some(Err::<(), u64>(e)) && *final(next_untyped_slot) == *old(
                next_untyped_slot,
            ),
        },
{
    let mut search = FrameSearch { current: *next_untyped_slot, last_err: out_of_memory };
    let ghost goal = frame_outcome(search, untyped_limit, results@);
    let mut i: usize = 0;
    assert(results@.skip(0) =~= results@);
    while has_untyped(&search, untyped_limit)
        invariant
            i <= results@.len(),
            *next_untyped_slot == *old(next_untyped_slot),
            goal == frame_outcome(search, untyped_limit, results@.skip(i as int)),
            goal == frame_outcome(
                (FrameSearch { current: *old(next_untyped_slot), last_err: out_of_memory }),
                untyped_limit,
                results@,
            ),
        decreases results@.len() - i,
    {
        if i >= results.len() {
            return None;
        }
        assert(results@.skip(i as int)[0] == results@[i as int]);
        assert(results@.skip(i as int).skip(1) =~= results@.skip(i + 1));
        match results[i] {
            RetypeResult::Retyped => {
                *next_untyped_slot = search.current;
                return Some(Ok(()));
            },
            RetypeResult::Failed(e) => {
                return Some(Err(e));
            },
            RetypeResult::TryNext(e) => {
                search = FrameSearch {
                    current: if search.current == u32::MAX {
                        search.current
                    } else {
                        search.current + 1
                    },
                    last_err: e,
                };
            },
        }
        i = i + 1;
    }
    Some(Err(search.last_err))
}

/// The untyped slots that a search tries start at its first one and ascend: what
/// it ends at is a slot of the window, at or behind the start.
pub proof fn lemma_frame_comes_from_window(
    search: FrameSearch,
    untyped_limit: u32,
    results: Seq<RetypeResult>,
    slot: u32,
)
    requires
        frame_outcome(search, untyped_limit, results) == Some(Ok::<u32, u64>(slot)),
    ensures
        search.current <= slot < untyped_limit,
    decreases results.len(),
{
    if let RetypeResult::TryNext(e) = results[0] {
        lemma_frame_comes_from_window(
            FrameSearch { current: next_slot(search.current), last_err: e },
            untyped_limit,
            results.skip(1),
            slot,
        );
    }
}

/// The retype of one page frame from an untyped into a slot.
pub fn invoke_untyped_retype(untyped_slot: u32, obj_frame: u32, dest_slot: u32) -> (r: Invocation)
    ensures
        r == on_slot(
            untyped_slot as u64,
            InvokeLabel::UntypedRetype,
            obj_frame as u64,
            0,
            dest_slot as u64,
            0,
        ),
{
    on(
        untyped_slot as u64,
        InvokeLabel::UntypedRetype,
        obj_frame as u64,
        0,
        dest_slot as u64,
        0,
    )
}

/// Maps a frame into the linker's own address space.
pub fn map_frame(frame_slot: u32, vaddr: u64, rights: u32) -> (r: Invocation)
    ensures
        r == (Invocation {
            depths: None,
            target: Target::SelfVspace,
            label: InvokeLabel::VspaceMap,
            a2: frame_slot as u64,
            a3: vaddr,
            a4: rights as u64,
            a5: 0,
        }),
{
    Invocation {
        depths: None,
        target: Target::SelfVspace,
        label: InvokeLabel::VspaceMap,
        a2: frame_slot as u64,
        a3: vaddr,
        a4: rights as u64,
        a5: 0,
    }
}

/// Unmaps a page of the linker's own address space.
pub fn unmap_page(vaddr: u64) -> (r: Invocation)
    ensures
        r == (Invocation {
            depths: None,
            target: Target::SelfVspace,
            label: InvokeLabel::VspaceUnmap,
            a2: vaddr,
            a3: 0,
            a4: 0,
            a5: 0,
        }),
{
    Invocation {
        depths: None,
        target: Target::SelfVspace,
        label: InvokeLabel::VspaceUnmap,
        a2: vaddr,
        a3: 0,
        a4: 0,
        a5: 0,
    }
}

/// The slot and address of each frame of a range of `count` pages, in the order
/// in which they are allocated and mapped.
pub fn alloc_and_map_range(frame_slot_base: u32, vaddr: u64, count: usize) -> (r: Vec<(u32, u64)>)
    requires
        frame_slot_base + count <= u32::MAX,
        vaddr + count * 4096 <= u64::MAX,
    ensures
        r@.len() == count,
        forall|i: int|
            0 <= i < count ==> #[trigger] r@[i] == (
                (frame_slot_base + i) as u32,
                (vaddr + i * 4096) as u64,
            ),
{
    let mut out: Vec<(u32, u64)> = Vec::new();
    let mut i: usize = 0;
    while i < count
        invariant
            i <= count,
            frame_slot_base + count <= u32::MAX,
            vaddr + count * 4096 <= u64::MAX,
            out@.len() == i,
            forall|j: int|
                0 <= j < i ==> #[trigger] out@[j] == (
                    (frame_slot_base + j) as u32,
                    (vaddr + j * 4096) as u64,
                ),
        decreases count - i,
    {
        out.push((frame_slot_base + i as u32, vaddr + i as u64 * 4096));
        i = i + 1;
    }
    out
}

} // verus!
