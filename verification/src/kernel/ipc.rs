//! MessagePipe primitives.
//!
//! Data flow uses a write (send a record), a read (consume one), and a call
//! (send a request, then wait for a reply on the same pipe). Servers receive
//! requests with a read and answer calls with reply-marked writes.
//!
//! # Wire layout
//!
//! - The message info word packs `(label, length, extra_caps)`: bits 0 to 6 are
//!   the length, bits 7 to 11 the number of capabilities, the label follows from
//!   bit 12 on.
//! - For a write, the next three words carry `regs[0..3]` directly;
//!   `regs[3..length]` overflows through the message buffer at `msg[5..]`.
//! - For a call the whole request travels in the buffer at `msg[2..]`, and the
//!   next word carries the deadline.
//!
//! Each operation has two halves: one stages the buffer and gives the invocation
//! to perform, the other one takes its result.
use crate::kernel::abi::{
    low_i32, on, on_slot, to_i32, Invocation, InvokeLabel, KernelAbi, Target,
};
use crate::kernel::core_types::{Cap, TronaMsg, TronaResult};
use vstd::prelude::*;

verus! {

/// A deadline that never comes.
pub const IPC_TIMEOUT_BLOCK_FOREVER: u64 = 0xffff_ffff_ffff_ffff;

/// Most capabilities that one message carries.
pub const IPC_MAX_CAPS: usize = 4;

// ---------------------------------------------------------------------------
// Message info words
// ---------------------------------------------------------------------------

/// The message info word of a label, a length and a number of capabilities.
pub open spec fn info_word(label: u64, length: u64, caps: u64) -> u64 {
    ((label as int % 0x10_0000_0000_0000) * 0x1000 + (caps as int % 0x20) * 0x80 + length as int
        % 0x80) as u64
}

/// Encodes `(label, length, extra_caps)` into the message info word.
pub fn msginfo(label: u64, length: u64, caps: u64) -> (r: u64)
    ensures
        r == info_word(label, length, caps),
{
    (label % 0x10_0000_0000_0000) * 0x1000 + (caps % 0x20) * 0x80 + length % 0x80
}

/// Extracts the label field from a message info word.
pub fn msginfo_label(info: u64) -> (r: u64)
    ensures
        r == (info as int / 0x1000) % 0x100_0000_0000,
{
    (info / 0x1000) % 0x100_0000_0000
}

/// Extracts the message length from a message info word.
pub fn msginfo_length(info: u64) -> (r: u64)
    ensures
        r == info as int % 0x80,
{
    info % 0x80
}

/// Extracts the number of capabilities from a message info word.
pub fn msginfo_extracaps(info: u64) -> (r: u64)
    ensures
        r == (info as int / 0x80) % 0x20,
{
    (info / 0x80) % 0x20
}

/// What comes back out of the message info word is each field as far as it fits:
/// 40 bits of the label, 7 of the length, 5 of the number of capabilities.
pub proof fn lemma_msginfo_round_trip(label: u64, length: u64, caps: u64)
    ensures
        (info_word(label, length, caps) as int / 0x1000) % 0x100_0000_0000 == label as int
            % 0x100_0000_0000,
        info_word(label, length, caps) as int % 0x80 == length as int % 0x80,
        (info_word(label, length, caps) as int / 0x80) % 0x20 == caps as int % 0x20,
{
    let l = label as int % 0x10_0000_0000_0000;
    let c = caps as int % 0x20;
    let n = length as int % 0x80;
    let w = info_word(label, length, caps) as int;
    assert(w == l * 0x1000 + c * 0x80 + n);
    assert(w / 0x1000 == l);
    assert(w % 0x80 == n);
    assert(w / 0x80 == l * 0x20 + c);
    assert((l * 0x20 + c) % 0x20 == c);
    assert(l % 0x100_0000_0000 == label as int % 0x100_0000_0000);
}

// ---------------------------------------------------------------------------
// Message buffer
// ---------------------------------------------------------------------------

/// The per-thread message buffer shared with the kernel.
#[derive(Clone, Copy)]
pub struct IpcBuffer {
    /// Label, length and registers of a record.
    pub msg: [u64; 34],
    pub caps: [u64; 4],
    /// Badge of the sender.
    pub badge: u64,
    pub receive_cnode: u64,
    pub receive_index: u64,
    pub receive_depth: u64,
    /// Reply-routing flags of the last record.
    pub mp_flags: u64,
    /// Transaction id of the last record.
    pub mp_txid: u64,
    /// `reserved[0]` is the receive-slot path depth.
    pub reserved: [u64; 468],
}

/// Per-thread message context: the buffer, if it is attached, and the number of
/// capabilities staged for the next send.
#[derive(Clone, Copy)]
pub struct IpcContext {
    pub ipc_buffer: Option<IpcBuffer>,
    pub send_cap_count: i32,
}

impl IpcContext {
    /// A context without a buffer.
    pub fn new() -> (r: IpcContext)
        ensures
            r.ipc_buffer is None,
            r.send_cap_count == 0,
    {
        IpcContext { ipc_buffer: None, send_cap_count: 0 }
    }
}

/// Attaches a buffer (or none) to a context; nothing is staged.
pub fn ipc_context_init(ctx: &mut IpcContext, ipc_buffer: Option<IpcBuffer>)
    ensures
        *final(ctx) == (IpcContext { ipc_buffer, send_cap_count: 0 }),
{
    ctx.ipc_buffer = ipc_buffer;
    ctx.send_cap_count = 0;
}

/// A buffer without staged capabilities.
pub open spec fn without_caps(b: IpcBuffer, after: IpcBuffer) -> bool {
    &&& after == (IpcBuffer { caps: after.caps, ..b })
    &&& after.caps@ == seq![0u64, 0u64, 0u64, 0u64]
}

/// What clearing the staged capabilities leaves.
pub open spec fn caps_cleared(before: IpcContext, after: IpcContext) -> bool {
    &&& after.send_cap_count == 0
    &&& match before.ipc_buffer {
        Some(b) => after.ipc_buffer is Some && without_caps(b, after.ipc_buffer->0),
        None => after.ipc_buffer is None,
    }
}

/// Clears all staged send capabilities.
///
/// Only the staging state is touched. The reply-routing metadata stays: it
/// belongs to the most recently read record, and a server that cleans up after a
/// reply must not lose the transaction id of the next request.
pub fn clear_send_caps_ctx(ctx: &mut IpcContext)
    ensures
        caps_cleared(*old(ctx), *final(ctx)),
{
    match ctx.ipc_buffer {
        Some(b) => {
            let mut next: IpcBuffer = b;
            next.caps = [0, 0, 0, 0];
            assert(next.caps@ =~= seq![0u64, 0u64, 0u64, 0u64]);
            ctx.ipc_buffer = Some(next);
        },
        None => {},
    }
    ctx.send_cap_count = 0;
}

/// Resets the reply-routing metadata.
///
/// Only for true reset points, where no reply depends on the transaction id in
/// the buffer.
pub fn clear_mp_metadata_ctx(ctx: &mut IpcContext)
    ensures
        *final(ctx) == with_metadata(*old(ctx), 0, 0),
{
    set_metadata(ctx, 0, 0);
}

/// A context with other reply-routing metadata.
pub open spec fn with_metadata(ctx: IpcContext, flags: u64, txid: u64) -> IpcContext {
    match ctx.ipc_buffer {
        Some(b) => IpcContext {
            ipc_buffer: Some(IpcBuffer { mp_flags: flags, mp_txid: txid, ..b }),
            ..ctx
        },
        None => ctx,
    }
}

fn set_metadata(ctx: &mut IpcContext, flags: u64, txid: u64)
    ensures
        *final(ctx) == with_metadata(*old(ctx), flags, txid),
{
    match ctx.ipc_buffer {
        Some(b) => {
            let mut next: IpcBuffer = b;
            next.mp_flags = flags;
            next.mp_txid = txid;
            ctx.ipc_buffer = Some(next);
        },
        None => {},
    }
}

/// What staging a capability at position `i` leaves.
pub open spec fn cap_staged(before: IpcContext, i: int, cap: u64, after: IpcContext) -> bool {
    if before.ipc_buffer is None || i < 0 || i >= 4 {
        after == before
    } else {
        let b = before.ipc_buffer->0;
        &&& after.ipc_buffer is Some
        &&& after.ipc_buffer->0 == (IpcBuffer { caps: after.ipc_buffer->0.caps, ..b })
        &&& after.ipc_buffer->0.caps@ == b.caps@.update(i, cap)
        &&& after.send_cap_count == if before.send_cap_count < i + 1 {
            i + 1
        } else {
            before.send_cap_count as int
        }
    }
}

/// Stages a capability for transfer on the next send, at a position of the
/// capability array. Positions outside the array are ignored.
pub fn set_send_cap_ctx(ctx: &mut IpcContext, slot_index: i32, cap_slot: u64)
    ensures
        cap_staged(*old(ctx), slot_index as int, cap_slot, *final(ctx)),
{
    if slot_index < 0 || slot_index >= 4 {
        return;
    }
    match ctx.ipc_buffer {
        Some(b) => {
            let mut next: IpcBuffer = b;
            next.caps[slot_index as usize] = cap_slot;
            ctx.ipc_buffer = Some(next);
            if ctx.send_cap_count < slot_index + 1 {
                ctx.send_cap_count = slot_index + 1;
            }
        },
        None => {},
    }
}

/// The receive destination of a context: CNode, index, CNode depth, slot depth;
/// all zero without a buffer.
pub open spec fn receive_path(ctx: IpcContext) -> (u64, u64, u64, u64) {
    match ctx.ipc_buffer {
        Some(b) => (b.receive_cnode, b.receive_index, b.receive_depth, b.reserved@[0]),
        None => (0, 0, 0, 0),
    }
}

/// Configures the receive destination for incoming capability transfers.
///
/// `depth` resolves `cnode` in the caller's CSpace; `slot_depth` resolves the
/// receive slot rooted at that CNode (0 for a flat slot).
pub fn set_receive_slot_path_ctx(
    ctx: &mut IpcContext,
    cnode: Cap,
    index: u64,
    depth: u64,
    slot_depth: u64,
)
    ensures
        match old(ctx).ipc_buffer {
            None => *final(ctx) == *old(ctx),
            Some(b) => {
                &&& receive_path(*final(ctx)) == (cnode, index, depth, slot_depth)
                &&& final(ctx).send_cap_count == old(ctx).send_cap_count
                &&& final(ctx).ipc_buffer is Some
                &&& final(ctx).ipc_buffer->0 == (IpcBuffer {
                    receive_cnode: cnode,
                    receive_index: index,
                    receive_depth: depth,
                    reserved: final(ctx).ipc_buffer->0.reserved,
                    ..b
                })
                &&& final(ctx).ipc_buffer->0.reserved@ == b.reserved@.update(0, slot_depth)
            },
        },
{
    match ctx.ipc_buffer {
        Some(b) => {
            let mut next: IpcBuffer = b;
            next.receive_cnode = cnode;
            next.receive_index = index;
            next.receive_depth = depth;
            next.reserved[0] = slot_depth;
            ctx.ipc_buffer = Some(next);
        },
        None => {},
    }
}

/// Reads the receive destination back, to save and restore it around a one-off
/// call.
pub fn get_receive_slot_path_ctx(ctx: &IpcContext) -> (r: (Cap, u64, u64, u64))
    ensures
        r == receive_path(*ctx),
{
    match ctx.ipc_buffer {
        Some(b) => (b.receive_cnode, b.receive_index, b.receive_depth, b.reserved[0]),
        None => (0, 0, 0, 0),
    }
}

/// Restoring a saved receive destination gives the buffer it was saved from:
/// saving, changing and restoring leave no trace.
pub proof fn lemma_receive_path_restored(
    saved: IpcBuffer,
    changed: IpcBuffer,
    restored: IpcBuffer,
)
    requires
        changed == (IpcBuffer {
            receive_cnode: changed.receive_cnode,
            receive_index: changed.receive_index,
            receive_depth: changed.receive_depth,
            reserved: changed.reserved,
            ..saved
        }),
        changed.reserved@ == saved.reserved@.update(0, changed.reserved@[0]),
        restored == (IpcBuffer {
            receive_cnode: saved.receive_cnode,
            receive_index: saved.receive_index,
            receive_depth: saved.receive_depth,
            reserved: restored.reserved,
            ..changed
        }),
        restored.reserved@ == changed.reserved@.update(0, saved.reserved@[0]),
    ensures
        restored == saved,
{
    assert(restored.reserved@ =~= saved.reserved@);
    assert(restored.reserved =~= saved.reserved);
}

// ---------------------------------------------------------------------------
// Staging and draining records
// ---------------------------------------------------------------------------

/// Number of registers that a message of length `len` has.
pub open spec fn reg_count(len: u64) -> int {
    if len > 32 {
        32
    } else {
        len as int
    }
}

/// A context whose buffer holds the registers from `from` on of a message.
pub open spec fn regs_staged(
    before: IpcContext,
    msg: TronaMsg,
    from: int,
    after: IpcContext,
) -> bool {
    match before.ipc_buffer {
        None => after == before,
        Some(b) => {
            &&& after.send_cap_count == before.send_cap_count
            &&& after.ipc_buffer is Some
            &&& after.ipc_buffer->0 == (IpcBuffer { msg: after.ipc_buffer->0.msg, ..b })
            &&& forall|i: int|
                0 <= i < 34 ==> #[trigger] after.ipc_buffer->0.msg@[i] == if from + 2 <= i
                    < reg_count(msg.length) + 2 {
                    msg.regs@[i - 2]
                } else {
                    b.msg@[i]
                }
        },
    }
}

fn stage_regs(ctx: &mut IpcContext, msg: &TronaMsg, from: usize)
    requires
        from <= 32,
    ensures
        regs_staged(*old(ctx), *msg, from as int, *final(ctx)),
{
    let len: usize = if msg.length > 32 { 32 } else { msg.length as usize };
    match ctx.ipc_buffer {
        Some(b) => {
            let mut next: IpcBuffer = b;
            let mut i: usize = from;
            while i < len
                invariant
                    len == reg_count(msg.length),
                    len <= 32,
                    from <= i,
                    from <= 32,
                    i <= len || i == from,
                    next == (IpcBuffer { msg: next.msg, ..b }),
                    forall|j: int|
                        0 <= j < 34 ==> #[trigger] next.msg@[j] == if from + 2 <= j < i + 2 {
                            msg.regs@[j - 2]
                        } else {
                            b.msg@[j]
                        },
                decreases len - i,
            {
                next.msg[2 + i] = msg.regs[i];
                i = i + 1;
            }
            ctx.ipc_buffer = Some(next);
        },
        None => {},
    }
}

/// Stages `regs[3..length]` into the buffer; the first three registers ride in
/// the invocation.
fn write_overflow_ctx(ctx: &mut IpcContext, msg: &TronaMsg)
    ensures
        regs_staged(*old(ctx), *msg, 3, *final(ctx)),
{
    stage_regs(ctx, msg, 3);
}

/// Stages the whole request body `regs[0..length]` into the buffer.
fn write_call_request_ctx(ctx: &mut IpcContext, msg: &TronaMsg)
    ensures
        regs_staged(*old(ctx), *msg, 0, *final(ctx)),
{
    stage_regs(ctx, msg, 0);
}

/// The record in a buffer as a message. Registers beyond its length are zero,
/// whatever an earlier record left there.
pub open spec fn is_inbound(b: IpcBuffer, msg: TronaMsg) -> bool {
    &&& msg.label == b.msg@[0]
    &&& msg.length == b.msg@[1]
    &&& forall|i: int|
        0 <= i < 32 ==> #[trigger] msg.regs@[i] == if i < reg_count(b.msg@[1]) {
            b.msg@[2 + i]
        } else {
            0
        }
}

fn read_inbound_ctx(ctx: &IpcContext, msg: &mut TronaMsg)
    ensures
        match ctx.ipc_buffer {
            Some(b) => is_inbound(b, *final(msg)),
            None => *final(msg) == *old(msg),
        },
{
    match ctx.ipc_buffer {
        Some(b) => {
            msg.label = b.msg[0];
            msg.length = b.msg[1];
            let n: usize = if b.msg[1] > 32 { 32 } else { b.msg[1] as usize };
            let mut i: usize = 0;
            while i < 32
                invariant
                    i <= 32,
                    n == reg_count(b.msg@[1]),
                    msg.label == b.msg@[0],
                    msg.length == b.msg@[1],
                    forall|j: int|
                        0 <= j < i ==> #[trigger] msg.regs@[j] == if j < n {
                            b.msg@[2 + j]
                        } else {
                            0
                        },
                decreases 32 - i,
            {
                msg.regs[i] = if i < n {
                    b.msg[2 + i]
                } else {
                    0
                };
                i = i + 1;
            }
        },
        None => {},
    }
}

// ---------------------------------------------------------------------------
// MessagePipe operations
// ---------------------------------------------------------------------------

/// An operation under way: the invocation to perform, and what has to be put
/// back afterwards.
#[derive(Clone, Copy)]
pub struct MpRequest {
    pub call: Invocation,
    /// Capabilities that are staged with it.
    pub caps: i32,
    /// The reply-routing metadata that was in the buffer.
    pub saved: Option<(u64, u64)>,
}

/// The reply-routing metadata of a context.
pub open spec fn metadata(ctx: IpcContext) -> Option<(u64, u64)> {
    match ctx.ipc_buffer {
        Some(b) => Some((b.mp_flags, b.mp_txid)),
        None => None,
    }
}

fn read_metadata(ctx: &IpcContext) -> (r: Option<(u64, u64)>)
    ensures
        r == metadata(*ctx),
{
    match ctx.ipc_buffer {
        Some(b) => Some((b.mp_flags, b.mp_txid)),
        None => None,
    }
}

/// The low bits of a capability count, as they go into the info word.
pub open spec fn caps_word(count: i32) -> u64 {
    (count as int % 0x20) as u64
}

fn to_caps_word(count: i32) -> (r: u64)
    ensures
        r == caps_word(count),
{
    if count >= 0 {
        (count % 0x20) as u64
    } else {
        31 - ((-(count + 1)) % 0x20) as u64
    }
}

/// What starting a write does: the metadata is replaced, the overflowing
/// registers are staged, and the invocation carries the rest.
pub open spec fn is_write_started(
    before: IpcContext,
    mp: Cap,
    msg: TronaMsg,
    flags: u64,
    txid: u64,
    after: IpcContext,
    r: MpRequest,
) -> bool {
    &&& regs_staged(with_metadata(before, flags, txid), msg, 3, after)
    &&& r.saved == metadata(before)
    &&& r.caps == before.send_cap_count
    &&& r.call == on_slot(
        mp,
        InvokeLabel::MpWrite,
        info_word(msg.label, msg.length, caps_word(before.send_cap_count)),
        msg.regs@[0],
        msg.regs@[1],
        msg.regs@[2],
    )
}

fn mp_write_with_metadata_ctx(
    ctx: &mut IpcContext,
    mp: Cap,
    msg: &TronaMsg,
    flags: u64,
    txid: u64,
) -> (r: MpRequest)
    ensures
        is_write_started(*old(ctx), mp, *msg, flags, txid, *final(ctx), r),
{
    let caps: i32 = ctx.send_cap_count;
    let saved: Option<(u64, u64)> = read_metadata(ctx);
    set_metadata(ctx, flags, txid);
    let info: u64 = msginfo(msg.label, msg.length, to_caps_word(caps));
    write_overflow_ctx(ctx, msg);
    MpRequest {
        call: on(mp, InvokeLabel::MpWrite, info, msg.regs[0], msg.regs[1], msg.regs[2]),
        caps,
        saved,
    }
}

/// What finishing an operation does to a context: staged capabilities are
/// cleared, and the reply-routing metadata is what it was before the operation.
pub open spec fn is_finished(before: IpcContext, req: MpRequest, after: IpcContext) -> bool {
    exists|mid: IpcContext|
        {
            &&& if req.caps > 0 {
                #[trigger] caps_cleared(before, mid)
            } else {
                mid == before
            }
            &&& after == match req.saved {
                Some((flags, txid)) => with_metadata(mid, flags, txid),
                None => mid,
            }
        }
}

fn finish(ctx: &mut IpcContext, req: &MpRequest)
    ensures
        is_finished(*old(ctx), *req, *final(ctx)),
{
    if req.caps > 0 {
        clear_send_caps_ctx(ctx);
    }
    let ghost mid = *ctx;
    proof {
        // the context in between is the witness
        let _ = caps_cleared(*old(ctx), mid);
    }
    match req.saved {
        Some((flags, txid)) => {
            set_metadata(ctx, flags, txid);
        },
        None => {},
    }
    assert(if req.caps > 0 {
        caps_cleared(*old(ctx), mid)
    } else {
        mid == *old(ctx)
    });
}

/// Takes the result of a write or reply: staged capabilities are cleared and the
/// reply-routing metadata is put back. Returns the error.
pub fn mp_write_done_ctx(ctx: &mut IpcContext, req: &MpRequest, result: TronaResult) -> (r: i32)
    ensures
        is_finished(*old(ctx), *req, *final(ctx)),
        r == low_i32(result.error),
{
    finish(ctx, req);
    to_i32(result.error)
}

/// Whatever the kernel did to the buffer meanwhile, a finished operation leaves
/// the reply-routing metadata as it was before the operation, and nothing
/// staged if anything was.
pub proof fn lemma_metadata_survives(
    before: IpcContext,
    req: MpRequest,
    at_done: IpcContext,
    after: IpcContext,
)
    requires
        req.saved == metadata(before),
        before.ipc_buffer is Some,
        at_done.ipc_buffer is Some,
        is_finished(at_done, req, after),
    ensures
        metadata(after) == metadata(before),
        req.caps > 0 ==> after.send_cap_count == 0 && after.ipc_buffer->0.caps@ == seq![
            0u64,
            0u64,
            0u64,
            0u64,
        ],
{
}

/// Blocking send on a MessagePipe, with any staged capabilities. Finish with
/// [`mp_write_done_ctx`].
pub fn mp_write_ctx(ctx: &mut IpcContext, mp: Cap, msg: &TronaMsg) -> (r: MpRequest)
    ensures
        is_write_started(*old(ctx), mp, *msg, 0, 0, *final(ctx), r),
{
    mp_write_with_metadata_ctx(ctx, mp, msg, 0, 0)
}

/// Non-blocking request send carrying a correlation id that the server echoes on
/// its reply. Finish with [`mp_write_done_ctx`].
pub fn mp_write_request_ctx(ctx: &mut IpcContext, mp: Cap, msg: &TronaMsg, txid: u64) -> (r:
    MpRequest)
    ensures
        is_write_started(*old(ctx), mp, *msg, 0, txid, *final(ctx), r),
{
    mp_write_with_metadata_ctx(ctx, mp, msg, 0, txid)
}

/// Blocking receive on a MessagePipe. Finish with [`mp_read_done_ctx`].
pub fn mp_read_ctx(mp: Cap) -> (r: Invocation)
    ensures
        r == on_slot(mp, InvokeLabel::MpRead, 0, 0, 0, 0),
{
    on(mp, InvokeLabel::MpRead, 0, 0, 0, 0)
}

/// Takes the result of a read: on success the record goes to `msg` and the
/// sender's badge to `badge`. Returns the error.
pub fn mp_read_done_ctx(
    ctx: &IpcContext,
    result: TronaResult,
    msg: &mut TronaMsg,
    badge: &mut u64,
) -> (r: i32)
    ensures
        r == low_i32(result.error),
        if result.error == 0 && ctx.ipc_buffer is Some {
            is_inbound(ctx.ipc_buffer->0, *final(msg)) && *final(badge)
                == ctx.ipc_buffer->0.badge
        } else {
            *final(msg) == *old(msg) && *final(badge) == *old(badge)
        },
{
    if result.error == 0 {
        match ctx.ipc_buffer {
            Some(b) => {
                *badge = b.badge;
            },
            None => {},
        }
        read_inbound_ctx(ctx, msg);
    }
    to_i32(result.error)
}

/// What starting a call does: the metadata is reset, the whole request is
/// staged, and the invocation carries the deadline.
pub open spec fn is_call_started(
    before: IpcContext,
    mp: Cap,
    msg: TronaMsg,
    deadline: u64,
    after: IpcContext,
    r: MpRequest,
) -> bool {
    &&& regs_staged(with_metadata(before, 0, 0), msg, 0, after)
    &&& r.saved == metadata(before)
    &&& r.caps == before.send_cap_count
    &&& r.call == on_slot(
        mp,
        InvokeLabel::MpCall,
        info_word(msg.label, msg.length, caps_word(before.send_cap_count)),
        deadline,
        0,
        0,
    )
}

/// Blocking call on a MessagePipe: the kernel sends the request and waits for a
/// reply record. Finish with [`mp_call_done_ctx`].
pub fn mp_call_ctx(ctx: &mut IpcContext, mp: Cap, msg: &TronaMsg, deadline: u64) -> (r: MpRequest)
    ensures
        is_call_started(*old(ctx), mp, *msg, deadline, *final(ctx), r),
{
    let caps: i32 = ctx.send_cap_count;
    let saved: Option<(u64, u64)> = read_metadata(ctx);
    set_metadata(ctx, 0, 0);
    let info: u64 = msginfo(msg.label, msg.length, to_caps_word(caps));
    write_call_request_ctx(ctx, msg);
    MpRequest { call: on(mp, InvokeLabel::MpCall, info, deadline, 0, 0), caps, saved }
}

/// Takes the result of a call: staged capabilities are cleared, on success the
/// reply record goes to `reply`, and the reply-routing metadata is put back.
/// Returns the error.
pub fn mp_call_done_ctx(
    ctx: &mut IpcContext,
    req: &MpRequest,
    result: TronaResult,
    reply: &mut TronaMsg,
) -> (r: i32)
    ensures
        r == low_i32(result.error),
        is_finished(*old(ctx), *req, *final(ctx)),
        if result.error == 0 && old(ctx).ipc_buffer is Some {
            is_inbound(old(ctx).ipc_buffer->0, *final(reply))
        } else {
            *final(reply) == *old(reply)
        },
{
    if result.error == 0 {
        read_inbound_ctx(ctx, reply);
    }
    finish(ctx, req);
    to_i32(result.error)
}

/// What staging capabilities `i..n` of a list leaves.
pub open spec fn caps_staged_from(
    before: IpcContext,
    caps: Seq<Cap>,
    i: int,
    n: int,
    after: IpcContext,
) -> bool
    decreases n - i,
{
    if i >= n {
        after == before
    } else {
        exists|mid: IpcContext|
            #[trigger] cap_staged(before, i, caps[i], mid) && caps_staged_from(
                mid,
                caps,
                i + 1,
                n,
                after,
            )
    }
}

/// Number of capabilities of a list that are sent.
pub open spec fn sent_caps(caps: Seq<Cap>) -> int {
    if caps.len() < 4 {
        caps.len() as int
    } else {
        4
    }
}

fn stage_caps(ctx: &mut IpcContext, caps: &[Cap], i: usize, n: usize)
    requires
        i <= n <= caps@.len(),
        n <= 4,
    ensures
        caps_staged_from(*old(ctx), caps@, i as int, n as int, *final(ctx)),
    decreases n - i,
{
    if i < n {
        set_send_cap_ctx(ctx, i as i32, caps[i]);
        let ghost mid = *ctx;
        stage_caps(ctx, caps, i + 1, n);
        assert(cap_staged(*old(ctx), i as int, caps@[i as int], mid));
    }
}

/// A call with capabilities staged inline; at most four of `caps` are sent.
/// Finish with [`mp_call_done_ctx`].
pub fn mp_call_with_caps_ctx(
    ctx: &mut IpcContext,
    mp: Cap,
    msg: &TronaMsg,
    caps: &[Cap],
    deadline: u64,
) -> (r: MpRequest)
    ensures
        exists|mid: IpcContext|
            {
                &&& #[trigger] caps_staged_from(
                    *old(ctx),
                    caps@,
                    0,
                    sent_caps(caps@),
                    mid,
                )
                &&& is_call_started(mid, mp, *msg, deadline, *final(ctx), r)
            },
{
    let n: usize = if caps.len() < 4 { caps.len() } else { 4 };
    stage_caps(ctx, caps, 0, n);
    let ghost mid = *ctx;
    let r: MpRequest = mp_call_ctx(ctx, mp, msg, deadline);
    assert(n == sent_caps(caps@));
    assert(caps_staged_from(*old(ctx), caps@, 0, sent_caps(caps@), mid));
    r
}

/// Sends a reply record with an explicit transaction id. Without a buffer there
/// is nothing to reply to. Finish with [`mp_write_done_ctx`].
pub fn mp_write_reply_to_ctx(
    ctx: &mut IpcContext,
    abi: &KernelAbi,
    mp: Cap,
    txid: u64,
    reply: &TronaMsg,
) -> (r: Result<MpRequest, i32>)
    ensures
        match r {
            Ok(req) => old(ctx).ipc_buffer is Some && is_write_started(
                *old(ctx),
                mp,
                *reply,
                abi.mp_flag_reply,
                txid,
                *final(ctx),
                req,
            ),
            Err(e) => old(ctx).ipc_buffer is None && e == low_i32(abi.err_invalid_operation)
                && *final(ctx) == *old(ctx),
        },
{
    if ctx.ipc_buffer.is_none() {
        return Err(to_i32(abi.err_invalid_operation));
    }
    Ok(mp_write_with_metadata_ctx(ctx, mp, reply, abi.mp_flag_reply, txid))
}

/// Replies to the last record read into the buffer. Finish with
/// [`mp_write_done_ctx`].
pub fn mp_write_reply_ctx(ctx: &mut IpcContext, abi: &KernelAbi, mp: Cap, reply: &TronaMsg) -> (r:
    Result<MpRequest, i32>)
    ensures
        match r {
            Ok(req) => old(ctx).ipc_buffer is Some && is_write_started(
                *old(ctx),
                mp,
                *reply,
                abi.mp_flag_reply,
                old(ctx).ipc_buffer->0.mp_txid,
                *final(ctx),
                req,
            ),
            Err(e) => old(ctx).ipc_buffer is None && e == low_i32(abi.err_invalid_operation)
                && *final(ctx) == *old(ctx),
        },
{
    match ctx.ipc_buffer {
        Some(b) => mp_write_reply_to_ctx(ctx, abi, mp, b.mp_txid, reply),
        None => Err(to_i32(abi.err_invalid_operation)),
    }
}

/// Server loop step: takes the result of a reply, and if it went out gives the
/// read of the next record on the same pipe.
pub fn mp_write_reply_read_ctx(
    ctx: &mut IpcContext,
    req: &MpRequest,
    mp: Cap,
    result: TronaResult,
) -> (r: Result<Invocation, i32>)
    ensures
        is_finished(*old(ctx), *req, *final(ctx)),
        match r {
            Ok(read) => low_i32(result.error) == 0 && read == on_slot(
                mp,
                InvokeLabel::MpRead,
                0,
                0,
                0,
                0,
            ),
            Err(e) => e == low_i32(result.error) && e != 0,
        },
{
    let err: i32 = mp_write_done_ctx(ctx, req, result);
    if err != 0 {
        return Err(err);
    }
    Ok(mp_read_ctx(mp))
}

// ---------------------------------------------------------------------------
// What is sent is received
// ---------------------------------------------------------------------------

/// Whether a buffer holds the record that an invocation makes of what the sender
/// staged: label and length of the info word, then the registers, of which a write
/// carries the first three in its arguments.
pub open spec fn is_delivered(call: Invocation, sent: IpcBuffer, got: IpcBuffer) -> bool {
    let label = (call.a2 as int / 0x1000) % 0x100_0000_0000;
    let length = call.a2 as int % 0x80;
    let carried = call.label == InvokeLabel::MpWrite;
    &&& got.msg@[0] == label
    &&& got.msg@[1] == length
    &&& forall|i: int|
        0 <= i < 32 && i < length ==> #[trigger] got.msg@[i + 2] == if carried && i == 0 {
            call.a3
        } else if carried && i == 1 {
            call.a4
        } else if carried && i == 2 {
            call.a5
        } else {
            sent.msg@[i + 2]
        }
}

/// Whether two messages are the same: label, length and the registers in use.
pub open spec fn same_message(a: TronaMsg, b: TronaMsg) -> bool {
    &&& a.label == b.label
    &&& a.length == b.length
    &&& forall|i: int| 0 <= i < a.length && i < 32 ==> #[trigger] a.regs@[i] == b.regs@[i]
}

/// A message that is written is received as it was, up to 32 registers; the
/// record carries the flags and the transaction id of the write, and goes to the
/// pipe that it is for.
pub proof fn lemma_written_message_is_received(
    before: IpcContext,
    mp: Cap,
    msg: TronaMsg,
    flags: u64,
    txid: u64,
    after: IpcContext,
    r: MpRequest,
    got: IpcBuffer,
    received: TronaMsg,
)
    requires
        before.ipc_buffer is Some,
        is_write_started(before, mp, msg, flags, txid, after, r),
        msg.length <= 32,
        msg.label < 0x100_0000_0000,
        is_delivered(r.call, after.ipc_buffer->0, got),
        is_inbound(got, received),
    ensures
        same_message(msg, received),
        r.call.target == Target::Slot(mp),
        after.ipc_buffer->0.mp_flags == flags && after.ipc_buffer->0.mp_txid == txid,
        after.ipc_buffer->0.caps == before.ipc_buffer->0.caps,
        0 <= before.send_cap_count <= 4 ==> (r.call.a2 as int / 0x80) % 0x20
            == before.send_cap_count,
{
    lemma_message_is_received(msg, caps_word(before.send_cap_count), r.call.a2);
    assert forall|i: int| 0 <= i < msg.length && i < 32 implies #[trigger] msg.regs@[i]
        == received.regs@[i] by {
        assert(got.msg@[i + 2] == got.msg@[2 + i]);
        let staged = after.ipc_buffer->0.msg@[i + 2];
    }
}

/// A request that is called is received as it was, up to 32 registers, and the
/// invocation carries the deadline.
pub proof fn lemma_called_message_is_received(
    before: IpcContext,
    mp: Cap,
    msg: TronaMsg,
    deadline: u64,
    after: IpcContext,
    r: MpRequest,
    got: IpcBuffer,
    received: TronaMsg,
)
    requires
        before.ipc_buffer is Some,
        is_call_started(before, mp, msg, deadline, after, r),
        msg.length <= 32,
        msg.label < 0x100_0000_0000,
        is_delivered(r.call, after.ipc_buffer->0, got),
        is_inbound(got, received),
    ensures
        same_message(msg, received),
        r.call.target == Target::Slot(mp),
        r.call.a3 == deadline,
        after.ipc_buffer->0.mp_flags == 0 && after.ipc_buffer->0.mp_txid == 0,
        after.ipc_buffer->0.caps == before.ipc_buffer->0.caps,
        0 <= before.send_cap_count <= 4 ==> (r.call.a2 as int / 0x80) % 0x20
            == before.send_cap_count,
{
    lemma_message_is_received(msg, caps_word(before.send_cap_count), r.call.a2);
    assert forall|i: int| 0 <= i < msg.length && i < 32 implies #[trigger] msg.regs@[i]
        == received.regs@[i] by {
        assert(got.msg@[i + 2] == got.msg@[2 + i]);
        let staged = after.ipc_buffer->0.msg@[i + 2];
    }
}

proof fn lemma_message_is_received(msg: TronaMsg, caps: u64, info: u64)
    requires
        msg.length <= 32,
        msg.label < 0x100_0000_0000,
        info == info_word(msg.label, msg.length, caps),
    ensures
        (info as int / 0x1000) % 0x100_0000_0000 == msg.label,
        info as int % 0x80 == msg.length,
        (info as int / 0x80) % 0x20 == caps % 0x20,
{
    lemma_msginfo_round_trip(msg.label, msg.length, caps);
}

/// Capabilities that are staged one after the other stand in the buffer in order,
/// and are counted.
pub proof fn lemma_staged_caps_are_sent(
    before: IpcContext,
    caps: Seq<Cap>,
    i: int,
    n: int,
    after: IpcContext,
)
    requires
        before.ipc_buffer is Some,
        before.send_cap_count <= n,
        0 <= i <= n <= 4,
        n <= caps.len(),
        caps_staged_from(before, caps, i, n, after),
    ensures
        after.ipc_buffer is Some,
        i < n ==> after.send_cap_count == n,
        i == n ==> after.send_cap_count == before.send_cap_count,
        forall|j: int|
            0 <= j < 4 ==> #[trigger] after.ipc_buffer->0.caps@[j] == if i <= j < n {
                caps[j]
            } else {
                before.ipc_buffer->0.caps@[j]
            },
        after.ipc_buffer->0 == (IpcBuffer {
            caps: after.ipc_buffer->0.caps,
            ..before.ipc_buffer->0
        }),
    decreases n - i,
{
    if i < n {
        let mid = choose|mid: IpcContext|
            #[trigger] cap_staged(before, i, caps[i], mid) && caps_staged_from(
                mid,
                caps,
                i + 1,
                n,
                after,
            );
        lemma_staged_caps_are_sent(mid, caps, i + 1, n, after);
    }
}

} // verus!
