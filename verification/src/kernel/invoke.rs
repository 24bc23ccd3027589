//! Capability invocations: which invocation each operation is.
//!
//! Every operation gives the [`Invocation`] to perform; a function with the same
//! name and `_done` behind it says what the operation comes to, by the answer of
//! the kernel.
use crate::kernel::abi::{
    at_depths, bool_word, low_i32, on, on_slot, pack_halves, packed, read_u16, read_u32, read_u8,
    status, status_and_flag, status_and_value, value_on_success, with_depths, written, Invocation,
    InvokeLabel, KernelAbi,
};
use crate::kernel::core_types::{CapRef, TronaResult};
use crate::loader::elf::header::Arch;
use vstd::prelude::*;

verus! {

/// Initial stack pointer of a thread that starts directly at a function. The
/// x86_64 ABI wants the stack as a call leaves it.
pub fn direct_entry_rsp(stack_top: u64, arch: Arch) -> (r: u64)
    ensures
        r == match arch {
            Arch::X86_64 => stack_top.wrapping_sub(8),
            Arch::Aarch64 => stack_top,
        },
{
    match arch {
        Arch::X86_64 => stack_top.wrapping_sub(8),
        Arch::Aarch64 => stack_top,
    }
}

/// Retype raw memory from `untyped` into a new kernel object of `new_type` with
/// `size_bits` (0 = default), placing the resulting cap at `dest_slot`. Result:
/// [`untyped_retype_done`].
pub fn untyped_retype(
    untyped: CapRef,
    new_type: u64,
    size_bits: u64,
    dest_slot: u64,
) -> (r: Invocation)
    ensures
        r == on_slot(untyped.slot(), InvokeLabel::UntypedRetype, new_type, size_bits, dest_slot, 0),
{
    on(untyped.addr(), InvokeLabel::UntypedRetype, new_type, size_bits, dest_slot, 0)
}

/// What [`untyped_retype`] comes to, by the kernel's answer.
pub fn untyped_retype_done(r: TronaResult) -> (s: i32)
    ensures
        s == low_i32(r.error),
{
    status(r)
}

/// Reset an exhausted untyped once all typed children have been destroyed.
/// Result: [`untyped_reset_done`].
pub fn untyped_reset(untyped: CapRef) -> (r: Invocation)
    ensures
        r == on_slot(untyped.slot(), InvokeLabel::UntypedReset, 0, 0, 0, 0),
{
    on(untyped.addr(), InvokeLabel::UntypedReset, 0, 0, 0, 0)
}

/// What [`untyped_reset`] comes to, by the kernel's answer.
pub fn untyped_reset_done(r: TronaResult) -> (s: i32)
    ensures
        s == low_i32(r.error),
{
    status(r)
}

/// Retype with explicit CNode depth (for expanded CSpace hierarchy). Result:
/// [`untyped_retype_depth_done`].
pub fn untyped_retype_depth(
    untyped: CapRef,
    new_type: u64,
    size_bits: u64,
    dest_slot: u64,
    dest_depth: u8,
) -> (r: Invocation)
    ensures
        r == with_depths(
            on_slot(untyped.slot(), InvokeLabel::UntypedRetype, new_type, size_bits, dest_slot, 0),
            dest_depth,
            0,
        ),
{
    at_depths(untyped_retype(untyped, new_type, size_bits, dest_slot), dest_depth, 0)
}

/// What [`untyped_retype_depth`] comes to, by the kernel's answer.
pub fn untyped_retype_depth_done(r: TronaResult) -> (s: i32)
    ensures
        s == low_i32(r.error),
{
    status(r)
}

/// Configure a TCB's instruction pointer, stack pointer, and IPC buffer
/// address. Result: [`tcb_configure_done`].
pub fn tcb_configure(tcb: CapRef, rip: u64, rsp: u64, ipc_buf: u64) -> (r: Invocation)
    ensures
        r == on_slot(tcb.slot(), InvokeLabel::TcbConfigure, rip, rsp, ipc_buf, 0),
{
    on(tcb.addr(), InvokeLabel::TcbConfigure, rip, rsp, ipc_buf, 0)
}

/// What [`tcb_configure`] comes to, by the kernel's answer.
pub fn tcb_configure_done(r: TronaResult) -> (s: i32)
    ensures
        s == low_i32(r.error),
{
    status(r)
}

/// Mark a TCB schedulable. Result: [`tcb_start_done`].
pub fn tcb_start(tcb: CapRef) -> (r: Invocation)
    ensures
        r == on_slot(tcb.slot(), InvokeLabel::TcbStart, 0, 0, 0, 0),
{
    on(tcb.addr(), InvokeLabel::TcbStart, 0, 0, 0, 0)
}

/// What [`tcb_start`] comes to, by the kernel's answer.
pub fn tcb_start_done(r: TronaResult) -> (s: i32)
    ensures
        s == low_i32(r.error),
{
    status(r)
}

/// Park a TCB at the next safe point and remove it from the scheduler ready
/// queue. Result: [`tcb_stop_done`].
pub fn tcb_stop(tcb: CapRef) -> (r: Invocation)
    ensures
        r == on_slot(tcb.slot(), InvokeLabel::TcbStop, 0, 0, 0, 0),
{
    on(tcb.addr(), InvokeLabel::TcbStop, 0, 0, 0, 0)
}

/// What [`tcb_stop`] comes to, by the kernel's answer.
pub fn tcb_stop_done(r: TronaResult) -> (s: i32)
    ensures
        s == low_i32(r.error),
{
    status(r)
}

/// Drive a TCB into terminal `Dying` state. Result: [`tcb_kill_done`].
pub fn tcb_kill(tcb: CapRef) -> (r: Invocation)
    ensures
        r == on_slot(tcb.slot(), InvokeLabel::TcbKill, 0, 0, 0, 0),
{
    on(tcb.addr(), InvokeLabel::TcbKill, 0, 0, 0, 0)
}

/// What [`tcb_kill`] comes to, by the kernel's answer.
pub fn tcb_kill_done(r: TronaResult) -> (s: i32)
    ensures
        s == low_i32(r.error),
{
    status(r)
}

/// Set a TCB's CSpace and VSpace root capabilities. Result:
/// [`tcb_set_space_done`].
pub fn tcb_set_space(tcb: CapRef, cspace: CapRef, vspace: CapRef) -> (r: Invocation)
    ensures
        r == on_slot(tcb.slot(), InvokeLabel::TcbSetSpace, cspace.slot(), vspace.slot(), 0, 0),
{
    on(tcb.addr(), InvokeLabel::TcbSetSpace, cspace.addr(), vspace.addr(), 0, 0)
}

/// What [`tcb_set_space`] comes to, by the kernel's answer.
pub fn tcb_set_space_done(r: TronaResult) -> (s: i32)
    ensures
        s == low_i32(r.error),
{
    status(r)
}

/// Set a TCB's CSpace and VSpace with explicit CNode depth. Result:
/// [`tcb_set_space_with_depth_done`].
pub fn tcb_set_space_with_depth(
    tcb: CapRef,
    cspace: CapRef,
    vspace: CapRef,
    depth: u64,
) -> (r: Invocation)
    ensures
        r == on_slot(tcb.slot(), InvokeLabel::TcbSetSpace, cspace.slot(), vspace.slot(), depth, 0),
{
    on(tcb.addr(), InvokeLabel::TcbSetSpace, cspace.addr(), vspace.addr(), depth, 0)
}

/// What [`tcb_set_space_with_depth`] comes to, by the kernel's answer.
pub fn tcb_set_space_with_depth_done(r: TronaResult) -> (s: i32)
    ensures
        s == low_i32(r.error),
{
    status(r)
}

/// Bind the fault MessagePipe for this TCB. Result:
/// [`tcb_set_fault_pipe_done`].
pub fn tcb_set_fault_pipe(tcb: CapRef, fault_mp: CapRef) -> (r: Invocation)
    ensures
        r == on_slot(tcb.slot(), InvokeLabel::TcbSetFaultPipe, fault_mp.slot(), 0, 0, 0),
{
    on(tcb.addr(), InvokeLabel::TcbSetFaultPipe, fault_mp.addr(), 0, 0, 0)
}

/// What [`tcb_set_fault_pipe`] comes to, by the kernel's answer.
pub fn tcb_set_fault_pipe_done(r: TronaResult) -> (s: i32)
    ensures
        s == low_i32(r.error),
{
    status(r)
}

/// Set the IPC buffer virtual address for a TCB. Result:
/// [`tcb_set_ipc_buffer_done`].
pub fn tcb_set_ipc_buffer(tcb: CapRef, addr: u64) -> (r: Invocation)
    ensures
        r == on_slot(tcb.slot(), InvokeLabel::TcbSetIpcBuffer, addr, 0, 0, 0),
{
    on(tcb.addr(), InvokeLabel::TcbSetIpcBuffer, addr, 0, 0, 0)
}

/// What [`tcb_set_ipc_buffer`] comes to, by the kernel's answer.
pub fn tcb_set_ipc_buffer_done(r: TronaResult) -> (s: i32)
    ensures
        s == low_i32(r.error),
{
    status(r)
}

/// Write a TCB's instruction pointer and stack pointer. Result:
/// [`tcb_write_registers_done`].
pub fn tcb_write_registers(tcb: CapRef, flags: u64, rip: u64, rsp: u64) -> (r: Invocation)
    ensures
        r == on_slot(tcb.slot(), InvokeLabel::TcbWriteRegisters, flags, rip, rsp, 0),
{
    on(tcb.addr(), InvokeLabel::TcbWriteRegisters, flags, rip, rsp, 0)
}

/// What [`tcb_write_registers`] comes to, by the kernel's answer.
pub fn tcb_write_registers_done(r: TronaResult) -> (s: i32)
    ensures
        s == low_i32(r.error),
{
    status(r)
}

/// Set a class-local scheduling priority for a TCB. Result:
/// [`tcb_set_priority_done`].
pub fn tcb_set_priority(tcb: CapRef, priority: u64) -> (r: Invocation)
    ensures
        r == on_slot(tcb.slot(), InvokeLabel::TcbSetPriority, priority, 0, 0, 0),
{
    on(tcb.addr(), InvokeLabel::TcbSetPriority, priority, 0, 0, 0)
}

/// What [`tcb_set_priority`] comes to, by the kernel's answer.
pub fn tcb_set_priority_done(r: TronaResult) -> (s: i32)
    ensures
        s == low_i32(r.error),
{
    status(r)
}

/// Copy FPU/SSE state from source TCB to destination TCB. Result:
/// [`tcb_copy_fpu_done`].
pub fn tcb_copy_fpu(dest_tcb: CapRef, src_tcb: CapRef) -> (r: Invocation)
    ensures
        r == on_slot(dest_tcb.slot(), InvokeLabel::TcbCopyFpu, src_tcb.slot(), 0, 0, 0),
{
    on(dest_tcb.addr(), InvokeLabel::TcbCopyFpu, src_tcb.addr(), 0, 0, 0)
}

/// What [`tcb_copy_fpu`] comes to, by the kernel's answer.
pub fn tcb_copy_fpu_done(r: TronaResult) -> (s: i32)
    ensures
        s == low_i32(r.error),
{
    status(r)
}

/// Set the TLS base address (FS_BASE on x86_64, TPIDR_EL0 on aarch64) for a
/// TCB. Result: [`tcb_set_tls_base_done`].
pub fn tcb_set_tls_base(tcb: CapRef, tls_base: u64) -> (r: Invocation)
    ensures
        r == on_slot(tcb.slot(), InvokeLabel::TcbSetTlsBase, tls_base, 0, 0, 0),
{
    on(tcb.addr(), InvokeLabel::TcbSetTlsBase, tls_base, 0, 0, 0)
}

/// What [`tcb_set_tls_base`] comes to, by the kernel's answer.
pub fn tcb_set_tls_base_done(r: TronaResult) -> (s: i32)
    ensures
        s == low_i32(r.error),
{
    status(r)
}

/// Set the process ABI thread pointer (GS_BASE on x86_64, x18 on aarch64).
/// Result: [`tcb_set_abi_tp_done`].
pub fn tcb_set_abi_tp(tcb: CapRef, abi_tp: u64) -> (r: Invocation)
    ensures
        r == on_slot(tcb.slot(), InvokeLabel::TcbSetAbiTp, abi_tp, 0, 0, 0),
{
    on(tcb.addr(), InvokeLabel::TcbSetAbiTp, abi_tp, 0, 0, 0)
}

/// What [`tcb_set_abi_tp`] comes to, by the kernel's answer.
pub fn tcb_set_abi_tp_done(r: TronaResult) -> (s: i32)
    ensures
        s == low_i32(r.error),
{
    status(r)
}

/// Publish the thread's usable stack reserve bounds. Result:
/// [`tcb_set_stack_bounds_done`].
pub fn tcb_set_stack_bounds(
    tcb: CapRef,
    stack_top: u64,
    stack_min: u64,
    guard_bottom: u64,
) -> (r: Invocation)
    ensures
        r == on_slot(
            tcb.slot(),
            InvokeLabel::TcbSetStackBounds,
            stack_top,
            stack_min,
            guard_bottom,
            0,
        ),
{
    on(tcb.addr(), InvokeLabel::TcbSetStackBounds, stack_top, stack_min, guard_bottom, 0)
}

/// What [`tcb_set_stack_bounds`] comes to, by the kernel's answer.
pub fn tcb_set_stack_bounds_done(r: TronaResult) -> (s: i32)
    ensures
        s == low_i32(r.error),
{
    status(r)
}

/// Select the scheduler class for a TCB. Result: [`tcb_set_sched_class_done`].
pub fn tcb_set_sched_class(tcb: CapRef, sched_class: u64) -> (r: Invocation)
    ensures
        r == on_slot(tcb.slot(), InvokeLabel::TcbSetSchedClass, sched_class, 0, 0, 0),
{
    on(tcb.addr(), InvokeLabel::TcbSetSchedClass, sched_class, 0, 0, 0)
}

/// What [`tcb_set_sched_class`] comes to, by the kernel's answer.
pub fn tcb_set_sched_class_done(r: TronaResult) -> (s: i32)
    ensures
        s == low_i32(r.error),
{
    status(r)
}

/// Asks for the CSpace depth of a thread. Result: [`space_info`].
pub fn tcb_get_space_info_ctx(tcb: CapRef) -> (r: Invocation)
    ensures
        r == on_slot(tcb.slot(), InvokeLabel::TcbGetSpaceInfo, 0, 0, 0, 0),
{
    on(tcb.addr(), InvokeLabel::TcbGetSpaceInfo, 0, 0, 0, 0)
}

/// The CSpace depth that the kernel left in the first message word, the low byte
/// of it. `None` on failure or without a message buffer.
pub fn space_info(r: TronaResult, msg: Option<&[u64; 34]>) -> (s: Option<u8>)
    ensures
        s == match msg {
            Some(m) => if r.error == 0 {
                Some((m@[0] % 0x100) as u8)
            } else {
                None
            },
            None => None,
        },
{
    if r.error != 0 {
        return None;
    }
    match msg {
        Some(m) => Some((m[0] % 0x100) as u8),
        None => None,
    }
}

/// Asks for the CPU times of a thread. Result: [`cpu_times`].
pub fn tcb_get_cpu_times_ctx(tcb: CapRef) -> (r: Invocation)
    ensures
        r == on_slot(tcb.slot(), InvokeLabel::TcbGetCpuTimes, 0, 0, 0, 0),
{
    on(tcb.addr(), InvokeLabel::TcbGetCpuTimes, 0, 0, 0, 0)
}

/// The two CPU times that the kernel left in the first message words. `None` on
/// failure or without a message buffer.
pub fn cpu_times(r: TronaResult, msg: Option<&[u64; 34]>) -> (s: Option<(u64, u64)>)
    ensures
        s == match msg {
            Some(m) => if r.error == 0 {
                Some((m@[0], m@[1]))
            } else {
                None
            },
            None => None,
        },
{
    if r.error != 0 {
        return None;
    }
    match msg {
        Some(m) => Some((m[0], m[1])),
        None => None,
    }
}

/// Read the target TCB's stable kernel trace id. Result:
/// [`tcb_get_trace_id_done`].
pub fn tcb_get_trace_id(tcb: CapRef) -> (r: Invocation)
    ensures
        r == on_slot(tcb.slot(), InvokeLabel::TcbGetTraceId, 0, 0, 0, 0),
{
    on(tcb.addr(), InvokeLabel::TcbGetTraceId, 0, 0, 0, 0)
}

/// What [`tcb_get_trace_id`] comes to, by the kernel's answer.
pub fn tcb_get_trace_id_done(r: TronaResult) -> (s: Option<u64>)
    ensures
        s == if r.error != 0 {
            None
        } else {
            Some(r.value)
        },
{
    value_on_success(r)
}

/// Configure a scheduling context with budget and period (nanoseconds). Result:
/// [`sc_configure_done`].
pub fn sc_configure(sc: CapRef, budget_ns: u64, period_ns: u64) -> (r: Invocation)
    ensures
        r == on_slot(sc.slot(), InvokeLabel::ScConfigure, budget_ns, period_ns, 0, 0),
{
    on(sc.addr(), InvokeLabel::ScConfigure, budget_ns, period_ns, 0, 0)
}

/// What [`sc_configure`] comes to, by the kernel's answer.
pub fn sc_configure_done(r: TronaResult) -> (s: i32)
    ensures
        s == low_i32(r.error),
{
    status(r)
}

/// Bind a scheduling context to a TCB. Result: [`sc_bind_done`].
pub fn sc_bind(sc: CapRef, tcb: CapRef) -> (r: Invocation)
    ensures
        r == on_slot(sc.slot(), InvokeLabel::ScBind, tcb.slot(), 0, 0, 0),
{
    on(sc.addr(), InvokeLabel::ScBind, tcb.addr(), 0, 0, 0)
}

/// What [`sc_bind`] comes to, by the kernel's answer.
pub fn sc_bind_done(r: TronaResult) -> (s: i32)
    ensures
        s == low_i32(r.error),
{
    status(r)
}

/// Map a frame capability at `vaddr` in the given VSpace with `flags`
/// (`VSPACE_FLAG_WRITABLE` / `_USER` / `_EXECUTABLE` / ...). Result:
/// [`vspace_map_done`].
pub fn vspace_map(vspace: CapRef, frame: CapRef, vaddr: u64, flags: u64) -> (r: Invocation)
    ensures
        r == on_slot(vspace.slot(), InvokeLabel::VspaceMap, frame.slot(), vaddr, flags, 0),
{
    on(vspace.addr(), InvokeLabel::VspaceMap, frame.addr(), vaddr, flags, 0)
}

/// What [`vspace_map`] comes to, by the kernel's answer.
pub fn vspace_map_done(r: TronaResult) -> (s: i32)
    ensures
        s == low_i32(r.error),
{
    status(r)
}

/// Snapshot the VSpace's per-process memory accounting counters into
/// `*out_uaddr`. Result: [`vspace_get_mem_stats_raw_done`].
pub fn vspace_get_mem_stats_raw(vspace: CapRef, out_uaddr: u64) -> (r: Invocation)
    ensures
        r == on_slot(vspace.slot(), InvokeLabel::VspaceGetMemStats, out_uaddr, 0, 0, 0),
{
    on(vspace.addr(), InvokeLabel::VspaceGetMemStats, out_uaddr, 0, 0, 0)
}

/// What [`vspace_get_mem_stats_raw`] comes to, by the kernel's answer.
pub fn vspace_get_mem_stats_raw_done(r: TronaResult) -> (s: u64)
    ensures
        s == r.error,
{
    r.error
}

/// Snapshot resident / share / dirty / PSS stats for a VSpace range into
/// `*out_uaddr`. Result: [`vspace_get_range_stats_raw_done`].
pub fn vspace_get_range_stats_raw(
    vspace: CapRef,
    start_vaddr: u64,
    page_count: u64,
    out_uaddr: u64,
) -> (r: Invocation)
    ensures
        r == on_slot(
            vspace.slot(),
            InvokeLabel::VspaceGetRangeStats,
            start_vaddr,
            page_count,
            out_uaddr,
            0,
        ),
{
    on(vspace.addr(), InvokeLabel::VspaceGetRangeStats, start_vaddr, page_count, out_uaddr, 0)
}

/// What [`vspace_get_range_stats_raw`] comes to, by the kernel's answer.
pub fn vspace_get_range_stats_raw_done(r: TronaResult) -> (s: u64)
    ensures
        s == r.error,
{
    r.error
}

/// Read the target VSpace's stable kernel trace id. Result:
/// [`vspace_get_trace_id_done`].
pub fn vspace_get_trace_id(vspace: CapRef) -> (r: Invocation)
    ensures
        r == on_slot(vspace.slot(), InvokeLabel::VspaceGetTraceId, 0, 0, 0, 0),
{
    on(vspace.addr(), InvokeLabel::VspaceGetTraceId, 0, 0, 0, 0)
}

/// What [`vspace_get_trace_id`] comes to, by the kernel's answer.
pub fn vspace_get_trace_id_done(r: TronaResult) -> (s: Option<u64>)
    ensures
        s == if r.error != 0 {
            None
        } else {
            Some(r.value)
        },
{
    value_on_success(r)
}

/// Unmap the page at `vaddr` from the given VSpace. Result:
/// [`vspace_unmap_done`].
pub fn vspace_unmap(vspace: CapRef, vaddr: u64) -> (r: Invocation)
    ensures
        r == on_slot(vspace.slot(), InvokeLabel::VspaceUnmap, vaddr, 0, 0, 0),
{
    on(vspace.addr(), InvokeLabel::VspaceUnmap, vaddr, 0, 0, 0)
}

/// What [`vspace_unmap`] comes to, by the kernel's answer.
pub fn vspace_unmap_done(r: TronaResult) -> (s: i32)
    ensures
        s == low_i32(r.error),
{
    status(r)
}

/// Change protection flags on the page at `vaddr` in the given VSpace. Result:
/// [`vspace_protect_done`].
pub fn vspace_protect(vspace: CapRef, vaddr: u64, flags: u64) -> (r: Invocation)
    ensures
        r == on_slot(vspace.slot(), InvokeLabel::VspaceProtect, vaddr, flags, 0, 0),
{
    on(vspace.addr(), InvokeLabel::VspaceProtect, vaddr, flags, 0, 0)
}

/// What [`vspace_protect`] comes to, by the kernel's answer.
pub fn vspace_protect_done(r: TronaResult) -> (s: i32)
    ensures
        s == low_i32(r.error),
{
    status(r)
}

/// Change protection flags on a contiguous range of pages. Result:
/// [`vspace_protect_range_done`].
pub fn vspace_protect_range(vspace: CapRef, vaddr: u64, count: u64, flags: u64) -> (r: Invocation)
    ensures
        r == on_slot(vspace.slot(), InvokeLabel::VspaceProtectRange, vaddr, count, flags, 0),
{
    on(vspace.addr(), InvokeLabel::VspaceProtectRange, vaddr, count, flags, 0)
}

/// What [`vspace_protect_range`] comes to, by the kernel's answer.
pub fn vspace_protect_range_done(r: TronaResult) -> (s: (i32, u64))
    ensures
        s.0 == low_i32(r.error),
        s.1 == r.value,
{
    status_and_value(r)
}

/// Map an intermediate page table at the given level for `vaddr`. Result:
/// [`vspace_map_pt_done`].
pub fn vspace_map_pt(vspace: CapRef, page_table: CapRef, vaddr: u64, level: u64) -> (r: Invocation)
    ensures
        r == on_slot(vspace.slot(), InvokeLabel::VspaceMapPt, page_table.slot(), vaddr, level, 0),
{
    on(vspace.addr(), InvokeLabel::VspaceMapPt, page_table.addr(), vaddr, level, 0)
}

/// What [`vspace_map_pt`] comes to, by the kernel's answer.
pub fn vspace_map_pt_done(r: TronaResult) -> (s: i32)
    ensures
        s == low_i32(r.error),
{
    status(r)
}

/// Walk the page table starting at `start_vaddr`, returning up to `max_entries`
/// mapping entries via the IPC buffer. Result: [`vspace_walk_done`].
pub fn vspace_walk(vspace: CapRef, start_vaddr: u64, max_entries: u64) -> (r: Invocation)
    ensures
        r == on_slot(vspace.slot(), InvokeLabel::VspaceWalk, start_vaddr, max_entries, 0, 0),
{
    on(vspace.addr(), InvokeLabel::VspaceWalk, start_vaddr, max_entries, 0, 0)
}

/// What [`vspace_walk`] comes to, by the kernel's answer.
pub fn vspace_walk_done(r: TronaResult) -> (s: i32)
    ensures
        s == low_i32(r.error),
{
    status(r)
}

/// Resolve exactly `vaddr` in `vspace` to a present physical address. Result:
/// [`vspace_resolve_page_done`].
pub fn vspace_resolve_page(vspace: CapRef, vaddr: u64) -> (r: Invocation)
    ensures
        r == on_slot(vspace.slot(), InvokeLabel::VspaceResolvePage, vaddr, 0, 0, 0),
{
    on(vspace.addr(), InvokeLabel::VspaceResolvePage, vaddr, 0, 0, 0)
}

/// What [`vspace_resolve_page`] comes to, by the kernel's answer.
pub fn vspace_resolve_page_done(r: TronaResult) -> (s: (i32, u64))
    ensures
        s.0 == low_i32(r.error),
        s.1 == r.value,
{
    status_and_value(r)
}

/// Start word offset in the message buffer page for walk tuples.
pub const VSPACE_WALK_ENTRY_BASE_WORD: usize = 42;

/// Words per walk tuple.
pub const VSPACE_WALK_ENTRY_WORDS: usize = 3;

/// Reads the two header words of a walk result from the message buffer page.
pub fn vspace_walk_result_header_ctx(page: Option<&[u64; 512]>) -> (r: Option<(u64, u64)>)
    ensures
        r == match page {
            Some(p) => Some((p@[0], p@[1])),
            None => None,
        },
{
    match page {
        Some(p) => Some((p[0], p[1])),
        None => None,
    }
}

/// Reads tuple `index` of a walk result from the message buffer page; `None` if
/// the page does not hold that many.
pub fn vspace_walk_result_entry_ctx(page: Option<&[u64; 512]>, index: usize) -> (r: Option<
    (u64, u64, u64),
>)
    ensures
        r == match page {
            Some(p) => {
                let at = 42 + index * 3;
                if at + 2 < 512 {
                    Some((p@[at], p@[at + 1], p@[at + 2]))
                } else {
                    None
                }
            },
            None => None,
        },
{
    match page {
        Some(p) => {
            if index > 155 {
                return None;
            }
            let at: usize = VSPACE_WALK_ENTRY_BASE_WORD + index * VSPACE_WALK_ENTRY_WORDS;
            Some((p[at], p[at + 1], p[at + 2]))
        },
        None => None,
    }
}

/// Copy page contents from `src_vaddr` in `src_vspace` into `dst_frame`.
/// Result: [`vspace_copy_page_done`].
pub fn vspace_copy_page(src_vspace: CapRef, src_vaddr: u64, dst_frame: CapRef) -> (r: Invocation)
    ensures
        r == on_slot(
            src_vspace.slot(),
            InvokeLabel::VspaceCopyPage,
            src_vaddr,
            dst_frame.slot(),
            0,
            0,
        ),
{
    on(src_vspace.addr(), InvokeLabel::VspaceCopyPage, src_vaddr, dst_frame.addr(), 0, 0)
}

/// What [`vspace_copy_page`] comes to, by the kernel's answer.
pub fn vspace_copy_page_done(r: TronaResult) -> (s: i32)
    ensures
        s == low_i32(r.error),
{
    status(r)
}

/// Map a single 4 KiB page from a device untyped region into a VSpace. Result:
/// [`vspace_map_device_done`].
pub fn vspace_map_device(
    vspace: CapRef,
    device_untyped: CapRef,
    page_offset: u64,
    vaddr: u64,
    flags: u64,
) -> (r: Invocation)
    ensures
        r == on_slot(
            vspace.slot(),
            InvokeLabel::VspaceMapDevice,
            device_untyped.slot(),
            page_offset,
            vaddr,
            flags,
        ),
{
    on(
        vspace.addr(),
        InvokeLabel::VspaceMapDevice,
        device_untyped.addr(),
        page_offset,
        vaddr,
        flags,
    )
}

/// What [`vspace_map_device`] comes to, by the kernel's answer.
pub fn vspace_map_device_done(r: TronaResult) -> (s: i32)
    ensures
        s == low_i32(r.error),
{
    status(r)
}

/// Batch-map contiguous 4 KiB pages from a device untyped region. Result:
/// [`vspace_map_device_range_done`].
pub fn vspace_map_device_range(
    vspace: CapRef,
    device_untyped: CapRef,
    offset_start: u64,
    vaddr_start: u64,
    num_pages: u64,
    flags: u64,
) -> (r: Invocation)
    ensures
        r == on_slot(
            vspace.slot(),
            InvokeLabel::VspaceMapDeviceRange,
            device_untyped.slot(),
            offset_start,
            vaddr_start,
            packed(num_pages, flags),
        ),
{
    on(
        vspace.addr(),
        InvokeLabel::VspaceMapDeviceRange,
        device_untyped.addr(),
        offset_start,
        vaddr_start,
        pack_halves(num_pages, flags),
    )
}

/// What [`vspace_map_device_range`] comes to, by the kernel's answer.
pub fn vspace_map_device_range_done(r: TronaResult) -> (s: (i32, u64))
    ensures
        s.0 == low_i32(r.error),
        s.1 == r.value,
{
    status_and_value(r)
}

/// Share a read-only page from src VSpace to dst VSpace. Result:
/// [`vspace_share_ro_page_done`].
pub fn vspace_share_ro_page(
    src_vspace: CapRef,
    src_vaddr: u64,
    dst_vspace: CapRef,
    dst_vaddr: u64,
) -> (r: Invocation)
    ensures
        r == on_slot(
            src_vspace.slot(),
            InvokeLabel::VspaceShareRoPage,
            src_vaddr,
            dst_vspace.slot(),
            dst_vaddr,
            0,
        ),
{
    on(
        src_vspace.addr(),
        InvokeLabel::VspaceShareRoPage,
        src_vaddr,
        dst_vspace.addr(),
        dst_vaddr,
        0,
    )
}

/// What [`vspace_share_ro_page`] comes to, by the kernel's answer.
pub fn vspace_share_ro_page_done(r: TronaResult) -> (s: i32)
    ensures
        s == low_i32(r.error),
{
    status(r)
}

/// Install a demand-page PTE at `vaddr` in the given VSpace. Result:
/// [`vspace_map_demand_done`].
pub fn vspace_map_demand(vspace: CapRef, vaddr: u64, flags: u64) -> (r: Invocation)
    ensures
        r == on_slot(vspace.slot(), InvokeLabel::VspaceMapDemand, vaddr, flags, 0, 0),
{
    on(vspace.addr(), InvokeLabel::VspaceMapDemand, vaddr, flags, 0, 0)
}

/// What [`vspace_map_demand`] comes to, by the kernel's answer.
pub fn vspace_map_demand_done(r: TronaResult) -> (s: i32)
    ensures
        s == low_i32(r.error),
{
    status(r)
}

/// Configure a pre-allocated frame pool for kernel-side COW fast-path. Result:
/// [`vspace_set_cow_pool_done`].
pub fn vspace_set_cow_pool(
    vspace: CapRef,
    pool_frame: CapRef,
    src_cnode: CapRef,
    count: u64,
) -> (r: Invocation)
    ensures
        r == on_slot(
            vspace.slot(),
            InvokeLabel::VspaceSetCowPool,
            pool_frame.slot(),
            src_cnode.slot(),
            count,
            0,
        ),
{
    on(vspace.addr(), InvokeLabel::VspaceSetCowPool, pool_frame.addr(), src_cnode.addr(), count, 0)
}

/// What [`vspace_set_cow_pool`] comes to, by the kernel's answer.
pub fn vspace_set_cow_pool_done(r: TronaResult) -> (s: i32)
    ensures
        s == low_i32(r.error),
{
    status(r)
}

/// Replenish consumed pool entries with new Frame caps. Result:
/// [`vspace_replenish_cow_pool_done`].
pub fn vspace_replenish_cow_pool(
    vspace: CapRef,
    src_cnode: CapRef,
    start_slot: u64,
    count: u64,
) -> (r: Invocation)
    ensures
        r == on_slot(
            vspace.slot(),
            InvokeLabel::VspaceReplenishCowPool,
            src_cnode.slot(),
            start_slot,
            count,
            0,
        ),
{
    on(vspace.addr(), InvokeLabel::VspaceReplenishCowPool, src_cnode.addr(), start_slot, count, 0)
}

/// What [`vspace_replenish_cow_pool`] comes to, by the kernel's answer.
pub fn vspace_replenish_cow_pool_done(r: TronaResult) -> (s: i32)
    ensures
        s == low_i32(r.error),
{
    status(r)
}

/// Install demand-page PTEs for a contiguous range. Result:
/// [`vspace_map_demand_range_done`].
pub fn vspace_map_demand_range(
    vspace: CapRef,
    vaddr_start: u64,
    count: u64,
    flags: u64,
) -> (r: Invocation)
    ensures
        r == on_slot(
            vspace.slot(),
            InvokeLabel::VspaceMapDemandRange,
            vaddr_start,
            count,
            flags,
            0,
        ),
{
    on(vspace.addr(), InvokeLabel::VspaceMapDemandRange, vaddr_start, count, flags, 0)
}

/// What [`vspace_map_demand_range`] comes to, by the kernel's answer.
pub fn vspace_map_demand_range_done(r: TronaResult) -> (s: (i32, u64))
    ensures
        s.0 == low_i32(r.error),
        s.1 == r.value,
{
    status_and_value(r)
}

/// Fork a range of pages from parent VSpace (invoke target) to child VSpace.
/// Result: [`vspace_fork_range_done`].
pub fn vspace_fork_range(
    parent_vspace: CapRef,
    child_vspace: CapRef,
    state: CapRef,
    parent_shadow_mo: CapRef,
    child_mo: CapRef,
    va_start: u64,
    rollback_buffer_uaddr: u64,
) -> (r: Invocation)
    ensures
        r == on_slot(
            parent_vspace.slot(),
            InvokeLabel::VspaceForkRange,
            packed(state.slot(), child_vspace.slot()),
            packed(parent_shadow_mo.slot(), child_mo.slot()),
            va_start,
            rollback_buffer_uaddr,
        ),
{
    on(
        parent_vspace.addr(),
        InvokeLabel::VspaceForkRange,
        pack_halves(state.addr(), child_vspace.addr()),
        pack_halves(parent_shadow_mo.addr(), child_mo.addr()),
        va_start,
        rollback_buffer_uaddr,
    )
}

/// What [`vspace_fork_range`] comes to, by the kernel's answer.
pub fn vspace_fork_range_done(r: TronaResult) -> (s: (i32, u64))
    ensures
        s.0 == low_i32(r.error),
        s.1 == r.value,
{
    status_and_value(r)
}

/// Reverse a previously successful `vspace_fork_range` chunk. Result:
/// [`vspace_undo_fork_range_done`].
pub fn vspace_undo_fork_range(
    parent_vspace: CapRef,
    child_vspace: CapRef,
    parent_shadow_mo: CapRef,
    child_mo: CapRef,
    va_start: u64,
    rollback_buffer_uaddr: u64,
) -> (r: Invocation)
    ensures
        r == on_slot(
            parent_vspace.slot(),
            InvokeLabel::VspaceUndoForkRange,
            child_vspace.slot(),
            packed(parent_shadow_mo.slot(), child_mo.slot()),
            va_start,
            rollback_buffer_uaddr,
        ),
{
    on(
        parent_vspace.addr(),
        InvokeLabel::VspaceUndoForkRange,
        child_vspace.addr(),
        pack_halves(parent_shadow_mo.addr(), child_mo.addr()),
        va_start,
        rollback_buffer_uaddr,
    )
}

/// What [`vspace_undo_fork_range`] comes to, by the kernel's answer.
pub fn vspace_undo_fork_range_done(r: TronaResult) -> (s: i32)
    ensures
        s == low_i32(r.error),
{
    status(r)
}

/// Set the guard value and guard bits on a CNode. Result:
/// [`cnode_set_guard_done`].
pub fn cnode_set_guard(cnode: CapRef, guard: u64, guard_bits: u64) -> (r: Invocation)
    ensures
        r == on_slot(cnode.slot(), InvokeLabel::CnodeSetGuard, guard, guard_bits, 0, 0),
{
    on(cnode.addr(), InvokeLabel::CnodeSetGuard, guard, guard_bits, 0, 0)
}

/// What [`cnode_set_guard`] comes to, by the kernel's answer.
pub fn cnode_set_guard_done(r: TronaResult) -> (s: i32)
    ensures
        s == low_i32(r.error),
{
    status(r)
}

/// Query CNode metadata via IPC buffer. Result: the answer itself.
pub fn cnode_get_info(cnode: CapRef) -> (r: Invocation)
    ensures
        r == on_slot(cnode.slot(), InvokeLabel::CnodeGetInfo, 0, 0, 0, 0),
{
    on(cnode.addr(), InvokeLabel::CnodeGetInfo, 0, 0, 0, 0)
}

/// Bind an IRQ handler to an EventQueue. Result: [`irq_bind_eq_done`].
pub fn irq_bind_eq(irq_handler: CapRef, eq: CapRef, cookie: u64) -> (r: Invocation)
    ensures
        r == on_slot(irq_handler.slot(), InvokeLabel::IrqBindEq, eq.slot(), cookie, 0, 0),
{
    on(irq_handler.addr(), InvokeLabel::IrqBindEq, eq.addr(), cookie, 0, 0)
}

/// What [`irq_bind_eq`] comes to, by the kernel's answer.
pub fn irq_bind_eq_done(r: TronaResult) -> (s: i32)
    ensures
        s == low_i32(r.error),
{
    status(r)
}

/// Detach an IRQ handler from any bound EventQueue. Result:
/// [`irq_unbind_eq_done`].
pub fn irq_unbind_eq(irq_handler: CapRef) -> (r: Invocation)
    ensures
        r == on_slot(irq_handler.slot(), InvokeLabel::IrqUnbindEq, 0, 0, 0, 0),
{
    on(irq_handler.addr(), InvokeLabel::IrqUnbindEq, 0, 0, 0, 0)
}

/// What [`irq_unbind_eq`] comes to, by the kernel's answer.
pub fn irq_unbind_eq_done(r: TronaResult) -> (s: i32)
    ensures
        s == low_i32(r.error),
{
    status(r)
}

/// Acknowledge an IRQ (re-enable it in the interrupt controller). Result:
/// [`irq_ack_done`].
pub fn irq_ack(irq_handler: CapRef) -> (r: Invocation)
    ensures
        r == on_slot(irq_handler.slot(), InvokeLabel::IrqAck, 0, 0, 0, 0),
{
    on(irq_handler.addr(), InvokeLabel::IrqAck, 0, 0, 0, 0)
}

/// What [`irq_ack`] comes to, by the kernel's answer.
pub fn irq_ack_done(r: TronaResult) -> (s: i32)
    ensures
        s == low_i32(r.error),
{
    status(r)
}

/// Acknowledge the interrupt of an IRQ handler, like [`irq_ack`]. Result:
/// [`irq_handler_ack_done`].
pub fn irq_handler_ack(irq_handler: CapRef) -> (r: Invocation)
    ensures
        r == on_slot(irq_handler.slot(), InvokeLabel::IrqAck, 0, 0, 0, 0),
{
    irq_ack(irq_handler)
}

/// What [`irq_handler_ack`] comes to, by the kernel's answer.
pub fn irq_handler_ack_done(r: TronaResult) -> (s: i32)
    ensures
        s == low_i32(r.error),
{
    status(r)
}

/// Read an 8-bit value from an I/O port. Result: [`ioport_read_8_done`].
pub fn ioport_read_8(ioport: CapRef, port: u64) -> (r: Invocation)
    ensures
        r == on_slot(ioport.slot(), InvokeLabel::IoportRead8, port, 0, 0, 0),
{
    on(ioport.addr(), InvokeLabel::IoportRead8, port, 0, 0, 0)
}

/// What [`ioport_read_8`] comes to, by the kernel's answer.
pub fn ioport_read_8_done(r: TronaResult) -> (s: Result<u8, i32>)
    ensures
        match s {
            Ok(v) => r.error == 0 && v == r.value % 0x100,
            Err(e) => r.error != 0 && e == low_i32(r.error),
        },
{
    read_u8(r)
}

/// Read a 8-bit value from an I/O port, like [`ioport_read_8`]. Result:
/// [`ioport_in8_done`].
pub fn ioport_in8(ioport: CapRef, port: u64) -> (r: Invocation)
    ensures
        r == on_slot(ioport.slot(), InvokeLabel::IoportRead8, port, 0, 0, 0),
{
    ioport_read_8(ioport, port)
}

/// What [`ioport_in8`] comes to, by the kernel's answer.
pub fn ioport_in8_done(r: TronaResult) -> (s: Result<u8, i32>)
    ensures
        match s {
            Ok(v) => r.error == 0 && v == r.value % 0x100,
            Err(e) => r.error != 0 && e == low_i32(r.error),
        },
{
    read_u8(r)
}

/// Write an 8-bit value to an I/O port. Result: [`ioport_write_8_done`].
pub fn ioport_write_8(ioport: CapRef, port: u64, value: u8) -> (r: Invocation)
    ensures
        r == on_slot(ioport.slot(), InvokeLabel::IoportWrite8, port, value as u64, 0, 0),
{
    on(ioport.addr(), InvokeLabel::IoportWrite8, port, value as u64, 0, 0)
}

/// What [`ioport_write_8`] comes to, by the kernel's answer.
pub fn ioport_write_8_done(r: TronaResult) -> (s: Result<(), i32>)
    ensures
        match s {
            Ok(_) => r.error == 0,
            Err(e) => r.error != 0 && e == low_i32(r.error),
        },
{
    written(r)
}

/// Write a 8-bit value to an I/O port, like [`ioport_write_8`]. Result:
/// [`ioport_out8_done`].
pub fn ioport_out8(ioport: CapRef, port: u64, value: u8) -> (r: Invocation)
    ensures
        r == on_slot(ioport.slot(), InvokeLabel::IoportWrite8, port, value as u64, 0, 0),
{
    ioport_write_8(ioport, port, value)
}

/// What [`ioport_out8`] comes to, by the kernel's answer.
pub fn ioport_out8_done(r: TronaResult) -> (s: Result<(), i32>)
    ensures
        match s {
            Ok(_) => r.error == 0,
            Err(e) => r.error != 0 && e == low_i32(r.error),
        },
{
    written(r)
}

/// Read a 16-bit value from an I/O port. Result: [`ioport_read_16_done`].
pub fn ioport_read_16(ioport: CapRef, port: u64) -> (r: Invocation)
    ensures
        r == on_slot(ioport.slot(), InvokeLabel::IoportRead16, port, 0, 0, 0),
{
    on(ioport.addr(), InvokeLabel::IoportRead16, port, 0, 0, 0)
}

/// What [`ioport_read_16`] comes to, by the kernel's answer.
pub fn ioport_read_16_done(r: TronaResult) -> (s: Result<u16, i32>)
    ensures
        match s {
            Ok(v) => r.error == 0 && v == r.value % 0x1_0000,
            Err(e) => r.error != 0 && e == low_i32(r.error),
        },
{
    read_u16(r)
}

/// Read a 16-bit value from an I/O port, like [`ioport_read_16`]. Result:
/// [`ioport_in16_done`].
pub fn ioport_in16(ioport: CapRef, port: u64) -> (r: Invocation)
    ensures
        r == on_slot(ioport.slot(), InvokeLabel::IoportRead16, port, 0, 0, 0),
{
    ioport_read_16(ioport, port)
}

/// What [`ioport_in16`] comes to, by the kernel's answer.
pub fn ioport_in16_done(r: TronaResult) -> (s: Result<u16, i32>)
    ensures
        match s {
            Ok(v) => r.error == 0 && v == r.value % 0x1_0000,
            Err(e) => r.error != 0 && e == low_i32(r.error),
        },
{
    read_u16(r)
}

/// Write a 16-bit value to an I/O port. Result: [`ioport_write_16_done`].
pub fn ioport_write_16(ioport: CapRef, port: u64, value: u16) -> (r: Invocation)
    ensures
        r == on_slot(ioport.slot(), InvokeLabel::IoportWrite16, port, value as u64, 0, 0),
{
    on(ioport.addr(), InvokeLabel::IoportWrite16, port, value as u64, 0, 0)
}

/// What [`ioport_write_16`] comes to, by the kernel's answer.
pub fn ioport_write_16_done(r: TronaResult) -> (s: Result<(), i32>)
    ensures
        match s {
            Ok(_) => r.error == 0,
            Err(e) => r.error != 0 && e == low_i32(r.error),
        },
{
    written(r)
}

/// Write a 16-bit value to an I/O port, like [`ioport_write_16`]. Result:
/// [`ioport_out16_done`].
pub fn ioport_out16(ioport: CapRef, port: u64, value: u16) -> (r: Invocation)
    ensures
        r == on_slot(ioport.slot(), InvokeLabel::IoportWrite16, port, value as u64, 0, 0),
{
    ioport_write_16(ioport, port, value)
}

/// What [`ioport_out16`] comes to, by the kernel's answer.
pub fn ioport_out16_done(r: TronaResult) -> (s: Result<(), i32>)
    ensures
        match s {
            Ok(_) => r.error == 0,
            Err(e) => r.error != 0 && e == low_i32(r.error),
        },
{
    written(r)
}

/// Read a 32-bit value from an I/O port. Result: [`ioport_read_32_done`].
pub fn ioport_read_32(ioport: CapRef, port: u64) -> (r: Invocation)
    ensures
        r == on_slot(ioport.slot(), InvokeLabel::IoportRead32, port, 0, 0, 0),
{
    on(ioport.addr(), InvokeLabel::IoportRead32, port, 0, 0, 0)
}

/// What [`ioport_read_32`] comes to, by the kernel's answer.
pub fn ioport_read_32_done(r: TronaResult) -> (s: Result<u32, i32>)
    ensures
        match s {
            Ok(v) => r.error == 0 && v == r.value % 0x1_0000_0000,
            Err(e) => r.error != 0 && e == low_i32(r.error),
        },
{
    read_u32(r)
}

/// Read a 32-bit value from an I/O port, like [`ioport_read_32`]. Result:
/// [`ioport_in32_done`].
pub fn ioport_in32(ioport: CapRef, port: u64) -> (r: Invocation)
    ensures
        r == on_slot(ioport.slot(), InvokeLabel::IoportRead32, port, 0, 0, 0),
{
    ioport_read_32(ioport, port)
}

/// What [`ioport_in32`] comes to, by the kernel's answer.
pub fn ioport_in32_done(r: TronaResult) -> (s: Result<u32, i32>)
    ensures
        match s {
            Ok(v) => r.error == 0 && v == r.value % 0x1_0000_0000,
            Err(e) => r.error != 0 && e == low_i32(r.error),
        },
{
    read_u32(r)
}

/// Write a 32-bit value to an I/O port. Result: [`ioport_write_32_done`].
pub fn ioport_write_32(ioport: CapRef, port: u64, value: u32) -> (r: Invocation)
    ensures
        r == on_slot(ioport.slot(), InvokeLabel::IoportWrite32, port, value as u64, 0, 0),
{
    on(ioport.addr(), InvokeLabel::IoportWrite32, port, value as u64, 0, 0)
}

/// What [`ioport_write_32`] comes to, by the kernel's answer.
pub fn ioport_write_32_done(r: TronaResult) -> (s: Result<(), i32>)
    ensures
        match s {
            Ok(_) => r.error == 0,
            Err(e) => r.error != 0 && e == low_i32(r.error),
        },
{
    written(r)
}

/// Write a 32-bit value to an I/O port, like [`ioport_write_32`]. Result:
/// [`ioport_out32_done`].
pub fn ioport_out32(ioport: CapRef, port: u64, value: u32) -> (r: Invocation)
    ensures
        r == on_slot(ioport.slot(), InvokeLabel::IoportWrite32, port, value as u64, 0, 0),
{
    ioport_write_32(ioport, port, value)
}

/// What [`ioport_out32`] comes to, by the kernel's answer.
pub fn ioport_out32_done(r: TronaResult) -> (s: Result<(), i32>)
    ensures
        match s {
            Ok(_) => r.error == 0,
            Err(e) => r.error != 0 && e == low_i32(r.error),
        },
{
    written(r)
}

/// Commit `count` pages starting at `offset` in a MemoryObject. Result:
/// [`mo_commit_done`].
pub fn mo_commit(mo: CapRef, offset: u64, count: u64, ut_cap: u64) -> (r: Invocation)
    ensures
        r == on_slot(mo.slot(), InvokeLabel::MoCommit, offset, count, ut_cap, 0),
{
    on(mo.addr(), InvokeLabel::MoCommit, offset, count, ut_cap, 0)
}

/// What [`mo_commit`] comes to, by the kernel's answer.
pub fn mo_commit_done(r: TronaResult) -> (s: i32)
    ensures
        s == low_i32(r.error),
{
    status(r)
}

/// Decommit `count` pages starting at `offset`. Result: [`mo_decommit_done`].
pub fn mo_decommit(mo: CapRef, offset: u64, count: u64) -> (r: Invocation)
    ensures
        r == on_slot(mo.slot(), InvokeLabel::MoDecommit, offset, count, 0, 0),
{
    on(mo.addr(), InvokeLabel::MoDecommit, offset, count, 0, 0)
}

/// What [`mo_decommit`] comes to, by the kernel's answer.
pub fn mo_decommit_done(r: TronaResult) -> (s: i32)
    ensures
        s == low_i32(r.error),
{
    status(r)
}

/// Get the page count of a MemoryObject. Result: [`mo_get_size_done`].
pub fn mo_get_size(mo: CapRef) -> (r: Invocation)
    ensures
        r == on_slot(mo.slot(), InvokeLabel::MoGetSize, 0, 0, 0, 0),
{
    on(mo.addr(), InvokeLabel::MoGetSize, 0, 0, 0, 0)
}

/// What [`mo_get_size`] comes to, by the kernel's answer.
pub fn mo_get_size_done(r: TronaResult) -> (s: (i32, u64))
    ensures
        s.0 == low_i32(r.error),
        s.1 == r.value,
{
    status_and_value(r)
}

/// Initialize an existing child MemoryObject as a COW clone of `mo`. Result:
/// [`mo_clone_done`].
pub fn mo_clone(mo: CapRef, child_mo: CapRef, flags: u64, state: CapRef) -> (r: Invocation)
    ensures
        r == on_slot(mo.slot(), InvokeLabel::MoClone, child_mo.slot(), flags, state.slot(), 0),
{
    on(mo.addr(), InvokeLabel::MoClone, child_mo.addr(), flags, state.addr(), 0)
}

/// What [`mo_clone`] comes to, by the kernel's answer.
pub fn mo_clone_done(r: TronaResult) -> (s: i32)
    ensures
        s == low_i32(r.error),
{
    status(r)
}

/// Initialize an existing child MemoryObject as a COW clone of a **sub-range**
/// of `mo`: `child_page_count` pages starting `offset_pages` into the parent.
/// Result: [`mo_clone_range_done`].
pub fn mo_clone_range(
    mo: CapRef,
    child_mo: CapRef,
    offset_pages: u64,
    child_page_count: u64,
    state: CapRef,
) -> (r: Invocation)
    ensures
        r == on_slot(
            mo.slot(),
            InvokeLabel::MoCloneRange,
            child_mo.slot(),
            offset_pages,
            child_page_count,
            state.slot(),
        ),
{
    on(
        mo.addr(),
        InvokeLabel::MoCloneRange,
        child_mo.addr(),
        offset_pages,
        child_page_count,
        state.addr(),
    )
}

/// What [`mo_clone_range`] comes to, by the kernel's answer.
pub fn mo_clone_range_done(r: TronaResult) -> (s: i32)
    ensures
        s == low_i32(r.error),
{
    status(r)
}

/// Confer EXECUTE on a MemoryObject - the sole kernel source of EXECUTE.
/// Result: [`mo_mark_executable_done`].
pub fn mo_mark_executable(
    exec_authority: CapRef,
    src_mo: CapRef,
    dest_cnode: CapRef,
    dest_slot: u64,
) -> (r: Invocation)
    ensures
        r == with_depths(
            on_slot(
                exec_authority.slot(),
                InvokeLabel::MoMarkExecutable,
                src_mo.slot(),
                dest_cnode.slot(),
                dest_slot,
                0,
            ),
            src_mo.levels(),
            0,
        ),
{
    mo_mark_executable_ref(exec_authority, src_mo, dest_cnode, CapRef::flat(dest_slot))
}

/// What [`mo_mark_executable`] comes to, by the kernel's answer.
pub fn mo_mark_executable_done(r: TronaResult) -> (s: i32)
    ensures
        s == low_i32(r.error),
{
    status(r)
}

/// Confer EXECUTE on a MemoryObject, with a destination slot that carries its
/// depth. Result: [`mo_mark_executable_ref_done`].
pub fn mo_mark_executable_ref(
    exec_authority: CapRef,
    src_mo: CapRef,
    dest_cnode: CapRef,
    dest_slot: CapRef,
) -> (r: Invocation)
    ensures
        r == with_depths(
            on_slot(
                exec_authority.slot(),
                InvokeLabel::MoMarkExecutable,
                src_mo.slot(),
                dest_cnode.slot(),
                dest_slot.slot(),
                0,
            ),
            src_mo.levels(),
            dest_slot.levels(),
        ),
{
    at_depths(
        on(
            exec_authority.addr(),
            InvokeLabel::MoMarkExecutable,
            src_mo.addr(),
            dest_cnode.addr(),
            dest_slot.addr(),
            0,
        ),
        src_mo.depth(),
        dest_slot.depth(),
    )
}

/// What [`mo_mark_executable_ref`] comes to, by the kernel's answer.
pub fn mo_mark_executable_ref_done(r: TronaResult) -> (s: i32)
    ensures
        s == low_i32(r.error),
{
    status(r)
}

/// Populate a freshly-retyped (empty `Anon`) MemoryObject with borrowed device
/// frames, atomically flipping its kind to `BorrowedFrames`. Result:
/// [`mo_populate_borrowed_done`].
pub fn mo_populate_borrowed(
    mo: CapRef,
    device_ut: CapRef,
    device_offset: u64,
    page_count: u64,
) -> (r: Invocation)
    ensures
        r == on_slot(
            mo.slot(),
            InvokeLabel::MoPopulateBorrowed,
            device_ut.slot(),
            device_offset,
            page_count,
            0,
        ),
{
    on(mo.addr(), InvokeLabel::MoPopulateBorrowed, device_ut.addr(), device_offset, page_count, 0)
}

/// What [`mo_populate_borrowed`] comes to, by the kernel's answer.
pub fn mo_populate_borrowed_done(r: TronaResult) -> (s: i32)
    ensures
        s == low_i32(r.error),
{
    status(r)
}

/// Resize a MemoryObject (only works if created with the resizable flag).
/// Result: [`mo_resize_done`].
pub fn mo_resize(mo: CapRef, new_page_count: u64) -> (r: Invocation)
    ensures
        r == on_slot(mo.slot(), InvokeLabel::MoResize, new_page_count, 0, 0, 0),
{
    on(mo.addr(), InvokeLabel::MoResize, new_page_count, 0, 0, 0)
}

/// What [`mo_resize`] comes to, by the kernel's answer.
pub fn mo_resize_done(r: TronaResult) -> (s: i32)
    ensures
        s == low_i32(r.error),
{
    status(r)
}

/// Read bytes from a committed MemoryObject range into the caller IPC buffer.
/// Result: [`mo_read_done`].
pub fn mo_read(mo: CapRef, offset: u64, count: u64) -> (r: Invocation)
    ensures
        r == on_slot(mo.slot(), InvokeLabel::MoRead, offset, count, 0, 0),
{
    on(mo.addr(), InvokeLabel::MoRead, offset, count, 0, 0)
}

/// What [`mo_read`] comes to, by the kernel's answer.
pub fn mo_read_done(r: TronaResult) -> (s: (i32, u64))
    ensures
        s.0 == low_i32(r.error),
        s.1 == r.value,
{
    status_and_value(r)
}

/// Write bytes from the caller IPC buffer into a committed MemoryObject range.
/// Result: [`mo_write_done`].
pub fn mo_write(mo: CapRef, offset: u64, count: u64) -> (r: Invocation)
    ensures
        r == on_slot(mo.slot(), InvokeLabel::MoWrite, offset, count, 0, 0),
{
    on(mo.addr(), InvokeLabel::MoWrite, offset, count, 0, 0)
}

/// What [`mo_write`] comes to, by the kernel's answer.
pub fn mo_write_done(r: TronaResult) -> (s: (i32, u64))
    ensures
        s.0 == low_i32(r.error),
        s.1 == r.value,
{
    status_and_value(r)
}

/// Return whether a page already resolves in this MemoryObject or any COW
/// ancestor. Result: [`mo_has_page_done`].
pub fn mo_has_page(mo: CapRef, page_index: u64) -> (r: Invocation)
    ensures
        r == on_slot(mo.slot(), InvokeLabel::MoHasPage, page_index, 0, 0, 0),
{
    on(mo.addr(), InvokeLabel::MoHasPage, page_index, 0, 0, 0)
}

/// What [`mo_has_page`] comes to, by the kernel's answer.
pub fn mo_has_page_done(r: TronaResult) -> (s: (i32, bool))
    ensures
        s.0 == low_i32(r.error),
        s.1 == (r.value != 0),
{
    status_and_flag(r)
}

/// Return the number of reverse-map entries currently observing this
/// MemoryObject. Result: [`mo_get_map_count_done`].
pub fn mo_get_map_count(mo: CapRef) -> (r: Invocation)
    ensures
        r == on_slot(mo.slot(), InvokeLabel::MoGetMapCount, 0, 0, 0, 0),
{
    on(mo.addr(), InvokeLabel::MoGetMapCount, 0, 0, 0, 0)
}

/// What [`mo_get_map_count`] comes to, by the kernel's answer.
pub fn mo_get_map_count_done(r: TronaResult) -> (s: (i32, u64))
    ensures
        s.0 == low_i32(r.error),
        s.1 == r.value,
{
    status_and_value(r)
}

/// Update / query the frame flags backing an MO page. Result:
/// [`mo_update_page_flags_done`].
pub fn mo_update_page_flags(
    mo: CapRef,
    page_index: u64,
    set_flags: u64,
    clear_flags: u64,
) -> (r: Invocation)
    ensures
        r == on_slot(
            mo.slot(),
            InvokeLabel::MoUpdatePageFlags,
            page_index,
            set_flags,
            clear_flags,
            0,
        ),
{
    on(mo.addr(), InvokeLabel::MoUpdatePageFlags, page_index, set_flags, clear_flags, 0)
}

/// What [`mo_update_page_flags`] comes to, by the kernel's answer.
pub fn mo_update_page_flags_done(r: TronaResult) -> (s: (i32, u64))
    ensures
        s.0 == low_i32(r.error),
        s.1 == r.value,
{
    status_and_value(r)
}

/// Map a range of pages from a MemoryObject into a VSpace. Result:
/// [`vspace_map_mo_with_count_done`].
pub fn vspace_map_mo_with_count(
    vspace: CapRef,
    mo_cap: u64,
    vaddr: u64,
    mo_offset: u64,
    count_and_flags: u64,
) -> (r: Invocation)
    ensures
        r == on_slot(
            vspace.slot(),
            InvokeLabel::VspaceMapMo,
            mo_cap,
            vaddr,
            mo_offset,
            count_and_flags,
        ),
{
    on(vspace.addr(), InvokeLabel::VspaceMapMo, mo_cap, vaddr, mo_offset, count_and_flags)
}

/// What [`vspace_map_mo_with_count`] comes to, by the kernel's answer.
pub fn vspace_map_mo_with_count_done(r: TronaResult) -> (s: (i32, u64))
    ensures
        s.0 == low_i32(r.error),
        s.1 == r.value,
{
    status_and_value(r)
}

/// Map a range from a MemoryObject as raw demand PTEs while keeping the MO /
/// VmArea metadata registration that the kernel's MO-aware fault paths need.
/// Result: [`vspace_map_mo_demand_with_count_done`].
pub fn vspace_map_mo_demand_with_count(
    vspace: CapRef,
    mo_cap: u64,
    vaddr: u64,
    mo_offset: u64,
    count_and_flags: u64,
    abi: &KernelAbi,
) -> (r: Invocation)
    ensures
        r == on_slot(
            vspace.slot(),
            InvokeLabel::VspaceMapMo,
            mo_cap,
            vaddr,
            mo_offset,
            count_and_flags | abi.map_mo_flag_demand,
        ),
{
    vspace_map_mo_with_count(
        vspace,
        mo_cap,
        vaddr,
        mo_offset,
        count_and_flags | abi.map_mo_flag_demand,
    )
}

/// What [`vspace_map_mo_demand_with_count`] comes to, by the kernel's answer.
pub fn vspace_map_mo_demand_with_count_done(r: TronaResult) -> (s: (i32, u64))
    ensures
        s.0 == low_i32(r.error),
        s.1 == r.value,
{
    status_and_value(r)
}

/// Map a range of pages from a MemoryObject; the count is not reported. Result:
/// [`vspace_map_mo_done`].
pub fn vspace_map_mo(
    vspace: CapRef,
    mo_cap: u64,
    vaddr: u64,
    mo_offset: u64,
    count_and_flags: u64,
) -> (r: Invocation)
    ensures
        r == on_slot(
            vspace.slot(),
            InvokeLabel::VspaceMapMo,
            mo_cap,
            vaddr,
            mo_offset,
            count_and_flags,
        ),
{
    vspace_map_mo_with_count(vspace, mo_cap, vaddr, mo_offset, count_and_flags)
}

/// What [`vspace_map_mo`] comes to, by the kernel's answer.
pub fn vspace_map_mo_done(r: TronaResult) -> (s: i32)
    ensures
        s == low_i32(r.error),
{
    status(r)
}

/// Map a range of pages from a MemoryObject as demand pages; the count is not
/// reported. Result: [`vspace_map_mo_demand_done`].
pub fn vspace_map_mo_demand(
    vspace: CapRef,
    mo_cap: u64,
    vaddr: u64,
    mo_offset: u64,
    count_and_flags: u64,
    abi: &KernelAbi,
) -> (r: Invocation)
    ensures
        r == on_slot(
            vspace.slot(),
            InvokeLabel::VspaceMapMo,
            mo_cap,
            vaddr,
            mo_offset,
            count_and_flags | abi.map_mo_flag_demand,
        ),
{
    vspace_map_mo_with_count(
        vspace,
        mo_cap,
        vaddr,
        mo_offset,
        count_and_flags | abi.map_mo_flag_demand,
    )
}

/// What [`vspace_map_mo_demand`] comes to, by the kernel's answer.
pub fn vspace_map_mo_demand_done(r: TronaResult) -> (s: i32)
    ensures
        s == low_i32(r.error),
{
    status(r)
}

/// Create an I/O port capability in a slot at a depth. Result:
/// [`device_control_create_ioport_depth_done`].
pub fn device_control_create_ioport_depth(
    device_control: CapRef,
    base_port: u64,
    num_ports: u64,
    dest_cspace: CapRef,
    dest_slot: u64,
    dest_depth: u8,
) -> (r: Invocation)
    ensures
        r == with_depths(
            on_slot(
                device_control.slot(),
                InvokeLabel::DeviceControlCreateIoport,
                base_port,
                num_ports,
                dest_cspace.slot(),
                dest_slot,
            ),
            dest_depth,
            0,
        ),
{
    at_depths(
        on(
            device_control.addr(),
            InvokeLabel::DeviceControlCreateIoport,
            base_port,
            num_ports,
            dest_cspace.addr(),
            dest_slot,
        ),
        dest_depth,
        0,
    )
}

/// What [`device_control_create_ioport_depth`] comes to, by the kernel's answer.
pub fn device_control_create_ioport_depth_done(r: TronaResult) -> (s: i32)
    ensures
        s == low_i32(r.error),
{
    status(r)
}

/// Create an I/O port capability in a flat slot. Result:
/// [`device_control_create_ioport_done`].
pub fn device_control_create_ioport(
    device_control: CapRef,
    base_port: u64,
    num_ports: u64,
    dest_cspace: CapRef,
    dest_slot: u64,
) -> (r: Invocation)
    ensures
        r == with_depths(
            on_slot(
                device_control.slot(),
                InvokeLabel::DeviceControlCreateIoport,
                base_port,
                num_ports,
                dest_cspace.slot(),
                dest_slot,
            ),
            0,
            0,
        ),
{
    device_control_create_ioport_depth(
        device_control,
        base_port,
        num_ports,
        dest_cspace,
        dest_slot,
        0,
    )
}

/// What [`device_control_create_ioport`] comes to, by the kernel's answer.
pub fn device_control_create_ioport_done(r: TronaResult) -> (s: i32)
    ensures
        s == low_i32(r.error),
{
    status(r)
}

/// Create a device untyped in a slot at a depth. Result:
/// [`device_control_create_device_untyped_depth_done`].
pub fn device_control_create_device_untyped_depth(
    device_control: CapRef,
    phys_addr: u64,
    size_bits: u64,
    dest_cspace: CapRef,
    dest_slot: u64,
    dest_depth: u8,
) -> (r: Invocation)
    ensures
        r == with_depths(
            on_slot(
                device_control.slot(),
                InvokeLabel::DeviceControlCreateDeviceUntyped,
                phys_addr,
                size_bits,
                dest_cspace.slot(),
                dest_slot,
            ),
            dest_depth,
            0,
        ),
{
    at_depths(
        on(
            device_control.addr(),
            InvokeLabel::DeviceControlCreateDeviceUntyped,
            phys_addr,
            size_bits,
            dest_cspace.addr(),
            dest_slot,
        ),
        dest_depth,
        0,
    )
}

/// What [`device_control_create_device_untyped_depth`] comes to, by the kernel's answer.
pub fn device_control_create_device_untyped_depth_done(r: TronaResult) -> (s: i32)
    ensures
        s == low_i32(r.error),
{
    status(r)
}

/// Create a device untyped in a flat slot. Result:
/// [`device_control_create_device_untyped_done`].
pub fn device_control_create_device_untyped(
    device_control: CapRef,
    phys_addr: u64,
    size_bits: u64,
    dest_cspace: CapRef,
    dest_slot: u64,
) -> (r: Invocation)
    ensures
        r == with_depths(
            on_slot(
                device_control.slot(),
                InvokeLabel::DeviceControlCreateDeviceUntyped,
                phys_addr,
                size_bits,
                dest_cspace.slot(),
                dest_slot,
            ),
            0,
            0,
        ),
{
    device_control_create_device_untyped_depth(
        device_control,
        phys_addr,
        size_bits,
        dest_cspace,
        dest_slot,
        0,
    )
}

/// What [`device_control_create_device_untyped`] comes to, by the kernel's answer.
pub fn device_control_create_device_untyped_done(r: TronaResult) -> (s: i32)
    ensures
        s == low_i32(r.error),
{
    status(r)
}

/// Create an IRQ handler in a slot at a depth. Result:
/// [`device_control_create_irq_handler_depth_done`].
pub fn device_control_create_irq_handler_depth(
    device_control: CapRef,
    irq: u64,
    dest_cspace: CapRef,
    dest_slot: u64,
    flags: u64,
    dest_depth: u8,
) -> (r: Invocation)
    ensures
        r == with_depths(
            on_slot(
                device_control.slot(),
                InvokeLabel::DeviceControlCreateIrqHandler,
                irq,
                dest_cspace.slot(),
                dest_slot,
                flags,
            ),
            dest_depth,
            0,
        ),
{
    at_depths(
        on(
            device_control.addr(),
            InvokeLabel::DeviceControlCreateIrqHandler,
            irq,
            dest_cspace.addr(),
            dest_slot,
            flags,
        ),
        dest_depth,
        0,
    )
}

/// What [`device_control_create_irq_handler_depth`] comes to, by the kernel's answer.
pub fn device_control_create_irq_handler_depth_done(r: TronaResult) -> (s: i32)
    ensures
        s == low_i32(r.error),
{
    status(r)
}

/// Create an IRQ handler in a flat slot. Result:
/// [`device_control_create_irq_handler_done`].
pub fn device_control_create_irq_handler(
    device_control: CapRef,
    irq: u64,
    dest_cspace: CapRef,
    dest_slot: u64,
    flags: u64,
) -> (r: Invocation)
    ensures
        r == with_depths(
            on_slot(
                device_control.slot(),
                InvokeLabel::DeviceControlCreateIrqHandler,
                irq,
                dest_cspace.slot(),
                dest_slot,
                flags,
            ),
            0,
            0,
        ),
{
    device_control_create_irq_handler_depth(device_control, irq, dest_cspace, dest_slot, flags, 0)
}

/// What [`device_control_create_irq_handler`] comes to, by the kernel's answer.
pub fn device_control_create_irq_handler_done(r: TronaResult) -> (s: i32)
    ensures
        s == low_i32(r.error),
{
    status(r)
}

/// Copy a capability, with the invoke depth of each slot. Result:
/// [`cnode_copy_depth_done`].
pub fn cnode_copy_depth(
    src_cnode: CapRef,
    src_slot: u64,
    dest_cnode: CapRef,
    dest_slot: u64,
    rights: u64,
    src_depth: u8,
    dest_depth: u8,
) -> (r: Invocation)
    ensures
        r == with_depths(
            on_slot(
                src_cnode.slot(),
                InvokeLabel::CnodeCopy,
                src_slot,
                dest_cnode.slot(),
                dest_slot,
                rights,
            ),
            src_depth,
            dest_depth,
        ),
{
    at_depths(
        on(
            src_cnode.addr(),
            InvokeLabel::CnodeCopy,
            src_slot,
            dest_cnode.addr(),
            dest_slot,
            rights,
        ),
        src_depth,
        dest_depth,
    )
}

/// What [`cnode_copy_depth`] comes to, by the kernel's answer.
pub fn cnode_copy_depth_done(r: TronaResult) -> (s: i32)
    ensures
        s == low_i32(r.error),
{
    status(r)
}

/// Copy a capability between flat slots, with rights narrowed. Result:
/// [`cnode_copy_done`].
pub fn cnode_copy(
    src_cnode: CapRef,
    src_slot: u64,
    dest_cnode: CapRef,
    dest_slot: u64,
    rights: u64,
) -> (r: Invocation)
    ensures
        r == with_depths(
            on_slot(
                src_cnode.slot(),
                InvokeLabel::CnodeCopy,
                src_slot,
                dest_cnode.slot(),
                dest_slot,
                rights,
            ),
            0,
            0,
        ),
{
    cnode_copy_depth(src_cnode, src_slot, dest_cnode, dest_slot, rights, 0, 0)
}

/// What [`cnode_copy`] comes to, by the kernel's answer.
pub fn cnode_copy_done(r: TronaResult) -> (s: i32)
    ensures
        s == low_i32(r.error),
{
    status(r)
}

/// Copy a capability naming each endpoint as a depth-carrying [`CapRef`] (slot
/// address + invoke depth) instead of a bare slot plus a separately derived
/// depth. Result: [`cnode_copy_ref_done`].
pub fn cnode_copy_ref(
    src_cnode: CapRef,
    src: CapRef,
    dest_cnode: CapRef,
    dest: CapRef,
    rights: u64,
) -> (r: Invocation)
    ensures
        r == with_depths(
            on_slot(
                src_cnode.slot(),
                InvokeLabel::CnodeCopy,
                src.slot(),
                dest_cnode.slot(),
                dest.slot(),
                rights,
            ),
            src.levels(),
            dest.levels(),
        ),
{
    cnode_copy_depth(
        src_cnode,
        src.addr(),
        dest_cnode,
        dest.addr(),
        rights,
        src.depth(),
        dest.depth(),
    )
}

/// What [`cnode_copy_ref`] comes to, by the kernel's answer.
pub fn cnode_copy_ref_done(r: TronaResult) -> (s: i32)
    ensures
        s == low_i32(r.error),
{
    status(r)
}

/// Mint a badged capability between flat slots. Result: [`cnode_mint_done`].
pub fn cnode_mint(
    src_cnode: CapRef,
    src_slot: u64,
    dest_cnode: CapRef,
    dest_slot: u64,
    badge: u64,
) -> (r: Invocation)
    ensures
        r == with_depths(
            on_slot(
                src_cnode.slot(),
                InvokeLabel::CnodeMint,
                src_slot,
                dest_cnode.slot(),
                dest_slot,
                badge,
            ),
            0,
            0,
        ),
{
    cnode_mint_depth(src_cnode, src_slot, dest_cnode, dest_slot, badge, 0, 0)
}

/// What [`cnode_mint`] comes to, by the kernel's answer.
pub fn cnode_mint_done(r: TronaResult) -> (s: i32)
    ensures
        s == low_i32(r.error),
{
    status(r)
}

/// Mint a capability naming the invoke depth of each slot explicitly. Result:
/// [`cnode_mint_depth_done`].
pub fn cnode_mint_depth(
    src_cnode: CapRef,
    src_slot: u64,
    dest_cnode: CapRef,
    dest_slot: u64,
    badge: u64,
    src_depth: u8,
    dest_depth: u8,
) -> (r: Invocation)
    ensures
        r == with_depths(
            on_slot(
                src_cnode.slot(),
                InvokeLabel::CnodeMint,
                src_slot,
                dest_cnode.slot(),
                dest_slot,
                badge,
            ),
            src_depth,
            dest_depth,
        ),
{
    at_depths(
        on(src_cnode.addr(), InvokeLabel::CnodeMint, src_slot, dest_cnode.addr(), dest_slot, badge),
        src_depth,
        dest_depth,
    )
}

/// What [`cnode_mint_depth`] comes to, by the kernel's answer.
pub fn cnode_mint_depth_done(r: TronaResult) -> (s: i32)
    ensures
        s == low_i32(r.error),
{
    status(r)
}

/// Mint a capability naming each endpoint as a depth-carrying [`CapRef`], like
/// [`cnode_copy_ref`]. Result: [`cnode_mint_ref_done`].
pub fn cnode_mint_ref(
    src_cnode: CapRef,
    src: CapRef,
    dest_cnode: CapRef,
    dest: CapRef,
    badge: u64,
) -> (r: Invocation)
    ensures
        r == with_depths(
            on_slot(
                src_cnode.slot(),
                InvokeLabel::CnodeMint,
                src.slot(),
                dest_cnode.slot(),
                dest.slot(),
                badge,
            ),
            src.levels(),
            dest.levels(),
        ),
{
    cnode_mint_depth(
        src_cnode,
        src.addr(),
        dest_cnode,
        dest.addr(),
        badge,
        src.depth(),
        dest.depth(),
    )
}

/// What [`cnode_mint_ref`] comes to, by the kernel's answer.
pub fn cnode_mint_ref_done(r: TronaResult) -> (s: i32)
    ensures
        s == low_i32(r.error),
{
    status(r)
}

/// Move a capability between flat slots. Result: [`cnode_move_done`].
pub fn cnode_move(
    dest_cnode: CapRef,
    dest_slot: u64,
    src_cnode: CapRef,
    src_slot: u64,
) -> (r: Invocation)
    ensures
        r == with_depths(
            on_slot(
                dest_cnode.slot(),
                InvokeLabel::CnodeMove,
                dest_slot,
                src_cnode.slot(),
                src_slot,
                0,
            ),
            0,
            0,
        ),
{
    cnode_move_depth(dest_cnode, dest_slot, src_cnode, src_slot, 0, 0)
}

/// What [`cnode_move`] comes to, by the kernel's answer.
pub fn cnode_move_done(r: TronaResult) -> (s: i32)
    ensures
        s == low_i32(r.error),
{
    status(r)
}

/// Move a capability naming the invoke depth of each slot explicitly. Result:
/// [`cnode_move_depth_done`].
pub fn cnode_move_depth(
    dest_cnode: CapRef,
    dest_slot: u64,
    src_cnode: CapRef,
    src_slot: u64,
    dest_depth: u8,
    src_depth: u8,
) -> (r: Invocation)
    ensures
        r == with_depths(
            on_slot(
                dest_cnode.slot(),
                InvokeLabel::CnodeMove,
                dest_slot,
                src_cnode.slot(),
                src_slot,
                0,
            ),
            dest_depth,
            src_depth,
        ),
{
    at_depths(
        on(dest_cnode.addr(), InvokeLabel::CnodeMove, dest_slot, src_cnode.addr(), src_slot, 0),
        dest_depth,
        src_depth,
    )
}

/// What [`cnode_move_depth`] comes to, by the kernel's answer.
pub fn cnode_move_depth_done(r: TronaResult) -> (s: i32)
    ensures
        s == low_i32(r.error),
{
    status(r)
}

/// Move a capability, naming each endpoint by a reference with its depth.
/// Result: [`cnode_move_ref_done`].
pub fn cnode_move_ref(
    dest_cnode: CapRef,
    dest: CapRef,
    src_cnode: CapRef,
    src: CapRef,
) -> (r: Invocation)
    ensures
        r == with_depths(
            on_slot(
                dest_cnode.slot(),
                InvokeLabel::CnodeMove,
                dest.slot(),
                src_cnode.slot(),
                src.slot(),
                0,
            ),
            dest.levels(),
            src.levels(),
        ),
{
    cnode_move_depth(dest_cnode, dest.addr(), src_cnode, src.addr(), dest.depth(), src.depth())
}

/// What [`cnode_move_ref`] comes to, by the kernel's answer.
pub fn cnode_move_ref_done(r: TronaResult) -> (s: i32)
    ensures
        s == low_i32(r.error),
{
    status(r)
}

/// Move a capability between flat slots and change its badge. Result:
/// [`cnode_mutate_done`].
pub fn cnode_mutate(
    dest_cnode: CapRef,
    dest_slot: u64,
    src_cnode: CapRef,
    src_slot: u64,
    badge: u64,
) -> (r: Invocation)
    ensures
        r == with_depths(
            on_slot(
                dest_cnode.slot(),
                InvokeLabel::CnodeMutate,
                dest_slot,
                src_cnode.slot(),
                src_slot,
                badge,
            ),
            0,
            0,
        ),
{
    cnode_mutate_depth(dest_cnode, dest_slot, src_cnode, src_slot, badge, 0, 0)
}

/// What [`cnode_mutate`] comes to, by the kernel's answer.
pub fn cnode_mutate_done(r: TronaResult) -> (s: i32)
    ensures
        s == low_i32(r.error),
{
    status(r)
}

/// Mutate a capability naming the invoke depth of each slot explicitly. Result:
/// [`cnode_mutate_depth_done`].
pub fn cnode_mutate_depth(
    dest_cnode: CapRef,
    dest_slot: u64,
    src_cnode: CapRef,
    src_slot: u64,
    badge: u64,
    dest_depth: u8,
    src_depth: u8,
) -> (r: Invocation)
    ensures
        r == with_depths(
            on_slot(
                dest_cnode.slot(),
                InvokeLabel::CnodeMutate,
                dest_slot,
                src_cnode.slot(),
                src_slot,
                badge,
            ),
            dest_depth,
            src_depth,
        ),
{
    at_depths(
        on(
            dest_cnode.addr(),
            InvokeLabel::CnodeMutate,
            dest_slot,
            src_cnode.addr(),
            src_slot,
            badge,
        ),
        dest_depth,
        src_depth,
    )
}

/// What [`cnode_mutate_depth`] comes to, by the kernel's answer.
pub fn cnode_mutate_depth_done(r: TronaResult) -> (s: i32)
    ensures
        s == low_i32(r.error),
{
    status(r)
}

/// Mutate a capability naming each endpoint as a depth-carrying [`CapRef`],
/// like [`cnode_move_ref`]. Result: [`cnode_mutate_ref_done`].
pub fn cnode_mutate_ref(
    dest_cnode: CapRef,
    dest: CapRef,
    src_cnode: CapRef,
    src: CapRef,
    badge: u64,
) -> (r: Invocation)
    ensures
        r == with_depths(
            on_slot(
                dest_cnode.slot(),
                InvokeLabel::CnodeMutate,
                dest.slot(),
                src_cnode.slot(),
                src.slot(),
                badge,
            ),
            dest.levels(),
            src.levels(),
        ),
{
    cnode_mutate_depth(
        dest_cnode,
        dest.addr(),
        src_cnode,
        src.addr(),
        badge,
        dest.depth(),
        src.depth(),
    )
}

/// What [`cnode_mutate_ref`] comes to, by the kernel's answer.
pub fn cnode_mutate_ref_done(r: TronaResult) -> (s: i32)
    ensures
        s == low_i32(r.error),
{
    status(r)
}

/// Delete the capability in a slot at a depth. Result:
/// [`cnode_delete_depth_done`].
pub fn cnode_delete_depth(cnode: CapRef, slot: u64, depth: u8) -> (r: Invocation)
    ensures
        r == with_depths(on_slot(cnode.slot(), InvokeLabel::CnodeDelete, slot, 0, 0, 0), depth, 0),
{
    at_depths(on(cnode.addr(), InvokeLabel::CnodeDelete, slot, 0, 0, 0), depth, 0)
}

/// What [`cnode_delete_depth`] comes to, by the kernel's answer.
pub fn cnode_delete_depth_done(r: TronaResult) -> (s: i32)
    ensures
        s == low_i32(r.error),
{
    status(r)
}

/// Delete the capability in a flat slot. Result: [`cnode_delete_done`].
pub fn cnode_delete(cnode: CapRef, slot: u64) -> (r: Invocation)
    ensures
        r == with_depths(on_slot(cnode.slot(), InvokeLabel::CnodeDelete, slot, 0, 0, 0), 0, 0),
{
    cnode_delete_depth(cnode, slot, 0)
}

/// What [`cnode_delete`] comes to, by the kernel's answer.
pub fn cnode_delete_done(r: TronaResult) -> (s: i32)
    ensures
        s == low_i32(r.error),
{
    status(r)
}

/// Revoke all that was derived from the capability in a slot at a depth.
/// Result: [`cnode_revoke_depth_done`].
pub fn cnode_revoke_depth(cnode: CapRef, slot: u64, depth: u8) -> (r: Invocation)
    ensures
        r == with_depths(on_slot(cnode.slot(), InvokeLabel::CnodeRevoke, slot, 0, 0, 0), depth, 0),
{
    at_depths(on(cnode.addr(), InvokeLabel::CnodeRevoke, slot, 0, 0, 0), depth, 0)
}

/// What [`cnode_revoke_depth`] comes to, by the kernel's answer.
pub fn cnode_revoke_depth_done(r: TronaResult) -> (s: i32)
    ensures
        s == low_i32(r.error),
{
    status(r)
}

/// Revoke all that was derived from the capability in a flat slot. Result:
/// [`cnode_revoke_done`].
pub fn cnode_revoke(cnode: CapRef, slot: u64) -> (r: Invocation)
    ensures
        r == with_depths(on_slot(cnode.slot(), InvokeLabel::CnodeRevoke, slot, 0, 0, 0), 0, 0),
{
    cnode_revoke_depth(cnode, slot, 0)
}

/// What [`cnode_revoke`] comes to, by the kernel's answer.
pub fn cnode_revoke_done(r: TronaResult) -> (s: i32)
    ensures
        s == low_i32(r.error),
{
    status(r)
}

/// Wait on an EventQueue. Result: [`eq_wait_done`].
pub fn eq_wait(eq: CapRef, deadline: u64) -> (r: Invocation)
    ensures
        r == on_slot(eq.slot(), InvokeLabel::EqWait, deadline, 0, 0, 0),
{
    on(eq.addr(), InvokeLabel::EqWait, deadline, 0, 0, 0)
}

/// What [`eq_wait`] comes to, by the kernel's answer.
pub fn eq_wait_done(r: TronaResult) -> (s: i32)
    ensures
        s == low_i32(r.error),
{
    status(r)
}

/// Register a `Watch`. Result: [`watch_register_done`].
pub fn watch_register(
    watch: CapRef,
    watched: CapRef,
    eq: CapRef,
    mask: u64,
    cookie: u64,
) -> (r: Invocation)
    ensures
        r == on_slot(
            watch.slot(),
            InvokeLabel::WatchRegister,
            watched.slot(),
            eq.slot(),
            mask,
            cookie,
        ),
{
    on(watch.addr(), InvokeLabel::WatchRegister, watched.addr(), eq.addr(), mask, cookie)
}

/// What [`watch_register`] comes to, by the kernel's answer.
pub fn watch_register_done(r: TronaResult) -> (s: i32)
    ensures
        s == low_i32(r.error),
{
    status(r)
}

/// Make a pair of MessagePipe ends. Result: [`mp_core_pair_done`].
pub fn mp_core_pair(core: CapRef, send: CapRef, recv: CapRef) -> (r: Invocation)
    ensures
        r == on_slot(core.slot(), InvokeLabel::MpCorePair, send.slot(), recv.slot(), 0, 0),
{
    on(core.addr(), InvokeLabel::MpCorePair, send.addr(), recv.addr(), 0, 0)
}

/// What [`mp_core_pair`] comes to, by the kernel's answer.
pub fn mp_core_pair_done(r: TronaResult) -> (s: i32)
    ensures
        s == low_i32(r.error),
{
    status(r)
}

/// Make a pair of DataPipe sides. Result: [`dp_core_pair_done`].
pub fn dp_core_pair(
    core: CapRef,
    producer: CapRef,
    consumer: CapRef,
    datagram: bool,
) -> (r: Invocation)
    ensures
        r == on_slot(
            core.slot(),
            InvokeLabel::DpCorePair,
            producer.slot(),
            consumer.slot(),
            bool_word(datagram),
            0,
        ),
{
    on(
        core.addr(),
        InvokeLabel::DpCorePair,
        producer.addr(),
        consumer.addr(),
        if datagram { 1 } else { 0 },
        0,
    )
}

/// What [`dp_core_pair`] comes to, by the kernel's answer.
pub fn dp_core_pair_done(r: TronaResult) -> (s: i32)
    ensures
        s == low_i32(r.error),
{
    status(r)
}

/// Set a DataPipe side's RX byte threshold (`STATE_READ_THRESHOLD` asserts when
/// inbound `used >= threshold`; `0` disables). Result:
/// [`dp_set_rx_threshold_done`].
pub fn dp_set_rx_threshold(side: CapRef, threshold: u32) -> (r: Invocation)
    ensures
        r == on_slot(side.slot(), InvokeLabel::DpSetRxThreshold, threshold as u64, 0, 0, 0),
{
    on(side.addr(), InvokeLabel::DpSetRxThreshold, threshold as u64, 0, 0, 0)
}

/// What [`dp_set_rx_threshold`] comes to, by the kernel's answer.
pub fn dp_set_rx_threshold_done(r: TronaResult) -> (s: i32)
    ensures
        s == low_i32(r.error),
{
    status(r)
}

/// Set a DataPipe side's TX free-space threshold (`STATE_WRITE_THRESHOLD`
/// asserts when outbound `free >= threshold`; `0` disables). Result:
/// [`dp_set_tx_threshold_done`].
pub fn dp_set_tx_threshold(side: CapRef, threshold: u32) -> (r: Invocation)
    ensures
        r == on_slot(side.slot(), InvokeLabel::DpSetTxThreshold, threshold as u64, 0, 0, 0),
{
    on(side.addr(), InvokeLabel::DpSetTxThreshold, threshold as u64, 0, 0, 0)
}

/// What [`dp_set_tx_threshold`] comes to, by the kernel's answer.
pub fn dp_set_tx_threshold_done(r: TronaResult) -> (s: i32)
    ensures
        s == low_i32(r.error),
{
    status(r)
}

/// Half-close a DataPipe side's write direction: further produce returns
/// `PeerClosed` and the peer reader sees EOF after draining. Result:
/// [`dp_shutdown_done`].
pub fn dp_shutdown(side: CapRef) -> (r: Invocation)
    ensures
        r == on_slot(side.slot(), InvokeLabel::DpShutdown, 0, 0, 0, 0),
{
    on(side.addr(), InvokeLabel::DpShutdown, 0, 0, 0, 0)
}

/// What [`dp_shutdown`] comes to, by the kernel's answer.
pub fn dp_shutdown_done(r: TronaResult) -> (s: i32)
    ensures
        s == low_i32(r.error),
{
    status(r)
}

/// Cancel a `Watch`. Result: [`watch_cancel_done`].
pub fn watch_cancel(watch: CapRef) -> (r: Invocation)
    ensures
        r == on_slot(watch.slot(), InvokeLabel::WatchCancel, 0, 0, 0, 0),
{
    on(watch.addr(), InvokeLabel::WatchCancel, 0, 0, 0, 0)
}

/// What [`watch_cancel`] comes to, by the kernel's answer.
pub fn watch_cancel_done(r: TronaResult) -> (s: i32)
    ensures
        s == low_i32(r.error),
{
    status(r)
}

/// Arm a `Timer` to fire at absolute monotonic `deadline_ns`. Result:
/// [`timer_set_done`].
pub fn timer_set(
    timer: CapRef,
    deadline_ns: u64,
    period_ns: u64,
    eq: CapRef,
    cookie: u64,
) -> (r: Invocation)
    ensures
        r == on_slot(
            timer.slot(),
            InvokeLabel::TimerSet,
            deadline_ns,
            period_ns,
            eq.slot(),
            cookie,
        ),
{
    on(timer.addr(), InvokeLabel::TimerSet, deadline_ns, period_ns, eq.addr(), cookie)
}

/// What [`timer_set`] comes to, by the kernel's answer.
pub fn timer_set_done(r: TronaResult) -> (s: i32)
    ensures
        s == low_i32(r.error),
{
    status(r)
}

/// Disarm a `Timer`. Result: [`timer_cancel_done`].
pub fn timer_cancel(timer: CapRef) -> (r: Invocation)
    ensures
        r == on_slot(timer.slot(), InvokeLabel::TimerCancel, 0, 0, 0, 0),
{
    on(timer.addr(), InvokeLabel::TimerCancel, 0, 0, 0, 0)
}

/// What [`timer_cancel`] comes to, by the kernel's answer.
pub fn timer_cancel_done(r: TronaResult) -> (s: i32)
    ensures
        s == low_i32(r.error),
{
    status(r)
}

} // verus!
