//! Invocations and their results.
use crate::kernel::core_types::TronaResult;
use vstd::prelude::*;

verus! {

/// The operations that capabilities can be asked for.
#[derive(Clone, Copy, PartialEq, Eq, Debug, Structural)]
pub enum InvokeLabel {
    UntypedRetype,
    UntypedReset,
    TcbConfigure,
    TcbStart,
    TcbStop,
    TcbKill,
    TcbSetSpace,
    TcbSetFaultPipe,
    TcbSetIpcBuffer,
    TcbWriteRegisters,
    TcbSetPriority,
    TcbCopyFpu,
    TcbSetTlsBase,
    TcbSetAbiTp,
    TcbSetStackBounds,
    TcbSetSchedClass,
    TcbGetTraceId,
    ScConfigure,
    ScBind,
    VspaceMap,
    VspaceGetMemStats,
    VspaceGetRangeStats,
    VspaceGetTraceId,
    VspaceUnmap,
    VspaceProtect,
    VspaceProtectRange,
    VspaceMapPt,
    VspaceWalk,
    VspaceResolvePage,
    VspaceCopyPage,
    VspaceMapDevice,
    VspaceMapDeviceRange,
    VspaceShareRoPage,
    VspaceMapDemand,
    VspaceSetCowPool,
    VspaceReplenishCowPool,
    VspaceMapDemandRange,
    VspaceForkRange,
    VspaceUndoForkRange,
    CnodeSetGuard,
    CnodeGetInfo,
    IrqBindEq,
    IrqUnbindEq,
    IrqAck,
    IoportRead8,
    IoportWrite8,
    IoportRead16,
    IoportWrite16,
    IoportRead32,
    IoportWrite32,
    MoCommit,
    MoDecommit,
    MoGetSize,
    MoClone,
    MoCloneRange,
    MoMarkExecutable,
    MoPopulateBorrowed,
    MoResize,
    MoRead,
    MoWrite,
    MoHasPage,
    MoGetMapCount,
    MoUpdatePageFlags,
    VspaceMapMo,
    DeviceControlCreateIoport,
    DeviceControlCreateDeviceUntyped,
    DeviceControlCreateIrqHandler,
    CnodeCopy,
    CnodeMint,
    CnodeMove,
    CnodeMutate,
    CnodeDelete,
    CnodeRevoke,
    EqWait,
    WatchRegister,
    MpCorePair,
    DpCorePair,
    DpSetRxThreshold,
    DpSetTxThreshold,
    DpShutdown,
    WatchCancel,
    TimerSet,
    TimerCancel,
    VspaceFutexWait,
    VspaceFutexWake,
    VspaceFutexRequeue,
    TcbExitSelf,
    TcbYield,
    TcbSetInvokeDepths,
    TcbGetSpaceInfo,
    TcbGetCpuTimes,
    RngRead,
    SysinfoGetMeminfo,
    SysinfoGetInfo,
    SystemShutdown,
    ClockRead,
    MpWrite,
    MpRead,
    MpCall,
}

/// The capability that an invocation is made on.
#[derive(Clone, Copy, PartialEq, Eq, Debug, Structural)]
pub enum Target {
    /// The capability in a slot.
    Slot(u64),
    /// The calling thread itself.
    SelfTcb,
    /// The caller's own address space.
    SelfVspace,
}

/// Invoke depths of the two slots that the next invocation refers to. They are
/// set by an invocation of `TcbSetInvokeDepths` on the calling thread.
#[derive(Clone, Copy, PartialEq, Eq, Debug, Structural)]
pub struct InvokeDepths {
    pub first: u8,
    pub second: u8,
}

/// A capability invocation: the depths to set before it, if any, its target, its
/// operation and its argument words.
#[derive(Clone, Copy, PartialEq, Eq, Debug, Structural)]
pub struct Invocation {
    pub depths: Option<InvokeDepths>,
    pub target: Target,
    pub label: InvokeLabel,
    pub a2: u64,
    pub a3: u64,
    pub a4: u64,
    pub a5: u64,
}

/// Numbers that the kernel headers define.
#[derive(Clone, Copy, PartialEq, Eq, Debug, Structural)]
pub struct KernelAbi {
    /// Marks a record as a reply.
    pub mp_flag_reply: u64,
    /// The error of an operation that makes no sense.
    pub err_invalid_operation: u64,
    /// Marks a memory-object mapping as demand-paged.
    pub map_mo_flag_demand: u64,
    pub clock_id_monotonic: u64,
    pub clock_id_realtime: u64,
}

/// The invocation that sets the depths of the next one.
pub open spec fn depths_call(d: InvokeDepths) -> Invocation {
    Invocation {
        depths: None,
        target: Target::SelfTcb,
        label: InvokeLabel::TcbSetInvokeDepths,
        a2: d.first as u64,
        a3: d.second as u64,
        a4: 0,
        a5: 0,
    }
}

/// The invocation that sets the depths of the next one.
pub fn write_invoke_depth(d: InvokeDepths) -> (r: Invocation)
    ensures
        r == depths_call(d),
{
    Invocation {
        depths: None,
        target: Target::SelfTcb,
        label: InvokeLabel::TcbSetInvokeDepths,
        a2: d.first as u64,
        a3: d.second as u64,
        a4: 0,
        a5: 0,
    }
}

/// The signed number with the pattern of the low 32 bits of `x`.
pub open spec fn low_i32(x: u64) -> int {
    let w = x as int % 0x1_0000_0000;
    if w < 0x8000_0000 {
        w
    } else {
        w - 0x1_0000_0000
    }
}

pub fn to_i32(x: u64) -> (r: i32)
    ensures
        r == low_i32(x),
{
    let w: u32 = (x % 0x1_0000_0000) as u32;
    if w < 0x8000_0000 {
        w as i32
    } else {
        -((0xffff_ffff - w) as i32) - 1
    }
}

/// The result of an operation that only succeeds or fails.
pub fn status(r: TronaResult) -> (s: i32)
    ensures
        s == low_i32(r.error),
{
    to_i32(r.error)
}

/// The result of an operation that also reports a number.
pub fn status_and_value(r: TronaResult) -> (s: (i32, u64))
    ensures
        s.0 == low_i32(r.error),
        s.1 == r.value,
{
    (to_i32(r.error), r.value)
}

/// The result of an operation that also answers a question.
pub fn status_and_flag(r: TronaResult) -> (s: (i32, bool))
    ensures
        s.0 == low_i32(r.error),
        s.1 == (r.value != 0),
{
    (to_i32(r.error), r.value != 0)
}

/// The number that a successful operation reports.
pub fn value_on_success(r: TronaResult) -> (s: Option<u64>)
    ensures
        s == if r.error != 0 {
            None
        } else {
            Some(r.value)
        },
{
    if r.error != 0 {
        None
    } else {
        Some(r.value)
    }
}

/// The number that a successful operation reports, or 0.
pub fn value_or_zero(r: TronaResult) -> (s: u64)
    ensures
        s == if r.error == 0 {
            r.value
        } else {
            0
        },
{
    if r.error == 0 {
        r.value
    } else {
        0
    }
}

/// The result of a port write.
pub fn written(r: TronaResult) -> (s: Result<(), i32>)
    ensures
        match s {
            Ok(_) => r.error == 0,
            Err(e) => r.error != 0 && e == low_i32(r.error),
        },
{
    if r.error != 0 {
        Err(to_i32(r.error))
    } else {
        Ok(())
    }
}

/// The result of a 8-bit port read.
pub fn read_u8(r: TronaResult) -> (s: Result<u8, i32>)
    ensures
        match s {
            Ok(v) => r.error == 0 && v == r.value % 0x100,
            Err(e) => r.error != 0 && e == low_i32(r.error),
        },
{
    if r.error != 0 {
        Err(to_i32(r.error))
    } else {
        Ok((r.value % 0x100) as u8)
    }
}

/// The result of a 16-bit port read.
pub fn read_u16(r: TronaResult) -> (s: Result<u16, i32>)
    ensures
        match s {
            Ok(v) => r.error == 0 && v == r.value % 0x1_0000,
            Err(e) => r.error != 0 && e == low_i32(r.error),
        },
{
    if r.error != 0 {
        Err(to_i32(r.error))
    } else {
        Ok((r.value % 0x1_0000) as u16)
    }
}

/// The result of a 32-bit port read.
pub fn read_u32(r: TronaResult) -> (s: Result<u32, i32>)
    ensures
        match s {
            Ok(v) => r.error == 0 && v == r.value % 0x1_0000_0000,
            Err(e) => r.error != 0 && e == low_i32(r.error),
        },
{
    if r.error != 0 {
        Err(to_i32(r.error))
    } else {
        Ok((r.value % 0x1_0000_0000) as u32)
    }
}

/// Two 32-bit halves in one word.
pub open spec fn packed(hi: u64, lo: u64) -> u64 {
    ((hi as int % 0x1_0000_0000) * 0x1_0000_0000 + lo as int % 0x1_0000_0000) as u64
}

/// Packs the low halves of two words into one.
pub fn pack_halves(hi: u64, lo: u64) -> (r: u64)
    ensures
        r == packed(hi, lo),
{
    (hi % 0x1_0000_0000) * 0x1_0000_0000 + lo % 0x1_0000_0000
}

/// The halves of a packed word are what was packed.
pub proof fn lemma_packed(hi: u64, lo: u64)
    ensures
        packed(hi, lo) / 0x1_0000_0000 == hi % 0x1_0000_0000,
        packed(hi, lo) % 0x1_0000_0000 == lo % 0x1_0000_0000,
{
}

/// A truth value as an argument word.
pub open spec fn bool_word(b: bool) -> u64 {
    if b {
        1
    } else {
        0
    }
}

/// An invocation on the capability in a slot.
pub open spec fn on_slot(
    slot: u64,
    label: InvokeLabel,
    a2: u64,
    a3: u64,
    a4: u64,
    a5: u64,
) -> Invocation {
    Invocation { depths: None, target: Target::Slot(slot), label, a2, a3, a4, a5 }
}

pub(crate) fn on(
    slot: u64,
    label: InvokeLabel,
    a2: u64,
    a3: u64,
    a4: u64,
    a5: u64,
) -> (r: Invocation)
    ensures
        r == on_slot(slot, label, a2, a3, a4, a5),
{
    Invocation { depths: None, target: Target::Slot(slot), label, a2, a3, a4, a5 }
}

/// An invocation with the depths of the slots that it refers to.
pub open spec fn with_depths(call: Invocation, first: u8, second: u8) -> Invocation {
    Invocation { depths: Some(InvokeDepths { first, second }), ..call }
}

pub(crate) fn at_depths(call: Invocation, first: u8, second: u8) -> (r: Invocation)
    ensures
        r == with_depths(call, first, second),
{
    Invocation {
        depths: Some(InvokeDepths { first, second }),
        target: call.target,
        label: call.label,
        a2: call.a2,
        a3: call.a3,
        a4: call.a4,
        a5: call.a5,
    }
}

/// A status is in the range of `i32`, and apart from the word by a multiple of 2^32.
pub proof fn lemma_low_i32(x: u64)
    ensures
        i32::MIN <= low_i32(x) <= i32::MAX,
        (x - low_i32(x)) % 0x1_0000_0000 == 0,
{
}

} // verus!
