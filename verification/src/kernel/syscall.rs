//! Invocations of the calling thread, its address space, and the system
//! capabilities.
use crate::kernel::abi::{
    on, on_slot, pack_halves, packed, value_or_zero, Invocation, InvokeLabel, KernelAbi, Target,
};
use crate::kernel::core_types::TronaResult;
use vstd::prelude::*;

verus! {

/// An invocation on the caller's own address space.
pub open spec fn on_self_vspace(
    label: InvokeLabel,
    a2: u64,
    a3: u64,
    a4: u64,
    a5: u64,
) -> Invocation {
    Invocation { depths: None, target: Target::SelfVspace, label, a2, a3, a4, a5 }
}

/// An invocation on the calling thread.
pub open spec fn on_self_tcb(label: InvokeLabel) -> Invocation {
    Invocation { depths: None, target: Target::SelfTcb, label, a2: 0, a3: 0, a4: 0, a5: 0 }
}

/// Blocks while the word at `addr` is `expected`. Result: [`futex_wait_done`].
pub fn futex_wait(addr: u64, expected: u32) -> (r: Invocation)
    ensures
        r == on_self_vspace(InvokeLabel::VspaceFutexWait, addr, expected as u64, 0, 0),
{
    futex_wait_timeout(addr, expected, 0)
}

/// What [`futex_wait`] comes to, by the kernel's answer.
pub fn futex_wait_done(r: TronaResult) -> (s: u64)
    ensures
        s == r.error,
{
    r.error
}

/// Blocks while the word at `addr` is `expected`, with a nanosecond timeout.
/// Result: [`futex_wait_timeout_done`].
pub fn futex_wait_timeout(addr: u64, expected: u32, timeout_ns: u64) -> (r: Invocation)
    ensures
        r == on_self_vspace(InvokeLabel::VspaceFutexWait, addr, expected as u64, timeout_ns, 0),
{
    Invocation {
        depths: None,
        target: Target::SelfVspace,
        label: InvokeLabel::VspaceFutexWait,
        a2: addr,
        a3: expected as u64,
        a4: timeout_ns,
        a5: 0,
    }
}

/// What [`futex_wait_timeout`] comes to, by the kernel's answer.
pub fn futex_wait_timeout_done(r: TronaResult) -> (s: u64)
    ensures
        s == r.error,
{
    r.error
}

/// Wakes up to `count` threads waiting on `addr`. Result: [`futex_wake_done`].
pub fn futex_wake(addr: u64, count: u32) -> (r: Invocation)
    ensures
        r == on_self_vspace(InvokeLabel::VspaceFutexWake, addr, count as u64, 0, 0),
{
    Invocation {
        depths: None,
        target: Target::SelfVspace,
        label: InvokeLabel::VspaceFutexWake,
        a2: addr,
        a3: count as u64,
        a4: 0,
        a5: 0,
    }
}

/// What [`futex_wake`] comes to, by the kernel's answer.
pub fn futex_wake_done(r: TronaResult) -> (s: u64)
    ensures
        s == r.value,
{
    r.value
}

/// Wakes up to `wake_count` waiters on `addr`, then moves up to `requeue_count`
/// of the others to `requeue_addr`, if the word at `addr` still is `expected`.
/// Result: [`futex_requeue_done`].
pub fn futex_requeue(
    addr: u64,
    wake_count: u32,
    requeue_addr: u64,
    requeue_count: u32,
    expected: u32,
) -> (r: Invocation)
    ensures
        r == on_self_vspace(
            InvokeLabel::VspaceFutexRequeue,
            addr,
            requeue_addr,
            packed(wake_count as u64, requeue_count as u64),
            expected as u64,
        ),
{
    Invocation {
        depths: None,
        target: Target::SelfVspace,
        label: InvokeLabel::VspaceFutexRequeue,
        a2: addr,
        a3: requeue_addr,
        a4: pack_halves(wake_count as u64, requeue_count as u64),
        a5: expected as u64,
    }
}

/// What [`futex_requeue`] comes to, by the kernel's answer.
pub fn futex_requeue_done(r: TronaResult) -> (s: u64)
    ensures
        s == r.value,
{
    r.value
}

/// Terminates the calling thread, whichever that is. Does not return on success.
pub fn thread_exit() -> (r: Invocation)
    ensures
        r == on_self_tcb(InvokeLabel::TcbExitSelf),
{
    Invocation {
        depths: None,
        target: Target::SelfTcb,
        label: InvokeLabel::TcbExitSelf,
        a2: 0,
        a3: 0,
        a4: 0,
        a5: 0,
    }
}

/// Gives the rest of the quantum back to the scheduler.
pub fn yield_now() -> (r: Invocation)
    ensures
        r == on_self_tcb(InvokeLabel::TcbYield),
{
    Invocation {
        depths: None,
        target: Target::SelfTcb,
        label: InvokeLabel::TcbYield,
        a2: 0,
        a3: 0,
        a4: 0,
        a5: 0,
    }
}

/// Fills `len` bytes at `dst` from a random number capability. The value is the
/// number of bytes copied. Result: the answer itself.
pub fn rng_read_bytes(rng_cap: u64, dst: u64, len: u64) -> (r: Invocation)
    ensures
        r == on_slot(rng_cap, InvokeLabel::RngRead, dst, len, 0, 0),
{
    on(rng_cap, InvokeLabel::RngRead, dst, len, 0, 0)
}

/// Takes a snapshot of the memory accounting counters into `out_uaddr`. Result:
/// [`system_get_meminfo_raw_done`].
pub fn system_get_meminfo_raw(sysinfo_cap: u64, out_uaddr: u64) -> (r: Invocation)
    ensures
        r == on_slot(sysinfo_cap, InvokeLabel::SysinfoGetMeminfo, out_uaddr, 0, 0, 0),
{
    on(sysinfo_cap, InvokeLabel::SysinfoGetMeminfo, out_uaddr, 0, 0, 0)
}

/// What [`system_get_meminfo_raw`] comes to, by the kernel's answer.
pub fn system_get_meminfo_raw_done(r: TronaResult) -> (s: u64)
    ensures
        s == r.error,
{
    r.error
}

/// Takes a snapshot of the memory accounting counters into the record at `out`.
/// Result: [`system_get_meminfo_done`].
pub fn system_get_meminfo(sysinfo_cap: u64, out: u64) -> (r: Invocation)
    ensures
        r == on_slot(sysinfo_cap, InvokeLabel::SysinfoGetMeminfo, out, 0, 0, 0),
{
    system_get_meminfo_raw(sysinfo_cap, out)
}

/// What [`system_get_meminfo`] comes to, by the kernel's answer.
pub fn system_get_meminfo_done(r: TronaResult) -> (s: u64)
    ensures
        s == r.error,
{
    r.error
}

/// Takes a snapshot of system-wide CPU and time accounting: a header at
/// `header_uaddr`, and up to `capacity` CPU records at `cpu_array_uaddr` (0 for
/// the header only). The value is the number of records. Result: the answer
/// itself.
pub fn system_get_info_raw(
    sysinfo_cap: u64,
    header_uaddr: u64,
    cpu_array_uaddr: u64,
    capacity: u64,
) -> (r: Invocation)
    ensures
        r == on_slot(
            sysinfo_cap,
            InvokeLabel::SysinfoGetInfo,
            header_uaddr,
            cpu_array_uaddr,
            capacity,
            0,
        ),
{
    on(sysinfo_cap, InvokeLabel::SysinfoGetInfo, header_uaddr, cpu_array_uaddr, capacity, 0)
}

/// Takes a snapshot of system-wide CPU and time accounting into the records at
/// `header` and `cpu_array`. Result: the answer itself.
pub fn system_get_info(sysinfo_cap: u64, header: u64, cpu_array: u64, capacity: u64) -> (r:
    Invocation)
    ensures
        r == on_slot(sysinfo_cap, InvokeLabel::SysinfoGetInfo, header, cpu_array, capacity, 0),
{
    system_get_info_raw(sysinfo_cap, header, cpu_array, capacity)
}

/// Powers the machine off. Does not return on success.
pub fn system_shutdown(syscontrol_cap: u64) -> (r: Invocation)
    ensures
        r == on_slot(syscontrol_cap, InvokeLabel::SystemShutdown, 0, 0, 0, 0),
{
    on(syscontrol_cap, InvokeLabel::SystemShutdown, 0, 0, 0, 0)
}

/// Reads the monotonic clock, nanoseconds since boot. Result:
/// [`clock_read_monotonic_done`].
pub fn clock_read_monotonic(clock_cap: u64, abi: &KernelAbi) -> (r: Invocation)
    ensures
        r == on_slot(clock_cap, InvokeLabel::ClockRead, abi.clock_id_monotonic, 0, 0, 0),
{
    on(clock_cap, InvokeLabel::ClockRead, abi.clock_id_monotonic, 0, 0, 0)
}

/// What [`clock_read_monotonic`] comes to, by the kernel's answer.
pub fn clock_read_monotonic_done(r: TronaResult) -> (s: u64)
    ensures
        s == if r.error == 0 {
            r.value
        } else {
            0
        },
{
    value_or_zero(r)
}

/// Reads the realtime clock, nanoseconds since the UNIX epoch. Result:
/// [`clock_read_realtime_done`].
pub fn clock_read_realtime(clock_cap: u64, abi: &KernelAbi) -> (r: Invocation)
    ensures
        r == on_slot(clock_cap, InvokeLabel::ClockRead, abi.clock_id_realtime, 0, 0, 0),
{
    on(clock_cap, InvokeLabel::ClockRead, abi.clock_id_realtime, 0, 0, 0)
}

/// What [`clock_read_realtime`] comes to, by the kernel's answer.
pub fn clock_read_realtime_done(r: TronaResult) -> (s: u64)
    ensures
        s == if r.error == 0 {
            r.value
        } else {
            0
        },
{
    value_or_zero(r)
}

} // verus!
