//! Kernel-facing types, message encoding and invocations.
//!
//! The kernel is entered through one trap, a capability invocation. The
//! functions here say which invocation an operation is, and what its result
//! means; performing the trap is left to the caller.
pub mod abi;
pub mod bootinfo;
pub mod core_types;
pub mod invoke;
pub mod ipc;
pub mod ipc_buffer;
pub mod syscall;
