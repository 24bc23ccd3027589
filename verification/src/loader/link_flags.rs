//! Status and scope flags of loaded objects.
use vstd::prelude::*;

verus! {

/// The object was placed at startup; closing never unloads it.
pub const STARTUP: u32 = 1;

/// Symbols belong to the global scope.
pub const RTLD_GLOBAL: u32 = 2;

/// Symbols belong to the local scope of a handle.
pub const RTLD_LOCAL: u32 = 4;

/// Closing never unmaps this object once it is loaded.
pub const RTLD_NODELETE: u32 = 8;

/// The object was loaded at runtime; the counterpart of [`STARTUP`].
pub const RUNTIME_LOADED: u32 = 16;

/// All relocations have been applied.
pub const RELOCATED: u32 = 32;

/// The initialisers ran.
pub const INIT_DONE: u32 = 64;

/// The finalisers ran.
pub const FINI_DONE: u32 = 128;

} // verus!
