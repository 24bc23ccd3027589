//! Userland substrate for a capability microkernel: compiler builtins, kernel
//! invocation and message encoding, and the image loader.

pub mod builtins;
pub mod kernel;
pub mod loader;
