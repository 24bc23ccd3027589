//! What the runtime linker exports of its state.
use crate::loader::link_map::RtldState;
use vstd::prelude::*;

verus! {

/// Exported values.
#[derive(Clone, Copy, PartialEq, Eq, Debug, Structural)]
pub struct Exports {
    /// Next free slot behind what the linker reserved.
    pub next_free_slot: u32,
    /// Scheduling context capability slot.
    pub sc_cap: u32,
    /// Total static TLS block size.
    pub tls_size: u64,
    /// Largest TLS alignment.
    pub tls_align: u64,
}

/// The exported values once startup is complete.
pub fn publish_exports(st: &RtldState) -> (r: Exports)
    ensures
        r == (Exports {
            next_free_slot: st.next_free_slot,
            sc_cap: st.sc_cap,
            tls_size: st.tls_layout.size,
            tls_align: st.tls_layout.align,
        }),
{
    Exports {
        next_free_slot: st.next_free_slot,
        sc_cap: st.sc_cap,
        tls_size: st.tls_layout.size,
        tls_align: st.tls_layout.align,
    }
}

} // verus!
