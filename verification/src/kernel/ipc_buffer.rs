//! Accessors for what the kernel publishes in the reserved area of the message
//! buffer.
use crate::kernel::ipc::IpcBuffer;
use vstd::prelude::*;

verus! {

/// Where the kernel puts things in the reserved area.
#[derive(Clone, Copy, PartialEq, Eq, Debug, Structural)]
pub struct ReservedLayout {
    /// First word of the event record.
    pub event_record_base: usize,
    /// Words of an event record.
    pub event_record_words: usize,
    /// Word that holds the number of received capabilities.
    pub received_cap_count: usize,
}

impl ReservedLayout {
    /// Everything lies in the reserved area.
    pub open spec fn wf(self) -> bool {
        &&& self.event_record_base + self.event_record_words <= 468
        &&& self.event_record_words >= 2
        &&& self.received_cap_count < 468
    }
}

/// The event record that the kernel published on the most recent successful
/// wait, as words.
pub fn read_event_record(buf: &IpcBuffer, layout: &ReservedLayout) -> (r: Vec<u64>)
    requires
        layout.wf(),
    ensures
        r@ == buf.reserved@.subrange(
            layout.event_record_base as int,
            layout.event_record_base + layout.event_record_words,
        ),
{
    let mut out: Vec<u64> = Vec::new();
    let mut i: usize = 0;
    while i < layout.event_record_words
        invariant
            i <= layout.event_record_words,
            layout.wf(),
            out@.len() == i,
            forall|j: int| 0 <= j < i ==> out@[j] == buf.reserved@[layout.event_record_base + j],
        decreases layout.event_record_words - i,
    {
        out.push(buf.reserved[layout.event_record_base + i]);
        i = i + 1;
    }
    assert(out@ =~= buf.reserved@.subrange(
        layout.event_record_base as int,
        layout.event_record_base + layout.event_record_words,
    ));
    out
}

/// Kind, status and cookie, the first fields of an event record.
pub fn event_head(record: &[u64]) -> (r: (u32, u32, u64))
    requires
        record@.len() >= 2,
    ensures
        r.0 == record@[0] % 0x1_0000_0000,
        r.1 == record@[0] / 0x1_0000_0000,
        r.2 == record@[1],
{
    (
        (record[0] % 0x1_0000_0000) as u32,
        (record[0] / 0x1_0000_0000) as u32,
        record[1],
    )
}

/// The number of capabilities that the kernel installed on the most recent
/// inbound record.
pub fn read_received_cap_count(buf: &IpcBuffer, layout: &ReservedLayout) -> (r: u64)
    requires
        layout.wf(),
    ensures
        r == buf.reserved@[layout.received_cap_count as int],
{
    buf.reserved[layout.received_cap_count]
}

} // verus!
