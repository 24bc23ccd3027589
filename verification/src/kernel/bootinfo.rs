//! Reader for the kernel boot info page, a stream of tagged records.
use crate::loader::bytes::{
    field, le_u16, le_u32, le_u64, lemma_field_16, lemma_field_32, lemma_field_64, read_u16,
    read_u32, read_u64,
};
use vstd::prelude::*;
use vstd::slice::slice_subrange;

verus! {

/// How the page and its record headers look.
#[derive(Clone, Copy, PartialEq, Eq, Debug, Structural)]
pub struct BootinfoFormat {
    /// The first 8 bytes of the page.
    pub magic: u64,
    /// The tag that ends the stream.
    pub tag_end: u16,
    /// Bytes of a record header.
    pub header_size: usize,
    /// Offset of the 16-bit tag in a header.
    pub tag_at: usize,
    /// Offset of the payload length in a header.
    pub length_at: usize,
    /// Whether the payload length has 32 bits; otherwise it has 16.
    pub wide_length: bool,
}

impl BootinfoFormat {
    /// The fields of a header lie in the header.
    pub open spec fn wf(self) -> bool {
        &&& 4 <= self.header_size <= 64
        &&& self.tag_at + 2 <= self.header_size
        &&& self.length_at + 4 <= self.header_size || (!self.wide_length && self.length_at + 2
            <= self.header_size)
    }

    /// The tag of the header at `off`.
    pub open spec fn tag(self, s: Seq<u8>, off: int) -> u16 {
        le_u16(s, off + self.tag_at)
    }

    /// The payload length of the header at `off`.
    pub open spec fn length(self, s: Seq<u8>, off: int) -> int {
        if self.wide_length {
            le_u32(s, off + self.length_at) as int
        } else {
            le_u16(s, off + self.length_at) as int
        }
    }

    /// Bytes that the record at `off` occupies, padding included.
    pub open spec fn record_size(self, s: Seq<u8>, off: int) -> int {
        (self.header_size + self.length(s, off) + 7) / 8 * 8
    }
}

/// One record: `payload` covers exactly its payload bytes.
#[derive(Clone, Copy)]
pub struct TlvRecord<'a> {
    pub tag: u16,
    pub payload: &'a [u8],
}

impl<'a> TlvRecord<'a> {
    /// The payload.
    pub fn payload_bytes(&self) -> (r: &'a [u8])
        ensures
            r@ == self.payload@,
    {
        self.payload
    }
}

/// What a record holds.
pub struct RecordView {
    pub tag: u16,
    pub payload: Seq<u8>,
}

/// The records from `off` on, until the end tag, or a header or record that is
/// not all in the page.
pub open spec fn records_from(f: BootinfoFormat, s: Seq<u8>, off: int) -> Seq<RecordView>
    decreases s.len() - off,
{
    let size = f.record_size(s, off);
    if off < 0 || off + f.header_size > s.len() || f.tag(s, off) == f.tag_end || off + size
        > s.len() || size <= 0 {
        Seq::empty()
    } else {
        seq![
            RecordView {
                tag: f.tag(s, off),
                payload: s.subrange(
                    off + f.header_size,
                    off + f.header_size + f.length(s, off),
                ),
            },
        ] + records_from(f, s, off + size)
    }
}

/// Walks the records of a boot info page.
pub struct BootinfoIter<'a> {
    page: &'a [u8],
    format: BootinfoFormat,
    cursor: usize,
}

/// Starts a walk over a boot info page; `None` if its magic does not match.
pub fn iter<'a>(page: &'a [u8], format: BootinfoFormat) -> (r: Option<BootinfoIter<'a>>)
    requires
        format.wf(),
    ensures
        match r {
            Some(it) => page@.len() >= 8 && le_u64(page@, 0) == format.magic && it.wf()
                && it.remaining() == records_from(format, page@, 8),
            None => page@.len() < 8 || le_u64(page@, 0) != format.magic,
        },
{
    if page.len() < 8 || read_u64(page, 0) != format.magic {
        return None;
    }
    Some(BootinfoIter { page, format, cursor: 8 })
}

impl<'a> BootinfoIter<'a> {
    pub closed spec fn wf(&self) -> bool {
        self.format.wf()
    }

    /// What is still to come.
    pub closed spec fn remaining(&self) -> Seq<RecordView> {
        records_from(self.format, self.page@, self.cursor as int)
    }

    /// The next record.
    pub fn next(&mut self) -> (r: Option<TlvRecord<'a>>)
        requires
            old(self).wf(),
        ensures
            final(self).wf(),
            match r {
                Some(rec) => old(self).remaining().len() > 0 && rec.tag
                    == old(self).remaining()[0].tag && rec.payload@
                    == old(self).remaining()[0].payload && final(self).remaining()
                    == old(self).remaining().skip(1),
                None => old(self).remaining().len() == 0 && final(self).remaining()
                    == old(self).remaining(),
            },
    {
        let len: u128 = self.page.len() as u128;
        let off: u128 = self.cursor as u128;
        let header: u128 = self.format.header_size as u128;
        if off + header > len {
            return None;
        }
        let at: usize = self.cursor;
        let tag: u16 = read_u16(self.page, at + self.format.tag_at);
        if tag == self.format.tag_end {
            return None;
        }
        let length: u128 = if self.format.wide_length {
            read_u32(self.page, at + self.format.length_at) as u128
        } else {
            read_u16(self.page, at + self.format.length_at) as u128
        };
        let total: u128 = (header + length + 7) / 8 * 8;
        if off + total > len {
            return None;
        }
        let payload: &'a [u8] = slice_subrange(
            self.page,
            at + self.format.header_size,
            (off + header + length) as usize,
        );
        proof {
            let rest = records_from(self.format, self.page@, off + total);
            let first = RecordView { tag, payload: payload@ };
            assert((seq![first] + rest).skip(1) =~= rest);
        }
        self.cursor = (off + total) as usize;
        Some(TlvRecord { tag, payload })
    }
}

/// The first record from `i` on with tag `tag`.
pub open spec fn first_tagged(records: Seq<RecordView>, tag: u16) -> Option<RecordView>
    decreases records.len(),
{
    if records.len() == 0 {
        None
    } else if records[0].tag == tag {
        Some(records[0])
    } else {
        first_tagged(records.skip(1), tag)
    }
}

/// The records of a page, none if its magic does not match.
pub open spec fn page_records(f: BootinfoFormat, s: Seq<u8>) -> Seq<RecordView> {
    if s.len() < 8 || le_u64(s, 0) != f.magic {
        Seq::empty()
    } else {
        records_from(f, s, 8)
    }
}

/// Finds the first record with tag `tag`.
pub fn find_tlv<'a>(page: &'a [u8], format: BootinfoFormat, tag: u16) -> (r: Option<TlvRecord<'a>>)
    requires
        format.wf(),
    ensures
        match first_tagged(page_records(format, page@), tag) {
            Some(rec) => r is Some && r->0.tag == tag && r->0.payload@ == rec.payload,
            None => r is None,
        },
{
    let mut it = match iter(page, format) {
        Some(it) => it,
        None => {
            return None;
        },
    };
    let ghost all = page_records(format, page@);
    loop
        invariant
            it.wf(),
            all == page_records(format, page@),
            first_tagged(all, tag) == first_tagged(it.remaining(), tag),
        decreases it.remaining().len(),
    {
        match it.next() {
            Some(rec) => {
                if rec.tag == tag {
                    return Some(rec);
                }
            },
            None => {
                return None;
            },
        }
    }
}

/// Reads the first `size` payload bytes of the first record with tag `tag`;
/// `None` if there is none or its payload is shorter.
pub fn read_typed<'a>(page: &'a [u8], format: BootinfoFormat, tag: u16, size: usize) -> (r: Option<
    &'a [u8],
>)
    requires
        format.wf(),
    ensures
        match first_tagged(page_records(format, page@), tag) {
            Some(rec) => if rec.payload.len() < size {
                r is None
            } else {
                r is Some && r->0@ == rec.payload.take(size as int)
            },
            None => r is None,
        },
{
    match find_tlv(page, format, tag) {
        Some(rec) => {
            if rec.payload.len() < size {
                return None;
            }
            let bytes: &'a [u8] = slice_subrange(rec.payload, 0, size);
            assert(bytes@ =~= rec.payload@.take(size as int));
            Some(bytes)
        },
        None => None,
    }
}

// ---------------------------------------------------------------------------
// What is written is read back
// ---------------------------------------------------------------------------

/// Whether a record with a tag and a payload is written at `off`, and what follows
/// it at `next`, the first multiple of eight bytes from there on.
pub open spec fn has_tlv(
    f: BootinfoFormat,
    s: Seq<u8>,
    off: int,
    tag: u16,
    payload: Seq<u8>,
    next: int,
) -> bool {
    let start = off + f.header_size;
    &&& 0 <= off
    &&& next <= s.len()
    &&& field(s, off + f.tag_at, 2) == tag
    &&& field(s, off + f.length_at, if f.wide_length { 4 } else { 2 }) == payload.len()
    &&& s.subrange(start, start + payload.len()) == payload
    &&& start + payload.len() <= next < start + payload.len() + 8
    &&& (next - off) % 8 == 0
}

/// Whether a page is a magic number and these records, one behind the other, and
/// then the tag that ends the stream.
pub open spec fn is_page(
    f: BootinfoFormat,
    s: Seq<u8>,
    at: Seq<int>,
    records: Seq<RecordView>,
) -> bool {
    let n = records.len();
    &&& at.len() == n + 1
    &&& field(s, 0, 8) == f.magic
    &&& at[0] == 8
    &&& forall|k: int|
        #![trigger records[k]]
        0 <= k < n ==> records[k].tag != f.tag_end && has_tlv(
            f,
            s,
            at[k],
            records[k].tag,
            records[k].payload,
            at[k + 1],
        )
    &&& at[n as int] + f.header_size <= s.len()
    &&& field(s, at[n as int] + f.tag_at, 2) == f.tag_end
}

proof fn lemma_records_from(
    f: BootinfoFormat,
    s: Seq<u8>,
    at: Seq<int>,
    records: Seq<RecordView>,
    k: int,
)
    requires
        f.wf(),
        is_page(f, s, at, records),
        0 <= k <= records.len(),
    ensures
        records_from(f, s, at[k]) == records.skip(k),
    decreases records.len() - k,
{
    let n = records.len() as int;
    if k < n {
        let (rec, off) = (records[k], at[k]);
        assert(rec.tag != f.tag_end);
        lemma_field_16(s, off + f.tag_at);
        lemma_field_16(s, off + f.length_at);
        lemma_field_32(s, off + f.length_at);
        lemma_records_from(f, s, at, records, k + 1);
        assert(f.record_size(s, off) == at[k + 1] - off);
        assert(records.skip(k) =~= seq![rec] + records.skip(k + 1));
    } else {
        lemma_field_16(s, at[n] + f.tag_at);
        assert(records.skip(k) =~= Seq::empty());
    }
}

/// The records that were written to a page are read back, in order.
pub proof fn lemma_page_reads_back(
    f: BootinfoFormat,
    s: Seq<u8>,
    at: Seq<int>,
    records: Seq<RecordView>,
)
    requires
        f.wf(),
        s.len() >= 8,
        is_page(f, s, at, records),
    ensures
        page_records(f, s) == records,
{
    lemma_field_64(s, 0);
    lemma_records_from(f, s, at, records, 0);
    assert(records.skip(0) =~= records);
}

/// A record is found by its tag, the first one of several.
pub proof fn lemma_first_record_is_found(records: Seq<RecordView>, k: int)
    requires
        0 <= k < records.len(),
        forall|j: int| 0 <= j < k ==> (#[trigger] records[j]).tag != records[k].tag,
    ensures
        first_tagged(records, records[k].tag) == Some(records[k]),
    decreases k,
{
    if k > 0 {
        assert(records[0].tag != records[k].tag);
        let rest = records.skip(1);
        assert(rest[k - 1] == records[k]);
        assert forall|j: int| 0 <= j < k - 1 implies (#[trigger] rest[j]).tag != rest[k
            - 1].tag by {
            assert(rest[j] == records[j + 1]);
        }
        lemma_first_record_is_found(rest, k - 1);
    }
}

} // verus!
