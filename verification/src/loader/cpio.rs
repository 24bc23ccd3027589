//! CPIO newc archive parser.
use crate::loader::bytes::bytes_eq;
use vstd::prelude::*;
use vstd::slice::slice_subrange;

verus! {

/// A file in an archive.
#[derive(Clone, Copy)]
pub struct CpioEntry<'a> {
    pub name: &'a [u8],
    pub data: &'a [u8],
}

/// A file in an archive, with its metadata.
#[derive(Clone, Copy)]
pub struct CpioEntryExt<'a> {
    pub name: &'a [u8],
    pub data: &'a [u8],
    pub mode: u32,
    pub uid: u32,
    pub gid: u32,
    pub nlink: u32,
    pub mtime: u32,
    pub ino: u32,
}

/// The value of a hexadecimal digit.
pub open spec fn hex_digit(b: u8) -> Option<u32> {
    if 0x30 <= b <= 0x39 {
        Some((b - 0x30) as u32)
    } else if 0x61 <= b <= 0x66 {
        Some((b - 0x61 + 10) as u32)
    } else if 0x41 <= b <= 0x46 {
        Some((b - 0x41 + 10) as u32)
    } else {
        None
    }
}

pub fn read_hex_digit(b: u8) -> (r: Option<u32>)
    ensures
        r == hex_digit(b),
        r matches Some(d) ==> d < 16,
{
    if b >= 0x30 && b <= 0x39 {
        Some((b - 0x30) as u32)
    } else if b >= 0x61 && b <= 0x66 {
        Some((b - 0x61 + 10) as u32)
    } else if b >= 0x41 && b <= 0x46 {
        Some((b - 0x41 + 10) as u32)
    } else {
        None
    }
}

/// The number in the first `n` characters of the field at `off`; a character
/// that is no digit counts as 0.
pub open spec fn hex_prefix(s: Seq<u8>, off: int, n: int) -> int
    decreases n,
{
    if n <= 0 {
        0
    } else {
        let d = match hex_digit(s[off + n - 1]) {
            Some(d) => d as int,
            None => 0,
        };
        hex_prefix(s, off, n - 1) * 16 + d
    }
}

/// The 8-character hexadecimal field at `off`.
pub open spec fn hex8(s: Seq<u8>, off: int) -> int {
    hex_prefix(s, off, 8)
}

fn parse_hex8(data: &[u8], off: usize) -> (r: u32)
    requires
        off + 8 <= data.len(),
    ensures
        r == hex8(data@, off as int),
{
    let mut val: u64 = 0;
    let mut limit: u64 = 1;
    let mut i: usize = 0;
    while i < 8
        invariant
            i <= 8,
            off + 8 <= data.len(),
            val == hex_prefix(data@, off as int, i as int),
            val < limit,
            limit <= 0x1_0000_0000,
            i == 0 ==> limit == 1,
            i == 1 ==> limit == 0x10,
            i == 2 ==> limit == 0x100,
            i == 3 ==> limit == 0x1000,
            i == 4 ==> limit == 0x1_0000,
            i == 5 ==> limit == 0x10_0000,
            i == 6 ==> limit == 0x100_0000,
            i == 7 ==> limit == 0x1000_0000,
        decreases 8 - i,
    {
        let digit: u32 = match read_hex_digit(data[off + i]) {
            Some(d) => d,
            None => 0,
        };
        val = val * 16 + digit as u64;
        limit = limit * 16;
        i = i + 1;
    }
    val as u32
}

/// The next multiple of 4.
pub open spec fn ceil4(n: int) -> int {
    (n + 3) / 4 * 4
}

/// Whether an archive header starts at `off`.
pub open spec fn has_magic(s: Seq<u8>, off: int) -> bool {
    s[off] == 0x30 && s[off + 1] == 0x37 && s[off + 2] == 0x30 && s[off + 3] == 0x37 && s[off + 4]
        == 0x30 && s[off + 5] == 0x31
}

pub fn check_magic(data: &[u8], off: usize) -> (r: bool)
    requires
        off + 6 <= data.len(),
    ensures
        r == has_magic(data@, off as int),
{
    data[off] == 0x30 && data[off + 1] == 0x37 && data[off + 2] == 0x30 && data[off + 3] == 0x37
        && data[off + 4] == 0x30 && data[off + 5] == 0x31
}

/// The name of the entry that ends an archive, `TRAILER!!!`.
pub open spec fn trailer_name() -> Seq<u8> {
    seq![0x54u8, 0x52, 0x41, 0x49, 0x4c, 0x45, 0x52, 0x21, 0x21, 0x21]
}

pub fn is_trailer(name: &[u8]) -> (r: bool)
    ensures
        r == (name@ == trailer_name()),
{
    let trailer: [u8; 10] = [0x54, 0x52, 0x41, 0x49, 0x4c, 0x45, 0x52, 0x21, 0x21, 0x21];
    assert(trailer@ =~= trailer_name());
    bytes_eq(name, trailer.as_slice())
}

/// Where the parts of an entry are.
pub struct EntryExtent {
    /// Offset of the header.
    pub header: int,
    pub name: Seq<u8>,
    pub data: Seq<u8>,
    /// Offset of what follows the entry.
    pub next: int,
}

/// What is at an offset of an archive.
pub enum CpioStep {
    /// A file.
    File(EntryExtent),
    /// The end of the archive, which continues at the offset.
    Trailer(int),
    /// Nothing usable.
    Invalid,
}

/// What the header at `off` describes. The name size counts a terminator.
pub open spec fn cpio_step(s: Seq<u8>, off: int) -> CpioStep {
    let namesize = hex8(s, off + 94);
    let filesize = hex8(s, off + 54);
    let name_start = off + 110;
    let data_start = ceil4(name_start + namesize);
    let data_end = ceil4(data_start + filesize);
    let name = s.subrange(
        name_start,
        name_start + if namesize > 0 {
            namesize - 1
        } else {
            0
        },
    );
    if off + 110 > s.len() || !has_magic(s, off) || data_end > s.len() {
        CpioStep::Invalid
    } else if name == trailer_name() {
        CpioStep::Trailer(data_end)
    } else {
        CpioStep::File(
            EntryExtent {
                header: off,
                name,
                data: s.subrange(data_start, data_start + filesize),
                next: data_end,
            },
        )
    }
}

/// The files from `off` on.
pub open spec fn files_from(s: Seq<u8>, off: int) -> Seq<EntryExtent>
    decreases s.len() - off,
{
    match cpio_step(s, off) {
        CpioStep::File(e) => if e.next > off {
            seq![e] + files_from(s, e.next)
        } else {
            Seq::empty()
        },
        _ => Seq::empty(),
    }
}

/// Where the walk from `off` on ends: past the trailer, or at what is not
/// usable.
pub open spec fn end_from(s: Seq<u8>, off: int) -> int
    decreases s.len() - off,
{
    match cpio_step(s, off) {
        CpioStep::File(e) => if e.next > off {
            end_from(s, e.next)
        } else {
            off
        },
        CpioStep::Trailer(next) => next,
        CpioStep::Invalid => off,
    }
}

/// The metadata of the header at `off`.
pub open spec fn is_metadata(s: Seq<u8>, off: int, e: CpioEntryExt<'_>) -> bool {
    &&& e.ino == hex8(s, off + 6)
    &&& e.mode == hex8(s, off + 14)
    &&& e.uid == hex8(s, off + 22)
    &&& e.gid == hex8(s, off + 30)
    &&& e.nlink == hex8(s, off + 38)
    &&& e.mtime == hex8(s, off + 46)
}

proof fn lemma_hex_nonneg(s: Seq<u8>, off: int, n: int)
    ensures
        hex_prefix(s, off, n) >= 0,
    decreases n,
{
    if n > 0 {
        lemma_hex_nonneg(s, off, n - 1);
    }
}

/// Walks the files of an archive.
pub struct CpioIter<'a> {
    archive: &'a [u8],
    offset: usize,
}

impl<'a> CpioIter<'a> {
    pub closed spec fn bytes(&self) -> Seq<u8> {
        self.archive@
    }

    pub closed spec fn position(&self) -> int {
        self.offset as int
    }

    /// A walk from the start of `archive`.
    pub fn new(archive: &'a [u8]) -> (r: CpioIter<'a>)
        ensures
            r.bytes() == archive@,
            r.position() == 0,
    {
        CpioIter { archive, offset: 0 }
    }

    /// Where the walk has come to.
    pub fn offset(&self) -> (r: usize)
        ensures
            r == self.position(),
    {
        self.offset
    }

    /// The next file.
    pub fn next_entry(&mut self) -> (r: Option<CpioEntry<'a>>)
        ensures
            final(self).bytes() == old(self).bytes(),
            match cpio_step(old(self).bytes(), old(self).position()) {
                CpioStep::File(e) => r is Some && r->0.name@ == e.name && r->0.data@ == e.data
                    && final(self).position() == e.next && e.next > old(self).position(),
                CpioStep::Trailer(next) => r is None && final(self).position() == next,
                CpioStep::Invalid => r is None && final(self).position() == old(self).position(),
            },
    {
        match self.advance() {
            Some((name, data, _)) => Some(CpioEntry { name, data }),
            None => None,
        }
    }

    /// The next file, with its metadata.
    pub fn next_entry_ext(&mut self) -> (r: Option<CpioEntryExt<'a>>)
        ensures
            final(self).bytes() == old(self).bytes(),
            match cpio_step(old(self).bytes(), old(self).position()) {
                CpioStep::File(e) => r is Some && r->0.name@ == e.name && r->0.data@ == e.data
                    && is_metadata(old(self).bytes(), e.header, r->0) && final(self).position()
                    == e.next && e.next > old(self).position(),
                CpioStep::Trailer(next) => r is None && final(self).position() == next,
                CpioStep::Invalid => r is None && final(self).position() == old(self).position(),
            },
    {
        let archive: &'a [u8] = self.archive;
        match self.advance() {
            Some((name, data, h)) => Some(
                CpioEntryExt {
                    name,
                    data,
                    ino: parse_hex8(archive, h + 6),
                    mode: parse_hex8(archive, h + 14),
                    uid: parse_hex8(archive, h + 22),
                    gid: parse_hex8(archive, h + 30),
                    nlink: parse_hex8(archive, h + 38),
                    mtime: parse_hex8(archive, h + 46),
                },
            ),
            None => None,
        }
    }

    fn advance(&mut self) -> (r: Option<(&'a [u8], &'a [u8], usize)>)
        ensures
            final(self).archive == old(self).archive,
            match cpio_step(old(self).archive@, old(self).offset as int) {
                CpioStep::File(e) => r is Some && (r->0).0@ == e.name && (r->0).1@ == e.data && (r->0).2
                    == e.header && (r->0).2 == old(self).offset && (r->0).2 + 110
                    <= old(self).archive.len() && final(self).offset == e.next && e.next > old(
                    self,
                ).offset,
                CpioStep::Trailer(next) => r is None && final(self).offset == next,
                CpioStep::Invalid => r is None && final(self).offset == old(self).offset,
            },
    {
        let archive: &'a [u8] = self.archive;
        let len: u128 = archive.len() as u128;
        let off: usize = self.offset;
        if off as u128 + 110 > len {
            return None;
        }
        if !check_magic(archive, off) {
            return None;
        }
        let namesize: u128 = parse_hex8(archive, off + 94) as u128;
        let filesize: u128 = parse_hex8(archive, off + 54) as u128;
        let name_start: u128 = off as u128 + 110;
        let data_start: u128 = (name_start + namesize + 3) / 4 * 4;
        let data_end: u128 = (data_start + filesize + 3) / 4 * 4;
        if data_end > len {
            return None;
        }
        let name_len: u128 = if namesize > 0 { namesize - 1 } else { 0 };
        let name: &'a [u8] = slice_subrange(
            archive,
            name_start as usize,
            (name_start + name_len) as usize,
        );
        self.offset = data_end as usize;
        if is_trailer(name) {
            return None;
        }
        let data: &'a [u8] = slice_subrange(
            archive,
            data_start as usize,
            (data_start + filesize) as usize,
        );
        Some((name, data, off))
    }
}

/// The first file named `path`, from `off` on.
pub open spec fn find_from(s: Seq<u8>, off: int, path: Seq<u8>) -> Option<EntryExtent>
    decreases s.len() - off,
{
    match cpio_step(s, off) {
        CpioStep::File(e) => if e.name == path {
            Some(e)
        } else if e.next > off {
            find_from(s, e.next, path)
        } else {
            None
        },
        _ => None,
    }
}

/// Finds the first file named `path`.
pub fn cpio_find_file<'a>(archive: &'a [u8], path: &[u8]) -> (r: Option<CpioEntry<'a>>)
    ensures
        match find_from(archive@, 0, path@) {
            Some(e) => r is Some && r->0.name@ == path@ && r->0.data@ == e.data,
            None => r is None,
        },
{
    let mut iter = CpioIter::new(archive);
    loop
        invariant
            iter.bytes() == archive@,
            iter.position() >= 0,
            find_from(archive@, 0, path@) == find_from(archive@, iter.position(), path@),
        decreases archive@.len() - iter.position(),
    {
        match iter.next_entry() {
            Some(entry) => {
                if bytes_eq(entry.name, path) {
                    return Some(entry);
                }
            },
            None => {
                return None;
            },
        }
    }
}

/// Finds the first file named `path`, with its metadata.
pub fn cpio_find_file_ext<'a>(archive: &'a [u8], path: &[u8]) -> (r: Option<CpioEntryExt<'a>>)
    ensures
        match find_from(archive@, 0, path@) {
            Some(e) => r is Some && r->0.name@ == path@ && r->0.data@ == e.data && is_metadata(
                archive@,
                e.header,
                r->0,
            ),
            None => r is None,
        },
{
    let mut iter = CpioIter::new(archive);
    loop
        invariant
            iter.bytes() == archive@,
            iter.position() >= 0,
            find_from(archive@, 0, path@) == find_from(archive@, iter.position(), path@),
        decreases archive@.len() - iter.position(),
    {
        match iter.next_entry_ext() {
            Some(entry) => {
                if bytes_eq(entry.name, path) {
                    return Some(entry);
                }
            },
            None => {
                return None;
            },
        }
    }
}

/// Size of the archive: the offset past its trailer, or of the first thing that
/// is not usable.
pub fn cpio_archive_size(archive: &[u8]) -> (r: usize)
    ensures
        r == end_from(archive@, 0),
{
    let mut iter = CpioIter::new(archive);
    loop
        invariant
            iter.bytes() == archive@,
            iter.position() >= 0,
            end_from(archive@, 0) == end_from(archive@, iter.position()),
        decreases archive@.len() - iter.position(),
    {
        match iter.next_entry() {
            Some(_) => {},
            None => {
                return iter.offset();
            },
        }
    }
}

/// A search succeeds exactly if a file of the archive has the name, and it gives
/// the first of them.
pub proof fn lemma_find_is_first(s: Seq<u8>, off: int, path: Seq<u8>)
    requires
        off >= 0,
    ensures
        match find_from(s, off, path) {
            Some(e) => exists|i: int|
                0 <= i < files_from(s, off).len() && #[trigger] files_from(s, off)[i] == e && e.name
                    == path && forall|j: int|
                    0 <= j < i ==> (#[trigger] files_from(s, off)[j]).name != path,
            None => forall|i: int|
                0 <= i < files_from(s, off).len() ==> (#[trigger] files_from(s, off)[i]).name
                    != path,
        },
    decreases s.len() - off,
{
    match cpio_step(s, off) {
        CpioStep::File(e) => {
            lemma_hex_nonneg(s, off + 94, 8);
            lemma_hex_nonneg(s, off + 54, 8);
            let all = files_from(s, off);
            let rest = files_from(s, e.next);
            assert(all =~= seq![e] + rest);
            if e.name == path {
                assert(all[0] == e);
            } else {
                lemma_find_is_first(s, e.next, path);
                match find_from(s, e.next, path) {
                    Some(f) => {
                        let i = choose|i: int|
                            0 <= i < rest.len() && #[trigger] rest[i] == f && f.name == path
                                && forall|j: int| 0 <= j < i ==> (#[trigger] rest[j]).name != path;
                        assert(all[i + 1] == f);
                        assert forall|j: int| 0 <= j < i + 1 implies (#[trigger] all[j]).name
                            != path by {
                            if j > 0 {
                                assert(rest[j - 1].name != path);
                            }
                        }
                    },
                    None => {
                        assert forall|i: int| 0 <= i < all.len() implies (#[trigger] all[i]).name
                            != path by {
                            if i > 0 {
                                assert(rest[i - 1].name != path);
                            }
                        }
                    },
                }
            }
        },
        _ => {},
    }
}

// ---------------------------------------------------------------------------
// What is written is read back
// ---------------------------------------------------------------------------

/// Digit `i` of a 32-bit number to base 16, the highest one first.
pub open spec fn digit_16(v: int, i: int) -> int {
    if i == 0 {
        v / 0x1000_0000 % 16
    } else if i == 1 {
        v / 0x100_0000 % 16
    } else if i == 2 {
        v / 0x10_0000 % 16
    } else if i == 3 {
        v / 0x1_0000 % 16
    } else if i == 4 {
        v / 0x1000 % 16
    } else if i == 5 {
        v / 0x100 % 16
    } else if i == 6 {
        v / 0x10 % 16
    } else {
        v % 16
    }
}

/// Whether a number is written at an offset, as eight digits in either case.
pub open spec fn has_number(s: Seq<u8>, off: int, v: int) -> bool {
    &&& 0 <= v <= 0xffff_ffff
    &&& forall|i: int|
        #![trigger s[off + i]]
        0 <= i < 8 ==> {
            let d = digit_16(v, i);
            let c = s[off + i] as int;
            if d < 10 {
                c == 0x30 + d
            } else {
                c == 0x61 + (d - 10) || c == 0x41 + (d - 10)
            }
        }
}

/// Whether a file is written at `off` of an archive, and what follows it at `next`:
/// the six characters `070701`, thirteen numbers, of which the seventh is the size
/// of the data and the twelfth that of the name with its terminator; then the name
/// and the data, each followed by as little as makes the next offset a multiple of
/// four.
pub open spec fn has_file(
    s: Seq<u8>,
    off: int,
    name: Seq<u8>,
    data: Seq<u8>,
    next: int,
) -> bool {
    let name_end = off + 110 + name.len() + 1;
    &&& 0 <= off
    &&& next <= s.len()
    &&& s[off] == 0x30 && s[off + 1] == 0x37 && s[off + 2] == 0x30 && s[off + 3] == 0x37 && s[off
        + 4] == 0x30 && s[off + 5] == 0x31
    &&& has_number(s, off + 6 + 8 * 6, data.len() as int)
    &&& has_number(s, off + 6 + 8 * 11, name.len() as int + 1)
    &&& s.subrange(off + 110, off + 110 + name.len()) == name
    &&& s[name_end - 1] == 0
    &&& exists|d: int| #[trigger]
        is_padded(name_end, d) && is_padded(d + data.len(), next) && s.subrange(
            d,
            d + data.len(),
        ) == data
}

/// Whether `b` is the first multiple of four from `a` on.
pub open spec fn is_padded(a: int, b: int) -> bool {
    a <= b < a + 4 && b % 4 == 0
}

proof fn lemma_digits_16(v: int)
    requires
        0 <= v <= 0xffff_ffff,
    ensures
        v / 0x1000_0000 == digit_16(v, 0),
        v / 0x100_0000 == v / 0x1000_0000 * 16 + digit_16(v, 1),
        v / 0x10_0000 == v / 0x100_0000 * 16 + digit_16(v, 2),
        v / 0x1_0000 == v / 0x10_0000 * 16 + digit_16(v, 3),
        v / 0x1000 == v / 0x1_0000 * 16 + digit_16(v, 4),
        v / 0x100 == v / 0x1000 * 16 + digit_16(v, 5),
        v / 0x10 == v / 0x100 * 16 + digit_16(v, 6),
        v == v / 0x10 * 16 + digit_16(v, 7),
        forall|i: int| 0 <= i < 8 ==> 0 <= #[trigger] digit_16(v, i) < 16,
{
}

/// Whether the characters from `off` on are digits with these values.
pub open spec fn has_digits(s: Seq<u8>, off: int, v: int) -> bool {
    forall|i: int|
        #![trigger digit_16(v, i)]
        0 <= i < 8 ==> hex_digit(s[off + i]) == Some(digit_16(v, i) as u32)
}

pub proof fn lemma_number_has_digits(s: Seq<u8>, off: int, v: int)
    requires
        has_number(s, off, v),
    ensures
        has_digits(s, off, v),
{
    lemma_digits_16(v);
    assert forall|i: int| #![trigger digit_16(v, i)] 0 <= i < 8 implies hex_digit(s[off + i])
        == Some(digit_16(v, i) as u32) by {
        let c = s[off + i];
    }
}

/// The value of the first `n` of the eight digits of a number.
pub open spec fn leading_digits(v: int, n: int) -> int {
    if n <= 0 {
        0
    } else if n == 1 {
        v / 0x1000_0000
    } else if n == 2 {
        v / 0x100_0000
    } else if n == 3 {
        v / 0x10_0000
    } else if n == 4 {
        v / 0x1_0000
    } else if n == 5 {
        v / 0x1000
    } else if n == 6 {
        v / 0x100
    } else if n == 7 {
        v / 0x10
    } else {
        v
    }
}

pub proof fn lemma_next_digit(v: int, n: int)
    requires
        0 <= v <= 0xffff_ffff,
        1 <= n <= 8,
    ensures
        leading_digits(v, n) == leading_digits(v, n - 1) * 16 + digit_16(v, n - 1),
        0 <= digit_16(v, n - 1) < 16,
{
    lemma_digits_16(v);
}

proof fn lemma_leading_digits_read(s: Seq<u8>, off: int, v: int, n: int)
    requires
        0 <= v <= 0xffff_ffff,
        has_digits(s, off, v),
        0 <= n <= 8,
    ensures
        hex_prefix(s, off, n) == leading_digits(v, n),
    decreases n,
{
    if n > 0 {
        lemma_leading_digits_read(s, off, v, n - 1);
        lemma_next_digit(v, n);
        assert(off + (n - 1) == off + n - 1);
    }
}

pub proof fn lemma_number_reads_back(s: Seq<u8>, off: int, v: int)
    requires
        has_number(s, off, v),
    ensures
        hex8(s, off) == v,
{
    lemma_number_has_digits(s, off, v);
    lemma_leading_digits_read(s, off, v, 8);
}

/// A file that is written to an archive is read back with its name and its data,
/// and the walk goes on behind it; the file `TRAILER!!!` ends it.
pub proof fn lemma_written_file_is_read(
    s: Seq<u8>,
    off: int,
    name: Seq<u8>,
    data: Seq<u8>,
    next: int,
)
    requires
        has_file(s, off, name, data, next),
    ensures
        match cpio_step(s, off) {
            CpioStep::File(e) => name != trailer_name() && e.header == off && e.name == name
                && e.data == data && e.next == next,
            CpioStep::Trailer(end) => name == trailer_name() && end == next,
            CpioStep::Invalid => false,
        },
        next > off,
{
    lemma_number_reads_back(s, off + 54, data.len() as int);
    lemma_number_reads_back(s, off + 94, name.len() as int + 1);
    let name_end = off + 110 + name.len() + 1;
    let d = choose|d: int| #[trigger]
        is_padded(name_end, d) && is_padded(d + data.len(), next) && s.subrange(
            d,
            d + data.len(),
        ) == data;
    assert(ceil4(name_end) == d);
    assert(ceil4(d + data.len()) == next);
}

/// Whether an archive has the files with these names and data, one behind the
/// other, and ends with the trailer.
pub open spec fn is_archive(
    s: Seq<u8>,
    at: Seq<int>,
    names: Seq<Seq<u8>>,
    datas: Seq<Seq<u8>>,
) -> bool {
    let n = names.len();
    &&& at.len() == n + 2
    &&& datas.len() == n
    &&& at[0] == 0
    &&& forall|k: int|
        #![trigger names[k]]
        0 <= k < n ==> names[k] != trailer_name() && has_file(
            s,
            at[k],
            names[k],
            datas[k],
            at[k + 1],
        )
    &&& has_file(s, at[n as int], trailer_name(), Seq::empty(), at[n as int + 1])
}

proof fn lemma_archive_from(
    s: Seq<u8>,
    at: Seq<int>,
    names: Seq<Seq<u8>>,
    datas: Seq<Seq<u8>>,
    k: int,
)
    requires
        is_archive(s, at, names, datas),
        0 <= k <= names.len(),
    ensures
        files_from(s, at[k]).len() == names.len() - k,
        forall|j: int|
            0 <= j < names.len() - k ==> (#[trigger] files_from(s, at[k])[j]).name == names[k + j]
                && files_from(s, at[k])[j].data == datas[k + j],
        end_from(s, at[k]) == at[names.len() as int + 1],
    decreases names.len() - k,
{
    if k < names.len() {
        assert(names[k] != trailer_name());
        lemma_written_file_is_read(s, at[k], names[k], datas[k], at[k + 1]);
        lemma_archive_from(s, at, names, datas, k + 1);
        let rest = files_from(s, at[k + 1]);
        let all = files_from(s, at[k]);
        assert forall|j: int| 0 <= j < names.len() - k implies (#[trigger] all[j]).name == names[k
            + j] && all[j].data == datas[k + j] by {
            if j > 0 {
                assert(all[j] == rest[j - 1]);
            }
        }
    } else {
        lemma_written_file_is_read(
            s,
            at[k],
            trailer_name(),
            Seq::empty(),
            at[names.len() as int + 1],
        );
    }
}

/// An archive lists the files that were written to it, in order, and its size is
/// that of what was written.
pub proof fn lemma_archive_reads_back(
    s: Seq<u8>,
    at: Seq<int>,
    names: Seq<Seq<u8>>,
    datas: Seq<Seq<u8>>,
)
    requires
        is_archive(s, at, names, datas),
    ensures
        files_from(s, 0).len() == names.len(),
        forall|j: int|
            0 <= j < names.len() ==> (#[trigger] files_from(s, 0)[j]).name == names[j]
                && files_from(s, 0)[j].data == datas[j],
        end_from(s, 0) == at.last(),
{
    lemma_archive_from(s, at, names, datas, 0);
}

/// The metadata of an entry is that of the numbers in its header, in the order
/// inode, mode, owner, group, links and time.
pub proof fn lemma_metadata_reads_back(
    s: Seq<u8>,
    off: int,
    e: CpioEntryExt<'_>,
    numbers: Seq<int>,
)
    requires
        is_metadata(s, off, e),
        numbers.len() == 6,
        forall|i: int|
            #![trigger numbers[i]]
            0 <= i < 6 ==> has_number(s, off + 6 + 8 * i, numbers[i]),
    ensures
        e.ino == numbers[0],
        e.mode == numbers[1],
        e.uid == numbers[2],
        e.gid == numbers[3],
        e.nlink == numbers[4],
        e.mtime == numbers[5],
{
    lemma_number_reads_back(s, off + 6, numbers[0]);
    lemma_number_reads_back(s, off + 14, numbers[1]);
    lemma_number_reads_back(s, off + 22, numbers[2]);
    lemma_number_reads_back(s, off + 30, numbers[3]);
    lemma_number_reads_back(s, off + 38, numbers[4]);
    lemma_number_reads_back(s, off + 46, numbers[5]);
}

} // verus!
