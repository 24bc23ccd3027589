//! CPIO newc archive scanning for the boot archive.
//!
//! Looser than the archive walk in [`crate::loader::cpio`]: an entry needs its
//! name and data to be in the archive, but not the padding behind them, and a
//! name may lack its terminator. A field with a character that is no
//! hexadecimal digit reads as 0.
use crate::loader::bytes::bytes_eq;
use crate::loader::cpio::{
    ceil4, check_magic, has_digits, has_file, has_magic, has_number, hex_digit, is_archive,
    is_padded, is_trailer, leading_digits, lemma_next_digit, lemma_number_has_digits,
    read_hex_digit, trailer_name, CpioEntry, CpioEntryExt,
};
use vstd::prelude::*;
use vstd::slice::slice_subrange;

verus! {

/// The number in the first `n` characters of the field at `off`, if they all are
/// digits.
pub open spec fn strict_hex_prefix(s: Seq<u8>, off: int, n: int) -> Option<int>
    decreases n,
{
    if n <= 0 {
        Some(0)
    } else {
        match (strict_hex_prefix(s, off, n - 1), hex_digit(s[off + n - 1])) {
            (Some(v), Some(d)) => Some(v * 16 + d),
            _ => None,
        }
    }
}

/// The 8-character hexadecimal field at `off`; 0 if it is none.
pub open spec fn strict_hex8(s: Seq<u8>, off: int) -> int {
    match strict_hex_prefix(s, off, 8) {
        Some(v) => v,
        None => 0,
    }
}

proof fn lemma_strict_hex_none(s: Seq<u8>, off: int, n: int, m: int)
    requires
        n <= m,
        strict_hex_prefix(s, off, n) is None,
    ensures
        strict_hex_prefix(s, off, m) is None,
    decreases m - n,
{
    if n < m {
        lemma_strict_hex_none(s, off, n, m - 1);
    }
}

fn parse_hex8(data: &[u8], off: usize) -> (r: u32)
    requires
        off + 8 <= data.len(),
    ensures
        r == strict_hex8(data@, off as int),
{
    let mut val: u64 = 0;
    let mut limit: u64 = 1;
    let mut i: usize = 0;
    while i < 8
        invariant
            i <= 8,
            off + 8 <= data.len(),
            strict_hex_prefix(data@, off as int, i as int) == Some(val as int),
            val < limit,
            limit <= 0x1_0000_0000,
            i == 0 ==> limit == 1,
            i == 1 ==> limit == 0x10,
            i == 2 ==> limit == 0x100,
            i == 3 ==> limit == 0x1000,
            i == 4 ==> limit == 0x1_0000,
            i == 5 ==> limit == 0x10_0000,
            i == 6 ==> limit == 0x100_0000,
            i == 7 ==> limit == 0x1000_0000,
        decreases 8 - i,
    {
        match read_hex_digit(data[off + i]) {
            Some(d) => {
                val = val * 16 + d as u64;
                limit = limit * 16;
            },
            None => {
                proof {
                    lemma_strict_hex_none(data@, off as int, i + 1, 8);
                }
                return 0;
            },
        }
        i = i + 1;
    }
    val as u32
}

/// Where the parts of the entry at an offset are.
pub struct EntryParts {
    pub name: Seq<u8>,
    pub data_start: int,
    pub data_end: int,
}

/// The entry at `off`, without regard to whether its data is in the archive;
/// `None` if there is no header or its name is not in the archive.
pub open spec fn entry_parts(s: Seq<u8>, off: int) -> Option<EntryParts> {
    let namesize = strict_hex8(s, off + 94);
    let name_end = off + 110 + namesize;
    if off + 110 > s.len() || !has_magic(s, off) || name_end > s.len() {
        None
    } else {
        Some(
            EntryParts {
                name: s.subrange(
                    off + 110,
                    if namesize > 0 && s[name_end - 1] == 0 {
                        name_end - 1
                    } else {
                        name_end
                    },
                ),
                data_start: ceil4(name_end),
                data_end: ceil4(name_end) + strict_hex8(s, off + 54),
            },
        )
    }
}

/// The file at `off`: an entry that is not the trailer and whose data is in the
/// archive.
pub open spec fn file_at(s: Seq<u8>, off: int) -> Option<EntryParts> {
    match entry_parts(s, off) {
        Some(e) => if e.name == trailer_name() || e.data_end > s.len() {
            None
        } else {
            Some(e)
        },
        None => None,
    }
}

/// The metadata of the header at `off`.
pub open spec fn is_metadata(s: Seq<u8>, off: int, e: CpioEntryExt<'_>) -> bool {
    &&& e.ino == strict_hex8(s, off + 6)
    &&& e.mode == strict_hex8(s, off + 14)
    &&& e.uid == strict_hex8(s, off + 22)
    &&& e.gid == strict_hex8(s, off + 30)
    &&& e.nlink == strict_hex8(s, off + 38)
    &&& e.mtime == strict_hex8(s, off + 46)
}

proof fn lemma_strict_hex_nonneg(s: Seq<u8>, off: int, n: int)
    ensures
        strict_hex_prefix(s, off, n) matches Some(v) ==> v >= 0,
    decreases n,
{
    if n > 0 {
        lemma_strict_hex_nonneg(s, off, n - 1);
    }
}

/// Reads the entry at `off`: its name, and the extent of its data.
fn read_parts(archive: &[u8], off: usize) -> (r: Option<(&[u8], u128, u128)>)
    ensures
        match entry_parts(archive@, off as int) {
            Some(e) => r is Some && (r->0).0@ == e.name && (r->0).1 == e.data_start && (r->0).2
                == e.data_end && off + 110 <= archive.len() && off < (r->0).1 <= (r->0).2 <= archive.len()
                + 0x1_0000_0004,
            None => r is None,
        },
{
    let len: u128 = archive.len() as u128;
    if off as u128 + 110 > len {
        return None;
    }
    if !check_magic(archive, off) {
        return None;
    }
    let namesize: u128 = parse_hex8(archive, off + 94) as u128;
    let filesize: u128 = parse_hex8(archive, off + 54) as u128;
    let name_end: u128 = off as u128 + 110 + namesize;
    if name_end > len {
        return None;
    }
    let mut end: usize = name_end as usize;
    if namesize > 0 && archive[end - 1] == 0 {
        end = end - 1;
    }
    let name: &[u8] = slice_subrange(archive, off + 110, end);
    let data_start: u128 = (name_end + 3) / 4 * 4;
    Some((name, data_start, data_start + filesize))
}

fn read_file(archive: &[u8], off: usize) -> (r: Option<(&[u8], usize, usize)>)
    ensures
        match file_at(archive@, off as int) {
            Some(e) => r is Some && (r->0).0@ == e.name && (r->0).1 == e.data_start && (r->0).2
                == e.data_end && off + 110 <= archive.len() && off < (r->0).1 <= (r->0).2
                <= archive.len(),
            None => r is None,
        },
{
    match read_parts(archive, off) {
        Some((name, start, end)) => {
            if is_trailer(name) || end > archive.len() as u128 {
                None
            } else {
                Some((name, start as usize, end as usize))
            }
        },
        None => None,
    }
}

/// The first file named `name` from `off` on, and the offset of its header.
pub open spec fn find_from(s: Seq<u8>, off: int, name: Seq<u8>) -> Option<(int, EntryParts)>
    decreases s.len() + 4 - off,
{
    match file_at(s, off) {
        Some(e) => if e.name == name {
            Some((off, e))
        } else if e.data_end > off {
            find_from(s, ceil4(e.data_end), name)
        } else {
            None
        },
        None => None,
    }
}

fn find_header(archive: &[u8], name: &[u8]) -> (r: Option<usize>)
    ensures
        match find_from(archive@, 0, name@) {
            Some((off, e)) => r == Some(off as usize) && off <= usize::MAX && off >= 0,
            None => r is None,
        },
        r matches Some(off) ==> file_at(archive@, off as int) is Some && file_at(
            archive@,
            off as int,
        )->0.name == name@ && find_from(archive@, 0, name@) == Some(
            (off as int, file_at(archive@, off as int)->0),
        ),
{
    let mut off: usize = 0;
    loop
        invariant
            off <= archive.len() + 3,
            find_from(archive@, 0, name@) == find_from(archive@, off as int, name@),
        decreases archive@.len() + 4 - off,
    {
        match read_file(archive, off) {
            Some((found, _, end)) => {
                if bytes_eq(found, name) {
                    return Some(off);
                }
                let next: u128 = (end as u128 + 3) / 4 * 4;
                if next + 110 > archive.len() as u128 {
                    proof {
                        assert(next == ceil4(end as int));
                        assert(find_from(archive@, next as int, name@) is None);
                    }
                    return None;
                }
                off = next as usize;
            },
            None => {
                return None;
            },
        }
    }
}

/// Searches for a file by name.
pub fn cpio_find_file<'a>(archive: &'a [u8], name: &[u8]) -> (r: Option<CpioEntry<'a>>)
    ensures
        match find_from(archive@, 0, name@) {
            Some((_, e)) => r is Some && r->0.name@ == name@ && r->0.data@ == archive@.subrange(
                e.data_start,
                e.data_end,
            ),
            None => r is None,
        },
{
    match find_header(archive, name) {
        Some(off) => match read_file(archive, off) {
            Some((found, start, end)) => Some(
                CpioEntry { name: found, data: slice_subrange(archive, start, end) },
            ),
            None => None,
        },
        None => None,
    }
}

/// Searches for a file by name, returning extended metadata.
pub fn cpio_find_file_ext<'a>(archive: &'a [u8], name: &[u8]) -> (r: Option<CpioEntryExt<'a>>)
    ensures
        match find_from(archive@, 0, name@) {
            Some((off, e)) => r is Some && r->0.name@ == name@ && r->0.data@ == archive@.subrange(
                e.data_start,
                e.data_end,
            ) && is_metadata(archive@, off, r->0),
            None => r is None,
        },
{
    match find_header(archive, name) {
        Some(off) => match read_file(archive, off) {
            Some((found, start, end)) => Some(
                CpioEntryExt {
                    name: found,
                    data: slice_subrange(archive, start, end),
                    ino: parse_hex8(archive, off + 6),
                    mode: parse_hex8(archive, off + 14),
                    uid: parse_hex8(archive, off + 22),
                    gid: parse_hex8(archive, off + 30),
                    nlink: parse_hex8(archive, off + 38),
                    mtime: parse_hex8(archive, off + 46),
                },
            ),
            None => None,
        },
        None => None,
    }
}

/// Reads the file at `offset` and advances `offset` past it. `None` at the end
/// of the archive or at what is not usable; `offset` then stays.
pub fn cpio_next<'a>(archive: &'a [u8], offset: &mut usize) -> (r: Option<CpioEntry<'a>>)
    requires
        archive@.len() <= usize::MAX - 3,
    ensures
        match file_at(archive@, *old(offset) as int) {
            Some(e) => r is Some && r->0.name@ == e.name && r->0.data@ == archive@.subrange(
                e.data_start,
                e.data_end,
            ) && *final(offset) == ceil4(e.data_end),
            None => r is None && *final(offset) == *old(offset),
        },
{
    match read_file(archive, *offset) {
        Some((name, start, end)) => {
            *offset = (end + 3) / 4 * 4;
            Some(CpioEntry { name, data: slice_subrange(archive, start, end) })
        },
        None => None,
    }
}

/// Like [`cpio_next`], with extended metadata.
pub fn cpio_next_ext<'a>(archive: &'a [u8], offset: &mut usize) -> (r: Option<CpioEntryExt<'a>>)
    requires
        archive@.len() <= usize::MAX - 3,
    ensures
        match file_at(archive@, *old(offset) as int) {
            Some(e) => r is Some && r->0.name@ == e.name && r->0.data@ == archive@.subrange(
                e.data_start,
                e.data_end,
            ) && is_metadata(archive@, *old(offset) as int, r->0) && *final(offset) == ceil4(
                e.data_end,
            ),
            None => r is None && *final(offset) == *old(offset),
        },
{
    let off: usize = *offset;
    match read_file(archive, off) {
        Some((name, start, end)) => {
            *offset = (end + 3) / 4 * 4;
            Some(
                CpioEntryExt {
                    name,
                    data: slice_subrange(archive, start, end),
                    ino: parse_hex8(archive, off + 6),
                    mode: parse_hex8(archive, off + 14),
                    uid: parse_hex8(archive, off + 22),
                    gid: parse_hex8(archive, off + 30),
                    nlink: parse_hex8(archive, off + 38),
                    mtime: parse_hex8(archive, off + 46),
                },
            )
        },
        None => None,
    }
}

/// Size of the archive in `s`, seen from `off`: the offset past its trailer, the
/// offset of what is no header, or the whole length if it is cut off.
pub open spec fn size_from(s: Seq<u8>, off: int) -> int
    decreases s.len() + 4 - off,
{
    match entry_parts(s, off) {
        None => if off + 110 <= s.len() && !has_magic(s, off) {
            off
        } else {
            s.len() as int
        },
        Some(e) => if e.name == trailer_name() {
            ceil4(e.data_end)
        } else if e.data_end > s.len() || e.data_end <= off {
            s.len() as int
        } else {
            size_from(s, ceil4(e.data_end))
        },
    }
}

/// Computes the total size of an archive: the byte offset just past the trailer,
/// or the length of the buffer if the archive is truncated.
pub fn cpio_archive_size(archive: &[u8]) -> (r: u128)
    ensures
        r == size_from(archive@, 0),
{
    let len: u128 = archive.len() as u128;
    let mut off: usize = 0;
    loop
        invariant
            len == archive.len(),
            off <= archive.len() + 3,
            size_from(archive@, 0) == size_from(archive@, off as int),
        decreases archive@.len() + 4 - off,
    {
        match read_parts(archive, off) {
            None => {
                if off as u128 + 110 <= len && !check_magic(archive, off) {
                    return off as u128;
                }
                return len;
            },
            Some((name, _, end)) => {
                let next: u128 = (end + 3) / 4 * 4;
                if is_trailer(name) {
                    return next;
                }
                if end > len {
                    return len;
                }
                if next + 110 > len {
                    proof {
                        assert(size_from(archive@, next as int) == len);
                    }
                    return len;
                }
                off = next as usize;
            },
        }
    }
}

proof fn lemma_leading_digits_read(s: Seq<u8>, off: int, v: int, n: int)
    requires
        0 <= v <= 0xffff_ffff,
        has_digits(s, off, v),
        0 <= n <= 8,
    ensures
        strict_hex_prefix(s, off, n) == Some(leading_digits(v, n)),
    decreases n,
{
    if n > 0 {
        lemma_leading_digits_read(s, off, v, n - 1);
        lemma_next_digit(v, n);
        assert(off + (n - 1) == off + n - 1);
    }
}

proof fn lemma_strict_number(s: Seq<u8>, off: int, v: int)
    requires
        has_number(s, off, v),
    ensures
        strict_hex8(s, off) == v,
{
    lemma_number_has_digits(s, off, v);
    lemma_leading_digits_read(s, off, v, 8);
}

/// An entry that is written to an archive is read back, and what follows it is
/// where the next entry is looked for.
pub proof fn lemma_written_entry_is_read(
    s: Seq<u8>,
    off: int,
    name: Seq<u8>,
    data: Seq<u8>,
    next: int,
)
    requires
        has_file(s, off, name, data, next),
    ensures
        entry_parts(s, off) is Some,
        ({
            let e = entry_parts(s, off)->0;
            &&& e.name == name
            &&& s.subrange(e.data_start, e.data_end) == data
            &&& ceil4(e.data_end) == next
            &&& off < e.data_end <= s.len()
        }),
{
    lemma_strict_number(s, off + 54, data.len() as int);
    lemma_strict_number(s, off + 94, name.len() as int + 1);
    let name_end = off + 110 + name.len() + 1;
    let d = choose|d: int| #[trigger]
        is_padded(name_end, d) && is_padded(d + data.len(), next) && s.subrange(
            d,
            d + data.len(),
        ) == data;
    assert(ceil4(name_end) == d);
    assert(ceil4(d + data.len()) == next);
}

/// A file that was written to an archive is found by its name, with its data; of
/// several with the same name the first one.
pub proof fn lemma_written_file_is_found(
    s: Seq<u8>,
    at: Seq<int>,
    names: Seq<Seq<u8>>,
    datas: Seq<Seq<u8>>,
    from: int,
    k: int,
)
    requires
        is_archive(s, at, names, datas),
        0 <= from <= k < names.len(),
        forall|j: int| 0 <= j < k ==> #[trigger] names[j] != names[k],
    ensures
        find_from(s, at[from], names[k]) is Some,
        ({
            let (off, e) = find_from(s, at[from], names[k])->0;
            off == at[k] && e.name == names[k] && s.subrange(e.data_start, e.data_end) == datas[k]
        }),
    decreases k - from,
{
    assert(names[from] != trailer_name());
    lemma_written_entry_is_read(s, at[from], names[from], datas[from], at[from + 1]);
    if from < k {
        lemma_written_file_is_found(s, at, names, datas, from + 1, k);
    }
}

/// The size of an archive is that of what was written, the trailer included.
pub proof fn lemma_archive_size(
    s: Seq<u8>,
    at: Seq<int>,
    names: Seq<Seq<u8>>,
    datas: Seq<Seq<u8>>,
    from: int,
)
    requires
        is_archive(s, at, names, datas),
        0 <= from <= names.len(),
    ensures
        size_from(s, at[from]) == at.last(),
    decreases names.len() - from,
{
    if from < names.len() {
        assert(names[from] != trailer_name());
        lemma_written_entry_is_read(s, at[from], names[from], datas[from], at[from + 1]);
        lemma_archive_size(s, at, names, datas, from + 1);
    } else {
        lemma_written_entry_is_read(
            s,
            at[from],
            trailer_name(),
            Seq::empty(),
            at[names.len() as int + 1],
        );
    }
}

/// The metadata of an entry is that of the numbers in its header, in the order
/// inode, mode, owner, group, links and time.
pub proof fn lemma_metadata_reads_back(
    s: Seq<u8>,
    off: int,
    e: CpioEntryExt<'_>,
    numbers: Seq<int>,
)
    requires
        is_metadata(s, off, e),
        numbers.len() == 6,
        forall|i: int|
            #![trigger numbers[i]]
            0 <= i < 6 ==> has_number(s, off + 6 + 8 * i, numbers[i]),
    ensures
        e.ino == numbers[0],
        e.mode == numbers[1],
        e.uid == numbers[2],
        e.gid == numbers[3],
        e.nlink == numbers[4],
        e.mtime == numbers[5],
{
    lemma_strict_number(s, off + 6, numbers[0]);
    lemma_strict_number(s, off + 14, numbers[1]);
    lemma_strict_number(s, off + 22, numbers[2]);
    lemma_strict_number(s, off + 30, numbers[3]);
    lemma_strict_number(s, off + 38, numbers[4]);
    lemma_strict_number(s, off + 46, numbers[5]);
}

} // verus!
