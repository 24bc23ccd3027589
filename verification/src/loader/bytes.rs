//! Little-endian fields of byte sequences.
use vstd::prelude::*;

verus! {

/// The 16-bit field at `off`.
#[verifier::opaque]
pub open spec fn le_u16(s: Seq<u8>, off: int) -> u16 {
    (s[off] + s[off + 1] * 0x100) as u16
}

/// The 32-bit field at `off`.
#[verifier::opaque]
pub open spec fn le_u32(s: Seq<u8>, off: int) -> u32 {
    (s[off] + s[off + 1] * 0x100 + s[off + 2] * 0x1_0000 + s[off + 3] * 0x100_0000) as u32
}

/// The 64-bit field at `off`.
#[verifier::opaque]
pub open spec fn le_u64(s: Seq<u8>, off: int) -> u64 {
    (le_u32(s, off) + le_u32(s, off + 4) * 0x1_0000_0000) as u64
}

pub fn read_u16(data: &[u8], off: usize) -> (r: u16)
    requires
        off + 2 <= data.len(),
    ensures
        r == le_u16(data@, off as int),
{
    reveal(le_u16);
    data[off] as u16 + data[off + 1] as u16 * 0x100
}

pub fn read_u32(data: &[u8], off: usize) -> (r: u32)
    requires
        off + 4 <= data.len(),
    ensures
        r == le_u32(data@, off as int),
{
    reveal(le_u32);
    data[off] as u32 + data[off + 1] as u32 * 0x100 + data[off + 2] as u32 * 0x1_0000 + data[off
        + 3] as u32 * 0x100_0000
}

pub fn read_u64(data: &[u8], off: usize) -> (r: u64)
    requires
        off + 8 <= data.len(),
    ensures
        r == le_u64(data@, off as int),
{
    reveal(le_u64);
    read_u32(data, off) as u64 + read_u32(data, off + 4) as u64 * 0x1_0000_0000
}

/// The bytes of a 16-bit field, lowest first.
pub open spec fn u16_bytes(v: u16) -> Seq<u8> {
    seq![(v % 0x100) as u8, (v / 0x100) as u8]
}

/// The bytes of a 32-bit field, lowest first.
pub open spec fn u32_bytes(v: u32) -> Seq<u8> {
    seq![
        (v % 0x100) as u8,
        (v / 0x100 % 0x100) as u8,
        (v / 0x1_0000 % 0x100) as u8,
        (v / 0x100_0000) as u8,
    ]
}

/// The bytes of a 64-bit field, lowest first.
pub open spec fn u64_bytes(v: u64) -> Seq<u8> {
    u32_bytes((v % 0x1_0000_0000) as u32) + u32_bytes((v / 0x1_0000_0000) as u32)
}

/// `s` with the bytes from `off` on replaced by `b`.
pub open spec fn overwrite(s: Seq<u8>, off: int, b: Seq<u8>) -> Seq<u8> {
    Seq::new(
        s.len(),
        |i: int|
            if off <= i < off + b.len() {
                b[i - off]
            } else {
                s[i]
            },
    )
}

pub fn write_u16(data: &mut [u8], off: usize, v: u16)
    requires
        off + 2 <= old(data)@.len(),
    ensures
        final(data)@ == overwrite(old(data)@, off as int, u16_bytes(v)),
{
    data[off] = (v % 0x100) as u8;
    data[off + 1] = (v / 0x100) as u8;
    assert(data@ =~= overwrite(old(data)@, off as int, u16_bytes(v)));
}

pub fn write_u32(data: &mut [u8], off: usize, v: u32)
    requires
        off + 4 <= old(data)@.len(),
    ensures
        final(data)@ == overwrite(old(data)@, off as int, u32_bytes(v)),
{
    data[off] = (v % 0x100) as u8;
    data[off + 1] = (v / 0x100 % 0x100) as u8;
    data[off + 2] = (v / 0x1_0000 % 0x100) as u8;
    data[off + 3] = (v / 0x100_0000) as u8;
    assert(data@ =~= overwrite(old(data)@, off as int, u32_bytes(v)));
}

pub fn write_u64(data: &mut [u8], off: usize, v: u64)
    requires
        off + 8 <= old(data)@.len(),
    ensures
        final(data)@ == overwrite(old(data)@, off as int, u64_bytes(v)),
{
    let len: usize = data.len();
    assert(off + 8 <= len);
    write_u32(data, off, (v % 0x1_0000_0000) as u32);
    write_u32(data, off + 4, (v / 0x1_0000_0000) as u32);
    assert(data@ =~= overwrite(old(data)@, off as int, u64_bytes(v)));
}

/// A 64-bit field reads back as it was written, and fields apart from it keep
/// their value.
pub proof fn lemma_write_read_u64(s: Seq<u8>, off: int, v: u64, other: int)
    requires
        0 <= off,
        off + 8 <= s.len(),
        0 <= other,
        other + 8 <= s.len(),
    ensures
        le_u64(overwrite(s, off, u64_bytes(v)), off) == v,
        other + 8 <= off || off + 8 <= other ==> le_u64(
            overwrite(s, off, u64_bytes(v)),
            other,
        ) == le_u64(s, other),
{
    reveal(le_u32);
    reveal(le_u64);
    let t = overwrite(s, off, u64_bytes(v));
    let lo = (v % 0x1_0000_0000) as u32;
    let hi = (v / 0x1_0000_0000) as u32;
    let b = u64_bytes(v);
    assert(b[0] == u32_bytes(lo)[0] && b[1] == u32_bytes(lo)[1] && b[2] == u32_bytes(lo)[2] && b[3]
        == u32_bytes(lo)[3]);
    assert(b[4] == u32_bytes(hi)[0] && b[5] == u32_bytes(hi)[1] && b[6] == u32_bytes(hi)[2] && b[7]
        == u32_bytes(hi)[3]);
    lemma_u32_digits(lo);
    lemma_u32_digits(hi);
    assert(le_u32(t, off) == lo);
    assert(le_u32(t, off + 4) == hi);
    if other + 8 <= off || off + 8 <= other {
        assert(le_u32(t, other) == le_u32(s, other));
        assert(le_u32(t, other + 4) == le_u32(s, other + 4));
    }
}

proof fn lemma_u32_digits(v: u32)
    ensures
        v % 0x100 + (v / 0x100 % 0x100) * 0x100 + (v / 0x1_0000 % 0x100) * 0x1_0000 + (v
            / 0x100_0000) * 0x100_0000 == v,
        v / 0x100_0000 < 0x100,
{
}

/// A 32-bit field reads back as it was written.
pub proof fn lemma_write_read_u32(s: Seq<u8>, off: int, v: u32)
    requires
        0 <= off,
        off + 4 <= s.len(),
    ensures
        le_u32(overwrite(s, off, u32_bytes(v)), off) == v,
{
    reveal(le_u32);
    lemma_u32_digits(v);
}

/// A 16-bit field reads back as it was written.
pub proof fn lemma_write_read_u16(s: Seq<u8>, off: int, v: u16)
    requires
        0 <= off,
        off + 2 <= s.len(),
    ensures
        le_u16(overwrite(s, off, u16_bytes(v)), off) == v,
{
    reveal(le_u16);
}

/// The lowest byte of a field comes first: a field is made of two fields of half
/// its size, and a 16-bit field of two bytes, the lower half first.
pub proof fn lemma_fields_are_little_endian(s: Seq<u8>, off: int)
    ensures
        le_u16(s, off) % 0x100 == s[off],
        le_u16(s, off) / 0x100 == s[off + 1],
        le_u32(s, off) % 0x1_0000 == le_u16(s, off),
        le_u32(s, off) / 0x1_0000 == le_u16(s, off + 2),
        le_u64(s, off) % 0x1_0000_0000 == le_u32(s, off),
        le_u64(s, off) / 0x1_0000_0000 == le_u32(s, off + 4),
{
    reveal(le_u16);
    reveal(le_u32);
    reveal(le_u64);
}

/// A field of the rest of some data is a field of the data.
pub proof fn lemma_fields_of_rest(s: Seq<u8>, n: int, off: int)
    requires
        0 <= n,
        0 <= off,
        n + off + 8 <= s.len(),
    ensures
        le_u16(s.skip(n), off) == le_u16(s, n + off),
        le_u32(s.skip(n), off) == le_u32(s, n + off),
        le_u64(s.skip(n), off) == le_u64(s, n + off),
{
    reveal(le_u16);
    reveal(le_u32);
    reveal(le_u64);
    let t = s.skip(n);
    assert(forall|i: int| 0 <= i < 8 ==> t[off + i] == #[trigger] s[n + off + i]);
    assert(t[off] == s[n + off] && t[off + 1] == s[n + off + 1] && t[off + 2] == s[n + off + 2]
        && t[off + 3] == s[n + off + 3] && t[off + 4] == s[n + off + 4] && t[off + 5] == s[n + off
        + 5] && t[off + 6] == s[n + off + 6] && t[off + 7] == s[n + off + 7]);
}

/// A field depends on its own bytes alone.
pub proof fn lemma_fields_are_local(s: Seq<u8>, t: Seq<u8>, off: int)
    ensures
        s[off] == t[off] && s[off + 1] == t[off + 1] ==> le_u16(s, off) == le_u16(t, off),
        (forall|i: int| off <= i < off + 4 ==> #[trigger] s[i] == t[i]) ==> le_u32(s, off)
            == le_u32(t, off),
        (forall|i: int| off <= i < off + 8 ==> #[trigger] s[i] == t[i]) ==> le_u64(s, off)
            == le_u64(t, off),
{
    reveal(le_u16);
    reveal(le_u32);
    reveal(le_u64);
}

/// Length of the string that starts at `off` and ends before the first NUL, or
/// at the end of the data.
pub open spec fn c_len(s: Seq<u8>, off: int) -> int
    decreases s.len() - off,
{
    if off < 0 || off >= s.len() || s[off] == 0 {
        0
    } else {
        1 + c_len(s, off + 1)
    }
}

/// The string that starts at `off`, without its terminator.
pub open spec fn c_str(s: Seq<u8>, off: int) -> Seq<u8> {
    s.subrange(off, off + c_len(s, off))
}

pub proof fn lemma_c_len(s: Seq<u8>, off: int, n: int)
    requires
        0 <= off,
        0 <= n,
        off + n <= s.len(),
        forall|i: int| off <= i < off + n ==> s[i] != 0,
        off + n == s.len() || s[off + n] == 0,
    ensures
        c_len(s, off) == n,
    decreases n,
{
    if n > 0 {
        lemma_c_len(s, off + 1, n - 1);
    }
}

pub proof fn lemma_c_len_bounds(s: Seq<u8>, off: int)
    requires
        0 <= off <= s.len(),
    ensures
        0 <= c_len(s, off),
        off + c_len(s, off) <= s.len(),
        forall|i: int| off <= i < off + c_len(s, off) ==> s[i] != 0,
        off + c_len(s, off) < s.len() ==> s[off + c_len(s, off)] == 0,
    decreases s.len() - off,
{
    if off < s.len() && s[off] != 0 {
        lemma_c_len_bounds(s, off + 1);
    }
}

/// The string that starts at `off`.
pub fn read_c_str(data: &[u8], off: usize) -> (r: &[u8])
    requires
        off <= data@.len(),
    ensures
        r@ == c_str(data@, off as int),
{
    let mut end: usize = off;
    while end < data.len() && data[end] != 0
        invariant
            off <= end <= data@.len(),
            forall|i: int| off <= i < end ==> data@[i] != 0,
        decreases data@.len() - end,
    {
        end = end + 1;
    }
    proof {
        lemma_c_len(data@, off as int, end - off);
    }
    vstd::slice::slice_subrange(data, off, end)
}

/// Whether two byte strings are equal.
pub fn bytes_eq(a: &[u8], b: &[u8]) -> (r: bool)
    ensures
        r == (a@ == b@),
{
    if a.len() != b.len() {
        return false;
    }
    let mut i: usize = 0;
    while i < a.len()
        invariant
            i <= a@.len(),
            a@.len() == b@.len(),
            forall|j: int| 0 <= j < i ==> a@[j] == b@[j],
        decreases a@.len() - i,
    {
        if a[i] != b[i] {
            return false;
        }
        i = i + 1;
    }
    assert(a@ =~= b@);
    true
}

/// The signed number with the pattern of `x`.
pub open spec fn signed(x: u64) -> i64 {
    (if x < 0x8000_0000_0000_0000 {
        x as int
    } else {
        x - 0x1_0000_0000_0000_0000
    }) as i64
}

pub fn to_signed(x: u64) -> (r: i64)
    ensures
        r == signed(x),
{
    if x < 0x8000_0000_0000_0000 {
        x as i64
    } else {
        -((0xffff_ffff_ffff_ffff - x) as i64) - 1
    }
}

/// The pattern of the signed number `x`.
pub open spec fn unsigned(x: i64) -> u64 {
    (if x < 0 {
        x + 0x1_0000_0000_0000_0000
    } else {
        x as int
    }) as u64
}

pub fn to_unsigned(x: i64) -> (r: u64)
    ensures
        r == unsigned(x),
{
    if x < 0 {
        0xffff_ffff_ffff_ffff - (-(x + 1)) as u64
    } else {
        x as u64
    }
}

/// The number that the `width` bytes from `off` on make up, the lowest byte first.
pub open spec fn field(s: Seq<u8>, off: int, width: int) -> int
    decreases width,
{
    if width <= 0 {
        0
    } else {
        s[off] + 256 * field(s, off + 1, width - 1)
    }
}

/// Whether a record with fields of these widths, one behind the other without
/// gaps, holds these values from field `k` on.
pub open spec fn has_record(
    s: Seq<u8>,
    off: int,
    widths: Seq<int>,
    values: Seq<int>,
    k: int,
) -> bool
    decreases widths.len() - k,
{
    k < widths.len() ==> field(s, off, widths[k]) == values[k] && has_record(
        s,
        off + widths[k],
        widths,
        values,
        k + 1,
    )
}

pub proof fn lemma_field_8(s: Seq<u8>, off: int)
    ensures
        field(s, off, 1) == s[off],
{
    reveal_with_fuel(field, 2);
}

pub proof fn lemma_field_16(s: Seq<u8>, off: int)
    ensures
        field(s, off, 2) == le_u16(s, off),
{
    reveal(le_u16);
    reveal_with_fuel(field, 3);
}

pub proof fn lemma_field_32(s: Seq<u8>, off: int)
    ensures
        field(s, off, 4) == le_u32(s, off),
{
    reveal(le_u32);
    reveal_with_fuel(field, 5);
}

pub proof fn lemma_field_64(s: Seq<u8>, off: int)
    ensures
        field(s, off, 8) == le_u64(s, off),
{
    reveal(le_u32);
    reveal(le_u64);
    reveal_with_fuel(field, 9);
}

} // verus!
