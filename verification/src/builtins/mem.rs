//! C memory and string routines over byte slices.
use vstd::prelude::*;

verus! {

/// The low byte of `c`.
pub open spec fn low_byte(c: i32) -> u8 {
    (c as int % 256) as u8
}

/// Sets the first `n` bytes of `dest` to the low byte of `c`.
pub fn memset(dest: &mut [u8], c: i32, n: usize)
    requires
        n <= old(dest)@.len(),
    ensures
        final(dest)@.len() == old(dest)@.len(),
        forall|i: int| 0 <= i < n ==> final(dest)@[i] == low_byte(c),
        forall|i: int| n <= i < old(dest)@.len() ==> final(dest)@[i] == old(dest)@[i],
{
    let b: u8 = if c >= 0 { (c % 256) as u8 } else { 255 - ((-(c + 1)) % 256) as u8 };
    let mut i: usize = 0;
    while i < n
        invariant
            i <= n <= dest@.len(),
            b == low_byte(c),
            dest@.len() == old(dest)@.len(),
            forall|j: int| 0 <= j < i ==> dest@[j] == b,
            forall|j: int| i <= j < dest@.len() ==> dest@[j] == old(dest)@[j],
        decreases n - i,
    {
        dest[i] = b;
        i = i + 1;
    }
}

/// Copies the first `n` bytes of `src` over the first `n` bytes of `dest`.
pub fn memcpy(dest: &mut [u8], src: &[u8], n: usize)
    requires
        n <= old(dest)@.len(),
        n <= src@.len(),
    ensures
        final(dest)@ == src@.subrange(0, n as int) + old(dest)@.subrange(
            n as int,
            old(dest)@.len() as int,
        ),
{
    let mut i: usize = 0;
    while i < n
        invariant
            i <= n <= dest@.len(),
            n <= src@.len(),
            dest@.len() == old(dest)@.len(),
            forall|j: int| 0 <= j < i ==> dest@[j] == src@[j],
            forall|j: int| i <= j < dest@.len() ==> dest@[j] == old(dest)@[j],
        decreases n - i,
    {
        dest[i] = src[i];
        i = i + 1;
    }
    assert(dest@ =~= src@.subrange(0, n as int) + old(dest)@.subrange(
        n as int,
        old(dest)@.len() as int,
    ));
}

/// Moves `n` bytes of `buf` from offset `src` to offset `dest`; the two ranges
/// may overlap.
pub fn memmove(buf: &mut [u8], dest: usize, src: usize, n: usize)
    requires
        dest + n <= old(buf)@.len(),
        src + n <= old(buf)@.len(),
    ensures
        final(buf)@.len() == old(buf)@.len(),
        forall|i: int| 0 <= i < n ==> #[trigger] final(buf)@[dest + i] == old(buf)@[src + i],
        forall|i: int|
            0 <= i < old(buf)@.len() && !(dest <= i < dest + n) ==> #[trigger] final(buf)@[i]
                == old(buf)@[i],
{
    let len: usize = buf.len();
    if dest < src {
        let mut i: usize = 0;
        while i < n
            invariant
                i <= n,
                dest < src,
                dest + n <= buf@.len(),
                src + n <= buf@.len() == len,
                buf@.len() == old(buf)@.len(),
                forall|j: int| 0 <= j < i ==> #[trigger] buf@[dest + j] == old(buf)@[src + j],
                forall|j: int|
                    0 <= j < buf@.len() && !(dest <= j < dest + i) ==> #[trigger] buf@[j] == old(
                        buf,
                    )@[j],
            decreases n - i,
        {
            let b: u8 = buf[src + i];
            buf[dest + i] = b;
            i = i + 1;
        }
    } else {
        let mut i: usize = n;
        while i > 0
            invariant
                i <= n,
                dest >= src,
                dest + n <= buf@.len(),
                src + n <= buf@.len() == len,
                buf@.len() == old(buf)@.len(),
                forall|j: int| i <= j < n ==> #[trigger] buf@[dest + j] == old(buf)@[src + j],
                forall|j: int|
                    0 <= j < buf@.len() && !(dest + i <= j < dest + n) ==> #[trigger] buf@[j]
                        == old(buf)@[j],
            decreases i,
        {
            i = i - 1;
            let b: u8 = buf[src + i];
            buf[dest + i] = b;
        }
    }
}

fn byte_difference(a: u8, b: u8) -> (r: i32)
    ensures
        r == a - b,
{
    a as i32 - b as i32
}

/// `d` is what comparing `a` with `b` byte by byte gives: the difference of the
/// first bytes that differ, or 0.
pub open spec fn is_byte_order(a: Seq<u8>, b: Seq<u8>, d: int) -> bool {
    (a == b && d == 0) || exists|i: int|
        {
            &&& 0 <= i < a.len()
            &&& a.subrange(0, i) == b.subrange(0, i)
            &&& #[trigger] a[i] != b[i]
            &&& d == a[i] - b[i]
        }
}

/// Compares the first `n` bytes of two buffers.
pub fn memcmp(s1: &[u8], s2: &[u8], n: usize) -> (r: i32)
    requires
        n <= s1@.len(),
        n <= s2@.len(),
    ensures
        is_byte_order(s1@.take(n + 0), s2@.take(n + 0), r + 0),
{
    let mut i: usize = 0;
    while i < n
        invariant
            i <= n <= s1@.len(),
            n <= s2@.len(),
            forall|j: int| 0 <= j < i ==> s1@[j] == s2@[j],
        decreases n - i,
    {
        let a: u8 = s1[i];
        let b: u8 = s2[i];
        if a != b {
            proof {
                let x = s1@.take(n + 0);
                let y = s2@.take(n + 0);
                assert(x.subrange(0, i + 0) =~= y.subrange(0, i + 0));
                assert(x[i + 0] != y[i + 0]);
            }
            return byte_difference(a, b);
        }
        i = i + 1;
    }
    assert(s1@.take(n + 0) =~= s2@.take(n + 0));
    0
}

/// Like [`memcmp`]; callers use only whether the result is zero.
pub fn bcmp(s1: &[u8], s2: &[u8], n: usize) -> (r: i32)
    requires
        n <= s1@.len(),
        n <= s2@.len(),
    ensures
        r == 0 <==> s1@.take(n + 0) == s2@.take(n + 0),
        is_byte_order(s1@.take(n + 0), s2@.take(n + 0), r + 0),
{
    memcmp(s1, s2, n)
}

/// Length of the NUL-terminated string at the start of `s`.
pub fn strlen(s: &[u8]) -> (r: usize)
    requires
        s@.contains(0),
    ensures
        r < s@.len(),
        s@[r as int] == 0,
        forall|i: int| 0 <= i < r ==> s@[i] != 0,
{
    let mut len: usize = 0;
    let ghost z = choose|z: int| 0 <= z < s@.len() && s@[z] == 0;
    while s[len] != 0
        invariant
            0 <= z < s@.len(),
            s@[z] == 0,
            len <= z,
            forall|i: int| 0 <= i < len ==> s@[i] != 0,
        decreases s@.len() - len,
    {
        len = len + 1;
    }
    len
}

/// The outcome of a comparison is zero for the same bytes only, and otherwise has
/// the sign of the first difference; it turns round with the operands.
pub proof fn lemma_byte_order(a: Seq<u8>, b: Seq<u8>, d: int, i: int)
    requires
        a.len() == b.len(),
        is_byte_order(a, b, d),
    ensures
        d == 0 <==> a == b,
        is_byte_order(b, a, -d),
        0 <= i < a.len() && a[i] < b[i] && (forall|j: int| 0 <= j < i ==> a[j] == b[j]) ==> d < 0,
        0 <= i < a.len() && a[i] > b[i] && (forall|j: int| 0 <= j < i ==> a[j] == b[j]) ==> d > 0,
{
    if !(a == b && d == 0) {
        let k = choose|k: int|
            {
                &&& 0 <= k < a.len()
                &&& a.subrange(0, k) == b.subrange(0, k)
                &&& #[trigger] a[k] != b[k]
                &&& d == a[k] - b[k]
            };
        assert(b[k] != a[k]);
        if 0 <= i < a.len() && a[i] != b[i] && (forall|j: int| 0 <= j < i ==> a[j] == b[j]) {
            if i < k {
                assert(a.subrange(0, k)[i] == b.subrange(0, k)[i]);
            }
            assert(i == k);
        }
    }
}

} // verus!
