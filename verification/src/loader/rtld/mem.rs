//! Memory helpers of the runtime linker.
use crate::loader::elf::types::{page_align_up, page_ceil};
use vstd::prelude::*;

verus! {

/// Zeroes a region.
pub fn memzero(region: &mut [u8])
    ensures
        final(region)@.len() == old(region)@.len(),
        forall|i: int| 0 <= i < final(region)@.len() ==> final(region)@[i] == 0,
{
    let n: usize = region.len();
    let mut i: usize = 0;
    while i < n
        invariant
            i <= n,
            n == region@.len(),
            n == old(region)@.len(),
            forall|j: int| 0 <= j < i ==> region@[j] == 0,
        decreases n - i,
    {
        region[i] = 0;
        i = i + 1;
    }
}

/// Copies the first `len` bytes of `src` to the start of `dst`.
pub fn memcpy(dst: &mut [u8], src: &[u8], len: usize)
    requires
        len <= old(dst)@.len(),
        len <= src@.len(),
    ensures
        final(dst)@ == src@.take(len as int) + old(dst)@.skip(len as int),
{
    let mut i: usize = 0;
    assert(dst@ =~= src@.take(0) + old(dst)@.skip(0));
    while i < len
        invariant
            i <= len,
            len <= dst@.len(),
            len <= src@.len(),
            dst@.len() == old(dst)@.len(),
            dst@ == src@.take(i as int) + old(dst)@.skip(i as int),
        decreases len - i,
    {
        dst[i] = src[i];
        i = i + 1;
        assert(dst@ =~= src@.take(i as int) + old(dst)@.skip(i as int));
    }
}

/// The number of pages that `size` bytes need.
pub fn pages_for(size: usize) -> (r: usize)
    requires
        size + 4095 <= usize::MAX,
    ensures
        r == page_ceil(size as int) / 4096,
{
    page_align_up(size) / 4096
}

} // verus!
