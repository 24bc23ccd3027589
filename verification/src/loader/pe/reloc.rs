//! PE base relocation of mapped images.
use crate::loader::bytes::{
    le_u16, le_u32, le_u64, lemma_fields_are_local, lemma_write_read_u16, lemma_write_read_u32,
    lemma_write_read_u64, overwrite, read_u16, read_u32, read_u64, u16_bytes, u32_bytes, u64_bytes,
    write_u16, write_u32, write_u64,
};
use crate::loader::pe::types::{
    IMAGE_REL_BASED_DIR64, IMAGE_REL_BASED_HIGH, IMAGE_REL_BASED_HIGHLOW, IMAGE_REL_BASED_LOW,
};
use vstd::prelude::*;

verus! {

/// The image after one fixup of type `typ` at `target`. A target outside the
/// image, padding and unknown types change nothing.
pub open spec fn with_fixup(s: Seq<u8>, typ: int, target: int, delta: u64) -> Seq<u8> {
    if typ == 10 && target + 8 <= s.len() {
        overwrite(s, target, u64_bytes(le_u64(s, target).wrapping_add(delta)))
    } else if typ == 3 && target + 4 <= s.len() {
        overwrite(
            s,
            target,
            u32_bytes(le_u32(s, target).wrapping_add((delta % 0x1_0000_0000) as u32)),
        )
    } else if typ == 1 && target + 2 <= s.len() {
        overwrite(
            s,
            target,
            u16_bytes(le_u16(s, target).wrapping_add((delta / 0x1_0000 % 0x1_0000) as u16)),
        )
    } else if typ == 2 && target + 2 <= s.len() {
        overwrite(
            s,
            target,
            u16_bytes(le_u16(s, target).wrapping_add((delta % 0x1_0000) as u16)),
        )
    } else {
        s
    }
}

/// The image after the `n` fixup entries from `pos` on, for the block at
/// `block_rva`.
pub open spec fn with_entries(
    s: Seq<u8>,
    delta: u64,
    block_rva: int,
    n: int,
    pos: int,
) -> Seq<u8>
    decreases n,
{
    if n <= 0 {
        s
    } else {
        let entry = le_u16(s, pos) as int;
        with_entries(
            with_fixup(s, entry / 4096, block_rva + entry % 4096, delta),
            delta,
            block_rva,
            n - 1,
            pos + 2,
        )
    }
}

/// The image after the relocation blocks from `off` up to `size`, counted from
/// `rva` on. The table ends at an empty block, or at one that is shorter than
/// its header or not all in the image.
pub open spec fn with_blocks(s: Seq<u8>, delta: u64, rva: int, size: int, off: int) -> Seq<u8>
    decreases size + 0x1_0000_0000 - off,
{
    let at = rva + off;
    let block = le_u32(s, at + 4) as int;
    if off >= size || at + 8 > s.len() || block < 8 || at + block > s.len() {
        s
    } else {
        with_blocks(
            with_entries(s, delta, le_u32(s, at) as int, (block - 8) / 2, at + 8),
            delta,
            rva,
            size,
            off + block,
        )
    }
}

fn apply_fixup(image: &mut [u8], typ: u16, target: u64, delta: u64)
    requires
        target <= 0x1_ffff_ffff,
    ensures
        final(image)@ == with_fixup(old(image)@, typ as int, target as int, delta),
{
    let len: u64 = image.len() as u64;
    if typ == IMAGE_REL_BASED_DIR64 {
        if target + 8 <= len {
            let v: u64 = read_u64(image, target as usize).wrapping_add(delta);
            write_u64(image, target as usize, v);
        }
    } else if typ == IMAGE_REL_BASED_HIGHLOW {
        if target + 4 <= len {
            let v: u32 = read_u32(image, target as usize).wrapping_add(
                (delta % 0x1_0000_0000) as u32,
            );
            write_u32(image, target as usize, v);
        }
    } else if typ == IMAGE_REL_BASED_HIGH {
        if target + 2 <= len {
            let v: u16 = read_u16(image, target as usize).wrapping_add(
                (delta / 0x1_0000 % 0x1_0000) as u16,
            );
            write_u16(image, target as usize, v);
        }
    } else if typ == IMAGE_REL_BASED_LOW {
        if target + 2 <= len {
            let v: u16 = read_u16(image, target as usize).wrapping_add((delta % 0x1_0000) as u16);
            write_u16(image, target as usize, v);
        }
    }
}

/// Applying a fixup keeps the size of the image.
proof fn lemma_fixups_keep_len(s: Seq<u8>, delta: u64, block_rva: int, n: int, pos: int)
    ensures
        with_entries(s, delta, block_rva, n, pos).len() == s.len(),
    decreases n,
{
    if n > 0 {
        let entry = le_u16(s, pos) as int;
        lemma_fixups_keep_len(
            with_fixup(s, entry / 4096, block_rva + entry % 4096, delta),
            delta,
            block_rva,
            n - 1,
            pos + 2,
        );
    }
}

fn apply_entries(image: &mut [u8], delta: u64, block_rva: u32, count: u64, start: usize)
    requires
        start + count * 2 <= old(image)@.len(),
    ensures
        final(image)@ == with_entries(
            old(image)@,
            delta,
            block_rva as int,
            count as int,
            start as int,
        ),
{
    let mut left: u64 = count;
    let mut pos: usize = start;
    let len: usize = image.len();
    while left > 0
        invariant
            len == image@.len(),
            pos + left * 2 <= len,
            with_entries(old(image)@, delta, block_rva as int, count as int, start as int)
                == with_entries(image@, delta, block_rva as int, left as int, pos as int),
        decreases left,
    {
        let entry: u16 = read_u16(image, pos);
        let typ: u16 = entry / 4096;
        let target: u64 = block_rva as u64 + (entry % 4096) as u64;
        apply_fixup(image, typ, target, delta);
        pos = pos + 2;
        left = left - 1;
    }
}

/// The image after all base relocations.
pub open spec fn relocated(
    s: Seq<u8>,
    image_base: u64,
    preferred_base: u64,
    reloc_rva: u32,
    reloc_size: u32,
) -> Seq<u8> {
    if image_base == preferred_base {
        s
    } else {
        with_blocks(
            s,
            image_base.wrapping_sub(preferred_base),
            reloc_rva as int,
            reloc_size as int,
            0,
        )
    }
}

/// Applies all base relocations to a mapped PE image.
///
/// `image_base` is the actual load address, `preferred_base` the address that
/// the image was linked for; their difference is added at every fixup. The
/// relocation table is in the image, `reloc_size` bytes from `reloc_rva` on.
pub fn apply_base_relocations(
    image: &mut [u8],
    image_base: u64,
    preferred_base: u64,
    reloc_rva: u32,
    reloc_size: u32,
)
    ensures
        final(image)@ == relocated(
            old(image)@,
            image_base,
            preferred_base,
            reloc_rva,
            reloc_size,
        ),
{
    let delta: u64 = image_base.wrapping_sub(preferred_base);
    if delta == 0 {
        return;
    }
    let len: usize = image.len();
    let mut off: u64 = 0;
    while off < reloc_size as u64
        invariant
            len == image@.len(),
            image_base != preferred_base,
            delta == image_base.wrapping_sub(preferred_base),
            off <= 0x1_ffff_ffff,
            with_blocks(old(image)@, delta, reloc_rva as int, reloc_size as int, 0)
                == with_blocks(image@, delta, reloc_rva as int, reloc_size as int, off as int),
        decreases 0x2_0000_0000 - off,
    {
        let at: u64 = reloc_rva as u64 + off;
        if at + 8 > len as u64 {
            return;
        }
        let rva: u32 = read_u32(image, at as usize);
        let block: u32 = read_u32(image, at as usize + 4);
        if block < 8 || at + block as u64 > len as u64 {
            return;
        }
        proof {
            lemma_fixups_keep_len(image@, delta, rva as int, (block - 8) / 2, at + 8);
        }
        apply_entries(image, delta, rva, (block as u64 - 8) / 2, at as usize + 8);
        off = off + block as u64;
    }
}

// ---------------------------------------------------------------------------
// What relocating an image does
// ---------------------------------------------------------------------------

/// Whether `bounds` are the offsets at which the blocks of the relocation table at
/// `rva` start, and the end of the last one: each block starts with an address and
/// its own size, header included, and the next one follows it.
pub open spec fn is_block_list(s: Seq<u8>, rva: int, bounds: Seq<int>) -> bool {
    &&& bounds.len() >= 1
    &&& bounds[0] == 0
    &&& 0 <= rva
    &&& rva + bounds.last() <= s.len()
    &&& forall|k: int, l: int|
        0 <= k && l == k + 1 && l < bounds.len() ==> {
            let start = #[trigger] bounds[k];
            &&& #[trigger] bounds[l] == start + le_u32(s, rva + start + 4)
            &&& le_u32(s, rva + start + 4) >= 8
        }
}

/// Whether there is a fixup entry at `p`: the entries of block `k` are the 16-bit
/// fields from its header to its end.
pub open spec fn is_fixup(rva: int, bounds: Seq<int>, k: int, p: int) -> bool {
    &&& 0 <= k < bounds.len() - 1
    &&& rva + bounds[k] + 8 <= p
    &&& p + 2 <= rva + bounds[k + 1]
    &&& (p - (rva + bounds[k])) % 2 == 0
}

/// The type of the entry at `p`, its highest four bits.
pub open spec fn fixup_type(s: Seq<u8>, p: int) -> int {
    le_u16(s, p) as int / 4096
}

/// What the entry at `p` refers to: the other bits count from the address of the
/// block.
pub open spec fn fixup_target(s: Seq<u8>, rva: int, bounds: Seq<int>, k: int, p: int) -> int {
    le_u32(s, rva + bounds[k]) + le_u16(s, p) as int % 4096
}

/// Number of bytes that a fixup of a type changes.
pub open spec fn fixup_width(typ: int) -> int {
    if typ == 10 {
        8
    } else if typ == 3 {
        4
    } else if typ == 1 || typ == 2 {
        2
    } else {
        0
    }
}

/// Whether the field at `t` was moved by `delta`: a whole address, its lower half,
/// or one of the two lowest 16-bit parts of it.
pub open spec fn is_moved(s: Seq<u8>, r: Seq<u8>, delta: int, typ: int, t: int) -> bool {
    &&& typ == 10 ==> (le_u64(r, t) - le_u64(s, t) - delta) % 0x1_0000_0000_0000_0000 == 0
    &&& typ == 3 ==> (le_u32(r, t) - le_u32(s, t) - delta) % 0x1_0000_0000 == 0
    &&& typ == 2 ==> (le_u16(r, t) - le_u16(s, t) - delta) % 0x1_0000 == 0
    &&& typ == 1 ==> (le_u16(r, t) - le_u16(s, t) - delta / 0x1_0000) % 0x1_0000 == 0
}

/// Whether the fixups are in the image, none of them touches the table, and no two
/// of them touch each other.
pub open spec fn fixups_apart(s: Seq<u8>, rva: int, bounds: Seq<int>) -> bool {
    &&& forall|k: int, p: int| #[trigger]
        is_fixup(rva, bounds, k, p) ==> {
            let t = fixup_target(s, rva, bounds, k, p);
            let w = fixup_width(fixup_type(s, p));
            w > 0 ==> t + w <= s.len() && (t + w <= rva || rva + bounds.last() <= t)
        }
    &&& forall|k: int, p: int, l: int, q: int|
        #![trigger is_fixup(rva, bounds, k, p), is_fixup(rva, bounds, l, q)]
        is_fixup(rva, bounds, k, p) && is_fixup(rva, bounds, l, q) && p != q ==> {
            let t = fixup_target(s, rva, bounds, k, p);
            let u = fixup_target(s, rva, bounds, l, q);
            let w = fixup_width(fixup_type(s, p));
            let x = fixup_width(fixup_type(s, q));
            w > 0 && x > 0 ==> t + w <= u || u + x <= t
        }
}

/// Whether byte `i` belongs to a fixup of block `from` or a later one, and in that
/// block at `pos` or behind it.
spec fn is_touched(s: Seq<u8>, rva: int, bounds: Seq<int>, from: int, pos: int, i: int) -> bool {
    exists|k: int, p: int| #[trigger]
        is_fixup(rva, bounds, k, p) && from <= k && (k == from ==> pos <= p) && fixup_target(
            s,
            rva,
            bounds,
            k,
            p,
        ) <= i < fixup_target(s, rva, bounds, k, p) + fixup_width(fixup_type(s, p))
}

/// Two images agree on the relocation table.
spec fn same_table(s: Seq<u8>, t: Seq<u8>, rva: int, end: int) -> bool {
    s.len() == t.len() && forall|i: int| rva <= i < rva + end ==> #[trigger] s[i] == t[i]
}

proof fn lemma_with_fixup(s: Seq<u8>, typ: int, t: int, delta: u64)
    requires
        0 <= t,
        fixup_width(typ) > 0 ==> t + fixup_width(typ) <= s.len(),
    ensures
        ({
            let r = with_fixup(s, typ, t, delta);
            &&& r.len() == s.len()
            &&& is_moved(s, r, delta as int, typ, t)
            &&& forall|i: int|
                0 <= i < s.len() && !(t <= i < t + fixup_width(typ)) ==> #[trigger] r[i] == s[i]
        }),
{
    if typ == 10 {
        lemma_write_read_u64(s, t, le_u64(s, t).wrapping_add(delta), t);
    } else if typ == 3 {
        lemma_write_read_u32(s, t, le_u32(s, t).wrapping_add((delta % 0x1_0000_0000) as u32));
    } else if typ == 1 {
        lemma_write_read_u16(
            s,
            t,
            le_u16(s, t).wrapping_add((delta / 0x1_0000 % 0x1_0000) as u16),
        );
    } else if typ == 2 {
        lemma_write_read_u16(s, t, le_u16(s, t).wrapping_add((delta % 0x1_0000) as u16));
    }
}

proof fn lemma_moved_transfers(
    s: Seq<u8>,
    s2: Seq<u8>,
    r: Seq<u8>,
    r2: Seq<u8>,
    delta: int,
    typ: int,
    t: int,
)
    requires
        is_moved(s, r, delta, typ, t),
        forall|i: int| t <= i < t + fixup_width(typ) ==> #[trigger] s[i] == s2[i],
        forall|i: int| t <= i < t + fixup_width(typ) ==> #[trigger] r[i] == r2[i],
    ensures
        is_moved(s2, r2, delta, typ, t),
{
    lemma_fields_are_local(s, s2, t);
    lemma_fields_are_local(r, r2, t);
    if fixup_width(typ) == 2 {
        assert(s[t] == s2[t] && s[t + 1] == s2[t + 1]);
        assert(r[t] == r2[t] && r[t + 1] == r2[t + 1]);
    }
}

proof fn lemma_bounds_ascend(s: Seq<u8>, rva: int, bounds: Seq<int>, k: int)
    requires
        is_block_list(s, rva, bounds),
        0 <= k < bounds.len(),
    ensures
        0 <= bounds[k] <= bounds.last(),
        k < bounds.len() - 1 ==> bounds[k] + 8 <= bounds[k + 1] <= bounds.last(),
    decreases bounds.len() - k,
{
    lemma_bounds_from_start(s, rva, bounds, k);
    if k < bounds.len() - 1 {
        assert(bounds[k + 1] == bounds[k] + le_u32(s, rva + bounds[k] + 4));
        lemma_bounds_ascend(s, rva, bounds, k + 1);
    }
}

proof fn lemma_bounds_from_start(s: Seq<u8>, rva: int, bounds: Seq<int>, k: int)
    requires
        is_block_list(s, rva, bounds),
        0 <= k < bounds.len(),
    ensures
        0 <= bounds[k],
    decreases k,
{
    if k > 0 {
        lemma_bounds_from_start(s, rva, bounds, k - 1);
        assert(bounds[k] == bounds[k - 1] + le_u32(s, rva + bounds[k - 1] + 4));
    }
}

/// The entries of block `k` from `pos` on, applied to an image that still has the
/// table of `s0`.
proof fn lemma_entries(
    s0: Seq<u8>,
    s: Seq<u8>,
    delta: u64,
    rva: int,
    bounds: Seq<int>,
    k: int,
    n: int,
    pos: int,
)
    requires
        is_block_list(s0, rva, bounds),
        fixups_apart(s0, rva, bounds),
        same_table(s0, s, rva, bounds.last()),
        0 <= k < bounds.len() - 1,
        0 <= n,
        pos >= rva + bounds[k] + 8,
        (pos - (rva + bounds[k])) % 2 == 0,
        pos + 2 * n <= rva + bounds[k + 1] < pos + 2 * n + 2,
    ensures
        ({
            let r = with_entries(s, delta, le_u32(s0, rva + bounds[k]) as int, n, pos);
            &&& same_table(s0, r, rva, bounds.last())
            &&& forall|p: int| #[trigger]
                is_fixup(rva, bounds, k, p) && pos <= p ==> is_moved(
                    s,
                    r,
                    delta as int,
                    fixup_type(s0, p),
                    fixup_target(s0, rva, bounds, k, p),
                )
            &&& forall|i: int|
                0 <= i < s.len() && !(exists|p: int| #[trigger]
                    is_fixup(rva, bounds, k, p) && pos <= p && fixup_target(
                        s0,
                        rva,
                        bounds,
                        k,
                        p,
                    ) <= i < fixup_target(s0, rva, bounds, k, p) + fixup_width(fixup_type(s0, p)))
                    ==> #[trigger] r[i] == s[i]
        }),
    decreases n,
{
    lemma_bounds_ascend(s0, rva, bounds, k);
    let brva = le_u32(s0, rva + bounds[k]) as int;
    let r = with_entries(s, delta, brva, n, pos);
    if n == 0 {
        assert forall|p: int| #[trigger] is_fixup(rva, bounds, k, p) implies p < pos by {}
    } else {
        assert(is_fixup(rva, bounds, k, pos));
        lemma_fields_are_local(s0, s, pos);
        assert(s0[pos] == s[pos] && s0[pos + 1] == s[pos + 1]);
        let typ = fixup_type(s0, pos);
        let t = fixup_target(s0, rva, bounds, k, pos);
        let s1 = with_fixup(s, typ, t, delta);
        assert(le_u16(s, pos) == le_u16(s0, pos));
        lemma_with_fixup(s, typ, t, delta);
        assert(r == with_entries(s1, delta, brva, n - 1, pos + 2));
        assert(same_table(s0, s1, rva, bounds.last()));
        lemma_entries(s0, s1, delta, rva, bounds, k, n - 1, pos + 2);
        assert forall|p: int| #[trigger] is_fixup(rva, bounds, k, p) && pos <= p implies is_moved(
            s,
            r,
            delta as int,
            fixup_type(s0, p),
            fixup_target(s0, rva, bounds, k, p),
        ) by {
            let tp = fixup_target(s0, rva, bounds, k, p);
            let wp = fixup_width(fixup_type(s0, p));
            if p == pos {
                assert forall|i: int| t <= i < t + wp implies #[trigger] s1[i] == r[i] by {
                    assert(!(exists|q: int| #[trigger]
                        is_fixup(rva, bounds, k, q) && pos + 2 <= q && fixup_target(
                            s0,
                            rva,
                            bounds,
                            k,
                            q,
                        ) <= i < fixup_target(s0, rva, bounds, k, q) + fixup_width(
                            fixup_type(s0, q),
                        )));
                }
                lemma_moved_transfers(s, s, s1, r, delta as int, typ, t);
            } else {
                assert(pos + 2 <= p);
                assert forall|i: int| tp <= i < tp + wp implies #[trigger] s1[i] == s[i] by {
                    assert(is_fixup(rva, bounds, k, pos));
                }
                lemma_moved_transfers(s1, s, r, r, delta as int, fixup_type(s0, p), tp);
            }
        }
        assert forall|i: int|
            0 <= i < s.len() && !(exists|p: int| #[trigger]
                is_fixup(rva, bounds, k, p) && pos <= p && fixup_target(s0, rva, bounds, k, p) <= i
                    < fixup_target(s0, rva, bounds, k, p) + fixup_width(
                    fixup_type(s0, p),
                )) implies #[trigger] r[i] == s[i] by {
            assert(!(t <= i < t + fixup_width(typ))) by {
                assert(is_fixup(rva, bounds, k, pos));
            }
            assert(s1[i] == s[i]);
            assert(!(exists|p: int| #[trigger]
                is_fixup(rva, bounds, k, p) && pos + 2 <= p && fixup_target(
                    s0,
                    rva,
                    bounds,
                    k,
                    p,
                ) <= i < fixup_target(s0, rva, bounds, k, p) + fixup_width(fixup_type(s0, p))));
        }
    }
}

proof fn lemma_blocks(
    s0: Seq<u8>,
    s: Seq<u8>,
    delta: u64,
    rva: int,
    bounds: Seq<int>,
    k: int,
)
    requires
        is_block_list(s0, rva, bounds),
        fixups_apart(s0, rva, bounds),
        same_table(s0, s, rva, bounds.last()),
        0 <= k < bounds.len(),
    ensures
        ({
            let r = with_blocks(s, delta, rva, bounds.last(), bounds[k]);
            &&& r.len() == s.len()
            &&& forall|l: int, p: int| #[trigger]
                is_fixup(rva, bounds, l, p) && k <= l ==> is_moved(
                    s,
                    r,
                    delta as int,
                    fixup_type(s0, p),
                    fixup_target(s0, rva, bounds, l, p),
                )
            &&& forall|i: int|
                0 <= i < s.len() && !is_touched(s0, rva, bounds, k, 0, i) ==> #[trigger] r[i]
                    == s[i]
        }),
    decreases bounds.len() - k,
{
    lemma_bounds_ascend(s0, rva, bounds, k);
    let r = with_blocks(s, delta, rva, bounds.last(), bounds[k]);
    if k < bounds.len() - 1 {
        let at = rva + bounds[k];
        lemma_bounds_ascend(s0, rva, bounds, k + 1);
        lemma_fields_are_local(s0, s, at);
        lemma_fields_are_local(s0, s, at + 4);
        let block = le_u32(s0, at + 4) as int;
        assert(bounds[k + 1] == bounds[k] + block);
        assert(le_u32(s, at) == le_u32(s0, at) && le_u32(s, at + 4) == le_u32(s0, at + 4));
        let n = (block - 8) / 2;
        let s1 = with_entries(s, delta, le_u32(s0, at) as int, n, at + 8);
        lemma_entries(s0, s, delta, rva, bounds, k, n, at + 8);
        lemma_blocks(s0, s1, delta, rva, bounds, k + 1);
        assert(r == with_blocks(s1, delta, rva, bounds.last(), bounds[k + 1]));
        assert forall|l: int, p: int| #[trigger]
            is_fixup(rva, bounds, l, p) && k <= l implies is_moved(
            s,
            r,
            delta as int,
            fixup_type(s0, p),
            fixup_target(s0, rva, bounds, l, p),
        ) by {
            let t = fixup_target(s0, rva, bounds, l, p);
            let w = fixup_width(fixup_type(s0, p));
            if l == k {
                assert forall|i: int| t <= i < t + w implies #[trigger] s1[i] == r[i] by {
                    assert(!is_touched(s0, rva, bounds, k + 1, 0, i)) by {
                        if is_touched(s0, rva, bounds, k + 1, 0, i) {
                            let (m, q) = choose|m: int, q: int| #[trigger]
                                is_fixup(rva, bounds, m, q) && k + 1 <= m && (m == k + 1 ==> 0
                                    <= q) && fixup_target(s0, rva, bounds, m, q) <= i
                                    < fixup_target(s0, rva, bounds, m, q) + fixup_width(
                                    fixup_type(s0, q),
                                );
                            lemma_later_block(s0, rva, bounds, k + 1, m);
                        }
                    }
                }
                lemma_moved_transfers(s, s, s1, r, delta as int, fixup_type(s0, p), t);
            } else {
                assert forall|i: int| t <= i < t + w implies #[trigger] s1[i] == s[i] by {
                    if exists|q: int| #[trigger]
                        is_fixup(rva, bounds, k, q) && at + 8 <= q && fixup_target(
                            s0,
                            rva,
                            bounds,
                            k,
                            q,
                        ) <= i < fixup_target(s0, rva, bounds, k, q) + fixup_width(
                            fixup_type(s0, q),
                        ) {
                        lemma_later_block(s0, rva, bounds, k + 1, l);
                    }
                }
                lemma_moved_transfers(s1, s, r, r, delta as int, fixup_type(s0, p), t);
            }
        }
        assert forall|i: int|
            0 <= i < s.len() && !is_touched(s0, rva, bounds, k, 0, i) implies #[trigger] r[i]
            == s[i] by {
            assert(s1[i] == s[i]);
            assert(!is_touched(s0, rva, bounds, k + 1, 0, i));
        }
    }
}

proof fn lemma_later_block(s: Seq<u8>, rva: int, bounds: Seq<int>, k: int, l: int)
    requires
        is_block_list(s, rva, bounds),
        0 <= k <= l < bounds.len(),
    ensures
        bounds[k] <= bounds[l],
    decreases l - k,
{
    if k < l {
        lemma_bounds_ascend(s, rva, bounds, k);
        lemma_later_block(s, rva, bounds, k + 1, l);
    }
}

/// Relocating an image moves the field of every fixup by the difference of the
/// bases, and changes nothing else: the entries are all 16-bit fields from the
/// header of each block to its end.
pub proof fn lemma_every_fixup_is_applied(
    s: Seq<u8>,
    image_base: u64,
    preferred_base: u64,
    reloc_rva: u32,
    reloc_size: u32,
    bounds: Seq<int>,
)
    requires
        is_block_list(s, reloc_rva as int, bounds),
        bounds.last() == reloc_size,
        fixups_apart(s, reloc_rva as int, bounds),
    ensures
        ({
            let r = relocated(s, image_base, preferred_base, reloc_rva, reloc_size);
            let rva = reloc_rva as int;
            let delta = (image_base - preferred_base) % 0x1_0000_0000_0000_0000;
            &&& r.len() == s.len()
            &&& forall|k: int, p: int| #[trigger]
                is_fixup(rva, bounds, k, p) ==> is_moved(
                    s,
                    r,
                    delta,
                    fixup_type(s, p),
                    fixup_target(s, rva, bounds, k, p),
                )
            &&& forall|i: int|
                0 <= i < s.len() && !(exists|k: int, p: int| #[trigger]
                    is_fixup(rva, bounds, k, p) && fixup_target(s, rva, bounds, k, p) <= i
                        < fixup_target(s, rva, bounds, k, p) + fixup_width(fixup_type(s, p)))
                    ==> #[trigger] r[i] == s[i]
        }),
{
    let rva = reloc_rva as int;
    if image_base != preferred_base {
        let delta = image_base.wrapping_sub(preferred_base);
        lemma_blocks(s, s, delta, rva, bounds, 0);
        let r = relocated(s, image_base, preferred_base, reloc_rva, reloc_size);
        assert forall|i: int|
            0 <= i < s.len() && !(exists|k: int, p: int| #[trigger]
                is_fixup(rva, bounds, k, p) && fixup_target(s, rva, bounds, k, p) <= i
                    < fixup_target(s, rva, bounds, k, p) + fixup_width(
                    fixup_type(s, p),
                )) implies #[trigger] r[i] == s[i] by {
            assert(!is_touched(s, rva, bounds, 0, 0, i));
        }
    }
}

} // verus!
