//! ELF inspection before loading: the interpreter, the needed libraries, and the
//! program header location for the auxiliary vector.
use crate::loader::boot::elf_loader::{
    dynamic_extent, highest_end, lowest_vaddr, memory_representable, segment_end, segment_vaddr,
};
use crate::loader::boot::phdr_table::{
    file_phdrs, has_elf_header, phdr_table, read_phdr_table, read_table, starts_like_elf,
};
use crate::loader::bytes::{
    c_str, field, le_u16, le_u64, lemma_c_len_bounds, lemma_field_16, lemma_field_64, read_c_str,
    read_u16, read_u64,
};
use crate::loader::elf::header::is_load;
use crate::loader::elf::types::{
    page_floor, Elf64Phdr, ET_DYN, PT_DYNAMIC, PT_INTERP, PT_LOAD, PT_PHDR,
};
use vstd::prelude::*;
use vstd::slice::slice_subrange;

verus! {

// ---------------------------------------------------------------------------
// Library paths
// ---------------------------------------------------------------------------

/// Directory of the shared libraries in the boot archive, `lib/`.
pub open spec fn lib_prefix() -> Seq<u8> {
    seq![0x6cu8, 0x69, 0x62, 0x2f]
}

/// Name of the default runtime linker, `ld-trona.so`.
pub open spec fn default_rtld() -> Seq<u8> {
    seq![0x6cu8, 0x64, 0x2d, 0x74, 0x72, 0x6f, 0x6e, 0x61, 0x2e, 0x73, 0x6f]
}

/// `dst` with `path` at its start, if it fits; the flag tells whether it does.
pub open spec fn placed(before: Seq<u8>, path: Seq<u8>, after: Seq<u8>, r: usize) -> bool {
    if path.len() > before.len() {
        r == 0 && after == before
    } else {
        r == path.len() && after == path + before.skip(path.len() as int)
    }
}

fn copy_into(dst: &mut [u8], at: usize, src: &[u8])
    requires
        at + src@.len() <= old(dst)@.len(),
    ensures
        final(dst)@ == old(dst)@.take(at as int) + src@ + old(dst)@.skip(at + src@.len()),
{
    let mut i: usize = 0;
    let len: usize = dst.len();
    let n: usize = src.len();
    while i < n
        invariant
            i <= n,
            n == src@.len(),
            at + n <= len,
            len == dst@.len(),
            dst@.len() == old(dst)@.len(),
            forall|j: int| 0 <= j < i ==> #[trigger] dst@[at + j] == src@[j],
            forall|j: int|
                0 <= j < len && !(at <= j < at + i) ==> #[trigger] dst@[j] == old(dst)@[j],
        decreases n - i,
    {
        dst[at + i] = src[i];
        i = i + 1;
    }
    proof {
        let want = old(dst)@.take(at as int) + src@ + old(dst)@.skip(at + src@.len());
        assert forall|j: int| 0 <= j < len implies #[trigger] dst@[j] == want[j] by {
            if at <= j < at + n {
                assert(dst@[at + (j - at)] == src@[j - at]);
            }
        }
        assert(dst@ =~= want);
    }
}

/// Builds the archive path of a library from its name.
///
/// Writes `lib/` and `soname` to the start of `dst` and returns the number of
/// bytes, or 0 if `dst` is too small.
pub fn build_initrd_lib_path(soname: &[u8], dst: &mut [u8]) -> (r: usize)
    ensures
        placed(old(dst)@, lib_prefix() + soname@, final(dst)@, r),
{
    let n: usize = soname.len();
    let cap: usize = dst.len();
    if cap < 4 || n > cap - 4 {
        return 0;
    }
    let prefix: [u8; 4] = [0x6c, 0x69, 0x62, 0x2f];
    assert(prefix@ =~= lib_prefix());
    copy_into(dst, 0, prefix.as_slice());
    copy_into(dst, 4, soname);
    assert(dst@ =~= (lib_prefix() + soname@) + old(dst)@.skip(4 + n));
    4 + n
}

/// The archive path that an interpreter string stands for.
pub open spec fn interp_path(interp: Seq<u8>) -> Seq<u8> {
    if interp.len() == 0 {
        lib_prefix() + default_rtld()
    } else if interp[0] == 0x2f {
        interp.skip(1)
    } else if interp.contains(0x2f) {
        interp
    } else {
        lib_prefix() + interp
    }
}

/// Converts an interpreter string to an archive path.
///
/// - `/lib/ld-trona.so` becomes `lib/ld-trona.so` (the leading `/` goes)
/// - `lib/ld-trona.so` stays
/// - `ld-trona.so` becomes `lib/ld-trona.so`
/// - nothing becomes `lib/ld-trona.so`
///
/// Returns the number of bytes written to `dst`, or 0 if `dst` is too small.
pub fn resolve_interp_to_cpio_path(interp: &[u8], dst: &mut [u8]) -> (r: usize)
    ensures
        placed(old(dst)@, interp_path(interp@), final(dst)@, r),
{
    let n: usize = interp.len();
    if n == 0 {
        let rtld: [u8; 11] = [
            0x6c,
            0x64,
            0x2d,
            0x74,
            0x72,
            0x6f,
            0x6e,
            0x61,
            0x2e,
            0x73,
            0x6f,
        ];
        assert(rtld@ =~= default_rtld());
        return build_initrd_lib_path(rtld.as_slice(), dst);
    }
    if interp[0] == 0x2f {
        let stripped: &[u8] = slice_subrange(interp, 1, n);
        assert(stripped@ =~= interp@.skip(1));
        if n - 1 > dst.len() {
            return 0;
        }
        copy_into(dst, 0, stripped);
        assert(dst@ =~= stripped@ + old(dst)@.skip(n - 1));
        return n - 1;
    }
    let mut has_slash: bool = false;
    let mut i: usize = 0;
    while i < n && !has_slash
        invariant
            i <= n,
            n == interp@.len(),
            has_slash ==> interp@.contains(0x2f),
            !has_slash ==> forall|j: int| 0 <= j < i ==> interp@[j] != 0x2f,
        decreases n - i + if has_slash {
            0int
        } else {
            1
        },
    {
        if interp[i] == 0x2f {
            assert(interp@[i as int] == 0x2f);
            has_slash = true;
        } else {
            i = i + 1;
        }
    }
    if has_slash {
        if n > dst.len() {
            return 0;
        }
        copy_into(dst, 0, interp);
        assert(dst@ =~= interp@ + old(dst)@.skip(n as int));
        n
    } else {
        build_initrd_lib_path(interp, dst)
    }
}

// ---------------------------------------------------------------------------
// Interpreter
// ---------------------------------------------------------------------------

/// Index of the first header of type `t` from `i` on; the number of headers if
/// there is none.
pub open spec fn first_of_type(phdrs: Seq<Elf64Phdr>, t: u32, i: int) -> int
    decreases phdrs.len() - i,
{
    if i >= phdrs.len() || phdrs[i].p_type == t {
        i
    } else {
        first_of_type(phdrs, t, i + 1)
    }
}

fn find_type(phdrs: &Vec<Elf64Phdr>, t: u32) -> (r: usize)
    ensures
        r == first_of_type(phdrs@, t, 0),
        r <= phdrs@.len(),
        r < phdrs@.len() ==> phdrs@[r as int].p_type == t,
{
    let mut i: usize = 0;
    while i < phdrs.len()
        invariant
            i <= phdrs@.len(),
            first_of_type(phdrs@, t, 0) == first_of_type(phdrs@, t, i as int),
        decreases phdrs@.len() - i,
    {
        if phdrs[i].p_type == t {
            return i;
        }
        i = i + 1;
    }
    i
}

/// Whether an ELF file asks for a runtime linker.
pub fn elf_has_interp(data: &[u8]) -> (r: bool)
    ensures
        r == (data@.len() >= 64 && first_of_type(file_phdrs(data@), 3, 0) < file_phdrs(
            data@,
        ).len()),
{
    if data.len() < 64 {
        return false;
    }
    let phdrs: Vec<Elf64Phdr> = read_phdr_table(data);
    find_type(&phdrs, PT_INTERP) < phdrs.len()
}

/// The interpreter segment's bytes in the file `s`.
pub open spec fn interp_bytes(s: Seq<u8>) -> Option<Seq<u8>> {
    let phdrs = file_phdrs(s);
    let k = first_of_type(phdrs, 3, 0);
    if s.len() < 64 || k >= phdrs.len() || phdrs[k].p_offset + phdrs[k].p_filesz > s.len() {
        None
    } else {
        Some(s.subrange(phdrs[k].p_offset as int, phdrs[k].p_offset + phdrs[k].p_filesz))
    }
}

/// Returns the bytes of the first interpreter segment, if they are in the file.
pub fn elf_get_interp(data: &[u8]) -> (r: Option<&[u8]>)
    ensures
        match interp_bytes(data@) {
            Some(b) => r is Some && r->0@ == b,
            None => r is None,
        },
{
    if data.len() < 64 {
        return None;
    }
    let phdrs: Vec<Elf64Phdr> = read_phdr_table(data);
    let k: usize = find_type(&phdrs, PT_INTERP);
    if k >= phdrs.len() {
        return None;
    }
    let end: u128 = phdrs[k].p_offset as u128 + phdrs[k].p_filesz as u128;
    if end > data.len() as u128 {
        return None;
    }
    Some(slice_subrange(data, phdrs[k].p_offset as usize, end as usize))
}

// ---------------------------------------------------------------------------
// Needed libraries
// ---------------------------------------------------------------------------

/// Most needed libraries that are listed.
pub const MAX_NEEDED_LIBS: usize = 12;

/// Longest library name that is kept.
pub const MAX_NEEDED_NAME: usize = 24;

/// Names of the libraries that an ELF file needs.
#[derive(Clone, Copy)]
pub struct NeededLibs {
    pub count: usize,
    pub names: [[u8; MAX_NEEDED_NAME]; MAX_NEEDED_LIBS],
    pub name_lens: [usize; MAX_NEEDED_LIBS],
}

/// A name cut off at 24 bytes.
pub open spec fn cut_name(name: Seq<u8>) -> Seq<u8> {
    if name.len() > 24 {
        name.take(24)
    } else {
        name
    }
}

impl NeededLibs {
    /// The listed names.
    pub open spec fn listed(self) -> Seq<Seq<u8>> {
        Seq::new(self.count as nat, |i: int| self.names@[i]@.take(self.name_lens@[i] as int))
    }

    /// Every listed name is in the table.
    pub open spec fn wf(self) -> bool {
        &&& self.count <= 12
        &&& forall|i: int| 0 <= i < self.count ==> #[trigger] self.name_lens@[i] <= 24
    }

    /// What is in the table besides the listed names is zero.
    pub open spec fn rest_is_zero(self) -> bool {
        &&& forall|i: int, j: int|
            0 <= i < 12 && 0 <= j < 24 && (i >= self.count || j >= self.name_lens@[i])
                ==> #[trigger] self.names@[i]@[j] == 0
        &&& forall|i: int| self.count <= i < 12 ==> #[trigger] self.name_lens@[i] == 0
    }

    /// No names; every entry of the table is zero.
    pub fn new() -> (r: NeededLibs)
        ensures
            r.wf(),
            r.listed() == Seq::<Seq<u8>>::empty(),
            r.count == 0,
            forall|i: int, j: int| 0 <= i < 12 && 0 <= j < 24 ==> #[trigger] r.names@[i]@[j] == 0,
            forall|i: int| 0 <= i < 12 ==> #[trigger] r.name_lens@[i] == 0,
    {
        let r = NeededLibs { count: 0, names: [[0u8; 24]; 12], name_lens: [0; 12] };
        assert(r.listed() =~= Seq::<Seq<u8>>::empty());
        r
    }

    /// Adds a library name, cut off at 24 bytes. Returns false if full. The rest of
    /// the table stays as it is.
    pub fn add(&mut self, name: &[u8]) -> (r: bool)
        requires
            old(self).wf(),
        ensures
            final(self).wf(),
            r == (old(self).count < 12),
            r ==> {
                let at = old(self).count as int;
                let n = cut_name(name@).len() as int;
                &&& final(self).count == at + 1
                &&& final(self).names@[at]@ == cut_name(name@) + old(self).names@[at]@.skip(n)
                &&& final(self).names@ == old(self).names@.update(at, final(self).names@[at])
                &&& final(self).name_lens@ == old(self).name_lens@.update(at, n as usize)
                &&& final(self).listed() == old(self).listed().push(cut_name(name@))
            },
            !r ==> *final(self) == *old(self),
    {
        if self.count >= MAX_NEEDED_LIBS {
            return false;
        }
        let ghost before = self.listed();
        let copy_len: usize = if name.len() > MAX_NEEDED_NAME {
            MAX_NEEDED_NAME
        } else {
            name.len()
        };
        let idx: usize = self.count;
        let mut row: [u8; 24] = self.names[idx];
        let mut j: usize = 0;
        while j < copy_len
            invariant
                j <= copy_len <= 24,
                copy_len <= name@.len(),
                forall|k: int| 0 <= k < j ==> row@[k] == name@[k],
                forall|k: int| j <= k < 24 ==> row@[k] == self.names@[idx as int]@[k],
            decreases copy_len - j,
        {
            row[j] = name[j];
            j = j + 1;
        }
        self.names[idx] = row;
        self.name_lens[idx] = copy_len;
        self.count = idx + 1;
        proof {
            assert(row@.take(copy_len as int) =~= cut_name(name@));
            assert(row@ =~= cut_name(name@) + old(self).names@[idx as int]@.skip(copy_len as int));
            assert(self.names@ =~= old(self).names@.update(idx as int, self.names@[idx as int]));
            assert(self.name_lens@ =~= old(self).name_lens@.update(idx as int, copy_len));
            assert(self.listed() =~= before.push(cut_name(name@)));
        }
        true
    }

    /// Whether a library name is listed.
    pub fn contains(&self, name: &[u8]) -> (r: bool)
        requires
            self.wf(),
        ensures
            r == self.listed().contains(name@),
    {
        let mut i: usize = 0;
        while i < self.count
            invariant
                i <= self.count,
                self.wf(),
                forall|k: int| 0 <= k < i ==> #[trigger] self.listed()[k] != name@,
            decreases self.count - i,
        {
            let n: usize = self.name_lens[i];
            assert(self.name_lens@[i as int] <= 24);
            if n == name.len() {
                let mut eq: bool = true;
                let mut j: usize = 0;
                while j < n && eq
                    invariant
                        j <= n <= 24,
                        i < self.count <= 12,
                        n == name@.len(),
                        eq ==> forall|k: int| 0 <= k < j ==> self.names@[i as int]@[k] == name@[k],
                        !eq ==> j < n && self.names@[i as int]@[j as int] != name@[j as int],
                    decreases n - j + if eq {
                        1int
                    } else {
                        0
                    },
                {
                    let row: [u8; 24] = self.names[i];
                    if row[j] != name[j] {
                        eq = false;
                    } else {
                        j = j + 1;
                    }
                }
                if eq {
                    assert(self.listed()[i as int] =~= name@);
                    return true;
                }
                assert(self.listed()[i as int][j as int] != name@[j as int]);
            }
            i = i + 1;
        }
        false
    }
}

/// A name of up to 24 bytes is listed once it was added.
pub proof fn lemma_added_name_is_listed(before: NeededLibs, after: NeededLibs, name: Seq<u8>)
    requires
        name.len() <= 24,
        after.listed() == before.listed().push(cut_name(name)),
    ensures
        after.listed().contains(name),
        forall|other: Seq<u8>|
            before.listed().contains(other) ==> #[trigger] after.listed().contains(other),
{
    assert(after.listed()[before.listed().len() as int] == name);
    assert forall|other: Seq<u8>| before.listed().contains(other) implies
        #[trigger] after.listed().contains(other) by {
        let i = choose|i: int| 0 <= i < before.listed().len() && before.listed()[i] == other;
        assert(after.listed()[i] == other);
    }
}

/// Offset in the file of the byte that a segment puts at `va`, by the first
/// segment from `i` on whose byte is in the file.
pub open spec fn readable_offset_from(phdrs: Seq<Elf64Phdr>, file_len: int, va: u64, i: int) -> Option<
    int,
>
    decreases phdrs.len() - i,
{
    if i < 0 || i >= phdrs.len() {
        None
    } else {
        let ph = phdrs[i];
        let off = va - ph.p_vaddr + ph.p_offset;
        if is_load(ph) && ph.p_vaddr <= va < ph.p_vaddr + ph.p_filesz && off < file_len {
            Some(off)
        } else {
            readable_offset_from(phdrs, file_len, va, i + 1)
        }
    }
}

fn elf_va_to_file_offset(phdrs: &Vec<Elf64Phdr>, file_len: usize, va: u64) -> (r: Option<usize>)
    ensures
        match r {
            Some(off) => readable_offset_from(phdrs@, file_len as int, va, 0) == Some(off as int)
                && off < file_len,
            None => readable_offset_from(phdrs@, file_len as int, va, 0) is None,
        },
{
    let mut i: usize = 0;
    while i < phdrs.len()
        invariant
            i <= phdrs@.len(),
            readable_offset_from(phdrs@, file_len as int, va, 0) == readable_offset_from(
                phdrs@,
                file_len as int,
                va,
                i as int,
            ),
        decreases phdrs@.len() - i,
    {
        let ph: Elf64Phdr = phdrs[i];
        if ph.p_type == PT_LOAD && va >= ph.p_vaddr && va - ph.p_vaddr < ph.p_filesz {
            let off: u128 = (va - ph.p_vaddr) as u128 + ph.p_offset as u128;
            if off < file_len as u128 {
                return Some(off as usize);
            }
        }
        i = i + 1;
    }
    None
}

/// The value of the first dynamic entry with tag `tag`, among `n` entries from
/// `pos` on; 0 if the table ends before.
pub open spec fn dynamic_value(s: Seq<u8>, tag: u64, pos: int, n: int) -> u64
    decreases n,
{
    if n <= 0 || le_u64(s, pos) == 0 {
        0
    } else if le_u64(s, pos) == tag {
        le_u64(s, pos + 8)
    } else {
        dynamic_value(s, tag, pos + 16, n - 1)
    }
}

fn find_dynamic_value(data: &[u8], tag: u64, start: usize, count: usize) -> (r: u64)
    requires
        start + count * 16 <= data.len(),
    ensures
        r == dynamic_value(data@, tag, start as int, count as int),
{
    let mut pos: usize = start;
    let mut left: usize = count;
    while left > 0
        invariant
            pos + left * 16 <= data.len(),
            dynamic_value(data@, tag, start as int, count as int) == dynamic_value(
                data@,
                tag,
                pos as int,
                left as int,
            ),
        decreases left,
    {
        let t: u64 = read_u64(data, pos);
        if t == 0 {
            return 0;
        }
        if t == tag {
            return read_u64(data, pos + 8);
        }
        pos = pos + 16;
        left = left - 1;
    }
    0
}

/// The names of the needed libraries among `n` dynamic entries from `pos` on,
/// after `names`. Names are in the string table at `strtab`; empty ones and ones
/// outside the file are skipped, and at most 12 are listed.
pub open spec fn needed_names(s: Seq<u8>, strtab: int, pos: int, n: int, names: Seq<Seq<u8>>) -> Seq<
    Seq<u8>,
>
    decreases n,
{
    if n <= 0 || le_u64(s, pos) == 0 {
        names
    } else {
        let off = strtab + le_u64(s, pos + 8);
        let next = if le_u64(s, pos) == 1 && off < s.len() && s[off] != 0 && names.len() < 12 {
            names.push(cut_name(c_str(s, off)))
        } else {
            names
        };
        needed_names(s, strtab, pos + 16, n - 1, next)
    }
}

/// All library names that the ELF file `s` needs, as far as they are listed.
pub open spec fn all_needed_names(s: Seq<u8>) -> Seq<Seq<u8>> {
    let phdrs = file_phdrs(s);
    let (off, size) = dynamic_extent(phdrs, 0);
    let strtab = dynamic_value(s, 5, off, size / 16);
    let found = readable_offset_from(phdrs, s.len() as int, strtab, 0);
    if s.len() < 64 || off == 0 || off + size > s.len() || strtab == 0 || found is None {
        Seq::empty()
    } else {
        needed_names(s, found->0, off, size / 16, Seq::empty())
    }
}

/// Extracts the names of the needed libraries from an ELF file.
pub fn elf_get_needed(data: &[u8]) -> (r: NeededLibs)
    ensures
        r.wf(),
        r.listed() == all_needed_names(data@),
        r.rest_is_zero(),
{
    let mut result = NeededLibs::new();
    if data.len() < 64 {
        return result;
    }
    let phdrs: Vec<Elf64Phdr> = read_phdr_table(data);
    let len: u128 = data.len() as u128;
    let mut i: usize = 0;
    while i < phdrs.len() && !(phdrs[i].p_type == PT_DYNAMIC)
        invariant
            i <= phdrs@.len(),
            dynamic_extent(phdrs@, 0) == dynamic_extent(phdrs@, i as int),
        decreases phdrs@.len() - i,
    {
        i = i + 1;
    }
    if i >= phdrs.len() {
        return result;
    }
    let dyn_offset: u128 = phdrs[i].p_offset as u128;
    let dyn_size: u128 = phdrs[i].p_filesz as u128;
    if dyn_offset == 0 || dyn_offset + dyn_size > len {
        return result;
    }
    let start: usize = dyn_offset as usize;
    let count: usize = (dyn_size / 16) as usize;
    let strtab_va: u64 = find_dynamic_value(data, 5, start, count);
    if strtab_va == 0 {
        return result;
    }
    let strtab: usize = match elf_va_to_file_offset(&phdrs, data.len(), strtab_va) {
        Some(off) => off,
        None => {
            return result;
        },
    };
    let mut pos: usize = start;
    let mut left: usize = count;
    while left > 0
        invariant
            len == data.len(),
            pos + left * 16 <= data.len(),
            strtab < data.len(),
            result.wf(),
            result.rest_is_zero(),
            all_needed_names(data@) == needed_names(
                data@,
                strtab as int,
                pos as int,
                left as int,
                result.listed(),
            ),
        decreases left,
    {
        let tag: u64 = read_u64(data, pos);
        if tag == 0 {
            return result;
        }
        if tag == 1 {
            let name_off: u128 = strtab as u128 + read_u64(data, pos + 8) as u128;
            if name_off < len {
                let name: &[u8] = read_c_str(data, name_off as usize);
                proof {
                    lemma_c_len_bounds(data@, name_off as int);
                }
                if name.len() > 0 && result.count < MAX_NEEDED_LIBS {
                    let _ = result.add(name);
                }
            }
        }
        pos = pos + 16;
        left = left - 1;
    }
    result
}

// ---------------------------------------------------------------------------
// Program header location
// ---------------------------------------------------------------------------

/// The address of the program header table by the last header of that type
/// among the first `n`.
pub open spec fn phdr_segment_vaddr(phdrs: Seq<Elf64Phdr>, n: int) -> Option<u64>
    decreases n,
{
    if n <= 0 {
        None
    } else if phdrs[n - 1].p_type == 6 {
        Some(phdrs[n - 1].p_vaddr)
    } else {
        phdr_segment_vaddr(phdrs, n - 1)
    }
}

/// The address of the file range `lo..hi` by the last loadable segment among the
/// first `n` that holds it.
pub open spec fn load_mapped_vaddr(phdrs: Seq<Elf64Phdr>, lo: u64, hi: int, n: int) -> Option<u64>
    decreases n,
{
    if n <= 0 {
        None
    } else {
        let ph = phdrs[n - 1];
        if is_load(ph) && lo >= ph.p_offset && hi <= ph.p_offset + ph.p_filesz {
            Some(ph.p_vaddr.wrapping_add((lo - ph.p_offset) as u64))
        } else {
            load_mapped_vaddr(phdrs, lo, hi, n - 1)
        }
    }
}

/// Whether a loadable segment's file range ends past what 64 bits can tell.
pub open spec fn any_file_overflow(phdrs: Seq<Elf64Phdr>) -> bool {
    exists|i: int|
        0 <= i < phdrs.len() && is_load(#[trigger] phdrs[i]) && phdrs[i].p_offset
            + phdrs[i].p_filesz > u64::MAX
}

/// The link-time address of the program header table, and the lowest address of
/// the loadable segments. A `PT_PHDR` header is preferred; otherwise a loadable
/// segment has to hold the table.
pub open spec fn phdr_elf_vaddr(table: Seq<u8>, phnum: int, phentsz: int, e_phoff: u64) -> Option<
    (u64, u64),
> {
    let phdrs = phdr_table(table, 0, phentsz, phnum);
    let n = phdrs.len() as int;
    let lo = lowest_vaddr(phdrs, n);
    let hi = e_phoff + phnum * phentsz;
    let vaddr = match phdr_segment_vaddr(phdrs, n) {
        Some(v) => Some(v),
        None => load_mapped_vaddr(phdrs, e_phoff, hi, n),
    };
    if hi > u64::MAX || any_file_overflow(phdrs) || lo == u64::MAX || vaddr is None {
        None
    } else {
        Some((vaddr->0, lo))
    }
}

fn elf_compute_phdr_elf_vaddr(table: &[u8], phnum: u16, phentsz: u16, e_phoff: u64) -> (r: Option<
    (u64, u64),
>)
    ensures
        r == phdr_elf_vaddr(table@, phnum as int, phentsz as int, e_phoff),
{
    let phdrs: Vec<Elf64Phdr> = read_table(table, 0, phentsz, phnum);
    proof {
        assert(phnum * phentsz <= 0xffff * 0xffff) by (nonlinear_arith)
            requires phnum <= 0xffff, phentsz <= 0xffff;
    }
    let size: u64 = phnum as u64 * phentsz as u64;
    if size > u64::MAX - e_phoff {
        return None;
    }
    let hi: u64 = e_phoff + size;
    let mut lo: u64 = u64::MAX;
    let mut from_phdr: Option<u64> = None;
    let mut from_load: Option<u64> = None;
    let mut i: usize = 0;
    while i < phdrs.len()
        invariant
            i <= phdrs@.len(),
            lo == lowest_vaddr(phdrs@, i as int),
            from_phdr == phdr_segment_vaddr(phdrs@, i as int),
            from_load == load_mapped_vaddr(phdrs@, e_phoff, hi as int, i as int),
            phdrs@ == phdr_table(table@, 0, phentsz as int, phnum as int),
            forall|j: int|
                0 <= j < i && is_load(#[trigger] phdrs@[j]) ==> phdrs@[j].p_offset
                    + phdrs@[j].p_filesz <= u64::MAX,
        decreases phdrs@.len() - i,
    {
        let ph: Elf64Phdr = phdrs[i];
        assert(ph == phdrs@[i as int]);
        if ph.p_type == PT_LOAD {
            assert(is_load(phdrs@[i as int]));
            if ph.p_vaddr < lo {
                lo = ph.p_vaddr;
            }
            if ph.p_filesz > u64::MAX - ph.p_offset {
                assert(any_file_overflow(phdrs@));
                return None;
            }
            if e_phoff >= ph.p_offset && hi <= ph.p_offset + ph.p_filesz {
                from_load = Some(ph.p_vaddr.wrapping_add(e_phoff - ph.p_offset));
            }
        } else if ph.p_type == PT_PHDR {
            from_phdr = Some(ph.p_vaddr);
        }
        i = i + 1;
    }
    assert(!any_file_overflow(phdrs@));
    if lo == u64::MAX {
        return None;
    }
    match from_phdr {
        Some(v) => Some((v, lo)),
        None => match from_load {
            Some(v) => Some((v, lo)),
            None => None,
        },
    }
}

/// Returns the offset of the program header table from the image load base.
///
/// For `ET_DYN` this is what has to be added to the chosen load base to produce
/// `AT_PHDR`; for `ET_EXEC` it is relative to the lowest loadable address.
/// `table` holds the program header table.
pub fn elf_get_phdr_load_offset(table: &[u8], phnum: u16, phentsz: u16, e_phoff: u64) -> (r: Option<
    u64,
>)
    ensures
        match phdr_elf_vaddr(table@, phnum as int, phentsz as int, e_phoff) {
            Some((vaddr, lo)) => r == Some(vaddr.wrapping_sub(lo)),
            None => r is None,
        },
{
    match elf_compute_phdr_elf_vaddr(table, phnum, phentsz, e_phoff) {
        Some((vaddr, lo)) => Some(vaddr.wrapping_sub(lo)),
        None => None,
    }
}

/// Where the program header table of the loaded file `s` is, and what it holds.
pub open spec fn phdr_info_of(s: Seq<u8>, load_base: u64) -> Option<(u64, u64, u64)> {
    let phoff = le_u64(s, 32);
    let phentsz = le_u16(s, 54);
    let phnum = le_u16(s, 56);
    let size = phnum * phentsz;
    if s.len() < 64 || size == 0 || phoff + size > s.len() {
        None
    } else {
        match phdr_elf_vaddr(
            s.subrange(phoff as int, phoff + size),
            phnum as int,
            phentsz as int,
            phoff,
        ) {
            Some((vaddr, lo)) => Some(
                (load_base.wrapping_add(vaddr.wrapping_sub(lo)), phentsz as u64, phnum as u64),
            ),
            None => None,
        }
    }
}

/// Extracts the mapped program header table location for the auxiliary vector:
/// its address, entry size and count.
pub fn elf_get_phdr_info(data: &[u8], load_base: u64) -> (r: Option<(u64, u64, u64)>)
    ensures
        r == phdr_info_of(data@, load_base),
{
    if data.len() < 64 {
        return None;
    }
    let phoff: u64 = read_u64(data, 32);
    let phentsz: u16 = read_u16(data, 54);
    let phnum: u16 = read_u16(data, 56);
    proof {
        assert(0 <= phnum * phentsz <= 0xffff * 0xffff) by (nonlinear_arith)
            requires phnum <= 0xffff, phentsz <= 0xffff;
    }
    let size: u64 = phnum as u64 * phentsz as u64;
    if size == 0 || phoff as u128 + size as u128 > data.len() as u128 {
        return None;
    }
    let table: &[u8] = slice_subrange(data, phoff as usize, (phoff + size) as usize);
    match elf_get_phdr_load_offset(table, phnum, phentsz, phoff) {
        Some(off) => Some((load_base.wrapping_add(off), phentsz as u64, phnum as u64)),
        None => None,
    }
}

// ---------------------------------------------------------------------------
// Shared library layout
// ---------------------------------------------------------------------------

/// Basic layout information of a shared library.
#[derive(Clone, Copy, PartialEq, Eq, Debug, Structural)]
pub struct ElfLibInfo {
    /// Lowest virtual address across all loadable segments, page-aligned down.
    pub min_vaddr: u64,
    /// Bytes from that address to the end of the last page.
    pub lib_span: u64,
    /// Number of program headers.
    pub phnum: u16,
}

/// The layout of the shared library `s`; `None` if it is none, or nothing of it
/// is loadable.
pub open spec fn lib_info_of(s: Seq<u8>) -> Option<ElfLibInfo> {
    let phdrs = file_phdrs(s);
    let n = phdrs.len() as int;
    let lo = lowest_vaddr(phdrs, n);
    if !has_elf_header(s) || le_u16(s, 16) != 3 || lo == u64::MAX {
        None
    } else {
        Some(
            ElfLibInfo {
                min_vaddr: page_floor(lo as int) as u64,
                lib_span: (highest_end(phdrs, 0, n) - page_floor(lo as int)) as u64,
                phnum: le_u16(s, 56),
            },
        )
    }
}

/// Validates a shared library and computes its layout.
pub fn elf_compute_lib_info(data: &[u8]) -> (r: Option<ElfLibInfo>)
    requires
        has_elf_header(data@) ==> memory_representable(file_phdrs(data@), 0),
    ensures
        r == lib_info_of(data@),
{
    if !starts_like_elf(data) {
        return None;
    }
    if read_u16(data, 16) != ET_DYN {
        return None;
    }
    let phdrs: Vec<Elf64Phdr> = read_phdr_table(data);
    let mut lo: u64 = u64::MAX;
    let mut hi: u64 = 0;
    let mut i: usize = 0;
    while i < phdrs.len()
        invariant
            i <= phdrs@.len(),
            memory_representable(phdrs@, 0),
            lo == lowest_vaddr(phdrs@, i as int),
            hi == highest_end(phdrs@, 0, i as int),
            lo == u64::MAX || page_floor(lo as int) <= hi,
        decreases phdrs@.len() - i,
    {
        let ph: Elf64Phdr = phdrs[i];
        assert(ph == phdrs@[i as int]);
        if ph.p_type == PT_LOAD {
            assert(is_load(phdrs@[i as int]));
            assert(segment_vaddr(phdrs@[i as int], 0) == ph.p_vaddr);
            if ph.p_vaddr < lo {
                lo = ph.p_vaddr;
            }
            let end: u64 = (ph.p_vaddr + ph.p_memsz + 4095) / 4096 * 4096;
            assert(end == segment_end(ph, 0));
            if end > hi {
                hi = end;
            }
        }
        i = i + 1;
    }
    if lo == u64::MAX {
        return None;
    }
    let base: u64 = lo / 4096 * 4096;
    Some(ElfLibInfo { min_vaddr: base, lib_span: hi - base, phnum: read_u16(data, 56) })
}

// ---------------------------------------------------------------------------
// What is found in a file
// ---------------------------------------------------------------------------

proof fn lemma_first_of_type(phdrs: Seq<Elf64Phdr>, t: u32, i: int, k: int)
    requires
        0 <= i <= k < phdrs.len(),
        phdrs[k].p_type == t,
        forall|j: int| 0 <= j < k ==> (#[trigger] phdrs[j]).p_type != t,
    ensures
        first_of_type(phdrs, t, i) == k,
    decreases k - i,
{
    if i < k {
        lemma_first_of_type(phdrs, t, i + 1, k);
    }
}

/// The interpreter is what the file has at the offset of the first interpreter
/// segment, as long as that.
pub proof fn lemma_interpreter_is_found(s: Seq<u8>, k: int)
    requires
        s.len() >= 64,
        0 <= k < file_phdrs(s).len(),
        file_phdrs(s)[k].p_type == 3,
        forall|j: int| 0 <= j < k ==> (#[trigger] file_phdrs(s)[j]).p_type != 3,
        file_phdrs(s)[k].p_offset + file_phdrs(s)[k].p_filesz <= s.len(),
    ensures
        interp_bytes(s) is Some,
        interp_bytes(s)->0.len() == file_phdrs(s)[k].p_filesz,
        forall|i: int|
            0 <= i < file_phdrs(s)[k].p_filesz ==> #[trigger] interp_bytes(s)->0[i]
                == s[file_phdrs(s)[k].p_offset + i],
{
    lemma_first_of_type(file_phdrs(s), 3, 0, k);
}

/// An address is found in the file as far from the offset of a segment as it is
/// from the segment's address: that of the first loadable segment which has it in
/// its file part.
pub proof fn lemma_address_is_found_in_file(
    phdrs: Seq<Elf64Phdr>,
    file_len: int,
    va: u64,
    i: int,
    k: int,
)
    requires
        0 <= i <= k < phdrs.len(),
        phdrs[k].p_type == 1,
        phdrs[k].p_vaddr <= va < phdrs[k].p_vaddr + phdrs[k].p_filesz,
        phdrs[k].p_offset + phdrs[k].p_filesz <= file_len,
        forall|j: int|
            0 <= j < k && (#[trigger] phdrs[j]).p_type == 1 ==> !(phdrs[j].p_vaddr <= va
                < phdrs[j].p_vaddr + phdrs[j].p_filesz),
    ensures
        readable_offset_from(phdrs, file_len, va, i) == Some(
            phdrs[k].p_offset + (va - phdrs[k].p_vaddr),
        ),
    decreases k - i,
{
    if i < k {
        assert(!(is_load(phdrs[i]) && phdrs[i].p_vaddr <= va < phdrs[i].p_vaddr
            + phdrs[i].p_filesz));
        lemma_address_is_found_in_file(phdrs, file_len, va, i + 1, k);
    }
}

/// The tag and the value of entry `k` of the dynamic table at `pos`.
pub open spec fn entry_tag(s: Seq<u8>, pos: int, k: int) -> int {
    field(s, pos + 16 * k, 8)
}

pub open spec fn entry_value(s: Seq<u8>, pos: int, k: int) -> int {
    field(s, pos + 16 * k + 8, 8)
}

/// The value of a tag is that of the first entry with it, where no entry before
/// it ends the table.
pub proof fn lemma_dynamic_value_is_found(s: Seq<u8>, tag: u64, pos: int, n: int, k: int)
    requires
        0 <= k < n,
        tag != 0,
        entry_tag(s, pos, k) == tag,
        forall|j: int|
            0 <= j < k ==> #[trigger] entry_tag(s, pos, j) != tag && entry_tag(s, pos, j) != 0,
    ensures
        dynamic_value(s, tag, pos, n) == entry_value(s, pos, k),
    decreases k,
{
    lemma_field_64(s, pos);
    lemma_field_64(s, pos + 8);
    assert(entry_tag(s, pos, 0) == field(s, pos, 8));
    assert(entry_value(s, pos, 0) == field(s, pos + 8, 8));
    if k > 0 {
        let next = pos + 16;
        assert forall|j: int| 0 <= j < k - 1 implies #[trigger] entry_tag(s, next, j) != tag
            && entry_tag(s, next, j) != 0 by {
            assert(entry_tag(s, pos, j + 1) == entry_tag(s, next, j));
        }
        assert(entry_tag(s, next, k - 1) == entry_tag(s, pos, k));
        assert(entry_value(s, next, k - 1) == entry_value(s, pos, k));
        lemma_dynamic_value_is_found(s, tag, next, n - 1, k - 1);
    }
}

/// Whether entry `k` of a dynamic table names a library in the file.
pub open spec fn names_library(s: Seq<u8>, strtab: int, pos: int, k: int) -> bool {
    let off = strtab + entry_value(s, pos, k);
    entry_tag(s, pos, k) == 1 && off < s.len() && s[off] != 0
}

/// How many of the first `k` entries of a dynamic table name a library.
pub open spec fn libraries_before(s: Seq<u8>, strtab: int, pos: int, k: int) -> int
    decreases k,
{
    if k <= 0 {
        0
    } else {
        libraries_before(s, strtab, pos, k - 1) + if names_library(s, strtab, pos, k - 1) {
            1int
        } else {
            0
        }
    }
}

proof fn lemma_libraries_shift(s: Seq<u8>, strtab: int, pos: int, k: int)
    requires
        k >= 1,
    ensures
        libraries_before(s, strtab, pos, k) == libraries_before(s, strtab, pos + 16, k - 1)
            + if names_library(s, strtab, pos, 0) {
            1int
        } else {
            0
        },
        libraries_before(s, strtab, pos, k) >= 0,
    decreases k,
{
    reveal_with_fuel(libraries_before, 2);
    if k > 1 {
        lemma_libraries_shift(s, strtab, pos, k - 1);
        assert(names_library(s, strtab, pos, k - 1) == names_library(s, strtab, pos + 16, k - 2));
    }
}

proof fn lemma_needed_names_from(
    s: Seq<u8>,
    strtab: int,
    pos: int,
    n: int,
    names: Seq<Seq<u8>>,
    k: int,
)
    requires
        0 <= k < n,
        names.len() <= 12,
        forall|j: int| 0 <= j <= k ==> #[trigger] entry_tag(s, pos, j) != 0,
        names_library(s, strtab, pos, k),
        names.len() + libraries_before(s, strtab, pos, k) < 12,
    ensures
        ({
            let all = needed_names(s, strtab, pos, n, names);
            let at = names.len() + libraries_before(s, strtab, pos, k);
            &&& at < all.len()
            &&& all[at] == cut_name(c_str(s, strtab + entry_value(s, pos, k)))
        }),
    decreases n,
{
    lemma_field_64(s, pos);
    lemma_field_64(s, pos + 8);
    assert(entry_tag(s, pos, 0) == field(s, pos, 8));
    assert(entry_value(s, pos, 0) == field(s, pos + 8, 8));
    let off = strtab + le_u64(s, pos + 8);
    let next = if le_u64(s, pos) == 1 && off < s.len() && s[off] != 0 && names.len() < 12 {
        names.push(cut_name(c_str(s, off)))
    } else {
        names
    };
    if k > 0 {
        let rest = pos + 16;
        lemma_libraries_shift(s, strtab, pos, k);
        assert forall|j: int| 0 <= j <= k - 1 implies #[trigger] entry_tag(s, rest, j) != 0 by {
            assert(entry_tag(s, pos, j + 1) == entry_tag(s, rest, j));
        }
        assert(entry_tag(s, rest, k - 1) == entry_tag(s, pos, k));
        assert(entry_value(s, rest, k - 1) == entry_value(s, pos, k));
        if k > 1 {
            lemma_libraries_shift(s, strtab, rest, k - 1);
        }
        lemma_needed_names_from(s, strtab, rest, n - 1, next, k - 1);
    } else {
        lemma_needed_names_keep(s, strtab, pos + 16, n - 1, next);
    }
}

proof fn lemma_needed_names_keep(
    s: Seq<u8>,
    strtab: int,
    pos: int,
    n: int,
    names: Seq<Seq<u8>>,
)
    ensures
        needed_names(s, strtab, pos, n, names).len() >= names.len(),
        forall|j: int|
            0 <= j < names.len() ==> #[trigger] needed_names(s, strtab, pos, n, names)[j]
                == names[j],
    decreases n,
{
    if n > 0 && le_u64(s, pos) != 0 {
        let off = strtab + le_u64(s, pos + 8);
        let next = if le_u64(s, pos) == 1 && off < s.len() && s[off] != 0 && names.len() < 12 {
            names.push(cut_name(c_str(s, off)))
        } else {
            names
        };
        lemma_needed_names_keep(s, strtab, pos + 16, n - 1, next);
        assert forall|j: int| 0 <= j < names.len() implies #[trigger] needed_names(
            s,
            strtab,
            pos,
            n,
            names,
        )[j] == names[j] by {
            assert(needed_names(s, strtab, pos + 16, n - 1, next)[j] == next[j]);
        }
    }
}

/// Every library that the dynamic table of a file needs is listed, in the order of
/// the table, up to twelve of them; a name stands at its offset in the string
/// table, and is cut off at 24 bytes.
pub proof fn lemma_every_needed_library_is_listed(
    s: Seq<u8>,
    strtab: int,
    pos: int,
    n: int,
    k: int,
)
    requires
        0 <= k < n,
        forall|j: int| 0 <= j <= k ==> #[trigger] entry_tag(s, pos, j) != 0,
        names_library(s, strtab, pos, k),
        libraries_before(s, strtab, pos, k) < 12,
    ensures
        ({
            let all = needed_names(s, strtab, pos, n, Seq::empty());
            let name = c_str(s, strtab + entry_value(s, pos, k));
            let at = libraries_before(s, strtab, pos, k);
            &&& 0 <= at < all.len()
            &&& name.len() <= 24 ==> all[at] == name
            &&& name.len() > 24 ==> all[at] == name.subrange(0, 24)
        }),
{
    if k > 0 {
        lemma_libraries_shift(s, strtab, pos, k);
    }
    lemma_needed_names_from(s, strtab, pos, n, Seq::empty(), k);
    let name = c_str(s, strtab + entry_value(s, pos, k));
    if name.len() > 24 {
        assert(name.take(24) =~= name.subrange(0, 24));
    }
}

// ---------------------------------------------------------------------------
// Where things are in memory
// ---------------------------------------------------------------------------

proof fn lemma_lowest(phdrs: Seq<Elf64Phdr>, n: int, k: int)
    requires
        0 <= n <= phdrs.len(),
    ensures
        0 <= k < n && is_load(phdrs[k]) ==> lowest_vaddr(phdrs, n) <= phdrs[k].p_vaddr,
        lowest_vaddr(phdrs, n) < u64::MAX ==> exists|i: int|
            0 <= i < n && is_load(#[trigger] phdrs[i]) && phdrs[i].p_vaddr == lowest_vaddr(
                phdrs,
                n,
            ),
    decreases n,
{
    if n > 0 {
        lemma_lowest(phdrs, n - 1, k);
        if is_load(phdrs[n - 1]) && phdrs[n - 1].p_vaddr < lowest_vaddr(phdrs, n - 1) {
            assert(is_load(phdrs[n - 1]) && phdrs[n - 1].p_vaddr == lowest_vaddr(phdrs, n));
        }
    }
}

proof fn lemma_highest(phdrs: Seq<Elf64Phdr>, n: int, k: int)
    requires
        0 <= n <= phdrs.len(),
    ensures
        0 <= k < n && is_load(phdrs[k]) ==> segment_end(phdrs[k], 0) <= highest_end(phdrs, 0, n),
        highest_end(phdrs, 0, n) > 0 ==> exists|i: int|
            0 <= i < n && is_load(#[trigger] phdrs[i]) && segment_end(phdrs[i], 0) == highest_end(
                phdrs,
                0,
                n,
            ),
    decreases n,
{
    if n > 0 {
        lemma_highest(phdrs, n - 1, k);
        if is_load(phdrs[n - 1]) && segment_end(phdrs[n - 1], 0) > highest_end(phdrs, 0, n - 1) {
            assert(is_load(phdrs[n - 1]) && segment_end(phdrs[n - 1], 0) == highest_end(
                phdrs,
                0,
                n,
            ));
        }
    }
}

/// The span of a library is whole pages that hold the memory of every loadable
/// segment, and no page more at either end.
pub proof fn lemma_library_span(s: Seq<u8>, k: int)
    requires
        lib_info_of(s) is Some,
        memory_representable(file_phdrs(s), 0),
        0 <= k < file_phdrs(s).len(),
        file_phdrs(s)[k].p_type == 1,
    ensures
        ({
            let info = lib_info_of(s)->0;
            let ph = file_phdrs(s)[k];
            let end = info.min_vaddr + info.lib_span;
            &&& info.min_vaddr % 4096 == 0
            &&& info.lib_span % 4096 == 0
            &&& info.min_vaddr <= ph.p_vaddr && ph.p_vaddr + ph.p_memsz <= end
            &&& exists|i: int|
                0 <= i < file_phdrs(s).len() && (#[trigger] file_phdrs(s)[i]).p_type == 1
                    && file_phdrs(s)[i].p_vaddr < info.min_vaddr + 4096
            &&& exists|i: int|
                0 <= i < file_phdrs(s).len() && (#[trigger] file_phdrs(s)[i]).p_type == 1 && end
                    < file_phdrs(s)[i].p_vaddr + file_phdrs(s)[i].p_memsz + 4096
            &&& info.phnum == field(s, 56, 2)
        }),
{
    let phdrs = file_phdrs(s);
    let n = phdrs.len() as int;
    lemma_field_16(s, 56);
    assert(is_load(phdrs[k]));
    lemma_lowest(phdrs, n, k);
    lemma_highest(phdrs, n, k);
    let lo = lowest_vaddr(phdrs, n);
    let hi = highest_end(phdrs, 0, n);
    let i = choose|i: int| 0 <= i < n && is_load(#[trigger] phdrs[i]) && phdrs[i].p_vaddr == lo;
    assert(phdrs[i].p_type == 1 && phdrs[i].p_vaddr < page_floor(lo as int) + 4096);
    lemma_highest(phdrs, n, i);
    assert(segment_end(phdrs[i], 0) <= hi);
    if hi > 0 {
        let j = choose|j: int|
            0 <= j < n && is_load(#[trigger] phdrs[j]) && segment_end(phdrs[j], 0) == hi;
        assert(phdrs[j].p_type == 1);
        assert(hi < phdrs[j].p_vaddr + phdrs[j].p_memsz + 4096);
    }
}

proof fn lemma_mapped_vaddr(phdrs: Seq<Elf64Phdr>, lo: u64, hi: int, n: int)
    requires
        0 <= n <= phdrs.len(),
    ensures
        match load_mapped_vaddr(phdrs, lo, hi, n) {
            Some(v) => exists|i: int|
                0 <= i < n && (#[trigger] phdrs[i]).p_type == 1 && phdrs[i].p_offset <= lo && hi
                    <= phdrs[i].p_offset + phdrs[i].p_filesz && (v - phdrs[i].p_vaddr - (lo
                    - phdrs[i].p_offset)) % 0x1_0000_0000_0000_0000 == 0,
            None => forall|i: int|
                0 <= i < n && (#[trigger] phdrs[i]).p_type == 1 ==> lo < phdrs[i].p_offset || hi
                    > phdrs[i].p_offset + phdrs[i].p_filesz,
        },
    decreases n,
{
    if n > 0 {
        lemma_mapped_vaddr(phdrs, lo, hi, n - 1);
        let ph = phdrs[n - 1];
        if is_load(ph) && lo >= ph.p_offset && hi <= ph.p_offset + ph.p_filesz {
            let v = ph.p_vaddr.wrapping_add((lo - ph.p_offset) as u64);
            assert(phdrs[n - 1].p_type == 1 && (v - ph.p_vaddr - (lo - ph.p_offset))
                % 0x1_0000_0000_0000_0000 == 0);
        }
    }
}

/// Without a header that says where the program headers are, they are as far from
/// the address of a loadable segment as their offset is from the segment's; with
/// one, they are where it says.
pub proof fn lemma_program_headers_are_located(
    table: Seq<u8>,
    phnum: int,
    phentsz: int,
    e_phoff: u64,
)
    requires
        phdr_elf_vaddr(table, phnum, phentsz, e_phoff) is Some,
    ensures
        ({
            let phdrs = phdr_table(table, 0, phentsz, phnum);
            let (vaddr, lo) = phdr_elf_vaddr(table, phnum, phentsz, e_phoff)->0;
            let end = e_phoff + phnum * phentsz;
            &&& (exists|i: int| 0 <= i < phdrs.len() && (#[trigger] phdrs[i]).p_type == 6)
                ==> exists|i: int|
                0 <= i < phdrs.len() && (#[trigger] phdrs[i]).p_type == 6 && phdrs[i].p_vaddr
                    == vaddr
            &&& (forall|i: int| 0 <= i < phdrs.len() ==> (#[trigger] phdrs[i]).p_type != 6)
                ==> exists|i: int|
                0 <= i < phdrs.len() && (#[trigger] phdrs[i]).p_type == 1 && phdrs[i].p_offset
                    <= e_phoff && end <= phdrs[i].p_offset + phdrs[i].p_filesz && (vaddr
                    - phdrs[i].p_vaddr - (e_phoff - phdrs[i].p_offset)) % 0x1_0000_0000_0000_0000
                    == 0
            &&& forall|i: int|
                0 <= i < phdrs.len() && (#[trigger] phdrs[i]).p_type == 1 ==> lo <= phdrs[i].p_vaddr
            &&& exists|i: int|
                0 <= i < phdrs.len() && (#[trigger] phdrs[i]).p_type == 1 && phdrs[i].p_vaddr == lo
        }),
{
    let phdrs = phdr_table(table, 0, phentsz, phnum);
    let n = phdrs.len() as int;
    lemma_mapped_vaddr(phdrs, e_phoff, e_phoff + phnum * phentsz, n);
    lemma_phdr_segment(phdrs, n);
    lemma_lowest(phdrs, n, 0);
    assert forall|i: int| 0 <= i < n && (#[trigger] phdrs[i]).p_type == 1 implies lowest_vaddr(
        phdrs,
        n,
    ) <= phdrs[i].p_vaddr by {
        lemma_lowest(phdrs, n, i);
    }
    let i = choose|i: int|
        0 <= i < n && is_load(#[trigger] phdrs[i]) && phdrs[i].p_vaddr == lowest_vaddr(phdrs, n);
    assert(phdrs[i].p_type == 1);
}

proof fn lemma_phdr_segment(phdrs: Seq<Elf64Phdr>, n: int)
    requires
        0 <= n <= phdrs.len(),
    ensures
        match phdr_segment_vaddr(phdrs, n) {
            Some(v) => exists|i: int|
                0 <= i < n && (#[trigger] phdrs[i]).p_type == 6 && phdrs[i].p_vaddr == v,
            None => forall|i: int| 0 <= i < n ==> (#[trigger] phdrs[i]).p_type != 6,
        },
    decreases n,
{
    if n > 0 {
        lemma_phdr_segment(phdrs, n - 1);
        if phdrs[n - 1].p_type == 6 {
            assert(phdrs[n - 1].p_type == 6 && phdrs[n - 1].p_vaddr == phdrs[n - 1].p_vaddr);
        }
    }
}

/// An interpreter in the root directory of the archive loses its slash, another
/// path stays, a bare name is in `lib/`, and so is `ld-trona.so` for no name.
pub proof fn lemma_interpreter_paths(path: Seq<u8>, name: Seq<u8>)
    requires
        path.contains(0x2f),
        !name.contains(0x2f),
        name.len() > 0,
    ensures
        interp_path(seq![0x2fu8] + path) == path,
        path[0] != 0x2f ==> interp_path(path) == path,
        interp_path(name) == seq![0x6cu8, 0x69u8, 0x62u8, 0x2fu8] + name,
        interp_path(Seq::empty()) == interp_path(
            seq![0x6cu8, 0x64, 0x2d, 0x74, 0x72, 0x6f, 0x6e, 0x61, 0x2e, 0x73, 0x6f],
        ),
{
    assert((seq![0x2fu8] + path).skip(1) =~= path);
    assert(name.contains(name[0]));
    assert(!default_rtld().contains(0x2f));
}

/// The auxiliary vector gets the address of the program headers, moved like the
/// image, and their size and number as the file header has them.
pub proof fn lemma_phdr_info(s: Seq<u8>, load_base: u64)
    requires
        phdr_info_of(s, load_base) is Some,
    ensures
        ({
            let off = field(s, 32, 8);
            let size = field(s, 54, 2);
            let n = field(s, 56, 2);
            let table = s.subrange(off, off + n * size);
            let at = phdr_elf_vaddr(table, n, size, off as u64);
            let (vaddr, lo) = at->0;
            let (addr, phent, phnum) = phdr_info_of(s, load_base)->0;
            &&& at is Some
            &&& (addr - load_base - vaddr + lo) % 0x1_0000_0000_0000_0000 == 0
            &&& phent == size
            &&& phnum == n
        }),
{
    lemma_field_64(s, 32);
    lemma_field_16(s, 54);
    lemma_field_16(s, 56);
}

proof fn lemma_first_dynamic(phdrs: Seq<Elf64Phdr>, i: int, d: int)
    requires
        0 <= i <= d < phdrs.len(),
        phdrs[d].p_type == 2,
        forall|j: int| 0 <= j < d ==> (#[trigger] phdrs[j]).p_type != 2,
    ensures
        dynamic_extent(phdrs, i) == (phdrs[d].p_offset as int, phdrs[d].p_filesz as int),
    decreases d - i,
{
    if i < d {
        lemma_first_dynamic(phdrs, i + 1, d);
    }
}

/// The libraries that a file needs are those of its first dynamic segment, named in
/// the string table that entry 5 of it gives the address of.
pub proof fn lemma_needed_libraries_of_file(s: Seq<u8>, d: int, t: int, k: int)
    requires
        s.len() >= 64,
        ({
            let phdrs = file_phdrs(s);
            let pos = phdrs[d].p_offset as int;
            let strtab = entry_value(s, pos, t);
            &&& 0 <= d < phdrs.len()
            &&& phdrs[d].p_type == 2
            &&& forall|j: int| 0 <= j < d ==> (#[trigger] phdrs[j]).p_type != 2
            &&& 0 < pos && pos + phdrs[d].p_filesz <= s.len()
            &&& 0 <= t && 16 * t + 16 <= phdrs[d].p_filesz
            &&& entry_tag(s, pos, t) == 5
            &&& forall|j: int|
                0 <= j < t ==> #[trigger] entry_tag(s, pos, j) != 5 && entry_tag(s, pos, j) != 0
            &&& 0 < strtab <= u64::MAX
            &&& 0 <= k < phdrs.len()
            &&& phdrs[k].p_type == 1
            &&& phdrs[k].p_vaddr <= strtab < phdrs[k].p_vaddr + phdrs[k].p_filesz
            &&& phdrs[k].p_offset + phdrs[k].p_filesz <= s.len()
            &&& forall|j: int|
                0 <= j < k && (#[trigger] phdrs[j]).p_type == 1 ==> !(phdrs[j].p_vaddr <= strtab
                    < phdrs[j].p_vaddr + phdrs[j].p_filesz)
        }),
    ensures
        ({
            let phdrs = file_phdrs(s);
            let pos = phdrs[d].p_offset as int;
            let strtab = phdrs[k].p_offset + (entry_value(s, pos, t) - phdrs[k].p_vaddr);
            all_needed_names(s) == needed_names(
                s,
                strtab,
                pos,
                phdrs[d].p_filesz as int / 16,
                Seq::empty(),
            )
        }),
{
    let phdrs = file_phdrs(s);
    let pos = phdrs[d].p_offset as int;
    let n = phdrs[d].p_filesz as int / 16;
    lemma_first_dynamic(phdrs, 0, d);
    lemma_dynamic_value_is_found(s, 5, pos, n, t);
    let strtab = dynamic_value(s, 5, pos, n);
    lemma_address_is_found_in_file(phdrs, s.len() as int, strtab, 0, k);
}

} // verus!
