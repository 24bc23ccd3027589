//! Dynamic section parsing and needed-library iteration.
use crate::loader::bytes::{
    c_str, field, le_u64, lemma_field_64, read_c_str, read_u64, signed, to_signed,
};
use crate::loader::elf::types::{
    Elf64Dyn, DT_FINI, DT_FINI_ARRAY, DT_FINI_ARRAYSZ, DT_FLAGS, DT_FLAGS_1, DT_GNU_HASH,
    DT_HASH, DT_INIT, DT_INIT_ARRAY, DT_INIT_ARRAYSZ, DT_JMPREL, DT_PLTGOT, DT_PLTREL,
    DT_PLTRELSZ, DT_RELA, DT_RELAENT, DT_RELASZ, DT_RPATH, DT_RUNPATH, DT_SONAME, DT_STRSZ,
    DT_STRTAB, DT_SYMENT, DT_SYMTAB, DT_VERDEF, DT_VERDEFNUM, DT_VERNEED, DT_VERNEEDNUM,
    DT_VERSYM, DT_NEEDED, DT_NULL,
};
use vstd::prelude::*;

verus! {

/// Parsed dynamic section entries relevant to loading.
#[derive(Clone, Copy, PartialEq, Eq, Debug, Structural)]
pub struct DynInfo {
    pub strtab: u64,
    pub strsz: u64,
    pub symtab: u64,
    pub syment: u64,
    pub rela: u64,
    pub relasz: u64,
    pub relaent: u64,
    pub jmprel: u64,
    pub pltrelsz: u64,
    pub pltgot: u64,
    pub pltrel: u64,
    pub init: u64,
    pub fini: u64,
    pub init_array: u64,
    pub init_arraysz: u64,
    pub fini_array: u64,
    pub fini_arraysz: u64,
    pub gnu_hash: u64,
    pub hash: u64,
    pub soname: u64,
    pub flags: u64,
    pub flags_1: u64,
    /// String table offset of the `DT_RPATH` entry (legacy).
    pub rpath: u64,
    /// String table offset of the `DT_RUNPATH` entry.
    pub runpath: u64,
    /// Address of the `DT_VERDEF` table (or 0 if absent).
    pub verdef: u64,
    /// Number of entries in the `DT_VERDEF` table.
    pub verdef_num: u64,
    /// Address of the `DT_VERNEED` table (or 0 if absent).
    pub verneed: u64,
    /// Number of entries in the `DT_VERNEED` table.
    pub verneed_num: u64,
    /// Address of the `DT_VERSYM` table (or 0 if absent).
    pub versym: u64,
}

impl DynInfo {
    /// No entries.
    pub fn zeroed() -> (r: DynInfo)
        ensures
            r == (DynInfo {
                strtab: 0,
                strsz: 0,
                symtab: 0,
                syment: 0,
                rela: 0,
                relasz: 0,
                relaent: 0,
                jmprel: 0,
                pltrelsz: 0,
                pltgot: 0,
                pltrel: 0,
                init: 0,
                fini: 0,
                init_array: 0,
                init_arraysz: 0,
                fini_array: 0,
                fini_arraysz: 0,
                gnu_hash: 0,
                hash: 0,
                soname: 0,
                flags: 0,
                flags_1: 0,
                rpath: 0,
                runpath: 0,
                verdef: 0,
                verdef_num: 0,
                verneed: 0,
                verneed_num: 0,
                versym: 0,
            }),
    {
        DynInfo {
            strtab: 0,
            strsz: 0,
            symtab: 0,
            syment: 0,
            rela: 0,
            relasz: 0,
            relaent: 0,
            jmprel: 0,
            pltrelsz: 0,
            pltgot: 0,
            pltrel: 0,
            init: 0,
            fini: 0,
            init_array: 0,
            init_arraysz: 0,
            fini_array: 0,
            fini_arraysz: 0,
            gnu_hash: 0,
            hash: 0,
            soname: 0,
            flags: 0,
            flags_1: 0,
            rpath: 0,
            runpath: 0,
            verdef: 0,
            verdef_num: 0,
            verneed: 0,
            verneed_num: 0,
            versym: 0,
        }
    }
}

impl Default for DynInfo {
    fn default() -> (r: DynInfo)
        ensures
            r == (DynInfo {
                strtab: 0,
                strsz: 0,
                symtab: 0,
                syment: 0,
                rela: 0,
                relasz: 0,
                relaent: 0,
                jmprel: 0,
                pltrelsz: 0,
                pltgot: 0,
                pltrel: 0,
                init: 0,
                fini: 0,
                init_array: 0,
                init_arraysz: 0,
                fini_array: 0,
                fini_arraysz: 0,
                gnu_hash: 0,
                hash: 0,
                soname: 0,
                flags: 0,
                flags_1: 0,
                rpath: 0,
                runpath: 0,
                verdef: 0,
                verdef_num: 0,
                verneed: 0,
                verneed_num: 0,
                versym: 0,
            }),
    {
        DynInfo::zeroed()
    }
}

/// Number of entries before the terminator, from `i` on.
pub open spec fn dynamic_len(entries: Seq<Elf64Dyn>, i: int) -> int
    decreases entries.len() - i,
{
    if i < 0 || i >= entries.len() || entries[i].d_tag == 0 {
        i
    } else {
        dynamic_len(entries, i + 1)
    }
}

/// The value of the last of the first `n` entries with tag `tag`; 0 if there is
/// none.
pub open spec fn last_value(entries: Seq<Elf64Dyn>, tag: i64, n: int) -> u64
    decreases n,
{
    if n <= 0 {
        0
    } else if entries[n - 1].d_tag == tag {
        entries[n - 1].d_val
    } else {
        last_value(entries, tag, n - 1)
    }
}

/// What the first `n` entries say.
pub open spec fn dyn_info_of(entries: Seq<Elf64Dyn>, n: int) -> DynInfo {
    DynInfo {
        strtab: last_value(entries, 5, n),
        strsz: last_value(entries, 10, n),
        symtab: last_value(entries, 6, n),
        syment: last_value(entries, 11, n),
        rela: last_value(entries, 7, n),
        relasz: last_value(entries, 8, n),
        relaent: last_value(entries, 9, n),
        jmprel: last_value(entries, 23, n),
        pltrelsz: last_value(entries, 2, n),
        pltgot: last_value(entries, 3, n),
        pltrel: last_value(entries, 20, n),
        init: last_value(entries, 12, n),
        fini: last_value(entries, 13, n),
        init_array: last_value(entries, 25, n),
        init_arraysz: last_value(entries, 27, n),
        fini_array: last_value(entries, 26, n),
        fini_arraysz: last_value(entries, 28, n),
        gnu_hash: last_value(entries, 0x6ffffef5, n),
        hash: last_value(entries, 4, n),
        soname: last_value(entries, 14, n),
        flags: last_value(entries, 30, n),
        flags_1: last_value(entries, 0x6ffffffb, n),
        rpath: last_value(entries, 15, n),
        runpath: last_value(entries, 29, n),
        verdef: last_value(entries, 0x6ffffffc, n),
        verdef_num: last_value(entries, 0x6ffffffd, n),
        verneed: last_value(entries, 0x6ffffffe, n),
        verneed_num: last_value(entries, 0x6fffffff, n),
        versym: last_value(entries, 0x6ffffff0, n),
    }
}

/// Parses a dynamic section: entries up to the terminator count, and of entries
/// with the same tag the last one.
pub fn parse_dynamic(entries: &[Elf64Dyn]) -> (r: DynInfo)
    ensures
        r == dyn_info_of(entries@, dynamic_len(entries@, 0)),
{
    let mut info: DynInfo = DynInfo::zeroed();
    let mut i: usize = 0;
    while i < entries.len()
        invariant
            i <= entries@.len(),
            dynamic_len(entries@, 0) == dynamic_len(entries@, i as int),
            info == dyn_info_of(entries@, i as int),
        decreases entries@.len() - i,
    {
        let tag: i64 = entries[i].d_tag;
        let val: u64 = entries[i].d_val;
        if tag == DT_NULL {
            return info;
        }
        if tag == DT_STRTAB {
            info.strtab = val;
        } else if tag == DT_STRSZ {
            info.strsz = val;
        } else if tag == DT_SYMTAB {
            info.symtab = val;
        } else if tag == DT_SYMENT {
            info.syment = val;
        } else if tag == DT_RELA {
            info.rela = val;
        } else if tag == DT_RELASZ {
            info.relasz = val;
        } else if tag == DT_RELAENT {
            info.relaent = val;
        } else if tag == DT_JMPREL {
            info.jmprel = val;
        } else if tag == DT_PLTRELSZ {
            info.pltrelsz = val;
        } else if tag == DT_PLTGOT {
            info.pltgot = val;
        } else if tag == DT_PLTREL {
            info.pltrel = val;
        } else if tag == DT_INIT {
            info.init = val;
        } else if tag == DT_FINI {
            info.fini = val;
        } else if tag == DT_INIT_ARRAY {
            info.init_array = val;
        } else if tag == DT_INIT_ARRAYSZ {
            info.init_arraysz = val;
        } else if tag == DT_FINI_ARRAY {
            info.fini_array = val;
        } else if tag == DT_FINI_ARRAYSZ {
            info.fini_arraysz = val;
        } else if tag == DT_GNU_HASH {
            info.gnu_hash = val;
        } else if tag == DT_HASH {
            info.hash = val;
        } else if tag == DT_SONAME {
            info.soname = val;
        } else if tag == DT_FLAGS {
            info.flags = val;
        } else if tag == DT_FLAGS_1 {
            info.flags_1 = val;
        } else if tag == DT_RPATH {
            info.rpath = val;
        } else if tag == DT_RUNPATH {
            info.runpath = val;
        } else if tag == DT_VERDEF {
            info.verdef = val;
        } else if tag == DT_VERDEFNUM {
            info.verdef_num = val;
        } else if tag == DT_VERNEED {
            info.verneed = val;
        } else if tag == DT_VERNEEDNUM {
            info.verneed_num = val;
        } else if tag == DT_VERSYM {
            info.versym = val;
        }
        i = i + 1;
    }
    info
}

/// Iterator over the needed-library entries. Yields string table offsets.
pub struct NeededIter<'a> {
    entries: &'a [Elf64Dyn],
    pos: usize,
}

/// The string table offsets of the needed libraries from entry `i` on.
pub open spec fn needed_from(entries: Seq<Elf64Dyn>, i: int) -> Seq<u64>
    decreases entries.len() - i,
{
    if i < 0 || i >= entries.len() || entries[i].d_tag == 0 {
        Seq::empty()
    } else if entries[i].d_tag == 1 {
        seq![entries[i].d_val] + needed_from(entries, i + 1)
    } else {
        needed_from(entries, i + 1)
    }
}

impl<'a> NeededIter<'a> {
    /// What is still to come.
    pub closed spec fn remaining(&self) -> Seq<u64> {
        needed_from(self.entries@, self.pos as int)
    }

    /// A walk over `entries`.
    pub fn new(entries: &'a [Elf64Dyn]) -> (r: NeededIter<'a>)
        ensures
            r.remaining() == needed_from(entries@, 0),
    {
        NeededIter { entries, pos: 0 }
    }

    /// The next offset.
    pub fn next(&mut self) -> (r: Option<u64>)
        ensures
            match r {
                Some(off) => old(self).remaining().len() > 0 && off == old(self).remaining()[0]
                    && final(self).remaining() == old(self).remaining().skip(1),
                None => old(self).remaining().len() == 0 && final(self).remaining()
                    == old(self).remaining(),
            },
    {
        while self.pos < self.entries.len()
            invariant
                self.entries == old(self).entries,
                old(self).remaining() == needed_from(self.entries@, self.pos as int),
            decreases self.entries@.len() - self.pos,
        {
            let tag: i64 = self.entries[self.pos].d_tag;
            let val: u64 = self.entries[self.pos].d_val;
            if tag == DT_NULL {
                return None;
            }
            proof {
                if tag == 1 {
                    let rest = needed_from(self.entries@, self.pos + 1);
                    assert((seq![val] + rest).skip(1) =~= rest);
                }
            }
            self.pos = self.pos + 1;
            if tag == DT_NEEDED {
                return Some(val);
            }
        }
        None
    }
}

/// Resolves a string table offset to the string there.
pub fn strtab_entry(strtab: &[u8], offset: u64) -> (r: Option<&[u8]>)
    ensures
        match r {
            Some(s) => offset < strtab@.len() && s@ == c_str(strtab@, offset as int),
            None => offset >= strtab@.len(),
        },
{
    if offset >= strtab.len() as u64 {
        return None;
    }
    Some(read_c_str(strtab, offset as usize))
}

/// The dynamic entries in `s` from `off` on, the terminator not counted.
pub open spec fn dynamic_at(s: Seq<u8>, off: int) -> Seq<Elf64Dyn>
    decreases s.len() - off,
{
    if off < 0 || off + 16 > s.len() || le_u64(s, off) == 0 {
        Seq::empty()
    } else {
        seq![
            Elf64Dyn { d_tag: signed(le_u64(s, off)), d_val: le_u64(s, off + 8) },
        ] + dynamic_at(s, off + 16)
    }
}

/// Reads the dynamic entries from `off` on, up to the terminator or the end.
pub fn read_dynamic(data: &[u8], off: usize) -> (r: Vec<Elf64Dyn>)
    ensures
        r@ == dynamic_at(data@, off as int),
{
    let mut out: Vec<Elf64Dyn> = Vec::new();
    let mut pos: u128 = off as u128;
    let len: u128 = data.len() as u128;
    let ghost goal = dynamic_at(data@, off as int);
    assert(out@ + goal =~= goal);
    while pos + 16 <= len
        invariant
            len == data.len(),
            pos <= u64::MAX + 16,
            goal == out@ + dynamic_at(data@, pos as int),
            goal == dynamic_at(data@, off as int),
        decreases len + 16 - pos,
    {
        let tag: u64 = read_u64(data, pos as usize);
        let val: u64 = read_u64(data, pos as usize + 8);
        if tag == 0 {
            assert(out@ + Seq::<Elf64Dyn>::empty() =~= out@);
            return out;
        }
        let entry = Elf64Dyn { d_tag: to_signed(tag), d_val: val };
        proof {
            let rest = dynamic_at(data@, pos + 16);
            assert(out@ + (seq![entry] + rest) =~= out@.push(entry) + rest);
        }
        out.push(entry);
        pos = pos + 16;
    }
    assert(out@ + Seq::<Elf64Dyn>::empty() =~= out@);
    out
}

// ---------------------------------------------------------------------------
// Laws
// ---------------------------------------------------------------------------

proof fn lemma_dynamic_len(entries: Seq<Elf64Dyn>, m: int, i: int)
    requires
        0 <= i <= m <= entries.len(),
        m < entries.len() ==> entries[m].d_tag == 0,
        forall|j: int| 0 <= j < m ==> (#[trigger] entries[j]).d_tag != 0,
    ensures
        dynamic_len(entries, i) == m,
    decreases m - i,
{
    if i < m {
        assert(entries[i].d_tag != 0);
        lemma_dynamic_len(entries, m, i + 1);
    }
}

proof fn lemma_last_value(entries: Seq<Elf64Dyn>, tag: i64, k: int, n: int)
    requires
        0 <= n <= entries.len(),
        k < n,
        k >= 0 ==> entries[k].d_tag == tag,
        forall|j: int| 0 <= j < n && k < j ==> (#[trigger] entries[j]).d_tag != tag,
    ensures
        last_value(entries, tag, n) == if k >= 0 {
            entries[k].d_val
        } else {
            0
        },
    decreases n,
{
    if n > 0 && n - 1 > k {
        assert(entries[n - 1].d_tag != tag);
        lemma_last_value(entries, tag, k, n - 1);
    }
}

/// Each entry of a dynamic section, up to the first one of type 0, sets what its
/// type stands for, the last one of a type counting; what has no entry is 0. The
/// numbers are those of the object file format. `k` is the last entry of the
/// type, or negative if there is none.
pub proof fn lemma_dynamic_entries(entries: Seq<Elf64Dyn>, m: int, tag: i64, k: int)
    requires
        0 < m <= entries.len(),
        m < entries.len() ==> entries[m].d_tag == 0,
        forall|j: int| 0 <= j < m ==> (#[trigger] entries[j]).d_tag != 0,
        k < m,
        k >= 0 ==> entries[k].d_tag == tag,
        forall|j: int| 0 <= j < m && k < j ==> (#[trigger] entries[j]).d_tag != tag,
    ensures
        ({
            let info = dyn_info_of(entries, dynamic_len(entries, 0));
            let v = if k >= 0 {
                entries[k].d_val
            } else {
                0
            };
            &&& tag == 5 ==> info.strtab == v
            &&& tag == 10 ==> info.strsz == v
            &&& tag == 6 ==> info.symtab == v
            &&& tag == 11 ==> info.syment == v
            &&& tag == 7 ==> info.rela == v
            &&& tag == 8 ==> info.relasz == v
            &&& tag == 9 ==> info.relaent == v
            &&& tag == 23 ==> info.jmprel == v
            &&& tag == 2 ==> info.pltrelsz == v
            &&& tag == 3 ==> info.pltgot == v
            &&& tag == 20 ==> info.pltrel == v
            &&& tag == 12 ==> info.init == v
            &&& tag == 13 ==> info.fini == v
            &&& tag == 25 ==> info.init_array == v
            &&& tag == 27 ==> info.init_arraysz == v
            &&& tag == 26 ==> info.fini_array == v
            &&& tag == 28 ==> info.fini_arraysz == v
            &&& tag == 0x6fff_fef5 ==> info.gnu_hash == v
            &&& tag == 4 ==> info.hash == v
            &&& tag == 14 ==> info.soname == v
            &&& tag == 30 ==> info.flags == v
            &&& tag == 0x6fff_fffb ==> info.flags_1 == v
            &&& tag == 15 ==> info.rpath == v
            &&& tag == 29 ==> info.runpath == v
            &&& tag == 0x6fff_fffc ==> info.verdef == v
            &&& tag == 0x6fff_fffd ==> info.verdef_num == v
            &&& tag == 0x6fff_fffe ==> info.verneed == v
            &&& tag == 0x6fff_ffff ==> info.verneed_num == v
            &&& tag == 0x6fff_fff0 ==> info.versym == v
        }),
{
    lemma_dynamic_len(entries, m, 0);
    lemma_last_value(entries, tag, k, m);
}

/// Every entry of type 1 before the first one of type 0 is a needed library, in
/// the order of the entries.
pub proof fn lemma_needed_entries(entries: Seq<Elf64Dyn>, i: int, k: int, l: int)
    requires
        0 <= i <= k < l < entries.len(),
        forall|j: int| i <= j <= l ==> (#[trigger] entries[j]).d_tag != 0,
        entries[k].d_tag == 1,
        entries[l].d_tag == 1,
    ensures
        exists|p: int, q: int|
            #![trigger needed_from(entries, i)[p], needed_from(entries, i)[q]]
            0 <= p < q < needed_from(entries, i).len() && needed_from(entries, i)[p]
                == entries[k].d_val && needed_from(entries, i)[q] == entries[l].d_val,
    decreases l - i,
{
    assert(entries[i].d_tag != 0);
    let rest = needed_from(entries, i + 1);
    let all = needed_from(entries, i);
    if i == k {
        lemma_needed_entry(entries, i + 1, l);
        let q = choose|q: int| 0 <= q < rest.len() && #[trigger] rest[q] == entries[l].d_val;
        assert(all[0] == entries[k].d_val);
        assert(all[q + 1] == rest[q]);
    } else {
        lemma_needed_entries(entries, i + 1, k, l);
        let (p, q) = choose|p: int, q: int|
            #![trigger rest[p], rest[q]]
            0 <= p < q < rest.len() && rest[p] == entries[k].d_val && rest[q] == entries[l].d_val;
        if entries[i].d_tag == 1 {
            assert(all[p + 1] == rest[p] && all[q + 1] == rest[q]);
        } else {
            assert(all[p] == rest[p] && all[q] == rest[q]);
        }
    }
}

/// The one library that an entry needs is listed.
pub proof fn lemma_needed_entry(entries: Seq<Elf64Dyn>, i: int, l: int)
    requires
        0 <= i <= l < entries.len(),
        forall|j: int| i <= j <= l ==> (#[trigger] entries[j]).d_tag != 0,
        entries[l].d_tag == 1,
    ensures
        exists|q: int|
            0 <= q < needed_from(entries, i).len() && #[trigger] needed_from(entries, i)[q]
                == entries[l].d_val,
    decreases l - i,
{
    assert(entries[i].d_tag != 0);
    let rest = needed_from(entries, i + 1);
    let all = needed_from(entries, i);
    if i == l {
        assert(all[0] == entries[l].d_val);
    } else {
        lemma_needed_entry(entries, i + 1, l);
        let q = choose|q: int| 0 <= q < rest.len() && #[trigger] rest[q] == entries[l].d_val;
        if entries[i].d_tag == 1 {
            assert(all[q + 1] == rest[q]);
        } else {
            assert(all[q] == rest[q]);
        }
    }
}

/// Entry `i` of a dynamic section is the tag and the value `16 i` bytes behind its
/// start; the first entry with tag 0 ends it.
pub proof fn lemma_dynamic_section_is_read(s: Seq<u8>, off: int, n: int, i: int)
    requires
        0 <= off,
        0 <= n,
        off + 16 * n <= s.len(),
        forall|j: int| 0 <= j < n ==> field(s, #[trigger] (off + 16 * j), 8) != 0,
        off + 16 * n + 16 > s.len() || field(s, off + 16 * n, 8) == 0,
    ensures
        dynamic_at(s, off).len() == n,
        0 <= i < n ==> {
            let e = dynamic_at(s, off)[i];
            let tag = field(s, off + 16 * i, 8);
            &&& e.d_tag == if tag < 0x8000_0000_0000_0000 {
                tag
            } else {
                tag - 0x1_0000_0000_0000_0000
            }
            &&& e.d_val == field(s, off + 16 * i + 8, 8)
        },
    decreases n,
{
    lemma_field_64(s, off);
    lemma_field_64(s, off + 8);
    if n > 0 {
        assert(field(s, off + 16 * 0, 8) != 0);
        assert forall|j: int| 0 <= j < n - 1 implies field(s, #[trigger] (off + 16 + 16 * j), 8)
            != 0 by {
            assert(off + 16 + 16 * j == off + 16 * (j + 1));
        }
        lemma_dynamic_section_is_read(s, off + 16, n - 1, i - 1);
        assert(off + 16 + 16 * (i - 1) == off + 16 * i);
    }
}

} // verus!
