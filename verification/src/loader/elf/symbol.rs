//! ELF symbol lookup (GNU hash and linear) with GNU symbol versioning.
//!
//! Tables that point outside of what is given never match.
use crate::loader::bytes::{c_str, le_u16, le_u32, read_c_str, read_u16, read_u32};
use crate::loader::elf::types::{Elf64Sym, SHN_UNDEF, VER_NDX_GLOBAL, VER_NDX_LOCAL};
use vstd::arithmetic::div_mod::{lemma_add_mod_noop, lemma_mul_mod_noop};
use vstd::arithmetic::power::pow;
use vstd::arithmetic::power2::pow2;
use vstd::bits::{lemma_u32_shr_is_div, lemma_u64_shr_is_div};
use vstd::prelude::*;

verus! {

/// Version policy of a lookup in an object with version metadata.
#[derive(Clone, Copy)]
pub struct VersionCheck<'a> {
    /// One entry per symbol, if the object has versions.
    pub versym: Option<&'a [u16]>,
    /// The version definitions, a chain of records.
    pub verdef: Option<&'a [u8]>,
    pub strtab: &'a [u8],
    /// The version asked for; `None` accepts any symbol that is not hidden.
    pub required: Option<&'a [u8]>,
}

/// What a [`VersionCheck`] holds.
pub struct VersionPolicy {
    pub versym: Option<Seq<u16>>,
    pub verdef: Option<Seq<u8>>,
    pub strtab: Seq<u8>,
    pub required: Option<Seq<u8>>,
}

impl<'a> View for VersionCheck<'a> {
    type V = VersionPolicy;

    open spec fn view(&self) -> VersionPolicy {
        VersionPolicy {
            versym: match self.versym {
                Some(v) => Some(v@),
                None => None,
            },
            verdef: match self.verdef {
                Some(v) => Some(v@),
                None => None,
            },
            strtab: self.strtab@,
            required: match self.required {
                Some(v) => Some(v@),
                None => None,
            },
        }
    }
}

/// The policy of an optional check.
pub open spec fn policy_of(check: Option<&VersionCheck<'_>>) -> Option<VersionPolicy> {
    match check {
        Some(c) => Some(c@),
        None => None,
    }
}

/// The GNU hash of the first `n` bytes of a name.
pub open spec fn gnu_hash_prefix(name: Seq<u8>, n: int) -> u32
    decreases n,
{
    if n <= 0 {
        5381
    } else {
        gnu_hash_prefix(name, n - 1).wrapping_mul(33).wrapping_add(name[n - 1] as u32)
    }
}

/// The GNU hash of a name.
pub open spec fn gnu_hash_of(name: Seq<u8>) -> u32 {
    gnu_hash_prefix(name, name.len() as int)
}

/// Computes the GNU hash of a symbol name.
pub fn gnu_hash(name: &[u8]) -> (r: u32)
    ensures
        r == gnu_hash_of(name@),
{
    let mut h: u32 = 5381;
    let mut i: usize = 0;
    while i < name.len()
        invariant
            i <= name@.len(),
            h == gnu_hash_prefix(name@, i as int),
        decreases name@.len() - i,
    {
        h = h.wrapping_mul(33).wrapping_add(name[i] as u32);
        i = i + 1;
    }
    h
}

/// Whether the string at `off` is `name`, terminator included.
pub open spec fn string_is(strtab: Seq<u8>, off: int, name: Seq<u8>) -> bool {
    off + name.len() < strtab.len() && strtab.subrange(off, off + name.len()) == name && strtab[off
        + name.len()] == 0
}

/// Whether the string at `off` of the string table is `name`.
pub fn sym_name_eq(strtab: &[u8], off: u32, name: &[u8]) -> (r: bool)
    ensures
        r == string_is(strtab@, off as int, name@),
{
    let n: usize = name.len();
    if off as u128 + n as u128 >= strtab.len() as u128 {
        return false;
    }
    let start: usize = off as usize;
    let mut i: usize = 0;
    while i < n
        invariant
            i <= n,
            n == name@.len(),
            start == off,
            start + n < strtab.len(),
            forall|j: int| 0 <= j < i ==> strtab@[start + j] == name@[j],
        decreases n - i,
    {
        if strtab[start + i] != name[i] {
            proof {
                let part = strtab@.subrange(start as int, start + n);
                assert(part[i as int] == strtab@[start + i]);
            }
            return false;
        }
        i = i + 1;
    }
    assert(strtab@.subrange(start as int, start + n) =~= name@);
    strtab[start + n] == 0
}

/// Whether the version definition with index `idx`, in the chain from `pos` on,
/// is named `want`.
pub open spec fn verdef_named(
    verdef: Seq<u8>,
    strtab: Seq<u8>,
    idx: u16,
    want: Seq<u8>,
    pos: int,
) -> bool
    decreases verdef.len() + 0x1_0000_0000 - pos,
{
    let aux = pos + le_u32(verdef, pos + 12);
    let next = le_u32(verdef, pos + 16);
    if pos < 0 || pos + 20 > verdef.len() {
        false
    } else if le_u16(verdef, pos + 4) == idx && le_u16(verdef, pos + 6) > 0 && le_u32(
        verdef,
        pos + 12,
    ) != 0 && aux + 8 <= verdef.len() && string_is(strtab, le_u32(verdef, aux) as int, want) {
        true
    } else if next == 0 {
        false
    } else {
        verdef_named(verdef, strtab, idx, want, pos + next)
    }
}

fn verdef_name_eq(verdef: &[u8], strtab: &[u8], idx: u16, want: &[u8]) -> (r: bool)
    ensures
        r == verdef_named(verdef@, strtab@, idx, want@, 0),
{
    let len: u128 = verdef.len() as u128;
    let mut pos: u128 = 0;
    while pos + 20 <= len
        invariant
            len == verdef.len(),
            pos <= u64::MAX + u32::MAX,
            verdef_named(verdef@, strtab@, idx, want@, 0) == verdef_named(
                verdef@,
                strtab@,
                idx,
                want@,
                pos as int,
            ),
        decreases len + 0x1_0000_0000 - pos,
    {
        let at: usize = pos as usize;
        let ndx: u16 = read_u16(verdef, at + 4);
        let cnt: u16 = read_u16(verdef, at + 6);
        let aux: u32 = read_u32(verdef, at + 12);
        let next: u32 = read_u32(verdef, at + 16);
        if ndx == idx && cnt > 0 && aux != 0 && pos + aux as u128 + 8 <= len {
            let name: u32 = read_u32(verdef, (pos + aux as u128) as usize);
            if sym_name_eq(strtab, name, want) {
                return true;
            }
        }
        if next == 0 {
            return false;
        }
        pos = pos + next as u128;
    }
    false
}

/// Whether the symbol at index `idx` is acceptable under a policy: without one
/// anything is; without a request, what is neither hidden nor local; with a
/// request, what has that version.
pub open spec fn version_ok(policy: Option<VersionPolicy>, idx: int) -> bool {
    match policy {
        None => true,
        Some(p) => match p.versym {
            None => p.required is None,
            Some(versym) => if idx >= versym.len() {
                false
            } else {
                match p.required {
                    None => versym[idx] < 0x8000 && versym[idx] % 0x8000 != 0,
                    Some(want) => match p.verdef {
                        None => versym[idx] % 0x8000 == 1,
                        Some(verdef) => verdef_named(
                            verdef,
                            p.strtab,
                            (versym[idx] % 0x8000) as u16,
                            want,
                            0,
                        ),
                    },
                }
            },
        },
    }
}

fn version_satisfies(check: Option<&VersionCheck<'_>>, sym_idx: usize) -> (r: bool)
    ensures
        r == version_ok(policy_of(check), sym_idx as int),
{
    match check {
        None => true,
        Some(ctx) => match ctx.versym {
            None => ctx.required.is_none(),
            Some(versym) => {
                if sym_idx >= versym.len() {
                    return false;
                }
                let raw: u16 = versym[sym_idx];
                let hidden: bool = raw >= 0x8000;
                let ver_idx: u16 = raw % 0x8000;
                match ctx.required {
                    None => !hidden && ver_idx != VER_NDX_LOCAL,
                    Some(want) => match ctx.verdef {
                        None => ver_idx == VER_NDX_GLOBAL,
                        Some(verdef) => verdef_name_eq(verdef, ctx.strtab, ver_idx, want),
                    },
                }
            },
        },
    }
}

/// Whether the symbol at index `i` is what a lookup of `name` wants: it has the
/// name, is defined, and has an acceptable version.
pub open spec fn symbol_matches(
    syms: Seq<Elf64Sym>,
    strtab: Seq<u8>,
    name: Seq<u8>,
    policy: Option<VersionPolicy>,
    i: int,
) -> bool {
    &&& 0 <= i < syms.len()
    &&& string_is(strtab, syms[i].st_name as int, name)
    &&& syms[i].st_shndx != 0
    &&& version_ok(policy, i)
}

/// Word `i` of the bloom filter of a GNU hash table.
pub open spec fn bloom_word(table: Seq<u32>, i: int) -> u64 {
    (table[4 + 2 * i] + table[5 + 2 * i] * 0x1_0000_0000) as u64
}

/// Whether the bloom filter lets a hash through.
pub open spec fn bloom_passes(table: Seq<u32>, hash: u32) -> bool {
    let word = bloom_word(table, (hash as int / 64) % (table[2] as int));
    let bit1 = 1u64 << ((hash % 64) as u64);
    let bit2 = 1u64 << (((hash >> table[3]) % 64) as u64);
    word & bit1 != 0 && word & bit2 != 0
}

/// Where the hash buckets start.
pub open spec fn buckets_at(table: Seq<u32>) -> int {
    4 + 2 * table[2]
}

/// Where the hash chains start.
pub open spec fn chains_at(table: Seq<u32>) -> int {
    buckets_at(table) + table[0]
}

/// Whether a GNU hash table is complete: it has buckets, a bloom filter, and a
/// shift that makes sense.
pub open spec fn hash_table_ok(table: Seq<u32>) -> bool {
    &&& table.len() >= 4
    &&& table[0] != 0
    &&& table[2] != 0
    &&& table[3] < 32
    &&& chains_at(table) <= table.len()
}

/// Walks the hash chain from symbol `idx` on.
pub open spec fn chain_find(
    table: Seq<u32>,
    syms: Seq<Elf64Sym>,
    strtab: Seq<u8>,
    name: Seq<u8>,
    policy: Option<VersionPolicy>,
    hash: u32,
    idx: int,
) -> Option<int>
    decreases table.len() - (chains_at(table) + idx - table[1]),
{
    let at = chains_at(table) + idx - table[1];
    if idx < table[1] || at < 0 || at >= table.len() || idx >= syms.len() {
        None
    } else if table[at] / 2 == hash / 2 && symbol_matches(syms, strtab, name, policy, idx) {
        Some(idx)
    } else if table[at] % 2 == 1 {
        None
    } else {
        chain_find(table, syms, strtab, name, policy, hash, idx + 1)
    }
}

/// The symbol that a GNU hash lookup finds.
pub open spec fn hash_find(
    table: Seq<u32>,
    syms: Seq<Elf64Sym>,
    strtab: Seq<u8>,
    name: Seq<u8>,
    policy: Option<VersionPolicy>,
) -> Option<int> {
    let hash = gnu_hash_of(name);
    let first = table[buckets_at(table) + hash as int % table[0] as int];
    if !hash_table_ok(table) || !bloom_passes(table, hash) || first == 0 {
        None
    } else {
        chain_find(table, syms, strtab, name, policy, hash, first as int)
    }
}

/// Looks up a symbol by name using the GNU hash table, given as 32-bit words:
/// bucket count, index of the first hashed symbol, number of 64-bit bloom words,
/// bloom shift, then the bloom words, the buckets and the chains.
///
/// Returns the first defined symbol in the name's chain whose name matches and
/// whose version satisfies `version_check`.
pub fn gnu_hash_lookup<'a>(
    table: &[u32],
    symtab: &'a [Elf64Sym],
    strtab: &[u8],
    name: &[u8],
    version_check: Option<&VersionCheck<'_>>,
) -> (r: Option<&'a Elf64Sym>)
    ensures
        match hash_find(table@, symtab@, strtab@, name@, policy_of(version_check)) {
            Some(i) => r is Some && *r->0 == symtab@[i] && symbol_matches(
                symtab@,
                strtab@,
                name@,
                policy_of(version_check),
                i,
            ),
            None => r is None,
        },
{
    let len: u128 = table.len() as u128;
    if len < 4 {
        return None;
    }
    let nbuckets: u32 = table[0];
    let symoffset: u32 = table[1];
    let bloom_size: u32 = table[2];
    let bloom_shift: u32 = table[3];
    let buckets: u128 = 4 + 2 * bloom_size as u128;
    let chains: u128 = buckets + nbuckets as u128;
    if nbuckets == 0 || bloom_size == 0 || bloom_shift >= 32 || chains > len {
        return None;
    }
    let hash: u32 = gnu_hash(name);
    let word_idx: u32 = (hash / 64) % bloom_size;
    let lo: u32 = table[4 + 2 * word_idx as usize];
    let hi: u32 = table[5 + 2 * word_idx as usize];
    let word: u64 = lo as u64 + hi as u64 * 0x1_0000_0000;
    let bit1: u64 = 1u64 << ((hash % 64) as u64);
    let bit2: u64 = 1u64 << (((hash >> bloom_shift) % 64) as u64);
    assert(word == bloom_word(table@, word_idx as int));
    if word & bit1 == 0 || word & bit2 == 0 {
        return None;
    }
    let bucket: u32 = hash % nbuckets;
    let first: u32 = table[(buckets + bucket as u128) as usize];
    if first == 0 {
        return None;
    }
    let mut idx: u128 = first as u128;
    let ghost policy = policy_of(version_check);
    while idx >= symoffset as u128 && idx < symtab.len() as u128 && chains + (idx
        - symoffset as u128) < len
        invariant
            len == table.len(),
            chains == chains_at(table@),
            symoffset == table@[1],
            chains <= len,
            idx <= u64::MAX + u32::MAX,
            policy == policy_of(version_check),
            hash_find(table@, symtab@, strtab@, name@, policy) == chain_find(
                table@,
                symtab@,
                strtab@,
                name@,
                policy,
                hash,
                idx as int,
            ),
        decreases symtab@.len() + u32::MAX - idx,
    {
        let chain_val: u32 = table[(chains + (idx - symoffset as u128)) as usize];
        let i: usize = idx as usize;
        if chain_val / 2 == hash / 2 {
            let sym: &'a Elf64Sym = &symtab[i];
            if sym_name_eq(strtab, sym.st_name, name) && sym.st_shndx != SHN_UNDEF
                && version_satisfies(version_check, i) {
                assert(symbol_matches(symtab@, strtab@, name@, policy, i as int));
                return Some(sym);
            }
        }
        if chain_val % 2 == 1 {
            return None;
        }
        idx = idx + 1;
    }
    None
}

/// The first symbol from `i` on that matches.
pub open spec fn linear_find(
    syms: Seq<Elf64Sym>,
    strtab: Seq<u8>,
    name: Seq<u8>,
    policy: Option<VersionPolicy>,
    i: int,
) -> Option<int>
    decreases syms.len() - i,
{
    if i >= syms.len() {
        None
    } else if symbol_matches(syms, strtab, name, policy, i) {
        Some(i)
    } else {
        linear_find(syms, strtab, name, policy, i + 1)
    }
}

/// Linear symbol table search, for objects without a GNU hash table.
pub fn linear_lookup<'a>(
    symtab: &'a [Elf64Sym],
    strtab: &[u8],
    name: &[u8],
    version_check: Option<&VersionCheck<'_>>,
) -> (r: Option<&'a Elf64Sym>)
    ensures
        match linear_find(symtab@, strtab@, name@, policy_of(version_check), 0) {
            Some(i) => r is Some && *r->0 == symtab@[i] && symbol_matches(
                symtab@,
                strtab@,
                name@,
                policy_of(version_check),
                i,
            ),
            None => r is None,
        },
{
    let mut i: usize = 0;
    while i < symtab.len()
        invariant
            i <= symtab@.len(),
            linear_find(symtab@, strtab@, name@, policy_of(version_check), 0) == linear_find(
                symtab@,
                strtab@,
                name@,
                policy_of(version_check),
                i as int,
            ),
        decreases symtab@.len() - i,
    {
        let sym: &'a Elf64Sym = &symtab[i];
        if sym.st_shndx != SHN_UNDEF && sym_name_eq(strtab, sym.st_name, name)
            && version_satisfies(version_check, i) {
            assert(symbol_matches(symtab@, strtab@, name@, policy_of(version_check), i as int));
            return Some(sym);
        }
        i = i + 1;
    }
    None
}

/// The symbol that a lookup finds, by the hash table if there is one.
pub open spec fn symbol_find(
    table: Option<Seq<u32>>,
    syms: Seq<Elf64Sym>,
    strtab: Seq<u8>,
    name: Seq<u8>,
    policy: Option<VersionPolicy>,
) -> Option<int> {
    match table {
        Some(t) => hash_find(t, syms, strtab, name, policy),
        None => linear_find(syms, strtab, name, policy, 0),
    }
}

/// Looks up a symbol by the GNU hash table if there is one, and by linear search
/// otherwise. Versioning rules apply identically.
pub fn lookup_symbol_versioned<'a>(
    gnu_hash_table: Option<&[u32]>,
    symtab: &'a [Elf64Sym],
    strtab: &[u8],
    name: &[u8],
    version_check: Option<&VersionCheck<'_>>,
) -> (r: Option<&'a Elf64Sym>)
    ensures
        match symbol_find(
            match gnu_hash_table {
                Some(t) => Some(t@),
                None => None,
            },
            symtab@,
            strtab@,
            name@,
            policy_of(version_check),
        ) {
            Some(i) => r is Some && *r->0 == symtab@[i] && symbol_matches(
                symtab@,
                strtab@,
                name@,
                policy_of(version_check),
                i,
            ),
            None => r is None,
        },
{
    match gnu_hash_table {
        Some(t) => gnu_hash_lookup(t, symtab, strtab, name, version_check),
        None => linear_lookup(symtab, strtab, name, version_check),
    }
}

/// The name offset of the requirement with index `idx`, among `n` auxiliary
/// records in the chain from `pos` on.
pub open spec fn vernaux_name(verneed: Seq<u8>, idx: u16, n: int, pos: int) -> Option<u32>
    decreases n,
{
    if n <= 0 || pos + 16 > verneed.len() {
        None
    } else if le_u16(verneed, pos + 6) == idx {
        Some(le_u32(verneed, pos + 8))
    } else if le_u32(verneed, pos + 12) == 0 {
        None
    } else {
        vernaux_name(verneed, idx, n - 1, pos + le_u32(verneed, pos + 12))
    }
}

/// The name offset of the requirement with index `idx`, among `n` records in the
/// chain from `pos` on.
pub open spec fn verneed_name(verneed: Seq<u8>, idx: u16, n: int, pos: int) -> Option<u32>
    decreases n,
{
    let aux = le_u32(verneed, pos + 8);
    let found = if aux == 0 {
        None
    } else {
        vernaux_name(verneed, idx, le_u16(verneed, pos + 2) as int, pos + aux)
    };
    if n <= 0 || pos + 16 > verneed.len() {
        None
    } else if found is Some {
        found
    } else if le_u32(verneed, pos + 12) == 0 {
        None
    } else {
        verneed_name(verneed, idx, n - 1, pos + le_u32(verneed, pos + 12))
    }
}

fn find_vernaux(verneed: &[u8], idx: u16, count: u16, start: u128) -> (r: Option<u32>)
    requires
        start <= 0x1_0000_0000_0000_0000_0000,
    ensures
        r == vernaux_name(verneed@, idx, count as int, start as int),
{
    let len: u128 = verneed.len() as u128;
    let mut pos: u128 = start;
    let mut left: u16 = count;
    while left > 0 && pos + 16 <= len
        invariant
            len == verneed.len(),
            pos <= 0x1_0000_0000_0000_0000_0000 + (count - left) * 0xffff_ffff,
            left <= count,
            vernaux_name(verneed@, idx, count as int, start as int) == vernaux_name(
                verneed@,
                idx,
                left as int,
                pos as int,
            ),
        decreases left,
    {
        let at: usize = pos as usize;
        if read_u16(verneed, at + 6) == idx {
            return Some(read_u32(verneed, at + 8));
        }
        let next: u32 = read_u32(verneed, at + 12);
        if next == 0 {
            return None;
        }
        pos = pos + next as u128;
        left = left - 1;
    }
    None
}

/// Finds the version that the requesting object needs for the version index
/// `ver_idx`, in its requirement records.
///
/// `verneed` holds `verneed_num` records in a chain; the name is in `strtab`.
pub fn verneed_required_name<'a>(
    verneed: &[u8],
    verneed_num: u32,
    strtab: &'a [u8],
    ver_idx: u16,
) -> (r: Option<&'a [u8]>)
    ensures
        match verneed_name(verneed@, ver_idx, verneed_num as int, 0) {
            Some(off) => if off <= strtab@.len() {
                r is Some && r->0@ == c_str(strtab@, off as int)
            } else {
                r is None
            },
            None => r is None,
        },
{
    let len: u128 = verneed.len() as u128;
    let mut pos: u128 = 0;
    let mut left: u32 = verneed_num;
    while left > 0 && pos + 16 <= len
        invariant
            len == verneed.len(),
            pos <= (verneed_num - left) * 0xffff_ffff,
            left <= verneed_num,
            verneed_name(verneed@, ver_idx, verneed_num as int, 0) == verneed_name(
                verneed@,
                ver_idx,
                left as int,
                pos as int,
            ),
        decreases left,
    {
        let at: usize = pos as usize;
        let count: u16 = read_u16(verneed, at + 2);
        let aux: u32 = read_u32(verneed, at + 8);
        let next: u32 = read_u32(verneed, at + 12);
        if aux != 0 {
            match find_vernaux(verneed, ver_idx, count, pos + aux as u128) {
                Some(off) => {
                    if off as u64 <= strtab.len() as u64 {
                        return Some(read_c_str(strtab, off as usize));
                    }
                    return None;
                },
                None => {},
            }
        }
        if next == 0 {
            return None;
        }
        pos = pos + next as u128;
        left = left - 1;
    }
    None
}

/// The version index of a symbol, the hidden bit taken off; `None` when there is
/// no version table.
pub fn versym_index(versym: Option<&[u16]>, sym_idx: u32) -> (r: Option<u16>)
    ensures
        r == match versym {
            Some(v) => if sym_idx < v@.len() {
                Some((v@[sym_idx as int] % 0x8000) as u16)
            } else {
                None
            },
            None => None,
        },
{
    match versym {
        None => None,
        Some(v) => {
            if sym_idx as u64 >= v.len() as u64 {
                return None;
            }
            Some(v[sym_idx as usize] % 0x8000)
        },
    }
}

// ---------------------------------------------------------------------------
// What a hash table is for
// ---------------------------------------------------------------------------

/// The bytes of a name as digits to base 33, the last one lowest.
pub open spec fn digits_33(name: Seq<u8>) -> int
    decreases name.len(),
{
    if name.len() == 0 {
        0
    } else {
        name[0] * pow(33, (name.len() - 1) as nat) + digits_33(name.skip(1))
    }
}

proof fn lemma_digits_push(name: Seq<u8>, c: u8)
    ensures
        digits_33(name.push(c)) == 33 * digits_33(name) + c,
    decreases name.len(),
{
    let longer = name.push(c);
    reveal(pow);
    if name.len() == 0 {
        assert(longer.skip(1) =~= Seq::empty());
        assert(digits_33(longer.skip(1)) == 0);
        assert(digits_33(longer) == longer[0] * pow(33, 0) + digits_33(longer.skip(1)));
        assert(pow(33, 0) == 1);
        assert(longer[0] * pow(33, 0) == c) by (nonlinear_arith)
            requires
                longer[0] == c,
                pow(33, 0) == 1,
        ;
    } else {
        assert(longer.skip(1) =~= name.skip(1).push(c));
        lemma_digits_push(name.skip(1), c);
        let k = (name.len() - 1) as nat;
        assert(pow(33, k + 1) == 33 * pow(33, k));
        assert(name[0] * (33 * pow(33, k)) == 33 * (name[0] * pow(33, k))) by (nonlinear_arith);
        assert(longer[0] == name[0]);
        assert(digits_33(name) == name[0] * pow(33, k) + digits_33(name.skip(1)));
        assert(digits_33(longer) == longer[0] * pow(33, k + 1) + digits_33(longer.skip(1)));
    }
}

proof fn lemma_hash_prefix(name: Seq<u8>, n: int)
    requires
        0 <= n <= name.len(),
    ensures
        gnu_hash_prefix(name, n) == (5381 * pow(33, n as nat) + digits_33(name.take(n)))
            % 0x1_0000_0000,
    decreases n,
{
    reveal(pow);
    if n == 0 {
        assert(name.take(0) =~= Seq::empty());
    } else {
        lemma_hash_prefix(name, n - 1);
        assert(name.take(n) =~= name.take(n - 1).push(name[n - 1]));
        lemma_digits_push(name.take(n - 1), name[n - 1]);
        let before = 5381 * pow(33, (n - 1) as nat) + digits_33(name.take(n - 1));
        let c = name[n - 1] as int;
        let m = 0x1_0000_0000int;
        let h = gnu_hash_prefix(name, n - 1) as int;
        assert(pow(33, n as nat) == 33 * pow(33, (n - 1) as nat));
        assert(5381 * pow(33, n as nat) + digits_33(name.take(n)) == 33 * before + c);
        assert(h == before % m);
        assert((33 * h) % m == (33 * before) % m) by {
            lemma_mul_mod_noop(33, before, m);
            lemma_mul_mod_noop(33, h, m);
        }
        assert(((33 * h) % m + c) % m == (33 * before + c) % m) by {
            lemma_add_mod_noop(33 * before, c, m);
            lemma_add_mod_noop((33 * h) % m, c, m);
        }
    }
}

/// The GNU hash of a name is 5381 followed by its bytes, read as digits to base 33,
/// modulo 2^32.
pub proof fn lemma_gnu_hash(name: Seq<u8>)
    ensures
        gnu_hash_of(name) == (5381 * pow(33, name.len()) + digits_33(name)) % 0x1_0000_0000,
{
    lemma_hash_prefix(name, name.len() as int);
    assert(name.take(name.len() as int) =~= name);
}

/// Bit `b` of 64-bit word `w` of the filter in a GNU hash table, which is stored as
/// 32-bit words behind the four header words, the lower half of each word first.
pub open spec fn filter_bit(table: Seq<u32>, w: int, b: int) -> bool {
    (table[4 + 2 * w + b / 32] as int / pow2((b % 32) as nat) as int) % 2 == 1
}

/// Whether symbol `i` is in a GNU hash table under the hash `h`. The header has the
/// number of buckets, the first hashed symbol, the number of filter words and the
/// filter shift; behind the filter follow the buckets, then one word per hashed
/// symbol.
///
/// The bits of `h` above the lowest six, modulo the number of filter words, select
/// the filter word that has the two bits of `h` set: one by the lowest six bits,
/// one by the six bits from the shift on. The bucket of `h` is the first symbol of
/// its chain, which is not done before `i`; and the word of `i` has the bits of `h`
/// but for the lowest, which marks the end of a chain.
pub open spec fn is_hashed(table: Seq<u32>, i: int, h: int) -> bool {
    let (nbuckets, first, words, shift) = (
        table[0] as int,
        table[1] as int,
        table[2] as int,
        table[3] as int,
    );
    let w = (h / 64) % words;
    let buckets = 4 + 2 * words;
    let chains = buckets + nbuckets;
    let start = table[buckets + h % nbuckets] as int;
    &&& table.len() >= 4
    &&& nbuckets > 0
    &&& words > 0
    &&& shift < 32
    &&& filter_bit(table, w, h % 64)
    &&& filter_bit(table, w, (h / pow2(shift as nat) as int) % 64)
    &&& 0 < start
    &&& first <= start <= i
    &&& chains + (i - first) < table.len()
    &&& forall|j: int| start <= j < i ==> #[trigger] table[chains + (j - first)] % 2 == 0
    &&& table[chains + (i - first)] / 2 == h / 2
}

proof fn lemma_filter_bit(lo: u32, hi: u32, b: u64)
    requires
        b < 64,
    ensures
        (((lo + hi * 0x1_0000_0000) as u64) & (1u64 << b) != 0) == if b < 32 {
            (lo as int / pow2(b as nat) as int) % 2 == 1
        } else {
            (hi as int / pow2((b - 32) as nat) as int) % 2 == 1
        },
{
    let word = (lo + hi * 0x1_0000_0000) as u64;
    let (l, h) = (lo as u64, hi as u64);
    assert(l <= 0xffff_ffff && h <= 0xffff_ffff ==> l + h * 0x1_0000_0000 == (l | (h << 32)))
        by (bit_vector);
    assert(word == l | (h << 32));
    let part = if b < 32 {
        l >> b
    } else {
        h >> ((b - 32) as u64)
    };
    let c = if b < 32 {
        0u64
    } else {
        (b - 32) as u64
    };
    assert(l <= 0xffff_ffff && h <= 0xffff_ffff && word == (l | (h << 32)) && b < 64 ==> {
        &&& b < 32 ==> ((word & (1u64 << b) != 0) == ((l >> b) % 2 == 1))
        &&& b >= 32 && c == b - 32 ==> ((word & (1u64 << b) != 0) == ((h >> c) % 2 == 1))
    }) by (bit_vector);
    if b < 32 {
        lemma_u64_shr_is_div(l, b);
    } else {
        lemma_u64_shr_is_div(h, c);
    }
}

proof fn lemma_chain_reaches(
    table: Seq<u32>,
    syms: Seq<Elf64Sym>,
    strtab: Seq<u8>,
    name: Seq<u8>,
    policy: Option<VersionPolicy>,
    hash: u32,
    idx: int,
    i: int,
)
    requires
        table.len() >= 4,
        table[1] <= idx <= i < syms.len(),
        chains_at(table) + (i - table[1]) < table.len(),
        forall|j: int|
            idx <= j < i ==> #[trigger] table[chains_at(table) + (j - table[1])] % 2 == 0,
        table[chains_at(table) + (i - table[1])] / 2 == hash / 2,
        symbol_matches(syms, strtab, name, policy, i),
    ensures
        ({
            let found = chain_find(table, syms, strtab, name, policy, hash, idx);
            found is Some && idx <= found->0 <= i && symbol_matches(
                syms,
                strtab,
                name,
                policy,
                found->0,
            )
        }),
    decreases i - idx,
{
    let at = chains_at(table) + idx - table[1];
    assert(at == chains_at(table) + (idx - table[1]));
    if idx < i {
        assert(table[chains_at(table) + (idx - table[1])] % 2 == 0);
        lemma_chain_reaches(table, syms, strtab, name, policy, hash, idx + 1, i);
    }
}

/// A symbol that is in a hash table under the hash of its name is found, or
/// another one of that name that comes before it in its chain: one that is
/// defined and has an acceptable version.
pub proof fn lemma_hashed_symbol_is_found(
    table: Seq<u32>,
    syms: Seq<Elf64Sym>,
    strtab: Seq<u8>,
    name: Seq<u8>,
    policy: Option<VersionPolicy>,
    i: int,
)
    requires
        0 <= i < syms.len(),
        is_hashed(
            table,
            i,
            (5381 * pow(33, name.len()) + digits_33(name)) % 0x1_0000_0000,
        ),
        syms[i].st_shndx != 0,
        syms[i].st_name + name.len() < strtab.len(),
        strtab.subrange(
            syms[i].st_name as int,
            syms[i].st_name + name.len(),
        ) == name,
        strtab[syms[i].st_name + name.len()] == 0,
        version_ok(policy, i),
    ensures
        ({
            let found = hash_find(table, syms, strtab, name, policy);
            let j = found->0;
            &&& found is Some
            &&& table[1] <= j <= i
            &&& syms[j].st_shndx != 0
            &&& strtab.subrange(syms[j].st_name as int, syms[j].st_name + name.len()) == name
            &&& strtab[syms[j].st_name + name.len()] == 0
            &&& version_ok(policy, j)
        }),
{
    lemma_gnu_hash(name);
    let hash = gnu_hash_of(name);
    let h = hash as int;
    let (words, shift) = (table[2] as int, table[3]);
    let w = (h / 64) % words;
    assert(0 <= w < words) by (nonlinear_arith)
        requires
            words > 0,
            w == (h / 64) % words,
    ;
    assert(0 <= h % table[0] as int && h % table[0] as int <= table[0]) by (nonlinear_arith)
        requires
            table[0] > 0,
    ;
    lemma_filter_bit(table[4 + 2 * w], table[5 + 2 * w], (hash % 64) as u64);
    lemma_u32_shr_is_div(hash, shift);
    let b2 = ((hash >> shift) % 64) as u64;
    assert(b2 == (h / pow2(shift as nat) as int) % 64);
    lemma_filter_bit(table[4 + 2 * w], table[5 + 2 * w], b2);
    assert(filter_bit(table, w, h % 64));
    assert(bloom_passes(table, hash));
    assert(symbol_matches(syms, strtab, name, policy, i));
    let start = table[buckets_at(table) + h % table[0] as int] as int;
    lemma_chain_reaches(table, syms, strtab, name, policy, hash, start, i);
}

/// Whether a hash table has every symbol from the first hashed one on, under the
/// hash of its name.
pub open spec fn is_gnu_table(table: Seq<u32>, syms: Seq<Elf64Sym>, strtab: Seq<u8>) -> bool {
    forall|i: int, name: Seq<u8>|
        table[1] <= i < syms.len() && #[trigger] string_is(
            strtab,
            (#[trigger] syms[i]).st_name as int,
            name,
        ) ==> is_hashed(
            table,
            i,
            (5381 * pow(33, name.len()) + digits_33(name)) % 0x1_0000_0000,
        )
}

/// Looking a name up by the hash table finds a symbol exactly if searching the
/// hashed symbols one by one does.
pub proof fn lemma_hash_lookup_is_complete(
    table: Seq<u32>,
    syms: Seq<Elf64Sym>,
    strtab: Seq<u8>,
    name: Seq<u8>,
    policy: Option<VersionPolicy>,
)
    requires
        is_gnu_table(table, syms, strtab),
    ensures
        hash_find(table, syms, strtab, name, policy) is Some <==> exists|i: int|
            table[1] <= i < syms.len() && #[trigger] symbol_matches(
                syms,
                strtab,
                name,
                policy,
                i,
            ),
{
    if exists|i: int|
        table[1] <= i < syms.len() && #[trigger] symbol_matches(syms, strtab, name, policy, i) {
        let i = choose|i: int|
            table[1] <= i < syms.len() && #[trigger] symbol_matches(syms, strtab, name, policy, i);
        assert(string_is(strtab, syms[i].st_name as int, name));
        lemma_hashed_symbol_is_found(table, syms, strtab, name, policy, i);
    }
    if hash_find(table, syms, strtab, name, policy) is Some {
        let hash = gnu_hash_of(name);
        let start = table[buckets_at(table) + hash as int % table[0] as int] as int;
        lemma_chain_finds_matches(table, syms, strtab, name, policy, hash, start);
    }
}

proof fn lemma_chain_finds_matches(
    table: Seq<u32>,
    syms: Seq<Elf64Sym>,
    strtab: Seq<u8>,
    name: Seq<u8>,
    policy: Option<VersionPolicy>,
    hash: u32,
    idx: int,
)
    ensures
        chain_find(table, syms, strtab, name, policy, hash, idx) matches Some(j) ==> table[1] <= j
            && symbol_matches(syms, strtab, name, policy, j),
    decreases table.len() - (chains_at(table) + idx - table[1]),
{
    let at = chains_at(table) + idx - table[1];
    if !(idx < table[1] || at < 0 || at >= table.len() || idx >= syms.len()) {
        if !(table[at] / 2 == hash / 2 && symbol_matches(syms, strtab, name, policy, idx))
            && table[at] % 2 != 1 {
            lemma_chain_finds_matches(table, syms, strtab, name, policy, hash, idx + 1);
        }
    }
}

/// Searching one by one finds the first symbol that is defined and has the name
/// and an acceptable version, and fails only if there is none.
pub proof fn lemma_linear_lookup_finds_first(
    syms: Seq<Elf64Sym>,
    strtab: Seq<u8>,
    name: Seq<u8>,
    policy: Option<VersionPolicy>,
    from: int,
    i: int,
)
    requires
        0 <= from <= i < syms.len(),
        syms[i].st_shndx != 0,
        syms[i].st_name + name.len() < strtab.len(),
        strtab.subrange(
            syms[i].st_name as int,
            syms[i].st_name + name.len(),
        ) == name,
        strtab[syms[i].st_name + name.len()] == 0,
        version_ok(policy, i),
    ensures
        ({
            let found = linear_find(syms, strtab, name, policy, from);
            let j = found->0;
            &&& found is Some
            &&& from <= j <= i
            &&& syms[j].st_shndx != 0
            &&& strtab.subrange(syms[j].st_name as int, syms[j].st_name + name.len()) == name
            &&& strtab[syms[j].st_name + name.len()] == 0
            &&& version_ok(policy, j)
        }),
    decreases syms.len() - from,
{
    assert(symbol_matches(syms, strtab, name, policy, i));
    if !symbol_matches(syms, strtab, name, policy, from) {
        lemma_linear_lookup_finds_first(syms, strtab, name, policy, from + 1, i);
    }
}

/// Which versions are acceptable. Without version data every symbol is, unless a
/// version is asked for. Of an object with versions a hidden symbol (the highest
/// bit is set) is found only by its version, and a local one (index 0) not at all
/// without one; the global default (index 1) has any version in an object that
/// defines none.
pub proof fn lemma_acceptable_versions(p: VersionPolicy, i: int)
    requires
        0 <= i,
    ensures
        version_ok(None, i),
        p.versym is None ==> version_ok(Some(p), i) == (p.required is None),
        p.versym is Some && i < p.versym->0.len() ==> {
            let raw = p.versym->0[i] as int;
            &&& p.required is None && raw >= 0x8000 ==> !version_ok(Some(p), i)
            &&& p.required is None && raw == 0 ==> !version_ok(Some(p), i)
            &&& p.required is None && 0 < raw < 0x8000 ==> version_ok(Some(p), i)
            &&& p.required is Some && p.verdef is None ==> version_ok(Some(p), i) == (raw == 1
                || raw == 0x8001)
        },
        p.versym is Some && i >= p.versym->0.len() ==> !version_ok(Some(p), i),
{
}

/// Whether `at` are the positions of the first records of a version definition
/// chain: each record says, 16 bytes from its start, how far the next one is.
pub open spec fn is_verdef_chain(verdef: Seq<u8>, at: Seq<int>) -> bool {
    &&& at.len() > 0
    &&& at[0] == 0
    &&& forall|k: int| 0 <= k < at.len() ==> 0 <= #[trigger] at[k] && at[k] + 20 <= verdef.len()
    &&& forall|k: int, l: int|
        0 <= k && l == k + 1 && l < at.len() ==> #[trigger] at[l] == #[trigger] at[k] + le_u32(
            verdef,
            at[k] + 16,
        ) && at[k] < at[l]
}

proof fn lemma_verdef_from(
    verdef: Seq<u8>,
    strtab: Seq<u8>,
    idx: u16,
    want: Seq<u8>,
    at: Seq<int>,
    k: int,
)
    requires
        is_verdef_chain(verdef, at),
        0 <= k < at.len(),
        ({
            let last = at.last();
            let aux = last + le_u32(verdef, last + 12);
            &&& le_u16(verdef, last + 4) == idx
            &&& le_u16(verdef, last + 6) > 0
            &&& le_u32(verdef, last + 12) != 0
            &&& aux + 8 <= verdef.len()
            &&& string_is(strtab, le_u32(verdef, aux) as int, want)
        }),
    ensures
        verdef_named(verdef, strtab, idx, want, at[k]),
    decreases at.len() - k,
{
    if k < at.len() - 1 {
        assert(at[k + 1] == at[k] + le_u32(verdef, at[k] + 16));
        lemma_verdef_from(verdef, strtab, idx, want, at, k + 1);
    }
}

/// A symbol has the version asked for if a record anywhere in the chain of version
/// definitions has the symbol's version index and is named by the version, the
/// hidden bit not counting.
pub proof fn lemma_defined_version_is_acceptable(p: VersionPolicy, i: int, at: Seq<int>)
    requires
        p.versym is Some,
        p.verdef is Some,
        p.required is Some,
        0 <= i < p.versym->0.len(),
        is_verdef_chain(p.verdef->0, at),
        ({
            let verdef = p.verdef->0;
            let want = p.required->0;
            let last = at.last();
            let aux = last + le_u32(verdef, last + 12);
            let off = le_u32(verdef, aux) as int;
            &&& le_u16(verdef, last + 4) == p.versym->0[i] % 0x8000
            &&& le_u16(verdef, last + 6) > 0
            &&& last < aux
            &&& aux + 8 <= verdef.len()
            &&& off + want.len() < p.strtab.len()
            &&& p.strtab.subrange(off, off + want.len()) == want
            &&& p.strtab[off + want.len()] == 0
        }),
    ensures
        version_ok(Some(p), i),
{
    lemma_verdef_from(
        p.verdef->0,
        p.strtab,
        (p.versym->0[i] % 0x8000) as u16,
        p.required->0,
        at,
        0,
    );
}

/// Whether `at` are the positions of the first records of a chain: each record
/// says, 12 bytes from its start, how far the next one is.
pub open spec fn is_need_chain(verneed: Seq<u8>, at: Seq<int>) -> bool {
    &&& at.len() > 0
    &&& forall|k: int| 0 <= k < at.len() ==> 0 <= #[trigger] at[k] && at[k] + 16 <= verneed.len()
    &&& forall|k: int, l: int|
        0 <= k && l == k + 1 && l < at.len() ==> #[trigger] at[l] == #[trigger] at[k] + le_u32(
            verneed,
            at[k] + 12,
        ) && at[k] < at[l]
}

proof fn lemma_vernaux_from(verneed: Seq<u8>, idx: u16, n: int, at: Seq<int>, k: int)
    requires
        is_need_chain(verneed, at),
        0 <= k < at.len(),
        n >= at.len() - k,
        le_u16(verneed, at.last() + 6) == idx,
        forall|j: int| 0 <= j < at.len() - 1 ==> le_u16(verneed, #[trigger] at[j] + 6) != idx,
    ensures
        vernaux_name(verneed, idx, n, at[k]) == Some(le_u32(verneed, at.last() + 8)),
    decreases at.len() - k,
{
    if k < at.len() - 1 {
        assert(le_u16(verneed, at[k] + 6) != idx);
        assert(at[k + 1] == at[k] + le_u32(verneed, at[k] + 12));
        lemma_vernaux_from(verneed, idx, n - 1, at, k + 1);
    }
}

/// The auxiliary records of the record at `pos` have no index `idx`.
pub open spec fn needs_no(verneed: Seq<u8>, idx: u16, pos: int) -> bool {
    le_u32(verneed, pos + 8) == 0 || vernaux_name(
        verneed,
        idx,
        le_u16(verneed, pos + 2) as int,
        pos + le_u32(verneed, pos + 8),
    ) is None
}

proof fn lemma_verneed_from(
    verneed: Seq<u8>,
    idx: u16,
    n: int,
    at: Seq<int>,
    aux: Seq<int>,
    k: int,
)
    requires
        is_need_chain(verneed, at),
        is_need_chain(verneed, aux),
        0 <= k < at.len(),
        n >= at.len() - k,
        forall|j: int| 0 <= j < at.len() - 1 ==> needs_no(verneed, idx, #[trigger] at[j]),
        le_u32(verneed, at.last() + 8) != 0,
        aux[0] == at.last() + le_u32(verneed, at.last() + 8),
        le_u16(verneed, at.last() + 2) >= aux.len(),
        le_u16(verneed, aux.last() + 6) == idx,
        forall|j: int| 0 <= j < aux.len() - 1 ==> le_u16(verneed, #[trigger] aux[j] + 6) != idx,
    ensures
        verneed_name(verneed, idx, n, at[k]) == Some(le_u32(verneed, aux.last() + 8)),
    decreases at.len() - k,
{
    if k < at.len() - 1 {
        assert(needs_no(verneed, idx, at[k]));
        assert(at[k + 1] == at[k] + le_u32(verneed, at[k] + 12));
        lemma_verneed_from(verneed, idx, n - 1, at, aux, k + 1);
    } else {
        lemma_vernaux_from(verneed, idx, le_u16(verneed, at.last() + 2) as int, aux, 0);
    }
}

/// A version that an object requires is found wherever in the chain of its
/// requirements the record with the index is: the name is that of the first
/// auxiliary record with the index.
pub proof fn lemma_required_version_is_found(
    verneed: Seq<u8>,
    idx: u16,
    n: int,
    at: Seq<int>,
    aux: Seq<int>,
)
    requires
        is_need_chain(verneed, at),
        at[0] == 0,
        is_need_chain(verneed, aux),
        n >= at.len(),
        forall|j: int| 0 <= j < at.len() - 1 ==> needs_no(verneed, idx, #[trigger] at[j]),
        le_u32(verneed, at.last() + 8) != 0,
        aux[0] == at.last() + le_u32(verneed, at.last() + 8),
        le_u16(verneed, at.last() + 2) >= aux.len(),
        le_u16(verneed, aux.last() + 6) == idx,
        forall|j: int| 0 <= j < aux.len() - 1 ==> le_u16(verneed, #[trigger] aux[j] + 6) != idx,
    ensures
        verneed_name(verneed, idx, n, 0) == Some(le_u32(verneed, aux.last() + 8)),
{
    lemma_verneed_from(verneed, idx, n, at, aux, 0);
}

} // verus!
