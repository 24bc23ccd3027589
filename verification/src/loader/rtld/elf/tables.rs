//! Tables of a mapped object, read from memory.
//!
//! A table has no length of its own in memory: it is taken to run to the end of
//! the object's mapping. What lies outside of the mapping is not there.
use crate::loader::bytes::{
    has_record, le_u16, le_u32, le_u64, lemma_field_16, lemma_field_32, lemma_field_64,
    lemma_field_8, read_u16, read_u32, read_u64, signed, to_signed,
};
use crate::loader::elf::symbol::{
    buckets_at, chain_find, chains_at, hash_find, hash_table_ok, VersionPolicy, gnu_hash_of,
};
use crate::loader::elf::types::{Elf64Rela, Elf64Sym};
use vstd::prelude::*;
use vstd::slice::slice_subrange;

verus! {

/// Memory from address `start` on.
#[derive(Clone, Copy)]
pub struct Memory<'a> {
    pub start: u64,
    pub bytes: &'a [u8],
}

/// The bytes from address `addr` to the end of the memory.
pub open spec fn tail(start: u64, bytes: Seq<u8>, addr: u64) -> Seq<u8> {
    if start <= addr && addr - start <= bytes.len() {
        bytes.skip(addr - start)
    } else {
        Seq::empty()
    }
}

impl<'a> Memory<'a> {
    /// The bytes from address `addr` on.
    pub fn from(&self, addr: u64) -> (r: &'a [u8])
        ensures
            r@ == tail(self.start, self.bytes@, addr),
    {
        if self.start <= addr && addr - self.start <= self.bytes.len() as u64 {
            let r: &'a [u8] = slice_subrange(
                self.bytes,
                (addr - self.start) as usize,
                self.bytes.len(),
            );
            assert(r@ =~= tail(self.start, self.bytes@, addr));
            r
        } else {
            let r: &'a [u8] = slice_subrange(self.bytes, 0, 0);
            assert(r@ =~= Seq::<u8>::empty());
            r
        }
    }
}

/// Copies bytes.
pub fn copy_bytes(s: &[u8]) -> (r: Vec<u8>)
    ensures
        r@ == s@,
{
    let mut out: Vec<u8> = Vec::new();
    let mut i: usize = 0;
    while i < s.len()
        invariant
            i <= s@.len(),
            out@ == s@.take(i as int),
        decreases s@.len() - i,
    {
        out.push(s[i]);
        i = i + 1;
        assert(out@ =~= s@.take(i as int));
    }
    assert(s@.take(i as int) =~= s@);
    out
}

/// Bytes as 32-bit words.
pub open spec fn words_in(s: Seq<u8>) -> Seq<u32> {
    Seq::new(s.len() / 4, |i: int| le_u32(s, 4 * i))
}

pub fn read_words(s: &[u8]) -> (r: Vec<u32>)
    ensures
        r@ == words_in(s@),
{
    let n: usize = s.len() / 4;
    let mut out: Vec<u32> = Vec::new();
    let mut i: usize = 0;
    while i < n
        invariant
            n == s@.len() / 4,
            s.len() >= 4 * n,
            i <= n,
            out@.len() == i,
            forall|j: int| 0 <= j < i ==> out@[j] == le_u32(s@, 4 * j),
        decreases n - i,
    {
        out.push(read_u32(s, 4 * i));
        i = i + 1;
    }
    assert(out@ =~= words_in(s@));
    out
}

/// Bytes as 16-bit words.
pub open spec fn halves_in(s: Seq<u8>) -> Seq<u16> {
    Seq::new(s.len() / 2, |i: int| le_u16(s, 2 * i))
}

pub fn read_halves(s: &[u8]) -> (r: Vec<u16>)
    ensures
        r@ == halves_in(s@),
{
    let n: usize = s.len() / 2;
    let mut out: Vec<u16> = Vec::new();
    let mut i: usize = 0;
    while i < n
        invariant
            n == s@.len() / 2,
            s.len() >= 2 * n,
            i <= n,
            out@.len() == i,
            forall|j: int| 0 <= j < i ==> out@[j] == le_u16(s@, 2 * j),
        decreases n - i,
    {
        out.push(read_u16(s, 2 * i));
        i = i + 1;
    }
    assert(out@ =~= halves_in(s@));
    out
}

/// The symbol at `off`.
pub open spec fn sym_at(s: Seq<u8>, off: int) -> Elf64Sym {
    Elf64Sym {
        st_name: le_u32(s, off),
        st_info: s[off + 4],
        st_other: s[off + 5],
        st_shndx: le_u16(s, off + 6),
        st_value: le_u64(s, off + 8),
        st_size: le_u64(s, off + 16),
    }
}

/// Bytes as symbols.
pub open spec fn syms_in(s: Seq<u8>) -> Seq<Elf64Sym> {
    Seq::new(s.len() / 24, |i: int| sym_at(s, 24 * i))
}

pub fn read_syms(s: &[u8]) -> (r: Vec<Elf64Sym>)
    ensures
        r@ == syms_in(s@),
{
    let n: usize = s.len() / 24;
    let mut out: Vec<Elf64Sym> = Vec::new();
    let mut i: usize = 0;
    while i < n
        invariant
            n == s@.len() / 24,
            s.len() >= 24 * n,
            i <= n,
            out@.len() == i,
            forall|j: int| 0 <= j < i ==> out@[j] == sym_at(s@, 24 * j),
        decreases n - i,
    {
        let off: usize = 24 * i;
        out.push(
            Elf64Sym {
                st_name: read_u32(s, off),
                st_info: s[off + 4],
                st_other: s[off + 5],
                st_shndx: read_u16(s, off + 6),
                st_value: read_u64(s, off + 8),
                st_size: read_u64(s, off + 16),
            },
        );
        i = i + 1;
    }
    assert(out@ =~= syms_in(s@));
    out
}

/// The relocation at `off`.
pub open spec fn rela_at(s: Seq<u8>, off: int) -> Elf64Rela {
    Elf64Rela {
        r_offset: le_u64(s, off),
        r_info: le_u64(s, off + 8),
        r_addend: signed(le_u64(s, off + 16)),
    }
}

/// The first `count` relocations in bytes.
pub open spec fn relas_in(s: Seq<u8>, count: u64) -> Seq<Elf64Rela> {
    let n = if count < s.len() / 24 {
        count as nat
    } else {
        s.len() / 24
    };
    Seq::new(n, |i: int| rela_at(s, 24 * i))
}

pub fn read_relas(s: &[u8], count: u64) -> (r: Vec<Elf64Rela>)
    ensures
        r@ == relas_in(s@, count),
{
    let all: usize = s.len() / 24;
    let n: usize = if count < all as u64 {
        count as usize
    } else {
        all
    };
    let mut out: Vec<Elf64Rela> = Vec::new();
    let mut i: usize = 0;
    while i < n
        invariant
            n <= s@.len() / 24,
            s.len() >= 24 * n,
            i <= n,
            out@.len() == i,
            forall|j: int| 0 <= j < i ==> out@[j] == rela_at(s@, 24 * j),
        decreases n - i,
    {
        let off: usize = 24 * i;
        out.push(
            Elf64Rela {
                r_offset: read_u64(s, off),
                r_info: read_u64(s, off + 8),
                r_addend: to_signed(read_u64(s, off + 16)),
            },
        );
        i = i + 1;
    }
    assert(out@ =~= relas_in(s@, count));
    out
}

// ---------------------------------------------------------------------------
// Size of a hashed symbol table
// ---------------------------------------------------------------------------

/// The last symbol of the hash chain that goes through symbol `idx`.
pub open spec fn chain_last(table: Seq<u32>, idx: int) -> int
    decreases table.len() - (chains_at(table) + idx - table[1]),
{
    let at = chains_at(table) + idx - table[1];
    if at < 0 || at >= table.len() || table[at] % 2 == 1 {
        idx
    } else {
        chain_last(table, idx + 1)
    }
}

/// The largest symbol index in the chains of the first `b` buckets.
pub open spec fn bucket_max(table: Seq<u32>, b: int) -> int
    decreases b,
{
    if b <= 0 {
        table[1] as int
    } else {
        let before = bucket_max(table, b - 1);
        let first = table[buckets_at(table) + b - 1] as int;
        if first < table[1] || chain_last(table, first) <= before {
            before
        } else {
            chain_last(table, first)
        }
    }
}

/// Number of buckets that are in the table.
pub open spec fn bucket_count(table: Seq<u32>) -> int {
    if chains_at(table) <= table.len() {
        table[0] as int
    } else if buckets_at(table) <= table.len() {
        table.len() - buckets_at(table)
    } else {
        0
    }
}

/// Number of symbols that a hash table accounts for.
pub open spec fn hashed_total(table: Seq<u32>) -> int {
    if table.len() < 4 {
        0
    } else if table[0] == 0 {
        table[1] as int
    } else {
        bucket_max(table, bucket_count(table)) + 1
    }
}

fn walk_chain(table: &[u32], first: u32) -> (r: u128)
    requires
        table@.len() >= 4,
        first >= table@[1],
    ensures
        r == chain_last(table@, first as int),
        r <= u32::MAX + table.len(),
{
    let len: u128 = table.len() as u128;
    let chains: u128 = 4 + 2 * table[2] as u128 + table[0] as u128;
    let offset: u128 = table[1] as u128;
    let mut idx: u128 = first as u128;
    while chains + (idx - offset) < len && table[(chains + (idx - offset)) as usize] % 2 == 0
        invariant
            len == table.len(),
            table@.len() >= 4,
            chains == chains_at(table@),
            offset == table@[1],
            offset <= first <= idx,
            chain_last(table@, first as int) == chain_last(table@, idx as int),
            len <= usize::MAX,
            idx == first || chains + (idx - offset) <= len,
        decreases len + u32::MAX + 1 - idx,
    {
        idx = idx + 1;
    }
    idx
}

/// Walks the GNU hash table to find the largest symbol index it refers to, and
/// adds one for a count.
pub fn gnu_hash_max_index(table: &[u32]) -> (r: u128)
    ensures
        r == hashed_total(table@),
{
    if table.len() < 4 {
        return 0;
    }
    let nbuckets: u64 = table[0] as u64;
    let symoffset: u64 = table[1] as u64;
    if nbuckets == 0 {
        return symoffset as u128;
    }
    let len: u64 = table.len() as u64;
    let buckets: u64 = 4 + 2 * table[2] as u64;
    let n: u64 = if buckets + nbuckets <= len {
        nbuckets
    } else if buckets <= len {
        len - buckets
    } else {
        0
    };
    let mut max: u128 = symoffset as u128;
    let mut b: u64 = 0;
    while b < n
        invariant
            len == table.len(),
            table@.len() >= 4,
            buckets == buckets_at(table@),
            n == bucket_count(table@),
            b <= n,
            n == 0 || buckets + n <= len,
            symoffset == table@[1],
            max == bucket_max(table@, b as int),
            max <= u32::MAX + table.len(),
        decreases n - b,
    {
        let first: u32 = table[(buckets + b) as usize];
        if first as u64 >= symoffset {
            let last: u128 = walk_chain(table, first);
            if last > max {
                max = last;
            }
        }
        b = b + 1;
    }
    max + 1
}

proof fn lemma_chain_last_grows(table: Seq<u32>, idx: int)
    ensures
        chain_last(table, idx) >= idx,
    decreases table.len() - (chains_at(table) + idx - table[1]),
{
    let at = chains_at(table) + idx - table[1];
    if !(at < 0 || at >= table.len() || table[at] % 2 == 1) {
        lemma_chain_last_grows(table, idx + 1);
    }
}

proof fn lemma_chain_find_bound(
    table: Seq<u32>,
    syms: Seq<Elf64Sym>,
    strtab: Seq<u8>,
    name: Seq<u8>,
    policy: Option<VersionPolicy>,
    hash: u32,
    idx: int,
)
    ensures
        match chain_find(table, syms, strtab, name, policy, hash, idx) {
            Some(i) => idx >= table[1] && i <= chain_last(table, idx),
            None => true,
        },
    decreases table.len() - (chains_at(table) + idx - table[1]),
{
    let at = chains_at(table) + idx - table[1];
    lemma_chain_last_grows(table, idx);
    if !(idx < table[1] || at < 0 || at >= table.len() || idx >= syms.len()) {
        lemma_chain_find_bound(table, syms, strtab, name, policy, hash, idx + 1);
    }
}

proof fn lemma_bucket_max(table: Seq<u32>, b: int, n: int)
    requires
        0 <= b < n,
        table[buckets_at(table) + b] >= table[1],
    ensures
        chain_last(table, table[buckets_at(table) + b] as int) <= bucket_max(table, n),
    decreases n,
{
    if b < n - 1 {
        lemma_bucket_max(table, b, n - 1);
    }
}

/// The symbol count taken from a hash table covers every symbol that a lookup
/// by that table finds.
pub proof fn lemma_hashed_symbols_are_counted(
    table: Seq<u32>,
    syms: Seq<Elf64Sym>,
    strtab: Seq<u8>,
    name: Seq<u8>,
    policy: Option<VersionPolicy>,
)
    ensures
        match hash_find(table, syms, strtab, name, policy) {
            Some(i) => i < hashed_total(table),
            None => true,
        },
{
    let hash = gnu_hash_of(name);
    let b = hash as int % table[0] as int;
    let first = table[buckets_at(table) + b] as int;
    if hash_table_ok(table) {
        lemma_chain_find_bound(table, syms, strtab, name, policy, hash, first);
        if first >= table[1] {
            lemma_bucket_max(table, b, table[0] as int);
        }
    }
}

/// A symbol is name, info, other, section, value and size, one behind the other.
pub proof fn lemma_symbol_record(s: Seq<u8>, off: int, v: Seq<int>)
    requires
        has_record(s, off, seq![4int, 1, 1, 2, 8, 8], v, 0),
    ensures
        sym_at(s, off).st_name == v[0],
        sym_at(s, off).st_info == v[1],
        sym_at(s, off).st_other == v[2],
        sym_at(s, off).st_shndx == v[3],
        sym_at(s, off).st_value == v[4],
        sym_at(s, off).st_size == v[5],
{
    reveal_with_fuel(has_record, 7);
    lemma_field_32(s, off);
    lemma_field_8(s, off + 4);
    lemma_field_8(s, off + 5);
    lemma_field_16(s, off + 6);
    lemma_field_64(s, off + 8);
    lemma_field_64(s, off + 16);
}

/// A relocation is offset, info and addend, one behind the other; the addend is
/// signed.
pub proof fn lemma_relocation_record(s: Seq<u8>, off: int, v: Seq<int>)
    requires
        has_record(s, off, seq![8int, 8, 8], v, 0),
    ensures
        rela_at(s, off).r_offset == v[0],
        rela_at(s, off).r_info == v[1],
        rela_at(s, off).r_addend == if v[2] < 0x8000_0000_0000_0000 {
            v[2]
        } else {
            v[2] - 0x1_0000_0000_0000_0000
        },
{
    reveal_with_fuel(has_record, 4);
    lemma_field_64(s, off);
    lemma_field_64(s, off + 8);
    lemma_field_64(s, off + 16);
}

} // verus!
