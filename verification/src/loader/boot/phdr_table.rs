//! Program header tables with a declared entry size.
use crate::loader::bytes::{
    field, le_u16, le_u64, lemma_field_16, lemma_field_64, read_u16, read_u64,
};
use crate::loader::elf::header::{phdr_at, read_phdr};
use crate::loader::elf::types::Elf64Phdr;
use vstd::prelude::*;

verus! {

/// The entries of a table of `n` headers, `size` bytes apart from `off` on, up
/// to the first one that is not in the file.
pub open spec fn phdr_table(s: Seq<u8>, off: int, size: int, n: int) -> Seq<Elf64Phdr>
    decreases n,
{
    if n <= 0 || off + 56 > s.len() {
        Seq::empty()
    } else {
        seq![phdr_at(s, off)] + phdr_table(s, off + size, size, n - 1)
    }
}

/// The program headers that the file header of `s` declares.
pub open spec fn file_phdrs(s: Seq<u8>) -> Seq<Elf64Phdr> {
    phdr_table(s, le_u64(s, 32) as int, le_u16(s, 54) as int, le_u16(s, 56) as int)
}

/// Whether `s` starts like an ELF file and is long enough for its header.
pub open spec fn has_elf_header(s: Seq<u8>) -> bool {
    s.len() >= 64 && s[0] == 0x7f && s[1] == 0x45 && s[2] == 0x4c && s[3] == 0x46
}

/// Whether `data` starts like an ELF file and is long enough for its header.
pub fn starts_like_elf(data: &[u8]) -> (r: bool)
    ensures
        r == has_elf_header(data@),
{
    data.len() >= 64 && data[0] == 0x7f && data[1] == 0x45 && data[2] == 0x4c && data[3] == 0x46
}

/// Reads the program headers that the file header declares.
pub fn read_phdr_table(data: &[u8]) -> (r: Vec<Elf64Phdr>)
    requires
        data@.len() >= 64,
    ensures
        r@ == file_phdrs(data@),
        r@.len() <= 0xffff,
{
    read_table(data, read_u64(data, 32), read_u16(data, 54), read_u16(data, 56))
}

/// Reads a table of `n` headers, `size` bytes apart from `start` on, up to the
/// first one that is not in the data.
pub fn read_table(data: &[u8], start: u64, size: u16, n: u16) -> (r: Vec<Elf64Phdr>)
    ensures
        r@ == phdr_table(data@, start as int, size as int, n as int),
        r@.len() <= n,
{
    let mut out: Vec<Elf64Phdr> = Vec::new();
    let mut off: u128 = start as u128;
    let len: u128 = data.len() as u128;
    let mut left: u16 = n;
    let ghost goal = phdr_table(data@, start as int, size as int, n as int);
    assert(out@ + goal =~= goal);
    while left > 0 && off + 56 <= len
        invariant
            len == data.len(),
            left <= n,
            off <= u64::MAX + (n - left) * 0xffff,
            out@.len() == n - left,
            goal == out@ + phdr_table(data@, off as int, size as int, left as int),
        decreases left,
    {
        let ph: Elf64Phdr = read_phdr(data, off as usize);
        proof {
            let rest = phdr_table(data@, off + size, size as int, left - 1);
            assert(out@ + (seq![ph] + rest) =~= out@.push(ph) + rest);
        }
        out.push(ph);
        off = off + size as u128;
        left = left - 1;
    }
    assert(out@ + Seq::<Elf64Phdr>::empty() =~= out@);
    out
}

proof fn lemma_table_entry(s: Seq<u8>, off: int, size: int, n: int, k: int)
    requires
        0 <= k < n,
        forall|j: int| #![trigger size * j] 0 <= j < n ==> off + size * j + 56 <= s.len(),
    ensures
        phdr_table(s, off, size, n).len() == n,
        phdr_table(s, off, size, n)[k] == phdr_at(s, off + size * k),
    decreases n,
{
    reveal_with_fuel(phdr_table, 2);
    assert(off + size * 0 + 56 <= s.len());
    let next = off + size;
    if n > 1 {
        assert forall|j: int| #![trigger size * j] 0 <= j < n - 1 implies next + size * j + 56
            <= s.len() by {
            assert(size * (j + 1) == size * j + size) by (nonlinear_arith);
            assert(off + size * (j + 1) + 56 <= s.len());
        }
        lemma_table_entry(s, next, size, n - 1, if k > 0 { k - 1 } else { 0 });
    }
    if k > 0 {
        assert(size * (k - 1) == size * k - size) by (nonlinear_arith);
    }
}

/// Where the whole table is in the file, it has as many program headers as the
/// file header says, each as far behind the one before it as the file header says,
/// from the offset on that it says.
pub proof fn lemma_declared_headers(s: Seq<u8>, off: int, size: int, n: int, k: int)
    requires
        field(s, 32, 8) == off,
        field(s, 54, 2) == size,
        field(s, 56, 2) == n,
        0 <= k < n,
        forall|j: int| #![trigger size * j] 0 <= j < n ==> off + size * j + 56 <= s.len(),
    ensures
        file_phdrs(s).len() == n,
        file_phdrs(s)[k] == phdr_at(s, off + size * k),
{
    lemma_field_64(s, 32);
    lemma_field_16(s, 54);
    lemma_field_16(s, 56);
    lemma_table_entry(s, off, size, n, k);
}

} // verus!
