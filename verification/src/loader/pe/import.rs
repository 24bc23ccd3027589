//! PE import tables of mapped images.
use crate::loader::bytes::{
    c_str, has_record, le_u16, le_u32, lemma_field_32, read_c_str, read_u16, read_u32,
};
use crate::loader::pe::types::ImportDescriptor;
use vstd::prelude::*;

verus! {

/// The import descriptor at `off`.
pub open spec fn descriptor_at(s: Seq<u8>, off: int) -> ImportDescriptor {
    ImportDescriptor {
        original_first_thunk: le_u32(s, off),
        time_date_stamp: le_u32(s, off + 4),
        forwarder_chain: le_u32(s, off + 8),
        name: le_u32(s, off + 12),
        first_thunk: le_u32(s, off + 16),
    }
}

/// The descriptors of a table from `off` on, of which `n` are declared, up to
/// the null descriptor that ends it or the end of the image.
pub open spec fn descriptors_from(s: Seq<u8>, off: int, n: int) -> Seq<ImportDescriptor>
    decreases n,
{
    let d = descriptor_at(s, off);
    if n <= 0 || off + 20 > s.len() || (d.name == 0 && d.first_thunk == 0) {
        Seq::empty()
    } else {
        seq![d] + descriptors_from(s, off + 20, n - 1)
    }
}

/// Walks the import directory of the image mapped at `image_base`, and yields
/// each import descriptor.
pub fn iter_import_descriptors<'a>(
    image: &'a [u8],
    image_base: u64,
    import_rva: u32,
    import_size: u32,
) -> (r: ImportIter<'a>)
    ensures
        r.image() == image@,
        r.base() == image_base,
        r.remaining() == descriptors_from(image@, import_rva as int, import_size as int / 20),
{
    ImportIter { image, base: image_base, off: import_rva as u64, left: import_size / 20 }
}

/// Iterator over PE import descriptors.
pub struct ImportIter<'a> {
    image: &'a [u8],
    base: u64,
    off: u64,
    left: u32,
}

impl<'a> ImportIter<'a> {
    pub closed spec fn image(&self) -> Seq<u8> {
        self.image@
    }

    pub closed spec fn base(&self) -> u64 {
        self.base
    }

    /// What is still to come.
    pub closed spec fn remaining(&self) -> Seq<ImportDescriptor> {
        descriptors_from(self.image@, self.off as int, self.left as int)
    }

    /// The next descriptor.
    pub fn next(&mut self) -> (r: Option<ImportEntry<'a>>)
        ensures
            final(self).image() == old(self).image(),
            final(self).base() == old(self).base(),
            match r {
                Some(e) => old(self).remaining().len() > 0 && e.desc == old(self).remaining()[0]
                    && e.image@ == old(self).image() && e.base == old(self).base()
                    && final(self).remaining() == old(self).remaining().skip(1),
                None => old(self).remaining().len() == 0 && final(self).remaining()
                    == old(self).remaining(),
            },
    {
        let len: u64 = self.image.len() as u64;
        if self.left == 0 || len < 20 || self.off > len - 20 {
            return None;
        }
        let at: usize = self.off as usize;
        let desc = ImportDescriptor {
            original_first_thunk: read_u32(self.image, at),
            time_date_stamp: read_u32(self.image, at + 4),
            forwarder_chain: read_u32(self.image, at + 8),
            name: read_u32(self.image, at + 12),
            first_thunk: read_u32(self.image, at + 16),
        };
        if desc.name == 0 && desc.first_thunk == 0 {
            return None;
        }
        proof {
            let rest = descriptors_from(self.image@, self.off + 20, self.left - 1);
            assert((seq![desc] + rest).skip(1) =~= rest);
        }
        self.off = self.off + 20;
        self.left = self.left - 1;
        Some(ImportEntry { image: self.image, base: self.base, desc })
    }
}

/// A single import directory entry.
pub struct ImportEntry<'a> {
    pub image: &'a [u8],
    pub base: u64,
    pub desc: ImportDescriptor,
}

impl<'a> ImportEntry<'a> {
    /// The module name; empty if it is not in the image.
    pub open spec fn name(&self) -> Seq<u8> {
        if self.desc.name <= self.image@.len() {
            c_str(self.image@, self.desc.name as int)
        } else {
            Seq::empty()
        }
    }

    /// Returns the module name.
    pub fn dll_name(&self) -> (r: &'a [u8])
        ensures
            r@ == self.name(),
    {
        let len: usize = self.image.len();
        if self.desc.name as u64 > len as u64 {
            let none: &'a [u8] = vstd::slice::slice_subrange(self.image, 0, 0);
            assert(none@ =~= Seq::empty());
            return none;
        }
        read_c_str(self.image, self.desc.name as usize)
    }

    /// Returns the RVA of the lookup table. Falls back to the address table if
    /// there is none.
    pub fn lookup_table_rva(&self) -> (r: u32)
        ensures
            r == if self.desc.original_first_thunk != 0 {
                self.desc.original_first_thunk
            } else {
                self.desc.first_thunk
            },
    {
        if self.desc.original_first_thunk != 0 {
            self.desc.original_first_thunk
        } else {
            self.desc.first_thunk
        }
    }

    /// Returns the address of the import address table, for patching.
    pub fn iat_ptr(&self) -> (r: u64)
        requires
            self.base + self.desc.first_thunk <= u64::MAX,
        ensures
            r == self.base + self.desc.first_thunk,
    {
        self.base + self.desc.first_thunk as u64
    }
}

/// Checks if a lookup entry is an ordinal import (bit 63 set).
pub fn is_ordinal(entry: u64) -> (r: bool)
    ensures
        r == (entry >= 0x8000_0000_0000_0000),
{
    entry >= 0x8000_0000_0000_0000
}

/// Extracts the ordinal number from an ordinal lookup entry.
pub fn ordinal(entry: u64) -> (r: u16)
    ensures
        r == entry % 0x1_0000,
{
    (entry % 0x1_0000) as u16
}

/// Extracts the RVA of the hint and name from a named lookup entry.
pub fn hint_name_rva(entry: u64) -> (r: u32)
    ensures
        r == entry % 0x1_0000_0000,
{
    (entry % 0x1_0000_0000) as u32
}

/// Reads the hint of a hint/name entry, if it is in the image.
pub fn hint_name_hint(image: &[u8], rva: u32) -> (r: Option<u16>)
    ensures
        r == if rva + 2 <= image@.len() {
            Some(le_u16(image@, rva as int))
        } else {
            None
        },
{
    if rva as u64 + 2 > image.len() as u64 {
        return None;
    }
    Some(read_u16(image, rva as usize))
}

/// Reads the name of a hint/name entry, if it is in the image.
pub fn hint_name_name(image: &[u8], rva: u32) -> (r: Option<&[u8]>)
    ensures
        match r {
            Some(name) => rva + 2 <= image@.len() && name@ == c_str(image@, rva + 2),
            None => rva + 2 > image@.len(),
        },
{
    if rva as u64 + 2 > image.len() as u64 {
        return None;
    }
    Some(read_c_str(image, rva as usize + 2))
}

/// An import descriptor is name table, time, forwarder chain, module name and address
/// table, one behind the other.
pub proof fn lemma_import_record(s: Seq<u8>, off: int, v: Seq<int>)
    requires
        has_record(s, off, seq![4int, 4, 4, 4, 4], v, 0),
    ensures
        descriptor_at(s, off).original_first_thunk == v[0],
        descriptor_at(s, off).time_date_stamp == v[1],
        descriptor_at(s, off).forwarder_chain == v[2],
        descriptor_at(s, off).name == v[3],
        descriptor_at(s, off).first_thunk == v[4],
{
    reveal_with_fuel(has_record, 6);
    lemma_field_32(s, off);
    lemma_field_32(s, off + 4);
    lemma_field_32(s, off + 8);
    lemma_field_32(s, off + 12);
    lemma_field_32(s, off + 16);
}

} // verus!
