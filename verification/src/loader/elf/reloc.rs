//! ELF relocation engine.
//!
//! Relocating an object is described as the writes it takes; whoever owns the
//! mapping carries them out.
use crate::loader::bytes::{to_unsigned, unsigned};
use crate::loader::elf::header::Arch;
use crate::loader::elf::types::{elf64_r_sym, elf64_r_type, rela_sym, rela_type, Elf64Rela};
use vstd::prelude::*;

verus! {

/// Relocation types without regard to the processor.
#[derive(Clone, Copy, PartialEq, Eq, Debug, Structural)]
pub enum RelocKind {
    Nothing,
    Abs64,
    GlobDat,
    JumpSlot,
    Relative,
    DtpMod64,
    DtpOff64,
    TpOff64,
    TlsDesc,
    IRelative,
}

/// What the relocation type number `typ` means on `arch`.
pub open spec fn kind_of(arch: Arch, typ: u32) -> Option<RelocKind> {
    match arch {
        Arch::X86_64 => if typ == 0 {
            Some(RelocKind::Nothing)
        } else if typ == 1 {
            Some(RelocKind::Abs64)
        } else if typ == 6 {
            Some(RelocKind::GlobDat)
        } else if typ == 7 {
            Some(RelocKind::JumpSlot)
        } else if typ == 8 {
            Some(RelocKind::Relative)
        } else if typ == 16 {
            Some(RelocKind::DtpMod64)
        } else if typ == 17 {
            Some(RelocKind::DtpOff64)
        } else if typ == 18 {
            Some(RelocKind::TpOff64)
        } else if typ == 36 {
            Some(RelocKind::TlsDesc)
        } else if typ == 37 {
            Some(RelocKind::IRelative)
        } else {
            None
        },
        Arch::Aarch64 => if typ == 0 {
            Some(RelocKind::Nothing)
        } else if typ == 257 {
            Some(RelocKind::Abs64)
        } else if typ == 1025 {
            Some(RelocKind::GlobDat)
        } else if typ == 1026 {
            Some(RelocKind::JumpSlot)
        } else if typ == 1027 {
            Some(RelocKind::Relative)
        } else if typ == 1028 {
            Some(RelocKind::DtpMod64)
        } else if typ == 1029 {
            Some(RelocKind::DtpOff64)
        } else if typ == 1030 {
            Some(RelocKind::TpOff64)
        } else if typ == 1031 {
            Some(RelocKind::TlsDesc)
        } else if typ == 1032 {
            Some(RelocKind::IRelative)
        } else {
            None
        },
    }
}

/// Classifies a relocation type number.
pub fn reloc_kind(arch: Arch, typ: u32) -> (r: Option<RelocKind>)
    ensures
        r == kind_of(arch, typ),
{
    match arch {
        Arch::X86_64 => match typ {
            0 => Some(RelocKind::Nothing),
            1 => Some(RelocKind::Abs64),
            6 => Some(RelocKind::GlobDat),
            7 => Some(RelocKind::JumpSlot),
            8 => Some(RelocKind::Relative),
            16 => Some(RelocKind::DtpMod64),
            17 => Some(RelocKind::DtpOff64),
            18 => Some(RelocKind::TpOff64),
            36 => Some(RelocKind::TlsDesc),
            37 => Some(RelocKind::IRelative),
            _ => None,
        },
        Arch::Aarch64 => match typ {
            0 => Some(RelocKind::Nothing),
            257 => Some(RelocKind::Abs64),
            1025 => Some(RelocKind::GlobDat),
            1026 => Some(RelocKind::JumpSlot),
            1027 => Some(RelocKind::Relative),
            1028 => Some(RelocKind::DtpMod64),
            1029 => Some(RelocKind::DtpOff64),
            1030 => Some(RelocKind::TpOff64),
            1031 => Some(RelocKind::TlsDesc),
            1032 => Some(RelocKind::IRelative),
            _ => None,
        },
    }
}

/// Errors from relocation processing.
#[derive(Clone, Copy, PartialEq, Eq, Debug, Structural)]
pub enum RelocError {
    UnsupportedType(u32),
    SymbolNotFound,
    IfuncFailed,
}

/// A TLS descriptor: the resolver function the trampoline jumps to, and the
/// argument it gets.
#[derive(Clone, Copy, PartialEq, Eq, Debug, Structural)]
pub struct TlsdescEntry {
    pub resolver: u64,
    pub arg: u64,
}

/// What the handlers for special relocations answered for one relocation; `None`
/// where there is no handler.
#[derive(Clone, Copy, PartialEq, Eq, Debug, Structural)]
pub struct RelocCtx {
    /// The descriptor for the relocation's symbol and addend, if it has one.
    pub tlsdesc: Option<Option<TlsdescEntry>>,
    /// The function address that the ifunc handler chose, if it chose one.
    pub ifunc: Option<Option<u64>>,
}

impl RelocCtx {
    /// No handlers.
    pub fn empty() -> (r: RelocCtx)
        ensures
            r == (RelocCtx { tlsdesc: None, ifunc: None }),
    {
        RelocCtx { tlsdesc: None, ifunc: None }
    }
}

/// What a relocation does to memory.
#[derive(Clone, Copy, PartialEq, Eq, Debug, Structural)]
pub enum RelocWrite {
    /// Nothing.
    Keep,
    /// Store one word.
    Word { addr: u64, value: u64 },
    /// Store two adjacent words.
    Pair { addr: u64, first: u64, second: u64 },
    /// Call the resolver function and store what it returns.
    CallIfunc { addr: u64, resolver: u64 },
}

/// The effect of the relocation `r` of an object at `base`, with the symbol
/// value `symval`. Sums are modulo 2^64.
pub open spec fn rela_effect(
    arch: Arch,
    base: u64,
    r: Elf64Rela,
    symval: u64,
    ctx: RelocCtx,
) -> Result<RelocWrite, RelocError> {
    let addr = base.wrapping_add(r.r_offset);
    let addend = unsigned(r.r_addend);
    match kind_of(arch, rela_type(r.r_info)) {
        None => Err(RelocError::UnsupportedType(rela_type(r.r_info))),
        Some(RelocKind::Nothing) => Ok(RelocWrite::Keep),
        Some(RelocKind::Relative) => Ok(
            RelocWrite::Word { addr, value: base.wrapping_add(addend) },
        ),
        Some(RelocKind::DtpMod64) => Ok(RelocWrite::Word { addr, value: symval }),
        Some(RelocKind::IRelative) => match ctx.ifunc {
            None => Ok(RelocWrite::CallIfunc { addr, resolver: base.wrapping_add(addend) }),
            Some(None) => Err(RelocError::IfuncFailed),
            Some(Some(value)) => Ok(RelocWrite::Word { addr, value }),
        },
        Some(RelocKind::TlsDesc) => match ctx.tlsdesc {
            Some(Some(entry)) => Ok(
                RelocWrite::Pair { addr, first: entry.resolver, second: entry.arg },
            ),
            _ => Ok(RelocWrite::Keep),
        },
        Some(_) => Ok(RelocWrite::Word { addr, value: symval.wrapping_add(addend) }),
    }
}

/// Applies a single relocation without special handlers.
pub fn apply_rela(arch: Arch, base: u64, r: &Elf64Rela, symval: u64) -> (w: Result<
    RelocWrite,
    RelocError,
>)
    ensures
        w == rela_effect(arch, base, *r, symval, (RelocCtx { tlsdesc: None, ifunc: None })),
{
    apply_rela_ctx(arch, base, r, symval, &RelocCtx::empty())
}

/// Applies a single relocation, given what the special handlers answered.
///
/// Without a TLS descriptor handler the slot is taken to be bound already and is
/// left alone. Without an ifunc handler the resolver has to be called.
pub fn apply_rela_ctx(
    arch: Arch,
    base: u64,
    r: &Elf64Rela,
    symval: u64,
    ctx: &RelocCtx,
) -> (w: Result<RelocWrite, RelocError>)
    ensures
        w == rela_effect(arch, base, *r, symval, *ctx),
{
    let typ: u32 = elf64_r_type(r.r_info);
    let addr: u64 = base.wrapping_add(r.r_offset);
    let addend: u64 = to_unsigned(r.r_addend);
    match reloc_kind(arch, typ) {
        None => Err(RelocError::UnsupportedType(typ)),
        Some(kind) => match kind {
            RelocKind::Nothing => Ok(RelocWrite::Keep),
            RelocKind::Relative => Ok(RelocWrite::Word { addr, value: base.wrapping_add(addend) }),
            RelocKind::DtpMod64 => Ok(RelocWrite::Word { addr, value: symval }),
            RelocKind::IRelative => match ctx.ifunc {
                None => Ok(RelocWrite::CallIfunc { addr, resolver: base.wrapping_add(addend) }),
                Some(None) => Err(RelocError::IfuncFailed),
                Some(Some(value)) => Ok(RelocWrite::Word { addr, value }),
            },
            RelocKind::TlsDesc => match ctx.tlsdesc {
                Some(Some(entry)) => Ok(
                    RelocWrite::Pair { addr, first: entry.resolver, second: entry.arg },
                ),
                _ => Ok(RelocWrite::Keep),
            },
            _ => Ok(RelocWrite::Word { addr, value: symval.wrapping_add(addend) }),
        },
    }
}

/// The symbol that a relocation refers to, if it needs one. Relative, ifunc and
/// TLS descriptor relocations work off the addend or a handler.
pub open spec fn symbol_needed(arch: Arch, r: Elf64Rela) -> Option<u32> {
    let kind = kind_of(arch, rela_type(r.r_info));
    if kind == Some(RelocKind::Relative) || kind == Some(RelocKind::Nothing) || kind == Some(
        RelocKind::IRelative,
    ) || kind == Some(RelocKind::TlsDesc) || rela_sym(r.r_info) == 0 {
        None
    } else {
        Some(rela_sym(r.r_info))
    }
}

/// Which symbol has to be resolved before a relocation can be applied.
pub fn needed_symbol(arch: Arch, r: &Elf64Rela) -> (s: Option<u32>)
    ensures
        s == symbol_needed(arch, *r),
{
    let free: bool = match reloc_kind(arch, elf64_r_type(r.r_info)) {
        Some(RelocKind::Relative) => true,
        Some(RelocKind::Nothing) => true,
        Some(RelocKind::IRelative) => true,
        Some(RelocKind::TlsDesc) => true,
        _ => false,
    };
    let sym: u32 = elf64_r_sym(r.r_info);
    if free || sym == 0 {
        None
    } else {
        Some(sym)
    }
}

/// The effect of one table entry, given how its symbol was resolved.
pub open spec fn entry_effect(
    arch: Arch,
    base: u64,
    r: Elf64Rela,
    resolved: Option<u64>,
    ctx: RelocCtx,
) -> Result<RelocWrite, RelocError> {
    match symbol_needed(arch, r) {
        None => rela_effect(arch, base, r, 0, ctx),
        Some(_) => match resolved {
            None => Err(RelocError::SymbolNotFound),
            Some(v) => rela_effect(arch, base, r, v, ctx),
        },
    }
}

/// The effects of the entries from `i` on, after `writes`, up to the first one
/// that fails.
pub open spec fn table_effects(
    arch: Arch,
    base: u64,
    relas: Seq<Elf64Rela>,
    resolved: Seq<Option<u64>>,
    ctxs: Seq<RelocCtx>,
    i: int,
    writes: Seq<RelocWrite>,
) -> (Seq<RelocWrite>, Option<RelocError>)
    decreases relas.len() - i,
{
    if i >= relas.len() {
        (writes, None)
    } else {
        match entry_effect(arch, base, relas[i], resolved[i], ctxs[i]) {
            Err(e) => (writes, Some(e)),
            Ok(w) => table_effects(
                arch,
                base,
                relas,
                resolved,
                ctxs,
                i + 1,
                writes.push(w),
            ),
        }
    }
}

/// Applies all relocations of a table without special handlers. `resolved[i]` is
/// the value of the symbol that entry `i` needs (see [`needed_symbol`]), if it
/// could be resolved.
pub fn apply_rela_table(arch: Arch, base: u64, relas: &[Elf64Rela], resolved: &[Option<u64>]) -> (r:
    (Vec<RelocWrite>, Result<(), RelocError>))
    requires
        resolved@.len() == relas@.len(),
    ensures
        ({
            let (writes, error) = table_effects(
                arch,
                base,
                relas@,
                resolved@,
                Seq::new(relas@.len(), |i: int| RelocCtx { tlsdesc: None, ifunc: None }),
                0,
                Seq::empty(),
            );
            r.0@ == writes && r.1 == match error {
                None => Ok::<(), RelocError>(()),
                Some(e) => Err::<(), RelocError>(e),
            }
        }),
{
    let mut ctxs: Vec<RelocCtx> = Vec::new();
    let mut i: usize = 0;
    while i < relas.len()
        invariant
            i <= relas@.len(),
            ctxs@.len() == i,
            forall|j: int|
                0 <= j < i ==> ctxs@[j] == (RelocCtx { tlsdesc: None, ifunc: None }),
        decreases relas@.len() - i,
    {
        ctxs.push(RelocCtx::empty());
        i = i + 1;
    }
    assert(ctxs@ =~= Seq::new(relas@.len(), |i: int| RelocCtx { tlsdesc: None, ifunc: None }));
    apply_rela_table_ctx(arch, base, relas, resolved, ctxs.as_slice())
}

/// Applies all relocations of a table, given what the special handlers answered
/// for each. The writes listed are those of the entries before the first one
/// that fails.
pub fn apply_rela_table_ctx(
    arch: Arch,
    base: u64,
    relas: &[Elf64Rela],
    resolved: &[Option<u64>],
    ctxs: &[RelocCtx],
) -> (r: (Vec<RelocWrite>, Result<(), RelocError>))
    requires
        resolved@.len() == relas@.len(),
        ctxs@.len() == relas@.len(),
    ensures
        ({
            let (writes, error) = table_effects(
                arch,
                base,
                relas@,
                resolved@,
                ctxs@,
                0,
                Seq::empty(),
            );
            r.0@ == writes && r.1 == match error {
                None => Ok::<(), RelocError>(()),
                Some(e) => Err::<(), RelocError>(e),
            }
        }),
{
    let mut writes: Vec<RelocWrite> = Vec::new();
    assert(writes@ =~= Seq::empty());
    let mut i: usize = 0;
    while i < relas.len()
        invariant
            i <= relas@.len(),
            resolved@.len() == relas@.len(),
            ctxs@.len() == relas@.len(),
            table_effects(arch, base, relas@, resolved@, ctxs@, 0, Seq::empty()) == table_effects(
                arch,
                base,
                relas@,
                resolved@,
                ctxs@,
                i as int,
                writes@,
            ),
        decreases relas@.len() - i,
    {
        let symval: u64 = match needed_symbol(arch, &relas[i]) {
            None => 0,
            Some(_) => match resolved[i] {
                Some(v) => v,
                None => {
                    return (writes, Err(RelocError::SymbolNotFound));
                },
            },
        };
        match apply_rela_ctx(arch, base, &relas[i], symval, &ctxs[i]) {
            Ok(w) => {
                writes.push(w);
            },
            Err(e) => {
                return (writes, Err(e));
            },
        }
        i = i + 1;
    }
    (writes, Ok(()))
}

// ---------------------------------------------------------------------------
// Laws
// ---------------------------------------------------------------------------

/// Whether a write stores one word, at an address and with a value that are given
/// up to multiples of 2^64.
pub open spec fn stores(w: RelocWrite, addr: int, value: int) -> bool {
    match w {
        RelocWrite::Word { addr: a, value: v } => (a - addr) % 0x1_0000_0000_0000_0000 == 0 && (v
            - value) % 0x1_0000_0000_0000_0000 == 0,
        _ => false,
    }
}

/// Relocations against a symbol, by the number that the processor's ABI gives the
/// type: absolute words, GOT entries of data and of functions, and offsets into
/// TLS blocks. The word stored is the symbol's value plus the addend, wherever the
/// object is loaded.
pub proof fn lemma_symbol_relocations(
    arch: Arch,
    base: u64,
    r: Elf64Rela,
    symval: u64,
    ctx: RelocCtx,
)
    requires
        ({
            let typ = r.r_info as int % 0x1_0000_0000;
            match arch {
                Arch::X86_64 => typ == 1 || typ == 6 || typ == 7 || typ == 17 || typ == 18,
                Arch::Aarch64 => typ == 257 || typ == 1025 || typ == 1026 || typ == 1029 || typ
                    == 1030,
            }
        }),
    ensures
        rela_effect(arch, base, r, symval, ctx) is Ok,
        stores(
            rela_effect(arch, base, r, symval, ctx)->Ok_0,
            base + r.r_offset,
            symval + r.r_addend,
        ),
{
}

/// Relocations against the object itself: the word stored is the load base plus
/// the addend, whatever symbol is given. Moving the object moves the word with it.
pub proof fn lemma_relative_relocations(
    arch: Arch,
    base: u64,
    r: Elf64Rela,
    symval: u64,
    ctx: RelocCtx,
)
    requires
        r.r_info as int % 0x1_0000_0000 == match arch {
            Arch::X86_64 => 8int,
            Arch::Aarch64 => 1027int,
        },
    ensures
        rela_effect(arch, base, r, symval, ctx) is Ok,
        stores(
            rela_effect(arch, base, r, symval, ctx)->Ok_0,
            base + r.r_offset,
            base + r.r_addend,
        ),
{
}

/// The other relocations: a TLS module ID is stored without the addend; an ifunc
/// stores what its resolver, at the load base plus the addend, returns; a TLS
/// descriptor takes two words, or is bound already; type 0 does nothing.
pub proof fn lemma_special_relocations(
    arch: Arch,
    base: u64,
    r: Elf64Rela,
    symval: u64,
    ctx: RelocCtx,
)
    ensures
        ({
            let typ = r.r_info as int % 0x1_0000_0000;
            let (dtpmod, tlsdesc, irelative) = match arch {
                Arch::X86_64 => (16int, 36int, 37int),
                Arch::Aarch64 => (1028int, 1031int, 1032int),
            };
            let w = rela_effect(arch, base, r, symval, ctx);
            &&& typ == 0 ==> w == Ok::<RelocWrite, RelocError>(RelocWrite::Keep)
            &&& typ == dtpmod ==> w is Ok && stores(w->Ok_0, base + r.r_offset, symval as int)
            &&& typ == irelative ==> match ctx.ifunc {
                Some(Some(v)) => w is Ok && stores(w->Ok_0, base + r.r_offset, v as int),
                Some(None) => w == Err::<RelocWrite, RelocError>(RelocError::IfuncFailed),
                None => w is Ok && match w->Ok_0 {
                    RelocWrite::CallIfunc { addr, resolver } => stores(
                        RelocWrite::Word { addr, value: resolver },
                        base + r.r_offset,
                        base + r.r_addend,
                    ),
                    _ => false,
                },
            }
            &&& typ == tlsdesc ==> w is Ok && match ctx.tlsdesc {
                Some(Some(entry)) => match w->Ok_0 {
                    RelocWrite::Pair { addr, first, second } => stores(
                        RelocWrite::Word { addr, value: first },
                        base + r.r_offset,
                        entry.resolver as int,
                    ) && second == entry.arg,
                    _ => false,
                },
                _ => w->Ok_0 == RelocWrite::Keep,
            }
        }),
{
}

/// Every other type is refused, by its number.
pub proof fn lemma_unknown_relocations(
    arch: Arch,
    base: u64,
    r: Elf64Rela,
    symval: u64,
    ctx: RelocCtx,
)
    requires
        ({
            let typ = r.r_info as int % 0x1_0000_0000;
            match arch {
                Arch::X86_64 => !(0 <= typ <= 1) && !(6 <= typ <= 8) && !(16 <= typ <= 18) && !(36
                    <= typ <= 37),
                Arch::Aarch64 => typ != 0 && typ != 257 && !(1025 <= typ <= 1032),
            }
        }),
    ensures
        match rela_effect(arch, base, r, symval, ctx) {
            Err(RelocError::UnsupportedType(typ)) => typ == r.r_info as int % 0x1_0000_0000,
            _ => false,
        },
{
}

proof fn lemma_table_effects(
    arch: Arch,
    base: u64,
    relas: Seq<Elf64Rela>,
    resolved: Seq<Option<u64>>,
    ctxs: Seq<RelocCtx>,
    i: int,
    writes: Seq<RelocWrite>,
)
    requires
        0 <= i <= relas.len(),
        writes.len() == i,
        forall|k: int|
            0 <= k < i ==> entry_effect(arch, base, relas[k], resolved[k], ctxs[k]) == Ok::<
                RelocWrite,
                RelocError,
            >(#[trigger] writes[k]),
    ensures
        ({
            let (done, error) = table_effects(arch, base, relas, resolved, ctxs, i, writes);
            &&& done.len() <= relas.len()
            &&& forall|k: int|
                0 <= k < done.len() ==> entry_effect(
                    arch,
                    base,
                    relas[k],
                    resolved[k],
                    ctxs[k],
                ) == Ok::<RelocWrite, RelocError>(#[trigger] done[k])
            &&& match error {
                None => done.len() == relas.len(),
                Some(e) => done.len() < relas.len() && entry_effect(
                    arch,
                    base,
                    relas[done.len() as int],
                    resolved[done.len() as int],
                    ctxs[done.len() as int],
                ) == Err::<RelocWrite, RelocError>(e),
            }
        }),
    decreases relas.len() - i,
{
    if i < relas.len() {
        match entry_effect(arch, base, relas[i], resolved[i], ctxs[i]) {
            Err(_) => {},
            Ok(w) => {
                lemma_table_effects(arch, base, relas, resolved, ctxs, i + 1, writes.push(w));
            },
        }
    }
}

/// A table that is applied without an error has one write for each entry, in
/// order: entries against a symbol store the symbol's value plus the addend,
/// entries against the object itself the load base plus the addend. An entry
/// without a symbol counts as one whose symbol is 0; an entry whose symbol is not
/// found fails the table.
pub proof fn lemma_table_relocates_every_entry(
    arch: Arch,
    base: u64,
    relas: Seq<Elf64Rela>,
    resolved: Seq<Option<u64>>,
    ctxs: Seq<RelocCtx>,
    i: int,
)
    requires
        table_effects(arch, base, relas, resolved, ctxs, 0, Seq::empty()).1 is None,
        0 <= i < relas.len(),
    ensures
        ({
            let writes = table_effects(arch, base, relas, resolved, ctxs, 0, Seq::empty()).0;
            let r = relas[i];
            let typ = r.r_info as int % 0x1_0000_0000;
            let sym = r.r_info as int / 0x1_0000_0000;
            let (against_symbol, relative) = match arch {
                Arch::X86_64 => (
                    typ == 1 || typ == 6 || typ == 7 || typ == 17 || typ == 18,
                    typ == 8,
                ),
                Arch::Aarch64 => (
                    typ == 257 || typ == 1025 || typ == 1026 || typ == 1029 || typ == 1030,
                    typ == 1027,
                ),
            };
            &&& writes.len() == relas.len()
            &&& relative ==> stores(writes[i], base + r.r_offset, base + r.r_addend)
            &&& against_symbol && sym == 0 ==> stores(
                writes[i],
                base + r.r_offset,
                r.r_addend as int,
            )
            &&& against_symbol && sym != 0 ==> resolved[i] is Some && stores(
                writes[i],
                base + r.r_offset,
                resolved[i]->0 + r.r_addend,
            )
        }),
{
    lemma_table_effects(arch, base, relas, resolved, ctxs, 0, Seq::empty());
}

/// A table fails at the first entry that cannot be applied: one whose symbol is
/// needed and not found, one of an unknown type, or an ifunc that its handler
/// refuses. The writes are those of the entries before it.
pub proof fn lemma_table_stops_at_first_failure(
    arch: Arch,
    base: u64,
    relas: Seq<Elf64Rela>,
    resolved: Seq<Option<u64>>,
    ctxs: Seq<RelocCtx>,
)
    ensures
        ({
            let (writes, error) = table_effects(
                arch,
                base,
                relas,
                resolved,
                ctxs,
                0,
                Seq::empty(),
            );
            let n = writes.len() as int;
            &&& n <= relas.len()
            &&& error is None <==> n == relas.len()
            &&& error is Some ==> ({
                let typ = relas[n].r_info as int % 0x1_0000_0000;
                match error->0 {
                    RelocError::SymbolNotFound => resolved[n] is None && relas[n].r_info as int
                        / 0x1_0000_0000 != 0,
                    RelocError::IfuncFailed => ctxs[n].ifunc == Some(None::<u64>) && typ
                        == match arch {
                        Arch::X86_64 => 37int,
                        Arch::Aarch64 => 1032int,
                    },
                    RelocError::UnsupportedType(t) => t == typ,
                }
            })
        }),
{
    lemma_table_effects(arch, base, relas, resolved, ctxs, 0, Seq::empty());
}

} // verus!
