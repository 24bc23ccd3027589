//! Which linker a process needs.
use crate::kernel::core_types::{SALTYOS_IMAGE_KIND_ELF, SALTYOS_IMAGE_KIND_PE};
use crate::loader::rtld::io::AuxvInfo;
use vstd::prelude::*;

verus! {

/// What is started.
#[derive(Clone, Copy, PartialEq, Eq, Debug, Structural)]
pub enum StartupKind {
    Pe,
    Elf,
    Unsupported,
}

/// Chooses the linker by the kind of the main image; a process without one that
/// has program headers is an ELF process.
pub fn rtld_main(auxv: &AuxvInfo) -> (r: StartupKind)
    ensures
        r == if auxv.main_image.kind == 2 {
            StartupKind::Pe
        } else if auxv.main_image.kind == 1 || (auxv.at_phdr != 0 && auxv.at_phnum != 0) {
            StartupKind::Elf
        } else {
            StartupKind::Unsupported
        },
{
    if auxv.main_image.kind == SALTYOS_IMAGE_KIND_PE {
        StartupKind::Pe
    } else if auxv.main_image.kind == SALTYOS_IMAGE_KIND_ELF {
        StartupKind::Elf
    } else if auxv.at_phdr != 0 && auxv.at_phnum != 0 {
        StartupKind::Elf
    } else {
        StartupKind::Unsupported
    }
}

} // verus!
