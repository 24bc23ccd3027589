//! Placement of an image into the linker's own address space.
//!
//! Each run is mapped through an alias of the code object with the rights that
//! the run needs and no others: text without write, data without execute.
use crate::kernel::core_types::CapRef;
use crate::loader::image::{
    executable, image_calls, map_image, run_is_wx_safe, writable, Carve, ImageEnvelope, ImageId,
    ImageIdKind, ImageRunKind, PlacementSink, Run, RunPlan, RunSource, SinkCall,
};
use crate::loader::rtld::elf::load::LoadError;
use vstd::prelude::*;

verus! {

/// Why placing an image failed.
#[derive(Clone, Copy, PartialEq, Eq, Debug, Structural)]
pub enum SinkError {
    /// No room for the envelope.
    Reserve,
    /// No alias of the code object.
    Alias,
    /// A run could not be mapped.
    MapRun,
}

/// The load error for a placement error.
pub fn placement_error(e: SinkError) -> (r: LoadError)
    ensures
        r == match e {
            SinkError::Reserve => LoadError::ImageReserveFailed,
            SinkError::Alias => LoadError::ImageAliasFailed,
            SinkError::MapRun => LoadError::ImageMapRunFailed,
        },
{
    match e {
        SinkError::Reserve => LoadError::ImageReserveFailed,
        SinkError::Alias => LoadError::ImageAliasFailed,
        SinkError::MapRun => LoadError::ImageMapRunFailed,
    }
}

/// Rights of a capability.
#[derive(Clone, Copy, PartialEq, Eq, Debug, Structural)]
pub struct AliasRights {
    pub read: bool,
    pub grant: bool,
    pub transfer: bool,
    pub execute: bool,
}

/// Rights of the alias for a run. All can be granted on and transferred; text
/// keeps the right to execute, nothing else has it.
pub fn alias_rights(kind: ImageRunKind) -> (r: AliasRights)
    ensures
        r == (AliasRights {
            read: true,
            grant: true,
            transfer: true,
            execute: kind == ImageRunKind::Text,
        }),
{
    AliasRights {
        read: true,
        grant: true,
        transfer: true,
        execute: match kind {
            ImageRunKind::Text => true,
            _ => false,
        },
    }
}

/// How a run is mapped, and what it contributes to the image.
#[derive(Clone, Copy, PartialEq, Eq, Debug, Structural)]
pub enum PlaceRun {
    /// As zero-fill.
    Anon { va: u64, bytes: u64, prot: u8, kind: ImageRunKind },
    /// From the code object at an offset, shared or as a private copy; then
    /// `clear` bytes from `clear_at` on are zeroed, and if `protect` is there the
    /// run gets that protection.
    FromMo {
        va: u64,
        bytes: u64,
        prot: u8,
        kind: ImageRunKind,
        private: bool,
        offset: u64,
        rights: AliasRights,
        clear_at: u64,
        clear: u64,
        protect: Option<u8>,
    },
}

/// Whether a run is read-only data with a tail to be zeroed. Such a run is
/// writable until that is done.
pub open spec fn needs_write(run: Run) -> bool {
    run.kind == ImageRunKind::RoData && match run.source {
        RunSource::PrivateFromCodeMo { mo_offset_pages, file_bytes } => file_bytes < run.bytes,
        _ => false,
    }
}

/// How a run is mapped.
pub open spec fn placement(run: Run) -> PlaceRun {
    let rights = AliasRights {
        read: true,
        grant: true,
        transfer: true,
        execute: run.kind == ImageRunKind::Text,
    };
    match run.source {
        RunSource::ZeroFill => PlaceRun::Anon {
            va: run.va,
            bytes: run.bytes,
            prot: run.prot.0,
            kind: run.kind,
        },
        RunSource::CleanFromCodeMo { mo_offset_pages } => PlaceRun::FromMo {
            va: run.va,
            bytes: run.bytes,
            prot: run.prot.0,
            kind: run.kind,
            private: false,
            offset: (mo_offset_pages * 4096) as u64,
            rights,
            clear_at: 0,
            clear: 0,
            protect: None,
        },
        RunSource::PrivateFromCodeMo { mo_offset_pages, file_bytes } => PlaceRun::FromMo {
            va: run.va,
            bytes: run.bytes,
            prot: if needs_write(run) {
                run.prot.0 | 2
            } else {
                run.prot.0
            },
            kind: run.kind,
            private: true,
            offset: (mo_offset_pages * 4096) as u64,
            rights,
            clear_at: if file_bytes < run.bytes {
                (run.va + file_bytes) as u64
            } else {
                0
            },
            clear: if file_bytes < run.bytes {
                (run.bytes - file_bytes) as u64
            } else {
                0
            },
            protect: if needs_write(run) {
                Some(run.prot.0)
            } else {
                None
            },
        },
    }
}

/// Whether the offsets of a run can be computed.
pub open spec fn run_fits(run: Run) -> bool {
    &&& run.va + run.bytes <= u64::MAX
    &&& match run.source {
        RunSource::ZeroFill => true,
        RunSource::CleanFromCodeMo { mo_offset_pages } => mo_offset_pages * 4096 <= u64::MAX,
        RunSource::PrivateFromCodeMo { mo_offset_pages, file_bytes } => mo_offset_pages * 4096
            <= u64::MAX,
    }
}

/// How to map a run.
pub fn place_run(run: &Run) -> (r: PlaceRun)
    requires
        run_fits(*run),
    ensures
        r == placement(*run),
{
    let rights: AliasRights = alias_rights(run.kind);
    match run.source {
        RunSource::ZeroFill => PlaceRun::Anon {
            va: run.va,
            bytes: run.bytes,
            prot: run.prot.0,
            kind: run.kind,
        },
        RunSource::CleanFromCodeMo { mo_offset_pages } => PlaceRun::FromMo {
            va: run.va,
            bytes: run.bytes,
            prot: run.prot.0,
            kind: run.kind,
            private: false,
            offset: mo_offset_pages * 4096,
            rights,
            clear_at: 0,
            clear: 0,
            protect: None,
        },
        RunSource::PrivateFromCodeMo { mo_offset_pages, file_bytes } => {
            let tail: bool = file_bytes < run.bytes;
            let write: bool = tail && match run.kind {
                ImageRunKind::RoData => true,
                _ => false,
            };
            PlaceRun::FromMo {
                va: run.va,
                bytes: run.bytes,
                prot: if write {
                    run.prot.0 | 2
                } else {
                    run.prot.0
                },
                kind: run.kind,
                private: true,
                offset: mo_offset_pages * 4096,
                rights,
                clear_at: if tail {
                    run.va + file_bytes
                } else {
                    0
                },
                clear: if tail {
                    run.bytes - file_bytes
                } else {
                    0
                },
                protect: if write {
                    Some(run.prot.0)
                } else {
                    None
                },
            }
        },
    }
}

/// No memory is ever writable and executable, not even while an image is placed;
/// what ends up executable comes with the right to execute, and nothing else
/// does; and every run ends up with its own protection, as what it is.
pub proof fn lemma_placement_is_wx_safe(run: Run)
    requires
        run_is_wx_safe(run),
    ensures
        match placement(run) {
            PlaceRun::Anon { va, bytes, prot, kind } => {
                &&& !(writable(prot) && executable(prot))
                &&& prot == run.prot.0
                &&& kind == run.kind
            },
            PlaceRun::FromMo {
                va,
                bytes,
                prot,
                kind,
                private,
                offset,
                rights,
                clear_at,
                clear,
                protect,
            } => {
                &&& !(writable(prot) && executable(prot))
                &&& kind == run.kind
                &&& rights.execute == executable(run.prot.0)
                &&& match protect {
                    Some(p) => p == run.prot.0,
                    None => prot == run.prot.0,
                }
            },
        },
{
    let p = run.prot.0;
    assert((p | 2) & 4 == p & 4) by (bit_vector);
}

/// The handle of an image in a reservation.
pub fn reserved_image(image_id: u64) -> (r: ImageId)
    ensures
        r == (ImageId {
            kind: ImageIdKind::MmsrvReservation,
            flags: 0,
            value0: image_id,
            value1: 0,
        }),
{
    ImageId { kind: ImageIdKind::MmsrvReservation, flags: 0, value0: image_id, value1: 0 }
}

/// Collects what placing an image into the linker's own address space takes. The
/// reservation for the envelope is made beforehand.
pub struct SelfSink {
    /// The reservation, if it could be made.
    pub reservation: Option<u64>,
    /// How each run is mapped, in order.
    pub steps: Vec<PlaceRun>,
    /// What was asked of the sink.
    pub log: Ghost<Seq<SinkCall<CapRef, SinkError>>>,
}

impl SelfSink {
    /// Nothing is placed yet.
    pub fn new(reservation: Option<u64>) -> (r: SelfSink)
        ensures
            r.reservation == reservation,
            r.steps@.len() == 0,
            r.calls().len() == 0,
    {
        SelfSink { reservation, steps: Vec::new(), log: Ghost(Seq::empty()) }
    }
}

impl PlacementSink for SelfSink {
    type CodeMo = CapRef;

    type Error = SinkError;

    open spec fn calls(&self) -> Seq<SinkCall<CapRef, SinkError>> {
        self.log@
    }

    fn begin_image(&mut self, code_mo: CapRef, envelope: ImageEnvelope, carves: &[Carve]) -> (r:
        Result<ImageId, SinkError>)
        ensures
            final(self).reservation == old(self).reservation,
            final(self).steps == old(self).steps,
            match old(self).reservation {
                Some(id) => r is Ok && r->Ok_0.value0 == id,
                None => r == Err::<ImageId, SinkError>(SinkError::Reserve),
            },
    {
        let r: Result<ImageId, SinkError> = match self.reservation {
            Some(id) => Ok(reserved_image(id)),
            None => Err(SinkError::Reserve),
        };
        proof {
            self.log@ = self.log@.push(
                SinkCall::Begin { code_mo, envelope, carves: carves@, begun: r },
            );
        }
        r
    }

    fn place_run(&mut self, image: ImageId, run: &Run) -> (r: Result<(), SinkError>)
        ensures
            final(self).reservation == old(self).reservation,
            if run_fits(*run) {
                r is Ok && final(self).steps@ == old(self).steps@.push(placement(*run))
            } else {
                r == Err::<(), SinkError>(SinkError::MapRun) && final(self).steps
                    == old(self).steps
            },
    {
        let fits: bool = run_is_representable(run);
        if fits {
            self.steps.push(place_run(run));
        }
        let r: Result<(), SinkError> = if fits {
            Ok(())
        } else {
            Err(SinkError::MapRun)
        };
        proof {
            self.log@ = self.log@.push(SinkCall::Place { image, run: *run, answer: r });
        }
        r
    }

    fn finish_image(&mut self, image: ImageId) -> (r: Result<(), SinkError>)
        ensures
            r is Ok,
            final(self).steps == old(self).steps,
    {
        proof {
            self.log@ = self.log@.push(SinkCall::Finish { image, answer: Ok(()) });
        }
        Ok(())
    }

    fn abort_image(&mut self, image: ImageId)
        ensures
            final(self).steps@.len() == 0,
    {
        self.steps = Vec::new();
        proof {
            self.log@ = self.log@.push(SinkCall::Abort { image });
        }
    }
}

/// Places a planned image through a sink. Returns the reservation that the image
/// is torn down by.
pub fn place_image<S: PlacementSink>(sink: &mut S, code_mo: S::CodeMo, plan: &RunPlan<'_>) -> (r:
    Result<u64, S::Error>)
    ensures
        exists|
            answer: Result<ImageId, S::Error>,
            calls: Seq<SinkCall<S::CodeMo, S::Error>>,
            placed: Result<ImageId, S::Error>,
        |
            {
                &&& final(sink).calls() == old(sink).calls() + calls
                &&& #[trigger] image_calls(
                    code_mo,
                    plan.envelope,
                    plan.runs@,
                    plan.carves@,
                    answer,
                    calls,
                    placed,
                )
                &&& r == match placed {
                    Ok(image) => Ok::<u64, S::Error>(image.value0),
                    Err(e) => Err::<u64, S::Error>(e),
                }
            },
{
    match map_image(sink, code_mo, plan) {
        Ok(id) => Ok(id.value0),
        Err(e) => Err(e),
    }
}

/// Whether the offsets of a run can be computed.
pub fn run_is_representable(run: &Run) -> (r: bool)
    ensures
        r == run_fits(*run),
{
    if run.bytes > u64::MAX - run.va {
        return false;
    }
    match run.source {
        RunSource::ZeroFill => true,
        RunSource::CleanFromCodeMo { mo_offset_pages } => mo_offset_pages <= u64::MAX / 4096,
        RunSource::PrivateFromCodeMo { mo_offset_pages, file_bytes } => mo_offset_pages
            <= u64::MAX / 4096,
    }
}

} // verus!
