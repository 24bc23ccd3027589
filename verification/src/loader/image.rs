//! Backend-agnostic image placement core.
//!
//! A loadable image (ELF or PE) is reduced to a [`RunPlan`]: an envelope of
//! reserved virtual address space plus a list of [`Run`]s, each describing a
//! page-aligned range, its final protection, and where its bytes come from. A
//! [`PlacementSink`] then realizes each run against a concrete backend.
//! [`map_image`] is the shared orchestration that walks the plan.
use vstd::prelude::*;

verus! {

/// POSIX protection bits, matching the values the kernel map surfaces expect.
pub const PROT_READ: u8 = 0x1;

pub const PROT_WRITE: u8 = 0x2;

pub const PROT_EXEC: u8 = 0x4;

/// A POSIX protection mask (`PROT_READ | PROT_WRITE | PROT_EXEC`).
#[derive(Clone, Copy, PartialEq, Eq, Debug, Structural)]
pub struct Prot(pub u8);

impl Prot {
    /// Whether `bit` is set in the mask.
    pub fn contains(self, bit: u8) -> (r: bool)
        ensures
            r == (self.0 & bit != 0),
    {
        self.0 & bit != 0
    }
}

/// The mask of readable memory that is executable, writable, both or neither.
pub open spec fn prot_bits(exec: bool, write: bool) -> u8 {
    if exec {
        if write {
            7
        } else {
            5
        }
    } else {
        if write {
            3
        } else {
            1
        }
    }
}

/// Whether a mask allows writing.
pub open spec fn writable(prot: u8) -> bool {
    prot & 2 != 0
}

/// Whether a mask allows executing.
pub open spec fn executable(prot: u8) -> bool {
    prot & 4 != 0
}

pub proof fn lemma_prot_bits(exec: bool, write: bool)
    ensures
        writable(prot_bits(exec, write)) == write,
        executable(prot_bits(exec, write)) == exec,
{
    assert(1u8 & 2 == 0 && 1u8 & 4 == 0 && 3u8 & 2 == 2 && 3u8 & 4 == 0 && 5u8 & 2 == 0 && 5u8 & 4
        == 4 && 7u8 & 2 == 2 && 7u8 & 4 == 4) by (bit_vector);
}

/// What a run contributes to the image, independent of where its bytes live.
#[derive(Clone, Copy, PartialEq, Eq, Debug, Structural)]
pub enum ImageRunKind {
    /// Executable code, shared `R-X` from the execute-bearing code object.
    Text,
    /// Read-only data, shared `R--` from a no-execute alias of the code object.
    RoData,
    /// Writable initialized data, a private copy-on-write child, `R-W`.
    Data,
    /// Zero-initialized data, private zero-fill, `R-W`.
    Bss,
}

/// Where a run's bytes come from, in terms of the shared code object.
#[derive(Clone, Copy, PartialEq, Eq, Debug, Structural)]
pub enum RunSource {
    /// Map the code object's pages directly, starting at page `mo_offset_pages`.
    CleanFromCodeMo { mo_offset_pages: u64 },
    /// Clone the code object's pages into a private child and zero the tail
    /// beyond `file_bytes`.
    PrivateFromCodeMo { mo_offset_pages: u64, file_bytes: u64 },
    /// No backing object: pure zero-fill.
    ZeroFill,
}

/// One page-aligned span of the image with a uniform protection and source.
#[derive(Clone, Copy, PartialEq, Eq, Debug, Structural)]
pub struct Run {
    /// Run start, an absolute virtual address (page-aligned).
    pub va: u64,
    /// Run length in bytes (a multiple of the page size).
    pub bytes: u64,
    /// Final protection for the run.
    pub prot: Prot,
    /// What the run contributes.
    pub kind: ImageRunKind,
    /// Where the run's bytes come from.
    pub source: RunSource,
}

impl Run {
    /// A placeholder used to initialize fixed-size plan buffers.
    pub fn empty() -> (r: Run)
        ensures
            r == (Run {
                va: 0,
                bytes: 0,
                prot: Prot(0),
                kind: ImageRunKind::Bss,
                source: RunSource::ZeroFill,
            }),
    {
        Run {
            va: 0,
            bytes: 0,
            prot: Prot(0),
            kind: ImageRunKind::Bss,
            source: RunSource::ZeroFill,
        }
    }
}

/// A run never is both writable and executable; executable runs are shared
/// text; writable runs are private data or zero-fill.
pub open spec fn run_is_wx_safe(run: Run) -> bool {
    &&& !(writable(run.prot.0) && executable(run.prot.0))
    &&& executable(run.prot.0) ==> run.kind == ImageRunKind::Text
        && run.source is CleanFromCodeMo
    &&& writable(run.prot.0) ==> run.kind == ImageRunKind::Data || run.kind == ImageRunKind::Bss
    &&& run.kind == ImageRunKind::Text ==> executable(run.prot.0)
}

/// Runs are whole pages, in ascending order, without overlap, in `lo..hi`.
pub open spec fn runs_in_order(runs: Seq<Run>, lo: int, hi: int) -> bool {
    &&& forall|i: int|
        0 <= i < runs.len() ==> {
            let run = #[trigger] runs[i];
            &&& run.va % 4096 == 0
            &&& run.bytes % 4096 == 0
            &&& run.bytes > 0
            &&& lo <= run.va
            &&& run.va + run.bytes <= hi
        }
    &&& forall|i: int, j: int|
        0 <= i < j < runs.len() ==> (#[trigger] runs[i]).va + runs[i].bytes <= (
        #[trigger] runs[j]).va
}

/// Whether a run holds the page at `page` with protection `prot`.
pub open spec fn run_holds(run: Run, page: int, prot: u8) -> bool {
    run.va <= page < run.va + run.bytes && run.prot.0 == prot
}

/// Where in the code object the byte of a run at an address comes from; a byte
/// that comes from nowhere is zero.
pub open spec fn source_offset(run: Run, a: int) -> Option<int> {
    match run.source {
        RunSource::CleanFromCodeMo { mo_offset_pages } => Some(
            mo_offset_pages * 4096 + (a - run.va),
        ),
        RunSource::PrivateFromCodeMo { mo_offset_pages, file_bytes } => if a - run.va < file_bytes {
            Some(mo_offset_pages * 4096 + (a - run.va))
        } else {
            None
        },
        RunSource::ZeroFill => None,
    }
}

/// The reserved virtual-address envelope of an image. Inter-segment holes stay
/// reserved so nothing else lands inside the image's span.
#[derive(Clone, Copy, PartialEq, Eq, Debug, Structural)]
pub struct ImageEnvelope {
    /// Envelope start (page-aligned, absolute).
    pub base: u64,
    /// Envelope length in bytes (page-aligned).
    pub bytes: u64,
    /// The load bias applied to the image's link-time addresses.
    pub load_base: u64,
    /// The image entry point, an absolute virtual address.
    pub entry_pc: u64,
}

/// How an [`ImageId`]'s opaque words should be read back.
#[derive(Clone, Copy, PartialEq, Eq, Debug, Structural)]
pub enum ImageIdKind {
    /// No teardown handle (e.g. a permanently pinned boot image).
    NoHandle,
    /// A memory-manager reservation id; `value0` is its packed form.
    MmsrvReservation,
    /// A directly mapped envelope; `value0`/`value1` are its base/bytes.
    DirectEnvelope,
}

/// A backend-opaque handle to a placed image, used for later teardown.
#[derive(Clone, Copy, PartialEq, Eq, Debug, Structural)]
pub struct ImageId {
    pub kind: ImageIdKind,
    pub flags: u32,
    pub value0: u64,
    pub value1: u64,
}

impl ImageId {
    /// The handle of an image that is never torn down.
    pub fn none() -> (r: ImageId)
        ensures
            r == (ImageId { kind: ImageIdKind::NoHandle, flags: 0, value0: 0, value1: 0 }),
    {
        ImageId { kind: ImageIdKind::NoHandle, flags: 0, value0: 0, value1: 0 }
    }
}

/// A region that must be writable after the image is otherwise mapped: import
/// address tables, delay-import tables and module handles, the TLS index slot.
#[derive(Clone, Copy, PartialEq, Eq, Debug, Structural)]
pub struct Carve {
    pub rva: u64,
    pub bytes: u64,
}

/// A produced placement plan: the reserved envelope plus the runs that fill it.
pub struct RunPlan<'a> {
    pub envelope: ImageEnvelope,
    pub runs: &'a [Run],
    /// PE post-map writable regions (empty for ELF).
    pub carves: &'a [Carve],
}

/// What a placement backend was asked, with its answer.
pub enum SinkCall<M, E> {
    Begin {
        code_mo: M,
        envelope: ImageEnvelope,
        carves: Seq<Carve>,
        begun: Result<ImageId, E>,
    },
    Place { image: ImageId, run: Run, answer: Result<(), E> },
    Finish { image: ImageId, answer: Result<(), E> },
    Abort { image: ImageId },
}

/// Realizes a [`RunPlan`] against a concrete backend.
///
/// A sink must never confer EXECUTE (the `code_mo` already carries it); it only
/// narrows. `calls` is the history of what the sink was asked and what it
/// answered; every method adds its own call to it.
pub trait PlacementSink {
    /// The sink's reference to the shared code object.
    type CodeMo: Copy;

    /// The sink's error type.
    type Error;

    /// The history of the sink. One that takes part in no proof leaves it open.
    open spec fn calls(&self) -> Seq<SinkCall<Self::CodeMo, Self::Error>> {
        arbitrary()
    }

    /// Reserve the envelope and record the image. Returns the teardown handle.
    fn begin_image(
        &mut self,
        code_mo: Self::CodeMo,
        envelope: ImageEnvelope,
        carves: &[Carve],
    ) -> (r: Result<ImageId, Self::Error>)
        ensures
            final(self).calls() == old(self).calls().push(
                SinkCall::Begin { code_mo, envelope, carves: carves@, begun: r },
            ),
    ;

    /// Place one run into the image started by `begin_image`.
    fn place_run(&mut self, image: ImageId, run: &Run) -> (r: Result<(), Self::Error>)
        ensures
            final(self).calls() == old(self).calls().push(
                SinkCall::Place { image, run: *run, answer: r },
            ),
    ;

    /// Finalize the image after every run is placed.
    fn finish_image(&mut self, image: ImageId) -> (r: Result<(), Self::Error>)
        ensures
            final(self).calls() == old(self).calls().push(
                SinkCall::Finish { image, answer: r },
            ),
    ;

    /// Tear down a partially placed image after an error.
    fn abort_image(&mut self, image: ImageId)
        ensures
            final(self).calls() == old(self).calls().push(SinkCall::Abort { image }),
    ;
}

/// The calls that place the first `n` runs.
pub open spec fn placed_runs<M, E>(image: ImageId, runs: Seq<Run>, n: int) -> Seq<SinkCall<M, E>> {
    Seq::new(n as nat, |i: int| SinkCall::Place { image, run: runs[i], answer: Ok(()) })
}

/// What [`map_image`] asks of its sink and returns, given the answer to the first
/// call: either every run is placed and the image finished, or the first refused
/// call is followed by an abort, and its error is the result.
pub open spec fn image_calls<M, E>(
    code_mo: M,
    envelope: ImageEnvelope,
    runs: Seq<Run>,
    carves: Seq<Carve>,
    answer: Result<ImageId, E>,
    calls: Seq<SinkCall<M, E>>,
    result: Result<ImageId, E>,
) -> bool {
    let begin = seq![SinkCall::Begin { code_mo, envelope, carves, begun: answer }];
    match answer {
        Err(_) => result == answer && calls == begin,
        Ok(image) => match result {
            Ok(_) => result == answer && calls == begin + placed_runs(
                image,
                runs,
                runs.len() as int,
            ) + seq![SinkCall::Finish { image, answer: Ok(()) }],
            Err(e) => {
                ||| exists|n: int|
                    0 <= n < runs.len() && calls == begin + #[trigger] placed_runs(image, runs, n)
                        + seq![
                        SinkCall::Place { image, run: runs[n], answer: Err(e) },
                        SinkCall::Abort { image },
                    ]
                ||| calls == begin + placed_runs(image, runs, runs.len() as int) + seq![
                    SinkCall::Finish { image, answer: Err(e) },
                    SinkCall::Abort { image },
                ]
            },
        },
    }
}

/// Walk a [`RunPlan`], placing each run through `sink`. On any error the
/// partially placed image is aborted and the error returned.
pub fn map_image<S: PlacementSink>(sink: &mut S, code_mo: S::CodeMo, plan: &RunPlan<'_>) -> (r:
    Result<ImageId, S::Error>)
    ensures
        exists|answer: Result<ImageId, S::Error>, calls: Seq<SinkCall<S::CodeMo, S::Error>>|
            final(sink).calls() == old(sink).calls() + calls && #[trigger] image_calls(
                code_mo,
                plan.envelope,
                plan.runs@,
                plan.carves@,
                answer,
                calls,
                r,
            ),
{
    let ghost start = sink.calls();
    let begun: Result<ImageId, S::Error> = sink.begin_image(code_mo, plan.envelope, plan.carves);
    let ghost answer = begun;
    let ghost begin = seq![
        SinkCall::Begin { code_mo, envelope: plan.envelope, carves: plan.carves@, begun: answer },
    ];
    let ghost runs = plan.runs@;
    let id: ImageId = match begun {
        Ok(id) => id,
        Err(e) => {
            proof {
                assert(sink.calls() =~= start + begin);
                assert(image_calls(
                    code_mo,
                    plan.envelope,
                    runs,
                    plan.carves@,
                    answer,
                    begin,
                    answer,
                ));
            }
            return Err(e);
        },
    };
    let mut i: usize = 0;
    proof {
        assert(sink.calls() =~= start + begin + placed_runs(id, runs, 0));
    }
    while i < plan.runs.len()
        invariant
            i <= plan.runs@.len(),
            runs == plan.runs@,
            start == old(sink).calls(),
            answer == Ok::<ImageId, S::Error>(id),
            begin == seq![
                SinkCall::Begin {
                    code_mo,
                    envelope: plan.envelope,
                    carves: plan.carves@,
                    begun: answer,
                },
            ],
            sink.calls() == start + begin + placed_runs(id, runs, i as int),
        decreases plan.runs@.len() - i,
    {
        match sink.place_run(id, &plan.runs[i]) {
            Ok(done) => {
                assert(done == ());
            },
            Err(e) => {
                sink.abort_image(id);
                proof {
                    let calls = begin + placed_runs(id, runs, i as int) + seq![
                        SinkCall::Place { image: id, run: runs[i as int], answer: Err(e) },
                        SinkCall::Abort { image: id },
                    ];
                    assert(sink.calls() =~= start + calls);
                    assert(image_calls(
                        code_mo,
                        plan.envelope,
                        runs,
                        plan.carves@,
                        answer,
                        calls,
                        Err(e),
                    ));
                }
                return Err(e);
            },
        }
        proof {
            assert(sink.calls() =~= start + begin + placed_runs(id, runs, i + 1));
        }
        i = i + 1;
    }
    match sink.finish_image(id) {
        Ok(done) => {
            proof {
                assert(done == ());
                let calls = begin + placed_runs(id, runs, runs.len() as int) + seq![
                    SinkCall::Finish { image: id, answer: Ok(()) },
                ];
                assert(sink.calls() =~= start + calls);
                assert(image_calls(
                    code_mo,
                    plan.envelope,
                    runs,
                    plan.carves@,
                    answer,
                    calls,
                    answer,
                ));
            }
            Ok(id)
        },
        Err(e) => {
            sink.abort_image(id);
            proof {
                let calls = begin + placed_runs(id, runs, runs.len() as int) + seq![
                    SinkCall::Finish { image: id, answer: Err(e) },
                    SinkCall::Abort { image: id },
                ];
                assert(sink.calls() =~= start + calls);
                assert(image_calls(
                    code_mo,
                    plan.envelope,
                    runs,
                    plan.carves@,
                    answer,
                    calls,
                    Err(e),
                ));
            }
            Err(e)
        },
    }
}

/// The error of a failed placement is that of the last call before the abort; if
/// the image could not even be begun, that of the only call.
pub proof fn lemma_failure_is_that_of_the_sink<M, E>(
    code_mo: M,
    envelope: ImageEnvelope,
    runs: Seq<Run>,
    carves: Seq<Carve>,
    answer: Result<ImageId, E>,
    calls: Seq<SinkCall<M, E>>,
    e: E,
)
    requires
        image_calls(code_mo, envelope, runs, carves, answer, calls, Err(e)),
    ensures
        match answer {
            Err(_) => calls.len() == 1 && calls[0] == (SinkCall::Begin {
                code_mo,
                envelope,
                carves,
                begun: Err(e),
            }),
            Ok(image) => {
                &&& calls.len() >= 3
                &&& calls.last() == SinkCall::<M, E>::Abort { image }
                &&& match calls[calls.len() - 2] {
                    SinkCall::Place { image: at, run: _, answer } => at == image && answer
                        == Err::<(), E>(e),
                    SinkCall::Finish { image: at, answer } => at == image && answer
                        == Err::<(), E>(e),
                    _ => false,
                }
            },
        },
{
}

} // verus!
