//! The arena of the runtime linker, and what is kept in it: link map entries,
//! strings, and the paths that are tried for a library.
use crate::loader::elf::tls::{aligned, lemma_aligned};
use crate::loader::link_map::{ArenaState, CName, RtldState};
use crate::loader::rtld::elf::load::LoadError;
use crate::loader::rtld::elf::tables::copy_bytes;
use vstd::arithmetic::power2::pow2;
use vstd::prelude::*;
use vstd::slice::slice_subrange;

verus! {

/// Size of the arena in bytes.
pub const ARENA_DEFAULT_SIZE: u64 = 0x40_0000;

/// Size of a link map entry in the arena.
pub const LINK_MAP_SIZE: u64 = 592;

impl ArenaState {
    /// What was handed out lies in the mapping, and the mapping in the address
    /// space.
    pub open spec fn wf(self) -> bool {
        &&& self.cursor <= self.size
        &&& self.base + self.size <= u64::MAX
    }
}

/// Whether the arena still has to be mapped.
pub fn arena_is_unmapped(arena: &ArenaState) -> (r: bool)
    ensures
        r == (arena.base == 0),
{
    arena.base == 0
}

/// What a mapping attempt gave: the address, unless it failed.
pub open spec fn mapping(mapped: Option<u64>) -> Option<u64> {
    match mapped {
        Some(addr) => if addr == 0 || addr == u64::MAX {
            None
        } else {
            Some(addr)
        },
        None => None,
    }
}

/// Takes the result of mapping the arena, if it was not mapped before. The first
/// mapping wins.
pub fn ensure_arena(st: &mut RtldState, mapped: Option<u64>) -> (r: Result<(), LoadError>)
    ensures
        *final(st) == (RtldState { arena: final(st).arena, ..*old(st) }),
        if old(st).arena.base != 0 {
            r is Ok && final(st).arena == old(st).arena
        } else {
            match mapping(mapped) {
                Some(base) => r is Ok && final(st).arena == (ArenaState {
                    base,
                    size: ARENA_DEFAULT_SIZE,
                    cursor: 0,
                }),
                None => r == Err::<(), LoadError>(LoadError::ArenaMmapFailed) && final(st).arena
                    == old(st).arena,
            }
        },
{
    if st.arena.base != 0 {
        return Ok(());
    }
    match mapped {
        Some(base) => {
            if base == 0 || base == u64::MAX {
                return Err(LoadError::ArenaMmapFailed);
            }
            st.arena = ArenaState { base, size: ARENA_DEFAULT_SIZE, cursor: 0 };
            Ok(())
        },
        None => Err(LoadError::ArenaMmapFailed),
    }
}

/// Whether the arena has room.
pub open spec fn has_room(arena: ArenaState, size: int, align: u64) -> bool {
    aligned(arena.cursor, align) + size <= arena.size
}

/// Cuts `size` bytes with the given alignment, a power of two, from the arena.
/// `None` when it is exhausted.
pub fn arena_alloc(arena: &mut ArenaState, size: u64, align: u64) -> (r: Option<u64>)
    requires
        old(arena).wf(),
        1 <= align,
        old(arena).cursor + align - 1 <= u64::MAX,
    ensures
        match r {
            Some(p) => has_room(*old(arena), size as int, align) && p == old(arena).base + aligned(
                old(arena).cursor,
                align,
            ) && *final(arena) == (ArenaState {
                cursor: (aligned(old(arena).cursor, align) + size) as u64,
                ..*old(arena)
            }),
            None => !has_room(*old(arena), size as int, align) && *final(arena) == *old(arena),
        },
        final(arena).wf(),
{
    let start: u64 = (arena.cursor + (align - 1)) & !(align - 1);
    assert(start == aligned(arena.cursor, align));
    if size > u64::MAX - start || start + size > arena.size {
        return None;
    }
    let p: u64 = arena.base + start;
    arena.cursor = start + size;
    Some(p)
}

/// Blocks of the arena do not overlap: a block starts at or behind the end of
/// everything cut before it, at a multiple of its alignment.
pub proof fn lemma_blocks_are_disjoint(arena: ArenaState, k: nat)
    requires
        arena.wf(),
        k < 64,
        arena.cursor + pow2(k) - 1 <= u64::MAX,
    ensures
        arena.cursor <= aligned(arena.cursor, pow2(k) as u64),
        aligned(arena.cursor, pow2(k) as u64) % pow2(k) as u64 == 0,
{
    lemma_aligned(arena.cursor, k);
}

proof fn lemma_aligned_1(x: u64)
    ensures
        aligned(x, 1) == x,
{
    assert(x & !0u64 == x) by (bit_vector);
}

/// Cuts room for a link map entry from the arena.
pub fn arena_alloc_link_map(arena: &mut ArenaState) -> (r: Option<u64>)
    requires
        old(arena).wf(),
        old(arena).cursor + 7 <= u64::MAX,
    ensures
        match r {
            Some(p) => has_room(*old(arena), LINK_MAP_SIZE as int, 8) && p == old(arena).base
                + aligned(old(arena).cursor, 8) && *final(arena) == (ArenaState {
                cursor: (aligned(old(arena).cursor, 8) + LINK_MAP_SIZE) as u64,
                ..*old(arena)
            }),
            None => !has_room(*old(arena), LINK_MAP_SIZE as int, 8) && *final(arena) == *old(arena),
        },
        final(arena).wf(),
{
    arena_alloc(arena, LINK_MAP_SIZE, 8)
}

/// The arena after `n` bytes were cut from it without alignment.
pub open spec fn cut(arena: ArenaState, n: nat) -> ArenaState {
    ArenaState { cursor: (arena.cursor + n) as u64, ..arena }
}

/// Puts a string, with a terminator, into the arena. `None` when it is
/// exhausted.
pub fn arena_intern(arena: &mut ArenaState, src: &[u8]) -> (r: Option<CName>)
    requires
        old(arena).wf(),
        src.len() < u64::MAX,
    ensures
        match r {
            Some(n) => old(arena).cursor + src@.len() + 1 <= old(arena).size && n.addr == old(
                arena,
            ).base + old(arena).cursor && n.bytes@ == src@ && *final(arena) == cut(
                *old(arena),
                src@.len() + 1,
            ),
            None => old(arena).cursor + src@.len() + 1 > old(arena).size && *final(arena) == *old(
                arena,
            ),
        },
        final(arena).wf(),
{
    proof {
        lemma_aligned_1(arena.cursor);
    }
    match arena_alloc(arena, src.len() as u64 + 1, 1) {
        Some(addr) => Some(CName { addr, bytes: copy_bytes(src) }),
        None => None,
    }
}

// ---------------------------------------------------------------------------
// Library search paths
// ---------------------------------------------------------------------------

/// End of the directory that starts at `i`: the next separator or terminator.
pub open spec fn dir_end(paths: Seq<u8>, i: int) -> int
    decreases paths.len() - i,
{
    if i < 0 || i >= paths.len() || paths[i] == 0x3a || paths[i] == 0 {
        i
    } else {
        dir_end(paths, i + 1)
    }
}

/// A directory and a file name as one path.
pub open spec fn joined(dir: Seq<u8>, base: Seq<u8>) -> Seq<u8> {
    if dir.len() > 0 && dir.last() == 0x2f {
        dir + base
    } else {
        dir.push(0x2f) + base
    }
}

/// The next path to try from position `i` of a list of directories on, and the
/// position behind it. Empty directories are passed over, and so are those whose
/// path does not fit into the arena.
pub open spec fn next_path(arena: ArenaState, paths: Seq<u8>, base: Seq<u8>, i: int) -> Option<
    (Seq<u8>, int),
>
    decreases paths.len() + 1 - i,
    via next_path_ends
{
    let end = dir_end(paths, i);
    let path = joined(paths.subrange(i, end), base);
    if i < 0 || i >= paths.len() {
        None
    } else if end > i && arena.cursor + path.len() + 1 <= arena.size {
        Some((path, end + 1))
    } else {
        next_path(arena, paths, base, end + 1)
    }
}

#[via_fn]
proof fn next_path_ends(arena: ArenaState, paths: Seq<u8>, base: Seq<u8>, i: int) {
    if 0 <= i < paths.len() {
        lemma_dir_end(paths, i);
    }
}

pub proof fn lemma_dir_end(paths: Seq<u8>, i: int)
    requires
        0 <= i <= paths.len(),
    ensures
        i <= dir_end(paths, i) <= paths.len(),
    decreases paths.len() - i,
{
    if i < paths.len() {
        lemma_dir_end(paths, i + 1);
    }
}

fn path_join_intern(arena: &mut ArenaState, dir: &[u8], base: &[u8]) -> (r: Option<CName>)
    requires
        old(arena).wf(),
        dir.len() + base.len() + 2 <= usize::MAX,
    ensures
        match r {
            Some(n) => old(arena).cursor + joined(dir@, base@).len() + 1 <= old(arena).size
                && n.addr == old(arena).base + old(arena).cursor && n.bytes@ == joined(dir@, base@)
                && *final(arena) == cut(*old(arena), joined(dir@, base@).len() + 1),
            None => old(arena).cursor + joined(dir@, base@).len() + 1 > old(arena).size
                && *final(arena) == *old(arena),
        },
        final(arena).wf(),
{
    let mut path: Vec<u8> = copy_bytes(dir);
    if !(dir.len() > 0 && dir[dir.len() - 1] == 0x2f) {
        path.push(0x2f);
    }
    let mut tail: Vec<u8> = copy_bytes(base);
    path.append(&mut tail);
    assert(path@ =~= joined(dir@, base@));
    arena_intern(arena, path.as_slice())
}

/// The next path to try for `basename` in a list of directories separated by
/// colons, from position `from` on, interned; and the position to go on from if
/// there is no file at that path.
pub fn search_paths(arena: &mut ArenaState, paths: &[u8], basename: &[u8], from: usize) -> (r:
    Option<(CName, usize)>)
    requires
        old(arena).wf(),
        paths.len() + basename.len() + 2 <= usize::MAX,
    ensures
        match next_path(*old(arena), paths@, basename@, from as int) {
            Some((path, next)) => r is Some && (r->0).0.bytes@ == path && (r->0).0.addr == old(
                arena,
            ).base + old(arena).cursor && (r->0).1 == next && next > from && *final(arena) == cut(
                *old(arena),
                path.len() + 1,
            ),
            None => r is None && *final(arena) == *old(arena),
        },
        final(arena).wf(),
{
    let mut start: usize = from;
    while start < paths.len()
        invariant
            arena.wf(),
            *arena == *old(arena),
            from <= start,
            paths.len() + basename.len() + 2 <= usize::MAX,
            next_path(*old(arena), paths@, basename@, from as int) == next_path(
                *old(arena),
                paths@,
                basename@,
                start as int,
            ),
        decreases paths@.len() + 1 - start,
    {
        let mut end: usize = start;
        while end < paths.len() && paths[end] != 0x3a && paths[end] != 0
            invariant
                start <= end <= paths@.len(),
                dir_end(paths@, start as int) == dir_end(paths@, end as int),
            decreases paths@.len() - end,
        {
            end = end + 1;
        }
        if end > start {
            let dir: &[u8] = slice_subrange(paths, start, end);
            match path_join_intern(arena, dir, basename) {
                Some(name) => {
                    return Some((name, end + 1));
                },
                None => {},
            }
        }
        start = end + 1;
    }
    None
}

/// The paths of a list of directories, in order.
pub open spec fn all_paths(paths: Seq<u8>, base: Seq<u8>, i: int) -> Seq<Seq<u8>>
    decreases paths.len() + 1 - i,
    via all_paths_ends
{
    let end = dir_end(paths, i);
    if i < 0 || i >= paths.len() {
        Seq::empty()
    } else if end > i {
        seq![joined(paths.subrange(i, end), base)] + all_paths(paths, base, end + 1)
    } else {
        all_paths(paths, base, end + 1)
    }
}

#[via_fn]
proof fn all_paths_ends(paths: Seq<u8>, base: Seq<u8>, i: int) {
    if 0 <= i < paths.len() {
        lemma_dir_end(paths, i);
    }
}

/// While the arena has room, a search tries the paths of a list of directories
/// one by one in their order, and leaves none out.
pub proof fn lemma_search_is_in_order(arena: ArenaState, paths: Seq<u8>, base: Seq<u8>, i: int)
    requires
        0 <= i,
        arena.cursor + paths.len() + base.len() + 2 <= arena.size,
    ensures
        match next_path(arena, paths, base, i) {
            Some((path, next)) => all_paths(paths, base, i) == seq![path] + all_paths(
                paths,
                base,
                next,
            ),
            None => all_paths(paths, base, i).len() == 0,
        },
    decreases paths.len() + 1 - i,
{
    if i < paths.len() {
        lemma_dir_end(paths, i);
        lemma_search_is_in_order(arena, paths, base, dir_end(paths, i) + 1);
    }
}

/// How a search for a dependency stands.
#[derive(Clone, Copy, PartialEq, Eq, Debug, Structural)]
pub enum PathStage {
    /// In the run path of the object, from a position on.
    RunPath(usize),
    /// In its older `DT_RPATH`.
    RPath(usize),
    /// In the default directories.
    Default(usize),
}

/// What to do next to find a dependency.
pub enum PathStep {
    /// Take this path as it is.
    Take(CName),
    /// Take this path if there is a file; otherwise go on with the stage given.
    Probe(CName, PathStage),
    /// There is nothing left to try.
    Missing,
}

/// The default directories: `/usr/lib:/lib`.
pub open spec fn default_dirs() -> Seq<u8> {
    seq![
        0x2fu8, 0x75u8, 0x73u8, 0x72u8, 0x2fu8, 0x6cu8, 0x69u8, 0x62u8, 0x3au8, 0x2fu8, 0x6cu8,
        0x69u8, 0x62u8,
    ]
}

/// The next path of a search: first the run path, then the `DT_RPATH`, then the
/// default directories.
pub open spec fn staged_path(
    arena: ArenaState,
    name: Seq<u8>,
    runpath: Option<Seq<u8>>,
    rpath: Option<Seq<u8>>,
    stage: PathStage,
) -> Option<(Seq<u8>, PathStage)> {
    let in_default = match next_path(
        arena,
        default_dirs(),
        name,
        match stage {
            PathStage::Default(i) => i as int,
            _ => 0,
        },
    ) {
        Some((path, next)) => Some((path, PathStage::Default(next as usize))),
        None => None,
    };
    let in_rpath = match (rpath, stage) {
        (None, _) => None,
        (_, PathStage::Default(_)) => None,
        (Some(dirs), PathStage::RPath(i)) => next_path(arena, dirs, name, i as int),
        (Some(dirs), PathStage::RunPath(_)) => next_path(arena, dirs, name, 0),
    };
    let in_runpath = match (runpath, stage) {
        (Some(dirs), PathStage::RunPath(i)) => next_path(arena, dirs, name, i as int),
        _ => None,
    };
    match in_runpath {
        Some((path, next)) => Some((path, PathStage::RunPath(next as usize))),
        None => match in_rpath {
            Some((path, next)) => Some((path, PathStage::RPath(next as usize))),
            None => in_default,
        },
    }
}

fn has_slash(name: &[u8]) -> (r: bool)
    ensures
        r == name@.contains(0x2f),
{
    let mut i: usize = 0;
    while i < name.len()
        invariant
            i <= name@.len(),
            forall|j: int| 0 <= j < i ==> name@[j] != 0x2f,
        decreases name@.len() - i,
    {
        if name[i] == 0x2f {
            assert(name@.contains(name@[i as int]));
            return true;
        }
        i = i + 1;
    }
    false
}

/// The next step of the search for a dependency. A name with a slash is taken as
/// it is; any other name is looked for in the directories.
pub fn resolve_dependency_path(
    arena: &mut ArenaState,
    name: &[u8],
    runpath: &Option<CName>,
    rpath: &Option<CName>,
    stage: PathStage,
) -> (r: PathStep)
    requires
        old(arena).wf(),
        name.len() + 15 <= usize::MAX,
        runpath is Some ==> name.len() + runpath->0.bytes.len() + 2 <= usize::MAX,
        rpath is Some ==> name.len() + rpath->0.bytes.len() + 2 <= usize::MAX,
    ensures
        final(arena).wf(),
        if name@.contains(0x2f) {
            if old(arena).cursor + name@.len() + 1 <= old(arena).size {
                r is Take && r->Take_0.bytes@ == name@ && r->Take_0.addr == old(arena).base + old(
                    arena,
                ).cursor && *final(arena) == cut(*old(arena), name@.len() + 1)
            } else {
                r is Missing && *final(arena) == *old(arena)
            }
        } else {
            match staged_path(
                *old(arena),
                name@,
                crate::loader::link_map::name_of(*runpath),
                crate::loader::link_map::name_of(*rpath),
                stage,
            ) {
                Some((path, next)) => r is Probe && r->Probe_0.bytes@ == path && r->Probe_0.addr
                    == old(arena).base + old(arena).cursor && r->Probe_1 == next && *final(arena)
                    == cut(*old(arena), path.len() + 1),
                None => r is Missing && *final(arena) == *old(arena),
            }
        },
{
    if has_slash(name) {
        return match arena_intern(arena, name) {
            Some(n) => PathStep::Take(n),
            None => PathStep::Missing,
        };
    }
    match (stage, runpath) {
        (PathStage::RunPath(i), Some(dirs)) => {
            match search_paths(arena, dirs.bytes.as_slice(), name, i) {
                Some((n, next)) => {
                    return PathStep::Probe(n, PathStage::RunPath(next));
                },
                None => {},
            }
        },
        _ => {},
    }
    let in_rpath: Option<usize> = match stage {
        PathStage::RunPath(_) => Some(0),
        PathStage::RPath(i) => Some(i),
        PathStage::Default(_) => None,
    };
    match (in_rpath, rpath) {
        (Some(i), Some(dirs)) => {
            match search_paths(arena, dirs.bytes.as_slice(), name, i) {
                Some((n, next)) => {
                    return PathStep::Probe(n, PathStage::RPath(next));
                },
                None => {},
            }
        },
        _ => {},
    }
    let i: usize = match stage {
        PathStage::Default(i) => i,
        _ => 0,
    };
    let dirs: [u8; 13] = [
        0x2f,
        0x75,
        0x73,
        0x72,
        0x2f,
        0x6c,
        0x69,
        0x62,
        0x3a,
        0x2f,
        0x6c,
        0x69,
        0x62,
    ];
    assert(dirs@ =~= default_dirs());
    match search_paths(arena, dirs.as_slice(), name, i) {
        Some((n, next)) => PathStep::Probe(n, PathStage::Default(next)),
        None => PathStep::Missing,
    }
}

// ---------------------------------------------------------------------------
// Which paths are tried
// ---------------------------------------------------------------------------

/// Whether a list of directories is made of these, which start at these positions,
/// with a colon between each and the next.
pub open spec fn is_dir_list(paths: Seq<u8>, at: Seq<int>, dirs: Seq<Seq<u8>>) -> bool {
    let n = dirs.len();
    &&& n > 0
    &&& at.len() == n + 1
    &&& at[0] == 0
    &&& at[n as int] == paths.len() + 1
    &&& forall|k: int|
        #![trigger dirs[k]]
        0 <= k < n ==> {
            &&& at[k] >= 0
            &&& at[k + 1] == at[k] + dirs[k].len() + 1
            &&& at[k + 1] <= paths.len() + 1
            &&& dirs[k].len() > 0
            &&& paths.subrange(at[k], at[k] + dirs[k].len() as int) == dirs[k]
            &&& !dirs[k].contains(0x3a) && !dirs[k].contains(0)
            &&& k < n - 1 ==> paths[at[k + 1] - 1] == 0x3a
        }
}

proof fn lemma_dir_ends(paths: Seq<u8>, i: int, end: int)
    requires
        0 <= i <= end <= paths.len(),
        forall|j: int| i <= j < end ==> paths[j] != 0x3a && paths[j] != 0,
        end == paths.len() || paths[end] == 0x3a,
    ensures
        dir_end(paths, i) == end,
    decreases end - i,
{
    if i < end {
        lemma_dir_ends(paths, i + 1, end);
    }
}

proof fn lemma_paths_from(
    paths: Seq<u8>,
    at: Seq<int>,
    dirs: Seq<Seq<u8>>,
    base: Seq<u8>,
    k: int,
)
    requires
        is_dir_list(paths, at, dirs),
        0 <= k <= dirs.len(),
    ensures
        all_paths(paths, base, at[k]).len() == dirs.len() - k,
        forall|j: int|
            0 <= j < dirs.len() - k ==> #[trigger] all_paths(paths, base, at[k])[j] == joined(
                dirs[k + j],
                base,
            ),
    decreases dirs.len() - k,
{
    if k < dirs.len() {
        let dir = dirs[k];
        let end = at[k] + dir.len();
        assert forall|j: int| at[k] <= j < end implies paths[j] != 0x3a && paths[j] != 0 by {
            assert(paths.subrange(at[k], end)[j - at[k]] == dir[j - at[k]]);
            assert(dir.contains(dir[j - at[k]]));
        }
        lemma_dir_ends(paths, at[k], end);
        lemma_paths_from(paths, at, dirs, base, k + 1);
        let rest = all_paths(paths, base, at[k + 1]);
        let all = all_paths(paths, base, at[k]);
        assert forall|j: int| 0 <= j < dirs.len() - k implies #[trigger] all[j] == joined(
            dirs[k + j],
            base,
        ) by {
            if j > 0 {
                assert(all[j] == rest[j - 1]);
            }
        }
    }
}

/// Every directory of a list is tried, in order, with the name behind it and one
/// slash between them.
pub proof fn lemma_every_directory_is_tried(
    paths: Seq<u8>,
    at: Seq<int>,
    dirs: Seq<Seq<u8>>,
    base: Seq<u8>,
    k: int,
)
    requires
        is_dir_list(paths, at, dirs),
        0 <= k < dirs.len(),
    ensures
        all_paths(paths, base, 0).len() == dirs.len(),
        dirs[k].last() != 0x2f ==> all_paths(paths, base, 0)[k] == dirs[k] + seq![0x2fu8] + base,
        dirs[k].last() == 0x2f ==> all_paths(paths, base, 0)[k] == dirs[k] + base,
{
    lemma_paths_from(paths, at, dirs, base, 0);
    let path = all_paths(paths, base, 0)[0 + k];
    assert(dirs[k].len() > 0);
    assert(dirs[k].push(0x2f) =~= dirs[k] + seq![0x2fu8]);
}

/// The run path is searched to its end before the `DT_RPATH`, and that before
/// `/usr/lib` and `/lib`.
pub proof fn lemma_search_stages(
    arena: ArenaState,
    name: Seq<u8>,
    runpath: Option<Seq<u8>>,
    rpath: Option<Seq<u8>>,
    i: usize,
)
    ensures
        runpath matches Some(dirs) ==> {
            let next = next_path(arena, dirs, name, i as int);
            let step = staged_path(arena, name, runpath, rpath, PathStage::RunPath(i));
            match next {
                Some((path, _)) => step matches Some((first, behind)) && first == path && behind is RunPath,
                None => step == staged_path(arena, name, None, rpath, PathStage::RPath(0)),
            }
        },
        rpath matches Some(dirs) ==> {
            let next = next_path(arena, dirs, name, i as int);
            let step = staged_path(arena, name, runpath, rpath, PathStage::RPath(i));
            match next {
                Some((path, _)) => step matches Some((first, behind)) && first == path && behind is RPath,
                None => step == staged_path(arena, name, None, None, PathStage::Default(0)),
            }
        },
        ({
            let step = staged_path(arena, name, runpath, rpath, PathStage::Default(i));
            match next_path(arena, default_dirs(), name, i as int) {
                Some((path, _)) => step matches Some((first, behind)) && first == path && behind is Default,
                None => step is None,
            }
        }),
{
}

/// The default directories are `/usr/lib` and `/lib`.
pub proof fn lemma_default_directories(base: Seq<u8>)
    ensures
        all_paths(default_dirs(), base, 0) == seq![
            seq![0x2fu8, 0x75u8, 0x73u8, 0x72u8, 0x2fu8, 0x6cu8, 0x69u8, 0x62u8, 0x2fu8] + base,
            seq![0x2fu8, 0x6cu8, 0x69u8, 0x62u8, 0x2fu8] + base,
        ],
{
    let usr = seq![0x2fu8, 0x75u8, 0x73u8, 0x72u8, 0x2fu8, 0x6cu8, 0x69u8, 0x62u8];
    let lib = seq![0x2fu8, 0x6cu8, 0x69u8, 0x62u8];
    let dirs = seq![usr, lib];
    let at = seq![0int, 9, 14];
    let paths = default_dirs();
    assert(paths.subrange(0, 8) =~= usr);
    assert(paths.subrange(9, 13) =~= lib);
    assert(is_dir_list(paths, at, dirs));
    lemma_every_directory_is_tried(paths, at, dirs, base, 0);
    lemma_every_directory_is_tried(paths, at, dirs, base, 1);
    assert(usr + seq![0x2fu8] =~= seq![
        0x2fu8, 0x75u8, 0x73u8, 0x72u8, 0x2fu8, 0x6cu8, 0x69u8, 0x62u8, 0x2fu8,
    ]);
    assert(lib + seq![0x2fu8] =~= seq![0x2fu8, 0x6cu8, 0x69u8, 0x62u8, 0x2fu8]);
}

/// A block wastes less than one alignment, and is given wherever it fits in what
/// is left of the arena behind that.
pub proof fn lemma_arena_is_tight(arena: ArenaState, size: u64, k: nat)
    requires
        arena.wf(),
        k < 64,
        arena.cursor + pow2(k) - 1 <= u64::MAX,
    ensures
        aligned(arena.cursor, pow2(k) as u64) < arena.cursor + pow2(k),
        arena.cursor + pow2(k) - 1 + size <= arena.size ==> has_room(
            arena,
            size as int,
            pow2(k) as u64,
        ),
        arena.cursor + size > arena.size ==> !has_room(arena, size as int, pow2(k) as u64),
{
    lemma_aligned(arena.cursor, k);
}

} // verus!
