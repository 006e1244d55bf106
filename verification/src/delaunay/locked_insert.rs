//! Insertion of a point under the locks of the cell block around it.

use super::arena::{self, Arena, Tet, INF0, INF_NONE};
use super::cavity::Scratch;
use super::geometry::{self, Place, Site};
use super::insert::{self, InsertError};
use super::locate::{self, Locked};
use super::lock_grid::{self, LockGrid};
use vstd::prelude::*;

verus! {

/// What became of a locked insertion.
#[derive(Clone, Copy, Debug, PartialEq, Eq, Structural)]
pub enum Ins {
    Committed,
    Deferred,
}

/// `after` is `before` with every listed lock set to `value`.
spec fn locks_set(before: Seq<bool>, after: Seq<bool>, cells: Seq<usize>, value: bool) -> bool {
    &&& after.len() == before.len()
    &&& forall|i: int|
        0 <= i < after.len() ==> #[trigger] after[i] == (if cells.contains(i as usize) {
            value
        } else {
            before[i]
        })
}

/// Take all locks of `cells`, or none of them if one is taken already.
fn lock_block(grid: &mut LockGrid, cells: &Vec<usize>) -> (ok: bool)
    requires
        forall|k: int| 0 <= k < cells@.len() ==> #[trigger] cells@[k] < old(grid).locks@.len(),
        forall|i: int, j: int| 0 <= i < j < cells@.len() ==> cells@[i] < cells@[j],
    ensures
        final(grid).gdim == old(grid).gdim,
        ok == (forall|k: int|
            0 <= k < cells@.len() ==> !old(grid).locks@[#[trigger] cells@[k] as int]),
        ok ==> locks_set(old(grid).locks@, final(grid).locks@, cells@, true),
        !ok ==> final(grid).locks@ == old(grid).locks@,
{
    let ghost before = grid.locks@;
    let total: usize = grid.locks.len();
    let mut held: usize = 0;
    let mut ok: bool = true;
    while ok && held < cells.len()
        invariant
            grid.gdim == old(grid).gdim,
            before == old(grid).locks@,
            grid.locks@.len() == before.len(),
            before.len() == total,
            held <= cells@.len(),
            forall|k: int| 0 <= k < cells@.len() ==> #[trigger] cells@[k] < before.len(),
            forall|i: int, j: int| 0 <= i < j < cells@.len() ==> cells@[i] < cells@[j],
            locks_set(before, grid.locks@, cells@.take(held as int), true),
            forall|k: int| 0 <= k < held ==> !before[#[trigger] cells@[k] as int],
            !ok ==> held < cells@.len() && before[cells@[held as int] as int],
        decreases cells@.len() - held + (if ok { 1int } else { 0int }),
    {
        let cell: usize = cells[held];
        let ghost now = grid.locks@;
        let got = grid.try_lock(cell);
        proof {
            let some = cells@.take(held as int);
            assert(!some.contains(cell)) by {
                if some.contains(cell) {
                    let k = some.index_of(cell);
                    assert(cells@[k] == cell);
                }
            }
            assert(now[cell as int] == before[cell as int]);
        }
        if got {
            proof {
                let some = cells@.take(held as int);
                let more = cells@.take(held + 1);
                assert(more == some.push(cell));
                assert forall|x: usize| #[trigger] more.contains(x) <==> some.contains(x) || x
                    == cell by {
                    if some.contains(x) {
                        let k = some.index_of(x);
                        assert(more[k] == x);
                    }
                    if x == cell {
                        assert(more[held as int] == cell);
                    }
                }
            }
            held = held + 1;
        } else {
            ok = false;
            assert(grid.locks@ =~= now);
        }
    }
    if !ok {
        unlock_block(grid, cells, held);
        assert(grid.locks@ =~= before) by {
            assert forall|i: int| 0 <= i < before.len() implies grid.locks@[i] == before[i] by {
                if cells@.take(held as int).contains(i as usize) {
                    let k = cells@.take(held as int).index_of(i as usize);
                    assert(!before[cells@[k] as int]);
                }
            }
        }
    } else {
        assert(cells@.take(held as int) == cells@);
    }
    ok
}

/// Release the first `n` locks of `cells`.
fn unlock_block(grid: &mut LockGrid, cells: &Vec<usize>, n: usize)
    requires
        n <= cells@.len(),
        forall|k: int| 0 <= k < cells@.len() ==> #[trigger] cells@[k] < old(grid).locks@.len(),
    ensures
        final(grid).gdim == old(grid).gdim,
        locks_set(old(grid).locks@, final(grid).locks@, cells@.take(n as int), false),
{
    let ghost before = grid.locks@;
    let total: usize = grid.locks.len();
    for k in 0..n
        invariant
            n <= cells@.len(),
            before.len() == total,
            grid.gdim == old(grid).gdim,
            forall|k: int| 0 <= k < cells@.len() ==> #[trigger] cells@[k] < before.len(),
            locks_set(before, grid.locks@, cells@.take(k as int), false),
    {
        let ghost now = grid.locks@;
        let cell: usize = cells[k];
        grid.unlock(cell);
        proof {
            let some = cells@.take(k as int);
            let more = cells@.take(k + 1);
            assert(more == some.push(cell));
            assert forall|x: usize| #[trigger] more.contains(x) <==> some.contains(x) || x
                == cell by {
                if some.contains(x) {
                    let m = some.index_of(x);
                    assert(more[m] == x);
                }
                if x == cell {
                    assert(more[k as int] == cell);
                }
            }
        }
    }
}

/// Every seed is a tet of the triangulation, or missing.
pub open spec fn seeds_ok(seeds: Seq<u32>, ts: Seq<Tet>, g: u32) -> bool {
    &&& seeds.len() == g * g * g
    &&& forall|i: int|
        0 <= i < seeds.len() ==> #[trigger] seeds[i] == INF_NONE || seeds[i] < ts.len()
}

/// `s` is a live tet.
pub open spec fn live_seed(ts: Seq<Tet>, s: u32) -> bool {
    s != INF_NONE && ts[s as int].alive
}

pub open spec fn index_of_cell(g: u32, c: (u32, u32, u32)) -> int {
    lock_grid::cell_index(g as int, (c.0 as int, c.1 as int, c.2 as int))
}

/// `s` is where the walk to a point of cell `center` starts: the live seed of that
/// cell, or else the first live seed of the block around it.
pub open spec fn is_start(
    ts: Seq<Tet>,
    seeds: Seq<u32>,
    g: u32,
    center: (u32, u32, u32),
    s: u32,
) -> bool {
    let own = seeds[index_of_cell(g, center)];
    if live_seed(ts, own) {
        s == own
    } else {
        exists|i: int|
            {
                &&& #[trigger] lock_grid::in_block(g as int, center, i)
                &&& live_seed(ts, seeds[i])
                &&& s == seeds[i]
                &&& forall|j: int|
                    j < i && #[trigger] lock_grid::in_block(g as int, center, j) ==> !live_seed(
                        ts,
                        seeds[j],
                    )
            }
    }
}

/// The answer of `cell`.
pub open spec fn cell_of<C: Fn(Place, u32) -> (u32, u32, u32)>(
    cell: C,
    place: Place,
    g: u32,
) -> (u32, u32, u32) {
    choose|c: (u32, u32, u32)| #[trigger] cell.ensures((place, g), c)
}

/// The locked insertion of `pid` lands at tet `loc`: the block around `pid` is free,
/// the walk from its seed stays within it and ends at `loc`, and the cavity around
/// `loc` stays within it too.
pub open spec fn lands_at<
    O: Fn([u32; 4], usize, Site) -> bool,
    I: Fn([u32; 4], u32) -> bool,
    C: Fn(Place, u32) -> (u32, u32, u32),
>(
    ts: Seq<Tet>,
    outside: O,
    inside: I,
    cell: C,
    locks: Seq<bool>,
    seeds: Seq<u32>,
    g: u32,
    pid: u32,
    loc: u32,
) -> bool {
    let center = cell_of(cell, Place::Point(pid), g);
    let bound = Some(Locked { center, gdim: g });
    &&& forall|i: int| #[trigger] lock_grid::in_block(g as int, center, i) ==> !locks[i]
    &&& exists|s: u32, path: Seq<u32>|
        {
            &&& #[trigger] is_start(ts, seeds, g, center, s)
            &&& #[trigger] locate::is_walk(ts, outside, cell, bound, Site::Point(pid), s, path)
            &&& path.last() == loc
        }
    &&& locate::carvable(ts, inside, cell, bound, pid, loc)
}

/// The first real vertex of a tet.
pub open spec fn first_real(v: [u32; 4]) -> Option<u32> {
    if v[0] < INF0 {
        Some(v[0])
    } else if v[1] < INF0 {
        Some(v[1])
    } else if v[2] < INF0 {
        Some(v[2])
    } else if v[3] < INF0 {
        Some(v[3])
    } else {
        None
    }
}

/// The seeds after `n` tets from `from` on have been entered: each becomes the seed of
/// the cell of its first real vertex, if that cell is locked.
pub open spec fn seeds_after<C: Fn(Place, u32) -> (u32, u32, u32)>(
    seeds: Seq<u32>,
    ts: Seq<Tet>,
    cell: C,
    bound: Locked,
    from: int,
    n: int,
) -> Seq<u32>
    decreases n,
{
    if n <= 0 {
        seeds
    } else {
        let rest = seeds_after(seeds, ts, cell, bound, from, n - 1);
        let t = from + n - 1;
        match first_real(ts[t].verts) {
            None => rest,
            Some(v) => {
                let c = cell_of(cell, Place::Point(v), bound.gdim);
                if bound.holds(c) {
                    rest.update(index_of_cell(bound.gdim, c), t as u32)
                } else {
                    rest
                }
            },
        }
    }
}

/// Find where the walk starts.
fn pick_seed(
    arena: &Arena,
    grid: &LockGrid,
    seeds: &Vec<u32>,
    center: (u32, u32, u32),
    cells: &Vec<usize>,
) -> (r: Option<u32>)
    requires
        arena.wf(),
        grid.wf(),
        seeds_ok(seeds@, arena@, grid.gdim),
        center.0 < grid.gdim,
        center.1 < grid.gdim,
        center.2 < grid.gdim,
        lock_grid::is_block(grid.gdim as int, center, cells@),
        forall|k: int| 0 <= k < cells@.len() ==> #[trigger] cells@[k] < seeds@.len(),
    ensures
        match r {
            Some(s) => is_start(arena@, seeds@, grid.gdim, center, s) && s < arena@.len(),
            None => forall|s: u32| !(#[trigger] is_start(arena@, seeds@, grid.gdim, center, s)),
        },
{
    let own: u32 = seeds[grid.idx(center)];
    if own != INF_NONE && arena.tets[own as usize].alive {
        return Some(own);
    }
    for k in 0..cells.len()
        invariant
            arena.wf(),
            grid.wf(),
            seeds_ok(seeds@, arena@, grid.gdim),
            lock_grid::is_block(grid.gdim as int, center, cells@),
            forall|k: int| 0 <= k < cells@.len() ==> #[trigger] cells@[k] < seeds@.len(),
            forall|j: int|
                0 <= j < k ==> !live_seed(arena@, seeds@[#[trigger] cells@[j] as int]),
            !live_seed(arena@, seeds@[index_of_cell(grid.gdim, center)]),
    {
        let cand: u32 = seeds[cells[k]];
        if cand != INF_NONE && arena.tets[cand as usize].alive {
            proof {
                let i = cells@[k as int] as int;
                assert(lock_grid::in_block(grid.gdim as int, center, i));
                assert forall|j: int|
                    j < i && #[trigger] lock_grid::in_block(
                        grid.gdim as int,
                        center,
                        j,
                    ) implies !live_seed(arena@, seeds@[j]) by {
                    let m = choose|m: int| 0 <= m < cells@.len() && #[trigger] cells@[m] == j;
                    if m >= k {
                        assert(cells@[m] >= cells@[k as int]);
                    }
                }
            }
            return Some(cand);
        }
    }
    proof {
        assert forall|s: u32| !(#[trigger] is_start(arena@, seeds@, grid.gdim, center, s)) by {
            if is_start(arena@, seeds@, grid.gdim, center, s) {
                let i = choose|i: int|
                    {
                        &&& #[trigger] lock_grid::in_block(grid.gdim as int, center, i)
                        &&& live_seed(arena@, seeds@[i])
                        &&& s == seeds@[i]
                        &&& forall|j: int|
                            j < i && #[trigger] lock_grid::in_block(grid.gdim as int, center, j)
                                ==> !live_seed(arena@, seeds@[j])
                    };
                let m = choose|m: int| 0 <= m < cells@.len() && #[trigger] cells@[m] == i;
                assert(!live_seed(arena@, seeds@[cells@[m] as int]));
            }
        }
    }
    None
}

/// Enter the new tets as seeds of their cells.
fn refresh_seeds<C: Fn(Place, u32) -> (u32, u32, u32)>(
    arena: &Arena,
    grid: &LockGrid,
    seeds: &mut Vec<u32>,
    cell: &C,
    bound: Locked,
    new_tets: &Vec<u32>,
    Ghost(from): Ghost<int>,
)
    requires
        arena.wf(),
        grid.wf(),
        bound.gdim == grid.gdim,
        geometry::is_cell_map(*cell),
        seeds_ok(old(seeds)@, arena@, grid.gdim),
        0 <= from,
        from + new_tets@.len() == arena@.len(),
        forall|c: int| 0 <= c < new_tets@.len() ==> #[trigger] new_tets@[c] == from + c,
    ensures
        seeds_ok(final(seeds)@, arena@, grid.gdim),
        final(seeds)@ == seeds_after(
            old(seeds)@,
            arena@,
            *cell,
            bound,
            from,
            new_tets@.len() as int,
        ),
{
    let ghost before = seeds@;
    for i in 0..new_tets.len()
        invariant
            arena.wf(),
            grid.wf(),
            bound.gdim == grid.gdim,
            geometry::is_cell_map(*cell),
            seeds_ok(seeds@, arena@, grid.gdim),
            0 <= from,
            from + new_tets@.len() == arena@.len(),
            forall|c: int| 0 <= c < new_tets@.len() ==> #[trigger] new_tets@[c] == from + c,
            seeds@ == seeds_after(before, arena@, *cell, bound, from, i as int),
    {
        let t: u32 = new_tets[i];
        let v = arena.tets[t as usize].verts;
        let mut vert: Option<u32> = None;
        if !arena::is_virtual(v[0]) {
            vert = Some(v[0]);
        } else if !arena::is_virtual(v[1]) {
            vert = Some(v[1]);
        } else if !arena::is_virtual(v[2]) {
            vert = Some(v[2]);
        } else if !arena::is_virtual(v[3]) {
            vert = Some(v[3]);
        }
        assert(vert == first_real(arena@[from + i].verts));
        if let Some(p) = vert {
            let c = cell(Place::Point(p), grid.gdim);
            assert(c == cell_of(*cell, Place::Point(p), grid.gdim));
            if bound.contains_cell(c) {
                let k: usize = grid.idx(c);
                seeds.set(k, t);
            }
        }
    }
}

/// Attempt a locked insertion of `pid`. Takes the locks of the 3x3x3 cell block around
/// `pid`; on a lock conflict, a walk that leaves the block or a cavity that does, gives
/// them back and defers the point. The locks are always given back.
pub fn try_insert_locked<
    O: Fn([u32; 4], usize, Site) -> bool,
    I: Fn([u32; 4], u32) -> bool,
    C: Fn(Place, u32) -> (u32, u32, u32),
>(
    arena: &mut Arena,
    grid: &mut LockGrid,
    seeds: &mut Vec<u32>,
    pid: u32,
    outside: &O,
    inside: &I,
    cell: &C,
    scratch: &mut Scratch,
) -> (r: Result<Ins, InsertError>)
    requires
        old(arena).wf(),
        old(grid).wf(),
        seeds_ok(old(seeds)@, old(arena)@, old(grid).gdim),
        geometry::is_face_test(*outside),
        geometry::is_sphere_test(*inside),
        geometry::is_cell_map(*cell),
        pid < old(arena).n_real,
        insert::unused(old(arena)@, pid),
    ensures
        final(arena).wf(),
        final(arena).n_real == old(arena).n_real,
        final(arena).cap == old(arena).cap,
        final(grid).wf(),
        final(grid).gdim == old(grid).gdim,
        final(grid).locks@ == old(grid).locks@,
        seeds_ok(final(seeds)@, final(arena)@, final(grid).gdim),
        !(r matches Ok(Ins::Committed)) ==> final(arena)@ == old(arena)@ && final(seeds)@ == old(
            seeds,
        )@,
        r matches Ok(Ins::Deferred) <==> forall|loc: u32|
            !(#[trigger] lands_at(
                old(arena)@,
                *outside,
                *inside,
                *cell,
                old(grid).locks@,
                old(seeds)@,
                old(grid).gdim,
                pid,
                loc,
            )),
        r matches Ok(Ins::Committed) ==> exists|loc: u32|
            {
                &&& #[trigger] lands_at(
                    old(arena)@,
                    *outside,
                    *inside,
                    *cell,
                    old(grid).locks@,
                    old(seeds)@,
                    old(grid).gdim,
                    pid,
                    loc,
                )
                &&& insert::is_insertion(old(arena)@, final(arena)@, *inside, pid, loc)
                &&& final(seeds)@ == seeds_after(
                    old(seeds)@,
                    final(arena)@,
                    *cell,
                    Locked {
                        center: cell_of(*cell, Place::Point(pid), old(grid).gdim),
                        gdim: old(grid).gdim,
                    },
                    old(arena)@.len() as int,
                    final(arena)@.len() - old(arena)@.len(),
                )
            },
        r matches Err(e) ==> e == InsertError::ArenaFull && exists|loc: u32|
            {
                &&& #[trigger] lands_at(
                    old(arena)@,
                    *outside,
                    *inside,
                    *cell,
                    old(grid).locks@,
                    old(seeds)@,
                    old(grid).gdim,
                    pid,
                    loc,
                )
                &&& exists|removed: Seq<u32>, boundary: Seq<super::cavity::Wall>| #[trigger]
                    insert::is_carving(old(arena)@, *inside, pid, loc, removed, boundary) && old(
                        arena,
                    )@.len() + boundary.len() > old(arena).cap
            },
{
    let ghost ts = arena@;
    let ghost locks = grid.locks@;
    let ghost seeds0 = seeds@;
    assert(locks.len() == grid.locks.len());
    let g: u32 = grid.gdim;
    let center = cell(Place::Point(pid), g);
    assert(center == cell_of(*cell, Place::Point(pid), g));
    let cells = grid.block(center);
    proof {
        assert forall|k: int| 0 <= k < cells@.len() implies #[trigger] cells@[k] < locks.len() by {
            block_in_grid(g as int, center, cells@[k] as int);
        }
    }
    let ok = lock_block(grid, &cells);
    if !ok {
        proof {
            let k = choose|k: int| 0 <= k < cells@.len() && locks[#[trigger] cells@[k] as int];
            assert(lock_grid::in_block(g as int, center, cells@[k] as int));
        }
        return Ok(Ins::Deferred);
    }
    proof {
        assert forall|i: int| #[trigger] lock_grid::in_block(g as int, center, i) implies !locks[i] by {
            let k = choose|k: int| 0 <= k < cells@.len() && #[trigger] cells@[k] == i;
            assert(!locks[cells@[k] as int]);
        }
    }
    let bound = Locked { center, gdim: g };
    let mut r: Result<Ins, InsertError> = Ok(Ins::Deferred);
    match pick_seed(arena, grid, seeds, center, &cells) {
        None => {},
        Some(start) => {
            match locate::walk_locate(
                arena,
                start,
                Site::Point(pid),
                outside,
                cell,
                Some(bound),
                &mut scratch.visited,
            ) {
                None => {
                    proof {
                        assert forall|s: u32| #[trigger] is_start(
                            ts,
                            seeds0,
                            g,
                            center,
                            s,
                        ) implies s == start by {
                            start_is_unique(ts, seeds0, g, center, s, start);
                        }
                    }
                },
                Some(loc) => {
                    proof {
                        assert forall|s: u32| #[trigger] is_start(
                            ts,
                            seeds0,
                            g,
                            center,
                            s,
                        ) implies s == start by {
                            start_is_unique(ts, seeds0, g, center, s, start);
                        }
                        assert forall|a: Seq<u32>, b: Seq<u32>|
                            #[trigger] locate::is_walk(
                                ts,
                                *outside,
                                *cell,
                                Some(bound),
                                Site::Point(pid),
                                start,
                                a,
                            ) && #[trigger] locate::is_walk(
                                ts,
                                *outside,
                                *cell,
                                Some(bound),
                                Site::Point(pid),
                                start,
                                b,
                            ) implies a.last() == b.last() by {
                            locate::walks_agree(
                                ts,
                                *outside,
                                *cell,
                                Some(bound),
                                Site::Point(pid),
                                start,
                                a,
                                b,
                            );
                        }
                    }
                    match insert::insert_at(arena, pid, loc, inside, cell, Some(bound), scratch) {
                        None => {},
                        Some(Ok(_)) => {
                            assert(lands_at(
                                ts,
                                *outside,
                                *inside,
                                *cell,
                                locks,
                                seeds0,
                                g,
                                pid,
                                loc,
                            ));
                            refresh_seeds(
                                arena,
                                grid,
                                seeds,
                                cell,
                                bound,
                                &scratch.new_tets,
                                Ghost(ts.len() as int),
                            );
                            r = Ok(Ins::Committed);
                        },
                        Some(Err(e)) => {
                            assert(lands_at(
                                ts,
                                *outside,
                                *inside,
                                *cell,
                                locks,
                                seeds0,
                                g,
                                pid,
                                loc,
                            ));
                            r = Err(e);
                        },
                    }
                },
            }
        },
    }
    let n: usize = cells.len();
    unlock_block(grid, &cells, n);
    proof {
        assert(cells@.take(n as int) == cells@);
        assert forall|i: int| 0 <= i < locks.len() implies grid.locks@[i] == locks[i] by {
            if cells@.contains(i as usize) {
                let k = cells@.index_of(i as usize);
                assert(!locks[cells@[k] as int]);
            }
        }
        assert(grid.locks@ =~= locks);
    }
    r
}

proof fn block_in_grid(g: int, center: (u32, u32, u32), i: int)
    requires
        0 < g <= lock_grid::MAX_GDIM,
        lock_grid::in_block(g, center, i),
    ensures
        0 <= i < g * g * g,
{
    let c = choose|c: (int, int, int)|
        {
            &&& #[trigger] lock_grid::in_grid(g, c)
            &&& center.0 - 1 <= c.0 <= center.0 + 1
            &&& center.1 - 1 <= c.1 <= center.1 + 1
            &&& center.2 - 1 <= c.2 <= center.2 + 1
            &&& i == lock_grid::cell_index(g, c)
        };
    lock_grid::cell_index_bounds(g, c);
}

proof fn start_is_unique(
    ts: Seq<Tet>,
    seeds: Seq<u32>,
    g: u32,
    center: (u32, u32, u32),
    a: u32,
    b: u32,
)
    requires
        is_start(ts, seeds, g, center, a),
        is_start(ts, seeds, g, center, b),
    ensures
        a == b,
{
    if !live_seed(ts, seeds[index_of_cell(g, center)]) {
        let i = choose|i: int|
            {
                &&& #[trigger] lock_grid::in_block(g as int, center, i)
                &&& live_seed(ts, seeds[i])
                &&& a == seeds[i]
                &&& forall|j: int|
                    j < i && #[trigger] lock_grid::in_block(g as int, center, j) ==> !live_seed(
                        ts,
                        seeds[j],
                    )
            };
        let k = choose|i: int|
            {
                &&& #[trigger] lock_grid::in_block(g as int, center, i)
                &&& live_seed(ts, seeds[i])
                &&& b == seeds[i]
                &&& forall|j: int|
                    j < i && #[trigger] lock_grid::in_block(g as int, center, j) ==> !live_seed(
                        ts,
                        seeds[j],
                    )
            };
        if i < k {
            assert(lock_grid::in_block(g as int, center, i));
        }
        if k < i {
            assert(lock_grid::in_block(g as int, center, k));
        }
    }
}

/// The first real vertex is a vertex of the tet, and those before it are virtual.
pub proof fn first_real_vertices_are_first(v: [u32; 4])
    ensures
        match first_real(v) {
            Some(p) => p < INF0 && exists|k: int|
                0 <= k < 4 && #[trigger] v[k] == p && forall|j: int|
                    0 <= j < k ==> #[trigger] v[j] >= INF0,
            None => v[0] >= INF0 && v[1] >= INF0 && v[2] >= INF0 && v[3] >= INF0,
        },
{
    if let Some(p) = first_real(v) {
        let k: int = if v[0] < INF0 {
            0
        } else if v[1] < INF0 {
            1
        } else if v[2] < INF0 {
            2
        } else {
            3
        };
        assert(v[k] == p);
        assert forall|j: int| 0 <= j < k implies #[trigger] v[j] >= INF0 by {
            assert(j == 0 || j == 1 || j == 2);
        }
    }
}

/// Tet `t` is to be the seed of cell `i`: its first real vertex lies there, and the cell is in the
/// block.
pub open spec fn seeds_cell<C: Fn(Place, u32) -> (u32, u32, u32)>(
    ts: Seq<Tet>,
    cell: C,
    bound: Locked,
    t: int,
    i: int,
) -> bool {
    first_real(ts[t].verts) matches Some(v) && {
        let c = cell_of(cell, Place::Point(v), bound.gdim);
        &&& -1 <= c.0 - bound.center.0 <= 1
        &&& -1 <= c.1 - bound.center.1 <= 1
        &&& -1 <= c.2 - bound.center.2 <= 1
        &&& i == (c.0 * bound.gdim + c.1) * bound.gdim + c.2
    }
}

/// Each cell of the block has the newest of the new tets that are to be its seed; a cell without
/// one keeps its seed, and so does each cell outside the block.
pub proof fn seeds_are_the_newest<C: Fn(Place, u32) -> (u32, u32, u32)>(
    seeds: Seq<u32>,
    ts: Seq<Tet>,
    cell: C,
    bound: Locked,
    from: int,
    n: int,
    i: int,
)
    requires
        seeds.len() == bound.gdim * bound.gdim * bound.gdim,
        0 < bound.gdim <= lock_grid::MAX_GDIM,
        forall|p: u32|
            {
                let c = #[trigger] cell_of(cell, Place::Point(p), bound.gdim);
                c.0 < bound.gdim && c.1 < bound.gdim && c.2 < bound.gdim
            },
        0 <= i < seeds.len(),
        0 <= n,
        0 <= from,
        from + n <= u32::MAX,
    ensures
        ({
            let after = seeds_after(seeds, ts, cell, bound, from, n);
            &&& after.len() == seeds.len()
            &&& (forall|t: int|
                from <= t < from + n ==> !#[trigger] seeds_cell(ts, cell, bound, t, i)) ==> after[i]
                == seeds[i]
            &&& forall|t: int|
                from <= t < from + n && #[trigger] seeds_cell(ts, cell, bound, t, i) ==> t
                    <= after[i] < from + n
            &&& after[i] == seeds[i] || seeds_cell(ts, cell, bound, after[i] as int, i)
        }),
    decreases n,
{
    if n > 0 {
        seeds_are_the_newest(seeds, ts, cell, bound, from, n - 1, i);
        let before = seeds_after(seeds, ts, cell, bound, from, n - 1);
        let t = from + n - 1;
        let after = seeds_after(seeds, ts, cell, bound, from, n);
        if let Some(v) = first_real(ts[t].verts) {
            let c = cell_of(cell, Place::Point(v), bound.gdim);
            lock_grid::cell_index_bounds(
                bound.gdim as int,
                (c.0 as int, c.1 as int, c.2 as int),
            );
        }
        if seeds_cell(ts, cell, bound, t, i) {
            assert(after[i] == t);
        } else {
            assert(after[i] == before[i]);
            assert forall|u: int|
                from <= u < from + n && #[trigger] seeds_cell(ts, cell, bound, u, i) implies u
                <= after[i] < from + n by {
                assert(u < from + n - 1);
            }
        }
    }
}

} // verus!
