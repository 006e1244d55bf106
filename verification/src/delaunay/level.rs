//! Insertion of whole levels of points.

use super::arena::{self, Arena, Tet};
use super::cavity::{Scratch, Wall};
use super::geometry::{self, Place, Site};
use super::insert::{self, InsertError};
use super::locate;
use super::lock_grid::{self, LockGrid};
use super::locked_insert::{self, Ins};
use vstd::prelude::*;

verus! {

/// A residual of at most this many points is inserted without locks.
pub const SERIAL_TAIL: usize = 4096;

/// Most passes of locked insertion over one level.
pub const MAX_PASSES: u32 = 12;

/// The search for `pid` ends at tet `start`: `pid` lies beyond none of its faces, or,
/// where a walk fails, the scan of the live tets settles on it.
pub open spec fn is_located<
    O: Fn([u32; 4], usize, Site) -> bool,
    R: Fn([u32; 4], Site) -> i64,
>(ts: Seq<Tet>, outside: O, nearness: R, pid: u32, start: u32) -> bool {
    ||| locate::first_outside(outside, ts[start as int].verts, Site::Point(pid)) is None
    ||| insert::is_nearest(ts, nearness, Site::Point(pid), start)
}

/// `post` is `pre` with `pid` inserted where the search for it ends.
pub open spec fn inserts<
    O: Fn([u32; 4], usize, Site) -> bool,
    I: Fn([u32; 4], u32) -> bool,
    R: Fn([u32; 4], Site) -> i64,
>(
    pre: Seq<Tet>,
    post: Seq<Tet>,
    outside: O,
    inside: I,
    nearness: R,
    pid: u32,
) -> bool {
    exists|start: u32| #[trigger]
        insert::is_insertion(pre, post, inside, pid, start) && is_located(
            pre,
            outside,
            nearness,
            pid,
            start,
        )
}

/// `trace` holds the states of the triangulation while `pids` are inserted one after
/// the other.
pub open spec fn is_run<
    O: Fn([u32; 4], usize, Site) -> bool,
    I: Fn([u32; 4], u32) -> bool,
    R: Fn([u32; 4], Site) -> i64,
>(
    outside: O,
    inside: I,
    nearness: R,
    trace: Seq<Seq<Tet>>,
    pids: Seq<u32>,
) -> bool {
    &&& trace.len() == pids.len() + 1
    &&& forall|i: int|
        #![trigger pids[i]]
        0 <= i < pids.len() ==> inserts(trace[i], trace[i + 1], outside, inside, nearness, pids[i])
}

/// `post` comes from `pre` by inserting the points of `pids`, each once, in some order.
pub open spec fn has_inserted<
    O: Fn([u32; 4], usize, Site) -> bool,
    I: Fn([u32; 4], u32) -> bool,
    R: Fn([u32; 4], Site) -> i64,
>(
    outside: O,
    inside: I,
    nearness: R,
    pre: Seq<Tet>,
    post: Seq<Tet>,
    pids: Seq<u32>,
) -> bool {
    exists|trace: Seq<Seq<Tet>>, run: Seq<u32>| #[trigger]
        is_run(outside, inside, nearness, trace, run) && trace[0] == pre && trace.last() == post
            && same_points(run, pids)
}

/// Both list the same points, and `a` lists none twice.
pub open spec fn same_points(a: Seq<u32>, b: Seq<u32>) -> bool {
    &&& a.no_duplicates()
    &&& forall|p: u32| #[trigger] a.contains(p) <==> b.contains(p)
}

/// The points of `pids` can be inserted: they are real, differ, and no tet uses them.
pub open spec fn insertable(ts: Seq<Tet>, n_real: u32, pids: Seq<u32>) -> bool {
    &&& pids.no_duplicates()
    &&& forall|p: u32| #[trigger] pids.contains(p) ==> p < n_real && insert::unused(ts, p)
}

/// `post` comes from `pre` by inserting some of the points of `pids`.
pub open spec fn has_inserted_some<
    O: Fn([u32; 4], usize, Site) -> bool,
    I: Fn([u32; 4], u32) -> bool,
    R: Fn([u32; 4], Site) -> i64,
>(
    outside: O,
    inside: I,
    nearness: R,
    pre: Seq<Tet>,
    post: Seq<Tet>,
    pids: Seq<u32>,
) -> bool {
    exists|trace: Seq<Seq<Tet>>, run: Seq<u32>|
        {
            &&& #[trigger] is_run(outside, inside, nearness, trace, run)
            &&& trace[0] == pre
            &&& trace.last() == post
            &&& forall|p: u32| #[trigger] run.contains(p) ==> pids.contains(p)
        }
}

/// Why inserting the points of `pids` cannot go on from `ts`: the cavity of one of them
/// has more walls than the arena has room for, or no live tet can be found for it.
pub open spec fn is_stuck<
    O: Fn([u32; 4], usize, Site) -> bool,
    I: Fn([u32; 4], u32) -> bool,
    R: Fn([u32; 4], Site) -> i64,
    C: Fn(Place, u32) -> (u32, u32, u32),
>(
    ts: Seq<Tet>,
    cap: usize,
    outside: O,
    inside: I,
    nearness: R,
    cell: C,
    pids: Seq<u32>,
    e: InsertError,
) -> bool {
    match e {
        InsertError::ArenaFull => exists|
            pid: u32,
            start: u32,
            removed: Seq<u32>,
            boundary: Seq<Wall>,
        |
            {
                &&& #[trigger] insert::is_carving(ts, inside, pid, start, removed, boundary)
                &&& is_located(ts, outside, nearness, pid, start)
                &&& pids.contains(pid)
                &&& ts.len() + boundary.len() > cap
            },
        InsertError::NoTet => {
            ||| forall|t: int| #![trigger ts[t]] 0 <= t < ts.len() ==> !ts[t].alive
            ||| exists|pid: u32, hint: u32, start: u32|
                {
                    &&& #[trigger] insert::found_from(
                        ts,
                        outside,
                        nearness,
                        cell,
                        Site::Point(pid),
                        hint,
                        start,
                    )
                    &&& pids.contains(pid)
                    &&& start >= ts.len() || !ts[start as int].alive
                }
        },
    }
}

pub proof fn run_extended<
    O: Fn([u32; 4], usize, Site) -> bool,
    I: Fn([u32; 4], u32) -> bool,
    R: Fn([u32; 4], Site) -> i64,
>(
    outside: O,
    inside: I,
    nearness: R,
    trace: Seq<Seq<Tet>>,
    run: Seq<u32>,
    post: Seq<Tet>,
    pid: u32,
)
    requires
        is_run(outside, inside, nearness, trace, run),
        inserts(trace.last(), post, outside, inside, nearness, pid),
    ensures
        is_run(outside, inside, nearness, trace.push(post), run.push(pid)),
{
    let t = trace.push(post);
    let r = run.push(pid);
    assert forall|i: int| #![trigger r[i]] 0 <= i < r.len() implies inserts(
        t[i],
        t[i + 1],
        outside, inside, nearness,
        r[i],
    ) by {
        if i < run.len() {
            assert(r[i] == run[i]);
        }
    }
}

pub proof fn runs_joined<
    O: Fn([u32; 4], usize, Site) -> bool,
    I: Fn([u32; 4], u32) -> bool,
    R: Fn([u32; 4], Site) -> i64,
>(
    outside: O,
    inside: I,
    nearness: R,
    trace1: Seq<Seq<Tet>>,
    run1: Seq<u32>,
    trace2: Seq<Seq<Tet>>,
    run2: Seq<u32>,
)
    requires
        is_run(outside, inside, nearness, trace1, run1),
        is_run(outside, inside, nearness, trace2, run2),
        trace1.last() == trace2[0],
    ensures
        is_run(outside, inside, nearness, trace1 + trace2.skip(1), run1 + run2),
        (trace1 + trace2.skip(1))[0] == trace1[0],
        (trace1 + trace2.skip(1)).last() == trace2.last(),
{
    let t = trace1 + trace2.skip(1);
    let r = run1 + run2;
    assert forall|i: int| #![trigger r[i]] 0 <= i < r.len() implies inserts(
        t[i],
        t[i + 1],
        outside, inside, nearness,
        r[i],
    ) by {
        if i < run1.len() {
            assert(r[i] == run1[i]);
        } else {
            let j = i - run1.len();
            assert(r[i] == run2[j]);
            assert(t[i] == trace2[j]);
            assert(t[i + 1] == trace2[j + 1]);
        }
    }
}

proof fn others_stay_insertable<
    O: Fn([u32; 4], usize, Site) -> bool,
    I: Fn([u32; 4], u32) -> bool,
    R: Fn([u32; 4], Site) -> i64,
>(
    pre: Seq<Tet>,
    post: Seq<Tet>,
    n_real: u32,
    outside: O,
    inside: I,
    nearness: R,
    pid: u32,
)
    requires
        arena::well_linked(pre, n_real),
        inserts(pre, post, outside, inside, nearness, pid),
    ensures
        forall|p: u32| p != pid && #[trigger] insert::unused(pre, p) ==> insert::unused(post, p),
{
    let start = choose|start: u32| #[trigger] insert::is_insertion(pre, post, inside, pid, start);
    assert forall|p: u32| p != pid && #[trigger] insert::unused(pre, p) implies insert::unused(
        post,
        p,
    ) by {
        insert::insertion_uses_only_its_point(pre, n_real, post, inside, pid, start, p);
    }
}

/// Build a seed-tet table for `grid` by locating every cell centre in the
/// triangulation. Within a slab of equal first coordinate the walk starts from the seed
/// of the cell before.
pub fn seed_cells<
    O: Fn([u32; 4], usize, Site) -> bool,
    R: Fn([u32; 4], Site) -> i64,
    C: Fn(Place, u32) -> (u32, u32, u32),
>(
    arena: &Arena,
    grid: &LockGrid,
    hint: u32,
    outside: &O,
    nearness: &R,
    cell: &C,
    scratch: &mut Scratch,
) -> (seeds: Vec<u32>)
    requires
        arena.wf(),
        arena@.len() > 0,
        grid.wf(),
        geometry::is_face_test(*outside),
        geometry::is_nearness(*nearness),
        geometry::is_cell_map(*cell),
    ensures
        locked_insert::seeds_ok(seeds@, arena@, grid.gdim),
        forall|c: (u32, u32, u32)|
            c.0 < grid.gdim && c.1 < grid.gdim && c.2 < grid.gdim ==> #[trigger] is_seed(
                arena@,
                *outside,
                *nearness,
                *cell,
                grid.gdim,
                hint,
                seeds@,
                c,
            ),
{
    let g: u32 = grid.gdim;
    let mut seeds: Vec<u32> = Vec::new();
    let ghost lim = (g as int, g as int, g as int);
    for cx in 0..g
        invariant
            arena.wf(),
            arena@.len() > 0,
            grid.wf(),
            g == grid.gdim,
            geometry::is_face_test(*outside),
            geometry::is_nearness(*nearness),
            geometry::is_cell_map(*cell),
            seeds@.len() == lock_grid::cell_index(g as int, (cx as int, 0, 0)),
            forall|i: int| 0 <= i < seeds@.len() ==> #[trigger] seeds@[i] < arena@.len(),
            seeded_before(arena@, *outside, *nearness, *cell, g, hint, seeds@, (cx as int, 0, 0)),
    {
        let mut h: u32 = hint;
        for cy in 0..g
            invariant
                arena.wf(),
                arena@.len() > 0,
                grid.wf(),
                g == grid.gdim,
                cx < g,
                geometry::is_face_test(*outside),
                geometry::is_nearness(*nearness),
                geometry::is_cell_map(*cell),
                seeds@.len() == lock_grid::cell_index(g as int, (cx as int, cy as int, 0)),
                forall|i: int| 0 <= i < seeds@.len() ==> #[trigger] seeds@[i] < arena@.len(),
                seeded_before(
                    arena@,
                    *outside,
                    *nearness,
                    *cell,
                    g,
                    hint,
                    seeds@,
                    (cx as int, cy as int, 0),
                ),
                h == (if cy == 0 {
                    hint
                } else {
                    seeds@[seeds@.len() - 1]
                }),
                cy > 0 ==> seeds@.len() > 0,
        {
            for cz in 0..g
                invariant
                    arena.wf(),
                    arena@.len() > 0,
                    grid.wf(),
                    g == grid.gdim,
                    cx < g,
                    cy < g,
                    geometry::is_face_test(*outside),
                    geometry::is_nearness(*nearness),
                    geometry::is_cell_map(*cell),
                    seeds@.len() == lock_grid::cell_index(
                        g as int,
                        (cx as int, cy as int, cz as int),
                    ),
                    forall|i: int| 0 <= i < seeds@.len() ==> #[trigger] seeds@[i] < arena@.len(),
                    seeded_before(
                        arena@,
                        *outside,
                        *nearness,
                        *cell,
                        g,
                        hint,
                        seeds@,
                        (cx as int, cy as int, cz as int),
                    ),
                    h == (if cy == 0 && cz == 0 {
                        hint
                    } else {
                        seeds@[seeds@.len() - 1]
                    }),
                    cy > 0 || cz > 0 ==> seeds@.len() > 0,
            {
                let ghost before = seeds@;
                let site = Site::CellCentre((cx, cy, cz), g);
                let t: u32 = insert::find_from(arena, site, h, outside, nearness, cell, scratch);
                proof {
                    found_in_range(arena@, *outside, *nearness, *cell, site, h, t);
                }
                seeds.push(t);
                h = t;
                proof {
                    let here = (cx, cy, cz);
                    assert(seeds@[before.len() as int] == t);
                    assert(is_seed(arena@, *outside, *nearness, *cell, g, hint, seeds@, here));
                    assert forall|c: (u32, u32, u32)|
                        cell_before(g, c, (cx as int, cy as int, cz + 1)) implies #[trigger] is_seed(
                        arena@,
                        *outside,
                        *nearness,
                        *cell,
                        g,
                        hint,
                        seeds@,
                        c,
                    ) by {
                        if c != here {
                            assert(is_seed(
                                arena@,
                                *outside,
                                *nearness,
                                *cell,
                                g,
                                hint,
                                before,
                                c,
                            ));
                            lock_grid::cell_index_is_monotone(
                                g as int,
                                (c.0 as int, c.1 as int, c.2 as int),
                                (cx as int, cy as int, cz as int),
                            );
                            lock_grid::cell_index_bounds(
                                g as int,
                                (c.0 as int, c.1 as int, c.2 as int),
                            );
                            if c.1 > 0 || c.2 > 0 {
                                previous_cell_index(g as int, (c.0 as int, c.1 as int, c.2 as int));
                            }
                        }
                    }
                }
            }
            proof {
                let row = cx * g + cy;
                assert((row + 1) * g == row * g + g) by (nonlinear_arith);
            }
        }
        proof {
            let row = cx * g;
            assert((cx + 1) * g == cx * g + g) by (nonlinear_arith);
            assert((row + g) * g + 0 == ((cx + 1) * g + 0) * g + 0);
        }
    }
    proof {
        assert((g * g + 0) * g + 0 == g * g * g);
    }
    seeds
}

/// A cell that is not the first of its slab has an index above 0.
proof fn previous_cell_index(g: int, c: (int, int, int))
    requires
        lock_grid::in_grid(g, c),
        c.1 > 0 || c.2 > 0,
    ensures
        lock_grid::cell_index(g, c) > 0,
{
    let z = (0int, 0int, 0int);
    lock_grid::cell_index_is_monotone(g, z, c);
    assert((0 * g + 0) * g + 0 == 0) by (nonlinear_arith);
}

spec fn cell_before(g: u32, c: (u32, u32, u32), next: (int, int, int)) -> bool {
    &&& c.0 < g && c.1 < g && c.2 < g
    &&& c.0 < next.0 || (c.0 == next.0 && (c.1 < next.1 || (c.1 == next.1 && c.2 < next.2)))
}

spec fn seeded_before<
    O: Fn([u32; 4], usize, Site) -> bool,
    R: Fn([u32; 4], Site) -> i64,
    C: Fn(Place, u32) -> (u32, u32, u32),
>(
    ts: Seq<Tet>,
    outside: O,
    nearness: R,
    cell: C,
    g: u32,
    hint: u32,
    seeds: Seq<u32>,
    next: (int, int, int),
) -> bool {
    forall|c: (u32, u32, u32)|
        cell_before(g, c, next) ==> #[trigger] is_seed(
            ts,
            outside,
            nearness,
            cell,
            g,
            hint,
            seeds,
            c,
        )
}

/// The seed of cell `c` is where the search for its centre ends; the search starts from
/// `hint` in the first cell of a slab, and from the seed before in the others.
pub open spec fn is_seed<
    O: Fn([u32; 4], usize, Site) -> bool,
    R: Fn([u32; 4], Site) -> i64,
    C: Fn(Place, u32) -> (u32, u32, u32),
>(
    ts: Seq<Tet>,
    outside: O,
    nearness: R,
    cell: C,
    g: u32,
    hint: u32,
    seeds: Seq<u32>,
    c: (u32, u32, u32),
) -> bool {
    let i = locked_insert::index_of_cell(g, c);
    let from = if c.1 == 0 && c.2 == 0 {
        hint
    } else {
        seeds[i - 1]
    };
    insert::found_from(ts, outside, nearness, cell, Site::CellCentre(c, g), from, seeds[i])
}

proof fn found_in_range<
    O: Fn([u32; 4], usize, Site) -> bool,
    R: Fn([u32; 4], Site) -> i64,
    C: Fn(Place, u32) -> (u32, u32, u32),
>(ts: Seq<Tet>, outside: O, nearness: R, cell: C, q: Site, hint: u32, t: u32)
    requires
        ts.len() > 0,
        insert::found_from(ts, outside, nearness, cell, q, hint, t),
    ensures
        t < ts.len(),
{
    if exists|path: Seq<u32>| #[trigger]
        locate::is_walk(ts, outside, cell, None, q, hint, path) {
        let path = choose|path: Seq<u32>| #[trigger]
            locate::is_walk(ts, outside, cell, None, q, hint, path) && path.last() == t;
        assert(path[path.len() - 1] == t);
    }
}

/// State of a level: of the points `pids`, those of `run` are inserted and those of
/// `left` are still to be.
spec fn level_state<
    O: Fn([u32; 4], usize, Site) -> bool,
    I: Fn([u32; 4], u32) -> bool,
    R: Fn([u32; 4], Site) -> i64,
>(
    outside: O,
    inside: I,
    nearness: R,
    pre: Seq<Tet>,
    now: Seq<Tet>,
    n_real: u32,
    pids: Seq<u32>,
    trace: Seq<Seq<Tet>>,
    run: Seq<u32>,
    left: Seq<u32>,
) -> bool {
    &&& is_run(outside, inside, nearness, trace, run)
    &&& trace[0] == pre
    &&& trace.last() == now
    &&& pre.len() <= now.len()
    &&& run.no_duplicates()
    &&& insertable(now, n_real, left)
    &&& forall|p: u32| #[trigger] pids.contains(p) <==> run.contains(p) || left.contains(p)
    &&& forall|p: u32| run.contains(p) ==> !#[trigger] left.contains(p)
    &&& forall|p: u32|
        insert::unused(pre, p) && !run.contains(p) ==> #[trigger] insert::unused(now, p)
}

/// One of the points that are left is inserted.
proof fn level_step<
    O: Fn([u32; 4], usize, Site) -> bool,
    I: Fn([u32; 4], u32) -> bool,
    R: Fn([u32; 4], Site) -> i64,
>(
    outside: O,
    inside: I,
    nearness: R,
    pre: Seq<Tet>,
    now: Seq<Tet>,
    post: Seq<Tet>,
    n_real: u32,
    pids: Seq<u32>,
    trace: Seq<Seq<Tet>>,
    run: Seq<u32>,
    left: Seq<u32>,
    k: int,
)
    requires
        level_state(outside, inside, nearness, pre, now, n_real, pids, trace, run, left),
        arena::well_linked(now, n_real),
        0 <= k < left.len(),
        inserts(now, post, outside, inside, nearness, left[k]),
    ensures
        level_state(
            outside, inside, nearness,
            pre,
            post,
            n_real,
            pids,
            trace.push(post),
            run.push(left[k]),
            left.remove(k),
        ),
{
    let pid = left[k];
    let run1 = run.push(pid);
    let left1 = left.remove(k);
    run_extended(outside, inside, nearness, trace, run, post, pid);
    let start = choose|start: u32| #[trigger] insert::is_insertion(now, post, inside, pid, start);
    assert(now.len() <= post.len());
    others_stay_insertable(now, post, n_real, outside, inside, nearness, pid);
    assert(left.contains(pid));
    assert forall|p: u32| #[trigger] left1.contains(p) <==> left.contains(p) && p != pid by {
        if left1.contains(p) {
            let i = left1.index_of(p);
            if i < k {
                assert(left[i] == p);
            } else {
                assert(left[i + 1] == p);
            }
        }
        if left.contains(p) && p != pid {
            let i = left.index_of(p);
            if i < k {
                assert(left1[i] == p);
            } else {
                assert(left1[i - 1] == p);
            }
        }
    }
    assert forall|p: u32| #[trigger] run1.contains(p) <==> run.contains(p) || p == pid by {
        if run.contains(p) {
            let i = run.index_of(p);
            assert(run1[i] == p);
        }
        if p == pid {
            assert(run1[run.len() as int] == p);
        }
    }
    assert forall|i: int, j: int|
        0 <= i < run1.len() && 0 <= j < run1.len() && i != j implies run1[i] != run1[j] by {
        let lo = if i < j { i } else { j };
        let hi = if i < j { j } else { i };
        assert(run[lo] == run1[lo]);
        if hi < run.len() {
            assert(run[hi] == run1[hi]);
        } else {
            assert(run.contains(run[lo]));
        }
    }
    assert forall|p: u32|
        insert::unused(pre, p) && !run1.contains(p) implies #[trigger] insert::unused(post, p) by {
        assert(insert::unused(now, p));
    }
    assert forall|i: int, j: int|
        0 <= i < left1.len() && 0 <= j < left1.len() && i != j implies left1[i] != left1[j] by {
        let a = if i < k { i } else { i + 1 };
        let b = if j < k { j } else { j + 1 };
        assert(left1[i] == left[a] && left1[j] == left[b]);
    }
}

/// The pass that brought `lefts[i]` points left, of `lefts[i - 1]`, got a tenth of them or more in.
pub open spec fn is_worth_another(lefts: Seq<nat>, i: int) -> bool {
    lefts[i] * 10 <= lefts[i - 1] * 9
}

/// Pass `i` was made: there were too many points left for the tail, and the pass before, if there
/// was one, got enough of them in.
pub open spec fn is_pass(lefts: Seq<nat>, i: int) -> bool {
    &&& lefts[i] > SERIAL_TAIL
    &&& lefts[i + 1] <= lefts[i]
    &&& i > 0 ==> is_worth_another(lefts, i)
}

/// `lefts` are the points that were left before each of so many passes, and after the last: passes
/// were made as long as there was a reason to.
pub open spec fn are_passes(lefts: Seq<nat>, passes: int) -> bool {
    &&& lefts.len() == passes + 1
    &&& forall|i: int| 0 <= i < passes ==> #[trigger] is_pass(lefts, i)
    &&& {
        ||| passes == MAX_PASSES
        ||| lefts[passes] <= SERIAL_TAIL
        ||| passes > 0 && !is_worth_another(lefts, passes)
    }
}

/// From `n` points on, so many passes are made, and `tail` points are left then.
pub open spec fn ends_after(n: nat, passes: int, tail: int) -> bool {
    exists|lefts: Seq<nat>| #[trigger]
        are_passes(lefts, passes) && lefts[0] == n && lefts[passes] == tail
}

/// The points that are left get fewer from pass to pass, and each pass but the last gets at least a
/// tenth of them in. No pass is made for so few points that the tail can take them, and the passes
/// end early only if the last one got less than a tenth in.
pub proof fn passes_get_points_in(lefts: Seq<nat>, passes: int, i: int)
    requires
        are_passes(lefts, passes),
        0 <= i < passes,
    ensures
        lefts[i] > 4096,
        lefts[i + 1] <= lefts[i],
        i + 1 < passes ==> 10 * (lefts[i] - lefts[i + 1]) >= lefts[i],
        i + 1 == passes && passes < 12 && lefts[passes] > 4096 ==> 10 * (lefts[i] - lefts[i + 1])
            < lefts[i],
{
    assert(is_pass(lefts, i));
    if i + 1 < passes {
        assert(is_pass(lefts, i + 1));
    }
}

/// One level: repeated passes of locked insertion over the points that are left, while
/// a pass still gets more than a tenth of them in, then a tail without locks. Returns
/// the number of passes and the length of the tail.
pub fn insert_level<
    O: Fn([u32; 4], usize, Site) -> bool,
    I: Fn([u32; 4], u32) -> bool,
    R: Fn([u32; 4], Site) -> i64,
    C: Fn(Place, u32) -> (u32, u32, u32),
>(
    arena: &mut Arena,
    grid: &mut LockGrid,
    seeds: &mut Vec<u32>,
    pids: Vec<u32>,
    outside: &O,
    inside: &I,
    nearness: &R,
    cell: &C,
    scratch: &mut Scratch,
) -> (r: Result<(u32, usize), InsertError>)
    requires
        old(arena).wf(),
        old(grid).wf(),
        locked_insert::seeds_ok(old(seeds)@, old(arena)@, old(grid).gdim),
        geometry::is_face_test(*outside),
        geometry::is_sphere_test(*inside),
        geometry::is_nearness(*nearness),
        geometry::is_cell_map(*cell),
        insertable(old(arena)@, old(arena).n_real, pids@),
    ensures
        final(arena).wf(),
        final(arena).n_real == old(arena).n_real,
        final(arena).cap == old(arena).cap,
        final(arena)@.len() >= old(arena)@.len(),
        final(grid).locks@ == old(grid).locks@,
        r matches Ok(counts) ==> {
            &&& has_inserted(*outside, *inside, *nearness, old(arena)@, final(arena)@, pids@)
            &&& counts.0 <= MAX_PASSES
            &&& counts.0 == 0 <==> pids@.len() <= SERIAL_TAIL
            &&& counts.1 <= pids@.len()
            &&& counts.0 == 0 ==> counts.1 == pids@.len()
            &&& ends_after(pids@.len(), counts.0 as int, counts.1 as int)
            &&& forall|p: u32|
                insert::unused(old(arena)@, p) && !pids@.contains(p) ==> #[trigger] insert::unused(
                    final(arena)@,
                    p,
                )
        },
        r matches Err(e) ==> {
            &&& has_inserted_some(*outside, *inside, *nearness, old(arena)@, final(arena)@, pids@)
            &&& is_stuck(
                final(arena)@,
                final(arena).cap,
                *outside,
                *inside,
                *nearness,
                *cell,
                pids@,
                e,
            )
        },
{
    let ghost pre = arena@;
    let ghost n_real = arena.n_real;
    let ghost mut trace: Seq<Seq<Tet>> = seq![pre];
    let ghost mut run: Seq<u32> = Seq::empty();
    let mut remaining: Vec<u32> = Vec::new();
    for i in 0..pids.len()
        invariant
            remaining@ == pids@.take(i as int),
    {
        remaining.push(pids[i]);
    }
    assert(remaining@ =~= pids@);
    let mut passes: u32 = 0;
    let mut shrinking: bool = true;
    let ghost mut lefts: Seq<nat> = seq![pids@.len()];
    proof {
        assert(is_run(*outside, *inside, *nearness, trace, run));
        assert(level_state(
            *outside,
            *inside,
            *nearness,
            pre,
            arena@,
            n_real,
            pids@,
            trace,
            run,
            remaining@,
        ));
    }
    while shrinking && remaining.len() > SERIAL_TAIL && passes < MAX_PASSES
        invariant
            arena.wf(),
            arena.n_real == n_real,
            n_real == old(arena).n_real,
            pre == old(arena)@,
            arena.cap == old(arena).cap,
            grid.wf(),
            grid.locks@ == old(grid).locks@,
            locked_insert::seeds_ok(seeds@, arena@, grid.gdim),
            geometry::is_face_test(*outside),
            geometry::is_sphere_test(*inside),
            geometry::is_cell_map(*cell),
            level_state(
                *outside,
                *inside,
                *nearness,
                pre,
                arena@,
                n_real,
                pids@,
                trace,
                run,
                remaining@,
            ),
            passes <= MAX_PASSES,
            remaining@.len() <= pids@.len(),
            passes == 0 ==> shrinking && remaining@.len() == pids@.len(),
            passes > 0 ==> pids@.len() > SERIAL_TAIL,
            lefts.len() == passes + 1,
            lefts[0] == pids@.len(),
            lefts.last() == remaining@.len(),
            forall|i: int| 0 <= i < passes ==> #[trigger] is_pass(lefts, i),
            shrinking <==> passes == 0 || is_worth_another(lefts, passes as int),
        decreases MAX_PASSES - passes,
    {
        let before: usize = remaining.len();
        let mut next: Vec<u32> = Vec::new();
        assert(next@ + remaining@.skip(0) =~= remaining@);
        for k in 0..before
            invariant
                before == remaining@.len(),
                before <= pids@.len(),
                arena.wf(),
                arena.n_real == n_real,
            n_real == old(arena).n_real,
            pre == old(arena)@,
                arena.cap == old(arena).cap,
                grid.wf(),
                grid.locks@ == old(grid).locks@,
                locked_insert::seeds_ok(seeds@, arena@, grid.gdim),
                geometry::is_face_test(*outside),
                geometry::is_sphere_test(*inside),
                geometry::is_cell_map(*cell),
                next@.len() <= k,
                level_state(
                    *outside, *inside, *nearness,
                    pre,
                    arena@,
                    n_real,
                    pids@,
                    trace,
                    run,
                    next@ + remaining@.skip(k as int),
                ),
        {
            let pid: u32 = remaining[k];
            let ghost left = next@ + remaining@.skip(k as int);
            let ghost at = next@.len() as int;
            let ghost now = arena@;
            proof {
                assert(left[at] == pid);
                assert(left.contains(pid));
                assert(left.remove(at) =~= next@ + remaining@.skip(k + 1));
                assert(left =~= next@.push(pid) + remaining@.skip(k + 1));
            }
            match locked_insert::try_insert_locked(
                arena,
                grid,
                seeds,
                pid,
                outside,
                inside,
                cell,
                scratch,
            ) {
                Ok(Ins::Committed) => {
                    proof {
                        assert(inserts(now, arena@, *outside, *inside, *nearness, pid));
                        level_step(
                            *outside, *inside, *nearness,
                            pre,
                            now,
                            arena@,
                            n_real,
                            pids@,
                            trace,
                            run,
                            left,
                            at,
                        );
                        trace = trace.push(arena@);
                        run = run.push(pid);
                    }
                },
                Ok(Ins::Deferred) => {
                    next.push(pid);
                },
                Err(e) => {
                    proof {
                        assert(pids@.contains(pid));
                        assert(is_run(*outside, *inside, *nearness, trace, run));
                        assert(has_inserted_some(*outside, *inside, *nearness, pre, arena@, pids@));
                    }
                    return Err(e);
                },
            }
        }
        assert(next@ + remaining@.skip(before as int) =~= next@);
        remaining = next;
        let ghost earlier = lefts;
        proof {
            lefts = lefts.push(remaining@.len());
            assert forall|i: int| 0 <= i < passes + 1 implies #[trigger] is_pass(lefts, i) by {
                assert(lefts[i] == earlier[i]);
                if i < passes {
                    assert(is_pass(earlier, i));
                }
            }
        }
        passes = passes + 1;
        if remaining.len() as u128 * 10 > before as u128 * 9 {
            shrinking = false;
        }
    }

    let n_deferred: usize = remaining.len();
    assert(are_passes(lefts, passes as int));
    assert(ends_after(pids@.len(), passes as int, n_deferred as int));
    let mut h: u32 = match insert::newest_alive(arena) {
        Some(t) => t,
        None => {
            proof {
                assert(is_run(*outside, *inside, *nearness, trace, run));
                assert(has_inserted_some(*outside, *inside, *nearness, pre, arena@, pids@));
            }
            return Err(InsertError::NoTet);
        },
    };
    assert(remaining@.skip(0) =~= remaining@);
    for k in 0..n_deferred
        invariant
            n_deferred == remaining@.len(),
            arena.wf(),
            arena.n_real == n_real,
            n_real == old(arena).n_real,
            pre == old(arena)@,
            arena.cap == old(arena).cap,
            grid.locks@ == old(grid).locks@,
            geometry::is_face_test(*outside),
            geometry::is_sphere_test(*inside),
            geometry::is_nearness(*nearness),
            geometry::is_cell_map(*cell),
            level_state(
                *outside, *inside, *nearness,
                pre,
                arena@,
                n_real,
                pids@,
                trace,
                run,
                remaining@.skip(k as int),
            ),
    {
        let pid: u32 = remaining[k];
        let ghost left = remaining@.skip(k as int);
        let ghost now = arena@;
        proof {
            assert(left[0] == pid);
            assert(left.contains(pid));
            assert(left.remove(0) =~= remaining@.skip(k + 1));
        }
        match insert::serial_insert(arena, pid, h, outside, inside, nearness, cell, scratch) {
            Ok(t) => {
                h = t;
                proof {
                    assert(inserts(now, arena@, *outside, *inside, *nearness, pid));
                    level_step(
                        *outside,
                        *inside,
                        *nearness,
                        pre,
                        now,
                        arena@,
                        n_real,
                        pids@,
                        trace,
                        run,
                        left,
                        0,
                    );
                    trace = trace.push(arena@);
                    run = run.push(pid);
                }
            },
            Err(e) => {
                proof {
                    assert(pids@.contains(pid));
                    assert(is_run(*outside, *inside, *nearness, trace, run));
                    assert(has_inserted_some(*outside, *inside, *nearness, pre, arena@, pids@));
                }
                return Err(e);
            },
        }
    }
    proof {
        let left = remaining@.skip(n_deferred as int);
        assert(left.len() == 0);
        assert forall|p: u32| #[trigger] run.contains(p) <==> pids@.contains(p) by {
            assert(!left.contains(p));
        }
        assert(is_run(*outside, *inside, *nearness, trace, run));
        assert(has_inserted(*outside, *inside, *nearness, pre, arena@, pids@));
    }
    Ok((passes, n_deferred))
}

} // verus!
