//! The triangulation of a point set.

use super::arena::{self, Arena, Tet, INF0, INF_NONE};
use super::cavity::Scratch;
use super::closed;
use super::geometry::{self, Place, Site};
use super::hilbert;
use super::insert::{self, InsertError};
use super::level;
use super::lock_grid::{LockGrid, MAX_GDIM};
use vstd::prelude::*;

verus! {

/// Every so many points one is inserted without locks, to begin with.
pub const SERIAL_STRIDE: u32 = 512;

/// Each level inserts the points at multiples of its stride.
pub const LEVEL_STRIDES: [u32; 3] = [64, 8, 1];

/// The vertices of the bounding tet.
pub open spec fn is_bounding(t: Tet) -> bool {
    &&& t.verts[0] == INF0 && t.verts[1] == INF0 + 1 && t.verts[2] == INF0 + 2 && t.verts[3] == INF0
        + 3
    &&& t.neighbors[0] == INF_NONE && t.neighbors[1] == INF_NONE && t.neighbors[2] == INF_NONE
        && t.neighbors[3] == INF_NONE
    &&& t.alive
}

/// `t` is alive and all its vertices are real.
pub open spec fn is_output(t: Tet) -> bool {
    &&& t.alive
    &&& t.verts[0] < INF0 && t.verts[1] < INF0 && t.verts[2] < INF0 && t.verts[3] < INF0
}

/// The live tets without virtual vertices, in order.
pub open spec fn output_tets(ts: Seq<Tet>) -> Seq<Tet>
    decreases ts.len(),
{
    if ts.len() == 0 {
        Seq::empty()
    } else if is_output(ts.last()) {
        output_tets(ts.drop_last()).push(ts.last())
    } else {
        output_tets(ts.drop_last())
    }
}

/// `out` has the vertices of `v`, looked up in `order`.
pub open spec fn looked_up(v: [u32; 4], out: [u32; 4], order: Seq<u32>) -> bool {
    &&& out[0] == order[v[0] as int]
    &&& out[1] == order[v[1] as int]
    &&& out[2] == order[v[2] as int]
    &&& out[3] == order[v[3] as int]
}

/// `out` lists the live tets of `ts` without virtual vertices, with their vertices looked
/// up in `order`.
pub open spec fn is_output_of(ts: Seq<Tet>, order: Seq<u32>, out: Seq<[u32; 4]>) -> bool {
    &&& out.len() == output_tets(ts).len()
    &&& forall|i: int|
        0 <= i < out.len() ==> looked_up(output_tets(ts)[i].verts, #[trigger] out[i], order)
}

/// Four different ids below `n`.
pub open spec fn is_real_tet(v: [u32; 4], n: nat) -> bool {
    &&& v[0] < n && v[1] < n && v[2] < n && v[3] < n
    &&& arena::distinct(v)
}

/// The ids below `n` in ascending order.
pub open spec fn all_ids(n: nat) -> Seq<u32> {
    Seq::new(n, |i: int| i as u32)
}

proof fn output_from(ts: Seq<Tet>, i: int) -> (t: int)
    requires
        0 <= i < output_tets(ts).len(),
    ensures
        0 <= t < ts.len(),
        ts[t] == output_tets(ts)[i],
        is_output(ts[t]),
    decreases ts.len(),
{
    if is_output(ts.last()) && i == output_tets(ts).len() - 1 {
        ts.len() - 1
    } else {
        output_from(ts.drop_last(), i)
    }
}

/// The output consists of tets with four different vertices of the input.
pub proof fn output_is_real(ts: Seq<Tet>, n_real: u32, order: Seq<u32>, out: Seq<[u32; 4]>, i: int)
    requires
        arena::well_linked(ts, n_real),
        hilbert::is_permutation(order, n_real as nat),
        is_output_of(ts, order, out),
        0 <= i < out.len(),
    ensures
        is_real_tet(out[i], n_real as nat),
{
    let t = output_from(ts, i);
    assert(arena::valid_verts(ts[t].verts, n_real));
    let v = output_tets(ts)[i].verts;
    assert(looked_up(v, out[i], order));
    assert(order[v[0] as int] < n_real && order[v[1] as int] < n_real && order[v[2] as int] < n_real
        && order[v[3] as int] < n_real);
}

/// Collect the output: live, all-real tets, remapped to caller indices.
pub fn collect_tets(arena: &Arena, order: &Vec<u32>) -> (out: Vec<[u32; 4]>)
    requires
        arena.wf(),
        hilbert::is_permutation(order@, arena.n_real as nat),
    ensures
        is_output_of(arena@, order@, out@),
        forall|i: int|
            0 <= i < out@.len() ==> is_real_tet(#[trigger] out@[i], arena.n_real as nat),
{
    let ghost ts = arena@;
    let mut out: Vec<[u32; 4]> = Vec::new();
    assert(ts.take(0) =~= Seq::<Tet>::empty());
    for t in 0..arena.tets.len()
        invariant
            arena.wf(),
            ts == arena@,
            hilbert::is_permutation(order@, arena.n_real as nat),
            is_output_of(ts.take(t as int), order@, out@),
    {
        let tet = arena.tets[t];
        assert(ts.take(t + 1).drop_last() =~= ts.take(t as int));
        assert(ts.take(t + 1).last() == tet);
        assert(arena::valid_verts(ts[t as int].verts, arena.n_real));
        if tet.alive && !arena::is_virtual(tet.verts[0]) && !arena::is_virtual(tet.verts[1])
            && !arena::is_virtual(tet.verts[2]) && !arena::is_virtual(tet.verts[3]) {
            out.push(
                [
                    order[tet.verts[0] as usize],
                    order[tet.verts[1] as usize],
                    order[tet.verts[2] as usize],
                    order[tet.verts[3] as usize],
                ],
            );
        }
    }
    assert(ts.take(ts.len() as int) =~= ts);
    proof {
        assert forall|i: int| 0 <= i < out@.len() implies is_real_tet(
            #[trigger] out@[i],
            arena.n_real as nat,
        ) by {
            output_is_real(ts, arena.n_real, order@, out@, i);
        }
    }
    out
}

/// An arena for `n` points that holds the bounding tet alone.
fn bounding_arena(n: u32) -> (a: Arena)
    requires
        n <= INF0,
    ensures
        a.wf(),
        a.n_real == n,
        a.cap == arena_capacity(n),
        a@.len() == 1,
        is_bounding(a@[0]),
        forall|p: u32| p < n ==> #[trigger] insert::unused(a@, p),
{
    let want: u64 = n as u64 * 32 + 64;
    let cap: usize = if want < INF_NONE as u64 {
        want as usize
    } else {
        INF_NONE as usize
    };
    let mut a = Arena { n_real: n, tets: Vec::new(), cap };
    let _ = a.add_tet([INF0, 0xffff_fffd, 0xffff_fffe, 0xffff_ffff]);
    proof {
        let t = a@[0];
        assert(arena::valid_verts(t.verts, n));
        assert forall|i: int| 0 <= i < 4 implies #[trigger] a@[0].neighbors[i] == INF_NONE by {}
        assert forall|p: u32| p < n implies #[trigger] insert::unused(a@, p) by {
            assert(!arena::has_vert(a@[0].verts, p));
        }
    }
    a
}

/// How many tets are made room for: 32 for each point and some more, as far as tet ids
/// reach.
pub open spec fn arena_capacity(n: u32) -> int {
    if n * 32 + 64 < INF_NONE {
        n * 32 + 64
    } else {
        INF_NONE as int
    }
}

/// The points below `n` at multiples of `stride` that are not multiples of `coarser`.
fn level_points(n: u32, stride: u32, coarser: u32) -> (pids: Vec<u32>)
    requires
        stride > 0,
        coarser > 0,
    ensures
        pids@.no_duplicates(),
        forall|p: u32| #[trigger]
            pids@.contains(p) <==> p < n && p % stride == 0 && p % coarser != 0,
{
    let mut pids: Vec<u32> = Vec::new();
    for p in 0..n
        invariant
            stride > 0,
            coarser > 0,
            forall|i: int, j: int| 0 <= i < j < pids@.len() ==> pids@[i] < pids@[j],
            forall|i: int| 0 <= i < pids@.len() ==> #[trigger] pids@[i] < p,
            forall|q: u32| #[trigger]
                pids@.contains(q) <==> q < p && q % stride == 0 && q % coarser != 0,
    {
        let ghost before = pids@;
        if p % stride == 0 && p % coarser != 0 {
            pids.push(p);
            proof {
                assert forall|q: u32| #[trigger] pids@.contains(q) <==> before.contains(q) || q
                    == p by {
                    if before.contains(q) {
                        let i = before.index_of(q);
                        assert(pids@[i] == q);
                    }
                    if q == p {
                        assert(pids@[before.len() as int] == q);
                    }
                }
            }
        }
    }
    pids
}

/// Of the points below `n`, the multiples of `stride` are inserted.
spec fn inserted_up_to<
    O: Fn([u32; 4], usize, Site) -> bool,
    I: Fn([u32; 4], u32) -> bool,
    R: Fn([u32; 4], Site) -> i64,
>(
    outside: O,
    inside: I,
    nearness: R,
    first: Seq<Tet>,
    now: Seq<Tet>,
    n: u32,
    stride: u32,
    trace: Seq<Seq<Tet>>,
    run: Seq<u32>,
) -> bool {
    &&& level::is_run(outside, inside, nearness, trace, run)
    &&& trace[0] == first
    &&& trace.last() == now
    &&& run.no_duplicates()
    &&& forall|p: u32| #[trigger] run.contains(p) <==> p < n && p % stride == 0
    &&& forall|p: u32| p < n && p % stride != 0 ==> #[trigger] insert::unused(now, p)
}

/// Lock-grid 3D Delaunay. `order` is the insertion order of the points, and the closures
/// speak of them by their place in it. `grid_dim` sizes the grid for a number of points.
/// Returns tets as `[v0, v1, v2, v3]` in the ids that `order` holds.
///
/// A few points are inserted without locks; then levels of strided samples of the order
/// follow, each under a lock grid sized to the density that it ends at.
pub fn delaunay_3d<
    O: Fn([u32; 4], usize, Site) -> bool,
    I: Fn([u32; 4], u32) -> bool,
    R: Fn([u32; 4], Site) -> i64,
    C: Fn(Place, u32) -> (u32, u32, u32),
    G: Fn(usize) -> u32,
>(
    order: &Vec<u32>,
    outside: &O,
    inside: &I,
    nearness: &R,
    cell: &C,
    grid_dim: &G,
) -> (r: Result<Vec<[u32; 4]>, InsertError>)
    requires
        order@.len() <= INF0,
        hilbert::is_permutation(order@, order@.len()),
        geometry::is_face_test(*outside),
        geometry::is_sphere_test(*inside),
        geometry::is_nearness(*nearness),
        geometry::is_cell_map(*cell),
        forall|n: usize| #[trigger] grid_dim.requires((n,)),
        forall|n: usize, g: u32| #[trigger]
            grid_dim.ensures((n,), g) ==> 0 < g <= MAX_GDIM,
    ensures
        order@.len() < 4 ==> (r matches Ok(out) && out@.len() == 0),
        order@.len() >= 4 ==> exists|first: Seq<Tet>, last: Seq<Tet>|
            {
                &&& #[trigger] triangulated(
                    *outside,
                    *inside,
                    *nearness,
                    order@.len(),
                    first,
                    last,
                    r is Ok,
                )
                &&& match r {
                    Ok(out) => is_output_of(last, order@, out@),
                    Err(e) => level::is_stuck(
                        last,
                        arena_capacity(order@.len() as u32) as usize,
                        *outside,
                        *inside,
                        *nearness,
                        *cell,
                        all_ids(order@.len()),
                        e,
                    ),
                }
            },
        r matches Ok(out) ==> forall|i: int|
            0 <= i < out@.len() ==> is_real_tet(#[trigger] out@[i], order@.len()),
{
    let n: u32 = order.len() as u32;
    if n < 4 {
        return Ok(Vec::new());
    }
    let mut arena = bounding_arena(n);
    let ghost first = arena@;
    let ghost mut trace: Seq<Seq<Tet>> = seq![first];
    let ghost mut run: Seq<u32> = Seq::empty();
    let mut scratch = Scratch::new();
    let mut hint: u32 = 0;
    let mut inserted: usize = 0;
    assert(level::is_run(*outside, *inside, *nearness, trace, run));

    let mut next: u64 = 0;
    while next < n as u64
        invariant
            4 <= n <= INF0,
            n == order@.len(),
            arena.wf(),
            arena.n_real == n,
            arena.cap == arena_capacity(n),
            arena@.len() >= 1,
            geometry::is_face_test(*outside),
            geometry::is_sphere_test(*inside),
            geometry::is_nearness(*nearness),
            geometry::is_cell_map(*cell),
            first.len() == 1 && is_bounding(first[0]),
            next % (SERIAL_STRIDE as u64) == 0,
            next <= n + 511,
            inserted <= next,
            level::is_run(*outside, *inside, *nearness, trace, run),
            trace[0] == first,
            trace.last() == arena@,
            run.no_duplicates(),
            forall|p: u32| #[trigger] run.contains(p) <==> p < n && p < next && p % SERIAL_STRIDE == 0,
            forall|p: u32| p < n && !run.contains(p) ==> #[trigger] insert::unused(arena@, p),
        decreases n + SERIAL_STRIDE - next,
    {
        let pid: u32 = next as u32;
        let ghost now = arena@;
        assert(!run.contains(pid));
        match insert::serial_insert(
            &mut arena,
            pid,
            hint,
            outside,
            inside,
            nearness,
            cell,
            &mut scratch,
        ) {
            Ok(t) => {
                hint = t;
                proof {
                    assert(level::inserts(now, arena@, *outside, *inside, *nearness, pid));
                    level::run_extended(*outside, *inside, *nearness, trace, run, arena@, pid);
                    let start = choose|start: u32| #[trigger]
                        insert::is_insertion(now, arena@, *inside, pid, start);
                    assert forall|p: u32| p < n && !run.push(pid).contains(p) implies #[trigger] insert::unused(
                        arena@,
                        p,
                    ) by {
                        if p == pid {
                            assert(run.push(pid)[run.len() as int] == pid);
                        }
                        if run.contains(p) {
                            let i = run.index_of(p);
                            assert(run.push(pid)[i] == p);
                        }
                        assert(insert::unused(now, p));
                        insert::insertion_uses_only_its_point(
                            now,
                            n,
                            arena@,
                            *inside,
                            pid,
                            start,
                            p,
                        );
                    }
                    pushed(run, pid);
                    trace = trace.push(arena@);
                    run = run.push(pid);
                }
            },
            Err(e) => {
                proof {
                    partial(*outside, *inside, *nearness, n, trace, run);
                    assert(all_ids(n as nat)[pid as int] == pid);
                    assert(all_ids(n as nat).contains(pid));
                    assert(triangulated(
                        *outside,
                        *inside,
                        *nearness,
                        n as nat,
                        first,
                        arena@,
                        false,
                    ));
                }
                return Err(e);
            },
        }
        inserted = inserted + 1;
        proof {
            next_multiple(next);
        }
        next = next + SERIAL_STRIDE as u64;
    }
    let mut coarser: u32 = SERIAL_STRIDE;
    for l in 0..3usize
        invariant
            4 <= n <= INF0,
            n == order@.len(),
            arena.wf(),
            arena.n_real == n,
            arena.cap == arena_capacity(n),
            arena@.len() >= 1,
            geometry::is_face_test(*outside),
            geometry::is_sphere_test(*inside),
            geometry::is_nearness(*nearness),
            geometry::is_cell_map(*cell),
            forall|n: usize| #[trigger] grid_dim.requires((n,)),
            forall|n: usize, g: u32| #[trigger]
                grid_dim.ensures((n,), g) ==> 0 < g <= MAX_GDIM,
            first.len() == 1 && is_bounding(first[0]),
            coarser == stride_before(l as int),
            inserted_up_to(*outside, *inside, *nearness, first, arena@, n, coarser, trace, run),
    {
        let stride: u32 = LEVEL_STRIDES[l];
        assert(coarser == 8 * stride);
        let pids = level_points(n, stride, coarser);
        if pids.len() > 0 {
            inserted = inserted.saturating_add(pids.len());
            let gdim: u32 = grid_dim(inserted);
            let mut grid = LockGrid::new(gdim);
            let ghost now = arena@;
            let h: u32 = match insert::newest_alive(&arena) {
                Some(t) => t,
                None => {
                    proof {
                        partial(*outside, *inside, *nearness, n, trace, run);
                        assert(triangulated(
                            *outside,
                            *inside,
                            *nearness,
                            n as nat,
                            first,
                            arena@,
                            false,
                        ));
                    }
                    return Err(InsertError::NoTet);
                },
            };
            let mut seeds = level::seed_cells(
                &arena,
                &grid,
                h,
                outside,
                nearness,
                cell,
                &mut scratch,
            );
            let ghost points = pids@;
            proof {
                assert forall|p: u32| #[trigger] points.contains(p) implies p < n
                    && insert::unused(now, p) by {}
            }
            match level::insert_level(
                &mut arena,
                &mut grid,
                &mut seeds,
                pids,
                outside,
                inside,
                nearness,
                cell,
                &mut scratch,
            ) {
                Ok(_) => {
                    proof {
                        let (t2, r2) = choose|t2: Seq<Seq<Tet>>, r2: Seq<u32>| #[trigger]
                            level::is_run(*outside, *inside, *nearness, t2, r2) && t2[0] == now
                                && t2.last() == arena@ && level::same_points(r2, points);
                        level::runs_joined(*outside, *inside, *nearness, trace, run, t2, r2);
                        joined(n, coarser, stride, run, r2, points);
                        trace = trace + t2.skip(1);
                        run = run + r2;
                        assert forall|p: u32| p < n && p % stride != 0 implies #[trigger] insert::unused(
                            arena@,
                            p,
                        ) by {
                            multiple_of_multiple(p, stride, coarser);
                            assert(insert::unused(now, p));
                            assert(!points.contains(p));
                        }
                    }
                },
                Err(e) => {
                    proof {
                        let (t2, r2) = choose|t2: Seq<Seq<Tet>>, r2: Seq<u32>|
                            {
                                &&& #[trigger] level::is_run(*outside, *inside, *nearness, t2, r2)
                                &&& t2[0] == now
                                &&& t2.last() == arena@
                                &&& forall|p: u32| #[trigger] r2.contains(p) ==> points.contains(p)
                            };
                        level::runs_joined(*outside, *inside, *nearness, trace, run, t2, r2);
                        assert forall|p: u32| #[trigger] (run + r2).contains(p) implies p < n by {
                            let i = (run + r2).index_of(p);
                            if i < run.len() {
                                assert(run[i] == p);
                                assert(run.contains(p));
                            } else {
                                assert(r2[i - run.len()] == p);
                                assert(r2.contains(p));
                                assert(points.contains(p));
                            }
                        }
                        partial(*outside, *inside, *nearness, n, trace + t2.skip(1), run + r2);
                        assert(triangulated(
                            *outside,
                            *inside,
                            *nearness,
                            n as nat,
                            first,
                            arena@,
                            false,
                        ));
                        assert forall|p: u32| #[trigger] points.contains(p) implies all_ids(
                            n as nat,
                        ).contains(p) by {
                            assert(all_ids(n as nat)[p as int] == p);
                        }
                        stuck_in_more(
                            arena@,
                            arena.cap,
                            *outside,
                            *inside,
                            *nearness,
                            *cell,
                            points,
                            all_ids(n as nat),
                            e,
                        );
                    }
                    return Err(e);
                },
            }
        } else {
            proof {
                assert forall|p: u32| #[trigger] run.contains(p) <==> p < n && p % stride == 0 by {
                    multiple_of_multiple(p, stride, coarser);
                    assert(!pids@.contains(p));
                }
                assert forall|p: u32| p < n && p % stride != 0 implies #[trigger] insert::unused(
                    arena@,
                    p,
                ) by {
                    multiple_of_multiple(p, stride, coarser);
                }
            }
        }
        coarser = stride;
    }
    proof {
        let ids = all_ids(n as nat);
        assert forall|p: u32| #[trigger] run.contains(p) <==> ids.contains(p) by {
            if p < n {
                assert(ids[p as int] == p);
                assert(p % 1 == 0);
            }
        }
        assert(level::has_inserted(*outside, *inside, *nearness, first, arena@, ids));
        assert(triangulated(*outside, *inside, *nearness, n as nat, first, arena@, true));
    }
    Ok(collect_tets(&arena, order))
}

/// `first` is the bounding tet alone, and `last` comes from it by inserting each of the
/// `n` points once (or, if not `whole`, some of them).
pub open spec fn triangulated<
    O: Fn([u32; 4], usize, Site) -> bool,
    I: Fn([u32; 4], u32) -> bool,
    R: Fn([u32; 4], Site) -> i64,
>(
    outside: O,
    inside: I,
    nearness: R,
    n: nat,
    first: Seq<Tet>,
    last: Seq<Tet>,
    whole: bool,
) -> bool {
    &&& first.len() == 1
    &&& is_bounding(first[0])
    &&& if whole {
        level::has_inserted(outside, inside, nearness, first, last, all_ids(n))
    } else {
        level::has_inserted_some(outside, inside, nearness, first, last, all_ids(n))
    }
}

/// A triangulation has no holes: its live tets are glued face to face, and each face of
/// a tet without virtual vertices belongs to another live tet as well.
pub proof fn triangulations_have_no_holes<
    O: Fn([u32; 4], usize, Site) -> bool,
    I: Fn([u32; 4], u32) -> bool,
    R: Fn([u32; 4], Site) -> i64,
>(
    outside: O,
    inside: I,
    nearness: R,
    n: u32,
    first: Seq<Tet>,
    last: Seq<Tet>,
)
    requires
        n <= INF0,
        triangulated(outside, inside, nearness, n as nat, first, last, true),
    ensures
        arena::well_linked(last, n),
        closed::is_closed(last),
        forall|t: int, i: int|
            #![trigger last[t].neighbors[i]]
            0 <= t < last.len() && 0 <= i < 4 && is_output(last[t]) ==> arena::link_returned(
                last,
                t,
                i,
            ),
{
    let ids = all_ids(n as nat);
    let (trace, run) = choose|trace: Seq<Seq<Tet>>, run: Seq<u32>| #[trigger]
        level::is_run(outside, inside, nearness, trace, run) && trace[0] == first
            && trace.last() == last && level::same_points(run, ids);
    assert forall|p: u32| #[trigger] run.contains(p) implies p < n && insert::unused(first, p) by {
        assert(ids.contains(p));
    }
    closed::runs_keep_closed(outside, inside, nearness, n, trace, run, run.len() as int);
}

/// The output leaves nothing out and makes nothing up: reading the tets in order, each that is
/// alive and has four real vertices gives one output tet, whose corners are the places of its
/// vertices in the insertion order, and no other tet gives any.
pub proof fn output_is_the_live_real_tets(ts: Seq<Tet>, order: Seq<u32>, out: Seq<[u32; 4]>) -> (src:
    Seq<int>)
    requires
        is_output_of(ts, order, out),
    ensures
        src.len() == out.len(),
        forall|i: int| 0 <= i < src.len() ==> 0 <= #[trigger] src[i] < ts.len(),
        forall|i: int, j: int| 0 <= i < j < src.len() ==> src[i] < src[j],
        forall|i: int|
            #![trigger src[i]]
            0 <= i < out.len() ==> {
                let t = ts[src[i]];
                &&& t.alive
                &&& t.verts[0] < INF0 && t.verts[1] < INF0 && t.verts[2] < INF0 && t.verts[3] < INF0
                &&& out[i][0] == order[t.verts[0] as int] && out[i][1] == order[t.verts[1] as int]
                &&& out[i][2] == order[t.verts[2] as int] && out[i][3] == order[t.verts[3] as int]
            },
        forall|t: int|
            #![trigger ts[t]]
            0 <= t < ts.len() && ts[t].alive && ts[t].verts[0] < INF0 && ts[t].verts[1] < INF0
                && ts[t].verts[2] < INF0 && ts[t].verts[3] < INF0 ==> src.contains(t),
    decreases ts.len(),
{
    if ts.len() == 0 {
        Seq::empty()
    } else {
        let head = ts.drop_last();
        let n = ts.len() - 1;
        let last = ts[n];
        assert forall|t: int| 0 <= t < n implies #[trigger] ts[t] == head[t] by {}
        if last.alive && last.verts[0] < INF0 && last.verts[1] < INF0 && last.verts[2] < INF0
            && last.verts[3] < INF0 {
            assert(output_tets(ts) == output_tets(head).push(last));
            let m = out.len() - 1;
            let front = out.drop_last();
            assert forall|i: int| 0 <= i < front.len() implies looked_up(
                output_tets(head)[i].verts,
                #[trigger] front[i],
                order,
            ) by {
                assert(looked_up(output_tets(ts)[i].verts, out[i], order));
            }
            let before = output_is_the_live_real_tets(head, order, front);
            let src = before.push(n);
            assert(looked_up(output_tets(ts)[m].verts, out[m], order));
            assert forall|i: int| #![trigger src[i]] 0 <= i < m implies ts[src[i]] == head[before[i]]
                && out[i] == front[i] by {}
            assert forall|t: int|
                #![trigger ts[t]]
                0 <= t < ts.len() && ts[t].alive && ts[t].verts[0] < INF0 && ts[t].verts[1] < INF0
                    && ts[t].verts[2] < INF0 && ts[t].verts[3] < INF0 implies src.contains(t) by {
                if t < n {
                    assert(head[t] == ts[t]);
                    assert(before.contains(t));
                    let i = before.index_of(t);
                    assert(src[i] == t);
                } else {
                    assert(src[m] == t);
                }
            }
            src
        } else {
            assert(output_tets(ts) == output_tets(head));
            let src = output_is_the_live_real_tets(head, order, out);
            assert forall|i: int| #![trigger src[i]] 0 <= i < out.len() implies ts[src[i]]
                == head[src[i]] by {}
            assert forall|t: int|
                #![trigger ts[t]]
                0 <= t < ts.len() && ts[t].alive && ts[t].verts[0] < INF0 && ts[t].verts[1] < INF0
                    && ts[t].verts[2] < INF0 && ts[t].verts[3] < INF0 implies src.contains(t) by {
                assert(head[t] == ts[t]);
            }
            src
        }
    }
}

/// The corners of `a` but the one in `slot` are corners of `b`.
pub open spec fn has_face_of(b: [u32; 4], a: [u32; 4], slot: int) -> bool {
    forall|k: int|
        0 <= k < 4 && k != slot ==> b[0] == #[trigger] a[k] || b[1] == a[k] || b[2] == a[k] || b[3]
            == a[k]
}

/// The tets of the output leave no gap between them: behind each face of an output tet is
/// another output tet with the same three corners, or the face is part of the hull, where a
/// live tet with a virtual vertex has it.
pub proof fn the_output_leaves_no_gap<
    O: Fn([u32; 4], usize, Site) -> bool,
    I: Fn([u32; 4], u32) -> bool,
    R: Fn([u32; 4], Site) -> i64,
>(
    outside: O,
    inside: I,
    nearness: R,
    n: u32,
    first: Seq<Tet>,
    last: Seq<Tet>,
    order: Seq<u32>,
    out: Seq<[u32; 4]>,
    i: int,
    slot: int,
)
    requires
        n <= INF0,
        triangulated(outside, inside, nearness, n as nat, first, last, true),
        is_output_of(last, order, out),
        0 <= i < out.len(),
        0 <= slot < 4,
    ensures
        ({
            ||| exists|j: int|
                0 <= j < out.len() && j != i && #[trigger] has_face_of(out[j], out[i], slot)
            ||| exists|t: int, u: int|
                {
                    &&& 0 <= t < last.len() && 0 <= u < last.len()
                    &&& last[t].alive && last[u].alive && t != u
                    &&& forall|k: int|
                        0 <= k < 4 ==> #[trigger] out[i][k] == order[last[t].verts[k] as int]
                    &&& #[trigger] has_face_of(last[u].verts, last[t].verts, slot)
                    &&& exists|k: int| 0 <= k < 4 && #[trigger] last[u].verts[k] >= INF0
                }
        }),
{
    let src = output_is_the_live_real_tets(last, order, out);
    triangulations_have_no_holes(outside, inside, nearness, n, first, last);
    let t = src[i];
    assert(is_output(last[t]));
    assert(arena::link_returned(last, t, slot)) by {
        assert(0 <= last[t].neighbors[slot]);
    }
    let u = last[t].neighbors[slot] as int;
    let e = arena::apex_slot(last[u].verts, last[t].verts, slot);
    assert(arena::valid_verts(last[t].verts, n) && arena::valid_verts(last[u].verts, n));
    arena::apex_slot_of_shared_face(last[u].verts, e, last[t].verts, slot);
    assert(has_face_of(last[u].verts, last[t].verts, slot));
    if last[u].verts[0] < INF0 && last[u].verts[1] < INF0 && last[u].verts[2] < INF0
        && last[u].verts[3] < INF0 {
        assert(last[u].alive);
        assert(src.contains(u));
        let j = src.index_of(u);
        assert(src[j] == u);
        assert forall|k: int| 0 <= k < 4 && k != slot implies out[j][0] == #[trigger] out[i][k]
            || out[j][1] == out[i][k] || out[j][2] == out[i][k] || out[j][3] == out[i][k] by {
            let v = last[t].verts[k];
            assert(last[u].verts[0] == v || last[u].verts[1] == v || last[u].verts[2] == v
                || last[u].verts[3] == v);
        }
        assert(has_face_of(out[j], out[i], slot));
    } else {
        assert forall|k: int| 0 <= k < 4 implies #[trigger] out[i][k]
            == order[last[t].verts[k] as int] by {}
    }
}

/// The stride of the points that are in when level `l` begins.
spec fn stride_before(l: int) -> u32 {
    if l == 0 {
        SERIAL_STRIDE
    } else if l == 1 {
        64
    } else if l == 2 {
        8
    } else {
        1
    }
}

proof fn next_multiple(next: u64)
    requires
        next % (SERIAL_STRIDE as u64) == 0,
    ensures
        (next + SERIAL_STRIDE) % (SERIAL_STRIDE as int) == 0,
        forall|p: u32|
            next < p < next + SERIAL_STRIDE ==> #[trigger] (p % SERIAL_STRIDE) != 0,
{
    let m = SERIAL_STRIDE as int;
    vstd::arithmetic::div_mod::lemma_mod_add_multiples_vanish(next as int, m);
    assert forall|p: u32| next < p < next + SERIAL_STRIDE implies #[trigger] (p % SERIAL_STRIDE)
        != 0 by {
        vstd::arithmetic::div_mod::lemma_fundamental_div_mod(next as int, m);
        vstd::arithmetic::div_mod::lemma_fundamental_div_mod_converse(
            p as int,
            m,
            next as int / m,
            p - next,
        );
    }
}

proof fn multiple_of_multiple(p: u32, stride: u32, coarser: u32)
    requires
        stride > 0,
        coarser == 8 * stride,
    ensures
        p % coarser == 0 ==> p % stride == 0,
{
    if p % coarser == 0 {
        let k = p / coarser;
        vstd::arithmetic::div_mod::lemma_fundamental_div_mod(p as int, coarser as int);
        assert(p == (8 * k) * stride) by (nonlinear_arith)
            requires
                p == coarser * k,
                coarser == 8 * stride,
        ;
        vstd::arithmetic::div_mod::lemma_mod_multiples_basic(8 * k, stride as int);
    }
}

proof fn pushed(run: Seq<u32>, pid: u32)
    requires
        run.no_duplicates(),
        !run.contains(pid),
    ensures
        run.push(pid).no_duplicates(),
        forall|p: u32| #[trigger] run.push(pid).contains(p) <==> run.contains(p) || p == pid,
{
    let r = run.push(pid);
    assert forall|p: u32| #[trigger] r.contains(p) <==> run.contains(p) || p == pid by {
        if run.contains(p) {
            let i = run.index_of(p);
            assert(r[i] == p);
        }
        if p == pid {
            assert(r[run.len() as int] == p);
        }
    }
    assert forall|i: int, j: int| 0 <= i < r.len() && 0 <= j < r.len() && i != j implies r[i] != r[j] by {
        let lo = if i < j { i } else { j };
        assert(run.contains(run[lo]));
    }
}

proof fn joined(n: u32, coarser: u32, stride: u32, run: Seq<u32>, more: Seq<u32>, points: Seq<u32>)
    requires
        stride > 0,
        coarser == 8 * stride,
        run.no_duplicates(),
        forall|p: u32| #[trigger] run.contains(p) <==> p < n && p % coarser == 0,
        forall|p: u32| #[trigger]
            points.contains(p) <==> p < n && p % stride == 0 && p % coarser != 0,
        level::same_points(more, points),
    ensures
        (run + more).no_duplicates(),
        forall|p: u32| #[trigger] (run + more).contains(p) <==> p < n && p % stride == 0,
{
    let r = run + more;
    assert forall|p: u32| #[trigger] r.contains(p) <==> p < n && p % stride == 0 by {
        multiple_of_multiple(p, stride, coarser);
        if r.contains(p) {
            let i = r.index_of(p);
            if i < run.len() {
                assert(run[i] == p);
                assert(run.contains(p));
            } else {
                assert(more[i - run.len()] == p);
                assert(more.contains(p));
            }
        }
        if run.contains(p) {
            let i = run.index_of(p);
            assert(r[i] == p);
        }
        if more.contains(p) {
            let i = more.index_of(p);
            assert(r[run.len() + i] == p);
        }
        if p < n && p % stride == 0 && p % coarser != 0 {
            assert(points.contains(p));
            assert(more.contains(p));
        }
    }
    assert forall|i: int, j: int| 0 <= i < r.len() && 0 <= j < r.len() && i != j implies r[i] != r[j] by {
        let lo = if i < j { i } else { j };
        let hi = if i < j { j } else { i };
        if lo < run.len() && hi >= run.len() {
            assert(run.contains(run[lo]));
            assert(more.contains(more[hi - run.len()]));
            assert(points.contains(more[hi - run.len()]));
        }
    }
}

proof fn partial<
    O: Fn([u32; 4], usize, Site) -> bool,
    I: Fn([u32; 4], u32) -> bool,
    R: Fn([u32; 4], Site) -> i64,
>(
    outside: O,
    inside: I,
    nearness: R,
    n: u32,
    trace: Seq<Seq<Tet>>,
    run: Seq<u32>,
)
    requires
        level::is_run(outside, inside, nearness, trace, run),
        forall|p: u32| #[trigger] run.contains(p) ==> p < n,
    ensures
        level::has_inserted_some(
            outside,
            inside,
            nearness,
            trace[0],
            trace.last(),
            all_ids(n as nat),
        ),
{
    let ids = all_ids(n as nat);
    assert forall|p: u32| #[trigger] run.contains(p) implies ids.contains(p) by {
        assert(ids[p as int] == p);
    }
}

proof fn stuck_in_more<
    O: Fn([u32; 4], usize, Site) -> bool,
    I: Fn([u32; 4], u32) -> bool,
    R: Fn([u32; 4], Site) -> i64,
    C: Fn(Place, u32) -> (u32, u32, u32),
>(
    ts: Seq<Tet>,
    cap: usize,
    outside: O,
    inside: I,
    nearness: R,
    cell: C,
    few: Seq<u32>,
    more: Seq<u32>,
    e: InsertError,
)
    requires
        level::is_stuck(ts, cap, outside, inside, nearness, cell, few, e),
        forall|p: u32| #[trigger] few.contains(p) ==> more.contains(p),
    ensures
        level::is_stuck(ts, cap, outside, inside, nearness, cell, more, e),
{
}

/// A triangulation begins with one live tet between the four virtual vertices, and inserts each of
/// the points once, and nothing else.
pub proof fn every_point_is_inserted_once<
    O: Fn([u32; 4], usize, Site) -> bool,
    I: Fn([u32; 4], u32) -> bool,
    R: Fn([u32; 4], Site) -> i64,
>(
    outside: O,
    inside: I,
    nearness: R,
    n: u32,
    first: Seq<Tet>,
    last: Seq<Tet>,
) -> (r: (Seq<Seq<Tet>>, Seq<u32>))
    requires
        triangulated(outside, inside, nearness, n as nat, first, last, true),
    ensures
        ({
            let (trace, run) = r;
            &&& trace[0] == first && trace.last() == last
            &&& first.len() == 1 && first[0].alive
            &&& forall|j: int| 0 <= j < 4 ==> #[trigger] first[0].verts[j] >= INF0
            &&& forall|i: int, j: int|
                0 <= i < j < 4 ==> #[trigger] first[0].verts[i] != #[trigger] first[0].verts[j]
            &&& run.no_duplicates()
            &&& forall|p: u32| #[trigger] run.contains(p) <==> p < n
            &&& trace.len() == run.len() + 1
            &&& forall|i: int|
                #![trigger run[i]]
                0 <= i < run.len() ==> level::inserts(
                    trace[i],
                    trace[i + 1],
                    outside,
                    inside,
                    nearness,
                    run[i],
                )
        }),
{
    let ids = all_ids(n as nat);
    let (trace, run) = choose|trace: Seq<Seq<Tet>>, run: Seq<u32>| #[trigger]
        level::is_run(outside, inside, nearness, trace, run) && trace[0] == first && trace.last()
            == last && level::same_points(run, ids);
    assert forall|p: u32| #[trigger] run.contains(p) <==> p < n by {
        assert(run.contains(p) <==> ids.contains(p));
        if p < n {
            assert(ids[p as int] == p);
        }
    }
    (trace, run)
}

} // verus!
