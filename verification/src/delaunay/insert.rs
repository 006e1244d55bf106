//! Insertion of one point into the triangulation.

use super::arena::{self, Arena, Tet, INF_NONE};
use super::cavity::{self, Scratch, Wall};
use super::geometry::{self, Place, Site};
use super::locate;
use vstd::prelude::*;

verus! {

/// Why a point could not be inserted.
#[derive(Clone, Copy, Debug, PartialEq, Eq, Structural)]
pub enum InsertError {
    /// The arena has no room for the new tets; the input may be highly
    /// co-spherical.
    ArenaFull,
    /// No live tet could be found for the point.
    NoTet,
}

/// No tet, alive or dead, has the vertex `pid`.
pub open spec fn unused(ts: Seq<Tet>, pid: u32) -> bool {
    forall|t: int| 0 <= t < ts.len() ==> !arena::has_vert((#[trigger] ts[t]).verts, pid)
}

/// The answer of `nearness`.
pub open spec fn score<R: Fn([u32; 4], Site) -> i64>(nearness: R, v: [u32; 4], q: Site) -> i64 {
    choose|s: i64| #[trigger] nearness.ensures((v, q), s)
}

/// `r` is the tet that a scan for `q` settles on: the first live tet that has `q`
/// inside; else the first of the live tets that `q` is nearest to; else, if no live
/// tet is comparable, tet 0.
pub open spec fn is_nearest<R: Fn([u32; 4], Site) -> i64>(
    ts: Seq<Tet>,
    nearness: R,
    q: Site,
    r: u32,
) -> bool {
    ||| {
        &&& r < ts.len() && ts[r as int].alive
        &&& score(nearness, ts[r as int].verts, q) >= 0
        &&& forall|t: int|
            #![trigger ts[t]]
            0 <= t < r && ts[t].alive ==> score(nearness, ts[t].verts, q) < 0
    }
    ||| {
        &&& r < ts.len() && ts[r as int].alive
        &&& i64::MIN < score(nearness, ts[r as int].verts, q) < 0
        &&& forall|t: int|
            #![trigger ts[t]]
            0 <= t < ts.len() && ts[t].alive ==> {
                let s = score(nearness, ts[t].verts, q);
                let best = score(nearness, ts[r as int].verts, q);
                s <= best && (t < r ==> s < best)
            }
    }
    ||| {
        &&& r == 0
        &&& forall|t: int|
            #![trigger ts[t]]
            0 <= t < ts.len() && ts[t].alive ==> score(nearness, ts[t].verts, q) == i64::MIN
    }
}

/// Last-resort point location: scan the live tets for the one containing `q`.
pub fn linear_locate<R: Fn([u32; 4], Site) -> i64>(arena: &Arena, q: Site, nearness: &R) -> (r: u32)
    requires
        arena.wf(),
        geometry::is_nearness(*nearness),
    ensures
        is_nearest(arena@, *nearness, q, r),
{
    let ghost ts = arena@;
    let mut best: u32 = 0;
    let mut best_score: i64 = i64::MIN;
    for i in 0..arena.tets.len()
        invariant
            arena.wf(),
            ts == arena@,
            geometry::is_nearness(*nearness),
            forall|t: int|
                #![trigger ts[t]]
                0 <= t < i && ts[t].alive ==> {
                    let s = score(*nearness, ts[t].verts, q);
                    s < 0 && s <= best_score
                },
            best_score == i64::MIN ==> best == 0,
            best_score > i64::MIN ==> {
                &&& best < i
                &&& ts[best as int].alive
                &&& best_score == score(*nearness, ts[best as int].verts, q)
                &&& forall|t: int|
                    #![trigger ts[t]]
                    0 <= t < best && ts[t].alive ==> score(*nearness, ts[t].verts, q) < best_score
            },
            best_score < 0,
    {
        let tet = arena.tets[i];
        if tet.alive {
            let s: i64 = nearness(tet.verts, q);
            assert(nearness.ensures((ts[i as int].verts, q), s));
            assert(score(*nearness, ts[i as int].verts, q) == s);
            if s >= 0 {
                return i as u32;
            }
            if s > best_score {
                best_score = s;
                best = i as u32;
            }
        }
    }
    best
}

/// `start` is where the search for `q` from `hint` ends: where the walk ends, or, if
/// the walk fails, where the scan does.
pub open spec fn found_from<
    O: Fn([u32; 4], usize, Site) -> bool,
    R: Fn([u32; 4], Site) -> i64,
    C: Fn(Place, u32) -> (u32, u32, u32),
>(ts: Seq<Tet>, outside: O, nearness: R, cell: C, q: Site, hint: u32, start: u32) -> bool {
    if exists|path: Seq<u32>| #[trigger] locate::is_walk(ts, outside, cell, None, q, hint, path) {
        exists|path: Seq<u32>| #[trigger]
            locate::is_walk(ts, outside, cell, None, q, hint, path) && path.last() == start
    } else {
        is_nearest(ts, nearness, q, start)
    }
}

/// Locate `q`: walk from `hint`, scan if that fails.
pub fn find_from<
    O: Fn([u32; 4], usize, Site) -> bool,
    R: Fn([u32; 4], Site) -> i64,
    C: Fn(Place, u32) -> (u32, u32, u32),
>(
    arena: &Arena,
    q: Site,
    hint: u32,
    outside: &O,
    nearness: &R,
    cell: &C,
    scratch: &mut Scratch,
) -> (start: u32)
    requires
        arena.wf(),
        geometry::is_face_test(*outside),
        geometry::is_nearness(*nearness),
        geometry::is_cell_map(*cell),
    ensures
        found_from(arena@, *outside, *nearness, *cell, q, hint, start),
{
    match locate::walk_locate(arena, hint, q, outside, cell, None, &mut scratch.visited) {
        Some(t) => t,
        None => linear_locate(arena, q, nearness),
    }
}

/// `post` is `pre` with `pid` inserted: the cavity of `pid` around `start` is carved
/// out and filled with tets that have `pid` as a vertex.
pub open spec fn is_insertion<I: Fn([u32; 4], u32) -> bool>(
    pre: Seq<Tet>,
    post: Seq<Tet>,
    inside: I,
    pid: u32,
    start: u32,
) -> bool {
    exists|removed: Seq<u32>, boundary: Seq<Wall>| #[trigger]
        is_carving(pre, inside, pid, start, removed, boundary) && cavity::is_filled(
            pre,
            post,
            pid,
            removed.to_set(),
            boundary,
        )
}

/// `removed` lists the cavity of `pid` around the live tet `start`, and `boundary`
/// its walls.
pub open spec fn is_carving<I: Fn([u32; 4], u32) -> bool>(
    ts: Seq<Tet>,
    inside: I,
    pid: u32,
    start: u32,
    removed: Seq<u32>,
    boundary: Seq<Wall>,
) -> bool {
    &&& start < ts.len() && ts[start as int].alive
    &&& removed.no_duplicates()
    &&& forall|t: u32| #[trigger]
        removed.contains(t) <==> locate::in_cavity(ts, inside, pid, start, t)
    &&& cavity::is_boundary(ts, removed.to_set(), boundary)
}

/// Inserting `pid` uses no other point.
pub proof fn insertion_uses_only_its_point<I: Fn([u32; 4], u32) -> bool>(
    pre: Seq<Tet>,
    n_real: u32,
    post: Seq<Tet>,
    inside: I,
    pid: u32,
    start: u32,
    other: u32,
)
    requires
        arena::well_linked(pre, n_real),
        is_insertion(pre, post, inside, pid, start),
        other != pid,
        unused(pre, other),
    ensures
        unused(post, other),
{
    let (removed, boundary) = choose|removed: Seq<u32>, boundary: Seq<Wall>| #[trigger]
        is_carving(pre, inside, pid, start, removed, boundary) && cavity::is_filled(
            pre,
            post,
            pid,
            removed.to_set(),
            boundary,
        );
    assert forall|t: int| 0 <= t < post.len() implies !arena::has_vert(
        (#[trigger] post[t]).verts,
        other,
    ) by {
        if t < pre.len() {
            assert(!arena::has_vert(pre[t].verts, other));
        } else {
            let c = t - pre.len();
            let w = boundary[c];
            assert(cavity::joins_wall(pre, post, pid, w, pre.len() + c));
            assert(cavity::is_wall(pre, removed.to_set(), w.tet, w.slot as int));
            carved_tets_exist(pre, n_real, inside, pid, start, removed, boundary, w.tet);
            assert(!arena::has_vert(pre[w.tet as int].verts, other));
        }
    }
}

/// Tets of a cavity are live tets of the triangulation.
pub proof fn carved_tets_exist<I: Fn([u32; 4], u32) -> bool>(
    ts: Seq<Tet>,
    n_real: u32,
    inside: I,
    pid: u32,
    start: u32,
    removed: Seq<u32>,
    boundary: Seq<Wall>,
    t: u32,
)
    requires
        arena::well_linked(ts, n_real),
        is_carving(ts, inside, pid, start, removed, boundary),
        removed.contains(t),
    ensures
        t < ts.len(),
        ts[t as int].alive,
{
    let path = choose|path: Seq<u32>| #[trigger]
        locate::is_cavity_path(ts, inside, pid, start, path) && path.last() == t;
    path_tets_exist(ts, n_real, inside, pid, start, path);
}

proof fn path_tets_exist<I: Fn([u32; 4], u32) -> bool>(
    ts: Seq<Tet>,
    n_real: u32,
    inside: I,
    pid: u32,
    start: u32,
    path: Seq<u32>,
)
    requires
        arena::well_linked(ts, n_real),
        start < ts.len(),
        ts[start as int].alive,
        locate::is_cavity_path(ts, inside, pid, start, path),
    ensures
        path.last() < ts.len(),
        ts[path.last() as int].alive,
    decreases path.len(),
{
    if path.len() > 1 {
        let head = path.drop_last();
        assert forall|i: int|
            #![trigger head[i + 1]]
            0 <= i < head.len() - 1 implies locate::cavity_step(
            ts,
            inside,
            pid,
            head[i],
            head[i + 1],
        ) by {
            assert(locate::cavity_step(ts, inside, pid, path[i], path[i + 1]));
        }
        path_tets_exist(ts, n_real, inside, pid, start, head);
        let k = path.len() - 2;
        let t = path[k];
        let u = path[k + 1];
        assert(locate::cavity_step(ts, inside, pid, t, u));
        let i: int = if ts[t as int].neighbors[0] == u {
            0
        } else if ts[t as int].neighbors[1] == u {
            1
        } else if ts[t as int].neighbors[2] == u {
            2
        } else {
            3
        };
        assert(ts[t as int].neighbors[i] == u);
        assert(arena::link_returned(ts, t as int, i));
    }
}

/// No tet behind a wall of the cavity has the point in its circumsphere.
pub proof fn walls_stop_the_conflict<I: Fn([u32; 4], u32) -> bool>(
    ts: Seq<Tet>,
    n_real: u32,
    inside: I,
    pid: u32,
    start: u32,
    removed: Seq<u32>,
    boundary: Seq<Wall>,
    c: int,
)
    requires
        arena::well_linked(ts, n_real),
        is_carving(ts, inside, pid, start, removed, boundary),
        0 <= c < boundary.len(),
        boundary[c].outside != INF_NONE,
    ensures
        !inside.ensures((ts[boundary[c].outside as int].verts, pid), true),
{
    let w = boundary[c];
    assert(cavity::is_wall(ts, removed.to_set(), w.tet, w.slot as int));
    assert(removed.contains(w.tet));
    carved_tets_exist(ts, n_real, inside, pid, start, removed, boundary, w.tet);
    assert(ts[w.tet as int].neighbors[w.slot as int] == w.outside);
    assert(arena::link_returned(ts, w.tet as int, w.slot as int));
    if inside.ensures((ts[w.outside as int].verts, pid), true) {
        locate::cavity_grows(ts, inside, pid, start, w.tet, w.outside);
        assert(removed.contains(w.outside));
    }
}

/// Carve and fill the cavity of `pid` around `start`.
pub fn insert_at<
    I: Fn([u32; 4], u32) -> bool,
    C: Fn(Place, u32) -> (u32, u32, u32),
>(
    arena: &mut Arena,
    pid: u32,
    start: u32,
    inside: &I,
    cell: &C,
    bound: Option<locate::Locked>,
    scratch: &mut Scratch,
) -> (r: Option<Result<u32, InsertError>>)
    requires
        old(arena).wf(),
        geometry::is_sphere_test(*inside),
        geometry::is_cell_map(*cell),
        bound matches Some(b) ==> b.gdim > 0,
        pid < old(arena).n_real,
        unused(old(arena)@, pid),
    ensures
        final(arena).wf(),
        final(arena).n_real == old(arena).n_real,
        final(arena).cap == old(arena).cap,
        r is None <==> !locate::carvable(old(arena)@, *inside, *cell, bound, pid, start),
        r is None ==> final(arena)@ == old(arena)@,
        r matches Some(Err(e)) ==> {
            &&& e == InsertError::ArenaFull
            &&& final(arena)@ == old(arena)@
            &&& exists|removed: Seq<u32>, boundary: Seq<Wall>| #[trigger]
                is_carving(old(arena)@, *inside, pid, start, removed, boundary) && old(arena)@.len()
                    + boundary.len() > old(arena).cap
        },
        r matches Some(Ok(last)) ==> {
            &&& is_insertion(old(arena)@, final(arena)@, *inside, pid, start)
            &&& final(arena)@.len() == old(arena)@.len() + final(scratch).new_tets@.len()
            &&& forall|c: int|
                0 <= c < final(scratch).new_tets@.len() ==> #[trigger] final(scratch).new_tets@[c]
                    == old(arena)@.len() + c
            &&& last == (if final(scratch).new_tets@.len() == 0 {
                INF_NONE as int
            } else {
                final(arena)@.len() - 1
            })
        },
{
    match locate::collect_cavity(arena, start, pid, inside, cell, bound, scratch) {
        None => None,
        Some(()) => {
            let ghost pre = arena@;
            let ghost removed = scratch.removed@;
            let ghost boundary = scratch.boundary@;
            proof {
                assert(is_carving(pre, *inside, pid, start, removed, boundary));
                assert forall|t: u32| #[trigger] removed.to_set().contains(t) implies t < pre.len()
                    && pre[t as int].alive && !arena::has_vert(pre[t as int].verts, pid) by {
                    assert(removed.contains(t));
                }
            }
            if scratch.boundary.len() > arena.cap - arena.tets.len() {
                return Some(Err(InsertError::ArenaFull));
            }
            let last: u32 = cavity::fill_cavity(arena, pid, scratch);
            Some(Ok(last))
        },
    }
}

/// Unlocked insertion (bootstrap and deferred points). Walks from `hint`, falling
/// back to a linear scan if the walk fails. Returns a tet incident to `pid`.
pub fn serial_insert<
    O: Fn([u32; 4], usize, Site) -> bool,
    I: Fn([u32; 4], u32) -> bool,
    R: Fn([u32; 4], Site) -> i64,
    C: Fn(Place, u32) -> (u32, u32, u32),
>(
    arena: &mut Arena,
    pid: u32,
    hint: u32,
    outside: &O,
    inside: &I,
    nearness: &R,
    cell: &C,
    scratch: &mut Scratch,
) -> (r: Result<u32, InsertError>)
    requires
        old(arena).wf(),
        geometry::is_face_test(*outside),
        geometry::is_sphere_test(*inside),
        geometry::is_nearness(*nearness),
        geometry::is_cell_map(*cell),
        pid < old(arena).n_real,
        unused(old(arena)@, pid),
    ensures
        final(arena).wf(),
        final(arena).n_real == old(arena).n_real,
        final(arena).cap == old(arena).cap,
        exists|start: u32|
            {
                &&& #[trigger] found_from(
                    old(arena)@,
                    *outside,
                    *nearness,
                    *cell,
                    Site::Point(pid),
                    hint,
                    start,
                )
                &&& match r {
                    Ok(last) => {
                        &&& is_insertion(old(arena)@, final(arena)@, *inside, pid, start)
                        &&& last == (if final(arena)@.len() == old(arena)@.len() {
                            INF_NONE as int
                        } else {
                            final(arena)@.len() - 1
                        })
                    },
                    Err(InsertError::NoTet) => {
                        &&& start >= old(arena)@.len() || !old(arena)@[start as int].alive
                        &&& final(arena)@ == old(arena)@
                    },
                    Err(InsertError::ArenaFull) => {
                        &&& final(arena)@ == old(arena)@
                        &&& exists|removed: Seq<u32>, boundary: Seq<Wall>| #[trigger]
                            is_carving(old(arena)@, *inside, pid, start, removed, boundary) && old(
                                arena,
                            )@.len() + boundary.len() > old(arena).cap
                    },
                }
            },
{
    let start: u32 = find_from(arena, Site::Point(pid), hint, outside, nearness, cell, scratch);
    match insert_at(arena, pid, start, inside, cell, None, scratch) {
        Some(r) => r,
        None => Err(InsertError::NoTet),
    }
}

/// The newest live tet: a good hint after the last one may have died.
pub fn newest_alive(arena: &Arena) -> (r: Option<u32>)
    requires
        arena.wf(),
    ensures
        match r {
            Some(t) => t < arena@.len() && arena@[t as int].alive && forall|u: int|
                #![trigger arena@[u]]
                t < u < arena@.len() ==> !arena@[u].alive,
            None => forall|u: int| #![trigger arena@[u]] 0 <= u < arena@.len() ==> !arena@[u].alive,
        },
{
    let mut h: usize = arena.tets.len();
    while h > 0
        invariant
            arena.wf(),
            h <= arena@.len(),
            forall|u: int| #![trigger arena@[u]] h <= u < arena@.len() ==> !arena@[u].alive,
        decreases h,
    {
        h = h - 1;
        if arena.tets[h].alive {
            return Some(h as u32);
        }
    }
    None
}

/// Tet `u` is tet `t` with the point `pid` in place of its vertex in `slot`, and has behind the
/// opposite face what `t` had there.
pub open spec fn takes_the_place_of(
    pre: Seq<Tet>,
    post: Seq<Tet>,
    t: int,
    slot: int,
    u: int,
    pid: u32,
) -> bool {
    &&& post[u].alive
    &&& post[u].verts[slot] == pid
    &&& post[u].neighbors[slot] == pre[t].neighbors[slot]
    &&& forall|k: int|
        0 <= k < 4 && k != slot ==> #[trigger] post[u].verts[k] == pre[t].verts[k]
}

/// An insertion removes tets only where it has to: the one that it starts from, which was alive, and
/// live tets whose sphere holds the point. A tet that is left next to a removed one does not hold
/// it. No tet changes its vertices, and none comes back to life.
pub proof fn insertions_remove_the_conflict<I: Fn([u32; 4], u32) -> bool>(
    pre: Seq<Tet>,
    n_real: u32,
    post: Seq<Tet>,
    inside: I,
    pid: u32,
    start: u32,
    t: int,
    slot: int,
)
    requires
        arena::well_linked(pre, n_real),
        is_insertion(pre, post, inside, pid, start),
        0 <= t < pre.len(),
        0 <= slot < 4,
    ensures
        start < pre.len() && pre[start as int].alive && !post[start as int].alive,
        post.len() >= pre.len(),
        post[t].verts == pre[t].verts,
        post[t].alive ==> pre[t].alive,
        pre[t].alive && !post[t].alive && t != start ==> inside.ensures((pre[t].verts, pid), true),
        pre[t].alive && !post[t].alive && pre[t].neighbors[slot] != INF_NONE ==> {
            let u = pre[t].neighbors[slot] as int;
            u < pre.len() && pre[u].alive && (post[u].alive ==> !inside.ensures(
                (pre[u].verts, pid),
                true,
            ))
        },
{
    let (removed, boundary) = choose|removed: Seq<u32>, boundary: Seq<Wall>| #[trigger]
        is_carving(pre, inside, pid, start, removed, boundary) && cavity::is_filled(
            pre,
            post,
            pid,
            removed.to_set(),
            boundary,
        );
    let lone = seq![start];
    assert(locate::is_cavity_path(pre, inside, pid, start, lone) && lone.last() == start);
    assert(locate::in_cavity(pre, inside, pid, start, start));
    assert(removed.contains(start));
    assert(post[start as int].alive == (pre[start as int].alive && !removed.to_set().contains(start)));
    assert(post[t].alive == (pre[t].alive && !removed.to_set().contains(t as u32)));
    if pre[t].alive && !post[t].alive {
        assert(removed.contains(t as u32));
        let path = choose|path: Seq<u32>| #[trigger]
            locate::is_cavity_path(pre, inside, pid, start, path) && path.last() == t as u32;
        if path.len() > 1 {
            let k = path.len() - 2;
            assert(locate::cavity_step(pre, inside, pid, path[k], path[k + 1]));
        }
        if pre[t].neighbors[slot] != INF_NONE {
            let u = pre[t].neighbors[slot];
            assert(arena::link_returned(pre, t, slot));
            if inside.ensures((pre[u as int].verts, pid), true) {
                let longer = path.push(u);
                assert forall|i: int|
                    #![trigger longer[i + 1]]
                    0 <= i < longer.len() - 1 implies locate::cavity_step(
                    pre,
                    inside,
                    pid,
                    longer[i],
                    longer[i + 1],
                ) by {
                    if i < path.len() - 1 {
                        assert(locate::cavity_step(pre, inside, pid, path[i], path[i + 1]));
                    } else {
                        assert(locate::neighbors_across(pre, t as u32, u));
                    }
                }
                assert(locate::is_cavity_path(pre, inside, pid, start, longer));
                assert(locate::in_cavity(pre, inside, pid, start, u));
                assert(removed.contains(u));
                assert(post[u as int].alive == (pre[u as int].alive && !removed.to_set().contains(u)));
            }
        }
    }
}

/// The removed tets are in one piece: a set of tets that has the one the insertion starts from, and
/// with a tet every live neighbour whose sphere holds the point, has all of them.
pub proof fn insertions_remove_one_piece<I: Fn([u32; 4], u32) -> bool>(
    pre: Seq<Tet>,
    n_real: u32,
    post: Seq<Tet>,
    inside: I,
    pid: u32,
    start: u32,
    piece: Set<u32>,
    t: int,
)
    requires
        arena::well_linked(pre, n_real),
        is_insertion(pre, post, inside, pid, start),
        piece.contains(start),
        forall|a: u32, k: int|
            #![trigger pre[a as int].neighbors[k]]
            piece.contains(a) && 0 <= k < 4 && pre[a as int].neighbors[k] != INF_NONE
                && pre[pre[a as int].neighbors[k] as int].alive && inside.ensures(
                (pre[pre[a as int].neighbors[k] as int].verts, pid),
                true,
            ) ==> piece.contains(pre[a as int].neighbors[k]),
        0 <= t < pre.len(),
        pre[t].alive,
        !post[t].alive,
    ensures
        piece.contains(t as u32),
{
    let (removed, boundary) = choose|removed: Seq<u32>, boundary: Seq<Wall>| #[trigger]
        is_carving(pre, inside, pid, start, removed, boundary) && cavity::is_filled(
            pre,
            post,
            pid,
            removed.to_set(),
            boundary,
        );
    assert(post[t].alive == (pre[t].alive && !removed.to_set().contains(t as u32)));
    assert(removed.contains(t as u32));
    let path = choose|path: Seq<u32>| #[trigger]
        locate::is_cavity_path(pre, inside, pid, start, path) && path.last() == t as u32;
    path_stays_in_piece(pre, inside, pid, start, piece, path, path.len() - 1);
}

proof fn path_stays_in_piece<I: Fn([u32; 4], u32) -> bool>(
    pre: Seq<Tet>,
    inside: I,
    pid: u32,
    start: u32,
    piece: Set<u32>,
    path: Seq<u32>,
    i: int,
)
    requires
        locate::is_cavity_path(pre, inside, pid, start, path),
        piece.contains(start),
        forall|a: u32, k: int|
            #![trigger pre[a as int].neighbors[k]]
            piece.contains(a) && 0 <= k < 4 && pre[a as int].neighbors[k] != INF_NONE
                && pre[pre[a as int].neighbors[k] as int].alive && inside.ensures(
                (pre[pre[a as int].neighbors[k] as int].verts, pid),
                true,
            ) ==> piece.contains(pre[a as int].neighbors[k]),
        0 <= i < path.len(),
    ensures
        piece.contains(path[i]),
    decreases i,
{
    if i > 0 {
        path_stays_in_piece(pre, inside, pid, start, piece, path, i - 1);
        let j = i - 1;
        assert(locate::cavity_step(pre, inside, pid, path[j], path[j + 1]));
        let (a, u) = (path[j], path[j + 1]);
        if pre[a as int].neighbors[0] == u {
            assert(piece.contains(pre[a as int].neighbors[0]));
        } else if pre[a as int].neighbors[1] == u {
            assert(piece.contains(pre[a as int].neighbors[1]));
        } else if pre[a as int].neighbors[2] == u {
            assert(piece.contains(pre[a as int].neighbors[2]));
        } else {
            assert(piece.contains(pre[a as int].neighbors[3]));
        }
    }
}

/// Tet `u` takes the place of a tet that has died, before a face that has nothing behind it or a tet
/// that is still alive.
pub open spec fn fills_a_wall(pre: Seq<Tet>, post: Seq<Tet>, u: int, pid: u32) -> bool {
    exists|t: int, slot: int|
        {
            &&& 0 <= t < pre.len() && 0 <= slot < 4
            &&& pre[t].alive && !post[t].alive
            &&& #[trigger] takes_the_place_of(pre, post, t, slot, u, pid)
            &&& pre[t].neighbors[slot] != INF_NONE ==> post[pre[t].neighbors[slot] as int].alive
        }
}

/// The hole is filled face by face: each new tet is a removed one with the point in place of one
/// vertex, so that it is oriented as that one was, and behind the opposite face is what was there
/// and has stayed. Each face of a removed tet that has no removed tet behind it gets its tet.
pub proof fn insertions_fill_each_wall<I: Fn([u32; 4], u32) -> bool>(
    pre: Seq<Tet>,
    n_real: u32,
    post: Seq<Tet>,
    inside: I,
    pid: u32,
    start: u32,
)
    requires
        arena::well_linked(pre, n_real),
        is_insertion(pre, post, inside, pid, start),
    ensures
        forall|u: int| pre.len() <= u < post.len() ==> #[trigger] fills_a_wall(pre, post, u, pid),
        forall|t: int, slot: int|
            #![trigger pre[t].neighbors[slot]]
            0 <= t < pre.len() && 0 <= slot < 4 && pre[t].alive && !post[t].alive && (
            pre[t].neighbors[slot] == INF_NONE || post[pre[t].neighbors[slot] as int].alive)
                ==> exists|u: int|
                pre.len() <= u < post.len() && #[trigger] takes_the_place_of(
                    pre,
                    post,
                    t,
                    slot,
                    u,
                    pid,
                ),
{
    let (removed, boundary) = choose|removed: Seq<u32>, boundary: Seq<Wall>| #[trigger]
        is_carving(pre, inside, pid, start, removed, boundary) && cavity::is_filled(
            pre,
            post,
            pid,
            removed.to_set(),
            boundary,
        );
    let gone = removed.to_set();
    assert forall|t: int| #![trigger post[t]] 0 <= t < pre.len() implies post[t].alive == (
    pre[t].alive && !gone.contains(t as u32)) by {}
    assert forall|u: int| pre.len() <= u < post.len() implies #[trigger] fills_a_wall(
        pre,
        post,
        u,
        pid,
    ) by {
        let c = u - pre.len();
        let w = boundary[c];
        let (t, slot) = (w.tet as int, w.slot as int);
        assert(cavity::joins_wall(pre, post, pid, w, u));
        assert(cavity::is_wall(pre, gone, w.tet, slot));
        assert(removed.contains(w.tet));
        carved_tets_exist(pre, n_real, inside, pid, start, removed, boundary, w.tet);
        assert(!post[t].alive);
        assert(takes_the_place_of(pre, post, t, slot, u, pid));
        if pre[t].neighbors[slot] != INF_NONE {
            assert(arena::link_returned(pre, t, slot));
            assert(post[pre[t].neighbors[slot] as int].alive);
        }
    }
    assert forall|t: int, slot: int|
        #![trigger pre[t].neighbors[slot]]
        0 <= t < pre.len() && 0 <= slot < 4 && pre[t].alive && !post[t].alive && (
        pre[t].neighbors[slot] == INF_NONE || post[pre[t].neighbors[slot] as int].alive) implies exists|
        u: int,
    |
        pre.len() <= u < post.len() && #[trigger] takes_the_place_of(
            pre,
            post,
            t,
            slot,
            u,
            pid,
        ) by {
        assert(gone.contains(t as u32));
        if pre[t].neighbors[slot] != INF_NONE {
            assert(arena::link_returned(pre, t, slot));
        }
        assert(cavity::is_wall(pre, gone, t as u32, slot));
        let b = choose|b: int|
            0 <= b < boundary.len() && (#[trigger] boundary[b]).tet == t as u32 && boundary[b].slot
                == slot;
        assert(cavity::joins_wall(pre, post, pid, boundary[b], pre.len() + b));
        assert(takes_the_place_of(pre, post, t, slot, pre.len() + b, pid));
    }
}

/// A scan settles on the first live tet that the site is inside; if there is none, on the first of
/// those that it is nearest to.
pub proof fn scans_settle_on_the_nearest<R: Fn([u32; 4], Site) -> i64>(
    ts: Seq<Tet>,
    nearness: R,
    q: Site,
    r: u32,
    best: i64,
    t: int,
    s: i64,
)
    requires
        geometry::is_nearness(nearness),
        is_nearest(ts, nearness, q, r),
        r < ts.len(),
        nearness.ensures((ts[r as int].verts, q), best),
        0 <= t < ts.len(),
        ts[t].alive,
        nearness.ensures((ts[t].verts, q), s),
        s > i64::MIN,
    ensures
        ts[r as int].alive,
        s >= 0 ==> best >= 0 && r <= t,
        best < 0 ==> s <= best,
        best < 0 && t < r ==> s < best,
{
    assert(score(nearness, ts[t].verts, q) == s);
    assert(score(nearness, ts[r as int].verts, q) == best);
}

} // verus!
