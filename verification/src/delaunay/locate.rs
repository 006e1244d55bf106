//! Point location and cavity search.

use super::arena::{self, Arena, Tet, INF0, INF_NONE};
use super::cavity::{self, Scratch, Wall};
use super::geometry::{self, Place, Site};
use crate::fx;
use rustc_hash::FxHashSet;
use vstd::prelude::*;

verus! {

/// The block of 3x3x3 grid cells around `center` that an insertion holds.
#[derive(Clone, Copy, Debug)]
pub struct Locked {
    pub center: (u32, u32, u32),
    pub gdim: u32,
}

/// Cell coordinates that differ by at most one.
pub open spec fn adjacent(a: u32, b: u32) -> bool {
    a <= b + 1 && b <= a + 1
}

impl Locked {
    /// `c` is in the block.
    pub open spec fn holds(self, c: (u32, u32, u32)) -> bool {
        adjacent(c.0, self.center.0) && adjacent(c.1, self.center.1) && adjacent(c.2, self.center.2)
    }

    /// The tet belongs to a cell of the block: the cell of the centroid of its real
    /// vertices. A tet without real vertices belongs to no cell.
    pub open spec fn owns_tet<C: Fn(Place, u32) -> (u32, u32, u32)>(
        self,
        cell: C,
        verts: [u32; 4],
    ) -> bool {
        &&& verts[0] < INF0 || verts[1] < INF0 || verts[2] < INF0 || verts[3] < INF0
        &&& exists|c: (u32, u32, u32)| #[trigger]
            cell.ensures((Place::Centroid(verts), self.gdim), c) && self.holds(c)
    }

    /// Is `c` within the locked block?
    pub fn contains_cell(&self, c: (u32, u32, u32)) -> (r: bool)
        ensures
            r == self.holds(c),
    {
        let m = self.center;
        let dx: u32 = if c.0 > m.0 { c.0 - m.0 } else { m.0 - c.0 };
        let dy: u32 = if c.1 > m.1 { c.1 - m.1 } else { m.1 - c.1 };
        let dz: u32 = if c.2 > m.2 { c.2 - m.2 } else { m.2 - c.2 };
        dx <= 1 && dy <= 1 && dz <= 1
    }

    /// Is the tet owned by a locked cell?
    pub fn owns<C: Fn(Place, u32) -> (u32, u32, u32)>(&self, cell: &C, verts: [u32; 4]) -> (r: bool)
        requires
            self.gdim > 0,
            geometry::is_cell_map(*cell),
        ensures
            r == self.owns_tet(*cell, verts),
    {
        if verts[0] >= INF0 && verts[1] >= INF0 && verts[2] >= INF0 && verts[3] >= INF0 {
            return false;
        }
        let c = cell(Place::Centroid(verts), self.gdim);
        self.contains_cell(c)
    }
}

/// Without a bound every tet may be touched; with one, those it owns.
pub open spec fn may_touch<C: Fn(Place, u32) -> (u32, u32, u32)>(
    bound: Option<Locked>,
    cell: C,
    verts: [u32; 4],
) -> bool {
    match bound {
        None => true,
        Some(b) => b.owns_tet(cell, verts),
    }
}

/// The first face of the tet that `q` lies beyond.
pub open spec fn first_outside<O: Fn([u32; 4], usize, Site) -> bool>(
    outside: O,
    v: [u32; 4],
    q: Site,
) -> Option<int> {
    if outside.ensures((v, 0usize, q), true) {
        Some(0)
    } else if outside.ensures((v, 1usize, q), true) {
        Some(1)
    } else if outside.ensures((v, 2usize, q), true) {
        Some(2)
    } else if outside.ensures((v, 3usize, q), true) {
        Some(3)
    } else {
        None
    }
}

/// `path` is a visibility walk from `start`: it visits live tets, none twice, leaves
/// each through the first face that `q` lies beyond, stays within `bound`, and ends
/// in a tet that has no such face.
pub open spec fn is_walk<
    O: Fn([u32; 4], usize, Site) -> bool,
    C: Fn(Place, u32) -> (u32, u32, u32),
>(
    ts: Seq<Tet>,
    outside: O,
    cell: C,
    bound: Option<Locked>,
    q: Site,
    start: u32,
    path: Seq<u32>,
) -> bool {
    &&& path.len() > 0
    &&& path[0] == start
    &&& path.no_duplicates()
    &&& forall|i: int|
        0 <= i < path.len() ==> #[trigger] path[i] < ts.len() && ts[path[i] as int].alive
    &&& forall|i: int|
        #![trigger path[i + 1]]
        0 <= i < path.len() - 1 ==> walk_step(ts, outside, cell, bound, q, path[i], path[i + 1])
    &&& first_outside(outside, ts[path.last() as int].verts, q) is None
}

/// The walk goes from tet `t` to tet `u`.
pub open spec fn walk_step<
    O: Fn([u32; 4], usize, Site) -> bool,
    C: Fn(Place, u32) -> (u32, u32, u32),
>(ts: Seq<Tet>, outside: O, cell: C, bound: Option<Locked>, q: Site, t: u32, u: u32) -> bool {
    &&& first_outside(outside, ts[t as int].verts, q) is Some
    &&& ts[t as int].neighbors[first_outside(outside, ts[t as int].verts, q)->0] == u
    &&& may_touch(bound, cell, ts[u as int].verts)
}

/// Walks from the same tet to the same site end in the same tet.
pub proof fn walks_agree<
    O: Fn([u32; 4], usize, Site) -> bool,
    C: Fn(Place, u32) -> (u32, u32, u32),
>(
    ts: Seq<Tet>,
    outside: O,
    cell: C,
    bound: Option<Locked>,
    q: Site,
    start: u32,
    a: Seq<u32>,
    b: Seq<u32>,
)
    requires
        is_walk(ts, outside, cell, bound, q, start, a),
        is_walk(ts, outside, cell, bound, q, start, b),
    ensures
        a == b,
{
    let n = if a.len() < b.len() { a.len() } else { b.len() };
    walks_agree_up_to(ts, outside, cell, bound, q, start, a, b, n as int);
    if a.len() < b.len() {
        assert(walk_step(ts, outside, cell, bound, q, b[n - 1], b[(n - 1) + 1]));
    }
    if b.len() < a.len() {
        assert(walk_step(ts, outside, cell, bound, q, a[n - 1], a[(n - 1) + 1]));
    }
    assert(a =~= b);
}

proof fn walks_agree_up_to<
    O: Fn([u32; 4], usize, Site) -> bool,
    C: Fn(Place, u32) -> (u32, u32, u32),
>(
    ts: Seq<Tet>,
    outside: O,
    cell: C,
    bound: Option<Locked>,
    q: Site,
    start: u32,
    a: Seq<u32>,
    b: Seq<u32>,
    n: int,
)
    requires
        is_walk(ts, outside, cell, bound, q, start, a),
        is_walk(ts, outside, cell, bound, q, start, b),
        0 <= n <= a.len(),
        n <= b.len(),
    ensures
        forall|i: int| 0 <= i < n ==> a[i] == b[i],
    decreases n,
{
    if n > 1 {
        walks_agree_up_to(ts, outside, cell, bound, q, start, a, b, n - 1);
        let k = n - 2;
        assert(walk_step(ts, outside, cell, bound, q, a[k], a[k + 1]));
        assert(walk_step(ts, outside, cell, bound, q, b[k], b[k + 1]));
    }
}

/// A finite set of ids below `n` has at most `n` of them.
pub proof fn ids_below(s: Set<u32>, n: nat)
    requires
        s.finite(),
        forall|x: u32| #[trigger] s.contains(x) ==> x < n,
    ensures
        s.len() <= n,
    decreases n,
{
    if n == 0 {
        assert(s =~= Set::empty());
    } else if n - 1 <= u32::MAX {
        let top = (n - 1) as u32;
        ids_below(s.remove(top), (n - 1) as nat);
    } else {
        ids_below(s, (n - 1) as nat);
    }
}

/// Visibility-walk point location from `start`. With `bound`, gives up if the walk
/// needs to leave the locked region. `seen` guards against cycles.
pub fn walk_locate<
    O: Fn([u32; 4], usize, Site) -> bool,
    C: Fn(Place, u32) -> (u32, u32, u32),
>(
    arena: &Arena,
    start: u32,
    q: Site,
    outside: &O,
    cell: &C,
    bound: Option<Locked>,
    seen: &mut FxHashSet<u32>,
) -> (r: Option<u32>)
    requires
        arena.wf(),
        geometry::is_face_test(*outside),
        geometry::is_cell_map(*cell),
        bound matches Some(b) ==> b.gdim > 0,
    ensures
        match r {
            Some(t) => exists|path: Seq<u32>| #[trigger]
                is_walk(arena@, *outside, *cell, bound, q, start, path) && path.last() == t,
            None => forall|path: Seq<u32>|
                !(#[trigger] is_walk(arena@, *outside, *cell, bound, q, start, path)),
        },
{
    seen.clear();
    let mut current: u32 = start;
    let ghost ts = arena@;
    let ghost mut trail: Seq<u32> = seq![start];
    loop
        invariant
            arena.wf(),
            ts == arena@,
            geometry::is_face_test(*outside),
            geometry::is_cell_map(*cell),
            bound matches Some(b) ==> b.gdim > 0,
            trail.len() > 0,
            trail[0] == start,
            trail.last() == current,
            seen@.finite(),
            forall|x: u32| #[trigger] seen@.contains(x) <==> trail.drop_last().contains(x),
            trail.drop_last().no_duplicates(),
            forall|i: int|
                0 <= i < trail.len() - 1 ==> #[trigger] trail[i] < ts.len() && ts[trail[i] as int].alive,
            forall|i: int|
                #![trigger trail[i + 1]]
                0 <= i < trail.len() - 1 ==> walk_step(
                    ts,
                    *outside,
                    *cell,
                    bound,
                    q,
                    trail[i],
                    trail[i + 1],
                ),
            forall|path: Seq<u32>| #[trigger]
                is_walk(ts, *outside, *cell, bound, q, start, path) ==> trail.is_prefix_of(path),
        decreases ts.len() - seen@.len(),
    {
        if current as usize >= arena.tets.len() || !arena.tets[current as usize].alive {
            proof {
                assert forall|path: Seq<u32>| !(#[trigger] is_walk(
                    ts,
                    *outside,
                    *cell,
                    bound,
                    q,
                    start,
                    path,
                )) by {
                    if is_walk(ts, *outside, *cell, bound, q, start, path) {
                        assert(path[trail.len() - 1] == current);
                    }
                }
            }
            return None;
        }
        let ghost before = seen@;
        let added = fx::ids_insert(seen, current);
        if !added {
            proof {
                assert forall|path: Seq<u32>| !(#[trigger] is_walk(
                    ts,
                    *outside,
                    *cell,
                    bound,
                    q,
                    start,
                    path,
                )) by {
                    if is_walk(ts, *outside, *cell, bound, q, start, path) {
                        let i = trail.drop_last().index_of(current);
                        assert(path[i] == trail[i] && path[trail.len() - 1] == current);
                    }
                }
            }
            return None;
        }
        proof {
            ids_below(seen@, ts.len());
            let head = trail.drop_last();
            assert forall|i: int, j: int|
                0 <= i < trail.len() && 0 <= j < trail.len() && i != j implies trail[i] != trail[j] by {
                let lo = if i < j { i } else { j };
                let hi = if i < j { j } else { i };
                assert(head[lo] == trail[lo]);
                if hi < trail.len() - 1 {
                    assert(head[hi] == trail[hi]);
                } else {
                    assert(head.contains(head[lo]));
                }
            }
        }
        let verts = arena.tets[current as usize].verts;
        let mut slot: usize = 4;
        for i in 0..4usize
            invariant
                geometry::is_face_test(*outside),
                slot <= 4,
                slot == 4 ==> forall|j: usize|
                    j < i ==> #[trigger] outside.ensures((verts, j, q), false),
                slot < 4 ==> outside.ensures((verts, slot, q), true) && forall|j: usize|
                    j < slot ==> #[trigger] outside.ensures((verts, j, q), false),
        {
            if slot == 4 {
                let beyond = outside(verts, i, q);
                if beyond {
                    slot = i;
                }
            }
        }
        if slot == 4 {
            proof {
                assert(outside.ensures((verts, 0usize, q), false));
                assert(outside.ensures((verts, 1usize, q), false));
                assert(outside.ensures((verts, 2usize, q), false));
                assert(outside.ensures((verts, 3usize, q), false));
                assert(is_walk(ts, *outside, *cell, bound, q, start, trail));
            }
            return Some(current);
        }
        proof {
            assert(slot > 0 ==> outside.ensures((verts, 0usize, q), false));
            assert(slot > 1 ==> outside.ensures((verts, 1usize, q), false));
            assert(slot > 2 ==> outside.ensures((verts, 2usize, q), false));
            assert(first_outside(*outside, verts, q) == Some(slot as int));
            assert forall|path: Seq<u32>| #[trigger]
                is_walk(ts, *outside, *cell, bound, q, start, path) implies path.len()
                > trail.len() && walk_step(
                ts,
                *outside,
                *cell,
                bound,
                q,
                current,
                path[trail.len() as int],
            ) && path[trail.len() as int] < ts.len() by {
                let i = trail.len() - 1;
                assert(path[i] == current);
                if path.len() == trail.len() {
                    assert(path.last() == current);
                }
                assert(walk_step(ts, *outside, *cell, bound, q, path[i], path[i + 1]));
            }
        }
        let next: u32 = arena.tets[current as usize].neighbors[slot];
        if next == INF_NONE {
            return None;
        }
        assert(arena::link_returned(ts, current as int, slot as int));
        match bound {
            Some(b) => {
                if !b.owns(cell, arena.tets[next as usize].verts) {
                    return None;
                }
            },
            None => {},
        }
        proof {
            let longer = trail.push(next);
            assert(longer.drop_last() == trail);
            assert forall|x: u32| #[trigger] seen@.contains(x) <==> trail.contains(x) by {
                if trail.contains(x) {
                    let i = trail.index_of(x);
                    if i < trail.len() - 1 {
                        assert(trail.drop_last()[i] == x);
                    }
                }
                if before.contains(x) {
                    let i = trail.drop_last().index_of(x);
                    assert(trail[i] == x);
                }
                if x == current {
                    assert(trail[trail.len() - 1] == x);
                }
            }
            assert forall|i: int|
                #![trigger longer[i + 1]]
                0 <= i < longer.len() - 1 implies walk_step(
                ts,
                *outside,
                *cell,
                bound,
                q,
                longer[i],
                longer[i + 1],
            ) by {
                if i < trail.len() - 1 {
                    assert(walk_step(ts, *outside, *cell, bound, q, trail[i], trail[i + 1]));
                }
            }
            assert forall|path: Seq<u32>| #[trigger]
                is_walk(ts, *outside, *cell, bound, q, start, path) implies longer.is_prefix_of(
                path,
            ) by {
                assert(trail.is_prefix_of(path));
                assert(path[trail.len() as int] == next);
                assert(path.take(longer.len() as int) == longer);
            }
            trail = longer;
        }
        current = next;
    }
}

/// `u` is the neighbor of `t` across some face.
pub open spec fn neighbors_across(ts: Seq<Tet>, t: u32, u: u32) -> bool {
    ||| ts[t as int].neighbors[0] == u
    ||| ts[t as int].neighbors[1] == u
    ||| ts[t as int].neighbors[2] == u
    ||| ts[t as int].neighbors[3] == u
}

/// `path` runs from `start` across faces through live tets whose circumsphere holds
/// `pid`; only `start` need not hold it.
pub open spec fn is_cavity_path<I: Fn([u32; 4], u32) -> bool>(
    ts: Seq<Tet>,
    inside: I,
    pid: u32,
    start: u32,
    path: Seq<u32>,
) -> bool {
    &&& path.len() > 0
    &&& path[0] == start
    &&& forall|i: int|
        #![trigger path[i + 1]]
        0 <= i < path.len() - 1 ==> cavity_step(ts, inside, pid, path[i], path[i + 1])
}

pub open spec fn cavity_step<I: Fn([u32; 4], u32) -> bool>(
    ts: Seq<Tet>,
    inside: I,
    pid: u32,
    t: u32,
    u: u32,
) -> bool {
    &&& u != INF_NONE
    &&& neighbors_across(ts, t, u)
    &&& ts[u as int].alive
    &&& inside.ensures((ts[u as int].verts, pid), true)
}

/// `t` is in the cavity of `pid` around `start`.
pub open spec fn in_cavity<I: Fn([u32; 4], u32) -> bool>(
    ts: Seq<Tet>,
    inside: I,
    pid: u32,
    start: u32,
    t: u32,
) -> bool {
    exists|path: Seq<u32>| #[trigger]
        is_cavity_path(ts, inside, pid, start, path) && path.last() == t
}

/// Every tet next to `t` may be touched.
pub open spec fn surroundings_held<C: Fn(Place, u32) -> (u32, u32, u32)>(
    ts: Seq<Tet>,
    bound: Option<Locked>,
    cell: C,
    t: u32,
) -> bool {
    forall|i: int|
        #![trigger ts[t as int].neighbors[i]]
        0 <= i < 4 && ts[t as int].neighbors[i] != INF_NONE ==> may_touch(
            bound,
            cell,
            ts[ts[t as int].neighbors[i] as int].verts,
        )
}

/// The cavity of `pid` around `start` can be carved: `start` is alive and every tet
/// in or next to the cavity may be touched.
pub open spec fn carvable<
    I: Fn([u32; 4], u32) -> bool,
    C: Fn(Place, u32) -> (u32, u32, u32),
>(ts: Seq<Tet>, inside: I, cell: C, bound: Option<Locked>, pid: u32, start: u32) -> bool {
    &&& start < ts.len()
    &&& ts[start as int].alive
    &&& forall|t: u32| #[trigger]
        in_cavity(ts, inside, pid, start, t) ==> surroundings_held(ts, bound, cell, t)
}

proof fn start_in_cavity<I: Fn([u32; 4], u32) -> bool>(
    ts: Seq<Tet>,
    inside: I,
    pid: u32,
    start: u32,
)
    ensures
        in_cavity(ts, inside, pid, start, start),
{
    let path = seq![start];
    assert(is_cavity_path(ts, inside, pid, start, path));
}

/// A tet next to the cavity with `pid` in its circumsphere is in the cavity.
pub proof fn cavity_grows<I: Fn([u32; 4], u32) -> bool>(
    ts: Seq<Tet>,
    inside: I,
    pid: u32,
    start: u32,
    t: u32,
    u: u32,
)
    requires
        in_cavity(ts, inside, pid, start, t),
        cavity_step(ts, inside, pid, t, u),
    ensures
        in_cavity(ts, inside, pid, start, u),
{
    let path = choose|path: Seq<u32>| #[trigger]
        is_cavity_path(ts, inside, pid, start, path) && path.last() == t;
    let longer = path.push(u);
    assert forall|i: int|
        #![trigger longer[i + 1]]
        0 <= i < longer.len() - 1 implies cavity_step(ts, inside, pid, longer[i], longer[i + 1]) by {
        if i < path.len() - 1 {
            assert(cavity_step(ts, inside, pid, path[i], path[i + 1]));
        }
    }
    assert(is_cavity_path(ts, inside, pid, start, longer));
}

/// A set that holds `start` and every step out of it holds the whole cavity.
proof fn cavity_within<I: Fn([u32; 4], u32) -> bool>(
    ts: Seq<Tet>,
    inside: I,
    pid: u32,
    start: u32,
    s: Set<u32>,
    path: Seq<u32>,
)
    requires
        is_cavity_path(ts, inside, pid, start, path),
        s.contains(start),
        forall|t: u32, u: u32|
            s.contains(t) && #[trigger] cavity_step(ts, inside, pid, t, u) ==> s.contains(u),
    ensures
        s.contains(path.last()),
    decreases path.len(),
{
    if path.len() > 1 {
        let head = path.drop_last();
        assert forall|i: int|
            #![trigger head[i + 1]]
            0 <= i < head.len() - 1 implies cavity_step(ts, inside, pid, head[i], head[i + 1]) by {
            assert(cavity_step(ts, inside, pid, path[i], path[i + 1]));
        }
        cavity_within(ts, inside, pid, start, s, head);
        let k = path.len() - 2;
        assert(cavity_step(ts, inside, pid, path[k], path[k + 1]));
    }
}

/// Face `i` of `t` has been looked at: the tet across it is on the list of visited
/// tets, or the face is recorded as a wall.
spec fn face_seen<I: Fn([u32; 4], u32) -> bool, C: Fn(Place, u32) -> (u32, u32, u32)>(
    ts: Seq<Tet>,
    inside: I,
    cell: C,
    bound: Option<Locked>,
    pid: u32,
    visited: Set<u32>,
    boundary: Seq<Wall>,
    t: u32,
    i: int,
) -> bool {
    let nb = ts[t as int].neighbors[i];
    &&& nb != INF_NONE ==> may_touch(bound, cell, ts[nb as int].verts)
    &&& (nb != INF_NONE && visited.contains(nb)) || (has_wall(boundary, t, i) && (nb == INF_NONE
        || inside.ensures((ts[nb as int].verts, pid), false)))
}

spec fn has_wall(boundary: Seq<Wall>, t: u32, i: int) -> bool {
    exists|b: int|
        0 <= b < boundary.len() && (#[trigger] boundary[b]).tet == t && boundary[b].slot == i
}

/// State of the search: `removed` is done, `stack` waits, and tet `cur` (the last of
/// `removed`) has its first `k` faces looked at.
spec fn searching<I: Fn([u32; 4], u32) -> bool, C: Fn(Place, u32) -> (u32, u32, u32)>(
    ts: Seq<Tet>,
    inside: I,
    cell: C,
    bound: Option<Locked>,
    pid: u32,
    start: u32,
    visited: Set<u32>,
    stack: Seq<u32>,
    removed: Seq<u32>,
    boundary: Seq<Wall>,
    k: int,
) -> bool {
    &&& visited.contains(start)
    &&& visited.finite()
    &&& forall|t: u32| #[trigger] visited.contains(t) <==> stack.contains(t) || removed.contains(t)
    &&& stack.no_duplicates()
    &&& removed.no_duplicates()
    &&& forall|t: u32| stack.contains(t) ==> !removed.contains(t)
    &&& forall|t: u32| #[trigger]
        visited.contains(t) ==> {
            &&& t < ts.len()
            &&& ts[t as int].alive
            &&& in_cavity(ts, inside, pid, start, t)
            &&& t == start || inside.ensures((ts[t as int].verts, pid), true)
        }
    &&& forall|j: int, i: int|
        #![trigger ts[removed[j] as int].neighbors[i]]
        0 <= j < removed.len() && 0 <= i < 4 && (j < removed.len() - 1 || i < k) ==> face_seen(
            ts,
            inside,
            cell,
            bound,
            pid,
            visited,
            boundary,
            removed[j],
            i,
        )
    &&& forall|b: int|
        #![trigger boundary[b]]
        0 <= b < boundary.len() ==> {
            let w = boundary[b];
            &&& w.slot < 4
            &&& removed.contains(w.tet)
            &&& w.tet == removed.last() ==> w.slot < k
            &&& w.outside == ts[w.tet as int].neighbors[w.slot as int]
            &&& w.outside == INF_NONE || (w.outside != start && inside.ensures(
                (ts[w.outside as int].verts, pid),
                false,
            ))
        }
    &&& forall|b: int, c: int|
        #![trigger boundary[b], boundary[c]]
        0 <= b < c < boundary.len() ==> boundary[b].tet != boundary[c].tet || boundary[b].slot
            != boundary[c].slot
}

proof fn ids_bounded(s: Seq<u32>, n: nat)
    requires
        s.no_duplicates(),
        forall|i: int| 0 <= i < s.len() ==> #[trigger] s[i] < n,
    ensures
        s.len() <= n,
{
    s.unique_seq_to_set();
    ids_below(s.to_set(), n);
}

/// Collect the cavity of `pid` around the located tet `start`: the removed tets and
/// the walls go to `scratch`. With `bound`, gives up if a tet in or next to the
/// cavity is outside the locked region.
pub fn collect_cavity<
    I: Fn([u32; 4], u32) -> bool,
    C: Fn(Place, u32) -> (u32, u32, u32),
>(
    arena: &Arena,
    start: u32,
    pid: u32,
    inside: &I,
    cell: &C,
    bound: Option<Locked>,
    scratch: &mut Scratch,
) -> (r: Option<()>)
    requires
        arena.wf(),
        geometry::is_sphere_test(*inside),
        geometry::is_cell_map(*cell),
        bound matches Some(b) ==> b.gdim > 0,
    ensures
        r is Some <==> carvable(arena@, *inside, *cell, bound, pid, start),
        r is Some ==> {
            &&& final(scratch).removed@.no_duplicates()
            &&& forall|t: u32| #[trigger]
                final(scratch).removed@.contains(t) <==> in_cavity(arena@, *inside, pid, start, t)
            &&& forall|t: u32| #[trigger]
                final(scratch).removed@.contains(t) ==> t < arena@.len() && arena@[t as int].alive
            &&& cavity::is_boundary(
                arena@,
                final(scratch).removed@.to_set(),
                final(scratch).boundary@,
            )
        },
{
    let ghost ts = arena@;
    scratch.visited.clear();
    scratch.stack.clear();
    scratch.removed.clear();
    scratch.boundary.clear();
    if start as usize >= arena.tets.len() || !arena.tets[start as usize].alive {
        return None;
    }
    scratch.stack.push(start);
    let _ = fx::ids_insert(&mut scratch.visited, start);
    proof {
        start_in_cavity(ts, *inside, pid, start);
        assert(scratch.stack@ == seq![start]);
        assert(scratch.stack@[0] == start);
        assert forall|t: u32| #[trigger] scratch.visited@.contains(t) <==> scratch.stack@.contains(t)
            || scratch.removed@.contains(t) by {}
    }
    while scratch.stack.len() > 0
        invariant
            arena.wf(),
            ts == arena@,
            start < ts.len(),
            ts[start as int].alive,
            geometry::is_sphere_test(*inside),
            geometry::is_cell_map(*cell),
            bound matches Some(b) ==> b.gdim > 0,
            searching(
                ts,
                *inside,
                *cell,
                bound,
                pid,
                start,
                scratch.visited@,
                scratch.stack@,
                scratch.removed@,
                scratch.boundary@,
                4,
            ),
        decreases ts.len() - scratch.removed@.len(),
    {
        let ghost stack0 = scratch.stack@;
        let ghost removed0 = scratch.removed@;
        let idx: u32 = scratch.stack.pop().unwrap();
        scratch.removed.push(idx);
        proof {
            popped(
                ts,
                *inside,
                *cell,
                bound,
                pid,
                start,
                scratch.visited@,
                stack0,
                removed0,
                scratch.boundary@,
            );
            assert(scratch.stack@ == stack0.drop_last());
            assert forall|i: int| 0 <= i < scratch.removed@.len() implies #[trigger] scratch.removed@[i]
                < ts.len() by {
                assert(scratch.removed@.contains(scratch.removed@[i]));
                assert(scratch.visited@.contains(scratch.removed@[i]));
            }
            ids_bounded(scratch.removed@, ts.len());
        }
        let tet = arena.tets[idx as usize];
        for i in 0..4usize
            invariant
                arena.wf(),
                ts == arena@,
                start < ts.len(),
                ts[start as int].alive,
                idx < ts.len(),
                tet == ts[idx as int],
                tet.alive,
                geometry::is_sphere_test(*inside),
                geometry::is_cell_map(*cell),
                bound matches Some(b) ==> b.gdim > 0,
                scratch.removed@ == removed0.push(idx),
                searching(
                    ts,
                    *inside,
                    *cell,
                    bound,
                    pid,
                    start,
                    scratch.visited@,
                    scratch.stack@,
                    scratch.removed@,
                    scratch.boundary@,
                    i as int,
                ),
        {
            let ghost visited = scratch.visited@;
            let ghost stack = scratch.stack@;
            let ghost removed = scratch.removed@;
            let ghost boundary = scratch.boundary@;
            let nb: u32 = tet.neighbors[i];
            let mut wall: bool = true;
            assert(removed.last() == idx);
            assert(removed.contains(idx)) by {
                assert(removed[removed.len() - 1] == idx);
            }
            assert(visited.contains(idx));
            if nb != INF_NONE {
                assert(ts[idx as int].neighbors[i as int] == nb);
                assert(arena::link_returned(ts, idx as int, i as int));
                let nb_tet = arena.tets[nb as usize];
                match bound {
                    Some(b) => {
                        if !b.owns(cell, nb_tet.verts) {
                            proof {
                                assert(in_cavity(ts, *inside, pid, start, idx));
                                assert(!surroundings_held(ts, bound, *cell, idx));
                            }
                            return None;
                        }
                    },
                    None => {},
                }
                if nb_tet.alive {
                    if fx::ids_contains(&scratch.visited, nb) {
                        wall = false;
                    } else {
                        let hit = inside(nb_tet.verts, pid);
                        if hit {
                            let _ = fx::ids_insert(&mut scratch.visited, nb);
                            scratch.stack.push(nb);
                            wall = false;
                            proof {
                                assert(cavity_step(ts, *inside, pid, idx, nb));
                                cavity_grows(ts, *inside, pid, start, idx, nb);
                            }
                        }
                    }
                }
            }
            if wall {
                scratch.boundary.push(Wall { tet: idx, slot: i, outside: nb });
            }
            proof {
                face_looked_at(
                    ts,
                    *inside,
                    *cell,
                    bound,
                    pid,
                    start,
                    visited,
                    stack,
                    removed,
                    boundary,
                    i as int,
                    scratch.visited@,
                    scratch.stack@,
                    scratch.boundary@,
                );
            }
        }
    }
    proof {
        search_done(
            ts,
            *inside,
            *cell,
            bound,
            pid,
            start,
            scratch.visited@,
            scratch.stack@,
            scratch.removed@,
            scratch.boundary@,
        );
    }
    Some(())
}

proof fn popped<I: Fn([u32; 4], u32) -> bool, C: Fn(Place, u32) -> (u32, u32, u32)>(
    ts: Seq<Tet>,
    inside: I,
    cell: C,
    bound: Option<Locked>,
    pid: u32,
    start: u32,
    visited: Set<u32>,
    stack: Seq<u32>,
    removed: Seq<u32>,
    boundary: Seq<Wall>,
)
    requires
        stack.len() > 0,
        searching(
            ts,
            inside,
            cell,
            bound,
            pid,
            start,
            visited,
            stack,
            removed,
            boundary,
            4,
        ),
    ensures
        searching(
            ts,
            inside,
            cell,
            bound,
            pid,
            start,
            visited,
            stack.drop_last(),
            removed.push(stack.last()),
            boundary,
            0,
        ),
        visited.contains(stack.last()),
{
    let idx = stack.last();
    let left = stack.drop_last();
    let done = removed.push(idx);
    assert(stack[stack.len() - 1] == idx);
    assert(stack.contains(idx));
    assert(visited.contains(idx));
    assert forall|t: u32| #[trigger] visited.contains(t) <==> left.contains(t) || done.contains(t) by {
        if stack.contains(t) {
            let k = stack.index_of(t);
            if k < stack.len() - 1 {
                assert(left[k] == t);
            } else {
                assert(done[done.len() - 1] == t);
            }
        }
        if removed.contains(t) {
            let k = removed.index_of(t);
            assert(done[k] == t);
        }
        if left.contains(t) {
            let k = left.index_of(t);
            assert(stack[k] == t);
        }
        if done.contains(t) {
            let k = done.index_of(t);
            if k < removed.len() {
                assert(removed[k] == t);
            }
        }
    }
    assert forall|i: int, j: int|
        0 <= i < left.len() && 0 <= j < left.len() && i != j implies left[i] != left[j] by {
        assert(stack[i] == left[i] && stack[j] == left[j]);
    }
    assert forall|i: int, j: int|
        0 <= i < done.len() && 0 <= j < done.len() && i != j implies done[i] != done[j] by {
        let lo = if i < j { i } else { j };
        let hi = if i < j { j } else { i };
        assert(removed[lo] == done[lo]);
        if hi < removed.len() {
            assert(removed[hi] == done[hi]);
        } else {
            assert(removed.contains(removed[lo]));
        }
    }
    assert forall|t: u32| left.contains(t) implies !done.contains(t) by {
        let k = left.index_of(t);
        assert(stack[k] == t);
        assert(stack.contains(t));
        if done.contains(t) {
            let m = done.index_of(t);
            if m < removed.len() {
                assert(removed[m] == t);
                assert(removed.contains(t));
            } else {
                assert(stack[k] == stack[stack.len() - 1]);
            }
        }
    }
    assert forall|j: int, i: int|
        #![trigger ts[done[j] as int].neighbors[i]]
        0 <= j < done.len() && 0 <= i < 4 && (j < done.len() - 1 || i < 0) implies face_seen(
        ts,
        inside,
        cell,
        bound,
        pid,
        visited,
        boundary,
        done[j],
        i,
    ) by {
        assert(removed[j] == done[j]);
        assert(ts[removed[j] as int].neighbors[i] == ts[done[j] as int].neighbors[i]);
    }
    assert forall|b: int| #![trigger boundary[b]] 0 <= b < boundary.len() implies done.contains(
        boundary[b].tet,
    ) && boundary[b].tet != idx by {
        let t = boundary[b].tet;
        assert(removed.contains(t));
        let k = removed.index_of(t);
        assert(done[k] == t);
    }
}

proof fn face_looked_at<I: Fn([u32; 4], u32) -> bool, C: Fn(Place, u32) -> (u32, u32, u32)>(
    ts: Seq<Tet>,
    inside: I,
    cell: C,
    bound: Option<Locked>,
    pid: u32,
    start: u32,
    visited: Set<u32>,
    stack: Seq<u32>,
    removed: Seq<u32>,
    boundary: Seq<Wall>,
    k: int,
    visited1: Set<u32>,
    stack1: Seq<u32>,
    boundary1: Seq<Wall>,
)
    requires
        0 <= k < 4,
        removed.len() > 0,
        removed.last() < ts.len(),
        searching(
            ts,
            inside,
            cell,
            bound,
            pid,
            start,
            visited,
            stack,
            removed,
            boundary,
            k,
        ),
        ({
            let t = removed.last();
            let nb = ts[t as int].neighbors[k];
            &&& nb != INF_NONE ==> may_touch(bound, cell, ts[nb as int].verts)
            &&& {
                ||| {
                    // The tet across the face is on the list already.
                    &&& nb != INF_NONE && visited.contains(nb)
                    &&& visited1 == visited && stack1 == stack && boundary1 == boundary
                }
                ||| {
                    // It joins the cavity.
                    &&& nb != INF_NONE && !visited.contains(nb)
                    &&& nb < ts.len() && ts[nb as int].alive
                    &&& inside.ensures((ts[nb as int].verts, pid), true)
                    &&& in_cavity(ts, inside, pid, start, nb)
                    &&& visited1 == visited.insert(nb) && stack1 == stack.push(nb) && boundary1
                        == boundary
                }
                ||| {
                    // The face is a wall.
                    &&& nb == INF_NONE || (!visited.contains(nb) && inside.ensures(
                        (ts[nb as int].verts, pid),
                        false,
                    ))
                    &&& visited1 == visited && stack1 == stack && boundary1 == boundary.push(
                        Wall { tet: t, slot: k as usize, outside: nb },
                    )
                }
            }
        }),
    ensures
        searching(
            ts,
            inside,
            cell,
            bound,
            pid,
            start,
            visited1,
            stack1,
            removed,
            boundary1,
            k + 1,
        ),
{
    let cur = removed.last();
    let nb = ts[cur as int].neighbors[k];
    assert(removed[removed.len() - 1] == cur);
    assert forall|t: u32| #[trigger] visited1.contains(t) <==> stack1.contains(t) || removed.contains(
        t,
    ) by {
        if stack.contains(t) {
            let m = stack.index_of(t);
            assert(stack1[m] == t);
        }
        if stack1.contains(t) {
            let m = stack1.index_of(t);
            if m < stack.len() {
                assert(stack[m] == t);
            }
        }
        if stack1.len() > stack.len() && t == nb {
            assert(stack1[stack.len() as int] == t);
        }
        if visited.contains(t) {
        }
    }
    assert forall|i: int, j: int|
        0 <= i < stack1.len() && 0 <= j < stack1.len() && i != j implies stack1[i] != stack1[j] by {
        let lo = if i < j { i } else { j };
        let hi = if i < j { j } else { i };
        assert(stack[lo] == stack1[lo]);
        if hi < stack.len() {
            assert(stack[hi] == stack1[hi]);
        } else {
            assert(stack.contains(stack[lo]));
            assert(visited.contains(stack[lo]));
        }
    }
    assert forall|t: u32| stack1.contains(t) implies !removed.contains(t) by {
        let m = stack1.index_of(t);
        if m < stack.len() {
            assert(stack[m] == t);
            assert(stack.contains(t));
        } else if removed.contains(t) {
            assert(visited.contains(t));
        }
    }
    assert forall|t: u32, i: int| #[trigger] has_wall(boundary, t, i) implies has_wall(
        boundary1,
        t,
        i,
    ) by {
        let b = choose|b: int|
            0 <= b < boundary.len() && (#[trigger] boundary[b]).tet == t && boundary[b].slot == i;
        assert(boundary1[b] == boundary[b]);
    }
    assert forall|j: int, i: int|
        #![trigger ts[removed[j] as int].neighbors[i]]
        0 <= j < removed.len() && 0 <= i < 4 && (j < removed.len() - 1 || i < k + 1) implies face_seen(
        ts,
        inside,
        cell,
        bound,
        pid,
        visited1,
        boundary1,
        removed[j],
        i,
    ) by {
        if j < removed.len() - 1 || i < k {
            assert(face_seen(ts, inside, cell, bound, pid, visited, boundary, removed[j], i));
        } else {
            assert(removed[j] == cur && i == k);
            if boundary1.len() > boundary.len() {
                assert(boundary1[boundary.len() as int].tet == cur);
            }
        }
    }
    assert forall|b: int| #![trigger boundary1[b]] 0 <= b < boundary1.len() implies {
        let w = boundary1[b];
        &&& w.slot < 4
        &&& removed.contains(w.tet)
        &&& w.tet == removed.last() ==> w.slot < k + 1
        &&& w.outside == ts[w.tet as int].neighbors[w.slot as int]
        &&& w.outside == INF_NONE || (w.outside != start && inside.ensures(
            (ts[w.outside as int].verts, pid),
            false,
        ))
    } by {
        if b < boundary.len() {
            assert(boundary1[b] == boundary[b]);
        } else {
            assert(removed.contains(cur));
        }
    }
    assert forall|b: int, c: int|
        #![trigger boundary1[b], boundary1[c]]
        0 <= b < c < boundary1.len() implies boundary1[b].tet != boundary1[c].tet
        || boundary1[b].slot != boundary1[c].slot by {
        assert(boundary1[b] == boundary[b]);
        if c < boundary.len() {
            assert(boundary1[c] == boundary[c]);
        }
    }
}

proof fn search_done<I: Fn([u32; 4], u32) -> bool, C: Fn(Place, u32) -> (u32, u32, u32)>(
    ts: Seq<Tet>,
    inside: I,
    cell: C,
    bound: Option<Locked>,
    pid: u32,
    start: u32,
    visited: Set<u32>,
    stack: Seq<u32>,
    removed: Seq<u32>,
    boundary: Seq<Wall>,
)
    requires
        geometry::is_sphere_test(inside),
        start < ts.len(),
        ts[start as int].alive,
        stack.len() == 0,
        searching(
            ts,
            inside,
            cell,
            bound,
            pid,
            start,
            visited,
            stack,
            removed,
            boundary,
            4,
        ),
    ensures
        carvable(ts, inside, cell, bound, pid, start),
        forall|t: u32| #[trigger]
            removed.contains(t) <==> in_cavity(ts, inside, pid, start, t),
        forall|t: u32| #[trigger] removed.contains(t) ==> t < ts.len() && ts[t as int].alive,
        cavity::is_boundary(ts, removed.to_set(), boundary),
{
    let set = removed.to_set();
    assert forall|t: u32| #[trigger] removed.contains(t) <==> visited.contains(t) by {
        assert(!stack.contains(t));
    }
    assert forall|t: u32, i: int|
        #![trigger ts[t as int].neighbors[i]]
        removed.contains(t) && 0 <= i < 4 implies face_seen(
        ts,
        inside,
        cell,
        bound,
        pid,
        visited,
        boundary,
        t,
        i,
    ) by {
        let j = removed.index_of(t);
        assert(ts[removed[j] as int].neighbors[i] == ts[t as int].neighbors[i]);
    }
    assert forall|t: u32, u: u32|
        set.contains(t) && #[trigger] cavity_step(ts, inside, pid, t, u) implies set.contains(u) by {
        let i: int = if ts[t as int].neighbors[0] == u {
            0
        } else if ts[t as int].neighbors[1] == u {
            1
        } else if ts[t as int].neighbors[2] == u {
            2
        } else {
            3
        };
        assert(ts[t as int].neighbors[i] == u);
        assert(face_seen(ts, inside, cell, bound, pid, visited, boundary, t, i));
        assert(visited.contains(u));
        assert(removed.contains(u));
    }
    assert(removed.contains(start));
    assert forall|t: u32| #[trigger] removed.contains(t) <==> in_cavity(
        ts,
        inside,
        pid,
        start,
        t,
    ) by {
        if in_cavity(ts, inside, pid, start, t) {
            let path = choose|path: Seq<u32>| #[trigger]
                is_cavity_path(ts, inside, pid, start, path) && path.last() == t;
            cavity_within(ts, inside, pid, start, set, path);
        }
        if removed.contains(t) {
            assert(visited.contains(t));
        }
    }
    assert forall|t: u32| #[trigger] in_cavity(
        ts,
        inside,
        pid,
        start,
        t,
    ) implies surroundings_held(ts, bound, cell, t) by {
        assert(removed.contains(t));
    }
    assert forall|t: u32, slot: int|
        #![trigger cavity::is_wall(ts, set, t, slot)]
        0 <= slot < 4 && cavity::is_wall(ts, set, t, slot) implies exists|b: int|
        0 <= b < boundary.len() && (#[trigger] boundary[b]).tet == t && boundary[b].slot == slot by {
        assert(removed.contains(t));
        let nb = ts[t as int].neighbors[slot];
        assert(face_seen(ts, inside, cell, bound, pid, visited, boundary, t, slot));
        if nb != INF_NONE {
            assert(!removed.contains(nb));
        }
        assert(has_wall(boundary, t, slot));
    }
    assert forall|b: int| #![trigger boundary[b]] 0 <= b < boundary.len() implies {
        let w = boundary[b];
        &&& w.slot < 4
        &&& cavity::is_wall(ts, set, w.tet, w.slot as int)
        &&& w.outside == ts[w.tet as int].neighbors[w.slot as int]
    } by {
        let w = boundary[b];
        if w.outside != INF_NONE && removed.contains(w.outside) {
            assert(visited.contains(w.outside));
        }
    }
}

/// The tet that a walk ends in has the site beyond none of its four faces.
pub proof fn walks_end_around_the_site<
    O: Fn([u32; 4], usize, Site) -> bool,
    C: Fn(Place, u32) -> (u32, u32, u32),
>(
    ts: Seq<Tet>,
    outside: O,
    cell: C,
    bound: Option<Locked>,
    q: Site,
    start: u32,
    path: Seq<u32>,
    slot: usize,
)
    requires
        is_walk(ts, outside, cell, bound, q, start, path),
        slot < 4,
    ensures
        path.last() < ts.len(),
        ts[path.last() as int].alive,
        !outside.ensures((ts[path.last() as int].verts, slot, q), true),
{
    assert(path[path.len() - 1] < ts.len());
    assert(slot == 0 || slot == 1 || slot == 2 || slot == 3);
}

/// A walk crosses from one tet to the next through the first face that the site lies beyond.
pub proof fn walks_cross_towards_the_site<
    O: Fn([u32; 4], usize, Site) -> bool,
    C: Fn(Place, u32) -> (u32, u32, u32),
>(
    ts: Seq<Tet>,
    outside: O,
    cell: C,
    bound: Option<Locked>,
    q: Site,
    start: u32,
    path: Seq<u32>,
    i: int,
) -> (slot: usize)
    requires
        is_walk(ts, outside, cell, bound, q, start, path),
        0 <= i < path.len() - 1,
    ensures
        slot < 4,
        outside.ensures((ts[path[i] as int].verts, slot, q), true),
        ts[path[i] as int].neighbors[slot as int] == path[i + 1],
        forall|k: usize|
            k < slot ==> !#[trigger] outside.ensures((ts[path[i] as int].verts, k, q), true),
{
    assert(walk_step(ts, outside, cell, bound, q, path[i], path[i + 1]));
    let v = ts[path[i] as int].verts;
    if outside.ensures((v, 0usize, q), true) {
        0
    } else if outside.ensures((v, 1usize, q), true) {
        1
    } else if outside.ensures((v, 2usize, q), true) {
        2
    } else {
        3
    }
}

/// A bounded walk goes to no tet whose cell is more than one away from the centre of the block
/// along some axis, nor to one that has no real vertex.
pub proof fn bounded_walks_stay_in_the_block<
    O: Fn([u32; 4], usize, Site) -> bool,
    C: Fn(Place, u32) -> (u32, u32, u32),
>(
    ts: Seq<Tet>,
    outside: O,
    cell: C,
    bound: Locked,
    q: Site,
    start: u32,
    path: Seq<u32>,
    i: int,
) -> (c: (u32, u32, u32))
    requires
        is_walk(ts, outside, cell, Some(bound), q, start, path),
        0 < i < path.len(),
    ensures
        cell.ensures((Place::Centroid(ts[path[i] as int].verts), bound.gdim), c),
        -1 <= c.0 - bound.center.0 <= 1,
        -1 <= c.1 - bound.center.1 <= 1,
        -1 <= c.2 - bound.center.2 <= 1,
        ({
            let v = ts[path[i] as int].verts;
            v[0] < INF0 || v[1] < INF0 || v[2] < INF0 || v[3] < INF0
        }),
{
    assert(walk_step(ts, outside, cell, Some(bound), q, path[i - 1], path[(i - 1) + 1]));
    let v = ts[path[i] as int].verts;
    choose|c: (u32, u32, u32)| #[trigger]
        cell.ensures((Place::Centroid(v), bound.gdim), c) && bound.holds(c)
}

/// A cavity that may be carved is surrounded by tets that may be touched: with a bound, those next
/// to it, across each of the four faces, have their cells in the block.
pub proof fn carvable_cavities_are_surrounded<
    I: Fn([u32; 4], u32) -> bool,
    C: Fn(Place, u32) -> (u32, u32, u32),
>(
    ts: Seq<Tet>,
    inside: I,
    cell: C,
    bound: Locked,
    pid: u32,
    start: u32,
    t: u32,
    slot: int,
) -> (c: (u32, u32, u32))
    requires
        carvable(ts, inside, cell, Some(bound), pid, start),
        in_cavity(ts, inside, pid, start, t),
        0 <= slot < 4,
        ts[t as int].neighbors[slot] != INF_NONE,
    ensures
        cell.ensures(
            (Place::Centroid(ts[ts[t as int].neighbors[slot] as int].verts), bound.gdim),
            c,
        ),
        -1 <= c.0 - bound.center.0 <= 1,
        -1 <= c.1 - bound.center.1 <= 1,
        -1 <= c.2 - bound.center.2 <= 1,
{
    assert(surroundings_held(ts, Some(bound), cell, t));
    let v = ts[ts[t as int].neighbors[slot] as int].verts;
    assert(may_touch(Some(bound), cell, v));
    choose|c: (u32, u32, u32)| #[trigger]
        cell.ensures((Place::Centroid(v), bound.gdim), c) && bound.holds(c)
}

/// Every tet of a cavity but the first has the point in its circumsphere, and a cavity is closed:
/// the live neighbors of its tets that have the point in theirs are in it.
pub proof fn cavities_hold_the_point<I: Fn([u32; 4], u32) -> bool>(
    ts: Seq<Tet>,
    inside: I,
    pid: u32,
    start: u32,
    t: u32,
    slot: int,
)
    requires
        in_cavity(ts, inside, pid, start, t),
        0 <= slot < 4,
    ensures
        in_cavity(ts, inside, pid, start, start),
        t != start ==> ts[t as int].alive && inside.ensures((ts[t as int].verts, pid), true),
        ({
            let u = ts[t as int].neighbors[slot];
            u != INF_NONE && ts[u as int].alive && inside.ensures((ts[u as int].verts, pid), true)
                ==> in_cavity(ts, inside, pid, start, u)
        }),
{
    let one = seq![start];
    assert(is_cavity_path(ts, inside, pid, start, one) && one.last() == start);
    let path = choose|path: Seq<u32>| #[trigger]
        is_cavity_path(ts, inside, pid, start, path) && path.last() == t;
    if t != start {
        let i = path.len() - 2;
        assert(cavity_step(ts, inside, pid, path[i], path[i + 1]));
    }
    let u = ts[t as int].neighbors[slot];
    if u != INF_NONE && ts[u as int].alive && inside.ensures((ts[u as int].verts, pid), true) {
        assert(neighbors_across(ts, t, u));
        cavity_grows(ts, inside, pid, start, t, u);
    }
}

} // verus!
