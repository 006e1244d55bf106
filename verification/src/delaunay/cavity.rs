//! The cavity of a new point: which tets it replaces, and how the hole is
//! filled.

use super::arena::{self, Arena, Tet, INF_NONE};
use crate::fx;
use rustc_hash::{FxHashMap, FxHashSet};
use vstd::prelude::*;

verus! {

/// A face of the cavity: face `slot` of the removed tet `tet`, with the tet
/// `outside` (or `INF_NONE`) on its other side.
#[derive(Clone, Copy, Debug)]
pub struct Wall {
    pub tet: u32,
    pub slot: usize,
    pub outside: u32,
}

/// Buffers reused across insertions.
pub struct Scratch {
    pub visited: FxHashSet<u32>,
    pub stack: Vec<u32>,
    pub removed: Vec<u32>,
    pub boundary: Vec<Wall>,
    pub new_tets: Vec<u32>,
    pub face_owner: FxHashMap<(u32, u32, u32), (u32, usize)>,
}

impl Scratch {
    pub fn new() -> (r: Scratch)
        ensures
            r.visited@ == Set::<u32>::empty(),
            r.stack@.len() == 0,
            r.removed@.len() == 0,
            r.boundary@.len() == 0,
            r.new_tets@.len() == 0,
            r.face_owner@ == Map::<(u32, u32, u32), (u32, usize)>::empty(),
    {
        Scratch {
            visited: FxHashSet::default(),
            stack: Vec::new(),
            removed: Vec::new(),
            boundary: Vec::new(),
            new_tets: Vec::new(),
            face_owner: FxHashMap::default(),
        }
    }
}

/// Face `slot` of tet `t` separates the removed tets from the rest.
pub open spec fn is_wall(ts: Seq<Tet>, removed: Set<u32>, t: u32, slot: int) -> bool {
    let nb = ts[t as int].neighbors[slot];
    removed.contains(t) && (nb == INF_NONE || !removed.contains(nb))
}

/// `boundary` lists every wall of the removed tets once.
pub open spec fn is_boundary(ts: Seq<Tet>, removed: Set<u32>, boundary: Seq<Wall>) -> bool {
    &&& forall|b: int|
        #![trigger boundary[b]]
        0 <= b < boundary.len() ==> {
            let w = boundary[b];
            &&& w.slot < 4
            &&& is_wall(ts, removed, w.tet, w.slot as int)
            &&& w.outside == ts[w.tet as int].neighbors[w.slot as int]
        }
    &&& forall|b: int, c: int|
        #![trigger boundary[b], boundary[c]]
        0 <= b < c < boundary.len() ==> boundary[b].tet != boundary[c].tet || boundary[b].slot
            != boundary[c].slot
    &&& forall|t: u32, slot: int|
        #![trigger is_wall(ts, removed, t, slot)]
        0 <= slot < 4 && is_wall(ts, removed, t, slot) ==> exists|b: int|
            0 <= b < boundary.len() && (#[trigger] boundary[b]).tet == t && boundary[b].slot == slot
}

/// The vertices of the tet that joins `pid` to a wall.
pub open spec fn cone(v: [u32; 4], slot: int, pid: u32, n: [u32; 4]) -> bool {
    &&& n[0] == (if slot == 0 { pid } else { v[0] })
    &&& n[1] == (if slot == 1 { pid } else { v[1] })
    &&& n[2] == (if slot == 2 { pid } else { v[2] })
    &&& n[3] == (if slot == 3 { pid } else { v[3] })
}

/// Three vertex ids in ascending order.
pub open spec fn sorted3(a: u32, b: u32, c: u32) -> (u32, u32, u32) {
    if a <= b {
        if b <= c {
            (a, b, c)
        } else if a <= c {
            (a, c, b)
        } else {
            (c, a, b)
        }
    } else {
        if a <= c {
            (b, a, c)
        } else if b <= c {
            (b, c, a)
        } else {
            (c, b, a)
        }
    }
}

/// What tells face `slot` of `v` apart: its vertices in ascending order.
pub open spec fn face_key(v: [u32; 4], slot: int) -> (u32, u32, u32) {
    sorted3(v[(slot + 1) % 4], v[(slot + 2) % 4], v[(slot + 3) % 4])
}

/// Two faces have the same key where they have the same vertices.
pub proof fn face_key_tells_faces_apart(a: [u32; 4], i: int, b: [u32; 4], j: int)
    requires
        0 <= i < 4,
        0 <= j < 4,
        arena::distinct(a),
        arena::distinct(b),
    ensures
        face_key(a, i) == face_key(b, j) <==> arena::face_within(a, i, b, j),
{
}

fn sort3(a: u32, b: u32, c: u32) -> (r: (u32, u32, u32))
    ensures
        r == sorted3(a, b, c),
{
    if a <= b {
        if b <= c {
            (a, b, c)
        } else if a <= c {
            (a, c, b)
        } else {
            (c, a, b)
        }
    } else {
        if a <= c {
            (b, a, c)
        } else if b <= c {
            (b, c, a)
        } else {
            (c, b, a)
        }
    }
}

/// `outside` faces wall `c` through this slot.
spec fn mate_slot(pre: Seq<Tet>, w: Wall) -> int {
    arena::apex_slot(pre[w.outside as int].verts, pre[w.tet as int].verts, w.slot as int)
}

/// Face `k` of the new tet of wall `c` is still to be stitched.
spec fn pending(c: int, k: int, n: int, done: int) -> bool {
    c == n - 1 && k >= done
}

/// The link of face `k` of new tet `t` leads to another new tet and is returned.
spec fn sewn(ts: Seq<Tet>, base: int, boundary: Seq<Wall>, t: int, k: int) -> bool {
    let nb = ts[t].neighbors[k] as int;
    let l = arena::apex_slot(ts[nb].verts, ts[t].verts, k);
    &&& base <= nb < ts.len()
    &&& nb != t
    &&& l != boundary[nb - base].slot
    &&& arena::face_within(ts[nb].verts, l, ts[t].verts, k)
    &&& ts[nb].neighbors[l] == t
}

/// The tets from before the fill: the removed ones are dead, and only links that
/// led into the cavity have changed.
spec fn old_tets_kept(pre: Seq<Tet>, ts: Seq<Tet>, removed: Set<u32>) -> bool {
    &&& pre.len() <= ts.len()
    &&& forall|t: int|
        0 <= t < pre.len() ==> {
            &&& (#[trigger] ts[t]).verts == pre[t].verts
            &&& ts[t].alive == (pre[t].alive && !removed.contains(t as u32))
        }
    &&& forall|t: int, j: int|
        #![trigger ts[t].neighbors[j]]
        0 <= t < pre.len() && 0 <= j < 4 && (removed.contains(t as u32) || pre[t].neighbors[j]
            == INF_NONE || !removed.contains(pre[t].neighbors[j])) ==> ts[t].neighbors[j]
            == pre[t].neighbors[j]
}

/// The new tet of wall `w` stands at `t`, linked with what is behind the wall.
spec fn wall_closed(pre: Seq<Tet>, ts: Seq<Tet>, pid: u32, w: Wall, t: int) -> bool {
    &&& w.slot < 4
    &&& ts[t].alive
    &&& cone(pre[w.tet as int].verts, w.slot as int, pid, ts[t].verts)
    &&& arena::distinct(ts[t].verts)
    &&& ts[t].neighbors[w.slot as int] == w.outside
    &&& w.outside != INF_NONE ==> w.outside < pre.len() && ts[w.outside as int].neighbors[mate_slot(
        pre,
        w,
    )] == t
}

spec fn walls_closed(pre: Seq<Tet>, ts: Seq<Tet>, pid: u32, boundary: Seq<Wall>, n: int) -> bool {
    forall|c: int|
        #![trigger boundary[c]]
        0 <= c < n ==> wall_closed(pre, ts, pid, boundary[c], pre.len() + c)
}

/// Face `k` of new tet `t` is stitched, pending, or noted down in `owner`.
spec fn side_noted(
    ts: Seq<Tet>,
    base: int,
    boundary: Seq<Wall>,
    n: int,
    done: int,
    owner: Map<(u32, u32, u32), (u32, usize)>,
    t: int,
    k: int,
) -> bool {
    if ts[t].neighbors[k] != INF_NONE {
        sewn(ts, base, boundary, t, k) && !pending(t - base, k, n, done)
    } else {
        pending(t - base, k, n, done) || (owner.contains_key(face_key(ts[t].verts, k)) && owner[face_key(
            ts[t].verts,
            k,
        )] == (t as u32, k as usize))
    }
}

spec fn sides_noted(
    ts: Seq<Tet>,
    base: int,
    boundary: Seq<Wall>,
    n: int,
    done: int,
    owner: Map<(u32, u32, u32), (u32, usize)>,
) -> bool {
    forall|t: int, k: int|
        #![trigger ts[t].neighbors[k]]
        base <= t < base + n && 0 <= k < 4 && k != boundary[t - base].slot ==> side_noted(
            ts,
            base,
            boundary,
            n,
            done,
            owner,
            t,
            k,
        )
}

/// Every note of `owner` speaks of a new face that is not linked yet.
spec fn notes_true(
    ts: Seq<Tet>,
    base: int,
    boundary: Seq<Wall>,
    n: int,
    done: int,
    owner: Map<(u32, u32, u32), (u32, usize)>,
) -> bool {
    forall|key: (u32, u32, u32)| #[trigger]
        owner.contains_key(key) ==> {
            let (t, k) = owner[key];
            &&& base <= t < base + n
            &&& k < 4
            &&& k != boundary[t - base].slot
            &&& key == face_key(ts[t as int].verts, k as int)
            &&& ts[t as int].neighbors[k as int] == INF_NONE
            &&& !pending(t - base, k as int, n, done)
        }
}

/// The state while the cavity is filled: `n` walls have their tet, and the last
/// of these has its faces below `done` stitched.
spec fn filling(
    pre: Seq<Tet>,
    ts: Seq<Tet>,
    pid: u32,
    removed: Set<u32>,
    boundary: Seq<Wall>,
    n: int,
    done: int,
    owner: Map<(u32, u32, u32), (u32, usize)>,
) -> bool {
    &&& 0 <= n <= boundary.len()
    &&& ts.len() == pre.len() + n
    &&& old_tets_kept(pre, ts, removed)
    &&& walls_closed(pre, ts, pid, boundary, n)
    &&& sides_noted(ts, pre.len() as int, boundary, n, done, owner)
    &&& notes_true(ts, pre.len() as int, boundary, n, done, owner)
}

/// `now` is `ts` with face `k` of `t` and face `l` of `o` linked to each other.
spec fn relinked(ts: Seq<Tet>, now: Seq<Tet>, t: int, k: int, o: int, l: int) -> bool {
    &&& now.len() == ts.len()
    &&& forall|u: int|
        0 <= u < ts.len() ==> (#[trigger] now[u]).verts == ts[u].verts && now[u].alive
            == ts[u].alive
    &&& forall|u: int, j: int|
        #![trigger now[u].neighbors[j]]
        0 <= u < ts.len() && 0 <= j < 4 && !(u == t && j == k) && !(u == o && j == l)
            ==> now[u].neighbors[j] == ts[u].neighbors[j]
    &&& now[t].neighbors[k] == o
    &&& now[o].neighbors[l] == t
}

proof fn pair_stitched(
    pre: Seq<Tet>,
    ts: Seq<Tet>,
    now: Seq<Tet>,
    pid: u32,
    removed: Set<u32>,
    boundary: Seq<Wall>,
    owner: Map<(u32, u32, u32), (u32, usize)>,
    t: u32,
    k: usize,
    o: u32,
    l: usize,
)
    requires
        k < 4,
        l < 4,
        t == ts.len() - 1,
        pre.len() <= t,
        pre.len() <= o < t,
        ts.len() <= INF_NONE,
        k != boundary[t - pre.len()].slot,
        filling(pre, ts, pid, removed, boundary, ts.len() - pre.len(), k as int, owner),
        ts[t as int].neighbors[k as int] == INF_NONE,
        owner.contains_key(face_key(ts[t as int].verts, k as int)),
        owner[face_key(ts[t as int].verts, k as int)] == (o, l),
        arena::apex_slot(ts[o as int].verts, ts[t as int].verts, k as int) == l,
        arena::face_within(ts[o as int].verts, l as int, ts[t as int].verts, k as int),
        arena::apex_slot(ts[t as int].verts, ts[o as int].verts, l as int) == k,
        arena::face_within(ts[t as int].verts, k as int, ts[o as int].verts, l as int),
        relinked(ts, now, t as int, k as int, o as int, l as int),
    ensures
        filling(
            pre,
            now,
            pid,
            removed,
            boundary,
            ts.len() - pre.len(),
            k + 1,
            owner.remove(face_key(ts[t as int].verts, k as int)),
        ),
{
    let n = ts.len() - pre.len();
    let base = pre.len() as int;
    let key = face_key(ts[t as int].verts, k as int);
    let left = owner.remove(key);
    assert(owner.contains_key(key));
    assert(old_tets_kept(pre, now, removed)) by {
        assert forall|u: int, j: int|
            #![trigger now[u].neighbors[j]]
            0 <= u < pre.len() && 0 <= j < 4 && (removed.contains(u as u32) || pre[u].neighbors[j]
                == INF_NONE || !removed.contains(pre[u].neighbors[j])) implies now[u].neighbors[j]
            == pre[u].neighbors[j] by {
            assert(now[u].neighbors[j] == ts[u].neighbors[j]);
        }
    }
    assert(walls_closed(pre, now, pid, boundary, n)) by {
        assert forall|c: int| #![trigger boundary[c]] 0 <= c < n implies wall_closed(
            pre,
            now,
            pid,
            boundary[c],
            pre.len() + c,
        ) by {
            let w = boundary[c];
            assert(wall_closed(pre, ts, pid, w, pre.len() + c));
            assert(now[base + c].neighbors[w.slot as int] == ts[base + c].neighbors[w.slot as int]);
            if w.outside != INF_NONE {
                let j = mate_slot(pre, w);
                assert(now[w.outside as int].neighbors[j] == ts[w.outside as int].neighbors[j]);
            }
        }
    }
    assert(sides_noted(now, base, boundary, n, k + 1, left)) by {
        assert forall|u: int, j: int|
            #![trigger now[u].neighbors[j]]
            base <= u < base + n && 0 <= j < 4 && j != boundary[u - base].slot implies side_noted(
            now,
            base,
            boundary,
            n,
            k + 1,
            left,
            u,
            j,
        ) by {
            if !(u == t && j == k) && !(u == o && j == l) {
                assert(now[u].neighbors[j] == ts[u].neighbors[j]);
                assert(side_noted(ts, base, boundary, n, k as int, owner, u, j));
                if ts[u].neighbors[j] != INF_NONE {
                    let nb = ts[u].neighbors[j] as int;
                    let m = arena::apex_slot(ts[nb].verts, ts[u].verts, j);
                    assert(ts[nb].neighbors[m] == u);
                    assert(now[nb].neighbors[m] == ts[nb].neighbors[m]);
                }
            }
        }
    }
    assert(notes_true(now, base, boundary, n, k + 1, left)) by {
        assert forall|x: (u32, u32, u32)| #[trigger] left.contains_key(x) implies {
            let (u, j) = left[x];
            &&& base <= u < base + n
            &&& j < 4
            &&& j != boundary[u - base].slot
            &&& x == face_key(now[u as int].verts, j as int)
            &&& now[u as int].neighbors[j as int] == INF_NONE
            &&& !pending(u - base, j as int, n, k + 1)
        } by {
            assert(owner.contains_key(x));
            let (u, j) = owner[x];
            assert(now[u as int].neighbors[j as int] == ts[u as int].neighbors[j as int]);
        }
    }
}

/// Link face `k` of the newest tet to the new tet that shares it, or note it
/// down for one that is still to come.
fn stitch(
    arena: &mut Arena,
    t: u32,
    k: usize,
    owner: &mut FxHashMap<(u32, u32, u32), (u32, usize)>,
    Ghost(pre): Ghost<Seq<Tet>>,
    Ghost(pid): Ghost<u32>,
    Ghost(removed): Ghost<Set<u32>>,
    Ghost(boundary): Ghost<Seq<Wall>>,
)
    requires
        k < 4,
        t == old(arena)@.len() - 1,
        old(arena)@.len() <= INF_NONE,
        pre.len() <= t,
        k != boundary[t - pre.len()].slot,
        filling(
            pre,
            old(arena)@,
            pid,
            removed,
            boundary,
            old(arena)@.len() - pre.len(),
            k as int,
            old(owner)@,
        ),
    ensures
        final(arena).n_real == old(arena).n_real,
        final(arena).cap == old(arena).cap,
        final(arena)@.len() == old(arena)@.len(),
        filling(
            pre,
            final(arena)@,
            pid,
            removed,
            boundary,
            final(arena)@.len() - pre.len(),
            k + 1,
            final(owner)@,
        ),
{
    let v = arena.tets[t as usize].verts;
    let key = sort3(v[(k + 1) % 4], v[(k + 2) % 4], v[(k + 3) % 4]);
    let ghost ts = arena@;
    let ghost held = owner@;
    assert(key == face_key(ts[t as int].verts, k as int));
    assert(ts[t as int].neighbors[k as int] == INF_NONE);
    match fx::faces_remove(owner, key) {
        Some((other, other_slot)) => {
            proof {
                let (o, l) = held[key];
                assert(held.contains_key(key));
                assert(boundary[o - pre.len()].slot != l);
                assert(arena::distinct(ts[o as int].verts)) by {
                    assert(wall_closed(pre, ts, pid, boundary[o - pre.len()], o as int));
                }
                assert(arena::distinct(ts[t as int].verts)) by {
                    assert(wall_closed(pre, ts, pid, boundary[t - pre.len()], t as int));
                }
                face_key_tells_faces_apart(ts[o as int].verts, l as int, ts[t as int].verts, k as int);
                arena::apex_slot_of_shared_face(
                    ts[o as int].verts,
                    l as int,
                    ts[t as int].verts,
                    k as int,
                );
                if o == t {
                    arena::apex_slot_of_shared_face(
                        ts[t as int].verts,
                        k as int,
                        ts[t as int].verts,
                        k as int,
                    );
                }
            }
            arena.set_neighbor(t, k, other);
            arena.set_neighbor(other, other_slot, t);
            proof {
                let (o, l) = held[key];
                assert(relinked(ts, arena@, t as int, k as int, o as int, l as int)) by {
                    assert forall|u: int, j: int|
                        #![trigger arena@[u].neighbors[j]]
                        0 <= u < ts.len() && 0 <= j < 4 && !(u == t && j == k) && !(u == o && j
                            == l) implies arena@[u].neighbors[j] == ts[u].neighbors[j] by {}
                }
                pair_stitched(pre, ts, arena@, pid, removed, boundary, held, t, k, o, l);
            }
        },
        None => {
            fx::faces_insert(owner, key, (t, k));
            proof {
                let n = ts.len() - pre.len();
                assert(sides_noted(ts, pre.len() as int, boundary, n, k + 1, owner@));
                assert(notes_true(ts, pre.len() as int, boundary, n, k + 1, owner@));
            }
        },
    }
}

/// The first slot of `b` whose vertex is not on face `slot` of `a`.
fn find_apex(b: [u32; 4], a: [u32; 4], slot: usize) -> (j: usize)
    requires
        slot < 4,
    ensures
        j < 4,
        j == arena::apex_slot(b, a, slot as int),
{
    let f0: u32 = a[(slot + 1) % 4];
    let f1: u32 = a[(slot + 2) % 4];
    let f2: u32 = a[(slot + 3) % 4];
    if b[0] != f0 && b[0] != f1 && b[0] != f2 {
        0
    } else if b[1] != f0 && b[1] != f1 && b[1] != f2 {
        1
    } else if b[2] != f0 && b[2] != f1 && b[2] != f2 {
        2
    } else {
        3
    }
}

/// What makes a cavity: live tets, the point in none of them, and their walls.
pub open spec fn is_cavity(
    ts: Seq<Tet>,
    n_real: u32,
    pid: u32,
    removed: Set<u32>,
    boundary: Seq<Wall>,
) -> bool {
    &&& arena::well_linked(ts, n_real)
    &&& pid < n_real
    &&& forall|t: u32| #[trigger]
        removed.contains(t) ==> t < ts.len() && ts[t as int].alive && !arena::has_vert(
            ts[t as int].verts,
            pid,
        )
    &&& is_boundary(ts, removed, boundary)
}

/// `now` is `ts` with a live tet `t` at its end that joins `pid` to wall `w` and is
/// linked with what is behind the wall.
spec fn coned(pre: Seq<Tet>, ts: Seq<Tet>, now: Seq<Tet>, pid: u32, w: Wall) -> bool {
    let t = ts.len() as int;
    &&& now.len() == ts.len() + 1
    &&& forall|u: int|
        0 <= u < ts.len() ==> (#[trigger] now[u]).verts == ts[u].verts && now[u].alive
            == ts[u].alive
    &&& forall|u: int, j: int|
        #![trigger now[u].neighbors[j]]
        0 <= u < ts.len() && 0 <= j < 4 && !(w.outside != INF_NONE && u == w.outside && j
            == mate_slot(pre, w)) ==> now[u].neighbors[j] == ts[u].neighbors[j]
    &&& now[t].alive
    &&& cone(pre[w.tet as int].verts, w.slot as int, pid, now[t].verts)
    &&& forall|k: int|
        0 <= k < 4 ==> #[trigger] now[t].neighbors[k] == (if k == w.slot {
            w.outside
        } else {
            INF_NONE
        })
    &&& w.outside != INF_NONE ==> now[w.outside as int].neighbors[mate_slot(pre, w)] == t
}

/// The tet behind a wall returns the link of the wall.
proof fn wall_mate(
    pre: Seq<Tet>,
    n_real: u32,
    pid: u32,
    removed: Set<u32>,
    boundary: Seq<Wall>,
    c: int,
)
    requires
        is_cavity(pre, n_real, pid, removed, boundary),
        0 <= c < boundary.len(),
        boundary[c].outside != INF_NONE,
    ensures
        ({
            let w = boundary[c];
            let j = mate_slot(pre, w);
            &&& w.slot < 4
            &&& w.tet < pre.len()
            &&& w.outside < pre.len()
            &&& pre[w.outside as int].alive
            &&& !removed.contains(w.outside)
            &&& removed.contains(w.tet)
            &&& pre[w.outside as int].neighbors[j] == w.tet
            &&& arena::face_within(
                pre[w.outside as int].verts,
                j,
                pre[w.tet as int].verts,
                w.slot as int,
            )
            &&& arena::face_within(
                pre[w.tet as int].verts,
                w.slot as int,
                pre[w.outside as int].verts,
                j,
            )
            &&& arena::apex_slot(pre[w.tet as int].verts, pre[w.outside as int].verts, j) == w.slot
        }),
{
    let w = boundary[c];
    assert(is_wall(pre, removed, w.tet, w.slot as int));
    assert(pre[w.tet as int].neighbors[w.slot as int] == w.outside);
    assert(arena::link_returned(pre, w.tet as int, w.slot as int));
    let j = mate_slot(pre, w);
    assert(arena::valid_verts(pre[w.tet as int].verts, n_real));
    assert(arena::valid_verts(pre[w.outside as int].verts, n_real));
    arena::apex_slot_of_shared_face(
        pre[w.outside as int].verts,
        j,
        pre[w.tet as int].verts,
        w.slot as int,
    );
}

/// Two walls have different faces behind them.
proof fn mates_differ(
    pre: Seq<Tet>,
    n_real: u32,
    pid: u32,
    removed: Set<u32>,
    boundary: Seq<Wall>,
    c: int,
    d: int,
)
    requires
        is_cavity(pre, n_real, pid, removed, boundary),
        0 <= c < boundary.len(),
        0 <= d < boundary.len(),
        c != d,
        boundary[c].outside != INF_NONE,
    ensures
        boundary[c].outside != boundary[d].outside || mate_slot(pre, boundary[c]) != mate_slot(
            pre,
            boundary[d],
        ),
{
    if boundary[c].outside == boundary[d].outside && mate_slot(pre, boundary[c]) == mate_slot(
        pre,
        boundary[d],
    ) {
        wall_mate(pre, n_real, pid, removed, boundary, c);
        wall_mate(pre, n_real, pid, removed, boundary, d);
        let lo = if c < d { c } else { d };
        let hi = if c < d { d } else { c };
        assert(boundary[lo].tet == boundary[hi].tet && boundary[lo].slot == boundary[hi].slot);
    }
}

proof fn cone_added(
    pre: Seq<Tet>,
    n_real: u32,
    ts: Seq<Tet>,
    now: Seq<Tet>,
    pid: u32,
    removed: Set<u32>,
    boundary: Seq<Wall>,
    n: int,
    owner: Map<(u32, u32, u32), (u32, usize)>,
)
    requires
        is_cavity(pre, n_real, pid, removed, boundary),
        0 <= n < boundary.len(),
        filling(pre, ts, pid, removed, boundary, n, 4, owner),
        coned(pre, ts, now, pid, boundary[n]),
        now.len() <= INF_NONE,
    ensures
        filling(pre, now, pid, removed, boundary, n + 1, 0, owner),
{
    let w = boundary[n];
    let base = pre.len() as int;
    let t = ts.len() as int;
    assert(is_wall(pre, removed, w.tet, w.slot as int));
    assert(removed.contains(w.tet));
    assert(arena::valid_verts(pre[w.tet as int].verts, n_real));
    if w.outside != INF_NONE {
        wall_mate(pre, n_real, pid, removed, boundary, n);
    }
    assert(old_tets_kept(pre, now, removed)) by {
        assert forall|u: int, j: int|
            #![trigger now[u].neighbors[j]]
            0 <= u < pre.len() && 0 <= j < 4 && (removed.contains(u as u32) || pre[u].neighbors[j]
                == INF_NONE || !removed.contains(pre[u].neighbors[j])) implies now[u].neighbors[j]
            == pre[u].neighbors[j] by {
            assert(now[u].neighbors[j] == ts[u].neighbors[j]);
        }
    }
    assert(walls_closed(pre, now, pid, boundary, n + 1)) by {
        assert forall|c: int| #![trigger boundary[c]] 0 <= c < n + 1 implies wall_closed(
            pre,
            now,
            pid,
            boundary[c],
            pre.len() + c,
        ) by {
            if c < n {
                let v = boundary[c];
                assert(wall_closed(pre, ts, pid, v, base + c));
                assert(now[base + c].neighbors[v.slot as int] == ts[base + c].neighbors[v.slot as int]);
                if v.outside != INF_NONE {
                    mates_differ(pre, n_real, pid, removed, boundary, c, n);
                    let j = mate_slot(pre, v);
                    assert(now[v.outside as int].neighbors[j] == ts[v.outside as int].neighbors[j]);
                }
            } else {
                assert(now[t].neighbors[w.slot as int] == w.outside);
            }
        }
    }
    assert(sides_noted(now, base, boundary, n + 1, 0, owner)) by {
        assert forall|u: int, j: int|
            #![trigger now[u].neighbors[j]]
            base <= u < base + n + 1 && 0 <= j < 4 && j != boundary[u - base].slot implies side_noted(
            now,
            base,
            boundary,
            n + 1,
            0,
            owner,
            u,
            j,
        ) by {
            if u < t {
                assert(now[u].neighbors[j] == ts[u].neighbors[j]);
                assert(side_noted(ts, base, boundary, n, 4, owner, u, j));
                if ts[u].neighbors[j] != INF_NONE {
                    let nb = ts[u].neighbors[j] as int;
                    let m = arena::apex_slot(ts[nb].verts, ts[u].verts, j);
                    assert(now[nb].neighbors[m] == ts[nb].neighbors[m]);
                }
            }
        }
    }
    assert(notes_true(now, base, boundary, n + 1, 0, owner)) by {
        assert forall|x: (u32, u32, u32)| #[trigger] owner.contains_key(x) implies {
            let (u, j) = owner[x];
            &&& base <= u < base + n + 1
            &&& j < 4
            &&& j != boundary[u - base].slot
            &&& x == face_key(now[u as int].verts, j as int)
            &&& now[u as int].neighbors[j as int] == INF_NONE
            &&& !pending(u - base, j as int, n + 1, 0)
        } by {
            let (u, j) = owner[x];
            assert(now[u as int].neighbors[j as int] == ts[u as int].neighbors[j as int]);
        }
    }
}

/// Tet `t` joins `pid` to wall `w` and is linked to what is behind it.
pub open spec fn joins_wall(pre: Seq<Tet>, post: Seq<Tet>, pid: u32, w: Wall, t: int) -> bool {
    &&& post[t].alive
    &&& cone(pre[w.tet as int].verts, w.slot as int, pid, post[t].verts)
    &&& post[t].neighbors[w.slot as int] == w.outside
}

/// Face `i` of the new tet of wall `c` is linked to nothing, though it is not the
/// wall itself.
pub open spec fn left_open(pre: Seq<Tet>, post: Seq<Tet>, boundary: Seq<Wall>, c: int, i: int) -> bool {
    &&& 0 <= c < boundary.len()
    &&& 0 <= i < 4
    &&& i != boundary[c].slot
    &&& post[pre.len() + c].neighbors[i] == INF_NONE
}

/// `post` is `pre` with the cavity filled: the removed tets are dead, each wall has
/// a live tet that joins it to `pid`, links out of the cavity are as they were, every
/// link of a live tet is returned, and no two faces of new tets that could be glued are
/// left apart.
pub open spec fn is_filled(
    pre: Seq<Tet>,
    post: Seq<Tet>,
    pid: u32,
    removed: Set<u32>,
    boundary: Seq<Wall>,
) -> bool {
    &&& post.len() == pre.len() + boundary.len() <= INF_NONE
    &&& arena::links_returned(post)
    &&& forall|t: int|
        #![trigger post[t]]
        0 <= t < pre.len() ==> {
            &&& post[t].verts == pre[t].verts
            &&& post[t].alive == (pre[t].alive && !removed.contains(t as u32))
        }
    &&& forall|t: int, j: int|
        #![trigger post[t].neighbors[j]]
        0 <= t < pre.len() && 0 <= j < 4 && (removed.contains(t as u32) || pre[t].neighbors[j]
            == INF_NONE || !removed.contains(pre[t].neighbors[j])) ==> post[t].neighbors[j]
            == pre[t].neighbors[j]
    &&& forall|c: int|
        #![trigger boundary[c]]
        0 <= c < boundary.len() ==> joins_wall(pre, post, pid, boundary[c], pre.len() + c)
    &&& forall|c: int, i: int, d: int, j: int|
        #![trigger left_open(pre, post, boundary, c, i), left_open(pre, post, boundary, d, j)]
        left_open(pre, post, boundary, c, i) && left_open(pre, post, boundary, d, j) && (c != d || i
            != j) ==> face_key(post[pre.len() + c].verts, i) != face_key(
            post[pre.len() + d].verts,
            j,
        )
}

proof fn filled_in(
    pre: Seq<Tet>,
    n_real: u32,
    post: Seq<Tet>,
    pid: u32,
    removed: Set<u32>,
    boundary: Seq<Wall>,
    owner: Map<(u32, u32, u32), (u32, usize)>,
)
    requires
        is_cavity(pre, n_real, pid, removed, boundary),
        filling(pre, post, pid, removed, boundary, boundary.len() as int, 4, owner),
        post.len() <= INF_NONE,
    ensures
        is_filled(pre, post, pid, removed, boundary),
        arena::well_linked(post, n_real),
{
    let base = pre.len() as int;
    let n = boundary.len() as int;
    assert forall|c: int| #![trigger boundary[c]] 0 <= c < boundary.len() implies joins_wall(
        pre,
        post,
        pid,
        boundary[c],
        pre.len() + c,
    ) by {
        assert(wall_closed(pre, post, pid, boundary[c], base + c));
    }
    assert forall|c: int, i: int, d: int, j: int|
        #![trigger left_open(pre, post, boundary, c, i), left_open(pre, post, boundary, d, j)]
        left_open(pre, post, boundary, c, i) && left_open(pre, post, boundary, d, j) && (c != d || i
            != j) implies face_key(post[pre.len() + c].verts, i) != face_key(
        post[pre.len() + d].verts,
        j,
    ) by {
        assert(side_noted(post, base, boundary, n, 4, owner, base + c, i)) by {
            assert(post[base + c].neighbors[i] == INF_NONE);
        }
        assert(side_noted(post, base, boundary, n, 4, owner, base + d, j)) by {
            assert(post[base + d].neighbors[j] == INF_NONE);
        }
    }
    assert(arena::verts_valid(post, n_real)) by {
        assert forall|t: int| 0 <= t < post.len() implies arena::valid_verts(
            (#[trigger] post[t]).verts,
            n_real,
        ) by {
            if t < base {
                assert(arena::valid_verts(pre[t].verts, n_real));
            } else {
                let w = boundary[t - base];
                assert(wall_closed(pre, post, pid, w, t));
                assert(is_wall(pre, removed, w.tet, w.slot as int));
                assert(arena::valid_verts(pre[w.tet as int].verts, n_real));
            }
        }
    }
    assert(arena::links_returned(post)) by {
        assert forall|t: int, i: int|
            #![trigger post[t].neighbors[i]]
            0 <= t < post.len() && 0 <= i < 4 && post[t].alive && post[t].neighbors[i]
                != INF_NONE implies arena::link_returned(post, t, i) by {
            if t < base {
                old_link_returned(pre, n_real, post, pid, removed, boundary, owner, t, i);
            } else {
                new_link_returned(pre, n_real, post, pid, removed, boundary, owner, t, i);
            }
        }
    }
}

proof fn old_link_returned(
    pre: Seq<Tet>,
    n_real: u32,
    post: Seq<Tet>,
    pid: u32,
    removed: Set<u32>,
    boundary: Seq<Wall>,
    owner: Map<(u32, u32, u32), (u32, usize)>,
    t: int,
    i: int,
)
    requires
        is_cavity(pre, n_real, pid, removed, boundary),
        filling(pre, post, pid, removed, boundary, boundary.len() as int, 4, owner),
        post.len() <= INF_NONE,
        arena::verts_valid(post, n_real),
        0 <= t < pre.len(),
        0 <= i < 4,
        post[t].alive,
        post[t].neighbors[i] != INF_NONE,
    ensures
        arena::link_returned(post, t, i),
{
    let base = pre.len() as int;
    assert(pre[t].alive && !removed.contains(t as u32));
    let nb = pre[t].neighbors[i];
    if nb == INF_NONE || !removed.contains(nb) {
        assert(post[t].neighbors[i] == pre[t].neighbors[i]);
        assert(arena::link_returned(pre, t, i));
        let j = arena::apex_slot(pre[nb as int].verts, pre[t].verts, i);
        assert(pre[nb as int].neighbors[j] == t);
        assert(post[nb as int].neighbors[j] == pre[nb as int].neighbors[j]);
    } else {
        assert(arena::link_returned(pre, t, i));
        let k = arena::apex_slot(pre[nb as int].verts, pre[t].verts, i);
        assert(arena::valid_verts(pre[nb as int].verts, n_real));
        assert(arena::valid_verts(pre[t].verts, n_real));
        arena::apex_slot_of_shared_face(pre[nb as int].verts, k, pre[t].verts, i);
        assert(is_wall(pre, removed, nb, k));
        let c = choose|c: int|
            0 <= c < boundary.len() && (#[trigger] boundary[c]).tet == nb && boundary[c].slot == k;
        let w = boundary[c];
        let u = base + c;
        assert(wall_closed(pre, post, pid, w, u));
        assert(w.outside == t);
        assert(mate_slot(pre, w) == i);
        assert(post[t].neighbors[i] == u);
        assert(arena::valid_verts(post[u].verts, n_real));
        assert(arena::face_within(post[u].verts, k, pre[t].verts, i));
        arena::apex_slot_of_shared_face(post[u].verts, k, post[t].verts, i);
        assert(post[u].neighbors[k] == t);
    }
}

proof fn new_link_returned(
    pre: Seq<Tet>,
    n_real: u32,
    post: Seq<Tet>,
    pid: u32,
    removed: Set<u32>,
    boundary: Seq<Wall>,
    owner: Map<(u32, u32, u32), (u32, usize)>,
    t: int,
    i: int,
)
    requires
        is_cavity(pre, n_real, pid, removed, boundary),
        filling(pre, post, pid, removed, boundary, boundary.len() as int, 4, owner),
        post.len() <= INF_NONE,
        arena::verts_valid(post, n_real),
        pre.len() <= t < post.len(),
        0 <= i < 4,
        post[t].neighbors[i] != INF_NONE,
    ensures
        arena::link_returned(post, t, i),
{
    let base = pre.len() as int;
    let w = boundary[t - base];
    assert(wall_closed(pre, post, pid, w, t));
    if i == w.slot {
        wall_mate(pre, n_real, pid, removed, boundary, t - base);
        let j = mate_slot(pre, w);
        assert(post[w.outside as int].verts == pre[w.outside as int].verts);
        assert(arena::valid_verts(post[t].verts, n_real));
        assert(arena::valid_verts(post[w.outside as int].verts, n_real));
        assert(arena::face_within(post[w.outside as int].verts, j, post[t].verts, i));
        arena::apex_slot_of_shared_face(post[w.outside as int].verts, j, post[t].verts, i);
    } else {
        assert(side_noted(post, base, boundary, boundary.len() as int, 4, owner, t, i));
        let nb = post[t].neighbors[i] as int;
        assert(wall_closed(pre, post, pid, boundary[nb - base], nb));
    }
}

/// Retriangulate the collected cavity by joining `pid` to every wall. Kills the
/// removed tets, makes the new ones and stitches their links. Returns a new tet
/// incident to `pid`, or `INF_NONE` if the cavity has no wall.
pub fn fill_cavity(arena: &mut Arena, pid: u32, scratch: &mut Scratch) -> (last: u32)
    requires
        old(arena).wf(),
        is_cavity(
            old(arena)@,
            old(arena).n_real,
            pid,
            old(scratch).removed@.to_set(),
            old(scratch).boundary@,
        ),
        old(arena)@.len() + old(scratch).boundary@.len() <= old(arena).cap,
    ensures
        final(arena).wf(),
        final(arena).n_real == old(arena).n_real,
        final(arena).cap == old(arena).cap,
        final(scratch).removed == old(scratch).removed,
        final(scratch).boundary == old(scratch).boundary,
        is_filled(
            old(arena)@,
            final(arena)@,
            pid,
            old(scratch).removed@.to_set(),
            old(scratch).boundary@,
        ),
        final(scratch).new_tets@.len() == old(scratch).boundary@.len(),
        forall|c: int|
            0 <= c < final(scratch).new_tets@.len() ==> #[trigger] final(scratch).new_tets@[c] == old(
                arena,
            )@.len() + c,
        last == (if old(scratch).boundary@.len() == 0 {
            INF_NONE as int
        } else {
            final(arena)@.len() - 1
        }),
{
    let ghost pre = arena@;
    let ghost n_real = arena.n_real;
    let ghost cap = arena.cap;
    let ghost removed = scratch.removed@.to_set();
    let ghost boundary = scratch.boundary@;
    for i in 0..scratch.removed.len()
        invariant
            scratch.removed@ == old(scratch).removed@,
            removed == scratch.removed@.to_set(),
            is_cavity(pre, n_real, pid, removed, boundary),
            arena.n_real == n_real,
            arena.cap == cap,
            arena@.len() == pre.len(),
            forall|t: int|
                #![trigger arena@[t]]
                0 <= t < pre.len() ==> {
                    &&& arena@[t].verts == pre[t].verts
                    &&& arena@[t].neighbors == pre[t].neighbors
                    &&& arena@[t].alive == (pre[t].alive && !scratch.removed@.take(
                        i as int,
                    ).contains(t as u32))
                },
    {
        let t: u32 = scratch.removed[i];
        assert(removed.contains(t));
        arena.tets[t as usize].alive = false;
        proof {
            let some = scratch.removed@.take(i as int);
            let more = scratch.removed@.take(i + 1);
            assert(more == some.push(t));
            assert forall|u: u32| more.contains(u) <==> some.contains(u) || u == t by {
                if some.contains(u) {
                    let k = some.index_of(u);
                    assert(more[k] == u);
                }
                if u == t {
                    assert(more[i as int] == u);
                }
            }
        }
    }
    assert(scratch.removed@.take(scratch.removed@.len() as int) == scratch.removed@);
    assert forall|t: u32| removed.contains(t) <==> scratch.removed@.contains(t) by {}
    scratch.new_tets.clear();
    scratch.face_owner.clear();
    let mut last: u32 = INF_NONE;
    assert(filling(pre, arena@, pid, removed, boundary, 0, 4, scratch.face_owner@));
    let walls: usize = scratch.boundary.len();
    for b in 0..walls
        invariant
            walls == boundary.len(),
            scratch.removed == old(scratch).removed,
            scratch.boundary == old(scratch).boundary,
            boundary == scratch.boundary@,
            is_cavity(pre, n_real, pid, removed, boundary),
            pre.len() + boundary.len() <= cap <= INF_NONE,
            arena.n_real == n_real,
            arena.cap == cap,
            filling(pre, arena@, pid, removed, boundary, b as int, 4, scratch.face_owner@),
            scratch.new_tets@.len() == b,
            forall|c: int| 0 <= c < b ==> #[trigger] scratch.new_tets@[c] == pre.len() + c,
            last == (if b == 0 {
                INF_NONE as int
            } else {
                pre.len() + b - 1
            }),
    {
        let w = scratch.boundary[b];
        assert(w == boundary[b as int]);
        assert(is_wall(pre, removed, w.tet, w.slot as int));
        let ghost ts = arena@;
        let v = arena.tets[w.tet as usize].verts;
        assert(v == pre[w.tet as int].verts);
        let mut nv = v;
        nv[w.slot] = pid;
        let t: u32 = arena.add_tet(nv);
        last = t;
        scratch.new_tets.push(t);
        arena.set_neighbor(t, w.slot, w.outside);
        if w.outside != INF_NONE {
            proof {
                wall_mate(pre, n_real, pid, removed, boundary, b as int);
            }
            let ov = arena.tets[w.outside as usize].verts;
            let j: usize = find_apex(ov, v, w.slot);
            arena.set_neighbor(w.outside, j, t);
        }
        proof {
            assert(coned(pre, ts, arena@, pid, w));
            cone_added(pre, n_real, ts, arena@, pid, removed, boundary, b as int, scratch.face_owner@);
        }
        for k in 0..4usize
            invariant
                scratch.removed == old(scratch).removed,
                scratch.boundary == old(scratch).boundary,
                boundary == scratch.boundary@,
                pre.len() + boundary.len() <= cap <= INF_NONE,
                b < boundary.len(),
                walls == boundary.len(),
                w == boundary[b as int],
                t == pre.len() + b,
                arena.n_real == n_real,
                arena.cap == cap,
                arena@.len() == t + 1,
                filling(pre, arena@, pid, removed, boundary, b + 1, k as int, scratch.face_owner@),
                scratch.new_tets@.len() == b + 1,
                forall|c: int| 0 <= c < b + 1 ==> #[trigger] scratch.new_tets@[c] == pre.len() + c,
        {
            if k != w.slot {
                stitch(
                    arena,
                    t,
                    k,
                    &mut scratch.face_owner,
                    Ghost(pre),
                    Ghost(pid),
                    Ghost(removed),
                    Ghost(boundary),
                );
            } else {
                proof {
                    assert(filling(
                        pre,
                        arena@,
                        pid,
                        removed,
                        boundary,
                        b + 1,
                        k + 1,
                        scratch.face_owner@,
                    ));
                }
            }
        }
    }
    proof {
        filled_in(pre, n_real, arena@, pid, removed, boundary, scratch.face_owner@);
    }
    last
}

} // verus!
