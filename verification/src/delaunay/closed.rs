//! Insertion leaves no hole: the only faces with nothing behind them are those of the
//! bounding tet.

use super::arena::{self, Tet, INF0, INF_NONE};
use super::cavity::{self, Wall};
use super::geometry::Site;
use super::insert;
use super::level;
use vstd::prelude::*;

verus! {

/// All vertices of face `i` of `v` are virtual.
pub open spec fn is_outer_face(v: [u32; 4], i: int) -> bool {
    &&& i != 0 ==> v[0] >= INF0
    &&& i != 1 ==> v[1] >= INF0
    &&& i != 2 ==> v[2] >= INF0
    &&& i != 3 ==> v[3] >= INF0
}

/// A face of a live tet that has nothing on its other side is a face of the bounding
/// tet.
pub open spec fn is_closed(ts: Seq<Tet>) -> bool {
    forall|t: int, i: int|
        #![trigger ts[t].neighbors[i]]
        0 <= t < ts.len() && 0 <= i < 4 && ts[t].alive && ts[t].neighbors[i] == INF_NONE
            ==> is_outer_face(ts[t].verts, i)
}

/// `a` and `b` are both on face `i` of `v`.
spec fn edge_on(v: [u32; 4], i: int, a: u32, b: u32) -> bool {
    arena::on_face(v, i, a) && arena::on_face(v, i, b)
}

/// A set whose elements come in pairs has an even number of them.
proof fn pairs_are_even<A>(s: Set<A>, mate: spec_fn(A) -> A)
    requires
        s.finite(),
        forall|x: A| #[trigger]
            s.contains(x) ==> s.contains(mate(x)) && mate(x) != x && mate(mate(x)) == x,
    ensures
        s.len() % 2 == 0,
    decreases s.len(),
{
    if s.len() > 0 {
        let x = s.choose();
        let y = mate(x);
        let rest = s.remove(x).remove(y);
        assert(s.contains(x));
        assert(s.remove(x).contains(y));
        assert(rest.len() == s.len() - 2);
        assert forall|z: A| #[trigger] rest.contains(z) implies rest.contains(mate(z)) && mate(z)
            != z && mate(mate(z)) == z by {
            assert(s.contains(z));
        }
        pairs_are_even(rest, mate);
    }
}

/// The faces of the removed tets that have the edge from `a` to `b`.
spec fn edge_faces(ts: Seq<Tet>, removed: Set<u32>, a: u32, b: u32) -> Set<(u32, int)> {
    Set::new(
        |f: (u32, int)|
            removed.contains(f.0) && 0 <= f.1 < 4 && edge_on(ts[f.0 as int].verts, f.1, a, b),
    )
}

/// Each tet with an edge has two faces with that edge.
proof fn edge_faces_are_even(ts: Seq<Tet>, removed: Set<u32>, a: u32, b: u32)
    requires
        removed.finite(),
        a != b,
        forall|t: u32| #[trigger] removed.contains(t) ==> arena::distinct(ts[t as int].verts),
    ensures
        edge_faces(ts, removed, a, b).finite(),
        edge_faces(ts, removed, a, b).len() % 2 == 0,
    decreases removed.len(),
{
    let all = edge_faces(ts, removed, a, b);
    if removed.len() == 0 {
        assert(all =~= Set::empty());
    } else {
        let t = removed.choose();
        let rest = removed.remove(t);
        assert(removed.contains(t));
        edge_faces_are_even(ts, rest, a, b);
        let less = edge_faces(ts, rest, a, b);
        let v = ts[t as int].verts;
        if arena::has_vert(v, a) && arena::has_vert(v, b) {
            let i: int = if v[0] != a && v[0] != b {
                0
            } else if v[1] != a && v[1] != b {
                1
            } else {
                2
            };
            let j: int = if v[3] != a && v[3] != b {
                3
            } else if v[2] != a && v[2] != b {
                2
            } else {
                1
            };
            assert(i != j && edge_on(v, i, a, b) && edge_on(v, j, a, b));
            assert forall|k: int| 0 <= k < 4 && edge_on(v, k, a, b) implies k == i || k == j by {}
            assert(all =~= less.insert((t, i)).insert((t, j)));
        } else {
            assert forall|k: int| 0 <= k < 4 implies !edge_on(v, k, a, b) by {}
            assert(all =~= less);
        }
    }
}

/// The link of face `i` of tet `t`, as a face of the tet across it.
spec fn across(ts: Seq<Tet>, t: int, i: int) -> (u32, int) {
    let nb = ts[t].neighbors[i];
    (nb, arena::apex_slot(ts[nb as int].verts, ts[t].verts, i))
}

/// The walls of the removed tets that have the edge from `a` to `b`.
spec fn edge_walls(ts: Seq<Tet>, removed: Set<u32>, a: u32, b: u32) -> Set<(u32, int)> {
    Set::new(
        |f: (u32, int)|
            edge_faces(ts, removed, a, b).contains(f) && cavity::is_wall(ts, removed, f.0, f.1),
    )
}

/// Glued faces have the same edges.
proof fn glued_faces_share_edges(ts: Seq<Tet>, n_real: u32, t: int, i: int, a: u32, b: u32)
    requires
        arena::verts_valid(ts, n_real),
        arena::links_returned(ts),
        ts.len() <= INF_NONE,
        0 <= t < ts.len(),
        0 <= i < 4,
        ts[t].alive,
        ts[t].neighbors[i] != INF_NONE,
    ensures
        ({
            let (u, j) = across(ts, t, i);
            &&& u < ts.len()
            &&& u != t
            &&& ts[u as int].alive
            &&& 0 <= j < 4
            &&& ts[u as int].neighbors[j] == t
            &&& across(ts, u as int, j) == (t as u32, i)
            &&& edge_on(ts[u as int].verts, j, a, b) == edge_on(ts[t].verts, i, a, b)
            &&& arena::face_within(ts[u as int].verts, j, ts[t].verts, i)
        }),
{
    let (u, j) = across(ts, t, i);
    assert(arena::link_returned(ts, t, i));
    assert(arena::valid_verts(ts[t].verts, n_real));
    assert(arena::valid_verts(ts[u as int].verts, n_real));
    arena::apex_slot_of_shared_face(ts[u as int].verts, j, ts[t].verts, i);
}

/// An even number of walls have a given edge.
proof fn edge_walls_are_even(
    ts: Seq<Tet>,
    n_real: u32,
    pid: u32,
    removed: Set<u32>,
    boundary: Seq<Wall>,
    a: u32,
    b: u32,
)
    requires
        cavity::is_cavity(ts, n_real, pid, removed, boundary),
        removed.finite(),
        a != b,
    ensures
        edge_walls(ts, removed, a, b).finite(),
        edge_walls(ts, removed, a, b).len() % 2 == 0,
{
    let faces = edge_faces(ts, removed, a, b);
    let walls = edge_walls(ts, removed, a, b);
    assert forall|t: u32| #[trigger] removed.contains(t) implies arena::distinct(
        ts[t as int].verts,
    ) by {
        assert(arena::valid_verts(ts[t as int].verts, n_real));
    }
    edge_faces_are_even(ts, removed, a, b);
    let inner = faces.difference(walls);
    let mate = |f: (u32, int)| across(ts, f.0 as int, f.1);
    assert forall|f: (u32, int)| #[trigger] inner.contains(f) implies inner.contains(mate(f))
        && mate(f) != f && mate(mate(f)) == f by {
        let t = f.0;
        assert(removed.contains(t));
        assert(!cavity::is_wall(ts, removed, t, f.1));
        glued_faces_share_edges(ts, n_real, t as int, f.1, a, b);
        let (u, j) = across(ts, t as int, f.1);
        assert(removed.contains(u));
        assert(!cavity::is_wall(ts, removed, u, j));
    }
    vstd::set_lib::lemma_len_subset(walls, faces);
    pairs_are_even(inner, mate);
    vstd::set_lib::lemma_set_disjoint_lens(inner, walls);
    assert(inner + walls =~= faces);
}

/// The sides of the new tets that have the edge from `a` to `b`.
spec fn edge_sides(pre: Seq<Tet>, post: Seq<Tet>, boundary: Seq<Wall>, a: u32, b: u32) -> Set<
    (int, int),
> {
    Set::new(
        |s: (int, int)|
            0 <= s.0 < boundary.len() && 0 <= s.1 < 4 && s.1 != boundary[s.0].slot && edge_on(
                post[pre.len() + s.0].verts,
                s.1,
                a,
                b,
            ),
    )
}

/// The place of wall `f` in `boundary`.
spec fn place(boundary: Seq<Wall>, f: (u32, int)) -> int {
    choose|c: int|
        0 <= c < boundary.len() && (#[trigger] boundary[c]).tet == f.0 && boundary[c].slot == f.1
}

/// The slot of `v` other than `i` whose vertex is neither `a` nor `b`.
spec fn third_slot(v: [u32; 4], i: int, a: u32, b: u32) -> int {
    if i != 0 && v[0] != a && v[0] != b {
        0
    } else if i != 1 && v[1] != a && v[1] != b {
        1
    } else if i != 2 && v[2] != a && v[2] != b {
        2
    } else {
        3
    }
}

/// Each wall with a given edge has one side with that edge, and no other wall has.
proof fn edge_sides_are_even(
    pre: Seq<Tet>,
    n_real: u32,
    post: Seq<Tet>,
    pid: u32,
    removed: Set<u32>,
    boundary: Seq<Wall>,
    a: u32,
    b: u32,
)
    requires
        cavity::is_cavity(pre, n_real, pid, removed, boundary),
        cavity::is_filled(pre, post, pid, removed, boundary),
        removed.finite(),
        a != b,
        a != pid,
        b != pid,
    ensures
        edge_sides(pre, post, boundary, a, b).finite(),
        edge_sides(pre, post, boundary, a, b).len() % 2 == 0,
{
    let walls = edge_walls(pre, removed, a, b);
    let sides = edge_sides(pre, post, boundary, a, b);
    edge_walls_are_even(pre, n_real, pid, removed, boundary, a, b);
    let side = |f: (u32, int)|
        (place(boundary, f), third_slot(pre[f.0 as int].verts, f.1, a, b));
    assert forall|f: (u32, int)| #[trigger] walls.contains(f) implies {
        let c = place(boundary, f);
        &&& 0 <= c < boundary.len()
        &&& boundary[c].tet == f.0
        &&& boundary[c].slot == f.1
        &&& sides.contains(side(f))
    } by {
        assert(cavity::is_wall(pre, removed, f.0, f.1));
        let c = place(boundary, f);
        assert(cavity::joins_wall(pre, post, pid, boundary[c], pre.len() + c));
        assert(arena::valid_verts(pre[f.0 as int].verts, n_real));
    }
    assert forall|f: (u32, int), g: (u32, int)|
        walls.contains(f) && walls.contains(g) && #[trigger] side(f) == #[trigger] side(
            g,
        ) implies f == g by {
        assert(boundary[place(boundary, f)] == boundary[place(boundary, g)]);
    }
    assert(walls.map(side) =~= sides) by {
        assert forall|s: (int, int)| sides.contains(s) implies walls.map(side).contains(s) by {
            let c = s.0;
            let w = boundary[c];
            let f = (w.tet, w.slot as int);
            assert(cavity::joins_wall(pre, post, pid, w, pre.len() + c));
            assert(cavity::is_wall(pre, removed, w.tet, w.slot as int));
            assert(arena::valid_verts(pre[w.tet as int].verts, n_real));
            assert(walls.contains(f));
            assert(place(boundary, f) == c);
            assert(side(f) == s);
        }
    }
    vstd::set_lib::lemma_map_size(walls, sides, side);
}

/// The vertices of the filled cavity are valid.
proof fn filled_verts_are_valid(
    pre: Seq<Tet>,
    n_real: u32,
    post: Seq<Tet>,
    pid: u32,
    removed: Set<u32>,
    boundary: Seq<Wall>,
)
    requires
        cavity::is_cavity(pre, n_real, pid, removed, boundary),
        cavity::is_filled(pre, post, pid, removed, boundary),
    ensures
        arena::well_linked(post, n_real),
{
    assert forall|t: int| 0 <= t < post.len() implies arena::valid_verts(
        (#[trigger] post[t]).verts,
        n_real,
    ) by {
        if t < pre.len() {
            assert(arena::valid_verts(pre[t].verts, n_real));
        } else {
            let w = boundary[t - pre.len()];
            assert(cavity::joins_wall(pre, post, pid, w, t));
            assert(cavity::is_wall(pre, removed, w.tet, w.slot as int));
            assert(removed.contains(w.tet));
            assert(arena::valid_verts(pre[w.tet as int].verts, n_real));
        }
    }
}

/// A filled cavity has no hole: each side of each new tet is glued to another new tet.
pub proof fn no_side_is_left_open(
    pre: Seq<Tet>,
    n_real: u32,
    post: Seq<Tet>,
    pid: u32,
    removed: Set<u32>,
    boundary: Seq<Wall>,
    c: int,
    i: int,
)
    requires
        cavity::is_cavity(pre, n_real, pid, removed, boundary),
        cavity::is_filled(pre, post, pid, removed, boundary),
        removed.finite(),
        insert::unused(pre, pid),
    ensures
        !cavity::left_open(pre, post, boundary, c, i),
{
    if cavity::left_open(pre, post, boundary, c, i) {
        let base = pre.len() as int;
        let w = boundary[c];
        let n = post[base + c].verts;
        filled_verts_are_valid(pre, n_real, post, pid, removed, boundary);
        assert(cavity::joins_wall(pre, post, pid, w, base + c));
        assert(arena::valid_verts(n, n_real));
        // The edge that side `i` shares with the wall.
        let p: int = if i != 0 && w.slot != 0 {
            0
        } else if i != 1 && w.slot != 1 {
            1
        } else {
            2
        };
        let q: int = if i != 3 && w.slot != 3 {
            3
        } else if i != 2 && w.slot != 2 {
            2
        } else {
            1
        };
        let a = n[p];
        let b = n[q];
        assert(p != q && a != b && a != pid && b != pid);
        assert(edge_on(n, i, a, b));
        let sides = edge_sides(pre, post, boundary, a, b);
        edge_sides_are_even(pre, n_real, post, pid, removed, boundary, a, b);
        let open = Set::new(
            |s: (int, int)| sides.contains(s) && post[base + s.0].neighbors[s.1] == INF_NONE,
        );
        vstd::set_lib::lemma_len_subset(open, sides);
        let sewn = sides.difference(open);
        let mate = |s: (int, int)|
            ({
                let f = across(post, base + s.0, s.1);
                (f.0 - base, f.1)
            });
        assert forall|s: (int, int)| #[trigger] sewn.contains(s) implies sewn.contains(mate(s))
            && mate(s) != s && mate(mate(s)) == s by {
            side_mate_is_a_side(pre, n_real, post, pid, removed, boundary, a, b, s);
        }
        pairs_are_even(sewn, mate);
        vstd::set_lib::lemma_set_disjoint_lens(sewn, open);
        assert(sewn + open =~= sides);
        assert(open.contains((c, i)));
        let others = open.remove((c, i));
        assert(others.len() > 0);
        let (d, j) = others.choose();
        assert(others.contains((d, j)));
        assert(cavity::left_open(pre, post, boundary, d, j));
        let m = post[base + d].verts;
        assert(cavity::joins_wall(pre, post, pid, boundary[d], base + d));
        assert(arena::valid_verts(m, n_real));
        assert(arena::on_face(m, j, pid) && arena::on_face(n, i, pid));
        assert(arena::face_within(n, i, m, j));
        cavity::face_key_tells_faces_apart(n, i, m, j);
    }
}

/// A side that is glued is glued to a side with the same edge.
proof fn side_mate_is_a_side(
    pre: Seq<Tet>,
    n_real: u32,
    post: Seq<Tet>,
    pid: u32,
    removed: Set<u32>,
    boundary: Seq<Wall>,
    a: u32,
    b: u32,
    s: (int, int),
)
    requires
        cavity::is_cavity(pre, n_real, pid, removed, boundary),
        cavity::is_filled(pre, post, pid, removed, boundary),
        arena::well_linked(post, n_real),
        insert::unused(pre, pid),
        edge_sides(pre, post, boundary, a, b).contains(s),
        post[pre.len() + s.0].neighbors[s.1] != INF_NONE,
    ensures
        ({
            let (u, j) = across(post, pre.len() + s.0, s.1);
            &&& edge_sides(pre, post, boundary, a, b).contains((u - pre.len(), j))
            &&& post[u as int].neighbors[j] != INF_NONE
            &&& u != pre.len() + s.0
            &&& across(post, u as int, j) == ((pre.len() + s.0) as u32, s.1)
        }),
{
    let base = pre.len() as int;
    let t = base + s.0;
    let k = s.1;
    assert(cavity::joins_wall(pre, post, pid, boundary[s.0], t));
    assert(arena::valid_verts(post[t].verts, n_real));
    glued_faces_share_edges(post, n_real, t, k, a, b);
    let (u, j) = across(post, t, k);
    assert(arena::valid_verts(post[u as int].verts, n_real));
    assert(arena::on_face(post[t].verts, k, pid));
    arena::apex_slot_of_shared_face(post[u as int].verts, j, post[t].verts, k);
    assert(arena::on_face(post[u as int].verts, j, pid));
    if u < base {
        assert(!arena::has_vert(pre[u as int].verts, pid));
        assert(post[u as int].verts == pre[u as int].verts);
    }
    let d = u - base;
    assert(cavity::joins_wall(pre, post, pid, boundary[d], base + d));
}

/// Inserting a point keeps the triangulation glued and without holes.
pub proof fn insertion_keeps_closed<I: Fn([u32; 4], u32) -> bool>(
    pre: Seq<Tet>,
    n_real: u32,
    post: Seq<Tet>,
    inside: I,
    pid: u32,
    start: u32,
)
    requires
        arena::well_linked(pre, n_real),
        is_closed(pre),
        pid < n_real,
        insert::unused(pre, pid),
        insert::is_insertion(pre, post, inside, pid, start),
    ensures
        arena::well_linked(post, n_real),
        is_closed(post),
{
    let (carved, boundary) = choose|removed: Seq<u32>, boundary: Seq<Wall>| #[trigger]
        insert::is_carving(pre, inside, pid, start, removed, boundary) && cavity::is_filled(
            pre,
            post,
            pid,
            removed.to_set(),
            boundary,
        );
    let removed = carved.to_set();
    let base = pre.len() as int;
    vstd::seq_lib::seq_to_set_is_finite(carved);
    assert forall|t: u32| #[trigger] removed.contains(t) implies t < pre.len()
        && pre[t as int].alive && !arena::has_vert(pre[t as int].verts, pid) by {
        assert(carved.contains(t));
        insert::carved_tets_exist(pre, n_real, inside, pid, start, carved, boundary, t);
    }
    assert(cavity::is_cavity(pre, n_real, pid, removed, boundary));
    filled_verts_are_valid(pre, n_real, post, pid, removed, boundary);
    assert forall|t: int, i: int|
        #![trigger post[t].neighbors[i]]
        0 <= t < post.len() && 0 <= i < 4 && post[t].alive && post[t].neighbors[i]
            == INF_NONE implies is_outer_face(post[t].verts, i) by {
        if t < base {
            old_face_is_outer(pre, n_real, post, pid, removed, boundary, t, i);
        } else {
            let c = t - base;
            let w = boundary[c];
            assert(cavity::joins_wall(pre, post, pid, w, base + c));
            assert(cavity::is_wall(pre, removed, w.tet, w.slot as int));
            if i == w.slot {
                assert(removed.contains(w.tet));
                assert(pre[w.tet as int].neighbors[i] == INF_NONE);
            } else {
                no_side_is_left_open(pre, n_real, post, pid, removed, boundary, c, i);
            }
        }
    }
}

/// A tet that stays has nothing behind a face only where it had nothing there before.
proof fn old_face_is_outer(
    pre: Seq<Tet>,
    n_real: u32,
    post: Seq<Tet>,
    pid: u32,
    removed: Set<u32>,
    boundary: Seq<Wall>,
    t: int,
    i: int,
)
    requires
        cavity::is_cavity(pre, n_real, pid, removed, boundary),
        cavity::is_filled(pre, post, pid, removed, boundary),
        arena::well_linked(post, n_real),
        is_closed(pre),
        0 <= t < pre.len(),
        0 <= i < 4,
        post[t].alive,
        post[t].neighbors[i] == INF_NONE,
    ensures
        is_outer_face(post[t].verts, i),
{
    let base = pre.len() as int;
    assert(post[t].verts == pre[t].verts && pre[t].alive && !removed.contains(t as u32));
    let r = pre[t].neighbors[i];
    if r != INF_NONE && removed.contains(r) {
        glued_faces_share_edges(pre, n_real, t, i, 0, 0);
        let (_, j) = across(pre, t, i);
        assert(cavity::is_wall(pre, removed, r, j));
        let c = choose|c: int|
            0 <= c < boundary.len() && (#[trigger] boundary[c]).tet == r && boundary[c].slot == j;
        assert(cavity::joins_wall(pre, post, pid, boundary[c], base + c));
        assert(post[base + c].neighbors[j] == t);
        assert(arena::link_returned(post, base + c, j));
        assert(arena::valid_verts(pre[t].verts, n_real));
        assert(arena::valid_verts(pre[r as int].verts, n_real));
        assert(arena::apex_slot(post[t].verts, post[base + c].verts, j) == i);
    } else {
        assert(post[t].neighbors[i] == pre[t].neighbors[i]);
    }
}

/// Inserting different unused points one after the other keeps the triangulation glued
/// and without holes.
pub proof fn runs_keep_closed<
    O: Fn([u32; 4], usize, Site) -> bool,
    I: Fn([u32; 4], u32) -> bool,
    R: Fn([u32; 4], Site) -> i64,
>(
    outside: O,
    inside: I,
    nearness: R,
    n_real: u32,
    trace: Seq<Seq<Tet>>,
    run: Seq<u32>,
    k: int,
)
    requires
        level::is_run(outside, inside, nearness, trace, run),
        level::insertable(trace[0], n_real, run),
        arena::well_linked(trace[0], n_real),
        is_closed(trace[0]),
        0 <= k <= run.len(),
    ensures
        arena::well_linked(trace[k], n_real),
        is_closed(trace[k]),
        forall|j: int|
            k <= j < run.len() ==> insert::unused(trace[k], #[trigger] run[j]),
    decreases k,
{
    if k == 0 {
        assert forall|j: int| k <= j < run.len() implies insert::unused(
            trace[k],
            #[trigger] run[j],
        ) by {
            assert(run.contains(run[j]));
        }
    } else {
        let pid = run[k - 1];
        runs_keep_closed(outside, inside, nearness, n_real, trace, run, k - 1);
        assert(run.contains(pid));
        assert(level::inserts(trace[k - 1], trace[k], outside, inside, nearness, pid));
        let start = choose|start: u32| #[trigger]
            insert::is_insertion(trace[k - 1], trace[k], inside, pid, start);
        insertion_keeps_closed(trace[k - 1], n_real, trace[k], inside, pid, start);
        assert forall|j: int| k <= j < run.len() implies insert::unused(
            trace[k],
            #[trigger] run[j],
        ) by {
            insert::insertion_uses_only_its_point(
                trace[k - 1],
                n_real,
                trace[k],
                inside,
                pid,
                start,
                run[j],
            );
        }
    }
}

} // verus!
