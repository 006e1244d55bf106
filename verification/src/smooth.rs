//! Taubin smoothing: neighbour lists and the sequence of steps.
//!
//! A smoothing step with a positive factor and one with a slightly larger negative factor
//! alternate. The caller computes where a vertex goes; which vertices move, and from which
//! positions, is decided here.
//!
//! Neighbour weights are uniform with face multiplicity: an interior edge is shared by two
//! faces and counts twice. Vertices on an edge of a single face are pinned.

use crate::fx;
use crate::mesh::{self, Mesh, Vec3};
use rustc_hash::FxHashMap;
use vstd::prelude::*;

verus! {

/// Corner `s` when the corners of all faces are counted through.
pub open spec fn corner(faces: Seq<[u32; 3]>, s: int) -> u32 {
    faces[s / 3][s % 3]
}

/// The corner that follows corner `s` in its face.
pub open spec fn corner_after(faces: Seq<[u32; 3]>, s: int) -> u32 {
    faces[s / 3][(s % 3 + 1) % 3]
}

/// The corner that precedes corner `s` in its face.
pub open spec fn corner_before(faces: Seq<[u32; 3]>, s: int) -> u32 {
    faces[s / 3][(s % 3 + 2) % 3]
}

/// An edge by its end points, smaller id first.
pub open spec fn edge_between(a: u32, b: u32) -> (u32, u32) {
    if a < b {
        (a, b)
    } else {
        (b, a)
    }
}

/// The edge from corner `s` to the corner after it.
pub open spec fn edge_at(faces: Seq<[u32; 3]>, s: int) -> (u32, u32) {
    edge_between(corner(faces, s), corner_after(faces, s))
}

/// The neighbours of `v` by the first `s` corners: for each corner that is `v`, the other
/// two corners of its face.
pub open spec fn ring(faces: Seq<[u32; 3]>, v: u32, s: int) -> Seq<u32>
    decreases s,
{
    if s <= 0 {
        Seq::empty()
    } else if corner(faces, s - 1) == v {
        ring(faces, v, s - 1).push(corner_after(faces, s - 1)).push(corner_before(faces, s - 1))
    } else {
        ring(faces, v, s - 1)
    }
}

/// How many of the first `s` corners start the edge `e`.
pub open spec fn edge_count(faces: Seq<[u32; 3]>, e: (u32, u32), s: int) -> nat
    decreases s,
{
    if s <= 0 {
        0
    } else {
        edge_count(faces, e, s - 1) + if edge_at(faces, s - 1) == e {
            1nat
        } else {
            0
        }
    }
}

/// `v` is on an edge that only one face has.
pub open spec fn on_boundary(faces: Seq<[u32; 3]>, v: u32, s: int) -> bool {
    exists|i: int| #[trigger] is_rim(faces, v, i) && 0 <= i < s
}

/// Corner `i` starts an edge of `v` that only one face has.
pub open spec fn is_rim(faces: Seq<[u32; 3]>, v: u32, i: int) -> bool {
    &&& corner(faces, i) == v || corner_after(faces, i) == v
    &&& edge_count(faces, edge_at(faces, i), 3 * faces.len() as int) == 1
}

/// The neighbour lists of all vertices. Those of vertex `v` are
/// `adj[offsets[v]..offsets[v + 1]]`.
pub struct Rings {
    pub offsets: Vec<u32>,
    pub adj: Vec<u32>,
    pub boundary: Vec<bool>,
}

/// `rings` holds the neighbour lists and pinned vertices of a mesh with `n` vertices.
pub open spec fn is_rings_of(faces: Seq<[u32; 3]>, n: nat, rings: &Rings) -> bool {
    let all = 3 * faces.len() as int;
    &&& rings.offsets@.len() == n + 1
    &&& rings.offsets@[0] == 0
    &&& rings.offsets@[n as int] == rings.adj@.len()
    &&& forall|v: int|
        #![trigger rings.offsets@[v]]
        0 <= v < n ==> rings.offsets@[v] <= rings.offsets@[v + 1] <= rings.adj@.len()
            && rings.adj@.subrange(rings.offsets@[v] as int, rings.offsets@[v + 1] as int) == ring(
            faces,
            v as u32,
            all,
        )
    &&& rings.boundary@.len() == n
    &&& forall|v: int|
        0 <= v < n ==> #[trigger] rings.boundary@[v] == on_boundary(faces, v as u32, all)
}

/// Sum of the list lengths of the vertices below `n`.
spec fn total_ring(faces: Seq<[u32; 3]>, n: int, s: int) -> nat
    decreases n,
{
    if n <= 0 {
        0
    } else {
        total_ring(faces, n - 1, s) + ring(faces, (n - 1) as u32, s).len()
    }
}

proof fn total_ring_step(faces: Seq<[u32; 3]>, n: int, s: int)
    requires
        0 <= n <= u32::MAX,
        0 <= s,
    ensures
        total_ring(faces, n, s + 1) == total_ring(faces, n, s) + (if corner(faces, s) < n {
            2nat
        } else {
            0
        }),
    decreases n,
{
    if n > 0 {
        total_ring_step(faces, n - 1, s);
    }
}

proof fn total_ring_is(faces: Seq<[u32; 3]>, n: int, s: int)
    requires
        0 <= n <= u32::MAX,
        0 <= s,
    ensures
        total_ring(faces, n, s) <= 2 * s,
    decreases s,
{
    if s == 0 {
        total_ring_zero(faces, n);
    } else {
        total_ring_is(faces, n, s - 1);
        total_ring_step(faces, n, s - 1);
    }
}

proof fn total_ring_zero(faces: Seq<[u32; 3]>, n: int)
    requires
        0 <= n,
    ensures
        total_ring(faces, n, 0) == 0,
    decreases n,
{
    if n > 0 {
        total_ring_zero(faces, n - 1);
    }
}

proof fn total_ring_monotone(faces: Seq<[u32; 3]>, a: int, b: int, s: int)
    requires
        0 <= a <= b,
    ensures
        total_ring(faces, a, s) <= total_ring(faces, b, s),
    decreases b,
{
    if a < b {
        total_ring_monotone(faces, a, b - 1, s);
    }
}

proof fn ring_grows(faces: Seq<[u32; 3]>, v: u32, s: int, t: int)
    requires
        0 <= s <= t,
    ensures
        ring(faces, v, s).len() <= ring(faces, v, t).len(),
        s < t && corner(faces, s) == v ==> ring(faces, v, s).len() + 2 <= ring(faces, v, t).len(),
    decreases t,
{
    if s < t {
        ring_grows(faces, v, s, t - 1);
    }
}

/// `r` stands in `adj` from `at` on.
spec fn holds_at(adj: Seq<u32>, at: int, r: Seq<u32>) -> bool {
    &&& at + r.len() <= adj.len()
    &&& forall|i: int| 0 <= i < r.len() ==> adj[at + i] == #[trigger] r[i]
}

proof fn edge_count_bound(faces: Seq<[u32; 3]>, e: (u32, u32), s: int)
    requires
        0 <= s,
    ensures
        edge_count(faces, e, s) <= s,
    decreases s,
{
    if s > 0 {
        edge_count_bound(faces, e, s - 1);
    }
}

proof fn edge_count_seen(faces: Seq<[u32; 3]>, i: int, s: int)
    requires
        0 <= i < s,
    ensures
        edge_count(faces, edge_at(faces, i), s) >= 1,
    decreases s,
{
    if i < s - 1 {
        edge_count_seen(faces, i, s - 1);
    }
}

fn edge_key(a: u32, b: u32) -> (r: (u32, u32))
    ensures
        r == edge_between(a, b),
{
    if a < b {
        (a, b)
    } else {
        (b, a)
    }
}

/// Find the pinned vertices.
pub fn boundary_vertices(mesh: &Mesh) -> (boundary: Vec<bool>)
    requires
        mesh.wf(),
        3 * mesh.faces@.len() <= u32::MAX,
    ensures
        boundary@.len() == mesh.vertices@.len(),
        forall|v: int|
            0 <= v < boundary@.len() ==> #[trigger] boundary@[v] == on_boundary(
                mesh.faces@,
                v as u32,
                3 * mesh.faces@.len() as int,
            ),
{
    let ghost faces = mesh.faces@;
    let corners: usize = 3 * mesh.faces.len();
    let mut counts: FxHashMap<(u32, u32), u32> = FxHashMap::default();
    for s in 0..corners
        invariant
            faces == mesh.faces@,
            corners == 3 * faces.len(),
            corners <= u32::MAX,
            forall|e: (u32, u32)| #[trigger]
                counts@.contains_key(e) <==> edge_count(faces, e, s as int) > 0,
            forall|e: (u32, u32)|
                counts@.contains_key(e) ==> #[trigger] counts@[e] == edge_count(faces, e, s as int),
    {
        let f = mesh.faces[s / 3];
        let e = edge_key(f[s % 3], f[(s % 3 + 1) % 3]);
        assert(e == edge_at(faces, s as int));
        proof {
            edge_count_bound(faces, e, s as int);
        }
        let c: u32 = match fx::pairs_get(&counts, e) {
            Some(c) => c,
            None => 0,
        };
        fx::pairs_insert(&mut counts, e, c + 1);
    }
    let n: usize = mesh.vertices.len();
    let mut boundary: Vec<bool> = Vec::new();
    for v in 0..n
        invariant
            boundary@.len() == v,
            forall|u: int| 0 <= u < v ==> !#[trigger] boundary@[u],
    {
        boundary.push(false);
    }
    for s in 0..corners
        invariant
            mesh.wf(),
            faces == mesh.faces@,
            n == mesh.vertices@.len(),
            n <= u32::MAX,
            corners == 3 * faces.len(),
            boundary@.len() == n,
            forall|e: (u32, u32)| #[trigger]
                counts@.contains_key(e) <==> edge_count(faces, e, corners as int) > 0,
            forall|e: (u32, u32)|
                counts@.contains_key(e) ==> #[trigger] counts@[e] == edge_count(
                    faces,
                    e,
                    corners as int,
                ),
            forall|v: int|
                0 <= v < n ==> #[trigger] boundary@[v] == on_boundary(faces, v as u32, s as int),
    {
        let f = mesh.faces[s / 3];
        assert(mesh::face_in(faces[s as int / 3], n as nat));
        let a: u32 = f[s % 3];
        let b: u32 = f[(s % 3 + 1) % 3];
        let e = edge_key(a, b);
        let ghost before = boundary@;
        proof {
            assert(a == corner(faces, s as int) && b == corner_after(faces, s as int));
            assert(e == edge_at(faces, s as int));
            edge_count_seen(faces, s as int, corners as int);
        }
        let c: u32 = match fx::pairs_get(&counts, e) {
            Some(c) => c,
            None => 0,
        };
        if c == 1 {
            boundary.set(a as usize, true);
            boundary.set(b as usize, true);
        }
        proof {
            assert forall|v: int| 0 <= v < n implies #[trigger] boundary@[v] == on_boundary(
                faces,
                v as u32,
                s + 1,
            ) by {
                if on_boundary(faces, v as u32, s as int) {
                    let i = choose|i: int| #[trigger]
                        is_rim(faces, v as u32, i) && 0 <= i < s as int;
                    assert(is_rim(faces, v as u32, i));
                }
                if v == a || v == b {
                    assert(c == 1 ==> is_rim(faces, v as u32, s as int));
                }
                if on_boundary(faces, v as u32, s + 1) {
                    let i = choose|i: int| #[trigger] is_rim(faces, v as u32, i) && 0 <= i < s + 1;
                    if i < s {
                        assert(on_boundary(faces, v as u32, s as int));
                    }
                }
                assert(before[v] == on_boundary(faces, v as u32, s as int));
            }
        }
    }
    boundary
}

/// Build the neighbour lists of a mesh.
pub fn vertex_rings(mesh: &Mesh) -> (rings: Rings)
    requires
        mesh.wf(),
        6 * mesh.faces@.len() <= u32::MAX,
    ensures
        is_rings_of(mesh.faces@, mesh.vertices@.len(), &rings),
{
    let ghost faces = mesh.faces@;
    let n: usize = mesh.vertices.len();
    let corners: usize = 3 * mesh.faces.len();
    let mut deg: Vec<u32> = Vec::new();
    for v in 0..n
        invariant
            deg@.len() == v,
            forall|u: int| 0 <= u < v ==> #[trigger] deg@[u] == 0,
    {
        deg.push(0);
    }
    for s in 0..corners
        invariant
            mesh.wf(),
            faces == mesh.faces@,
            n == mesh.vertices@.len(),
            n <= u32::MAX,
            corners == 3 * faces.len(),
            2 * corners <= u32::MAX,
            deg@.len() == n,
            forall|v: int|
                0 <= v < n ==> #[trigger] deg@[v] == ring(faces, v as u32, s as int).len(),
    {
        assert(mesh::face_in(faces[s as int / 3], n as nat));
        let v: u32 = mesh.faces[s / 3][s % 3];
        proof {
            ring_bound(faces, v, s as int);
        }
        deg.set(v as usize, deg[v as usize] + 2);
    }
    let mut offsets: Vec<u32> = Vec::new();
    offsets.push(0);
    for v in 0..n
        invariant
            n <= u32::MAX,
            corners == 3 * faces.len(),
            2 * corners <= u32::MAX,
            deg@.len() == n,
            forall|v: int|
                0 <= v < n ==> #[trigger] deg@[v] == ring(faces, v as u32, corners as int).len(),
            offsets@.len() == v + 1,
            forall|u: int|
                0 <= u <= v ==> #[trigger] offsets@[u] == total_ring(faces, u, corners as int),
    {
        proof {
            total_ring_is(faces, v + 1, corners as int);
        }
        let next: u32 = offsets[v] + deg[v];
        offsets.push(next);
    }
    let total: usize = offsets[n] as usize;
    let mut adj: Vec<u32> = Vec::new();
    for i in 0..total
        invariant
            adj@.len() == i,
    {
        adj.push(0);
    }
    let mut cursor: Vec<u32> = Vec::new();
    for v in 0..n
        invariant
            offsets@.len() == n + 1,
            cursor@.len() == v,
            forall|u: int| 0 <= u < v ==> #[trigger] cursor@[u] == offsets@[u],
    {
        cursor.push(offsets[v]);
    }
    proof {
        assert forall|v: int| 0 <= v < n implies holds_at(
            adj@,
            #[trigger] offsets@[v] as int,
            ring(faces, v as u32, 0),
        ) by {
            total_ring_monotone(faces, v, n as int, corners as int);
            assert(offsets@[n as int] == total_ring(faces, n as int, corners as int));
        }
    }
    for s in 0..corners
        invariant
            mesh.wf(),
            faces == mesh.faces@,
            n == mesh.vertices@.len(),
            n <= u32::MAX,
            corners == 3 * faces.len(),
            2 * corners <= u32::MAX,
            offsets@.len() == n + 1,
            forall|u: int|
                0 <= u <= n ==> #[trigger] offsets@[u] == total_ring(faces, u, corners as int),
            adj@.len() == offsets@[n as int],
            cursor@.len() == n,
            forall|v: int|
                0 <= v < n ==> #[trigger] cursor@[v] == offsets@[v] + ring(
                    faces,
                    v as u32,
                    s as int,
                ).len(),
            forall|v: int|
                0 <= v < n ==> holds_at(
                    adj@,
                    #[trigger] offsets@[v] as int,
                    ring(faces, v as u32, s as int),
                ),
    {
        assert(mesh::face_in(faces[s as int / 3], n as nat));
        let f = mesh.faces[s / 3];
        let k: usize = s % 3;
        let a: usize = f[k] as usize;
        let b: u32 = f[(k + 1) % 3];
        let c: u32 = f[(k + 2) % 3];
        let ghost before = adj@;
        proof {
            ring_grows(faces, a as u32, s as int, corners as int);
            total_ring_monotone(faces, a + 1, n as int, corners as int);
            assert(offsets@[a as int] + ring(faces, a as u32, corners as int).len()
                == total_ring(faces, a + 1, corners as int));
            assert(offsets@[a + 1] <= offsets@[n as int]);
        }
        let at: usize = cursor[a] as usize;
        adj.set(at, b);
        adj.set(at + 1, c);
        cursor.set(a, cursor[a] + 2);
        proof {
            assert forall|v: int| 0 <= v < n implies holds_at(
                adj@,
                #[trigger] offsets@[v] as int,
                ring(faces, v as u32, s + 1),
            ) by {
                let at_v = offsets@[v] as int;
                let old_ring = ring(faces, v as u32, s as int);
                assert(holds_at(before, at_v, old_ring));
                if v != a {
                    ring_grows(faces, v as u32, s as int, corners as int);
                    if v < a {
                        total_ring_monotone(faces, v + 1, a as int, corners as int);
                    } else {
                        total_ring_monotone(faces, a + 1, v, corners as int);
                    }
                    assert(offsets@[v] == total_ring(faces, v, corners as int));
                    assert(offsets@[a as int] == total_ring(faces, a as int, corners as int));
                }
            }
        }
    }
    let boundary = boundary_vertices(mesh);
    proof {
        assert forall|v: int| #![trigger offsets@[v]] 0 <= v < n implies offsets@[v]
            <= offsets@[v + 1] <= adj@.len() && adj@.subrange(
            offsets@[v] as int,
            offsets@[v + 1] as int,
        ) == ring(faces, v as u32, corners as int) by {
            total_ring_monotone(faces, v + 1, n as int, corners as int);
            assert(offsets@[v + 1] == total_ring(faces, v + 1, corners as int));
            assert(offsets@[n as int] == total_ring(faces, n as int, corners as int));
            assert(holds_at(adj@, offsets@[v] as int, ring(faces, v as u32, corners as int)));
            assert(adj@.subrange(offsets@[v] as int, offsets@[v + 1] as int) =~= ring(
                faces,
                v as u32,
                corners as int,
            ));
        }
    }
    Rings { offsets, adj, boundary }
}

proof fn ring_bound(faces: Seq<[u32; 3]>, v: u32, s: int)
    requires
        0 <= s,
    ensures
        ring(faces, v, s).len() <= 2 * s,
    decreases s,
{
    if s > 0 {
        ring_bound(faces, v, s - 1);
    }
}

/// Vertex `i` does not move: it has no neighbours or is on a boundary edge.
pub open spec fn is_pinned(rings: &Rings, i: int) -> bool {
    rings.offsets@[i] == rings.offsets@[i + 1] || rings.boundary@[i]
}

/// `after` is `before` after one step: pinned vertices stay, and each other vertex goes
/// where `relax` takes it.
pub open spec fn is_step<R: Fn(&Vec<Vec3>, &Rings, usize, bool) -> Vec3>(
    relax: R,
    rings: &Rings,
    grow: bool,
    before: Vec<Vec3>,
    after: Seq<Vec3>,
) -> bool {
    &&& after.len() == before@.len()
    &&& forall|i: int|
        #![trigger after[i]]
        0 <= i < after.len() ==> if is_pinned(rings, i) {
            after[i] == before@[i]
        } else {
            relax.ensures((&before, rings, i as usize, grow), after[i])
        }
}

/// `stages` are the positions after each step; every second step is a growing one.
pub open spec fn is_smoothing<R: Fn(&Vec<Vec3>, &Rings, usize, bool) -> Vec3>(
    relax: R,
    rings: &Rings,
    stages: Seq<Vec<Vec3>>,
) -> bool {
    forall|k: int|
        #![trigger stages[k + 1]]
        0 <= k < stages.len() - 1 ==> is_step(
            relax,
            rings,
            k % 2 == 1,
            stages[k],
            stages[k + 1]@,
        )
}

/// Pinned vertices end where they began.
pub proof fn pinned_vertices_stay<R: Fn(&Vec<Vec3>, &Rings, usize, bool) -> Vec3>(
    relax: R,
    rings: &Rings,
    stages: Seq<Vec<Vec3>>,
    k: int,
    i: int,
)
    requires
        is_smoothing(relax, rings, stages),
        0 <= k < stages.len(),
        0 <= i < stages[0]@.len(),
        is_pinned(rings, i),
    ensures
        stages[k]@.len() == stages[0]@.len(),
        stages[k]@[i] == stages[0]@[i],
    decreases k,
{
    if k > 0 {
        pinned_vertices_stay(relax, rings, stages, k - 1, i);
        assert(is_step(relax, rings, (k - 1) % 2 == 1, stages[k - 1], stages[(k - 1) + 1]@));
        assert(stages[k]@[i] == stages[k - 1]@[i]);
    }
}

/// `relax` can be asked where a vertex of `mesh` goes.
pub open spec fn can_relax<R: Fn(&Vec<Vec3>, &Rings, usize, bool) -> Vec3>(
    relax: R,
    mesh: &Mesh,
) -> bool {
    forall|pos: Vec<Vec3>, rings: Rings, i: usize, grow: bool|
        pos@.len() == mesh.vertices@.len() && i < pos@.len() && is_rings_of(
            mesh.faces@,
            pos@.len(),
            &rings,
        ) ==> #[trigger] relax.requires((&pos, &rings, i, grow))
}

/// `after` is `before` after `iters` step pairs: the faces are the same, and the vertices
/// went through one stage after the other.
pub open spec fn is_smoothed<R: Fn(&Vec<Vec3>, &Rings, usize, bool) -> Vec3>(
    before: &Mesh,
    iters: u32,
    relax: R,
    after: &Mesh,
) -> bool {
    &&& after.faces@ == before.faces@
    &&& if iters == 0 || before.vertices@.len() == 0 || before.faces@.len() == 0 {
        after.vertices@ == before.vertices@
    } else {
        exists|rings: Rings, stages: Seq<Vec<Vec3>>|
            {
                &&& #[trigger] is_smoothing(relax, &rings, stages)
                &&& is_rings_of(before.faces@, before.vertices@.len(), &rings)
                &&& stages.len() == 2 * iters + 1
                &&& stages[0]@ == before.vertices@
                &&& stages.last()@ == after.vertices@
            }
    }
}

proof fn stage_len<R: Fn(&Vec<Vec3>, &Rings, usize, bool) -> Vec3>(
    relax: R,
    rings: &Rings,
    stages: Seq<Vec<Vec3>>,
    k: int,
)
    requires
        is_smoothing(relax, rings, stages),
        0 <= k < stages.len(),
    ensures
        stages[k]@.len() == stages[0]@.len(),
    decreases k,
{
    if k > 0 {
        stage_len(relax, rings, stages, k - 1);
        assert(is_step(relax, rings, (k - 1) % 2 == 1, stages[k - 1], stages[(k - 1) + 1]@));
    }
}

/// Smoothing keeps the number of vertices, and a mesh well formed.
pub proof fn smoothing_keeps_wf<R: Fn(&Vec<Vec3>, &Rings, usize, bool) -> Vec3>(
    before: &Mesh,
    iters: u32,
    relax: R,
    after: &Mesh,
)
    requires
        before.wf(),
        is_smoothed(before, iters, relax, after),
    ensures
        after.wf(),
        after.vertices@.len() == before.vertices@.len(),
{
    if !(iters == 0 || before.vertices@.len() == 0 || before.faces@.len() == 0) {
        let (rings, stages) = choose|rings: Rings, stages: Seq<Vec<Vec3>>|
            {
                &&& #[trigger] is_smoothing(relax, &rings, stages)
                &&& is_rings_of(before.faces@, before.vertices@.len(), &rings)
                &&& stages.len() == 2 * iters + 1
                &&& stages[0]@ == before.vertices@
                &&& stages.last()@ == after.vertices@
            };
        stage_len(relax, &rings, stages, stages.len() - 1);
    }
}

/// In-place smoothing of the vertices; `iters` is the number of step pairs.
/// `relax(positions, rings, i, grow)` is where vertex `i` goes in a shrinking or growing
/// step. The faces are untouched.
pub fn taubin_smooth<R: Fn(&Vec<Vec3>, &Rings, usize, bool) -> Vec3>(
    mesh: &mut Mesh,
    iters: u32,
    relax: R,
)
    requires
        old(mesh).wf(),
        iters > 0 ==> 6 * old(mesh).faces@.len() <= u32::MAX,
        can_relax(relax, old(mesh)),
    ensures
        is_smoothed(old(mesh), iters, relax, final(mesh)),
{
    if iters == 0 || mesh.vertices.len() == 0 || mesh.faces.len() == 0 {
        return;
    }
    let rings = vertex_rings(mesh);
    let n: usize = mesh.vertices.len();
    let steps: u64 = 2 * iters as u64;
    let copy = mesh.duplicate();
    let mut pos: Vec<Vec3> = copy.vertices;
    let ghost mut stages: Seq<Vec<Vec3>> = seq![pos];
    for k in 0..steps
        invariant
            mesh.faces@ == old(mesh).faces@,
            mesh.vertices@ == old(mesh).vertices@,
            n == old(mesh).vertices@.len(),
            is_rings_of(old(mesh).faces@, n as nat, &rings),
            can_relax(relax, old(mesh)),
            pos@.len() == n,
            stages.len() == k + 1,
            stages[0]@ == old(mesh).vertices@,
            stages.last() == pos,
            is_smoothing(relax, &rings, stages),
    {
        let grow: bool = k % 2 == 1;
        let mut next: Vec<Vec3> = Vec::new();
        for i in 0..n
            invariant
                n == old(mesh).vertices@.len(),
                pos@.len() == n,
                is_rings_of(old(mesh).faces@, n as nat, &rings),
                can_relax(relax, old(mesh)),
                next@.len() == i,
                forall|j: int|
                    #![trigger next@[j]]
                    0 <= j < i ==> if is_pinned(&rings, j) {
                        next@[j] == pos@[j]
                    } else {
                        relax.ensures((&pos, &rings, j as usize, grow), next@[j])
                    },
        {
            if rings.offsets[i] == rings.offsets[i + 1] || rings.boundary[i] {
                next.push(pos[i]);
            } else {
                let to = relax(&pos, &rings, i, grow);
                next.push(to);
            }
        }
        proof {
            let before = stages;
            assert(is_step(relax, &rings, grow, pos, next@));
            stages = stages.push(next);
            assert forall|j: int|
                #![trigger stages[j + 1]]
                0 <= j < stages.len() - 1 implies is_step(
                relax,
                &rings,
                j % 2 == 1,
                stages[j],
                stages[j + 1]@,
            ) by {
                if j < k {
                    assert(stages[j] == before[j] && stages[j + 1] == before[j + 1]);
                }
            }
        }
        pos = next;
    }
    mesh.vertices = pos;
}

/// Corners `a` and `b` of a face with corners `f` are `v` and `u`, in different places.
pub open spec fn joins(f: [u32; 3], v: u32, u: u32) -> bool {
    ||| f[0] == v && (f[1] == u || f[2] == u)
    ||| f[1] == v && (f[0] == u || f[2] == u)
    ||| f[2] == v && (f[0] == u || f[1] == u)
}

/// The neighbours of a vertex are the other corners of its faces: `u` is listed for `v` if and only
/// if some face has both as corners.
pub proof fn neighbours_share_a_face(faces: Seq<[u32; 3]>, v: u32, u: u32)
    ensures
        ring(faces, v, 3 * faces.len() as int).contains(u) <==> exists|f: int|
            0 <= f < faces.len() && joins(#[trigger] faces[f], v, u),
{
    let all = 3 * faces.len() as int;
    if ring(faces, v, all).contains(u) {
        let s = corner_that_lists(faces, v, u, all);
        assert(joins(faces[s / 3], v, u));
    }
    if exists|f: int| 0 <= f < faces.len() && joins(#[trigger] faces[f], v, u) {
        let f = choose|f: int| 0 <= f < faces.len() && joins(#[trigger] faces[f], v, u);
        let s: int = if faces[f][0] == v && (faces[f][1] == u || faces[f][2] == u) {
            3 * f
        } else if faces[f][1] == v && (faces[f][0] == u || faces[f][2] == u) {
            3 * f + 1
        } else {
            3 * f + 2
        };
        assert(s / 3 == f && s % 3 == s - 3 * f);
        ring_lists(faces, v, u, s, all);
    }
}

proof fn corner_that_lists(faces: Seq<[u32; 3]>, v: u32, u: u32, n: int) -> (s: int)
    requires
        ring(faces, v, n).contains(u),
        0 <= n,
    ensures
        0 <= s < n,
        corner(faces, s) == v,
        corner_after(faces, s) == u || corner_before(faces, s) == u,
    decreases n,
{
    let r = ring(faces, v, n);
    let i = r.index_of(u);
    if n == 0 {
        0
    } else {
        let before = ring(faces, v, n - 1);
        if corner(faces, n - 1) == v && i >= before.len() {
            n - 1
        } else {
            assert(before[i] == u);
            corner_that_lists(faces, v, u, n - 1)
        }
    }
}

proof fn ring_lists(faces: Seq<[u32; 3]>, v: u32, u: u32, s: int, n: int)
    requires
        0 <= s < n,
        corner(faces, s) == v,
        corner_after(faces, s) == u || corner_before(faces, s) == u,
    ensures
        ring(faces, v, n).contains(u),
    decreases n,
{
    let r = ring(faces, v, n);
    if s < n - 1 {
        ring_lists(faces, v, u, s, n - 1);
        let i = ring(faces, v, n - 1).index_of(u);
        assert(r[i] == u);
    } else {
        let k = ring(faces, v, n - 1).len() as int;
        assert(r[k] == corner_after(faces, s) && r[k + 1] == corner_before(faces, s));
    }
}

/// How many corners `v` has among the first `n`.
pub open spec fn corners_at(faces: Seq<[u32; 3]>, v: u32, n: int) -> nat
    decreases n,
{
    if n <= 0 {
        0
    } else {
        corners_at(faces, v, n - 1) + (if faces[(n - 1) / 3][(n - 1) % 3] == v {
            1nat
        } else {
            0
        })
    }
}

/// A vertex has two neighbours for each corner that it has.
pub proof fn each_corner_lists_two_neighbours(faces: Seq<[u32; 3]>, v: u32, n: int)
    requires
        0 <= n,
    ensures
        ring(faces, v, n).len() == 2 * corners_at(faces, v, n),
    decreases n,
{
    if n > 0 {
        each_corner_lists_two_neighbours(faces, v, n - 1);
    }
}

/// Side `k` of face `f` has the ends `u` and `v`.
pub open spec fn is_side(faces: Seq<[u32; 3]>, f: int, k: int, u: u32, v: u32) -> bool {
    let next = if k == 2 {
        0int
    } else {
        k + 1
    };
    faces[f][k] == u && faces[f][next] == v || faces[f][k] == v && faces[f][next] == u
}

/// Side `k` of face `f` has the ends `u` and `v`, and no other side of any face has both.
pub open spec fn is_lone_side(faces: Seq<[u32; 3]>, f: int, k: int, u: u32, v: u32) -> bool {
    &&& 0 <= f < faces.len() && 0 <= k < 3
    &&& is_side(faces, f, k, u, v)
    &&& forall|g: int, l: int|
        0 <= g < faces.len() && 0 <= l < 3 && #[trigger] is_side(faces, g, l, u, v) ==> g == f && l
            == k
}

/// A vertex is on the boundary if and only if it is an end of a side that is no other side of any
/// face.
pub proof fn the_boundary_has_lone_sides(faces: Seq<[u32; 3]>, v: u32)
    ensures
        on_boundary(faces, v, 3 * faces.len() as int) <==> exists|f: int, k: int, u: u32| #[trigger]
            is_lone_side(faces, f, k, u, v),
{
    let all = 3 * faces.len() as int;
    if on_boundary(faces, v, all) {
        let i = choose|i: int| #[trigger] is_rim(faces, v, i) && 0 <= i < all;
        let u = rim_is_lone(faces, v, i);
        assert(is_lone_side(faces, i / 3, i % 3, u, v));
    }
    if exists|f: int, k: int, u: u32| #[trigger] is_lone_side(faces, f, k, u, v) {
        let (f, k, u) = choose|f: int, k: int, u: u32| #[trigger] is_lone_side(faces, f, k, u, v);
        lone_is_rim(faces, v, f, k, u);
    }
}

/// A side is the edge between its ends.
pub proof fn side_is_edge(faces: Seq<[u32; 3]>, i: int, u: u32, v: u32)
    requires
        0 <= i,
    ensures
        is_side(faces, i / 3, i % 3, u, v) <==> edge_at(faces, i) == edge_between(u, v),
{
    let k = i % 3;
    assert((k + 1) % 3 == (if k == 2 { 0int } else { k + 1 }));
}

proof fn rim_is_lone(faces: Seq<[u32; 3]>, v: u32, i: int) -> (u: u32)
    requires
        is_rim(faces, v, i),
        0 <= i < 3 * faces.len(),
    ensures
        is_lone_side(faces, i / 3, i % 3, u, v),
{
    let all = 3 * faces.len() as int;
    let u = if corner(faces, i) == v {
        corner_after(faces, i)
    } else {
        corner(faces, i)
    };
    let e = edge_at(faces, i);
    assert(e == edge_between(u, v));
    side_is_edge(faces, i, u, v);
    assert forall|g: int, l: int|
        0 <= g < faces.len() && 0 <= l < 3 && #[trigger] is_side(faces, g, l, u, v) implies g == i
        / 3 && l == i % 3 by {
        let j = 3 * g + l;
        assert(j / 3 == g && j % 3 == l);
        side_is_edge(faces, j, u, v);
        if j != i {
            two_sides_count(faces, e, i, j, all);
        }
    }
    u
}

proof fn lone_is_rim(faces: Seq<[u32; 3]>, v: u32, f: int, k: int, u: u32)
    requires
        is_lone_side(faces, f, k, u, v),
    ensures
        on_boundary(faces, v, 3 * faces.len() as int),
{
    let all = 3 * faces.len() as int;
    let i = 3 * f + k;
    assert(i / 3 == f && i % 3 == k);
    let e = edge_at(faces, i);
    side_is_edge(faces, i, u, v);
    assert forall|j: int| 0 <= j < all && #[trigger] edge_at(faces, j) == e implies j == i by {
        side_is_edge(faces, j, u, v);
        assert(is_side(faces, j / 3, j % 3, u, v));
    }
    lone_side_counts(faces, e, i, all);
    assert((k + 1) % 3 == (if k == 2 { 0int } else { k + 1 }));
    assert(is_rim(faces, v, i));
}

proof fn two_sides_count(faces: Seq<[u32; 3]>, e: (u32, u32), i: int, j: int, n: int)
    requires
        0 <= i < n,
        0 <= j < n,
        i != j,
        edge_at(faces, i) == e,
        edge_at(faces, j) == e,
    ensures
        edge_count(faces, e, n) >= 2,
    decreases n,
{
    if i < n - 1 && j < n - 1 {
        two_sides_count(faces, e, i, j, n - 1);
    } else if i < n - 1 {
        one_side_counts(faces, e, i, n - 1);
    } else {
        one_side_counts(faces, e, j, n - 1);
    }
}

proof fn one_side_counts(faces: Seq<[u32; 3]>, e: (u32, u32), i: int, n: int)
    requires
        0 <= i < n,
        edge_at(faces, i) == e,
    ensures
        edge_count(faces, e, n) >= 1,
    decreases n,
{
    if i < n - 1 {
        one_side_counts(faces, e, i, n - 1);
    }
}

proof fn lone_side_counts(faces: Seq<[u32; 3]>, e: (u32, u32), i: int, n: int)
    requires
        forall|j: int| 0 <= j < n && #[trigger] edge_at(faces, j) == e ==> j == i,
        0 <= n,
    ensures
        edge_count(faces, e, n) == (if 0 <= i < n && edge_at(faces, i) == e {
            1nat
        } else {
            0
        }),
    decreases n,
{
    if n > 0 {
        lone_side_counts(faces, e, i, n - 1);
        assert(edge_at(faces, n - 1) == e ==> n - 1 == i);
    }
}

/// A vertex of no face, and one that is an end of a side that no other side of any face runs along,
/// is where it was.
pub proof fn smoothing_moves_no_rim<R: Fn(&Vec<Vec3>, &Rings, usize, bool) -> Vec3>(
    before: &Mesh,
    iters: u32,
    relax: R,
    after: &Mesh,
    v: int,
)
    requires
        before.wf(),
        is_smoothed(before, iters, relax, after),
        0 <= v < before.vertices@.len(),
        corners_at(before.faces@, v as u32, 3 * before.faces@.len() as int) == 0 || exists|
            f: int,
            k: int,
            u: u32,
        | #[trigger]
            is_lone_side(before.faces@, f, k, u, v as u32),
    ensures
        after.vertices@[v] == before.vertices@[v],
        after.faces@ == before.faces@,
{
    if !(iters == 0 || before.vertices@.len() == 0 || before.faces@.len() == 0) {
        let all = 3 * before.faces@.len() as int;
        let (rings, stages) = choose|rings: Rings, stages: Seq<Vec<Vec3>>|
            {
                &&& #[trigger] is_smoothing(relax, &rings, stages)
                &&& is_rings_of(before.faces@, before.vertices@.len(), &rings)
                &&& stages.len() == 2 * iters + 1
                &&& stages[0]@ == before.vertices@
                &&& stages.last()@ == after.vertices@
            };
        the_boundary_has_lone_sides(before.faces@, v as u32);
        each_corner_lists_two_neighbours(before.faces@, v as u32, all);
        let r = rings.adj@.subrange(rings.offsets@[v] as int, rings.offsets@[v + 1] as int);
        assert(r == ring(before.faces@, v as u32, all));
        if corners_at(before.faces@, v as u32, all) == 0 {
            assert(r.len() == 0);
        } else {
            assert(rings.boundary@[v] == on_boundary(before.faces@, v as u32, all));
        }
        assert(is_pinned(&rings, v));
        pinned_vertices_stay(relax, &rings, stages, stages.len() - 1, v);
    }
}

/// A vertex that has a face and no side of its own alone goes through `2 * iters` steps: it shrinks
/// first and grows after, in turn, and each step starts from where the step before has left all
/// vertices.
pub proof fn smoothing_shrinks_then_grows<R: Fn(&Vec<Vec3>, &Rings, usize, bool) -> Vec3>(
    before: &Mesh,
    iters: u32,
    relax: R,
    after: &Mesh,
) -> (r: (Rings, Seq<Vec<Vec3>>))
    requires
        before.wf(),
        iters > 0,
        before.faces@.len() > 0,
        is_smoothed(before, iters, relax, after),
    ensures
        is_rings_of(before.faces@, before.vertices@.len(), &r.0),
        r.1.len() == 2 * iters + 1,
        r.1[0]@ == before.vertices@,
        r.1[2 * iters as int]@ == after.vertices@,
        forall|k: int, v: int|
            #![trigger r.1[k + 1]@[v]]
            0 <= k < 2 * iters && 0 <= v < before.vertices@.len() && corners_at(
                before.faces@,
                v as u32,
                3 * before.faces@.len() as int,
            ) > 0 && !on_boundary(before.faces@, v as u32, 3 * before.faces@.len() as int)
                ==> relax.ensures((&r.1[k], &r.0, v as usize, k % 2 != 0), r.1[k + 1]@[v]),
{
    assert(mesh::face_in(before.faces@[0], before.vertices@.len()));
    let all = 3 * before.faces@.len() as int;
    let (rings, stages) = choose|rings: Rings, stages: Seq<Vec<Vec3>>|
        {
            &&& #[trigger] is_smoothing(relax, &rings, stages)
            &&& is_rings_of(before.faces@, before.vertices@.len(), &rings)
            &&& stages.len() == 2 * iters + 1
            &&& stages[0]@ == before.vertices@
            &&& stages.last()@ == after.vertices@
        };
    assert forall|k: int, v: int|
        #![trigger stages[k + 1]@[v]]
        0 <= k < 2 * iters && 0 <= v < before.vertices@.len() && corners_at(
            before.faces@,
            v as u32,
            all,
        ) > 0 && !on_boundary(before.faces@, v as u32, all) implies relax.ensures(
        (&stages[k], &rings, v as usize, k % 2 != 0),
        stages[k + 1]@[v],
    ) by {
        each_corner_lists_two_neighbours(before.faces@, v as u32, all);
        let r = rings.adj@.subrange(rings.offsets@[v] as int, rings.offsets@[v + 1] as int);
        assert(r == ring(before.faces@, v as u32, all));
        assert(rings.boundary@[v] == on_boundary(before.faces@, v as u32, all));
        assert(!is_pinned(&rings, v));
        stage_len(relax, &rings, stages, k + 1);
        assert(is_step(relax, &rings, k % 2 == 1, stages[k], stages[k + 1]@));
    }
    (rings, stages)
}

} // verus!
