//! Mesh filters: drop marked vertices, drop small connected components.

use crate::float::{self, F32};
use crate::mesh::{self, Mesh, Vec3};
use vstd::prelude::*;

verus! {

/// How many of the first `n` entries of `keep` are set: the id that vertex `n`
/// gets if it is kept.
pub open spec fn rank(keep: Seq<bool>, n: int) -> nat
    decreases n,
{
    if n <= 0 {
        0
    } else if keep[n - 1] {
        rank(keep, n - 1) + 1
    } else {
        rank(keep, n - 1)
    }
}

/// All corners of `f` are kept.
pub open spec fn face_kept(f: [u32; 3], keep: Seq<bool>) -> bool {
    keep[f[0] as int] && keep[f[1] as int] && keep[f[2] as int]
}

/// The faces that have all their corners kept, in order.
pub open spec fn kept_faces(faces: Seq<[u32; 3]>, keep: Seq<bool>) -> Seq<[u32; 3]>
    decreases faces.len(),
{
    if faces.len() == 0 {
        Seq::empty()
    } else if face_kept(faces.last(), keep) {
        kept_faces(faces.drop_last(), keep).push(faces.last())
    } else {
        kept_faces(faces.drop_last(), keep)
    }
}

/// `g` is `f` with each corner replaced by its id among the kept vertices.
pub open spec fn renumbered(f: [u32; 3], g: [u32; 3], keep: Seq<bool>) -> bool {
    &&& g[0] == rank(keep, f[0] as int)
    &&& g[1] == rank(keep, f[1] as int)
    &&& g[2] == rank(keep, f[2] as int)
}

/// `out` holds the kept vertices of `mesh` in order, and its kept faces in order
/// with their corners renumbered.
pub open spec fn is_filtered(mesh: &Mesh, keep: Seq<bool>, out: &Mesh) -> bool {
    &&& out.vertices@.len() == rank(keep, keep.len() as int)
    &&& forall|i: int|
        #![trigger keep[i]]
        0 <= i < keep.len() && keep[i] ==> out.vertices@[rank(keep, i) as int] == mesh.vertices@[i]
    &&& out.faces@.len() == kept_faces(mesh.faces@, keep).len()
    &&& forall|i: int|
        0 <= i < out.faces@.len() ==> renumbered(
            kept_faces(mesh.faces@, keep)[i],
            #[trigger] out.faces@[i],
            keep,
        )
}

proof fn rank_bounds(keep: Seq<bool>, i: int, n: int)
    requires
        0 <= i <= n,
    ensures
        rank(keep, i) <= rank(keep, n) <= rank(keep, i) + (n - i),
        i < n && keep[i] ==> rank(keep, i) < rank(keep, n),
    decreases n - i,
{
    if i < n {
        rank_bounds(keep, i + 1, n);
    }
}

proof fn kept_faces_from(faces: Seq<[u32; 3]>, keep: Seq<bool>, i: int) -> (j: int)
    requires
        0 <= i < kept_faces(faces, keep).len(),
    ensures
        0 <= j < faces.len(),
        faces[j] == kept_faces(faces, keep)[i],
        face_kept(faces[j], keep),
    decreases faces.len(),
{
    if face_kept(faces.last(), keep) && i == kept_faces(faces, keep).len() - 1 {
        faces.len() - 1
    } else {
        kept_faces_from(faces.drop_last(), keep, i)
    }
}

proof fn kept_faces_take(faces: Seq<[u32; 3]>, keep: Seq<bool>, n: int)
    requires
        0 <= n < faces.len(),
    ensures
        kept_faces(faces.take(n + 1), keep) == (if face_kept(faces[n], keep) {
            kept_faces(faces.take(n), keep).push(faces[n])
        } else {
            kept_faces(faces.take(n), keep)
        }),
{
    assert(faces.take(n + 1).drop_last() == faces.take(n));
}

/// Filtering a mesh leaves a mesh: every face of the result indexes into the
/// vertices that stay.
pub proof fn filtered_mesh_is_well_formed(mesh: &Mesh, keep: Seq<bool>, out: &Mesh)
    requires
        mesh.wf(),
        keep.len() == mesh.vertices@.len(),
        is_filtered(mesh, keep, out),
    ensures
        out.wf(),
        out.vertices@.len() <= mesh.vertices@.len(),
{
    let n = keep.len() as int;
    rank_bounds(keep, 0, n);
    assert forall|i: int| 0 <= i < out.faces@.len() implies mesh::face_in(
        #[trigger] out.faces@[i],
        out.vertices@.len(),
    ) by {
        let j = kept_faces_from(mesh.faces@, keep, i);
        let f = mesh.faces@[j];
        assert(mesh::face_in(f, mesh.vertices@.len()));
        rank_bounds(keep, f[0] as int, n);
        rank_bounds(keep, f[1] as int, n);
        rank_bounds(keep, f[2] as int, n);
    }
}

/// Kept vertices stay distinct: two of them never get the same id.
pub proof fn kept_vertices_stay_distinct(keep: Seq<bool>, i: int, j: int)
    requires
        0 <= i < j < keep.len(),
        keep[i],
    ensures
        rank(keep, i) < rank(keep, j),
{
    rank_bounds(keep, i, j);
}

proof fn all_kept_rank(keep: Seq<bool>, n: int)
    requires
        0 <= n <= keep.len(),
        forall|i: int| 0 <= i < keep.len() ==> keep[i],
    ensures
        rank(keep, n) == n,
    decreases n,
{
    if n > 0 {
        all_kept_rank(keep, n - 1);
    }
}

proof fn all_kept_faces(faces: Seq<[u32; 3]>, keep: Seq<bool>)
    requires
        mesh::faces_in(faces, keep.len()),
        forall|i: int| 0 <= i < keep.len() ==> keep[i],
    ensures
        kept_faces(faces, keep) == faces,
    decreases faces.len(),
{
    if faces.len() > 0 {
        let head = faces.drop_last();
        assert forall|i: int| 0 <= i < head.len() implies mesh::face_in(#[trigger] head[i], keep.len()) by {
            assert(head[i] == faces[i]);
        }
        all_kept_faces(head, keep);
        assert(mesh::face_in(faces[faces.len() - 1], keep.len()));
        assert(head.push(faces.last()) == faces);
    }
}

proof fn renumbered_when_all_kept(f: [u32; 3], g: [u32; 3], keep: Seq<bool>)
    requires
        mesh::face_in(f, keep.len()),
        forall|i: int| 0 <= i < keep.len() ==> keep[i],
        renumbered(f, g, keep),
    ensures
        f == g,
{
    all_kept_rank(keep, f[0] as int);
    all_kept_rank(keep, f[1] as int);
    all_kept_rank(keep, f[2] as int);
    mesh::same_corners(f, g);
}

/// A mask that keeps every vertex changes nothing.
pub proof fn keeping_all_is_identity(mesh: &Mesh, keep: Seq<bool>, out: &Mesh)
    requires
        mesh.wf(),
        keep.len() == mesh.vertices@.len(),
        forall|i: int| 0 <= i < keep.len() ==> keep[i],
        is_filtered(mesh, keep, out),
    ensures
        out.vertices@ == mesh.vertices@,
        out.faces@ == mesh.faces@,
{
    all_kept_rank(keep, keep.len() as int);
    all_kept_faces(mesh.faces@, keep);
    assert forall|i: int| 0 <= i < keep.len() implies out.vertices@[i] == mesh.vertices@[i] by {
        all_kept_rank(keep, i);
        assert(keep[i]);
    }
    assert(out.vertices@ =~= mesh.vertices@);
    assert forall|i: int| 0 <= i < out.faces@.len() implies out.faces@[i] == mesh.faces@[i] by {
        renumbered_when_all_kept(mesh.faces@[i], out.faces@[i], keep);
    }
    assert(out.faces@ =~= mesh.faces@);
}

/// Apply a per-vertex keep mask: any face with a vertex that is `false` in
/// `keep` is dropped, and the surviving vertices are compacted with face indices
/// remapped.
pub fn filter_mesh_with_keep(mesh: &Mesh, keep: &[bool]) -> (out: Mesh)
    requires
        mesh.wf(),
        keep@.len() == mesh.vertices@.len(),
    ensures
        is_filtered(mesh, keep@, &out),
{
    let n: usize = mesh.vertices.len();
    let mut remap: Vec<u32> = Vec::new();
    let mut vertices: Vec<Vec3> = Vec::new();
    for i in 0..n
        invariant
            n == mesh.vertices@.len(),
            n == keep@.len(),
            n <= u32::MAX,
            remap@.len() == i,
            forall|j: int| 0 <= j < i && keep@[j] ==> #[trigger] remap@[j] == rank(keep@, j),
            vertices@.len() == rank(keep@, i as int),
            vertices@.len() <= i,
            forall|j: int|
                #![trigger keep@[j]]
                0 <= j < i && keep@[j] ==> rank(keep@, j) < vertices@.len() && vertices@[rank(
                    keep@,
                    j,
                ) as int] == mesh.vertices@[j],
    {
        if keep[i] {
            remap.push(vertices.len() as u32);
            vertices.push(mesh.vertices[i]);
        } else {
            remap.push(u32::MAX);
        }
    }
    let mut faces: Vec<[u32; 3]> = Vec::new();
    assert(mesh.faces@.take(0) == Seq::<[u32; 3]>::empty());
    for i in 0..mesh.faces.len()
        invariant
            mesh.wf(),
            keep@.len() == mesh.vertices@.len(),
            remap@.len() == keep@.len(),
            forall|j: int|
                0 <= j < keep@.len() && keep@[j] ==> #[trigger] remap@[j] == rank(keep@, j),
            faces@.len() == kept_faces(mesh.faces@.take(i as int), keep@).len(),
            forall|j: int|
                0 <= j < faces@.len() ==> renumbered(
                    kept_faces(mesh.faces@.take(i as int), keep@)[j],
                    #[trigger] faces@[j],
                    keep@,
                ),
    {
        let f = mesh.faces[i];
        assert(mesh::face_in(mesh.faces@[i as int], mesh.vertices@.len()));
        proof {
            kept_faces_take(mesh.faces@, keep@, i as int);
        }
        if keep[f[0] as usize] && keep[f[1] as usize] && keep[f[2] as usize] {
            faces.push([remap[f[0] as usize], remap[f[1] as usize], remap[f[2] as usize]]);
        }
    }
    assert(mesh.faces@.take(mesh.faces@.len() as int) == mesh.faces@);
    Mesh { vertices, faces }
}

/// `u` and `v` are corners of one face of `faces`.
pub open spec fn share_face(faces: Seq<[u32; 3]>, u: u32, v: u32) -> bool {
    exists|i: int|
        #![trigger faces[i]]
        0 <= i < faces.len() && is_corner(faces[i], u) && is_corner(faces[i], v)
}

pub open spec fn is_corner(f: [u32; 3], v: u32) -> bool {
    f[0] == v || f[1] == v || f[2] == v
}

/// Each vertex of `path` shares a face with the next.
pub open spec fn is_path(faces: Seq<[u32; 3]>, path: Seq<u32>) -> bool {
    forall|i: int|
        #![trigger path[i + 1]]
        0 <= i < path.len() - 1 ==> share_face(faces, path[i], path[i + 1])
}

/// `u` and `v` lie in one connected component.
pub open spec fn connected(faces: Seq<[u32; 3]>, u: u32, v: u32) -> bool {
    exists|path: Seq<u32>| #[trigger]
        is_path(faces, path) && path.len() > 0 && path[0] == u && path.last() == v
}

/// How many of the first `k` faces belong to the component of `v`.
pub open spec fn faces_around(faces: Seq<[u32; 3]>, v: u32, k: int) -> nat
    decreases k,
{
    if k <= 0 {
        0
    } else if connected(faces, faces[k - 1][0], v) {
        faces_around(faces, v, k - 1) + 1
    } else {
        faces_around(faces, v, k - 1)
    }
}

/// Size of the component of `v`, in faces.
pub open spec fn component_size(faces: Seq<[u32; 3]>, v: u32) -> nat {
    faces_around(faces, v, faces.len() as int)
}

/// Size of the largest component among the first `n` vertices.
pub open spec fn largest_component(faces: Seq<[u32; 3]>, n: int) -> nat
    decreases n,
{
    if n <= 0 {
        0
    } else {
        let rest = largest_component(faces, n - 1);
        let here = component_size(faces, (n - 1) as u32);
        if here > rest {
            here
        } else {
            rest
        }
    }
}

/// Face count of the largest component of `mesh`.
pub open spec fn largest_of(mesh: &Mesh) -> usize {
    largest_component(mesh.faces@, mesh.vertices@.len() as int) as usize
}

/// The vertices whose component has at least `threshold` faces.
pub open spec fn in_large_component(faces: Seq<[u32; 3]>, n: nat, threshold: int) -> Seq<bool> {
    Seq::new(n, |v: int| component_size(faces, v as u32) >= threshold)
}

proof fn connected_refl(faces: Seq<[u32; 3]>, u: u32)
    ensures
        connected(faces, u, u),
{
    let path = seq![u];
    assert(is_path(faces, path));
}

proof fn connected_sym(faces: Seq<[u32; 3]>, u: u32, v: u32)
    requires
        connected(faces, u, v),
    ensures
        connected(faces, v, u),
{
    let path = choose|path: Seq<u32>| #[trigger]
        is_path(faces, path) && path.len() > 0 && path[0] == u && path.last() == v;
    let back = path.reverse();
    assert forall|i: int|
        #![trigger back[i + 1]]
        0 <= i < back.len() - 1 implies share_face(faces, back[i], back[i + 1]) by {
        let j = path.len() - 2 - i;
        assert(path[j + 1] == back[i] && path[j] == back[i + 1]);
        assert(share_face(faces, path[j], path[j + 1]));
    }
    assert(is_path(faces, back));
}

proof fn connected_trans(faces: Seq<[u32; 3]>, u: u32, v: u32, w: u32)
    requires
        connected(faces, u, v),
        connected(faces, v, w),
    ensures
        connected(faces, u, w),
{
    let p = choose|path: Seq<u32>| #[trigger]
        is_path(faces, path) && path.len() > 0 && path[0] == u && path.last() == v;
    let q = choose|path: Seq<u32>| #[trigger]
        is_path(faces, path) && path.len() > 0 && path[0] == v && path.last() == w;
    let r = p + q.skip(1);
    assert forall|i: int|
        #![trigger r[i + 1]]
        0 <= i < r.len() - 1 implies share_face(faces, r[i], r[i + 1]) by {
        if i < p.len() - 1 {
            assert(share_face(faces, p[i], p[i + 1]));
        } else {
            let j = i - (p.len() - 1);
            assert(r[i] == q[j] && r[i + 1] == q[j + 1]);
            assert(share_face(faces, q[j], q[j + 1]));
        }
    }
    assert(is_path(faces, r));
    if q.len() == 1 {
        assert(r == p);
    } else {
        assert(r.last() == q.last());
    }
}

/// Corners of one face are connected.
proof fn corners_connected(faces: Seq<[u32; 3]>, i: int, u: u32, v: u32)
    requires
        0 <= i < faces.len(),
        is_corner(faces[i], u),
        is_corner(faces[i], v),
    ensures
        connected(faces, u, v),
{
    let path = seq![u, v];
    assert(share_face(faces, u, v));
    assert(is_path(faces, path));
}

/// More faces connect no less.
proof fn connected_grows(faces: Seq<[u32; 3]>, n: int, u: u32, v: u32)
    requires
        0 <= n < faces.len(),
        connected(faces.take(n), u, v),
    ensures
        connected(faces.take(n + 1), u, v),
{
    let few = faces.take(n);
    let more = faces.take(n + 1);
    let path = choose|path: Seq<u32>| #[trigger]
        is_path(few, path) && path.len() > 0 && path[0] == u && path.last() == v;
    assert forall|i: int|
        #![trigger path[i + 1]]
        0 <= i < path.len() - 1 implies share_face(more, path[i], path[i + 1]) by {
        assert(share_face(few, path[i], path[i + 1]));
        let k = choose|k: int|
            #![trigger few[k]]
            0 <= k < few.len() && is_corner(few[k], path[i]) && is_corner(few[k], path[i + 1]);
        assert(more[k] == few[k]);
    }
    assert(is_path(more, path));
}

/// Disjoint-set forest over vertex ids.
struct Forest {
    parent: Vec<u32>,
    /// The root of each vertex.
    root: Ghost<Seq<u32>>,
    /// Grows from every vertex to its parent.
    height: Ghost<Seq<nat>>,
    /// No height is above this.
    limit: Ghost<nat>,
}

impl Forest {
    spec fn wf(&self) -> bool {
        let n = self.parent@.len();
        &&& n <= u32::MAX
        &&& self.root@.len() == n
        &&& self.height@.len() == n
        &&& forall|x: int|
            #![trigger self.parent@[x]]
            0 <= x < n ==> {
                let p = self.parent@[x] as int;
                &&& p < n
                &&& self.root@[p] == self.root@[x]
                &&& self.parent@[x] == x || self.height@[p] > self.height@[x]
                &&& self.parent@[x] == x ==> self.root@[x] == x
                &&& self.height@[x] <= self.limit@
            }
        &&& forall|x: int|
            #![trigger self.root@[x]]
            0 <= x < n ==> self.root@[x] < n && self.parent@[self.root@[x] as int] == self.root@[x]
    }

    fn new(n: usize) -> (r: Forest)
        requires
            n <= u32::MAX,
        ensures
            r.wf(),
            r.parent@.len() == n,
            forall|x: int| 0 <= x < n ==> #[trigger] r.root@[x] == x,
    {
        let mut parent: Vec<u32> = Vec::new();
        for i in 0..n
            invariant
                n <= u32::MAX,
                parent@.len() == i,
                forall|x: int| 0 <= x < i ==> #[trigger] parent@[x] == x,
        {
            parent.push(i as u32);
        }
        let ghost root = parent@;
        let ghost height = Seq::new(n as nat, |x: int| 0nat);
        Forest { parent, root: Ghost(root), height: Ghost(height), limit: Ghost(0) }
    }

    /// The root of `x`; shortens the path on the way.
    fn find(&mut self, x: u32) -> (r: u32)
        requires
            old(self).wf(),
            x < old(self).parent@.len(),
        ensures
            final(self).wf(),
            final(self).root == old(self).root,
            final(self).parent@.len() == old(self).parent@.len(),
            r == old(self).root@[x as int],
            forall|y: int|
                0 <= y < final(self).parent@.len() && old(self).parent@[y] == y
                    ==> #[trigger] final(self).parent@[y] == y,
    {
        let mut x: u32 = x;
        let ghost x0 = x;
        while self.parent[x as usize] != x
            invariant
                self.wf(),
                self.root == old(self).root,
                self.limit == old(self).limit,
                self.parent@.len() == old(self).parent@.len(),
                x < self.parent@.len(),
                x0 < self.parent@.len(),
                self.root@[x as int] == self.root@[x0 as int],
                forall|y: int|
                    0 <= y < self.parent@.len() && old(self).parent@[y] == y
                        ==> #[trigger] self.parent@[y] == y,
            decreases self.limit@ - self.height@[x as int],
        {
            let p: u32 = self.parent[x as usize];
            let pp: u32 = self.parent[p as usize];
            assert(self.parent@[pp as int] < self.parent@.len());
            self.parent.set(x as usize, pp);
            x = pp;
        }
        x
    }

    /// Hang the root `b` under the root `a`.
    fn link(&mut self, a: u32, b: u32)
        requires
            old(self).wf(),
            a < old(self).parent@.len(),
            b < old(self).parent@.len(),
            old(self).parent@[a as int] == a,
            old(self).parent@[b as int] == b,
        ensures
            final(self).wf(),
            final(self).parent@.len() == old(self).parent@.len(),
            final(self).parent@[a as int] == a,
            forall|x: int|
                0 <= x < final(self).parent@.len() ==> #[trigger] final(self).root@[x] == (if old(
                    self,
                ).root@[x] == b {
                    a
                } else {
                    old(self).root@[x]
                }),
    {
        if a != b {
            proof {
                let tall: nat = if self.height@[a as int] > self.height@[b as int] {
                    self.height@[a as int]
                } else {
                    self.height@[b as int] + 1
                };
                let old_root = self.root@;
                self.height@ = self.height@.update(a as int, tall);
                self.limit@ = self.limit@ + 1;
                self.root@ = Seq::new(
                    self.parent@.len(),
                    |x: int|
                        if old_root[x] == b {
                            a
                        } else {
                            old_root[x]
                        },
                );
            }
            self.parent.set(b as usize, a);
        }
    }
}

/// The forest joins exactly the vertices that the faces connect.
spec fn joins(forest: &Forest, faces: Seq<[u32; 3]>) -> bool {
    forall|u: int, v: int|
        #![trigger forest.root@[u], forest.root@[v]]
        0 <= u < forest.root@.len() && 0 <= v < forest.root@.len() ==> (forest.root@[u]
            == forest.root@[v] <==> connected(faces, u as u32, v as u32))
}

/// A path through `faces` stays under one root if every face does.
proof fn path_keeps_root(faces: Seq<[u32; 3]>, root: Seq<u32>, path: Seq<u32>)
    requires
        root.len() <= u32::MAX,
        mesh::faces_in(faces, root.len()),
        path.len() > 0,
        path[0] < root.len(),
        is_path(faces, path),
        forall|i: int|
            #![trigger faces[i]]
            0 <= i < faces.len() ==> root[faces[i][0] as int] == root[faces[i][1] as int]
                && root[faces[i][0] as int] == root[faces[i][2] as int],
    ensures
        path.last() < root.len(),
        root[path.last() as int] == root[path[0] as int],
    decreases path.len(),
{
    if path.len() > 1 {
        let head = path.drop_last();
        assert forall|i: int|
            #![trigger head[i + 1]]
            0 <= i < head.len() - 1 implies share_face(faces, head[i], head[i + 1]) by {
            assert(share_face(faces, path[i], path[i + 1]));
        }
        path_keeps_root(faces, root, head);
        let k = path.len() - 2;
        assert(share_face(faces, path[k], path[k + 1]));
        let f = choose|f: int|
            #![trigger faces[f]]
            0 <= f < faces.len() && is_corner(faces[f], path[k]) && is_corner(
                faces[f],
                path[k + 1],
            );
        assert(mesh::face_in(faces[f], root.len()));
    }
}

/// Joining the corners of face `n` carries `joins` from `n` faces to `n + 1`.
proof fn joins_next(before: &Forest, after: &Forest, faces: Seq<[u32; 3]>, n: int)
    requires
        before.wf(),
        after.wf(),
        before.root@.len() == after.root@.len(),
        0 <= n < faces.len(),
        mesh::faces_in(faces, before.root@.len()),
        joins(before, faces.take(n)),
        ({
            let f = faces[n];
            let a = before.root@[f[0] as int];
            let b = before.root@[f[1] as int];
            let c = before.root@[f[2] as int];
            forall|x: int|
                0 <= x < after.root@.len() ==> #[trigger] after.root@[x] == (if before.root@[x] == b
                    || before.root@[x] == c {
                    a
                } else {
                    before.root@[x]
                })
        }),
    ensures
        joins(after, faces.take(n + 1)),
{
    let f = faces[n];
    let few = faces.take(n);
    let more = faces.take(n + 1);
    let len = before.root@.len();
    assert(mesh::face_in(f, len));
    assert(more[n] == f);
    assert(mesh::faces_in(more, len)) by {
        assert forall|i: int| 0 <= i < more.len() implies mesh::face_in(#[trigger] more[i], len) by {
            assert(mesh::face_in(faces[i], len));
        }
    }
    assert forall|i: int| #![trigger more[i]] 0 <= i < more.len() implies after.root@[more[i][0] as int]
        == after.root@[more[i][1] as int] && after.root@[more[i][0] as int]
        == after.root@[more[i][2] as int] by {
        assert(mesh::face_in(more[i], len));
        if i < n {
            assert(few[i] == more[i]);
            corners_connected(few, i, more[i][0], more[i][1]);
            corners_connected(few, i, more[i][0], more[i][2]);
            assert(before.root@[more[i][0] as int] == before.root@[more[i][1] as int]);
            assert(before.root@[more[i][0] as int] == before.root@[more[i][2] as int]);
        }
    }
    assert forall|u: int, v: int|
        #![trigger after.root@[u], after.root@[v]]
        0 <= u < len && 0 <= v < len implies (after.root@[u] == after.root@[v] <==> connected(
        more,
        u as u32,
        v as u32,
    )) by {
        if connected(more, u as u32, v as u32) {
            let path = choose|path: Seq<u32>| #[trigger]
                is_path(more, path) && path.len() > 0 && path[0] == u as u32 && path.last()
                    == v as u32;
            path_keeps_root(more, after.root@, path);
        }
        if after.root@[u] == after.root@[v] {
            assert forall|x: int|
                #![trigger before.root@[x]]
                0 <= x < len && (before.root@[x] == before.root@[f[0] as int] || before.root@[x]
                    == before.root@[f[1] as int] || before.root@[x]
                    == before.root@[f[2] as int]) implies connected(
                more,
                x as u32,
                f[0],
            ) by {
                let j: int = if before.root@[x] == before.root@[f[0] as int] {
                    0
                } else if before.root@[x] == before.root@[f[1] as int] {
                    1
                } else {
                    2
                };
                assert(before.root@[x] == before.root@[f[j] as int]);
                assert(connected(few, x as u32, f[j]));
                connected_grows(faces, n, x as u32, f[j]);
                corners_connected(more, n, f[j], f[0]);
                connected_trans(more, x as u32, f[j], f[0]);
            }
            if before.root@[u] == before.root@[v] {
                assert(connected(few, u as u32, v as u32));
                connected_grows(faces, n, u as u32, v as u32);
            } else {
                assert(connected(more, u as u32, f[0]));
                assert(connected(more, v as u32, f[0]));
                connected_sym(more, v as u32, f[0]);
                connected_trans(more, u as u32, f[0], v as u32);
            }
        }
    }
}

proof fn without_faces_nothing_is_connected(u: u32, v: u32)
    requires
        connected(Seq::<[u32; 3]>::empty(), u, v),
    ensures
        u == v,
{
    let none = Seq::<[u32; 3]>::empty();
    let path = choose|path: Seq<u32>| #[trigger]
        is_path(none, path) && path.len() > 0 && path[0] == u && path.last() == v;
    if path.len() > 1 {
        assert(share_face(none, path[0], path[0int + 1]));
    }
}

/// Vertices of one component see the same faces.
proof fn component_size_agrees(faces: Seq<[u32; 3]>, u: u32, v: u32, k: int)
    requires
        connected(faces, u, v),
    ensures
        faces_around(faces, u, k) == faces_around(faces, v, k),
    decreases k,
{
    if k > 0 {
        component_size_agrees(faces, u, v, k - 1);
        let w = faces[k - 1][0];
        if connected(faces, w, u) {
            connected_trans(faces, w, u, v);
        }
        if connected(faces, w, v) {
            connected_sym(faces, u, v);
            connected_trans(faces, w, v, u);
        }
    }
}

proof fn faces_around_bound(faces: Seq<[u32; 3]>, v: u32, k: int)
    requires
        0 <= k,
    ensures
        faces_around(faces, v, k) <= k,
    decreases k,
{
    if k > 0 {
        faces_around_bound(faces, v, k - 1);
    }
}

/// `largest_component` is the size of a component and no component is larger.
pub proof fn largest_component_is_maximal(faces: Seq<[u32; 3]>, n: int)
    requires
        0 < n <= u32::MAX,
    ensures
        forall|v: u32| v < n ==> #[trigger] component_size(faces, v) <= largest_component(faces, n),
        exists|v: u32| v < n && #[trigger] component_size(faces, v) == largest_component(faces, n),
    decreases n,
{
    let last = (n - 1) as u32;
    if n > 1 {
        largest_component_is_maximal(faces, n - 1);
    }
    assert(largest_component(faces, 0) == 0);
    assert(component_size(faces, last) <= largest_component(faces, n));
    if n > 1 && component_size(faces, last) <= largest_component(faces, n - 1) {
        let v = choose|v: u32|
            v < n - 1 && #[trigger] component_size(faces, v) == largest_component(faces, n - 1);
        assert(component_size(faces, v) == largest_component(faces, n));
    }
    assert forall|v: u32| v < n implies #[trigger] component_size(faces, v) <= largest_component(
        faces,
        n,
    ) by {
        if v < n - 1 {
            assert(component_size(faces, v) <= largest_component(faces, n - 1));
        }
    }
}

/// A component is kept or dropped as a whole.
pub proof fn components_stay_whole(faces: Seq<[u32; 3]>, n: nat, threshold: int, u: u32, v: u32)
    requires
        u < n,
        v < n,
        connected(faces, u, v),
    ensures
        in_large_component(faces, n, threshold)[u as int] == in_large_component(
            faces,
            n,
            threshold,
        )[v as int],
{
    component_size_agrees(faces, u, v, faces.len() as int);
}

/// Some bound asks for components to be dropped.
pub open spec fn drops_any(min_faces: usize, min_frac: F32) -> bool {
    min_faces > 1 || !min_frac.spec_le(float::zero())
}

/// `out` is `mesh` without the components that have fewer than `min_faces` faces or less than
/// the fraction `min_frac` of the largest one. Where neither bound asks for anything, or
/// there are no faces, it is `mesh` itself.
pub open spec fn drops_small<S: Fn(usize, F32) -> usize>(
    mesh: &Mesh,
    min_faces: usize,
    min_frac: F32,
    share: S,
    out: &Mesh,
) -> bool {
    if !drops_any(min_faces, min_frac) || mesh.faces@.len() == 0 {
        out.vertices@ == mesh.vertices@ && out.faces@ == mesh.faces@
    } else {
        exists|scaled: usize| #[trigger]
            share.ensures((largest_of(mesh), min_frac), scaled) && is_filtered(
                mesh,
                in_large_component(
                    mesh.faces@,
                    mesh.vertices@.len(),
                    if scaled > min_faces {
                        scaled as int
                    } else {
                        min_faces as int
                    },
                ),
                out,
            )
    }
}

proof fn kept_faces_bound(faces: Seq<[u32; 3]>, keep: Seq<bool>)
    ensures
        kept_faces(faces, keep).len() <= faces.len(),
    decreases faces.len(),
{
    if faces.len() > 0 {
        kept_faces_bound(faces.drop_last(), keep);
    }
}

/// A filtered mesh has no more faces than it had.
pub proof fn filtering_adds_no_face(mesh: &Mesh, keep: Seq<bool>, out: &Mesh)
    requires
        is_filtered(mesh, keep, out),
    ensures
        out.faces@.len() <= mesh.faces@.len(),
{
    kept_faces_bound(mesh.faces@, keep);
}

/// Dropping small components keeps a mesh well formed.
pub proof fn dropping_small_keeps_wf<S: Fn(usize, F32) -> usize>(
    mesh: &Mesh,
    min_faces: usize,
    min_frac: F32,
    share: S,
    out: &Mesh,
)
    requires
        mesh.wf(),
        drops_small(mesh, min_faces, min_frac, share, out),
    ensures
        out.wf(),
        out.faces@.len() <= mesh.faces@.len(),
{
    if drops_any(min_faces, min_frac) && mesh.faces@.len() > 0 {
        let scaled = choose|scaled: usize| #[trigger]
            share.ensures((largest_of(mesh), min_frac), scaled) && is_filtered(
                mesh,
                in_large_component(
                    mesh.faces@,
                    mesh.vertices@.len(),
                    if scaled > min_faces {
                        scaled as int
                    } else {
                        min_faces as int
                    },
                ),
                out,
            );
        let keep = in_large_component(
            mesh.faces@,
            mesh.vertices@.len(),
            if scaled > min_faces {
                scaled as int
            } else {
                min_faces as int
            },
        );
        filtered_mesh_is_well_formed(mesh, keep, out);
        filtering_adds_no_face(mesh, keep, out);
    }
}

/// Drop connected components below `max(min_faces, share(largest, min_frac))`
/// faces, where `largest` is the face count of the largest component and `share`
/// scales it by the fraction, rounding down.
pub fn filter_small_components<S: Fn(usize, F32) -> usize>(
    mesh: &Mesh,
    min_faces: usize,
    min_frac: F32,
    share: S,
) -> (out: Mesh)
    requires
        mesh.wf(),
        drops_any(min_faces, min_frac) ==> mesh.faces@.len() <= u32::MAX,
        forall|largest: usize| #[trigger] share.requires((largest, min_frac)),
    ensures
        drops_small(mesh, min_faces, min_frac, share, &out),
{
    if (min_faces <= 1 && min_frac.le(F32 { bits: 0 })) || mesh.faces.len() == 0 {
        return mesh.duplicate();
    }
    let n: usize = mesh.vertices.len();
    let ghost faces = mesh.faces@;
    let mut forest = Forest::new(n);
    proof {
        assert(faces.take(0) == Seq::<[u32; 3]>::empty());
        assert forall|u: int, v: int|
            #![trigger forest.root@[u], forest.root@[v]]
            0 <= u < n && 0 <= v < n implies (forest.root@[u] == forest.root@[v] <==> connected(
            faces.take(0),
            u as u32,
            v as u32,
        )) by {
            if u == v {
                connected_refl(faces.take(0), u as u32);
            }
            if connected(faces.take(0), u as u32, v as u32) {
                without_faces_nothing_is_connected(u as u32, v as u32);
            }
        }
    }
    for i in 0..mesh.faces.len()
        invariant
            mesh.wf(),
            faces == mesh.faces@,
            n == mesh.vertices@.len(),
            forest.wf(),
            forest.parent@.len() == n,
            joins(&forest, faces.take(i as int)),
    {
        let f = mesh.faces[i];
        assert(mesh::face_in(faces[i as int], n as nat));
        let ghost before = forest;
        let a: u32 = forest.find(f[0]);
        let b: u32 = forest.find(f[1]);
        assert(forest.parent@[a as int] == a) by {
            assert(forest.root@[f[0] as int] == a);
        }
        assert(forest.parent@[b as int] == b) by {
            assert(forest.root@[f[1] as int] == b);
        }
        forest.link(a, b);
        let ghost middle = forest;
        let c: u32 = forest.find(f[2]);
        assert(forest.parent@[c as int] == c) by {
            assert(forest.root@[f[2] as int] == c);
        }
        forest.link(a, c);
        proof {
            assert forall|x: int| 0 <= x < forest.root@.len() implies #[trigger] forest.root@[x] == (
            if before.root@[x] == before.root@[f[1] as int] || before.root@[x]
                == before.root@[f[2] as int] {
                a
            } else {
                before.root@[x]
            }) by {
                assert(middle.root@[x] == (if before.root@[x] == b {
                    a
                } else {
                    before.root@[x]
                }));
                assert(middle.root@[f[2] as int] == c);
            }
            joins_next(&before, &forest, faces, i as int);
        }
    }
    assert(faces.take(faces.len() as int) == faces);

    let mut comp_faces: Vec<u32> = Vec::new();
    for i in 0..n
        invariant
            comp_faces@.len() == i,
            forall|x: int| 0 <= x < i ==> #[trigger] comp_faces@[x] == 0,
    {
        comp_faces.push(0);
    }
    for i in 0..mesh.faces.len()
        invariant
            mesh.wf(),
            faces == mesh.faces@,
            faces.len() <= u32::MAX,
            n == mesh.vertices@.len(),
            forest.wf(),
            forest.parent@.len() == n,
            joins(&forest, faces),
            comp_faces@.len() == n,
            forall|x: int|
                0 <= x < n && forest.root@[x] == x ==> #[trigger] comp_faces@[x] == faces_around(
                    faces,
                    x as u32,
                    i as int,
                ),
    {
        let f = mesh.faces[i];
        assert(mesh::face_in(faces[i as int], n as nat));
        let r: u32 = forest.find(f[0]);
        proof {
            faces_around_bound(faces, r, i as int);
            assert(forest.root@[f[0] as int] == r);
            assert(forest.parent@[r as int] == r);
            assert(forest.root@[r as int] == r);
            assert(connected(faces, f[0], r));
        }
        comp_faces.set(r as usize, comp_faces[r as usize] + 1);
        proof {
            assert forall|x: int| 0 <= x < n && forest.root@[x] == x implies #[trigger] comp_faces@[x]
                == faces_around(faces, x as u32, i + 1) by {
                assert(forest.root@[f[0] as int] == forest.root@[x] <==> connected(
                    faces,
                    f[0],
                    x as u32,
                ));
            }
        }
    }

    let mut largest: u32 = 0;
    let mut sizes: Vec<u32> = Vec::new();
    for v in 0..n
        invariant
            n == mesh.vertices@.len(),
            n <= u32::MAX,
            faces == mesh.faces@,
            faces.len() <= u32::MAX,
            forest.wf(),
            forest.parent@.len() == n,
            joins(&forest, faces),
            comp_faces@.len() == n,
            forall|x: int|
                0 <= x < n && forest.root@[x] == x ==> #[trigger] comp_faces@[x] == component_size(
                    faces,
                    x as u32,
                ),
            sizes@.len() == v,
            forall|x: int|
                0 <= x < v ==> #[trigger] sizes@[x] == component_size(faces, x as u32),
            largest == largest_component(faces, v as int),
    {
        let r: u32 = forest.find(v as u32);
        proof {
            assert(forest.root@[v as int] == r);
            assert(forest.parent@[r as int] == r);
            assert(forest.root@[r as int] == r);
            assert(connected(faces, v as u32, r));
            component_size_agrees(faces, v as u32, r, faces.len() as int);
        }
        let size: u32 = comp_faces[r as usize];
        sizes.push(size);
        if size > largest {
            largest = size;
        }
    }
    let scaled: usize = share(largest as usize, min_frac);
    let threshold: usize = if scaled > min_faces {
        scaled
    } else {
        min_faces
    };
    let mut keep: Vec<bool> = Vec::new();
    for v in 0..n
        invariant
            sizes@.len() == n,
            keep@.len() == v,
            forall|x: int| 0 <= x < v ==> #[trigger] keep@[x] == (sizes@[x] >= threshold),
    {
        keep.push(sizes[v] as usize >= threshold);
    }
    assert(keep@ =~= in_large_component(faces, n as nat, threshold as int));
    filter_mesh_with_keep(mesh, &keep)
}

/// The kept vertices below `n`, in order.
proof fn kept_below(keep: Seq<bool>, n: int) -> (src: Seq<int>)
    requires
        0 <= n <= keep.len(),
    ensures
        src.len() == rank(keep, n),
        forall|v: int| #![trigger src[v]] 0 <= v < src.len() ==> 0 <= src[v] < n && keep[src[v]]
            && rank(keep, src[v]) == v,
        forall|u: int, v: int| 0 <= u < v < src.len() ==> src[u] < src[v],
        forall|i: int| #![trigger keep[i]] 0 <= i < n && keep[i] ==> src.contains(i),
    decreases n,
{
    if n == 0 {
        Seq::empty()
    } else {
        let before = kept_below(keep, n - 1);
        if keep[n - 1] {
            let src = before.push(n - 1);
            assert forall|i: int| #![trigger keep[i]] 0 <= i < n && keep[i] implies src.contains(i) by {
                if i == n - 1 {
                    assert(src[before.len() as int] == i);
                } else {
                    let v = before.index_of(i);
                    assert(src[v] == i);
                }
            }
            assert forall|v: int| #![trigger src[v]] 0 <= v < before.len() implies src[v]
                == before[v] by {}
            src
        } else {
            before
        }
    }
}

/// The faces that stay, by their place among all faces.
proof fn faces_below(faces: Seq<[u32; 3]>, keep: Seq<bool>) -> (src: Seq<int>)
    ensures
        src.len() == kept_faces(faces, keep).len(),
        forall|f: int|
            #![trigger src[f]]
            0 <= f < src.len() ==> 0 <= src[f] < faces.len() && faces[src[f]] == kept_faces(
                faces,
                keep,
            )[f] && keep[faces[src[f]][0] as int] && keep[faces[src[f]][1] as int]
                && keep[faces[src[f]][2] as int],
        forall|e: int, f: int| 0 <= e < f < src.len() ==> src[e] < src[f],
        forall|f: int|
            #![trigger faces[f]]
            0 <= f < faces.len() && keep[faces[f][0] as int] && keep[faces[f][1] as int]
                && keep[faces[f][2] as int] ==> src.contains(f),
    decreases faces.len(),
{
    if faces.len() == 0 {
        Seq::empty()
    } else {
        let head = faces.drop_last();
        let n = faces.len() - 1;
        let before = faces_below(head, keep);
        assert forall|f: int| 0 <= f < n implies #[trigger] faces[f] == head[f] by {}
        if keep[faces[n][0] as int] && keep[faces[n][1] as int] && keep[faces[n][2] as int] {
            let src = before.push(n);
            assert forall|f: int|
                #![trigger faces[f]]
                0 <= f < faces.len() && keep[faces[f][0] as int] && keep[faces[f][1] as int]
                    && keep[faces[f][2] as int] implies src.contains(f) by {
                if f == n {
                    assert(src[before.len() as int] == f);
                } else {
                    assert(head[f] == faces[f]);
                    let e = before.index_of(f);
                    assert(src[e] == f);
                }
            }
            assert forall|f: int| #![trigger src[f]] 0 <= f < before.len() implies src[f]
                == before[f] by {}
            src
        } else {
            assert forall|f: int|
                #![trigger faces[f]]
                0 <= f < faces.len() && keep[faces[f][0] as int] && keep[faces[f][1] as int]
                    && keep[faces[f][2] as int] implies before.contains(f) by {
                assert(f != n);
                assert(head[f] == faces[f]);
            }
            before
        }
    }
}

/// Face `g` of `out` has its corners where face `f` of `mesh` has them, in the same places.
pub open spec fn stays_in_place(mesh: &Mesh, f: [u32; 3], out: &Mesh, g: [u32; 3]) -> bool {
    &&& g[0] < out.vertices@.len() && g[1] < out.vertices@.len() && g[2] < out.vertices@.len()
    &&& out.vertices@[g[0] as int] == mesh.vertices@[f[0] as int]
    &&& out.vertices@[g[1] as int] == mesh.vertices@[f[1] as int]
    &&& out.vertices@[g[2] as int] == mesh.vertices@[f[2] as int]
}

/// Filtering moves no corner. The vertices of the result are the kept ones in their order
/// (`vertices` tells which), its faces those that have all three corners kept, in their order
/// (`faces` tells which), and each corner of each face is where it was, in its place.
pub proof fn filtering_moves_no_corner(mesh: &Mesh, keep: Seq<bool>, out: &Mesh) -> (src: (
    Seq<int>,
    Seq<int>,
))
    requires
        mesh.wf(),
        keep.len() == mesh.vertices@.len(),
        is_filtered(mesh, keep, out),
    ensures
        ({
            let (vertices, faces) = src;
            &&& vertices.len() == out.vertices@.len()
            &&& faces.len() == out.faces@.len()
            &&& forall|v: int|
                #![trigger vertices[v]]
                0 <= v < vertices.len() ==> 0 <= vertices[v] < keep.len() && keep[vertices[v]]
                    && out.vertices@[v] == mesh.vertices@[vertices[v]]
            &&& forall|u: int, v: int| 0 <= u < v < vertices.len() ==> vertices[u] < vertices[v]
            &&& forall|i: int|
                #![trigger keep[i]]
                0 <= i < keep.len() && keep[i] ==> vertices.contains(i)
            &&& forall|e: int, f: int| 0 <= e < f < faces.len() ==> faces[e] < faces[f]
            &&& forall|f: int|
                #![trigger faces[f]]
                #![trigger out.faces@[f]]
                0 <= f < faces.len() ==> 0 <= faces[f] < mesh.faces@.len() && stays_in_place(
                    mesh,
                    mesh.faces@[faces[f]],
                    out,
                    out.faces@[f],
                ) && keep[mesh.faces@[faces[f]][0] as int] && keep[mesh.faces@[faces[f]][1] as int]
                    && keep[mesh.faces@[faces[f]][2] as int]
            &&& forall|f: int|
                #![trigger mesh.faces@[f]]
                0 <= f < mesh.faces@.len() && keep[mesh.faces@[f][0] as int]
                    && keep[mesh.faces@[f][1] as int] && keep[mesh.faces@[f][2] as int]
                    ==> faces.contains(f)
        }),
{
    let vertices = kept_below(keep, keep.len() as int);
    let faces = faces_below(mesh.faces@, keep);
    assert forall|v: int| #![trigger vertices[v]] 0 <= v < vertices.len() implies out.vertices@[v]
        == mesh.vertices@[vertices[v]] by {
        assert(keep[vertices[v]]);
    }
    assert forall|i: int| 0 <= i < keep.len() && #[trigger] keep[i] implies rank(keep, i)
        < vertices.len() && vertices[rank(keep, i) as int] == i by {
        let v = vertices.index_of(i);
        assert(rank(keep, vertices[v]) == v);
    }
    assert forall|f: int|
        #![trigger faces[f]]
        #![trigger out.faces@[f]]
        0 <= f < faces.len() implies 0 <= faces[f] < mesh.faces@.len() && stays_in_place(
        mesh,
        mesh.faces@[faces[f]],
        out,
        out.faces@[f],
    ) && keep[mesh.faces@[faces[f]][0] as int] && keep[mesh.faces@[faces[f]][1] as int]
        && keep[mesh.faces@[faces[f]][2] as int] by {
        let g = mesh.faces@[faces[f]];
        assert(0 <= faces[f] < mesh.faces@.len());
        assert(renumbered(kept_faces(mesh.faces@, keep)[f], out.faces@[f], keep));
        assert(mesh::face_in(g, mesh.vertices@.len()));
        assert(keep[g[0] as int] && keep[g[1] as int] && keep[g[2] as int]);
    }
    (vertices, faces)
}

/// The corners of a face are in one component.
pub proof fn faces_connect_their_corners(faces: Seq<[u32; 3]>, f: int, a: int, b: int)
    requires
        0 <= f < faces.len(),
        0 <= a < 3,
        0 <= b < 3,
    ensures
        connected(faces, faces[f][a], faces[f][b]),
{
    let path = seq![faces[f][a], faces[f][b]];
    assert(share_face(faces, path[0], path[0int + 1]));
    assert(is_path(faces, path));
}

/// A component goes no further than the faces do: a set of vertices that each face has all its
/// corners in, or none, holds with a vertex its component and nothing that is not connected.
pub proof fn components_stay_in_closed_sets(faces: Seq<[u32; 3]>, set: Set<u32>, u: u32, v: u32)
    requires
        forall|f: int|
            #![trigger faces[f]]
            0 <= f < faces.len() ==> set.contains(faces[f][0]) == set.contains(faces[f][1])
                && set.contains(faces[f][1]) == set.contains(faces[f][2]),
        connected(faces, u, v),
    ensures
        set.contains(u) == set.contains(v),
{
    let path = choose|path: Seq<u32>| #[trigger]
        is_path(faces, path) && path.len() > 0 && path[0] == u && path.last() == v;
    paths_stay_in_closed_sets(faces, set, path);
}

proof fn paths_stay_in_closed_sets(faces: Seq<[u32; 3]>, set: Set<u32>, path: Seq<u32>)
    requires
        forall|f: int|
            #![trigger faces[f]]
            0 <= f < faces.len() ==> set.contains(faces[f][0]) == set.contains(faces[f][1])
                && set.contains(faces[f][1]) == set.contains(faces[f][2]),
        is_path(faces, path),
        path.len() > 0,
    ensures
        set.contains(path[0]) == set.contains(path.last()),
    decreases path.len(),
{
    if path.len() > 1 {
        let head = path.drop_last();
        assert forall|i: int|
            #![trigger head[i + 1]]
            0 <= i < head.len() - 1 implies share_face(faces, head[i], head[i + 1]) by {
            assert(share_face(faces, path[i], path[i + 1]));
        }
        paths_stay_in_closed_sets(faces, set, head);
        let i = path.len() - 2;
        assert(share_face(faces, path[i], path[i + 1]));
        let f = choose|f: int|
            #![trigger faces[f]]
            0 <= f < faces.len() && is_corner(faces[f], path[i]) && is_corner(
                faces[f],
                path[i + 1],
            );
    }
}

/// The faces of a component.
pub open spec fn faces_with(faces: Seq<[u32; 3]>, v: u32, k: int) -> Set<int> {
    Set::new(|f: int| 0 <= f < k && connected(faces, faces[f][0], v))
}

proof fn faces_are_counted(faces: Seq<[u32; 3]>, v: u32, k: int)
    requires
        0 <= k <= faces.len(),
    ensures
        faces_with(faces, v, k).finite(),
        faces_with(faces, v, k).len() == faces_around(faces, v, k),
    decreases k,
{
    if k > 0 {
        faces_are_counted(faces, v, k - 1);
        let before = faces_with(faces, v, k - 1);
        if connected(faces, faces[k - 1][0], v) {
            assert(faces_with(faces, v, k) =~= before.insert(k - 1));
        } else {
            assert(faces_with(faces, v, k) =~= before);
        }
    } else {
        assert(faces_with(faces, v, k) =~= Set::empty());
    }
}

/// A face survives if and only if its component has as many faces as both bounds ask for: the
/// fixed one, and the share of the largest component. Where faces are dropped at all, the
/// share is asked of the largest component there is.
pub proof fn faces_of_large_components_survive<S: Fn(usize, F32) -> usize>(
    mesh: &Mesh,
    min_faces: usize,
    min_frac: F32,
    share: S,
    out: &Mesh,
) -> (r: (usize, usize, Seq<int>))
    requires
        mesh.wf(),
        mesh.faces@.len() <= usize::MAX,
        drops_small(mesh, min_faces, min_frac, share, out),
        min_faces > 1 || float::zero().spec_lt(min_frac) || min_frac.nan(),
        mesh.faces@.len() > 0,
    ensures
        ({
            let (largest, scaled, src) = r;
            &&& share.ensures((largest, min_frac), scaled)
            &&& forall|v: u32|
                v < mesh.vertices@.len() ==> (#[trigger] faces_with(
                    mesh.faces@,
                    v,
                    mesh.faces@.len() as int,
                )).len() <= largest
            &&& exists|v: u32|
                v < mesh.vertices@.len() && (#[trigger] faces_with(
                    mesh.faces@,
                    v,
                    mesh.faces@.len() as int,
                )).len() == largest
            &&& src.len() == out.faces@.len()
            &&& forall|e: int, f: int| 0 <= e < f < src.len() ==> src[e] < src[f]
            &&& forall|f: int|
                #![trigger src[f]]
                #![trigger out.faces@[f]]
                0 <= f < src.len() ==> 0 <= src[f] < mesh.faces@.len() && stays_in_place(
                    mesh,
                    mesh.faces@[src[f]],
                    out,
                    out.faces@[f],
                )
            &&& forall|f: int| 0 <= f < mesh.faces@.len() ==> {
                let size = faces_with(
                    mesh.faces@,
                    mesh.faces@[f][0],
                    mesh.faces@.len() as int,
                ).len();
                #[trigger] src.contains(f) <==> size >= min_faces && size >= scaled
            }
        }),
{
    let all = mesh.faces@;
    let m = all.len() as int;
    let n = mesh.vertices@.len();
    assert(drops_any(min_faces, min_frac));
    let scaled = choose|scaled: usize| #[trigger]
        share.ensures((largest_of(mesh), min_frac), scaled) && is_filtered(
            mesh,
            in_large_component(
                all,
                n,
                if scaled > min_faces {
                    scaled as int
                } else {
                    min_faces as int
                },
            ),
            out,
        );
    let threshold: int = if scaled > min_faces {
        scaled as int
    } else {
        min_faces as int
    };
    let keep = in_large_component(all, n, threshold);
    let (vertices, src) = filtering_moves_no_corner(mesh, keep, out);
    assert forall|v: u32| faces_with(all, v, m).len() == component_size(all, v) by {
        faces_are_counted(all, v, m);
    }
    assert(mesh::face_in(all[0], n));
    largest_component_is_maximal(all, n as int);
    let best = choose|v: u32| v < n && #[trigger] component_size(all, v) == largest_component(
        all,
        n as int,
    );
    faces_are_counted(all, best, m);
    faces_around_bound(all, best, m);
    assert(faces_with(all, best, m).len() == largest_of(mesh));
    assert forall|v: u32| v < n implies (#[trigger] faces_with(all, v, m)).len() <= largest_of(
        mesh,
    ) by {
        faces_are_counted(all, v, m);
        assert(component_size(all, v) <= largest_component(all, n as int));
    }
    assert forall|f: int| 0 <= f < m implies ({
        let size = faces_with(all, all[f][0], m).len();
        #[trigger] src.contains(f) <==> size >= min_faces && size >= scaled
    }) by {
        assert(mesh::face_in(all[f], n));
        faces_connect_their_corners(all, f, 0, 1);
        faces_connect_their_corners(all, f, 0, 2);
        components_stay_whole(all, n, threshold, all[f][0], all[f][1]);
        components_stay_whole(all, n, threshold, all[f][0], all[f][2]);
        let size = faces_with(all, all[f][0], m).len();
        assert(size == component_size(all, all[f][0]));
        assert(keep[all[f][0] as int] == (size >= threshold));
        if src.contains(f) {
            let e = src.index_of(f);
            assert(keep[all[src[e]][0] as int]);
        }
    }
    (largest_of(mesh), scaled, src)
}

/// Where whole components are kept, what was connected stays connected.
proof fn connections_survive(
    mesh: &Mesh,
    threshold: int,
    out: &Mesh,
    src: Seq<int>,
    u: u32,
    v: u32,
)
    requires
        mesh.wf(),
        is_filtered(
            mesh,
            in_large_component(mesh.faces@, mesh.vertices@.len(), threshold),
            out,
        ),
        src.len() == out.faces@.len(),
        forall|f: int|
            #![trigger src[f]]
            0 <= f < src.len() ==> 0 <= src[f] < mesh.faces@.len() && renumbered(
                mesh.faces@[src[f]],
                out.faces@[f],
                in_large_component(mesh.faces@, mesh.vertices@.len(), threshold),
            ),
        forall|f: int|
            #![trigger mesh.faces@[f]]
            0 <= f < mesh.faces@.len() && face_kept(
                mesh.faces@[f],
                in_large_component(mesh.faces@, mesh.vertices@.len(), threshold),
            ) ==> src.contains(f),
        u < mesh.vertices@.len(),
        in_large_component(mesh.faces@, mesh.vertices@.len(), threshold)[u as int],
        connected(mesh.faces@, u, v),
    ensures
        ({
            let keep = in_large_component(mesh.faces@, mesh.vertices@.len(), threshold);
            connected(out.faces@, rank(keep, u as int) as u32, rank(keep, v as int) as u32)
        }),
{
    let all = mesh.faces@;
    let n = mesh.vertices@.len();
    let keep = in_large_component(all, n, threshold);
    let path = choose|path: Seq<u32>| #[trigger]
        is_path(all, path) && path.len() > 0 && path[0] == u && path.last() == v;
    let new = Seq::new(path.len(), |i: int| rank(keep, path[i] as int) as u32);
    assert forall|i: int| 0 <= i < path.len() implies #[trigger] path[i] < n && keep[path[i] as int]
        && connected(all, u, path[i]) by {
        let part = path.take(i + 1);
        assert forall|j: int| #![trigger part[j + 1]] 0 <= j < part.len() - 1 implies share_face(
            all,
            part[j],
            part[j + 1],
        ) by {
            assert(share_face(all, path[j], path[j + 1]));
        }
        assert(is_path(all, part) && part[0] == u && part.last() == path[i]);
        if i > 0 {
            assert(share_face(all, path[i - 1], path[(i - 1) + 1]));
            let f = choose|f: int|
                #![trigger all[f]]
                0 <= f < all.len() && is_corner(all[f], path[i - 1]) && is_corner(all[f], path[i]);
            assert(mesh::face_in(all[f], n));
        }
        components_stay_whole(all, n, threshold, u, path[i]);
    }
    assert forall|i: int| #![trigger new[i + 1]] 0 <= i < new.len() - 1 implies share_face(
        out.faces@,
        new[i],
        new[i + 1],
    ) by {
        let (a, b) = (path[i], path[i + 1]);
        assert(share_face(all, a, b));
        let f = choose|f: int|
            #![trigger all[f]]
            0 <= f < all.len() && is_corner(all[f], a) && is_corner(all[f], b);
        assert(mesh::face_in(all[f], n));
        corners_connected(all, f, a, all[f][0]);
        corners_connected(all, f, a, all[f][1]);
        corners_connected(all, f, a, all[f][2]);
        components_stay_whole(all, n, threshold, a, all[f][0]);
        components_stay_whole(all, n, threshold, a, all[f][1]);
        components_stay_whole(all, n, threshold, a, all[f][2]);
        assert(face_kept(all[f], keep));
        let e = src.index_of(f);
        assert(src[e] == f);
        let g = out.faces@[e];
        assert(is_corner(g, new[i]) && is_corner(g, new[i + 1]));
    }
    assert(is_path(out.faces@, new));
    assert(new[0] == rank(keep, u as int) as u32 && new.last() == rank(keep, v as int) as u32);
}

/// No component of the result has fewer faces than the bound: each face is connected to at least so
/// many.
pub proof fn no_small_component_is_left<S: Fn(usize, F32) -> usize>(
    mesh: &Mesh,
    min_faces: usize,
    min_frac: F32,
    share: S,
    out: &Mesh,
    g: int,
)
    requires
        mesh.wf(),
        drops_small(mesh, min_faces, min_frac, share, out),
        min_faces > 1,
        0 <= g < out.faces@.len(),
    ensures
        faces_with(out.faces@, out.faces@[g][0], out.faces@.len() as int).finite(),
        faces_with(out.faces@, out.faces@[g][0], out.faces@.len() as int).len() >= min_faces,
{
    let all = mesh.faces@;
    let (m, k) = (all.len() as int, out.faces@.len() as int);
    let n = mesh.vertices@.len();
    if m > 0 {
        let scaled = choose|scaled: usize| #[trigger]
            share.ensures((largest_of(mesh), min_frac), scaled) && is_filtered(
                mesh,
                in_large_component(
                    all,
                    n,
                    if scaled > min_faces {
                        scaled as int
                    } else {
                        min_faces as int
                    },
                ),
                out,
            );
        let threshold: int = if scaled > min_faces {
            scaled as int
        } else {
            min_faces as int
        };
        let keep = in_large_component(all, n, threshold);
        let src = faces_below(all, keep);
        assert forall|f: int| #![trigger src[f]] 0 <= f < src.len() implies renumbered(
            all[src[f]],
            out.faces@[f],
            keep,
        ) by {
            assert(renumbered(kept_faces(all, keep)[f], out.faces@[f], keep));
        }
        let v = all[src[g]][0];
        assert(mesh::face_in(all[src[g]], n));
        let w = out.faces@[g][0];
        assert(renumbered(all[src[g]], out.faces@[g], keep));
        assert(w == rank(keep, v as int));
        let (a, b) = (faces_with(all, v, m), faces_with(out.faces@, w, k));
        faces_are_counted(all, v, m);
        faces_are_counted(out.faces@, w, k);
        let image = b.map(|e: int| src[e]);
        assert forall|f: int| a.contains(f) implies #[trigger] image.contains(f) by {
            assert(mesh::face_in(all[f], n));
            let u = all[f][0];
            connected_sym(all, u, v);
            components_stay_whole(all, n, threshold, v, u);
            faces_connect_their_corners(all, f, 0, 1);
            faces_connect_their_corners(all, f, 0, 2);
            components_stay_whole(all, n, threshold, u, all[f][1]);
            components_stay_whole(all, n, threshold, u, all[f][2]);
            assert(src.contains(f));
            let e = src.index_of(f);
            assert(src[e] == f);
            connections_survive(mesh, threshold, out, src, u, v);
            assert(renumbered(all[src[e]], out.faces@[e], keep));
            assert(b.contains(e));
        }
        vstd::set_lib::lemma_map_size_bound(b, image, |e: int| src[e]);
        vstd::set_lib::lemma_len_subset(a, image);
        assert(component_size(all, v) >= threshold);
    }
}

} // verus!
