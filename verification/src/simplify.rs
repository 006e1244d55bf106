//! Mesh simplification: what is handed to the edge-collapse simplifier and what is made of
//! its result.
//!
//! The simplifier itself is the caller's: it gets the corner indices and how many to aim
//! for, and returns the corner indices that are left.

use crate::float::F32;
use crate::fx;
use crate::gltf;
use crate::mesh::{self, Mesh, Vec3};
use crate::seqs;
use rustc_hash::FxHashMap;
use vstd::prelude::*;

verus! {

/// The corners of whole triangles; up to two indices at the end are left over.
pub open spec fn whole_triangles(idx: Seq<u32>) -> Seq<u32> {
    idx.take(idx.len() as int / 3 * 3)
}

/// The vertices that the triangles use, in order of first use.
pub open spec fn used_vertices(idx: Seq<u32>) -> Seq<u32> {
    seqs::first_appearances(whole_triangles(idx))
}

/// `faces` are the triangles of `idx`, with each corner replaced by its place in `used`.
pub open spec fn is_renumbered(idx: Seq<u32>, used: Seq<u32>, faces: Seq<[u32; 3]>) -> bool {
    &&& faces.len() == idx.len() / 3
    &&& forall|f: int, k: int|
        #![trigger faces[f][k]]
        0 <= f < faces.len() && 0 <= k < 3 ==> faces[f][k] < used.len() && used[faces[f][k] as int]
            == idx[3 * f + k]
}

/// `out` has the triangles of `idx` and, in order of first use, the vertices they use.
pub open spec fn is_compacted(mesh: &Mesh, idx: Seq<u32>, out: &Mesh) -> bool {
    let used = used_vertices(idx);
    &&& out.vertices@ == used.map_values(|v: u32| mesh.vertices@[v as int])
    &&& is_renumbered(idx, used, out.faces@)
}

/// Every index is below `n`.
pub open spec fn indices_in(idx: Seq<u32>, n: nat) -> bool {
    forall|i: int| 0 <= i < idx.len() ==> #[trigger] idx[i] < n
}

/// Compaction leaves a mesh that uses every vertex it has.
pub proof fn compacted_mesh_is_tight(mesh: &Mesh, idx: Seq<u32>, out: &Mesh, v: int)
    requires
        is_compacted(mesh, idx, out),
        0 <= v < out.vertices@.len(),
    ensures
        exists|f: int, k: int|
            0 <= f < out.faces@.len() && 0 <= k < 3 && #[trigger] out.faces@[f][k] == v,
{
    let whole = whole_triangles(idx);
    let used = used_vertices(idx);
    seqs::first_appearances_same_elements(whole);
    assert(used.contains(used[v]));
    let i = whole.index_of(used[v]);
    let f = i / 3;
    let k = i % 3;
    assert(idx[3 * f + k] == used[v]);
    let j = out.faces@[f][k] as int;
    assert(used[j] == used[v]);
    assert(j == v);
}

/// Compaction leaves a well-formed mesh.
pub proof fn compacted_mesh_is_well_formed(mesh: &Mesh, idx: Seq<u32>, out: &Mesh)
    requires
        is_compacted(mesh, idx, out),
        idx.len() <= u32::MAX,
    ensures
        out.wf(),
{
    seqs::first_appearances_bound(whole_triangles(idx));
    assert forall|f: int| 0 <= f < out.faces@.len() implies mesh::face_in(
        #[trigger] out.faces@[f],
        out.vertices@.len(),
    ) by {
        assert(out.faces@[f][0] < out.vertices@.len());
        assert(out.faces@[f][1] < out.vertices@.len());
        assert(out.faces@[f][2] < out.vertices@.len());
    }
}

/// How the old ids map to the new ones while the triangles are gone through.
spec fn remap_ok(remap: Seq<u32>, used: Seq<u32>) -> bool {
    &&& forall|v: int|
        0 <= v < remap.len() ==> (#[trigger] remap[v] == u32::MAX <==> !used.contains(v as u32))
    &&& forall|v: int|
        0 <= v < remap.len() && #[trigger] remap[v] != u32::MAX ==> remap[v] < used.len()
            && used[remap[v] as int] == v
}

/// Keep the vertices that `idx` uses, in order of first use, and renumber its triangles.
/// Returns the list of kept vertices and the triangles.
pub fn renumber(n: usize, idx: &Vec<u32>) -> (r: (Vec<u32>, Vec<[u32; 3]>))
    requires
        n <= u32::MAX,
        indices_in(idx@, n as nat),
        idx@.len() < u32::MAX,
    ensures
        r.0@ == used_vertices(idx@),
        is_renumbered(idx@, r.0@, r.1@),
{
    let mut remap: Vec<u32> = Vec::new();
    for i in 0..n
        invariant
            remap@.len() == i,
            forall|v: int| 0 <= v < i ==> #[trigger] remap@[v] == u32::MAX,
    {
        remap.push(u32::MAX);
    }
    let tris: usize = idx.len() / 3;
    let mut used: Vec<u32> = Vec::new();
    let mut faces: Vec<[u32; 3]> = Vec::new();
    assert(idx@.take(0) =~= Seq::<u32>::empty());
    for f in 0..tris
        invariant
            n <= u32::MAX,
            remap@.len() == n,
            indices_in(idx@, n as nat),
            idx@.len() < u32::MAX,
            tris == idx.len() / 3,
            used@ == seqs::first_appearances(idx@.take(3 * f as int)),
            remap_ok(remap@, used@),
            faces@.len() == f,
            forall|g: int, k: int|
                #![trigger faces@[g][k]]
                0 <= g < f && 0 <= k < 3 ==> faces@[g][k] < used@.len() && used@[faces@[g][k] as int]
                    == idx@[3 * g + k],
    {
        let mut face: [u32; 3] = [0, 0, 0];
        for k in 0..3usize
            invariant
                n <= u32::MAX,
                remap@.len() == n,
                f < tris,
                indices_in(idx@, n as nat),
                idx@.len() < u32::MAX,
                tris == idx.len() / 3,
                used@ == seqs::first_appearances(idx@.take(3 * f + k)),
                remap_ok(remap@, used@),
                faces@.len() == f,
                forall|g: int, k: int|
                    #![trigger faces@[g][k]]
                    0 <= g < f && 0 <= k < 3 ==> faces@[g][k] < used@.len()
                        && used@[faces@[g][k] as int] == idx@[3 * g + k],
                forall|j: int|
                    0 <= j < k ==> #[trigger] face[j] < used@.len() && used@[face[j] as int]
                        == idx@[3 * f + j],
        {
            let old_id: u32 = idx[3 * f + k];
            let ghost before = used@;
            let ghost seen = idx@.take(3 * f + k);
            proof {
                assert(idx@.take(3 * f + k + 1) =~= seen.push(old_id));
                seqs::first_appearances_push(seen, old_id);
                seqs::first_appearances_bound(seen);
            }
            if remap[old_id as usize] == u32::MAX {
                assert(!used@.contains((old_id as int) as u32));
                remap.set(old_id as usize, used.len() as u32);
                used.push(old_id);
                proof {
                    assert forall|v: u32| #[trigger] used@.contains(v) <==> before.contains(v) || v
                        == old_id by {
                        if before.contains(v) {
                            let i = before.index_of(v);
                            assert(used@[i] == v);
                        }
                        if v == old_id {
                            assert(used@[before.len() as int] == v);
                        }
                    }
                }
            }
            face[k] = remap[old_id as usize];
        }
        faces.push(face);
    }
    (used, faces)
}

/// The mesh that has the triangles of `idx` and the vertices of `mesh` that they use.
pub fn compact(mesh: &Mesh, idx: &Vec<u32>) -> (out: Mesh)
    requires
        mesh.vertices@.len() <= u32::MAX,
        indices_in(idx@, mesh.vertices@.len()),
        idx@.len() < u32::MAX,
    ensures
        is_compacted(mesh, idx@, &out),
{
    let (used, faces) = renumber(mesh.vertices.len(), idx);
    let vertices = pick_vertices(&mesh.vertices, &used, idx);
    Mesh { vertices, faces }
}

fn pick_vertices(all: &Vec<Vec3>, used: &Vec<u32>, idx: &Vec<u32>) -> (out: Vec<Vec3>)
    requires
        indices_in(idx@, all@.len()),
        used@ == used_vertices(idx@),
    ensures
        out@ == used@.map_values(|v: u32| all@[v as int]),
{
    proof {
        used_in_range(idx@, all@.len());
    }
    let mut out: Vec<Vec3> = Vec::new();
    for i in 0..used.len()
        invariant
            indices_in(used@, all@.len()),
            out@ == used@.map_values(|v: u32| all@[v as int]).take(i as int),
    {
        out.push(all[used[i] as usize]);
        assert(out@ =~= used@.map_values(|v: u32| all@[v as int]).take(i + 1));
    }
    assert(out@ =~= used@.map_values(|v: u32| all@[v as int]));
    out
}

fn pick_uvs(all: &Vec<[F32; 2]>, used: &Vec<u32>, idx: &Vec<u32>) -> (out: Vec<[F32; 2]>)
    requires
        indices_in(idx@, all@.len()),
        used@ == used_vertices(idx@),
    ensures
        out@ == used@.map_values(|v: u32| all@[v as int]),
{
    proof {
        used_in_range(idx@, all@.len());
    }
    let mut out: Vec<[F32; 2]> = Vec::new();
    for i in 0..used.len()
        invariant
            indices_in(used@, all@.len()),
            out@ == used@.map_values(|v: u32| all@[v as int]).take(i as int),
    {
        out.push(all[used[i] as usize]);
        assert(out@ =~= used@.map_values(|v: u32| all@[v as int]).take(i + 1));
    }
    assert(out@ =~= used@.map_values(|v: u32| all@[v as int]));
    out
}

proof fn used_in_range(idx: Seq<u32>, n: nat)
    requires
        indices_in(idx, n),
    ensures
        indices_in(used_vertices(idx), n),
{
    let whole = whole_triangles(idx);
    let used = used_vertices(idx);
    seqs::first_appearances_same_elements(whole);
    assert forall|i: int| 0 <= i < used.len() implies #[trigger] used[i] < n by {
        assert(used.contains(used[i]));
        let j = whole.index_of(used[i]);
        assert(whole[j] == idx[j]);
    }
}

/// The corner indices of the faces, one after the other.
pub fn corner_indices(mesh: &Mesh) -> (idx: Vec<u32>)
    ensures
        idx@ == gltf::index_words(mesh.faces@),
{
    let ghost faces = mesh.faces@;
    let mut idx: Vec<u32> = Vec::new();
    for i in 0..mesh.faces.len()
        invariant
            faces == mesh.faces@,
            idx@ == gltf::index_words(faces.take(i as int)),
    {
        let f = mesh.faces[i];
        idx.push(f[0]);
        idx.push(f[1]);
        idx.push(f[2]);
        assert(idx@ =~= gltf::index_words(faces.take(i + 1)));
    }
    assert(faces.take(faces.len() as int) =~= faces);
    idx
}

/// The simplifier can be called, and returns indices of the mesh.
pub open spec fn collapses<C: Fn(Vec<u32>, usize) -> Vec<u32>>(collapse: C, n: nat) -> bool {
    &&& forall|idx: Vec<u32>, aim: usize| #[trigger] collapse.requires((idx, aim))
    &&& forall|idx: Vec<u32>, aim: usize, out: Vec<u32>| #[trigger]
        collapse.ensures((idx, aim), out) ==> indices_in(out@, n) && out@.len() < u32::MAX
}

/// Simplify to roughly `target_faces`: the simplifier is asked for that many faces, and the
/// vertices that it leaves unused are dropped.
pub fn simplify_mesh<C: Fn(Vec<u32>, usize) -> Vec<u32>>(
    mesh: &Mesh,
    target_faces: usize,
    collapse: C,
) -> (out: Mesh)
    requires
        mesh.wf(),
        3 * mesh.faces@.len() <= usize::MAX,
        collapses(collapse, mesh.vertices@.len()),
    ensures
        mesh.faces@.len() <= target_faces || mesh.faces@.len() == 0 ==> out.vertices@
            == mesh.vertices@ && out.faces@ == mesh.faces@,
        mesh.faces@.len() > target_faces ==> exists|idx: Vec<u32>, left: Vec<u32>|
            {
                &&& #[trigger] collapse.ensures((idx, (3 * target_faces) as usize), left)
                &&& idx@ == gltf::index_words(mesh.faces@)
                &&& is_compacted(mesh, left@, &out)
            },
{
    if mesh.faces.len() <= target_faces || mesh.faces.len() == 0 {
        return mesh.duplicate();
    }
    let idx = corner_indices(mesh);
    let ghost given = idx;
    let left = collapse(idx, 3 * target_faces);
    assert(collapse.ensures((given, (3 * target_faces) as usize), left));
    compact(mesh, &left)
}

/// Vertex `i` shares its position with another vertex.
pub open spec fn is_seam(vertices: Seq<Vec3>, i: int) -> bool {
    exists|j: int| 0 <= j < vertices.len() && j != i && #[trigger] vertices[j] == vertices[i]
}

/// How many of the first `n` vertices are at `p`.
pub open spec fn count_at(vertices: Seq<Vec3>, p: Vec3, n: int) -> nat
    decreases n,
{
    if n <= 0 {
        0
    } else {
        count_at(vertices, p, n - 1) + if vertices[n - 1] == p {
            1nat
        } else {
            0
        }
    }
}

proof fn count_at_bound(vertices: Seq<Vec3>, p: Vec3, n: int)
    requires
        0 <= n,
    ensures
        count_at(vertices, p, n) <= n,
    decreases n,
{
    if n > 0 {
        count_at_bound(vertices, p, n - 1);
    }
}

proof fn count_at_one(vertices: Seq<Vec3>, p: Vec3, n: int, i: int)
    requires
        0 <= i < n <= vertices.len(),
        vertices[i] == p,
    ensures
        count_at(vertices, p, n) >= 1,
        count_at(vertices, p, n) > 1 <==> exists|j: int|
            0 <= j < n && j != i && #[trigger] vertices[j] == p,
    decreases n,
{
    if i == n - 1 {
        count_at_some(vertices, p, n - 1);
        if count_at(vertices, p, n - 1) > 0 {
            let j = choose|j: int| 0 <= j < n - 1 && #[trigger] vertices[j] == p;
            assert(vertices[j] == p && j != i);
        }
    } else {
        count_at_one(vertices, p, n - 1, i);
        if vertices[n - 1] == p {
            assert(vertices[n - 1] == p && n - 1 != i);
        }
    }
}

proof fn count_at_some(vertices: Seq<Vec3>, p: Vec3, n: int)
    requires
        0 <= n <= vertices.len(),
    ensures
        count_at(vertices, p, n) > 0 <==> exists|j: int| 0 <= j < n && #[trigger] vertices[j] == p,
    decreases n,
{
    if n > 0 {
        count_at_some(vertices, p, n - 1);
        if vertices[n - 1] == p {
            assert(vertices[n - 1] == p);
        }
    }
}

/// Find the vertices whose position several vertices share: chart borders of an atlas.
pub fn seam_locks(vertices: &Vec<Vec3>) -> (locks: Vec<bool>)
    requires
        vertices@.len() <= u32::MAX,
    ensures
        locks@.len() == vertices@.len(),
        forall|i: int| 0 <= i < locks@.len() ==> #[trigger] locks@[i] == is_seam(vertices@, i),
{
    let mut counts: FxHashMap<(u32, u32, u32), u32> = FxHashMap::default();
    for i in 0..vertices.len()
        invariant
            vertices@.len() <= u32::MAX,
            forall|x: u32, y: u32, z: u32|
                #![trigger counts@.contains_key((x, y, z))]
                {
                    let p = Vec3 { x: F32 { bits: x }, y: F32 { bits: y }, z: F32 { bits: z } };
                    let c = count_at(vertices@, p, i as int);
                    counts@.contains_key((x, y, z)) <==> c > 0
                },
            forall|x: u32, y: u32, z: u32|
                #![trigger counts@[(x, y, z)]]
                counts@.contains_key((x, y, z)) ==> counts@[(x, y, z)] == count_at(
                    vertices@,
                    Vec3 { x: F32 { bits: x }, y: F32 { bits: y }, z: F32 { bits: z } },
                    i as int,
                ),
    {
        let v = vertices[i];
        let key = (v.x.bits, v.y.bits, v.z.bits);
        proof {
            count_at_bound(vertices@, v, i as int);
            assert(counts@.contains_key(key) ==> counts@[key] == count_at(vertices@, v, i as int));
        }
        let c: u32 = match fx::counts_get(&counts, key) {
            Some(c) => c,
            None => 0,
        };
        fx::counts_insert(&mut counts, key, c + 1);
    }
    let mut locks: Vec<bool> = Vec::new();
    for i in 0..vertices.len()
        invariant
            locks@.len() == i,
            forall|k: int| 0 <= k < i ==> #[trigger] locks@[k] == is_seam(vertices@, k),
            forall|x: u32, y: u32, z: u32|
                #![trigger counts@.contains_key((x, y, z))]
                {
                    let p = Vec3 { x: F32 { bits: x }, y: F32 { bits: y }, z: F32 { bits: z } };
                    let c = count_at(vertices@, p, vertices@.len() as int);
                    counts@.contains_key((x, y, z)) <==> c > 0
                },
            forall|x: u32, y: u32, z: u32|
                #![trigger counts@[(x, y, z)]]
                counts@.contains_key((x, y, z)) ==> counts@[(x, y, z)] == count_at(
                    vertices@,
                    Vec3 { x: F32 { bits: x }, y: F32 { bits: y }, z: F32 { bits: z } },
                    vertices@.len() as int,
                ),
    {
        let v = vertices[i];
        let key = (v.x.bits, v.y.bits, v.z.bits);
        proof {
            count_at_one(vertices@, v, vertices@.len() as int, i as int);
            assert(counts@.contains_key(key));
        }
        let c: u32 = match fx::counts_get(&counts, key) {
            Some(c) => c,
            None => 0,
        };
        locks.push(c > 1);
    }
    locks
}

/// The simplifier that keeps locked vertices can be called, and returns indices of the mesh.
pub open spec fn collapses_locked<C: Fn(Vec<u32>, Vec<bool>, usize) -> Vec<u32>>(
    collapse: C,
    n: nat,
) -> bool {
    &&& forall|idx: Vec<u32>, locks: Vec<bool>, aim: usize| #[trigger]
        collapse.requires((idx, locks, aim))
    &&& forall|idx: Vec<u32>, locks: Vec<bool>, aim: usize, out: Vec<u32>| #[trigger]
        collapse.ensures((idx, locks, aim), out) ==> indices_in(out@, n) && out@.len() < u32::MAX
}

/// `got` faces are close enough to `target`: at most a twentieth above it.
pub open spec fn close_enough(got: int, target: int) -> bool {
    got <= target + target / 20
}

/// What the simplifier is asked for in the second round, after it overshot with `got` faces.
pub open spec fn second_request(target: int, got: int) -> int {
    (target * target) / (if got > 1 {
        got
    } else {
        1
    })
}

/// `left` comes from asking the simplifier for `aim` faces of `mesh` with its seams locked.
pub open spec fn collapsed_to<C: Fn(Vec<u32>, Vec<bool>, usize) -> Vec<u32>>(
    mesh: &Mesh,
    collapse: C,
    aim: int,
    left: Vec<u32>,
) -> bool {
    exists|idx: Vec<u32>, locks: Vec<bool>|
        {
            &&& #[trigger] collapse.ensures((idx, locks, (3 * aim) as usize), left)
            &&& idx@ == gltf::index_words(mesh.faces@)
            &&& locks@.len() == mesh.vertices@.len()
            &&& forall|i: int|
                0 <= i < locks@.len() ==> #[trigger] locks@[i] == is_seam(mesh.vertices@, i)
        }
}

/// `left` is what the rounds of simplification end with: the first round if it comes close
/// enough to the target, else the second.
pub open spec fn settles_on<C: Fn(Vec<u32>, Vec<bool>, usize) -> Vec<u32>>(
    mesh: &Mesh,
    collapse: C,
    target: int,
    left: Vec<u32>,
) -> bool {
    ||| collapsed_to(mesh, collapse, target, left) && close_enough(left@.len() as int / 3, target)
    ||| exists|first: Vec<u32>|
        {
            &&& #[trigger] collapsed_to(mesh, collapse, target, first)
            &&& !close_enough(first@.len() as int / 3, target)
            &&& collapsed_to(
                mesh,
                collapse,
                second_request(target, first@.len() as int / 3),
                left,
            )
        }
}

/// Simplify a UV-atlased (seam-split) mesh to roughly `target_faces`. Seam vertices are
/// locked so that chart borders survive; that keeps the simplifier from reaching the
/// target, so if the first round overshoots, a second one asks for fewer in proportion.
pub fn simplify_mesh_with_uvs<C: Fn(Vec<u32>, Vec<bool>, usize) -> Vec<u32>>(
    mesh: &Mesh,
    uvs: &Vec<[F32; 2]>,
    target_faces: usize,
    collapse: C,
) -> (out: (Mesh, Vec<[F32; 2]>))
    requires
        mesh.wf(),
        3 * mesh.faces@.len() <= usize::MAX,
        uvs@.len() == mesh.vertices@.len(),
        collapses_locked(collapse, mesh.vertices@.len()),
    ensures
        mesh.faces@.len() <= target_faces || mesh.faces@.len() == 0 ==> out.0.vertices@
            == mesh.vertices@ && out.0.faces@ == mesh.faces@ && out.1@ == uvs@,
        mesh.faces@.len() > target_faces ==> exists|left: Vec<u32>|
            {
                &&& #[trigger] settles_on(mesh, collapse, target_faces as int, left)
                &&& is_compacted(mesh, left@, &out.0)
                &&& out.1@ == used_vertices(left@).map_values(|v: u32| uvs@[v as int])
            },
{
    if mesh.faces.len() <= target_faces || mesh.faces.len() == 0 {
        let mut same: Vec<[F32; 2]> = Vec::new();
        for i in 0..uvs.len()
            invariant
                same@ == uvs@.take(i as int),
        {
            same.push(uvs[i]);
        }
        assert(same@ =~= uvs@);
        return (mesh.duplicate(), same);
    }
    let idx = corner_indices(mesh);
    let locks = seam_locks(&mesh.vertices);
    let ghost given = idx;
    let ghost locked = locks;
    let mut left = collapse(idx, locks, 3 * target_faces);
    assert(collapse.ensures((given, locked, (3 * target_faces) as usize), left));
    assert(collapsed_to(mesh, collapse, target_faces as int, left));
    let got: usize = left.len() / 3;
    if got as u128 > target_faces as u128 + (target_faces / 20) as u128 {
        let ghost first = left;
        let most: u128 = if got > 1 {
            got as u128
        } else {
            1
        };
        proof {
            let t = target_faces as int;
            let m = most as int;
            assert(t * t <= 0xffff_ffff_ffff_ffff * 0xffff_ffff_ffff_ffff) by (nonlinear_arith)
                requires
                    0 <= t <= 0xffff_ffff_ffff_ffff,
            ;
            assert((t * t) / m <= t) by (nonlinear_arith)
                requires
                    0 <= t <= m,
                    0 < m,
            ;
            assert(0 <= (t * t) / m) by (nonlinear_arith)
                requires
                    0 <= t,
                    0 < m,
            ;
        }
        let request: usize = ((target_faces as u128 * target_faces as u128) / most) as usize;
        let idx = corner_indices(mesh);
        let locks = seam_locks(&mesh.vertices);
        let ghost given = idx;
        let ghost locked = locks;
        left = collapse(idx, locks, 3 * request);
        proof {
            assert(collapse.ensures((given, locked, (3 * request) as usize), left));
            assert(request == second_request(target_faces as int, first@.len() as int / 3));
            assert(collapsed_to(mesh, collapse, request as int, left));
            assert(collapsed_to(mesh, collapse, target_faces as int, first));
        }
    }
    assert(settles_on(mesh, collapse, target_faces as int, left));
    let (used, faces) = renumber(mesh.vertices.len(), &left);
    let vertices = pick_vertices(&mesh.vertices, &used, &left);
    let out_uvs = pick_uvs(uvs, &used, &left);
    (Mesh { vertices, faces }, out_uvs)
}

/// Compaction moves no corner: triangle `f` of the result has its corners where the vertices
/// `idx[3 * f]`, `idx[3 * f + 1]` and `idx[3 * f + 2]` of the mesh are.
pub proof fn compaction_moves_no_corner(mesh: &Mesh, idx: Seq<u32>, out: &Mesh, f: int, k: int)
    requires
        is_compacted(mesh, idx, out),
        0 <= f < out.faces@.len(),
        0 <= k < 3,
    ensures
        out.faces@.len() == idx.len() / 3,
        3 * f + k < idx.len(),
        out.faces@[f][k] < out.vertices@.len(),
        out.vertices@[out.faces@[f][k] as int] == mesh.vertices@[idx[3 * f + k] as int],
{
    let used = used_vertices(idx);
    assert(out.faces@[f][k] < used.len() && used[out.faces@[f][k] as int] == idx[3 * f + k]);
}

/// Corners of the triangles meet in the result where they met before, and nowhere else.
pub proof fn compaction_keeps_corners_apart(
    mesh: &Mesh,
    idx: Seq<u32>,
    out: &Mesh,
    f: int,
    k: int,
    g: int,
    l: int,
)
    requires
        is_compacted(mesh, idx, out),
        0 <= f < out.faces@.len(),
        0 <= g < out.faces@.len(),
        0 <= k < 3,
        0 <= l < 3,
    ensures
        out.faces@[f][k] == out.faces@[g][l] <==> idx[3 * f + k] == idx[3 * g + l],
{
    let used = used_vertices(idx);
    seqs::first_appearances_same_elements(whole_triangles(idx));
    assert(used[out.faces@[f][k] as int] == idx[3 * f + k]);
    assert(used[out.faces@[g][l] as int] == idx[3 * g + l]);
}

/// The texture coordinates follow the corners.
pub proof fn coordinates_follow_the_corners(
    mesh: &Mesh,
    idx: Seq<u32>,
    uvs: Seq<[F32; 2]>,
    out: &Mesh,
    out_uvs: Seq<[F32; 2]>,
    f: int,
    k: int,
)
    requires
        is_compacted(mesh, idx, out),
        out_uvs == used_vertices(idx).map_values(|v: u32| uvs[v as int]),
        0 <= f < out.faces@.len(),
        0 <= k < 3,
    ensures
        out_uvs.len() == out.vertices@.len(),
        out_uvs[out.faces@[f][k] as int] == uvs[idx[3 * f + k] as int],
{
    let used = used_vertices(idx);
    assert(out.faces@[f][k] < used.len() && used[out.faces@[f][k] as int] == idx[3 * f + k]);
}

/// A round is good enough if it is not more than a twentieth of the target above it.
pub proof fn a_twentieth_above_is_close_enough(got: int, target: int)
    requires
        0 <= target,
        0 <= got,
    ensures
        close_enough(got, target) <==> 20 * got <= 21 * target,
{
}

/// The second request is to the target as the target is to what the first round got, rounded
/// down.
pub proof fn the_second_request_is_in_proportion(target: int, got: int)
    requires
        0 <= target,
        0 < got,
    ensures
        second_request(target, got) * got <= target * target,
        target * target < (second_request(target, got) + 1) * got,
        second_request(target, got) >= 0,
        !close_enough(got, target) && target > 0 ==> second_request(target, got) < target,
{
    let q = second_request(target, got);
    let p = target * target;
    assert(p >= 0) by (nonlinear_arith)
        requires
            p == target * target,
    ;
    assert(q == p / got);
    vstd::arithmetic::div_mod::lemma_fundamental_div_mod(p, got);
    assert(q * got <= p && p < (q + 1) * got && q >= 0) by (nonlinear_arith)
        requires
            p == got * (p / got) + p % got,
            q == p / got,
            0 <= p % got < got,
            0 <= p,
            0 < got,
    ;
    if !close_enough(got, target) && target > 0 && q >= target {
        assert(q * got > p) by (nonlinear_arith)
            requires
                q >= target,
                got > target,
                target > 0,
                p == target * target,
        ;
    }
}

/// Another vertex is where vertex `i` is.
pub open spec fn has_twin(vertices: Seq<Vec3>, i: int) -> bool {
    exists|j: int| i != j && 0 <= j < vertices.len() && vertices[i] == #[trigger] vertices[j]
}

/// Whatever the rounds end with, the simplifier was given the corners of all faces in their order
/// and the vertices that have a twin as locked. It was asked for the target, and came within a
/// twentieth of it; or it had got more, and was asked for fewer in proportion.
pub proof fn rounds_lock_the_seams<C: Fn(Vec<u32>, Vec<bool>, usize) -> Vec<u32>>(
    mesh: &Mesh,
    collapse: C,
    target: int,
    left: Vec<u32>,
) -> (r: (int, int, Vec<u32>, Vec<bool>))
    requires
        settles_on(mesh, collapse, target, left),
        0 < target,
    ensures
        ({
            let (aim, got, idx, locks) = r;
            &&& collapse.ensures((idx, locks, (3 * aim) as usize), left)
            &&& idx@.len() == 3 * mesh.faces@.len()
            &&& forall|f: int|
                #![trigger mesh.faces@[f]]
                0 <= f < mesh.faces@.len() ==> idx@[3 * f] == mesh.faces@[f][0] && idx@[3 * f + 1]
                    == mesh.faces@[f][1] && idx@[3 * f + 2] == mesh.faces@[f][2]
            &&& locks@.len() == mesh.vertices@.len()
            &&& forall|i: int|
                0 <= i < locks@.len() ==> #[trigger] locks@[i] == has_twin(mesh.vertices@, i)
            &&& {
                ||| aim == target && 20 * (left@.len() / 3) <= 21 * target
                ||| 20 * got > 21 * target && aim * got <= target * target < (aim + 1) * got
            }
        }),
{
    let first = choose|first: Vec<u32>|
        {
            &&& #[trigger] collapsed_to(mesh, collapse, target, first)
            &&& !close_enough(first@.len() as int / 3, target)
            &&& collapsed_to(
                mesh,
                collapse,
                second_request(target, first@.len() as int / 3),
                left,
            )
        };
    let got = first@.len() as int / 3;
    let close = collapsed_to(mesh, collapse, target, left) && close_enough(
        left@.len() as int / 3,
        target,
    );
    let aim: int = if close {
        target
    } else {
        second_request(target, got)
    };
    if !close {
        the_second_request_is_in_proportion(target, got);
    }
    assert(collapsed_to(mesh, collapse, aim, left));
    let (idx, locks) = choose|idx: Vec<u32>, locks: Vec<bool>|
        {
            &&& #[trigger] collapse.ensures((idx, locks, (3 * aim) as usize), left)
            &&& idx@ == gltf::index_words(mesh.faces@)
            &&& locks@.len() == mesh.vertices@.len()
            &&& forall|i: int|
                0 <= i < locks@.len() ==> #[trigger] locks@[i] == is_seam(mesh.vertices@, i)
        };
    assert forall|i: int| 0 <= i < locks@.len() implies #[trigger] locks@[i] == has_twin(
        mesh.vertices@,
        i,
    ) by {
        let v = mesh.vertices@;
        if is_seam(v, i) {
            let j = choose|j: int| 0 <= j < v.len() && j != i && #[trigger] v[j] == v[i];
            assert(v[i] == v[j]);
        }
        if has_twin(v, i) {
            let j = choose|j: int| i != j && 0 <= j < v.len() && v[i] == #[trigger] v[j];
            assert(v[j] == v[i]);
        }
    }
    assert forall|f: int| #![trigger mesh.faces@[f]] 0 <= f < mesh.faces@.len() implies idx@[3 * f]
        == mesh.faces@[f][0] && idx@[3 * f + 1] == mesh.faces@[f][1] && idx@[3 * f + 2]
        == mesh.faces@[f][2] by {
        assert((3 * f) / 3 == f && (3 * f) % 3 == 0);
        assert((3 * f + 1) / 3 == f && (3 * f + 1) % 3 == 1);
        assert((3 * f + 2) / 3 == f && (3 * f + 2) % 3 == 2);
    }
    (aim, got, idx, locks)
}

} // verus!
