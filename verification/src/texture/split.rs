//! Splitting of the mesh along chart borders.
//!
//! Each chart gets its own copy of the vertices it uses, so that a vertex on a border can
//! have a UV in each of its charts.

use crate::fx;
use crate::mesh::{self, Mesh, Vec3};
use crate::seqs;
use rustc_hash::FxHashMap;
use vstd::prelude::*;

verus! {

/// Where a vertex of the split mesh comes from: corner `corner` of face `face` of chart
/// `chart`, counted within the chart.
#[derive(Clone, Copy, Debug)]
pub struct Source {
    pub chart: u32,
    pub face: u32,
    pub corner: u32,
}

/// The mesh split along chart borders.
pub struct SplitMesh {
    pub mesh: Mesh,
    /// For each vertex, the first corner that uses it.
    pub sources: Vec<Source>,
    /// For each face, the face that it comes from.
    pub face_src: Vec<u32>,
}

/// All faces of the charts, one chart after the other, each with its chart and its place in
/// the chart.
pub open spec fn chart_faces(charts: Seq<Vec<u32>>, n: int) -> Seq<(u32, u32, u32)>
    decreases n,
{
    if n <= 0 {
        Seq::empty()
    } else {
        chart_faces(charts, n - 1) + Seq::new(
            charts[n - 1]@.len(),
            |i: int| ((n - 1) as u32, i as u32, charts[n - 1]@[i]),
        )
    }
}

/// The chart and vertex of each corner of the listed faces.
pub open spec fn corner_keys(faces: Seq<[u32; 3]>, listed: Seq<(u32, u32, u32)>) -> Seq<(u32, u32)> {
    Seq::new(3 * listed.len(), |s: int| (listed[s / 3].0, faces[listed[s / 3].2 as int][s % 3]))
}

/// The vertices of the split mesh: each chart and vertex once, in order of first use.
pub open spec fn split_vertices(faces: Seq<[u32; 3]>, listed: Seq<(u32, u32, u32)>) -> Seq<(u32, u32)> {
    seqs::first_appearances(corner_keys(faces, listed))
}

/// `src` is the first of the listed corners that has the key `key`.
pub open spec fn is_first_use(
    faces: Seq<[u32; 3]>,
    listed: Seq<(u32, u32, u32)>,
    key: (u32, u32),
    src: Source,
) -> bool {
    exists|s: int|
        {
            &&& 0 <= s < 3 * listed.len()
            &&& #[trigger] corner_keys(faces, listed)[s] == key
            &&& src.chart == listed[s / 3].0
            &&& src.face == listed[s / 3].1
            &&& src.corner == s % 3
            &&& forall|t: int| 0 <= t < s ==> #[trigger] corner_keys(faces, listed)[t] != key
        }
}

/// `out` is `mesh` split along the borders of `charts`.
pub open spec fn is_split(mesh: &Mesh, charts: Seq<Vec<u32>>, out: &SplitMesh) -> bool {
    let listed = chart_faces(charts, charts.len() as int);
    let keys = corner_keys(mesh.faces@, listed);
    let verts = split_vertices(mesh.faces@, listed);
    &&& out.mesh.vertices@.len() == verts.len()
    &&& out.sources@.len() == verts.len()
    &&& forall|v: int|
        #![trigger out.mesh.vertices@[v]]
        0 <= v < verts.len() ==> out.mesh.vertices@[v] == mesh.vertices@[verts[v].1 as int]
    &&& forall|v: int|
        #![trigger out.sources@[v]]
        0 <= v < verts.len() ==> is_first_use(mesh.faces@, listed, verts[v], out.sources@[v])
    &&& out.mesh.faces@.len() == listed.len()
    &&& out.face_src@.len() == listed.len()
    &&& forall|f: int|
        0 <= f < listed.len() ==> #[trigger] out.face_src@[f] == listed[f].2
    &&& forall|f: int, k: int|
        #![trigger out.mesh.faces@[f][k]]
        0 <= f < listed.len() && 0 <= k < 3 ==> out.mesh.faces@[f][k] < verts.len()
            && verts[out.mesh.faces@[f][k] as int] == keys[3 * f + k]
}

/// Splitting moves no corner: every corner of the split mesh is where the corner of the face
/// that it comes from is.
pub proof fn splitting_moves_nothing(
    mesh: &Mesh,
    charts: Seq<Vec<u32>>,
    out: &SplitMesh,
    f: int,
    k: int,
)
    requires
        is_split(mesh, charts, out),
        0 <= f < out.mesh.faces@.len(),
        0 <= k < 3,
    ensures
        out.mesh.vertices@[out.mesh.faces@[f][k] as int]
            == mesh.vertices@[mesh.faces@[out.face_src@[f] as int][k] as int],
{
    let listed = chart_faces(charts, charts.len() as int);
    let v = out.mesh.faces@[f][k] as int;
    assert(out.mesh.vertices@[v] == mesh.vertices@[split_vertices(mesh.faces@, listed)[v].1 as int]);
    assert(out.face_src@[f] == listed[f].2);
    assert((3 * f + k) / 3 == f && (3 * f + k) % 3 == k);
}

/// Charts share no vertex of the split mesh.
pub proof fn charts_share_no_vertex(
    mesh: &Mesh,
    charts: Seq<Vec<u32>>,
    out: &SplitMesh,
    f: int,
    k: int,
    g: int,
    m: int,
)
    requires
        is_split(mesh, charts, out),
        0 <= f < out.mesh.faces@.len(),
        0 <= g < out.mesh.faces@.len(),
        0 <= k < 3,
        0 <= m < 3,
        out.mesh.faces@[f][k] == out.mesh.faces@[g][m],
    ensures
        chart_faces(charts, charts.len() as int)[f].0 == chart_faces(
            charts,
            charts.len() as int,
        )[g].0,
{
    assert((3 * f + k) / 3 == f && (3 * g + m) / 3 == g);
    let v = out.mesh.faces@[f][k];
}

/// The map knows the vertices made so far.
spec fn map_matches(m: Map<(u32, u32), u32>, verts: Seq<(u32, u32)>) -> bool {
    &&& forall|k: (u32, u32)| #[trigger]
        m.contains_key(k) ==> m[k] < verts.len() && verts[m[k] as int] == k
    &&& forall|v: int| 0 <= v < verts.len() ==> m.contains_key(#[trigger] verts[v])
}

/// The state after `n` listed faces and `k` corners of the next one.
spec fn splitting(
    mesh: &Mesh,
    listed: Seq<(u32, u32, u32)>,
    n: int,
    k: int,
    verts: Seq<(u32, u32)>,
    vertices: Seq<Vec3>,
    sources: Seq<Source>,
    faces: Seq<[u32; 3]>,
    face_src: Seq<u32>,
) -> bool {
    let keys = corner_keys(mesh.faces@, listed);
    &&& 0 <= 3 * n + k <= keys.len()
    &&& verts == seqs::first_appearances(keys.take(3 * n + k))
    &&& vertices.len() == verts.len()
    &&& sources.len() == verts.len()
    &&& forall|v: int|
        #![trigger vertices[v]]
        0 <= v < verts.len() ==> vertices[v] == mesh.vertices@[verts[v].1 as int]
    &&& forall|v: int|
        #![trigger sources[v]]
        0 <= v < verts.len() ==> is_first_use(mesh.faces@, listed, verts[v], sources[v])
    &&& faces.len() == n
    &&& face_src.len() == n
    &&& forall|f: int| 0 <= f < n ==> #[trigger] face_src[f] == listed[f].2
    &&& forall|f: int, j: int|
        #![trigger faces[f][j]]
        0 <= f < n && 0 <= j < 3 ==> faces[f][j] < verts.len() && verts[faces[f][j] as int]
            == keys[3 * f + j]
}

proof fn corner_taken(
    mesh: &Mesh,
    listed: Seq<(u32, u32, u32)>,
    n: int,
    k: int,
    verts: Seq<(u32, u32)>,
    key: (u32, u32),
)
    requires
        0 <= n < listed.len(),
        0 <= k < 3,
        verts == seqs::first_appearances(corner_keys(mesh.faces@, listed).take(3 * n + k)),
        key == corner_keys(mesh.faces@, listed)[3 * n + k],
    ensures
        seqs::first_appearances(corner_keys(mesh.faces@, listed).take(3 * n + k + 1)) == (
        if verts.contains(key) {
            verts
        } else {
            verts.push(key)
        }),
        !verts.contains(key) ==> is_first_use(
            mesh.faces@,
            listed,
            key,
            Source { chart: listed[n].0, face: listed[n].1, corner: k as u32 },
        ),
{
    let keys = corner_keys(mesh.faces@, listed);
    let s = 3 * n + k;
    assert(keys.take(s + 1) =~= keys.take(s).push(key));
    seqs::first_appearances_push(keys.take(s), key);
    seqs::first_appearances_same_elements(keys.take(s));
    if !verts.contains(key) {
        assert(s / 3 == n && s % 3 == k);
        assert forall|t: int| 0 <= t < s implies #[trigger] keys[t] != key by {
            if keys[t] == key {
                assert(keys.take(s)[t] == key);
                assert(keys.take(s).contains(key));
            }
        }
        assert(keys[s] == key);
    }
}

/// Split `mesh` along the borders of `charts`.
pub fn split_mesh(mesh: &Mesh, charts: &Vec<Vec<u32>>) -> (out: SplitMesh)
    requires
        mesh.wf(),
        charts@.len() <= u32::MAX,
        forall|c: int| 0 <= c < charts@.len() ==> (#[trigger] charts@[c])@.len() <= u32::MAX,
        forall|c: int, i: int|
            #![trigger charts@[c]@[i]]
            0 <= c < charts@.len() && 0 <= i < charts@[c]@.len() ==> charts@[c]@[i]
                < mesh.faces@.len(),
        3 * chart_faces(charts@, charts@.len() as int).len() <= u32::MAX,
    ensures
        is_split(mesh, charts@, &out),
{
    let ghost listed = chart_faces(charts@, charts@.len() as int);
    let ghost keys = corner_keys(mesh.faces@, listed);
    let mut map: FxHashMap<(u32, u32), u32> = FxHashMap::default();
    let mut vertices: Vec<Vec3> = Vec::new();
    let mut sources: Vec<Source> = Vec::new();
    let mut faces: Vec<[u32; 3]> = Vec::new();
    let mut face_src: Vec<u32> = Vec::new();
    let ghost mut verts: Seq<(u32, u32)> = Seq::empty();
    assert(keys.take(0) =~= Seq::<(u32, u32)>::empty());
    for c in 0..charts.len()
        invariant
            mesh.wf(),
            charts@.len() <= u32::MAX,
            forall|c: int| 0 <= c < charts@.len() ==> (#[trigger] charts@[c])@.len() <= u32::MAX,
            forall|c: int, i: int|
                #![trigger charts@[c]@[i]]
                0 <= c < charts@.len() && 0 <= i < charts@[c]@.len() ==> charts@[c]@[i]
                    < mesh.faces@.len(),
            listed == chart_faces(charts@, charts@.len() as int),
            keys == corner_keys(mesh.faces@, listed),
            3 * listed.len() <= u32::MAX,
            map_matches(map@, verts),
            splitting(
                mesh,
                listed,
                chart_faces(charts@, c as int).len() as int,
                0,
                verts,
                vertices@,
                sources@,
                faces@,
                face_src@,
            ),
    {
        let chart = &charts[c];
        let ghost base = chart_faces(charts@, c as int).len() as int;
        proof {
            chart_faces_prefix(charts@, c + 1, charts@.len() as int);
        }
        for i in 0..chart.len()
            invariant
                mesh.wf(),
                c < charts@.len(),
                charts@.len() <= u32::MAX,
                chart@ == charts@[c as int]@,
                chart@.len() <= u32::MAX,
                base == chart_faces(charts@, c as int).len(),
                forall|c: int, i: int|
                    #![trigger charts@[c]@[i]]
                    0 <= c < charts@.len() && 0 <= i < charts@[c]@.len() ==> charts@[c]@[i]
                        < mesh.faces@.len(),
                keys == corner_keys(mesh.faces@, listed),
                3 * listed.len() <= u32::MAX,
                base + chart@.len() <= listed.len(),
                forall|j: int|
                    0 <= j < chart@.len() ==> #[trigger] listed[base + j] == (
                        c as u32,
                        j as u32,
                        chart@[j],
                    ),
                map_matches(map@, verts),
                splitting(
                    mesh,
                    listed,
                    base + i,
                    0,
                    verts,
                    vertices@,
                    sources@,
                    faces@,
                    face_src@,
                ),
        {
            let f: u32 = chart[i];
            assert(charts@[c as int]@[i as int] < mesh.faces@.len());
            assert(listed[base + i] == (c as u32, i as u32, f));
            let corners = mesh.faces[f as usize];
            assert(mesh::face_in(mesh.faces@[f as int], mesh.vertices@.len()));
            let mut face: [u32; 3] = [0, 0, 0];
            for k in 0..3usize
                invariant
                    c < charts@.len() <= u32::MAX,
                    i <= u32::MAX,
                    mesh::face_in(corners, mesh.vertices@.len()),
                    f < mesh.faces@.len(),
                    corners == mesh.faces@[f as int],
                    0 <= base + i < listed.len(),
                    keys == corner_keys(mesh.faces@, listed),
                    3 * listed.len() <= u32::MAX,
                    listed[base + i] == (c as u32, i as u32, f),
                    map_matches(map@, verts),
                    splitting(
                        mesh,
                        listed,
                        base + i,
                        k as int,
                        verts,
                        vertices@,
                        sources@,
                        faces@,
                        face_src@,
                    ),
                    forall|j: int|
                        0 <= j < k ==> #[trigger] face[j] < verts.len() && verts[face[j] as int]
                            == keys[3 * (base + i) + j],
            {
                let v: u32 = corners[k];
                let key = (c as u32, v);
                proof {
                    let s = 3 * (base + i) + k;
                    assert(s / 3 == base + i && s % 3 == k);
                    assert(keys[s] == key);
                    corner_taken(mesh, listed, base + i, k as int, verts, key);
                    seqs::first_appearances_bound(keys.take(s));
                }
                let ghost before = verts;
                let id: u32 = match fx::pairs_get(&map, key) {
                    Some(id) => {
                        assert(verts[id as int] == key);
                        id
                    },
                    None => {
                        proof {
                            if verts.contains(key) {
                                let w = verts.index_of(key);
                                assert(map@.contains_key(verts[w]));
                            }
                        }
                        let id: u32 = vertices.len() as u32;
                        vertices.push(mesh.vertices[v as usize]);
                        sources.push(Source { chart: c as u32, face: i as u32, corner: k as u32 });
                        fx::pairs_insert(&mut map, key, id);
                        proof {
                            verts = verts.push(key);
                        }
                        id
                    },
                };
                face[k] = id;
            }
            faces.push(face);
            face_src.push(f);
        }
        proof {
            assert(chart_faces(charts@, c + 1).len() == base + chart@.len());
        }
    }
    assert(keys.take(keys.len() as int) =~= keys);
    SplitMesh { mesh: Mesh { vertices, faces }, sources, face_src }
}

/// The faces of the first charts are the first of all faces.
proof fn chart_faces_prefix(charts: Seq<Vec<u32>>, n: int, total: int)
    requires
        0 < n <= total <= charts.len(),
    ensures
        ({
            let base = chart_faces(charts, n - 1).len() as int;
            let all = chart_faces(charts, total);
            &&& base + charts[n - 1]@.len() <= all.len()
            &&& forall|j: int|
                0 <= j < charts[n - 1]@.len() ==> #[trigger] all[base + j] == (
                    (n - 1) as u32,
                    j as u32,
                    charts[n - 1]@[j],
                )
        }),
    decreases total,
{
    if n < total {
        chart_faces_prefix(charts, n, total - 1);
        let base = chart_faces(charts, n - 1).len() as int;
        let fewer = chart_faces(charts, total - 1);
        let all = chart_faces(charts, total);
        assert forall|j: int| 0 <= j < charts[n - 1]@.len() implies #[trigger] all[base + j] == (
            (n - 1) as u32,
            j as u32,
            charts[n - 1]@[j],
        ) by {
            assert(all[base + j] == fewer[base + j]);
        }
    }
}

/// Corners of the split mesh meet if and only if they are of one chart and met in the mesh.
pub proof fn corners_meet_within_their_chart(
    mesh: &Mesh,
    charts: Seq<Vec<u32>>,
    out: &SplitMesh,
    f: int,
    k: int,
    g: int,
    m: int,
)
    requires
        is_split(mesh, charts, out),
        0 <= f < out.mesh.faces@.len(),
        0 <= g < out.mesh.faces@.len(),
        0 <= k < 3,
        0 <= m < 3,
    ensures
        ({
            let listed = chart_faces(charts, charts.len() as int);
            out.mesh.faces@[f][k] == out.mesh.faces@[g][m] <==> listed[f].0 == listed[g].0
                && mesh.faces@[out.face_src@[f] as int][k]
                == mesh.faces@[out.face_src@[g] as int][m]
        }),
{
    let listed = chart_faces(charts, charts.len() as int);
    let keys = corner_keys(mesh.faces@, listed);
    let verts = split_vertices(mesh.faces@, listed);
    seqs::first_appearances_same_elements(keys);
    assert(out.mesh.faces@[f][k] < verts.len() && verts[out.mesh.faces@[f][k] as int] == keys[3 * f
        + k]);
    assert(out.mesh.faces@[g][m] < verts.len() && verts[out.mesh.faces@[g][m] as int] == keys[3 * g
        + m]);
    assert((3 * f + k) / 3 == f && (3 * f + k) % 3 == k);
    assert((3 * g + m) / 3 == g && (3 * g + m) % 3 == m);
    assert(out.face_src@[f] == listed[f].2 && out.face_src@[g] == listed[g].2);
}

/// The faces of the first `n` charts.
pub open spec fn faces_before(charts: Seq<Vec<u32>>, n: int) -> int
    decreases n,
{
    if n <= 0 {
        0
    } else {
        faces_before(charts, n - 1) + charts[n - 1]@.len()
    }
}

/// The faces of the split mesh come chart by chart, in the order of the chart.
pub proof fn faces_come_chart_by_chart(charts: Seq<Vec<u32>>, n: int, c: int, i: int)
    requires
        0 <= c < n <= charts.len(),
        0 <= i < charts[c]@.len(),
    ensures
        chart_faces(charts, n).len() == faces_before(charts, n),
        0 <= faces_before(charts, c) + i < chart_faces(charts, n).len(),
        chart_faces(charts, n)[faces_before(charts, c) + i] == (c as u32, i as u32, charts[c]@[i]),
    decreases n,
{
    listed_before(charts, n - 1);
    listed_before(charts, c);
    if c < n - 1 {
        faces_come_chart_by_chart(charts, n - 1, c, i);
    }
}

proof fn listed_before(charts: Seq<Vec<u32>>, n: int)
    requires
        0 <= n <= charts.len(),
    ensures
        chart_faces(charts, n).len() == faces_before(charts, n),
        faces_before(charts, n) >= 0,
    decreases n,
{
    if n > 0 {
        listed_before(charts, n - 1);
    }
}

/// A listed face is a face of its chart, at its place.
proof fn listed_faces_are_of_their_chart(charts: Seq<Vec<u32>>, n: int, f: int) -> (e: (int, int))
    requires
        0 <= n <= charts.len() <= u32::MAX,
        forall|c: int| 0 <= c < charts.len() ==> (#[trigger] charts[c])@.len() <= u32::MAX,
        0 <= f < chart_faces(charts, n).len(),
    ensures
        0 <= e.0 < n,
        0 <= e.1 < charts[e.0]@.len(),
        f == faces_before(charts, e.0) + e.1,
        chart_faces(charts, n)[f] == (e.0 as u32, e.1 as u32, charts[e.0]@[e.1]),
    decreases n,
{
    listed_before(charts, n - 1);
    if f < chart_faces(charts, n - 1).len() {
        listed_faces_are_of_their_chart(charts, n - 1, f)
    } else {
        (n - 1, f - faces_before(charts, n - 1))
    }
}

/// A vertex of the split mesh is said to come from the first corner that it is at: that of the
/// face of the chart, which has the vertex there, and no earlier corner has it.
pub proof fn sources_are_the_first_corners(
    mesh: &Mesh,
    charts: Seq<Vec<u32>>,
    out: &SplitMesh,
    v: int,
    g: int,
    m: int,
)
    requires
        is_split(mesh, charts, out),
        charts.len() <= u32::MAX,
        forall|c: int| 0 <= c < charts.len() ==> (#[trigger] charts[c])@.len() <= u32::MAX,
        0 <= v < out.mesh.vertices@.len(),
        0 <= g < out.mesh.faces@.len(),
        0 <= m < 3,
        out.mesh.faces@[g][m] == v,
    ensures
        ({
            let s = out.sources@[v];
            let f = faces_before(charts, s.chart as int) + s.face;
            &&& s.chart < charts.len()
            &&& s.face < charts[s.chart as int]@.len()
            &&& s.corner < 3
            &&& 0 <= f < out.mesh.faces@.len()
            &&& out.mesh.faces@[f][s.corner as int] == v
            &&& out.face_src@[f] == charts[s.chart as int]@[s.face as int]
            &&& f < g || (f == g && s.corner <= m)
        }),
{
    let n = charts.len() as int;
    let listed = chart_faces(charts, n);
    let keys = corner_keys(mesh.faces@, listed);
    let verts = split_vertices(mesh.faces@, listed);
    let key = verts[v];
    assert(is_first_use(mesh.faces@, listed, key, out.sources@[v]));
    let s = choose|s: int|
        {
            &&& 0 <= s < 3 * listed.len()
            &&& #[trigger] corner_keys(mesh.faces@, listed)[s] == key
            &&& out.sources@[v].chart == listed[s / 3].0
            &&& out.sources@[v].face == listed[s / 3].1
            &&& out.sources@[v].corner == s % 3
            &&& forall|t: int|
                0 <= t < s ==> #[trigger] corner_keys(mesh.faces@, listed)[t] != key
        };
    let (f, k) = (s / 3, s % 3);
    let (c, i) = listed_faces_are_of_their_chart(charts, n, f);
    assert(3 * f + k == s);
    let u = out.mesh.faces@[f][k] as int;
    assert(verts[u] == keys[3 * f + k]);
    seqs::first_appearances_same_elements(keys);
    assert(u == v);
    assert(out.face_src@[f] == listed[f].2);
    assert(verts[out.mesh.faces@[g][m] as int] == keys[3 * g + m]);
    if 3 * g + m < s {
        assert(keys[3 * g + m] != key);
    }
}

} // verus!
