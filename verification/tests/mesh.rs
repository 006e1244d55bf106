//! Marching tetrahedra, filtering, smoothing and simplification.

use brush_mesh::filter::{filter_mesh_with_keep, filter_small_components};
use brush_mesh::float::F32;
use brush_mesh::marching_tet::{marching_tets, Crossing};
use brush_mesh::mesh::{Mesh, Vec3};
use brush_mesh::simplify::{seam_locks, simplify_mesh, simplify_mesh_with_uvs};
use brush_mesh::smooth::{boundary_vertices, taubin_smooth, vertex_rings, Rings};
use meshopt::{SimplifyOptions, VertexDataAdapter};

fn f(x: f32) -> F32 {
    F32::from_bits(x.to_bits())
}

fn g(x: F32) -> f32 {
    f32::from_bits(x.bits)
}

fn vec3(x: f32, y: f32, z: f32) -> Vec3 {
    Vec3 { x: f(x), y: f(y), z: f(z) }
}

fn to_glam(v: Vec3) -> glam::Vec3 {
    glam::Vec3::new(g(v.x), g(v.y), g(v.z))
}

fn from_glam(v: glam::Vec3) -> Vec3 {
    vec3(v.x, v.y, v.z)
}

fn share(largest: usize, frac: F32) -> usize {
    (largest as f32 * g(frac)) as usize
}

fn sdf(values: &[f32]) -> Vec<F32> {
    values.iter().map(|&x| f(x)).collect()
}

/// One tet with v0 inside (sdf < 0) and v1..v3 outside: one triangle on edges (0,1), (0,2),
/// (0,3).
#[test]
fn single_inside_vertex_makes_one_tri() {
    let tets = vec![[0u32, 1, 2, 3]];
    let out = marching_tets(&tets, &sdf(&[-1.0, 1.0, 1.0, 1.0]));
    assert_eq!(out.crossings.len(), 3);
    assert_eq!(out.faces.len(), 1);
    let edges: Vec<(u32, u32)> = out.crossings.iter().map(|c: &Crossing| (c.a, c.b)).collect();
    assert_eq!(edges, vec![(0, 1), (0, 2), (0, 3)]);
}

/// Two tets that share a face with the crossing edges: shared crossings are merged.
#[test]
fn shared_crossings_are_deduplicated() {
    let tets = vec![[0u32, 1, 2, 3], [0u32, 1, 2, 4]];
    let out = marching_tets(&tets, &sdf(&[-1.0, 1.0, 1.0, 1.0, 1.0]));
    assert_eq!(out.crossings.len(), 4);
    assert_eq!(out.faces.len(), 2);
}

/// A face with a corner on the other side is crossed by one side of one triangle, and each other
/// side of a triangle is shared within the tet.
#[test]
fn faces_are_crossed_in_one_segment() {
    for p in 0..16usize {
        let signs: Vec<f32> = (0..4).map(|i| if p >> i & 1 == 1 { 1.0 } else { -1.0 }).collect();
        let out = marching_tets(&[[0u32, 1, 2, 3]], &sdf(&signs));
        let mut sides: Vec<Vec<(u32, u32)>> = Vec::new();
        for f in &out.faces {
            let at = |k: usize| (out.crossings[f[k] as usize].a, out.crossings[f[k] as usize].b);
            for k in 0..3 {
                let mut side = vec![at(k), at((k + 1) % 3)];
                side.sort();
                sides.push(side);
            }
        }
        for side in &sides {
            let (e, f) = (side[0], side[1]);
            let meet = e.0 == f.0 || e.0 == f.1 || e.1 == f.0 || e.1 == f.1;
            let times = sides.iter().filter(|s| *s == side).count();
            assert_eq!(times, if meet { 1 } else { 2 }, "pattern {p}");
        }
        let on_faces = sides.iter().filter(|s| sides.iter().filter(|r| r == s).count() == 1).count();
        let crossed = (0..4usize)
            .filter(|v| {
                let face: Vec<f32> = (0..4).filter(|k| k != v).map(|k| signs[k]).collect();
                face.iter().any(|x| *x != face[0])
            })
            .count();
        assert_eq!(on_faces, crossed, "pattern {p}");
    }
}

/// All-inside or all-outside tets produce no triangles.
#[test]
fn uniform_signs_emit_nothing() {
    let tets = vec![[0u32, 1, 2, 3], [0u32, 1, 2, 3]];
    let sdf_all_in = sdf(&[-1.0, -2.0, -3.0, -4.0]);
    let sdf_all_out = sdf(&[1.0, 2.0, 3.0, 4.0]);
    assert!(marching_tets(&tets, &sdf_all_in).faces.is_empty());
    assert!(marching_tets(&tets, &sdf_all_out).faces.is_empty());
}

#[test]
fn two_inside_vertices_make_two_tris() {
    let out = marching_tets(&[[0u32, 1, 2, 3]], &sdf(&[1.0, 1.0, -1.0, -1.0]));
    assert_eq!(out.crossings.len(), 4);
    assert_eq!(out.faces.len(), 2);
    for c in &out.crossings {
        assert!(c.a < 2 && c.b >= 2, "crossings join the two sides");
    }
}

#[test]
fn zero_counts_as_outside_and_nan_too() {
    let out = marching_tets(&[[0u32, 1, 2, 3]], &sdf(&[0.0, f32::NAN, -1.0, -1.0]));
    assert!(out.crossings.is_empty());
    assert!(out.faces.is_empty());
}

#[test]
fn opposite_signs_reverse_the_triangle() {
    let a = marching_tets(&[[0u32, 1, 2, 3]], &sdf(&[-1.0, 1.0, 1.0, 1.0]));
    let b = marching_tets(&[[0u32, 1, 2, 3]], &sdf(&[1.0, -1.0, -1.0, -1.0]));
    let corner = |o: &brush_mesh::marching_tet::MarchingTetResult, k: usize| {
        let c = o.crossings[o.faces[0][k] as usize];
        (c.a, c.b)
    };
    let ta = [corner(&a, 0), corner(&a, 1), corner(&a, 2)];
    let tb = [corner(&b, 0), corner(&b, 1), corner(&b, 2)];
    let reversed = (0..3).any(|k| (0..3).all(|i| ta[i] == tb[(k + 3 - i) % 3]));
    assert!(reversed, "{ta:?} is not {tb:?} reversed");
}

#[test]
fn small_components_are_dropped() {
    // A two-face quad plus one isolated triangle far away.
    let mesh = Mesh {
        vertices: vec![
            vec3(0.0, 0.0, 0.0),
            vec3(1.0, 0.0, 0.0),
            vec3(0.0, 1.0, 0.0),
            vec3(1.0, 1.0, 0.0),
            vec3(100.0, 0.0, 0.0),
            vec3(101.0, 0.0, 0.0),
            vec3(100.0, 1.0, 0.0),
        ],
        faces: vec![[0, 1, 2], [1, 3, 2], [4, 5, 6]],
    };
    let out = filter_small_components(&mesh, 2, f(0.0), share);
    assert_eq!(out.faces.len(), 2);
    assert_eq!(out.vertices.len(), 4);
    // min_faces 1 keeps everything.
    let all = filter_small_components(&mesh, 1, f(0.0), share);
    assert_eq!(all.faces.len(), 3);
}

#[test]
fn fraction_of_the_largest_component_counts() {
    let mesh = Mesh {
        vertices: (0..12).map(|i| vec3(i as f32, 0.0, 0.0)).collect(),
        faces: vec![[0, 1, 2], [1, 3, 2], [2, 3, 4], [3, 4, 5], [6, 7, 8], [9, 10, 11]],
    };
    let out = filter_small_components(&mesh, 1, f(0.5), share);
    assert_eq!(out.faces.len(), 4);
    assert_eq!(out.vertices.len(), 6);
    let none_dropped = filter_small_components(&mesh, 1, f(0.25), share);
    assert_eq!(none_dropped.faces.len(), 6);
}

#[test]
fn drops_marked_vertices() {
    let mesh = Mesh {
        vertices: vec![
            vec3(0.0, 0.0, 0.0),
            vec3(0.1, 0.0, 0.0),
            vec3(0.0, 0.1, 0.0),
            vec3(100.0, 0.0, 0.0),
        ],
        faces: vec![[0, 1, 2], [0, 1, 3]],
    };
    let keep = vec![true, true, true, false];
    let out = filter_mesh_with_keep(&mesh, &keep);
    assert_eq!(out.faces.len(), 1);
    assert_eq!(out.vertices.len(), 3);
}

#[test]
fn kept_vertices_are_renumbered() {
    let mesh = Mesh {
        vertices: (0..5).map(|i| vec3(i as f32, 0.0, 0.0)).collect(),
        faces: vec![[4, 2, 1], [0, 1, 2]],
    };
    let out = filter_mesh_with_keep(&mesh, &[false, true, true, false, true]);
    assert_eq!(out.faces, vec![[2, 1, 0]]);
    let xs: Vec<f32> = out.vertices.iter().map(|v| g(v.x)).collect();
    assert_eq!(xs, vec![1.0, 2.0, 4.0]);
    let same = filter_mesh_with_keep(&mesh, &[true; 5]);
    assert_eq!(same.faces, mesh.faces);
    assert_eq!(same.vertices.len(), 5);
}

fn relax(pos: &Vec<Vec3>, rings: &Rings, i: usize, grow: bool) -> Vec3 {
    let (lo, hi) = (rings.offsets[i] as usize, rings.offsets[i + 1] as usize);
    let p = to_glam(pos[i]);
    let mut sum = glam::Vec3::ZERO;
    for &j in &rings.adj[lo..hi] {
        sum += to_glam(pos[j as usize]);
    }
    let mean = sum / (hi - lo) as f32;
    from_glam(p + (mean - p) * if grow { -0.53 } else { 0.5 })
}

fn octahedron(spike: f32) -> Mesh {
    Mesh {
        vertices: vec![
            vec3(0.0, 0.0, spike),
            vec3(1.0, 0.0, 0.0),
            vec3(0.0, 1.0, 0.0),
            vec3(-1.0, 0.0, 0.0),
            vec3(0.0, -1.0, 0.0),
            vec3(0.0, 0.0, -1.0),
        ],
        faces: vec![
            [0, 1, 2],
            [0, 2, 3],
            [0, 3, 4],
            [0, 4, 1],
            [5, 2, 1],
            [5, 3, 2],
            [5, 4, 3],
            [5, 1, 4],
        ],
    }
}

/// An octahedron with one vertex pulled far out: smoothing moves the spike towards its
/// neighbours without collapsing the shape.
#[test]
fn smooths_spike_without_collapse() {
    let mut mesh = octahedron(5.0);
    let before_spike = g(mesh.vertices[0].z);
    taubin_smooth(&mut mesh, 10, relax);
    let after_spike = g(mesh.vertices[0].z);
    assert!(after_spike < before_spike * 0.5, "spike not attenuated");
    // Volume preservation (roughly): the equator ring must not collapse.
    let r = to_glam(mesh.vertices[1]).length();
    assert!(r > 0.5, "mesh collapsed: equator radius {r}");
    assert!(mesh.vertices.iter().all(|v| to_glam(*v).is_finite()));
}

#[test]
fn closed_meshes_have_no_boundary() {
    assert_eq!(boundary_vertices(&octahedron(1.0)), vec![false; 6]);
    let open = Mesh {
        vertices: (0..4).map(|i| vec3(i as f32, 0.0, 0.0)).collect(),
        faces: vec![[0, 1, 2]],
    };
    assert_eq!(boundary_vertices(&open), vec![true, true, true, false]);
}

#[test]
fn rings_list_neighbours_with_multiplicity() {
    let mesh = octahedron(1.0);
    let rings = vertex_rings(&mesh);
    assert_eq!(rings.offsets.len(), 7);
    assert_eq!(rings.adj.len(), 6 * mesh.faces.len());
    let mut first: Vec<u32> = rings.adj[..rings.offsets[1] as usize].to_vec();
    first.sort_unstable();
    assert_eq!(first, vec![1, 1, 2, 2, 3, 3, 4, 4]);
}

#[test]
fn boundary_vertices_are_pinned() {
    // A fan around vertex 0 with a rim of four.
    let mut mesh = Mesh {
        vertices: vec![
            vec3(0.0, 0.0, 3.0),
            vec3(1.0, 0.0, 0.0),
            vec3(0.0, 1.0, 0.0),
            vec3(-1.0, 0.0, 0.0),
            vec3(0.0, -1.0, 0.0),
        ],
        faces: vec![[0, 1, 2], [0, 2, 3], [0, 3, 4], [0, 4, 1]],
    };
    taubin_smooth(&mut mesh, 1, relax);
    assert_eq!(to_glam(mesh.vertices[1]), glam::Vec3::new(1.0, 0.0, 0.0));
    assert!(g(mesh.vertices[0].z) < 3.0);
    let still = mesh.vertices[0];
    taubin_smooth(&mut mesh, 0, relax);
    assert_eq!(to_glam(mesh.vertices[0]), to_glam(still));
}

fn positions(mesh: &Mesh) -> Vec<u8> {
    let mut bytes = Vec::new();
    for v in &mesh.vertices {
        for c in [v.x, v.y, v.z] {
            bytes.extend_from_slice(&g(c).to_ne_bytes());
        }
    }
    bytes
}

fn grid(n: usize) -> Mesh {
    let mut vertices = Vec::new();
    for y in 0..n {
        for x in 0..n {
            vertices.push(vec3(x as f32, y as f32, 0.0));
        }
    }
    let mut faces = Vec::new();
    for y in 0..n - 1 {
        for x in 0..n - 1 {
            let i = (y * n + x) as u32;
            let nn = n as u32;
            faces.push([i, i + 1, i + nn]);
            faces.push([i + 1, i + nn + 1, i + nn]);
        }
    }
    Mesh { vertices, faces }
}

#[test]
fn simplifies_dense_grid() {
    // A dense planar grid collapses heavily at tiny error.
    let n = 50usize;
    let mesh = grid(n);
    let bytes = positions(&mesh);
    let out = simplify_mesh(&mesh, 200, |indices: Vec<u32>, target: usize| -> Vec<u32> {
        let adapter = VertexDataAdapter::new(&bytes, 12, 0).expect("adapter");
        meshopt::simplify(&indices, &adapter, target, 0.05, SimplifyOptions::LockBorder, None)
    });
    assert!(
        out.faces.len() <= 250,
        "reached target-ish: {}",
        out.faces.len()
    );
    assert!(out.faces.len() > 10, "did not collapse to nothing");
    assert!(
        out.faces
            .iter()
            .all(|f| f.iter().all(|&v| (v as usize) < out.vertices.len())),
        "faces reference compacted vertices"
    );
}

#[test]
fn small_meshes_are_not_simplified() {
    let mesh = grid(3);
    let out = simplify_mesh(&mesh, 8, |_: Vec<u32>, _: usize| -> Vec<u32> { panic!("not asked") });
    assert_eq!(out.faces, mesh.faces);
    assert_eq!(out.vertices.len(), 9);
}

#[test]
fn compaction_keeps_used_vertices_in_order_of_use() {
    let mesh = grid(3);
    let out = simplify_mesh(&mesh, 2, |indices: Vec<u32>, target: usize| -> Vec<u32> {
        assert_eq!(indices.len(), 24);
        assert_eq!(target, 6);
        vec![8, 4, 0, 4, 8, 2]
    });
    assert_eq!(out.faces, vec![[0, 1, 2], [1, 0, 3]]);
    let at: Vec<(f32, f32)> = out.vertices.iter().map(|v| (g(v.x), g(v.y))).collect();
    assert_eq!(at, vec![(2.0, 2.0), (1.0, 1.0), (0.0, 0.0), (2.0, 0.0)]);
}

#[test]
fn seams_are_vertices_at_one_place() {
    let vertices = vec![vec3(0.0, 0.0, 0.0), vec3(1.0, 0.0, 0.0), vec3(0.0, 0.0, 0.0)];
    assert_eq!(seam_locks(&vertices), vec![true, false, true]);
    // The two zeros are different bits, so no seam.
    let zeros = vec![vec3(0.0, 0.0, 0.0), vec3(-0.0, 0.0, 0.0)];
    assert_eq!(seam_locks(&zeros), vec![false, false]);
}

#[test]
fn uv_simplification_asks_again_when_it_overshoots() {
    let mesh = grid(5);
    let uvs: Vec<[F32; 2]> = (0..25).map(|i| [f(i as f32), f(0.0)]).collect();
    let asked = std::cell::RefCell::new(Vec::new());
    let (out, out_uvs) = simplify_mesh_with_uvs(
        &mesh,
        &uvs,
        10,
        |indices: Vec<u32>, locks: Vec<bool>, target: usize| -> Vec<u32> {
            assert_eq!(locks, vec![false; 25]);
            asked.borrow_mut().push(target);
            // Twenty faces are left the first time, ten the second.
            let left = if asked.borrow().len() == 1 { 60 } else { 30 };
            indices[..left].to_vec()
        },
    );
    assert_eq!(*asked.borrow(), vec![30, 15]);
    assert_eq!(out.faces.len(), 10);
    assert_eq!(out.vertices.len(), out_uvs.len());
    for (v, uv) in out.vertices.iter().zip(&out_uvs) {
        assert_eq!(g(uv[0]), g(v.x) + 5.0 * g(v.y), "uvs follow their vertices");
    }
}
