//! Charts, atlas packing, seam splitting, texels and baking.

use brush_mesh::bake::{
    best_view, depth_layout, follow_faces, prune_views, raster_face, resolve_atlas, used_views,
    DepthBuffer, MAX_RASTER_SIDE,
};
use brush_mesh::float::F32;
use brush_mesh::mesh::{Mesh, Vec3};
use brush_mesh::texture::adjacency::face_adjacency;
use brush_mesh::texture::atlas::{chart_mesh, pack_atlas, split_charted};
use brush_mesh::texture::charts::cluster_faces;
use brush_mesh::texture::skyline::{lowest_window, pack_charts};
use brush_mesh::texture::specks::{merge_specks, rebuild};
use brush_mesh::texture::split::split_mesh;
use brush_mesh::texture::texels::face_texels;

fn f(x: f32) -> F32 {
    F32::from_bits(x.to_bits())
}

fn g(x: F32) -> f32 {
    f32::from_bits(x.bits)
}

fn vec3(x: f32, y: f32, z: f32) -> Vec3 {
    Vec3 { x: f(x), y: f(y), z: f(z) }
}

fn to_glam(v: Vec3) -> glam::Vec3 {
    glam::Vec3::new(g(v.x), g(v.y), g(v.z))
}

fn floats(v: &[f32]) -> Vec<F32> {
    v.iter().map(|&x| f(x)).collect()
}

fn quad() -> Mesh {
    Mesh {
        vertices: vec![
            vec3(0.0, 0.0, 0.0),
            vec3(1.0, 0.0, 0.0),
            vec3(0.0, 1.0, 0.0),
            vec3(1.0, 1.0, 0.0),
        ],
        faces: vec![[0, 1, 2], [1, 3, 2]],
    }
}

fn normals(mesh: &Mesh) -> Vec<glam::Vec3> {
    mesh.faces
        .iter()
        .map(|t| {
            let p = t.map(|v| to_glam(mesh.vertices[v as usize]));
            (p[1] - p[0]).cross(p[2] - p[0]).normalize_or_zero()
        })
        .collect()
}

/// Chart, project along the z axis, pack and split a mesh that lies in the xy plane. Gives the
/// split mesh and texture coordinates between zero and one.
fn atlas_flat(mesh: &Mesh, size: u32) -> Option<(Mesh, Vec<[f32; 2]>, Vec<u32>)> {
    const GUTTER: f32 = 2.0;
    let n = normals(mesh);
    let charts = chart_mesh(mesh, |held: &Vec<u32>, m: usize, face: u32| {
        let sum = held[..m].iter().fold(glam::Vec3::ZERO, |s, &h| s + n[h as usize]);
        let face_n = n[face as usize];
        face_n.dot(sum.normalize_or_zero()) > 0.5 && face_n.dot(n[held[0] as usize]) > 0.25
    });
    let mut low = Vec::new();
    let mut sides = Vec::new();
    for chart in &charts {
        let mut lo = glam::Vec2::INFINITY;
        let mut hi = glam::Vec2::NEG_INFINITY;
        for &face in chart {
            for &v in &mesh.faces[face as usize] {
                let p = to_glam(mesh.vertices[v as usize]).truncate();
                lo = lo.min(p);
                hi = hi.max(p);
            }
        }
        low.push(lo);
        sides.push(hi - lo);
    }
    let area: f32 = sides.iter().map(|s| s.x * s.y).sum();
    let px = size as f32;
    let scale0 = (px * px * 0.85 / area).sqrt();
    let scale = |round: usize| scale0 * 0.97f32.powi(round as i32);
    let heights: Vec<F32> = sides.iter().map(|s| f(s.y)).collect();
    let packing = pack_atlas(
        &heights,
        size as usize,
        f(GUTTER),
        1000,
        |round: usize, c: usize| (sides[c].x * scale(round) + GUTTER).ceil() as usize,
        |round: usize, c: usize, y: F32| {
            let top = g(y) + (sides[c].y * scale(round) + GUTTER);
            (top <= px).then_some(f(top))
        },
    )?;
    let mut origin = vec![glam::Vec2::ZERO; charts.len()];
    for (k, &c) in packing.order.iter().enumerate() {
        let p = &packing.places[k];
        origin[c] = glam::Vec2::new(p.x as f32 + GUTTER, g(p.y));
    }
    let split = split_charted(mesh, &charts);
    let uvs: Vec<[f32; 2]> = split
        .sources
        .iter()
        .map(|s| {
            let c = s.chart as usize;
            let face = charts[c][s.face as usize] as usize;
            let p = to_glam(mesh.vertices[mesh.faces[face][s.corner as usize] as usize]).truncate();
            let uv = (origin[c] + (p - low[c]) * scale(packing.round)) / px;
            [uv.x, uv.y]
        })
        .collect();
    Some((split.mesh, uvs, split.face_src))
}

/// Weights of the corners of a triangle in texels, at the texels that it covers.
fn cover(uvs: [[f32; 2]; 3], px: f32) -> impl Fn(u32, u32) -> Option<[F32; 3]> {
    let p = uvs.map(|u| glam::Vec2::new(u[0] * px, u[1] * px));
    let (ab, ac) = (p[1] - p[0], p[2] - p[0]);
    let det = ab.perp_dot(ac);
    let (tol_b, tol_c) = (0.5 * ac.length() / det.abs(), 0.5 * ab.length() / det.abs());
    move |x: u32, y: u32| {
        let q = glam::Vec2::new(x as f32 + 0.5, y as f32 + 0.5) - p[0];
        let (wb, wc) = (q.perp_dot(ac) / det, ab.perp_dot(q) / det);
        if wb < -tol_b || wc < -tol_c || wb + wc > 1.0 + tol_b.max(tol_c) {
            return None;
        }
        let (mut wb, mut wc) = (wb.clamp(0.0, 1.0), wc.clamp(0.0, 1.0));
        let sum = wb + wc;
        if sum > 1.0 {
            wb /= sum;
            wc /= sum;
        }
        Some([f(1.0 - wb - wc), f(wb), f(wc)])
    }
}

#[test]
fn atlas_and_rasterize_unit_quad() {
    let mesh = quad();
    let (atlased, uvs, _src) = atlas_flat(&mesh, 128).expect("atlas");
    assert_eq!(atlased.vertices.len(), uvs.len(), "uv per vertex");
    let mut pos = Vec::new();
    let mut idx = Vec::new();
    for fc in &atlased.faces {
        let uv = fc.map(|v| uvs[v as usize]);
        for s in face_texels(64, 0, 63, 0, 63, cover(uv, 64.0)) {
            let corner = |k: usize| to_glam(atlased.vertices[fc[k] as usize]) * g(s.weights[k]);
            pos.push(corner(0) + corner(1) + corner(2));
            idx.push(s.index);
        }
    }
    assert!(pos.len() > 500, "quad covers a decent part of a 64px atlas");
    assert!(idx.iter().all(|&i| i < 64 * 64), "indices in atlas");
    for p in &pos {
        assert!(p.z.abs() < 1e-5, "samples on the quad plane");
    }
}

#[test]
fn flat_neighbours_share_a_chart() {
    let all = chart_mesh(&quad(), |_: &Vec<u32>, _: usize, _: u32| true);
    assert_eq!(all, vec![vec![0, 1]]);
    // Two lone faces that refuse each other are specks, and specks merge.
    let merged = chart_mesh(&quad(), |_: &Vec<u32>, _: usize, _: u32| false);
    assert_eq!(merged.iter().map(Vec::len).sum::<usize>(), 2);
}

#[test]
fn adjacency_is_over_shared_edges() {
    let adj = face_adjacency(&vec![[0, 1, 2], [1, 3, 2], [4, 5, 6]]);
    assert_eq!(adj, vec![[-1, 1, -1], [-1, -1, 0], [-1, -1, -1]]);
}

/// The last face at an edge wins on the side of the first.
#[test]
fn edges_of_three_faces_link_to_the_first_and_last() {
    let adj = face_adjacency(&vec![[0, 1, 2], [1, 0, 3], [0, 1, 4]]);
    assert_eq!(adj[0][0], 2);
    assert_eq!(adj[1][0], 0);
    assert_eq!(adj[2][0], 0);
}

#[test]
fn clusters_grow_breadth_first() {
    // A strip of four faces, the third of which nobody takes.
    let adj = vec![[1, -1, -1], [0, 2, -1], [1, 3, -1], [2, -1, -1]];
    let (charts, chart_of) = cluster_faces(&adj, |_: &Vec<u32>, _: usize, face: u32| face != 2);
    assert_eq!(charts, vec![vec![0, 1], vec![2, 3]]);
    assert_eq!(chart_of, vec![0, 0, 1, 1]);
}

#[test]
fn rebuilding_lists_faces_by_chart() {
    assert_eq!(rebuild(&vec![2, 0, 2], 3), vec![vec![1], vec![], vec![0, 2]]);
}

#[test]
fn specks_join_the_chart_with_most_shared_edges() {
    // Two large charts of sixteen faces in strips, and one speck next to both: by one edge to the
    // first, by two to the second.
    let mut adj: Vec<[i64; 3]> = vec![[-1; 3]; 33];
    adj[32] = [0, 16, 17];
    adj[0] = [32, -1, -1];
    adj[16] = [32, -1, -1];
    adj[17] = [32, -1, -1];
    let all: Vec<Vec<u32>> = vec![(0..16).collect(), (16..32).collect(), vec![32]];
    let mut chart_of = vec![0; 16];
    chart_of.extend(vec![1; 16]);
    chart_of.push(2);
    let merged = merge_specks(&adj, all, chart_of);
    assert_eq!(merged.len(), 2);
    assert_eq!(merged[1], (16..33).collect::<Vec<u32>>());
}

#[test]
fn the_lowest_window_wins() {
    let heights = floats(&[3.0, 1.0, 1.0, 2.0, 1.0]);
    let (x, y) = lowest_window(&heights, 2).expect("window");
    assert_eq!((x, g(y)), (1, 1.0));
    let (x, y) = lowest_window(&heights, 3).expect("window");
    assert_eq!((x, g(y)), (1, 2.0));
    assert!(lowest_window(&heights, 6).is_none());
    assert!(lowest_window(&floats(&[f32::INFINITY]), 1).is_none());
}

#[test]
fn charts_stack_on_the_skyline() {
    let width = |_: usize, c: usize| [4usize, 3, 4][c];
    let stack = |_: usize, _: usize, y: F32| (g(y) + 2.0 <= 8.0).then_some(f(g(y) + 2.0));
    let p = pack_charts(&vec![0, 1, 2], 8, f(1.0), 0, &width, &stack).expect("fits");
    let places: Vec<(usize, usize, f32, f32)> =
        p.iter().map(|p| (p.x, p.w, g(p.y), g(p.top))).collect();
    assert_eq!(places, vec![(0, 4, 1.0, 3.0), (4, 3, 1.0, 3.0), (0, 4, 3.0, 5.0)]);
    // A chart as wide as the atlas does not fit, and the last one is too tall.
    assert!(pack_charts(&vec![0], 4, f(1.0), 0, &width, &stack).is_none());
    assert!(pack_charts(&vec![0, 0, 0, 0], 5, f(1.0), 0, &width, &stack).is_none());
}

#[test]
fn packing_shrinks_until_it_fits_and_takes_the_tallest_first() {
    let sides = [2.0f32, 5.0, 3.0];
    let heights = floats(&sides);
    let scale = |round: usize| 4.0 - round as f32;
    let packing = pack_atlas(
        &heights,
        12,
        f(0.0),
        4,
        |round: usize, c: usize| (sides[c] * scale(round)).ceil() as usize,
        |round: usize, c: usize, y: F32| {
            let top = g(y) + sides[c] * scale(round);
            (top <= 12.0).then_some(f(top))
        },
    )
    .expect("fits");
    assert_eq!(packing.order, vec![1, 2, 0]);
    assert_eq!(packing.round, 3);
    let none = pack_atlas(
        &heights,
        12,
        f(0.0),
        2,
        |round: usize, c: usize| (sides[c] * scale(round)).ceil() as usize,
        |_: usize, _: usize, y: F32| Some(y),
    );
    assert!(none.is_none());
}

#[test]
fn seams_get_two_vertices() {
    let out = split_mesh(&quad(), &vec![vec![1], vec![0]]);
    assert_eq!(out.mesh.vertices.len(), 6);
    assert_eq!(out.mesh.faces, vec![[0, 1, 2], [3, 4, 5]]);
    assert_eq!(out.face_src, vec![1, 0]);
    let s = &out.sources[4];
    assert_eq!((s.chart, s.face, s.corner), (1, 0, 1));
    let one = split_mesh(&quad(), &vec![vec![0, 1]]);
    assert_eq!(one.mesh.vertices.len(), 4);
    assert_eq!(one.mesh.faces, vec![[0, 1, 2], [1, 3, 2]]);
}

#[test]
fn texels_come_row_by_row() {
    let all = |x: u32, y: u32| {
        if x == 2 {
            None
        } else {
            Some([f(x as f32), f(y as f32), f(0.0)])
        }
    };
    let samples = face_texels(4, 1, 9, 2, 3, all);
    let idx: Vec<u32> = samples.iter().map(|s| s.index).collect();
    assert_eq!(idx, vec![9, 11, 13, 15]);
    assert_eq!(g(samples[1].weights[0]), 3.0);
    assert!(face_texels(4, 5, 9, 0, 3, all).is_empty());
}

#[test]
fn depth_buffers_lie_one_after_the_other() {
    let (buffers, total) = depth_layout(&vec![(8, 8), (5, 3), (2, 2)]);
    let b: Vec<(u32, u32, u32)> = buffers.iter().map(|b| (b.start, b.width, b.height)).collect();
    assert_eq!(b, vec![(0, 2, 2), (4, 2, 1), (6, 1, 1)]);
    assert_eq!(total, 7);
}

#[test]
fn the_nearest_depth_is_kept() {
    let buffer = DepthBuffer { start: 1, width: 2, height: 2 };
    let mut depth = vec![9, 9, 9, 9, 9, 9];
    raster_face(&mut depth, buffer, 0, 2, 0, 2, |x: u32, y: u32| {
        if x == 1 {
            Some(5 + 10 * y)
        } else {
            None
        }
    });
    assert_eq!(depth, vec![9, 9, 5, 9, 9, 9]);
    let wide = DepthBuffer { start: 0, width: MAX_RASTER_SIDE + 1, height: 1 };
    let mut depth = vec![7; MAX_RASTER_SIDE as usize + 1];
    raster_face(&mut depth, wide, 0, MAX_RASTER_SIDE + 1, 0, 1, |_: u32, _: u32| Some(1));
    assert!(depth.iter().all(|&d| d == 7), "oversized faces are skipped");
}

#[test]
fn the_first_best_view_wins() {
    let keep = vec![true, true, false, true];
    let scores = [Some(1.0f32), Some(3.0), Some(9.0), Some(3.0)];
    assert_eq!(best_view(&keep, |v: usize| scores[v].map(f)), Some(1));
    assert_eq!(best_view(&keep, |_: usize| None), None);
}

#[test]
fn the_most_used_views_are_kept() {
    let best = vec![Some(2), Some(0), Some(2), None, Some(1), Some(0), Some(2)];
    assert_eq!(prune_views(&best, 3, 2), vec![true, false, true]);
    assert_eq!(prune_views(&best, 4, 9), vec![true; 4]);
    let (used, unseen) = used_views(&best, 4);
    assert_eq!(used, vec![0, 1, 2]);
    assert_eq!(unseen, 1);
    assert_eq!(follow_faces(&best, &vec![3, 0, 1]), vec![None, Some(2), Some(0)]);
}

#[test]
fn texels_average_the_samples_on_them() {
    // A one by one atlas has two by two samples; two of them were hit.
    let mean = |groups: &Vec<Vec<usize>>| {
        let n: usize = groups.iter().map(Vec::len).sum();
        [n as u8, groups.len() as u8, 7]
    };
    let rgba = resolve_atlas(1, &vec![0, 3, 1], &vec![true, true, false], mean);
    assert_eq!(rgba.len(), 1);
    assert_eq!(rgba[0][2], 7);
    assert_eq!(rgba[0][0], 2);
}

/// Faces join breadth-first, and a face is asked about with the faces that were in when its
/// neighbour was visited.
#[test]
fn charts_grow_breadth_first() {
    let adj: Vec<[i64; 3]> =
        vec![[1, 2, -1], [3, 0, -1], [0, 4, -1], [1, -1, -1], [2, -1, -1]];
    let (charts, chart_of) = cluster_faces(&adj, |held: &Vec<u32>, m: usize, g: u32| {
        let seen = match g {
            1 => (1, 1),
            2 => (2, 1),
            3 => (3, 3),
            _ => (4, 4),
        };
        assert_eq!((held.len(), m), seen);
        true
    });
    assert_eq!(charts, vec![vec![0, 1, 2, 3, 4]]);
    assert_eq!(chart_of, vec![0; 5]);
    let (charts, chart_of) = cluster_faces(&adj, |_: &Vec<u32>, _: usize, g: u32| g != 1);
    assert_eq!(charts, vec![vec![0, 2, 4], vec![1, 3]]);
    assert_eq!(chart_of, vec![0, 1, 0, 1, 0]);
}
