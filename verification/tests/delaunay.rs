//! The triangulation of point sets, with double precision predicates.

use brush_mesh::delaunay::arena::{is_virtual, Arena, Tet, INF0, INF_NONE};
use brush_mesh::delaunay::cavity::Scratch;
use brush_mesh::delaunay::geometry::{Place, Site};
use brush_mesh::delaunay::hilbert::{hilbert3_key, hilbert_order, RES};
use brush_mesh::delaunay::insert::{serial_insert, InsertError};
use brush_mesh::delaunay::lock_grid::LockGrid;
use brush_mesh::delaunay::triangulate::delaunay_3d as triangulate;
use glam::DVec3;
use rand::rngs::StdRng;
use rand::{RngExt, SeedableRng};

fn orient3d_filter(a: DVec3, b: DVec3, c: DVec3, d: DVec3) -> f64 {
    let (a, b, c) = (a - d, b - d, c - d);
    a.x * (b.y * c.z - b.z * c.y) - a.y * (b.x * c.z - b.z * c.x) + a.z * (b.x * c.y - b.y * c.x)
}

fn insphere_oriented(a: DVec3, b: DVec3, c: DVec3, d: DVec3, p: DVec3) -> f64 {
    let (a, b, c, d) = (a - p, b - p, c - p, d - p);
    let m = |a: DVec3, b: DVec3, c: DVec3| {
        a.x * (b.y * c.z - b.z * c.y) - a.y * (b.x * c.z - b.z * c.x)
            + a.z * (b.x * c.y - b.y * c.x)
    };
    let sq = |v: DVec3| v.x * v.x + v.y * v.y + v.z * v.z;
    sq(a) * m(b, c, d) - sq(b) * m(a, c, d) + sq(c) * m(a, b, d) - sq(d) * m(a, b, c)
}

/// The tet `v` with `p` in the place of vertex `slot`.
fn orient3d_subst(v: &[DVec3; 4], p: DVec3, slot: usize) -> f64 {
    let mut w = *v;
    w[slot] = p;
    orient3d_filter(w[0], w[1], w[2], w[3])
}

/// Ascends as `x` does; not negative just where `x` is not.
fn rank(x: f64) -> i64 {
    if x >= 0.0 {
        (x + 0.0).to_bits() as i64
    } else if x.is_nan() || x == f64::NEG_INFINITY {
        i64::MIN
    } else {
        (x.to_bits() as i64) ^ i64::MAX
    }
}

fn dvec(p: glam::Vec3) -> DVec3 {
    DVec3::new(p.x as f64, p.y as f64, p.z as f64)
}

fn recip_or_zero(d: DVec3) -> DVec3 {
    let r = |x: f64| if x.abs() > 1e-30 { 1.0 / x } else { 0.0 };
    DVec3::new(r(d.x), r(d.y), r(d.z))
}

/// Triangulate in Hilbert order.
fn delaunay_3d(points: &[glam::Vec3]) -> Vec<[u32; 4]> {
    let (min, max) = extent(points);
    let inv = recip_or_zero(max - min);
    let cells: Vec<(u32, u32, u32)> =
        points.iter().map(|&p| cell_at((dvec(p) - min) * inv, RES)).collect();
    match triangulate_in(points, hilbert_order(&cells), |_: [u32; 4], _: u32| None) {
        Ok(tets) => tets,
        Err(e) => panic!("{e:?}"),
    }
}

fn extent(points: &[glam::Vec3]) -> (DVec3, DVec3) {
    let mut min = DVec3::INFINITY;
    let mut max = DVec3::NEG_INFINITY;
    for &p in points {
        min = min.min(dvec(p));
        max = max.max(dvec(p));
    }
    (min, max)
}

fn cell_at(u: DVec3, g: u32) -> (u32, u32, u32) {
    let u = u.clamp(DVec3::ZERO, DVec3::splat(1.0 - 1e-9));
    ((u.x * g as f64) as u32, (u.y * g as f64) as u32, (u.z * g as f64) as u32)
}

/// Triangulate in the order given. `settled` may answer the sphere test in advance.
fn triangulate_in(
    points: &[glam::Vec3],
    order: Vec<u32>,
    settled: impl Fn([u32; 4], u32) -> Option<bool>,
) -> Result<Vec<[u32; 4]>, InsertError> {
    let dp: Vec<DVec3> = points.iter().map(|&p| dvec(p)).collect();
    let (min, max) = extent(points);
    let center = (min + max) * 0.5;
    let r = (max - min).length().max(1.0) * 100.0;
    let virtuals = [
        center + DVec3::new(0.0, 0.0, r),
        center + DVec3::new(r * 0.9428, 0.0, -r * 0.3333),
        center + DVec3::new(-r * 0.4714, r * 0.8165, -r * 0.3333),
        center + DVec3::new(-r * 0.4714, -r * 0.8165, -r * 0.3333),
    ];
    let inv = recip_or_zero(max - min);
    let cell_of = |q: DVec3, g: u32| cell_at((q - min) * inv, g);
    let coord = |v: u32| {
        if is_virtual(v) {
            virtuals[(v - INF0) as usize]
        } else {
            dp[order[v as usize] as usize]
        }
    };
    let corners = |v: [u32; 4]| [coord(v[0]), coord(v[1]), coord(v[2]), coord(v[3])];
    let site = |q: Site| match q {
        Site::Point(p) => coord(p),
        Site::CellCentre((x, y, z), g) => {
            let f = DVec3::new(x as f64 + 0.5, y as f64 + 0.5, z as f64 + 0.5) / g as f64;
            min + f * (max - min)
        }
    };
    let outside =
        |v: [u32; 4], slot: usize, q: Site| orient3d_subst(&corners(v), site(q), slot) < 0.0;
    let inside = |v: [u32; 4], p: u32| {
        let [a, b, c, d] = corners(v);
        settled(v, p).unwrap_or_else(|| insphere_oriented(a, b, c, d, coord(p)) < 0.0)
    };
    let nearness = |v: [u32; 4], q: Site| {
        let (c, p) = (corners(v), site(q));
        let worst = (0..4).map(|s| orient3d_subst(&c, p, s)).fold(f64::INFINITY, f64::min);
        rank(worst)
    };
    let cell = |place: Place, g: u32| match place {
        Place::Point(p) => cell_of(coord(p), g),
        Place::Centroid(v) => {
            let real: Vec<DVec3> =
                v.iter().filter(|&&x| !is_virtual(x)).map(|&x| coord(x)).collect();
            let sum = real.iter().fold(DVec3::ZERO, |s, &p| s + p);
            cell_of(sum / (real.len() as f64).max(1.0), g)
        }
    };
    let grid_dim = |n: usize| ((n as f64 / 16.0).cbrt().ceil() as u32).max(1);
    triangulate(&order, &outside, &inside, &nearness, &cell, &grid_dim)
}

/// Every non-vertex point must lie outside each tet's circumsphere. `queries` limits the number
/// of points checked against all tets (None = all points).
fn validate(points: &[glam::Vec3], tets: &[[u32; 4]], queries: Option<usize>) {
    let dp: Vec<DVec3> = points.iter().map(|&p| dvec(p)).collect();
    let stride = queries.map_or(1, |q| (points.len() / q).max(1));
    for &t in tets {
        let (a, b, c, d) = (
            dp[t[0] as usize],
            dp[t[1] as usize],
            dp[t[2] as usize],
            dp[t[3] as usize],
        );
        let (a, b) = if orient3d_filter(a, b, c, d) > 0.0 {
            (a, b)
        } else {
            (b, a)
        };
        for (i, &q) in dp.iter().enumerate().step_by(stride) {
            if t.contains(&(i as u32)) {
                continue;
            }
            assert!(
                insphere_oriented(a, b, c, d, q) >= -1e-6,
                "Delaunay property violated: point {i} inside tet {t:?}"
            );
        }
    }
}

fn random_points(n: usize, seed: u64) -> Vec<glam::Vec3> {
    let mut rng = StdRng::seed_from_u64(seed);
    (0..n)
        .map(|_| {
            glam::Vec3::new(
                rng.random_range(-1.0..1.0),
                rng.random_range(-1.0..1.0),
                rng.random_range(-1.0..1.0),
            )
        })
        .collect()
}

fn all_seen(n: usize, tets: &[[u32; 4]]) -> bool {
    let mut seen = vec![false; n];
    for t in tets {
        for &v in t {
            seen[v as usize] = true;
        }
    }
    seen.iter().all(|&s| s)
}

#[test]
fn single_tet() {
    let pts = vec![
        glam::Vec3::new(0.0, 0.0, 0.0),
        glam::Vec3::new(1.0, 0.0, 0.0),
        glam::Vec3::new(0.0, 1.0, 0.0),
        glam::Vec3::new(0.0, 0.0, 1.0),
    ];
    let tets = delaunay_3d(&pts);
    assert_eq!(tets.len(), 1);
    validate(&pts, &tets, None);
}

#[test]
fn random_points_satisfy_empty_circumsphere() {
    let pts = random_points(300, 123);
    let tets = delaunay_3d(&pts);
    assert!(!tets.is_empty());
    validate(&pts, &tets, None);
    assert!(all_seen(pts.len(), &tets), "every input point is referenced");
}

/// At 20k points the final level is above the serial-tail threshold. Validates coverage plus the
/// empty-circumsphere property on a sample of query points.
#[test]
fn parallel_levels_satisfy_empty_circumsphere() {
    let pts = random_points(20_000, 7);
    let tets = delaunay_3d(&pts);
    assert!(all_seen(pts.len(), &tets), "every input point is referenced");
    validate(&pts, &tets, Some(32));
}

#[test]
fn fewer_than_four_points_have_no_tets() {
    assert!(delaunay_3d(&[]).is_empty());
    assert!(delaunay_3d(&random_points(3, 1)).is_empty());
}

/// Each inner face of the output belongs to two tets, and no face to more.
#[test]
fn faces_are_shared_by_at_most_two_tets() {
    let tets = delaunay_3d(&random_points(200, 5));
    let mut faces: Vec<[u32; 3]> = Vec::new();
    for t in &tets {
        for skip in 0..4 {
            let mut f: Vec<u32> = (0..4).filter(|&k| k != skip).map(|k| t[k]).collect();
            f.sort_unstable();
            faces.push([f[0], f[1], f[2]]);
        }
        let mut v = t.to_vec();
        v.sort_unstable();
        v.dedup();
        assert_eq!(v.len(), 4, "four different vertices");
    }
    faces.sort_unstable();
    for w in faces.windows(3) {
        assert!(w[0] != w[1] || w[1] != w[2]);
    }
}

/// With a sphere test that always says yes each point replaces every tet; each insertion leaves
/// four more in the arena, so two points fit easily and the triangulation has only tets with
/// virtual vertices.
#[test]
fn spheres_that_hold_everything_leave_the_hull() {
    let order: Vec<u32> = vec![0, 1, 2, 3];
    let r = triangulate(
        &order,
        &|_: [u32; 4], _: usize, _: Site| false,
        &|_: [u32; 4], _: u32| true,
        &|_: [u32; 4], _: Site| 0i64,
        &|_: Place, _: u32| (0u32, 0u32, 0u32),
        &|_: usize| 1u32,
    );
    match r {
        Ok(out) => assert!(out.is_empty()),
        Err(e) => panic!("{e:?}"),
    }
}

#[test]
fn hilbert_keys_are_exact() {
    assert_eq!(hilbert3_key(0, 0, 0, RES), 0);
    assert_eq!(hilbert3_key(0, 0, RES - 1, RES), (1 << 63) - 1);
    // The octants follow each other in Gray code.
    let octants = [
        (0, 0, 0),
        (1, 0, 0),
        (1, 1, 0),
        (0, 1, 0),
        (0, 1, 1),
        (1, 1, 1),
        (1, 0, 1),
        (0, 0, 1),
    ];
    for (i, (x, y, z)) in octants.into_iter().enumerate() {
        assert_eq!(hilbert3_key(x, y, z, 2), i as u64);
    }
    assert_eq!(hilbert3_key(3, 1, 2, 4), 50);
    assert_eq!(hilbert3_key(1, 2, 3, 8), 20);
    assert_eq!(hilbert3_key(5, 5, 5, RES), 325);
    // Only the part of a coordinate that fits the grid counts.
    assert_eq!(hilbert3_key(3 + 4, 1 + 8, 2 + 4, 4), 50);
}

/// Each cell has its own key below the number of cells, and cells with consecutive keys are
/// neighbours.
#[test]
fn the_curve_visits_each_cell_once() {
    for res in [2u32, 4, 8, 16] {
        let mut cells = vec![None; (res * res * res) as usize];
        for x in 0..res {
            for y in 0..res {
                for z in 0..res {
                    let cell = &mut cells[hilbert3_key(x, y, z, res) as usize];
                    assert!(cell.is_none());
                    *cell = Some((x, y, z));
                }
            }
        }
        let cells: Vec<(u32, u32, u32)> = cells.into_iter().flatten().collect();
        for pair in cells.windows(2) {
            let (a, b) = (pair[0], pair[1]);
            let steps = a.0.abs_diff(b.0) + a.1.abs_diff(b.1) + a.2.abs_diff(b.2);
            assert_eq!(steps, 1);
        }
    }
}

#[test]
fn equal_cells_keep_their_order() {
    let cells = vec![(5, 5, 5), (0, 0, 0), (5, 5, 5), (0, 0, 0)];
    assert_eq!(hilbert_order(&cells), vec![1, 3, 0, 2]);
}

#[test]
fn a_lock_is_taken_once() {
    let mut grid = LockGrid::new(4);
    let c = grid.idx((1, 2, 3));
    assert_eq!(c, 16 + 8 + 3);
    assert!(grid.try_lock(c));
    assert!(!grid.try_lock(c));
    grid.unlock(c);
    assert!(grid.try_lock(c));
}

#[test]
fn blocks_are_cut_at_the_border() {
    let grid = LockGrid::new(4);
    assert_eq!(grid.block((0, 0, 0)).len(), 8);
    assert_eq!(grid.block((1, 1, 1)).len(), 27);
    assert_eq!(grid.block((3, 1, 0)).len(), 12);
    let block = grid.block((0, 0, 3));
    assert_eq!(block, vec![2, 3, 6, 7, 18, 19, 22, 23]);
}

/// A hub inside a shell of points has many tets. Where each later point, close to it, takes its
/// place and all its tets, each insertion makes as many tets anew, and the arena fills up.
#[test]
fn a_full_arena_is_reported() {
    let mut points = random_points(600, 11);
    for (i, p) in points.iter_mut().enumerate() {
        *p = if i % 8 == 0 { p.normalize_or_zero() } else { *p * 1e-3 };
    }
    points[0] = glam::Vec3::ZERO;
    let order: Vec<u32> = (0..600).collect();
    let takes_the_hub = |v: [u32; 4], p: u32| {
        let hub = if p % 8 == 1 && p > 1 { p - 2 } else { p.saturating_sub(1) };
        if p % 8 == 0 {
            None
        } else {
            Some(v.contains(&hub))
        }
    };
    let r = triangulate_in(&points, order, takes_the_hub);
    assert!(matches!(r, Err(InsertError::ArenaFull)));
}

/// Without a live tet there is nothing to insert into.
#[test]
fn an_empty_arena_has_no_tet() {
    let mut arena = Arena { n_real: 1, tets: vec![], cap: 96 };
    let r = serial_insert(
        &mut arena,
        0,
        0,
        &|_: [u32; 4], _: usize, _: Site| false,
        &|_: [u32; 4], _: u32| true,
        &|_: [u32; 4], _: Site| 0i64,
        &|_: Place, _: u32| (0u32, 0u32, 0u32),
        &mut Scratch::new(),
    );
    assert!(matches!(r, Err(InsertError::NoTet)));
    assert!(arena.tets.is_empty());
}

/// One point in the bounding tet: the tet dies and four take its place, linked to each other.
#[test]
fn one_insertion_makes_four_tets() {
    let v = [INF0, INF0 + 1, INF0 + 2, INF0 + 3];
    let first = Tet { verts: v, neighbors: [INF_NONE; 4], alive: true };
    let mut arena = Arena { n_real: 1, tets: vec![first], cap: 96 };
    let r = serial_insert(
        &mut arena,
        0,
        0,
        &|_: [u32; 4], _: usize, _: Site| false,
        &|_: [u32; 4], _: u32| true,
        &|_: [u32; 4], _: Site| 0i64,
        &|_: Place, _: u32| (0u32, 0u32, 0u32),
        &mut Scratch::new(),
    );
    assert!(matches!(r, Ok(4)));
    assert_eq!(arena.tets.len(), 5);
    assert!(!arena.tets[0].alive);
    for t in 1..5usize {
        assert!(arena.tets[t].alive);
        for slot in 0..4 {
            let nb = arena.tets[t].neighbors[slot];
            if arena.tets[t].verts[slot] == 0 {
                assert_eq!(nb, INF_NONE, "the face without the point is the hull");
            } else {
                assert!(arena.tets[nb as usize].neighbors.contains(&(t as u32)));
            }
        }
    }
}

/// Whatever the sphere test answers, a face with nothing behind it is one of the bounding tet, and
/// no tet behind a wall of the cavity has the point in its sphere.
#[test]
fn insertions_leave_no_holes() {
    let v = [INF0, INF0 + 1, INF0 + 2, INF0 + 3];
    let first = Tet { verts: v, neighbors: [INF_NONE; 4], alive: true };
    let mut arena = Arena { n_real: 40, tets: vec![first], cap: 4096 };
    let inside = |v: [u32; 4], p: u32| {
        let mut h = p.wrapping_mul(0x9e37_79b9);
        for x in v {
            h = (h ^ x).wrapping_mul(0x85eb_ca6b);
        }
        (h >> 16) % 3 == 0
    };
    let mut scratch = Scratch::new();
    let mut hint = 0;
    for pid in 0..40 {
        hint = serial_insert(
            &mut arena,
            pid,
            hint,
            &|_: [u32; 4], _: usize, _: Site| false,
            &inside,
            &|_: [u32; 4], _: Site| 0i64,
            &|_: Place, _: u32| (0u32, 0u32, 0u32),
            &mut scratch,
        )
        .unwrap();
        for tet in arena.tets.iter().filter(|t| t.alive) {
            for slot in 0..4 {
                if tet.neighbors[slot] == INF_NONE {
                    for k in (0..4).filter(|k| *k != slot) {
                        assert!(is_virtual(tet.verts[k]));
                    }
                } else if tet.verts[slot] == pid {
                    assert!(!inside(arena.tets[tet.neighbors[slot] as usize].verts, pid));
                }
            }
        }
    }
}

/// The bounding tet split by point 0 into four. Which of them point 1 goes into is told by the
/// tet that dies, for no sphere but that one's is taken to hold it.
fn split_by(hint: u32, beyond: impl Fn([u32; 4], usize) -> bool) -> Vec<Tet> {
    let v = [INF0, INF0 + 1, INF0 + 2, INF0 + 3];
    let first = Tet { verts: v, neighbors: [INF_NONE; 4], alive: true };
    let mut arena = Arena { n_real: 2, tets: vec![first], cap: 96 };
    let lacks_last = |v: [u32; 4]| !v.contains(&(INF0 + 3));
    for pid in 0..2 {
        let r = serial_insert(
            &mut arena,
            pid,
            if pid == 0 { 0 } else { hint },
            &|v: [u32; 4], slot: usize, _: Site| pid == 1 && beyond(v, slot),
            &|_: [u32; 4], _: u32| false,
            &|v: [u32; 4], _: Site| if lacks_last(v) { -1i64 } else { -2 },
            &|_: Place, _: u32| (0u32, 0u32, 0u32),
            &mut Scratch::new(),
        );
        assert!(r.is_ok());
    }
    arena.tets[1..5].iter().filter(|t| !t.alive).copied().collect()
}

/// From every tet the walk leads to the one that the point is in, and where it leads nowhere the
/// scan finds it.
#[test]
fn points_go_where_the_search_for_them_ends() {
    for hint in 1..5 {
        let dead = split_by(hint, |v, slot| v[slot] == INF0 + 3);
        assert_eq!(dead.len(), 1);
        assert!(!dead[0].verts.contains(&(INF0 + 3)));
        let dead = split_by(hint, |_, _| true);
        assert_eq!(dead.len(), 1);
        assert!(!dead[0].verts.contains(&(INF0 + 3)));
        // A point that every tet holds goes into the one that the walk starts from.
        let dead = split_by(hint, |_, _| false);
        assert_eq!(dead.len(), 1);
        assert_eq!(dead[0].verts.contains(&(INF0 + 3)), {
            let other = split_by(hint, |v, slot| v[slot] == INF0 + 3);
            other[0].verts != dead[0].verts
        });
    }
}
