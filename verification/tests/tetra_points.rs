//! Seed points of the tetrahedralization, crossings and their refinement.

use brush_mesh::extract::TetraPointsConfig;
use brush_mesh::float::F32;
use brush_mesh::marching_tet::Crossing;
use brush_mesh::mesh::Vec3;
use brush_mesh::refine::{Bracket, RefineState, N_STEPS};
use brush_mesh::tetra_points::{
    build_tetra_points, in_frustum, point_in_any_frustum, FrustumRange, TetraPoints,
};

const SIGMA_SCALE: f32 = 4.0;

fn f(x: f32) -> F32 {
    F32::from_bits(x.to_bits())
}

fn g(x: F32) -> f32 {
    f32::from_bits(x.bits)
}

fn from_glam(v: glam::Vec3) -> Vec3 {
    Vec3 { x: f(v.x), y: f(v.y), z: f(v.z) }
}

fn to_glam(v: Vec3) -> glam::Vec3 {
    glam::Vec3::new(g(v.x), g(v.y), g(v.z))
}

/// Seeds of one Gaussian, seen by a camera at `pos` that looks along z with a right angle of view
/// onto 256 pixels each way.
fn seeds(pos: glam::Vec3, mean: glam::Vec3, log_scale: f32, cfg: &TetraPointsConfig) -> TetraPoints {
    let (w, fx, cx) = (256.0f32, 128.0f32, 128.0f32);
    let m = g(cfg.frustum_margin);
    let range = FrustumRange {
        near: cfg.near,
        far: cfg.far,
        min_x: f(-m * w),
        max_x: f((1.0 + m) * w),
        min_y: f(-m * w),
        max_y: f((1.0 + m) * w),
    };
    let half = log_scale.exp() * SIGMA_SCALE;
    let point = |_: usize, k: usize| {
        let mut d = glam::Vec3::ZERO;
        if k < 6 {
            d[k / 2] = if k % 2 == 0 { half } else { -half };
        }
        from_glam(mean + d)
    };
    let sees = |_: usize, p: Vec3| {
        let c = to_glam(p) - pos;
        in_frustum(range, f(c.z), f(c.x / c.z * fx + cx), f(c.y / c.z * fx + cx))
    };
    build_tetra_points(1, point, |_: usize| f(half), 1, sees)
}

#[test]
fn emits_expected_seeds_per_gaussian_when_visible() {
    let region = TetraPointsConfig {
        far: f(5.0),
        frustum_margin: f(0.0),
        ..TetraPointsConfig::default()
    };
    let out = seeds(glam::Vec3::new(0.0, 0.0, -3.0), glam::Vec3::ZERO, -2.0, &region);
    assert_eq!(out.points.len(), 7, "octahedron: 6 axis points + center");
    let s = (-2.0f32).exp() * SIGMA_SCALE;
    for sc in &out.scales {
        assert!((g(*sc) - s).abs() < 1e-6, "stored scale is 3 sigma max axis");
    }
}

#[test]
fn cull_drops_far_points() {
    let cfg = TetraPointsConfig { far: f(100.0), ..TetraPointsConfig::default() };
    let out = seeds(glam::Vec3::ZERO, glam::Vec3::new(0.0, 0.0, 1.0e10), -2.0, &cfg);
    assert!(out.points.is_empty());
}

#[test]
fn the_default_region_is_the_subject() {
    let cfg = TetraPointsConfig::default();
    assert_eq!((g(cfg.near), g(cfg.far), g(cfg.frustum_margin)), (0.2, 2.5, -0.1));
}

#[test]
fn frustum_bounds_are_as_stated() {
    let r = FrustumRange {
        near: f(1.0),
        far: f(2.0),
        min_x: f(0.0),
        max_x: f(4.0),
        min_y: f(0.0),
        max_y: f(4.0),
    };
    assert!(in_frustum(r, f(1.5), f(0.0), f(4.0)));
    assert!(!in_frustum(r, f(1.0), f(0.0), f(4.0)), "depth bounds are left out");
    assert!(!in_frustum(r, f(2.0), f(0.0), f(4.0)));
    assert!(!in_frustum(r, f(f32::NAN), f(0.0), f(4.0)));
    assert!(!in_frustum(r, f(1.5), f(4.1), f(4.0)));
}

#[test]
fn one_view_is_enough() {
    let p = from_glam(glam::Vec3::ZERO);
    assert!(point_in_any_frustum(3, p, &|v: usize, _: Vec3| v == 2));
    assert!(!point_in_any_frustum(3, p, &|v: usize, _: Vec3| v == 3));
    assert!(!point_in_any_frustum(0, p, &|_: usize, _: Vec3| true));
}

fn midpoint(a: Vec3, b: Vec3) -> Vec3 {
    from_glam((to_glam(a) + to_glam(b)) * 0.5)
}

/// Bisection of a linear field: each round halves the bracket around the crossing.
#[test]
fn bisection_closes_in_on_the_crossing() {
    let positions = vec![from_glam(glam::Vec3::ZERO), from_glam(glam::Vec3::X * 16.0)];
    let field = |p: glam::Vec3| p.x - 5.0;
    let sdf = vec![f(-5.0), f(11.0)];
    let mut state = RefineState::new(&vec![Crossing { a: 0, b: 1 }], &positions, &sdf);
    assert_eq!(state.n_crossings(), 1);
    for _ in 0..N_STEPS {
        let mid = state.compute_midpoints(midpoint);
        let at: Vec<F32> = mid.iter().map(|m| f(field(to_glam(*m)))).collect();
        state.update_bracket(&mid, &at);
    }
    let b = &state.brackets[0];
    assert_eq!((g(b.left.x), g(b.right.x)), (4.0, 5.0));
    let end = state.finish(|b: Bracket| {
        let (l, r) = (g(b.left_sdf), g(b.right_sdf));
        from_glam(to_glam(b.left).lerp(to_glam(b.right), l / (l - r)))
    });
    assert_eq!(g(end[0].x), 5.0);
}
