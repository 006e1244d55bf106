//! Tiles, the replay of splats over pixels, light along rays and the search for the surface.

use brush_mesh::bake::{bilinear_corners, pack_normal, unpack_bytes, unpack_normal};
use brush_mesh::carve::{Action, Carving, Stage};
use brush_mesh::float::F32;
use brush_mesh::integrate::{integrate_tile, integrate_view, tile_lists, TILE_SIZE};
use brush_mesh::mesh::Vec3;
use brush_mesh::refine::{Bracket, N_STEPS};
use brush_mesh::render::fields::{cell_errors, interior_covered, ray_grid};
use brush_mesh::render::geo::pack_rgba;
use brush_mesh::render::replay::replay;
use brush_mesh::render::scatter::{refine_weight, scatter_gradients, COLOUR_LANES, MAX_REFINE_BITS};
use brush_mesh::render::tiles::{tile_origin, tile_pixels};
use brush_mesh::tetra_points::TetraPoints;

fn f(x: f32) -> F32 {
    F32::from_bits(x.to_bits())
}

fn g(x: F32) -> f32 {
    f32::from_bits(x.bits)
}

fn vec3(x: f32, y: f32, z: f32) -> Vec3 {
    Vec3 { x: f(x), y: f(y), z: f(z) }
}

/// A step that tells orders apart.
fn mix(state: u64, grad: u64, s: usize, p: usize) -> (u64, u64) {
    let both = state.wrapping_mul(31).wrapping_add(grad);
    (both.wrapping_add(s as u64 + 1), both.wrapping_mul(17).wrapping_add(p as u64))
}

/// Lockstep gives what a splat after the other gives, over several batches.
#[test]
fn lockstep_makes_no_difference() {
    for (n_splats, n_pixels) in [(70, 5), (3, 256), (32, 32), (1, 1), (0, 4), (40, 0)] {
        let init: Vec<u64> = (0..n_pixels as u64).map(|p| p * p + 3).collect();
        let mut states = init.clone();
        let mut grads = vec![1u64; n_splats];
        for s in 0..n_splats {
            for p in 0..n_pixels {
                (states[p], grads[s]) = mix(states[p], grads[s], s, p);
            }
        }
        assert_eq!(replay(&init, 1, n_splats, mix), (states, grads));
    }
}

#[test]
fn tiles_hold_their_pixels() {
    assert_eq!(tile_origin(5, 4), (16, 16));
    // Two by two tiles over twenty by eighteen pixels.
    let mut seen = vec![0; 20 * 18];
    for tile in 0..4 {
        let pixels = tile_pixels(tile, 2, 20, 18);
        assert_eq!(pixels.len(), 256);
        for p in pixels.into_iter().flatten() {
            seen[p as usize] += 1;
        }
    }
    assert!(seen.iter().all(|&n| n == 1), "every pixel is in one tile");
    assert_eq!(tile_pixels(3, 2, 20, 18)[17], Some(17 * 20 + 17));
    assert_eq!(tile_pixels(3, 2, 20, 18)[4], None);
}

#[test]
fn light_stops_when_it_is_spent() {
    let asked = std::cell::RefCell::new(Vec::new());
    let tenth = |v: usize, gaussian: u32, t: F32| {
        asked.borrow_mut().push((v, gaussian));
        f(g(t) * 0.1)
    };
    let left = integrate_tile(&vec![7], &(0..10).collect(), &tenth);
    // After five Gaussians less than a ten-thousandth is left, give or take rounding.
    assert!(g(left[0]) < 1e-4);
    assert!(asked.borrow().len() < 10);
    assert_eq!(asked.borrow()[0], (7, 0));
    let all = integrate_tile(&vec![7, 8], &vec![], &|_: usize, _: u32, _: F32| f(0.0));
    assert_eq!(all.iter().map(|&t| g(t)).collect::<Vec<f32>>(), vec![1.0, 1.0]);
}

#[test]
fn gaussians_are_passed_in_order_over_batches() {
    let order = |v: usize, gaussian: u32, t: F32| f(g(t) + (gaussian * (v as u32 + 1)) as f32);
    let gaussians: Vec<u32> = (0..600).collect();
    let left = integrate_tile(&vec![0, 1], &gaussians, &order);
    let sum = (0..600).sum::<u32>() as f32;
    assert_eq!((g(left[0]), g(left[1])), (1.0 + sum, 1.0 + 2.0 * sum));
}

#[test]
fn views_lower_the_opacity_of_their_vertices() {
    // Tile 0 has Gaussians 5 and 6, tile 1 none. Vertex 2 is in no tile.
    let lists = tile_lists(&vec![0, 1, 1], &vec![0, 2, 3, 3], &vec![5, 6]);
    assert_eq!(lists, vec![vec![5, 6], vec![]]);
    let mut min_alpha = vec![f(f32::INFINITY), f(0.5), f(f32::INFINITY), f(0.25)];
    let half = |_: usize, _: u32, t: F32| f(g(t) * 0.5);
    integrate_view(&mut min_alpha, &vec![0, 0, 2, 1], &lists, half, |t: F32| f(1.0 - g(t)));
    let got: Vec<f32> = min_alpha.iter().map(|&a| g(a)).collect();
    assert_eq!(got, vec![0.75, 0.5, f32::INFINITY, 0.0]);
}

#[test]
fn a_crowded_tile_looks_at_every_vertex() {
    let n = 2 * TILE_SIZE + 3;
    let mut min_alpha = vec![f(f32::INFINITY); n];
    let ids = vec![0; n];
    integrate_view(
        &mut min_alpha,
        &ids,
        &vec![vec![1, 2]],
        |v: usize, gaussian: u32, t: F32| f(g(t) - (gaussian * (v as u32 + 1)) as f32 / 8192.0),
        |t: F32| f(1.0 - g(t)),
    );
    for v in [0, TILE_SIZE - 1, TILE_SIZE, 2 * TILE_SIZE, n - 1] {
        assert_eq!(g(min_alpha[v]), 3.0 * (v as f32 + 1.0) / 8192.0);
    }
    assert!(min_alpha.iter().all(|&a| g(a) <= 1.0));
}

#[test]
fn packed_bytes_come_out_again() {
    assert_eq!(pack_normal([255, 1, 128]), 0x0080_01ff);
    assert_eq!(unpack_normal(0x0080_01ff), [127, -127, 0]);
    assert_eq!(unpack_bytes(pack_rgba([9, 8, 7])), [9, 8, 7]);
}

#[test]
fn samples_at_the_edge_repeat_pixels() {
    assert_eq!(bilinear_corners(1, 1, 4, 3), [5, 6, 9, 10]);
    assert_eq!(bilinear_corners(3, 2, 4, 3), [11, 11, 11, 11]);
}

fn seeds(n: usize) -> TetraPoints {
    let corners = [(0.0, 0.0, 0.0), (8.0, 0.0, 0.0), (0.0, 8.0, 0.0), (0.0, 0.0, 8.0)];
    TetraPoints {
        points: corners[..n].iter().map(|c| vec3(c.0, c.1, c.2)).collect(),
        scales: vec![f(3.0); n],
    }
}

fn midpoint(a: Vec3, b: Vec3) -> Vec3 {
    let m = |a: F32, b: F32| f((g(a) + g(b)) * 0.5);
    Vec3 { x: m(a.x, b.x), y: m(a.y, b.y), z: m(a.z, b.z) }
}

/// The surface of a ball of radius three around the origin, along the edges of one tet.
#[test]
fn searches_close_in_on_the_surface() {
    let field = |p: &Vec3| f((g(p.x) + g(p.y) + g(p.z)) - 3.0);
    let mut search = Carving::begin(seeds(4));
    let mut done = Vec::new();
    let mesh = loop {
        let action = search.next_action();
        done.push(action);
        match action {
            Action::Stop => panic!("there is a surface"),
            Action::Triangulate => {
                let sdf = search.seeds.points.iter().map(field).collect();
                search.march(&vec![[0, 1, 2, 3]], &sdf);
            }
            Action::Probe => {
                let mid = search.probes(midpoint);
                let sdf = mid.iter().map(field).collect();
                search.halve(&mid, &sdf);
            }
            Action::Place => {
                let place = |b: Bracket| {
                    let (l, r) = (g(b.left_sdf).abs(), g(b.right_sdf).abs());
                    let w = l / (l + r);
                    let at = |a: F32, b: F32| f(g(a) + (g(b) - g(a)) * w);
                    Vec3 {
                        x: at(b.left.x, b.right.x),
                        y: at(b.left.y, b.right.y),
                        z: at(b.left.z, b.right.z),
                    }
                };
                let short = |a: Vec3, b: Vec3, s: F32, t: F32| {
                    let d = (g(a.x) - g(b.x)).abs() + (g(a.y) - g(b.y)).abs();
                    d <= g(s) + g(t)
                };
                break search.place(place, short);
            }
        }
    };
    assert_eq!(done.len(), N_STEPS + 2);
    assert_eq!(mesh.0.faces.len(), 1);
    let xs: Vec<f32> = mesh.0.vertices.iter().map(|v| g(v.x) + g(v.y) + g(v.z)).collect();
    assert_eq!(xs, vec![3.0, 3.0, 3.0]);
    // The edge along z is short in the plane.
    assert_eq!(mesh.1, vec![false, false, true]);
}

#[test]
fn without_seeds_or_crossings_there_is_no_surface() {
    let few = Carving::begin(seeds(3));
    assert_eq!(few.stage, Stage::Empty);
    assert_eq!(few.next_action(), Action::Stop);
    let mut flat = Carving::begin(seeds(4));
    assert_eq!(flat.next_action(), Action::Triangulate);
    flat.march(&vec![[0, 1, 2, 3]], &vec![f(1.0); 4]);
    assert_eq!(flat.next_action(), Action::Stop);
    assert!(flat.crossings.is_empty());
}

#[test]
fn rays_are_cast_row_by_row() {
    let rays = ray_grid(3, 2, |x: u32, y: u32| vec3(x as f32, y as f32, 1.0));
    let got: Vec<(f32, f32)> = rays.iter().map(|r| (g(r.x), g(r.y))).collect();
    assert_eq!(got, vec![(0.0, 0.0), (1.0, 0.0), (2.0, 0.0), (0.0, 1.0), (1.0, 1.0), (2.0, 1.0)]);
}

#[test]
fn one_hole_uncovers_its_neighbours() {
    let mut covered = vec![true; 5 * 4];
    assert_eq!(interior_covered(&covered, 5, 4), vec![true; 3 * 2]);
    covered[5 + 1] = false;
    assert_eq!(
        interior_covered(&covered, 5, 4),
        vec![false, false, true, false, true, true]
    );
    assert!(interior_covered(&vec![true; 6], 2, 3).is_empty());
}

#[test]
fn depth_samples_take_their_best_pixel() {
    // Two by one samples with blocks of two by two pixels.
    let errors: Vec<F32> = [5.0, 3.0, 9.0, 9.0, 4.0, 1.0, 9.0, 9.0].iter().map(|&e| f(e)).collect();
    let covered = vec![true, true, false, false, true, false, false, false];
    let r = cell_errors(&errors, &covered, (2, 1), 2, 2);
    assert_eq!(r.iter().map(|e| e.map(g)).collect::<Vec<Option<f32>>>(), vec![Some(3.0), None]);
}

#[test]
fn gradients_land_on_their_splats() {
    // Visible splats 0 and 1 are splats 2 and 0; the second has no gradient.
    let mut grads = vec![f(0.0); 2 * COLOUR_LANES];
    grads[3] = f(1.0);
    grads[COLOUR_LANES] = f(-0.0);
    let r = scatter_gradients(&grads, COLOUR_LANES, &vec![2, 0], 3, 0, |v: usize, s: u32| {
        10 * v as u32 + s
    });
    assert_eq!(r, vec![0, 0, 2]);
}

#[test]
fn weights_for_refinement_are_kept_in_range() {
    for (sum, weight) in [
        (0.25, 0.25),
        (-3.0, 0.0),
        (f32::NAN, 0.0),
        (f32::INFINITY, 0.0),
        (f32::NEG_INFINITY, 0.0),
        (1.0e32, 1.0e32),
        (f32::MAX, 1.0e32),
    ] {
        assert_eq!(g(refine_weight(f(sum))), weight);
    }
    assert_eq!(MAX_REFINE_BITS, 1.0e32f32.to_bits());
}
