//! What the triangulation asks of the geometry.
//!
//! Coordinates live with the caller. The triangulation asks it four questions,
//! each through a closure: whether a site lies beyond a face of a tet, whether a
//! point lies in the circumsphere of a tet, how near a site is to a tet, and which
//! grid cell a point or a tet falls into.

use vstd::prelude::*;

verus! {

/// A place in space that can be located: a point, or the centre of a cell of the
/// grid with `gdim` cells along each axis.
#[derive(Clone, Copy, Debug)]
pub enum Site {
    Point(u32),
    CellCentre((u32, u32, u32), u32),
}

/// What a grid cell can be asked for: a point, or the centroid of the real
/// vertices of a tet.
#[derive(Clone, Copy, Debug)]
pub enum Place {
    Point(u32),
    Centroid([u32; 4]),
}

/// `outside(verts, slot, site)` can be asked of everything and never answers both
/// yes and no.
pub open spec fn is_face_test<O: Fn([u32; 4], usize, Site) -> bool>(outside: O) -> bool {
    &&& forall|v: [u32; 4], slot: usize, q: Site| #[trigger] outside.requires((v, slot, q))
    &&& forall|v: [u32; 4], slot: usize, q: Site|
        !(#[trigger] outside.ensures((v, slot, q), true) && #[trigger] outside.ensures(
            (v, slot, q),
            false,
        ))
}

/// `inside(verts, pid)` can be asked of everything and never answers both yes and
/// no.
pub open spec fn is_sphere_test<I: Fn([u32; 4], u32) -> bool>(inside: I) -> bool {
    &&& forall|v: [u32; 4], p: u32| #[trigger] inside.requires((v, p))
    &&& forall|v: [u32; 4], p: u32|
        !(#[trigger] inside.ensures((v, p), true) && #[trigger] inside.ensures((v, p), false))
}

/// `nearness(verts, site)` can be asked of everything and gives one answer.
pub open spec fn is_nearness<R: Fn([u32; 4], Site) -> i64>(nearness: R) -> bool {
    &&& forall|v: [u32; 4], q: Site| #[trigger] nearness.requires((v, q))
    &&& forall|v: [u32; 4], q: Site, a: i64, b: i64|
        #[trigger] nearness.ensures((v, q), a) && #[trigger] nearness.ensures((v, q), b) ==> a == b
}

/// `cell(place, gdim)` can be asked of everything and gives one answer, which is a
/// cell of the grid.
pub open spec fn is_cell_map<C: Fn(Place, u32) -> (u32, u32, u32)>(cell: C) -> bool {
    &&& forall|p: Place, g: u32| g > 0 ==> #[trigger] cell.requires((p, g))
    &&& forall|p: Place, g: u32, a: (u32, u32, u32)| #[trigger]
        cell.ensures((p, g), a) ==> a.0 < g && a.1 < g && a.2 < g
    &&& forall|p: Place, g: u32, a: (u32, u32, u32), b: (u32, u32, u32)|
        #[trigger] cell.ensures((p, g), a) && #[trigger] cell.ensures((p, g), b) ==> a == b
}

} // verus!
