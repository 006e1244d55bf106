//! Bounding boxes.

use crate::float::{self, F32};
use crate::mesh::Vec3;
use vstd::prelude::*;

verus! {

/// The bits of negative infinity.
pub const NEG_INF_BITS: u32 = 0xFF800000;

pub open spec fn coordinate(p: Vec3, axis: int) -> F32 {
    if axis == 0 {
        p.x
    } else if axis == 1 {
        p.y
    } else {
        p.z
    }
}

/// The smallest of the first `n` coordinates that is a number, or infinity. Of equal ones it
/// is the first.
pub open spec fn lowest(points: Seq<Vec3>, axis: int, n: int) -> F32
    decreases n,
{
    if n <= 0 {
        F32 { bits: float::INF_BITS }
    } else {
        let before = lowest(points, axis, n - 1);
        let x = coordinate(points[n - 1], axis);
        if x.spec_lt(before) {
            x
        } else {
            before
        }
    }
}

/// The largest of the first `n` coordinates that is a number, or negative infinity. Of equal
/// ones it is the first.
pub open spec fn highest(points: Seq<Vec3>, axis: int, n: int) -> F32
    decreases n,
{
    if n <= 0 {
        F32 { bits: NEG_INF_BITS }
    } else {
        let before = highest(points, axis, n - 1);
        let x = coordinate(points[n - 1], axis);
        if before.spec_lt(x) {
            x
        } else {
            before
        }
    }
}

/// Every coordinate that is a number lies between the two bounds.
pub proof fn bounds_hold_every_point(points: Seq<Vec3>, axis: int, n: int, i: int)
    requires
        0 <= i < n <= points.len(),
        !coordinate(points[i], axis).nan(),
    ensures
        lowest(points, axis, n).spec_le(coordinate(points[i], axis)),
        coordinate(points[i], axis).spec_le(highest(points, axis, n)),
    decreases n,
{
    bounds_are_numbers(points, axis, n);
    bounds_are_numbers(points, axis, n - 1);
    if i < n - 1 {
        bounds_hold_every_point(points, axis, n - 1, i);
    }
}

proof fn bounds_are_numbers(points: Seq<Vec3>, axis: int, n: int)
    ensures
        !lowest(points, axis, n).nan(),
        !highest(points, axis, n).nan(),
    decreases n,
{
    if n > 0 {
        bounds_are_numbers(points, axis, n - 1);
    }
}

/// The lower and upper corner of the box around the points. Coordinates that are no number
/// are left out.
pub fn bbox(points: &Vec<Vec3>) -> (r: (Vec3, Vec3))
    ensures
        forall|axis: int|
            0 <= axis < 3 ==> #[trigger] coordinate(r.0, axis) == lowest(
                points@,
                axis,
                points@.len() as int,
            ) && coordinate(r.1, axis) == highest(points@, axis, points@.len() as int),
{
    let top = F32::from_bits(float::INF_BITS);
    let bottom = F32::from_bits(NEG_INF_BITS);
    let mut lo = Vec3 { x: top, y: top, z: top };
    let mut hi = Vec3 { x: bottom, y: bottom, z: bottom };
    for i in 0..points.len()
        invariant
            lo.x == lowest(points@, 0, i as int),
            lo.y == lowest(points@, 1, i as int),
            lo.z == lowest(points@, 2, i as int),
            hi.x == highest(points@, 0, i as int),
            hi.y == highest(points@, 1, i as int),
            hi.z == highest(points@, 2, i as int),
    {
        let p = points[i];
        if p.x.lt(lo.x) {
            lo.x = p.x;
        }
        if p.y.lt(lo.y) {
            lo.y = p.y;
        }
        if p.z.lt(lo.z) {
            lo.z = p.z;
        }
        if hi.x.lt(p.x) {
            hi.x = p.x;
        }
        if hi.y.lt(p.y) {
            hi.y = p.y;
        }
        if hi.z.lt(p.z) {
            hi.z = p.z;
        }
    }
    (lo, hi)
}

/// `p` lies in the box from `lo` to `hi`.
pub open spec fn in_box(p: Vec3, lo: Vec3, hi: Vec3) -> bool {
    &&& lo.x.spec_le(p.x)
    &&& p.x.spec_le(hi.x)
    &&& lo.y.spec_le(p.y)
    &&& p.y.spec_le(hi.y)
    &&& lo.z.spec_le(p.z)
    &&& p.z.spec_le(hi.z)
}

/// Which points lie in a box.
pub fn inside(points: &Vec<Vec3>, lo: Vec3, hi: Vec3) -> (r: Vec<bool>)
    ensures
        r@ == Seq::new(points@.len(), |i: int| in_box(points@[i], lo, hi)),
{
    let mut r: Vec<bool> = Vec::new();
    for i in 0..points.len()
        invariant
            r@ =~= Seq::new(i as nat, |k: int| in_box(points@[k], lo, hi)),
    {
        let p = points[i];
        r.push(
            lo.x.le(p.x) && p.x.le(hi.x) && lo.y.le(p.y) && p.y.le(hi.y) && lo.z.le(p.z) && p.z.le(
                hi.z,
            ),
        );
    }
    r
}

/// Each bound is the coordinate of a point, unless no point has one that is below infinity.
pub proof fn bounds_are_tight(points: Seq<Vec3>, axis: int, n: int)
    requires
        0 <= n <= points.len(),
    ensures
        ({
            ||| exists|i: int| 0 <= i < n && #[trigger] coordinate(points[i], axis) == lowest(points, axis, n)
            ||| lowest(points, axis, n).bits == float::INF_BITS
        }),
        ({
            ||| exists|i: int| 0 <= i < n && #[trigger] coordinate(points[i], axis) == highest(points, axis, n)
            ||| highest(points, axis, n).bits == NEG_INF_BITS
        }),
    decreases n,
{
    if n > 0 {
        bounds_are_tight(points, axis, n - 1);
        let x = coordinate(points[n - 1], axis);
        if lowest(points, axis, n - 1).bits != float::INF_BITS {
            let i = choose|i: int|
                0 <= i < n - 1 && #[trigger] coordinate(points[i], axis) == lowest(points, axis, n - 1);
            assert(coordinate(points[i], axis) == lowest(points, axis, n - 1));
        }
        if highest(points, axis, n - 1).bits != NEG_INF_BITS {
            let i = choose|i: int|
                0 <= i < n - 1 && #[trigger] coordinate(points[i], axis) == highest(points, axis, n - 1);
            assert(coordinate(points[i], axis) == highest(points, axis, n - 1));
        }
    }
}

/// A point lies in a box if and only if none of its coordinates is outside: each is a number that
/// is not below the lower corner's nor above the upper corner's.
pub proof fn a_box_bounds_each_coordinate(p: Vec3, lo: Vec3, hi: Vec3)
    ensures
        in_box(p, lo, hi) <==> forall|axis: int|
            0 <= axis < 3 ==> {
                let (x, a, b) = (#[trigger] coordinate(p, axis), coordinate(lo, axis), coordinate(hi, axis));
                !x.nan() && !a.nan() && !b.nan() && a.rank() <= x.rank() <= b.rank()
            },
{
    if forall|axis: int|
        0 <= axis < 3 ==> {
            let (x, a, b) = (#[trigger] coordinate(p, axis), coordinate(lo, axis), coordinate(hi, axis));
            !x.nan() && !a.nan() && !b.nan() && a.rank() <= x.rank() <= b.rank()
        } {
        assert(coordinate(p, 0) == p.x && coordinate(p, 1) == p.y && coordinate(p, 2) == p.z);
    }
}

/// The coordinates of a point are its fields.
pub proof fn coordinates_are_the_fields(p: Vec3)
    ensures
        coordinate(p, 0) == p.x,
        coordinate(p, 1) == p.y,
        coordinate(p, 2) == p.z,
{
}

} // verus!
