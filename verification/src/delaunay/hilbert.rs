//! Insertion order along a Hilbert curve.

use rayon::slice::ParallelSliceMut;
use vstd::prelude::*;

verus! {

/// Cells along each axis of the grid that points are ordered on.
pub const RES: u32 = 0x20_0000;

/// Bits of [`RES`].
pub const RES_BITS: u32 = 21;

/// `b` powers of eight multiplied.
pub open spec fn pow8(b: nat) -> nat
    decreases b,
{
    if b == 0 {
        1
    } else {
        8 * pow8((b - 1) as nat)
    }
}

/// Cells along each axis of a grid of `b` levels: `b` powers of two multiplied.
pub open spec fn side(b: nat) -> nat
    decreases b,
{
    if b == 0 {
        1
    } else {
        2 * side((b - 1) as nat)
    }
}

/// `v` lies in the upper half of an axis of `2 * n` cells.
pub open spec fn is_upper(v: int, n: nat) -> bool {
    v / (n as int) % 2 == 1
}

pub open spec fn bit(b: bool) -> int {
    if b {
        1
    } else {
        0
    }
}

/// The place along the curve of the octant that `c` lies in: the halves of `z`, `y` and `x`
/// are the Gray code of the place.
pub open spec fn octant_place(c: (int, int, int), n: nat) -> int {
    let (x, y, z) = (is_upper(c.0, n), is_upper(c.1, n), is_upper(c.2, n));
    4 * bit(z) + 2 * bit(z != y) + bit((z != y) != x)
}

/// `v` counted from the other end of `n` cells.
pub open spec fn mirrored(v: int, n: nat) -> int {
    n - 1 - v
}

/// The place of `c` in its octant of `n` cells along each axis, in the axes of the curve
/// through that octant: an axis of the lower half changes places with `z`, and one of the
/// upper half turns `z` around.
pub open spec fn oriented(c: (int, int, int), n: nat) -> (int, int, int) {
    let z = if is_upper(c.2, n) {
        mirrored(c.2 % (n as int), n)
    } else {
        c.2 % (n as int)
    };
    let (y, z) = if is_upper(c.1, n) {
        (c.1 % (n as int), mirrored(z, n))
    } else {
        (z, c.1 % (n as int))
    };
    if is_upper(c.0, n) {
        (c.0 % (n as int), y, mirrored(z, n))
    } else {
        (z, y, c.0 % (n as int))
    }
}

/// The place of cell `c` along the Hilbert curve of `b` levels. The curve goes through the
/// octants in the order of their places, and through each octant along a curve of one level
/// less; through every other octant backwards.
pub open spec fn curve_key(c: (int, int, int), b: nat) -> int
    decreases b,
{
    if b == 0 {
        0
    } else {
        let k = (b - 1) as nat;
        let within = curve_key(oriented(c, side(k)), k);
        octant_place(c, side(k)) * pow8(k) + if octant_place(c, side(k)) % 2 == 1 {
            pow8(k) - 1 - within
        } else {
            within
        }
    }
}

/// The key of cell `(x, y, z)` on a grid of two to the `bits` cells along each axis.
pub open spec fn hilbert_key(x: u32, y: u32, z: u32, bits: nat) -> int {
    curve_key((x as int, y as int, z as int), bits)
}

/// `c` is a cell of the grid of `b` levels.
pub open spec fn in_grid(c: (int, int, int), b: nat) -> bool {
    0 <= c.0 < side(b) && 0 <= c.1 < side(b) && 0 <= c.2 < side(b)
}

/// Cells from `a` to `c`, along the axes.
pub open spec fn steps_between(a: (int, int, int), c: (int, int, int)) -> int {
    distance(a.0, c.0) + distance(a.1, c.1) + distance(a.2, c.2)
}

pub open spec fn distance(u: int, v: int) -> int {
    if u <= v {
        v - u
    } else {
        u - v
    }
}

proof fn side_is_positive(b: nat)
    ensures
        side(b) > 0,
        pow8(b) > 0,
    decreases b,
{
    if b > 0 {
        side_is_positive((b - 1) as nat);
    }
}

/// The half and the rest of a coordinate of a grid of `2 * n` cells.
proof fn split_coordinate(v: int, n: nat)
    requires
        n > 0,
        0 <= v < 2 * n,
    ensures
        is_upper(v, n) == (v >= n),
        v % (n as int) == (if v >= n {
            v - n
        } else {
            v
        }),
        0 <= v % (n as int) < n,
{
    if v >= n {
        vstd::arithmetic::div_mod::lemma_fundamental_div_mod_converse(v, n as int, 1, v - n);
    } else {
        vstd::arithmetic::div_mod::lemma_fundamental_div_mod_converse(v, n as int, 0, v);
    }
}

/// The halves and the rests of a cell of the grid.
proof fn split_cell(c: (int, int, int), b: nat)
    requires
        b > 0,
        in_grid(c, b),
    ensures
        ({
            let n = side((b - 1) as nat);
            &&& n > 0
            &&& is_upper(c.0, n) == (c.0 >= n)
            &&& is_upper(c.1, n) == (c.1 >= n)
            &&& is_upper(c.2, n) == (c.2 >= n)
            &&& c.0 % (n as int) == c.0 - n * bit(c.0 >= n)
            &&& c.1 % (n as int) == c.1 - n * bit(c.1 >= n)
            &&& c.2 % (n as int) == c.2 - n * bit(c.2 >= n)
            &&& in_grid(oriented(c, n), (b - 1) as nat)
        }),
{
    let n = side((b - 1) as nat);
    side_is_positive((b - 1) as nat);
    split_coordinate(c.0, n);
    split_coordinate(c.1, n);
    split_coordinate(c.2, n);
    assert(n * 1 == n && n * 0 == 0);
}

/// Keys are numbers below the number of cells.
pub proof fn keys_are_in_range(c: (int, int, int), b: nat)
    ensures
        0 <= curve_key(c, b) < pow8(b),
    decreases b,
{
    if b > 0 {
        let k = (b - 1) as nat;
        let d = octant_place(c, side(k));
        keys_are_in_range(oriented(c, side(k)), k);
        let w = pow8(k) as int;
        assert(0 <= d * w <= 7 * w) by (nonlinear_arith)
            requires
                0 <= d <= 7,
                0 <= w,
        ;
    }
}

/// The octant and the key within it, from a key.
proof fn key_parts(c: (int, int, int), b: nat)
    requires
        b > 0,
    ensures
        ({
            let k = (b - 1) as nat;
            let d = octant_place(c, side(k));
            let within = curve_key(oriented(c, side(k)), k);
            let w = pow8(k) as int;
            &&& 0 <= d < 8
            &&& 0 <= within < w
            &&& curve_key(c, b) / w == d
            &&& curve_key(c, b) % w == (if d % 2 == 1 {
                w - 1 - within
            } else {
                within
            })
        }),
{
    let k = (b - 1) as nat;
    let d = octant_place(c, side(k));
    keys_are_in_range(oriented(c, side(k)), k);
    let within = curve_key(oriented(c, side(k)), k);
    let w = pow8(k) as int;
    let r = if d % 2 == 1 {
        w - 1 - within
    } else {
        within
    };
    vstd::arithmetic::div_mod::lemma_fundamental_div_mod_converse(curve_key(c, b), w, d, r);
}

/// A key names one cell: cells of the grid with the same key are the same.
pub proof fn keys_are_unique(a: (int, int, int), c: (int, int, int), b: nat)
    requires
        in_grid(a, b),
        in_grid(c, b),
        curve_key(a, b) == curve_key(c, b),
    ensures
        a == c,
    decreases b,
{
    if b > 0 {
        let k = (b - 1) as nat;
        let n = side(k);
        split_cell(a, b);
        split_cell(c, b);
        key_parts(a, b);
        key_parts(c, b);
        assert(octant_place(a, n) == octant_place(c, n));
        keys_are_unique(oriented(a, n), oriented(c, n), k);
        assert(is_upper(a.0, n) == is_upper(c.0, n));
        assert(is_upper(a.1, n) == is_upper(c.1, n));
        assert(is_upper(a.2, n) == is_upper(c.2, n));
        assert(a.0 % (n as int) == c.0 % (n as int));
        assert(a.1 % (n as int) == c.1 % (n as int));
        assert(a.2 % (n as int) == c.2 % (n as int));
    }
}

/// The same of [`hilbert_key`]: on a grid of `res` cells along each axis, different cells
/// have different keys.
pub proof fn hilbert_keys_are_unique(
    x: u32,
    y: u32,
    z: u32,
    u: u32,
    v: u32,
    w: u32,
    res: u32,
    b: nat,
)
    requires
        res == side(b),
        x < res && y < res && z < res,
        u < res && v < res && w < res,
        hilbert_key(x, y, z, b) == hilbert_key(u, v, w, b),
    ensures
        (x, y, z) == (u, v, w),
{
    keys_are_unique((x as int, y as int, z as int), (u as int, v as int, w as int), b);
}

/// Every number below the number of cells is the key of a cell.
pub proof fn every_key_has_a_cell(key: int, b: nat) -> (c: (int, int, int))
    requires
        0 <= key < pow8(b),
    ensures
        in_grid(c, b),
        curve_key(c, b) == key,
    decreases b,
{
    if b == 0 {
        (0, 0, 0)
    } else {
        let k = (b - 1) as nat;
        let n = side(k);
        let w = pow8(k) as int;
        side_is_positive(k);
        let d = key / w;
        let r = key % w;
        vstd::arithmetic::div_mod::lemma_fundamental_div_mod(key, w);
        assert(0 <= d < 8) by (nonlinear_arith)
            requires
                key == w * d + r,
                0 <= r < w,
                0 <= key < 8 * w,
        ;
        let o = every_key_has_a_cell(
            if d % 2 == 1 {
                w - 1 - r
            } else {
                r
            },
            k,
        );
        // The halves, from the Gray code.
        let hz = d >= 4;
        let hy = hz != (d / 2 % 2 == 1);
        let hx = (d / 2 % 2 == 1) != (d % 2 == 1);
        // The exchanges and turns, undone one by one.
        let (x, z) = if hx {
            (o.0, mirrored(o.2, n))
        } else {
            (o.2, o.0)
        };
        let (y, z) = if hy {
            (o.1, mirrored(z, n))
        } else {
            (z, o.1)
        };
        let z = if hz {
            mirrored(z, n)
        } else {
            z
        };
        let c = (
            if hx {
                x + n
            } else {
                x
            },
            if hy {
                y + n
            } else {
                y
            },
            if hz {
                z + n
            } else {
                z
            },
        );
        split_coordinate(c.0, n);
        split_coordinate(c.1, n);
        split_coordinate(c.2, n);
        assert(octant_place(c, n) == d);
        assert(oriented(c, n) == o);
        assert(w * d == d * w) by (nonlinear_arith);
        c
    }
}

/// The curve starts at one corner of the grid and ends at the next one along `z`.
pub proof fn ends_of_the_curve(b: nat)
    ensures
        in_grid((0, 0, 0), b),
        curve_key((0, 0, 0), b) == 0,
        in_grid((0, 0, side(b) - 1), b),
        curve_key((0, 0, side(b) - 1), b) == pow8(b) - 1,
    decreases b,
{
    side_is_positive(b);
    if b > 0 {
        let k = (b - 1) as nat;
        let n = side(k);
        ends_of_the_curve(k);
        split_coordinate(0, n);
        split_coordinate(side(b) - 1, n);
        assert(octant_place((0, 0, 0), n) == 0);
        assert(oriented((0, 0, 0), n) == (0int, 0int, 0int));
        assert(octant_place((0, 0, side(b) - 1), n) == 7);
        assert(oriented((0, 0, side(b) - 1), n) == (0int, 0int, 0int));
        assert(0 * pow8(k) == 0);
    }
}

/// Exchanging axes and turning them around keeps distances.
proof fn orienting_keeps_distances(a: (int, int, int), c: (int, int, int), b: nat)
    requires
        b > 0,
        in_grid(a, b),
        in_grid(c, b),
        octant_place(a, side((b - 1) as nat)) == octant_place(c, side((b - 1) as nat)),
    ensures
        steps_between(a, c) == steps_between(
            oriented(a, side((b - 1) as nat)),
            oriented(c, side((b - 1) as nat)),
        ),
{
    let n = side((b - 1) as nat);
    split_cell(a, b);
    split_cell(c, b);
    assert(is_upper(a.0, n) == is_upper(c.0, n));
    assert(is_upper(a.1, n) == is_upper(c.1, n));
    assert(is_upper(a.2, n) == is_upper(c.2, n));
    assert(distance(a.0, c.0) == distance(a.0 % (n as int), c.0 % (n as int)));
    assert(distance(a.1, c.1) == distance(a.1 % (n as int), c.1 % (n as int)));
    assert(distance(a.2, c.2) == distance(a.2 % (n as int), c.2 % (n as int)));
}

/// The curve never jumps: cells with consecutive keys are neighbours.
pub proof fn the_curve_never_jumps(a: (int, int, int), c: (int, int, int), b: nat)
    requires
        in_grid(a, b),
        in_grid(c, b),
        curve_key(c, b) == curve_key(a, b) + 1,
    ensures
        steps_between(a, c) == 1,
    decreases b,
{
    if b > 0 {
        let k = (b - 1) as nat;
        let n = side(k);
        let w = pow8(k) as int;
        let (p, q) = (octant_place(a, n), octant_place(c, n));
        let (oa, oc) = (oriented(a, n), oriented(c, n));
        split_cell(a, b);
        split_cell(c, b);
        key_parts(a, b);
        key_parts(c, b);
        let (ka, kc) = (curve_key(a, b), curve_key(c, b));
        vstd::arithmetic::div_mod::lemma_fundamental_div_mod(ka, w);
        vstd::arithmetic::div_mod::lemma_fundamental_div_mod(kc, w);
        let (ra, rc) = (ka % w, kc % w);
        if p == q {
            orienting_keeps_distances(a, c, b);
            if p % 2 == 1 {
                the_curve_never_jumps(oc, oa, k);
            } else {
                the_curve_never_jumps(oa, oc, k);
            }
        } else {
            assert(q == p + 1 && ra == w - 1 && rc == 0) by (nonlinear_arith)
                requires
                    w * q + rc == w * p + ra + 1,
                    0 <= ra < w,
                    0 <= rc < w,
                    p != q,
            ;
            ends_of_the_curve(k);
            let corner = if p % 2 == 1 {
                (0int, 0int, 0int)
            } else {
                (0int, 0int, n - 1)
            };
            keys_are_unique(oa, corner, k);
            keys_are_unique(oc, corner, k);
            octants_meet(a, c, b);
        }
    }
}

/// Octants that follow each other along the curve touch where one curve ends and the next
/// begins.
proof fn octants_meet(a: (int, int, int), c: (int, int, int), b: nat)
    requires
        b > 0,
        in_grid(a, b),
        in_grid(c, b),
        ({
            let n = side((b - 1) as nat);
            let p = octant_place(a, n);
            let corner = if p % 2 == 1 {
                (0int, 0int, 0int)
            } else {
                (0int, 0int, n - 1)
            };
            octant_place(c, n) == p + 1 && oriented(a, n) == corner && oriented(c, n) == corner
        }),
    ensures
        steps_between(a, c) == 1,
{
    split_cell(a, b);
    split_cell(c, b);
}

/// Only the part of a coordinate that fits the grid counts.
proof fn keys_wrap(x: u32, y: u32, z: u32, b: nat)
    ensures
        ({
            let m = side(b) as int;
            curve_key((x as int % m, y as int % m, z as int % m), b) == hilbert_key(x, y, z, b)
        }),
{
    if b > 0 {
        let k = (b - 1) as nat;
        let n = side(k);
        let m = side(b) as int;
        side_is_positive(k);
        wrapped_coordinate(x as int, n);
        wrapped_coordinate(y as int, n);
        wrapped_coordinate(z as int, n);
        assert(oriented((x as int % m, y as int % m, z as int % m), n) == oriented(
            (x as int, y as int, z as int),
            n,
        ));
    }
}

proof fn wrapped_coordinate(v: int, n: nat)
    requires
        n > 0,
        v >= 0,
    ensures
        is_upper(v % ((2 * n) as int), n) == is_upper(v, n),
        (v % ((2 * n) as int)) % (n as int) == v % (n as int),
{
    let m = n as int;
    let r = v % (2 * m);
    vstd::arithmetic::div_mod::lemma_mod_breakdown(v, m, 2);
    assert(m * 2 == 2 * m);
    let h = v / m % 2;
    assert(m * h == (if h == 1 {
        m
    } else {
        0
    })) by (nonlinear_arith)
        requires
            h == 0 || h == 1,
    ;
    split_coordinate(r, n);
}

/// Sides tell grids apart.
proof fn sides_differ(a: nat, b: nat)
    requires
        side(a) == side(b),
    ensures
        a == b,
    decreases a,
{
    if a > 0 {
        side_is_positive((a - 1) as nat);
    }
    if b > 0 {
        side_is_positive((b - 1) as nat);
    }
    if a > 0 && b > 0 {
        sides_differ((a - 1) as nat, (b - 1) as nat);
    }
}

/// One level of the curve: the digit of the octant, and the rest in the octant.
proof fn level_done(key: int, d: int, within: int, w: int, backwards: bool)
    requires
        0 <= d < 8,
    ensures
        ({
            let inner = if d % 2 == 1 {
                w - 1 - within
            } else {
                within
            };
            let digit = if backwards {
                7 - d
            } else {
                d
            };
            let rest = if backwards != (d % 2 == 1) {
                w - 1 - within
            } else {
                within
            };
            key * (8 * w) + (if backwards {
                8 * w - 1 - (d * w + inner)
            } else {
                d * w + inner
            }) == (key * 8 + digit) * w + rest
        }),
{
    assert(key * (8 * w) == (key * 8) * w) by (nonlinear_arith);
    assert((key * 8 + d) * w == (key * 8) * w + d * w) by (nonlinear_arith);
    assert((key * 8 + (7 - d)) * w == (key * 8) * w + 7 * w - d * w) by (nonlinear_arith);
}

/// 3D Hilbert curve index on a grid with `res` cells along each axis, where `res` is a
/// power of two. The result is below the number of cells. Level by level, the octant gives
/// a digit by its Gray code, and the axes are exchanged and turned for the curve within it.
pub fn hilbert3_key(x: u32, y: u32, z: u32, res: u32) -> (key: u64)
    requires
        exists|b: nat| 1 <= b <= RES_BITS && res == #[trigger] side(b),
    ensures
        forall|b: nat|
            1 <= b <= RES_BITS && res == #[trigger] side(b) ==> key == hilbert_key(x, y, z, b)
                && key < pow8(b),
{
    let ghost b = choose|b: nat| 1 <= b <= RES_BITS && res == #[trigger] side(b);
    let ghost all = hilbert_key(x, y, z, b);
    proof {
        side_is_positive(b);
        side_is_positive((b - 1) as nat);
        keys_wrap(x, y, z, b);
        pow8_bound(b);
    }
    let mut x: u32 = x % res;
    let mut y: u32 = y % res;
    let mut z: u32 = z % res;
    let mut half: u32 = res / 2;
    let mut key: u64 = 0;
    let mut backwards: bool = false;
    let ghost mut level: nat = b;
    while half > 0
        invariant
            level <= b <= RES_BITS,
            half == side(level) / 2,
            in_grid((x as int, y as int, z as int), level),
            0 <= key < pow8((b - level) as nat),
            all == key * pow8(level) + (if backwards {
                pow8(level) - 1 - curve_key((x as int, y as int, z as int), level)
            } else {
                curve_key((x as int, y as int, z as int), level)
            }),
        decreases half,
    {
        let ghost c = (x as int, y as int, z as int);
        let ghost k = (level - 1) as nat;
        let ghost key0 = key as int;
        let ghost backwards0 = backwards;
        proof {
            assert(level > 0);
            split_cell(c, level);
            key_parts(c, level);
            pow8_bound((b - level + 1) as nat);
        }
        let upper_x: bool = x >= half;
        let upper_y: bool = y >= half;
        let upper_z: bool = z >= half;
        let mut digit: u64 = 0;
        if upper_z {
            digit = digit + 4;
        }
        if upper_z != upper_y {
            digit = digit + 2;
        }
        let odd: bool = (upper_z != upper_y) != upper_x;
        if odd {
            digit = digit + 1;
        }
        let ghost d = digit as int;
        assert(d == octant_place(c, side(k)));
        if backwards {
            digit = 7 - digit;
        }
        key = key * 8 + digit;
        backwards = backwards != odd;
        if upper_z {
            z = half - 1 - (z - half);
        }
        if upper_y {
            y = y - half;
            z = half - 1 - z;
        } else {
            let t: u32 = y;
            y = z;
            z = t;
        }
        if upper_x {
            x = x - half;
            z = half - 1 - z;
        } else {
            let t: u32 = x;
            x = z;
            z = t;
        }
        proof {
            assert((x as int, y as int, z as int) == oriented(c, side(k)));
            level_done(key0, d, curve_key(oriented(c, side(k)), k), pow8(k) as int, backwards0);
            level = k;
        }
        half = half / 2;
    }
    proof {
        if level > 0 {
            side_is_positive((level - 1) as nat);
        }
        assert(key * 1 == key);
        assert forall|a: nat| 1 <= a <= RES_BITS && res == #[trigger] side(a) implies a == b by {
            sides_differ(a, b);
        }
    }
    key
}

proof fn pow8_bound(b: nat)
    requires
        b <= 21,
    ensures
        pow8(b) <= 0x8000_0000_0000_0000,
        b <= 20 ==> pow8(b) <= 0x1000_0000_0000_0000,
{
    reveal_with_fuel(pow8, 22);
    pow8_monotone(b, 21);
    if b <= 20 {
        pow8_monotone(b, 20);
    }
}

proof fn pow8_monotone(a: nat, b: nat)
    requires
        a <= b,
    ensures
        pow8(a) <= pow8(b),
    decreases b,
{
    if a < b {
        pow8_monotone(a, (b - 1) as nat);
    }
}

/// What id `i` is sorted by: its key, then itself.
fn sort_key(keys: &Vec<u64>, i: u32) -> (r: (u64, u32))
    requires
        i < keys@.len(),
    ensures
        r == (keys@[i as int], i),
{
    (keys[i as usize], i)
}

/// Calls `rayon::slice::ParallelSliceMut::par_sort_unstable_by_key` with `sort_key`: the ids
/// are rearranged so that their keys ascend; equal keys ascend by id.
#[verifier::external_body]
fn sort_by_keys(order: &mut Vec<u32>, keys: &Vec<u64>)
    requires
        forall|k: int| 0 <= k < old(order)@.len() ==> #[trigger] old(order)@[k] < keys@.len(),
    ensures
        final(order)@.to_multiset() == old(order)@.to_multiset(),
        ascends(final(order)@, keys@),
{
    order.par_sort_unstable_by_key(|i| sort_key(keys, *i));
}

/// The ids of `order` ascend by their key, and by id where keys are equal.
pub open spec fn ascends(order: Seq<u32>, keys: Seq<u64>) -> bool {
    forall|i: int, j: int|
        #![trigger order[i], order[j]]
        0 <= i < j < order.len() ==> {
            ||| keys[order[i] as int] < keys[order[j] as int]
            ||| keys[order[i] as int] == keys[order[j] as int] && order[i] <= order[j]
        }
}

/// `order` lists each id below `n` once.
pub open spec fn is_permutation(order: Seq<u32>, n: nat) -> bool {
    &&& order.len() == n
    &&& order.no_duplicates()
    &&& forall|k: int| 0 <= k < n ==> #[trigger] order[k] < n
    &&& forall|i: u32| i < n ==> #[trigger] order.contains(i)
}

/// Rearranging the ids below `n` gives a permutation.
proof fn rearranged_ids(a: Seq<u32>, b: Seq<u32>, n: nat)
    requires
        n <= u32::MAX,
        a.len() == n,
        forall|k: int| 0 <= k < n ==> #[trigger] a[k] == k,
        a.to_multiset() == b.to_multiset(),
    ensures
        is_permutation(b, n),
{
    assert(a.no_duplicates());
    a.lemma_multiset_has_no_duplicates();
    vstd::seq_lib::to_multiset_len(a);
    vstd::seq_lib::to_multiset_len(b);
    assert forall|i: u32| #[trigger] b.contains(i) <==> a.contains(i) by {
        vstd::seq_lib::to_multiset_contains(a, i);
        vstd::seq_lib::to_multiset_contains(b, i);
    }
    b.lemma_multiset_has_no_duplicates_conv();
    assert forall|k: int| 0 <= k < n implies #[trigger] b[k] < n by {
        assert(b.contains(b[k]));
        let j = a.index_of(b[k]);
        assert(a[j] == j);
    }
    assert forall|i: u32| i < n implies #[trigger] b.contains(i) by {
        assert(a[i as int] == i);
        assert(a.contains(i));
    }
}

/// The order in which the points are inserted: along the Hilbert curve through their
/// grid cells, equal keys by index.
pub fn hilbert_order(cells: &[(u32, u32, u32)]) -> (order: Vec<u32>)
    requires
        cells@.len() <= u32::MAX,
    ensures
        is_permutation(order@, cells@.len()),
        ascends(
            order@,
            Seq::new(
                cells@.len(),
                |i: int|
                    hilbert_key(cells@[i].0, cells@[i].1, cells@[i].2, RES_BITS as nat) as u64,
            ),
        ),
{
    let mut keys: Vec<u64> = Vec::new();
    let mut order: Vec<u32> = Vec::new();
    assert(RES == side(RES_BITS as nat)) by {
        reveal_with_fuel(side, 22);
    }
    for i in 0..cells.len()
        invariant
            cells@.len() <= u32::MAX,
            RES == side(RES_BITS as nat),
            keys@.len() == i,
            order@.len() == i,
            forall|k: int| 0 <= k < i ==> #[trigger] order@[k] == k,
            forall|k: int|
                0 <= k < i ==> #[trigger] keys@[k] == hilbert_key(
                    cells@[k].0,
                    cells@[k].1,
                    cells@[k].2,
                    RES_BITS as nat,
                ),
    {
        let (x, y, z) = cells[i];
        keys.push(hilbert3_key(x, y, z, RES));
        order.push(i as u32);
    }
    let ghost ids = order@;
    sort_by_keys(&mut order, &keys);
    proof {
        rearranged_ids(ids, order@, cells@.len());
        let all = Seq::new(
            cells@.len(),
            |i: int| hilbert_key(cells@[i].0, cells@[i].1, cells@[i].2, RES_BITS as nat) as u64,
        );
        assert(keys@ =~= all);
    }
    order
}

/// Points are inserted along the curve: a point does not come before one whose cell has a smaller
/// key, and of two in one cell the first comes first.
pub proof fn insertion_follows_the_curve(
    cells: Seq<(u32, u32, u32)>,
    order: Seq<u32>,
    a: int,
    b: int,
)
    requires
        is_permutation(order, cells.len()),
        ascends(
            order,
            Seq::new(
                cells.len(),
                |i: int| hilbert_key(cells[i].0, cells[i].1, cells[i].2, RES_BITS as nat) as u64,
            ),
        ),
        0 <= a < b < order.len(),
        forall|i: int|
            #![trigger cells[i]]
            0 <= i < cells.len() ==> cells[i].0 < side(RES_BITS as nat) && cells[i].1 < side(
                RES_BITS as nat,
            ) && cells[i].2 < side(RES_BITS as nat),
    ensures
        ({
            let (p, q) = (cells[order[a] as int], cells[order[b] as int]);
            let k = RES_BITS as nat;
            let (x, y) = (
                curve_key((p.0 as int, p.1 as int, p.2 as int), k),
                curve_key((q.0 as int, q.1 as int, q.2 as int), k),
            );
            &&& x <= y
            &&& p == q ==> order[a] < order[b]
            &&& p != q ==> x < y
        }),
{
    let (p, q) = (cells[order[a] as int], cells[order[b] as int]);
    let k = RES_BITS as nat;
    let (c, d) = ((p.0 as int, p.1 as int, p.2 as int), (q.0 as int, q.1 as int, q.2 as int));
    assert(order[a] < cells.len() && order[b] < cells.len());
    keys_are_in_range(c, k);
    keys_are_in_range(d, k);
    pow8_bound(k);
    if p != q && curve_key(c, k) == curve_key(d, k) {
        keys_are_unique(c, d, k);
    }
}

} // verus!
