//! Per-pixel fields of a render, row by row: camera rays, the pixels that have all their
//! neighbours covered, and the error of each depth sample.

use crate::float::F32;
use crate::mesh::Vec3;
use vstd::prelude::*;

verus! {

/// Place of pixel `(x, y)` in a field of width `w`.
pub open spec fn at(x: int, y: int, w: int) -> int {
    y * w + x
}

proof fn place_in(x: int, y: int, w: int, h: int)
    requires
        0 <= x < w,
        0 <= y < h,
    ensures
        0 <= at(x, y, w) < w * h,
        0 <= y * w <= w * h - w,
{
    assert(0 <= y * w && y * w + x < w * h && y * w <= w * h - w) by (nonlinear_arith)
        requires
            0 <= x < w,
            0 <= y < h,
    ;
}

/// The camera ray of every pixel. `ray(x, y)` is that of pixel `(x, y)`.
pub fn ray_grid<R: Fn(u32, u32) -> Vec3>(w: u32, h: u32, ray: R) -> (r: Vec<Vec3>)
    requires
        w * h <= u32::MAX,
        forall|x: u32, y: u32| #[trigger] ray.requires((x, y)),
    ensures
        r@.len() == w * h,
        forall|x: u32, y: u32|
            x < w && y < h ==> ray.ensures((x, y), #[trigger] r@[at(x as int, y as int, w as int)]),
{
    let mut r: Vec<Vec3> = Vec::new();
    let n: u32 = w * h;
    for i in 0..n
        invariant
            n == w * h,
            r@.len() == i,
            forall|x: u32, y: u32| #[trigger] ray.requires((x, y)),
            forall|k: int|
                0 <= k < i ==> ray.ensures(
                    ((k % w as int) as u32, (k / w as int) as u32),
                    #[trigger] r@[k],
                ),
    {
        assert(w > 0) by (nonlinear_arith)
            requires
                i < w * h,
                w >= 0,
                h >= 0,
        ;
        r.push(ray(i % w, i / w));
    }
    proof {
        assert forall|x: u32, y: u32| x < w && y < h implies ray.ensures(
            (x, y),
            #[trigger] r@[at(x as int, y as int, w as int)],
        ) by {
            place_in(x as int, y as int, w as int, h as int);
            vstd::arithmetic::div_mod::lemma_fundamental_div_mod_converse(
                at(x as int, y as int, w as int),
                w as int,
                y as int,
                x as int,
            );
        }
    }
    r
}

/// Pixel `(x, y)` and its four neighbours are covered.
pub open spec fn stencil_covered(covered: Seq<bool>, w: int, x: int, y: int) -> bool {
    &&& covered[at(x, y, w)]
    &&& covered[at(x + 1, y, w)]
    &&& covered[at(x - 1, y, w)]
    &&& covered[at(x, y + 1, w)]
    &&& covered[at(x, y - 1, w)]
}

/// Which of the pixels that are not on the border have themselves and all four neighbours
/// covered. Only at these can the surface normal be told from the depth.
pub fn interior_covered(covered: &Vec<bool>, w: usize, h: usize) -> (r: Vec<bool>)
    requires
        w >= 2,
        h >= 2,
        covered@.len() == w * h,
    ensures
        r@.len() == (w - 2) * (h - 2),
        forall|x: int, y: int|
            0 <= x < w - 2 && 0 <= y < h - 2 ==> #[trigger] r@[at(x, y, w - 2)] == stencil_covered(
                covered@,
                w as int,
                x + 1,
                y + 1,
            ),
{
    let mut r: Vec<bool> = Vec::new();
    let ghost iw = w - 2;
    assert(forall|y: int| y == 1 ==> #[trigger] (iw * (y - 1)) == 0) by (nonlinear_arith);
    for y in 1..h - 1
        invariant
            w >= 2,
            h >= 2,
            iw == w - 2,
            covered@.len() == w * h,
            covered.len() == w * h,
            r@.len() == iw * (y - 1),
            forall|u: int, v: int|
                0 <= u < iw && 0 <= v < y - 1 ==> #[trigger] r@[at(u, v, iw)] == stencil_covered(
                    covered@,
                    w as int,
                    u + 1,
                    v + 1,
                ),
    {
        for x in 1..w - 1
            invariant
                w >= 2,
                h >= 2,
                iw == w - 2,
                1 <= y < h - 1,
                covered@.len() == w * h,
                covered.len() == w * h,
                r@.len() == iw * (y - 1) + (x - 1),
                forall|u: int, v: int|
                    0 <= u < iw && 0 <= v < y - 1 ==> #[trigger] r@[at(u, v, iw)]
                        == stencil_covered(covered@, w as int, u + 1, v + 1),
                forall|u: int|
                    0 <= u < x - 1 ==> #[trigger] r@[at(u, y - 1, iw)] == stencil_covered(
                        covered@,
                        w as int,
                        u + 1,
                        y as int,
                    ),
        {
            let ghost before = r@;
            proof {
                place_in(x as int, y as int, w as int, h as int);
                place_in(x + 1, y as int, w as int, h as int);
                place_in(x - 1, y as int, w as int, h as int);
                place_in(x as int, y + 1, w as int, h as int);
                place_in(x as int, y - 1, w as int, h as int);
                assert((y + 1) * w == y * w + w && (y - 1) * w == y * w - w) by (nonlinear_arith);
                assert(at(x - 1, y - 1, iw) == before.len()) by (nonlinear_arith)
                    requires
                        before.len() == iw * (y - 1) + (x - 1),
                        at(x - 1, y - 1, iw) == (y - 1) * iw + (x - 1),
                ;
            }
            let i: usize = y * w + x;
            r.push(
                covered[i] && covered[i + 1] && covered[i - 1] && covered[i + w] && covered[i - w],
            );
            proof {
                assert forall|u: int, v: int| 0 <= u < iw && 0 <= v < y - 1 implies #[trigger] r@[at(
                    u,
                    v,
                    iw,
                )] == stencil_covered(covered@, w as int, u + 1, v + 1) by {
                    assert(v * iw + u < iw * (y - 1)) by (nonlinear_arith)
                        requires
                            0 <= u < iw,
                            0 <= v < y - 1,
                    ;
                    assert(0 <= v * iw) by (nonlinear_arith)
                        requires
                            0 <= v,
                            0 <= iw,
                    ;
                    assert(r@[at(u, v, iw)] == before[at(u, v, iw)]);
                }
                assert forall|u: int| 0 <= u < x implies #[trigger] r@[at(u, y - 1, iw)]
                    == stencil_covered(covered@, w as int, u + 1, y as int) by {
                    assert(0 <= (y - 1) * iw) by (nonlinear_arith)
                        requires
                            1 <= y,
                            0 <= iw,
                    ;
                    if u < x - 1 {
                        assert(r@[at(u, y - 1, iw)] == before[at(u, y - 1, iw)]);
                    }
                }
            }
        }
        assert(iw * y == iw * (y - 1) + iw) by (nonlinear_arith);
    }
    assert((w - 2) * (h - 2) == iw * (h - 2));
    r
}

/// Pixel `(x, y)` lies in the block of `kw` by `kh` pixels of depth sample `(i, j)`.
pub open spec fn in_cell(i: int, j: int, kw: int, kh: int, x: int, y: int) -> bool {
    i * kw <= x < (i + 1) * kw && j * kh <= y < (j + 1) * kh
}

/// `e` is the least error of the covered pixels of depth sample `(i, j)`; `None` if it has
/// none.
pub open spec fn is_cell_error(
    errors: Seq<F32>,
    covered: Seq<bool>,
    w: int,
    kw: int,
    kh: int,
    i: int,
    j: int,
    e: Option<F32>,
) -> bool {
    match e {
        Some(m) => {
            &&& exists|x: int, y: int| #[trigger]
                in_cell(i, j, kw, kh, x, y) && covered[at(x, y, w)] && m == errors[at(x, y, w)]
            &&& forall|x: int, y: int| #[trigger]
                in_cell(i, j, kw, kh, x, y) && covered[at(x, y, w)] ==> !errors[at(
                    x,
                    y,
                    w,
                )].spec_lt(m)
        },
        None => forall|x: int, y: int| #[trigger]
            in_cell(i, j, kw, kh, x, y) ==> !covered[at(x, y, w)],
    }
}

/// What is known of depth sample `(i, j)` after the rows before `y` of its block, and the
/// pixels of row `y` before `x`.
spec fn is_least_so_far(
    errors: Seq<F32>,
    covered: Seq<bool>,
    w: int,
    kw: int,
    kh: int,
    i: int,
    j: int,
    x: int,
    y: int,
    e: Option<F32>,
) -> bool {
    match e {
        Some(m) => {
            &&& exists|u: int, v: int| #[trigger]
                in_cell(i, j, kw, kh, u, v) && covered[at(u, v, w)] && m == errors[at(u, v, w)]
            &&& forall|u: int, v: int| #[trigger]
                in_cell(i, j, kw, kh, u, v) && (v < y || v == y && u < x) && covered[at(u, v, w)]
                    ==> !errors[at(u, v, w)].spec_lt(m)
        },
        None => forall|u: int, v: int| #[trigger]
            in_cell(i, j, kw, kh, u, v) && (v < y || v == y && u < x) ==> !covered[at(u, v, w)],
    }
}

/// The least error of the covered pixels of depth sample `(i, j)`.
fn cell_error(
    errors: &Vec<F32>,
    covered: &Vec<bool>,
    cells: (usize, usize),
    kw: usize,
    kh: usize,
    i: usize,
    j: usize,
) -> (e: Option<F32>)
    requires
        i < cells.0,
        j < cells.1,
        errors@.len() == (cells.0 * kw) * (cells.1 * kh),
        covered@.len() == errors@.len(),
        cells.0 * kw <= usize::MAX,
        cells.1 * kh <= usize::MAX,
    ensures
        is_cell_error(errors@, covered@, cells.0 * kw, kw as int, kh as int, i as int, j as int, e),
{
    let w: usize = cells.0 * kw;
    let ghost h = cells.1 * kh;
    proof {
        assert(i * kw + kw <= w && (i + 1) * kw == i * kw + kw) by (nonlinear_arith)
            requires
                i < cells.0,
                w == cells.0 * kw,
        ;
        assert(j * kh + kh <= h && (j + 1) * kh == j * kh + kh) by (nonlinear_arith)
            requires
                j < cells.1,
                h == cells.1 * kh,
        ;
    }
    let (x0, y0): (usize, usize) = (i * kw, j * kh);
    let mut e: Option<F32> = None;
    for y in y0..y0 + kh
        invariant
            w == cells.0 * kw,
            x0 == i * kw,
            y0 == j * kh,
            (i + 1) * kw == x0 + kw,
            (j + 1) * kh == y0 + kh,
            x0 + kw <= w,
            y0 + kh <= h,
            errors@.len() == w * h,
            errors.len() == w * h,
            covered@.len() == w * h,
            is_least_so_far(
                errors@,
                covered@,
                w as int,
                kw as int,
                kh as int,
                i as int,
                j as int,
                x0 as int,
                y as int,
                e,
            ),
    {
        for x in x0..x0 + kw
            invariant
                w == cells.0 * kw,
                x0 == i * kw,
                y0 == j * kh,
                (i + 1) * kw == x0 + kw,
                (j + 1) * kh == y0 + kh,
                x0 + kw <= w,
                y0 + kh <= h,
                y0 <= y < y0 + kh,
                errors@.len() == w * h,
                errors.len() == w * h,
                covered@.len() == w * h,
                is_least_so_far(
                    errors@,
                    covered@,
                    w as int,
                    kw as int,
                    kh as int,
                    i as int,
                    j as int,
                    x as int,
                    y as int,
                    e,
                ),
        {
            proof {
                place_in(x as int, y as int, w as int, h as int);
            }
            let p: usize = y * w + x;
            assert(p == at(x as int, y as int, w as int));
            assert(in_cell(i as int, j as int, kw as int, kh as int, x as int, y as int));
            if covered[p] {
                let better = match e {
                    Some(m) => errors[p].lt(m),
                    None => true,
                };
                if better {
                    e = Some(errors[p]);
                }
            }
        }
    }
    e
}

/// The error of each depth sample: the least one of the covered pixels in its block. A beam
/// can miss a thin feature, so one pixel that matches is enough. `cells` are the samples
/// across and down, and each has a block of `kw` by `kh` pixels.
pub fn cell_errors(
    errors: &Vec<F32>,
    covered: &Vec<bool>,
    cells: (usize, usize),
    kw: usize,
    kh: usize,
) -> (r: Vec<Option<F32>>)
    requires
        errors@.len() == (cells.0 * kw) * (cells.1 * kh),
        covered@.len() == errors@.len(),
        cells.0 * kw <= usize::MAX,
        cells.1 * kh <= usize::MAX,
        cells.0 * cells.1 <= usize::MAX,
    ensures
        r@.len() == cells.0 * cells.1,
        forall|i: int, j: int|
            0 <= i < cells.0 && 0 <= j < cells.1 ==> is_cell_error(
                errors@,
                covered@,
                cells.0 * kw,
                kw as int,
                kh as int,
                i,
                j,
                #[trigger] r@[at(i, j, cells.0 as int)],
            ),
{
    let mut r: Vec<Option<F32>> = Vec::new();
    let n: usize = cells.0 * cells.1;
    for k in 0..n
        invariant
            n == cells.0 * cells.1,
            errors@.len() == (cells.0 * kw) * (cells.1 * kh),
            covered@.len() == errors@.len(),
            cells.0 * kw <= usize::MAX,
            cells.1 * kh <= usize::MAX,
            r@.len() == k,
            forall|q: int|
                0 <= q < k ==> is_cell_error(
                    errors@,
                    covered@,
                    cells.0 * kw,
                    kw as int,
                    kh as int,
                    q % cells.0 as int,
                    q / cells.0 as int,
                    #[trigger] r@[q],
                ),
    {
        proof {
            assert(cells.0 > 0 && k / cells.0 < cells.1 && k % cells.0 < cells.0)
                by (nonlinear_arith)
                requires
                    k < cells.0 * cells.1,
                    k >= 0,
                    cells.0 >= 0,
                    cells.1 >= 0,
            ;
        }
        r.push(cell_error(errors, covered, cells, kw, kh, k % cells.0, k / cells.0));
    }
    proof {
        assert forall|i: int, j: int| 0 <= i < cells.0 && 0 <= j < cells.1 implies is_cell_error(
            errors@,
            covered@,
            cells.0 * kw,
            kw as int,
            kh as int,
            i,
            j,
            #[trigger] r@[at(i, j, cells.0 as int)],
        ) by {
            place_in(i, j, cells.0 as int, cells.1 as int);
            vstd::arithmetic::div_mod::lemma_fundamental_div_mod_converse(
                at(i, j, cells.0 as int),
                cells.0 as int,
                j,
                i,
            );
        }
    }
    r
}

/// The neighbours of a pixel are the ones before and after it in the field, and one row up and
/// down.
pub proof fn stencils_are_crosses(covered: Seq<bool>, w: int, x: int, y: int)
    requires
        w > 0,
    ensures
        ({
            let i = w * y + x;
            stencil_covered(covered, w, x, y) <==> covered[i] && covered[i - 1] && covered[i + 1]
                && covered[i - w] && covered[i + w]
        }),
{
    assert(y * w + x == w * y + x && (y + 1) * w + x == w * y + x + w && (y - 1) * w + x == w * y
        + x - w) by (nonlinear_arith);
}

/// Every pixel lies in the block of just one depth sample.
pub proof fn blocks_share_no_pixel(i: int, j: int, u: int, v: int, kw: int, kh: int, x: int, y: int)
    requires
        in_cell(i, j, kw, kh, x, y),
        in_cell(u, v, kw, kh, x, y),
        kw > 0,
        kh > 0,
    ensures
        i == u,
        j == v,
{
    assert(i == u) by (nonlinear_arith)
        requires
            i * kw <= x < (i + 1) * kw,
            u * kw <= x < (u + 1) * kw,
            kw > 0,
    ;
    assert(j == v) by (nonlinear_arith)
        requires
            j * kh <= y < (j + 1) * kh,
            v * kh <= y < (v + 1) * kh,
            kh > 0,
    ;
}

/// Pixel `(a, b)` of the block of depth sample `(i, j)` is in it.
pub proof fn blocks_hold_their_pixels(i: int, j: int, kw: int, kh: int, a: int, b: int)
    requires
        0 <= a < kw,
        0 <= b < kh,
    ensures
        in_cell(i, j, kw, kh, kw * i + a, kh * j + b),
{
    assert(i * kw <= kw * i + a < (i + 1) * kw) by (nonlinear_arith)
        requires
            0 <= a < kw,
    ;
    assert(j * kh <= kh * j + b < (j + 1) * kh) by (nonlinear_arith)
        requires
            0 <= b < kh,
    ;
}

/// The error of a depth sample is that of a covered pixel of its block, and none of these has a
/// smaller one; it has none if and only if no pixel of its block is covered.
pub proof fn the_error_of_a_block_is_the_least(
    errors: Seq<F32>,
    covered: Seq<bool>,
    w: int,
    kw: int,
    kh: int,
    i: int,
    j: int,
    e: Option<F32>,
    a: int,
    b: int,
)
    requires
        is_cell_error(errors, covered, w, kw, kh, i, j, e),
        0 <= a < kw,
        0 <= b < kh,
        covered[(kh * j + b) * w + (kw * i + a)],
        !errors[(kh * j + b) * w + (kw * i + a)].nan(),
    ensures
        e is Some,
        !e->0.nan() ==> e->0.rank() <= errors[(kh * j + b) * w + (kw * i + a)].rank(),
        exists|x: int, y: int|
            {
                &&& kw * i <= x < kw * i + kw
                &&& kh * j <= y < kh * j + kh
                &&& covered[y * w + x]
                &&& e->0 == #[trigger] errors[y * w + x]
            },
{
    let (x, y) = (kw * i + a, kh * j + b);
    blocks_hold_their_pixels(i, j, kw, kh, a, b);
    assert(in_cell(i, j, kw, kh, x, y) && covered[at(x, y, w)]);
    let m = e->0;
    assert(!errors[at(x, y, w)].spec_lt(m));
    let (u, v) = choose|u: int, v: int| #[trigger]
        in_cell(i, j, kw, kh, u, v) && covered[at(u, v, w)] && m == errors[at(u, v, w)];
    assert(kw * i <= u < kw * i + kw) by (nonlinear_arith)
        requires
            i * kw <= u < (i + 1) * kw,
    ;
    assert(kh * j <= v < kh * j + kh) by (nonlinear_arith)
        requires
            j * kh <= v < (j + 1) * kh,
    ;
    assert(errors[v * w + u] == m);
}

} // verus!
