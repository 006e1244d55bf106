//! Skyline packing of chart rectangles.
//!
//! The skyline is one height per column. A chart lands at the columns whose highest point is
//! lowest, which fills the gaps that shelf packing leaves.

use crate::float::{self, F32};
use std::collections::VecDeque;
use vstd::prelude::*;

verus! {

/// No height is a NaN.
pub open spec fn comparable(heights: Seq<F32>) -> bool {
    forall|i: int| 0 <= i < heights.len() ==> !(#[trigger] heights[i]).nan()
}

/// Height `i` is the highest of those in `[from, to)`.
pub open spec fn is_highest(heights: Seq<F32>, from: int, to: int, i: int) -> bool {
    &&& from <= i < to
    &&& forall|j: int| from <= j < to ==> (#[trigger] heights[j]).rank() <= heights[i].rank()
}

/// Some height in `[from, to)` is at least `rank`.
pub open spec fn reaches(heights: Seq<F32>, from: int, to: int, rank: int) -> bool {
    exists|j: int| from <= j < to && (#[trigger] heights[j]).rank() >= rank
}

/// `x` is the first window of `w` columns whose highest point `y` is lowest, and `y` is not
/// infinite.
pub open spec fn is_lowest(heights: Seq<F32>, w: int, x: int, y: F32) -> bool {
    &&& 0 <= x
    &&& x + w <= heights.len()
    &&& exists|i: int| #[trigger] is_highest(heights, x, x + w, i) && heights[i] == y
    &&& y.rank() < float::INF_BITS
    &&& forall|z: int|
        0 <= z && z + w <= heights.len() ==> #[trigger] reaches(heights, z, z + w, y.rank() as int)
    &&& forall|z: int|
        0 <= z < x ==> #[trigger] reaches(heights, z, z + w, y.rank() + 1)
}

/// The deque of a sliding window maximum over `[lo, x)`: indices ascend, their heights
/// strictly descend, and each height of the window is covered by one at or after it.
spec fn is_window_deque(heights: Seq<F32>, d: Seq<usize>, lo: int, x: int) -> bool {
    &&& forall|k: int| 0 <= k < d.len() ==> #[trigger] d[k] < x
    &&& forall|k: int, m: int|
        #![trigger d[k], d[m]]
        0 <= k < m < d.len() ==> d[k] < d[m] && heights[d[k] as int].rank() > heights[d[m] as int].rank()
    &&& forall|i: int| lo <= i < x ==> #[trigger] covered(heights, d, i)
}

spec fn covered(heights: Seq<F32>, d: Seq<usize>, i: int) -> bool {
    exists|k: int|
        0 <= k < d.len() && #[trigger] d[k] >= i && heights[d[k] as int].rank()
            >= heights[i].rank()
}

/// Find the lowest window of `w` columns.
pub fn lowest_window(heights: &Vec<F32>, w: usize) -> (r: Option<(usize, F32)>)
    requires
        comparable(heights@),
        w >= 1,
    ensures
        match r {
            Some((x, y)) => is_lowest(heights@, w as int, x as int, y),
            None => forall|z: int|
                0 <= z && z + w <= heights@.len() ==> #[trigger] reaches(
                    heights@,
                    z,
                    z + w,
                    float::INF_BITS as int,
                ),
        },
{
    let ghost hs = heights@;
    let mut deque: VecDeque<usize> = VecDeque::new();
    let mut best_x: Option<usize> = None;
    let mut best_y: F32 = F32 { bits: float::INF_BITS };
    let ghost mut lo: int = 0;
    for x in 0..heights.len()
        invariant
            hs == heights@,
            comparable(hs),
            w >= 1,
            lo == (if x >= w {
                x - w
            } else {
                0
            }),
            is_window_deque(hs, deque@, lo, x as int),
            !best_y.nan(),
            best_y.rank() <= float::INF_BITS,
            forall|z: int|
                0 <= z && z + w <= x ==> #[trigger] reaches(hs, z, z + w, best_y.rank() as int),
            match best_x {
                None => best_y.bits == float::INF_BITS,
                Some(bx) => {
                    &&& bx + w <= x
                    &&& exists|i: int| #[trigger]
                        is_highest(hs, bx as int, bx + w, i) && hs[i] == best_y
                    &&& best_y.rank() < float::INF_BITS
                    &&& forall|z: int|
                        0 <= z < bx ==> #[trigger] reaches(hs, z, z + w, best_y.rank() + 1)
                },
            },
    {
        let h = heights[x];
        let mut done: bool = false;
        let ghost d0 = deque@;
        while !done
            invariant
                hs == heights@,
                comparable(hs),
                x < hs.len(),
                h == hs[x as int],
                d0.len() >= deque@.len(),
                deque@ == d0.take(deque@.len() as int),
                is_window_deque(hs, d0, lo, x as int),
                forall|k: int|
                    deque@.len() <= k < d0.len() ==> hs[#[trigger] d0[k] as int].rank() <= h.rank(),
                done ==> deque@.len() == 0 || hs[deque@.last() as int].rank() > h.rank(),
            decreases deque@.len() + (if done { 0int } else { 1int }),
        {
            let n: usize = deque.len();
            if n == 0 {
                done = true;
            } else {
                let b: usize = deque[n - 1];
                assert(b == d0[n - 1]);
                assert(b < x);
                if heights[b].le(h) {
                    let _ = deque.pop_back();
                    assert(deque@ =~= d0.take(n - 1));
                } else {
                    done = true;
                }
            }
        }
        let ghost d1 = deque@;
        deque.push_back(x);
        proof {
            let d2 = deque@;
            assert(d2 =~= d1.push(x));
            assert forall|k: int, m: int|
                #![trigger d2[k], d2[m]]
                0 <= k < m < d2.len() implies d2[k] < d2[m] && hs[d2[k] as int].rank()
                > hs[d2[m] as int].rank() by {
                assert(d2[k] == d0[k]);
                if m < d1.len() {
                    assert(d2[m] == d0[m]);
                } else {
                    assert(d1.last() == d0[d1.len() - 1]);
                    if k < d1.len() - 1 {
                        assert(hs[d0[k] as int].rank() > hs[d0[d1.len() - 1] as int].rank());
                    }
                }
            }
            assert forall|i: int| lo <= i < x + 1 implies #[trigger] covered(hs, d2, i) by {
                if i == x {
                    assert(d2[d1.len() as int] == x);
                } else {
                    assert(covered(hs, d0, i));
                    let k = choose|k: int|
                        0 <= k < d0.len() && #[trigger] d0[k] >= i && hs[d0[k] as int].rank()
                            >= hs[i].rank();
                    if k < d1.len() {
                        assert(d2[k] == d0[k]);
                    } else {
                        assert(d2[d1.len() as int] == x);
                    }
                }
            }
            assert(is_window_deque(hs, d2, lo, x + 1));
        }
        if x + 1 >= w {
            let start: usize = x + 1 - w;
            let mut trimmed: bool = false;
            proof {
                assert forall|i: int| start <= i < x + 1 implies #[trigger] covered(hs, deque@, i) by {}
            }
            while !trimmed
                invariant
                    hs == heights@,
                    comparable(hs),
                    x < hs.len(),
                    start <= x,
                    is_window_deque(hs, deque@, start as int, x + 1),
                    trimmed ==> deque@.len() > 0 && deque@[0] >= start,
                decreases deque@.len() + (if trimmed { 0int } else { 1int }),
            {
                assert(covered(hs, deque@, start as int));
                let f: usize = deque[0];
                if f < start {
                    let ghost d = deque@;
                    let _ = deque.pop_front();
                    proof {
                        let e = deque@;
                        assert(e =~= d.skip(1));
                        assert forall|i: int| start <= i < x + 1 implies #[trigger] covered(
                            hs,
                            e,
                            i,
                        ) by {
                            assert(covered(hs, d, i));
                            let k = choose|k: int|
                                0 <= k < d.len() && #[trigger] d[k] >= i && hs[d[k] as int].rank()
                                    >= hs[i].rank();
                            assert(k > 0);
                            assert(e[k - 1] == d[k]);
                        }
                        assert forall|k: int, m: int|
                            #![trigger e[k], e[m]]
                            0 <= k < m < e.len() implies e[k] < e[m] && hs[e[k] as int].rank()
                            > hs[e[m] as int].rank() by {
                            assert(e[k] == d[k + 1] && e[m] == d[m + 1]);
                        }
                        assert forall|k: int| 0 <= k < e.len() implies #[trigger] e[k] < x + 1 by {
                            assert(e[k] == d[k + 1]);
                        }
                    }
                } else {
                    trimmed = true;
                }
            }
            let f: usize = deque[0];
            let y = heights[f];
            proof {
                let d = deque@;
                assert forall|j: int| start <= j < start + w implies (#[trigger] hs[j]).rank()
                    <= hs[f as int].rank() by {
                    assert(covered(hs, d, j));
                    let k = choose|k: int|
                        0 <= k < d.len() && #[trigger] d[k] >= j && hs[d[k] as int].rank()
                            >= hs[j].rank();
                    if k > 0 {
                        assert(hs[d[0] as int].rank() > hs[d[k] as int].rank());
                    }
                }
                assert(is_highest(hs, start as int, start + w, f as int));
                assert(reaches(hs, start as int, start + w, y.rank() as int)) by {
                    assert(hs[f as int].rank() >= y.rank());
                }
            }
            let ghost old_y = best_y;
            if y.lt(best_y) {
                best_y = y;
                best_x = Some(start);
                proof {
                    assert(is_highest(hs, start as int, start + w, f as int) && hs[f as int]
                        == best_y);
                    assert(best_y.rank() < old_y.rank());
                    assert forall|z: int| 0 <= z && z + w <= x + 1 implies #[trigger] reaches(
                        hs,
                        z,
                        z + w,
                        best_y.rank() as int,
                    ) by {
                        if z < start {
                            assert(reaches(hs, z, z + w, old_y.rank() as int));
                            let j = choose|j: int|
                                z <= j < z + w && (#[trigger] hs[j]).rank() >= old_y.rank();
                            assert(hs[j].rank() >= best_y.rank());
                        }
                    }
                    assert forall|z: int| 0 <= z < start implies #[trigger] reaches(
                        hs,
                        z,
                        z + w,
                        best_y.rank() + 1,
                    ) by {
                        assert(reaches(hs, z, z + w, old_y.rank() as int));
                        let j = choose|j: int|
                            z <= j < z + w && (#[trigger] hs[j]).rank() >= old_y.rank();
                        assert(hs[j].rank() >= best_y.rank() + 1);
                    }
                }
            } else {
                proof {
                    assert forall|z: int| 0 <= z && z + w <= x + 1 implies #[trigger] reaches(
                        hs,
                        z,
                        z + w,
                        best_y.rank() as int,
                    ) by {
                        if z == start {
                            assert(hs[f as int].rank() >= best_y.rank());
                        }
                    }
                }
            }
            proof {
                lo = start as int;
                if let Some(bx) = best_x {
                    assert(bx + w <= x + 1);
                    assert(exists|i: int| #[trigger]
                        is_highest(hs, bx as int, bx + w, i) && hs[i] == best_y);
                    assert(best_y.rank() < float::INF_BITS);
                    assert(forall|z: int|
                        0 <= z < bx ==> #[trigger] reaches(hs, z, z + w, best_y.rank() + 1));
                }
            }
        }
    }
    match best_x {
        None => None,
        Some(bx) => Some((bx, best_y)),
    }
}

/// A packed chart: columns `[x, x + w)`, heights from `y` to `top`.
#[derive(Clone, Copy, Debug)]
pub struct Placement {
    pub x: usize,
    pub w: usize,
    pub y: F32,
    pub top: F32,
}

/// Column `c` is under the placement.
pub open spec fn spans(p: Placement, c: int) -> bool {
    p.x <= c < p.x + p.w
}

/// The skyline over `width` columns after the first `n` placements: a column is as high as
/// the last placement that covers it, or `floor`.
pub open spec fn skyline(width: nat, floor: F32, p: Seq<Placement>, n: int) -> Seq<F32>
    decreases n,
{
    if n <= 0 {
        Seq::new(width, |c: int| floor)
    } else {
        let before = skyline(width, floor, p, n - 1);
        Seq::new(
            width,
            |c: int|
                if spans(p[n - 1], c) {
                    p[n - 1].top
                } else {
                    before[c]
                },
        )
    }
}

/// The questions that packing asks can be asked: a chart is at least one column wide, and
/// its top, if it fits, is not below its bottom.
pub open spec fn can_pack<W: Fn(usize, usize) -> usize, S: Fn(usize, usize, F32) -> Option<F32>>(
    round: usize,
    footprint: W,
    stack: S,
) -> bool {
    &&& forall|c: usize| #[trigger] footprint.requires((round, c))
    &&& forall|c: usize, w: usize| #[trigger] footprint.ensures((round, c), w) ==> w >= 1
    &&& forall|c: usize, y: F32| #[trigger] stack.requires((round, c, y))
    &&& forall|c: usize, y: F32, top: F32| #[trigger]
        stack.ensures((round, c, y), Some(top)) ==> !top.nan() && y.rank() <= top.rank()
}

/// Chart `i` of `order` is placed at the lowest window of the skyline that it found.
pub open spec fn is_placed<W: Fn(usize, usize) -> usize, S: Fn(usize, usize, F32) -> Option<F32>>(
    order: Seq<usize>,
    width: nat,
    floor: F32,
    round: usize,
    footprint: W,
    stack: S,
    p: Seq<Placement>,
    i: int,
) -> bool {
    &&& footprint.ensures((round, order[i]), p[i].w)
    &&& p[i].w < width
    &&& is_lowest(skyline(width, floor, p, i), p[i].w as int, p[i].x as int, p[i].y)
    &&& stack.ensures((round, order[i], p[i].y), Some(p[i].top))
}

/// The first `n` charts of `order` are placed.
pub open spec fn is_packing<W: Fn(usize, usize) -> usize, S: Fn(usize, usize, F32) -> Option<F32>>(
    order: Seq<usize>,
    width: nat,
    floor: F32,
    round: usize,
    footprint: W,
    stack: S,
    p: Seq<Placement>,
    n: int,
) -> bool {
    forall|i: int|
        0 <= i < n ==> #[trigger] is_placed(order, width, floor, round, footprint, stack, p, i)
}

/// Chart `i` of `order` does not fit on the skyline of the charts before it: it is too wide,
/// finds no window, or sticks out at the top.
pub open spec fn is_misfit<W: Fn(usize, usize) -> usize, S: Fn(usize, usize, F32) -> Option<F32>>(
    order: Seq<usize>,
    width: nat,
    floor: F32,
    round: usize,
    footprint: W,
    stack: S,
    p: Seq<Placement>,
    i: int,
) -> bool {
    exists|w: usize|
        {
            &&& #[trigger] footprint.ensures((round, order[i]), w)
            &&& {
                ||| w >= width
                ||| forall|z: int|
                    0 <= z && z + w <= width ==> #[trigger] reaches(
                        skyline(width, floor, p, i),
                        z,
                        z + w,
                        float::INF_BITS as int,
                    )
                ||| exists|x: int, y: F32| #[trigger]
                    is_lowest(skyline(width, floor, p, i), w as int, x, y) && stack.ensures(
                        (round, order[i], y),
                        None::<F32>,
                    )
            }
        }
}

proof fn skyline_shape(width: nat, floor: F32, p: Seq<Placement>, n: int)
    requires
        !floor.nan(),
        0 <= n <= p.len(),
        forall|i: int| 0 <= i < n ==> !(#[trigger] p[i]).top.nan(),
    ensures
        skyline(width, floor, p, n).len() == width,
        comparable(skyline(width, floor, p, n)),
    decreases n,
{
    if n > 0 {
        skyline_shape(width, floor, p, n - 1);
        assert forall|c: int| 0 <= c < width implies !(#[trigger] skyline(width, floor, p, n)[c]).nan() by {
            assert(!p[n - 1].top.nan());
            assert(!skyline(width, floor, p, n - 1)[c].nan());
        }
    }
}

/// The skyline never sinks, and stands at least as high as every chart under it.
proof fn skyline_rises<W: Fn(usize, usize) -> usize, S: Fn(usize, usize, F32) -> Option<F32>>(
    order: Seq<usize>,
    width: nat,
    floor: F32,
    round: usize,
    footprint: W,
    stack: S,
    p: Seq<Placement>,
    i: int,
    n: int,
    c: int,
)
    requires
        !floor.nan(),
        can_pack(round, footprint, stack),
        is_packing(order, width, floor, round, footprint, stack, p, n),
        0 <= i < n <= p.len(),
        0 <= c < width,
        spans(p[i], c),
    ensures
        skyline(width, floor, p, n)[c].rank() >= p[i].top.rank(),
    decreases n,
{
    if i < n - 1 {
        assert(is_placed(order, width, floor, round, footprint, stack, p, n - 1));
        skyline_rises(order, width, floor, round, footprint, stack, p, i, n - 1, c);
        let before = skyline(width, floor, p, n - 1);
        let last = p[n - 1];
        if spans(last, c) {
            let k = choose|k: int| #[trigger]
                is_highest(before, last.x as int, last.x + last.w, k) && before[k] == last.y;
            assert(before[c].rank() <= before[k].rank());
        }
    }
}

/// Packed charts do not overlap: where two share a column, the later one starts at or above
/// the top of the earlier one.
pub proof fn packed_charts_are_apart<W: Fn(usize, usize) -> usize, S: Fn(usize, usize, F32) -> Option<F32>>(
    order: Seq<usize>,
    width: nat,
    floor: F32,
    round: usize,
    footprint: W,
    stack: S,
    p: Seq<Placement>,
    i: int,
    j: int,
    c: int,
)
    requires
        !floor.nan(),
        can_pack(round, footprint, stack),
        is_packing(order, width, floor, round, footprint, stack, p, p.len() as int),
        0 <= i < j < p.len(),
        spans(p[i], c),
        spans(p[j], c),
    ensures
        p[i].top.rank() <= p[j].y.rank(),
{
    let before = skyline(width, floor, p, j);
    let late = p[j];
    assert(is_placed(order, width, floor, round, footprint, stack, p, j));
    assert forall|k: int| 0 <= k < j implies !(#[trigger] p[k]).top.nan() by {
        assert(is_placed(order, width, floor, round, footprint, stack, p, k));
    }
    skyline_shape(width, floor, p, j);
    skyline_rises(order, width, floor, round, footprint, stack, p, i, j, c);
    let k = choose|k: int| #[trigger]
        is_highest(before, late.x as int, late.x + late.w, k) && before[k] == late.y;
    assert(before[c].rank() <= before[k].rank());
}

proof fn skyline_of_prefix(width: nat, floor: F32, p: Seq<Placement>, last: Placement, n: int)
    requires
        0 <= n <= p.len(),
    ensures
        skyline(width, floor, p.push(last), n) == skyline(width, floor, p, n),
    decreases n,
{
    if n > 0 {
        skyline_of_prefix(width, floor, p, last, n - 1);
        assert(p.push(last)[n - 1] == p[n - 1]);
        assert(skyline(width, floor, p.push(last), n) =~= skyline(width, floor, p, n));
    }
}

/// Pack the charts of `order` into `width` columns, one after the other. In this round,
/// `footprint(round, c)` is the number of columns of chart `c`, and `stack(round, c, y)` its
/// top when its bottom is at `y`, if that is still within the atlas. Gives up at the first
/// chart that does not fit.
pub fn pack_charts<W: Fn(usize, usize) -> usize, S: Fn(usize, usize, F32) -> Option<F32>>(
    order: &Vec<usize>,
    width: usize,
    floor: F32,
    round: usize,
    footprint: &W,
    stack: &S,
) -> (r: Option<Vec<Placement>>)
    requires
        !floor.nan(),
        can_pack(round, *footprint, *stack),
    ensures
        match r {
            Some(p) => p@.len() == order@.len() && is_packing(
                order@,
                width as nat,
                floor,
                round,
                *footprint,
                *stack,
                p@,
                p@.len() as int,
            ),
            None => exists|p: Seq<Placement>|
                {
                    &&& p.len() < order@.len()
                    &&& #[trigger] is_packing(
                        order@,
                        width as nat,
                        floor,
                        round,
                        *footprint,
                        *stack,
                        p,
                        p.len() as int,
                    )
                    &&& is_misfit(
                        order@,
                        width as nat,
                        floor,
                        round,
                        *footprint,
                        *stack,
                        p,
                        p.len() as int,
                    )
                },
        },
{
    let ghost wd = width as nat;
    let mut heights: Vec<F32> = Vec::new();
    for c in 0..width
        invariant
            heights@.len() == c,
            forall|k: int| 0 <= k < c ==> #[trigger] heights@[k] == floor,
    {
        heights.push(floor);
    }
    let mut p: Vec<Placement> = Vec::new();
    assert(heights@ =~= skyline(wd, floor, p@, 0));
    for i in 0..order.len()
        invariant
            wd == width,
            !floor.nan(),
            can_pack(round, *footprint, *stack),
            p@.len() == i,
            heights@ == skyline(wd, floor, p@, i as int),
            heights@.len() == width,
            is_packing(order@, wd, floor, round, *footprint, *stack, p@, i as int),
            forall|k: int| 0 <= k < i ==> !(#[trigger] p@[k]).top.nan(),
    {
        let c: usize = order[i];
        let ghost placed = p@;
        proof {
            skyline_shape(wd, floor, p@, i as int);
        }
        let w: usize = footprint(round, c);
        if w >= width {
            assert(is_misfit(order@, wd, floor, round, *footprint, *stack, placed, i as int));
            return None;
        }
        let (x, y) = match lowest_window(&heights, w) {
            None => {
                assert(is_misfit(order@, wd, floor, round, *footprint, *stack, placed, i as int));
                return None;
            },
            Some(r) => r,
        };
        let top = match stack(round, c, y) {
            None => {
                proof {
                    assert(is_lowest(skyline(wd, floor, placed, i as int), w as int, x as int, y));
                    assert(is_misfit(order@, wd, floor, round, *footprint, *stack, placed, i as int));
                }
                return None;
            },
            Some(top) => top,
        };
        let ghost before = heights@;
        for k in 0..w
            invariant
                x + w <= width,
                heights@.len() == width,
                before.len() == width,
                forall|m: int|
                    0 <= m < width ==> #[trigger] heights@[m] == (if x <= m < x + k {
                        top
                    } else {
                        before[m]
                    }),
        {
            heights.set(x + k, top);
        }
        let here = Placement { x, w, y, top };
        p.push(here);
        proof {
            skyline_of_prefix(wd, floor, placed, here, i as int);
            assert(heights@ =~= skyline(wd, floor, p@, i + 1));
            assert forall|k: int| 0 <= k < i + 1 implies #[trigger] is_placed(
                order@,
                wd,
                floor,
                round,
                *footprint,
                *stack,
                p@,
                k,
            ) by {
                skyline_of_prefix(wd, floor, placed, here, k);
                if k < i {
                    assert(is_placed(order@, wd, floor, round, *footprint, *stack, placed, k));
                    assert(p@[k] == placed[k]);
                }
            }
        }
    }
    Some(p)
}

/// A chart stays within the columns of the atlas and not below its floor.
pub proof fn packed_charts_stay_in_the_atlas<
    W: Fn(usize, usize) -> usize,
    S: Fn(usize, usize, F32) -> Option<F32>,
>(
    order: Seq<usize>,
    width: nat,
    floor: F32,
    round: usize,
    footprint: W,
    stack: S,
    p: Seq<Placement>,
    i: int,
)
    requires
        !floor.nan(),
        can_pack(round, footprint, stack),
        is_packing(order, width, floor, round, footprint, stack, p, p.len() as int),
        0 <= i < p.len(),
    ensures
        footprint.ensures((round, order[i]), p[i].w),
        stack.ensures((round, order[i], p[i].y), Some(p[i].top)),
        p[i].w >= 1,
        p[i].x + p[i].w <= width,
        p[i].w < width,
        floor.rank() <= p[i].y.rank() <= p[i].top.rank(),
{
    assert(is_placed(order, width, floor, round, footprint, stack, p, i));
    let sky = skyline(width, floor, p, i);
    assert(sky.len() == width);
    assert(footprint.ensures((round, order[i]), p[i].w));
    let h = choose|h: int| #[trigger]
        is_highest(sky, p[i].x as int, p[i].x + p[i].w, h) && sky[h] == p[i].y;
    sky_above_the_floor(order, width, floor, round, footprint, stack, p, i, h);
}

proof fn sky_above_the_floor<
    W: Fn(usize, usize) -> usize,
    S: Fn(usize, usize, F32) -> Option<F32>,
>(
    order: Seq<usize>,
    width: nat,
    floor: F32,
    round: usize,
    footprint: W,
    stack: S,
    p: Seq<Placement>,
    n: int,
    c: int,
)
    requires
        can_pack(round, footprint, stack),
        is_packing(order, width, floor, round, footprint, stack, p, p.len() as int),
        0 <= n <= p.len(),
        0 <= c < width,
    ensures
        floor.rank() <= skyline(width, floor, p, n)[c].rank(),
    decreases n,
{
    if n > 0 {
        if spans(p[n - 1], c) {
            let i = n - 1;
            assert(is_placed(order, width, floor, round, footprint, stack, p, i));
            let sky = skyline(width, floor, p, i);
            assert(sky.len() == width);
            let h = choose|h: int| #[trigger]
                is_highest(sky, p[i].x as int, p[i].x + p[i].w, h) && sky[h] == p[i].y;
            sky_above_the_floor(order, width, floor, round, footprint, stack, p, i, h);
        } else {
            sky_above_the_floor(order, width, floor, round, footprint, stack, p, n - 1, c);
        }
    }
}

/// A chart rests on something: its bottom is the floor, or the top of an earlier chart with which it
/// shares a column.
pub proof fn packed_charts_rest_on_something<
    W: Fn(usize, usize) -> usize,
    S: Fn(usize, usize, F32) -> Option<F32>,
>(
    order: Seq<usize>,
    width: nat,
    floor: F32,
    round: usize,
    footprint: W,
    stack: S,
    p: Seq<Placement>,
    i: int,
) -> (r: (int, int))
    requires
        is_packing(order, width, floor, round, footprint, stack, p, p.len() as int),
        0 <= i < p.len(),
    ensures
        p[i].x <= r.1 < p[i].x + p[i].w,
        p[i].y == floor || 0 <= r.0 < i && p[r.0].x <= r.1 < p[r.0].x + p[r.0].w && p[i].y
            == p[r.0].top,
{
    assert(is_placed(order, width, floor, round, footprint, stack, p, i));
    let sky = skyline(width, floor, p, i);
    let h = choose|h: int| #[trigger]
        is_highest(sky, p[i].x as int, p[i].x + p[i].w, h) && sky[h] == p[i].y;
    assert(sky.len() == width);
    let j = sky_is_a_top(width, floor, p, i, h);
    (j, h)
}

proof fn sky_is_a_top(width: nat, floor: F32, p: Seq<Placement>, n: int, c: int) -> (j: int)
    requires
        0 <= n <= p.len(),
        0 <= c < width,
    ensures
        skyline(width, floor, p, n)[c] == floor || 0 <= j < n && p[j].x <= c < p[j].x + p[j].w
            && skyline(width, floor, p, n)[c] == p[j].top,
    decreases n,
{
    if n <= 0 {
        0
    } else if spans(p[n - 1], c) {
        n - 1
    } else {
        sky_is_a_top(width, floor, p, n - 1, c)
    }
}

/// A chart goes to the lowest place that is left: wherever else it could go, some earlier chart in
/// the way reaches at least as high as its bottom, or the floor does.
pub proof fn packed_charts_go_to_the_lowest_place<
    W: Fn(usize, usize) -> usize,
    S: Fn(usize, usize, F32) -> Option<F32>,
>(
    order: Seq<usize>,
    width: nat,
    floor: F32,
    round: usize,
    footprint: W,
    stack: S,
    p: Seq<Placement>,
    i: int,
    z: int,
) -> (r: (int, int))
    requires
        is_packing(order, width, floor, round, footprint, stack, p, p.len() as int),
        0 <= i < p.len(),
        0 <= z,
        z + p[i].w <= width,
    ensures
        z <= r.1 < z + p[i].w,
        p[i].y.rank() <= floor.rank() || 0 <= r.0 < i && p[r.0].x <= r.1 < p[r.0].x + p[r.0].w
            && p[i].y.rank() <= p[r.0].top.rank(),
        z < p[i].x ==> p[i].y.rank() < floor.rank() || 0 <= r.0 < i && p[r.0].x <= r.1 < p[r.0].x
            + p[r.0].w && p[i].y.rank() < p[r.0].top.rank(),
{
    assert(is_placed(order, width, floor, round, footprint, stack, p, i));
    let sky = skyline(width, floor, p, i);
    assert(sky.len() == width);
    let rank = if z < p[i].x {
        p[i].y.rank() + 1
    } else {
        p[i].y.rank()
    };
    assert(reaches(sky, z, z + p[i].w, rank));
    let c = choose|c: int| z <= c < z + p[i].w && (#[trigger] sky[c]).rank() >= rank;
    let j = sky_is_a_top(width, floor, p, i, c);
    (j, c)
}

} // verus!
