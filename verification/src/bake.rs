//! Baking a texture: depth buffers, the view of each face, and the resolve of texel samples.

use crate::buckets::{self, Buckets};
use crate::float::F32;
use crate::sort;
use vstd::prelude::*;

verus! {

/// Depth buffers have one pixel for this many pixels of the view, each way.
pub const DEPTH_DOWNSCALE: u32 = 4;

/// A face that covers more depth pixels than this, each way, is not drawn.
pub const MAX_RASTER_SIDE: u32 = 128;

/// Texel samples per texel, each way.
pub const BAKE_SS: u32 = 2;

/// One view's depth buffer within the buffer of all views.
#[derive(Clone, Copy, Debug, PartialEq, Eq, Structural)]
pub struct DepthBuffer {
    pub start: u32,
    pub width: u32,
    pub height: u32,
}

pub open spec fn downscaled(n: u32) -> int {
    (n + DEPTH_DOWNSCALE - 1) / (DEPTH_DOWNSCALE as int)
}

/// The depth pixels of the first `n` views.
pub open spec fn depth_pixels(sizes: Seq<(u32, u32)>, n: int) -> int
    decreases n,
{
    if n <= 0 {
        0
    } else {
        depth_pixels(sizes, n - 1) + downscaled(sizes[n - 1].0) * downscaled(sizes[n - 1].1)
    }
}

proof fn depth_pixels_grow(sizes: Seq<(u32, u32)>, a: int, b: int)
    requires
        0 <= a <= b <= sizes.len(),
    ensures
        0 <= depth_pixels(sizes, a) <= depth_pixels(sizes, b),
    decreases b,
{
    if a < b {
        depth_pixels_grow(sizes, a, b - 1);
        assert(downscaled(sizes[b - 1].0) * downscaled(sizes[b - 1].1) >= 0) by (nonlinear_arith)
            requires
                downscaled(sizes[b - 1].0) >= 0,
                downscaled(sizes[b - 1].1) >= 0,
        ;
    } else if a > 0 {
        depth_pixels_grow(sizes, a - 1, b - 1);
        assert(downscaled(sizes[b - 1].0) * downscaled(sizes[b - 1].1) >= 0) by (nonlinear_arith)
            requires
                downscaled(sizes[b - 1].0) >= 0,
                downscaled(sizes[b - 1].1) >= 0,
        ;
    }
}

fn downscale(n: u32) -> (r: u32)
    ensures
        r == downscaled(n),
{
    ((n as u64 + (DEPTH_DOWNSCALE as u64 - 1)) / DEPTH_DOWNSCALE as u64) as u32
}

/// Lay out the depth buffers of all views one after the other, and say how many pixels they
/// take up.
pub fn depth_layout(sizes: &Vec<(u32, u32)>) -> (r: (Vec<DepthBuffer>, u32))
    requires
        depth_pixels(sizes@, sizes@.len() as int) <= u32::MAX,
    ensures
        r.0@.len() == sizes@.len(),
        forall|v: int|
            0 <= v < sizes@.len() ==> {
                let b = #[trigger] r.0@[v];
                &&& b.start == depth_pixels(sizes@, v)
                &&& b.width == downscaled(sizes@[v].0)
                &&& b.height == downscaled(sizes@[v].1)
            },
        r.1 == depth_pixels(sizes@, sizes@.len() as int),
{
    let mut layout: Vec<DepthBuffer> = Vec::new();
    let mut total: u32 = 0;
    for v in 0..sizes.len()
        invariant
            depth_pixels(sizes@, sizes@.len() as int) <= u32::MAX,
            layout@.len() == v,
            total == depth_pixels(sizes@, v as int),
            forall|k: int|
                0 <= k < v ==> {
                    let b = #[trigger] layout@[k];
                    &&& b.start == depth_pixels(sizes@, k)
                    &&& b.width == downscaled(sizes@[k].0)
                    &&& b.height == downscaled(sizes@[k].1)
                },
    {
        let (w, h) = sizes[v];
        let width: u32 = downscale(w);
        let height: u32 = downscale(h);
        layout.push(DepthBuffer { start: total, width, height });
        proof {
            depth_pixels_grow(sizes@, v as int, v as int);
            depth_pixels_grow(sizes@, v + 1, sizes@.len() as int);
            assert(width * height >= 0) by (nonlinear_arith)
                requires
                    width >= 0,
                    height >= 0,
            ;
        }
        total = total + width * height;
    }
    (layout, total)
}

/// The depth buffers of two views do not overlap.
pub proof fn depth_buffers_are_apart(sizes: Seq<(u32, u32)>, a: int, b: int)
    requires
        0 <= a < b < sizes.len(),
    ensures
        depth_pixels(sizes, a) + downscaled(sizes[a].0) * downscaled(sizes[a].1) <= depth_pixels(
            sizes,
            b,
        ),
{
    depth_pixels_grow(sizes, a + 1, b);
}

/// Draw the depth of a face into a depth buffer of `width` columns: where the face covers a
/// pixel of `[x0, x1)` and `[y0, y1)`, the smaller of the two depths stays. Depths are kept
/// as bits, which order positive numbers. `cover(x, y)` is the depth of the face at a pixel,
/// if it covers it. A face that is too large is left out.
pub fn raster_face<C: Fn(u32, u32) -> Option<u32>>(
    depth: &mut Vec<u32>,
    buffer: DepthBuffer,
    x0: u32,
    x1: u32,
    y0: u32,
    y1: u32,
    cover: C,
)
    requires
        x0 <= x1 <= buffer.width,
        y0 <= y1 <= buffer.height,
        buffer.start + buffer.width * buffer.height <= old(depth)@.len(),
        forall|x: u32, y: u32| #[trigger] cover.requires((x, y)),
    ensures
        final(depth)@.len() == old(depth)@.len(),
        if x1 - x0 > MAX_RASTER_SIDE || y1 - y0 > MAX_RASTER_SIDE {
            final(depth)@ == old(depth)@
        } else {
            &&& forall|x: u32, y: u32|
                x0 <= x < x1 && y0 <= y < y1 ==> #[trigger] is_drawn(
                    old(depth)@,
                    final(depth)@,
                    buffer,
                    cover,
                    x,
                    y,
                )
            &&& forall|i: int|
                0 <= i < final(depth)@.len() && !in_rect(buffer, x0, x1, y0, y1, i)
                    ==> #[trigger] final(depth)@[i] == old(depth)@[i]
        },
{
    if x1 - x0 > MAX_RASTER_SIDE || y1 - y0 > MAX_RASTER_SIDE {
        return;
    }
    let ghost before = depth@;
    for y in y0..y1
        invariant
            x0 <= x1 <= buffer.width,
            y0 <= y1 <= buffer.height,
            depth@.len() == before.len(),
            buffer.start + buffer.width * buffer.height <= before.len(),
            forall|x: u32, y: u32| #[trigger] cover.requires((x, y)),
            forall|u: u32, v: u32|
                x0 <= u < x1 && y0 <= v < y ==> #[trigger] is_drawn(
                    before,
                    depth@,
                    buffer,
                    cover,
                    u,
                    v,
                ),
            forall|i: int|
                0 <= i < depth@.len() && !in_rect(buffer, x0, x1, y0, y, i) ==> #[trigger] depth@[i]
                    == before[i],
    {
        for x in x0..x1
            invariant
                y0 <= y < y1,
                x0 <= x1 <= buffer.width,
                y0 <= y1 <= buffer.height,
                depth@.len() == before.len(),
                buffer.start + buffer.width * buffer.height <= before.len(),
                forall|x: u32, y: u32| #[trigger] cover.requires((x, y)),
                forall|u: u32, v: u32|
                    x0 <= u < x1 && y0 <= v <= y && (v < y || u < x) ==> #[trigger] is_drawn(
                        before,
                        depth@,
                        buffer,
                        cover,
                        u,
                        v,
                    ),
                forall|i: int|
                    0 <= i < depth@.len() && !in_rect(buffer, x0, x1, y0, y, i) && !in_rect(
                        buffer,
                        x0,
                        x,
                        y,
                        (y + 1) as u32,
                        i,
                    ) ==> #[trigger] depth@[i] == before[i],
        {
            let ghost mid = depth@;
            let ghost at = pixel(buffer, x as int, y as int);
            proof {
                pixel_bound(buffer, x as int, y as int);
                pixel_outside(buffer, x0, x1, y0, y, x, y);
                pixel_outside(buffer, x0, x, y, (y + 1) as u32, x, y);
            }
            assert(depth.len() <= usize::MAX);
            match cover(x, y) {
                Some(z) => {
                    let i: usize = buffer.start as usize + (y as usize * buffer.width as usize
                        + x as usize);
                    if z < depth[i] {
                        depth.set(i, z);
                    }
                    assert(cover.ensures((x, y), Some(z)));
                },
                None => {
                    assert(cover.ensures((x, y), None));
                },
            }
            proof {
                assert forall|i: int| 0 <= i < depth@.len() && i != at implies #[trigger] depth@[i]
                    == mid[i] by {}
                assert(is_drawn(before, depth@, buffer, cover, x, y));
                assert forall|u: u32, v: u32|
                    x0 <= u < x1 && y0 <= v <= y && (v < y || u < x
                        + 1) implies #[trigger] is_drawn(before, depth@, buffer, cover, u, v) by {
                    if v < y || u < x {
                        assert(is_drawn(before, mid, buffer, cover, u, v));
                        pixel_bound(buffer, u as int, v as int);
                        if pixel(buffer, u as int, v as int) == at {
                            one_pixel(buffer, u as int, v as int, x as int, y as int);
                        }
                    }
                }
                assert forall|i: int|
                    0 <= i < depth@.len() && !in_rect(buffer, x0, x1, y0, y, i) && !in_rect(
                        buffer,
                        x0,
                        (x + 1) as u32,
                        y,
                        (y + 1) as u32,
                        i,
                    ) implies #[trigger] depth@[i] == before[i] by {
                    assert(i != at) by {
                        if i == at {
                            assert(in_rect(buffer, x0, (x + 1) as u32, y, (y + 1) as u32, i)) by {
                                assert(pixel(buffer, x as int, y as int) == i);
                            }
                        }
                    }
                    assert(!in_rect(buffer, x0, x, y, (y + 1) as u32, i)) by {
                        if in_rect(buffer, x0, x, y, (y + 1) as u32, i) {
                            let (u, v) = choose|u: int, v: int|
                                x0 <= u < x && y <= v < y + 1 && #[trigger] pixel(buffer, u, v)
                                    == i;
                            assert(pixel(buffer, u, v) == i);
                        }
                    }
                }
            }
        }
        proof {
            assert forall|i: int|
                0 <= i < depth@.len() && !in_rect(
                    buffer,
                    x0,
                    x1,
                    y0,
                    (y + 1) as u32,
                    i,
                ) implies #[trigger] depth@[i] == before[i] by {
                if in_rect(buffer, x0, x1, y0, y, i) {
                    let (u, v) = choose|u: int, v: int|
                        x0 <= u < x1 && y0 <= v < y && #[trigger] pixel(buffer, u, v) == i;
                    assert(pixel(buffer, u, v) == i);
                }
                if in_rect(buffer, x0, x1, y, (y + 1) as u32, i) {
                    let (u, v) = choose|u: int, v: int|
                        x0 <= u < x1 && y <= v < y + 1 && #[trigger] pixel(buffer, u, v) == i;
                    assert(pixel(buffer, u, v) == i);
                }
            }
        }
    }
}

/// The place of pixel `(x, y)` of a depth buffer.
pub open spec fn pixel(buffer: DepthBuffer, x: int, y: int) -> int {
    buffer.start + (y * buffer.width + x)
}

/// Place `i` is a pixel of a rectangle of a depth buffer.
pub open spec fn in_rect(
    buffer: DepthBuffer,
    x0: u32,
    x1: u32,
    y0: u32,
    y1: u32,
    i: int,
) -> bool {
    exists|x: int, y: int| x0 <= x < x1 && y0 <= y < y1 && #[trigger] pixel(buffer, x, y) == i
}

/// The depth at pixel `(x, y)` is the smaller of what it was and what the face has there.
pub open spec fn is_drawn<C: Fn(u32, u32) -> Option<u32>>(
    before: Seq<u32>,
    after: Seq<u32>,
    buffer: DepthBuffer,
    cover: C,
    x: u32,
    y: u32,
) -> bool {
    let i = pixel(buffer, x as int, y as int);
    exists|z: Option<u32>| #[trigger]
        cover.ensures((x, y), z) && after[i] == (if z is Some && z->0 < before[i] {
            z->0
        } else {
            before[i]
        })
}

proof fn pixel_bound(buffer: DepthBuffer, x: int, y: int)
    requires
        0 <= x < buffer.width,
        0 <= y < buffer.height,
    ensures
        buffer.start <= pixel(buffer, x, y) < buffer.start + buffer.width * buffer.height,
        0 <= y * buffer.width,
{
    assert(0 <= y * buffer.width && y * buffer.width + x < buffer.width * buffer.height)
        by (nonlinear_arith)
        requires
            0 <= x < buffer.width,
            0 <= y < buffer.height,
    ;
}

proof fn one_pixel(buffer: DepthBuffer, x: int, y: int, u: int, v: int)
    requires
        0 <= x < buffer.width,
        0 <= u < buffer.width,
        pixel(buffer, x, y) == pixel(buffer, u, v),
    ensures
        x == u,
        y == v,
{
    assert(y == v) by (nonlinear_arith)
        requires
            0 <= x < buffer.width,
            0 <= u < buffer.width,
            y * buffer.width + x == v * buffer.width + u,
    ;
}

/// A pixel outside a rectangle has its place outside.
proof fn pixel_outside(
    buffer: DepthBuffer,
    x0: u32,
    x1: u32,
    y0: u32,
    y1: u32,
    x: u32,
    y: u32,
)
    requires
        x < buffer.width,
        x1 <= buffer.width,
        !(x0 <= x < x1 && y0 <= y < y1),
    ensures
        !in_rect(buffer, x0, x1, y0, y1, pixel(buffer, x as int, y as int)),
{
    let i = pixel(buffer, x as int, y as int);
    if in_rect(buffer, x0, x1, y0, y1, i) {
        let (u, v) = choose|u: int, v: int|
            x0 <= u < x1 && y0 <= v < y1 && #[trigger] pixel(buffer, u, v) == i;
        one_pixel(buffer, u, v, x as int, y as int);
    }
}

/// `best` is the first of the allowed views with the highest score, if any score is
/// positive. `scores[v]` is `None` where view `v` does not see the face.
pub open spec fn is_best_view(
    keep: Seq<bool>,
    scores: Seq<Option<F32>>,
    n: int,
    best: Option<usize>,
) -> bool {
    match best {
        Some(b) => {
            &&& b < n
            &&& keep[b as int]
            &&& scores[b as int] is Some
            &&& scores[b as int]->0.positive()
            &&& forall|v: int|
                0 <= v < b && keep[v] && (#[trigger] scores[v]) is Some
                    ==> !scores[v]->0.positive() || scores[v]->0.spec_lt(scores[b as int]->0)
            &&& forall|v: int|
                b < v < n && keep[v] && (#[trigger] scores[v]) is Some
                    ==> !scores[b as int]->0.spec_lt(scores[v]->0)
        },
        None => forall|v: int|
            0 <= v < n && keep[v] && (#[trigger] scores[v]) is Some ==> !scores[v]->0.positive(),
    }
}

/// Choose the view that a face is baked from.
pub fn best_view<S: Fn(usize) -> Option<F32>>(keep: &Vec<bool>, score: S) -> (best: Option<usize>)
    requires
        forall|v: usize| v < keep@.len() ==> #[trigger] score.requires((v,)),
    ensures
        exists|scores: Seq<Option<F32>>|
            {
                &&& scores.len() == keep@.len()
                &&& forall|v: usize|
                    v < keep@.len() && keep@[v as int] ==> score.ensures(
                        (v,),
                        #[trigger] scores[v as int],
                    )
                &&& #[trigger] is_best_view(keep@, scores, keep@.len() as int, best)
            },
{
    let mut best: Option<(usize, F32)> = None;
    let ghost mut scores: Seq<Option<F32>> = Seq::empty();
    for v in 0..keep.len()
        invariant
            scores.len() == v,
            forall|v: usize| v < keep@.len() ==> #[trigger] score.requires((v,)),
            forall|k: usize|
                k < v && keep@[k as int] ==> score.ensures((k,), #[trigger] scores[k as int]),
            match best {
                Some((b, s)) => is_best_view(keep@, scores, v as int, Some(b))
                    && scores[b as int] == Some(s),
                None => is_best_view(keep@, scores, v as int, None),
            },
    {
        let ghost before = scores;
        if keep[v] {
            let s = score(v);
            proof {
                scores = scores.push(s);
            }
            match s {
                Some(x) => {
                    let better: bool = match best {
                        Some((_, y)) => y.lt(x),
                        None => x.is_positive(),
                    };
                    if better {
                        best = Some((v, x));
                    }
                },
                None => {},
            }
        } else {
            proof {
                scores = scores.push(None);
            }
        }
        proof {
            assert forall|k: int| 0 <= k < v implies scores[k] == before[k] by {}
        }
    }
    match best {
        Some((b, _)) => {
            assert(is_best_view(keep@, scores, keep@.len() as int, Some(b)));
            Some(b)
        },
        None => {
            assert(is_best_view(keep@, scores, keep@.len() as int, None));
            None
        },
    }
}

/// The faces among the first `n` that are baked from view `v`.
pub open spec fn uses(best: Seq<Option<u32>>, v: int, n: int) -> nat
    decreases n,
{
    if n <= 0 {
        0
    } else if best[n - 1] == Some(v as u32) {
        uses(best, v, n - 1) + 1
    } else {
        uses(best, v, n - 1)
    }
}

/// Sort keys that put the most used view first.
pub open spec fn most_used_first(best: Seq<Option<u32>>, n_views: nat) -> Seq<i64> {
    Seq::new(n_views, |v: int| (-uses(best, v, best.len() as int)) as i64)
}

/// `keep` marks the `count` most used views; of equally used ones the first.
pub open spec fn is_pruned(best: Seq<Option<u32>>, n_views: nat, count: int, keep: Seq<bool>) -> bool {
    &&& keep.len() == n_views
    &&& exists|order: Seq<usize>| #[trigger]
        sort::is_stable_order(most_used_first(best, n_views), order) && (forall|a: int|
            0 <= a < n_views ==> keep[#[trigger] order[a] as int] == (a < count))
}

proof fn uses_bound(best: Seq<Option<u32>>, v: int, n: int)
    requires
        0 <= n <= best.len(),
    ensures
        uses(best, v, n) <= n,
    decreases n,
{
    if n > 0 {
        uses_bound(best, v, n - 1);
    }
}

/// Mark the views to keep when only `count` of them are baked from.
pub fn prune_views(best: &Vec<Option<u32>>, n_views: usize, count: usize) -> (keep: Vec<bool>)
    requires
        n_views <= u32::MAX,
        best@.len() <= i64::MAX,
        forall|f: int|
            0 <= f < best@.len() && (#[trigger] best@[f]) is Some ==> best@[f]->0 < n_views,
    ensures
        is_pruned(best@, n_views as nat, count as int, keep@),
{
    let mut counts: Vec<i64> = Vec::new();
    for v in 0..n_views
        invariant
            counts@.len() == v,
            forall|k: int| 0 <= k < v ==> #[trigger] counts@[k] == 0,
    {
        counts.push(0);
    }
    for f in 0..best.len()
        invariant
            n_views <= u32::MAX,
            best@.len() <= i64::MAX,
            counts@.len() == n_views,
            forall|f: int|
                0 <= f < best@.len() && (#[trigger] best@[f]) is Some ==> best@[f]->0 < n_views,
            forall|v: int| 0 <= v < n_views ==> #[trigger] counts@[v] == -uses(best@, v, f as int),
    {
        match best[f] {
            Some(v) => {
                proof {
                    uses_bound(best@, v as int, f as int);
                }
                counts.set(v as usize, counts[v as usize] - 1);
            },
            None => {},
        }
    }
    assert(counts@ =~= most_used_first(best@, n_views as nat));
    let order = sort::stable_order(&counts);
    let mut keep: Vec<bool> = Vec::new();
    for v in 0..n_views
        invariant
            keep@.len() == v,
            forall|k: int| 0 <= k < v ==> !#[trigger] keep@[k],
    {
        keep.push(false);
    }
    for a in 0..n_views
        invariant
            n_views == order@.len(),
            keep@.len() == n_views,
            sort::is_stable_order(counts@, order@),
            counts@.len() == n_views,
            forall|k: int|
                0 <= k < n_views ==> keep@[#[trigger] order@[k] as int] == (k < a && k < count),
    {
        if a < count {
            let ghost before = keep@;
            keep.set(order[a], true);
            proof {
                assert forall|k: int| 0 <= k < n_views implies keep@[#[trigger] order@[k] as int]
                    == (k < a + 1 && k < count) by {
                    if k < a {
                        assert(sort::precedes(counts@, order@[k], order@[a as int]));
                    } else if k > a {
                        assert(sort::precedes(counts@, order@[a as int], order@[k]));
                    }
                }
            }
        }
    }
    keep
}

/// The views that faces are baked from, each once and in ascending order, and the number of
/// faces that no view sees.
pub fn used_views(best: &Vec<Option<u32>>, n_views: usize) -> (r: (Vec<usize>, usize))
    requires
        n_views <= u32::MAX,
        forall|f: int|
            0 <= f < best@.len() && (#[trigger] best@[f]) is Some ==> best@[f]->0 < n_views,
    ensures
        forall|a: int, b: int|
            #![trigger r.0@[a], r.0@[b]]
            0 <= a < b < r.0@.len() ==> r.0@[a] < r.0@[b],
        forall|v: usize| #[trigger] r.0@.contains(v) <==> v < n_views && uses(
            best@,
            v as int,
            best@.len() as int,
        ) > 0,
        r.1 == unseen(best@, best@.len() as int),
{
    let mut used: Vec<bool> = Vec::new();
    for v in 0..n_views
        invariant
            used@.len() == v,
            forall|k: int| 0 <= k < v ==> !#[trigger] used@[k],
    {
        used.push(false);
    }
    let mut missing: usize = 0;
    for f in 0..best.len()
        invariant
            n_views <= u32::MAX,
            used@.len() == n_views,
            missing == unseen(best@, f as int),
            missing <= f,
            forall|f: int|
                0 <= f < best@.len() && (#[trigger] best@[f]) is Some ==> best@[f]->0 < n_views,
            forall|v: int|
                0 <= v < n_views ==> (#[trigger] used@[v] <==> uses(best@, v, f as int) > 0),
    {
        match best[f] {
            Some(v) => {
                used.set(v as usize, true);
            },
            None => {
                missing += 1;
            },
        }
    }
    let mut list: Vec<usize> = Vec::new();
    for v in 0..n_views
        invariant
            used@.len() == n_views,
            forall|a: int| 0 <= a < list@.len() ==> #[trigger] list@[a] < v,
            forall|a: int, b: int|
                #![trigger list@[a], list@[b]]
                0 <= a < b < list@.len() ==> list@[a] < list@[b],
            forall|k: usize| #[trigger] list@.contains(k) <==> k < v && used@[k as int],
    {
        if used[v] {
            let ghost before = list@;
            list.push(v);
            proof {
                assert forall|k: usize| #[trigger] list@.contains(k) <==> k < v + 1
                    && used@[k as int] by {
                    if k == v {
                        assert(list@[before.len() as int] == v);
                    } else {
                        if before.contains(k) {
                            let a = before.index_of(k);
                            assert(list@[a] == k);
                        }
                        if list@.contains(k) {
                            let a = list@.index_of(k);
                            assert(before[a] == k);
                        }
                    }
                }
            }
        }
    }
    (list, missing)
}

/// The faces among the first `n` that no view sees.
pub open spec fn unseen(best: Seq<Option<u32>>, n: int) -> nat
    decreases n,
{
    if n <= 0 {
        0
    } else if best[n - 1] is None {
        unseen(best, n - 1) + 1
    } else {
        unseen(best, n - 1)
    }
}

/// The view of each face of a mesh that was rearranged, from the face that it comes from.
pub fn follow_faces(best: &Vec<Option<u32>>, face_src: &Vec<u32>) -> (r: Vec<Option<u32>>)
    requires
        forall|f: int| 0 <= f < face_src@.len() ==> #[trigger] face_src@[f] < best@.len(),
    ensures
        r@ == Seq::new(face_src@.len(), |f: int| best@[face_src@[f] as int]),
{
    let mut r: Vec<Option<u32>> = Vec::new();
    for f in 0..face_src.len()
        invariant
            forall|f: int| 0 <= f < face_src@.len() ==> #[trigger] face_src@[f] < best@.len(),
            r@ =~= Seq::new(f as nat, |k: int| best@[face_src@[k] as int]),
    {
        r.push(best[face_src[f] as usize]);
    }
    r
}

/// The place of sample `(sx, sy)` of texel `(x, y)` in the grid of all samples.
pub open spec fn sample_place(size: int, x: int, y: int, s: int) -> int {
    (y * 2 + s / 2) * (size * 2) + x * 2 + s % 2
}

/// The ids by which samples are grouped: their place in the grid of samples, or one beyond
/// it for samples that no view contributed to.
pub open spec fn sample_ids(size: int, places: Seq<u32>, hit: Seq<bool>) -> Seq<u32> {
    Seq::new(
        places.len(),
        |i: int|
            if hit[i] {
                places[i]
            } else {
                (4 * (size * size)) as u32
            },
    )
}

/// The samples of each of the first `s` quarters of a texel that have any.
pub open spec fn texel_groups(ids: Seq<u32>, size: int, x: int, y: int, s: int) -> Seq<Seq<usize>>
    decreases s,
{
    if s <= 0 {
        Seq::empty()
    } else {
        let group = buckets::members_of(ids, sample_place(size, x, y, s - 1), ids.len() as int);
        if group.len() > 0 {
            texel_groups(ids, size, x, y, s - 1).push(group)
        } else {
            texel_groups(ids, size, x, y, s - 1)
        }
    }
}

/// The lists of a list.
pub open spec fn lists(v: Seq<Vec<usize>>) -> Seq<Seq<usize>> {
    Seq::new(v.len(), |i: int| v[i]@)
}

/// Texel `i` of the atlas is the mean of its samples, and opaque; or all zero if it has none.
pub open spec fn is_resolved<M: Fn(&Vec<Vec<usize>>) -> [u8; 3]>(
    ids: Seq<u32>,
    size: int,
    mean: M,
    x: int,
    y: int,
    texel: [u8; 4],
) -> bool {
    let groups = texel_groups(ids, size, x, y, 4);
    if groups.len() == 0 {
        texel == [0u8, 0, 0, 0]
    } else {
        exists|g: Vec<Vec<usize>>, c: [u8; 3]| #[trigger]
            mean.ensures((&g,), c) && lists(g@) == groups && texel == [c[0], c[1], c[2], 255u8]
    }
}

proof fn sample_bound(size: int, x: int, y: int, s: int)
    requires
        0 <= x < size,
        0 <= y < size,
        0 <= s < 4,
    ensures
        0 <= sample_place(size, x, y, s) < 4 * (size * size),
        0 <= (y * 2 + s / 2) * (size * 2),
{
    let row = y * 2 + s / 2;
    let w = size * 2;
    assert(0 <= row * w && row * w + w <= (2 * size) * w) by (nonlinear_arith)
        requires
            0 <= row < 2 * size,
            w >= 0,
    ;
    assert((2 * size) * w == 4 * (size * size)) by (nonlinear_arith)
        requires
            w == size * 2,
    ;
}

/// Collect the samples of a texel.
fn collect_groups(
    b: &Buckets,
    ids: &Vec<u32>,
    n: usize,
    size: usize,
    x: usize,
    y: usize,
) -> (g: Vec<Vec<usize>>)
    requires
        n == 4 * (size * size),
        b.groups(ids@, n as int),
        x < size,
        y < size,
    ensures
        lists(g@) == texel_groups(ids@, size as int, x as int, y as int, 4),
{
    let mut g: Vec<Vec<usize>> = Vec::new();
    for s in 0..4usize
        invariant
            n == 4 * (size * size),
            b.groups(ids@, n as int),
            x < size,
            y < size,
            lists(g@) == texel_groups(ids@, size as int, x as int, y as int, s as int),
    {
        proof {
            sample_bound(size as int, x as int, y as int, s as int);
            assert(2 * size <= n) by (nonlinear_arith)
                requires
                    n == 4 * (size * size),
                    size >= 1,
            ;
        }
        let at: usize = (y * 2 + s / 2) * (size * 2) + (x * 2 + s % 2);
        let group = b.members(ids, n, at);
        let ghost before = g@;
        if group.len() > 0 {
            g.push(group);
            assert(lists(g@) =~= lists(before).push(group@));
        }
    }
    g
}

/// Resolve texel samples into an atlas of `size` texels each way. `places[i]` is where sample
/// `i` lies in the grid of samples, twice as fine; `hit[i]` says whether a view contributed
/// to it. `mean` averages the samples of the quarters of a texel that have any.
pub fn resolve_atlas<M: Fn(&Vec<Vec<usize>>) -> [u8; 3]>(
    size: usize,
    places: &Vec<u32>,
    hit: &Vec<bool>,
    mean: M,
) -> (rgba: Vec<[u8; 4]>)
    requires
        4 * (size * size) < u32::MAX,
        hit@.len() == places@.len(),
        forall|i: int| 0 <= i < places@.len() ==> #[trigger] places@[i] < 4 * (size * size),
        forall|g: Vec<Vec<usize>>| #[trigger] mean.requires((&g,)),
    ensures
        rgba@.len() == size * size,
        forall|x: int, y: int|
            0 <= x < size && 0 <= y < size ==> is_resolved(
                sample_ids(size as int, places@, hit@),
                size as int,
                mean,
                x,
                y,
                #[trigger] rgba@[y * size + x],
            ),
{
    let ghost all = sample_ids(size as int, places@, hit@);
    assert(size <= 4 * (size * size) && size * size >= 0) by (nonlinear_arith)
        requires
            size >= 0,
    ;
    let n: usize = 4 * (size * size);
    let mut ids: Vec<u32> = Vec::new();
    for i in 0..places.len()
        invariant
            n == 4 * (size * size),
            n < u32::MAX,
            hit@.len() == places@.len(),
            ids@ =~= sample_ids(size as int, places@, hit@).take(i as int),
    {
        if hit[i] {
            ids.push(places[i]);
        } else {
            ids.push(n as u32);
        }
    }
    assert(ids@ =~= all);
    let b = buckets::bucket(&ids, n);
    let mut rgba: Vec<[u8; 4]> = Vec::new();
    assert(0 * size == 0) by (nonlinear_arith);
    for y in 0..size
        invariant
            n == 4 * (size * size),
            b.groups(ids@, n as int),
            ids@ == all,
            rgba@.len() == y * size,
            forall|g: Vec<Vec<usize>>| #[trigger] mean.requires((&g,)),
            forall|u: int, v: int|
                0 <= u < size && 0 <= v < y ==> is_resolved(
                    all,
                    size as int,
                    mean,
                    u,
                    v,
                    #[trigger] rgba@[v * size + u],
                ),
    {
        for x in 0..size
            invariant
                y < size,
                n == 4 * (size * size),
                b.groups(ids@, n as int),
                ids@ == all,
                rgba@.len() == y * size + x,
                forall|g: Vec<Vec<usize>>| #[trigger] mean.requires((&g,)),
                forall|u: int, v: int|
                    0 <= u < size && 0 <= v <= y && (v < y || u < x) ==> is_resolved(
                        all,
                        size as int,
                        mean,
                        u,
                        v,
                        #[trigger] rgba@[v * size + u],
                    ),
        {
            let ghost before = rgba@;
            let g = collect_groups(&b, &ids, n, size, x, y);
            let ghost groups = texel_groups(all, size as int, x as int, y as int, 4);
            assert(g@.len() == lists(g@).len());
            let texel: [u8; 4] = if g.len() == 0 {
                [0, 0, 0, 0]
            } else {
                let c = mean(&g);
                assert(mean.ensures((&g,), c) && lists(g@) == groups);
                [c[0], c[1], c[2], 255]
            };
            assert(is_resolved(all, size as int, mean, x as int, y as int, texel));
            rgba.push(texel);
            proof {
                assert forall|u: int, v: int|
                    0 <= u < size && 0 <= v <= y && (v < y || u < x + 1) implies is_resolved(
                    all,
                    size as int,
                    mean,
                    u,
                    v,
                    #[trigger] rgba@[v * size + u],
                ) by {
                    if v < y || u < x {
                        assert(0 <= v * size && v * size + u < y * size + x) by (nonlinear_arith)
                            requires
                                0 <= u < size,
                                0 <= v,
                                v < y || v == y && u < x,
                                0 <= x,
                        ;
                        assert(rgba@[v * size + u] == before[v * size + u]);
                    } else {
                        assert(v * size + u == before.len());
                    }
                }
            }
        }
        assert((y + 1) * size == y * size + size) by (nonlinear_arith);
    }
    rgba
}

/// Sample `i` of a grid of samples, twice as fine as the atlas, lies in the texel of column `x` and
/// row `y`, and a view contributed to it.
pub open spec fn lies_in_texel(size: int, places: Seq<u32>, hit: Seq<bool>, i: int, x: int, y: int) -> bool {
    &&& hit[i]
    &&& places[i] as int / (2 * size) / 2 == y
    &&& places[i] as int % (2 * size) / 2 == x
}

/// The samples of a texel, sorted by where they lie: each list has the samples of one place in
/// ascending order, no list is empty, the lists ascend by place, and every sample of the texel is
/// in one of them.
pub open spec fn sorts_samples(
    g: Seq<Seq<usize>>,
    size: int,
    places: Seq<u32>,
    hit: Seq<bool>,
    x: int,
    y: int,
) -> bool {
    &&& forall|a: int| 0 <= a < g.len() ==> (#[trigger] g[a]).len() > 0
    &&& forall|a: int, b: int|
        #![trigger g[a][b]]
        0 <= a < g.len() && 0 <= b < g[a].len() ==> g[a][b] < places.len() && lies_in_texel(
            size,
            places,
            hit,
            g[a][b] as int,
            x,
            y,
        )
    &&& forall|a: int, b: int, c: int|
        #![trigger g[a][b], g[a][c]]
        0 <= a < g.len() && 0 <= b < c < g[a].len() ==> g[a][b] < g[a][c] && places[g[a][b] as int]
            == places[g[a][c] as int]
    &&& forall|a: int, b: int|
        #![trigger g[a], g[b]]
        0 <= a < b < g.len() ==> places[g[a][0] as int] < places[g[b][0] as int]
    &&& forall|i: int|
        #![trigger places[i]]
        0 <= i < places.len() && lies_in_texel(size, places, hit, i, x, y) ==> exists|a: int|
            0 <= a < g.len() && (#[trigger] g[a]).contains(i as usize)
}

/// Where the samples of a texel lie in the grid of samples.
proof fn quarter_of(size: int, x: int, y: int, s: int)
    requires
        0 <= x < size,
        0 <= y < size,
        0 <= s < 4,
    ensures
        sample_place(size, x, y, s) / (2 * size) == 2 * y + s / 2,
        sample_place(size, x, y, s) % (2 * size) == 2 * x + s % 2,
        sample_place(size, x, y, s) / (2 * size) / 2 == y,
        sample_place(size, x, y, s) % (2 * size) / 2 == x,
{
    let (q, r) = (2 * y + s / 2, 2 * x + s % 2);
    assert(sample_place(size, x, y, s) == q * (2 * size) + r) by (nonlinear_arith)
        requires
            q == 2 * y + s / 2,
            r == 2 * x + s % 2,
            sample_place(size, x, y, s) == (y * 2 + s / 2) * (size * 2) + x * 2 + s % 2,
    ;
    vstd::arithmetic::div_mod::lemma_fundamental_div_mod_converse(
        sample_place(size, x, y, s),
        2 * size,
        q,
        r,
    );
}

proof fn quarters_ascend(size: int, x: int, y: int, s: int, t: int)
    requires
        0 <= x < size,
        0 <= y < size,
        0 <= s < t < 4,
    ensures
        sample_place(size, x, y, s) < sample_place(size, x, y, t),
{
    assert(sample_place(size, x, y, s) < sample_place(size, x, y, t)) by (nonlinear_arith)
        requires
            0 <= x < size,
            0 <= s < t < 4,
            sample_place(size, x, y, s) == (y * 2 + s / 2) * (size * 2) + x * 2 + s % 2,
            sample_place(size, x, y, t) == (y * 2 + t / 2) * (size * 2) + x * 2 + t % 2,
    ;
}

/// The quarter of its texel that a place is.
proof fn place_of_quarter(size: int, x: int, y: int, place: int) -> (s: int)
    requires
        0 <= x < size,
        0 <= y < size,
        0 <= place,
        place / (2 * size) / 2 == y,
        place % (2 * size) / 2 == x,
    ensures
        0 <= s < 4,
        sample_place(size, x, y, s) == place,
{
    let (q, r) = (place / (2 * size), place % (2 * size));
    let s = 2 * (q % 2) + r % 2;
    vstd::arithmetic::div_mod::lemma_fundamental_div_mod(place, 2 * size);
    assert(s / 2 == q % 2 && s % 2 == r % 2);
    assert(q == 2 * y + s / 2 && r == 2 * x + s % 2);
    assert(sample_place(size, x, y, s) == place) by (nonlinear_arith)
        requires
            place == (2 * size) * q + r,
            q == 2 * y + s / 2,
            r == 2 * x + s % 2,
            sample_place(size, x, y, s) == (y * 2 + s / 2) * (size * 2) + x * 2 + s % 2,
    ;
    s
}

/// The lists of the first `s` quarters, each with the quarter that it is of.
proof fn groups_are_quarters(
    ids: Seq<u32>,
    size: int,
    x: int,
    y: int,
    s: int,
) -> (of: Seq<int>)
    requires
        0 <= s <= 4,
        ids.len() <= usize::MAX,
    ensures
        of.len() == texel_groups(ids, size, x, y, s).len(),
        forall|a: int|
            #![trigger of[a]]
            0 <= a < of.len() ==> {
                &&& 0 <= of[a] < s
                &&& texel_groups(ids, size, x, y, s)[a] == buckets::members_of(
                    ids,
                    sample_place(size, x, y, of[a]),
                    ids.len() as int,
                )
                &&& texel_groups(ids, size, x, y, s)[a].len() > 0
            },
        forall|a: int, b: int| 0 <= a < b < of.len() ==> of[a] < of[b],
        forall|q: int|
            0 <= q < s && buckets::members_of(
                ids,
                #[trigger] sample_place(size, x, y, q),
                ids.len() as int,
            ).len() > 0 ==> of.contains(q),
    decreases s,
{
    if s <= 0 {
        Seq::empty()
    } else {
        let before = groups_are_quarters(ids, size, x, y, s - 1);
        let group = buckets::members_of(ids, sample_place(size, x, y, s - 1), ids.len() as int);
        if group.len() > 0 {
            let of = before.push(s - 1);
            assert forall|q: int|
                0 <= q < s && buckets::members_of(
                    ids,
                    #[trigger] sample_place(size, x, y, q),
                    ids.len() as int,
                ).len() > 0 implies of.contains(q) by {
                if q == s - 1 {
                    assert(of[before.len() as int] == q);
                } else {
                    let a = before.index_of(q);
                    assert(of[a] == q);
                }
            }
            assert forall|a: int| #![trigger of[a]] 0 <= a < before.len() implies of[a]
                == before[a] by {}
            of
        } else {
            before
        }
    }
}

/// Each sample reaches the texel that it lies in, and no other: a texel without samples is all
/// zero, and any other is opaque and has the colour that `mean` gives for the samples that lie
/// in its column and row of the atlas, sorted by where they lie.
pub proof fn samples_reach_their_texel<M: Fn(&Vec<Vec<usize>>) -> [u8; 3]>(
    size: int,
    places: Seq<u32>,
    hit: Seq<bool>,
    mean: M,
    rgba: Seq<[u8; 4]>,
    x: int,
    y: int,
)
    requires
        4 * (size * size) < u32::MAX,
        places.len() <= usize::MAX,
        hit.len() == places.len(),
        forall|i: int| 0 <= i < places.len() ==> #[trigger] places[i] < 4 * (size * size),
        forall|x: int, y: int|
            0 <= x < size && 0 <= y < size ==> is_resolved(
                sample_ids(size, places, hit),
                size,
                mean,
                x,
                y,
                #[trigger] rgba[y * size + x],
            ),
        0 <= x < size,
        0 <= y < size,
    ensures
        (forall|i: int|
            0 <= i < places.len() ==> !(#[trigger] lies_in_texel(size, places, hit, i, x, y)))
            ==> rgba[y * size + x] == [0u8, 0, 0, 0],
        forall|i: int|
            0 <= i < places.len() && #[trigger] lies_in_texel(size, places, hit, i, x, y)
                ==> exists|g: Vec<Vec<usize>>, c: [u8; 3]|
                {
                    &&& #[trigger] mean.ensures((&g,), c)
                    &&& sorts_samples(lists(g@), size, places, hit, x, y)
                    &&& rgba[y * size + x] == [c[0], c[1], c[2], 255u8]
                },
{
    let ids = sample_ids(size, places, hit);
    let n = ids.len() as int;
    let texel = rgba[y * size + x];
    assert(is_resolved(ids, size, mean, x, y, texel));
    let groups = texel_groups(ids, size, x, y, 4);
    let of = groups_are_quarters(ids, size, x, y, 4);
    assert forall|q: int| 0 <= q < 4 implies sample_place(size, x, y, q) / (2 * size) / 2 == y
        && #[trigger] sample_place(size, x, y, q) % (2 * size) / 2 == x && 0 <= sample_place(
        size,
        x,
        y,
        q,
    ) < 4 * (size * size) by {
        quarter_of(size, x, y, q);
        sample_bound(size, x, y, q);
    }
    assert forall|a: int, b: int|
        #![trigger groups[a][b]]
        0 <= a < groups.len() && 0 <= b < groups[a].len() implies groups[a][b] < n
        && ids[groups[a][b] as int] == sample_place(size, x, y, of[a]) && buckets::count_of(
        ids,
        sample_place(size, x, y, of[a]),
        groups[a][b] as int,
    ) == b && hit[groups[a][b] as int] && places[groups[a][b] as int] == sample_place(
        size,
        x,
        y,
        of[a],
    ) by {
        let p = sample_place(size, x, y, of[a]);
        assert(0 <= of[a] < 4);
        buckets::members_by_place(ids, p, n);
        assert(groups[a] == buckets::members_of(ids, p, n));
        let i = buckets::members_of(ids, p, n)[b];
        assert(ids[i as int] == p);
    }
    assert forall|i: int| 0 <= i < n && lies_in_texel(size, places, hit, i, x, y) implies exists|
        a: int,
    |
        0 <= a < groups.len() && (#[trigger] groups[a]).contains(i as usize) by {
        let q = place_of_quarter(size, x, y, places[i] as int);
        let p = sample_place(size, x, y, q);
        assert(ids[i] == p);
        buckets::members_by_place(ids, p, n);
        let k = buckets::count_of(ids, p, i) as int;
        assert(buckets::members_of(ids, p, n)[k] == i);
        assert(of.contains(q));
        let a = of.index_of(q);
        assert(of[a] == q);
        assert(groups[a][k] == i as usize);
    }
    assert(sorts_samples(groups, size, places, hit, x, y)) by {
        assert forall|a: int| 0 <= a < groups.len() implies (#[trigger] groups[a]).len() > 0 by {
            assert(0 <= of[a] < 4);
        }
        assert forall|a: int, b: int, c: int|
            #![trigger groups[a][b], groups[a][c]]
            0 <= a < groups.len() && 0 <= b < c < groups[a].len() implies groups[a][b]
            < groups[a][c] && places[groups[a][b] as int] == places[groups[a][c] as int] by {
            let p = sample_place(size, x, y, of[a]);
            if groups[a][b] >= groups[a][c] {
                counts_grow(ids, p, groups[a][c] as int, groups[a][b] as int);
            }
        }
        assert forall|a: int, b: int|
            #![trigger groups[a], groups[b]]
            0 <= a < b < groups.len() implies places[groups[a][0] as int]
            < places[groups[b][0] as int] by {
            assert(0 <= of[a] < of[b] < 4);
            quarters_ascend(size, x, y, of[a], of[b]);
            assert(groups[a].len() > 0 && groups[b].len() > 0);
        }
    }
    if groups.len() > 0 {
        assert(0 <= of[0] < 4);
        assert(groups[0].len() > 0);
        let i = groups[0][0];
        assert(lies_in_texel(size, places, hit, i as int, x, y));
    }
}

proof fn counts_grow(ids: Seq<u32>, t: int, a: int, b: int)
    requires
        0 <= a <= b <= ids.len(),
    ensures
        buckets::count_of(ids, t, a) <= buckets::count_of(ids, t, b),
    decreases b,
{
    if a < b {
        counts_grow(ids, t, a, b - 1);
    }
}

/// Three bytes in the low bytes of a word.
pub open spec fn packed_bytes(b: [u8; 3]) -> int {
    b[0] + 256 * b[1] + 65536 * b[2]
}

/// Pack the coordinates of a normal, each a byte around `128`.
pub fn pack_normal(n: [u8; 3]) -> (r: u32)
    ensures
        r == packed_bytes(n),
{
    n[0] as u32 + 256 * n[1] as u32 + 65536 * n[2] as u32
}

/// Byte `c` of a word.
pub open spec fn byte_of(word: u32, c: int) -> int {
    if c == 0 {
        word as int % 256
    } else if c == 1 {
        word as int / 256 % 256
    } else {
        word as int / 65536 % 256
    }
}

/// Take a packed colour, or anything else of three bytes, apart.
pub fn unpack_bytes(word: u32) -> (r: [u8; 3])
    ensures
        r[0] == byte_of(word, 0),
        r[1] == byte_of(word, 1),
        r[2] == byte_of(word, 2),
{
    [(word % 256) as u8, (word / 256 % 256) as u8, (word / 65536 % 256) as u8]
}

/// Take a packed normal apart into steps from the middle.
pub fn unpack_normal(word: u32) -> (r: [i32; 3])
    ensures
        r[0] == byte_of(word, 0) - 128,
        r[1] == byte_of(word, 1) - 128,
        r[2] == byte_of(word, 2) - 128,
{
    let b = unpack_bytes(word);
    [b[0] as i32 - 128, b[1] as i32 - 128, b[2] as i32 - 128]
}

/// What was packed comes out again.
pub proof fn unpacking_undoes_packing(b: [u8; 3], word: u32)
    requires
        word == packed_bytes(b),
    ensures
        byte_of(word, 0) == b[0],
        byte_of(word, 1) == b[1],
        byte_of(word, 2) == b[2],
{
}

/// The place of pixel `(x, y)` in an image of width `w`.
pub open spec fn pixel_place(x: int, y: int, w: int) -> int {
    y * w + x
}

/// The four pixels around a sample, of which `(x, y)` is the upper left one. At the right and
/// the lower edge pixels are taken twice.
pub fn bilinear_corners(x: u32, y: u32, w: u32, h: u32) -> (r: [usize; 4])
    requires
        x < w,
        y < h,
        w * h <= usize::MAX,
    ensures
        ({
            let x1 = if x + 1 < w {
                x + 1
            } else {
                w - 1
            };
            let y1 = if y + 1 < h {
                y + 1
            } else {
                h - 1
            };
            &&& r[0] == pixel_place(x as int, y as int, w as int)
            &&& r[1] == pixel_place(x1, y as int, w as int)
            &&& r[2] == pixel_place(x as int, y1, w as int)
            &&& r[3] == pixel_place(x1, y1, w as int)
        }),
        forall|k: int| 0 <= k < 4 ==> #[trigger] r[k] < w * h,
{
    let x1: u32 = if x < w - 1 {
        x + 1
    } else {
        w - 1
    };
    let y1: u32 = if y < h - 1 {
        y + 1
    } else {
        h - 1
    };
    proof {
        places_are_in(x as int, y as int, w as int, h as int);
        places_are_in(x1 as int, y as int, w as int, h as int);
        places_are_in(x as int, y1 as int, w as int, h as int);
        places_are_in(x1 as int, y1 as int, w as int, h as int);
    }
    let (row, row1): (usize, usize) = (y as usize * w as usize, y1 as usize * w as usize);
    [row + x as usize, row + x1 as usize, row1 + x as usize, row1 + x1 as usize]
}

proof fn places_are_in(x: int, y: int, w: int, h: int)
    requires
        0 <= x < w,
        0 <= y < h,
    ensures
        0 <= y * w,
        y * w + x < w * h,
{
    assert(0 <= y * w && y * w + x < w * h) by (nonlinear_arith)
        requires
            0 <= x < w,
            0 <= y < h,
    ;
}

/// A depth buffer has a pixel for every four pixels of its view, and one for what is left over.
pub proof fn depth_buffers_cover_their_view(n: u32)
    ensures
        4 * downscaled(n) >= n,
        n > 0 ==> 4 * (downscaled(n) - 1) < n,
        n == 0 ==> downscaled(n) == 0,
{
}

/// The pixels of a depth buffer stand row by row from its start on, and no two share a place.
pub proof fn depth_pixels_stand_in_rows(b: DepthBuffer, x: int, y: int, u: int, v: int)
    requires
        0 <= x < b.width,
        0 <= y < b.height,
        0 <= u < b.width,
        0 <= v < b.height,
    ensures
        b.start <= pixel(b, x, y) < b.start + b.width * b.height,
        pixel(b, x, y) < pixel(b, u, v) <==> y < v || y == v && x < u,
        x + 1 < b.width ==> pixel(b, x + 1, y) == pixel(b, x, y) + 1,
        pixel(b, 0, 0) == b.start,
{
    pixel_bound(b, x, y);
    if y < v {
        assert(y * b.width + x < v * b.width + u) by (nonlinear_arith)
            requires
                0 <= x < b.width,
                0 <= u,
                0 <= y < v,
        ;
    }
    if v < y {
        assert(v * b.width + u < y * b.width + x) by (nonlinear_arith)
            requires
                0 <= u < b.width,
                0 <= x,
                0 <= v < y,
        ;
    }
    assert(0 * b.width == 0) by (nonlinear_arith);
}

/// Drawing keeps the nearest: a pixel that a face covers has the lower of its depth and the depth
/// of the face there, and one that it does not cover keeps its own.
pub proof fn drawing_keeps_the_nearest<C: Fn(u32, u32) -> Option<u32>>(
    before: Seq<u32>,
    after: Seq<u32>,
    b: DepthBuffer,
    cover: C,
    x: u32,
    y: u32,
) -> (z: Option<u32>)
    requires
        is_drawn(before, after, b, cover, x, y),
    ensures
        cover.ensures((x, y), z),
        ({
            let i = b.start + (y * b.width + x);
            match z {
                None => after[i] == before[i],
                Some(d) => after[i] <= before[i] && after[i] <= d && (after[i] == before[i]
                    || after[i] == d),
            }
        }),
{
    let i = pixel(b, x as int, y as int);
    choose|z: Option<u32>| #[trigger]
        cover.ensures((x, y), z) && after[i] == (if z is Some && z->0 < before[i] {
            z->0
        } else {
            before[i]
        })
}

/// The view of a face has a score above zero that no other kept view beats, and no earlier one
/// reaches; a face has none only if no kept view has a score above zero.
pub proof fn the_best_view_scores_highest(
    keep: Seq<bool>,
    scores: Seq<Option<F32>>,
    n: int,
    best: Option<usize>,
    v: int,
)
    requires
        is_best_view(keep, scores, n, best),
        0 <= v < n,
        keep[v],
        scores[v] is Some,
        !scores[v]->0.nan(),
    ensures
        best is None ==> scores[v]->0.rank() <= 0,
        best matches Some(b) ==> {
            &&& b < n && keep[b as int] && scores[b as int] is Some
            &&& scores[b as int]->0.rank() > 0 && !scores[b as int]->0.nan()
            &&& scores[v]->0.rank() <= scores[b as int]->0.rank()
            &&& scores[v]->0.rank() == scores[b as int]->0.rank() ==> b <= v
        },
{
}

/// The faces below `n` that are baked from view `v`.
pub open spec fn faces_from(best: Seq<Option<u32>>, v: u32, n: int) -> Set<int> {
    Set::new(|f: int| 0 <= f < n && best[f] == Some(v))
}

/// How often a view is used is how many faces are baked from it.
pub proof fn uses_count_faces(best: Seq<Option<u32>>, v: u32, n: int)
    requires
        0 <= n <= best.len(),
    ensures
        faces_from(best, v, n).finite(),
        faces_from(best, v, n).len() == uses(best, v as int, n),
    decreases n,
{
    if n > 0 {
        uses_count_faces(best, v, n - 1);
        let before = faces_from(best, v, n - 1);
        if best[n - 1] == Some(v) {
            assert(faces_from(best, v, n) =~= before.insert(n - 1));
        } else {
            assert(faces_from(best, v, n) =~= before);
        }
    } else {
        assert(faces_from(best, v, n) =~= Set::empty());
    }
}

/// Pruning keeps the most used views: one that is kept is the view of no fewer faces than one that
/// is not, and comes first where it is the view of as many.
pub proof fn pruning_keeps_the_most_used(
    best: Seq<Option<u32>>,
    n_views: nat,
    count: int,
    keep: Seq<bool>,
    a: u32,
    b: u32,
)
    requires
        is_pruned(best, n_views, count, keep),
        best.len() <= i64::MAX,
        a < n_views,
        b < n_views,
        keep[a as int],
        !keep[b as int],
    ensures
        ({
            let (x, y) = (
                faces_from(best, a, best.len() as int).len(),
                faces_from(best, b, best.len() as int).len(),
            );
            x > y || x == y && a < b
        }),
{
    let n = best.len() as int;
    let keys = most_used_first(best, n_views);
    let order = choose|order: Seq<usize>| #[trigger]
        sort::is_stable_order(keys, order) && (forall|k: int|
            0 <= k < n_views ==> keep[#[trigger] order[k] as int] == (k < count));
    uses_count_faces(best, a, n);
    uses_count_faces(best, b, n);
    uses_bound(best, a as int, n);
    uses_bound(best, b as int, n);
    assert(order.contains(a as usize) && order.contains(b as usize));
    let i = order.index_of(a as usize);
    let j = order.index_of(b as usize);
    assert(keep[order[i] as int] && !keep[order[j] as int]);
    assert(i < j);
    assert(sort::precedes(keys, order[i], order[j]));
}

/// No more views are kept than are asked for, and no fewer where there are as many.
pub proof fn pruning_keeps_as_many_as_asked(
    best: Seq<Option<u32>>,
    n_views: nat,
    count: int,
    keep: Seq<bool>,
) -> (order: Seq<usize>)
    requires
        is_pruned(best, n_views, count, keep),
    ensures
        order.len() == n_views,
        order.no_duplicates(),
        forall|k: int|
            #![trigger order[k]]
            0 <= k < n_views ==> order[k] < n_views && keep[order[k] as int] == (k < count),
{
    let keys = most_used_first(best, n_views);
    let order = choose|order: Seq<usize>| #[trigger]
        sort::is_stable_order(keys, order) && (forall|k: int|
            0 <= k < n_views ==> keep[#[trigger] order[k] as int] == (k < count));
    assert forall|i: int, j: int|
        0 <= i < order.len() && 0 <= j < order.len() && i != j implies order[i] != order[j] by {
        let (lo, hi) = if i < j {
            (i, j)
        } else {
            (j, i)
        };
        assert(sort::precedes(keys, order[lo], order[hi]));
    }
    order
}

/// The faces that no view sees.
pub open spec fn unseen_faces(best: Seq<Option<u32>>, n: int) -> Set<int> {
    Set::new(|f: int| 0 <= f < n && best[f] is None)
}

/// The faces that no view sees are counted once each.
pub proof fn unseen_faces_are_counted_once(best: Seq<Option<u32>>, n: int)
    requires
        0 <= n <= best.len(),
    ensures
        unseen_faces(best, n).finite(),
        unseen_faces(best, n).len() == unseen(best, n),
    decreases n,
{
    if n > 0 {
        unseen_faces_are_counted_once(best, n - 1);
        let before = unseen_faces(best, n - 1);
        if best[n - 1] is None {
            assert(unseen_faces(best, n) =~= before.insert(n - 1));
        } else {
            assert(unseen_faces(best, n) =~= before);
        }
    } else {
        assert(unseen_faces(best, n) =~= Set::empty());
    }
}

} // verus!
