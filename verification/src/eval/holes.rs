//! Enclosed background regions of a rendered mesh: cracks and pinholes that the covered
//! fraction of the image cannot resolve.

use crate::eval::raster::RgbImage;
use vstd::prelude::*;

verus! {

/// The pixel is background.
pub open spec fn is_black(p: [u8; 3]) -> bool {
    p[0] == 0 && p[1] == 0 && p[2] == 0
}

/// The background of an image `w` pixels wide, row by row.
pub struct Background {
    pub w: usize,
    pub h: usize,
    pub bg: Vec<bool>,
}

impl Background {
    pub open spec fn wf(&self) -> bool {
        self.bg@.len() == self.w * self.h
    }

    /// Pixel `i` is background.
    pub open spec fn empty(&self, i: int) -> bool {
        0 <= i < self.bg@.len() && self.bg@[i]
    }

    /// Pixels `i` and `j` share an edge.
    pub open spec fn adjacent(&self, i: int, j: int) -> bool {
        let w = self.w as int;
        ||| i / w == j / w && (i == j + 1 || j == i + 1)
        ||| i == j + w
        ||| j == i + w
    }

    /// Pixel `i` is on the border of the image.
    pub open spec fn on_border(&self, i: int) -> bool {
        let w = self.w as int;
        &&& 0 <= i < self.bg@.len()
        &&& (i % w == 0 || i % w == w - 1 || i / w == 0 || i / w == self.h - 1)
    }

    /// The path goes from one background pixel to an adjacent one at each step.
    pub open spec fn is_path(&self, path: Seq<int>) -> bool {
        &&& path.len() > 0
        &&& forall|k: int| 0 <= k < path.len() ==> self.empty(#[trigger] path[k])
        &&& forall|k: int|
            #![trigger path[k]]
            0 <= k < path.len() - 1 ==> self.adjacent(path[k], path[k + 1])
    }

    /// Background pixels `i` and `j` belong to one region.
    pub open spec fn connected(&self, i: int, j: int) -> bool {
        exists|path: Seq<int>| #[trigger] self.is_path(path) && path[0] == i && path.last() == j
    }

    /// The region of background pixel `i` reaches the border.
    pub open spec fn reaches_border(&self, i: int) -> bool {
        exists|b: int| self.on_border(b) && #[trigger] self.connected(b, i)
    }

    /// Pixel `i` is the first one of an enclosed region.
    pub open spec fn starts_hole(&self, i: int) -> bool {
        &&& self.empty(i)
        &&& !self.reaches_border(i)
        &&& forall|j: int| 0 <= j < i ==> !#[trigger] self.connected(j, i)
    }

    /// The number of enclosed regions that start before pixel `n`.
    pub open spec fn holes(&self, n: int) -> nat
        decreases n,
    {
        if n <= 0 {
            0
        } else if self.starts_hole(n - 1) {
            self.holes(n - 1) + 1
        } else {
            self.holes(n - 1)
        }
    }

    /// A visited background pixel has no background neighbour that is not visited.
    spec fn is_closed(&self, visited: Seq<bool>) -> bool {
        forall|i: int, j: int|
            #![trigger self.adjacent(i, j)]
            0 <= i < visited.len() && visited[i] && self.empty(j) && self.adjacent(i, j)
                ==> visited[j]
    }

    proof fn connected_self(&self, i: int)
        requires
            self.empty(i),
        ensures
            self.connected(i, i),
    {
        let path = seq![i];
        assert(self.is_path(path) && path[0] == i && path.last() == i);
    }

    proof fn connected_step(&self, i: int, j: int, k: int)
        requires
            self.connected(i, j),
            self.empty(k),
            self.adjacent(j, k),
        ensures
            self.connected(i, k),
    {
        let path = choose|path: Seq<int>| #[trigger]
            self.is_path(path) && path[0] == i && path.last() == j;
        let longer = path.push(k);
        assert forall|m: int| #![trigger longer[m]] 0 <= m < longer.len() - 1 implies self.adjacent(
            longer[m],
            longer[m + 1],
        ) by {
            if m < path.len() - 1 {
                assert(longer[m] == path[m] && longer[m + 1] == path[m + 1]);
            }
        }
        assert(self.is_path(longer) && longer[0] == i && longer.last() == k);
    }

    proof fn adjacent_sym(&self, i: int, j: int)
        requires
            self.adjacent(i, j),
        ensures
            self.adjacent(j, i),
    {
    }

    /// Regions are the same from either end.
    pub proof fn connected_sym(&self, i: int, j: int)
        requires
            self.connected(i, j),
        ensures
            self.connected(j, i),
    {
        let path = choose|path: Seq<int>| #[trigger]
            self.is_path(path) && path[0] == i && path.last() == j;
        let back = path.reverse();
        let n = path.len() as int;
        assert forall|m: int| 0 <= m < back.len() implies self.empty(#[trigger] back[m]) by {
            assert(back[m] == path[n - 1 - m]);
        }
        assert forall|m: int| #![trigger back[m]] 0 <= m < back.len() - 1 implies self.adjacent(
            back[m],
            back[m + 1],
        ) by {
            assert(back[m] == path[n - 1 - m] && back[m + 1] == path[n - 2 - m]);
            assert(path[n - 2 - m + 1] == path[n - 1 - m]);
            self.adjacent_sym(path[n - 2 - m], path[n - 1 - m]);
        }
        assert(self.is_path(back) && back[0] == j && back.last() == i);
    }

    /// Pixels that share a region with a third one share a region.
    pub proof fn connected_trans(&self, i: int, j: int, k: int)
        requires
            self.connected(i, j),
            self.connected(j, k),
        ensures
            self.connected(i, k),
    {
        let path = choose|path: Seq<int>| #[trigger]
            self.is_path(path) && path[0] == j && path.last() == k;
        self.extend(i, path, path.len() - 1);
    }

    proof fn extend(&self, i: int, path: Seq<int>, n: int)
        requires
            self.is_path(path),
            self.connected(i, path[0]),
            0 <= n < path.len(),
        ensures
            self.connected(i, path[n]),
        decreases n,
    {
        if n > 0 {
            self.extend(i, path, n - 1);
            assert(self.empty(path[n]));
            assert(self.adjacent(path[n - 1], path[n - 1 + 1]));
            self.connected_step(i, path[n - 1], path[n]);
        }
    }

    /// An enclosed background pixel belongs to the region of exactly one first pixel, so that
    /// the number of first pixels is the number of enclosed regions.
    pub proof fn enclosed_regions_have_one_start(&self, i: int) -> (s: int)
        requires
            self.empty(i),
            !self.reaches_border(i),
        ensures
            self.starts_hole(s),
            self.connected(s, i),
            forall|t: int| #[trigger] self.starts_hole(t) && self.connected(t, i) ==> t == s,
    {
        self.connected_self(i);
        let s = self.first_in_region(i, i);
        assert forall|t: int| #[trigger] self.starts_hole(t) && self.connected(t, i) implies t == s by {
            self.connected_sym(s, i);
            self.connected_sym(t, i);
            self.connected_trans(t, i, s);
            self.connected_trans(s, i, t);
        }
        s
    }

    proof fn first_in_region(&self, i: int, k: int) -> (s: int)
        requires
            self.empty(i),
            !self.reaches_border(i),
            self.connected(k, i),
            self.empty(k),
        ensures
            self.starts_hole(s),
            self.connected(s, i),
        decreases k,
    {
        if self.reaches_border(k) {
            let b = choose|b: int| self.on_border(b) && #[trigger] self.connected(b, k);
            self.connected_trans(b, k, i);
        }
        if self.starts_hole(k) {
            k
        } else {
            let j = choose|j: int| 0 <= j < k && #[trigger] self.connected(j, k);
            self.connected_trans(j, k, i);
            let path = choose|path: Seq<int>| #[trigger]
                self.is_path(path) && path[0] == j && path.last() == k;
            assert(self.empty(path[0]));
            self.first_in_region(i, j)
        }
    }

    /// A closed set that holds one end of a path holds the other.
    proof fn closed_along(&self, visited: Seq<bool>, path: Seq<int>, k: int)
        requires
            visited.len() == self.bg@.len(),
            self.is_closed(visited),
            self.is_path(path),
            0 <= k < path.len(),
            visited[path[0]],
        ensures
            visited[path[k]],
        decreases k,
    {
        if k > 0 {
            self.closed_along(visited, path, k - 1);
            assert(self.empty(path[k - 1]) && self.empty(path[k]));
            assert(self.adjacent(path[k - 1], path[k - 1 + 1]));
        }
    }

    proof fn closed_region(&self, visited: Seq<bool>, i: int, j: int)
        requires
            visited.len() == self.bg@.len(),
            self.is_closed(visited),
            self.connected(i, j),
            visited[i],
        ensures
            visited[j],
    {
        let path = choose|path: Seq<int>| #[trigger]
            self.is_path(path) && path[0] == i && path.last() == j;
        self.closed_along(visited, path, path.len() - 1);
    }
}

/// The number of places that are not visited.
spec fn unvisited(visited: Seq<bool>) -> nat
    decreases visited.len(),
{
    if visited.len() == 0 {
        0
    } else {
        unvisited(visited.drop_last()) + (if visited.last() {
            0nat
        } else {
            1nat
        })
    }
}

proof fn visiting_lowers(visited: Seq<bool>, i: int)
    requires
        0 <= i < visited.len(),
        !visited[i],
    ensures
        unvisited(visited.update(i, true)) + 1 == unvisited(visited),
    decreases visited.len(),
{
    let after = visited.update(i, true);
    if i == visited.len() - 1 {
        assert(after.drop_last() =~= visited.drop_last());
    } else {
        visiting_lowers(visited.drop_last(), i);
        assert(after.drop_last() =~= visited.drop_last().update(i, true));
    }
}

/// Some pixel that is connected to `i` was a seed.
spec fn from_seed(g: &Background, seeds: Seq<usize>, i: int) -> bool {
    exists|k: int| 0 <= k < seeds.len() && g.connected(#[trigger] seeds[k] as int, i)
}

/// Pixel `j` is among `list`.
spec fn lists(list: Seq<usize>, j: int) -> bool {
    exists|k: int| 0 <= k < list.len() && #[trigger] list[k] == j
}

/// What holds while a region is flooded from `seeds`, with `before` visited already.
spec fn is_flooding(
    g: &Background,
    seeds: Seq<usize>,
    before: Seq<bool>,
    visited: Seq<bool>,
    stack: Seq<usize>,
) -> bool {
    &&& visited.len() == g.bg@.len()
    &&& before.len() == g.bg@.len()
    &&& forall|k: int| 0 <= k < stack.len() ==> #[trigger] stack[k] < g.bg@.len()
    &&& forall|i: int| 0 <= i < visited.len() && before[i] ==> #[trigger] visited[i]
    &&& forall|i: int|
        0 <= i < visited.len() && #[trigger] visited[i] ==> g.empty(i) && (before[i] || from_seed(
            g,
            seeds,
            i,
        ))
    &&& forall|k: int|
        0 <= k < stack.len() && g.empty(#[trigger] stack[k] as int) ==> from_seed(
            g,
            seeds,
            stack[k] as int,
        )
    &&& forall|i: int, j: int|
        #![trigger g.adjacent(i, j)]
        0 <= i < visited.len() && visited[i] && g.empty(j) && g.adjacent(i, j) ==> visited[j]
            || lists(stack, j)
    &&& forall|k: int|
        0 <= k < seeds.len() && g.empty(#[trigger] seeds[k] as int) ==> visited[seeds[k] as int]
            || lists(stack, seeds[k] as int)
}

/// The neighbours of pixel `i`, where they are in the image.
fn neighbours(w: usize, h: usize, i: usize) -> (r: Vec<usize>)
    requires
        i < w * h,
        w * h <= usize::MAX,
    ensures
        forall|k: int| 0 <= k < r@.len() ==> #[trigger] r@[k] < w * h && is_neighbour(
            w,
            i as int,
            r@[k] as int,
        ),
        forall|j: int|
            0 <= j < w * h && #[trigger] is_neighbour(w, i as int, j) ==> lists(r@, j),
{
    let mut r: Vec<usize> = Vec::new();
    assert(w > 0) by (nonlinear_arith)
        requires
            i < w * h,
            i >= 0,
            w >= 0,
    ;
    let x: usize = i % w;
    let y: usize = i / w;
    let ghost (ii, ww, hh, xx, yy) = (i as int, w as int, h as int, x as int, y as int);
    assert(ii == yy * ww + xx && 0 <= xx < ww) by (nonlinear_arith)
        requires
            ww > 0,
            ii >= 0,
            xx == ii % ww,
            yy == ii / ww,
    ;
    assert(0 <= yy < hh) by (nonlinear_arith)
        requires
            ii == yy * ww + xx,
            0 <= xx < ww,
            0 <= ii < ww * hh,
    ;
    proof {
        row_of(ww, yy, xx);
        if xx > 0 {
            row_of(ww, yy, xx - 1);
        }
        if xx + 1 < ww {
            row_of(ww, yy, xx + 1);
            assert(yy * ww + xx + 1 < ww * hh) by (nonlinear_arith)
                requires
                    0 <= yy < hh,
                    0 <= xx,
                    xx + 1 < ww,
            ;
        }
        if yy > 0 {
            assert(ii - ww >= 0) by (nonlinear_arith)
                requires
                    ii == yy * ww + xx,
                    yy >= 1,
                    xx >= 0,
                    ww > 0,
            ;
        } else {
            assert(ii < ww) by (nonlinear_arith)
                requires
                    ii == yy * ww + xx,
                    yy == 0,
                    xx < ww,
            ;
        }
        if yy + 1 < hh {
            assert(ii + ww < ww * hh) by (nonlinear_arith)
                requires
                    ii == yy * ww + xx,
                    yy + 1 < hh,
                    0 <= xx < ww,
            ;
        } else {
            assert(ii + ww >= ww * hh) by (nonlinear_arith)
                requires
                    ii == yy * ww + xx,
                    yy + 1 >= hh,
                    0 <= xx < ww,
            ;
        }
    }
    let ghost (left, right, up, down) = (
        x > 0,
        x + 1 < w,
        y > 0,
        y + 1 < h,
    );
    if x > 0 {
        r.push(i - 1);
        assert(r@[0] == i - 1);
    }
    let ghost r1 = r@;
    if x + 1 < w {
        r.push(i + 1);
        assert(r@.last() == i + 1);
    }
    let ghost r2 = r@;
    if y > 0 {
        r.push(i - w);
        assert(r@.last() == i - w);
    }
    let ghost r3 = r@;
    if y + 1 < h {
        r.push(i + w);
        assert(r@.last() == i + w);
    }
    proof {
        assert(left ==> r@[0] == i - 1);
        assert(right ==> r@[r1.len() as int] == i + 1);
        assert(up ==> r@[r2.len() as int] == i - w);
        assert(down ==> r@[r3.len() as int] == i + w);
        assert forall|j: int|
            0 <= j < w * h && #[trigger] is_neighbour(w, ii, j) implies lists(r@, j) by {
            if j == ii - 1 && ii / ww == j / ww {
                row_bounds(ww, j);
                assert(left);
                assert(r@[0] == j);
            } else if j == ii + 1 && ii / ww == j / ww {
                row_bounds(ww, j);
                assert(right);
                assert(r@[r1.len() as int] == j);
            } else if j == ii - ww {
                assert(up);
                assert(r@[r2.len() as int] == j);
            } else {
                assert(j == ii + ww);
                assert(down);
                assert(r@[r3.len() as int] == j);
            }
        }
    }
    r
}

/// Pixels `i` and `j` of an image of width `w` share an edge.
pub open spec fn is_neighbour(w: usize, i: int, j: int) -> bool {
    ||| i / (w as int) == j / (w as int) && (i == j + 1 || j == i + 1)
    ||| i == j + w
    ||| j == i + w
}

proof fn row_bounds(w: int, j: int)
    requires
        w > 0,
    ensures
        (j / w) * w <= j < (j / w) * w + w,
{
    assert((j / w) * w <= j < (j / w) * w + w) by (nonlinear_arith)
        requires
            w > 0,
    ;
}

proof fn row_of(w: int, y: int, x: int)
    requires
        0 <= x < w,
        0 <= y,
    ensures
        (y * w + x) / w == y,
        (y * w + x) % w == x,
{
    assert((y * w + x) / w == y) by (nonlinear_arith)
        requires
            0 <= x < w,
            0 <= y,
    ;
    assert((y * w + x) % w == x) by (nonlinear_arith)
        requires
            0 <= x < w,
            0 <= y,
    ;
}

/// Visit the regions of the pixels on the stack.
fn flood(g: &Background, stack: &mut Vec<usize>, visited: &mut Vec<bool>)
    requires
        g.wf(),
        old(visited)@.len() == g.bg@.len(),
        forall|k: int| 0 <= k < old(stack)@.len() ==> #[trigger] old(stack)@[k] < g.bg@.len(),
        g.is_closed(old(visited)@),
        forall|i: int|
            0 <= i < old(visited)@.len() && #[trigger] old(visited)@[i] ==> g.empty(i),
    ensures
        final(stack)@.len() == 0,
        is_flooding(g, old(stack)@, old(visited)@, final(visited)@, Seq::empty()),
        g.is_closed(final(visited)@),
{
    let ghost seeds = stack@;
    let ghost before = visited@;
    proof {
        assert forall|k: int|
            0 <= k < seeds.len() && g.empty(#[trigger] seeds[k] as int) implies from_seed(
            g,
            seeds,
            seeds[k] as int,
        ) by {
            g.connected_self(seeds[k] as int);
        }
    }
    while stack.len() > 0
        invariant
            g.wf(),
            is_flooding(g, seeds, before, visited@, stack@),
        decreases unvisited(visited@), stack@.len(),
    {
        let ghost s0 = stack@;
        let ghost v0 = visited@;
        let i: usize = match stack.pop() {
            Some(i) => i,
            None => {
                return ;
            },
        };
        assert(s0[s0.len() - 1] == i);
        assert(stack@ =~= s0.drop_last());
        if visited[i] || !g.bg[i] {
            proof {
                keep_flooding(g, seeds, before, v0, s0, stack@, i);
            }
        } else {
            visited.set(i, true);
            proof {
                visiting_lowers(v0, i as int);
            }
            assert(g.bg.len() <= usize::MAX);
            let near = neighbours(g.w, g.h, i);
            for k in 0..near.len()
                invariant
                    s0.len() > 0,
                    stack@ =~= s0.drop_last() + near@.take(k as int),
            {
                stack.push(near[k]);
            }
            proof {
                assert(near@.take(near@.len() as int) =~= near@);
                visit_one(g, seeds, before, v0, s0, near@, i);
            }
        }
    }
    proof {
        assert(stack@ =~= Seq::<usize>::empty());
        assert forall|i: int, j: int|
            #![trigger g.adjacent(i, j)]
            0 <= i < visited@.len() && visited@[i] && g.empty(j) && g.adjacent(i, j)
            implies visited@[j] by {}
    }
}

/// A pixel that needs no visit leaves the stack.
proof fn keep_flooding(
    g: &Background,
    seeds: Seq<usize>,
    before: Seq<bool>,
    visited: Seq<bool>,
    s0: Seq<usize>,
    s1: Seq<usize>,
    i: usize,
)
    requires
        is_flooding(g, seeds, before, visited, s0),
        s0.len() > 0,
        s1 == s0.drop_last(),
        i == s0.last(),
        visited[i as int] || !g.bg@[i as int],
    ensures
        is_flooding(g, seeds, before, visited, s1),
{
    assert forall|k: int| 0 <= k < s1.len() implies #[trigger] s1[k] == s0[k] by {}
    assert forall|a: int, b: int|
        #![trigger g.adjacent(a, b)]
        0 <= a < visited.len() && visited[a] && g.empty(b) && g.adjacent(a, b) implies visited[b]
        || lists(s1, b) by {
        if !visited[b] {
            let m = choose|m: int| 0 <= m < s0.len() && #[trigger] s0[m] == b;
            assert(m < s1.len());
            assert(s1[m] == b);
        }
    }
    assert forall|k: int|
        0 <= k < seeds.len() && g.empty(#[trigger] seeds[k] as int) implies visited[seeds[k] as int]
        || lists(s1, seeds[k] as int) by {
        if !visited[seeds[k] as int] {
            let m = choose|m: int| 0 <= m < s0.len() && #[trigger] s0[m] == seeds[k] as int;
            assert(m < s1.len());
            assert(s1[m] == seeds[k]);
        }
    }
}

/// A background pixel is visited, and its neighbours go on the stack.
proof fn visit_one(
    g: &Background,
    seeds: Seq<usize>,
    before: Seq<bool>,
    v0: Seq<bool>,
    s0: Seq<usize>,
    near: Seq<usize>,
    i: usize,
)
    requires
        g.wf(),
        is_flooding(g, seeds, before, v0, s0),
        s0.len() > 0,
        i == s0.last(),
        !v0[i as int],
        g.empty(i as int),
        forall|k: int| 0 <= k < near.len() ==> #[trigger] near[k] < g.bg@.len() && is_neighbour(
            g.w,
            i as int,
            near[k] as int,
        ),
        forall|j: int|
            0 <= j < g.bg@.len() && #[trigger] is_neighbour(g.w, i as int, j) ==> lists(near, j),
    ensures
        is_flooding(g, seeds, before, v0.update(i as int, true), s0.drop_last() + near),
{
    let v1 = v0.update(i as int, true);
    let s1 = s0.drop_last() + near;
    assert(from_seed(g, seeds, s0[s0.len() - 1] as int));
    assert forall|k: int| 0 <= k < s1.len() && g.empty(#[trigger] s1[k] as int) implies from_seed(
        g,
        seeds,
        s1[k] as int,
    ) by {
        if k < s0.len() - 1 {
            assert(s1[k] == s0[k]);
        } else {
            let m = k - (s0.len() - 1);
            assert(s1[k] == near[m]);
            let q = choose|q: int|
                0 <= q < seeds.len() && g.connected(#[trigger] seeds[q] as int, i as int);
            assert(g.adjacent(i as int, near[m] as int));
            g.connected_step(seeds[q] as int, i as int, near[m] as int);
        }
    }
    assert forall|k: int| 0 <= k < s1.len() implies #[trigger] s1[k] < g.bg@.len() by {
        if k < s0.len() - 1 {
            assert(s1[k] == s0[k]);
        } else {
            assert(s1[k] == near[k - (s0.len() - 1)]);
        }
    }
    assert forall|a: int, b: int|
        #![trigger g.adjacent(a, b)]
        0 <= a < v1.len() && v1[a] && g.empty(b) && g.adjacent(a, b) implies v1[b] || lists(s1, b) by {
        if a == i {
            assert(is_neighbour(g.w, i as int, b));
            let m = choose|m: int| 0 <= m < near.len() && #[trigger] near[m] == b;
            assert(s1[s0.len() - 1 + m] == b);
        } else if !v1[b] {
            assert(lists(s0, b));
            let m = choose|m: int| 0 <= m < s0.len() && #[trigger] s0[m] == b;
            assert(m < s0.len() - 1);
            assert(s1[m] == b);
        }
    }
    assert forall|k: int|
        0 <= k < seeds.len() && g.empty(#[trigger] seeds[k] as int) implies v1[seeds[k] as int]
        || lists(s1, seeds[k] as int) by {
        if !v1[seeds[k] as int] {
            assert(lists(s0, seeds[k] as int));
            let m = choose|m: int| 0 <= m < s0.len() && #[trigger] s0[m] == seeds[k] as int;
            assert(m < s0.len() - 1);
            assert(s1[m] == seeds[k]);
        }
    }
}

impl Background {
    /// `self` is the background of `img`.
    pub open spec fn is_of(&self, img: &RgbImage) -> bool {
        &&& self.w == img.width
        &&& self.h == img.height
        &&& self.bg@ == Seq::new(img.pixels@.len(), |i: int| is_black(img.pixels@[i]))
    }

    /// The background of an image.
    pub fn of(img: &RgbImage) -> (r: Background)
        requires
            img.wf(),
        ensures
            r.is_of(img),
            r.wf(),
    {
        let mut bg: Vec<bool> = Vec::new();
        for i in 0..img.pixels.len()
            invariant
                bg@ =~= Seq::new(i as nat, |k: int| is_black(img.pixels@[k])),
        {
            let p = img.pixels[i];
            bg.push(p[0] == 0 && p[1] == 0 && p[2] == 0);
        }
        Background { w: img.width as usize, h: img.height as usize, bg }
    }

    /// All pixels of the border.
    fn border(&self) -> (r: Vec<usize>)
        requires
            self.wf(),
            self.w > 0,
            self.h > 0,
        ensures
            forall|k: int| 0 <= k < r@.len() ==> self.on_border(#[trigger] r@[k] as int),
            forall|i: int| #[trigger] self.on_border(i) ==> lists(r@, i),
    {
        let mut r: Vec<usize> = Vec::new();
        let n: usize = self.bg.len();
        for i in 0..n
            invariant
                self.wf(),
                self.w > 0,
                self.h > 0,
                n == self.bg@.len(),
                forall|k: int| 0 <= k < r@.len() ==> self.on_border(#[trigger] r@[k] as int),
                forall|j: int| #[trigger] self.on_border(j) && j < i ==> lists(r@, j),
        {
            let ghost before = r@;
            let x: usize = i % self.w;
            let y: usize = i / self.w;
            if x == 0 || x == self.w - 1 || y == 0 || y == self.h - 1 {
                r.push(i);
                assert(r@[before.len() as int] == i);
            }
            proof {
                assert forall|j: int| #[trigger] self.on_border(j) && j < i + 1 implies lists(
                    r@,
                    j,
                ) by {
                    if j < i {
                        let k = choose|k: int| 0 <= k < before.len() && #[trigger] before[k] == j;
                        assert(r@[k] == j);
                    }
                }
            }
        }
        r
    }

    /// The number of enclosed regions.
    pub fn count_holes(&self) -> (holes: usize)
        requires
            self.wf(),
            self.w > 0,
            self.h > 0,
        ensures
            holes == self.holes(self.bg@.len() as int),
    {
        let n: usize = self.bg.len();
        let mut visited: Vec<bool> = Vec::new();
        for i in 0..n
            invariant
                visited@.len() == i,
                forall|k: int| 0 <= k < i ==> !#[trigger] visited@[k],
        {
            visited.push(false);
        }
        let mut stack = self.border();
        let ghost border = stack@;
        flood(self, &mut stack, &mut visited);
        let mut holes: usize = 0;
        proof {
            assert forall|b: int| #[trigger] self.on_border(b) && self.empty(b) implies visited@[b] by {
                let k = choose|k: int| 0 <= k < border.len() && #[trigger] border[k] == b;
                assert(self.empty(border[k] as int));
            }
            assert forall|i: int| 0 <= i < n && #[trigger] visited@[i] implies accounted(self, 0, i) by {
                let k = choose|k: int|
                    0 <= k < border.len() && self.connected(#[trigger] border[k] as int, i);
                assert(self.on_border(border[k] as int));
            }
        }
        for s in 0..n
            invariant
                self.wf(),
                n == self.bg@.len(),
                visited@.len() == n,
                stack@.len() == 0,
                holes == self.holes(s as int),
                holes <= s,
                self.is_closed(visited@),
                forall|i: int| 0 <= i < n && #[trigger] visited@[i] ==> self.empty(i) && accounted(
                    self,
                    s as int,
                    i,
                ),
                forall|b: int| #[trigger] self.on_border(b) && self.empty(b) ==> visited@[b],
                forall|j: int| 0 <= j < s && self.empty(j) ==> #[trigger] visited@[j],
        {
            let ghost v0 = visited@;
            if self.bg[s] && !visited[s] {
                proof {
                    unvisited_starts_hole(self, v0, s as int);
                }
                holes += 1;
                stack.push(s);
                let ghost seeds = stack@;
                flood(self, &mut stack, &mut visited);
                proof {
                    assert(seeds[0] == s);
                    assert(self.empty(seeds[0] as int));
                    assert forall|i: int| 0 <= i < n && #[trigger] visited@[i] implies self.empty(i)
                        && accounted(self, s + 1, i) by {
                        if v0[i] {
                            accounted_later(self, s as int, i);
                        } else {
                            let k = choose|k: int|
                                0 <= k < seeds.len() && self.connected(#[trigger] seeds[k] as int, i);
                            assert(self.starts_hole(s as int) && self.connected(s as int, i));
                        }
                    }
                }
            } else {
                proof {
                    if self.empty(s as int) {
                        assert(v0[s as int]);
                        if self.starts_hole(s as int) {
                            let t = choose|t: int|
                                0 <= t < s && #[trigger] self.starts_hole(t) && self.connected(
                                    t,
                                    s as int,
                                );
                            assert(self.connected(t, s as int));
                        }
                    }
                    assert forall|i: int| 0 <= i < n && #[trigger] visited@[i] implies accounted(
                        self,
                        s + 1,
                        i,
                    ) by {
                        accounted_later(self, s as int, i);
                    }
                }
            }
        }
        holes
    }
}

/// Pixel `i` reaches the border, or belongs to an enclosed region that starts before `n`.
spec fn accounted(g: &Background, n: int, i: int) -> bool {
    ||| g.reaches_border(i)
    ||| exists|t: int| 0 <= t < n && #[trigger] g.starts_hole(t) && g.connected(t, i)
}

proof fn accounted_later(g: &Background, n: int, i: int)
    requires
        accounted(g, n, i),
    ensures
        accounted(g, n + 1, i),
{
    if !g.reaches_border(i) {
        let t = choose|t: int| 0 <= t < n && #[trigger] g.starts_hole(t) && g.connected(t, i);
        assert(g.starts_hole(t) && g.connected(t, i));
    }
}

/// A background pixel that was not visited after all before it starts a region.
proof fn unvisited_starts_hole(g: &Background, visited: Seq<bool>, s: int)
    requires
        visited.len() == g.bg@.len(),
        g.is_closed(visited),
        forall|b: int| #[trigger] g.on_border(b) && g.empty(b) ==> visited[b],
        forall|j: int| 0 <= j < s && g.empty(j) ==> #[trigger] visited[j],
        g.empty(s),
        !visited[s],
    ensures
        g.starts_hole(s),
{
    if g.reaches_border(s) {
        let b = choose|b: int| g.on_border(b) && #[trigger] g.connected(b, s);
        let path = choose|path: Seq<int>| #[trigger]
            g.is_path(path) && path[0] == b && path.last() == s;
        assert(g.empty(path[0]));
        g.closed_region(visited, b, s);
    }
    assert forall|j: int| 0 <= j < s implies !#[trigger] g.connected(j, s) by {
        if g.connected(j, s) {
            let path = choose|path: Seq<int>| #[trigger]
                g.is_path(path) && path[0] == j && path.last() == s;
            assert(g.empty(path[0]));
            g.closed_region(visited, j, s);
        }
    }
}

/// Count the enclosed background regions of an image: black regions that do not reach its
/// border.
pub fn count_enclosed_holes(img: &RgbImage) -> (holes: usize)
    requires
        img.wf(),
        img.width > 0 <==> img.height > 0,
    ensures
        exists|g: Background| #[trigger]
            g.is_of(img) && g.wf() && holes == g.holes(g.bg@.len() as int),
{
    let g = Background::of(img);
    if img.width == 0 {
        assert(img.pixels@.len() == 0) by (nonlinear_arith)
            requires
                img.pixels@.len() == img.width * img.height,
                img.width == 0,
        ;
        return 0;
    }
    g.count_holes()
}

impl Background {
    /// Pixels share an edge if and only if they are next to each other in one row or one column.
    pub proof fn neighbours_differ_by_one(&self, x: int, y: int, u: int, v: int)
        requires
            self.w > 0,
            0 <= x < self.w,
            0 <= u < self.w,
            0 <= y,
            0 <= v,
        ensures
            self.adjacent(y * self.w + x, v * self.w + u) <==> (y == v && (x == u + 1 || u == x + 1)
                || x == u && (y == v + 1 || v == y + 1)),
    {
        let w = self.w as int;
        row_of(w, y, x);
        row_of(w, v, u);
        let (i, j) = (y * w + x, v * w + u);
        assert((y + 1) * w == y * w + w && (v + 1) * w == v * w + w) by (nonlinear_arith);
        if i == j + w {
            row_of(w, v + 1, u);
        }
        if j == i + w {
            row_of(w, y + 1, x);
        }
    }

    /// The border is the first and last column and the first and last row.
    pub proof fn the_border_is_the_outermost_pixels(&self, x: int, y: int)
        requires
            self.wf(),
            0 <= x < self.w,
            0 <= y < self.h,
        ensures
            self.on_border(y * self.w + x) <==> x == 0 || x == self.w - 1 || y == 0 || y == self.h - 1,
    {
        let w = self.w as int;
        row_of(w, y, x);
        assert(0 <= y * w + x < w * self.h) by (nonlinear_arith)
            requires
                0 <= x < w,
                0 <= y < self.h,
        ;
    }

    /// A region is made of neighbours: a set of pixels that has with a background pixel all its
    /// neighbours in the background has the region of each of its pixels, and neighbours in the
    /// background are in one region.
    pub proof fn regions_stay_in_closed_sets(&self, set: Set<int>, i: int, j: int)
        requires
            self.connected(i, j),
            set.contains(i),
            forall|a: int, b: int|
                set.contains(a) && self.empty(a) && self.empty(b) && #[trigger] self.adjacent(a, b)
                    ==> set.contains(b),
        ensures
            set.contains(j),
            self.empty(i),
            self.empty(j),
    {
        let path = choose|path: Seq<int>| #[trigger]
            self.is_path(path) && path[0] == i && path.last() == j;
        self.paths_stay_in_closed_sets(set, path, path.len() - 1);
        assert(self.empty(path[0]) && self.empty(path[path.len() - 1]));
    }

    proof fn paths_stay_in_closed_sets(&self, set: Set<int>, path: Seq<int>, k: int)
        requires
            self.is_path(path),
            set.contains(path[0]),
            forall|a: int, b: int|
                set.contains(a) && self.empty(a) && self.empty(b) && #[trigger] self.adjacent(a, b)
                    ==> set.contains(b),
            0 <= k < path.len(),
        ensures
            set.contains(path[k]),
        decreases k,
    {
        if k > 0 {
            self.paths_stay_in_closed_sets(set, path, k - 1);
            assert(self.empty(path[k - 1]) && self.empty(path[k]));
            assert(self.adjacent(path[k - 1], path[(k - 1) + 1]));
        }
    }

    /// Neighbours in the background are in one region.
    pub proof fn neighbours_are_connected(&self, i: int, j: int)
        requires
            self.empty(i),
            self.empty(j),
            self.adjacent(i, j),
        ensures
            self.connected(i, j),
    {
        let path = seq![i, j];
        assert(self.adjacent(path[0], path[0int + 1]));
        assert(self.is_path(path));
    }

    /// The first pixels of the enclosed regions.
    pub open spec fn starts_before(&self, n: int) -> Set<int> {
        Set::new(|i: int| 0 <= i < n && self.starts_hole(i))
    }

    /// Holes are counted by their first pixels.
    pub proof fn holes_are_counted_once(&self, n: int)
        requires
            0 <= n,
        ensures
            self.starts_before(n).finite(),
            self.starts_before(n).len() == self.holes(n),
        decreases n,
    {
        if n > 0 {
            self.holes_are_counted_once(n - 1);
            let before = self.starts_before(n - 1);
            if self.starts_hole(n - 1) {
                assert(self.starts_before(n) =~= before.insert(n - 1));
            } else {
                assert(self.starts_before(n) =~= before);
            }
        } else {
            assert(self.starts_before(n) =~= Set::empty());
        }
    }
}

/// The background of an image is where it is black in all three channels.
pub proof fn the_background_is_black(g: &Background, img: &RgbImage, x: int, y: int)
    requires
        g.is_of(img),
        img.wf(),
        0 <= x < img.width,
        0 <= y < img.height,
    ensures
        g.empty(y * img.width + x) <==> img.at(x, y)[0] == 0 && img.at(x, y)[1] == 0 && img.at(
            x,
            y,
        )[2] == 0,
{
    assert(0 <= y * img.width + x < img.width * img.height) by (nonlinear_arith)
        requires
            0 <= x < img.width,
            0 <= y < img.height,
    ;
}

impl Background {
    /// A hole begins with the first pixel of a region that has no pixel on the border.
    pub proof fn holes_touch_no_border(&self, i: int)
        ensures
            self.starts_hole(i) <==> self.empty(i) && forall|j: int| #[trigger]
                self.connected(j, i) ==> !(0 <= j < i) && !self.on_border(j),
    {
        if self.empty(i) && (forall|j: int| #[trigger]
            self.connected(j, i) ==> !(0 <= j < i) && !self.on_border(j)) {
            assert(!self.reaches_border(i));
        }
        if self.starts_hole(i) {
            assert forall|j: int| #[trigger] self.connected(j, i) implies !(0 <= j < i)
                && !self.on_border(j) by {
                assert(!self.reaches_border(i));
            }
        }
    }
}

} // verus!
