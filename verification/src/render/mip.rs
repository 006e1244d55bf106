//! Mip levels of an RGBA texture, by box filter.

use vstd::prelude::*;

verus! {

/// One level: four bytes per texel, row by row.
pub struct Level {
    pub width: usize,
    pub height: usize,
    pub rgba: Vec<u8>,
}

/// The number of binary digits of `n`.
pub open spec fn bit_length(n: nat) -> nat
    decreases n,
{
    if n == 0 {
        0
    } else {
        bit_length(n / 2) + 1
    }
}

/// The number of levels of a texture: halving stops when the shorter side is one texel.
pub fn mip_count(width: usize, height: usize) -> (r: usize)
    ensures
        r == bit_length(
            if width <= height {
                width as nat
            } else {
                height as nat
            },
        ),
{
    let side: usize = if width <= height {
        width
    } else {
        height
    };
    let mut left: usize = side;
    let mut r: usize = 0;
    while left > 0
        invariant
            r + bit_length(left as nat) == bit_length(side as nat),
            r + left <= side,
        decreases left,
    {
        left = left / 2;
        r += 1;
    }
    r
}

pub open spec fn halved(n: int) -> int {
    if n / 2 >= 1 {
        n / 2
    } else {
        1
    }
}

pub open spec fn clamped(i: int, n: int) -> int {
    if i < n {
        i
    } else {
        n - 1
    }
}

impl Level {
    /// There are texels, and four bytes for each.
    pub open spec fn wf(&self) -> bool {
        &&& self.width >= 1
        &&& self.height >= 1
        &&& self.rgba@.len() == (self.width * self.height) * 4
    }

    /// Channel `c` of texel `(x, y)`.
    pub open spec fn at(&self, x: int, y: int, c: int) -> u8 {
        self.rgba@[(y * self.width + x) * 4 + c]
    }

    /// Channel `c` of texel `(x, y)`, or of the nearest one at the right or lower edge.
    pub open spec fn near(&self, x: int, y: int, c: int) -> u8 {
        self.at(clamped(x, self.width as int), clamped(y, self.height as int), c)
    }

    /// The mean of the four texels under texel `(x, y)` of the next level, rounded down.
    pub open spec fn mean(&self, x: int, y: int, c: int) -> int {
        (self.near(2 * x, 2 * y, c) + self.near(2 * x + 1, 2 * y, c) + self.near(2 * x, 2 * y + 1, c)
            + self.near(2 * x + 1, 2 * y + 1, c)) / 4
    }

    /// `next` is the level after `self`.
    pub open spec fn is_next(&self, next: &Level) -> bool {
        &&& next.wf()
        &&& next.width == halved(self.width as int)
        &&& next.height == halved(self.height as int)
        &&& forall|x: int, y: int, c: int|
            0 <= x < next.width && 0 <= y < next.height && 0 <= c < 4 ==> #[trigger] next.at(
                x,
                y,
                c,
            ) == self.mean(x, y, c)
    }

    /// Channel `c` of texel `(x, y)`, or of the nearest one at the right or lower edge.
    fn texel(&self, x: usize, y: usize, c: usize) -> (r: u32)
        requires
            self.wf(),
            c < 4,
        ensures
            r == self.near(x as int, y as int, c as int),
            r <= 255,
    {
        let px: usize = if x < self.width {
            x
        } else {
            self.width - 1
        };
        let py: usize = if y < self.height {
            y
        } else {
            self.height - 1
        };
        proof {
            texel_bound(self.width as int, self.height as int, px as int, py as int);
        }
        assert(self.rgba.len() <= usize::MAX);
        self.rgba[(py * self.width + px) * 4 + c] as u32
    }

    /// The next level: half as wide and high, each texel the mean of four.
    pub fn next(&self) -> (r: Level)
        requires
            self.wf(),
        ensures
            self.is_next(&r),
    {
        let nw: usize = if self.width / 2 >= 1 {
            self.width / 2
        } else {
            1
        };
        let nh: usize = if self.height / 2 >= 1 {
            self.height / 2
        } else {
            1
        };
        let mut rgba: Vec<u8> = Vec::new();
        for y in 0..nh
            invariant
                self.wf(),
                nw == halved(self.width as int),
                nh == halved(self.height as int),
                rgba@.len() == (y * nw) * 4,
                forall|u: int, v: int, c: int|
                    0 <= u < nw && 0 <= v < y && 0 <= c < 4 ==> rgba@[#[trigger] slot(nw, u, v, c)]
                        == self.mean(u, v, c),
        {
            for x in 0..nw
                invariant
                    self.wf(),
                    y < nh,
                    nw == halved(self.width as int),
                    nh == halved(self.height as int),
                    rgba@.len() == (y * nw + x) * 4,
                    forall|u: int, v: int, c: int|
                        0 <= u < nw && 0 <= v <= y && 0 <= c < 4 && (v < y || u < x)
                            ==> rgba@[#[trigger] slot(nw, u, v, c)] == self.mean(u, v, c),
            {
                let ghost before = rgba@;
                for c in 0..4usize
                    invariant
                        self.wf(),
                        y < nh,
                        x < nw,
                        nw == halved(self.width as int),
                        nh == halved(self.height as int),
                        before.len() == (y * nw + x) * 4,
                        rgba@.len() == (y * nw + x) * 4 + c,
                        forall|k: int| 0 <= k < before.len() ==> #[trigger] rgba@[k] == before[k],
                        forall|k: int|
                            0 <= k < c ==> #[trigger] rgba@[before.len() + k] == self.mean(
                                x as int,
                                y as int,
                                k,
                            ),
                {
                    proof {
                        assert(self.rgba.len() <= usize::MAX);
                        side_bound(self.width as int, self.height as int, nw as int, nh as int);
                    }
                    let sum: u32 = self.texel(2 * x, 2 * y, c) + self.texel(2 * x + 1, 2 * y, c)
                        + self.texel(2 * x, 2 * y + 1, c) + self.texel(2 * x + 1, 2 * y + 1, c);
                    rgba.push((sum / 4) as u8);
                }
                proof {
                    assert forall|u: int, v: int, c: int|
                        0 <= u < nw && 0 <= v <= y && 0 <= c < 4 && (v < y || u < x
                            + 1) implies rgba@[#[trigger] slot(nw, u, v, c)] == self.mean(
                        u,
                        v,
                        c,
                    ) by {
                        if v < y || u < x {
                            assert(0 <= v * nw && v * nw + u < y * nw + x) by (nonlinear_arith)
                                requires
                                    0 <= u < nw,
                                    0 <= v,
                                    v < y || v == y && u < x,
                                    0 <= x,
                            ;
                            assert(slot(nw, u, v, c) < before.len());
                        } else {
                            assert(slot(nw, u, v, c) == before.len() + c);
                        }
                    }
                }
            }
            assert((y + 1) * nw == y * nw + nw) by (nonlinear_arith);
        }
        assert(nh * nw == nw * nh) by (nonlinear_arith);
        let r = Level { width: nw, height: nh, rgba };
        proof {
            assert forall|x: int, y: int, c: int|
                0 <= x < r.width && 0 <= y < r.height && 0 <= c < 4 implies #[trigger] r.at(x, y, c)
                == self.mean(x, y, c) by {
                assert(r.at(x, y, c) == rgba@[slot(nw, x, y, c)]);
            }
        }
        r
    }
}

/// Where channel `c` of texel `(x, y)` is.
pub open spec fn slot(w: usize, x: int, y: int, c: int) -> int {
    (y * w + x) * 4 + c
}

proof fn texel_bound(w: int, h: int, x: int, y: int)
    requires
        0 <= x < w,
        0 <= y < h,
    ensures
        0 <= y * w,
        y * w + x < w * h,
{
    assert(0 <= y * w && y * w + x < w * h) by (nonlinear_arith)
        requires
            0 <= x < w,
            0 <= y < h,
    ;
}

/// Twice a coordinate of the next level is within the sizes of this one, or one.
proof fn side_bound(w: int, h: int, nw: int, nh: int)
    requires
        w >= 1,
        h >= 1,
        nw == halved(w),
        nh == halved(h),
    ensures
        2 * (nw - 1) + 1 <= w,
        2 * (nh - 1) + 1 <= h,
        w <= (w * h) * 4,
        h <= (w * h) * 4,
{
    assert(w <= w * h && h <= w * h) by (nonlinear_arith)
        requires
            w >= 1,
            h >= 1,
    ;
}

/// `levels` is the whole chain of a texture.
pub open spec fn is_chain(levels: Seq<Level>) -> bool {
    forall|k: int|
        #![trigger levels[k]]
        0 < k < levels.len() ==> levels[k - 1].is_next(&levels[k])
}

/// The levels of a texture, largest first.
pub fn mip_chain(base: Level) -> (levels: Vec<Level>)
    requires
        base.wf(),
    ensures
        levels@.len() == bit_length(
            if base.width <= base.height {
                base.width as nat
            } else {
                base.height as nat
            },
        ),
        levels@[0] == base,
        is_chain(levels@),
{
    let n: usize = mip_count(base.width, base.height);
    let mut levels: Vec<Level> = Vec::new();
    let ghost first = base;
    assert(n >= 1);
    levels.push(base);
    while levels.len() < n
        invariant
            1 <= levels@.len() <= n,
            levels@[0] == first,
            forall|k: int| 0 <= k < levels@.len() ==> (#[trigger] levels@[k]).wf(),
            is_chain(levels@),
        decreases n - levels@.len(),
    {
        let ghost before = levels@;
        let level = levels[levels.len() - 1].next();
        levels.push(level);
        proof {
            assert forall|k: int| #![trigger levels@[k]] 0 < k < levels@.len() implies levels@[k
                - 1].is_next(&levels@[k]) by {
                if k < before.len() {
                    assert(levels@[k] == before[k] && levels@[k - 1] == before[k - 1]);
                }
            }
        }
    }
    levels
}

/// A channel that is the same all over a level is the same all over the next one.
pub proof fn uniform_levels_stay_uniform(level: &Level, next: &Level, c: int, v: u8, x: int, y: int)
    requires
        level.wf(),
        level.is_next(next),
        0 <= c < 4,
        forall|x: int, y: int|
            0 <= x < level.width && 0 <= y < level.height ==> #[trigger] level.at(x, y, c) == v,
        0 <= x < next.width,
        0 <= y < next.height,
    ensures
        next.at(x, y, c) == v,
{
}

/// Halving rounds down, but never to nothing.
pub proof fn levels_are_half_as_large(level: &Level, next: &Level)
    requires
        level.wf(),
        level.is_next(next),
    ensures
        level.width >= 2 ==> next.width + next.width <= level.width < next.width + next.width + 2,
        level.height >= 2 ==> next.height + next.height <= level.height < next.height + next.height
            + 2,
        level.width == 1 ==> next.width == 1,
        level.height == 1 ==> next.height == 1,
{
}

/// A texel is the mean of the square of four texels under it, rounded down.
pub proof fn texels_are_means(level: &Level, next: &Level, x: int, y: int, c: int)
    requires
        level.wf(),
        level.is_next(next),
        level.width >= 2,
        level.height >= 2,
        0 <= x < next.width,
        0 <= y < next.height,
        0 <= c < 4,
    ensures
        ({
            let w = level.width as int;
            let (a, b) = ((y + y) * w + (x + x), (y + y + 1) * w + (x + x));
            let sum = level.rgba@[4 * a + c] + level.rgba@[4 * (a + 1) + c] + level.rgba@[4 * b + c]
                + level.rgba@[4 * (b + 1) + c];
            let mean = next.rgba@[4 * (y * next.width + x) + c];
            4 * mean <= sum < 4 * mean + 4
        }),
{
    levels_are_half_as_large(level, next);
    assert(next.at(x, y, c) == level.mean(x, y, c));
    assert(clamped(2 * x + 1, level.width as int) == 2 * x + 1);
    assert(clamped(2 * y + 1, level.height as int) == 2 * y + 1);
    let w = level.width as int;
    let (a, b) = ((y + y) * w + (x + x), (y + y + 1) * w + (x + x));
    assert((2 * y) * w + 2 * x == a);
    assert((2 * y) * w + (2 * x + 1) == a + 1);
    assert((2 * y + 1) * w + 2 * x == b);
    assert((2 * y + 1) * w + (2 * x + 1) == b + 1);
}

/// The number of digits of `n` is that of its halvings: `n` lies between two powers of two.
pub proof fn digits_count_halvings(n: nat)
    ensures
        n > 0 ==> vstd::arithmetic::power2::pow2((bit_length(n) - 1) as nat) <= n,
        n < vstd::arithmetic::power2::pow2(bit_length(n)),
    decreases n,
{
    if n == 0 {
        vstd::arithmetic::power2::lemma2_to64();
    } else {
        digits_count_halvings(n / 2);
        let k = bit_length(n / 2);
        vstd::arithmetic::power2::lemma_pow2_unfold(k + 1);
        if n == 1 {
            vstd::arithmetic::power2::lemma2_to64();
        } else {
            assert(bit_length(n / 2) > 0);
            vstd::arithmetic::power2::lemma_pow2_unfold(k);
        }
    }
}

} // verus!
