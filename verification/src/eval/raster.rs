//! Images of 8-bit RGB pixels.

use vstd::prelude::*;

verus! {

pub const BLACK: [u8; 3] = [0, 0, 0];

pub const WHITE: [u8; 3] = [255, 255, 255];

/// An RGB image, row by row.
pub struct RgbImage {
    pub width: u32,
    pub height: u32,
    pub pixels: Vec<[u8; 3]>,
}

/// The place of column `x` of row `y`.
pub open spec fn place(width: u32, x: int, y: int) -> int {
    y * width + x
}

pub proof fn place_bound(width: u32, height: u32, x: int, y: int)
    requires
        0 <= x < width,
        0 <= y < height,
    ensures
        0 <= place(width, x, y) < width * height,
{
    assert(0 <= y * width && y * width + x < width * height) by (nonlinear_arith)
        requires
            0 <= x < width,
            0 <= y < height,
    ;
}

pub proof fn place_is_injective(width: u32, x: int, y: int, u: int, v: int)
    requires
        0 <= x < width,
        0 <= u < width,
        place(width, x, y) == place(width, u, v),
    ensures
        x == u,
        y == v,
{
    assert(y == v) by (nonlinear_arith)
        requires
            0 <= x < width,
            0 <= u < width,
            y * width + x == v * width + u,
    ;
}

impl RgbImage {
    /// There is a pixel for each place.
    pub open spec fn wf(&self) -> bool {
        self.pixels@.len() == self.width * self.height
    }

    /// `(x, y)` lies in the image.
    pub open spec fn has(&self, x: int, y: int) -> bool {
        0 <= x < self.width && 0 <= y < self.height
    }

    /// The pixel at `(x, y)`.
    pub open spec fn at(&self, x: int, y: int) -> [u8; 3] {
        self.pixels@[place(self.width, x, y)]
    }

    /// The image is as large as `other`.
    pub open spec fn same_size(&self, other: &RgbImage) -> bool {
        self.width == other.width && self.height == other.height
    }

    /// An image of one colour.
    pub fn filled(width: u32, height: u32, colour: [u8; 3]) -> (r: RgbImage)
        requires
            width * height <= usize::MAX,
        ensures
            r.wf(),
            r.width == width,
            r.height == height,
            forall|x: int, y: int| #[trigger] r.has(x, y) ==> r.at(x, y) == colour,
    {
        assert(width * height >= 0) by (nonlinear_arith);
        let n: usize = width as usize * height as usize;
        let mut pixels: Vec<[u8; 3]> = Vec::new();
        for i in 0..n
            invariant
                pixels@.len() == i,
                forall|k: int| 0 <= k < i ==> #[trigger] pixels@[k] == colour,
        {
            pixels.push(colour);
        }
        let r = RgbImage { width, height, pixels };
        proof {
            assert forall|x: int, y: int| #[trigger] r.has(x, y) implies r.at(x, y) == colour by {
                place_bound(width, height, x, y);
            }
        }
        r
    }

    /// The pixel at `(x, y)`.
    pub fn get(&self, x: u32, y: u32) -> (r: [u8; 3])
        requires
            self.wf(),
            self.has(x as int, y as int),
        ensures
            r == self.at(x as int, y as int),
    {
        proof {
            place_bound(self.width, self.height, x as int, y as int);
            assert(0 <= y * self.width <= self.width * self.height) by (nonlinear_arith)
                requires
                    0 <= y < self.height,
                    0 <= self.width,
            ;
        }
        assert(self.pixels.len() <= usize::MAX);
        self.pixels[y as usize * self.width as usize + x as usize]
    }

    /// Set the pixel at `(x, y)`.
    pub fn put(&mut self, x: u32, y: u32, colour: [u8; 3])
        requires
            old(self).wf(),
            old(self).has(x as int, y as int),
        ensures
            final(self).wf(),
            final(self).same_size(old(self)),
            forall|u: int, v: int| #[trigger]
                final(self).has(u, v) ==> final(self).at(u, v) == (if u == x && v == y {
                    colour
                } else {
                    old(self).at(u, v)
                }),
    {
        let ghost before = *self;
        proof {
            place_bound(self.width, self.height, x as int, y as int);
            assert(0 <= y * self.width <= self.width * self.height) by (nonlinear_arith)
                requires
                    0 <= y < self.height,
                    0 <= self.width,
            ;
        }
        assert(self.pixels.len() <= usize::MAX);
        let i: usize = y as usize * self.width as usize + x as usize;
        self.pixels.set(i, colour);
        proof {
            assert forall|u: int, v: int| #[trigger] self.has(u, v) implies self.at(u, v) == (if u
                == x && v == y {
                colour
            } else {
                before.at(u, v)
            }) by {
                place_bound(self.width, self.height, u, v);
                if place(self.width, u, v) == i {
                    place_is_injective(self.width, u, v, x as int, y as int);
                }
            }
        }
    }

    /// Copy `panel` into the image, its top left corner at `(x, y)`. What does not fit is cut
    /// off.
    pub fn overlay(&mut self, panel: &RgbImage, x: u32, y: u32)
        requires
            old(self).wf(),
            panel.wf(),
            x + panel.width <= u32::MAX,
            y + panel.height <= u32::MAX,
        ensures
            final(self).wf(),
            final(self).same_size(old(self)),
            forall|u: int, v: int| #[trigger]
                final(self).has(u, v) ==> final(self).at(u, v) == (if panel.has(u - x, v - y) {
                    panel.at(u - x, v - y)
                } else {
                    old(self).at(u, v)
                }),
    {
        let ghost before = *self;
        for j in 0..panel.height
            invariant
                self.wf(),
                panel.wf(),
                self.same_size(&before),
                x + panel.width <= u32::MAX,
                y + panel.height <= u32::MAX,
                forall|u: int, v: int| #[trigger]
                    self.has(u, v) ==> self.at(u, v) == (if panel.has(u - x, v - y) && v - y < j {
                        panel.at(u - x, v - y)
                    } else {
                        before.at(u, v)
                    }),
        {
            for i in 0..panel.width
                invariant
                    j < panel.height,
                    self.wf(),
                    panel.wf(),
                    self.same_size(&before),
                    x + panel.width <= u32::MAX,
                    y + panel.height <= u32::MAX,
                    forall|u: int, v: int| #[trigger]
                        self.has(u, v) ==> self.at(u, v) == (if panel.has(u - x, v - y) && (v - y
                            < j || v - y == j && u - x < i) {
                            panel.at(u - x, v - y)
                        } else {
                            before.at(u, v)
                        }),
            {
                let ghost mid = *self;
                if x + i < self.width && y + j < self.height {
                    let colour = panel.get(i, j);
                    self.put(x + i, y + j, colour);
                }
                proof {
                    assert forall|u: int, v: int| #[trigger] self.has(u, v) implies self.at(u, v)
                        == (if panel.has(u - x, v - y) && (v - y < j || v - y == j && u - x < i
                        + 1) {
                        panel.at(u - x, v - y)
                    } else {
                        before.at(u, v)
                    }) by {
                        assert(mid.has(u, v));
                    }
                }
            }
        }
    }
}

} // verus!
