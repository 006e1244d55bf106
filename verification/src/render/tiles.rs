//! Square tiles of an image, row by row, and the pixels in them.

use crate::buckets;
use vstd::prelude::*;

verus! {

/// Pixels of a tile, each way.
pub const TILE_WIDTH: u32 = 16;

/// Pixels of a tile.
pub const TILE_PIXELS: u32 = 256;

/// The first pixel of a tile, with `across` tiles in a row.
pub open spec fn origin(tile: int, across: int) -> (int, int) {
    ((tile % across) * TILE_WIDTH, (tile / across) * TILE_WIDTH)
}

/// Pixel `rank` of a tile.
pub open spec fn pixel(tile: int, across: int, rank: int) -> (int, int) {
    let (x, y) = origin(tile, across);
    (x + rank % TILE_WIDTH as int, y + rank / TILE_WIDTH as int)
}

/// The tile has its pixels in the range of `u32`.
pub open spec fn in_range(tile: u32, across: u32) -> bool {
    &&& across > 0
    &&& across * TILE_WIDTH <= u32::MAX
    &&& (tile / across + 1) * TILE_WIDTH <= u32::MAX
}

/// Every pixel is in one tile, at one place.
pub proof fn pixels_have_one_place(x: int, y: int, across: int, tile: int, rank: int)
    requires
        0 <= x < TILE_WIDTH * across,
        0 <= y,
        0 <= tile,
        0 <= rank < TILE_PIXELS,
    ensures
        pixel(tile, across, rank) == (x, y) <==> tile == buckets::tile(
            x,
            y,
            TILE_WIDTH as int,
            across,
        ) && rank == (y % TILE_WIDTH as int) * TILE_WIDTH + x % TILE_WIDTH as int,
{
    let w = TILE_WIDTH as int;
    let t = buckets::tile(x, y, w, across);
    let (px, py) = pixel(tile, across, rank);
    assert(0 <= x / w < across);
    if px == x && py == y {
        assert(x / w == tile % across) by {
            assert(x == (tile % across) * w + rank % w);
        }
        assert(y / w == tile / across);
        vstd::arithmetic::div_mod::lemma_fundamental_div_mod(tile, across);
        assert(tile == (tile / across) * across + tile % across) by (nonlinear_arith)
            requires
                tile == across * (tile / across) + tile % across,
        ;
    }
    if tile == t && rank == (y % w) * w + x % w {
        vstd::arithmetic::div_mod::lemma_fundamental_div_mod_converse(
            tile,
            across,
            y / w,
            x / w,
        );
    }
}

/// The first pixel of a tile.
pub fn tile_origin(tile: u32, across: u32) -> (r: (u32, u32))
    requires
        in_range(tile, across),
    ensures
        (r.0 as int, r.1 as int) == origin(tile as int, across as int),
        r.0 + TILE_WIDTH <= u32::MAX,
        r.1 + TILE_WIDTH <= u32::MAX,
{
    let column: u32 = tile % across;
    let row: u32 = tile / across;
    assert((column + 1) * TILE_WIDTH <= across * TILE_WIDTH);
    (column * TILE_WIDTH, row * TILE_WIDTH)
}

/// The pixels of a tile by their place in the image, `None` for those that are not in it.
pub fn tile_pixels(tile: u32, across: u32, img_w: u32, img_h: u32) -> (r: Vec<Option<u32>>)
    requires
        in_range(tile, across),
        img_w * img_h <= u32::MAX,
    ensures
        r@.len() == TILE_PIXELS,
        forall|rank: int|
            0 <= rank < TILE_PIXELS ==> #[trigger] r@[rank] == ({
                let (x, y) = pixel(tile as int, across as int, rank);
                if x < img_w && y < img_h {
                    Some((x + y * img_w) as u32)
                } else {
                    None
                }
            }),
{
    let (x0, y0) = tile_origin(tile, across);
    let mut r: Vec<Option<u32>> = Vec::new();
    for rank in 0..TILE_PIXELS
        invariant
            (x0 as int, y0 as int) == origin(tile as int, across as int),
            x0 + TILE_WIDTH <= u32::MAX,
            y0 + TILE_WIDTH <= u32::MAX,
            img_w * img_h <= u32::MAX,
            r@.len() == rank,
            forall|k: int|
                0 <= k < rank ==> #[trigger] r@[k] == ({
                    let (x, y) = pixel(tile as int, across as int, k);
                    if x < img_w && y < img_h {
                        Some((x + y * img_w) as u32)
                    } else {
                        None
                    }
                }),
    {
        let x: u32 = x0 + rank % TILE_WIDTH;
        let y: u32 = y0 + rank / TILE_WIDTH;
        if x < img_w && y < img_h {
            assert(x + y * img_w < img_w * img_h) by (nonlinear_arith)
                requires
                    0 <= x < img_w,
                    0 <= y < img_h,
            ;
            r.push(Some(x + y * img_w));
        } else {
            r.push(None);
        }
    }
    r
}

/// The pixels of the tile in column `i` and row `j` of tiles are those of a square, row by row.
pub proof fn tiles_are_squares(i: int, j: int, across: int, x: int, y: int)
    requires
        0 <= i < across,
        0 <= j,
        0 <= x < 16,
        0 <= y < 16,
    ensures
        pixel(j * across + i, across, y * 16 + x) == (i * 16 + x, j * 16 + y),
{
    let tile = j * across + i;
    vstd::arithmetic::div_mod::lemma_fundamental_div_mod_converse(tile, across, j, i);
    assert(tile % across == i && tile / across == j);
    let rank = y * TILE_WIDTH + x;
    vstd::arithmetic::div_mod::lemma_fundamental_div_mod_converse(rank, TILE_WIDTH as int, y, x);
    assert(origin(tile, across) == (i * TILE_WIDTH, j * TILE_WIDTH));
}

} // verus!
