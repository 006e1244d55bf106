//! Labels and the grid of evaluation panels.

use crate::eval::raster::{self, RgbImage};
use vstd::prelude::*;

verus! {

pub const GLYPH_W: u32 = 5;

pub const GLYPH_H: u32 = 7;

/// The rows of the letter `ch`; in each, the low five bits are the pixels from left to right.
/// `None` for characters without a glyph.
pub open spec fn glyph_rows(ch: char) -> Option<[u8; 7]> {
    if ch == 'A' {
        Some([0x0E, 0x11, 0x11, 0x1F, 0x11, 0x11, 0x11])
    } else if ch == 'D' {
        Some([0x1E, 0x11, 0x11, 0x11, 0x11, 0x11, 0x1E])
    } else if ch == 'E' {
        Some([0x1F, 0x10, 0x10, 0x1E, 0x10, 0x10, 0x1F])
    } else if ch == 'G' {
        Some([0x0E, 0x11, 0x10, 0x17, 0x11, 0x11, 0x0E])
    } else if ch == 'H' {
        Some([0x11, 0x11, 0x11, 0x1F, 0x11, 0x11, 0x11])
    } else if ch == 'L' {
        Some([0x10, 0x10, 0x10, 0x10, 0x10, 0x10, 0x1F])
    } else if ch == 'M' {
        Some([0x11, 0x1B, 0x15, 0x11, 0x11, 0x11, 0x11])
    } else if ch == 'P' {
        Some([0x1E, 0x11, 0x11, 0x1E, 0x10, 0x10, 0x10])
    } else if ch == 'S' {
        Some([0x0F, 0x10, 0x10, 0x0E, 0x01, 0x01, 0x1E])
    } else if ch == 'T' {
        Some([0x1F, 0x04, 0x04, 0x04, 0x04, 0x04, 0x04])
    } else {
        None
    }
}

/// The bitmap of a label letter.
pub fn glyph(ch: char) -> (r: Option<[u8; 7]>)
    ensures
        r == glyph_rows(ch),
{
    match ch {
        'A' => Some([0x0E, 0x11, 0x11, 0x1F, 0x11, 0x11, 0x11]),
        'D' => Some([0x1E, 0x11, 0x11, 0x11, 0x11, 0x11, 0x1E]),
        'E' => Some([0x1F, 0x10, 0x10, 0x1E, 0x10, 0x10, 0x1F]),
        'G' => Some([0x0E, 0x11, 0x10, 0x17, 0x11, 0x11, 0x0E]),
        'H' => Some([0x11, 0x11, 0x11, 0x1F, 0x11, 0x11, 0x11]),
        'L' => Some([0x10, 0x10, 0x10, 0x10, 0x10, 0x10, 0x1F]),
        'M' => Some([0x11, 0x1B, 0x15, 0x11, 0x11, 0x11, 0x11]),
        'P' => Some([0x1E, 0x11, 0x11, 0x1E, 0x10, 0x10, 0x10]),
        'S' => Some([0x0F, 0x10, 0x10, 0x0E, 0x01, 0x01, 0x1E]),
        'T' => Some([0x1F, 0x04, 0x04, 0x04, 0x04, 0x04, 0x04]),
        _ => None,
    }
}

/// The value of bit `GLYPH_W - 1 - gx`.
pub open spec fn column_bit(gx: int) -> int {
    if gx == 0 {
        16
    } else if gx == 1 {
        8
    } else if gx == 2 {
        4
    } else if gx == 3 {
        2
    } else {
        1
    }
}

/// Pixel `gx` of a row of a glyph is set.
pub open spec fn is_set(row: u8, gx: int) -> bool {
    row as int / column_bit(gx) % 2 == 1
}

/// The glyph of `ch` at `(x, y)`, each of its pixels `scale` wide and high, covers `(u, v)`.
pub open spec fn lights(ch: char, x: int, y: int, scale: u32, u: int, v: int) -> bool {
    &&& glyph_rows(ch) is Some
    &&& x <= u < x + GLYPH_W * scale
    &&& y <= v < y + GLYPH_H * scale
    &&& is_set(glyph_rows(ch)->0[(v - y) / (scale as int)], (u - x) / (scale as int))
}

fn bit_is_set(row: u8, gx: u32) -> (r: bool)
    requires
        gx < GLYPH_W,
    ensures
        r <==> is_set(row, gx as int),
{
    let bit: u8 = match gx {
        0 => 16,
        1 => 8,
        2 => 4,
        3 => 2,
        _ => 1,
    };
    row / bit % 2 == 1
}

/// Whether `(u, v)` of a glyph at the origin is lit.
fn lit(rows: &[u8; 7], scale: u32, u: u32, v: u32) -> (r: bool)
    requires
        scale >= 1,
        u < GLYPH_W * scale,
        v < GLYPH_H * scale,
    ensures
        r <==> is_set(rows[v as int / (scale as int)], u as int / (scale as int)),
{
    assert(v as int / (scale as int) < 7) by (nonlinear_arith)
        requires
            v < 7 * scale,
            scale >= 1,
    ;
    assert(u as int / (scale as int) < 5) by (nonlinear_arith)
        requires
            u < 5 * scale,
            scale >= 1,
    ;
    bit_is_set(rows[(v / scale) as usize], u / scale)
}

/// Draw `ch` in white, its top left corner at `(x, y)`. What is outside the image is cut off.
pub fn draw_glyph(out: &mut RgbImage, ch: char, x: u32, y: u32, scale: u32)
    requires
        old(out).wf(),
        x + GLYPH_W * scale <= u32::MAX,
        y + GLYPH_H * scale <= u32::MAX,
    ensures
        final(out).wf(),
        final(out).same_size(old(out)),
        forall|u: int, v: int| #[trigger]
            final(out).has(u, v) ==> final(out).at(u, v) == (if lights(
                ch,
                x as int,
                y as int,
                scale,
                u,
                v,
            ) {
                raster::WHITE
            } else {
                old(out).at(u, v)
            }),
{
    let ghost before = *out;
    let rows = match glyph(ch) {
        None => {
            return ;
        },
        Some(rows) => rows,
    };
    let gw: u32 = GLYPH_W * scale;
    let gh: u32 = GLYPH_H * scale;
    for j in 0..gh
        invariant
            out.wf(),
            out.same_size(&before),
            gw == GLYPH_W * scale,
            gh == GLYPH_H * scale,
            x + gw <= u32::MAX,
            y + gh <= u32::MAX,
            glyph_rows(ch) == Some(rows),
            forall|u: int, v: int| #[trigger]
                out.has(u, v) ==> out.at(u, v) == (if lights(ch, x as int, y as int, scale, u, v)
                    && v - y < j {
                    raster::WHITE
                } else {
                    before.at(u, v)
                }),
    {
        for i in 0..gw
            invariant
                j < gh,
                out.wf(),
                out.same_size(&before),
                gw == GLYPH_W * scale,
                gh == GLYPH_H * scale,
                x + gw <= u32::MAX,
                y + gh <= u32::MAX,
                glyph_rows(ch) == Some(rows),
                forall|u: int, v: int| #[trigger]
                    out.has(u, v) ==> out.at(u, v) == (if lights(
                        ch,
                        x as int,
                        y as int,
                        scale,
                        u,
                        v,
                    ) && (v - y < j || v - y == j && u - x < i) {
                        raster::WHITE
                    } else {
                        before.at(u, v)
                    }),
        {
            assert(scale >= 1);
            assert(lights(ch, x as int, y as int, scale, x + i, y + j) <==> is_set(
                rows[j as int / (scale as int)],
                i as int / (scale as int),
            ));
            let ghost mid = *out;
            if lit(&rows, scale, i, j) {
                if x + i < out.width && y + j < out.height {
                    out.put(x + i, y + j, raster::WHITE);
                }
            }
            proof {
                assert forall|u: int, v: int| #[trigger] out.has(u, v) implies out.at(u, v) == (
                if lights(ch, x as int, y as int, scale, u, v) && (v - y < j || v - y == j && u - x
                    < i + 1) {
                    raster::WHITE
                } else {
                    before.at(u, v)
                }) by {
                    assert(mid.has(u, v));
                }
            }
        }
    }
}

/// Where a label starts that is centered in a band.
pub open spec fn label_start(text: Seq<char>, x0: int, band_w: int, band_h: int, scale: int) -> (
    int,
    int,
) {
    let text_w = text.len() * (GLYPH_W + 1) * scale - scale;
    (
        x0 + (if text_w < band_w {
            (band_w - text_w) / 2
        } else {
            0
        }),
        if GLYPH_H * scale < band_h {
            (band_h - GLYPH_H * scale) / 2
        } else {
            0
        },
    )
}

/// The label `text` covers `(u, v)`.
pub open spec fn label_lights(
    text: Seq<char>,
    start: (int, int),
    scale: u32,
    u: int,
    v: int,
) -> bool {
    exists|i: int|
        0 <= i < text.len() && #[trigger] lights(
            text[i],
            start.0 + i * ((GLYPH_W + 1) * scale),
            start.1,
            scale,
            u,
            v,
        )
}

/// Draw `text` in white, centered in `[x0, x0 + band_w)` and `[0, band_h)`.
pub fn draw_label_centered(
    out: &mut RgbImage,
    text: &str,
    x0: u32,
    band_w: u32,
    band_h: u32,
    scale: u32,
)
    requires
        old(out).wf(),
        text@.len() > 0,
        x0 + band_w + text@.len() * (GLYPH_W + 1) * scale <= u32::MAX,
        band_h + GLYPH_H * scale <= u32::MAX,
    ensures
        final(out).wf(),
        final(out).same_size(old(out)),
        forall|u: int, v: int| #[trigger]
            final(out).has(u, v) ==> final(out).at(u, v) == (if label_lights(
                text@,
                label_start(text@, x0 as int, band_w as int, band_h as int, scale as int),
                scale,
                u,
                v,
            ) {
                raster::WHITE
            } else {
                old(out).at(u, v)
            }),
{
    let ghost before = *out;
    let n: usize = text.unicode_len();
    proof {
        assert(text@.len() * (GLYPH_W + 1) * scale >= 6 * scale) by (nonlinear_arith)
            requires
                text@.len() >= 1,
                GLYPH_W == 5,
                scale >= 0,
        ;
        assert(text@.len() * (GLYPH_W + 1) * scale == text@.len() * ((GLYPH_W + 1) * scale))
            by (nonlinear_arith);
    }
    let advance: u32 = (GLYPH_W + 1) * scale;
    let full: u64 = n as u64 * advance as u64;
    let text_w: u32 = full as u32 - scale;
    let start_x: u32 = x0 + (if text_w < band_w {
        (band_w - text_w) / 2
    } else {
        0
    });
    let glyph_h: u32 = GLYPH_H * scale;
    let start_y: u32 = if glyph_h < band_h {
        (band_h - glyph_h) / 2
    } else {
        0
    };
    let ghost start = label_start(text@, x0 as int, band_w as int, band_h as int, scale as int);
    assert(start == (start_x as int, start_y as int));
    for i in 0..n
        invariant
            n == text@.len(),
            out.wf(),
            out.same_size(&before),
            advance == (GLYPH_W + 1) * scale,
            start == (start_x as int, start_y as int),
            start_x + text@.len() * advance <= u32::MAX,
            start_y + GLYPH_H * scale <= u32::MAX,
            forall|u: int, v: int| #[trigger]
                out.has(u, v) ==> out.at(u, v) == (if label_lights(
                    text@.take(i as int),
                    start,
                    scale,
                    u,
                    v,
                ) {
                    raster::WHITE
                } else {
                    before.at(u, v)
                }),
    {
        let ghost mid = *out;
        proof {
            assert(i * advance + advance <= text@.len() * advance) by (nonlinear_arith)
                requires
                    i + 1 <= text@.len(),
                    advance >= 0,
            ;
            assert(i * advance >= 0) by (nonlinear_arith)
                requires
                    i >= 0,
                    advance >= 0,
            ;
            assert(advance >= GLYPH_W * scale) by (nonlinear_arith)
                requires
                    advance == (GLYPH_W + 1) * scale,
                    scale >= 0,
            ;
        }
        let offset: u32 = (i as u64 * advance as u64) as u32;
        let ch: char = text.get_char(i);
        draw_glyph(out, ch, start_x + offset, start_y, scale);
        proof {
            let fewer = text@.take(i as int);
            let more = text@.take(i + 1);
            assert forall|u: int, v: int| #[trigger] out.has(u, v) implies out.at(u, v) == (
            if label_lights(more, start, scale, u, v) {
                raster::WHITE
            } else {
                before.at(u, v)
            }) by {
                assert(mid.has(u, v));
                if label_lights(fewer, start, scale, u, v) {
                    let k = choose|k: int|
                        0 <= k < fewer.len() && #[trigger] lights(
                            fewer[k],
                            start.0 + k * ((GLYPH_W + 1) * scale),
                            start.1,
                            scale,
                            u,
                            v,
                        );
                    assert(more[k] == fewer[k]);
                }
                if lights(ch, start.0 + i * ((GLYPH_W + 1) * scale), start.1, scale, u, v) {
                    assert(more[i as int] == ch);
                }
                if label_lights(more, start, scale, u, v) {
                    let k = choose|k: int|
                        0 <= k < more.len() && #[trigger] lights(
                            more[k],
                            start.0 + k * ((GLYPH_W + 1) * scale),
                            start.1,
                            scale,
                            u,
                            v,
                        );
                    if k < i {
                        assert(more[k] == fewer[k]);
                    }
                }
            }
        }
    }
    assert(text@.take(n as int) =~= text@);
}

/// Each set pixel of a glyph is drawn as a square of `scale` pixels, in its column and row, and
/// nothing else is.
pub proof fn glyph_pixels_are_squares(
    ch: char,
    x: int,
    y: int,
    scale: u32,
    gx: int,
    gy: int,
    a: int,
    b: int,
)
    requires
        0 <= gx < 5,
        0 <= gy < 7,
        0 <= a < scale,
        0 <= b < scale,
    ensures
        lights(ch, x, y, scale, x + gx * scale + a, y + gy * scale + b) <==> (glyph_rows(
            ch,
        ) matches Some(rows) && is_set(rows[gy], gx)),
{
    let s = scale as int;
    assert(0 <= gx * s + a < 5 * s && 0 <= gy * s + b < 7 * s) by (nonlinear_arith)
        requires
            0 <= gx < 5,
            0 <= gy < 7,
            0 <= a < s,
            0 <= b < s,
    ;
    vstd::arithmetic::div_mod::lemma_fundamental_div_mod_converse(gx * s + a, s, gx, a);
    vstd::arithmetic::div_mod::lemma_fundamental_div_mod_converse(gy * s + b, s, gy, b);
}

/// The rows of a glyph are read from the highest of five bits down: its five pixels, as a number in
/// base two, are the row.
pub proof fn rows_are_read_from_the_left(row: u8)
    requires
        row < 32,
    ensures
        row == (if is_set(row, 0) { 16int } else { 0 }) + (if is_set(row, 1) { 8int } else { 0 })
            + (if is_set(row, 2) { 4int } else { 0 }) + (if is_set(row, 3) { 2int } else { 0 })
            + (if is_set(row, 4) { 1int } else { 0 }),
{
}

/// A label that fits is centered: as much is free before it as behind it, but for one pixel.
pub proof fn labels_are_centered(text: Seq<char>, x0: int, band_w: int, band_h: int, scale: int)
    requires
        text.len() * 6 * scale - scale <= band_w,
        7 * scale <= band_h,
    ensures
        ({
            let (x, y) = label_start(text, x0, band_w, band_h, scale);
            let right = (x0 + band_w) - (x + text.len() * 6 * scale - scale);
            let below = band_h - (y + 7 * scale);
            &&& x >= x0 && y >= 0
            &&& x - x0 <= right <= x - x0 + 1
            &&& y <= below <= y + 1
        }),
{
}

proof fn letters_are_apart(s: int, i: int, j: int, o: int)
    requires
        s > 0,
        i * (6 * s) <= o < i * (6 * s) + 5 * s,
        j * (6 * s) <= o < j * (6 * s) + 5 * s,
    ensures
        i == j,
{
    let t = 6 * s;
    assert(i == j) by (nonlinear_arith)
        requires
            t > 0,
            i * t <= o < i * t + t,
            j * t <= o < j * t + t,
    ;
}

/// The letters of a label stand side by side, one column of pixels apart: letter `i` begins `i`
/// times six pixels from the start, and shows its own glyph there.
pub proof fn labels_are_spelled_out(
    text: Seq<char>,
    start: (int, int),
    scale: u32,
    i: int,
    gx: int,
    gy: int,
    a: int,
    b: int,
)
    requires
        0 <= i < text.len(),
        0 <= gx < 5,
        0 <= gy < 7,
        0 <= a < scale,
        0 <= b < scale,
    ensures
        label_lights(
            text,
            start,
            scale,
            start.0 + i * (6 * scale) + gx * scale + a,
            start.1 + gy * scale + b,
        ) <==> (glyph_rows(text[i]) matches Some(rows) && is_set(rows[gy], gx)),
{
    let s = scale as int;
    let o = i * (6 * s) + gx * s + a;
    let (u, v) = (start.0 + o, start.1 + gy * s + b);
    assert(0 <= gx * s + a < 5 * s) by (nonlinear_arith)
        requires
            0 <= gx < 5,
            0 <= a < s,
    ;
    glyph_pixels_are_squares(text[i], start.0 + i * (6 * s), start.1, scale, gx, gy, a, b);
    assert(u == start.0 + i * (6 * s) + gx * s + a);
    assert((GLYPH_W + 1) * scale == 6 * s);
    if label_lights(text, start, scale, u, v) {
        let j = choose|j: int|
            0 <= j < text.len() && #[trigger] lights(
                text[j],
                start.0 + j * ((GLYPH_W + 1) * scale),
                start.1,
                scale,
                u,
                v,
            );
        letters_are_apart(s, i, j, o);
    }
    if lights(text[i], start.0 + i * (6 * s), start.1, scale, u, v) {
        assert(lights(
            text[i],
            start.0 + i * ((GLYPH_W + 1) * scale),
            start.1,
            scale,
            u,
            v,
        ));
    }
}

} // verus!
