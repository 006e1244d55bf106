//! The grid of evaluation panels: a labelled header, then one row of panels per view.

use crate::eval::label;
use crate::eval::raster::{self, RgbImage};
use vstd::prelude::*;

verus! {

/// The largest panel width of the first `n` rows.
pub open spec fn widest(rows: Seq<[RgbImage; 4]>, n: int) -> int
    decreases n,
{
    if n <= 0 {
        0
    } else {
        larger(
            widest(rows, n - 1),
            larger(
                larger(rows[n - 1][0].width as int, rows[n - 1][1].width as int),
                larger(rows[n - 1][2].width as int, rows[n - 1][3].width as int),
            ),
        )
    }
}

/// The largest panel height of the first `n` rows.
pub open spec fn tallest(rows: Seq<[RgbImage; 4]>, n: int) -> int
    decreases n,
{
    if n <= 0 {
        0
    } else {
        larger(
            tallest(rows, n - 1),
            larger(
                larger(rows[n - 1][0].height as int, rows[n - 1][1].height as int),
                larger(rows[n - 1][2].height as int, rows[n - 1][3].height as int),
            ),
        )
    }
}

pub open spec fn larger(a: int, b: int) -> int {
    if a >= b {
        a
    } else {
        b
    }
}

/// Width and height of a cell: those of the largest panel, or one where there is none.
pub open spec fn cell(rows: Seq<[RgbImage; 4]>) -> (int, int) {
    if rows.len() == 0 {
        (1, 1)
    } else {
        (widest(rows, rows.len() as int), tallest(rows, rows.len() as int))
    }
}

/// The size of a label pixel.
pub open spec fn label_scale(cell_w: int) -> int {
    larger(cell_w / 120, 2)
}

/// The height of the header.
pub open spec fn header(cell_w: int) -> int {
    (label::GLYPH_H + 4) * label_scale(cell_w)
}

/// The label of some column covers `(u, v)`.
pub open spec fn header_lights(labels: Seq<Seq<char>>, cell_w: int, u: int, v: int) -> bool {
    exists|c: int| 0 <= c < labels.len() && #[trigger] column_lights(labels, cell_w, c, u, v)
}

/// The label of column `c` covers `(u, v)`.
pub open spec fn column_lights(
    labels: Seq<Seq<char>>,
    cell_w: int,
    c: int,
    u: int,
    v: int,
) -> bool {
    label::label_lights(
        labels[c],
        label::label_start(labels[c], c * cell_w, cell_w, header(cell_w), label_scale(cell_w)),
        label_scale(cell_w) as u32,
        u,
        v,
    )
}

/// The panel of row `r` and column `c` covers `(u, v)`.
pub open spec fn shows(rows: Seq<[RgbImage; 4]>, r: int, c: int, u: int, v: int) -> bool {
    &&& 0 <= r < rows.len()
    &&& 0 <= c < 4
    &&& rows[r][c].has(
        u - c * cell(rows).0,
        v - header(cell(rows).0) - r * cell(rows).1,
    )
}

/// The pixel that the panel of row `r` and column `c` has at `(u, v)`.
pub open spec fn shown(rows: Seq<[RgbImage; 4]>, r: int, c: int, u: int, v: int) -> [u8; 3] {
    rows[r][c].at(u - c * cell(rows).0, v - header(cell(rows).0) - r * cell(rows).1)
}

/// `out` is the grid of `rows` under `labels`.
pub open spec fn is_grid(
    rows: Seq<[RgbImage; 4]>,
    labels: Seq<Seq<char>>,
    out: &RgbImage,
) -> bool {
    let (cw, ch) = cell(rows);
    &&& out.wf()
    &&& out.width == 4 * cw
    &&& out.height == header(cw) + rows.len() * ch
    &&& forall|u: int, v: int| #[trigger]
        out.has(u, v) && v < header(cw) ==> out.at(u, v) == (if header_lights(labels, cw, u, v) {
            raster::WHITE
        } else {
            raster::BLACK
        })
    &&& forall|u: int, v: int, r: int, c: int| #[trigger]
        shows(rows, r, c, u, v) ==> out.has(u, v) && v >= header(cw) && out.at(u, v) == shown(
            rows,
            r,
            c,
            u,
            v,
        )
    &&& forall|u: int, v: int|
        #![trigger out.at(u, v)]
        out.has(u, v) && v >= header(cw) && (forall|r: int, c: int| !shows(rows, r, c, u, v))
            ==> out.at(u, v) == raster::BLACK
}

/// No panel is larger than a cell.
proof fn cell_bounds(rows: Seq<[RgbImage; 4]>, n: int, r: int, c: int)
    requires
        0 <= r < n <= rows.len(),
        0 <= c < 4,
    ensures
        rows[r][c].width <= widest(rows, n),
        rows[r][c].height <= tallest(rows, n),
    decreases n,
{
    assert(c == 0 || c == 1 || c == 2 || c == 3);
    if r < n - 1 {
        cell_bounds(rows, n - 1, r, c);
    }
}

/// The grid size is in the range of the image type, and there is room for the labels.
pub open spec fn fits(rows: Seq<[RgbImage; 4]>, labels: Seq<Seq<char>>) -> bool {
    let (cw, ch) = cell(rows);
    &&& header(cw) + rows.len() * ch + label::GLYPH_H * label_scale(cw) <= u32::MAX
    &&& (4 * cw) * (header(cw) + rows.len() * ch) <= usize::MAX
    &&& forall|c: int|
        0 <= c < labels.len() ==> (#[trigger] labels[c]).len() > 0 && 5 * cw + labels[c].len() * (
        label::GLYPH_W + 1) * label_scale(cw) <= u32::MAX
}

/// A cell contains at most one place.
proof fn one_cell(w: int, c: int, i: int, d: int, j: int)
    requires
        0 <= i < w,
        0 <= j < w,
        c * w + i == d * w + j,
    ensures
        c == d,
{
    assert(c == d) by (nonlinear_arith)
        requires
            0 <= i < w,
            0 <= j < w,
            c * w + i == d * w + j,
    ;
}

/// Panels do not overlap.
pub proof fn panels_are_apart(
    rows: Seq<[RgbImage; 4]>,
    r: int,
    c: int,
    s: int,
    d: int,
    u: int,
    v: int,
)
    requires
        shows(rows, r, c, u, v),
        shows(rows, s, d, u, v),
    ensures
        r == s,
        c == d,
{
    let (cw, ch) = cell(rows);
    let h = header(cw);
    cell_bounds(rows, rows.len() as int, r, c);
    cell_bounds(rows, rows.len() as int, s, d);
    one_cell(cw, c, u - c * cw, d, u - d * cw);
    one_cell(ch, r, v - h - r * ch, s, v - h - s * ch);
}

/// A panel lies inside the grid, below the header.
proof fn panel_is_inside(rows: Seq<[RgbImage; 4]>, r: int, c: int, u: int, v: int)
    requires
        shows(rows, r, c, u, v),
    ensures
        0 <= u < 4 * cell(rows).0,
        header(cell(rows).0) <= v < header(cell(rows).0) + rows.len() * cell(rows).1,
{
    let (cw, ch) = cell(rows);
    let h = header(cw);
    cell_bounds(rows, rows.len() as int, r, c);
    assert(0 <= c * cw && c * cw + cw <= 4 * cw) by (nonlinear_arith)
        requires
            0 <= c < 4,
            cw >= 0,
    ;
    assert(0 <= r * ch && r * ch + ch <= rows.len() * ch) by (nonlinear_arith)
        requires
            0 <= r < rows.len(),
            ch >= 0,
    ;
}

/// Labels stay in the header.
proof fn labels_stay_above(labels: Seq<Seq<char>>, cw: int, c: int, u: int, v: int)
    requires
        0 <= cw <= u32::MAX,
        column_lights(labels, cw, c, u, v),
    ensures
        v < header(cw),
{
    let s = label_scale(cw);
    assert(header(cw) == 11 * s) by (nonlinear_arith)
        requires
            header(cw) == (label::GLYPH_H + 4) * s,
            label::GLYPH_H == 7,
    ;
}

fn largest(rows: &Vec<[RgbImage; 4]>) -> (r: (u32, u32))
    ensures
        (r.0 as int, r.1 as int) == cell(rows@),
{
    if rows.len() == 0 {
        return (1, 1);
    }
    let mut w: u32 = 0;
    let mut h: u32 = 0;
    for k in 0..rows.len()
        invariant
            w == widest(rows@, k as int),
            h == tallest(rows@, k as int),
    {
        for c in 0..4usize
            invariant
                k < rows@.len(),
                w == larger(
                    widest(rows@, k as int),
                    if c == 0 {
                        0
                    } else if c == 1 {
                        rows@[k as int][0].width as int
                    } else if c == 2 {
                        larger(rows@[k as int][0].width as int, rows@[k as int][1].width as int)
                    } else if c == 3 {
                        larger(
                            larger(rows@[k as int][0].width as int, rows@[k as int][1].width as int),
                            rows@[k as int][2].width as int,
                        )
                    } else {
                        larger(
                            larger(rows@[k as int][0].width as int, rows@[k as int][1].width as int),
                            larger(rows@[k as int][2].width as int, rows@[k as int][3].width as int),
                        )
                    },
                ),
                h == larger(
                    tallest(rows@, k as int),
                    if c == 0 {
                        0
                    } else if c == 1 {
                        rows@[k as int][0].height as int
                    } else if c == 2 {
                        larger(rows@[k as int][0].height as int, rows@[k as int][1].height as int)
                    } else if c == 3 {
                        larger(
                            larger(
                                rows@[k as int][0].height as int,
                                rows@[k as int][1].height as int,
                            ),
                            rows@[k as int][2].height as int,
                        )
                    } else {
                        larger(
                            larger(
                                rows@[k as int][0].height as int,
                                rows@[k as int][1].height as int,
                            ),
                            larger(
                                rows@[k as int][2].height as int,
                                rows@[k as int][3].height as int,
                            ),
                        )
                    },
                ),
        {
            let p = &rows[k][c];
            if p.width > w {
                w = p.width;
            }
            if p.height > h {
                h = p.height;
            }
        }
    }
    (w, h)
}

/// The panels before row `r`, column `c` are drawn over `base`.
spec fn drawn(
    rows: Seq<[RgbImage; 4]>,
    base: &RgbImage,
    out: &RgbImage,
    r: int,
    c: int,
) -> bool {
    &&& out.wf()
    &&& out.same_size(base)
    &&& forall|u: int, v: int, s: int, d: int| #[trigger]
        shows(rows, s, d, u, v) && (s < r || s == r && d < c) ==> out.at(u, v) == shown(
            rows,
            s,
            d,
            u,
            v,
        )
    &&& forall|u: int, v: int| #[trigger]
        out.has(u, v) && (forall|s: int, d: int|
            shows(rows, s, d, u, v) ==> !(s < r || s == r && d < c)) ==> out.at(u, v) == base.at(
            u,
            v,
        )
}

/// Whether the grid of these panels can be assembled.
pub fn grid_fits(rows: &Vec<[RgbImage; 4]>, labels: [&str; 4]) -> (r: bool)
    ensures
        r == fits(rows@, Seq::new(4, |c: int| labels[c]@)),
{
    let ghost ls = Seq::new(4, |c: int| labels[c]@);
    let (cell_w, cell_h) = largest(rows);
    let scale: u32 = if cell_w / 120 >= 2 {
        cell_w / 120
    } else {
        2
    };
    let n: usize = rows.len();
    let ghost (m, h, k) = (n as int, cell_h as int, scale as int);
    proof {
        assert(0 <= m * h <= 0xffff_ffff_ffff_ffff * 0xffff_ffff) by (nonlinear_arith)
            requires
                0 <= m <= 0xffff_ffff_ffff_ffff,
                0 <= h <= 0xffff_ffff,
        ;
        assert((label::GLYPH_H + 4) * k == 11 * k) by (nonlinear_arith)
            requires
                label::GLYPH_H == 7,
        ;
        assert(label::GLYPH_H * k == 7 * k) by (nonlinear_arith)
            requires
                label::GLYPH_H == 7,
        ;
    }
    let height: u128 = 11 * scale as u128 + n as u128 * cell_h as u128;
    if height + 7 * scale as u128 > u32::MAX as u128 {
        return false;
    }
    proof {
        let (a, b) = (4 * cell_w as int, height as int);
        assert(0 <= a * b <= 0x3_ffff_ffff * 0xffff_ffff) by (nonlinear_arith)
            requires
                0 <= a <= 0x3_ffff_ffff,
                0 <= b <= 0xffff_ffff,
        ;
    }
    if 4 * cell_w as u128 * height > usize::MAX as u128 {
        return false;
    }
    for c in 0..4usize
        invariant
            ls == Seq::new(4, |c: int| labels[c]@),
            k == scale,
            label_scale(cell_w as int) == k,
            forall|d: int|
                0 <= d < c ==> (#[trigger] ls[d]).len() > 0 && 5 * cell_w + ls[d].len() * (
                label::GLYPH_W + 1) * k <= u32::MAX,
            cell(rows@).0 == cell_w,
    {
        let len: usize = labels[c].unicode_len();
        assert(len == ls[c as int].len());
        proof {
            let l = len as int;
            assert(0 <= l * 6 * k <= 0xffff_ffff_ffff_ffff * 6 * 0xffff_ffff) by (nonlinear_arith)
                requires
                    0 <= l <= 0xffff_ffff_ffff_ffff,
                    0 <= k <= 0xffff_ffff,
            ;
            assert(l * (label::GLYPH_W + 1) * k == l * 6 * k) by (nonlinear_arith)
                requires
                    label::GLYPH_W == 5,
            ;
        }
        if len == 0 || 5 * cell_w as u128 + len as u128 * 6 * scale as u128 > u32::MAX as u128 {
            return false;
        }
    }
    true
}

/// Assemble the panels of each view into one image: a header with the column labels, then a
/// row per view. Panels stand at the top left of cells that are as large as the largest
/// panel; the rest is black.
pub fn assemble_grid(rows: &Vec<[RgbImage; 4]>, labels: [&str; 4]) -> (out: RgbImage)
    requires
        forall|r: int, c: int|
            #![trigger rows@[r][c]]
            0 <= r < rows@.len() && 0 <= c < 4 ==> rows@[r][c].wf(),
        fits(rows@, Seq::new(4, |c: int| labels[c]@)),
    ensures
        is_grid(rows@, Seq::new(4, |c: int| labels[c]@), &out),
{
    let ghost ls = Seq::new(4, |c: int| labels[c]@);
    let (cell_w, cell_h) = largest(rows);
    let ghost cw = cell_w as int;
    let ghost chh = cell_h as int;
    let scale: u32 = if cell_w / 120 >= 2 {
        cell_w / 120
    } else {
        2
    };
    proof {
        assert(ls[0].len() > 0);
        assert(rows@.len() * chh >= 0) by (nonlinear_arith)
            requires
                chh >= 0,
        ;
        assert(ls[0].len() * (label::GLYPH_W + 1) * scale >= 0) by (nonlinear_arith)
            requires
                ls[0].len() >= 0,
                scale >= 0,
                label::GLYPH_W == 5,
        ;
        assert(header(cw) == 11 * scale) by (nonlinear_arith)
            requires
                header(cw) == (label::GLYPH_H + 4) * (scale as int),
                label::GLYPH_H == 7,
        ;
    }
    let header_h: u32 = 11 * scale;
    let body_h: u64 = rows.len() as u64 * cell_h as u64;
    let total_w: u32 = cell_w * 4;
    let total_h: u32 = header_h + body_h as u32;
    let mut out = RgbImage::filled(total_w, total_h, raster::BLACK);
    for c in 0..4usize
        invariant
            ls == Seq::new(4, |c: int| labels[c]@),
            cw == cell_w,
            fits(rows@, ls),
            cell(rows@).0 == cw,
            scale == label_scale(cw),
            header_h == header(cw),
            header(cw) == 11 * scale,
            header_h + label::GLYPH_H * scale <= u32::MAX,
            out.wf(),
            out.width == total_w,
            out.height == total_h,
            forall|u: int, v: int| #[trigger]
                out.has(u, v) ==> out.at(u, v) == (if header_lights(ls.take(c as int), cw, u, v) {
                    raster::WHITE
                } else {
                    raster::BLACK
                }),
    {
        let ghost before = out;
        let text = labels[c];
        proof {
            assert(ls[c as int] == text@);
            assert(0 <= c * cw <= 3 * cw) by (nonlinear_arith)
                requires
                    0 <= c < 4,
                    cw >= 0,
            ;
        }
        label::draw_label_centered(&mut out, text, c as u32 * cell_w, cell_w, header_h, scale);
        proof {
            let fewer = ls.take(c as int);
            let more = ls.take(c + 1);
            assert forall|u: int, v: int| #[trigger] out.has(u, v) implies out.at(u, v) == (
            if header_lights(more, cw, u, v) {
                raster::WHITE
            } else {
                raster::BLACK
            }) by {
                assert(before.has(u, v));
                if header_lights(fewer, cw, u, v) {
                    let k = choose|k: int|
                        0 <= k < fewer.len() && #[trigger] column_lights(fewer, cw, k, u, v);
                    assert(more[k] == fewer[k]);
                    assert(column_lights(more, cw, k, u, v));
                }
                assert(more[c as int] == text@);
                if label::label_lights(
                    text@,
                    label::label_start(
                        text@,
                        c * cw,
                        cw,
                        header(cw),
                        label_scale(cw),
                    ),
                    scale,
                    u,
                    v,
                ) {
                    assert(column_lights(more, cw, c as int, u, v));
                }
                if header_lights(more, cw, u, v) {
                    let k = choose|k: int|
                        0 <= k < more.len() && #[trigger] column_lights(more, cw, k, u, v);
                    if k < c {
                        assert(more[k] == fewer[k]);
                        assert(column_lights(fewer, cw, k, u, v));
                    }
                }
            }
        }
    }
    let ghost base = out;
    proof {
        assert(ls.take(4) =~= ls);
        assert forall|u: int, v: int| #[trigger] base.has(u, v) && v >= header(cw) implies base.at(
            u,
            v,
        ) == raster::BLACK by {
            if header_lights(ls, cw, u, v) {
                let k = choose|k: int| 0 <= k < ls.len() && #[trigger] column_lights(ls, cw, k, u, v);
                labels_stay_above(ls, cw, k, u, v);
            }
        }
    }
    for r in 0..rows.len()
        invariant
            cell(rows@) == (cw, chh),
            cw == cell_w,
            chh == cell_h,
            header_h == header(cw),
            cw * 4 <= u32::MAX,
            header_h + rows@.len() * chh <= u32::MAX,
            base.width == 4 * cw,
            base.height == header_h + rows@.len() * chh,
            forall|r: int, c: int|
                #![trigger rows@[r][c]]
                0 <= r < rows@.len() && 0 <= c < 4 ==> rows@[r][c].wf(),
            drawn(rows@, &base, &out, r as int, 0),
    {
        proof {
            assert(0 <= r * chh && r * chh + chh <= rows@.len() * chh) by (nonlinear_arith)
                requires
                    0 <= r < rows@.len(),
                    chh >= 0,
            ;
        }
        let y: u32 = header_h + (r as u64 * cell_h as u64) as u32;
        for c in 0..4usize
            invariant
                r < rows@.len(),
                cell(rows@) == (cw, chh),
                cw == cell_w,
                chh == cell_h,
                header_h == header(cw),
                cw * 4 <= u32::MAX,
                y == header_h + r * chh,
                y + chh <= u32::MAX,
                base.width == 4 * cw,
                base.height == header_h + rows@.len() * chh,
                forall|r: int, c: int|
                    #![trigger rows@[r][c]]
                    0 <= r < rows@.len() && 0 <= c < 4 ==> rows@[r][c].wf(),
                drawn(rows@, &base, &out, r as int, c as int),
        {
            let ghost before = out;
            proof {
                assert(0 <= c * cw && c * cw + cw <= 4 * cw) by (nonlinear_arith)
                    requires
                        0 <= c < 4,
                        cw >= 0,
                ;
                cell_bounds(rows@, rows@.len() as int, r as int, c as int);
            }
            let x: u32 = c as u32 * cell_w;
            let panel = &rows[r][c];
            out.overlay(panel, x, y);
            proof {
                draw_one(rows@, &base, &before, &out, r as int, c as int, x as int, y as int);
            }
        }
        proof {
            next_row(rows@, &base, &out, r as int);
        }
    }
    proof {
        assert forall|u: int, v: int, r: int, c: int| #[trigger] shows(rows@, r, c, u, v) implies {
            &&& out.has(u, v)
            &&& v >= header(cw)
            &&& out.at(u, v) == shown(rows@, r, c, u, v)
        } by {
            panel_is_inside(rows@, r, c, u, v);
        }
        assert forall|u: int, v: int| #[trigger] out.has(u, v) && v < header(cw) implies out.at(u, v)
            == base.at(u, v) by {
            assert forall|s: int, d: int| shows(rows@, s, d, u, v) implies !(s < rows@.len() || s
                == rows@.len() && d < 0) by {
                panel_is_inside(rows@, s, d, u, v);
            }
        }
        assert forall|u: int, v: int| #[trigger] out.has(u, v) implies base.has(u, v) by {}
    }
    out
}

/// Row `r` is complete after its four panels.
proof fn next_row(rows: Seq<[RgbImage; 4]>, base: &RgbImage, out: &RgbImage, r: int)
    requires
        drawn(rows, base, out, r, 4),
    ensures
        drawn(rows, base, out, r + 1, 0),
{
    assert forall|u: int, v: int| #[trigger]
        out.has(u, v) && (forall|s: int, d: int|
            shows(rows, s, d, u, v) ==> !(s < r + 1 || s == r + 1 && d < 0)) implies out.at(u, v)
        == base.at(u, v) by {
        assert forall|s: int, d: int| shows(rows, s, d, u, v) implies !(s < r || s == r && d < 4) by {
            assert(!(s < r + 1));
        }
    }
}

/// Drawing the panel of row `r` and column `c` adds it to those drawn.
proof fn draw_one(
    rows: Seq<[RgbImage; 4]>,
    base: &RgbImage,
    before: &RgbImage,
    out: &RgbImage,
    r: int,
    c: int,
    x: int,
    y: int,
)
    requires
        drawn(rows, base, before, r, c),
        0 <= r < rows.len(),
        0 <= c < 4,
        x == c * cell(rows).0,
        y == header(cell(rows).0) + r * cell(rows).1,
        base.width == 4 * cell(rows).0,
        base.height == header(cell(rows).0) + rows.len() * cell(rows).1,
        out.wf(),
        out.same_size(before),
        forall|u: int, v: int| #[trigger]
            out.has(u, v) ==> out.at(u, v) == (if rows[r][c].has(u - x, v - y) {
                rows[r][c].at(u - x, v - y)
            } else {
                before.at(u, v)
            }),
    ensures
        drawn(rows, base, out, r, c + 1),
{
    let h = header(cell(rows).0);
    let k = r * cell(rows).1;
    assert forall|u: int, v: int, s: int, d: int| #[trigger]
        shows(rows, s, d, u, v) && (s < r || s == r && d < c + 1) implies out.at(u, v) == shown(
        rows,
        s,
        d,
        u,
        v,
    ) by {
        panel_is_inside(rows, s, d, u, v);
        assert(out.has(u, v));
        assert(v - y == v - h - k);
        if rows[r][c].has(u - x, v - y) {
            assert(shows(rows, r, c, u, v));
            panels_are_apart(rows, r, c, s, d, u, v);
        }
    }
    assert forall|u: int, v: int| #[trigger]
        out.has(u, v) && (forall|s: int, d: int|
            shows(rows, s, d, u, v) ==> !(s < r || s == r && d < c + 1)) implies out.at(u, v)
        == base.at(u, v) by {
        assert(v - y == v - h - k);
        if rows[r][c].has(u - x, v - y) {
            assert(shows(rows, r, c, u, v));
        }
        assert(before.has(u, v));
        assert forall|s: int, d: int| shows(rows, s, d, u, v) implies !(s < r || s == r && d < c) by {
            assert(!(s < r || s == r && d < c + 1));
        }
    }
}

/// A cell has room for every panel, and is no larger than the largest ones.
pub proof fn cells_fit_the_panels(rows: Seq<[RgbImage; 4]>, r: int, c: int)
    requires
        0 <= r < rows.len(),
        0 <= c < 4,
    ensures
        rows[r][c].width <= cell(rows).0,
        rows[r][c].height <= cell(rows).1,
        exists|s: int, d: int|
            0 <= s < rows.len() && 0 <= d < 4 && (#[trigger] rows[s][d]).width == cell(rows).0,
        exists|s: int, d: int|
            0 <= s < rows.len() && 0 <= d < 4 && (#[trigger] rows[s][d]).height == cell(rows).1,
{
    cell_bounds(rows, rows.len() as int, r, c);
    let (a, b) = some_panel_is_widest(rows, rows.len() as int);
    assert(rows[a][b].width == cell(rows).0);
    let (a, b) = some_panel_is_tallest(rows, rows.len() as int);
    assert(rows[a][b].height == cell(rows).1);
}

proof fn some_panel_is_widest(rows: Seq<[RgbImage; 4]>, n: int) -> (r: (int, int))
    requires
        0 < n <= rows.len(),
    ensures
        0 <= r.0 < n,
        0 <= r.1 < 4,
        rows[r.0][r.1].width == widest(rows, n),
    decreases n,
{
    let m = n - 1;
    reveal_with_fuel(widest, 2);
    let (a, b, c, d) = (
        rows[m][0].width as int,
        rows[m][1].width as int,
        rows[m][2].width as int,
        rows[m][3].width as int,
    );
    assert(widest(rows, n) == larger(widest(rows, m), larger(larger(a, b), larger(c, d))));
    if n > 1 && widest(rows, n) == widest(rows, m) {
        some_panel_is_widest(rows, m)
    } else if rows[m][0].width == widest(rows, n) {
        (m, 0)
    } else if rows[m][1].width == widest(rows, n) {
        (m, 1)
    } else if rows[m][2].width == widest(rows, n) {
        (m, 2)
    } else {
        (m, 3)
    }
}

proof fn some_panel_is_tallest(rows: Seq<[RgbImage; 4]>, n: int) -> (r: (int, int))
    requires
        0 < n <= rows.len(),
    ensures
        0 <= r.0 < n,
        0 <= r.1 < 4,
        rows[r.0][r.1].height == tallest(rows, n),
    decreases n,
{
    let m = n - 1;
    reveal_with_fuel(tallest, 2);
    let (a, b, c, d) = (
        rows[m][0].height as int,
        rows[m][1].height as int,
        rows[m][2].height as int,
        rows[m][3].height as int,
    );
    assert(tallest(rows, n) == larger(tallest(rows, m), larger(larger(a, b), larger(c, d))));
    if n > 1 && tallest(rows, n) == tallest(rows, m) {
        some_panel_is_tallest(rows, m)
    } else if rows[m][0].height == tallest(rows, n) {
        (m, 0)
    } else if rows[m][1].height == tallest(rows, n) {
        (m, 1)
    } else if rows[m][2].height == tallest(rows, n) {
        (m, 2)
    } else {
        (m, 3)
    }
}

/// Pixel `(x, y)` of the panel in row `r` and column `c` is found again `c` cells to the right, and
/// `r` cells below the header.
pub proof fn panels_stand_in_their_cells(
    rows: Seq<[RgbImage; 4]>,
    labels: Seq<Seq<char>>,
    out: &RgbImage,
    r: int,
    c: int,
    x: int,
    y: int,
)
    requires
        is_grid(rows, labels, out),
        0 <= r < rows.len(),
        0 <= c < 4,
        0 <= x < rows[r][c].width,
        0 <= y < rows[r][c].height,
    ensures
        ({
            let (cw, ch) = cell(rows);
            let top = out.height - rows.len() * ch;
            let (u, v) = (c * cw + x, top + r * ch + y);
            &&& 0 <= u < out.width && 0 <= v < out.height
            &&& out.pixels@[v * out.width + u] == rows[r][c].pixels@[y * rows[r][c].width + x]
        }),
{
    let (cw, ch) = cell(rows);
    let (u, v) = (c * cw + x, header(cw) + r * ch + y);
    assert(shows(rows, r, c, u, v));
    assert(out.has(u, v));
}

proof fn cells_are_apart(w: int, i: int, j: int, o: int)
    requires
        i * w <= o < i * w + w,
        j * w <= o < j * w + w,
    ensures
        i == j,
{
    assert(i == j) by (nonlinear_arith)
        requires
            i * w <= o < i * w + w,
            j * w <= o < j * w + w,
    ;
}

/// A cell is black beyond its panel.
pub proof fn cells_are_filled_up_with_black(
    rows: Seq<[RgbImage; 4]>,
    labels: Seq<Seq<char>>,
    out: &RgbImage,
    r: int,
    c: int,
    x: int,
    y: int,
)
    requires
        is_grid(rows, labels, out),
        0 <= r < rows.len(),
        0 <= c < 4,
        0 <= x < cell(rows).0,
        0 <= y < cell(rows).1,
        x >= rows[r][c].width || y >= rows[r][c].height,
    ensures
        ({
            let (cw, ch) = cell(rows);
            let top = out.height - rows.len() * ch;
            let p = out.at(c * cw + x, top + r * ch + y);
            p[0] == 0 && p[1] == 0 && p[2] == 0
        }),
{
    let (cw, ch) = cell(rows);
    let (u, v) = (c * cw + x, header(cw) + r * ch + y);
    assert(0 <= u < 4 * cw) by (nonlinear_arith)
        requires
            u == c * cw + x,
            0 <= c < 4,
            0 <= x < cw,
    ;
    assert(0 <= r * ch + y < rows.len() * ch) by (nonlinear_arith)
        requires
            0 <= r < rows.len(),
            0 <= y < ch,
    ;
    assert(out.has(u, v));
    assert forall|q: int, d: int| !shows(rows, q, d, u, v) by {
        if shows(rows, q, d, u, v) {
            cell_bounds(rows, rows.len() as int, q, d);
            cells_are_apart(cw, c, d, u);
            cells_are_apart(ch, r, q, r * ch + y);
        }
    }
    assert(out.at(u, v) == raster::BLACK);
}

/// A header leaves two label pixels free above its label and below it, and a label pixel is a
/// hundred and twentieth of a cell wide, but at least two pixels.
pub proof fn headers_leave_room(text: Seq<char>, x0: int, cell_w: int)
    requires
        0 <= cell_w,
    ensures
        ({
            let s = label_scale(cell_w);
            let start = label::label_start(text, x0, cell_w, header(cell_w), s);
            &&& s >= 2
            &&& s == 2 || 120 * s <= cell_w < 120 * s + 120
            &&& 120 * s + 120 > cell_w
            &&& start.1 == 2 * s
            &&& header(cell_w) - (start.1 + 7 * s) == 2 * s
        }),
{
}

} // verus!
