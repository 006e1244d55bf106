//! The texels that a face covers.

use crate::float::F32;
use vstd::prelude::*;

verus! {

/// A texel that a face covers, with the barycentric weights of its centre.
#[derive(Clone, Copy, Debug)]
pub struct TexelSample {
    pub index: u32,
    pub weights: [F32; 3],
}

/// `s` is the sample of the texel at `(x, y)`.
pub open spec fn is_sample<C: Fn(u32, u32) -> Option<[F32; 3]>>(
    cover: C,
    atlas_px: u32,
    x: u32,
    y: u32,
    s: TexelSample,
) -> bool {
    &&& s.index == y * atlas_px + x
    &&& cover.ensures((x, y), Some(s.weights))
}

/// `samples` are those of the texels `texels`: for each texel that the face covers, its
/// sample, in the same order.
pub open spec fn are_samples<C: Fn(u32, u32) -> Option<[F32; 3]>>(
    cover: C,
    atlas_px: u32,
    texels: Seq<(u32, u32)>,
    samples: Seq<TexelSample>,
) -> bool
    decreases texels.len(),
{
    if texels.len() == 0 {
        samples.len() == 0
    } else {
        let (x, y) = texels.last();
        ||| cover.ensures((x, y), None) && are_samples(
            cover,
            atlas_px,
            texels.drop_last(),
            samples,
        )
        ||| samples.len() > 0 && is_sample(cover, atlas_px, x, y, samples.last()) && are_samples(
            cover,
            atlas_px,
            texels.drop_last(),
            samples.drop_last(),
        )
    }
}

/// The texels of row `y` from `x0` on, before `x`.
pub open spec fn row_texels(x0: u32, x: int, y: u32) -> Seq<(u32, u32)> {
    Seq::new((x - x0) as nat, |i: int| ((x0 + i) as u32, y))
}

/// The texels of the rows from `y0` on, before `y`, from column `x0` to `x1`.
pub open spec fn rect_texels(x0: u32, x1: u32, y0: u32, y: int) -> Seq<(u32, u32)>
    decreases y,
{
    if y <= y0 {
        Seq::empty()
    } else {
        rect_texels(x0, x1, y0, y - 1) + row_texels(x0, x1 + 1, (y - 1) as u32)
    }
}

/// Walk the texels from column `x0` to `x1` and row `y0` to `y1`, cut off at the atlas, and
/// list those that a face covers. `cover(x, y)` gives the weights of the corners at the
/// centre of a texel, if the face covers it.
pub fn face_texels<C: Fn(u32, u32) -> Option<[F32; 3]>>(
    atlas_px: u32,
    x0: u32,
    x1: u32,
    y0: u32,
    y1: u32,
    cover: C,
) -> (samples: Vec<TexelSample>)
    requires
        atlas_px > 0,
        atlas_px * atlas_px <= u32::MAX,
        forall|x: u32, y: u32| #[trigger] cover.requires((x, y)),
    ensures
        ({
            let last_x = if x1 <= atlas_px - 1 {
                x1
            } else {
                (atlas_px - 1) as u32
            };
            let last_y = if y1 <= atlas_px - 1 {
                y1
            } else {
                (atlas_px - 1) as u32
            };
            if x0 <= last_x && y0 <= last_y {
                are_samples(
                    cover,
                    atlas_px,
                    rect_texels(x0, last_x, y0, last_y + 1),
                    samples@,
                )
            } else {
                samples@.len() == 0
            }
        }),
        forall|i: int|
            0 <= i < samples@.len() ==> (#[trigger] samples@[i]).index < atlas_px * atlas_px,
{
    let last_x: u32 = if x1 <= atlas_px - 1 {
        x1
    } else {
        atlas_px - 1
    };
    let last_y: u32 = if y1 <= atlas_px - 1 {
        y1
    } else {
        atlas_px - 1
    };
    let mut samples: Vec<TexelSample> = Vec::new();
    if x0 > last_x || y0 > last_y {
        return samples;
    }
    for y in y0..last_y + 1
        invariant
            x0 <= last_x < atlas_px,
            y0 <= last_y < atlas_px,
            atlas_px * atlas_px <= u32::MAX,
            forall|x: u32, y: u32| #[trigger] cover.requires((x, y)),
            are_samples(cover, atlas_px, rect_texels(x0, last_x, y0, y as int), samples@),
            forall|i: int|
                0 <= i < samples@.len() ==> (#[trigger] samples@[i]).index < atlas_px * atlas_px,
    {
        let ghost rows = rect_texels(x0, last_x, y0, y as int);
        assert(rows + row_texels(x0, x0 as int, y) =~= rows);
        for x in x0..last_x + 1
            invariant
                y <= last_y,
                x0 <= last_x < atlas_px,
                y0 <= last_y < atlas_px,
                atlas_px * atlas_px <= u32::MAX,
                forall|x: u32, y: u32| #[trigger] cover.requires((x, y)),
                are_samples(cover, atlas_px, rows + row_texels(x0, x as int, y), samples@),
                forall|i: int|
                    0 <= i < samples@.len() ==> (#[trigger] samples@[i]).index < atlas_px
                        * atlas_px,
        {
            let ghost texels = rows + row_texels(x0, x as int, y);
            let ghost more = rows + row_texels(x0, x + 1, y);
            let ghost before = samples@;
            proof {
                assert(more.drop_last() =~= texels);
                assert(more.last() == (x, y));
                assert(y * atlas_px + x < atlas_px * atlas_px && y * atlas_px >= 0)
                    by (nonlinear_arith)
                    requires
                        0 <= x < atlas_px,
                        0 <= y < atlas_px,
                ;
            }
            match cover(x, y) {
                Some(weights) => {
                    samples.push(TexelSample { index: y * atlas_px + x, weights });
                    assert(samples@.drop_last() =~= before);
                    assert(is_sample(cover, atlas_px, x, y, samples@.last()));
                },
                None => {
                    assert(cover.ensures((x, y), None));
                },
            }
            assert(are_samples(cover, atlas_px, more, samples@));
        }
        assert(rect_texels(x0, last_x, y0, y + 1) == rows + row_texels(x0, last_x + 1, y));
    }
    samples
}

/// Where the texels of a rectangle stand in the list of its texels.
proof fn texel_of_rect(x0: u32, x1: u32, y0: u32, n: int, x: u32, y: u32) -> (i: int)
    requires
        x0 <= x <= x1,
        y0 <= y < n,
    ensures
        0 <= i < rect_texels(x0, x1, y0, n).len(),
        rect_texels(x0, x1, y0, n)[i] == (x, y),
    decreases n,
{
    let before = rect_texels(x0, x1, y0, n - 1);
    let row = row_texels(x0, x1 + 1, (n - 1) as u32);
    if y == n - 1 {
        assert(row[x - x0] == (x, y));
        before.len() + (x - x0)
    } else {
        texel_of_rect(x0, x1, y0, n - 1, x, y)
    }
}

proof fn rect_has_its_texels(x0: u32, x1: u32, y0: u32, n: int, i: int)
    requires
        x0 <= x1,
        n <= u32::MAX,
        0 <= i < rect_texels(x0, x1, y0, n).len(),
    ensures
        ({
            let (x, y) = rect_texels(x0, x1, y0, n)[i];
            x0 <= x <= x1 && y0 <= y < n
        }),
    decreases n,
{
    let before = rect_texels(x0, x1, y0, n - 1);
    if i < before.len() {
        rect_has_its_texels(x0, x1, y0, n - 1, i);
    }
}

/// The texels that are sampled.
proof fn sampled_texels<C: Fn(u32, u32) -> Option<[F32; 3]>>(
    cover: C,
    atlas_px: u32,
    texels: Seq<(u32, u32)>,
    samples: Seq<TexelSample>,
) -> (src: Seq<int>)
    requires
        are_samples(cover, atlas_px, texels, samples),
    ensures
        src.len() == samples.len(),
        forall|i: int, j: int| 0 <= i < j < src.len() ==> src[i] < src[j],
        forall|s: int|
            #![trigger src[s]]
            0 <= s < src.len() ==> 0 <= src[s] < texels.len() && samples[s].index
                == texels[src[s]].1 * atlas_px + texels[src[s]].0 && cover.ensures(
                (texels[src[s]].0, texels[src[s]].1),
                Some(samples[s].weights),
            ),
        forall|i: int|
            #![trigger texels[i]]
            0 <= i < texels.len() && !src.contains(i) ==> cover.ensures(
                (texels[i].0, texels[i].1),
                None,
            ),
    decreases texels.len(),
{
    if texels.len() == 0 {
        Seq::empty()
    } else {
        let head = texels.drop_last();
        let n = texels.len() - 1;
        let (x, y) = texels[n];
        if cover.ensures((x, y), None) && are_samples(cover, atlas_px, head, samples) {
            let src = sampled_texels(cover, atlas_px, head, samples);
            assert forall|s: int| #![trigger src[s]] 0 <= s < src.len() implies texels[src[s]]
                == head[src[s]] by {}
            assert forall|i: int|
                #![trigger texels[i]]
                0 <= i < texels.len() && !src.contains(i) implies cover.ensures(
                (texels[i].0, texels[i].1),
                None,
            ) by {
                if i < n {
                    assert(head[i] == texels[i]);
                }
            }
            src
        } else {
            let before = sampled_texels(cover, atlas_px, head, samples.drop_last());
            let src = before.push(n);
            assert forall|s: int| #![trigger src[s]] 0 <= s < before.len() implies src[s]
                == before[s] && texels[src[s]] == head[before[s]] && samples[s]
                == samples.drop_last()[s] by {}
            assert(is_sample(cover, atlas_px, x, y, samples[samples.len() - 1]));
            assert forall|i: int|
                #![trigger texels[i]]
                0 <= i < texels.len() && !src.contains(i) implies cover.ensures(
                (texels[i].0, texels[i].1),
                None,
            ) by {
                if i == n {
                    assert(src[before.len() as int] == i);
                }
                assert(head[i] == texels[i]);
                if before.contains(i) {
                    let s = before.index_of(i);
                    assert(src[s] == i);
                }
            }
            src
        }
    }
}

/// A sample is of a texel of a rectangle, which the face covers.
pub open spec fn lies_in_rect<C: Fn(u32, u32) -> Option<[F32; 3]>>(
    cover: C,
    atlas_px: u32,
    x0: u32,
    x1: u32,
    y0: u32,
    n: int,
    s: TexelSample,
) -> bool {
    exists|u: u32, v: u32|
        {
            &&& x0 <= u <= x1 && y0 <= v < n
            &&& s.index == v * atlas_px + u
            &&& #[trigger] cover.ensures((u, v), Some(s.weights))
        }
}

/// Every texel of a rectangle that a face covers is sampled, in its place of the atlas and with the
/// weights that the face has there; the texels that it does not cover are not.
pub proof fn covered_texels_are_sampled<C: Fn(u32, u32) -> Option<[F32; 3]>>(
    cover: C,
    atlas_px: u32,
    x0: u32,
    x1: u32,
    y0: u32,
    n: int,
    samples: Seq<TexelSample>,
    x: u32,
    y: u32,
)
    requires
        are_samples(cover, atlas_px, rect_texels(x0, x1, y0, n), samples),
        n <= u32::MAX,
        x0 <= x <= x1,
        y0 <= y < n,
    ensures
        ({
            ||| cover.ensures((x, y), None)
            ||| exists|s: int|
                {
                    &&& 0 <= s < samples.len()
                    &&& (#[trigger] samples[s]).index == y * atlas_px + x
                    &&& cover.ensures((x, y), Some(samples[s].weights))
                }
        }),
        forall|s: int|
            0 <= s < samples.len() ==> lies_in_rect(
                cover,
                atlas_px,
                x0,
                x1,
                y0,
                n,
                #[trigger] samples[s],
            ),
{
    let texels = rect_texels(x0, x1, y0, n);
    let src = sampled_texels(cover, atlas_px, texels, samples);
    let i = texel_of_rect(x0, x1, y0, n, x, y);
    assert(texels[i] == (x, y));
    if src.contains(i) {
        let s = src.index_of(i);
        assert(src[s] == i);
        assert(samples[s].index == y * atlas_px + x);
    }
    assert forall|s: int| 0 <= s < samples.len() implies lies_in_rect(
        cover,
        atlas_px,
        x0,
        x1,
        y0,
        n,
        #[trigger] samples[s],
    ) by {
        let t = texels[src[s]];
        rect_has_its_texels(x0, x1, y0, n, src[s]);
        assert(cover.ensures((t.0, t.1), Some(samples[s].weights)));
    }
}

} // verus!
