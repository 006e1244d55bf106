//! A random start: how many points each view contributes, and from which pixels.

use crate::eval::raster::RgbImage;
use vstd::prelude::*;

verus! {

/// Distance between the seeds of two views.
pub const SEED_STRIDE: u64 = 0x9E3779B9;

/// The number of points of view `i`: an even share, and one more for the first views until
/// the remainder is used up.
pub open spec fn quota(count: int, n_views: int, i: int) -> int {
    count / n_views + (if i < count % n_views {
        1int
    } else {
        0
    })
}

/// The points of the first `n` views.
pub open spec fn quota_sum(count: int, n_views: int, n: int) -> int
    decreases n,
{
    if n <= 0 {
        0
    } else {
        quota_sum(count, n_views, n - 1) + quota(count, n_views, n - 1)
    }
}

/// Together the views contribute all the points that were asked for.
pub proof fn quotas_add_up(count: int, n_views: int)
    requires
        count >= 0,
        n_views > 0,
    ensures
        quota_sum(count, n_views, n_views) == count,
{
    quota_prefix(count, n_views, n_views);
    let (q, m) = (count / n_views, count % n_views);
    assert(n_views * q + m == count && 0 <= m < n_views) by (nonlinear_arith)
        requires
            n_views > 0,
            q == count / n_views,
            m == count % n_views,
    ;
}

proof fn quota_prefix(count: int, n_views: int, n: int)
    requires
        count >= 0,
        n_views > 0,
        0 <= n <= n_views,
    ensures
        quota_sum(count, n_views, n) == n * (count / n_views) + (if n <= count % n_views {
            n
        } else {
            count % n_views
        }),
    decreases n,
{
    let q = count / n_views;
    assert(count % n_views >= 0) by (nonlinear_arith)
        requires
            n_views > 0,
    ;
    if n > 0 {
        quota_prefix(count, n_views, n - 1);
        assert((n - 1) * q + q == n * q) by (nonlinear_arith);
    } else {
        assert(0 * q == 0);
    }
}

/// The seed of view `i`.
pub open spec fn view_seed(seed: u64, i: int) -> int {
    (seed + i * SEED_STRIDE) % 0x1_0000_0000_0000_0000
}

/// The points and the seed of each view.
pub fn sampling_jobs(count: usize, n_views: usize, seed: u64) -> (r: Vec<(usize, u64)>)
    requires
        n_views > 0 ==> (n_views - 1) * SEED_STRIDE <= u64::MAX,
    ensures
        r@.len() == n_views,
        forall|i: int|
            0 <= i < n_views ==> (#[trigger] r@[i]).0 == quota(count as int, n_views as int, i)
                && r@[i].1 == view_seed(seed, i),
{
    let mut r: Vec<(usize, u64)> = Vec::new();
    if n_views == 0 {
        return r;
    }
    let base: usize = count / n_views;
    let rem: usize = count % n_views;
    for i in 0..n_views
        invariant
            (n_views - 1) * SEED_STRIDE <= u64::MAX,
            n_views > 0,
            base == count / n_views,
            rem == count % n_views,
            r@.len() == i,
            forall|k: int|
                0 <= k < i ==> (#[trigger] r@[k]).0 == quota(count as int, n_views as int, k)
                    && r@[k].1 == view_seed(seed, k),
    {
        proof {
            let (c, v, b, m) = (count as int, n_views as int, base as int, rem as int);
            assert(v * b + m == c) by (nonlinear_arith)
                requires
                    v > 0,
                    b == c / v,
                    m == c % v,
            ;
            assert(b + 1 <= v * b + m || m == 0) by (nonlinear_arith)
                requires
                    v > 0,
                    b >= 0,
                    m >= 0,
            ;
            assert(i * SEED_STRIDE <= (n_views - 1) * SEED_STRIDE) by (nonlinear_arith)
                requires
                    0 <= i <= n_views - 1,
            ;
        }
        let n: usize = if i < rem {
            base + 1
        } else {
            base
        };
        let s: u64 = seed.wrapping_add(i as u64 * SEED_STRIDE);
        r.push((n, s));
    }
    r
}

/// The number of jobs in a chunk when `len` jobs go to `workers` workers.
pub fn chunk_size(len: usize, workers: usize) -> (r: usize)
    requires
        workers > 0,
    ensures
        r >= 1,
        r * workers >= len,
        (r - 1) * workers < len || r == 1,
{
    let w: usize = if workers <= len {
        workers
    } else if len >= 1 {
        len
    } else {
        1
    };
    let q: usize = len / w;
    proof {
        let (l, ww, qq) = (len as int, w as int, q as int);
        assert(ww * qq + l % ww == l && 0 <= l % ww < ww) by (nonlinear_arith)
            requires
                ww > 0,
                qq == l / ww,
        ;
        assert(qq <= ww * qq) by (nonlinear_arith)
            requires
                ww > 0,
                qq >= 0,
        ;
        if len > 0 && ww == workers {
            if l % ww == 0 {
                assert(qq * ww == l && (qq - 1) * ww < l) by (nonlinear_arith)
                    requires
                        ww * qq == l,
                        ww > 0,
                ;
                assert(qq >= 1) by (nonlinear_arith)
                    requires
                        ww * qq == l,
                        l > 0,
                        ww > 0,
                ;
            } else {
                let m = l % ww;
                assert((qq + 1) * ww >= l && qq * ww < l) by (nonlinear_arith)
                    requires
                        ww * qq + m == l,
                        0 < m < ww,
                ;
            }
        } else if len > 0 {
            assert(qq == 1 && l % ww == 0) by (nonlinear_arith)
                requires
                    ww == l,
                    qq == l / ww,
                    l > 0,
            ;
        } else {
            assert(qq == 0) by (nonlinear_arith)
                requires
                    l == 0,
                    qq == l / ww,
                    ww > 0,
            ;
        }
    }
    let r: usize = if len % w == 0 {
        q
    } else {
        q + 1
    };
    let r: usize = if r >= 1 {
        r
    } else {
        1
    };
    proof {
        if r == 1 {
            assert(r * workers == workers) by (nonlinear_arith)
                requires
                    r == 1,
            ;
        }
        if len > 0 && w == workers {
            let k = if len % w == 0 {
                q as int
            } else {
                q + 1
            };
            assert(r * workers == k * w) by (nonlinear_arith)
                requires
                    r == k,
                    workers == w,
            ;
        }
    }
    r
}

/// Whether a view contributes points: it has some to give, and an image, which `size` is the
/// width and height of, with pixels to take them from.
pub fn contributes(quota: usize, size: Option<(u32, u32)>) -> (r: bool)
    ensures
        r <==> quota > 0 && (size matches Some((w, h)) && w > 0 && h > 0),
{
    match size {
        Some((w, h)) => quota > 0 && w > 0 && h > 0,
        None => false,
    }
}

/// The first `n` parts, one after the other.
pub open spec fn joined<T>(parts: Seq<Vec<T>>, n: int) -> Seq<T>
    decreases n,
{
    if n <= 0 {
        Seq::empty()
    } else {
        joined(parts, n - 1) + parts[n - 1]@
    }
}

/// Gather the points that views gave, in the order of the views. `None` if no view gave any:
/// there is nothing to start from.
pub fn gather_points<T: Copy>(parts: &Vec<Vec<T>>) -> (r: Option<Vec<T>>)
    ensures
        match r {
            Some(all) => all@ == joined(parts@, parts@.len() as int) && all@.len() > 0,
            None => forall|i: int| 0 <= i < parts@.len() ==> (#[trigger] parts@[i])@.len() == 0,
        },
{
    let mut all: Vec<T> = Vec::new();
    for i in 0..parts.len()
        invariant
            all@ == joined(parts@, i as int),
    {
        let ghost before = all@;
        let count: usize = parts[i].len();
        for j in 0..count
            invariant
                i < parts@.len(),
                count == parts@[i as int]@.len(),
                all@ == before + parts@[i as int]@.take(j as int),
        {
            all.push(parts[i][j]);
            assert(parts@[i as int]@.take(j + 1) =~= parts@[i as int]@.take(j as int).push(
                parts@[i as int]@[j as int],
            ));
        }
        assert(parts@[i as int]@.take(parts@[i as int]@.len() as int) =~= parts@[i as int]@);
    }
    if all.len() == 0 {
        proof {
            assert forall|i: int| 0 <= i < parts@.len() implies (#[trigger] parts@[i])@.len()
                == 0 by {
                joined_holds_each(parts@, i, parts@.len() as int);
            }
        }
        None
    } else {
        Some(all)
    }
}

proof fn joined_holds_each<T>(parts: Seq<Vec<T>>, i: int, n: int)
    requires
        0 <= i < n <= parts.len(),
    ensures
        parts[i]@.len() <= joined(parts, n).len(),
    decreases n,
{
    if i < n - 1 {
        joined_holds_each(parts, i, n - 1);
    }
}

/// It makes no difference how views are shared out to workers: the parts of the first `m`
/// and of the others, joined one after the other, are the parts of all.
pub proof fn sharing_out_keeps_the_order<T>(parts: Seq<Vec<T>>, m: int, n: int)
    requires
        0 <= m <= n <= parts.len(),
    ensures
        joined(parts, n) == joined(parts.take(m), m) + joined(parts.subrange(m, n), n - m),
    decreases n,
{
    if m == n {
        joined_prefix(parts, parts.take(m), m);
        assert(joined(parts, n) =~= joined(parts.take(m), m) + Seq::<T>::empty());
    } else {
        sharing_out_keeps_the_order(parts, m, n - 1);
        joined_prefix(parts.subrange(m, n), parts.subrange(m, n - 1), n - 1 - m);
        assert(joined(parts, n) =~= joined(parts.take(m), m) + joined(
            parts.subrange(m, n),
            n - m,
        ));
    }
}

proof fn joined_prefix<T>(a: Seq<Vec<T>>, b: Seq<Vec<T>>, n: int)
    requires
        0 <= n <= a.len(),
        n <= b.len(),
        forall|i: int| 0 <= i < n ==> #[trigger] a[i] == b[i],
    ensures
        joined(a, n) == joined(b, n),
    decreases n,
{
    if n > 0 {
        assert(a[n - 1] == b[n - 1]);
        joined_prefix(a, b, n - 1);
    }
}

/// The colour of pixel `(u, v)`, or of the last column or row beyond it.
pub fn sample_pixel(img: &RgbImage, u: u32, v: u32) -> (r: [u8; 3])
    requires
        img.wf(),
        img.width > 0,
        img.height > 0,
    ensures
        r == img.at(
            if u < img.width {
                u as int
            } else {
                img.width - 1
            },
            if v < img.height {
                v as int
            } else {
                img.height - 1
            },
        ),
{
    let x: u32 = if u < img.width {
        u
    } else {
        img.width - 1
    };
    let y: u32 = if v < img.height {
        v
    } else {
        img.height - 1
    };
    img.get(x, y)
}

/// The shares are even: no view gives more than one point more than another, and none more than one
/// before it.
pub proof fn quotas_are_even(count: int, n_views: int, i: int, j: int)
    requires
        count >= 0,
        0 <= i < j < n_views,
    ensures
        quota(count, n_views, j) <= quota(count, n_views, i) <= quota(count, n_views, j) + 1,
        quota(count, n_views, j) >= 0,
{
    assert(count / n_views >= 0) by (nonlinear_arith)
        requires
            count >= 0,
            n_views > 0,
    ;
}

/// Each view samples with a seed of its own; the first one with the seed that was given.
pub proof fn views_have_seeds_of_their_own(seed: u64, n_views: int, i: int, j: int)
    requires
        0 <= i < j < n_views,
        (n_views - 1) * SEED_STRIDE <= u64::MAX,
    ensures
        view_seed(seed, 0) == seed,
        view_seed(seed, i) != view_seed(seed, j),
{
    let m = 0x1_0000_0000_0000_0000int;
    let (a, b) = (i * SEED_STRIDE, j * SEED_STRIDE);
    assert(0 <= a < b <= u64::MAX) by (nonlinear_arith)
        requires
            0 <= i < j <= n_views - 1,
            a == i * SEED_STRIDE,
            b == j * SEED_STRIDE,
            (n_views - 1) * SEED_STRIDE <= u64::MAX,
            SEED_STRIDE > 0,
    ;
}

} // verus!
