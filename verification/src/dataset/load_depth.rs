//! Metric depth sidecars: headerless `f32` samples with an optional confidence file.

use crate::bytes;
use crate::float::{self, F32};
use vstd::prelude::*;

verus! {

/// `RATIO_NUM / RATIO_DEN` is the largest aspect ratio mismatch of a depth map, `e` to the
/// power of one fifth: the convergent below is off by less than one part in `10^17`.
pub const RATIO_NUM: u128 = 104380651;

pub const RATIO_DEN: u128 = 85459649;

/// Confidence of a sample when there is no confidence file.
pub const FULL_CONFIDENCE: u8 = 2;

pub const ONE_BITS: u32 = 0x3F800000;

pub const TWO_BITS: u32 = 0x40000000;

/// Decoded depth: row-major `z`-depth in metres and a confidence per sample.
pub struct DepthData {
    pub width: usize,
    pub height: usize,
    pub depth: Vec<F32>,
    pub conf: Vec<u8>,
}

/// Why a depth map was not decoded.
#[derive(Clone, Copy, Debug, PartialEq, Eq, Structural)]
pub enum DepthError {
    /// This many bytes are no whole number of samples, or none at all.
    Size(usize),
    /// This many samples make no rectangle near the aspect ratio of the image.
    NoDims(usize),
    /// A confidence file of so many bytes for so many samples.
    Confidence { bytes: usize, samples: usize },
}

pub open spec fn max2(a: int, b: int) -> int {
    if a >= b {
        a
    } else {
        b
    }
}

pub open spec fn min2(a: int, b: int) -> int {
    if a <= b {
        a
    } else {
        b
    }
}

pub open spec fn divides(h: int, n: int) -> bool {
    h >= 1 && n % h == 0
}

/// How far the rectangle of height `h` is from the aspect ratio of the image: `n / h` times
/// the image height against `h` times the image width. Their product does not depend on
/// `h`, so the larger of the two orders the heights by the ratio between them.
pub open spec fn mismatch(n: int, size: (u32, u32), h: int) -> int {
    max2((n / h) * size.1, h * size.0)
}

/// The aspect ratio of the rectangle of height `h` is within the allowed ratio of the
/// image's.
pub open spec fn is_close(n: int, size: (u32, u32), h: int) -> bool {
    max2((n / h) * size.1, h * size.0) * RATIO_DEN < min2((n / h) * size.1, h * size.0) * RATIO_NUM
}

/// `h` is the height of the best rectangle of `n` samples.
pub open spec fn is_best_height(n: int, size: (u32, u32), h: int) -> bool {
    &&& divides(h, n)
    &&& is_close(n, size, h)
    &&& forall|k: int| #[trigger] divides(k, n) ==> mismatch(n, size, h) <= mismatch(n, size, k)
    &&& forall|k: int| #[trigger]
        divides(k, n) && k < h ==> mismatch(n, size, h) < mismatch(n, size, k)
}

/// Where one rectangle is at least as near as a close one, it is close too.
proof fn nearer_is_close(n: int, size: (u32, u32), h: int, k: int)
    requires
        n >= 0,
        divides(h, n),
        divides(k, n),
        is_close(n, size, k),
        mismatch(n, size, h) <= mismatch(n, size, k),
    ensures
        is_close(n, size, h),
{
    let (a, b) = ((n / h) * size.1, h * size.0);
    let (c, d) = ((n / k) * size.1, k * size.0);
    let (iw, ih) = (size.0 as int, size.1 as int);
    let (w, v) = (n / h, n / k);
    assert(w * h == n) by (nonlinear_arith)
        requires
            h >= 1,
            n % h == 0,
            w == n / h,
    ;
    assert(v * k == n) by (nonlinear_arith)
        requires
            k >= 1,
            n % k == 0,
            v == n / k,
    ;
    assert(a * b == n * (iw * ih)) by (nonlinear_arith)
        requires
            a == w * ih,
            b == h * iw,
            w * h == n,
    ;
    assert(c * d == n * (iw * ih)) by (nonlinear_arith)
        requires
            c == v * ih,
            d == k * iw,
            v * k == n,
    ;
    let (big, small) = (max2(a, b), min2(a, b));
    let (far, near) = (max2(c, d), min2(c, d));
    assert(a * b == b * a && c * d == d * c) by (nonlinear_arith);
    assert(big * small == far * near);
    assert(iw >= 0 && ih >= 0);
    assert(d >= 0) by (nonlinear_arith)
        requires
            d == k * iw,
            k >= 1,
            iw >= 0,
    ;
    assert(near > 0) by (nonlinear_arith)
        requires
            far * RATIO_DEN < near * RATIO_NUM,
            far >= near,
            far >= 0,
            RATIO_DEN == 85459649,
            RATIO_NUM == 104380651,
    ;
    assert(a >= 0) by (nonlinear_arith)
        requires
            a == w * ih,
            w == n / h,
            n >= 0,
            h >= 1,
            ih >= 0,
    ;
    assert(b >= 0) by (nonlinear_arith)
        requires
            b == h * iw,
            h >= 1,
            iw >= 0,
    ;
    if small < near {
        assert(big * small <= far * small) by (nonlinear_arith)
            requires
                big <= far,
                small >= 0,
        ;
        assert(far * small < far * near) by (nonlinear_arith)
            requires
                far >= near > small,
                near > 0,
        ;
    }
    assert(big * RATIO_DEN < small * RATIO_NUM) by (nonlinear_arith)
        requires
            big <= far,
            small >= near,
            far * RATIO_DEN < near * RATIO_NUM,
            RATIO_DEN == 85459649,
            RATIO_NUM == 104380651,
    ;
}

/// The closest rectangle of all is the one found among the close ones.
proof fn best_of_close(n: int, size: (u32, u32), h: int)
    requires
        n >= 0,
        divides(h, n),
        is_close(n, size, h),
        forall|k: int| #[trigger]
            divides(k, n) && is_close(n, size, k) ==> mismatch(n, size, h) <= mismatch(n, size, k),
        forall|k: int| #[trigger]
            divides(k, n) && is_close(n, size, k) && k < h ==> mismatch(n, size, h) < mismatch(
                n,
                size,
                k,
            ),
    ensures
        is_best_height(n, size, h),
{
    assert forall|k: int| #[trigger] divides(k, n) implies mismatch(n, size, h) <= mismatch(
        n,
        size,
        k,
    ) by {
        if mismatch(n, size, k) < mismatch(n, size, h) {
            nearer_is_close(n, size, k, h);
        }
    }
    assert forall|k: int| #[trigger] divides(k, n) && k < h implies mismatch(n, size, h)
        < mismatch(n, size, k) by {
        if mismatch(n, size, k) <= mismatch(n, size, h) {
            nearer_is_close(n, size, k, h);
        }
    }
}

/// Once the height is too large for the width, larger heights are too.
proof fn too_tall(n: int, size: (u32, u32), h: int, k: int)
    requires
        n >= 0,
        1 <= h <= k,
        (h * size.0) * h * RATIO_DEN >= n * size.1 * RATIO_NUM,
        divides(k, n),
    ensures
        !is_close(n, size, k),
{
    let (iw, ih) = (size.0 as int, size.1 as int);
    let v = n / k;
    assert(v * k == n) by (nonlinear_arith)
        requires
            k >= 1,
            n % k == 0,
            v == n / k,
    ;
    let (c, d) = (v * ih, k * iw);
    assert(c * k == n * ih) by (nonlinear_arith)
        requires
            c == v * ih,
            v * k == n,
    ;
    assert(d * k >= (h * iw) * h) by (nonlinear_arith)
        requires
            d == k * iw,
            1 <= h <= k,
            iw >= 0,
    ;
    assert((d * RATIO_DEN) * k >= (c * RATIO_NUM) * k) by (nonlinear_arith)
        requires
            d * k >= (h * iw) * h,
            (h * iw) * h * RATIO_DEN >= n * ih * RATIO_NUM,
            c * k == n * ih,
            RATIO_DEN == 85459649,
            RATIO_NUM == 104380651,
    ;
    assert(d * RATIO_DEN >= c * RATIO_NUM) by (nonlinear_arith)
        requires
            (d * RATIO_DEN) * k >= (c * RATIO_NUM) * k,
            k >= 1,
    ;
}

/// Factor `n` into width and height with the aspect ratio nearest the image's. `None` when
/// no factorization is near it: a prime number of samples would otherwise come out as a
/// strip one pixel wide.
pub fn infer_dims(n: usize, image_size: (u32, u32)) -> (r: Option<(usize, usize)>)
    ensures
        match r {
            Some((w, h)) => w * h == n && is_best_height(n as int, image_size, h as int),
            None => forall|h: int| #[trigger]
                divides(h, n as int) ==> !is_close(n as int, image_size, h),
        },
{
    let iw: u128 = image_size.0 as u128;
    let ih: u128 = image_size.1 as u128;
    let ghost nn = n as int;
    let mut best: Option<(usize, usize)> = None;
    let mut best_far: u128 = 0;
    let mut h: usize = 1;
    let mut going: bool = n >= 1;
    proof {
        if n == 0 {
            assert forall|k: int| #[trigger] divides(k, nn) implies !is_close(nn, image_size, k) by {
                assert(nn / k == 0) by (nonlinear_arith)
                    requires
                        k >= 1,
                        nn == 0,
                ;
                assert(k * image_size.0 >= 0) by (nonlinear_arith)
                    requires
                        k >= 1,
                ;
            }
        }
    }
    while going
        invariant
            nn == n,
            iw == image_size.0,
            ih == image_size.1,
            going ==> 1 <= h <= n,
            going ==> forall|k: int| #[trigger]
                divides(k, nn) && k < h && is_close(nn, image_size, k) ==> best is Some
                    && best_far <= mismatch(nn, image_size, k),
            !going ==> forall|k: int| #[trigger]
                divides(k, nn) && is_close(nn, image_size, k) ==> best is Some && best_far
                    <= mismatch(nn, image_size, k),
            match best {
                Some((bw, bh)) => {
                    &&& bw * bh == n
                    &&& divides(bh as int, nn)
                    &&& (going ==> bh < h)
                    &&& is_close(nn, image_size, bh as int)
                    &&& best_far == mismatch(nn, image_size, bh as int)
                    &&& forall|k: int| #[trigger]
                        divides(k, nn) && k < bh && is_close(nn, image_size, k) ==> best_far
                            < mismatch(nn, image_size, k)
                },
                None => true,
            },
        decreases (if going { n + 1 - h } else { 0 }),
    {
        assert(h * iw <= u64::MAX * u32::MAX) by (nonlinear_arith)
            requires
                0 <= h <= u64::MAX,
                0 <= iw <= u32::MAX,
        ;
        let tall: u128 = h as u128 * iw;
        if n % h == 0 {
            let w: usize = n / h;
            assert(w * h == n) by (nonlinear_arith)
                requires
                    h >= 1,
                    n % h == 0,
                    w == n / h,
            ;
            assert(w * ih <= u64::MAX * u32::MAX) by (nonlinear_arith)
                requires
                    0 <= w <= u64::MAX,
                    0 <= ih <= u32::MAX,
            ;
            let wide: u128 = w as u128 * ih;
            let far: u128 = if wide >= tall {
                wide
            } else {
                tall
            };
            let near: u128 = if wide <= tall {
                wide
            } else {
                tall
            };
            assert(divides(h as int, nn));
            if far * RATIO_DEN < near * RATIO_NUM {
                assert(is_close(nn, image_size, h as int));
                if best.is_none() || far < best_far {
                    best = Some((w, h));
                    best_far = far;
                }
            }
        }
        proof {
            assert forall|k: int| #[trigger]
                divides(k, nn) && k < h + 1 && is_close(nn, image_size, k) implies best is Some
                && best_far <= mismatch(nn, image_size, k) by {
                if k == h {
                    assert(divides(h as int, nn));
                }
            }
        }
        let above: u128 = (n / h) as u128 + 1;
        assert(above * ih <= (u64::MAX + 1) * u32::MAX) by (nonlinear_arith)
            requires
                0 <= above <= u64::MAX + 1,
                0 <= ih <= u32::MAX,
        ;
        if tall * RATIO_DEN >= above * ih * RATIO_NUM {
            proof {
                let hh = h as int;
                assert(above * hh >= nn) by (nonlinear_arith)
                    requires
                        above == nn / hh + 1,
                        hh >= 1,
                        nn >= 0,
                ;
                assert((hh * iw) * hh * RATIO_DEN >= nn * ih * RATIO_NUM) by (nonlinear_arith)
                    requires
                        tall == hh * iw,
                        tall * RATIO_DEN >= above * ih * RATIO_NUM,
                        above * hh >= nn,
                        hh >= 1,
                        ih >= 0,
                        RATIO_DEN == 85459649,
                        RATIO_NUM == 104380651,
                ;
                assert forall|k: int| #[trigger]
                    divides(k, nn) && k >= h implies !is_close(nn, image_size, k) by {
                    too_tall(nn, image_size, hh, k);
                }
            }
            going = false;
        } else if h == n {
            proof {
                assert forall|k: int| #[trigger] divides(k, nn) implies k < h + 1 by {
                    assert(k <= nn) by (nonlinear_arith)
                        requires
                            k >= 1,
                            nn % k == 0,
                            nn >= 1,
                    ;
                }
            }
            going = false;
        } else {
            h += 1;
        }
    }
    proof {
        if let Some((bw, bh)) = best {
            best_of_close(nn, image_size, bh as int);
        }
    }
    best
}

/// Samples without a return become infinite: anything that is not finite and positive.
pub open spec fn sanitized(word: u32) -> F32 {
    let d = F32 { bits: word };
    if d.finite() && d.positive() {
        d
    } else {
        F32 { bits: float::INF_BITS }
    }
}

/// The depths of raw samples.
pub fn sanitize(words: &Vec<u32>) -> (depth: Vec<F32>)
    ensures
        depth@ == Seq::new(words@.len(), |i: int| sanitized(words@[i])),
{
    let mut depth: Vec<F32> = Vec::new();
    for i in 0..words.len()
        invariant
            depth@ =~= Seq::new(i as nat, |k: int| sanitized(words@[k])),
    {
        let d = F32::from_bits(words[i]);
        if d.is_finite() && d.is_positive() {
            depth.push(d);
        } else {
            depth.push(F32::from_bits(float::INF_BITS));
        }
    }
    depth
}

/// A confidence that was stored as an `f32`: clamped to `[0, 2]` and rounded down. A NaN
/// gives `0`.
pub open spec fn confidence(word: u32) -> u8 {
    let c = F32 { bits: word };
    if c.nan() || c.rank() < ONE_BITS {
        0
    } else if c.rank() < TWO_BITS {
        1
    } else {
        2
    }
}

/// The confidences of raw samples.
pub fn truncate_confidences(words: &Vec<u32>) -> (conf: Vec<u8>)
    ensures
        conf@ == Seq::new(words@.len(), |i: int| confidence(words@[i])),
{
    let mut conf: Vec<u8> = Vec::new();
    for i in 0..words.len()
        invariant
            conf@ =~= Seq::new(i as nat, |k: int| confidence(words@[k])),
    {
        let c = F32::from_bits(words[i]);
        if c.is_nan() || c.to_rank() < ONE_BITS as i64 {
            conf.push(0);
        } else if c.to_rank() < TWO_BITS as i64 {
            conf.push(1);
        } else {
            conf.push(2);
        }
    }
    conf
}

/// The depths that the raw file `b` holds, read in one of the two byte orders.
pub open spec fn depths_in(b: Seq<u8>, low_first: bool) -> Seq<F32> {
    let words = bytes::words_in(b, low_first);
    Seq::new(words.len(), |i: int| sanitized(words[i]))
}

/// The confidences that the raw file `b` with one word per sample holds, read in one of the
/// two byte orders.
pub open spec fn confidences_in(b: Seq<u8>, low_first: bool) -> Seq<u8> {
    let words = bytes::words_in(b, low_first);
    Seq::new(words.len(), |i: int| confidence(words[i]))
}

/// Decode the samples of a depth file and of a confidence file with one word per sample,
/// both in the byte order of the machine.
pub fn decode_samples(depth: &[u8], conf: &[u8]) -> (r: (Vec<F32>, Vec<u8>))
    requires
        depth@.len() % 4 == 0,
        conf@.len() % 4 == 0,
    ensures
        exists|low_first: bool|
            r.0@ == #[trigger] depths_in(depth@, low_first) && r.1@ == confidences_in(
                conf@,
                low_first,
            ),
{
    let mut joined: Vec<u8> = Vec::new();
    for i in 0..depth.len()
        invariant
            joined@ =~= depth@.take(i as int),
    {
        joined.push(depth[i]);
    }
    for i in 0..conf.len()
        invariant
            joined@ =~= depth@ + conf@.take(i as int),
    {
        joined.push(conf[i]);
    }
    assert(joined@ =~= depth@ + conf@);
    let words = bytes::native_words(joined.as_slice());
    let ghost low_first = choose|low_first: bool|
        words@ == #[trigger] bytes::words_in(joined@, low_first);
    let n: usize = depth.len() / 4;
    let mut first: Vec<u32> = Vec::new();
    for i in 0..n
        invariant
            n == depth@.len() / 4,
            n <= words@.len(),
            first@ =~= words@.take(i as int),
    {
        first.push(words[i]);
    }
    let mut second: Vec<u32> = Vec::new();
    for i in n..words.len()
        invariant
            n <= words@.len(),
            second@ =~= words@.subrange(n as int, i as int),
    {
        second.push(words[i]);
    }
    proof {
        assert(first@ =~= bytes::words_in(depth@, low_first));
        let whole = bytes::words_in(joined@, low_first);
        let part = bytes::words_in(conf@, low_first);
        assert forall|k: int| 0 <= k < part.len() implies second@[k] == #[trigger] part[k] by {
            assert(second@[k] == whole[n + k]);
            assert(4 * (n + k) == depth@.len() + 4 * k);
        }
        assert(second@ =~= part);
    }
    let r = (sanitize(&first), truncate_confidences(&second));
    assert(r.0@ == depths_in(depth@, low_first));
    r
}

/// The confidences of `n` samples that can be taken as they are: one byte per sample, or full
/// confidence where there is no file. Nothing for a file with one word per sample.
pub fn byte_confidences(n: usize, file: Option<&[u8]>) -> (r: Result<Option<Vec<u8>>, DepthError>)
    ensures
        match r {
            Ok(Some(conf)) => match file {
                None => conf@ == Seq::new(n as nat, |i: int| FULL_CONFIDENCE),
                Some(b) => b@.len() == n && conf@ == b@,
            },
            Ok(None) => file matches Some(b) && b@.len() != n && b@.len() == 4 * n,
            Err(DepthError::Confidence { bytes, samples }) => file matches Some(b) && b@.len() != n
                && b@.len() != 4 * n && bytes == b@.len() && samples == n,
            Err(_) => false,
        },
{
    match file {
        None => {
            let mut conf: Vec<u8> = Vec::new();
            for i in 0..n
                invariant
                    conf@ =~= Seq::new(i as nat, |k: int| FULL_CONFIDENCE),
            {
                conf.push(FULL_CONFIDENCE);
            }
            Ok(Some(conf))
        },
        Some(b) => {
            if b.len() == n {
                let mut conf: Vec<u8> = Vec::new();
                for i in 0..n
                    invariant
                        b@.len() == n,
                        conf@ =~= b@.take(i as int),
                {
                    conf.push(b[i]);
                }
                assert(conf@ =~= b@);
                Ok(Some(conf))
            } else if b.len() % 4 == 0 && b.len() / 4 == n {
                Ok(None)
            } else {
                Err(DepthError::Confidence { bytes: b.len(), samples: n })
            }
        },
    }
}

/// `d` has the samples that the depth file `b` and the confidence file hold. Where both hold
/// words, they are read in the same byte order.
pub open spec fn has_samples(
    d: &DepthData,
    b: Seq<u8>,
    conf_file: Option<&[u8]>,
    low_first: bool,
) -> bool {
    let n = b.len() / 4;
    &&& d.depth@ == depths_in(b, low_first)
    &&& match conf_file {
        None => d.conf@ == Seq::new(n, |i: int| FULL_CONFIDENCE),
        Some(c) => {
            ||| c@.len() == n && d.conf@ == c@
            ||| c@.len() == b.len() && d.conf@ == confidences_in(c@, low_first)
        },
    }
}

/// `d` has the samples of the two files, read in one of the two byte orders.
pub open spec fn is_read_from(d: &DepthData, b: Seq<u8>, conf_file: Option<&[u8]>) -> bool {
    exists|low_first: bool| #[trigger] has_samples(d, b, conf_file, low_first)
}

/// Decode a depth map and its confidence file, if there is one.
pub fn load_raw(b: &[u8], image_size: (u32, u32), conf_file: Option<&[u8]>) -> (r: Result<
    DepthData,
    DepthError,
>)
    ensures
        match r {
            Ok(d) => {
                &&& d.width * d.height == b@.len() / 4
                &&& is_best_height((b@.len() / 4) as int, image_size, d.height as int)
                &&& d.depth@.len() == b@.len() / 4
                &&& d.conf@.len() == b@.len() / 4
                &&& is_read_from(&d, b@, conf_file)
            },
            Err(DepthError::Size(n)) => n == b@.len(),
            Err(DepthError::NoDims(n)) => n == b@.len() / 4,
            Err(DepthError::Confidence { bytes, samples }) => conf_file matches Some(c)
                && c@.len() == bytes && samples == b@.len() / 4 && bytes != samples && bytes
                != b@.len(),
        },
        (r matches Err(DepthError::Size(_))) <==> (b@.len() == 0 || b@.len() % 4 != 0),
        (r matches Err(DepthError::NoDims(_))) <==> b@.len() > 0 && b@.len() % 4 == 0 && (forall|
            h: int,
        | #[trigger]
            divides(h, (b@.len() / 4) as int) ==> !is_close(
                (b@.len() / 4) as int,
                image_size,
                h,
            )),
{
    if b.len() == 0 || b.len() % 4 != 0 {
        return Err(DepthError::Size(b.len()));
    }
    let n: usize = b.len() / 4;
    let (width, height) = match infer_dims(n, image_size) {
        Some(dims) => dims,
        None => {
            return Err(DepthError::NoDims(n));
        },
    };
    let plain = match byte_confidences(n, conf_file) {
        Ok(plain) => plain,
        Err(e) => {
            return Err(e);
        },
    };
    let none: Vec<u8> = Vec::new();
    let words: &[u8] = match (&plain, conf_file) {
        (None, Some(c)) => c,
        _ => none.as_slice(),
    };
    let (depth, from_words) = decode_samples(b, words);
    let ghost low_first = choose|low_first: bool|
        depth@ == #[trigger] depths_in(b@, low_first) && from_words@ == confidences_in(
            words@,
            low_first,
        );
    let conf: Vec<u8> = match plain {
        Some(conf) => conf,
        None => from_words,
    };
    let d = DepthData { width, height, depth, conf };
    assert(has_samples(&d, b@, conf_file, low_first));
    assert(is_read_from(&d, b@, conf_file));
    Ok(d)
}

/// Every depth of a decoded map is positive; where the sensor had no return it is infinite.
pub proof fn depths_are_positive(b: Seq<u8>, low_first: bool, i: int)
    requires
        0 <= i < depths_in(b, low_first).len(),
    ensures
        !depths_in(b, low_first)[i].nan(),
        depths_in(b, low_first)[i].rank() > 0,
{
}

/// The product of the two sides of a comparison of aspect ratios is the same for each rectangle of
/// `n` samples.
proof fn products_agree(n: int, size: (u32, u32), h: int)
    requires
        divides(h, n),
    ensures
        (n / h) * h == n,
        ((n / h) * size.1) * (h * size.0) == n * (size.1 * size.0),
{
    let w = n / h;
    vstd::arithmetic::div_mod::lemma_fundamental_div_mod(n, h);
    let (p, q) = (size.0 as int, size.1 as int);
    assert(w * h == n) by (nonlinear_arith)
        requires
            n == h * (n / h) + n % h,
            n % h == 0,
            w == n / h,
    ;
    assert((w * q) * (h * p) == (w * h) * (q * p)) by (nonlinear_arith);
}

/// No rectangle of as many samples has an aspect ratio nearer to the image's: of two ratios the
/// nearer one is that whose larger side is the smaller multiple of the other side.
pub proof fn the_best_rectangle_is_nearest(n: int, size: (u32, u32), h: int, k: int)
    requires
        n > 0,
        size.0 > 0,
        size.1 > 0,
        is_best_height(n, size, h),
        k >= 1,
        n % k == 0,
    ensures
        h >= 1,
        (n / h) * h == n,
        ({
            let (a, b) = ((n / h) * size.1, h * size.0);
            let (c, d) = ((n / k) * size.1, k * size.0);
            let far = if c >= d {
                (c, d)
            } else {
                (d, c)
            };
            a * far.1 <= far.0 * b && b * far.1 <= far.0 * a
        }),
{
    assert(divides(k, n));
    products_agree(n, size, h);
    products_agree(n, size, k);
    let (a, b) = ((n / h) * size.1, h * size.0);
    let (c, d) = ((n / k) * size.1, k * size.0);
    assert(mismatch(n, size, h) <= mismatch(n, size, k));
    let m = mismatch(n, size, k);
    let e = min2(c, d);
    assert(a <= m && b <= m);
    assert(m * e == a * b) by (nonlinear_arith)
        requires
            a * b == c * d,
            m == max2(c, d),
            e == min2(c, d),
    ;
    assert(n * (size.1 * size.0) > 0) by (nonlinear_arith)
        requires
            n > 0,
            size.0 > 0,
            size.1 > 0,
    ;
    assert(a > 0 && b > 0 && c > 0 && d > 0) by (nonlinear_arith)
        requires
            a * b > 0,
            c * d > 0,
            b == h * size.0,
            d == k * size.0,
            h >= 1,
            k >= 1,
            size.0 > 0,
    ;
    assert(a * e <= m * b && b * e <= m * a) by (nonlinear_arith)
        requires
            0 < a <= m,
            0 < b <= m,
            m * e == a * b,
            e > 0,
    ;
}

/// A sample is kept as it is if it is a number above zero, and is without bound otherwise.
pub proof fn samples_without_a_return_are_infinite(word: u32)
    ensures
        0 < word < 0x7f80_0000 ==> sanitized(word).bits == word,
        word == 0 || word >= 0x7f80_0000 ==> sanitized(word).bits == 0x7f80_0000,
{
}

/// Confidences from two on are full, those from one on are half, and all others none.
pub proof fn confidences_are_whole(word: u32)
    ensures
        confidence(word) == (if 0x4000_0000 <= word <= 0x7f80_0000 {
            2int
        } else if 0x3f80_0000 <= word < 0x4000_0000 {
            1
        } else {
            0
        }),
{
}

} // verus!
