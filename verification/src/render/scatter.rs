//! Gradients of the visible splats, spread out over all splats.

use crate::float::F32;
use vstd::prelude::*;

verus! {

/// Gradients that a rasterized splat has: position, conic, colour, opacity and refinement.
pub const COLOUR_LANES: usize = 10;

/// Those, and the gradients of the inverse covariance and its product with the mean.
pub const GEOMETRY_LANES: usize = 19;

/// Parameters of the transform of a splat: mean, rotation and scale.
pub const TRANSFORM_LANES: usize = 10;

/// The largest weight that a splat can have when splats are refined, as bits: `1e32`.
pub const MAX_REFINE_BITS: u32 = 0x749d_c5ae;

/// The weight that a summed gradient gives a splat when splats are refined: a sum that is no
/// number counts as nothing, and the others are kept between zero and a large number.
pub open spec fn clean_weight(sum: F32) -> F32 {
    let largest = F32 { bits: MAX_REFINE_BITS };
    if !sum.finite() || sum.negative() {
        F32 { bits: 0 }
    } else if largest.spec_lt(sum) {
        largest
    } else {
        sum
    }
}

pub fn refine_weight(sum: F32) -> (r: F32)
    ensures
        r == clean_weight(sum),
{
    let largest = F32::from_bits(MAX_REFINE_BITS);
    if !sum.is_finite() || sum.is_negative() {
        F32::from_bits(0)
    } else if largest.lt(sum) {
        largest
    } else {
        sum
    }
}

/// Whatever the sum, the weight is a number that is not negative.
pub proof fn weights_are_numbers(sum: F32)
    ensures
        clean_weight(sum).finite(),
        !clean_weight(sum).negative(),
        clean_weight(sum).spec_le(F32 { bits: MAX_REFINE_BITS }),
{
}

/// The gradients of one visible splat in the list of all.
pub open spec fn row(grads: Seq<F32>, lanes: int, v: int) -> Seq<F32> {
    grads.subrange(lanes * v, lanes * v + lanes)
}

/// Some of `values` is not zero.
pub open spec fn any_nonzero(values: Seq<F32>) -> bool {
    exists|k: int| 0 <= k < values.len() && !(#[trigger] values[k]).zero_value()
}

/// Splat `g` is the visible splat `v`, and has a gradient.
pub open spec fn contributes(
    grads: Seq<F32>,
    lanes: int,
    global: Seq<u32>,
    v: int,
    g: int,
) -> bool {
    0 <= v < global.len() && global[v] == g && any_nonzero(row(grads, lanes, v))
}

/// Splat `g` has the gradient `value`: that of the visible splat that it is, or zero if it is
/// not visible or no pixel had a gradient for it.
pub open spec fn is_gradient<T: Copy, B: Fn(usize, u32) -> T>(
    backward: B,
    grads: Seq<F32>,
    lanes: int,
    global: Seq<u32>,
    zero: T,
    g: int,
    value: T,
) -> bool {
    ||| exists|v: int| #[trigger]
        contributes(grads, lanes, global, v, g) && backward.ensures((v as usize, g as u32), value)
    ||| (forall|v: int| !#[trigger] contributes(grads, lanes, global, v, g)) && value == zero
}

fn has_gradient(grads: &Vec<F32>, lanes: usize, v: usize) -> (r: bool)
    requires
        lanes * v + lanes <= grads@.len(),
    ensures
        r == any_nonzero(row(grads@, lanes as int, v as int)),
{
    assert(0 <= lanes * v) by (nonlinear_arith);
    assert(lanes * v + lanes <= grads.len());
    let from: usize = lanes * v;
    let ghost values = row(grads@, lanes as int, v as int);
    for k in 0..lanes
        invariant
            from == lanes * v,
            from + lanes <= grads.len(),
            values == row(grads@, lanes as int, v as int),
            forall|i: int| 0 <= i < k ==> (#[trigger] values[i]).zero_value(),
    {
        assert(values[k as int] == grads@[from + k]);
        if !grads[from + k].is_zero() {
            return true;
        }
    }
    false
}

/// The gradients of the parameters of all `n` splats. `grads` has `lanes` gradients for each
/// visible splat; `global` gives the splat that each visible one is. `backward(v, g)` takes
/// the gradients of the visible splat `v` back to the parameters of splat `g`; it is asked
/// only where some gradient is not zero, and all other splats have the gradient `zero`.
pub fn scatter_gradients<T: Copy, B: Fn(usize, u32) -> T>(
    grads: &Vec<F32>,
    lanes: usize,
    global: &Vec<u32>,
    n: usize,
    zero: T,
    backward: B,
) -> (r: Vec<T>)
    requires
        grads@.len() == lanes * global@.len(),
        global@.no_duplicates(),
        forall|v: int| 0 <= v < global@.len() ==> #[trigger] global@[v] < n,
        forall|v: usize, g: u32| #[trigger] backward.requires((v, g)),
    ensures
        r@.len() == n,
        forall|g: int|
            0 <= g < n ==> is_gradient(
                backward,
                grads@,
                lanes as int,
                global@,
                zero,
                g,
                #[trigger] r@[g],
            ),
{
    let mut r: Vec<T> = Vec::new();
    for g in 0..n
        invariant
            r@.len() == g,
            forall|i: int| 0 <= i < g ==> #[trigger] r@[i] == zero,
    {
        r.push(zero);
    }
    let m: usize = global.len();
    for v in 0..m
        invariant
            m == global@.len(),
            grads@.len() == lanes * m,
            grads.len() == lanes * m,
            global@.no_duplicates(),
            r@.len() == n,
            forall|v: int| 0 <= v < global@.len() ==> #[trigger] global@[v] < n,
            forall|v: usize, g: u32| #[trigger] backward.requires((v, g)),
            forall|g: int|
                0 <= g < n ==> is_gradient_so_far(
                    backward,
                    grads@,
                    lanes as int,
                    global@,
                    zero,
                    v as int,
                    g,
                    #[trigger] r@[g],
                ),
    {
        let g: u32 = global[v];
        let ghost before = r@;
        assert(lanes * v + lanes <= lanes * m) by (nonlinear_arith)
            requires
                v < m,
                lanes >= 0,
        ;
        if has_gradient(grads, lanes, v) {
            let value = backward(v, g);
            r.set(g as usize, value);
            assert(contributes(grads@, lanes as int, global@, v as int, g as int));
        }
        proof {
            assert forall|i: int| 0 <= i < n implies is_gradient_so_far(
                backward,
                grads@,
                lanes as int,
                global@,
                zero,
                v + 1,
                i,
                #[trigger] r@[i],
            ) by {
                assert(is_gradient_so_far(
                    backward,
                    grads@,
                    lanes as int,
                    global@,
                    zero,
                    v as int,
                    i,
                    before[i],
                ));
                if i != g || !any_nonzero(row(grads@, lanes as int, v as int)) {
                    assert(r@[i] == before[i]);
                    assert(!contributes(grads@, lanes as int, global@, v as int, i));
                }
            }
        }
    }
    proof {
        assert forall|g: int| 0 <= g < n implies is_gradient(
            backward,
            grads@,
            lanes as int,
            global@,
            zero,
            g,
            #[trigger] r@[g],
        ) by {
            assert(is_gradient_so_far(
                backward,
                grads@,
                lanes as int,
                global@,
                zero,
                m as int,
                g,
                r@[g],
            ));
        }
    }
    r
}

/// As [`is_gradient`], when the visible splats before `end` have been looked at.
spec fn is_gradient_so_far<T: Copy, B: Fn(usize, u32) -> T>(
    backward: B,
    grads: Seq<F32>,
    lanes: int,
    global: Seq<u32>,
    zero: T,
    end: int,
    g: int,
    value: T,
) -> bool {
    ||| exists|v: int|
        v < end && #[trigger] contributes(grads, lanes, global, v, g) && backward.ensures(
            (v as usize, g as u32),
            value,
        )
    ||| (forall|v: int| v < end ==> !#[trigger] contributes(grads, lanes, global, v, g)) && value
        == zero
}

/// A splat is at most one of the visible splats, so its gradient is told by one of them.
pub proof fn one_visible_splat_each(
    grads: Seq<F32>,
    lanes: int,
    global: Seq<u32>,
    v: int,
    w: int,
    g: int,
)
    requires
        global.no_duplicates(),
        contributes(grads, lanes, global, v, g),
        contributes(grads, lanes, global, w, g),
    ensures
        v == w,
{
}

/// A sum from zero up to the bound is its own weight, a larger one counts as the bound, and one
/// that is below zero or no number counts as nothing.
pub proof fn weights_are_the_sums(sum: F32)
    ensures
        sum.bits <= MAX_REFINE_BITS ==> clean_weight(sum) == sum,
        MAX_REFINE_BITS < sum.bits < 0x7f80_0000 ==> clean_weight(sum).bits == MAX_REFINE_BITS,
        sum.bits >= 0x7f80_0000 && sum.bits != 0x8000_0000 ==> clean_weight(sum).bits == 0,
{
}

/// A visible splat has the gradient that its own lanes give, as soon as one of them is not zero,
/// and none if all of them are zero.
pub proof fn one_lane_is_enough<T: Copy, B: Fn(usize, u32) -> T>(
    backward: B,
    grads: Seq<F32>,
    lanes: int,
    global: Seq<u32>,
    zero: T,
    value: T,
    v: int,
)
    requires
        global.no_duplicates(),
        grads.len() == lanes * global.len(),
        0 <= lanes,
        0 <= v < global.len(),
        global.len() <= usize::MAX,
        is_gradient(backward, grads, lanes, global, zero, global[v] as int, value),
    ensures
        (exists|k: int|
            0 <= k < lanes && (#[trigger] grads[lanes * v + k]).bits % 0x8000_0000 != 0)
            ==> backward.ensures((v as usize, global[v]), value),
        (forall|k: int|
            0 <= k < lanes ==> (#[trigger] grads[lanes * v + k]).bits % 0x8000_0000 == 0) ==> value
            == zero,
{
    let g = global[v] as int;
    let r = row(grads, lanes, v);
    assert(0 <= lanes * v && lanes * v + lanes <= grads.len()) by (nonlinear_arith)
        requires
            grads.len() == lanes * global.len(),
            0 <= lanes,
            0 <= v < global.len(),
    ;
    assert forall|w: int| #[trigger] contributes(grads, lanes, global, w, g) implies w == v by {}
    if exists|k: int| 0 <= k < lanes && (#[trigger] grads[lanes * v + k]).bits % 0x8000_0000 != 0 {
        let k = choose|k: int|
            0 <= k < lanes && (#[trigger] grads[lanes * v + k]).bits % 0x8000_0000 != 0;
        assert(r[k] == grads[lanes * v + k]);
        assert(any_nonzero(r));
        assert(contributes(grads, lanes, global, v, g));
    }
    if forall|k: int| 0 <= k < lanes ==> (#[trigger] grads[lanes * v + k]).bits % 0x8000_0000 == 0 {
        assert forall|k: int| 0 <= k < r.len() implies (#[trigger] r[k]).zero_value() by {
            assert(r[k] == grads[lanes * v + k]);
        }
        assert(!any_nonzero(r));
        assert(!contributes(grads, lanes, global, v, g));
    }
}

/// A splat that is not visible has no gradient.
pub proof fn hidden_splats_have_no_gradient<T: Copy, B: Fn(usize, u32) -> T>(
    backward: B,
    grads: Seq<F32>,
    lanes: int,
    global: Seq<u32>,
    zero: T,
    g: u32,
    value: T,
)
    requires
        !global.contains(g),
        is_gradient(backward, grads, lanes, global, zero, g as int, value),
    ensures
        value == zero,
{
    assert forall|v: int| !#[trigger] contributes(grads, lanes, global, v, g as int) by {
        if 0 <= v < global.len() && global[v] == g {
            assert(global.contains(g));
        }
    }
}

} // verus!
