//! The replay of the splats of a tile over its pixels, for gradients.
//!
//! Every pixel carries a state that the splats change front to back, and every splat carries
//! a gradient that the pixels add to in order. A batch of splats runs in lockstep, one unit
//! per splat, each one pixel behind the unit before it: in iteration `i` unit `t` is at pixel
//! `i - t`. So no two units are ever at the same pixel, and still each pixel meets the splats
//! in order.

use vstd::prelude::*;

verus! {

/// Splats that run in lockstep.
pub const SPLAT_BATCH: usize = 32;

/// The state of pixel `p` before splat `s`.
pub open spec fn state_before<P, G>(
    init: Seq<P>,
    cells: Map<(int, int), (P, G)>,
    s: int,
    p: int,
) -> P {
    if s == 0 {
        init[p]
    } else {
        cells[(s - 1, p)].0
    }
}

/// The gradient of splat `s` before pixel `p`.
pub open spec fn grad_before<P, G>(zero: G, cells: Map<(int, int), (P, G)>, s: int, p: int) -> G {
    if p == 0 {
        zero
    } else {
        cells[(s, p - 1)].1
    }
}

/// What splat `s` and pixel `p` come to is `cells[(s, p)]`.
pub open spec fn is_met<P, G, F: Fn(P, G, usize, usize) -> (P, G)>(
    step: F,
    init: Seq<P>,
    zero: G,
    cells: Map<(int, int), (P, G)>,
    s: int,
    p: int,
) -> bool {
    step.ensures(
        (
            state_before(init, cells, s, p),
            grad_before(zero, cells, s, p),
            s as usize,
            p as usize,
        ),
        cells[(s, p)],
    )
}

/// The first `n` splats have met every pixel: each pixel the splats in order, and each splat
/// the pixels in order.
pub open spec fn is_replay<P, G, F: Fn(P, G, usize, usize) -> (P, G)>(
    step: F,
    init: Seq<P>,
    zero: G,
    cells: Map<(int, int), (P, G)>,
    n: int,
) -> bool {
    forall|s: int, p: int|
        0 <= s < n && 0 <= p < init.len() ==> #[trigger] is_met(step, init, zero, cells, s, p)
}

/// The pixel of unit `t` in iteration `i`, if it is at one of `n` pixels.
pub open spec fn pixel_at(i: int, t: int, n: int) -> Option<int> {
    if t <= i && i - t < n {
        Some(i - t)
    } else {
        None
    }
}

/// Each unit meets each pixel in just one iteration of a batch of `k` splats.
pub proof fn every_pair_meets_once(k: int, n: int, t: int, p: int)
    requires
        0 <= t < k,
        0 <= p < n,
    ensures
        0 <= t + p < k + n - 1,
        pixel_at(t + p, t, n) == Some(p),
        forall|i: int| #[trigger] pixel_at(i, t, n) == Some(p) ==> i == t + p,
{
}

/// In one iteration no two units are at the same pixel.
pub proof fn units_are_apart(i: int, t: int, u: int, n: int)
    requires
        t != u,
        pixel_at(i, t, n) is Some,
    ensures
        pixel_at(i, t, n) != pixel_at(i, u, n),
{
}

/// If a step gives one answer, the replay does: no schedule can make a difference.
pub proof fn replay_is_unique<P, G, F: Fn(P, G, usize, usize) -> (P, G)>(
    step: F,
    init: Seq<P>,
    zero: G,
    a: Map<(int, int), (P, G)>,
    b: Map<(int, int), (P, G)>,
    n: int,
    s: int,
    p: int,
)
    requires
        is_replay(step, init, zero, a, n),
        is_replay(step, init, zero, b, n),
        forall|x: (P, G, usize, usize), y: (P, G), z: (P, G)|
            #[trigger] step.ensures(x, y) && #[trigger] step.ensures(x, z) ==> y == z,
        0 <= s < n,
        0 <= p < init.len(),
    ensures
        a[(s, p)] == b[(s, p)],
    decreases s + p,
{
    if s > 0 {
        replay_is_unique(step, init, zero, a, b, n, s - 1, p);
    }
    if p > 0 {
        replay_is_unique(step, init, zero, a, b, n, s, p - 1);
    }
    assert(is_met(step, init, zero, a, s, p));
    assert(is_met(step, init, zero, b, s, p));
}

/// Number of pixels that unit `u` has met when iteration `i` has been run up to unit `t`.
spec fn met(i: int, t: int, u: int, n: int) -> int {
    let ahead = i - u + (if u < t {
        1int
    } else {
        0
    });
    if ahead <= 0 {
        0
    } else if ahead <= n {
        ahead
    } else {
        n
    }
}

/// Number of units that pixel `p` has met when iteration `i` has been run up to unit `t`.
spec fn met_by(i: int, t: int, p: int, k: int) -> int {
    let units = if 0 <= i - p < t {
        i - p + 1
    } else {
        i - p
    };
    if units <= 0 {
        0
    } else if units <= k {
        units
    } else {
        k
    }
}

/// The state in the middle of a batch of `k` splats from `base` on.
spec fn in_batch<P, G, F: Fn(P, G, usize, usize) -> (P, G)>(
    step: F,
    init: Seq<P>,
    zero: G,
    cells: Map<(int, int), (P, G)>,
    base: int,
    k: int,
    i: int,
    t: int,
    states: Seq<P>,
    grads: Seq<G>,
) -> bool {
    let n = init.len() as int;
    &&& states.len() == n
    &&& grads.len() == base + k
    &&& is_replay(step, init, zero, cells, base)
    &&& forall|u: int, p: int|
        0 <= u < k && 0 <= p < met(i, t, u, n) ==> #[trigger] is_met(
            step,
            init,
            zero,
            cells,
            base + u,
            p,
        )
    &&& forall|p: int|
        0 <= p < n ==> #[trigger] states[p] == state_before(
            init,
            cells,
            base + met_by(i, t, p, k),
            p,
        )
    &&& forall|s: int|
        0 <= s < base ==> #[trigger] grads[s] == grad_before(zero, cells, s, n)
    &&& forall|s: int|
        base <= s < base + k ==> #[trigger] grads[s] == grad_before(
            zero,
            cells,
            s,
            met(i, t, s - base, n),
        )
}

proof fn met_once_more<P, G, F: Fn(P, G, usize, usize) -> (P, G)>(
    step: F,
    init: Seq<P>,
    zero: G,
    cells: Map<(int, int), (P, G)>,
    base: int,
    k: int,
    i: int,
    t: int,
    states: Seq<P>,
    grads: Seq<G>,
    out: (P, G),
)
    requires
        0 <= base,
        0 <= t < k,
        0 <= i - t < init.len(),
        in_batch(step, init, zero, cells, base, k, i, t, states, grads),
        step.ensures(
            (states[i - t], grads[base + t], (base + t) as usize, (i - t) as usize),
            out,
        ),
    ensures
        in_batch(
            step,
            init,
            zero,
            cells.insert((base + t, i - t), out),
            base,
            k,
            i,
            t + 1,
            states.update(i - t, out.0),
            grads.update(base + t, out.1),
        ),
{
    let n = init.len() as int;
    let q = i - t;
    let more = cells.insert((base + t, q), out);
    assert(met(i, t, t, n) == q);
    assert(met(i, t + 1, t, n) == q + 1);
    assert(met_by(i, t, q, k) == t);
    assert(met_by(i, t + 1, q, k) == t + 1);
    assert forall|s: int, p: int| 0 <= s < base && 0 <= p < n implies #[trigger] is_met(
        step,
        init,
        zero,
        more,
        s,
        p,
    ) by {
        assert(is_met(step, init, zero, cells, s, p));
    }
    assert forall|u: int, p: int|
        0 <= u < k && 0 <= p < met(i, t + 1, u, n) implies #[trigger] is_met(
        step,
        init,
        zero,
        more,
        base + u,
        p,
    ) by {
        if u == t && p == q {
            assert(state_before(init, more, base + t, q) == state_before(init, cells, base + t, q));
            assert(grad_before(zero, more, base + t, q) == grad_before(zero, cells, base + t, q));
        } else {
            assert(p < met(i, t, u, n));
            assert(is_met(step, init, zero, cells, base + u, p));
            assert(!(u - 1 == t && p == q));
            assert(!(u == t && p - 1 == q));
        }
    }
    assert forall|p: int| 0 <= p < n implies #[trigger] states.update(q, out.0)[p]
        == state_before(init, more, base + met_by(i, t + 1, p, k), p) by {
        if p != q {
            assert(met_by(i, t + 1, p, k) == met_by(i, t, p, k));
            assert(states[p] == state_before(init, cells, base + met_by(i, t, p, k), p));
        }
    }
    assert forall|s: int| base <= s < base + k implies #[trigger] grads.update(base + t, out.1)[s]
        == grad_before(zero, more, s, met(i, t + 1, s - base, n)) by {
        if s != base + t {
            assert(met(i, t + 1, s - base, n) == met(i, t, s - base, n));
            assert(grads[s] == grad_before(zero, cells, s, met(i, t, s - base, n)));
        }
    }
}

proof fn nothing_met<P, G, F: Fn(P, G, usize, usize) -> (P, G)>(
    step: F,
    init: Seq<P>,
    zero: G,
    cells: Map<(int, int), (P, G)>,
    base: int,
    k: int,
    i: int,
    t: int,
    j: int,
    u: int,
    states: Seq<P>,
    grads: Seq<G>,
)
    requires
        in_batch(step, init, zero, cells, base, k, i, t, states, grads),
        forall|v: int| 0 <= v < k ==> met(i, t, v, init.len() as int) == #[trigger] met(
            j,
            u,
            v,
            init.len() as int,
        ),
        forall|p: int|
            0 <= p < init.len() ==> met_by(i, t, p, k) == #[trigger] met_by(j, u, p, k),
    ensures
        in_batch(step, init, zero, cells, base, k, j, u, states, grads),
{
    let n = init.len() as int;
    assert forall|v: int, p: int| 0 <= v < k && 0 <= p < met(j, u, v, n) implies #[trigger] is_met(
        step,
        init,
        zero,
        cells,
        base + v,
        p,
    ) by {
        assert(p < met(i, t, v, n));
    }
    assert forall|p: int| 0 <= p < n implies #[trigger] states[p] == state_before(
        init,
        cells,
        base + met_by(j, u, p, k),
        p,
    ) by {
        assert(met_by(i, t, p, k) == met_by(j, u, p, k));
    }
    assert forall|s: int| base <= s < base + k implies #[trigger] grads[s] == grad_before(
        zero,
        cells,
        s,
        met(j, u, s - base, n),
    ) by {
        assert(met(i, t, s - base, n) == met(j, u, s - base, n));
    }
}

/// Replay `n_splats` splats over the pixels, whose states are `init` to begin with. `step`
/// takes the state of a pixel, the gradient of a splat, the splat and the pixel, and gives
/// the state and the gradient after they met. Returns the states and the gradients.
pub fn replay<P: Copy, G: Copy, F: Fn(P, G, usize, usize) -> (P, G)>(
    init: &Vec<P>,
    zero: G,
    n_splats: usize,
    step: F,
) -> (r: (Vec<P>, Vec<G>))
    requires
        n_splats + SPLAT_BATCH <= usize::MAX,
        init@.len() + SPLAT_BATCH <= usize::MAX,
        forall|a: P, g: G, s: usize, p: usize|
            s < n_splats && p < init@.len() ==> #[trigger] step.requires((a, g, s, p)),
    ensures
        r.0@.len() == init@.len(),
        r.1@.len() == n_splats,
        exists|cells: Map<(int, int), (P, G)>|
            {
                &&& #[trigger] is_replay(step, init@, zero, cells, n_splats as int)
                &&& forall|p: int|
                    0 <= p < init@.len() ==> #[trigger] r.0@[p] == state_before(
                        init@,
                        cells,
                        n_splats as int,
                        p,
                    )
                &&& forall|s: int|
                    0 <= s < n_splats ==> #[trigger] r.1@[s] == grad_before(
                        zero,
                        cells,
                        s,
                        init@.len() as int,
                    )
            },
{
    let n: usize = init.len();
    let mut states: Vec<P> = Vec::new();
    for p in 0..n
        invariant
            n == init@.len(),
            states@ =~= init@.take(p as int),
    {
        states.push(init[p]);
    }
    let mut grads: Vec<G> = Vec::new();
    let ghost mut cells: Map<(int, int), (P, G)> = Map::empty();
    let mut base: usize = 0;
    while base < n_splats
        invariant
            n == init@.len(),
            n + SPLAT_BATCH <= usize::MAX,
            n_splats + SPLAT_BATCH <= usize::MAX,
            base <= n_splats,
            states@.len() == n,
            grads@.len() == base,
            is_replay(step, init@, zero, cells, base as int),
            forall|p: int|
                0 <= p < n ==> #[trigger] states@[p] == state_before(init@, cells, base as int, p),
            forall|s: int|
                0 <= s < base ==> #[trigger] grads@[s] == grad_before(zero, cells, s, n as int),
            forall|a: P, g: G, s: usize, p: usize|
                s < n_splats && p < init@.len() ==> #[trigger] step.requires((a, g, s, p)),
        decreases n_splats - base,
    {
        let k: usize = if n_splats - base < SPLAT_BATCH {
            n_splats - base
        } else {
            SPLAT_BATCH
        };
        for t in 0..k
            invariant
                grads@.len() == base + t,
                forall|s: int|
                    0 <= s < base ==> #[trigger] grads@[s] == grad_before(zero, cells, s, n as int),
                forall|s: int| base <= s < base + t ==> #[trigger] grads@[s] == zero,
        {
            grads.push(zero);
        }
        assert(in_batch(step, init@, zero, cells, base as int, k as int, 0, 0, states@, grads@));
        let mut i: usize = 0;
        while i + 1 < k + n
            invariant
                n == init@.len(),
                n + SPLAT_BATCH <= usize::MAX,
                n_splats + SPLAT_BATCH <= usize::MAX,
                1 <= k <= SPLAT_BATCH,
                base + k <= n_splats,
                i < k + n,
                in_batch(step, init@, zero, cells, base as int, k as int, i as int, 0, states@, grads@),
                forall|a: P, g: G, s: usize, p: usize|
                    s < n_splats && p < init@.len() ==> #[trigger] step.requires((a, g, s, p)),
            decreases k + n - i,
        {
            for t in 0..k
                invariant
                    n == init@.len(),
                    n_splats + SPLAT_BATCH <= usize::MAX,
                    1 <= k <= SPLAT_BATCH,
                    base + k <= n_splats,
                    in_batch(
                        step,
                        init@,
                        zero,
                        cells,
                        base as int,
                        k as int,
                        i as int,
                        t as int,
                        states@,
                        grads@,
                    ),
                    forall|a: P, g: G, s: usize, p: usize|
                        s < n_splats && p < init@.len() ==> #[trigger] step.requires((a, g, s, p)),
            {
                if t <= i && i - t < n {
                    let p: usize = i - t;
                    let s: usize = base + t;
                    let out = step(states[p], grads[s], s, p);
                    proof {
                        met_once_more(
                            step,
                            init@,
                            zero,
                            cells,
                            base as int,
                            k as int,
                            i as int,
                            t as int,
                            states@,
                            grads@,
                            out,
                        );
                        cells = cells.insert((s as int, p as int), out);
                    }
                    states.set(p, out.0);
                    grads.set(s, out.1);
                } else {
                    proof {
                        nothing_met(
                            step,
                            init@,
                            zero,
                            cells,
                            base as int,
                            k as int,
                            i as int,
                            t as int,
                            i as int,
                            t + 1,
                            states@,
                            grads@,
                        );
                    }
                }
            }
            proof {
                nothing_met(
                    step,
                    init@,
                    zero,
                    cells,
                    base as int,
                    k as int,
                    i as int,
                    k as int,
                    i + 1,
                    0,
                    states@,
                    grads@,
                );
            }
            i = i + 1;
        }
        proof {
            assert forall|u: int| 0 <= u < k implies #[trigger] met(i as int, 0, u, n as int) == n by {}
            assert forall|s: int, p: int|
                0 <= s < base + k && 0 <= p < n implies #[trigger] is_met(
                step,
                init@,
                zero,
                cells,
                s,
                p,
            ) by {
                if s >= base {
                    assert(p < met(i as int, 0, s - base, n as int));
                    assert(is_met(step, init@, zero, cells, base + (s - base), p));
                }
            }
            assert forall|p: int| 0 <= p < n implies #[trigger] states@[p] == state_before(
                init@,
                cells,
                base + k,
                p,
            ) by {
                assert(met_by(i as int, 0, p, k as int) == k);
            }
        }
        base = base + k;
    }
    (states, grads)
}

/// Splat `s` finds pixel `p` in the state `a`, and they come to `r`.
pub open spec fn is_passed<P, G, F: Fn(P, G, usize, usize) -> (P, G)>(
    step: F,
    a: P,
    r: (P, G),
    s: int,
    p: int,
) -> bool {
    exists|g: G| #[trigger] step.ensures((a, g, s as usize, p as usize), r)
}

/// Splat `s` comes to pixel `p` with the gradient `g`, and they come to `r`.
pub open spec fn is_added<P, G, F: Fn(P, G, usize, usize) -> (P, G)>(
    step: F,
    g: G,
    r: (P, G),
    s: int,
    p: int,
) -> bool {
    exists|a: P| #[trigger] step.ensures((a, g, s as usize, p as usize), r)
}

/// A pixel meets the splats one after the other: what it is after one is what the next one finds,
/// and the first one finds what it was to begin with.
pub proof fn pixels_meet_the_splats_in_order<P, G, F: Fn(P, G, usize, usize) -> (P, G)>(
    step: F,
    init: Seq<P>,
    zero: G,
    cells: Map<(int, int), (P, G)>,
    n: int,
    p: int,
) -> (states: Seq<P>)
    requires
        is_replay(step, init, zero, cells, n),
        0 <= n,
        0 <= p < init.len(),
    ensures
        states.len() == n + 1,
        states[0] == init[p],
        n > 0 ==> states[n] == cells[(n - 1, p)].0,
        forall|s: int|
            0 <= s < n ==> #[trigger] is_passed(step, states[s], cells[(s, p)], s, p) && cells[(
                s,
                p,
            )].0 == states[s + 1],
{
    let states = Seq::new((n + 1) as nat, |s: int| state_before(init, cells, s, p));
    assert forall|s: int| 0 <= s < n implies #[trigger] is_passed(
        step,
        states[s],
        cells[(s, p)],
        s,
        p,
    ) by {
        assert(is_met(step, init, zero, cells, s, p));
        let g = grad_before(zero, cells, s, p);
        assert(step.ensures((states[s], g, s as usize, p as usize), cells[(s, p)]));
    }
    states
}

/// A splat gathers its gradient over the pixels one after the other, from nothing.
pub proof fn splats_gather_over_the_pixels<P, G, F: Fn(P, G, usize, usize) -> (P, G)>(
    step: F,
    init: Seq<P>,
    zero: G,
    cells: Map<(int, int), (P, G)>,
    n: int,
    s: int,
) -> (sums: Seq<G>)
    requires
        is_replay(step, init, zero, cells, n),
        0 <= s < n,
    ensures
        sums.len() == init.len() + 1,
        sums[0] == zero,
        init.len() > 0 ==> sums[init.len() as int] == cells[(s, init.len() - 1)].1,
        forall|p: int|
            0 <= p < init.len() ==> #[trigger] is_added(step, sums[p], cells[(s, p)], s, p)
                && cells[(s, p)].1 == sums[p + 1],
{
    let sums = Seq::new(init.len() + 1, |p: int| grad_before(zero, cells, s, p));
    assert forall|p: int| 0 <= p < init.len() implies #[trigger] is_added(
        step,
        sums[p],
        cells[(s, p)],
        s,
        p,
    ) by {
        assert(is_met(step, init, zero, cells, s, p));
        let a = state_before(init, cells, s, p);
        assert(step.ensures((a, sums[p], s as usize, p as usize), cells[(s, p)]));
    }
    sums
}

} // verus!
