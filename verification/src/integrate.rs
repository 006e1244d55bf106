//! How far light gets to a set of vertices, in one view.
//!
//! Vertices are grouped by the tile that they project to. In each tile the light of every
//! vertex passes the Gaussians of the tile front to back, until hardly any is left.

use crate::buckets;
use crate::float::F32;
use vstd::prelude::*;

verus! {

/// Vertices of a tile that are looked at, and Gaussians that are looked at together.
pub const TILE_SIZE: usize = 256;

/// `1.0`, all light.
pub const ALL_LIGHT_BITS: u32 = 0x3F800000;

/// `1e-4`: with less light than this left the rest of the Gaussians makes no difference.
pub const EARLY_OUT_BITS: u32 = 0x38D1B717;

/// Hardly any light is left.
pub open spec fn is_spent(t: F32) -> bool {
    t.spec_lt(F32 { bits: EARLY_OUT_BITS })
}

/// The light `trace[k]` of vertex `v` passes Gaussian `k`.
pub open spec fn passes<A: Fn(usize, u32, F32) -> F32>(
    attenuate: A,
    v: usize,
    gaussians: Seq<u32>,
    trace: Seq<F32>,
    k: int,
) -> bool {
    &&& !is_spent(trace[k])
    &&& attenuate.ensures((v, gaussians[k], trace[k]), trace[k + 1])
}

/// `trace` is the light of vertex `v` before and after each Gaussian that it passed.
pub open spec fn is_ray<A: Fn(usize, u32, F32) -> F32>(
    attenuate: A,
    v: usize,
    gaussians: Seq<u32>,
    trace: Seq<F32>,
) -> bool {
    &&& 1 <= trace.len() <= gaussians.len() + 1
    &&& trace[0].bits == ALL_LIGHT_BITS
    &&& forall|k: int|
        0 <= k < trace.len() - 1 ==> #[trigger] passes(attenuate, v, gaussians, trace, k)
}

/// The ray has passed all Gaussians, or its light is spent.
pub open spec fn is_over(gaussians: Seq<u32>, trace: Seq<F32>) -> bool {
    trace.len() == gaussians.len() + 1 || is_spent(trace.last())
}

/// `t` is what is left of the light of vertex `v`.
pub open spec fn is_left<A: Fn(usize, u32, F32) -> F32>(
    attenuate: A,
    v: usize,
    gaussians: Seq<u32>,
    t: F32,
) -> bool {
    exists|trace: Seq<F32>| #[trigger]
        is_ray(attenuate, v, gaussians, trace) && is_over(gaussians, trace) && t == trace.last()
}

/// What is left of the light depends on the Gaussians alone: two rays of one vertex are the
/// same, if a Gaussian takes the same from the same light.
pub proof fn rays_are_unique<A: Fn(usize, u32, F32) -> F32>(
    attenuate: A,
    v: usize,
    gaussians: Seq<u32>,
    a: Seq<F32>,
    b: Seq<F32>,
    k: int,
)
    requires
        is_ray(attenuate, v, gaussians, a),
        is_ray(attenuate, v, gaussians, b),
        is_over(gaussians, a),
        is_over(gaussians, b),
        forall|x: (usize, u32, F32), y: F32, z: F32|
            #[trigger] attenuate.ensures(x, y) && #[trigger] attenuate.ensures(x, z) ==> y == z,
        0 <= k < a.len(),
    ensures
        k < b.len(),
        a[k] == b[k],
    decreases k,
{
    if k > 0 {
        rays_are_unique(attenuate, v, gaussians, a, b, k - 1);
        assert(passes(attenuate, v, gaussians, a, k - 1));
        if k < b.len() {
            assert(passes(attenuate, v, gaussians, b, k - 1));
        } else {
            assert(b.last() == a[k - 1]);
        }
    } else {
        assert(a[0] == b[0]);
    }
}

/// The rays of a tile before Gaussian `from`.
spec fn under_way<A: Fn(usize, u32, F32) -> F32>(
    attenuate: A,
    vertices: Seq<usize>,
    gaussians: Seq<u32>,
    from: int,
    ts: Seq<F32>,
    done: Seq<bool>,
    traces: Seq<Seq<F32>>,
    j: int,
) -> bool {
    &&& is_ray(attenuate, vertices[j], gaussians, traces[j])
    &&& ts[j] == traces[j].last()
    &&& if done[j] {
        is_over(gaussians, traces[j])
    } else {
        traces[j].len() == from + 1
    }
}

/// The Gaussian that ray `i` has got to, when the first `j` rays have passed those up to `to`.
spec fn reached(i: int, j: int, from: int, to: int) -> int {
    if i < j {
        to
    } else {
        from
    }
}

/// What is left of the light of the vertices from place `lo` on, before `hi`. They go
/// through the Gaussians side by side, [`TILE_SIZE`] Gaussians at a time.
fn integrate_batch<A: Fn(usize, u32, F32) -> F32>(
    vertices: &Vec<usize>,
    lo: usize,
    hi: usize,
    gaussians: &Vec<u32>,
    attenuate: &A,
) -> (ts: Vec<F32>)
    requires
        lo <= hi <= vertices@.len(),
        forall|v: usize, g: u32, t: F32| #[trigger] attenuate.requires((v, g, t)),
    ensures
        ts@.len() == hi - lo,
        forall|j: int|
            0 <= j < ts@.len() ==> is_left(
                *attenuate,
                vertices@[lo + j],
                gaussians@,
                #[trigger] ts@[j],
            ),
{
    let m: usize = hi - lo;
    let ghost batch = vertices@.subrange(lo as int, hi as int);
    let n: usize = gaussians.len();
    let mut ts: Vec<F32> = Vec::new();
    let mut done: Vec<bool> = Vec::new();
    let ghost mut traces: Seq<Seq<F32>> = Seq::empty();
    for j in 0..m
        invariant
            lo <= hi <= vertices@.len(),
            m == hi - lo,
            batch == vertices@.subrange(lo as int, hi as int),
            n == gaussians@.len(),
            ts@.len() == j,
            done@.len() == j,
            traces.len() == j,
            forall|i: int|
                0 <= i < j ==> #[trigger] under_way(
                    *attenuate,
                    batch,
                    gaussians@,
                    0,
                    ts@,
                    done@,
                    traces,
                    i,
                ),
    {
        let ghost (ts0, done0, traces0) = (ts@, done@, traces);
        ts.push(F32::from_bits(ALL_LIGHT_BITS));
        done.push(n == 0);
        proof {
            traces = traces.push(seq![F32 { bits: ALL_LIGHT_BITS }]);
            assert forall|i: int| 0 <= i < j + 1 implies #[trigger] under_way(
                *attenuate,
                batch,
                gaussians@,
                0,
                ts@,
                done@,
                traces,
                i,
            ) by {
                if i < j {
                    assert(under_way(
                        *attenuate,
                        batch,
                        gaussians@,
                        0,
                        ts0,
                        done0,
                        traces0,
                        i,
                    ));
                }
            }
        }
    }
    let mut from: usize = 0;
    let mut over: bool = n == 0;
    while from < n && !over
        invariant
            lo <= hi <= vertices@.len(),
            m == hi - lo,
            batch == vertices@.subrange(lo as int, hi as int),
            n == gaussians@.len(),
            from <= n,
            ts@.len() == m,
            done@.len() == m,
            traces.len() == m,
            over ==> n == 0 || forall|i: int| 0 <= i < m ==> #[trigger] done@[i],
            forall|v: usize, g: u32, t: F32| #[trigger] attenuate.requires((v, g, t)),
            forall|i: int|
                0 <= i < m ==> #[trigger] under_way(
                    *attenuate,
                    batch,
                    gaussians@,
                    from as int,
                    ts@,
                    done@,
                    traces,
                    i,
                ),
        decreases
            n - from,
            if over {
                0int
            } else {
                1
            },
    {
        over = true;
        for j in 0..m
            invariant
                m == done@.len(),
                over ==> forall|i: int| 0 <= i < j ==> #[trigger] done@[i],
        {
            if !done[j] {
                over = false;
            }
        }
        if !over {
            let to: usize = if n - from < TILE_SIZE {
                n
            } else {
                from + TILE_SIZE
            };
            let mut j: usize = 0;
            proof {
                assert forall|i: int| 0 <= i < m implies #[trigger] under_way(
                    *attenuate,
                    batch,
                    gaussians@,
                    reached(i, 0, from as int, to as int),
                    ts@,
                    done@,
                    traces,
                    i,
                ) by {
                    assert(under_way(
                        *attenuate,
                        batch,
                        gaussians@,
                        from as int,
                        ts@,
                        done@,
                        traces,
                        i,
                    ));
                }
            }
            while j < m
                invariant
                    j <= m,
                    lo <= hi <= vertices@.len(),
                    m == hi - lo,
                    batch == vertices@.subrange(lo as int, hi as int),
                    n == gaussians@.len(),
                    from < to <= n,
                    ts@.len() == m,
                    done@.len() == m,
                    traces.len() == m,
                    forall|v: usize, g: u32, t: F32| #[trigger] attenuate.requires((v, g, t)),
                    forall|i: int|
                        0 <= i < m ==> #[trigger] under_way(
                            *attenuate,
                            batch,
                            gaussians@,
                            reached(i, j as int, from as int, to as int),
                            ts@,
                            done@,
                            traces,
                            i,
                        ),
                decreases m - j,
            {
                let ghost (ts0, done0, traces0) = (ts@, done@, traces);
                let v: usize = vertices[lo + j];
                let mut t: F32 = ts[j];
                let mut spent: bool = done[j];
                let ghost mut trace = traces[j as int];
                assert(under_way(
                    *attenuate,
                    batch,
                    gaussians@,
                    reached(j as int, j as int, from as int, to as int),
                    ts@,
                    done@,
                    traces,
                    j as int,
                ));
                let mut g: usize = from;
                while g < to && !spent
                    invariant
                        n == gaussians@.len(),
                        from <= g <= to <= n,
                        t == trace.last(),
                        is_ray(*attenuate, v, gaussians@, trace),
                        if spent {
                            is_over(gaussians@, trace)
                        } else {
                            trace.len() == g + 1
                        },
                        forall|v: usize, g: u32, t: F32| #[trigger] attenuate.requires((v, g, t)),
                    decreases
                        to - g,
                        if spent {
                            0int
                        } else {
                            1
                        },
                {
                    if t.lt(F32::from_bits(EARLY_OUT_BITS)) {
                        spent = true;
                    } else {
                        let ghost before = trace;
                        t = attenuate(v, gaussians[g], t);
                        proof {
                            trace = trace.push(t);
                            assert forall|k: int| 0 <= k < trace.len() - 1 implies #[trigger] passes(
                                *attenuate,
                                v,
                                gaussians@,
                                trace,
                                k,
                            ) by {
                                if k < before.len() - 1 {
                                    assert(passes(*attenuate, v, gaussians@, before, k));
                                }
                            }
                        }
                        g = g + 1;
                    }
                }
                ts.set(j, t);
                done.set(j, spent);
                proof {
                    traces = traces.update(j as int, trace);
                    assert forall|i: int| 0 <= i < m implies #[trigger] under_way(
                        *attenuate,
                        batch,
                        gaussians@,
                        reached(i, j + 1, from as int, to as int),
                        ts@,
                        done@,
                        traces,
                        i,
                    ) by {
                        if i != j {
                            assert(under_way(
                                *attenuate,
                                batch,
                                gaussians@,
                                reached(i, j as int, from as int, to as int),
                                ts0,
                                done0,
                                traces0,
                                i,
                            ));
                        }
                    }
                }
                j = j + 1;
            }
            proof {
                assert forall|i: int| 0 <= i < m implies #[trigger] under_way(
                    *attenuate,
                    batch,
                    gaussians@,
                    to as int,
                    ts@,
                    done@,
                    traces,
                    i,
                ) by {
                    assert(under_way(
                        *attenuate,
                        batch,
                        gaussians@,
                        reached(i, j as int, from as int, to as int),
                        ts@,
                        done@,
                        traces,
                        i,
                    ));
                }
            }
            from = to;
        }
    }
    proof {
        assert forall|j: int| 0 <= j < ts@.len() implies is_left(
            *attenuate,
            vertices@[lo + j],
            gaussians@,
            #[trigger] ts@[j],
        ) by {
            assert(under_way(
                *attenuate,
                batch,
                gaussians@,
                from as int,
                ts@,
                done@,
                traces,
                j,
            ));
            if n > 0 && over {
                assert(done@[j]);
            }
            assert(is_ray(*attenuate, batch[j], gaussians@, traces[j]));
        }
    }
    ts
}

/// What is left of the light of each vertex of a tile. `attenuate(vertex, gaussian, light)`
/// is the light behind a Gaussian. [`TILE_SIZE`] vertices are looked at together.
pub fn integrate_tile<A: Fn(usize, u32, F32) -> F32>(
    vertices: &Vec<usize>,
    gaussians: &Vec<u32>,
    attenuate: &A,
) -> (ts: Vec<F32>)
    requires
        forall|v: usize, g: u32, t: F32| #[trigger] attenuate.requires((v, g, t)),
    ensures
        ts@.len() == vertices@.len(),
        forall|j: int|
            0 <= j < ts@.len() ==> is_left(
                *attenuate,
                vertices@[j],
                gaussians@,
                #[trigger] ts@[j],
            ),
{
    let n: usize = vertices.len();
    let mut ts: Vec<F32> = Vec::new();
    let mut lo: usize = 0;
    while lo < n
        invariant
            n == vertices@.len(),
            lo <= n,
            ts@.len() == lo,
            forall|v: usize, g: u32, t: F32| #[trigger] attenuate.requires((v, g, t)),
            forall|j: int|
                0 <= j < ts@.len() ==> is_left(
                    *attenuate,
                    vertices@[j],
                    gaussians@,
                    #[trigger] ts@[j],
                ),
        decreases n - lo,
    {
        let hi: usize = if n - lo < TILE_SIZE {
            n
        } else {
            lo + TILE_SIZE
        };
        let mut batch = integrate_batch(vertices, lo, hi, gaussians, attenuate);
        let ghost before = ts@;
        let ghost more = batch@;
        ts.append(&mut batch);
        proof {
            assert(ts@ == before + more);
            assert forall|j: int| 0 <= j < ts@.len() implies is_left(
                *attenuate,
                vertices@[j],
                gaussians@,
                #[trigger] ts@[j],
            ) by {
                if j < lo {
                    assert(before[j] == ts@[j]);
                } else {
                    assert(more[j - lo] == ts@[j]);
                }
            }
        }
        lo = hi;
    }
    ts
}

/// The Gaussians of tile `t`: those between its two offsets.
pub open spec fn tile_list(
    of_isect: Seq<u32>,
    offsets: Seq<u32>,
    global: Seq<u32>,
    t: int,
) -> Seq<u32> {
    let lo = offsets[2 * t];
    let hi = offsets[2 * t + 1];
    Seq::new(
        if lo <= hi {
            (hi - lo) as nat
        } else {
            0
        },
        |i: int| global[of_isect[lo + i] as int],
    )
}

/// The Gaussians of each tile, front to back. Tile `t` has those from place `offsets[2 * t]`
/// on, before place `offsets[2 * t + 1]`, of the sorted intersections; an intersection names
/// a visible Gaussian, and `global` the Gaussian that this is.
pub fn tile_lists(of_isect: &Vec<u32>, offsets: &Vec<u32>, global: &Vec<u32>) -> (r: Vec<Vec<u32>>)
    requires
        forall|k: int| 0 <= k < offsets@.len() ==> #[trigger] offsets@[k] <= of_isect@.len(),
        forall|k: int| 0 <= k < of_isect@.len() ==> #[trigger] of_isect@[k] < global@.len(),
    ensures
        r@.len() == offsets@.len() / 2,
        forall|t: int|
            0 <= t < r@.len() ==> (#[trigger] r@[t])@ == tile_list(
                of_isect@,
                offsets@,
                global@,
                t,
            ),
{
    let n: usize = offsets.len() / 2;
    let mut r: Vec<Vec<u32>> = Vec::new();
    for t in 0..n
        invariant
            n == offsets@.len() / 2,
            r@.len() == t,
            forall|k: int| 0 <= k < offsets@.len() ==> #[trigger] offsets@[k] <= of_isect@.len(),
            forall|k: int| 0 <= k < of_isect@.len() ==> #[trigger] of_isect@[k] < global@.len(),
            forall|i: int|
                0 <= i < t ==> (#[trigger] r@[i])@ == tile_list(of_isect@, offsets@, global@, i),
    {
        assert(2 * t + 1 < offsets.len());
        let lo: u32 = offsets[2 * t];
        let hi: u32 = offsets[2 * t + 1];
        let mut list: Vec<u32> = Vec::new();
        let mut k: u32 = lo;
        let ghost want = tile_list(of_isect@, offsets@, global@, t as int);
        while k < hi
            invariant
                lo <= k,
                lo < hi ==> k <= hi,
                hi <= of_isect@.len(),
                lo == offsets@[2 * t],
                hi == offsets@[2 * t + 1],
                want == tile_list(of_isect@, offsets@, global@, t as int),
                list@ =~= want.take(k - lo),
                lo >= hi ==> k == lo,
                forall|k: int| 0 <= k < of_isect@.len() ==> #[trigger] of_isect@[k] < global@.len(),
            decreases hi - k,
        {
            list.push(global[of_isect[k as usize] as usize]);
            k = k + 1;
        }
        assert(list@ =~= want);
        r.push(list);
    }
    r
}

/// Vertex `v` is looked at: it is in a tile.
pub open spec fn is_taken(ids: Seq<u32>, n_tiles: int, v: int) -> bool {
    ids[v] < n_tiles
}

/// The least opacity of vertex `v` goes from `before` to `after` by what is left of its light
/// in this view.
pub open spec fn is_carved<A: Fn(usize, u32, F32) -> F32, O: Fn(F32) -> F32>(
    attenuate: A,
    opacity: O,
    v: usize,
    gaussians: Seq<u32>,
    before: F32,
    after: F32,
) -> bool {
    exists|t: F32, a: F32|
        {
            &&& #[trigger] is_left(attenuate, v, gaussians, t)
            &&& #[trigger] opacity.ensures((t,), a)
            &&& after == (if a.spec_lt(before) {
                a
            } else {
                before
            })
        }
}

/// Vertex `v` is as it should be when the tiles before `t` have been looked at, and the first
/// `j` vertices of tile `t`.
spec fn is_settled<A: Fn(usize, u32, F32) -> F32, O: Fn(F32) -> F32>(
    attenuate: A,
    opacity: O,
    ids: Seq<u32>,
    lists: Seq<Vec<u32>>,
    before: Seq<F32>,
    after: Seq<F32>,
    t: int,
    j: int,
    v: int,
) -> bool {
    if is_taken(ids, lists.len() as int, v) && (ids[v] < t || ids[v] == t && buckets::count_of(
        ids,
        t,
        v,
    ) < j) {
        is_carved(
            attenuate,
            opacity,
            v as usize,
            lists[ids[v] as int]@,
            before[v],
            after[v],
        )
    } else {
        after[v] == before[v]
    }
}

/// Lower the least opacity of each vertex to its opacity in one view. `tile_ids` gives the
/// tile of each vertex, or no tile for one that is not in the view; `lists` the Gaussians of
/// each tile; `opacity` what is taken from the light, by what is left of it.
pub fn integrate_view<A: Fn(usize, u32, F32) -> F32, O: Fn(F32) -> F32>(
    min_alpha: &mut Vec<F32>,
    tile_ids: &Vec<u32>,
    lists: &Vec<Vec<u32>>,
    attenuate: A,
    opacity: O,
)
    requires
        tile_ids@.len() == old(min_alpha)@.len(),
        lists@.len() < usize::MAX,
        forall|v: usize, g: u32, t: F32| #[trigger] attenuate.requires((v, g, t)),
        forall|t: F32| #[trigger] opacity.requires((t,)),
    ensures
        final(min_alpha)@.len() == old(min_alpha)@.len(),
        forall|v: int|
            0 <= v < old(min_alpha)@.len() ==> if is_taken(tile_ids@, lists@.len() as int, v) {
                is_carved(
                    attenuate,
                    opacity,
                    v as usize,
                    lists@[tile_ids@[v] as int]@,
                    old(min_alpha)@[v],
                    #[trigger] final(min_alpha)@[v],
                )
            } else {
                final(min_alpha)@[v] == old(min_alpha)@[v]
            },
{
    let n: usize = lists.len();
    let ghost before = min_alpha@;
    let groups = buckets::bucket(tile_ids, n);
    let mut t: usize = 0;
    while t < n
        invariant
            t <= n,
            tile_ids.len() == before.len(),
            n == lists@.len(),
            groups.groups(tile_ids@, n as int),
            before == old(min_alpha)@,
            tile_ids@.len() == before.len(),
            min_alpha@.len() == before.len(),
            forall|v: usize, g: u32, t: F32| #[trigger] attenuate.requires((v, g, t)),
            forall|t: F32| #[trigger] opacity.requires((t,)),
            forall|v: int|
                0 <= v < before.len() ==> #[trigger] is_settled(
                    attenuate,
                    opacity,
                    tile_ids@,
                    lists@,
                    before,
                    min_alpha@,
                    t as int,
                    0,
                    v,
                ),
        decreases n - t,
    {
        let vertices = groups.members(tile_ids, n, t);
        let ts = integrate_tile(&vertices, &lists[t], &attenuate);
        proof {
            buckets::members_by_place(tile_ids@, t as int, tile_ids@.len() as int);
        }
        let mut j: usize = 0;
        while j < ts.len()
            invariant
                j <= ts@.len(),
                tile_ids.len() == before.len(),
                t < n,
                n == lists@.len(),
                before == old(min_alpha)@,
                tile_ids@.len() == before.len(),
                min_alpha@.len() == before.len(),
                vertices@ == buckets::members_of(tile_ids@, t as int, tile_ids@.len() as int),
                vertices@.len() == buckets::count_of(tile_ids@, t as int, tile_ids@.len() as int),
                ts@.len() == vertices@.len(),
                forall|j: int|
                    0 <= j < vertices@.len() ==> {
                        let v = #[trigger] vertices@[j];
                        v < tile_ids@.len() && tile_ids@[v as int] == t && buckets::count_of(
                            tile_ids@,
                            t as int,
                            v as int,
                        ) == j
                    },
                forall|j: int|
                    0 <= j < ts@.len() ==> is_left(
                        attenuate,
                        vertices@[j],
                        lists@[t as int]@,
                        #[trigger] ts@[j],
                    ),
                forall|t: F32| #[trigger] opacity.requires((t,)),
                forall|v: int|
                    0 <= v < before.len() ==> #[trigger] is_settled(
                        attenuate,
                        opacity,
                        tile_ids@,
                        lists@,
                        before,
                        min_alpha@,
                        t as int,
                        j as int,
                        v,
                    ),
            decreases ts@.len() - j,
        {
            let v: usize = vertices[j];
            let ghost mid = min_alpha@;
            assert(is_settled(
                attenuate,
                opacity,
                tile_ids@,
                lists@,
                before,
                mid,
                t as int,
                j as int,
                v as int,
            ));
            let left = ts[j];
            let a = opacity(left);
            assert(is_left(attenuate, v, lists@[t as int]@, left));
            if a.lt(min_alpha[v]) {
                min_alpha.set(v, a);
            }
            proof {
                assert forall|u: int| 0 <= u < before.len() implies #[trigger] is_settled(
                    attenuate,
                    opacity,
                    tile_ids@,
                    lists@,
                    before,
                    min_alpha@,
                    t as int,
                    j + 1,
                    u,
                ) by {
                    assert(is_settled(
                        attenuate,
                        opacity,
                        tile_ids@,
                        lists@,
                        before,
                        mid,
                        t as int,
                        j as int,
                        u,
                    ));
                    if u != v && tile_ids@[u] == t && buckets::count_of(
                        tile_ids@,
                        t as int,
                        u,
                    ) == j {
                        assert(buckets::members_of(tile_ids@, t as int, tile_ids@.len() as int)[j as int]
                            == u) by {
                            buckets::members_by_place(tile_ids@, t as int, tile_ids@.len() as int);
                        }
                    }
                    if u == v {
                        assert(is_carved(
                            attenuate,
                            opacity,
                            v,
                            lists@[t as int]@,
                            before[u],
                            min_alpha@[u],
                        ));
                    }
                }
            }
            j = j + 1;
        }
        proof {
            assert forall|v: int| 0 <= v < before.len() implies #[trigger] is_settled(
                attenuate,
                opacity,
                tile_ids@,
                lists@,
                before,
                min_alpha@,
                t + 1,
                0,
                v,
            ) by {
                assert(is_settled(
                    attenuate,
                    opacity,
                    tile_ids@,
                    lists@,
                    before,
                    min_alpha@,
                    t as int,
                    ts@.len() as int,
                    v,
                ));
                if tile_ids@[v] == t {
                    assert(buckets::count_of(tile_ids@, t as int, v) < vertices@.len()) by {
                        buckets::members_by_place(tile_ids@, t as int, tile_ids@.len() as int);
                    }
                }
            }
        }
        t = t + 1;
    }
    proof {
        assert forall|v: int| 0 <= v < before.len() implies if is_taken(
            tile_ids@,
            lists@.len() as int,
            v,
        ) {
            is_carved(
                attenuate,
                opacity,
                v as usize,
                lists@[tile_ids@[v] as int]@,
                before[v],
                #[trigger] min_alpha@[v],
            )
        } else {
            min_alpha@[v] == before[v]
        } by {
            assert(is_settled(
                attenuate,
                opacity,
                tile_ids@,
                lists@,
                before,
                min_alpha@,
                n as int,
                0,
                v,
            ));
        }
    }
}

/// A view can only lower the least opacity of a vertex.
pub proof fn carving_only_opens<A: Fn(usize, u32, F32) -> F32, O: Fn(F32) -> F32>(
    attenuate: A,
    opacity: O,
    v: usize,
    gaussians: Seq<u32>,
    before: F32,
    after: F32,
)
    requires
        is_carved(attenuate, opacity, v, gaussians, before, after),
    ensures
        after == before || after.spec_lt(before),
{
}

/// A vertex in front of everything has all its light, which is one.
pub proof fn nothing_takes_no_light<A: Fn(usize, u32, F32) -> F32>(attenuate: A, v: usize, t: F32)
    ensures
        is_left(attenuate, v, Seq::empty(), t) <==> t.bits == 0x3f80_0000,
{
    let gaussians = Seq::<u32>::empty();
    if t.bits == 0x3f80_0000 {
        let trace = seq![t];
        assert(is_ray(attenuate, v, gaussians, trace));
        assert(is_over(gaussians, trace));
        assert(is_left(attenuate, v, gaussians, t));
    }
    if is_left(attenuate, v, gaussians, t) {
        let trace = choose|trace: Seq<F32>| #[trigger]
            is_ray(attenuate, v, gaussians, trace) && is_over(gaussians, trace) && t
                == trace.last();
        assert(trace.len() == 1);
    }
}

/// A Gaussian behind the others takes from what they have left, if that is at least a
/// ten-thousandth.
pub proof fn the_last_takes_from_what_is_left<A: Fn(usize, u32, F32) -> F32>(
    attenuate: A,
    v: usize,
    gaussians: Seq<u32>,
    g: u32,
    t: F32,
    after: F32,
)
    requires
        is_left(attenuate, v, gaussians, t),
        !t.spec_lt(F32 { bits: 0x38d1_b717 }),
        attenuate.ensures((v, g, t), after),
    ensures
        is_left(attenuate, v, gaussians.push(g), after),
{
    let trace = choose|trace: Seq<F32>| #[trigger]
        is_ray(attenuate, v, gaussians, trace) && is_over(gaussians, trace) && t == trace.last();
    let more = gaussians.push(g);
    let longer = trace.push(after);
    assert forall|k: int| 0 <= k < longer.len() - 1 implies #[trigger] passes(
        attenuate,
        v,
        more,
        longer,
        k,
    ) by {
        if k < trace.len() - 1 {
            assert(passes(attenuate, v, gaussians, trace, k));
        }
    }
    assert(is_ray(attenuate, v, more, longer));
    assert(is_over(more, longer));
}

/// Where less than a ten-thousandth of the light is left, what is behind takes nothing.
pub proof fn spent_light_is_not_followed<A: Fn(usize, u32, F32) -> F32>(
    attenuate: A,
    v: usize,
    gaussians: Seq<u32>,
    g: u32,
    t: F32,
)
    requires
        is_left(attenuate, v, gaussians, t),
        t.spec_lt(F32 { bits: 0x38d1_b717 }),
    ensures
        is_left(attenuate, v, gaussians.push(g), t),
{
    let trace = choose|trace: Seq<F32>| #[trigger]
        is_ray(attenuate, v, gaussians, trace) && is_over(gaussians, trace) && t == trace.last();
    let more = gaussians.push(g);
    assert forall|k: int| 0 <= k < trace.len() - 1 implies #[trigger] passes(
        attenuate,
        v,
        more,
        trace,
        k,
    ) by {
        assert(passes(attenuate, v, gaussians, trace, k));
    }
    assert(is_ray(attenuate, v, more, trace));
    assert(is_over(more, trace));
}

/// The opacity of a vertex is the least that any view gives it: after a view it is at most what it
/// was and at most what the view gives, and one of the two.
pub proof fn carving_takes_the_least<A: Fn(usize, u32, F32) -> F32, O: Fn(F32) -> F32>(
    attenuate: A,
    opacity: O,
    v: usize,
    gaussians: Seq<u32>,
    before: F32,
    after: F32,
) -> (r: (F32, F32))
    requires
        is_carved(attenuate, opacity, v, gaussians, before, after),
    ensures
        is_left(attenuate, v, gaussians, r.0),
        opacity.ensures((r.0,), r.1),
        after == before || after == r.1,
        !before.spec_lt(after),
        !r.1.spec_lt(after),
{
    choose|t: F32, a: F32|
        {
            &&& #[trigger] is_left(attenuate, v, gaussians, t)
            &&& #[trigger] opacity.ensures((t,), a)
            &&& after == (if a.spec_lt(before) {
                a
            } else {
                before
            })
        }
}

/// The list of a tile has the Gaussians of its intersections in their order, from its first to
/// before its last.
pub proof fn tile_lists_follow_the_intersections(
    of_isect: Seq<u32>,
    offsets: Seq<u32>,
    global: Seq<u32>,
    t: int,
    p: int,
)
    requires
        0 <= t,
        offsets[2 * t] <= p < offsets[2 * t + 1],
    ensures
        tile_list(of_isect, offsets, global, t).len() == offsets[2 * t + 1] - offsets[2 * t],
        tile_list(of_isect, offsets, global, t)[p - offsets[2 * t]] == global[of_isect[p] as int],
{
}

} // verus!
