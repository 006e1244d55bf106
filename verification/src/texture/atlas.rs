//! Charting and packing a whole mesh.

use crate::float::F32;
use crate::mesh::Mesh;
use crate::sort;
use crate::texture::adjacency;
use crate::texture::charts;
use crate::texture::skyline::{self, Placement};
use crate::texture::specks;
use crate::texture::split::{self, SplitMesh};
use vstd::prelude::*;

verus! {

/// `adj` is the adjacency of `faces`: slot `k` of a face is the face across its edge `k`, or
/// `-1`.
pub open spec fn is_adjacency(faces: Seq<[u32; 3]>, adj: Seq<[i64; 3]>) -> bool {
    &&& adj.len() == faces.len()
    &&& forall|f: int, k: int|
        #![trigger adj[f][k]]
        0 <= f < faces.len() && 0 <= k < 3 ==> adj[f][k] == adjacency::face_across(
            faces,
            3 * f + k,
            3 * faces.len() as int,
        )
}

/// `r` are the charts of a mesh: grown one after the other over shared edges, then specks
/// merged into their neighbours.
pub open spec fn is_charting<A: Fn(&Vec<u32>, usize, u32) -> bool>(
    faces: Seq<[u32; 3]>,
    accept: A,
    r: Seq<Vec<u32>>,
) -> bool {
    exists|adj: Seq<[i64; 3]>, all: Seq<Vec<u32>>, chart_of: Seq<u32>|
        {
            &&& is_adjacency(faces, adj)
            &&& charts::is_partition(all, chart_of)
            &&& forall|c: int|
                0 <= c < all.len() ==> charts::is_grown(
                    adj,
                    accept,
                    (#[trigger] all[c])@,
                    charts::faces_of(all, c),
                )
            &&& #[trigger] specks::is_merged(adj, all, chart_of, r)
        }
}

/// Each face is in exactly one of the charts, and no chart is empty.
pub open spec fn covers(r: Seq<Vec<u32>>, n_faces: nat) -> bool {
    exists|which: Seq<u32>|
        which.len() == n_faces && #[trigger] charts::is_partition(r, which) && (forall|c: int|
            0 <= c < r.len() ==> (#[trigger] r[c])@.len() > 0)
}

/// The faces below `n`.
pub open spec fn below(n: nat) -> Set<u32> {
    Set::new(|f: u32| f < n)
}

proof fn below_len(n: nat)
    requires
        n <= u32::MAX,
    ensures
        below(n).finite(),
        below(n).len() == n,
    decreases n,
{
    if n == 0 {
        assert(below(n) =~= Set::empty());
    } else {
        let m = (n - 1) as nat;
        below_len(m);
        assert(below(n) =~= below(m).insert(m as u32));
    }
}

/// The faces that charts list.
pub open spec fn listed_faces(r: Seq<Vec<u32>>, n: int) -> Seq<u32> {
    split::chart_faces(r, n).map_values(|e: (u32, u32, u32)| e.2)
}

/// Entry `s` of the list of faces is face `i` of chart `c`.
proof fn listed_entry(r: Seq<Vec<u32>>, n: int, s: int) -> (at: (int, int))
    requires
        0 <= n <= r.len(),
        0 <= s < split::chart_faces(r, n).len(),
    ensures
        0 <= at.0 < n,
        0 <= at.1 < r[at.0]@.len(),
        split::chart_faces(r, n)[s].2 == r[at.0]@[at.1],
        s == split::chart_faces(r, at.0).len() + at.1,
    decreases n,
{
    let before = split::chart_faces(r, n - 1);
    if s < before.len() {
        listed_entry(r, n - 1, s)
    } else {
        (n - 1, s - before.len())
    }
}

/// The list of faces of charts that cover a mesh holds each face once.
pub proof fn covering_charts_list_each_face_once(r: Seq<Vec<u32>>, n_faces: nat)
    requires
        covers(r, n_faces),
        n_faces <= u32::MAX,
    ensures
        listed_faces(r, r.len() as int).no_duplicates(),
        listed_faces(r, r.len() as int).len() == n_faces,
        forall|f: u32| f < n_faces ==> #[trigger] listed_faces(r, r.len() as int).contains(f),
{
    let n = r.len() as int;
    let list = listed_faces(r, n);
    let entries = split::chart_faces(r, n);
    let which = choose|which: Seq<u32>|
        which.len() == n_faces && #[trigger] charts::is_partition(r, which) && (forall|c: int|
            0 <= c < r.len() ==> (#[trigger] r[c])@.len() > 0);
    assert forall|s: int, t: int|
        0 <= s < list.len() && 0 <= t < list.len() && s != t implies list[s] != list[t] by {
        let (c, i) = listed_entry(r, n, s);
        let (d, j) = listed_entry(r, n, t);
        if list[s] == list[t] {
            assert(r[c]@[i] == r[d]@[j]);
            assert(which[r[c]@[i] as int] == c && which[r[d]@[j] as int] == d);
            assert(r[c]@.no_duplicates());
        }
    }
    assert forall|f: u32| f < n_faces implies #[trigger] list.contains(f) by {
        let c = which[f as int] as int;
        assert(r[c]@.contains(f));
        let i = r[c]@.index_of(f);
        let s = split::chart_faces(r, c).len() + i;
        entry_of(r, n, c, i);
        assert(list[s] == f);
    }
    list.unique_seq_to_set();
    assert(list.to_set() =~= below(n_faces)) by {
        assert forall|f: u32| list.to_set().contains(f) implies f < n_faces by {
            let s = list.index_of(f);
            let (c, i) = listed_entry(r, n, s);
            assert(r[c]@[i] == f);
        }
    }
    below_len(n_faces);
}

/// Face `i` of chart `c` has its entry.
proof fn entry_of(r: Seq<Vec<u32>>, n: int, c: int, i: int)
    requires
        0 <= c < n <= r.len(),
        0 <= i < r[c]@.len(),
    ensures
        split::chart_faces(r, c).len() + i < split::chart_faces(r, n).len(),
        split::chart_faces(r, n)[split::chart_faces(r, c).len() + i].2 == r[c]@[i],
    decreases n,
{
    if c < n - 1 {
        entry_of(r, n - 1, c, i);
    }
}

/// Chart a mesh. `accept(held, m, g)` says whether face `g` may join the chart of the faces
/// `held`, of which the first `m` were in it when the face next to `g` was visited.
pub fn chart_mesh<A: Fn(&Vec<u32>, usize, u32) -> bool>(mesh: &Mesh, accept: A) -> (r: Vec<Vec<u32>>)
    requires
        mesh.faces@.len() < u32::MAX,
        charts::can_judge(accept, mesh.faces@.len()),
    ensures
        is_charting(mesh.faces@, accept, r@),
        covers(r@, mesh.faces@.len()),
{
    let adj = adjacency::face_adjacency(&mesh.faces);
    proof {
        assert(charts::adjacency_ok(adj@)) by {
            assert forall|f: int, k: int|
                #![trigger adj@[f][k]]
                0 <= f < adj@.len() && 0 <= k < 3 implies -1 <= adj@[f][k] < adj@.len() by {
                adjacency::face_across_bound(
                    mesh.faces@,
                    3 * f + k,
                    3 * mesh.faces@.len() as int,
                );
            }
        }
    }
    let (all, chart_of) = charts::cluster_faces(&adj, accept);
    let ghost all0 = all@;
    let ghost of0 = chart_of@;
    let r = specks::merge_specks(&adj, all, chart_of);
    proof {
        assert(specks::is_merged(adj@, all0, of0, r@));
        assert(is_adjacency(mesh.faces@, adj@));
        let which = specks::merged_charts_are_a_partition(adj@, all0, of0, r@);
        assert(charts::is_partition(r@, which));
    }
    r
}

/// Sort keys that put the tallest chart first.
pub open spec fn tallest_first(heights: Seq<F32>) -> Seq<i64> {
    Seq::new(heights.len(), |c: int| (-heights[c].rank()) as i64)
}

/// Charts packed into an atlas.
pub struct Packing {
    /// The round in which they fitted.
    pub round: usize,
    /// The charts in the order in which they were placed: tallest first.
    pub order: Vec<usize>,
    /// Where each chart of `order` lies.
    pub places: Vec<Placement>,
}

/// The charts did not fit in this round.
pub open spec fn failed<
    W: Fn(usize, usize) -> usize,
    S: Fn(usize, usize, F32) -> Option<F32>,
>(order: Seq<usize>, width: nat, floor: F32, round: usize, footprint: W, stack: S) -> bool {
    exists|p: Seq<Placement>|
        {
            &&& p.len() < order.len()
            &&& #[trigger] skyline::is_packing(
                order,
                width,
                floor,
                round,
                footprint,
                stack,
                p,
                p.len() as int,
            )
            &&& skyline::is_misfit(
                order,
                width,
                floor,
                round,
                footprint,
                stack,
                p,
                p.len() as int,
            )
        }
}

/// Pack charts of the given heights into `width` columns, in the first of `rounds` rounds in
/// which they all fit. The charts get smaller from round to round.
pub fn pack_atlas<W: Fn(usize, usize) -> usize, S: Fn(usize, usize, F32) -> Option<F32>>(
    heights: &Vec<F32>,
    width: usize,
    floor: F32,
    rounds: usize,
    footprint: W,
    stack: S,
) -> (r: Option<Packing>)
    requires
        forall|c: int| 0 <= c < heights@.len() ==> !(#[trigger] heights@[c]).nan(),
        !floor.nan(),
        forall|round: usize| #[trigger] skyline::can_pack(round, footprint, stack),
    ensures
        exists|order: Seq<usize>|
            {
                &&& #[trigger] sort::is_stable_order(tallest_first(heights@), order)
                &&& match r {
                    Some(p) => {
                        &&& p.round < rounds
                        &&& p.order@ == order
                        &&& p.places@.len() == order.len()
                        &&& skyline::is_packing(
                            order,
                            width as nat,
                            floor,
                            p.round,
                            footprint,
                            stack,
                            p.places@,
                            p.places@.len() as int,
                        )
                        &&& forall|k: usize|
                            k < p.round ==> #[trigger] failed(
                                order,
                                width as nat,
                                floor,
                                k,
                                footprint,
                                stack,
                            )
                    },
                    None => forall|k: usize|
                        k < rounds ==> #[trigger] failed(
                            order,
                            width as nat,
                            floor,
                            k,
                            footprint,
                            stack,
                        ),
                }
            },
{
    let n: usize = heights.len();
    let mut keys: Vec<i64> = Vec::new();
    for c in 0..n
        invariant
            n == heights@.len(),
            keys@ =~= tallest_first(heights@).take(c as int),
    {
        keys.push(-heights[c].to_rank());
    }
    assert(keys@ =~= tallest_first(heights@));
    let order = sort::stable_order(&keys);
    for round in 0..rounds
        invariant
            !floor.nan(),
            forall|round: usize| #[trigger] skyline::can_pack(round, footprint, stack),
            sort::is_stable_order(tallest_first(heights@), order@),
            forall|k: usize|
                k < round ==> #[trigger] failed(
                    order@,
                    width as nat,
                    floor,
                    k,
                    footprint,
                    stack,
                ),
    {
        assert(skyline::can_pack(round, footprint, stack));
        match skyline::pack_charts(&order, width, floor, round, &footprint, &stack) {
            Some(places) => {
                return Some(Packing { round, order, places });
            },
            None => {
                assert(failed(order@, width as nat, floor, round, footprint, stack));
            },
        }
    }
    None
}

/// Split a mesh along the borders of charts that cover it.
pub fn split_charted(mesh: &Mesh, all: &Vec<Vec<u32>>) -> (out: SplitMesh)
    requires
        mesh.wf(),
        3 * mesh.faces@.len() <= u32::MAX,
        covers(all@, mesh.faces@.len()),
    ensures
        split::is_split(mesh, all@, &out),
        out.mesh.faces@.len() == mesh.faces@.len(),
{
    proof {
        let n = mesh.faces@.len();
        covering_charts_list_each_face_once(all@, n);
        let which = choose|which: Seq<u32>|
            which.len() == n && #[trigger] charts::is_partition(all@, which) && (forall|c: int|
                0 <= c < all@.len() ==> (#[trigger] all@[c])@.len() > 0);
        chart_count(all@, all@.len() as int);
        assert forall|c: int| 0 <= c < all@.len() implies (#[trigger] all@[c])@.len() <= u32::MAX by {
            chart_len(all@, all@.len() as int, c);
        }
        assert forall|c: int, i: int|
            #![trigger all@[c]@[i]]
            0 <= c < all@.len() && 0 <= i < all@[c]@.len() implies all@[c]@[i] < n by {
            assert(which[all@[c]@[i] as int] == c);
        }
    }
    split::split_mesh(mesh, all)
}

/// There are no more charts than faces listed.
proof fn chart_count(r: Seq<Vec<u32>>, n: int)
    requires
        0 <= n <= r.len(),
        forall|c: int| 0 <= c < r.len() ==> (#[trigger] r[c])@.len() > 0,
    ensures
        n <= split::chart_faces(r, n).len(),
    decreases n,
{
    if n > 0 {
        chart_count(r, n - 1);
        assert(r[n - 1]@.len() > 0);
    }
}

/// A chart is no longer than the list of all.
proof fn chart_len(r: Seq<Vec<u32>>, n: int, c: int)
    requires
        0 <= c < n <= r.len(),
    ensures
        r[c]@.len() <= split::chart_faces(r, n).len(),
    decreases n,
{
    if c < n - 1 {
        chart_len(r, n - 1, c);
    }
}

/// Charts are placed by height: none comes after a lower one, and of equally high ones the first
/// comes first.
pub proof fn tall_charts_come_first(heights: Seq<F32>, order: Seq<usize>, a: int, b: int)
    requires
        sort::is_stable_order(tallest_first(heights), order),
        0 <= a < b < order.len(),
    ensures
        order.len() == heights.len(),
        order[a] < heights.len() && order[b] < heights.len(),
        heights[order[a] as int].rank() >= heights[order[b] as int].rank(),
        heights[order[a] as int].rank() == heights[order[b] as int].rank() ==> order[a] < order[b],
{
    sort::stable_orders_ascend(tallest_first(heights), order, a, b);
}

} // verus!
