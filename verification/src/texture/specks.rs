//! Merging of small charts into their neighbours.
//!
//! Tiny charts are packing overhead, and their split vertices get in the way of a later
//! simplification. Each joins the neighbouring chart that it shares the most edges with.

use super::charts;
use crate::fx;
use rustc_hash::FxHashMap;
use vstd::prelude::*;

verus! {

/// Charts with fewer faces than this are specks; the bound grows with the mesh.
pub open spec fn speck_bound(n_faces: int) -> int {
    if n_faces / 20_000 > 16 {
        n_faces / 20_000
    } else {
        16
    }
}

/// The chart across edge `s % 3` of face `s / 3` of `chart`, if there is one other than
/// `ci`.
pub open spec fn voted_at(
    adj: Seq<[i64; 3]>,
    chart: Seq<u32>,
    chart_of: Seq<u32>,
    ci: u32,
    s: int,
) -> Option<u32> {
    let nb = adj[chart[s / 3] as int][s % 3];
    if nb < 0 || chart_of[nb as int] == ci {
        None
    } else {
        Some(chart_of[nb as int])
    }
}

/// How many of the first `s` edges of `chart` lead to chart `c`.
pub open spec fn votes_for(
    adj: Seq<[i64; 3]>,
    chart: Seq<u32>,
    chart_of: Seq<u32>,
    ci: u32,
    c: u32,
    s: int,
) -> nat
    decreases s,
{
    if s <= 0 {
        0
    } else {
        votes_for(adj, chart, chart_of, ci, c, s - 1) + if voted_at(
            adj,
            chart,
            chart_of,
            ci,
            s - 1,
        ) == Some(c) {
            1nat
        } else {
            0
        }
    }
}

/// All votes of `chart` for chart `c`.
pub open spec fn votes(
    adj: Seq<[i64; 3]>,
    chart: Seq<u32>,
    chart_of: Seq<u32>,
    ci: u32,
    c: u32,
) -> nat {
    votes_for(adj, chart, chart_of, ci, c, 3 * chart.len() as int)
}

/// `t` has the most votes, and none with as many is smaller.
pub open spec fn is_best(
    adj: Seq<[i64; 3]>,
    chart: Seq<u32>,
    chart_of: Seq<u32>,
    sizes: Seq<usize>,
    ci: u32,
    t: u32,
) -> bool {
    &&& votes(adj, chart, chart_of, ci, t) > 0
    &&& forall|c: u32|
        {
            let n = #[trigger] votes(adj, chart, chart_of, ci, c);
            let m = votes(adj, chart, chart_of, ci, t);
            n > 0 ==> n < m || (n == m && sizes[c as int] >= sizes[t as int])
        }
}

/// `after` is `before` with every face of `chart` moved to chart `t`.
pub open spec fn is_moved(before: Seq<u32>, after: Seq<u32>, chart: Seq<u32>, t: u32) -> bool {
    &&& after.len() == before.len()
    &&& forall|f: int|
        0 <= f < before.len() ==> #[trigger] after[f] == (if chart.contains(f as u32) {
            t
        } else {
            before[f]
        })
}

/// What becomes of chart `ci` in a round: a speck with a neighbour moves to the best one,
/// any other chart stays.
pub open spec fn is_merge(
    adj: Seq<[i64; 3]>,
    chart: Seq<u32>,
    sizes: Seq<usize>,
    ci: u32,
    before: Seq<u32>,
    after: Seq<u32>,
) -> bool {
    if chart.len() < speck_bound(adj.len() as int) && exists|c: u32|
        #[trigger] votes(adj, chart, before, ci, c) > 0 {
        exists|t: u32|
            #[trigger] is_best(adj, chart, before, sizes, ci, t) && is_moved(before, after, chart, t)
    } else {
        after == before
    }
}

/// The sizes of the charts.
pub open spec fn sizes_of(all: Seq<Vec<u32>>) -> Seq<usize> {
    Seq::new(all.len(), |c: int| all[c]@.len() as usize)
}

/// `states` are the assignments while the charts are gone through once.
pub open spec fn is_round(adj: Seq<[i64; 3]>, all: Seq<Vec<u32>>, states: Seq<Seq<u32>>) -> bool {
    &&& states.len() == all.len() + 1
    &&& forall|c: int|
        #![trigger all[c]]
        0 <= c < all.len() ==> is_merge(
            adj,
            all[c]@,
            sizes_of(all),
            c as u32,
            states[c],
            states[c + 1],
        )
}

/// `after` is the assignment after one round from `before`.
pub open spec fn round_leads_to(
    adj: Seq<[i64; 3]>,
    all: Seq<Vec<u32>>,
    before: Seq<u32>,
    after: Seq<u32>,
) -> bool {
    exists|states: Seq<Seq<u32>>| #[trigger]
        is_round(adj, all, states) && states[0] == before && states.last() == after
}

/// The faces below `n` of chart `c`, ascending.
pub open spec fn members(chart_of: Seq<u32>, c: u32, n: int) -> Seq<u32>
    decreases n,
{
    if n <= 0 {
        Seq::empty()
    } else if chart_of[n - 1] == c {
        members(chart_of, c, n - 1).push((n - 1) as u32)
    } else {
        members(chart_of, c, n - 1)
    }
}

/// `all` lists the faces of each chart as `chart_of` says, ascending.
pub open spec fn is_rebuilt(chart_of: Seq<u32>, all: Seq<Vec<u32>>) -> bool {
    forall|c: int|
        0 <= c < all.len() ==> (#[trigger] all[c])@ == members(
            chart_of,
            c as u32,
            chart_of.len() as int,
        )
}

/// The face lists of charts.
pub open spec fn lists(all: Seq<Vec<u32>>) -> Seq<Seq<u32>> {
    Seq::new(all.len(), |c: int| all[c]@)
}

/// The lists that have faces, in order.
pub open spec fn with_faces(all: Seq<Seq<u32>>) -> Seq<Seq<u32>>
    decreases all.len(),
{
    if all.len() == 0 {
        Seq::empty()
    } else if all.last().len() > 0 {
        with_faces(all.drop_last()).push(all.last())
    } else {
        with_faces(all.drop_last())
    }
}

proof fn members_are(chart_of: Seq<u32>, c: u32, n: int)
    requires
        0 <= n <= chart_of.len(),
        chart_of.len() <= u32::MAX,
    ensures
        forall|f: u32| #[trigger]
            members(chart_of, c, n).contains(f) <==> f < n && chart_of[f as int] == c,
        forall|i: int|
            0 <= i < members(chart_of, c, n).len() ==> #[trigger] members(chart_of, c, n)[i] < n,
        members(chart_of, c, n).no_duplicates(),
    decreases n,
{
    if n > 0 {
        members_are(chart_of, c, n - 1);
        let rest = members(chart_of, c, n - 1);
        let all = members(chart_of, c, n);
        assert forall|f: u32| #[trigger] all.contains(f) <==> f < n && chart_of[f as int] == c by {
            if all.contains(f) {
                let i = all.index_of(f);
                if i < rest.len() {
                    assert(rest[i] == f);
                    assert(rest.contains(f));
                }
            }
            if rest.contains(f) {
                let i = rest.index_of(f);
                assert(all[i] == f);
            }
            if f == n - 1 && chart_of[n - 1] == c {
                assert(all[rest.len() as int] == f);
            }
        }
    }
}

/// Rebuilt charts are a partition.
pub proof fn rebuilt_is_partition(chart_of: Seq<u32>, all: Seq<Vec<u32>>)
    requires
        chart_of.len() <= u32::MAX,
        is_rebuilt(chart_of, all),
        all.len() <= u32::MAX,
        forall|f: int| 0 <= f < chart_of.len() ==> #[trigger] chart_of[f] < all.len(),
    ensures
        charts::is_partition(all, chart_of),
{
    assert forall|f: int| 0 <= f < chart_of.len() implies #[trigger] chart_of[f] < all.len()
        && all[chart_of[f] as int]@.contains(f as u32) by {
        let c = chart_of[f];
        assert(all[c as int]@ == members(chart_of, c, chart_of.len() as int));
        members_are(chart_of, c, chart_of.len() as int);
        assert(members(chart_of, c, chart_of.len() as int).contains(f as u32));
    }
    assert forall|c: int, i: int|
        #![trigger all[c]@[i]]
        0 <= c < all.len() && 0 <= i < all[c]@.len() implies all[c]@[i] < chart_of.len()
        && chart_of[all[c]@[i] as int] == c by {
        let m = members(chart_of, c as u32, chart_of.len() as int);
        assert(all[c]@ == m);
        members_are(chart_of, c as u32, chart_of.len() as int);
        assert(m.contains(m[i]));
    }
    assert forall|c: int| 0 <= c < all.len() implies (#[trigger] all[c])@.no_duplicates() by {
        assert(all[c]@ == members(chart_of, c as u32, chart_of.len() as int));
        members_are(chart_of, c as u32, chart_of.len() as int);
    }
}

proof fn with_faces_keeps(all: Seq<Seq<u32>>, c: int) -> (d: int)
    requires
        0 <= c < all.len(),
        all[c].len() > 0,
    ensures
        0 <= d < with_faces(all).len(),
        with_faces(all)[d] == all[c],
    decreases all.len(),
{
    if c == all.len() - 1 {
        with_faces(all).len() - 1
    } else {
        let d = with_faces_keeps(all.drop_last(), c);
        d
    }
}

/// Merging loses no face: every face is in one of the charts that are left.
pub proof fn merging_keeps_every_face(chart_of: Seq<u32>, all: Seq<Vec<u32>>, f: u32)
    requires
        charts::is_partition(all, chart_of),
        f < chart_of.len(),
    ensures
        exists|d: int|
            0 <= d < with_faces(lists(all)).len() && (#[trigger] with_faces(lists(
                all,
            ))[d]).contains(f),
{
    let c = chart_of[f as int] as int;
    assert(all[c]@.contains(f));
    let i = all[c]@.index_of(f);
    let d = with_faces_keeps(lists(all), c);
    assert(with_faces(lists(all))[d].contains(f));
}

/// Dropping empty charts keeps the others in order.
proof fn with_faces_sources(all: Seq<Seq<u32>>) -> (src: Seq<int>)
    ensures
        src.len() == with_faces(all).len(),
        forall|d: int|
            0 <= d < src.len() ==> 0 <= #[trigger] src[d] < all.len() && all[src[d]]
                == with_faces(all)[d],
        forall|d: int, e: int| #![trigger src[d], src[e]] 0 <= d < e < src.len() ==> src[d] < src[e],
    decreases all.len(),
{
    if all.len() == 0 {
        Seq::empty()
    } else {
        let before = with_faces_sources(all.drop_last());
        if all.last().len() > 0 {
            before.push(all.len() - 1)
        } else {
            before
        }
    }
}

/// After merging, every face is in exactly one chart, and no chart is empty.
pub proof fn merged_charts_are_a_partition(
    adj: Seq<[i64; 3]>,
    all: Seq<Vec<u32>>,
    chart_of: Seq<u32>,
    r: Seq<Vec<u32>>,
) -> (which: Seq<u32>)
    requires
        is_merged(adj, all, chart_of, r),
        adj.len() <= u32::MAX,
        r.len() <= u32::MAX,
    ensures
        which.len() == adj.len(),
        charts::is_partition(r, which),
        forall|c: int| 0 <= c < r.len() ==> (#[trigger] r[c])@.len() > 0,
{
    let (middle, second, last, rebuilt) = choose|
        middle: Seq<u32>,
        second: Seq<Vec<u32>>,
        last: Seq<u32>,
        rebuilt: Seq<Vec<u32>>,
    |
        {
            &&& #[trigger] round_leads_to(adj, all, chart_of, middle)
            &&& is_rebuilt(middle, second)
            &&& second.len() == all.len()
            &&& #[trigger] round_leads_to(adj, second, middle, last)
            &&& #[trigger] is_rebuilt(last, rebuilt)
            &&& charts::is_partition(rebuilt, last)
            &&& last.len() == adj.len()
            &&& lists(r) == with_faces(lists(rebuilt))
        };
    let ls = lists(rebuilt);
    let kept = with_faces(ls);
    let src = with_faces_sources(ls);
    assert forall|d: int| 0 <= d < r.len() implies (#[trigger] r[d])@ == rebuilt[src[d]]@ by {
        assert(lists(r)[d] == r[d]@);
        assert(ls[src[d]] == kept[d]);
    }
    let which = Seq::new(
        last.len(),
        |f: int| (choose|d: int| 0 <= d < kept.len() && (#[trigger] kept[d]).contains(f as u32)) as u32,
    );
    assert forall|f: int| 0 <= f < which.len() implies {
        &&& (#[trigger] which[f]) < r.len()
        &&& r[which[f] as int]@.contains(f as u32)
    } by {
        merging_keeps_every_face(last, rebuilt, f as u32);
        let d = choose|d: int| 0 <= d < kept.len() && (#[trigger] kept[d]).contains(f as u32);
        assert(which[f] == d as u32);
        assert(lists(r).len() == r.len());
        assert(lists(r)[d] == r[d]@);
    }
    assert forall|c: int, i: int|
        #![trigger r[c]@[i]]
        0 <= c < r.len() && 0 <= i < r[c]@.len() implies r[c]@[i] < which.len()
        && which[r[c]@[i] as int] == c by {
        let f = r[c]@[i];
        assert(rebuilt[src[c]]@[i] == f);
        assert(f < last.len());
        let d = which[f as int] as int;
        assert(r[d]@.contains(f));
        let j = r[d]@.index_of(f);
        assert(rebuilt[src[d]]@[j] == f);
        assert(src[c] == src[d]);
        if c < d {
            assert(src[c] < src[d]);
        } else if d < c {
            assert(src[d] < src[c]);
        }
    }
    assert forall|c: int| 0 <= c < r.len() implies (#[trigger] r[c])@.no_duplicates() && r[c]@.len()
        > 0 by {
        assert(r[c]@ == rebuilt[src[c]]@);
        assert(lists(r)[c] == r[c]@);
        with_faces_nonempty(ls, c);
    }
    which
}

proof fn with_faces_nonempty(all: Seq<Seq<u32>>, d: int)
    requires
        0 <= d < with_faces(all).len(),
    ensures
        with_faces(all)[d].len() > 0,
    decreases all.len(),
{
    if all.len() > 0 {
        let before = with_faces(all.drop_last());
        if d < before.len() {
            with_faces_nonempty(all.drop_last(), d);
        }
    }
}

proof fn votes_bound(adj: Seq<[i64; 3]>, chart: Seq<u32>, chart_of: Seq<u32>, ci: u32, c: u32, s: int)
    requires
        0 <= s,
    ensures
        votes_for(adj, chart, chart_of, ci, c, s) <= s,
    decreases s,
{
    if s > 0 {
        votes_bound(adj, chart, chart_of, ci, c, s - 1);
    }
}

/// Votes go to charts that some face is in.
proof fn votes_go_to_charts(
    adj: Seq<[i64; 3]>,
    chart: Seq<u32>,
    chart_of: Seq<u32>,
    ci: u32,
    c: u32,
    s: int,
)
    requires
        charts::adjacency_ok(adj),
        chart_of.len() == adj.len(),
        0 <= s <= 3 * chart.len(),
        forall|i: int| 0 <= i < chart.len() ==> #[trigger] chart[i] < adj.len(),
        votes_for(adj, chart, chart_of, ci, c, s) > 0,
    ensures
        c != ci,
        exists|f: int| 0 <= f < chart_of.len() && #[trigger] chart_of[f] == c,
    decreases s,
{
    if s > 0 {
        if voted_at(adj, chart, chart_of, ci, s - 1) == Some(c) {
            let t = (s - 1) / 3;
            let k = (s - 1) % 3;
            assert(chart[t] < adj.len());
            let nb = adj[chart[t] as int][k];
            assert(chart_of[nb as int] == c);
        } else {
            votes_go_to_charts(adj, chart, chart_of, ci, c, s - 1);
        }
    }
}

/// Pick the best chart for a speck.
fn pick_target(
    adj: &Vec<[i64; 3]>,
    chart: &Vec<u32>,
    chart_of: &Vec<u32>,
    sizes: &Vec<usize>,
    ci: u32,
) -> (r: Option<u32>)
    requires
        charts::adjacency_ok(adj@),
        chart_of@.len() == adj@.len(),
        3 * chart@.len() <= u32::MAX,
        forall|i: int| 0 <= i < chart@.len() ==> #[trigger] chart@[i] < adj@.len(),
        forall|f: int| 0 <= f < chart_of@.len() ==> #[trigger] chart_of@[f] < sizes@.len(),
    ensures
        match r {
            Some(t) => is_best(adj@, chart@, chart_of@, sizes@, ci, t) && t < sizes@.len(),
            None => forall|c: u32| #[trigger] votes(adj@, chart@, chart_of@, ci, c) == 0,
        },
{
    let mut tally: FxHashMap<u32, u32> = FxHashMap::default();
    let edges: usize = 3 * chart.len();
    for s in 0..edges
        invariant
            edges == 3 * chart@.len(),
            edges <= u32::MAX,
            charts::adjacency_ok(adj@),
            chart_of@.len() == adj@.len(),
            forall|i: int| 0 <= i < chart@.len() ==> #[trigger] chart@[i] < adj@.len(),
            forall|c: u32| #[trigger]
                tally@.contains_key(c) <==> votes_for(
                    adj@,
                    chart@,
                    chart_of@,
                    ci,
                    c,
                    s as int,
                ) > 0,
            forall|c: u32|
                tally@.contains_key(c) ==> #[trigger] tally@[c] == votes_for(
                    adj@,
                    chart@,
                    chart_of@,
                    ci,
                    c,
                    s as int,
                ),
    {
        let f: u32 = chart[s / 3];
        let nb: i64 = adj[f as usize][s % 3];
        if nb >= 0 {
            let oc: u32 = chart_of[nb as usize];
            if oc != ci {
                proof {
                    votes_bound(adj@, chart@, chart_of@, ci, oc, s as int);
                    assert(voted_at(adj@, chart@, chart_of@, ci, s as int) == Some(oc));
                }
                let n: u32 = match fx::votes_get(&tally, oc) {
                    Some(n) => n,
                    None => 0,
                };
                fx::votes_insert(&mut tally, oc, n + 1);
            }
        }
    }
    let entries = fx::votes_entries(&tally);
    let mut best: Option<(u32, u32)> = None;
    for i in 0..entries.len()
        invariant
            charts::adjacency_ok(adj@),
            chart_of@.len() == adj@.len(),
            edges == 3 * chart@.len(),
            forall|i: int| 0 <= i < chart@.len() ==> #[trigger] chart@[i] < adj@.len(),
            forall|f: int| 0 <= f < chart_of@.len() ==> #[trigger] chart_of@[f] < sizes@.len(),
            forall|c: u32| #[trigger]
                tally@.contains_key(c) <==> votes_for(
                    adj@,
                    chart@,
                    chart_of@,
                    ci,
                    c,
                    edges as int,
                ) > 0,
            forall|k: int|
                0 <= k < entries@.len() ==> tally@.contains_key((#[trigger] entries@[k]).0)
                    && tally@[entries@[k].0] == entries@[k].1,
            i > 0 ==> best is Some,
            best matches Some((c, n)) ==> {
                &&& tally@.contains_key(c)
                &&& tally@[c] == n
                &&& c < sizes@.len()
                &&& forall|k: int|
                    0 <= k < i ==> (#[trigger] entries@[k]).1 < n || (entries@[k].1 == n
                        && sizes@[entries@[k].0 as int] >= sizes@[c as int])
            },
    {
        let (c, n) = entries[i];
        proof {
            assert(tally@.contains_key(entries@[i as int].0));
            votes_go_to_charts(adj@, chart@, chart_of@, ci, c, edges as int);
        }
        let better: bool = match best {
            None => true,
            Some((b, m)) => n > m || (n == m && sizes[c as usize] <= sizes[b as usize]),
        };
        if better {
            best = Some((c, n));
        }
    }
    match best {
        None => {
            proof {
                assert forall|c: u32| #[trigger] votes(adj@, chart@, chart_of@, ci, c) == 0 by {
                    if votes(adj@, chart@, chart_of@, ci, c) > 0 {
                        assert(tally@.contains_key(c));
                        let i = choose|i: int| 0 <= i < entries@.len() && (#[trigger] entries@[i]).0
                            == c;
                    }
                }
            }
            None
        },
        Some((t, m)) => {
            proof {
                assert(votes(adj@, chart@, chart_of@, ci, t) == m);
                assert forall|c: u32|
                    {
                        let n = #[trigger] votes(adj@, chart@, chart_of@, ci, c);
                        n > 0 ==> n < m || (n == m && sizes@[c as int] >= sizes@[t as int])
                    } by {
                    if votes(adj@, chart@, chart_of@, ci, c) > 0 {
                        assert(tally@.contains_key(c));
                        let i = choose|i: int| 0 <= i < entries@.len() && (#[trigger] entries@[i]).0
                            == c;
                        assert(tally@[c] == entries@[i].1);
                    }
                }
            }
            Some(t)
        },
    }
}

/// Every listed face exists and every face is in one of `k` charts.
spec fn charts_ok(adj: Seq<[i64; 3]>, all: Seq<Vec<u32>>, chart_of: Seq<u32>) -> bool {
    &&& charts::adjacency_ok(adj)
    &&& all.len() <= adj.len()
    &&& chart_of.len() == adj.len()
    &&& forall|c: int, i: int|
        #![trigger all[c]@[i]]
        0 <= c < all.len() && 0 <= i < all[c]@.len() ==> all[c]@[i] < adj.len()
    &&& forall|f: int| 0 <= f < chart_of.len() ==> #[trigger] chart_of[f] < all.len()
}

/// One round of merging.
fn merge_round(adj: &Vec<[i64; 3]>, all: &Vec<Vec<u32>>, chart_of: &mut Vec<u32>)
    requires
        charts_ok(adj@, all@, old(chart_of)@),
    ensures
        charts_ok(adj@, all@, final(chart_of)@),
        round_leads_to(adj@, all@, old(chart_of)@, final(chart_of)@),
{
    let n: usize = adj.len();
    let bound: usize = if n / 20_000 > 16 {
        n / 20_000
    } else {
        16
    };
    let mut sizes: Vec<usize> = Vec::new();
    for c in 0..all.len()
        invariant
            sizes@.len() == c,
            forall|d: int| 0 <= d < c ==> #[trigger] sizes@[d] == all@[d]@.len(),
    {
        sizes.push(all[c].len());
    }
    assert(sizes@ =~= sizes_of(all@));
    let ghost mut states: Seq<Seq<u32>> = seq![chart_of@];
    for c in 0..all.len()
        invariant
            charts_ok(adj@, all@, chart_of@),
            n == adj@.len(),
            bound == speck_bound(n as int),
            sizes@ == sizes_of(all@),
            states.len() == c + 1,
            states[0] == old(chart_of)@,
            states.last() == chart_of@,
            forall|d: int|
                #![trigger all@[d]]
                0 <= d < c ==> is_merge(
                    adj@,
                    all@[d]@,
                    sizes@,
                    d as u32,
                    states[d],
                    states[d + 1],
                ),
    {
        let chart = &all[c];
        let ghost before = chart_of@;
        let ghost was = states;
        if chart.len() < bound && chart.len() > 0 {
            proof {
                assert forall|i: int| 0 <= i < chart@.len() implies #[trigger] chart@[i]
                    < adj@.len() by {
                    assert(all@[c as int]@[i] < adj@.len());
                }
            }
            match pick_target(adj, chart, chart_of, &sizes, c as u32) {
                Some(t) => {
                    for i in 0..chart.len()
                        invariant
                            charts_ok(adj@, all@, before),
                            n == adj@.len(),
                            c < all@.len(),
                            chart@ == all@[c as int]@,
                            t < all@.len(),
                            is_moved(before, chart_of@, chart@.take(i as int), t),
                    {
                        let ghost now = chart_of@;
                        let f: u32 = chart[i];
                        assert(all@[c as int]@[i as int] < adj@.len());
                        chart_of.set(f as usize, t);
                        proof {
                            let some = chart@.take(i as int);
                            let more = chart@.take(i + 1);
                            assert(more =~= some.push(f));
                            assert forall|g: u32| #[trigger] more.contains(g) <==> some.contains(g)
                                || g == f by {
                                if some.contains(g) {
                                    let k = some.index_of(g);
                                    assert(more[k] == g);
                                }
                                if g == f {
                                    assert(more[i as int] == g);
                                }
                            }
                        }
                    }
                    assert(chart@.take(chart@.len() as int) =~= chart@);
                    assert(is_best(adj@, chart@, before, sizes@, c as u32, t));
                },
                None => {},
            }
        } else {
            proof {
                if chart@.len() == 0 {
                    assert forall|d: u32| #[trigger] votes(adj@, chart@, before, c as u32, d)
                        == 0 by {}
                }
            }
        }
        proof {
            assert(is_merge(adj@, all@[c as int]@, sizes@, c as u32, before, chart_of@));
            states = states.push(chart_of@);
            assert forall|d: int|
                #![trigger all@[d]]
                0 <= d < c + 1 implies is_merge(
                adj@,
                all@[d]@,
                sizes@,
                d as u32,
                states[d],
                states[d + 1],
            ) by {
                if d < c {
                    assert(states[d] == was[d] && states[d + 1] == was[d + 1]);
                }
            }
        }
    }
    assert(is_round(adj@, all@, states));
}

/// List the faces of each of `count` charts, ascending.
pub fn rebuild(chart_of: &Vec<u32>, count: usize) -> (all: Vec<Vec<u32>>)
    requires
        chart_of@.len() <= u32::MAX,
        count <= u32::MAX,
        forall|f: int| 0 <= f < chart_of@.len() ==> #[trigger] chart_of@[f] < count,
    ensures
        all@.len() == count,
        is_rebuilt(chart_of@, all@),
{
    let mut all: Vec<Vec<u32>> = Vec::new();
    for c in 0..count
        invariant
            all@.len() == c,
            forall|d: int| 0 <= d < c ==> (#[trigger] all@[d])@.len() == 0,
    {
        all.push(Vec::new());
    }
    assert forall|c: int| 0 <= c < count implies (#[trigger] all@[c])@ == members(
        chart_of@,
        c as u32,
        0,
    ) by {
        assert(all@[c]@ =~= Seq::<u32>::empty());
    }
    for f in 0..chart_of.len()
        invariant
            chart_of@.len() <= u32::MAX,
            count <= u32::MAX,
            all@.len() == count,
            forall|f: int| 0 <= f < chart_of@.len() ==> #[trigger] chart_of@[f] < count,
            forall|c: int|
                0 <= c < count ==> (#[trigger] all@[c])@ == members(
                    chart_of@,
                    c as u32,
                    f as int,
                ),
    {
        let c: usize = chart_of[f] as usize;
        let ghost before = all@;
        all[c].push(f as u32);
        proof {
            assert forall|d: int| 0 <= d < count implies (#[trigger] all@[d])@ == members(
                chart_of@,
                d as u32,
                f + 1,
            ) by {
                assert(before[d]@ == members(chart_of@, d as u32, f as int));
            }
        }
    }
    all
}

/// `r` are the charts after two rounds of merging specks, without those that are left empty.
pub open spec fn is_merged(
    adj: Seq<[i64; 3]>,
    all: Seq<Vec<u32>>,
    chart_of: Seq<u32>,
    r: Seq<Vec<u32>>,
) -> bool {
    exists|middle: Seq<u32>, second: Seq<Vec<u32>>, last: Seq<u32>, rebuilt: Seq<Vec<u32>>|
        {
            &&& #[trigger] round_leads_to(adj, all, chart_of, middle)
            &&& is_rebuilt(middle, second)
            &&& second.len() == all.len()
            &&& #[trigger] round_leads_to(adj, second, middle, last)
            &&& #[trigger] is_rebuilt(last, rebuilt)
            &&& charts::is_partition(rebuilt, last)
            &&& last.len() == adj.len()
            &&& lists(r) == with_faces(lists(rebuilt))
        }
}

/// Merge specks into their neighbours, in two rounds, and drop the charts that are left
/// without faces.
pub fn merge_specks(adj: &Vec<[i64; 3]>, all: Vec<Vec<u32>>, chart_of: Vec<u32>) -> (r: Vec<Vec<u32>>)
    requires
        charts::adjacency_ok(adj@),
        chart_of@.len() == adj@.len(),
        all@.len() <= adj@.len(),
        charts::is_partition(all@, chart_of@),
    ensures
        is_merged(adj@, all@, chart_of@, r@),
        r@.len() <= all@.len(),
{
    let count: usize = all.len();
    let mut of: Vec<u32> = chart_of;
    merge_round(adj, &all, &mut of);
    let ghost middle = of@;
    let second = rebuild(&of, count);
    proof {
        rebuilt_is_partition(of@, second@);
    }
    merge_round(adj, &second, &mut of);
    let ghost last = of@;
    let rebuilt = rebuild(&of, count);
    proof {
        rebuilt_is_partition(of@, rebuilt@);
    }
    let ghost all_lists = lists(rebuilt@);
    let mut out: Vec<Vec<u32>> = Vec::new();
    assert(all_lists.take(0) =~= Seq::<Seq<u32>>::empty());
    assert(lists(out@) =~= with_faces(all_lists.take(0)));
    for c in 0..rebuilt.len()
        invariant
            all_lists == lists(rebuilt@),
            out@.len() <= c,
            lists(out@) == with_faces(all_lists.take(c as int)),
    {
        let ghost before = out@;
        assert(all_lists.take(c + 1).drop_last() =~= all_lists.take(c as int));
        assert(all_lists.take(c + 1).last() == rebuilt@[c as int]@);
        if rebuilt[c].len() > 0 {
            let list = rebuilt[c].clone();
            assert(list@ =~= rebuilt@[c as int]@);
            out.push(list);
            assert(lists(out@) =~= lists(before).push(list@));
        }
    }
    assert(all_lists.take(all_lists.len() as int) =~= all_lists);
    out
}

/// A chart is a speck if it has fewer than sixteen faces, or fewer than one in twenty thousand of
/// the mesh.
pub proof fn specks_are_small(n_faces: int, size: int)
    requires
        0 <= n_faces,
        0 <= size,
    ensures
        size < speck_bound(n_faces) <==> size < 16 || 20_000 * (size + 1) <= n_faces,
{
}

/// The sides of `chart` that have a face of chart `c` across them.
pub open spec fn sides_towards(
    adj: Seq<[i64; 3]>,
    chart: Seq<u32>,
    chart_of: Seq<u32>,
    c: u32,
    n: int,
) -> Set<int> {
    Set::new(
        |s: int|
            0 <= s < n && adj[chart[s / 3] as int][s % 3] >= 0 && chart_of[adj[chart[s
                / 3] as int][s % 3] as int] == c,
    )
}

/// The votes for another chart count the sides that lead to it.
pub proof fn votes_count_sides(
    adj: Seq<[i64; 3]>,
    chart: Seq<u32>,
    chart_of: Seq<u32>,
    ci: u32,
    c: u32,
    n: int,
)
    requires
        0 <= n,
        c != ci,
    ensures
        sides_towards(adj, chart, chart_of, c, n).finite(),
        sides_towards(adj, chart, chart_of, c, n).len() == votes_for(adj, chart, chart_of, ci, c, n),
    decreases n,
{
    if n > 0 {
        votes_count_sides(adj, chart, chart_of, ci, c, n - 1);
        let before = sides_towards(adj, chart, chart_of, c, n - 1);
        let s = n - 1;
        if adj[chart[s / 3] as int][s % 3] >= 0 && chart_of[adj[chart[s / 3] as int][s % 3] as int]
            == c {
            assert(sides_towards(adj, chart, chart_of, c, n) =~= before.insert(s));
        } else {
            assert(sides_towards(adj, chart, chart_of, c, n) =~= before);
        }
    } else {
        assert(sides_towards(adj, chart, chart_of, c, n) =~= Set::empty());
    }
}

/// A chart has no votes for itself.
proof fn no_votes_for_itself(
    adj: Seq<[i64; 3]>,
    chart: Seq<u32>,
    chart_of: Seq<u32>,
    ci: u32,
    n: int,
)
    ensures
        votes_for(adj, chart, chart_of, ci, ci, n) == 0,
    decreases n,
{
    if n > 0 {
        no_votes_for_itself(adj, chart, chart_of, ci, n - 1);
    }
}

/// A speck joins the neighbour that it has most sides with, as a whole, and the smaller of two that
/// it has as many with; every other face stays where it is. A chart that is no speck, and one without
/// neighbours, stays.
pub proof fn specks_join_the_longest_border(
    adj: Seq<[i64; 3]>,
    chart: Seq<u32>,
    sizes: Seq<usize>,
    ci: u32,
    before: Seq<u32>,
    after: Seq<u32>,
    c: u32,
) -> (t: u32)
    requires
        is_merge(adj, chart, sizes, ci, before, after),
        c != ci,
        sides_towards(adj, chart, before, c, 3 * chart.len() as int).len() > 0,
    ensures
        after.len() == before.len(),
        chart.len() < 16 || 20_000 * (chart.len() + 1) <= adj.len() ==> {
            let n = 3 * chart.len() as int;
            &&& t != ci
            &&& sides_towards(adj, chart, before, t, n).len() >= sides_towards(
                adj,
                chart,
                before,
                c,
                n,
            ).len()
            &&& sides_towards(adj, chart, before, t, n).len() == sides_towards(
                adj,
                chart,
                before,
                c,
                n,
            ).len() ==> sizes[t as int] <= sizes[c as int]
            &&& forall|f: int|
                0 <= f < before.len() ==> #[trigger] after[f] == (if chart.contains(f as u32) {
                    t
                } else {
                    before[f]
                })
        },
        !(chart.len() < 16 || 20_000 * (chart.len() + 1) <= adj.len()) ==> after == before,
{
    let n = 3 * chart.len() as int;
    specks_are_small(adj.len() as int, chart.len() as int);
    votes_count_sides(adj, chart, before, ci, c, n);
    assert(votes(adj, chart, before, ci, c) > 0);
    if chart.len() < speck_bound(adj.len() as int) {
        let t = choose|t: u32|
            #[trigger] is_best(adj, chart, before, sizes, ci, t) && is_moved(
                before,
                after,
                chart,
                t,
            );
        no_votes_for_itself(adj, chart, before, ci, n);
        assert(t != ci);
        votes_count_sides(adj, chart, before, ci, t, n);
        assert(votes(adj, chart, before, ci, t) >= votes(adj, chart, before, ci, c));
        t
    } else {
        ci
    }
}

} // verus!
