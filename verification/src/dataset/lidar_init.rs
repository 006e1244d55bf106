//! Seeds from depth maps: confident samples, one per occupied cell.

use crate::dataset::load_depth::DepthData;
use crate::float::F32;
use vstd::prelude::*;

verus! {

/// The sample is used as a seed: it is confident enough, has a return, and is not too far.
pub open spec fn is_seed(depth: F32, conf: u8, min_conf: u8, max_dist: F32) -> bool {
    &&& conf >= min_conf
    &&& depth.finite()
    &&& depth.positive()
    &&& !max_dist.spec_lt(depth)
}

/// The samples before `n` that are used as seeds.
pub open spec fn seeds(d: &DepthData, min_conf: u8, max_dist: F32, n: int) -> Seq<usize>
    decreases n,
{
    if n <= 0 {
        Seq::empty()
    } else if is_seed(d.depth@[n - 1], d.conf@[n - 1], min_conf, max_dist) {
        seeds(d, min_conf, max_dist, n - 1).push((n - 1) as usize)
    } else {
        seeds(d, min_conf, max_dist, n - 1)
    }
}

/// The samples of a depth map that are used as seeds.
pub fn select_seeds(d: &DepthData, min_conf: u8, max_dist: F32) -> (r: Vec<usize>)
    requires
        d.depth@.len() == d.conf@.len(),
    ensures
        r@ == seeds(d, min_conf, max_dist, d.depth@.len() as int),
{
    let mut r: Vec<usize> = Vec::new();
    for j in 0..d.depth.len()
        invariant
            d.depth@.len() == d.conf@.len(),
            r@ == seeds(d, min_conf, max_dist, j as int),
    {
        let z = d.depth[j];
        if d.conf[j] >= min_conf && z.is_finite() && z.is_positive() && !max_dist.lt(z) {
            r.push(j);
        }
    }
    r
}

/// `hashbrown::HashMap` from a cell to the first sample in it.
#[verifier::external_body]
pub struct CellIndex {
    map: hashbrown::HashMap<(i64, i64, i64), usize>,
}

/// What a [`CellIndex`] holds.
pub uninterp spec fn cell_index_contents(m: CellIndex) -> Map<(i64, i64, i64), usize>;

/// Calls `hashbrown::HashMap::new`: the map starts out empty.
#[verifier::external_body]
fn cell_index_new() -> (m: CellIndex)
    ensures
        cell_index_contents(m) == (Map::<(i64, i64, i64), usize>::empty()),
{
    CellIndex { map: hashbrown::HashMap::new() }
}

/// Calls `hashbrown::hash_map::Entry::or_insert`: `key` gets `value` if it had none; else
/// nothing changes.
#[verifier::external_body]
fn cell_index_or_insert(m: &mut CellIndex, key: (i64, i64, i64), value: usize)
    ensures
        cell_index_contents(*final(m)) == (if cell_index_contents(*old(m)).contains_key(key) {
            cell_index_contents(*old(m))
        } else {
            cell_index_contents(*old(m)).insert(key, value)
        }),
{
    m.map.entry(key).or_insert(value);
}

/// Calls `hashbrown::HashMap::into_iter`: every key with its value, once each. Nothing is
/// claimed of their order.
#[verifier::external_body]
fn cell_index_into_entries(m: CellIndex) -> (r: Vec<((i64, i64, i64), usize)>)
    ensures
        forall|i: int|
            0 <= i < r@.len() ==> cell_index_contents(m).contains_key((#[trigger] r@[i]).0)
                && cell_index_contents(m)[r@[i].0] == r@[i].1,
        forall|k: (i64, i64, i64)| #[trigger]
            cell_index_contents(m).contains_key(k) ==> r@.contains((k, cell_index_contents(m)[k])),
        forall|i: int, j: int|
            #![trigger r@[i], r@[j]]
            0 <= i < j < r@.len() ==> r@[i].0 != r@[j].0,
{
    m.map.into_iter().collect()
}

/// Sample `i` is the first one in its cell.
pub open spec fn is_first_in_cell(cells: Seq<(i64, i64, i64)>, i: int) -> bool {
    0 <= i < cells.len() && forall|j: int| 0 <= j < i ==> #[trigger] cells[j] != cells[i]
}

/// The map holds the first of the first `n` samples in each cell.
spec fn holds_firsts(m: Map<(i64, i64, i64), usize>, cells: Seq<(i64, i64, i64)>, n: int) -> bool {
    &&& forall|k: (i64, i64, i64)| #[trigger]
        m.contains_key(k) ==> m[k] < n && cells[m[k] as int] == k && is_first_in_cell(
            cells,
            m[k] as int,
        )
    &&& forall|i: int| 0 <= i < n ==> m.contains_key(#[trigger] cells[i])
}

/// Keep one sample per cell: the first one in it. The result is in no particular order.
pub fn first_per_cell(cells: &Vec<(i64, i64, i64)>) -> (r: Vec<usize>)
    ensures
        forall|k: int| 0 <= k < r@.len() ==> is_first_in_cell(cells@, #[trigger] r@[k] as int),
        forall|i: int| #[trigger] is_first_in_cell(cells@, i) ==> r@.contains(i as usize),
        r@.no_duplicates(),
{
    let mut m = cell_index_new();
    for i in 0..cells.len()
        invariant
            holds_firsts(cell_index_contents(m), cells@, i as int),
    {
        let ghost before = cell_index_contents(m);
        let key = cells[i];
        cell_index_or_insert(&mut m, key, i);
        proof {
            let after = cell_index_contents(m);
            if !before.contains_key(key) {
                assert forall|j: int| 0 <= j < i implies #[trigger] cells@[j] != cells@[i as int] by {
                    assert(before.contains_key(cells@[j]));
                }
                assert(is_first_in_cell(cells@, i as int));
                assert forall|j: int| 0 <= j < i + 1 implies after.contains_key(
                    #[trigger] cells@[j],
                ) by {
                    if j < i {
                        assert(before.contains_key(cells@[j]));
                    }
                }
            }
        }
    }
    let ghost c = cell_index_contents(m);
    let entries = cell_index_into_entries(m);
    let mut r: Vec<usize> = Vec::new();
    for k in 0..entries.len()
        invariant
            r@.len() == k,
            forall|j: int| 0 <= j < k ==> #[trigger] r@[j] == entries@[j].1,
    {
        r.push(entries[k].1);
    }
    proof {
        assert forall|k: int| 0 <= k < r@.len() implies is_first_in_cell(
            cells@,
            #[trigger] r@[k] as int,
        ) by {
            assert(c.contains_key(entries@[k].0));
        }
        assert forall|i: int| #[trigger] is_first_in_cell(cells@, i) implies r@.contains(
            i as usize,
        ) by {
            let key = cells@[i];
            assert(c.contains_key(key));
            let j = c[key] as int;
            assert(is_first_in_cell(cells@, j));
            if i < j {
                assert(cells@[i] != cells@[j]);
            }
            if j < i {
                assert(cells@[j] != cells@[i]);
            }
            let e = entries@.index_of((key, c[key]));
            assert(entries@.contains((key, c[key])));
            assert(r@[e] == i as usize);
        }
        assert forall|a: int, b: int| 0 <= a < r@.len() && 0 <= b < r@.len() && a
            != b implies r@[a] != r@[b] by {
            assert(r@[a] == entries@[a].1 && r@[b] == entries@[b].1);
            assert(c.contains_key(entries@[a].0) && c.contains_key(entries@[b].0));
            assert(cells@[r@[a] as int] == entries@[a].0);
            assert(cells@[r@[b] as int] == entries@[b].0);
            if a < b {
                assert(entries@[a].0 != entries@[b].0);
            } else {
                assert(entries@[b].0 != entries@[a].0);
            }
        }
    }
    r
}

/// Every sample has the sample that is kept for its cell.
pub proof fn every_cell_is_seeded(cells: Seq<(i64, i64, i64)>, i: int) -> (first: int)
    requires
        0 <= i < cells.len(),
    ensures
        is_first_in_cell(cells, first),
        cells[first] == cells[i],
        first <= i,
    decreases i,
{
    if is_first_in_cell(cells, i) {
        i
    } else {
        let j = choose|j: int| 0 <= j < i && #[trigger] cells[j] == cells[i];
        every_cell_is_seeded(cells, j)
    }
}

/// The seeds of a depth map are its samples that are confident enough, have a depth above zero that
/// is a number, and are not farther than the bound, each once and in order.
pub proof fn seeds_are_the_sure_samples(d: &DepthData, min_conf: u8, max_dist: F32, n: int)
    requires
        0 <= n <= d.depth@.len(),
        n <= usize::MAX,
        !max_dist.nan(),
    ensures
        forall|i: usize| #[trigger]
            seeds(d, min_conf, max_dist, n).contains(i) <==> i < n && d.conf@[i as int] >= min_conf
                && 0 < d.depth@[i as int].bits < 0x7f80_0000 && d.depth@[i as int].rank()
                <= max_dist.rank(),
        forall|a: int, b: int|
            #![trigger seeds(d, min_conf, max_dist, n)[a], seeds(d, min_conf, max_dist, n)[b]]
            0 <= a < b < seeds(d, min_conf, max_dist, n).len() ==> seeds(
                d,
                min_conf,
                max_dist,
                n,
            )[a] < seeds(d, min_conf, max_dist, n)[b],
    decreases n,
{
    if n > 0 {
        seeds_are_the_sure_samples(d, min_conf, max_dist, n - 1);
        let before = seeds(d, min_conf, max_dist, n - 1);
        let all = seeds(d, min_conf, max_dist, n);
        assert forall|a: int| 0 <= a < before.len() implies #[trigger] before[a] < n - 1 by {
            assert(before.contains(before[a]));
        }
        assert forall|i: usize| #[trigger] all.contains(i) <==> i < n && d.conf@[i as int]
            >= min_conf && 0 < d.depth@[i as int].bits < 0x7f80_0000 && d.depth@[i as int].rank()
            <= max_dist.rank() by {
            if is_seed(d.depth@[n - 1], d.conf@[n - 1], min_conf, max_dist) {
                if i == n - 1 {
                    assert(all[before.len() as int] == i);
                } else {
                    if before.contains(i) {
                        let a = before.index_of(i);
                        assert(all[a] == i);
                    }
                    if all.contains(i) {
                        let a = all.index_of(i);
                        assert(before[a] == i);
                    }
                }
            }
        }
    }
}

} // verus!
