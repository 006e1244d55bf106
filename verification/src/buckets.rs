//! Grouping of items by bucket: count, prefix sum, scatter.
//!
//! Vertices go to the image tile they project to, and texel samples to the atlas texel they
//! cover. Ids at or above the number of buckets mean "in no bucket".

use vstd::prelude::*;

verus! {

/// Items by bucket: those of bucket `t` are `order[offsets[t]..offsets[t + 1]]`.
pub struct Buckets {
    pub offsets: Vec<usize>,
    pub order: Vec<usize>,
}

/// The number of the first `n` ids that are `t`.
pub open spec fn count_of(ids: Seq<u32>, t: int, n: int) -> nat
    decreases n,
{
    if n <= 0 {
        0
    } else if ids[n - 1] == t {
        count_of(ids, t, n - 1) + 1
    } else {
        count_of(ids, t, n - 1)
    }
}

/// The number of the first `n` ids that are below `t`.
pub open spec fn count_below(ids: Seq<u32>, t: int, n: int) -> nat
    decreases t,
{
    if t <= 0 {
        0
    } else {
        count_below(ids, t - 1, n) + count_of(ids, t - 1, n)
    }
}

impl Buckets {
    /// Item `p` of the order lies in bucket `t`.
    pub open spec fn holds(&self, t: int, p: int) -> bool {
        self.offsets@[t] <= p < self.offsets@[t + 1]
    }

    /// The items of each bucket are exactly those with its id, in order, and items in no
    /// bucket are left out.
    pub open spec fn groups(&self, ids: Seq<u32>, n: int) -> bool {
        &&& self.offsets@.len() == n + 1
        &&& self.offsets@[0] == 0
        &&& self.offsets@[n] == self.order@.len()
        &&& forall|t: int| 0 <= t <= n ==> #[trigger] self.offsets@[t] == count_below(
            ids,
            t,
            ids.len() as int,
        )
        &&& forall|t: int, p: int|
            0 <= t < n && #[trigger] self.holds(t, p) ==> {
                &&& self.order@[p] < ids.len()
                &&& ids[self.order@[p] as int] == t
                &&& p == self.offsets@[t] + count_of(ids, t, self.order@[p] as int)
            }
        &&& forall|i: int|
            0 <= i < ids.len() && #[trigger] ids[i] < n ==> {
                let p = self.offsets@[ids[i] as int] + count_of(ids, ids[i] as int, i);
                self.holds(ids[i] as int, p) && self.order@[p] == i
            }
    }
}

proof fn count_of_grows(ids: Seq<u32>, t: int, a: int, b: int)
    requires
        0 <= a <= b <= ids.len(),
    ensures
        count_of(ids, t, a) <= count_of(ids, t, b) <= count_of(ids, t, a) + (b - a),
    decreases b,
{
    if a < b {
        count_of_grows(ids, t, a, b - 1);
    }
}

/// An item has its own place among those with its id.
proof fn count_of_place(ids: Seq<u32>, i: int)
    requires
        0 <= i < ids.len(),
    ensures
        count_of(ids, ids[i] as int, i) < count_of(ids, ids[i] as int, ids.len() as int),
{
    count_of_grows(ids, ids[i] as int, i + 1, ids.len() as int);
}

proof fn count_below_grows(ids: Seq<u32>, s: int, t: int, n: int)
    requires
        0 <= s <= t,
    ensures
        count_below(ids, s, n) <= count_below(ids, t, n),
    decreases t,
{
    if s < t {
        count_below_grows(ids, s, t - 1, n);
    }
}

/// One more item adds one to the buckets above its own.
proof fn count_below_step(ids: Seq<u32>, t: int, n: int)
    requires
        0 < n <= ids.len(),
        0 <= t,
    ensures
        count_below(ids, t, n) == count_below(ids, t, n - 1) + (if ids[n - 1] < t {
            1nat
        } else {
            0nat
        }),
    decreases t,
{
    if t > 0 {
        count_below_step(ids, t - 1, n);
    }
}

proof fn count_below_bound(ids: Seq<u32>, t: int, n: int)
    requires
        0 <= n <= ids.len(),
        0 <= t,
    ensures
        count_below(ids, t, n) <= n,
    decreases n,
{
    if n > 0 {
        count_below_bound(ids, t, n - 1);
        count_below_step(ids, t, n);
    } else {
        count_below_none(ids, t);
    }
}

proof fn count_below_none(ids: Seq<u32>, t: int)
    requires
        0 <= t,
    ensures
        count_below(ids, t, 0) == 0,
    decreases t,
{
    if t > 0 {
        count_below_none(ids, t - 1);
    }
}

/// The place of an item of bucket `t` lies between the offsets of `t`.
proof fn place_in_bucket(ids: Seq<u32>, n: int, i: int)
    requires
        0 <= i < ids.len(),
        ids[i] < n,
    ensures
        count_below(ids, ids[i] as int, ids.len() as int) + count_of(ids, ids[i] as int, i)
            < count_below(ids, ids[i] + 1, ids.len() as int),
        count_below(ids, ids[i] + 1, ids.len() as int) <= count_below(ids, n, ids.len() as int),
{
    count_of_place(ids, i);
    count_below_grows(ids, ids[i] + 1, n, ids.len() as int);
}

/// Count the ids, and sum the counts up to where each bucket starts.
fn offsets_of(ids: &Vec<u32>, n: usize) -> (offsets: Vec<usize>)
    requires
        n < usize::MAX,
    ensures
        offsets@.len() == n + 1,
        forall|t: int|
            0 <= t <= n ==> #[trigger] offsets@[t] == count_below(ids@, t, ids@.len() as int),
{
    let mut counts: Vec<usize> = Vec::new();
    for t in 0..n
        invariant
            counts@.len() == t,
            forall|k: int| 0 <= k < t ==> #[trigger] counts@[k] == 0,
    {
        counts.push(0);
    }
    for i in 0..ids.len()
        invariant
            counts@.len() == n,
            forall|t: int| 0 <= t < n ==> #[trigger] counts@[t] == count_of(ids@, t, i as int),
    {
        let t: u32 = ids[i];
        if (t as usize) < n {
            proof {
                count_of_grows(ids@, t as int, 0, i as int);
            }
            counts.set(t as usize, counts[t as usize] + 1);
        }
    }
    let mut offsets: Vec<usize> = Vec::new();
    let mut sum: usize = 0;
    offsets.push(0);
    for t in 0..n
        invariant
            counts@.len() == n,
            offsets@.len() == t + 1,
            sum == count_below(ids@, t as int, ids@.len() as int),
            forall|k: int|
                0 <= k < n ==> #[trigger] counts@[k] == count_of(ids@, k, ids@.len() as int),
            forall|k: int|
                0 <= k <= t ==> #[trigger] offsets@[k] == count_below(ids@, k, ids@.len() as int),
    {
        proof {
            count_below_bound(ids@, t + 1, ids@.len() as int);
        }
        assert(ids.len() <= usize::MAX);
        sum = sum + counts[t];
        offsets.push(sum);
    }
    offsets
}

/// Group items by bucket.
pub fn bucket(ids: &Vec<u32>, n: usize) -> (r: Buckets)
    requires
        n < usize::MAX,
    ensures
        r.groups(ids@, n as int),
{
    let offsets = offsets_of(ids, n);
    let total: usize = offsets[n];
    let ghost len = ids@.len() as int;
    let mut order: Vec<usize> = Vec::new();
    for k in 0..total
        invariant
            order@.len() == k,
    {
        order.push(0);
    }
    let mut next: Vec<usize> = Vec::new();
    for t in 0..n
        invariant
            offsets@.len() == n + 1,
            next@.len() == t,
            forall|k: int| 0 <= k < t ==> #[trigger] next@[k] == offsets@[k],
    {
        next.push(offsets[t]);
    }
    for i in 0..ids.len()
        invariant
            len == ids@.len(),
            offsets@.len() == n + 1,
            forall|t: int| 0 <= t <= n ==> #[trigger] offsets@[t] == count_below(ids@, t, len),
            next@.len() == n,
            order@.len() == total,
            total == offsets@[n as int],
            forall|t: int|
                0 <= t < n ==> #[trigger] next@[t] == offsets@[t] + count_of(ids@, t, i as int),
            forall|j: int|
                0 <= j < i && #[trigger] ids@[j] < n ==> order@[offsets@[ids@[j] as int] + count_of(
                    ids@,
                    ids@[j] as int,
                    j,
                )] == j,
    {
        let t: u32 = ids[i];
        if (t as usize) < n {
            let ghost before = order@;
            proof {
                place_in_bucket(ids@, n as int, i as int);
            }
            let p: usize = next[t as usize];
            order.set(p, i);
            next.set(t as usize, p + 1);
            proof {
                assert forall|j: int| 0 <= j < i + 1 && #[trigger] ids@[j] < n implies order@[
                offsets@[ids@[j] as int] + count_of(ids@, ids@[j] as int, j)] == j by {
                    if j < i {
                        place_in_bucket(ids@, n as int, j);
                        places_differ(ids@, j, i as int);
                    }
                }
            }
        }
    }
    let r = Buckets { offsets, order };
    proof {
        assert forall|i: int| 0 <= i < len && #[trigger] ids@[i] < n implies {
            let p = r.offsets@[ids@[i] as int] + count_of(ids@, ids@[i] as int, i);
            r.holds(ids@[i] as int, p) && r.order@[p] == i
        } by {
            place_in_bucket(ids@, n as int, i);
        }
        assert forall|t: int, p: int| 0 <= t < n && #[trigger] r.holds(t, p) implies {
            &&& r.order@[p] < len
            &&& ids@[r.order@[p] as int] == t
            &&& p == r.offsets@[t] + count_of(ids@, t, r.order@[p] as int)
        } by {
            let i = item_at(ids@, t, p - r.offsets@[t], len);
            assert(ids@[i] == t);
            assert(r.order@[r.offsets@[t] + count_of(ids@, t, i)] == i);
        }
    }
    r
}

/// Two items have different places.
proof fn places_differ(ids: Seq<u32>, j: int, i: int)
    requires
        0 <= j < i < ids.len(),
    ensures
        count_below(ids, ids[j] as int, ids.len() as int) + count_of(ids, ids[j] as int, j)
            != count_below(ids, ids[i] as int, ids.len() as int) + count_of(ids, ids[i] as int, i),
{
    let len = ids.len() as int;
    let (s, t) = (ids[j] as int, ids[i] as int);
    if s == t {
        count_of_grows(ids, s, j + 1, i);
    } else if s < t {
        count_of_place(ids, j);
        count_below_grows(ids, s + 1, t, len);
    } else {
        count_of_place(ids, i);
        count_below_grows(ids, t + 1, s, len);
    }
}

/// Each place of a bucket belongs to an item.
proof fn item_at(ids: Seq<u32>, t: int, k: int, n: int) -> (i: int)
    requires
        0 <= n <= ids.len(),
        0 <= k < count_of(ids, t, n),
    ensures
        0 <= i < n,
        ids[i] == t,
        count_of(ids, t, i) == k,
    decreases n,
{
    if k < count_of(ids, t, n - 1) {
        item_at(ids, t, k, n - 1)
    } else {
        n - 1
    }
}

/// The first `n` items with id `t`.
pub open spec fn members_of(ids: Seq<u32>, t: int, n: int) -> Seq<usize>
    decreases n,
{
    if n <= 0 {
        Seq::empty()
    } else if ids[n - 1] == t {
        members_of(ids, t, n - 1).push((n - 1) as usize)
    } else {
        members_of(ids, t, n - 1)
    }
}

/// An item is in its bucket at the place that counts the items of the bucket before it.
pub proof fn members_by_place(ids: Seq<u32>, t: int, n: int)
    requires
        0 <= n <= ids.len(),
        n <= usize::MAX,
    ensures
        members_of(ids, t, n).len() == count_of(ids, t, n),
        forall|k: int|
            0 <= k < members_of(ids, t, n).len() ==> {
                let i = #[trigger] members_of(ids, t, n)[k];
                i < n && ids[i as int] == t && count_of(ids, t, i as int) == k
            },
        forall|i: int|
            0 <= i < n && ids[i] == t ==> {
                let k = #[trigger] count_of(ids, t, i) as int;
                k < members_of(ids, t, n).len() && members_of(ids, t, n)[k] == i
            },
    decreases n,
{
    if n > 0 {
        members_by_place(ids, t, n - 1);
    }
}

/// Items with one id are told apart by how many come before them.
proof fn item_is_unique(ids: Seq<u32>, t: int, i: int, j: int)
    requires
        0 <= i < ids.len(),
        0 <= j < ids.len(),
        ids[i] == t,
        ids[j] == t,
        count_of(ids, t, i) == count_of(ids, t, j),
    ensures
        i == j,
{
    if i < j {
        count_of_grows(ids, t, i + 1, j);
    } else if j < i {
        count_of_grows(ids, t, j + 1, i);
    }
}

impl Buckets {
    /// The items of bucket `t`.
    pub fn members(&self, ids: &Vec<u32>, n: usize, t: usize) -> (r: Vec<usize>)
        requires
            self.groups(ids@, n as int),
            t < n,
        ensures
            r@ == members_of(ids@, t as int, ids@.len() as int),
    {
        let from: usize = self.offsets[t];
        let to: usize = self.offsets[t + 1];
        proof {
            count_below_grows(ids@, t + 1, n as int, ids@.len() as int);
            assert(self.offsets@[t + 1] <= self.offsets@[n as int]);
            assert(from <= to);
        }
        let mut r: Vec<usize> = Vec::new();
        for p in from..to
            invariant
                from <= to <= self.order@.len(),
                r@ =~= self.order@.subrange(from as int, p as int),
        {
            r.push(self.order[p]);
        }
        proof {
            let all = members_of(ids@, t as int, ids@.len() as int);
            assert(ids.len() <= usize::MAX);
            members_by_place(ids@, t as int, ids@.len() as int);
            assert(r@.len() == all.len());
            assert forall|k: int| 0 <= k < r@.len() implies r@[k] == all[k] by {
                assert(self.holds(t as int, from + k));
                item_is_unique(ids@, t as int, r@[k] as int, all[k] as int);
            }
            assert(r@ =~= all);
        }
        r
    }
}

/// The pixel at `(x, y)` belongs to tile `ty * tiles_across + tx`.
pub open spec fn tile(x: int, y: int, tile_width: int, tiles_across: int) -> int {
    (y / tile_width) * tiles_across + x / tile_width
}

/// The tile of a vertex that projects to pixel `(x, y)`; the number of tiles, which is no
/// tile, for one that is not on the image.
pub fn tile_id(
    pixel: Option<(u32, u32)>,
    tile_width: u32,
    tiles_across: u32,
    tiles_down: u32,
) -> (r: u32)
    requires
        tile_width > 0,
        tiles_across * tiles_down <= u32::MAX,
        pixel matches Some((x, y)) ==> x < tile_width * tiles_across && y < tile_width * tiles_down,
    ensures
        match pixel {
            Some((x, y)) => r < tiles_across * tiles_down && r == tile(
                x as int,
                y as int,
                tile_width as int,
                tiles_across as int,
            ),
            None => r == tiles_across * tiles_down,
        },
{
    match pixel {
        None => tiles_across * tiles_down,
        Some((x, y)) => {
            let tx: u32 = x / tile_width;
            let ty: u32 = y / tile_width;
            proof {
                let (w, a, d) = (tile_width as int, tiles_across as int, tiles_down as int);
                let (xx, yy) = (x as int, y as int);
                assert(xx / w < a) by (nonlinear_arith)
                    requires
                        0 <= xx < w * a,
                        w > 0,
                ;
                assert(yy / w < d) by (nonlinear_arith)
                    requires
                        0 <= yy < w * d,
                        w > 0,
                ;
                let (u, v) = (xx / w, yy / w);
                assert(0 <= v * a && v * a + u < a * d) by (nonlinear_arith)
                    requires
                        0 <= u < a,
                        0 <= v < d,
                ;
            }
            ty * tiles_across + tx
        },
    }
}

/// The members of a bucket are the items with its id, each once and in order.
pub proof fn members_have_the_id(ids: Seq<u32>, t: int, n: int)
    requires
        0 <= n <= ids.len(),
        n <= usize::MAX,
    ensures
        forall|i: usize| #[trigger]
            members_of(ids, t, n).contains(i) <==> i < n && ids[i as int] == t,
        forall|a: int, b: int|
            0 <= a < b < members_of(ids, t, n).len() ==> members_of(ids, t, n)[a] < members_of(
                ids,
                t,
                n,
            )[b],
    decreases n,
{
    if n > 0 {
        members_have_the_id(ids, t, n - 1);
        let before = members_of(ids, t, n - 1);
        let all = members_of(ids, t, n);
        assert forall|a: int| 0 <= a < before.len() implies #[trigger] before[a] < n - 1 by {
            assert(before.contains(before[a]));
        }
        assert forall|i: usize| #[trigger] all.contains(i) <==> i < n && ids[i as int] == t by {
            if ids[n - 1] == t {
                if i == n - 1 {
                    assert(all[before.len() as int] == i);
                } else {
                    if before.contains(i) {
                        let a = before.index_of(i);
                        assert(all[a] == i);
                    }
                    if all.contains(i) {
                        let a = all.index_of(i);
                        assert(before[a] == i);
                    }
                }
            }
        }
    }
}

} // verus!
