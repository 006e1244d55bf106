//! Feeding views to the trainer: the order of visits and the cache of prepared views.

use rand::rngs::StdRng;
use rand::seq::SliceRandom;
use rand::SeedableRng;
use std::sync::Arc;
use vstd::prelude::*;

verus! {

/// Bytes that prepared views may take up.
pub const CACHE_BUDGET_BYTES: u64 = 6442450944;

/// Loader tasks per worker.
pub const TASKS_PER_ACTOR: usize = 2;

/// Depth and confidence of a prepared view, as raw bytes.
pub struct DepthSample {
    pub depth: Vec<u8>,
    pub conf: Vec<u8>,
}

/// A prepared view: the packed image and, if there is one, its depth.
pub struct CachedView {
    pub img_packed: Vec<u8>,
    pub has_alpha: bool,
    pub depth: Option<DepthSample>,
}

impl CachedView {
    /// The bytes of the view.
    pub open spec fn size(&self) -> int {
        self.img_packed@.len() + match self.depth {
            Some(d) => (d.depth@.len() + d.conf@.len()) as int,
            None => 0int,
        }
    }

    /// The bytes of the view.
    pub fn size_bytes(&self) -> (r: u128)
        ensures
            r == self.size(),
            r <= 3 * u64::MAX,
    {
        let depth_bytes: u128 = match &self.depth {
            Some(d) => d.depth.len() as u128 + d.conf.len() as u128,
            None => 0,
        };
        self.img_packed.len() as u128 + depth_bytes
    }
}

/// The bytes of the first `n` slots.
pub open spec fn cached_bytes(slots: Seq<Option<Arc<CachedView>>>, n: int) -> int
    decreases n,
{
    if n <= 0 {
        0
    } else {
        cached_bytes(slots, n - 1) + match slots[n - 1] {
            Some(v) => v.size(),
            None => 0,
        }
    }
}

proof fn cached_bytes_update(
    slots: Seq<Option<Arc<CachedView>>>,
    index: int,
    view: Arc<CachedView>,
    n: int,
)
    requires
        0 <= index < slots.len(),
        0 <= n <= slots.len(),
        slots[index] is None,
    ensures
        cached_bytes(slots.update(index, Some(view)), n) == cached_bytes(slots, n) + (if index < n {
            view.size()
        } else {
            0
        }),
    decreases n,
{
    if n > 0 {
        cached_bytes_update(slots, index, view, n - 1);
    }
}

/// Prepared views by index. Once the budget is used up further views are not kept, and are
/// prepared again on every visit.
pub struct ViewCache {
    pub slots: Vec<Option<Arc<CachedView>>>,
    pub used_bytes: u64,
    pub budget_bytes: u64,
}

impl ViewCache {
    /// The views that are kept take up the bytes that are counted, which are less than the
    /// budget.
    pub open spec fn wf(&self) -> bool {
        &&& self.used_bytes == cached_bytes(self.slots@, self.slots@.len() as int)
        &&& self.used_bytes == 0 || self.used_bytes < self.budget_bytes
    }

    /// A cache for `n_views` views.
    pub fn new(n_views: usize) -> (r: ViewCache)
        ensures
            r.wf(),
            r.slots@ == Seq::new(n_views as nat, |i: int| None::<Arc<CachedView>>),
            r.used_bytes == 0,
            r.budget_bytes == CACHE_BUDGET_BYTES,
    {
        let mut slots: Vec<Option<Arc<CachedView>>> = Vec::new();
        for i in 0..n_views
            invariant
                slots@ =~= Seq::new(i as nat, |k: int| None::<Arc<CachedView>>),
                cached_bytes(slots@, i as int) == 0,
        {
            let ghost before = slots@;
            slots.push(None);
            proof {
                cached_bytes_prefix(before, None, i as int);
            }
        }
        ViewCache { slots, used_bytes: 0, budget_bytes: CACHE_BUDGET_BYTES }
    }

    /// The view at `index`, if it is kept.
    pub fn get(&self, index: usize) -> (r: Option<Arc<CachedView>>)
        requires
            index < self.slots@.len(),
        ensures
            r == self.slots@[index as int],
    {
        match &self.slots[index] {
            Some(v) => Some(v.clone()),
            None => None,
        }
    }

    /// Keep a view, if there is none at `index` yet and it fits in the budget.
    pub fn insert(&mut self, index: usize, view: Arc<CachedView>)
        requires
            old(self).wf(),
            index < old(self).slots@.len(),
        ensures
            final(self).wf(),
            final(self).budget_bytes == old(self).budget_bytes,
            if old(self).slots@[index as int] is None && old(self).used_bytes + view.size()
                < old(self).budget_bytes {
                &&& final(self).slots@ == old(self).slots@.update(index as int, Some(view))
                &&& final(self).used_bytes == old(self).used_bytes + view.size()
            } else {
                *final(self) == *old(self)
            },
    {
        if self.slots[index].is_some() {
            return;
        }
        let size: u128 = view.size_bytes();
        if self.used_bytes as u128 + size < self.budget_bytes as u128 {
            proof {
                cached_bytes_update(self.slots@, index as int, view, self.slots@.len() as int);
            }
            self.slots.set(index, Some(view));
            self.used_bytes = self.used_bytes + size as u64;
        }
    }
}

proof fn cached_bytes_prefix(
    slots: Seq<Option<Arc<CachedView>>>,
    next: Option<Arc<CachedView>>,
    n: int,
)
    requires
        0 <= n <= slots.len(),
    ensures
        cached_bytes(slots.push(next), n) == cached_bytes(slots, n),
    decreases n,
{
    if n > 0 {
        cached_bytes_prefix(slots, next, n - 1);
        assert(slots.push(next)[n - 1] == slots[n - 1]);
    }
}

/// The random number generator of `rand`, seen from outside only.
#[verifier::external_type_specification]
#[verifier::external_body]
pub struct ExStdRng(rand::rngs::StdRng);

/// Calls `rand::SeedableRng::seed_from_u64` for `StdRng`. What a generator draws after a seed
/// may differ between platforms and versions of `rand`, so nothing is claimed of it.
#[verifier::external_body]
fn seeded(seed: u64) -> (r: StdRng) {
    StdRng::seed_from_u64(seed)
}

/// Calls `rand::seq::SliceRandom::shuffle`: rearranges the elements. Their new order is up to
/// the generator, so nothing is claimed of it.
#[verifier::external_body]
fn shuffle(v: &mut Vec<usize>, rng: &mut StdRng)
    ensures
        final(v)@.to_multiset() == old(v)@.to_multiset(),
{
    v.as_mut_slice().shuffle(rng);
}

/// All indices below `n`.
pub open spec fn all_below(n: nat) -> Seq<usize> {
    Seq::new(n, |i: int| i as usize)
}

/// Draws views in random order, each once per epoch.
pub struct EpochSampler {
    pub rng: StdRng,
    /// The views of this epoch that are still to come, the next one last.
    pub pending: Vec<usize>,
    pub n_views: usize,
}

impl EpochSampler {
    /// Only views that exist are to come.
    pub open spec fn wf(&self) -> bool {
        &&& self.n_views > 0
        &&& forall|k: int| 0 <= k < self.pending@.len() ==> #[trigger] self.pending@[k] < self.n_views
    }

    /// A sampler at the start of an epoch.
    pub fn new(n_views: usize, seed: u64) -> (r: EpochSampler)
        requires
            n_views > 0,
        ensures
            r.wf(),
            r.n_views == n_views,
            r.pending@.len() == 0,
    {
        EpochSampler { rng: seeded(seed), pending: Vec::new(), n_views }
    }

    /// The next view. At the end of an epoch all views are shuffled for the next one.
    pub fn next_view(&mut self) -> (index: usize)
        requires
            old(self).wf(),
        ensures
            final(self).wf(),
            final(self).n_views == old(self).n_views,
            index < old(self).n_views,
            if old(self).pending@.len() > 0 {
                &&& index == old(self).pending@.last()
                &&& final(self).pending@ == old(self).pending@.drop_last()
            } else {
                final(self).pending@.push(index).to_multiset() == all_below(
                    old(self).n_views as nat,
                ).to_multiset()
            },
    {
        if self.pending.len() == 0 {
            let n: usize = self.n_views;
            let mut fresh: Vec<usize> = Vec::new();
            for i in 0..n
                invariant
                    fresh@ =~= all_below(i as nat),
            {
                fresh.push(i);
            }
            shuffle(&mut fresh, &mut self.rng);
            proof {
                epoch_visits_each_view_once(fresh@, n as nat);
            }
            self.pending = fresh;
        }
        let ghost before = self.pending@;
        let len: usize = self.pending.len();
        let index: usize = self.pending[len - 1];
        let _ = self.pending.pop();
        proof {
            assert(self.pending@ =~= before.drop_last());
            assert(self.pending@.push(index) =~= before);
        }
        index
    }
}

/// An epoch, which draws from a rearrangement of all views, visits each view once.
pub proof fn epoch_visits_each_view_once(epoch: Seq<usize>, n: nat)
    requires
        epoch.to_multiset() == all_below(n).to_multiset(),
        n <= usize::MAX,
    ensures
        epoch.len() == n,
        epoch.no_duplicates(),
        forall|k: int| 0 <= k < epoch.len() ==> #[trigger] epoch[k] < n,
        forall|i: usize| i < n ==> #[trigger] epoch.contains(i),
{
    let all = all_below(n);
    all.to_multiset_ensures();
    epoch.to_multiset_ensures();
    assert(all.no_duplicates());
    all.lemma_multiset_has_no_duplicates();
    epoch.lemma_multiset_has_no_duplicates_conv();
    assert forall|k: int| 0 <= k < epoch.len() implies #[trigger] epoch[k] < n by {
        assert(epoch.contains(epoch[k]));
        assert(epoch.to_multiset().count(epoch[k]) > 0);
        assert(all.contains(epoch[k]));
    }
    assert forall|i: usize| i < n implies #[trigger] epoch.contains(i) by {
        assert(all[i as int] == i);
        assert(all.contains(i));
        assert(all.to_multiset().count(i) > 0);
    }
}

/// The seeds of the loader tasks: consecutive numbers from `seed` on.
pub fn task_seeds(seed: u64, n_actors: usize) -> (r: Vec<u64>)
    requires
        n_actors * TASKS_PER_ACTOR <= usize::MAX,
    ensures
        r@ == Seq::new(
            (n_actors * TASKS_PER_ACTOR) as nat,
            |i: int| ((seed + i) % 0x1_0000_0000_0000_0000) as u64,
        ),
{
    let n: usize = n_actors * TASKS_PER_ACTOR;
    let mut r: Vec<u64> = Vec::new();
    for i in 0..n
        invariant
            r@ =~= Seq::new(
                i as nat,
                |k: int| ((seed + k) % 0x1_0000_0000_0000_0000) as u64,
            ),
    {
        r.push(seed.wrapping_add(i as u64));
    }
    r
}

} // verus!
