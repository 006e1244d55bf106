//! Bisection of crossings: each crossing is held between two points of opposite sign.

use crate::float::F32;
use crate::marching_tet::Crossing;
use crate::mesh::Vec3;
use vstd::prelude::*;

verus! {

/// Bisection steps of every crossing.
pub const N_STEPS: usize = 4;

/// A crossing lies between `left` and `right`.
#[derive(Clone, Copy, Debug)]
pub struct Bracket {
    pub left: Vec3,
    pub right: Vec3,
    pub left_sdf: F32,
    pub right_sdf: F32,
}

/// Both are negative, or both are positive.
pub open spec fn same_sign(a: F32, b: F32) -> bool {
    a.negative() && b.negative() || a.positive() && b.positive()
}

impl Bracket {
    /// The ends are not of the same sign.
    pub open spec fn wf(&self) -> bool {
        !same_sign(self.left_sdf, self.right_sdf)
    }

    /// The bracket after the midpoint `mid` turned out to have the value `sdf`: the end of the
    /// same sign moves there.
    pub open spec fn halved(&self, mid: Vec3, sdf: F32) -> Bracket {
        if same_sign(sdf, self.left_sdf) {
            Bracket { left: mid, left_sdf: sdf, ..*self }
        } else {
            Bracket { right: mid, right_sdf: sdf, ..*self }
        }
    }
}

/// The state of the search, one bracket per crossing.
pub struct RefineState {
    pub brackets: Vec<Bracket>,
}

impl RefineState {
    /// The bracket of each crossing is its edge.
    pub fn new(crossings: &Vec<Crossing>, positions: &Vec<Vec3>, sdf: &Vec<F32>) -> (r: RefineState)
        requires
            forall|i: int|
                0 <= i < crossings@.len() ==> (#[trigger] crossings@[i]).a < positions@.len()
                    && crossings@[i].b < positions@.len(),
            sdf@.len() == positions@.len(),
        ensures
            r.brackets@ == Seq::new(
                crossings@.len(),
                |i: int|
                    Bracket {
                        left: positions@[crossings@[i].a as int],
                        right: positions@[crossings@[i].b as int],
                        left_sdf: sdf@[crossings@[i].a as int],
                        right_sdf: sdf@[crossings@[i].b as int],
                    },
            ),
            starts_from(crossings@, positions@, sdf@, r.brackets@),
    {
        let mut brackets: Vec<Bracket> = Vec::new();
        for i in 0..crossings.len()
            invariant
                forall|i: int|
                    0 <= i < crossings@.len() ==> (#[trigger] crossings@[i]).a < positions@.len()
                        && crossings@[i].b < positions@.len(),
                sdf@.len() == positions@.len(),
                brackets@ =~= Seq::new(
                    i as nat,
                    |i: int|
                        Bracket {
                            left: positions@[crossings@[i].a as int],
                            right: positions@[crossings@[i].b as int],
                            left_sdf: sdf@[crossings@[i].a as int],
                            right_sdf: sdf@[crossings@[i].b as int],
                        },
                ),
        {
            let c = crossings[i];
            brackets.push(
                Bracket {
                    left: positions[c.a as usize],
                    right: positions[c.b as usize],
                    left_sdf: sdf[c.a as usize],
                    right_sdf: sdf[c.b as usize],
                },
            );
        }
        RefineState { brackets }
    }

    /// The number of crossings.
    pub fn n_crossings(&self) -> (r: usize)
        ensures
            r == self.brackets@.len(),
    {
        self.brackets.len()
    }

    /// A point between the ends of each bracket.
    pub fn compute_midpoints<M: Fn(Vec3, Vec3) -> Vec3>(&self, midpoint: M) -> (r: Vec<Vec3>)
        requires
            forall|a: Vec3, b: Vec3| #[trigger] midpoint.requires((a, b)),
        ensures
            r@.len() == self.brackets@.len(),
            forall|i: int|
                0 <= i < r@.len() ==> midpoint.ensures(
                    (self.brackets@[i].left, self.brackets@[i].right),
                    #[trigger] r@[i],
                ),
    {
        let mut r: Vec<Vec3> = Vec::new();
        for i in 0..self.brackets.len()
            invariant
                forall|a: Vec3, b: Vec3| #[trigger] midpoint.requires((a, b)),
                r@.len() == i,
                forall|k: int|
                    0 <= k < i ==> midpoint.ensures(
                        (self.brackets@[k].left, self.brackets@[k].right),
                        #[trigger] r@[k],
                    ),
        {
            let b = self.brackets[i];
            r.push(midpoint(b.left, b.right));
        }
        r
    }

    /// Shrink each bracket to the half that holds its crossing.
    pub fn update_bracket(&mut self, mid: &Vec<Vec3>, sdf: &Vec<F32>)
        requires
            mid@.len() == old(self).brackets@.len(),
            sdf@.len() == old(self).brackets@.len(),
        ensures
            final(self).brackets@ == Seq::new(
                old(self).brackets@.len(),
                |i: int| old(self).brackets@[i].halved(mid@[i], sdf@[i]),
            ),
            is_round(old(self).brackets@, mid@, sdf@, final(self).brackets@),
    {
        let ghost before = self.brackets@;
        let n: usize = self.brackets.len();
        for i in 0..n
            invariant
                n == before.len(),
                mid@.len() == n,
                sdf@.len() == n,
                self.brackets@ =~= Seq::new(
                    n as nat,
                    |k: int|
                        if k < i {
                            before[k].halved(mid@[k], sdf@[k])
                        } else {
                            before[k]
                        },
                ),
        {
            let mut b = self.brackets[i];
            let s = sdf[i];
            if s.is_negative() && b.left_sdf.is_negative() || s.is_positive()
                && b.left_sdf.is_positive() {
                b.left = mid[i];
                b.left_sdf = s;
            } else {
                b.right = mid[i];
                b.right_sdf = s;
            }
            self.brackets.set(i, b);
        }
        assert(self.brackets@ =~= Seq::new(
            before.len(),
            |i: int| before[i].halved(mid@[i], sdf@[i]),
        ));
    }

    /// Place each crossing between the ends of its bracket, by their values.
    pub fn finish<P: Fn(Bracket) -> Vec3>(&self, place: P) -> (r: Vec<Vec3>)
        requires
            forall|b: Bracket| #[trigger] place.requires((b,)),
        ensures
            r@.len() == self.brackets@.len(),
            forall|i: int|
                0 <= i < r@.len() ==> place.ensures((self.brackets@[i],), #[trigger] r@[i]),
    {
        let mut r: Vec<Vec3> = Vec::new();
        for i in 0..self.brackets.len()
            invariant
                forall|b: Bracket| #[trigger] place.requires((b,)),
                r@.len() == i,
                forall|k: int|
                    0 <= k < i ==> place.ensures((self.brackets@[k],), #[trigger] r@[k]),
        {
            r.push(place(self.brackets[i]));
        }
        r
    }
}

/// Halving keeps a crossing between ends that are not of the same sign.
pub proof fn halving_keeps_the_crossing(b: Bracket, mid: Vec3, sdf: F32)
    requires
        b.wf(),
    ensures
        b.halved(mid, sdf).wf(),
{
}

/// One end of a halved bracket is the midpoint, and the other has not moved.
pub proof fn halving_keeps_one_end(b: Bracket, mid: Vec3, sdf: F32)
    ensures
        ({
            let h = b.halved(mid, sdf);
            ||| h.left == mid && h.right == b.right
            ||| h.left == b.left && h.right == mid
        }),
{
}

/// The values of a bracket belong to its ends, and stay with them: where the ends have the values
/// that a field has there, and the midpoint too, the halved bracket has the values of the field
/// at its ends.
pub proof fn values_belong_to_the_ends(field: spec_fn(Vec3) -> F32, b: Bracket, mid: Vec3, sdf: F32)
    requires
        field(b.left) == b.left_sdf,
        field(b.right) == b.right_sdf,
        field(mid) == sdf,
    ensures
        ({
            let h = b.halved(mid, sdf);
            field(h.left) == h.left_sdf && field(h.right) == h.right_sdf
        }),
{
}

/// The crossing stays between the ends: where one end is above zero and the other below, and the
/// midpoint is on one of the sides, the halved bracket has one end on each side, the midpoint is
/// one of them, and the other is the old end across from it, with its value.
pub proof fn halving_closes_in_on_the_crossing(b: Bracket, mid: Vec3, sdf: F32)
    requires
        b.left_sdf.positive() && b.right_sdf.negative() || b.left_sdf.negative()
            && b.right_sdf.positive(),
        sdf.positive() || sdf.negative(),
    ensures
        ({
            let h = b.halved(mid, sdf);
            &&& sdf.positive() == b.left_sdf.positive() ==> h.left == mid && h.left_sdf == sdf
                && h.right == b.right && h.right_sdf == b.right_sdf
            &&& sdf.positive() == b.right_sdf.positive() ==> h.right == mid && h.right_sdf == sdf
                && h.left == b.left && h.left_sdf == b.left_sdf
            &&& h.left_sdf.positive() && h.right_sdf.negative() || h.left_sdf.negative()
                && h.right_sdf.positive()
        }),
{
}

/// Where the midpoint is neither above zero nor below, it becomes the right end.
pub proof fn a_hit_becomes_the_right_end(b: Bracket, mid: Vec3, sdf: F32)
    requires
        !sdf.positive(),
        !sdf.negative(),
    ensures
        ({
            let h = b.halved(mid, sdf);
            h.left == b.left && h.left_sdf == b.left_sdf && h.right == mid && h.right_sdf == sdf
        }),
{
}

/// The brackets that a search begins with are the edges of its crossings, with the values of the
/// field at their ends.
pub open spec fn starts_from(
    crossings: Seq<Crossing>,
    positions: Seq<Vec3>,
    sdf: Seq<F32>,
    brackets: Seq<Bracket>,
) -> bool {
    brackets == Seq::new(
        crossings.len(),
        |i: int|
            Bracket {
                left: positions[crossings[i].a as int],
                right: positions[crossings[i].b as int],
                left_sdf: sdf[crossings[i].a as int],
                right_sdf: sdf[crossings[i].b as int],
            },
    )
}

/// `after` are the brackets `before` after one round.
pub open spec fn is_round(
    before: Seq<Bracket>,
    mid: Seq<Vec3>,
    sdf: Seq<F32>,
    after: Seq<Bracket>,
) -> bool {
    after == Seq::new(before.len(), |i: int| before[i].halved(mid[i], sdf[i]))
}

/// However many rounds are made, each bracket holds its crossing: where the field changes its sign
/// along the edge of crossing `i` and is zero at none of the midpoints, after round `k` it has at
/// the ends of bracket `i` the values that the bracket has there, and they are of different sign.
pub proof fn every_round_keeps_the_crossing(
    field: spec_fn(Vec3) -> F32,
    crossings: Seq<Crossing>,
    positions: Seq<Vec3>,
    sdf: Seq<F32>,
    mids: Seq<Seq<Vec3>>,
    values: Seq<Seq<F32>>,
    rounds: Seq<Seq<Bracket>>,
    i: int,
    k: int,
)
    requires
        0 <= i < crossings.len(),
        rounds.len() > 0,
        starts_from(crossings, positions, sdf, rounds[0]),
        forall|r: int|
            #![trigger rounds[r + 1]]
            0 <= r < rounds.len() - 1 ==> {
                &&& is_round(rounds[r], mids[r], values[r], rounds[r + 1])
                &&& values[r][i] == field(mids[r][i])
                &&& values[r][i].positive() || values[r][i].negative()
            },
        field(positions[crossings[i].a as int]) == sdf[crossings[i].a as int],
        field(positions[crossings[i].b as int]) == sdf[crossings[i].b as int],
        sdf[crossings[i].a as int].positive() && sdf[crossings[i].b as int].negative()
            || sdf[crossings[i].a as int].negative() && sdf[crossings[i].b as int].positive(),
        0 <= k < rounds.len(),
    ensures
        rounds[k].len() == crossings.len(),
        field(rounds[k][i].left) == rounds[k][i].left_sdf,
        field(rounds[k][i].right) == rounds[k][i].right_sdf,
        rounds[k][i].left_sdf.positive() == sdf[crossings[i].a as int].positive(),
        rounds[k][i].left_sdf.negative() == sdf[crossings[i].a as int].negative(),
        rounds[k][i].right_sdf.positive() == sdf[crossings[i].b as int].positive(),
        rounds[k][i].right_sdf.negative() == sdf[crossings[i].b as int].negative(),
        k > 0 ==> rounds[k][i].left == mids[k - 1][i] || rounds[k][i].right == mids[k - 1][i],
    decreases k,
{
    if k > 0 {
        every_round_keeps_the_crossing(
            field,
            crossings,
            positions,
            sdf,
            mids,
            values,
            rounds,
            i,
            k - 1,
        );
        let r = k - 1;
        assert(is_round(rounds[r], mids[r], values[r], rounds[r + 1]));
    }
}

} // verus!
