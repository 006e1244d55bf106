//! The search for the surface between seed points.
//!
//! The seeds are triangulated and looked up in a field; where the field changes sign along an
//! edge, the surface crosses it. Each crossing is then closed in on by bisection. Looking up
//! the field is the caller's work, so the search says what is to be done next and takes what
//! came of it.

use crate::float::F32;
use crate::marching_tet::{self, Crossing};
use crate::mesh::{self, Mesh, Vec3};
use crate::refine::{self, Bracket, RefineState, N_STEPS};
use crate::seqs;
use crate::tetra_points::TetraPoints;
use vstd::prelude::*;

verus! {

/// Fewer seeds than this span no tet.
pub const MIN_SEEDS: usize = 4;

/// How far the search has got.
#[derive(Clone, Copy, Debug, PartialEq, Eq, Structural)]
pub enum Stage {
    /// There is no surface.
    Empty,
    /// There are seeds enough.
    Seeded,
    /// There are crossings, and so many rounds of bisection are done.
    Refining(usize),
}

/// What is to be done next.
#[derive(Clone, Copy, Debug, PartialEq, Eq, Structural)]
pub enum Action {
    /// Nothing: there is no surface.
    Stop,
    /// Triangulate the seeds and look them up in the field.
    Triangulate,
    /// Look up the midpoints of the brackets.
    Probe,
    /// Place the crossings.
    Place,
}

/// A search.
pub struct Carving {
    pub seeds: TetraPoints,
    /// Edges that the surface crosses.
    pub crossings: Vec<Crossing>,
    /// Triangles between crossings.
    pub faces: Vec<[u32; 3]>,
    /// A bracket around each crossing.
    pub state: RefineState,
    pub stage: Stage,
}

/// Actions that are left at most, after this one.
pub open spec fn actions_left(stage: Stage) -> int {
    match stage {
        Stage::Empty => 0,
        Stage::Seeded => N_STEPS + 1,
        Stage::Refining(k) => N_STEPS - k,
    }
}

/// `keep` says of each crossing whether its edge is short for the extents of its ends.
pub open spec fn are_short<S: Fn(Vec3, Vec3, F32, F32) -> bool>(
    short: S,
    seeds: &TetraPoints,
    crossings: Seq<Crossing>,
    keep: Seq<bool>,
) -> bool {
    &&& keep.len() == crossings.len()
    &&& forall|i: int|
        0 <= i < keep.len() ==> short.ensures(
            (
                seeds.points@[crossings[i].a as int],
                seeds.points@[crossings[i].b as int],
                seeds.scales@[crossings[i].a as int],
                seeds.scales@[crossings[i].b as int],
            ),
            #[trigger] keep[i],
        )
}

impl Carving {
    /// Each seed has an extent; crossings lie between seeds and are bracketed, and faces
    /// between crossings.
    pub open spec fn wf(&self) -> bool {
        &&& self.seeds.points@.len() == self.seeds.scales@.len()
        &&& match self.stage {
            Stage::Empty => true,
            Stage::Seeded => self.seeds.points@.len() >= MIN_SEEDS,
            Stage::Refining(k) => {
                &&& k <= N_STEPS
                &&& 0 < self.crossings@.len() <= u32::MAX
                &&& self.state.brackets@.len() == self.crossings@.len()
                &&& mesh::faces_in(self.faces@, self.crossings@.len())
                &&& self.crossings_in()
                &&& forall|i: int|
                    0 <= i < self.state.brackets@.len() ==> (#[trigger] self.state.brackets@[i]).wf()
            },
        }
    }

    /// Crossings lie between seeds.
    pub open spec fn crossings_in(&self) -> bool {
        forall|i: int|
            0 <= i < self.crossings@.len() ==> (#[trigger] self.crossings@[i]).a
                < self.seeds.points@.len() && self.crossings@[i].b < self.seeds.points@.len()
    }

    /// Begin with the seeds.
    pub fn begin(seeds: TetraPoints) -> (r: Carving)
        requires
            seeds.points@.len() == seeds.scales@.len(),
        ensures
            r.wf(),
            r.seeds == seeds,
            r.stage == (if seeds.points@.len() < MIN_SEEDS {
                Stage::Empty
            } else {
                Stage::Seeded
            }),
    {
        let stage = if seeds.points.len() < MIN_SEEDS {
            Stage::Empty
        } else {
            Stage::Seeded
        };
        Carving {
            seeds,
            crossings: Vec::new(),
            faces: Vec::new(),
            state: RefineState { brackets: Vec::new() },
            stage,
        }
    }

    /// What is to be done next.
    pub fn next_action(&self) -> (r: Action)
        ensures
            r == (match self.stage {
                Stage::Empty => Action::Stop,
                Stage::Seeded => Action::Triangulate,
                Stage::Refining(k) => if k < N_STEPS {
                    Action::Probe
                } else {
                    Action::Place
                },
            }),
    {
        match self.stage {
            Stage::Empty => Action::Stop,
            Stage::Seeded => Action::Triangulate,
            Stage::Refining(k) => if k < N_STEPS {
                Action::Probe
            } else {
                Action::Place
            },
        }
    }

    /// The seeds are triangulated into `tets`, and the field has the values `sdf` at them.
    pub fn march(&mut self, tets: &Vec<[u32; 4]>, sdf: &Vec<F32>)
        requires
            old(self).wf(),
            old(self).stage == Stage::Seeded,
            sdf@.len() == old(self).seeds.points@.len(),
            marching_tet::tets_in(tets@, sdf@.len()),
            seqs::first_appearances(marching_tet::all_edges(sdf@, tets@)).len() <= u32::MAX,
        ensures
            final(self).wf(),
            final(self).seeds == old(self).seeds,
            final(self).crossings@ == seqs::first_appearances(
                marching_tet::all_edges(sdf@, tets@),
            ),
            final(self).faces@.len() == marching_tet::all_triangles(sdf@, tets@).len(),
            forall|i: int|
                0 <= i < final(self).faces@.len() ==> marching_tet::face_on(
                    #[trigger] final(self).faces@[i],
                    marching_tet::all_triangles(sdf@, tets@)[i],
                    final(self).crossings@,
                ),
            final(self).stage == (if final(self).crossings@.len() == 0 {
                Stage::Empty
            } else {
                Stage::Refining(0)
            }),
            final(self).stage is Refining ==> final(self).state.brackets@ == Seq::new(
                final(self).crossings@.len(),
                |i: int|
                    Bracket {
                        left: old(self).seeds.points@[final(self).crossings@[i].a as int],
                        right: old(self).seeds.points@[final(self).crossings@[i].b as int],
                        left_sdf: sdf@[final(self).crossings@[i].a as int],
                        right_sdf: sdf@[final(self).crossings@[i].b as int],
                    },
            ),
            actions_left(final(self).stage) < actions_left(old(self).stage),
    {
        let out = marching_tet::marching_tets(tets.as_slice(), sdf.as_slice());
        self.crossings = out.crossings;
        self.faces = out.faces;
        proof {
            marching_tet::crossings_are_the_straddling_edges(sdf@, tets@);
            assert forall|i: int| 0 <= i < self.crossings@.len() implies (
            #[trigger] self.crossings@[i]).a < self.seeds.points@.len() && self.crossings@[i].b
                < self.seeds.points@.len() by {
                assert(self.crossings@.contains(self.crossings@[i]));
            }
        }
        if self.crossings.len() == 0 {
            self.stage = Stage::Empty;
        } else {
            self.state = RefineState::new(&self.crossings, &self.seeds.points, sdf);
            self.stage = Stage::Refining(0);
            proof {
                assert forall|i: int| 0 <= i < self.faces@.len() implies mesh::face_in(
                    #[trigger] self.faces@[i],
                    self.crossings@.len(),
                ) by {
                    assert(marching_tet::face_on(
                        self.faces@[i],
                        marching_tet::all_triangles(sdf@, tets@)[i],
                        self.crossings@,
                    ));
                }
                assert forall|i: int| 0 <= i < self.state.brackets@.len() implies (
                #[trigger] self.state.brackets@[i]).wf() by {
                    marching_tet::crossings_change_sign(sdf@, tets@, i);
                }
            }
        }
    }

    /// The points to look up: one between the ends of each bracket.
    pub fn probes<M: Fn(Vec3, Vec3) -> Vec3>(&self, midpoint: M) -> (r: Vec<Vec3>)
        requires
            self.wf(),
            self.stage matches Stage::Refining(k) && k < N_STEPS,
            forall|a: Vec3, b: Vec3| #[trigger] midpoint.requires((a, b)),
        ensures
            r@.len() == self.crossings@.len(),
            forall|i: int|
                0 <= i < r@.len() ==> midpoint.ensures(
                    (self.state.brackets@[i].left, self.state.brackets@[i].right),
                    #[trigger] r@[i],
                ),
    {
        self.state.compute_midpoints(midpoint)
    }

    /// The field has the values `sdf` at the points `mid`: each bracket shrinks to the half
    /// that holds its crossing.
    pub fn halve(&mut self, mid: &Vec<Vec3>, sdf: &Vec<F32>)
        requires
            old(self).wf(),
            old(self).stage matches Stage::Refining(k) && k < N_STEPS,
            mid@.len() == old(self).crossings@.len(),
            sdf@.len() == old(self).crossings@.len(),
        ensures
            final(self).wf(),
            final(self).seeds == old(self).seeds,
            final(self).crossings == old(self).crossings,
            final(self).faces == old(self).faces,
            old(self).stage matches Stage::Refining(k) && final(self).stage == Stage::Refining(
                (k + 1) as usize,
            ),
            final(self).state.brackets@ == Seq::new(
                old(self).state.brackets@.len(),
                |i: int| old(self).state.brackets@[i].halved(mid@[i], sdf@[i]),
            ),
            actions_left(final(self).stage) < actions_left(old(self).stage),
    {
        let ghost before = self.state.brackets@;
        self.state.update_bracket(mid, sdf);
        if let Stage::Refining(k) = self.stage {
            self.stage = Stage::Refining(k + 1);
        }
        proof {
            assert forall|i: int| 0 <= i < self.state.brackets@.len() implies (
            #[trigger] self.state.brackets@[i]).wf() by {
                assert(before[i].wf());
                refine::halving_keeps_the_crossing(before[i], mid@[i], sdf@[i]);
            }
        }
    }

    /// The raw surface: each crossing is placed within its bracket, and `short` says whether
    /// it is on an edge that is short for the extents of its ends.
    pub fn place<P: Fn(Bracket) -> Vec3, S: Fn(Vec3, Vec3, F32, F32) -> bool>(
        &self,
        place: P,
        short: S,
    ) -> (r: (Mesh, Vec<bool>))
        requires
            self.wf(),
            self.stage == Stage::Refining(N_STEPS),
            forall|b: Bracket| #[trigger] place.requires((b,)),
            forall|a: Vec3, b: Vec3, s: F32, t: F32| #[trigger] short.requires((a, b, s, t)),
        ensures
            r.0.wf(),
            r.0.vertices@.len() == self.crossings@.len(),
            forall|i: int|
                0 <= i < r.0.vertices@.len() ==> place.ensures(
                    (self.state.brackets@[i],),
                    #[trigger] r.0.vertices@[i],
                ),
            r.0.faces@ == self.faces@,
            are_short(short, &self.seeds, self.crossings@, r.1@),
    {
        let vertices = self.state.finish(place);
        let mut faces: Vec<[u32; 3]> = Vec::new();
        for f in 0..self.faces.len()
            invariant
                faces@ =~= self.faces@.take(f as int),
        {
            faces.push(self.faces[f]);
        }
        assert(faces@ =~= self.faces@);
        let mut keep: Vec<bool> = Vec::new();
        for i in 0..self.crossings.len()
            invariant
                self.wf(),
                self.stage == Stage::Refining(N_STEPS),
                forall|a: Vec3, b: Vec3, s: F32, t: F32| #[trigger] short.requires((a, b, s, t)),
                are_short(short, &self.seeds, self.crossings@.take(i as int), keep@),
        {
            let c = self.crossings[i];
            let (a, b): (usize, usize) = (c.a as usize, c.b as usize);
            let ghost before = keep@;
            let is_short = short(
                self.seeds.points[a],
                self.seeds.points[b],
                self.seeds.scales[a],
                self.seeds.scales[b],
            );
            keep.push(is_short);
            proof {
                assert forall|k: int| 0 <= k < keep@.len() implies short.ensures(
                    (
                        self.seeds.points@[self.crossings@.take(i + 1)[k].a as int],
                        self.seeds.points@[self.crossings@.take(i + 1)[k].b as int],
                        self.seeds.scales@[self.crossings@.take(i + 1)[k].a as int],
                        self.seeds.scales@[self.crossings@.take(i + 1)[k].b as int],
                    ),
                    #[trigger] keep@[k],
                ) by {
                    if k < i {
                        assert(keep@[k] == before[k]);
                    }
                }
            }
        }
        assert(self.crossings@.take(self.crossings@.len() as int) =~= self.crossings@);
        (Mesh { vertices, faces }, keep)
    }
}

/// An edge is judged by the two seeds at its ends and their extents.
pub proof fn edges_are_judged_by_their_ends<S: Fn(Vec3, Vec3, F32, F32) -> bool>(
    short: S,
    seeds: &TetraPoints,
    crossings: Seq<Crossing>,
    keep: Seq<bool>,
    i: int,
)
    requires
        are_short(short, seeds, crossings, keep),
        0 <= i < crossings.len(),
    ensures
        keep.len() == crossings.len(),
        ({
            let (a, b) = (crossings[i].a as int, crossings[i].b as int);
            short.ensures(
                (seeds.points@[a], seeds.points@[b], seeds.scales@[a], seeds.scales@[b]),
                keep[i],
            )
        }),
{
}

} // verus!
