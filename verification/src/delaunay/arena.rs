//! Tetrahedra and their links.

use vstd::prelude::*;

verus! {

/// Virtual points bound the triangulation. Real point ids are below the point
/// count; virtual ones are `INF0 + k` for `k` in `0..4`.
pub const INF0: u32 = 0xffff_fffc;

/// The link of a face that has nothing on its other side.
pub const INF_NONE: u32 = 0xffff_ffff;

pub fn is_virtual(v: u32) -> (r: bool)
    ensures
        r == (v >= INF0),
{
    v >= INF0
}

/// A tetrahedron. `neighbors[i]` is the tet across the face opposite to
/// `verts[i]`.
#[derive(Clone, Copy, Debug)]
pub struct Tet {
    pub verts: [u32; 4],
    pub neighbors: [u32; 4],
    pub alive: bool,
}

/// `x` is one of the vertices of `v`.
pub open spec fn has_vert(v: [u32; 4], x: u32) -> bool {
    v[0] == x || v[1] == x || v[2] == x || v[3] == x
}

/// `x` is on the face of `v` opposite to `v[slot]`.
pub open spec fn on_face(v: [u32; 4], slot: int, x: u32) -> bool {
    ||| slot != 0 && v[0] == x
    ||| slot != 1 && v[1] == x
    ||| slot != 2 && v[2] == x
    ||| slot != 3 && v[3] == x
}

/// The four vertices differ.
pub open spec fn distinct(v: [u32; 4]) -> bool {
    &&& v[0] != v[1] && v[0] != v[2] && v[0] != v[3]
    &&& v[1] != v[2] && v[1] != v[3]
    &&& v[2] != v[3]
}

/// Every vertex of face `i` of `a` is on face `j` of `b`.
pub open spec fn face_within(a: [u32; 4], i: int, b: [u32; 4], j: int) -> bool {
    &&& i != 0 ==> on_face(b, j, a[0])
    &&& i != 1 ==> on_face(b, j, a[1])
    &&& i != 2 ==> on_face(b, j, a[2])
    &&& i != 3 ==> on_face(b, j, a[3])
}

/// The first slot of `b` whose vertex is not on face `i` of `a`.
pub open spec fn apex_slot(b: [u32; 4], a: [u32; 4], i: int) -> int {
    if !on_face(a, i, b[0]) {
        0
    } else if !on_face(a, i, b[1]) {
        1
    } else if !on_face(a, i, b[2]) {
        2
    } else {
        3
    }
}

/// A vertex id that the triangulation of `n_real` points may use.
pub open spec fn valid_vert(v: u32, n_real: u32) -> bool {
    v < n_real || v >= INF0
}

pub open spec fn valid_verts(v: [u32; 4], n_real: u32) -> bool {
    &&& valid_vert(v[0], n_real) && valid_vert(v[1], n_real)
    &&& valid_vert(v[2], n_real) && valid_vert(v[3], n_real)
    &&& distinct(v)
}

/// The link of face `i` of tet `t` is returned: the tet across it is alive,
/// shares that face and links back to `t`.
pub open spec fn link_returned(ts: Seq<Tet>, t: int, i: int) -> bool {
    let nb = ts[t].neighbors[i] as int;
    let j = apex_slot(ts[nb].verts, ts[t].verts, i);
    &&& nb < ts.len()
    &&& nb != t
    &&& ts[nb].alive
    &&& face_within(ts[nb].verts, j, ts[t].verts, i)
    &&& ts[nb].neighbors[j] == t
}

/// Every link of a live tet is returned.
pub open spec fn links_returned(ts: Seq<Tet>) -> bool {
    forall|t: int, i: int|
        #![trigger ts[t].neighbors[i]]
        0 <= t < ts.len() && 0 <= i < 4 && ts[t].alive && ts[t].neighbors[i] != INF_NONE
            ==> link_returned(ts, t, i)
}

pub open spec fn verts_valid(ts: Seq<Tet>, n_real: u32) -> bool {
    forall|t: int| 0 <= t < ts.len() ==> valid_verts((#[trigger] ts[t]).verts, n_real)
}

/// The tets form a triangulation complex: vertices are valid and differ within
/// each tet, and live tets are glued face to face.
pub open spec fn well_linked(ts: Seq<Tet>, n_real: u32) -> bool {
    &&& ts.len() <= INF_NONE
    &&& n_real <= INF0
    &&& verts_valid(ts, n_real)
    &&& links_returned(ts)
}

/// Faces with the same vertices leave out the same slot.
pub proof fn apex_slot_of_shared_face(b: [u32; 4], j: int, a: [u32; 4], i: int)
    requires
        distinct(a),
        distinct(b),
        0 <= i < 4,
        0 <= j < 4,
        face_within(b, j, a, i),
    ensures
        !on_face(a, i, b[j]),
        apex_slot(b, a, i) == j,
        face_within(a, i, b, j),
        apex_slot(a, b, j) == i,
{
}

/// Tet storage. `cap` bounds the number of tets that are ever made.
pub struct Arena {
    pub n_real: u32,
    pub tets: Vec<Tet>,
    pub cap: usize,
}

impl View for Arena {
    type V = Seq<Tet>;

    open spec fn view(&self) -> Seq<Tet> {
        self.tets@
    }
}

impl Arena {
    pub open spec fn wf(&self) -> bool {
        &&& self.tets@.len() <= self.cap <= INF_NONE
        &&& well_linked(self@, self.n_real)
    }

    /// Make a live tet that is linked to nothing.
    pub(crate) fn add_tet(&mut self, verts: [u32; 4]) -> (t: u32)
        requires
            old(self)@.len() < old(self).cap <= INF_NONE,
        ensures
            final(self).n_real == old(self).n_real,
            final(self).cap == old(self).cap,
            t == old(self)@.len(),
            final(self)@ == old(self)@.push(final(self)@[t as int]),
            final(self)@[t as int].verts == verts,
            final(self)@[t as int].alive,
            forall|k: int| 0 <= k < 4 ==> #[trigger] final(self)@[t as int].neighbors[k] == INF_NONE,
    {
        let t: u32 = self.tets.len() as u32;
        let neighbors: [u32; 4] = [INF_NONE, INF_NONE, INF_NONE, INF_NONE];
        self.tets.push(Tet { verts, neighbors, alive: true });
        t
    }

    pub(crate) fn set_neighbor(&mut self, t: u32, slot: usize, nb: u32)
        requires
            t < old(self)@.len(),
            slot < 4,
        ensures
            final(self).n_real == old(self).n_real,
            final(self).cap == old(self).cap,
            final(self)@.len() == old(self)@.len(),
            forall|u: int| 0 <= u < old(self)@.len() && u != t ==> final(self)@[u] == old(self)@[u],
            final(self)@[t as int].verts == old(self)@[t as int].verts,
            final(self)@[t as int].alive == old(self)@[t as int].alive,
            final(self)@[t as int].neighbors[slot as int] == nb,
            forall|k: int|
                0 <= k < 4 && k != slot ==> #[trigger] final(self)@[t as int].neighbors[k] == old(
                    self,
                )@[t as int].neighbors[k],
    {
        self.tets[t as usize].neighbors[slot] = nb;
    }
}

} // verus!
