//! Indexed triangle meshes.

use crate::float::F32;
use vstd::prelude::*;

verus! {

/// A position or direction.
#[derive(Clone, Copy, Debug, PartialEq, Eq, Structural)]
pub struct Vec3 {
    pub x: F32,
    pub y: F32,
    pub z: F32,
}

/// Triangle mesh: `faces` index into `vertices`.
#[derive(Debug)]
pub struct Mesh {
    pub vertices: Vec<Vec3>,
    pub faces: Vec<[u32; 3]>,
}

/// All three corners of `f` are below `n`.
pub open spec fn face_in(f: [u32; 3], n: nat) -> bool {
    f[0] < n && f[1] < n && f[2] < n
}

/// All faces of `faces` index into `n` vertices.
pub open spec fn faces_in(faces: Seq<[u32; 3]>, n: nat) -> bool {
    forall|i: int| 0 <= i < faces.len() ==> face_in(#[trigger] faces[i], n)
}

/// Faces with equal corners are equal.
pub proof fn same_corners(f: [u32; 3], g: [u32; 3])
    requires
        f[0] == g[0],
        f[1] == g[1],
        f[2] == g[2],
    ensures
        f == g,
{
    assert(f@ =~= g@);
    assert(f =~= g);
}

impl Mesh {
    /// Every face indexes into the vertices, and vertex ids fit in `u32`.
    pub open spec fn wf(&self) -> bool {
        &&& self.vertices.len() <= u32::MAX
        &&& faces_in(self.faces@, self.vertices@.len())
    }

    /// A mesh with the same vertices and faces.
    pub fn duplicate(&self) -> (r: Mesh)
        ensures
            r.vertices@ == self.vertices@,
            r.faces@ == self.faces@,
    {
        let mut vertices: Vec<Vec3> = Vec::new();
        for i in 0..self.vertices.len()
            invariant
                vertices@ == self.vertices@.take(i as int),
        {
            vertices.push(self.vertices[i]);
        }
        let mut faces: Vec<[u32; 3]> = Vec::new();
        for i in 0..self.faces.len()
            invariant
                faces@ == self.faces@.take(i as int),
        {
            faces.push(self.faces[i]);
        }
        Mesh { vertices, faces }
    }
}

} // verus!
