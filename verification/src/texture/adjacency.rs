//! Faces across shared edges.

use crate::fx;
use crate::smooth;
use rustc_hash::FxHashMap;
use vstd::prelude::*;

verus! {

/// The first of the first `n` corners that starts edge `e`, or -1.
pub open spec fn first_slot(faces: Seq<[u32; 3]>, e: (u32, u32), n: int) -> int
    decreases n,
{
    if n <= 0 {
        -1
    } else if first_slot(faces, e, n - 1) >= 0 {
        first_slot(faces, e, n - 1)
    } else if smooth::edge_at(faces, n - 1) == e {
        n - 1
    } else {
        -1
    }
}

/// The last of the first `n` corners that starts edge `e`, or -1.
pub open spec fn last_slot(faces: Seq<[u32; 3]>, e: (u32, u32), n: int) -> int
    decreases n,
{
    if n <= 0 {
        -1
    } else if smooth::edge_at(faces, n - 1) == e {
        n - 1
    } else {
        last_slot(faces, e, n - 1)
    }
}

/// The face across the edge that starts at corner `s`, when the first `n` corners have been
/// seen: for the first face with that edge the last one seen after it, for every later face
/// the first one; -1 if there is none.
pub open spec fn face_across(faces: Seq<[u32; 3]>, s: int, n: int) -> int {
    let e = smooth::edge_at(faces, s);
    let first = first_slot(faces, e, n);
    let last = last_slot(faces, e, n);
    if first < 0 {
        -1
    } else if s / 3 == first / 3 {
        if last == first {
            -1
        } else {
            last / 3
        }
    } else if s < n {
        first / 3
    } else {
        -1
    }
}

proof fn slots_are_slots(faces: Seq<[u32; 3]>, e: (u32, u32), n: int)
    requires
        0 <= n,
    ensures
        -1 <= first_slot(faces, e, n) <= last_slot(faces, e, n) < n,
        first_slot(faces, e, n) >= 0 <==> last_slot(faces, e, n) >= 0,
        first_slot(faces, e, n) >= 0 ==> smooth::edge_at(faces, first_slot(faces, e, n)) == e
            && smooth::edge_at(faces, last_slot(faces, e, n)) == e,
        forall|s: int|
            0 <= s < n && #[trigger] smooth::edge_at(faces, s) == e ==> first_slot(faces, e, n) <= s
                <= last_slot(faces, e, n) && first_slot(faces, e, n) >= 0,
    decreases n,
{
    if n > 0 {
        slots_are_slots(faces, e, n - 1);
    }
}

/// The face across an edge is a face, or `-1`.
pub proof fn face_across_bound(faces: Seq<[u32; 3]>, s: int, n: int)
    requires
        0 <= n <= 3 * faces.len(),
    ensures
        -1 <= face_across(faces, s, n) < faces.len() || n == 0,
{
    slots_are_slots(faces, smooth::edge_at(faces, s), n);
}

/// Across an edge of exactly two faces each face has the other.
pub proof fn adjacency_is_symmetric(faces: Seq<[u32; 3]>, s: int, t: int)
    requires
        0 <= s < t < 3 * faces.len(),
        s / 3 != t / 3,
        smooth::edge_at(faces, s) == smooth::edge_at(faces, t),
        forall|u: int|
            0 <= u < 3 * faces.len() && #[trigger] smooth::edge_at(faces, u) == smooth::edge_at(
                faces,
                s,
            ) ==> u == s || u == t,
    ensures
        face_across(faces, s, 3 * faces.len() as int) == t / 3,
        face_across(faces, t, 3 * faces.len() as int) == s / 3,
{
    slots_are_slots(faces, smooth::edge_at(faces, s), 3 * faces.len() as int);
}

/// An edge of one face alone has nothing across it.
pub proof fn rim_has_no_neighbour(faces: Seq<[u32; 3]>, s: int)
    requires
        0 <= s < 3 * faces.len(),
        forall|u: int|
            0 <= u < 3 * faces.len() && #[trigger] smooth::edge_at(faces, u) == smooth::edge_at(
                faces,
                s,
            ) ==> u == s,
    ensures
        face_across(faces, s, 3 * faces.len() as int) == -1,
{
    slots_are_slots(faces, smooth::edge_at(faces, s), 3 * faces.len() as int);
}

/// `adj[f][k]` for all faces, when the first `n` corners have been seen.
spec fn is_adjacency(faces: Seq<[u32; 3]>, adj: Seq<[i64; 3]>, n: int) -> bool {
    &&& adj.len() == faces.len()
    &&& forall|f: int, k: int|
        #![trigger adj[f][k]]
        0 <= f < faces.len() && 0 <= k < 3 ==> adj[f][k] == face_across(faces, 3 * f + k, n)
}

fn edge_key(a: u32, b: u32) -> (r: (u32, u32))
    ensures
        r == smooth::edge_between(a, b),
{
    if a < b {
        (a, b)
    } else {
        (b, a)
    }
}

/// Edge-shared face adjacency: `adj[f][k]` is the face across edge `k` of face `f`, or -1
/// on a boundary.
pub fn face_adjacency(faces: &Vec<[u32; 3]>) -> (adj: Vec<[i64; 3]>)
    requires
        faces@.len() <= u32::MAX,
    ensures
        adj@.len() == faces@.len(),
        forall|f: int, k: int|
            #![trigger adj@[f][k]]
            0 <= f < faces@.len() && 0 <= k < 3 ==> adj@[f][k] == face_across(
                faces@,
                3 * f + k,
                3 * faces@.len() as int,
            ),
{
    let ghost fs = faces@;
    let mut owner: FxHashMap<(u32, u32), u32> = FxHashMap::default();
    let mut adj: Vec<[i64; 3]> = Vec::new();
    for f in 0..faces.len()
        invariant
            adj@.len() == f,
            forall|g: int, k: int| #![trigger adj@[g][k]] 0 <= g < f && 0 <= k < 3 ==> adj@[g][k] == -1,
    {
        let none: [i64; 3] = [-1, -1, -1];
        adj.push(none);
    }
    let mut fi: usize = 0;
    let mut k: usize = 0;
    let ghost mut s: int = 0;
    while fi < faces.len()
        invariant
            fs == faces@,
            fs.len() <= u32::MAX,
            fi <= fs.len(),
            k < 3,
            fi == fs.len() ==> k == 0,
            s == 3 * fi + k,
            is_adjacency(fs, adj@, s),
            forall|e: (u32, u32)| #[trigger]
                owner@.contains_key(e) <==> first_slot(fs, e, s) >= 0,
            forall|e: (u32, u32)|
                owner@.contains_key(e) ==> #[trigger] owner@[e] == first_slot(fs, e, s) / 3,
        decreases fs.len() - fi, 3 - k,
    {
        let f = faces[fi];
        let key = edge_key(f[k], f[(k + 1) % 3]);
        assert(s / 3 == fi && s % 3 == k);
        assert(key == smooth::edge_at(fs, s));
        let ghost before = adj@;
        proof {
            slots_are_slots(fs, key, s);
            slots_are_slots(fs, key, s + 1);
        }
        match fx::pairs_get(&owner, key) {
            Some(other) => {
                let o: usize = other as usize;
                adj[fi][k] = other as i64;
                let of = faces[o];
                let mut ok: usize = 0;
                while ok < 3
                    invariant
                        fs == faces@,
                        ok <= 3,
                        o < fs.len(),
                        fi < fs.len(),
                        fi <= u32::MAX,
                        k < 3,
                        of == fs[o as int],
                        adj@.len() == fs.len(),
                        forall|g: int, m: int|
                            #![trigger adj@[g][m]]
                            0 <= g < fs.len() && 0 <= m < 3 ==> adj@[g][m] == (if g == o && m < ok
                                && smooth::edge_at(fs, 3 * g + m) == key {
                                fi as i64
                            } else if g == fi && m == k {
                                other as i64
                            } else {
                                before[g][m]
                            }),
                    decreases 3 - ok,
                {
                    let e = edge_key(of[ok], of[(ok + 1) % 3]);
                    assert(e == smooth::edge_at(fs, 3 * o + ok));
                    if e.0 == key.0 && e.1 == key.1 {
                        adj[o][ok] = fi as i64;
                    }
                    ok = ok + 1;
                }
            },
            None => {
                fx::pairs_insert(&mut owner, key, fi as u32);
            },
        }
        proof {
            assert forall|e: (u32, u32)| e != key implies #[trigger] first_slot(fs, e, s + 1)
                == first_slot(fs, e, s) && last_slot(fs, e, s + 1) == last_slot(
                fs,
                e,
                s,
            ) by {}
            assert forall|g: int, m: int|
                #![trigger adj@[g][m]]
                0 <= g < fs.len() && 0 <= m < 3 implies adj@[g][m] == face_across(
                fs,
                3 * g + m,
                s + 1,
            ) by {
                let e = smooth::edge_at(fs, 3 * g + m);
                assert(before[g][m] == face_across(fs, 3 * g + m, s));
                assert((3 * g + m) / 3 == g);
                if e != key {
                    assert(first_slot(fs, e, s + 1) == first_slot(fs, e, s));
                }
            }
            s = s + 1;
        }
        if k == 2 {
            k = 0;
            fi = fi + 1;
        } else {
            k = k + 1;
        }
    }
    adj
}

/// The face across a side has a side with the same two ends. There is none only if no other side of
/// any face has both.
pub proof fn the_face_across_shares_the_side(faces: Seq<[u32; 3]>, f: int, k: int, u: u32, v: u32) -> (l: int)
    requires
        0 <= f < faces.len(),
        0 <= k < 3,
        smooth::is_side(faces, f, k, u, v),
    ensures
        ({
            let g = face_across(faces, 3 * f + k, 3 * faces.len() as int);
            if g >= 0 {
                &&& g < faces.len()
                &&& 0 <= l < 3
                &&& smooth::is_side(faces, g, l, u, v)
                &&& g != f || l != k
            } else {
                forall|h: int, m: int|
                    0 <= h < faces.len() && 0 <= m < 3 && #[trigger] smooth::is_side(
                        faces,
                        h,
                        m,
                        u,
                        v,
                    ) ==> h == f
            }
        }),
{
    let all = 3 * faces.len() as int;
    let s = 3 * f + k;
    assert(s / 3 == f && s % 3 == k);
    let e = smooth::edge_at(faces, s);
    smooth::side_is_edge(faces, s, u, v);
    slots_are_slots(faces, e, all);
    let (first, last) = (first_slot(faces, e, all), last_slot(faces, e, all));
    let g = face_across(faces, s, all);
    smooth::side_is_edge(faces, first, u, v);
    smooth::side_is_edge(faces, last, u, v);
    if g < 0 {
        assert forall|h: int, m: int|
            0 <= h < faces.len() && 0 <= m < 3 && #[trigger] smooth::is_side(
                faces,
                h,
                m,
                u,
                v,
            ) implies h == f by {
            let t = 3 * h + m;
            assert(t / 3 == h && t % 3 == m);
            smooth::side_is_edge(faces, t, u, v);
        }
        0
    } else if f == first / 3 {
        if last == s {
            first % 3
        } else {
            last % 3
        }
    } else {
        first % 3
    }
}

} // verus!
