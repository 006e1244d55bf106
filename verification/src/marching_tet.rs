//! Marching tetrahedra: one [`Crossing`] per tet edge that straddles the
//! iso-value, plus the triangle list.
//!
//! Edges are told apart by their sorted vertex pair, so a crossing is shared by
//! all tets that touch its edge.

use crate::float::F32;
use crate::seqs;
use vstd::prelude::*;

verus! {

/// Six edges of a tet, as pairs of local vertex indices.
pub const EDGE_VERTS: [(u8, u8); 6] = [(0, 1), (0, 2), (0, 3), (1, 2), (1, 3), (2, 3)];

/// Triangles of each sign pattern, as indices into the six edges; `-1` fills
/// the unused places. Bit `i` of the pattern is set where vertex `i` has a
/// positive value.
pub const TRIANGLE_TABLE: [[i8; 6]; 16] = [
    [-1, -1, -1, -1, -1, -1],
    [1, 0, 2, -1, -1, -1],
    [4, 0, 3, -1, -1, -1],
    [1, 4, 2, 1, 3, 4],
    [3, 1, 5, -1, -1, -1],
    [2, 3, 0, 2, 5, 3],
    [1, 4, 0, 1, 5, 4],
    [4, 2, 5, -1, -1, -1],
    [4, 5, 2, -1, -1, -1],
    [4, 1, 0, 4, 5, 1],
    [3, 2, 0, 3, 5, 2],
    [1, 3, 5, -1, -1, -1],
    [4, 1, 2, 4, 3, 1],
    [3, 0, 4, -1, -1, -1],
    [2, 0, 1, -1, -1, -1],
    [-1, -1, -1, -1, -1, -1],
];

/// Number of triangles of each sign pattern.
pub const NUM_TRIS: [u8; 16] = [0, 1, 1, 2, 1, 2, 2, 1, 1, 2, 2, 1, 2, 1, 1, 0];

/// An edge of the tet mesh that crosses the iso-surface; `a < b` are vertex
/// indices into the seed points.
#[derive(Copy, Clone, Debug, PartialEq, Eq, Hash, Structural)]
pub struct Crossing {
    pub a: u32,
    pub b: u32,
}

pub struct MarchingTetResult {
    /// Unique crossing edges, in order of first appearance. Vertex `i` of the
    /// output mesh lies on `crossings[i]`.
    pub crossings: Vec<Crossing>,
    /// Triangles, with indices into `crossings`.
    pub faces: Vec<[u32; 3]>,
}

/// A vertex pair, smaller id first.
pub open spec fn sorted_pair(a: u32, b: u32) -> Crossing {
    if a < b {
        Crossing { a, b }
    } else {
        Crossing { a: b, b: a }
    }
}

/// Local vertex ids of edge `k`.
pub open spec fn edge_lo(k: int) -> int {
    EDGE_VERTS[k].0 as int
}

pub open spec fn edge_hi(k: int) -> int {
    EDGE_VERTS[k].1 as int
}

/// The vertex pair of edge `k` of `tet`.
pub open spec fn tet_edge(tet: [u32; 4], k: int) -> Crossing {
    sorted_pair(tet[edge_lo(k)], tet[edge_hi(k)])
}

/// Vertex `v` lies on the positive side.
pub open spec fn positive_at(sdf: Seq<F32>, v: u32) -> bool {
    sdf[v as int].positive()
}

/// Edge `k` of `tet` has one end on the positive side and one off it.
pub open spec fn straddles(sdf: Seq<F32>, tet: [u32; 4], k: int) -> bool {
    positive_at(sdf, tet[edge_lo(k)]) != positive_at(sdf, tet[edge_hi(k)])
}

pub open spec fn bit(b: bool, weight: int) -> int {
    if b {
        weight
    } else {
        0
    }
}

/// Sign pattern of a tet.
pub open spec fn sign_pattern(sdf: Seq<F32>, tet: [u32; 4]) -> int {
    bit(positive_at(sdf, tet[0]), 1) + bit(positive_at(sdf, tet[1]), 2) + bit(
        positive_at(sdf, tet[2]),
        4,
    ) + bit(positive_at(sdf, tet[3]), 8)
}

/// The straddling edges among the first `k` edges of `tet`.
pub open spec fn tet_edges(sdf: Seq<F32>, tet: [u32; 4], k: int) -> Seq<Crossing>
    decreases k,
{
    if k <= 0 {
        Seq::empty()
    } else if straddles(sdf, tet, k - 1) {
        tet_edges(sdf, tet, k - 1).push(tet_edge(tet, k - 1))
    } else {
        tet_edges(sdf, tet, k - 1)
    }
}

/// The straddling edges of all tets, in order, with repetitions.
pub open spec fn all_edges(sdf: Seq<F32>, tets: Seq<[u32; 4]>) -> Seq<Crossing>
    decreases tets.len(),
{
    if tets.len() == 0 {
        Seq::empty()
    } else {
        all_edges(sdf, tets.drop_last()) + tet_edges(sdf, tets.last(), 6)
    }
}

/// The edges that triangle `t` of `tet` has its corners on.
pub open spec fn triangle_edges(sdf: Seq<F32>, tet: [u32; 4], t: int) -> (
    Crossing,
    Crossing,
    Crossing,
) {
    let row = TRIANGLE_TABLE[sign_pattern(sdf, tet)];
    (
        tet_edge(tet, row[t * 3] as int),
        tet_edge(tet, row[t * 3 + 1] as int),
        tet_edge(tet, row[t * 3 + 2] as int),
    )
}

/// The triangles of one tet, by the edges of their corners.
pub open spec fn tet_triangles(sdf: Seq<F32>, tet: [u32; 4]) -> Seq<(Crossing, Crossing, Crossing)> {
    Seq::new(
        NUM_TRIS[sign_pattern(sdf, tet)] as nat,
        |t: int| triangle_edges(sdf, tet, t),
    )
}

/// The triangles of all tets, by the edges of their corners.
pub open spec fn all_triangles(sdf: Seq<F32>, tets: Seq<[u32; 4]>) -> Seq<
    (Crossing, Crossing, Crossing),
>
    decreases tets.len(),
{
    if tets.len() == 0 {
        Seq::empty()
    } else {
        all_triangles(sdf, tets.drop_last()) + tet_triangles(sdf, tets.last())
    }
}

/// Face `f` has its corners on the three edges of `edges`.
pub open spec fn face_on(f: [u32; 3], edges: (Crossing, Crossing, Crossing), c: Seq<Crossing>) -> bool {
    &&& f[0] < c.len() && c[f[0] as int] == edges.0
    &&& f[1] < c.len() && c[f[1] as int] == edges.1
    &&& f[2] < c.len() && c[f[2] as int] == edges.2
}

/// Every tet indexes into `n` vertices.
pub open spec fn tets_in(tets: Seq<[u32; 4]>, n: nat) -> bool {
    forall|i: int|
        #![trigger tets[i]]
        0 <= i < tets.len() ==> tets[i][0] < n && tets[i][1] < n && tets[i][2] < n && tets[i][3] < n
}

/// `hashbrown::HashMap` from a sorted vertex pair to its crossing.
#[verifier::external_body]
pub struct EdgeIndex {
    map: hashbrown::HashMap<(u32, u32), u32>,
}

/// What an [`EdgeIndex`] holds.
pub uninterp spec fn edge_index_contents(m: EdgeIndex) -> Map<(u32, u32), u32>;

/// Calls `hashbrown::HashMap::new`: the map starts out empty.
#[verifier::external_body]
fn edge_index_new() -> (m: EdgeIndex)
    ensures
        edge_index_contents(m) == (Map::<(u32, u32), u32>::empty()),
{
    EdgeIndex { map: hashbrown::HashMap::new() }
}

/// Calls `hashbrown::HashMap::get`: the value stored under `key`, if any.
#[verifier::external_body]
fn edge_index_get(m: &EdgeIndex, key: (u32, u32)) -> (r: Option<u32>)
    ensures
        r == (if edge_index_contents(*m).contains_key(key) {
            Some(edge_index_contents(*m)[key])
        } else {
            None
        }),
{
    m.map.get(&key).copied()
}

/// Calls `hashbrown::HashMap::insert`: `key` now has `value`, every other key
/// keeps what it had.
#[verifier::external_body]
fn edge_index_insert(m: &mut EdgeIndex, key: (u32, u32), value: u32)
    ensures
        edge_index_contents(*final(m)) == edge_index_contents(*old(m)).insert(key, value),
{
    m.map.insert(key, value);
}

/// The map and the list of crossings say the same.
spec fn index_matches(m: Map<(u32, u32), u32>, c: Seq<Crossing>) -> bool {
    &&& forall|k: (u32, u32)| #[trigger]
        m.contains_key(k) ==> m[k] < c.len() && c[m[k] as int] == (Crossing { a: k.0, b: k.1 })
    &&& forall|i: int| 0 <= i < c.len() ==> m.contains_key((#[trigger] c[i].a, c[i].b))
}

/// Each triangle that the table gives for a sign pattern has its corners on
/// straddling edges.
proof fn table_rows_straddle(sdf: Seq<F32>, tet: [u32; 4], t: int, j: int)
    requires
        0 <= t < NUM_TRIS[sign_pattern(sdf, tet)],
        0 <= j < 3,
    ensures
        0 <= sign_pattern(sdf, tet) < 16,
        NUM_TRIS[sign_pattern(sdf, tet)] <= 2,
        0 <= TRIANGLE_TABLE[sign_pattern(sdf, tet)][t * 3 + j] < 6,
        straddles(sdf, tet, TRIANGLE_TABLE[sign_pattern(sdf, tet)][t * 3 + j] as int),
{
}

proof fn all_edges_take(sdf: Seq<F32>, tets: Seq<[u32; 4]>, n: int)
    requires
        0 <= n < tets.len(),
    ensures
        all_edges(sdf, tets.take(n + 1)) == all_edges(sdf, tets.take(n)) + tet_edges(sdf, tets[n], 6),
        all_triangles(sdf, tets.take(n + 1)) == all_triangles(sdf, tets.take(n)) + tet_triangles(
            sdf,
            tets[n],
        ),
{
    assert(tets.take(n + 1).drop_last() == tets.take(n));
}

proof fn all_edges_prefix(sdf: Seq<F32>, tets: Seq<[u32; 4]>, n: int)
    requires
        0 <= n <= tets.len(),
    ensures
        seqs::first_appearances(all_edges(sdf, tets.take(n))).len() <= seqs::first_appearances(
            all_edges(sdf, tets),
        ).len(),
    decreases tets.len() - n,
{
    if n == tets.len() {
        assert(tets.take(n) == tets);
    } else {
        all_edges_take(sdf, tets, n);
        seqs::first_appearances_grow(all_edges(sdf, tets.take(n)), tet_edges(sdf, tets[n], 6));
        all_edges_prefix(sdf, tets, n + 1);
    }
}

proof fn tet_edges_prefix(sdf: Seq<F32>, tet: [u32; 4], s: Seq<Crossing>, k: int)
    requires
        0 <= k <= 6,
    ensures
        seqs::first_appearances(s + tet_edges(sdf, tet, k)).len() <= seqs::first_appearances(
            s + tet_edges(sdf, tet, 6),
        ).len(),
    decreases 6 - k,
{
    if k < 6 {
        tet_edges_prefix(sdf, tet, s, k + 1);
        if straddles(sdf, tet, k) {
            assert(s + tet_edges(sdf, tet, k + 1) == (s + tet_edges(sdf, tet, k)).push(
                tet_edge(tet, k),
            ));
            seqs::first_appearances_push(s + tet_edges(sdf, tet, k), tet_edge(tet, k));
        }
    }
}

proof fn tet_edges_contains(sdf: Seq<F32>, tet: [u32; 4], k: int, n: int)
    requires
        0 <= k < n <= 6,
        straddles(sdf, tet, k),
    ensures
        tet_edges(sdf, tet, n).contains(tet_edge(tet, k)),
    decreases n,
{
    let s = tet_edges(sdf, tet, n);
    if k < n - 1 {
        tet_edges_contains(sdf, tet, k, n - 1);
        let i = tet_edges(sdf, tet, n - 1).index_of(tet_edge(tet, k));
        assert(s[i] == tet_edge(tet, k));
    } else {
        assert(s[s.len() - 1] == tet_edge(tet, k));
    }
}

proof fn tet_edges_from(sdf: Seq<F32>, tet: [u32; 4], i: int, n: int) -> (k: int)
    requires
        0 <= n <= 6,
        0 <= i < tet_edges(sdf, tet, n).len(),
    ensures
        0 <= k < n,
        straddles(sdf, tet, k),
        tet_edges(sdf, tet, n)[i] == tet_edge(tet, k),
    decreases n,
{
    if straddles(sdf, tet, n - 1) && i == tet_edges(sdf, tet, n).len() - 1 {
        n - 1
    } else {
        tet_edges_from(sdf, tet, i, n - 1)
    }
}

proof fn all_edges_contains(sdf: Seq<F32>, tets: Seq<[u32; 4]>, n: int, k: int)
    requires
        0 <= n < tets.len(),
        0 <= k < 6,
        straddles(sdf, tets[n], k),
    ensures
        all_edges(sdf, tets).contains(tet_edge(tets[n], k)),
    decreases tets.len(),
{
    let head = all_edges(sdf, tets.drop_last());
    let tail = tet_edges(sdf, tets.last(), 6);
    if n == tets.len() - 1 {
        tet_edges_contains(sdf, tets[n], k, 6);
        let i = tail.index_of(tet_edge(tets[n], k));
        assert((head + tail)[head.len() + i] == tet_edge(tets[n], k));
    } else {
        all_edges_contains(sdf, tets.drop_last(), n, k);
        let i = head.index_of(tet_edge(tets[n], k));
        assert((head + tail)[i] == tet_edge(tets[n], k));
    }
}

proof fn all_edges_from(sdf: Seq<F32>, tets: Seq<[u32; 4]>, i: int) -> (r: (int, int))
    requires
        0 <= i < all_edges(sdf, tets).len(),
    ensures
        0 <= r.0 < tets.len(),
        0 <= r.1 < 6,
        straddles(sdf, tets[r.0], r.1),
        all_edges(sdf, tets)[i] == tet_edge(tets[r.0], r.1),
    decreases tets.len(),
{
    let head = all_edges(sdf, tets.drop_last());
    if i < head.len() {
        all_edges_from(sdf, tets.drop_last(), i)
    } else {
        let k = tet_edges_from(sdf, tets.last(), i - head.len(), 6);
        (tets.len() - 1, k)
    }
}

/// The crossings are exactly the straddling tet edges, each once, however many
/// tets share it.
pub proof fn crossings_are_the_straddling_edges(sdf: Seq<F32>, tets: Seq<[u32; 4]>)
    ensures
        ({
            let crossings = seqs::first_appearances(all_edges(sdf, tets));
            &&& crossings.no_duplicates()
            &&& forall|c: Crossing| #[trigger]
                crossings.contains(c) <==> exists|n: int, k: int|
                    0 <= n < tets.len() && 0 <= k < 6 && #[trigger] straddles(sdf, tets[n], k) && c
                        == tet_edge(tets[n], k)
        }),
{
    let edges = all_edges(sdf, tets);
    seqs::first_appearances_same_elements(edges);
    assert forall|c: Crossing| #[trigger]
        seqs::first_appearances(edges).contains(c) <==> exists|n: int, k: int|
            0 <= n < tets.len() && 0 <= k < 6 && #[trigger] straddles(sdf, tets[n], k) && c
                == tet_edge(tets[n], k) by {
        if edges.contains(c) {
            let (n, k) = all_edges_from(sdf, tets, edges.index_of(c));
            assert(straddles(sdf, tets[n], k));
        }
        if exists|n: int, k: int|
            0 <= n < tets.len() && 0 <= k < 6 && #[trigger] straddles(sdf, tets[n], k) && c
                == tet_edge(tets[n], k) {
            let (n, k) = choose|n: int, k: int|
                0 <= n < tets.len() && 0 <= k < 6 && #[trigger] straddles(sdf, tets[n], k) && c
                    == tet_edge(tets[n], k);
            all_edges_contains(sdf, tets, n, k);
        }
    }
}

/// Each crossing runs from its smaller to its larger vertex and has exactly one
/// end on the positive side.
pub proof fn crossings_change_sign(sdf: Seq<F32>, tets: Seq<[u32; 4]>, i: int)
    requires
        0 <= i < seqs::first_appearances(all_edges(sdf, tets)).len(),
    ensures
        ({
            let c = seqs::first_appearances(all_edges(sdf, tets))[i];
            c.a < c.b && positive_at(sdf, c.a) != positive_at(sdf, c.b)
        }),
{
    let edges = all_edges(sdf, tets);
    let c = seqs::first_appearances(edges)[i];
    seqs::first_appearances_same_elements(edges);
    assert(seqs::first_appearances(edges).contains(c));
    let (n, k) = all_edges_from(sdf, tets, edges.index_of(c));
    assert(straddles(sdf, tets[n], k));
}

/// Tets that lie wholly on one side emit nothing.
pub proof fn uniform_signs_emit_no_geometry(sdf: Seq<F32>, tets: Seq<[u32; 4]>, side: bool)
    requires
        forall|n: int, j: int|
            #![trigger tets[n][j]]
            0 <= n < tets.len() && 0 <= j < 4 ==> positive_at(sdf, tets[n][j]) == side,
    ensures
        seqs::first_appearances(all_edges(sdf, tets)).len() == 0,
        all_triangles(sdf, tets).len() == 0,
    decreases tets.len(),
{
    if tets.len() > 0 {
        assert forall|n: int, j: int|
            #![trigger tets.drop_last()[n][j]]
            0 <= n < tets.len() - 1 && 0 <= j < 4 implies positive_at(sdf, tets.drop_last()[n][j])
            == side by {
            assert(tets.drop_last()[n] == tets[n]);
            assert(positive_at(sdf, tets[n][j]) == side);
        }
        uniform_signs_emit_no_geometry(sdf, tets.drop_last(), side);
        let tet = tets[tets.len() - 1];
        assert(positive_at(sdf, tet[0]) == side && positive_at(sdf, tet[1]) == side && positive_at(
            sdf,
            tet[2],
        ) == side && positive_at(sdf, tet[3]) == side);
        assert(tet_edges(sdf, tet, 6) == Seq::<Crossing>::empty()) by {
            reveal_with_fuel(tet_edges, 7);
        }
        seqs::first_appearances_same_elements(all_edges(sdf, tets));
        seqs::first_appearances_same_elements(all_edges(sdf, tets.drop_last()));
        assert(all_edges(sdf, tets) == all_edges(sdf, tets.drop_last()));
    }
}

/// Two triples with the same corners, one of them with two corners swapped.
pub open spec fn reversed(a: (int, int, int), b: (int, int, int)) -> bool {
    b == (a.1, a.0, a.2) || b == (a.2, a.1, a.0) || b == (a.0, a.2, a.1)
}

/// Corners of triangle `t` in row `p` of the table.
pub open spec fn table_triangle(p: int, t: int) -> (int, int, int) {
    (
        TRIANGLE_TABLE[p][t * 3] as int,
        TRIANGLE_TABLE[p][t * 3 + 1] as int,
        TRIANGLE_TABLE[p][t * 3 + 2] as int,
    )
}

/// Exchanging the two sides of the surface keeps each triangle and turns its
/// winding around.
pub proof fn opposite_pattern_reverses_winding(p: int, t: int)
    requires
        0 <= p < 16,
        0 <= t < NUM_TRIS[p],
    ensures
        NUM_TRIS[15 - p] == NUM_TRIS[p],
        reversed(table_triangle(p, t), table_triangle(15 - p, t)),
{
}

/// Triangle `tri` has a corner on edge `c`.
pub open spec fn has_corner(tri: (Crossing, Crossing, Crossing), c: Crossing) -> bool {
    tri.0 == c || tri.1 == c || tri.2 == c
}

/// The edge between two local vertices.
spec fn edge_between(i: int, j: int) -> int {
    if i > j {
        if j == 0 {
            i - 1
        } else {
            i + j
        }
    } else {
        if i == 0 {
            j - 1
        } else {
            i + j
        }
    }
}

/// Triangle `t` of pattern `p` has a corner on edge `e`.
pub open spec fn table_has(p: int, t: int, e: int) -> bool {
    let tri = table_triangle(p, t);
    tri.0 == e || tri.1 == e || tri.2 == e
}

/// Bit `i` of a sign pattern.
spec fn pattern_bit(p: int, i: int) -> bool {
    if i == 0 {
        p % 2 == 1
    } else if i == 1 {
        p / 2 % 2 == 1
    } else if i == 2 {
        p / 4 % 2 == 1
    } else {
        p / 8 % 2 == 1
    }
}

proof fn table_crosses_faces_once(p: int, i: int, j: int, k: int)
    requires
        0 <= p < 16,
        0 <= i < 4,
        0 <= j < 4,
        0 <= k < 4,
        i != j && i != k && j != k,
        pattern_bit(p, i) != pattern_bit(p, j),
        pattern_bit(p, j) == pattern_bit(p, k),
    ensures
        1 <= NUM_TRIS[p] <= 2,
        NUM_TRIS[p] == 1 ==> table_has(p, 0, edge_between(i, j)) && table_has(
            p,
            0,
            edge_between(i, k),
        ),
        NUM_TRIS[p] == 2 ==> (table_has(p, 0, edge_between(i, j)) && table_has(
            p,
            0,
            edge_between(i, k),
        )) != (table_has(p, 1, edge_between(i, j)) && table_has(p, 1, edge_between(i, k))),
{
}

/// The four vertices of a tet differ.
pub open spec fn four_differ(tet: [u32; 4]) -> bool {
    &&& tet[0] != tet[1] && tet[0] != tet[2] && tet[0] != tet[3]
    &&& tet[1] != tet[2] && tet[1] != tet[3]
    &&& tet[2] != tet[3]
}

/// Different edges of a tet are different vertex pairs.
proof fn tet_edges_differ(tet: [u32; 4], e: int, k: int)
    requires
        four_differ(tet),
        0 <= e < 6,
        0 <= k < 6,
    ensures
        tet_edge(tet, e) == tet_edge(tet, k) <==> e == k,
{
}

/// A corner of a triangle is on an edge where the table says so.
proof fn corners_by_table(sdf: Seq<F32>, tet: [u32; 4], t: int, e: int)
    requires
        four_differ(tet),
        0 <= t < NUM_TRIS[sign_pattern(sdf, tet)],
        0 <= e < 6,
    ensures
        has_corner(tet_triangles(sdf, tet)[t], tet_edge(tet, e)) == table_has(
            sign_pattern(sdf, tet),
            t,
            e,
        ),
{
    let (a, b, c) = table_triangle(sign_pattern(sdf, tet), t);
    table_rows_straddle(sdf, tet, t, 0);
    table_rows_straddle(sdf, tet, t, 1);
    table_rows_straddle(sdf, tet, t, 2);
    tet_edges_differ(tet, a, e);
    tet_edges_differ(tet, b, e);
    tet_edges_differ(tet, c, e);
}

/// The surface crosses a face of a tet, of which corner `i` is on the other side than `j`
/// and `k`, in one segment: exactly one triangle of the tet has corners on both edges that
/// are crossed. So the triangles of two tets that share the face share this side.
#[verifier::spinoff_prover]
#[verifier::rlimit(30)]
pub proof fn faces_are_crossed_once(sdf: Seq<F32>, tet: [u32; 4], i: int, j: int, k: int)
    requires
        four_differ(tet),
        0 <= i < 4,
        0 <= j < 4,
        0 <= k < 4,
        i != j && i != k && j != k,
        positive_at(sdf, tet[i]) != positive_at(sdf, tet[j]),
        positive_at(sdf, tet[j]) == positive_at(sdf, tet[k]),
    ensures
        ({
            let tris = tet_triangles(sdf, tet);
            let c = sorted_pair(tet[i], tet[j]);
            let d = sorted_pair(tet[i], tet[k]);
            exists|t: int|
                {
                    &&& 0 <= t < tris.len()
                    &&& has_corner(#[trigger] tris[t], c) && has_corner(tris[t], d)
                    &&& forall|u: int|
                        0 <= u < tris.len() && has_corner(#[trigger] tris[u], c) && has_corner(
                            tris[u],
                            d,
                        ) ==> u == t
                }
        }),
{
    let p = sign_pattern(sdf, tet);
    let tris = tet_triangles(sdf, tet);
    let (e, f) = (edge_between(i, j), edge_between(i, k));
    assert(0 <= p < 16);
    assert(forall|v: int| 0 <= v < 4 ==> pattern_bit(p, v) == positive_at(sdf, #[trigger] tet[v]));
    table_crosses_faces_once(p, i, j, k);
    assert(tet_edge(tet, e) == sorted_pair(tet[i], tet[j]));
    assert(tet_edge(tet, f) == sorted_pair(tet[i], tet[k]));
    assert forall|u: int| 0 <= u < tris.len() implies has_corner(#[trigger] tris[u], tet_edge(tet, e))
        == table_has(p, u, e) && has_corner(tris[u], tet_edge(tet, f)) == table_has(p, u, f) by {
        corners_by_table(sdf, tet, u, e);
        corners_by_table(sdf, tet, u, f);
    }
    let t: int = if table_has(p, 0, e) && table_has(p, 0, f) {
        0
    } else {
        1
    };
    assert(has_corner(tris[t], tet_edge(tet, e)) && has_corner(tris[t], tet_edge(tet, f)));
}

/// Two edges have a vertex in common.
pub open spec fn edges_meet(e: int, f: int) -> bool {
    edge_lo(e) == edge_lo(f) || edge_lo(e) == edge_hi(f) || edge_hi(e) == edge_lo(f) || edge_hi(e)
        == edge_hi(f)
}

/// Each side of each triangle of a tet lies on a face of the tet or is shared with the
/// other triangle of the tet.
pub proof fn sides_lie_on_faces(p: int, t: int, e: int, f: int)
    requires
        0 <= p < 16,
        0 <= t < NUM_TRIS[p],
        table_has(p, t, e),
        table_has(p, t, f),
        e != f,
    ensures
        edges_meet(e, f) || (NUM_TRIS[p] == 2 && table_has(p, 1 - t, e) && table_has(p, 1 - t, f)),
{
}

/// How many vertices of a tet have a value above zero.
pub open spec fn positives(sdf: Seq<F32>, tet: [u32; 4]) -> int {
    (if sdf[tet[0] as int].positive() { 1int } else { 0 }) + (if sdf[tet[1] as int].positive() {
        1int
    } else {
        0
    }) + (if sdf[tet[2] as int].positive() { 1int } else { 0 }) + (if sdf[tet[3] as int].positive() {
        1int
    } else {
        0
    })
}

/// The triangles of the tets before tet `n`: a vertex that is alone on its side is cut off by
/// one, two pairs are parted by two.
pub open spec fn triangles_before(sdf: Seq<F32>, tets: Seq<[u32; 4]>, n: int) -> int
    decreases n,
{
    if n <= 0 {
        0
    } else {
        let p = positives(sdf, tets[n - 1]);
        triangles_before(sdf, tets, n - 1) + (if p == 2 {
            2int
        } else if p == 1 || p == 3 {
            1
        } else {
            0
        })
    }
}

/// `i, j, k, l` is an even rearrangement of `0, 1, 2, 3`.
pub open spec fn is_even(i: int, j: int, k: int, l: int) -> bool {
    (i > j) == ((i > k) == ((i > l) == ((j > k) == ((j > l) == (k > l)))))
}

/// `i, j, k, l` is a rearrangement of `0, 1, 2, 3`.
pub open spec fn is_rearranged(i: int, j: int, k: int, l: int) -> bool {
    &&& 0 <= i < 4 && 0 <= j < 4 && 0 <= k < 4 && 0 <= l < 4
    &&& i != j && i != k && i != l && j != k && j != l && k != l
}

/// A side of face `f` runs from corner `a` to corner `b`.
pub open spec fn runs(f: [u32; 3], a: int, b: int) -> bool {
    f[0] == a && f[1] == b || f[1] == a && f[2] == b || f[2] == a && f[0] == b
}

/// A crossing lies between `u` and `v`.
pub open spec fn lies_between(c: Crossing, u: u32, v: u32) -> bool {
    c.a < c.b && (c.a == u && c.b == v || c.a == v && c.b == u)
}

/// What `marching_tets` returns.
spec fn is_marched(
    sdf: Seq<F32>,
    tets: Seq<[u32; 4]>,
    crossings: Seq<Crossing>,
    faces: Seq<[u32; 3]>,
) -> bool {
    &&& crossings == seqs::first_appearances(all_edges(sdf, tets))
    &&& faces.len() == all_triangles(sdf, tets).len()
    &&& forall|i: int|
        0 <= i < faces.len() ==> face_on(
            #[trigger] faces[i],
            all_triangles(sdf, tets)[i],
            crossings,
        )
}

/// A side of triangle `t` of pattern `p` runs from edge `e` to edge `f`.
spec fn table_runs(p: int, t: int, e: int, f: int) -> bool {
    let tri = table_triangle(p, t);
    tri.0 == e && tri.1 == f || tri.1 == e && tri.2 == f || tri.2 == e && tri.0 == f
}

#[verifier::spinoff_prover]
proof fn table_winds(p: int, i: int, j: int, k: int, l: int)
    requires
        0 <= p < 16,
        is_rearranged(i, j, k, l),
        pattern_bit(p, i) != pattern_bit(p, j),
        pattern_bit(p, j) == pattern_bit(p, k),
    ensures
        1 <= NUM_TRIS[p] <= 2,
        ({
            let (e, f) = (edge_between(i, j), edge_between(i, k));
            let (from, to) = if is_even(i, j, k, l) != pattern_bit(p, i) {
                (e, f)
            } else {
                (f, e)
            };
            &&& !table_runs(p, 0, to, from)
            &&& NUM_TRIS[p] == 1 ==> table_runs(p, 0, from, to)
            &&& NUM_TRIS[p] == 2 ==> table_runs(p, 0, from, to) != table_runs(p, 1, from, to)
            &&& NUM_TRIS[p] == 2 ==> !table_runs(p, 1, to, from)
        }),
{
}

/// The two triangles of a pattern have one side in common, in opposite directions.
proof fn table_quads(p: int)
    requires
        0 <= p < 16,
        NUM_TRIS[p] == 2,
    ensures
        ({
            let a = table_triangle(p, 0);
            let b = table_triangle(p, 1);
            ||| table_runs(p, 1, a.1, a.0) && !table_has(p, 1, a.2)
            ||| table_runs(p, 1, a.2, a.1) && !table_has(p, 1, a.0)
            ||| table_runs(p, 1, a.0, a.2) && !table_has(p, 1, a.1)
        }),
{
}

proof fn table_counts(sdf: Seq<F32>, tet: [u32; 4])
    ensures
        0 <= sign_pattern(sdf, tet) < 16,
        NUM_TRIS[sign_pattern(sdf, tet)] == (if positives(sdf, tet) == 2 {
            2int
        } else if positives(sdf, tet) == 1 || positives(sdf, tet) == 3 {
            1
        } else {
            0
        }),
{
}

/// A side of a triangle runs from edge `c` to edge `d`.
spec fn runs_over(tri: (Crossing, Crossing, Crossing), c: Crossing, d: Crossing) -> bool {
    tri.0 == c && tri.1 == d || tri.1 == c && tri.2 == d || tri.2 == c && tri.0 == d
}

proof fn winds_by_table(sdf: Seq<F32>, tet: [u32; 4], t: int, e: int, f: int)
    requires
        four_differ(tet),
        0 <= t < NUM_TRIS[sign_pattern(sdf, tet)],
        0 <= e < 6,
        0 <= f < 6,
    ensures
        runs_over(tet_triangles(sdf, tet)[t], tet_edge(tet, e), tet_edge(tet, f)) == table_runs(
            sign_pattern(sdf, tet),
            t,
            e,
            f,
        ),
{
    let (a, b, c) = table_triangle(sign_pattern(sdf, tet), t);
    table_rows_straddle(sdf, tet, t, 0);
    table_rows_straddle(sdf, tet, t, 1);
    table_rows_straddle(sdf, tet, t, 2);
    tet_edges_differ(tet, a, e);
    tet_edges_differ(tet, b, e);
    tet_edges_differ(tet, c, e);
    tet_edges_differ(tet, a, f);
    tet_edges_differ(tet, b, f);
    tet_edges_differ(tet, c, f);
}

proof fn triangles_stand_in_blocks(sdf: Seq<F32>, tets: Seq<[u32; 4]>, m: int)
    requires
        0 <= m <= tets.len(),
    ensures
        all_triangles(sdf, tets.take(m)).len() == triangles_before(sdf, tets, m),
        m < tets.len() ==> triangles_before(sdf, tets, m + 1) == triangles_before(sdf, tets, m)
            + tet_triangles(sdf, tets[m]).len(),
        triangles_before(sdf, tets, m) >= 0,
    decreases m,
{
    if m > 0 {
        triangles_stand_in_blocks(sdf, tets, m - 1);
        all_edges_take(sdf, tets, m - 1);
    }
    if m < tets.len() {
        table_counts(sdf, tets[m]);
    }
}

proof fn triangle_of_block(sdf: Seq<F32>, tets: Seq<[u32; 4]>, n: int, m: int, t: int)
    requires
        0 <= n < m <= tets.len(),
        0 <= t < tet_triangles(sdf, tets[n]).len(),
    ensures
        triangles_before(sdf, tets, n) + t < all_triangles(sdf, tets.take(m)).len(),
        all_triangles(sdf, tets.take(m))[triangles_before(sdf, tets, n) + t] == tet_triangles(
            sdf,
            tets[n],
        )[t],
    decreases m,
{
    all_edges_take(sdf, tets, m - 1);
    triangles_stand_in_blocks(sdf, tets, n);
    triangles_stand_in_blocks(sdf, tets, m - 1);
    if n < m - 1 {
        triangle_of_block(sdf, tets, n, m - 1, t);
    }
}

/// Face `t` of the block of tet `n`.
proof fn face_of_block(
    sdf: Seq<F32>,
    tets: Seq<[u32; 4]>,
    crossings: Seq<Crossing>,
    faces: Seq<[u32; 3]>,
    n: int,
    t: int,
)
    requires
        is_marched(sdf, tets, crossings, faces),
        0 <= n < tets.len(),
        0 <= t < triangles_before(sdf, tets, n + 1) - triangles_before(sdf, tets, n),
    ensures
        0 <= triangles_before(sdf, tets, n),
        triangles_before(sdf, tets, n) + t < faces.len(),
        t < NUM_TRIS[sign_pattern(sdf, tets[n])],
        tet_triangles(sdf, tets[n]).len() == triangles_before(sdf, tets, n + 1) - triangles_before(
            sdf,
            tets,
            n,
        ),
        face_on(
            faces[triangles_before(sdf, tets, n) + t],
            tet_triangles(sdf, tets[n])[t],
            crossings,
        ),
{
    triangles_stand_in_blocks(sdf, tets, n);
    triangle_of_block(sdf, tets, n, tets.len() as int, t);
    assert(tets.take(tets.len() as int) == tets);
}

/// The faces come tet by tet, as many as the values of the tet ask for, and each corner of each
/// lies on an edge of its tet from a vertex above zero to one that is not.
pub proof fn faces_lie_in_their_tet(
    sdf: Seq<F32>,
    tets: Seq<[u32; 4]>,
    crossings: Seq<Crossing>,
    faces: Seq<[u32; 3]>,
    n: int,
    x: int,
    c: int,
) -> (ends: (int, int))
    requires
        crossings == seqs::first_appearances(all_edges(sdf, tets)),
        faces.len() == all_triangles(sdf, tets).len(),
        forall|i: int|
            0 <= i < faces.len() ==> face_on(
                #[trigger] faces[i],
                all_triangles(sdf, tets)[i],
                crossings,
            ),
        0 <= n < tets.len(),
        four_differ(tets[n]),
        triangles_before(sdf, tets, n) <= x < triangles_before(sdf, tets, n + 1),
        0 <= c < 3,
    ensures
        faces.len() == triangles_before(sdf, tets, tets.len() as int),
        0 <= x < faces.len(),
        faces[x][0] != faces[x][1] && faces[x][1] != faces[x][2] && faces[x][2] != faces[x][0],
        faces[x][c] < crossings.len(),
        0 <= ends.0 < 4,
        0 <= ends.1 < 4,
        sdf[tets[n][ends.0] as int].positive(),
        !sdf[tets[n][ends.1] as int].positive(),
        lies_between(crossings[faces[x][c] as int], tets[n][ends.0], tets[n][ends.1]),
{
    let t = x - triangles_before(sdf, tets, n);
    let tet = tets[n];
    triangles_stand_in_blocks(sdf, tets, tets.len() as int);
    assert(tets.take(tets.len() as int) == tets);
    face_of_block(sdf, tets, crossings, faces, n, t);
    table_rows_straddle(sdf, tet, t, 0);
    table_rows_straddle(sdf, tet, t, 1);
    table_rows_straddle(sdf, tet, t, 2);
    let (e0, e1, e2) = table_triangle(sign_pattern(sdf, tet), t);
    rows_differ(sign_pattern(sdf, tet), t);
    tet_edges_differ(tet, e0, e1);
    tet_edges_differ(tet, e1, e2);
    tet_edges_differ(tet, e2, e0);
    let e: int = if c == 0 {
        e0
    } else if c == 1 {
        e1
    } else {
        e2
    };
    assert(straddles(sdf, tet, e));
    assert(crossings[faces[x][c] as int] == tet_edge(tet, e));
    if positive_at(sdf, tet[edge_lo(e)]) {
        (edge_lo(e), edge_hi(e))
    } else {
        (edge_hi(e), edge_lo(e))
    }
}

proof fn rows_differ(p: int, t: int)
    requires
        0 <= p < 16,
        0 <= t < NUM_TRIS[p],
    ensures
        ({
            let r = table_triangle(p, t);
            r.0 != r.1 && r.1 != r.2 && r.2 != r.0
        }),
{
}

/// The faces all face the same way. Where vertex `i` of a tet is on the other side of the
/// surface than `j` and `k`, exactly one face of the tet has a side between the crossings of
/// the edges `ij` and `ik`. It runs from the first to the second if `i` is not above zero and
/// `i, j, k, l` is an even order of the vertices, or `i` is above zero and the order is odd;
/// else from the second to the first, and no face runs along it the other way. As the order of
/// a face's vertices is even in one of two tets that are glued along it and odd in the other,
/// their faces run along the side that they share in opposite directions.
pub proof fn faces_wind_by_the_sides(
    sdf: Seq<F32>,
    tets: Seq<[u32; 4]>,
    crossings: Seq<Crossing>,
    faces: Seq<[u32; 3]>,
    n: int,
    i: int,
    j: int,
    k: int,
    l: int,
) -> (r: (int, int, int))
    requires
        crossings == seqs::first_appearances(all_edges(sdf, tets)),
        faces.len() == all_triangles(sdf, tets).len(),
        forall|i: int|
            0 <= i < faces.len() ==> face_on(
                #[trigger] faces[i],
                all_triangles(sdf, tets)[i],
                crossings,
            ),
        0 <= n < tets.len(),
        four_differ(tets[n]),
        is_rearranged(i, j, k, l),
        sdf[tets[n][i] as int].positive() != sdf[tets[n][j] as int].positive(),
        sdf[tets[n][j] as int].positive() == sdf[tets[n][k] as int].positive(),
    ensures
        triangles_before(sdf, tets, n) <= r.0 < triangles_before(sdf, tets, n + 1),
        0 <= r.1 < crossings.len(),
        0 <= r.2 < crossings.len(),
        lies_between(crossings[r.1], tets[n][i], tets[n][j]),
        lies_between(crossings[r.2], tets[n][i], tets[n][k]),
        ({
            let (from, to) = if is_even(i, j, k, l) != sdf[tets[n][i] as int].positive() {
                (r.1, r.2)
            } else {
                (r.2, r.1)
            };
            &&& runs(faces[r.0], from, to)
            &&& forall|x: int|
                #![trigger faces[x]]
                triangles_before(sdf, tets, n) <= x < triangles_before(sdf, tets, n + 1) ==> (runs(
                    faces[x],
                    from,
                    to,
                ) ==> x == r.0) && !runs(faces[x], to, from)
        }),
{
    let tet = tets[n];
    let p = sign_pattern(sdf, tet);
    let base = triangles_before(sdf, tets, n);
    let (e, f) = (edge_between(i, j), edge_between(i, k));
    table_counts(sdf, tet);
    triangles_stand_in_blocks(sdf, tets, n);
    assert(pattern_bit(p, 0) == positive_at(sdf, tet[0]) && pattern_bit(p, 1) == positive_at(
        sdf,
        tet[1],
    ) && pattern_bit(p, 2) == positive_at(sdf, tet[2]) && pattern_bit(p, 3) == positive_at(
        sdf,
        tet[3],
    ));
    table_winds(p, i, j, k, l);
    edge_between_is_edge(tet, i, j);
    edge_between_is_edge(tet, i, k);
    assert(straddles(sdf, tet, e) && straddles(sdf, tet, f)) by {
        edge_between_straddles(sdf, tet, i, j);
        edge_between_straddles(sdf, tet, i, k);
    }
    let (c, d) = (tet_edge(tet, e), tet_edge(tet, f));
    all_edges_contains(sdf, tets, n, e);
    all_edges_contains(sdf, tets, n, f);
    seqs::first_appearances_same_elements(all_edges(sdf, tets));
    assert(crossings.contains(c) && crossings.contains(d));
    let (a, b) = (crossings.index_of(c), crossings.index_of(d));
    let up = is_even(i, j, k, l) != sdf[tet[i] as int].positive();
    let (from, to) = if up {
        (a, b)
    } else {
        (b, a)
    };
    let (efrom, eto) = if up {
        (e, f)
    } else {
        (f, e)
    };
    assert(crossings[from] == tet_edge(tet, efrom) && crossings[to] == tet_edge(tet, eto));
    assert forall|x: int|
        #![trigger faces[x]]
        base <= x < triangles_before(sdf, tets, n + 1) implies runs(faces[x], from, to)
        == table_runs(p, x - base, efrom, eto) && runs(faces[x], to, from) == table_runs(
        p,
        x - base,
        eto,
        efrom,
    ) by {
        let t = x - base;
        face_of_block(sdf, tets, crossings, faces, n, t);
        winds_by_table(sdf, tet, t, efrom, eto);
        winds_by_table(sdf, tet, t, eto, efrom);
        face_runs(crossings, faces[x], tet_triangles(sdf, tet)[t], from, to);
        face_runs(crossings, faces[x], tet_triangles(sdf, tet)[t], to, from);
    }
    let t: int = if table_runs(p, 0, efrom, eto) {
        0
    } else {
        1
    };
    assert(runs(faces[base + t], from, to));
    (base + t, a, b)
}

/// A face runs between two crossings where its triangle runs between their edges.
proof fn face_runs(
    crossings: Seq<Crossing>,
    f: [u32; 3],
    tri: (Crossing, Crossing, Crossing),
    a: int,
    b: int,
)
    requires
        crossings.no_duplicates(),
        face_on(f, tri, crossings),
        0 <= a < crossings.len(),
        0 <= b < crossings.len(),
    ensures
        runs(f, a, b) == runs_over(tri, crossings[a], crossings[b]),
{
}

proof fn edge_between_is_edge(tet: [u32; 4], i: int, j: int)
    requires
        four_differ(tet),
        0 <= i < 4,
        0 <= j < 4,
        i != j,
    ensures
        0 <= edge_between(i, j) < 6,
        lies_between(tet_edge(tet, edge_between(i, j)), tet[i], tet[j]),
{
}

proof fn edge_between_straddles(sdf: Seq<F32>, tet: [u32; 4], i: int, j: int)
    requires
        0 <= i < 4,
        0 <= j < 4,
        i != j,
    ensures
        straddles(sdf, tet, edge_between(i, j)) == (positive_at(sdf, tet[i]) != positive_at(
            sdf,
            tet[j],
        )),
{
}

/// The two faces of a tet whose vertices are parted into pairs have one side in common, and run
/// along it in opposite directions.
pub proof fn quads_are_not_folded(
    sdf: Seq<F32>,
    tets: Seq<[u32; 4]>,
    crossings: Seq<Crossing>,
    faces: Seq<[u32; 3]>,
    n: int,
) -> (r: (int, int))
    requires
        crossings == seqs::first_appearances(all_edges(sdf, tets)),
        faces.len() == all_triangles(sdf, tets).len(),
        forall|i: int|
            0 <= i < faces.len() ==> face_on(
                #[trigger] faces[i],
                all_triangles(sdf, tets)[i],
                crossings,
            ),
        0 <= n < tets.len(),
        four_differ(tets[n]),
        positives(sdf, tets[n]) == 2,
    ensures
        triangles_before(sdf, tets, n + 1) == triangles_before(sdf, tets, n) + 2,
        ({
            let f = faces[triangles_before(sdf, tets, n)];
            let g = faces[triangles_before(sdf, tets, n) + 1];
            &&& runs(f, r.0, r.1)
            &&& runs(g, r.1, r.0)
            &&& forall|a: int, b: int|
                #![trigger runs(f, a, b)]
                runs(f, a, b) && runs(g, b, a) ==> a == r.0 && b == r.1
            &&& forall|a: int, b: int| #![trigger runs(f, a, b)] runs(f, a, b) ==> !runs(g, a, b)
        }),
{
    let tet = tets[n];
    let p = sign_pattern(sdf, tet);
    let base = triangles_before(sdf, tets, n);
    table_counts(sdf, tet);
    triangles_stand_in_blocks(sdf, tets, n);
    face_of_block(sdf, tets, crossings, faces, n, 0);
    face_of_block(sdf, tets, crossings, faces, n, 1);
    seqs::first_appearances_same_elements(all_edges(sdf, tets));
    table_quads(p);
    let (f, g) = (faces[base], faces[base + 1]);
    let (u, v) = (table_triangle(p, 0), table_triangle(p, 1));
    assert forall|t: int| 0 <= t < 2 implies ({
        let w = #[trigger] table_triangle(p, t);
        0 <= w.0 < 6 && 0 <= w.1 < 6 && 0 <= w.2 < 6 && w.0 != w.1 && w.1 != w.2 && w.2 != w.0
    }) by {
        table_rows_straddle(sdf, tet, t, 0);
        table_rows_straddle(sdf, tet, t, 1);
        table_rows_straddle(sdf, tet, t, 2);
        rows_differ(p, t);
    }
    assert forall|e: int, h: int| 0 <= e < 6 && 0 <= h < 6 implies (#[trigger] tet_edge(tet, e)
        == #[trigger] tet_edge(tet, h) <==> e == h) by {
        tet_edges_differ(tet, e, h);
    }
    assert(crossings[f[0] as int] == tet_edge(tet, u.0) && crossings[f[1] as int] == tet_edge(
        tet,
        u.1,
    ) && crossings[f[2] as int] == tet_edge(tet, u.2));
    assert(crossings[g[0] as int] == tet_edge(tet, v.0) && crossings[g[1] as int] == tet_edge(
        tet,
        v.1,
    ) && crossings[g[2] as int] == tet_edge(tet, v.2));
    if table_runs(p, 1, u.1, u.0) && !table_has(p, 1, u.2) {
        (f[0] as int, f[1] as int)
    } else if table_runs(p, 1, u.2, u.1) && !table_has(p, 1, u.0) {
        (f[1] as int, f[2] as int)
    } else {
        (f[2] as int, f[0] as int)
    }
}

/// Run marching tets. `sdf[i]` is the signed value at vertex `i`; the
/// iso-surface is `sdf = 0`.
pub fn marching_tets(tets: &[[u32; 4]], sdf: &[F32]) -> (out: MarchingTetResult)
    requires
        tets_in(tets@, sdf@.len()),
        seqs::first_appearances(all_edges(sdf@, tets@)).len() <= u32::MAX,
    ensures
        out.crossings@ == seqs::first_appearances(all_edges(sdf@, tets@)),
        out.faces@.len() == all_triangles(sdf@, tets@).len(),
        forall|i: int|
            0 <= i < out.faces@.len() ==> face_on(
                #[trigger] out.faces@[i],
                all_triangles(sdf@, tets@)[i],
                out.crossings@,
            ),
{
    let mut crossing_map = edge_index_new();
    let mut crossings: Vec<Crossing> = Vec::new();
    let mut faces: Vec<[u32; 3]> = Vec::new();

    assert(tets@.take(0) == Seq::<[u32; 4]>::empty());
    for n in 0..tets.len()
        invariant
            tets_in(tets@, sdf@.len()),
            seqs::first_appearances(all_edges(sdf@, tets@)).len() <= u32::MAX,
            crossings@ == seqs::first_appearances(all_edges(sdf@, tets@.take(n as int))),
            index_matches(edge_index_contents(crossing_map), crossings@),
            faces@.len() == all_triangles(sdf@, tets@.take(n as int)).len(),
            forall|i: int|
                0 <= i < faces@.len() ==> face_on(
                    #[trigger] faces@[i],
                    all_triangles(sdf@, tets@.take(n as int))[i],
                    crossings@,
                ),
    {
        let tet = tets[n];
        let occ: [bool; 4] = [
            sdf[tet[0] as usize].is_positive(),
            sdf[tet[1] as usize].is_positive(),
            sdf[tet[2] as usize].is_positive(),
            sdf[tet[3] as usize].is_positive(),
        ];
        let mut pattern: usize = 0;
        if occ[0] {
            pattern = pattern + 1;
        }
        if occ[1] {
            pattern = pattern + 2;
        }
        if occ[2] {
            pattern = pattern + 4;
        }
        if occ[3] {
            pattern = pattern + 8;
        }
        assert(pattern == sign_pattern(sdf@, tet));
        let tris: usize = NUM_TRIS[pattern] as usize;
        let ghost before = all_edges(sdf@, tets@.take(n as int));
        let ghost triangles = all_triangles(sdf@, tets@.take(n as int));
        proof {
            all_edges_take(sdf@, tets@, n as int);
            all_edges_prefix(sdf@, tets@, n + 1);
        }
        let mut edge_idx: [u32; 6] = [u32::MAX, u32::MAX, u32::MAX, u32::MAX, u32::MAX, u32::MAX];
        assert(before + tet_edges(sdf@, tet, 0) == before);
        for k in 0..6usize
            invariant
                n < tets@.len(),
                tet == tets@[n as int],
                tets_in(tets@, sdf@.len()),
                forall|j: int|
                    0 <= j < 4 ==> #[trigger] occ[j] == positive_at(sdf@, tet[j]),
                seqs::first_appearances(before + tet_edges(sdf@, tet, 6)).len() <= u32::MAX,
                crossings@ == seqs::first_appearances(before + tet_edges(sdf@, tet, k as int)),
                index_matches(edge_index_contents(crossing_map), crossings@),
                faces@.len() == triangles.len(),
                forall|i: int|
                    0 <= i < faces@.len() ==> face_on(
                        #[trigger] faces@[i],
                        triangles[i],
                        crossings@,
                    ),
                forall|j: int|
                    0 <= j < k && straddles(sdf@, tet, j) ==> #[trigger] edge_idx[j]
                        < crossings@.len() && crossings@[edge_idx[j] as int] == tet_edge(tet, j),
        {
            let ea: usize = EDGE_VERTS[k].0 as usize;
            let eb: usize = EDGE_VERTS[k].1 as usize;
            assert(ea < 4 && eb < 4);
            if occ[ea] != occ[eb] {
                let va: u32 = tet[ea];
                let vb: u32 = tet[eb];
                let key: (u32, u32) = if va < vb {
                    (va, vb)
                } else {
                    (vb, va)
                };
                let ghost seen = before + tet_edges(sdf@, tet, k as int);
                proof {
                    assert(before + tet_edges(sdf@, tet, k + 1) == seen.push(
                        tet_edge(tet, k as int),
                    ));
                    seqs::first_appearances_push(seen, tet_edge(tet, k as int));
                    tet_edges_prefix(sdf@, tet, before, k + 1);
                }
                let found = edge_index_get(&crossing_map, key);
                proof {
                    let edge = tet_edge(tet, k as int);
                    assert(edge == (Crossing { a: key.0, b: key.1 }));
                    if let Some(i) = found {
                        assert(crossings@[i as int] == edge);
                    } else if crossings@.contains(edge) {
                        let i = crossings@.index_of(edge);
                        assert(edge_index_contents(crossing_map).contains_key(
                            (crossings@[i].a, crossings@[i].b),
                        ));
                    }
                }
                let idx: u32 = match found {
                    Some(i) => i,
                    None => {
                        let i: u32 = crossings.len() as u32;
                        crossings.push(Crossing { a: key.0, b: key.1 });
                        edge_index_insert(&mut crossing_map, key, i);
                        i
                    },
                };
                edge_idx[k] = idx;
            }
        }
        let row = TRIANGLE_TABLE[pattern];
        for t in 0..tris
            invariant
                n < tets@.len(),
                tet == tets@[n as int],
                pattern == sign_pattern(sdf@, tet),
                pattern < 16,
                tris == NUM_TRIS[pattern as int],
                row == TRIANGLE_TABLE[pattern as int],
                faces@.len() == triangles.len() + t,
                forall|i: int|
                    0 <= i < triangles.len() ==> face_on(
                        #[trigger] faces@[i],
                        triangles[i],
                        crossings@,
                    ),
                forall|i: int|
                    0 <= i < t ==> face_on(
                        #[trigger] faces@[triangles.len() + i],
                        triangle_edges(sdf@, tet, i),
                        crossings@,
                    ),
                forall|j: int|
                    0 <= j < 6 && straddles(sdf@, tet, j) ==> #[trigger] edge_idx[j]
                        < crossings@.len() && crossings@[edge_idx[j] as int] == tet_edge(tet, j),
        {
            proof {
                table_rows_straddle(sdf@, tet, t as int, 0);
                table_rows_straddle(sdf@, tet, t as int, 1);
                table_rows_straddle(sdf@, tet, t as int, 2);
            }
            let i0: usize = row[t * 3] as usize;
            let i1: usize = row[t * 3 + 1] as usize;
            let i2: usize = row[t * 3 + 2] as usize;
            faces.push([edge_idx[i0], edge_idx[i1], edge_idx[i2]]);
        }
        proof {
            let now = triangles + tet_triangles(sdf@, tet);
            assert forall|i: int| 0 <= i < faces@.len() implies face_on(
                #[trigger] faces@[i],
                now[i],
                crossings@,
            ) by {
                if i >= triangles.len() {
                    assert(faces@[triangles.len() + (i - triangles.len())] == faces@[i]);
                }
            }
        }
    }
    assert(tets@.take(tets@.len() as int) == tets@);
    MarchingTetResult { crossings, faces }
}

} // verus!
