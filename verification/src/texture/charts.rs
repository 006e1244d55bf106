//! Clustering of faces into charts.

use vstd::prelude::*;

verus! {

/// Charts stop growing at this many faces, so that packing rectangles stay sane.
pub const MAX_CHART_FACES: usize = 16384;

/// Not in a chart yet.
pub const NO_CHART: u32 = 0xffff_ffff;

/// Every entry of the adjacency is negative or a face.
pub open spec fn adjacency_ok(adj: Seq<[i64; 3]>) -> bool {
    &&& adj.len() < NO_CHART
    &&& forall|f: int, k: int|
        #![trigger adj[f][k]]
        0 <= f < adj.len() && 0 <= k < 3 ==> adj[f][k] < adj.len()
}

/// `g` is across some edge of `f`.
pub open spec fn is_next_to(adj: Seq<[i64; 3]>, f: u32, g: u32) -> bool {
    adj[f as int][0] == g || adj[f as int][1] == g || adj[f as int][2] == g
}

/// `accept(chart, n, g)` has said `verdict` of face `g` when the chart held the first `i`
/// faces of `chart` and its first `n` were in when the face next to `g` was looked at.
pub open spec fn judged<A: Fn(&Vec<u32>, usize, u32) -> bool>(
    accept: A,
    chart: Seq<u32>,
    i: int,
    n: int,
    g: u32,
    verdict: bool,
) -> bool {
    &&& 0 < n <= i <= chart.len()
    &&& exists|held: Vec<u32>|
        held@ == chart.take(i) && #[trigger] accept.ensures((&held, n as usize, g), verdict)
}

/// Face `i` of the chart got in: it is next to an earlier face and was accepted.
pub open spec fn got_in<A: Fn(&Vec<u32>, usize, u32) -> bool>(
    adj: Seq<[i64; 3]>,
    accept: A,
    chart: Seq<u32>,
    i: int,
) -> bool {
    exists|j: int, n: int|
        {
            &&& 0 <= j < n <= i
            &&& #[trigger] is_next_to(adj, chart[j], chart[i])
            &&& #[trigger] judged(accept, chart, i, n, chart[i], true)
        }
}

/// Every face of the chart but the first got in.
pub open spec fn all_got_in<A: Fn(&Vec<u32>, usize, u32) -> bool>(
    adj: Seq<[i64; 3]>,
    accept: A,
    chart: Seq<u32>,
) -> bool {
    forall|i: int| 0 < i < chart.len() ==> #[trigger] got_in(adj, accept, chart, i)
}

/// Face `g` was refused by the chart.
pub open spec fn kept_out<A: Fn(&Vec<u32>, usize, u32) -> bool>(
    accept: A,
    chart: Seq<u32>,
    g: u32,
) -> bool {
    exists|i: int, n: int| #[trigger] judged(accept, chart, i, n, g, false)
}

/// Edge `s % 3` of face `s / 3` of the chart is looked at, when the chart has its first
/// `marks[s]` faces: a free face across it is asked about, and joins if it is accepted. The
/// chart was not full when it came to the face.
pub open spec fn is_visit<A: Fn(&Vec<u32>, usize, u32) -> bool>(
    adj: Seq<[i64; 3]>,
    accept: A,
    chart: Seq<u32>,
    taken: Set<u32>,
    marks: Seq<int>,
    s: int,
) -> bool {
    let nb = adj[chart[s / 3] as int][s % 3];
    let i = marks[s];
    let n = marks[s / 3 * 3];
    &&& s / 3 < n < MAX_CHART_FACES
    &&& if nb < 0 || taken.contains(nb as u32) || chart.take(i).contains(nb as u32) {
        marks[s + 1] == i
    } else {
        ||| marks[s + 1] == i && judged(accept, chart, i, n, nb as u32, false)
        ||| marks[s + 1] == i + 1 && chart[i] == nb && judged(accept, chart, i, n, nb as u32, true)
    }
}

/// `marks` counts the faces of the chart from its first one on, before each edge that is
/// looked at: the edges of its faces one after the other, while it is not full.
pub open spec fn visits_faces<A: Fn(&Vec<u32>, usize, u32) -> bool>(
    adj: Seq<[i64; 3]>,
    accept: A,
    chart: Seq<u32>,
    taken: Set<u32>,
    marks: Seq<int>,
) -> bool {
    &&& marks.len() > 0
    &&& marks[0] == 1
    &&& marks.last() == chart.len()
    &&& forall|s: int| #![trigger marks[s]] 0 <= s < marks.len() ==> 1 <= marks[s] <= chart.len()
    &&& forall|s: int|
        0 <= s < marks.len() - 1 ==> #[trigger] is_visit(adj, accept, chart, taken, marks, s)
}

/// `chart` grew breadth-first: the edges of its faces were looked at one face after the
/// other, until all were or the chart was full.
pub open spec fn grew_in_order<A: Fn(&Vec<u32>, usize, u32) -> bool>(
    adj: Seq<[i64; 3]>,
    accept: A,
    chart: Seq<u32>,
    taken: Set<u32>,
) -> bool {
    exists|marks: Seq<int>|
        {
            &&& #[trigger] visits_faces(adj, accept, chart, taken, marks)
            &&& marks.len() % 3 == 1
            &&& marks.len() == 3 * chart.len() + 1 || chart.len() >= MAX_CHART_FACES
        }
}

/// `chart` was grown from its first face while the faces of `taken` were in other charts:
/// it starts with the lowest free face and grows breadth-first; every later face got in over
/// a shared edge, and, unless the chart is full, every free face next to it was refused.
pub open spec fn is_grown<A: Fn(&Vec<u32>, usize, u32) -> bool>(
    adj: Seq<[i64; 3]>,
    accept: A,
    chart: Seq<u32>,
    taken: Set<u32>,
) -> bool {
    &&& chart.len() > 0
    &&& chart.no_duplicates()
    &&& forall|i: int| 0 <= i < chart.len() ==> #[trigger] chart[i] < adj.len()
    &&& forall|i: int| 0 <= i < chart.len() ==> !taken.contains(#[trigger] chart[i])
    &&& forall|f: u32| f < chart[0] ==> #[trigger] taken.contains(f)
    &&& grew_in_order(adj, accept, chart, taken)
    &&& all_got_in(adj, accept, chart)
    &&& chart.len() < MAX_CHART_FACES ==> forall|i: int, g: u32|
        #![trigger is_next_to(adj, chart[i], g)]
        0 <= i < chart.len() && g < adj.len() && is_next_to(adj, chart[i], g) ==> taken.contains(g)
            || chart.contains(g) || kept_out(accept, chart, g)
}

/// The faces of the first `n` charts.
pub open spec fn faces_of(charts: Seq<Vec<u32>>, n: int) -> Set<u32> {
    Set::new(|f: u32| exists|c: int| 0 <= c < n && (#[trigger] charts[c])@.contains(f))
}

/// `chart_of` says of every face which chart it is in.
pub open spec fn is_partition(charts: Seq<Vec<u32>>, chart_of: Seq<u32>) -> bool {
    &&& forall|f: int|
        0 <= f < chart_of.len() ==> #[trigger] chart_of[f] < charts.len()
            && charts[chart_of[f] as int]@.contains(f as u32)
    &&& forall|c: int, i: int|
        #![trigger charts[c]@[i]]
        0 <= c < charts.len() && 0 <= i < charts[c]@.len() ==> charts[c]@[i] < chart_of.len()
            && chart_of[charts[c]@[i] as int] == c
    &&& forall|c: int| 0 <= c < charts.len() ==> (#[trigger] charts[c])@.no_duplicates()
}

/// No face is in two charts.
pub proof fn charts_are_disjoint(charts: Seq<Vec<u32>>, chart_of: Seq<u32>, a: int, b: int, f: u32)
    requires
        is_partition(charts, chart_of),
        0 <= a < charts.len(),
        0 <= b < charts.len(),
        charts[a]@.contains(f),
        charts[b]@.contains(f),
    ensures
        a == b,
{
    let i = charts[a]@.index_of(f);
    let j = charts[b]@.index_of(f);
    assert(charts[a]@[i] == f && charts[b]@[j] == f);
}

/// `accept` can be asked of every chart.
pub open spec fn can_judge<A: Fn(&Vec<u32>, usize, u32) -> bool>(accept: A, n: nat) -> bool {
    forall|held: Vec<u32>, m: usize, g: u32|
        g < n && 0 < m <= held@.len() && (forall|i: int|
            0 <= i < held@.len() ==> #[trigger] held@[i] < n) ==> #[trigger] accept.requires(
            (&held, m, g),
        )
}

/// The state while the chart `id` grows: the faces before it are in charts below `id`.
spec fn growing(
    adj: Seq<[i64; 3]>,
    chart_of: Seq<u32>,
    id: u32,
    taken: Set<u32>,
    chart: Seq<u32>,
) -> bool {
    &&& chart_of.len() == adj.len()
    &&& chart.len() > 0
    &&& chart.no_duplicates()
    &&& forall|i: int| 0 <= i < chart.len() ==> #[trigger] chart[i] < adj.len()
    &&& forall|f: int|
        #![trigger chart_of[f]]
        0 <= f < chart_of.len() ==> {
            &&& chart_of[f] == id <==> chart.contains(f as u32)
            &&& chart_of[f] == NO_CHART <==> !taken.contains(f as u32) && !chart.contains(f as u32)
            &&& chart_of[f] < id <==> taken.contains(f as u32)
        }
}

/// Every free face across the first `k` edges of face `j`, and across all edges of the faces
/// before it, is in the chart or was refused.
spec fn explored<A: Fn(&Vec<u32>, usize, u32) -> bool>(
    adj: Seq<[i64; 3]>,
    accept: A,
    chart: Seq<u32>,
    taken: Set<u32>,
    j: int,
    k: int,
) -> bool {
    forall|i: int, m: int|
        #![trigger adj[chart[i] as int][m]]
        0 <= i < chart.len() && 0 <= m < 3 && (i < j || i == j && m < k) && 0
            <= adj[chart[i] as int][m] ==> {
            let g = adj[chart[i] as int][m] as u32;
            taken.contains(g) || chart.contains(g) || kept_out(accept, chart, g)
        }
}

proof fn verdicts_last<A: Fn(&Vec<u32>, usize, u32) -> bool>(accept: A, chart: Seq<u32>, f: u32)
    ensures
        forall|i: int, n: int, g: u32, v: bool| #[trigger]
            judged(accept, chart, i, n, g, v) ==> judged(accept, chart.push(f), i, n, g, v),
        forall|g: u32| #[trigger]
            kept_out(accept, chart, g) ==> kept_out(accept, chart.push(f), g),
{
    let more = chart.push(f);
    assert forall|i: int, n: int, g: u32, v: bool| #[trigger]
        judged(accept, chart, i, n, g, v) implies judged(accept, more, i, n, g, v) by {
        assert(more.take(i) =~= chart.take(i));
    }
    assert forall|g: u32| #[trigger] kept_out(accept, chart, g) implies kept_out(accept, more, g) by {
        let (i, n) = choose|i: int, n: int| #[trigger] judged(accept, chart, i, n, g, false);
        assert(judged(accept, more, i, n, g, false));
    }
}

/// Faces that got in stay in.
proof fn got_in_lasts<A: Fn(&Vec<u32>, usize, u32) -> bool>(
    adj: Seq<[i64; 3]>,
    accept: A,
    chart: Seq<u32>,
    f: u32,
    i: int,
)
    requires
        0 < i < chart.len(),
        got_in(adj, accept, chart, i),
    ensures
        got_in(adj, accept, chart.push(f), i),
{
    verdicts_last(accept, chart, f);
    let (j, n) = choose|j: int, n: int|
        {
            &&& 0 <= j < n <= i
            &&& #[trigger] is_next_to(adj, chart[j], chart[i])
            &&& #[trigger] judged(accept, chart, i, n, chart[i], true)
        };
    let more = chart.push(f);
    assert(judged(accept, more, i, n, more[i], true));
    assert(is_next_to(adj, more[j], more[i]));
}

/// The edges that were looked at stay so when a face joins.
proof fn visits_last<A: Fn(&Vec<u32>, usize, u32) -> bool>(
    adj: Seq<[i64; 3]>,
    accept: A,
    chart: Seq<u32>,
    taken: Set<u32>,
    marks: Seq<int>,
    f: u32,
)
    requires
        visits_faces(adj, accept, chart, taken, marks),
        is_visit(adj, accept, chart.push(f), taken, marks.push((chart.len() + 1) as int), marks.len() - 1),
    ensures
        visits_faces(adj, accept, chart.push(f), taken, marks.push((chart.len() + 1) as int)),
{
    let more = chart.push(f);
    let longer = marks.push((chart.len() + 1) as int);
    verdicts_last(accept, chart, f);
    assert forall|s: int| 0 <= s < longer.len() - 1 implies #[trigger] is_visit(
        adj,
        accept,
        more,
        taken,
        longer,
        s,
    ) by {
        if s < marks.len() - 1 {
            assert(is_visit(adj, accept, chart, taken, marks, s));
            let i = marks[s];
            let j = s / 3 * 3;
            assert(longer[s] == marks[s] && longer[s + 1] == marks[s + 1] && longer[j] == marks[j]);
            assert(more[s / 3] == chart[s / 3]);
            assert(more.take(i) =~= chart.take(i));
            if marks[s + 1] == i + 1 {
                assert(more[i] == chart[i]);
            }
        }
    }
}

/// The same, where no face joins.
proof fn visits_go_on<A: Fn(&Vec<u32>, usize, u32) -> bool>(
    adj: Seq<[i64; 3]>,
    accept: A,
    chart: Seq<u32>,
    taken: Set<u32>,
    marks: Seq<int>,
)
    requires
        visits_faces(adj, accept, chart, taken, marks),
        is_visit(
            adj,
            accept,
            chart,
            taken,
            marks.push(chart.len() as int),
            marks.len() - 1,
        ),
    ensures
        visits_faces(adj, accept, chart, taken, marks.push(chart.len() as int)),
{
    let longer = marks.push(chart.len() as int);
    assert forall|s: int| 0 <= s < longer.len() - 1 implies #[trigger] is_visit(
        adj,
        accept,
        chart,
        taken,
        longer,
        s,
    ) by {
        if s < marks.len() - 1 {
            assert(is_visit(adj, accept, chart, taken, marks, s));
            let j = s / 3 * 3;
            assert(longer[s] == marks[s] && longer[s + 1] == marks[s + 1] && longer[j] == marks[j]);
        }
    }
}

/// A free face across edge `k` of face `head` joins the chart.
proof fn face_joined<A: Fn(&Vec<u32>, usize, u32) -> bool>(
    adj: Seq<[i64; 3]>,
    accept: A,
    chart: Seq<u32>,
    taken: Set<u32>,
    head: int,
    k: int,
    seen: int,
    g: u32,
)
    requires
        0 <= head < seen <= chart.len(),
        0 <= k < 3,
        adj[chart[head] as int][k] == g,
        all_got_in(adj, accept, chart),
        explored(adj, accept, chart, taken, head, k),
        judged(accept, chart, chart.len() as int, seen, g, true),
    ensures
        all_got_in(adj, accept, chart.push(g)),
        explored(adj, accept, chart.push(g), taken, head, k + 1),
{
    let more = chart.push(g);
    verdicts_last(accept, chart, g);
    pushed_contains(chart, g);
    let last = chart.len() as int;
    assert(more[last] == g && more[head] == chart[head]);
    assert(judged(accept, more, last, seen, more[last], true));
    assert(is_next_to(adj, more[head], more[last]));
    assert(got_in(adj, accept, more, last));
    assert forall|i: int| 0 < i < more.len() implies #[trigger] got_in(adj, accept, more, i) by {
        if i < chart.len() {
            assert(got_in(adj, accept, chart, i));
            got_in_lasts(adj, accept, chart, g, i);
        }
    }
    assert forall|i: int, m: int|
        #![trigger adj[more[i] as int][m]]
        0 <= i < more.len() && 0 <= m < 3 && (i < head || i == head && m < k + 1) && 0
            <= adj[more[i] as int][m] implies ({
        let h = adj[more[i] as int][m] as u32;
        taken.contains(h) || more.contains(h) || kept_out(accept, more, h)
    }) by {
        assert(chart[i] == more[i]);
        if i < head || m < k {
            assert(adj[chart[i] as int][m] == adj[more[i] as int][m]);
        }
    }
}

/// A face across edge `k` of face `head` does not join.
proof fn face_passed<A: Fn(&Vec<u32>, usize, u32) -> bool>(
    adj: Seq<[i64; 3]>,
    accept: A,
    chart: Seq<u32>,
    taken: Set<u32>,
    head: int,
    k: int,
)
    requires
        0 <= head < chart.len(),
        0 <= k < 3,
        explored(adj, accept, chart, taken, head, k),
        adj[chart[head] as int][k] >= 0 ==> {
            let g = adj[chart[head] as int][k] as u32;
            taken.contains(g) || chart.contains(g) || kept_out(accept, chart, g)
        },
    ensures
        explored(adj, accept, chart, taken, head, k + 1),
{
}

/// Edge `k` of face `j` has this place.
proof fn visit_at(j: int, k: int)
    requires
        0 <= k < 3,
    ensures
        (3 * j + k) / 3 == j,
        (3 * j + k) % 3 == k,
        (3 * j + k) / 3 * 3 == 3 * j,
        (3 * j + k + 1) / 3 == (if k == 2 {
            j + 1
        } else {
            j
        }),
{
}

/// Grow the chart of `seed`. Returns its faces in the order in which they got in.
fn grow_chart<A: Fn(&Vec<u32>, usize, u32) -> bool>(
    adj: &Vec<[i64; 3]>,
    accept: &A,
    seed: u32,
    id: u32,
    chart_of: &mut Vec<u32>,
    Ghost(taken): Ghost<Set<u32>>,
) -> (chart: Vec<u32>)
    requires
        adjacency_ok(adj@),
        can_judge(*accept, adj@.len()),
        id < NO_CHART,
        seed < adj@.len(),
        old(chart_of)@.len() == adj@.len(),
        forall|f: u32| f < seed ==> #[trigger] taken.contains(f),
        !taken.contains(seed),
        forall|f: int|
            #![trigger old(chart_of)@[f]]
            0 <= f < adj@.len() ==> {
                &&& old(chart_of)@[f] == NO_CHART <==> !taken.contains(f as u32)
                &&& old(chart_of)@[f] < id <==> taken.contains(f as u32)
            },
    ensures
        is_grown(adj@, *accept, chart@, taken),
        growing(adj@, final(chart_of)@, id, taken, chart@),
        chart@[0] == seed,
        forall|f: int|
            0 <= f < adj@.len() && taken.contains(f as u32) ==> #[trigger] final(chart_of)@[f]
                == old(chart_of)@[f],
{
    let ghost n_faces = adj@.len();
    let ghost before = chart_of@;
    let mut chart: Vec<u32> = Vec::new();
    chart.push(seed);
    chart_of.set(seed as usize, id);
    let mut head: usize = 0;
    let mut open: bool = true;
    let ghost mut marks: Seq<int> = seq![1int];
    proof {
        assert(chart@[0] == seed);
        assert(visits_faces(adj@, *accept, chart@, taken, marks));
        assert forall|f: u32| #[trigger] chart@.contains(f) <==> f == seed by {}
    }
    while open && head < chart.len()
        invariant
            n_faces == adj@.len(),
            adjacency_ok(adj@),
            can_judge(*accept, n_faces),
            id < NO_CHART,
            head <= chart@.len(),
            chart@[0] == seed,
            growing(adj@, chart_of@, id, taken, chart@),
            all_got_in(adj@, *accept, chart@),
            explored(adj@, *accept, chart@, taken, head as int, 0),
            visits_faces(adj@, *accept, chart@, taken, marks),
            marks.len() == 3 * head + 1,
            !open ==> chart@.len() >= MAX_CHART_FACES,
            forall|f: int|
                0 <= f < n_faces && taken.contains(f as u32) ==> #[trigger] chart_of@[f]
                    == before[f],
        decreases n_faces - head + (if open { 1int } else { 0int }),
    {
        proof {
            chart_fits(adj@, chart@);
        }
        if chart.len() >= MAX_CHART_FACES {
            open = false;
        } else {
            let f: u32 = chart[head];
            let seen: usize = chart.len();
            for k in 0..3usize
                invariant
                    visits_faces(adj@, *accept, chart@, taken, marks),
                    marks.len() == 3 * head + k + 1,
                    marks[3 * head] == seen,
                    seen < MAX_CHART_FACES,
                    n_faces == adj@.len(),
                    adjacency_ok(adj@),
                    can_judge(*accept, n_faces),
                    id < NO_CHART,
                    head < seen <= chart@.len(),
                    f == chart@[head as int],
                    chart@[0] == seed,
                    growing(adj@, chart_of@, id, taken, chart@),
                    all_got_in(adj@, *accept, chart@),
                    explored(adj@, *accept, chart@, taken, head as int, k as int),
                    forall|f: int|
                        0 <= f < n_faces && taken.contains(f as u32) ==> #[trigger] chart_of@[f]
                            == before[f],
            {
                let nb: i64 = adj[f as usize][k];
                if nb >= 0 {
                    let g: u32 = nb as u32;
                    let ghost held = chart@;
                    if chart_of[g as usize] == NO_CHART {
                        let ok = accept(&chart, seen, g);
                        proof {
                            assert(held.take(held.len() as int) =~= held);
                            assert(accept.ensures((&chart, seen, g), ok));
                            assert(judged(
                                *accept,
                                held,
                                held.len() as int,
                                seen as int,
                                g,
                                ok,
                            ));
                        }
                        if ok {
                            chart_of.set(g as usize, id);
                            chart.push(g);
                            proof {
                                face_joined(
                                    adj@,
                                    *accept,
                                    held,
                                    taken,
                                    head as int,
                                    k as int,
                                    seen as int,
                                    g,
                                );
                                pushed_contains(held, g);
                                visit_at(head as int, k as int);
                                verdicts_last(*accept, held, g);
                                assert(chart@.take(held.len() as int) =~= held);
                                visits_last(adj@, *accept, held, taken, marks, g);
                                marks = marks.push(chart@.len() as int);
                            }
                        } else {
                            proof {
                                visit_at(head as int, k as int);
                                visits_go_on(adj@, *accept, chart@, taken, marks);
                                marks = marks.push(chart@.len() as int);
                                assert(kept_out(*accept, chart@, g));
                                face_passed(adj@, *accept, held, taken, head as int, k as int);
                            }
                        }
                    } else {
                        proof {
                            assert(chart_of@[g as int] != NO_CHART);
                            visit_at(head as int, k as int);
                            assert(held.take(held.len() as int) =~= held);
                            visits_go_on(adj@, *accept, chart@, taken, marks);
                            marks = marks.push(chart@.len() as int);
                            face_passed(adj@, *accept, held, taken, head as int, k as int);
                        }
                    }
                } else {
                    proof {
                        visit_at(head as int, k as int);
                        visits_go_on(adj@, *accept, chart@, taken, marks);
                        marks = marks.push(chart@.len() as int);
                        face_passed(adj@, *accept, chart@, taken, head as int, k as int);
                    }
                }
            }
            head = head + 1;
        }
    }
    proof {
        assert(grew_in_order(adj@, *accept, chart@, taken));
        if chart@.len() < MAX_CHART_FACES {
            assert forall|i: int, g: u32|
                #![trigger is_next_to(adj@, chart@[i], g)]
                0 <= i < chart@.len() && g < adj@.len() && is_next_to(
                    adj@,
                    chart@[i],
                    g,
                ) implies taken.contains(g) || chart@.contains(g) || kept_out(
                *accept,
                chart@,
                g,
            ) by {
                let m: int = if adj@[chart@[i] as int][0] == g {
                    0
                } else if adj@[chart@[i] as int][1] == g {
                    1
                } else {
                    2
                };
                assert(adj@[chart@[i] as int][m] == g);
            }
        }
        assert forall|i: int| 0 <= i < chart@.len() implies !taken.contains(#[trigger] chart@[i]) by {
            let f = chart@[i];
            assert(chart@.contains(f));
            assert(chart_of@[f as int] == id);
        }
    }
    chart
}

proof fn pushed_contains(s: Seq<u32>, x: u32)
    ensures
        forall|y: u32| #[trigger] s.push(x).contains(y) <==> s.contains(y) || y == x,
{
    let t = s.push(x);
    assert forall|y: u32| #[trigger] t.contains(y) <==> s.contains(y) || y == x by {
        if s.contains(y) {
            let i = s.index_of(y);
            assert(t[i] == y);
        }
        if y == x {
            assert(t[s.len() as int] == y);
        }
    }
}

proof fn chart_fits(adj: Seq<[i64; 3]>, chart: Seq<u32>)
    requires
        chart.no_duplicates(),
        forall|i: int| 0 <= i < chart.len() ==> #[trigger] chart[i] < adj.len(),
    ensures
        chart.len() <= adj.len(),
{
    chart.unique_seq_to_set();
    crate::delaunay::locate::ids_below(chart.to_set(), adj.len());
}

/// Cluster the faces into charts: each chart grows breadth-first from the lowest free face.
/// `accept(chart, n, g)` decides whether face `g` joins: `chart` are the faces so far, of
/// which the first `n` were in when the face next to `g` was looked at.
pub fn cluster_faces<A: Fn(&Vec<u32>, usize, u32) -> bool>(adj: &Vec<[i64; 3]>, accept: A) -> (r: (
    Vec<Vec<u32>>,
    Vec<u32>,
))
    requires
        adjacency_ok(adj@),
        can_judge(accept, adj@.len()),
    ensures
        r.0@.len() <= adj@.len(),
        r.1@.len() == adj@.len(),
        is_partition(r.0@, r.1@),
        forall|c: int|
            0 <= c < r.0@.len() ==> is_grown(
                adj@,
                accept,
                (#[trigger] r.0@[c])@,
                faces_of(r.0@, c),
            ),
{
    let n: usize = adj.len();
    let mut chart_of: Vec<u32> = Vec::new();
    for f in 0..n
        invariant
            chart_of@.len() == f,
            forall|g: int| 0 <= g < f ==> #[trigger] chart_of@[g] == NO_CHART,
    {
        chart_of.push(NO_CHART);
    }
    let mut charts: Vec<Vec<u32>> = Vec::new();
    for seed in 0..n
        invariant
            n == adj@.len(),
            adjacency_ok(adj@),
            can_judge(accept, adj@.len()),
            chart_of@.len() == n,
            charts@.len() <= seed,
            charts_so_far(adj@, accept, charts@, chart_of@),
            forall|f: int| 0 <= f < seed ==> #[trigger] chart_of@[f] != NO_CHART,
    {
        if chart_of[seed] == NO_CHART {
            let id: u32 = charts.len() as u32;
            let ghost taken = faces_of(charts@, charts@.len() as int);
            let ghost before = charts@;
            let ghost was = chart_of@;
            proof {
                taken_by_id(adj@, accept, charts@, chart_of@);
                assert forall|f: u32| f < seed implies #[trigger] taken.contains(f) by {
                    assert(chart_of@[f as int] != NO_CHART);
                }
                assert(chart_of@[seed as int] == NO_CHART);
            }
            let chart = grow_chart(adj, &accept, seed as u32, id, &mut chart_of, Ghost(taken));
            let ghost grown = chart@;
            charts.push(chart);
            proof {
                assert forall|c: int| 0 <= c < charts@.len() implies is_grown(
                    adj@,
                    accept,
                    (#[trigger] charts@[c])@,
                    faces_of(charts@, c),
                ) by {
                    same_faces(before, charts@, c);
                    if c < before.len() {
                        assert(charts@[c] == before[c]);
                    }
                }
                assert forall|f: int| #![trigger chart_of@[f]]
                    0 <= f < n && chart_of@[f] != NO_CHART implies chart_of@[f] < charts@.len()
                    && charts@[chart_of@[f] as int]@.contains(f as u32) by {
                    if taken.contains(f as u32) {
                        assert(was[f] == chart_of@[f]);
                        assert(before[was[f] as int]@.contains(f as u32));
                    }
                }
                assert forall|c: int, i: int|
                    #![trigger charts@[c]@[i]]
                    0 <= c < charts@.len() && 0 <= i < charts@[c]@.len() implies charts@[c]@[i] < n
                    && chart_of@[charts@[c]@[i] as int] == c by {
                    if c < before.len() {
                        assert(before[c]@[i] == charts@[c]@[i]);
                        let f = charts@[c]@[i];
                        assert(before[c]@.contains(f));
                        assert(taken.contains(f));
                        assert(was[f as int] == c);
                    } else {
                        assert(grown[i] == charts@[c]@[i]);
                        assert(grown.contains(grown[i]));
                    }
                }
                assert(chart_of@[seed as int] == id) by {
                    assert(grown[0] == seed);
                    assert(grown.contains(seed as u32));
                }
            }
        }
    }
    proof {
        assert forall|c: int| 0 <= c < charts@.len() implies (#[trigger] charts@[c])@.no_duplicates() by {
            assert(is_grown(adj@, accept, charts@[c]@, faces_of(charts@, c)));
        }
    }
    (charts, chart_of)
}

/// The charts so far are grown, and `chart_of` knows their faces.
spec fn charts_so_far<A: Fn(&Vec<u32>, usize, u32) -> bool>(
    adj: Seq<[i64; 3]>,
    accept: A,
    charts: Seq<Vec<u32>>,
    chart_of: Seq<u32>,
) -> bool {
    &&& forall|c: int|
        0 <= c < charts.len() ==> is_grown(adj, accept, (#[trigger] charts[c])@, faces_of(charts, c))
    &&& forall|f: int|
        #![trigger chart_of[f]]
        0 <= f < chart_of.len() && chart_of[f] != NO_CHART ==> chart_of[f] < charts.len()
            && charts[chart_of[f] as int]@.contains(f as u32)
    &&& forall|c: int, i: int|
        #![trigger charts[c]@[i]]
        0 <= c < charts.len() && 0 <= i < charts[c]@.len() ==> charts[c]@[i] < chart_of.len()
            && chart_of[charts[c]@[i] as int] == c
}

proof fn taken_by_id<A: Fn(&Vec<u32>, usize, u32) -> bool>(
    adj: Seq<[i64; 3]>,
    accept: A,
    charts: Seq<Vec<u32>>,
    chart_of: Seq<u32>,
)
    requires
        charts.len() < NO_CHART,
        chart_of.len() <= u32::MAX,
        charts_so_far(adj, accept, charts, chart_of),
    ensures
        forall|f: int|
            #![trigger chart_of[f]]
            0 <= f < chart_of.len() ==> {
                let taken = faces_of(charts, charts.len() as int);
                &&& chart_of[f] == NO_CHART <==> !taken.contains(f as u32)
                &&& chart_of[f] < charts.len() <==> taken.contains(f as u32)
            },
{
    let taken = faces_of(charts, charts.len() as int);
    assert forall|f: int| #![trigger chart_of[f]] 0 <= f < chart_of.len() implies {
        &&& chart_of[f] == NO_CHART <==> !taken.contains(f as u32)
        &&& chart_of[f] < charts.len() <==> taken.contains(f as u32)
    } by {
        if chart_of[f] != NO_CHART {
            assert(charts[chart_of[f] as int]@.contains(f as u32));
        }
        if taken.contains(f as u32) {
            let c = choose|c: int| 0 <= c < charts.len() && (#[trigger] charts[c])@.contains(f as u32);
            let i = charts[c]@.index_of(f as u32);
            assert(charts[c]@[i] == f as u32);
        }
    }
}

proof fn same_faces(before: Seq<Vec<u32>>, after: Seq<Vec<u32>>, n: int)
    requires
        0 <= n <= before.len(),
        before.len() <= after.len(),
        forall|c: int| 0 <= c < before.len() ==> #[trigger] after[c] == before[c],
    ensures
        faces_of(before, n) == faces_of(after, n),
{
    assert forall|f: u32| #[trigger] faces_of(before, n).contains(f) <==> faces_of(
        after,
        n,
    ).contains(f) by {
        if faces_of(before, n).contains(f) {
            let c = choose|c: int| 0 <= c < n && (#[trigger] before[c])@.contains(f);
            assert(after[c] == before[c]);
        }
        if faces_of(after, n).contains(f) {
            let c = choose|c: int| 0 <= c < n && (#[trigger] after[c])@.contains(f);
            assert(after[c] == before[c]);
        }
    }
    assert(faces_of(before, n) =~= faces_of(after, n));
}

/// A chart is in one piece: each face but the first is across a side of an earlier one.
pub proof fn charts_are_in_one_piece<A: Fn(&Vec<u32>, usize, u32) -> bool>(
    adj: Seq<[i64; 3]>,
    accept: A,
    chart: Seq<u32>,
    taken: Set<u32>,
    i: int,
) -> (r: (int, int))
    requires
        is_grown(adj, accept, chart, taken),
        0 < i < chart.len(),
    ensures
        0 <= r.0 < i,
        0 <= r.1 < 3,
        adj[chart[r.0] as int][r.1] == chart[i],
        !taken.contains(chart[i]),
{
    assert(got_in(adj, accept, chart, i));
    let (j, n) = choose|j: int, n: int|
        {
            &&& 0 <= j < n <= i
            &&& #[trigger] is_next_to(adj, chart[j], chart[i])
            &&& #[trigger] judged(accept, chart, i, n, chart[i], true)
        };
    let k: int = if adj[chart[j] as int][0] == chart[i] {
        0
    } else if adj[chart[j] as int][1] == chart[i] {
        1
    } else {
        2
    };
    (j, k)
}

/// Charts begin at the first face that is in none: each begins after the one before.
pub proof fn charts_begin_in_order<A: Fn(&Vec<u32>, usize, u32) -> bool>(
    adj: Seq<[i64; 3]>,
    accept: A,
    all: Seq<Vec<u32>>,
    c: int,
    d: int,
)
    requires
        0 <= c < d < all.len(),
        is_grown(adj, accept, all[c]@, faces_of(all, c)),
        is_grown(adj, accept, all[d]@, faces_of(all, d)),
    ensures
        all[c]@[0] < all[d]@[0],
{
    let (a, b) = (all[c]@[0], all[d]@[0]);
    assert(all[c]@.contains(a));
    assert(faces_of(all, d).contains(a));
    assert(!faces_of(all, d).contains(b));
    if b < a {
        assert(faces_of(all, c).contains(b));
        let e = choose|e: int| 0 <= e < c && (#[trigger] all[e])@.contains(b);
        assert(faces_of(all, d).contains(b));
    }
}

/// A chart that is not full has asked about all its neighbours: a face across one of its sides is
/// in an earlier chart, in this one, or was refused when it was asked about.
pub proof fn charts_take_what_they_may<A: Fn(&Vec<u32>, usize, u32) -> bool>(
    adj: Seq<[i64; 3]>,
    accept: A,
    chart: Seq<u32>,
    taken: Set<u32>,
    i: int,
    k: int,
)
    requires
        is_grown(adj, accept, chart, taken),
        chart.len() < 16384,
        0 <= i < chart.len(),
        0 <= k < 3,
        0 <= adj[chart[i] as int][k] < adj.len() <= u32::MAX,
    ensures
        ({
            let g = adj[chart[i] as int][k] as u32;
            ||| taken.contains(g)
            ||| chart.contains(g)
            ||| exists|held: Vec<u32>, n: usize| #[trigger]
                accept.ensures((&held, n, g), false) && held@.is_prefix_of(chart) && 0 < n
                    <= held@.len()
        }),
{
    let g = adj[chart[i] as int][k] as u32;
    assert(is_next_to(adj, chart[i], g));
    if !taken.contains(g) && !chart.contains(g) {
        assert(kept_out(accept, chart, g));
        let (m, n) = choose|m: int, n: int| #[trigger] judged(accept, chart, m, n, g, false);
        let held = choose|held: Vec<u32>|
            held@ == chart.take(m) && #[trigger] accept.ensures((&held, n as usize, g), false);
        assert(held.len() <= usize::MAX);
        assert(accept.ensures((&held, n as usize, g), false));
    }
}

/// The sides that faces joined over, while the first `t` sides were looked at.
proof fn sides_so_far<A: Fn(&Vec<u32>, usize, u32) -> bool>(
    adj: Seq<[i64; 3]>,
    accept: A,
    chart: Seq<u32>,
    taken: Set<u32>,
    marks: Seq<int>,
    t: int,
) -> (sides: Seq<int>)
    requires
        visits_faces(adj, accept, chart, taken, marks),
        0 <= t < marks.len(),
    ensures
        sides.len() == marks[t] - 1,
        forall|j: int|
            #![trigger sides[j]]
            0 <= j < sides.len() ==> 0 <= sides[j] < t && sides[j] / 3 <= j && adj[chart[sides[j]
                / 3] as int][sides[j] % 3] == chart[j + 1],
        forall|i: int, j: int|
            #![trigger sides[i], sides[j]]
            0 <= i < j < sides.len() ==> sides[i] < sides[j],
    decreases t,
{
    if t == 0 {
        Seq::empty()
    } else {
        let before = sides_so_far(adj, accept, chart, taken, marks, t - 1);
        assert(is_visit(adj, accept, chart, taken, marks, t - 1));
        if marks[t] == marks[t - 1] {
            before
        } else {
            let i = marks[t - 1];
            let n = marks[(t - 1) / 3 * 3];
            assert(judged(accept, chart, i, n, chart[i], true));
            before.push(t - 1)
        }
    }
}

/// A chart grows breadth-first: its faces join over the sides of its faces in their order, so that
/// a face that joined over an earlier face comes before one that joined over a later one.
pub proof fn charts_grow_breadth_first<A: Fn(&Vec<u32>, usize, u32) -> bool>(
    adj: Seq<[i64; 3]>,
    accept: A,
    chart: Seq<u32>,
    taken: Set<u32>,
) -> (sides: Seq<int>)
    requires
        is_grown(adj, accept, chart, taken),
    ensures
        sides.len() == chart.len() - 1,
        forall|j: int|
            #![trigger sides[j]]
            0 <= j < sides.len() ==> 0 <= sides[j] && sides[j] / 3 <= j && adj[chart[sides[j]
                / 3] as int][sides[j] % 3] == chart[j + 1],
        forall|i: int, j: int|
            #![trigger sides[i], sides[j]]
            0 <= i < j < sides.len() ==> sides[i] < sides[j],
{
    let marks = choose|marks: Seq<int>|
        {
            &&& #[trigger] visits_faces(adj, accept, chart, taken, marks)
            &&& marks.len() % 3 == 1
            &&& marks.len() == 3 * chart.len() + 1 || chart.len() >= MAX_CHART_FACES
        };
    sides_so_far(adj, accept, chart, taken, marks, marks.len() - 1)
}

} // verus!
