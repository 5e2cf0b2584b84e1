use std::collections::VecDeque;

use vstd::prelude::*;
use vstd::set_lib::{lemma_int_range, lemma_len_subset, set_int_range};

use crate::graph::{
    dist, is_dist, lemma_dist_exact, lemma_walk_monotonic, reachable, walk_within, Graph,
};
use crate::instance::Instance;
use rayon::iter::{IntoParallelRefIterator, ParallelIterator};

verus! {

/// Vertex `v` has been reached: its entry is below the "unknown" mark `m`.
pub open spec fn found(row: Seq<i32>, m: int, v: int) -> bool {
    row[v] < m
}

/// The state of a breadth-first search from `s` over `g`, stopped between two steps.
///
/// `row[v]` is the distance from `s` to `v` for every reached vertex and the number of
/// vertices for every other one; `q` holds reached vertices in order of distance, none
/// more than one step farther than the first; every reached vertex outside `q` has all its
/// neighbours reached; and every vertex as close to `s` as the first of `q` is reached.
pub open spec fn bfs_inv(g: Graph, s: int, row: Seq<i32>, q: Seq<usize>) -> bool {
    let m = g.vertices@.len() as int;
    &&& row.len() == m
    &&& 0 <= s < m
    &&& row[s] == 0
    &&& forall|v: int| 0 <= v < m ==> 0 <= #[trigger] row[v] <= m
    &&& forall|v: int|
        0 <= v < m && #[trigger] found(row, m, v) ==> is_dist(g, s, v, row[v] as nat)
    &&& forall|i: int| 0 <= i < q.len() ==> #[trigger] q[i] < m && found(row, m, q[i] as int)
    &&& forall|i: int, j: int|
        0 <= i <= j < q.len() ==> row[#[trigger] q[i] as int] <= row[#[trigger] q[j] as int]
    &&& q.len() > 0 ==> row[q.last() as int] <= row[q[0] as int] + 1
    &&& forall|v: int|
        0 <= v < m && #[trigger] found(row, m, v) ==> (q.contains(v as usize) || forall|k: int|
            0 <= k < g.nbrs(v).len() ==> found(row, m, #[trigger] g.nbrs(v)[k] as int))
    &&& q.len() > 0 ==> forall|v: int|
        0 <= v < m && #[trigger] walk_within(g, s, v, row[q[0] as int] as nat) ==> found(row, m, v)
}

/// A finished search: every vertex that `s` reaches has its distance, every other one the mark.
pub open spec fn full_row(g: Graph, s: int, row: Seq<i32>) -> bool {
    let m = g.vertices@.len() as int;
    &&& row.len() == m
    &&& forall|v: int|
        0 <= v < m ==> if reachable(g, s, v) {
            #[trigger] row[v] == dist(g, s, v) && row[v] < m
        } else {
            row[v] == m
        }
}

/// Number of vertices below `n` that the search has not reached.
pub open spec fn unvisited(row: Seq<i32>, m: int, n: int) -> nat
    decreases n,
{
    if n <= 0 {
        0
    } else {
        unvisited(row, m, n - 1) + if row[n - 1] < m {
            0nat
        } else {
            1nat
        }
    }
}

/// Reaching one more vertex lowers the count of unvisited ones by one.
proof fn lemma_unvisited_update(row: Seq<i32>, m: int, n: int, v: int, d: i32)
    requires
        0 <= v < n <= row.len(),
        row[v] >= m,
        d < m,
    ensures
        unvisited(row.update(v, d), m, n) + 1 == unvisited(row, m, n),
    decreases n,
{
    if n - 1 > v {
        lemma_unvisited_update(row, m, n - 1, v, d);
    } else {
        assert forall|k: int| 0 <= k < n - 1 implies row.update(v, d)[k] == row[k] by {}
        lemma_unvisited_same(row.update(v, d), row, m, n - 1);
    }
}

/// Two rows that agree below `n` have the same unvisited count there.
proof fn lemma_unvisited_same(a: Seq<i32>, b: Seq<i32>, m: int, n: int)
    requires
        n <= a.len(),
        n <= b.len(),
        forall|k: int| 0 <= k < n ==> a[k] == b[k],
    ensures
        unvisited(a, m, n) == unvisited(b, m, n),
    decreases n,
{
    if n > 0 {
        lemma_unvisited_same(a, b, m, n - 1);
    }
}

/// A shortest walk of length `d` passes one vertex at each distance `0..=d`.
proof fn lemma_levels(g: Graph, s: int, w: int, d: nat) -> (c: Seq<int>)
    requires
        is_dist(g, s, w, d),
        0 <= s < g.vertices@.len(),
    ensures
        c.len() == d + 1,
        forall|k: int| 0 <= k <= d ==> is_dist(g, s, #[trigger] c[k], k as nat),
        forall|k: int| 0 <= k <= d ==> 0 <= #[trigger] c[k] < g.vertices@.len(),
    decreases d,
{
    if d == 0 {
        seq![w]
    } else {
        let x = choose|u: int| walk_within(g, s, u, (d - 1) as nat) && g.adjacent(u, w);
        if d >= 2 && walk_within(g, s, x, (d - 2) as nat) {
            assert(walk_within(g, s, w, (d - 1) as nat));
        }
        let c0 = lemma_levels(g, s, x, (d - 1) as nat);
        let c = c0.push(w);
        assert forall|k: int| 0 <= k <= d implies is_dist(g, s, #[trigger] c[k], k as nat) by {
            if k < d {
                assert(c[k] == c0[k]);
            }
        }
        c
    }
}

/// While a vertex is still unvisited, the search has reached more vertices than the distance
/// of the first queued one: so a newly reached vertex gets a distance below the vertex count.
proof fn lemma_room_for(g: Graph, s: int, row: Seq<i32>, q: Seq<usize>, u: int)
    requires
        bfs_inv(g, s, row, q),
        q.len() > 0,
        0 <= u < g.vertices@.len(),
        !found(row, g.vertices@.len() as int, u),
    ensures
        row[q[0] as int] + 1 < g.vertices@.len(),
{
    let m = g.vertices@.len() as int;
    let w = q[0] as int;
    let d = row[w] as nat;
    assert(found(row, m, w));
    let c = lemma_levels(g, s, w, d);
    assert forall|i: int, j: int| 0 <= i < j < c.len() implies c[i] != c[j] by {
        if c[i] == c[j] {
            lemma_dist_exact(g, s, c[i], i as nat);
            lemma_dist_exact(g, s, c[j], j as nat);
        }
    }
    assert(c.no_duplicates());
    c.unique_seq_to_set();
    let found_set = Set::new(|v: int| 0 <= v < m && found(row, m, v));
    assert forall|v: int| c.to_set().contains(v) implies found_set.contains(v) by {
        let k = choose|k: int| 0 <= k < c.len() && c[k] == v;
        assert(is_dist(g, s, c[k], k as nat));
        lemma_walk_monotonic(g, s, v, k as nat, d);
    }
    lemma_int_range(0, m);
    assert(found_set.insert(u).subset_of(set_int_range(0, m)));
    lemma_len_subset(found_set.insert(u), set_int_range(0, m));
    assert(found_set.subset_of(found_set.insert(u)));
    lemma_len_subset(found_set, found_set.insert(u));
    assert(!found_set.contains(u));
    assert(found_set.insert(u).len() == found_set.len() + 1);
    lemma_len_subset(c.to_set(), found_set);
}

/// A finished search has reached every vertex that `s` reaches.
proof fn lemma_closed_search(g: Graph, s: int, row: Seq<i32>, v: int, d: nat)
    requires
        bfs_inv(g, s, row, Seq::empty()),
        g.wf(),
        0 <= v < g.vertices@.len(),
        walk_within(g, s, v, d),
    ensures
        found(row, g.vertices@.len() as int, v),
    decreases d,
{
    let m = g.vertices@.len() as int;
    if d > 0 {
        if walk_within(g, s, v, (d - 1) as nat) {
            lemma_closed_search(g, s, row, v, (d - 1) as nat);
        } else {
            let u = choose|u: int| walk_within(g, s, u, (d - 1) as nat) && g.adjacent(u, v);
            lemma_closed_search(g, s, row, u, (d - 1) as nat);
            let k = choose|k: int| 0 <= k < g.nbrs(u).len() && g.nbrs(u)[k] == v as usize;
            assert(found(row, m, g.nbrs(u)[k] as int));
        }
    }
}

/// A finished search knows the distance of every vertex.
proof fn lemma_closed_search_full(g: Graph, s: int, row: Seq<i32>)
    requires
        bfs_inv(g, s, row, Seq::empty()),
        g.wf(),
    ensures
        full_row(g, s, row),
{
    let m = g.vertices@.len() as int;
    assert forall|v: int| 0 <= v < m implies if reachable(g, s, v) {
        #[trigger] row[v] == dist(g, s, v) && row[v] < m
    } else {
        row[v] == m
    } by {
        if reachable(g, s, v) {
            let d = choose|d: nat| walk_within(g, s, v, d);
            lemma_closed_search(g, s, row, v, d);
            assert(found(row, m, v));
            lemma_dist_exact(g, s, v, row[v] as nat);
        } else if found(row, m, v) {
            assert(is_dist(g, s, v, row[v] as nat));
        }
    }
}

/// Takes the first queued vertex, reaches its unvisited neighbours, and returns it with its
/// distance; returns `None` when the queue is empty.
fn bfs_step(graph: &Graph, Ghost(s): Ghost<int>, row: &mut Vec<i32>, q: &mut VecDeque<usize>) -> (r:
    Option<(usize, i32)>)
    requires
        graph.wf(),
        graph.vertices@.len() <= i32::MAX,
        bfs_inv(*graph, s, old(row)@, old(q)@),
    ensures
        bfs_inv(*graph, s, final(row)@, final(q)@),
        forall|v: int|
            0 <= v < final(row)@.len() && found(old(row)@, graph.vertices@.len() as int, v)
                ==> #[trigger] final(row)@[v] == old(row)@[v],
        forall|v: int|
            0 <= v < final(row)@.len() && #[trigger] found(final(row)@, graph.vertices@.len() as int, v)
                && !found(old(row)@, graph.vertices@.len() as int, v) ==> final(q)@.contains(v as usize),
        match r {
            None => old(q)@.len() == 0 && final(q)@ == old(q)@ && final(row)@ == old(row)@,
            Some((cur, d)) => {
                &&& old(q)@.len() > 0
                &&& final(q)@.len() >= old(q)@.len() - 1
                &&& cur == old(q)@[0]
                &&& d == old(row)@[cur as int]
                &&& is_dist(*graph, s, cur as int, d as nat)
                &&& unvisited(final(row)@, graph.vertices@.len() as int, graph.vertices@.len() as int)
                    + (final(q)@.len() - (old(q)@.len() - 1))
                    == unvisited(old(row)@, graph.vertices@.len() as int, graph.vertices@.len() as int)
                &&& forall|i: int| 0 <= i < old(q)@.len() - 1 ==> #[trigger] final(q)@[i] == old(q)@[i + 1]
            },
        },
{
    let ghost m = graph.vertices@.len() as int;
    let ghost q0 = q@;
    let ghost row0 = row@;
    match q.pop_front() {
        None => None,
        Some(current_vertex_id) => {
            let current_dist = row[current_vertex_id];
            assert(found(row0, m, current_vertex_id as int));
            proof {
                graph.lemma_neighbors_in_range(current_vertex_id as int);
            }
            let neighbors = graph.get_neighbors(current_vertex_id);
            let mut k: usize = 0;
            while k < neighbors.len()
                invariant
                    graph.wf(),
                    m == graph.vertices@.len(),
                    m <= i32::MAX,
                    0 <= s < m,
                    current_vertex_id < m,
                    neighbors@ == graph.nbrs(current_vertex_id as int),
                    forall|i: int| 0 <= i < neighbors@.len() ==> #[trigger] neighbors@[i] < m,
                    0 <= k <= neighbors@.len(),
                    bfs_inv(*graph, s, row0, q0),
                    q0.len() > 0,
                    q0[0] == current_vertex_id,
                    current_dist == row0[current_vertex_id as int],
                    row@.len() == m,
                    row@[s] == 0,
                    forall|v: int| 0 <= v < m ==> 0 <= #[trigger] row@[v] <= m,
                    forall|v: int|
                        0 <= v < m && #[trigger] found(row@, m, v) ==> is_dist(*graph, s, v, row@[v] as nat),
                    forall|v: int| 0 <= v < m && found(row0, m, v) ==> #[trigger] row@[v] == row0[v],
                    forall|v: int|
                        0 <= v < m && #[trigger] found(row@, m, v) && !found(row0, m, v) ==> q@.contains(v as usize),
                    q@.len() >= q0.len() - 1,
                    forall|i: int| 0 <= i < q0.len() - 1 ==> #[trigger] q@[i] == q0[i + 1],
                    forall|i: int| q0.len() - 1 <= i < q@.len() ==> {
                        &&& #[trigger] q@[i] < m
                        &&& row@[q@[i] as int] == current_dist + 1
                        &&& found(row@, m, q@[i] as int)
                        &&& !found(row0, m, q@[i] as int)
                    },
                    forall|j: int| 0 <= j < k ==> found(row@, m, #[trigger] neighbors@[j] as int),
                    unvisited(row@, m, m) + (q@.len() - (q0.len() - 1)) == unvisited(row0, m, m),
                decreases neighbors@.len() - k,
            {
                let neighbor_id = neighbors[k];
                let neighbor_dist = row[neighbor_id];
                let new_dist = current_dist + 1;
                if new_dist < neighbor_dist {
                    let ghost before = row@;
                    assert(!found(row0, m, neighbor_id as int)) by {
                        if found(row0, m, neighbor_id as int) {
                            // a reached neighbour is at most one step farther than the current vertex
                            assert(walk_within(*graph, s, current_vertex_id as int, current_dist as nat));
                            assert(graph.adjacent(current_vertex_id as int, neighbor_id as int)) by {
                                assert(neighbors@[k as int] == neighbor_id);
                            }
                            assert(walk_within(*graph, s, neighbor_id as int, (current_dist + 1) as nat));
                            lemma_dist_exact(*graph, s, neighbor_id as int, row0[neighbor_id as int] as nat);
                            crate::graph::lemma_reachable_has_dist(*graph, s, neighbor_id as int, (current_dist + 1) as nat);
                        }
                    }
                    proof {
                        lemma_room_for(*graph, s, row0, q0, neighbor_id as int);
                        if found(before, m, neighbor_id as int) {
                            assert(q@.contains(neighbor_id));
                            let i = choose|i: int| 0 <= i < q@.len() && q@[i] == neighbor_id;
                            if i < q0.len() - 1 {
                                assert(q@[i] == q0[i + 1]);
                                assert(found(row0, m, q0[i + 1] as int));
                            } else {
                                assert(row@[q@[i] as int] == current_dist + 1);
                            }
                        }
                        assert(!found(before, m, neighbor_id as int));
                        lemma_unvisited_update(before, m, m, neighbor_id as int, new_dist);
                        // the neighbour is exactly one step farther than the current vertex
                        assert(graph.adjacent(current_vertex_id as int, neighbor_id as int)) by {
                            assert(neighbors@[k as int] == neighbor_id);
                        }
                        assert(walk_within(*graph, s, neighbor_id as int, (current_dist + 1) as nat));
                        if walk_within(*graph, s, neighbor_id as int, current_dist as nat) {
                            assert(found(row0, m, neighbor_id as int));
                        }
                        assert(is_dist(*graph, s, neighbor_id as int, (current_dist + 1) as nat));
                    }
                    let ghost qb = q@;
                    row.set(neighbor_id, new_dist);
                    q.push_back(neighbor_id);
                    proof {
                        assert forall|v: int|
                            0 <= v < m && #[trigger] found(row@, m, v) implies is_dist(*graph, s, v, row@[v] as nat) by {
                            if v != neighbor_id as int {
                                assert(found(before, m, v));
                            }
                        }
                        assert forall|j: int| 0 <= j < k + 1 implies found(row@, m, #[trigger] neighbors@[j] as int) by {
                            if neighbors@[j] != neighbor_id {
                                assert(found(before, m, neighbors@[j] as int));
                            }
                        }
                        assert forall|i: int| q0.len() - 1 <= i < q@.len() implies {
                            &&& #[trigger] q@[i] < m
                            &&& row@[q@[i] as int] == current_dist + 1
                            &&& found(row@, m, q@[i] as int)
                            &&& !found(row0, m, q@[i] as int)
                        } by {
                            if i < q@.len() - 1 {
                                assert(q@[i] == qb[i]);
                                assert(qb[i] != neighbor_id);
                            }
                        }
                        assert forall|v: int|
                            0 <= v < m && #[trigger] found(row@, m, v) && !found(row0, m, v) implies q@.contains(v as usize) by {
                            if v == neighbor_id as int {
                                assert(q@[q@.len() - 1] == neighbor_id);
                            } else {
                                assert(found(before, m, v));
                                assert(qb.contains(v as usize));
                                let i = choose|i: int| 0 <= i < qb.len() && qb[i] == v as usize;
                                assert(q@[i] == v as usize);
                            }
                        }
                    }
                } else {
                    proof {
                        if !found(row@, m, neighbor_id as int) {
                            assert(!found(row0, m, neighbor_id as int));
                            lemma_room_for(*graph, s, row0, q0, neighbor_id as int);
                        }
                    }
                }
                k += 1;
            }
            proof {
                let q1 = q@;
                let row1 = row@;
                // the queue stays sorted and spans at most one step
                assert forall|i: int, j: int|
                    0 <= i <= j < q1.len() implies row1[#[trigger] q1[i] as int] <= row1[#[trigger] q1[j] as int] by {
                    if j < q0.len() - 1 {
                        assert(q1[i] == q0[i + 1]);
                        assert(q1[j] == q0[j + 1]);
                        assert(row0[q0[i + 1] as int] <= row0[q0[j + 1] as int]);
                    } else if i < q0.len() - 1 {
                        assert(q1[i] == q0[i + 1]);
                        assert(row0[q0[0] as int] <= row0[q0[i + 1] as int]);
                        assert(row0[q0[i + 1] as int] <= row0[q0.last() as int]);
                    }
                }
                if q1.len() > 0 {
                    if q0.len() - 1 > 0 {
                        assert(q1[0] == q0[1]);
                        assert(row0[q0[0] as int] <= row0[q0[1] as int]);
                        if q1.len() - 1 < q0.len() - 1 {
                            assert(q1.last() == q0.last());
                        }
                    }
                }
                assert forall|i: int| 0 <= i < q1.len() implies #[trigger] q1[i] < m && found(row1, m, q1[i] as int) by {
                    if i < q0.len() - 1 {
                        assert(q1[i] == q0[i + 1]);
                    }
                }
                // every reached vertex is queued or has all its neighbours reached
                assert forall|v: int|
                    0 <= v < m && #[trigger] found(row1, m, v) implies (q1.contains(v as usize) || forall|k: int|
                        0 <= k < graph.nbrs(v).len() ==> found(row1, m, #[trigger] graph.nbrs(v)[k] as int)) by {
                    if v != current_vertex_id as int && found(row0, m, v) {
                        if q0.contains(v as usize) {
                            let i = choose|i: int| 0 <= i < q0.len() && q0[i] == v as usize;
                            assert(i != 0);
                            assert(q1[i - 1] == q0[i]);
                        } else {
                            graph.lemma_neighbors_in_range(v);
                            assert forall|k: int| 0 <= k < graph.nbrs(v).len() implies found(row1, m, #[trigger] graph.nbrs(v)[k] as int) by {
                                let x = graph.nbrs(v)[k] as int;
                                assert(found(row0, m, x));
                                assert(row1[x] == row0[x]);
                            }
                        }
                    } else if v == current_vertex_id as int {
                        assert forall|k: int| 0 <= k < graph.nbrs(v).len() implies found(row1, m, #[trigger] graph.nbrs(v)[k] as int) by {
                            assert(found(row1, m, neighbors@[k] as int));
                        }
                    }
                }
                // every vertex as close as the new first queued vertex is reached
                if q1.len() > 0 {
                    let d1 = row1[q1[0] as int];
                    assert forall|v: int|
                        0 <= v < m && #[trigger] walk_within(*graph, s, v, d1 as nat) implies found(row1, m, v) by {
                        if d1 == current_dist {
                            assert(found(row0, m, v));
                        } else {
                            if walk_within(*graph, s, v, current_dist as nat) {
                                assert(found(row0, m, v));
                            } else {
                                let x = choose|x: int| walk_within(*graph, s, x, current_dist as nat) && graph.adjacent(x, v);
                                assert(found(row0, m, x));
                                assert(is_dist(*graph, s, x, row0[x] as nat));
                                crate::graph::lemma_reachable_has_dist(*graph, s, x, current_dist as nat);
                                lemma_dist_exact(*graph, s, x, row0[x] as nat);
                                if x != current_vertex_id as int {
                                    if q1.contains(x as usize) {
                                        let i = choose|i: int| 0 <= i < q1.len() && q1[i] == x as usize;
                                        assert(row1[q1[0] as int] <= row1[q1[i] as int]);
                                    }
                                }
                                let k = choose|k: int| 0 <= k < graph.nbrs(x).len() && graph.nbrs(x)[k] == v as usize;
                                assert(found(row1, m, graph.nbrs(x)[k] as int));
                            }
                        }
                    }
                }
                assert(bfs_inv(*graph, s, row1, q1));
            }
            Some((current_vertex_id, current_dist))
        },
    }
}


/// A finished search is a search state with an empty queue.
proof fn lemma_full_row_is_search(g: Graph, s: int, row: Seq<i32>)
    requires
        full_row(g, s, row),
        g.wf(),
        0 <= s < g.vertices@.len(),
    ensures
        bfs_inv(g, s, row, Seq::empty()),
{
    let m = g.vertices@.len() as int;
    assert(walk_within(g, s, s, 0));
    assert(is_dist(g, s, s, 0));
    lemma_dist_exact(g, s, s, 0);
    assert forall|v: int|
        0 <= v < m && #[trigger] found(row, m, v) implies is_dist(g, s, v, row[v] as nat) by {
        assert(reachable(g, s, v));
        let d = choose|d: nat| walk_within(g, s, v, d);
        crate::graph::lemma_reachable_has_dist(g, s, v, d);
    }
    assert forall|v: int|
        0 <= v < m && #[trigger] found(row, m, v) implies (Seq::<usize>::empty().contains(v as usize) || forall|k: int|
            0 <= k < g.nbrs(v).len() ==> found(row, m, #[trigger] g.nbrs(v)[k] as int)) by {
        assert(reachable(g, s, v));
        let d = choose|d: nat| walk_within(g, s, v, d);
        g.lemma_neighbors_in_range(v);
        assert forall|k: int| 0 <= k < g.nbrs(v).len() implies found(row, m, #[trigger] g.nbrs(v)[k] as int) by {
            let u = g.nbrs(v)[k] as int;
            assert(g.adjacent(v, u));
            assert(walk_within(g, s, u, d + 1));
        }
    }
}

/// The full table of distances from `goal` to every vertex, by breadth-first search.
pub fn bfs_row(graph: &Graph, goal: usize) -> (row: Vec<i32>)
    requires
        graph.wf(),
        graph.vertices@.len() <= i32::MAX,
        goal < graph.vertices@.len(),
    ensures
        full_row(*graph, goal as int, row@),
{
    let num_vertices = graph.vertices.len();
    let max_dist = num_vertices as i32;
    let mut row = vec![max_dist; num_vertices];
    row.set(goal, 0);
    let mut queue: VecDeque<usize> = VecDeque::new();
    queue.push_back(goal);
    let ghost m = num_vertices as int;
    proof {
        assert(walk_within(*graph, goal as int, goal as int, 0));
        assert forall|v: int| 0 <= v < m && #[trigger] walk_within(*graph, goal as int, v, 0) implies found(row@, m, v) by {}
        assert forall|v: int| 0 <= v < m && #[trigger] found(row@, m, v) implies v == goal by {}
        assert(queue@ == seq![goal]);
        assert(bfs_inv(*graph, goal as int, row@, queue@));
    }
    loop
        invariant
            graph.wf(),
            graph.vertices@.len() <= i32::MAX,
            m == graph.vertices@.len(),
            bfs_inv(*graph, goal as int, row@, queue@),
        decreases unvisited(row@, m, m), queue@.len(),
    {
        let ghost row_before = row@;
        let ghost q_before = queue@;
        match bfs_step(graph, Ghost(goal as int), &mut row, &mut queue) {
            None => {
                proof {
                    lemma_closed_search_full(*graph, goal as int, row@);
                }
                return row;
            },
            Some(_) => {
                assert(unvisited(row@, m, m) + (queue@.len() - (q_before.len() - 1)) == unvisited(row_before, m, m));
            },
        }
    }
}

/// `rayon`'s `par_iter().map(..).collect()` over `goals`: runs `bfs_row` from every goal in
/// parallel; the rows come back in the order of `goals`, so each is what `bfs_row` gives for
/// its goal.
#[verifier::external_body]
fn parallel_rows(graph: &Graph, goals: &Vec<usize>) -> (rows: Vec<Vec<i32>>)
    requires
        graph.wf(),
        graph.vertices@.len() <= i32::MAX,
        forall|i: int| 0 <= i < goals@.len() ==> #[trigger] goals@[i] < graph.vertices@.len(),
    ensures
        rows@.len() == goals@.len(),
        forall|i: int| 0 <= i < goals@.len() ==> full_row(*graph, goals@[i] as int, #[trigger] rows@[i]@),
{
    goals.par_iter().map(|&goal| bfs_row(graph, goal)).collect()
}

/// Distances from each agent's goal to the vertices, found on demand.
pub struct DistTable<'a> {
    pub num_vertices: usize,
    /// `table[agent][vertex]`: the distance, or `num_vertices` while not yet known.
    pub table: Vec<Vec<i32>>,
    /// The pending search of each agent.
    pub open_queues: Vec<VecDeque<usize>>,
    graph: &'a Graph,
    goals: Ghost<Seq<usize>>,
}

impl<'a> DistTable<'a> {
    /// The graph the distances are measured in.
    pub closed spec fn graph_spec(&self) -> Graph {
        *self.graph
    }

    /// The goal of each agent.
    pub closed spec fn goals_spec(&self) -> Seq<usize> {
        self.goals@
    }

    /// The number of vertices the table covers.
    pub closed spec fn size_spec(&self) -> nat {
        self.num_vertices as nat
    }

    /// The rows of the table, one per agent.
    pub closed spec fn rows_spec(&self) -> Seq<Seq<i32>> {
        self.table@.map_values(|r: Vec<i32>| r@)
    }

    /// The vertices each agent's search has yet to expand.
    pub closed spec fn queues_spec(&self) -> Seq<Seq<usize>> {
        self.open_queues@.map_values(|q: VecDeque<usize>| q@)
    }

    /// Every row is a paused breadth-first search from its agent's goal.
    pub closed spec fn wf(&self) -> bool {
        &&& self.graph.wf()
        &&& self.graph.vertices@.len() <= i32::MAX
        &&& self.num_vertices == self.graph.vertices@.len()
        &&& self.table@.len() == self.goals@.len()
        &&& self.open_queues@.len() == self.goals@.len()
        &&& forall|i: int|
            0 <= i < self.goals@.len() ==> bfs_inv(
                *self.graph,
                #[trigger] self.goals@[i] as int,
                self.table@[i]@,
                self.open_queues@[i]@,
            )
    }

    /// The table belongs to `instance`: its graph and its goals.
    pub open spec fn serves(&self, instance: &Instance) -> bool {
        &&& self.wf()
        &&& self.graph_spec() == instance.graph
        &&& self.goals_spec() == instance.goals@
    }

    /// A table that will search from each goal when first asked.
    pub fn new_lazy(instance: &'a Instance) -> (t: Self)
        requires
            instance.wf(),
        ensures
            t.serves(instance),
            t.size_spec() == instance.graph.vertices@.len(),
            t.rows_spec().len() == instance.num_agents,
            t.queues_spec().len() == instance.num_agents,
            forall|i: int, v: int|
                0 <= i < instance.num_agents && 0 <= v < instance.graph.vertices@.len() ==> #[trigger] t.rows_spec()[i][v] == (if v
                    == instance.goals@[i] {
                    0i32
                } else {
                    instance.graph.vertices@.len() as i32
                }),
            forall|i: int| 0 <= i < instance.num_agents ==> #[trigger] t.queues_spec()[i] == seq![instance.goals@[i]],
    {
        let num_vertices = instance.graph.vertices.len();
        let max_dist = num_vertices as i32;
        let ghost m = num_vertices as int;
        let mut table: Vec<Vec<i32>> = Vec::new();
        let mut open_queues: Vec<VecDeque<usize>> = Vec::new();
        let mut i: usize = 0;
        while i < instance.num_agents
            invariant
                instance.wf(),
                m == num_vertices,
                num_vertices == instance.graph.vertices@.len(),
                max_dist == num_vertices,
                0 <= i <= instance.num_agents,
                table@.len() == i,
                open_queues@.len() == i,
                forall|j: int|
                    0 <= j < i ==> bfs_inv(
                        instance.graph,
                        #[trigger] instance.goals@[j] as int,
                        table@[j]@,
                        open_queues@[j]@,
                    ),
                forall|j: int, v: int|
                    0 <= j < i && 0 <= v < m ==> #[trigger] table@[j]@[v] == (if v == instance.goals@[j] {
                        0i32
                    } else {
                        max_dist
                    }),
                forall|j: int| 0 <= j < i ==> #[trigger] open_queues@[j]@ == seq![instance.goals@[j]],
            decreases instance.num_agents - i,
        {
            let goal_id = instance.goals[i];
            let mut row = vec![max_dist; num_vertices];
            row.set(goal_id, 0);
            let mut queue: VecDeque<usize> = VecDeque::new();
            queue.push_back(goal_id);
            proof {
                assert forall|v: int|
                    0 <= v < m && #[trigger] walk_within(instance.graph, goal_id as int, v, 0) implies found(row@, m, v) by {}
                assert forall|v: int| 0 <= v < m && #[trigger] found(row@, m, v) implies v == goal_id by {}
                assert(walk_within(instance.graph, goal_id as int, goal_id as int, 0));
                assert(queue@ == seq![goal_id]);
                assert(bfs_inv(instance.graph, goal_id as int, row@, queue@));
            }
            table.push(row);
            open_queues.push(queue);
            i += 1;
        }
        DistTable {
            num_vertices,
            table,
            open_queues,
            graph: &instance.graph,
            goals: Ghost(instance.goals@),
        }
    }

    /// A table with every distance computed up front, the searches run in parallel.
    pub fn new_parallel(instance: &'a Instance) -> (t: Self)
        requires
            instance.wf(),
        ensures
            t.serves(instance),
            t.size_spec() == instance.graph.vertices@.len(),
            t.rows_spec().len() == instance.num_agents,
            t.queues_spec().len() == instance.num_agents,
            forall|i: int|
                0 <= i < instance.num_agents ==> full_row(instance.graph, instance.goals@[i] as int, #[trigger] t.rows_spec()[i]),
            forall|i: int| 0 <= i < instance.num_agents ==> (#[trigger] t.queues_spec()[i]).len() == 0,
    {
        let num_vertices = instance.graph.vertices.len();
        let table = parallel_rows(&instance.graph, &instance.goals);
        let mut open_queues: Vec<VecDeque<usize>> = Vec::new();
        let mut i: usize = 0;
        while i < instance.num_agents
            invariant
                0 <= i <= instance.num_agents,
                open_queues@.len() == i,
                forall|j: int| 0 <= j < i ==> #[trigger] open_queues@[j]@.len() == 0,
            decreases instance.num_agents - i,
        {
            open_queues.push(VecDeque::new());
            i += 1;
        }
        proof {
            assert forall|j: int| 0 <= j < instance.num_agents implies bfs_inv(
                instance.graph,
                #[trigger] instance.goals@[j] as int,
                table@[j]@,
                open_queues@[j]@,
            ) by {
                assert(open_queues@[j]@ == Seq::<usize>::empty());
                lemma_full_row_is_search(instance.graph, instance.goals@[j] as int, table@[j]@);
            }
        }
        DistTable {
            num_vertices,
            table,
            open_queues,
            graph: &instance.graph,
            goals: Ghost(instance.goals@),
        }
    }

    /// The distance from the goal of `agent_id` to `vertex_id`, searching further if needed.
    pub fn get(&mut self, agent_id: usize, vertex_id: usize) -> (d: isize)
        requires
            old(self).wf(),
            agent_id < old(self).goals_spec().len(),
            vertex_id < old(self).graph_spec().vertices@.len(),
            reachable(
                old(self).graph_spec(),
                old(self).goals_spec()[agent_id as int] as int,
                vertex_id as int,
            ),
        ensures
            final(self).wf(),
            final(self).graph_spec() == old(self).graph_spec(),
            final(self).goals_spec() == old(self).goals_spec(),
            d == dist(old(self).graph_spec(), old(self).goals_spec()[agent_id as int] as int, vertex_id as int),
            0 <= d < old(self).graph_spec().vertices@.len(),
    {
        let ghost g = *self.graph;
        let ghost s = self.goals@[agent_id as int] as int;
        let ghost m = self.num_vertices as int;
        let max_dist = self.num_vertices as i32;
        assert(bfs_inv(g, s, self.table@[agent_id as int]@, self.open_queues@[agent_id as int]@));
        if self.table[agent_id][vertex_id] < max_dist {
            proof {
                assert(found(self.table@[agent_id as int]@, m, vertex_id as int));
                lemma_dist_exact(g, s, vertex_id as int, self.table@[agent_id as int]@[vertex_id as int] as nat);
            }
            return self.table[agent_id][vertex_id] as isize;
        }
        loop
            invariant
                self.wf(),
                *self.graph == g,
                g == *old(self).graph,
                self.goals@ == old(self).goals@,
                agent_id < self.goals@.len(),
                s == self.goals@[agent_id as int] as int,
                m == g.vertices@.len(),
                vertex_id < m,
                reachable(g, s, vertex_id as int),
                found(self.table@[agent_id as int]@, m, vertex_id as int)
                    ==> self.open_queues@[agent_id as int]@.contains(vertex_id),
            decreases unvisited(self.table@[agent_id as int]@, m, m), self.open_queues@[agent_id as int]@.len(),
        {
            let ghost row0 = self.table@[agent_id as int]@;
            let ghost q0 = self.open_queues@[agent_id as int]@;
            assert(bfs_inv(g, s, row0, q0));
            let graph = self.graph;
            let step = bfs_step(graph, Ghost(s), &mut self.table[agent_id], &mut self.open_queues[agent_id]);
            let ghost row1 = self.table@[agent_id as int]@;
            let ghost q1 = self.open_queues@[agent_id as int]@;
            assert(*self.graph == g);
            assert(self.goals@ == old(self).goals@);
            match step {
                None => {
                    proof {
                        let d = choose|d: nat| walk_within(g, s, vertex_id as int, d);
                        lemma_closed_search(g, s, row1, vertex_id as int, d);
                    }
                    return 0;
                },
                Some((current_vertex_id, current_dist)) => {
                    if current_vertex_id == vertex_id {
                        proof {
                            lemma_dist_exact(g, s, vertex_id as int, current_dist as nat);
                        }
                        return current_dist as isize;
                    }
                    proof {
                        if found(row1, m, vertex_id as int) {
                            if found(row0, m, vertex_id as int) {
                                let i = choose|i: int| 0 <= i < q0.len() && q0[i] == vertex_id;
                                assert(i != 0);
                                assert(q1[i - 1] == q0[i]);
                            }
                        }
                    }
                },
            }
        }
    }
}

} // verus!
