use rand::rngs::StdRng;
use vstd::prelude::*;

use crate::dist_table::DistTable;
use crate::graph::{
    dist, lemma_distinct_bounded, lemma_reachable_step, reachable, Config, Graph,
};
use crate::instance::Instance;
use crate::random::{random_u64, seeded_rng};

verus! {

/// A configuration under construction: `None` for an agent whose next vertex is open.
pub type PartialConfig = Vec<Option<usize>>;

/// How good a candidate vertex is for an agent; smaller is better, compared field by field.
#[derive(Clone, Copy)]
pub struct PIBTHeuristic {
    /// Distance from the candidate to the agent's goal (negated when the agent makes way).
    pub dist: isize,
    /// Number of neighbouring agents the move would stand in the way of.
    pub hindrance: usize,
    /// Random tie-breaker: a uniform number below 2^53.
    pub tie: u64,
}

impl Default for PIBTHeuristic {
    fn default() -> (h: Self)
        ensures
            h.dist == 0,
            h.hindrance == 0,
            h.tie == 0,
    {
        PIBTHeuristic { dist: 0, hindrance: 0, tie: 0 }
    }
}

/// `a` is strictly better than `b`: smaller distance, then smaller hindrance, then smaller tie.
pub open spec fn heuristic_less(a: PIBTHeuristic, b: PIBTHeuristic) -> bool {
    ||| a.dist < b.dist
    ||| a.dist == b.dist && a.hindrance < b.hindrance
    ||| a.dist == b.dist && a.hindrance == b.hindrance && a.tie < b.tie
}

impl PIBTHeuristic {
    /// Whether `self` is strictly better than `other`.
    pub fn less(&self, other: &Self) -> (r: bool)
        ensures
            r == heuristic_less(*self, *other),
    {
        self.dist < other.dist || (self.dist == other.dist && (self.hindrance < other.hindrance || (
        self.hindrance == other.hindrance && self.tie < other.tie)))
    }
}

/// Candidate `a` comes before candidate `b`: better, or as good and listed earlier.
pub open spec fn ranked_before(cost: Seq<PIBTHeuristic>, a: int, b: int) -> bool {
    heuristic_less(cost[a], cost[b]) || (!heuristic_less(cost[b], cost[a]) && a < b)
}

/// Vertex `w` was not to be had by `agent`, with the agents standing as in `now`, the claims
/// `occ` and the next vertices `q`.
pub open spec fn unavailable_then(
    now: Seq<Option<usize>>,
    occ: Seq<Option<usize>>,
    q_from: Seq<usize>,
    q: Seq<Option<usize>>,
    agent: int,
    w: int,
) -> bool {
    ||| occ[w] is Some
    ||| now[w] matches Some(j) && q[j as int] == Some(q_from[agent])
}

/// At its turn for `w`, with the claims and next vertices `a`, `agent` passed `w` over,
/// leaving `b`: `w` was not to be had and nothing changed, or the agent standing on `w`,
/// which had no next vertex, was asked to make way and stayed there, every claim and every
/// other agent's next vertex being kept.
pub open spec fn passed_over(
    now: Seq<Option<usize>>,
    q_from: Seq<usize>,
    agent: int,
    w: int,
    a: (Seq<Option<usize>>, Seq<Option<usize>>),
    b: (Seq<Option<usize>>, Seq<Option<usize>>),
) -> bool {
    ||| unavailable_then(now, a.0, q_from, a.1, agent, w) && b == a
    ||| now[w] matches Some(j) && j != agent && w != q_from[agent] && a.1[j as int] is None && !unavailable_then(
        now,
        a.0,
        q_from,
        a.1,
        agent,
        w,
    ) && b.1[j as int] == Some(w as usize) && b.0[w] == Some(j) && kept(a.0, a.1, b.0, b.1, agent)
}

/// `trials` holds the claims and next vertices at each turn of `agent` along the ranking
/// `order` of `cands`, the first being `occ0` and `q_old`: each candidate before the last turn
/// was passed over.
#[verifier::opaque]
pub open spec fn turns(
    now: Seq<Option<usize>>,
    q_from: Seq<usize>,
    agent: int,
    cands: Seq<usize>,
    order: Seq<usize>,
    occ0: Seq<Option<usize>>,
    q_old: Seq<Option<usize>>,
    trials: Seq<(Seq<Option<usize>>, Seq<Option<usize>>)>,
) -> bool {
    &&& 1 <= trials.len() <= order.len() + 1
    &&& trials[0] == (occ0, q_old)
    &&& forall|t: int|
        0 <= t < trials.len() - 1 ==> #[trigger] passed_over(
            now,
            q_from,
            agent,
            cands[order[t] as int] as int,
            trials[t],
            trials[t + 1],
        )
}

/// The turns begin with the claims and next vertices the call began with.
proof fn lemma_turns_start(
    now: Seq<Option<usize>>,
    q_from: Seq<usize>,
    agent: int,
    cands: Seq<usize>,
    order: Seq<usize>,
    occ0: Seq<Option<usize>>,
    q_old: Seq<Option<usize>>,
)
    ensures
        turns(now, q_from, agent, cands, order, occ0, q_old, seq![(occ0, q_old)]),
{
    reveal(turns);
}

/// One more turn passed over extends the turns.
proof fn lemma_turns_push(
    now: Seq<Option<usize>>,
    q_from: Seq<usize>,
    agent: int,
    cands: Seq<usize>,
    order: Seq<usize>,
    occ0: Seq<Option<usize>>,
    q_old: Seq<Option<usize>>,
    trials: Seq<(Seq<Option<usize>>, Seq<Option<usize>>)>,
    b: (Seq<Option<usize>>, Seq<Option<usize>>),
)
    requires
        turns(now, q_from, agent, cands, order, occ0, q_old, trials),
        trials.len() <= order.len(),
        passed_over(now, q_from, agent, cands[order[trials.len() - 1] as int] as int, trials.last(), b),
    ensures
        turns(now, q_from, agent, cands, order, occ0, q_old, trials.push(b)),
{
    reveal(turns);
    let tr = trials.push(b);
    assert forall|t: int| 0 <= t < tr.len() - 1 implies #[trigger] passed_over(
        now,
        q_from,
        agent,
        cands[order[t] as int] as int,
        tr[t],
        tr[t + 1],
    ) by {
        if t < trials.len() - 1 {
            assert(tr[t] == trials[t] && tr[t + 1] == trials[t + 1]);
        } else {
            assert(tr[t] == trials.last() && tr[t + 1] == b);
        }
    }
}

/// `order` lists each candidate `0..cost.len()` once, best first, ties in listed order.
pub open spec fn ranks(cost: Seq<PIBTHeuristic>, order: Seq<usize>) -> bool {
    &&& order.len() == cost.len()
    &&& forall|i: int| 0 <= i < order.len() ==> #[trigger] order[i] < cost.len()
    &&& forall|i: int, j: int|
        0 <= i < j < order.len() ==> ranked_before(cost, #[trigger] order[i] as int, #[trigger] order[j] as int)
}

/// From the claims `occ_a` and next vertices `q_a` to `occ_b` and `q_b`: every claimed vertex
/// stays claimed, and every agent but `agent` keeps the next vertex it had.
pub open spec fn kept(
    occ_a: Seq<Option<usize>>,
    q_a: Seq<Option<usize>>,
    occ_b: Seq<Option<usize>>,
    q_b: Seq<Option<usize>>,
    agent: int,
) -> bool {
    &&& forall|w: int| 0 <= w < occ_a.len() && (#[trigger] occ_a[w]) is Some ==> occ_b[w] is Some
    &&& forall|t: int| 0 <= t < q_a.len() && t != agent && (#[trigger] q_a[t]) is Some ==> q_b[t] == q_a[t]
}

/// `occ` after each of the first `i` agents of `q_from`, in turn, is put on its vertex.
pub open spec fn now_upto(q_from: Seq<usize>, occ: Seq<Option<usize>>, i: int) -> Seq<Option<usize>>
    decreases i,
{
    if i <= 0 {
        occ
    } else {
        now_upto(q_from, occ, i - 1).update(q_from[i - 1] as int, Some((i - 1) as usize))
    }
}

/// `occ` after each of the first `i` agents with a preset next vertex in `q0`, in turn, is
/// put on that vertex.
pub open spec fn next_upto(q0: Seq<Option<usize>>, occ: Seq<Option<usize>>, i: int) -> Seq<Option<usize>>
    decreases i,
{
    if i <= 0 {
        occ
    } else {
        match q0[i - 1] {
            Some(v) => next_upto(q0, occ, i - 1).update(v as int, Some((i - 1) as usize)),
            None => next_upto(q0, occ, i - 1),
        }
    }
}

/// The agents standing (by `occ`) on the first `m` neighbours of vertex `c`, in neighbour
/// order.
pub open spec fn agents_near(g: Graph, occ: Seq<Option<usize>>, c: int, m: int) -> Seq<usize>
    decreases m,
{
    if m <= 0 {
        Seq::empty()
    } else {
        let u = g.nbrs(c)[m - 1] as int;
        agents_near(g, occ, c, m - 1) + match occ[u] {
            Some(j) => seq![j],
            None => Seq::empty(),
        }
    }
}

/// How many of the first `m` agents of `js` would be hindered by a move onto `v`: those not
/// standing on `v` that are nearer their goals on `v` than where they stand.
pub open spec fn hindered(g: Graph, goals: Seq<usize>, q_from: Seq<usize>, js: Seq<usize>, v: int, m: int) -> nat
    decreases m,
{
    if m <= 0 {
        0
    } else {
        let j = js[m - 1] as int;
        hindered(g, goals, q_from, js, v, m - 1) + if q_from[j] != v && dist(g, goals[j] as int, v) < dist(
            g,
            goals[j] as int,
            q_from[j] as int,
        ) {
            1nat
        } else {
            0nat
        }
    }
}

/// A ranking lists each candidate at most once.
proof fn lemma_ranks_distinct(cost: Seq<PIBTHeuristic>, order: Seq<usize>)
    requires
        ranks(cost, order),
    ensures
        forall|p: int, q: int| 0 <= p < q < order.len() ==> #[trigger] order[p] != #[trigger] order[q],
{
    assert forall|p: int, q: int| 0 <= p < q < order.len() implies #[trigger] order[p] != #[trigger] order[q] by {
        assert(ranked_before(cost, order[p] as int, order[q] as int));
    }
}

/// `k` different numbers below `k` include every number below `k`.
proof fn lemma_all_listed(s: Seq<usize>, k: int, m: int)
    requires
        s.len() == k,
        forall|i: int| 0 <= i < s.len() ==> #[trigger] s[i] < k,
        forall|p: int, q: int| 0 <= p < q < s.len() ==> #[trigger] s[p] != #[trigger] s[q],
        0 <= m < k,
    ensures
        exists|t: int| 0 <= t < k && s[t] == m,
{
    if !(exists|t: int| 0 <= t < k && s[t] == m) {
        let r = s.map_values(|v: usize| if v > m { v - 1 } else { v as int });
        assert forall|i: int| 0 <= i < r.len() implies 0 <= #[trigger] r[i] < k - 1 by {
            assert(s[i] != m);
        }
        assert(r.no_duplicates()) by {
            assert forall|i: int, j: int| 0 <= i < r.len() && 0 <= j < r.len() && i != j implies r[i] != r[j] by {
                if i < j {
                    assert(s[i] != s[j]);
                } else {
                    assert(s[j] != s[i]);
                }
                assert(s[i] != m && s[j] != m);
            }
        }
        lemma_distinct_bounded(r, k - 1);
    }
}

/// The candidates `0..cost.len()` ranked best first; candidates that rank equal keep their
/// listed order (a stable sort).
pub fn rank_candidates(cost: &Vec<PIBTHeuristic>) -> (order: Vec<usize>)
    ensures
        ranks(cost@, order@),
{
    let mut order: Vec<usize> = Vec::new();
    let mut i: usize = 0;
    while i < cost.len()
        invariant
            0 <= i <= cost@.len(),
            order@.len() == i,
            forall|p: int| 0 <= p < order@.len() ==> #[trigger] order@[p] < i,
            forall|p: int, q: int|
                0 <= p < q < order@.len() ==> ranked_before(cost@, #[trigger] order@[p] as int, #[trigger] order@[q] as int),
        decreases cost@.len() - i,
    {
        // `i` goes before the first listed candidate it beats
        let mut pos: usize = 0;
        while pos < order.len() && !cost[i].less(&cost[order[pos]])
            invariant
                0 <= pos <= order@.len(),
                i < cost@.len(),
                forall|p: int| 0 <= p < order@.len() ==> #[trigger] order@[p] < i,
                forall|p: int| 0 <= p < pos ==> !heuristic_less(cost@[i as int], cost@[#[trigger] order@[p] as int]),
            decreases order@.len() - pos,
        {
            pos += 1;
        }
        let ghost old_order = order@;
        order.insert(pos, i);
        proof {
            assert forall|p: int, q: int|
                0 <= p < q < order@.len() implies ranked_before(cost@, #[trigger] order@[p] as int, #[trigger] order@[q] as int) by {
                let a = order@[p] as int;
                let b = order@[q] as int;
                if q < pos {
                    assert(a == old_order[p] && b == old_order[q]);
                } else if q == pos {
                    assert(a == old_order[p]);
                    assert(!heuristic_less(cost@[i as int], cost@[a]));
                } else if p == pos {
                    assert(b == old_order[q - 1]);
                    if q - 1 > pos {
                        assert(ranked_before(cost@, old_order[pos as int] as int, b));
                    }
                    assert(heuristic_less(cost@[i as int], cost@[old_order[pos as int] as int]));
                } else if p < pos {
                    assert(a == old_order[p] && b == old_order[q - 1]);
                } else {
                    assert(a == old_order[p - 1] && b == old_order[q - 1]);
                }
            }
        }
        i += 1;
    }
    order
}


/// The vertices of `q` are pairwise different.
pub open spec fn config_distinct(q: Seq<usize>) -> bool {
    forall|i: int, j: int| 0 <= i < j < q.len() ==> q[i] != q[j]
}

/// Every entry `occ[v] == Some(j)` says that agent `j` stands on `v` in `q_from`.
pub open spec fn occ_now_ok(occ: Seq<Option<usize>>, q_from: Seq<usize>) -> bool {
    forall|v: int|
        0 <= v < occ.len() && (#[trigger] occ[v]) is Some ==> occ[v]->0 < q_from.len() && q_from[occ[v]->0 as int]
            == v
}

/// `occ` names the agent on each vertex of `q_from`.
pub open spec fn occ_now_full(occ: Seq<Option<usize>>, q_from: Seq<usize>) -> bool {
    forall|i: int| 0 <= i < q_from.len() ==> #[trigger] q_from[i] < occ.len() && occ[q_from[i] as int] == Some(i as usize)
}

/// Every entry `occ[v] == Some(i)` is backed by agent `i` heading for `v`.
pub open spec fn next_backed(occ: Seq<Option<usize>>, q_to: Seq<Option<usize>>) -> bool {
    forall|v: int|
        0 <= v < occ.len() && (#[trigger] occ[v]) is Some ==> occ[v]->0 < q_to.len() && q_to[occ[v]->0 as int]
            == Some(v as usize)
}

/// Agent `i`, if it has a next vertex, holds that vertex in `occ`.
pub open spec fn holds(occ: Seq<Option<usize>>, q_to: Seq<Option<usize>>, i: int) -> bool {
    q_to[i] is Some ==> q_to[i]->0 < occ.len() && occ[q_to[i]->0 as int] == Some(i as usize)
}

/// Every next vertex is a vertex.
pub open spec fn targets_ok(q_to: Seq<Option<usize>>, nv: nat) -> bool {
    forall|i: int| 0 <= i < q_to.len() && (#[trigger] q_to[i]) is Some ==> q_to[i]->0 < nv
}

/// No two agents trade places.
pub open spec fn swap_free(q_from: Seq<usize>, q_to: Seq<Option<usize>>) -> bool {
    forall|i: int, k: int|
        0 <= i < q_to.len() && 0 <= k < q_to.len() && i != k ==> !(#[trigger] q_to[i] == Some(q_from[k])
            && #[trigger] q_to[k] == Some(q_from[i]))
}

/// Number of agents whose next vertex is open.
pub open spec fn count_open(q: Seq<Option<usize>>) -> nat
    decreases q.len(),
{
    if q.len() == 0 {
        0
    } else {
        count_open(q.drop_last()) + if q.last() is None {
            1nat
        } else {
            0nat
        }
    }
}

/// Fixing an open agent, and keeping every fixed one, leaves fewer open agents.
proof fn lemma_count_open_decreases(a: Seq<Option<usize>>, b: Seq<Option<usize>>, k: int)
    requires
        a.len() == b.len(),
        forall|i: int| 0 <= i < a.len() && (#[trigger] a[i]) is Some ==> b[i] is Some,
        0 <= k < a.len(),
        a[k] is None,
        b[k] is Some,
    ensures
        count_open(b) < count_open(a),
    decreases a.len(),
{
    if k < a.len() - 1 {
        assert forall|i: int| 0 <= i < a.drop_last().len() && (#[trigger] a.drop_last()[i]) is Some implies b.drop_last()[i] is Some by {
            assert(a[i] is Some);
        }
        lemma_count_open_decreases(a.drop_last(), b.drop_last(), k);
    } else {
        assert forall|i: int| 0 <= i < a.drop_last().len() && (#[trigger] a.drop_last()[i]) is Some implies b.drop_last()[i] is Some by {
            assert(a[i] is Some);
        }
        lemma_count_open_le(a.drop_last(), b.drop_last());
    }
}

/// Keeping every fixed agent fixed never adds open agents.
proof fn lemma_count_open_le(a: Seq<Option<usize>>, b: Seq<Option<usize>>)
    requires
        a.len() == b.len(),
        forall|i: int| 0 <= i < a.len() && (#[trigger] a[i]) is Some ==> b[i] is Some,
    ensures
        count_open(b) <= count_open(a),
    decreases a.len(),
{
    if a.len() > 0 {
        assert forall|i: int| 0 <= i < a.drop_last().len() && (#[trigger] a.drop_last()[i]) is Some implies b.drop_last()[i] is Some by {
            assert(a[i] is Some);
        }
        lemma_count_open_le(a.drop_last(), b.drop_last());
        if a.last() is Some {
            assert(a[a.len() - 1] is Some);
        }
    }
}

/// Two constrained agents claim one vertex, or (with pairwise different current vertices)
/// two constrained agents would trade places.
pub open spec fn constraints_collide(q_from: Seq<usize>, q_to: Seq<Option<usize>>) -> bool {
    ||| exists|a: int, b: int|
        0 <= a < b < q_to.len() && (#[trigger] q_to[a]) is Some && #[trigger] q_to[b] == q_to[a]
    ||| config_distinct(q_from) && !swap_free(q_from, q_to)
}

/// Priority inheritance with backtracking: chooses the next vertex of each agent in turn.
pub struct PIBT<'a> {
    pub instance: &'a Instance,
    pub rng: StdRng,
    pub num_agents: usize,
    /// `occupied_now[v]`: the agent standing on `v` during a step.
    pub occupied_now: Vec<Option<usize>>,
    /// `occupied_next[v]`: the agent that has claimed `v` for the next step.
    pub occupied_next: Vec<Option<usize>>,
    /// Whether agents may emulate swaps in corridors.
    pub swap: bool,
    /// Whether moves that stand in the way of neighbours count against a candidate.
    pub hindrance: bool,
}

impl<'a> PIBT<'a> {
    /// The graph of the instance.
    pub open spec fn graph(&self) -> Graph {
        self.instance.graph
    }

    /// `q_to` is a next configuration from `q_from` that keeps the constraints `q0`: every agent
    /// has a next vertex, each unconstrained agent moves to a neighbour or stays, no two agents
    /// share a vertex, and (when `q_from` has no two agents on one vertex) none trade places.
    pub open spec fn valid_step(&self, q_from: Seq<usize>, q0: Seq<Option<usize>>, q_to: Seq<Option<usize>>) -> bool {
        &&& q_to.len() == q0.len()
        &&& forall|a: int| 0 <= a < q_to.len() ==> (#[trigger] q_to[a]) is Some
        &&& forall|a: int| 0 <= a < q_to.len() && (#[trigger] q0[a]) is Some ==> q_to[a] == q0[a]
        &&& forall|a: int|
            0 <= a < q_to.len() && (#[trigger] q0[a]) is None ==> self.graph().acts(q_from[a] as int).contains(q_to[a]->0)
        &&& forall|a: int, b: int| 0 <= a < q_to.len() && 0 <= b < q_to.len() && a != b ==> #[trigger] q_to[a] != #[trigger] q_to[b]
        &&& config_distinct(q_from) ==> swap_free(q_from, q_to)
    }

    /// The parts that hold during a step as well as between steps.
    pub open spec fn inv_base(&self) -> bool {
        &&& self.instance.wf()
        &&& self.num_agents == self.instance.num_agents
        &&& self.occupied_now@.len() == self.instance.graph.vertices@.len()
        &&& self.occupied_next@.len() == self.instance.graph.vertices@.len()
        &&& forall|v: int|
            0 <= v < self.occupied_now@.len() && (#[trigger] self.occupied_now@[v]) is Some
                ==> self.occupied_now@[v]->0 < self.num_agents
        &&& forall|v: int|
            0 <= v < self.occupied_next@.len() && (#[trigger] self.occupied_next@[v]) is Some
                ==> self.occupied_next@[v]->0 < self.num_agents
    }

    /// Between steps: nothing is claimed.
    pub open spec fn wf(&self) -> bool {
        &&& self.inv_base()
        &&& forall|v: int| 0 <= v < self.occupied_now@.len() ==> (#[trigger] self.occupied_now@[v]) is None
        &&& forall|v: int| 0 <= v < self.occupied_next@.len() ==> (#[trigger] self.occupied_next@[v]) is None
    }

    /// `u` is a dead end held by an agent that has reached its goal there.
    pub open spec fn parked(&self, u: int) -> bool {
        &&& self.graph().nbrs(u).len() == 1
        &&& self.occupied_now@[u] is Some
        &&& self.instance.goals@[self.occupied_now@[u]->0 as int] == u
    }

    /// From `pusher`, the neighbour `u` is a way on: neither back nor into a parked dead end.
    pub open spec fn is_exit(&self, pusher: int, u: int) -> bool {
        u != pusher && !self.parked(u)
    }

    /// The ways on from `c` (coming from `p`) among its first `k` neighbours.
    pub open spec fn exits_upto(&self, p: int, c: int, k: int) -> nat
        decreases k,
    {
        if k <= 0 {
            0
        } else {
            self.exits_upto(p, c, k - 1) + if self.is_exit(p, self.graph().nbrs(c)[k - 1] as int) {
                1nat
            } else {
                0nat
            }
        }
    }

    /// The number of ways on from `c`, coming from `p`.
    pub open spec fn exits(&self, p: int, c: int) -> nat {
        self.exits_upto(p, c, self.graph().nbrs(c).len() as int)
    }

    /// The last way on from `c` (coming from `p`) among its first `k` neighbours, if any.
    pub open spec fn last_exit_upto(&self, p: int, c: int, k: int) -> Option<usize>
        decreases k,
    {
        if k <= 0 {
            None
        } else if self.is_exit(p, self.graph().nbrs(c)[k - 1] as int) {
            Some(self.graph().nbrs(c)[k - 1])
        } else {
            self.last_exit_upto(p, c, k - 1)
        }
    }

    /// The last way on from `c`, coming from `p`, if any.
    pub open spec fn last_exit(&self, p: int, c: int) -> Option<usize> {
        self.last_exit_upto(p, c, self.graph().nbrs(c).len() as int)
    }

    /// The agents in `q` stand where each can reach its goal from.
    pub open spec fn positions_ok(&self, q: Seq<usize>) -> bool {
        &&& q.len() == self.num_agents
        &&& forall|i: int| 0 <= i < q.len() ==> #[trigger] q[i] < self.graph().vertices@.len()
        &&& forall|i: int|
            0 <= i < q.len() ==> #[trigger] reachable(self.graph(), self.instance.goals@[i] as int, q[i] as int)
    }

    /// A planner for `instance` with random ties drawn from `seed`.
    pub fn new(instance: &'a Instance, seed: u64) -> (p: Self)
        requires
            instance.wf(),
        ensures
            p.wf(),
            p.instance == instance,
            p.swap,
            p.hindrance,
    {
        let num_agents = instance.num_agents;
        let num_vertices = instance.graph.size();
        PIBT {
            instance,
            rng: seeded_rng(seed),
            num_agents,
            occupied_now: vec![None; num_vertices],
            occupied_next: vec![None; num_vertices],
            swap: true,
            hindrance: true,
        }
    }

    /// Everything but the claims on next vertices and the random generator is as in `other`.
    pub open spec fn same_setup(&self, other: &Self) -> bool {
        &&& self.instance == other.instance
        &&& self.num_agents == other.num_agents
        &&& self.occupied_now == other.occupied_now
        &&& self.swap == other.swap
        &&& self.hindrance == other.hindrance
    }

    /// The state during a step from `q_from` towards `q_to`.
    pub open spec fn step_ok(&self, q_from: Seq<usize>, q_to: Seq<Option<usize>>) -> bool {
        &&& self.inv_base()
        &&& occ_now_ok(self.occupied_now@, q_from)
        &&& self.positions_ok(q_from)
        &&& q_to.len() == self.num_agents
        &&& targets_ok(q_to, self.graph().vertices@.len())
        &&& next_backed(self.occupied_next@, q_to)
        &&& config_distinct(q_from) ==> occ_now_full(self.occupied_now@, q_from) && swap_free(q_from, q_to)
    }

    /// The hindrance of a move of `agent` onto `v`: the neighbouring agents it would hinder,
    /// when hindrance is counted at all.
    pub open spec fn hindrance_of(&self, agent: int, q_from: Seq<usize>, v: int) -> nat {
        if self.hindrance {
            let c = q_from[agent] as int;
            let js = agents_near(self.graph(), self.occupied_now@, c, self.graph().nbrs(c).len() as int);
            hindered(self.graph(), self.instance.goals@, q_from, js, v, js.len() as int)
        } else {
            0
        }
    }

    /// `cost` scores the moves of `agent`: the distance of each to the agent's goal, the
    /// agents it would hinder, and a random tie below `2^53`.
    pub open spec fn scored(&self, agent: int, q_from: Seq<usize>, cost: Seq<PIBTHeuristic>) -> bool {
        let acts = self.graph().acts(q_from[agent] as int);
        &&& cost.len() == acts.len()
        &&& forall|k: int|
            0 <= k < cost.len() ==> (#[trigger] cost[k]).dist == self.d(agent, acts[k] as int) && cost[k].hindrance
                == self.hindrance_of(agent, q_from, acts[k] as int) && cost[k].tie < 0x20_0000_0000_0000
    }

    /// `cost` scores the moves of `agent` for making way: the farther from the agent's goal
    /// the better, nobody hindered, and a random tie below `2^53`.
    pub open spec fn scored_reversed(&self, agent: int, q_from: Seq<usize>, cost: Seq<PIBTHeuristic>) -> bool {
        let acts = self.graph().acts(q_from[agent] as int);
        &&& cost.len() == acts.len()
        &&& forall|k: int|
            0 <= k < cost.len() ==> (#[trigger] cost[k]).dist == -self.d(agent, acts[k] as int) && cost[k].hindrance == 0
                && cost[k].tie < 0x20_0000_0000_0000
    }

    /// Scores the actions of `agent_id`: distance to its goal, neighbours hindered, random tie.
    fn evaluate(&mut self, agent_id: usize, q_from: &Config, dist_table: &mut DistTable<'a>) -> (r: (
        Vec<usize>,
        Vec<PIBTHeuristic>,
    ))
        requires
            old(self).inv_base(),
            occ_now_ok(old(self).occupied_now@, q_from@),
            old(self).positions_ok(q_from@),
            agent_id < old(self).num_agents,
            old(dist_table).serves(old(self).instance),
        ensures
            final(self).same_setup(old(self)),
            final(self).occupied_next == old(self).occupied_next,
            final(dist_table).serves(final(self).instance),
            r.0@ == final(self).graph().acts(q_from@[agent_id as int] as int),
            r.1@.len() == r.0@.len(),
            forall|k: int|
                0 <= k < r.1@.len() ==> (#[trigger] r.1@[k]).dist == dist(
                    final(self).graph(),
                    final(self).instance.goals@[agent_id as int] as int,
                    r.0@[k] as int,
                ),
            old(self).scored(agent_id as int, q_from@, r.1@),
    {
        let instance = self.instance;
        let ghost g = instance.graph;
        let current_vertex_id = q_from[agent_id];
        proof {
            g.lemma_neighbors_in_range(current_vertex_id as int);
            assert(self.reaches(agent_id as int, current_vertex_id as int));
        }
        let actions = instance.graph.get_actions(current_vertex_id);
        let neighbors = instance.graph.get_neighbors(current_vertex_id);

        // hindrance preparation: the agents standing next to this one
        let mut neighbor_agents: Vec<usize> = Vec::new();
        if self.hindrance {
            let mut idx: usize = 0;
            while idx < neighbors.len()
                invariant
                    self.inv_base(),
                    occ_now_ok(self.occupied_now@, q_from@),
                    self.positions_ok(q_from@),
                    g == self.graph(),
                    current_vertex_id == q_from@[agent_id as int],
                    current_vertex_id < g.vertices@.len(),
                    neighbors@ == g.nbrs(current_vertex_id as int),
                    forall|k: int| 0 <= k < neighbors@.len() ==> #[trigger] neighbors@[k] < g.vertices@.len(),
                    0 <= idx <= neighbors@.len(),
                    neighbors@.len() <= 4,
                    neighbor_agents@.len() <= idx,
                    forall|k: int|
                        0 <= k < neighbor_agents@.len() ==> #[trigger] neighbor_agents@[k] < self.num_agents
                            && g.adjacent(current_vertex_id as int, q_from@[neighbor_agents@[k] as int] as int),
                    self.hindrance,
                    neighbor_agents@ == agents_near(g, self.occupied_now@, current_vertex_id as int, idx as int),
                decreases neighbors@.len() - idx,
            {
                let u = neighbors[idx];
                let ghost before = neighbor_agents@;
                if let Some(j) = self.occupied_now[u] {
                    assert(self.occupied_now@[u as int] is Some);
                    neighbor_agents.push(j);
                    assert(neighbor_agents@ =~= before + seq![j]);
                } else {
                    assert(before =~= before + Seq::<usize>::empty());
                }
                idx += 1;
            }
        }
        let mut c_next: Vec<usize> = Vec::new();
        let mut c_cost: Vec<PIBTHeuristic> = Vec::new();
        let mut k: usize = 0;
        while k < actions.len()
            invariant
                self.inv_base(),
                self.same_setup(old(self)),
                self.occupied_next == old(self).occupied_next,
                instance == self.instance,
                occ_now_ok(self.occupied_now@, q_from@),
                self.positions_ok(q_from@),
                agent_id < self.num_agents,
                g == self.graph(),
                current_vertex_id == q_from@[agent_id as int],
                current_vertex_id < g.vertices@.len(),
                actions@ == g.acts(current_vertex_id as int),
                forall|i: int| 0 <= i < actions@.len() ==> #[trigger] actions@[i] < g.vertices@.len(),
                actions@.len() == g.nbrs(current_vertex_id as int).len() + 1,
                actions@.last() == current_vertex_id,
                self.reaches(agent_id as int, current_vertex_id as int),
                neighbor_agents@.len() <= 4,
                forall|i: int|
                    0 <= i < neighbor_agents@.len() ==> #[trigger] neighbor_agents@[i] < self.num_agents
                        && g.adjacent(current_vertex_id as int, q_from@[neighbor_agents@[i] as int] as int),
                dist_table.serves(self.instance),
                0 <= k <= actions@.len(),
                c_next@ == actions@.subrange(0, k as int),
                c_cost@.len() == k,
                forall|i: int|
                    0 <= i < k ==> (#[trigger] c_cost@[i]).dist == dist(
                        g,
                        self.instance.goals@[agent_id as int] as int,
                        actions@[i] as int,
                    ) && c_cost@[i].hindrance == old(self).hindrance_of(agent_id as int, q_from@, actions@[i] as int)
                        && c_cost@[i].tie < 0x20_0000_0000_0000,
                self.hindrance ==> neighbor_agents@ == agents_near(
                    g,
                    self.occupied_now@,
                    current_vertex_id as int,
                    g.nbrs(current_vertex_id as int).len() as int,
                ),
            decreases actions@.len() - k,
        {
            let vertex_id = actions[k];
            proof {
                if vertex_id != current_vertex_id {
                    assert(g.adjacency_ok(current_vertex_id as int));
                    assert(g.nbrs(current_vertex_id as int)[k as int] == vertex_id);
                    assert(g.adjacent(current_vertex_id as int, vertex_id as int));
                    lemma_reachable_step(g, self.instance.goals@[agent_id as int] as int, current_vertex_id as int, vertex_id as int);
                } else {
                }
            }
            c_next.push(vertex_id);
            let raw = random_u64(&mut self.rng);
            let tie = raw >> 11;
            assert(raw >> 11u64 < 0x20_0000_0000_0000u64) by (bit_vector);
            let dist = dist_table.get(agent_id, vertex_id);
            let mut hindrance: usize = 0;
            if self.hindrance {
                let mut i: usize = 0;
                while i < neighbor_agents.len()
                    invariant
                        self.inv_base(),
                        occ_now_ok(self.occupied_now@, q_from@),
                        self.positions_ok(q_from@),
                        g == self.graph(),
                        current_vertex_id == q_from@[agent_id as int],
                        current_vertex_id < g.vertices@.len(),
                        vertex_id < g.vertices@.len(),
                        vertex_id == current_vertex_id || g.adjacent(current_vertex_id as int, vertex_id as int),
                        neighbor_agents@.len() <= 4,
                        forall|t: int|
                            0 <= t < neighbor_agents@.len() ==> #[trigger] neighbor_agents@[t] < self.num_agents
                                && g.adjacent(current_vertex_id as int, q_from@[neighbor_agents@[t] as int] as int),
                        dist_table.serves(self.instance),
                        0 <= i <= neighbor_agents@.len(),
                        hindrance <= i,
                        hindrance == hindered(g, self.instance.goals@, q_from@, neighbor_agents@, vertex_id as int, i as int),
                        self.same_setup(old(self)),
                        self.occupied_next == old(self).occupied_next,
                        self.hindrance,
                        neighbor_agents@ == agents_near(
                            g,
                            self.occupied_now@,
                            current_vertex_id as int,
                            g.nbrs(current_vertex_id as int).len() as int,
                        ),
                    decreases neighbor_agents@.len() - i,
                {
                    let j = neighbor_agents[i];
                    let current_j = q_from[j];
                    if current_j != vertex_id {
                        proof {
                            let gj = self.instance.goals@[j as int] as int;
                            assert(self.reaches(j as int, current_j as int));
                            g.lemma_adjacent_symmetric(current_vertex_id as int, current_j as int);
                            lemma_reachable_step(g, gj, current_j as int, current_vertex_id as int);
                            if vertex_id != current_vertex_id {
                                lemma_reachable_step(g, gj, current_vertex_id as int, vertex_id as int);
                            }
                        }
                        let dist_j_to_vertex = dist_table.get(j, vertex_id);
                        let dist_j_to_current = dist_table.get(j, current_j);
                        if dist_j_to_vertex < dist_j_to_current {
                            hindrance += 1;
                        }
                    }
                    i += 1;
                }
            }
            proof {
                assert(hindrance == old(self).hindrance_of(agent_id as int, q_from@, vertex_id as int));
            }
            c_cost.push(PIBTHeuristic { dist, hindrance, tie });
            proof {
                assert(c_next@ =~= actions@.subrange(0, k + 1));
            }
            k += 1;
        }
        proof {
            assert(c_next@ =~= actions@);
        }
        (c_next, c_cost)
    }

    /// Re-scores the candidates of `agent_id` for making way: farther from its goal is better.
    fn evaluate_reversed(&mut self, agent_id: usize, c_next: &Vec<usize>, q_from: &Config, dist_table: &mut DistTable<'a>) -> (r: Vec<PIBTHeuristic>)
        requires
            old(self).inv_base(),
            old(self).positions_ok(q_from@),
            agent_id < old(self).num_agents,
            c_next@ == old(self).graph().acts(q_from@[agent_id as int] as int),
            old(dist_table).serves(old(self).instance),
        ensures
            final(self).same_setup(old(self)),
            final(self).occupied_next == old(self).occupied_next,
            final(dist_table).serves(final(self).instance),
            r@.len() == c_next@.len(),
            old(self).scored_reversed(agent_id as int, q_from@, r@),
    {
        let ghost g = self.graph();
        let current_vertex_id = q_from[agent_id];
        proof {
            g.lemma_neighbors_in_range(current_vertex_id as int);
            assert(self.reaches(agent_id as int, current_vertex_id as int));
        }
        let mut cost: Vec<PIBTHeuristic> = Vec::new();
        let mut i: usize = 0;
        while i < c_next.len()
            invariant
                self.inv_base(),
                self.same_setup(old(self)),
                self.occupied_next == old(self).occupied_next,
                self.positions_ok(q_from@),
                g == self.graph(),
                agent_id < self.num_agents,
                current_vertex_id == q_from@[agent_id as int],
                current_vertex_id < g.vertices@.len(),
                c_next@ == g.acts(current_vertex_id as int),
                forall|t: int| 0 <= t < c_next@.len() ==> #[trigger] c_next@[t] < g.vertices@.len(),
                c_next@.len() == g.nbrs(current_vertex_id as int).len() + 1,
                self.reaches(agent_id as int, current_vertex_id as int),
                dist_table.serves(self.instance),
                0 <= i <= c_next@.len(),
                cost@.len() == i,
                forall|t: int|
                    0 <= t < i ==> (#[trigger] cost@[t]).dist == -old(self).d(agent_id as int, c_next@[t] as int)
                        && cost@[t].hindrance == 0 && cost@[t].tie < 0x20_0000_0000_0000,
            decreases c_next@.len() - i,
        {
            let vertex_id = c_next[i];
            proof {
                if vertex_id != current_vertex_id {
                    assert(g.adjacency_ok(current_vertex_id as int));
                    if i < c_next@.len() - 1 {
                        assert(g.nbrs(current_vertex_id as int)[i as int] == vertex_id);
                        assert(g.adjacent(current_vertex_id as int, vertex_id as int));
                        lemma_reachable_step(g, self.instance.goals@[agent_id as int] as int, current_vertex_id as int, vertex_id as int);
                    }
                }
            }
            let raw = random_u64(&mut self.rng);
            let tie = raw >> 11;
            assert(raw >> 11u64 < 0x20_0000_0000_0000u64) by (bit_vector);
            let dist = dist_table.get(agent_id, vertex_id);
            cost.push(PIBTHeuristic { dist: -dist, hindrance: 0, tie });
            i += 1;
        }
        cost
    }

    /// The agents other than `agent` whose next vertex changed since `q0` took vertices that
    /// were free in `occ0`; `agent` itself may also have been left on its own vertex; vertices
    /// claimed in `occ0` stay claimed, by the same agent except on the vertex of `agent`;
    /// constraints stay; new next vertices are moves.
    pub open spec fn frame(
        &self,
        q_from: Seq<usize>,
        q_to: Seq<Option<usize>>,
        q0: Seq<Option<usize>>,
        occ0: Seq<Option<usize>>,
        agent: int,
    ) -> bool {
        let n = self.num_agents as int;
        let nv = self.graph().vertices@.len() as int;
        let occ = self.occupied_next@;
        &&& q0.len() == n
        &&& occ0.len() == nv
        &&& forall|t: int| 0 <= t < n && (#[trigger] q0[t]) is Some ==> q_to[t] == q0[t]
        &&& forall|t: int|
            0 <= t < n && q0[t] is None && (#[trigger] q_to[t]) is Some ==> self.graph().acts(q_from[t] as int).contains(
                q_to[t]->0,
            )
        &&& forall|w: int| 0 <= w < nv && (#[trigger] occ0[w]) is Some ==> occ[w] is Some
        &&& forall|w: int| 0 <= w < nv && w != q_from[agent] && (#[trigger] occ0[w]) is Some ==> occ[w] == occ0[w]
        &&& forall|t: int|
            0 <= t < n && #[trigger] q_to[t] != q0[t] ==> q_to[t] is Some && (occ0[q_to[t]->0 as int] is None || (t
                == agent && q_to[t] == Some(q_from[agent])))
    }

    /// The shared part of the states of a call for `agent` that started from `q0` and `occ0`.
    pub open spec fn in_call(
        &self,
        q_from: Seq<usize>,
        q_to: Seq<Option<usize>>,
        q0: Seq<Option<usize>>,
        occ0: Seq<Option<usize>>,
        agent: int,
    ) -> bool {
        &&& self.step_ok(q_from, q_to)
        &&& 0 <= agent < self.num_agents
        &&& q0[agent] is None
        &&& self.frame(q_from, q_to, q0, occ0, agent)
    }

    /// The call for `agent` is looking for a vertex: every other agent holds its next vertex,
    /// and `agent` holds none.
    #[verifier::opaque]
    pub open spec fn pending(
        &self,
        q_from: Seq<usize>,
        q_to: Seq<Option<usize>>,
        q0: Seq<Option<usize>>,
        occ0: Seq<Option<usize>>,
        agent: int,
    ) -> bool {
        &&& self.in_call(q_from, q_to, q0, occ0, agent)
        &&& forall|t: int| 0 <= t < self.num_agents && t != agent ==> holds(self.occupied_next@, q_to, t)
        &&& forall|w: int| 0 <= w < self.occupied_next@.len() ==> self.occupied_next@[w] != Some(agent as usize)
    }

    /// The call for `agent` holds `vertex`, and every agent holds its next vertex.
    #[verifier::opaque]
    pub open spec fn claimed(
        &self,
        q_from: Seq<usize>,
        q_to: Seq<Option<usize>>,
        q0: Seq<Option<usize>>,
        occ0: Seq<Option<usize>>,
        agent: int,
        vertex: int,
    ) -> bool {
        &&& self.in_call(q_from, q_to, q0, occ0, agent)
        &&& forall|t: int| 0 <= t < self.num_agents ==> holds(self.occupied_next@, q_to, t)
        &&& q_to[agent] == Some(vertex as usize)
    }

    /// The call for `agent` gave up and left it on its own vertex, which it took from any
    /// agent heading there.
    #[verifier::opaque]
    pub open spec fn gave_up(
        &self,
        q_from: Seq<usize>,
        q_to: Seq<Option<usize>>,
        q0: Seq<Option<usize>>,
        occ0: Seq<Option<usize>>,
        agent: int,
    ) -> bool {
        &&& self.in_call(q_from, q_to, q0, occ0, agent)
        &&& q_to[agent] == Some(q_from[agent])
        &&& forall|t: int|
            0 <= t < self.num_agents ==> holds(self.occupied_next@, q_to, t) || (t != agent && #[trigger] q_to[t]
                == Some(q_from[agent]))
    }

    /// What a call for `agent` that started in `old` ends with: the agent has a next vertex;
    /// on success every agent holds its next vertex, otherwise the agent stays put.
    #[verifier::opaque]
    pub open spec fn pibt_done(
        &self,
        old: &Self,
        q_from: Seq<usize>,
        q_to: Seq<Option<usize>>,
        q0: Seq<Option<usize>>,
        agent: int,
        r: bool,
    ) -> bool {
        &&& self.same_setup(old)
        &&& self.in_call(q_from, q_to, q0, old.occupied_next@, agent)
        &&& q_to[agent] is Some
        &&& r ==> forall|t: int| 0 <= t < self.num_agents ==> holds(self.occupied_next@, q_to, t)
        &&& !r ==> self.gave_up(q_from, q_to, q0, old.occupied_next@, agent)
    }

    /// Claims `vertex` for `agent`.
    fn claim(
        &mut self,
        agent_id: usize,
        vertex_id: usize,
        q_from: &Config,
        q_to: &mut PartialConfig,
        Ghost(q0): Ghost<Seq<Option<usize>>>,
        Ghost(occ0): Ghost<Seq<Option<usize>>>,
    )
        requires
            old(self).pending(q_from@, old(q_to)@, q0, occ0, agent_id as int),
            old(self).graph().acts(q_from@[agent_id as int] as int).contains(vertex_id),
            vertex_id < old(self).occupied_next@.len(),
            old(self).occupied_next@[vertex_id as int] is None,
            old(self).occupied_now@[vertex_id as int] matches Some(j) ==> old(q_to)@[j as int] != Some(
                q_from@[agent_id as int],
            ),
        ensures
            final(self).same_setup(old(self)),
            final(self).claimed(q_from@, final(q_to)@, q0, occ0, agent_id as int, vertex_id as int),
            final(q_to)@.len() == old(q_to)@.len(),
            forall|t: int| 0 <= t < final(q_to)@.len() && t != agent_id ==> #[trigger] final(q_to)@[t] == old(q_to)@[t],
            final(q_to)@ == old(q_to)@.update(agent_id as int, Some(vertex_id)),
            final(self).occupied_next@ == old(self).occupied_next@.update(vertex_id as int, Some(agent_id)),
    {
        reveal(PIBT::pending);
        reveal(PIBT::claimed);
        let ghost g = self.graph();
        let ghost n = self.num_agents as int;
        let ghost nv = g.vertices@.len() as int;
        let ghost q_before = q_to@;
        let ghost occ_before = self.occupied_next@;
        let ghost distinct = config_distinct(q_from@);
        self.occupied_next.set(vertex_id, Some(agent_id));
        q_to.set(agent_id, Some(vertex_id));
        proof {
            assert(occ0[vertex_id as int] is None);
            assert forall|v: int| 0 <= v < nv && (#[trigger] self.occupied_next@[v]) is Some implies self.occupied_next@[v]->0
                < q_to@.len() && q_to@[self.occupied_next@[v]->0 as int] == Some(v as usize) by {
                if v != vertex_id {
                    assert(occ_before[v] is Some);
                }
            }
            assert forall|t: int| 0 <= t < n implies holds(self.occupied_next@, q_to@, t) by {
                if t != agent_id {
                    assert(holds(occ_before, q_before, t));
                    if q_to@[t] is Some {
                        assert(q_to@[t]->0 != vertex_id);
                    }
                }
            }
            assert forall|v: int|
                0 <= v < nv && (#[trigger] self.occupied_next@[v]) is Some implies self.occupied_next@[v]->0 < self.num_agents by {
                if v != vertex_id {
                    assert(occ_before[v] is Some);
                }
            }
            if distinct {
                assert forall|a: int, b: int|
                    0 <= a < n && 0 <= b < n && a != b implies !(#[trigger] q_to@[a] == Some(q_from@[b])
                        && #[trigger] q_to@[b] == Some(q_from@[a])) by {
                    if a == agent_id && q_to@[a] == Some(q_from@[b]) {
                        assert(self.occupied_now@[vertex_id as int] == Some(b as usize));
                    } else if b == agent_id && q_to@[b] == Some(q_from@[a]) {
                        assert(self.occupied_now@[vertex_id as int] == Some(a as usize));
                    } else if a != agent_id && b != agent_id {
                        assert(q_to@[a] == q_before[a] && q_to@[b] == q_before[b]);
                    }
                }
            }
            assert forall|t: int|
                0 <= t < n && #[trigger] q_to@[t] != q0[t] implies q_to@[t] is Some && (occ0[q_to@[t]->0 as int] is None || (t
                    == agent_id && q_to@[t] == Some(q_from@[agent_id as int]))) by {
                if t != agent_id {
                    assert(q_to@[t] == q_before[t]);
                }
            }
            assert forall|t: int|
                0 <= t < n && q0[t] is None && (#[trigger] q_to@[t]) is Some implies g.acts(q_from@[t] as int).contains(
                    q_to@[t]->0,
                ) by {
                if t != agent_id {
                    assert(q_to@[t] == q_before[t]);
                }
            }
            assert forall|w: int| 0 <= w < nv && w != q_from@[agent_id as int] && (#[trigger] occ0[w]) is Some implies self.occupied_next@[w] == occ0[w] by {
                assert(occ_before[w] == occ0[w]);
            }
            assert forall|w: int| 0 <= w < nv && (#[trigger] occ0[w]) is Some implies self.occupied_next@[w] is Some by {
                assert(occ_before[w] is Some);
            }
        }
    }

    /// After asking the agent standing on the claimed `vertex` to move: on success the claim
    /// stands; on failure that agent took its vertex back and `agent` holds nothing again.
    proof fn lemma_inherited(
        pre: &Self,
        post: &Self,
        q_from: Seq<usize>,
        q_pre: Seq<Option<usize>>,
        q_post: Seq<Option<usize>>,
        q0: Seq<Option<usize>>,
        occ0: Seq<Option<usize>>,
        agent: int,
        vertex: int,
        j: int,
        ok: bool,
    )
        requires
            pre.claimed(q_from, q_pre, q0, occ0, agent, vertex),
            0 <= j < pre.num_agents,
            q_from[j] == vertex,
            vertex != q_from[agent],
            q_pre[j] is None,
            post.pibt_done(pre, q_from, q_post, q_pre, j, ok),
        ensures
            ok ==> post.claimed(q_from, q_post, q0, occ0, agent, vertex),
            ok ==> q_post[j] is Some,
            !ok ==> post.pending(q_from, q_post, q0, occ0, agent),
    {
        reveal(PIBT::pending);
        reveal(PIBT::claimed);
        reveal(PIBT::gave_up);
        reveal(PIBT::pibt_done);
        let g = pre.graph();
        let n = pre.num_agents as int;
        let nv = g.vertices@.len() as int;
        let occ_pre = pre.occupied_next@;
        let occ = post.occupied_next@;
        assert(holds(occ_pre, q_pre, agent));
        assert(occ0[vertex] is None);
        assert(occ_pre[vertex] == Some(agent as usize));
        assert forall|t: int| 0 <= t < n && #[trigger] q_post[t] != q0[t] implies q_post[t] is Some && (occ0[q_post[t]->0 as int] is None || (t
            == agent && q_post[t] == Some(q_from[agent]))) by {
            if q_post[t] == q_pre[t] {
            } else {
                let w = q_post[t]->0 as int;
                if occ0[w] is Some {
                    assert(occ_pre[w] is Some);
                }
            }
        }
        assert forall|w: int| 0 <= w < nv && w != q_from[agent] && (#[trigger] occ0[w]) is Some implies occ[w] == occ0[w] by {
            assert(occ_pre[w] == occ0[w]);
        }
        assert forall|w: int| 0 <= w < nv && (#[trigger] occ0[w]) is Some implies occ[w] is Some by {
            assert(occ_pre[w] is Some);
        }
        assert forall|t: int| 0 <= t < n && (#[trigger] q0[t]) is Some implies q_post[t] == q0[t] by {
            assert(q_pre[t] == q0[t]);
        }
        assert forall|t: int|
            0 <= t < n && q0[t] is None && (#[trigger] q_post[t]) is Some implies g.acts(q_from[t] as int).contains(
                q_post[t]->0,
            ) by {
            if q_pre[t] is Some {
                assert(q_post[t] == q_pre[t]);
            }
        }
        if !ok {
            assert forall|t: int| 0 <= t < n && t != agent implies holds(occ, q_post, t) by {
                if !holds(occ, q_post, t) {
                    assert(t != j);
                    assert(q_post[t] == Some(vertex as usize));
                    if q_post[t] != q_pre[t] {
                        assert(occ_pre[vertex] == Some(agent as usize));
                    } else {
                        assert(holds(occ_pre, q_pre, t));
                    }
                }
            }
            assert forall|w: int| 0 <= w < nv implies occ[w] != Some(agent as usize) by {
                if occ[w] == Some(agent as usize) {
                    assert(q_post[agent] == Some(w as usize));
                    assert(q_post[agent] == q_pre[agent]);
                    assert(holds(occ, q_post, j));
                }
            }
        }
    }

    /// Moves `swap_agent_id` onto the vertex that `agent` is leaving.
    fn swap_into(
        &mut self,
        agent_id: usize,
        swap_agent_id: usize,
        vertex_id: usize,
        q_from: &Config,
        q_to: &mut PartialConfig,
        Ghost(q0): Ghost<Seq<Option<usize>>>,
        Ghost(occ0): Ghost<Seq<Option<usize>>>,
    )
        requires
            old(self).claimed(q_from@, old(q_to)@, q0, occ0, agent_id as int, vertex_id as int),
            swap_agent_id < old(self).num_agents,
            swap_agent_id != agent_id,
            old(self).graph().adjacent(q_from@[agent_id as int] as int, q_from@[swap_agent_id as int] as int),
            old(q_to)@[swap_agent_id as int] is None,
            old(self).occupied_next@[q_from@[agent_id as int] as int] is None,
            vertex_id != q_from@[agent_id as int] ==> (old(self).occupied_now@[vertex_id as int] matches Some(j)
                ==> old(q_to)@[j as int] is Some),
        ensures
            final(self).same_setup(old(self)),
            final(self).claimed(q_from@, final(q_to)@, q0, occ0, agent_id as int, vertex_id as int),
            final(q_to)@ == old(q_to)@.update(swap_agent_id as int, Some(q_from@[agent_id as int])),
            final(self).occupied_next@ == old(self).occupied_next@.update(
                q_from@[agent_id as int] as int,
                Some(swap_agent_id),
            ),
    {
        reveal(PIBT::claimed);
        let ghost g = self.graph();
        let ghost n = self.num_agents as int;
        let ghost nv = g.vertices@.len() as int;
        let ghost distinct = config_distinct(q_from@);
        let current_vertex_id = q_from[agent_id];
        let ghost q_b = q_to@;
        let ghost occ_b = self.occupied_next@;
        self.occupied_next.set(current_vertex_id, Some(swap_agent_id));
        q_to.set(swap_agent_id, Some(current_vertex_id));
        proof {
            let s = swap_agent_id as int;
            g.lemma_adjacent_symmetric(current_vertex_id as int, q_from@[s] as int);
            g.lemma_neighbors_in_range(q_from@[s] as int);
            assert(g.adjacency_ok(q_from@[s] as int));
            let kk = choose|kk: int| 0 <= kk < g.nbrs(q_from@[s] as int).len() && g.nbrs(q_from@[s] as int)[kk] == current_vertex_id;
            assert(g.acts(q_from@[s] as int)[kk] == current_vertex_id);
            assert(g.acts(q_from@[s] as int).contains(current_vertex_id));
            assert(occ0[current_vertex_id as int] is None);
            assert(q0[s] is None);
            assert forall|v: int| 0 <= v < nv && (#[trigger] self.occupied_next@[v]) is Some implies self.occupied_next@[v]->0
                < q_to@.len() && q_to@[self.occupied_next@[v]->0 as int] == Some(v as usize) by {
                if v != current_vertex_id {
                    assert(occ_b[v] is Some);
                    assert(occ_b[v] != Some(swap_agent_id));
                }
            }
            assert forall|v: int|
                0 <= v < nv && (#[trigger] self.occupied_next@[v]) is Some implies self.occupied_next@[v]->0 < self.num_agents by {
                if v != current_vertex_id {
                    assert(occ_b[v] is Some);
                }
            }
            assert forall|t: int| 0 <= t < n implies holds(self.occupied_next@, q_to@, t) by {
                assert(holds(occ_b, q_b, t));
                if t != s && q_to@[t] is Some {
                    assert(q_to@[t]->0 != current_vertex_id);
                }
            }
            if distinct {
                if q_from@[s] == vertex_id {
                    assert(self.occupied_now@[vertex_id as int] == Some(swap_agent_id));
                }
                assert(q_from@[s] != vertex_id);
                assert forall|a: int, b: int|
                    0 <= a < n && 0 <= b < n && a != b implies !(#[trigger] q_to@[a] == Some(q_from@[b])
                        && #[trigger] q_to@[b] == Some(q_from@[a])) by {
                    if a == s {
                        if q_to@[a] == Some(q_from@[b]) {
                            assert(b == agent_id);
                        }
                    } else if b == s {
                        if q_to@[b] == Some(q_from@[a]) {
                            assert(a == agent_id);
                        }
                    } else {
                        assert(q_to@[a] == q_b[a] && q_to@[b] == q_b[b]);
                    }
                }
            }
            assert forall|t: int|
                0 <= t < n && #[trigger] q_to@[t] != q0[t] implies q_to@[t] is Some && (occ0[q_to@[t]->0 as int] is None || (t
                    == agent_id && q_to@[t] == Some(q_from@[agent_id as int]))) by {
                if t != s {
                    assert(q_to@[t] == q_b[t]);
                }
            }
            assert forall|t: int|
                0 <= t < n && q0[t] is None && (#[trigger] q_to@[t]) is Some implies g.acts(q_from@[t] as int).contains(
                    q_to@[t]->0,
                ) by {
                if t != s {
                    assert(q_to@[t] == q_b[t]);
                }
            }
            assert forall|t: int| 0 <= t < n && (#[trigger] q0[t]) is Some implies q_to@[t] == q0[t] by {
                assert(q_b[t] == q0[t]);
            }
            assert forall|w: int| 0 <= w < nv && w != q_from@[agent_id as int] && (#[trigger] occ0[w]) is Some implies self.occupied_next@[w] == occ0[w] by {
                assert(occ_b[w] == occ0[w]);
            }
            assert forall|w: int| 0 <= w < nv && (#[trigger] occ0[w]) is Some implies self.occupied_next@[w] is Some by {
                assert(occ_b[w] is Some);
            }
        }
    }

    /// Leaves `agent` on its own vertex, taking it from any agent heading there.
    fn stay(
        &mut self,
        agent_id: usize,
        q_from: &Config,
        q_to: &mut PartialConfig,
        Ghost(q0): Ghost<Seq<Option<usize>>>,
        Ghost(occ0): Ghost<Seq<Option<usize>>>,
    )
        requires
            old(self).pending(q_from@, old(q_to)@, q0, occ0, agent_id as int),
        ensures
            final(self).same_setup(old(self)),
            final(self).gave_up(q_from@, final(q_to)@, q0, occ0, agent_id as int),
            final(self).occupied_next@ == old(self).occupied_next@.update(
                q_from@[agent_id as int] as int,
                Some(agent_id),
            ),
            final(q_to)@ == old(q_to)@.update(agent_id as int, Some(q_from@[agent_id as int])),
    {
        reveal(PIBT::pending);
        reveal(PIBT::gave_up);
        let ghost g = self.graph();
        let ghost n = self.num_agents as int;
        let ghost nv = g.vertices@.len() as int;
        let ghost distinct = config_distinct(q_from@);
        let current_vertex_id = q_from[agent_id];
        let ghost q_b = q_to@;
        let ghost occ_b = self.occupied_next@;
        self.occupied_next.set(current_vertex_id, Some(agent_id));
        q_to.set(agent_id, Some(current_vertex_id));
        proof {
            g.lemma_neighbors_in_range(current_vertex_id as int);
            assert forall|v: int| 0 <= v < nv && (#[trigger] self.occupied_next@[v]) is Some implies self.occupied_next@[v]->0
                < q_to@.len() && q_to@[self.occupied_next@[v]->0 as int] == Some(v as usize) by {
                if v != current_vertex_id {
                    assert(occ_b[v] is Some);
                    assert(occ_b[v] != Some(agent_id));
                }
            }
            assert forall|v: int|
                0 <= v < nv && (#[trigger] self.occupied_next@[v]) is Some implies self.occupied_next@[v]->0 < self.num_agents by {
                if v != current_vertex_id {
                    assert(occ_b[v] is Some);
                }
            }
            assert(g.acts(current_vertex_id as int)[g.acts(current_vertex_id as int).len() - 1] == current_vertex_id);
            assert(g.acts(current_vertex_id as int).contains(current_vertex_id));
            if distinct {
                assert forall|a: int, b: int|
                    0 <= a < n && 0 <= b < n && a != b implies !(#[trigger] q_to@[a] == Some(q_from@[b])
                        && #[trigger] q_to@[b] == Some(q_from@[a])) by {
                    if a != agent_id && b != agent_id {
                        assert(q_to@[a] == q_b[a] && q_to@[b] == q_b[b]);
                    }
                }
            }
            assert forall|t: int| 0 <= t < n implies holds(self.occupied_next@, q_to@, t) || (t != agent_id
                && #[trigger] q_to@[t] == Some(q_from@[agent_id as int])) by {
                if t != agent_id {
                    assert(holds(occ_b, q_b, t));
                }
            }
            assert forall|t: int|
                0 <= t < n && #[trigger] q_to@[t] != q0[t] implies q_to@[t] is Some && (occ0[q_to@[t]->0 as int] is None || (t
                    == agent_id && q_to@[t] == Some(q_from@[agent_id as int]))) by {
                if t != agent_id {
                    assert(q_to@[t] == q_b[t]);
                }
            }
            assert forall|t: int|
                0 <= t < n && q0[t] is None && (#[trigger] q_to@[t]) is Some implies g.acts(q_from@[t] as int).contains(
                    q_to@[t]->0,
                ) by {
                if t != agent_id {
                    assert(q_to@[t] == q_b[t]);
                }
            }
            assert forall|t: int| 0 <= t < n && (#[trigger] q0[t]) is Some implies q_to@[t] == q0[t] by {
                assert(q_b[t] == q0[t]);
            }
            assert forall|w: int| 0 <= w < nv && w != q_from@[agent_id as int] && (#[trigger] occ0[w]) is Some implies self.occupied_next@[w] == occ0[w] by {
                assert(occ_b[w] == occ0[w]);
            }
            assert forall|w: int| 0 <= w < nv && (#[trigger] occ0[w]) is Some implies self.occupied_next@[w] is Some by {
                assert(occ_b[w] is Some);
            }
        }
    }

    /// Chooses the next vertex of `agent_id`, asking agents in the way to move first
    /// (priority inheritance). Returns whether the agent got a vertex other than a forced stay.
    ///
    /// The agent always ends with a next vertex; on failure it stays where it is, which may
    /// take that vertex from the agent that asked it to move.
    fn func_pibt(
        &mut self,
        agent_id: usize,
        q_from: &Config,
        q_to: &mut PartialConfig,
        dist_table: &mut DistTable<'a>,
    ) -> (r: bool)
        requires
            old(self).step_ok(q_from@, old(q_to)@),
            forall|i: int| 0 <= i < old(q_to)@.len() ==> holds(old(self).occupied_next@, old(q_to)@, i),
            agent_id < old(self).num_agents,
            old(q_to)@[agent_id as int] is None,
            old(dist_table).serves(old(self).instance),
        ensures
            final(self).pibt_done(old(self), q_from@, final(q_to)@, old(q_to)@, agent_id as int, r),
            final(dist_table).serves(final(self).instance),
            !r ==> forall|w: int|
                0 <= w < old(self).occupied_next@.len() && old(self).occupied_next@[w] is None
                    && (#[trigger] final(self).occupied_next@[w]) is Some ==> w == q_from@[final(self).occupied_next@[w]->0 as int],
            config_distinct(q_from@) ==> forall|a: int|
                0 <= a < old(q_to)@.len() && (#[trigger] final(q_to)@[a]) is None
                    && old(self).occupied_next@[q_from@[a] as int] is None ==> final(self).occupied_next@[q_from@[a] as int] is None,
            config_distinct(q_from@) && old(self).occupied_next@[q_from@[agent_id as int] as int] is None ==> r,
            final(self).picked(old(self), q_from@, old(q_to)@, final(q_to)@, agent_id as int, r),
        decreases count_open(old(q_to)@), 1nat,
    {
        let ghost g = self.graph();
        let ghost q0 = q_to@;
        let ghost occ0 = self.occupied_next@;
        let current_vertex_id = q_from[agent_id];
        proof {
            g.lemma_neighbors_in_range(current_vertex_id as int);
            reveal(PIBT::pending);
            assert forall|w: int| 0 <= w < self.occupied_next@.len() implies self.occupied_next@[w] != Some(agent_id) by {
                if self.occupied_next@[w] == Some(agent_id) {
                    assert(q_to@[agent_id as int] == Some(w as usize));
                }
            }
            assert(self.pending(q_from@, q_to@, q0, occ0, agent_id as int));
        }
        let ghost setup0 = *self;
        let (c_next, c_cost) = self.evaluate(agent_id, q_from, dist_table);
        proof {
            reveal(PIBT::pending);
            assert(self.pending(q_from@, q_to@, q0, occ0, agent_id as int));
        }
        let k = c_next.len();
        let mut c_indices = rank_candidates(&c_cost);
        proof {
            lemma_ranks_distinct(c_cost@, c_indices@);
        }
        let ghost o1 = c_indices@;
        let ghost mid1 = *self;
        let ghost mut c2: Seq<PIBTHeuristic> = c_cost@;

        // emulate swap
        let best_candidate_vertex_id = c_next[c_indices[0]];
        let swap_agent = self.is_swap_required_and_possible(
            agent_id,
            q_from,
            q_to,
            best_candidate_vertex_id,
            dist_table,
        );
        if swap_agent.is_some() {
            let reversed = self.evaluate_reversed(agent_id, &c_next, q_from, dist_table);
            c_indices = rank_candidates(&reversed);
            proof {
                c2 = reversed@;
                lemma_ranks_distinct(reversed@, c_indices@);
                reveal(PIBT::pending);
                assert(self.pending(q_from@, q_to@, q0, occ0, agent_id as int));
            }
        }

        let ghost mid = *self;
        let ghost q_mid = q_to@;
        let r = self.take_first(agent_id, q_from, q_to, &c_next, &c_indices, swap_agent, dist_table);
        proof {
            reveal(PIBT::pibt_done);
            reveal(PIBT::gave_up);
            assert(mid.occupied_next@ == occ0);
            assert(q_mid == q0);
            // the ranking followed: by the scores, or by the make-way scores after a swap
            let acts = g.acts(current_vertex_id as int);
            assert(g.adjacency_ok(current_vertex_id as int));
            assert(o1.len() > 0);
            PIBT::lemma_swap_partner_same(&setup0, &mid1, agent_id as int, q_from@, q0, acts[o1[0] as int] as int);
            assert(ranks(c_cost@, o1));
            if swap_agent is Some {
                assert(ranks(c2, c_indices@));
                assert(setup0.scored_reversed(agent_id as int, q_from@, c2));
            }
        }
        r
    }

    /// The ways on out of a vertex depend only on the setup.
    proof fn lemma_exits_same(a: &Self, b: &Self, p: int, c: int, k: int)
        requires
            a.same_setup(b),
        ensures
            a.exits_upto(p, c, k) == b.exits_upto(p, c, k),
            a.last_exit_upto(p, c, k) == b.last_exit_upto(p, c, k),
        decreases k,
    {
        if k > 0 {
            PIBT::lemma_exits_same(a, b, p, c, k - 1);
        }
    }

    /// Whether a corridor opens up depends only on the setup.
    proof fn lemma_opens_up_same(a: &Self, b: &Self, origin: int, p: int, c: int, fuel: nat)
        requires
            a.same_setup(b),
        ensures
            a.opens_up(origin, p, c, fuel) == b.opens_up(origin, p, c, fuel),
        decreases fuel,
    {
        PIBT::lemma_exits_same(a, b, p, c, a.graph().nbrs(c).len() as int);
        if fuel > 0 && c != origin && a.exits(p, c) == 1 {
            PIBT::lemma_opens_up_same(a, b, origin, c, a.last_exit(p, c)->0 as int, (fuel - 1) as nat);
        }
    }

    /// Whether a swap is needed depends only on the setup.
    proof fn lemma_swap_needed_same(a: &Self, b: &Self, pusher: int, puller: int, vp: int, vq: int)
        requires
            a.same_setup(b),
        ensures
            a.swap_needed(pusher, puller, vp, vq) == b.swap_needed(pusher, puller, vp, vq),
        decreases a.d(pusher, vp),
    {
        PIBT::lemma_exits_same(a, b, vp, vq, a.graph().nbrs(vq).len() as int);
        if a.d(pusher, vq) < a.d(pusher, vp) && a.exits(vp, vq) == 1 {
            PIBT::lemma_swap_needed_same(a, b, pusher, puller, vq, a.last_exit(vp, vq)->0 as int);
        }
    }

    /// Which neighbour clears the way depends only on the setup.
    proof fn lemma_clear_from_same(a: &Self, b: &Self, agent: int, q_from: Seq<usize>, vertex: int, i: int)
        requires
            a.same_setup(b),
        ensures
            a.clear_from(agent, q_from, vertex, i) == b.clear_from(agent, q_from, vertex, i),
        decreases a.graph().nbrs(q_from[agent] as int).len() - i,
    {
        let cur = q_from[agent] as int;
        let nb = a.graph().nbrs(cur);
        if 0 <= i < nb.len() {
            if let Some(k) = a.occupied_now@[nb[i] as int] {
                PIBT::lemma_swap_needed_same(a, b, k as int, agent, cur, vertex);
            }
            PIBT::lemma_opens_up_same(a, b, vertex, vertex, cur, a.graph().vertices@.len());
            PIBT::lemma_clear_from_same(a, b, agent, q_from, vertex, i + 1);
        }
    }

    /// The swap partner depends only on the setup.
    proof fn lemma_swap_partner_same(
        a: &Self,
        b: &Self,
        agent: int,
        q_from: Seq<usize>,
        q_to: Seq<Option<usize>>,
        vertex: int,
    )
        requires
            a.same_setup(b),
        ensures
            a.swap_partner(agent, q_from, q_to, vertex) == b.swap_partner(agent, q_from, q_to, vertex),
    {
        let cur = q_from[agent] as int;
        if let Some(j) = a.occupied_now@[vertex] {
            PIBT::lemma_swap_needed_same(a, b, agent, j as int, cur, q_from[j as int] as int);
            PIBT::lemma_opens_up_same(a, b, q_from[j as int] as int, q_from[j as int] as int, cur, a.graph().vertices@.len());
        }
        PIBT::lemma_clear_from_same(a, b, agent, q_from, vertex, 0);
    }

    /// In the state `self` with next vertices `q_new`, the call for `agent`, begun with the
    /// claims `occ0` and next vertices `q_old`, took the first candidate in the ranking `order`
    /// of `cands` that was to be had when it came to it: on success every candidate ranked
    /// before the one taken is not to be had; on failure none other than the agent's own vertex
    /// is. The claims and next vertices at each of its turns form `turns`: every candidate
    /// before the one taken (all of them, on failure) was passed over at its turn, because it
    /// was not to be had then or because its agent was asked to make way and stayed; the one
    /// taken was to be had at its turn; and what the last turn had is kept.
    pub open spec fn chose_first(
        &self,
        occ0: Seq<Option<usize>>,
        q_from: Seq<usize>,
        q_old: Seq<Option<usize>>,
        q_new: Seq<Option<usize>>,
        agent: int,
        cands: Seq<usize>,
        order: Seq<usize>,
        r: bool,
    ) -> bool {
        &&& r ==> exists|i: int|
            0 <= i < order.len() && q_new[agent] == Some(cands[order[i] as int]) && forall|t: int|
                0 <= t < i ==> #[trigger] self.unavailable(q_from, q_new, agent, cands[order[t] as int] as int)
        &&& !r ==> forall|t: int|
            0 <= t < order.len() && cands[order[t] as int] != q_from[agent] ==> #[trigger] self.unavailable(
                q_from,
                q_new,
                agent,
                cands[order[t] as int] as int,
            )
        &&& exists|trials: Seq<(Seq<Option<usize>>, Seq<Option<usize>>)>|
            #[trigger] turns(self.occupied_now@, q_from, agent, cands, order, occ0, q_old, trials) && kept(
                trials.last().0,
                trials.last().1,
                self.occupied_next@,
                q_new,
                agent,
            ) && if r {
                let i = trials.len() - 1;
                &&& i < order.len()
                &&& q_new[agent] == Some(cands[order[i] as int])
                &&& !unavailable_then(
                    self.occupied_now@,
                    trials[i].0,
                    q_from,
                    trials[i].1,
                    agent,
                    cands[order[i] as int] as int,
                )
            } else {
                trials.len() == order.len() + 1
            }
    }

    /// When `agent`, begun with the claims `occ0` and next vertices `q_old`, went to `v` and has
    /// the swap partner `s`: then `s` has a next vertex or the vertex `agent` leaves is claimed;
    /// and when `v` is not that vertex, `s` had no next vertex, the vertex was unclaimed and
    /// nobody without a next vertex stood on `v`, `s` heads to the vertex `agent` leaves.
    pub open spec fn partner_followed(
        &self,
        occ0: Seq<Option<usize>>,
        q_from: Seq<usize>,
        q_old: Seq<Option<usize>>,
        q_new: Seq<Option<usize>>,
        agent: int,
        v: int,
        s: int,
    ) -> bool {
        let cur = q_from[agent] as int;
        q_new[agent] == Some(v as usize) ==> {
            &&& q_new[s] is Some || self.occupied_next@[cur] is Some
            &&& v != cur && q_old[s] is None && occ0[cur] is None && (self.occupied_now@[v] matches Some(j)
                ==> q_old[j as int] is Some) ==> q_new[s] == Some(cur as usize) && self.occupied_next@[cur] == Some(
                s as usize,
            )
        }
    }

    /// The step of `agent` from the state `old` to `self` (next vertices `q_old` to `q_new`)
    /// followed a ranking of its moves by their scores: the first available move in that
    /// ranking was taken, or, when the best-ranked move calls for a swap partner, the first
    /// available one in a ranking by the make-way scores, the partner following into the
    /// vertex the agent leaves when the agent took the first move of that ranking.
    pub open spec fn picked(
        &self,
        old: &Self,
        q_from: Seq<usize>,
        q_old: Seq<Option<usize>>,
        q_new: Seq<Option<usize>>,
        agent: int,
        r: bool,
    ) -> bool {
        let acts = old.graph().acts(q_from[agent] as int);
        exists|c1: Seq<PIBTHeuristic>, o1: Seq<usize>|
            #[trigger] ranks(c1, o1) && old.scored(agent, q_from, c1) && o1.len() > 0 && if old.swap_partner(
                agent,
                q_from,
                q_old,
                acts[o1[0] as int] as int,
            ) is None {
                self.chose_first(old.occupied_next@, q_from, q_old, q_new, agent, acts, o1, r)
            } else {
                exists|c2: Seq<PIBTHeuristic>, o2: Seq<usize>|
                    #[trigger] ranks(c2, o2) && old.scored_reversed(agent, q_from, c2) && self.chose_first(
                        old.occupied_next@,
                        q_from,
                        q_old,
                        q_new,
                        agent,
                        acts,
                        o2,
                        r,
                    ) && (r ==> self.partner_followed(
                        old.occupied_next@,
                        q_from,
                        q_old,
                        q_new,
                        agent,
                        acts[o2[0] as int] as int,
                        old.swap_partner(agent, q_from, q_old, acts[o1[0] as int] as int)->0 as int,
                    ))
            }
    }

    /// The step of `agent` from the state `a` with next vertices `qa` to the state `self` with
    /// next vertices `qb` succeeded as a call of `func_pibt` does: it ended well formed, with the
    /// first available move in the agent's ranking.
    pub open spec fn stepped_from(&self, a: &Self, q_from: Seq<usize>, qa: Seq<Option<usize>>, qb: Seq<Option<usize>>, agent: int) -> bool {
        &&& self.pibt_done(a, q_from, qb, qa, agent, true)
        &&& self.picked(a, q_from, qa, qb, agent, true)
    }

    /// The turn of `agent` from `before` to `after` (each a state and next vertices): an agent
    /// that already has a next vertex leaves both as they are; any other takes one by a
    /// successful step.
    pub open spec fn turn(agent: usize, q_from: Seq<usize>, before: (Self, Seq<Option<usize>>), after: (Self, Seq<Option<usize>>)) -> bool {
        if before.1[agent as int] is Some {
            after == before
        } else {
            after.0.stepped_from(&before.0, q_from, before.1, after.1, agent as int)
        }
    }

    /// `trace` plans the agents in `order`, one turn each: `trace[t]` is the state and the next
    /// vertices before the turn of `order[t]`, the last entry after all turns.
    pub open spec fn plans(order: Seq<usize>, q_from: Seq<usize>, trace: Seq<(Self, Seq<Option<usize>>)>) -> bool {
        &&& trace.len() == order.len() + 1
        &&& forall|t: int| 0 <= t < order.len() ==> #[trigger] Self::turn(order[t], q_from, trace[t], trace[t + 1])
    }

    /// `start` is `self` with every agent of `q_from` put on its vertex and every preset next
    /// vertex of `q0` claimed, the next vertices being `q0`.
    pub open spec fn prepared(&self, q_from: Seq<usize>, q0: Seq<Option<usize>>, start: (Self, Seq<Option<usize>>)) -> bool {
        &&& start.0.instance == self.instance
        &&& start.0.num_agents == self.num_agents
        &&& start.0.swap == self.swap
        &&& start.0.hindrance == self.hindrance
        &&& start.0.rng == self.rng
        &&& start.0.occupied_now@ == now_upto(q_from, self.occupied_now@, q_from.len() as int)
        &&& start.0.occupied_next@ == next_upto(q0, self.occupied_next@, q0.len() as int)
        &&& start.1 == q0
    }

    /// Vertex `w` is not to be had by `agent`: some agent holds it, or the agent standing on it
    /// is heading to the vertex of `agent`.
    pub open spec fn unavailable(&self, q_from: Seq<usize>, q_to: Seq<Option<usize>>, agent: int, w: int) -> bool {
        ||| self.occupied_next@[w] is Some
        ||| self.occupied_now@[w] matches Some(j) && q_to[j as int] == Some(q_from[agent])
    }

    /// A vertex not to be had stays so while claims and other agents' next vertices are kept.
    proof fn lemma_still_unavailable(
        a: &Self,
        b: &Self,
        q_from: Seq<usize>,
        q_a: Seq<Option<usize>>,
        q_b: Seq<Option<usize>>,
        agent: int,
        w: int,
    )
        requires
            a.unavailable(q_from, q_a, agent, w),
            0 <= w < a.occupied_next@.len(),
            a.occupied_next@.len() == a.occupied_now@.len(),
            occ_now_ok(a.occupied_now@, q_from),
            q_a.len() == q_from.len(),
            0 <= agent < q_from.len(),
            q_a[agent] != Some(q_from[agent]),
            b.occupied_now == a.occupied_now,
            kept(a.occupied_next@, q_a, b.occupied_next@, q_b, agent),
        ensures
            b.unavailable(q_from, q_b, agent, w),
    {
        if a.occupied_next@[w] is None {
            let j = a.occupied_now@[w]->0 as int;
            assert(q_a[j] == Some(q_from[agent]));
            assert(j != agent);
        }
    }

    /// Tries the candidates of `agent_id` in the ranked order `c_next[c_indices[0]]`,
    /// `c_next[c_indices[1]]`, ...: takes the first one that is free, not held by an agent
    /// heading to its own vertex, and whose agent, if any, can make way; when that is the best
    /// candidate, `swap_agent` follows into the vertex `agent_id` leaves. Stays when none is.
    #[verifier::rlimit(100)]
    #[verifier::spinoff_prover]
    fn take_first(
        &mut self,
        agent_id: usize,
        q_from: &Config,
        q_to: &mut PartialConfig,
        c_next: &Vec<usize>,
        c_indices: &Vec<usize>,
        swap_agent: Option<usize>,
        dist_table: &mut DistTable<'a>,
    ) -> (r: bool)
        requires
            old(self).pending(q_from@, old(q_to)@, old(q_to)@, old(self).occupied_next@, agent_id as int),
            old(q_to)@[agent_id as int] is None,
            agent_id < old(self).num_agents,
            q_from@.len() == old(self).num_agents,
            q_from@[agent_id as int] < old(self).graph().vertices@.len(),
            old(self).occupied_next@.len() == old(self).graph().vertices@.len(),
            old(self).occupied_now@.len() == old(self).graph().vertices@.len(),
            old(q_to)@.len() == old(self).num_agents,
            c_next@ == old(self).graph().acts(q_from@[agent_id as int] as int),
            forall|t: int| 0 <= t < c_next@.len() ==> #[trigger] c_next@[t] < old(self).graph().vertices@.len(),
            c_indices@.len() == c_next@.len(),
            forall|t: int| 0 <= t < c_indices@.len() ==> #[trigger] c_indices@[t] < c_next@.len(),
            forall|p: int, q: int| 0 <= p < q < c_indices@.len() ==> #[trigger] c_indices@[p] != #[trigger] c_indices@[q],
            swap_agent matches Some(s) ==> s < old(self).num_agents && s != agent_id && old(self).graph().adjacent(
                q_from@[agent_id as int] as int,
                q_from@[s as int] as int,
            ),
            occ_now_ok(old(self).occupied_now@, q_from@),
            old(dist_table).serves(old(self).instance),
        ensures
            final(self).pibt_done(old(self), q_from@, final(q_to)@, old(q_to)@, agent_id as int, r),
            final(dist_table).serves(final(self).instance),
            !r ==> forall|w: int|
                0 <= w < old(self).occupied_next@.len() && old(self).occupied_next@[w] is None
                    && (#[trigger] final(self).occupied_next@[w]) is Some ==> w == q_from@[final(self).occupied_next@[w]->0 as int],
            config_distinct(q_from@) ==> forall|a: int|
                0 <= a < old(q_to)@.len() && (#[trigger] final(q_to)@[a]) is None
                    && old(self).occupied_next@[q_from@[a] as int] is None ==> final(self).occupied_next@[q_from@[a] as int] is None,
            config_distinct(q_from@) && old(self).occupied_next@[q_from@[agent_id as int] as int] is None ==> r,
            final(self).chose_first(
                old(self).occupied_next@,
                q_from@,
                old(q_to)@,
                final(q_to)@,
                agent_id as int,
                c_next@,
                c_indices@,
                r,
            ),
            r && c_indices@.len() > 0 ==> (swap_agent matches Some(s) ==> final(self).partner_followed(
                old(self).occupied_next@,
                q_from@,
                old(q_to)@,
                final(q_to)@,
                agent_id as int,
                c_next@[c_indices@[0] as int] as int,
                s as int,
            )),
        decreases count_open(old(q_to)@), 0nat,
    {
        let ghost g = self.graph();
        let ghost q0 = q_to@;
        let ghost occ0 = self.occupied_next@;
        let current_vertex_id = q_from[agent_id];
        let k = c_next.len();
        proof {
            reveal(PIBT::pending);
            g.lemma_neighbors_in_range(current_vertex_id as int);
        }
        // main loop
        let mut i: usize = 0;
        let ghost mut trials: Seq<(Seq<Option<usize>>, Seq<Option<usize>>)> = seq![(occ0, q0)];
        proof {
            lemma_turns_start(self.occupied_now@, q_from@, agent_id as int, c_next@, c_indices@, occ0, q0);
        }
        while i < k
            invariant
                self.same_setup(old(self)),
                self.pending(q_from@, q_to@, q0, occ0, agent_id as int),
                g == self.graph(),
                q0 == old(q_to)@,
                occ0 == old(self).occupied_next@,
                agent_id < self.num_agents,
                q_from@.len() == self.num_agents,
                current_vertex_id == q_from@[agent_id as int],
                current_vertex_id < g.vertices@.len(),
                self.occupied_next@.len() == g.vertices@.len(),
                self.occupied_now@.len() == g.vertices@.len(),
                q_to@.len() == self.num_agents,
                k == c_next@.len(),
                c_next@ == g.acts(current_vertex_id as int),
                forall|t: int| 0 <= t < c_next@.len() ==> #[trigger] c_next@[t] < g.vertices@.len(),
                c_indices@.len() == k,
                forall|t: int| 0 <= t < c_indices@.len() ==> #[trigger] c_indices@[t] < k,
                swap_agent matches Some(s) ==> s < self.num_agents && s != agent_id && g.adjacent(
                    current_vertex_id as int,
                    q_from@[s as int] as int,
                ),
                occ_now_ok(self.occupied_now@, q_from@),
                dist_table.serves(self.instance),
                0 <= i <= k,
                forall|w: int|
                    0 <= w < occ0.len() && occ0[w] is None && (#[trigger] self.occupied_next@[w]) is Some ==> w
                        == q_from@[self.occupied_next@[w]->0 as int],
                config_distinct(q_from@) ==> forall|a: int|
                    0 <= a < q_to@.len() && (#[trigger] q_to@[a]) is None && occ0[q_from@[a] as int] is None
                        ==> self.occupied_next@[q_from@[a] as int] is None,
                forall|p: int, q: int| 0 <= p < q < c_indices@.len() ==> #[trigger] c_indices@[p] != #[trigger] c_indices@[q],
                config_distinct(q_from@) && occ0[current_vertex_id as int] is None ==> forall|t: int|
                    0 <= t < i ==> c_next@[#[trigger] c_indices@[t] as int] != current_vertex_id,
                q_to@[agent_id as int] != Some(current_vertex_id),
                forall|t: int|
                    0 <= t < i ==> #[trigger] self.unavailable(
                        q_from@,
                        q_to@,
                        agent_id as int,
                        c_next@[c_indices@[t] as int] as int,
                    ),
                trials.len() == i + 1,
                trials[0] == (occ0, q0),
                trials[i as int] == (self.occupied_next@, q_to@),
                turns(self.occupied_now@, q_from@, agent_id as int, c_next@, c_indices@, occ0, q0, trials),
            decreases k - i,
        {
            let u_idx = c_indices[i];
            let vertex_id = c_next[u_idx];
            if self.occupied_next[vertex_id].is_some() {
                proof {
                    // the agent's own vertex is still free when it was free at the start
                    if config_distinct(q_from@) && occ0[current_vertex_id as int] is None && vertex_id == current_vertex_id {
                        reveal(PIBT::pending);
                        let x = self.occupied_next@[vertex_id as int]->0 as int;
                        assert(q_from@[x] == current_vertex_id);
                        if x < agent_id {
                            assert(q_from@[x] != q_from@[agent_id as int]);
                        } else if x > agent_id {
                            assert(q_from@[agent_id as int] != q_from@[x]);
                        }
                        assert(self.occupied_next@[vertex_id as int] != Some(agent_id));
                    }
                    assert(self.unavailable(q_from@, q_to@, agent_id as int, c_next@[c_indices@[i as int] as int] as int));
                    lemma_turns_push(
                        self.occupied_now@,
                        q_from@,
                        agent_id as int,
                        c_next@,
                        c_indices@,
                        occ0,
                        q0,
                        trials,
                        (self.occupied_next@, q_to@),
                    );
                    trials = trials.push((self.occupied_next@, q_to@));
                }
                i += 1;
                continue;
            }
            let j = self.occupied_now[vertex_id];
            if let Some(j_id) = j {
                if q_to[j_id] == Some(q_from[agent_id]) {
                    proof {
                        if config_distinct(q_from@) && vertex_id == current_vertex_id {
                            reveal(PIBT::pending);
                            let x = j_id as int;
                            assert(q_from@[x] == current_vertex_id);
                            if x < agent_id {
                                assert(q_from@[x] != q_from@[agent_id as int]);
                            } else if x > agent_id {
                                assert(q_from@[agent_id as int] != q_from@[x]);
                            }
                            assert(x == agent_id);
                        }
                        assert(self.unavailable(q_from@, q_to@, agent_id as int, c_next@[c_indices@[i as int] as int] as int));
                        lemma_turns_push(
                            self.occupied_now@,
                            q_from@,
                            agent_id as int,
                            c_next@,
                            c_indices@,
                            occ0,
                            q0,
                            trials,
                            (self.occupied_next@, q_to@),
                        );
                        trials = trials.push((self.occupied_next@, q_to@));
                    }
                    i += 1;
                    continue;
                }
            }
            assert(g.acts(current_vertex_id as int).contains(vertex_id)) by {
                assert(c_next@[u_idx as int] == vertex_id);
            }
            let ghost occ_i = self.occupied_next@;
            let ghost q_i = q_to@;
            let ghost st_i = *self;
            proof {
                assert(!st_i.unavailable(q_from@, q_i, agent_id as int, vertex_id as int));
                if i > 0 {
                    assert(st_i.unavailable(q_from@, q_i, agent_id as int, c_next@[c_indices@[0] as int] as int));
                }
            }
            self.claim(agent_id, vertex_id, q_from, q_to, Ghost(q0), Ghost(occ0));
            let ghost occ_cl = self.occupied_next@;
            let ghost q_cl = q_to@;
            let ghost mut pushed = false;
            proof {
                assert(kept(occ_i, q_i, self.occupied_next@, q_to@, agent_id as int));
            }
            // priority inheritance
            if let Some(j_id) = j {
                if vertex_id != current_vertex_id && q_to[j_id].is_none() {
                    let ghost q_pre = q_to@;
                    let ghost pre = *self;
                    proof {
                        reveal(PIBT::claimed);
                        assert(self.occupied_now@[vertex_id as int] is Some);
                        assert(q_from@[j_id as int] == vertex_id);
                        assert forall|t: int| 0 <= t < q0.len() && (#[trigger] q0[t]) is Some implies q_pre[t] is Some by {}
                        lemma_count_open_decreases(q0, q_pre, agent_id as int);
                    }
                    proof {
                        pushed = true;
                    }
                    let ok = self.func_pibt(j_id, q_from, q_to, dist_table);
                    proof {
                        PIBT::lemma_inherited(
                            &pre,
                            self,
                            q_from@,
                            q_pre,
                            q_to@,
                            q0,
                            occ0,
                            agent_id as int,
                            vertex_id as int,
                            j_id as int,
                            ok,
                        );
                        reveal(PIBT::pibt_done);
                        assert(kept(occ_i, q_i, self.occupied_next@, q_to@, agent_id as int)) by {
                            assert forall|w: int| 0 <= w < occ_i.len() && (#[trigger] occ_i[w]) is Some implies self.occupied_next@[w] is Some by {
                                assert(pre.occupied_next@[w] is Some);
                            }
                            assert forall|t: int| 0 <= t < q_i.len() && t != agent_id && (#[trigger] q_i[t]) is Some implies q_to@[t] == q_i[t] by {
                                assert(q_pre[t] == q_i[t]);
                            }
                        }
                    }
                    if !ok {
                        proof {
                            reveal(PIBT::pibt_done);
                            reveal(PIBT::gave_up);
                            let occ_l = pre.occupied_next@;
                            assert forall|w: int|
                                0 <= w < occ0.len() && occ0[w] is None && (#[trigger] self.occupied_next@[w]) is Some implies w
                                    == q_from@[self.occupied_next@[w]->0 as int] by {
                                if w == vertex_id {
                                    assert(holds(self.occupied_next@, q_to@, j_id as int));
                                    assert(q_to@[j_id as int] == Some(q_from@[j_id as int]));
                                } else if occ_l[w] is Some {
                                    assert(occ_l[w] == occ_i[w]);
                                    assert(w != q_from@[j_id as int]);
                                    assert(self.occupied_next@[w] == occ_l[w]);
                                }
                            }
                        }
                        proof {
                            assert forall|t: int| 0 <= t < i + 1 implies #[trigger] self.unavailable(
                                q_from@,
                                q_to@,
                                agent_id as int,
                                c_next@[c_indices@[t] as int] as int,
                            ) by {
                                let w = c_next@[c_indices@[t] as int] as int;
                                if t < i {
                                    assert(st_i.unavailable(q_from@, q_i, agent_id as int, w));
                                    PIBT::lemma_still_unavailable(&st_i, self, q_from@, q_i, q_to@, agent_id as int, w);
                                } else {
                                    assert(w == vertex_id);
                                    assert(self.occupied_next@[w] is Some);
                                }
                            }
                            // the agent on the candidate was asked to make way and stayed
                            assert(q_to@[j_id as int] == Some(vertex_id));
                            // the agent on the candidate stayed: the turn passed it over
                            assert(holds(self.occupied_next@, q_to@, j_id as int));
                            assert(self.occupied_next@[vertex_id as int] == Some(j_id));
                            assert(q_i[j_id as int] is None);
                            lemma_turns_push(
                                self.occupied_now@,
                                q_from@,
                                agent_id as int,
                                c_next@,
                                c_indices@,
                                occ0,
                                q0,
                                trials,
                                (self.occupied_next@, q_to@),
                            );
                            trials = trials.push((self.occupied_next@, q_to@));
                        }
                        // failed to move the agent in the way: try the next candidate
                        i += 1;
                        continue;
                    }
                }
            }
            proof {
                reveal(PIBT::claimed);
                assert(kept(occ_i, q_i, self.occupied_next@, q_to@, agent_id as int));
                assert(q_to@[agent_id as int] == Some(vertex_id));
            }
            let ghost occ_c = self.occupied_next@;
            let ghost q_c = q_to@;
            if i == 0 {
                // execute swap operation
                if let Some(swap_agent_id) = swap_agent {
                    if q_to[swap_agent_id].is_none() && self.occupied_next[current_vertex_id].is_none() {
                        self.swap_into(agent_id, swap_agent_id, vertex_id, q_from, q_to, Ghost(q0), Ghost(occ0));
                    }
                }
            }
            proof {
                reveal(PIBT::claimed);
                reveal(PIBT::pibt_done);
                assert(kept(occ_c, q_c, self.occupied_next@, q_to@, agent_id as int));
                assert(kept(occ_i, q_i, self.occupied_next@, q_to@, agent_id as int));
                assert(q_to@[agent_id as int] == Some(vertex_id));
                assert forall|t: int| 0 <= t < i implies #[trigger] self.unavailable(
                    q_from@,
                    q_to@,
                    agent_id as int,
                    c_next@[c_indices@[t] as int] as int,
                ) by {
                    let w = c_next@[c_indices@[t] as int] as int;
                    assert(st_i.unavailable(q_from@, q_i, agent_id as int, w));
                    PIBT::lemma_still_unavailable(&st_i, self, q_from@, q_i, q_to@, agent_id as int, w);
                }
                assert(q_to@[agent_id as int] == Some(c_next@[c_indices@[i as int] as int]));
                // the turns up to the one taken
                assert(turns(self.occupied_now@, q_from@, agent_id as int, c_next@, c_indices@, occ0, q0, trials));
                // the swap partner follows into the vertex the agent leaves
                if let Some(s) = swap_agent {
                    let cur = current_vertex_id as int;
                    if i > 0 {
                        assert(vertex_id != c_next@[c_indices@[0] as int]);
                    } else {
                        assert(q_i == q0 && occ_i == occ0);
                        if vertex_id != cur && q0[s as int] is None && occ0[cur] is None && (
                        self.occupied_now@[vertex_id as int] matches Some(jj) ==> q0[jj as int] is Some) {
                            assert(!pushed);
                            assert(q_c[s as int] is None);
                            assert(occ_c[cur] is None);
                        }
                    }
                }
            }
            return true;
        }
        proof {
            // the agent's own vertex is one of its candidates, so it was taken or the agent
            // could not stay
            if config_distinct(q_from@) && occ0[current_vertex_id as int] is None {
                reveal(PIBT::pending);
                g.lemma_neighbors_in_range(current_vertex_id as int);
                assert(g.adjacency_ok(current_vertex_id as int));
                assert(c_next@[k - 1] == current_vertex_id);
                lemma_all_listed(c_indices@, k as int, k - 1);
                let t = choose|t: int| 0 <= t < k && c_indices@[t] == k - 1;
                assert(c_next@[c_indices@[t] as int] != current_vertex_id);
            }
        }
        // failed to secure a vertex: stay
        let ghost st_k = *self;
        let ghost q_k = q_to@;
        self.stay(agent_id, q_from, q_to, Ghost(q0), Ghost(occ0));
        proof {
            assert(kept(st_k.occupied_next@, q_k, self.occupied_next@, q_to@, agent_id as int));
            reveal(PIBT::gave_up);
            reveal(PIBT::pibt_done);
            assert forall|t: int|
                0 <= t < c_indices@.len() && c_next@[c_indices@[t] as int] != q_from@[agent_id as int] implies #[trigger] self.unavailable(
                q_from@,
                q_to@,
                agent_id as int,
                c_next@[c_indices@[t] as int] as int,
            ) by {
                let w = c_next@[c_indices@[t] as int] as int;
                assert(st_k.unavailable(q_from@, q_k, agent_id as int, w));
                if st_k.occupied_next@[w] is None {
                    let j = st_k.occupied_now@[w]->0 as int;
                    assert(q_from@[j] == w);
                    assert(j != agent_id);
                    assert(q_to@[j] == q_k[j]);
                }
            }
        }
        false
    }

    /// Extends the constraints in `q_to` to a next configuration for all agents, taking the
    /// open agents in the order `order`. Returns whether every agent got a next vertex with no
    /// two agents on one vertex and none trading places.
    pub fn set_new_config(
        &mut self,
        q_from: &Config,
        q_to: &mut PartialConfig,
        order: Vec<usize>,
        dist_table: &mut DistTable<'a>,
    ) -> (success: bool)
        requires
            old(self).wf(),
            old(self).positions_ok(q_from@),
            old(q_to)@.len() == old(self).num_agents,
            targets_ok(old(q_to)@, old(self).graph().vertices@.len()),
            forall|t: int| 0 <= t < order@.len() ==> #[trigger] order@[t] < old(self).num_agents,
            forall|a: usize| a < old(self).num_agents ==> #[trigger] order@.contains(a),
            old(dist_table).serves(old(self).instance),
        ensures
            final(self).wf(),
            final(self).instance == old(self).instance,
            final(self).swap == old(self).swap,
            final(self).hindrance == old(self).hindrance,
            final(dist_table).serves(final(self).instance),
            final(q_to)@.len() == old(q_to)@.len(),
            success ==> final(self).valid_step(q_from@, old(q_to)@, final(q_to)@),
            constraints_collide(q_from@, old(q_to)@) ==> !success && final(q_to)@ == old(q_to)@,
            config_distinct(q_from@) && (forall|a: int| 0 <= a < old(q_to)@.len() ==> (#[trigger] old(q_to)@[a]) is Some)
                && !constraints_collide(q_from@, old(q_to)@) ==> success,
            config_distinct(q_from@) && (forall|a: int| 0 <= a < old(q_to)@.len() ==> (#[trigger] old(q_to)@[a]) is None)
                ==> success,
            success ==> exists|trace: Seq<(PIBT<'a>, Seq<Option<usize>>)>|
                #[trigger] PIBT::plans(order@, q_from@, trace) && old(self).prepared(q_from@, old(q_to)@, trace[0])
                    && trace.last().1 == final(q_to)@,
    {
        let ghost g = self.graph();
        let ghost n = self.num_agents as int;
        let ghost nv = g.vertices@.len() as int;
        let ghost q0 = q_to@;
        let ghost distinct = config_distinct(q_from@);
        let mut success = true;

        let mut i: usize = 0;
        while i < self.num_agents && success
            invariant
                self.inv_base(),
                self.instance == old(self).instance,
                self.num_agents == old(self).num_agents,
                self.swap == old(self).swap,
                self.hindrance == old(self).hindrance,
                g == self.graph(),
                n == self.num_agents,
                nv == g.vertices@.len(),
                self.positions_ok(q_from@),
                q_to@ == q0,
                q0.len() == n,
                targets_ok(q0, nv as nat),
                distinct == config_distinct(q_from@),
                0 <= i <= n,
                occ_now_ok(self.occupied_now@, q_from@),
                forall|v: int|
                    0 <= v < nv && (#[trigger] self.occupied_now@[v]) is Some ==> self.occupied_now@[v]->0 < i,
                success && distinct ==> forall|t: int| 0 <= t < i ==> self.occupied_now@[#[trigger] q_from@[t] as int] == Some(t as usize),
                next_backed(self.occupied_next@, q_to@),
                forall|v: int|
                    0 <= v < nv && (#[trigger] self.occupied_next@[v]) is Some ==> self.occupied_next@[v]->0 < i,
                success ==> forall|t: int| 0 <= t < i ==> holds(self.occupied_next@, q_to@, t),
                success && distinct ==> forall|a: int, b: int|
                    0 <= a < i && 0 <= b < i && a != b ==> !(#[trigger] q_to@[a] == Some(q_from@[b])
                        && #[trigger] q_to@[b] == Some(q_from@[a])),
                success ==> forall|a: int, b: int|
                    0 <= a < b < i && (#[trigger] q0[a]) is Some ==> #[trigger] q0[b] != q0[a],
                !success ==> constraints_collide(q_from@, q0) || !swap_free(q_from@, q0),
                self.rng == old(self).rng,
                self.occupied_now@ == now_upto(q_from@, old(self).occupied_now@, i as int),
                success ==> self.occupied_next@ == next_upto(q0, old(self).occupied_next@, i as int),
                (forall|a: int| 0 <= a < n ==> (#[trigger] q0[a]) is None) ==> success && self.occupied_next@
                    == old(self).occupied_next@,
            decreases n - i,
        {
            let ghost occ_b = self.occupied_now@;
            self.occupied_now.set(q_from[i], Some(i));
            proof {
                assert forall|v: int| 0 <= v < nv && (#[trigger] self.occupied_now@[v]) is Some implies self.occupied_now@[v]->0
                    < q_from@.len() && q_from@[self.occupied_now@[v]->0 as int] == v by {
                    if v != q_from@[i as int] {
                        assert(occ_b[v] is Some);
                    }
                }
                if distinct {
                    assert forall|t: int| 0 <= t < i + 1 implies self.occupied_now@[#[trigger] q_from@[t] as int] == Some(t as usize) by {
                        if t < i {
                            assert(q_from@[t] != q_from@[i as int]);
                        }
                    }
                }
            }
            let mut collide = false;
            if let Some(vertex_id) = q_to[i] {
                if self.occupied_next[vertex_id].is_some() {
                    // vertex collision
                    collide = true;
                } else if let Some(j) = self.occupied_now[vertex_id] {
                    if j != i {
                        if q_to[j] == Some(q_from[i]) {
                            // swap collision
                            collide = true;
                        }
                    }
                }
            }
            if collide {
                proof {
                    let v = q0[i as int]->0;
                    if self.occupied_next@[v as int] is Some {
                        let j = self.occupied_next@[v as int]->0 as int;
                        assert(q0[j] == Some(v));
                        assert(j < i);
                        assert(q0[j] is Some && q0[i as int] == q0[j]);
                    } else {
                        let j = self.occupied_now@[v as int]->0 as int;
                        assert(q_from@[j] == v);
                        assert(q0[j] == Some(q_from@[i as int]));
                        assert(q0[i as int] == Some(q_from@[j]));
                        assert(!swap_free(q_from@, q0));
                    }
                }
                success = false;
            } else if let Some(vertex_id) = q_to[i] {
                assert(q0[i as int] is Some);
                let ghost occ_nb = self.occupied_next@;
                self.occupied_next.set(vertex_id, Some(i));
                proof {
                    assert forall|v: int| 0 <= v < nv && (#[trigger] self.occupied_next@[v]) is Some implies self.occupied_next@[v]->0
                        < q_to@.len() && q_to@[self.occupied_next@[v]->0 as int] == Some(v as usize) by {
                        if v != vertex_id {
                            assert(occ_nb[v] is Some);
                        }
                    }
                    assert forall|t: int| 0 <= t < i + 1 implies holds(self.occupied_next@, q_to@, t) by {
                        if t < i && q_to@[t] is Some {
                            assert(holds(occ_nb, q_to@, t));
                            assert(q_to@[t]->0 != vertex_id);
                        }
                    }
                    assert forall|a: int, b: int|
                        0 <= a < b < i + 1 && (#[trigger] q0[a]) is Some implies #[trigger] q0[b] != q0[a] by {
                        if b == i {
                            assert(holds(occ_nb, q0, a));
                        }
                    }
                    if distinct {
                        assert forall|a: int, b: int|
                            0 <= a < i + 1 && 0 <= b < i + 1 && a != b implies !(#[trigger] q_to@[a] == Some(q_from@[b])
                                && #[trigger] q_to@[b] == Some(q_from@[a])) by {
                            if a == i && q_to@[a] == Some(q_from@[b]) {
                                assert(self.occupied_now@[q_from@[b] as int] == Some(b as usize));
                            } else if b == i && q_to@[b] == Some(q_from@[a]) {
                                assert(self.occupied_now@[q_from@[a] as int] == Some(a as usize));
                            }
                        }
                    }
                }
            } else {
                proof {
                    assert forall|a: int, b: int|
                        0 <= a < b < i + 1 && (#[trigger] q0[a]) is Some implies #[trigger] q0[b] != q0[a] by {
                    }
                }
            }
            i += 1;
        }
        proof {
            if success {
                assert(i == n);
            }
        }
        let ghost start = (*self, q_to@);
        let ghost mut trace: Seq<(PIBT<'a>, Seq<Option<usize>>)> = seq![start];
        proof {
            if success {
                assert(old(self).prepared(q_from@, q0, start));
            }
        }

        if success {
            let mut idx: usize = 0;
            while idx < order.len() && success
                invariant
                    self.inv_base(),
                    self.instance == old(self).instance,
                    self.num_agents == old(self).num_agents,
                    self.swap == old(self).swap,
                    self.hindrance == old(self).hindrance,
                    g == self.graph(),
                    n == self.num_agents,
                    nv == g.vertices@.len(),
                    self.step_ok(q_from@, q_to@),
                    distinct == config_distinct(q_from@),
                    forall|t: int| 0 <= t < order@.len() ==> #[trigger] order@[t] < n,
                    forall|t: int| 0 <= t < n ==> holds(self.occupied_next@, q_to@, t) || !success,
                    forall|t: int| 0 <= t < idx ==> (#[trigger] q_to@[order@[t] as int]) is Some || !success,
                    forall|t: int| 0 <= t < n && (#[trigger] q0[t]) is Some ==> q_to@[t] == q0[t],
                    forall|t: int|
                        0 <= t < n && q0[t] is None && (#[trigger] q_to@[t]) is Some ==> g.acts(q_from@[t] as int).contains(q_to@[t]->0),
                    forall|a: int, b: int|
                        0 <= a < b < n && (#[trigger] q0[a]) is Some ==> #[trigger] q0[b] != q0[a],
                    dist_table.serves(self.instance),
                    0 <= idx <= order@.len(),
                    q0.len() == n,
                    (forall|a: int| 0 <= a < n ==> (#[trigger] q0[a]) is Some) ==> success,
                    distinct && (forall|a: int| 0 <= a < n ==> (#[trigger] q0[a]) is None) ==> success && forall|a: int|
                        0 <= a < n && (#[trigger] q_to@[a]) is None ==> self.occupied_next@[q_from@[a] as int] is None,
                    success ==> trace.len() == idx + 1 && trace[0] == start && trace.last() == (*self, q_to@),
                    success ==> forall|t: int|
                        0 <= t < idx ==> #[trigger] PIBT::turn(order@[t], q_from@, trace[t], trace[t + 1]),
                decreases order@.len() - idx,
            {
                let agent = order[idx];
                let ghost before = (*self, q_to@);
                if q_to[agent].is_none() {
                    let ghost q_pre = q_to@;
                    let ok = self.func_pibt(agent, q_from, q_to, dist_table);
                    proof {
                        reveal(PIBT::pibt_done);
                        reveal(PIBT::gave_up);
                        assert forall|t: int| 0 <= t < n && (#[trigger] q0[t]) is Some implies q_to@[t] == q0[t] by {
                            assert(q_pre[t] == q0[t]);
                        }
                        assert forall|t: int|
                            0 <= t < n && q0[t] is None && (#[trigger] q_to@[t]) is Some implies g.acts(q_from@[t] as int).contains(q_to@[t]->0) by {
                            if q_pre[t] is Some {
                                assert(q_to@[t] == q_pre[t]);
                            }
                        }
                        assert forall|t: int| 0 <= t < idx + 1 implies (#[trigger] q_to@[order@[t] as int]) is Some || !ok by {
                            if t < idx && q_pre[order@[t] as int] is Some {
                                assert(q_to@[order@[t] as int] == q_pre[order@[t] as int]);
                            }
                        }
                    }
                    if !ok {
                        success = false;
                    }
                }
                proof {
                    if success {
                        let old_trace = trace;
                        trace = trace.push((*self, q_to@));
                        assert(PIBT::turn(order@[idx as int], q_from@, trace[idx as int], trace[idx + 1]));
                        assert forall|t: int| 0 <= t < idx + 1 implies #[trigger] PIBT::turn(order@[t], q_from@, trace[t], trace[t + 1]) by {
                            if t < idx {
                                assert(trace[t] == old_trace[t] && trace[t + 1] == old_trace[t + 1]);
                            }
                        }
                    }
                }
                idx += 1;
            }
        }
        let ghost q_done = q_to@;
        proof {
            if success {
                assert(PIBT::plans(order@, q_from@, trace));
                assert(trace.last().1 == q_done);
            }
        }
        proof {
            if success {
                assert forall|a: int| 0 <= a < n implies (#[trigger] q_done[a]) is Some by {
                    assert(order@.contains(a as usize));
                    let t = choose|t: int| 0 <= t < order@.len() && order@[t] == a as usize;
                }
                assert forall|a: int, b: int| 0 <= a < n && 0 <= b < n && a != b implies #[trigger] q_done[a] != #[trigger] q_done[b] by {
                    assert(holds(self.occupied_next@, q_done, a));
                    assert(holds(self.occupied_next@, q_done, b));
                }
            }
        }

        // cleanup
        let mut c: usize = 0;
        while c < self.num_agents
            invariant
                self.inv_base(),
                self.instance == old(self).instance,
                self.num_agents == old(self).num_agents,
                self.swap == old(self).swap,
                self.hindrance == old(self).hindrance,
                g == self.graph(),
                n == self.num_agents,
                nv == g.vertices@.len(),
                self.positions_ok(q_from@),
                q_to@ == q_done,
                q_done.len() == n,
                targets_ok(q_done, nv as nat),
                0 <= c <= n,
                occ_now_ok(self.occupied_now@, q_from@),
                forall|v: int|
                    0 <= v < nv && (#[trigger] self.occupied_now@[v]) is Some ==> self.occupied_now@[v]->0 >= c,
                next_backed(self.occupied_next@, q_done),
                forall|v: int|
                    0 <= v < nv && (#[trigger] self.occupied_next@[v]) is Some ==> self.occupied_next@[v]->0 >= c,
            decreases n - c,
        {
            let ghost occ_a = self.occupied_now@;
            let ghost occ_b = self.occupied_next@;
            self.occupied_now.set(q_from[c], None);
            if let Some(vertex_id) = q_to[c] {
                self.occupied_next.set(vertex_id, None);
            }
            proof {
                assert forall|v: int|
                    0 <= v < nv && (#[trigger] self.occupied_now@[v]) is Some implies self.occupied_now@[v]->0 >= c + 1 by {
                    assert(occ_a[v] is Some);
                }
                assert forall|v: int|
                    0 <= v < nv && (#[trigger] self.occupied_next@[v]) is Some implies self.occupied_next@[v]->0 >= c + 1 by {
                    assert(occ_b[v] is Some);
                }
                assert forall|v: int| 0 <= v < nv && (#[trigger] self.occupied_next@[v]) is Some implies self.occupied_next@[v]->0
                    < q_done.len() && q_done[self.occupied_next@[v]->0 as int] == Some(v as usize) by {
                    assert(occ_b[v] is Some);
                }
                assert forall|v: int| 0 <= v < nv && (#[trigger] self.occupied_now@[v]) is Some implies self.occupied_now@[v]->0
                    < q_from@.len() && q_from@[self.occupied_now@[v]->0 as int] == v by {
                    assert(occ_a[v] is Some);
                }
            }
            c += 1;
        }
        success
    }

    /// `v` is reachable from the goal of agent `i`.
    pub open spec fn reaches(&self, i: int, v: int) -> bool {
        reachable(self.graph(), self.instance.goals@[i] as int, v)
    }

    /// The distance of vertex `v` from the goal of agent `i`.
    pub open spec fn d(&self, i: int, v: int) -> nat {
        dist(self.graph(), self.instance.goals@[i] as int, v)
    }

    /// With the pusher on `vp` and the puller on `vq`: the puller is better off on the
    /// pusher's vertex, and the pusher is at its goal or gains from the puller's vertex.
    pub open spec fn swap_pays(&self, pusher: int, puller: int, vp: int, vq: int) -> bool {
        &&& self.d(puller, vp) < self.d(puller, vq)
        &&& self.d(pusher, vp) == 0 || self.d(pusher, vq) < self.d(pusher, vp)
    }

    /// Pushing along the corridor while the puller's vertex is nearer the pusher's goal: false
    /// where the corridor branches, else whether the swap pays where the pushing stops.
    pub open spec fn swap_needed(&self, pusher: int, puller: int, vp: int, vq: int) -> bool
        decreases self.d(pusher, vp),
    {
        if self.d(pusher, vq) < self.d(pusher, vp) {
            if self.exits(vp, vq) >= 2 {
                false
            } else if self.exits(vp, vq) == 0 {
                self.swap_pays(pusher, puller, vp, vq)
            } else {
                self.swap_needed(pusher, puller, vq, self.last_exit(vp, vq)->0 as int)
            }
        } else {
            self.swap_pays(pusher, puller, vp, vq)
        }
    }

    /// Where pushing along the corridor from the pusher on `vp` and the puller on `vq` stops,
    /// while the puller's vertex is nearer the pusher's goal: the two vertices there, or none
    /// when the corridor branches first.
    pub open spec fn push_stop(&self, pusher: int, vp: int, vq: int) -> Option<(int, int)>
        decreases self.d(pusher, vp),
    {
        if self.d(pusher, vq) < self.d(pusher, vp) {
            if self.exits(vp, vq) >= 2 {
                None
            } else if self.exits(vp, vq) == 0 {
                Some((vp, vq))
            } else {
                self.push_stop(pusher, vq, self.last_exit(vp, vq)->0 as int)
            }
        } else {
            Some((vp, vq))
        }
    }

    /// A swap is needed exactly when the pushing stops, on vertices `a` (pusher) and `b`
    /// (puller), with the puller strictly nearer its own goal on `a` than on `b`, and the
    /// pusher at its goal on `a` or strictly nearer it on `b`.
    pub proof fn lemma_swap_needed_exactly(&self, pusher: int, puller: int, vp: int, vq: int)
        ensures
            self.swap_needed(pusher, puller, vp, vq) <==> (self.push_stop(pusher, vp, vq) matches Some((a, b))
                && self.d(puller, a) < self.d(puller, b) && (self.d(pusher, a) == 0 || self.d(pusher, b) < self.d(
                pusher,
                a,
            ))),
        decreases self.d(pusher, vp),
    {
        if self.d(pusher, vq) < self.d(pusher, vp) && self.exits(vp, vq) == 1 {
            self.lemma_swap_needed_exactly(pusher, puller, vq, self.last_exit(vp, vq)->0 as int);
        }
    }

    /// Whether the agent `pusher` on `v_pusher_origin` needs the agent `puller` on
    /// `v_puller_origin` out of its way: following the corridor towards the pusher's goal,
    /// the puller is better off on the pusher's side and the pusher gains from passing.
    fn is_swap_required(
        &self,
        pusher: usize,
        puller: usize,
        v_pusher_origin: usize,
        v_puller_origin: usize,
        dist_table: &mut DistTable<'a>,
    ) -> (r: bool)
        requires
            self.inv_base(),
            pusher < self.num_agents,
            puller < self.num_agents,
            v_pusher_origin < self.graph().vertices@.len(),
            v_puller_origin < self.graph().vertices@.len(),
            self.reaches(pusher as int, v_pusher_origin as int),
            self.reaches(pusher as int, v_puller_origin as int),
            self.reaches(puller as int, v_pusher_origin as int),
            self.reaches(puller as int, v_puller_origin as int),
            old(dist_table).serves(self.instance),
        ensures
            final(dist_table).serves(self.instance),
            r == self.swap_needed(pusher as int, puller as int, v_pusher_origin as int, v_puller_origin as int),
            r <==> (self.push_stop(pusher as int, v_pusher_origin as int, v_puller_origin as int) matches Some((a, b))
                && self.d(puller as int, a) < self.d(puller as int, b) && (self.d(pusher as int, a) == 0 || self.d(
                pusher as int,
                b,
            ) < self.d(pusher as int, a))),
    {
        proof {
            self.lemma_swap_needed_exactly(pusher as int, puller as int, v_pusher_origin as int, v_puller_origin as int);
        }
        let mut v_pusher = v_pusher_origin;
        let mut v_puller = v_puller_origin;
        let ghost want = self.swap_needed(pusher as int, puller as int, v_pusher_origin as int, v_puller_origin as int);
        loop
            invariant
                self.inv_base(),
                pusher < self.num_agents,
                puller < self.num_agents,
                v_pusher < self.graph().vertices@.len(),
                v_puller < self.graph().vertices@.len(),
                self.reaches(pusher as int, v_pusher as int),
                self.reaches(pusher as int, v_puller as int),
                self.reaches(puller as int, v_pusher as int),
                self.reaches(puller as int, v_puller as int),
                dist_table.serves(self.instance),
                want == self.swap_needed(pusher as int, puller as int, v_pusher as int, v_puller as int),
                want == self.swap_needed(pusher as int, puller as int, v_pusher_origin as int, v_puller_origin as int),
                want <==> (self.push_stop(pusher as int, v_pusher_origin as int, v_puller_origin as int) matches Some((a, b))
                    && self.d(puller as int, a) < self.d(puller as int, b) && (self.d(pusher as int, a) == 0 || self.d(
                    pusher as int,
                    b,
                ) < self.d(pusher as int, a))),
            ensures
                self.reaches(pusher as int, v_pusher as int),
                self.reaches(pusher as int, v_puller as int),
                self.reaches(puller as int, v_pusher as int),
                self.reaches(puller as int, v_puller as int),
                v_pusher < self.graph().vertices@.len(),
                v_puller < self.graph().vertices@.len(),
                dist_table.serves(self.instance),
                want == self.swap_pays(pusher as int, puller as int, v_pusher as int, v_puller as int),
            decreases dist(self.graph(), self.instance.goals@[pusher as int] as int, v_pusher as int),
        {
            let d_puller = dist_table.get(pusher, v_puller);
            let d_pusher = dist_table.get(pusher, v_pusher);
            if !(d_puller < d_pusher) {
                break;
            }
            let (n, tmp) = self.count_exits(v_pusher, v_puller);
            proof {
                assert(self.d(pusher as int, v_puller as int) < self.d(pusher as int, v_pusher as int));
            }
            if n >= 2 {
                proof {
                    assert(!self.swap_needed(pusher as int, puller as int, v_pusher as int, v_puller as int));
                }
                return false;
            }
            if n == 0 {
                break;
            }
            let next = tmp.unwrap();
            proof {
                let g = self.graph();
                g.lemma_neighbors_in_range(v_puller as int);
                assert(g.adjacent(v_puller as int, next as int));
                lemma_reachable_step(g, self.instance.goals@[pusher as int] as int, v_puller as int, next as int);
                lemma_reachable_step(g, self.instance.goals@[puller as int] as int, v_puller as int, next as int);
            }
            v_pusher = v_puller;
            v_puller = next;
        }
        let puller_prefers_pusher = dist_table.get(puller, v_pusher) < dist_table.get(puller, v_puller);
        let pusher_at_goal_or_benefits = if dist_table.get(pusher, v_pusher) == 0 {
            true
        } else {
            dist_table.get(pusher, v_puller) < dist_table.get(pusher, v_pusher)
        };
        puller_prefers_pusher && pusher_at_goal_or_benefits
    }

    /// From neighbour `i` on of the vertex of `agent` in `q_from`: the first agent on such a
    /// neighbour that is not on `vertex`, needs `agent` out of its way towards `vertex`, and
    /// can pass through the corridor behind `agent`.
    pub open spec fn clear_from(&self, agent: int, q_from: Seq<usize>, vertex: int, i: int) -> Option<usize>
        decreases self.graph().nbrs(q_from[agent] as int).len() - i,
    {
        let cur = q_from[agent] as int;
        let nb = self.graph().nbrs(cur);
        if i < 0 || i >= nb.len() {
            None
        } else if (self.occupied_now@[nb[i] as int] matches Some(k) && k != agent && vertex != q_from[k as int]
            && self.swap_needed(k as int, agent, cur, vertex) && self.opens_up(
            vertex,
            vertex,
            cur,
            self.graph().vertices@.len(),
        )) {
            self.occupied_now@[nb[i] as int]
        } else {
            self.clear_from(agent, q_from, vertex, i + 1)
        }
    }

    /// The agent to swap places with `agent`, whose best candidate is `vertex`, with swaps
    /// allowed: none when `agent` stays; the agent on `vertex` when it has no target yet,
    /// needs to pass `agent` and can; else the first neighbour that must and can clear the way.
    pub open spec fn swap_partner(&self, agent: int, q_from: Seq<usize>, q_to: Seq<Option<usize>>, vertex: int) -> Option<
        usize,
    > {
        let cur = q_from[agent] as int;
        if !self.swap || vertex == cur {
            None
        } else if (self.occupied_now@[vertex] matches Some(j) && j != agent && q_to[j as int] is None
            && self.swap_needed(agent, j as int, cur, q_from[j as int] as int) && self.opens_up(
            q_from[j as int] as int,
            q_from[j as int] as int,
            cur,
            self.graph().vertices@.len(),
        )) {
            self.occupied_now@[vertex]
        } else {
            self.clear_from(agent, q_from, vertex, 0)
        }
    }

    /// An agent to swap places with `agent_id`, whose best candidate is `vertex_id`: the agent
    /// on that vertex when the two must and can swap, else a neighbouring agent that must and
    /// can pass `agent_id`.
    fn is_swap_required_and_possible(
        &self,
        agent_id: usize,
        q_from: &Config,
        q_to: &PartialConfig,
        vertex_id: usize,
        dist_table: &mut DistTable<'a>,
    ) -> (r: Option<usize>)
        requires
            self.inv_base(),
            occ_now_ok(self.occupied_now@, q_from@),
            self.positions_ok(q_from@),
            q_to@.len() == self.num_agents,
            agent_id < self.num_agents,
            self.graph().acts(q_from@[agent_id as int] as int).contains(vertex_id),
            old(dist_table).serves(self.instance),
        ensures
            final(dist_table).serves(self.instance),
            r == self.swap_partner(agent_id as int, q_from@, q_to@, vertex_id as int),
            r matches Some(s) ==> s < self.num_agents && s != agent_id && self.graph().adjacent(
                q_from@[agent_id as int] as int,
                q_from@[s as int] as int,
            ),
    {
        let ghost g = self.graph();
        if !self.swap {
            return None;
        }
        if vertex_id == q_from[agent_id] {
            return None;
        }
        let current_vertex_id = q_from[agent_id];
        proof {
            g.lemma_neighbors_in_range(current_vertex_id as int);
            let kk = choose|kk: int| 0 <= kk < g.acts(current_vertex_id as int).len() && g.acts(current_vertex_id as int)[kk] == vertex_id;
            assert(g.adjacency_ok(current_vertex_id as int));
            if kk == g.nbrs(current_vertex_id as int).len() {
                assert(g.acts(current_vertex_id as int)[kk] == current_vertex_id);
            }
            assert(g.nbrs(current_vertex_id as int)[kk] == vertex_id);
            assert(g.adjacent(current_vertex_id as int, vertex_id as int));
            g.lemma_adjacent_symmetric(current_vertex_id as int, vertex_id as int);
            assert(self.reaches(agent_id as int, current_vertex_id as int));
            lemma_reachable_step(g, self.instance.goals@[agent_id as int] as int, current_vertex_id as int, vertex_id as int);
        }
        // usual swap situation
        if let Some(j) = self.occupied_now[vertex_id] {
            let v_i = q_from[agent_id];
            let v_j = q_from[j];
            proof {
                assert(self.occupied_now@[vertex_id as int] is Some);
                assert(self.reaches(j as int, v_j as int));
                lemma_reachable_step(g, self.instance.goals@[j as int] as int, vertex_id as int, current_vertex_id as int);
            }
            if j != agent_id && q_to[j].is_none() {
                if self.is_swap_required(agent_id, j, v_i, v_j, dist_table) {
                    if self.is_swap_possible(v_j, v_i) {
                        return Some(j);
                    }
                }
            }
        }
        // clear operation; checked even when the best vertex is occupied
        proof {
            assert(self.swap_partner(agent_id as int, q_from@, q_to@, vertex_id as int) == self.clear_from(
                agent_id as int,
                q_from@,
                vertex_id as int,
                0,
            ));
        }
        let neighbors = self.instance.graph.get_neighbors(current_vertex_id);
        let mut idx: usize = 0;
        while idx < neighbors.len()
            invariant
                self.inv_base(),
                g == self.graph(),
                occ_now_ok(self.occupied_now@, q_from@),
                self.positions_ok(q_from@),
                agent_id < self.num_agents,
                current_vertex_id == q_from@[agent_id as int],
                current_vertex_id < g.vertices@.len(),
                vertex_id < g.vertices@.len(),
                neighbors@ == g.nbrs(current_vertex_id as int),
                forall|k: int| 0 <= k < neighbors@.len() ==> #[trigger] neighbors@[k] < g.vertices@.len(),
                g.adjacent(current_vertex_id as int, vertex_id as int),
                g.adjacent(vertex_id as int, current_vertex_id as int),
                self.reaches(agent_id as int, current_vertex_id as int),
                self.reaches(agent_id as int, vertex_id as int),
                dist_table.serves(self.instance),
                0 <= idx <= neighbors@.len(),
                self.swap_partner(agent_id as int, q_from@, q_to@, vertex_id as int) == self.clear_from(
                    agent_id as int,
                    q_from@,
                    vertex_id as int,
                    idx as int,
                ),
            decreases neighbors@.len() - idx,
        {
            let u = neighbors[idx];
            if let Some(k) = self.occupied_now[u] {
                proof {
                    assert(self.occupied_now@[u as int] is Some);
                    assert(g.adjacent(current_vertex_id as int, u as int));
                    g.lemma_adjacent_symmetric(current_vertex_id as int, u as int);
                    assert(self.reaches(k as int, u as int));
                    lemma_reachable_step(g, self.instance.goals@[k as int] as int, u as int, current_vertex_id as int);
                    lemma_reachable_step(g, self.instance.goals@[k as int] as int, current_vertex_id as int, vertex_id as int);
                }
                if k != agent_id && vertex_id != q_from[k] {
                    if self.is_swap_required(k, agent_id, current_vertex_id, vertex_id, dist_table) {
                        if self.is_swap_possible(vertex_id, current_vertex_id) {
                            return Some(k);
                        }
                    }
                }
            }
            idx += 1;
        }
        None
    }

    /// From `c` (coming from `p`), the only way on is `nx`.
    pub open spec fn corridor(&self, p: int, c: int, nx: int) -> bool {
        forall|k: int|
            0 <= k < self.graph().nbrs(c).len() && self.is_exit(p, #[trigger] self.graph().nbrs(c)[k] as int)
                ==> self.graph().nbrs(c)[k] == nx
    }

    /// Following the corridor from `c` (coming from `p`), at most `fuel` vertices on: whether it
    /// reaches a vertex with two ways on before it dead-ends or comes back to `origin`.
    pub open spec fn opens_up(&self, origin: int, p: int, c: int, fuel: nat) -> bool
        decreases fuel,
    {
        if c == origin || fuel == 0 {
            false
        } else if self.exits(p, c) >= 2 {
            true
        } else if self.exits(p, c) == 0 {
            false
        } else {
            self.opens_up(origin, c, self.last_exit(p, c)->0 as int, (fuel - 1) as nat)
        }
    }

    /// Whether the corridor entered from `v_pusher_origin` towards `v_puller_origin` opens
    /// into a vertex with two ways on before it dead-ends or comes back round.
    fn is_swap_possible(&self, v_pusher_origin: usize, v_puller_origin: usize) -> (r: bool)
        requires
            self.inv_base(),
            v_pusher_origin < self.graph().vertices@.len(),
            v_puller_origin < self.graph().vertices@.len(),
        ensures
            r == self.opens_up(
                v_pusher_origin as int,
                v_pusher_origin as int,
                v_puller_origin as int,
                self.graph().vertices@.len(),
            ),
    {
        let mut v_pusher = v_pusher_origin;
        let mut v_puller = v_puller_origin;
        let ghost nv = self.graph().vertices@.len() as int;
        let ghost mut path: Seq<int> = seq![v_pusher_origin as int, v_puller_origin as int];
        proof {
            self.graph().lemma_neighbors_in_range(v_pusher_origin as int);
        }
        while v_puller != v_pusher_origin
            invariant
                self.inv_base(),
                nv == self.graph().vertices@.len(),
                2 <= path.len(),
                path[0] == v_pusher_origin as int,
                path[path.len() - 1] == v_puller as int,
                path[path.len() - 2] == v_pusher as int,
                forall|i: int| 0 <= i < path.len() ==> 0 <= #[trigger] path[i] < nv,
                forall|i: int, j: int|
                    0 <= i < j < path.len() && !(i == 0 && j == path.len() - 1) ==> #[trigger] path[i]
                        != #[trigger] path[j],
                forall|i: int| 1 <= i < path.len() - 1 ==> self.graph().adjacent(#[trigger] path[i], path[i + 1]),
                forall|k: int| 1 <= k < path.len() - 1 ==> self.corridor(path[k - 1], #[trigger] path[k], path[k + 1]),
                path.len() <= nv + 1,
                self.opens_up(v_pusher_origin as int, v_pusher_origin as int, v_puller_origin as int, nv as nat)
                    == self.opens_up(v_pusher_origin as int, v_pusher as int, v_puller as int, (nv + 2 - path.len()) as nat),
            decreases nv + 1 - path.len(),
        {
            proof {
                assert(path.no_duplicates()) by {
                    assert forall|i: int, j: int| 0 <= i < path.len() && 0 <= j < path.len() && i != j implies path[i] != path[j] by {
                        if i < j {
                            assert(path[i] != path[j]);
                        } else {
                            assert(path[j] != path[i]);
                        }
                    }
                }
                lemma_distinct_bounded(path, nv);
            }
            let (n, tmp) = self.count_exits(v_pusher, v_puller);
            if n >= 2 {
                return true;
            }
            if n == 0 {
                return false;
            }
            let next = tmp.unwrap();
            proof {
                let t = path.len() - 1;
                let c = path[t];
                let g = self.graph();
                g.lemma_neighbors_in_range(c);
                assert(g.adjacent(c, next as int));
                assert forall|k: int| 1 <= k < t implies path[k] != next as int by {
                    if path[k] == next as int {
                        if k == t - 1 {
                            assert(!self.is_exit(path[t - 1], next as int));
                        } else {
                            assert(g.adjacent(path[t - 1], c));
                            g.lemma_adjacent_symmetric(path[t - 1], c);
                            g.lemma_adjacent_symmetric(c, next as int);
                            assert(g.adjacent(path[k], c));
                            assert(self.corridor(path[k - 1], path[k], path[k + 1]));
                            let kk = choose|kk: int| 0 <= kk < g.nbrs(path[k]).len() && g.nbrs(path[k])[kk] == c as usize;
                            assert(path[k + 1] != c);
                            assert(path[k - 1] != c);
                            assert(!self.is_exit(path[k - 1], g.nbrs(path[k])[kk] as int));
                            assert(self.parked(c));
                            let i1 = choose|i1: int| 0 <= i1 < g.nbrs(c).len() && g.nbrs(c)[i1] == path[t - 1] as usize;
                            let i2 = choose|i2: int| 0 <= i2 < g.nbrs(c).len() && g.nbrs(c)[i2] == next;
                            assert(i1 == 0 && i2 == 0);
                        }
                    }
                }
                assert(self.corridor(path[t - 1], c, next as int));
            }
            v_pusher = v_puller;
            v_puller = next;
            proof {
                let old_path = path;
                path = path.push(next as int);
                assert forall|i: int, j: int|
                    0 <= i < j < path.len() && !(i == 0 && j == path.len() - 1) implies #[trigger] path[i]
                        != #[trigger] path[j] by {
                    if j < path.len() - 1 {
                        assert(path[i] == old_path[i] && path[j] == old_path[j]);
                    }
                }
                assert forall|i: int| 1 <= i < path.len() - 1 implies self.graph().adjacent(#[trigger] path[i], path[i + 1]) by {
                    if i < path.len() - 2 {
                        assert(path[i] == old_path[i] && path[i + 1] == old_path[i + 1]);
                    }
                }
                assert forall|k: int| 1 <= k < path.len() - 1 implies self.corridor(path[k - 1], #[trigger] path[k], path[k + 1]) by {
                    if k < path.len() - 2 {
                        assert(path[k - 1] == old_path[k - 1] && path[k] == old_path[k] && path[k + 1] == old_path[k + 1]);
                    }
                }
            }
        }
        false
    }

    /// The number of ways on from `v_puller` (coming from `v_pusher`) and the last of them.
    fn count_exits(&self, v_pusher: usize, v_puller: usize) -> (r: (usize, Option<usize>))
        requires
            self.inv_base(),
            v_puller < self.graph().vertices@.len(),
        ensures
            r.0 == self.exits(v_pusher as int, v_puller as int),
            r.1 == self.last_exit(v_pusher as int, v_puller as int),
            r.0 <= self.graph().nbrs(v_puller as int).len(),
            r.0 >= 1 ==> r.1 is Some && self.graph().nbrs(v_puller as int).contains(r.1->0)
                && self.is_exit(v_pusher as int, r.1->0 as int),
            r.0 == 1 ==> forall|k: int|
                0 <= k < self.graph().nbrs(v_puller as int).len() && self.is_exit(
                    v_pusher as int,
                    #[trigger] self.graph().nbrs(v_puller as int)[k] as int,
                ) ==> self.graph().nbrs(v_puller as int)[k] == r.1->0,
            r.0 == 0 ==> forall|k: int|
                0 <= k < self.graph().nbrs(v_puller as int).len() ==> !self.is_exit(
                    v_pusher as int,
                    #[trigger] self.graph().nbrs(v_puller as int)[k] as int,
                ),
    {
        let graph = &self.instance.graph;
        proof {
            graph.lemma_neighbors_in_range(v_puller as int);
        }
        let neighbors = graph.get_neighbors(v_puller);
        let mut n = neighbors.len();
        let mut tmp: Option<usize> = None;
        let ghost mut e: nat = 0;
        let mut k: usize = 0;
        while k < neighbors.len()
            invariant
                self.inv_base(),
                graph == &self.instance.graph,
                neighbors@ == self.graph().nbrs(v_puller as int),
                forall|j: int| 0 <= j < neighbors@.len() ==> #[trigger] neighbors@[j] < self.graph().vertices@.len(),
                0 <= k <= neighbors@.len(),
                e <= k,
                n == neighbors@.len() - (k - e),
                e >= 1 ==> tmp is Some && neighbors@.contains(tmp->0) && self.is_exit(v_pusher as int, tmp->0 as int),
                e == 1 ==> forall|j: int|
                    0 <= j < k && self.is_exit(v_pusher as int, #[trigger] neighbors@[j] as int) ==> neighbors@[j] == tmp->0,
                e == 0 ==> forall|j: int| 0 <= j < k ==> !self.is_exit(v_pusher as int, #[trigger] neighbors@[j] as int),
                e == self.exits_upto(v_pusher as int, v_puller as int, k as int),
                tmp == self.last_exit_upto(v_pusher as int, v_puller as int, k as int),
            decreases neighbors@.len() - k,
        {
            let u = neighbors[k];
            let i = self.occupied_now[u];
            let parked = match i {
                Some(agent) => graph.get_neighbors(u).len() == 1 && self.instance.goals[agent] == u,
                None => false,
            };
            if u == v_pusher || parked {
                n -= 1;
            } else {
                tmp = Some(u);
                proof {
                    e = e + 1;
                }
            }
            k += 1;
        }
        (n, tmp)
    }
}

} // verus!
