use vstd::prelude::*;

use crate::dist_table::DistTable;
use crate::error::{decimal, decimal_text, signed_decimal, signed_decimal_text};
use crate::graph::{dist, lemma_reachable_has_dist, reachable, walk_within, Graph};
use crate::instance::Instance;
use crate::lacam::{
    config_ok, dist_sum, edge_cost, edge_cost_upto, lemma_rest_cost, moves, plan_view, valid_plan, Solution, SolveOutcome,
};

verus! {

/// The number of steps of a plan of `len` configurations (0 for an empty plan).
pub open spec fn makespan_of(len: nat) -> nat {
    if len == 0 {
        0
    } else {
        (len - 1) as nat
    }
}

/// Among the times before `t`, one more than the last time agent `i` is off `goal` (0 if it
/// never is): the time from which it rests at its goal.
pub open spec fn arrival_upto(sol: Seq<Seq<usize>>, i: int, goal: usize, t: int) -> nat
    decreases t,
{
    if t <= 0 {
        0
    } else if sol[t - 1][i] != goal {
        t as nat
    } else {
        arrival_upto(sol, i, goal, t - 1)
    }
}

/// The sum of the arrival times of the agents below `k`.
pub open spec fn soc_upto(sol: Seq<Seq<usize>>, goals: Seq<usize>, k: int) -> nat
    decreases k,
{
    if k <= 0 {
        0
    } else {
        soc_upto(sol, goals, k - 1) + arrival_upto(sol, k - 1, goals[k - 1], sol.len() as int)
    }
}

/// The sum of the costs of the steps of `sol` that end before time `t`: at each step, the
/// agents that are not resting at their goals.
pub open spec fn loss_upto(sol: Seq<Seq<usize>>, goals: Seq<usize>, t: int) -> nat
    decreases t,
{
    if t <= 1 {
        0
    } else {
        loss_upto(sol, goals, t - 1) + edge_cost(goals, sol[t - 2], sol[t - 1])
    }
}

/// The largest distance from the start to the goal among the agents below `k`.
pub open spec fn max_dist_upto(g: Graph, goals: Seq<usize>, starts: Seq<usize>, k: int) -> nat
    decreases k,
{
    if k <= 0 {
        0
    } else {
        let d = dist(g, goals[k - 1] as int, starts[k - 1] as int);
        let m = max_dist_upto(g, goals, starts, k - 1);
        if d > m {
            d
        } else {
            m
        }
    }
}

/// The largest distance of a start from its goal: no agent below `k` is farther from its
/// goal, and one of them (when there is any) is exactly that far.
pub proof fn lemma_max_dist_is_largest(g: Graph, goals: Seq<usize>, starts: Seq<usize>, k: int)
    requires
        0 <= k,
    ensures
        forall|i: int| 0 <= i < k ==> #[trigger] dist(g, goals[i] as int, starts[i] as int) <= max_dist_upto(g, goals, starts, k),
        k == 0 ==> max_dist_upto(g, goals, starts, k) == 0,
        k > 0 ==> exists|i: int| 0 <= i < k && #[trigger] dist(g, goals[i] as int, starts[i] as int) == max_dist_upto(g, goals, starts, k),
    decreases k,
{
    if k > 0 {
        lemma_max_dist_is_largest(g, goals, starts, k - 1);
        let d = dist(g, goals[k - 1] as int, starts[k - 1] as int);
        let m = max_dist_upto(g, goals, starts, k - 1);
        if k > 1 && m >= d {
            let i = choose|i: int| 0 <= i < k - 1 && #[trigger] dist(g, goals[i] as int, starts[i] as int) == m;
            assert(dist(g, goals[i] as int, starts[i] as int) == max_dist_upto(g, goals, starts, k));
        } else {
            assert(dist(g, goals[k - 1] as int, starts[k - 1] as int) == max_dist_upto(g, goals, starts, k));
        }
    }
}

/// The agents below `k` are off their goal in `c1` or in `c2` for at most `k` of them.
proof fn lemma_edge_cost_upto_le(goals: Seq<usize>, c1: Seq<usize>, c2: Seq<usize>, k: int)
    requires
        0 <= k,
    ensures
        edge_cost_upto(goals, c1, c2, k) <= k,
    decreases k,
{
    if k > 0 {
        lemma_edge_cost_upto_le(goals, c1, c2, k - 1);
    }
}

/// The arrival time before `t` is at most `t`, and from it on the agent rests at its goal.
proof fn lemma_arrival(sol: Seq<Seq<usize>>, i: int, goal: usize, t: int)
    requires
        0 <= t,
    ensures
        arrival_upto(sol, i, goal, t) <= t,
        forall|s: int| arrival_upto(sol, i, goal, t) <= s < t ==> #[trigger] sol[s][i] == goal,
    decreases t,
{
    if t > 0 {
        lemma_arrival(sol, i, goal, t - 1);
    }
}

/// The sum of the arrival times of `k` agents is at most `k` times the length of the plan.
proof fn lemma_soc_bound(sol: Seq<Seq<usize>>, goals: Seq<usize>, k: int)
    requires
        0 <= k,
    ensures
        soc_upto(sol, goals, k) <= k * sol.len(),
    decreases k,
{
    if k > 0 {
        lemma_soc_bound(sol, goals, k - 1);
        lemma_arrival(sol, k - 1, goals[k - 1], sol.len() as int);
        assert((k - 1) * sol.len() + sol.len() == k * sol.len()) by (nonlinear_arith);
    }
}

/// The costs of the steps before time `t` sum to at most `n` per step.
proof fn lemma_loss_bound(sol: Seq<Seq<usize>>, goals: Seq<usize>, t: int)
    requires
        1 <= t,
    ensures
        loss_upto(sol, goals, t) <= (t - 1) * goals.len(),
    decreases t,
{
    if t > 1 {
        lemma_loss_bound(sol, goals, t - 1);
        lemma_edge_cost_upto_le(goals, sol[t - 2], sol[t - 1], goals.len() as int);
        assert((t - 2) * goals.len() + goals.len() == (t - 1) * goals.len()) by (nonlinear_arith);
    }
}

/// The number of steps of `solution`.
pub fn compute_makespan(solution: &Solution) -> (m: usize)
    ensures
        m == makespan_of(solution@.len()),
{
    if solution.len() == 0 {
        0
    } else {
        solution.len() - 1
    }
}

/// The sum over agents of the time from which each rests at its goal.
pub fn compute_sum_of_costs(solution: &Solution, instance: &Instance) -> (soc: usize)
    requires
        instance.goals@.len() >= instance.num_agents,
        forall|t: int| 0 <= t < solution@.len() ==> (#[trigger] solution@[t])@.len() >= instance.num_agents,
        instance.num_agents * solution@.len() <= usize::MAX,
    ensures
        soc == soc_upto(plan_view(solution@), instance.goals@, instance.num_agents as int),
{
    let ghost sol = plan_view(solution@);
    if solution.len() == 0 {
        proof {
            assert forall|k: int| 0 <= k <= instance.num_agents implies #[trigger] soc_upto(sol, instance.goals@, k) == 0 by {
                lemma_soc_bound(sol, instance.goals@, k);
                assert(k * sol.len() == 0) by (nonlinear_arith)
                    requires
                        sol.len() == 0,
                ;
            }
        }
        return 0;
    }
    let len = solution.len();
    let makespan = len - 1;
    let mut soc: usize = 0;
    let mut i: usize = 0;
    while i < instance.num_agents
        invariant
            sol == plan_view(solution@),
            makespan + 1 == solution@.len(),
            len == solution@.len(),
            instance.goals@.len() >= instance.num_agents,
            forall|t: int| 0 <= t < solution@.len() ==> (#[trigger] solution@[t])@.len() >= instance.num_agents,
            instance.num_agents * solution@.len() <= usize::MAX,
            0 <= i <= instance.num_agents,
            soc == soc_upto(sol, instance.goals@, i as int),
        decreases instance.num_agents - i,
    {
        let mut arrival: usize = 0;
        let mut t: usize = 0;
        while t <= makespan
            invariant
                sol == plan_view(solution@),
                makespan + 1 == solution@.len(),
                len == solution@.len(),
                instance.goals@.len() >= instance.num_agents,
                forall|s: int| 0 <= s < solution@.len() ==> (#[trigger] solution@[s])@.len() >= instance.num_agents,
                i < instance.num_agents,
                0 <= t <= makespan + 1,
                arrival == arrival_upto(sol, i as int, instance.goals@[i as int], t as int),
            decreases makespan + 1 - t,
        {
            assert(sol[t as int] == solution@[t as int]@);
            if solution[t][i] != instance.goals[i] {
                arrival = t + 1;
            }
            t += 1;
        }
        proof {
            lemma_soc_bound(sol, instance.goals@, i + 1);
            assert((i + 1) * sol.len() <= instance.num_agents * sol.len()) by (nonlinear_arith)
                requires
                    i + 1 <= instance.num_agents,
            ;
        }
        soc = soc + arrival;
        i += 1;
    }
    soc
}

/// The sum over the steps of the plan of the agents not resting at their goals.
pub fn compute_sum_of_loss(solution: &Solution, instance: &Instance) -> (sol: usize)
    requires
        instance.goals@.len() >= instance.num_agents,
        forall|t: int| 0 <= t < solution@.len() ==> (#[trigger] solution@[t])@.len() >= instance.num_agents,
        instance.num_agents * solution@.len() <= usize::MAX,
    ensures
        sol == loss_upto(
            plan_view(solution@),
            instance.goals@.subrange(0, instance.num_agents as int),
            solution@.len() as int,
        ),
{
    let ghost plan = plan_view(solution@);
    let ghost goals = instance.goals@.subrange(0, instance.num_agents as int);
    if solution.len() < 2 {
        return 0;
    }
    let n = instance.num_agents;
    let mut total: usize = 0;
    let mut t: usize = 1;
    while t < solution.len()
        invariant
            plan == plan_view(solution@),
            goals == instance.goals@.subrange(0, instance.num_agents as int),
            instance.goals@.len() >= n,
            n == instance.num_agents,
            goals.len() == n,
            forall|s: int| 0 <= s < solution@.len() ==> (#[trigger] solution@[s])@.len() >= n,
            n * solution@.len() <= usize::MAX,
            1 <= t <= solution@.len(),
            total == loss_upto(plan, goals, t as int),
        decreases solution@.len() - t,
    {
        let ghost before = total;
        let mut i: usize = 0;
        proof {
            lemma_loss_bound(plan, goals, t as int);
            assert((t - 1) * n + n <= n * solution@.len()) by (nonlinear_arith)
                requires
                    t + 1 <= solution@.len(),
            ;
        }
        while i < n
            invariant
                plan == plan_view(solution@),
                goals == instance.goals@.subrange(0, instance.num_agents as int),
                instance.goals@.len() >= n,
                n == instance.num_agents,
                goals.len() == n,
                forall|s: int| 0 <= s < solution@.len() ==> (#[trigger] solution@[s])@.len() >= n,
                1 <= t < solution@.len(),
                0 <= i <= n,
                before == loss_upto(plan, goals, t as int),
                before + n <= usize::MAX,
                total == before + edge_cost_upto(goals, plan[t - 1], plan[t as int], i as int),
            decreases n - i,
        {
            proof {
                lemma_edge_cost_upto_le(goals, plan[t - 1], plan[t as int], i as int);
                assert(plan[t - 1] == solution@[t - 1]@);
                assert(plan[t as int] == solution@[t as int]@);
            }
            let from = solution[t - 1][i];
            let to = solution[t][i];
            if from != instance.goals[i] || to != instance.goals[i] {
                total += 1;
            }
            i += 1;
        }
        t += 1;
    }
    total
}

/// The largest distance of an agent's start from its goal: no plan has fewer steps.
pub fn get_makespan_lower_bound(instance: &Instance, dist_table: &mut DistTable) -> (lb: usize)
    requires
        instance.wf(),
        instance.connected(),
        old(dist_table).serves(instance),
    ensures
        final(dist_table).serves(instance),
        lb == max_dist_upto(instance.graph, instance.goals@, instance.starts@, instance.num_agents as int),
        forall|i: int|
            0 <= i < instance.num_agents ==> #[trigger] dist(
                instance.graph,
                instance.goals@[i] as int,
                instance.starts@[i] as int,
            ) <= lb,
        instance.num_agents == 0 ==> lb == 0,
        instance.num_agents > 0 ==> exists|i: int|
            0 <= i < instance.num_agents && #[trigger] dist(
                instance.graph,
                instance.goals@[i] as int,
                instance.starts@[i] as int,
            ) == lb,
{
    proof {
        lemma_max_dist_is_largest(instance.graph, instance.goals@, instance.starts@, instance.num_agents as int);
    }
    let mut c: isize = 0;
    let mut i: usize = 0;
    while i < instance.num_agents
        invariant
            instance.wf(),
            instance.connected(),
            dist_table.serves(instance),
            0 <= i <= instance.num_agents,
            c == max_dist_upto(instance.graph, instance.goals@, instance.starts@, i as int),
        decreases instance.num_agents - i,
    {
        let d = dist_table.get(i, instance.starts[i]);
        if d > c {
            c = d;
        }
        i += 1;
    }
    c as usize
}

/// The sum of the distances of the agents' starts from their goals: no plan costs less.
pub fn get_sum_of_costs_lower_bound(instance: &Instance, dist_table: &mut DistTable) -> (lb: usize)
    requires
        instance.wf(),
        instance.connected(),
        old(dist_table).serves(instance),
        instance.num_agents * instance.graph.vertices@.len() <= usize::MAX,
    ensures
        final(dist_table).serves(instance),
        lb == dist_sum(instance.graph, instance.goals@, instance.starts@, instance.num_agents as int),
{
    let ghost nv = instance.graph.vertices@.len();
    let mut c: usize = 0;
    let mut i: usize = 0;
    while i < instance.num_agents
        invariant
            instance.wf(),
            instance.connected(),
            dist_table.serves(instance),
            nv == instance.graph.vertices@.len(),
            instance.num_agents * nv <= usize::MAX,
            0 <= i <= instance.num_agents,
            c == dist_sum(instance.graph, instance.goals@, instance.starts@, i as int),
            c <= i * nv,
        decreases instance.num_agents - i,
    {
        let d = dist_table.get(i, instance.starts[i]);
        proof {
            assert(c + d <= (i + 1) * nv) by (nonlinear_arith)
                requires
                    c <= i * nv,
                    d < nv,
            ;
            assert((i + 1) * nv <= instance.num_agents * nv) by (nonlinear_arith)
                requires
                    i + 1 <= instance.num_agents,
            ;
        }
        c = c + d as usize;
        i += 1;
    }
    c
}

/// One move changes the distance to a vertex `s` by at most one.
pub(crate) proof fn lemma_dist_step(g: Graph, s: int, u: int, v: int)
    requires
        g.wf(),
        0 <= u < g.vertices@.len(),
        0 <= v < g.vertices@.len(),
        g.acts(u).contains(v as usize),
        reachable(g, s, v),
    ensures
        reachable(g, s, u),
        dist(g, s, u) <= dist(g, s, v) + 1,
{
    let d = choose|d: nat| walk_within(g, s, v, d);
    lemma_reachable_has_dist(g, s, v, d);
    let dv = dist(g, s, v);
    g.lemma_neighbors_in_range(u);
    assert(g.adjacency_ok(u));
    let k = choose|k: int| 0 <= k < g.acts(u).len() && g.acts(u)[k] == v as usize;
    if k < g.nbrs(u).len() {
        assert(g.nbrs(u)[k] == v as usize);
        assert(g.adjacent(u, v));
        g.lemma_adjacent_symmetric(u, v);
        assert(walk_within(g, s, u, dv + 1));
        lemma_reachable_has_dist(g, s, u, dv + 1);
    } else {
        assert(v == u);
    }
}

/// An agent of a plan is within `a - t` steps of its goal at time `t`, where `a` is the time
/// from which it rests at its goal.
proof fn lemma_dist_before_arrival(instance: &Instance, sol: Seq<Seq<usize>>, i: int, t: int)
    requires
        instance.wf(),
        valid_plan(instance, sol),
        0 <= i < instance.num_agents,
        0 <= t <= arrival_upto(sol, i, instance.goals@[i], sol.len() as int),
    ensures
        reachable(instance.graph, instance.goals@[i] as int, sol[t][i] as int),
        dist(instance.graph, instance.goals@[i] as int, sol[t][i] as int) + t <= arrival_upto(
            sol,
            i,
            instance.goals@[i],
            sol.len() as int,
        ),
    decreases arrival_upto(sol, i, instance.goals@[i], sol.len() as int) - t,
{
    let g = instance.graph;
    let goal = instance.goals@[i];
    let a = arrival_upto(sol, i, goal, sol.len() as int);
    lemma_arrival(sol, i, goal, sol.len() as int);
    if a == sol.len() {
        // the last configuration is the goals
        assert(sol.last() == instance.goals@);
        if a > 0 {
            lemma_arrival(sol, i, goal, sol.len() - 1);
            assert(sol[a - 1][i] != goal);
            assert(sol[sol.len() - 1][i] == goal);
        }
    }
    assert(a < sol.len());
    if t == a {
        assert(sol[t][i] == goal);
        assert(walk_within(g, goal as int, goal as int, 0));
        lemma_reachable_has_dist(g, goal as int, goal as int, 0);
    } else {
        lemma_dist_before_arrival(instance, sol, i, t + 1);
        assert(config_ok(instance, sol[t]));
        assert(moves(g, sol[t], sol[t + 1]));
        assert(g.acts(sol[t][i] as int).contains(sol[t + 1][i]));
        lemma_dist_step(g, goal as int, sol[t][i] as int, sol[t + 1][i] as int);
    }
}

/// For agents below `k`: each start is at most its arrival time from its goal.
proof fn lemma_bounds_upto(instance: &Instance, sol: Seq<Seq<usize>>, k: int)
    requires
        instance.wf(),
        valid_plan(instance, sol),
        0 <= k <= instance.num_agents,
    ensures
        max_dist_upto(instance.graph, instance.goals@, instance.starts@, k) <= sol.len() - 1,
        dist_sum(instance.graph, instance.goals@, instance.starts@, k) <= soc_upto(sol, instance.goals@, k),
    decreases k,
{
    if k > 0 {
        lemma_bounds_upto(instance, sol, k - 1);
        let i = k - 1;
        lemma_arrival(sol, i, instance.goals@[i], sol.len() as int);
        lemma_dist_before_arrival(instance, sol, i, 0);
        assert(sol[0] == instance.starts@);
        lemma_dist_before_arrival_le_len(instance, sol, i);
    }
}

/// An agent's arrival time is at most the number of steps of the plan.
proof fn lemma_dist_before_arrival_le_len(instance: &Instance, sol: Seq<Seq<usize>>, i: int)
    requires
        instance.wf(),
        valid_plan(instance, sol),
        0 <= i < instance.num_agents,
    ensures
        arrival_upto(sol, i, instance.goals@[i], sol.len() as int) <= sol.len() - 1,
{
    let goal = instance.goals@[i];
    let a = arrival_upto(sol, i, goal, sol.len() as int);
    lemma_arrival(sol, i, goal, sol.len() as int);
    if a == sol.len() {
        assert(sol.last() == instance.goals@);
        lemma_arrival(sol, i, goal, sol.len() - 1);
        assert(sol[a - 1][i] != goal);
    }
}

/// The lower bounds are bounds: every plan for an instance has at least as many steps as the
/// largest distance of a start from its goal, and a sum of costs and a sum of loss each at
/// least the sum of those distances.
pub proof fn lemma_lower_bounds_hold(instance: &Instance, sol: Seq<Seq<usize>>)
    requires
        instance.wf(),
        valid_plan(instance, sol),
    ensures
        max_dist_upto(instance.graph, instance.goals@, instance.starts@, instance.num_agents as int)
            <= makespan_of(sol.len()),
        dist_sum(instance.graph, instance.goals@, instance.starts@, instance.num_agents as int) <= soc_upto(
            sol,
            instance.goals@,
            instance.num_agents as int,
        ),
        dist_sum(instance.graph, instance.goals@, instance.starts@, instance.num_agents as int) <= loss_upto(
            sol,
            instance.goals@,
            sol.len() as int,
        ),
{
    lemma_bounds_upto(instance, sol, instance.num_agents as int);
    lemma_rest_cost(instance, sol, 0);
}


/// The figures of a finished search.
pub struct Metrics {
    pub solved: bool,
    pub makespan: usize,
    pub sum_of_costs: usize,
    pub sum_of_loss: usize,
    /// Time the search took, in nanoseconds.
    pub comp_time_ns: u128,
    pub loop_count: usize,
    pub seed: u64,
}

/// The plan in `outcome` can be measured for `instance`: each configuration names a vertex for
/// every agent, and the costs fit in a `usize`.
pub open spec fn measurable(outcome: &SolveOutcome, instance: &Instance) -> bool {
    outcome matches SolveOutcome::Solved(plan) ==> {
        &&& instance.goals@.len() == instance.num_agents
        &&& forall|t: int| 0 <= t < plan@.len() ==> (#[trigger] plan@[t])@.len() >= instance.num_agents
        &&& instance.num_agents * plan@.len() <= usize::MAX
    }
}

impl Metrics {
    /// The figures of `outcome`: the costs of the plan when there is one, zeros otherwise.
    pub fn from_outcome(
        outcome: &SolveOutcome,
        instance: &Instance,
        comp_time_ns: u128,
        loop_count: usize,
        seed: u64,
    ) -> (m: Self)
        requires
            measurable(outcome, instance),
        ensures
            m.comp_time_ns == comp_time_ns,
            m.loop_count == loop_count,
            m.seed == seed,
            match outcome {
                SolveOutcome::Solved(plan) => {
                    &&& m.solved
                    &&& m.makespan == makespan_of(plan@.len())
                    &&& m.sum_of_costs == soc_upto(plan_view(plan@), instance.goals@, instance.num_agents as int)
                    &&& m.sum_of_loss == loss_upto(plan_view(plan@), instance.goals@, plan@.len() as int)
                },
                _ => !m.solved && m.makespan == 0 && m.sum_of_costs == 0 && m.sum_of_loss == 0,
            },
    {
        match outcome {
            SolveOutcome::Solved(solution) => {
                let makespan = compute_makespan(solution);
                let sum_of_costs = compute_sum_of_costs(solution, instance);
                let sum_of_loss = compute_sum_of_loss(solution, instance);
                assert(instance.goals@.subrange(0, instance.num_agents as int) =~= instance.goals@);
                Metrics { solved: true, makespan, sum_of_costs, sum_of_loss, comp_time_ns, loop_count, seed }
            },
            _ => Metrics {
                solved: false,
                makespan: 0,
                sum_of_costs: 0,
                sum_of_loss: 0,
                comp_time_ns,
                loop_count,
                seed,
            },
        }
    }
}


/// The cell `(x, y)` as the visualizer reads it.
fn cell_text(x: i32, y: i32) -> (s: String)
    ensures
        s@ == cell_spec(x as int, y as int),
{
    let mut s = String::from_str("(");
    s.append(signed_decimal_text(x).as_str());
    s.append(",");
    s.append(signed_decimal_text(y).as_str());
    s.append(")");
    s
}

/// The text of the cell `(x, y)`.
pub open spec fn cell_spec(x: int, y: int) -> Seq<char> {
    "("@ + signed_decimal(x) + ","@ + signed_decimal(y) + ")"@
}

/// The cells of the first `k` agents of `c` on `g`, separated by commas.
pub open spec fn config_text_upto(g: Graph, c: Seq<usize>, k: int) -> Seq<char>
    decreases k,
{
    if k <= 0 {
        Seq::empty()
    } else {
        let v = g.vertices@[c[k - 1] as int];
        config_text_upto(g, c, k - 1) + (if k > 1 {
            ","@
        } else {
            Seq::empty()
        }) + cell_spec(v.x as int, v.y as int)
    }
}

/// The cells of the agents of `c` on `g`, separated by commas.
pub open spec fn config_text(g: Graph, c: Seq<usize>) -> Seq<char> {
    config_text_upto(g, c, c.len() as int)
}

/// The cells of the agents of `config`, as `(x,y)` separated by commas.
pub fn write_config(config: &[usize], instance: &Instance) -> (s: String)
    requires
        forall|i: int| 0 <= i < config@.len() ==> #[trigger] config@[i] < instance.graph.vertices@.len(),
    ensures
        s@ == config_text(instance.graph, config@),
{
    let mut s = String::new();
    let mut idx: usize = 0;
    while idx < config.len()
        invariant
            forall|i: int| 0 <= i < config@.len() ==> #[trigger] config@[i] < instance.graph.vertices@.len(),
            0 <= idx <= config@.len(),
            s@ == config_text_upto(instance.graph, config@, idx as int),
        decreases config@.len() - idx,
    {
        let v = &instance.graph.vertices[config[idx]];
        if idx > 0 {
            s.append(",");
        }
        let cell = cell_text(v.x, v.y);
        s.append(cell.as_str());
        proof {
            if idx == 0 {
                assert(s@ =~= config_text_upto(instance.graph, config@, 1));
            } else {
                assert(s@ =~= config_text_upto(instance.graph, config@, idx + 1));
            }
        }
        idx += 1;
    }
    s
}

/// `name=` followed by the decimal digits of `n` and a line break.
pub open spec fn field_line(name: Seq<char>, n: nat) -> Seq<char> {
    name + "="@ + decimal(n) + "\n"@
}

/// The lines `t:` followed by the cells of configuration `t`, for the first `k` configurations
/// of `plan`.
pub open spec fn plan_lines_upto(g: Graph, plan: Seq<Seq<usize>>, k: int) -> Seq<char>
    decreases k,
{
    if k <= 0 {
        Seq::empty()
    } else {
        plan_lines_upto(g, plan, k - 1) + decimal((k - 1) as nat) + ":"@ + config_text(g, plan[k - 1]) + "\n"@
    }
}

/// The text of the result file: the figures, the starts and goals, then one line per step of
/// the plan (none without a plan).
pub open spec fn result_text(instance: &Instance, outcome: &SolveOutcome, m: &Metrics, map_file: Seq<char>) -> Seq<char> {
    field_line("agents"@, instance.num_agents as nat) + "map_file="@ + map_file + "\n"@ + "solver=LaCAM\n"@
        + field_line("solved"@, if m.solved {
        1
    } else {
        0
    }) + field_line("soc"@, m.sum_of_costs as nat) + field_line("sum_of_loss"@, m.sum_of_loss as nat)
        + field_line("makespan"@, m.makespan as nat) + field_line("comp_time"@, (m.comp_time_ns / 1_000_000) as nat)
        + field_line("loop_cnt"@, m.loop_count as nat) + field_line("seed"@, m.seed as nat) + "starts="@
        + config_text(instance.graph, instance.starts@) + "\n"@ + "goals="@ + config_text(instance.graph, instance.goals@)
        + "\n"@ + "solution=\n"@ + match outcome {
        SolveOutcome::Solved(plan) => plan_lines_upto(instance.graph, plan_view(plan@), plan@.len() as int),
        _ => Seq::empty(),
    }
}

/// The head of the result file up to its figures: the number of agents, the map file, the
/// solver and whether a plan was found (1 or 0), one line each.
pub open spec fn result_head(num_agents: nat, map_file: Seq<char>, solved: bool) -> Seq<char> {
    "agents"@ + "="@ + decimal(num_agents) + "\n"@ + "map_file="@ + map_file + "\n"@ + "solver=LaCAM\n"@ + "solved"@
        + "="@ + decimal(if solved {
        1nat
    } else {
        0nat
    }) + "\n"@
}

/// After its head, the result file gives the sum of costs on the `soc=` line, the sum of loss
/// on the `sum_of_loss=` line and the makespan on the `makespan=` line, in that order.
#[verifier::rlimit(100)]
pub proof fn lemma_result_figures(instance: &Instance, outcome: &SolveOutcome, m: &Metrics, map_file: Seq<char>)
    ensures
        exists|rest: Seq<char>|
            result_text(instance, outcome, m, map_file) == result_head(instance.num_agents as nat, map_file, m.solved)
                + "soc"@ + "="@ + decimal(m.sum_of_costs as nat) + "\n"@ + "sum_of_loss"@ + "="@ + decimal(
                m.sum_of_loss as nat,
            ) + "\n"@ + "makespan"@ + "="@ + decimal(m.makespan as nat) + "\n"@ + rest,
{
    let head = result_head(instance.num_agents as nat, map_file, m.solved);
    let figs = "soc"@ + "="@ + decimal(m.sum_of_costs as nat) + "\n"@ + "sum_of_loss"@ + "="@ + decimal(
        m.sum_of_loss as nat,
    ) + "\n"@ + "makespan"@ + "="@ + decimal(m.makespan as nat) + "\n"@;
    let t = result_text(instance, outcome, m, map_file);
    let rest = t.subrange((head + figs).len() as int, t.len() as int);
    assert(t =~= head + "soc"@ + "="@ + decimal(m.sum_of_costs as nat) + "\n"@ + "sum_of_loss"@ + "="@ + decimal(
        m.sum_of_loss as nat,
    ) + "\n"@ + "makespan"@ + "="@ + decimal(m.makespan as nat) + "\n"@ + rest);
}

/// Appends `name=n` and a line break to `s`.
fn push_field(s: &mut String, name: &str, n: u128)
    ensures
        final(s)@ == old(s)@ + field_line(name@, n as nat),
{
    s.append(name);
    s.append("=");
    let digits = decimal_text(n);
    s.append(digits.as_str());
    s.append("\n");
    assert(final(s)@ =~= old(s)@ + field_line(name@, n as nat));
}

/// The text of the result file for `instance`, the search's `outcome` and its figures `m`, read
/// from the map file `map_file`; this is the format the MAPF visualizer reads.
pub fn result_file_text(instance: &Instance, outcome: &SolveOutcome, m: &Metrics, map_file: &str) -> (s: String)
    requires
        forall|i: int| 0 <= i < instance.starts@.len() ==> #[trigger] instance.starts@[i] < instance.graph.vertices@.len(),
        forall|i: int| 0 <= i < instance.goals@.len() ==> #[trigger] instance.goals@[i] < instance.graph.vertices@.len(),
        outcome matches SolveOutcome::Solved(plan) ==> forall|t: int, i: int|
            0 <= t < plan@.len() && 0 <= i < plan@[t]@.len() ==> #[trigger] plan@[t]@[i]
                < instance.graph.vertices@.len(),
    ensures
        s@ == result_text(instance, outcome, m, map_file@),
        exists|rest: Seq<char>|
            s@ == result_head(instance.num_agents as nat, map_file@, m.solved) + "soc"@ + "="@ + decimal(
                m.sum_of_costs as nat,
            ) + "\n"@ + "sum_of_loss"@ + "="@ + decimal(m.sum_of_loss as nat) + "\n"@ + "makespan"@ + "="@
                + decimal(m.makespan as nat) + "\n"@ + rest,
{
    proof {
        lemma_result_figures(instance, outcome, m, map_file@);
    }
    let mut s = String::new();
    push_field(&mut s, "agents", instance.num_agents as u128);
    s.append("map_file=");
    s.append(map_file);
    s.append("\n");
    s.append("solver=LaCAM\n");
    push_field(&mut s, "solved", if m.solved { 1 } else { 0 });
    push_field(&mut s, "soc", m.sum_of_costs as u128);
    push_field(&mut s, "sum_of_loss", m.sum_of_loss as u128);
    push_field(&mut s, "makespan", m.makespan as u128);
    push_field(&mut s, "comp_time", m.comp_time_ns / 1_000_000);
    push_field(&mut s, "loop_cnt", m.loop_count as u128);
    push_field(&mut s, "seed", m.seed as u128);
    s.append("starts=");
    let starts = write_config(instance.starts.as_slice(), instance);
    s.append(starts.as_str());
    s.append("\n");
    s.append("goals=");
    let goals = write_config(instance.goals.as_slice(), instance);
    s.append(goals.as_str());
    s.append("\n");
    s.append("solution=\n");
    let ghost head = s@;
    if let SolveOutcome::Solved(plan) = outcome {
        let mut t: usize = 0;
        while t < plan.len()
            invariant
                forall|u: int, i: int|
                    0 <= u < plan@.len() && 0 <= i < plan@[u]@.len() ==> #[trigger] plan@[u]@[i]
                        < instance.graph.vertices@.len(),
                0 <= t <= plan@.len(),
                s@ == head + plan_lines_upto(instance.graph, plan_view(plan@), t as int),
            decreases plan@.len() - t,
        {
            let digits = decimal_text(t as u128);
            s.append(digits.as_str());
            s.append(":");
            proof {
                assert forall|i: int| 0 <= i < plan@[t as int]@.len() implies #[trigger] plan@[t as int]@[i]
                    < instance.graph.vertices@.len() by {}
            }
            let line = write_config(plan[t].as_slice(), instance);
            s.append(line.as_str());
            s.append("\n");
            proof {
                assert(plan_view(plan@)[t as int] == plan@[t as int]@);
                assert(s@ =~= head + plan_lines_upto(instance.graph, plan_view(plan@), t + 1));
            }
            t += 1;
        }
    }
    proof {
        if !(outcome is Solved) {
            assert(s@ =~= head);
        }
    }
    s
}

} // verus!
