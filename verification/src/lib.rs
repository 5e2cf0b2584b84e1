pub mod deadline;
pub mod dist_table;
pub mod error;
pub mod graph;
pub mod grid_laws;
pub mod instance;
pub mod lacam;
pub mod map_file;
pub mod pibt;
pub mod text;
mod random;
pub mod utils;

pub use error::{LacamError, Result};
pub use instance::Instance;

use deadline::Deadline;
use dist_table::DistTable;
use lacam::{plan_view, valid_plan, LaCAM, SolveOutcome};
use utils::{loss_upto, makespan_of, max_dist_upto, measurable, soc_upto, Metrics};
use lacam::dist_sum;
use pibt::config_distinct;
use graph::dist;
use vstd::prelude::*;

verus! {

/// How a call of `solve` ended.
#[derive(Debug, Clone, Copy, PartialEq, Eq, Structural)]
pub enum Status {
    Solved,
    Timeout,
    NoSolution,
}

/// Choices for `solve`.
#[derive(Debug, Clone, Copy)]
pub struct SolverOpts {
    /// Keep improving the plan after the first one is found, until nothing cheaper is left.
    pub star: bool,
    /// Compute all distances to the goals before the search, in parallel.
    pub parallel_dist_init: bool,
}

impl Default for SolverOpts {
    fn default() -> (o: Self)
        ensures
            !o.star,
            o.parallel_dist_init,
    {
        SolverOpts { star: false, parallel_dist_init: true }
    }
}

/// What `solve` found, with its figures.
#[derive(Debug, Clone)]
pub struct SolveResult {
    pub status: Status,
    pub solution: Option<Vec<Vec<usize>>>,
    /// Time the search took, in nanoseconds; the lower bounds are computed before the clock
    /// starts.
    pub comp_time_ns: u128,
    pub makespan: Option<usize>,
    pub soc: Option<usize>,
    pub sum_of_loss: Option<usize>,
    pub makespan_lb: usize,
    pub soc_lb: usize,
    pub loop_cnt: usize,
}

impl SolveResult {
    /// The outcome this result reports, with the figures that the result file records for it
    /// (all 0 unless a plan was found; a figure the result lacks counts as 0).
    pub fn into_outcome_and_metrics(self, seed: u64) -> (r: (SolveOutcome, Metrics))
        ensures
            self.status == Status::Timeout ==> r.0 is Timeout,
            self.status == Status::NoSolution ==> r.0 is NoSolution,
            self.status == Status::Solved ==> match self.solution {
                Some(plan) => r.0 == SolveOutcome::Solved(plan),
                None => r.0 is NoSolution,
            },
            r.1.solved == r.0 is Solved,
            r.1.makespan == (if r.1.solved {
                figure(self.makespan)
            } else {
                0
            }),
            r.1.sum_of_costs == (if r.1.solved {
                figure(self.soc)
            } else {
                0
            }),
            r.1.sum_of_loss == (if r.1.solved {
                figure(self.sum_of_loss)
            } else {
                0
            }),
            r.1.comp_time_ns == self.comp_time_ns,
            r.1.loop_count == self.loop_cnt,
            r.1.seed == seed,
    {
        let outcome = match self.status {
            Status::Solved => match self.solution {
                Some(plan) => SolveOutcome::Solved(plan),
                None => SolveOutcome::NoSolution,
            },
            Status::Timeout => SolveOutcome::Timeout,
            Status::NoSolution => SolveOutcome::NoSolution,
        };
        let solved = match &outcome {
            SolveOutcome::Solved(_) => true,
            _ => false,
        };
        let metrics = if solved {
            Metrics {
                solved: true,
                makespan: figure_or_zero(self.makespan),
                sum_of_costs: figure_or_zero(self.soc),
                sum_of_loss: figure_or_zero(self.sum_of_loss),
                comp_time_ns: self.comp_time_ns,
                loop_count: self.loop_cnt,
                seed,
            }
        } else {
            Metrics {
                solved: false,
                makespan: 0,
                sum_of_costs: 0,
                sum_of_loss: 0,
                comp_time_ns: self.comp_time_ns,
                loop_count: self.loop_cnt,
                seed,
            }
        };
        (outcome, metrics)
    }
}

/// A figure of a result, 0 when it has none.
pub open spec fn figure(x: Option<usize>) -> usize {
    match x {
        Some(v) => v,
        None => 0,
    }
}

fn figure_or_zero(x: Option<usize>) -> (r: usize)
    ensures
        r == figure(x),
{
    match x {
        Some(v) => v,
        None => 0,
    }
}

/// Searches a plan for `instance` for at most `time_limit_ms` milliseconds, drawing random
/// choices from `seed`. It times out only with the search on `instance` left with nodes to
/// visit and the goals not met.
pub fn solve(instance: &Instance, time_limit_ms: u64, seed: u64, opts: &SolverOpts) -> (r: SolveResult)
    requires
        instance.wf(),
        instance.connected(),
        instance.num_agents * instance.graph.vertices@.len() <= usize::MAX,
    ensures
        r.makespan_lb == max_dist_upto(instance.graph, instance.goals@, instance.starts@, instance.num_agents as int),
        forall|i: int|
            0 <= i < instance.num_agents ==> #[trigger] dist(
                instance.graph,
                instance.goals@[i] as int,
                instance.starts@[i] as int,
            ) <= r.makespan_lb,
        instance.num_agents > 0 ==> exists|i: int|
            0 <= i < instance.num_agents && #[trigger] dist(
                instance.graph,
                instance.goals@[i] as int,
                instance.starts@[i] as int,
            ) == r.makespan_lb,
        r.soc_lb == dist_sum(instance.graph, instance.goals@, instance.starts@, instance.num_agents as int),
        (r.status == Status::Solved) == (r.solution is Some),
        r.status == Status::NoSolution && config_distinct(instance.starts@) ==> forall|plan: Seq<Seq<usize>>|
            !#[trigger] valid_plan(instance, plan),
        r.status == Status::Timeout ==> exists|s: LaCAM<'_>|
            s.instance == instance && s.inv() && s.explored_ok() && #[trigger] s.ended_with(SolveOutcome::Timeout),
        match r.solution {
            Some(plan) => {
                let p = plan_view(plan@);
                &&& valid_plan(instance, p)
                &&& r.makespan == Some(makespan_of(p.len()) as usize)
                &&& if instance.num_agents * p.len() <= usize::MAX {
                    &&& r.soc == Some(soc_upto(p, instance.goals@, instance.num_agents as int) as usize)
                    &&& r.sum_of_loss == Some(loss_upto(p, instance.goals@, p.len() as int) as usize)
                } else {
                    r.soc is None && r.sum_of_loss is None
                }
            },
            None => r.makespan is None && r.soc is None && r.sum_of_loss is None,
        },
{
    // the lower bounds are computed before the clock starts
    let mut dist_table_for_lb = DistTable::new_lazy(instance);
    let makespan_lb = utils::get_makespan_lower_bound(instance, &mut dist_table_for_lb);
    let soc_lb = utils::get_sum_of_costs_lower_bound(instance, &mut dist_table_for_lb);

    let deadline = Deadline::new(time_limit_ms);
    let dist_table = if opts.parallel_dist_init {
        DistTable::new_parallel(instance)
    } else {
        DistTable::new_lazy(instance)
    };
    let mut solver = LaCAM::new(instance, dist_table, deadline, seed, opts.star);
    let outcome = solver.solve();
    let comp_time_ns = deadline.elapsed_ns();
    let loop_cnt = solver.loop_cnt;

    let n = instance.num_agents;
    let fits = match &outcome {
        SolveOutcome::Solved(sol) => n.checked_mul(sol.len()).is_some(),
        _ => true,
    };
    proof {
        if let SolveOutcome::Solved(sol) = &outcome {
            let p = plan_view(sol@);
            assert forall|t: int| 0 <= t < sol@.len() implies (#[trigger] sol@[t])@.len() >= n by {
                assert(p[t] == sol@[t]@);
            }
        }
    }
    let (makespan, soc, sum_of_loss) = if fits {
        let m = Metrics::from_outcome(&outcome, instance, comp_time_ns, loop_cnt, seed);
        if m.solved {
            (Some(m.makespan), Some(m.sum_of_costs), Some(m.sum_of_loss))
        } else {
            (None, None, None)
        }
    } else {
        match &outcome {
            SolveOutcome::Solved(sol) => (Some(utils::compute_makespan(sol)), None, None),
            _ => (None, None, None),
        }
    };
    let (status, solution) = match outcome {
        SolveOutcome::Solved(sol) => (Status::Solved, Some(sol)),
        SolveOutcome::Timeout => (Status::Timeout, None),
        SolveOutcome::NoSolution => (Status::NoSolution, None),
    };
    SolveResult {
        status,
        solution,
        comp_time_ns,
        makespan,
        soc,
        sum_of_loss,
        makespan_lb,
        soc_lb,
        loop_cnt,
    }
}

} // verus!
