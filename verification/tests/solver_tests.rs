use lacam0_rs::deadline::{expired_after, Deadline};
use lacam0_rs::dist_table::DistTable;
use lacam0_rs::graph::Graph;
use lacam0_rs::lacam::{HNodeId, LNode, LNodeArena, LNodeId, LaCAM, SolveOutcome};
use lacam0_rs::pibt::PIBT;
use lacam0_rs::{solve, Instance, SolverOpts, Status};

fn grid(rows: &[&str]) -> Vec<Vec<bool>> {
    rows.iter().map(|r| r.chars().map(|c| c == '.').collect()).collect()
}

/// Checks the plan the way `valid_plan` states it.
fn check_plan(inst: &Instance, plan: &[Vec<usize>]) {
    assert!(!plan.is_empty());
    assert_eq!(plan[0], inst.starts);
    assert_eq!(plan[plan.len() - 1], inst.goals);
    for t in 0..plan.len() {
        assert_eq!(plan[t].len(), inst.num_agents);
        for i in 0..inst.num_agents {
            for j in i + 1..inst.num_agents {
                assert_ne!(plan[t][i], plan[t][j], "vertex conflict at {}", t);
            }
        }
    }
    for t in 0..plan.len() - 1 {
        for i in 0..inst.num_agents {
            assert!(inst.graph.get_actions(plan[t][i]).contains(&plan[t + 1][i]));
            for j in 0..inst.num_agents {
                if i != j {
                    assert!(!(plan[t + 1][i] == plan[t][j] && plan[t + 1][j] == plan[t][i]), "swap at {}", t);
                }
            }
        }
    }
}

#[test]
fn expired_after_compares_in_nanoseconds() {
    assert!(!expired_after(1_000_000, 1));
    assert!(expired_after(1_000_001, 1));
    assert!(!expired_after(0, 0));
    assert!(expired_after(1, 0));
}

#[test]
fn deadline_keeps_its_limit() {
    let d = Deadline::new(5000);
    assert_eq!(d.time_limit_ms, 5000);
    assert!(!d.is_expired());
}

#[test]
fn dist_table_gives_shortest_distances() {
    // . . .
    // # # .
    // . . .
    let g = Graph::from_array(grid(&["...", "##.", "..."])).unwrap();
    // vertex 0 = (0,0), 3 = (2,1), 4 = (0,2), 5 = (1,2)
    let inst = Instance::new(g, vec![4], vec![0]);
    let mut lazy = DistTable::new_lazy(&inst);
    assert_eq!(lazy.get(0, 0), 0);
    assert_eq!(lazy.get(0, 4), 6);
    assert_eq!(lazy.get(0, 5), 5);
    assert_eq!(lazy.get(0, 3), 3);
    let mut parallel = DistTable::new_parallel(&inst);
    for v in 0..inst.graph.size() {
        assert_eq!(parallel.get(0, v), lazy.get(0, v));
    }
}

#[test]
fn pibt_moves_agents_towards_their_goals() {
    let g = Graph::from_array(grid(&["...."])).unwrap();
    let inst = Instance::new(g, vec![0, 3], vec![1, 2]);
    let mut dt = DistTable::new_lazy(&inst);
    let mut pibt = PIBT::new(&inst, 0);
    let mut q_to = vec![None, None];
    let ok = pibt.set_new_config(&inst.starts, &mut q_to, vec![0, 1], &mut dt);
    assert!(ok);
    assert_eq!(q_to, vec![Some(1), Some(2)]);
}

#[test]
fn pibt_refuses_colliding_constraints() {
    let g = Graph::from_array(grid(&["..."])).unwrap();
    let inst = Instance::new(g, vec![0, 2], vec![2, 0]);
    let mut dt = DistTable::new_lazy(&inst);
    let mut pibt = PIBT::new(&inst, 0);
    let mut q_to = vec![Some(1), Some(1)];
    assert!(!pibt.set_new_config(&inst.starts, &mut q_to, vec![0, 1], &mut dt));
    assert_eq!(q_to, vec![Some(1), Some(1)]);
}

#[test]
fn lnode_arena_numbers_in_order() {
    let mut arena = LNodeArena::default();
    assert_eq!(arena.len(), 0);
    let a = arena.allocate(LNode { constraints: vec![] });
    let b = arena.allocate(LNode { constraints: vec![(0, 3)] });
    assert!(a == LNodeId(0) && b == LNodeId(1));
    assert_eq!(arena.len(), 2);
    assert_eq!(arena.get(b).constraints, vec![(0, 3)]);
}

#[test]
fn lacam_solves_a_crossing() {
    // two agents trade opposite corners of a ring of six cells
    let g = Graph::from_array(grid(&["...", "..."])).unwrap();
    let inst = Instance::new(g, vec![0, 5], vec![5, 0]);
    let dt = DistTable::new_lazy(&inst);
    let mut lacam = LaCAM::new(&inst, dt, Deadline::new(10_000), 0, false);
    match lacam.solve() {
        SolveOutcome::Solved(plan) => check_plan(&inst, &plan),
        _ => panic!("expected a plan"),
    }
    assert!(lacam.loop_cnt > 0);
    assert!(lacam.h_goal.is_some());
}

#[test]
fn lacam_reports_no_solution_when_agents_must_pass_in_a_corridor() {
    // . . .
    // . # .   a path of five cells: 3 - 0 - 1 - 2 - 4
    let g = Graph::from_array(grid(&["...", ".#."])).unwrap();
    let inst = Instance::new(g, vec![3, 4], vec![4, 3]);
    let dt = DistTable::new_lazy(&inst);
    let mut lacam = LaCAM::new(&inst, dt, Deadline::new(60_000), 0, false);
    assert!(matches!(lacam.solve(), SolveOutcome::NoSolution));
}

#[test]
fn lacam_reports_no_solution_when_agents_must_swap_in_a_corridor() {
    let g = Graph::from_array(grid(&[".."])).unwrap();
    let inst = Instance::new(g, vec![0, 1], vec![1, 0]);
    let dt = DistTable::new_lazy(&inst);
    let mut lacam = LaCAM::new(&inst, dt, Deadline::new(60_000), 0, false);
    assert!(matches!(lacam.solve(), SolveOutcome::NoSolution));
    assert!(lacam.open.is_empty());
}

#[test]
fn lacam_star_keeps_a_plan() {
    let g = Graph::from_array(grid(&["...", "...", "..."])).unwrap();
    let inst = Instance::new(g, vec![0, 2, 6], vec![8, 6, 2]);
    let dt = DistTable::new_lazy(&inst);
    let mut lacam = LaCAM::new(&inst, dt, Deadline::new(2_000), 3, true);
    match lacam.solve() {
        SolveOutcome::Solved(plan) => check_plan(&inst, &plan),
        _ => panic!("expected a plan"),
    }
    assert_eq!(lacam.h_arena.get(HNodeId(0)).config, inst.starts);
}

#[test]
fn solve_reports_costs_and_bounds() {
    let g = Graph::from_array(grid(&["....", "....", "...."])).unwrap();
    let inst = Instance::new(g, vec![0, 3, 8], vec![11, 8, 3]);
    let opts = SolverOpts::default();
    assert!(!opts.star && opts.parallel_dist_init);
    let r = solve(&inst, 10_000, 0, &opts);
    assert_eq!(r.status, Status::Solved);
    let plan = r.solution.clone().unwrap();
    check_plan(&inst, &plan);
    assert_eq!(r.makespan, Some(plan.len() - 1));
    // distances: agent 0 from (0,0) to (3,2) is 5, agent 1 from (3,0) to (0,2) is 5,
    // agent 2 from (0,2) to (3,0) is 5
    assert_eq!(r.makespan_lb, 5);
    assert_eq!(r.soc_lb, 15);
    assert!(r.makespan.unwrap() >= r.makespan_lb);
    assert!(r.soc.unwrap() >= r.soc_lb);
    assert!(r.sum_of_loss.unwrap() >= r.soc_lb);
}

#[test]
fn solve_with_no_time_times_out() {
    let g = Graph::from_array(grid(&["....", "...."])).unwrap();
    let inst = Instance::new(g, vec![0, 1], vec![7, 6]);
    let opts = SolverOpts { star: false, parallel_dist_init: false };
    let r = solve(&inst, 0, 0, &opts);
    assert_eq!(r.status, Status::Timeout);
    assert!(r.solution.is_none());
    assert!(r.makespan.is_none() && r.soc.is_none() && r.sum_of_loss.is_none());
}

#[test]
fn solve_when_agents_start_at_their_goals() {
    let g = Graph::from_array(grid(&["..."])).unwrap();
    let inst = Instance::new(g, vec![0, 2], vec![0, 2]);
    let r = solve(&inst, 10_000, 0, &SolverOpts::default());
    assert_eq!(r.status, Status::Solved);
    assert_eq!(r.solution, Some(vec![vec![0, 2]]));
    assert_eq!(r.makespan, Some(0));
    assert_eq!(r.soc, Some(0));
    assert_eq!(r.sum_of_loss, Some(0));
    assert_eq!(r.makespan_lb, 0);
    assert_eq!(r.soc_lb, 0);
}

#[test]
fn lacam_goal_cost_is_the_plan_loss() {
    let g = Graph::from_array(grid(&["....", "....", "...."])).unwrap();
    let inst = Instance::new(g, vec![0, 3, 8], vec![11, 8, 3]);
    let dt = DistTable::new_lazy(&inst);
    let mut lacam = LaCAM::new(&inst, dt, Deadline::new(10_000), 1, true);
    let plan = match lacam.solve() {
        SolveOutcome::Solved(plan) => plan,
        _ => panic!("expected a plan"),
    };
    check_plan(&inst, &plan);
    let goal = lacam.h_goal.unwrap();
    let loss = lacam0_rs::utils::compute_sum_of_loss(&plan, &inst);
    assert_eq!(lacam.h_arena.get(goal).g, loss as u128);
}

#[test]
fn ready_to_solve_checks_agents_and_reachability() {
    // two rooms that do not touch
    let g = Graph::from_array(grid(&["..#..", "..#.."])).unwrap();
    // vertices: row 0: 0 1 | 2 3, row 1: 4 5 | 6 7
    assert!(Instance::new(g, vec![0, 2], vec![5, 7]).ready_to_solve());
    let g = Graph::from_array(grid(&["..#..", "..#.."])).unwrap();
    assert!(!Instance::new(g, vec![0], vec![3]).ready_to_solve());
    let g = Graph::from_array(grid(&["..#..", "..#.."])).unwrap();
    assert!(!Instance::new(g, vec![0], vec![8]).ready_to_solve());
    let g = Graph::from_array(grid(&["..#..", "..#.."])).unwrap();
    let mut inst = Instance::new(g, vec![0, 1], vec![4]);
    assert!(!inst.ready_to_solve());
    inst.goals.push(5);
    assert!(inst.ready_to_solve());
}

#[test]
fn lacam_star_ends_with_a_cheapest_plan() {
    // two agents trade opposite corners of a ring of six cells; each needs three steps, and
    // both can take them at once, so no plan has a loss below six
    let g = Graph::from_array(grid(&["...", "..."])).unwrap();
    let inst = Instance::new(g, vec![0, 5], vec![5, 0]);
    let dt = DistTable::new_lazy(&inst);
    let mut lacam = LaCAM::new(&inst, dt, Deadline::new(30_000), 2, true);
    let plan = match lacam.solve() {
        SolveOutcome::Solved(plan) => plan,
        _ => panic!("expected a plan"),
    };
    check_plan(&inst, &plan);
    assert!(lacam.open.is_empty());
    assert_eq!(lacam0_rs::utils::compute_sum_of_loss(&plan, &inst), 6);
    assert_eq!(lacam.h_arena.get(lacam.h_goal.unwrap()).g, 6);
}

#[test]
fn pibt_succeeds_without_constraints() {
    // agent 0 wants the vertex of agent 1, which may not move onto agent 0's vertex
    let inst = Instance::from_arrays(vec![vec![true, true, true]], vec![(0, 1), (0, 2)], vec![(0, 2), (0, 0)]).unwrap();
    let mut pibt = PIBT::new(&inst, 0);
    let mut dt = DistTable::new_lazy(&inst);
    let q_from = vec![1, 2];
    let mut q_to = vec![None, None];
    assert!(pibt.set_new_config(&q_from, &mut q_to, vec![0, 1], &mut dt));
    assert_eq!(q_to, vec![Some(1), Some(2)]);
}

#[test]
fn lazy_table_starts_at_the_goals() {
    let g = Graph::from_array(grid(&["..."])).unwrap();
    let inst = Instance::new(g, vec![0, 2], vec![2, 0]);
    let dt = DistTable::new_lazy(&inst);
    assert_eq!(dt.num_vertices, 3);
    assert_eq!(dt.table, vec![vec![3, 3, 0], vec![0, 3, 3]]);
    assert_eq!(dt.open_queues[0].iter().copied().collect::<Vec<usize>>(), vec![2]);
    assert_eq!(dt.open_queues[1].iter().copied().collect::<Vec<usize>>(), vec![0]);
    let par = DistTable::new_parallel(&inst);
    assert_eq!(par.table, vec![vec![2, 1, 0], vec![0, 1, 2]]);
    assert!(par.open_queues.iter().all(|q| q.is_empty()));
}

#[test]
fn lacam_plan_at_the_goals_is_the_start() {
    let inst = Instance::from_arrays(vec![vec![true, true]], vec![(0, 0)], vec![(0, 0)]).unwrap();
    let mut lacam = LaCAM::new(&inst, DistTable::new_lazy(&inst), Deadline::new(60_000), 0, false);
    match lacam.solve() {
        SolveOutcome::Solved(p) => assert_eq!(p, vec![vec![0]]),
        _ => panic!("expected a plan"),
    }
    assert_eq!(lacam.loop_cnt, 1);
    assert_eq!(lacam.l_arena.len(), 1);
}

#[test]
fn lacam_counts_one_iteration_when_starting_at_the_goals() {
    let inst = Instance::from_arrays(vec![vec![true, true, true]], vec![(0, 1)], vec![(0, 1)]).unwrap();
    let mut lacam = LaCAM::new(&inst, DistTable::new_lazy(&inst), Deadline::new(60_000), 7, false);
    assert!(matches!(lacam.solve(), SolveOutcome::Solved(_)));
    assert_eq!(lacam.loop_cnt, 1);
}

#[test]
fn search_step_past_the_deadline_reports_timeout() {
    let g = Graph::from_array(grid(&["....", "...."])).unwrap();
    let inst = Instance::new(g, vec![0, 1], vec![7, 6]);
    let mut lacam = LaCAM::new(&inst, DistTable::new_lazy(&inst), Deadline::new(0), 0, false);
    assert!(matches!(lacam.solve(), SolveOutcome::Timeout));
    assert!(lacam.h_goal.is_none());
    assert!(!lacam.open.is_empty());
    let before = lacam.loop_cnt;
    assert!(matches!(lacam.search_step(true), Some(SolveOutcome::Timeout)));
    assert_eq!(lacam.loop_cnt, before);
    // without the deadline the search goes on by one round
    let r = lacam.search_step(false);
    assert!(r.is_none() || matches!(r, Some(SolveOutcome::Solved(_))));
    assert_eq!(lacam.loop_cnt, before + 1);
}

#[test]
fn search_step_with_nothing_left_reports_no_solution() {
    let g = Graph::from_array(grid(&[".."])).unwrap();
    let inst = Instance::new(g, vec![0, 1], vec![1, 0]);
    let mut lacam = LaCAM::new(&inst, DistTable::new_lazy(&inst), Deadline::new(60_000), 0, false);
    assert!(matches!(lacam.solve(), SolveOutcome::NoSolution));
    let before = lacam.loop_cnt;
    assert!(matches!(lacam.search_step(false), Some(SolveOutcome::NoSolution)));
    assert!(matches!(lacam.search_step(true), Some(SolveOutcome::NoSolution)));
    assert_eq!(lacam.loop_cnt, before);
}

#[test]
fn search_step_past_the_deadline_keeps_the_plan_found() {
    let g = Graph::from_array(grid(&["...", "..."])).unwrap();
    let inst = Instance::new(g, vec![0, 5], vec![5, 0]);
    let mut lacam = LaCAM::new(&inst, DistTable::new_lazy(&inst), Deadline::new(10_000), 0, false);
    let plan = match lacam.solve() {
        SolveOutcome::Solved(p) => p,
        _ => panic!("expected a plan"),
    };
    match lacam.search_step(true) {
        Some(SolveOutcome::Solved(p)) => assert_eq!(p, plan),
        _ => panic!("expected the same plan"),
    }
}

#[test]
fn result_gives_its_outcome_and_figures() {
    let g = Graph::from_array(grid(&["..."])).unwrap();
    let inst = Instance::new(g, vec![0, 2], vec![0, 2]);
    let r = solve(&inst, 10_000, 0, &SolverOpts::default());
    let loops = r.loop_cnt;
    let (outcome, m) = r.into_outcome_and_metrics(5);
    match outcome {
        SolveOutcome::Solved(p) => assert_eq!(p, vec![vec![0, 2]]),
        _ => panic!("expected a plan"),
    }
    assert!(m.solved);
    assert_eq!((m.makespan, m.sum_of_costs, m.sum_of_loss, m.seed), (0, 0, 0, 5));
    assert_eq!(m.loop_count, loops);

    let g = Graph::from_array(grid(&["....", "...."])).unwrap();
    let inst = Instance::new(g, vec![0, 1], vec![7, 6]);
    let r = solve(&inst, 0, 0, &SolverOpts { star: false, parallel_dist_init: false });
    let (outcome, m) = r.into_outcome_and_metrics(1);
    assert!(matches!(outcome, SolveOutcome::Timeout));
    assert!(!m.solved);
    assert_eq!((m.makespan, m.sum_of_costs, m.sum_of_loss), (0, 0, 0));
}
