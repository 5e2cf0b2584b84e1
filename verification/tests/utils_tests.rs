use lacam0_rs::dist_table::DistTable;
use lacam0_rs::graph::Graph;
use lacam0_rs::lacam::SolveOutcome;
use lacam0_rs::text::{chars_of, parse_usize};
use lacam0_rs::utils::{
    compute_makespan, compute_sum_of_costs, compute_sum_of_loss, get_makespan_lower_bound,
    get_sum_of_costs_lower_bound, result_file_text, write_config, Metrics,
};
use lacam0_rs::Instance;

fn line_instance() -> Instance {
    // a corridor of four cells: vertices 0..4 at x = 0..4
    let g = Graph::from_array(vec![vec![true, true, true, true]]).unwrap();
    Instance::new(g, vec![0, 3], vec![2, 3])
}

#[test]
fn makespan_is_steps() {
    assert_eq!(compute_makespan(&vec![]), 0);
    assert_eq!(compute_makespan(&vec![vec![0]]), 0);
    assert_eq!(compute_makespan(&vec![vec![0], vec![1], vec![2]]), 2);
}

#[test]
fn sum_of_costs_counts_arrival_times() {
    let inst = line_instance();
    // agent 0 goes 0 -> 1 -> 2 and stays; agent 1 leaves its goal and comes back
    let plan = vec![vec![0, 3], vec![1, 2], vec![2, 3], vec![2, 3]];
    // agent 0 is off its goal at times 0 and 1: arrival 2; agent 1 is off at time 1: arrival 2
    assert_eq!(compute_sum_of_costs(&plan, &inst), 4);
    assert_eq!(compute_sum_of_costs(&vec![], &inst), 0);
}

#[test]
fn sum_of_loss_counts_agents_not_resting() {
    let inst = line_instance();
    let plan = vec![vec![0, 3], vec![1, 2], vec![2, 3], vec![2, 3]];
    // step 0->1: both move (2); step 1->2: both (2); step 2->3: both rest at goals (0)
    assert_eq!(compute_sum_of_loss(&plan, &inst), 4);
    assert_eq!(compute_sum_of_loss(&vec![vec![0, 3]], &inst), 0);
}

#[test]
fn lower_bounds_from_distances() {
    let inst = line_instance();
    let mut dt = DistTable::new_lazy(&inst);
    assert_eq!(get_makespan_lower_bound(&inst, &mut dt), 2);
    assert_eq!(get_sum_of_costs_lower_bound(&inst, &mut dt), 2);
}

#[test]
fn lower_bounds_do_not_exceed_a_plan_costs() {
    let inst = line_instance();
    let plan = vec![vec![0, 3], vec![1, 2], vec![2, 3], vec![2, 3]];
    let mut dt = DistTable::new_lazy(&inst);
    assert!(get_makespan_lower_bound(&inst, &mut dt) <= compute_makespan(&plan));
    assert!(get_sum_of_costs_lower_bound(&inst, &mut dt) <= compute_sum_of_costs(&plan, &inst));
}

#[test]
fn write_config_lists_cells() {
    let g = Graph::from_array(vec![vec![true, false, true], vec![true, true, true]]).unwrap();
    let inst = Instance::new(g, vec![0, 4], vec![1, 2]);
    // vertex 0 = (0,0), 4 = (2,1), 1 = (2,0)
    assert_eq!(write_config(&[0, 4, 1], &inst), "(0,0),(2,1),(2,0)");
    assert_eq!(write_config(&[], &inst), "");
}

#[test]
fn metrics_of_a_plan_and_of_no_plan() {
    let inst = line_instance();
    let plan = vec![vec![0, 3], vec![1, 2], vec![2, 3], vec![2, 3]];
    let m = Metrics::from_outcome(&SolveOutcome::Solved(plan), &inst, 2_500_000, 7, 9);
    assert!(m.solved);
    assert_eq!((m.makespan, m.sum_of_costs, m.sum_of_loss), (3, 4, 4));
    assert_eq!((m.comp_time_ns, m.loop_count, m.seed), (2_500_000, 7, 9));
    let m = Metrics::from_outcome(&SolveOutcome::Timeout, &inst, 1, 2, 3);
    assert!(!m.solved);
    assert_eq!((m.makespan, m.sum_of_costs, m.sum_of_loss), (0, 0, 0));
}

#[test]
fn result_file_in_visualizer_format() {
    let inst = line_instance();
    let outcome = SolveOutcome::Solved(vec![vec![0, 3], vec![1, 3], vec![2, 3]]);
    let m = Metrics::from_outcome(&outcome, &inst, 12_345_678, 4, 0);
    let text = result_file_text(&inst, &outcome, &m, "maps/line.map");
    let expected = "agents=2\nmap_file=maps/line.map\nsolver=LaCAM\nsolved=1\nsoc=2\nsum_of_loss=2\nmakespan=2\n\
comp_time=12\nloop_cnt=4\nseed=0\nstarts=(0,0),(3,0)\ngoals=(2,0),(3,0)\nsolution=\n\
0:(0,0),(3,0)\n1:(1,0),(3,0)\n2:(2,0),(3,0)\n";
    assert_eq!(text, expected);
}

#[test]
fn result_file_without_plan() {
    let inst = line_instance();
    let outcome = SolveOutcome::NoSolution;
    let m = Metrics::from_outcome(&outcome, &inst, 0, 1, 5);
    let text = result_file_text(&inst, &outcome, &m, "m.map");
    assert!(text.starts_with("agents=2\nmap_file=m.map\nsolver=LaCAM\nsolved=0\nsoc=0\n"));
    assert!(text.ends_with("seed=5\nstarts=(0,0),(3,0)\ngoals=(2,0),(3,0)\nsolution=\n"));
}

#[test]
fn parse_usize_follows_from_str() {
    for s in ["0", "42", "+7", "007", "18446744073709551615", "", "+", "-1", "1a", "18446744073709551616", " 1"] {
        assert_eq!(parse_usize(&chars_of(s)), s.parse::<usize>().ok(), "{:?}", s);
    }
}

#[test]
fn chars_of_keeps_unicode() {
    assert_eq!(chars_of("aé€"), vec!['a', 'é', '€']);
}

#[test]
fn decimal_texts_match_display() {
    assert_eq!(lacam0_rs::error::decimal_text(0), "0");
    assert_eq!(lacam0_rs::error::decimal_text(1234567890123), "1234567890123");
    assert_eq!(lacam0_rs::error::signed_decimal_text(-42), "-42");
    assert_eq!(lacam0_rs::error::signed_decimal_text(i32::MIN), "-2147483648");
}
