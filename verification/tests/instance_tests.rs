use lacam0_rs::graph::Graph;
use lacam0_rs::{Instance, LacamError};

fn grid(rows: &[&str]) -> Vec<Vec<bool>> {
    rows.iter().map(|r| r.chars().map(|c| c == '.').collect()).collect()
}

fn parse_field(e: LacamError) -> String {
    match e {
        LacamError::Parse { field } => field,
        LacamError::Io(_) => panic!("unexpected io error"),
    }
}

#[test]
fn new_counts_agents_by_starts() {
    let g = Graph::from_array(grid(&["..."])).unwrap();
    let inst = Instance::new(g, vec![0, 1], vec![2, 1]);
    assert_eq!(inst.num_agents, 2);
    assert_eq!(inst.starts, vec![0, 1]);
    assert_eq!(inst.goals, vec![2, 1]);
}

#[test]
fn from_arrays_maps_coordinates_to_vertices() {
    // . . #
    // # . .
    let inst = Instance::from_arrays(grid(&["..#", "#.."]), vec![(0, 0), (1, 2)], vec![(1, 1), (0, 1)]).unwrap();
    assert_eq!(inst.num_agents, 2);
    assert_eq!(inst.starts, vec![0, 3]);
    assert_eq!(inst.goals, vec![2, 1]);
}

#[test]
fn from_arrays_length_mismatch() {
    let e = Instance::from_arrays(grid(&[".."]), vec![(0, 0), (0, 1)], vec![(0, 1)]).err().unwrap();
    assert_eq!(parse_field(e), "starts/goals length mismatch: 2 vs 1");
}

#[test]
fn from_arrays_out_of_bounds() {
    let e = Instance::from_arrays(grid(&["..", ".."]), vec![(0, 0), (2, 1)], vec![(0, 1), (1, 1)]).err().unwrap();
    assert_eq!(parse_field(e), "start #1 out of bounds: (y=2, x=1)");
}

#[test]
fn from_arrays_goal_on_obstacle() {
    let e = Instance::from_arrays(grid(&[".#", ".."]), vec![(0, 0)], vec![(0, 1)]).err().unwrap();
    assert_eq!(parse_field(e), "goal #0 is on obstacle: (y=0, x=1)");
}

#[test]
fn from_arrays_bad_row_comes_first() {
    let g = vec![vec![true, true], vec![true]];
    let e = Instance::from_arrays(g, vec![(5, 5)], vec![(0, 0)]).err().unwrap();
    assert_eq!(parse_field(e), "grid row 1 length 1 != width 2");
}

#[test]
fn coords_to_vertex_ids_reports_first_bad_entry() {
    let g = Graph::from_array(grid(&["..", "#."])).unwrap();
    let ids = Instance::coords_to_vertex_ids(&g, &[(0, 1), (1, 1)], "start").unwrap();
    assert_eq!(ids, vec![1, 2]);
    let e = Instance::coords_to_vertex_ids(&g, &[(0, 0), (1, 0), (9, 9)], "goal").err().unwrap();
    assert_eq!(parse_field(e), "goal #1 is on obstacle: (y=1, x=0)");
}

#[test]
fn from_random_draws_distinct_vertices() {
    let g = Graph::from_array(grid(&["....", ".#..", "...."])).unwrap();
    let n = g.size();
    let inst = Instance::from_random(g, 5, 42);
    assert_eq!(inst.num_agents, 5);
    assert_eq!(inst.starts.len(), 5);
    assert_eq!(inst.goals.len(), 5);
    for list in [&inst.starts, &inst.goals] {
        for (i, &a) in list.iter().enumerate() {
            assert!(a < n);
            for &b in &list[i + 1..] {
                assert_ne!(a, b);
            }
        }
    }
}

#[test]
fn from_random_is_capped_by_the_vertices() {
    let g = Graph::from_array(grid(&["..", "#."])).unwrap();
    let inst = Instance::from_random(g, 10, 1);
    assert_eq!(inst.num_agents, 10);
    assert_eq!(inst.starts.len(), 3);
    assert_eq!(inst.goals.len(), 3);
}

#[test]
fn from_random_same_seed_same_instance() {
    let a = Instance::from_random(Graph::from_array(grid(&["....", "...."])).unwrap(), 3, 7);
    let b = Instance::from_random(Graph::from_array(grid(&["....", "...."])).unwrap(), 3, 7);
    assert_eq!(a.starts, b.starts);
    assert_eq!(a.goals, b.goals);
}

fn scen_line(xs: usize, ys: usize, xg: usize, yg: usize) -> String {
    format!("0\tmaps/test.map\t4\t3\t{}\t{}\t{}\t{}\t5.0", xs, ys, xg, yg)
}

#[test]
fn from_scen_lines_reads_agents() {
    let g = Graph::from_array(grid(&["....", ".#..", "...."])).unwrap();
    let lines = vec![
        "version 1".to_string(),
        scen_line(0, 0, 3, 2),
        scen_line(3, 0, 0, 2),
        scen_line(2, 2, 2, 0),
    ];
    let inst = Instance::from_scen_lines(g, &lines, 2).unwrap();
    assert_eq!(inst.num_agents, 2);
    // (x, y) -> vertex: row 0 is 0..4, row 1 has 4 (x=0), 5 (x=2), 6 (x=3), row 2 is 7..11
    assert_eq!(inst.starts, vec![0, 3]);
    assert_eq!(inst.goals, vec![10, 7]);
}

#[test]
fn from_scen_lines_skips_blocked_and_outside_cells() {
    let g = Graph::from_array(grid(&["....", ".#..", "...."])).unwrap();
    let lines = vec![
        scen_line(1, 1, 0, 0), // start on the wall
        scen_line(9, 0, 0, 0), // outside the grid
        scen_line(0, 1, 3, 1),
        format!("{}\r", scen_line(2, 1, 0, 0)),
    ];
    let inst = Instance::from_scen_lines(g, &lines, 5).unwrap();
    assert_eq!(inst.num_agents, 5);
    assert_eq!(inst.starts, vec![4, 5]);
    assert_eq!(inst.goals, vec![6, 0]);
}

#[test]
fn from_scen_lines_huge_number_is_refused() {
    let g = Graph::from_array(grid(&["...."])).unwrap();
    let lines = vec!["0\tm.map\t4\t1\t99999999999999999999999\t0\t1\t0\t3.0".to_string()];
    assert!(Instance::from_scen_lines(g, &lines, 1).is_none());
}

#[test]
fn from_scen_lines_stops_after_enough_agents() {
    let g = Graph::from_array(grid(&["...."])).unwrap();
    let lines = vec![
        scen_line(0, 0, 1, 0),
        "0\tm.map\t4\t1\t99999999999999999999999\t0\t1\t0\t3.0".to_string(),
    ];
    let inst = Instance::from_scen_lines(g, &lines, 1).unwrap();
    assert_eq!(inst.starts, vec![0]);
    assert_eq!(inst.goals, vec![1]);
}
