use lacam0_rs::graph::{Graph, Vertex};
use lacam0_rs::LacamError;

fn grid(rows: &[&str]) -> Vec<Vec<bool>> {
    rows.iter().map(|r| r.chars().map(|c| c == '.').collect()).collect()
}

fn parse_field(e: LacamError) -> String {
    match e {
        LacamError::Parse { field } => field,
        LacamError::Io(_) => panic!("unexpected io error"),
    }
}

#[test]
fn vertex_new_has_no_neighbours() {
    let v = Vertex::new(3, 7, 2, 1);
    assert_eq!(v.id, 3);
    assert_eq!(v.index, 7);
    assert_eq!(v.x, 2);
    assert_eq!(v.y, 1);
    assert!(v.neighbors.is_empty());
    assert!(v.actions.is_empty());
}

#[test]
fn graph_new_is_empty() {
    let g = Graph::new();
    assert_eq!(g.size(), 0);
    assert_eq!(g.width(), 0);
    assert_eq!(g.height(), 0);
    assert!(g.grid.is_empty());
}

#[test]
fn from_array_numbers_passable_cells_row_major() {
    // . . #
    // # . .
    let g = Graph::from_array(grid(&["..#", "#.."])).unwrap();
    assert_eq!(g.size(), 4);
    assert_eq!(g.width(), 3);
    assert_eq!(g.height(), 2);
    assert_eq!(g.grid, vec![Some(0), Some(1), None, None, Some(2), Some(3)]);
    let v2 = g.get_vertex(2).unwrap();
    assert_eq!((v2.x, v2.y, v2.index), (1, 1, 4));
}

#[test]
fn from_array_neighbours_left_right_down_up() {
    // 3x3 open grid, centre is vertex 4
    let g = Graph::from_array(grid(&["...", "...", "..."])).unwrap();
    assert_eq!(g.get_neighbors(4), &[3, 5, 7, 1]);
    assert_eq!(g.get_actions(4), &[3, 5, 7, 1, 4]);
    // corner (0,0): right and down
    assert_eq!(g.get_neighbors(0), &[1, 3]);
    assert_eq!(g.get_actions(0), &[1, 3, 0]);
}

#[test]
fn from_array_blocked_cells_are_not_neighbours() {
    let g = Graph::from_array(grid(&[".#.", "..."])).unwrap();
    // vertex 0 at (0,0): right is blocked, down is (0,1) = vertex 2
    assert_eq!(g.get_neighbors(0), &[2]);
    // vertex 1 at (2,0): left blocked, down (2,1) = vertex 4
    assert_eq!(g.get_neighbors(1), &[4]);
}

#[test]
fn adjacency_is_symmetric_on_an_example() {
    let g = Graph::from_array(grid(&["..#.", "....", ".#.."])).unwrap();
    for u in 0..g.size() {
        for &v in g.get_neighbors(u) {
            assert!(g.get_neighbors(v).contains(&u), "{} -> {} has no way back", u, v);
        }
    }
}

#[test]
fn from_array_row_length_error_names_first_bad_row() {
    let g = vec![vec![true, true], vec![true, true], vec![true], vec![true, true, true]];
    let e = Graph::from_array(g).err().unwrap();
    assert_eq!(parse_field(e), "grid row 2 length 1 != width 2");
}

#[test]
fn unknown_vertex_has_no_neighbours() {
    let g = Graph::from_array(grid(&[".."])).unwrap();
    assert!(g.get_vertex(2).is_none());
    assert!(g.get_neighbors(2).is_empty());
    assert!(g.get_actions(99).is_empty());
}

#[test]
fn single_cell_graph_has_only_waiting() {
    let g = Graph::from_array(grid(&["."])).unwrap();
    assert_eq!(g.size(), 1);
    assert!(g.get_neighbors(0).is_empty());
    assert_eq!(g.get_actions(0), &[0]);
}
