use lacam0_rs::graph::Graph;
use lacam0_rs::map_file::{check_map_fits, read_map_header};
use lacam0_rs::LacamError;

fn lines(text: &str) -> Vec<String> {
    text.lines().map(|l| l.to_string()).collect()
}

fn parse_field(e: LacamError) -> String {
    match e {
        LacamError::Parse { field } => field,
        LacamError::Io(_) => panic!("unexpected io error"),
    }
}

#[test]
fn header_reads_height_width_and_map_line() {
    let ls = lines("type octile\nheight 3\nwidth 4\nmap\n....\n.@..\n..T.\n");
    let hd = read_map_header(&ls).unwrap();
    assert_eq!(hd.height, 3);
    assert_eq!(hd.width, 4);
    assert_eq!(hd.rows_start, 4);
}

#[test]
fn header_without_map_line_runs_to_the_end() {
    let ls = lines("height 2\nwidth 2\n");
    let hd = read_map_header(&ls).unwrap();
    assert_eq!((hd.height, hd.width, hd.rows_start), (2, 2, 2));
}

#[test]
fn header_number_too_large_is_an_error() {
    let ls = lines("height 99999999999999999999999\nwidth 2\nmap\n");
    assert_eq!(parse_field(read_map_header(&ls).err().unwrap()), "height");
    let ls = lines("height 2\nwidth 123456789012345678901234567890\nmap\n");
    assert_eq!(parse_field(read_map_header(&ls).err().unwrap()), "width");
}

#[test]
fn map_with_crlf_lines() {
    let ls: Vec<String> = vec![
        "type octile\r".to_string(),
        "height 2\r".to_string(),
        "width 3\r".to_string(),
        "map\r".to_string(),
        ".@.\r".to_string(),
        "...\r".to_string(),
    ];
    let g = Graph::from_map_lines(&ls).unwrap().unwrap();
    assert_eq!(g.width(), 3);
    assert_eq!(g.height(), 2);
    assert_eq!(g.size(), 5);
    assert_eq!(g.grid, vec![Some(0), None, Some(1), Some(2), Some(3), Some(4)]);
}

#[test]
fn map_rows_trees_and_walls_are_blocked() {
    let ls = lines("height 2\nwidth 3\nmap\nT.@\n.T.\n");
    let g = Graph::from_map_lines(&ls).unwrap().unwrap();
    assert_eq!(g.grid, vec![None, Some(0), None, Some(1), None, Some(2)]);
    // the middle cell of the top row has no passable neighbour
    assert!(g.get_neighbors(0).is_empty());
}

#[test]
fn short_and_missing_rows_are_blocked() {
    let ls = lines("height 3\nwidth 3\nmap\n.\n...\n");
    let g = Graph::from_map_lines(&ls).unwrap().unwrap();
    assert_eq!(
        g.grid,
        vec![Some(0), None, None, Some(1), Some(2), Some(3), None, None, None]
    );
}

#[test]
fn characters_past_the_width_are_ignored() {
    let ls = lines("height 1\nwidth 2\nmap\n.....\n");
    let g = Graph::from_map_lines(&ls).unwrap().unwrap();
    assert_eq!(g.size(), 2);
}

#[test]
fn passable_row_past_the_height_does_not_fit() {
    let ls = lines("height 1\nwidth 2\nmap\n..\n..\n");
    let hd = read_map_header(&ls).unwrap();
    assert!(!check_map_fits(&ls, &hd));
    assert!(Graph::from_map_lines(&ls).is_none());
    // a blocked extra row is fine
    let ls = lines("height 1\nwidth 2\nmap\n..\n@@\n");
    assert!(Graph::from_map_lines(&ls).unwrap().is_ok());
}

#[test]
fn header_error_comes_back() {
    let ls = lines("height 1x\nwidth 99999999999999999999999999\nmap\n");
    let e = Graph::from_map_lines(&ls).unwrap().err().unwrap();
    assert_eq!(parse_field(e), "width");
}

#[test]
fn map_file_and_array_give_the_same_graph() {
    let ls = lines("type octile\nheight 3\nwidth 4\nmap\n....\n.@..\n..T.\n");
    let from_file = Graph::from_map_lines(&ls).unwrap().unwrap();
    let rows = vec![
        vec![true, true, true, true],
        vec![true, false, true, true],
        vec![true, true, false, true],
    ];
    let from_array = Graph::from_array(rows).unwrap();
    assert_eq!(from_file.grid, from_array.grid);
    assert_eq!((from_file.width, from_file.height), (from_array.width, from_array.height));
    assert_eq!(from_file.vertices.len(), from_array.vertices.len());
    for (a, b) in from_file.vertices.iter().zip(from_array.vertices.iter()) {
        assert_eq!((a.id, a.index, a.x, a.y), (b.id, b.index, b.x, b.y));
        assert_eq!(a.neighbors, b.neighbors);
        assert_eq!(a.actions, b.actions);
    }
}
