use regex::Regex;
use vstd::prelude::*;

use crate::error::{decimal, decimal_text, is_parse_error, LacamError};
use crate::dist_table::bfs_row;
use crate::graph::{reachable, rows_view, rows_width_upto, Config, Graph};
use crate::map_file::trim_cr_str;
use crate::random::{seeded_rng, shuffle};
use crate::text::{chars_of, parse_usize, parsed_usize, trim_cr};

verus! {

/// A multi-agent path finding problem: a graph, and a start and a goal vertex per agent.
#[derive(Debug)]
pub struct Instance {
    pub graph: Graph,
    pub starts: Config,
    pub goals: Config,
    pub num_agents: usize,
}

impl Instance {
    /// A well-formed instance: a well-formed graph small enough for 32-bit distances,
    /// and a start and a goal vertex for each agent.
    pub open spec fn wf(&self) -> bool {
        &&& self.graph.wf()
        &&& self.graph.vertices@.len() <= i32::MAX
        &&& self.starts@.len() == self.num_agents
        &&& self.goals@.len() == self.num_agents
        &&& forall|i: int| 0 <= i < self.num_agents ==> #[trigger] self.starts@[i] < self.graph.vertices@.len()
        &&& forall|i: int| 0 <= i < self.num_agents ==> #[trigger] self.goals@[i] < self.graph.vertices@.len()
    }

    /// Every agent can walk from its start to its goal.
    pub open spec fn connected(&self) -> bool {
        forall|i: int|
            0 <= i < self.num_agents ==> #[trigger] reachable(
                self.graph,
                self.goals@[i] as int,
                self.starts@[i] as int,
            )
    }
}

/// The text of the error for start and goal lists of different lengths.
pub open spec fn mismatch_text(a: nat, b: nat) -> Seq<char> {
    "starts/goals length mismatch: "@ + decimal(a) + " vs "@ + decimal(b)
}

/// The text of the error for coordinates `(y, x)` outside the grid, at entry `i` of the list
/// named `label`.
pub open spec fn out_of_bounds_text(label: Seq<char>, i: nat, y: nat, x: nat) -> Seq<char> {
    label + " #"@ + decimal(i) + " out of bounds: (y="@ + decimal(y) + ", x="@ + decimal(x) + ")"@
}

/// The text of the error for coordinates `(y, x)` on a blocked cell, at entry `i` of the list
/// named `label`.
pub open spec fn on_obstacle_text(label: Seq<char>, i: nat, y: nat, x: nat) -> Seq<char> {
    label + " #"@ + decimal(i) + " is on obstacle: (y="@ + decimal(y) + ", x="@ + decimal(x) + ")"@
}

/// Formats the error text for start and goal lists of different lengths.
fn mismatch_message(a: usize, b: usize) -> (s: String)
    ensures
        s@ == mismatch_text(a as nat, b as nat),
{
    let mut s = String::from_str("starts/goals length mismatch: ");
    s.append(decimal_text(a as u128).as_str());
    s.append(" vs ");
    s.append(decimal_text(b as u128).as_str());
    s
}

/// Formats the error text for coordinates outside the grid.
fn out_of_bounds_message(label: &str, i: usize, y: usize, x: usize) -> (s: String)
    ensures
        s@ == out_of_bounds_text(label@, i as nat, y as nat, x as nat),
{
    let mut s = String::from_str(label);
    s.append(" #");
    s.append(decimal_text(i as u128).as_str());
    s.append(" out of bounds: (y=");
    s.append(decimal_text(y as u128).as_str());
    s.append(", x=");
    s.append(decimal_text(x as u128).as_str());
    s.append(")");
    s
}

/// Formats the error text for coordinates on a blocked cell.
fn on_obstacle_message(label: &str, i: usize, y: usize, x: usize) -> (s: String)
    ensures
        s@ == on_obstacle_text(label@, i as nat, y as nat, x as nat),
{
    let mut s = String::from_str(label);
    s.append(" #");
    s.append(decimal_text(i as u128).as_str());
    s.append(" is on obstacle: (y=");
    s.append(decimal_text(y as u128).as_str());
    s.append(", x=");
    s.append(decimal_text(x as u128).as_str());
    s.append(")");
    s
}

/// The coordinates `c = (y, x)` name a passable cell of `g`.
pub open spec fn coord_ok(g: Graph, c: (usize, usize)) -> bool {
    &&& c.0 < g.height
    &&& c.1 < g.width
    &&& g.cell(c.1 as int, c.0 as int) is Some
}

/// The error for entry `i` of the list `label` whose coordinates `c` do not name a passable
/// cell of `g`.
pub open spec fn coord_error_text(g: Graph, label: Seq<char>, i: nat, c: (usize, usize)) -> Seq<char> {
    if c.0 >= g.height || c.1 >= g.width {
        out_of_bounds_text(label, i, c.0 as nat, c.1 as nat)
    } else {
        on_obstacle_text(label, i, c.0 as nat, c.1 as nat)
    }
}

/// `e` reports the first entry of `coords` that does not name a passable cell of `g`.
pub open spec fn first_coord_error(g: Graph, label: Seq<char>, coords: Seq<(usize, usize)>, e: LacamError) -> bool {
    exists|k: int|
        0 <= k < coords.len() && (forall|j: int| 0 <= j < k ==> coord_ok(g, #[trigger] coords[j])) && !coord_ok(
            g,
            #[trigger] coords[k],
        ) && is_parse_error(e, coord_error_text(g, label, k as nat, coords[k]))
}

impl Instance {
    /// The instance on `graph` with the given starts and goals, one agent per start.
    pub fn new(graph: Graph, starts: Vec<usize>, goals: Vec<usize>) -> (inst: Self)
        ensures
            inst.graph == graph,
            inst.starts == starts,
            inst.goals == goals,
            inst.num_agents == starts@.len(),
    {
        let num_agents = starts.len();
        Instance { graph, starts, goals, num_agents }
    }

    /// The vertices on the cells `coords`, given as `(y, x)`; the first entry outside the grid
    /// or on a blocked cell gives the error, naming the list by `label`.
    pub fn coords_to_vertex_ids(graph: &Graph, coords: &[(usize, usize)], label: &str) -> (r: Result<
        Vec<usize>,
        LacamError,
    >)
        requires
            graph.grid@.len() == graph.width * graph.height,
        ensures
            match r {
                Ok(ids) => {
                    &&& ids@.len() == coords@.len()
                    &&& forall|k: int|
                        0 <= k < coords@.len() ==> coord_ok(*graph, #[trigger] coords@[k]) && Some(ids@[k])
                            == graph.cell(coords@[k].1 as int, coords@[k].0 as int)
                },
                Err(e) => first_coord_error(*graph, label@, coords@, e),
            },
    {
        let mut ids: Vec<usize> = Vec::new();
        let mut i: usize = 0;
        while i < coords.len()
            invariant
                graph.grid@.len() == graph.width * graph.height,
                0 <= i <= coords@.len(),
                ids@.len() == i,
                forall|k: int|
                    0 <= k < i ==> coord_ok(*graph, #[trigger] coords@[k]) && Some(ids@[k]) == graph.cell(
                        coords@[k].1 as int,
                        coords@[k].0 as int,
                    ),
            decreases coords@.len() - i,
        {
            let (y, x) = coords[i];
            if y >= graph.height || x >= graph.width {
                let e = LacamError::Parse { field: out_of_bounds_message(label, i, y, x) };
                proof {
                    assert(!coord_ok(*graph, coords@[i as int]));
                    assert(forall|j: int| 0 <= j < i ==> coord_ok(*graph, #[trigger] coords@[j]));
                }
                return Err(e);
            }
            let cells = graph.grid.len();
            proof {
                assert(y * graph.width + x < graph.width * graph.height) by (nonlinear_arith)
                    requires
                        y < graph.height,
                        x < graph.width,
                ;
                assert(graph.width * y == y * graph.width) by (nonlinear_arith);
                assert(graph.width * y <= y * graph.width + x);
                assert(cells == graph.width * graph.height);
            }
            let index = graph.width * y + x;
            proof {
                assert(index == y * graph.width + x) by (nonlinear_arith)
                    requires
                        index == graph.width * y + x,
                ;
            }
            match graph.grid[index] {
                Some(vertex_id) => {
                    ids.push(vertex_id);
                },
                None => {
                    let e = LacamError::Parse { field: on_obstacle_message(label, i, y, x) };
                    proof {
                        assert(!coord_ok(*graph, coords@[i as int]));
                        assert(forall|j: int| 0 <= j < i ==> coord_ok(*graph, #[trigger] coords@[j]));
                    }
                    return Err(e);
                },
            }
            i += 1;
        }
        Ok(ids)
    }
}


/// The cell at `c = (y, x)` of the grid `rows` (one `true` per passable cell) is inside the
/// grid and passable.
pub open spec fn coord_in_rows(rows: Seq<Seq<bool>>, c: (usize, usize)) -> bool {
    &&& c.0 < rows.len()
    &&& c.1 < rows[0].len()
    &&& rows[c.0 as int][c.1 as int]
}

/// Every entry of `coords` names a passable cell of `rows`.
pub open spec fn coords_in_rows(rows: Seq<Seq<bool>>, coords: Seq<(usize, usize)>) -> bool {
    forall|k: int| 0 <= k < coords.len() ==> coord_in_rows(rows, #[trigger] coords[k])
}

impl Instance {
    /// The instance on the grid `grid` (rows of cells, `true` for passable) with agents going
    /// from `starts` to `goals`, both given as `(y, x)`.
    ///
    /// Fails when the lists differ in length, when a row of the grid is not as long as the
    /// first, or at the first start, then the first goal, outside the grid or on a blocked cell.
    pub fn from_arrays(grid: Vec<Vec<bool>>, starts: Vec<(usize, usize)>, goals: Vec<(usize, usize)>) -> (r: Result<
        Self,
        LacamError,
    >)
        requires
            starts@.len() == goals@.len() ==> {
                &&& grid@.len() > 0
                &&& grid@.len() <= i32::MAX
                &&& grid@[0]@.len() <= i32::MAX
                &&& grid@.len() * grid@[0]@.len() <= usize::MAX
            },
        ensures
            ({
                let rows = rows_view(grid@);
                match r {
                    Ok(inst) => {
                        &&& starts@.len() == goals@.len()
                        &&& rows_width_upto(rows, rows[0].len(), rows.len() as int)
                        &&& coords_in_rows(rows, starts@)
                        &&& coords_in_rows(rows, goals@)
                        &&& inst.graph.wf()
                        &&& inst.graph.matches_rows(rows)
                        &&& inst.num_agents == starts@.len()
                        &&& inst.starts@.len() == starts@.len()
                        &&& inst.goals@.len() == goals@.len()
                        &&& forall|k: int|
                            0 <= k < starts@.len() ==> Some(#[trigger] inst.starts@[k]) == inst.graph.cell(
                                starts@[k].1 as int,
                                starts@[k].0 as int,
                            )
                        &&& forall|k: int|
                            0 <= k < goals@.len() ==> Some(#[trigger] inst.goals@[k]) == inst.graph.cell(
                                goals@[k].1 as int,
                                goals@[k].0 as int,
                            )
                    },
                    Err(e) => if starts@.len() != goals@.len() {
                        is_parse_error(e, mismatch_text(starts@.len(), goals@.len()))
                    } else {
                        ||| exists|y: int|
                            {
                                &&& 0 < y < rows.len()
                                &&& rows_width_upto(rows, rows[0].len(), y)
                                &&& #[trigger] rows[y].len() != rows[0].len()
                                &&& is_parse_error(
                                    e,
                                    crate::graph::row_length_text(y as nat, rows[y].len(), rows[0].len()),
                                )
                            }
                        ||| exists|g: Graph|
                            {
                                &&& rows_width_upto(rows, rows[0].len(), rows.len() as int)
                                &&& #[trigger] g.matches_rows(rows)
                                &&& g.wf()
                                &&& {
                                    ||| first_coord_error(g, "start"@, starts@, e)
                                    ||| coords_in_rows(rows, starts@) && first_coord_error(g, "goal"@, goals@, e)
                                }
                            }
                    },
                }
            }),
    {
        if starts.len() != goals.len() {
            return Err(LacamError::Parse { field: mismatch_message(starts.len(), goals.len()) });
        }
        let ghost rows = rows_view(grid@);
        let ghost g0 = grid@;
        let graph = match Graph::from_array(grid) {
            Ok(g) => g,
            Err(e) => {
                proof {
                    let y = choose|y: int|
                        {
                            &&& 0 < y < g0.len()
                            &&& rows_width_upto(rows_view(g0), g0[0]@.len(), y)
                            &&& #[trigger] g0[y]@.len() != g0[0]@.len()
                            &&& is_parse_error(e, crate::graph::row_length_text(y as nat, g0[y]@.len(), g0[0]@.len()))
                        };
                    assert(rows[y] == g0[y]@);
                    assert(rows[0] == g0[0]@);
                }
                return Err(e);
            },
        };
        let num_agents = starts.len();
        proof {
            Instance::lemma_coords_in_rows(graph, rows, starts@);
            Instance::lemma_coords_in_rows(graph, rows, goals@);
            assert(graph.grid@.len() == graph.width * graph.height);
        }
        let starts_ids = match Instance::coords_to_vertex_ids(&graph, starts.as_slice(), "start") {
            Ok(ids) => ids,
            Err(e) => {
                return Err(e);
            },
        };
        let goals_ids = match Instance::coords_to_vertex_ids(&graph, goals.as_slice(), "goal") {
            Ok(ids) => ids,
            Err(e) => {
                return Err(e);
            },
        };
        Ok(Instance { graph, starts: starts_ids, goals: goals_ids, num_agents })
    }

    /// On a graph built from `rows`, coordinates name a passable cell exactly when they do in
    /// the rows.
    proof fn lemma_coords_in_rows(g: Graph, rows: Seq<Seq<bool>>, coords: Seq<(usize, usize)>)
        requires
            g.matches_rows(rows),
            rows.len() > 0,
        ensures
            forall|k: int| 0 <= k < coords.len() ==> coord_ok(g, #[trigger] coords[k]) == coord_in_rows(rows, coords[k]),
            coords_in_rows(rows, coords) == (forall|k: int| 0 <= k < coords.len() ==> coord_ok(g, #[trigger] coords[k])),
    {
        assert forall|k: int| 0 <= k < coords.len() implies coord_ok(g, #[trigger] coords[k]) == coord_in_rows(
            rows,
            coords[k],
        ) by {
            let c = coords[k];
            if c.0 < g.height && c.1 < g.width {
                assert(g.cell(c.1 as int, c.0 as int) is Some <==> rows[c.0 as int][c.1 as int]);
            }
        }
    }
}


/// The numbers `0..k` in increasing order.
fn range_vec(k: usize) -> (v: Vec<usize>)
    ensures
        v@.len() == k,
        forall|i: int| 0 <= i < k ==> #[trigger] v@[i] == i,
{
    let mut v: Vec<usize> = Vec::new();
    let mut i: usize = 0;
    while i < k
        invariant
            0 <= i <= k,
            v@.len() == i,
            forall|j: int| 0 <= j < i ==> #[trigger] v@[j] == j,
        decreases k - i,
    {
        v.push(i);
        i += 1;
    }
    v
}

/// The first `n` items of `v` (all of them if there are fewer).
fn take_first(v: &Vec<usize>, n: usize) -> (r: Vec<usize>)
    ensures
        r@ == v@.subrange(0, if n < v@.len() { n as int } else { v@.len() as int }),
{
    let m = if n < v.len() {
        n
    } else {
        v.len()
    };
    let mut r: Vec<usize> = Vec::new();
    let mut i: usize = 0;
    while i < m
        invariant
            0 <= i <= m <= v@.len(),
            r@ == v@.subrange(0, i as int),
        decreases m - i,
    {
        r.push(v[i]);
        assert(r@ =~= v@.subrange(0, i + 1));
        i += 1;
    }
    r
}

/// A random order of `0..k`: a sequence of those numbers, each once.
proof fn lemma_shuffled_range(s: Seq<usize>, k: usize, r: Seq<usize>)
    requires
        r.len() == k,
        forall|i: int| 0 <= i < k ==> #[trigger] r[i] == i,
        s.to_multiset() == r.to_multiset(),
    ensures
        s.len() == k,
        s.no_duplicates(),
        forall|i: int| 0 <= i < s.len() ==> #[trigger] s[i] < k,
{
    s.to_multiset_ensures();
    r.to_multiset_ensures();
    assert(r.no_duplicates());
    r.lemma_multiset_has_no_duplicates();
    s.lemma_multiset_has_no_duplicates_conv();
    assert forall|i: int| 0 <= i < s.len() implies #[trigger] s[i] < k by {
        assert(s.contains(s[i]));
        assert(s.to_multiset().count(s[i]) > 0);
        assert(r.contains(s[i]));
    }
}

impl Instance {
    /// An instance on `graph` with `num_agents` agents whose starts, and whose goals, are
    /// different vertices drawn at random from `seed` (as many as there are vertices, if fewer).
    pub fn from_random(graph: Graph, num_agents: usize, seed: u64) -> (inst: Self)
        ensures
            inst.graph == graph,
            inst.num_agents == num_agents,
            inst.starts@.len() == if num_agents < graph.vertices@.len() {
                num_agents as nat
            } else {
                graph.vertices@.len()
            },
            inst.goals@.len() == inst.starts@.len(),
            inst.starts@.no_duplicates(),
            inst.goals@.no_duplicates(),
            forall|i: int| 0 <= i < inst.starts@.len() ==> #[trigger] inst.starts@[i] < graph.vertices@.len(),
            forall|i: int| 0 <= i < inst.goals@.len() ==> #[trigger] inst.goals@[i] < graph.vertices@.len(),
    {
        let k = graph.vertices.len();
        let mut rng = seeded_rng(seed);
        let mut s_indexes = range_vec(k);
        let ghost r0 = s_indexes@;
        shuffle(&mut s_indexes, &mut rng);
        let mut g_indexes = range_vec(k);
        assert(g_indexes@ =~= r0);
        shuffle(&mut g_indexes, &mut rng);
        proof {
            lemma_shuffled_range(s_indexes@, k, r0);
            lemma_shuffled_range(g_indexes@, k, r0);
        }
        let starts = take_first(&s_indexes, num_agents);
        let goals = take_first(&g_indexes, num_agents);
        proof {
            assert forall|i: int, j: int| 0 <= i < j < starts@.len() implies starts@[i] != starts@[j] by {
                assert(starts@[i] == s_indexes@[i] && starts@[j] == s_indexes@[j]);
            }
            assert forall|i: int, j: int| 0 <= i < j < goals@.len() implies goals@[i] != goals@[j] by {
                assert(goals@[i] == g_indexes@[i] && goals@[j] == g_indexes@[j]);
            }
            assert forall|i: int| 0 <= i < starts@.len() implies #[trigger] starts@[i] < k by {
                assert(starts@[i] == s_indexes@[i]);
            }
            assert forall|i: int| 0 <= i < goals@.len() implies #[trigger] goals@[i] < k by {
                assert(goals@[i] == g_indexes@[i]);
            }
        }
        Instance { graph, starts, goals, num_agents }
    }
}

/// What the regular expression `\d+\t.+\.map\t\d+\t\d+\t(\d+)\t(\d+)\t(\d+)\t(\d+)\t.+` captures
/// in a line of a scenario file: the start's x and y and the goal's x and y, as digits.
pub uninterp spec fn scen_capture(line: Seq<char>) -> Option<(Seq<char>, Seq<char>, Seq<char>, Seq<char>)>;

/// `Regex::captures` with the pattern of a scenario line on `line`: its four groups.
#[verifier::external_body]
fn scen_fields(line: &str) -> (r: Option<(String, String, String, String)>)
    ensures
        match r {
            Some((a, b, c, d)) => scen_capture(line@) == Some((a@, b@, c@, d@)),
            None => scen_capture(line@) is None,
        },
{
    let re = Regex::new(r"\d+\t.+\.map\t\d+\t\d+\t(\d+)\t(\d+)\t(\d+)\t(\d+)\t.+").unwrap();
    match re.captures(line) {
        Some(caps) => Some((caps[1].to_string(), caps[2].to_string(), caps[3].to_string(), caps[4].to_string())),
        None => None,
    }
}

/// What a line of a scenario file gives on `g`: `None` when it captures a number that is not
/// a `usize`; otherwise the start and goal vertices of an agent when both cells are inside the
/// grid and passable, or no agent.
pub open spec fn scen_entry(g: Graph, line: Seq<char>) -> Option<Option<(usize, usize)>> {
    match scen_capture(line) {
        None => Some(None),
        Some((a, b, c, d)) => match (parsed_usize(a), parsed_usize(b), parsed_usize(c), parsed_usize(d)) {
            (Some(xs), Some(ys), Some(xg), Some(yg)) => if xs >= g.width || xg >= g.width || ys >= g.height
                || yg >= g.height {
                Some(None)
            } else {
                match (g.cell(xs as int, ys as int), g.cell(xg as int, yg as int)) {
                    (Some(s), Some(t)) => Some(Some((s, t))),
                    _ => Some(None),
                }
            },
            _ => None,
        },
    }
}

/// Reading a scenario from line `i` on, with the agents found so far, until `n` agents are
/// found or the lines run out: the starts and goals, or `None` for a number that is not a
/// `usize`.
pub open spec fn scen_from(g: Graph, lines: Seq<String>, i: int, n: usize, starts: Seq<usize>, goals: Seq<usize>) -> Option<
    (Seq<usize>, Seq<usize>),
>
    decreases lines.len() - i,
{
    if i < 0 || i >= lines.len() {
        Some((starts, goals))
    } else {
        match scen_entry(g, trim_cr(lines[i]@)) {
            None => None,
            Some(entry) => {
                let s2 = match entry {
                    Some((s, _)) => starts.push(s),
                    None => starts,
                };
                let g2 = match entry {
                    Some((_, t)) => goals.push(t),
                    None => goals,
                };
                if s2.len() == n {
                    Some((s2, g2))
                } else {
                    scen_from(g, lines, i + 1, n, s2, g2)
                }
            },
        }
    }
}

impl Instance {
    /// The agent of one scenario line on `graph`, from its captured numbers.
    fn scen_line_agent(graph: &Graph, line: &str) -> (r: Option<Option<(usize, usize)>>)
        requires
            graph.wf(),
        ensures
            r == scen_entry(*graph, line@),
    {
        match scen_fields(line) {
            None => Some(None),
            Some((a, b, c, d)) => {
                let xs = parse_usize(&chars_of(a.as_str()));
                let ys = parse_usize(&chars_of(b.as_str()));
                let xg = parse_usize(&chars_of(c.as_str()));
                let yg = parse_usize(&chars_of(d.as_str()));
                match (xs, ys, xg, yg) {
                    (Some(x_s), Some(y_s), Some(x_g), Some(y_g)) => {
                        if x_s >= graph.width || x_g >= graph.width || y_s >= graph.height || y_g >= graph.height {
                            return Some(None);
                        }
                        let cells = graph.grid.len();
                        proof {
                            assert(y_s * graph.width + x_s < graph.width * graph.height) by (nonlinear_arith)
                                requires
                                    y_s < graph.height,
                                    x_s < graph.width,
                            ;
                            assert(y_g * graph.width + x_g < graph.width * graph.height) by (nonlinear_arith)
                                requires
                                    y_g < graph.height,
                                    x_g < graph.width,
                            ;
                            assert(graph.width * y_s == y_s * graph.width) by (nonlinear_arith);
                            assert(graph.width * y_g == y_g * graph.width) by (nonlinear_arith);
                        }
                        let start_index = graph.width * y_s + x_s;
                        let goal_index = graph.width * y_g + x_g;
                        match (graph.grid[start_index], graph.grid[goal_index]) {
                            (Some(s), Some(t)) => Some(Some((s, t))),
                            _ => Some(None),
                        }
                    },
                    _ => None,
                }
            },
        }
    }

    /// The instance on `graph` with the first `num_agents` agents of the scenario file whose
    /// lines are `lines` (fewer if the file has fewer usable lines). A line gives an agent when
    /// both its start and its goal are passable cells inside the grid; `None` when a line
    /// captures a number that is not a `usize`.
    pub fn from_scen_lines(graph: Graph, lines: &Vec<String>, num_agents: usize) -> (r: Option<Self>)
        requires
            graph.wf(),
        ensures
            match scen_from(graph, lines@, 0, num_agents, Seq::empty(), Seq::empty()) {
                None => r is None,
                Some((s, g)) => r matches Some(inst) && inst.graph == graph && inst.starts@ == s && inst.goals@
                    == g && inst.num_agents == num_agents,
            },
    {
        let mut starts: Vec<usize> = Vec::new();
        let mut goals: Vec<usize> = Vec::new();
        let mut i: usize = 0;
        let mut done = false;
        while i < lines.len() && !done
            invariant
                graph.wf(),
                0 <= i <= lines@.len(),
                done ==> scen_from(graph, lines@, 0, num_agents, Seq::empty(), Seq::empty()) == Some::<
                    (Seq<usize>, Seq<usize>),
                >((starts@, goals@)),
                !done ==> scen_from(graph, lines@, 0, num_agents, Seq::empty(), Seq::empty()) == scen_from(
                    graph,
                    lines@,
                    i as int,
                    num_agents,
                    starts@,
                    goals@,
                ),
            decreases lines@.len() - i,
        {
            let line = trim_cr_str(lines[i].as_str());
            match Instance::scen_line_agent(&graph, line) {
                None => {
                    return None;
                },
                Some(entry) => {
                    if let Some((s, t)) = entry {
                        starts.push(s);
                        goals.push(t);
                    }
                    if starts.len() == num_agents {
                        done = true;
                    }
                },
            }
            i += 1;
        }
        Some(Instance { graph, starts, goals, num_agents })
    }
}


impl Instance {
    /// Whether the instance on a well-formed graph can be handed to the solver: the graph is
    /// small enough for 32-bit distances, every agent has a start and a goal vertex, and every
    /// agent can walk from its start to its goal.
    pub fn ready_to_solve(&self) -> (r: bool)
        requires
            self.graph.wf(),
        ensures
            r == (self.wf() && self.connected()),
    {
        let nv = self.graph.vertices.len();
        if nv > 0x7fff_ffff || self.starts.len() != self.num_agents || self.goals.len() != self.num_agents {
            return false;
        }
        let mut i: usize = 0;
        while i < self.num_agents
            invariant
                self.graph.wf(),
                nv == self.graph.vertices@.len(),
                nv <= i32::MAX,
                self.starts@.len() == self.num_agents,
                self.goals@.len() == self.num_agents,
                0 <= i <= self.num_agents,
                forall|k: int| 0 <= k < i ==> #[trigger] self.starts@[k] < nv,
                forall|k: int| 0 <= k < i ==> #[trigger] self.goals@[k] < nv,
            decreases self.num_agents - i,
        {
            if self.starts[i] >= nv || self.goals[i] >= nv {
                return false;
            }
            i += 1;
        }
        assert(self.wf());
        let mut a: usize = 0;
        while a < self.num_agents
            invariant
                self.wf(),
                nv == self.graph.vertices@.len(),
                0 <= a <= self.num_agents,
                forall|k: int|
                    0 <= k < a ==> #[trigger] reachable(self.graph, self.goals@[k] as int, self.starts@[k] as int),
            decreases self.num_agents - a,
        {
            let row = bfs_row(&self.graph, self.goals[a]);
            let ghost s = self.starts@[a as int] as int;
            if row[self.starts[a]] as usize >= nv {
                proof {
                    assert(!reachable(self.graph, self.goals@[a as int] as int, s));
                }
                return false;
            }
            a += 1;
        }
        true
    }
}

} // verus!
