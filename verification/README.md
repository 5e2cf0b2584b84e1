# lacam0_rs

An anytime LaCAM solver for multi-agent path finding (MAPF) on four-connected grids,
written in Verus: the search, PIBT, the distance tables, the map and scenario readers and
the cost figures carry contracts that Verus proves.

What is proved, among other things:

- `solve` returns only valid plans: they start at the starts, end at the goals, every agent
  moves to a neighbour or waits at each step, and (with pairwise different starts) no two
  agents ever share a vertex or trade places.
- `NoSolution` is only returned when no such plan exists (with pairwise different starts).
- The search terminates, and the cost it records for the goal is the sum of loss of the plan.
- With `star`, a search that ends with nothing left in `open` returns a plan of least sum of
  loss among all valid plans (with pairwise different starts).
- The lower bounds on makespan and sum of costs never exceed those of a valid plan.
- Distance tables hold exact shortest-path distances.
- PIBT plans the agents in the order given: each agent without a next vertex at its turn
  takes the first available move in its ranking by distance to its goal, agents hindered and
  a random tie (by a make-way ranking, farthest first, when the best move calls for a swap),
  asking agents in the way to move first (a move is passed over only when it was not to be had
  at its turn or its agent could not make way); when the best move calls for a swap, the partner
  follows into the vertex the agent leaves; with pairwise different starts and no preset moves
  it always finds a next configuration.
- Each round of the search is a verified step (`LaCAM::search_step`) that takes the answer of
  the clock: past the deadline it reports the plan found, `Timeout` or `NoSolution` and
  changes nothing; otherwise it visits the first node of `open` and counts the round.
- A graph is determined by its rows: read from a map file or built from an array, the same
  rows give the same graph (`grid_laws`).

Layout:

- `src/` — the verified library (`graph`, `grid_laws`, `map_file`, `instance`, `dist_table`, `pibt`,
  `lacam`, `utils`, `text`, `deadline`, `random`, `error`).
- `tests/` — tests on concrete inputs.
- `app/main.rs` — the command line tool: argument parsing, reading map and scenario files,
  printing the summary and writing the result file for the MAPF visualizer.
