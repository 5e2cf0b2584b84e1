use vstd::prelude::*;

use crate::error::{decimal, decimal_text, is_parse_error, LacamError};


verus! {

/// A passable cell of the grid.
#[derive(Debug)]
pub struct Vertex {
    /// Position of this vertex in `Graph::vertices`.
    pub id: usize,
    /// Position of the cell in the row-major grid (`width * y + x`).
    pub index: usize,
    pub x: i32,
    pub y: i32,
    /// Passable cells next to this one, in the order left, right, down, up.
    pub neighbors: Vec<usize>,
    /// `neighbors` followed by the vertex itself (the moves an agent may make).
    pub actions: Vec<usize>,
}

impl Vertex {
    pub fn new(id: usize, index: usize, x: i32, y: i32) -> (v: Self)
        ensures
            v.id == id,
            v.index == index,
            v.x == x,
            v.y == y,
            v.neighbors@ == Seq::<usize>::empty(),
            v.actions@ == Seq::<usize>::empty(),
    {
        Vertex { id, index, x, y, neighbors: Vec::new(), actions: Vec::new() }
    }
}

/// A four-connected grid graph.
#[derive(Debug)]
pub struct Graph {
    /// All passable cells, numbered in row-major order.
    pub vertices: Vec<Vertex>,
    /// For each cell (`width * y + x`), the vertex standing there, if any.
    pub grid: Vec<Option<usize>>,
    pub width: usize,
    pub height: usize,
}

/// A position of every agent: `config[agent] = vertex`.
pub type Config = Vec<usize>;

/// The sequence holding the value of `o`, if there is one.
pub open spec fn opt_seq(o: Option<usize>) -> Seq<usize> {
    match o {
        Some(v) => seq![v],
        None => Seq::empty(),
    }
}

/// `y * w + x` names exactly one cell of a grid `w` wide.
pub proof fn lemma_cell_index(x: int, y: int, w: int, h: int)
    requires
        0 <= x < w,
        0 <= y < h,
    ensures
        0 <= y * w + x < w * h,
        y * w + x == w * y + x,
{
    assert(0 <= y * w + x < w * h) by (nonlinear_arith)
        requires
            0 <= x < w,
            0 <= y < h,
    ;
    assert(y * w == w * y) by (nonlinear_arith);
}

/// Two coordinates that give the same cell index are the same coordinates.
pub proof fn lemma_cell_index_unique(x1: int, y1: int, x2: int, y2: int, w: int)
    requires
        0 <= x1 < w,
        0 <= x2 < w,
        0 <= y1,
        0 <= y2,
        y1 * w + x1 == y2 * w + x2,
    ensures
        x1 == x2,
        y1 == y2,
{
    if y1 < y2 {
        assert(y1 * w + w <= y2 * w) by (nonlinear_arith)
            requires
                y1 < y2,
                0 <= w,
        ;
    } else if y2 < y1 {
        assert(y2 * w + w <= y1 * w) by (nonlinear_arith)
            requires
                y2 < y1,
                0 <= w,
        ;
    }
}

impl Graph {
    /// Number of vertices.
    pub open spec fn num_vertices(&self) -> nat {
        self.vertices@.len()
    }

    /// The vertex on the cell at `(x, y)`, if the cell is inside the grid and passable.
    pub open spec fn cell(&self, x: int, y: int) -> Option<usize> {
        if 0 <= x < self.width && 0 <= y < self.height {
            self.grid@[y * self.width + x]
        } else {
            None
        }
    }

    /// The vertices next to the cell `(x, y)`: left, right, down, up.
    pub open spec fn grid_neighbors(&self, x: int, y: int) -> Seq<usize> {
        opt_seq(self.cell(x - 1, y)) + opt_seq(self.cell(x + 1, y)) + opt_seq(self.cell(x, y + 1))
            + opt_seq(self.cell(x, y - 1))
    }

    /// Vertex `id` records its own number and stands on a cell inside the grid that names it.
    pub open spec fn vertex_placed(&self, id: int) -> bool {
        let v = self.vertices@[id];
        &&& v.id == id
        &&& 0 <= v.x < self.width
        &&& 0 <= v.y < self.height
        &&& v.index == v.y * self.width + v.x
        &&& self.grid@[v.index as int] == Some(id as usize)
    }

    /// The grid and the vertex list describe each other.
    pub open spec fn layout_ok(&self) -> bool {
        &&& self.width <= i32::MAX
        &&& self.height <= i32::MAX
        &&& self.grid@.len() == self.width * self.height
        &&& self.vertices@.len() <= usize::MAX
        &&& self.grid@.len() <= usize::MAX
        &&& forall|k: int|
            0 <= k < self.grid@.len() && (#[trigger] self.grid@[k]) is Some ==> {
                &&& self.grid@[k]->0 < self.vertices@.len()
                &&& self.vertices@[self.grid@[k]->0 as int].index == k
            }
        &&& forall|id: int| 0 <= id < self.vertices@.len() ==> #[trigger] self.vertex_placed(id)
    }

    /// Vertex `id` lists its grid neighbours, and its actions are those and itself.
    pub open spec fn adjacency_ok(&self, id: int) -> bool {
        let v = self.vertices@[id];
        &&& v.neighbors@ == self.grid_neighbors(v.x as int, v.y as int)
        &&& v.actions@ == v.neighbors@.push(id as usize)
    }

    /// A well-formed grid graph.
    pub open spec fn wf(&self) -> bool {
        &&& self.layout_ok()
        &&& forall|id: int| 0 <= id < self.vertices@.len() ==> #[trigger] self.adjacency_ok(id)
    }

    /// The neighbours of vertex `v`.
    pub open spec fn nbrs(&self, v: int) -> Seq<usize> {
        self.vertices@[v].neighbors@
    }

    /// The moves of an agent standing on `v`: its neighbours and `v` itself.
    pub open spec fn acts(&self, v: int) -> Seq<usize> {
        self.vertices@[v].actions@
    }

    /// `u` and `v` are vertices and `u` lists `v` as a neighbour.
    pub open spec fn adjacent(&self, u: int, v: int) -> bool {
        &&& 0 <= u < self.vertices@.len()
        &&& 0 <= v < self.vertices@.len()
        &&& self.nbrs(u).contains(v as usize)
    }

    /// Every vertex is placed on a cell before `bound`, at or after its own number.
    pub open spec fn placed_below(&self, bound: int) -> bool {
        forall|id: int|
            0 <= id < self.vertices@.len() ==> #[trigger] self.vertex_placed(id)
                && self.vertices@[id].index < bound && id <= self.vertices@[id].index
    }

    /// The grid is `rows`: one vertex per `true` cell, numbered in row-major order.
    pub open spec fn matches_rows(&self, rows: Seq<Seq<bool>>) -> bool {
        &&& self.height == rows.len()
        &&& rows.len() > 0 ==> self.width == rows[0].len()
        &&& forall|x: int, y: int|
            0 <= x < self.width && 0 <= y < self.height ==> (#[trigger] self.cell(x, y) is Some
                <==> rows[y][x])
        &&& forall|k1: int, k2: int|
            0 <= k1 < k2 < self.grid@.len() && #[trigger] self.grid@[k1] is Some
                && #[trigger] self.grid@[k2] is Some ==> self.grid@[k1]->0 < self.grid@[k2]->0
    }

    /// The cell of a vertex lies inside the grid and holds it.
    pub proof fn lemma_vertex_cell(&self, id: int)
        requires
            self.layout_ok(),
            0 <= id < self.vertices@.len(),
        ensures
            ({
                let v = self.vertices@[id];
                &&& self.cell(v.x as int, v.y as int) == Some(id as usize)
                &&& 0 <= v.index < self.grid@.len()
            }),
    {
        assert(self.vertex_placed(id));
        let v = self.vertices@[id];
        lemma_cell_index(v.x as int, v.y as int, self.width as int, self.height as int);
    }

    /// Every vertex a cell names is a vertex standing on that cell.
    pub proof fn lemma_cell_vertex(&self, x: int, y: int)
        requires
            self.layout_ok(),
            self.cell(x, y) is Some,
        ensures
            ({
                let id = self.cell(x, y)->0;
                &&& id < self.vertices@.len()
                &&& self.vertices@[id as int].x == x
                &&& self.vertices@[id as int].y == y
            }),
    {
        lemma_cell_index(x, y, self.width as int, self.height as int);
        let k = y * self.width + x;
        let id = self.grid@[k]->0;
        assert(self.grid@[k] is Some);
        assert(self.vertex_placed(id as int));
        let v = self.vertices@[id as int];
        lemma_cell_index_unique(x, y, v.x as int, v.y as int, self.width as int);
    }

    /// Every neighbour of a vertex is a vertex.
    pub proof fn lemma_neighbors_in_range(&self, id: int)
        requires
            self.wf(),
            0 <= id < self.vertices@.len(),
        ensures
            forall|i: int|
                0 <= i < self.nbrs(id).len() ==> #[trigger] self.nbrs(id)[i]
                    < self.vertices@.len(),
            forall|i: int|
                0 <= i < self.acts(id).len() ==> #[trigger] self.acts(id)[i]
                    < self.vertices@.len(),
            self.nbrs(id).len() <= 4,
            self.acts(id).len() == self.nbrs(id).len() + 1,
            self.acts(id).last() == id,
            !self.nbrs(id).contains(id as usize),
    {
        assert(self.adjacency_ok(id));
        assert(self.vertex_placed(id));
        let v = self.vertices@[id];
        let (x, y) = (v.x as int, v.y as int);
        if self.cell(x - 1, y) is Some {
            self.lemma_cell_vertex(x - 1, y);
        }
        if self.cell(x + 1, y) is Some {
            self.lemma_cell_vertex(x + 1, y);
        }
        if self.cell(x, y + 1) is Some {
            self.lemma_cell_vertex(x, y + 1);
        }
        if self.cell(x, y - 1) is Some {
            self.lemma_cell_vertex(x, y - 1);
        }
        assert forall|i: int| 0 <= i < self.acts(id).len() implies #[trigger] self.acts(id)[i]
            < self.vertices@.len() by {
            if i < self.nbrs(id).len() {
                assert(self.acts(id)[i] == self.nbrs(id)[i]);
            }
        }
    }

    /// Adjacency is symmetric: if `u` lists `v`, then `v` lists `u`.
    pub proof fn lemma_adjacent_symmetric(&self, u: int, v: int)
        requires
            self.wf(),
            self.adjacent(u, v),
        ensures
            self.adjacent(v, u),
    {
        assert(self.adjacency_ok(u));
        assert(self.vertex_placed(u));
        let vu = self.vertices@[u];
        let (x, y) = (vu.x as int, vu.y as int);
        self.lemma_vertex_cell(u);
        let s1 = opt_seq(self.cell(x - 1, y));
        let s2 = opt_seq(self.cell(x + 1, y));
        let s3 = opt_seq(self.cell(x, y + 1));
        let s4 = opt_seq(self.cell(x, y - 1));
        let (nx, ny) = if s1.contains(v as usize) {
            (x - 1, y)
        } else if s2.contains(v as usize) {
            (x + 1, y)
        } else if s3.contains(v as usize) {
            (x, y + 1)
        } else {
            assert(s4.contains(v as usize)) by {
                assert(self.nbrs(u) == s1 + s2 + s3 + s4);
                let i = choose|i: int| 0 <= i < self.nbrs(u).len() && self.nbrs(u)[i] == v;
                if !s1.contains(v as usize) && !s2.contains(v as usize) && !s3.contains(v as usize)
                    && !s4.contains(v as usize) {
                    if i < s1.len() {
                        assert((s1 + s2 + s3 + s4)[i] == s1[i]);
                    } else if i < s1.len() + s2.len() {
                        assert((s1 + s2 + s3 + s4)[i] == s2[i - s1.len()]);
                    } else if i < s1.len() + s2.len() + s3.len() {
                        assert((s1 + s2 + s3 + s4)[i] == s3[i - s1.len() - s2.len()]);
                    } else {
                        assert((s1 + s2 + s3 + s4)[i] == s4[i - s1.len() - s2.len() - s3.len()]);
                    }
                }
            }
            (x, y - 1)
        };
        assert(self.cell(nx, ny) == Some(v as usize));
        self.lemma_cell_vertex(nx, ny);
        assert(self.cell(nx, ny)->0 as int == v);
        assert(self.adjacency_ok(v));
        let vv = self.vertices@[v];
        assert(vv.x == nx && vv.y == ny);
        let t1 = opt_seq(self.cell(nx - 1, ny));
        let t2 = opt_seq(self.cell(nx + 1, ny));
        let t3 = opt_seq(self.cell(nx, ny + 1));
        let t4 = opt_seq(self.cell(nx, ny - 1));
        assert(self.nbrs(v) == t1 + t2 + t3 + t4);
        if nx == x - 1 {
            assert(t2 == seq![u as usize]);
            assert((t1 + t2 + t3 + t4)[t1.len() as int] == u);
        } else if nx == x + 1 {
            assert(t1 == seq![u as usize]);
            assert((t1 + t2 + t3 + t4)[0] == u);
        } else if ny == y + 1 {
            assert(t4 == seq![u as usize]);
            assert((t1 + t2 + t3 + t4)[(t1.len() + t2.len() + t3.len()) as int] == u);
        } else {
            assert(t3 == seq![u as usize]);
            assert((t1 + t2 + t3 + t4)[t1.len() + t2.len() as int] == u);
        }
    }
}

/// The text of the error for a grid row whose length differs from the first row's.
pub open spec fn row_length_text(y: nat, len: nat, width: nat) -> Seq<char> {
    "grid row "@ + decimal(y) + " length "@ + decimal(len) + " != width "@ + decimal(width)
}

/// Formats the error text for a grid row of the wrong length.
fn row_length_message(y: usize, len: usize, width: usize) -> (s: String)
    ensures
        s@ == row_length_text(y as nat, len as nat, width as nat),
{
    let mut s = String::from_str("grid row ");
    s.append(decimal_text(y as u128).as_str());
    s.append(" length ");
    s.append(decimal_text(len as u128).as_str());
    s.append(" != width ");
    s.append(decimal_text(width as u128).as_str());
    s
}

/// The views of the rows of a grid.
pub open spec fn rows_view(grid: Seq<Vec<bool>>) -> Seq<Seq<bool>> {
    grid.map_values(|r: Vec<bool>| r@)
}

/// Every row of `rows` before `n` is `w` long.
pub open spec fn rows_width_upto(rows: Seq<Seq<bool>>, w: nat, n: int) -> bool {
    forall|y: int| 0 <= y < n ==> #[trigger] rows[y].len() == w
}

impl Graph {
    /// The empty graph.
    pub fn new() -> (g: Self)
        ensures
            g.vertices@.len() == 0,
            g.grid@.len() == 0,
            g.width == 0,
            g.height == 0,
            g.wf(),
    {
        Graph { vertices: Vec::new(), grid: Vec::new(), width: 0, height: 0 }
    }

    /// Appends the vertex on cell `(x, y)`, if there is one, to `out`.
    fn push_cell(&self, x: i32, y: i32, out: &mut Vec<usize>)
        requires
            self.layout_ok(),
        ensures
            final(out)@ == old(out)@ + opt_seq(self.cell(x as int, y as int)),
    {
        if x >= 0 && x < self.width as i32 && y >= 0 && y < self.height as i32 {
            proof {
                lemma_cell_index(x as int, y as int, self.width as int, self.height as int);
            }
            let neighbor_index = self.width * (y as usize) + (x as usize);
            if let Some(neighbor_id) = self.grid[neighbor_index] {
                out.push(neighbor_id);
            } else {
                assert(old(out)@ + opt_seq(self.cell(x as int, y as int)) =~= old(out)@);
            }
        } else {
            assert(old(out)@ + opt_seq(self.cell(x as int, y as int)) =~= old(out)@);
        }
    }

    /// Fills in the neighbours and actions of every vertex from the grid.
    fn build_adjacency(&mut self)
        requires
            old(self).layout_ok(),
        ensures
            final(self).wf(),
            final(self).grid == old(self).grid,
            final(self).width == old(self).width,
            final(self).height == old(self).height,
            final(self).vertices@.len() == old(self).vertices@.len(),
            forall|id: int|
                0 <= id < final(self).vertices@.len() ==> {
                    &&& (#[trigger] final(self).vertices@[id]).index == old(self).vertices@[id].index
                    &&& final(self).vertices@[id].x == old(self).vertices@[id].x
                    &&& final(self).vertices@[id].y == old(self).vertices@[id].y
                    &&& final(self).vertices@[id].id == old(self).vertices@[id].id
                },
            old(self).wf() ==> forall|id: int|
                0 <= id < final(self).vertices@.len() ==> (#[trigger] final(self).vertices@[id]).neighbors@ == old(
                    self,
                ).vertices@[id].neighbors@ && final(self).vertices@[id].actions@ == old(self).vertices@[id].actions@,
    {
        let n = self.vertices.len();
        let mut vertex_id: usize = 0;
        while vertex_id < n
            invariant
                n == self.vertices@.len(),
                vertex_id <= n,
                self.layout_ok(),
                self.grid == old(self).grid,
                self.width == old(self).width,
                self.height == old(self).height,
                forall|id: int|
                    0 <= id < n ==> {
                        &&& (#[trigger] self.vertices@[id]).index == old(self).vertices@[id].index
                        &&& self.vertices@[id].x == old(self).vertices@[id].x
                        &&& self.vertices@[id].y == old(self).vertices@[id].y
                        &&& self.vertices@[id].id == old(self).vertices@[id].id
                    },
                forall|id: int| 0 <= id < vertex_id ==> #[trigger] self.adjacency_ok(id),
            decreases n - vertex_id,
        {
            let x = self.vertices[vertex_id].x;
            let y = self.vertices[vertex_id].y;
            let index = self.vertices[vertex_id].index;
            proof {
                assert(self.vertex_placed(vertex_id as int));
            }
            let mut neighbors: Vec<usize> = Vec::new();
            self.push_cell(x - 1, y, &mut neighbors);
            self.push_cell(x + 1, y, &mut neighbors);
            self.push_cell(x, y + 1, &mut neighbors);
            self.push_cell(x, y - 1, &mut neighbors);
            assert(neighbors@ =~= self.grid_neighbors(x as int, y as int));
            let mut actions = neighbors.clone();
            actions.push(vertex_id);
            let ghost before = *self;
            self.vertices.set(vertex_id, Vertex { id: vertex_id, index, x, y, neighbors, actions });
            proof {
                assert forall|k: int|
                    0 <= k < self.grid@.len() && (#[trigger] self.grid@[k]) is Some implies {
                    &&& self.grid@[k]->0 < self.vertices@.len()
                    &&& self.vertices@[self.grid@[k]->0 as int].index == k
                } by {
                    assert(before.grid@[k] is Some);
                }
                assert forall|id: int| 0 <= id < self.vertices@.len() implies
                    #[trigger] self.vertex_placed(id) by {
                    assert(before.vertex_placed(id));
                }
                assert forall|id: int| 0 <= id < vertex_id + 1 implies
                    #[trigger] self.adjacency_ok(id) by {
                    if id < vertex_id {
                        assert(before.adjacency_ok(id));
                    }
                }
            }
            vertex_id += 1;
        }
        proof {
            // on a graph already built, the lists come out as they were
            if old(self).wf() {
                assert forall|id: int| 0 <= id < self.vertices@.len() implies (#[trigger] self.vertices@[id]).neighbors@
                    == old(self).vertices@[id].neighbors@ && self.vertices@[id].actions@ == old(self).vertices@[id].actions@ by {
                    assert(self.adjacency_ok(id));
                    assert(old(self).adjacency_ok(id));
                    let x = self.vertices@[id].x as int;
                    let y = self.vertices@[id].y as int;
                    assert(self.grid_neighbors(x, y) == old(self).grid_neighbors(x, y));
                }
            }
        }
    }

    /// Builds a graph from rows of cells, `true` for a passable cell.
    ///
    /// Every row must be as long as the first; otherwise the first row that is not
    /// gives the error.
    pub fn from_array(grid: Vec<Vec<bool>>) -> (res: Result<Graph, LacamError>)
        requires
            grid@.len() > 0,
            grid@.len() <= i32::MAX,
            grid@[0]@.len() <= i32::MAX,
            grid@.len() * grid@[0]@.len() <= usize::MAX,
        ensures
            match res {
                Ok(g) => {
                    &&& rows_width_upto(rows_view(grid@), grid@[0]@.len(), grid@.len() as int)
                    &&& g.wf()
                    &&& g.matches_rows(rows_view(grid@))
                },
                Err(e) => exists|y: int|
                    {
                        &&& 0 < y < grid@.len()
                        &&& rows_width_upto(rows_view(grid@), grid@[0]@.len(), y)
                        &&& #[trigger] grid@[y]@.len() != grid@[0]@.len()
                        &&& is_parse_error(
                            e,
                            row_length_text(y as nat, grid@[y]@.len(), grid@[0]@.len()),
                        )
                    },
            },
    {
        let height = grid.len();
        let width = grid[0].len();
        let ghost rows = rows_view(grid@);
        let ghost w = width as int;
        let ghost h = height as int;
        let mut g = Graph::new();
        g.height = height;
        g.width = width;
        assert(width * height == height * width) by (nonlinear_arith);
        g.grid = vec![None; width * height];
        assert(g.grid@.len() == w * h);
        let mut y: usize = 0;
        while y < height
            invariant
                height == grid@.len(),
                width == grid@[0]@.len(),
                w == width,
                h == height,
                rows == rows_view(grid@),
                0 <= y <= height,
                height * width <= usize::MAX,
                width <= i32::MAX,
                height <= i32::MAX,
                g.width == width,
                g.height == height,
                g.grid@.len() == w * h,
                g.vertices@.len() <= usize::MAX,
                rows_width_upto(rows, width as nat, y as int),
                forall|k: int|
                    0 <= k < g.grid@.len() && (#[trigger] g.grid@[k]) is Some ==> {
                        &&& k < y * w
                        &&& g.grid@[k]->0 < g.vertices@.len()
                        &&& g.vertices@[g.grid@[k]->0 as int].index == k
                    },
                g.placed_below(y * w),
                g.vertices@.len() <= y * w,
                forall|k1: int, k2: int|
                    0 <= k1 < k2 < g.grid@.len() && #[trigger] g.grid@[k1] is Some
                        && #[trigger] g.grid@[k2] is Some ==> g.grid@[k1]->0 < g.grid@[k2]->0,
                forall|xx: int, yy: int|
                    0 <= xx < w && 0 <= yy < y ==> (#[trigger] g.cell(xx, yy) is Some
                        <==> rows[yy][xx]),
            decreases height - y,
        {
            let row = &grid[y];
            if row.len() != width {
                let msg = row_length_message(y, row.len(), width);
                assert(y > 0);
                assert(grid@[y as int]@.len() != grid@[0]@.len());
                return Err(LacamError::Parse { field: msg });
            }
            let mut x: usize = 0;
            while x < width
                invariant
                    height == grid@.len(),
                    width == grid@[0]@.len(),
                    w == width,
                    h == height,
                    rows == rows_view(grid@),
                    0 <= y < height,
                    0 <= x <= width,
                    row@ == grid@[y as int]@,
                    row@.len() == width,
                    height * width <= usize::MAX,
                    width <= i32::MAX,
                    height <= i32::MAX,
                    g.width == width,
                    g.height == height,
                    g.grid@.len() == w * h,
                    g.vertices@.len() <= usize::MAX,
                    rows_width_upto(rows, width as nat, y as int),
                    forall|k: int|
                        0 <= k < g.grid@.len() && (#[trigger] g.grid@[k]) is Some ==> {
                            &&& k < y * w + x
                            &&& g.grid@[k]->0 < g.vertices@.len()
                            &&& g.vertices@[g.grid@[k]->0 as int].index == k
                        },
                    g.placed_below(y * w + x),
                    g.vertices@.len() <= y * w + x,
                    forall|k1: int, k2: int|
                        0 <= k1 < k2 < g.grid@.len() && #[trigger] g.grid@[k1] is Some
                            && #[trigger] g.grid@[k2] is Some ==> g.grid@[k1]->0 < g.grid@[k2]->0,
                    forall|xx: int, yy: int|
                        0 <= xx < w && 0 <= yy < y ==> (#[trigger] g.cell(xx, yy) is Some
                            <==> rows[yy][xx]),
                    forall|xx: int| 0 <= xx < x ==> (#[trigger] g.cell(xx, y as int) is Some <==> rows[y as int][xx]),
                decreases width - x,
            {
                proof {
                    lemma_cell_index(x as int, y as int, w, h);
                }
                let index = width * y + x;
                assert(index == y * w + x);
                if row[x] {
                    let vertex_id = g.vertices.len();
                    assert(g.grid@[index as int] is None);
                    let ghost before = g;
                    g.vertices.push(Vertex::new(vertex_id, index, x as i32, y as i32));
                    g.grid.set(index, Some(vertex_id));
                    proof {
                        assert forall|k: int|
                            0 <= k < g.grid@.len() && (#[trigger] g.grid@[k]) is Some implies {
                            &&& k < y * w + x + 1
                            &&& g.grid@[k]->0 < g.vertices@.len()
                            &&& g.vertices@[g.grid@[k]->0 as int].index == k
                        } by {
                            if k != index {
                                assert(before.grid@[k] is Some);
                            }
                        }
                        assert forall|id: int| 0 <= id < g.vertices@.len() implies #[trigger] g.vertex_placed(id)
                            && g.vertices@[id].index < y * w + x + 1 && id <= g.vertices@[id].index by {
                            assert(before.placed_below(y * w + x));
                            if id < vertex_id {
                                assert(before.vertex_placed(id));
                                assert(before.grid@[before.vertices@[id].index as int] is Some);
                            } else {
                                assert(id == vertex_id);
                                let v = g.vertices@[id];
                                assert(v.x == x as i32 && v.y == y as i32);
                                assert((x as i32) as int == x as int);
                                assert((y as i32) as int == y as int);
                                assert(v.index == index);
                                assert(g.grid@[index as int] == Some(vertex_id));
                                assert(g.vertex_placed(id));
                                assert(id <= v.index);
                            }
                        }
                        assert forall|k1: int, k2: int|
                            0 <= k1 < k2 < g.grid@.len() && #[trigger] g.grid@[k1] is Some
                                && #[trigger] g.grid@[k2] is Some implies g.grid@[k1]->0 < g.grid@[k2]->0 by {
                            if k2 == index {
                                assert(before.grid@[k1] is Some);
                            } else if k1 == index {
                                assert(before.grid@[k2] is Some);
                            } else {
                                assert(before.grid@[k1] is Some);
                                assert(before.grid@[k2] is Some);
                            }
                        }
                        assert forall|xx: int, yy: int|
                            0 <= xx < w && 0 <= yy < y implies (#[trigger] g.cell(xx, yy) is Some
                                <==> rows[yy][xx]) by {
                            lemma_cell_index(xx, yy, w, h);
                            assert(before.cell(xx, yy) is Some <==> rows[yy][xx]);
                            if yy * w + xx == index as int {
                                lemma_cell_index_unique(xx, yy, x as int, y as int, w);
                            }
                        }
                        assert forall|xx: int| 0 <= xx < x + 1 implies (#[trigger] g.cell(xx, y as int) is Some
                            <==> rows[y as int][xx]) by {
                            lemma_cell_index(xx, y as int, w, h);
                            if xx < x {
                                assert(before.cell(xx, y as int) is Some <==> rows[y as int][xx]);
                            }
                        }
                    }
                } else {
                    proof {
                        assert forall|xx: int| 0 <= xx < x + 1 implies (#[trigger] g.cell(xx, y as int) is Some
                            <==> rows[y as int][xx]) by {
                            lemma_cell_index(xx, y as int, w, h);
                        }
                        assert forall|id: int| 0 <= id < g.vertices@.len() implies #[trigger] g.vertex_placed(id)
                            && g.vertices@[id].index < y * w + x + 1 && id <= g.vertices@[id].index by {
                            assert(g.placed_below(y * w + x));
                        }
                    }
                }
                assert(g.placed_below(y * w + x + 1));
                x += 1;
            }
            proof {
                assert forall|xx: int, yy: int|
                    0 <= xx < w && 0 <= yy < y + 1 implies (#[trigger] g.cell(xx, yy) is Some
                        <==> rows[yy][xx]) by {
                    if yy == y as int {
                    }
                }
                assert((y + 1) * w == y * w + w) by (nonlinear_arith);
            }
            y += 1;
        }
        proof {
            assert(y * w == w * h) by (nonlinear_arith)
                requires
                    y == h,
            ;
        }
        let ghost pre = g;
        assert(pre.layout_ok());
        g.build_adjacency();
        assert(g.wf());
        assert(rows_width_upto(rows_view(grid@), grid@[0]@.len(), grid@.len() as int));
        assert(g.height == rows.len());
        assert(g.width == rows[0].len());
        assert forall|x: int, y: int|
            0 <= x < g.width && 0 <= y < g.height implies (#[trigger] g.cell(x, y) is Some
                <==> rows[y][x]) by {
            assert(pre.cell(x, y) == g.cell(x, y));
        }
        Ok(g)
    }

    /// Number of vertices.
    pub fn size(&self) -> (n: usize)
        ensures
            n == self.vertices@.len(),
    {
        self.vertices.len()
    }

    pub fn width(&self) -> (w: usize)
        ensures
            w == self.width,
    {
        self.width
    }

    pub fn height(&self) -> (h: usize)
        ensures
            h == self.height,
    {
        self.height
    }

    /// The vertex numbered `id`, if there is one.
    pub fn get_vertex(&self, id: usize) -> (v: Option<&Vertex>)
        ensures
            v == (if id < self.vertices@.len() {
                Some(&self.vertices@[id as int])
            } else {
                None
            }),
    {
        if id < self.vertices.len() {
            Some(&self.vertices[id])
        } else {
            None
        }
    }

    /// The neighbours of vertex `vertex_id`; empty for a number that names no vertex.
    pub fn get_neighbors(&self, vertex_id: usize) -> (r: &[usize])
        ensures
            r@ == (if vertex_id < self.vertices@.len() {
                self.nbrs(vertex_id as int)
            } else {
                Seq::empty()
            }),
    {
        if vertex_id < self.vertices.len() {
            self.vertices[vertex_id].neighbors.as_slice()
        } else {
            &[]
        }
    }

    /// The actions of vertex `vertex_id`; empty for a number that names no vertex.
    pub fn get_actions(&self, vertex_id: usize) -> (r: &[usize])
        ensures
            r@ == (if vertex_id < self.vertices@.len() {
                self.acts(vertex_id as int)
            } else {
                Seq::empty()
            }),
    {
        if vertex_id < self.vertices.len() {
            self.vertices[vertex_id].actions.as_slice()
        } else {
            &[]
        }
    }
}


/// There is a walk of at most `d` steps from `s` to `t` along neighbour lists.
pub open spec fn walk_within(g: Graph, s: int, t: int, d: nat) -> bool
    decreases d,
{
    if d == 0 {
        s == t
    } else {
        walk_within(g, s, t, (d - 1) as nat) || exists|u: int|
            #![trigger g.adjacent(u, t)]
            walk_within(g, s, u, (d - 1) as nat) && g.adjacent(u, t)
    }
}

/// `d` is the length of a shortest walk from `s` to `t`.
pub open spec fn is_dist(g: Graph, s: int, t: int, d: nat) -> bool {
    &&& walk_within(g, s, t, d)
    &&& d > 0 ==> !walk_within(g, s, t, (d - 1) as nat)
}

/// Some walk leads from `s` to `t`.
pub open spec fn reachable(g: Graph, s: int, t: int) -> bool {
    exists|d: nat| walk_within(g, s, t, d)
}

/// The length of a shortest walk from `s` to `t` (meaningful when `t` is reachable).
pub open spec fn dist(g: Graph, s: int, t: int) -> nat {
    choose|d: nat| is_dist(g, s, t, d)
}

/// A walk within `d1` steps is a walk within any larger bound.
pub proof fn lemma_walk_monotonic(g: Graph, s: int, t: int, d1: nat, d2: nat)
    requires
        walk_within(g, s, t, d1),
        d1 <= d2,
    ensures
        walk_within(g, s, t, d2),
    decreases d2 - d1,
{
    if d1 < d2 {
        lemma_walk_monotonic(g, s, t, d1, (d2 - 1) as nat);
    }
}

/// A reachable vertex has exactly one shortest distance, and `dist` names it.
pub proof fn lemma_dist_exact(g: Graph, s: int, t: int, d: nat)
    requires
        is_dist(g, s, t, d),
    ensures
        dist(g, s, t) == d,
        reachable(g, s, t),
{
    let e = dist(g, s, t);
    assert(is_dist(g, s, t, e));
    if e < d {
        lemma_walk_monotonic(g, s, t, e, (d - 1) as nat);
    } else if d < e {
        lemma_walk_monotonic(g, s, t, d, (e - 1) as nat);
    }
}

/// A reachable vertex has a shortest distance.
pub proof fn lemma_reachable_has_dist(g: Graph, s: int, t: int, d: nat)
    requires
        walk_within(g, s, t, d),
    ensures
        is_dist(g, s, t, dist(g, s, t)),
        dist(g, s, t) <= d,
    decreases d,
{
    if d > 0 && walk_within(g, s, t, (d - 1) as nat) {
        lemma_reachable_has_dist(g, s, t, (d - 1) as nat);
    } else {
        assert(is_dist(g, s, t, d));
        lemma_dist_exact(g, s, t, d);
    }
}


/// A vertex next to a reachable one is reachable.
pub proof fn lemma_reachable_step(g: Graph, s: int, u: int, v: int)
    requires
        reachable(g, s, u),
        g.adjacent(u, v),
    ensures
        reachable(g, s, v),
{
    let d = choose|d: nat| walk_within(g, s, u, d);
    assert(walk_within(g, s, v, d + 1));
}

/// A sequence of distinct numbers below `m` has at most `m` items.
pub proof fn lemma_distinct_bounded(s: Seq<int>, m: int)
    requires
        0 <= m,
        s.no_duplicates(),
        forall|i: int| 0 <= i < s.len() ==> 0 <= #[trigger] s[i] < m,
    ensures
        s.len() <= m,
{
    s.unique_seq_to_set();
    vstd::set_lib::lemma_int_range(0, m);
    assert(s.to_set().subset_of(vstd::set_lib::set_int_range(0, m)));
    vstd::set_lib::lemma_len_subset(s.to_set(), vstd::set_lib::set_int_range(0, m));
}

} // verus!
