use vstd::prelude::*;

use crate::graph::Graph;
use crate::map_file::{map_fits, map_header, map_rows};

verus! {

/// The number of cells holding a vertex among the first `k` cells of `grid`.
pub open spec fn count_some(grid: Seq<Option<usize>>, k: int) -> nat
    decreases k,
{
    if k <= 0 {
        0
    } else {
        count_some(grid, k - 1) + if grid[k - 1] is Some {
            1nat
        } else {
            0nat
        }
    }
}

/// Every vertex stands on a cell of the grid.
proof fn lemma_index_in_grid(g: Graph, id: int)
    requires
        g.wf(),
        0 <= id < g.vertices@.len(),
    ensures
        g.vertices@[id].index < g.grid@.len(),
        g.grid@[g.vertices@[id].index as int] == Some(id as usize),
{
    assert(g.vertex_placed(id));
    let v = g.vertices@[id];
    let w = g.width as int;
    let h = g.height as int;
    assert(v.y * w + v.x < w * h) by (nonlinear_arith)
        requires
            0 <= v.x < w,
            0 <= v.y < h,
    ;
}

/// The vertices are numbered in grid order: the cells before `k` hold exactly the vertices
/// numbered below the count of vertex cells before `k`, each numbered by that count.
proof fn lemma_ids_upto(g: Graph, k: int)
    requires
        g.wf(),
        0 <= k <= g.grid@.len(),
        forall|k1: int, k2: int|
            0 <= k1 < k2 < g.grid@.len() && #[trigger] g.grid@[k1] is Some && #[trigger] g.grid@[k2] is Some
                ==> g.grid@[k1]->0 < g.grid@[k2]->0,
    ensures
        forall|j: int| 0 <= j < k && (#[trigger] g.grid@[j]) is Some ==> g.grid@[j]->0 == count_some(g.grid@, j),
        forall|id: int|
            0 <= id < g.vertices@.len() ==> ((#[trigger] g.vertices@[id]).index < k <==> id < count_some(g.grid@, k)),
    decreases k,
{
    if k > 0 {
        lemma_ids_upto(g, k - 1);
        let c = count_some(g.grid@, k - 1) as int;
        let j = k - 1;
        if g.grid@[j] is Some {
            let id0 = g.grid@[j]->0 as int;
            assert(id0 < g.vertices@.len());
            assert(g.vertices@[id0].index == j);
            assert(g.vertex_placed(id0));
            if id0 > c {
                lemma_index_in_grid(g, c);
                let p = g.vertices@[c].index as int;
                assert(g.grid@[p] == Some(c as usize));
                assert(p > j);
                assert(g.grid@[j]->0 < g.grid@[p]->0);
            }
            assert(id0 == c) by {
                if id0 < c {
                    assert(g.vertices@[id0].index < j);
                }
            }
            assert forall|id: int|
                0 <= id < g.vertices@.len() implies ((#[trigger] g.vertices@[id]).index < k <==> id < count_some(
                g.grid@,
                k,
            )) by {
                assert(g.vertex_placed(id));
                if g.vertices@[id].index == j {
                    assert(g.grid@[j] == Some(id as usize));
                }
            }
        } else {
            assert forall|id: int|
                0 <= id < g.vertices@.len() implies ((#[trigger] g.vertices@[id]).index < k <==> id < count_some(
                g.grid@,
                k,
            )) by {
                assert(g.vertex_placed(id));
                if g.vertices@[id].index == j {
                    assert(g.grid@[j] == Some(id as usize));
                }
            }
        }
    }
}

/// Grids that hold vertices on the same cells count them alike.
proof fn lemma_count_same(a: Seq<Option<usize>>, b: Seq<Option<usize>>, k: int)
    requires
        0 <= k <= a.len(),
        a.len() == b.len(),
        forall|j: int| 0 <= j < a.len() ==> (#[trigger] a[j] is Some) == (b[j] is Some),
    ensures
        count_some(a, k) == count_some(b, k),
    decreases k,
{
    if k > 0 {
        lemma_count_same(a, b, k - 1);
        assert((a[k - 1] is Some) == (b[k - 1] is Some));
    }
}

/// A cell number splits into its row and column in one way only.
proof fn lemma_cell_split(w: int, x1: int, y1: int, x2: int, y2: int)
    requires
        0 <= x1 < w,
        0 <= x2 < w,
        0 <= y1,
        0 <= y2,
        y1 * w + x1 == y2 * w + x2,
    ensures
        x1 == x2 && y1 == y2,
{
    if y1 < y2 {
        assert(y1 * w + w <= y2 * w) by (nonlinear_arith)
            requires
                y1 < y2,
                0 <= w,
        ;
    } else if y2 < y1 {
        assert(y2 * w + w <= y1 * w) by (nonlinear_arith)
            requires
                y2 < y1,
                0 <= w,
        ;
    }
}

/// Every cell number below `w * h` is the cell of some row below `h` and column below `w`.
proof fn lemma_cell_of(w: int, h: int, k: int)
    requires
        0 <= k < w * h,
        0 < w,
    ensures
        0 <= k % w < w,
        0 <= k / w < h,
        k == (k / w) * w + k % w,
{
    vstd::arithmetic::div_mod::lemma_fundamental_div_mod(k, w);
    vstd::arithmetic::div_mod::lemma_div_pos_is_pos(k, w);
    assert((k / w) * w == w * (k / w)) by (nonlinear_arith);
    if k / w >= h {
        assert(w * (k / w) >= w * h) by (nonlinear_arith)
            requires
                k / w >= h,
                0 < w,
        ;
    }
}

/// A graph is determined by its rows: two well-formed graphs that both match `rows` have the
/// same grid, the same vertices on the same cells, and the same neighbours and moves. So a
/// graph read from a map file equals the one built from the same rows given as an array.
pub proof fn lemma_same_rows_same_graph(g1: Graph, g2: Graph, rows: Seq<Seq<bool>>)
    requires
        g1.wf(),
        g2.wf(),
        g1.matches_rows(rows),
        g2.matches_rows(rows),
    ensures
        g1.height == g2.height,
        rows.len() > 0 ==> g1.width == g2.width,
        g1.grid@ == g2.grid@,
        g1.vertices@.len() == g2.vertices@.len(),
        forall|id: int|
            0 <= id < g1.vertices@.len() ==> {
                let a = #[trigger] g1.vertices@[id];
                let b = g2.vertices@[id];
                &&& a.id == b.id && a.index == b.index && a.x == b.x && a.y == b.y
                &&& a.neighbors@ == b.neighbors@
                &&& a.actions@ == b.actions@
            },
{
    let h = g1.height as int;
    if rows.len() == 0 {
        assert(g1.width * 0 == 0 && g2.width * 0 == 0) by (nonlinear_arith);
        assert(g1.grid@.len() == 0);
        assert(g2.grid@.len() == 0);
        if g1.vertices@.len() > 0 {
            assert(g1.vertex_placed(0));
        }
        if g2.vertices@.len() > 0 {
            assert(g2.vertex_placed(0));
        }
        assert(g1.grid@ =~= g2.grid@);
    } else {
        let w = g1.width as int;
        assert(g2.width == w);
        let n = g1.grid@.len() as int;
        assert(g2.grid@.len() == n);
        if w == 0 {
            assert(n == 0) by {
                assert(w * h == 0) by (nonlinear_arith)
                    requires
                        w == 0,
                ;
            }
        }
        assert forall|j: int| 0 <= j < n implies (#[trigger] g1.grid@[j] is Some) == (g2.grid@[j] is Some) by {
            lemma_cell_of(w, h, j);
            let x = j % w;
            let y = j / w;
            assert(g1.cell(x, y) is Some <==> rows[y][x]);
            assert(g2.cell(x, y) is Some <==> rows[y][x]);
        }
        lemma_ids_upto(g1, n);
        lemma_ids_upto(g2, n);
        assert forall|j: int| 0 <= j < n implies g1.grid@[j] == g2.grid@[j] by {
            lemma_count_same(g1.grid@, g2.grid@, j);
            if g1.grid@[j] is Some {
                assert(g2.grid@[j] is Some);
            } else {
                assert(g2.grid@[j] is None);
            }
        }
        assert(g1.grid@ =~= g2.grid@);
    }
    // the vertices: each stands on the cell that names it, in both graphs
    if g1.vertices@.len() < g2.vertices@.len() {
        let id = g1.vertices@.len() as int;
        lemma_index_in_grid(g2, id);
        let p = g2.vertices@[id].index as int;
        assert(g2.grid@[p] == Some(id as usize));
        assert(g1.grid@[p] is Some);
    } else if g2.vertices@.len() < g1.vertices@.len() {
        let id = g2.vertices@.len() as int;
        lemma_index_in_grid(g1, id);
        let p = g1.vertices@[id].index as int;
        assert(g1.grid@[p] == Some(id as usize));
        assert(g2.grid@[p] is Some);
    }
    assert forall|id: int| 0 <= id < g1.vertices@.len() implies {
        let a = #[trigger] g1.vertices@[id];
        let b = g2.vertices@[id];
        &&& a.id == b.id && a.index == b.index && a.x == b.x && a.y == b.y
        &&& a.neighbors@ == b.neighbors@
        &&& a.actions@ == b.actions@
    } by {
        let a = g1.vertices@[id];
        let b = g2.vertices@[id];
        assert(g1.vertex_placed(id));
        assert(g2.vertex_placed(id));
        lemma_index_in_grid(g1, id);
        assert(g1.grid@[a.index as int] == Some(id as usize));
        assert(g2.grid@[a.index as int] is Some);
        assert(g2.vertices@[g2.grid@[a.index as int]->0 as int].index == a.index);
        assert(rows.len() > 0);
        lemma_cell_split(g1.width as int, a.x as int, a.y as int, b.x as int, b.y as int);
        assert(g1.adjacency_ok(id));
        assert(g2.adjacency_ok(id));
        assert(g1.grid_neighbors(a.x as int, a.y as int) == g2.grid_neighbors(a.x as int, a.y as int));
    }
}

/// Neighbours and moves follow from the layout: two well-formed graphs with the same grid and
/// the same vertices on the same cells list the same neighbours and moves (so building the
/// adjacency twice gives the same lists).
pub proof fn lemma_adjacency_determined(a: Graph, b: Graph)
    requires
        a.wf(),
        b.wf(),
        a.grid@ == b.grid@,
        a.width == b.width,
        a.height == b.height,
        a.vertices@.len() == b.vertices@.len(),
        forall|id: int|
            0 <= id < a.vertices@.len() ==> (#[trigger] a.vertices@[id]).x == b.vertices@[id].x
                && a.vertices@[id].y == b.vertices@[id].y,
    ensures
        forall|id: int|
            0 <= id < a.vertices@.len() ==> (#[trigger] a.vertices@[id]).neighbors@ == b.vertices@[id].neighbors@
                && a.vertices@[id].actions@ == b.vertices@[id].actions@,
{
    assert forall|id: int| 0 <= id < a.vertices@.len() implies (#[trigger] a.vertices@[id]).neighbors@ == b.vertices@[id].neighbors@
        && a.vertices@[id].actions@ == b.vertices@[id].actions@ by {
        assert(a.adjacency_ok(id));
        assert(b.adjacency_ok(id));
        let x = a.vertices@[id].x as int;
        let y = a.vertices@[id].y as int;
        assert(a.grid_neighbors(x, y) == b.grid_neighbors(x, y));
    }
}


/// The layout of a graph built from `rows`: it is `width` by `height` cells with one grid entry
/// per cell; each vertex records its own number and the row-major number `width * y + x` of
/// its cell `(x, y)`, which is passable and holds it; a cell holds a vertex exactly when it is
/// passable; and the vertices are numbered in the order of their cells.
pub proof fn lemma_rows_layout(g: Graph, rows: Seq<Seq<bool>>)
    requires
        g.wf(),
        g.matches_rows(rows),
        rows.len() > 0,
    ensures
        g.width == rows[0].len(),
        g.height == rows.len(),
        g.grid@.len() == g.width * g.height,
        forall|id: int|
            0 <= id < g.vertices@.len() ==> {
                let v = #[trigger] g.vertices@[id];
                &&& v.id == id
                &&& v.index == g.width * v.y + v.x
                &&& 0 <= v.x < g.width && 0 <= v.y < g.height
                &&& rows[v.y as int][v.x as int]
                &&& g.grid@[v.index as int] == Some(id as usize)
            },
        forall|k: int|
            0 <= k < g.grid@.len() ==> (#[trigger] g.grid@[k] is Some) == rows[k / (g.width as int)][k % (g.width as int)],
        forall|a: int, b: int|
            0 <= a < b < g.vertices@.len() ==> (#[trigger] g.vertices@[a]).index < (#[trigger] g.vertices@[b]).index,
{
    let w = g.width as int;
    let h = g.height as int;
    assert forall|id: int| 0 <= id < g.vertices@.len() implies {
        let v = #[trigger] g.vertices@[id];
        &&& v.id == id
        &&& v.index == g.width * v.y + v.x
        &&& 0 <= v.x < g.width && 0 <= v.y < g.height
        &&& rows[v.y as int][v.x as int]
        &&& g.grid@[v.index as int] == Some(id as usize)
    } by {
        let v = g.vertices@[id];
        assert(g.vertex_placed(id));
        assert(v.y * w == w * v.y) by (nonlinear_arith);
        assert(g.cell(v.x as int, v.y as int) is Some);
    }
    assert forall|k: int| 0 <= k < g.grid@.len() implies (#[trigger] g.grid@[k] is Some) == rows[k / w][k % w] by {
        lemma_cell_of(w, h, k);
        assert(g.cell(k % w, k / w) is Some <==> rows[k / w][k % w]);
    }
    assert forall|a: int, b: int|
        0 <= a < b < g.vertices@.len() implies (#[trigger] g.vertices@[a]).index < (#[trigger] g.vertices@[b]).index by {
        lemma_index_in_grid(g, a);
        lemma_index_in_grid(g, b);
        let ia = g.vertices@[a].index as int;
        let ib = g.vertices@[b].index as int;
        if ib < ia {
            assert(g.grid@[ib]->0 < g.grid@[ia]->0);
        }
    }
}

/// Reading a map and building from an array agree: when the rows of the map file `lines`
/// are the rows `grid`, the graph read from the file and the one built from `grid` have the
/// same size, grid and vertices, with the same neighbours and moves.
pub proof fn lemma_map_file_as_array(lines: Seq<String>, grid: Seq<Seq<bool>>, from_file: Graph, from_array: Graph)
    requires
        map_header(lines) matches Ok((h, w, start)) && map_fits(lines, h, w, start) && from_file.width == w
            && from_file.height == h && from_file.matches_rows(map_rows(lines, start, w as nat, h as nat))
            && map_rows(lines, start, w as nat, h as nat) == grid,
        from_file.wf(),
        from_array.wf(),
        from_array.matches_rows(grid),
        grid.len() > 0,
    ensures
        from_file.width == from_array.width,
        from_file.height == from_array.height,
        from_file.grid@ == from_array.grid@,
        from_file.vertices@.len() == from_array.vertices@.len(),
        forall|id: int|
            0 <= id < from_file.vertices@.len() ==> {
                let a = #[trigger] from_file.vertices@[id];
                let b = from_array.vertices@[id];
                &&& a.id == b.id && a.index == b.index && a.x == b.x && a.y == b.y
                &&& a.neighbors@ == b.neighbors@
                &&& a.actions@ == b.actions@
            },
{
    lemma_same_rows_same_graph(from_file, from_array, grid);
}

} // verus!
