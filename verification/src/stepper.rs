//! One generation of the Life rule under toroidal (wrap-around) adjacency.

use vstd::prelude::*;

use crate::grid::lemma_row_deep_view;
use crate::grid::grid_wf;
use crate::grid::CellState;
use crate::grid::Cells;

verus! {

/// 1 for an alive cell, 0 for a dead one.
pub open spec fn alive_count(s: CellState) -> int {
    if s is Alive {
        1
    } else {
        0
    }
}

/// The index one step up (or left): wraps from 0 to the last index.
pub open spec fn wrap_dec(i: int, len: int) -> int {
    if i == 0 {
        len - 1
    } else {
        i - 1
    }
}

/// The index one step down (or right): wraps from the last index to 0.
pub open spec fn wrap_inc(i: int, len: int) -> int {
    if i == len - 1 {
        0
    } else {
        i + 1
    }
}

/// The eight toroidal neighbor coordinates of cell (r, c) on a rows-by-cols
/// grid, each offset wrapped across the matching edge.
pub open spec fn neighbor_coords(r: int, c: int, rows: int, cols: int) -> Seq<(int, int)> {
    seq![
        (wrap_dec(r, rows), wrap_dec(c, cols)),
        (wrap_dec(r, rows), c),
        (wrap_dec(r, rows), wrap_inc(c, cols)),
        (r, wrap_dec(c, cols)),
        (r, wrap_inc(c, cols)),
        (wrap_inc(r, rows), wrap_dec(c, cols)),
        (wrap_inc(r, rows), c),
        (wrap_inc(r, rows), wrap_inc(c, cols)),
    ]
}

/// The cell of `g` at a coordinate pair.
pub open spec fn cell_at(g: Seq<Seq<CellState>>, p: (int, int)) -> CellState {
    g[p.0][p.1]
}

/// How many of the given coordinates hold an alive cell of `g`.
pub open spec fn count_alive_at(g: Seq<Seq<CellState>>, coords: Seq<(int, int)>) -> int
    decreases coords.len(),
{
    if coords.len() == 0 {
        0
    } else {
        alive_count(cell_at(g, coords[0])) + count_alive_at(g, coords.drop_first())
    }
}

/// The number of alive cells among the eight toroidal neighbors of (r, c).
pub open spec fn neighbor_count(g: Seq<Seq<CellState>>, r: int, c: int) -> int {
    count_alive_at(g, neighbor_coords(r, c, g.len() as int, g[0].len() as int))
}

/// The Life transition rule (B3/S23): three alive neighbors give an alive
/// cell, two leave the cell unchanged, anything else gives a dead cell.
pub open spec fn next_state(s: CellState, n: int) -> CellState {
    if n == 3 {
        CellState::Alive
    } else if n == 2 {
        s
    } else {
        CellState::Dead
    }
}

/// Rule correctness: with exactly 3 alive neighbors the next state is Alive
/// regardless of the current state; with exactly 2 it equals the current
/// state; with 0, 1, or 4 and more it is Dead.
pub proof fn lemma_rule_correctness(s: CellState, n: int)
    ensures
        n == 3 ==> next_state(s, n) == CellState::Alive,
        n == 2 ==> next_state(s, n) == s,
        n <= 1 || n >= 4 ==> next_state(s, n) == CellState::Dead,
{
}

/// A count of alive cells is never negative.
proof fn lemma_count_nonneg(g: Seq<Seq<CellState>>, coords: Seq<(int, int)>)
    ensures
        count_alive_at(g, coords) >= 0,
    decreases coords.len(),
{
    if coords.len() > 0 {
        lemma_count_nonneg(g, coords.drop_first());
    }
}

/// An alive cell at any of the counted coordinates makes the count positive.
proof fn lemma_count_member(g: Seq<Seq<CellState>>, coords: Seq<(int, int)>, p: (int, int))
    requires
        coords.contains(p),
        cell_at(g, p) is Alive,
    ensures
        count_alive_at(g, coords) >= 1,
    decreases coords.len(),
{
    lemma_count_nonneg(g, coords.drop_first());
    if coords[0] != p {
        let rest = coords.drop_first();
        let k = choose|k: int| 0 <= k < coords.len() && coords[k] == p;
        assert(rest[k - 1] == p);
        assert(rest.contains(p));
        lemma_count_member(g, rest, p);
    }
}

/// Toroidal adjacency symmetry: on a grid with at least 2 rows and 2 columns,
/// the neighbors of a cell in the first row include the cell in the same
/// column of the last row, and vice versa; likewise for the first and last
/// columns. Consequently an alive cell on one edge is counted among the
/// neighbors of the facing cell on the opposite edge.
pub proof fn lemma_toroidal_adjacency(g: Seq<Seq<CellState>>, r: int, c: int)
    requires
        grid_wf(g),
        g.len() >= 2,
        g[0].len() >= 2,
        0 <= r < g.len(),
        0 <= c < g[0].len(),
    ensures
        neighbor_coords(0, c, g.len() as int, g[0].len() as int).contains(
            (g.len() - 1, c),
        ),
        neighbor_coords(g.len() - 1, c, g.len() as int, g[0].len() as int).contains((0int, c)),
        neighbor_coords(r, 0, g.len() as int, g[0].len() as int).contains(
            (r, g[0].len() - 1),
        ),
        neighbor_coords(r, g[0].len() - 1, g.len() as int, g[0].len() as int).contains((r, 0int)),
        g[g.len() - 1][c] is Alive ==> neighbor_count(g, 0, c) >= 1,
        g[0][c] is Alive ==> neighbor_count(g, g.len() - 1, c) >= 1,
        g[r][g[0].len() - 1] is Alive ==> neighbor_count(g, r, 0) >= 1,
        g[r][0] is Alive ==> neighbor_count(g, r, g[0].len() - 1) >= 1,
{
    let rows = g.len() as int;
    let cols = g[0].len() as int;
    assert(neighbor_coords(0, c, rows, cols)[1] == (rows - 1, c));
    assert(neighbor_coords(rows - 1, c, rows, cols)[6] == (0int, c));
    assert(neighbor_coords(r, 0, rows, cols)[3] == (r, cols - 1));
    assert(neighbor_coords(r, cols - 1, rows, cols)[4] == (r, 0int));
    if g[rows - 1][c] is Alive {
        lemma_count_member(g, neighbor_coords(0, c, rows, cols), (rows - 1, c));
    }
    if g[0][c] is Alive {
        lemma_count_member(g, neighbor_coords(rows - 1, c, rows, cols), (0int, c));
    }
    if g[r][cols - 1] is Alive {
        lemma_count_member(g, neighbor_coords(r, 0, rows, cols), (r, cols - 1));
    }
    if g[r][0] is Alive {
        lemma_count_member(g, neighbor_coords(r, cols - 1, rows, cols), (r, 0int));
    }
}

/// A count over exactly eight coordinates is the sum of the eight cells.
proof fn lemma_count_eight(g: Seq<Seq<CellState>>, cs: Seq<(int, int)>)
    requires
        cs.len() == 8,
    ensures
        count_alive_at(g, cs) == alive_count(cell_at(g, cs[0])) + alive_count(cell_at(g, cs[1]))
            + alive_count(cell_at(g, cs[2])) + alive_count(cell_at(g, cs[3])) + alive_count(
            cell_at(g, cs[4]),
        ) + alive_count(cell_at(g, cs[5])) + alive_count(cell_at(g, cs[6])) + alive_count(
            cell_at(g, cs[7]),
        ),
{
    let c1 = cs.drop_first();
    let c2 = c1.drop_first();
    let c3 = c2.drop_first();
    let c4 = c3.drop_first();
    let c5 = c4.drop_first();
    let c6 = c5.drop_first();
    let c7 = c6.drop_first();
    let c8 = c7.drop_first();
    assert(c8.len() == 0);
    assert(count_alive_at(g, c8) == 0);
    assert(c7[0] == cs[7]);
    assert(c6[0] == cs[6]);
    assert(c5[0] == cs[5]);
    assert(c4[0] == cs[4]);
    assert(c3[0] == cs[3]);
    assert(c2[0] == cs[2]);
    assert(c1[0] == cs[1]);
    assert(count_alive_at(g, c7) == alive_count(cell_at(g, cs[7])) + count_alive_at(g, c8));
    assert(count_alive_at(g, c6) == alive_count(cell_at(g, cs[6])) + count_alive_at(g, c7));
    assert(count_alive_at(g, c5) == alive_count(cell_at(g, cs[5])) + count_alive_at(g, c6));
    assert(count_alive_at(g, c4) == alive_count(cell_at(g, cs[4])) + count_alive_at(g, c5));
    assert(count_alive_at(g, c3) == alive_count(cell_at(g, cs[3])) + count_alive_at(g, c4));
    assert(count_alive_at(g, c2) == alive_count(cell_at(g, cs[2])) + count_alive_at(g, c3));
    assert(count_alive_at(g, c1) == alive_count(cell_at(g, cs[1])) + count_alive_at(g, c2));
    assert(count_alive_at(g, cs) == alive_count(cell_at(g, cs[0])) + count_alive_at(g, c1));
}

/// The index one step up (or left), wrapping across the edge.
fn wrap_dec_idx(i: usize, len: usize) -> (r: usize)
    requires
        len >= 1,
        i < len,
    ensures
        r == wrap_dec(i as int, len as int),
        r < len,
{
    if i == 0 {
        len - 1
    } else {
        i - 1
    }
}

/// The index one step down (or right), wrapping across the edge.
fn wrap_inc_idx(i: usize, len: usize) -> (r: usize)
    requires
        len >= 1,
        i < len,
    ensures
        r == wrap_inc(i as int, len as int),
        r < len,
{
    if i == len - 1 {
        0
    } else {
        i + 1
    }
}

/// Count the alive cells among the eight toroidal neighbors of (r, c).
fn count_neighbors(cells: &Cells, r: usize, c: usize) -> (n: u8)
    requires
        grid_wf(cells.deep_view()),
        cells.deep_view().len() >= 2,
        cells.deep_view()[0].len() >= 2,
        r < cells.deep_view().len(),
        c < cells.deep_view()[0].len(),
    ensures
        n == neighbor_count(cells.deep_view(), r as int, c as int),
        n <= 8,
{
    broadcast use lemma_row_deep_view;

    let ghost g = cells.deep_view();
    let rows = cells.len();
    let cols = cells[0].len();
    let rm = wrap_dec_idx(r, rows);
    let rp = wrap_inc_idx(r, rows);
    let cm = wrap_dec_idx(c, cols);
    let cp = wrap_inc_idx(c, cols);
    proof {
        assert(g[rm as int] == cells@[rm as int].deep_view());
        assert(g[r as int] == cells@[r as int].deep_view());
        assert(g[rp as int] == cells@[rp as int].deep_view());
        lemma_row_deep_view(cells@[rm as int]);
        lemma_row_deep_view(cells@[r as int]);
        lemma_row_deep_view(cells@[rp as int]);
        assert(g[rm as int].len() == cols);
        assert(g[r as int].len() == cols);
        assert(g[rp as int].len() == cols);
    }
    let mut n: u8 = 0;
    if cells[rm][cm] == CellState::Alive {
        n += 1;
    }
    if cells[rm][c] == CellState::Alive {
        n += 1;
    }
    if cells[rm][cp] == CellState::Alive {
        n += 1;
    }
    if cells[r][cm] == CellState::Alive {
        n += 1;
    }
    if cells[r][cp] == CellState::Alive {
        n += 1;
    }
    if cells[rp][cm] == CellState::Alive {
        n += 1;
    }
    if cells[rp][c] == CellState::Alive {
        n += 1;
    }
    if cells[rp][cp] == CellState::Alive {
        n += 1;
    }
    proof {
        let cs = neighbor_coords(r as int, c as int, rows as int, cols as int);
        lemma_count_eight(g, cs);
    }
    n
}

/// Compute the successor of a cell from its state and its alive-neighbor
/// count.
fn cell_next_state(curr: CellState, n: u8) -> (s: CellState)
    ensures
        s == next_state(curr, n as int),
{
    if n == 3 {
        CellState::Alive
    } else if n == 2 {
        curr
    } else {
        CellState::Dead
    }
}

/// Compute one generation: overwrite every cell of `cells_next` with the
/// successor state of the matching cell of `cells` under the Life rule with
/// toroidal adjacency. `cells` itself is only read.
pub fn step_toroidal(cells: &Cells, cells_next: &mut Cells)
    requires
        grid_wf(cells.deep_view()),
        cells.deep_view().len() >= 2,
        cells.deep_view()[0].len() >= 2,
        grid_wf(old(cells_next).deep_view()),
        old(cells_next).deep_view().len() == cells.deep_view().len(),
        old(cells_next).deep_view()[0].len() == cells.deep_view()[0].len(),
    ensures
        grid_wf(final(cells_next).deep_view()),
        final(cells_next).deep_view().len() == cells.deep_view().len(),
        forall|i: int|
            0 <= i < cells.deep_view().len() ==> (#[trigger] final(cells_next).deep_view()[i]).len()
                == cells.deep_view()[0].len(),
        forall|i: int, j: int|
            0 <= i < cells.deep_view().len() && 0 <= j < cells.deep_view()[0].len()
                ==> final(cells_next).deep_view()[i][j] == next_state(
                cells.deep_view()[i][j],
                neighbor_count(cells.deep_view(), i, j),
            ),
{
    broadcast use lemma_row_deep_view;

    let ghost g = cells.deep_view();
    let rows = cells.len();
    let cols = cells[0].len();
    let mut r: usize = 0;
    while r < rows
        invariant
            grid_wf(g),
            g == cells.deep_view(),
            rows == g.len(),
            cols == g[0].len(),
            rows >= 2,
            cols >= 2,
            r <= rows,
            cells_next.deep_view().len() == rows,
            forall|i: int|
                0 <= i < rows ==> (#[trigger] cells_next.deep_view()[i]).len() == cols,
            forall|i: int, j: int|
                0 <= i < r && 0 <= j < cols ==> cells_next.deep_view()[i][j] == next_state(
                    g[i][j],
                    neighbor_count(g, i, j),
                ),
        decreases rows - r,
    {
        let mut c: usize = 0;
        while c < cols
            invariant
                grid_wf(g),
                g == cells.deep_view(),
                rows == g.len(),
                cols == g[0].len(),
                rows >= 2,
                cols >= 2,
                r < rows,
                c <= cols,
                cells_next.deep_view().len() == rows,
                forall|i: int|
                    0 <= i < rows ==> (#[trigger] cells_next.deep_view()[i]).len() == cols,
                forall|i: int, j: int|
                    0 <= i < r && 0 <= j < cols ==> cells_next.deep_view()[i][j] == next_state(
                        g[i][j],
                        neighbor_count(g, i, j),
                    ),
                forall|j: int|
                    0 <= j < c ==> cells_next.deep_view()[r as int][j] == next_state(
                        g[r as int][j],
                        neighbor_count(g, r as int, j),
                    ),
            decreases cols - c,
        {
            let n = count_neighbors(cells, r, c);
            proof {
                assert(g[r as int] == cells@[r as int].deep_view());
                lemma_row_deep_view(cells@[r as int]);
                assert(g[r as int].len() == cols);
            }
            let s = cell_next_state(cells[r][c], n);
            let ghost prev = cells_next@;
            let ghost before = cells_next.deep_view();
            proof {
                assert(before[r as int] == prev[r as int].deep_view());
                lemma_row_deep_view(prev[r as int]);
            }
            cells_next[r][c] = s;
            proof {
                assert(cells_next@.len() == rows);
                assert forall|i: int| 0 <= i < rows implies #[trigger] cells_next.deep_view()[i]
                    == (if i == r as int {
                    before[i].update(c as int, s)
                } else {
                    before[i]
                }) by {
                    assert(cells_next.deep_view()[i] == cells_next@[i].deep_view());
                    assert(before[i] == prev[i].deep_view());
                    lemma_row_deep_view(cells_next@[i]);
                    lemma_row_deep_view(prev[i]);
                    if i == r as int {
                        assert(cells_next@[i]@ =~= prev[i]@.update(c as int, s));
                    } else {
                        assert(cells_next@[i] == prev[i]);
                    }
                }
            }
            c += 1;
        }
        r += 1;
    }
}

} // verus!
