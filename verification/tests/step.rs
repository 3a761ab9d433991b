use life::parse_life;
use life::step_toroidal;
use life::CellState;
use life::Cells;
use life::TableLike;

fn dead_grid(rows: usize, cols: usize) -> Cells {
    vec![vec![CellState::Dead; cols]; rows]
}

fn grid_with_alive(rows: usize, cols: usize, alive: &[(usize, usize)]) -> Cells {
    let mut g = dead_grid(rows, cols);
    for &(r, c) in alive {
        g[r][c] = CellState::Alive;
    }
    g
}

#[test]
fn block_is_a_still_life() {
    let current = grid_with_alive(4, 4, &[(1, 1), (1, 2), (2, 1), (2, 2)]);
    let mut next = dead_grid(4, 4);
    step_toroidal(&current, &mut next);
    assert_eq!(next, current);
}

#[test]
fn step_does_not_modify_current() {
    let current = grid_with_alive(4, 4, &[(0, 0), (1, 1), (1, 2), (3, 2)]);
    let snapshot = current.clone();
    let mut next = dead_grid(4, 4);
    step_toroidal(&current, &mut next);
    assert_eq!(current, snapshot);
}

#[test]
fn blinker_oscillates() {
    let vertical = grid_with_alive(5, 5, &[(1, 2), (2, 2), (3, 2)]);
    let horizontal = grid_with_alive(5, 5, &[(2, 1), (2, 2), (2, 3)]);
    let mut next = dead_grid(5, 5);
    step_toroidal(&vertical, &mut next);
    assert_eq!(next, horizontal);
    let mut back = dead_grid(5, 5);
    step_toroidal(&next, &mut back);
    assert_eq!(back, vertical);
}

#[test]
fn top_row_wraps_to_bottom() {
    // A full top row on a 3x3 torus: each top cell keeps 2 alive neighbors
    // (left and right, wrapping), and every cell of the two other rows is
    // adjacent to all 3 top cells - the bottom row through the wrap - so
    // the whole grid becomes alive. Without wrap-around the bottom row
    // would stay dead.
    let current = grid_with_alive(3, 3, &[(0, 0), (0, 1), (0, 2)]);
    let mut next = dead_grid(3, 3);
    step_toroidal(&current, &mut next);
    let all_alive = vec![vec![CellState::Alive; 3]; 3];
    assert_eq!(next, all_alive);
}

#[test]
fn lonely_cell_dies_and_three_neighbors_give_birth() {
    // One alive cell dies (0 neighbors); a cell with exactly 3 alive
    // neighbors becomes alive whatever its state was.
    let current = grid_with_alive(5, 5, &[(1, 1), (1, 3), (3, 2)]);
    let mut next = dead_grid(5, 5);
    step_toroidal(&current, &mut next);
    // Each of the three alive cells has fewer than 2 alive neighbors.
    assert_eq!(next[1][1], CellState::Dead);
    assert_eq!(next[1][3], CellState::Dead);
    assert_eq!(next[3][2], CellState::Dead);
    // (2, 2) is dead with exactly 3 alive neighbors: born.
    assert_eq!(next[2][2], CellState::Alive);
}

#[test]
fn glider_translates_by_one_one_after_four_steps() {
    let start: &[(usize, usize)] = &[(0, 1), (1, 2), (2, 0), (2, 1), (2, 2)];
    let shifted: Vec<(usize, usize)> = start.iter().map(|&(r, c)| (r + 1, c + 1)).collect();
    let mut current = grid_with_alive(8, 8, start);
    let mut next = dead_grid(8, 8);
    for _ in 0..4 {
        step_toroidal(&current, &mut next);
        std::mem::swap(&mut current, &mut next);
    }
    let expected = grid_with_alive(8, 8, &shifted);
    assert_eq!(current, expected);
}

#[test]
fn parsed_grid_steps_like_a_seeded_one() {
    let parsed = parse_life(String::from("!block\nOO\nOO\n")).unwrap();
    assert_eq!(parsed.num_rows(), 2);
    assert_eq!(parsed.num_cols(), 2);
    assert_eq!(parsed.last_row(), 1);
    assert_eq!(parsed.last_col(), 1);
    // On a 2x2 torus every cell of the full block counts each of the other
    // three several times over the wrap: 8 alive neighbors, so all die.
    let mut next = dead_grid(2, 2);
    step_toroidal(&parsed, &mut next);
    assert_eq!(next, dead_grid(2, 2));
}
