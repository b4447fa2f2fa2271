//! Classifying a board as won, drawn or still open.
use vstd::prelude::*;

use crate::board::{valid_grid, Board, Grid, Player, HEIGHT, WIDTH};

verus! {

/// The state of the game on a board.
#[derive(Debug, Copy, Clone, PartialEq, Eq, Structural, PartialOrd, Ord)]
pub enum Result {
    Win(Player),
    Draw,
    Ongoing,
}

/// The cell at `(x, y)` and the three cells after it in direction `(dx, dy)` lie on the board
/// and hold the same value.
pub open spec fn same_line(g: Grid, x: int, y: int, dx: int, dy: int) -> bool {
    let p = g[x][y];
    &&& 0 <= x + 3 * dx < WIDTH
    &&& 0 <= y + 3 * dy < HEIGHT
    &&& g[x + dx][y + dy] == p
    &&& g[x + 2 * dx][y + 2 * dy] == p
    &&& g[x + 3 * dx][y + 3 * dy] == p
}

/// A piece at `(x, y)` starts four in a row: rightward, upward, up-right or up-left.
pub open spec fn line_at(g: Grid, x: int, y: int) -> bool {
    &&& g[x][y] != Player::Empty
    &&& same_line(g, x, y, 1, 0) || same_line(g, x, y, 0, 1) || same_line(g, x, y, 1, 1)
        || same_line(g, x, y, -1, 1)
}

/// No cell of the grid is empty.
pub open spec fn grid_full(g: Grid) -> bool {
    forall|c: int, r: int| 0 <= c < WIDTH && 0 <= r < HEIGHT ==> #[trigger] g[c][r] != Player::Empty
}

/// The result of scanning cells from `(x, y)` on, column by column and upward within a
/// column: the owner of the first cell that starts four in a row wins; with no such cell
/// the game is drawn when the grid is full and open otherwise.
pub open spec fn scan_from(g: Grid, x: int, y: int) -> Result
    decreases WIDTH - x, HEIGHT - y,
{
    if x < 0 || y < 0 || x >= WIDTH {
        if grid_full(g) {
            Result::Draw
        } else {
            Result::Ongoing
        }
    } else if y >= HEIGHT {
        scan_from(g, x + 1, 0)
    } else if line_at(g, x, y) {
        Result::Win(g[x][y])
    } else {
        scan_from(g, x, y + 1)
    }
}

/// The result of a grid: the scan from the first cell.
pub open spec fn result_of(g: Grid) -> Result {
    scan_from(g, 0, 0)
}

fn is_full_board(board: &Board) -> (r: bool)
    requires
        board.wf(),
    ensures
        r == grid_full(board@),
{
    let ghost g = board@;
    let mut x: usize = 0;
    while x < WIDTH
        invariant
            x <= WIDTH,
            g == board@,
            valid_grid(g),
            forall|c: int, r: int| 0 <= c < x && 0 <= r < HEIGHT ==> #[trigger] g[c][r] != Player::Empty,
        decreases WIDTH - x,
    {
        let mut y: usize = 0;
        while y < HEIGHT
            invariant
                x < WIDTH,
                y <= HEIGHT,
                g == board@,
                valid_grid(g),
                forall|c: int, r: int|
                    0 <= c < x && 0 <= r < HEIGHT ==> #[trigger] g[c][r] != Player::Empty,
                forall|r: int| 0 <= r < y ==> #[trigger] g[x as int][r] != Player::Empty,
            decreases HEIGHT - y,
        {
            let cell = board.0[x][y];
            assert(cell == g[x as int][y as int]);
            if cell == Player::Empty {
                return false;
            }
            y += 1;
        }
        x += 1;
    }
    true
}

impl Result {
    /// Classifies a board. Cells are scanned column by column from column 0 and upward within
    /// a column; the first filled cell that starts four in a row (rightward, upward, up-right
    /// or up-left) names the winner. Without such a cell the game is a draw when no cell is
    /// empty, and ongoing otherwise.
    pub fn from_board(board: &Board) -> (r: Result)
        requires
            board.wf(),
        ensures
            r == result_of(board@),
    {
        let ghost g = board@;
        let mut x: usize = 0;
        while x < WIDTH
            invariant
                x <= WIDTH,
                g == board@,
                valid_grid(g),
                scan_from(g, x as int, 0) == result_of(g),
            decreases WIDTH - x,
        {
            let mut y: usize = 0;
            while y < HEIGHT
                invariant
                    x < WIDTH,
                    y <= HEIGHT,
                    g == board@,
                    valid_grid(g),
                    scan_from(g, x as int, y as int) == result_of(g),
                decreases HEIGHT - y,
            {
                let player = board.0[x][y];
                assert(player == g[x as int][y as int]);
                if player != Player::Empty {
                    if x + 3 < WIDTH && board.0[x + 1][y] == player && board.0[x + 2][y] == player
                        && board.0[x + 3][y] == player {
                        assert(same_line(g, x as int, y as int, 1, 0));
                        return Result::Win(player);
                    }
                    if y + 3 < HEIGHT && board.0[x][y + 1] == player && board.0[x][y + 2] == player
                        && board.0[x][y + 3] == player {
                        assert(same_line(g, x as int, y as int, 0, 1));
                        return Result::Win(player);
                    }
                    if x + 3 < WIDTH && y + 3 < HEIGHT && board.0[x + 1][y + 1] == player
                        && board.0[x + 2][y + 2] == player && board.0[x + 3][y + 3] == player {
                        assert(same_line(g, x as int, y as int, 1, 1));
                        return Result::Win(player);
                    }
                    if x >= 3 && y + 3 < HEIGHT && board.0[x - 1][y + 1] == player
                        && board.0[x - 2][y + 2] == player && board.0[x - 3][y + 3] == player {
                        assert(same_line(g, x as int, y as int, -1, 1));
                        return Result::Win(player);
                    }
                }
                assert(!line_at(g, x as int, y as int));
                y += 1;
            }
            x += 1;
        }
        if is_full_board(board) {
            Result::Draw
        } else {
            Result::Ongoing
        }
    }
}

} // verus!
