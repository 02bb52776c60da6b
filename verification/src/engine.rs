//! The transition engine: Conway's rule, applied to every in-bounds
//! coordinate of a board to produce the next generation.

use crate::board::Board;
use crate::board::Cell;
use vstd::prelude::*;

verus! {

broadcast use vstd::seq_lib::group_seq_properties;

/// Conway's rule at one coordinate: alive in the next generation exactly
/// when it has three alive neighbours, or has two and is itself alive.
pub open spec fn rule_alive(b: Board, c: Cell) -> bool {
    b.neighbour_count(c) == 3 || (b.neighbour_count(c) == 2 && b.alive().contains(c))
}

/// Alive in the next generation: in bounds and selected by Conway's rule.
pub open spec fn next_alive(b: Board, c: Cell) -> bool {
    b.in_bounds(c) && rule_alive(b, c)
}

impl Cell {
    /// Fewer than two alive neighbours: the cell dies of isolation.
    pub fn underpopulated(&self, board: &Board) -> (r: bool)
        ensures
            r == (board.neighbour_count(*self) < 2),
    {
        board.neighbours(self).len() < 2
    }

    /// More than three alive neighbours: the cell dies of crowding.
    pub fn overpopulated(&self, board: &Board) -> (r: bool)
        ensures
            r == (board.neighbour_count(*self) > 3),
    {
        board.neighbours(self).len() > 3
    }

    /// An alive cell with two or three alive neighbours survives.
    pub fn stays_alive(&self, board: &Board) -> (r: bool)
        ensures
            r == (2 <= board.neighbour_count(*self) <= 3 && board.alive().contains(*self)),
    {
        let n = board.neighbours(self).len();
        (n == 2 || n == 3) && board.is_alive(self)
    }

    /// Exactly three alive neighbours: the coordinate is born, whether or
    /// not it is currently alive.
    pub fn reproduce(&self, board: &Board) -> (r: bool)
        ensures
            r == (board.neighbour_count(*self) == 3),
    {
        board.neighbours(self).len() == 3
    }

    /// Conway's rule for this coordinate, combined from the named
    /// predicates. Survival and birth overlap at three neighbours, which is
    /// intentional.
    pub fn in_next_gen(&self, board: &Board) -> (r: bool)
        ensures
            r == rule_alive(*board, *self),
    {
        !self.underpopulated(board) && !self.overpopulated(board) && (self.stays_alive(board)
            || self.reproduce(board))
    }
}

impl Board {
    /// The next generation: a board of the same dimensions whose alive set
    /// is exactly the in-bounds coordinates selected by Conway's rule.
    pub fn next_board(board: &Board) -> (next: Board)
        ensures
            next.spec_width() == board.spec_width(),
            next.spec_height() == board.spec_height(),
            forall|c: Cell| next.alive().contains(c) <==> next_alive(*board, c),
    {
        let width = board.width();
        let height = board.height();
        let mut cells: Vec<Cell> = Vec::new();
        let mut x: i32 = 0;
        while x < width
            invariant
                width == board.spec_width(),
                height == board.spec_height(),
                0 < width,
                0 < height,
                0 <= x <= width,
                forall|i: int|
                    0 <= i < cells@.len() ==> 0 <= (#[trigger] cells@[i]).x < width
                        && 0 <= cells@[i].y < height,
                cells@.no_duplicates(),
                forall|c: Cell|
                    #[trigger] cells@.contains(c) <==> (next_alive(*board, c) && c.x < x),
            decreases width - x,
        {
            let mut y: i32 = 0;
            while y < height
                invariant
                    width == board.spec_width(),
                    height == board.spec_height(),
                    0 < width,
                    0 < height,
                    0 <= x < width,
                    0 <= y <= height,
                    forall|i: int|
                        0 <= i < cells@.len() ==> 0 <= (#[trigger] cells@[i]).x < width
                            && 0 <= cells@[i].y < height,
                    cells@.no_duplicates(),
                    forall|c: Cell|
                        #[trigger] cells@.contains(c) <==> (next_alive(*board, c) && (c.x < x
                            || (c.x == x && c.y < y))),
                decreases height - y,
            {
                let ghost s0 = cells@;
                let cv = Cell { x, y };
                if cv.in_next_gen(board) {
                    proof {
                        assert(!cells@.contains(cv));
                    }
                    cells.push(cv);
                    proof {
                        assert(cells@.no_duplicates()) by {
                            assert(!s0.contains(cv));
                            assert(forall|j: int| 0 <= j < s0.len() ==> s0[j] != cv);
                            assert(forall|j: int|
                                0 <= j < s0.len() ==> cells@[j] == s0[j]);
                        }
                    }
                }
                proof {
                    assert forall|c: Cell|
                        #[trigger] cells@.contains(c) <==> (next_alive(*board, c) && (c.x < x
                            || (c.x == x && c.y < y + 1))) by {
                        if c == cv {
                            assert(board.in_bounds(cv));
                            if cells@.contains(cv) && cells@ == s0 {
                                assert(false);
                            }
                        }
                    }
                }
                y = y + 1;
            }
            x = x + 1;
        }
        let next = Board::from_cells(width, height, cells);
        proof {
            assert forall|c: Cell|
                next.alive().contains(c) <==> next_alive(*board, c) by {
                if next_alive(*board, c) {
                    assert(board.in_bounds(c));
                }
            }
        }
        next
    }
}

} // verus!
