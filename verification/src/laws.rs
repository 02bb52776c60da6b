//! General properties of the board and the transition engine, stated over
//! the same specifications that the executable functions promise.

use crate::board::is_neighbour;
use crate::board::Board;
use crate::board::Cell;
use crate::engine::next_alive;
use vstd::prelude::*;
use vstd::set_lib::lemma_len_subset;

verus! {

broadcast use crate::board::lemma_neighbour_pred, vstd::set::group_set_axioms;

/// The four cells of the 2x2 block at the origin.
pub open spec fn block_cells() -> Set<Cell> {
    set![
        Cell { x: 0, y: 0 },
        Cell { x: 0, y: 1 },
        Cell { x: 1, y: 0 },
        Cell { x: 1, y: 1 },
    ]
}

/// Determinism: the next generation is a function of the current board
/// alone. Any two boards whose alive sets satisfy the contract of
/// [`Board::next_board`] for the same input have identical alive sets.
pub proof fn lemma_next_deterministic(b: Board, r1: Board, r2: Board)
    requires
        forall|c: Cell| #[trigger] r1.alive().contains(c) <==> next_alive(b, c),
        forall|c: Cell| #[trigger] r2.alive().contains(c) <==> next_alive(b, c),
    ensures
        r1.alive() == r2.alive(),
{
    assert(r1.alive() =~= r2.alive());
}

/// Overpopulation: a coordinate with four or more alive neighbours is dead
/// in the next generation, even if it is alive now.
pub proof fn lemma_overpopulation(b: Board, c: Cell)
    requires
        b.neighbour_count(c) >= 4,
    ensures
        !next_alive(b, c),
{
}

/// Birth: a dead in-bounds coordinate with exactly three alive neighbours
/// is alive in the next generation.
pub proof fn lemma_birth(b: Board, c: Cell)
    requires
        b.in_bounds(c),
        !b.alive().contains(c),
        b.neighbour_count(c) == 3,
    ensures
        next_alive(b, c),
{
}

/// Underpopulation: on a grid of at least 3 x 3 whose only alive cell is
/// (1, 1), every coordinate is dead in the next generation.
pub proof fn lemma_underpopulation_isolated(b: Board)
    requires
        b.spec_width() >= 3,
        b.spec_height() >= 3,
        b.alive() == set![Cell { x: 1, y: 1 }],
    ensures
        forall|c: Cell| !next_alive(b, c),
{
    assert forall|c: Cell| !next_alive(b, c) by {
        assert(b.live_neighbours(c).subset_of(b.alive()));
        lemma_len_subset(b.live_neighbours(c), b.alive());
        assert(b.alive().len() == 1);
    }
}

/// A 2x2 block of alive cells at the origin is a still life: on any grid of
/// at least 2 x 2 it maps to itself under the transition rule.
pub proof fn lemma_block_still_life(b: Board)
    requires
        b.spec_width() >= 2,
        b.spec_height() >= 2,
        b.alive() == block_cells(),
    ensures
        forall|c: Cell| next_alive(b, c) <==> b.alive().contains(c),
{
    let c00 = Cell { x: 0, y: 0 };
    let c01 = Cell { x: 0, y: 1 };
    let c10 = Cell { x: 1, y: 0 };
    let c11 = Cell { x: 1, y: 1 };
    assert forall|c: Cell| next_alive(b, c) <==> b.alive().contains(c) by {
        if b.alive().contains(c) {
            if c == c00 {
                assert(b.live_neighbours(c) =~= set![c01, c10, c11]);
            } else if c == c01 {
                assert(b.live_neighbours(c) =~= set![c00, c10, c11]);
            } else if c == c10 {
                assert(b.live_neighbours(c) =~= set![c00, c01, c11]);
            } else {
                assert(c == c11);
                assert(b.live_neighbours(c) =~= set![c00, c01, c10]);
            }
            assert(b.neighbour_count(c) == 3);
            assert(b.in_bounds(c));
        } else {
            // At most one cell of each diagonal pair of the block is a
            // neighbour of c; were both, c would lie inside the block.
            if is_neighbour(c, c00) && is_neighbour(c, c11) {
                assert(b.alive().contains(c));
                assert(false);
            }
            if is_neighbour(c, c01) && is_neighbour(c, c10) {
                assert(b.alive().contains(c));
                assert(false);
            }
            let m1 = if is_neighbour(c, c00) { c11 } else { c00 };
            let m2 = if is_neighbour(c, c01) { c10 } else { c01 };
            let others = block_cells().remove(m1).remove(m2);
            assert(!b.live_neighbours(c).contains(m1));
            assert(!b.live_neighbours(c).contains(m2));
            assert(b.live_neighbours(c).subset_of(others));
            assert(others.len() == 2);
            lemma_len_subset(b.live_neighbours(c), others);
            assert(b.neighbour_count(c) <= 2);
        }
    }
}

} // verus!
