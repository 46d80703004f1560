//! Solving a puzzle given in character form, in place.
use vstd::prelude::*;
use crate::laws::{lemma_chars_round_trip, lemma_grid_round_trip, lemma_solution_is_valid_sudoku};
use crate::rules::{
    chars_to_grid, chars_view, consistent, extends, grid_to_chars, is_full, is_solution_of,
    is_valid_sudoku, precedes, solvable, valid_input,
};
use crate::sudoku::Sudoku;

verus! {

/// The cells of a character grid held by nested vectors.
pub open spec fn grid_of(v: Vec<Vec<char>>) -> Seq<Seq<Option<u8>>> {
    chars_to_grid(chars_view(v))
}

pub struct Solution;

impl Solution {
    /// Solves the puzzle in `board` ('.' for an empty cell, '1'..'9' for a
    /// given) by depth-first search, then overwrites every cell of `board` with
    /// the board as the search left it: the first completion in search order
    /// that keeps the givens, or, where no completion exists, the puzzle as it was.
    pub fn solve_sudoku(board: &mut Vec<Vec<char>>)
        requires
            valid_input(chars_view(*old(board))),
        ensures
            valid_input(chars_view(*final(board))),
            extends(grid_of(*final(board)), grid_of(*old(board))),
            !is_full(grid_of(*final(board))) ==> chars_view(*final(board)) == chars_view(*old(board))
                && !solvable(grid_of(*old(board))),
            consistent(grid_of(*old(board))) ==> (solvable(grid_of(*old(board))) <==> is_full(
                grid_of(*final(board)),
            )),
            consistent(grid_of(*old(board))) && is_full(grid_of(*final(board))) ==> is_solution_of(
                grid_of(*final(board)),
                grid_of(*old(board)),
            ) && is_valid_sudoku(grid_of(*final(board))),
            forall|s: Seq<Seq<Option<u8>>>|
                is_solution_of(s, grid_of(*old(board))) ==> !precedes(s, grid_of(*final(board)), 0),
    {
        let ghost before = chars_view(*board);
        let ghost g = grid_of(*board);
        assert forall|r: int| 0 <= r < 9 implies (#[trigger] board@[r])@.len() == 9 by {
            assert(before[r] == board@[r]@);
        }
        let mut s = Sudoku::new(board);
        let solved = s.depth_first(0);
        proof {
            s.lemma_view_is_grid();
            lemma_grid_round_trip(s@);
            lemma_chars_round_trip(before);
        }
        s.output_mut(board);
        proof {
            let f = s@;
            assert(grid_of(*board) == f);
            if solved {
                assert forall|r: int, c: int| 0 <= r < 9 && 0 <= c < 9 implies (#[trigger] f[r][c]).is_some() by {
                    assert(0 <= r + 9 * c);
                }
                if consistent(g) {
                    assert(is_solution_of(f, g));
                    lemma_solution_is_valid_sudoku(f, g);
                }
            } else if consistent(g) && is_full(f) {
                assert(is_solution_of(g, g));
            }
        }
    }
}

} // verus!
