//! General facts about the cell numbering, the character form and solved grids.
use vstd::prelude::*;
use crate::rules::{
    box_col, box_row, cell_at, chars_to_grid, coords_of, grid_to_chars, in_board, index_of,
    is_cell_value, is_full, is_grid, is_input_char, is_solution_of, is_valid_sudoku, precedes,
    sees, valid_input,
};

verus! {

/// Decoding a linear index in 0..81 gives a cell of the board, and encoding
/// that cell gives the index back.
pub proof fn lemma_index_coords_round_trip(n: int)
    requires
        0 <= n < 81,
    ensures
        in_board(coords_of(n).0, coords_of(n).1),
        index_of(coords_of(n).0, coords_of(n).1) == n,
{
}

/// Encoding a cell of the board and decoding the index gives the cell back.
pub proof fn lemma_coords_index_round_trip(r: int, c: int)
    requires
        in_board(r, c),
    ensures
        0 <= index_of(r, c) < 81,
        coords_of(index_of(r, c)) == (r, c),
{
}

/// A grid of '.' and '1'..'9' converted to cells and back is unchanged.
pub proof fn lemma_chars_round_trip(g: Seq<Seq<char>>)
    requires
        valid_input(g),
    ensures
        grid_to_chars(chars_to_grid(g)) == g,
{
    assert(grid_to_chars(chars_to_grid(g)) =~~= g);
}

/// A grid of cells converted to characters is well-formed input, and converts
/// back to the same cells.
pub proof fn lemma_grid_round_trip(g: Seq<Seq<Option<u8>>>)
    requires
        is_grid(g),
    ensures
        valid_input(grid_to_chars(g)),
        chars_to_grid(grid_to_chars(g)) == g,
{
    let t = grid_to_chars(g);
    assert forall|r: int, c: int| in_board(r, c) implies is_input_char(#[trigger] t[r][c]) by {
        assert(is_cell_value(g[r][c]));
    }
    assert forall|r: int, c: int| in_board(r, c) implies chars_to_grid(t)[r][c] == g[r][c] by {
        assert(is_cell_value(g[r][c]));
    }
    assert(chars_to_grid(t) =~~= g);
}

/// In a solution, every row, every column and every 3×3 box holds nine
/// pairwise distinct digits from 1 to 9.
pub proof fn lemma_solution_is_valid_sudoku(s: Seq<Seq<Option<u8>>>, g: Seq<Seq<Option<u8>>>)
    requires
        is_solution_of(s, g),
    ensures
        is_valid_sudoku(s),
{
    assert forall|r: int, c: int| in_board(r, c) implies match #[trigger] s[r][c] {
        Some(d) => 1 <= d <= 9,
        None => false,
    } by {
        assert(is_cell_value(s[r][c]));
    }
    assert forall|r: int, c1: int, c2: int|
        in_board(r, c1) && in_board(r, c2) && c1 != c2 implies #[trigger] s[r][c1] != #[trigger] s[r][c2] by {
        assert(sees(r, c1, r, c2));
        assert(s[r][c1].is_some());
    }
    assert forall|c: int, r1: int, r2: int|
        in_board(r1, c) && in_board(r2, c) && r1 != r2 implies #[trigger] s[r1][c] != #[trigger] s[r2][c] by {
        assert(sees(r1, c, r2, c));
        assert(s[r1][c].is_some());
    }
    assert forall|b: int, k1: int, k2: int|
        0 <= b < 9 && 0 <= k1 < 9 && 0 <= k2 < 9 && k1 != k2 implies #[trigger] s[box_row(b, k1)][box_col(b, k1)]
        != #[trigger] s[box_row(b, k2)][box_col(b, k2)] by {
        let (r1, c1, r2, c2) = (box_row(b, k1), box_col(b, k1), box_row(b, k2), box_col(b, k2));
        assert(in_board(r1, c1) && in_board(r2, c2));
        assert(r1 / 3 == b / 3 && r2 / 3 == b / 3);
        assert(c1 / 3 == b % 3 && c2 / 3 == b % 3);
        assert(!(r1 == r2 && c1 == c2));
        assert(sees(r1, c1, r2, c2));
        assert(s[r1][c1].is_some());
    }
}

/// Two full grids that agree below index `n`, neither preceding the other in
/// search order, agree on every index.
proof fn lemma_agree_from(f1: Seq<Seq<Option<u8>>>, f2: Seq<Seq<Option<u8>>>, n: int)
    requires
        is_full(f1),
        is_full(f2),
        0 <= n <= 81,
        forall|k: int| 0 <= k < n ==> cell_at(f1, k) == cell_at(f2, k),
        !precedes(f1, f2, 0),
        !precedes(f2, f1, 0),
    ensures
        forall|k: int| 0 <= k < 81 ==> cell_at(f1, k) == cell_at(f2, k),
    decreases 81 - n,
{
    if n < 81 {
        let (r, c) = coords_of(n);
        assert(f1[r][c].is_some() && f2[r][c].is_some());
        if cell_at(f1, n).unwrap() < cell_at(f2, n).unwrap() {
            assert(precedes(f1, f2, 0));
        } else if cell_at(f2, n).unwrap() < cell_at(f1, n).unwrap() {
            assert(precedes(f2, f1, 0));
        }
        lemma_agree_from(f1, f2, n + 1);
    }
}

/// Two grids equal at every linear index are equal.
proof fn lemma_equal_by_index(f1: Seq<Seq<Option<u8>>>, f2: Seq<Seq<Option<u8>>>)
    requires
        is_grid(f1),
        is_grid(f2),
        forall|k: int| 0 <= k < 81 ==> cell_at(f1, k) == cell_at(f2, k),
    ensures
        f1 == f2,
{
    assert forall|r: int| 0 <= r < 9 implies #[trigger] f1[r] =~= f2[r] by {
        assert forall|c: int| 0 <= c < 9 implies f1[r][c] == f2[r][c] by {
            assert(cell_at(f1, index_of(r, c)) == cell_at(f2, index_of(r, c)));
        }
    }
    assert(f1 =~= f2);
}

/// A puzzle has at most one solution that no solution precedes in search
/// order: the completion that the search settles on is determined by the puzzle.
pub proof fn lemma_first_solution_unique(
    g: Seq<Seq<Option<u8>>>,
    f1: Seq<Seq<Option<u8>>>,
    f2: Seq<Seq<Option<u8>>>,
)
    requires
        is_solution_of(f1, g),
        is_solution_of(f2, g),
        forall|s: Seq<Seq<Option<u8>>>| is_solution_of(s, g) ==> !precedes(s, f1, 0),
        forall|s: Seq<Seq<Option<u8>>>| is_solution_of(s, g) ==> !precedes(s, f2, 0),
    ensures
        f1 == f2,
{
    assert(!precedes(f1, f2, 0));
    assert(!precedes(f2, f1, 0));
    lemma_agree_from(f1, f2, 0);
    lemma_equal_by_index(f1, f2);
}

} // verus!
