//! The mathematical model of a 9×9 Sudoku grid and of its rules.
use vstd::prelude::*;

verus! {

/// A cell holds nothing, or a digit from 1 to 9.
pub open spec fn is_cell_value(v: Option<u8>) -> bool {
    match v {
        Some(d) => 1 <= d <= 9,
        None => true,
    }
}

/// Nine rows of nine cells, each empty or holding a digit from 1 to 9.
pub open spec fn is_grid(g: Seq<Seq<Option<u8>>>) -> bool {
    &&& g.len() == 9
    &&& forall|r: int| 0 <= r < 9 ==> (#[trigger] g[r]).len() == 9
    &&& forall|r: int, c: int| 0 <= r < 9 && 0 <= c < 9 ==> is_cell_value(#[trigger] g[r][c])
}

pub open spec fn in_board(r: int, c: int) -> bool {
    0 <= r < 9 && 0 <= c < 9
}

/// The grid with cell (r, c) overwritten by `v`.
pub open spec fn set_cell(g: Seq<Seq<Option<u8>>>, r: int, c: int, v: Option<u8>) -> Seq<
    Seq<Option<u8>>,
> {
    g.update(r, g[r].update(c, v))
}

/// Cell (r2, c2) shares a row, a column or a 3×3 box with cell (r, c)
/// (a cell shares all three with itself).
pub open spec fn sees(r: int, c: int, r2: int, c2: int) -> bool {
    r == r2 || c == c2 || (r / 3 == r2 / 3 && c / 3 == c2 / 3)
}

/// Digit `d` appears nowhere in the row, the column or the box of cell (r, c).
pub open spec fn allowed(g: Seq<Seq<Option<u8>>>, r: int, c: int, d: u8) -> bool {
    forall|r2: int, c2: int|
        in_board(r2, c2) && sees(r, c, r2, c2) ==> #[trigger] g[r2][c2] != Some(d)
}

/// `s` lists, in strictly ascending order, exactly the digits allowed at (r, c).
pub open spec fn is_candidate_list(g: Seq<Seq<Option<u8>>>, r: int, c: int, s: Seq<u8>) -> bool {
    &&& forall|k: int| 0 <= k < s.len() ==> 1 <= #[trigger] s[k] <= 9 && allowed(g, r, c, s[k])
    &&& forall|k1: int, k2: int| 0 <= k1 < k2 < s.len() ==> s[k1] < s[k2]
    &&& forall|d: u8| 1 <= d <= 9 && allowed(g, r, c, d) ==> s.contains(d)
}

/// No two distinct cells that share a row, a column or a box hold the same digit.
pub open spec fn consistent(g: Seq<Seq<Option<u8>>>) -> bool {
    forall|r: int, c: int, r2: int, c2: int|
        in_board(r, c) && in_board(r2, c2) && sees(r, c, r2, c2) && !(r == r2 && c == c2)
            && (#[trigger] g[r][c]).is_some() ==> g[r][c] != #[trigger] g[r2][c2]
}

/// Every cell holds a digit.
pub open spec fn is_full(g: Seq<Seq<Option<u8>>>) -> bool {
    forall|r: int, c: int| in_board(r, c) ==> (#[trigger] g[r][c]).is_some()
}

/// `s` keeps every digit that `g` holds.
pub open spec fn extends(s: Seq<Seq<Option<u8>>>, g: Seq<Seq<Option<u8>>>) -> bool {
    forall|r: int, c: int| in_board(r, c) && (#[trigger] g[r][c]).is_some() ==> s[r][c] == g[r][c]
}

/// `s` is a completed, rule-abiding grid that keeps the givens of `g`.
pub open spec fn is_solution_of(s: Seq<Seq<Option<u8>>>, g: Seq<Seq<Option<u8>>>) -> bool {
    is_grid(s) && is_full(s) && consistent(s) && extends(s, g)
}

pub open spec fn solvable(g: Seq<Seq<Option<u8>>>) -> bool {
    exists|s: Seq<Seq<Option<u8>>>| is_solution_of(s, g)
}

/// Each row, each column and each 3×3 box holds nine pairwise distinct digits from 1 to 9.
pub open spec fn is_valid_sudoku(g: Seq<Seq<Option<u8>>>) -> bool {
    &&& forall|r: int, c: int|
        in_board(r, c) ==> match #[trigger] g[r][c] {
            Some(d) => 1 <= d <= 9,
            None => false,
        }
    &&& forall|r: int, c1: int, c2: int|
        in_board(r, c1) && in_board(r, c2) && c1 != c2 ==> #[trigger] g[r][c1] != #[trigger] g[r][c2]
    &&& forall|c: int, r1: int, r2: int|
        in_board(r1, c) && in_board(r2, c) && r1 != r2 ==> #[trigger] g[r1][c] != #[trigger] g[r2][c]
    &&& forall|b: int, k1: int, k2: int|
        0 <= b < 9 && 0 <= k1 < 9 && 0 <= k2 < 9 && k1 != k2 ==> #[trigger] g[box_row(b, k1)][box_col(
            b,
            k1,
        )] != #[trigger] g[box_row(b, k2)][box_col(b, k2)]
}

/// Row of the `k`-th cell of box `b` (boxes and their cells both counted row by row).
pub open spec fn box_row(b: int, k: int) -> int {
    3 * (b / 3) + k / 3
}

/// Column of the `k`-th cell of box `b`.
pub open spec fn box_col(b: int, k: int) -> int {
    3 * (b % 3) + k % 3
}

/// Linear cell index `n` in 0..81 decodes to (n % 9, n / 9): the search walks
/// down each column before moving to the next one.
pub open spec fn coords_of(n: int) -> (int, int) {
    (n % 9, n / 9)
}

pub open spec fn index_of(r: int, c: int) -> int {
    r + 9 * c
}

/// Every cell whose linear index is at least `n` holds a digit.
pub open spec fn filled_from(g: Seq<Seq<Option<u8>>>, n: int) -> bool {
    forall|r: int, c: int| in_board(r, c) && n <= index_of(r, c) ==> (#[trigger] g[r][c]).is_some()
}

/// The two grids agree on every cell whose linear index is below `n`.
pub open spec fn agree_before(f: Seq<Seq<Option<u8>>>, g: Seq<Seq<Option<u8>>>, n: int) -> bool {
    forall|r: int, c: int| in_board(r, c) && index_of(r, c) < n ==> #[trigger] f[r][c] == g[r][c]
}

/// The cell of linear index `k`.
pub open spec fn cell_at(g: Seq<Seq<Option<u8>>>, k: int) -> Option<u8> {
    g[coords_of(k).0][coords_of(k).1]
}

/// `s` comes before `f` in search order from index `n` on: at the first index
/// from `n` on where the two differ, `s` holds the smaller digit.
pub open spec fn precedes(s: Seq<Seq<Option<u8>>>, f: Seq<Seq<Option<u8>>>, n: int) -> bool {
    exists|m: int|
        #![trigger cell_at(s, m), cell_at(f, m)]
        n <= m < 81 && (forall|k: int| n <= k < m ==> cell_at(s, k) == cell_at(f, k))
            && cell_at(s, m).unwrap() < cell_at(f, m).unwrap()
}

/// Where `s` precedes `f` from index `n` on, it does so at `n` itself, or the
/// two agree at `n` and `s` precedes `f` from `n + 1` on.
pub proof fn lemma_precedes_step(s: Seq<Seq<Option<u8>>>, f: Seq<Seq<Option<u8>>>, n: int)
    requires
        precedes(s, f, n),
    ensures
        cell_at(s, n).unwrap() < cell_at(f, n).unwrap() || (cell_at(s, n) == cell_at(f, n)
            && precedes(s, f, n + 1)),
{
    let m = choose|m: int|
        #![trigger cell_at(s, m), cell_at(f, m)]
        n <= m < 81 && (forall|k: int| n <= k < m ==> cell_at(s, k) == cell_at(f, k))
            && cell_at(s, m).unwrap() < cell_at(f, m).unwrap();
    if m != n {
        assert(cell_at(s, n) == cell_at(f, n));
        assert(cell_at(s, m) == s[coords_of(m).0][coords_of(m).1]);
    }
}

// The external character form: '.' for an empty cell, '1'..'9' for a digit.
pub open spec fn is_input_char(ch: char) -> bool {
    ch == '.' || ('1' <= ch && ch <= '9')
}

pub open spec fn cell_of_char(ch: char) -> Option<u8> {
    if ch == '.' {
        None
    } else {
        Some((ch as u32 - '0' as u32) as u8)
    }
}

pub open spec fn char_of_cell(v: Option<u8>) -> char {
    match v {
        Some(d) => ((d + 48) as u8) as char,
        None => '.',
    }
}

/// Nine rows of nine characters, each '.' or '1'..'9'.
pub open spec fn valid_input(g: Seq<Seq<char>>) -> bool {
    &&& g.len() == 9
    &&& forall|r: int| 0 <= r < 9 ==> (#[trigger] g[r]).len() == 9
    &&& forall|r: int, c: int| in_board(r, c) ==> is_input_char(#[trigger] g[r][c])
}

pub open spec fn chars_to_grid(g: Seq<Seq<char>>) -> Seq<Seq<Option<u8>>> {
    Seq::new(9, |r: int| Seq::new(9, |c: int| cell_of_char(g[r][c])))
}

pub open spec fn grid_to_chars(g: Seq<Seq<Option<u8>>>) -> Seq<Seq<char>> {
    Seq::new(9, |r: int| Seq::new(9, |c: int| char_of_cell(g[r][c])))
}

/// The character grid held by nested vectors, as sequences.
pub open spec fn chars_view(v: Vec<Vec<char>>) -> Seq<Seq<char>> {
    v@.map_values(|row: Vec<char>| row@)
}

/// Placing an allowed digit in an empty cell keeps a consistent grid consistent.
pub proof fn lemma_place_keeps_consistent(g: Seq<Seq<Option<u8>>>, i: int, j: int, v: u8)
    requires
        is_grid(g),
        in_board(i, j),
        g[i][j] == None::<u8>,
        allowed(g, i, j, v),
        consistent(g),
    ensures
        consistent(set_cell(g, i, j, Some(v))),
{
    let g2 = set_cell(g, i, j, Some(v));
    assert forall|r: int, c: int, r2: int, c2: int|
        in_board(r, c) && in_board(r2, c2) && sees(r, c, r2, c2) && !(r == r2 && c == c2)
            && (#[trigger] g2[r][c]).is_some() implies g2[r][c] != #[trigger] g2[r2][c2] by {
        if r == i && c == j {
            assert(g2[r2][c2] == g[r2][c2]);
        } else if r2 == i && c2 == j {
            assert(g2[r][c] == g[r][c]);
            assert(sees(i, j, r, c));
        } else {
            assert(g2[r][c] == g[r][c]);
            assert(g2[r2][c2] == g[r2][c2]);
        }
    }
}

/// A solution of `g` holds, in an empty cell of `g`, a digit allowed there by `g`,
/// and is still a solution once that digit is placed in `g`.
pub proof fn lemma_solution_places_allowed(s: Seq<Seq<Option<u8>>>, g: Seq<Seq<Option<u8>>>, i: int, j: int)
    requires
        is_grid(g),
        is_solution_of(s, g),
        in_board(i, j),
        g[i][j] == None::<u8>,
    ensures
        s[i][j].is_some(),
        1 <= s[i][j].unwrap() <= 9,
        allowed(g, i, j, s[i][j].unwrap()),
        is_solution_of(s, set_cell(g, i, j, s[i][j])),
{
    assert(s[i][j].is_some());
    assert(is_cell_value(s[i][j]));
    let v = s[i][j].unwrap();
    assert forall|r2: int, c2: int| in_board(r2, c2) && sees(i, j, r2, c2) implies #[trigger] g[r2][c2] != Some(v) by {
        if !(r2 == i && c2 == j) && g[r2][c2] == Some(v) {
            assert(s[r2][c2] == g[r2][c2]);
        }
    }
    let g2 = set_cell(g, i, j, s[i][j]);
    assert forall|r: int, c: int| in_board(r, c) && (#[trigger] g2[r][c]).is_some() implies s[r][c] == g2[r][c] by {
        if !(r == i && c == j) {
            assert(g2[r][c] == g[r][c]);
        }
    }
}

} // verus!
