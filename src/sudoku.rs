//! The board and the depth-first search over it.
use vstd::prelude::*;
use crate::rules::{
    agree_before, allowed, cell_at, cell_of_char, char_of_cell, chars_to_grid, chars_view,
    consistent, coords_of, extends, filled_from, grid_to_chars, in_board, index_of,
    is_candidate_list, is_cell_value, is_grid, is_input_char, is_solution_of,
    lemma_place_keeps_consistent, lemma_precedes_step, lemma_solution_places_allowed, precedes,
    sees, set_cell, solvable, valid_input,
};

verus! {

/// A 9×9 board; cell (r, c) is stored at `board[9 * r + c]`.
pub struct Sudoku {
    board: Vec<Option<u8>>,
}

impl View for Sudoku {
    type V = Seq<Seq<Option<u8>>>;

    closed spec fn view(&self) -> Seq<Seq<Option<u8>>> {
        Seq::new(9, |r: int| Seq::new(9, |c: int| self.board@[9 * r + c]))
    }
}

fn cell_from_char(ch: char) -> (r: Option<u8>)
    requires
        is_input_char(ch),
    ensures
        r == cell_of_char(ch),
        is_cell_value(r),
{
    if ch == '.' {
        None
    } else {
        Some((ch as u32 - '0' as u32) as u8)
    }
}

fn char_from_cell(v: Option<u8>) -> (r: char)
    requires
        is_cell_value(v),
    ensures
        r == char_of_cell(v),
        is_input_char(r),
        cell_of_char(r) == v,
{
    match v {
        Some(d) => (d + 48) as char,
        None => '.',
    }
}

/// No cell among the first `k` of row `i` and the first `k` of column `j` holds `d`.
spec fn line_free(g: Seq<Seq<Option<u8>>>, i: int, j: int, k: int, d: u8) -> bool {
    &&& forall|k2: int| 0 <= k2 < k ==> #[trigger] g[i][k2] != Some(d)
    &&& forall|k2: int| 0 <= k2 < k ==> #[trigger] g[k2][j] != Some(d)
}

/// No cell among the first `count` of the box whose top-left cell is (r0, c0),
/// taken row by row, holds `d`.
spec fn box_free(g: Seq<Seq<Option<u8>>>, r0: int, c0: int, count: int, d: u8) -> bool {
    forall|m: int, n: int|
        0 <= m < 3 && 0 <= n < 3 && 3 * m + n < count ==> #[trigger] g[r0 + m][c0 + n] != Some(d)
}

/// A digit is allowed at (i, j) exactly when it is missing from the whole row,
/// the whole column and the whole box of (i, j).
proof fn lemma_free_iff_allowed(g: Seq<Seq<Option<u8>>>, i: int, j: int, d: u8)
    requires
        is_grid(g),
        0 <= i < 9,
        0 <= j < 9,
    ensures
        (line_free(g, i, j, 9, d) && box_free(g, 3 * (i / 3), 3 * (j / 3), 9, d)) == allowed(g, i, j, d),
{
    if allowed(g, i, j, d) {
        assert forall|m: int, n: int| 0 <= m < 3 && 0 <= n < 3 && 3 * m + n < 9 implies #[trigger] g[3 * (i / 3) + m][3 * (j / 3) + n] != Some(d) by {
            assert(sees(i, j, 3 * (i / 3) + m, 3 * (j / 3) + n));
        }
        assert forall|k2: int| 0 <= k2 < 9 implies #[trigger] g[i][k2] != Some(d) by {
            assert(sees(i, j, i, k2));
        }
        assert forall|k2: int| 0 <= k2 < 9 implies #[trigger] g[k2][j] != Some(d) by {
            assert(sees(i, j, k2, j));
        }
    }
    if line_free(g, i, j, 9, d) && box_free(g, 3 * (i / 3), 3 * (j / 3), 9, d) {
        assert forall|r2: int, c2: int| in_board(r2, c2) && sees(i, j, r2, c2) implies #[trigger] g[r2][c2] != Some(d) by {
            if r2 == i {
                assert(g[i][c2] != Some(d));
            } else if c2 == j {
                assert(g[r2][j] != Some(d));
            } else {
                let m = r2 - 3 * (i / 3);
                let n = c2 - 3 * (j / 3);
                assert(g[3 * (i / 3) + m][3 * (j / 3) + n] != Some(d));
            }
        }
    }
}

impl Sudoku {
    /// Eighty-one cells, each empty or holding a digit from 1 to 9.
    pub closed spec fn wf(&self) -> bool {
        &&& self.board@.len() == 81
        &&& forall|k: int| 0 <= k < 81 ==> is_cell_value(#[trigger] self.board@[k])
    }

    /// The board of a well-formed value is a grid.
    pub proof fn lemma_view_is_grid(&self)
        requires
            self.wf(),
        ensures
            is_grid(self@),
    {
        assert forall|r: int, c: int| 0 <= r < 9 && 0 <= c < 9 implies is_cell_value(
            #[trigger] self@[r][c],
        ) by {
            assert(self@[r][c] == self.board@[9 * r + c]);
        }
    }

    /// Builds the board from nine rows of nine characters: '.' is an empty cell,
    /// '1'..'9' a digit.
    pub fn new(input: &Vec<Vec<char>>) -> (r: Self)
        requires
            valid_input(chars_view(*input)),
        ensures
            r.wf(),
            r@ == chars_to_grid(chars_view(*input)),
    {
        let ghost g = chars_view(*input);
        let mut board: Vec<Option<u8>> = Vec::with_capacity(81);
        let mut r: usize = 0;
        while r < 9
            invariant
                0 <= r <= 9,
                g == chars_view(*input),
                valid_input(g),
                board@.len() == 9 * r,
                forall|k: int| 0 <= k < 9 * r ==> is_cell_value(#[trigger] board@[k]),
                forall|r2: int, c2: int|
                    0 <= r2 < r && 0 <= c2 < 9 ==> #[trigger] board@[9 * r2 + c2] == cell_of_char(
                        g[r2][c2],
                    ),
            decreases 9 - r,
        {
            let row = &input[r];
            assert(row@ == g[r as int]);
            let mut c: usize = 0;
            while c < 9
                invariant
                    0 <= r < 9,
                    0 <= c <= 9,
                    g == chars_view(*input),
                    valid_input(g),
                    row@ == g[r as int],
                    board@.len() == 9 * r + c,
                    forall|k: int| 0 <= k < 9 * r + c ==> is_cell_value(#[trigger] board@[k]),
                    forall|r2: int, c2: int|
                        (0 <= r2 < r && 0 <= c2 < 9) || (r2 == r && 0 <= c2 < c)
                            ==> #[trigger] board@[9 * r2 + c2] == cell_of_char(g[r2][c2]),
                decreases 9 - c,
            {
                let v = cell_from_char(row[c]);
                board.push(v);
                c = c + 1;
            }
            r = r + 1;
        }
        let s = Sudoku { board };
        assert(s@ =~~= chars_to_grid(g)) by {
            assert forall|r2: int, c2: int| 0 <= r2 < 9 && 0 <= c2 < 9 implies s@[r2][c2]
                == chars_to_grid(g)[r2][c2] by {
                assert(s.board@[9 * r2 + c2] == cell_of_char(g[r2][c2]));
            }
        }
        s
    }

    /// Builds the board where `input` is nine rows of nine characters, each '.'
    /// or '1'..'9'; returns `None` on any other shape or character.
    pub fn try_new(input: &Vec<Vec<char>>) -> (r: Option<Self>)
        ensures
            r.is_some() <==> valid_input(chars_view(*input)),
            r matches Some(s) ==> s.wf() && s@ == chars_to_grid(chars_view(*input)),
    {
        let ghost g = chars_view(*input);
        if input.len() != 9 {
            return None;
        }
        let mut r: usize = 0;
        while r < 9
            invariant
                0 <= r <= 9,
                g == chars_view(*input),
                g.len() == 9,
                forall|r2: int| 0 <= r2 < r ==> (#[trigger] g[r2]).len() == 9,
                forall|r2: int, c2: int| 0 <= r2 < r && 0 <= c2 < 9 ==> is_input_char(#[trigger] g[r2][c2]),
            decreases 9 - r,
        {
            let row = &input[r];
            assert(row@ == g[r as int]);
            if row.len() != 9 {
                return None;
            }
            let mut c: usize = 0;
            while c < 9
                invariant
                    0 <= r < 9,
                    0 <= c <= 9,
                    g == chars_view(*input),
                    row@ == g[r as int],
                    row@.len() == 9,
                    forall|c2: int| 0 <= c2 < c ==> is_input_char(#[trigger] g[r as int][c2]),
                decreases 9 - c,
            {
                let ch = row[c];
                if !(ch == '.' || ('1' <= ch && ch <= '9')) {
                    return None;
                }
                c = c + 1;
            }
            r = r + 1;
        }
        Some(Self::new(input))
    }

    /// The board in character form: '.' for an empty cell, '1'..'9' for a digit.
    pub fn output(&self) -> (r: Vec<Vec<char>>)
        requires
            self.wf(),
        ensures
            chars_view(r) == grid_to_chars(self@),
    {
        let mut out: Vec<Vec<char>> = Vec::with_capacity(9);
        let mut r: usize = 0;
        while r < 9
            invariant
                self.wf(),
                0 <= r <= 9,
                out@.len() == r,
                forall|r2: int| 0 <= r2 < r ==> (#[trigger] out@[r2])@ == grid_to_chars(self@)[r2],
            decreases 9 - r,
        {
            let row = self.output_row(r);
            out.push(row);
            r = r + 1;
        }
        assert(chars_view(out) =~~= grid_to_chars(self@));
        out
    }

    fn output_row(&self, r: usize) -> (row: Vec<char>)
        requires
            self.wf(),
            r < 9,
        ensures
            row@ == grid_to_chars(self@)[r as int],
    {
        let mut row: Vec<char> = Vec::with_capacity(9);
        let mut c: usize = 0;
        while c < 9
            invariant
                self.wf(),
                r < 9,
                0 <= c <= 9,
                row@.len() == c,
                forall|c2: int| 0 <= c2 < c ==> #[trigger] row@[c2] == char_of_cell(self@[r as int][c2]),
            decreases 9 - c,
        {
            let v = self.value_at(r as u8, c as u8);
            row.push(char_from_cell(v));
            c = c + 1;
        }
        assert(row@ =~= grid_to_chars(self@)[r as int]);
        row
    }

    /// Overwrites every cell of the nine-by-nine `out` with the board in character form.
    pub fn output_mut(&self, out: &mut Vec<Vec<char>>)
        requires
            self.wf(),
            old(out)@.len() == 9,
            forall|r: int| 0 <= r < 9 ==> (#[trigger] old(out)@[r])@.len() == 9,
        ensures
            chars_view(*final(out)) == grid_to_chars(self@),
    {
        let mut r: usize = 0;
        while r < 9
            invariant
                self.wf(),
                0 <= r <= 9,
                out@.len() == 9,
                forall|r2: int| 0 <= r2 < r ==> (#[trigger] out@[r2])@ == grid_to_chars(self@)[r2],
            decreases 9 - r,
        {
            let row = self.output_row(r);
            out.set(r, row);
            r = r + 1;
        }
        assert(chars_view(*out) =~~= grid_to_chars(self@));
    }

    /// The content of cell (i, j): row `i`, column `j`.
    pub fn value_at(&self, i: u8, j: u8) -> (r: Option<u8>)
        requires
            self.wf(),
            i < 9,
            j < 9,
        ensures
            r == self@[i as int][j as int],
            is_cell_value(r),
    {
        self.board[9 * (i as usize) + (j as usize)]
    }

    /// Overwrites cell (i, j) with `val`, a digit or nothing.
    pub fn set_value_at(&mut self, val: Option<u8>, i: u8, j: u8)
        requires
            old(self).wf(),
            is_cell_value(val),
            i < 9,
            j < 9,
        ensures
            final(self).wf(),
            final(self)@ == set_cell(old(self)@, i as int, j as int, val),
    {
        let ghost before = self@;
        self.board.set(9 * (i as usize) + (j as usize), val);
        assert(self@ =~~= set_cell(before, i as int, j as int, val)) by {
            assert forall|r: int, c: int| 0 <= r < 9 && 0 <= c < 9 && !(r == i && c == j) implies self@[r][c]
                == before[r][c] by {
                assert(9 * r + c != 9 * i + j);
            }
        }
    }

    /// Depth-first search from linear cell index `cell` onwards (cells in the
    /// order of `cell_to_coords`). A filled cell is skipped; an empty cell takes
    /// each of its candidates in ascending order, and the search goes on from
    /// the next cell. On success the board is left filled from `cell` onwards,
    /// and no solution comes before it in search order; on failure every digit
    /// placed is taken back, and no solution exists.
    pub fn depth_first(&mut self, cell: u8) -> (r: bool)
        requires
            old(self).wf(),
            cell <= 81,
        ensures
            final(self).wf(),
            extends(final(self)@, old(self)@),
            agree_before(final(self)@, old(self)@, cell as int),
            r ==> filled_from(final(self)@, cell as int),
            r && consistent(old(self)@) ==> consistent(final(self)@),
            !r ==> final(self)@ == old(self)@,
            !r ==> !solvable(old(self)@),
            r ==> forall|s: Seq<Seq<Option<u8>>>|
                is_solution_of(s, old(self)@) ==> !precedes(s, final(self)@, cell as int),
        decreases 81 - cell,
    {
        proof {
            self.lemma_view_is_grid();
        }
        let ghost g0 = self@;
        if cell == 81 {
            return true;
        }
        let (i, j) = Self::cell_to_coords(cell);
        let ghost (ii, jj) = (i as int, j as int);
        if self.value_at(i, j).is_some() {
            let r = self.depth_first(cell + 1);
            proof {
                assert forall|r2: int, c2: int| in_board(r2, c2) && cell <= index_of(r2, c2) && r implies (#[trigger] self@[r2][c2]).is_some() by {
                    if index_of(r2, c2) == cell {
                        assert(r2 == ii && c2 == jj);
                    }
                }
                assert forall|s: Seq<Seq<Option<u8>>>| r && is_solution_of(s, g0) implies !precedes(s, self@, cell as int) by {
                    if precedes(s, self@, cell as int) {
                        lemma_precedes_step(s, self@, cell as int);
                        assert(cell_at(s, cell as int) == s[ii][jj]);
                        assert(cell_at(self@, cell as int) == self@[ii][jj]);
                    }
                }
            }
            return r;
        }
        let p = self.get_possibles(i, j);
        let mut idx: usize = 0;
        assert(set_cell(g0, ii, jj, None) =~~= g0);
        while idx < p.len()
            invariant
                self.wf(),
                is_grid(g0),
                g0 == old(self)@,
                in_board(ii, jj),
                ii == i,
                jj == j,
                cell == index_of(ii, jj),
                cell < 81,
                g0[ii][jj] == None::<u8>,
                set_cell(self@, ii, jj, None) == g0,
                is_candidate_list(g0, ii, jj, p@),
                0 <= idx <= p@.len(),
                forall|k: int| 0 <= k < idx ==> !solvable(set_cell(g0, ii, jj, Some(#[trigger] p@[k]))),
            decreases p@.len() - idx,
        {
            let v = p[idx];
            let ghost prev = self@;
            self.set_value_at(Some(v), i, j);
            let ghost b1 = set_cell(g0, ii, jj, Some(v));
            assert(self@ =~~= b1) by {
                assert forall|r2: int, c2: int| in_board(r2, c2) && !(r2 == ii && c2 == jj) implies self@[r2][c2] == b1[r2][c2] by {
                    assert(set_cell(prev, ii, jj, None)[r2][c2] == prev[r2][c2]);
                }
            }
            if self.depth_first(cell + 1) {
                proof {
                    let f = self@;
                    assert forall|r2: int, c2: int| in_board(r2, c2) && (#[trigger] g0[r2][c2]).is_some() implies f[r2][c2] == g0[r2][c2] by {
                        assert(b1[r2][c2] == g0[r2][c2]);
                    }
                    assert forall|r2: int, c2: int| in_board(r2, c2) && index_of(r2, c2) < cell implies #[trigger] f[r2][c2] == g0[r2][c2] by {
                        assert(b1[r2][c2] == g0[r2][c2]);
                    }
                    assert forall|r2: int, c2: int| in_board(r2, c2) && cell <= index_of(r2, c2) implies (#[trigger] f[r2][c2]).is_some() by {
                        if index_of(r2, c2) == cell {
                            assert(r2 == ii && c2 == jj);
                            assert(f[ii][jj] == b1[ii][jj]);
                        }
                    }
                    if consistent(g0) {
                        lemma_place_keeps_consistent(g0, ii, jj, v);
                    }
                    assert forall|s: Seq<Seq<Option<u8>>>| is_solution_of(s, g0) implies !precedes(s, f, cell as int) by {
                        lemma_solution_places_allowed(s, g0, ii, jj);
                        let w = s[ii][jj].unwrap();
                        assert(cell_at(s, cell as int) == s[ii][jj]);
                        assert(cell_at(f, cell as int) == f[ii][jj]);
                        assert(f[ii][jj] == Some(v));
                        if w < v {
                            assert(p@.contains(w));
                            let k = choose|k: int| 0 <= k < p@.len() && p@[k] == w;
                            assert(k < idx);
                            assert(!solvable(set_cell(g0, ii, jj, Some(p@[k]))));
                        } else if precedes(s, f, cell as int) {
                            lemma_precedes_step(s, f, cell as int);
                        }
                    }
                }
                return true;
            }
            assert(set_cell(self@, ii, jj, None) =~~= g0);
            idx = idx + 1;
        }
        self.set_value_at(None, i, j);
        assert(self@ =~~= g0);
        proof {
            if solvable(g0) {
                let s = choose|s: Seq<Seq<Option<u8>>>| is_solution_of(s, g0);
                lemma_solution_places_allowed(s, g0, ii, jj);
                let v = s[ii][jj].unwrap();
                assert(p@.contains(v));
                let k = choose|k: int| 0 <= k < p@.len() && p@[k] == v;
                assert(!solvable(set_cell(g0, ii, jj, Some(p@[k]))));
                assert(is_solution_of(s, set_cell(g0, ii, jj, Some(v))));
            }
        }
        false
    }

    /// The digits, ascending, that appear neither in row `i`, nor in column `j`,
    /// nor in the 3×3 box of cell (i, j).
    pub fn get_possibles(&self, i: u8, j: u8) -> (r: Vec<u8>)
        requires
            self.wf(),
            i < 9,
            j < 9,
        ensures
            is_candidate_list(self@, i as int, j as int, r@),
    {
        proof {
            self.lemma_view_is_grid();
        }
        let ghost g = self@;
        let mut flags: Vec<bool> = vec![true; 10];
        let mut k: u8 = 0;
        while k < 9
            invariant
                self.wf(),
                g == self@,
                i < 9,
                j < 9,
                0 <= k <= 9,
                flags@.len() == 10,
                forall|d: int| 1 <= d <= 9 ==> #[trigger] flags@[d] == line_free(g, i as int, j as int, k as int, d as u8),
            decreases 9 - k,
        {
            if let Some(v) = self.value_at(i, k) {
                flags.set(v as usize, false);
            }
            if let Some(v) = self.value_at(k, j) {
                flags.set(v as usize, false);
            }
            k = k + 1;
        }
        let bi = i / 3;
        let bj = j / 3;
        let mut m: u8 = 0;
        while m < 3
            invariant
                self.wf(),
                g == self@,
                i < 9,
                j < 9,
                bi == i / 3,
                bj == j / 3,
                0 <= m <= 3,
                flags@.len() == 10,
                forall|d: int| 1 <= d <= 9 ==> #[trigger] flags@[d] == (line_free(g, i as int, j as int, 9, d as u8) && box_free(g, 3 * bi, 3 * bj, 3 * m, d as u8)),
            decreases 3 - m,
        {
            let mut n: u8 = 0;
            while n < 3
                invariant
                    self.wf(),
                    g == self@,
                    i < 9,
                    j < 9,
                    bi == i / 3,
                    bj == j / 3,
                    0 <= m < 3,
                    0 <= n <= 3,
                    flags@.len() == 10,
                    forall|d: int| 1 <= d <= 9 ==> #[trigger] flags@[d] == (line_free(g, i as int, j as int, 9, d as u8) && box_free(g, 3 * bi, 3 * bj, 3 * m + n, d as u8)),
                decreases 3 - n,
            {
                let x = m + 3 * bi;
                let y = n + 3 * bj;
                let ghost before = flags@;
                let cell = self.value_at(x, y);
                if let Some(v) = cell {
                    flags.set(v as usize, false);
                }
                proof {
                    assert forall|d: int| 1 <= d <= 9 implies #[trigger] flags@[d] == (line_free(g, i as int, j as int, 9, d as u8) && box_free(g, 3 * bi, 3 * bj, 3 * m + n + 1, d as u8)) by {
                        if cell == Some(d as u8) {
                            assert(g[3 * bi + m][3 * bj + n] == Some(d as u8));
                        } else {
                            assert(flags@[d] == before[d]);
                            assert forall|m2: int, n2: int| 0 <= m2 < 3 && 0 <= n2 < 3 && 3 * m2 + n2 < 3 * m + n + 1 && box_free(g, 3 * bi, 3 * bj, 3 * m + n, d as u8)
                                implies #[trigger] g[3 * bi + m2][3 * bj + n2] != Some(d as u8) by {
                                if 3 * m2 + n2 == 3 * m + n {
                                    assert(m2 == m && n2 == n);
                                }
                            }
                        }
                    }
                }
                n = n + 1;
            }
            m = m + 1;
        }
        proof {
            assert forall|d: int| 1 <= d <= 9 implies #[trigger] flags@[d] == allowed(g, i as int, j as int, d as u8) by {
                lemma_free_iff_allowed(g, i as int, j as int, d as u8);
            }
        }
        let mut r: Vec<u8> = Vec::new();
        let mut d: u8 = 1;
        while d < 10
            invariant
                1 <= d <= 10,
                flags@.len() == 10,
                forall|d2: int| 1 <= d2 <= 9 ==> #[trigger] flags@[d2] == allowed(g, i as int, j as int, d2 as u8),
                forall|k2: int| 0 <= k2 < r@.len() ==> 1 <= #[trigger] r@[k2] < d && allowed(g, i as int, j as int, r@[k2]),
                forall|k1: int, k2: int| 0 <= k1 < k2 < r@.len() ==> r@[k1] < r@[k2],
                forall|d2: u8| 1 <= d2 < d && allowed(g, i as int, j as int, d2) ==> r@.contains(d2),
            decreases 10 - d,
        {
            let ghost before = r@;
            if flags[d as usize] {
                r.push(d);
            }
            proof {
                assert forall|d2: u8| 1 <= d2 < d + 1 && allowed(g, i as int, j as int, d2) implies r@.contains(d2) by {
                    if d2 == d {
                        assert(flags@[d as int]);
                        assert(r@[r@.len() - 1] == d);
                    } else {
                        assert(before.contains(d2));
                        let k2 = choose|k2: int| 0 <= k2 < before.len() && before[k2] == d2;
                        assert(r@[k2] == d2);
                    }
                }
            }
            d = d + 1;
        }
        r
    }

    /// Decodes a linear cell index into (row, column): (cell % 9, cell / 9).
    pub fn cell_to_coords(cell: u8) -> (r: (u8, u8))
        requires
            cell < 81,
        ensures
            (r.0 as int, r.1 as int) == coords_of(cell as int),
            r.0 < 9,
            r.1 < 9,
            index_of(r.0 as int, r.1 as int) == cell,
    {
        (cell % 9, cell / 9)
    }
}

} // verus!
