use sudoku::Solution;
use sudoku::Sudoku;

fn get_example() -> Vec<Vec<char>> {
    vec![
        vec!['5', '3', '.', '.', '7', '.', '.', '.', '.'],
        vec!['6', '.', '.', '1', '9', '5', '.', '.', '.'],
        vec!['.', '9', '8', '.', '.', '.', '.', '6', '.'],
        vec!['8', '.', '.', '.', '6', '.', '.', '.', '3'],
        vec!['4', '.', '.', '8', '.', '3', '.', '.', '1'],
        vec!['7', '.', '.', '.', '2', '.', '.', '.', '6'],
        vec!['.', '6', '.', '.', '.', '.', '2', '8', '.'],
        vec!['.', '.', '.', '4', '1', '9', '.', '.', '5'],
        vec!['.', '.', '.', '.', '8', '.', '.', '7', '9'],
    ]
}

fn get_example_solution() -> Vec<Vec<char>> {
    vec![
        vec!['5', '3', '4', '6', '7', '8', '9', '1', '2'],
        vec!['6', '7', '2', '1', '9', '5', '3', '4', '8'],
        vec!['1', '9', '8', '3', '4', '2', '5', '6', '7'],
        vec!['8', '5', '9', '7', '6', '1', '4', '2', '3'],
        vec!['4', '2', '6', '8', '5', '3', '7', '9', '1'],
        vec!['7', '1', '3', '9', '2', '4', '8', '5', '6'],
        vec!['9', '6', '1', '5', '3', '7', '2', '8', '4'],
        vec!['2', '8', '7', '4', '1', '9', '6', '3', '5'],
        vec!['3', '4', '5', '2', '8', '6', '1', '7', '9'],
    ]
}

fn get_empty_board() -> Vec<Vec<char>> {
    vec![vec!['.'; 9]; 9]
}

/// A consistent puzzle without a solution: the first cell can hold no digit.
fn get_unsolvable() -> Vec<Vec<char>> {
    let mut g = get_empty_board();
    for c in 1..9 {
        g[0][c] = (b'0' + c as u8) as char;
    }
    g[1][0] = '9';
    g
}

fn is_valid_solution(g: &Vec<Vec<char>>) -> bool {
    let digits = |cells: Vec<char>| {
        let mut seen = [false; 10];
        for ch in cells {
            if !('1'..='9').contains(&ch) {
                return false;
            }
            let d = ch as usize - '0' as usize;
            if seen[d] {
                return false;
            }
            seen[d] = true;
        }
        true
    };
    (0..9).all(|r| digits((0..9).map(|c| g[r][c]).collect()))
        && (0..9).all(|c| digits((0..9).map(|r| g[r][c]).collect()))
        && (0..9).all(|b| {
            digits((0..9).map(|k| g[3 * (b / 3) + k / 3][3 * (b % 3) + k % 3]).collect())
        })
}

#[test]
fn test_cell_to_coords() {
    assert_eq!((0, 0), Sudoku::cell_to_coords(0));
    assert_eq!((0, 1), Sudoku::cell_to_coords(9));
    assert_eq!((1, 0), Sudoku::cell_to_coords(1));
    assert_eq!((8, 8), Sudoku::cell_to_coords(80));
}

#[test]
fn test_new_sudoku() {
    let s = Sudoku::new(&get_example());
    assert_eq!(Some(5), s.value_at(0, 0));
    assert_eq!(Some(6), s.value_at(1, 0));
    assert_eq!(None, s.value_at(3, 2));
    assert_eq!(Some(9), s.value_at(8, 8));
}

#[test]
fn test_get_possibles() {
    let s = Sudoku::new(&get_example());
    assert_eq!(vec![2, 4, 7], s.get_possibles(1, 1));
    assert_eq!(vec![2, 4, 7], s.get_possibles(1, 1));
}

#[test]
fn test_get_output() {
    let s = Sudoku::new(&get_example());
    assert_eq!(get_example(), s.output());
}

#[test]
fn test_solve() {
    let mut e = get_example();
    Solution::solve_sudoku(&mut e);
    assert_eq!(e, get_example_solution());
}

#[test]
fn coords_cover_every_cell_once() {
    let mut seen = [[false; 9]; 9];
    for n in 0..81u8 {
        let (r, c) = Sudoku::cell_to_coords(n);
        assert!(r < 9 && c < 9);
        assert_eq!(n, r + 9 * c);
        assert!(!seen[r as usize][c as usize]);
        seen[r as usize][c as usize] = true;
    }
}

#[test]
fn output_round_trips_input() {
    for g in [get_example(), get_example_solution(), get_empty_board(), get_unsolvable()] {
        assert_eq!(g, Sudoku::new(&g).output());
    }
}

#[test]
fn output_mut_overwrites_every_cell() {
    let s = Sudoku::new(&get_example());
    let mut out = vec![vec!['7'; 9]; 9];
    s.output_mut(&mut out);
    assert_eq!(out, get_example());
}

#[test]
fn candidates_of_other_cells() {
    let s = Sudoku::new(&get_example());
    // Row 0 holds 5 3 7, column 2 holds 8, box 0 holds 5 3 6 9 8.
    assert_eq!(vec![1, 2, 4], s.get_possibles(0, 2));
    let e = Sudoku::new(&get_empty_board());
    assert_eq!(vec![1, 2, 3, 4, 5, 6, 7, 8, 9], e.get_possibles(4, 4));
    let u = Sudoku::new(&get_unsolvable());
    assert_eq!(Vec::<u8>::new(), u.get_possibles(0, 0));
}

#[test]
fn set_value_at_overwrites_and_clears() {
    let mut s = Sudoku::new(&get_example());
    s.set_value_at(Some(4), 0, 2);
    assert_eq!(Some(4), s.value_at(0, 2));
    s.set_value_at(Some(4), 0, 2);
    assert_eq!(Some(4), s.value_at(0, 2));
    s.set_value_at(None, 0, 0);
    assert_eq!(None, s.value_at(0, 0));
    assert_eq!(Some(3), s.value_at(0, 1));
}

#[test]
fn depth_first_reports_success_and_failure() {
    let mut s = Sudoku::new(&get_example());
    assert!(s.depth_first(0));
    assert_eq!(get_example_solution(), s.output());
    let mut u = Sudoku::new(&get_unsolvable());
    assert!(!u.depth_first(0));
    assert_eq!(get_unsolvable(), u.output());
    let mut full = Sudoku::new(&get_example_solution());
    assert!(full.depth_first(0));
    assert!(full.depth_first(81));
}

#[test]
fn solve_empty_board_is_valid_and_deterministic() {
    let mut a = get_empty_board();
    Solution::solve_sudoku(&mut a);
    assert!(is_valid_solution(&a));
    let mut b = get_empty_board();
    Solution::solve_sudoku(&mut b);
    assert_eq!(a, b);
    // Cells are visited down the first column first, each taking its least candidate.
    for r in 0..9 {
        assert_eq!((b'1' + r as u8) as char, a[r][0]);
    }
}

#[test]
fn solved_example_is_valid() {
    let mut e = get_example();
    Solution::solve_sudoku(&mut e);
    assert!(is_valid_solution(&e));
}

#[test]
fn unsolvable_puzzle_is_left_unchanged() {
    let mut u = get_unsolvable();
    Solution::solve_sudoku(&mut u);
    assert_eq!(u, get_unsolvable());
}

#[test]
fn try_new_rejects_malformed_input() {
    let mut x = get_example();
    x[4][4] = 'x';
    assert!(Sudoku::try_new(&x).is_none());
    let mut zero = get_example();
    zero[0][2] = '0';
    assert!(Sudoku::try_new(&zero).is_none());
    let mut short = get_example();
    short.pop();
    assert!(Sudoku::try_new(&short).is_none());
    let mut narrow = get_example();
    narrow[3].push('.');
    assert!(Sudoku::try_new(&narrow).is_none());
}

#[test]
fn try_new_accepts_well_formed_input() {
    let s = Sudoku::try_new(&get_example()).unwrap();
    assert_eq!(Some(5), s.value_at(0, 0));
    assert_eq!(get_example(), s.output());
}
