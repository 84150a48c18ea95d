use sudoku::solve;
use sudoku::{Board, Coord, Number, Space};

/// Builds a board from 81 digits in row-major order, 0 meaning empty.
fn board_from(digits: &[u8; 81]) -> Board {
    let mut b = Board::new();
    for i in 0..81u8 {
        let d = digits[i as usize];
        if d != 0 {
            b.set_space(Coord::from_index(i), Space::Full(Number::new(d)));
        }
    }
    b
}

/// The board as 81 digit characters, '0' for an empty cell.
fn render(b: &Board) -> String {
    let mut out = String::new();
    for i in 0..81u8 {
        match b.get_space(Coord::from_index(i)) {
            Space::Empty => out.push('0'),
            Space::Full(n) => out.push((b'0' + n.get()) as char),
        }
    }
    out
}

/// Every row, column, and block holds each of 1..=9 exactly once.
fn is_solved(b: &Board) -> bool {
    for y in 0..9u8 {
        for x in 0..9u8 {
            match b.get_space(Coord::new(x, y)) {
                Space::Empty => return false,
                Space::Full(_) => {}
            }
        }
    }
    for unit in 0..9u8 {
        let mut row_seen = [false; 10];
        let mut col_seen = [false; 10];
        let mut sq_seen = [false; 10];
        for k in 0..9u8 {
            if let Space::Full(n) = b.get_space(Coord::new(k, unit)) {
                if row_seen[n.get() as usize] {
                    return false;
                }
                row_seen[n.get() as usize] = true;
            }
            if let Space::Full(n) = b.get_space(Coord::new(unit, k)) {
                if col_seen[n.get() as usize] {
                    return false;
                }
                col_seen[n.get() as usize] = true;
            }
            let x = 3 * (unit % 3) + k % 3;
            let y = 3 * (unit / 3) + k / 3;
            if let Space::Full(n) = b.get_space(Coord::new(x, y)) {
                if sq_seen[n.get() as usize] {
                    return false;
                }
                sq_seen[n.get() as usize] = true;
            }
        }
    }
    true
}

/// Every clue of `given` keeps its value in `solved`.
fn extends(given: &Board, solved: &Board) -> bool {
    for i in 0..81u8 {
        if let Space::Full(n) = given.get_space(Coord::from_index(i)) {
            match solved.get_space(Coord::from_index(i)) {
                Space::Full(m) if m.get() == n.get() => {}
                _ => return false,
            }
        }
    }
    true
}

/// A complete valid grid, written down directly.
fn full_valid_digits() -> [u8; 81] {
    let mut d = [0u8; 81];
    for y in 0..9u8 {
        for x in 0..9u8 {
            d[(y * 9 + x) as usize] = ((x + 3 * y + y / 3) % 9) + 1;
        }
    }
    d
}

/// The seventeen-clue puzzle used throughout these tests, with a unique
/// solution.
fn seventeen_clues() -> [u8; 81] {
    let mut d = [0u8; 81];
    let clues: [(u8, u8, u8); 17] = [
        (3, 0, 8),
        (5, 0, 1),
        (7, 1, 4),
        (8, 1, 3),
        (0, 2, 5),
        (4, 3, 7),
        (6, 3, 8),
        (6, 4, 1),
        (1, 5, 2),
        (4, 5, 3),
        (0, 6, 6),
        (7, 6, 7),
        (8, 6, 5),
        (2, 7, 3),
        (3, 7, 4),
        (3, 8, 2),
        (6, 8, 6),
    ];
    for (x, y, n) in clues {
        d[(y * 9 + x) as usize] = n;
    }
    d
}

#[test]
fn empty_grid_solves() {
    let b = Board::new();
    let solved = solve(b).expect("an empty grid has completions");
    assert!(is_solved(&solved));
}

#[test]
fn duplicate_in_row_is_unsolvable() {
    let mut d = [0u8; 81];
    d[2] = 4;
    d[6] = 4;
    let b = board_from(&d);
    assert!(solve(b).is_none());
}

#[test]
fn duplicate_in_column_is_unsolvable() {
    let mut d = [0u8; 81];
    d[9] = 7;
    d[72] = 7;
    let b = board_from(&d);
    assert!(solve(b).is_none());
}

#[test]
fn duplicate_in_block_is_unsolvable() {
    let mut d = [0u8; 81];
    d[0] = 2;
    d[10] = 2;
    let b = board_from(&d);
    assert!(solve(b).is_none());
}

#[test]
fn valid_but_unsolvable_grid_returns_none() {
    // No two clues conflict, yet the corner cell sees 1..=8 in its row and
    // 9 in its column, so no completion exists.
    let mut d = [0u8; 81];
    for x in 1..9u8 {
        d[x as usize] = x;
    }
    d[72] = 9;
    let b = board_from(&d);
    assert!(solve(b).is_none());
}

#[test]
fn solved_grid_returned_unchanged() {
    let d = full_valid_digits();
    let b = board_from(&d);
    let out = solve(b).expect("a valid complete grid is its own solution");
    assert_eq!(render(&out), render(&b));
}

#[test]
fn single_missing_cell_is_filled_back() {
    let full = full_valid_digits();
    let mut d = full;
    d[40] = 0;
    let solved = solve(board_from(&d)).expect("one cell is forced");
    assert_eq!(render(&solved), render(&board_from(&full)));
}

#[test]
fn solve_is_deterministic() {
    let b = board_from(&seventeen_clues());
    let first = solve(b).expect("solvable");
    let second = solve(b).expect("solvable");
    assert_eq!(render(&first), render(&second));
    let e = Board::new();
    let ea = solve(e).expect("solvable");
    let eb = solve(e).expect("solvable");
    assert_eq!(render(&ea), render(&eb));
}

#[test]
fn seventeen_clue_puzzle_has_its_known_solution() {
    let given = board_from(&seventeen_clues());
    let solved = solve(given).expect("this puzzle has a solution");
    assert!(is_solved(&solved));
    assert!(extends(&given, &solved));
    let expected = "\
237841569186795243594326718315674892469582137728139456642918375853467921971253684";
    assert_eq!(render(&solved), expected);
}

#[test]
fn solution_keeps_clues() {
    let mut d = [0u8; 81];
    d[0] = 9;
    d[40] = 5;
    d[80] = 1;
    let given = board_from(&d);
    let solved = solve(given).expect("solvable");
    assert!(is_solved(&solved));
    assert!(extends(&given, &solved));
}
