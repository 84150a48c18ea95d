use sudoku::board::{Board, Coord, Number, Space};
use sudoku::solve::{make_forced_choices, pick_open_space, AllowedNumbers, BookkeptBoard};

#[test]
fn number_range() {
    assert!(Number::safe_new(0).is_none());
    assert!(Number::safe_new(10).is_none());
    let five = Number::safe_new(5).expect("in range");
    assert_eq!(five.get(), 5);
    assert_eq!(Number::new(9).get(), 9);
}

#[test]
fn coord_arithmetic() {
    let c = Coord::new(3, 2);
    assert_eq!(c.idx(), 21);
    assert_eq!(c.x(), 3);
    assert_eq!(c.y(), 2);
    assert_eq!(c.square(), 1);
    let corner = Coord::new(8, 8);
    assert_eq!(corner.idx(), 80);
    assert_eq!(corner.square(), 8);
    let all = Coord::all();
    assert_eq!(all.len(), 81);
    for (k, c) in all.iter().enumerate() {
        assert_eq!(c.idx() as usize, k);
    }
}

#[test]
fn allowed_numbers_masks() {
    let mut a = AllowedNumbers::all();
    assert_eq!(a.count_allowed(), 9);
    assert!(!a.are_none_allowed());
    assert!(!a.is_one_allowed());
    a.disallow(Number::new(5));
    assert_eq!(a.count_allowed(), 8);
    assert!(!a.is_allowed(Number::new(5)));
    assert!(a.is_allowed(Number::new(4)));
    let vals: Vec<u8> = a.allowed().iter().map(|n| n.get()).collect();
    assert_eq!(vals, vec![1, 2, 3, 4, 6, 7, 8, 9]);
    for n in [1, 2, 3, 4, 6, 7, 8] {
        a.disallow(Number::new(n));
    }
    assert!(a.is_one_allowed());
    assert!(!a.are_none_allowed());
    assert_eq!(a.allowed()[0].get(), 9);
    a.disallow(Number::new(9));
    assert!(a.are_none_allowed());
    assert_eq!(a.count_allowed(), 0);
    assert!(!a.is_one_allowed());
}

#[test]
fn tracker_fill_updates_bookkeeping() {
    let mut t = BookkeptBoard::new();
    assert!(!t.any_updates());
    assert_eq!(t.open_spaces().len(), 81);
    t.fill(Coord::new(0, 0), Number::new(5));
    assert!(t.any_updates());
    assert_eq!(t.open_spaces().len(), 80);
    let at_neighbour: Vec<u8> = t.allowed(Coord::new(1, 0)).allowed().iter().map(|n| n.get()).collect();
    assert_eq!(at_neighbour, vec![1, 2, 3, 4, 6, 7, 8, 9]);
    let far: Vec<u8> = t.allowed(Coord::new(8, 8)).allowed().iter().map(|n| n.get()).collect();
    assert_eq!(far, vec![1, 2, 3, 4, 5, 6, 7, 8, 9]);
    let dirty = t.take_updates();
    assert!(!t.any_updates());
    // Open cells of row 0, column 0, and the top-left block: 8 + 8 + 4.
    assert_eq!(dirty.len(), 20);
    for c in dirty.iter() {
        assert!(c.x() == 0 || c.y() == 0 || c.square() == 0);
        assert!(!(c.x() == 0 && c.y() == 0));
    }
}

#[test]
fn from_board_replays_and_rejects_conflicts() {
    let mut b = Board::new();
    b.set_space(Coord::new(0, 0), Space::Full(Number::new(1)));
    b.set_space(Coord::new(5, 4), Space::Full(Number::new(9)));
    let t = BookkeptBoard::from_board(b).expect("no conflicts");
    let back = t.board();
    match back.get_space(Coord::new(5, 4)) {
        Space::Full(n) => assert_eq!(n.get(), 9),
        Space::Empty => panic!("clue lost"),
    }
    let mut bad = Board::new();
    bad.set_space(Coord::new(1, 3), Space::Full(Number::new(6)));
    bad.set_space(Coord::new(7, 3), Space::Full(Number::new(6)));
    assert!(BookkeptBoard::from_board(bad).is_none());
}

#[test]
fn propagation_fills_forced_moves() {
    // Row 0 holds 1..=8; the last cell is forced to 9.
    let mut b = Board::new();
    for x in 0..8u8 {
        b.set_space(Coord::new(x, 0), Space::Full(Number::new(x + 1)));
    }
    let t = BookkeptBoard::from_board(b).expect("no conflicts");
    let t = make_forced_choices(t).expect("no contradiction");
    match t.board().get_space(Coord::new(8, 0)) {
        Space::Full(n) => assert_eq!(n.get(), 9),
        Space::Empty => panic!("forced move not made"),
    }
    // Quiescent: nothing dirty is left.
    let mut t2 = t;
    assert!(!t2.any_updates());
    assert_eq!(t2.take_updates().len(), 0);
}

#[test]
fn propagation_detects_contradiction() {
    // The cell (0, 0) sees 1..=8 in its row and 9 in its column: no
    // candidate is left there.
    let mut b = Board::new();
    for x in 1..9u8 {
        b.set_space(Coord::new(x, 0), Space::Full(Number::new(x)));
    }
    b.set_space(Coord::new(0, 8), Space::Full(Number::new(9)));
    let t = BookkeptBoard::from_board(b).expect("clues alone do not conflict");
    assert!(make_forced_choices(t).is_none());
}

#[test]
fn pick_open_space_takes_first_open_cell() {
    let t = BookkeptBoard::new();
    let c = pick_open_space(&t).expect("everything is open");
    assert_eq!(c.idx(), 0);
    let mut t2 = BookkeptBoard::new();
    t2.fill(Coord::new(0, 0), Number::new(3));
    t2.fill(Coord::new(1, 0), Number::new(7));
    let c2 = pick_open_space(&t2).expect("cells remain");
    assert_eq!(c2.idx(), 2);
    // A complete grid leaves nothing to pick.
    let mut full = Board::new();
    for y in 0..9u8 {
        for x in 0..9u8 {
            let n = ((x + 3 * y + y / 3) % 9) + 1;
            full.set_space(Coord::new(x, y), Space::Full(Number::new(n)));
        }
    }
    let tf = BookkeptBoard::from_board(full).expect("valid grid");
    assert!(pick_open_space(&tf).is_none());
}
