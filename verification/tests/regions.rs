use sudoku::board::{Board, Coord, Number, Space};

fn digit_at(sp: Space) -> u8 {
    match sp {
        Space::Empty => 0,
        Space::Full(n) => n.get(),
    }
}

/// A board whose cell at (x, y) holds the digit `x + 1`: each value names
/// its column, which makes extracted regions easy to check.
fn position_board() -> Board {
    let mut b = Board::new();
    for y in 0..9u8 {
        for x in 0..9u8 {
            let n = ((y * 9 + x) % 9) + 1;
            b.set_space(Coord::new(x, y), Space::Full(Number::new(n)));
        }
    }
    b
}

#[test]
fn region_extraction() {
    let b = position_board();
    let row = b.get_row(4);
    for k in 0..9u8 {
        assert_eq!(digit_at(row.get(k)), k + 1);
    }
    let col = b.get_col(3);
    for k in 0..9u8 {
        assert_eq!(digit_at(col.get(k)), 4);
    }
    // Block 4 (centre): columns 3..6 of rows 3..6; cells are stored column
    // by column, so position 3 * dx + dy holds the cell (3 + dx, 3 + dy).
    let sq = b.get_square(4);
    for dx in 0..3u8 {
        for dy in 0..3u8 {
            assert_eq!(digit_at(sq.get(3 * dx + dy)), 4 + dx);
        }
    }
    let regs = b.regions(Coord::new(3, 4));
    for k in 0..9u8 {
        assert_eq!(digit_at(regs[0].get(k)), digit_at(col.get(k)));
        assert_eq!(digit_at(regs[1].get(k)), digit_at(row.get(k)));
        assert_eq!(digit_at(regs[2].get(k)), digit_at(sq.get(k)));
    }
}

#[test]
fn board_allowed_scans_regions() {
    let mut b = Board::new();
    // Around the cell (4, 4): 1 in its row, 2 in its column, 3 in its block.
    b.set_space(Coord::new(0, 4), Space::Full(Number::new(1)));
    b.set_space(Coord::new(4, 8), Space::Full(Number::new(2)));
    b.set_space(Coord::new(5, 5), Space::Full(Number::new(3)));
    // A 4 elsewhere, sharing nothing with (4, 4).
    b.set_space(Coord::new(0, 0), Space::Full(Number::new(4)));
    let a = b.allowed(Coord::new(4, 4));
    let vals: Vec<u8> = a.allowed().iter().map(|n| n.get()).collect();
    assert_eq!(vals, vec![4, 5, 6, 7, 8, 9]);
    assert_eq!(a.count_allowed(), 6);
}

#[test]
fn board_allowed_empty_neighbourhood() {
    let b = Board::new();
    let a = b.allowed(Coord::new(0, 0));
    assert_eq!(a.count_allowed(), 9);
}
