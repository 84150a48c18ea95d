//! The grid data model: symbols, cells, coordinates, and the 81-cell board,
//! together with the specification-level notions of validity (no repeated
//! symbol in a row, column, or block), completeness, and clue preservation.

use vstd::prelude::*;

verus! {

/// A Sudoku symbol: an integer in `[1, 9]`.
#[derive(Clone, Copy, PartialEq, Eq, Structural)]
pub struct Number {
    v: u8,
}

impl Number {
    /// The symbol's value, in specifications.
    pub closed spec fn val(self) -> u8 {
        self.v
    }

    /// A well-formed symbol lies in `[1, 9]`.
    pub open spec fn wf(self) -> bool {
        1 <= self.val() <= 9
    }

    /// Builds a symbol, rejecting out-of-range values.
    pub fn safe_new(n: u8) -> (r: Option<Number>)
        ensures
            r is Some <==> 1 <= n <= 9,
            r matches Some(m) ==> m.val() == n && m.wf(),
    {
        if 1 <= n && n <= 9 {
            Some(Number { v: n })
        } else {
            None
        }
    }

    /// Builds a symbol from a value known to be in range.
    pub fn new(n: u8) -> (r: Number)
        requires
            1 <= n <= 9,
        ensures
            r.val() == n && r.wf(),
    {
        Number { v: n }
    }

    /// The symbol's value.
    pub fn get(&self) -> (r: u8)
        ensures
            r == self.val(),
    {
        self.v
    }
}

/// One cell of the grid: empty, or holding a symbol.
#[derive(Clone, Copy, PartialEq, Eq, Structural)]
pub enum Space {
    Empty,
    Full(Number),
}

/// Does the cell hold the symbol value `n`?
pub open spec fn space_has(sp: Space, n: u8) -> bool {
    match sp {
        Space::Empty => false,
        Space::Full(m) => m.val() == n,
    }
}

/// A cell is well-formed when any symbol it holds is in range.
pub open spec fn space_wf(sp: Space) -> bool {
    match sp {
        Space::Empty => true,
        Space::Full(m) => m.wf(),
    }
}

/// The row (0..9) of the cell with linear index `i`.
pub open spec fn row_of(i: int) -> int {
    i / 9
}

/// The column (0..9) of the cell with linear index `i`.
pub open spec fn col_of(i: int) -> int {
    i % 9
}

/// The 3x3 block (0..9) of the cell with linear index `i`.
pub open spec fn sq_of(i: int) -> int {
    3 * (row_of(i) / 3) + col_of(i) / 3
}

/// Two distinct cells constrain each other when they share a row, a column,
/// or a 3x3 block.
pub open spec fn shares_region(i: int, j: int) -> bool {
    row_of(i) == row_of(j) || col_of(i) == col_of(j) || sq_of(i) == sq_of(j)
}

/// A well-formed grid has 81 cells, each well-formed.
pub open spec fn grid_wf(s: Seq<Space>) -> bool {
    &&& s.len() == 81
    &&& forall|i: int| 0 <= i < 81 ==> space_wf(#[trigger] s[i])
}

/// Some cell of row `r` holds symbol `n`.
pub open spec fn row_has(s: Seq<Space>, r: int, n: u8) -> bool {
    exists|j: int| 0 <= j < 81 && row_of(j) == r && space_has(#[trigger] s[j], n)
}

/// Some cell of column `c` holds symbol `n`.
pub open spec fn col_has(s: Seq<Space>, c: int, n: u8) -> bool {
    exists|j: int| 0 <= j < 81 && col_of(j) == c && space_has(#[trigger] s[j], n)
}

/// Some cell of block `q` holds symbol `n`.
pub open spec fn sq_has(s: Seq<Space>, q: int, n: u8) -> bool {
    exists|j: int| 0 <= j < 81 && sq_of(j) == q && space_has(#[trigger] s[j], n)
}

/// No symbol appears twice in any row, column, or block.
pub open spec fn grid_valid(s: Seq<Space>) -> bool {
    forall|i: int, j: int, n: u8|
        0 <= i < 81 && 0 <= j < 81 && i != j && shares_region(i, j) ==> !(#[trigger] space_has(
            s[i],
            n,
        ) && #[trigger] space_has(s[j], n))
}

/// Every cell holds a symbol.
pub open spec fn grid_complete(s: Seq<Space>) -> bool {
    forall|i: int| 0 <= i < 81 ==> (#[trigger] s[i]) is Full
}

/// Every filled cell of `s` keeps its value in `t`: the solver never
/// overwrites a clue.
pub open spec fn grid_extends(s: Seq<Space>, t: Seq<Space>) -> bool {
    forall|i: int| 0 <= i < 81 && (#[trigger] s[i]) is Full ==> t[i] == s[i]
}

/// Every row, column, and block contains every symbol.
pub open spec fn grid_covers(s: Seq<Space>) -> bool {
    forall|r: int, n: u8|
        0 <= r < 9 && 1 <= n <= 9 ==> #[trigger] row_has(s, r, n) && col_has(s, r, n) && sq_has(
            s,
            r,
            n,
        )
}

/// A completion of a grid: a complete, conflict-free, well-formed grid that
/// keeps every cell the grid had already filled.
pub open spec fn completion_of(s: Seq<Space>, g: Seq<Space>) -> bool {
    grid_wf(g) && grid_complete(g) && grid_valid(g) && grid_extends(s, g)
}

/// The symbol value a cell holds, or 0 for an empty cell.
pub open spec fn space_val(sp: Space) -> u8 {
    match sp {
        Space::Empty => 0,
        Space::Full(m) => m.val(),
    }
}

/// Two filled cells with the same symbol value are the same cell value.
pub proof fn lemma_space_ext(a: Space, b: Space)
    requires
        a is Full,
        b is Full,
        space_val(a) == space_val(b),
    ensures
        a == b,
{
    match (a, b) {
        (Space::Full(ma), Space::Full(mb)) => {
            assert(ma.val() == mb.val());
            assert(ma == mb);
        },
        _ => {},
    }
}

/// How many of the first `k` cells are empty.
pub open spec fn empties_to(s: Seq<Space>, k: int) -> nat
    decreases k,
{
    if k <= 0 {
        0
    } else {
        empties_to(s, k - 1) + if s[k - 1] is Empty {
            1nat
        } else {
            0nat
        }
    }
}

/// How many cells of the grid are empty: the measure that shrinks with every
/// fill, bounding both propagation and the search recursion.
pub open spec fn empties(s: Seq<Space>) -> nat {
    empties_to(s, 81)
}

proof fn lemma_empties_to_update(s: Seq<Space>, t: Seq<Space>, i: int, sp: Space, k: int)
    requires
        0 <= i < 81,
        s[i] is Empty,
        !(sp is Empty),
        t == s.update(i, sp),
        0 <= k <= 81,
        s.len() == 81,
    ensures
        empties_to(t, k) + (if i < k {
            1nat
        } else {
            0nat
        }) == empties_to(s, k),
    decreases k,
{
    if k > 0 {
        lemma_empties_to_update(s, t, i, sp, k - 1);
    }
}

/// Filling one empty cell lowers the count of empty cells by exactly one.
pub proof fn lemma_empties_update(s: Seq<Space>, t: Seq<Space>, i: int, sp: Space)
    requires
        0 <= i < 81,
        s[i] is Empty,
        !(sp is Empty),
        t == s.update(i, sp),
        s.len() == 81,
    ensures
        empties(t) + 1 == empties(s),
{
    lemma_empties_to_update(s, t, i, sp, 81);
}

proof fn lemma_empties_to_le(s: Seq<Space>, t: Seq<Space>, k: int)
    requires
        forall|j: int| 0 <= j < 81 && (#[trigger] t[j]) is Empty ==> s[j] is Empty,
        0 <= k <= 81,
    ensures
        empties_to(t, k) <= empties_to(s, k),
    decreases k,
{
    if k > 0 {
        lemma_empties_to_le(s, t, k - 1);
    }
}

/// A grid with no cell reopened has no more empty cells than before.
pub proof fn lemma_empties_le(s: Seq<Space>, t: Seq<Space>)
    requires
        forall|j: int| 0 <= j < 81 && (#[trigger] t[j]) is Empty ==> s[j] is Empty,
    ensures
        empties(t) <= empties(s),
{
    lemma_empties_to_le(s, t, 81);
}

/// Pigeonhole for one region: nine filled cells with pairwise distinct
/// symbol values use every symbol.
proof fn lemma_nine_distinct(s: Seq<Space>, idxs: Seq<int>, n: u8)
    requires
        s.len() == 81,
        idxs.len() == 9,
        forall|k: int|
            0 <= k < 9 ==> 0 <= #[trigger] idxs[k] < 81 && s[idxs[k]] is Full && space_wf(
                s[idxs[k]],
            ),
        forall|k1: int, k2: int|
            0 <= k1 < 9 && 0 <= k2 < 9 && k1 != k2 ==> space_val(#[trigger] s[idxs[k1]])
                != space_val(#[trigger] s[idxs[k2]]),
        1 <= n <= 9,
    ensures
        exists|k: int| 0 <= k < 9 && #[trigger] space_has(s[idxs[k]], n),
{
    let vseq = Seq::new(9, |k: int| space_val(s[idxs[k]]) as int);
    assert(vseq.no_duplicates()) by {
        assert forall|k1: int, k2: int| 0 <= k1 < 9 && 0 <= k2 < 9 && k1 != k2 implies vseq[k1]
            != vseq[k2] by {
            assert(space_val(s[idxs[k1]]) != space_val(s[idxs[k2]]));
        }
    }
    vseq.unique_seq_to_set();
    let range = vstd::set_lib::set_int_range(1, 10);
    vstd::set_lib::lemma_int_range(1, 10);
    assert(vseq.to_set().subset_of(range)) by {
        assert forall|v: int| vseq.to_set().contains(v) implies range.contains(v) by {
            let k = choose|k: int| 0 <= k < vseq.len() && vseq[k] == v;
            assert(space_wf(s[idxs[k]]));
        }
    }
    if !vseq.to_set().contains(n as int) {
        let cut = range.remove(n as int);
        assert(vseq.to_set().subset_of(cut));
        vstd::set_lib::lemma_len_subset(vseq.to_set(), cut);
        assert(cut.len() == 8);
        assert(false);
    }
    let k = choose|k: int| 0 <= k < vseq.len() && vseq[k] == n as int;
    assert(space_has(s[idxs[k]], n));
}

pub(crate) proof fn lemma_div9(x: int, r: int)
    requires
        0 <= r < 9,
    ensures
        (9 * x + r) / 9 == x,
        (9 * x + r) % 9 == r,
{
    vstd::arithmetic::div_mod::lemma_fundamental_div_mod_converse(9 * x + r, 9, x, r);
}

pub(crate) proof fn lemma_div3(x: int, r: int)
    requires
        0 <= r < 3,
    ensures
        (3 * x + r) / 3 == x,
        (3 * x + r) % 3 == r,
{
    vstd::arithmetic::div_mod::lemma_fundamental_div_mod_converse(3 * x + r, 3, x, r);
}

/// A complete grid without a repeated symbol in any row, column, or block
/// contains every symbol in every row, column, and block: with nine cells
/// and nine symbols, "at most once" and "exactly once" coincide.
pub proof fn lemma_complete_valid_covers(s: Seq<Space>)
    requires
        grid_wf(s),
        grid_complete(s),
        grid_valid(s),
    ensures
        grid_covers(s),
{
    assert forall|r: int, n: u8| 0 <= r < 9 && 1 <= n <= 9 implies #[trigger] row_has(s, r, n)
        && col_has(s, r, n) && sq_has(s, r, n) by {
        // The row r.
        let rowi = Seq::new(9, |k: int| r * 9 + k);
        assert forall|k: int| 0 <= k < 9 implies 0 <= #[trigger] rowi[k] < 81 && s[rowi[k]] is Full
            && space_wf(s[rowi[k]]) && row_of(rowi[k]) == r by {
            lemma_div9(r, k);
        }
        assert forall|k1: int, k2: int|
            0 <= k1 < 9 && 0 <= k2 < 9 && k1 != k2 implies space_val(#[trigger] s[rowi[k1]])
            != space_val(#[trigger] s[rowi[k2]]) by {
            let m = space_val(s[rowi[k1]]);
            if m == space_val(s[rowi[k2]]) {
                assert(space_has(s[rowi[k1]], m) && space_has(s[rowi[k2]], m));
                assert(shares_region(rowi[k1], rowi[k2]));
            }
        }
        lemma_nine_distinct(s, rowi, n);
        let kr = choose|k: int| 0 <= k < 9 && #[trigger] space_has(s[rowi[k]], n);
        assert(space_has(s[r * 9 + kr], n));
        assert(row_has(s, r, n));
        // The column r.
        let coli = Seq::new(9, |k: int| k * 9 + r);
        assert forall|k: int| 0 <= k < 9 implies 0 <= #[trigger] coli[k] < 81 && s[coli[k]] is Full
            && space_wf(s[coli[k]]) && col_of(coli[k]) == r by {
            lemma_div9(k, r);
        }
        assert forall|k1: int, k2: int|
            0 <= k1 < 9 && 0 <= k2 < 9 && k1 != k2 implies space_val(#[trigger] s[coli[k1]])
            != space_val(#[trigger] s[coli[k2]]) by {
            let m = space_val(s[coli[k1]]);
            if m == space_val(s[coli[k2]]) {
                assert(coli[k1] != coli[k2]);
                assert(space_has(s[coli[k1]], m) && space_has(s[coli[k2]], m));
                assert(shares_region(coli[k1], coli[k2]));
            }
        }
        lemma_nine_distinct(s, coli, n);
        let kc = choose|k: int| 0 <= k < 9 && #[trigger] space_has(s[coli[k]], n);
        assert(space_has(s[kc * 9 + r], n));
        assert(col_has(s, r, n));
        // The block r.
        let boxi = Seq::new(9, |k: int| 27 * (r / 3) + 3 * (r % 3) + 9 * (k / 3) + k % 3);
        assert forall|k: int| 0 <= k < 9 implies 0 <= #[trigger] boxi[k] < 81 && s[boxi[k]] is Full
            && space_wf(s[boxi[k]]) && sq_of(boxi[k]) == r by {
            let a = r / 3;
            let b = r % 3;
            let c = k / 3;
            let d = k % 3;
            assert(boxi[k] == 9 * (3 * a + c) + (3 * b + d));
            lemma_div9(3 * a + c, 3 * b + d);
            lemma_div3(a, c);
            lemma_div3(b, d);
            assert(row_of(boxi[k]) == 3 * a + c && col_of(boxi[k]) == 3 * b + d);
        }
        assert forall|k1: int, k2: int|
            0 <= k1 < 9 && 0 <= k2 < 9 && k1 != k2 implies space_val(#[trigger] s[boxi[k1]])
            != space_val(#[trigger] s[boxi[k2]]) by {
            let m = space_val(s[boxi[k1]]);
            if m == space_val(s[boxi[k2]]) {
                assert(boxi[k1] != boxi[k2]) by {
                    lemma_div9(3 * (r / 3) + k1 / 3, 3 * (r % 3) + k1 % 3);
                    lemma_div9(3 * (r / 3) + k2 / 3, 3 * (r % 3) + k2 % 3);
                    lemma_div3(r / 3, k1 / 3);
                    lemma_div3(r / 3, k2 / 3);
                    lemma_div3(r % 3, k1 % 3);
                    lemma_div3(r % 3, k2 % 3);
                }
                assert(space_has(s[boxi[k1]], m) && space_has(s[boxi[k2]], m));
                assert(shares_region(boxi[k1], boxi[k2]));
            }
        }
        lemma_nine_distinct(s, boxi, n);
        let kq = choose|k: int| 0 <= k < 9 && #[trigger] space_has(s[boxi[k]], n);
        assert(sq_of(boxi[kq]) == r);
        assert(sq_has(s, r, n));
    }
}

/// A coordinate on the grid, stored as a linear index `y * 9 + x` in `[0, 81)`.
#[derive(Clone, Copy, PartialEq, Eq, Structural)]
pub struct Coord {
    i: u8,
}

impl Coord {
    /// The linear index, in specifications.
    pub closed spec fn index(self) -> int {
        self.i as int
    }

    /// A well-formed coordinate lies on the board.
    pub open spec fn wf(self) -> bool {
        0 <= self.index() < 81
    }

    /// Builds the coordinate of column `x`, row `y`.
    pub fn new(x: u8, y: u8) -> (c: Coord)
        requires
            x < 9,
            y < 9,
        ensures
            c.wf(),
            c.index() == y * 9 + x,
    {
        Coord { i: y * 9 + x }
    }

    /// Builds the coordinate with linear index `i`.
    pub fn from_index(i: u8) -> (c: Coord)
        requires
            i < 81,
        ensures
            c.wf(),
            c.index() == i,
    {
        Coord { i }
    }

    /// All 81 coordinates, in increasing linear index order.
    pub fn all() -> (v: Vec<Coord>)
        ensures
            v.len() == 81,
            forall|k: int| 0 <= k < 81 ==> (#[trigger] v[k]).wf() && v[k].index() == k,
    {
        let mut v: Vec<Coord> = Vec::new();
        let mut i: u8 = 0;
        while i < 81
            invariant
                i <= 81,
                v.len() == i,
                forall|k: int| 0 <= k < i ==> (#[trigger] v[k]).wf() && v[k].index() == k,
            decreases 81 - i,
        {
            v.push(Coord { i });
            i = i + 1;
        }
        v
    }

    /// The linear index.
    pub fn idx(&self) -> (r: u8)
        ensures
            r == self.index(),
    {
        self.i
    }

    /// The column of this coordinate.
    pub fn x(&self) -> (r: u8)
        requires
            self.wf(),
        ensures
            r == col_of(self.index()),
            r < 9,
    {
        self.i % 9
    }

    /// The row of this coordinate.
    pub fn y(&self) -> (r: u8)
        requires
            self.wf(),
        ensures
            r == row_of(self.index()),
            r < 9,
    {
        self.i / 9
    }

    /// The 3x3 block of this coordinate.
    pub fn square(&self) -> (r: u8)
        requires
            self.wf(),
        ensures
            r == sq_of(self.index()),
            r < 9,
    {
        3 * (self.y() / 3) + (self.x() / 3)
    }
}

/// The 81-cell grid, a flat value type copied wholesale when the search
/// branches.
#[derive(Clone, Copy)]
pub struct Board {
    cells: [Space; 81],
}

impl View for Board {
    type V = Seq<Space>;

    closed spec fn view(&self) -> Seq<Space> {
        self.cells@
    }
}

/// Nine cells taken from one row, column, or 3x3 block.
#[derive(Clone, Copy)]
pub struct Region {
    cells: [Space; 9],
}

impl View for Region {
    type V = Seq<Space>;

    closed spec fn view(&self) -> Seq<Space> {
        self.cells@
    }
}

impl Region {
    /// The cell at position `k` of the region.
    pub fn get(&self, k: u8) -> (sp: Space)
        requires
            k < 9,
        ensures
            sp == self@[k as int],
    {
        self.cells[k as usize]
    }
}

/// Some cell of the nine-cell region holds symbol `n`.
pub open spec fn region_has(s: Seq<Space>, n: u8) -> bool {
    exists|k: int| 0 <= k < 9 && space_has(#[trigger] s[k], n)
}

impl Board {
    /// An entirely empty grid.
    pub fn new() -> (b: Board)
        ensures
            b@.len() == 81,
            forall|i: int| 0 <= i < 81 ==> (#[trigger] b@[i]) is Empty,
            grid_wf(b@),
    {
        Board { cells: [Space::Empty; 81] }
    }

    /// The cell at `c`.
    pub fn get_space(&self, c: Coord) -> (sp: Space)
        requires
            c.wf(),
            self@.len() == 81,
        ensures
            sp == self@[c.index()],
    {
        self.cells[c.idx() as usize]
    }

    /// The nine cells of one row.
    pub fn get_row(&self, row: u8) -> (r: Region)
        requires
            row < 9,
            self@.len() == 81,
        ensures
            forall|k: int| 0 <= k < 9 ==> #[trigger] r@[k] == self@[row * 9 + k],
    {
        let mut reg = [Space::Empty; 9];
        let mut x: u8 = 0;
        while x < 9
            invariant
                x <= 9,
                row < 9,
                self@.len() == 81,
                reg@.len() == 9,
                forall|k: int| 0 <= k < x ==> #[trigger] reg@[k] == self@[row * 9 + k],
            decreases 9 - x,
        {
            reg[x as usize] = self.get_space(Coord::new(x, row));
            x = x + 1;
        }
        Region { cells: reg }
    }

    /// The nine cells of one column.
    pub fn get_col(&self, col: u8) -> (r: Region)
        requires
            col < 9,
            self@.len() == 81,
        ensures
            forall|k: int| 0 <= k < 9 ==> #[trigger] r@[k] == self@[k * 9 + col],
    {
        let mut reg = [Space::Empty; 9];
        let mut y: u8 = 0;
        while y < 9
            invariant
                y <= 9,
                col < 9,
                self@.len() == 81,
                reg@.len() == 9,
                forall|k: int| 0 <= k < y ==> #[trigger] reg@[k] == self@[k * 9 + col],
            decreases 9 - y,
        {
            reg[y as usize] = self.get_space(Coord::new(col, y));
            y = y + 1;
        }
        Region { cells: reg }
    }

    /// The nine cells of one 3x3 block, column by column.
    pub fn get_square(&self, square: u8) -> (r: Region)
        requires
            square < 9,
            self@.len() == 81,
        ensures
            forall|dx: int, dy: int|
                0 <= dx < 3 && 0 <= dy < 3 ==> #[trigger] r@[3 * dx + dy] == self@[(3 * (square / 3)
                    + dy) * 9 + 3 * (square % 3) + dx],
    {
        let start_x = 3 * (square % 3);
        let start_y = 3 * (square / 3);
        let mut reg = [Space::Empty; 9];
        let mut y: u8 = 0;
        while y < 3
            invariant
                y <= 3,
                square < 9,
                start_x == 3 * (square % 3),
                start_y == 3 * (square / 3),
                self@.len() == 81,
                reg@.len() == 9,
                forall|dx: int, dy: int|
                    0 <= dx < 3 && 0 <= dy < y ==> #[trigger] reg@[3 * dx + dy] == self@[(start_y
                        + dy) * 9 + start_x + dx],
            decreases 3 - y,
        {
            let mut x: u8 = 0;
            while x < 3
                invariant
                    x <= 3,
                    y < 3,
                    square < 9,
                    start_x == 3 * (square % 3),
                    start_y == 3 * (square / 3),
                    self@.len() == 81,
                    reg@.len() == 9,
                    forall|dx: int, dy: int|
                        0 <= dx < 3 && 0 <= dy < y ==> #[trigger] reg@[3 * dx + dy] == self@[(
                        start_y + dy) * 9 + start_x + dx],
                    forall|dx: int|
                        0 <= dx < x ==> #[trigger] reg@[3 * dx + y] == self@[(start_y + y) * 9
                            + start_x + dx],
                decreases 3 - x,
            {
                let coord = Coord::new(start_x + x, start_y + y);
                reg[(3 * x + y) as usize] = self.get_space(coord);
                x = x + 1;
            }
            y = y + 1;
        }
        Region { cells: reg }
    }

    /// The column, row, and block regions a coordinate belongs to.
    pub fn regions(&self, coord: Coord) -> (r: [Region; 3])
        requires
            coord.wf(),
            self@.len() == 81,
        ensures
            forall|k: int| 0 <= k < 9 ==> #[trigger] r[0]@[k] == self@[k * 9 + col_of(
                coord.index(),
            )],
            forall|k: int| 0 <= k < 9 ==> #[trigger] r[1]@[k] == self@[row_of(coord.index()) * 9
                + k],
            forall|dx: int, dy: int|
                0 <= dx < 3 && 0 <= dy < 3 ==> #[trigger] r[2]@[3 * dx + dy] == self@[(3 * (sq_of(
                    coord.index(),
                ) / 3) + dy) * 9 + 3 * (sq_of(coord.index()) % 3) + dx],
    {
        [self.get_col(coord.x()), self.get_row(coord.y()), self.get_square(coord.square())]
    }

    /// Replaces the cell at `c`.
    pub fn set_space(&mut self, c: Coord, sp: Space)
        requires
            c.wf(),
            old(self)@.len() == 81,
        ensures
            final(self)@ == old(self)@.update(c.index(), sp),
    {
        self.cells[c.idx() as usize] = sp;
    }
}

} // verus!
