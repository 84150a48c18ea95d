//! The solving engine: incremental constraint bookkeeping (`BookkeptBoard`),
//! propagation of forced moves to quiescence (`make_forced_choices`), and the
//! recursive backtracking search (`solve`).

use vstd::prelude::*;

use crate::bits::{
    cbit, lemma_box_mask_bits, lemma_cbit_and, lemma_cbit_clear, lemma_cbit_or,
    lemma_cbit_universe, lemma_col_mask_bits, lemma_mask_ext, lemma_mask_ok_and, lemma_nbit_all,
    lemma_nbit_and, lemma_nbit_clear, lemma_no_cbit_zero, lemma_nonzero_has_sym, lemma_one_bit_two,
    lemma_row_mask_bits, lemma_zero_cbit, mask_ok, nbit, one_bit,
};
use crate::board::{
    col_has, col_of, completion_of, empties, grid_complete, grid_covers, grid_extends, grid_valid,
    grid_wf, lemma_complete_valid_covers, lemma_div3, lemma_div9, lemma_empties_le,
    lemma_empties_update, lemma_space_ext, region_has, row_has, row_of, shares_region, space_has,
    space_val, space_wf, sq_has, sq_of, Board, Coord, Number, Region, Space,
};

verus! {

broadcast use vstd::array::group_array_axioms;

/// The set of symbols still permitted somewhere, as a bitmask over bits 1..=9
/// (bit `n` set means symbol `n` is permitted).
#[derive(Clone, Copy)]
pub struct AllowedNumbers {
    mask: u16,
}

/// How many of the symbols `1..=n` the mask `m` allows.
pub open spec fn count_syms(m: u16, n: int) -> nat
    decreases n,
{
    if n <= 0 {
        0
    } else {
        count_syms(m, n - 1) + if nbit(m, n as u16) {
            1nat
        } else {
            0nat
        }
    }
}

impl AllowedNumbers {
    /// The raw mask, in specifications.
    pub closed spec fn mask_val(&self) -> u16 {
        self.mask
    }

    /// A well-formed mask uses only bits 1 through 9.
    pub open spec fn wf(&self) -> bool {
        mask_ok(self.mask_val())
    }

    /// Does the mask allow symbol value `n`?
    pub open spec fn allows(&self, n: u8) -> bool {
        nbit(self.mask_val(), n as u16)
    }

    /// The mask allowing all nine symbols.
    pub fn all() -> (r: AllowedNumbers)
        ensures
            r.mask_val() == 0x3FEu16,
            r.wf(),
            forall|n: u8| 1 <= n <= 9 ==> r.allows(n),
    {
        proof {
            lemma_nbit_all();
        }
        AllowedNumbers { mask: 0b111_111_111_0 }
    }

    /// The single-bit mask of a symbol.
    pub fn get_mask(num: Number) -> (r: u16)
        requires
            num.wf(),
        ensures
            r == (1u16 << (num.val() as u16)),
    {
        1u16 << (num.get() as u16)
    }

    /// Removes a symbol from the mask.
    pub fn disallow(&mut self, num: Number)
        requires
            old(self).wf(),
            num.wf(),
        ensures
            final(self).wf(),
            final(self).mask_val() == old(self).mask_val() & !(1u16 << (num.val() as u16)),
            forall|k: u8|
                1 <= k <= 9 ==> (final(self).allows(k) <==> old(self).allows(k) && k != num.val()),
    {
        proof {
            lemma_nbit_clear(self.mask, num.val() as u16);
        }
        self.mask = self.mask & !AllowedNumbers::get_mask(num);
    }

    /// Is the symbol still permitted?
    pub fn is_allowed(&self, num: Number) -> (r: bool)
        requires
            num.wf(),
        ensures
            r == self.allows(num.val()),
    {
        self.mask & AllowedNumbers::get_mask(num) != 0
    }

    /// Intersects two masks: what both still permit.
    pub fn intersect(self, other: AllowedNumbers) -> (r: AllowedNumbers)
        ensures
            r.mask_val() == self.mask_val() & other.mask_val(),
    {
        AllowedNumbers { mask: self.mask & other.mask }
    }

    /// No symbol is permitted: a contradiction at the cell.
    pub fn are_none_allowed(&self) -> (r: bool)
        ensures
            r <==> self.mask_val() == 0,
    {
        self.mask == 0
    }

    /// Exactly one symbol is permitted: a forced move. Tested in O(1) by the
    /// power-of-two bit pattern `m != 0 && m & (m - 1) == 0`.
    pub fn is_one_allowed(&self) -> (r: bool)
        ensures
            r <==> one_bit(self.mask_val()),
    {
        self.mask != 0 && self.mask & (self.mask - 1) == 0
    }

    /// Removes every symbol that appears in the given nine-cell region.
    pub fn disallow_region(&mut self, reg: &Region)
        requires
            old(self).wf(),
            forall|k: int| 0 <= k < 9 ==> space_wf(#[trigger] reg@[k]),
        ensures
            final(self).wf(),
            forall|n: u8|
                1 <= n <= 9 ==> ((#[trigger] final(self).allows(n)) <==> old(self).allows(n)
                    && !region_has(reg@, n)),
    {
        let ghost init = *self;
        let mut k: u8 = 0;
        while k < 9
            invariant
                k <= 9,
                self.wf(),
                init.wf(),
                forall|m: int| 0 <= m < 9 ==> space_wf(#[trigger] reg@[m]),
                forall|n: u8|
                    1 <= n <= 9 ==> ((#[trigger] self.allows(n)) <==> init.allows(n) && !(exists|
                        m: int,
                    | 0 <= m < k && space_has(#[trigger] reg@[m], n))),
            decreases 9 - k,
        {
            let ghost prev = *self;
            match reg.get(k) {
                Space::Full(num) => {
                    self.disallow(num);
                    proof {
                        assert forall|n: u8| 1 <= n <= 9 implies ((#[trigger] self.allows(n))
                            <==> init.allows(n) && !(exists|m: int|
                            0 <= m < k + 1 && space_has(#[trigger] reg@[m], n))) by {
                            if exists|m: int| 0 <= m < k + 1 && space_has(#[trigger] reg@[m], n) {
                                let m = choose|m: int|
                                    0 <= m < k + 1 && space_has(#[trigger] reg@[m], n);
                                if m == k {
                                    assert(n == num.val());
                                } else {
                                    assert(!prev.allows(n));
                                }
                                assert(!self.allows(n));
                            } else {
                                assert(!space_has(reg@[k as int], n));
                                assert(n != num.val());
                            }
                        }
                    }
                },
                Space::Empty => {
                    proof {
                        assert forall|n: u8| 1 <= n <= 9 implies ((#[trigger] self.allows(n))
                            <==> init.allows(n) && !(exists|m: int|
                            0 <= m < k + 1 && space_has(#[trigger] reg@[m], n))) by {
                            if exists|m: int| 0 <= m < k + 1 && space_has(#[trigger] reg@[m], n) {
                                let m = choose|m: int|
                                    0 <= m < k + 1 && space_has(#[trigger] reg@[m], n);
                                assert(m != k);
                            }
                        }
                    }
                },
            }
            k = k + 1;
        }
    }

    /// How many symbols are permitted.
    pub fn count_allowed(&self) -> (r: u8)
        ensures
            r == count_syms(self.mask_val(), 9),
    {
        let mut count: u8 = 0;
        let mut n: u8 = 1;
        while n <= 9
            invariant
                1 <= n <= 10,
                count == count_syms(self.mask_val(), n - 1),
                count < n,
            decreases 10 - n,
        {
            if self.is_allowed(Number::new(n)) {
                count = count + 1;
            }
            n = n + 1;
        }
        count
    }

    /// The permitted symbols, in ascending order.
    pub fn allowed(&self) -> (v: Vec<Number>)
        requires
            self.wf(),
        ensures
            forall|k: int|
                0 <= k < v.len() ==> (#[trigger] v[k]).wf() && self.allows(v[k].val()),
            forall|n: u8|
                1 <= n <= 9 && self.allows(n) ==> exists|k: int|
                    0 <= k < v.len() && (#[trigger] v[k]).val() == n,
            forall|k1: int, k2: int| 0 <= k1 < k2 < v.len() ==> v[k1].val() < v[k2].val(),
            v.len() > 0 <==> self.mask_val() != 0,
    {
        let mut v: Vec<Number> = Vec::new();
        let mut n: u8 = 1;
        while n <= 9
            invariant
                1 <= n <= 10,
                self.wf(),
                forall|k: int|
                    0 <= k < v.len() ==> (#[trigger] v[k]).wf() && self.allows(v[k].val())
                        && v[k].val() < n,
                forall|m: u8|
                    1 <= m < n && self.allows(m) ==> exists|k: int|
                        0 <= k < v.len() && (#[trigger] v[k]).val() == m,
                forall|k1: int, k2: int| 0 <= k1 < k2 < v.len() ==> v[k1].val() < v[k2].val(),
            decreases 10 - n,
        {
            let num = Number::new(n);
            if self.is_allowed(num) {
                let ghost len0 = v.len() as int;
                let ghost v0 = v@;
                v.push(num);
                proof {
                    assert forall|m: u8| 1 <= m < n + 1 && self.allows(m) implies exists|k: int|
                        0 <= k < v.len() && (#[trigger] v[k]).val() == m by {
                        if m == n {
                            assert(v[len0].val() == m);
                        } else {
                            let k = choose|k: int| 0 <= k < len0 && (#[trigger] v0[k]).val() == m;
                            assert(v[k].val() == m);
                        }
                    }
                }
            }
            n = n + 1;
        }
        proof {
            if self.mask_val() != 0 {
                lemma_nonzero_has_sym(self.mask_val());
                if nbit(self.mask_val(), 1u16) {
                    assert(self.allows(1u8));
                } else if nbit(self.mask_val(), 2u16) {
                    assert(self.allows(2u8));
                } else if nbit(self.mask_val(), 3u16) {
                    assert(self.allows(3u8));
                } else if nbit(self.mask_val(), 4u16) {
                    assert(self.allows(4u8));
                } else if nbit(self.mask_val(), 5u16) {
                    assert(self.allows(5u8));
                } else if nbit(self.mask_val(), 6u16) {
                    assert(self.allows(6u8));
                } else if nbit(self.mask_val(), 7u16) {
                    assert(self.allows(7u8));
                } else if nbit(self.mask_val(), 8u16) {
                    assert(self.allows(8u8));
                } else {
                    assert(self.allows(9u8));
                }
                assert(v.len() > 0);
            } else {
                if v.len() > 0 {
                    let n16 = v[0].val() as u16;
                    assert(self.allows(v[0].val()));
                    assert((0u16 & (1u16 << n16)) == 0) by (bit_vector);
                }
            }
        }
        v
    }
}

impl Board {
    /// The symbols placeable at a coordinate, judged directly from the grid:
    /// everything not already present in its row, column, or block.
    pub fn allowed(&self, coord: Coord) -> (r: AllowedNumbers)
        requires
            coord.wf(),
            grid_wf(self@),
        ensures
            r.wf(),
            forall|n: u8|
                1 <= n <= 9 ==> ((#[trigger] r.allows(n)) <==> !row_has(
                    self@,
                    row_of(coord.index()),
                    n,
                ) && !col_has(self@, col_of(coord.index()), n) && !sq_has(
                    self@,
                    sq_of(coord.index()),
                    n,
                )),
    {
        let ghost i = coord.index();
        let ghost cr = col_of(i);
        let ghost rr = row_of(i);
        let ghost qr = sq_of(i);
        let regs = self.regions(coord);
        proof {
            assert(0 <= cr < 9 && 0 <= rr < 9 && 0 <= qr < 9);
            assert forall|k: int| 0 <= k < 9 implies space_wf(#[trigger] regs[0]@[k]) && space_wf(
                regs[1]@[k],
            ) by {
                assert(regs[0]@[k] == self@[k * 9 + cr] && 0 <= k * 9 + cr < 81);
                assert(regs[1]@[k] == self@[rr * 9 + k] && 0 <= rr * 9 + k < 81);
            }
            assert forall|k: int| 0 <= k < 9 implies space_wf(#[trigger] regs[2]@[k]) by {
                let dx = k / 3;
                let dy = k % 3;
                lemma_div3(dx, dy);
                assert(k == 3 * dx + dy);
                assert(regs[2]@[k] == self@[(3 * (qr / 3) + dy) * 9 + 3 * (qr % 3) + dx]);
                assert(0 <= (3 * (qr / 3) + dy) * 9 + 3 * (qr % 3) + dx < 81);
            }
        }
        let mut allowed = AllowedNumbers::all();
        allowed.disallow_region(&regs[0]);
        allowed.disallow_region(&regs[1]);
        allowed.disallow_region(&regs[2]);
        proof {
            assert forall|n: u8| 1 <= n <= 9 implies (region_has(regs[0]@, n) <==> col_has(
                self@,
                cr,
                n,
            )) by {
                if region_has(regs[0]@, n) {
                    let k = choose|k: int| 0 <= k < 9 && space_has(#[trigger] regs[0]@[k], n);
                    lemma_div9(k, cr);
                    assert(space_has(self@[k * 9 + cr], n));
                    assert(col_of(k * 9 + cr) == cr && 0 <= k * 9 + cr < 81);
                }
                if col_has(self@, cr, n) {
                    let j = choose|j: int|
                        0 <= j < 81 && col_of(j) == cr && space_has(#[trigger] self@[j], n);
                    let k = row_of(j);
                    assert(j == k * 9 + cr);
                    assert(space_has(regs[0]@[k], n));
                }
            }
            assert forall|n: u8| 1 <= n <= 9 implies (region_has(regs[1]@, n) <==> row_has(
                self@,
                rr,
                n,
            )) by {
                if region_has(regs[1]@, n) {
                    let k = choose|k: int| 0 <= k < 9 && space_has(#[trigger] regs[1]@[k], n);
                    lemma_div9(rr, k);
                    assert(space_has(self@[rr * 9 + k], n));
                    assert(row_of(rr * 9 + k) == rr && 0 <= rr * 9 + k < 81);
                }
                if row_has(self@, rr, n) {
                    let j = choose|j: int|
                        0 <= j < 81 && row_of(j) == rr && space_has(#[trigger] self@[j], n);
                    let k = col_of(j);
                    assert(j == rr * 9 + k);
                    assert(space_has(regs[1]@[k], n));
                }
            }
            assert forall|n: u8| 1 <= n <= 9 implies (region_has(regs[2]@, n) <==> sq_has(
                self@,
                qr,
                n,
            )) by {
                let a = qr / 3;
                let b = qr % 3;
                if region_has(regs[2]@, n) {
                    let k = choose|k: int| 0 <= k < 9 && space_has(#[trigger] regs[2]@[k], n);
                    let dx = k / 3;
                    let dy = k % 3;
                    lemma_div3(dx, dy);
                    assert(k == 3 * dx + dy);
                    let j = (3 * a + dy) * 9 + 3 * b + dx;
                    assert(space_has(self@[j], n));
                    lemma_div9(3 * a + dy, 3 * b + dx);
                    lemma_div3(a, dy);
                    lemma_div3(b, dx);
                    assert(sq_of(j) == qr && 0 <= j < 81);
                }
                if sq_has(self@, qr, n) {
                    let j = choose|j: int|
                        0 <= j < 81 && sq_of(j) == qr && space_has(#[trigger] self@[j], n);
                    let jr = row_of(j);
                    let jc = col_of(j);
                    assert(3 * (jr / 3) + jc / 3 == 3 * a + b);
                    assert(jr / 3 == a && jc / 3 == b);
                    let dy = jr % 3;
                    let dx = jc % 3;
                    assert(jr == 3 * a + dy && jc == 3 * b + dx);
                    assert(j == (3 * a + dy) * 9 + 3 * b + dx);
                    assert(space_has(regs[2]@[3 * dx + dy], n));
                }
            }
        }
        allowed
    }
}

/// The constraint tracker: the grid plus incremental bookkeeping — one
/// candidate mask per row, column, and block, an open-cell bitset, and a
/// dirty-cell bitset of cells whose effective candidates may have shrunk
/// since they were last examined. A flat value type: the search clones it to
/// branch and discards the clone to backtrack.
#[derive(Clone, Copy)]
pub struct BookkeptBoard {
    board: Board,
    open_spaces: u128,
    updated_allows: u128,
    col_allowed: [AllowedNumbers; 9],
    row_allowed: [AllowedNumbers; 9],
    box_allowed: [AllowedNumbers; 9],
}

impl BookkeptBoard {
    /// The cells of the tracked grid, in specifications.
    pub closed spec fn grid(&self) -> Seq<Space> {
        self.board@
    }

    /// The open-cell bitset, in specifications.
    pub closed spec fn open_mask(&self) -> u128 {
        self.open_spaces
    }

    /// The dirty-cell bitset, in specifications.
    pub closed spec fn dirty_mask(&self) -> u128 {
        self.updated_allows
    }

    /// The candidate mask of row `r`, in specifications.
    pub closed spec fn row_mask(&self, r: int) -> u16 {
        self.row_allowed@[r].mask_val()
    }

    /// The candidate mask of column `c`, in specifications.
    pub closed spec fn col_mask(&self, c: int) -> u16 {
        self.col_allowed@[c].mask_val()
    }

    /// The candidate mask of block `q`, in specifications.
    pub closed spec fn box_mask(&self, q: int) -> u16 {
        self.box_allowed@[q].mask_val()
    }

    /// Cell `j` is open (still empty) according to the open-cell bitset.
    pub open spec fn is_open(&self, j: int) -> bool {
        cbit(self.open_mask(), j as u128)
    }

    /// Cell `j` is queued for re-examination.
    pub open spec fn is_dirty(&self, j: int) -> bool {
        cbit(self.dirty_mask(), j as u128)
    }

    /// The effective candidate mask of cell `i`: the intersection of its
    /// column, row, and block masks, recomputed on demand.
    pub open spec fn cands(&self, i: int) -> u16 {
        (self.col_mask(col_of(i)) & self.row_mask(row_of(i))) & self.box_mask(sq_of(i))
    }

    /// Symbol `n` is an effective candidate at cell `i`.
    pub open spec fn cand_sym(&self, i: int, n: u8) -> bool {
        nbit(self.cands(i), n as u16)
    }

    /// Each region mask allows a symbol exactly when no cell of that region
    /// holds it.
    pub open spec fn masks_ok(&self) -> bool {
        forall|r: int, n: u8|
            #![trigger nbit(self.row_mask(r), n as u16)]
            #![trigger nbit(self.col_mask(r), n as u16)]
            #![trigger nbit(self.box_mask(r), n as u16)]
            0 <= r < 9 && 1 <= n <= 9 ==> ((nbit(self.row_mask(r), n as u16) <==> !row_has(
                self.grid(),
                r,
                n,
            )) && (nbit(self.col_mask(r), n as u16) <==> !col_has(self.grid(), r, n)) && (nbit(
                self.box_mask(r),
                n as u16,
            ) <==> !sq_has(self.grid(), r, n)))
    }

    /// The open-cell bitset marks exactly the empty cells.
    pub open spec fn open_ok(&self) -> bool {
        forall|j: u128|
            j < 128 ==> (#[trigger] cbit(self.open_mask(), j) <==> j < 81 && self.grid()[j as int]
                is Empty)
    }

    /// Dirty cells are open: filled cells are never revisited.
    pub open spec fn dirty_ok(&self) -> bool {
        forall|j: u128|
            j < 128 && #[trigger] cbit(self.dirty_mask(), j) ==> cbit(self.open_mask(), j)
    }

    /// The dirty set covers progress: every open cell whose effective
    /// candidates have shrunk to one or none is queued for re-examination.
    /// Freshly built trackers have it vacuously (every cell keeps nine
    /// candidates), and `fill` preserves it by queueing every open cell that
    /// shares a region with the filled one.
    pub open spec fn dirty_covers(&self) -> bool {
        forall|i: int|
            0 <= i < 81 && (#[trigger] self.grid()[i]) is Empty && (self.cands(i) == 0 || one_bit(
                self.cands(i),
            )) ==> self.is_dirty(i)
    }

    /// The tracker invariant: a well-formed, conflict-free grid whose three
    /// mask arrays and two bitsets are consistent with it.
    pub open spec fn wf(&self) -> bool {
        &&& grid_wf(self.grid())
        &&& grid_valid(self.grid())
        &&& forall|r: int|
            #![trigger self.row_mask(r)]
            #![trigger self.col_mask(r)]
            #![trigger self.box_mask(r)]
            0 <= r < 9 ==> mask_ok(self.row_mask(r)) && mask_ok(self.col_mask(r)) && mask_ok(
                self.box_mask(r),
            )
        &&& self.masks_ok()
        &&& self.open_ok()
        &&& self.dirty_ok()
    }

    /// The tracked grid, as a plain board value.
    pub fn board(&self) -> (b: Board)
        ensures
            b@ == self.grid(),
    {
        self.board
    }

    /// A tracker for the empty grid: everything open, nothing dirty, all
    /// symbols allowed everywhere.
    pub fn new() -> (t: BookkeptBoard)
        ensures
            t.wf(),
            t.dirty_mask() == 0,
            t.dirty_covers(),
            t.grid().len() == 81,
            forall|i: int| 0 <= i < 81 ==> (#[trigger] t.grid()[i]) is Empty,
    {
        proof {
            assert(1u128 << 81 >= 1) by (bit_vector);
        }
        let t = BookkeptBoard {
            board: Board::new(),
            open_spaces: (1u128 << 81) - 1,
            updated_allows: 0,
            col_allowed: [AllowedNumbers::all(); 9],
            row_allowed: [AllowedNumbers::all(); 9],
            box_allowed: [AllowedNumbers::all(); 9],
        };
        proof {
            lemma_cbit_universe();
            lemma_zero_cbit();
            lemma_nbit_all();
            assert forall|j: u128| j < 128 implies (cbit(t.open_mask(), j) <==> (j < 81
                && t.grid()[j as int] is Empty)) by {
                assert(t.open_mask() == ((1u128 << 81) - 1) as u128);
                assert(cbit(((1u128 << 81) - 1) as u128, j) <==> j < 81);
            }
            assert forall|j: u128| j < 128 implies !cbit(t.dirty_mask(), j) by {
                assert(t.dirty_mask() == 0u128);
                assert(!cbit(0u128, j));
            }
            assert forall|r: int, n: u8| 0 <= r < 9 && 1 <= n <= 9 implies !row_has(
                t.grid(),
                r,
                n,
            ) && !col_has(t.grid(), r, n) && !sq_has(t.grid(), r, n) by {
                assert forall|j: int| 0 <= j < 81 implies !space_has(t.grid()[j], n) by {}
            }
            assert forall|r: int, n: u8|
                #![trigger nbit(t.row_mask(r), n as u16)]
                #![trigger nbit(t.col_mask(r), n as u16)]
                #![trigger nbit(t.box_mask(r), n as u16)]
                0 <= r < 9 && 1 <= n <= 9 implies (nbit(t.row_mask(r), n as u16) && nbit(
                t.col_mask(r),
                n as u16,
            ) && nbit(t.box_mask(r), n as u16)) by {
                assert(t.row_mask(r) == 0x3FEu16 && t.col_mask(r) == 0x3FEu16 && t.box_mask(r)
                    == 0x3FEu16);
                assert(nbit(0x3FEu16, n as u16));
            }
            assert(0x3FEu16 & 0x3FEu16 == 0x3FEu16 && !one_bit(0x3FEu16) && 0x3FEu16 != 0u16)
                by (bit_vector);
            assert forall|i: int|
                0 <= i < 81 && (#[trigger] t.grid()[i]) is Empty && (t.cands(i) == 0 || one_bit(
                    t.cands(i),
                )) implies t.is_dirty(i) by {
                assert(0 <= row_of(i) < 9 && 0 <= col_of(i) < 9 && 0 <= sq_of(i) < 9);
                assert(t.cands(i) == 0x3FEu16);
            }
        }
        t
    }

    /// The effective candidates of a cell: the intersection of its column,
    /// row, and block masks.
    pub fn allowed(&self, coord: Coord) -> (r: AllowedNumbers)
        requires
            coord.wf(),
        ensures
            r.mask_val() == self.cands(coord.index()),
            self.wf() ==> r.wf(),
    {
        let mut res = self.col_allowed[coord.x() as usize];
        res = res.intersect(self.row_allowed[coord.y() as usize]);
        res = res.intersect(self.box_allowed[coord.square() as usize]);
        proof {
            let i = coord.index();
            assert(0 <= row_of(i) < 9 && 0 <= col_of(i) < 9 && 0 <= sq_of(i) < 9);
            if self.wf() {
                assert(mask_ok(self.col_mask(col_of(i))) && mask_ok(self.row_mask(row_of(i)))
                    && mask_ok(self.box_mask(sq_of(i))));
                lemma_mask_ok_and(self.col_mask(col_of(i)), self.row_mask(row_of(i)));
                lemma_mask_ok_and(
                    self.col_mask(col_of(i)) & self.row_mask(row_of(i)),
                    self.box_mask(sq_of(i)),
                );
            }
        }
        res
    }

    /// Are any cells queued for re-examination?
    pub fn any_updates(&self) -> (r: bool)
        ensures
            r <==> self.dirty_mask() != 0,
    {
        self.updated_allows != 0
    }

    /// Drains the dirty set: returns the queued coordinates in ascending
    /// order and atomically clears the set.
    pub fn take_updates(&mut self) -> (v: Vec<Coord>)
        ensures
            final(self).grid() == old(self).grid(),
            final(self).open_mask() == old(self).open_mask(),
            final(self).dirty_mask() == 0,
            forall|r: int|
                #![trigger final(self).row_mask(r)]
                #![trigger final(self).col_mask(r)]
                #![trigger final(self).box_mask(r)]
                0 <= r < 9 ==> final(self).row_mask(r) == old(self).row_mask(r) && final(self).col_mask(r) == old(self).col_mask(r) && final(self).box_mask(r) == old(self).box_mask(r),
            old(self).wf() ==> final(self).wf(),
            forall|k: int|
                0 <= k < v.len() ==> (#[trigger] v[k]).wf() && old(self).is_dirty(v[k].index()),
            forall|j: int|
                0 <= j < 81 && old(self).is_dirty(j) ==> exists|k: int|
                    0 <= k < v.len() && (#[trigger] v[k]).index() == j,
            forall|k1: int, k2: int| 0 <= k1 < k2 < v.len() ==> v[k1].index() < v[k2].index(),
    {
        let mut v: Vec<Coord> = Vec::new();
        let mut j: u8 = 0;
        while j < 81
            invariant
                j <= 81,
                forall|k: int|
                    0 <= k < v.len() ==> (#[trigger] v[k]).wf() && self.is_dirty(v[k].index())
                        && v[k].index() < j,
                forall|i: int|
                    0 <= i < j && self.is_dirty(i) ==> exists|k: int|
                        0 <= k < v.len() && (#[trigger] v[k]).index() == i,
                forall|k1: int, k2: int| 0 <= k1 < k2 < v.len() ==> v[k1].index() < v[k2].index(),
            decreases 81 - j,
        {
            if (self.updated_allows >> (j as u128)) & 1u128 == 1u128 {
                let ghost len0 = v.len() as int;
                let ghost v0 = v@;
                v.push(Coord::from_index(j));
                proof {
                    assert forall|i: int| 0 <= i < j + 1 && self.is_dirty(i) implies exists|k: int|
                        0 <= k < v.len() && (#[trigger] v[k]).index() == i by {
                        if i == j {
                            assert(v[len0].index() == i);
                        } else {
                            let k = choose|k: int| 0 <= k < len0 && (#[trigger] v0[k]).index() == i;
                            assert(v[k].index() == i);
                        }
                    }
                }
            }
            j = j + 1;
        }
        self.updated_allows = 0;
        proof {
            lemma_zero_cbit();
            assert forall|j: u128| j < 128 implies !cbit(self.dirty_mask(), j) by {
                assert(self.dirty_mask() == 0u128);
                assert(!cbit(0u128, j));
            }
            if old(self).wf() {
                lemma_wf_same(old(self), self);
            }
        }
        v
    }

    /// Marks every cell of the filled cell's column as needing
    /// re-examination.
    fn add_col_updates(&mut self, coord: Coord)
        requires
            coord.wf(),
        ensures
            final(self).board == old(self).board,
            final(self).open_spaces == old(self).open_spaces,
            final(self).row_allowed == old(self).row_allowed,
            final(self).col_allowed == old(self).col_allowed,
            final(self).box_allowed == old(self).box_allowed,
            forall|j: u128|
                j < 128 ==> (#[trigger] cbit(final(self).dirty_mask(), j) <==> cbit(
                    old(self).dirty_mask(),
                    j,
                ) || (j < 81 && col_of(j as int) == col_of(coord.index()))),
    {
        let x = coord.x();
        let this_col_mask = COL_BASE << (x as u128);
        proof {
            lemma_col_mask_bits(x as u128);
            lemma_cbit_or(self.updated_allows, this_col_mask);
        }
        self.updated_allows = self.updated_allows | this_col_mask;
        proof {
            assert forall|j: u128| j < 128 implies (#[trigger] cbit(self.dirty_mask(), j) <==> cbit(
                old(self).dirty_mask(),
                j,
            ) || (j < 81 && col_of(j as int) == col_of(coord.index()))) by {
                assert(cbit(
                    old(self).dirty_mask() | (COL_BASE << (x as u128)),
                    j,
                ) <==> cbit(old(self).dirty_mask(), j) || cbit(COL_BASE << (x as u128), j));
                assert(cbit(
                    ((1u128 << 72) | (1u128 << 63) | (1u128 << 54) | (1u128 << 45) | (1u128 << 36)
                        | (1u128 << 27) | (1u128 << 18) | (1u128 << 9) | 1u128) << (x as u128),
                    j,
                ) <==> j < 81 && j % 9 == x as u128);
                if j < 81 {
                    assert(j % 9 == x as u128 <==> col_of(j as int) == x as int);
                }
            }
        }
    }

    /// Marks every cell of the filled cell's row as needing re-examination.
    fn add_row_updates(&mut self, coord: Coord)
        requires
            coord.wf(),
        ensures
            final(self).board == old(self).board,
            final(self).open_spaces == old(self).open_spaces,
            final(self).row_allowed == old(self).row_allowed,
            final(self).col_allowed == old(self).col_allowed,
            final(self).box_allowed == old(self).box_allowed,
            forall|j: u128|
                j < 128 ==> (#[trigger] cbit(final(self).dirty_mask(), j) <==> cbit(
                    old(self).dirty_mask(),
                    j,
                ) || (j < 81 && row_of(j as int) == row_of(coord.index()))),
    {
        let y = coord.y();
        let this_row_mask = ROW_BASE << (9 * (y as u128));
        proof {
            lemma_row_mask_bits(y as u128);
            lemma_cbit_or(self.updated_allows, this_row_mask);
        }
        self.updated_allows = self.updated_allows | this_row_mask;
        proof {
            assert forall|j: u128| j < 128 implies (#[trigger] cbit(self.dirty_mask(), j) <==> cbit(
                old(self).dirty_mask(),
                j,
            ) || (j < 81 && row_of(j as int) == row_of(coord.index()))) by {
                assert(cbit(
                    old(self).dirty_mask() | (ROW_BASE << (9 * (y as u128))),
                    j,
                ) <==> cbit(old(self).dirty_mask(), j) || cbit(ROW_BASE << (9 * (y as u128)), j));
                assert(cbit(0x1FFu128 << ((9 * (y as u128)) as u128), j) <==> j < 81 && j / 9 == y
                    as u128);
                assert(ROW_BASE << (9 * (y as u128)) == 0x1FFu128 << ((9 * (y as u128)) as u128));
                if j < 81 {
                    assert(j / 9 == y as u128 <==> row_of(j as int) == y as int);
                }
            }
        }
    }

    /// Marks every cell of the filled cell's 3x3 block as needing
    /// re-examination.
    fn add_box_updates(&mut self, coord: Coord)
        requires
            coord.wf(),
        ensures
            final(self).board == old(self).board,
            final(self).open_spaces == old(self).open_spaces,
            final(self).row_allowed == old(self).row_allowed,
            final(self).col_allowed == old(self).col_allowed,
            final(self).box_allowed == old(self).box_allowed,
            forall|j: u128|
                j < 128 ==> (#[trigger] cbit(final(self).dirty_mask(), j) <==> cbit(
                    old(self).dirty_mask(),
                    j,
                ) || (j < 81 && sq_of(j as int) == sq_of(coord.index()))),
    {
        let x = coord.x();
        let y = coord.y();
        let shift = 3 * ((x / 3) as u128) + 27 * ((y / 3) as u128);
        let this_box_mask = BOX_BASE << shift;
        proof {
            lemma_box_mask_bits((x / 3) as u128, (y / 3) as u128);
            lemma_cbit_or(self.updated_allows, this_box_mask);
        }
        self.updated_allows = self.updated_allows | this_box_mask;
        proof {
            let a = (x / 3) as u128;
            let b = (y / 3) as u128;
            assert(sq_of(coord.index()) == 3 * (b as int) + a as int);
            assert forall|j: u128| j < 128 implies (#[trigger] cbit(self.dirty_mask(), j) <==> cbit(
                old(self).dirty_mask(),
                j,
            ) || (j < 81 && sq_of(j as int) == sq_of(coord.index()))) by {
                assert(cbit(old(self).dirty_mask() | (BOX_BASE << shift), j) <==> cbit(
                    old(self).dirty_mask(),
                    j,
                ) || cbit(BOX_BASE << shift, j));
                assert(cbit(
                    (0x7u128 | (0x7u128 << 9) | (0x7u128 << 18)) << ((3 * a + 27 * b) as u128),
                    j,
                ) <==> j < 81 && (j % 9) / 3 == a && (j / 9) / 3 == b);
                assert(BOX_BASE << shift == (0x7u128 | (0x7u128 << 9) | (0x7u128 << 18)) << ((3 * a
                    + 27 * b) as u128));
                if j < 81 {
                    let jc = col_of(j as int);
                    let jr = row_of(j as int);
                    assert(0 <= jc < 9 && 0 <= jr < 9);
                    assert(sq_of(j as int) == 3 * (jr / 3) + jc / 3);
                    assert((j % 9) / 3 == a <==> jc / 3 == a as int);
                    assert((j / 9) / 3 == b <==> jr / 3 == b as int);
                    assert((jc / 3 == a as int && jr / 3 == b as int) <==> 3 * (jr / 3) + jc / 3
                        == 3 * (b as int) + a as int);
                }
            }
        }
    }

    /// Fills an open cell with one of its effective candidates: writes the
    /// symbol into the grid, closes the cell, removes the symbol from the
    /// cell's row, column, and block masks, and marks every still-open cell
    /// sharing a region with it as dirty. Calling this on a filled cell, or
    /// with a symbol that is not an effective candidate there, is a caller
    /// error, which this precondition rules out.
    #[verifier::rlimit(100)]
    pub fn fill(&mut self, coord: Coord, num: Number)
        requires
            old(self).wf(),
            coord.wf(),
            num.wf(),
            old(self).grid()[coord.index()] is Empty,
            old(self).cand_sym(coord.index(), num.val()),
        ensures
            final(self).wf(),
            final(self).grid() == old(self).grid().update(coord.index(), Space::Full(num)),
            forall|j: int|
                0 <= j < 81 ==> (#[trigger] final(self).is_open(j) <==> old(self).is_open(j) && j
                    != coord.index()),
            forall|j: int|
                0 <= j < 81 ==> (#[trigger] final(self).is_dirty(j) <==> (old(self).is_dirty(j)
                    || shares_region(j, coord.index())) && final(self).is_open(j)),
            forall|i2: int, n: u8|
                #![trigger final(self).cand_sym(i2, n)]
                0 <= i2 < 81 && 1 <= n <= 9 ==> (final(self).cand_sym(i2, n) <==> old(self).cand_sym(i2, n) && !(shares_region(i2, coord.index()) && n == num.val())),
    {
        let ghost t0 = *self;
        let ghost i = coord.index();
        proof {
            lemma_cand_meaning(t0, i, num.val());
        }
        let idx = coord.idx();
        let x = coord.x();
        let y = coord.y();
        let sq = coord.square();
        self.board.set_space(coord, Space::Full(num));
        proof {
            lemma_cbit_clear(self.open_spaces, idx as u128);
        }
        self.open_spaces = self.open_spaces & !(1u128 << (idx as u128));
        let ghost ta = *self;
        self.add_col_updates(coord);
        let ghost tb = *self;
        self.add_row_updates(coord);
        let ghost tc = *self;
        self.add_box_updates(coord);
        proof {
            lemma_cbit_and(self.updated_allows, self.open_spaces);
        }
        let ghost td = *self;
        self.updated_allows = self.updated_allows & self.open_spaces;
        let mut cm = self.col_allowed[x as usize];
        cm.disallow(num);
        self.col_allowed[x as usize] = cm;
        let mut rm = self.row_allowed[y as usize];
        rm.disallow(num);
        self.row_allowed[y as usize] = rm;
        let mut bm = self.box_allowed[sq as usize];
        bm.disallow(num);
        self.box_allowed[sq as usize] = bm;
        proof {
            let s = t0.grid();
            let t = self.grid();
            assert(t == s.update(i, Space::Full(num)));
            lemma_region_has_update(s, t, i, num);
            // The open-cell bitset: the filled cell's bit went out, the rest
            // stayed.
            assert forall|j: u128| j < 128 implies (#[trigger] cbit(self.open_mask(), j) <==> cbit(
                t0.open_mask(),
                j,
            ) && j != i as u128) by {
                assert(cbit(t0.open_mask() & !(1u128 << (idx as u128)), j) <==> cbit(
                    t0.open_mask(),
                    j,
                ) && j != idx as u128);
            }
            assert forall|j: u128| j < 128 implies (#[trigger] cbit(self.open_mask(), j) <==> (j
                < 81 && t[j as int] is Empty)) by {
                assert(cbit(t0.open_mask(), j) <==> (j < 81 && s[j as int] is Empty));
            }
            // The dirty bitset: region bits in, then masked to open cells.
            assert forall|j: u128| j < 128 implies (#[trigger] cbit(self.dirty_mask(), j) <==> (
            cbit(t0.dirty_mask(), j) || (j < 81 && shares_region(j as int, i))) && cbit(
                self.open_mask(),
                j,
            )) by {
                assert(cbit(tb.dirty_mask(), j) <==> cbit(ta.dirty_mask(), j) || (j < 81 && col_of(
                    j as int,
                ) == col_of(i)));
                assert(cbit(tc.dirty_mask(), j) <==> cbit(tb.dirty_mask(), j) || (j < 81 && row_of(
                    j as int,
                ) == row_of(i)));
                assert(cbit(td.dirty_mask(), j) <==> cbit(tc.dirty_mask(), j) || (j < 81 && sq_of(
                    j as int,
                ) == sq_of(i)));
                assert(cbit(td.dirty_mask() & self.open_mask(), j) <==> cbit(td.dirty_mask(), j)
                    && cbit(self.open_mask(), j));
            }
            // The region masks: the filled symbol went out of the cell's row,
            // column, and block; everything else stayed.
            assert(self.col_mask(col_of(i)) == t0.col_mask(col_of(i)) & !(1u16 << (num.val()
                as u16)));
            assert(self.row_mask(row_of(i)) == t0.row_mask(row_of(i)) & !(1u16 << (num.val()
                as u16)));
            assert(self.box_mask(sq_of(i)) == t0.box_mask(sq_of(i)) & !(1u16 << (num.val()
                as u16)));
            assert forall|r: int|
                #![trigger self.row_mask(r)]
                #![trigger self.col_mask(r)]
                #![trigger self.box_mask(r)]
                0 <= r < 9 implies (r != row_of(i) ==> self.row_mask(r) == t0.row_mask(r)) && (r
                != col_of(i) ==> self.col_mask(r) == t0.col_mask(r)) && (r != sq_of(i)
                ==> self.box_mask(r) == t0.box_mask(r)) && mask_ok(self.row_mask(r)) && mask_ok(
                self.col_mask(r),
            ) && mask_ok(self.box_mask(r)) by {
                assert(mask_ok(t0.row_mask(r)) && mask_ok(t0.col_mask(r)) && mask_ok(
                    t0.box_mask(r),
                ));
            }
            // Each region mask still matches its region's contents.
            assert forall|r: int, n: u8|
                #![trigger nbit(self.row_mask(r), n as u16)]
                #![trigger nbit(self.col_mask(r), n as u16)]
                #![trigger nbit(self.box_mask(r), n as u16)]
                0 <= r < 9 && 1 <= n <= 9 implies ((nbit(self.row_mask(r), n as u16) <==> !row_has(
                t,
                r,
                n,
            )) && (nbit(self.col_mask(r), n as u16) <==> !col_has(t, r, n)) && (nbit(
                self.box_mask(r),
                n as u16,
            ) <==> !sq_has(t, r, n))) by {
                assert(nbit(t0.row_mask(r), n as u16) <==> !row_has(s, r, n));
                assert(nbit(t0.col_mask(r), n as u16) <==> !col_has(s, r, n));
                assert(nbit(t0.box_mask(r), n as u16) <==> !sq_has(s, r, n));
                if r == row_of(i) {
                    assert(rm.allows(n) <==> (nbit(t0.row_mask(r), n as u16) && n != num.val()));
                }
                if r == col_of(i) {
                    assert(cm.allows(n) <==> (nbit(t0.col_mask(r), n as u16) && n != num.val()));
                }
                if r == sq_of(i) {
                    assert(bm.allows(n) <==> (nbit(t0.box_mask(r), n as u16) && n != num.val()));
                }
            }
            // The grid stays free of conflicts: the symbol was an effective
            // candidate, so its row, column, and block did not hold it.
            assert forall|p: int, p2: int, n: u8|
                0 <= p < 81 && 0 <= p2 < 81 && p != p2 && shares_region(p, p2) implies !(
            #[trigger] space_has(t[p], n) && #[trigger] space_has(t[p2], n)) by {
                if space_has(t[p], n) && space_has(t[p2], n) {
                    if p != i && p2 != i {
                        assert(space_has(s[p], n) && space_has(s[p2], n));
                    } else {
                        let w = if p == i {
                            p2
                        } else {
                            p
                        };
                        assert(space_has(t[i], n) && space_has(t[w], n) && w != i
                            && shares_region(i, w));
                        assert(n == num.val());
                        assert(space_has(s[w], n));
                        if row_of(w) == row_of(i) {
                            assert(row_has(s, row_of(i), n));
                        } else if col_of(w) == col_of(i) {
                            assert(col_has(s, col_of(i), n));
                        } else {
                            assert(sq_of(w) == sq_of(i));
                            assert(sq_has(s, sq_of(i), n));
                        }
                    }
                }
            }
            assert(grid_valid(t));
            assert(grid_wf(t));
            assert(self.wf());
            // The effective candidates: a symbol survives at a cell unless it
            // is the filled symbol and the cell shares a region with the
            // filled one.
            assert forall|i2: int, n: u8|
                #![trigger self.cand_sym(i2, n)]
                0 <= i2 < 81 && 1 <= n <= 9 implies (self.cand_sym(i2, n) <==> t0.cand_sym(i2, n)
                && !(shares_region(i2, i) && n == num.val())) by {
                lemma_cand_meaning(t0, i2, n);
                lemma_cand_meaning(*self, i2, n);
                assert(0 <= row_of(i2) < 9 && 0 <= col_of(i2) < 9 && 0 <= sq_of(i2) < 9);
                assert(row_has(t, row_of(i2), n) <==> row_has(s, row_of(i2), n) || (row_of(i2)
                    == row_of(i) && n == num.val()));
                assert(col_has(t, col_of(i2), n) <==> col_has(s, col_of(i2), n) || (col_of(i2)
                    == col_of(i) && n == num.val()));
                assert(sq_has(t, sq_of(i2), n) <==> sq_has(s, sq_of(i2), n) || (sq_of(i2) == sq_of(
                    i,
                ) && n == num.val()));
            }
        }
    }

    /// Builds the tracker for a starting grid by replaying every filled cell
    /// as a fill. A clue that conflicts with an earlier clue in its row,
    /// column, or block shows the grid has no completion, reported as `None`.
    pub fn from_board(board: Board) -> (res: Option<BookkeptBoard>)
        requires
            grid_wf(board@),
        ensures
            res matches Some(t) ==> t.wf() && t.dirty_covers() && t.grid() == board@,
            res is Some <==> grid_valid(board@),
    {
        let mut res = BookkeptBoard::new();
        let coords = Coord::all();
        let mut k: usize = 0;
        while k < 81
            invariant
                0 <= k <= 81,
                grid_wf(board@),
                coords.len() == 81,
                forall|j: int| 0 <= j < 81 ==> (#[trigger] coords[j]).wf() && coords[j].index() == j,
                res.wf(),
                res.dirty_covers(),
                forall|j: int|
                    0 <= j < 81 ==> #[trigger] res.grid()[j] == (if j < k && board@[j] is Full {
                        board@[j]
                    } else {
                        Space::Empty
                    }),
            decreases 81 - k,
        {
            let c = coords[k];
            match board.get_space(c) {
                Space::Full(num) => {
                    proof {
                        assert(space_wf(board@[k as int]));
                    }
                    let a = res.allowed(c);
                    if a.is_allowed(num) {
                        let ghost rprev = res;
                        res.fill(c, num);
                        proof {
                            assert forall|j: int| 0 <= j < 81 implies #[trigger] res.grid()[j] == (
                            if j < k + 1 && board@[j] is Full {
                                board@[j]
                            } else {
                                Space::Empty
                            }) by {}
                            lemma_covers_step(
                                rprev,
                                res,
                                c.index(),
                                num.val(),
                                |i: int| false,
                            );
                        }
                    } else {
                        proof {
                            let i = c.index();
                            lemma_cand_meaning(res, i, num.val());
                            assert(space_has(board@[i], num.val()));
                            if row_has(res.grid(), row_of(i), num.val()) {
                                let j = choose|j: int|
                                    0 <= j < 81 && row_of(j) == row_of(i) && space_has(
                                        #[trigger] res.grid()[j],
                                        num.val(),
                                    );
                                assert(space_has(board@[j], num.val()) && j != i && shares_region(
                                    j,
                                    i,
                                ));
                                assert(!grid_valid(board@));
                            } else if col_has(res.grid(), col_of(i), num.val()) {
                                let j = choose|j: int|
                                    0 <= j < 81 && col_of(j) == col_of(i) && space_has(
                                        #[trigger] res.grid()[j],
                                        num.val(),
                                    );
                                assert(space_has(board@[j], num.val()) && j != i && shares_region(
                                    j,
                                    i,
                                ));
                                assert(!grid_valid(board@));
                            } else {
                                assert(sq_has(res.grid(), sq_of(i), num.val()));
                                let j = choose|j: int|
                                    0 <= j < 81 && sq_of(j) == sq_of(i) && space_has(
                                        #[trigger] res.grid()[j],
                                        num.val(),
                                    );
                                assert(space_has(board@[j], num.val()) && j != i && shares_region(
                                    j,
                                    i,
                                ));
                                assert(!grid_valid(board@));
                            }
                        }
                        return None;
                    }
                },
                Space::Empty => {},
            }
            k = k + 1;
        }
        proof {
            assert(res.grid() =~= board@);
        }
        Some(res)
    }

    /// The coordinates of all open cells, in increasing linear index order,
    /// re-derived from the open-cell bitset.
    pub fn open_spaces(&self) -> (v: Vec<Coord>)
        requires
            self.wf(),
        ensures
            forall|k: int|
                0 <= k < v.len() ==> (#[trigger] v[k]).wf() && self.grid()[v[k].index()] is Empty,
            forall|j: int|
                0 <= j < 81 && self.grid()[j] is Empty ==> exists|k: int|
                    0 <= k < v.len() && (#[trigger] v[k]).index() == j,
            forall|k1: int, k2: int| 0 <= k1 < k2 < v.len() ==> v[k1].index() < v[k2].index(),
    {
        let mut v: Vec<Coord> = Vec::new();
        let mut j: u8 = 0;
        while j < 81
            invariant
                j <= 81,
                self.wf(),
                forall|k: int|
                    0 <= k < v.len() ==> (#[trigger] v[k]).wf() && self.grid()[v[k].index()]
                        is Empty && v[k].index() < j,
                forall|i: int|
                    0 <= i < j && self.grid()[i] is Empty ==> exists|k: int|
                        0 <= k < v.len() && (#[trigger] v[k]).index() == i,
                forall|k1: int, k2: int| 0 <= k1 < k2 < v.len() ==> v[k1].index() < v[k2].index(),
            decreases 81 - j,
        {
            let open_bit = (self.open_spaces >> (j as u128)) & 1u128 == 1u128;
            proof {
                assert(open_bit == cbit(self.open_mask(), j as u128));
            }
            if open_bit {
                let ghost len0 = v.len() as int;
                let ghost v0 = v@;
                v.push(Coord::from_index(j));
                proof {
                    assert forall|i: int| 0 <= i < j + 1 && self.grid()[i] is Empty implies exists|
                        k: int,
                    | 0 <= k < v.len() && (#[trigger] v[k]).index() == i by {
                        if i == j {
                            assert(v[len0].index() == i);
                        } else {
                            let k = choose|k: int| 0 <= k < len0 && (#[trigger] v0[k]).index() == i;
                            assert(v[k].index() == i);
                        }
                    }
                }
            } else {
                proof {
                    assert(!cbit(self.open_mask(), j as u128));
                }
            }
            j = j + 1;
        }
        v
    }
}

/// The cells of row 0, as a bitmask over linear indices.
const ROW_BASE: u128 = 0x1FF;

/// The cells of column 0, as a bitmask over linear indices.
const COL_BASE: u128 = (1u128 << 72) | (1u128 << 63) | (1u128 << 54) | (1u128 << 45) | (1u128
    << 36) | (1u128 << 27) | (1u128 << 18) | (1u128 << 9) | 1u128;

/// The cells of the top-left block, as a bitmask over linear indices.
const BOX_BASE: u128 = 0x7u128 | (0x7u128 << 9) | (0x7u128 << 18);

/// How filling one cell changes which symbols each region holds.
proof fn lemma_region_has_update(s: Seq<Space>, t: Seq<Space>, i: int, num: Number)
    requires
        s.len() == 81,
        0 <= i < 81,
        s[i] is Empty,
        t == s.update(i, Space::Full(num)),
    ensures
        forall|r: int, n: u8|
            #![trigger row_has(t, r, n)]
            0 <= r < 9 && 1 <= n <= 9 ==> (row_has(t, r, n) <==> row_has(s, r, n) || (r == row_of(i)
                && n == num.val())),
        forall|r: int, n: u8|
            #![trigger col_has(t, r, n)]
            0 <= r < 9 && 1 <= n <= 9 ==> (col_has(t, r, n) <==> col_has(s, r, n) || (r == col_of(i)
                && n == num.val())),
        forall|r: int, n: u8|
            #![trigger sq_has(t, r, n)]
            0 <= r < 9 && 1 <= n <= 9 ==> (sq_has(t, r, n) <==> sq_has(s, r, n) || (r == sq_of(i)
                && n == num.val())),
{
    assert forall|r: int, n: u8| 0 <= r < 9 && 1 <= n <= 9 implies (row_has(t, r, n) <==> row_has(
        s,
        r,
        n,
    ) || (r == row_of(i) && n == num.val())) by {
        if row_has(s, r, n) {
            let j = choose|j: int| 0 <= j < 81 && row_of(j) == r && space_has(#[trigger] s[j], n);
            assert(j != i);
            assert(space_has(t[j], n));
        }
        if r == row_of(i) && n == num.val() {
            assert(space_has(t[i], n));
        }
        if row_has(t, r, n) {
            let j = choose|j: int| 0 <= j < 81 && row_of(j) == r && space_has(#[trigger] t[j], n);
            if j == i {
                assert(n == num.val() && r == row_of(i));
            } else {
                assert(space_has(s[j], n));
            }
        }
    }
    assert forall|r: int, n: u8| 0 <= r < 9 && 1 <= n <= 9 implies (col_has(t, r, n) <==> col_has(
        s,
        r,
        n,
    ) || (r == col_of(i) && n == num.val())) by {
        if col_has(s, r, n) {
            let j = choose|j: int| 0 <= j < 81 && col_of(j) == r && space_has(#[trigger] s[j], n);
            assert(j != i);
            assert(space_has(t[j], n));
        }
        if r == col_of(i) && n == num.val() {
            assert(space_has(t[i], n));
        }
        if col_has(t, r, n) {
            let j = choose|j: int| 0 <= j < 81 && col_of(j) == r && space_has(#[trigger] t[j], n);
            if j == i {
                assert(n == num.val() && r == col_of(i));
            } else {
                assert(space_has(s[j], n));
            }
        }
    }
    assert forall|r: int, n: u8| 0 <= r < 9 && 1 <= n <= 9 implies (sq_has(t, r, n) <==> sq_has(
        s,
        r,
        n,
    ) || (r == sq_of(i) && n == num.val())) by {
        if sq_has(s, r, n) {
            let j = choose|j: int| 0 <= j < 81 && sq_of(j) == r && space_has(#[trigger] s[j], n);
            assert(j != i);
            assert(space_has(t[j], n));
        }
        if r == sq_of(i) && n == num.val() {
            assert(space_has(t[i], n));
        }
        if sq_has(t, r, n) {
            let j = choose|j: int| 0 <= j < 81 && sq_of(j) == r && space_has(#[trigger] t[j], n);
            if j == i {
                assert(n == num.val() && r == sq_of(i));
            } else {
                assert(space_has(s[j], n));
            }
        }
    }
}

/// Transfers the tracker invariant to a tracker with the same grid, the same
/// open set and masks, and a dirty set that only shrank.
proof fn lemma_wf_same(a: &BookkeptBoard, b: &BookkeptBoard)
    requires
        a.wf(),
        b.grid() == a.grid(),
        b.open_mask() == a.open_mask(),
        forall|r: int|
            #![trigger b.row_mask(r)]
            #![trigger b.col_mask(r)]
            #![trigger b.box_mask(r)]
            0 <= r < 9 ==> b.row_mask(r) == a.row_mask(r) && b.col_mask(r) == a.col_mask(r)
                && b.box_mask(r) == a.box_mask(r),
        forall|j: u128| j < 128 && #[trigger] cbit(b.dirty_mask(), j) ==> cbit(a.dirty_mask(), j),
    ensures
        b.wf(),
{
    assert forall|r: int, n: u8|
        #![trigger nbit(b.row_mask(r), n as u16)]
        #![trigger nbit(b.col_mask(r), n as u16)]
        #![trigger nbit(b.box_mask(r), n as u16)]
        0 <= r < 9 && 1 <= n <= 9 implies ((nbit(b.row_mask(r), n as u16) <==> !row_has(
        b.grid(),
        r,
        n,
    )) && (nbit(b.col_mask(r), n as u16) <==> !col_has(b.grid(), r, n)) && (nbit(
        b.box_mask(r),
        n as u16,
    ) <==> !sq_has(b.grid(), r, n))) by {
        assert(b.row_mask(r) == a.row_mask(r) && b.col_mask(r) == a.col_mask(r) && b.box_mask(r)
            == a.box_mask(r));
        assert(nbit(a.row_mask(r), n as u16) <==> !row_has(a.grid(), r, n));
        assert(nbit(a.col_mask(r), n as u16) <==> !col_has(a.grid(), r, n));
        assert(nbit(a.box_mask(r), n as u16) <==> !sq_has(a.grid(), r, n));
    }
    assert forall|r: int|
        #![trigger b.row_mask(r)]
        #![trigger b.col_mask(r)]
        #![trigger b.box_mask(r)]
        0 <= r < 9 implies mask_ok(b.row_mask(r)) && mask_ok(b.col_mask(r)) && mask_ok(
        b.box_mask(r),
    ) by {
        assert(mask_ok(a.row_mask(r)) && mask_ok(a.col_mask(r)) && mask_ok(a.box_mask(r)));
    }
    assert forall|j: u128| j < 128 implies (#[trigger] cbit(b.open_mask(), j) <==> (j < 81
        && b.grid()[j as int] is Empty)) by {
        assert(cbit(a.open_mask(), j) <==> (j < 81 && a.grid()[j as int] is Empty));
    }
    assert forall|j: u128| j < 128 && #[trigger] cbit(b.dirty_mask(), j) implies cbit(
        b.open_mask(),
        j,
    ) by {
        assert(cbit(a.dirty_mask(), j) ==> cbit(a.open_mask(), j));
    }
}

/// The meaning of the effective candidate mask: a symbol is a candidate at a
/// cell exactly when no cell of the same row, column, or block holds it.
pub proof fn lemma_cand_meaning(t: BookkeptBoard, i: int, n: u8)
    requires
        t.wf(),
        0 <= i < 81,
        1 <= n <= 9,
    ensures
        t.cand_sym(i, n) <==> (!row_has(t.grid(), row_of(i), n) && !col_has(t.grid(), col_of(i), n)
            && !sq_has(t.grid(), sq_of(i), n)),
{
    lemma_nbit_and(t.col_mask(col_of(i)), t.row_mask(row_of(i)));
    lemma_nbit_and(t.col_mask(col_of(i)) & t.row_mask(row_of(i)), t.box_mask(sq_of(i)));
}

/// Branch coverage of the search: whatever symbol a completion of the
/// tracked grid puts into an open cell is one of the cell's effective
/// candidates, so trying every candidate tries every possibility.
pub proof fn lemma_completion_candidate(t: BookkeptBoard, g: Seq<Space>, i: int)
    requires
        t.wf(),
        0 <= i < 81,
        t.grid()[i] is Empty,
        completion_of(t.grid(), g),
    ensures
        1 <= space_val(g[i]) <= 9,
        t.cand_sym(i, space_val(g[i])),
{
    let n = space_val(g[i]);
    assert(g[i] is Full);
    assert(space_has(g[i], n));
    assert(space_wf(g[i]));
    lemma_cand_meaning(t, i, n);
    if row_has(t.grid(), row_of(i), n) {
        let j = choose|j: int|
            0 <= j < 81 && row_of(j) == row_of(i) && space_has(#[trigger] t.grid()[j], n);
        assert(j != i);
        assert(t.grid()[j] is Full);
        assert(g[j] == t.grid()[j]);
        assert(space_has(g[j], n) && space_has(g[i], n) && shares_region(i, j));
        assert(false);
    }
    if col_has(t.grid(), col_of(i), n) {
        let j = choose|j: int|
            0 <= j < 81 && col_of(j) == col_of(i) && space_has(#[trigger] t.grid()[j], n);
        assert(j != i);
        assert(t.grid()[j] is Full);
        assert(g[j] == t.grid()[j]);
        assert(space_has(g[j], n) && space_has(g[i], n) && shares_region(i, j));
        assert(false);
    }
    if sq_has(t.grid(), sq_of(i), n) {
        let j = choose|j: int|
            0 <= j < 81 && sq_of(j) == sq_of(i) && space_has(#[trigger] t.grid()[j], n);
        assert(j != i);
        assert(t.grid()[j] is Full);
        assert(g[j] == t.grid()[j]);
        assert(space_has(g[j], n) && space_has(g[i], n) && shares_region(i, j));
        assert(false);
    }
}

/// Soundness of the contradiction signal: an open cell with no effective
/// candidate left means the tracked grid has no completion at all, so the
/// search is right to abandon the branch.
pub proof fn lemma_no_candidates_unsolvable(t: BookkeptBoard, i: int)
    requires
        t.wf(),
        0 <= i < 81,
        t.grid()[i] is Empty,
        t.cands(i) == 0,
    ensures
        forall|g: Seq<Space>| !completion_of(t.grid(), g),
{
    assert forall|g: Seq<Space>| !completion_of(t.grid(), g) by {
        if completion_of(t.grid(), g) {
            lemma_completion_candidate(t, g, i);
            let n16 = space_val(g[i]) as u16;
            assert(0u16 & (1u16 << n16) == 0) by (bit_vector);
        }
    }
}

/// Soundness of a forced move: when exactly one candidate is left at an open
/// cell, every completion of the tracked grid places that candidate there,
/// so filling it loses no solution.
pub proof fn lemma_forced_move_sound(t: BookkeptBoard, i: int, n: u8)
    requires
        t.wf(),
        0 <= i < 81,
        t.grid()[i] is Empty,
        one_bit(t.cands(i)),
        t.cand_sym(i, n),
        1 <= n <= 9,
    ensures
        forall|g: Seq<Space>| completion_of(t.grid(), g) ==> space_has(#[trigger] g[i], n),
{
    assert forall|g: Seq<Space>| completion_of(t.grid(), g) implies space_has(
        #[trigger] g[i],
        n,
    ) by {
        lemma_completion_candidate(t, g, i);
        let m = space_val(g[i]);
        lemma_one_bit_two(t.cands(i), m as u16, n as u16);
        assert(m == n);
    }
}

/// A fill keeps the dirty set covering: afterwards every open cell with at
/// most one candidate left is either queued or excused (on the work list a
/// caller is still draining).
proof fn lemma_covers_step(
    pre: BookkeptBoard,
    post: BookkeptBoard,
    i0: int,
    nv: u8,
    excused: spec_fn(int) -> bool,
)
    requires
        pre.wf(),
        post.wf(),
        0 <= i0 < 81,
        1 <= nv <= 9,
        forall|j: int|
            0 <= j < 81 ==> (#[trigger] post.is_open(j) <==> pre.is_open(j) && j != i0),
        forall|j: int|
            0 <= j < 81 ==> (#[trigger] post.is_dirty(j) <==> (pre.is_dirty(j) || shares_region(
                j,
                i0,
            )) && post.is_open(j)),
        forall|i2: int, n: u8|
            #![trigger post.cand_sym(i2, n)]
            0 <= i2 < 81 && 1 <= n <= 9 ==> (post.cand_sym(i2, n) <==> pre.cand_sym(i2, n) && !(
            shares_region(i2, i0) && n == nv)),
        forall|i: int|
            0 <= i < 81 && i != i0 && (#[trigger] pre.grid()[i]) is Empty && (pre.cands(i) == 0
                || one_bit(pre.cands(i))) ==> pre.is_dirty(i) || excused(i),
    ensures
        forall|i: int|
            0 <= i < 81 && (#[trigger] post.grid()[i]) is Empty && (post.cands(i) == 0 || one_bit(
                post.cands(i),
            )) ==> post.is_dirty(i) || excused(i),
{
    assert forall|i: int|
        0 <= i < 81 && (#[trigger] post.grid()[i]) is Empty && (post.cands(i) == 0 || one_bit(
            post.cands(i),
        )) implies post.is_dirty(i) || excused(i) by {
        assert(post.is_open(i));
        assert(pre.is_open(i) && i != i0);
        assert(pre.grid()[i] is Empty);
        if shares_region(i, i0) {
            assert(post.is_dirty(i));
        } else {
            assert(0 <= row_of(i) < 9 && 0 <= col_of(i) < 9 && 0 <= sq_of(i) < 9);
            lemma_mask_ok_and(post.col_mask(col_of(i)), post.row_mask(row_of(i)));
            lemma_mask_ok_and(
                post.col_mask(col_of(i)) & post.row_mask(row_of(i)),
                post.box_mask(sq_of(i)),
            );
            lemma_mask_ok_and(pre.col_mask(col_of(i)), pre.row_mask(row_of(i)));
            lemma_mask_ok_and(
                pre.col_mask(col_of(i)) & pre.row_mask(row_of(i)),
                pre.box_mask(sq_of(i)),
            );
            assert(post.cand_sym(i, 1) == pre.cand_sym(i, 1));
            assert(post.cand_sym(i, 2) == pre.cand_sym(i, 2));
            assert(post.cand_sym(i, 3) == pre.cand_sym(i, 3));
            assert(post.cand_sym(i, 4) == pre.cand_sym(i, 4));
            assert(post.cand_sym(i, 5) == pre.cand_sym(i, 5));
            assert(post.cand_sym(i, 6) == pre.cand_sym(i, 6));
            assert(post.cand_sym(i, 7) == pre.cand_sym(i, 7));
            assert(post.cand_sym(i, 8) == pre.cand_sym(i, 8));
            assert(post.cand_sym(i, 9) == pre.cand_sym(i, 9));
            lemma_mask_ext(post.cands(i), pre.cands(i));
            assert(post.cands(i) == pre.cands(i));
            assert(pre.is_dirty(i) || excused(i));
            if pre.is_dirty(i) {
                assert(post.is_dirty(i));
            }
        }
    }
}

/// The termination measure of propagation: every pass either fills a cell or
/// empties the dirty queue.
spec fn prop_measure(b: BookkeptBoard) -> int {
    2 * empties(b.grid()) + if b.dirty_mask() == 0 {
        0int
    } else {
        1int
    }
}

/// Drains the dirty queue to quiescence: every queued open cell is
/// re-examined against its current effective candidates; a cell with none
/// left signals a contradiction, a cell with exactly one left is filled (a
/// forced move, which queues its neighbours in turn). On success the queue is
/// empty and every open cell keeps at least two candidates.
#[verifier::rlimit(100)]
pub fn make_forced_choices(board: BookkeptBoard) -> (res: Option<BookkeptBoard>)
    requires
        board.wf(),
        board.dirty_covers(),
    ensures
        res matches Some(t) ==> t.wf() && t.dirty_mask() == 0 && grid_extends(
            board.grid(),
            t.grid(),
        ) && (forall|i: int|
            0 <= i < 81 && (#[trigger] t.grid()[i]) is Empty ==> t.cands(i) != 0 && !one_bit(
                t.cands(i),
            )) && (forall|g: Seq<Space>|
            #[trigger] completion_of(t.grid(), g) <==> completion_of(board.grid(), g)),
        res is None ==> forall|g: Seq<Space>| !completion_of(board.grid(), g),
        board.dirty_mask() == 0 ==> res == Some(board),
{
    let mut b = board;
    while b.any_updates()
        invariant
            b.wf(),
            grid_extends(board.grid(), b.grid()),
            b.dirty_covers(),
            forall|g: Seq<Space>|
                #[trigger] completion_of(b.grid(), g) <==> completion_of(board.grid(), g),
            board.dirty_mask() == 0 ==> b == board,
        decreases prop_measure(b),
    {
        let ghost bh = b;
        proof {
            // The loop was entered, so something is queued, and the caller's
            // queue cannot have been empty either.
            if board.dirty_mask() == 0 {
                assert(b == board);
                assert(false);
            }
        }
        let updates = b.take_updates();
        proof {
            assert forall|i: int|
                0 <= i < 81 && (#[trigger] b.grid()[i]) is Empty && (b.cands(i) == 0 || one_bit(
                    b.cands(i),
                )) implies bh.is_dirty(i) || exists|t2: int|
                0 <= t2 < updates.len() && (#[trigger] updates[t2]).index() == i by {
                assert(0 <= row_of(i) < 9 && 0 <= col_of(i) < 9 && 0 <= sq_of(i) < 9);
                assert(b.row_mask(row_of(i)) == bh.row_mask(row_of(i)));
                assert(b.col_mask(col_of(i)) == bh.col_mask(col_of(i)));
                assert(b.box_mask(sq_of(i)) == bh.box_mask(sq_of(i)));
                assert(b.cands(i) == bh.cands(i));
            }
        }
        let mut ui: usize = 0;
        while ui < updates.len()
            invariant
                board.dirty_mask() != 0,
                ui <= updates.len(),
                b.wf(),
                grid_extends(board.grid(), b.grid()),
                forall|k: int| 0 <= k < updates.len() ==> (#[trigger] updates[k]).wf(),
                forall|k1: int, k2: int|
                    0 <= k1 < k2 < updates.len() ==> updates[k1].index() < updates[k2].index(),
                forall|t2: int|
                    ui <= t2 < updates.len() ==> b.grid()[(#[trigger] updates[t2]).index()]
                        is Empty,
                forall|i: int|
                    0 <= i < 81 && (#[trigger] b.grid()[i]) is Empty && (b.cands(i) == 0 || one_bit(
                        b.cands(i),
                    )) ==> b.is_dirty(i) || exists|t2: int|
                        ui <= t2 < updates.len() && (#[trigger] updates[t2]).index() == i,
                empties(b.grid()) <= empties(bh.grid()),
                b.dirty_mask() != 0 ==> empties(b.grid()) < empties(bh.grid()),
                forall|g: Seq<Space>|
                    #[trigger] completion_of(b.grid(), g) <==> completion_of(board.grid(), g),
            decreases updates.len() - ui,
        {
            let c = updates[ui];
            let a = b.allowed(c);
            if a.are_none_allowed() {
                proof {
                    lemma_no_candidates_unsolvable(b, c.index());
                    assert forall|g: Seq<Space>| !completion_of(board.grid(), g) by {
                        assert(!completion_of(b.grid(), g));
                    }
                }
                return None;
            } else if a.is_one_allowed() {
                let nums = a.allowed();
                let num = nums[0];
                let ghost bprev = b;
                let ghost i0 = c.index();
                b.fill(c, num);
                proof {
                    lemma_forced_move_sound(bprev, i0, num.val());
                    assert forall|g: Seq<Space>|
                        #[trigger] completion_of(b.grid(), g) <==> completion_of(
                        board.grid(),
                        g,
                    ) by {
                        if completion_of(bprev.grid(), g) {
                            assert(space_has(g[i0], num.val()));
                            assert(g[i0] is Full);
                            lemma_space_ext(g[i0], Space::Full(num));
                            assert forall|j: int|
                                0 <= j < 81 && (#[trigger] b.grid()[j]) is Full implies g[j]
                                == b.grid()[j] by {
                                if j != i0 {
                                    assert(b.grid()[j] == bprev.grid()[j]);
                                }
                            }
                            assert(completion_of(b.grid(), g));
                        }
                        if completion_of(b.grid(), g) {
                            assert forall|j: int|
                                0 <= j < 81 && (#[trigger] bprev.grid()[j]) is Full implies g[j]
                                == bprev.grid()[j] by {
                                assert(j != i0);
                                assert(b.grid()[j] == bprev.grid()[j]);
                            }
                            assert(completion_of(bprev.grid(), g));
                        }
                        assert(completion_of(bprev.grid(), g) <==> completion_of(board.grid(), g));
                    }
                    lemma_empties_update(
                        bprev.grid(),
                        b.grid(),
                        i0,
                        Space::Full(num),
                    );
                    assert forall|t2: int| ui + 1 <= t2 < updates.len() implies b.grid()[(
                    #[trigger] updates[t2]).index()] is Empty by {
                        assert(updates[ui as int].index() < updates[t2].index());
                        assert(b.grid()[updates[t2].index()] == bprev.grid()[updates[t2].index()]);
                    }
                    assert forall|j: int|
                        0 <= j < 81 && (#[trigger] board.grid()[j]) is Full implies b.grid()[j]
                        == board.grid()[j] by {
                        if j == i0 {
                            assert(bprev.grid()[i0] == board.grid()[i0]);
                            assert(false);
                        }
                    }
                    let excused = |i: int|
                        exists|t2: int|
                            ui + 1 <= t2 < updates.len() && (#[trigger] updates[t2]).index() == i;
                    assert forall|i: int|
                        0 <= i < 81 && i != i0 && (#[trigger] bprev.grid()[i]) is Empty && (
                        bprev.cands(i) == 0 || one_bit(bprev.cands(i))) implies bprev.is_dirty(i)
                        || excused(i) by {
                        if !bprev.is_dirty(i) {
                            let t2 = choose|t2: int|
                                ui <= t2 < updates.len() && (#[trigger] updates[t2]).index() == i;
                            assert(t2 != ui);
                            assert(excused(i));
                        }
                    }
                    lemma_covers_step(bprev, b, i0, num.val(), excused);
                    assert forall|i: int|
                        0 <= i < 81 && (#[trigger] b.grid()[i]) is Empty && (b.cands(i) == 0
                            || one_bit(b.cands(i))) implies b.is_dirty(i) || exists|t2: int|
                        ui + 1 <= t2 < updates.len() && (#[trigger] updates[t2]).index() == i by {
                        assert(b.is_dirty(i) || excused(i));
                    }
                }
            } else {
                proof {
                    assert forall|i: int|
                        0 <= i < 81 && (#[trigger] b.grid()[i]) is Empty && (b.cands(i) == 0
                            || one_bit(b.cands(i))) implies b.is_dirty(i) || exists|t2: int|
                        ui + 1 <= t2 < updates.len() && (#[trigger] updates[t2]).index() == i by {
                        if !b.is_dirty(i) {
                            let t2 = choose|t2: int|
                                ui <= t2 < updates.len() && (#[trigger] updates[t2]).index() == i;
                            assert(t2 != ui);
                        }
                    }
                }
            }
            ui = ui + 1;
        }
        proof {
            assert(bh.dirty_mask() != 0);
        }
    }
    proof {
        lemma_zero_cbit();
        assert forall|i: int|
            0 <= i < 81 && (#[trigger] b.grid()[i]) is Empty implies b.cands(i) != 0 && !one_bit(
            b.cands(i),
        ) by {
            if b.cands(i) == 0 || one_bit(b.cands(i)) {
                assert(b.is_dirty(i));
                assert(b.dirty_mask() == 0u128);
                assert(!cbit(0u128, i as u128));
            }
        }
    }
    Some(b)
}

/// Selects the open cell to branch on: the first open cell in linear scan
/// order, or `None` when the grid is complete.
pub fn pick_open_space(board: &BookkeptBoard) -> (res: Option<Coord>)
    requires
        board.wf(),
    ensures
        res matches Some(c) ==> c.wf() && board.grid()[c.index()] is Empty && (forall|j: int|
            0 <= j < c.index() ==> !((#[trigger] board.grid()[j]) is Empty)),
        res is None <==> grid_complete(board.grid()),
{
    let opens = board.open_spaces();
    if opens.len() == 0 {
        proof {
            assert forall|i: int| 0 <= i < 81 implies (#[trigger] board.grid()[i]) is Full by {
                if board.grid()[i] is Empty {
                    let k = choose|k: int|
                        0 <= k < opens.len() && (#[trigger] opens[k]).index() == i;
                    assert(false);
                }
            }
        }
        None
    } else {
        let c = opens[0];
        proof {
            assert(!grid_complete(board.grid()));
            assert forall|j: int| 0 <= j < c.index() implies !((#[trigger] board.grid()[j])
                is Empty) by {
                if board.grid()[j] is Empty {
                    let k = choose|k: int|
                        0 <= k < opens.len() && (#[trigger] opens[k]).index() == j;
                    assert(k > 0);
                    assert(opens[0].index() < opens[k].index());
                }
            }
        }
        Some(c)
    }
}

/// The recursive search: propagate forced moves; if the grid is complete,
/// this branch is solved; otherwise branch on each candidate of the first
/// open cell in ascending symbol order, returning the first solution found.
pub fn solve_helper(board: BookkeptBoard) -> (res: Option<BookkeptBoard>)
    requires
        board.wf(),
        board.dirty_covers(),
    ensures
        res matches Some(t) ==> t.wf() && grid_complete(t.grid()) && grid_extends(
            board.grid(),
            t.grid(),
        ),
        res is None ==> forall|g: Seq<Space>| !completion_of(board.grid(), g),
        (board.dirty_mask() == 0 && grid_complete(board.grid())) ==> (res matches Some(t)
            && t.grid() == board.grid()),
    decreases empties(board.grid()),
{
    let b = match make_forced_choices(board) {
        None => {
            return None;
        },
        Some(t) => t,
    };
    let open_space = match pick_open_space(&b) {
        None => {
            return Some(b);
        },
        Some(c) => c,
    };
    let a = b.allowed(open_space);
    let nums = a.allowed();
    let ghost open_idx = open_space.index();
    proof {
        assert forall|j: int| 0 <= j < 81 && (#[trigger] b.grid()[j]) is Empty implies board.grid()[j] is Empty by {
            if board.grid()[j] is Full {
                assert(b.grid()[j] == board.grid()[j]);
            }
        }
        lemma_empties_le(board.grid(), b.grid());
        assert forall|g: Seq<Space>| #[trigger] completion_of(b.grid(), g) implies exists|kk: int|
            0 <= kk < nums.len() && space_has(g[open_idx], (#[trigger] nums[kk]).val()) by {
            lemma_completion_candidate(b, g, open_idx);
            let nstar = space_val(g[open_idx]);
            assert(a.allows(nstar));
            let kk = choose|kk: int| 0 <= kk < nums.len() && (#[trigger] nums[kk]).val() == nstar;
            assert(space_has(g[open_idx], nums[kk].val()));
        }
    }
    let mut ki: usize = 0;
    while ki < nums.len()
        invariant
            b.wf(),
            board.wf(),
            open_space.wf(),
            b.grid()[open_space.index()] is Empty,
            a.mask_val() == b.cands(open_space.index()),
            forall|k: int| 0 <= k < nums.len() ==> (#[trigger] nums[k]).wf() && a.allows(
                nums[k].val(),
            ),
            forall|i: int|
                0 <= i < 81 && (#[trigger] b.grid()[i]) is Empty ==> b.cands(i) != 0 && !one_bit(
                    b.cands(i),
                ),
            grid_extends(board.grid(), b.grid()),
            empties(b.grid()) <= empties(board.grid()),
            ki <= nums.len(),
            open_idx == open_space.index(),
            forall|g: Seq<Space>|
                #[trigger] completion_of(b.grid(), g) <==> completion_of(board.grid(), g),
            forall|g: Seq<Space>|
                #[trigger] completion_of(b.grid(), g) ==> exists|kk: int|
                    ki <= kk < nums.len() && space_has(g[open_idx], (#[trigger] nums[kk]).val()),
        decreases nums.len() - ki,
    {
        let mut possible_board = b;
        possible_board.fill(open_space, nums[ki]);
        proof {
            lemma_covers_step(
                b,
                possible_board,
                open_space.index(),
                nums[ki as int].val(),
                |i: int| false,
            );
            lemma_empties_update(
                b.grid(),
                possible_board.grid(),
                open_space.index(),
                Space::Full(nums[ki as int]),
            );
            assert forall|j: int|
                0 <= j < 81 && (#[trigger] board.grid()[j]) is Full implies possible_board.grid()[j]
                == board.grid()[j] by {
                if j == open_space.index() {
                    assert(b.grid()[j] == board.grid()[j]);
                    assert(false);
                }
            }
        }
        match solve_helper(possible_board) {
            Some(solved) => {
                proof {
                    assert forall|j: int|
                        0 <= j < 81 && (#[trigger] board.grid()[j]) is Full implies solved.grid()[j]
                        == board.grid()[j] by {
                        assert(possible_board.grid()[j] == board.grid()[j]);
                    }
                }
                return Some(solved);
            },
            None => {
                proof {
                    assert forall|g: Seq<Space>| #[trigger] completion_of(b.grid(), g) implies
                        exists|kk: int|
                        ki + 1 <= kk < nums.len() && space_has(
                            g[open_idx],
                            (#[trigger] nums[kk]).val(),
                        ) by {
                        let kk = choose|kk: int|
                            ki <= kk < nums.len() && space_has(
                                g[open_idx],
                                (#[trigger] nums[kk]).val(),
                            );
                        if kk == ki {
                            assert(g[open_idx] is Full);
                            lemma_space_ext(g[open_idx], Space::Full(nums[ki as int]));
                            assert forall|j: int|
                                0 <= j < 81 && (#[trigger] possible_board.grid()[j]) is Full
                                implies g[j] == possible_board.grid()[j] by {
                                if j != open_idx {
                                    assert(possible_board.grid()[j] == b.grid()[j]);
                                }
                            }
                            assert(completion_of(possible_board.grid(), g));
                            assert(false);
                        } else {
                            assert(space_has(g[open_idx], nums[kk].val()));
                        }
                    }
                }
            },
        }
        ki = ki + 1;
    }
    proof {
        assert forall|g: Seq<Space>| !completion_of(board.grid(), g) by {
            if completion_of(b.grid(), g) {
                assert(false);
            }
        }
    }
    None
}

/// Solves a Sudoku grid: returns a complete, conflict-free grid extending
/// the given clues, and returns `None` exactly when no such completion
/// exists. A grid whose clues already conflict therefore always yields
/// `None`, and a grid already completely and validly filled is returned
/// unchanged.
pub fn solve(board: Board) -> (res: Option<Board>)
    requires
        grid_wf(board@),
    ensures
        res matches Some(g) ==> completion_of(board@, g@) && grid_covers(g@),
        res is None ==> forall|g: Seq<Space>| !completion_of(board@, g),
        grid_complete(board@) && grid_valid(board@) ==> (res matches Some(g) && g@ == board@),
        !grid_valid(board@) ==> res is None,
{
    let t = match BookkeptBoard::from_board(board) {
        None => {
            proof {
                assert forall|g: Seq<Space>| !completion_of(board@, g) by {
                    if completion_of(board@, g) {
                        let (i2, j2, n2) = choose|i2: int, j2: int, n2: u8|
                            0 <= i2 < 81 && 0 <= j2 < 81 && i2 != j2 && shares_region(i2, j2)
                                && #[trigger] space_has(board@[i2], n2) && #[trigger] space_has(
                                board@[j2],
                                n2,
                            );
                        assert(board@[i2] is Full && board@[j2] is Full);
                        assert(g[i2] == board@[i2] && g[j2] == board@[j2]);
                        assert(space_has(g[i2], n2) && space_has(g[j2], n2));
                    }
                }
            }
            return None;
        },
        Some(t) => t,
    };
    proof {
        if grid_complete(board@) {
            assert forall|j: u128| j < 128 implies !cbit(t.open_mask(), j) by {
                if cbit(t.open_mask(), j) {
                    assert(t.grid()[j as int] is Empty);
                }
            }
            lemma_no_cbit_zero(t.open_mask());
            assert forall|j: u128| j < 128 implies !cbit(t.dirty_mask(), j) by {
                if cbit(t.dirty_mask(), j) {
                    assert(cbit(t.open_mask(), j));
                }
            }
            lemma_no_cbit_zero(t.dirty_mask());
        }
    }
    let s = match solve_helper(t) {
        None => {
            return None;
        },
        Some(s) => s,
    };
    proof {
        lemma_complete_valid_covers(s.grid());
    }
    Some(s.board())
}

} // verus!
