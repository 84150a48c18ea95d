//! Bit-level facts about the two mask representations of the solver: 16-bit
//! candidate masks (bit `n` set means symbol `n` is still permitted) and
//! 128-bit cell sets (bit `j` set means the cell with linear index `j` is a
//! member).

use vstd::prelude::*;

verus! {

/// Bit `n` of the 16-bit mask `m` is set.
pub open spec fn nbit(m: u16, n: u16) -> bool {
    m & (1u16 << n) != 0
}

/// Bit `j` of the 128-bit mask `m` is set.
pub open spec fn cbit(m: u128, j: u128) -> bool {
    (m >> j) & 1u128 == 1u128
}

/// A candidate mask uses only bits 1 through 9.
pub open spec fn mask_ok(m: u16) -> bool {
    m & 0xFC01u16 == 0
}

/// Exactly-one-bit test in the form the solver computes it: a nonzero
/// power-of-two pattern.
pub open spec fn one_bit(m: u16) -> bool {
    m != 0 && m & ((m - 1) as u16) == 0
}

pub proof fn lemma_nbit_and(a: u16, b: u16)
    by (bit_vector)
    ensures
        forall|n: u16| n < 16 ==> (#[trigger] nbit(a & b, n) <==> nbit(a, n) && nbit(b, n)),
{
}

pub proof fn lemma_nbit_clear(a: u16, n: u16)
    by (bit_vector)
    requires
        n < 16,
    ensures
        forall|k: u16| k < 16 ==> (#[trigger] nbit(a & !(1u16 << n), k) <==> nbit(a, k) && k != n),
        mask_ok(a) ==> mask_ok(a & !(1u16 << n)),
{
}

pub proof fn lemma_nbit_all()
    by (bit_vector)
    ensures
        forall|n: u16| n < 16 ==> (#[trigger] nbit(0x3FEu16, n) <==> 1 <= n <= 9),
        mask_ok(0x3FEu16),
{
}

/// A mask with a single set bit cannot allow two distinct symbols.
pub proof fn lemma_one_bit_two(m: u16, a: u16, b: u16)
    by (bit_vector)
    requires
        one_bit(m),
        a < 16,
        b < 16,
        m & (1u16 << a) != 0,
        m & (1u16 << b) != 0,
    ensures
        a == b,
{
}

/// A nonzero candidate mask allows some symbol.
pub proof fn lemma_nonzero_has_sym(m: u16)
    by (bit_vector)
    requires
        mask_ok(m),
        m != 0,
    ensures
        nbit(m, 1) || nbit(m, 2) || nbit(m, 3) || nbit(m, 4) || nbit(m, 5) || nbit(m, 6) || nbit(
            m,
            7,
        ) || nbit(m, 8) || nbit(m, 9),
{
}

/// Two candidate masks that agree on all nine symbols are equal.
pub proof fn lemma_mask_ext(m1: u16, m2: u16)
    by (bit_vector)
    requires
        mask_ok(m1),
        mask_ok(m2),
        nbit(m1, 1) == nbit(m2, 1),
        nbit(m1, 2) == nbit(m2, 2),
        nbit(m1, 3) == nbit(m2, 3),
        nbit(m1, 4) == nbit(m2, 4),
        nbit(m1, 5) == nbit(m2, 5),
        nbit(m1, 6) == nbit(m2, 6),
        nbit(m1, 7) == nbit(m2, 7),
        nbit(m1, 8) == nbit(m2, 8),
        nbit(m1, 9) == nbit(m2, 9),
    ensures
        m1 == m2,
{
}

/// Intersection keeps a candidate mask within bits 1 through 9.
pub proof fn lemma_mask_ok_and(a: u16, b: u16)
    by (bit_vector)
    ensures
        mask_ok(a) && mask_ok(b) ==> mask_ok(a & b),
{
}

pub proof fn lemma_cbit_or(a: u128, b: u128)
    by (bit_vector)
    ensures
        forall|j: u128| j < 128 ==> (#[trigger] cbit(a | b, j) <==> cbit(a, j) || cbit(b, j)),
{
}

pub proof fn lemma_cbit_and(a: u128, b: u128)
    by (bit_vector)
    ensures
        forall|j: u128| j < 128 ==> (#[trigger] cbit(a & b, j) <==> cbit(a, j) && cbit(b, j)),
{
}

pub proof fn lemma_cbit_clear(a: u128, i: u128)
    by (bit_vector)
    requires
        i < 128,
    ensures
        forall|j: u128| j < 128 ==> (#[trigger] cbit(a & !(1u128 << i), j) <==> cbit(a, j) && j
            != i),
{
}

/// The bits of the 81-cell universe `(1 << 81) - 1`.
pub proof fn lemma_cbit_universe()
    by (bit_vector)
    ensures
        forall|j: u128| j < 128 ==> (#[trigger] cbit(((1u128 << 81) - 1) as u128, j) <==> j < 81),
{
}

/// No bit is set in zero.
pub proof fn lemma_zero_cbit()
    by (bit_vector)
    ensures
        forall|j: u128| j < 128 ==> !(#[trigger] cbit(0u128, j)),
{
}

proof fn lemma_shift_bit(a: u128)
    by (bit_vector)
    ensures
        forall|j: u128| j < 127 ==> (#[trigger] cbit(a >> 1, j) <==> cbit(a, (j + 1) as u128)),
        a != 0 && a & 1 == 0 ==> a >> 1 != 0,
        a & 1 == 0 || a & 1 == 1,
        a & 1 == 1 ==> cbit(a, 0),
        !cbit(a >> 1, 127),
{
}

/// Every nonzero 128-bit mask has a set bit.
pub proof fn lemma_nonzero_has_cbit(a: u128)
    requires
        a != 0,
    ensures
        exists|j: u128| j < 128 && cbit(a, j),
    decreases a,
{
    lemma_shift_bit(a);
    if a & 1 == 1 {
        assert(cbit(a, 0));
    } else {
        assert(a >> 1 != 0);
        assert(a >> 1 < a) by (bit_vector)
            requires
                a != 0,
        ;
        lemma_nonzero_has_cbit(a >> 1);
        let j = choose|j: u128| j < 128 && cbit(a >> 1, j);
        assert(j < 127);
        assert(cbit(a, (j + 1) as u128));
        assert(j + 1 < 128 && cbit(a, (j + 1) as u128));
    }
}

/// A 128-bit mask with no set bit is zero.
pub proof fn lemma_no_cbit_zero(a: u128)
    requires
        forall|j: u128| j < 128 ==> !(#[trigger] cbit(a, j)),
    ensures
        a == 0,
{
    if a != 0 {
        lemma_nonzero_has_cbit(a);
    }
}

/// The bits covered by a row mask shifted to row `y`.
pub proof fn lemma_row_mask_bits(y: u128)
    by (bit_vector)
    requires
        y < 9,
    ensures
        forall|j: u128| j < 128 ==> (#[trigger] cbit(0x1FFu128 << ((9 * y) as u128), j) <==> j < 81 && j / 9
            == y),
{
}

/// The bits covered by a column mask shifted to column `x`.
pub proof fn lemma_col_mask_bits(x: u128)
    by (bit_vector)
    requires
        x < 9,
    ensures
        forall|j: u128|
            j < 128 ==> (#[trigger] cbit(
                ((1u128 << 72) | (1u128 << 63) | (1u128 << 54) | (1u128 << 45) | (1u128 << 36) | (
                1u128 << 27) | (1u128 << 18) | (1u128 << 9) | 1u128) << x,
                j,
            ) <==> j < 81 && j % 9 == x),
{
}

/// The bits covered by a block mask shifted to the block whose top-left cell
/// is in column `3 * a` and row `3 * b`.
pub proof fn lemma_box_mask_bits(a: u128, b: u128)
    by (bit_vector)
    requires
        a < 3,
        b < 3,
    ensures
        forall|j: u128|
            j < 128 ==> (#[trigger] cbit(
                (0x7u128 | (0x7u128 << 9) | (0x7u128 << 18)) << ((3 * a + 27 * b) as u128),
                j,
            ) <==> j < 81 && (j % 9) / 3 == a && (j / 9) / 3 == b),
{
}

} // verus!
