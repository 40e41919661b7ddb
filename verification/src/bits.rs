//! Single-bit helpers on 64-bit boards, one bit per square.
use vstd::prelude::*;
use vstd::std_specs::bits::{u64_trailing_zeros, axiom_u64_trailing_zeros};

verus! {

/// Whether square `i` is set in the board `b`.
pub open spec fn bit(b: u64, i: int) -> bool {
    (b >> (i as u64)) & 1u64 == 1u64
}

/// Bits of `1 << x` and of the basic bitwise operations, square by square.
pub proof fn lemma_bit_ops(a: u64, b: u64, x: u64, j: u64)
    by (bit_vector)
    requires
        x < 64,
        j < 64,
    ensures
        bit(1u64 << x, j as int) == (x == j),
        bit(a | b, j as int) == (bit(a, j as int) || bit(b, j as int)),
        bit(a & b, j as int) == (bit(a, j as int) && bit(b, j as int)),
        bit(a ^ b, j as int) == (bit(a, j as int) != bit(b, j as int)),
        bit(!a, j as int) == !bit(a, j as int),
        bit(0u64, j as int) == false,
{
}

/// Clearing or setting one square leaves every other square as it was.
pub proof fn lemma_clear_set(a: u64, x: u64, j: u64)
    requires
        x < 64,
        j < 64,
    ensures
        bit(a & !(1u64 << x), j as int) == (bit(a, j as int) && j != x),
        bit(a | (1u64 << x), j as int) == (bit(a, j as int) || j == x),
        bit(a ^ (1u64 << x), j as int) == (bit(a, j as int) != (j == x)),
{
    lemma_bit_ops(a, 1u64 << x, x, j);
    lemma_bit_ops(a, !(1u64 << x), x, j);
    lemma_bit_ops(1u64 << x, 1u64 << x, x, j);
}

/// Shifting a board moves every square by the shift amount.
pub proof fn lemma_shift(a: u64, j: u64)
    by (bit_vector)
    requires
        j < 64,
    ensures
        bit(a << 8u64, j as int) == (8 <= j && bit(a, j - 8)),
        bit(a >> 8u64, j as int) == (j < 56 && bit(a, j + 8)),
        bit(a << 16u64, j as int) == (16 <= j && bit(a, j - 16)),
        bit(a >> 16u64, j as int) == (j < 48 && bit(a, j + 16)),
{
}

/// Squares of the four rank masks.
pub proof fn lemma_ranks(j: u64)
    by (bit_vector)
    requires
        j < 64,
    ensures
        bit(0xFFu64, j as int) == (j < 8),
        bit(0xFF00u64, j as int) == (8 <= j < 16),
        bit(0x00FF_0000_0000_0000u64, j as int) == (48 <= j < 56),
        bit(0xFF00_0000_0000_0000u64, j as int) == (56 <= j),
{
}

/// Small facts about the byte codes of pieces, flags and castling rights.
pub proof fn lemma_byte_facts(x: u8)
    by (bit_vector)
    ensures
        8u8 | 1u8 == 9u8,
        16u8 | 1u8 == 17u8,
        8u8 | 4u8 == 12u8,
        16u8 | 4u8 == 20u8,
        8u8 | 6u8 == 14u8,
        16u8 | 6u8 == 22u8,
        1u8 | 2u8 == 3u8,
        4u8 | 8u8 == 12u8,
        1u8 | 2u8 | 4u8 | 8u8 == 15u8,
        8u8 ^ 24u8 == 16u8,
        16u8 ^ 24u8 == 8u8,
        0u8 & 8u8 == 0u8,
        x & 3u8 < 4,
        x & 7u8 < 8,
        (x & 12u8 == 0) == (x & 8u8 == 0 && x & 4u8 == 0),
        x < 16 ==> ((x & 14u8 == 2) <==> (x == 2 || x == 3)),
        x < 16 ==> ((x & 8u8 != 0) <==> x >= 8),
        x < 16 ==> ((x & 4u8 != 0) <==> (4 <= x < 8 || x >= 12)),
        (9 <= x <= 14) ==> x & 7u8 == x - 8 && x & 24u8 == 8,
        (17 <= x <= 22) ==> x & 7u8 == x - 16 && x & 24u8 == 16,
{
}

/// XOR with zero and masks of zero leave values as they are.
pub proof fn lemma_zero_ops(h: u64)
    by (bit_vector)
    ensures
        h ^ 0u64 == h,
        0u64 ^ 0u64 == 0u64,
        0u64 & 3u64 == 0u64,
{
}

/// Bits of piece codes: a colour `own` (8 or 16) with a pawn bit, kings,
/// and the code `q` of a promoted piece of type `t + 2`.
pub proof fn lemma_code_bits(own: u8, t: u8, q: u8, x: u8)
    by (bit_vector)
    ensures
        (own == 8 || own == 16) ==> (1u8 | own) == own + 1,
        (own == 8 || own == 16) && t < 4 && q == own + t + 2 ==> q & 24u8 == own && q & 7u8 != 6 && q != 14 && q != 22,
        (x == 14 || x == 22) ==> x & 7u8 == 6,
        ((9 <= x <= 14) || (17 <= x <= 22)) ==> ((x == 14) == (x & 7u8 == 6 && x & 24u8 == 8)) && ((x == 22) == (x & 7u8
            == 6 && x & 24u8 == 16)),
{
}

/// Two boards with the same squares are equal.
pub proof fn lemma_bits_ext(a: u64, b: u64)
    requires
        forall|j: int| 0 <= j < 64 ==> #[trigger] bit(a, j) == bit(b, j),
    ensures
        a == b,
{
    if a != b {
        let c = a ^ b;
        assert(a != b ==> c != 0) by (bit_vector) requires c == a ^ b;
        axiom_u64_trailing_zeros(c);
        let t = u64_trailing_zeros(c);
        lemma_bit_ops(a, b, 0, t as u64);
        assert(bit(a, t as int) == bit(b, t as int));
    }
}

/// A board is empty exactly when no square is set.
pub proof fn lemma_zero_iff_no_bits(a: u64)
    ensures
        a == 0 <==> forall|j: int| 0 <= j < 64 ==> !#[trigger] bit(a, j),
{
    if a == 0 {
        assert forall|j: int| 0 <= j < 64 implies !#[trigger] bit(a, j) by {
            lemma_bit_ops(a, a, 0, j as u64);
        }
    } else {
        if forall|j: int| 0 <= j < 64 ==> !#[trigger] bit(a, j) {
            assert forall|j: int| 0 <= j < 64 implies #[trigger] bit(a, j) == bit(0u64, j) by {
                lemma_bit_ops(a, a, 0, j as u64);
            }
            lemma_bits_ext(a, 0u64);
        }
    }
}

/// The board with the single square `idx`.
pub fn mask(idx: usize) -> (r: u64)
    requires
        idx < 64,
    ensures
        r == 1u64 << (idx as u64),
        forall|j: int| 0 <= j < 64 ==> #[trigger] bit(r, j) == (j == idx),
{
    proof {
        assert forall|j: int| 0 <= j < 64 implies #[trigger] bit(1u64 << (idx as u64), j) == (j
            == idx) by {
            lemma_bit_ops(0, 0, idx as u64, j as u64);
        }
    }
    1u64 << (idx as u64)
}

/// Takes the lowest set square out of `bb` and returns it; `None` when `bb` is empty.
pub fn pop_lsb(bb: &mut u64) -> (r: Option<usize>)
    ensures
        *old(bb) == 0 ==> r is None && *final(bb) == 0,
        *old(bb) != 0 ==> (r matches Some(sq) && sq < 64 && bit(*old(bb), sq as int)
            && (forall|j: int| 0 <= j < sq ==> !#[trigger] bit(*old(bb), j))
            && sq == u64_trailing_zeros(*old(bb))
            && *final(bb) == *old(bb) & ((*old(bb) - 1) as u64)
            && *final(bb) < *old(bb)
            && (forall|j: int| 0 <= j < 64 ==> #[trigger] bit(*final(bb), j) == (bit(*old(bb), j) && j != sq))),
{
    if *bb == 0 {
        return None;
    }
    let b = *bb;
    let tz = b.trailing_zeros();
    proof {
        axiom_u64_trailing_zeros(b);
        let t = tz as u64;
        assert(b << ((64 - t) as u64) == 0);
        assert forall|j: int| 0 <= j < tz implies !#[trigger] bit(b, j) by {
            assert((b >> (j as u64)) & 1u64 == 0u64);
        }
        assert forall|j: int| 0 <= j < 64 implies #[trigger] bit(b & ((b - 1) as u64), j) == (bit(b, j)
            && j != tz) by {
            let ju = j as u64;
            assert(b != 0 && t < 64 && (b >> t) & 1u64 == 1u64 && b << ((64 - t) as u64) == 0 && ju < 64
                ==> ((((b & ((b - 1) as u64)) >> ju) & 1u64 == 1u64) == (((b >> ju) & 1u64 == 1u64)
                && ju != t))) by (bit_vector);
        }
    }
    proof {
        assert(b != 0 ==> b & ((b - 1) as u64) < b) by (bit_vector);
    }
    let sq = tz as usize;
    *bb = b & (b - 1);
    Some(sq)
}

/// How many of the squares below `n` a board holds.
pub open spec fn count_below(b: u64, n: int) -> int
    decreases n,
{
    if n <= 0 {
        0
    } else {
        count_below(b, n - 1) + (if bit(b, n - 1) { 1int } else { 0int })
    }
}

/// How many squares a board holds.
pub open spec fn popcount(b: u64) -> int {
    count_below(b, 64)
}

/// A count below `n` is between 0 and `n`.
pub proof fn lemma_count_range(b: u64, n: int)
    requires
        0 <= n,
    ensures
        0 <= count_below(b, n) <= n,
    decreases n,
{
    if n > 0 {
        lemma_count_range(b, n - 1);
    }
}

/// Two boards that agree below `n` have the same count there.
pub proof fn lemma_count_same(a: u64, b: u64, n: int)
    requires
        0 <= n <= 64,
        forall|j: int| 0 <= j < n ==> #[trigger] bit(a, j) == bit(b, j),
    ensures
        count_below(a, n) == count_below(b, n),
    decreases n,
{
    if n > 0 {
        lemma_count_same(a, b, n - 1);
    }
}

/// Clearing one held square lowers the count by one.
pub proof fn lemma_count_clear(a: u64, b: u64, sq: int, n: int)
    requires
        0 <= sq < 64,
        0 <= n <= 64,
        bit(a, sq),
        !bit(b, sq),
        forall|j: int| 0 <= j < 64 && j != sq ==> #[trigger] bit(a, j) == bit(b, j),
    ensures
        count_below(b, n) == count_below(a, n) - (if sq < n { 1int } else { 0int }),
    decreases n,
{
    if n > 0 {
        lemma_count_clear(a, b, sq, n - 1);
    }
}

/// The number of squares `x` holds.
pub fn count_ones(x: u64) -> (r: u32)
    ensures
        r == popcount(x),
        r <= 64,
{
    let mut c: u32 = 0;
    let mut i: u64 = 0;
    while i < 64
        invariant
            i <= 64,
            c == count_below(x, i as int),
            c <= i,
        decreases 64 - i,
    {
        if (x >> i) & 1 == 1 {
            c += 1;
        }
        i += 1;
    }
    c
}

} // verus!
