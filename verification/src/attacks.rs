//! Attack sets of the leaping pieces, computed from square offsets.
use vstd::prelude::*;
use crate::bits::{bit, lemma_bit_ops, mask};
use crate::square::Square;

verus! {

/// Whether the square `dr` ranks and `df` files from `sq` is on the board and is `t`.
pub open spec fn steps(sq: int, dr: int, df: int, t: int) -> bool {
    0 <= sq / 8 + dr < 8 && 0 <= sq % 8 + df < 8 && t == (sq / 8 + dr) * 8 + (sq % 8 + df)
}

/// `t` is one king step from `sq`.
pub open spec fn king_step(sq: int, t: int) -> bool {
    steps(sq, 1, 0, t) || steps(sq, -1, 0, t) || steps(sq, 0, 1, t) || steps(sq, 0, -1, t)
        || steps(sq, 1, 1, t) || steps(sq, 1, -1, t) || steps(sq, -1, 1, t) || steps(sq, -1, -1, t)
}

/// `t` is one knight jump from `sq`.
pub open spec fn knight_step(sq: int, t: int) -> bool {
    steps(sq, 2, 1, t) || steps(sq, 2, -1, t) || steps(sq, -2, 1, t) || steps(sq, -2, -1, t)
        || steps(sq, 1, 2, t) || steps(sq, 1, -2, t) || steps(sq, -1, 2, t) || steps(sq, -1, -2, t)
}

/// `t` is attacked by a pawn of the given colour standing on `sq`.
pub open spec fn pawn_step(white: bool, sq: int, t: int) -> bool {
    if white {
        steps(sq, 1, -1, t) || steps(sq, 1, 1, t)
    } else {
        steps(sq, -1, -1, t) || steps(sq, -1, 1, t)
    }
}

/// The board with the one square `dr`, `df` away from `sq`, if on the board.
fn step_bit(sq: usize, dr: i32, df: i32) -> (r: u64)
    requires
        sq < 64,
        -2 <= dr <= 2,
        -2 <= df <= 2,
    ensures
        forall|t: int| 0 <= t < 64 ==> #[trigger] bit(r, t) == steps(sq as int, dr as int, df as int, t),
{
    match Square::new(sq).offset(dr, df) {
        Some(s) => mask(s.index()),
        None => {
            proof {
                assert forall|t: int| 0 <= t < 64 implies #[trigger] bit(0u64, t) == false by {
                    lemma_bit_ops(0, 0, 0, t as u64);
                }
            }
            0
        },
    }
}

/// Union of two boards, square by square.
proof fn lemma_or(a: u64, b: u64)
    ensures
        forall|t: int| 0 <= t < 64 ==> #[trigger] bit(a | b, t) == (bit(a, t) || bit(b, t)),
{
    assert forall|t: int| 0 <= t < 64 implies #[trigger] bit(a | b, t) == (bit(a, t) || bit(b, t)) by {
        lemma_bit_ops(a, b, 0, t as u64);
    }
}

/// The squares a king on `sq` attacks.
pub fn king_attacks(sq: usize) -> (r: u64)
    requires
        sq < 64,
    ensures
        forall|t: int| 0 <= t < 64 ==> #[trigger] bit(r, t) == king_step(sq as int, t),
{
    let a = step_bit(sq, 1, 0);
    let b = step_bit(sq, -1, 0);
    let c = step_bit(sq, 0, 1);
    let d = step_bit(sq, 0, -1);
    let e = step_bit(sq, 1, 1);
    let f = step_bit(sq, 1, -1);
    let g = step_bit(sq, -1, 1);
    let h = step_bit(sq, -1, -1);
    proof {
        lemma_or(a, b);
        lemma_or(a | b, c);
        lemma_or(a | b | c, d);
        lemma_or(a | b | c | d, e);
        lemma_or(a | b | c | d | e, f);
        lemma_or(a | b | c | d | e | f, g);
        lemma_or(a | b | c | d | e | f | g, h);
    }
    a | b | c | d | e | f | g | h
}

/// The squares a knight on `sq` attacks.
pub fn knight_attacks(sq: usize) -> (r: u64)
    requires
        sq < 64,
    ensures
        forall|t: int| 0 <= t < 64 ==> #[trigger] bit(r, t) == knight_step(sq as int, t),
{
    let a = step_bit(sq, 2, 1);
    let b = step_bit(sq, 2, -1);
    let c = step_bit(sq, -2, 1);
    let d = step_bit(sq, -2, -1);
    let e = step_bit(sq, 1, 2);
    let f = step_bit(sq, 1, -2);
    let g = step_bit(sq, -1, 2);
    let h = step_bit(sq, -1, -2);
    proof {
        lemma_or(a, b);
        lemma_or(a | b, c);
        lemma_or(a | b | c, d);
        lemma_or(a | b | c | d, e);
        lemma_or(a | b | c | d | e, f);
        lemma_or(a | b | c | d | e | f, g);
        lemma_or(a | b | c | d | e | f | g, h);
    }
    a | b | c | d | e | f | g | h
}

/// The squares a pawn of the given colour on `sq` attacks.
pub fn pawn_attacks(white: bool, sq: usize) -> (r: u64)
    requires
        sq < 64,
    ensures
        forall|t: int| 0 <= t < 64 ==> #[trigger] bit(r, t) == pawn_step(white, sq as int, t),
{
    let dr: i32 = if white {
        1
    } else {
        -1
    };
    let a = step_bit(sq, dr, -1);
    let b = step_bit(sq, dr, 1);
    proof {
        lemma_or(a, b);
    }
    a | b
}

} // verus!
