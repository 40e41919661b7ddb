//! The hand-written evaluation: PeSTO piece-square tables, mobility, pawn
//! structure and king safety, all from White's point of view.
use vstd::prelude::*;
use crate::attacks::{king_step, knight_attacks, knight_step, pawn_attacks, pawn_step};
use crate::movegen::king_square;
use crate::bits::{bit, count_below, count_ones, lemma_bit_ops, lemma_zero_iff_no_bits, pop_lsb};
use crate::board::{is_black_piece, is_white_piece};
use crate::items::Color;
use crate::magics::{bishop_reach, get_bishop_move_bits, get_rook_move_bits, rook_reach};
use crate::board::{Board, BoardView, lemma_piece_code};
use crate::items::Piece;

verus! {

/// The sum of `f` over `0..n`.
pub open spec fn sum_to(f: spec_fn(int) -> int, n: int) -> int
    decreases n,
{
    if n <= 0 {
        0
    } else {
        sum_to(f, n - 1) + f(n - 1)
    }
}

/// Terms that are zero add nothing.
pub proof fn lemma_sum_zeros(f: spec_fn(int) -> int, a: int, b: int)
    requires
        0 <= a <= b,
        forall|s: int| a <= s < b ==> #[trigger] f(s) == 0,
    ensures
        sum_to(f, b) == sum_to(f, a),
    decreases b - a,
{
    if b > a {
        lemma_sum_zeros(f, a, b - 1);
    }
}

/// Bounds on a sum from bounds on its terms.
pub proof fn lemma_sum_bounds(f: spec_fn(int) -> int, n: int, lo: int, hi: int)
    requires
        0 <= n,
        lo <= 0 <= hi,
        forall|s: int| 0 <= s < n ==> lo <= #[trigger] f(s) <= hi,
    ensures
        n * lo <= sum_to(f, n) <= n * hi,
    decreases n,
{
    if n > 0 {
        lemma_sum_bounds(f, n - 1, lo, hi);
        assert(lo <= f(n - 1) <= hi);
        assert((n - 1) * lo + lo == n * lo) by (nonlinear_arith);
        assert((n - 1) * hi + hi == n * hi) by (nonlinear_arith);
        assert(sum_to(f, n) == sum_to(f, n - 1) + f(n - 1));
    } else {
        assert(n * lo == 0 && n * hi == 0) by (nonlinear_arith)
            requires
                n == 0,
        ;
    }
}

/// One step of walking a board's squares from the lowest: after taking
/// `sq`, the lowest square left at or above `k`, the sum over the board's
/// squares reaches `sq + 1`.
pub proof fn lemma_pop_step(f: spec_fn(int) -> int, bb0: u64, rem: u64, k: int, sq: int)
    requires
        0 <= k <= sq < 64,
        bit(rem, sq),
        forall|s: int| 0 <= s < 64 && !bit(bb0, s) ==> #[trigger] f(s) == 0,
        forall|s: int| k <= s < 64 ==> #[trigger] bit(rem, s) == bit(bb0, s),
        forall|s: int| 0 <= s < sq ==> !#[trigger] bit(rem, s),
    ensures
        sum_to(f, sq + 1) == sum_to(f, k) + f(sq),
{
    assert forall|s: int| k <= s < sq implies #[trigger] f(s) == 0 by {
        assert(!bit(rem, s));
    }
    lemma_sum_zeros(f, k, sq);
}

/// The file of a square, 0 for a to 7 for h.
pub open spec fn file_of(s: int) -> int {
    s % 8
}

/// The rank of a square, 0 for the first to 7 for the eighth.
pub open spec fn rank_of(s: int) -> int {
    s / 8
}

/// The board of one whole file.
pub fn file_mask(f: usize) -> (r: u64)
    requires
        f < 8,
    ensures
        forall|t: int| 0 <= t < 64 ==> #[trigger] bit(r, t) == (file_of(t) == f),
{
    let r = 0x0101_0101_0101_0101u64 << (f as u64);
    proof {
        let g = f as u64;
        assert forall|t: int| 0 <= t < 64 implies #[trigger] bit(r, t) == (file_of(t) == f) by {
            let u = t as u64;
            assert(g < 8 && u < 64 ==> (bit(0x0101_0101_0101_0101u64 << g, u as int) == (u % 8 == g))) by (bit_vector);
        }
    }
    r
}

/// The board of the files next to `f`.
pub fn adj_file_mask(f: usize) -> (r: u64)
    requires
        f < 8,
    ensures
        forall|t: int| 0 <= t < 64 ==> #[trigger] bit(r, t) == (file_of(t) == f - 1 || file_of(t) == f + 1),
{
    let left: u64 = if f > 0 {
        file_mask(f - 1)
    } else {
        0
    };
    let right: u64 = if f < 7 {
        file_mask(f + 1)
    } else {
        0
    };
    let r = left | right;
    proof {
        assert forall|t: int| 0 <= t < 64 implies #[trigger] bit(r, t) == (file_of(t) == f - 1 || file_of(t) == f + 1) by {
            lemma_bit_ops(left, right, 0, t as u64);
        }
    }
    r
}

/// The squares in front of a pawn of the given colour on `sq`, on its
/// file and the files next to it.
pub open spec fn ahead(white: bool, sq: int, t: int) -> bool {
    &&& -1 <= file_of(t) - file_of(sq) <= 1
    &&& if white {
        rank_of(t) > rank_of(sq)
    } else {
        rank_of(t) < rank_of(sq)
    }
}

/// The board of the squares in front of a pawn on `sq`.
pub fn passed_mask(white: bool, sq: usize) -> (r: u64)
    requires
        sq < 64,
    ensures
        forall|t: int| 0 <= t < 64 ==> #[trigger] bit(r, t) == ahead(white, sq as int, t),
{
    let mut r: u64 = 0;
    let mut t: usize = 0;
    proof {
        assert forall|s: int| 0 <= s < 64 implies #[trigger] bit(0u64, s) == false by {
            lemma_bit_ops(0, 0, 0, s as u64);
        }
    }
    while t < 64
        invariant
            t <= 64,
            sq < 64,
            forall|s: int| 0 <= s < 64 ==> #[trigger] bit(r, s) == (s < t && ahead(white, sq as int, s)),
        decreases 64 - t,
    {
        let tf = t % 8;
        let sf = sq % 8;
        let near = tf + 1 >= sf && tf <= sf + 1;
        let front = if white {
            t / 8 > sq / 8
        } else {
            t / 8 < sq / 8
        };
        if near && front {
            let old_r = r;
            r = r | crate::bits::mask(t);
            proof {
                assert forall|s: int| 0 <= s < 64 implies #[trigger] bit(r, s) == (s < t + 1 && ahead(white, sq as int, s)) by {
                    lemma_bit_ops(old_r, 1u64 << (t as u64), 0, s as u64);
                }
            }
        }
        t += 1;
    }
    r
}

/// Penalty for an isolated pawn.
pub const ISO_PAWN_PENALTY: i32 = 25;
/// Penalty per extra pawn on a file.
pub const DOUBLE_PAWN_PENALTY: i32 = 20;

/// Bonus for a passed pawn by how far it has advanced.
pub open spec fn passed_bonus(r: int) -> int {
    if r == 1 {
        5
    } else if r == 2 {
        10
    } else if r == 3 {
        20
    } else if r == 4 {
        35
    } else if r == 5 {
        60
    } else if r == 6 {
        100
    } else {
        0
    }
}

fn passed_pawn_bonus(r: usize) -> (b: i32)
    requires
        r < 8,
    ensures
        b == passed_bonus(r as int),
{
    if r == 1 {
        5
    } else if r == 2 {
        10
    } else if r == 3 {
        20
    } else if r == 4 {
        35
    } else if r == 5 {
        60
    } else if r == 6 {
        100
    } else {
        0
    }
}

/// `t` is on a file next to the file of `sq`.
pub open spec fn adj_file(t: int, sq: int) -> bool {
    file_of(t) == file_of(sq) - 1 || file_of(t) == file_of(sq) + 1
}

/// Some square on a file next to `sq` holds `p`.
pub open spec fn has_adj(v: BoardView, p: u8, sq: int) -> bool {
    exists|t: int| 0 <= t < 64 && v.pieces[t] == p && #[trigger] adj_file(t, sq)
}

/// Some square in front of `sq` (as a pawn of the given colour sees it) holds `p`.
pub open spec fn has_ahead(v: BoardView, p: u8, white: bool, sq: int) -> bool {
    exists|t: int| 0 <= t < 64 && v.pieces[t] == p && #[trigger] ahead(white, sq, t)
}

/// What a white pawn on `sq` adds: the isolation penalty when no white
/// pawn is on a next file, the passed bonus when no black pawn is in front.
pub open spec fn white_pawn_term(v: BoardView, sq: int) -> int {
    if v.pieces[sq] == 9 {
        (if has_adj(v, 9, sq) { 0int } else { -ISO_PAWN_PENALTY as int })
            + (if has_ahead(v, 17, true, sq) { 0int } else { passed_bonus(rank_of(sq)) })
    } else {
        0
    }
}

/// What a black pawn on `sq` adds, from White's point of view.
pub open spec fn black_pawn_term(v: BoardView, sq: int) -> int {
    if v.pieces[sq] == 17 {
        (if has_adj(v, 17, sq) { 0int } else { ISO_PAWN_PENALTY as int })
            - (if has_ahead(v, 9, false, sq) { 0int } else { passed_bonus(7 - rank_of(sq)) })
    } else {
        0
    }
}

/// Whether square `s` holds `p` on file `f`, as 1 or 0.
pub open spec fn on_file(v: BoardView, p: u8, f: int, s: int) -> int {
    if v.pieces[s] == p && file_of(s) == f {
        1
    } else {
        0
    }
}

/// How many pieces `p` stand on file `f`.
pub open spec fn file_count(v: BoardView, p: u8, f: int) -> int {
    sum_to(|s: int| on_file(v, p, f, s), 64)
}

/// The doubled-pawn terms of file `f`, from White's point of view.
pub open spec fn doubled_term(v: BoardView, f: int) -> int {
    (if file_count(v, 9, f) > 1 { -(file_count(v, 9, f) - 1) * DOUBLE_PAWN_PENALTY } else { 0 })
        + (if file_count(v, 17, f) > 1 { (file_count(v, 17, f) - 1) * DOUBLE_PAWN_PENALTY } else { 0 })
}

/// The pawn-structure score: isolated, passed and doubled pawns.
pub open spec fn pawn_struct_spec(v: BoardView) -> int {
    sum_to(|s: int| white_pawn_term(v, s), 64) + sum_to(|s: int| black_pawn_term(v, s), 64)
        + sum_to(|f: int| doubled_term(v, f), 8)
}

/// `x & y` is empty exactly when no square is in both.
pub proof fn lemma_and_zero(x: u64, y: u64)
    ensures
        (x & y == 0) <==> forall|t: int| 0 <= t < 64 ==> !(#[trigger] bit(x, t) && bit(y, t)),
{
    lemma_zero_iff_no_bits(x & y);
    assert forall|t: int| 0 <= t < 64 implies #[trigger] bit(x & y, t) == (bit(x, t) && bit(y, t)) by {
        lemma_bit_ops(x, y, 0, t as u64);
    }
    if x & y == 0 {
        assert forall|t: int| 0 <= t < 64 implies !(#[trigger] bit(x, t) && bit(y, t)) by {
            assert(!bit(x & y, t));
        }
    } else {
        let j = choose|j: int| 0 <= j < 64 && #[trigger] bit(x & y, j);
        assert(bit(x, j) && bit(y, j));
    }
}

/// The board of the pieces `code` on `board`.
fn piece_board(board: &Board, code: u8) -> (r: u64)
    requires
        board.wf(),
        crate::items::is_piece(code),
    ensures
        forall|s: int| 0 <= s < 64 ==> #[trigger] bit(r, s) == (board@.pieces[s] == code),
{
    proof {
        lemma_piece_code(code);
    }
    board.bb(code)
}

/// Sums over the pawns of one colour: their isolated/passed terms and
/// their counts per file.
fn pawn_side(board: &Board, own: u64, enemy: u64, white: bool, counts: &mut [i32; 8]) -> (score: i32)
    requires
        board.wf(),
        forall|s: int| 0 <= s < 64 ==> #[trigger] bit(own, s) == (board@.pieces[s] == (if white { 9u8 } else { 17u8 })),
        forall|s: int| 0 <= s < 64 ==> #[trigger] bit(enemy, s) == (board@.pieces[s] == (if white { 17u8 } else { 9u8 })),
        forall|f: int| 0 <= f < 8 ==> old(counts)@[f] == 0,
    ensures
        score == (if white {
            sum_to(|s: int| white_pawn_term(board@, s), 64)
        } else {
            sum_to(|s: int| black_pawn_term(board@, s), 64)
        }),
        -1600 <= score <= 6400 || -6400 <= score <= 1600,
        forall|f: int| 0 <= f < 8 ==> final(counts)@[f] == sum_to(|s: int| on_file(board@, if white { 9u8 } else { 17u8 }, f, s), 64),
        forall|f: int| 0 <= f < 8 ==> 0 <= #[trigger] final(counts)@[f] <= 64,
{
    let ghost v = board@;
    let ghost p: u8 = if white { 9u8 } else { 17u8 };
    let ghost term = if white { |s: int| white_pawn_term(v, s) } else { |s: int| black_pawn_term(v, s) };
    let mut score: i32 = 0;
    let mut bb = own;
    let ghost mut k: int = 0;
    while bb != 0
        invariant
            board.wf(),
            v == board@,
            0 <= k <= 64,
            p == (if white { 9u8 } else { 17u8 }),
            term == (if white { |s: int| white_pawn_term(v, s) } else { |s: int| black_pawn_term(v, s) }),
            forall|s: int| 0 <= s < 64 ==> #[trigger] bit(own, s) == (v.pieces[s] == p),
            forall|s: int| 0 <= s < 64 ==> #[trigger] bit(enemy, s) == (v.pieces[s] == (if white { 17u8 } else { 9u8 })),
            forall|s: int| 0 <= s < k ==> !#[trigger] bit(bb, s),
            forall|s: int| k <= s < 64 ==> #[trigger] bit(bb, s) == bit(own, s),
            score == sum_to(term, k),
            white ==> -25 * k <= score <= 100 * k,
            !white ==> -100 * k <= score <= 25 * k,
            forall|f: int| 0 <= f < 8 ==> #[trigger] counts@[f] == sum_to(|s: int| on_file(v, p, f, s), k),
            forall|f: int| 0 <= f < 8 ==> 0 <= #[trigger] counts@[f] <= k,
        decreases bb,
    {
        let ghost bb_before = bb;
        let sq = pop_lsb(&mut bb).unwrap();
        let file = sq % 8;
        let rank = sq / 8;
        proof {
            assert(k <= sq) by {
                if sq < k {
                    assert(!bit(bb_before, sq as int));
                }
            }
            assert(bit(own, sq as int));
            assert(v.pieces[sq as int] == p);
            lemma_pop_step(term, own, bb_before, k, sq as int);
        }
        let adj = adj_file_mask(file);
        let iso = adj & own == 0;
        proof {
            lemma_and_zero(adj, own);
            if !iso {
                let t = choose|t: int| 0 <= t < 64 && !!(bit(adj, t) && bit(own, t));
                assert(adj_file(t, sq as int));
                assert(has_adj(v, p, sq as int));
            } else {
                assert forall|t: int| 0 <= t < 64 && v.pieces[t] == p implies !#[trigger] adj_file(t, sq as int) by {
                    assert(!(bit(adj, t) && bit(own, t)));
                }
            }
        }
        let pm = passed_mask(white, sq);
        let passed = enemy & pm == 0;
        proof {
            lemma_and_zero(enemy, pm);
            if !passed {
                let t = choose|t: int| 0 <= t < 64 && !!(bit(enemy, t) && bit(pm, t));
                assert(ahead(white, sq as int, t));
            } else {
                assert forall|t: int| 0 <= t < 64 && v.pieces[t] == (if white { 17u8 } else { 9u8 }) implies !#[trigger] ahead(white, sq as int, t) by {
                    assert(!(bit(enemy, t) && bit(pm, t)));
                }
            }
        }
        if white {
            if iso {
                score -= ISO_PAWN_PENALTY;
            }
            if passed {
                score += passed_pawn_bonus(rank);
            }
        } else {
            if iso {
                score += ISO_PAWN_PENALTY;
            }
            if passed {
                score -= passed_pawn_bonus(7 - rank);
            }
        }
        let ghost old_counts = counts@;
        counts[file] = counts[file] + 1;
        proof {
            assert forall|f: int| 0 <= f < 8 implies #[trigger] counts@[f] == sum_to(|s: int| on_file(v, p, f, s), sq + 1) by {
                lemma_pop_step(|s: int| on_file(v, p, f, s), own, bb_before, k, sq as int);
            }
            assert forall|s: int| 0 <= s < sq + 1 implies !#[trigger] bit(bb, s) by {
                if s < sq {
                    assert(!bit(bb_before, s));
                }
            }
            k = sq + 1;
        }
    }
    proof {
        lemma_zero_iff_no_bits(bb);
        assert forall|s: int| k <= s < 64 implies #[trigger] term(s) == 0 by {
            assert(!bit(bb, s));
        }
        lemma_sum_zeros(term, k, 64);
        assert forall|f: int| 0 <= f < 8 implies #[trigger] counts@[f] == sum_to(|s: int| on_file(v, p, f, s), 64) by {
            assert forall|s: int| k <= s < 64 implies #[trigger] on_file(v, p, f, s) == 0 by {
                assert(!bit(bb, s));
            }
            lemma_sum_zeros(|s: int| on_file(v, p, f, s), k, 64);
        }
    }
    score
}

/// The pawn-structure score: isolated, passed and doubled pawns of both
/// sides, from White's point of view.
pub fn pawn_struct_score(board: &Board) -> (r: i32)
    requires
        board.wf(),
    ensures
        r == pawn_struct_spec(board@),
        -23_000 <= r <= 23_000,
{
    let ghost v = board@;
    let white_pawns = piece_board(board, Piece::WHITE + Piece::PAWN);
    let black_pawns = piece_board(board, Piece::BLACK + Piece::PAWN);
    let mut w_file_counts = [0i32; 8];
    let mut b_file_counts = [0i32; 8];
    let ws = pawn_side(board, white_pawns, black_pawns, true, &mut w_file_counts);
    let bs = pawn_side(board, black_pawns, white_pawns, false, &mut b_file_counts);
    let mut score = ws + bs;
    let mut i: usize = 0;
    while i < 8
        invariant
            i <= 8,
            v == board@,
            score == ws + bs + sum_to(|f: int| doubled_term(v, f), i as int),
            -12800 <= ws + bs <= 12800,
            -1260 * i <= score - (ws + bs) <= 1260 * i,
            forall|f: int| 0 <= f < 8 ==> #[trigger] w_file_counts@[f] == file_count(v, 9, f),
            forall|f: int| 0 <= f < 8 ==> #[trigger] b_file_counts@[f] == file_count(v, 17, f),
            forall|f: int| 0 <= f < 8 ==> 0 <= #[trigger] w_file_counts@[f] <= 64,
            forall|f: int| 0 <= f < 8 ==> 0 <= #[trigger] b_file_counts@[f] <= 64,
        decreases 8 - i,
    {
        let wc = w_file_counts[i];
        let bc = b_file_counts[i];
        if wc > 1 {
            score -= (wc - 1) * DOUBLE_PAWN_PENALTY;
        }
        if bc > 1 {
            score += (bc - 1) * DOUBLE_PAWN_PENALTY;
        }
        i += 1;
    }
    score
}

/// Middle-game piece values: pawn, knight, bishop, rook, queen, king.
pub const MG_VALUE: [i32; 6] = [82, 337, 365, 477, 1025, 0];
/// End-game piece values.
pub const EG_VALUE: [i32; 6] = [94, 281, 297, 512, 936, 0];

pub const MG_PAWN_TABLE: [i32; 64] = [
    0, 0, 0, 0, 0, 0, 0, 0,
    98, 134, 61, 95, 68, 126, 34, -11,
    -6, 7, 26, 31, 65, 56, 25, -20,
    -14, 13, 6, 21, 23, 12, 17, -23,
    -27, -2, -5, 12, 17, 6, 10, -25,
    -26, -4, -4, -10, 3, 3, 33, -12,
    -35, -1, -20, -23, -15, 24, 38, -22,
    0, 0, 0, 0, 0, 0, 0, 0,
];

pub const EG_PAWN_TABLE: [i32; 64] = [
    0, 0, 0, 0, 0, 0, 0, 0,
    178, 173, 158, 134, 147, 132, 165, 187,
    94, 100, 85, 67, 56, 53, 82, 84,
    32, 24, 13, 5, -2, 4, 17, 17,
    13, 9, -3, -7, -7, -8, 3, -1,
    4, 7, -6, 1, 0, -5, -1, -8,
    13, 8, 8, 10, 13, 0, 2, -7,
    0, 0, 0, 0, 0, 0, 0, 0,
];

pub const MG_KNIGHT_TABLE: [i32; 64] = [
    -167, -89, -34, -49, 61, -97, -15, -107,
    -73, -41, 72, 36, 23, 62, 7, -17,
    -47, 60, 37, 65, 84, 129, 73, 44,
    -9, 17, 19, 53, 37, 69, 18, 22,
    -13, 4, 16, 13, 28, 19, 21, -8,
    -23, -9, 12, 10, 19, 17, 25, -16,
    -29, -53, -12, -3, -1, 18, -14, -19,
    -105, -21, -58, -33, -17, -28, -19, -23,
];

pub const EG_KNIGHT_TABLE: [i32; 64] = [
    -58, -38, -13, -28, -31, -27, -63, -99,
    -25, -8, -25, -2, -9, -25, -24, -52,
    -24, -20, 10, 9, -1, -9, -19, -41,
    -17, 3, 22, 22, 22, 11, 8, -18,
    -18, -6, 16, 25, 16, 17, 4, -18,
    -23, -3, -1, 15, 10, -3, -20, -22,
    -42, -20, -10, -5, -2, -20, -23, -44,
    -29, -51, -23, -15, -22, -18, -50, -64,
];

pub const MG_BISHOP_TABLE: [i32; 64] = [
    -29, 4, -82, -37, -25, -42, 7, -8,
    -26, 16, -18, -13, 30, 59, 18, -47,
    -16, 37, 43, 40, 35, 50, 37, -2,
    -4, 5, 19, 50, 37, 37, 7, -2,
    -6, 13, 13, 26, 34, 12, 10, 4,
    0, 15, 15, 15, 14, 27, 18, 10,
    4, 15, 16, 0, 7, 21, 33, 1,
    -33, -3, -14, -21, -13, -12, -39, -21,
];

pub const EG_BISHOP_TABLE: [i32; 64] = [
    -14, -21, -11, -8, -7, -9, -17, -24,
    -8, -4, 7, -12, -3, -13, -4, -14,
    2, -8, 0, -1, -2, 6, 0, 4,
    -3, 9, 12, 9, 14, 10, 3, 2,
    -6, 3, 13, 19, 7, 10, -3, -9,
    -12, -3, 8, 10, 13, 3, -7, -15,
    -14, -18, -7, -1, 4, -9, -15, -27,
    -23, -9, -23, -5, -9, -16, -5, -17,
];

pub const MG_ROOK_TABLE: [i32; 64] = [
    32, 42, 32, 51, 63, 9, 31, 43,
    27, 32, 58, 62, 80, 67, 26, 44,
    -5, 19, 26, 36, 17, 45, 61, 16,
    -24, -11, 7, 26, 24, 35, -8, -20,
    -36, -26, -12, -1, 9, -7, 6, -23,
    -45, -25, -16, -17, 3, 0, -5, -33,
    -44, -16, -20, -9, -1, 11, -6, -71,
    -19, -13, 1, 17, 16, 7, -37, -26,
];

pub const EG_ROOK_TABLE: [i32; 64] = [
    13, 10, 18, 15, 12, 12, 8, 5,
    11, 13, 13, 11, -3, 3, 8, 3,
    7, 7, 7, 5, 4, -3, -5, -3,
    4, 3, 13, 1, 2, 1, -1, 2,
    3, 5, 8, 4, -5, -6, -8, -11,
    -4, 0, -5, -1, -7, -12, -8, -16,
    -6, -6, 0, 2, -9, -9, -11, -3,
    -9, 2, 3, -1, -5, -13, 4, -20,
];

pub const MG_QUEEN_TABLE: [i32; 64] = [
    -28, 0, 29, 12, 59, 44, 43, 45,
    -24, -39, -5, 1, -16, 57, 28, 54,
    -13, -17, 7, 8, 29, 56, 47, 57,
    -27, -27, -16, -16, -1, 17, -2, 1,
    -9, -26, -9, -10, -2, -4, 3, -3,
    -14, 2, -11, -2, -5, 2, 14, 5,
    -35, -8, 11, 2, 8, 15, -3, 1,
    -1, -18, -9, 10, -15, -25, -31, -50,
];

pub const EG_QUEEN_TABLE: [i32; 64] = [
    -9, 22, 22, 27, 27, 19, 10, 20,
    -17, 20, 32, 41, 58, 25, 30, 0,
    -20, 6, 9, 49, 47, 35, 19, 9,
    3, 22, 24, 45, 57, 40, 57, 36,
    -18, 28, 19, 47, 31, 34, 39, 23,
    -16, -27, 15, 6, 9, 17, 10, 5,
    -22, -23, -30, -16, -16, -23, -36, -32,
    -33, -28, -22, -43, -5, -32, -20, -41,
];

pub const MG_KING_TABLE: [i32; 64] = [
    -65, 23, 16, -15, -56, -34, 2, 13,
    29, -1, -20, -7, -8, -4, -38, -29,
    -9, 24, 2, -16, -20, 6, 22, -22,
    -17, -20, -12, -27, -30, -25, -14, -36,
    -49, -1, -27, -39, -46, -44, -33, -51,
    -14, -14, -22, -46, -44, -30, -15, -27,
    1, 7, -8, -64, -43, -16, 9, 8,
    -15, 36, 12, -54, 8, -28, 24, 14,
];

pub const EG_KING_TABLE: [i32; 64] = [
    -74, -35, -18, -18, -11, 15, 4, -17,
    -12, 17, 14, 17, 17, 38, 23, 11,
    10, 17, 23, 15, 20, 45, 44, 13,
    -8, 22, 24, 27, 26, 33, 26, 3,
    -18, -4, 21, 24, 27, 23, 9, -11,
    -19, -3, 11, 21, 23, 16, 7, -9,
    -27, -11, 4, 13, 14, 4, -5, -17,
    -53, -34, -21, -11, -28, -14, -24, -43,
];

pub const MG_PESTO_TABLE: [[i32; 64]; 6] = [
    MG_PAWN_TABLE,
    MG_KNIGHT_TABLE,
    MG_BISHOP_TABLE,
    MG_ROOK_TABLE,
    MG_QUEEN_TABLE,
    MG_KING_TABLE,
];

pub const EG_PESTO_TABLE: [[i32; 64]; 6] = [
    EG_PAWN_TABLE,
    EG_KNIGHT_TABLE,
    EG_BISHOP_TABLE,
    EG_ROOK_TABLE,
    EG_QUEEN_TABLE,
    EG_KING_TABLE,
];

/// How much each piece (by table index) counts toward the game phase.
pub const GAME_PHASE_VAL: [i32; 12] = [0, 1, 1, 2, 4, 0, 0, 1, 1, 2, 4, 0];

/// The square seen from the other side: the rank flipped.
pub open spec fn mirror_sq(sq: int) -> int {
    (7 - sq / 8) * 8 + sq % 8
}

/// The square seen from the other side.
pub fn mirror(sq: usize) -> (r: usize)
    requires
        sq < 64,
    ensures
        r == mirror_sq(sq as int),
        r < 64,
{
    assert(sq < 64 ==> (sq ^ 56usize) == (7 - sq / 8) * 8 + sq % 8 && (sq ^ 56usize) < 64) by (bit_vector);
    sq ^ 56
}

/// The middle-game table entry of piece index `p` on `sq`: the piece's
/// value plus its square bonus (the tables are drawn from Black's side, so
/// White reads them mirrored).
pub open spec fn mg_entry(p: int, sq: int) -> int {
    if p < 6 {
        MG_VALUE[p] + MG_PESTO_TABLE[p][mirror_sq(sq)]
    } else {
        MG_VALUE[p - 6] + MG_PESTO_TABLE[p - 6][sq]
    }
}

/// The end-game table entry of piece index `p` on `sq`, read as the
/// middle-game one: White mirrored, Black as is.
pub open spec fn eg_entry(p: int, sq: int) -> int {
    if p < 6 {
        EG_VALUE[p] + EG_PESTO_TABLE[p][mirror_sq(sq)]
    } else {
        EG_VALUE[p - 6] + EG_PESTO_TABLE[p - 6][sq]
    }
}

/// The piece-square tables by piece index and square, middle and end game.
pub struct PestoTables {
    pub mg: Vec<i32>,
    pub eg: Vec<i32>,
}

impl PestoTables {
    /// Each entry is the sum its formula gives.
    pub open spec fn wf(&self) -> bool {
        &&& self.mg.len() == 768
        &&& self.eg.len() == 768
        &&& forall|i: int| 0 <= i < 768 ==> #[trigger] self.mg@[i] == mg_entry(i / 64, i % 64)
        &&& forall|i: int| 0 <= i < 768 ==> #[trigger] self.eg@[i] == eg_entry(i / 64, i % 64)
    }
}

/// Every square bonus is within 200 and every value within 1025.
pub proof fn lemma_table_bounds()
    ensures
        forall|p: int, s: int| 0 <= p < 6 && 0 <= s < 64 ==> -200 <= #[trigger] MG_PESTO_TABLE[p][s] <= 200,
        forall|p: int, s: int| 0 <= p < 6 && 0 <= s < 64 ==> -200 <= #[trigger] EG_PESTO_TABLE[p][s] <= 200,
        forall|p: int| 0 <= p < 6 ==> 0 <= #[trigger] MG_VALUE[p] <= 1025,
        forall|p: int| 0 <= p < 6 ==> 0 <= #[trigger] EG_VALUE[p] <= 1025,
        forall|p: int| 0 <= p < 12 ==> 0 <= #[trigger] GAME_PHASE_VAL[p] <= 4,
{
}

/// Builds the two tables.
pub fn init_pesto_table() -> (r: PestoTables)
    ensures
        r.wf(),
{
    let mut mg: Vec<i32> = Vec::new();
    let mut eg: Vec<i32> = Vec::new();
    let mut i: usize = 0;
    while i < 768
        invariant
            i <= 768,
            mg.len() == i,
            eg.len() == i,
            forall|j: int| 0 <= j < i ==> #[trigger] mg@[j] == mg_entry(j / 64, j % 64),
            forall|j: int| 0 <= j < i ==> #[trigger] eg@[j] == eg_entry(j / 64, j % 64),
        decreases 768 - i,
    {
        let p_idx = i / 64;
        let sq = i % 64;
        proof {
            lemma_table_bounds();
        }
        if p_idx < 6 {
            mg.push(MG_VALUE[p_idx] + MG_PESTO_TABLE[p_idx][mirror(sq)]);
            eg.push(EG_VALUE[p_idx] + EG_PESTO_TABLE[p_idx][mirror(sq)]);
        } else {
            mg.push(MG_VALUE[p_idx - 6] + MG_PESTO_TABLE[p_idx - 6][sq]);
            eg.push(EG_VALUE[p_idx - 6] + EG_PESTO_TABLE[p_idx - 6][sq]);
        }
        i += 1;
    }
    PestoTables { mg, eg }
}

/// The table index of what stands on `s`, or -1 when it is empty.
pub open spec fn index_on(v: BoardView, s: int) -> int {
    if v.pieces[s] == 0 {
        -1
    } else {
        crate::items::piece_index(v.pieces[s])
    }
}

/// The middle-game term of square `s`: White's pieces add, Black's subtract.
pub open spec fn mg_term(v: BoardView, s: int) -> int {
    let i = index_on(v, s);
    if i < 0 {
        0
    } else if i < 6 {
        mg_entry(i, s)
    } else {
        -mg_entry(i, s)
    }
}

pub open spec fn eg_term(v: BoardView, s: int) -> int {
    let i = index_on(v, s);
    if i < 0 {
        0
    } else if i < 6 {
        eg_entry(i, s)
    } else {
        -eg_entry(i, s)
    }
}

pub open spec fn phase_term(v: BoardView, s: int) -> int {
    let i = index_on(v, s);
    if i < 0 {
        0
    } else {
        GAME_PHASE_VAL[i] as int
    }
}

/// The game phase: 24 with all minor and major pieces on, 0 with none.
pub open spec fn game_phase(v: BoardView) -> int {
    let p = sum_to(|s: int| phase_term(v, s), 64);
    if p > 24 {
        24
    } else {
        p
    }
}

/// The tapered PeSTO score: middle and end game blended by the phase.
pub open spec fn pesto_spec(v: BoardView) -> int {
    let ph = game_phase(v);
    crate::engine::tdiv(
        sum_to(|s: int| mg_term(v, s), 64) * ph + sum_to(|s: int| eg_term(v, s), 64) * (24 - ph),
        24,
    )
}

/// The game phase of the position.
pub fn get_game_phase(board: &Board) -> (r: i32)
    requires
        board.wf(),
    ensures
        r == game_phase(board@),
        0 <= r <= 24,
{
    let ghost v = board@;
    proof {
        board.lemma_cells_pub();
        lemma_table_bounds();
    }
    let mut phase: i32 = 0;
    let mut s: usize = 0;
    while s < 64
        invariant
            s <= 64,
            board.wf(),
            v == board@,
            forall|q: int| 0 <= q < 64 ==> #[trigger] crate::board::cell_ok(v.pieces[q]),
            forall|p: int| 0 <= p < 12 ==> 0 <= #[trigger] GAME_PHASE_VAL[p] <= 4,
            phase == sum_to(|q: int| phase_term(v, q), s as int),
            0 <= phase <= 4 * s,
        decreases 64 - s,
    {
        let p = board.piece_on(s);
        if p != 0 {
            proof {
                assert(crate::board::cell_ok(v.pieces[s as int]));
                lemma_piece_code(p);
            }
            let idx = Piece::to_idx(p);
            phase = phase + GAME_PHASE_VAL[idx];
        }
        s += 1;
    }
    if phase > 24 {
        24
    } else {
        phase
    }
}

/// The tapered PeSTO score of the position, from White's point of view.
pub fn get_pesto_score(board: &Board, tables: &PestoTables) -> (r: i32)
    requires
        board.wf(),
        tables.wf(),
    ensures
        r == pesto_spec(board@),
        -78_400 <= r <= 78_400,
{
    let ghost v = board@;
    proof {
        board.lemma_cells_pub();
        lemma_table_bounds();
    }
    let mut mg: i32 = 0;
    let mut eg: i32 = 0;
    let mut s: usize = 0;
    while s < 64
        invariant
            s <= 64,
            board.wf(),
            tables.wf(),
            v == board@,
            forall|q: int| 0 <= q < 64 ==> #[trigger] crate::board::cell_ok(v.pieces[q]),
            forall|p: int, q: int| 0 <= p < 6 && 0 <= q < 64 ==> -200 <= #[trigger] MG_PESTO_TABLE[p][q] <= 200,
            forall|p: int, q: int| 0 <= p < 6 && 0 <= q < 64 ==> -200 <= #[trigger] EG_PESTO_TABLE[p][q] <= 200,
            forall|p: int| 0 <= p < 6 ==> 0 <= #[trigger] MG_VALUE[p] <= 1025,
            forall|p: int| 0 <= p < 6 ==> 0 <= #[trigger] EG_VALUE[p] <= 1025,
            mg == sum_to(|q: int| mg_term(v, q), s as int),
            eg == sum_to(|q: int| eg_term(v, q), s as int),
            -1225 * s <= mg <= 1225 * s,
            -1225 * s <= eg <= 1225 * s,
        decreases 64 - s,
    {
        let p = board.piece_on(s);
        if p != 0 {
            proof {
                assert(crate::board::cell_ok(v.pieces[s as int]));
                lemma_piece_code(p);
                assert(0 <= mirror_sq(s as int) < 64) by (nonlinear_arith)
                    requires
                        0 <= s < 64,
                ;
            }
            let idx = Piece::to_idx(p);
            let m = tables.mg[idx * 64 + s];
            let e = tables.eg[idx * 64 + s];
            proof {
                assert((idx * 64 + s) / 64 == idx && (idx * 64 + s) % 64 == s) by (nonlinear_arith)
                    requires
                        0 <= s < 64,
                        0 <= idx,
                ;
            }
            if idx < 6 {
                mg = mg + m;
                eg = eg + e;
            } else {
                mg = mg - m;
                eg = eg - e;
            }
        }
        s += 1;
    }
    let phase = get_game_phase(board);
    assert(-1225 * 64 * 24 <= mg * phase <= 1225 * 64 * 24) by (nonlinear_arith)
        requires
            -1225 * 64 <= mg <= 1225 * 64,
            0 <= phase <= 24,
    ;
    assert(-1225 * 64 * 24 <= eg * (24 - phase) <= 1225 * 64 * 24) by (nonlinear_arith)
        requires
            -1225 * 64 <= eg <= 1225 * 64,
            0 <= phase <= 24,
    ;
    let num = mg * phase + eg * (24 - phase);
    assert(-1225 * 64 * 24 <= num <= 1225 * 64 * 24) by (nonlinear_arith)
        requires
            num == mg * phase + eg * (24 - phase),
            -1225 * 64 <= mg <= 1225 * 64,
            -1225 * 64 <= eg <= 1225 * 64,
            0 <= phase <= 24,
    ;
    let q = num / 24;
    assert(-78_400 <= q <= 78_400) by (nonlinear_arith)
        requires
            q == crate::engine::tdiv(num as int, 24),
            -1225 * 64 * 24 <= num <= 1225 * 64 * 24,
    ;
    q
}


/// How many of the squares below `n` satisfy `f`.
pub open spec fn how_many(f: spec_fn(int) -> bool, n: int) -> int
    decreases n,
{
    if n <= 0 {
        0
    } else {
        how_many(f, n - 1) + (if f(n - 1) { 1int } else { 0int })
    }
}

/// The squares a board holds are counted by `how_many` of its predicate.
pub proof fn lemma_how_many_bits(x: u64, f: spec_fn(int) -> bool, n: int)
    requires
        0 <= n <= 64,
        forall|t: int| 0 <= t < 64 ==> #[trigger] bit(x, t) == f(t),
    ensures
        count_below(x, n) == how_many(f, n),
        0 <= how_many(f, n) <= n,
    decreases n,
{
    if n > 0 {
        lemma_how_many_bits(x, f, n - 1);
    }
}

/// The pawn code of a colour.
pub open spec fn pawn_code(white: bool) -> u8 {
    if white {
        9u8
    } else {
        17u8
    }
}

/// Some pawn of the given colour attacks `t`.
pub open spec fn pawn_hits(v: BoardView, white: bool, t: int) -> bool {
    exists|p: int| 0 <= p < 64 && v.pieces[p] == pawn_code(white) && #[trigger] pawn_step(white, p, t)
}

/// The squares the pawns of the given colour attack.
pub fn pawn_attack_map(board: &Board, white: bool) -> (r: u64)
    requires
        board.wf(),
    ensures
        forall|t: int| 0 <= t < 64 ==> #[trigger] bit(r, t) == pawn_hits(board@, white, t),
{
    let ghost v = board@;
    let code: u8 = if white {
        9
    } else {
        17
    };
    let mut r: u64 = 0;
    let mut s: usize = 0;
    proof {
        assert forall|t: int| 0 <= t < 64 implies #[trigger] bit(0u64, t) == false by {
            lemma_bit_ops(0, 0, 0, t as u64);
        }
    }
    while s < 64
        invariant
            s <= 64,
            v == board@,
            code == pawn_code(white),
            forall|t: int| 0 <= t < 64 ==> #[trigger] bit(r, t) == exists|p: int|
                0 <= p < s && v.pieces[p] == code && #[trigger] pawn_step(white, p, t),
        decreases 64 - s,
    {
        let old_r = r;
        if board.piece_on(s) == code {
            let a = pawn_attacks(white, s);
            r = r | a;
            proof {
                assert forall|t: int| 0 <= t < 64 implies #[trigger] bit(r, t) == exists|p: int|
                    0 <= p < s + 1 && v.pieces[p] == code && #[trigger] pawn_step(white, p, t) by {
                    lemma_bit_ops(old_r, a, 0, t as u64);
                    if pawn_step(white, s as int, t) {
                        assert(0 <= s < s + 1 && v.pieces[s as int] == code);
                    }
                    if exists|p: int| 0 <= p < s + 1 && v.pieces[p] == code && #[trigger] pawn_step(white, p, t) {
                        let p = choose|p: int| 0 <= p < s + 1 && v.pieces[p] == code && #[trigger] pawn_step(white, p, t);
                        if p < s {
                            assert(bit(old_r, t));
                        }
                    }
                }
            }
        } else {
            proof {
                assert forall|t: int| 0 <= t < 64 implies #[trigger] bit(r, t) == exists|p: int|
                    0 <= p < s + 1 && v.pieces[p] == code && #[trigger] pawn_step(white, p, t) by {
                    if exists|p: int| 0 <= p < s + 1 && v.pieces[p] == code && #[trigger] pawn_step(white, p, t) {
                        let p = choose|p: int| 0 <= p < s + 1 && v.pieces[p] == code && #[trigger] pawn_step(white, p, t);
                        assert(p < s);
                    }
                }
            }
        }
        s += 1;
    }
    r
}

/// Mobility bonus of a knight by the safe squares it reaches.
pub const KNIGHT_MOBILITY: [i32; 9] = [-20, -8, 0, 6, 12, 17, 21, 24, 26];
/// Mobility bonus of a bishop by the safe squares it reaches.
pub const BISHOP_MOBILITY: [i32; 14] = [-15, -6, 0, 5, 10, 15, 19, 23, 26, 28, 30, 31, 32, 33];
/// Mobility bonus of a rook by the safe squares it reaches.
pub const ROOK_MOBILITY: [i32; 15] = [-10, -5, 0, 3, 6, 9, 12, 15, 18, 21, 23, 25, 27, 28, 29];
/// Bonus for holding two bishops or more.
pub const BISHOP_PAIR_BONUS: i32 = 30;

/// `t` is a square a piece of the given colour may go to without taking
/// its own piece or standing where an enemy pawn attacks.
pub open spec fn safe_for(v: BoardView, white: bool, t: int) -> bool {
    &&& !(if white { is_white_piece(v.pieces[t]) } else { is_black_piece(v.pieces[t]) })
    &&& !pawn_hits(v, !white, t)
}

/// `n`, but at most `hi`.
pub open spec fn cap(n: int, hi: int) -> int {
    if n > hi {
        hi
    } else {
        n
    }
}

/// The squares a piece of type `ty` (knight 2, bishop 3, rook 4, queen 5)
/// on `s` attacks with blockers `occ`.
pub open spec fn hits(ty: int, occ: u64, s: int, t: int) -> bool {
    if ty == 2 {
        knight_step(s, t)
    } else if ty == 3 {
        bishop_reach(occ, s, t)
    } else if ty == 4 {
        rook_reach(occ, s, t)
    } else if ty == 5 {
        bishop_reach(occ, s, t) || rook_reach(occ, s, t)
    } else {
        false
    }
}

/// The safe squares a piece of type `ty` of the given colour on `s` reaches.
pub open spec fn safe_hits(v: BoardView, occ: u64, ty: int, white: bool, s: int) -> spec_fn(int) -> bool {
    |t: int| hits(ty, occ, s, t) && safe_for(v, white, t)
}

/// What the piece on `s` adds to the mobility score, from White's side.
pub open spec fn mob_term(v: BoardView, occ: u64, s: int) -> int {
    let p = v.pieces[s];
    if p == 10 {
        KNIGHT_MOBILITY[cap(how_many(safe_hits(v, occ, 2, true, s), 64), 8)] as int
    } else if p == 11 {
        BISHOP_MOBILITY[cap(how_many(safe_hits(v, occ, 3, true, s), 64), 13)] as int
    } else if p == 12 {
        ROOK_MOBILITY[cap(how_many(safe_hits(v, occ, 4, true, s), 64), 14)] as int
    } else if p == 18 {
        -KNIGHT_MOBILITY[cap(how_many(safe_hits(v, occ, 2, false, s), 64), 8)]
    } else if p == 19 {
        -BISHOP_MOBILITY[cap(how_many(safe_hits(v, occ, 3, false, s), 64), 13)]
    } else if p == 20 {
        -ROOK_MOBILITY[cap(how_many(safe_hits(v, occ, 4, false, s), 64), 14)]
    } else {
        0
    }
}

/// The squares holding `code`.
pub open spec fn holds(v: BoardView, code: u8) -> spec_fn(int) -> bool {
    |s: int| v.pieces[s] == code
}

/// The mobility score: by the safe squares each knight, bishop and rook
/// reaches (blockers `occ`), plus the bishop pair, from White's side.
pub open spec fn mobility_spec(v: BoardView, occ: u64) -> int {
    sum_to(|s: int| mob_term(v, occ, s), 64) + (if how_many(holds(v, 11), 64) > 1 {
        BISHOP_PAIR_BONUS as int
    } else {
        0
    }) - (if how_many(holds(v, 19), 64) > 1 {
        BISHOP_PAIR_BONUS as int
    } else {
        0
    })
}

/// The squares a piece of type `ty` on `s` attacks.
fn piece_hits(ty: u8, s: usize, occ: u64) -> (r: u64)
    requires
        2 <= ty <= 5,
        s < 64,
    ensures
        forall|t: int| 0 <= t < 64 ==> #[trigger] bit(r, t) == hits(ty as int, occ, s as int, t),
{
    if ty == 2 {
        knight_attacks(s)
    } else if ty == 3 {
        get_bishop_move_bits(s, occ)
    } else if ty == 4 {
        get_rook_move_bits(s, occ)
    } else {
        let a = get_bishop_move_bits(s, occ);
        let b = get_rook_move_bits(s, occ);
        proof {
            assert forall|t: int| 0 <= t < 64 implies #[trigger] bit(a | b, t) == (bit(a, t) || bit(b, t)) by {
                lemma_bit_ops(a, b, 0, t as u64);
            }
        }
        a | b
    }
}

/// How many squares of `safe` a piece of type `ty` on `s` attacks.
fn safe_count(v: Ghost<BoardView>, ty: u8, s: usize, occ: u64, safe: u64, white: bool) -> (r: u32)
    requires
        2 <= ty <= 4,
        s < 64,
        forall|t: int| 0 <= t < 64 ==> #[trigger] bit(safe, t) == safe_for(v@, white, t),
    ensures
        r == how_many(safe_hits(v@, occ, ty as int, white, s as int), 64),
        r <= 64,
{
    let h = piece_hits(ty, s, occ);
    let x = h & safe;
    proof {
        assert forall|t: int| 0 <= t < 64 implies #[trigger] bit(x, t) == safe_hits(v@, occ, ty as int, white, s as int)(t) by {
            lemma_bit_ops(h, safe, 0, t as u64);
        }
        lemma_how_many_bits(x, safe_hits(v@, occ, ty as int, white, s as int), 64);
    }
    count_ones(x)
}

/// No square is counted when nothing satisfies the predicate.
pub proof fn lemma_how_many_none(f: spec_fn(int) -> bool, n: int)
    requires
        forall|t: int| 0 <= t < n ==> !#[trigger] f(t),
    ensures
        how_many(f, n) == 0,
    decreases n,
{
    if n > 0 {
        lemma_how_many_none(f, n - 1);
    }
}

/// A board with no knight, bishop or rook of either colour has no
/// mobility score, whatever its blockers.
pub proof fn lemma_mobility_without_minor_or_rook(v: BoardView, occ: u64)
    requires
        forall|s: int| 0 <= s < 64 ==> {
            let p = #[trigger] v.pieces[s];
            p != 10 && p != 11 && p != 12 && p != 18 && p != 19 && p != 20
        },
    ensures
        mobility_spec(v, occ) == 0,
{
    let f = |s: int| mob_term(v, occ, s);
    assert forall|s: int| 0 <= s < 64 implies #[trigger] f(s) == 0 by {
        let p = v.pieces[s];
        assert(p != 10 && p != 11 && p != 12 && p != 18 && p != 19 && p != 20);
    }
    lemma_sum_zeros(f, 0, 64);
    lemma_how_many_none(holds(v, 11), 64);
    lemma_how_many_none(holds(v, 19), 64);
}

/// King safety counts for nothing once the game phase is 6 or less.
pub proof fn lemma_king_safety_low_phase(v: BoardView, occ: u64)
    requires
        game_phase(v) <= 6,
    ensures
        king_safety_spec(v, occ) == 0,
{
}

/// The mobility score of the position (`mobility_spec`).
pub fn mobility_score(board: &Board) -> (r: i32)
    requires
        board.wf(),
    ensures
        forall|occ: u64| (forall|t: int| 0 <= t < 64 ==> #[trigger] bit(occ, t) == (board@.pieces[t] != 0))
            ==> r == mobility_spec(board@, occ),
        -2200 <= r <= 2200,
{
    let ghost v = board@;
    let all_occ = board.all_occ();
    let white_occ = board.occ(&Color::White);
    let black_occ = board.occ(&Color::Black);
    let white_pawn_attacks = pawn_attack_map(board, true);
    let black_pawn_attacks = pawn_attack_map(board, false);
    let white_safe_sq = !white_occ & !black_pawn_attacks;
    let black_safe_sq = !black_occ & !white_pawn_attacks;
    proof {
        assert forall|t: int| 0 <= t < 64 implies #[trigger] bit(white_safe_sq, t) == safe_for(v, true, t) by {
            lemma_bit_ops(!white_occ, !black_pawn_attacks, 0, t as u64);
            lemma_bit_ops(white_occ, black_pawn_attacks, 0, t as u64);
            lemma_bit_ops(black_pawn_attacks, white_occ, 0, t as u64);
            assert(bit(white_occ, t) == is_white_piece(v.pieces[t]));
            assert(bit(black_pawn_attacks, t) == pawn_hits(v, false, t));
        }
        assert forall|t: int| 0 <= t < 64 implies #[trigger] bit(black_safe_sq, t) == safe_for(v, false, t) by {
            lemma_bit_ops(!black_occ, !white_pawn_attacks, 0, t as u64);
            lemma_bit_ops(black_occ, white_pawn_attacks, 0, t as u64);
            lemma_bit_ops(white_pawn_attacks, black_occ, 0, t as u64);
            assert(bit(black_occ, t) == is_black_piece(v.pieces[t]));
            assert(bit(white_pawn_attacks, t) == pawn_hits(v, true, t));
        }
    }
    let ghost term = |s: int| mob_term(v, all_occ, s);
    let mut score: i32 = 0;
    let mut w_bishops: u32 = 0;
    let mut b_bishops: u32 = 0;
    let mut s: usize = 0;
    while s < 64
        invariant
            s <= 64,
            v == board@,
            board.wf(),
            term == (|s: int| mob_term(v, all_occ, s)),
            forall|t: int| 0 <= t < 64 ==> #[trigger] bit(white_safe_sq, t) == safe_for(v, true, t),
            forall|t: int| 0 <= t < 64 ==> #[trigger] bit(black_safe_sq, t) == safe_for(v, false, t),
            score == sum_to(term, s as int),
            -33 * s <= score <= 33 * s,
            w_bishops == how_many(holds(v, 11), s as int),
            b_bishops == how_many(holds(v, 19), s as int),
            w_bishops <= s,
            b_bishops <= s,
        decreases 64 - s,
    {
        let p = board.piece_on(s);
        if p == 10 {
            let c = safe_count(Ghost(v), 2, s, all_occ, white_safe_sq, true);
            let i: usize = if c > 8 { 8 } else { c as usize };
            score += KNIGHT_MOBILITY[i];
        } else if p == 11 {
            let c = safe_count(Ghost(v), 3, s, all_occ, white_safe_sq, true);
            let i: usize = if c > 13 { 13 } else { c as usize };
            score += BISHOP_MOBILITY[i];
            w_bishops += 1;
        } else if p == 12 {
            let c = safe_count(Ghost(v), 4, s, all_occ, white_safe_sq, true);
            let i: usize = if c > 14 { 14 } else { c as usize };
            score += ROOK_MOBILITY[i];
        } else if p == 18 {
            let c = safe_count(Ghost(v), 2, s, all_occ, black_safe_sq, false);
            let i: usize = if c > 8 { 8 } else { c as usize };
            score -= KNIGHT_MOBILITY[i];
        } else if p == 19 {
            let c = safe_count(Ghost(v), 3, s, all_occ, black_safe_sq, false);
            let i: usize = if c > 13 { 13 } else { c as usize };
            score -= BISHOP_MOBILITY[i];
            b_bishops += 1;
        } else if p == 20 {
            let c = safe_count(Ghost(v), 4, s, all_occ, black_safe_sq, false);
            let i: usize = if c > 14 { 14 } else { c as usize };
            score -= ROOK_MOBILITY[i];
        }
        proof {
            assert(sum_to(term, s + 1) == sum_to(term, s as int) + term(s as int));
        }
        s += 1;
    }
    if w_bishops > 1 {
        score += BISHOP_PAIR_BONUS;
    }
    if b_bishops > 1 {
        score -= BISHOP_PAIR_BONUS;
    }
    proof {
        assert forall|occ: u64| (forall|t: int| 0 <= t < 64 ==> #[trigger] bit(occ, t) == (board@.pieces[t] != 0))
            implies score == mobility_spec(board@, occ) by {
            crate::bits::lemma_bits_ext(occ, all_occ);
        }
    }
    score
}


/// Penalty for a king-side or queen-side file with no shield pawn.
pub const MISSING_PAWN_SHIELD_PENALTY: i32 = 35;
/// Penalty for a shield file whose pawns have all left the home ranks.
pub const ADVANCED_PAWN_SHIELD_PENALTY: i32 = 10;
/// Penalty for a king still in the centre files.
pub const NOT_CASTLED_YET_PENALTY: i32 = 5;
/// What each attacking piece type is worth per king-zone square it hits.
pub const KNIGHT_ATTACK_VAL: i32 = 20;
pub const BISHOP_ATTACK_VAL: i32 = 20;
pub const ROOK_ATTACK_VAL: i32 = 40;
pub const QUEEN_ATTACK_VAL: i32 = 80;
/// The share (in percent) of the attack value that counts, by the number
/// of attacking pieces.
pub const ATTACK_WEIGHT_TABLE: [i32; 8] = [0, 0, 50, 75, 88, 94, 97, 99];

/// The squares around a king on `k` and one rank further toward the
/// enemy: up for White, down for Black.
pub open spec fn in_zone(white: bool, k: int, t: int) -> bool {
    ||| king_step(k, t)
    ||| if white {
        t >= 8 && king_step(k, t - 8)
    } else {
        t < 56 && king_step(k, t + 8)
    }
}

/// The king zone of a king of the given colour on `sq`.
pub fn king_zone(sq: usize, is_white: bool) -> (r: u64)
    requires
        sq < 64,
    ensures
        forall|t: int| 0 <= t < 64 ==> #[trigger] bit(r, t) == in_zone(is_white, sq as int, t),
{
    let ring = crate::attacks::king_attacks(sq);
    let shifted = if is_white {
        ring << 8u64
    } else {
        ring >> 8u64
    };
    proof {
        assert forall|t: int| 0 <= t < 64 implies #[trigger] bit(ring | shifted, t) == in_zone(is_white, sq as int, t) by {
            lemma_bit_ops(ring, shifted, 0, t as u64);
            crate::bits::lemma_shift(ring, t as u64);
        }
    }
    ring | shifted
}

/// The king zones of every square for a king of the given colour.
pub fn compute_king_zones(is_white: bool) -> (r: [u64; 64])
    ensures
        forall|s: int, t: int| 0 <= s < 64 && 0 <= t < 64 ==> #[trigger] bit(r[s], t) == in_zone(is_white, s, t),
{
    let mut zones = [0u64; 64];
    let mut sq: usize = 0;
    while sq < 64
        invariant
            sq <= 64,
            forall|s: int, t: int| 0 <= s < sq && 0 <= t < 64 ==> #[trigger] bit(zones[s], t) == in_zone(is_white, s, t),
        decreases 64 - sq,
    {
        zones[sq] = king_zone(sq, is_white);
        sq += 1;
    }
    zones
}

/// The type (2 to 5: knight to queen) of an attacker of the given colour
/// on `s`; 0 for anything else.
pub open spec fn attacker_type(v: BoardView, white: bool, s: int) -> int {
    let base: int = if white { 8 } else { 16 };
    let p = v.pieces[s] as int;
    if base + 2 <= p <= base + 5 {
        p - base
    } else {
        0
    }
}

/// What a hit zone square is worth for an attacker of type `ty`.
pub open spec fn attack_val(ty: int) -> int {
    if ty == 2 {
        KNIGHT_ATTACK_VAL as int
    } else if ty == 3 {
        BISHOP_ATTACK_VAL as int
    } else if ty == 4 {
        ROOK_ATTACK_VAL as int
    } else if ty == 5 {
        QUEEN_ATTACK_VAL as int
    } else {
        0
    }
}

/// The zone squares of the king on `k` (of the other colour) that the
/// piece of the given colour on `s` attacks.
pub open spec fn zone_hits(v: BoardView, occ: u64, white: bool, k: int, s: int) -> spec_fn(int) -> bool {
    |t: int| hits(attacker_type(v, white, s), occ, s, t) && in_zone(!white, k, t)
}

/// 1 when the piece on `s` attacks the zone, else 0.
pub open spec fn attacker_term(v: BoardView, occ: u64, white: bool, k: int, s: int) -> int {
    if how_many(zone_hits(v, occ, white, k, s), 64) > 0 {
        1
    } else {
        0
    }
}

/// The attack value of the piece on `s` against the zone.
pub open spec fn value_term(v: BoardView, occ: u64, white: bool, k: int, s: int) -> int {
    how_many(zone_hits(v, occ, white, k, s), 64) * attack_val(attacker_type(v, white, s))
}

/// The danger the pieces of the given colour pose to the enemy king on
/// `k`: with two attackers or more, the weighted share of their attack
/// values.
pub open spec fn danger(v: BoardView, occ: u64, white: bool, k: int) -> int {
    let n = sum_to(|s: int| attacker_term(v, occ, white, k, s), 64);
    let val = sum_to(|s: int| value_term(v, occ, white, k, s), 64);
    if n > 1 {
        val * ATTACK_WEIGHT_TABLE[cap(n, 7)] / 100
    } else {
        0
    }
}

/// Some pawn `p` stands on file `f`, and (when `safe` holds) on one of
/// the colour's two home shield ranks.
pub open spec fn pawn_on_file(v: BoardView, white: bool, f: int, home_only: bool) -> bool {
    exists|s: int| 0 <= s < 64 && v.pieces[s] == pawn_code(white) && #[trigger] file_of(s) == f && (home_only ==> if white {
        8 <= s < 24
    } else {
        40 <= s < 56
    })
}

/// The shield penalty of one file next to the king.
pub open spec fn file_pen(v: BoardView, white: bool, f: int) -> int {
    if !pawn_on_file(v, white, f, false) {
        MISSING_PAWN_SHIELD_PENALTY as int
    } else if !pawn_on_file(v, white, f, true) {
        ADVANCED_PAWN_SHIELD_PENALTY as int
    } else {
        0
    }
}

/// The shield penalty of a king of the given colour on `k`: the files
/// around a king on the wings, or the centre penalty.
pub open spec fn shield(v: BoardView, white: bool, k: int) -> int {
    let f = file_of(k);
    if f < 3 || f > 4 {
        (if f > 0 { file_pen(v, white, f - 1) } else { 0 }) + file_pen(v, white, f) + (if f < 7 {
            file_pen(v, white, f + 1)
        } else {
            0
        })
    } else {
        NOT_CASTLED_YET_PENALTY as int
    }
}

/// King safety from White's side, faded in with the game phase above 6:
/// pawn shields and the danger of the attacks on each king zone.
pub open spec fn king_safety_spec(v: BoardView, occ: u64) -> int {
    let phase = game_phase(v);
    if phase <= 6 {
        0
    } else {
        let wk = king_square(v, 8);
        let bk = king_square(v, 16);
        let score = -shield(v, true, wk) + shield(v, false, bk) - danger(v, occ, false, wk) + danger(v, occ, true, bk);
        crate::engine::tdiv(score * (phase - 6), 18)
    }
}

/// The shield penalty of one file.
fn file_penalty(board: &Board, pawns: u64, white: bool, f: usize) -> (r: i32)
    requires
        board.wf(),
        f < 8,
        forall|s: int| 0 <= s < 64 ==> #[trigger] bit(pawns, s) == (board@.pieces[s] == pawn_code(white)),
    ensures
        r == file_pen(board@, white, f as int),
{
    let ghost v = board@;
    let fm = file_mask(f);
    let file_pawns = pawns & fm;
    let home: u64 = if white {
        0x0000_0000_00FF_FF00
    } else {
        0x00FF_FF00_0000_0000
    };
    proof {
        assert forall|t: int| 0 <= t < 64 implies #[trigger] bit(file_pawns, t) == (v.pieces[t] == pawn_code(white) && file_of(t) == f) by {
            lemma_bit_ops(pawns, fm, 0, t as u64);
        }
        assert forall|t: int| 0 <= t < 64 implies #[trigger] bit(home, t) == (if white { 8 <= t < 24 } else { 40 <= t < 56 }) by {
            let u = t as u64;
            assert(u < 64 ==> (bit(0x0000_0000_00FF_FF00u64, u as int) == (8 <= u < 24))) by (bit_vector);
            assert(u < 64 ==> (bit(0x00FF_FF00_0000_0000u64, u as int) == (40 <= u < 56))) by (bit_vector);
        }
        lemma_and_zero(pawns, fm);
        lemma_and_zero(file_pawns, home);
        if file_pawns == 0 {
            assert forall|s: int| 0 <= s < 64 && v.pieces[s] == pawn_code(white) implies #[trigger] file_of(s) != f by {
                assert(!(bit(pawns, s) && bit(fm, s)));
            }
        } else {
            let t = choose|t: int| 0 <= t < 64 && !!(bit(pawns, t) && bit(fm, t));
            assert(file_of(t) == f);
        }
        if file_pawns & home == 0 {
            assert forall|s: int| 0 <= s < 64 && v.pieces[s] == pawn_code(white) && #[trigger] file_of(s) == f
                implies !(if white { 8 <= s < 24 } else { 40 <= s < 56 }) by {
                lemma_bit_ops(pawns, fm, 0, s as u64);
                assert(!(bit(file_pawns, s) && bit(home, s)));
            }
        } else {
            let t = choose|t: int| 0 <= t < 64 && !!(bit(file_pawns, t) && bit(home, t));
            assert(file_of(t) == f);
        }
    }
    if file_pawns == 0 {
        MISSING_PAWN_SHIELD_PENALTY
    } else if file_pawns & home == 0 {
        ADVANCED_PAWN_SHIELD_PENALTY
    } else {
        0
    }
}

/// The shield penalty of a king of the given colour on `k`.
fn shield_penalty(board: &Board, white: bool, k: usize) -> (r: i32)
    requires
        board.wf(),
        k < 64,
    ensures
        r == shield(board@, white, k as int),
        0 <= r <= 105,
{
    let pawns = piece_board(board, if white { 9 } else { 17 });
    let f = k % 8;
    if f < 3 || f > 4 {
        let mut total: i32 = 0;
        if f > 0 {
            total += file_penalty(board, pawns, white, f - 1);
        }
        total += file_penalty(board, pawns, white, f);
        if f < 7 {
            total += file_penalty(board, pawns, white, f + 1);
        }
        total
    } else {
        NOT_CASTLED_YET_PENALTY
    }
}

/// How many attacking pieces of the given colour hit the zone `zone` of
/// the king on `k`, and the sum of their attack values.
fn zone_attacks(board: &Board, white: bool, k: usize, occ: u64, zone: u64) -> (r: (i32, i32))
    requires
        board.wf(),
        k < 64,
        forall|t: int| 0 <= t < 64 ==> #[trigger] bit(zone, t) == in_zone(!white, k as int, t),
    ensures
        r.0 == sum_to(|s: int| attacker_term(board@, occ, white, k as int, s), 64),
        r.1 == sum_to(|s: int| value_term(board@, occ, white, k as int, s), 64),
        0 <= r.0 <= 64,
        0 <= r.1 <= 64 * 5120,
{
    let ghost v = board@;
    let ghost nt = |s: int| attacker_term(v, occ, white, k as int, s);
    let ghost vt = |s: int| value_term(v, occ, white, k as int, s);
    let base: u8 = if white {
        8
    } else {
        16
    };
    let mut pieces: i32 = 0;
    let mut value: i32 = 0;
    let mut s: usize = 0;
    while s < 64
        invariant
            s <= 64,
            k < 64,
            v == board@,
            board.wf(),
            base == (if white { 8u8 } else { 16u8 }),
            nt == (|s: int| attacker_term(v, occ, white, k as int, s)),
            vt == (|s: int| value_term(v, occ, white, k as int, s)),
            forall|t: int| 0 <= t < 64 ==> #[trigger] bit(zone, t) == in_zone(!white, k as int, t),
            pieces == sum_to(nt, s as int),
            value == sum_to(vt, s as int),
            0 <= pieces <= s,
            0 <= value <= s * 5120,
        decreases 64 - s,
    {
        let p = board.piece_on(s);
        if base + 2 <= p && p <= base + 5 {
            let ty = p - base;
            let h = piece_hits(ty, s, occ);
            let x = h & zone;
            proof {
                assert(attacker_type(v, white, s as int) == ty as int);
                assert forall|t: int| 0 <= t < 64 implies #[trigger] bit(x, t) == zone_hits(v, occ, white, k as int, s as int)(t) by {
                    lemma_bit_ops(h, zone, 0, t as u64);
                }
                lemma_how_many_bits(x, zone_hits(v, occ, white, k as int, s as int), 64);
            }
            let c = count_ones(x) as i32;
            let val: i32 = if ty == 2 {
                KNIGHT_ATTACK_VAL
            } else if ty == 3 {
                BISHOP_ATTACK_VAL
            } else if ty == 4 {
                ROOK_ATTACK_VAL
            } else {
                QUEEN_ATTACK_VAL
            };
            proof {
                assert(attack_val(ty as int) == val);
                assert(c == how_many(zone_hits(v, occ, white, k as int, s as int), 64));
                assert(vt(s as int) == c * val);
            }
            if c > 0 {
                pieces += 1;
                assert(c * val <= 64 * 80) by (nonlinear_arith)
                    requires
                        0 < c <= 64,
                        0 < val <= 80,
                ;
                value += c * val;
            }
        } else {
            proof {
                assert(attacker_type(v, white, s as int) == 0);
                assert(how_many(zone_hits(v, occ, white, k as int, s as int), 64) == 0) by {
                    let z = zone_hits(v, occ, white, k as int, s as int);
                    assert forall|t: int| 0 <= t < 64 implies #[trigger] bit(0u64, t) == z(t) by {
                        lemma_bit_ops(0, 0, 0, t as u64);
                    }
                    lemma_how_many_bits(0u64, z, 64);
                    crate::bits::lemma_count_range(0u64, 64);
                    assert(count_below(0u64, 64) == 0) by {
                        assert forall|j: int| 0 <= j < 64 implies #[trigger] bit(0u64, j) == bit(0u64, j) by {}
                        lemma_zero_count(64);
                    }
                }
            }
        }
        proof {
            assert(sum_to(nt, s + 1) == sum_to(nt, s as int) + nt(s as int));
            assert(sum_to(vt, s + 1) == sum_to(vt, s as int) + vt(s as int));
        }
        s += 1;
    }
    (pieces, value)
}

/// The empty board holds no square below `n`.
proof fn lemma_zero_count(n: int)
    requires
        0 <= n <= 64,
    ensures
        count_below(0u64, n) == 0,
    decreases n,
{
    if n > 0 {
        lemma_bit_ops(0, 0, 0, (n - 1) as u64);
        lemma_zero_count(n - 1);
    }
}

/// The weighted danger of `n` attackers with total value `val`.
fn danger_of(n: i32, val: i32) -> (r: i32)
    requires
        0 <= n <= 64,
        0 <= val <= 64 * 5120,
    ensures
        r == (if n > 1 { val * ATTACK_WEIGHT_TABLE[cap(n as int, 7)] / 100 } else { 0 }),
        0 <= r <= 64 * 5120,
{
    if n > 1 {
        let i: usize = if n > 7 {
            7
        } else {
            n as usize
        };
        let w = ATTACK_WEIGHT_TABLE[i];
        assert(0 <= val * w <= 64 * 5120 * 99) by (nonlinear_arith)
            requires
                0 <= val <= 64 * 5120,
                0 <= w <= 99,
        ;
        val * w / 100
    } else {
        0
    }
}

/// The king-safety score of the position (`king_safety_spec`).
pub fn king_safety_score(board: &Board) -> (r: i32)
    requires
        board.wf(),
        game_phase(board@) > 6 ==> king_square(board@, 8) < 64 && king_square(board@, 16) < 64,
    ensures
        forall|occ: u64| (forall|t: int| 0 <= t < 64 ==> #[trigger] bit(occ, t) == (board@.pieces[t] != 0))
            ==> r == king_safety_spec(board@, occ),
        -400_000 <= r <= 400_000,
{
    let ghost v = board@;
    let phase = get_game_phase(board);
    let king_safety_start_phase: i32 = 6;
    if phase <= king_safety_start_phase {
        return 0;
    }
    let all_occ = board.all_occ();
    proof {
        crate::movegen::lemma_find_found_pub(v.pieces, 14u8, 0);
        crate::movegen::lemma_find_found_pub(v.pieces, 22u8, 0);
    }
    let w_king_sq = match board.lowest_square(14) {
        Some(sq) => sq,
        None => 0,
    };
    let b_king_sq = match board.lowest_square(22) {
        Some(sq) => sq,
        None => 0,
    };
    let mut score: i32 = 0;
    score -= shield_penalty(board, true, w_king_sq);
    score += shield_penalty(board, false, b_king_sq);
    let w_king_zone = king_zone(w_king_sq, true);
    let b_king_zone = king_zone(b_king_sq, false);
    let (b_attacking_pieces, b_value_of_attacks) = zone_attacks(board, false, w_king_sq, all_occ, w_king_zone);
    let white_danger = danger_of(b_attacking_pieces, b_value_of_attacks);
    score -= white_danger;
    let (w_attacking_pieces, w_value_of_attacks) = zone_attacks(board, true, b_king_sq, all_occ, b_king_zone);
    let black_danger = danger_of(w_attacking_pieces, w_value_of_attacks);
    score += black_danger;
    let fade = phase - king_safety_start_phase;
    assert(-400_000 * 18 <= score * fade <= 400_000 * 18) by (nonlinear_arith)
        requires
            -400_000 <= score <= 400_000,
            0 < fade <= 18,
    ;
    let r = (score * fade) / (24 - king_safety_start_phase);
    proof {
        assert forall|occ: u64| (forall|t: int| 0 <= t < 64 ==> #[trigger] bit(occ, t) == (board@.pieces[t] != 0))
            implies r == king_safety_spec(board@, occ) by {
            crate::bits::lemma_bits_ext(occ, all_occ);
        }
    }
    r
}


/// Bonus for having the move.
pub const TEMPO_BONUS: i32 = 10;

/// The hand-written evaluation from the side to move's point of view:
/// PeSTO, mobility, pawn structure, king safety and the tempo bonus.
pub open spec fn hce_spec(v: BoardView, occ: u64) -> int {
    let white_view = pesto_spec(v) + mobility_spec(v, occ) + pawn_struct_spec(v) + king_safety_spec(v, occ)
        + TEMPO_BONUS;
    if v.side == Color::White {
        white_view
    } else {
        -white_view
    }
}

/// The hand-written evaluation of the position (`hce_spec`).
pub fn evaluate(board: &Board, tables: &PestoTables) -> (r: i32)
    requires
        board.wf(),
        tables.wf(),
        game_phase(board@) > 6 ==> king_square(board@, 8) < 64 && king_square(board@, 16) < 64,
    ensures
        forall|occ: u64| (forall|t: int| 0 <= t < 64 ==> #[trigger] bit(occ, t) == (board@.pieces[t] != 0))
            ==> r == hce_spec(board@, occ),
        -504_000 <= r <= 504_000,
{
    let pesto = get_pesto_score(board, tables);
    let mobility = mobility_score(board);
    let pawns = pawn_struct_score(board);
    let safety = king_safety_score(board);
    let score = pesto + mobility + pawns + safety + TEMPO_BONUS;
    score * board.side_to_move().fac()
}


/// The hand-written evaluation is relative to the side to move: the same
/// pieces with the other side to move evaluate to the negated score.
pub proof fn lemma_eval_side_relative(v: BoardView, occ: u64)
    ensures
        hce_spec(BoardView { side: Color::White, ..v }, occ) == -hce_spec(BoardView { side: Color::Black, ..v }, occ),
{
    let w = BoardView { side: Color::White, ..v };
    let b = BoardView { side: Color::Black, ..v };
    assert(w.pieces == b.pieces);
    assert(pesto_spec(w) == pesto_spec(b)) by {
        assert((|s: int| mg_term(w, s)) =~= (|s: int| mg_term(b, s)));
        assert((|s: int| eg_term(w, s)) =~= (|s: int| eg_term(b, s)));
        assert((|s: int| phase_term(w, s)) =~= (|s: int| phase_term(b, s)));
    }
    assert(mobility_spec(w, occ) == mobility_spec(b, occ)) by {
        assert forall|s: int, white: bool| #[trigger] safe_for(w, white, s) == safe_for(b, white, s) by {}
        assert forall|s: int, ty: int, white: bool| #[trigger] safe_hits(w, occ, ty, white, s) == safe_hits(b, occ, ty, white, s) by {
            assert(safe_hits(w, occ, ty, white, s) =~= safe_hits(b, occ, ty, white, s));
        }
        assert((|s: int| mob_term(w, occ, s)) =~= (|s: int| mob_term(b, occ, s)));
        assert(holds(w, 11) =~= holds(b, 11));
        assert(holds(w, 19) =~= holds(b, 19));
    }
    assert(pawn_struct_spec(w) == pawn_struct_spec(b)) by {
        assert((|s: int| white_pawn_term(w, s)) =~= (|s: int| white_pawn_term(b, s)));
        assert((|s: int| black_pawn_term(w, s)) =~= (|s: int| black_pawn_term(b, s)));
        assert forall|p: u8, f: int| #[trigger] file_count(w, p, f) == file_count(b, p, f) by {
            assert((|s: int| on_file(w, p, f, s)) =~= (|s: int| on_file(b, p, f, s)));
        }
        assert((|f: int| doubled_term(w, f)) =~= (|f: int| doubled_term(b, f)));
    }
    assert(king_safety_spec(w, occ) == king_safety_spec(b, occ)) by {
        assert((|s: int| phase_term(w, s)) =~= (|s: int| phase_term(b, s)));
        assert(game_phase(w) == game_phase(b));
        assert(king_square(w, 8) == king_square(b, 8));
        assert(king_square(w, 16) == king_square(b, 16));
        assert forall|white: bool, k: int| #[trigger] shield(w, white, k) == shield(b, white, k) by {}
        assert forall|white: bool, k: int| #[trigger] danger(w, occ, white, k) == danger(b, occ, white, k) by {
            assert forall|s: int| #[trigger] zone_hits(w, occ, white, k, s) == zone_hits(b, occ, white, k, s) by {
                assert(zone_hits(w, occ, white, k, s) =~= zone_hits(b, occ, white, k, s));
            }
            assert((|s: int| attacker_term(w, occ, white, k, s)) =~= (|s: int| attacker_term(b, occ, white, k, s)));
            assert((|s: int| value_term(w, occ, white, k, s)) =~= (|s: int| value_term(b, occ, white, k, s)));
        }
    }
}

} // verus!
