//! Static exchange evaluation: the material outcome of the capture sequence
//! on one square, each side recapturing with its least valuable attacker
//! and free to stop.
use vstd::prelude::*;
use crate::attacks::{king_attacks, king_step, knight_attacks, knight_step, pawn_attacks, pawn_step};
use crate::bits::{bit, count_below, lemma_bit_ops, lemma_count_clear, lemma_count_range, mask, pop_lsb, popcount};
use crate::board::{Board, BoardView, cell_ok, is_black_piece, is_white_piece, lemma_piece_code};
use crate::items::{Color, Move, MoveFlag, Piece, PieceInfo, is_piece, piece_index};
use crate::magics::{bishop_reach, get_bishop_move_bits, get_rook_move_bits, rook_reach};

verus! {

/// Piece values for exchanges: pawn, knight, bishop, rook, queen, king.
pub open spec fn see_piece_value(kind: int) -> int {
    if kind == 0 {
        100
    } else if kind == 1 {
        320
    } else if kind == 2 {
        330
    } else if kind == 3 {
        500
    } else if kind == 4 {
        900
    } else {
        10_000
    }
}

/// The exchange value of a piece code (a bare type code counts as that
/// type); 0 for an empty square.
pub open spec fn see_value(p: u8) -> int {
    if p == 0 {
        0
    } else {
        see_piece_value(piece_index(p) % 6)
    }
}

/// The piece on `s` attacks `to`, with the squares of `occ` occupied: a
/// bishop or queen along a diagonal, a rook or queen along a line, a
/// knight or king by a step, or a pawn diagonally toward `to`.
pub open spec fn attacker_at(v: BoardView, to: int, occ: u64, s: int) -> bool {
    let p = v.pieces[s];
    &&& bit(occ, s)
    &&& {
        ||| bishop_reach(occ, to, s) && (p == 11 || p == 19 || p == 13 || p == 21)
        ||| rook_reach(occ, to, s) && (p == 12 || p == 20 || p == 13 || p == 21)
        ||| knight_step(to, s) && (p == 10 || p == 18)
        ||| king_step(to, s) && (p == 14 || p == 22)
        ||| pawn_step(true, to, s) && p == 17
        ||| pawn_step(false, to, s) && p == 9
    }
}

/// A square is attacked, as check detection sees it, exactly when a piece
/// of the other side is among the attackers that `attacks_to` reports on
/// the board's own occupancy.
pub proof fn lemma_attacked_iff_attacker(v: BoardView, occ: u64, pos: int, cur_white: bool)
    requires
        v.pieces.len() == 64,
        forall|s: int| 0 <= s < 64 ==> #[trigger] bit(occ, s) == (v.pieces[s] != 0),
        0 <= pos < 64,
    ensures
        crate::movegen::attacked(v, pos, cur_white) <==> exists|s: int| 0 <= s < 64 && #[trigger] attacker_at(v, pos, occ, s)
            && (if cur_white { is_black_piece(v.pieces[s]) } else { is_white_piece(v.pieces[s]) }),
{
    let ec: u8 = if cur_white { 16 } else { 8 };
    let q = (ec + 5) as u8;
    let bsh = (ec + 3) as u8;
    let rk = (ec + 4) as u8;
    crate::magics::lemma_ray_attacker_reach(v, occ, pos, 1, 1, q, bsh);
    crate::magics::lemma_ray_attacker_reach(v, occ, pos, 1, -1, q, bsh);
    crate::magics::lemma_ray_attacker_reach(v, occ, pos, -1, 1, q, bsh);
    crate::magics::lemma_ray_attacker_reach(v, occ, pos, -1, -1, q, bsh);
    crate::magics::lemma_ray_attacker_reach(v, occ, pos, 1, 0, q, rk);
    crate::magics::lemma_ray_attacker_reach(v, occ, pos, -1, 0, q, rk);
    crate::magics::lemma_ray_attacker_reach(v, occ, pos, 0, 1, q, rk);
    crate::magics::lemma_ray_attacker_reach(v, occ, pos, 0, -1, q, rk);
    let enemy = |p: u8| if cur_white { is_black_piece(p) } else { is_white_piece(p) };
    if crate::movegen::attacked(v, pos, cur_white) {
        let s: int = if exists|t: int| 0 <= t < 64 && #[trigger] crate::magics::ray_reach(occ, pos, 1, 1, t)
            && (v.pieces[t] == q || v.pieces[t] == bsh) {
            choose|t: int| 0 <= t < 64 && #[trigger] crate::magics::ray_reach(occ, pos, 1, 1, t) && (v.pieces[t] == q || v.pieces[t] == bsh)
        } else if exists|t: int| 0 <= t < 64 && #[trigger] crate::magics::ray_reach(occ, pos, 1, -1, t)
            && (v.pieces[t] == q || v.pieces[t] == bsh) {
            choose|t: int| 0 <= t < 64 && #[trigger] crate::magics::ray_reach(occ, pos, 1, -1, t) && (v.pieces[t] == q || v.pieces[t] == bsh)
        } else if exists|t: int| 0 <= t < 64 && #[trigger] crate::magics::ray_reach(occ, pos, -1, 1, t)
            && (v.pieces[t] == q || v.pieces[t] == bsh) {
            choose|t: int| 0 <= t < 64 && #[trigger] crate::magics::ray_reach(occ, pos, -1, 1, t) && (v.pieces[t] == q || v.pieces[t] == bsh)
        } else if exists|t: int| 0 <= t < 64 && #[trigger] crate::magics::ray_reach(occ, pos, -1, -1, t)
            && (v.pieces[t] == q || v.pieces[t] == bsh) {
            choose|t: int| 0 <= t < 64 && #[trigger] crate::magics::ray_reach(occ, pos, -1, -1, t) && (v.pieces[t] == q || v.pieces[t] == bsh)
        } else if exists|t: int| 0 <= t < 64 && #[trigger] crate::magics::ray_reach(occ, pos, 1, 0, t)
            && (v.pieces[t] == q || v.pieces[t] == rk) {
            choose|t: int| 0 <= t < 64 && #[trigger] crate::magics::ray_reach(occ, pos, 1, 0, t) && (v.pieces[t] == q || v.pieces[t] == rk)
        } else if exists|t: int| 0 <= t < 64 && #[trigger] crate::magics::ray_reach(occ, pos, -1, 0, t)
            && (v.pieces[t] == q || v.pieces[t] == rk) {
            choose|t: int| 0 <= t < 64 && #[trigger] crate::magics::ray_reach(occ, pos, -1, 0, t) && (v.pieces[t] == q || v.pieces[t] == rk)
        } else if exists|t: int| 0 <= t < 64 && #[trigger] crate::magics::ray_reach(occ, pos, 0, 1, t)
            && (v.pieces[t] == q || v.pieces[t] == rk) {
            choose|t: int| 0 <= t < 64 && #[trigger] crate::magics::ray_reach(occ, pos, 0, 1, t) && (v.pieces[t] == q || v.pieces[t] == rk)
        } else if exists|t: int| 0 <= t < 64 && #[trigger] crate::magics::ray_reach(occ, pos, 0, -1, t)
            && (v.pieces[t] == q || v.pieces[t] == rk) {
            choose|t: int| 0 <= t < 64 && #[trigger] crate::magics::ray_reach(occ, pos, 0, -1, t) && (v.pieces[t] == q || v.pieces[t] == rk)
        } else if exists|t: int| 0 <= t < 64 && #[trigger] knight_step(pos, t) && v.pieces[t] == ec + 2 {
            choose|t: int| 0 <= t < 64 && #[trigger] knight_step(pos, t) && v.pieces[t] == ec + 2
        } else if exists|t: int| 0 <= t < 64 && #[trigger] king_step(pos, t) && v.pieces[t] == ec + 6 {
            choose|t: int| 0 <= t < 64 && #[trigger] king_step(pos, t) && v.pieces[t] == ec + 6
        } else {
            choose|t: int| 0 <= t < 64 && #[trigger] pawn_step(cur_white, pos, t) && v.pieces[t] == ec + 1
        };
        assert(attacker_at(v, pos, occ, s) && enemy(v.pieces[s]));
    }
    if exists|s: int| 0 <= s < 64 && #[trigger] attacker_at(v, pos, occ, s) && enemy(v.pieces[s]) {
        let s = choose|s: int| 0 <= s < 64 && #[trigger] attacker_at(v, pos, occ, s) && enemy(v.pieces[s]);
        let p = v.pieces[s];
        if knight_step(pos, s) && (p == 10 || p == 18) {
            assert(v.pieces[s] == ec + 2);
        } else if king_step(pos, s) && (p == 14 || p == 22) {
            assert(v.pieces[s] == ec + 6);
        } else if pawn_step(true, pos, s) && p == 17 {
            assert(cur_white);
        } else if pawn_step(false, pos, s) && p == 9 {
            assert(!cur_white);
        } else if bishop_reach(occ, pos, s) && (p == 11 || p == 19 || p == 13 || p == 21) {
            assert(p == q || p == bsh);
        } else {
            assert(p == q || p == rk);
        }
    }
}

/// The colour bits of a side.
pub open spec fn side_bits(side: Color) -> u8 {
    if side == Color::White {
        8
    } else {
        16
    }
}

/// The code of a piece of `side` of type `t`.
pub open spec fn type_code(side: Color, t: int) -> u8 {
    (side_bits(side) + t) as u8
}

/// `s` holds a piece of `side` that is on the board `occ` and in `atk`.
pub open spec fn mine(v: BoardView, atk: u64, occ: u64, side: Color, s: int) -> bool {
    &&& bit(atk, s)
    &&& bit(occ, s)
    &&& if side == Color::White {
        is_white_piece(v.pieces[s])
    } else {
        is_black_piece(v.pieces[s])
    }
}

/// The lowest square, from `i` on, holding one of `side`'s pieces in
/// `atk` that is the piece `code`; 64 when there is none.
pub open spec fn first_sq(v: BoardView, atk: u64, occ: u64, side: Color, code: u8, i: int) -> int
    decreases 64 - i,
{
    if i >= 64 || i < 0 {
        64
    } else if mine(v, atk, occ, side, i) && v.pieces[i] == code {
        i
    } else {
        first_sq(v, atk, occ, side, code, i + 1)
    }
}

/// The cheapest piece type, from `t` on (pawn 1 .. king 6), among
/// `side`'s pieces in `atk`; 7 when there is none.
pub open spec fn first_type(v: BoardView, atk: u64, occ: u64, side: Color, t: int) -> int
    decreases 7 - t,
{
    if t > 6 || t < 1 {
        7
    } else if first_sq(v, atk, occ, side, type_code(side, t), 0) < 64 {
        t
    } else {
        first_type(v, atk, occ, side, t + 1)
    }
}

/// The least valuable of `side`'s pieces in `atk`: its square (64 for
/// none) and code.
pub open spec fn lva(v: BoardView, atk: u64, occ: u64, side: Color) -> (int, u8) {
    let t = first_type(v, atk, occ, side, 1);
    if t > 6 {
        (64, 0u8)
    } else {
        let code = type_code(side, t);
        (first_sq(v, atk, occ, side, code, 0), code)
    }
}

/// `a` is the board of the pieces attacking `to` with `occ` occupied.
pub open spec fn is_attack_set(a: u64, v: BoardView, to: int, occ: u64) -> bool {
    forall|s: int| 0 <= s < 64 ==> #[trigger] bit(a, s) == attacker_at(v, to, occ, s)
}

/// The board of the pieces attacking `to` with `occ` occupied.
pub open spec fn attack_set(v: BoardView, to: int, occ: u64) -> u64 {
    choose|a: u64| #[trigger] is_attack_set(a, v, to, occ)
}

pub open spec fn max(a: int, b: int) -> int {
    if a >= b {
        a
    } else {
        b
    }
}

pub open spec fn min(a: int, b: int) -> int {
    if a <= b {
        a
    } else {
        b
    }
}

/// The gains after the first capture: while `side` has an attacker, it
/// takes `victim` (gain: its value less the previous gain), unless neither
/// side can profit from going on; then its attacker is the next victim.
pub open spec fn see_gains(v: BoardView, to: int, occ: u64, side: Color, victim: u8, prev: int) -> Seq<int>
    decreases occ,
{
    let (sq, p) = lva(v, attack_set(v, to, occ), occ, side);
    if sq >= 64 || sq < 0 {
        Seq::empty()
    } else {
        let g = see_value(victim) - prev;
        if max(-prev, g) < 0 {
            Seq::empty()
        } else {
            proof {
                lemma_lva_held(v, attack_set(v, to, occ), occ, side);
                lemma_clear_smaller(occ, sq as u64);
            }
            seq![g].add(see_gains(v, to, occ ^ (1u64 << (sq as u64)), side.spec_opponent(), p, g))
        }
    }
}

/// Folding the gains from the back: each side keeps the better of
/// stopping and going on.
pub open spec fn settle(s: Seq<int>, i: int) -> int
    decreases s.len() - i,
{
    if i >= s.len() - 1 || i < 0 {
        s[i]
    } else {
        min(s[i], -settle(s, i + 1))
    }
}

/// The promotion piece of a promotion flag, as a bare type code.
pub open spec fn promo_kind(f: u8) -> u8 {
    ((f & 3u8) + 2) as u8
}

/// The first gain: the captured piece, plus the promotion's gain over a pawn.
pub open spec fn see_first_gain(v: BoardView, mv: Move) -> int {
    see_value(v.pieces[mv.spec_to()]) + (if mv.spec_flag() & 4u8 != 0 {
        see_value(promo_kind(mv.spec_flag())) - see_value(1)
    } else {
        0
    })
}

/// The piece standing on the target after the first capture.
pub open spec fn see_first_victim(v: BoardView, mv: Move) -> u8 {
    if mv.spec_flag() & 4u8 != 0 {
        promo_kind(mv.spec_flag())
    } else {
        v.pieces[mv.spec_from()]
    }
}

/// The exchange value of `mv` on the board `v` whose occupied squares are
/// `occ`: 100 for en passant, otherwise the settled gain sequence.
pub open spec fn see_spec(v: BoardView, mv: Move, occ: u64) -> int {
    if mv.spec_flag() == 10 {
        100
    } else {
        let g0 = see_first_gain(v, mv);
        let gains = seq![g0].add(
            see_gains(v, mv.spec_to(), occ ^ (1u64 << (mv.spec_from() as u64)), v.side.spec_opponent(), see_first_victim(v, mv), g0),
        );
        settle(gains, 0)
    }
}

/// The exchange never wins more than the first capture takes: the value
/// of a capture (other than en passant) is at most its first gain.
pub proof fn lemma_see_at_most_first_gain(v: BoardView, mv: Move, occ: u64)
    requires
        mv.spec_flag() != 10,
    ensures
        see_spec(v, mv, occ) <= see_first_gain(v, mv),
{
    let g0 = see_first_gain(v, mv);
    let gains = seq![g0].add(
        see_gains(v, mv.spec_to(), occ ^ (1u64 << (mv.spec_from() as u64)), v.side.spec_opponent(), see_first_victim(v, mv), g0),
    );
    assert(gains[0] == g0);
    assert(gains.len() >= 1);
}

pub proof fn lemma_clear_smaller(occ: u64, sq: u64)
    requires
        sq < 64,
        bit(occ, sq as int),
    ensures
        occ ^ (1u64 << sq) < occ,
{
    assert(((occ >> sq) & 1u64 == 1u64) ==> occ ^ (1u64 << sq) < occ) by (bit_vector)
        requires
            sq < 64,
    ;
}

pub proof fn lemma_first_sq(v: BoardView, atk: u64, occ: u64, side: Color, code: u8, i: int)
    requires
        0 <= i <= 64,
    ensures
        i <= first_sq(v, atk, occ, side, code, i) <= 64,
        first_sq(v, atk, occ, side, code, i) < 64 ==> mine(v, atk, occ, side, first_sq(v, atk, occ, side, code, i))
            && v.pieces[first_sq(v, atk, occ, side, code, i)] == code,
        forall|j: int| i <= j < first_sq(v, atk, occ, side, code, i) ==> !(#[trigger] mine(v, atk, occ, side, j) && v.pieces[j] == code),
    decreases 64 - i,
{
    if i < 64 {
        lemma_first_sq(v, atk, occ, side, code, i + 1);
    }
}

pub proof fn lemma_first_type(v: BoardView, atk: u64, occ: u64, side: Color, t: int)
    requires
        1 <= t <= 7,
    ensures
        t <= first_type(v, atk, occ, side, t) <= 7,
        first_type(v, atk, occ, side, t) <= 6 ==> first_sq(v, atk, occ, side, type_code(side, first_type(v, atk, occ, side, t)), 0) < 64,
        forall|k: int| t <= k < first_type(v, atk, occ, side, t) ==> #[trigger] first_sq(v, atk, occ, side, type_code(side, k), 0) == 64,
    decreases 7 - t,
{
    if t <= 6 {
        lemma_first_sq(v, atk, occ, side, type_code(side, t), 0);
        lemma_first_type(v, atk, occ, side, t + 1);
    }
}

/// The least valuable attacker stands on a held square of the board.
pub proof fn lemma_lva_held(v: BoardView, atk: u64, occ: u64, side: Color)
    ensures
        lva(v, atk, occ, side).0 < 64 ==> 0 <= lva(v, atk, occ, side).0 && bit(occ, lva(v, atk, occ, side).0)
            && mine(v, atk, occ, side, lva(v, atk, occ, side).0)
            && v.pieces[lva(v, atk, occ, side).0] == lva(v, atk, occ, side).1,
{
    lemma_first_type(v, atk, occ, side, 1);
    let t = first_type(v, atk, occ, side, 1);
    if t <= 6 {
        lemma_first_sq(v, atk, occ, side, type_code(side, t), 0);
    }
}

/// The exchange value of a piece code.
pub fn get_see_value(piece: PieceInfo) -> (r: i32)
    requires
        piece == 0 || piece & 7u8 != 0,
    ensures
        r == see_value(piece),
        0 <= r <= 10_000,
{
    if piece == Piece::NONE {
        return 0;
    }
    let idx = Piece::to_idx(piece) % 6;
    if idx == 0 {
        100
    } else if idx == 1 {
        320
    } else if idx == 2 {
        330
    } else if idx == 3 {
        500
    } else if idx == 4 {
        900
    } else {
        10_000
    }
}

impl Board {
    /// The board of the squares holding the piece `code`.
    fn piece_bb(&self, code: u8) -> (r: u64)
        requires
            self.wf(),
            is_piece(code),
        ensures
            forall|s: int| 0 <= s < 64 ==> #[trigger] bit(r, s) == (self@.pieces[s] == code),
    {
        proof {
            lemma_piece_code(code);
        }
        self.bb(code)
    }

    /// The pieces of both sides attacking `to_pos`, counting only the
    /// squares of `all_occ` as occupied.
    pub fn attacks_to(&self, to_pos: usize, all_occ: u64) -> (r: u64)
        requires
            self.wf(),
            to_pos < 64,
        ensures
            forall|s: int| 0 <= s < 64 ==> #[trigger] bit(r, s) == attacker_at(self@, to_pos as int, all_occ, s),
    {
        let white = Piece::WHITE;
        let black = Piece::BLACK;
        let wb = self.piece_bb(white + Piece::BISHOP);
        let bbi = self.piece_bb(black + Piece::BISHOP);
        let wq = self.piece_bb(white + Piece::QUEEN);
        let bq = self.piece_bb(black + Piece::QUEEN);
        let wr = self.piece_bb(white + Piece::ROOK);
        let br = self.piece_bb(black + Piece::ROOK);
        let wn = self.piece_bb(white + Piece::KNIGHT);
        let bn = self.piece_bb(black + Piece::KNIGHT);
        let wk = self.piece_bb(white + Piece::KING);
        let bk = self.piece_bb(black + Piece::KING);
        let wp = self.piece_bb(white + Piece::PAWN);
        let bp = self.piece_bb(black + Piece::PAWN);
        let diag_atks = get_bishop_move_bits(to_pos, all_occ);
        let diag_pieces = wb | bbi | wq | bq;
        let a1 = diag_atks & diag_pieces & all_occ;
        let straight_atks = get_rook_move_bits(to_pos, all_occ);
        let straight_pieces = wr | br | wq | bq;
        let a2 = straight_atks & straight_pieces & all_occ;
        let na = knight_attacks(to_pos);
        let knights = wn | bn;
        let a3 = na & knights & all_occ;
        let ka = king_attacks(to_pos);
        let kings = wk | bk;
        let a4 = ka & kings & all_occ;
        let wpa = pawn_attacks(true, to_pos);
        let a5 = wpa & bp & all_occ;
        let bpa = pawn_attacks(false, to_pos);
        let a6 = bpa & wp & all_occ;
        let r = a1 | a2 | a3 | a4 | a5 | a6;
        proof {
            assert forall|s: int| 0 <= s < 64 implies #[trigger] bit(r, s) == attacker_at(self@, to_pos as int, all_occ, s) by {
                let j = s as u64;
                lemma_bit_ops(a1, a2, 0, j);
                lemma_bit_ops(a1 | a2, a3, 0, j);
                lemma_bit_ops(a1 | a2 | a3, a4, 0, j);
                lemma_bit_ops(a1 | a2 | a3 | a4, a5, 0, j);
                lemma_bit_ops(a1 | a2 | a3 | a4 | a5, a6, 0, j);
                lemma_bit_ops(diag_atks & diag_pieces, all_occ, 0, j);
                lemma_bit_ops(diag_atks, diag_pieces, 0, j);
                lemma_bit_ops(wb, bbi, 0, j);
                lemma_bit_ops(wb | bbi, wq, 0, j);
                lemma_bit_ops(wb | bbi | wq, bq, 0, j);
                lemma_bit_ops(straight_atks & straight_pieces, all_occ, 0, j);
                lemma_bit_ops(straight_atks, straight_pieces, 0, j);
                lemma_bit_ops(wr, br, 0, j);
                lemma_bit_ops(wr | br, wq, 0, j);
                lemma_bit_ops(wr | br | wq, bq, 0, j);
                lemma_bit_ops(na & knights, all_occ, 0, j);
                lemma_bit_ops(na, knights, 0, j);
                lemma_bit_ops(wn, bn, 0, j);
                lemma_bit_ops(ka & kings, all_occ, 0, j);
                lemma_bit_ops(ka, kings, 0, j);
                lemma_bit_ops(wk, bk, 0, j);
                lemma_bit_ops(wpa & bp, all_occ, 0, j);
                lemma_bit_ops(wpa, bp, 0, j);
                lemma_bit_ops(bpa & wp, all_occ, 0, j);
                lemma_bit_ops(bpa, wp, 0, j);
            }
        }
        r
    }
}

/// A square with the property and none below it is the first.
proof fn lemma_first_sq_is(v: BoardView, atk: u64, occ: u64, side: Color, code: u8, sq: int)
    requires
        0 <= sq < 64,
        mine(v, atk, occ, side, sq) && v.pieces[sq] == code,
        forall|j: int| 0 <= j < sq ==> !(#[trigger] mine(v, atk, occ, side, j) && v.pieces[j] == code),
    ensures
        first_sq(v, atk, occ, side, code, 0) == sq,
{
    lemma_first_sq(v, atk, occ, side, code, 0);
}

/// Two boards with the same squares are the same attack set.
proof fn lemma_attack_set_is(a: u64, v: BoardView, to: int, occ: u64)
    requires
        is_attack_set(a, v, to, occ),
    ensures
        attack_set(v, to, occ) == a,
{
    let c = attack_set(v, to, occ);
    assert(is_attack_set(c, v, to, occ));
    assert forall|s: int| 0 <= s < 64 implies #[trigger] bit(c, s) == bit(a, s) by {
        assert(bit(c, s) == attacker_at(v, to, occ, s));
        assert(bit(a, s) == attacker_at(v, to, occ, s));
    }
    crate::bits::lemma_bits_ext(c, a);
}

/// Bounds on the gains: the first is within 10,800, each later one within
/// 10,000 more than the one before.
pub open spec fn gains_bounded(g: Seq<int>) -> bool {
    forall|i: int| 0 <= i < g.len() ==> -(10_800 + 10_000 * i) <= #[trigger] g[i] <= 10_800 + 10_000 * i
}

impl Board {
    /// The least valuable piece of `side` among `attackers` still on `occ`:
    /// the board of its square and its code; `(0, 0)` when there is none.
    pub fn get_least_valuable_piece(&self, attackers: u64, occ: u64, side: Color) -> (r: (u64, PieceInfo))
        requires
            self.wf(),
        ensures
            r == (if lva(self@, attackers, occ, side).0 < 64 {
                (1u64 << (lva(self@, attackers, occ, side).0 as u64), lva(self@, attackers, occ, side).1)
            } else {
                (0u64, 0u8)
            }),
    {
        let ghost v = self@;
        let color_mask: u8 = if side == Color::White {
            Piece::WHITE
        } else {
            Piece::BLACK
        };
        let side_occ = self.occ(&side);
        let my_attackers = attackers & occ & side_occ;
        proof {
            assert forall|s: int| 0 <= s < 64 implies #[trigger] bit(my_attackers, s) == (bit(attackers, s) && bit(occ, s)
                && bit(side_occ, s)) by {
                lemma_bit_ops(attackers & occ, side_occ, 0, s as u64);
                lemma_bit_ops(attackers, occ, 0, s as u64);
            }
        }
        let mut t: u8 = 1;
        while t <= 6
            invariant
                1 <= t <= 7,
                self.wf(),
                v == self@,
                color_mask == side_bits(side),
                forall|s: int| 0 <= s < 64 ==> #[trigger] bit(my_attackers, s) == mine(v, attackers, occ, side, s),
                first_type(v, attackers, occ, side, 1) == first_type(v, attackers, occ, side, t as int),
            decreases 7 - t,
        {
            let code = color_mask + t;
            assert(code == type_code(side, t as int));
            let pieces_of = self.piece_bb(code);
            let subset = my_attackers & pieces_of;
            proof {
                assert forall|s: int| 0 <= s < 64 implies #[trigger] bit(subset, s) == (mine(v, attackers, occ, side, s)
                    && v.pieces[s] == code) by {
                    lemma_bit_ops(my_attackers, pieces_of, 0, s as u64);
                }
            }
            if subset != 0 {
                let mut tmp = subset;
                let sq = pop_lsb(&mut tmp).unwrap();
                proof {
                    assert forall|j: int| 0 <= j < sq implies !(#[trigger] mine(v, attackers, occ, side, j) && v.pieces[j] == code) by {
                        assert(!bit(subset, j));
                    }
                    lemma_first_sq_is(v, attackers, occ, side, code, sq as int);
                    assert(first_type(v, attackers, occ, side, t as int) == t);
                }
                return (mask(sq), code);
            }
            proof {
                crate::bits::lemma_zero_iff_no_bits(subset);
                lemma_first_sq(v, attackers, occ, side, code, 0);
                if first_sq(v, attackers, occ, side, code, 0) < 64 {
                    assert(bit(subset, first_sq(v, attackers, occ, side, code, 0)));
                }
            }
            t += 1;
        }
        (0, Piece::NONE)
    }

    /// The static exchange value of `mov`: 100 for en passant; otherwise
    /// the settled gains of the capture sequence on its target.
    pub fn see(&self, mov: &Move) -> (r: i32)
        requires
            self.wf(),
        ensures
            forall|occ: u64| (forall|s: int| 0 <= s < 64 ==> #[trigger] bit(occ, s) == (self@.pieces[s] != 0))
                ==> r == see_spec(self@, *mov, occ),
            -700_000 <= r <= 700_000,
    {
        let ghost v = self@;
        proof {
            self.lemma_cells_pub();
        }
        if mov.flag().0 == MoveFlag::EN_PASSANT {
            return 100;
        }
        let from = mov.from();
        let to = mov.to();
        let target = self.piece_on(to);
        let mut cur_victim = self.piece_on(from);
        proof {
            assert(cell_ok(v.pieces[to as int]));
            assert(cell_ok(v.pieces[from as int]));
            if target != 0 {
                lemma_piece_code(target);
            }
            if cur_victim != 0 {
                lemma_piece_code(cur_victim);
            }
        }
        let mut g0 = get_see_value(target);
        if mov.flag().is_promo() {
            let promo_piece = mov.flag().get_promo_piece();
            assert(1u8 & 7u8 == 1u8 && 1u8 & 16u8 == 0u8) by (bit_vector);
            g0 = g0 + get_see_value(promo_piece) - get_see_value(Piece::PAWN);
            cur_victim = promo_piece;
        }
        let all = self.all_occ();
        let mut occ = all ^ mask(from);
        let mut side = self.side_to_move().opponent();
        let ghost full = seq![g0 as int].add(see_gains(v, to as int, occ, side, cur_victim, g0 as int));
        let mut gains: Vec<i32> = Vec::new();
        gains.push(g0);
        let ghost mut gs: Seq<int> = seq![g0 as int];
        proof {
            lemma_count_range(occ, 64);
            assert(gs.add(see_gains(v, to as int, occ, side, cur_victim, gs.last())) =~= full);
            assert(-10_800 <= g0 <= 10_800);
            assert(gs[0] == g0 as int);
            assert(gains_bounded(gs));
        }
        loop
            invariant
                self.wf(),
                v == self@,
                to < 64,
                gs.len() >= 1,
                gains@.len() == gs.len(),
                forall|i: int| 0 <= i < gs.len() ==> #[trigger] gains@[i] as int == gs[i],
                gains_bounded(gs),
                gs.len() + popcount(occ) <= 65,
                full == gs.add(see_gains(v, to as int, occ, side, cur_victim, gs.last())),
                cur_victim == 0 || cur_victim & 7u8 != 0,
                cur_victim <= 22,
            ensures
                gs.len() >= 1,
                gains@.len() == gs.len(),
                forall|i: int| 0 <= i < gs.len() ==> #[trigger] gains@[i] as int == gs[i],
                gains_bounded(gs),
                gs.len() <= 65,
                full == gs,
            decreases occ,
        {
            let attackers = self.attacks_to(to, occ);
            proof {
                lemma_attack_set_is(attackers, v, to as int, occ);
                lemma_count_range(occ, 64);
            }
            let (from_set, piece) = self.get_least_valuable_piece(attackers, occ, side);
            let ghost l = lva(v, attackers, occ, side);
            if from_set == 0 {
                proof {
                    if l.0 < 64 {
                        lemma_lva_held(v, attackers, occ, side);
                        let q = l.0 as u64;
                        assert(1u64 << q != 0) by (bit_vector)
                            requires
                                q < 64,
                        ;
                    }
                    assert(see_gains(v, to as int, occ, side, cur_victim, gs.last()) =~= Seq::<int>::empty());
                    assert(full =~= gs);
                }
                break;
            }
            proof {
                lemma_lva_held(v, attackers, occ, side);
                let q = l.0 as u64;
                assert(1u64 << q != 0) by (bit_vector)
                    requires
                        q < 64,
                ;
                crate::bits::lemma_clear_set(occ, q, q);
                assert forall|k: int| 0 <= k < 64 && k != l.0 implies #[trigger] bit(occ, k) == bit(occ ^ (1u64 << q), k) by {
                    crate::bits::lemma_clear_set(occ, q, k as u64);
                }
                lemma_count_clear(occ, occ ^ (1u64 << q), l.0, 64);
                lemma_count_range(occ ^ (1u64 << q), 64);
            }
            let prev = gains[gains.len() - 1];
            proof {
                assert(prev as int == gs.last());
                assert(gs.len() <= 64);
                assert(-(10_800 + 10_000 * (gs.len() - 1)) <= gs[gs.len() - 1] <= 10_800 + 10_000 * (gs.len() - 1));
            }
            let g = get_see_value(cur_victim) - prev;
            let neg_prev = -prev;
            let best = if neg_prev >= g {
                neg_prev
            } else {
                g
            };
            if best < 0 {
                proof {
                    assert(see_gains(v, to as int, occ, side, cur_victim, gs.last()) =~= Seq::<int>::empty());
                    assert(full =~= gs);
                }
                break;
            }
            proof {
                lemma_lva_held(v, attackers, occ, side);
                lemma_piece_code(piece);
            }
            let ghost old_occ = occ;
            let ghost old_gs = gs;
            let ghost old_victim = cur_victim;
            let ghost old_side = side;
            let ghost old_gains = gains@;
            gains.push(g);
            proof {
                gs = gs.push(g as int);
            }
            cur_victim = piece;
            occ = occ ^ from_set;
            side = side.opponent();
            proof {
                let sq = l.0;
                let q = sq as u64;
                lemma_clear_smaller(old_occ, q);
                crate::bits::lemma_clear_set(old_occ, q, q);
                assert forall|k: int| 0 <= k < 64 && k != sq implies #[trigger] bit(old_occ, k) == bit(occ, k) by {
                    crate::bits::lemma_clear_set(old_occ, q, k as u64);
                }
                lemma_count_clear(old_occ, occ, sq, 64);
                assert(see_gains(v, to as int, old_occ, old_side, old_victim, old_gs.last()) == seq![g as int].add(
                    see_gains(v, to as int, occ, side, cur_victim, g as int),
                ));
                assert(gs.last() == g as int);
                assert(old_gs.add(seq![g as int].add(see_gains(v, to as int, occ, side, cur_victim, g as int))) =~= gs.add(
                    see_gains(v, to as int, occ, side, cur_victim, gs.last()),
                ));
                assert(gains@ == old_gains.push(g));
                assert forall|i: int| 0 <= i < gs.len() implies #[trigger] gains@[i] as int == gs[i] by {
                    if i < old_gs.len() {
                        assert(gains@[i] == old_gains[i]);
                    }
                }
                assert(gains_bounded(gs)) by {
                    assert forall|i: int| 0 <= i < gs.len() implies -(10_800 + 10_000 * i) <= #[trigger] gs[i] <= 10_800 + 10_000 * i by {
                        if i < old_gs.len() {
                            assert(gs[i] == old_gs[i]);
                        }
                    }
                }
            }
        }
        // Backward pass: settle from the last gain to the first.
        let mut d = gains.len() - 1;
        let ghost full_gs = gs;
        while d > 0
            invariant
                0 <= d < gs.len(),
                gains@.len() == gs.len(),
                gs.len() <= 65,
                gains_bounded(gs),
                forall|i: int| 0 <= i < d ==> #[trigger] gains@[i] as int == gs[i],
                gains@[d as int] as int == settle(gs, d as int),
                -(10_800 + 10_000 * 64) <= settle(gs, d as int) <= 10_800 + 10_000 * 64,
            decreases d,
        {
            d -= 1;
            let a = gains[d];
            let b = gains[d + 1];
            let m = if -a >= b {
                -a
            } else {
                b
            };
            gains.set(d, -m);
        }
        proof {
            assert forall|o: u64| (forall|s: int| 0 <= s < 64 ==> #[trigger] bit(o, s) == (v.pieces[s] != 0))
                implies gains@[0] as int == see_spec(v, *mov, o) by {
                assert forall|s: int| 0 <= s < 64 implies #[trigger] bit(o, s) == bit(all, s) by {}
                crate::bits::lemma_bits_ext(o, all);
            }
        }
        gains[0]
    }
}

} // verus!
