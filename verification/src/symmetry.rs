//! The evaluation seen from the other side: swapping the colours of every
//! piece and mirroring the ranks (a1 <-> a8) turns the mobility score into
//! its negation.
use vstd::prelude::*;
use crate::attacks::{knight_step, pawn_step, steps};
use crate::bits::bit;
use crate::board::{BoardView, is_black_piece, is_white_piece};
use crate::attacks::king_step;
use crate::board::cell_ok;
use crate::engine::tdiv;
use crate::evaluation::{hits, how_many, mob_term, mobility_spec, pawn_code, pawn_hits, safe_for, safe_hits, sum_to, holds};
use crate::evaluation::{
    attack_val, attacker_term, attacker_type, danger, file_of, file_pen, game_phase, in_zone, king_safety_spec,
    pawn_on_file, phase_term, shield, value_term, zone_hits, GAME_PHASE_VAL,
};
use crate::evaluation::{
    black_pawn_term, doubled_term, file_count, has_adj, has_ahead, on_file, pawn_struct_spec, rank_of, white_pawn_term,
    adj_file, ahead,
};
use crate::items::piece_index;
use crate::movegen::{find_from, king_square};
use crate::magics::{bishop_reach, ray_reach, ray_stop, rook_reach};
use crate::movegen::{on_ray, ray_sq};

verus! {

/// The square on the same file and the mirrored rank.
pub open spec fn mir(s: int) -> int {
    (7 - s / 8) * 8 + s % 8
}

/// The same piece in the other colour; empty stays empty.
pub open spec fn swap_code(p: u8) -> u8 {
    if is_white_piece(p) {
        (p + 8) as u8
    } else if is_black_piece(p) {
        (p - 8) as u8
    } else {
        p
    }
}

/// `w` is `v` with every piece's colour swapped and the ranks mirrored.
pub open spec fn colour_flipped(v: BoardView, w: BoardView) -> bool {
    &&& v.pieces.len() == 64
    &&& w.pieces.len() == 64
    &&& forall|s: int| 0 <= s < 64 ==> #[trigger] w.pieces[s] == swap_code(v.pieces[mir(s)])
}

/// `occ2` is `occ` with the ranks mirrored.
pub open spec fn occ_flipped(occ: u64, occ2: u64) -> bool {
    forall|t: int| 0 <= t < 64 ==> #[trigger] bit(occ2, t) == bit(occ, mir(t))
}

proof fn lemma_mir(s: int)
    requires
        0 <= s < 64,
    ensures
        0 <= mir(s) < 64,
        mir(s) / 8 == 7 - s / 8,
        mir(s) % 8 == s % 8,
        mir(mir(s)) == s,
{
    vstd::arithmetic::div_mod::lemma_fundamental_div_mod_converse(mir(s), 8, 7 - s / 8, s % 8);
}

/// Two squares with the same rank and file are the same square.
proof fn lemma_square_eq(rank: int, file: int)
    requires
        0 <= rank < 8,
        0 <= file < 8,
    ensures
        (rank * 8 + file) / 8 == rank,
        (rank * 8 + file) % 8 == file,
        mir(rank * 8 + file) == (7 - rank) * 8 + file,
{
    vstd::arithmetic::div_mod::lemma_fundamental_div_mod_converse(rank * 8 + file, 8, rank, file);
}

proof fn lemma_steps_mir(sq: int, dr: int, df: int, t: int)
    requires
        0 <= sq < 64,
        0 <= t < 64,
    ensures
        steps(mir(sq), -dr, df, mir(t)) == steps(sq, dr, df, t),
{
    lemma_mir(sq);
    lemma_mir(t);
    let rank = sq / 8 + dr;
    let file = sq % 8 + df;
    if 0 <= rank < 8 && 0 <= file < 8 {
        lemma_square_eq(rank, file);
        lemma_mir(rank * 8 + file);
        assert(mir(sq) / 8 + -dr == 7 - rank);
        if t == rank * 8 + file {
            assert(mir(t) == (7 - rank) * 8 + file);
        }
        if mir(t) == (7 - rank) * 8 + file {
            lemma_square_eq(7 - rank, file);
            assert(mir(mir(t)) == rank * 8 + file);
        }
    }
}

proof fn lemma_ray_mir(f: int, dr: int, df: int, k: int)
    requires
        0 <= f < 64,
    ensures
        on_ray(mir(f), -dr, df, k) == on_ray(f, dr, df, k),
        on_ray(f, dr, df, k) ==> 0 <= ray_sq(f, dr, df, k) < 64 && ray_sq(mir(f), -dr, df, k) == mir(
            ray_sq(f, dr, df, k),
        ),
{
    lemma_mir(f);
    assert(k * (-dr) == -(k * dr)) by (nonlinear_arith);
    let rank = f / 8 + k * dr;
    let file = f % 8 + k * df;
    if 0 <= rank < 8 && 0 <= file < 8 {
        lemma_square_eq(rank, file);
    }
}

/// A ray stops at the mirrored place on the mirrored blockers.
proof fn lemma_stop_mir(occ: u64, occ2: u64, f: int, dr: int, df: int, n: int)
    requires
        0 <= f < 64,
        occ_flipped(occ, occ2),
    ensures
        ray_stop(occ2, mir(f), -dr, df, n) == ray_stop(occ, f, dr, df, n),
    decreases 8 - n,
{
    lemma_ray_mir(f, dr, df, n + 1);
    if n >= 8 || n < 0 || !on_ray(f, dr, df, n + 1) {
    } else {
        let t = ray_sq(f, dr, df, n + 1);
        lemma_mir(t);
        assert(bit(occ2, mir(t)) == bit(occ, mir(mir(t))));
        lemma_stop_mir(occ, occ2, f, dr, df, n + 1);
    }
}

/// Every square up to a ray's stop is on the board.
proof fn lemma_stop_on_ray(occ: u64, f: int, dr: int, df: int, n: int)
    requires
        0 <= n,
    ensures
        n <= ray_stop(occ, f, dr, df, n),
        forall|k: int| n < k <= ray_stop(occ, f, dr, df, n) ==> #[trigger] on_ray(f, dr, df, k),
    decreases 8 - n,
{
    if n >= 8 || n < 0 || !on_ray(f, dr, df, n + 1) {
    } else if bit(occ, ray_sq(f, dr, df, n + 1)) {
    } else {
        lemma_stop_on_ray(occ, f, dr, df, n + 1);
    }
}

proof fn lemma_reach_mir(occ: u64, occ2: u64, f: int, dr: int, df: int, t: int)
    requires
        0 <= f < 64,
        0 <= t < 64,
        occ_flipped(occ, occ2),
    ensures
        ray_reach(occ2, mir(f), -dr, df, mir(t)) == ray_reach(occ, f, dr, df, t),
{
    lemma_mir(f);
    lemma_mir(t);
    lemma_stop_mir(occ, occ2, f, dr, df, 0);
    lemma_stop_on_ray(occ, f, dr, df, 0);
    lemma_stop_on_ray(occ2, mir(f), -dr, df, 0);
    if ray_reach(occ, f, dr, df, t) {
        let k = choose|k: int| 1 <= k <= ray_stop(occ, f, dr, df, 0) && t == #[trigger] ray_sq(f, dr, df, k);
        assert(on_ray(f, dr, df, k));
        lemma_ray_mir(f, dr, df, k);
        assert(mir(t) == ray_sq(mir(f), -dr, df, k));
    }
    if ray_reach(occ2, mir(f), -dr, df, mir(t)) {
        let k = choose|k: int| 1 <= k <= ray_stop(occ2, mir(f), -dr, df, 0) && mir(t) == #[trigger] ray_sq(
            mir(f),
            -dr,
            df,
            k,
        );
        assert(on_ray(mir(f), -dr, df, k));
        lemma_ray_mir(f, dr, df, k);
        let u = ray_sq(f, dr, df, k);
        lemma_mir(u);
        assert(mir(u) == mir(t));
        assert(mir(mir(u)) == mir(mir(t)));
        assert(t == ray_sq(f, dr, df, k));
    }
}

/// Each piece type attacks the mirrored squares from the mirrored square
/// on the mirrored blockers.
pub proof fn lemma_hits_mir(ty: int, occ: u64, occ2: u64, s: int, t: int)
    requires
        0 <= s < 64,
        0 <= t < 64,
        occ_flipped(occ, occ2),
    ensures
        hits(ty, occ2, mir(s), mir(t)) == hits(ty, occ, s, t),
{
    lemma_reach_mir(occ, occ2, s, 1, 0, t);
    lemma_reach_mir(occ, occ2, s, -1, 0, t);
    lemma_reach_mir(occ, occ2, s, 0, 1, t);
    lemma_reach_mir(occ, occ2, s, 0, -1, t);
    lemma_reach_mir(occ, occ2, s, 1, 1, t);
    lemma_reach_mir(occ, occ2, s, 1, -1, t);
    lemma_reach_mir(occ, occ2, s, -1, 1, t);
    lemma_reach_mir(occ, occ2, s, -1, -1, t);
    assert(rook_reach(occ2, mir(s), mir(t)) == rook_reach(occ, s, t));
    assert(bishop_reach(occ2, mir(s), mir(t)) == bishop_reach(occ, s, t));
    lemma_steps_mir(s, 2, 1, t);
    lemma_steps_mir(s, 2, -1, t);
    lemma_steps_mir(s, -2, 1, t);
    lemma_steps_mir(s, -2, -1, t);
    lemma_steps_mir(s, 1, 2, t);
    lemma_steps_mir(s, 1, -2, t);
    lemma_steps_mir(s, -1, 2, t);
    lemma_steps_mir(s, -1, -2, t);
    assert(knight_step(mir(s), mir(t)) == knight_step(s, t));
}

/// A sum splits at `a`.
proof fn lemma_sum_split(f: spec_fn(int) -> int, a: int, m: int)
    requires
        0 <= a,
        0 <= m,
    ensures
        sum_to(f, a + m) == sum_to(f, a) + sum_to(|c: int| f(a + c), m),
    decreases m,
{
    if m > 0 {
        lemma_sum_split(f, a, m - 1);
    }
}

/// Sums of functions that agree on the range agree.
proof fn lemma_sum_ext(f: spec_fn(int) -> int, g: spec_fn(int) -> int, n: int)
    requires
        forall|c: int| 0 <= c < n ==> #[trigger] f(c) == g(c),
    ensures
        sum_to(f, n) == sum_to(g, n),
    decreases n,
{
    if n > 0 {
        lemma_sum_ext(f, g, n - 1);
    }
}

/// The sum of the negated terms is the negated sum.
proof fn lemma_sum_neg(f: spec_fn(int) -> int, g: spec_fn(int) -> int, n: int)
    requires
        forall|c: int| 0 <= c < n ==> #[trigger] g(c) == -f(c),
    ensures
        sum_to(g, n) == -sum_to(f, n),
    decreases n,
{
    if n > 0 {
        lemma_sum_neg(f, g, n - 1);
    }
}

/// The sum of one rank's squares.
spec fn rank_sum(f: spec_fn(int) -> int, r: int) -> int {
    sum_to(|c: int| f(r * 8 + c), 8)
}

proof fn lemma_by_ranks(f: spec_fn(int) -> int)
    ensures
        sum_to(f, 64) == rank_sum(f, 0) + rank_sum(f, 1) + rank_sum(f, 2) + rank_sum(f, 3) + rank_sum(f, 4)
            + rank_sum(f, 5) + rank_sum(f, 6) + rank_sum(f, 7),
{
    lemma_sum_split(f, 0, 8);
    lemma_sum_split(f, 8, 8);
    lemma_sum_split(f, 16, 8);
    lemma_sum_split(f, 24, 8);
    lemma_sum_split(f, 32, 8);
    lemma_sum_split(f, 40, 8);
    lemma_sum_split(f, 48, 8);
    lemma_sum_split(f, 56, 8);
    assert(sum_to(f, 0) == 0);
}

proof fn lemma_rank_mir(f: spec_fn(int) -> int, g: spec_fn(int) -> int, r: int)
    requires
        0 <= r < 8,
        forall|t: int| 0 <= t < 64 ==> #[trigger] g(t) == f(mir(t)),
    ensures
        rank_sum(g, r) == rank_sum(f, 7 - r),
{
    let a = |c: int| g(r * 8 + c);
    let b = |c: int| f((7 - r) * 8 + c);
    assert forall|c: int| 0 <= c < 8 implies #[trigger] a(c) == b(c) by {
        lemma_square_eq(r, c);
        assert(g(r * 8 + c) == f(mir(r * 8 + c)));
    }
    lemma_sum_ext(a, b, 8);
}

/// Summing over the mirrored squares gives the same sum.
proof fn lemma_sum_mir(f: spec_fn(int) -> int, g: spec_fn(int) -> int)
    requires
        forall|t: int| 0 <= t < 64 ==> #[trigger] g(t) == f(mir(t)),
    ensures
        sum_to(g, 64) == sum_to(f, 64),
{
    lemma_by_ranks(f);
    lemma_by_ranks(g);
    lemma_rank_mir(f, g, 0);
    lemma_rank_mir(f, g, 1);
    lemma_rank_mir(f, g, 2);
    lemma_rank_mir(f, g, 3);
    lemma_rank_mir(f, g, 4);
    lemma_rank_mir(f, g, 5);
    lemma_rank_mir(f, g, 6);
    lemma_rank_mir(f, g, 7);
}

proof fn lemma_how_many_sum(f: spec_fn(int) -> bool, n: int)
    ensures
        how_many(f, n) == sum_to(|t: int| if f(t) { 1int } else { 0int }, n),
    decreases n,
{
    if n > 0 {
        lemma_how_many_sum(f, n - 1);
    }
}

/// Counting over the mirrored squares gives the same count.
proof fn lemma_count_mir(f: spec_fn(int) -> bool, g: spec_fn(int) -> bool)
    requires
        forall|t: int| 0 <= t < 64 ==> #[trigger] g(t) == f(mir(t)),
    ensures
        how_many(g, 64) == how_many(f, 64),
{
    lemma_how_many_sum(f, 64);
    lemma_how_many_sum(g, 64);
    let fi = |t: int| if f(t) { 1int } else { 0int };
    let gi = |t: int| if g(t) { 1int } else { 0int };
    assert forall|t: int| 0 <= t < 64 implies #[trigger] gi(t) == fi(mir(t)) by {
        assert(g(t) == f(mir(t)));
    }
    lemma_sum_mir(fi, gi);
}

proof fn lemma_pawn_hits_mir(v: BoardView, w: BoardView, white: bool, t: int)
    requires
        colour_flipped(v, w),
        0 <= t < 64,
    ensures
        pawn_hits(w, !white, mir(t)) == pawn_hits(v, white, t),
{
    lemma_mir(t);
    if pawn_hits(v, white, t) {
        let p = choose|p: int| 0 <= p < 64 && v.pieces[p] == pawn_code(white) && #[trigger] pawn_step(white, p, t);
        lemma_mir(p);
        lemma_steps_mir(p, 1, -1, t);
        lemma_steps_mir(p, 1, 1, t);
        lemma_steps_mir(p, -1, -1, t);
        lemma_steps_mir(p, -1, 1, t);
        assert(w.pieces[mir(p)] == swap_code(v.pieces[mir(mir(p))]));
        assert(pawn_step(!white, mir(p), mir(t)));
    }
    if pawn_hits(w, !white, mir(t)) {
        let bw = !white;
        let q = choose|q: int| 0 <= q < 64 && w.pieces[q] == pawn_code(bw) && #[trigger] pawn_step(bw, q, mir(t));
        lemma_mir(q);
        let p = mir(q);
        lemma_mir(p);
        assert(mir(p) == q);
        lemma_steps_mir(p, 1, -1, t);
        lemma_steps_mir(p, 1, 1, t);
        lemma_steps_mir(p, -1, -1, t);
        lemma_steps_mir(p, -1, 1, t);
        assert(w.pieces[q] == swap_code(v.pieces[p]));
        assert(v.pieces[p] == pawn_code(white));
        assert(pawn_step(white, p, t));
    }
}

proof fn lemma_safe_mir(v: BoardView, w: BoardView, white: bool, t: int)
    requires
        colour_flipped(v, w),
        0 <= t < 64,
    ensures
        safe_for(w, !white, mir(t)) == safe_for(v, white, t),
{
    lemma_mir(t);
    lemma_pawn_hits_mir(v, w, !white, t);
    assert(w.pieces[mir(t)] == swap_code(v.pieces[mir(mir(t))]));
}

proof fn lemma_safe_count_mir(v: BoardView, w: BoardView, occ: u64, occ2: u64, ty: int, white: bool, s: int)
    requires
        colour_flipped(v, w),
        occ_flipped(occ, occ2),
        0 <= s < 64,
    ensures
        how_many(safe_hits(w, occ2, ty, !white, mir(s)), 64) == how_many(safe_hits(v, occ, ty, white, s), 64),
{
    let f = safe_hits(w, occ2, ty, !white, mir(s));
    let g = safe_hits(v, occ, ty, white, s);
    assert forall|t: int| 0 <= t < 64 implies #[trigger] g(t) == f(mir(t)) by {
        lemma_hits_mir(ty, occ, occ2, s, t);
        lemma_safe_mir(v, w, white, t);
    }
    lemma_count_mir(f, g);
}

proof fn lemma_mob_term_mir(v: BoardView, w: BoardView, occ: u64, occ2: u64, s: int)
    requires
        colour_flipped(v, w),
        occ_flipped(occ, occ2),
        0 <= s < 64,
    ensures
        mob_term(w, occ2, mir(s)) == -mob_term(v, occ, s),
{
    lemma_mir(s);
    assert(w.pieces[mir(s)] == swap_code(v.pieces[mir(mir(s))]));
    lemma_safe_count_mir(v, w, occ, occ2, 2, true, s);
    lemma_safe_count_mir(v, w, occ, occ2, 3, true, s);
    lemma_safe_count_mir(v, w, occ, occ2, 4, true, s);
    lemma_safe_count_mir(v, w, occ, occ2, 2, false, s);
    lemma_safe_count_mir(v, w, occ, occ2, 3, false, s);
    lemma_safe_count_mir(v, w, occ, occ2, 4, false, s);
}

/// Seen from the other side, with every piece's colour swapped and the
/// ranks mirrored (and the blockers mirrored with them), the mobility
/// score is the negation of the original one.
pub proof fn lemma_mobility_colour_flip(v: BoardView, w: BoardView, occ: u64, occ2: u64)
    requires
        colour_flipped(v, w),
        occ_flipped(occ, occ2),
    ensures
        mobility_spec(w, occ2) == -mobility_spec(v, occ),
{
    let fw = |s: int| mob_term(w, occ2, s);
    let fv = |s: int| mob_term(v, occ, s);
    let neg = |s: int| -mob_term(v, occ, s);
    assert forall|s: int| 0 <= s < 64 implies #[trigger] neg(s) == fw(mir(s)) by {
        lemma_mob_term_mir(v, w, occ, occ2, s);
    }
    lemma_sum_mir(fw, neg);
    lemma_sum_neg(fv, neg, 64);
    assert forall|t: int| 0 <= t < 64 implies #[trigger] holds(v, 19)(t) == holds(w, 11)(mir(t)) by {
        lemma_mir(t);
        assert(w.pieces[mir(t)] == swap_code(v.pieces[mir(mir(t))]));
    }
    lemma_count_mir(holds(w, 11), holds(v, 19));
    assert forall|t: int| 0 <= t < 64 implies #[trigger] holds(v, 11)(t) == holds(w, 19)(mir(t)) by {
        lemma_mir(t);
        assert(w.pieces[mir(t)] == swap_code(v.pieces[mir(mir(t))]));
    }
    lemma_count_mir(holds(w, 19), holds(v, 11));
}

/// White's piece indices are 0..6, Black's 6..12, in the same order.
proof fn lemma_index_of(p: u8)
    requires
        is_white_piece(p) || is_black_piece(p),
    ensures
        piece_index(p) == (if is_white_piece(p) { p - 9 } else { p - 11 }),
{
    assert(p & 7u8 == (if p <= 14 { (p - 8) as u8 } else { (p - 16) as u8 }) && ((p & 16u8 != 0u8) == (p >= 17u8)))
        by (bit_vector)
        requires
            (9u8 <= p <= 14u8) || (17u8 <= p <= 22u8),
    ;
}

proof fn lemma_phase_term_mir(v: BoardView, w: BoardView, s: int)
    requires
        colour_flipped(v, w),
        forall|t: int| 0 <= t < 64 ==> cell_ok(#[trigger] v.pieces[t]),
        0 <= s < 64,
    ensures
        phase_term(w, mir(s)) == phase_term(v, s),
{
    lemma_mir(s);
    let p = v.pieces[s];
    assert(cell_ok(p));
    assert(w.pieces[mir(s)] == swap_code(v.pieces[mir(mir(s))]));
    if p != 0 {
        lemma_index_of(p);
        lemma_index_of(swap_code(p));
    }
    assert(GAME_PHASE_VAL[0] == GAME_PHASE_VAL[6] && GAME_PHASE_VAL[1] == GAME_PHASE_VAL[7] && GAME_PHASE_VAL[2]
        == GAME_PHASE_VAL[8] && GAME_PHASE_VAL[3] == GAME_PHASE_VAL[9] && GAME_PHASE_VAL[4] == GAME_PHASE_VAL[10]
        && GAME_PHASE_VAL[5] == GAME_PHASE_VAL[11]);
}

/// The search for a code finds the one square holding it.
proof fn lemma_find_only(pieces: Seq<u8>, code: u8, sq: int, i: int)
    requires
        0 <= i <= sq < 64,
        pieces[sq] == code,
        forall|j: int| i <= j < 64 && j != sq ==> pieces[j] != code,
    ensures
        find_from(pieces, code, i) == sq,
    decreases sq - i,
{
    if i < sq {
        lemma_find_only(pieces, code, sq, i + 1);
    }
}

/// What the search for a code finds holds it.
proof fn lemma_find_hit(pieces: Seq<u8>, code: u8, i: int)
    requires
        0 <= i,
    ensures
        0 <= find_from(pieces, code, i),
        find_from(pieces, code, i) < 64 ==> pieces[find_from(pieces, code, i)] == code,
    decreases 64 - i,
{
    if i < 64 && pieces[i] != code {
        lemma_find_hit(pieces, code, i + 1);
    }
}

proof fn lemma_king_mir(v: BoardView, w: BoardView, own: u8, other: u8)
    requires
        colour_flipped(v, w),
        (own == 8 && other == 16) || (own == 16 && other == 8),
        king_square(v, other) < 64,
        forall|s: int| 0 <= s < 64 && v.pieces[s] == (other + 6) as u8 ==> s == king_square(v, other),
    ensures
        king_square(w, own) == mir(king_square(v, other)),
{
    let k = king_square(v, other);
    lemma_find_hit(v.pieces, (other + 6) as u8, 0);
    lemma_mir(k);
    assert(w.pieces[mir(k)] == swap_code(v.pieces[mir(mir(k))]));
    assert forall|j: int| 0 <= j < 64 && j != mir(k) implies w.pieces[j] != (own + 6) as u8 by {
        lemma_mir(j);
        assert(w.pieces[j] == swap_code(v.pieces[mir(j)]));
        if w.pieces[j] == (own + 6) as u8 {
            assert(v.pieces[mir(j)] == (other + 6) as u8);
            assert(mir(j) == k);
            assert(mir(mir(j)) == mir(k));
        }
    }
    lemma_find_only(w.pieces, (own + 6) as u8, mir(k), 0);
}

proof fn lemma_pawn_file_mir(v: BoardView, w: BoardView, white: bool, f: int, home: bool)
    requires
        colour_flipped(v, w),
    ensures
        pawn_on_file(w, !white, f, home) == pawn_on_file(v, white, f, home),
{
    if pawn_on_file(v, white, f, home) {
        let s = choose|s: int| 0 <= s < 64 && v.pieces[s] == pawn_code(white) && #[trigger] file_of(s) == f && (home
            ==> if white {
            8 <= s < 24
        } else {
            40 <= s < 56
        });
        lemma_mir(s);
        assert(w.pieces[mir(s)] == swap_code(v.pieces[mir(mir(s))]));
        assert(file_of(mir(s)) == f);
    }
    let bw = !white;
    if pawn_on_file(w, bw, f, home) {
        let q = choose|q: int| 0 <= q < 64 && w.pieces[q] == pawn_code(bw) && #[trigger] file_of(q) == f && (home
            ==> if bw {
            8 <= q < 24
        } else {
            40 <= q < 56
        });
        lemma_mir(q);
        let s = mir(q);
        lemma_mir(s);
        assert(w.pieces[q] == swap_code(v.pieces[s]));
        assert(file_of(s) == f);
    }
}

proof fn lemma_shield_mir(v: BoardView, w: BoardView, white: bool, k: int)
    requires
        colour_flipped(v, w),
        0 <= k < 64,
    ensures
        shield(w, !white, mir(k)) == shield(v, white, k),
{
    lemma_mir(k);
    let f = file_of(k);
    lemma_pawn_file_mir(v, w, white, f - 1, false);
    lemma_pawn_file_mir(v, w, white, f - 1, true);
    lemma_pawn_file_mir(v, w, white, f, false);
    lemma_pawn_file_mir(v, w, white, f, true);
    lemma_pawn_file_mir(v, w, white, f + 1, false);
    lemma_pawn_file_mir(v, w, white, f + 1, true);
    assert(file_pen(w, !white, f - 1) == file_pen(v, white, f - 1));
    assert(file_pen(w, !white, f) == file_pen(v, white, f));
    assert(file_pen(w, !white, f + 1) == file_pen(v, white, f + 1));
}

proof fn lemma_king_step_mir(k: int, t: int)
    requires
        0 <= k < 64,
        0 <= t < 64,
    ensures
        king_step(mir(k), mir(t)) == king_step(k, t),
{
    lemma_steps_mir(k, 1, 0, t);
    lemma_steps_mir(k, -1, 0, t);
    lemma_steps_mir(k, 0, 1, t);
    lemma_steps_mir(k, 0, -1, t);
    lemma_steps_mir(k, 1, 1, t);
    lemma_steps_mir(k, 1, -1, t);
    lemma_steps_mir(k, -1, 1, t);
    lemma_steps_mir(k, -1, -1, t);
}

proof fn lemma_zone_mir(white: bool, k: int, t: int)
    requires
        0 <= k < 64,
        0 <= t < 64,
    ensures
        in_zone(white, mir(k), mir(t)) == in_zone(!white, k, t),
{
    lemma_mir(k);
    lemma_mir(t);
    lemma_king_step_mir(k, t);
    if t < 56 {
        lemma_mir(t + 8);
        assert(mir(t) - 8 == mir(t + 8));
        lemma_king_step_mir(k, t + 8);
    }
    if t >= 8 {
        lemma_mir(t - 8);
        assert(mir(t) + 8 == mir(t - 8));
        lemma_king_step_mir(k, t - 8);
    }
}

proof fn lemma_attacker_mir(v: BoardView, w: BoardView, white: bool, s: int)
    requires
        colour_flipped(v, w),
        0 <= s < 64,
    ensures
        attacker_type(w, !white, mir(s)) == attacker_type(v, white, s),
{
    lemma_mir(s);
    assert(w.pieces[mir(s)] == swap_code(v.pieces[mir(mir(s))]));
}

proof fn lemma_zone_point_mir(v: BoardView, w: BoardView, occ: u64, occ2: u64, white: bool, k: int, s: int, t: int)
    requires
        colour_flipped(v, w),
        occ_flipped(occ, occ2),
        0 <= k < 64,
        0 <= s < 64,
        0 <= t < 64,
    ensures
        zone_hits(v, occ, white, k, s)(t) == zone_hits(w, occ2, !white, mir(k), mir(s))(mir(t)),
{
    lemma_attacker_mir(v, w, white, s);
    let ty = attacker_type(v, white, s);
    lemma_hits_mir(ty, occ, occ2, s, t);
    lemma_zone_mir(white, k, t);
}

proof fn lemma_zone_count_mir(v: BoardView, w: BoardView, occ: u64, occ2: u64, white: bool, k: int, s: int)
    requires
        colour_flipped(v, w),
        occ_flipped(occ, occ2),
        0 <= k < 64,
        0 <= s < 64,
    ensures
        how_many(zone_hits(w, occ2, !white, mir(k), mir(s)), 64) == how_many(zone_hits(v, occ, white, k, s), 64),
{
    let f = zone_hits(w, occ2, !white, mir(k), mir(s));
    let g = zone_hits(v, occ, white, k, s);
    assert forall|t: int| 0 <= t < 64 implies #[trigger] g(t) == f(mir(t)) by {
        lemma_zone_point_mir(v, w, occ, occ2, white, k, s, t);
    }
    lemma_count_mir(f, g);
}

proof fn lemma_danger_mir(v: BoardView, w: BoardView, occ: u64, occ2: u64, white: bool, k: int)
    requires
        colour_flipped(v, w),
        occ_flipped(occ, occ2),
        0 <= k < 64,
    ensures
        danger(w, occ2, !white, mir(k)) == danger(v, occ, white, k),
{
    let fa = |s: int| attacker_term(w, occ2, !white, mir(k), s);
    let ga = |s: int| attacker_term(v, occ, white, k, s);
    let fv = |s: int| value_term(w, occ2, !white, mir(k), s);
    let gv = |s: int| value_term(v, occ, white, k, s);
    assert forall|s: int| 0 <= s < 64 implies #[trigger] ga(s) == fa(mir(s)) by {
        lemma_zone_count_mir(v, w, occ, occ2, white, k, s);
    }
    assert forall|s: int| 0 <= s < 64 implies #[trigger] gv(s) == fv(mir(s)) by {
        lemma_zone_count_mir(v, w, occ, occ2, white, k, s);
        lemma_attacker_mir(v, w, white, s);
    }
    lemma_sum_mir(fa, ga);
    lemma_sum_mir(fv, gv);
}

/// Seen from the other side, with every piece's colour swapped and the
/// ranks mirrored (and the blockers mirrored with them), the king safety
/// score of a position with one king per side is the negation of the
/// original one.
pub proof fn lemma_king_safety_colour_flip(v: BoardView, w: BoardView, occ: u64, occ2: u64)
    requires
        colour_flipped(v, w),
        occ_flipped(occ, occ2),
        forall|s: int| 0 <= s < 64 ==> cell_ok(#[trigger] v.pieces[s]),
        king_square(v, 8) < 64,
        king_square(v, 16) < 64,
        forall|s: int| 0 <= s < 64 && v.pieces[s] == 14 ==> s == king_square(v, 8),
        forall|s: int| 0 <= s < 64 && v.pieces[s] == 22 ==> s == king_square(v, 16),
    ensures
        king_safety_spec(w, occ2) == -king_safety_spec(v, occ),
{
    let pw = |s: int| phase_term(w, s);
    let pv = |s: int| phase_term(v, s);
    assert forall|s: int| 0 <= s < 64 implies #[trigger] pv(s) == pw(mir(s)) by {
        lemma_phase_term_mir(v, w, s);
    }
    lemma_sum_mir(pw, pv);
    assert(game_phase(w) == game_phase(v));
    let phase = game_phase(v);
    if phase > 6 {
        let wk = king_square(v, 8);
        let bk = king_square(v, 16);
        lemma_find_hit(v.pieces, 14, 0);
        lemma_find_hit(v.pieces, 22, 0);
        lemma_king_mir(v, w, 8, 16);
        lemma_king_mir(v, w, 16, 8);
        lemma_shield_mir(v, w, true, wk);
        lemma_shield_mir(v, w, false, bk);
        lemma_danger_mir(v, w, occ, occ2, false, wk);
        lemma_danger_mir(v, w, occ, occ2, true, bk);
        let score = -shield(v, true, wk) + shield(v, false, bk) - danger(v, occ, false, wk) + danger(v, occ, true, bk);
        let score2 = -shield(w, true, mir(bk)) + shield(w, false, mir(wk)) - danger(w, occ2, false, mir(bk)) + danger(
            w,
            occ2,
            true,
            mir(wk),
        );
        assert(score2 == -score);
        assert((-score) * (phase - 6) == -(score * (phase - 6))) by (nonlinear_arith);
        assert(tdiv(-(score * (phase - 6)), 18) == -tdiv(score * (phase - 6), 18));
    }
}

/// A pawn's neighbours on the next files are found on the mirrored squares.
proof fn lemma_has_adj_mir(v: BoardView, w: BoardView, cv: u8, cw: u8, s: int)
    requires
        colour_flipped(v, w),
        (cv == 9 && cw == 17) || (cv == 17 && cw == 9),
        0 <= s < 64,
    ensures
        has_adj(w, cw, mir(s)) == has_adj(v, cv, s),
{
    lemma_mir(s);
    if has_adj(v, cv, s) {
        let t = choose|t: int| 0 <= t < 64 && v.pieces[t] == cv && #[trigger] adj_file(t, s);
        lemma_mir(t);
        assert(w.pieces[mir(t)] == swap_code(v.pieces[mir(mir(t))]));
        assert(adj_file(mir(t), mir(s)));
    }
    if has_adj(w, cw, mir(s)) {
        let q = choose|q: int| 0 <= q < 64 && w.pieces[q] == cw && #[trigger] adj_file(q, mir(s));
        lemma_mir(q);
        let t = mir(q);
        lemma_mir(t);
        assert(w.pieces[q] == swap_code(v.pieces[t]));
        assert(adj_file(t, s));
    }
}

/// What stands in front of a pawn is found, for the pawn of the other
/// colour on the mirrored square, on the mirrored squares.
proof fn lemma_has_ahead_mir(v: BoardView, w: BoardView, cv: u8, cw: u8, white: bool, s: int)
    requires
        colour_flipped(v, w),
        (cv == 9 && cw == 17) || (cv == 17 && cw == 9),
        0 <= s < 64,
    ensures
        has_ahead(w, cw, !white, mir(s)) == has_ahead(v, cv, white, s),
{
    lemma_mir(s);
    if has_ahead(v, cv, white, s) {
        let t = choose|t: int| 0 <= t < 64 && v.pieces[t] == cv && #[trigger] ahead(white, s, t);
        lemma_mir(t);
        assert(w.pieces[mir(t)] == swap_code(v.pieces[mir(mir(t))]));
        assert(ahead(!white, mir(s), mir(t)));
    }
    let bw = !white;
    if has_ahead(w, cw, bw, mir(s)) {
        let q = choose|q: int| 0 <= q < 64 && w.pieces[q] == cw && #[trigger] ahead(bw, mir(s), q);
        lemma_mir(q);
        let t = mir(q);
        lemma_mir(t);
        assert(w.pieces[q] == swap_code(v.pieces[t]));
        assert(ahead(white, s, t));
    }
}

proof fn lemma_pawn_terms_mir(v: BoardView, w: BoardView, s: int)
    requires
        colour_flipped(v, w),
        0 <= s < 64,
    ensures
        white_pawn_term(w, mir(s)) == -black_pawn_term(v, s),
        black_pawn_term(w, mir(s)) == -white_pawn_term(v, s),
{
    lemma_mir(s);
    assert(w.pieces[mir(s)] == swap_code(v.pieces[mir(mir(s))]));
    lemma_has_adj_mir(v, w, 17, 9, s);
    lemma_has_adj_mir(v, w, 9, 17, s);
    lemma_has_ahead_mir(v, w, 9, 17, false, s);
    lemma_has_ahead_mir(v, w, 17, 9, true, s);
    assert(rank_of(mir(s)) == 7 - rank_of(s));
}

proof fn lemma_file_count_mir(v: BoardView, w: BoardView, cv: u8, cw: u8, f: int)
    requires
        colour_flipped(v, w),
        (cv == 9 && cw == 17) || (cv == 17 && cw == 9),
    ensures
        file_count(w, cw, f) == file_count(v, cv, f),
{
    let fw = |s: int| on_file(w, cw, f, s);
    let gv = |s: int| on_file(v, cv, f, s);
    assert forall|t: int| 0 <= t < 64 implies #[trigger] gv(t) == fw(mir(t)) by {
        lemma_mir(t);
        assert(w.pieces[mir(t)] == swap_code(v.pieces[mir(mir(t))]));
    }
    lemma_sum_mir(fw, gv);
}

/// Seen from the other side, with every piece's colour swapped and the
/// ranks mirrored, the pawn-structure score is the negation of the
/// original one: a black pawn's isolation, passed and doubled terms are
/// those of the white pawn on the mirrored square, with the sign turned.
pub proof fn lemma_pawn_struct_colour_flip(v: BoardView, w: BoardView)
    requires
        colour_flipped(v, w),
    ensures
        pawn_struct_spec(w) == -pawn_struct_spec(v),
{
    let ww = |s: int| white_pawn_term(w, s);
    let wb = |s: int| black_pawn_term(w, s);
    let vw = |s: int| white_pawn_term(v, s);
    let vb = |s: int| black_pawn_term(v, s);
    let nvw = |s: int| -white_pawn_term(v, s);
    let nvb = |s: int| -black_pawn_term(v, s);
    assert forall|s: int| 0 <= s < 64 implies #[trigger] nvb(s) == ww(mir(s)) by {
        lemma_pawn_terms_mir(v, w, s);
    }
    assert forall|s: int| 0 <= s < 64 implies #[trigger] nvw(s) == wb(mir(s)) by {
        lemma_pawn_terms_mir(v, w, s);
    }
    lemma_sum_mir(ww, nvb);
    lemma_sum_mir(wb, nvw);
    lemma_sum_neg(vb, nvb, 64);
    lemma_sum_neg(vw, nvw, 64);
    let dv = |f: int| doubled_term(v, f);
    let dw = |f: int| doubled_term(w, f);
    assert forall|f: int| 0 <= f < 8 implies #[trigger] dw(f) == -dv(f) by {
        lemma_file_count_mir(v, w, 9, 17, f);
        lemma_file_count_mir(v, w, 17, 9, f);
    }
    lemma_sum_neg(dv, dw, 8);
}

} // verus!
