//! Counting the leaf nodes of the legal move tree, and the position
//! invariant that keeps the count going without ever missing a king.
use vstd::prelude::*;
use crate::attacks::{king_step, knight_step, pawn_step, steps};
use crate::board::{Board, BoardView, cap_square, ep_ok, made, move_ok, lemma_make_undo};
use crate::items::{Color, Move};
use crate::move_pick::good_move;
use crate::movegen::{
    attacked, enemy_color, first_blocker, king_square, leaper_move, legal_move, on_ray, own_color,
    pawn_move, pseudo_kind, ray_attacker, ray_sq, slider_kind, slides, target_move, find_from,
};

verus! {

/// At most one king of the colour `c`.
pub open spec fn one_king(v: BoardView, c: u8) -> bool {
    forall|s1: int, s2: int|
        0 <= s1 < 64 && 0 <= s2 < 64 && v.pieces[s1] == c + 6 && v.pieces[s2] == c + 6 ==> s1 == s2
}

/// A position the engine can search from: both sides have exactly one king,
/// the en passant square is consistent, and the side that just moved did
/// not leave its king attacked.
pub open spec fn sane(b: Board) -> bool {
    let v = b@;
    &&& b.wf()
    &&& ep_ok(v)
    &&& king_square(v, own_color(v)) < 64
    &&& king_square(v, enemy_color(v)) < 64
    &&& one_king(v, own_color(v))
    &&& one_king(v, enemy_color(v))
    &&& forall|s: int| 0 <= s < 64 && v.pieces[s] == enemy_color(v) + 6 ==> !attacked(v, s, v.side != Color::White)
}

/// In a sane position the king that castles is the side's only king.
pub proof fn lemma_castle_home(b: Board, m: Move)
    requires
        sane(b),
        crate::movegen::castle_move(b@, m),
    ensures
        king_square(b@, own_color(b@)) == crate::movegen::home(b@),
{
    let v = b@;
    crate::movegen::lemma_find_found_pub(v.pieces, (own_color(v) + 6) as u8, 0);
}

/// A step read backwards is a step too.
proof fn lemma_steps_sym(f: int, dr: int, df: int, t: int)
    requires
        0 <= f < 64,
        steps(f, dr, df, t),
    ensures
        0 <= t < 64,
        steps(t, -dr, -df, f),
{
    let r = f / 8 + dr;
    let c = f % 8 + df;
    assert((r * 8 + c) / 8 == r && (r * 8 + c) % 8 == c && 0 <= r * 8 + c < 64) by (nonlinear_arith)
        requires 0 <= r < 8 && 0 <= c < 8;
}

/// Looking back along a slide from its target, the first piece met is the slider.
proof fn lemma_slide_back(v: BoardView, f: int, dr: int, df: int, n: int, t: int, j: int)
    requires
        0 <= f < 64,
        -1 <= dr <= 1,
        -1 <= df <= 1,
        dr != 0 || df != 0,
        slides(v, f, dr, df, n, t),
        v.pieces[f] != 0,
        0 <= j < n,
    ensures
        first_blocker(v, t, -dr, -df, j) == Some(f),
    decreases n - j,
{
    let fr = f / 8;
    let fc = f % 8;
    assert(n <= 7) by (nonlinear_arith)
        requires 0 <= fr < 8, 0 <= fc < 8, 0 <= fr + n * dr < 8, 0 <= fc + n * df < 8, n >= 1,
            -1 <= dr <= 1, -1 <= df <= 1, dr != 0 || df != 0;
    let tr = fr + n * dr;
    let tc = fc + n * df;
    assert(t / 8 == tr && t % 8 == tc) by (nonlinear_arith)
        requires t == tr * 8 + tc, 0 <= tr < 8, 0 <= tc < 8;
    let k = j + 1;
    // the square k steps back from t is n - k steps forward from f
    assert(ray_sq(t, -dr, -df, k) == ray_sq(f, dr, df, n - k)) by (nonlinear_arith)
        requires t / 8 == fr + n * dr, t % 8 == fc + n * df, fr == f / 8, fc == f % 8;
    assert(on_ray(t, -dr, -df, k)) by (nonlinear_arith)
        requires t / 8 == fr + n * dr, t % 8 == fc + n * df, 0 <= fr < 8, 0 <= fc < 8,
            0 <= fr + n * dr < 8, 0 <= fc + n * df < 8, 1 <= k <= n, -1 <= dr <= 1, -1 <= df <= 1;
    if k == n {
        assert(ray_sq(f, dr, df, 0) == f) by (nonlinear_arith)
            requires 0 <= f < 64, fr == f / 8, fc == f % 8;
    } else {
        assert(1 <= n - k < n);
        assert(v.pieces[ray_sq(f, dr, df, n - k)] == 0);
        lemma_slide_back(v, f, dr, df, n, t, j + 1);
    }
}

/// A generated capture of a king is an attack on that king's square.
proof fn lemma_capture_attacks(b: Board, m: Move)
    requires
        b.wf(),
        pseudo_kind(b@, m),
        b@.pieces[m.spec_to()] == enemy_color(b@) + 6,
    ensures
        attacked(b@, m.spec_to(), b@.side != Color::White),
{
    let v = b@;
    b.lemma_cells_pub();
    crate::items::lemma_move_bounds(m);
    let own = own_color(v);
    let ew = v.side != Color::White;
    let from = m.spec_from();
    let to = m.spec_to();
    let p = v.pieces[from];
    if leaper_move(v, m, (own + 6) as u8, true) {
        assert(king_step(from, to));
        if steps(from, 1, 0, to) { lemma_steps_sym(from, 1, 0, to); }
        if steps(from, -1, 0, to) { lemma_steps_sym(from, -1, 0, to); }
        if steps(from, 0, 1, to) { lemma_steps_sym(from, 0, 1, to); }
        if steps(from, 0, -1, to) { lemma_steps_sym(from, 0, -1, to); }
        if steps(from, 1, 1, to) { lemma_steps_sym(from, 1, 1, to); }
        if steps(from, 1, -1, to) { lemma_steps_sym(from, 1, -1, to); }
        if steps(from, -1, 1, to) { lemma_steps_sym(from, -1, 1, to); }
        if steps(from, -1, -1, to) { lemma_steps_sym(from, -1, -1, to); }
        assert(king_step(to, from));
    } else if leaper_move(v, m, (own + 2) as u8, false) {
        assert(knight_step(from, to));
        if steps(from, 2, 1, to) { lemma_steps_sym(from, 2, 1, to); }
        if steps(from, 2, -1, to) { lemma_steps_sym(from, 2, -1, to); }
        if steps(from, -2, 1, to) { lemma_steps_sym(from, -2, 1, to); }
        if steps(from, -2, -1, to) { lemma_steps_sym(from, -2, -1, to); }
        if steps(from, 1, 2, to) { lemma_steps_sym(from, 1, 2, to); }
        if steps(from, 1, -2, to) { lemma_steps_sym(from, 1, -2, to); }
        if steps(from, -1, 2, to) { lemma_steps_sym(from, -1, 2, to); }
        if steps(from, -1, -2, to) { lemma_steps_sym(from, -1, -2, to); }
        assert(knight_step(to, from));
    } else if pawn_move(v, m) {
        let white = v.side == Color::White;
        crate::items::lemma_castle_flags(m.spec_flag());
        assert(pawn_step(white, from, to));
        if white {
            if steps(from, 1, -1, to) { lemma_steps_sym(from, 1, -1, to); }
            if steps(from, 1, 1, to) { lemma_steps_sym(from, 1, 1, to); }
        } else {
            if steps(from, -1, -1, to) { lemma_steps_sym(from, -1, -1, to); }
            if steps(from, -1, 1, to) { lemma_steps_sym(from, -1, 1, to); }
        }
        assert(pawn_step(ew, to, from));
    } else if slider_kind(v, m) {
        let (dr, df, n) = choose|dr: int, df: int, n: int| {
            &&& -1 <= dr <= 1 && -1 <= df <= 1 && (dr != 0 || df != 0)
            &&& (p == own + 3 ==> dr != 0 && df != 0)
            &&& (p == own + 4 ==> dr == 0 || df == 0)
            &&& #[trigger] slides(v, from, dr, df, n, to)
        };
        lemma_slide_back(v, from, dr, df, n, to, 0);
        assert(first_blocker(v, to, -dr, -df, 0) == Some(from));
        assert(ray_attacker(v, to, -dr, -df, (own + 5) as u8, if dr != 0 && df != 0 { (own + 3) as u8 } else { (own + 4) as u8 }));
    } else {
        assert(move_ok(v, m));
        crate::items::lemma_castle_flags(m.spec_flag());
    }
}

/// A generated legal move of a searchable position castles only with the
/// king and never takes a king: the incremental network update applies
/// to it (`nnue_move_ok`).
pub proof fn lemma_search_move_nnue_ok(b: Board, m: Move)
    requires
        sane(b),
        legal_move(b@, m),
        pseudo_kind(b@, m),
    ensures
        crate::network::nnue_move_ok(b@, m),
{
    let v = b@;
    b.lemma_cells_pub();
    crate::items::lemma_move_bounds(m);
    let f = m.spec_flag();
    crate::items::lemma_castle_flags(f);
    let own = own_color(v);
    let from = m.spec_from();
    let to = m.spec_to();
    if f & 14u8 == 2 {
        crate::items::lemma_move_roundtrip(from as u16, to as u16, 0);
        crate::items::lemma_move_roundtrip(from as u16, to as u16, 8);
        if leaper_move(v, m, (own + 6) as u8, true) || leaper_move(v, m, (own + 2) as u8, false) || slider_kind(v, m) {
            assert(m == target_move(v, from, to));
            assert(false);
        }
        assert(!pawn_move(v, m));
        assert(crate::movegen::castle_move(v, m));
        crate::bits::lemma_code_bits(0, 0, 0, (own + 6) as u8);
    }
    if f & 8u8 != 0 {
        let cs = cap_square(v, m);
        let x = v.pieces[cs];
        crate::board::lemma_piece_code(x);
        if x & 7u8 == 6 {
            crate::bits::lemma_code_bits(0, 0, 0, x);
            assert(x == enemy_color(v) + 6) by {
                assert(x & 24u8 == enemy_color(v));
                assert(x == 14 || x == 22) by {
                    assert((9 <= x <= 14 || 17 <= x <= 22) && x & 7u8 == 6 ==> x == 14 || x == 22) by (bit_vector);
                }
            }
            if f == 10 {
                assert(false);
            }
            assert(cs == to);
            lemma_capture_attacks(b, m);
            assert(false);
        }
    }
}

/// What one square holds after a move.
proof fn lemma_made_square(b: Board, m: Move, s: int)
    requires
        b.wf(),
        move_ok(b@, m),
        m.spec_flag() == 2 || m.spec_flag() == 3 ==> crate::movegen::castle_move(b@, m),
        0 <= s < 64,
    ensures
        ({
            let v = b@;
            let w = made(v, m);
            let own = own_color(v);
            let from = m.spec_from();
            let to = m.spec_to();
            let f = m.spec_flag();
            let castle = f == 2 || f == 3;
            let rook_from: int = if f == 2 { from + 3 } else { from - 4 };
            let rook_to: int = if f == 2 { from + 1 } else { from - 1 };
            if s == to {
                if f & 4u8 != 0 {
                    own + 2 <= w.pieces[s] <= own + 5
                } else {
                    w.pieces[s] == v.pieces[from]
                }
            } else if castle && s == rook_to {
                w.pieces[s] == own + 4
            } else if castle && s == rook_from {
                w.pieces[s] == 0
            } else if s == from || s == cap_square(v, m) {
                w.pieces[s] == 0
            } else {
                w.pieces[s] == v.pieces[s]
            }
        }),
{
    let v = b@;
    b.lemma_cells_pub();
    crate::items::lemma_move_bounds(m);
    let f = m.spec_flag();
    crate::items::lemma_castle_flags(f);
    let own = own_color(v);
    if f & 4u8 != 0 {
        crate::bits::lemma_byte_facts(f);
    }
    if f == 2 || f == 3 {
        let p = v.pieces[m.spec_from()];
        crate::board::lemma_black_bit(p);
        crate::board::lemma_piece_code(p);
        assert(crate::board::king_home(p) == m.spec_from());
    }
}

/// Every move keeps the en passant square consistent.
proof fn lemma_ep_preserved(b: Board, m: Move)
    requires
        b.wf(),
        move_ok(b@, m),
    ensures
        ep_ok(made(b@, m)),
{
    let v = b@;
    b.lemma_cells_pub();
    crate::items::lemma_move_bounds(m);
    let f = m.spec_flag();
    crate::items::lemma_castle_flags(f);
    if f == 1 {
        let from = m.spec_from();
        let to = m.spec_to();
        let mid = (from + to) / 2;
        let w = made(v, m);
        assert(w.pieces[mid] == 0);
        assert(w.pieces[to] == v.pieces[from]);
        assert((mid as u8) as int == mid);
    }
}

/// The position after a legal generated move is again one the engine can search from.
pub proof fn lemma_sane_child(b: Board, m: Move, b2: Board)
    requires
        sane(b),
        legal_move(b@, m),
        pseudo_kind(b@, m),
        b2.wf(),
        b2@ == made(b@, m),
    ensures
        sane(b2),
{
    let v = b@;
    let w = b2@;
    b.lemma_cells_pub();
    b2.lemma_cells_pub();
    crate::items::lemma_move_bounds(m);
    let own = own_color(v);
    let en = enemy_color(v);
    let from = m.spec_from();
    let to = m.spec_to();
    let f = m.spec_flag();
    crate::items::lemma_castle_flags(f);
    assert(f == 2 || f == 3 ==> crate::movegen::castle_move(v, m)) by {
        if f == 2 || f == 3 {
            crate::items::lemma_move_roundtrip(from as u16, to as u16, 0);
            crate::items::lemma_move_roundtrip(from as u16, to as u16, 8);
            assert(!leaper_move(v, m, (own + 6) as u8, true));
            assert(!leaper_move(v, m, (own + 2) as u8, false));
            assert(!pawn_move(v, m));
            assert(!slider_kind(v, m));
        }
    }
    lemma_ep_preserved(b, m);
    assert(own_color(w) == en);
    assert(enemy_color(w) == own);
    // the enemy king is not captured
    let eks = king_square(v, en);
    crate::movegen::lemma_find_found_pub(v.pieces, (en + 6) as u8, 0);
    assert(v.pieces[eks] == en + 6);
    if to == eks {
        lemma_capture_attacks(b, m);
        assert(false);
    }
    assert(cap_square(v, m) != eks) by {
        if cap_square(v, m) != to {
            assert(f == 10);
        }
    }
    lemma_made_square(b, m, eks);
    assert(w.pieces[eks] == en + 6);
    crate::movegen::lemma_find_found_pub(w.pieces, (en + 6) as u8, 0);
    // the mover's king is still there
    crate::movegen::lemma_king_survives(b, m);
    // kings stay unique
    assert forall|s1: int, s2: int|
        0 <= s1 < 64 && 0 <= s2 < 64 && w.pieces[s1] == en + 6 && w.pieces[s2] == en + 6 implies s1 == s2 by {
        lemma_made_square(b, m, s1);
        lemma_made_square(b, m, s2);
        crate::board::lemma_piece_code(v.pieces[from]);
    }
    let oks = king_square(v, own);
    crate::movegen::lemma_find_found_pub(v.pieces, (own + 6) as u8, 0);
    assert forall|s1: int| 0 <= s1 < 64 && w.pieces[s1] == own + 6 implies
        (if v.pieces[from] == own + 6 { s1 == to } else { s1 == oks }) by {
        lemma_made_square(b, m, s1);
        crate::board::lemma_piece_code(v.pieces[from]);
        if s1 != to && v.pieces[s1] == own + 6 {
            assert(s1 == oks);
        }
    }
    // the mover's king is not attacked
    let kw = king_square(w, own);
    crate::movegen::lemma_find_found_pub(w.pieces, (own + 6) as u8, 0);
    assert forall|s: int| 0 <= s < 64 && w.pieces[s] == enemy_color(w) + 6 implies !attacked(w, s, w.side != Color::White) by {
        assert(w.pieces[kw] == own + 6);
        assert(s == kw);
    }
}

/// The number of lines of `d` legal moves that can be played from `v`.
pub open spec fn leaves(v: BoardView, d: nat) -> nat
    decreases d, 65537int,
{
    if d == 0 {
        1
    } else {
        leaves_from(v, d, 0)
    }
}

/// The lines of `d` legal moves from `v` whose first move has a code of at
/// least `c`.
pub open spec fn leaves_from(v: BoardView, d: nat, c: int) -> nat
    decreases d, 65536 - c,
{
    if d == 0 || c < 0 || c >= 65536 {
        0
    } else {
        (if good_move(v, Move(c as u16)) { leaves(made(v, Move(c as u16)), (d - 1) as nat) } else { 0 })
            + leaves_from(v, d, c + 1)
    }
}

/// A count cut off at `u64::MAX`.
pub open spec fn saturated(x: int) -> int {
    if x > u64::MAX { u64::MAX as int } else { x }
}

/// The lines of `e` moves after each move of `s`, added up.
pub open spec fn line_sum(v: BoardView, s: Seq<Move>, e: nat) -> nat
    decreases s.len(),
{
    if s.len() == 0 {
        0
    } else {
        line_sum(v, s.drop_last(), e) + leaves(made(v, s.last()), e)
    }
}

/// The lines of `e` moves after each move of `s` whose code is at least `c`.
spec fn codes_sum(v: BoardView, s: Seq<Move>, e: nat, c: int) -> nat
    decreases 65536 - c,
{
    if c < 0 || c >= 65536 {
        0
    } else {
        (if s.contains(Move(c as u16)) { leaves(made(v, Move(c as u16)), e) } else { 0 }) + codes_sum(v, s, e, c + 1)
    }
}

/// A move is the move of its code.
proof fn lemma_code_move(c: int, x: Move)
    requires
        0 <= c < 65536,
    ensures
        (Move(c as u16) == x) == (c == x.0),
{
}

/// Adding a move not yet in `s` adds its lines to the codes at or below it.
proof fn lemma_codes_push(v: BoardView, s: Seq<Move>, x: Move, e: nat, c: int)
    requires
        !s.contains(x),
        0 <= c <= 65536,
    ensures
        codes_sum(v, s.push(x), e, c) == codes_sum(v, s, e, c) + (if c <= x.0 { leaves(made(v, x), e) } else { 0 }),
    decreases 65536 - c,
{
    if c < 65536 {
        lemma_codes_push(v, s, x, e, c + 1);
        let m = Move(c as u16);
        lemma_code_move(c, x);
        if s.push(x).contains(m) {
            let j = choose|j: int| 0 <= j < s.push(x).len() && s.push(x)[j] == m;
            if j < s.len() {
                assert(s[j] == m);
            }
        }
        if s.contains(m) {
            let j = choose|j: int| 0 <= j < s.len() && s[j] == m;
            assert(s.push(x)[j] == m);
        }
        if m == x {
            assert(s.push(x)[s.len() as int] == x);
        }
    }
}

/// Over a list without repeats, the sum by list order is the sum by code.
proof fn lemma_line_sum_codes(v: BoardView, s: Seq<Move>, e: nat)
    requires
        s.no_duplicates(),
    ensures
        line_sum(v, s, e) == codes_sum(v, s, e, 0),
    decreases s.len(),
{
    if s.len() == 0 {
        lemma_codes_empty(v, s, e, 0);
    } else {
        let d = s.drop_last();
        assert(d.no_duplicates()) by {
            assert forall|i: int, j: int| 0 <= i < d.len() && 0 <= j < d.len() && i != j implies d[i] != d[j] by {
                assert(d[i] == s[i] && d[j] == s[j]);
            }
        }
        lemma_line_sum_codes(v, d, e);
        assert(!d.contains(s.last())) by {
            if d.contains(s.last()) {
                let j = choose|j: int| 0 <= j < d.len() && d[j] == s.last();
                assert(s[j] == s[s.len() - 1]);
            }
        }
        assert(d.push(s.last()) =~= s);
        lemma_codes_push(v, d, s.last(), e, 0);
    }
}

proof fn lemma_codes_empty(v: BoardView, s: Seq<Move>, e: nat, c: int)
    requires
        s.len() == 0,
        0 <= c <= 65536,
    ensures
        codes_sum(v, s, e, c) == 0,
    decreases 65536 - c,
{
    if c < 65536 {
        lemma_codes_empty(v, s, e, c + 1);
    }
}

/// When `s` holds exactly the legal moves, the sum by code is the count of
/// lines.
proof fn lemma_codes_leaves(v: BoardView, s: Seq<Move>, d: nat, c: int)
    requires
        d >= 1,
        0 <= c <= 65536,
        forall|m: Move| #[trigger] s.contains(m) == good_move(v, m),
    ensures
        codes_sum(v, s, (d - 1) as nat, c) == leaves_from(v, d, c),
    decreases 65536 - c,
{
    if c < 65536 {
        lemma_codes_leaves(v, s, d, c + 1);
        assert(s.contains(Move(c as u16)) == good_move(v, Move(c as u16)));
    }
}

/// One line per move at depth one.
proof fn lemma_line_sum_len(v: BoardView, s: Seq<Move>)
    ensures
        line_sum(v, s, 0) == s.len(),
    decreases s.len(),
{
    if s.len() > 0 {
        lemma_line_sum_len(v, s.drop_last());
    }
}

/// Counts the leaves of the legal move tree `depth` plies deep: the number
/// of lines of `depth` legal moves, saturating at `u64::MAX`. The board is
/// left exactly as it was.
pub fn perft(board: &mut Board, depth: u32) -> (r: u64)
    requires
        sane(*old(board)),
    ensures
        *final(board) == *old(board),
        r == saturated(leaves(old(board)@, depth as nat) as int),
    decreases depth,
{
    if depth == 0 {
        return 1;
    }
    let ghost b0 = *board;
    let move_list = board.gen_moves();
    proof {
        assert forall|m: Move| #[trigger] move_list@.contains(m) == good_move(b0@, m) by {
            if good_move(b0@, m) && crate::movegen::castle_move(b0@, m) {
                lemma_castle_home(b0, m);
            }
            if move_list@.contains(m) {
                let j = choose|j: int| 0 <= j < move_list@.len() && move_list@[j] == m;
                assert(legal_move(b0@, move_list@[j]) && pseudo_kind(b0@, move_list@[j]));
            }
        }
        lemma_line_sum_codes(b0@, move_list@, (depth - 1) as nat);
        lemma_codes_leaves(b0@, move_list@, depth as nat, 0);
    }
    if depth == 1 {
        proof {
            lemma_line_sum_len(b0@, move_list@);
        }
        return move_list.len() as u64;
    }
    let mut nodes: u64 = 0;
    let mut i: usize = 0;
    while i < move_list.len()
        invariant
            *board == b0,
            sane(b0),
            depth >= 2,
            i <= move_list@.len(),
            forall|k: int| 0 <= k < move_list@.len() ==> legal_move(b0@, #[trigger] move_list@[k]) && pseudo_kind(b0@, move_list@[k]),
            nodes == saturated(line_sum(b0@, move_list@.subrange(0, i as int), (depth - 1) as nat) as int),
        decreases move_list@.len() - i,
    {
        let mv = move_list[i];
        proof {
            assert(legal_move(b0@, mv) && pseudo_kind(b0@, mv));
            lemma_make_undo(b0, mv);
        }
        let undo = board.make_move(&mv);
        proof {
            lemma_sane_child(b0, mv, *board);
        }
        let n = perft(board, depth - 1);
        let ghost before = line_sum(b0@, move_list@.subrange(0, i as int), (depth - 1) as nat) as int;
        proof {
            let s1 = move_list@.subrange(0, i + 1);
            assert(s1.drop_last() =~= move_list@.subrange(0, i as int));
            assert(s1.last() == mv);
        }
        nodes = nodes.saturating_add(n);
        board.undo_move(&mv, &undo);
        proof {
            Board::lemma_view_determines(*board, b0);
        }
        i += 1;
    }
    proof {
        assert(move_list@.subrange(0, move_list@.len() as int) =~= move_list@);
    }
    nodes
}

/// The perft count below each legal move: every generated move with the
/// number of leaves `depth - 1` plies under it (1 at depth 1). The board
/// is left as it was.
pub fn perft_divide(board: &mut Board, depth: u32) -> (r: Vec<(Move, u64)>)
    requires
        sane(*old(board)),
        depth >= 1,
    ensures
        *final(board) == *old(board),
        forall|m: Move| good_move(old(board)@, m) <==> exists|k: int| 0 <= k < r@.len() && #[trigger] r@[k].0 == m,
        forall|i: int, j: int| 0 <= i < j < r@.len() ==> r@[i].0 != r@[j].0,
        forall|k: int| 0 <= k < r@.len() ==> #[trigger] r@[k].1 == saturated(
            leaves(made(old(board)@, r@[k].0), (depth - 1) as nat) as int),
{
    let ghost b0 = *board;
    let move_list = board.gen_moves();
    proof {
        assert forall|m: Move| good_move(b0@, m) implies move_list@.contains(m) by {
            if crate::movegen::castle_move(b0@, m) {
                lemma_castle_home(b0, m);
            }
        }
    }
    let mut out: Vec<(Move, u64)> = Vec::new();
    let mut i: usize = 0;
    while i < move_list.len()
        invariant
            *board == b0,
            sane(b0),
            depth >= 1,
            i <= move_list@.len(),
            out@.len() == i,
            forall|k: int| 0 <= k < move_list@.len() ==> legal_move(b0@, #[trigger] move_list@[k]) && pseudo_kind(b0@, move_list@[k]),
            forall|k: int| 0 <= k < i ==> (#[trigger] out@[k]).0 == move_list@[k] && out@[k].1 == saturated(
                leaves(made(b0@, move_list@[k]), (depth - 1) as nat) as int),
        decreases move_list@.len() - i,
    {
        let mv = move_list[i];
        proof {
            assert(legal_move(b0@, mv) && pseudo_kind(b0@, mv));
            lemma_make_undo(b0, mv);
        }
        let undo = board.make_move(&mv);
        proof {
            lemma_sane_child(b0, mv, *board);
        }
        let nodes = if depth > 1 {
            perft(board, depth - 1)
        } else {
            1
        };
        board.undo_move(&mv, &undo);
        proof {
            Board::lemma_view_determines(*board, b0);
        }
        out.push((mv, nodes));
        i += 1;
    }
    proof {
        assert forall|m: Move| good_move(b0@, m) <==> exists|k: int| 0 <= k < out@.len() && #[trigger] out@[k].0 == m by {
            if good_move(b0@, m) {
                let j = choose|j: int| 0 <= j < move_list@.len() && move_list@[j] == m;
                assert(out@[j].0 == m);
            }
            if exists|k: int| 0 <= k < out@.len() && #[trigger] out@[k].0 == m {
                let k = choose|k: int| 0 <= k < out@.len() && #[trigger] out@[k].0 == m;
                assert(legal_move(b0@, move_list@[k]) && pseudo_kind(b0@, move_list@[k]));
            }
        }
        assert forall|a: int, b: int| 0 <= a < b < out@.len() implies out@[a].0 != out@[b].0 by {
            assert(out@[a].0 == move_list@[a] && out@[b].0 == move_list@[b]);
        }
    }
    out
}

impl Board {
    /// Whether exactly one king of colour bits `c` is on the board and,
    /// if so, its square.
    fn single_king(&self, c: u8) -> (r: Option<usize>)
        requires
            self.wf(),
            c == 8 || c == 16,
        ensures
            r matches Some(sq) ==> sq == king_square(self@, c) && one_king(self@, c) && sq < 64 && self@.pieces[sq as int] == c + 6,
            r is None ==> !(king_square(self@, c) < 64 && one_king(self@, c)),
    {
        let code = c + 6;
        proof {
            crate::board::lemma_piece_code(code);
            crate::movegen::lemma_find_found_pub(self@.pieces, code, 0);
        }
        let bb = self.bb(code);
        match self.lowest_square(code) {
            None => None,
            Some(sq) => {
                let rest = bb & !crate::bits::mask(sq);
                proof {
                    crate::bits::lemma_zero_iff_no_bits(rest);
                    assert forall|t: int| 0 <= t < 64 implies #[trigger] crate::bits::bit(rest, t) == (self@.pieces[t] == code && t != sq) by {
                        crate::bits::lemma_clear_set(bb, sq as u64, t as u64);
                    }
                }
                if rest == 0 {
                    proof {
                        assert forall|s1: int, s2: int|
                            0 <= s1 < 64 && 0 <= s2 < 64 && self@.pieces[s1] == c + 6 && self@.pieces[s2] == c + 6 implies s1 == s2 by {
                            assert(!crate::bits::bit(rest, s1));
                            assert(!crate::bits::bit(rest, s2));
                        }
                    }
                    Some(sq)
                } else {
                    proof {
                        let t = choose|t: int| 0 <= t < 64 && #[trigger] crate::bits::bit(rest, t);
                        assert(self@.pieces[t] == code && t != sq);
                    }
                    None
                }
            },
        }
    }

    /// Whether the position is one the search can start from (`sane`).
    pub fn is_sane(&self) -> (r: bool)
        requires
            self.wf(),
        ensures
            r == sane(*self),
    {
        let ghost v = self@;
        proof {
            self.lemma_cells_pub();
        }
        let side = self.side_to_move();
        let own: u8 = if side == Color::White { 8 } else { 16 };
        let enemy: u8 = if side == Color::White { 16 } else { 8 };
        let ep_good = match self.en_passant_square() {
            None => true,
            Some(e) => {
                if e >= 64 {
                    false
                } else if side == Color::White {
                    40 <= e && e < 48 && self.piece_on(e as usize) == 0 && self.piece_on((e - 8) as usize) == 17
                } else {
                    16 <= e && e < 24 && self.piece_on(e as usize) == 0 && self.piece_on((e + 8) as usize) == 9
                }
            },
        };
        if !ep_good {
            return false;
        }
        let ok = self.single_king(own);
        if ok.is_none() {
            return false;
        }
        match self.single_king(enemy) {
            None => false,
            Some(ek) => {
                let opp = side.opponent();
                let hit = self.is_square_atacked(ek, &opp);
                proof {
                    if !hit {
                        assert forall|s: int| 0 <= s < 64 && v.pieces[s] == enemy_color(v) + 6 implies !attacked(v, s, v.side != Color::White) by {
                            crate::movegen::lemma_find_found_pub(v.pieces, (enemy + 6) as u8, 0);
                            assert(s == ek);
                        }
                    } else {
                        crate::movegen::lemma_find_found_pub(v.pieces, (enemy + 6) as u8, 0);
                        assert(v.pieces[ek as int] == enemy_color(v) + 6);
                    }
                }
                !hit
            },
        }
    }
}

} // verus!
