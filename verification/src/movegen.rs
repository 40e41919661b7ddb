//! Pseudo-legal move generation: every generated move satisfies `move_ok`,
//! so it can be played and taken back.
use vstd::prelude::*;
use crate::attacks::{king_attacks, king_step, knight_attacks, knight_step, pawn_attacks, pawn_step};
use crate::bits::{bit, lemma_bit_ops, lemma_zero_iff_no_bits, lemma_shift, lemma_ranks, mask, pop_lsb};
use crate::board::{Board, BoardView, is_black_piece, is_white_piece, move_ok, cap_square, make_ok, promoted_pieces, king_home, ep_ok, made, undo_of, lemma_make_undo};
use crate::items::{Color, Move, MoveFlag, Piece, is_piece, move_code, piece_code, piece_index, lemma_move_roundtrip};

verus! {

/// The colour bits of the side to move.
pub open spec fn own_color(v: BoardView) -> u8 {
    if v.side == Color::White { 8 } else { 16 }
}

/// The colour bits of the side not to move.
pub open spec fn enemy_color(v: BoardView) -> u8 {
    if v.side == Color::White { 16 } else { 8 }
}

/// A square the side to move may land on: empty or an enemy piece.
pub open spec fn open_target(v: BoardView, t: int) -> bool {
    v.pieces[t] == 0 || (is_piece(v.pieces[t]) && v.pieces[t] & 24u8 == enemy_color(v))
}

/// The move to `t`: a capture when `t` is occupied, quiet otherwise.
pub open spec fn target_move(v: BoardView, from: int, t: int) -> Move {
    Move(move_code(from, t, if v.pieces[t] != 0 { 8 } else { 0 }))
}

/// No move occurs twice in `s` from index `start` on.
pub open spec fn distinct_from(s: Seq<Move>, start: int) -> bool {
    forall|i: int, j: int| start <= i < j < s.len() ==> s[i] != s[j]
}

/// Two runs of distinct moves, none shared, make one.
proof fn lemma_distinct_join(prev: Seq<Move>, cur: Seq<Move>, start: int)
    requires
        0 <= start <= prev.len(),
        distinct_from(prev, start),
        extends(prev, cur),
        distinct_from(cur, prev.len() as int),
        forall|i: int, j: int| start <= i < prev.len() <= j < cur.len() ==> cur[i] != cur[j],
    ensures
        distinct_from(cur, start),
{
    assert forall|i: int, j: int| start <= i < j < cur.len() implies cur[i] != cur[j] by {
        if j < prev.len() {
            assert(cur[i] == cur.subrange(0, prev.len() as int)[i]);
            assert(cur[j] == cur.subrange(0, prev.len() as int)[j]);
        }
    }
}

/// The colour bits of a piece code match the occupancy it is counted in.
proof fn lemma_color_of(p: u8)
    requires
        p == 0 || is_piece(p),
    ensures
        is_white_piece(p) <==> (p != 0 && p & 24u8 == 8),
        is_black_piece(p) <==> (p != 0 && p & 24u8 == 16),
{
    if p != 0 {
        crate::board::lemma_piece_code(p);
    }
}

proof fn lemma_mask_and(x: u64, t: u64)
    requires
        t < 64,
    ensures
        ((1u64 << t) & x != 0) == bit(x, t as int),
{
    assert(t < 64 ==> (((1u64 << t) & x != 0) == ((x >> t) & 1u64 == 1u64))) by (bit_vector);
}

impl Board {
    /// Pushes a quiet move or a capture from `from` to each square of `atk`.
    fn push_targets(&self, moves: &mut Vec<Move>, from: usize, atk: u64)
        requires
            self.wf(),
            from < 64,
            is_piece(self@.pieces[from as int]),
            self@.pieces[from as int] & 24u8 == own_color(self@),
            forall|t: int| 0 <= t < 64 && #[trigger] bit(atk, t) ==> open_target(self@, t),
        ensures
            final(moves)@.len() >= old(moves)@.len(),
            final(moves)@.subrange(0, old(moves)@.len() as int) == old(moves)@,
            forall|k: int|
                old(moves)@.len() <= k < final(moves)@.len() ==> {
                    let m = #[trigger] final(moves)@[k];
                    &&& move_ok(self@, m)
                    &&& m.spec_from() == from
                    &&& bit(atk, m.spec_to())
                    &&& m == target_move(self@, from as int, m.spec_to())
                },
            forall|t: int|
                0 <= t < 64 && #[trigger] bit(atk, t) ==> final(moves)@.subrange(
                    old(moves)@.len() as int,
                    final(moves)@.len() as int,
                ).contains(target_move(self@, from as int, t)),
            distinct_from(final(moves)@, old(moves)@.len() as int),
    {
        let ghost v = self@;
        let ghost start = moves@.len();
        let enemy = self.occ(&self.side_to_move().opponent());
        let mut a = atk;
        proof {
            self.lemma_cells_pub();
        }
        while a != 0
            invariant
                self.wf(),
                v == self@,
                from < 64,
                is_piece(v.pieces[from as int]),
                v.pieces[from as int] & 24u8 == own_color(v),
                v.pieces.len() == 64,
                forall|s: int| 0 <= s < 64 ==> #[trigger] crate::board::cell_ok(v.pieces[s]),
                forall|t: int| 0 <= t < 64 && #[trigger] bit(atk, t) ==> open_target(v, t),
                forall|t: int| 0 <= t < 64 ==> #[trigger] bit(enemy, t) == (if v.side.spec_opponent() == Color::White {
                    is_white_piece(v.pieces[t])
                } else {
                    is_black_piece(v.pieces[t])
                }),
                forall|t: int| 0 <= t < 64 && #[trigger] bit(a, t) ==> bit(atk, t),
                moves@.len() >= start,
                moves@.subrange(0, start as int) == old(moves)@,
                start == old(moves)@.len(),
                forall|k: int|
                    start <= k < moves@.len() ==> {
                        let m = #[trigger] moves@[k];
                        &&& move_ok(v, m)
                        &&& m.spec_from() == from
                        &&& bit(atk, m.spec_to())
                        &&& m == target_move(v, from as int, m.spec_to())
                    },
                forall|t: int|
                    0 <= t < 64 && #[trigger] bit(atk, t) && !bit(a, t) ==> moves@.subrange(
                        start as int,
                        moves@.len() as int,
                    ).contains(target_move(v, from as int, t)),
                distinct_from(moves@, start as int),
                forall|k: int| start <= k < moves@.len() ==> !bit(a, (#[trigger] moves@[k]).spec_to()),
            decreases a,
        {
            let ghost prev = moves@;
            let ghost a_before = a;
            let to = pop_lsb(&mut a).unwrap();
            let is_cap = (mask(to) & enemy) != 0;
            proof {
                lemma_mask_and(enemy, to as u64);
                assert(bit(atk, to as int));
                assert(open_target(v, to as int));
                assert(crate::board::cell_ok(v.pieces[to as int]));
                lemma_color_of(v.pieces[to as int]);
            }
            let flag = if is_cap {
                MoveFlag(MoveFlag::CAPTURE)
            } else {
                MoveFlag(MoveFlag::QUIET)
            };
            let mv = Move::new(from, to, flag);
            proof {
                lemma_move_roundtrip(from as u16, to as u16, flag.0 as u16);
                assert(mv == target_move(v, from as int, to as int));
                crate::items::lemma_castle_flags(flag.0);
                assert(cap_square(v, mv) == to);
                assert(move_ok(v, mv));
            }
            proof {
                assert forall|k: int| start <= k < prev.len() implies prev[k] != mv by {
                    crate::items::lemma_move_bounds(prev[k]);
                    assert(!bit(a_before, prev[k].spec_to()));
                }
            }
            moves.push(mv);
            proof {
                assert(moves@ == prev.push(mv));
                assert forall|k: int| start <= k < moves@.len() implies !bit(a, (#[trigger] moves@[k]).spec_to()) by {
                    crate::items::lemma_move_bounds(moves@[k]);
                    if k < prev.len() {
                        assert(moves@[k] == prev[k]);
                        assert(!bit(a_before, prev[k].spec_to()));
                    }
                }
                assert forall|t: int|
                    0 <= t < 64 && #[trigger] bit(atk, t) && !bit(a, t) implies moves@.subrange(
                    start as int,
                    moves@.len() as int,
                ).contains(target_move(v, from as int, t)) by {
                    if t == to {
                        assert(moves@.subrange(start as int, moves@.len() as int)[moves@.len() - 1 - start] == mv);
                    } else {
                        assert(prev.subrange(start as int, prev.len() as int).contains(target_move(v, from as int, t)));
                        let j = choose|j: int| 0 <= j < prev.len() - start && prev.subrange(start as int, prev.len() as int)[j] == target_move(v, from as int, t);
                        assert(moves@.subrange(start as int, moves@.len() as int)[j] == target_move(v, from as int, t));
                    }
                }
                assert(moves@.subrange(0, start as int) =~= prev.subrange(0, start as int));
            }
        }
        proof {
            lemma_zero_iff_no_bits(a);
        }
    }
}

/// `t` is reached from `f` by a king step, or by a knight jump.
pub open spec fn leaper_step(is_king: bool, f: int, t: int) -> bool {
    if is_king { king_step(f, t) } else { knight_step(f, t) }
}

/// A generated king or knight move of the piece `piece`.
pub open spec fn leaper_move(v: BoardView, m: Move, piece: u8, is_king: bool) -> bool {
    &&& move_ok(v, m)
    &&& v.pieces[m.spec_from()] == piece
    &&& leaper_step(is_king, m.spec_from(), m.spec_to())
    &&& m == target_move(v, m.spec_from(), m.spec_to())
}

/// The sequence grew by appending.
pub open spec fn extends(old_s: Seq<Move>, new_s: Seq<Move>) -> bool {
    new_s.len() >= old_s.len() && new_s.subrange(0, old_s.len() as int) == old_s
}

/// The appended part.
pub open spec fn appended(old_s: Seq<Move>, new_s: Seq<Move>) -> Seq<Move> {
    new_s.subrange(old_s.len() as int, new_s.len() as int)
}

impl Board {
    fn gen_leaper_moves(&self, moves: &mut Vec<Move>, is_king: bool)
        requires
            self.wf(),
        ensures
            extends(old(moves)@, final(moves)@),
            forall|k: int|
                old(moves)@.len() <= k < final(moves)@.len() ==> {
                    let m = #[trigger] final(moves)@[k];
                    &&& move_ok(self@, m)
                    &&& self@.pieces[m.spec_from()] == own_color(self@) + (if is_king { 6u8 } else { 2u8 })
                    &&& leaper_step(is_king, m.spec_from(), m.spec_to())
                    &&& m == target_move(self@, m.spec_from(), m.spec_to())
                },
            forall|f: int, t: int|
                0 <= f < 64 && 0 <= t < 64 && self@.pieces[f] == own_color(self@) + (if is_king { 6u8 } else { 2u8 })
                    && #[trigger] leaper_step(is_king, f, t) && open_target(self@, t)
                    ==> appended(old(moves)@, final(moves)@).contains(#[trigger] target_move(self@, f, t)),
            distinct_from(final(moves)@, old(moves)@.len() as int),
    {
        let ghost v = self@;
        let ghost start = moves@.len();
        proof {
            self.lemma_cells_pub();
        }
        let color: u8 = if self.side_to_move() == Color::White {
            Piece::WHITE
        } else {
            Piece::BLACK
        };
        let kind: u8 = if is_king {
            Piece::KING
        } else {
            Piece::KNIGHT
        };
        let piece = color | kind;
        proof {
            crate::items::lemma_or_is_add(color, kind);
            crate::board::lemma_piece_code(piece);
        }
        let own = self.occ(&self.side_to_move());
        let mut bb = self.bb(piece);
        let ghost bb0 = bb;
        proof {
            assert(moves@.subrange(0, moves@.len() as int) =~= moves@);
        }
        while bb != 0
            invariant
                self.wf(),
                v == self@,
                v.pieces.len() == 64,
                forall|s: int| 0 <= s < 64 ==> #[trigger] crate::board::cell_ok(v.pieces[s]),
                piece == own_color(v) + (if is_king { 6u8 } else { 2u8 }),
                is_piece(piece),
                forall|s: int| 0 <= s < 64 ==> #[trigger] bit(bb0, s) == (v.pieces[s] == piece),
                forall|s: int| 0 <= s < 64 && #[trigger] bit(bb, s) ==> bit(bb0, s),
                forall|t: int| 0 <= t < 64 ==> #[trigger] bit(own, t) == (if v.side == Color::White {
                    is_white_piece(v.pieces[t])
                } else {
                    is_black_piece(v.pieces[t])
                }),
                extends(old(moves)@, moves@),
                start == old(moves)@.len(),
                forall|k: int|
                    start <= k < moves@.len() ==> leaper_move(v, #[trigger] moves@[k], piece, is_king),
                forall|f: int, t: int|
                    0 <= f < 64 && 0 <= t < 64 && v.pieces[f] == piece && !bit(bb, f)
                        && #[trigger] leaper_step(is_king, f, t) && open_target(v, t)
                        ==> appended(old(moves)@, moves@).contains(#[trigger] target_move(v, f, t)),
                distinct_from(moves@, start as int),
                forall|k: int| start <= k < moves@.len() ==> !bit(bb, (#[trigger] moves@[k]).spec_from()),
            decreases bb,
        {
            let ghost prev = moves@;
            assert(forall|k: int| start <= k < prev.len() ==> leaper_move(v, #[trigger] prev[k], piece, is_king));
            let ghost bb_before = bb;
            let from = pop_lsb(&mut bb).unwrap();
            proof {
                assert(bit(bb_before, from as int));
                assert(bit(bb0, from as int));
                assert(v.pieces[from as int] == piece);
            }
            let steps = if is_king {
                king_attacks(from)
            } else {
                knight_attacks(from)
            };
            let atk = steps & !own;
            proof {
                lemma_color_of(piece);
                assert forall|t: int| 0 <= t < 64 implies #[trigger] bit(atk, t) == (leaper_step(is_king, from as int, t)
                    && !bit(own, t)) by {
                    lemma_bit_ops(steps, !own, 0, t as u64);
                    lemma_bit_ops(own, own, 0, t as u64);
                }
                assert forall|t: int| 0 <= t < 64 && #[trigger] bit(atk, t) implies open_target(v, t) by {
                    assert(crate::board::cell_ok(v.pieces[t]));
                    lemma_color_of(v.pieces[t]);
                }
            }
            self.push_targets(moves, from, atk);
            proof {
                assert(extends(prev, moves@));
                assert forall|i: int, j: int| start <= i < prev.len() <= j < moves@.len() implies moves@[i] != moves@[j] by {
                    assert(moves@[i] == moves@.subrange(0, prev.len() as int)[i]);
                    crate::items::lemma_move_bounds(prev[i]);
                    assert(!bit(bb_before, prev[i].spec_from()));
                }
                lemma_distinct_join(prev, moves@, start as int);
                assert forall|k: int| start <= k < moves@.len() implies !bit(bb, (#[trigger] moves@[k]).spec_from()) by {
                    crate::items::lemma_move_bounds(moves@[k]);
                    if k < prev.len() {
                        assert(moves@[k] == moves@.subrange(0, prev.len() as int)[k]);
                        assert(!bit(bb_before, prev[k].spec_from()));
                    }
                }
                assert forall|k: int| start <= k < moves@.len() implies leaper_move(v, #[trigger] moves@[k], piece, is_king) by {
                    if k < prev.len() {
                        assert(moves@[k] == moves@.subrange(0, prev.len() as int)[k]);
                        assert(moves@[k] == prev[k]);
                        assert(leaper_move(v, prev[k], piece, is_king));
                    } else {
                        let m = moves@[k];
                        assert(m.spec_from() == from);
                        assert(v.pieces[from as int] == piece);
                        assert(bit(atk, m.spec_to()));
                        crate::items::lemma_move_bounds(m);
                        assert(leaper_step(is_king, from as int, m.spec_to()));
                        assert(move_ok(v, m));
                        assert(m == target_move(v, m.spec_from(), m.spec_to()));
                    }
                }
                assert forall|f: int, t: int|
                    0 <= f < 64 && 0 <= t < 64 && v.pieces[f] == piece && !bit(bb, f)
                        && #[trigger] leaper_step(is_king, f, t) && open_target(v, t)
                        implies appended(old(moves)@, moves@).contains(#[trigger] target_move(v, f, t)) by {
                    let tm = target_move(v, f, t);
                    if f == from {
                        lemma_color_of(v.pieces[t]);
                        assert(bit(atk, t));
                        let j = choose|j: int| 0 <= j < moves@.len() - prev.len() && moves@.subrange(prev.len() as int, moves@.len() as int)[j] == tm;
                        assert(appended(old(moves)@, moves@)[j + prev.len() - start] == tm);
                    } else {
                        assert(appended(old(moves)@, prev).contains(tm));
                        let j = choose|j: int| 0 <= j < prev.len() - start && appended(old(moves)@, prev)[j] == tm;
                        assert(moves@.subrange(0, prev.len() as int)[j + start] == prev[j + start]);
                        assert(appended(old(moves)@, moves@)[j] == tm);
                    }
                }
                assert(moves@.subrange(0, start as int) =~= moves@.subrange(0, prev.len() as int).subrange(0, start as int));
            }
        }
        proof {
            lemma_zero_iff_no_bits(bb);
        }
    }

    /// Appends the king moves of the side to move (not castling).
    pub fn gen_king_moves(&self, moves: &mut Vec<Move>)
        requires
            self.wf(),
        ensures
            extends(old(moves)@, final(moves)@),
            forall|k: int|
                old(moves)@.len() <= k < final(moves)@.len() ==> {
                    let m = #[trigger] final(moves)@[k];
                    &&& move_ok(self@, m)
                    &&& self@.pieces[m.spec_from()] == own_color(self@) + 6u8
                    &&& king_step(m.spec_from(), m.spec_to())
                    &&& m == target_move(self@, m.spec_from(), m.spec_to())
                },
            forall|f: int, t: int|
                0 <= f < 64 && 0 <= t < 64 && self@.pieces[f] == own_color(self@) + 6u8
                    && #[trigger] king_step(f, t) && open_target(self@, t)
                    ==> appended(old(moves)@, final(moves)@).contains(#[trigger] target_move(self@, f, t)),
            distinct_from(final(moves)@, old(moves)@.len() as int),
    {
        self.gen_leaper_moves(moves, true);
        proof {
            assert forall|f: int, t: int|
                0 <= f < 64 && 0 <= t < 64 && self@.pieces[f] == own_color(self@) + 6u8
                    && #[trigger] king_step(f, t) && open_target(self@, t)
                    implies appended(old(moves)@, moves@).contains(#[trigger] target_move(self@, f, t)) by {
                assert(leaper_step(true, f, t));
            }
        }
    }

    /// Appends the knight moves of the side to move.
    pub fn gen_knight_moves(&self, moves: &mut Vec<Move>)
        requires
            self.wf(),
        ensures
            extends(old(moves)@, final(moves)@),
            forall|k: int|
                old(moves)@.len() <= k < final(moves)@.len() ==> {
                    let m = #[trigger] final(moves)@[k];
                    &&& move_ok(self@, m)
                    &&& self@.pieces[m.spec_from()] == own_color(self@) + 2u8
                    &&& knight_step(m.spec_from(), m.spec_to())
                    &&& m == target_move(self@, m.spec_from(), m.spec_to())
                },
            forall|f: int, t: int|
                0 <= f < 64 && 0 <= t < 64 && self@.pieces[f] == own_color(self@) + 2u8
                    && #[trigger] knight_step(f, t) && open_target(self@, t)
                    ==> appended(old(moves)@, final(moves)@).contains(#[trigger] target_move(self@, f, t)),
            distinct_from(final(moves)@, old(moves)@.len() as int),
    {
        self.gen_leaper_moves(moves, false);
        proof {
            assert forall|f: int, t: int|
                0 <= f < 64 && 0 <= t < 64 && self@.pieces[f] == own_color(self@) + 2u8
                    && #[trigger] knight_step(f, t) && open_target(self@, t)
                    implies appended(old(moves)@, moves@).contains(#[trigger] target_move(self@, f, t)) by {
                assert(leaper_step(false, f, t));
            }
        }
    }
}

/// The square `k` steps from `f` in direction (`dr`, `df`).
pub open spec fn ray_sq(f: int, dr: int, df: int, k: int) -> int {
    (f / 8 + k * dr) * 8 + (f % 8 + k * df)
}

/// That square is on the board.
pub open spec fn on_ray(f: int, dr: int, df: int, k: int) -> bool {
    0 <= f / 8 + k * dr < 8 && 0 <= f % 8 + k * df < 8
}

/// A slider on `f` reaches `t` after `n` steps over empty squares.
pub open spec fn slides(v: BoardView, f: int, dr: int, df: int, n: int, t: int) -> bool {
    &&& 1 <= n
    &&& on_ray(f, dr, df, n)
    &&& t == ray_sq(f, dr, df, n)
    &&& forall|k: int| 1 <= k < n ==> v.pieces[#[trigger] ray_sq(f, dr, df, k)] == 0
}

/// A generated slider move.
pub open spec fn slider_move(v: BoardView, m: Move, bb: u64, dirs: Seq<(i32, i32)>) -> bool {
    &&& move_ok(v, m)
    &&& bit(bb, m.spec_from())
    &&& m == target_move(v, m.spec_from(), m.spec_to())
    &&& exists|i: int, n: int|
        0 <= i < dirs.len() && #[trigger] slides(v, m.spec_from(), dirs[i].0 as int, dirs[i].1 as int, n, m.spec_to())
}

/// `t` lies on the ray from `f` along (`dr`, `df`), past `f` itself.
pub open spec fn on_dir(f: int, dr: int, df: int, t: int) -> bool {
    exists|n: int| 1 <= n && on_ray(f, dr, df, n) && t == #[trigger] ray_sq(f, dr, df, n)
}

/// Two rays from one square along different unit directions never meet.
proof fn lemma_dirs_apart(f: int, dr1: int, df1: int, dr2: int, df2: int, t: int)
    requires
        0 <= f < 64,
        -1 <= dr1 <= 1 && -1 <= df1 <= 1 && (dr1 != 0 || df1 != 0),
        -1 <= dr2 <= 1 && -1 <= df2 <= 1 && (dr2 != 0 || df2 != 0),
        on_dir(f, dr1, df1, t),
        on_dir(f, dr2, df2, t),
    ensures
        dr1 == dr2 && df1 == df2,
{
    let n1 = choose|n: int| 1 <= n && on_ray(f, dr1, df1, n) && t == #[trigger] ray_sq(f, dr1, df1, n);
    let n2 = choose|n: int| 1 <= n && on_ray(f, dr2, df2, n) && t == #[trigger] ray_sq(f, dr2, df2, n);
    lemma_ray_step(f, dr1, df1, n1);
    lemma_ray_step(f, dr2, df2, n2);
    lemma_unit_mul(n1, dr1);
    lemma_unit_mul(n1, df1);
    lemma_unit_mul(n2, dr2);
    lemma_unit_mul(n2, df2);
}

/// The move `j` steps along a ray lands `j` steps along it.
proof fn lemma_ray_target(v: BoardView, f: int, dr: int, df: int, j: int, cnt: int)
    requires
        0 <= f < 64,
        -1 <= dr <= 1 && -1 <= df <= 1 && (dr != 0 || df != 0),
        1 <= j <= cnt,
        on_ray(f, dr, df, cnt),
    ensures
        on_ray(f, dr, df, j),
        0 <= ray_sq(f, dr, df, j) < 64,
        ray_sq(f, dr, df, j) / 8 == f / 8 + j * dr,
        ray_sq(f, dr, df, j) % 8 == f % 8 + j * df,
        target_move(v, f, ray_sq(f, dr, df, j)).spec_from() == f,
        target_move(v, f, ray_sq(f, dr, df, j)).spec_to() == ray_sq(f, dr, df, j),
{
    assert(on_ray(f, dr, df, 0)) by {
        lemma_unit_mul(0, dr);
        lemma_unit_mul(0, df);
    }
    lemma_on_ray_between(f, dr, df, 0, j, cnt);
    lemma_ray_step(f, dr, df, j);
    let t = ray_sq(f, dr, df, j);
    lemma_move_roundtrip(f as u16, t as u16, (if v.pieces[t] != 0 { 8int } else { 0int }) as u16);
}

/// Different steps along a ray land on different squares.
proof fn lemma_ray_steps_apart(f: int, dr: int, df: int, a: int, b: int)
    requires
        -1 <= dr <= 1 && -1 <= df <= 1 && (dr != 0 || df != 0),
        a != b,
    ensures
        f / 8 + a * dr != f / 8 + b * dr || f % 8 + a * df != f % 8 + b * df,
{
    lemma_unit_mul(a, dr);
    lemma_unit_mul(a, df);
    lemma_unit_mul(b, dr);
    lemma_unit_mul(b, df);
}

/// A run of moves along one ray, one per step: distinct, all from `f`.
proof fn lemma_ray_run(v: BoardView, f: int, dr: int, df: int, s: Seq<Move>, base: int, cnt: int)
    requires
        0 <= f < 64,
        -1 <= dr <= 1 && -1 <= df <= 1 && (dr != 0 || df != 0),
        0 <= base,
        0 <= cnt,
        s.len() == base + cnt,
        on_ray(f, dr, df, cnt),
        forall|j: int| 1 <= j <= cnt ==> s[base + j - 1] == target_move(v, f, #[trigger] ray_sq(f, dr, df, j)),
    ensures
        distinct_from(s, base),
        forall|k: int| base <= k < s.len() ==> (#[trigger] s[k]).spec_from() == f && on_dir(f, dr, df, s[k].spec_to()),
{
    assert forall|k: int| base <= k < s.len() implies (#[trigger] s[k]).spec_from() == f && on_dir(f, dr, df, s[k].spec_to()) by {
        let j = k - base + 1;
        lemma_ray_target(v, f, dr, df, j, cnt);
        assert(s[base + j - 1] == target_move(v, f, ray_sq(f, dr, df, j)));
    }
    assert forall|a: int, b: int| base <= a < b < s.len() implies s[a] != s[b] by {
        let ja = a - base + 1;
        let jb = b - base + 1;
        lemma_ray_target(v, f, dr, df, ja, cnt);
        lemma_ray_target(v, f, dr, df, jb, cnt);
        lemma_ray_steps_apart(f, dr, df, ja, jb);
        assert(s[base + ja - 1] == target_move(v, f, ray_sq(f, dr, df, ja)));
        assert(s[base + jb - 1] == target_move(v, f, ray_sq(f, dr, df, jb)));
    }
}

/// Every square that a slider on `f` reaches along direction `i` of `dirs`
/// and may land on gives a move of `s`.
pub open spec fn ray_covered(v: BoardView, f: int, dirs: Seq<(i32, i32)>, i: int, s: Seq<Move>) -> bool {
    forall|n: int, t: int|
        #[trigger] slides(v, f, dirs[i].0 as int, dirs[i].1 as int, n, t) && open_target(v, t)
            ==> s.contains(target_move(v, f, t))
}

/// A generated move lands on a square the side to move may land on.
proof fn lemma_target_open(v: BoardView, m: Move)
    requires
        move_ok(v, m),
        m == target_move(v, m.spec_from(), m.spec_to()),
    ensures
        open_target(v, m.spec_to()),
{
    let from = m.spec_from();
    let to = m.spec_to();
    crate::items::lemma_move_bounds(m);
    let flag: int = if v.pieces[to] != 0 { 8 } else { 0 };
    lemma_move_roundtrip(from as u16, to as u16, flag as u16);
    crate::items::lemma_castle_flags(flag as u8);
}

/// Appending keeps what was there.
proof fn lemma_extends_contains(a: Seq<Move>, b: Seq<Move>, x: Move)
    requires
        extends(a, b),
        a.contains(x),
    ensures
        b.contains(x),
{
    let j = choose|j: int| 0 <= j < a.len() && a[j] == x;
    assert(b.subrange(0, a.len() as int)[j] == b[j]);
}

proof fn lemma_covered_extends(v: BoardView, f: int, dirs: Seq<(i32, i32)>, i: int, a: Seq<Move>, b: Seq<Move>)
    requires
        ray_covered(v, f, dirs, i, a),
        extends(a, b),
    ensures
        ray_covered(v, f, dirs, i, b),
{
    assert forall|n: int, t: int|
        #[trigger] slides(v, f, dirs[i].0 as int, dirs[i].1 as int, n, t) && open_target(v, t)
            implies b.contains(target_move(v, f, t)) by {
        lemma_extends_contains(a, b, target_move(v, f, t));
    }
}

/// `k * d` for a unit step `d`.
proof fn lemma_unit_mul(k: int, d: int)
    requires
        -1 <= d <= 1,
    ensures
        k * d == (if d == 1 { k } else if d == -1 { -k } else { 0 }),
{
    if d == 1 {
        assert(k * 1 == k);
    } else if d == -1 {
        assert(k * -1 == -k);
    } else {
        assert(d == 0);
        assert(k * 0 == 0);
    }
}

/// A ray is a straight line: between two of its squares on the board, every
/// square is on the board.
proof fn lemma_on_ray_between(f: int, dr: int, df: int, a: int, b: int, c: int)
    requires
        -1 <= dr <= 1,
        -1 <= df <= 1,
        a <= b <= c,
        on_ray(f, dr, df, a),
        on_ray(f, dr, df, c),
    ensures
        on_ray(f, dr, df, b),
{
    lemma_unit_mul(a, dr);
    lemma_unit_mul(b, dr);
    lemma_unit_mul(c, dr);
    lemma_unit_mul(a, df);
    lemma_unit_mul(b, df);
    lemma_unit_mul(c, df);
}

/// A ray walked up to `n` squares, ending because the next square is off
/// the board or occupied, has produced every move a slider has along it.
proof fn lemma_ray_complete(v: BoardView, f: int, dr: int, df: int, n: int, s: Seq<Move>)
    requires
        0 <= f < 64,
        -1 <= dr <= 1,
        -1 <= df <= 1,
        0 <= n,
        on_ray(f, dr, df, n),
        forall|k: int| 1 <= k <= n ==> s.contains(target_move(v, f, #[trigger] ray_sq(f, dr, df, k))),
        on_ray(f, dr, df, n + 1) ==> v.pieces[ray_sq(f, dr, df, n + 1)] != 0,
        on_ray(f, dr, df, n + 1) && open_target(v, ray_sq(f, dr, df, n + 1))
            ==> s.contains(target_move(v, f, ray_sq(f, dr, df, n + 1))),
    ensures
        forall|n2: int, t: int| #[trigger] slides(v, f, dr, df, n2, t) && open_target(v, t)
            ==> s.contains(target_move(v, f, t)),
{
    assert forall|n2: int, t: int| #[trigger] slides(v, f, dr, df, n2, t) && open_target(v, t)
        implies s.contains(target_move(v, f, t)) by {
        if n2 <= n {
            assert(s.contains(target_move(v, f, ray_sq(f, dr, df, n2))));
        } else if n2 > n + 1 {
            lemma_on_ray_between(f, dr, df, n, n + 1, n2);
            assert(v.pieces[ray_sq(f, dr, df, n + 1)] == 0);
        }
    }
}

proof fn lemma_ray_step(f: int, dr: int, df: int, k: int)
    requires
        0 <= f < 64,
        on_ray(f, dr, df, k),
    ensures
        0 <= ray_sq(f, dr, df, k) < 64,
        ray_sq(f, dr, df, k) / 8 == f / 8 + k * dr,
        ray_sq(f, dr, df, k) % 8 == f % 8 + k * df,
{
    let r = f / 8 + k * dr;
    let c = f % 8 + k * df;
    assert(0 <= r < 8 && 0 <= c < 8);
    assert((r * 8 + c) / 8 == r) by (nonlinear_arith)
        requires 0 <= r < 8 && 0 <= c < 8;
    assert((r * 8 + c) % 8 == c) by (nonlinear_arith)
        requires 0 <= r < 8 && 0 <= c < 8;
    assert(0 <= r * 8 + c < 64) by (nonlinear_arith)
        requires 0 <= r < 8 && 0 <= c < 8;
}

impl Board {
    /// Appends the moves of the sliders on `bb` along each direction of
    /// `directions`, stopping before an own piece and on an enemy piece.
    pub fn gen_sliding_moves(&self, moves: &mut Vec<Move>, bb: u64, directions: &[(i32, i32)])
        requires
            self.wf(),
            forall|s: int| 0 <= s < 64 && #[trigger] bit(bb, s) ==> is_piece(self@.pieces[s])
                && self@.pieces[s] & 24u8 == own_color(self@),
            forall|i: int| 0 <= i < directions@.len() ==> -1 <= #[trigger] directions@[i].0 <= 1
                && -1 <= directions@[i].1 <= 1 && (directions@[i].0 != 0 || directions@[i].1 != 0),
            forall|i: int, j: int| 0 <= i < j < directions@.len() ==> directions@[i] != directions@[j],
        ensures
            extends(old(moves)@, final(moves)@),
            forall|k: int|
                old(moves)@.len() <= k < final(moves)@.len() ==> slider_move(self@, #[trigger] final(moves)@[k], bb, directions@),
            forall|f: int, i: int| 0 <= f < 64 && bit(bb, f) && 0 <= i < directions@.len()
                ==> #[trigger] ray_covered(self@, f, directions@, i, final(moves)@),
            distinct_from(final(moves)@, old(moves)@.len() as int),
    {
        let ghost v = self@;
        let ghost start = moves@.len();
        proof {
            self.lemma_cells_pub();
            assert(moves@.subrange(0, moves@.len() as int) =~= moves@);
        }
        let own_occ = self.occ(&self.side_to_move());
        let enemy_occ = self.occ(&self.side_to_move().opponent());
        let mut b = bb;
        while b != 0
            invariant
                self.wf(),
                v == self@,
                v.pieces.len() == 64,
                forall|s: int| 0 <= s < 64 ==> #[trigger] crate::board::cell_ok(v.pieces[s]),
                forall|s: int| 0 <= s < 64 && #[trigger] bit(bb, s) ==> is_piece(v.pieces[s])
                    && v.pieces[s] & 24u8 == own_color(v),
                forall|i: int| 0 <= i < directions@.len() ==> -1 <= #[trigger] directions@[i].0 <= 1
                    && -1 <= directions@[i].1 <= 1 && (directions@[i].0 != 0 || directions@[i].1 != 0),
                forall|s: int| 0 <= s < 64 && #[trigger] bit(b, s) ==> bit(bb, s),
                forall|t: int| 0 <= t < 64 ==> #[trigger] bit(own_occ, t) == (if v.side == Color::White {
                    is_white_piece(v.pieces[t])
                } else {
                    is_black_piece(v.pieces[t])
                }),
                forall|t: int| 0 <= t < 64 ==> #[trigger] bit(enemy_occ, t) == (if v.side.spec_opponent() == Color::White {
                    is_white_piece(v.pieces[t])
                } else {
                    is_black_piece(v.pieces[t])
                }),
                extends(old(moves)@, moves@),
                start == old(moves)@.len(),
                forall|k: int| start <= k < moves@.len() ==> slider_move(v, #[trigger] moves@[k], bb, directions@),
                forall|f: int, i: int| 0 <= f < 64 && bit(bb, f) && !bit(b, f) && 0 <= i < directions@.len()
                    ==> #[trigger] ray_covered(v, f, directions@, i, moves@),
                forall|i: int, j: int| 0 <= i < j < directions@.len() ==> directions@[i] != directions@[j],
                distinct_from(moves@, start as int),
                forall|k: int| start <= k < moves@.len() ==> !bit(b, (#[trigger] moves@[k]).spec_from()),
            decreases b,
        {
            let ghost b_before = b;
            let from_idx = pop_lsb(&mut b).unwrap();
            proof {
                assert(bit(b_before, from_idx as int));
            }
            let ghost seg = moves@.len() as int;
            let mut d: usize = 0;
            while d < directions.len()
                invariant
                    self.wf(),
                    v == self@,
                    v.pieces.len() == 64,
                    from_idx < 64,
                    bit(bb, from_idx as int),
                    forall|s: int| 0 <= s < 64 ==> #[trigger] crate::board::cell_ok(v.pieces[s]),
                    forall|s: int| 0 <= s < 64 && #[trigger] bit(bb, s) ==> is_piece(v.pieces[s])
                        && v.pieces[s] & 24u8 == own_color(v),
                    forall|i: int| 0 <= i < directions@.len() ==> -1 <= #[trigger] directions@[i].0 <= 1
                        && -1 <= directions@[i].1 <= 1 && (directions@[i].0 != 0 || directions@[i].1 != 0),
                    forall|t: int| 0 <= t < 64 ==> #[trigger] bit(own_occ, t) == (if v.side == Color::White {
                        is_white_piece(v.pieces[t])
                    } else {
                        is_black_piece(v.pieces[t])
                    }),
                    forall|t: int| 0 <= t < 64 ==> #[trigger] bit(enemy_occ, t) == (if v.side.spec_opponent() == Color::White {
                        is_white_piece(v.pieces[t])
                    } else {
                        is_black_piece(v.pieces[t])
                    }),
                    extends(old(moves)@, moves@),
                    start == old(moves)@.len(),
                    forall|k: int| start <= k < moves@.len() ==> slider_move(v, #[trigger] moves@[k], bb, directions@),
                    forall|j: int| 0 <= j < 64 ==> #[trigger] bit(b, j) == (bit(b_before, j) && j != from_idx),
                    forall|f: int, i: int| 0 <= f < 64 && bit(bb, f) && !bit(b_before, f) && 0 <= i < directions@.len()
                        ==> #[trigger] ray_covered(v, f, directions@, i, moves@),
                    forall|i: int| 0 <= i < d ==> #[trigger] ray_covered(v, from_idx as int, directions@, i, moves@),
                    forall|i: int, j: int| 0 <= i < j < directions@.len() ==> directions@[i] != directions@[j],
                    start <= seg <= moves@.len(),
                    bit(b_before, from_idx as int),
                    distinct_from(moves@, start as int),
                    forall|k: int| start <= k < seg ==> !bit(b_before, (#[trigger] moves@[k]).spec_from()),
                    forall|k: int| seg <= k < moves@.len() ==> (#[trigger] moves@[k]).spec_from() == from_idx
                        && forall|i: int| d <= i < directions@.len() ==> !on_dir(from_idx as int,
                            directions@[i].0 as int, directions@[i].1 as int, moves@[k].spec_to()),
                decreases directions.len() - d,
            {
                let (dr, df) = directions[d];
                let ghost before = moves@;
                self.slide_one_ray(moves, from_idx, dr, df, own_occ, enemy_occ, bb, Ghost(directions@), Ghost(d as int), Ghost(start as int));
                proof {
                    assert(extends(before, moves@));
                    assert forall|i: int, j: int| start <= i < before.len() <= j < moves@.len() implies moves@[i] != moves@[j] by {
                        assert(moves@[i] == moves@.subrange(0, before.len() as int)[i]);
                        crate::items::lemma_move_bounds(before[i]);
                        assert(moves@[j].spec_from() == from_idx);
                        assert(on_dir(from_idx as int, dr as int, df as int, moves@[j].spec_to()));
                        assert(directions@[d as int] == (dr, df));
                        if i < seg {
                            assert(!bit(b_before, before[i].spec_from()));
                        } else {
                            let bi = before[i];
                            assert(bi.spec_from() == from_idx && forall|q: int| d <= q < directions@.len() ==> !on_dir(from_idx as int,
                                directions@[q].0 as int, directions@[q].1 as int, bi.spec_to()));
                            assert(!on_dir(from_idx as int, directions@[d as int].0 as int, directions@[d as int].1 as int,
                                bi.spec_to()));
                        }
                    }
                    lemma_distinct_join(before, moves@, start as int);
                    assert forall|k: int| start <= k < seg implies !bit(b_before, (#[trigger] moves@[k]).spec_from()) by {
                        assert(moves@[k] == moves@.subrange(0, before.len() as int)[k]);
                    }
                    assert forall|k: int| seg <= k < moves@.len() implies (#[trigger] moves@[k]).spec_from() == from_idx
                        && forall|i: int| d + 1 <= i < directions@.len() ==> !on_dir(from_idx as int,
                            directions@[i].0 as int, directions@[i].1 as int, moves@[k].spec_to()) by {
                        if k < before.len() {
                            assert(moves@[k] == moves@.subrange(0, before.len() as int)[k]);
                        } else {
                            assert forall|i: int| d + 1 <= i < directions@.len() implies !on_dir(from_idx as int,
                                directions@[i].0 as int, directions@[i].1 as int, moves@[k].spec_to()) by {
                                if on_dir(from_idx as int, directions@[i].0 as int, directions@[i].1 as int, moves@[k].spec_to()) {
                                    lemma_dirs_apart(from_idx as int, dr as int, df as int, directions@[i].0 as int,
                                        directions@[i].1 as int, moves@[k].spec_to());
                                    assert(directions@[d as int] == directions@[i]);
                                }
                            }
                        }
                    }
                    lemma_extends_trans(old(moves)@, before, moves@);
                    assert forall|f: int, i: int| 0 <= f < 64 && bit(bb, f) && !bit(b_before, f) && 0 <= i < directions@.len()
                        implies #[trigger] ray_covered(v, f, directions@, i, moves@) by {
                        lemma_covered_extends(v, f, directions@, i, before, moves@);
                    }
                    assert forall|i: int| 0 <= i < d + 1 implies #[trigger] ray_covered(v, from_idx as int, directions@, i, moves@) by {
                        if i < d {
                            lemma_covered_extends(v, from_idx as int, directions@, i, before, moves@);
                        }
                    }
                }
                d += 1;
            }
            proof {
                assert forall|f: int, i: int| 0 <= f < 64 && bit(bb, f) && !bit(b, f) && 0 <= i < directions@.len()
                    implies #[trigger] ray_covered(v, f, directions@, i, moves@) by {
                    if f != from_idx {
                        assert(!bit(b_before, f));
                    }
                }
                assert forall|k: int| start <= k < moves@.len() implies !bit(b, (#[trigger] moves@[k]).spec_from()) by {
                    crate::items::lemma_move_bounds(moves@[k]);
                }
            }
        }
        proof {
            lemma_zero_iff_no_bits(b);
        }
    }

    /// Walks one ray from `from_idx`, appending a move per square reached.
    #[verifier::rlimit(60)]
    fn slide_one_ray(&self, moves: &mut Vec<Move>, from_idx: usize, dr: i32, df: i32, own_occ: u64, enemy_occ: u64,
        bb: u64, dirs: Ghost<Seq<(i32, i32)>>, di: Ghost<int>, start: Ghost<int>)
        requires
            self.wf(),
            from_idx < 64,
            bit(bb, from_idx as int),
            0 <= di@ < dirs@.len(),
            dirs@[di@] == (dr, df),
            -1 <= dr <= 1,
            -1 <= df <= 1,
            dr != 0 || df != 0,
            forall|s: int| 0 <= s < 64 && #[trigger] bit(bb, s) ==> is_piece(self@.pieces[s])
                && self@.pieces[s] & 24u8 == own_color(self@),
            forall|t: int| 0 <= t < 64 ==> #[trigger] bit(own_occ, t) == (if self@.side == Color::White {
                is_white_piece(self@.pieces[t])
            } else {
                is_black_piece(self@.pieces[t])
            }),
            forall|t: int| 0 <= t < 64 ==> #[trigger] bit(enemy_occ, t) == (if self@.side.spec_opponent() == Color::White {
                is_white_piece(self@.pieces[t])
            } else {
                is_black_piece(self@.pieces[t])
            }),
            0 <= start@ <= old(moves)@.len(),
            forall|k: int| start@ <= k < old(moves)@.len() ==> slider_move(self@, #[trigger] old(moves)@[k], bb, dirs@),
        ensures
            extends(old(moves)@, final(moves)@),
            forall|k: int| start@ <= k < final(moves)@.len() ==> slider_move(self@, #[trigger] final(moves)@[k], bb, dirs@),
            ray_covered(self@, from_idx as int, dirs@, di@, final(moves)@),
            distinct_from(final(moves)@, old(moves)@.len() as int),
            forall|k: int| old(moves)@.len() <= k < final(moves)@.len() ==> (#[trigger] final(moves)@[k]).spec_from() == from_idx
                && on_dir(from_idx as int, dr as int, df as int, final(moves)@[k].spec_to()),
    {
        let ghost v = self@;
        proof {
            self.lemma_cells_pub();
            assert(moves@.subrange(0, moves@.len() as int) =~= moves@);
        }
        let mut sq = crate::square::Square::new(from_idx);
        let ghost mut n: int = 0;
        let ghost m0 = moves@;
        proof {
            assert(on_ray(from_idx as int, dr as int, df as int, 0));
            assert(ray_sq(from_idx as int, dr as int, df as int, 0) == from_idx) by (nonlinear_arith)
                requires 0 <= from_idx < 64;
        }
        loop
            invariant_except_break
                moves@.len() == m0.len() + n,
            invariant
                self.wf(),
                v == self@,
                v.pieces.len() == 64,
                from_idx < 64,
                -1 <= dr <= 1,
                -1 <= df <= 1,
                dr != 0 || df != 0,
                bit(bb, from_idx as int),
                0 <= start@,
                0 <= di@ < dirs@.len(),
                dirs@[di@] == (dr, df),
                0 <= n <= 7,
                on_ray(from_idx as int, dr as int, df as int, n),
                sq.0 == ray_sq(from_idx as int, dr as int, df as int, n),
                sq.0 < 64,
                forall|k: int| 1 <= k <= n ==> v.pieces[#[trigger] ray_sq(from_idx as int, dr as int, df as int, k)] == 0,
                forall|s: int| 0 <= s < 64 ==> #[trigger] crate::board::cell_ok(v.pieces[s]),
                forall|t: int| 0 <= t < 64 ==> #[trigger] bit(own_occ, t) == (if v.side == Color::White {
                    is_white_piece(v.pieces[t])
                } else {
                    is_black_piece(v.pieces[t])
                }),
                forall|t: int| 0 <= t < 64 ==> #[trigger] bit(enemy_occ, t) == (if v.side.spec_opponent() == Color::White {
                    is_white_piece(v.pieces[t])
                } else {
                    is_black_piece(v.pieces[t])
                }),
                is_piece(v.pieces[from_idx as int]),
                v.pieces[from_idx as int] & 24u8 == own_color(v),
                extends(m0, moves@),
                extends(old(moves)@, m0),
                forall|k: int| start@ <= k < moves@.len() ==> slider_move(v, #[trigger] moves@[k], bb, dirs@),
                forall|k: int| 1 <= k <= n ==> moves@.contains(target_move(v, from_idx as int,
                    #[trigger] ray_sq(from_idx as int, dr as int, df as int, k))),
                m0 == old(moves)@,
                moves@.len() >= m0.len() + n,
                forall|j: int| 1 <= j <= n ==> moves@[m0.len() + j - 1] == target_move(v, from_idx as int,
                    #[trigger] ray_sq(from_idx as int, dr as int, df as int, j)),
            ensures
                extends(old(moves)@, moves@),
                forall|k: int| start@ <= k < moves@.len() ==> slider_move(v, #[trigger] moves@[k], bb, dirs@),
                forall|n2: int, t: int| #[trigger] slides(v, from_idx as int, dr as int, df as int, n2, t)
                    && open_target(v, t) ==> moves@.contains(target_move(v, from_idx as int, t)),
                distinct_from(moves@, m0.len() as int),
                forall|k: int| m0.len() <= k < moves@.len() ==> (#[trigger] moves@[k]).spec_from() == from_idx
                    && on_dir(from_idx as int, dr as int, df as int, moves@[k].spec_to()),
            decreases 7 - n,
        {
            proof {
                lemma_ray_step(from_idx as int, dr as int, df as int, n);
                assert(sq.0 / 8 < 8);
                assert(sq.0 % 8 < 8);
            }
            let next = match sq.offset(dr, df) {
                Some(nx) => nx,
                None => {
                    proof {
                        lemma_extends_trans(old(moves)@, m0, moves@);
                        if on_ray(from_idx as int, dr as int, df as int, n + 1) {
                            assert(false) by (nonlinear_arith)
                                requires sq.0 / 8 == from_idx / 8 + n * dr, sq.0 % 8 == from_idx % 8 + n * df,
                                    0 <= from_idx / 8 + (n + 1) * dr < 8, 0 <= from_idx % 8 + (n + 1) * df < 8,
                                    !(0 <= sq.0 / 8 + dr < 8 && 0 <= sq.0 % 8 + df < 8);
                        }
                        lemma_ray_complete(v, from_idx as int, dr as int, df as int, n, moves@);
                        lemma_ray_run(v, from_idx as int, dr as int, df as int, moves@, m0.len() as int, n);
                    }
                    break;
                },
            };
            let ghost n1 = n + 1;
            proof {
                assert(ray_sq(from_idx as int, dr as int, df as int, n1) == (sq.0 / 8 + dr) * 8 + (sq.0 % 8 + df)) by (nonlinear_arith)
                    requires sq.0 / 8 == from_idx / 8 + n * dr, sq.0 % 8 == from_idx % 8 + n * df, n1 == n + 1;
                assert(on_ray(from_idx as int, dr as int, df as int, n1)) by (nonlinear_arith)
                    requires sq.0 / 8 == from_idx / 8 + n * dr, sq.0 % 8 == from_idx % 8 + n * df, n1 == n + 1,
                        0 <= sq.0 / 8 + dr < 8, 0 <= sq.0 % 8 + df < 8;
                lemma_ray_step(from_idx as int, dr as int, df as int, n1);
                if n1 > 7 {
                    assert(false) by (nonlinear_arith)
                        requires n1 > 7, 0 <= from_idx / 8 + n1 * dr < 8, 0 <= from_idx % 8 + n1 * df < 8,
                            0 <= from_idx / 8 < 8, 0 <= from_idx % 8 < 8, -1 <= dr <= 1, -1 <= df <= 1, dr != 0 || df != 0;
                }
            }
            let t = next.index();
            let to_bb = mask(t);
            proof {
                lemma_mask_and(own_occ, t as u64);
                lemma_mask_and(enemy_occ, t as u64);
                assert(crate::board::cell_ok(v.pieces[t as int]));
                lemma_color_of(v.pieces[t as int]);
            }
            if to_bb & own_occ != 0 {
                proof {
                    lemma_extends_trans(old(moves)@, m0, moves@);
                    assert(v.pieces[t as int] != 0 && !open_target(v, t as int));
                    lemma_ray_complete(v, from_idx as int, dr as int, df as int, n, moves@);
                    lemma_ray_run(v, from_idx as int, dr as int, df as int, moves@, m0.len() as int, n);
                }
                break;
            }
            let is_cap = to_bb & enemy_occ != 0;
            let flag = if is_cap {
                MoveFlag(MoveFlag::CAPTURE)
            } else {
                MoveFlag(MoveFlag::QUIET)
            };
            let mv = Move::new(from_idx, t, flag);
            proof {
                lemma_move_roundtrip(from_idx as u16, t as u16, flag.0 as u16);
                crate::items::lemma_castle_flags(flag.0);
                assert(mv == target_move(v, from_idx as int, t as int));
                assert(cap_square(v, mv) == t);
                assert(t != from_idx) by (nonlinear_arith)
                    requires t == ray_sq(from_idx as int, dr as int, df as int, n1), n1 >= 1, dr != 0 || df != 0,
                        t / 8 == from_idx / 8 + n1 * dr, t % 8 == from_idx % 8 + n1 * df;
                assert(move_ok(v, mv));
                assert(slides(v, from_idx as int, dirs@[di@].0 as int, dirs@[di@].1 as int, n1, t as int));
                assert(slider_move(v, mv, bb, dirs@));
            }
            let ghost before = moves@;
            moves.push(mv);
            proof {
                assert(moves@ == before.push(mv));
                assert(moves@.subrange(0, m0.len() as int) =~= before.subrange(0, m0.len() as int));
                assert forall|k: int| start@ <= k < moves@.len() implies slider_move(v, #[trigger] moves@[k], bb, dirs@) by {
                    if k < before.len() {
                        assert(moves@[k] == before[k]);
                    }
                }
                assert(extends(before, moves@)) by {
                    assert(moves@.subrange(0, before.len() as int) =~= before);
                }
                assert forall|k: int| 1 <= k <= n1 implies moves@.contains(target_move(v, from_idx as int,
                    #[trigger] ray_sq(from_idx as int, dr as int, df as int, k))) by {
                    if k <= n {
                        lemma_extends_contains(before, moves@, target_move(v, from_idx as int,
                            ray_sq(from_idx as int, dr as int, df as int, k)));
                    } else {
                        assert(moves@[before.len() as int] == mv);
                    }
                }
                assert forall|j: int| 1 <= j <= n1 implies moves@[m0.len() + j - 1] == target_move(v, from_idx as int,
                    #[trigger] ray_sq(from_idx as int, dr as int, df as int, j)) by {
                    if j <= n {
                        assert(moves@[m0.len() + j - 1] == before[m0.len() + j - 1]);
                    }
                }
            }
            if is_cap {
                proof {
                    lemma_extends_trans(old(moves)@, m0, moves@);
                    assert(v.pieces[t as int] != 0);
                    lemma_ray_complete(v, from_idx as int, dr as int, df as int, n, moves@);
                    lemma_ray_run(v, from_idx as int, dr as int, df as int, moves@, m0.len() as int, n1);
                }
                break;
            }
            sq = next;
            proof {
                n = n1;
            }
        }
    }
}

proof fn lemma_extends_trans(a: Seq<Move>, b: Seq<Move>, c: Seq<Move>)
    requires
        extends(a, b),
        extends(b, c),
    ensures
        extends(a, c),
{
    assert(c.subrange(0, a.len() as int) =~= b.subrange(0, a.len() as int));
}

/// Whether `to` is on the promotion rank of the side to move.
pub open spec fn last_rank(v: BoardView, to: int) -> bool {
    if v.side == Color::White { 56 <= to } else { to < 8 }
}

/// A generated pawn move: a push of one or two squares onto empty squares,
/// a diagonal capture, or an en passant capture, promoting on the last rank.
pub open spec fn pawn_move(v: BoardView, m: Move) -> bool {
    let from = m.spec_from();
    let to = m.spec_to();
    let f = m.spec_flag();
    let white = v.side == Color::White;
    let dir: int = if white { 8 } else { -8 };
    &&& move_ok(v, m)
    &&& v.pieces[from] == own_color(v) + 1
    &&& {
        ||| f == 0 && to == from + dir && !last_rank(v, to)
        ||| 4 <= f < 8 && to == from + dir && last_rank(v, to)
        ||| f == 1 && to == from + 2 * dir
        ||| f == 8 && pawn_step(white, from, to) && !last_rank(v, to)
        ||| 12 <= f < 16 && pawn_step(white, from, to) && last_rank(v, to)
        ||| f == 10 && pawn_step(white, from, to) && v.en_passant == Some(to as u8)
    }
}

/// The pawn move from `from` to `to` with flag `base` is in `s`, or with
/// `promo` the four promotions on `base` are.
pub open spec fn pawn_pushed(s: Seq<Move>, from: int, to: int, base: int, promo: bool) -> bool {
    if promo {
        forall|f: int| #![trigger move_code(from, to, f)]
            base + 4 <= f < base + 8 ==> s.contains(Move(move_code(from, to, f)))
    } else {
        s.contains(Move(move_code(from, to, base)))
    }
}

/// The push of `dist` squares to `t` is in `s`, promoting on the last rank.
pub open spec fn pawn_push_done(v: BoardView, s: Seq<Move>, t: int, dist: int) -> bool {
    pawn_pushed(s, push_origin(v, t, dist), t, if dist == 16 { 1 } else { 0 }, dist == 8 && last_rank(v, t))
}

/// The capture from `fr` to `t` is in `s`: en passant on the en passant
/// square, otherwise a capture, promoting on the last rank.
pub open spec fn pawn_capture_done(v: BoardView, s: Seq<Move>, fr: int, t: int) -> bool {
    pawn_pushed(s, fr, t, if v.en_passant == Some(t as u8) { 10 } else { 8 },
        v.en_passant != Some(t as u8) && last_rank(v, t))
}

proof fn lemma_pushed_extends(a: Seq<Move>, b: Seq<Move>, from: int, to: int, base: int, promo: bool)
    requires
        pawn_pushed(a, from, to, base, promo),
        extends(a, b),
    ensures
        pawn_pushed(b, from, to, base, promo),
{
    if promo {
        assert forall|f: int| #![trigger move_code(from, to, f)]
            base + 4 <= f < base + 8 implies b.contains(Move(move_code(from, to, f))) by {
            lemma_extends_contains(a, b, Move(move_code(from, to, f)));
        }
    } else {
        lemma_extends_contains(a, b, Move(move_code(from, to, base)));
    }
}

impl Board {
    /// Pushes the pawn move from `from` to `to` with flag bits `base`, or the
    /// four promotions (knight, rook, queen, bishop) when `promo`.
    fn push_pawn(&self, moves: &mut Vec<Move>, from: usize, to: usize, base: u8, promo: bool, ghost_start: Ghost<int>)
        requires
            from < 64,
            to < 64,
            base == 0 || base == 8 || (base == 1 && !promo),
            0 <= ghost_start@ <= old(moves)@.len(),
            forall|k: int| ghost_start@ <= k < old(moves)@.len() ==> pawn_move(self@, #[trigger] old(moves)@[k]),
            forall|f: u8| #![trigger move_code(from as int, to as int, f as int)]
                (if promo { base + 4 <= f < base + 8 } else { f == base }) ==> pawn_move(self@, Move(move_code(from as int, to as int, f as int))),
        ensures
            extends(old(moves)@, final(moves)@),
            forall|k: int| ghost_start@ <= k < final(moves)@.len() ==> pawn_move(self@, #[trigger] final(moves)@[k]),
            pawn_pushed(final(moves)@, from as int, to as int, base as int, promo),
            distinct_from(final(moves)@, old(moves)@.len() as int),
            forall|k: int| old(moves)@.len() <= k < final(moves)@.len() ==> {
                let m = #[trigger] final(moves)@[k];
                &&& m.spec_from() == from
                &&& m.spec_to() == to
                &&& if promo { base + 4 <= m.spec_flag() < base + 8 } else { m.spec_flag() == base }
            },
    {
        let ghost m0 = moves@;
        if promo {
            let flags: [u8; 4] = [4, 6, 7, 5];
            let mut i: usize = 0;
            proof {
                assert(moves@.subrange(0, m0.len() as int) =~= m0);
            }
            while i < 4
                invariant
                    from < 64,
                    to < 64,
                    base == 0 || base == 8,
                    promo,
                    0 <= ghost_start@ <= m0.len(),
                    flags@ == seq![4u8, 6u8, 7u8, 5u8],
                    extends(m0, moves@),
                    forall|k: int| ghost_start@ <= k < moves@.len() ==> pawn_move(self@, #[trigger] moves@[k]),
                    forall|f: u8| #![trigger move_code(from as int, to as int, f as int)]
                        (base + 4 <= f < base + 8) ==> pawn_move(self@, Move(move_code(from as int, to as int, f as int))),
                    i <= 4,
                    forall|j: int| 0 <= j < i ==> moves@.contains(Move(move_code(from as int, to as int, base + #[trigger] flags@[j]))),
                    moves@.len() == m0.len() + i,
                    distinct_from(moves@, m0.len() as int),
                    forall|k: int| m0.len() <= k < moves@.len() ==> {
                        let m = #[trigger] moves@[k];
                        &&& m.spec_from() == from
                        &&& m.spec_to() == to
                        &&& m.spec_flag() == base + flags@[k - m0.len()]
                    },
                decreases 4 - i,
            {
                let fl = base + flags[i];
                let mv = Move::new(from, to, MoveFlag(fl));
                proof {
                    assert(base + 4 <= fl < base + 8);
                    assert(pawn_move(self@, Move(move_code(from as int, to as int, fl as int))));
                    lemma_move_roundtrip(from as u16, to as u16, fl as u16);
                }
                let ghost before = moves@;
                moves.push(mv);
                proof {
                    assert forall|k: int| m0.len() <= k < moves@.len() implies {
                        let m = #[trigger] moves@[k];
                        &&& m.spec_from() == from
                        &&& m.spec_to() == to
                        &&& m.spec_flag() == base + flags@[k - m0.len()]
                    } by {
                        if k < before.len() {
                            assert(moves@[k] == before[k]);
                        }
                    }
                    assert forall|a: int, b: int| m0.len() <= a < b < moves@.len() implies moves@[a] != moves@[b] by {
                        assert(moves@[a].spec_flag() == base + flags@[a - m0.len()]);
                        assert(moves@[b].spec_flag() == base + flags@[b - m0.len()]);
                    }
                    assert(moves@.subrange(0, m0.len() as int) =~= before.subrange(0, m0.len() as int));
                    assert forall|k: int| ghost_start@ <= k < moves@.len() implies pawn_move(self@, #[trigger] moves@[k]) by {
                        if k < before.len() {
                            assert(moves@[k] == before[k]);
                        }
                    }
                    assert(extends(before, moves@)) by {
                        assert(moves@.subrange(0, before.len() as int) =~= before);
                    }
                    assert forall|j: int| 0 <= j < i + 1 implies moves@.contains(Move(move_code(from as int, to as int,
                        base + #[trigger] flags@[j]))) by {
                        if j < i {
                            lemma_extends_contains(before, moves@, Move(move_code(from as int, to as int, base + flags@[j])));
                        } else {
                            assert(moves@[before.len() as int] == mv);
                        }
                    }
                }
                i += 1;
            }
            proof {
                assert forall|k: int| m0.len() <= k < moves@.len() implies base + 4 <= (#[trigger] moves@[k]).spec_flag() < base + 8 by {
                    assert(moves@[k].spec_flag() == base + flags@[k - m0.len()]);
                }
                assert forall|f: int| #![trigger move_code(from as int, to as int, f)]
                    base + 4 <= f < base + 8 implies moves@.contains(Move(move_code(from as int, to as int, f))) by {
                    if f == base + 4 {
                        assert(flags@[0] == 4);
                    } else if f == base + 5 {
                        assert(flags@[3] == 5);
                    } else if f == base + 6 {
                        assert(flags@[1] == 6);
                    } else {
                        assert(flags@[2] == 7);
                    }
                }
            }
        } else {
            let mv = Move::new(from, to, MoveFlag(base));
            proof {
                assert(pawn_move(self@, Move(move_code(from as int, to as int, base as int))));
                lemma_move_roundtrip(from as u16, to as u16, base as u16);
            }
            moves.push(mv);
            proof {
                assert(moves@.subrange(0, m0.len() as int) =~= m0);
                assert forall|k: int| ghost_start@ <= k < moves@.len() implies pawn_move(self@, #[trigger] moves@[k]) by {
                    if k < m0.len() {
                        assert(moves@[k] == m0[k]);
                    }
                }
                assert(moves@[m0.len() as int] == mv);
            }
        }
    }
}

/// The origin of a push of `dist` squares to `t`.
pub open spec fn push_origin(v: BoardView, t: int, dist: int) -> int {
    if v.side == Color::White { t - dist } else { t + dist }
}

impl Board {
    fn pawn_push_loop(&self, moves: &mut Vec<Move>, targets: u64, dist: usize, ghost_start: Ghost<int>)
        requires
            self.wf(),
            dist == 8 || dist == 16,
            0 <= ghost_start@ <= old(moves)@.len(),
            forall|k: int| ghost_start@ <= k < old(moves)@.len() ==> pawn_move(self@, #[trigger] old(moves)@[k]),
            forall|t: int| 0 <= t < 64 && #[trigger] bit(targets, t) ==> {
                let from = push_origin(self@, t, dist as int);
                &&& 0 <= from < 64
                &&& self@.pieces[from] == own_color(self@) + 1
                &&& self@.pieces[t] == 0
                &&& dist == 16 ==> self@.pieces[(from + t) / 2] == 0 && (if self@.side == Color::White {
                    8 <= from < 16
                } else {
                    48 <= from < 56
                })
            },
        ensures
            extends(old(moves)@, final(moves)@),
            forall|k: int| ghost_start@ <= k < final(moves)@.len() ==> pawn_move(self@, #[trigger] final(moves)@[k]),
            forall|t: int| 0 <= t < 64 && bit(targets, t) ==> #[trigger] pawn_push_done(self@, final(moves)@, t, dist as int),
            distinct_from(final(moves)@, old(moves)@.len() as int),
            forall|k: int| old(moves)@.len() <= k < final(moves)@.len() ==> {
                let f = (#[trigger] final(moves)@[k]).spec_flag();
                &&& dist == 16 ==> f == 1
                &&& dist == 8 ==> f == 0 || 4 <= f < 8
            },
    {
        let ghost v = self@;
        let ghost m0 = moves@;
        proof {
            self.lemma_cells_pub();
            assert(moves@.subrange(0, moves@.len() as int) =~= moves@);
        }
        let white = self.side_to_move() == Color::White;
        let mut b = targets;
        while b != 0
            invariant
                self.wf(),
                v == self@,
                v.pieces.len() == 64,
                white == (v.side == Color::White),
                dist == 8 || dist == 16,
                0 <= ghost_start@ <= m0.len(),
                extends(old(moves)@, m0),
                m0 == old(moves)@,
                extends(m0, moves@),
                forall|k: int| ghost_start@ <= k < moves@.len() ==> pawn_move(v, #[trigger] moves@[k]),
                forall|s: int| 0 <= s < 64 && #[trigger] bit(b, s) ==> bit(targets, s),
                forall|t: int| 0 <= t < 64 && #[trigger] bit(targets, t) ==> {
                    let from = push_origin(v, t, dist as int);
                    &&& 0 <= from < 64
                    &&& v.pieces[from] == own_color(v) + 1
                    &&& v.pieces[t] == 0
                    &&& dist == 16 ==> v.pieces[(from + t) / 2] == 0 && (if v.side == Color::White {
                        8 <= from < 16
                    } else {
                        48 <= from < 56
                    })
                },
                forall|t: int| 0 <= t < 64 && bit(targets, t) && !bit(b, t) ==> #[trigger] pawn_push_done(v, moves@, t, dist as int),
                distinct_from(moves@, m0.len() as int),
                forall|k: int| m0.len() <= k < moves@.len() ==> {
                    let m = #[trigger] moves@[k];
                    &&& !bit(b, m.spec_to())
                    &&& dist == 16 ==> m.spec_flag() == 1
                    &&& dist == 8 ==> m.spec_flag() == 0 || 4 <= m.spec_flag() < 8
                },
            decreases b,
        {
            let ghost b_before = b;
            let to = pop_lsb(&mut b).unwrap();
            proof {
                assert(bit(b_before, to as int));
                assert(bit(targets, to as int));
            }
            let from = if white {
                to - dist
            } else {
                to + dist
            };
            let promo = dist == 8 && (if white {
                to >= 56
            } else {
                to < 8
            });
            let base: u8 = if dist == 16 {
                MoveFlag::DOUBLE_PUSH
            } else {
                MoveFlag::QUIET
            };
            proof {
                let own = own_color(v);
                assert forall|f: u8| #![trigger move_code(from as int, to as int, f as int)]
                    (if promo { base + 4 <= f < base + 8 } else { f == base }) implies pawn_move(v, Move(move_code(from as int, to as int, f as int))) by {
                    let m = Move(move_code(from as int, to as int, f as int));
                    lemma_move_roundtrip(from as u16, to as u16, f as u16);
                    crate::items::lemma_castle_flags(f);
                    assert(m.spec_from() == from);
                    assert(m.spec_to() == to);
                    assert(m.spec_flag() == f);
                    crate::board::lemma_piece_code(v.pieces[from as int]);
                    assert(cap_square(v, m) == to);
                    assert(move_ok(v, m));
                }
            }
            let ghost before = moves@;
            self.push_pawn(moves, from, to, base, promo, ghost_start);
            proof {
                lemma_extends_trans(m0, before, moves@);
                assert forall|i: int, j: int| m0.len() <= i < before.len() <= j < moves@.len() implies moves@[i] != moves@[j] by {
                    assert(moves@[i] == moves@.subrange(0, before.len() as int)[i]);
                    crate::items::lemma_move_bounds(before[i]);
                    assert(!bit(b_before, before[i].spec_to()));
                }
                lemma_distinct_join(before, moves@, m0.len() as int);
                assert forall|k: int| m0.len() <= k < moves@.len() implies {
                    let m = #[trigger] moves@[k];
                    &&& !bit(b, m.spec_to())
                    &&& dist == 16 ==> m.spec_flag() == 1
                    &&& dist == 8 ==> m.spec_flag() == 0 || 4 <= m.spec_flag() < 8
                } by {
                    crate::items::lemma_move_bounds(moves@[k]);
                    if k < before.len() {
                        assert(moves@[k] == moves@.subrange(0, before.len() as int)[k]);
                        assert(!bit(b_before, before[k].spec_to()));
                    }
                }
                assert forall|t: int| 0 <= t < 64 && bit(targets, t) && !bit(b, t)
                    implies #[trigger] pawn_push_done(v, moves@, t, dist as int) by {
                    if t != to {
                        assert(!bit(b_before, t));
                        assert(pawn_push_done(v, before, t, dist as int));
                        let fr = push_origin(v, t, dist as int);
                        lemma_pushed_extends(before, moves@, fr, t, if dist == 16 { 1 } else { 0 },
                            dist == 8 && last_rank(v, t));
                    }
                }
            }
        }
        proof {
            lemma_zero_iff_no_bits(b);
        }
    }

    fn pawn_capture_loop(&self, moves: &mut Vec<Move>, from: usize, atk: u64, ghost_start: Ghost<int>)
        requires
            self.wf(),
            ep_ok(self@),
            from < 64,
            self@.pieces[from as int] == own_color(self@) + 1,
            0 <= ghost_start@ <= old(moves)@.len(),
            forall|k: int| ghost_start@ <= k < old(moves)@.len() ==> pawn_move(self@, #[trigger] old(moves)@[k]),
            forall|t: int| 0 <= t < 64 && #[trigger] bit(atk, t) ==> pawn_step(self@.side == Color::White, from as int, t)
                && (self@.en_passant == Some(t as u8) || (is_piece(self@.pieces[t]) && self@.pieces[t] & 24u8 == enemy_color(self@))),
        ensures
            extends(old(moves)@, final(moves)@),
            forall|k: int| ghost_start@ <= k < final(moves)@.len() ==> pawn_move(self@, #[trigger] final(moves)@[k]),
            forall|t: int| 0 <= t < 64 && bit(atk, t) ==> #[trigger] pawn_capture_done(self@, final(moves)@, from as int, t),
            distinct_from(final(moves)@, old(moves)@.len() as int),
            forall|k: int| old(moves)@.len() <= k < final(moves)@.len() ==> {
                let m = #[trigger] final(moves)@[k];
                &&& m.spec_from() == from
                &&& m.spec_flag() >= 8
            },
    {
        let ghost v = self@;
        let ghost m0 = moves@;
        proof {
            self.lemma_cells_pub();
            assert(moves@.subrange(0, moves@.len() as int) =~= moves@);
        }
        let white = self.side_to_move() == Color::White;
        let ep = self.en_passant_square();
        let mut b = atk;
        while b != 0
            invariant
                self.wf(),
                v == self@,
                ep_ok(v),
                ep == v.en_passant,
                v.pieces.len() == 64,
                from < 64,
                v.pieces[from as int] == own_color(v) + 1,
                white == (v.side == Color::White),
                0 <= ghost_start@ <= m0.len(),
                m0 == old(moves)@,
                extends(m0, moves@),
                forall|k: int| ghost_start@ <= k < moves@.len() ==> pawn_move(v, #[trigger] moves@[k]),
                forall|s: int| 0 <= s < 64 && #[trigger] bit(b, s) ==> bit(atk, s),
                forall|t: int| 0 <= t < 64 && #[trigger] bit(atk, t) ==> pawn_step(white, from as int, t)
                    && (v.en_passant == Some(t as u8) || (is_piece(v.pieces[t]) && v.pieces[t] & 24u8 == enemy_color(v))),
                forall|t: int| 0 <= t < 64 && bit(atk, t) && !bit(b, t) ==> #[trigger] pawn_capture_done(v, moves@, from as int, t),
                distinct_from(moves@, m0.len() as int),
                forall|k: int| m0.len() <= k < moves@.len() ==> {
                    let m = #[trigger] moves@[k];
                    &&& !bit(b, m.spec_to())
                    &&& m.spec_from() == from
                    &&& m.spec_flag() >= 8
                },
            decreases b,
        {
            let ghost b_before = b;
            let to = pop_lsb(&mut b).unwrap();
            proof {
                assert(bit(b_before, to as int));
                assert(bit(atk, to as int));
            }
            let is_ep = match ep {
                Some(sq) => sq as usize == to,
                None => false,
            };
            let promo = !is_ep && (if white {
                to >= 56
            } else {
                to < 8
            });
            let base: u8 = if is_ep {
                MoveFlag::EN_PASSANT
            } else {
                MoveFlag::CAPTURE
            };
            proof {
                assert forall|f: u8| #![trigger move_code(from as int, to as int, f as int)]
                    (if promo { base + 4 <= f < base + 8 } else { f == base }) implies pawn_move(v, Move(move_code(from as int, to as int, f as int))) by {
                    let m = Move(move_code(from as int, to as int, f as int));
                    lemma_move_roundtrip(from as u16, to as u16, f as u16);
                    crate::items::lemma_castle_flags(f);
                    assert(m.spec_from() == from);
                    assert(m.spec_to() == to);
                    assert(m.spec_flag() == f);
                    crate::board::lemma_piece_code(v.pieces[from as int]);
                    if is_ep {
                        assert(v.en_passant == Some(to as u8));
                        let cs = cap_square(v, m);
                        if white {
                            assert(v.pieces[to - 8] == 17);
                            assert(cs == to - 8);
                        } else {
                            assert(v.pieces[to + 8] == 9);
                            assert(cs == to + 8);
                        }
                        crate::board::lemma_piece_code(v.pieces[cs]);
                        assert(from == to - 7 || from == to - 9 || from == to + 7 || from == to + 9);
                    } else {
                        crate::board::lemma_piece_code(v.pieces[to as int]);
                    }
                    assert(move_ok(v, m));
                }
            }
            let ghost before = moves@;
            if is_ep {
                self.push_pawn_flag(moves, from, to, base, Ghost(ghost_start@));
                proof {
                    lemma_extends_trans(m0, before, moves@);
                }
            } else {
                self.push_pawn(moves, from, to, base, promo, ghost_start);
                proof {
                    lemma_extends_trans(m0, before, moves@);
                }
            }
            proof {
                assert forall|i: int, j: int| m0.len() <= i < before.len() <= j < moves@.len() implies moves@[i] != moves@[j] by {
                    assert(moves@[i] == moves@.subrange(0, before.len() as int)[i]);
                    crate::items::lemma_move_bounds(before[i]);
                    assert(!bit(b_before, before[i].spec_to()));
                }
                lemma_distinct_join(before, moves@, m0.len() as int);
                assert forall|k: int| m0.len() <= k < moves@.len() implies {
                    let m = #[trigger] moves@[k];
                    &&& !bit(b, m.spec_to())
                    &&& m.spec_from() == from
                    &&& m.spec_flag() >= 8
                } by {
                    crate::items::lemma_move_bounds(moves@[k]);
                    if k < before.len() {
                        assert(moves@[k] == moves@.subrange(0, before.len() as int)[k]);
                        assert(!bit(b_before, before[k].spec_to()));
                    }
                }
                assert(is_ep == (v.en_passant == Some(to as u8)));
                assert(pawn_capture_done(v, moves@, from as int, to as int));
                assert forall|t: int| 0 <= t < 64 && bit(atk, t) && !bit(b, t)
                    implies #[trigger] pawn_capture_done(v, moves@, from as int, t) by {
                    if t != to {
                        assert(!bit(b_before, t));
                        assert(pawn_capture_done(v, before, from as int, t));
                        lemma_pushed_extends(before, moves@, from as int, t,
                            if v.en_passant == Some(t as u8) { 10 } else { 8 },
                            v.en_passant != Some(t as u8) && last_rank(v, t));
                    }
                }
            }
        }
        proof {
            lemma_zero_iff_no_bits(b);
        }
    }

    fn push_pawn_flag(&self, moves: &mut Vec<Move>, from: usize, to: usize, flag: u8, ghost_start: Ghost<int>)
        requires
            flag < 16,
            from < 64,
            to < 64,
            0 <= ghost_start@ <= old(moves)@.len(),
            forall|k: int| ghost_start@ <= k < old(moves)@.len() ==> pawn_move(self@, #[trigger] old(moves)@[k]),
            forall|f: u8| #![trigger move_code(from as int, to as int, f as int)]
                f == flag ==> pawn_move(self@, Move(move_code(from as int, to as int, f as int))),
        ensures
            extends(old(moves)@, final(moves)@),
            forall|k: int| ghost_start@ <= k < final(moves)@.len() ==> pawn_move(self@, #[trigger] final(moves)@[k]),
            final(moves)@.contains(Move(move_code(from as int, to as int, flag as int))),
            distinct_from(final(moves)@, old(moves)@.len() as int),
            forall|k: int| old(moves)@.len() <= k < final(moves)@.len() ==> {
                let m = #[trigger] final(moves)@[k];
                &&& m.spec_from() == from
                &&& m.spec_to() == to
                &&& m.spec_flag() == flag
            },
    {
        let ghost m0 = moves@;
        let mv = Move::new(from, to, MoveFlag(flag));
        proof {
            lemma_move_roundtrip(from as u16, to as u16, flag as u16);
        }
        proof {
            assert(pawn_move(self@, Move(move_code(from as int, to as int, flag as int))));
        }
        moves.push(mv);
        proof {
            assert(moves@.subrange(0, m0.len() as int) =~= m0);
            assert forall|k: int| ghost_start@ <= k < moves@.len() implies pawn_move(self@, #[trigger] moves@[k]) by {
                if k < m0.len() {
                    assert(moves@[k] == m0[k]);
                }
            }
            assert(moves@[m0.len() as int] == mv);
        }
    }
}

impl Board {
    /// Appends the pawn moves of the side to move: single and double pushes,
    /// captures, en passant, and the four promotions on the last rank.
    pub fn gen_pawn_moves(&self, moves: &mut Vec<Move>)
        requires
            self.wf(),
            ep_ok(self@),
        ensures
            extends(old(moves)@, final(moves)@),
            forall|k: int| old(moves)@.len() <= k < final(moves)@.len() ==> pawn_move(self@, #[trigger] final(moves)@[k]),
            forall|m: Move| pawn_move(self@, m) ==> final(moves)@.contains(m),
            distinct_from(final(moves)@, old(moves)@.len() as int),
    {
        let ghost v = self@;
        let ghost start = moves@.len() as int;
        proof {
            self.lemma_cells_pub();
        }
        let white = self.side_to_move() == Color::White;
        let color: u8 = if white {
            Piece::WHITE
        } else {
            Piece::BLACK
        };
        let pawn = color | Piece::PAWN;
        proof {
            crate::items::lemma_or_is_add(color, 1);
            crate::board::lemma_piece_code(pawn);
        }
        let pawn_bb = self.bb(pawn);
        let all = self.all_occ();
        let empty = !all;
        let single = if white {
            (pawn_bb << 8) & empty
        } else {
            (pawn_bb >> 8) & empty
        };
        let double = if white {
            ((pawn_bb & crate::consts::RANK2) << 16) & empty & (empty << 8)
        } else {
            ((pawn_bb & crate::consts::RANK7) >> 16) & empty & (empty >> 8)
        };
        proof {
            assert forall|t: int| 0 <= t < 64 && #[trigger] bit(single, t) implies {
                let from = push_origin(v, t, 8);
                &&& 0 <= from < 64
                &&& v.pieces[from] == own_color(v) + 1
                &&& v.pieces[t] == 0
            } by {
                let tu = t as u64;
                lemma_bit_ops(pawn_bb << 8u64, empty, 0, tu);
                lemma_bit_ops(pawn_bb >> 8u64, empty, 0, tu);
                lemma_bit_ops(all, all, 0, tu);
                lemma_shift(pawn_bb, tu);
            }
            assert forall|t: int| 0 <= t < 64 && #[trigger] bit(double, t) implies {
                let from = push_origin(v, t, 16);
                &&& 0 <= from < 64
                &&& v.pieces[from] == own_color(v) + 1
                &&& v.pieces[t] == 0
                &&& v.pieces[(from + t) / 2] == 0 && (if v.side == Color::White {
                    8 <= from < 16
                } else {
                    48 <= from < 56
                })
            } by {
                let tu = t as u64;
                if white {
                    let a = pawn_bb & crate::consts::RANK2;
                    lemma_bit_ops((a << 16u64) & empty, empty << 8u64, 0, tu);
                    lemma_bit_ops(a << 16u64, empty, 0, tu);
                    lemma_shift(a, tu);
                    lemma_shift(empty, tu);
                    lemma_bit_ops(all, all, 0, tu);
                    lemma_bit_ops(all, all, 0, (tu - 8) as u64);
                    lemma_bit_ops(pawn_bb, crate::consts::RANK2, 0, (tu - 16) as u64);
                    lemma_ranks((tu - 16) as u64);
                } else {
                    let a = pawn_bb & crate::consts::RANK7;
                    lemma_bit_ops((a >> 16u64) & empty, empty >> 8u64, 0, tu);
                    lemma_bit_ops(a >> 16u64, empty, 0, tu);
                    lemma_shift(a, tu);
                    lemma_shift(empty, tu);
                    lemma_bit_ops(all, all, 0, tu);
                    lemma_bit_ops(all, all, 0, (tu + 8) as u64);
                    lemma_bit_ops(pawn_bb, crate::consts::RANK7, 0, (tu + 16) as u64);
                    lemma_ranks((tu + 16) as u64);
                }
            }
        }
        self.pawn_push_loop(moves, single, 8, Ghost(start));
        let ghost m1 = moves@;
        self.pawn_push_loop(moves, double, 16, Ghost(start));
        let ghost m2 = moves@;
        proof {
            lemma_extends_trans(old(moves)@, m1, moves@);
            assert(moves@.subrange(0, moves@.len() as int) =~= moves@);
            assert forall|i: int, j: int| start <= i < m1.len() <= j < m2.len() implies m2[i] != m2[j] by {
                assert(m2[i] == m2.subrange(0, m1.len() as int)[i]);
                assert(m1[i].spec_flag() == 0 || 4 <= m1[i].spec_flag() < 8);
                assert(m2[j].spec_flag() == 1);
            }
            lemma_distinct_join(m1, m2, start);
            assert forall|k: int| start <= k < m2.len() implies (#[trigger] m2[k]).spec_flag() < 8 by {
                if k < m1.len() {
                    assert(m2[k] == m2.subrange(0, m1.len() as int)[k]);
                    assert(m1[k].spec_flag() == 0 || 4 <= m1[k].spec_flag() < 8);
                }
            }
        }
        let enemy = self.occ(&self.side_to_move().opponent());
        let ep = self.en_passant_square();
        let target = match ep {
            Some(sq) => enemy | mask(sq as usize),
            None => enemy,
        };
        proof {
            assert forall|t: int| 0 <= t < 64 && #[trigger] bit(target, t) implies (v.en_passant == Some(t as u8)
                || (is_piece(v.pieces[t]) && v.pieces[t] & 24u8 == enemy_color(v))) by {
                assert(crate::board::cell_ok(v.pieces[t]));
                lemma_color_of(v.pieces[t]);
                match ep {
                    Some(sq) => {
                        lemma_bit_ops(enemy, 1u64 << (sq as u64), sq as u64, t as u64);
                    },
                    None => {},
                }
            }
        }
        let mut b = pawn_bb;
        while b != 0
            invariant
                self.wf(),
                v == self@,
                ep_ok(v),
                v.pieces.len() == 64,
                white == (v.side == Color::White),
                0 <= start <= old(moves)@.len(),
                start == old(moves)@.len(),
                extends(old(moves)@, moves@),
                forall|k: int| start <= k < moves@.len() ==> pawn_move(v, #[trigger] moves@[k]),
                forall|s: int| 0 <= s < 64 && #[trigger] bit(b, s) ==> v.pieces[s] == own_color(v) + 1,
                forall|t: int| 0 <= t < 64 && #[trigger] bit(target, t) ==> (v.en_passant == Some(t as u8)
                    || (is_piece(v.pieces[t]) && v.pieces[t] & 24u8 == enemy_color(v))),
                extends(m2, moves@),
                forall|s: int| 0 <= s < 64 && #[trigger] bit(b, s) ==> bit(pawn_bb, s),
                forall|fr: int, t: int| 0 <= fr < 64 && bit(pawn_bb, fr) && !bit(b, fr) && 0 <= t < 64
                    && pawn_step(white, fr, t) && bit(target, t) ==> #[trigger] pawn_capture_done(v, moves@, fr, t),
                distinct_from(moves@, start),
                forall|k: int| start <= k < moves@.len() ==> (#[trigger] moves@[k]).spec_flag() < 8
                    || !bit(b, moves@[k].spec_from()),
            decreases b,
        {
            let ghost b_before = b;
            let from = pop_lsb(&mut b).unwrap();
            proof {
                assert(bit(b_before, from as int));
            }
            let pa = pawn_attacks(white, from);
            let atk = pa & target;
            proof {
                assert forall|t: int| 0 <= t < 64 && #[trigger] bit(atk, t) implies pawn_step(white, from as int, t)
                    && (v.en_passant == Some(t as u8) || (is_piece(v.pieces[t]) && v.pieces[t] & 24u8 == enemy_color(v))) by {
                    lemma_bit_ops(pa, target, 0, t as u64);
                }
            }
            let ghost before = moves@;
            self.pawn_capture_loop(moves, from, atk, Ghost(start));
            proof {
                lemma_extends_trans(old(moves)@, before, moves@);
                lemma_extends_trans(m2, before, moves@);
                assert forall|i: int, j: int| start <= i < before.len() <= j < moves@.len() implies moves@[i] != moves@[j] by {
                    assert(moves@[i] == moves@.subrange(0, before.len() as int)[i]);
                    crate::items::lemma_move_bounds(before[i]);
                    assert(before[i].spec_flag() < 8 || !bit(b_before, before[i].spec_from()));
                }
                lemma_distinct_join(before, moves@, start);
                assert forall|k: int| start <= k < moves@.len() implies (#[trigger] moves@[k]).spec_flag() < 8
                    || !bit(b, moves@[k].spec_from()) by {
                    crate::items::lemma_move_bounds(moves@[k]);
                    if k < before.len() {
                        assert(moves@[k] == moves@.subrange(0, before.len() as int)[k]);
                        assert(before[k].spec_flag() < 8 || !bit(b_before, before[k].spec_from()));
                    }
                }
                assert forall|fr: int, t: int| 0 <= fr < 64 && bit(pawn_bb, fr) && !bit(b, fr) && 0 <= t < 64
                    && pawn_step(white, fr, t) && bit(target, t) implies #[trigger] pawn_capture_done(v, moves@, fr, t) by {
                    if fr == from {
                        lemma_bit_ops(pa, target, 0, t as u64);
                        assert(bit(atk, t));
                    } else {
                        assert(!bit(b_before, fr));
                        assert(pawn_capture_done(v, before, fr, t));
                        lemma_pushed_extends(before, moves@, fr, t,
                            if v.en_passant == Some(t as u8) { 10 } else { 8 },
                            v.en_passant != Some(t as u8) && last_rank(v, t));
                    }
                }
            }
        }
        proof {
            lemma_zero_iff_no_bits(b);
            self.lemma_pawn_complete(moves@, m1, m2, pawn_bb, single, double, target, empty, all, enemy);
        }
    }

    /// Every pawn move of the side to move is among the generated ones.
    proof fn lemma_pawn_complete(&self, s: Seq<Move>, m1: Seq<Move>, m2: Seq<Move>, pawn_bb: u64, single: u64,
        double: u64, target: u64, empty: u64, all: u64, enemy: u64)
        requires
            self.wf(),
            ep_ok(self@),
            extends(m1, m2),
            extends(m2, s),
            forall|q: int| 0 <= q < 64 ==> #[trigger] bit(pawn_bb, q) == (self@.pieces[q] == own_color(self@) + 1),
            forall|q: int| 0 <= q < 64 ==> #[trigger] bit(all, q) == (self@.pieces[q] != 0),
            empty == !all,
            single == (if self@.side == Color::White { (pawn_bb << 8u64) & empty } else { (pawn_bb >> 8u64) & empty }),
            double == (if self@.side == Color::White {
                ((pawn_bb & 0xFF00u64) << 16u64) & empty & (empty << 8u64)
            } else {
                ((pawn_bb & 0x00FF_0000_0000_0000u64) >> 16u64) & empty & (empty >> 8u64)
            }),
            forall|q: int| 0 <= q < 64 ==> #[trigger] bit(enemy, q) == (if self@.side.spec_opponent() == Color::White {
                is_white_piece(self@.pieces[q])
            } else {
                is_black_piece(self@.pieces[q])
            }),
            target == (match self@.en_passant {
                Some(e) => enemy | (1u64 << (e as u64)),
                None => enemy,
            }),
            forall|t: int| 0 <= t < 64 && bit(single, t) ==> #[trigger] pawn_push_done(self@, m1, t, 8),
            forall|t: int| 0 <= t < 64 && bit(double, t) ==> #[trigger] pawn_push_done(self@, m2, t, 16),
            forall|fr: int, t: int| 0 <= fr < 64 && bit(pawn_bb, fr) && 0 <= t < 64
                && pawn_step(self@.side == Color::White, fr, t) && bit(target, t) ==> #[trigger] pawn_capture_done(self@, s, fr, t),
        ensures
            forall|m: Move| pawn_move(self@, m) ==> s.contains(m),
    {
        let v = self@;
        self.lemma_cells_pub();
        let white = v.side == Color::White;
        assert forall|m: Move| pawn_move(v, m) implies s.contains(m) by {
            let from = m.spec_from();
            let to = m.spec_to();
            let f = m.spec_flag();
            crate::items::lemma_move_bounds(m);
            lemma_move_code_eq(m);
            crate::items::lemma_castle_flags(f);
            assert(bit(pawn_bb, from));
            let tu = to as u64;
            lemma_bit_ops(all, all, 0, tu);
            if f == 0 || (4 <= f < 8) {
                lemma_shift(pawn_bb, tu);
                lemma_bit_ops(pawn_bb << 8u64, empty, 0, tu);
                lemma_bit_ops(pawn_bb >> 8u64, empty, 0, tu);
                assert(bit(single, to));
                assert(pawn_push_done(v, m1, to, 8));
                assert(push_origin(v, to, 8) == from);
                if f == 0 {
                    assert(m1.contains(Move(move_code(from, to, 0))));
                } else {
                    assert(m1.contains(Move(move_code(from, to, f as int))));
                }
                lemma_extends_contains(m1, m2, m);
                lemma_extends_contains(m2, s, m);
            } else if f == 1 {
                let mid = (from + to) / 2;
                lemma_bit_ops(all, all, 0, mid as u64);
                lemma_ranks(from as u64);
                if white {
                    let a = pawn_bb & 0xFF00u64;
                    lemma_bit_ops((a << 16u64) & empty, empty << 8u64, 0, tu);
                    lemma_bit_ops(a << 16u64, empty, 0, tu);
                    lemma_shift(a, tu);
                    lemma_shift(empty, tu);
                    lemma_bit_ops(pawn_bb, 0xFF00u64, 0, from as u64);
                    assert(mid == to - 8);
                } else {
                    let a = pawn_bb & 0x00FF_0000_0000_0000u64;
                    lemma_bit_ops((a >> 16u64) & empty, empty >> 8u64, 0, tu);
                    lemma_bit_ops(a >> 16u64, empty, 0, tu);
                    lemma_shift(a, tu);
                    lemma_shift(empty, tu);
                    lemma_bit_ops(pawn_bb, 0x00FF_0000_0000_0000u64, 0, from as u64);
                    assert(mid == to + 8);
                }
                assert(bit(double, to));
                assert(pawn_push_done(v, m2, to, 16));
                assert(push_origin(v, to, 16) == from);
                assert(m2.contains(Move(move_code(from, to, 1))));
                lemma_extends_contains(m2, s, m);
            } else {
                assert(pawn_step(white, from, to));
                assert(crate::board::cell_ok(v.pieces[to]));
                lemma_color_of(v.pieces[to]);
                match v.en_passant {
                    Some(e) => {
                        lemma_bit_ops(enemy, 1u64 << (e as u64), e as u64, tu);
                    },
                    None => {},
                }
                if f == 10 {
                    assert(bit(target, to));
                    assert(pawn_capture_done(v, s, from, to));
                    assert(s.contains(Move(move_code(from, to, 10))));
                } else {
                    assert(cap_square(v, m) == to);
                    assert(v.pieces[to] != 0);
                    assert(v.en_passant != Some(to as u8));
                    assert(bit(enemy, to));
                    assert(bit(target, to));
                    assert(pawn_capture_done(v, s, from, to));
                    if f == 8 {
                        assert(s.contains(Move(move_code(from, to, 8))));
                    } else {
                        assert(s.contains(Move(move_code(from, to, f as int))));
                    }
                }
            }
        }
    }
}

/// The first occupied square met when walking from `f` along (`dr`, `df`),
/// having already walked `n` empty squares.
pub open spec fn first_blocker(v: BoardView, f: int, dr: int, df: int, n: int) -> Option<int>
    decreases 8 - n,
{
    if n >= 8 || n < 0 {
        None
    } else if !on_ray(f, dr, df, n + 1) {
        None
    } else if v.pieces[ray_sq(f, dr, df, n + 1)] != 0 {
        Some(ray_sq(f, dr, df, n + 1))
    } else {
        first_blocker(v, f, dr, df, n + 1)
    }
}

/// The first piece along a direction is one of the two codes.
pub open spec fn ray_attacker(v: BoardView, f: int, dr: int, df: int, a: u8, b: u8) -> bool {
    match first_blocker(v, f, dr, df, 0) {
        Some(t) => v.pieces[t] == a || v.pieces[t] == b,
        None => false,
    }
}

/// Whether `pos` is attacked by the side opposite to `cur` (colour bits of
/// the attacker `ec`), the way `is_square_atacked` reads the board.
pub open spec fn attacked(v: BoardView, pos: int, cur_white: bool) -> bool {
    let ec: u8 = if cur_white { 16 } else { 8 };
    ||| ray_attacker(v, pos, 1, 1, (ec + 5) as u8, (ec + 3) as u8)
    ||| ray_attacker(v, pos, 1, -1, (ec + 5) as u8, (ec + 3) as u8)
    ||| ray_attacker(v, pos, -1, 1, (ec + 5) as u8, (ec + 3) as u8)
    ||| ray_attacker(v, pos, -1, -1, (ec + 5) as u8, (ec + 3) as u8)
    ||| ray_attacker(v, pos, 1, 0, (ec + 5) as u8, (ec + 4) as u8)
    ||| ray_attacker(v, pos, -1, 0, (ec + 5) as u8, (ec + 4) as u8)
    ||| ray_attacker(v, pos, 0, 1, (ec + 5) as u8, (ec + 4) as u8)
    ||| ray_attacker(v, pos, 0, -1, (ec + 5) as u8, (ec + 4) as u8)
    ||| exists|t: int| 0 <= t < 64 && #[trigger] knight_step(pos, t) && v.pieces[t] == ec + 2
    ||| exists|t: int| 0 <= t < 64 && #[trigger] king_step(pos, t) && v.pieces[t] == ec + 6
    ||| exists|t: int| 0 <= t < 64 && #[trigger] pawn_step(cur_white, pos, t) && v.pieces[t] == ec + 1
}

impl Board {
    /// Walks from `pos` along (`dr`, `df`) to the first occupied square and
    /// tells whether it holds `a` or `b`.
    fn ray_hits(&self, pos: usize, dr: i32, df: i32, a: u8, b: u8) -> (r: bool)
        requires
            self.wf(),
            pos < 64,
            -1 <= dr <= 1,
            -1 <= df <= 1,
            dr != 0 || df != 0,
        ensures
            r == ray_attacker(self@, pos as int, dr as int, df as int, a, b),
    {
        let ghost v = self@;
        proof {
            self.lemma_cells_pub();
        }
        let all_occ = self.all_occ();
        let mut sq = crate::square::Square::new(pos);
        let ghost mut n: int = 0;
        let mut result = false;
        proof {
            assert(ray_sq(pos as int, dr as int, df as int, 0) == pos) by (nonlinear_arith)
                requires 0 <= pos < 64;
        }
        loop
            invariant
                self.wf(),
                v == self@,
                v.pieces.len() == 64,
                pos < 64,
                -1 <= dr <= 1,
                -1 <= df <= 1,
                dr != 0 || df != 0,
                0 <= n < 8,
                on_ray(pos as int, dr as int, df as int, n),
                sq.0 == ray_sq(pos as int, dr as int, df as int, n),
                sq.0 < 64,
                first_blocker(v, pos as int, dr as int, df as int, n) == first_blocker(v, pos as int, dr as int, df as int, 0),
                forall|t: int| 0 <= t < 64 ==> #[trigger] bit(all_occ, t) == (v.pieces[t] != 0),
            ensures
                result == ray_attacker(v, pos as int, dr as int, df as int, a, b),
            decreases 8 - n,
        {
            proof {
                lemma_ray_step(pos as int, dr as int, df as int, n);
            }
            let next = match sq.offset(dr, df) {
                Some(nx) => nx,
                None => {
                    proof {
                        assert(!on_ray(pos as int, dr as int, df as int, n + 1)) by (nonlinear_arith)
                            requires sq.0 / 8 == pos / 8 + n * dr, sq.0 % 8 == pos % 8 + n * df,
                                !(0 <= sq.0 / 8 + dr < 8 && 0 <= sq.0 % 8 + df < 8);
                    }
                    result = false;
                    break;
                },
            };
            let ghost n1 = n + 1;
            proof {
                assert(ray_sq(pos as int, dr as int, df as int, n1) == (sq.0 / 8 + dr) * 8 + (sq.0 % 8 + df)) by (nonlinear_arith)
                    requires sq.0 / 8 == pos / 8 + n * dr, sq.0 % 8 == pos % 8 + n * df, n1 == n + 1;
                assert(on_ray(pos as int, dr as int, df as int, n1)) by (nonlinear_arith)
                    requires sq.0 / 8 == pos / 8 + n * dr, sq.0 % 8 == pos % 8 + n * df, n1 == n + 1,
                        0 <= sq.0 / 8 + dr < 8, 0 <= sq.0 % 8 + df < 8;
                lemma_ray_step(pos as int, dr as int, df as int, n1);
                if n1 >= 8 {
                    assert(false) by (nonlinear_arith)
                        requires n1 >= 8, 0 <= pos / 8 + n1 * dr < 8, 0 <= pos % 8 + n1 * df < 8,
                            0 <= pos / 8 < 8, 0 <= pos % 8 < 8, -1 <= dr <= 1, -1 <= df <= 1, dr != 0 || df != 0;
                }
            }
            let t = next.index();
            proof {
                lemma_mask_and(all_occ, t as u64);
            }
            if mask(t) & all_occ != 0 {
                let p = self.piece_on(t);
                result = p == a || p == b;
                break;
            }
            sq = next;
            proof {
                n = n1;
            }
        }
        result
    }

    /// Whether `pos` is attacked by the opponent of `cur_color`.
    pub fn is_square_atacked(&self, pos: usize, cur_color: &Color) -> (r: bool)
        requires
            self.wf(),
            pos < 64,
        ensures
            r == attacked(self@, pos as int, *cur_color == Color::White),
    {
        let ghost v = self@;
        proof {
            self.lemma_cells_pub();
        }
        let cur_white = *cur_color == Color::White;
        let ec: u8 = if cur_white {
            Piece::BLACK
        } else {
            Piece::WHITE
        };
        let queen = ec + Piece::QUEEN;
        let bishop = ec + Piece::BISHOP;
        let rook = ec + Piece::ROOK;
        if self.ray_hits(pos, 1, 1, queen, bishop) || self.ray_hits(pos, 1, -1, queen, bishop)
            || self.ray_hits(pos, -1, 1, queen, bishop) || self.ray_hits(pos, -1, -1, queen, bishop)
        {
            return true;
        }
        if self.ray_hits(pos, 1, 0, queen, rook) || self.ray_hits(pos, -1, 0, queen, rook)
            || self.ray_hits(pos, 0, 1, queen, rook) || self.ray_hits(pos, 0, -1, queen, rook)
        {
            return true;
        }
        let knight = ec + Piece::KNIGHT;
        let king = ec + Piece::KING;
        let pawn = ec + Piece::PAWN;
        proof {
            crate::board::lemma_piece_code(knight);
            crate::board::lemma_piece_code(king);
            crate::board::lemma_piece_code(pawn);
        }
        let en_knight = self.bb(knight);
        let en_king = self.bb(king);
        let en_pawn = self.bb(pawn);
        let ka = knight_attacks(pos);
        let kg = king_attacks(pos);
        let pa = pawn_attacks(cur_white, pos);
        let hit_n = (en_knight & ka) != 0;
        let hit_k = (en_king & kg) != 0;
        let hit_p = (en_pawn & pa) != 0;
        proof {
            lemma_hit(en_knight, ka);
            lemma_hit(en_king, kg);
            lemma_hit(en_pawn, pa);
            if hit_n {
                let t = choose|t: int| 0 <= t < 64 && bit(en_knight, t) && bit(ka, t);
                assert(knight_step(pos as int, t));
            }
            if hit_k {
                let t = choose|t: int| 0 <= t < 64 && bit(en_king, t) && bit(kg, t);
                assert(king_step(pos as int, t));
            }
            if hit_p {
                let t = choose|t: int| 0 <= t < 64 && bit(en_pawn, t) && bit(pa, t);
                assert(pawn_step(cur_white, pos as int, t));
            }
            assert forall|t: int| 0 <= t < 64 && #[trigger] knight_step(pos as int, t) && v.pieces[t] == knight implies hit_n by {
                assert(bit(en_knight, t) && bit(ka, t));
            }
            assert forall|t: int| 0 <= t < 64 && #[trigger] king_step(pos as int, t) && v.pieces[t] == king implies hit_k by {
                assert(bit(en_king, t) && bit(kg, t));
            }
            assert forall|t: int| 0 <= t < 64 && #[trigger] pawn_step(cur_white, pos as int, t) && v.pieces[t] == pawn implies hit_p by {
                assert(bit(en_pawn, t) && bit(pa, t));
            }
        }
        hit_n || hit_k || hit_p
    }
}

/// Two boards share a square exactly when their intersection is non-empty.
proof fn lemma_hit(a: u64, b: u64)
    ensures
        (a & b != 0) <==> exists|t: int| 0 <= t < 64 && bit(a, t) && bit(b, t),
{
    lemma_zero_iff_no_bits(a & b);
    if a & b != 0 {
        let t = choose|t: int| 0 <= t < 64 && bit(a & b, t);
        lemma_bit_ops(a, b, 0, t as u64);
    } else {
        assert forall|t: int| 0 <= t < 64 implies !(bit(a, t) && bit(b, t)) by {
            lemma_bit_ops(a, b, 0, t as u64);
            assert(!bit(a & b, t));
        }
    }
}

/// The king start square of the side to move.
pub open spec fn home(v: BoardView) -> int {
    if v.side == Color::White { 4 } else { 60 }
}

/// A castling move the side to move may play: the right is held, the king
/// stands on its start square and is not attacked, the squares between king
/// and rook are empty, the rook is in its corner, and the squares the king
/// crosses are not attacked.
pub open spec fn castle_move(v: BoardView, m: Move) -> bool {
    let kp = home(v);
    let white = v.side == Color::White;
    let own = own_color(v);
    &&& m.spec_from() == kp
    &&& v.pieces[kp] == own + 6
    &&& !attacked(v, kp, white)
    &&& if m.spec_flag() == 2 {
        &&& m.spec_to() == kp + 2
        &&& v.castling & (if white { 1u8 } else { 4u8 }) != 0
        &&& v.pieces[kp + 1] == 0 && v.pieces[kp + 2] == 0
        &&& v.pieces[kp + 3] == own + 4
        &&& !attacked(v, kp + 1, white) && !attacked(v, kp + 2, white)
    } else {
        &&& m.spec_flag() == 3
        &&& m.spec_to() == kp - 2
        &&& v.castling & (if white { 2u8 } else { 8u8 }) != 0
        &&& v.pieces[kp - 1] == 0 && v.pieces[kp - 2] == 0 && v.pieces[kp - 3] == 0
        &&& v.pieces[kp - 4] == own + 4
        &&& !attacked(v, kp - 1, white) && !attacked(v, kp - 2, white)
    }
}

/// The lowest square at or after `i` holding `code`; 64 when there is none.
pub open spec fn find_from(pieces: Seq<u8>, code: u8, i: int) -> int
    decreases 64 - i,
{
    if i >= 64 || i < 0 {
        64
    } else if pieces[i] == code {
        i
    } else {
        find_from(pieces, code, i + 1)
    }
}

/// The square of the lowest king of the side whose colour bits are `c`.
pub open spec fn king_square(v: BoardView, c: u8) -> int {
    find_from(v.pieces, (c + 6) as u8, 0)
}

proof fn lemma_find_lowest(pieces: Seq<u8>, code: u8, sq: int, i: int)
    requires
        0 <= i <= sq < 64,
        pieces[sq] == code,
        forall|j: int| 0 <= j < sq ==> pieces[j] != code,
    ensures
        find_from(pieces, code, i) == sq,
    decreases sq - i,
{
    if i < sq {
        lemma_find_lowest(pieces, code, sq, i + 1);
    }
}

proof fn lemma_find_none(pieces: Seq<u8>, code: u8, i: int)
    requires
        0 <= i <= 64,
        forall|j: int| i <= j < 64 ==> pieces[j] != code,
    ensures
        find_from(pieces, code, i) == 64,
    decreases 64 - i,
{
    if i < 64 {
        lemma_find_none(pieces, code, i + 1);
    }
}

proof fn lemma_find_found(pieces: Seq<u8>, code: u8, i: int)
    requires
        0 <= i <= 64,
    ensures
        find_from(pieces, code, i) < 64 ==> pieces[find_from(pieces, code, i)] == code
            && i <= find_from(pieces, code, i),
        find_from(pieces, code, i) == 64 || find_from(pieces, code, i) < 64,
        (exists|j: int| i <= j < 64 && pieces[j] == code) ==> find_from(pieces, code, i) < 64,
    decreases 64 - i,
{
    if i < 64 {
        lemma_find_found(pieces, code, i + 1);
    }
}

/// The square `find_from` returns holds the code, when it is on the board.
pub proof fn lemma_find_found_pub(pieces: Seq<u8>, code: u8, i: int)
    requires
        0 <= i <= 64,
    ensures
        find_from(pieces, code, i) < 64 ==> pieces[find_from(pieces, code, i)] == code
            && i <= find_from(pieces, code, i),
        (exists|j: int| i <= j < 64 && pieces[j] == code) ==> find_from(pieces, code, i) < 64,
{
    lemma_find_found(pieces, code, i);
}

impl Board {
    /// The lowest square holding `piece`, found through its bitboard.
    pub fn lowest_square(&self, piece: u8) -> (r: Option<usize>)
        requires
            self.wf(),
            is_piece(piece),
        ensures
            r == (if find_from(self@.pieces, piece, 0) < 64 {
                Some(find_from(self@.pieces, piece, 0) as usize)
            } else {
                None::<usize>
            }),
    {
        proof {
            crate::board::lemma_piece_code(piece);
            self.lemma_cells_pub();
        }
        let mut b = self.bb(piece);
        let ghost b0 = b;
        let r = pop_lsb(&mut b);
        proof {
            match r {
                Some(sq) => {
                    assert forall|j: int| 0 <= j < sq implies self@.pieces[j] != piece by {
                        assert(!bit(b0, j));
                    }
                    lemma_find_lowest(self@.pieces, piece, sq as int, 0);
                },
                None => {
                    lemma_zero_iff_no_bits(b0);
                    assert forall|j: int| 0 <= j < 64 implies self@.pieces[j] != piece by {
                        assert(!bit(b0, j));
                    }
                    lemma_find_none(self@.pieces, piece, 0);
                },
            }
        }
        r
    }

    fn can_castle_kingside(&self, king_pos: usize, color: &Color) -> (r: bool)
        requires
            self.wf(),
            king_pos < 64,
            *color == self@.side,
        ensures
            r == (king_pos == home(self@) && !attacked(self@, king_pos as int, *color == Color::White)
                && self@.pieces[king_pos + 1] == 0 && self@.pieces[king_pos + 2] == 0
                && self@.pieces[king_pos + 3] == own_color(self@) + 4
                && !attacked(self@, king_pos + 1, *color == Color::White)
                && !attacked(self@, king_pos + 2, *color == Color::White)),
    {
        let white = *color == Color::White;
        let start_pos = if white {
            crate::consts::WK_START_POS
        } else {
            crate::consts::BK_START_POS
        };
        let rook: u8 = if white {
            Piece::WHITE | Piece::ROOK
        } else {
            Piece::BLACK | Piece::ROOK
        };
        proof {
            crate::bits::lemma_byte_facts(0);
        }
        if start_pos != king_pos {
            return false;
        }
        if self.is_square_atacked(king_pos, color) {
            return false;
        }
        if self.piece_on(king_pos + 1) != 0 || self.piece_on(king_pos + 2) != 0 {
            return false;
        }
        if self.piece_on(king_pos + 3) != rook {
            return false;
        }
        !self.is_square_atacked(king_pos + 1, color) && !self.is_square_atacked(king_pos + 2, color)
    }

    fn can_castle_queenside(&self, king_pos: usize, color: &Color) -> (r: bool)
        requires
            self.wf(),
            king_pos < 64,
            *color == self@.side,
        ensures
            r == (king_pos == home(self@) && !attacked(self@, king_pos as int, *color == Color::White)
                && self@.pieces[king_pos - 1] == 0 && self@.pieces[king_pos - 2] == 0
                && self@.pieces[king_pos - 3] == 0
                && self@.pieces[king_pos - 4] == own_color(self@) + 4
                && !attacked(self@, king_pos - 1, *color == Color::White)
                && !attacked(self@, king_pos - 2, *color == Color::White)),
    {
        let white = *color == Color::White;
        let start_pos = if white {
            crate::consts::WK_START_POS
        } else {
            crate::consts::BK_START_POS
        };
        let rook: u8 = if white {
            Piece::WHITE | Piece::ROOK
        } else {
            Piece::BLACK | Piece::ROOK
        };
        proof {
            crate::bits::lemma_byte_facts(0);
        }
        if start_pos != king_pos {
            return false;
        }
        if self.is_square_atacked(king_pos, color) {
            return false;
        }
        if self.piece_on(king_pos - 1) != 0 || self.piece_on(king_pos - 2) != 0 || self.piece_on(king_pos - 3) != 0 {
            return false;
        }
        if self.piece_on(king_pos - 4) != rook {
            return false;
        }
        !self.is_square_atacked(king_pos - 1, color) && !self.is_square_atacked(king_pos - 2, color)
    }

    /// Appends the castling moves of the side to move.
    fn gen_castling_moves(&self, moves: &mut Vec<Move>)
        requires
            self.wf(),
            king_square(self@, own_color(self@)) < 64,
        ensures
            extends(old(moves)@, final(moves)@),
            forall|k: int| old(moves)@.len() <= k < final(moves)@.len() ==> move_ok(self@, #[trigger] final(moves)@[k])
                && castle_move(self@, final(moves)@[k]),
            forall|m: Move| castle_move(self@, m) && king_square(self@, own_color(self@)) == home(self@)
                ==> appended(old(moves)@, final(moves)@).contains(m),
            distinct_from(final(moves)@, old(moves)@.len() as int),
    {
        let ghost v = self@;
        let ghost m0 = moves@;
        proof {
            self.lemma_cells_pub();
            assert(moves@.subrange(0, moves@.len() as int) =~= moves@);
        }
        let color = self.side_to_move();
        let white = color == Color::White;
        let king: u8 = if white {
            Piece::WHITE | Piece::KING
        } else {
            Piece::BLACK | Piece::KING
        };
        proof {
            crate::bits::lemma_byte_facts(0);
        }
        let rights = self.castling_rights();
        let (ks_rights, qs_rights) = if white {
            (rights.white_kingside(), rights.white_queenside())
        } else {
            (rights.black_kingside(), rights.black_queenside())
        };
        let king_pos = match self.lowest_square(king) {
            Some(k) => k,
            None => {
                return;
            },
        };
        proof {
            lemma_find_found(v.pieces, king, 0);
        }
        if ks_rights && self.can_castle_kingside(king_pos, &color) {
            let mv = Move::new(king_pos, king_pos + 2, MoveFlag(MoveFlag::KING_CASTLE));
            proof {
                lemma_move_roundtrip(king_pos as u16, (king_pos + 2) as u16, 2);
                crate::items::lemma_castle_flags(2);
                crate::board::lemma_piece_code(king);
                crate::board::lemma_black_bit(king);
                assert(king_home(v.pieces[king_pos as int]) == king_pos);
                assert(promoted_pieces(v, mv)[king_pos + 3] == v.pieces[king_pos + 3]);
                assert(move_ok(v, mv));
                assert(castle_move(v, mv));
            }
            moves.push(mv);
        }
        let ghost m1 = moves@;
        if qs_rights && self.can_castle_queenside(king_pos, &color) {
            let mv = Move::new(king_pos, king_pos - 2, MoveFlag(MoveFlag::QUEEN_CASTLE));
            proof {
                lemma_move_roundtrip(king_pos as u16, (king_pos - 2) as u16, 3);
                crate::items::lemma_castle_flags(3);
                crate::board::lemma_piece_code(king);
                crate::board::lemma_black_bit(king);
                assert(king_home(v.pieces[king_pos as int]) == king_pos);
                assert(promoted_pieces(v, mv)[king_pos - 4] == v.pieces[king_pos - 4]);
                assert(move_ok(v, mv));
                assert(castle_move(v, mv));
            }
            moves.push(mv);
        }
        proof {
            assert(moves@.subrange(0, m0.len() as int) =~= m0);
            assert forall|m: Move| castle_move(v, m) && king_square(v, own_color(v)) == home(v)
                implies appended(m0, moves@).contains(m) by {
                lemma_move_roundtrip(m.spec_from() as u16, m.spec_to() as u16, m.spec_flag() as u16);
                crate::items::lemma_move_bounds(m);
                lemma_move_code_eq(m);
                if m.spec_flag() == 2 {
                    assert(appended(m0, moves@)[0] == m);
                } else {
                    assert(appended(m0, moves@)[appended(m0, moves@).len() - 1] == m);
                }
            }
            assert forall|i: int, j: int| m0.len() <= i < j < moves@.len() implies moves@[i] != moves@[j] by {
                assert(castle_move(v, moves@[i]) && castle_move(v, moves@[j]));
                assert(i < m1.len() && m1.len() <= j);
            }
        }
    }
}

/// A move is the code of its own fields.
proof fn lemma_move_code_eq(m: Move)
    ensures
        m == Move(move_code(m.spec_from(), m.spec_to(), m.spec_flag() as int)),
{
    let c = m.0;
    assert(c == (c & 0x3Fu16) + ((c >> 6u16) & 0x3Fu16) * 64 + ((c >> 12u16) & 0xFu16) * 4096) by (bit_vector);
}

/// A pseudo-legal move after which the mover's king is not attacked.
pub open spec fn legal_move(v: BoardView, m: Move) -> bool {
    let after = made(v, m);
    &&& move_ok(v, m)
    &&& !attacked(after, king_square(after, own_color(v)), v.side == Color::White)
}

/// A pseudo-legal move leaves the mover's king on the board.
pub proof fn lemma_king_survives(b: Board, m: Move)
    requires
        b.wf(),
        move_ok(b@, m),
        king_square(b@, own_color(b@)) < 64,
    ensures
        king_square(made(b@, m), own_color(b@)) < 64,
{
    let v = b@;
    b.lemma_cells_pub();
    crate::items::lemma_move_bounds(m);
    crate::items::lemma_castle_flags(m.spec_flag());
    let own = own_color(v);
    let king = (own + 6) as u8;
    let ks = king_square(v, own);
    lemma_find_found(v.pieces, king, 0);
    let w = made(v, m);
    let from = m.spec_from();
    let to = m.spec_to();
    let f = m.spec_flag();
    crate::board::lemma_piece_code(v.pieces[from]);
    assert(crate::board::cell_ok(v.pieces[cap_square(v, m)]));
    if cap_square(v, m) != to {
        crate::board::lemma_piece_code(v.pieces[cap_square(v, m)]);
    }
    assert(crate::board::cell_ok(v.pieces[to]));
    if v.pieces[to] != 0 {
        crate::board::lemma_piece_code(v.pieces[to]);
    }
    let kp = king_home(v.pieces[from]);
    let p2 = crate::board::moved_pieces(v, m);
    let p3 = promoted_pieces(v, m);
    if f == 2 {
        assert(crate::board::cell_ok(v.pieces[kp + 3]));
    }
    if f == 3 {
        assert(crate::board::cell_ok(v.pieces[kp - 4]));
    }
    if from == ks {
        assert(p2[to] == king);
        assert(p3[to] == king);
        assert(w.pieces[to] == king);
    } else {
        assert(ks != cap_square(v, m));
        assert(ks != to);
        assert(p2[ks] == king);
        assert(p3[ks] == king);
        if f == 2 && ks == kp + 3 {
            assert(w.pieces[kp + 1] == king);
        } else if f == 3 && ks == kp - 4 {
            assert(w.pieces[kp - 1] == king);
        } else {
            assert(w.pieces[ks] == king);
        }
    }
    lemma_find_found(w.pieces, king, 0);
}

impl Board {
    /// Keeps the moves after which the mover's king is not attacked; the
    /// board is left as it was.
    fn filter_illegal(&mut self, moves: Vec<Move>) -> (r: Vec<Move>)
        requires
            old(self).wf(),
            king_square(old(self)@, own_color(old(self)@)) < 64,
            forall|k: int| 0 <= k < moves@.len() ==> move_ok(old(self)@, #[trigger] moves@[k]),
        ensures
            *final(self) == *old(self),
            r@ == moves@.filter(|m: Move| legal_move(old(self)@, m)),
    {
        let ghost v = self@;
        let ghost b0 = *self;
        let mut legal: Vec<Move> = Vec::new();
        let color = self.side_to_move();
        let king: u8 = if color == Color::White {
            Piece::WHITE | Piece::KING
        } else {
            Piece::BLACK | Piece::KING
        };
        proof {
            crate::bits::lemma_byte_facts(0);
            assert(moves@.take(0) =~= Seq::<Move>::empty());
            reveal_with_fuel(Seq::<Move>::filter, 1);
        }
        let mut i: usize = 0;
        while i < moves.len()
            invariant
                *self == b0,
                b0.wf(),
                v == b0@,
                color == v.side,
                king == own_color(v) + 6,
                king_square(v, own_color(v)) < 64,
                0 <= i <= moves@.len(),
                forall|k: int| 0 <= k < moves@.len() ==> move_ok(v, #[trigger] moves@[k]),
                legal@ == moves@.take(i as int).filter(|m: Move| legal_move(v, m)),
            decreases moves@.len() - i,
        {
            let mv = moves[i];
            proof {
                assert(move_ok(v, mv));
                lemma_make_undo(b0, mv);
                lemma_king_survives(b0, mv);
            }
            let undo = self.make_move(&mv);
            proof {
                crate::board::lemma_piece_code(king);
            }
            let found = self.lowest_square(king);
            proof {
                assert(found is Some);
            }
            let king_pos = found.unwrap();
            proof {
                assert((own_color(v) + 6) as u8 == king);
                assert(self@ == made(v, mv));
                lemma_find_found(self@.pieces, king, 0);
                assert(king_square(made(v, mv), own_color(v)) == find_from(self@.pieces, king, 0));
                assert(found == Some(find_from(self@.pieces, king, 0) as usize));
                assert(king_pos == king_square(made(v, mv), own_color(v)));
            }
            let safe = !self.is_square_atacked(king_pos, &color);
            if safe {
                legal.push(mv);
            }
            self.undo_move(&mv, &undo);
            proof {
                Board::lemma_view_determines(*self, b0);
                let pred = |m: Move| legal_move(v, m);
                assert(moves@.take(i + 1).drop_last() =~= moves@.take(i as int));
                assert(moves@.take(i + 1).last() == mv);
                reveal_with_fuel(Seq::<Move>::filter, 1);
                assert(pred(mv) == safe);
            }
            i += 1;
        }
        proof {
            assert(moves@.take(moves@.len() as int) =~= moves@);
        }
        legal
    }
}

/// A slider move of a bishop (diagonal), rook (straight) or queen (either).
pub open spec fn slider_kind(v: BoardView, m: Move) -> bool {
    let p = v.pieces[m.spec_from()];
    let own = own_color(v);
    &&& move_ok(v, m)
    &&& m == target_move(v, m.spec_from(), m.spec_to())
    &&& (p == own + 3 || p == own + 4 || p == own + 5)
    &&& exists|dr: int, df: int, n: int| {
        &&& -1 <= dr <= 1 && -1 <= df <= 1 && (dr != 0 || df != 0)
        &&& (p == own + 3 ==> dr != 0 && df != 0)
        &&& (p == own + 4 ==> dr == 0 || df == 0)
        &&& #[trigger] slides(v, m.spec_from(), dr, df, n, m.spec_to())
    }
}

/// The kinds of move the generators produce.
pub open spec fn pseudo_kind(v: BoardView, m: Move) -> bool {
    let own = own_color(v);
    ||| leaper_move(v, m, (own + 6) as u8, true)
    ||| leaper_move(v, m, (own + 2) as u8, false)
    ||| pawn_move(v, m)
    ||| slider_kind(v, m)
    ||| (move_ok(v, m) && castle_move(v, m))
}

/// Filtering keeps a list free of repeats.
proof fn lemma_filter_distinct(s: Seq<Move>, pred: spec_fn(Move) -> bool)
    requires
        distinct_from(s, 0),
    ensures
        distinct_from(s.filter(pred), 0),
    decreases s.len(),
{
    reveal_with_fuel(Seq::<Move>::filter, 1);
    if s.len() > 0 {
        let d = s.drop_last();
        assert(distinct_from(d, 0)) by {
            assert forall|i: int, j: int| 0 <= i < j < d.len() implies d[i] != d[j] by {
                assert(d[i] == s[i] && d[j] == s[j]);
            }
        }
        lemma_filter_distinct(d, pred);
        let sub = d.filter(pred);
        if pred(s.last()) {
            assert forall|i: int| 0 <= i < sub.len() implies sub[i] != s.last() by {
                lemma_filter_subset(d, pred, i);
                let k = choose|k: int| 0 <= k < d.len() && d[k] == sub[i];
                assert(s[k] == d[k]);
                assert(s[s.len() - 1] == s.last());
            }
            assert forall|i: int, j: int| 0 <= i < j < sub.push(s.last()).len() implies sub.push(s.last())[i]
                != sub.push(s.last())[j] by {
                if j == sub.len() {
                    assert(sub.push(s.last())[j] == s.last());
                    assert(sub.push(s.last())[i] == sub[i]);
                } else {
                    assert(sub.push(s.last())[i] == sub[i] && sub.push(s.last())[j] == sub[j]);
                }
            }
        }
    }
}

/// Appending keeps what was at each index.
proof fn lemma_extends_index(a: Seq<Move>, b: Seq<Move>, i: int)
    requires
        extends(a, b),
        0 <= i < a.len(),
    ensures
        b[i] == a[i],
{
    assert(b.subrange(0, a.len() as int)[i] == b[i]);
}

proof fn lemma_filter_subset(s: Seq<Move>, pred: spec_fn(Move) -> bool, i: int)
    requires
        0 <= i < s.filter(pred).len(),
    ensures
        s.contains(s.filter(pred)[i]),
        pred(s.filter(pred)[i]),
    decreases s.len(),
{
    reveal_with_fuel(Seq::<Move>::filter, 1);
    s.filter_lemma(pred);
    if s.len() > 0 {
        let sub = s.drop_last().filter(pred);
        if i < sub.len() {
            lemma_filter_subset(s.drop_last(), pred, i);
            let j = choose|j: int| 0 <= j < s.drop_last().len() && s.drop_last()[j] == sub[i];
            assert(s[j] == sub[i]);
            assert(s.filter(pred)[i] == sub[i]);
        } else {
            assert(s.filter(pred)[i] == s.last());
        }
    }
}

impl Board {
    /// The legal moves of the side to move; the board is left as it was.
    /// Every legal move of a kind the generators know is listed (castling
    /// when the king is found on its start square).
    pub fn gen_moves(&mut self) -> (r: Vec<Move>)
        requires
            old(self).wf(),
            ep_ok(old(self)@),
            king_square(old(self)@, own_color(old(self)@)) < 64,
        ensures
            *final(self) == *old(self),
            forall|k: int| 0 <= k < r@.len() ==> legal_move(old(self)@, #[trigger] r@[k]) && pseudo_kind(old(self)@, r@[k]),
            forall|m: Move| legal_move(old(self)@, m) && pseudo_kind(old(self)@, m)
                && (castle_move(old(self)@, m) ==> king_square(old(self)@, own_color(old(self)@)) == home(old(self)@))
                ==> r@.contains(m),
            r@.no_duplicates(),
    {
        let ghost v = self@;
        let mut moves: Vec<Move> = Vec::new();
        self.gen_king_moves(&mut moves);
        let ghost s1 = moves@;
        self.gen_knight_moves(&mut moves);
        let ghost s2 = moves@;
        self.gen_pawn_moves(&mut moves);
        let ghost s3 = moves@;
        let color: u8 = if self.side_to_move() == Color::White {
            Piece::WHITE
        } else {
            Piece::BLACK
        };
        proof {
            crate::items::lemma_or_is_add(color, 3);
            crate::items::lemma_or_is_add(color, 4);
            crate::items::lemma_or_is_add(color, 5);
            crate::board::lemma_piece_code(color | 3);
            crate::board::lemma_piece_code(color | 4);
            crate::board::lemma_piece_code(color | 5);
        }
        let bishop_bb = self.bb(color | Piece::BISHOP);
        let rook_bb = self.bb(color | Piece::ROOK);
        let queen_bb = self.bb(color | Piece::QUEEN);
        let rook_dirs: [(i32, i32); 4] = [(1, 0), (-1, 0), (0, 1), (0, -1)];
        let bishop_dirs: [(i32, i32); 4] = [(1, 1), (1, -1), (-1, 1), (-1, -1)];
        let queen_dirs: [(i32, i32); 8] = [(1, 0), (-1, 0), (0, 1), (0, -1), (1, 1), (1, -1), (-1, 1), (-1, -1)];
        let bd = bishop_dirs.as_slice();
        let rd = rook_dirs.as_slice();
        let qd = queen_dirs.as_slice();
        proof {
            self.lemma_cells_pub();
            crate::board::lemma_piece_code(color | 3);
        }
        self.gen_sliding_moves(&mut moves, bishop_bb, bd);
        let ghost s4 = moves@;
        self.gen_sliding_moves(&mut moves, rook_bb, rd);
        let ghost s5 = moves@;
        self.gen_sliding_moves(&mut moves, queen_bb, qd);
        let ghost s6 = moves@;
        self.gen_castling_moves(&mut moves);
        proof {
            lemma_extends_trans(Seq::empty(), s1, s2);
            lemma_extends_trans(Seq::empty(), s2, s3);
            lemma_extends_trans(Seq::empty(), s3, s4);
            lemma_extends_trans(Seq::empty(), s4, s5);
            lemma_extends_trans(Seq::empty(), s5, s6);
            lemma_extends_trans(Seq::empty(), s6, moves@);
            assert forall|k: int| 0 <= k < moves@.len() implies move_ok(v, #[trigger] moves@[k]) && pseudo_kind(v, moves@[k]) by {
                let m = moves@[k];
                if k < s1.len() {
                    assert(moves@.subrange(0, s6.len() as int)[k] == s6[k]);
                    assert(s6.subrange(0, s5.len() as int)[k] == s5[k]);
                    assert(s5.subrange(0, s4.len() as int)[k] == s4[k]);
                    assert(s4.subrange(0, s3.len() as int)[k] == s3[k]);
                    assert(s3.subrange(0, s2.len() as int)[k] == s2[k]);
                    assert(s2.subrange(0, s1.len() as int)[k] == s1[k]);
                    assert(leaper_move(v, s1[k], (own_color(v) + 6) as u8, true));
                } else if k < s2.len() {
                    assert(moves@.subrange(0, s6.len() as int)[k] == s6[k]);
                    assert(s6.subrange(0, s5.len() as int)[k] == s5[k]);
                    assert(s5.subrange(0, s4.len() as int)[k] == s4[k]);
                    assert(s4.subrange(0, s3.len() as int)[k] == s3[k]);
                    assert(s3.subrange(0, s2.len() as int)[k] == s2[k]);
                    assert(leaper_move(v, s2[k], (own_color(v) + 2) as u8, false));
                } else if k < s3.len() {
                    assert(moves@.subrange(0, s6.len() as int)[k] == s6[k]);
                    assert(s6.subrange(0, s5.len() as int)[k] == s5[k]);
                    assert(s5.subrange(0, s4.len() as int)[k] == s4[k]);
                    assert(s4.subrange(0, s3.len() as int)[k] == s3[k]);
                    assert(pawn_move(v, s3[k]));
                } else if k < s6.len() {
                    assert(moves@.subrange(0, s6.len() as int)[k] == s6[k]);
                    let dirs = if k < s4.len() { bd@ } else if k < s5.len() { rd@ } else { qd@ };
                    let bbx = if k < s4.len() { bishop_bb } else if k < s5.len() { rook_bb } else { queen_bb };
                    if k < s4.len() {
                        assert(s6.subrange(0, s5.len() as int)[k] == s5[k]);
                        assert(s5.subrange(0, s4.len() as int)[k] == s4[k]);
                    } else if k < s5.len() {
                        assert(s6.subrange(0, s5.len() as int)[k] == s5[k]);
                    }
                    assert(slider_move(v, m, bbx, dirs));
                    let (i, n) = choose|i: int, n: int| 0 <= i < dirs.len() && #[trigger] slides(v, m.spec_from(), dirs[i].0 as int, dirs[i].1 as int, n, m.spec_to());
                    assert(bit(bbx, m.spec_from()));
                    crate::items::lemma_move_bounds(m);
                    let dr = dirs[i].0 as int;
                    let df = dirs[i].1 as int;
                    assert(slides(v, m.spec_from(), dr, df, n, m.spec_to()));
                    if k < s4.len() {
                        assert(v.pieces[m.spec_from()] == own_color(v) + 3);
                        assert(dr != 0 && df != 0);
                    } else if k < s5.len() {
                        assert(v.pieces[m.spec_from()] == own_color(v) + 4);
                        assert(dr == 0 || df == 0);
                    } else {
                        assert(v.pieces[m.spec_from()] == own_color(v) + 5);
                    }
                    assert(-1 <= dr <= 1 && -1 <= df <= 1 && (dr != 0 || df != 0));
                    assert(slider_kind(v, m));
                } else {
                    assert(move_ok(v, m) && castle_move(v, m));
                }
            }
        }
        proof {
            self.lemma_gen_distinct(moves@, s1, s2, s3, s4, s5, s6, bishop_bb, rook_bb, queen_bb, bd@, rd@, qd@);
        }
        let r = self.filter_illegal(moves);
        proof {
            let pred = |m: Move| legal_move(v, m);
            lemma_filter_distinct(moves@, pred);
            assert forall|k: int| 0 <= k < r@.len() implies legal_move(v, #[trigger] r@[k]) && pseudo_kind(v, r@[k]) by {
                lemma_filter_subset(moves@, pred, k);
                let j = choose|j: int| 0 <= j < moves@.len() && moves@[j] == r@[k];
                assert(pseudo_kind(v, moves@[j]));
            }
            moves@.filter_lemma(pred);
            assert forall|f: int, t: int|
                0 <= f < 64 && 0 <= t < 64 && v.pieces[f] == own_color(v) + 6
                    && #[trigger] king_step(f, t) && open_target(v, t)
                    && legal_move(v, target_move(v, f, t))
                    implies r@.contains(target_move(v, f, t)) by {
                let tm = target_move(v, f, t);
                assert(appended(Seq::empty(), s1).contains(tm));
                let j = choose|j: int| 0 <= j < s1.len() && appended(Seq::empty(), s1)[j] == tm;
                assert(s1[j] == tm);
                assert(moves@[j] == tm) by {
                    assert(moves@.subrange(0, s6.len() as int)[j] == s6[j]);
                    assert(s6.subrange(0, s5.len() as int)[j] == s5[j]);
                    assert(s5.subrange(0, s4.len() as int)[j] == s4[j]);
                    assert(s4.subrange(0, s3.len() as int)[j] == s3[j]);
                    assert(s3.subrange(0, s2.len() as int)[j] == s2[j]);
                    assert(s2.subrange(0, s1.len() as int)[j] == s1[j]);
                }
                assert(pred(moves@[j]));
            }
            assert forall|f: int, t: int|
                0 <= f < 64 && 0 <= t < 64 && v.pieces[f] == own_color(v) + 2
                    && #[trigger] knight_step(f, t) && open_target(v, t)
                    && legal_move(v, target_move(v, f, t))
                    implies r@.contains(target_move(v, f, t)) by {
                let tm = target_move(v, f, t);
                assert(appended(s1, s2).contains(tm));
                let j = choose|j: int| 0 <= j < s2.len() - s1.len() && appended(s1, s2)[j] == tm;
                let jj = j + s1.len();
                assert(s2[jj] == tm);
                assert(moves@[jj] == tm) by {
                    assert(moves@.subrange(0, s6.len() as int)[jj] == s6[jj]);
                    assert(s6.subrange(0, s5.len() as int)[jj] == s5[jj]);
                    assert(s5.subrange(0, s4.len() as int)[jj] == s4[jj]);
                    assert(s4.subrange(0, s3.len() as int)[jj] == s3[jj]);
                    assert(s3.subrange(0, s2.len() as int)[jj] == s2[jj]);
                }
                assert(pred(moves@[jj]));
            }
            assert forall|m: Move| slider_kind(v, m) && legal_move(v, m) implies r@.contains(m) by {
                let from = m.spec_from();
                let to = m.spec_to();
                let own = own_color(v);
                let p = v.pieces[from];
                crate::items::lemma_move_bounds(m);
                let (dr, df, n) = choose|dr: int, df: int, n: int| {
                    &&& -1 <= dr <= 1 && -1 <= df <= 1 && (dr != 0 || df != 0)
                    &&& (p == own + 3 ==> dr != 0 && df != 0)
                    &&& (p == own + 4 ==> dr == 0 || df == 0)
                    &&& #[trigger] slides(v, from, dr, df, n, to)
                };
                let flag: int = if v.pieces[to] != 0 { 8 } else { 0 };
                lemma_move_roundtrip(from as u16, to as u16, flag as u16);
                crate::items::lemma_castle_flags(flag as u8);
                assert(open_target(v, to));
                let tm = target_move(v, from, to);
                if p == own + 3 {
                    let i: int = if dr == 1 && df == 1 { 0 } else if dr == 1 && df == -1 { 1 } else if dr == -1 && df == 1 { 2 } else { 3 };
                    assert(bd@[i].0 as int == dr && bd@[i].1 as int == df);
                    assert(bit(bishop_bb, from));
                    assert(ray_covered(v, from, bd@, i, s4));
                    assert(slides(v, from, bd@[i].0 as int, bd@[i].1 as int, n, to));
                    lemma_extends_contains(s4, s5, tm);
                    lemma_extends_contains(s5, s6, tm);
                } else if p == own + 4 {
                    let i: int = if dr == 1 { 0 } else if dr == -1 { 1 } else if df == 1 { 2 } else { 3 };
                    assert(rd@[i].0 as int == dr && rd@[i].1 as int == df);
                    assert(bit(rook_bb, from));
                    assert(ray_covered(v, from, rd@, i, s5));
                    assert(slides(v, from, rd@[i].0 as int, rd@[i].1 as int, n, to));
                    lemma_extends_contains(s5, s6, tm);
                } else {
                    let i: int = if dr == 1 && df == 0 { 0 } else if dr == -1 && df == 0 { 1 } else if dr == 0 && df == 1 { 2 }
                        else if dr == 0 && df == -1 { 3 } else if dr == 1 && df == 1 { 4 } else if dr == 1 && df == -1 { 5 }
                        else if dr == -1 && df == 1 { 6 } else { 7 };
                    assert(qd@[i].0 as int == dr && qd@[i].1 as int == df);
                    assert(bit(queen_bb, from));
                    assert(ray_covered(v, from, qd@, i, s6));
                    assert(slides(v, from, qd@[i].0 as int, qd@[i].1 as int, n, to));
                }
                lemma_extends_contains(s6, moves@, tm);
                let j = choose|j: int| 0 <= j < moves@.len() && moves@[j] == tm;
                assert(pred(moves@[j]));
            }
            assert forall|m: Move| castle_move(v, m) && king_square(v, own_color(v)) == home(v)
                && legal_move(v, m) implies r@.contains(m) by {
                assert(appended(s6, moves@).contains(m));
                let j = choose|j: int| 0 <= j < moves@.len() - s6.len() && appended(s6, moves@)[j] == m;
                assert(moves@[j + s6.len()] == m);
                assert(pred(moves@[j + s6.len()]));
            }
            assert forall|m: Move| legal_move(v, m) && pseudo_kind(v, m)
                && (castle_move(v, m) ==> king_square(v, own_color(v)) == home(v)) implies r@.contains(m) by {
                let own = own_color(v);
                crate::items::lemma_move_bounds(m);
                if leaper_move(v, m, (own + 6) as u8, true) || leaper_move(v, m, (own + 2) as u8, false) {
                    lemma_target_open(v, m);
                    assert(m == target_move(v, m.spec_from(), m.spec_to()));
                } else if pawn_move(v, m) {
                    assert(s3.contains(m));
                    lemma_extends_contains(s3, s4, m);
                    lemma_extends_contains(s4, s5, m);
                    lemma_extends_contains(s5, s6, m);
                    lemma_extends_contains(s6, moves@, m);
                    let j = choose|j: int| 0 <= j < moves@.len() && moves@[j] == m;
                    assert(pred(moves@[j]));
                }
            }
        }
        r
    }
}

impl Board {
    /// The generators' lists joined one after another repeat no move: each
    /// list repeats none, and two lists never share a move, their movers (or,
    /// for the king, the flags) being different.
    proof fn lemma_gen_distinct(&self, s: Seq<Move>, s1: Seq<Move>, s2: Seq<Move>, s3: Seq<Move>, s4: Seq<Move>,
        s5: Seq<Move>, s6: Seq<Move>, bishop_bb: u64, rook_bb: u64, queen_bb: u64, bd: Seq<(i32, i32)>,
        rd: Seq<(i32, i32)>, qd: Seq<(i32, i32)>)
        requires
            self.wf(),
            extends(s1, s2),
            extends(s2, s3),
            extends(s3, s4),
            extends(s4, s5),
            extends(s5, s6),
            extends(s6, s),
            distinct_from(s1, 0),
            distinct_from(s2, s1.len() as int),
            distinct_from(s3, s2.len() as int),
            distinct_from(s4, s3.len() as int),
            distinct_from(s5, s4.len() as int),
            distinct_from(s6, s5.len() as int),
            distinct_from(s, s6.len() as int),
            forall|k: int| 0 <= k < s1.len() ==> leaper_move(self@, #[trigger] s1[k], (own_color(self@) + 6) as u8, true),
            forall|k: int| s1.len() <= k < s2.len() ==> leaper_move(self@, #[trigger] s2[k], (own_color(self@) + 2) as u8, false),
            forall|k: int| s2.len() <= k < s3.len() ==> pawn_move(self@, #[trigger] s3[k]),
            forall|k: int| s3.len() <= k < s4.len() ==> slider_move(self@, #[trigger] s4[k], bishop_bb, bd),
            forall|k: int| s4.len() <= k < s5.len() ==> slider_move(self@, #[trigger] s5[k], rook_bb, rd),
            forall|k: int| s5.len() <= k < s6.len() ==> slider_move(self@, #[trigger] s6[k], queen_bb, qd),
            forall|k: int| s6.len() <= k < s.len() ==> castle_move(self@, #[trigger] s[k]),
            forall|q: int| 0 <= q < 64 ==> #[trigger] bit(bishop_bb, q) == (self@.pieces[q] == own_color(self@) + 3),
            forall|q: int| 0 <= q < 64 ==> #[trigger] bit(rook_bb, q) == (self@.pieces[q] == own_color(self@) + 4),
            forall|q: int| 0 <= q < 64 ==> #[trigger] bit(queen_bb, q) == (self@.pieces[q] == own_color(self@) + 5),
        ensures
            distinct_from(s, 0),
    {
        let v = self@;
        let own = own_color(v);
        // the piece on the origin of each move, and for the king the flag, by list
        assert forall|i: int| 0 <= i < s.len() implies {
            let m = #[trigger] s[i];
            let p = v.pieces[m.spec_from()];
            &&& i < s1.len() ==> p == own + 6 && (m.spec_flag() == 0 || m.spec_flag() == 8)
            &&& s1.len() <= i < s2.len() ==> p == own + 2
            &&& s2.len() <= i < s3.len() ==> p == own + 1
            &&& s3.len() <= i < s4.len() ==> p == own + 3
            &&& s4.len() <= i < s5.len() ==> p == own + 4
            &&& s5.len() <= i < s6.len() ==> p == own + 5
            &&& s6.len() <= i ==> p == own + 6 && (m.spec_flag() == 2 || m.spec_flag() == 3)
        } by {
            let m = s[i];
            crate::items::lemma_move_bounds(m);
            if i < s6.len() {
                lemma_extends_index(s6, s, i);
            }
            if i < s5.len() {
                lemma_extends_index(s5, s6, i);
            }
            if i < s4.len() {
                lemma_extends_index(s4, s5, i);
            }
            if i < s3.len() {
                lemma_extends_index(s3, s4, i);
            }
            if i < s2.len() {
                lemma_extends_index(s2, s3, i);
            }
            if i < s1.len() {
                lemma_extends_index(s1, s2, i);
                assert(leaper_move(v, s1[i], (own + 6) as u8, true));
                let t = m.spec_to();
                lemma_move_roundtrip(m.spec_from() as u16, t as u16, (if v.pieces[t] != 0 { 8int } else { 0int }) as u16);
            } else if i < s2.len() {
                assert(leaper_move(v, s2[i], (own + 2) as u8, false));
            } else if i < s3.len() {
                assert(pawn_move(v, s3[i]));
            } else if i < s4.len() {
                assert(slider_move(v, s4[i], bishop_bb, bd));
            } else if i < s5.len() {
                assert(slider_move(v, s5[i], rook_bb, rd));
            } else if i < s6.len() {
                assert(slider_move(v, s6[i], queen_bb, qd));
            } else {
                assert(castle_move(v, s[i]));
            }
        }
        assert forall|i: int, j: int| 0 <= i < j < s.len() implies s[i] != s[j] by {
            if j < s1.len() {
                lemma_extends_index(s1, s2, i);
                lemma_extends_index(s1, s2, j);
            }
            if j < s2.len() {
                lemma_extends_index(s2, s3, i);
                lemma_extends_index(s2, s3, j);
            }
            if j < s3.len() {
                lemma_extends_index(s3, s4, i);
                lemma_extends_index(s3, s4, j);
            }
            if j < s4.len() {
                lemma_extends_index(s4, s5, i);
                lemma_extends_index(s4, s5, j);
            }
            if j < s5.len() {
                lemma_extends_index(s5, s6, i);
                lemma_extends_index(s5, s6, j);
            }
            if j < s6.len() {
                lemma_extends_index(s6, s, i);
                lemma_extends_index(s6, s, j);
            }
        }
    }
}

impl Board {
    /// Takes the lowest square off `bb`: the same as the free `pop_lsb`.
    pub fn pop_lsb(&self, bb: &mut u64) -> (r: Option<usize>)
        ensures
            *old(bb) == 0 ==> r is None && *final(bb) == 0,
            *old(bb) != 0 ==> (r matches Some(sq) && sq < 64 && bit(*old(bb), sq as int)
                && (forall|j: int| 0 <= j < sq ==> !#[trigger] bit(*old(bb), j))
                && (forall|j: int| 0 <= j < 64 ==> #[trigger] bit(*final(bb), j) == (bit(*old(bb), j) && j != sq))),
    {
        pop_lsb(bb)
    }

    /// The king moves of the side to move, as a new list: each one a king
    /// step onto a square not held by its own side, and all of them.
    pub fn gen_king_attack(&mut self) -> (r: Vec<Move>)
        requires
            old(self).wf(),
        ensures
            *final(self) == *old(self),
            forall|k: int| 0 <= k < r@.len() ==> {
                let m = #[trigger] r@[k];
                &&& move_ok(old(self)@, m)
                &&& old(self)@.pieces[m.spec_from()] == own_color(old(self)@) + 6u8
                &&& king_step(m.spec_from(), m.spec_to())
                &&& m == target_move(old(self)@, m.spec_from(), m.spec_to())
            },
            forall|f: int, t: int|
                0 <= f < 64 && 0 <= t < 64 && old(self)@.pieces[f] == own_color(old(self)@) + 6u8
                    && #[trigger] king_step(f, t) && open_target(old(self)@, t)
                    ==> r@.contains(#[trigger] target_move(old(self)@, f, t)),
    {
        let mut moves: Vec<Move> = Vec::new();
        self.gen_king_moves(&mut moves);
        assert(appended(Seq::<Move>::empty(), moves@) =~= moves@);
        moves
    }

    /// The knight moves of the side to move, as a new list: each one a
    /// knight jump onto a square not held by its own side, and all of them.
    pub fn gen_knight_attack(&mut self) -> (r: Vec<Move>)
        requires
            old(self).wf(),
        ensures
            *final(self) == *old(self),
            forall|k: int| 0 <= k < r@.len() ==> {
                let m = #[trigger] r@[k];
                &&& move_ok(old(self)@, m)
                &&& old(self)@.pieces[m.spec_from()] == own_color(old(self)@) + 2u8
                &&& knight_step(m.spec_from(), m.spec_to())
                &&& m == target_move(old(self)@, m.spec_from(), m.spec_to())
            },
            forall|f: int, t: int|
                0 <= f < 64 && 0 <= t < 64 && old(self)@.pieces[f] == own_color(old(self)@) + 2u8
                    && #[trigger] knight_step(f, t) && open_target(old(self)@, t)
                    ==> r@.contains(#[trigger] target_move(old(self)@, f, t)),
    {
        let mut moves: Vec<Move> = Vec::new();
        self.gen_knight_moves(&mut moves);
        assert(appended(Seq::<Move>::empty(), moves@) =~= moves@);
        moves
    }
}


/// Whether `mv` is in `moves`.
fn move_listed(moves: &Vec<Move>, mv: Move) -> (r: bool)
    ensures
        r == moves@.contains(mv),
{
    let mut i: usize = 0;
    while i < moves.len()
        invariant
            i <= moves@.len(),
            forall|k: int| 0 <= k < i ==> moves@[k] != mv,
        decreases moves@.len() - i,
    {
        if moves[i].0 == mv.0 {
            assert(moves@[i as int] == mv);
            return true;
        }
        i += 1;
    }
    false
}

impl Board {
    /// Whether `mv` is a move the generators make for the piece on its
    /// origin (castling aside), legal or not: the origin holds a piece of
    /// the side to move and the move is among its king, knight, pawn or
    /// slider moves.
    pub fn is_pseudo_legal_mv(&self, mv: Move) -> (r: bool)
        requires
            self.wf(),
            ep_ok(self@),
        ensures
            r == (mv.0 != 0 && pseudo_kind(self@, mv) && !castle_move(self@, mv)),
    {
        let ghost v = self@;
        if mv.0 == 0 {
            return false;
        }
        proof {
            crate::items::lemma_move_bounds(mv);
            self.lemma_cells_pub();
        }
        let from = mv.from();
        let piece = self.piece_on(from);
        if piece == 0 {
            return false;
        }
        proof {
            assert(crate::board::cell_ok(v.pieces[from as int]));
            crate::board::lemma_piece_code(piece);
            crate::bits::lemma_byte_facts(piece);
        }
        if Piece::get_color_idx(piece) != self.side_to_move().val() {
            return false;
        }
        let own_piece = piece;
        let t = Piece::get_type(piece);
        proof {
            assert(own_piece == own_color(v) + t);
            crate::bits::lemma_byte_facts(mv.spec_flag());
            if castle_move(v, mv) {
                assert(t == 6);
            }
        }
        let mut moves: Vec<Move> = Vec::new();
        if t == 1 {
            self.gen_pawn_moves(&mut moves);
            let found = move_listed(&moves, mv);
            proof {
                if found {
                    let k = choose|k: int| 0 <= k < moves@.len() && moves@[k] == mv;
                    assert(pawn_move(v, moves@[k]));
                }
            }
            found
        } else if t == 2 {
            self.gen_knight_moves(&mut moves);
            let found = move_listed(&moves, mv);
            proof {
                assert(appended(Seq::<Move>::empty(), moves@) =~= moves@);
                if found {
                    let k = choose|k: int| 0 <= k < moves@.len() && moves@[k] == mv;
                    assert(leaper_move(v, moves@[k], (own_color(v) + 2) as u8, false));
                }
                if pseudo_kind(v, mv) {
                    assert(leaper_move(v, mv, (own_color(v) + 2) as u8, false));
                    lemma_target_open(v, mv);
                    assert(moves@.contains(target_move(v, mv.spec_from(), mv.spec_to())));
                }
            }
            found
        } else if t == 6 {
            self.gen_king_moves(&mut moves);
            let found = move_listed(&moves, mv);
            proof {
                assert(appended(Seq::<Move>::empty(), moves@) =~= moves@);
                if found {
                    let k = choose|k: int| 0 <= k < moves@.len() && moves@[k] == mv;
                    assert(leaper_move(v, moves@[k], (own_color(v) + 6) as u8, true));
                    lemma_move_roundtrip(mv.spec_from() as u16, mv.spec_to() as u16,
                        (if v.pieces[mv.spec_to()] != 0 { 8int } else { 0int }) as u16);
                }
                if pseudo_kind(v, mv) && !castle_move(v, mv) {
                    assert(leaper_move(v, mv, (own_color(v) + 6) as u8, true));
                    lemma_target_open(v, mv);
                    assert(moves@.contains(target_move(v, mv.spec_from(), mv.spec_to())));
                }
            }
            found
        } else if t >= 3 && t <= 5 {
            let bb = crate::bits::mask(from);
            let bishop_dirs: [(i32, i32); 4] = [(1, 1), (1, -1), (-1, 1), (-1, -1)];
            let rook_dirs: [(i32, i32); 4] = [(1, 0), (-1, 0), (0, 1), (0, -1)];
            let queen_dirs: [(i32, i32); 8] = [(1, 0), (-1, 0), (0, 1), (0, -1), (1, 1), (1, -1), (-1, 1), (-1, -1)];
            let dirs: &[(i32, i32)] = if t == 3 {
                bishop_dirs.as_slice()
            } else if t == 4 {
                rook_dirs.as_slice()
            } else {
                queen_dirs.as_slice()
            };
            proof {
                assert forall|i: int| 0 <= i < dirs@.len() implies -1 <= #[trigger] dirs@[i].0 <= 1 && -1 <= dirs@[i].1 <= 1
                    && (dirs@[i].0 != 0 || dirs@[i].1 != 0) by {}
            }
            self.gen_sliding_moves(&mut moves, bb, dirs);
            let found = move_listed(&moves, mv);
            proof {
                if found {
                    let k = choose|k: int| 0 <= k < moves@.len() && moves@[k] == mv;
                    let m = moves@[k];
                    assert(slider_move(v, m, bb, dirs@));
                    let (i, n) = choose|i: int, n: int| 0 <= i < dirs@.len() && #[trigger] slides(v, m.spec_from(), dirs@[i].0 as int, dirs@[i].1 as int, n, m.spec_to());
                    let dr = dirs@[i].0 as int;
                    let df = dirs@[i].1 as int;
                    assert(slides(v, m.spec_from(), dr, df, n, m.spec_to()));
                    assert(m.spec_from() == from);
                    assert(v.pieces[m.spec_from()] == piece);
                    if t == 3 {
                        assert(dr != 0 && df != 0);
                    } else if t == 4 {
                        assert(dr == 0 || df == 0);
                    }
                    assert(slider_kind(v, m));
                }
                if pseudo_kind(v, mv) {
                    assert(slider_kind(v, mv));
                    let to = mv.spec_to();
                    let (dr, df, n) = choose|dr: int, df: int, n: int| {
                        &&& -1 <= dr <= 1 && -1 <= df <= 1 && (dr != 0 || df != 0)
                        &&& (piece == own_color(v) + 3 ==> dr != 0 && df != 0)
                        &&& (piece == own_color(v) + 4 ==> dr == 0 || df == 0)
                        &&& #[trigger] slides(v, from as int, dr, df, n, to)
                    };
                    lemma_target_open(v, mv);
                    let i: int = if t == 3 {
                        if dr == 1 && df == 1 { 0 } else if dr == 1 && df == -1 { 1 } else if dr == -1 && df == 1 { 2 } else { 3 }
                    } else if t == 4 {
                        if dr == 1 { 0 } else if dr == -1 { 1 } else if df == 1 { 2 } else { 3 }
                    } else {
                        if dr == 1 && df == 0 { 0 } else if dr == -1 && df == 0 { 1 } else if dr == 0 && df == 1 { 2 }
                        else if dr == 0 && df == -1 { 3 } else if dr == 1 && df == 1 { 4 } else if dr == 1 && df == -1 { 5 }
                        else if dr == -1 && df == 1 { 6 } else { 7 }
                    };
                    assert(dirs@[i].0 as int == dr && dirs@[i].1 as int == df);
                    assert(bit(bb, from as int));
                    assert(ray_covered(v, from as int, dirs@, i, moves@));
                    assert(slides(v, from as int, dirs@[i].0 as int, dirs@[i].1 as int, n, to));
                }
            }
            found
        } else {
            false
        }
    }
}

} // verus!
