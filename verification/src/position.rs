//! Questions the search asks of a position: is the side to move in check,
//! does a move give check, what is its Zobrist key.
use vstd::prelude::*;
use crate::board::{Board, BoardView, made, undo_of, lemma_make_undo};
use crate::items::{Color, Move, Piece};
use crate::movegen::{attacked, find_from, king_square, legal_move, own_color, enemy_color, pseudo_kind};
use crate::perft::{sane, lemma_sane_child};
use crate::zobrist::ZobristKeys;

verus! {

/// The side to move has a king and it is attacked.
pub open spec fn in_check_spec(v: BoardView) -> bool {
    &&& king_square(v, own_color(v)) < 64
    &&& attacked(v, king_square(v, own_color(v)), v.side == Color::White)
}

/// The XOR of `f` over `0..n`.
pub open spec fn xor_to(f: spec_fn(int) -> u64, n: int) -> u64
    decreases n,
{
    if n <= 0 {
        0
    } else {
        xor_to(f, n - 1) ^ f(n - 1)
    }
}

/// The key of what stands on `s`: its piece's key for that square, or 0.
pub open spec fn square_key(v: BoardView, piece_keys: Seq<u64>, s: int) -> u64 {
    if v.pieces[s] == 0 {
        0
    } else {
        piece_keys[crate::items::piece_index(v.pieces[s]) * 64 + s]
    }
}

/// The Zobrist key of a position: the keys of its pieces, of its castling
/// rights, of the file of its en passant square, and of Black to move.
pub open spec fn zob_spec(v: BoardView, k: ZobristKeys) -> u64 {
    xor_to(|s: int| square_key(v, k.pieces@, s), 64) ^ k.castling@[(v.castling % 16) as int] ^ (match v.en_passant {
        Some(e) => k.enpassant@[(e % 8) as int],
        None => 0u64,
    }) ^ (if v.side == Color::Black {
        k.side
    } else {
        0u64
    })
}

/// Two positions that differ only in their castling rights have keys that
/// differ by exactly the two castling keys: `key(c) ^ key(c')` is
/// `castling[c] ^ castling[c']`, so the rights are part of the key.
pub proof fn lemma_key_castling(v: BoardView, w: BoardView, k: ZobristKeys)
    requires
        v.pieces == w.pieces,
        v.en_passant == w.en_passant,
        v.side == w.side,
        v.castling < 16,
        w.castling < 16,
    ensures
        zob_spec(v, k) ^ zob_spec(w, k) == k.castling@[v.castling as int] ^ k.castling@[w.castling as int],
{
    let a = xor_to(|s: int| square_key(v, k.pieces@, s), 64);
    let b = xor_to(|s: int| square_key(w, k.pieces@, s), 64);
    assert((|s: int| square_key(v, k.pieces@, s)) =~= (|s: int| square_key(w, k.pieces@, s)));
    assert(a == b);
    let e: u64 = match v.en_passant {
        Some(x) => k.enpassant@[(x % 8) as int],
        None => 0u64,
    };
    let t: u64 = if v.side == Color::Black {
        k.side
    } else {
        0u64
    };
    let x = k.castling@[v.castling as int];
    let y = k.castling@[w.castling as int];
    assert(zob_spec(v, k) == a ^ x ^ e ^ t);
    assert(zob_spec(w, k) == a ^ y ^ e ^ t);
    assert((a ^ x ^ e ^ t) ^ (a ^ y ^ e ^ t) == x ^ y) by (bit_vector);
}

/// The same position with the other side to move has a key that differs
/// by exactly the side key.
pub proof fn lemma_key_side(v: BoardView, w: BoardView, k: ZobristKeys)
    requires
        v.pieces == w.pieces,
        v.en_passant == w.en_passant,
        v.castling == w.castling,
        v.side == Color::White,
        w.side == Color::Black,
    ensures
        zob_spec(v, k) ^ zob_spec(w, k) == k.side,
{
    let a = xor_to(|s: int| square_key(v, k.pieces@, s), 64);
    assert((|s: int| square_key(v, k.pieces@, s)) =~= (|s: int| square_key(w, k.pieces@, s)));
    let x = k.castling@[(v.castling % 16) as int];
    let e: u64 = match v.en_passant {
        Some(q) => k.enpassant@[(q % 8) as int],
        None => 0u64,
    };
    let t = k.side;
    assert(zob_spec(v, k) == a ^ x ^ e ^ 0u64);
    assert(zob_spec(w, k) == a ^ x ^ e ^ t);
    assert((a ^ x ^ e ^ 0u64) ^ (a ^ x ^ e ^ t) == t) by (bit_vector);
}

/// The same position with an en passant square on file `f` and without
/// one has keys that differ by exactly the en passant key of file `f`.
pub proof fn lemma_key_en_passant(v: BoardView, w: BoardView, k: ZobristKeys, sq: u8)
    requires
        v.pieces == w.pieces,
        v.castling == w.castling,
        v.side == w.side,
        v.en_passant == Some(sq),
        w.en_passant is None,
    ensures
        zob_spec(v, k) ^ zob_spec(w, k) == k.enpassant@[(sq % 8) as int],
{
    let a = xor_to(|s: int| square_key(v, k.pieces@, s), 64);
    assert((|s: int| square_key(v, k.pieces@, s)) =~= (|s: int| square_key(w, k.pieces@, s)));
    let x = k.castling@[(v.castling % 16) as int];
    let e = k.enpassant@[(sq % 8) as int];
    let t: u64 = if v.side == Color::Black {
        k.side
    } else {
        0u64
    };
    assert(zob_spec(v, k) == a ^ x ^ e ^ t);
    assert(zob_spec(w, k) == a ^ x ^ 0u64 ^ t);
    assert((a ^ x ^ e ^ t) ^ (a ^ x ^ 0u64 ^ t) == e) by (bit_vector);
}

/// The first blocker along a ray depends on the pieces only.
proof fn lemma_blocker_pieces(v: BoardView, w: BoardView, f: int, dr: int, df: int, n: int)
    requires
        v.pieces == w.pieces,
    ensures
        crate::movegen::first_blocker(v, f, dr, df, n) == crate::movegen::first_blocker(w, f, dr, df, n),
    decreases 8 - n,
{
    if 0 <= n < 8 {
        lemma_blocker_pieces(v, w, f, dr, df, n + 1);
    }
}

/// Whether a square is attacked depends on the pieces only.
pub proof fn lemma_attacked_pieces(v: BoardView, w: BoardView, pos: int, white: bool)
    requires
        v.pieces == w.pieces,
    ensures
        attacked(v, pos, white) == attacked(w, pos, white),
{
    lemma_blocker_pieces(v, w, pos, 1, 1, 0);
    lemma_blocker_pieces(v, w, pos, 1, -1, 0);
    lemma_blocker_pieces(v, w, pos, -1, 1, 0);
    lemma_blocker_pieces(v, w, pos, -1, -1, 0);
    lemma_blocker_pieces(v, w, pos, 1, 0, 0);
    lemma_blocker_pieces(v, w, pos, -1, 0, 0);
    lemma_blocker_pieces(v, w, pos, 0, 1, 0);
    lemma_blocker_pieces(v, w, pos, 0, -1, 0);
}

/// A null move keeps a position searchable when the side to move is not
/// in check.
pub proof fn lemma_sane_null(b: Board, b2: Board)
    requires
        sane(b),
        !in_check_spec(b@),
        b2.wf(),
        b2@ == (BoardView { side: b@.side.spec_opponent(), en_passant: None, ..b@ }),
    ensures
        sane(b2),
{
    let v = b@;
    let w = b2@;
    assert(own_color(w) == enemy_color(v));
    assert(enemy_color(w) == own_color(v));
    assert(w.pieces == v.pieces);
    crate::movegen::lemma_find_found_pub(v.pieces, (own_color(v) + 6) as u8, 0);
    assert forall|s: int| 0 <= s < 64 && w.pieces[s] == enemy_color(w) + 6 implies !attacked(w, s, w.side != Color::White) by {
        assert(s == king_square(v, own_color(v)));
        lemma_attacked_pieces(v, w, s, v.side == Color::White);
    }
}

impl Board {
    /// Whether the side to move is in check.
    pub fn in_check(&self) -> (r: bool)
        requires
            self.wf(),
        ensures
            r == in_check_spec(self@),
    {
        let code: u8 = if self.side_to_move() == Color::White {
            Piece::WHITE + Piece::KING
        } else {
            Piece::BLACK + Piece::KING
        };
        assert(code == (own_color(self@) + 6) as u8);
        assert(find_from(self@.pieces, code, 0) == king_square(self@, own_color(self@)));
        proof {
            crate::movegen::lemma_find_found_pub(self@.pieces, code, 0);
        }
        let found = self.lowest_square(code);
        match found {
            Some(sq) => {
                assert(sq == king_square(self@, own_color(self@)));
                self.is_square_atacked(sq, &self.side_to_move())
            },
            None => false,
        }
    }

    /// Whether the legal move `mv` puts the other side in check.
    pub fn gives_check(&mut self, mv: Move) -> (r: bool)
        requires
            sane(*old(self)),
            legal_move(old(self)@, mv),
            pseudo_kind(old(self)@, mv),
        ensures
            *final(self) == *old(self),
            r == in_check_spec(made(old(self)@, mv)),
    {
        let ghost b0 = *self;
        proof {
            lemma_make_undo(b0, mv);
        }
        let undo = self.make_move(&mv);
        let r = self.in_check();
        self.undo_move(&mv, &undo);
        proof {
            Board::lemma_view_determines(*self, b0);
        }
        r
    }
}

/// The Zobrist key of the position.
pub fn zob_key(board: &Board, keys: &ZobristKeys) -> (r: u64)
    requires
        board.wf(),
        keys.drawn(),
    ensures
        r == zob_spec(board@, *keys),
{
    let ghost v = board@;
    proof {
        board.lemma_cells_pub();
    }
    let mut h: u64 = 0;
    let mut s: usize = 0;
    while s < 64
        invariant
            s <= 64,
            board.wf(),
            keys.drawn(),
            v == board@,
            forall|q: int| 0 <= q < 64 ==> #[trigger] crate::board::cell_ok(v.pieces[q]),
            h == xor_to(|q: int| square_key(v, keys.pieces@, q), s as int),
        decreases 64 - s,
    {
        let p = board.piece_on(s);
        if p != 0 {
            proof {
                assert(crate::board::cell_ok(v.pieces[s as int]));
                crate::board::lemma_piece_code(p);
            }
            let idx = Piece::to_idx(p);
            h = h ^ keys.pieces[idx * 64 + s];
        } else {
            proof {
                crate::bits::lemma_zero_ops(h);
            }
        }
        s += 1;
    }
    let c = board.castling_rights().0;
    h = h ^ keys.castling[(c % 16) as usize];
    match board.en_passant_square() {
        Some(e) => {
            h = h ^ keys.enpassant[(e % 8) as usize];
        },
        None => {
            proof {
                crate::bits::lemma_zero_ops(h);
            }
        },
    }
    if board.side_to_move() == Color::Black {
        h = h ^ keys.side;
    } else {
        proof {
            crate::bits::lemma_zero_ops(h);
        }
    }
    h
}

} // verus!
