//! The position: twelve piece bitboards kept in step with a 64-square
//! mailbox and three occupancy boards, plus side to move, castling rights
//! and the en passant square.
use vstd::prelude::*;
use vstd::string::StringSliceAdditionalSpecFns;
use crate::bits::{bit, lemma_bit_ops, lemma_bits_ext, lemma_clear_set, mask, pop_lsb};
use crate::consts::{WHITE, BLACK, BOTH, WK, WQ, BK, BQ, WK_START_POS, BK_START_POS};
use crate::items::{CastlingRights, Color, Move, MoveFlag, Piece, PieceInfo, Undo, is_piece, piece_code, piece_index, piece_of_char};

verus! {

/// A white piece code.
pub open spec fn is_white_piece(p: u8) -> bool {
    9 <= p <= 14
}

/// A black piece code.
pub open spec fn is_black_piece(p: u8) -> bool {
    17 <= p <= 22
}

/// Empty, or one of the twelve pieces.
pub open spec fn cell_ok(p: u8) -> bool {
    p == 0 || is_piece(p)
}

/// The piece codes and their table indices correspond one to one.
pub proof fn lemma_piece_code(p: u8)
    requires
        is_piece(p),
    ensures
        0 <= piece_index(p) < 12,
        piece_code(piece_index(p)) == p,
        p & 7u8 != 0,
        is_white_piece(p) <==> piece_index(p) < 6,
        (p & 24u8 == 8u8) <==> is_white_piece(p),
        (p & 24u8 == 16u8) <==> is_black_piece(p),
        (p & 16u8 != 0) <==> is_black_piece(p),
        (p & 8u8 != 0) <==> is_white_piece(p),
{
    assert(p & 7u8 != 0 && ((p & 16u8 != 0) <==> is_black_piece(p)) && ((p & 24u8 == 8u8)
        <==> is_white_piece(p)) && ((p & 24u8 == 16u8) <==> is_black_piece(p))
        && ((p & 8u8 != 0) <==> is_white_piece(p))
        && p & 7u8 == (if p <= 14 { p - 8 } else { p - 16 })) by (bit_vector)
        requires (9u8 <= p <= 14u8) || (17u8 <= p <= 22u8);
}

/// Distinct table indices have distinct codes, and every code is a piece.
pub proof fn lemma_code_index(i: int)
    requires
        0 <= i < 12,
    ensures
        is_piece(piece_code(i)),
        piece_index(piece_code(i)) == i,
        forall|j: int| 0 <= j < 12 && j != i ==> piece_code(j) != piece_code(i),
        is_white_piece(piece_code(i)) <==> i < 6,
{
    let c = piece_code(i);
    lemma_piece_code(c);
}

pub struct Board {
    bitboards: [u64; 12],
    occupancy: [u64; 3],
    mailbox: [PieceInfo; 64],
    castling: CastlingRights,
    side_to_move: Color,
    en_passant: Option<u8>,
}

impl Clone for Board {
    fn clone(&self) -> (r: Self)
        ensures
            r == *self,
    {
        Board {
            bitboards: self.bitboards,
            occupancy: self.occupancy,
            mailbox: self.mailbox,
            castling: self.castling,
            side_to_move: self.side_to_move,
            en_passant: self.en_passant,
        }
    }
}

/// What a position is, apart from how the engine stores it.
pub struct BoardView {
    pub pieces: Seq<u8>,
    pub castling: u8,
    pub side: Color,
    pub en_passant: Option<u8>,
}

impl View for Board {
    type V = BoardView;

    closed spec fn view(&self) -> BoardView {
        BoardView {
            pieces: self.mailbox@,
            castling: self.castling.0,
            side: self.side_to_move,
            en_passant: self.en_passant,
        }
    }
}

/// `occ` has a bit set exactly on the occupied squares of `v`.
pub open spec fn occupancy_matches(v: BoardView, occ: u64) -> bool {
    forall|s: int| 0 <= s < 64 ==> #[trigger] bit(occ, s) == (v.pieces[s] != 0)
}

/// The occupied squares of `v`, as a bitboard.
pub open spec fn occupancy_of(v: BoardView) -> u64 {
    choose|occ: u64| occupancy_matches(v, occ)
}

impl Board {
    /// The stored boards agree with the mailbox square by square.
    #[verifier::opaque]
    pub closed spec fn wf(&self) -> bool {
        &&& forall|s: int| 0 <= s < 64 ==> #[trigger] cell_ok(self.mailbox[s])
        &&& forall|i: int, s: int|
            #![trigger bit(self.bitboards[i], s)]
            0 <= i < 12 && 0 <= s < 64 ==> bit(self.bitboards[i], s) == (self.mailbox[s]
                == piece_code(i))
        &&& forall|s: int|
            #![trigger bit(self.occupancy[0], s)]
            0 <= s < 64 ==> bit(self.occupancy[0], s) == is_white_piece(self.mailbox[s])
        &&& forall|s: int|
            #![trigger bit(self.occupancy[1], s)]
            0 <= s < 64 ==> bit(self.occupancy[1], s) == is_black_piece(self.mailbox[s])
        &&& forall|s: int|
            #![trigger bit(self.occupancy[2], s)]
            0 <= s < 64 ==> bit(self.occupancy[2], s) == (self.mailbox[s] != 0)
        &&& self.en_passant matches Some(e) ==> e < 64
    }

    /// Every square of a well-formed board is empty or holds a piece.
    pub proof fn lemma_cells(&self)
        requires
            self.wf(),
        ensures
            forall|s: int| 0 <= s < 64 ==> #[trigger] cell_ok(self@.pieces[s]),
            self@.pieces.len() == 64,
            self@.en_passant matches Some(e) ==> e < 64,
    {
        reveal(Board::wf);
    }

    /// The facts about a well-formed board that code outside this module needs.
    pub proof fn lemma_cells_pub(&self)
        requires
            self.wf(),
        ensures
            forall|s: int| 0 <= s < 64 ==> #[trigger] cell_ok(self@.pieces[s]),
            self@.pieces.len() == 64,
            self@.en_passant matches Some(e) ==> e < 64,
    {
        self.lemma_cells();
    }

    /// Two well-formed boards with the same view are the same board.
    pub proof fn lemma_view_determines(a: Board, b: Board)
        requires
            a.wf(),
            b.wf(),
            a@ == b@,
        ensures
            a == b,
    {
        reveal(Board::wf);
        assert(a.mailbox@ == b.mailbox@);
        assert forall|s: int| 0 <= s < 64 implies a.mailbox[s] == b.mailbox[s] by {
            assert(a.mailbox@[s] == b.mailbox@[s]);
        }
        assert forall|i: int| 0 <= i < 12 implies a.bitboards[i] == b.bitboards[i] by {
            assert forall|s: int| 0 <= s < 64 implies #[trigger] bit(a.bitboards[i], s) == bit(
                b.bitboards[i],
                s,
            ) by {}
            lemma_bits_ext(a.bitboards[i], b.bitboards[i]);
        }
        assert forall|i: int| 0 <= i < 3 implies a.occupancy[i] == b.occupancy[i] by {
            assert forall|s: int| 0 <= s < 64 implies #[trigger] bit(a.occupancy[i], s) == bit(
                b.occupancy[i],
                s,
            ) by {
                if i == 0 {
                    assert(bit(a.occupancy[0], s) == bit(b.occupancy[0], s));
                } else if i == 1 {
                    assert(bit(a.occupancy[1], s) == bit(b.occupancy[1], s));
                } else {
                    assert(bit(a.occupancy[2], s) == bit(b.occupancy[2], s));
                }
            }
            lemma_bits_ext(a.occupancy[i], b.occupancy[i]);
        }
        assert(a.bitboards@ =~= b.bitboards@);
        assert(a.occupancy@ =~= b.occupancy@);
        assert(a.mailbox@ =~= b.mailbox@);
        assert(a.bitboards == b.bitboards);
        assert(a.occupancy == b.occupancy);
        assert(a.mailbox == b.mailbox);
    }

    /// An empty board, White to move, all castling rights, no en passant square.
    pub fn new() -> (r: Self)
        ensures
            r.wf(),
            r@.pieces =~= Seq::new(64, |s: int| 0u8),
            r@.side == Color::White,
            r@.castling == 15,
            r@.en_passant is None,
    {
        proof {
            reveal(Board::wf);
        }
        let board = Self {
            bitboards: [0u64; 12],
            occupancy: [0u64; 3],
            mailbox: [0u8; 64],
            side_to_move: Color::White,
            castling: CastlingRights::new(),
            en_passant: None,
        };
        proof {
            assert forall|s: int| 0 <= s < 64 implies bit(0u64, s) == false by {
                lemma_bit_ops(0, 0, 0, s as u64);
            }
            assert forall|i: int| 0 <= i < 12 implies piece_code(i) != 0 by {
                lemma_code_index(i);
            }
        }
        board
    }

    /// The piece on `sq`, 0 when empty.
    pub fn piece_on(&self, sq: usize) -> (r: PieceInfo)
        requires
            sq < 64,
        ensures
            r == self@.pieces[sq as int],
    {
        self.mailbox[sq]
    }

    /// The en passant square, if any.
    pub fn en_passant_square(&self) -> (r: Option<u8>)
        ensures
            r == self@.en_passant,
    {
        self.en_passant
    }

    /// The castling rights.
    pub fn castling_rights(&self) -> (r: CastlingRights)
        ensures
            r.0 == self@.castling,
    {
        self.castling
    }

    pub fn side_to_move(&self) -> (r: Color)
        ensures
            r == self@.side,
    {
        self.side_to_move
    }

    /// The squares holding pieces of `color`.
    pub fn occ(&self, color: &Color) -> (r: u64)
        requires
            self.wf(),
        ensures
            forall|s: int| 0 <= s < 64 ==> #[trigger] bit(r, s) == (if *color == Color::White {
                is_white_piece(self@.pieces[s])
            } else {
                is_black_piece(self@.pieces[s])
            }),
    {
        proof {
            reveal(Board::wf);
        }
        match color {
            Color::White => self.occupancy[WHITE],
            Color::Black => self.occupancy[BLACK],
        }
    }

    /// The occupied squares.
    /// A well-formed board has an occupancy: a bitboard of exactly its
    /// occupied squares.
    /// A well-formed board's occupied squares form a bitboard.
    pub proof fn lemma_occ_exists(&self)
        requires
            self.wf(),
        ensures
            forall|s: int| 0 <= s < 64 ==> #[trigger] bit(occupancy_of(self@), s) == (self@.pieces[s] != 0),
    {
        reveal(Board::wf);
        let o = self.occupancy@[BOTH as int];
        assert(occupancy_matches(self@, o));
    }

    pub fn all_occ(&self) -> (r: u64)
        requires
            self.wf(),
        ensures
            forall|s: int| 0 <= s < 64 ==> #[trigger] bit(r, s) == (self@.pieces[s] != 0),
    {
        proof {
            reveal(Board::wf);
        }
        self.occupancy[BOTH]
    }

    /// The squares holding `piece`; empty for `Piece::NONE`.
    pub fn bb(&self, piece: PieceInfo) -> (r: u64)
        requires
            self.wf(),
            piece == 0 || piece & 7u8 != 0,
            piece != 0 ==> piece_index(piece) < 12,
        ensures
            piece == 0 ==> r == 0,
            piece != 0 ==> forall|s: int| 0 <= s < 64 ==> #[trigger] bit(r, s) == (self@.pieces[s]
                == piece_code(piece_index(piece))),
    {
        proof {
            reveal(Board::wf);
        }
        if piece == Piece::NONE {
            return 0;
        }
        self.bitboards[Piece::to_idx(piece)]
    }
}

/// The view with other pieces.
pub open spec fn with_pieces(v: BoardView, p: Seq<u8>) -> BoardView {
    BoardView { pieces: p, ..v }
}

/// The view with one square changed.
pub open spec fn with_piece(v: BoardView, s: int, p: u8) -> BoardView {
    BoardView { pieces: v.pieces.update(s, p), ..v }
}

impl Board {
    /// Takes `piece` off `pos`.
    fn remove_piece(&mut self, piece: PieceInfo, pos: usize)
        requires
            old(self).wf(),
            pos < 64,
            is_piece(piece),
            old(self)@.pieces[pos as int] == piece,
        ensures
            final(self).wf(),
            final(self)@ == with_piece(old(self)@, pos as int, 0),
    {
        let pos_mask = mask(pos);
        proof {
            reveal(Board::wf);
            lemma_piece_code(piece);
        }
        let idx = Piece::to_idx(piece);
        self.bitboards[idx] = self.bitboards[idx] & !pos_mask;
        self.mailbox[pos] = 0;
        let color = Piece::get_color_idx(piece);
        self.occupancy[color] = self.occupancy[color] & !pos_mask;
        self.occupancy[BOTH] = self.occupancy[BOTH] & !pos_mask;
        proof {
            let o = old(self);
            assert forall|i: int, s: int| 0 <= i < 12 && 0 <= s < 64 implies bit(
                self.bitboards[i],
                s,
            ) == (self.mailbox[s] == piece_code(i)) by {
                lemma_clear_set(o.bitboards[i], pos as u64, s as u64);
                lemma_code_index(i);
                assert(bit(o.bitboards[i], s) == (o.mailbox[s] == piece_code(i)));
            }
            assert forall|k: int, s: int| 0 <= k < 3 && 0 <= s < 64 implies bit(self.occupancy[k], s)
                == (bit(o.occupancy[k], s) && !(s == pos && (k == 2 || k == color))) by {
                lemma_clear_set(o.occupancy[k], pos as u64, s as u64);
            }
            assert forall|s: int| 0 <= s < 64 implies bit(self.occupancy[0], s) == is_white_piece(self.mailbox[s]) by {
                assert(bit(o.occupancy[0], s) == is_white_piece(o.mailbox[s]));
            }
            assert forall|s: int| 0 <= s < 64 implies bit(self.occupancy[1], s) == is_black_piece(self.mailbox[s]) by {
                assert(bit(o.occupancy[1], s) == is_black_piece(o.mailbox[s]));
            }
            assert forall|s: int| 0 <= s < 64 implies bit(self.occupancy[2], s) == (self.mailbox[s] != 0) by {
                assert(bit(o.occupancy[2], s) == (o.mailbox[s] != 0));
            }
            assert forall|s: int| 0 <= s < 64 implies #[trigger] cell_ok(self.mailbox[s]) by {
                assert(cell_ok(o.mailbox[s]));
            }
            assert(self.mailbox@ =~= o.mailbox@.update(pos as int, 0));
        }
    }

    /// Puts `piece` on the empty square `pos`.
    fn add_piece(&mut self, piece: PieceInfo, pos: usize)
        requires
            old(self).wf(),
            pos < 64,
            is_piece(piece),
            old(self)@.pieces[pos as int] == 0,
        ensures
            final(self).wf(),
            final(self)@ == with_piece(old(self)@, pos as int, piece),
    {
        let pos_mask = mask(pos);
        proof {
            reveal(Board::wf);
            lemma_piece_code(piece);
        }
        let idx = Piece::to_idx(piece);
        self.bitboards[idx] = self.bitboards[idx] | pos_mask;
        self.mailbox[pos] = piece;
        let color = Piece::get_color_idx(piece);
        self.occupancy[color] = self.occupancy[color] | pos_mask;
        self.occupancy[BOTH] = self.occupancy[BOTH] | pos_mask;
        proof {
            let o = old(self);
            assert forall|i: int, s: int| 0 <= i < 12 && 0 <= s < 64 implies bit(
                self.bitboards[i],
                s,
            ) == (self.mailbox[s] == piece_code(i)) by {
                lemma_clear_set(o.bitboards[i], pos as u64, s as u64);
                lemma_code_index(i);
                assert(bit(o.bitboards[i], s) == (o.mailbox[s] == piece_code(i)));
            }
            assert forall|k: int, s: int| 0 <= k < 3 && 0 <= s < 64 implies bit(self.occupancy[k], s)
                == (bit(o.occupancy[k], s) || (s == pos && (k == 2 || k == color))) by {
                lemma_clear_set(o.occupancy[k], pos as u64, s as u64);
            }
            assert forall|s: int| 0 <= s < 64 implies bit(self.occupancy[0], s) == is_white_piece(self.mailbox[s]) by {
                assert(bit(o.occupancy[0], s) == is_white_piece(o.mailbox[s]));
            }
            assert forall|s: int| 0 <= s < 64 implies bit(self.occupancy[1], s) == is_black_piece(self.mailbox[s]) by {
                assert(bit(o.occupancy[1], s) == is_black_piece(o.mailbox[s]));
            }
            assert forall|s: int| 0 <= s < 64 implies bit(self.occupancy[2], s) == (self.mailbox[s] != 0) by {
                assert(bit(o.occupancy[2], s) == (o.mailbox[s] != 0));
            }
            assert forall|s: int| 0 <= s < 64 implies #[trigger] cell_ok(self.mailbox[s]) by {
                assert(cell_ok(o.mailbox[s]));
            }
            assert(self.mailbox@ =~= o.mailbox@.update(pos as int, piece));
        }
    }

    /// Moves the piece on `from` to the empty square `to`.
    fn move_piece_quiet(&mut self, from: usize, to: usize)
        requires
            old(self).wf(),
            from < 64,
            to < 64,
            from != to,
            old(self)@.pieces[from as int] != 0,
            old(self)@.pieces[to as int] == 0,
        ensures
            final(self).wf(),
            final(self)@ == with_piece(
                with_piece(old(self)@, from as int, 0),
                to as int,
                old(self)@.pieces[from as int],
            ),
    {
        let piece = self.piece_on(from);
        proof {
            self.lemma_cells();
            assert(cell_ok(self@.pieces[from as int]));
        }
        self.remove_piece(piece, from);
        self.add_piece(piece, to);
    }
}

/// The square whose piece a move takes: behind the target for en passant.
pub open spec fn cap_square(v: BoardView, mv: Move) -> int {
    if mv.spec_flag() == 10 {
        if v.side == Color::White { mv.spec_to() - 8 } else { mv.spec_to() + 8 }
    } else {
        mv.spec_to()
    }
}

/// The start square of the king whose piece code is `p`.
pub open spec fn king_home(p: u8) -> int {
    if p & 16u8 != 0 { 60 } else { 4 }
}

/// Castling rights after a move from `from` to `to`: a king that leaves its
/// start square loses both rights, and a rook square left or captured loses its right.
pub open spec fn rights_after(c: u8, from: int, to: int) -> u8 {
    let c1 = if from == 4 { c & !3u8 } else { c };
    let c2 = if from == 60 { c1 & !12u8 } else { c1 };
    let c3 = if from == 7 || to == 7 { c2 & !1u8 } else { c2 };
    let c4 = if from == 0 || to == 0 { c3 & !2u8 } else { c3 };
    let c5 = if from == 63 || to == 63 { c4 & !4u8 } else { c4 };
    if from == 56 || to == 56 { c5 & !8u8 } else { c5 }
}

/// The pieces after the capture and the move of the piece itself.
pub open spec fn moved_pieces(v: BoardView, mv: Move) -> Seq<u8> {
    let from = mv.spec_from();
    let to = mv.spec_to();
    v.pieces.update(cap_square(v, mv), 0).update(from, 0).update(to, v.pieces[from])
}

/// The pieces after a promotion has replaced the pawn.
pub open spec fn promoted_pieces(v: BoardView, mv: Move) -> Seq<u8> {
    let f = mv.spec_flag();
    let p2 = moved_pieces(v, mv);
    if f & 4u8 != 0 {
        let color: u8 = if v.side == Color::White { 8 } else { 16 };
        p2.update(mv.spec_to(), (color + (f & 3u8) + 2) as u8)
    } else {
        p2
    }
}

/// The view after `make_move`.
pub open spec fn made(v: BoardView, mv: Move) -> BoardView {
    let from = mv.spec_from();
    let to = mv.spec_to();
    let f = mv.spec_flag();
    let p3 = promoted_pieces(v, mv);
    let kp = king_home(v.pieces[from]);
    let p4 = if f & 14u8 == 2 {
        if f == 2 {
            p3.update(kp + 3, 0).update(kp + 1, p3[kp + 3])
        } else {
            p3.update(kp - 4, 0).update(kp - 1, p3[kp - 4])
        }
    } else {
        p3
    };
    BoardView {
        pieces: p4,
        castling: rights_after(v.castling, from, to),
        side: v.side.spec_opponent(),
        en_passant: if f == 1 { Some(((from + to) / 2) as u8) } else { None },
    }
}

/// What `make_move` records.
pub open spec fn undo_of(v: BoardView, mv: Move) -> Undo {
    Undo {
        captured: v.pieces[cap_square(v, mv)],
        prev_en_passant_sq: v.en_passant,
        prev_castling_rights: CastlingRights(v.castling),
        prev_last_irreversible: 0,
    }
}

/// The moves `make_move` can play: a piece on the origin, a capture square
/// on the board that is not the origin, an empty target for en passant, and
/// for castling a rook to move past an empty square.
pub open spec fn make_ok(v: BoardView, mv: Move) -> bool {
    let from = mv.spec_from();
    let to = mv.spec_to();
    let f = mv.spec_flag();
    let cs = cap_square(v, mv);
    let p3 = promoted_pieces(v, mv);
    let kp = king_home(v.pieces[from]);
    &&& from != to
    &&& v.pieces[from] != 0
    &&& 0 <= cs < 64
    &&& cs != from
    &&& f == 10 ==> v.pieces[to] == 0
    &&& f == 2 ==> p3[kp + 3] != 0 && p3[kp + 1] == 0
    &&& f == 3 ==> p3[kp - 4] != 0 && p3[kp - 1] == 0
}

/// A pseudo-legal move in the sense that matters for taking it back: the
/// mover belongs to the side to move, captures take an enemy piece and
/// other moves land on an empty square, promotions move a pawn, and castling
/// moves the king two squares from its start square.
pub open spec fn move_ok(v: BoardView, mv: Move) -> bool {
    let from = mv.spec_from();
    let to = mv.spec_to();
    let f = mv.spec_flag();
    let p = v.pieces[from];
    let own: u8 = if v.side == Color::White { 8 } else { 16 };
    let enemy: u8 = if v.side == Color::White { 16 } else { 8 };
    let cs = cap_square(v, mv);
    let kp = king_home(p);
    &&& make_ok(v, mv)
    &&& is_piece(p) && p & 24u8 == own
    &&& f & 8u8 != 0 ==> is_piece(v.pieces[cs]) && v.pieces[cs] & 24u8 == enemy
    &&& f == 10 ==> v.pieces[cs] == enemy + 1
    &&& f & 8u8 == 0 ==> v.pieces[to] == 0
    &&& f & 4u8 != 0 ==> p == own + 1
    &&& f == 2 ==> from == kp && to == kp + 2
    &&& f == 3 ==> from == kp && to == kp - 2
    &&& f == 1 ==> p == own + 1 && v.pieces[(from + to) / 2] == 0 && (if v.side == Color::White {
        8 <= from < 16 && to == from + 16
    } else {
        48 <= from < 56 && to == from - 16
    })
}

/// The en passant square, if any, is empty, on the right rank, with the
/// pawn that just passed it behind it.
pub open spec fn ep_ok(v: BoardView) -> bool {
    v.en_passant matches Some(e) ==> {
        &&& v.pieces[e as int] == 0
        &&& if v.side == Color::White {
            40 <= e < 48 && v.pieces[e - 8] == 17
        } else {
            16 <= e < 24 && v.pieces[e + 8] == 9
        }
    }
}

impl Board {
    /// Takes the captured piece off and moves the mover.
    fn capture_and_move(&mut self, mov: &Move) -> (undo: Undo)
        requires
            old(self).wf(),
            make_ok(old(self)@, *mov),
        ensures
            final(self).wf(),
            final(self)@ == with_pieces(old(self)@, moved_pieces(old(self)@, *mov)),
            undo == undo_of(old(self)@, *mov),
    {
        let ghost v = self@;
        proof {
            self.lemma_cells();
        }
        let from = mov.from();
        let to = mov.to();
        let flag = mov.flag();
        let mut captured_sq = to;
        if flag.0 == MoveFlag::EN_PASSANT {
            captured_sq = if self.side_to_move == Color::White {
                to - 8
            } else {
                to + 8
            };
        }
        let captured = self.piece_on(captured_sq);
        let undo = Undo::new(captured, self.castling, self.en_passant, 0);
        if captured != Piece::NONE {
            proof {
                assert(cell_ok(self@.pieces[captured_sq as int]));
            }
            self.remove_piece(captured, captured_sq);
        }
        proof {
            assert(self@.pieces =~= v.pieces.update(captured_sq as int, 0));
        }
        self.move_piece_quiet(from, to);
        proof {
            assert(self@.pieces =~= moved_pieces(v, *mov));
        }
        undo
    }

    /// Replaces a promoting pawn by the promotion piece.
    fn promote(&mut self, mov: &Move, ghost_v: Ghost<BoardView>)
        requires
            old(self).wf(),
            make_ok(ghost_v@, *mov),
            ghost_v@.pieces.len() == 64,
            old(self)@ == with_pieces(ghost_v@, moved_pieces(ghost_v@, *mov)),
        ensures
            final(self).wf(),
            final(self)@ == with_pieces(ghost_v@, promoted_pieces(ghost_v@, *mov)),
    {
        let to = mov.to();
        let flag = mov.flag();
        if flag.is_promo() {
            proof {
                self.lemma_cells();
            }
            let cur_piece = self.piece_on(to);
            proof {
                assert(cell_ok(self@.pieces[to as int]));
                crate::items::lemma_move_bounds(*mov);
                assert(self@.pieces[to as int] == ghost_v@.pieces[mov.spec_from()]);
            }
            self.remove_piece(cur_piece, to);
            let f = flag.0;
            proof {
                crate::bits::lemma_byte_facts(f);
            }
            let promo_type = flag.0 & MoveFlag::PIECE_BIT;
            let color_bit: u8 = if self.side_to_move == Color::White {
                Piece::WHITE
            } else {
                Piece::BLACK
            };
            let promo_piece = promo_piece_code(color_bit, promo_type);
            self.add_piece(promo_piece, to);
            proof {
                assert(self@.pieces =~= promoted_pieces(ghost_v@, *mov));
            }
        }
    }

    /// Moves the rook of a castling move.
    fn castle_rook(&mut self, mov: &Move, cur_piece: u8, ghost_v: Ghost<BoardView>)
        requires
            old(self).wf(),
            make_ok(ghost_v@, *mov),
            ghost_v@.pieces.len() == 64,
            cur_piece == ghost_v@.pieces[mov.spec_from()],
            old(self)@ == with_pieces(ghost_v@, promoted_pieces(ghost_v@, *mov)),
        ensures
            final(self).wf(),
            final(self)@ == with_pieces(ghost_v@, made(ghost_v@, *mov).pieces),
    {
        let flag = mov.flag();
        proof {
            crate::items::lemma_castle_flags(flag.0);
        }
        if flag.is_castle() {
            let is_black = (cur_piece & Piece::BLACK) != 0;
            let king_pos = if is_black {
                BK_START_POS
            } else {
                WK_START_POS
            };
            if flag.0 == MoveFlag::KING_CASTLE {
                self.move_piece_quiet(king_pos + 3, king_pos + 1);
            } else {
                self.move_piece_quiet(king_pos - 4, king_pos - 1);
            }
        }
        proof {
            assert(self@.pieces =~= made(ghost_v@, *mov).pieces);
        }
    }

    /// Plays `mov` and returns what is needed to take it back.
    pub fn make_move(&mut self, mov: &Move) -> (undo: Undo)
        requires
            old(self).wf(),
            make_ok(old(self)@, *mov),
        ensures
            final(self).wf(),
            final(self)@ == made(old(self)@, *mov),
            undo == undo_of(old(self)@, *mov),
    {
        let ghost v = self@;
        proof {
            self.lemma_cells();
        }
        let from = mov.from();
        let to = mov.to();
        let flag = mov.flag();
        let cur_piece = self.piece_on(from);
        let undo = self.capture_and_move(mov);
        self.promote(mov, Ghost(v));
        self.castle_rook(mov, cur_piece, Ghost(v));
        self.en_passant = if flag.0 == MoveFlag::DOUBLE_PUSH {
            Some(((from + to) / 2) as u8)
        } else {
            None
        };
        self.castling = CastlingRights(rights_after_exec(self.castling.0, from, to));
        self.side_to_move = self.side_to_move.opponent();
        proof {
            reveal(Board::wf);
        }
        undo
    }
}

/// The castling rights left after a move from `from` to `to`.
fn rights_after_exec(c: u8, from: usize, to: usize) -> (r: u8)
    ensures
        r == rights_after(c, from as int, to as int),
{
    let mut castling = CastlingRights(c);
    if from == WK_START_POS {
        castling.remove(WK | WQ);
    }
    if from == BK_START_POS {
        castling.remove(BK | BQ);
    }
    if from == WK_START_POS + 3 || to == WK_START_POS + 3 {
        castling.remove(WK);
    }
    if from == WK_START_POS - 4 || to == WK_START_POS - 4 {
        castling.remove(WQ);
    }
    if from == BK_START_POS + 3 || to == BK_START_POS + 3 {
        castling.remove(BK);
    }
    if from == BK_START_POS - 4 || to == BK_START_POS - 4 {
        castling.remove(BQ);
    }
    proof {
        crate::bits::lemma_byte_facts(0);
    }
    castling.0
}

/// The code of the promotion piece: colour bits plus knight, bishop, rook or queen.
fn promo_piece_code(color_bit: u8, promo_type: u8) -> (r: u8)
    requires
        color_bit == 8 || color_bit == 16,
        promo_type < 4,
    ensures
        r == color_bit + promo_type + 2,
        is_piece(r),
{
    let promo_pieces: [u8; 4] = [Piece::KNIGHT, Piece::BISHOP, Piece::ROOK, Piece::QUEEN];
    let t = promo_pieces[promo_type as usize];
    proof {
        crate::items::lemma_or_is_add(color_bit, t);
    }
    color_bit | t
}

pub proof fn lemma_black_bit(p: u8)
    requires
        is_piece(p),
    ensures
        (p & 16u8 != 0) <==> is_black_piece(p),
{
    lemma_piece_code(p);
}

/// The square a taken-back capture is restored to: for en passant, behind
/// the target as seen from the captured pawn's colour.
pub open spec fn undo_cap_square(mv: Move, u: Undo) -> int {
    if mv.spec_flag() == 10 {
        if u.captured & 24u8 == 16 { mv.spec_to() - 8 } else { mv.spec_to() + 8 }
    } else {
        mv.spec_to()
    }
}

/// The pieces with the mover back on its origin.
pub open spec fn back_pieces(v: BoardView, mv: Move) -> Seq<u8> {
    v.pieces.update(mv.spec_to(), 0).update(mv.spec_from(), v.pieces[mv.spec_to()])
}

/// ... and the captured piece restored.
pub open spec fn restored_pieces(v: BoardView, mv: Move, u: Undo) -> Seq<u8> {
    let q1 = back_pieces(v, mv);
    if mv.spec_flag() & 8u8 != 0 { q1.update(undo_cap_square(mv, u), u.captured) } else { q1 }
}

/// ... and a promoted piece turned back into a pawn.
pub open spec fn unpromoted_pieces(v: BoardView, mv: Move, u: Undo) -> Seq<u8> {
    let q2 = restored_pieces(v, mv, u);
    if mv.spec_flag() & 4u8 != 0 {
        q2.update(mv.spec_from(), if v.pieces[mv.spec_to()] & 8u8 != 0 { 9u8 } else { 17u8 })
    } else {
        q2
    }
}

/// The view after `undo_move`.
pub open spec fn unmade(v: BoardView, mv: Move, u: Undo) -> BoardView {
    let to = mv.spec_to();
    let f = mv.spec_flag();
    let q3 = unpromoted_pieces(v, mv, u);
    let q4 = if f & 14u8 == 2 {
        if f == 2 {
            q3.update(to - 1, 0).update(to + 1, q3[to - 1])
        } else {
            q3.update(to + 1, 0).update(to - 2, q3[to + 1])
        }
    } else {
        q3
    };
    BoardView {
        pieces: q4,
        castling: u.prev_castling_rights.0,
        side: v.side.spec_opponent(),
        en_passant: u.prev_en_passant_sq,
    }
}

/// The positions in which `undo_move` can take `mv` back with `u`.
pub open spec fn undo_ok(v: BoardView, mv: Move, u: Undo) -> bool {
    let from = mv.spec_from();
    let to = mv.spec_to();
    let f = mv.spec_flag();
    let q1 = back_pieces(v, mv);
    let ucs = undo_cap_square(mv, u);
    let q2 = restored_pieces(v, mv, u);
    let q3 = unpromoted_pieces(v, mv, u);
    &&& from != to
    &&& v.pieces[to] != 0
    &&& v.pieces[from] == 0
    &&& f & 8u8 != 0 ==> is_piece(u.captured) && 0 <= ucs < 64 && q1[ucs] == 0
    &&& f & 4u8 != 0 ==> q2[from] != 0
    &&& f == 2 ==> 1 <= to && to + 1 < 64 && q3[to - 1] != 0 && q3[to + 1] == 0
    &&& f == 3 ==> 2 <= to && to + 1 < 64 && q3[to + 1] != 0 && q3[to - 2] == 0
    &&& u.prev_en_passant_sq matches Some(e) ==> e < 64
}

impl Board {
    /// Takes back `mov`, played by `make_move`, with what it returned.
    pub fn undo_move(&mut self, mov: &Move, undo: &Undo)
        requires
            old(self).wf(),
            undo_ok(old(self)@, *mov, *undo),
        ensures
            final(self).wf(),
            final(self)@ == unmade(old(self)@, *mov, *undo),
    {
        let ghost v = self@;
        proof {
            self.lemma_cells();
            crate::items::lemma_move_bounds(*mov);
        }
        let from = mov.from();
        let to = mov.to();
        let flag = mov.flag();
        let cur_piece = self.piece_on(to);
        self.move_piece_quiet(to, from);
        proof {
            assert(self@.pieces =~= back_pieces(v, *mov));
        }
        if flag.is_capture() {
            let mut cap_sq = to;
            if flag.0 == MoveFlag::EN_PASSANT {
                cap_sq = if Piece::get_color(undo.captured) == Piece::BLACK {
                    to - 8
                } else {
                    to + 8
                };
            }
            self.add_piece(undo.captured, cap_sq);
        }
        proof {
            assert(self@.pieces =~= restored_pieces(v, *mov, *undo));
        }
        self.unpromote(mov, cur_piece, Ghost(v), Ghost(*undo));
        self.uncastle(mov, Ghost(v), Ghost(*undo));
        self.en_passant = undo.prev_en_passant_sq;
        self.castling = undo.prev_castling_rights;
        self.side_to_move = self.side_to_move.opponent();
        proof {
            reveal(Board::wf);
        }
    }

    fn unpromote(&mut self, mov: &Move, cur_piece: u8, ghost_v: Ghost<BoardView>, ghost_u: Ghost<Undo>)
        requires
            old(self).wf(),
            undo_ok(ghost_v@, *mov, ghost_u@),
            ghost_v@.pieces.len() == 64,
            cur_piece == ghost_v@.pieces[mov.spec_to()],
            old(self)@ == with_pieces(ghost_v@, restored_pieces(ghost_v@, *mov, ghost_u@)),
        ensures
            final(self).wf(),
            final(self)@ == with_pieces(ghost_v@, unpromoted_pieces(ghost_v@, *mov, ghost_u@)),
    {
        let flag = mov.flag();
        if flag.is_promo() {
            let from = mov.from();
            proof {
                self.lemma_cells();
                assert(cell_ok(self@.pieces[from as int]));
                lemma_white_bit(self@.pieces[from as int]);
            }
            let pawn = if (cur_piece & Piece::WHITE) != 0 {
                Piece::WHITE | Piece::PAWN
            } else {
                Piece::BLACK | Piece::PAWN
            };
            let p = self.piece_on(from);
            self.remove_piece(p, from);
            proof {
                crate::bits::lemma_byte_facts(0);
            }
            self.add_piece(pawn, from);
            proof {
                assert(self@.pieces =~= unpromoted_pieces(ghost_v@, *mov, ghost_u@));
            }
        }
    }

    fn uncastle(&mut self, mov: &Move, ghost_v: Ghost<BoardView>, ghost_u: Ghost<Undo>)
        requires
            old(self).wf(),
            undo_ok(ghost_v@, *mov, ghost_u@),
            ghost_v@.pieces.len() == 64,
            old(self)@ == with_pieces(ghost_v@, unpromoted_pieces(ghost_v@, *mov, ghost_u@)),
        ensures
            final(self).wf(),
            final(self)@ == with_pieces(ghost_v@, unmade(ghost_v@, *mov, ghost_u@).pieces),
    {
        let flag = mov.flag();
        let to = mov.to();
        proof {
            crate::items::lemma_castle_flags(flag.0);
        }
        if flag.is_castle() {
            if flag.0 == MoveFlag::KING_CASTLE {
                self.move_piece_quiet(to - 1, to + 1);
            } else if flag.0 == MoveFlag::QUEEN_CASTLE {
                self.move_piece_quiet(to + 1, to - 2);
            }
        }
        proof {
            assert(self@.pieces =~= unmade(ghost_v@, *mov, ghost_u@).pieces);
        }
    }
}

pub proof fn lemma_white_bit(p: u8)
    requires
        p == 0 || is_piece(p),
    ensures
        (p & 8u8 != 0) <==> (9 <= p <= 14),
{
    if p == 0 {
        crate::bits::lemma_byte_facts(0);
    } else {
        lemma_piece_code(p);
    }
}

/// How many of the first `n` squares of `s` hold a piece.
pub open spec fn count_occupied(s: Seq<u8>, n: int) -> int
    decreases n,
{
    if n <= 0 { 0 } else { count_occupied(s, n - 1) + (if s[n - 1] != 0 { 1int } else { 0 }) }
}

proof fn lemma_count_update(s: Seq<u8>, i: int, x: u8, n: int)
    requires
        0 <= n <= s.len(),
        0 <= i < s.len(),
    ensures
        count_occupied(s.update(i, x), n) == count_occupied(s, n) - (if i < n && s[i] != 0 { 1int } else { 0 })
            + (if i < n && x != 0 { 1int } else { 0 }),
    decreases n,
{
    if n > 0 {
        lemma_count_update(s, i, x, n - 1);
    }
}

/// A move keeps every piece on the board but the one it captures: the
/// piece count drops by one on a capture and stays the same otherwise
/// (castling moves two pieces, a promotion replaces one).
pub proof fn lemma_make_move_count(v: BoardView, mv: Move)
    requires
        v.pieces.len() == 64,
        move_ok(v, mv),
    ensures
        count_occupied(made(v, mv).pieces, 64) == count_occupied(v.pieces, 64) - (if mv.spec_flag() & 8u8 != 0 { 1int } else { 0 }),
{
    let from = mv.spec_from();
    let to = mv.spec_to();
    let f = mv.spec_flag();
    let cs = cap_square(v, mv);
    crate::items::lemma_move_bounds(mv);
    crate::items::lemma_castle_flags(f);
    let s1 = v.pieces.update(cs, 0);
    let s2 = s1.update(from, 0);
    let s3 = s2.update(to, v.pieces[from]);
    lemma_count_update(v.pieces, cs, 0, 64);
    lemma_count_update(s1, from, 0, 64);
    lemma_count_update(s2, to, v.pieces[from], 64);
    assert(s3 == moved_pieces(v, mv));
    assert(s1[from] == v.pieces[from]);
    assert(s2[to] == 0);
    assert(v.pieces[cs] != 0 <==> f & 8u8 != 0);
    assert(count_occupied(s3, 64) == count_occupied(v.pieces, 64) - (if f & 8u8 != 0 { 1int } else { 0 }));
    let p3 = promoted_pieces(v, mv);
    if f & 4u8 != 0 {
        let color: u8 = if v.side == Color::White { 8 } else { 16 };
        let q: u8 = (color + (f & 3u8) + 2) as u8;
        assert(f & 3u8 <= 3) by (bit_vector);
        assert(q != 0);
        lemma_count_update(s3, to, q, 64);
        assert(p3 == s3.update(to, q));
    } else {
        assert(p3 == s3);
    }
    assert(count_occupied(p3, 64) == count_occupied(s3, 64));
    let kp = king_home(v.pieces[from]);
    if f & 14u8 == 2 {
        if f == 2 {
            let q = p3.update(kp + 3, 0);
            lemma_count_update(p3, kp + 3, 0, 64);
            lemma_count_update(q, kp + 1, p3[kp + 3], 64);
        } else {
            let q = p3.update(kp - 4, 0);
            lemma_count_update(p3, kp - 4, 0, 64);
            lemma_count_update(q, kp - 1, p3[kp - 4], 64);
        }
    }
}

/// Playing a pseudo-legal move and taking it back restores the position:
/// `undo_move` accepts what `make_move` left and returned, and gives back
/// the view the board had before.
pub proof fn lemma_make_undo(b: Board, mv: Move)
    requires
        b.wf(),
        move_ok(b@, mv),
    ensures
        undo_ok(made(b@, mv), mv, undo_of(b@, mv)),
        unmade(made(b@, mv), mv, undo_of(b@, mv)) == b@,
{
    let v = b@;
    b.lemma_cells();
    crate::items::lemma_move_bounds(mv);
    let from = mv.spec_from();
    let to = mv.spec_to();
    let f = mv.spec_flag();
    crate::items::lemma_castle_flags(f);
    let p = v.pieces[from];
    let u = undo_of(v, mv);
    let w = made(v, mv);
    assert(cell_ok(v.pieces[to]));
    assert(cell_ok(v.pieces[cap_square(v, mv)]));
    lemma_piece_code(p);
    lemma_white_bit(p);
    lemma_black_bit(p);
    if f & 8u8 != 0 {
        let c = v.pieces[cap_square(v, mv)];
        lemma_piece_code(c);
    }
    if f & 4u8 != 0 {
        let own: u8 = if v.side == Color::White { 8 } else { 16 };
        let q = (own + (f & 3u8) + 2) as u8;
        crate::bits::lemma_byte_facts(f);
        assert(is_piece(q));
        lemma_piece_code(q);
    }
    assert(w.pieces[to] != 0);
    assert(undo_ok(w, mv, u));
    assert(unmade(w, mv, u).pieces =~= v.pieces);
}

/// The mailbox square `s` as rebuilt from the first `n` bitboards: the code
/// of the last of them that holds `s`, or empty.
pub open spec fn built_cell(bbs: Seq<u64>, s: int, n: int) -> u8
    decreases n,
{
    if n <= 0 {
        0
    } else if bit(bbs[n - 1], s) {
        piece_code(n - 1)
    } else {
        built_cell(bbs, s, n - 1)
    }
}

/// No square is in two of the bitboards.
pub open spec fn disjoint_boards(bbs: Seq<u64>) -> bool {
    forall|i: int, j: int, s: int|
        0 <= i < j < 12 && 0 <= s < 64 ==> !(#[trigger] bit(bbs[i], s) && #[trigger] bit(bbs[j], s))
}

proof fn lemma_built(bbs: Seq<u64>, s: int, n: int)
    requires
        0 <= n <= 12,
        bbs.len() == 12,
        disjoint_boards(bbs),
        0 <= s < 64,
    ensures
        (forall|i: int| 0 <= i < n ==> !bit(bbs[i], s)) ==> built_cell(bbs, s, n) == 0,
        forall|i: int| 0 <= i < n && bit(bbs[i], s) ==> built_cell(bbs, s, n) == piece_code(i),
    decreases n,
{
    if n > 0 {
        lemma_built(bbs, s, n - 1);
        assert forall|i: int| 0 <= i < n && bit(bbs[i], s) implies built_cell(bbs, s, n) == piece_code(i) by {
            if i < n - 1 {
                assert(!(bit(bbs[i], s) && bit(bbs[n - 1], s)));
            }
        }
    }
}

impl Board {
    /// The raw bitboards, as stored.
    pub closed spec fn spec_bitboards(&self) -> Seq<u64> {
        self.bitboards@
    }

    /// The raw occupancy boards, as stored.
    pub closed spec fn spec_occupancy(&self) -> Seq<u64> {
        self.occupancy@
    }

    /// The stored bitboard of `piece`, to be changed in place; nothing else
    /// changes. Changing it alone leaves the board out of step with its
    /// mailbox until `build_mailbox` and `build_occupancy` run.
    pub fn mut_bb(&mut self, piece: PieceInfo) -> (r: &mut u64)
        requires
            crate::items::is_piece(piece),
        ensures
            *r == old(self).spec_bitboards()[piece_index(piece)],
            final(self).spec_bitboards() == old(self).spec_bitboards().update(piece_index(piece), *final(r)),
            final(self).spec_occupancy() == old(self).spec_occupancy(),
            final(self)@ == old(self)@,
    {
        proof {
            lemma_piece_code(piece);
        }
        let idx = Piece::to_idx(piece);
        &mut self.bitboards[idx]
    }

    /// Rebuilds the mailbox from the bitboards: each square gets the piece of
    /// the last bitboard that holds it, or stays empty.
    pub fn build_mailbox(&mut self)
        ensures
            final(self).spec_bitboards() == old(self).spec_bitboards(),
            forall|s: int| 0 <= s < 64 ==> #[trigger] final(self)@.pieces[s] == built_cell(old(self).spec_bitboards(), s, 12),
            final(self)@.side == old(self)@.side,
            final(self)@.castling == old(self)@.castling,
            final(self)@.en_passant == old(self)@.en_passant,
            final(self).spec_occupancy() == old(self).spec_occupancy(),
    {
        self.mailbox = [0u8; 64];
        let mut idx: usize = 0;
        while idx < 12
            invariant
                0 <= idx <= 12,
                self.bitboards == old(self).bitboards,
                self.occupancy == old(self).occupancy,
                self.castling == old(self).castling,
                self.side_to_move == old(self).side_to_move,
                self.en_passant == old(self).en_passant,
                forall|s: int| 0 <= s < 64 ==> #[trigger] self.mailbox[s] == built_cell(self.bitboards@, s, idx as int),
            decreases 12 - idx,
        {
            let mut current = self.bitboards[idx];
            let ghost bbi = current;
            while current != 0
                invariant
                    0 <= idx < 12,
                    bbi == self.bitboards[idx as int],
                    self.bitboards == old(self).bitboards,
                    self.occupancy == old(self).occupancy,
                    self.castling == old(self).castling,
                    self.side_to_move == old(self).side_to_move,
                    self.en_passant == old(self).en_passant,
                    forall|s: int| 0 <= s < 64 && #[trigger] bit(current, s) ==> bit(bbi, s),
                    forall|s: int| 0 <= s < 64 ==> #[trigger] self.mailbox[s] == (if bit(bbi, s) && !bit(current, s) {
                        piece_code(idx as int)
                    } else {
                        built_cell(self.bitboards@, s, idx as int)
                    }),
                decreases current,
            {
                let sq = pop_lsb(&mut current).unwrap();
                self.mailbox[sq] = Piece::from_idx(idx);
            }
            proof {
                crate::bits::lemma_zero_iff_no_bits(current);
                assert forall|s: int| 0 <= s < 64 implies #[trigger] self.mailbox[s] == built_cell(self.bitboards@, s, idx + 1) by {
                    assert(!bit(current, s));
                }
            }
            idx += 1;
        }
    }

    /// Rebuilds the three occupancy boards from the piece bitboards.
    pub fn build_occupancy(&mut self)
        ensures
            final(self).spec_bitboards() == old(self).spec_bitboards(),
            final(self)@ == old(self)@,
            final(self).spec_occupancy()[0] == (old(self).spec_bitboards()[0] | old(self).spec_bitboards()[1] | old(self).spec_bitboards()[2]
                | old(self).spec_bitboards()[3] | old(self).spec_bitboards()[4] | old(self).spec_bitboards()[5]),
            final(self).spec_occupancy()[1] == (old(self).spec_bitboards()[6] | old(self).spec_bitboards()[7] | old(self).spec_bitboards()[8]
                | old(self).spec_bitboards()[9] | old(self).spec_bitboards()[10] | old(self).spec_bitboards()[11]),
            final(self).spec_occupancy()[2] == final(self).spec_occupancy()[0] | final(self).spec_occupancy()[1],
    {
        let b = self.bitboards;
        self.occupancy[WHITE] = b[0] | b[1] | b[2] | b[3] | b[4] | b[5];
        self.occupancy[BLACK] = b[6] | b[7] | b[8] | b[9] | b[10] | b[11];
        self.occupancy[BOTH] = self.occupancy[WHITE] | self.occupancy[BLACK];
    }

    /// After rebuilding mailbox and occupancy from disjoint bitboards, the
    /// board is well formed.
    proof fn lemma_rebuilt_wf(&self)
        requires
            disjoint_boards(self.bitboards@),
            forall|s: int| 0 <= s < 64 ==> #[trigger] self.mailbox[s] == built_cell(self.bitboards@, s, 12),
            self.occupancy[0] == (self.bitboards[0] | self.bitboards[1] | self.bitboards[2]
                | self.bitboards[3] | self.bitboards[4] | self.bitboards[5]),
            self.occupancy[1] == (self.bitboards[6] | self.bitboards[7] | self.bitboards[8]
                | self.bitboards[9] | self.bitboards[10] | self.bitboards[11]),
            self.occupancy[2] == self.occupancy[0] | self.occupancy[1],
            self.en_passant matches Some(e) ==> e < 64,
        ensures
            self.wf(),
    {
        reveal(Board::wf);
        let b = self.bitboards;
        assert forall|s: int| 0 <= s < 64 implies {
            &&& cell_ok(self.mailbox[s])
            &&& (forall|i: int| 0 <= i < 12 ==> (#[trigger] bit(b[i], s) == (self.mailbox[s] == piece_code(i))))
            &&& bit(self.occupancy[0], s) == is_white_piece(self.mailbox[s])
            &&& bit(self.occupancy[1], s) == is_black_piece(self.mailbox[s])
            &&& bit(self.occupancy[2], s) == (self.mailbox[s] != 0)
        } by {
            lemma_built(b@, s, 12);
            let j = s as u64;
            lemma_bit_ops(b[0], b[1], 0, j);
            lemma_bit_ops(b[0] | b[1], b[2], 0, j);
            lemma_bit_ops(b[0] | b[1] | b[2], b[3], 0, j);
            lemma_bit_ops(b[0] | b[1] | b[2] | b[3], b[4], 0, j);
            lemma_bit_ops(b[0] | b[1] | b[2] | b[3] | b[4], b[5], 0, j);
            lemma_bit_ops(b[6], b[7], 0, j);
            lemma_bit_ops(b[6] | b[7], b[8], 0, j);
            lemma_bit_ops(b[6] | b[7] | b[8], b[9], 0, j);
            lemma_bit_ops(b[6] | b[7] | b[8] | b[9], b[10], 0, j);
            lemma_bit_ops(b[6] | b[7] | b[8] | b[9] | b[10], b[11], 0, j);
            lemma_bit_ops(self.occupancy[0], self.occupancy[1], 0, j);
            assert forall|i: int| 0 <= i < 12 implies #[trigger] is_piece(piece_code(i)) && (is_white_piece(piece_code(i)) <==> i < 6)
                && (forall|k: int| 0 <= k < 12 && k != i ==> piece_code(k) != piece_code(i)) by {
                lemma_code_index(i);
            }
            assert(b@[0] == b[0]);
            if exists|i: int| 0 <= i < 12 && bit(b[i], s) {
                let i = choose|i: int| 0 <= i < 12 && bit(b[i], s);
                assert(bit(b@[i], s));
                assert(self.mailbox[s] == piece_code(i));
                assert(is_piece(piece_code(i)));
            } else {
                assert forall|i: int| 0 <= i < 12 implies !bit(b@[i], s) by {
                    assert(!bit(b[i], s));
                }
                assert(self.mailbox[s] == 0);
            }
        }
    }
}

/// The piece on square `s` in the initial position.
pub open spec fn start_code(s: int) -> u8 {
    if s < 8 {
        if s == 0 || s == 7 { 12 } else if s == 1 || s == 6 { 10 } else if s == 2 || s == 5 { 11 } else if s == 3 { 13 } else { 14 }
    } else if s < 16 {
        9
    } else if s < 48 {
        0
    } else if s < 56 {
        17
    } else {
        let f = s - 56;
        if f == 0 || f == 7 { 20 } else if f == 1 || f == 6 { 18 } else if f == 2 || f == 5 { 19 } else if f == 3 { 21 } else { 22 }
    }
}

proof fn lemma_start_bits(s: u64)
    by (bit_vector)
    requires
        s < 64,
    ensures
        bit(0xFF00u64, s as int) == (8 <= s < 16),
        bit(0x42u64, s as int) == (s == 1 || s == 6),
        bit(0x24u64, s as int) == (s == 2 || s == 5),
        bit(0x81u64, s as int) == (s == 0 || s == 7),
        bit(0x8u64, s as int) == (s == 3),
        bit(0x10u64, s as int) == (s == 4),
        bit(0x00FF_0000_0000_0000u64, s as int) == (48 <= s < 56),
        bit(0x4200_0000_0000_0000u64, s as int) == (s == 57 || s == 62),
        bit(0x2400_0000_0000_0000u64, s as int) == (s == 58 || s == 61),
        bit(0x8100_0000_0000_0000u64, s as int) == (s == 56 || s == 63),
        bit(0x0800_0000_0000_0000u64, s as int) == (s == 59),
        bit(0x1000_0000_0000_0000u64, s as int) == (s == 60),
{
}

impl Board {
    /// The view of the initial position.
    pub open spec fn start_pos_view() -> BoardView {
        BoardView { pieces: Seq::new(64, |s: int| start_code(s)), castling: 15, side: Color::White, en_passant: None }
    }

    /// The initial position, White to move with all castling rights.
    pub fn start_pos() -> (r: Self)
        ensures
            r.wf(),
            r@ == Board::start_pos_view(),
            forall|s: int| 0 <= s < 64 ==> #[trigger] r@.pieces[s] == start_code(s),
            r@.side == Color::White,
            r@.castling == 15,
            r@.en_passant is None,
    {
        let bitboards: [u64; 12] = [
            0xFF00, 0x0042, 0x0024, 0x0081, 0x0008, 0x0010,
            0x00FF000000000000, 0x4200000000000000, 0x2400000000000000,
            0x8100000000000000, 0x0800000000000000, 0x1000000000000000,
        ];
        let mut board = Self {
            bitboards,
            occupancy: [0u64; 3],
            mailbox: [0u8; 64],
            side_to_move: Color::White,
            castling: CastlingRights::new(),
            en_passant: None,
        };
        board.build_mailbox();
        let ghost mid = board;
        board.build_occupancy();
        proof {
            let b = board.bitboards;
            assert forall|s: int| 0 <= s < 64 implies #[trigger] board.mailbox[s] == built_cell(b@, s, 12) by {
                assert(board@.pieces[s] == mid@.pieces[s]);
                assert(mid.mailbox[s] == built_cell(mid.bitboards@, s, 12));
            }
            assert forall|i: int, s: int| 0 <= i < 12 && 0 <= s < 64 implies #[trigger] bit(b@[i], s) == (start_code(s) == piece_code(i)) by {
                lemma_start_bits(s as u64);
                lemma_code_index(i);
            }
            assert(disjoint_boards(b@)) by {
                assert forall|i: int, j: int, s: int| 0 <= i < j < 12 && 0 <= s < 64 implies !(#[trigger] bit(b@[i], s) && #[trigger] bit(b@[j], s)) by {
                    lemma_code_index(i);
                    lemma_code_index(j);
                    assert(bit(b@[i], s) == (start_code(s) == piece_code(i)));
                    assert(bit(b@[j], s) == (start_code(s) == piece_code(j)));
                }
            }
            board.lemma_rebuilt_wf();
            assert forall|s: int| 0 <= s < 64 implies #[trigger] board@.pieces[s] == start_code(s) by {
                lemma_built(b@, s, 12);
                if start_code(s) != 0 {
                    let i = piece_index(start_code(s));
                    lemma_piece_code(start_code(s));
                    assert(bit(b@[i], s));
                } else {
                    assert forall|i: int| 0 <= i < 12 implies !bit(b@[i], s) by {
                        lemma_code_index(i);
                        assert(bit(b@[i], s) == (start_code(s) == piece_code(i)));
                    }
                }
            }
        }
        proof {
            assert(board@.pieces =~= Seq::new(64, |s: int| start_code(s)));
        }
        board
    }
}


/// ASCII whitespace: space, tab, line feed, vertical tab, form feed, return.
pub open spec fn is_space(b: u8) -> bool {
    b == 32 || (9 <= b && b <= 13)
}

/// The first index from `i` on that is not whitespace, or the length.
pub open spec fn skip_space(s: Seq<u8>, i: int) -> int
    decreases s.len() - i,
{
    if i >= s.len() {
        s.len() as int
    } else if is_space(s[i]) {
        skip_space(s, i + 1)
    } else {
        i
    }
}

/// The first index from `i` on that is whitespace, or the length.
pub open spec fn skip_word(s: Seq<u8>, i: int) -> int
    decreases s.len() - i,
{
    if i >= s.len() {
        s.len() as int
    } else if is_space(s[i]) {
        i
    } else {
        skip_word(s, i + 1)
    }
}

/// Where the `k`-th whitespace-separated field of `s` starts (the length
/// when there are fewer fields).
pub open spec fn field_start(s: Seq<u8>, k: nat) -> int
    decreases k,
{
    if k == 0 {
        skip_space(s, 0)
    } else {
        skip_space(s, skip_word(s, field_start(s, (k - 1) as nat)))
    }
}

/// The `k`-th whitespace-separated field of `s`.
pub open spec fn field(s: Seq<u8>, k: nat) -> Seq<u8> {
    s.subrange(field_start(s, k), skip_word(s, field_start(s, k)))
}

/// The piece a FEN byte names.
pub open spec fn byte_piece(c: u8) -> Option<u8> {
    piece_of_char(c as char)
}

/// Reads the piece field from byte `i` on, with the cursor on `rank` and
/// `file` and `board` placed so far: `/` goes down a rank to file 0, a digit
/// skips files, a piece letter is placed and moves one file on. `None` for
/// any other byte, or a piece off the board or on an occupied square.
pub open spec fn place_rows(p: Seq<u8>, i: int, rank: int, file: int, board: Seq<u8>) -> Option<Seq<u8>>
    decreases p.len() - i,
{
    if i >= p.len() || i < 0 {
        Some(board)
    } else if p[i] == 47 {
        place_rows(p, i + 1, rank - 1, 0, board)
    } else if 49 <= p[i] <= 56 {
        place_rows(p, i + 1, rank, file + (p[i] - 48), board)
    } else {
        match byte_piece(p[i]) {
            Some(pc) => {
                let sq = rank * 8 + file;
                if 0 <= sq < 64 && board[sq] == 0 {
                    place_rows(p, i + 1, rank, file + 1, board.update(sq, pc))
                } else {
                    None
                }
            },
            None => None,
        }
    }
}

/// The squares the piece field describes, when it is valid.
pub open spec fn fen_pieces(s: Seq<u8>) -> Option<Seq<u8>> {
    place_rows(field(s, 0), 0, 7, 0, empty_squares())
}

/// Sixty-four empty squares.
pub open spec fn empty_squares() -> Seq<u8> {
    Seq::new(64, |i: int| 0u8)
}

/// A castling field: `-`, or letters among `K`, `Q`, `k`, `q`.
pub open spec fn castling_field_ok(c: Seq<u8>) -> bool {
    c =~= seq![45u8] || forall|i: int| 0 <= i < c.len() ==> (#[trigger] c[i] == 75 || c[i] == 81 || c[i] == 107 || c[i] == 113)
}

/// An en passant field: `-`, or a file letter and a rank digit (more
/// bytes after them are ignored).
pub open spec fn ep_field_ok(e: Seq<u8>) -> bool {
    e =~= seq![45u8] || (e.len() >= 2 && 97 <= e[0] <= 104 && 49 <= e[1] <= 56)
}

pub open spec fn ep_field_square(e: Seq<u8>) -> Option<u8> {
    if e =~= seq![45u8] {
        None
    } else {
        Some(((e[1] - 49) * 8 + (e[0] - 97)) as u8)
    }
}

/// FEN text the parser accepts: at least four fields; a valid piece field
/// no longer than 2^26 bytes; `w` or `b`; a castling field; an en passant
/// field naming a square.
pub open spec fn fen_ok(s: Seq<u8>) -> bool {
    &&& field_start(s, 3) < s.len()
    &&& field(s, 0).len() <= 0x400_0000
    &&& fen_pieces(s) is Some
    &&& (field(s, 1) =~= seq![119u8] || field(s, 1) =~= seq![98u8])
    &&& castling_field_ok(field(s, 2))
    &&& ep_field_ok(field(s, 3))
}

/// The castling right a letter of the castling field grants.
pub open spec fn castle_letter_bit(c: u8) -> u8 {
    if c == 75 { 1 } else if c == 81 { 2 } else if c == 107 { 4 } else if c == 113 { 8 } else { 0 }
}

/// The rights granted by the first `n` letters of a castling field.
pub open spec fn castle_letters(c: Seq<u8>, n: int) -> u8
    decreases n,
{
    if n <= 0 { 0 } else { castle_letters(c, n - 1) | castle_letter_bit(c[n - 1]) }
}

/// The position FEN text describes; `-` grants no castling right.
pub open spec fn fen_board(s: Seq<u8>) -> BoardView {
    BoardView {
        pieces: fen_pieces(s).unwrap(),
        castling: if field(s, 2) =~= seq![45u8] { 0 } else { castle_letters(field(s, 2), field(s, 2).len() as int) },
        side: if field(s, 1) =~= seq![119u8] { Color::White } else { Color::Black },
        en_passant: ep_field_square(field(s, 3)),
    }
}

/// The en passant square of accepted FEN text is the square the field
/// names: its file letter is `a` plus the square's file and its rank digit
/// `1` plus the square's rank; a `-` field gives no square.
pub proof fn lemma_fen_en_passant_names_square(s: Seq<u8>)
    requires
        fen_ok(s),
    ensures
        field(s, 3) =~= seq![45u8] ==> fen_board(s).en_passant is None,
        !(field(s, 3) =~= seq![45u8]) ==> (fen_board(s).en_passant matches Some(sq) && sq < 64 && field(s, 3)[0] == 97
            + sq % 8 && field(s, 3)[1] == 49 + sq / 8),
{
}

fn skip_space_exec(b: &[u8], i: usize) -> (r: usize)
    requires
        i <= b@.len(),
    ensures
        r == skip_space(b@, i as int),
        i <= r <= b@.len(),
{
    let mut j = i;
    while j < b.len() && (b[j] == 32 || (9 <= b[j] && b[j] <= 13))
        invariant
            i <= j <= b@.len(),
            skip_space(b@, i as int) == skip_space(b@, j as int),
        decreases b@.len() - j,
    {
        j += 1;
    }
    j
}

fn skip_word_exec(b: &[u8], i: usize) -> (r: usize)
    requires
        i <= b@.len(),
    ensures
        r == skip_word(b@, i as int),
        i <= r <= b@.len(),
{
    let mut j = i;
    while j < b.len() && !(b[j] == 32 || (9 <= b[j] && b[j] <= 13))
        invariant
            i <= j <= b@.len(),
            skip_word(b@, i as int) == skip_word(b@, j as int),
        decreases b@.len() - j,
    {
        j += 1;
    }
    j
}

/// Whether bytes `a..e` of `b` are exactly the one byte `c`.
fn field_is(b: &[u8], a: usize, e: usize, c: u8) -> (r: bool)
    requires
        a <= e <= b@.len(),
    ensures
        r == (b@.subrange(a as int, e as int) =~= seq![c]),
{
    if e - a == 1 {
        let r = b[a] == c;
        assert(r ==> b@.subrange(a as int, e as int) =~= seq![c]);
        assert(b@.subrange(a as int, e as int) =~= seq![c] ==> b@.subrange(a as int, e as int)[0] == c);
        r
    } else {
        assert(b@.subrange(a as int, e as int).len() != 1);
        false
    }
}

impl Board {
    /// Parses FEN text: `None` exactly when it is not `fen_ok`; otherwise
    /// the well-formed position `fen_board` describes.
    pub fn parse_fen(fen: &str) -> (r: Option<Board>)
        ensures
            r is Some <==> fen_ok(fen.spec_bytes()),
            r matches Some(b) ==> b.wf() && b@ == fen_board(fen.spec_bytes()),
    {
        let b = fen.as_bytes();
        let ghost s = fen.spec_bytes();
        assert(b@ == s);
        let a0 = skip_space_exec(b, 0);
        let e0 = skip_word_exec(b, a0);
        let a1 = skip_space_exec(b, e0);
        let e1 = skip_word_exec(b, a1);
        let a2 = skip_space_exec(b, e1);
        let e2 = skip_word_exec(b, a2);
        let a3 = skip_space_exec(b, e2);
        let e3 = skip_word_exec(b, a3);
        assert(a0 == field_start(s, 0));
        assert(a1 == field_start(s, 1));
        assert(a2 == field_start(s, 2));
        assert(a3 == field_start(s, 3));
        if a3 >= b.len() {
            return None;
        }
        if e0 - a0 > 0x400_0000 {
            return None;
        }
        let ghost p = field(s, 0);
        assert(p =~= b@.subrange(a0 as int, e0 as int));
        assert(field(s, 1) =~= b@.subrange(a1 as int, e1 as int));
        assert(field(s, 2) =~= b@.subrange(a2 as int, e2 as int));
        assert(field(s, 3) =~= b@.subrange(a3 as int, e3 as int));
        // The piece field.
        let mut board = Board::new();
        let mut rank: i32 = 7;
        let mut file: i32 = 0;
        let mut i: usize = a0;
        let ghost empty = empty_squares();
        assert(board@.pieces =~= empty);
        while i < e0
            invariant
                a0 <= i <= e0 <= b@.len(),
                e0 - a0 <= 0x400_0000,
                p == b@.subrange(a0 as int, e0 as int),
                p == field(s, 0),
                s == fen.spec_bytes(),
                empty == empty_squares(),
                board.wf(),
                board@.side == Color::White,
                board@.castling == 15,
                board@.en_passant is None,
                -0x400_0000 <= rank <= 7,
                rank >= 7 - (i - a0),
                0 <= file <= 8 * (i - a0),
                place_rows(p, 0, 7, 0, empty) == place_rows(p, i - a0, rank as int, file as int, board@.pieces),
            decreases e0 - i,
        {
            let c = b[i];
            assert(p[i - a0] == c);
            let ghost old_pieces = board@.pieces;
            if c == 47 {
                rank = rank - 1;
                file = 0;
            } else if 49 <= c && c <= 56 {
                file = file + (c - 48) as i32;
            } else {
                match Piece::from_char(c as char) {
                    Some(pc) => {
                        let sq = rank * 8 + file;
                        proof {
                            board.lemma_cells();
                        }
                        if 0 <= sq && sq < 64 && board.piece_on(sq as usize) == 0 {
                            board.add_piece(pc, sq as usize);
                            file = file + 1;
                        } else {
                            assert(place_rows(p, i - a0, rank as int, file as int, old_pieces) is None);
                            return None;
                        }
                    },
                    None => {
                        assert(place_rows(p, i - a0, rank as int, file as int, old_pieces) is None);
                        return None;
                    },
                }
            }
            i += 1;
        }
        assert(place_rows(p, i - a0, rank as int, file as int, board@.pieces) == Some(board@.pieces));
        let ghost placed = board@.pieces;
        assert(fen_pieces(s) == Some(placed));
        // Side to move.
        let side = if field_is(b, a1, e1, 119) {
            Color::White
        } else if field_is(b, a1, e1, 98) {
            Color::Black
        } else {
            return None;
        };
        // Castling: validated, each letter adding its right.
        board.castling = CastlingRights::none();
        proof {
            reveal(Board::wf);
        }
        if !field_is(b, a2, e2, 45) {
            let mut k = a2;
            while k < e2
                invariant
                    a2 <= k <= e2 <= b@.len(),
                    b@ == s,
                    s == fen.spec_bytes(),
                    !(field(s, 2) =~= seq![45u8]),
                    board@.pieces == placed,
                    field(s, 2) == b@.subrange(a2 as int, e2 as int),
                    board.wf(),
                    board@.castling == castle_letters(field(s, 2), k - a2),
                    board@.side == Color::White,
                    board@.en_passant is None,
                    forall|j: int| a2 <= j < k ==> (#[trigger] b@[j] == 75 || b@[j] == 81 || b@[j] == 107 || b@[j] == 113),
                decreases e2 - k,
            {
                let c = b[k];
                let m: u8 = if c == 75 {
                    WK
                } else if c == 81 {
                    WQ
                } else if c == 107 {
                    BK
                } else if c == 113 {
                    BQ
                } else {
                    assert(!castling_field_ok(field(s, 2))) by {
                        assert(field(s, 2)[k - a2] == c);
                    }
                    return None;
                };
                assert(field(s, 2)[k - a2] == c);
                assert(castle_letter_bit(c) == m);
                board.castling.add(m);
                proof {
                    reveal(Board::wf);
                }
                k += 1;
            }
            assert(castling_field_ok(field(s, 2))) by {
                assert forall|j: int| 0 <= j < field(s, 2).len() implies (#[trigger] field(s, 2)[j] == 75 || field(s, 2)[j] == 81
                    || field(s, 2)[j] == 107 || field(s, 2)[j] == 113) by {
                    assert(field(s, 2)[j] == b@[a2 + j]);
                }
            }
        }
        // En passant.
        let ep: Option<u8> = if field_is(b, a3, e3, 45) {
            None
        } else if e3 - a3 >= 2 && 97 <= b[a3] && b[a3] <= 104 && 49 <= b[a3 + 1] && b[a3 + 1] <= 56 {
            assert(field(s, 3)[0] == b@[a3 as int] && field(s, 3)[1] == b@[a3 + 1]);
            Some((b[a3 + 1] - 49) * 8 + (b[a3] - 97))
        } else {
            assert(!ep_field_ok(field(s, 3))) by {
                if field(s, 3).len() >= 2 {
                    assert(field(s, 3)[0] == b@[a3 as int] && field(s, 3)[1] == b@[a3 + 1]);
                }
            }
            return None;
        };
        board.side_to_move = side;
        board.en_passant = ep;
        proof {
            reveal(Board::wf);
        }
        Some(board)
    }

    /// Loads the position of valid FEN text.
    pub fn load_fen(fen: &str) -> (r: Self)
        requires
            fen_ok(fen.spec_bytes()),
        ensures
            r.wf(),
            r@ == fen_board(fen.spec_bytes()),
    {
        match Board::parse_fen(fen) {
            Some(b) => b,
            None => Board::new(),
        }
    }
}

impl Board {
    /// Passes the move to the other side and clears the en passant square;
    /// returns the en passant square it had.
    pub fn make_null_move(&mut self) -> (r: Option<u8>)
        requires
            old(self).wf(),
        ensures
            final(self).wf(),
            r == old(self)@.en_passant,
            final(self)@ == (BoardView { side: old(self)@.side.spec_opponent(), en_passant: None, ..old(self)@ }),
    {
        proof {
            reveal(Board::wf);
        }
        let old_epsq = self.en_passant;
        self.side_to_move = self.side_to_move.opponent();
        self.en_passant = None;
        old_epsq
    }

    /// Takes a null move back: the side to move flips back and the en
    /// passant square is restored.
    pub fn unmake_null_move(&mut self, old_epsq: Option<u8>)
        requires
            old(self).wf(),
            old_epsq matches Some(e) ==> e < 64,
        ensures
            final(self).wf(),
            final(self)@ == (BoardView { side: old(self)@.side.spec_opponent(), en_passant: old_epsq, ..old(self)@ }),
    {
        proof {
            reveal(Board::wf);
        }
        self.side_to_move = self.side_to_move.opponent();
        self.en_passant = old_epsq;
    }
}


/// A null move taken back with the en passant square it returned gives
/// the position back: `unmake_null_move` undoes `make_null_move`.
pub proof fn lemma_null_move_roundtrip(v: BoardView)
    ensures
        ({
            let after = BoardView { side: v.side.spec_opponent(), en_passant: None, ..v };
            BoardView { side: after.side.spec_opponent(), en_passant: v.en_passant, ..after } == v
        }),
{
}

} // verus!
