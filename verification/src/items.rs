//! Pieces, moves and their encodings, castling rights, colours, and the
//! small fixed-capacity stacks the engine keeps.
use vstd::prelude::*;
use crate::consts::{WHITE, BLACK, WK, WQ, BK, BQ};

verus! {

/// A piece code: type in bits 0-2 (1 pawn .. 6 king), colour in bits 3-4
/// (8 white, 16 black); 0 is an empty square.
pub type PieceInfo = u8;
/// A move flag code, four bits.
pub type FlagInfo = u8;

/// The colour bits of a piece code.
pub open spec fn color_bits(p: u8) -> u8 {
    p & 24u8
}

/// The type bits of a piece code.
pub open spec fn type_bits(p: u8) -> u8 {
    p & 7u8
}

/// The code of the piece with table index `idx` (0..5 white pawn..king, 6..11 black).
pub open spec fn piece_code(idx: int) -> u8 {
    ((if idx < 6 { 8int } else { 16int }) + idx % 6 + 1) as u8
}

/// The table index of a piece code.
pub open spec fn piece_index(p: u8) -> int {
    (p & 7u8) - 1 + (if p & 16u8 != 0 { 6int } else { 0int })
}

/// A code for one of the twelve pieces.
pub open spec fn is_piece(p: u8) -> bool {
    (9 <= p <= 14) || (17 <= p <= 22)
}

/// Piece codes and the operations on them.
pub struct Piece;

impl Piece {
    pub const NONE: PieceInfo = 0;
    pub const PAWN: PieceInfo = 1;
    pub const KNIGHT: PieceInfo = 2;
    pub const BISHOP: PieceInfo = 3;
    pub const ROOK: PieceInfo = 4;
    pub const QUEEN: PieceInfo = 5;
    pub const KING: PieceInfo = 6;
    pub const WHITE: PieceInfo = 8;
    pub const BLACK: PieceInfo = 16;

    pub fn get_type(p: PieceInfo) -> (r: u8)
        ensures
            r == type_bits(p),
            r < 8,
    {
        proof {
            crate::bits::lemma_byte_facts(p);
        }
        p & 7
    }

    pub fn get_color(p: PieceInfo) -> (r: u8)
        ensures
            r == color_bits(p),
    {
        p & 24
    }

    /// `WHITE` (0) for a white piece, `BLACK` (1) for anything else.
    pub fn get_color_idx(p: PieceInfo) -> (r: usize)
        ensures
            r == (if color_bits(p) == 8 { WHITE } else { BLACK }),
    {
        if p & 24 == Piece::WHITE {
            WHITE
        } else {
            BLACK
        }
    }

    /// The piece with table index `idx`: 0..5 white pawn to king, 6..11 black.
    pub fn from_idx(idx: usize) -> (r: PieceInfo)
        ensures
            r == piece_code(idx as int),
    {
        let color: u8 = if idx < 6 {
            8
        } else {
            16
        };
        let piece_type: u8 = (idx % 6) as u8 + 1;
        proof {
            lemma_or_is_add(color, piece_type);
        }
        color | piece_type
    }

    /// The table index of a piece: white pawn..king 0..5, black 6..11.
    pub fn to_idx(p: PieceInfo) -> (r: usize)
        requires
            p & 7u8 != 0,
        ensures
            r == piece_index(p),
    {
        let type_idx = (p & 7) as usize - 1;
        let color_idx: usize = if (p & 16) != 0 {
            6
        } else {
            0
        };
        type_idx + color_idx
    }

    /// The other colour's bits.
    pub fn enemy(color: PieceInfo) -> (r: PieceInfo)
        requires
            color == color & 24u8,
        ensures
            r == color ^ 24u8,
            color == 8 ==> r == 16,
            color == 16 ==> r == 8,
    {
        proof {
            crate::bits::lemma_byte_facts(0);
        }
        color ^ 24
    }

    /// The letter of a piece: upper case for white, lower case for black,
    /// a space for an empty or unknown code.
    pub fn to_char(p: PieceInfo) -> (r: char)
        ensures
            r == piece_char(p),
    {
        let t = p & 7;
        let black = p & 24 == Self::BLACK;
        if t == Self::PAWN {
            if black { 'p' } else { 'P' }
        } else if t == Self::KNIGHT {
            if black { 'n' } else { 'N' }
        } else if t == Self::BISHOP {
            if black { 'b' } else { 'B' }
        } else if t == Self::ROOK {
            if black { 'r' } else { 'R' }
        } else if t == Self::QUEEN {
            if black { 'q' } else { 'Q' }
        } else if t == Self::KING {
            if black { 'k' } else { 'K' }
        } else {
            ' '
        }
    }

    /// The piece a FEN letter names; `None` for any other character.
    pub fn from_char(c: char) -> (r: Option<PieceInfo>)
        ensures
            r == piece_of_char(c),
    {
        match c {
            'P' => Some(9),
            'N' => Some(10),
            'B' => Some(11),
            'R' => Some(12),
            'Q' => Some(13),
            'K' => Some(14),
            'p' => Some(17),
            'n' => Some(18),
            'b' => Some(19),
            'r' => Some(20),
            'q' => Some(21),
            'k' => Some(22),
            _ => None,
        }
    }

    /// The chess glyph of a piece, a space for anything else.
    pub fn to_glyph(p: PieceInfo) -> (r: &'static str)
        ensures
            r@ == glyph_of(p),
    {
        match p {
            9 => "♟",
            10 => "♞",
            11 => "♝",
            12 => "♜",
            13 => "♛",
            14 => "♚",
            17 => "♙",
            18 => "♘",
            19 => "♗",
            20 => "♖",
            21 => "♕",
            22 => "♔",
            _ => " ",
        }
    }
}

/// The glyph text of a piece code.
pub open spec fn glyph_of(p: u8) -> Seq<char> {
    if p == 9 { "♟"@ }
    else if p == 10 { "♞"@ }
    else if p == 11 { "♝"@ }
    else if p == 12 { "♜"@ }
    else if p == 13 { "♛"@ }
    else if p == 14 { "♚"@ }
    else if p == 17 { "♙"@ }
    else if p == 18 { "♘"@ }
    else if p == 19 { "♗"@ }
    else if p == 20 { "♖"@ }
    else if p == 21 { "♕"@ }
    else if p == 22 { "♔"@ }
    else { " "@ }
}

/// The upper-case letter of a piece type, a space when there is none.
pub open spec fn type_letter(t: u8) -> char {
    if t == 1 { 'P' }
    else if t == 2 { 'N' }
    else if t == 3 { 'B' }
    else if t == 4 { 'R' }
    else if t == 5 { 'Q' }
    else if t == 6 { 'K' }
    else { ' ' }
}

/// The lower-case form of an ASCII capital letter.
pub open spec fn lower_spec(c: char) -> char {
    if c == 'P' { 'p' }
    else if c == 'N' { 'n' }
    else if c == 'B' { 'b' }
    else if c == 'R' { 'r' }
    else if c == 'Q' { 'q' }
    else if c == 'K' { 'k' }
    else { c }
}

pub open spec fn piece_char(p: u8) -> char {
    let t = type_letter(p & 7u8);
    if t == ' ' { ' ' }
    else if p & 24u8 == 16 { lower_spec(t) }
    else { t }
}

pub open spec fn piece_of_char(c: char) -> Option<u8> {
    if c == 'P' { Some(9u8) }
    else if c == 'N' { Some(10u8) }
    else if c == 'B' { Some(11u8) }
    else if c == 'R' { Some(12u8) }
    else if c == 'Q' { Some(13u8) }
    else if c == 'K' { Some(14u8) }
    else if c == 'p' { Some(17u8) }
    else if c == 'n' { Some(18u8) }
    else if c == 'b' { Some(19u8) }
    else if c == 'r' { Some(20u8) }
    else if c == 'q' { Some(21u8) }
    else if c == 'k' { Some(22u8) }
    else { None }
}

pub proof fn lemma_or_is_add(color: u8, t: u8)
    requires
        color == 8 || color == 16,
        t < 8,
    ensures
        color | t == color + t,
{
    assert((color == 8u8 || color == 16u8) && t < 8u8 ==> color | t == color + t) by (bit_vector);
}

/// Four-bit move flag: bit 3 capture, bit 2 promotion, bits 0-1 the
/// promotion piece or the special move.
#[derive(Debug, Clone, Copy, PartialEq, Eq, Structural)]
pub struct MoveFlag(pub FlagInfo);

impl MoveFlag {
    pub const QUIET: FlagInfo = 0;
    pub const DOUBLE_PUSH: FlagInfo = 1;
    pub const KING_CASTLE: FlagInfo = 2;
    pub const QUEEN_CASTLE: FlagInfo = 3;
    pub const CAPTURE: FlagInfo = 8;
    pub const EN_PASSANT: FlagInfo = 10;
    pub const CAPTURE_BIT: FlagInfo = 8;
    pub const PROMO_BIT: FlagInfo = 4;
    pub const PIECE_BIT: FlagInfo = 3;
    pub const KNIGHT: FlagInfo = 0;
    pub const BISHOP: FlagInfo = 1;
    pub const ROOK: FlagInfo = 2;
    pub const QUEEN: FlagInfo = 3;
    pub const PROMO_KNIGHT: FlagInfo = 4;
    pub const PROMO_BISHOP: FlagInfo = 5;
    pub const PROMO_ROOK: FlagInfo = 6;
    pub const PROMO_QUEEN: FlagInfo = 7;
    pub const PROMO_CAP_KNIGHT: FlagInfo = 12;
    pub const PROMO_CAP_BISHOP: FlagInfo = 13;
    pub const PROMO_CAP_ROOK: FlagInfo = 14;
    pub const PROMO_CAP_QUEEN: FlagInfo = 15;

    pub open spec fn spec_is_capture(self) -> bool {
        self.0 & 8u8 != 0
    }

    pub open spec fn spec_is_promo(self) -> bool {
        self.0 & 4u8 != 0
    }

    pub open spec fn spec_is_castle(self) -> bool {
        self.0 & 14u8 == 2
    }

    pub fn is_capture(self) -> (r: bool)
        ensures
            r == self.spec_is_capture(),
    {
        (self.0 & Self::CAPTURE_BIT) != 0
    }

    pub fn is_promo(self) -> (r: bool)
        ensures
            r == self.spec_is_promo(),
    {
        (self.0 & Self::PROMO_BIT) != 0
    }

    /// Kingside or queenside castling (flags 2 and 3).
    pub fn is_castle(self) -> (r: bool)
        ensures
            r == self.spec_is_castle(),
    {
        self.0 & 14 == 2
    }

    /// The promotion piece, as a bare type code: knight, bishop, rook or queen.
    pub fn get_promo_piece(self) -> (r: PieceInfo)
        ensures
            r == ((self.0 & 3u8) + 2) as u8,
            2 <= r <= 5,
            r & 7u8 != 0,
            r & 7u8 == r,
            r & 16u8 == 0,
    {
        let f = self.0;
        let b = f & Self::PIECE_BIT;
        assert(b <= 3 && (b + 2) as u8 & 7u8 != 0 && (b + 2) as u8 & 7u8 == (b + 2) as u8 && (b + 2) as u8 & 16u8 == 0) by (bit_vector)
            requires
                b == f & 3u8,
        ;
        b + 2
    }

    /// Neither a capture nor a promotion.
    pub fn is_quiet(self) -> (r: bool)
        ensures
            r == (!self.spec_is_capture() && !self.spec_is_promo()),
    {
        let f = self.0;
        proof {
            crate::bits::lemma_byte_facts(f);
        }
        (f & 12) == 0
    }
}

/// The four flag values, read as a number, for which `is_castle` holds.
pub proof fn lemma_castle_flags(f: u8)
    requires
        f < 16,
    ensures
        (f & 14u8 == 2) <==> (f == 2 || f == 3),
        (f & 8u8 != 0) <==> f >= 8,
        (f & 4u8 != 0) <==> (4 <= f < 8 || f >= 12),
{
    crate::bits::lemma_byte_facts(f);
}

/// A move in sixteen bits: origin in bits 0-5, target in bits 6-11, flag in bits 12-15.
#[derive(Debug, Clone, Copy, PartialEq, Eq, Structural)]
pub struct Move(pub u16);

/// The code of the move from `from` to `to` with flag `flag`.
pub open spec fn move_code(from: int, to: int, flag: int) -> u16 {
    (from + to * 64 + flag * 4096) as u16
}

impl Move {
    /// The empty move, code 0.
    pub fn null() -> (r: Move)
        ensures
            r.0 == 0,
    {
        Move(0)
    }

    pub open spec fn spec_from(self) -> int {
        (self.0 & 0x3Fu16) as int
    }

    pub open spec fn spec_to(self) -> int {
        ((self.0 >> 6u16) & 0x3Fu16) as int
    }

    pub open spec fn spec_flag(self) -> u8 {
        ((self.0 >> 12u16) & 0xFu16) as u8
    }

    /// Packs origin, target and flag; for squares under 64 and a four-bit
    /// flag the fields read back unchanged.
    pub fn new(from: usize, to: usize, flag: MoveFlag) -> (r: Self)
        ensures
            r.0 == ((from as u16) | ((to as u16) << 6u16) | ((flag.0 as u16) << 12u16)),
            from < 64 && to < 64 && flag.0 < 16 ==> r.0 == move_code(from as int, to as int, flag.0 as int),
    {
        let m = (from as u16) | ((to as u16) << 6) | ((flag.0 as u16) << 12);
        proof {
            let f = from as u16;
            let t = to as u16;
            let g = flag.0 as u16;
            if from < 64 && to < 64 && flag.0 < 16 {
                assert(f < 64 && t < 64 && g < 16 ==> f | (t << 6u16) | (g << 12u16) == f + t * 64 + g * 4096)
                    by (bit_vector);
            }
        }
        Move(m)
    }

    pub fn from(self) -> (r: usize)
        ensures
            r == self.spec_from(),
            r < 64,
    {
        proof {
            lemma_move_bounds(self);
        }
        (self.0 & 0x3F) as usize
    }

    pub fn to(self) -> (r: usize)
        ensures
            r == self.spec_to(),
            r < 64,
    {
        proof {
            lemma_move_bounds(self);
        }
        ((self.0 >> 6) & 0x3F) as usize
    }

    pub fn flag(self) -> (r: MoveFlag)
        ensures
            r.0 == self.spec_flag(),
            r.0 < 16,
    {
        proof {
            lemma_move_bounds(self);
        }
        MoveFlag(((self.0 >> 12) & 0xF) as FlagInfo)
    }

    /// Long algebraic text: origin, target, and the promotion letter if any.
    pub fn to_coord(&self) -> (r: String)
        ensures
            r@ == move_text(*self),
    {
        let from = self.from();
        let to = self.to();
        let flag = self.flag();
        let mut coord = String::new();
        crate::text::push_char(&mut coord, (97u8 + (from % 8) as u8) as char);
        crate::text::push_char(&mut coord, (49u8 + (from / 8) as u8) as char);
        crate::text::push_char(&mut coord, (97u8 + (to % 8) as u8) as char);
        crate::text::push_char(&mut coord, (49u8 + (to / 8) as u8) as char);
        if flag.is_promo() {
            let p = flag.0 & Self::piece_bits();
            let c = if p == 0 {
                'n'
            } else if p == 1 {
                'b'
            } else if p == 2 {
                'r'
            } else {
                'q'
            };
            crate::text::push_char(&mut coord, c);
        }
        coord
    }

    fn piece_bits() -> (r: u8)
        ensures
            r == 3,
    {
        3
    }
}

/// The letter of a promotion piece, from the flag's low two bits.
pub open spec fn promo_letter(bits: u8) -> char {
    if bits == 0 { 'n' } else if bits == 1 { 'b' } else if bits == 2 { 'r' } else { 'q' }
}

/// The text of a square, such as `e4`.
pub open spec fn square_text(sq: int) -> Seq<char> {
    seq![(97 + sq % 8) as char, (49 + sq / 8) as char]
}

/// The long algebraic text of a move.
pub open spec fn move_text(m: Move) -> Seq<char> {
    let base = square_text(m.spec_from()) + square_text(m.spec_to());
    if m.spec_flag() & 4u8 != 0 {
        base.push(promo_letter(m.spec_flag() & 3u8))
    } else {
        base
    }
}

/// The fields of any move code are in range.
pub proof fn lemma_move_bounds(m: Move)
    ensures
        0 <= m.spec_from() < 64,
        0 <= m.spec_to() < 64,
        m.spec_flag() < 16,
{
    let c = m.0;
    assert(c & 0x3Fu16 < 64 && (c >> 6u16) & 0x3Fu16 < 64 && (c >> 12u16) & 0xFu16 < 16) by (bit_vector);
}

/// Encoding a move and reading it back gives its parts unchanged.
pub proof fn lemma_move_roundtrip(from: u16, to: u16, flag: u16)
    requires
        from < 64,
        to < 64,
        flag < 16,
    ensures
        Move(move_code(from as int, to as int, flag as int)).spec_from() == from,
        Move(move_code(from as int, to as int, flag as int)).spec_to() == to,
        Move(move_code(from as int, to as int, flag as int)).spec_flag() == flag,
{
    let m = (from + to * 64 + flag * 4096) as u16;
    assert(from < 64 && to < 64 && flag < 16 && m == from + to * 64 + flag * 4096 ==> m & 0x3Fu16 == from
        && (m >> 6u16) & 0x3Fu16 == to && (m >> 12u16) & 0xFu16 == flag) by (bit_vector);
}

/// What `make_move` returns so that `undo_move` can restore the position.
#[derive(Debug)]
pub struct Undo {
    pub captured: PieceInfo,
    pub prev_en_passant_sq: Option<u8>,
    pub prev_castling_rights: CastlingRights,
    pub prev_last_irreversible: usize,
}

impl Undo {
    pub fn new(captured: PieceInfo, castling: CastlingRights, ensq: Option<u8>, last_irreversible: usize) -> (r: Self)
        ensures
            r.captured == captured,
            r.prev_castling_rights == castling,
            r.prev_en_passant_sq == ensq,
            r.prev_last_irreversible == last_irreversible,
    {
        Self {
            captured,
            prev_en_passant_sq: ensq,
            prev_castling_rights: castling,
            prev_last_irreversible: last_irreversible,
        }
    }
}

/// Side to move.
#[derive(Clone, Copy, PartialEq, Eq, Structural, Debug)]
pub enum Color {
    White,
    Black,
}

impl Color {
    pub open spec fn spec_opponent(self) -> Color {
        match self {
            Color::White => Color::Black,
            Color::Black => Color::White,
        }
    }

    pub open spec fn spec_val(self) -> usize {
        match self {
            Color::White => WHITE,
            Color::Black => BLACK,
        }
    }

    pub fn opponent(&self) -> (r: Self)
        ensures
            r == self.spec_opponent(),
    {
        match self {
            Color::White => Color::Black,
            Color::Black => Color::White,
        }
    }

    /// The colour's index: `WHITE` or `BLACK`.
    pub fn val(&self) -> (r: usize)
        ensures
            r == self.spec_val(),
    {
        match self {
            Color::White => WHITE,
            Color::Black => BLACK,
        }
    }

    /// +1 for White, -1 for Black.
    pub fn fac(&self) -> (r: i32)
        ensures
            r == (if *self == Color::White { 1i32 } else { -1i32 }),
    {
        match self {
            Color::White => 1,
            Color::Black => -1,
        }
    }
}

/// Castling rights as four bits: `WK`, `WQ`, `BK`, `BQ`.
#[derive(Debug, PartialEq, Eq, Clone, Copy, Structural)]
pub struct CastlingRights(pub u8);

impl CastlingRights {
    pub fn new() -> (r: Self)
        ensures
            r.0 == 15,
    {
        proof {
            crate::bits::lemma_byte_facts(0);
        }
        Self(WK | WQ | BK | BQ)
    }

    pub fn none() -> (r: Self)
        ensures
            r.0 == 0,
    {
        Self(0)
    }

    pub fn white_kingside(self) -> (r: bool)
        ensures
            r == (self.0 & 1u8 != 0),
    {
        self.0 & WK != 0
    }

    pub fn white_queenside(self) -> (r: bool)
        ensures
            r == (self.0 & 2u8 != 0),
    {
        self.0 & WQ != 0
    }

    pub fn black_kingside(self) -> (r: bool)
        ensures
            r == (self.0 & 4u8 != 0),
    {
        self.0 & BK != 0
    }

    pub fn black_queenside(self) -> (r: bool)
        ensures
            r == (self.0 & 8u8 != 0),
    {
        self.0 & BQ != 0
    }

    /// Drops the rights in `mask`.
    pub fn remove(&mut self, mask: u8)
        ensures
            final(self).0 == old(self).0 & !mask,
    {
        self.0 = self.0 & !mask;
    }

    /// Grants the rights in `mask`.
    pub fn add(&mut self, mask: u8)
        ensures
            final(self).0 == old(self).0 | mask,
    {
        self.0 = self.0 | mask;
    }
}

/// After removing rights, none of them is held and every other right is as
/// before; after adding, all of them are held and every other right is as before.
pub proof fn lemma_castling_rights(r: u8, mask: u8, bit: u8)
    by (bit_vector)
    requires
        bit == 1 || bit == 2 || bit == 4 || bit == 8,
    ensures
        ((r & !mask) & bit != 0) == (mask & bit == 0 && r & bit != 0),
        ((r | mask) & bit != 0) == (mask & bit != 0 || r & bit != 0),
{
}


/// Most moves a `MoveList` holds.
pub const MAX_MOVES: usize = 256;

/// A list of at most `MAX_MOVES` moves in a fixed array.
pub struct MoveList {
    pub moves: [Move; 256],
    pub len: usize,
}

impl View for MoveList {
    type V = Seq<Move>;

    open spec fn view(&self) -> Seq<Move> {
        self.moves@.subrange(0, self.len as int)
    }
}

impl MoveList {
    /// The length is within the array.
    pub open spec fn wf(&self) -> bool {
        self.len <= MAX_MOVES
    }

    /// An empty list.
    pub fn new() -> (r: Self)
        ensures
            r.wf(),
            r@ == Seq::<Move>::empty(),
    {
        Self { moves: [Move(0); 256], len: 0 }
    }

    /// The move at `idx`.
    pub fn get(&self, idx: usize) -> (r: Move)
        requires
            idx < MAX_MOVES,
        ensures
            r == self.moves@[idx as int],
            self.wf() && idx < self.len ==> r == self@[idx as int],
    {
        self.moves[idx]
    }

    /// Appends `mv`.
    pub fn push(&mut self, mv: Move)
        requires
            old(self).wf(),
            old(self).len < MAX_MOVES,
        ensures
            final(self).wf(),
            final(self)@ == old(self)@.push(mv),
    {
        let ghost before = self@;
        let n = self.len;
        self.moves[n] = mv;
        self.len = n + 1;
        assert(self@ =~= before.push(mv));
    }

    /// How many moves are held.
    pub fn len(&self) -> (r: usize)
        ensures
            r == self.len,
            self.wf() ==> r == self@.len(),
    {
        self.len
    }

    /// The held moves.
    pub fn as_slice(&self) -> (r: &[Move])
        requires
            self.wf(),
        ensures
            r@ == self@,
    {
        let all: &[Move] = vstd::array::array_as_slice(&self.moves);
        vstd::slice::slice_subrange(all, 0, self.len)
    }
}

/// A stack of at most 1024 position keys, the game's history.
pub struct History {
    stack: [u64; 1024],
    len: usize,
}

impl View for History {
    type V = Seq<u64>;

    closed spec fn view(&self) -> Seq<u64> {
        self.stack@.subrange(0, self.len as int)
    }
}

impl History {
    /// The length is within the stack.
    pub closed spec fn wf(&self) -> bool {
        self.len <= 1024
    }

    /// An empty history.
    pub fn new() -> (r: Self)
        ensures
            r.wf(),
            r@ == Seq::<u64>::empty(),
    {
        Self { stack: [0u64; 1024], len: 0 }
    }

    /// How many keys are held.
    pub fn len(&self) -> (r: usize)
        requires
            self.wf(),
        ensures
            r == self@.len(),
    {
        self.len
    }

    /// The key at `idx`, counted from the bottom.
    pub fn get(&self, idx: usize) -> (r: u64)
        requires
            self.wf(),
            idx < self@.len(),
        ensures
            r == self@[idx as int],
    {
        self.stack[idx]
    }

    /// Pushes `key`.
    pub fn push(&mut self, key: u64)
        requires
            old(self).wf(),
            old(self)@.len() < 1024,
        ensures
            final(self).wf(),
            final(self)@ == old(self)@.push(key),
    {
        let ghost before = self@;
        let n = self.len;
        self.stack[n] = key;
        self.len = n + 1;
        assert(self@ =~= before.push(key));
    }

    /// Pops the top key.
    pub fn pop(&mut self) -> (r: u64)
        requires
            old(self).wf(),
            old(self)@.len() > 0,
        ensures
            final(self).wf(),
            r == old(self)@.last(),
            final(self)@ == old(self)@.drop_last(),
    {
        let ghost before = self@;
        self.len = self.len - 1;
        let r = self.stack[self.len];
        assert(self@ =~= before.drop_last());
        r
    }

    /// A push followed by a pop gives back the pushed key and the history
    /// as it was.
    pub proof fn lemma_push_pop(h: Seq<u64>, key: u64)
        ensures
            h.push(key).last() == key,
            h.push(key).drop_last() == h,
    {
        assert(h.push(key).drop_last() =~= h);
    }
}

} // verus!
