//! Board squares, numbered 0 (a1) to 63 (h8), rank by rank.
use vstd::prelude::*;
use crate::text::push_char;
use vstd::string::StringSliceAdditionalSpecFns;

verus! {

/// A square index; `rank * 8 + file` for squares on the board.
#[derive(Copy, Clone, Debug, PartialEq, Eq, Structural)]
pub struct Square(pub usize);

/// The square at `rank` and `file`.
pub open spec fn square_at(rank: int, file: int) -> int {
    rank * 8 + file
}

impl Square {
    pub fn new(index: usize) -> (r: Self)
        ensures
            r.0 == index,
    {
        Square(index)
    }

    pub fn index(self) -> (r: usize)
        ensures
            r == self.0,
    {
        self.0
    }

    /// Rank (0 to 7 on the board).
    pub fn rank(self) -> (r: usize)
        ensures
            r == self.0 / 8,
    {
        self.0 / 8
    }

    /// File (0 to 7).
    pub fn file(self) -> (r: usize)
        ensures
            r == self.0 % 8,
    {
        self.0 % 8
    }

    /// The square at `rank` and `file`.
    pub fn from_rf(rank: usize, file: usize) -> (r: Self)
        requires
            square_at(rank as int, file as int) <= usize::MAX,
        ensures
            r.0 == square_at(rank as int, file as int),
    {
        Square(rank * 8 + file)
    }

    /// The coordinate text, file letter then rank digit, such as `e4`.
    pub fn to_coord(self) -> (r: String)
        requires
            self.0 / 8 <= 206,
        ensures
            r@ == seq![(97 + self.0 % 8) as char, (49 + self.0 / 8) as char],
    {
        let file = 97u8 + (self.file() as u8);
        let rank = 49u8 + (self.rank() as u8);
        let mut s = String::new();
        push_char(&mut s, file as char);
        push_char(&mut s, rank as char);
        s
    }

    /// Parses a coordinate such as `e4`; `None` unless the text is a file
    /// letter `a`..`h` followed by a rank digit `1`..`8`.
    pub fn from_str(s: &str) -> (r: Option<Self>)
        ensures
            r == (if s.spec_bytes().len() == 2 && 97 <= s.spec_bytes()[0] < 105 && 49
                <= s.spec_bytes()[1] < 57 {
                Some(Square(((s.spec_bytes()[1] - 49) * 8 + (s.spec_bytes()[0] - 97)) as usize))
            } else {
                None::<Square>
            }),
    {
        if s.len() != 2 {
            return None;
        }
        let bytes = s.as_bytes();
        let file = bytes[0].wrapping_sub(97u8) as usize;
        let rank = bytes[1].wrapping_sub(49u8) as usize;
        if file < 8 && rank < 8 {
            Some(Square::from_rf(rank, file))
        } else {
            None
        }
    }

    /// The square `dr` ranks and `df` files away; `None` when that leaves the board.
    pub fn offset(self, dr: i32, df: i32) -> (r: Option<Square>)
        requires
            self.0 / 8 + dr <= i32::MAX,
            self.0 / 8 + dr >= i32::MIN,
            self.0 % 8 + df <= i32::MAX,
            self.0 % 8 + df >= i32::MIN,
            self.0 / 8 <= i32::MAX,
        ensures
            r == (if 0 <= self.0 / 8 + dr < 8 && 0 <= self.0 % 8 + df < 8 {
                Some(Square(square_at(self.0 / 8 + dr, self.0 % 8 + df) as usize))
            } else {
                None::<Square>
            }),
    {
        let r = self.rank() as i32 + dr;
        let f = self.file() as i32 + df;
        if 0 <= r && r < 8 && 0 <= f && f < 8 {
            Some(Square::from_rf(r as usize, f as usize))
        } else {
            None
        }
    }
}

} // verus!
