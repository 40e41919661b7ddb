//! Board-wide constants: colour indices, castling bits, start squares, ranks.
use vstd::prelude::*;

verus! {

/// Index of White's occupancy and of White in colour-indexed tables.
pub const WHITE: usize = 0;
/// Index of Black's occupancy and of Black in colour-indexed tables.
pub const BLACK: usize = 1;
/// Index of the occupancy of both colours.
pub const BOTH: usize = 2;

/// White may castle kingside.
pub const WK: u8 = 1;
/// White may castle queenside.
pub const WQ: u8 = 2;
/// Black may castle kingside.
pub const BK: u8 = 4;
/// Black may castle queenside.
pub const BQ: u8 = 8;

/// White king's start square, e1.
pub const WK_START_POS: usize = 4;
/// Black king's start square, e8.
pub const BK_START_POS: usize = 60;

pub const RANK1: u64 = 0x0000_0000_0000_00FF;
pub const RANK2: u64 = 0x0000_0000_0000_FF00;
pub const RANK7: u64 = 0x00FF_0000_0000_0000;
pub const RANK8: u64 = 0xFF00_0000_0000_0000;

/// Deepest ply the search tables hold.
pub const MAX_PLY: usize = 128;

/// The score of a mate at the root; mates further away score less.
pub const MATE: i16 = 27000;
/// A score beyond every reachable one.
pub const INF: i16 = 27500;

} // verus!
