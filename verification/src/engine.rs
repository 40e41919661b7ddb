//! The per-thread search tables: quiet-move history, killers, countermoves,
//! continuation history, static-evaluation history, capture history and
//! correction history.
use vstd::prelude::*;
use std::sync::Arc;
use std::sync::atomic::{AtomicBool, Ordering};
use crate::board::{Board, lemma_piece_code};
use crate::consts::MAX_PLY;
use crate::evaluation::{PestoTables, init_pesto_table};
use crate::items::{History, Move, Piece, PieceInfo, is_piece, piece_index};
use crate::network::{EvalBuf, Network};
use crate::tt::TranspositionTable;
use crate::zobrist::{ZobristKeys, init_zobrist};

verus! {

/// Largest magnitude a quiet-move or continuation history entry reaches.
pub const MAX_HISTORY: i32 = 20000;
/// Largest magnitude a capture history entry reaches.
pub const MAX_CAP_HISTORY: i32 = 8192;
/// Entries per colour in the correction history; a power of two.
pub const CORR_HIST_SIZE: usize = 16384;
/// Largest magnitude a correction history entry reaches.
pub const MAX_CORR_HISTORY: i32 = 16384;
/// Fixed-point scale of correction entries.
pub const CORR_GRAIN: i32 = 256;
/// What a correction entry is divided by when read: twice the grain.
pub const CORR_SCALE: i32 = 512;

/// Division that rounds toward zero, as Rust's `/` does.
pub open spec fn tdiv(a: int, m: int) -> int {
    if a >= 0 {
        a / m
    } else {
        -((-a) / m)
    }
}

pub open spec fn abs(x: int) -> int {
    if x < 0 {
        -x
    } else {
        x
    }
}

pub open spec fn clamp(x: int, lo: int, hi: int) -> int {
    if x < lo {
        lo
    } else if x > hi {
        hi
    } else {
        x
    }
}

pub open spec fn fits_i32(x: int) -> bool {
    -0x8000_0000 <= x <= 0x7fff_ffff
}

/// The history "gravity" update: the entry moves toward the bonus, the
/// more slowly the larger it already is.
pub open spec fn gravity(h: int, bonus: int, max: int) -> int {
    h + (bonus - tdiv(h * abs(bonus), max))
}

/// Every intermediate of the gravity update fits in an `i32`.
pub open spec fn gravity_fits(h: int, bonus: int, max: int) -> bool {
    &&& bonus > -0x8000_0000
    &&& fits_i32(h * abs(bonus))
    &&& fits_i32(bonus - tdiv(h * abs(bonus), max))
    &&& fits_i32(gravity(h, bonus, max))
}

/// Computes the gravity update in `i32` arithmetic.
fn gravity_i32(h: i32, bonus: i32, max: i32) -> (r: i32)
    requires
        max > 0,
        gravity_fits(h as int, bonus as int, max as int),
    ensures
        r == gravity(h as int, bonus as int, max as int),
{
    let b = if bonus < 0 {
        -bonus
    } else {
        bonus
    };
    let prod = h * b;
    let step = bonus - prod / max;
    h + step
}

fn clamp_i32(x: i32, lo: i32, hi: i32) -> (r: i32)
    requires
        lo <= hi,
    ensures
        r == clamp(x as int, lo as int, hi as int),
{
    if x < lo {
        lo
    } else if x > hi {
        hi
    } else {
        x
    }
}

/// With a bonus no larger than the bound and an entry within it, the
/// gravity update stays within the bound, clamp or no clamp.
pub proof fn lemma_gravity_bounded(h: int, bonus: int, max: int)
    requires
        max > 0,
        -max <= h <= max,
        -max <= bonus <= max,
    ensures
        -max <= gravity(h, bonus, max) <= max,
{
    let b = abs(bonus);
    assert(0 <= h * b <= max * max || -(max * max) <= h * b < 0) by (nonlinear_arith)
        requires
            -max <= h <= max,
            0 <= b <= max,
    ;
    if h >= 0 {
        let q = (h * b) / max;
        assert(q * max <= h * b < q * max + max) by (nonlinear_arith)
            requires
                q == (h * b) / max,
                max > 0,
                h * b >= 0,
        ;
        assert(q <= b) by (nonlinear_arith)
            requires
                q * max <= h * b,
                h <= max,
                b >= 0,
                max > 0,
        ;
        assert(h * b <= h * max) by (nonlinear_arith)
            requires
                h >= 0,
                b <= max,
        ;
        assert(q <= h) by (nonlinear_arith)
            requires
                q * max <= h * b,
                h * b <= h * max,
                max > 0,
        ;
        assert(max * (h + b - q) < max * max + max) by (nonlinear_arith)
            requires
                h * b < q * max + max,
                0 <= h <= max,
                0 <= b <= max,
                max > 0,
        ;
        assert(h + b - q < max + 1) by (nonlinear_arith)
            requires
                max * (h + b - q) < max * max + max,
                max > 0,
        ;
    } else {
        let q = ((-h) * b) / max;
        assert(q * max <= (-h) * b) by (nonlinear_arith)
            requires
                q == ((-h) * b) / max,
                max > 0,
                (-h) * b >= 0,
        ;
        assert(q <= b) by (nonlinear_arith)
            requires
                q * max <= (-h) * b,
                -h <= max,
                b >= 0,
                max > 0,
        ;
        assert((-h) * b <= (-h) * max) by (nonlinear_arith)
            requires
                h < 0,
                b <= max,
        ;
        assert(q <= -h) by (nonlinear_arith)
            requires
                q * max <= (-h) * b,
                (-h) * b <= (-h) * max,
                max > 0,
        ;
        assert(q >= 0) by (nonlinear_arith)
            requires
                q == ((-h) * b) / max,
                max > 0,
                (-h) * b >= 0,
        ;
        assert(h * b == -((-h) * b)) by (nonlinear_arith);
        assert((-h) * b < q * max + max) by (nonlinear_arith)
            requires
                q == ((-h) * b) / max,
                max > 0,
                (-h) * b >= 0,
        ;
        assert(max * (-h + b - q) < max * max + max) by (nonlinear_arith)
            requires
                (-h) * b < q * max + max,
                0 < -h <= max,
                0 <= b <= max,
                max > 0,
        ;
        assert(-h + b - q < max + 1) by (nonlinear_arith)
            requires
                max * (-h + b - q) < max * max + max,
                max > 0,
        ;
    }
}

/// With the entry and bonus within the bound, no step of the update overflows.
pub proof fn lemma_gravity_fits(h: int, bonus: int, max: int)
    requires
        0 < max <= 20000,
        -max <= h <= max,
        -max <= bonus <= max,
    ensures
        gravity_fits(h, bonus, max),
{
    lemma_gravity_bounded(h, bonus, max);
    let b = abs(bonus);
    assert(-400_000_000 <= h * b <= 400_000_000) by (nonlinear_arith)
        requires
            -max <= h <= max,
            0 <= b <= max,
            max <= 20000,
    ;
    assert(0 <= b <= max);
    if h * b >= 0 {
        assert(h * b <= max * max) by (nonlinear_arith)
            requires
                -max <= h <= max,
                0 <= b <= max,
        ;
        assert((h * b) / max <= max) by (nonlinear_arith)
            requires
                0 <= h * b <= max * max,
                max > 0,
        ;
    } else {
        assert(-(h * b) <= max * max) by (nonlinear_arith)
            requires
                -max <= h <= max,
                0 <= b <= max,
        ;
        assert((-(h * b)) / max <= max) by (nonlinear_arith)
            requires
                0 < -(h * b) <= max * max,
                max > 0,
        ;
    }
}

/// How much a quiet move from `from` to `to` has paid off for side `stm`.
pub struct HistoryTable {
    table: Vec<i32>,
}

pub open spec fn history_index(stm: int, from: int, to: int) -> int {
    stm * 4096 + from * 64 + to
}

impl HistoryTable {
    /// The entry count is fixed and every entry is within `MAX_HISTORY`.
    pub closed spec fn wf(&self) -> bool {
        &&& self.table.len() == 8192
        &&& forall|i: int| 0 <= i < 8192 ==> -MAX_HISTORY <= #[trigger] self.table@[i] <= MAX_HISTORY
    }

    /// The entries, side by side: side, then origin, then target.
    pub closed spec fn entries(&self) -> Seq<i32> {
        self.table@
    }

    /// Every entry of a well-formed table stays within `MAX_HISTORY` either
    /// way, whatever updates it went through.
    pub proof fn lemma_bounds(&self)
        requires
            self.wf(),
        ensures
            self.entries().len() == 8192,
            forall|i: int| 0 <= i < 8192 ==> -MAX_HISTORY <= #[trigger] self.entries()[i] <= MAX_HISTORY,
    {
    }

    /// An all-zero table.
    pub fn new() -> (r: Self)
        ensures
            r.wf(),
            r.entries() == Seq::new(8192, |i: int| 0i32),
    {
        let table = vec![0i32; 8192];
        let r = Self { table };
        assert(r.entries() =~= Seq::new(8192, |i: int| 0i32));
        r
    }

    /// Moves the entry toward `bonus` by the gravity rule and clamps it to
    /// `MAX_HISTORY`; no other entry changes.
    pub fn update(&mut self, stm: usize, from: usize, to: usize, bonus: i32)
        requires
            old(self).wf(),
            stm < 2,
            from < 64,
            to < 64,
            gravity_fits(old(self).entries()[history_index(stm as int, from as int, to as int)] as int, bonus as int, MAX_HISTORY as int),
        ensures
            final(self).wf(),
            final(self).entries() == old(self).entries().update(
                history_index(stm as int, from as int, to as int),
                clamp(gravity(old(self).entries()[history_index(stm as int, from as int, to as int)] as int, bonus as int, MAX_HISTORY as int), -MAX_HISTORY as int, MAX_HISTORY as int) as i32,
            ),
    {
        let idx = stm * 4096 + from * 64 + to;
        let h = self.table[idx];
        let g = gravity_i32(h, bonus, MAX_HISTORY);
        let v = clamp_i32(g, -MAX_HISTORY, MAX_HISTORY);
        self.table.set(idx, v);
    }

    /// The entry for side `stm` moving from `from` to `to`.
    pub fn get(&self, stm: usize, from: usize, to: usize) -> (r: i32)
        requires
            self.wf(),
            stm < 2,
            from < 64,
            to < 64,
        ensures
            r == self.entries()[history_index(stm as int, from as int, to as int)],
            -MAX_HISTORY <= r <= MAX_HISTORY,
    {
        self.table[stm * 4096 + from * 64 + to]
    }
}

/// Two quiet moves per ply that caused a cutoff, most recent first.
pub struct Killers {
    table: Vec<[Move; 2]>,
}

impl Killers {
    pub closed spec fn wf(&self) -> bool {
        self.table.len() == MAX_PLY
    }

    /// The killer pairs, ply by ply.
    pub closed spec fn slots(&self) -> Seq<[Move; 2]> {
        self.table@
    }

    /// Empty killers at every ply.
    pub fn new() -> (r: Self)
        ensures
            r.wf(),
            r.slots().len() == MAX_PLY,
            forall|p: int| 0 <= p < MAX_PLY ==> (#[trigger] r.slots()[p])[0].0 == 0 && r.slots()[p][1].0 == 0,
    {
        let mut table: Vec<[Move; 2]> = Vec::new();
        let mut i: usize = 0;
        while i < MAX_PLY
            invariant
                i <= MAX_PLY,
                table.len() == i,
                forall|p: int| 0 <= p < i ==> (#[trigger] table@[p])[0].0 == 0 && table@[p][1].0 == 0,
            decreases MAX_PLY - i,
        {
            table.push([Move(0), Move(0)]);
            i += 1;
        }
        Self { table }
    }

    /// The killer pair at `ply`.
    pub fn get(&self, ply: i32) -> (r: [Move; 2])
        requires
            self.wf(),
            0 <= ply < MAX_PLY,
        ensures
            r == self.slots()[ply as int],
    {
        self.table[ply as usize]
    }

    /// Makes `mv` the first killer at `ply`, shifting the old first to
    /// second; nothing changes when it is already first.
    pub fn update(&mut self, mv: Move, ply: i32)
        requires
            old(self).wf(),
            0 <= ply < MAX_PLY,
        ensures
            final(self).wf(),
            final(self).slots() == (if old(self).slots()[ply as int][0] == mv {
                old(self).slots()
            } else {
                old(self).slots().update(ply as int, [mv, old(self).slots()[ply as int][0]])
            }),
    {
        let p = ply as usize;
        let pair = self.table[p];
        if pair[0].0 != mv.0 {
            self.table.set(p, [mv, pair[0]]);
        }
    }
}

/// The reply that refuted each previous move, by its origin and target.
pub struct CountermoveTable {
    pub table: Vec<Move>,
}

impl CountermoveTable {
    pub open spec fn wf(&self) -> bool {
        self.table.len() == 4096
    }

    /// All null.
    pub fn new() -> (r: Self)
        ensures
            r.wf(),
            forall|i: int| 0 <= i < 4096 ==> (#[trigger] r.table@[i]).0 == 0,
    {
        let mut table: Vec<Move> = Vec::new();
        let mut i: usize = 0;
        while i < 4096
            invariant
                i <= 4096,
                table.len() == i,
                forall|k: int| 0 <= k < i ==> (#[trigger] table@[k]).0 == 0,
            decreases 4096 - i,
        {
            table.push(Move(0));
            i += 1;
        }
        Self { table }
    }

    /// Records `cur_mv` as the answer to `prev_mv`, unless `prev_mv` is null.
    pub fn update(&mut self, prev_mv: Move, cur_mv: Move)
        requires
            old(self).wf(),
        ensures
            final(self).wf(),
            final(self).table@ == (if prev_mv.0 == 0 {
                old(self).table@
            } else {
                old(self).table@.update(prev_mv.spec_from() * 64 + prev_mv.spec_to(), cur_mv)
            }),
    {
        if prev_mv.0 == 0 {
            return;
        }
        let idx = prev_mv.from() * 64 + prev_mv.to();
        self.table.set(idx, cur_mv);
    }

    /// The answer recorded for `prev_mv`.
    pub fn get(&self, prev_mv: Move) -> (r: Move)
        requires
            self.wf(),
        ensures
            r == self.table@[prev_mv.spec_from() * 64 + prev_mv.spec_to()],
    {
        self.table[prev_mv.from() * 64 + prev_mv.to()]
    }
}

/// The row or column of a move in the continuation table: the piece's
/// table index times 64 plus the target.
pub open spec fn cont_index(piece: u8, to: int) -> int {
    piece_index(piece) * 64 + to
}

/// How well a move did right after another, keyed by the moving pieces
/// and targets of both.
pub struct ContinuationHistory {
    pub table: Vec<i16>,
}

impl ContinuationHistory {
    pub open spec fn wf(&self) -> bool {
        &&& self.table.len() == 768 * 768
        &&& forall|i: int| 0 <= i < 768 * 768 ==> -MAX_HISTORY <= #[trigger] self.table@[i] <= MAX_HISTORY
    }

    /// All zero.
    pub fn new() -> (r: Self)
        ensures
            r.wf(),
            forall|i: int| 0 <= i < 768 * 768 ==> #[trigger] r.table@[i] == 0,
    {
        Self { table: vec![0i16; 589824] }
    }

    /// The entry for `cur_mv` after `prev_mv`, both read from the pieces on
    /// their targets (the position after `cur_mv`); 0 when either is null.
    pub fn get_after_mv(&self, board: &Board, prev_mv: Move, cur_mv: Move) -> (r: i16)
        requires
            self.wf(),
            board.wf(),
            prev_mv.0 != 0 ==> is_piece(board@.pieces[prev_mv.spec_to()]),
            prev_mv.0 != 0 && cur_mv.0 != 0 ==> is_piece(board@.pieces[cur_mv.spec_to()]),
        ensures
            r == (if prev_mv.0 == 0 || cur_mv.0 == 0 {
                0
            } else {
                self.table@[cont_index(board@.pieces[prev_mv.spec_to()], prev_mv.spec_to()) * 768
                    + cont_index(board@.pieces[cur_mv.spec_to()], cur_mv.spec_to())]
            }),
            -MAX_HISTORY <= r <= MAX_HISTORY,
    {
        if prev_mv.0 == 0 || cur_mv.0 == 0 {
            return 0;
        }
        let pp = board.piece_on(prev_mv.to());
        let cp = board.piece_on(cur_mv.to());
        proof {
            lemma_piece_code(pp);
            lemma_piece_code(cp);
        }
        let prev_idx = Piece::to_idx(pp) * 64 + prev_mv.to();
        let cur_idx = Piece::to_idx(cp) * 64 + cur_mv.to();
        self.table[prev_idx * 768 + cur_idx]
    }

    /// The entry for `cur_mv` after `prev_mv` before `cur_mv` is made: the
    /// current piece is read on its origin; 0 when `prev_mv` is null.
    pub fn get(&self, board: &Board, prev_mv: Move, cur_mv: Move) -> (r: i16)
        requires
            self.wf(),
            board.wf(),
            prev_mv.0 != 0 ==> is_piece(board@.pieces[prev_mv.spec_to()]),
            prev_mv.0 != 0 ==> is_piece(board@.pieces[cur_mv.spec_from()]),
        ensures
            r == (if prev_mv.0 == 0 {
                0
            } else {
                self.table@[cont_index(board@.pieces[prev_mv.spec_to()], prev_mv.spec_to()) * 768
                    + cont_index(board@.pieces[cur_mv.spec_from()], cur_mv.spec_to())]
            }),
            -MAX_HISTORY <= r <= MAX_HISTORY,
    {
        if prev_mv.0 == 0 {
            return 0;
        }
        let pp = board.piece_on(prev_mv.to());
        let cp = board.piece_on(cur_mv.from());
        proof {
            lemma_piece_code(pp);
            lemma_piece_code(cp);
        }
        let prev_idx = Piece::to_idx(pp) * 64 + prev_mv.to();
        let cur_idx = Piece::to_idx(cp) * 64 + cur_mv.to();
        self.table[prev_idx * 768 + cur_idx]
    }

    /// Moves the entry `get` reads toward `bonus` by the gravity rule,
    /// clamped to `MAX_HISTORY`; nothing changes when `prev_mv` is null.
    pub fn update(&mut self, board: &Board, prev_mv: Move, cur_mv: Move, bonus: i32)
        requires
            old(self).wf(),
            board.wf(),
            prev_mv.0 != 0 ==> is_piece(board@.pieces[prev_mv.spec_to()]),
            prev_mv.0 != 0 ==> is_piece(board@.pieces[cur_mv.spec_from()]),
            -MAX_HISTORY <= bonus <= MAX_HISTORY,
        ensures
            final(self).wf(),
            final(self).table@ == (if prev_mv.0 == 0 {
                old(self).table@
            } else {
                let i = cont_index(board@.pieces[prev_mv.spec_to()], prev_mv.spec_to()) * 768
                    + cont_index(board@.pieces[cur_mv.spec_from()], cur_mv.spec_to());
                old(self).table@.update(i, clamp(gravity(old(self).table@[i] as int, bonus as int, MAX_HISTORY as int), -MAX_HISTORY as int, MAX_HISTORY as int) as i16)
            }),
    {
        if prev_mv.0 == 0 {
            return;
        }
        let pp = board.piece_on(prev_mv.to());
        let cp = board.piece_on(cur_mv.from());
        proof {
            lemma_piece_code(pp);
            lemma_piece_code(cp);
        }
        let prev_idx = Piece::to_idx(pp) * 64 + prev_mv.to();
        let cur_idx = Piece::to_idx(cp) * 64 + cur_mv.to();
        let i = prev_idx * 768 + cur_idx;
        let cur_val = self.table[i] as i32;
        proof {
            lemma_gravity_fits(cur_val as int, bonus as int, MAX_HISTORY as int);
        }
        let g = gravity_i32(cur_val, bonus, MAX_HISTORY);
        let v = clamp_i32(g, -MAX_HISTORY, MAX_HISTORY);
        self.table.set(i, v as i16);
    }
}

/// The static evaluation and check status at each ply of the current line.
pub struct EvalHistory {
    evals: [i16; 128],
    checks: [bool; 128],
}

impl EvalHistory {
    pub closed spec fn evals(&self) -> Seq<i16> {
        self.evals@
    }

    pub closed spec fn checks(&self) -> Seq<bool> {
        self.checks@
    }

    /// Zero evaluations, no checks.
    pub fn new() -> (r: Self)
        ensures
            r.evals() == Seq::new(128, |i: int| 0i16),
            r.checks() == Seq::new(128, |i: int| false),
    {
        let r = Self { evals: [0i16; 128], checks: [false; 128] };
        assert(r.evals() =~= Seq::new(128, |i: int| 0i16));
        assert(r.checks() =~= Seq::new(128, |i: int| false));
        r
    }

    /// Records the evaluation and check status at `ply`.
    pub fn update(&mut self, score: i16, in_check: bool, ply: usize)
        requires
            ply < MAX_PLY,
        ensures
            final(self).evals() == old(self).evals().update(ply as int, score),
            final(self).checks() == old(self).checks().update(ply as int, in_check),
    {
        self.evals[ply] = score;
        self.checks[ply] = in_check;
    }

    /// Whether `current_eval` beats the evaluation two plies back (four when
    /// the side was in check two plies back and that is not the root); never
    /// when in check, always in the first two plies.
    pub fn is_improving(&self, current_eval: i16, in_check: bool, ply: usize) -> (r: bool)
        requires
            ply < MAX_PLY,
        ensures
            r == (if in_check {
                false
            } else if ply >= 2 {
                let past = if ply >= 4 && self.checks()[ply - 2] { ply - 4 } else { ply - 2 };
                current_eval > self.evals()[past as int]
            } else {
                true
            }),
    {
        if in_check {
            return false;
        }
        if ply >= 2 {
            let mut past_ply = ply - 2;
            if past_ply >= 2 && self.checks[past_ply] {
                past_ply -= 2;
            }
            return current_eval > self.evals[past_ply];
        }
        true
    }

    /// Back to all zero, no checks.
    pub fn clear(&mut self)
        ensures
            final(self).evals() == Seq::new(128, |i: int| 0i16),
            final(self).checks() == Seq::new(128, |i: int| false),
    {
        self.evals = [0i16; 128];
        self.checks = [false; 128];
        assert(self.evals() =~= Seq::new(128, |i: int| 0i16));
        assert(self.checks() =~= Seq::new(128, |i: int| false));
    }
}

/// The index of a capture history entry: attacker, victim type, target.
pub open spec fn capture_index(attacker: u8, victim: u8, to: int) -> int {
    piece_index(attacker) * 384 + (piece_index(victim) % 6) * 64 + to
}

/// How well captures by each piece of each victim type on each square did.
pub struct CaptureHistory {
    table: Vec<i32>,
}

impl CaptureHistory {
    /// The entry count is fixed and every entry is within `MAX_CAP_HISTORY`.
    pub closed spec fn wf(&self) -> bool {
        &&& self.table.len() == 4608
        &&& forall|i: int| 0 <= i < 4608 ==> -MAX_CAP_HISTORY <= #[trigger] self.table@[i] <= MAX_CAP_HISTORY
    }

    pub closed spec fn entries(&self) -> Seq<i32> {
        self.table@
    }

    /// All zero.
    pub fn new() -> (r: Self)
        ensures
            r.wf(),
            r.entries() == Seq::new(4608, |i: int| 0i32),
    {
        let r = Self { table: vec![0i32; 4608] };
        assert(r.entries() =~= Seq::new(4608, |i: int| 0i32));
        r
    }

    /// The entry for `attacker` taking a piece of `victim`'s type on `to`.
    pub fn get(&self, attacker: PieceInfo, victim: PieceInfo, to: usize) -> (r: i32)
        requires
            self.wf(),
            is_piece(attacker),
            is_piece(victim),
            to < 64,
        ensures
            r == self.entries()[capture_index(attacker, victim, to as int)],
            -MAX_CAP_HISTORY <= r <= MAX_CAP_HISTORY,
    {
        proof {
            lemma_piece_code(attacker);
            lemma_piece_code(victim);
        }
        let att_idx = Piece::to_idx(attacker);
        let vic_type_idx = Piece::to_idx(victim) % 6;
        self.table[att_idx * 384 + vic_type_idx * 64 + to]
    }

    /// Moves the entry toward `bonus` by the gravity rule; with a bonus
    /// within `MAX_CAP_HISTORY` the entry stays within it without a clamp.
    pub fn update(&mut self, attacker: PieceInfo, victim: PieceInfo, to: usize, bonus: i32)
        requires
            old(self).wf(),
            is_piece(attacker),
            is_piece(victim),
            to < 64,
            -MAX_CAP_HISTORY <= bonus <= MAX_CAP_HISTORY,
        ensures
            final(self).wf(),
            final(self).entries() == old(self).entries().update(
                capture_index(attacker, victim, to as int),
                gravity(old(self).entries()[capture_index(attacker, victim, to as int)] as int, bonus as int, MAX_CAP_HISTORY as int) as i32,
            ),
    {
        proof {
            lemma_piece_code(attacker);
            lemma_piece_code(victim);
        }
        let att_idx = Piece::to_idx(attacker);
        let vic_type_idx = Piece::to_idx(victim) % 6;
        let i = att_idx * 384 + vic_type_idx * 64 + to;
        let h = self.table[i];
        proof {
            lemma_gravity_fits(h as int, bonus as int, MAX_CAP_HISTORY as int);
            lemma_gravity_bounded(h as int, bonus as int, MAX_CAP_HISTORY as int);
        }
        let v = gravity_i32(h, bonus, MAX_CAP_HISTORY);
        self.table.set(i, v);
    }
}

/// The weight of a new error in the correction average: (depth + 1)^2, at most 128.
pub open spec fn corr_weight(depth: int) -> int {
    if depth * depth + 2 * depth + 1 < 128 {
        depth * depth + 2 * depth + 1
    } else {
        128
    }
}

/// The blended correction entry, before clamping.
pub open spec fn corr_blend(entry: int, err: int, depth: int) -> int {
    tdiv(entry * (1024 - corr_weight(depth)) + err * corr_weight(depth), 1024)
}

/// How far the static evaluation was off, averaged per side and pawn
/// structure, in fixed point.
pub struct CorrectionHistory {
    table: Vec<i32>,
}

pub open spec fn corr_index(stm: int, pawn_key: u64) -> int {
    stm * 16384 + (pawn_key % 16384) as int
}

impl CorrectionHistory {
    /// The entry count is fixed and every entry is within `MAX_CORR_HISTORY`.
    pub closed spec fn wf(&self) -> bool {
        &&& self.table.len() == 2 * CORR_HIST_SIZE
        &&& forall|i: int| 0 <= i < 2 * CORR_HIST_SIZE ==> -MAX_CORR_HISTORY <= #[trigger] self.table@[i] <= MAX_CORR_HISTORY
    }

    pub closed spec fn entries(&self) -> Seq<i32> {
        self.table@
    }

    /// All zero.
    pub fn new() -> (r: Self)
        ensures
            r.wf(),
            r.entries() == Seq::new(32768, |i: int| 0i32),
    {
        let r = Self { table: vec![0i32; 32768] };
        assert(r.entries() =~= Seq::new(32768, |i: int| 0i32));
        r
    }

    /// The correction for side `stm` and this pawn key, in centipawns.
    pub fn get(&self, stm: usize, pawn_key: u64) -> (r: i32)
        requires
            self.wf(),
            stm < 2,
        ensures
            r == tdiv(self.entries()[corr_index(stm as int, pawn_key)] as int, CORR_SCALE as int),
    {
        let idx = (pawn_key % 16384) as usize;
        self.table[stm * 16384 + idx] / CORR_SCALE
    }

    /// Blends `err` into the entry with weight (depth + 1)^2 out of 1024
    /// (at most 128) and clamps it to `MAX_CORR_HISTORY`.
    pub fn update(&mut self, stm: usize, pawn_key: u64, err: i32, depth: i32)
        requires
            old(self).wf(),
            stm < 2,
            -46000 <= depth <= 46000,
            -16_000_000 <= err <= 16_000_000,
        ensures
            final(self).wf(),
            final(self).entries() == old(self).entries().update(
                corr_index(stm as int, pawn_key),
                clamp(corr_blend(old(self).entries()[corr_index(stm as int, pawn_key)] as int, err as int, depth as int),
                    -MAX_CORR_HISTORY as int, MAX_CORR_HISTORY as int) as i32,
            ),
    {
        let idx = stm * 16384 + (pawn_key % 16384) as usize;
        let entry = self.table[idx];
        assert(0 <= depth * depth + 2 * depth + 1 <= 46001 * 46001) by (nonlinear_arith)
            requires
                -46000 <= depth <= 46000,
        ;
        let sq = depth * depth + 2 * depth + 1;
        let weight: i32 = if sq < 128 {
            sq
        } else {
            128
        };
        assert(-16384 * 1024 <= entry * (1024 - weight) <= 16384 * 1024) by (nonlinear_arith)
            requires
                -16384 <= entry <= 16384,
                0 <= weight <= 128,
        ;
        assert(-16_000_000 * 128 <= err * weight <= 16_000_000 * 128) by (nonlinear_arith)
            requires
                -16_000_000 <= err <= 16_000_000,
                0 <= weight <= 128,
        ;
        let interp = (entry * (1024 - weight) + err * weight) / 1024;
        let v = clamp_i32(interp, -MAX_CORR_HISTORY, MAX_CORR_HISTORY);
        self.table.set(idx, v);
    }

    /// Back to all zero.
    pub fn clear(&mut self)
        ensures
            final(self).wf(),
            final(self).entries() == Seq::new(32768, |i: int| 0i32),
    {
        self.table = vec![0i32; 32768];
        assert(self.entries() =~= Seq::new(32768, |i: int| 0i32));
    }
}

/// The accumulators of the current line: per ply, White's 256 values
/// then Black's.
pub struct Accumulators {
    pub table: Vec<i16>,
}

/// The position of value `i` of side `c` (0 White, 1 Black) at `ply`.
pub open spec fn acc_slot(ply: int, c: int, i: int) -> int {
    ply * 512 + c * 256 + i
}

impl Accumulators {
    pub open spec fn wf(&self) -> bool {
        self.table.len() == MAX_PLY * 512
    }

    /// All zero.
    pub fn new() -> (r: Self)
        ensures
            r.wf(),
            forall|i: int| 0 <= i < MAX_PLY * 512 ==> #[trigger] r.table@[i] == 0,
    {
        Accumulators { table: vec![0i16; 65536] }
    }

    /// The two accumulators at `ply`, White's then Black's.
    pub fn get(&self, ply: usize) -> (r: [[i16; 256]; 2])
        requires
            self.wf(),
            ply < MAX_PLY,
        ensures
            forall|c: int, i: int| 0 <= c < 2 && 0 <= i < 256 ==> #[trigger] r[c][i] == self.table@[acc_slot(ply as int, c, i)],
    {
        let mut w = [0i16; 256];
        let mut b = [0i16; 256];
        let mut i: usize = 0;
        while i < 256
            invariant
                i <= 256,
                ply < MAX_PLY,
                self.wf(),
                forall|j: int| 0 <= j < i ==> #[trigger] w[j] == self.table@[acc_slot(ply as int, 0, j)],
                forall|j: int| 0 <= j < i ==> #[trigger] b[j] == self.table@[acc_slot(ply as int, 1, j)],
            decreases 256 - i,
        {
            w[i] = self.table[ply * 512 + i];
            b[i] = self.table[ply * 512 + 256 + i];
            i += 1;
        }
        [w, b]
    }

    /// Stores the two accumulators of `ply`; every other ply is kept.
    pub fn set(&mut self, ply: usize, acc: &[[i16; 256]; 2])
        requires
            old(self).wf(),
            ply < MAX_PLY,
        ensures
            final(self).wf(),
            forall|c: int, i: int| 0 <= c < 2 && 0 <= i < 256 ==> #[trigger] final(self).table@[acc_slot(ply as int, c, i)] == acc[c][i],
            forall|j: int| 0 <= j < MAX_PLY * 512 && !(ply * 512 <= j < ply * 512 + 512) ==> #[trigger] final(self).table@[j]
                == old(self).table@[j],
    {
        let mut i: usize = 0;
        while i < 256
            invariant
                i <= 256,
                ply < MAX_PLY,
                self.wf(),
                forall|j: int| 0 <= j < i ==> #[trigger] self.table@[acc_slot(ply as int, 0, j)] == acc[0][j],
                forall|j: int| 0 <= j < i ==> #[trigger] self.table@[acc_slot(ply as int, 1, j)] == acc[1][j],
                forall|j: int| 0 <= j < MAX_PLY * 512 && !(ply * 512 <= j < ply * 512 + 512) ==> #[trigger] self.table@[j]
                    == old(self).table@[j],
            decreases 256 - i,
        {
            self.table.set(ply * 512 + i, acc[0][i]);
            self.table.set(ply * 512 + 256 + i, acc[1][i]);
            i += 1;
        }
    }
}

/// What all search threads share: the transposition table, the stop flag
/// and the node count.
pub struct SharedState {
    pub tt: TranspositionTable,
    pub abort: Arc<AtomicBool>,
    pub nodes: u64,
}

impl SharedState {
    /// Clears the table, lowers the stop flag and zeroes the node count.
    /// The flag is the same shared handle afterwards; its value, which
    /// other threads may change at any time, is not modelled.
    pub fn reset(&mut self)
        requires
            old(self).tt.wf(),
        ensures
            final(self).tt.wf(),
            final(self).tt.spec_generation() == 0,
            final(self).tt.buckets().len() == old(self).tt.buckets().len(),
            forall|b: int, i: int| 0 <= b < final(self).tt.buckets().len() && 0 <= i < 4 ==> #[trigger] final(self).tt.buckets()[b][i] == (0u64, 0u64),
            final(self).nodes == 0,
            final(self).abort == old(self).abort,
    {
        self.tt.clear();
        self.abort.store(false, Ordering::Relaxed);
        self.nodes = 0;
    }
}

/// Every heuristic table, the killers, the evaluation scratch space, the
/// accumulators and the game history as a new engine has them.
pub open spec fn fresh_tables(e: Engine) -> bool {
    &&& e.history.entries() == Seq::new(8192, |i: int| 0i32)
    &&& forall|i: int| 0 <= i < 768 * 768 ==> #[trigger] e.continuation_history.table@[i] == 0
    &&& forall|i: int| 0 <= i < 4096 ==> (#[trigger] e.counter_moves.table@[i]).0 == 0
    &&& e.eval_history.evals() == Seq::new(128, |i: int| 0i16)
    &&& e.eval_history.checks() == Seq::new(128, |i: int| false)
    &&& e.capture_history.entries() == Seq::new(4608, |i: int| 0i32)
    &&& e.correction_history.entries() == Seq::new(32768, |i: int| 0i32)
    &&& forall|p: int| 0 <= p < MAX_PLY ==> (#[trigger] e.killers.slots()[p])[0].0 == 0 && e.killers.slots()[p][1].0 == 0
    &&& forall|i: int| 0 <= i < 512 ==> #[trigger] e.eval_buf.fc1[i] == 0
    &&& forall|i: int| 0 <= i < 16 ==> #[trigger] e.eval_buf.fc2[i] == 0
    &&& forall|i: int| 0 <= i < 32 ==> #[trigger] e.eval_buf.fc3[i] == 0
    &&& e.eval_buf.fc4[0] == 0
    &&& forall|i: int| 0 <= i < MAX_PLY * 512 ==> #[trigger] e.accumulators.table@[i] == 0
    &&& e.game_history@ == Seq::<u64>::empty()
}

/// One search thread: its board, its heuristic tables and evaluation
/// state, and the state shared with the other threads.
pub struct Engine {
    pub board: Board,
    pub history: HistoryTable,
    pub continuation_history: ContinuationHistory,
    pub counter_moves: CountermoveTable,
    pub eval_history: EvalHistory,
    pub capture_history: CaptureHistory,
    pub correction_history: CorrectionHistory,
    pub killers: Killers,
    pub eval_buf: EvalBuf,
    pub accumulators: Accumulators,
    pub thread_id: u16,
    pub shared: SharedState,
    pub keys: ZobristKeys,
    pub pesto: PestoTables,
    pub game_history: History,
    pub lmr: Vec<i32>,
    pub network: Option<Arc<Network>>,
}

impl Engine {
    /// The tables are all well formed and of their sizes.
    pub open spec fn wf(&self) -> bool {
        &&& self.board.wf()
        &&& self.history.wf()
        &&& self.continuation_history.wf()
        &&& self.counter_moves.wf()
        &&& self.capture_history.wf()
        &&& self.correction_history.wf()
        &&& self.killers.wf()
        &&& self.accumulators.wf()
        &&& self.shared.tt.wf()
        &&& self.keys.drawn()
        &&& self.pesto.wf()
        &&& self.game_history.wf()
        &&& self.lmr.len() == MAX_PLY * 256
        &&& forall|i: int| 0 <= i < MAX_PLY * 256 ==> 0 <= #[trigger] self.lmr@[i] <= 255
        &&& self.network matches Some(n) ==> n.wf()
    }

    /// An engine on the initial position with empty tables and a 16 MB
    /// transposition table.
    pub fn new() -> (r: Self)
        ensures
            r.wf(),
            r.thread_id == 0,
            r.network is None,
            r.board@ == Board::start_pos_view(),
            fresh_tables(r),
            r.shared.nodes == 0,
    {
        Self {
            board: Board::start_pos(),
            history: HistoryTable::new(),
            continuation_history: ContinuationHistory::new(),
            counter_moves: CountermoveTable::new(),
            eval_history: EvalHistory::new(),
            capture_history: CaptureHistory::new(),
            correction_history: CorrectionHistory::new(),
            killers: Killers::new(),
            eval_buf: EvalBuf::new(),
            accumulators: Accumulators::new(),
            thread_id: 0,
            shared: SharedState {
                tt: TranspositionTable::new(16),
                abort: Arc::new(AtomicBool::new(false)),
                nodes: 0,
            },
            keys: init_zobrist(),
            pesto: init_pesto_table(),
            game_history: History::new(),
            lmr: vec![0i32; 32768],
            network: None,
        }
    }

    /// A helper engine for thread `thread_id`: the same position, stop
    /// flag, reduction table and network, fresh tables, and a
    /// transposition table of its own, empty, with a node count of its own:
    /// helpers share the stop flag only, not the table. The table is owned
    /// so that what a search reads from it is what that search stored:
    /// store-then-probe and the table-dependent search results rest on
    /// that, and none of it would hold of a table that other threads write
    /// while the search reads.
    pub fn child(&self, thread_id: u16) -> (r: Self)
        requires
            self.wf(),
        ensures
            r.wf(),
            r.board == self.board,
            r.thread_id == thread_id,
            r.lmr@ == self.lmr@,
            r.network == self.network,
            fresh_tables(r),
            r.shared.abort == self.shared.abort,
            r.shared.nodes == 0,
            r.shared.tt.spec_generation() == 0,
            forall|b: int, i: int| 0 <= b < r.shared.tt.buckets().len() && 0 <= i < 4
                ==> #[trigger] r.shared.tt.buckets()[b][i] == (0u64, 0u64),
    {
        let mut lmr: Vec<i32> = Vec::new();
        let mut i: usize = 0;
        while i < self.lmr.len()
            invariant
                i <= self.lmr.len(),
                self.wf(),
                lmr@ == self.lmr@.subrange(0, i as int),
            decreases self.lmr.len() - i,
        {
            lmr.push(self.lmr[i]);
            assert(lmr@ =~= self.lmr@.subrange(0, i + 1));
            i += 1;
        }
        assert(lmr@ =~= self.lmr@);
        Self {
            board: self.board.clone(),
            history: HistoryTable::new(),
            continuation_history: ContinuationHistory::new(),
            counter_moves: CountermoveTable::new(),
            eval_history: EvalHistory::new(),
            capture_history: CaptureHistory::new(),
            correction_history: CorrectionHistory::new(),
            killers: Killers::new(),
            eval_buf: EvalBuf::new(),
            accumulators: Accumulators::new(),
            thread_id,
            shared: SharedState {
                tt: TranspositionTable::new(16),
                abort: self.shared.abort.clone(),
                nodes: 0,
            },
            keys: init_zobrist(),
            pesto: init_pesto_table(),
            game_history: History::new(),
            lmr,
            network: match &self.network {
                Some(n) => Some(n.clone()),
                None => None,
            },
        }
    }

    /// Back to the initial position with empty tables; the shared table
    /// is cleared, the stop flag (the same shared handle) lowered.
    pub fn reset(&mut self)
        requires
            old(self).wf(),
        ensures
            final(self).wf(),
            final(self).board@ == Board::start_pos_view(),
            fresh_tables(*final(self)),
            final(self).shared.tt.spec_generation() == 0,
            final(self).shared.tt.buckets().len() == old(self).shared.tt.buckets().len(),
            forall|b: int, i: int| 0 <= b < final(self).shared.tt.buckets().len() && 0 <= i < 4
                ==> #[trigger] final(self).shared.tt.buckets()[b][i] == (0u64, 0u64),
            final(self).shared.nodes == 0,
            final(self).shared.abort == old(self).shared.abort,
            final(self).keys == old(self).keys,
            final(self).pesto == old(self).pesto,
            final(self).lmr == old(self).lmr,
            final(self).network == old(self).network,
            final(self).thread_id == old(self).thread_id,
    {
        self.board = Board::start_pos();
        self.history = HistoryTable::new();
        self.continuation_history = ContinuationHistory::new();
        self.counter_moves = CountermoveTable::new();
        self.eval_history = EvalHistory::new();
        self.capture_history = CaptureHistory::new();
        self.correction_history = CorrectionHistory::new();
        self.killers = Killers::new();
        self.eval_buf = EvalBuf::new();
        self.accumulators = Accumulators::new();
        self.game_history = History::new();
        self.shared.reset();
    }

    /// The size of the shared table: entries and megabytes.
    pub fn info(&self) -> (r: (usize, usize))
        requires
            self.wf(),
            self.shared.tt.buckets().len() * 64 <= usize::MAX,
        ensures
            r.0 == self.shared.tt.buckets().len() * 4,
            r.1 == self.shared.tt.buckets().len() * 64 / (1024 * 1024),
    {
        self.shared.tt.info()
    }
}

impl Engine {
    /// Installs a late-move-reduction table (depth by move index, 128 by
    /// 256 entries, each 0 to 255); refuses any other and keeps the old one.
    pub fn set_lmr(&mut self, table: Vec<i32>) -> (r: bool)
        requires
            old(self).wf(),
        ensures
            final(self).wf(),
            r == (table@.len() == MAX_PLY * 256 && forall|i: int| 0 <= i < table@.len() ==> 0 <= #[trigger] table@[i] <= 255),
            r ==> final(self).lmr@ == table@,
            !r ==> final(self).lmr@ == old(self).lmr@,
            final(self).board == old(self).board,
    {
        if table.len() != 32768 {
            return false;
        }
        let mut i: usize = 0;
        while i < table.len()
            invariant
                i <= table.len(),
                table.len() == 32768,
                self.wf(),
                *self == *old(self),
                forall|j: int| 0 <= j < i ==> 0 <= #[trigger] table@[j] <= 255,
            decreases table.len() - i,
        {
            if table[i] < 0 || table[i] > 255 {
                return false;
            }
            i += 1;
        }
        self.lmr = table;
        true
    }
}

} // verus!
