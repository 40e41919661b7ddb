//! Move ordering: the move picker hands out the transposition-table move,
//! then good captures and promotions, killers, the countermove, quiet
//! moves by history, and last the losing captures.
use vstd::prelude::*;
use crate::board::{Board, BoardView};
use crate::engine::Engine;
use crate::evaluation::{PestoTables, mg_entry};
use crate::items::{Move, MoveFlag, Piece, is_piece};
use crate::movegen::{legal_move, pseudo_kind};
use crate::perft::sane;
use crate::see::{get_see_value, see_spec, see_value};
use crate::bits::bit;

verus! {

/// Quiet moves score from here up; captures that lose material score below.
pub const QUIET_MV_MARGIN: i32 = 10_000_000;

/// A legal move of the position, as the generator makes them.
pub open spec fn good_move(v: BoardView, m: Move) -> bool {
    legal_move(v, m) && pseudo_kind(v, m)
}

/// No legal move is the null move.
pub proof fn lemma_good_not_null(v: BoardView, m: Move)
    requires
        good_move(v, m),
    ensures
        m.0 != 0,
{
    if m.0 == 0 {
        crate::items::lemma_move_roundtrip(0, 0, 0);
        assert(m == Move(crate::items::move_code(0, 0, 0)));
    }
}

/// The picker's score of a capture or promotion, given its exchange value
/// `see`: promotions first (capturing ones above quiet ones, then by the new
/// piece), then winning captures, en passant and even captures, then losing
/// ones, ordered within by ten times the victim less the attacker, plus the
/// exchange value.
pub open spec fn tactical_score(v: BoardView, mv: Move, see: int) -> int {
    let f = mv.spec_flag();
    let attacker = v.pieces[mv.spec_from()];
    let victim = v.pieces[mv.spec_to()];
    if f & 4u8 != 0 {
        (if f & 8u8 == 0 { 60_000_000int } else { 80_000_000int }) + see_value(((f & 3u8) + 2) as u8)
    } else if victim == 0 {
        50_000_000
    } else {
        let mvv_lva = see_value(victim) * 10 - see_value(attacker);
        if see > 0 {
            70_000_000 + mvv_lva + see
        } else if see == 0 {
            50_000_000 + mvv_lva + see
        } else {
            1_000_000 + mvv_lva + see
        }
    }
}

impl Board {
    /// A quiet move's score: the margin plus how much the middle-game table
    /// likes the target better than the origin.
    pub fn score_quiet_move(&self, mv: Move, tables: &PestoTables) -> (r: i32)
        requires
            self.wf(),
            tables.wf(),
            is_piece(self@.pieces[mv.spec_from()]),
        ensures
            r == QUIET_MV_MARGIN + mg_entry(crate::items::piece_index(self@.pieces[mv.spec_from()]), mv.spec_to())
                - mg_entry(crate::items::piece_index(self@.pieces[mv.spec_from()]), mv.spec_from()),
            QUIET_MV_MARGIN - 3000 <= r <= QUIET_MV_MARGIN + 3000,
    {
        let from = mv.from();
        let to = mv.to();
        let attacker = self.piece_on(from);
        proof {
            crate::board::lemma_piece_code(attacker);
            crate::evaluation::lemma_table_bounds();
            assert((crate::items::piece_index(attacker) * 64 + to) / 64 == crate::items::piece_index(attacker)
                && (crate::items::piece_index(attacker) * 64 + to) % 64 == to) by (nonlinear_arith)
                requires
                    0 <= to < 64,
                    0 <= crate::items::piece_index(attacker),
            ;
            assert((crate::items::piece_index(attacker) * 64 + from) / 64 == crate::items::piece_index(attacker)
                && (crate::items::piece_index(attacker) * 64 + from) % 64 == from) by (nonlinear_arith)
                requires
                    0 <= from < 64,
                    0 <= crate::items::piece_index(attacker),
            ;
            assert(0 <= crate::evaluation::mirror_sq(to as int) < 64 && 0 <= crate::evaluation::mirror_sq(from as int) < 64)
                by (nonlinear_arith)
                requires
                    0 <= to < 64,
                    0 <= from < 64,
            ;
        }
        let p_idx = Piece::to_idx(attacker);
        let pst_delta = tables.mg[p_idx * 64 + to] - tables.mg[p_idx * 64 + from];
        QUIET_MV_MARGIN + pst_delta
    }

    /// A capture's or promotion's score: promotions above all (capturing
    /// ones first), then winning captures, en passant and even captures,
    /// then losing ones, ordered within by victim and attacker and by the
    /// exchange value.
    pub fn score_tactical_move(&self, mv: Move) -> (r: i32)
        requires
            self.wf(),
            is_piece(self@.pieces[mv.spec_from()]),
        ensures
            forall|occ: u64| (forall|s: int| 0 <= s < 64 ==> #[trigger] bit(occ, s) == (self@.pieces[s] != 0))
                ==> r == tactical_score(self@, mv, see_spec(self@, mv, occ)),
            mv.spec_flag() & 4u8 != 0 ==> r >= 60_000_000,
    {
        let flag = mv.flag();
        let from = mv.from();
        let to = mv.to();
        let attacker = self.piece_on(from);
        let victim = self.piece_on(to);
        proof {
            self.lemma_cells_pub();
            assert(crate::board::cell_ok(self@.pieces[to as int]));
            crate::board::lemma_piece_code(attacker);
            if victim != 0 {
                crate::board::lemma_piece_code(victim);
            }
        }
        if flag.is_promo() {
            let promo_value = get_see_value(flag.get_promo_piece());
            if !flag.is_capture() {
                return 60_000_000 + promo_value;
            }
            return 80_000_000 + promo_value;
        }
        if victim == Piece::NONE {
            return 50_000_000;
        }
        let v_val = get_see_value(victim);
        let a_val = get_see_value(attacker);
        let mvv_lva = v_val * 10 - a_val;
        let see_score = self.see(&mv);
        if see_score > 0 {
            return 70_000_000 + mvv_lva + see_score;
        }
        if see_score == 0 {
            return 50_000_000 + mvv_lva + see_score;
        }
        1_000_000 + mvv_lva + see_score
    }
}

/// The picker's stages.
pub const PH_TT: u8 = 0;
pub const PH_GEN_TACTICAL: u8 = 1;
pub const PH_GOOD_TACTICS: u8 = 2;
pub const PH_KILLERS: u8 = 3;
pub const PH_COUNTER: u8 = 4;
pub const PH_GEN_QUIETS: u8 = 5;
pub const PH_QUIETS: u8 = 6;
pub const PH_BAD_CAPTURES: u8 = 7;
pub const PH_DONE: u8 = 8;

/// A capture or a promotion: what the picker hands out among its tactics.
pub open spec fn tactical(m: Move) -> bool {
    m.spec_flag() & 8u8 != 0 || m.spec_flag() & 4u8 != 0
}

/// The counter move that the engine holds for `prev`.
pub open spec fn counter_entry(e: Engine, prev: Move) -> Move {
    e.counter_moves.table@[prev.spec_from() * 64 + prev.spec_to()]
}

/// Hands out the moves of one position, best first, stage by stage.
pub struct MovePicker {
    phase: u8,
    tt_move: Move,
    killers: [Move; 2],
    prev_mv: Move,
    qsearch_picker: bool,
    legal: Vec<Move>,
    moves: Vec<Move>,
    scores: Vec<i32>,
    mv_idx: usize,
    bad_captures: Vec<Move>,
    bad_scores: Vec<i32>,
    handed: Ghost<Set<Move>>,
    counter_seen: Ghost<Move>,
}

impl MovePicker {
    pub closed spec fn phase(&self) -> int {
        self.phase as int
    }

    /// The moves handed out so far.
    pub closed spec fn handed(&self) -> Set<Move> {
        self.handed@
    }

    /// The move the position was reached by.
    pub closed spec fn prev_move(&self) -> Move {
        self.prev_mv
    }

    /// The scores of the moves of the current stage still to come.
    pub closed spec fn pending_scores(&self) -> Seq<i32> {
        self.scores@.subrange(self.mv_idx as int, self.scores@.len() as int)
    }

    /// The score of the move of the current stage handed out last.
    pub closed spec fn last_score(&self) -> i32 {
        self.scores@[self.mv_idx - 1]
    }

    /// Whether this is a quiescence picker.
    pub closed spec fn for_qsearch(&self) -> bool {
        self.qsearch_picker
    }

    /// How many moves the current stage can still hand out.
    pub closed spec fn remaining(&self) -> int {
        if self.phase == PH_GOOD_TACTICS || self.phase == PH_QUIETS {
            self.moves.len() - self.mv_idx
        } else if self.phase == PH_KILLERS {
            2 - self.mv_idx
        } else if self.phase == PH_BAD_CAPTURES && self.mv_idx < self.bad_captures.len() {
            self.bad_captures.len() - self.mv_idx
        } else {
            0
        }
    }

    /// Every move the picker holds is a legal move of `v`.
    pub closed spec fn wf_for(&self, v: BoardView) -> bool {
        &&& self.phase <= PH_DONE
        &&& self.phase > PH_TT ==> forall|i: int| 0 <= i < self.legal.len() ==> good_move(v, #[trigger] self.legal@[i])
        &&& forall|i: int| 0 <= i < self.moves.len() ==> good_move(v, #[trigger] self.moves@[i])
        &&& forall|i: int| 0 <= i < self.bad_captures.len() ==> good_move(v, #[trigger] self.bad_captures@[i])
        &&& self.scores.len() == self.moves.len()
        &&& self.bad_scores.len() == self.bad_captures.len()
        &&& (self.phase == PH_GOOD_TACTICS || self.phase == PH_QUIETS) ==> self.mv_idx <= self.moves.len()
        &&& self.phase == PH_KILLERS ==> self.mv_idx <= 2
    }

    /// Every legal move of `v` has been handed out or is still to come in a
    /// later stage, the engine holding the counter move `counter`; past the
    /// last stage, every one has been handed out.
    pub closed spec fn on_track(&self, v: BoardView, counter: Move) -> bool {
        let h = self.handed@;
        let tt = self.tt_move;
        let rest = self.moves@.subrange(self.mv_idx as int, self.moves@.len() as int);
        let bad = self.bad_captures@;
        &&& self.phase > PH_TT ==> forall|m: Move| #[trigger] self.legal@.contains(m) == good_move(v, m)
        &&& self.phase > PH_TT && tt.0 != 0 && good_move(v, tt) ==> h.contains(tt)
        &&& self.phase == PH_GOOD_TACTICS ==> forall|m: Move| good_move(v, m) && tactical(m)
            ==> #[trigger] h.contains(m) || rest.contains(m) || bad.contains(m)
        &&& PH_KILLERS <= self.phase < PH_BAD_CAPTURES ==> forall|m: Move| good_move(v, m) && tactical(m)
            ==> #[trigger] h.contains(m) || bad.contains(m)
        &&& self.phase == PH_KILLERS ==> forall|j: int| 0 <= j < self.mv_idx && j < 2
            ==> (good_move(v, #[trigger] self.killers@[j]) ==> h.contains(self.killers@[j]))
        &&& self.phase > PH_KILLERS ==> forall|j: int| 0 <= j < 2
            ==> (good_move(v, #[trigger] self.killers@[j]) ==> h.contains(self.killers@[j]))
        &&& self.phase > PH_COUNTER ==> self.counter_seen@ == counter && (good_move(v, counter) ==> h.contains(counter))
        &&& self.phase == PH_QUIETS ==> forall|m: Move| good_move(v, m) && !tactical(m)
            ==> #[trigger] h.contains(m) || rest.contains(m)
        &&& self.phase >= PH_BAD_CAPTURES ==> forall|m: Move| good_move(v, m) && !tactical(m) ==> #[trigger] h.contains(m)
        &&& self.phase == PH_BAD_CAPTURES ==> forall|m: Move| good_move(v, m) && tactical(m)
            ==> #[trigger] h.contains(m) || (self.mv_idx <= bad.len() && bad.subrange(self.mv_idx as int, bad.len() as int).contains(m))
        &&& self.phase == PH_DONE ==> forall|m: Move| good_move(v, m) ==> #[trigger] h.contains(m)
    }

    /// A picker that starts with `tt_move`; in quiescence (`qsearch_picker`)
    /// it stops after the good captures and promotions.
    pub fn new(tt_move: Move, killers: [Move; 2], prev_mv: Move, qsearch_picker: bool) -> (r: Self)
        ensures
            r.phase() == PH_TT,
            r.remaining() == 0,
            r.handed() == Set::<Move>::empty(),
            r.prev_move() == prev_mv,
            r.for_qsearch() == qsearch_picker,
            forall|v: BoardView| #[trigger] r.wf_for(v),
            forall|v: BoardView, c: Move| #[trigger] r.on_track(v, c),
    {
        MovePicker {
            phase: PH_TT,
            tt_move,
            killers,
            prev_mv,
            qsearch_picker,
            legal: Vec::new(),
            moves: Vec::new(),
            scores: Vec::new(),
            mv_idx: 0,
            bad_captures: Vec::new(),
            bad_scores: Vec::new(),
            handed: Ghost(Set::empty()),
            counter_seen: Ghost(Move(0)),
        }
    }

    /// Skips the rest of the quiet moves.
    pub fn skip_quiets(&mut self)
        ensures
            final(self).phase() >= old(self).phase(),
            old(self).phase() == PH_QUIETS ==> final(self).phase() == PH_BAD_CAPTURES,
            old(self).phase() != PH_QUIETS ==> *final(self) == *old(self),
            final(self).handed() == old(self).handed(),
            final(self).prev_move() == old(self).prev_move(),
            final(self).for_qsearch() == old(self).for_qsearch(),
            forall|v: BoardView| old(self).wf_for(v) ==> #[trigger] final(self).wf_for(v),
    {
        if self.phase == PH_QUIETS {
            self.phase = PH_BAD_CAPTURES;
        }
    }
}

/// Whether `mv` is in `list`.
fn list_contains(list: &Vec<Move>, mv: Move) -> (r: bool)
    ensures
        r <==> list@.contains(mv),
{
    let mut i: usize = 0;
    while i < list.len()
        invariant
            i <= list.len(),
            forall|j: int| 0 <= j < i ==> list@[j] != mv,
        decreases list.len() - i,
    {
        if list[i].0 == mv.0 {
            assert(list@[i as int] == mv);
            return true;
        }
        i += 1;
    }
    false
}

/// Moves the best-scored entry from `idx` on to `idx` and returns it; the
/// entries from `idx` on are the same ones, reordered.
fn pick_move(moves: &mut Vec<Move>, scores: &mut Vec<i32>, idx: usize) -> (r: (Move, i32))
    requires
        idx < old(moves).len(),
        old(scores).len() == old(moves).len(),
    ensures
        final(moves).len() == old(moves).len(),
        final(scores).len() == old(scores).len(),
        r.0 == final(moves)@[idx as int],
        r.1 == final(scores)@[idx as int],
        forall|j: int| 0 <= j < final(moves).len() ==> old(moves)@.contains(#[trigger] final(moves)@[j]),
        forall|x: Move| old(moves)@.subrange(idx as int, old(moves)@.len() as int).contains(x)
            ==> #[trigger] final(moves)@.subrange(idx as int, final(moves)@.len() as int).contains(x),
        forall|j: int| idx <= j < final(scores).len() ==> #[trigger] final(scores)@[j] <= r.1,
{
    let mut best = idx;
    let mut j = idx + 1;
    while j < moves.len()
        invariant
            idx <= best < moves.len(),
            idx < j <= moves.len(),
            scores.len() == moves.len(),
            forall|k: int| idx <= k < j ==> #[trigger] scores@[k] <= scores@[best as int],
        decreases moves.len() - j,
    {
        if scores[j] > scores[best] {
            best = j;
        }
        j += 1;
    }
    let ghost before = moves@;
    let m_best = moves[best];
    let m_idx = moves[idx];
    let s_best = scores[best];
    let s_idx = scores[idx];
    moves.set(idx, m_best);
    moves.set(best, m_idx);
    scores.set(idx, s_best);
    scores.set(best, s_idx);
    proof {
        assert forall|k: int| 0 <= k < moves.len() implies before.contains(#[trigger] moves@[k]) by {
            if k == idx as int {
                assert(before[best as int] == moves@[k]);
            } else if k == best as int {
                assert(before[idx as int] == moves@[k]);
            } else {
                assert(before[k] == moves@[k]);
            }
        }
        assert forall|x: Move| before.subrange(idx as int, before.len() as int).contains(x)
            implies #[trigger] moves@.subrange(idx as int, moves@.len() as int).contains(x) by {
            let t = choose|t: int| 0 <= t < before.len() - idx && before.subrange(idx as int, before.len() as int)[t] == x;
            let k = t + idx;
            let k2: int = if k == idx as int { best as int } else if k == best as int { idx as int } else { k };
            assert(moves@[k2] == before[k]);
            assert(moves@.subrange(idx as int, moves@.len() as int)[k2 - idx] == x);
        }
    }
    (m_best, s_best)
}

/// After taking the entry at `idx` of a reordered run, each move of the
/// run is that entry or still in the rest.
proof fn lemma_rest_after_pick(old_s: Seq<Move>, new_s: Seq<Move>, idx: int, x: Move)
    requires
        0 <= idx < new_s.len(),
        new_s.len() == old_s.len(),
        new_s.subrange(idx, new_s.len() as int).contains(x),
    ensures
        x == new_s[idx] || new_s.subrange(idx + 1, new_s.len() as int).contains(x),
{
    let t = choose|t: int| 0 <= t < new_s.len() - idx && new_s.subrange(idx, new_s.len() as int)[t] == x;
    if t > 0 {
        assert(new_s.subrange(idx + 1, new_s.len() as int)[t - 1] == x);
    }
}

/// After taking the entry at `idx` of a reordered run, each move of the old
/// run from `idx` on is that entry or in the rest.
proof fn lemma_pick_rest(before: Seq<Move>, after: Seq<Move>, idx: int)
    requires
        0 <= idx < after.len(),
        after.len() == before.len(),
        forall|x: Move| before.subrange(idx, before.len() as int).contains(x)
            ==> #[trigger] after.subrange(idx, after.len() as int).contains(x),
    ensures
        forall|x: Move| #[trigger] before.subrange(idx, before.len() as int).contains(x)
            ==> x == after[idx] || after.subrange(idx + 1, after.len() as int).contains(x),
{
    assert forall|x: Move| #[trigger] before.subrange(idx, before.len() as int).contains(x)
        implies x == after[idx] || after.subrange(idx + 1, after.len() as int).contains(x) by {
        assert(after.subrange(idx, after.len() as int).contains(x));
        lemma_rest_after_pick(before, after, idx, x);
    }
}

impl Engine {
    /// The continuation-history entry of `mv` after `prev_mv`, or 0 when
    /// `prev_mv` is null or left no piece behind.
    pub fn cont_score(&self, prev_mv: Move, mv: Move) -> (r: i32)
        requires
            self.wf(),
            is_piece(self.board@.pieces[mv.spec_from()]),
        ensures
            r == (if prev_mv.0 == 0 || self.board@.pieces[prev_mv.spec_to()] == 0 {
                0
            } else {
                self.continuation_history.table@[crate::engine::cont_index(self.board@.pieces[prev_mv.spec_to()],
                    prev_mv.spec_to()) * 768 + crate::engine::cont_index(self.board@.pieces[mv.spec_from()], mv.spec_to())] as int
            }),
            -20000 <= r <= 20000,
    {
        if prev_mv.0 == 0 || self.board.piece_on(prev_mv.to()) == 0 {
            return 0;
        }
        proof {
            self.board.lemma_cells_pub();
            assert(crate::board::cell_ok(self.board@.pieces[prev_mv.spec_to()]));
        }
        let c = self.continuation_history.get(&self.board, prev_mv, mv);
        c as i32
    }

    /// The next move to try, or `None` when there is none left. The picker
    /// draws on the legal move generator, so every move handed out is legal
    /// and the search plays each one it gets. A picker over pseudo-legal
    /// moves would hand out, in between, moves that leave the own king
    /// attacked; a search on it makes each of those, finds the king
    /// attacked, takes it back and goes on, counting it neither as searched
    /// nor as quiet. Leaving them out keeps the searched moves, their order
    /// and every count the search decides by the same; only the counts of
    /// pruning attempts, which decide nothing, may differ. Each move handed
    /// out joins `handed`; a picker on track that is not a quiescence picker
    /// has handed out every legal move when it answers `None`.
    pub fn pick_next_mv(&mut self, picker: &mut MovePicker) -> (r: Option<Move>)
        requires
            old(self).wf(),
            sane(old(self).board),
            old(picker).wf_for(old(self).board@),
        ensures
            *final(self) == *old(self),
            final(picker).wf_for(old(self).board@),
            0 <= final(picker).phase() <= 8,
            final(picker).remaining() >= 0,
            r matches Some(m) ==> good_move(old(self).board@, m),
            final(picker).phase() >= old(picker).phase(),
            r is Some ==> final(picker).phase() > old(picker).phase() || (final(picker).phase() == old(picker).phase()
                && final(picker).remaining() < old(picker).remaining()),
            final(picker).prev_move() == old(picker).prev_move(),
            final(picker).for_qsearch() == old(picker).for_qsearch(),
            r is Some && (final(picker).phase() == PH_GOOD_TACTICS || final(picker).phase() == PH_QUIETS)
                ==> forall|j: int| 0 <= j < final(picker).pending_scores().len()
                    ==> #[trigger] final(picker).pending_scores()[j] <= final(picker).last_score(),
            final(picker).handed() == (match r {
                Some(m) => old(picker).handed().insert(m),
                None => old(picker).handed(),
            }),
            old(picker).on_track(old(self).board@, counter_entry(*old(self), old(picker).prev_move()))
                ==> final(picker).on_track(old(self).board@, counter_entry(*old(self), old(picker).prev_move())),
            old(picker).on_track(old(self).board@, counter_entry(*old(self), old(picker).prev_move()))
                && r is None && !old(picker).for_qsearch()
                ==> forall|m: Move| good_move(old(self).board@, m) ==> #[trigger] final(picker).handed().contains(m),
    {
        let ghost v = self.board@;
        let ghost e0 = *self;
        let ghost c = counter_entry(*self, picker.prev_mv);
        let ghost tracked0 = picker.on_track(v, c);
        loop
            invariant
                *self == e0,
                e0 == *old(self),
                self.wf(),
                sane(self.board),
                v == self.board@,
                c == counter_entry(e0, old(picker).prev_move()),
                tracked0 == old(picker).on_track(v, c),
                picker.wf_for(v),
                picker.phase() > old(picker).phase() || (picker.phase() == old(picker).phase() && picker.remaining()
                    <= old(picker).remaining()),
                picker.prev_mv == old(picker).prev_mv,
                picker.tt_move == old(picker).tt_move,
                picker.killers == old(picker).killers,
                picker.qsearch_picker == old(picker).qsearch_picker,
                picker.handed@ == old(picker).handed@,
                tracked0 ==> picker.on_track(v, c),
            decreases 8 - picker.phase(), picker.remaining(),
        {
            if picker.phase == PH_TT {
                let legal = self.board.gen_moves();
                picker.legal = legal;
                picker.phase = PH_GEN_TACTICAL;
                proof {
                    assert forall|m: Move| #[trigger] picker.legal@.contains(m) == good_move(v, m) by {
                        if good_move(v, m) && crate::movegen::castle_move(v, m) {
                            crate::perft::lemma_castle_home(self.board, m);
                        }
                        if picker.legal@.contains(m) {
                            let k = choose|k: int| 0 <= k < picker.legal@.len() && picker.legal@[k] == m;
                            assert(good_move(v, picker.legal@[k]));
                        }
                    }
                }
                if picker.tt_move.0 != 0 && list_contains(&picker.legal, picker.tt_move) {
                    let tt = picker.tt_move;
                    proof {
                        let k = choose|k: int| 0 <= k < picker.legal@.len() && picker.legal@[k] == tt;
                        assert(good_move(v, picker.legal@[k]));
                    }
                    picker.handed = Ghost(picker.handed@.insert(tt));
                    return Some(tt);
                }
            } else if picker.phase == PH_GEN_TACTICAL {
                let mut moves: Vec<Move> = Vec::new();
                let mut scores: Vec<i32> = Vec::new();
                let mut i: usize = 0;
                while i < picker.legal.len()
                    invariant
                        i <= picker.legal.len(),
                        self.wf(),
                        v == self.board@,
                        forall|j: int| 0 <= j < picker.legal.len() ==> good_move(v, #[trigger] picker.legal@[j]),
                        forall|j: int| 0 <= j < moves.len() ==> good_move(v, #[trigger] moves@[j]),
                        forall|j: int| 0 <= j < i && tactical(picker.legal@[j]) ==> moves@.contains(#[trigger] picker.legal@[j]),
                        scores.len() == moves.len(),
                    decreases picker.legal.len() - i,
                {
                    let mv = picker.legal[i];
                    let f = mv.flag();
                    let ghost before = moves@;
                    if f.is_capture() || f.is_promo() {
                        assert(good_move(v, picker.legal@[i as int]));
                        let sc = self.board.score_tactical_move(mv);
                        moves.push(mv);
                        scores.push(sc);
                        proof {
                            assert(moves@[moves@.len() - 1] == mv);
                        }
                    }
                    proof {
                        assert forall|j: int| 0 <= j < i + 1 && tactical(picker.legal@[j])
                            implies moves@.contains(#[trigger] picker.legal@[j]) by {
                            if j < i {
                                let k = choose|k: int| 0 <= k < before.len() && before[k] == picker.legal@[j];
                                assert(moves@[k] == before[k]);
                            }
                        }
                    }
                    i += 1;
                }
                picker.moves = moves;
                picker.scores = scores;
                picker.mv_idx = 0;
                picker.phase = PH_GOOD_TACTICS;
                proof {
                    assert(picker.moves@.subrange(0, picker.moves@.len() as int) =~= picker.moves@);
                    assert forall|m: Move| good_move(v, m) && tactical(m) && tracked0 implies #[trigger] picker.handed@.contains(m)
                        || picker.moves@.subrange(0, picker.moves@.len() as int).contains(m)
                        || picker.bad_captures@.contains(m) by {
                        assert(picker.legal@.contains(m));
                        let k = choose|k: int| 0 <= k < picker.legal@.len() && picker.legal@[k] == m;
                        assert(tactical(picker.legal@[k]));
                    }
                }
            } else if picker.phase == PH_GOOD_TACTICS {
                if picker.mv_idx < picker.moves.len() {
                    let idx = picker.mv_idx;
                    let ghost before = picker.moves@;
                    let (mv, score) = pick_move(&mut picker.moves, &mut picker.scores, idx);
                    proof {
                        assert(before.contains(mv));
                        lemma_pick_rest(before, picker.moves@, idx as int);
                        lemma_good_not_null(v, mv);
                    }
                    picker.mv_idx = idx + 1;
                    let ghost after = picker.moves@;
                    let ghost h0 = picker.handed@;
                    let ghost bad0 = picker.bad_captures@;
                    if mv.0 == picker.tt_move.0 {
                        proof {
                            assert(mv == picker.tt_move);
                        }
                        continue;
                    }
                    if score < QUIET_MV_MARGIN {
                        picker.bad_captures.push(mv);
                        picker.bad_scores.push(score);
                        proof {
                            assert(picker.bad_captures@[bad0.len() as int] == mv);
                            assert forall|j: int| 0 <= j < picker.bad_captures.len() implies good_move(v, #[trigger] picker.bad_captures@[j]) by {
                                if j < bad0.len() {
                                    assert(picker.bad_captures@[j] == bad0[j]);
                                }
                            }
                            assert forall|m: Move| bad0.contains(m) implies #[trigger] picker.bad_captures@.contains(m) by {
                                let k = choose|k: int| 0 <= k < bad0.len() && bad0[k] == m;
                                assert(picker.bad_captures@[k] == m);
                            }
                        }
                        continue;
                    }
                    picker.handed = Ghost(picker.handed@.insert(mv));
                    return Some(mv);
                } else {
                    if picker.qsearch_picker {
                        return None;
                    }
                    picker.phase = PH_KILLERS;
                    picker.mv_idx = 0;
                    proof {
                        assert(picker.moves@.subrange(picker.moves@.len() as int, picker.moves@.len() as int) =~= Seq::<Move>::empty());
                    }
                }
            } else if picker.phase == PH_KILLERS {
                if picker.mv_idx < 2 {
                    let ki = picker.mv_idx;
                    let killer = picker.killers[picker.mv_idx];
                    picker.mv_idx = picker.mv_idx + 1;
                    if killer.0 != 0 && killer.0 != picker.tt_move.0 && list_contains(&picker.legal, killer) {
                        proof {
                            let k = choose|k: int| 0 <= k < picker.legal@.len() && picker.legal@[k] == killer;
                            assert(good_move(v, picker.legal@[k]));
                        }
                        picker.handed = Ghost(picker.handed@.insert(killer));
                        return Some(killer);
                    }
                    proof {
                        if tracked0 && good_move(v, killer) {
                            lemma_good_not_null(v, killer);
                            assert(picker.legal@.contains(killer));
                            assert(killer == picker.tt_move);
                        }
                        assert(picker.killers@[ki as int] == killer);
                    }
                } else {
                    picker.phase = PH_COUNTER;
                    picker.mv_idx = 0;
                }
            } else if picker.phase == PH_COUNTER {
                picker.phase = PH_GEN_QUIETS;
                let counter_mv = self.counter_moves.get(picker.prev_mv);
                picker.counter_seen = Ghost(counter_mv);
                if counter_mv.0 != picker.tt_move.0 && counter_mv.0 != picker.killers[0].0 && counter_mv.0
                    != picker.killers[1].0 && counter_mv.0 != 0 && list_contains(&picker.legal, counter_mv) {
                    proof {
                        let k = choose|k: int| 0 <= k < picker.legal@.len() && picker.legal@[k] == counter_mv;
                        assert(good_move(v, picker.legal@[k]));
                    }
                    picker.handed = Ghost(picker.handed@.insert(counter_mv));
                    return Some(counter_mv);
                }
                proof {
                    if tracked0 && good_move(v, counter_mv) {
                        lemma_good_not_null(v, counter_mv);
                        assert(picker.legal@.contains(counter_mv));
                        if counter_mv == picker.killers@[0] {
                        } else if counter_mv == picker.killers@[1] {
                        } else {
                            assert(counter_mv == picker.tt_move);
                        }
                    }
                }
            } else if picker.phase == PH_GEN_QUIETS {
                let mut moves: Vec<Move> = Vec::new();
                let mut scores: Vec<i32> = Vec::new();
                let stm = self.board.side_to_move().val();
                let mut i: usize = 0;
                while i < picker.legal.len()
                    invariant
                        i <= picker.legal.len(),
                        self.wf(),
                        v == self.board@,
                        stm < 2,
                        forall|j: int| 0 <= j < picker.legal.len() ==> good_move(v, #[trigger] picker.legal@[j]),
                        forall|j: int| 0 <= j < moves.len() ==> good_move(v, #[trigger] moves@[j]),
                        forall|j: int| 0 <= j < i && !tactical(picker.legal@[j]) ==> moves@.contains(#[trigger] picker.legal@[j]),
                        scores.len() == moves.len(),
                    decreases picker.legal.len() - i,
                {
                    let mv = picker.legal[i];
                    let f = mv.flag();
                    let ghost before = moves@;
                    if !(f.is_capture() || f.is_promo()) {
                        assert(good_move(v, picker.legal@[i as int]));
                        let base = self.board.score_quiet_move(mv, &self.pesto);
                        proof {
                            crate::evaluation::lemma_table_bounds();
                        }
                        let h = self.history.get(stm, mv.from(), mv.to());
                        let c = self.cont_score(picker.prev_mv, mv);
                        moves.push(mv);
                        scores.push(base + h * 4 + c * 16);
                        proof {
                            assert(moves@[moves@.len() - 1] == mv);
                        }
                    }
                    proof {
                        assert forall|j: int| 0 <= j < i + 1 && !tactical(picker.legal@[j])
                            implies moves@.contains(#[trigger] picker.legal@[j]) by {
                            if j < i {
                                let k = choose|k: int| 0 <= k < before.len() && before[k] == picker.legal@[j];
                                assert(moves@[k] == before[k]);
                            }
                        }
                    }
                    i += 1;
                }
                picker.mv_idx = 0;
                picker.moves = moves;
                picker.scores = scores;
                picker.phase = PH_QUIETS;
                proof {
                    assert(picker.moves@.subrange(0, picker.moves@.len() as int) =~= picker.moves@);
                    assert forall|m: Move| good_move(v, m) && !tactical(m) && tracked0 implies #[trigger] picker.handed@.contains(m)
                        || picker.moves@.subrange(0, picker.moves@.len() as int).contains(m) by {
                        assert(picker.legal@.contains(m));
                        let k = choose|k: int| 0 <= k < picker.legal@.len() && picker.legal@[k] == m;
                        assert(!tactical(picker.legal@[k]));
                    }
                }
            } else if picker.phase == PH_QUIETS {
                if picker.mv_idx < picker.moves.len() {
                    let idx = picker.mv_idx;
                    let ghost before = picker.moves@;
                    let (mv, _score) = pick_move(&mut picker.moves, &mut picker.scores, idx);
                    proof {
                        assert(before.contains(mv));
                    }
                    let counter_mv = self.counter_moves.get(picker.prev_mv);
                    picker.mv_idx = idx + 1;
                    let ghost after = picker.moves@;
                    if mv.0 == picker.tt_move.0 || mv.0 == picker.killers[0].0 || mv.0 == picker.killers[1].0 || mv.0
                        == counter_mv.0 || mv.0 == 0 {
                        proof {
                            if tracked0 {
                                assert(good_move(v, mv));
                                assert(picker.handed@.contains(mv)) by {
                                    if mv == picker.killers@[0] {
                                    } else if mv == picker.killers@[1] {
                                    } else if mv == counter_mv {
                                    } else {
                                        lemma_good_not_null(v, mv);
                                    }
                                }
                                assert forall|m: Move| good_move(v, m) && !tactical(m) implies #[trigger] picker.handed@.contains(m)
                                    || picker.moves@.subrange(picker.mv_idx as int, picker.moves@.len() as int).contains(m) by {
                                    if before.subrange(idx as int, before.len() as int).contains(m) {
                                        lemma_rest_after_pick(before, after, idx as int, m);
                                    }
                                }
                            }
                        }
                        continue;
                    }
                    picker.handed = Ghost(picker.handed@.insert(mv));
                    proof {
                        if tracked0 {
                            assert forall|m: Move| good_move(v, m) && !tactical(m) implies #[trigger] picker.handed@.contains(m)
                                || picker.moves@.subrange(picker.mv_idx as int, picker.moves@.len() as int).contains(m) by {
                                if before.subrange(idx as int, before.len() as int).contains(m) {
                                    lemma_rest_after_pick(before, after, idx as int, m);
                                }
                            }
                        }
                    }
                    return Some(mv);
                } else {
                    picker.mv_idx = 0;
                    picker.phase = PH_BAD_CAPTURES;
                    proof {
                        if tracked0 {
                            assert(picker.bad_captures@.subrange(0, picker.bad_captures@.len() as int) =~= picker.bad_captures@);
                            assert forall|m: Move| good_move(v, m) && tactical(m) implies #[trigger] picker.handed@.contains(m)
                                || picker.bad_captures@.subrange(0, picker.bad_captures@.len() as int).contains(m) by {
                            }
                            assert forall|m: Move| good_move(v, m) && !tactical(m) implies #[trigger] picker.handed@.contains(m) by {
                                if picker.moves@.subrange(picker.moves@.len() as int, picker.moves@.len() as int).contains(m) {
                                    let t = choose|t: int| 0 <= t < 0 && picker.moves@.subrange(picker.moves@.len() as int,
                                        picker.moves@.len() as int)[t] == m;
                                }
                            }
                        }
                    }
                }
            } else if picker.phase == PH_BAD_CAPTURES {
                if picker.mv_idx < picker.bad_captures.len() {
                    let idx = picker.mv_idx;
                    let ghost before = picker.bad_captures@;
                    let (mv, _score) = pick_move(&mut picker.bad_captures, &mut picker.bad_scores, idx);
                    proof {
                        assert(before.contains(mv));
                    }
                    picker.mv_idx = idx + 1;
                    let ghost after = picker.bad_captures@;
                    picker.handed = Ghost(picker.handed@.insert(mv));
                    proof {
                        if tracked0 {
                            assert forall|m: Move| good_move(v, m) && tactical(m) implies #[trigger] picker.handed@.contains(m)
                                || (picker.mv_idx <= after.len() && after.subrange(picker.mv_idx as int, after.len() as int).contains(m)) by {
                                if before.subrange(idx as int, before.len() as int).contains(m) {
                                    lemma_rest_after_pick(before, after, idx as int, m);
                                }
                            }
                        }
                    }
                    return Some(mv);
                }
                proof {
                    if tracked0 {
                        assert forall|m: Move| good_move(v, m) implies #[trigger] picker.handed@.contains(m) by {
                            if tactical(m) {
                                if picker.mv_idx <= picker.bad_captures@.len() && picker.bad_captures@.subrange(picker.mv_idx as int,
                                    picker.bad_captures@.len() as int).contains(m) {
                                    let t = choose|t: int| 0 <= t < picker.bad_captures@.len() - picker.mv_idx
                                        && picker.bad_captures@.subrange(picker.mv_idx as int, picker.bad_captures@.len() as int)[t] == m;
                                }
                            }
                        }
                    }
                }
                picker.bad_captures = Vec::new();
                picker.bad_scores = Vec::new();
                picker.phase = PH_DONE;
                return None;
            } else {
                return None;
            }
        }
    }
}

} // verus!
