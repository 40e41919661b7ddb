//! Search bookkeeping: limits, progress and statistics, and the time
//! management that turns a `go` command into limits.
use vstd::prelude::*;
use std::sync::Arc;
use std::sync::atomic::{AtomicBool, Ordering};
use std::time::Instant;
use crate::board::{Board, BoardView, lemma_make_undo, made, undo_of, occupancy_of};
use crate::clock::{elapsed_ms, now};
use crate::consts::{INF, MATE, MAX_PLY};
use crate::engine::{Engine, Killers};
use crate::bits::bit;
use crate::evaluation::hce_spec;
use crate::network::{forward_spec, output_cp, Network};
use crate::movegen::king_square;
use crate::items::{Color, Move, MoveFlag, Undo};
use crate::move_pick::{MovePicker, good_move};
use crate::perft::{sane, lemma_sane_child};
use crate::position::{zob_key, zob_spec};
use crate::see::get_see_value;
use crate::tt::{TTEntry, TTFlag, stored_move};
use crate::uci::GoControl;

verus! {

/// Deepest iteration the search runs.
pub const MAX_DEPTH: u16 = 128;

/// Counters of what the search did, for tuning.
#[derive(Clone, Copy)]
pub struct SearchStats {
    pub nodes: usize,
    pub q_nodes: usize,
    pub nodes_by_depth: [usize; 129],
    pub nmp_attemps: usize,
    pub nmp_cutoffs: usize,
    pub lmr_attempts: usize,
    pub lmr_research: usize,
    pub lmp_attempts: usize,
    pub lmp_prunes: usize,
    pub see_prune_attempts: usize,
    pub see_prunes_happened: usize,
    pub rfp_attempts: usize,
    pub rfp_cutoffs: usize,
    pub probcut_attempts: usize,
    pub probcut_cutoffs: usize,
    pub iid_attempts: usize,
    pub iid_success: usize,
    pub futility_attempts: usize,
    pub futility_prunes: usize,
    pub tt_probes: usize,
    pub tt_hits: usize,
    pub tt_exact_cutoffs: usize,
    pub tt_bound_cutoffs: usize,
    pub beta_cutoffs: usize,
    pub q_beta_cutoffs: usize,
    pub cutoffs_by_idx: [usize; 256],
    pub q_cutoffs_by_idx: [usize; 256],
}

impl SearchStats {
    /// Every counter zero.
    pub fn new() -> (r: SearchStats)
        ensures
            r.nodes == 0 && r.q_nodes == 0 && r.nmp_attemps == 0 && r.nmp_cutoffs == 0 && r.lmr_attempts == 0
                && r.lmr_research == 0 && r.lmp_attempts == 0 && r.lmp_prunes == 0 && r.see_prune_attempts == 0
                && r.see_prunes_happened == 0 && r.rfp_attempts == 0 && r.rfp_cutoffs == 0 && r.probcut_attempts == 0
                && r.probcut_cutoffs == 0 && r.iid_attempts == 0 && r.iid_success == 0 && r.futility_attempts == 0
                && r.futility_prunes == 0 && r.tt_probes == 0 && r.tt_hits == 0 && r.tt_exact_cutoffs == 0
                && r.tt_bound_cutoffs == 0 && r.beta_cutoffs == 0 && r.q_beta_cutoffs == 0,
            forall|i: int| 0 <= i < 129 ==> #[trigger] r.nodes_by_depth[i] == 0,
            forall|i: int| 0 <= i < 256 ==> #[trigger] r.cutoffs_by_idx[i] == 0,
            forall|i: int| 0 <= i < 256 ==> #[trigger] r.q_cutoffs_by_idx[i] == 0,
    {
        SearchStats {
            nodes: 0,
            q_nodes: 0,
            nodes_by_depth: [0usize; 129],
            nmp_attemps: 0,
            nmp_cutoffs: 0,
            lmr_attempts: 0,
            lmr_research: 0,
            lmp_attempts: 0,
            lmp_prunes: 0,
            see_prune_attempts: 0,
            see_prunes_happened: 0,
            rfp_attempts: 0,
            rfp_cutoffs: 0,
            probcut_attempts: 0,
            probcut_cutoffs: 0,
            iid_attempts: 0,
            iid_success: 0,
            futility_attempts: 0,
            futility_prunes: 0,
            tt_probes: 0,
            tt_hits: 0,
            tt_exact_cutoffs: 0,
            tt_bound_cutoffs: 0,
            beta_cutoffs: 0,
            q_beta_cutoffs: 0,
            cutoffs_by_idx: [0usize; 256],
            q_cutoffs_by_idx: [0usize; 256],
        }
    }
}

/// One more, stopping at the largest count.
pub fn bump(x: usize) -> (r: usize)
    ensures
        r == (if x < usize::MAX { x + 1 } else { x as int }),
{
    x.saturating_add(1)
}

/// Whether the stop flag is raised; another thread may raise it at any
/// time, so nothing is known of the answer.
pub fn stop_requested(flag: &Arc<AtomicBool>) -> (r: bool) {
    flag.load(Ordering::Relaxed)
}

/// The moves to mate a score announces: positive when the side to move
/// mates, negative when it is mated; none for other scores.
pub open spec fn mate_depth(score: int) -> Option<int> {
    if score > MATE - MAX_PLY {
        Some(crate::engine::tdiv(MATE - score + 1, 2))
    } else if score < -MATE + MAX_PLY {
        Some(-crate::engine::tdiv(MATE + score + 1, 2))
    } else {
        None
    }
}

/// A mate score `p` plies away announces the number of moves `n` whose
/// last ply is the `p`-th: `2n - 1 <= p <= 2n`, positive when the side to
/// move mates (`MATE - p`), negative when it is mated (`-MATE + p`).
pub proof fn lemma_mate_depth_counts_moves(p: int)
    requires
        1 <= p < MAX_PLY,
    ensures
        mate_depth(MATE - p) matches Some(n) && n >= 1 && 2 * n - 1 <= p <= 2 * n,
        mate_depth(-MATE + p) matches Some(m) && m <= -1 && 2 * (-m) - 1 <= p <= 2 * (-m),
{
}

/// What a search has found so far and how far it got.
pub struct SearchInfo {
    pub start_time: Instant,
    pub depth: u16,
    pub seldepth: u16,
    pub score: i16,
    pub best_move: Move,
    pub nodes: u64,
    pub abort: bool,
    pub is_mandatory: bool,
    pub pv: Vec<Move>,
    pub stats: SearchStats,
}

impl SearchInfo {
    /// A search that has just started: nothing found, nothing counted.
    pub fn new() -> (r: SearchInfo)
        ensures
            r.best_move.0 == 0,
            r.depth == 0,
            r.seldepth == 0,
            r.score == 0,
            r.nodes == 0,
            !r.abort,
            r.is_mandatory,
            r.pv@.len() == 0,
    {
        SearchInfo {
            start_time: now(),
            best_move: Move::null(),
            depth: 0,
            seldepth: 0,
            score: 0,
            nodes: 0,
            abort: false,
            is_mandatory: true,
            pv: Vec::new(),
            stats: SearchStats::new(),
        }
    }

    /// The moves to mate the score announces, if it is a mate score.
    pub fn get_mate_depth(&self) -> (r: Option<i16>)
        ensures
            r == (match mate_depth(self.score as int) {
                Some(d) => Some(d as i16),
                None => None::<i16>,
            }),
    {
        if self.score > MATE - MAX_PLY as i16 {
            Some((MATE - self.score + 1) / 2)
        } else if self.score < -MATE + MAX_PLY as i16 {
            Some(-((MATE + self.score + 1) / 2))
        } else {
            None
        }
    }

    /// Sets `abort` when a limit is reached: the stop signal, a mate found
    /// within the asked depth, and, every 2048 nodes, the node or hard time
    /// limit. A mandatory search is never stopped; an abort stays set, and
    /// nothing else raises it.
    pub fn check_limits(&mut self, limits: &SearchLimits)
        ensures
            old(self).abort ==> final(self).abort,
            old(self).is_mandatory ==> final(self).abort == old(self).abort,
            final(self).nodes == old(self).nodes,
            final(self).score == old(self).score,
            final(self).is_mandatory == old(self).is_mandatory,
            final(self).best_move == old(self).best_move,
            final(self).depth == old(self).depth,
            final(self).seldepth == old(self).seldepth,
            final(self).pv == old(self).pv,
            final(self).stats == old(self).stats,
            !old(self).is_mandatory && limits.nodes is Some && old(self).nodes % 2048 == 0 && old(self).nodes
                >= limits.nodes.unwrap() ==> final(self).abort,
            !old(self).is_mandatory && limits.mate is Some && mate_depth(old(self).score as int) is Some && mate_depth(
                old(self).score as int,
            ).unwrap() > 0 && mate_depth(old(self).score as int).unwrap() <= limits.mate.unwrap() ==> final(self).abort,
            exists|stop: bool, ms: u64| final(self).abort == #[trigger] limit_reached(*old(self), *limits, stop, ms),
    {
        proof {
            reveal(limit_reached);
        }
        if self.is_mandatory {
            assert(self.abort == limit_reached(*old(self), *limits, false, 0));
            return;
        }
        let stop = stop_requested(&limits.stop_signal);
        let ms: u64 = if !stop && self.nodes % 2048 == 0 && limits.hard_time.is_some() {
            elapsed_ms(&self.start_time)
        } else {
            0
        };
        self.apply_limits(limits, stop, ms);
        proof {
            reveal(limit_reached);
            assert(self.abort == limit_reached(*old(self), *limits, stop, ms));
        }
    }

    /// Sets `abort` from what was read of the outside: `stop`, whether the
    /// stop flag is raised, and `ms`, the milliseconds since the search
    /// began. Exactly `limit_reached` decides.
    pub fn apply_limits(&mut self, limits: &SearchLimits, stop: bool, ms: u64)
        ensures
            final(self).abort == limit_reached(*old(self), *limits, stop, ms),
            final(self).nodes == old(self).nodes,
            final(self).score == old(self).score,
            final(self).is_mandatory == old(self).is_mandatory,
            final(self).best_move == old(self).best_move,
            final(self).depth == old(self).depth,
            final(self).seldepth == old(self).seldepth,
            final(self).pv == old(self).pv,
            final(self).stats == old(self).stats,
    {
        proof {
            reveal(limit_reached);
        }
        if self.is_mandatory {
            return;
        }
        if stop {
            self.abort = true;
            return;
        }
        match limits.mate {
            Some(mate) => match self.get_mate_depth() {
                Some(m) => {
                    if m > 0 && (m as u16) <= mate {
                        self.abort = true;
                    }
                },
                None => {},
            },
            None => {},
        }
        if self.nodes % 2048 == 0 {
            match limits.nodes {
                Some(nodes) => {
                    if self.nodes >= nodes {
                        self.abort = true;
                    }
                },
                None => {},
            }
            match limits.hard_time {
                Some(limit) => {
                    if ms >= limit {
                        self.abort = true;
                    }
                },
                None => {},
            }
        }
    }
}

/// Whether a search in state `i` under `l` stops, given whether the stop
/// flag is raised and the milliseconds since it began: once stopped it
/// stays stopped; a mandatory search never stops; otherwise the stop flag,
/// a mate within `l.mate` moves, or, when the node count is a multiple of
/// 2048, the node limit or the hard time limit.
#[verifier::opaque]
pub open spec fn limit_reached(i: SearchInfo, l: SearchLimits, stop: bool, ms: u64) -> bool {
    i.abort || (!i.is_mandatory && (stop || (l.mate is Some && mate_depth(i.score as int) is Some && 0 < mate_depth(
        i.score as int,
    ).unwrap() <= l.mate.unwrap()) || (i.nodes % 2048 == 0 && ((l.nodes is Some && i.nodes >= l.nodes.unwrap()) || (
    l.hard_time is Some && ms >= l.hard_time.unwrap())))))
}

/// When a search must stop: depth, nodes, mate distance, a hard and a
/// soft time in milliseconds, or never; and the flag that stops it.
pub struct SearchLimits {
    pub depth: Option<u16>,
    pub nodes: Option<u64>,
    pub mate: Option<u16>,
    pub hard_time: Option<u64>,
    pub soft_time: Option<u64>,
    pub infinite: bool,
    pub start_time: Instant,
    pub stop_signal: Arc<AtomicBool>,
}

impl SearchLimits {
    /// No limit at all.
    pub fn default() -> (r: Self)
        ensures
            r.depth is None && r.nodes is None && r.mate is None && r.hard_time is None && r.soft_time is None
                && !r.infinite,
    {
        SearchLimits {
            soft_time: None,
            hard_time: None,
            depth: None,
            nodes: None,
            mate: None,
            infinite: false,
            start_time: now(),
            stop_signal: Arc::new(AtomicBool::new(false)),
        }
    }

    /// Limits for a `go` command: `infinite` sets none (but the depth), a
    /// node count or a mate distance is the only limit, `movetime` is both
    /// time limits, and otherwise the clock of the side to move is shared
    /// out over the moves to go.
    pub fn from_go(ctrl: &GoControl, stm: Color) -> (r: Self)
        requires
            go_clock_ok(ctrl, stm),
        ensures
            r.depth == ctrl.depth,
            r.infinite == ctrl.infinite,
            ctrl.infinite ==> r.nodes is None && r.mate is None && r.hard_time is None && r.soft_time is None,
            !ctrl.infinite && ctrl.nodes is Some ==> r.nodes == ctrl.nodes && r.mate is None && r.hard_time is None
                && r.soft_time is None,
            !ctrl.infinite && ctrl.nodes is None && ctrl.mate is Some ==> r.mate == Some(ctrl.mate.unwrap() as u16)
                && r.nodes is None && r.hard_time is None && r.soft_time is None,
            !ctrl.infinite && ctrl.nodes is None && ctrl.mate is None && ctrl.movetime is Some ==> r.soft_time
                == ctrl.movetime && r.hard_time == ctrl.movetime && r.nodes is None && r.mate is None,
            !ctrl.infinite && ctrl.nodes is None && ctrl.mate is None && ctrl.movetime is None ==> r.nodes is None
                && r.mate is None && clock_limits(ctrl, stm, r.soft_time, r.hard_time),
    {
        let mut limits = SearchLimits::default();
        limits.depth = ctrl.depth;
        limits.infinite = ctrl.infinite;
        if ctrl.infinite {
            return limits;
        }
        match ctrl.nodes {
            Some(nodes) => {
                limits.nodes = Some(nodes);
                return limits;
            },
            None => {},
        }
        match ctrl.mate {
            Some(mate) => {
                limits.mate = Some(mate as u16);
                return limits;
            },
            None => {},
        }
        match ctrl.movetime {
            Some(ms) => {
                limits.soft_time = Some(ms);
                limits.hard_time = Some(ms);
                return limits;
            },
            None => {},
        }
        let (time_left, increment) = match stm {
            Color::White => (unwrap_or_zero(ctrl.wtime), unwrap_or_zero(ctrl.winc)),
            Color::Black => (unwrap_or_zero(ctrl.btime), unwrap_or_zero(ctrl.binc)),
        };
        let safe_time_left = time_left.saturating_sub(50);
        if safe_time_left > 0 {
            let moves_to_go = match ctrl.movestogo {
                Some(m) => m,
                None => 30,
            };
            let base_time = safe_time_left / moves_to_go;
            let inc_time = increment * 3 / 4;
            let allocated = base_time + inc_time;
            limits.soft_time = Some(allocated * 6 / 10);
            let doubled = allocated * 2;
            let at_least = if doubled > 20 {
                doubled
            } else {
                20
            };
            let cap = safe_time_left * 8 / 10;
            let hard_limit = if at_least < cap {
                at_least
            } else {
                cap
            };
            limits.hard_time = Some(hard_limit);
        } else if time_left > 0 {
            limits.soft_time = Some(1);
            let left = time_left.saturating_sub(5);
            limits.hard_time = Some(if left > 1 {
                left
            } else {
                1
            });
        }
        limits
    }

    /// A depth limit only.
    pub fn with_depth(depth: u16) -> (r: Self)
        ensures
            r.depth == Some(depth) && r.nodes is None && r.mate is None && r.hard_time is None && r.soft_time is None
                && !r.infinite,
    {
        let mut limits = Self::default();
        limits.depth = Some(depth);
        limits
    }

    /// Both time limits `movetime` milliseconds.
    pub fn with_movetime(movetime: u64) -> (r: Self)
        ensures
            r.soft_time == Some(movetime) && r.hard_time == Some(movetime) && r.depth is None && r.nodes is None
                && r.mate is None && !r.infinite,
    {
        let mut limits = Self::default();
        limits.soft_time = Some(movetime);
        limits.hard_time = Some(movetime);
        limits
    }
}

fn unwrap_or_zero(x: Option<u64>) -> (r: u64)
    ensures
        r == (match x {
            Some(v) => v,
            None => 0u64,
        }),
{
    match x {
        Some(v) => v,
        None => 0,
    }
}

/// The clock and increment of the side to move, 0 when not given.
pub open spec fn clock_of(ctrl: &GoControl, stm: Color) -> (int, int) {
    if stm == Color::White {
        (match ctrl.wtime { Some(v) => v as int, None => 0 }, match ctrl.winc { Some(v) => v as int, None => 0 })
    } else {
        (match ctrl.btime { Some(v) => v as int, None => 0 }, match ctrl.binc { Some(v) => v as int, None => 0 })
    }
}

/// The clock arithmetic of `from_go` is defined: it divides by a nonzero
/// number of moves to go and no product overflows 64 bits.
pub open spec fn go_clock_ok(ctrl: &GoControl, stm: Color) -> bool {
    let (time_left, increment) = clock_of(ctrl, stm);
    let safe = if time_left > 50 { time_left - 50 } else { 0 };
    let mtg: int = match ctrl.movestogo { Some(m) => m as int, None => 30 };
    (!ctrl.infinite && ctrl.nodes is None && ctrl.mate is None && ctrl.movetime is None && safe > 0) ==> {
        &&& mtg != 0
        &&& increment * 3 <= u64::MAX
        &&& safe * 8 <= u64::MAX
        &&& (safe / mtg + increment * 3 / 4) * 6 <= u64::MAX
    }
}

/// The clock share of a `go` command: with more than 50 ms left, the time
/// left less 50 ms over the moves to go (30 if not given) plus three
/// quarters of the increment; 60% of that is the soft limit and twice it,
/// at least 20 ms and at most 80% of the safe time, the hard limit. With
/// 50 ms or less (but some) left: 1 ms soft, the time left less 5 ms (at
/// least 1) hard. No time left: no limit.
pub open spec fn clock_limits(ctrl: &GoControl, stm: Color, soft: Option<u64>, hard: Option<u64>) -> bool {
    let (time_left, increment) = clock_of(ctrl, stm);
    let safe = if time_left > 50 { time_left - 50 } else { 0 };
    let mtg: int = match ctrl.movestogo { Some(m) => m as int, None => 30 };
    if safe > 0 {
        let allocated = safe / mtg + increment * 3 / 4;
        let at_least = if allocated * 2 > 20 { allocated * 2 } else { 20 };
        let cap = safe * 8 / 10;
        soft == Some((allocated * 6 / 10) as u64) && hard == Some((if at_least < cap { at_least } else { cap }) as u64)
    } else if time_left > 0 {
        soft == Some(1u64) && hard == Some((if time_left - 5 > 1 { time_left - 5 } else { 1 }) as u64)
    } else {
        soft is None && hard is None
    }
}

/// The network input at `ply` of an accumulator table: the side to
/// move's 256 values first, then the other side's.
pub open spec fn ply_input(table: Seq<i16>, ply: int, side: Color) -> Seq<i16> {
    Seq::new(512, |j: int| {
        let c: int = if (j < 256) == (side == Color::White) { 0 } else { 1 };
        table[crate::engine::acc_slot(ply, c, j % 256)]
    })
}

/// With the accumulators of `ply` exact for `v`, the network's input that
/// the engine reads at `ply` is the input that `Network::evaluate` builds
/// from scratch for `v`: the engine's evaluation is the network's.
pub proof fn lemma_exact_acc_input(table: Seq<i16>, ply: int, net: &Network, v: BoardView)
    requires
        crate::network::acc_exact(table, ply, net, v),
    ensures
        ply_input(table, ply, v.side) == crate::network::board_input(net, v, king_square(v, 8), king_square(v, 16)),
{
    let w = Seq::new(256, |i: int| crate::network::acc_value(net.b1@, net.w1@, v, king_square(v, 8), true, i));
    let b = Seq::new(256, |i: int| crate::network::acc_value(net.b1@, net.w1@, v, king_square(v, 16), false, i));
    let x = ply_input(table, ply, v.side);
    let y = crate::network::board_input(net, v, king_square(v, 8), king_square(v, 16));
    assert forall|j: int| 0 <= j < 512 implies x[j] == y[j] by {
        let i = j % 256;
        assert(table[crate::engine::acc_slot(ply, 0, i)] == w[i]);
        assert(table[crate::engine::acc_slot(ply, 1, i)] == b[i]);
    }
    assert(x =~= y);
}

/// The engine's static evaluation at `ply`, from the side to move: the
/// network's output on the accumulators of `ply`, or without a network the
/// hand-written evaluation, within the evaluation bound.
pub open spec fn static_eval(e: Engine, ply: int) -> int {
    match e.network {
        Some(net) => crate::engine::clamp(
            output_cp(forward_spec(&net, ply_input(e.accumulators.table@, ply, e.board@.side))),
            -EVAL_BOUND as int,
            EVAL_BOUND as int,
        ),
        None => crate::engine::clamp(hce_spec(e.board@, occupancy_of(e.board@)), -EVAL_BOUND as int, EVAL_BOUND as int),
    }
}

/// A mandatory search stays mandatory and is never aborted.
pub open spec fn mandatory_kept(after: SearchInfo, before: SearchInfo) -> bool {
    &&& after.is_mandatory == before.is_mandatory
    &&& before.is_mandatory ==> after.abort == before.abort
}

/// The largest static evaluation: just below the mate scores.
pub const EVAL_BOUND: i32 = 26_871;

/// A score the search can return.
pub open spec fn score_ok(x: int) -> bool {
    -INF <= x <= INF
}

/// Where a search call stands in the tree and the window it searches.
#[derive(Clone, Copy)]
pub struct SearchParams {
    pub depth: u16,
    pub alpha: i32,
    pub beta: i32,
    pub ply: i32,
    pub extension: u8,
    pub prev_move: Move,
    pub excluded_move: Move,
}

impl SearchParams {
    pub open spec fn ok(&self) -> bool {
        &&& score_ok(self.alpha as int)
        &&& score_ok(self.beta as int)
        &&& 0 <= self.ply < MAX_PLY
    }
}

/// What stays put while a search runs: the keys, the tables the
/// evaluation reads, and the network.
pub open spec fn same_setup(a: &Engine, b: &Engine) -> bool {
    &&& a.keys == b.keys
    &&& a.pesto == b.pesto
    &&& a.lmr == b.lmr
    &&& a.network == b.network
    &&& a.board == b.board
    &&& a.game_history@ == b.game_history@
}

impl Engine {
    /// The static evaluation from the side to move's point of view, kept
    /// within `EVAL_BOUND`: the network's on the accumulators of `ply`
    /// (the side to move's first) when there is a network, else the
    /// hand-written one (`hce_spec`).
    pub fn evaluate(&mut self, ply: usize) -> (r: i32)
        requires
            old(self).wf(),
            sane(old(self).board),
            ply < MAX_PLY,
        ensures
            final(self).wf(),
            same_setup(final(self), old(self)),
            final(self).board == old(self).board,
            final(self).accumulators == old(self).accumulators,
            -EVAL_BOUND <= r <= EVAL_BOUND,
            old(self).network is None ==> forall|occ: u64| (forall|t: int| 0 <= t < 64 ==> #[trigger] bit(occ, t)
                == (old(self).board@.pieces[t] != 0)) ==> r == crate::engine::clamp(
                hce_spec(old(self).board@, occ),
                -EVAL_BOUND as int,
                EVAL_BOUND as int,
            ),
            old(self).network matches Some(net) ==> r == crate::engine::clamp(
                output_cp(forward_spec(&net, ply_input(old(self).accumulators.table@, ply as int, old(self).board@.side))),
                -EVAL_BOUND as int,
                EVAL_BOUND as int,
            ),
            r == static_eval(*old(self), ply as int),
    {
        proof {
            self.board.lemma_occ_exists();
        }
        let score = match &self.network {
            Some(nn) => {
                let acc = self.accumulators.get(ply);
                let white = self.board.side_to_move() == Color::White;
                let mut input: Vec<i16> = Vec::new();
                let mut k: usize = 0;
                while k < 512
                    invariant
                        k <= 512,
                        input@.len() == k,
                        forall|j: int| 0 <= j < k ==> #[trigger] input@[j] == (if (j < 256) == white {
                            acc[0][j % 256]
                        } else {
                            acc[1][j % 256]
                        }),
                    decreases 512 - k,
                {
                    let x = if (k < 256) == white {
                        acc[0][k % 256]
                    } else {
                        acc[1][k % 256]
                    };
                    input.push(x);
                    k += 1;
                }
                assert(input@ =~= ply_input(self.accumulators.table@, ply as int, self.board@.side));
                nn.eval_with_acc(&mut self.eval_buf, input.as_slice())
            },
            None => crate::evaluation::evaluate(&self.board, &self.pesto),
        };
        if score > EVAL_BOUND {
            EVAL_BOUND
        } else if score < -EVAL_BOUND {
            -EVAL_BOUND
        } else {
            score
        }
    }

    /// The Zobrist key of the current position.
    pub fn zob(&self) -> (r: u64)
        requires
            self.wf(),
        ensures
            r == crate::position::zob_spec(self.board@, self.keys),
    {
        zob_key(&self.board, &self.keys)
    }

    /// Whether the current position occurred before on the line played.
    pub fn is_draw(&self, key: u64) -> (r: bool)
        requires
            self.wf(),
        ensures
            r == self.game_history@.contains(key),
    {
        let n = self.game_history.len();
        let mut i: usize = 0;
        while i < n
            invariant
                i <= n,
                n == self.game_history@.len(),
                self.wf(),
                forall|j: int| 0 <= j < i ==> self.game_history@[j] != key,
            decreases n - i,
        {
            if self.game_history.get(i) == key {
                return true;
            }
            i += 1;
        }
        false
    }

    /// Records `key` on the line before a move; `false` when the record is full.
    fn push_key(&mut self, key: u64) -> (pushed: bool)
        requires
            old(self).wf(),
        ensures
            final(self).wf(),
            pushed ==> final(self).game_history@ == old(self).game_history@.push(key),
            !pushed ==> final(self).game_history@ == old(self).game_history@,
            final(self).board == old(self).board,
            final(self).keys == old(self).keys,
            final(self).pesto == old(self).pesto,
            final(self).lmr == old(self).lmr,
            final(self).network == old(self).network,
            final(self).shared.tt == old(self).shared.tt,
    {
        if self.game_history.len() < 1024 {
            self.game_history.push(key);
            true
        } else {
            false
        }
    }

    /// Takes back what `push_key` recorded.
    fn pop_key(&mut self, pushed: bool, Ghost(before): Ghost<Seq<u64>>, Ghost(key): Ghost<u64>)
        requires
            old(self).wf(),
            pushed ==> old(self).game_history@ == before.push(key),
            !pushed ==> old(self).game_history@ == before,
        ensures
            final(self).wf(),
            final(self).game_history@ == before,
            final(self).board == old(self).board,
            final(self).keys == old(self).keys,
            final(self).pesto == old(self).pesto,
            final(self).lmr == old(self).lmr,
            final(self).network == old(self).network,
            final(self).shared.tt == old(self).shared.tt,
    {
        if pushed {
            self.game_history.pop();
        }
    }

    /// A transposition-table score read back at `ply`: mate scores made
    /// relative to this ply again, then kept within `INF`.
    fn tt_score_at(score: i16, ply: i32) -> (r: i32)
        requires
            0 <= ply < MAX_PLY,
        ensures
            score_ok(r as int),
    {
        let mut s = score as i32;
        if s > (MATE - MAX_PLY as i16) as i32 {
            s -= ply;
        }
        if s < (-MATE + MAX_PLY as i16) as i32 {
            s += ply;
        }
        if s > INF as i32 {
            INF as i32
        } else if s < -(INF as i32) {
            -(INF as i32)
        } else {
            s
        }
    }

    /// Stores a quiescence result (depth 0), mate scores made relative to
    /// the root.
    fn q_tt_store(&mut self, flag: TTFlag, score: i32, mv: Move, ply: i32)
        requires
            old(self).wf(),
            score_ok(score as int),
            0 <= ply < MAX_PLY,
        ensures
            final(self).wf(),
            same_setup(final(self), old(self)),
    {
        let mut score_to_store = score;
        if score_to_store > (MATE - MAX_PLY as i16) as i32 {
            score_to_store += ply;
        }
        if score_to_store < (-MATE + MAX_PLY as i16) as i32 {
            score_to_store -= ply;
        }
        let key = self.zob();
        let age = self.shared.tt.get_generation();
        self.shared.tt.store(TTEntry { key, depth: 0, score: score_to_store, flag, best_move: mv, age });
    }

    /// Makes `mv` the first killer at `ply`.
    fn store_killer(&mut self, mv: Move, ply: usize)
        requires
            old(self).wf(),
            ply < MAX_PLY,
        ensures
            final(self).wf(),
            same_setup(final(self), old(self)),
    {
        self.killers.update(mv, ply as i32);
    }

    /// Searches only captures and promotions (all moves when in check)
    /// until the position is quiet, from `params.ply`.
    #[verifier::rlimit(60)]
    pub fn quiescence(&mut self, params: SearchParams, info: &mut SearchInfo, limits: &SearchLimits) -> (r: i32)
        requires
            old(self).wf(),
            sane(old(self).board),
            params.ok(),
        ensures
            mandatory_kept(*final(info), *old(info)),
            old(info).abort ==> final(info).abort,
            final(self).wf(),
            same_setup(final(self), old(self)),
            score_ok(r as int),
            node_entered(*old(info), *final(info), params) && repeated(*old(self)) ==> r == 0,
            node_entered(*old(info), *final(info), params) && !repeated(*old(self))
                && stored_move(old(self).shared.tt, zob_spec(old(self).board@, old(self).keys)) is None
                && crate::position::in_check_spec(old(self).board@) && no_legal_move(old(self).board@)
                ==> r == -MATE + params.ply,
            stand_pat_kept(*old(self), *old(info), *final(info), params, r as int),
        decreases MAX_PLY - params.ply, 0int,
    {
        let ghost entry = *old(self);
        let ghost stand = !old(info).abort && window_open(params) && params.ply + 1 < MAX_PLY && !repeated(*old(self))
            && stored_move(old(self).shared.tt, zob_spec(old(self).board@, old(self).keys)) is None
            && !crate::position::in_check_spec(old(self).board@);
        info.check_limits(limits);
        let ply = params.ply;
        let mut alpha = params.alpha;
        let mut beta = params.beta;
        if info.abort {
            return alpha;
        }
        info.nodes = info.nodes.saturating_add(1);
        info.stats.q_nodes = bump(info.stats.q_nodes);
        if (ply as u16) > info.seldepth {
            info.seldepth = ply as u16;
        }
        let mated = -(MATE as i32) + ply;
        let mating = (MATE as i32) - ply;
        if alpha < mated {
            alpha = mated;
        }
        if beta > mating {
            beta = mating;
        }
        if alpha >= beta {
            return alpha;
        }
        if ply + 1 >= MAX_PLY as i32 {
            return self.evaluate(ply as usize);
        }
        let key = self.zob();
        if self.is_draw(key) {
            proof {
                reveal(repeated);
            }
            return 0;
        }
        proof {
            reveal(repeated);
        }
        let mut tt_move = Move::null();
        let mut tt_score: Option<i32> = None;
        let mut tt_flag: Option<TTFlag> = None;
        info.stats.tt_probes = bump(info.stats.tt_probes);
        match self.shared.tt.probe(key) {
            Some(entry) => {
                info.stats.tt_hits = bump(info.stats.tt_hits);
                tt_move = entry.best_move();
                let score = Self::tt_score_at(entry.score(), ply);
                tt_score = Some(score);
                let flag = entry.flag();
                tt_flag = Some(flag);
                match flag {
                    TTFlag::Exact => {
                        info.stats.tt_exact_cutoffs = bump(info.stats.tt_exact_cutoffs);
                        return score;
                    },
                    TTFlag::LowerBound => {
                        if score > alpha {
                            alpha = score;
                        }
                    },
                    TTFlag::UpperBound => {
                        if score < beta {
                            beta = score;
                        }
                    },
                }
                if alpha >= beta {
                    info.stats.tt_bound_cutoffs = bump(info.stats.tt_bound_cutoffs);
                    return score;
                }
            },
            None => {},
        }
        let in_check = self.board.in_check();
        let mut best_score = -(INF as i32);
        let mut stand_pat = self.evaluate(ply as usize);
        if !in_check {
            match tt_score {
                Some(score) => {
                    if tt_flag == Some(TTFlag::UpperBound) && stand_pat > score {
                        stand_pat = score;
                    }
                    if tt_flag == Some(TTFlag::LowerBound) && stand_pat < score {
                        stand_pat = score;
                    }
                },
                None => {},
            }
            best_score = stand_pat;
            if stand_pat >= beta {
                self.q_tt_store(TTFlag::LowerBound, stand_pat, tt_move, ply);
                return stand_pat;
            }
            if stand_pat > alpha {
                alpha = stand_pat;
            }
        }
        let qsearch_picker = !in_check;
        let orig_alpha = alpha;
        let mut best_move_this_node = Move::null();
        let killers = self.killers.get(ply);
        let mut picker = MovePicker::new(tt_move, killers, params.prev_move, qsearch_picker);
        let mut mv_searched: usize = 0;
        let ghost e0 = *self;
        loop
            invariant
                mandatory_kept(*info, *old(info)),
                self.wf(),
                sane(self.board),
                same_setup(self, &e0),
                same_setup(&e0, old(self)),
                picker.wf_for(self.board@),
                0 <= ply < MAX_PLY - 1,
                ply == params.ply,
                score_ok(alpha as int),
                score_ok(beta as int),
                score_ok(best_score as int),
                score_ok(orig_alpha as int),
                -EVAL_BOUND <= stand_pat <= EVAL_BOUND || score_ok(stand_pat as int),
                no_legal_move(self.board@) ==> mv_searched == 0,
                !(!old(info).abort && window_open(params) && params.ply + 1 < MAX_PLY && repeated(*old(self))),
                old(info).abort ==> info.abort,
                entry == *old(self),
                stand == (!old(info).abort && window_open(params) && params.ply + 1 < MAX_PLY && !repeated(*old(self))
                    && stored_move(old(self).shared.tt, zob_spec(old(self).board@, old(self).keys)) is None
                    && !crate::position::in_check_spec(old(self).board@)),
                stand ==> !in_check && best_score >= stand_pat && stand_pat < beta && stand_pat == static_eval(entry, ply as int),
            decreases 8 - picker.phase(), picker.remaining(),
        {
            let next = self.pick_next_mv(&mut picker);
            let mv = match next {
                None => {
                    break;
                },
                Some(m) => m,
            };
            let ghost b0 = self.board;
            let gives_check = self.board.gives_check(mv);
            if !in_check && !mv.flag().is_promo() {
                if !gives_check && self.board.see(&mv) < 0 {
                    continue;
                }
                let gain: i32 = if mv.flag().0 == MoveFlag::EN_PASSANT {
                    100
                } else {
                    proof {
                        self.board.lemma_cells_pub();
                        assert(crate::board::cell_ok(self.board@.pieces[mv.spec_to()]));
                        if self.board@.pieces[mv.spec_to()] != 0 {
                            crate::board::lemma_piece_code(self.board@.pieces[mv.spec_to()]);
                        }
                    }
                    let cap_piece = self.board.piece_on(mv.to());
                    get_see_value(cap_piece)
                };
                if !gives_check && stand_pat + gain + 200 < alpha {
                    continue;
                }
            }
            let pushed = self.push_key(key);
            let ghost hist_before = e0.game_history@;
            proof {
                lemma_make_undo(b0, mv);
            }
            let undo = self.board.make_move(&mv);
            proof {
                lemma_sane_child(b0, mv, self.board);
            }
            self.update_nnue(&mv, &undo, ply as usize);
            let mv_idx = mv_searched;
            mv_searched = mv_searched.saturating_add(1);
            proof {
                reveal(no_legal_move);
                assert(good_move(b0@, mv));
            }
            let score = -self.quiescence(
                SearchParams { alpha: -beta, beta: -alpha, ply: ply + 1, prev_move: mv, ..params },
                info,
                limits,
            );
            self.board.undo_move(&mv, &undo);
            proof {
                Board::lemma_view_determines(self.board, b0);
            }
            self.pop_key(pushed, Ghost(hist_before), Ghost(key));
            if info.abort {
                return best_score;
            }
            if score > best_score {
                best_move_this_node = mv;
                best_score = score;
            }
            if score >= beta {
                info.stats.q_beta_cutoffs = bump(info.stats.q_beta_cutoffs);
                if mv_idx < 256 {
                    info.stats.q_cutoffs_by_idx[mv_idx] = bump(info.stats.q_cutoffs_by_idx[mv_idx]);
                }
                self.q_tt_store(TTFlag::LowerBound, score, mv, ply);
                return score;
            }
            if score > alpha {
                alpha = score;
            }
        }
        if !qsearch_picker && mv_searched == 0 {
            let score = -(MATE as i32) + ply;
            self.q_tt_store(TTFlag::Exact, score, tt_move, ply);
            return score;
        }
        let flag = if best_score <= orig_alpha {
            TTFlag::UpperBound
        } else {
            TTFlag::Exact
        };
        if !info.abort {
            self.q_tt_store(flag, best_score, best_move_this_node, ply);
        }
        best_score
    }
}

/// The side to move has no knight, bishop, rook or queen.
pub open spec fn king_and_pawns_only(v: BoardView) -> bool {
    forall|s: int| 0 <= s < 64 ==> !(#[trigger] v.pieces[s] == crate::movegen::own_color(v) + 2
        || v.pieces[s] == crate::movegen::own_color(v) + 3 || v.pieces[s] == crate::movegen::own_color(v) + 4
        || v.pieces[s] == crate::movegen::own_color(v) + 5)
}

impl Board {
    /// Whether the side to move has only its king and pawns.
    pub fn is_endgame(&self) -> (r: bool)
        requires
            self.wf(),
        ensures
            r == king_and_pawns_only(self@),
    {
        let own: u8 = if self.side_to_move() == Color::White {
            8
        } else {
            16
        };
        let mut s: usize = 0;
        while s < 64
            invariant
                s <= 64,
                own == crate::movegen::own_color(self@),
                forall|q: int| 0 <= q < s ==> !(#[trigger] self@.pieces[q] == own + 2 || self@.pieces[q] == own + 3
                    || self@.pieces[q] == own + 4 || self@.pieces[q] == own + 5),
            decreases 64 - s,
        {
            let p = self.piece_on(s);
            if p == own + 2 || p == own + 3 || p == own + 4 || p == own + 5 {
                return false;
            }
            s += 1;
        }
        true
    }
}

impl Engine {
    /// Moves the history entry of a quiet move toward `bonus`.
    fn history_add(&mut self, stm: usize, mv: Move, bonus: i32)
        requires
            old(self).wf(),
            stm < 2,
            -400 <= bonus <= 400,
        ensures
            final(self).wf(),
            same_setup(final(self), old(self)),
    {
        let h = self.history.get(stm, mv.from(), mv.to());
        proof {
            crate::engine::lemma_gravity_fits(h as int, bonus as int, 20000);
        }
        self.history.update(stm, mv.from(), mv.to(), bonus);
    }

    /// Moves the continuation entry of `mv` after `prev_mv` toward `bonus`,
    /// when `prev_mv` left a piece behind.
    fn cont_add(&mut self, prev_mv: Move, mv: Move, bonus: i32)
        requires
            old(self).wf(),
            crate::items::is_piece(old(self).board@.pieces[mv.spec_from()]),
            -400 <= bonus <= 400,
        ensures
            final(self).wf(),
            same_setup(final(self), old(self)),
    {
        if prev_mv.0 == 0 || self.board.piece_on(prev_mv.to()) == 0 {
            return;
        }
        proof {
            self.board.lemma_cells_pub();
            assert(crate::board::cell_ok(self.board@.pieces[prev_mv.spec_to()]));
        }
        self.continuation_history.update(&self.board, prev_mv, mv, bonus);
    }

    /// Null-move pruning: when the side to move is not in check and stands
    /// at or above `beta` even after passing, a reduced search that still
    /// reaches `beta` cuts the node. Returns that score (mate scores become
    /// `beta`), or `None`.
    fn nmp_search(&mut self, params: SearchParams, limits: &SearchLimits, info: &mut SearchInfo, static_eval: i32) -> (r:
        Option<i32>)
        requires
            old(self).wf(),
            sane(old(self).board),
            params.ok(),
            params.ply + 1 < MAX_PLY,
        ensures
            mandatory_kept(*final(info), *old(info)),
            final(self).wf(),
            same_setup(final(self), old(self)),
            r matches Some(x) ==> score_ok(x as int),
            r is Some ==> params.depth > 3 && params.excluded_move.0 == 0 && static_eval >= params.beta
                && !crate::position::in_check_spec(old(self).board@) && !king_and_pawns_only(old(self).board@)
                && -(MATE - MAX_PLY) < params.beta < MATE - MAX_PLY,
            r matches Some(x) ==> params.beta <= x < MATE - MAX_PLY,
        decreases MAX_PLY - params.ply, 0int,
    {
        let depth = params.depth;
        let beta = params.beta;
        let ply = params.ply;
        let mate_bound = (MATE - MAX_PLY as i16) as i32;
        let beta_abs = if beta < 0 {
            -beta
        } else {
            beta
        };
        if depth > 3 && params.excluded_move.0 == 0 && beta_abs < mate_bound && static_eval >= beta
            && !self.board.in_check() && !self.board.is_endgame() {
            info.stats.nmp_attemps = bump(info.stats.nmp_attemps);
            let r = 3 + depth / 6;
            let nmp_depth = (depth - 1).saturating_sub(r);
            let ghost b0 = self.board;
            proof {
                self.board.lemma_cells_pub();
            }
            let old_epsq = self.board.make_null_move();
            proof {
                crate::position::lemma_sane_null(b0, self.board);
            }
            self.update_nnue_null_move(ply as usize);
            let score = -self.negamax(
                SearchParams {
                    depth: nmp_depth,
                    alpha: -beta,
                    beta: -beta + 1,
                    ply: ply + 1,
                    extension: params.extension,
                    prev_move: Move::null(),
                    excluded_move: Move::null(),
                },
                limits,
                info,
            );
            self.board.unmake_null_move(old_epsq);
            proof {
                assert(self.board@ =~= b0@);
                Board::lemma_view_determines(self.board, b0);
            }
            if score >= beta {
                info.stats.nmp_cutoffs = bump(info.stats.nmp_cutoffs);
                return Some(if score >= mate_bound {
                    beta
                } else {
                    score
                });
            }
        }
        None
    }

    /// Searches one move already made, the first with the full window, the
    /// others with a null window at a reduced depth (late-move reductions
    /// tuned by history), widening when they beat `alpha`. Extends by one
    /// ply when the move gives check, at most twice on a line.
    fn pv_search(&mut self, mv: Move, mv_idx: usize, quiet_searched: usize, params: SearchParams, limits:
        &SearchLimits, info: &mut SearchInfo) -> (r: i32)
        requires
            old(self).wf(),
            sane(old(self).board),
            params.ok(),
            params.alpha < params.beta,
            params.ply + 1 < MAX_PLY,
            params.depth >= 1,
        ensures
            mandatory_kept(*final(info), *old(info)),
            final(self).wf(),
            same_setup(final(self), old(self)),
            score_ok(r as int),
            mv_idx == 0 && node_entered(*old(info), *final(info), child_window(params, mv)) && repeated(*old(self)) ==> r == 0,
            mv_idx == 0 && node_entered(*old(info), *final(info), child_window(params, mv)) && !repeated(*old(self)) && params.depth >= 2
                && stored_move(old(self).shared.tt, zob_spec(old(self).board@, old(self).keys)) is None
                && no_legal_move(old(self).board@) && crate::position::in_check_spec(old(self).board@)
                ==> r == MATE - (params.ply + 1),
        decreases MAX_PLY - params.ply, 0int,
    {
        info.check_limits(limits);
        let depth = params.depth;
        let alpha = params.alpha;
        let beta = params.beta;
        let ply = params.ply;
        let prev_move = params.prev_move;
        let in_check = self.board.in_check();
        let (extension, next_extensions): (u16, u8) = if in_check && params.extension < 2 {
            (1, params.extension + 1)
        } else {
            (0, params.extension)
        };
        if mv_idx == 0 {
            return -self.negamax(
                SearchParams {
                    depth: depth - 1 + extension,
                    alpha: -beta,
                    beta: -alpha,
                    ply: ply + 1,
                    extension: next_extensions,
                    prev_move: mv,
                    excluded_move: Move::null(),
                },
                limits,
                info,
            );
        }
        let can_reduce = quiet_searched > 1 && depth > 3 && !in_check && mv.flag().is_quiet();
        let reduction: u16 = if can_reduce {
            info.stats.lmr_attempts = bump(info.stats.lmr_attempts);
            let table_depth: usize = if (depth as usize) < MAX_PLY - 1 {
                depth as usize
            } else {
                MAX_PLY - 1
            };
            let table_idx: usize = if mv_idx < 255 {
                mv_idx
            } else {
                255
            };
            let mut r = self.lmr[table_depth * 256 + table_idx];
            let adjustment_fac = crate::engine::MAX_HISTORY / 4;
            let stm = self.board.side_to_move().opponent().val();
            let cont_hist: i32 = if prev_move.0 != 0 && mv.0 != 0 && self.board.piece_on(prev_move.to()) != 0
                && self.board.piece_on(mv.to()) != 0 {
                proof {
                    self.board.lemma_cells_pub();
                    assert(crate::board::cell_ok(self.board@.pieces[prev_move.spec_to()]));
                    assert(crate::board::cell_ok(self.board@.pieces[mv.spec_to()]));
                }
                self.continuation_history.get_after_mv(&self.board, prev_move, mv) as i32
            } else {
                0
            };
            let hist_score = self.history.get(stm, mv.from(), mv.to()) + cont_hist;
            let hist_adjustment = hist_score / adjustment_fac;
            let adj = if hist_adjustment < -4 {
                -4
            } else if hist_adjustment > 4 {
                4
            } else {
                hist_adjustment
            };
            r = r - adj;
            let killers = self.killers.get(ply);
            if mv.0 == self.counter_moves.get(prev_move).0 || killers[0].0 == mv.0 || killers[1].0 == mv.0 {
                r = r - 1;
            }
            let hi = depth as i32 - 1;
            let clamped = if r < 1 {
                1
            } else if r > hi {
                hi
            } else {
                r
            };
            clamped as u16
        } else {
            0
        };
        let mut eval = -self.negamax(
            SearchParams {
                depth: depth - 1 - reduction + extension,
                alpha: -alpha - 1,
                beta: -alpha,
                ply: ply + 1,
                extension: next_extensions,
                prev_move: mv,
                excluded_move: Move::null(),
            },
            limits,
            info,
        );
        if reduction > 0 && eval > alpha {
            info.stats.lmr_research = bump(info.stats.lmr_research);
            eval = -self.negamax(
                SearchParams {
                    depth: depth - 1 + extension,
                    alpha: -alpha - 1,
                    beta: -alpha,
                    ply: ply + 1,
                    extension: next_extensions,
                    prev_move: mv,
                    excluded_move: Move::null(),
                },
                limits,
                info,
            );
        }
        if eval > alpha && eval < beta {
            eval = -self.negamax(
                SearchParams {
                    depth: depth - 1 + extension,
                    alpha: -beta,
                    beta: -alpha,
                    ply: ply + 1,
                    extension: next_extensions,
                    prev_move: mv,
                    excluded_move: Move::null(),
                },
                limits,
                info,
            );
        }
        eval
    }

    /// The alpha-beta search of the current position to `params.depth`
    /// plies: mate-distance pruning, transposition-table cutoffs, internal
    /// iterative deepening, reverse futility and null-move pruning,
    /// probcut, singular extensions, then the moves in picker order with
    /// late-move, exchange and futility pruning, updating killers, history
    /// and countermoves on a cutoff and storing the result.
    #[verifier::rlimit(60)]
    pub fn negamax(&mut self, params: SearchParams, limits: &SearchLimits, info: &mut SearchInfo) -> (r: i32)
        requires
            old(self).wf(),
            sane(old(self).board),
            params.ok(),
        ensures
            mandatory_kept(*final(info), *old(info)),
            old(info).abort ==> final(info).abort,
            final(self).wf(),
            same_setup(final(self), old(self)),
            score_ok(r as int),
            node_entered(*old(info), *final(info), params) && repeated(*old(self)) ==> r == 0,
            node_entered(*old(info), *final(info), params) && !repeated(*old(self)) && params.depth >= 1
                && stored_move(old(self).shared.tt, zob_spec(old(self).board@, old(self).keys)) is None
                && no_legal_move(old(self).board@) && crate::position::in_check_spec(old(self).board@)
                ==> r == -MATE + params.ply,
            node_entered(*old(info), *final(info), params) && !repeated(*old(self)) && 1 <= params.depth <= 3
                && params.beta >= MATE - MAX_PLY
                && stored_move(old(self).shared.tt, zob_spec(old(self).board@, old(self).keys)) is None
                && no_legal_move(old(self).board@) && !crate::position::in_check_spec(old(self).board@)
                ==> r == 0,
        decreases MAX_PLY - params.ply, params.depth + 1,
    {
        info.check_limits(limits);
        let depth = params.depth;
        let mut alpha = params.alpha;
        let mut beta = params.beta;
        let ply = params.ply;
        let prev_move = params.prev_move;
        let excluded_move = params.excluded_move;
        if info.abort {
            return alpha;
        }
        info.nodes = info.nodes.saturating_add(1);
        if (ply as u16) > info.seldepth {
            info.seldepth = ply as u16;
        }
        let mated = -(MATE as i32) + ply;
        let mating = (MATE as i32) - ply;
        if alpha < mated {
            alpha = mated;
        }
        if beta > mating {
            beta = mating;
        }
        if alpha >= beta {
            return alpha;
        }
        if ply + 1 >= MAX_PLY as i32 {
            return self.evaluate(ply as usize);
        }
        let key = self.zob();
        if self.is_draw(key) {
            proof {
                reveal(repeated);
            }
            return 0;
        }
        proof {
            reveal(repeated);
        }
        let mate_bound = (MATE - MAX_PLY as i16) as i32;
        let mut tt_move = Move::null();
        let mut tt_depth: u16 = 0;
        let mut tt_score: i32 = 0;
        let mut tt_flag = TTFlag::Exact;
        info.stats.tt_probes = bump(info.stats.tt_probes);
        match self.shared.tt.probe(key) {
            Some(entry) => {
                info.stats.tt_hits = bump(info.stats.tt_hits);
                tt_move = entry.best_move();
                tt_depth = entry.depth();
                tt_flag = entry.flag();
                tt_score = Self::tt_score_at(entry.score(), ply);
                if entry.depth() >= depth && excluded_move.0 == 0 {
                    match tt_flag {
                        TTFlag::Exact => {
                            info.stats.tt_exact_cutoffs = bump(info.stats.tt_exact_cutoffs);
                            return tt_score;
                        },
                        TTFlag::LowerBound => {
                            if tt_score > alpha {
                                alpha = tt_score;
                            }
                        },
                        TTFlag::UpperBound => {
                            if tt_score < beta {
                                beta = tt_score;
                            }
                        },
                    }
                    if alpha >= beta {
                        info.stats.tt_bound_cutoffs = bump(info.stats.tt_bound_cutoffs);
                        return tt_score;
                    }
                }
            },
            None => {},
        }
        if depth >= 5 && tt_move.0 == 0 && excluded_move.0 == 0 {
            info.stats.iid_attempts = bump(info.stats.iid_attempts);
            let _ = self.negamax(
                SearchParams {
                    depth: depth - 2,
                    alpha,
                    beta,
                    ply,
                    extension: 0,
                    prev_move,
                    excluded_move: Move::null(),
                },
                limits,
                info,
            );
            match self.shared.tt.probe(key) {
                Some(entry) => {
                    info.stats.iid_success = bump(info.stats.iid_success);
                    tt_move = entry.best_move();
                },
                None => {},
            }
        }
        if depth == 0 {
            return self.quiescence(SearchParams { alpha, beta, ..params }, info, limits);
        }
        let in_check = self.board.in_check();
        let static_eval = self.evaluate(ply as usize);
        self.eval_history.update(static_eval as i16, in_check, ply as usize);
        let beta_abs = if beta < 0 {
            -beta
        } else {
            beta
        };
        if !in_check && depth <= 4 && beta_abs < mate_bound && excluded_move.0 == 0 {
            info.stats.rfp_attempts = bump(info.stats.rfp_attempts);
            let margin = depth as i32 * 120;
            if static_eval - margin >= beta {
                info.stats.rfp_cutoffs = bump(info.stats.rfp_cutoffs);
                return static_eval;
            }
        }
        match self.nmp_search(SearchParams { alpha, beta, ..params }, limits, info, static_eval) {
            Some(cutoff_score) => {
                return cutoff_score;
            },
            None => {},
        }
        if depth >= 5 && !in_check && excluded_move.0 == 0 && beta_abs < mate_bound {
            match self.probcut(SearchParams { alpha, beta, ..params }, limits, info, key, tt_move) {
                Some(score) => {
                    return score;
                },
                None => {},
            }
        }
        let se_extension = if depth >= 8 {
            self.singular_extension(SearchParams { alpha, beta, ..params }, limits, info, tt_move, tt_depth, tt_flag, tt_score)
        } else {
            0
        };
        self.search_moves(
            SearchParams { alpha, beta, ..params },
            limits,
            info,
            key,
            tt_move,
            static_eval,
            in_check,
            se_extension,
        )
    }

    /// ProbCut: a capture whose reduced null-window search beats `beta`
    /// by a margin cuts the node; the score is stored as a lower bound.
    fn probcut(&mut self, params: SearchParams, limits: &SearchLimits, info: &mut SearchInfo, key: u64, tt_move: Move)
        -> (r: Option<i32>)
        requires
            old(self).wf(),
            sane(old(self).board),
            params.ok(),
            params.ply + 1 < MAX_PLY,
            params.depth >= 5,
            -((MATE - MAX_PLY as i16) as i32) < params.beta < (MATE - MAX_PLY as i16) as i32,
        ensures
            mandatory_kept(*final(info), *old(info)),
            final(self).wf(),
            same_setup(final(self), old(self)),
            r matches Some(x) ==> score_ok(x as int),
        decreases MAX_PLY - params.ply, 0int,
    {
        let depth = params.depth;
        let beta = params.beta;
        let ply = params.ply;
        let mate_bound = (MATE - MAX_PLY as i16) as i32;
        let pc_margin: i32 = 200;
        let pc_beta = if beta + pc_margin < mate_bound {
            beta + pc_margin
        } else {
            mate_bound
        };
        let pc_depth: u16 = if depth >= 8 {
            depth - 4
        } else {
            depth - 3
        };
        let pc_tt_move = if tt_move.flag().is_quiet() {
            Move::null()
        } else {
            tt_move
        };
        let mut pc_picker = MovePicker::new(pc_tt_move, [Move::null(), Move::null()], params.prev_move, true);
        let ghost e0 = *self;
        loop
            invariant
                mandatory_kept(*info, *old(info)),
                self.wf(),
                sane(self.board),
                same_setup(self, &e0),
                same_setup(&e0, old(self)),
                pc_picker.wf_for(self.board@),
                0 <= ply < MAX_PLY - 1,
                ply == params.ply,
                -mate_bound < pc_beta <= mate_bound,
                pc_depth < 65535,
                mate_bound == (MATE - MAX_PLY as i16) as i32,
            decreases 8 - pc_picker.phase(), pc_picker.remaining(),
        {
            let next = self.pick_next_mv(&mut pc_picker);
            let mv = match next {
                None => {
                    break;
                },
                Some(m) => m,
            };
            if !mv.flag().is_promo() && self.board.see(&mv) <= 0 {
                continue;
            }
            let ghost b0 = self.board;
            let ghost hist_before = self.game_history@;
            let pushed = self.push_key(key);
            proof {
                lemma_make_undo(b0, mv);
            }
            let undo = self.board.make_move(&mv);
            proof {
                lemma_sane_child(b0, mv, self.board);
            }
            self.update_nnue(&mv, &undo, ply as usize);
            info.stats.probcut_attempts = bump(info.stats.probcut_attempts);
            let pc_score = -self.negamax(
                SearchParams {
                    depth: pc_depth,
                    alpha: -pc_beta,
                    beta: -pc_beta + 1,
                    ply: ply + 1,
                    extension: 0,
                    prev_move: mv,
                    excluded_move: Move::null(),
                },
                limits,
                info,
            );
            self.board.undo_move(&mv, &undo);
            proof {
                Board::lemma_view_determines(self.board, b0);
            }
            self.pop_key(pushed, Ghost(hist_before), Ghost(key));
            if pc_score >= pc_beta {
                info.stats.probcut_cutoffs = bump(info.stats.probcut_cutoffs);
                let safe_score = if pc_score >= mate_bound {
                    pc_beta
                } else {
                    pc_score
                };
                let age = self.shared.tt.get_generation();
                self.shared.tt.store(
                    TTEntry { key, depth: pc_depth + 1, score: safe_score, flag: TTFlag::LowerBound, best_move: mv, age },
                );
                return Some(safe_score);
            }
        }
        None
    }

    /// Singular extension: when every move but the table move falls short
    /// of the table score less a margin in a reduced search, the table
    /// move is extended by one ply. Returns the extension, 0 or 1.
    fn singular_extension(&mut self, params: SearchParams, limits: &SearchLimits, info: &mut SearchInfo, tt_move: Move,
        tt_depth: u16, tt_flag: TTFlag, tt_score: i32) -> (r: u16)
        requires
            old(self).wf(),
            sane(old(self).board),
            params.ok(),
            params.depth >= 8,
            score_ok(tt_score as int),
        ensures
            mandatory_kept(*final(info), *old(info)),
            final(self).wf(),
            same_setup(final(self), old(self)),
            r <= 1,
        decreases MAX_PLY - params.ply, params.depth as int,
    {
        let depth = params.depth;
        let mate_bound = (MATE - MAX_PLY as i16) as i32;
        let tt_abs = if tt_score < 0 {
            -tt_score
        } else {
            tt_score
        };
        if tt_move.0 != 0 && params.excluded_move.0 == 0 && tt_depth >= depth - 3 && tt_flag != TTFlag::UpperBound
            && tt_abs < mate_bound {
            let singular_margin = depth as i32 * 2;
            let singular_beta = if tt_score - singular_margin > -(MATE as i32) {
                tt_score - singular_margin
            } else {
                -(MATE as i32)
            };
            let se_score = self.negamax(
                SearchParams {
                    depth: depth / 2,
                    alpha: singular_beta - 1,
                    beta: singular_beta,
                    ply: params.ply,
                    extension: 0,
                    prev_move: params.prev_move,
                    excluded_move: tt_move,
                },
                limits,
                info,
            );
            if se_score < singular_beta {
                return 1;
            }
        }
        0
    }

    /// The move loop of `negamax`: tries the moves in picker order with
    /// late-move, exchange and futility pruning; on a cutoff updates the
    /// killers, the history tables and the countermove; returns the best
    /// score (mate or stalemate when no move was searched) and stores it.
    #[verifier::rlimit(60)]
    fn search_moves(&mut self, params: SearchParams, limits: &SearchLimits, info: &mut SearchInfo, key: u64, tt_move: Move,
        static_eval: i32, in_check: bool, se_extension: u16) -> (r: i32)
        requires
            old(self).wf(),
            sane(old(self).board),
            params.ok(),
            params.alpha < params.beta,
            params.ply + 1 < MAX_PLY,
            params.depth >= 1,
            -EVAL_BOUND <= static_eval <= EVAL_BOUND,
            se_extension <= 1,
        ensures
            mandatory_kept(*final(info), *old(info)),
            final(self).wf(),
            same_setup(final(self), old(self)),
            score_ok(r as int),
            no_legal_move(old(self).board@) ==> r == (if in_check { -MATE + params.ply } else { 0 }),
        decreases MAX_PLY - params.ply, 1int,
    {
        let depth = params.depth;
        let mut alpha = params.alpha;
        let beta = params.beta;
        let ply = params.ply;
        let prev_move = params.prev_move;
        let excluded_move = params.excluded_move;
        let mate_bound = (MATE - MAX_PLY as i16) as i32;
        let original_alpha = alpha;
        let mut max_eval = -(INF as i32);
        let mut best_move_this_node = Move::null();
        let mut fail_high = false;
        let mut quiet_list: Vec<Move> = Vec::new();
        let mut quiet_searched: usize = 0;
        let killers = self.killers.get(ply);
        let mut picker = MovePicker::new(tt_move, killers, prev_move, false);
        let mut mv_searched: usize = 0;
        let ghost e1 = *self;
        loop
            invariant_except_break
                alpha < beta,
            invariant
                mandatory_kept(*info, *old(info)),
                self.wf(),
                sane(self.board),
                same_setup(self, &e1),
                same_setup(&e1, old(self)),
                picker.wf_for(self.board@),
                0 <= ply < MAX_PLY - 1,
                ply == params.ply,
                depth == params.depth,
                depth >= 1,
                score_ok(alpha as int),
                score_ok(beta as int),
                score_ok(max_eval as int),
                score_ok(original_alpha as int),
                -EVAL_BOUND <= static_eval <= EVAL_BOUND,
                se_extension <= 1,
                forall|j: int| 0 <= j < quiet_list@.len() ==> good_move(self.board@, #[trigger] quiet_list@[j]),
                mate_bound == (MATE - MAX_PLY as i16) as i32,
                no_legal_move(self.board@) ==> mv_searched == 0,
            decreases 8 - picker.phase(), picker.remaining(),
        {
            let next = self.pick_next_mv(&mut picker);
            let mv = match next {
                None => {
                    break;
                },
                Some(m) => m,
            };
            if mv.0 == excluded_move.0 {
                continue;
            }
            let mv_idx = mv_searched;
            let flag = mv.flag();
            let is_quiet = flag.is_quiet();
            let is_non_pv = alpha + 1 == beta;
            if is_quiet && mv_idx > 0 {
                let d64 = depth as u64;
                assert(d64 * d64 <= 0xFFFF_FFFF) by (nonlinear_arith)
                    requires
                        d64 <= 0xFFFF,
                ;
                let mut lmp_threshold: u64 = 3 + d64 * d64;
                let is_improving = self.eval_history.is_improving(static_eval as i16, in_check, ply as usize);
                if !is_improving {
                    lmp_threshold = lmp_threshold / 2;
                }
                if is_non_pv && depth <= 5 && !in_check {
                    info.stats.lmp_attempts = bump(info.stats.lmp_attempts);
                    if quiet_searched as u64 >= lmp_threshold {
                        info.stats.lmp_prunes = bump(info.stats.lmp_prunes);
                        picker.skip_quiets();
                        continue;
                    }
                }
            } else if mv_idx > 0 {
                if depth <= 5 && is_non_pv && !in_check && mv.0 != tt_move.0 && flag.is_capture() && !flag.is_promo()
                    && !self.board.gives_check(mv) {
                    info.stats.see_prune_attempts = bump(info.stats.see_prune_attempts);
                    let margin = depth as i32 * 80;
                    if self.board.see(&mv) < -margin {
                        info.stats.see_prunes_happened = bump(info.stats.see_prunes_happened);
                        continue;
                    }
                }
            }
            if depth < 3 && mv_idx > 0 && is_quiet && !in_check {
                let futility_margin = depth as i32 * 150;
                if static_eval + futility_margin <= alpha {
                    info.stats.futility_attempts = bump(info.stats.futility_attempts);
                    if !self.board.gives_check(mv) {
                        info.stats.futility_prunes = bump(info.stats.futility_prunes);
                        continue;
                    }
                }
            }
            let ghost b0 = self.board;
            let ghost hist_before = self.game_history@;
            let pushed = self.push_key(key);
            proof {
                lemma_make_undo(b0, mv);
            }
            let undo = self.board.make_move(&mv);
            proof {
                lemma_sane_child(b0, mv, self.board);
            }
            self.update_nnue(&mv, &undo, ply as usize);
            if is_quiet {
                quiet_list.push(mv);
                quiet_searched = quiet_searched.saturating_add(1);
            }
            mv_searched = mv_searched.saturating_add(1);
            proof {
                reveal(no_legal_move);
                assert(good_move(b0@, mv));
            }
            let next_depth = if mv.0 == tt_move.0 {
                depth.saturating_add(se_extension)
            } else {
                depth
            };
            let eval = self.pv_search(
                mv,
                mv_idx,
                quiet_searched,
                SearchParams {
                    depth: next_depth,
                    alpha,
                    beta,
                    ply,
                    extension: params.extension,
                    prev_move,
                    excluded_move: Move::null(),
                },
                limits,
                info,
            );
            self.board.undo_move(&mv, &undo);
            proof {
                Board::lemma_view_determines(self.board, b0);
            }
            self.pop_key(pushed, Ghost(hist_before), Ghost(key));
            if eval > max_eval {
                max_eval = eval;
                best_move_this_node = mv;
            }
            if eval > alpha {
                alpha = eval;
            }
            if eval >= beta {
                info.stats.beta_cutoffs = bump(info.stats.beta_cutoffs);
                if mv_idx < 256 {
                    info.stats.cutoffs_by_idx[mv_idx] = bump(info.stats.cutoffs_by_idx[mv_idx]);
                }
                fail_high = true;
                if is_quiet {
                    self.store_killer(mv, ply as usize);
                    let stm = self.board.side_to_move().val();
                    let d64 = depth as i64;
                    assert(d64 * d64 <= 0xFFFF_FFFF) by (nonlinear_arith)
                        requires
                            0 <= d64 <= 0xFFFF,
                    ;
                    let dd = d64 * d64;
                    let bonus: i32 = if dd < 400 {
                        dd as i32
                    } else {
                        400
                    };
                    let mut q: usize = 0;
                    while q < quiet_list.len()
                        invariant
                            mandatory_kept(*info, *old(info)),
                            self.wf(),
                            sane(self.board),
                            same_setup(self, &e1),
                            0 <= bonus <= 400,
                            stm < 2,
                            forall|j: int| 0 <= j < quiet_list@.len() ==> good_move(self.board@, #[trigger] quiet_list@[j]),
                        decreases quiet_list.len() - q,
                    {
                        let q_mv = quiet_list[q];
                        if q_mv.0 != mv.0 {
                            assert(good_move(self.board@, quiet_list@[q as int]));
                            self.history_add(stm, q_mv, -(bonus / 4));
                            self.cont_add(prev_move, q_mv, -((bonus + 3) / 4));
                        }
                        q += 1;
                    }
                    self.history_add(stm, mv, bonus);
                    self.cont_add(prev_move, mv, bonus);
                    self.counter_moves.update(prev_move, mv);
                }
                break;
            }
        }
        if mv_searched == 0 {
            return if in_check {
                -(MATE as i32) + ply
            } else {
                0
            };
        }
        let flag = if fail_high {
            TTFlag::LowerBound
        } else if max_eval <= original_alpha {
            TTFlag::UpperBound
        } else {
            TTFlag::Exact
        };
        let mut score_to_store = max_eval;
        if score_to_store > mate_bound {
            score_to_store += ply;
        }
        if score_to_store < -mate_bound {
            score_to_store -= ply;
        }
        if !info.abort && excluded_move.0 == 0 {
            let age = self.shared.tt.get_generation();
            self.shared.tt.store(
                TTEntry { key, depth, score: score_to_store, flag, best_move: best_move_this_node, age },
            );
        }
        max_eval
    }
}


/// The position reached from `v` by playing `line` in order.
pub open spec fn play(v: BoardView, line: Seq<Move>) -> BoardView
    decreases line.len(),
{
    if line.len() == 0 {
        v
    } else {
        made(play(v, line.drop_last()), line.last())
    }
}

/// Why the principal variation ends after `pv`: the table holds no entry
/// for the position reached, or its move is null, or the position was met
/// earlier on the line, or the move is not legal there.
pub open spec fn pv_stops(e: Engine, pv: Seq<Move>) -> bool {
    let w = play(e.board@, pv);
    let key = zob_spec(w, e.keys);
    match stored_move(e.shared.tt, key) {
        None => true,
        Some(m) => m.0 == 0 || (exists|i: int| 0 <= i < pv.len() && zob_spec(play(e.board@, #[trigger] pv.take(i)), e.keys) == key)
            || !good_move(w, m),
    }
}

/// The search window of `p` is not empty once clipped to the mate scores
/// reachable from its ply.
pub open spec fn window_open(p: SearchParams) -> bool {
    let mated = -MATE + p.ply;
    let mating = MATE - p.ply;
    (if p.alpha < mated { mated } else { p.alpha as int }) < (if p.beta > mating { mating } else { p.beta as int })
}

/// A quiescence search of a position not in check, not repeated and not
/// in the table, that is entered and not stopped, scores at least the
/// static evaluation (the side to move may stand pat).
pub open spec fn stand_pat_kept(e: Engine, before: SearchInfo, after: SearchInfo, p: SearchParams, r: int) -> bool {
    node_entered(before, after, p) && !repeated(e) && stored_move(e.shared.tt, zob_spec(e.board@, e.keys)) is None
        && !crate::position::in_check_spec(e.board@) ==> r >= static_eval(e, p.ply as int)
}

/// A node searched past its first checks and not stopped: the search was
/// not stopped when it began (`before`) nor when it returned (`after`), the
/// window is open and the ply limit is not reached.
pub open spec fn node_entered(before: SearchInfo, after: SearchInfo, p: SearchParams) -> bool {
    !before.abort && !after.abort && window_open(p) && p.ply + 1 < MAX_PLY
}

/// The window and ply of the search of a child reached by `mv`.
pub open spec fn child_window(p: SearchParams, mv: Move) -> SearchParams {
    SearchParams {
        depth: p.depth,
        alpha: (-p.beta) as i32,
        beta: (-p.alpha) as i32,
        ply: (p.ply + 1) as i32,
        extension: p.extension,
        prev_move: mv,
        excluded_move: Move(0),
    }
}

/// The position's key is in the game history: a repetition.
#[verifier::opaque]
pub open spec fn repeated(e: Engine) -> bool {
    e.game_history@.contains(zob_spec(e.board@, e.keys))
}

/// The side to move has no legal move.
#[verifier::opaque]
pub open spec fn no_legal_move(v: BoardView) -> bool {
    forall|m: Move| !good_move(v, m)
}

/// Every move of `line` is a legal generated move where it is played.
pub open spec fn line_legal(v: BoardView, line: Seq<Move>) -> bool
    decreases line.len(),
{
    if line.len() == 0 {
        true
    } else {
        line_legal(v, line.drop_last()) && good_move(play(v, line.drop_last()), line.last())
    }
}

impl SearchInfo {
    /// A copy of this record.
    pub fn snapshot(&self) -> (r: SearchInfo)
        ensures
            r.depth == self.depth,
            r.seldepth == self.seldepth,
            r.score == self.score,
            r.best_move == self.best_move,
            r.nodes == self.nodes,
            r.abort == self.abort,
            r.is_mandatory == self.is_mandatory,
            r.pv@ == self.pv@,
            r.stats == self.stats,
    {
        let mut pv: Vec<Move> = Vec::new();
        let mut i: usize = 0;
        while i < self.pv.len()
            invariant
                i <= self.pv.len(),
                pv@ == self.pv@.subrange(0, i as int),
            decreases self.pv.len() - i,
        {
            pv.push(self.pv[i]);
            assert(pv@ =~= self.pv@.subrange(0, i + 1));
            i += 1;
        }
        assert(pv@ =~= self.pv@);
        SearchInfo {
            start_time: self.start_time,
            depth: self.depth,
            seldepth: self.seldepth,
            score: self.score,
            best_move: self.best_move,
            nodes: self.nodes,
            abort: self.abort,
            is_mandatory: self.is_mandatory,
            pv,
            stats: self.stats,
        }
    }
}

/// Whether `mv` is one of `moves`.
fn contains_move(moves: &Vec<Move>, mv: Move) -> (r: bool)
    ensures
        r == moves@.contains(mv),
{
    let mut i: usize = 0;
    while i < moves.len()
        invariant
            i <= moves.len(),
            forall|j: int| 0 <= j < i ==> moves@[j] != mv,
        decreases moves.len() - i,
    {
        if moves[i].0 == mv.0 {
            assert(moves@[i as int] == mv);
            return true;
        }
        i += 1;
    }
    false
}

/// Whether `key` is one of `keys`.
fn contains_key(keys: &Vec<u64>, key: u64) -> (r: bool)
    ensures
        r == keys@.contains(key),
{
    let mut i: usize = 0;
    while i < keys.len()
        invariant
            i <= keys.len(),
            forall|j: int| 0 <= j < i ==> keys@[j] != key,
        decreases keys.len() - i,
    {
        if keys[i] == key {
            return true;
        }
        i += 1;
    }
    false
}

impl Engine {
    /// The principal variation: from the current position, the table's
    /// best move as long as there is an entry, its move is not null, it is
    /// a legal move of the position and the position was not met before
    /// on the line. The board is left as it was.
    #[verifier::rlimit(60)]
    pub fn gen_pv(&mut self) -> (r: Vec<Move>)
        requires
            old(self).wf(),
            sane(old(self).board),
        ensures
            *final(self) == *old(self),
            line_legal(old(self).board@, r@),
            forall|i: int| 0 <= i < r@.len() ==> stored_move(old(self).shared.tt,
                zob_spec(play(old(self).board@, #[trigger] r@.take(i)), old(self).keys)) == Some(r@[i]),
            r@.len() < usize::MAX ==> pv_stops(*old(self), r@),
            forall|i: int, j: int| 0 <= i < j < r@.len() ==> zob_spec(play(old(self).board@, #[trigger] r@.take(i)),
                old(self).keys) != zob_spec(play(old(self).board@, #[trigger] r@.take(j)), old(self).keys),
    {
        let ghost root = self.board;
        let mut pv: Vec<Move> = Vec::new();
        let mut undo_stack: Vec<Undo> = Vec::new();
        let mut visited_keys: Vec<u64> = Vec::new();
        let ghost mut boards: Seq<Board> = Seq::empty();
        let ghost e0 = *self;
        loop
            invariant
                self.wf(),
                sane(self.board),
                self.keys == e0.keys,
                self.shared == e0.shared,
                e0 == *old(self),
                root == old(self).board,
                pv@.len() == undo_stack@.len(),
                pv@.len() == boards.len(),
                visited_keys@.len() == pv@.len(),
                line_legal(root@, pv@),
                self.board@ == play(root@, pv@),
                forall|k: int| 0 <= k < boards.len() ==> (#[trigger] boards[k]).wf() && boards[k]@ == play(root@, pv@.take(k))
                    && undo_stack@[k] == undo_of(boards[k]@, pv@[k]) && good_move(boards[k]@, pv@[k]),
                *self == (Engine { board: self.board, ..e0 }),
                forall|k: int| 0 <= k < visited_keys@.len() ==> visited_keys@[k] == zob_spec(play(root@, #[trigger] pv@.take(k)), e0.keys),
                forall|k: int| 0 <= k < pv@.len() ==> stored_move(e0.shared.tt,
                    zob_spec(play(root@, #[trigger] pv@.take(k)), e0.keys)) == Some(pv@[k]),
                forall|a: int, b: int| 0 <= a < b < visited_keys@.len() ==> visited_keys@[a] != visited_keys@[b],
            ensures
                visited_keys@.len() == pv@.len(),
                forall|k: int| 0 <= k < visited_keys@.len() ==> visited_keys@[k] == zob_spec(play(root@, #[trigger] pv@.take(k)), e0.keys),
                forall|a: int, b: int| 0 <= a < b < visited_keys@.len() ==> visited_keys@[a] != visited_keys@[b],
                self.wf(),
                pv@.len() == undo_stack@.len(),
                pv@.len() == boards.len(),
                line_legal(root@, pv@),
                self.board@ == play(root@, pv@),
                forall|k: int| 0 <= k < boards.len() ==> (#[trigger] boards[k]).wf() && boards[k]@ == play(root@, pv@.take(k))
                    && undo_stack@[k] == undo_of(boards[k]@, pv@[k]) && good_move(boards[k]@, pv@[k]),
                *self == (Engine { board: self.board, ..e0 }),
                forall|k: int| 0 <= k < pv@.len() ==> stored_move(e0.shared.tt,
                    zob_spec(play(root@, #[trigger] pv@.take(k)), e0.keys)) == Some(pv@[k]),
                pv@.len() < usize::MAX ==> pv_stops(e0, pv@),
            decreases usize::MAX - visited_keys@.len(),
        {
            if visited_keys.len() == usize::MAX {
                break;
            }
            let key = self.zob();
            proof {
                assert(pv@.take(pv@.len() as int) =~= pv@);
            }
            let entry = match self.shared.tt.probe(key) {
                None => {
                    break;
                },
                Some(e) => e,
            };
            let mv = entry.best_move();
            proof {
                assert(stored_move(e0.shared.tt, key) == Some(mv));
            }
            if mv.0 == 0 || contains_key(&visited_keys, key) {
                proof {
                    if visited_keys@.contains(key) {
                        let i = choose|i: int| 0 <= i < visited_keys@.len() && visited_keys@[i] == key;
                        assert(zob_spec(play(root@, pv@.take(i)), e0.keys) == key);
                    }
                }
                break;
            }
            let moves = self.board.gen_moves();
            if !contains_move(&moves, mv) {
                proof {
                    if good_move(self.board@, mv) {
                        if crate::movegen::castle_move(self.board@, mv) {
                            crate::perft::lemma_castle_home(self.board, mv);
                        }
                    }
                }
                break;
            }
            let ghost b0 = self.board;
            assert(good_move(b0@, mv));
            proof {
                lemma_make_undo(b0, mv);
            }
            let undo = self.board.make_move(&mv);
            proof {
                lemma_sane_child(b0, mv, self.board);
                assert(pv@.push(mv).drop_last() =~= pv@);
                assert forall|k: int| 0 <= k < pv@.len() implies pv@.push(mv).take(k) =~= pv@.take(k) by {}
                assert(pv@.push(mv).take(pv@.len() as int) =~= pv@);
                boards = boards.push(b0);
            }
            let ghost pv0 = pv@;
            let ghost vk0 = visited_keys@;
            pv.push(mv);
            undo_stack.push(undo);
            visited_keys.push(key);
            proof {
                assert forall|a: int, b: int| 0 <= a < b < visited_keys@.len() implies visited_keys@[a] != visited_keys@[b] by {
                    if b == vk0.len() {
                        assert(visited_keys@[a] == vk0[a]);
                        assert(!vk0.contains(key));
                    } else {
                        assert(visited_keys@[a] == vk0[a] && visited_keys@[b] == vk0[b]);
                    }
                }
                assert forall|k: int| 0 <= k < pv@.len() implies #[trigger] pv@.take(k) =~= pv0.take(k) || k == pv0.len() by {}
                assert(pv@.take(pv0.len() as int) =~= pv0);
                assert forall|k: int| 0 <= k < visited_keys@.len() implies visited_keys@[k] == zob_spec(play(root@,
                    #[trigger] pv@.take(k)), e0.keys) by {
                    if k < pv0.len() {
                        assert(pv@.take(k) =~= pv0.take(k));
                    }
                }
                assert forall|k: int| 0 <= k < pv@.len() implies stored_move(e0.shared.tt,
                    zob_spec(play(root@, #[trigger] pv@.take(k)), e0.keys)) == Some(pv@[k]) by {
                    if k < pv0.len() {
                        assert(pv@.take(k) =~= pv0.take(k));
                    }
                }
            }
        }
        let n = undo_stack.len();
        let mut k: usize = n;
        assert(pv@.take(n as int) =~= pv@);
        assert forall|i: int, j: int| 0 <= i < j < pv@.len() implies zob_spec(play(root@, #[trigger] pv@.take(i)), e0.keys)
            != zob_spec(play(root@, #[trigger] pv@.take(j)), e0.keys) by {
            assert(visited_keys@[i] != visited_keys@[j]);
        }
        while k > 0
            invariant
                k <= n,
                n == pv@.len(),
                undo_stack@.len() == k,
                boards.len() == n,
                self.wf(),
                forall|j: int| 0 <= j < k ==> undo_stack@[j] == undo_of(boards[j]@, pv@[j]),
                forall|j: int| 0 <= j < n ==> (#[trigger] boards[j]).wf() && boards[j]@ == play(root@, pv@.take(j))
                    && good_move(boards[j]@, pv@[j]),
                self.board@ == play(root@, pv@.take(k as int)),
                *self == (Engine { board: self.board, ..e0 }),
                e0 == *old(self),
                root == old(self).board,
                root.wf(),
            decreases k,
        {
            let undo = undo_stack.pop().unwrap();
            k -= 1;
            let mv = pv[k];
            let ghost bk = boards[k as int];
            proof {
                assert(pv@.take(k + 1).drop_last() =~= pv@.take(k as int));
                assert(pv@.take(k + 1).last() == mv);
                lemma_make_undo(bk, mv);
            }
            self.board.undo_move(&mv, &undo);
        }
        proof {
            assert(pv@.take(0) =~= Seq::<Move>::empty());
            Board::lemma_view_determines(self.board, root);
        }
        pv
    }
}


impl Engine {
    /// One aspiration attempt at the root: every move searched to depth
    /// `d`, the first with the window `alpha..beta`, the others with a null
    /// window widened when they beat `alpha`. Returns the best score and
    /// move, starting from `-INF` and `fallback`; stops at an abort.
    fn search_root(&mut self, d: u16, alpha: i32, beta: i32, fallback: Move, limits: &SearchLimits,
        info: &mut SearchInfo) -> (r: (i32, Move))
        requires
            old(self).wf(),
            sane(old(self).board),
            score_ok(alpha as int),
            score_ok(beta as int),
            1 <= d <= MAX_DEPTH,
            fallback.0 != 0 ==> good_move(old(self).board@, fallback),
        ensures
            mandatory_kept(*final(info), *old(info)),
            final(self).wf(),
            same_setup(final(self), old(self)),
            score_ok(r.0 as int),
            r.1.0 != 0 ==> good_move(old(self).board@, r.1),
            fallback.0 != 0 ==> r.1.0 != 0,
    {
        let mut alpha = alpha;
        let key = self.zob();
        let mut best_move = fallback;
        let mut best_score = -(INF as i32);
        let mut tt_move = Move::null();
        info.stats.tt_probes = bump(info.stats.tt_probes);
        match self.shared.tt.probe(key) {
            Some(entry) => {
                info.stats.tt_hits = bump(info.stats.tt_hits);
                tt_move = entry.best_move();
            },
            None => {},
        }
        let mut picker = MovePicker::new(tt_move, [Move::null(), Move::null()], Move::null(), false);
        let mut mv_searched: usize = 0;
        let ghost e0 = *self;
        loop
            invariant
                mandatory_kept(*info, *old(info)),
                self.wf(),
                sane(self.board),
                same_setup(self, &e0),
                same_setup(&e0, old(self)),
                picker.wf_for(self.board@),
                score_ok(alpha as int),
                score_ok(beta as int),
                score_ok(best_score as int),
                1 <= d <= MAX_DEPTH,
                best_move.0 != 0 ==> good_move(self.board@, best_move),
                fallback.0 != 0 ==> good_move(self.board@, fallback),
                fallback.0 != 0 ==> best_move.0 != 0,
            decreases 8 - picker.phase(), picker.remaining(),
        {
            let next = self.pick_next_mv(&mut picker);
            let mv = match next {
                None => {
                    break;
                },
                Some(m) => m,
            };
            let ghost b0 = self.board;
            let ghost hist_before = self.game_history@;
            let pushed = self.push_key(key);
            proof {
                lemma_make_undo(b0, mv);
            }
            let undo = self.board.make_move(&mv);
            proof {
                lemma_sane_child(b0, mv, self.board);
            }
            self.update_nnue(&mv, &undo, 0);
            let mv_idx = mv_searched;
            mv_searched = mv_searched.saturating_add(1);
            let full = SearchParams {
                depth: d - 1,
                alpha: -beta,
                beta: -alpha,
                ply: 1,
                extension: 0,
                prev_move: mv,
                excluded_move: Move::null(),
            };
            let score = if mv_idx == 0 {
                -self.negamax(full, limits, info)
            } else {
                let low = if alpha < INF as i32 {
                    -alpha - 1
                } else {
                    -(INF as i32)
                };
                let null_window = SearchParams { alpha: low, ..full };
                let eval = -self.negamax(null_window, limits, info);
                if eval > alpha {
                    -self.negamax(full, limits, info)
                } else {
                    eval
                }
            };
            self.board.undo_move(&mv, &undo);
            proof {
                Board::lemma_view_determines(self.board, b0);
            }
            self.pop_key(pushed, Ghost(hist_before), Ghost(key));
            if info.abort {
                break;
            }
            if score > best_score {
                best_score = score;
                best_move = mv;
                proof {
                    crate::move_pick::lemma_good_not_null(self.board@, mv);
                }
            }
            if score > alpha {
                alpha = score;
            }
        }
        (best_score, best_move)
    }

    /// The first legal move of the position, or the null move.
    fn first_legal(&mut self) -> (r: Move)
        requires
            old(self).wf(),
            sane(old(self).board),
        ensures
            *final(self) == *old(self),
            r.0 != 0 ==> good_move(old(self).board@, r),
            r.0 == 0 ==> forall|m: Move| !good_move(old(self).board@, m),
    {
        let moves = self.board.gen_moves();
        let mut i: usize = 0;
        while i < moves.len()
            invariant
                i <= moves.len(),
                *self == *old(self),
                forall|k: int| 0 <= k < moves@.len() ==> good_move(self.board@, #[trigger] moves@[k]),
                forall|k: int| 0 <= k < i ==> (#[trigger] moves@[k]).0 == 0,
            decreases moves.len() - i,
        {
            if moves[i].0 != 0 {
                return moves[i];
            }
            i += 1;
        }
        proof {
            assert forall|m: Move| !good_move(self.board@, m) by {
                if good_move(self.board@, m) {
                    if crate::movegen::castle_move(self.board@, m) {
                        crate::perft::lemma_castle_home(self.board, m);
                    }
                    assert(moves@.contains(m));
                    let j = choose|j: int| 0 <= j < moves@.len() && moves@[j] == m;
                    crate::move_pick::lemma_good_not_null(self.board@, m);
                    assert(moves@[j].0 == 0);
                }
            }
        }
        Move::null()
    }

    /// The aspiration loop of one depth `d`: from depth 6 on the window is
    /// `prev_score` plus or minus 50, widened on the failing side by a
    /// doubling margin until the score falls inside or the window is full;
    /// a fail low is stored as an upper bound. Stops at an abort.
    #[verifier::rlimit(60)]
    fn aspiration(&mut self, d: u16, prev_score: i32, limits: &SearchLimits, info: &mut SearchInfo) -> (r: (i32, Move))
        requires
            old(self).wf(),
            sane(old(self).board),
            1 <= d <= MAX_DEPTH,
            score_ok(prev_score as int),
        ensures
            mandatory_kept(*final(info), *old(info)),
            final(self).wf(),
            same_setup(final(self), old(self)),
            score_ok(r.0 as int),
            r.1.0 != 0 ==> good_move(old(self).board@, r.1),
            (exists|m: Move| good_move(old(self).board@, m)) ==> r.1.0 != 0,
    {
        let ghost e0 = *self;
        let mut delta: i32 = 50;
        let mut alpha: i32 = -(INF as i32);
        let mut beta: i32 = INF as i32;
        if d > 5 {
            let last = prev_score;
            alpha = if last - delta > -(INF as i32) {
                last - delta
            } else {
                -(INF as i32)
            };
            beta = if last + delta < INF as i32 {
                last + delta
            } else {
                INF as i32
            };
        }
        let mut best_score: i32;
        let mut best_move: Move;
        loop
            invariant
                mandatory_kept(*info, *old(info)),
                self.wf(),
                sane(self.board),
                same_setup(self, &e0),
                score_ok(alpha as int),
                score_ok(beta as int),
                50 <= delta <= INF,
                1 <= d <= MAX_DEPTH,
                same_setup(&e0, old(self)),
            ensures
                self.wf(),
                sane(self.board),
                same_setup(self, &e0),
                score_ok(best_score as int),
                best_move.0 != 0 ==> good_move(self.board@, best_move),
                (exists|m: Move| good_move(self.board@, m)) ==> best_move.0 != 0,
            decreases (alpha + INF) + (INF - beta),
        {
            let orig_alpha = alpha;
            let orig_beta = beta;
            let fallback = self.first_legal();
            let (score, mv) = self.search_root(d, alpha, beta, fallback, limits, info);
            best_score = score;
            best_move = mv;
            proof {
                if exists|m: Move| good_move(self.board@, m) {
                    let m = choose|m: Move| good_move(self.board@, m);
                    assert(good_move(self.board@, m));
                }
            }
            if info.abort {
                break;
            }
            if best_score <= orig_alpha && orig_alpha > -(INF as i32) {
                let key = self.zob();
                let age = self.shared.tt.get_generation();
                self.shared.tt.store(
                    TTEntry { key, depth: d, score: best_score, flag: TTFlag::UpperBound, best_move, age },
                );
                alpha = if orig_alpha - delta > -(INF as i32) {
                    orig_alpha - delta
                } else {
                    -(INF as i32)
                };
                beta = orig_beta;
                delta = if delta * 2 < INF as i32 {
                    delta * 2
                } else {
                    INF as i32
                };
                continue;
            }
            if best_score >= orig_beta && orig_beta < INF as i32 {
                alpha = orig_alpha;
                beta = if orig_beta + delta < INF as i32 {
                    orig_beta + delta
                } else {
                    INF as i32
                };
                delta = if delta * 2 < INF as i32 {
                    delta * 2
                } else {
                    INF as i32
                };
                continue;
            }
            break;
        }
        (best_score, best_move)
    }

    /// Iterative deepening: searches depth 1, 2, ... up to the depth
    /// limit (`MAX_DEPTH` if none), each with an aspiration window around
    /// the last score from depth 6 on, widened on failure. Depth 1 is never
    /// cut short. After each completed depth the root result is stored in
    /// the table, the line is read back from it and `on_iteration` is told;
    /// past the soft time limit no new depth starts. Returns the last
    /// completed depth's result (with the counts of an aborted one).
    pub fn search_ids<F: Fn(&SearchInfo)>(&mut self, limits: &SearchLimits, on_iteration: F) -> (r: SearchInfo)
        requires
            old(self).wf(),
            limits.depth is Some ==> limits.depth.unwrap() <= MAX_DEPTH,
            forall|i: &SearchInfo| call_requires(on_iteration, (i,)),
        ensures
            final(self).wf(),
            final(self).board == old(self).board,
            final(self).keys == old(self).keys,
            !sane(old(self).board) ==> r.depth == 0 && r.best_move.0 == 0 && r.pv@.len() == 0,
            r.best_move.0 != 0 ==> good_move(old(self).board@, r.best_move),
            sane(old(self).board) ==> line_legal(old(self).board@, r.pv@),
            limits.depth is Some ==> r.depth <= limits.depth.unwrap(),
            sane(old(self).board) && (limits.depth is None || limits.depth.unwrap() >= 1) ==> r.depth >= 1,
            sane(old(self).board) && (limits.depth is None || limits.depth.unwrap() >= 1)
                && (exists|m: Move| good_move(old(self).board@, m)) ==> r.best_move.0 != 0,
            score_ok(r.score as int),
    {
        let mut info = SearchInfo::new();
        let mut last_complete_info = info.snapshot();
        if !self.board.is_sane() {
            return last_complete_info;
        }
        self.killers = Killers::new();
        match &self.network {
            Some(nn) => {
                self.accumulators.setup(nn, &self.board);
            },
            None => {},
        }
        self.shared.tt.inc_generation();
        let max_depth: u16 = match limits.depth {
            Some(dl) => dl,
            None => MAX_DEPTH,
        };
        let ghost e0 = *self;
        let mut d: u16 = 1;
        while d <= max_depth
            invariant_except_break
                !info.abort,
            invariant
                self.wf(),
                sane(self.board),
                same_setup(self, &e0),
                e0.board == old(self).board,
                e0.keys == old(self).keys,
                1 <= d <= max_depth + 1,
                max_depth <= MAX_DEPTH,
                limits.depth is Some ==> max_depth == limits.depth.unwrap(),
                last_complete_info.best_move.0 != 0 ==> good_move(self.board@, last_complete_info.best_move),
                line_legal(self.board@, last_complete_info.pv@),
                last_complete_info.depth <= d,
                last_complete_info.depth <= max_depth,
                d > 1 ==> last_complete_info.depth >= 1,
                d > 1 && (exists|m: Move| good_move(self.board@, m)) ==> last_complete_info.best_move.0 != 0,
                score_ok(last_complete_info.score as int),
                forall|i: &SearchInfo| call_requires(on_iteration, (i,)),
            ensures
                self.wf(),
                sane(self.board),
                same_setup(self, &e0),
                last_complete_info.best_move.0 != 0 ==> good_move(self.board@, last_complete_info.best_move),
                line_legal(self.board@, last_complete_info.pv@),
                last_complete_info.depth <= max_depth,
                score_ok(last_complete_info.score as int),
                max_depth >= 1 ==> last_complete_info.depth >= 1,
                max_depth >= 1 && (exists|m: Move| good_move(self.board@, m)) ==> last_complete_info.best_move.0 != 0,
            decreases max_depth + 1 - d,
        {
            let last_iteration_nodes = info.nodes;
            info.nodes = info.nodes.saturating_add(1);
            info.is_mandatory = d == 1;
            let (best_score, best_move) = self.aspiration(d, last_complete_info.score as i32, limits, &mut info);
            if info.abort {
                last_complete_info.nodes = info.nodes;
                last_complete_info.seldepth = info.seldepth;
                last_complete_info.stats = info.stats;
                last_complete_info.depth = d;
                last_complete_info.pv = self.gen_pv();
                on_iteration(&last_complete_info);
                break;
            }
            let root_key = self.zob();
            let age = self.shared.tt.get_generation();
            self.shared.tt.store(
                TTEntry { key: root_key, depth: d, score: best_score, flag: TTFlag::Exact, best_move, age },
            );
            info.depth = d;
            info.score = best_score as i16;
            info.best_move = best_move;
            info.pv = self.gen_pv();
            info.stats.nodes_by_depth[d as usize] = info.nodes.saturating_sub(last_iteration_nodes) as usize;
            info.stats.nodes = info.nodes as usize;
            last_complete_info = info.snapshot();
            on_iteration(&info);
            d += 1;
            match limits.soft_time {
                Some(time) => {
                    if time <= elapsed_ms(&info.start_time) {
                        break;
                    }
                },
                None => {},
            }
        }
        last_complete_info
    }
}

} // verus!
