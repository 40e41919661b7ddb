use lib::board::Board;
use lib::engine::{Engine, HistoryTable, Killers};
use lib::evaluation::{evaluate, get_game_phase, get_pesto_score, init_pesto_table, king_safety_score, mobility_score, pawn_struct_score};
use lib::items::{Move, MoveFlag};
use lib::search::{SearchInfo, SearchLimits, SearchParams, MAX_DEPTH};
use lib::tt::{TTEntry, TTFlag, TranspositionTable};
use lib::zobrist::{init_zobrist, Rng};
use lib::position::zob_key;

#[test]
fn start_position_evaluates_to_tempo() {
    let b = Board::start_pos();
    let t = init_pesto_table();
    assert_eq!(get_pesto_score(&b, &t), 0);
    assert_eq!(mobility_score(&b), 0);
    assert_eq!(pawn_struct_score(&b), 0);
    assert_eq!(king_safety_score(&b), 0);
    assert_eq!(get_game_phase(&b), 24);
    assert_eq!(evaluate(&b, &t), 10);
}

#[test]
fn evaluation_is_side_relative() {
    let t = init_pesto_table();
    let w = Board::parse_fen("4k3/8/8/8/8/8/8/3QK3 w - - 0 1").unwrap();
    let b = Board::parse_fen("4k3/8/8/8/8/8/8/3QK3 b - - 0 1").unwrap();
    let ew = evaluate(&w, &t);
    let eb = evaluate(&b, &t);
    assert!(ew > 800);
    assert_eq!(ew, -eb);
}

#[test]
fn doubled_and_isolated_pawns_cost() {
    let healthy = Board::parse_fen("4k3/8/8/8/8/8/3PP3/4K3 w - - 0 1").unwrap();
    let doubled = Board::parse_fen("4k3/8/8/8/8/4P3/4P3/4K3 w - - 0 1").unwrap();
    assert!(pawn_struct_score(&doubled) < pawn_struct_score(&healthy));
}

#[test]
fn zobrist_keys_are_reproducible() {
    let a = init_zobrist();
    let b = init_zobrist();
    assert_eq!(a.pieces, b.pieces);
    assert_eq!(a.side, b.side);
    let board = Board::start_pos();
    assert_eq!(zob_key(&board, &a), zob_key(&board, &b));
    let other = Board::parse_fen("rnbqkbnr/pppppppp/8/8/4P3/8/PPPP1PPP/RNBQKBNR b KQkq e3 0 1").unwrap();
    assert_ne!(zob_key(&board, &a), zob_key(&other, &a));
}

#[test]
fn rng_is_xorshift() {
    let mut r = Rng::new(1);
    let mut s: u64 = 1;
    s ^= s >> 12;
    s ^= s << 25;
    s ^= s >> 27;
    assert_eq!(r.rand64(), s.wrapping_mul(lib::zobrist::RNG_MUL));
}

#[test]
fn tt_store_then_probe() {
    let mut tt = TranspositionTable::new(1);
    let key = 0x1234_5678_9abc_def0u64;
    assert!(tt.probe(key).is_none());
    let mv = Move::new(12, 28, MoveFlag(MoveFlag::DOUBLE_PUSH));
    tt.store(TTEntry { key, depth: 7, score: -123, flag: TTFlag::LowerBound, best_move: mv, age: 0 });
    let e = tt.probe(key).unwrap();
    assert_eq!(e.depth(), 7);
    assert_eq!(e.score(), -123);
    assert_eq!(e.flag(), TTFlag::LowerBound);
    assert_eq!(e.best_move(), mv);
    tt.clear();
    assert!(tt.probe(key).is_none());
}

#[test]
fn tt_generation_wraps() {
    let mut tt = TranspositionTable::new(1);
    assert_eq!(tt.get_generation(), 0);
    for _ in 0..256 {
        tt.inc_generation();
    }
    assert_eq!(tt.get_generation(), 0);
}

#[test]
fn history_gravity_moves_toward_bonus() {
    let mut h = HistoryTable::new();
    h.update(0, 12, 28, 400);
    assert_eq!(h.get(0, 12, 28), 400);
    h.update(0, 12, 28, 400);
    assert_eq!(h.get(0, 12, 28), 792);
    assert_eq!(h.get(1, 12, 28), 0);
}

#[test]
fn killers_shift() {
    let mut k = Killers::new();
    let a = Move::new(1, 18, MoveFlag(MoveFlag::QUIET));
    let b = Move::new(6, 21, MoveFlag(MoveFlag::QUIET));
    k.update(a, 3);
    k.update(b, 3);
    assert_eq!(k.get(3), [b, a]);
    k.update(b, 3);
    assert_eq!(k.get(3), [b, a]);
    assert_eq!(k.get(4), [Move(0), Move(0)]);
}

#[test]
fn see_of_simple_exchanges() {
    let rxn = Move::new(4, 36, MoveFlag(MoveFlag::CAPTURE));
    let free_knight = Board::parse_fen("k7/8/8/4n3/8/8/8/4R2K w - - 0 1").unwrap();
    assert_eq!(free_knight.see(&rxn), 320);
    let defended = Board::parse_fen("k7/8/3p4/4n3/8/8/8/4R2K w - - 0 1").unwrap();
    assert_eq!(defended.see(&rxn), 320 - 500);
}

#[test]
fn search_finds_back_rank_mate() {
    let mut e = Engine::new();
    e.board = Board::parse_fen("6k1/5ppp/8/8/8/8/5PPP/R5K1 w - - 0 1").unwrap();
    let limits = SearchLimits::with_depth(3);
    let info = e.search_ids(&limits, |_: &SearchInfo| {});
    assert_eq!(info.best_move.to_coord(), "a1a8");
    assert_eq!(info.get_mate_depth(), Some(1));
    assert_eq!(info.depth, 3);
    assert_eq!(info.pv[0].to_coord(), "a1a8");
}

#[test]
fn search_returns_a_legal_move_from_start() {
    let mut e = Engine::new();
    let limits = SearchLimits::with_depth(2);
    let info = e.search_ids(&limits, |i: &SearchInfo| {
        assert!(i.depth >= 1);
    });
    assert_eq!(info.depth, 2);
    let mut b = Board::start_pos();
    let legal = b.gen_moves();
    assert!(legal.contains(&info.best_move));
    assert!(MAX_DEPTH >= 2);
}

#[test]
fn search_with_zero_depth_does_nothing() {
    let mut e = Engine::new();
    let info = e.search_ids(&SearchLimits::with_depth(0), |_: &SearchInfo| {});
    assert_eq!(info.depth, 0);
    assert_eq!(info.best_move, Move(0));
}

#[test]
fn mate_depth_of_scores() {
    let mut i = SearchInfo::new();
    i.score = 26_999;
    assert_eq!(i.get_mate_depth(), Some(1));
    i.score = -26_998;
    assert_eq!(i.get_mate_depth(), Some(-1));
    i.score = 150;
    assert_eq!(i.get_mate_depth(), None);
}

#[test]
fn search_in_stalemate_returns_no_move() {
    let mut e = Engine::new();
    e.board = Board::parse_fen("7k/5Q2/6K1/8/8/8/8/8 b - - 0 1").unwrap();
    assert!(e.board.gen_moves().is_empty());
    let info = e.search_ids(&SearchLimits::with_depth(2), |_: &SearchInfo| {});
    assert_eq!(info.best_move, Move(0));
}

#[test]
fn search_with_one_legal_move_plays_it() {
    let mut e = Engine::new();
    e.board = Board::parse_fen("k7/P7/1K6/7p/8/8/8/8 b - - 0 1").unwrap();
    let only = e.board.gen_moves();
    assert_eq!(only.len(), 1);
    let info = e.search_ids(&SearchLimits::with_depth(1), |_: &SearchInfo| {});
    assert_eq!(info.best_move, only[0]);
}

#[test]
fn picker_hands_out_every_legal_move() {
    let mut e = Engine::new();
    e.board = Board::parse_fen("r3k2r/p1ppqpb1/bn2pnp1/3PN3/1p2P3/2N2Q1p/PPPBBPPP/R3K2R w KQkq - 0 1").unwrap();
    let legal = e.board.gen_moves();
    let tt = legal[5];
    let mut picker = lib::move_pick::MovePicker::new(tt, [legal[7], Move(0)], Move(0), false);
    let mut got: Vec<Move> = Vec::new();
    while let Some(m) = e.pick_next_mv(&mut picker) {
        got.push(m);
    }
    assert_eq!(got[0], tt);
    for m in legal.iter() {
        assert!(got.contains(m));
    }
    for m in got.iter() {
        assert!(legal.contains(m));
    }
}

#[test]
fn tactical_scores_of_captures_and_promotions() {
    let rxn = Move::new(4, 36, MoveFlag(MoveFlag::CAPTURE));
    let free_knight = Board::parse_fen("k7/8/8/4n3/8/8/8/4R2K w - - 0 1").unwrap();
    assert_eq!(free_knight.score_tactical_move(rxn), 70_000_000 + 320 * 10 - 500 + 320);
    let defended = Board::parse_fen("k7/8/3p4/4n3/8/8/8/4R2K w - - 0 1").unwrap();
    assert_eq!(defended.score_tactical_move(rxn), 1_000_000 + 320 * 10 - 500 + (320 - 500));
    let promo = Board::parse_fen("k7/4P3/8/8/8/8/8/7K w - - 0 1").unwrap();
    let queen_promo = Move::new(52, 60, MoveFlag(MoveFlag::PROMO_QUEEN));
    assert_eq!(promo.score_tactical_move(queen_promo), 60_000_000 + 900);
}

#[test]
fn end_game_table_is_mirrored_for_white() {
    let t = init_pesto_table();
    assert_eq!(t.eg[8], 94 + 13);
    assert_eq!(t.eg[6 * 64 + 8], 94 + 178);
    assert_eq!(t.mg[8], 82 - 35);
}

#[test]
fn kiwipete_perft_four() {
    let mut engine = Engine::new();
    engine.board = Board::load_fen("r3k2r/p1ppqpb1/bn2pnp1/3PN3/1p2P3/2N2Q1p/PPPBBPPP/R3K2R w KQkq - ");
    assert_eq!(lib::perft::perft(&mut engine.board, 4), 4_085_603);
}

#[test]
fn kiwipete_search_completes_depth_eight() {
    let mut engine = Engine::new();
    engine.board = Board::load_fen("r3k2r/p1ppqpb1/bn2pnp1/3PN3/1p2P3/2N2Q1p/PPPBBPPP/R3K2R w KQkq - ");
    let before = zob_key(&engine.board, &engine.keys);
    let data = engine.search_ids(&SearchLimits::with_depth(8), |_: &SearchInfo| {});
    assert_eq!(data.depth, 8);
    assert!(data.nodes > 0);
    assert!(data.best_move != Move(0));
    assert_eq!(zob_key(&engine.board, &engine.keys), before);
}

#[test]
fn depth_one_search_finds_mate_in_one() {
    let mut e = Engine::new();
    e.board = Board::load_fen("6k1/5ppp/8/8/8/8/8/R5K1 w - - 0 1");
    let r = e.search_ids(&SearchLimits::with_depth(1), |_: &SearchInfo| {});
    assert_eq!(r.best_move, Move::new(0, 56, MoveFlag(MoveFlag::QUIET)));
    assert_eq!(r.score, 26_999);
    assert_eq!(r.depth, 1);
    assert_eq!(r.get_mate_depth(), Some(1));
}

fn open_window(ply: i32) -> SearchParams {
    SearchParams { depth: 2, alpha: -27_500, beta: 27_500, ply, extension: 0, prev_move: Move(0), excluded_move: Move(0) }
}

#[test]
fn quiescence_scores_at_least_the_static_evaluation() {
    let mut e = Engine::new();
    e.board = Board::load_fen("4k3/8/8/3q4/4P3/8/8/4K3 w - - 0 1");
    let stand = e.evaluate(1);
    let mut info = SearchInfo::new();
    info.is_mandatory = false;
    let r = e.quiescence(open_window(1), &mut info, &SearchLimits::with_depth(1));
    assert!(!info.abort);
    assert!(r >= stand);
    assert!(r > stand + 500);
}

#[test]
fn quiescence_scores_checkmate_and_repetition() {
    let mut e = Engine::new();
    e.board = Board::load_fen("R5k1/5ppp/8/8/8/8/8/6K1 b - - 0 1");
    let mut info = SearchInfo::new();
    info.is_mandatory = false;
    let r = e.quiescence(open_window(3), &mut info, &SearchLimits::with_depth(1));
    assert_eq!(r, -27_000 + 3);
    let mut e2 = Engine::new();
    e2.board = Board::load_fen("4k3/8/8/8/8/8/8/4K2R w - - 0 1");
    let key = zob_key(&e2.board, &e2.keys);
    e2.game_history.push(key);
    let mut info2 = SearchInfo::new();
    info2.is_mandatory = false;
    assert_eq!(e2.quiescence(open_window(2), &mut info2, &SearchLimits::with_depth(1)), 0);
}

#[test]
fn negamax_scores_stalemate_as_a_draw() {
    let mut e = Engine::new();
    e.board = Board::load_fen("7k/5Q2/6K1/8/8/8/8/8 b - - 0 1");
    let mut info = SearchInfo::new();
    let p = SearchParams { depth: 1, alpha: -27_500, beta: 27_500, ply: 1, extension: 0, prev_move: Move(0), excluded_move: Move(0) };
    assert_eq!(e.negamax(p, &SearchLimits::with_depth(1), &mut info), 0);
}

#[test]
fn limits_stop_only_for_their_causes() {
    let limits = SearchLimits::with_depth(5);
    let mut i = SearchInfo::new();
    i.is_mandatory = false;
    i.nodes = 4096;
    i.apply_limits(&limits, false, 1_000_000);
    assert!(!i.abort);
    i.apply_limits(&limits, true, 0);
    assert!(i.abort);
    let mut j = SearchInfo::new();
    j.is_mandatory = false;
    j.nodes = 4096;
    let mut by_nodes = SearchLimits::with_depth(5);
    by_nodes.nodes = Some(4000);
    j.apply_limits(&by_nodes, false, 0);
    assert!(j.abort);
    let mut k = SearchInfo::new();
    k.is_mandatory = false;
    k.nodes = 4097;
    k.apply_limits(&by_nodes, false, 0);
    assert!(!k.abort);
    let mut timed = SearchLimits::with_depth(5);
    timed.hard_time = Some(10);
    k.nodes = 2048;
    k.apply_limits(&timed, false, 9);
    assert!(!k.abort);
    k.apply_limits(&timed, false, 10);
    assert!(k.abort);
    let mut m = SearchInfo::new();
    m.apply_limits(&by_nodes, true, 0);
    assert!(!m.abort);
}

#[test]
fn mobility_and_king_safety_vanish_without_pieces() {
    let b = Board::load_fen("3qk3/pppppppp/8/8/8/8/PPPPPPPP/3QK3 w - - 0 1");
    assert_eq!(mobility_score(&b), 0);
    let kp = Board::load_fen("4k3/pppp4/8/8/8/8/4PPPP/4K3 w - - 0 1");
    assert_eq!(get_game_phase(&kp), 0);
    assert_eq!(king_safety_score(&kp), 0);
}

#[test]
fn mobility_and_king_safety_change_sign_when_colours_swap() {
    let b = Board::load_fen("r3k2r/p1ppqpb1/bn2pnp1/3PN3/1p2P3/2N2Q1p/PPPBBPPP/R3K2R w KQkq - 0 1");
    let f = Board::load_fen("r3k2r/pppbbppp/2n2q1P/1P2p3/3pn3/BN2PNP1/P1PPQPB1/R3K2R b KQkq - 0 1");
    assert_eq!(mobility_score(&f), -mobility_score(&b));
    assert_eq!(king_safety_score(&f), -king_safety_score(&b));
    let g = Board::load_fen("r1bq1rk1/pp3ppp/2n1pn2/3p4/1bPP4/2N1PN2/PP3PPP/R1BQKB1R w KQ - 0 1");
    let gf = Board::load_fen("r1bqkb1r/pp3ppp/2n1pn2/1Bpp4/3P4/2N1PN2/PP3PPP/R1BQ1RK1 b kq - 0 1");
    assert_eq!(mobility_score(&gf), -mobility_score(&g));
    assert_eq!(king_safety_score(&gf), -king_safety_score(&g));
}
