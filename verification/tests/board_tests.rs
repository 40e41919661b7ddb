use lib::board::Board;
use lib::items::{Color, Move, MoveFlag, Piece};
use lib::perft::perft;
use lib::square::Square;

const KIWIPETE: &str = "r3k2r/p1ppqpb1/bn2pnp1/3PN3/1p2P3/2N2Q1p/PPPBBPPP/R3K2R w KQkq - 0 1";

#[test]
fn start_position_perft_one_to_three() {
    let mut b = Board::start_pos();
    assert_eq!(perft(&mut b, 1), 20);
    assert_eq!(perft(&mut b, 2), 400);
    assert_eq!(perft(&mut b, 3), 8902);
}

#[test]
fn perft_depth_zero_counts_one() {
    let mut b = Board::start_pos();
    assert_eq!(perft(&mut b, 0), 1);
}

#[test]
fn kiwipete_perft_one_and_two() {
    let mut b = Board::parse_fen(KIWIPETE).unwrap();
    assert!(b.is_sane());
    assert_eq!(perft(&mut b, 1), 48);
    assert_eq!(perft(&mut b, 2), 2039);
}

#[test]
fn perft_leaves_board_unchanged() {
    let mut b = Board::parse_fen(KIWIPETE).unwrap();
    let before = b.render_board_debug(0, 0, 0);
    perft(&mut b, 2);
    assert_eq!(b.render_board_debug(0, 0, 0), before);
}

#[test]
fn parse_fen_rejects_bad_text() {
    assert!(Board::parse_fen("").is_none());
    assert!(Board::parse_fen("rnbqkbnr/ppppxppp/8/8/8/8/PPPPPPPP/RNBQKBNR w KQkq - 0 1").is_none());
    assert!(Board::parse_fen("rnbqkbnr/pppppppp/8/8/8/8/PPPPPPPP/RNBQKBNR w").is_none());
    assert!(Board::parse_fen("rnbqkbnr/pppppppp/8/8/8/8/PPPPPPPP/RNBQKBNR x KQkq - 0 1").is_none());
    assert!(Board::parse_fen("rnbqkbnr/pppppppp/9/8/8/8/PPPPPPPP/RNBQKBNR w KQkq - 0 1").is_none());
}

#[test]
fn parse_fen_start_matches_start_pos() {
    let a = Board::parse_fen("rnbqkbnr/pppppppp/8/8/8/8/PPPPPPPP/RNBQKBNR w KQkq - 0 1").unwrap();
    let b = Board::start_pos();
    assert_eq!(a.render_board_debug(0, 0, 0), b.render_board_debug(0, 0, 0));
    assert_eq!(a.piece_on(4), Piece::WHITE | Piece::KING);
    assert_eq!(a.piece_on(60), Piece::BLACK | Piece::KING);
}

#[test]
fn square_text_round_trip() {
    assert_eq!(Square::from_str("e4"), Some(Square(28)));
    assert_eq!(Square::from_str("a1"), Some(Square(0)));
    assert_eq!(Square::from_str("h8"), Some(Square(63)));
    assert_eq!(Square::from_str("i1"), None);
    assert_eq!(Square::from_str("e9"), None);
    assert_eq!(Square::from_str("e"), None);
    assert_eq!(Square(28).to_coord(), "e4");
}

#[test]
fn move_text_and_fields() {
    let m = Move::new(12, 28, MoveFlag(MoveFlag::DOUBLE_PUSH));
    assert_eq!(m.from(), 12);
    assert_eq!(m.to(), 28);
    assert_eq!(m.flag().0, MoveFlag::DOUBLE_PUSH);
    assert_eq!(m.to_coord(), "e2e4");
    let promo = Move::new(52, 60, MoveFlag(MoveFlag::PROMO_QUEEN));
    assert_eq!(promo.to_coord(), "e7e8q");
}

#[test]
fn make_and_undo_restore_the_board() {
    let mut b = Board::start_pos();
    let before = b.render_board_debug(0, 0, 0);
    let m = Move::new(12, 28, MoveFlag(MoveFlag::DOUBLE_PUSH));
    let undo = b.make_move(&m);
    assert_eq!(b.piece_on(28), Piece::WHITE | Piece::PAWN);
    assert_eq!(b.piece_on(12), 0);
    assert_eq!(b.en_passant_square(), Some(20));
    b.undo_move(&m, &undo);
    assert_eq!(b.render_board_debug(0, 0, 0), before);
}

#[test]
fn null_move_round_trip() {
    let mut b = Board::parse_fen(KIWIPETE).unwrap();
    let before = b.render_board_debug(0, 0, 0);
    let side = b.side_to_move();
    let ep = b.make_null_move();
    assert_ne!(b.side_to_move(), side);
    b.unmake_null_move(ep);
    assert_eq!(b.side_to_move(), side);
    assert_eq!(b.render_board_debug(0, 0, 0), before);
}

#[test]
fn render_board_layout() {
    let b = Board::start_pos();
    let lines = b.render_board_debug(1u64 << 4, 1u64 << 12, 1u64 << 28);
    assert_eq!(lines.len(), 18);
    assert_eq!(lines[0], "   ┌───┬───┬───┬───┬───┬───┬───┬───┐");
    assert_eq!(lines[1], "8  │ r │ n │ b │ q │ k │ b │ n │ r │");
    assert_eq!(lines[2], "   ├───┼───┼───┼───┼───┼───┼───┼───┤");
    assert_eq!(lines[13], "2  │ P │ P │ P │ P │(P)│ P │ P │ P │");
    assert_eq!(lines[15], "1  │ R │ N │ B │ Q │[K]│ B │ N │ R │");
    assert_eq!(lines[9], "4  │   │   │   │   │ * │   │   │   │");
    assert_eq!(lines[16], "   └───┴───┴───┴───┴───┴───┴───┴───┘");
    assert_eq!(lines[17], "     a   b   c   d   e   f   g   h");
}

#[test]
fn in_check_and_gives_check() {
    let mut b = Board::parse_fen("4k3/8/8/8/8/8/8/4K2R w - - 0 1").unwrap();
    assert!(!b.in_check());
    let rook_check = Move::new(7, 63, MoveFlag(MoveFlag::QUIET));
    assert!(b.gives_check(rook_check));
    let quiet = Move::new(7, 15, MoveFlag(MoveFlag::QUIET));
    assert!(!b.gives_check(quiet));
    let not_checked = Board::parse_fen("4k3/8/8/8/8/8/8/4KR2 b - - 0 1").unwrap();
    assert!(!not_checked.in_check());
    let checked = Board::parse_fen("4k3/8/8/8/8/8/8/4R1K1 b - - 0 1").unwrap();
    assert!(checked.in_check());
    let mut c = Board::parse_fen("4k3/8/8/8/8/8/8/R3K3 w - - 0 1").unwrap();
    let to_e8_file = Move::new(0, 56, MoveFlag(MoveFlag::QUIET));
    assert!(c.gives_check(to_e8_file));
}

#[test]
fn pseudo_legal_moves_include_pinned_ones() {
    let b = Board::start_pos();
    assert!(b.is_pseudo_legal_mv(Move::new(12, 28, MoveFlag(MoveFlag::DOUBLE_PUSH))));
    assert!(!b.is_pseudo_legal_mv(Move::new(12, 36, MoveFlag(MoveFlag::QUIET))));
    assert!(!b.is_pseudo_legal_mv(Move(0)));
    assert!(!b.is_pseudo_legal_mv(Move::new(52, 36, MoveFlag(MoveFlag::DOUBLE_PUSH))));
    let pinned = Board::parse_fen("4r1k1/8/8/8/8/8/4B3/4K3 w - - 0 1").unwrap();
    let bishop_move = Move::new(12, 21, MoveFlag(MoveFlag::QUIET));
    assert!(pinned.is_pseudo_legal_mv(bishop_move));
    let mut p = pinned.clone();
    assert!(!p.gen_moves().contains(&bishop_move));
}

#[test]
fn perft_position_with_en_passant_and_checks() {
    let mut b = Board::parse_fen("8/2p5/3p4/KP5r/1R3p1k/8/4P1P1/8 w - - 0 1").unwrap();
    assert_eq!(perft(&mut b, 1), 14);
    assert_eq!(perft(&mut b, 2), 191);
    assert_eq!(perft(&mut b, 3), 2812);
}

#[test]
fn perft_position_with_promotions() {
    let mut b = Board::parse_fen("r3k2r/Pppp1ppp/1b3nbN/nP6/BBP1P3/q4N2/Pp1P2PP/R2Q1RK1 w kq - 0 1").unwrap();
    assert_eq!(perft(&mut b, 1), 6);
    assert_eq!(perft(&mut b, 2), 264);
    assert_eq!(perft(&mut b, 3), 9467);
}

#[test]
fn perft_position_with_underpromotion_and_castling() {
    let mut b = Board::parse_fen("rnbq1k1r/pp1Pbppp/2p5/8/2B5/8/PPP1NnPP/RNBQK2R w KQ - 1 8").unwrap();
    assert_eq!(perft(&mut b, 1), 44);
    assert_eq!(perft(&mut b, 2), 1486);
}

#[test]
fn perft_divide_lists_each_legal_move_once() {
    let mut b = Board::parse_fen(KIWIPETE).unwrap();
    let split = lib::perft::perft_divide(&mut b, 2);
    assert_eq!(split.len(), 48);
    let total: u64 = split.iter().map(|e| e.1).sum();
    assert_eq!(total, 2039);
    for i in 0..split.len() {
        for j in (i + 1)..split.len() {
            assert_ne!(split[i].0, split[j].0);
        }
    }
}

#[test]
fn generated_moves_have_no_repeats() {
    let mut b = Board::parse_fen(KIWIPETE).unwrap();
    let moves = b.gen_moves();
    assert_eq!(moves.len(), 48);
    for i in 0..moves.len() {
        for j in (i + 1)..moves.len() {
            assert_ne!(moves[i], moves[j]);
        }
    }
}

#[test]
fn fen_without_castling_rights_gives_none() {
    let mut none = Board::parse_fen("r3k2r/8/8/8/8/8/8/R3K2R w - - 0 1").unwrap();
    assert_eq!(none.castling_rights().0, 0);
    assert!(none.gen_moves().iter().all(|m| !m.flag().is_castle()));
    let mut all = Board::parse_fen("r3k2r/8/8/8/8/8/8/R3K2R w KQkq - 0 1").unwrap();
    assert_eq!(all.castling_rights().0, 15);
    assert_eq!(all.gen_moves().iter().filter(|m| m.flag().is_castle()).count(), 2);
    let white_king_side = Board::parse_fen("r3k2r/8/8/8/8/8/8/R3K2R b Kq - 0 1").unwrap();
    assert_eq!(white_king_side.castling_rights().0, 1 | 8);
}

#[test]
fn kiwipete_perft_three() {
    let mut b = Board::parse_fen(KIWIPETE).unwrap();
    assert_eq!(perft(&mut b, 3), 97862);
}

fn pieces_on_board(b: &Board) -> usize {
    (0..64).filter(|&s| b.piece_on(s) != 0).count()
}

#[test]
fn a_capture_removes_one_piece_and_castling_none() {
    let mut b = Board::parse_fen(KIWIPETE).unwrap();
    let before = pieces_on_board(&b);
    let capture = Move::new(36, 53, MoveFlag(MoveFlag::CAPTURE));
    let undo = b.make_move(&capture);
    assert_eq!(pieces_on_board(&b), before - 1);
    b.undo_move(&capture, &undo);
    let castle = Move::new(4, 6, MoveFlag(MoveFlag::KING_CASTLE));
    b.make_move(&castle);
    assert_eq!(pieces_on_board(&b), before);
}

#[test]
fn check_detection_agrees_with_attackers() {
    let b = Board::parse_fen(KIWIPETE).unwrap();
    let all = b.all_occ();
    for pos in 0..64usize {
        for color in [Color::White, Color::Black] {
            let enemy = b.occ(&color.opponent());
            let by_attackers = b.attacks_to(pos, all) & enemy != 0;
            assert_eq!(b.is_square_atacked(pos, &color), by_attackers, "square {}", pos);
        }
    }
}
