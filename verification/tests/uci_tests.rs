use lib::board::Board;
use lib::items::Move;
use lib::uci::{parse_dec, parse_setoption, GoControl, SetOption};
use lib::search::SearchLimits;
use lib::items::Color;

#[test]
fn decimal_numbers() {
    assert_eq!(parse_dec("0", u64::MAX), Some(0));
    assert_eq!(parse_dec("+12", u64::MAX), Some(12));
    assert_eq!(parse_dec("18446744073709551615", u64::MAX), Some(u64::MAX));
    assert_eq!(parse_dec("18446744073709551616", u64::MAX), None);
    assert_eq!(parse_dec("65536", 65535), None);
    assert_eq!(parse_dec("", u64::MAX), None);
    assert_eq!(parse_dec("+", u64::MAX), None);
    assert_eq!(parse_dec("-1", u64::MAX), None);
    assert_eq!(parse_dec("12a", u64::MAX), None);
}

#[test]
fn go_parameters() {
    let toks = ["wtime", "60000", "btime", "59000", "winc", "1000", "binc", "900", "movestogo", "20", "depth", "9"];
    let c = GoControl::parse(&toks);
    assert_eq!(c.wtime, Some(60000));
    assert_eq!(c.btime, Some(59000));
    assert_eq!(c.winc, Some(1000));
    assert_eq!(c.binc, Some(900));
    assert_eq!(c.movestogo, Some(20));
    assert_eq!(c.depth, Some(9));
    assert!(!c.infinite);
    assert_eq!(c.nodes, None);
}

#[test]
fn go_keyword_without_number() {
    let c = GoControl::parse(&["depth", "infinite", "movetime"]);
    assert_eq!(c.depth, None);
    assert!(!c.infinite);
    assert_eq!(c.movetime, None);
    let d = GoControl::parse(&["infinite", "nodes", "5000", "mate", "3", "junk"]);
    assert!(d.infinite);
    assert_eq!(d.nodes, Some(5000));
    assert_eq!(d.mate, Some(3));
}

#[test]
fn limits_from_clock() {
    let c = GoControl::parse(&["wtime", "60000", "btime", "30000", "winc", "1000"]);
    let l = SearchLimits::from_go(&c, Color::White);
    assert_eq!(l.soft_time, Some(((59950 / 30 + 750) * 6 / 10) as u64));
    assert_eq!(l.hard_time, Some(((59950 / 30 + 750) * 2) as u64));
    let m = GoControl::parse(&["movetime", "250"]);
    let lm = SearchLimits::from_go(&m, Color::Black);
    assert_eq!(lm.soft_time, Some(250));
    assert_eq!(lm.hard_time, Some(250));
    let low = GoControl::parse(&["btime", "30"]);
    let ll = SearchLimits::from_go(&low, Color::Black);
    assert_eq!(ll.soft_time, Some(1));
    assert_eq!(ll.hard_time, Some(25));
}

#[test]
fn setoption_commands() {
    assert_eq!(parse_setoption(&["name", "Hash", "value", "32"]), SetOption::Hash(32));
    assert_eq!(parse_setoption(&["name", "hash", "value", "0"]), SetOption::Hash(1));
    assert_eq!(parse_setoption(&["name", "HASH", "value", "99999999"]), SetOption::Hash(1_048_576));
    assert_eq!(parse_setoption(&["name", "Threads", "value", "4"]), SetOption::Threads(4));
    assert_eq!(parse_setoption(&["name", "Threads", "value", "5000"]), SetOption::Threads(1024));
    assert_eq!(parse_setoption(&["name", "Threads", "value", "70000"]), SetOption::InvalidOption);
    assert_eq!(parse_setoption(&["name", "Clear", "Hash"]), SetOption::ClearHash);
    assert_eq!(parse_setoption(&["name", "Clear", "table"]), SetOption::InvalidOptionType);
    assert_eq!(parse_setoption(&["name", "Hash", "32"]), SetOption::Incomplete);
    assert_eq!(parse_setoption(&["Hash"]), SetOption::Incomplete);
    assert_eq!(parse_setoption(&["name"]), SetOption::NoOption);
    assert_eq!(parse_setoption(&["name", "Ponder", "value", "true"]), SetOption::InvalidOption);
}

#[test]
fn uci_moves_are_found_and_played() {
    let mut b = Board::start_pos();
    let m = Move::from_uci("e2e4", &mut b).unwrap();
    assert_eq!(m.to_coord(), "e2e4");
    assert!(Move::from_uci("e2e5", &mut b).is_none());
    let played = b.play_moves(&["e2e4", "e7e5", "g1f3", "b8c6", "e1e3", "a7a6"]);
    assert_eq!(played.len(), 4);
    assert_eq!(b.piece_on(21), 10);
    assert_eq!(b.piece_on(42), 18);
    assert_eq!(b.side_to_move(), Color::White);
}
