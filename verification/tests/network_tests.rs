use lib::board::Board;
use lib::engine::Engine;
use lib::items::Move;
use lib::network::{EvalBuf, Network};

#[test]
fn screlu_clamps_squares_and_scales() {
    let mut v = [-5i16, 0, 16, 128, 256, 300];
    Network::screlu(&mut v);
    assert_eq!(v, [0, 0, 1, 64, 256, 256]);
}

#[test]
fn dense_layer_rounds_and_clamps() {
    let inp = [256i16, 128];
    let w = [256i16, 256, -256, 0, 32767, 32767];
    let b = [10i16, 0, 0];
    let mut out = [0i16; 4];
    out[3] = 77;
    Network::process_layer(&inp, &mut out, &w, &b, true);
    assert_eq!(out[0], 394);
    assert_eq!(out[1], -256);
    assert_eq!(out[2], 32767);
    assert_eq!(out[3], 77);
}

#[test]
fn transposed_weights() {
    let w = [1i16, 2, 3, 4, 5, 6];
    let t = Network::transpose_weights(&w, 2, 3);
    assert_eq!(t, vec![1, 4, 2, 5, 3, 6]);
}

#[test]
fn accumulator_updates_wrap() {
    let mut acc = [0i16; 256];
    acc[0] = 32767;
    let mut w = vec![0i16; 512];
    w[256] = 1;
    w[257] = 5;
    Network::apply_single_update(&mut acc, &w, 1, false);
    assert_eq!(acc[0], -32768);
    assert_eq!(acc[1], 5);
    Network::apply_single_update(&mut acc, &w, 1, true);
    assert_eq!(acc[0], 32767);
    assert_eq!(acc[1], 0);
}

#[test]
fn feature_indices() {
    assert_eq!(Network::feature_w(0, 8, 4), 768 + (8 ^ 7));
    assert_eq!(Network::feature_w(3, 8, 1), 0 * 768 + 3 * 64 + 8);
    assert_eq!(Network::feature_b(0, 8, 60), 768 + 6 * 64 + (48 ^ 7));
}

#[test]
fn header_is_checked() {
    assert!(!Network::header_ok(b"BLAZE_V#"));
    let mut data = vec![0u8; 3_163_818];
    data[..8].copy_from_slice(b"BLAZE_V#");
    assert!(Network::header_ok(&data));
    data[20] = 1;
    data[21] = 1;
    let n = Network::load(&data);
    assert_eq!(n.w1[6], 257);
    assert_eq!(n.b4.len(), 1);
    let mut buf = EvalBuf::new();
    let acc = vec![0i16; 512];
    assert_eq!(n.eval_with_acc(&mut buf, &acc), 0);
}

fn pseudo_random_network() -> Vec<u8> {
    let mut data = vec![0u8; 3_163_818];
    data[..8].copy_from_slice(b"BLAZE_V#");
    let mut s: u64 = 0x9E37_79B9_7F4A_7C15;
    for b in data[8..].iter_mut() {
        s ^= s << 13;
        s ^= s >> 7;
        s ^= s << 17;
        *b = (s % 7) as u8;
    }
    data
}

#[test]
fn incremental_update_matches_rebuild() {
    let data = pseudo_random_network();
    let net = Network::load(&data);
    let mut e = Engine::new();
    e.network = Some(std::sync::Arc::new(Network::load(&data)));
    e.board = Board::parse_fen("r3k2r/p1ppqpb1/bn2pnp1/3PN3/1p2P3/2N2Q1p/PPPBBPPP/R3K2R w KQkq - 0 1").unwrap();
    for text in ["e5f7", "e1g1", "d5e6", "e1d1", "a2a4"] {
        let mut b = e.board.clone();
        let mv = Move::from_uci(text, &mut b).unwrap();
        let saved = e.board.clone();
        e.accumulators.setup(&net, &e.board);
        let undo = e.board.make_move(&mv);
        e.update_nnue(&mv, &undo, 0);
        let rebuilt = net.build_acc(&e.board);
        assert_eq!(e.accumulators.get(1), rebuilt, "move {}", text);
        e.board = saved;
    }
}

#[test]
fn network_evaluate_uses_side_to_move_first() {
    let data = pseudo_random_network();
    let net = Network::load(&data);
    let b = Board::start_pos();
    let acc = net.build_acc(&b);
    let mut input = acc[0].to_vec();
    input.extend_from_slice(&acc[1]);
    let mut buf = EvalBuf::new();
    assert_eq!(net.evaluate(&b), net.eval_with_acc(&mut buf, &input));
}
