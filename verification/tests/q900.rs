use half2k::board::Board;
use half2k::features::{gather_pieces, Pos};
use half2k::nnue_q900::{carrega, evaluate, evaluate_checked, RedeQ900, D1, D2, HL, N_IN, NB};

const START: &str = "rnbqkbnr/pppppppp/8/8/8/8/PPPPPPPP/RNBQKBNR w KQkq - 0 1";

fn zero_net() -> RedeQ900 {
    RedeQ900 {
        l0w: vec![0; N_IN * HL],
        l0b: vec![0; HL],
        d1w: vec![0; 2 * HL * D1 * NB],
        d1b: vec![0; D1 * NB],
        d2w: vec![0; D1 * D2 * NB],
        d2b: vec![0; D2 * NB],
        d3w: vec![0; D2 * NB],
        d3b: vec![0; NB],
    }
}

fn small_head(net: &mut RedeQ900) {
    for k in 0..HL {
        net.l0b[k] = 100;
    }
    // Bucket 7 for the 32 pieces of the start position.
    net.d1w[7 * D1] = 100;
    net.d2w[7 * D2] = 60;
    net.d3w[7] = 100;
    net.d3b[7] = 5;
}

#[test]
fn the_file_must_end_in_the_signature() {
    let total = N_IN * HL + HL + 2 * HL * D1 * NB + D1 * NB + D1 * D2 * NB + 2 * D2 * NB + NB;
    let mut bytes = vec![0u8; 2 * total + 48];
    bytes[2] = 0x10; // l0w[1] = 16
    let net = carrega(&bytes).expect("geometry and signature match");
    assert_eq!(net.l0w[1], 16);
    assert_eq!(net.d3b.len(), NB);
    bytes.push(0);
    assert!(carrega(&bytes).is_none());
    assert!(carrega(&bytes[..2 * total + 47]).is_none());
}

#[test]
fn q900_head_on_the_biases_alone() {
    let mut net = zero_net();
    small_head(&mut net);
    let b = Board::from_fen(START);
    // x = 10000: 3921 -> 3721 -> 875 -> 169 -> 71, at 900 / (255 * 64).
    assert_eq!(evaluate(&net, &b, false, false), 3);
}

#[test]
fn the_factorised_twin_and_the_layout_switches() {
    let b = Board::from_fen(START);
    let mut feats = Vec::new();
    gather_pieces(&Pos { pieces: b.pieces }, 0, &mut feats);
    let f = feats[0];
    let mut net = zero_net();
    small_head(&mut net);
    net.l0w[(704 + f) * HL] = 55;
    net.l0w[(f % 704) * HL] = 7;
    // Unit 0 of the side to move: 162 with the twin, 155 without.
    assert_eq!(evaluate(&net, &b, false, false), 191);
    assert_eq!(evaluate_checked(&net, &b, false, false), Some(191));
    assert_eq!(evaluate(&net, &b, true, false), 135);
    let mut tnet = zero_net();
    small_head(&mut tnet);
    tnet.l0w[704 + f] = 55;
    tnet.l0w[f % 704] = 7;
    assert_eq!(evaluate(&tnet, &b, false, true), 191);
}
