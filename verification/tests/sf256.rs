use half2k::board::Board;
use half2k::features::{gather_pieces, Pos};
use half2k::nnue_sf256::{carrega, evaluate, evaluate_checked, le_i16, screlu, RedeSf256, D1_REAL, D1_TOTAL, D2, HL, N_IN, NB};

const START: &str = "rnbqkbnr/pppppppp/8/8/8/8/PPPPPPPP/RNBQKBNR w KQkq - 0 1";

fn zero_net() -> RedeSf256 {
    RedeSf256 {
        l0w: vec![0; N_IN * HL],
        l0b: vec![0; HL],
        d1w: vec![0; 2 * HL * D1_TOTAL * NB],
        d1b: vec![0; D1_TOTAL * NB],
        d2w: vec![0; D1_REAL * D2 * NB],
        d2b: vec![0; D2 * NB],
        d3w: vec![0; D2 * NB],
        d3b: vec![0; NB],
    }
}

#[test]
fn little_endian_reads() {
    let b = [0x34u8, 0x12, 0xff, 0xff, 0x00, 0x80, 7];
    let mut off = 0usize;
    assert_eq!(le_i16(&b, &mut off, 3), Some(vec![0x1234, -1, -32768]));
    assert_eq!(off, 6);
    assert_eq!(le_i16(&b, &mut off, 1), None);
    assert_eq!(off, 6);
}

#[test]
fn screlu_clips_then_squares() {
    assert_eq!(screlu(-5), 0);
    assert_eq!(screlu(10), 100);
    assert_eq!(screlu(255), 65025);
    assert_eq!(screlu(1000), 65025);
}

#[test]
fn a_file_reads_block_by_block() {
    let total = N_IN * HL + HL + 2 * HL * D1_TOTAL * NB + D1_TOTAL * NB + D1_REAL * D2 * NB + 2 * D2 * NB + NB;
    let mut bytes = vec![0u8; 2 * total + 3];
    bytes[0] = 5; // l0w[0]
    let l0b = 2 * N_IN * HL;
    bytes[l0b + 2] = 0xfe; // l0b[1] = -2
    bytes[l0b + 3] = 0xff;
    bytes[2 * total - 2] = 9; // d3b[7]
    let net = carrega(&bytes).expect("long enough");
    assert_eq!(net.l0w[0], 5);
    assert_eq!(net.l0b[1], -2);
    assert_eq!(net.d3b[NB - 1], 9);
    assert_eq!(net.d1w.len(), 2 * HL * D1_TOTAL * NB);
    assert!(carrega(&bytes[..2 * total - 1]).is_none());
}

fn small_head(net: &mut RedeSf256) {
    for k in 0..HL {
        net.l0b[k] = 100;
    }
    // The start position has 32 pieces: bucket 7.
    net.d1w[231] = 100; // input 0 into output 0 of bucket 7
    net.d1b[7 * D1_TOTAL + 32] = 1000; // the skip
    net.d2w[224] = 300;
    net.d3w[7] = 10;
    net.d3b[7] = 5;
}

#[test]
fn sf256_head_on_the_biases_alone() {
    let mut net = zero_net();
    small_head(&mut net);
    let b = Board::from_fen(START);
    // x = 10000 everywhere: 3921 -> 3721 -> 4624 -> 186, plus the skip 1000.
    assert_eq!(evaluate(&net, &b), 29);
}

#[test]
fn a_piece_input_and_its_twin_move_the_score() {
    let mut net = zero_net();
    small_head(&mut net);
    let b = Board::from_fen(START);
    let mut feats = Vec::new();
    gather_pieces(&Pos { pieces: b.pieces }, 0, &mut feats);
    let f = feats[0];
    net.l0w[(704 + f) * HL] = 55;
    net.l0w[(f % 704) * HL] = 7;
    // The side to move's unit 0 reads 162: 26244 -> 25600 -> 65025 -> 2555.
    assert_eq!(evaluate(&net, &b), 89);
    assert_eq!(evaluate_checked(&net, &b), Some(89));
}
