use half2k::board::Board;
use half2k::features::{map_features_pairs_mode, Pos};
use half2k::nnue_juntas::{carrega, evaluate, evaluate_checked, RedeJuntas, G_L1, G_L2, N_ACTIVE, NB};

const START: &str = "rnbqkbnr/pppppppp/8/8/8/8/PPPPPPPP/RNBQKBNR w KQkq - 0 1";

fn zero_net(l1: usize) -> RedeJuntas {
    RedeJuntas {
        l1,
        accw: vec![0; N_ACTIVE * l1],
        accb: vec![0; l1],
        psqtw: vec![0; N_ACTIVE * NB],
        g_l1w: vec![0; 2 * l1 * G_L1],
        g_l1b: vec![0; G_L1],
        g_l2w: vec![0; G_L1 * G_L2],
        g_l2b: vec![0; G_L2],
        g_l3w: vec![0; G_L2 * NB],
        g_l3b: vec![0; NB],
    }
}

fn file_i16s(l1: usize) -> usize {
    let n_in = N_ACTIVE + 1;
    n_in * l1 + l1 + n_in * NB + NB + (32 * l1 + 824) + (64 * l1 + 1352) + 64 * l1 + 1352
}

#[test]
fn the_loader_drops_the_spare_row_and_skips_the_other_heads() {
    let l1 = 2;
    let total = file_i16s(l1);
    let mut bytes = vec![0u8; 2 * total];
    // accb[1] = 7, right after the weights of every input and the spare row.
    let accb = (N_ACTIVE + 1) * l1;
    bytes[2 * (accb + 1)] = 7;
    // The last value of the file is g_l3b[7].
    bytes[2 * (total - 1)] = 0x34;
    bytes[2 * (total - 1) + 1] = 0x12;
    let net = carrega(&bytes, l1).expect("the file is long enough");
    assert_eq!(net.accw.len(), N_ACTIVE * l1);
    assert_eq!(net.psqtw.len(), N_ACTIVE * NB);
    assert_eq!(net.accb, vec![0, 7]);
    assert_eq!(net.g_l3b[7], 0x1234);
    assert_eq!(net.g_l1w.len(), 2 * l1 * G_L1);
    bytes.push(9);
    assert!(carrega(&bytes, l1).is_some());
    assert!(carrega(&bytes[..2 * total - 1], l1).is_none());
}

#[test]
fn juntas_output_bias_alone() {
    let mut net = zero_net(1);
    // Bucket 7 for the 32 pieces of the start position: 16320 * 410 / (255 * 64).
    net.g_l3b[7] = 16320;
    let b = Board::from_fen(START);
    assert_eq!(evaluate(&net, &b), 410);
    assert_eq!(evaluate_checked(&net, &b), Some(410));
}

#[test]
fn juntas_psqt_counts_each_pair_once() {
    let mut net = zero_net(1);
    net.g_l3b[7] = 100;
    let b = Board::from_fen(START);
    for f in 0..N_ACTIVE {
        net.psqtw[f * NB + 7] = (f % 7) as i16 - 3;
    }
    let pairs = map_features_pairs_mode(&Pos { pieces: b.pieces }, 0, 2);
    let mut psqt: i64 = 0;
    for &(a, c) in &pairs {
        psqt += net.psqtw[a * NB + 7] as i64 - net.psqtw[c * NB + 7] as i64;
    }
    let expected = ((100 + psqt * 64) * 410 / (255 * 64)) as i32;
    assert_eq!(evaluate(&net, &b), expected);
}

#[test]
fn juntas_accumulator_through_the_head() {
    let mut net = zero_net(1);
    net.accb[0] = 10;
    net.g_l1w[0] = 100; // x[0] -> unit 0
    net.g_l2w[0] = 60; // unit 0 -> unit 0
    net.g_l3w[7] = 100; // unit 0 -> output, bucket 7
    net.g_l3b[7] = 5;
    let b = Board::from_fen(START);
    // x = 100: 100*100/255 = 39 -> 39/64 = 0; so every later layer sees 0.
    assert_eq!(evaluate(&net, &b), 5 * 410 / (255 * 64));
    net.accb[0] = 200;
    // x = 40000: 40000*100/255 = 15686 -> 245 -> 60025;
    // 60025*60/255 = 14123 -> 220 -> 48400; 48400*100/255 = 18980 + 5 = 18985.
    assert_eq!(evaluate(&net, &b), (18985i64 * 410 / (255 * 64)) as i32);
}
