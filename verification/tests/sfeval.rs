use half2k::nnue_sf::{
    aplica_linha, ativa_pares, build_acc, eval_factor, evaluate, evaluate_checked, forward, forward_checked, linha_peso, psqt_de, saida,
    set_eval_factor, sf_bucket, Feats, LayerStack, RedeSf, L1, L2, L3, NB, PAIR_BASE, PAIR_DIM, PIECE_DIM,
    THREAT_DIM, U_PAIR, U_THREAT,
};

fn zero_stack() -> LayerStack {
    LayerStack {
        fc0w: vec![0; L1 * L2],
        fc0b: vec![0; L2],
        fc1w: vec![0; 2 * L2 * L3],
        fc1b: vec![0; L3],
        fc2w: vec![0; 2 * L2 + 2 * L3],
        fc2b: 0,
    }
}

fn zero_net() -> RedeSf {
    RedeSf {
        ft_bias: vec![0; L1],
        ft_threat_w: vec![0; THREAT_DIM * L1],
        ft_pair_w: vec![0; PAIR_DIM * L1],
        ft_piece_w: vec![0; PIECE_DIM * L1],
        ft_piece_psqt: vec![0; PIECE_DIM * NB],
        ft_threat_psqt: vec![0; THREAT_DIM * NB],
        ft_pair_psqt: vec![0; PAIR_DIM * NB],
        stacks: (0..NB).map(|_| zero_stack()).collect(),
        version: 0,
        hash: 0,
        desc: Vec::new(),
        ft_header: [0; 4],
        stack_headers: vec![[0; 4]; NB],
    }
}

#[test]
fn output_scaling() {
    // psqt (3200 - 1600) / 2 = 800, positional 16384 * 9600 / 16384 = 9600.
    assert_eq!(saida(3200, 1600, 16384, false, 100), 650);
    assert_eq!(saida(3200, 1600, 16384, false, 200), 325);
    assert_eq!(saida(3200, 1600, 16384, true, 100), 600);
    // Divisions round toward zero.
    assert_eq!(saida(-3200, 0, -16385, false, 100), -700);
    assert_eq!(saida(0, 0, 0, false, 37), 0);
}

#[test]
fn buckets_follow_the_piece_count() {
    assert_eq!(sf_bucket(0), 0);
    assert_eq!(sf_bucket(1), 0);
    assert_eq!(sf_bucket(0b1_1111), 1);
    assert_eq!(sf_bucket((1u64 << 28) - 1), 6);
    assert_eq!(sf_bucket((1u64 << 29) - 1), 7);
    assert_eq!(sf_bucket(u64::MAX), 7);
}

#[test]
fn pairwise_activation_clips_and_multiplies() {
    let mut a = vec![0i16; L1];
    let mut b = vec![0i16; L1];
    a[0] = 255;
    a[512] = 255;
    a[1] = 300;
    a[513] = 2;
    a[2] = -5;
    a[514] = 200;
    b[3] = 100;
    b[515] = 100;
    let x = ativa_pares(&a, &b);
    assert_eq!(x.len(), L1);
    assert_eq!(x[0], 127);
    assert_eq!(x[1], 0);
    assert_eq!(x[2], 0);
    assert_eq!(x[512 + 3], 19);
    assert_eq!(x.iter().map(|&v| v as u32).sum::<u32>(), 127 + 19);
}

#[test]
fn layer_stack_forward_pass() {
    let mut st = zero_stack();
    let mut x = vec![0u8; L1];
    x[0] = 100;
    st.fc0w[0] = 2; // output 0 reads 200: squared 0, linear 1
    st.fc0b[30] = 1000; // squared 0, linear 7
    st.fc0b[31] = -500; // both 0
    st.fc1w[62] = 10; // fc1 output 0 reads 70: squared 0, linear 1
    st.fc2w[62] = 3;
    st.fc2w[32] = -4;
    st.fc2w[96] = 100;
    st.fc2b = 5;
    // 3 * 7 - 4 * 1 + 100 * 1 + 5, plus the skip 1000 - (-500).
    assert_eq!(forward(&st, &x), 1622);
    assert_eq!(forward_checked(&st, &x), Some(1622));
    // A bias at the edge of 32 bits makes the skip overflow: no result.
    st.fc0b[31] = i32::MIN;
    assert_eq!(forward_checked(&st, &x), None);
}

#[test]
fn accumulator_wraps_and_psqt_sums() {
    let mut net = zero_net();
    net.ft_bias[0] = 100;
    net.ft_bias[512] = 200;
    net.ft_piece_w[5 * L1] = 50;
    net.ft_piece_w[5 * L1 + 1] = 100;
    net.ft_piece_w[5 * L1 + 512] = 30000;
    net.ft_piece_w[5 * L1 + 513] = 60;
    net.ft_threat_w[2 * L1 + 512] = 100;
    net.ft_pair_w[L1 + 512] = 127;
    net.ft_piece_psqt[5 * NB] = 1000;
    net.ft_threat_psqt[2 * NB] = -300;
    net.ft_pair_psqt[NB] = 7;
    let us = Feats { pieces: vec![5, 5], threats: vec![2], pairs: vec![PAIR_BASE + 1] };
    let acc = build_acc(&net, &us);
    assert_eq!(acc[0], 200);
    assert_eq!(acc[1], 200);
    assert_eq!(acc[513], 120);
    // 200 + 2 * 30000 + 100 + 127 = 60427, wrapped to 16 bits.
    assert_eq!(acc[512] as i32, 60427 - 65536);
    assert_eq!(psqt_de(&net, &us, 0), 1707);
    assert_eq!(psqt_de(&net, &us, 1), 0);
}

#[test]
fn whole_evaluation_of_a_small_network() {
    let mut net = zero_net();
    net.ft_bias[0] = 100;
    net.ft_bias[512] = 200;
    net.ft_piece_w[5 * L1 + 1] = 100;
    net.ft_piece_w[5 * L1 + 513] = 60;
    net.ft_piece_psqt[5 * NB] = 1000;
    net.ft_threat_psqt[2 * NB] = -300;
    net.ft_pair_psqt[NB] = 7;
    net.stacks[0].fc0w[1] = 127; // reads x[1] = 200 * 120 / 512 = 46
    net.stacks[0].fc2w[0] = 1;
    net.stacks[0].fc2w[32] = 2;
    let us = Feats { pieces: vec![5, 5], threats: vec![2], pairs: vec![PAIR_BASE + 1] };
    let them = Feats { pieces: vec![], threats: vec![], pairs: vec![] };
    // Three pieces: bucket 0. fc0 output 0 is 5842: squared 16, linear 45,
    // so the stack gives 106; psqt (1707 - 0) / 2 = 853.
    assert_eq!(evaluate(&net, &us, &them, 0b111, false, 100), 56);
    assert_eq!(evaluate_checked(&net, &us, &them, 0b111, false, 100), Some(56));
    assert_eq!(evaluate(&net, &us, &them, 0b111, false, 200), 28);
    assert_eq!(evaluate(&net, &us, &them, 0b111, true, 100), 3);
}

#[test]
fn one_row_at_a_time_matches_the_rebuild() {
    let mut net = zero_net();
    net.ft_bias[3] = -32760;
    net.ft_piece_w[5 * L1 + 3] = 7;
    net.ft_threat_w[2 * L1 + 3] = -9;
    net.ft_pair_w[L1 + 3] = 100;
    assert_eq!(linha_peso(&net, 5, 3), 7);
    assert_eq!(linha_peso(&net, U_THREAT + 2, 3), -9);
    assert_eq!(linha_peso(&net, U_PAIR + 1, 3), 100);
    let base = Feats { pieces: vec![5], threats: vec![], pairs: vec![] };
    let mut acc = build_acc(&net, &base);
    assert_eq!(acc[3], -32753);
    aplica_linha(&net, &mut acc, U_THREAT + 2, true);
    aplica_linha(&net, &mut acc, U_PAIR + 1, true);
    let more = Feats { pieces: vec![5], threats: vec![2], pairs: vec![PAIR_BASE + 1] };
    assert_eq!(acc, build_acc(&net, &more));
    aplica_linha(&net, &mut acc, U_PAIR + 1, false);
    aplica_linha(&net, &mut acc, U_THREAT + 2, false);
    assert_eq!(acc, build_acc(&net, &base));
    // Taking away more than is there wraps around.
    aplica_linha(&net, &mut acc, U_PAIR + 1, false);
    assert_eq!(acc[3] as i32, -32853 + 65536);
}

#[test]
fn the_scale_in_effect() {
    assert_eq!(set_eval_factor(5), 20);
    assert_eq!(set_eval_factor(222), 222);
    assert_eq!(set_eval_factor(9000), 500);
    assert_eq!(eval_factor(150, Some(300)), 150);
    assert_eq!(eval_factor(-1, Some(300)), 300);
    assert_eq!(eval_factor(-1, Some(19)), 100);
    assert_eq!(eval_factor(-1, None), 100);
}

#[test]
fn input_order_does_not_matter() {
    let mut net = zero_net();
    for (i, f) in [3usize, 9, 400].iter().enumerate() {
        net.ft_piece_w[f * L1 + 7] = 1000 * (i as i16 + 1);
        net.ft_piece_psqt[f * NB + 2] = 77 * (i as i32 + 1);
    }
    net.ft_threat_w[11 * L1 + 7] = -50;
    net.ft_threat_w[12 * L1 + 7] = 60;
    let a = Feats { pieces: vec![3, 9, 400, 9], threats: vec![11, 12], pairs: vec![] };
    let b = Feats { pieces: vec![9, 400, 9, 3], threats: vec![12, 11], pairs: vec![] };
    assert_eq!(build_acc(&net, &a), build_acc(&net, &b));
    assert_eq!(build_acc(&net, &a)[7], 1000 + 2000 * 2 + 3000 - 50 + 60);
    assert_eq!(psqt_de(&net, &a, 2), psqt_de(&net, &b, 2));
    assert_eq!(psqt_de(&net, &a, 2), 77 + 154 * 2 + 231);
}
