use half2k::board::Board;
use half2k::nnue::{
    bucket_and_mirror, feature, output, rebuild_half, tem_pares, Accumulator, InputLayer, RefreshCache, HIDDEN, NUM_FEATURES, OUT_BUCKETS,
    PAIR_BASE,
};
use half2k::types::{Color, PieceType};

const START: &str = "rnbqkbnr/pppppppp/8/8/8/8/PPPPPPPP/RNBQKBNR w KQkq - 0 1";

/// A layer whose every row is different, so a wrong row shows.
fn layer(pairs: bool) -> InputLayer {
    let mut l0w = vec![[0i16; HIDDEN]; NUM_FEATURES];
    let mut psqt = vec![[0i16; OUT_BUCKETS]; NUM_FEATURES];
    for f in 0..NUM_FEATURES {
        for i in 0..HIDDEN {
            l0w[f][i] = ((f * 31 + i * 17) % 2001) as i16 - 1000;
        }
        for b in 0..OUT_BUCKETS {
            psqt[f][b] = ((f * 13 + b * 7) % 601) as i16 - 300;
        }
    }
    InputLayer { l0w, psqt, pairs }
}

fn same(a: &Accumulator, b: &Accumulator) -> bool {
    (0..2).all(|p| {
        a.half[p].values == b.half[p].values
            && a.half[p].psqt == b.half[p].psqt
            && a.half[p].bucket == b.half[p].bucket
            && a.half[p].mirror == b.half[p].mirror
    })
}

#[test]
fn incremental_update_matches_a_fresh_build_for_a_knight_move() {
    for pairs in [false, true] {
        let net = layer(pairs);
        let board = Board::from_fen(START);
        let mut pieces = board.pieces;
        let kings = [4, 60];
        let mut acc = Accumulator::fresh(&net, &pieces, kings);
        // Ng1-f3.
        pieces[0][1] ^= 1u64 << 6;
        acc.update(&net, Color::White, PieceType::Knight, 6, false);
        pieces[0][1] ^= 1u64 << 21;
        acc.update(&net, Color::White, PieceType::Knight, 21, true);
        assert!(same(&acc, &Accumulator::fresh(&net, &pieces, kings)));
    }
}

#[test]
fn a_pawn_move_with_pairs_matches_a_fresh_build() {
    let net = layer(true);
    let board = Board::from_fen(START);
    let mut pieces = board.pieces;
    let kings = [4, 60];
    let mut acc = Accumulator::fresh(&net, &pieces, kings);
    // e2-e4: the pawn leaves e2, then arrives on e4.
    pieces[0][0] ^= 1u64 << 12;
    acc.update(&net, Color::White, PieceType::Pawn, 12, false);
    acc.pares_de_uma_casa(&net, &[pieces[0][0], pieces[1][0]], Color::White, 12, false);
    pieces[0][0] ^= 1u64 << 28;
    acc.update(&net, Color::White, PieceType::Pawn, 28, true);
    acc.pares_de_uma_casa(&net, &[pieces[0][0], pieces[1][0]], Color::White, 28, true);
    assert!(same(&acc, &Accumulator::fresh(&net, &pieces, kings)));
    // Without the pair step the pairs of e2 would still be counted.
    let mut wrong = Accumulator::fresh(&net, &board.pieces, kings);
    wrong.update(&net, Color::White, PieceType::Pawn, 12, false);
    wrong.update(&net, Color::White, PieceType::Pawn, 28, true);
    assert!(!same(&wrong, &Accumulator::fresh(&net, &pieces, kings)));
}

#[test]
fn a_batch_of_changes_is_the_same_as_one_at_a_time() {
    let net = layer(true);
    let board = Board::from_fen("r1bqkbnr/pppp1ppp/2n5/4p3/4P3/5N2/PPPP1PPP/RNBQKB1R w KQkq - 2 3");
    let kings = [4, 60];
    let mut one = Accumulator::fresh(&net, &board.pieces, kings);
    let mut batch = one.clone();
    // Nf3xe5: the knight leaves f3, the pawn on e5 goes, the knight arrives on e5.
    let lote = [
        (PieceType::Knight, Color::White, 21u8, false),
        (PieceType::Pawn, Color::Black, 36u8, false),
        (PieceType::Knight, Color::White, 36u8, true),
    ];
    for &(pt, c, s, add) in lote.iter() {
        one.update(&net, c, pt, s, add);
    }
    batch.update_lote(&net, &lote);
    assert!(same(&one, &batch));
}

#[test]
fn a_king_crossing_the_middle_is_rebuilt_through_the_cache() {
    let net = layer(true);
    let board = Board::from_fen(START);
    let mut pieces = board.pieces;
    let mut acc = Accumulator::fresh(&net, &pieces, [4, 60]);
    let mut cache = RefreshCache::new();
    // Nothing moved: nothing to rebuild.
    assert_eq!(acc.refresh(&net, &pieces, [4, 60], &mut cache), 0);
    // Ke1-d1 (with the queen out of the way): same bucket, other mirror.
    pieces[0][4] = 0;
    acc.update(&net, Color::White, PieceType::Queen, 3, false);
    pieces[0][5] ^= (1u64 << 4) | (1u64 << 3);
    acc.update(&net, Color::White, PieceType::King, 4, false);
    acc.update(&net, Color::White, PieceType::King, 3, true);
    assert_eq!(acc.refresh(&net, &pieces, [3, 60], &mut cache), 1);
    assert!(same(&acc, &Accumulator::fresh(&net, &pieces, [3, 60])));
    assert_eq!(acc.refresh(&net, &pieces, [3, 60], &mut cache), 0);
}

#[test]
fn the_cache_applies_only_what_changed() {
    let net = layer(false);
    let board = Board::from_fen(START);
    let mut pieces = board.pieces;
    let mut cache = RefreshCache::new();
    let mut h = rebuild_half(&net, &pieces, 4, Color::White);
    // First use: every piece from an empty board.
    assert_eq!(cache.refresh(&net, &pieces, Color::White, 3, true, &mut h), 32);
    let full = rebuild_half(&net, &pieces, 4, Color::White);
    assert_eq!(h.values, full.values);
    assert_eq!(h.psqt, full.psqt);
    assert_eq!(cache.refresh(&net, &pieces, Color::White, 3, true, &mut h), 0);
    // Ng1-f3: two squares changed.
    pieces[0][1] ^= (1u64 << 6) | (1u64 << 21);
    assert_eq!(cache.refresh(&net, &pieces, Color::White, 3, true, &mut h), 2);
    let full = rebuild_half(&net, &pieces, 4, Color::White);
    assert_eq!(h.values, full.values);
    assert_eq!(h.psqt, full.psqt);
}

#[test]
fn a_rebuild_sums_the_rows_of_the_pieces() {
    let mut net = layer(false);
    for f in 0..NUM_FEATURES {
        net.l0w[f] = [0; HIDDEN];
        net.psqt[f] = [0; OUT_BUCKETS];
    }
    // Only a white pawn on e2 seen by White from bucket 3, mirrored (d2 = 11).
    net.l0w[11 + 3 * 768][0] = 5;
    net.l0w[11 + 3 * 768][1] = 32767;
    net.psqt[11 + 3 * 768][2] = -7;
    // And the white pawn on d2 (mirrored to e2 = 12) too.
    net.l0w[12 + 3 * 768][1] = 2;
    let board = Board::from_fen(START);
    let h = rebuild_half(&net, &board.pieces, 4, Color::White);
    assert_eq!((h.bucket, h.mirror), (3, true));
    assert_eq!(h.values[0], 5);
    // 32767 + 2 wraps.
    assert_eq!(h.values[1], -32767);
    assert_eq!(h.psqt[2], -7);
    assert_eq!(h.psqt[0], 0);
}

#[test]
fn the_output_clips_the_activation() {
    let mut acc = [0i16; HIDDEN];
    acc[0] = -5;
    acc[1] = 2000;
    acc[2] = 7;
    let w = vec![3i16; HIDDEN];
    assert_eq!(output(&acc, &w), 1024 * 3 + 7 * 3);
}

#[test]
fn pairs_are_detected_by_their_rows() {
    let mut l0w = vec![[0i16; HIDDEN]; NUM_FEATURES];
    assert!(!tem_pares(&l0w));
    l0w[PAIR_BASE - 1][0] = 1;
    assert!(!tem_pares(&l0w));
    l0w[PAIR_BASE + 17][900] = -1;
    assert!(tem_pares(&l0w));
}

#[test]
fn black_sees_the_board_turned_over() {
    for k in [4u8, 3, 60, 27, 7] {
        assert_eq!(bucket_and_mirror(Color::Black, k), bucket_and_mirror(Color::White, k ^ 56));
    }
    let (b, m) = bucket_and_mirror(Color::Black, 60);
    assert_eq!((b, m), (3, true));
    assert_eq!(
        feature(Color::Black, b, m, Color::White, PieceType::Knight, 6),
        feature(Color::White, b, m, Color::Black, PieceType::Knight, 62)
    );
    // A black knight on g8, seen by Black with the king on e8: our knight on
    // g1, mirrored to b1, in bucket 3.
    assert_eq!(feature(Color::Black, b, m, Color::Black, PieceType::Knight, 62), 1 + 64 + 3 * 768);
}
