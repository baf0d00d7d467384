use half2k::board::Board;
use half2k::book::{decode_move16, encode_move, Book};
use half2k::endgame::{conversion_drive, probe, Verdict, KNOWN_WIN, SCALE_DRAW, SCALE_NORMAL};
use half2k::evaluation::{amortece_rule50, score_normalizado};
use half2k::features::{
    compute_attack_maps_by_type, gather_pieces, gather_threats_full, make_threat_640, make_threat_full,
    map_features_pairs, map_features_pairs_mode, map_pieces_pairs, parse_fen, piece_idx, Pos,
};
use half2k::moves::{Move, MoveFlag};
use half2k::nnue::{bucket_and_mirror, feature, Accumulator, RefreshCache};
use half2k::types::{Color, PieceType};

const START: &str = "rnbqkbnr/pppppppp/8/8/8/8/PPPPPPPP/RNBQKBNR w KQkq - 0 1";

#[test]
fn two_knights_cannot_win() {
    let b = Board::from_fen("8/8/8/4k3/8/8/8/2NNK3 w - - 0 1");
    assert_eq!(probe(&b, 600, 0), Some((Color::White, Verdict::Exact(0))));
}

#[test]
fn a_rook_against_a_bare_king_is_a_known_win() {
    let b = Board::from_fen("8/8/8/4k3/8/8/8/R3K3 w - - 0 1");
    match probe(&b, 500, 0) {
        Some((Color::White, Verdict::Exact(v))) => assert!(v > KNOWN_WIN),
        other => panic!("{:?}", other),
    }
    // The same for Black, scored from Black's side.
    let b = Board::from_fen("r3k3/8/8/8/8/4K3/8/8 w - - 0 1");
    match probe(&b, -500, 0) {
        Some((Color::Black, Verdict::Exact(v))) => assert!(v > KNOWN_WIN),
        other => panic!("{:?}", other),
    }
}

#[test]
fn bishop_and_wrong_rook_pawn_is_a_draw() {
    // Light-squared bishop (d1), h-pawn: h8 is dark, and the black king holds it.
    let b = Board::from_fen("7k/8/8/8/8/7P/8/3BK3 w - - 0 1");
    assert_eq!(probe(&b, 400, 0), Some((Color::White, Verdict::Scale(SCALE_DRAW))));
    // The dark-squared bishop (c1) covers h8.
    let b = Board::from_fen("7k/8/8/8/8/7P/8/2B1K3 w - - 0 1");
    assert_eq!(probe(&b, 400, 0), Some((Color::White, Verdict::Scale(SCALE_NORMAL))));
}

#[test]
fn rook_pawn_with_the_king_in_front_is_a_draw() {
    let b = Board::from_fen("k7/8/8/8/8/P7/8/4K3 w - - 0 1");
    assert_eq!(probe(&b, 100, 0), Some((Color::White, Verdict::Scale(SCALE_DRAW))));
}

#[test]
fn minor_against_minor_is_a_draw_and_ordinary_positions_are_not_probed() {
    let b = Board::from_fen("4k3/8/3n4/8/8/8/4B3/4K3 w - - 0 1");
    assert_eq!(probe(&b, 30, 0), Some((Color::White, Verdict::Exact(0))));
    let b = Board::from_fen(START);
    assert_eq!(probe(&b, 0, 0), None);
}

#[test]
fn conversion_drive_only_when_decisive() {
    let b = Board::from_fen("8/8/8/4k3/8/8/8/R3K3 w - - 0 1");
    assert_eq!(conversion_drive(&b, 799), 0);
    // Kings e1/e5: distance 4, push_close 3; e5 is 3 from the edge, push_to_edge 0.
    assert_eq!(conversion_drive(&b, 900), 24 * 3);
    // Black is the strong side: push the white king on e1 (3 towards the edge).
    assert_eq!(conversion_drive(&b, -900), -(24 * 3 + 16 * 3));
}

#[test]
fn the_fifty_move_shrink_rounds_toward_zero() {
    assert_eq!(amortece_rule50(100, 0), 100);
    assert_eq!(amortece_rule50(100, 199), 0);
    assert_eq!(amortece_rule50(-100, 100), -50);
    assert_eq!(amortece_rule50(300, 50), 300 - 75);
    assert_eq!(score_normalizado(-42), -42);
}

#[test]
fn book_moves_survive_encoding() {
    let m = Move { from: 12, to: 28, promotion: None, flag: MoveFlag::DoublePush };
    assert_eq!(encode_move(&m), 12 | (28 << 6));
    assert_eq!(decode_move16(encode_move(&m)), (12, 28, None));
    let p = Move { from: 52, to: 60, promotion: Some(PieceType::Knight), flag: MoveFlag::Quiet };
    assert_eq!(decode_move16(encode_move(&p)), (52, 60, Some(PieceType::Knight)));
}

fn book_bytes(records: &[(u64, u16, u32)]) -> Vec<u8> {
    let mut d = b"KESTBK01".to_vec();
    d.extend_from_slice(&(records.len() as u64).to_be_bytes());
    for (k, m, c) in records {
        d.extend_from_slice(&k.to_be_bytes());
        d.extend_from_slice(&m.to_be_bytes());
        d.extend_from_slice(&c.to_be_bytes());
    }
    d
}

#[test]
fn book_lookup_finds_the_run_for_a_key() {
    let b = Book::from_data(book_bytes(&[(3, 1, 10), (7, 2, 20), (7, 3, 30), (9, 4, 40)])).unwrap();
    assert_eq!(b.lookup(7), vec![(2, 20), (3, 30)]);
    assert_eq!(b.lookup(3), vec![(1, 10)]);
    assert_eq!(b.lookup(8), vec![]);
    assert_eq!(b.lookup(100), vec![]);
}

#[test]
fn a_book_with_a_bad_header_is_refused() {
    let mut d = book_bytes(&[(3, 1, 10)]);
    d[0] = b'X';
    assert!(Book::from_data(d).is_none());
    let mut short = book_bytes(&[(3, 1, 10), (4, 1, 10)]);
    short.truncate(short.len() - 1);
    let cut = Book::from_data(short).expect("the magic is there");
    assert!(!cut.is_complete());
    assert!(Book::from_data(book_bytes(&[(3, 1, 10), (4, 1, 10)])).unwrap().is_complete());
    assert!(Book::from_data(vec![1, 2, 3]).is_none());
}

#[test]
fn threat_indices() {
    assert_eq!(make_threat_full(0, 0, 0, 0, 0), 0);
    assert_eq!(make_threat_full(1, 1, 5, 5, 63), 9215);
    assert_eq!(make_threat_full(0, 1, 2, 3, 4), ((1 * 6 + 2) * 6 + 3) * 64 + 4);
    assert_eq!(make_threat_640(1, 4, 63), 639);
    assert_eq!(piece_idx(0), 5);
    assert_eq!(piece_idx(4), 1);
    assert_eq!(piece_idx(5), 0);
}

#[test]
fn the_start_position_has_thirty_one_piece_features_each_side() {
    let pos = parse_fen(START).unwrap();
    assert_eq!(pos.occ(), 0xFFFF_0000_0000_FFFF);
    let mut v = Vec::new();
    gather_pieces(&pos, 0, &mut v);
    assert_eq!(v.len(), 31);
    let mut w = Vec::new();
    gather_pieces(&pos, 1, &mut w);
    assert_eq!(w.len(), 31);
    let mut s = v.clone();
    s.sort();
    s.dedup();
    assert_eq!(s.len(), 31);
    // The white king on e1 picks bucket 3 (files mirror about the centre).
    assert!(v.iter().all(|&f| f / 704 == 3));
}

#[test]
fn parse_fen_refuses_what_is_not_a_placement() {
    assert!(parse_fen("").is_none());
    assert!(parse_fen("   ").is_none());
    assert!(parse_fen("rnbqkbnr/ppppxppp/8/8/8/8/PPPPPPPP/RNBQKBNR w").is_none());
    assert!(parse_fen("9/8/8/8/8/8/8/8 w").is_none());
    assert!(parse_fen("8/8/8/8/8/8/8/8 w").is_some());
    assert!(parse_fen("ppppppppp/8/8/8/8/8/8/8 w").is_none());
}

#[test]
fn threats_in_a_simple_position() {
    // White rook a1 attacks the black knight a8; the black knight defends nothing.
    let pos = parse_fen("n3k3/8/8/8/8/8/8/R3K3 w - - 0 1").unwrap();
    let maps = compute_attack_maps_by_type(&pos);
    assert_eq!(maps[0][3] & (1u64 << 56), 1u64 << 56);
    let mut t = Vec::new();
    gather_threats_full(&pos, 0, &maps, &mut t);
    // Victim theirs (side 1), attacked (rel 0), by a rook (3), a knight (1), on a8.
    assert!(t.contains(&make_threat_full(1, 0, 3, 1, 56)));
    let mut u = t.clone();
    u.sort();
    u.dedup();
    assert_eq!(u.len(), t.len());
}

#[test]
fn feature_pairs_in_the_start_position() {
    let pos = parse_fen(START).unwrap();
    let pieces = map_pieces_pairs(&pos, 0);
    assert_eq!(pieces.len(), 31);
    let all = map_features_pairs(&pos, 0);
    assert!(all.len() > pieces.len());
    assert_eq!(&all[..31], &pieces[..]);
    assert_eq!(map_features_pairs_mode(&pos, 0, 0), pieces);
    assert_eq!(map_features_pairs_mode(&pos, 0, 2), all);
    // Nothing is attacked by the other side at the start: no 640-set threats.
    assert_eq!(map_features_pairs_mode(&pos, 0, 1), pieces);
}

#[test]
fn king_buckets_fold_and_mirror() {
    assert_eq!(bucket_and_mirror(Color::White, 4), (3, true));
    assert_eq!(bucket_and_mirror(Color::White, 3), (3, false));
    assert_eq!(bucket_and_mirror(Color::Black, 60), (3, true));
    assert_eq!(bucket_and_mirror(Color::White, 63), (28, true));
    // A white pawn on e2, seen by White from bucket 3 mirrored: d2 = 11.
    assert_eq!(feature(Color::White, 3, true, Color::White, PieceType::Pawn, 12), 11 + 3 * 768);
    // The same pawn from Black's side is a black pawn on e7, then mirrored to d7.
    assert_eq!(feature(Color::Black, 0, true, Color::White, PieceType::Pawn, 12), 51 + 384);
}

#[test]
fn empty_accumulators() {
    let a = Accumulator::empty();
    assert!(a.half[0].values.iter().all(|&v| v == 0));
    assert_eq!(a.half[1].bucket, 0);
    let _c = RefreshCache::new();
    let _p = Pos { pieces: [[0; 6]; 2] };
}

#[test]
fn book_lookup_gives_at_most_eight_records() {
    let recs: Vec<(u64, u16, u32)> = (0..11u16).map(|i| (5u64, i, 100 + i as u32)).collect();
    let b = Book::from_data(book_bytes(&recs)).unwrap();
    let got = b.lookup(5);
    assert_eq!(got.len(), 8);
    assert_eq!(got[0], (0, 100));
    assert_eq!(got[7], (7, 107));
}

#[test]
fn book_moves_off_the_board_encode_without_failing() {
    let m = Move { from: 70, to: 3, promotion: None, flag: MoveFlag::Quiet };
    assert_eq!(encode_move(&m), 70 | (3 << 6));
}
