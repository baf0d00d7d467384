use half2k::nnue_sf::THREAT_DIM;
use half2k::sf_threats::{
    build_threat_tables, get_threat_feature, is_pair_excluded, pawn_id, pawn_pair_index, piece_plane,
};
use half2k::types::PieceType;

#[test]
fn threat_inputs_of_known_pairs() {
    let t = build_threat_tables().expect("the blocks add up to THREAT_DIM");
    // A white knight on g1 attacking a black queen on f3.
    assert_eq!(get_threat_feature(&t, 0, 1, 0, 4, 1, 6, 21, false), 3382);
    assert_eq!(get_threat_feature(&t, 1, 1, 0, 4, 1, 6, 21, false), 31915);
    assert_eq!(get_threat_feature(&t, 0, 1, 0, 4, 1, 6, 21, true), 3364);
    // Knight against knight counts one way only.
    assert_eq!(get_threat_feature(&t, 0, 1, 0, 1, 1, 6, 21, false), THREAT_DIM as i32);
    assert_eq!(get_threat_feature(&t, 0, 1, 1, 1, 0, 21, 6, false), 30675);
    // Pawn against bishop and king against pawn have no input.
    assert_eq!(get_threat_feature(&t, 0, 0, 0, 2, 1, 12, 21, false), THREAT_DIM as i32);
    assert_eq!(get_threat_feature(&t, 1, 5, 1, 0, 0, 60, 51, true), THREAT_DIM as i32);
    // A black queen on h8 down the file to a white rook on h1.
    assert_eq!(get_threat_feature(&t, 0, 4, 1, 3, 0, 63, 7, false), 51052);
}

#[test]
fn pair_exclusion() {
    assert!(is_pair_excluded(true, false, 0, 1));
    assert!(is_pair_excluded(true, true, 5, 1));
    assert!(is_pair_excluded(false, true, 1, 2));
    assert!(!is_pair_excluded(false, true, 2, 1));
    assert!(!is_pair_excluded(false, false, 1, 2));
}

#[test]
fn pawn_pairs_and_planes() {
    assert_eq!(pawn_pair_index(3, 7), 24);
    assert_eq!(pawn_pair_index(7, 3), 24);
    assert_eq!(pawn_pair_index(1, 0), 0);
    assert_eq!(pawn_id(12, 48, 0), 52);
    assert_eq!(pawn_id(12, 0, 56), 44);
    assert_eq!(piece_plane(PieceType::Knight, false), 2);
    assert_eq!(piece_plane(PieceType::Knight, true), 3);
    assert_eq!(piece_plane(PieceType::Pawn, true), 1);
    assert_eq!(piece_plane(PieceType::King, true), 10);
}

#[test]
fn knight_threats_on_queens_have_distinct_inputs() {
    let t = build_threat_tables().expect("the blocks add up to THREAT_DIM");
    let mut seen = std::collections::HashSet::new();
    let mut n = 0;
    for a in 0..64i32 {
        let (f, r) = (a % 8, a / 8);
        for (df, dr) in [(1, 2), (2, 1), (2, -1), (1, -2), (-1, -2), (-2, -1), (-2, 1), (-1, 2)] {
            let (nf, nr) = (f + df, r + dr);
            if (0..8).contains(&nf) && (0..8).contains(&nr) {
                for pov in 0..2usize {
                    let x = get_threat_feature(&t, pov, 1, 0, 4, 1, a, nr * 8 + nf, false);
                    assert!(x >= 0 && (x as usize) < THREAT_DIM);
                    assert!(seen.insert(x));
                    n += 1;
                }
            }
        }
    }
    assert_eq!(n, 2 * 336);
}

#[test]
fn dama_ameacada_por_nao_dama() {
    // A queen counts as threatened only by another queen: a bishop or rook
    // attacking a queen has no threat input.
    let t = build_threat_tables().expect("the blocks add up to THREAT_DIM");
    let mut fora = 0;
    let mut dentro = 0;
    for slider in [2usize, 3, 4] {
        for sc in 0..2 {
            for dc in 0..2 {
                for a in 0..64 {
                    for d in 0..64 {
                        let tf = get_threat_feature(&t, 0, slider, sc, 4, dc, a as i32, d as i32, false);
                        if tf >= 0 && (tf as usize) < 59808 {
                            if slider == 4 {
                                dentro += 1
                            } else {
                                fora += 1
                            }
                        }
                    }
                }
            }
        }
    }
    assert!(dentro > 0);
    assert_eq!(fora, 0, "threats to a queen from a bishop or rook");
}
