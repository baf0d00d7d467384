use half2k::attacks::{bishop_attacks, rook_attacks, Attacks};
use half2k::board::Board;
use half2k::magic::{find_magic_for_square, Magics, Xorshift64};
use half2k::movegen::{generate_legal, generate_pseudo_legal};
use half2k::fen::placement_ok;
use half2k::moves::MoveFlag;
use half2k::types::PieceType;
use half2k::moves::Move;
use half2k::ordered_movegen::{attackers, checkers, generate, GEN_CAPTURES, GEN_LEGAL, GEN_QUIETS};
use half2k::types::Color;

const SUITE: [(&str, [u64; 2]); 6] = [
    ("rnbqkbnr/pppppppp/8/8/8/8/PPPPPPPP/RNBQKBNR w KQkq - 0 1", [20, 400]),
    ("r3k2r/p1ppqpb1/bn2pnp1/3PN3/1p2P3/2N2Q1p/PPPBBPPP/R3K2R w KQkq - 0 1", [48, 2039]),
    ("8/2p5/3p4/KP5r/1R3p1k/8/4P1P1/8 w - - 0 1", [14, 191]),
    ("r3k2r/Pppp1ppp/1b3nbN/nP6/BBP1P3/q4N2/Pp1P2PP/R2Q1RK1 w kq - 0 1", [6, 264]),
    ("rnbq1k1r/pp1Pbppp/2p5/8/2B5/8/PPP1NnPP/RNBQK2R w KQ - 1 8", [44, 1486]),
    ("r4rk1/1pp1qppp/p1np1n2/2b1p1B1/2B1P1b1/P1NP1N2/1PP1QPPP/R4RK1 w - - 0 10", [46, 2079]),
];

fn perft(b: &mut Board, depth: u32, atk: &Attacks) -> u64 {
    let moves = generate_legal(b, atk);
    if depth == 1 {
        return moves.len() as u64;
    }
    let mut n = 0;
    for m in moves {
        let u = b.make_move(&m);
        n += perft(b, depth - 1, atk);
        b.unmake_move(&m, &u);
    }
    n
}

#[test]
fn perft_counts_match_the_published_ones() {
    let atk = Attacks::new();
    for (fen, want) in SUITE.iter() {
        let mut b = Board::from_fen(fen);
        assert_eq!(perft(&mut b, 1, &atk), want[0], "{}", fen);
        assert_eq!(perft(&mut b, 2, &atk), want[1], "{}", fen);
    }
}

#[test]
fn perft_depth_three_from_the_start_and_the_rook_endgame() {
    let atk = Attacks::new();
    let mut b = Board::startpos();
    assert_eq!(perft(&mut b, 3, &atk), 8902);
    let mut e = Board::from_fen(SUITE[2].0);
    assert_eq!(perft(&mut e, 3, &atk), 2812);
}

#[test]
fn fen_survives_a_round_trip() {
    for (fen, _) in SUITE.iter() {
        let b = Board::from_fen(fen);
        assert_eq!(b.to_fen(), *fen);
    }
    assert_eq!(Board::startpos().to_fen(), SUITE[0].0);
}

#[test]
fn make_then_unmake_restores_the_position_exactly() {
    let atk = Attacks::new();
    for (fen, _) in SUITE.iter() {
        let mut b = Board::from_fen(fen);
        let before = b.to_fen();
        let hash = b.hash;
        for m in generate_legal(&mut b, &atk) {
            let u = b.make_move(&m);
            assert_ne!(b.to_fen(), before);
            b.unmake_move(&m, &u);
            assert_eq!(b.to_fen(), before);
            assert_eq!(b.hash, hash);
        }
        let n = b.make_null_move();
        assert_ne!(b.hash, hash);
        b.unmake_null_move(&n);
        assert_eq!(b.hash, hash);
        assert_eq!(b.to_fen(), before);
    }
}

#[test]
fn the_key_follows_the_position_not_the_path() {
    let atk = Attacks::new();
    let mut a = Board::startpos();
    let mut b = Board::startpos();
    for uci in ["g1f3", "g8f6", "b1c3", "b8c6"] {
        let m = *generate_legal(&mut a, &atk).iter().find(|m| m.to_uci() == uci).unwrap();
        a.make_move(&m);
    }
    for uci in ["b1c3", "b8c6", "g1f3", "g8f6"] {
        let m = *generate_legal(&mut b, &atk).iter().find(|m| m.to_uci() == uci).unwrap();
        b.make_move(&m);
    }
    assert_eq!(a.hash, b.hash);
    assert_eq!(a.hash, a.hash_completo());
}

fn sorted(mut v: Vec<Move>) -> Vec<String> {
    let mut s: Vec<String> = v.drain(..).map(|m| format!("{:?}", m)).collect();
    s.sort();
    s
}

#[test]
fn the_ordered_generator_agrees_with_the_legal_one() {
    let atk = Attacks::new();
    for (fen, _) in SUITE.iter() {
        let mut b = Board::from_fen(fen);
        let roots = generate_legal(&mut b, &atk);
        assert_eq!(sorted(generate(&b, &atk, GEN_LEGAL)), sorted(roots.clone()), "{}", fen);
        for m in roots {
            let u = b.make_move(&m);
            let legal = generate_legal(&mut b, &atk);
            assert_eq!(sorted(generate(&b, &atk, GEN_LEGAL)), sorted(legal), "{} after {}", fen, m.to_uci());
            b.unmake_move(&m, &u);
        }
    }
}

#[test]
fn captures_and_quiets_split_the_legal_moves() {
    let atk = Attacks::new();
    let b = Board::from_fen(SUITE[1].0);
    let all = generate(&b, &atk, GEN_LEGAL);
    let caps = generate(&b, &atk, GEN_CAPTURES);
    let quiets = generate(&b, &atk, GEN_QUIETS);
    let mut joined = caps.clone();
    joined.extend(quiets.iter().cloned());
    assert_eq!(sorted(joined), sorted(all));
    assert!(caps.iter().all(|m| b.occ_all & (1u64 << m.to) != 0));
    assert!(quiets.iter().all(|m| b.occ_all & (1u64 << m.to) == 0));
}

#[test]
fn the_ordered_generator_starts_with_single_pushes() {
    let atk = Attacks::new();
    let b = Board::startpos();
    let moves = generate(&b, &atk, GEN_LEGAL);
    let uci: Vec<String> = moves.iter().map(|m| m.to_uci()).collect();
    assert_eq!(&uci[..8], &["a2a3", "b2b3", "c2c3", "d2d3", "e2e3", "f2f3", "g2g3", "h2h3"]);
    assert_eq!(&uci[8..16], &["a2a4", "b2b4", "c2c4", "d2d4", "e2e4", "f2f4", "g2g4", "h2h4"]);
    assert_eq!(&uci[16..], &["b1a3", "b1c3", "g1f3", "g1h3"]);
}

#[test]
fn a_pinned_piece_moves_only_along_its_pin() {
    let atk = Attacks::new();
    // The e2 rook is pinned by the e8 rook against the e1 king.
    let b = Board::from_fen("4r2k/8/8/8/8/8/4R3/4K3 w - - 0 1");
    let moves = generate(&b, &atk, GEN_LEGAL);
    let rook: Vec<String> = moves.iter().filter(|m| m.from == 12).map(|m| m.to_uci()).collect();
    let mut r = rook.clone();
    r.sort();
    assert_eq!(r, vec!["e2e3", "e2e4", "e2e5", "e2e6", "e2e7", "e2e8"]);
}

#[test]
fn attackers_and_checkers() {
    let atk = Attacks::new();
    let b = Board::from_fen("4k3/8/8/8/8/8/3q4/4K3 w - - 0 1");
    assert_eq!(checkers(&b, &atk, Color::White), 1u64 << 11);
    assert_eq!(attackers(&b, &atk, 4, b.occ_all, Color::Black), 1u64 << 11);
    assert_eq!(attackers(&b, &atk, 60, b.occ_all, Color::White), 0);
    assert!(b.in_check(Color::White, &atk));
}

#[test]
fn magic_tables_agree_with_the_rays() {
    let m = Magics::new().expect("the built-in magics work");
    let mut x: u64 = 0x9E37_79B9_7F4A_7C15;
    for _ in 0..2000 {
        x ^= x << 13;
        x ^= x >> 7;
        x ^= x << 17;
        let occ = x & (x >> 3);
        let s = (x % 64) as u8;
        assert_eq!(m.rook_attacks(s, occ), rook_attacks(s, occ));
        assert_eq!(m.bishop_attacks(s, occ), bishop_attacks(s, occ));
    }
    // A rook on a1 with nothing on the board sees its file and its rank.
    assert_eq!(m.rook_attacks(0, 0), 0x0101_0101_0101_01FE);
    assert_eq!(m.bishop_attacks(0, 0), 0x8040_2010_0804_0200);
}

#[test]
fn xorshift_steps() {
    let mut rng = Xorshift64(1);
    assert_eq!(rng.next(), 0x40822041);
    assert_eq!(rng.0, 0x40822041);
    assert_eq!(rng.next(), 0x100041060c011441);
}

#[test]
fn magic_search_finds_the_first_working_candidate() {
    let mut rng = Xorshift64(1);
    let sm = find_magic_for_square(0, false, &mut rng, 100_000).expect("a bishop magic for a1");
    assert_eq!(sm.magic(), 0x8020011102109200);
    assert_eq!(rng.0, 0x88b0cf1187dbda48);
    let mut short = Xorshift64(1);
    assert!(find_magic_for_square(0, false, &mut short, 1224).is_none());
    assert_eq!(short.0, 0x123995e32489831c);
}

#[test]
fn pseudo_legal_moves_come_once_in_generator_order() {
    let atk = Attacks::new();
    let b = Board::startpos();
    let mut out = Vec::new();
    generate_pseudo_legal(&b, &atk, &mut out);
    assert_eq!(out.len(), 20);
    for i in 0..out.len() {
        for j in i + 1..out.len() {
            assert!(out[i] != out[j]);
        }
    }
    // Pawns first (a2 upward), then the knights.
    let uci: Vec<String> = out.iter().map(|m| m.to_uci()).collect();
    assert_eq!(&uci[0..4], &["a2a3", "a2a4", "b2b3", "b2b4"]);
    assert_eq!(&uci[16..20], &["b1a3", "b1c3", "g1f3", "g1h3"]);
    assert!(out.iter().all(|m| m.flag != MoveFlag::CastleKing && m.flag != MoveFlag::CastleQueen));

    let p = Board::from_fen("7k/P7/8/8/8/8/8/7K w - - 0 1");
    let mut out2 = Vec::new();
    generate_pseudo_legal(&p, &atk, &mut out2);
    let uci2: Vec<String> = out2.iter().map(|m| m.to_uci()).collect();
    assert_eq!(uci2, vec!["a7a8q", "a7a8r", "a7a8b", "a7a8n", "h1g1", "h1g2", "h1h2"]);
    assert!(out2[0..4].iter().all(|m| m.flag == MoveFlag::Quiet));
}

#[test]
fn legal_moves_are_the_pseudo_legal_ones_kept_in_order() {
    let atk = Attacks::new();
    for (fen, _) in SUITE.iter() {
        let mut b = Board::from_fen(fen);
        let mut pseudo = Vec::new();
        generate_pseudo_legal(&b, &atk, &mut pseudo);
        let legal = generate_legal(&mut b, &atk);
        let mut k = 0;
        for m in pseudo.iter() {
            if k < legal.len() && legal[k] == *m {
                k += 1;
            }
        }
        assert_eq!(k, legal.len(), "{}", fen);
        for i in 0..legal.len() {
            for j in i + 1..legal.len() {
                assert!(legal[i] != legal[j]);
            }
        }
    }
}

#[test]
fn a_printed_fen_reads_and_prints_back() {
    for (fen, _) in SUITE.iter() {
        let once = Board::from_fen(fen).to_fen();
        assert_eq!(Board::from_fen(&once).to_fen(), once);
    }
}

#[test]
fn a_row_that_runs_past_its_last_file_carries_on() {
    // The pawn after eight empty files of the seventh row lands on a8.
    let fen = "8/8p/8/8/8/8/8/K6k w - - 0 1";
    assert!(placement_ok(fen));
    let b = Board::from_fen(fen);
    assert_eq!(b.piece_at(56), Some((PieceType::Pawn, Color::Black)));
    assert!(!placement_ok("8/8/8/8/8/8/8/8/p w - - 0 1"));
    assert!(!placement_ok("8/8/8/8/8/8/8/7x w - - 0 1"));
}

#[test]
fn attackers_exist_exactly_where_the_square_is_attacked() {
    let atk = Attacks::new();
    for (fen, _) in SUITE.iter() {
        let b = Board::from_fen(fen);
        for s in 0u8..64 {
            for by in [Color::White, Color::Black] {
                let a = attackers(&b, &atk, s, b.occ_all, by);
                assert_eq!(a != 0, b.is_square_attacked(s, by, &atk), "{} {}", fen, s);
                assert_eq!(a & !b.occ_color[by as usize], 0);
            }
        }
    }
}

#[test]
fn the_library_perft_counts_the_leaves() {
    let atk = Attacks::new();
    let mut b = Board::startpos();
    assert_eq!(half2k::perft::perft(&mut b, 1, &atk), Some(20));
    assert_eq!(half2k::perft::perft(&mut b, 3, &atk), Some(8902));
    assert_eq!(b.to_fen(), SUITE[0].0);
    let mut e = Board::from_fen(SUITE[2].0);
    assert_eq!(half2k::perft::perft(&mut e, 3, &atk), Some(2812));
    // castling rights with no rook at home: not a position the generator takes
    let mut bad = Board::from_fen("4k3/8/8/8/8/8/8/4K3 w K - 0 1");
    assert_eq!(half2k::perft::perft(&mut bad, 1, &atk), None);
}

#[test]
fn each_attacker_attacks_the_square_from_where_it_stands() {
    let atk = Attacks::new();
    for (fen, _) in SUITE.iter() {
        let b = Board::from_fen(fen);
        for s in 0u8..64 {
            for by in [Color::White, Color::Black] {
                let p = b.pieces[by as usize];
                let a = attackers(&b, &atk, s, b.occ_all, by);
                for t in 0u8..64 {
                    let bit = 1u64 << t;
                    let from_t = (p[0] & bit != 0 && atk.pawn[by as usize][t as usize] & (1u64 << s) != 0)
                        || (p[1] & bit != 0 && atk.knight[t as usize] & (1u64 << s) != 0)
                        || (p[2] & bit != 0 && bishop_attacks(t, b.occ_all) & (1u64 << s) != 0)
                        || (p[3] & bit != 0 && rook_attacks(t, b.occ_all) & (1u64 << s) != 0)
                        || (p[4] & bit != 0
                            && (bishop_attacks(t, b.occ_all) | rook_attacks(t, b.occ_all)) & (1u64 << s) != 0)
                        || (p[5] & bit != 0 && atk.king[t as usize] & (1u64 << s) != 0);
                    assert_eq!(a & bit != 0, from_t, "{} {} {}", fen, s, t);
                }
            }
        }
    }
}
