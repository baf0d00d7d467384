use half2k::attacks::Attacks;
use half2k::board::Board;
use half2k::move_events::eventos_de_casa;
use half2k::movegen::generate_legal;

fn play(b: &mut Board, atk: &Attacks, uci: &str) {
    let legal = generate_legal(b, atk);
    let mv = *legal.iter().find(|m| m.to_uci() == uci).expect("legal move");
    b.make_move(&mv);
}

#[test]
fn a_pawn_push_is_two_events() {
    let atk = Attacks::new();
    let mut b = Board::startpos();
    let antes = b.pieces;
    play(&mut b, &atk, "e2e4");
    assert_eq!(eventos_de_casa(&antes, &b.pieces, &atk), Some(vec![(12, 0, 0, false), (28, 0, 0, true)]));
}

#[test]
fn a_capture_lists_the_captured_piece_too() {
    let atk = Attacks::new();
    let mut b = Board::from_fen("4k3/8/3p4/8/4N3/8/8/4K3 w - - 0 1");
    let antes = b.pieces;
    play(&mut b, &atk, "e4d6");
    // the knight leaves e4 and lands on d6; the black pawn on d6 goes
    assert_eq!(
        eventos_de_casa(&antes, &b.pieces, &atk),
        Some(vec![(28, 1, 0, false), (43, 1, 0, true), (43, 0, 1, false)])
    );
}

#[test]
fn castling_two_moves_and_no_change_are_refused() {
    let atk = Attacks::new();
    let mut b = Board::from_fen("r3k2r/8/8/8/8/8/8/R3K2R w KQkq - 0 1");
    let antes = b.pieces;
    play(&mut b, &atk, "e1g1");
    assert_eq!(eventos_de_casa(&antes, &b.pieces, &atk), None);
    let mut s = Board::startpos();
    let a0 = s.pieces;
    assert_eq!(eventos_de_casa(&a0, &s.pieces, &atk), None);
    play(&mut s, &atk, "g1f3");
    play(&mut s, &atk, "g8f6");
    assert_eq!(eventos_de_casa(&a0, &s.pieces, &atk), None);
    // a knight cannot go from g1 to g3: the shape passes, the reach does not
    let mut t = a0;
    t[0][1] = (t[0][1] & !(1u64 << 6)) | (1u64 << 22);
    assert_eq!(eventos_de_casa(&a0, &t, &atk), None);
}
