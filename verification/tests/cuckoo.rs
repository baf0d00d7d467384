use half2k::attacks::Attacks;
use half2k::board::Board;
use half2k::cuckoo::Cuckoo;
use half2k::movegen::generate_legal;
use half2k::zobrist::Zobrist;

fn jogar(b: &mut Board, keys: &mut Vec<u64>, atk: &Attacks, uci: &str) {
    let legal = generate_legal(b, atk);
    let mv = *legal.iter().find(|m| m.to_uci() == uci).expect("lance ilegal no teste");
    b.make_move(&mv);
    keys.push(b.hash);
}

#[test]
fn tem_3668_diferencas_como_o_stockfish() {
    let atk = Attacks::new();
    let c = Cuckoo::novo(&Zobrist::new(), &atk);
    assert_eq!(c.postos, 3668);
}

#[test]
fn ve_a_repeticao_a_um_lance() {
    let atk = Attacks::new();
    let c = Cuckoo::novo(&Zobrist::new(), &atk);
    let mut b = Board::startpos();
    let mut k = vec![b.hash];
    for m in ["g1f3", "g8f6", "f3g1"] {
        jogar(&mut b, &mut k, &atk, m);
    }
    // Black to move: f6g8 repeats the starting position.
    assert!(c.repeticao_a_vista(&b, &k, 0, &atk), "dentro da busca: uma visita chega");
    assert!(!c.repeticao_a_vista(&b, &k, k.len(), &atk), "na historia: uma so' visita nao chega");
}

#[test]
fn na_historia_conta_se_a_posicao_ja_se_repetiu() {
    let atk = Attacks::new();
    let c = Cuckoo::novo(&Zobrist::new(), &atk);
    let mut b = Board::startpos();
    let mut k = vec![b.hash];
    for m in ["g1f3", "g8f6", "f3g1", "f6g8", "g1f3", "g8f6", "f3g1"] {
        jogar(&mut b, &mut k, &atk, m);
    }
    // The starting position has occurred twice: f6g8 would make the third.
    assert!(c.repeticao_a_vista(&b, &k, k.len(), &atk));
}

#[test]
fn nao_ve_repeticao_onde_nao_ha() {
    let atk = Attacks::new();
    let c = Cuckoo::novo(&Zobrist::new(), &atk);
    let mut b = Board::startpos();
    let mut k = vec![b.hash];
    for m in ["e2e4", "e7e5", "g1f3", "b8c6"] {
        jogar(&mut b, &mut k, &atk, m);
    }
    assert!(!c.repeticao_a_vista(&b, &k, 0, &atk));
}

#[test]
fn a_jogada_do_adversario_nao_conta() {
    // White to move after g1f3 g8f6 f3g1 f6g8: the position three plies back
    // differs from this one by a BLACK move (f6<->g8), which is not ours.
    let atk = Attacks::new();
    let c = Cuckoo::novo(&Zobrist::new(), &atk);
    let mut b = Board::startpos();
    let mut k = vec![b.hash];
    for m in ["g1f3", "g8f6", "f3g1", "f6g8"] {
        jogar(&mut b, &mut k, &atk, m);
    }
    // g1f3 leads back to the position after ply one: a move of ours, and it must be seen.
    assert!(c.repeticao_a_vista(&b, &k, 0, &atk));
}
