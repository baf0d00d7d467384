//! Pseudo-legal and legal move generation.
use vstd::prelude::*;
use crate::attacks::{
    Attacks, bishop_attacks, rook_attacks, queen_attacks, bishop_spec, rook_spec, queen_spec,
    knight_spec, king_spec, pawn_spec,
};
use crate::bitboard::{Bitboard, bb, pop_lsb, sq_in, group_bitboard, RANK_2, RANK_7};
use crate::board::{
    Board, Undo, attacked_by, king_square, made, move_ok, pieces_consistent, unmade, lemma_made_can_unmake,
    lemma_unmake_undoes_make, mailbox_after, ep_capture_sq, castle_rook_from, castle_rook_to, CASTLE_WK, CASTLE_WQ, CASTLE_BK, CASTLE_BQ,
};
use crate::moves::{Move, MoveFlag};
use crate::types::{Color, PieceType, Square, NO_SQUARE, color_index, opposite, rank_of, piece_of_index, color_of_index};

verus! {

/// The moves appended to `v` after its first `start` entries.
pub open spec fn added(v: Seq<Move>, start: int) -> Seq<Move> {
    v.subrange(start, v.len() as int)
}

pub proof fn lemma_push_contains(s: Seq<Move>, x: Move)
    ensures
        forall|m: Move| #[trigger] s.push(x).contains(m) <==> (s.contains(m) || m == x),
{
    assert forall|m: Move| #[trigger] s.push(x).contains(m) <==> (s.contains(m) || m == x) by {
        if s.push(x).contains(m) {
            let i = choose|i: int| 0 <= i < s.push(x).len() && s.push(x)[i] == m;
            if i < s.len() {
                assert(s[i] == m);
            }
        }
        if s.contains(m) {
            let i = choose|i: int| 0 <= i < s.len() && s[i] == m;
            assert(s.push(x)[i] == m);
        }
        if m == x {
            assert(s.push(x)[s.len() as int] == m);
        }
    }
}

/// Pushing onto `v` adds the pushed move to what was appended since `start`.
pub proof fn lemma_added_push(v: Seq<Move>, start: int, x: Move)
    requires
        0 <= start <= v.len(),
    ensures
        forall|m: Move| #[trigger] added(v.push(x), start).contains(m) <==> (added(v, start).contains(m) || m == x),
{
    assert(added(v.push(x), start) =~= added(v, start).push(x));
    lemma_push_contains(added(v, start), x);
}

/// What was appended since `a` is what was appended from `a` to `b` and from `b` on.
pub proof fn lemma_added_split(v: Seq<Move>, a: int, b: int)
    requires
        0 <= a <= b <= v.len(),
    ensures
        forall|m: Move| #[trigger] added(v, a).contains(m) <==> (v.subrange(a, b).contains(m) || added(v, b).contains(m)),
{
    assert forall|m: Move| #[trigger] added(v, a).contains(m) <==> (v.subrange(a, b).contains(m) || added(v, b).contains(m)) by {
        if added(v, a).contains(m) {
            let i = choose|i: int| 0 <= i < added(v, a).len() && added(v, a)[i] == m;
            if a + i < b {
                assert(v.subrange(a, b)[i] == m);
            } else {
                assert(added(v, b)[a + i - b] == m);
            }
        }
        if v.subrange(a, b).contains(m) {
            let i = choose|i: int| 0 <= i < b - a && v.subrange(a, b)[i] == m;
            assert(added(v, a)[i] == m);
        }
        if added(v, b).contains(m) {
            let i = choose|i: int| 0 <= i < added(v, b).len() && added(v, b)[i] == m;
            assert(added(v, a)[b - a + i] == m);
        }
    }
}

/// The place of a piece kind in the generator's order: pawns first, the king last.
pub open spec fn kind_rank(p: PieceType) -> int {
    match p {
        PieceType::Pawn => 0,
        PieceType::Knight => 1,
        PieceType::Bishop => 2,
        PieceType::Rook => 3,
        PieceType::Queen => 4,
        PieceType::King => 5,
    }
}

/// Promotions come queen, rook, bishop, knight.
pub open spec fn promo_rank(p: Option<PieceType>) -> int {
    if p == Some(PieceType::Rook) {
        1
    } else if p == Some(PieceType::Bishop) {
        2
    } else if p == Some(PieceType::Knight) {
        3
    } else {
        0
    }
}

/// A pawn's moves from one square come pushes (promotions in order), the
/// double step, the captures by target square, then en passant.
pub open spec fn pawn_sub(m: Move) -> int {
    if m.flag == MoveFlag::Quiet {
        promo_rank(m.promotion)
    } else if m.flag == MoveFlag::DoublePush {
        4
    } else if m.flag == MoveFlag::Capture {
        8 + m.to * 4 + promo_rank(m.promotion)
    } else {
        264
    }
}

/// Where a move stands in the order the generator emits: by the kind of the
/// piece that moves (castling last), then by the square it leaves, then by
/// target square (for a pawn, as `pawn_sub` says).
pub open spec fn gen_rank(b: Board, m: Move) -> int {
    if m.flag == MoveFlag::CastleKing {
        6291456int
    } else if m.flag == MoveFlag::CastleQueen {
        6291457int
    } else {
        match b.mailbox[m.from as int] {
            Some((p, _)) => kind_rank(p) * 1048576 + m.from * 4096 + (if p == PieceType::Pawn {
                pawn_sub(m)
            } else {
                m.to as int
            }),
            None => 0,
        }
    }
}

/// The moves of `s` come in strictly increasing generator order; in
/// particular none comes twice.
pub open spec fn gen_sorted(b: Board, s: Seq<Move>) -> bool {
    forall|i: int, j: int| #![trigger s[i], s[j]] 0 <= i < j < s.len() ==> gen_rank(b, s[i]) < gen_rank(b, s[j])
}

pub proof fn lemma_sorted_no_dup(b: Board, s: Seq<Move>)
    requires
        gen_sorted(b, s),
    ensures
        s.no_duplicates(),
{
    assert forall|i: int, j: int| 0 <= i < s.len() && 0 <= j < s.len() && i != j implies s[i] != s[j] by {
        if i < j {
            assert(gen_rank(b, s[i]) < gen_rank(b, s[j]));
        } else {
            assert(gen_rank(b, s[j]) < gen_rank(b, s[i]));
        }
    }
}

/// A list in generator order is fixed by which moves it holds: two such lists
/// with the same moves are the same list.
pub proof fn lemma_sorted_unique(b: Board, s: Seq<Move>, t: Seq<Move>)
    requires
        gen_sorted(b, s),
        gen_sorted(b, t),
        forall|m: Move| s.contains(m) <==> t.contains(m),
    ensures
        s == t,
    decreases s.len(),
{
    if s.len() == 0 {
        if t.len() > 0 {
            assert(t.contains(t[0]));
        }
        assert(s =~= t);
    } else if t.len() == 0 {
        assert(s.contains(s[0]));
    } else {
        assert(s.contains(s[0]));
        assert(t.contains(t[0]));
        let j = choose|j: int| 0 <= j < t.len() && t[j] == s[0];
        let k = choose|k: int| 0 <= k < s.len() && s[k] == t[0];
        if k > 0 {
            assert(gen_rank(b, s[0]) < gen_rank(b, s[k]));
            if j > 0 {
                assert(gen_rank(b, t[0]) < gen_rank(b, t[j]));
            }
        }
        assert(s[0] == t[0]);
        let s1 = s.drop_first();
        let t1 = t.drop_first();
        lemma_sorted_no_dup(b, s);
        lemma_sorted_no_dup(b, t);
        assert forall|m: Move| s1.contains(m) <==> t1.contains(m) by {
            if s1.contains(m) {
                let i = choose|i: int| 0 <= i < s1.len() && s1[i] == m;
                assert(s[i + 1] == m);
                assert(s.contains(m));
                let i2 = choose|i2: int| 0 <= i2 < t.len() && t[i2] == m;
                assert(i2 != 0);
                assert(t1[i2 - 1] == m);
            }
            if t1.contains(m) {
                let i = choose|i: int| 0 <= i < t1.len() && t1[i] == m;
                assert(t[i + 1] == m);
                assert(t.contains(m));
                let i2 = choose|i2: int| 0 <= i2 < s.len() && s[i2] == m;
                assert(i2 != 0);
                assert(s1[i2 - 1] == m);
            }
        }
        assert forall|i: int, j2: int| #![trigger s1[i], s1[j2]] 0 <= i < j2 < s1.len() implies gen_rank(b, s1[i]) < gen_rank(b, s1[j2]) by {
            assert(s1[i] == s[i + 1] && s1[j2] == s[j2 + 1]);
        }
        assert forall|i: int, j2: int| #![trigger t1[i], t1[j2]] 0 <= i < j2 < t1.len() implies gen_rank(b, t1[i]) < gen_rank(b, t1[j2]) by {
            assert(t1[i] == t[i + 1] && t1[j2] == t[j2 + 1]);
        }
        lemma_sorted_unique(b, s1, t1);
        assert(s =~= t) by {
            assert forall|i: int| 0 <= i < s.len() implies s[i] == t[i] by {
                if i > 0 {
                    assert(s[i] == s1[i - 1]);
                    assert(t[i] == t1[i - 1]);
                }
            }
        }
    }
}

proof fn lemma_sorted_push(b: Board, s: Seq<Move>, y: Move)
    requires
        gen_sorted(b, s),
        forall|i: int| 0 <= i < s.len() ==> gen_rank(b, #[trigger] s[i]) < gen_rank(b, y),
    ensures
        gen_sorted(b, s.push(y)),
{
    let t = s.push(y);
    assert forall|i: int, j: int| 0 <= i < j < t.len() implies gen_rank(b, t[i]) < gen_rank(b, t[j]) by {
        assert(t[i] == s[i]);
        if j < s.len() {
            assert(t[j] == s[j]);
        }
    }
}

/// Two runs in order, each sorted, the first below `mid` and the second not:
/// what both appended is sorted.
proof fn lemma_sorted_runs(b: Board, v0: Seq<Move>, v1: Seq<Move>, v2: Seq<Move>, mid: int)
    requires
        v1.subrange(0, v0.len() as int) == v0,
        v2.subrange(0, v1.len() as int) == v1,
        v0.len() <= v1.len() <= v2.len(),
        gen_sorted(b, added(v1, v0.len() as int)),
        gen_sorted(b, added(v2, v1.len() as int)),
        forall|m: Move| #[trigger] added(v1, v0.len() as int).contains(m) ==> gen_rank(b, m) < mid,
        forall|m: Move| #[trigger] added(v2, v1.len() as int).contains(m) ==> mid <= gen_rank(b, m),
    ensures
        gen_sorted(b, added(v2, v0.len() as int)),
{
    let a = v0.len() as int;
    let c = v1.len() as int;
    let r = added(v2, a);
    let r1 = added(v1, a);
    let r2 = added(v2, c);
    assert forall|i: int, j: int| 0 <= i < j < r.len() implies gen_rank(b, r[i]) < gen_rank(b, r[j]) by {
        if j < c - a {
            assert(r[i] == v2[a + i]);
            assert(v2[a + i] == v1[a + i]) by {
                assert(v2.subrange(0, c)[a + i] == v2[a + i]);
            }
            assert(v2[a + j] == v1[a + j]) by {
                assert(v2.subrange(0, c)[a + j] == v2[a + j]);
            }
            assert(r1[i] == r[i] && r1[j] == r[j]);
        } else if i >= c - a {
            assert(r2[i - (c - a)] == r[i] && r2[j - (c - a)] == r[j]);
        } else {
            assert(v2[a + i] == v1[a + i]) by {
                assert(v2.subrange(0, c)[a + i] == v2[a + i]);
            }
            assert(r1[i] == r[i]);
            assert(r1.contains(r[i]));
            assert(r2[j - (c - a)] == r[j]);
            assert(r2.contains(r[j]));
        }
    }
}

/// The four promotions of a pawn step, queen first.
pub open spec fn promos(from: u8, to: u8, flag: MoveFlag) -> Seq<Move> {
    seq![
        Move { from, to, promotion: Some(PieceType::Queen), flag },
        Move { from, to, promotion: Some(PieceType::Rook), flag },
        Move { from, to, promotion: Some(PieceType::Bishop), flag },
        Move { from, to, promotion: Some(PieceType::Knight), flag },
    ]
}

proof fn lemma_promos_sorted(b: Board, from: u8, to: u8, flag: MoveFlag)
    requires
        b.mailbox[from as int] matches Some((p, _)) && p == PieceType::Pawn,
        flag == MoveFlag::Quiet || flag == MoveFlag::Capture,
    ensures
        gen_sorted(b, promos(from, to, flag)),
        forall|k: int| 0 <= k < 4 ==> gen_rank(b, #[trigger] promos(from, to, flag)[k]) == from * 4096 + (if flag
            == MoveFlag::Capture {
            8 + to * 4
        } else {
            0
        }) + k,
{
    let s = promos(from, to, flag);
    assert(gen_rank(b, s[0]) == from * 4096 + (if flag == MoveFlag::Capture { 8 + to * 4 } else { 0 }));
    assert(gen_rank(b, s[1]) == from * 4096 + (if flag == MoveFlag::Capture { 8 + to * 4 } else { 0 }) + 1);
    assert(gen_rank(b, s[2]) == from * 4096 + (if flag == MoveFlag::Capture { 8 + to * 4 } else { 0 }) + 2);
    assert(gen_rank(b, s[3]) == from * 4096 + (if flag == MoveFlag::Capture { 8 + to * 4 } else { 0 }) + 3);
}

/// A move from `from` to `to` by a non-pawn: a capture if an enemy stands on `to`.
pub open spec fn plain_move(b: Board, from: int, to: int) -> Move {
    Move {
        from: from as u8,
        to: to as u8,
        promotion: None,
        flag: if sq_in(b.occ_color[color_index(opposite(b.side))], to) {
            MoveFlag::Capture
        } else {
            MoveFlag::Quiet
        },
    }
}

pub open spec fn is_promotion_piece(p: Option<PieceType>) -> bool {
    p == Some(PieceType::Queen) || p == Some(PieceType::Rook) || p == Some(PieceType::Bishop) || p
        == Some(PieceType::Knight)
}

pub open spec fn pawn_step(c: Color) -> int {
    if c == Color::White {
        8
    } else {
        -8
    }
}

/// The rank from which a pawn of colour `c` promotes with its next step.
pub open spec fn promo_from_rank(c: Color) -> int {
    if c == Color::White {
        6
    } else {
        1
    }
}

pub open spec fn start_rank(c: Color) -> u64 {
    if c == Color::White {
        RANK_2
    } else {
        RANK_7
    }
}

/// `m` is a move a pawn of the side to move on `m.from` may make (ignoring checks).
pub open spec fn pawn_move_from(b: Board, m: Move) -> bool {
    let us = b.side;
    let them = opposite(us);
    let from = m.from as int;
    let one = from + pawn_step(us);
    let occ = b.occ_all;
    let promo = from / 8 == promo_from_rank(us);
    ||| (0 <= one < 64 && !sq_in(occ, one) && m.to == one && m.flag == MoveFlag::Quiet && (if promo {
        is_promotion_piece(m.promotion)
    } else {
        m.promotion is None
    }))
    ||| (0 <= one < 64 && !sq_in(occ, one) && sq_in(start_rank(us), from) && m.to == one + pawn_step(
        us,
    ) && !sq_in(occ, m.to as int) && m.promotion is None && m.flag == MoveFlag::DoublePush)
    ||| (sq_in(pawn_spec(from, us) & b.occ_color[color_index(them)], m.to as int) && m.flag
        == MoveFlag::Capture && (if promo {
        is_promotion_piece(m.promotion)
    } else {
        m.promotion is None
    }))
    ||| (b.ep_square != NO_SQUARE && sq_in(pawn_spec(from, us), b.ep_square as int) && m.to
        == b.ep_square && m.promotion is None && m.flag == MoveFlag::EnPassant)
}

/// The attack set of piece kind `p` (1 knight .. 5 king) on `from`.
pub open spec fn piece_attacks(b: Board, p: int, from: int) -> u64 {
    if p == 1 {
        knight_spec(from)
    } else if p == 2 {
        bishop_spec(from, b.occ_all)
    } else if p == 3 {
        rook_spec(from, b.occ_all)
    } else if p == 4 {
        queen_spec(from, b.occ_all)
    } else {
        king_spec(from)
    }
}

/// `m` is a move of a piece of kind `p` standing on `m.from`.
pub open spec fn piece_move_from(b: Board, p: int, m: Move) -> bool {
    &&& sq_in(piece_attacks(b, p, m.from as int) & !b.occ_color[color_index(b.side)], m.to as int)
    &&& m == plain_move(b, m.from as int, m.to as int)
}

/// The castling moves available: rights kept, squares between empty, king not
/// in check and not passing through or landing on an attacked square.
pub open spec fn castle_move(b: Board, m: Move) -> bool {
    let us = b.side;
    let them = opposite(us);
    let occ = b.occ_all;
    &&& !attacked_by(b, king_square(b, us), them)
    &&& if us == Color::White {
        ||| (m == Move { from: 4, to: 6, promotion: None, flag: MoveFlag::CastleKing }
            && b.castling & CASTLE_WK != 0 && !sq_in(occ, 5) && !sq_in(occ, 6) && !attacked_by(
            b,
            5,
            them,
        ) && !attacked_by(b, 6, them))
        ||| (m == Move { from: 4, to: 2, promotion: None, flag: MoveFlag::CastleQueen }
            && b.castling & CASTLE_WQ != 0 && !sq_in(occ, 1) && !sq_in(occ, 2) && !sq_in(occ, 3)
            && !attacked_by(b, 3, them) && !attacked_by(b, 2, them))
    } else {
        ||| (m == Move { from: 60, to: 62, promotion: None, flag: MoveFlag::CastleKing }
            && b.castling & CASTLE_BK != 0 && !sq_in(occ, 61) && !sq_in(occ, 62) && !attacked_by(
            b,
            61,
            them,
        ) && !attacked_by(b, 62, them))
        ||| (m == Move { from: 60, to: 58, promotion: None, flag: MoveFlag::CastleQueen }
            && b.castling & CASTLE_BQ != 0 && !sq_in(occ, 57) && !sq_in(occ, 58) && !sq_in(occ, 59)
            && !attacked_by(b, 59, them) && !attacked_by(b, 58, them))
    }
}

/// The pseudo-legal moves: every move the pieces of the side to move can make
/// by their rules, without regard to leaving the king in check.
pub open spec fn pseudo_legal(b: Board, m: Move) -> bool {
    let ci = color_index(b.side);
    ||| (sq_in(b.pieces[ci][0], m.from as int) && pawn_move_from(b, m))
    ||| (sq_in(b.pieces[ci][1], m.from as int) && piece_move_from(b, 1, m))
    ||| (sq_in(b.pieces[ci][2], m.from as int) && piece_move_from(b, 2, m))
    ||| (sq_in(b.pieces[ci][3], m.from as int) && piece_move_from(b, 3, m))
    ||| (sq_in(b.pieces[ci][4], m.from as int) && piece_move_from(b, 4, m))
    ||| (m.from == king_square(b, b.side) && piece_move_from(b, 5, m))
    ||| castle_move(b, m)
}

fn add_promotions(out: &mut Vec<Move>, from: Square, to: Square, capture: bool)
    ensures
        final(out)@.subrange(0, old(out)@.len() as int) == old(out)@,
        final(out)@.len() >= old(out)@.len(),
        forall|m: Move| #[trigger] added(final(out)@, old(out)@.len() as int).contains(m) <==> (m.from == from
            && m.to == to && is_promotion_piece(m.promotion) && m.flag == (if capture {
            MoveFlag::Capture
        } else {
            MoveFlag::Quiet
        })),
        added(final(out)@, old(out)@.len() as int) == promos(from, to, if capture {
            MoveFlag::Capture
        } else {
            MoveFlag::Quiet
        }),
{
    let ghost start = out@.len() as int;
    let flag = if capture {
        MoveFlag::Capture
    } else {
        MoveFlag::Quiet
    };
    out.push(Move { from, to, promotion: Some(PieceType::Queen), flag });
    out.push(Move { from, to, promotion: Some(PieceType::Rook), flag });
    out.push(Move { from, to, promotion: Some(PieceType::Bishop), flag });
    out.push(Move { from, to, promotion: Some(PieceType::Knight), flag });
    proof {
        let a = added(out@, start);
        assert(a.len() == 4);
        assert(a[0] == Move { from, to, promotion: Some(PieceType::Queen), flag });
        assert(a[1] == Move { from, to, promotion: Some(PieceType::Rook), flag });
        assert(a[2] == Move { from, to, promotion: Some(PieceType::Bishop), flag });
        assert(a[3] == Move { from, to, promotion: Some(PieceType::Knight), flag });
        assert(a =~= promos(from, to, flag));
        assert forall|m: Move| #[trigger] a.contains(m) <==> (m.from == from && m.to == to
            && is_promotion_piece(m.promotion) && m.flag == flag) by {
            if m.from == from && m.to == to && is_promotion_piece(m.promotion) && m.flag == flag {
                if m.promotion == Some(PieceType::Queen) {
                    assert(a[0] == m);
                } else if m.promotion == Some(PieceType::Rook) {
                    assert(a[1] == m);
                } else if m.promotion == Some(PieceType::Bishop) {
                    assert(a[2] == m);
                } else {
                    assert(a[3] == m);
                }
            }
        }
        assert(out@.subrange(0, start) =~= old(out)@);
    }
}

/// One move from `from` to each square of `targets`, a capture where an enemy stands.
fn gen_from_attacks(out: &mut Vec<Move>, from: Square, targets: Bitboard, board: &Board, them: Color)
    requires
        them == opposite(board.side),
        from < 64,
        board.mailbox[from as int] matches Some((p, _)) && p != PieceType::Pawn,
    ensures
        final(out)@.subrange(0, old(out)@.len() as int) == old(out)@,
        final(out)@.len() >= old(out)@.len(),
        forall|m: Move| #[trigger] added(final(out)@, old(out)@.len() as int).contains(m) <==> (m.from == from
            && sq_in(targets, m.to as int) && m == plain_move(*board, from as int, m.to as int)),
        gen_sorted(*board, added(final(out)@, old(out)@.len() as int)),
{
    let ghost start = out@.len() as int;
    let mut t = targets;
    while t != 0
        invariant
            them == opposite(board.side),
            start <= out@.len(),
            out@.subrange(0, start) == old(out)@,
            start == old(out)@.len(),
            forall|s: int| #![auto] sq_in(t, s) ==> sq_in(targets, s),
            forall|m: Move| #[trigger] added(out@, start).contains(m) <==> (m.from == from && sq_in(
                targets,
                m.to as int,
            ) && !sq_in(t, m.to as int) && m == plain_move(*board, from as int, m.to as int)),
            from < 64,
            board.mailbox[from as int] matches Some((p, _)) && p != PieceType::Pawn,
            gen_sorted(*board, added(out@, start)),
            forall|i: int, s: int| #![trigger added(out@, start)[i], sq_in(t, s)] 0 <= i < added(out@, start).len() && sq_in(t, s) ==> added(out@, start)[i].to < s,
        decreases t,
    {
        let ghost v = out@;
        let ghost t0 = t;
        let to = pop_lsb(&mut t);
        let mv = if board.occ_color[them.idx()] & bb(to) != 0 {
            Move::capture(from, to)
        } else {
            Move::quiet(from, to)
        };
        proof {
            lemma_single_and(board.occ_color[color_index(them)], to);
        }
        proof {
            let a = added(v, start);
            assert forall|i: int| 0 <= i < a.len() implies gen_rank(*board, #[trigger] a[i]) < gen_rank(*board, mv) by {
                assert(a.contains(a[i]));
                assert(sq_in(t0, to as int));
                assert(a[i].to < to);
            }
            lemma_sorted_push(*board, a, mv);
            assert(added(v.push(mv), start) =~= a.push(mv));
        }
        out.push(mv);
        proof {
            lemma_added_push(v, start, mv);
            assert(out@.subrange(0, start) =~= v.subrange(0, start));
            assert(mv == plain_move(*board, from as int, to as int));
            let a2 = added(out@, start);
            assert forall|i: int, s: int| #![trigger a2[i], sq_in(t, s)] 0 <= i < a2.len() && sq_in(t, s) implies a2[i].to < s by {
                if i < a2.len() - 1 {
                    assert(a2[i] == added(v, start)[i]);
                }
            }
        }
    }
    proof {
        broadcast use group_bitboard;
    }
}

/// Testing one square with a single-bit mask.
pub proof fn lemma_single_and(x: u64, s: u8)
    requires
        s < 64,
    ensures
        (x & (1u64 << s) != 0) <==> sq_in(x, s as int),
        ((1u64 << s) & x != 0) <==> sq_in(x, s as int),
{
    broadcast use group_bitboard;
    crate::bitboard::lemma_bits(x, 1u64 << s, 0, 0);
    let y = x & (1u64 << s);
    if y != 0 {
        crate::bitboard::lemma_lsb(y);
        assert(sq_in(1u64 << s, crate::bitboard::lsb(y)));
    }
    if sq_in(x, s as int) {
        assert(sq_in(y, s as int));
    }
}


pub open spec fn pawn_push_part(b: Board, m: Move) -> bool {
    let us = b.side;
    let from = m.from as int;
    let one = from + pawn_step(us);
    let promo = from / 8 == promo_from_rank(us);
    0 <= one < 64 && !sq_in(b.occ_all, one) && m.to == one && m.flag == MoveFlag::Quiet && (if promo {
        is_promotion_piece(m.promotion)
    } else {
        m.promotion is None
    })
}

pub open spec fn pawn_double_part(b: Board, m: Move) -> bool {
    let us = b.side;
    let from = m.from as int;
    let one = from + pawn_step(us);
    0 <= one < 64 && !sq_in(b.occ_all, one) && sq_in(start_rank(us), from) && m.to == one + pawn_step(us)
        && !sq_in(b.occ_all, m.to as int) && m.promotion is None && m.flag == MoveFlag::DoublePush
}

pub open spec fn pawn_capture_part(b: Board, m: Move) -> bool {
    let us = b.side;
    let them = opposite(us);
    let from = m.from as int;
    let promo = from / 8 == promo_from_rank(us);
    sq_in(pawn_spec(from, us) & b.occ_color[color_index(them)], m.to as int) && m.flag
        == MoveFlag::Capture && (if promo {
        is_promotion_piece(m.promotion)
    } else {
        m.promotion is None
    })
}

pub open spec fn pawn_ep_part(b: Board, m: Move) -> bool {
    b.ep_square != NO_SQUARE && sq_in(pawn_spec(m.from as int, b.side), b.ep_square as int) && m.to
        == b.ep_square && m.promotion is None && m.flag == MoveFlag::EnPassant
}

/// The pushes of a pawn of the side to move standing on `from`.
fn gen_pawn_pushes(board: &Board, from: Square, out: &mut Vec<Move>)
    requires
        board.wf(),
        from < 64,
        board.mailbox[from as int] matches Some((p, _)) && p == PieceType::Pawn,
    ensures
        final(out)@.subrange(0, old(out)@.len() as int) == old(out)@,
        final(out)@.len() >= old(out)@.len(),
        forall|m: Move| #[trigger] added(final(out)@, old(out)@.len() as int).contains(m) <==> (m.from == from
            && (pawn_push_part(*board, m) || pawn_double_part(*board, m))),
        gen_sorted(*board, added(final(out)@, old(out)@.len() as int)),
{
    broadcast use group_bitboard;

    let ghost start = out@.len() as int;
    let us = board.side;
    let occ = board.occ_all;
    let white = us == Color::White;
    let push_dir: i32 = if white {
        8
    } else {
        -8
    };
    let start_bb: Bitboard = if white {
        RANK_2
    } else {
        RANK_7
    };
    let promo_rank: u8 = if white {
        6
    } else {
        1
    };
    let will_promote = rank_of(from) == promo_rank;
    let one_i = from as i32 + push_dir;
    // the pushes
    if 0 <= one_i && one_i < 64 {
        let one = one_i as u8;
        proof {
            lemma_single_and(occ, one);
        }
        if bb(one) & occ == 0 {
            if will_promote {
                add_promotions(out, from, one, false);
                proof {
                    lemma_promos_sorted(*board, from, one, MoveFlag::Quiet);
                }
            } else {
                let ghost v = out@;
                let mv = Move::quiet(from, one);
                out.push(mv);
                proof {
                    lemma_added_push(v, start, mv);
                    assert(added(v, start) =~= Seq::<Move>::empty());
                    assert(added(out@, start) =~= seq![mv]);
                }
            }
            let ghost mid = out@.len() as int;
            let ghost at_mid = out@;
            assert(gen_sorted(*board, added(at_mid, start)));
            assert(forall|i: int| 0 <= i < added(at_mid, start).len() ==> gen_rank(*board, #[trigger] added(at_mid, start)[i]) < from * 4096 + 4);
            assert(forall|m: Move| #[trigger] added(at_mid, start).contains(m) <==> (m.from == from
                && pawn_push_part(*board, m)));
            proof {
                lemma_single_and(start_bb, from);
                crate::bitboard::lemma_masks(from as u64);
            }
            if bb(from) & start_bb != 0 {
                let two = (from as i32 + push_dir * 2) as u8;
                proof {
                    lemma_single_and(occ, two);
                }
                if bb(two) & occ == 0 {
                    let mv = Move { from, to: two, promotion: None, flag: MoveFlag::DoublePush };
                    proof {
                        lemma_sorted_push(*board, added(at_mid, start), mv);
                        assert(added(at_mid.push(mv), start) =~= added(at_mid, start).push(mv));
                    }
                    out.push(mv);
                    proof {
                        lemma_added_push(at_mid, mid, mv);
                        assert(added(at_mid, mid) =~= Seq::<Move>::empty());
                    }
                } else {
                    assert(added(out@, mid) =~= Seq::<Move>::empty());
                }
            } else {
                assert(added(out@, mid) =~= Seq::<Move>::empty());
            }
            assert(forall|m: Move| #[trigger] added(out@, mid).contains(m) <==> (m.from == from
                && pawn_double_part(*board, m)));
            proof {
                lemma_added_split(out@, start, mid);
                assert(out@.subrange(start, mid) =~= added(at_mid, start));
                assert(out@.subrange(0, start) =~= at_mid.subrange(0, start));
            }
        } else {
            assert(added(out@, start) =~= Seq::<Move>::empty());
        }
    } else {
        assert(added(out@, start) =~= Seq::<Move>::empty());
    }
    assert(out@.subrange(0, start) == old(out)@);
    assert(forall|m: Move| #[trigger] added(out@, start).contains(m) <==> (m.from == from && (pawn_push_part(
        *board,
        m,
    ) || pawn_double_part(*board, m))));
}

/// The captures of a pawn of the side to move standing on `from`.
fn gen_pawn_captures(board: &Board, atk: &Attacks, from: Square, out: &mut Vec<Move>)
    requires
        board.wf(),
        atk.wf(),
        from < 64,
        board.mailbox[from as int] matches Some((p, _)) && p == PieceType::Pawn,
    ensures
        final(out)@.subrange(0, old(out)@.len() as int) == old(out)@,
        final(out)@.len() >= old(out)@.len(),
        forall|m: Move| #[trigger] added(final(out)@, old(out)@.len() as int).contains(m) <==> (m.from == from
            && pawn_capture_part(*board, m)),
        gen_sorted(*board, added(final(out)@, old(out)@.len() as int)),
{
    broadcast use group_bitboard;

    let us = board.side;
    let them = us.opp();
    let promo_rank: u8 = if us == Color::White {
        6
    } else {
        1
    };
    let will_promote = rank_of(from) == promo_rank;
    let attacks = atk.pawn[us.idx()][from as usize];
    let caps_all = attacks & board.occ_color[them.idx()];
    let mut caps = caps_all;
    let ghost s1 = out@.len() as int;
    assert(attacks == pawn_spec(from as int, us)) by {
        if us == Color::White {
        } else {
        }
    }
    assert(added(out@, s1) =~= Seq::<Move>::empty());
    while caps != 0
        invariant
            board.wf(),
            s1 <= out@.len(),
            out@.subrange(0, s1) == old(out)@,
            s1 == old(out)@.len(),
            caps_all == pawn_spec(from as int, us) & board.occ_color[color_index(them)],
            us == board.side,
            them == opposite(us),
            will_promote == (from / 8 == promo_from_rank(us)),
            forall|s: int| #![auto] sq_in(caps, s) ==> sq_in(caps_all, s),
            forall|m: Move| #[trigger] added(out@, s1).contains(m) <==> (m.from == from
                && pawn_capture_part(*board, m) && !sq_in(caps, m.to as int)),
            from < 64,
            board.mailbox[from as int] matches Some((p, _)) && p == PieceType::Pawn,
            gen_sorted(*board, added(out@, s1)),
            forall|i: int, s: int| #![trigger added(out@, s1)[i], sq_in(caps, s)] 0 <= i < added(out@, s1).len() && sq_in(caps, s) ==> added(out@, s1)[i].to < s,
        decreases caps,
    {
        let ghost v = out@;
        let ghost c0 = caps;
        let to = pop_lsb(&mut caps);
        let ghost mid = from * 4096 + 8 + to * 4;
        proof {
            assert forall|m: Move| #[trigger] added(v, s1).contains(m) implies gen_rank(*board, m) < mid by {
                let i = choose|i: int| 0 <= i < added(v, s1).len() && added(v, s1)[i] == m;
                assert(sq_in(c0, to as int));
                assert(m.to < to);
            }
        }
        if will_promote {
            add_promotions(out, from, to, true);
            proof {
                lemma_promos_sorted(*board, from, to, MoveFlag::Capture);
                lemma_added_split(out@, s1, v.len() as int);
                assert(out@.subrange(s1, v.len() as int) =~= added(v, s1));
                assert forall|m: Move| #[trigger] added(out@, v.len() as int).contains(m) implies mid <= gen_rank(*board, m) by {
                    let k = choose|k: int| 0 <= k < 4 && promos(from, to, MoveFlag::Capture)[k] == m;
                }
                lemma_sorted_runs(*board, old(out)@, v, out@, mid);
            }
        } else {
            let mv = Move::capture(from, to);
            out.push(mv);
            proof {
                lemma_added_push(v, s1, mv);
                assert(added(out@, v.len() as int) =~= seq![mv]);
                assert(out@.subrange(0, v.len() as int) =~= v);
                assert forall|m: Move| #[trigger] added(out@, v.len() as int).contains(m) implies mid <= gen_rank(*board, m) by {
                    assert(m == mv);
                }
                lemma_sorted_runs(*board, old(out)@, v, out@, mid);
            }
        }
        proof {
            assert(out@.subrange(0, s1) =~= v.subrange(0, s1));
            let a2 = added(out@, s1);
            assert forall|i: int, s: int| #![trigger a2[i], sq_in(caps, s)] 0 <= i < a2.len() && sq_in(caps, s) implies a2[i].to < s by {
                assert(a2.contains(a2[i]));
                assert(sq_in(c0, s));
            }
        }
    }
}

/// The en passant capture of a pawn of the side to move standing on `from`.
fn gen_pawn_ep(board: &Board, atk: &Attacks, from: Square, out: &mut Vec<Move>)
    requires
        board.wf(),
        atk.wf(),
        from < 64,
    ensures
        final(out)@.subrange(0, old(out)@.len() as int) == old(out)@,
        final(out)@.len() >= old(out)@.len(),
        forall|m: Move| #[trigger] added(final(out)@, old(out)@.len() as int).contains(m) <==> (m.from == from
            && pawn_ep_part(*board, m)),
        gen_sorted(*board, added(final(out)@, old(out)@.len() as int)),
{
    let us = board.side;
    let attacks = atk.pawn[us.idx()][from as usize];
    assert(attacks == pawn_spec(from as int, us)) by {
        if us == Color::White {
        } else {
        }
    }
    let ghost s2 = out@.len() as int;
    if board.ep_square != NO_SQUARE {
        proof {
            lemma_single_and(attacks, board.ep_square);
        }
        if attacks & bb(board.ep_square) != 0 {
            let ghost v = out@;
            let mv = Move { from, to: board.ep_square, promotion: None, flag: MoveFlag::EnPassant };
            out.push(mv);
            proof {
                lemma_added_push(v, s2, mv);
                assert(added(v, s2) =~= Seq::<Move>::empty());
                assert(out@.subrange(0, s2) =~= v);
            }
        } else {
            assert(added(out@, s2) =~= Seq::<Move>::empty());
        }
    } else {
        assert(added(out@, s2) =~= Seq::<Move>::empty());
    }
}

/// Appending three runs of moves: what was added is what each run added.
proof fn lemma_three_runs(v0: Seq<Move>, v1: Seq<Move>, v2: Seq<Move>, v3: Seq<Move>)
    requires
        v1.subrange(0, v0.len() as int) == v0,
        v2.subrange(0, v1.len() as int) == v1,
        v3.subrange(0, v2.len() as int) == v2,
        v0.len() <= v1.len() <= v2.len() <= v3.len(),
    ensures
        v3.subrange(0, v0.len() as int) == v0,
        forall|m: Move| #[trigger] added(v3, v0.len() as int).contains(m) <==> (added(v1, v0.len() as int).contains(m)
            || added(v2, v1.len() as int).contains(m) || added(v3, v2.len() as int).contains(m)),
{
    let a = v0.len() as int;
    let b = v1.len() as int;
    let c = v2.len() as int;
    lemma_added_split(v3, a, b);
    lemma_added_split(v3, b, c);
    assert(v3.subrange(a, b) =~= added(v1, a)) by {
        assert(v3.subrange(0, c).subrange(0, b) =~= v3.subrange(0, b));
    }
    assert(v3.subrange(b, c) =~= added(v2, b));
    assert(v3.subrange(0, a) =~= v0) by {
        assert(v3.subrange(0, c).subrange(0, b).subrange(0, a) =~= v3.subrange(0, a));
    }
}

/// The moves of a pawn of the side to move standing on `from`.
fn gen_pawn_from(board: &Board, atk: &Attacks, from: Square, out: &mut Vec<Move>)
    requires
        board.wf(),
        atk.wf(),
        from < 64,
        board.mailbox[from as int] matches Some((p, _)) && p == PieceType::Pawn,
    ensures
        final(out)@.subrange(0, old(out)@.len() as int) == old(out)@,
        final(out)@.len() >= old(out)@.len(),
        forall|m: Move| #[trigger] added(final(out)@, old(out)@.len() as int).contains(m) <==> (m.from == from
            && pawn_move_from(*board, m)),
        gen_sorted(*board, added(final(out)@, old(out)@.len() as int)),
{
    let ghost v0 = out@;
    gen_pawn_pushes(board, from, out);
    let ghost v1 = out@;
    gen_pawn_captures(board, atk, from, out);
    let ghost v2 = out@;
    gen_pawn_ep(board, atk, from, out);
    proof {
        lemma_three_runs(v0, v1, v2, out@);
        let m1 = from * 4096 + 8;
        let m2 = from * 4096 + 264;
        assert forall|m: Move| #[trigger] added(v1, v0.len() as int).contains(m) implies gen_rank(*board, m) < m1 by {}
        assert forall|m: Move| #[trigger] added(v2, v1.len() as int).contains(m) implies m1 <= gen_rank(*board, m) by {}
        lemma_sorted_runs(*board, v0, v1, v2, m1);
        lemma_two_runs(v0, v1, v2);
        assert forall|m: Move| #[trigger] added(v2, v0.len() as int).contains(m) implies gen_rank(*board, m) < m2 by {}
        assert forall|m: Move| #[trigger] added(out@, v2.len() as int).contains(m) implies m2 <= gen_rank(*board, m) by {}
        lemma_sorted_runs(*board, v0, v2, out@, m2);
    }
}


/// Appending a run after a run: what was added is what each added.
proof fn lemma_two_runs(v0: Seq<Move>, v1: Seq<Move>, v2: Seq<Move>)
    requires
        v1.subrange(0, v0.len() as int) == v0,
        v2.subrange(0, v1.len() as int) == v1,
        v0.len() <= v1.len() <= v2.len(),
    ensures
        v2.subrange(0, v0.len() as int) == v0,
        forall|m: Move| #[trigger] added(v2, v0.len() as int).contains(m) <==> (added(v1, v0.len() as int).contains(m)
            || added(v2, v1.len() as int).contains(m)),
{
    let a = v0.len() as int;
    let b = v1.len() as int;
    lemma_added_split(v2, a, b);
    assert(v2.subrange(a, b) =~= added(v1, a));
    assert(v2.subrange(0, a) =~= v0) by {
        assert(v2.subrange(0, b).subrange(0, a) =~= v2.subrange(0, a));
    }
}

/// The moves of every pawn of the side to move.
fn gen_pawns(board: &Board, atk: &Attacks, out: &mut Vec<Move>)
    requires
        board.wf(),
        atk.wf(),
    ensures
        final(out)@.subrange(0, old(out)@.len() as int) == old(out)@,
        final(out)@.len() >= old(out)@.len(),
        forall|m: Move| #[trigger] added(final(out)@, old(out)@.len() as int).contains(m) <==> (sq_in(
            board.pieces[color_index(board.side)][0],
            m.from as int,
        ) && pawn_move_from(*board, m)),
        gen_sorted(*board, added(final(out)@, old(out)@.len() as int)),
{
    let ghost start = out@.len() as int;
    let pawns = board.pieces[board.side.idx()][PieceType::Pawn.idx()];
    let mut p = pawns;
    assert(added(out@, start) =~= Seq::<Move>::empty());
    while p != 0
        invariant
            board.wf(),
            atk.wf(),
            start <= out@.len(),
            start == old(out)@.len(),
            out@.subrange(0, start) == old(out)@,
            pawns == board.pieces[color_index(board.side)][0],
            forall|s: int| #![auto] sq_in(p, s) ==> sq_in(pawns, s),
            forall|m: Move| #[trigger] added(out@, start).contains(m) <==> (sq_in(pawns, m.from as int)
                && !sq_in(p, m.from as int) && pawn_move_from(*board, m)),
            gen_sorted(*board, added(out@, start)),
            forall|i: int, s: int| #![trigger added(out@, start)[i], sq_in(p, s)] 0 <= i < added(out@, start).len() && sq_in(p, s) ==> added(out@, start)[i].from < s,
        decreases p,
    {
        let ghost v = out@;
        let ghost p0 = p;
        let from = pop_lsb(&mut p);
        gen_pawn_from(board, atk, from, out);
        proof {
            lemma_two_runs(old(out)@, v, out@);
            let mid = from * 4096;
            assert forall|m: Move| #[trigger] added(v, start).contains(m) implies gen_rank(*board, m) < mid by {
                let i = choose|i: int| 0 <= i < added(v, start).len() && added(v, start)[i] == m;
                assert(sq_in(p0, from as int));
                assert(m.from < from);
            }
            assert forall|m: Move| #[trigger] added(out@, v.len() as int).contains(m) implies mid <= gen_rank(*board, m) by {
            }
            lemma_sorted_runs(*board, old(out)@, v, out@, mid);
            let a2 = added(out@, start);
            assert forall|i: int, s: int| #![trigger a2[i], sq_in(p, s)] 0 <= i < a2.len() && sq_in(p, s) implies a2[i].from < s by {
                assert(a2.contains(a2[i]));
                if !added(v, start).contains(a2[i]) {
                    assert(added(out@, v.len() as int).contains(a2[i]));
                } else {
                    let k = choose|k: int| 0 <= k < added(v, start).len() && added(v, start)[k] == a2[i];
                    assert(sq_in(p0, s));
                }
            }
        }
    }
    proof {
        broadcast use group_bitboard;
    }
}

/// The attack set of piece kind `pt` (1 knight .. 4 queen) on `from`.
fn piece_attack_set(board: &Board, atk: &Attacks, pt: usize, from: Square) -> (r: Bitboard)
    requires
        atk.wf(),
        1 <= pt <= 4,
        from < 64,
    ensures
        r == piece_attacks(*board, pt as int, from as int),
{
    if pt == 1 {
        atk.knight[from as usize]
    } else if pt == 2 {
        bishop_attacks(from, board.occ_all)
    } else if pt == 3 {
        rook_attacks(from, board.occ_all)
    } else {
        queen_attacks(from, board.occ_all)
    }
}

/// The moves of every piece of kind `pt` (1 knight .. 4 queen) of the side to move.
fn gen_piece_kind(board: &Board, atk: &Attacks, pt: usize, out: &mut Vec<Move>)
    requires
        board.wf(),
        atk.wf(),
        1 <= pt <= 4,
    ensures
        final(out)@.subrange(0, old(out)@.len() as int) == old(out)@,
        final(out)@.len() >= old(out)@.len(),
        forall|m: Move| #[trigger] added(final(out)@, old(out)@.len() as int).contains(m) <==> (sq_in(
            board.pieces[color_index(board.side)][pt as int],
            m.from as int,
        ) && piece_move_from(*board, pt as int, m)),
        gen_sorted(*board, added(final(out)@, old(out)@.len() as int)),
{
    let ghost start = out@.len() as int;
    let us = board.side;
    let them = us.opp();
    let own = board.occ_color[us.idx()];
    let pieces = board.pieces[us.idx()][pt];
    let mut p = pieces;
    assert(added(out@, start) =~= Seq::<Move>::empty());
    while p != 0
        invariant
            board.wf(),
            atk.wf(),
            1 <= pt <= 4,
            us == board.side,
            them == opposite(us),
            own == board.occ_color[color_index(us)],
            start <= out@.len(),
            start == old(out)@.len(),
            out@.subrange(0, start) == old(out)@,
            pieces == board.pieces[color_index(board.side)][pt as int],
            forall|s: int| #![auto] sq_in(p, s) ==> sq_in(pieces, s),
            forall|m: Move| #[trigger] added(out@, start).contains(m) <==> (sq_in(pieces, m.from as int)
                && !sq_in(p, m.from as int) && piece_move_from(*board, pt as int, m)),
            gen_sorted(*board, added(out@, start)),
            forall|i: int, s: int| #![trigger added(out@, start)[i], sq_in(p, s)] 0 <= i < added(out@, start).len() && sq_in(p, s) ==> added(out@, start)[i].from < s,
        decreases p,
    {
        let ghost v = out@;
        let ghost p0 = p;
        let from = pop_lsb(&mut p);
        let targets = piece_attack_set(board, atk, pt, from) & !own;
        gen_from_attacks(out, from, targets, board, them);
        proof {
            lemma_two_runs(old(out)@, v, out@);
            let mid = pt * 1048576 + from * 4096;
            assert forall|m: Move| #[trigger] added(v, start).contains(m) implies gen_rank(*board, m) < mid by {
                let i = choose|i: int| 0 <= i < added(v, start).len() && added(v, start)[i] == m;
                assert(sq_in(p0, from as int));
                assert(m.from < from);
            }
            assert forall|m: Move| #[trigger] added(out@, v.len() as int).contains(m) implies mid <= gen_rank(*board, m) by {
            }
            lemma_sorted_runs(*board, old(out)@, v, out@, mid);
            let a2 = added(out@, start);
            assert forall|i: int, s: int| #![trigger a2[i], sq_in(p, s)] 0 <= i < a2.len() && sq_in(p, s) implies a2[i].from < s by {
                assert(a2.contains(a2[i]));
                if !added(v, start).contains(a2[i]) {
                    assert(added(out@, v.len() as int).contains(a2[i]));
                } else {
                    let k = choose|k: int| 0 <= k < added(v, start).len() && added(v, start)[k] == a2[i];
                    assert(sq_in(p0, s));
                }
            }
        }
    }
    proof {
        broadcast use group_bitboard;
    }
}

/// The king's moves (from the side to move's lowest king square).
fn gen_king_steps(board: &Board, atk: &Attacks, out: &mut Vec<Move>)
    requires
        board.wf(),
        atk.wf(),
        board.pieces[color_index(board.side)][5] != 0,
    ensures
        final(out)@.subrange(0, old(out)@.len() as int) == old(out)@,
        final(out)@.len() >= old(out)@.len(),
        forall|m: Move| #[trigger] added(final(out)@, old(out)@.len() as int).contains(m) <==> (m.from
            == king_square(*board, board.side) && piece_move_from(*board, 5, m)),
        gen_sorted(*board, added(final(out)@, old(out)@.len() as int)),
{
    let us = board.side;
    let own = board.occ_color[us.idx()];
    let king_sq = board.king_sq(us);
    gen_from_attacks(out, king_sq, atk.king[king_sq as usize] & !own, board, us.opp());
}

/// The castling moves of the side to move.
fn gen_castles(board: &Board, atk: &Attacks, out: &mut Vec<Move>)
    requires
        board.wf(),
        atk.wf(),
        board.pieces[color_index(board.side)][5] != 0,
    ensures
        final(out)@.subrange(0, old(out)@.len() as int) == old(out)@,
        final(out)@.len() >= old(out)@.len(),
        forall|m: Move| #[trigger] added(final(out)@, old(out)@.len() as int).contains(m) <==> castle_move(*board, m),
        gen_sorted(*board, added(final(out)@, old(out)@.len() as int)),
{
    broadcast use group_bitboard;

    let ghost start = out@.len() as int;
    let us = board.side;
    let them = us.opp();
    let occ = board.occ_all;
    assert(added(out@, start) =~= Seq::<Move>::empty());
    if !board.in_check(us, atk) {
        let (ks, qs) = if us == Color::White {
            (CASTLE_WK, CASTLE_WQ)
        } else {
            (CASTLE_BK, CASTLE_BQ)
        };
        let (k1, k2, q1, q2, q3, kfrom, kto, qto): (u8, u8, u8, u8, u8, u8, u8, u8) = if us
            == Color::White {
            (5, 6, 1, 2, 3, 4, 6, 2)
        } else {
            (61, 62, 57, 58, 59, 60, 62, 58)
        };
        let ghost v0 = out@;
        proof {
            lemma_single_and(occ, k1);
            lemma_single_and(occ, k2);
            crate::bitboard::lemma_bits(occ & (1u64 << k1), occ & (1u64 << k2), 0, 0);
        }
        if board.castling & ks != 0 && occ & bb(k1) == 0 && occ & bb(k2) == 0
            && !board.is_square_attacked(k1, them, atk) && !board.is_square_attacked(k2, them, atk) {
            let mv = Move { from: kfrom, to: kto, promotion: None, flag: MoveFlag::CastleKing };
            proof {
                lemma_sorted_push(*board, added(v0, start), mv);
                assert(added(v0.push(mv), start) =~= added(v0, start).push(mv));
            }
            out.push(mv);
            proof {
                lemma_added_push(v0, start, mv);
            }
        }
        let ghost v1 = out@;
        proof {
            lemma_single_and(occ, q1);
            lemma_single_and(occ, q2);
            lemma_single_and(occ, q3);
        }
        if board.castling & qs != 0 && occ & bb(q1) == 0 && occ & bb(q2) == 0 && occ & bb(q3) == 0
            && !board.is_square_attacked(q3, them, atk) && !board.is_square_attacked(q2, them, atk) {
            let mv = Move { from: kfrom, to: qto, promotion: None, flag: MoveFlag::CastleQueen };
            proof {
                let a = added(v1, start);
                assert forall|i: int| 0 <= i < a.len() implies gen_rank(*board, #[trigger] a[i]) < gen_rank(*board, mv) by {
                    assert(a.contains(a[i]));
                }
                lemma_sorted_push(*board, a, mv);
                assert(added(v1.push(mv), start) =~= a.push(mv));
            }
            out.push(mv);
            proof {
                lemma_added_push(v1, start, mv);
                assert(out@.subrange(0, start) =~= v1.subrange(0, start));
            }
        }
        proof {
            assert(out@.subrange(0, start) =~= v0.subrange(0, start));
        }
    }
}

/// Appends every pseudo-legal move of the side to move to `out`: pawns, then
/// knights, bishops, rooks, queens, the king, and castling.
pub fn generate_pseudo_legal(board: &Board, atk: &Attacks, out: &mut Vec<Move>)
    requires
        board.wf(),
        atk.wf(),
        board.pieces[color_index(board.side)][5] != 0,
    ensures
        final(out)@.subrange(0, old(out)@.len() as int) == old(out)@,
        final(out)@.len() >= old(out)@.len(),
        forall|m: Move| #[trigger] added(final(out)@, old(out)@.len() as int).contains(m) <==> pseudo_legal(*board, m),
        gen_sorted(*board, added(final(out)@, old(out)@.len() as int)),
        added(final(out)@, old(out)@.len() as int).no_duplicates(),
{
    let ghost v0 = out@;
    gen_pawns(board, atk, out);
    let ghost v1 = out@;
    gen_piece_kind(board, atk, 1, out);
    let ghost v2 = out@;
    gen_piece_kind(board, atk, 2, out);
    let ghost v3 = out@;
    gen_piece_kind(board, atk, 3, out);
    let ghost v4 = out@;
    gen_piece_kind(board, atk, 4, out);
    let ghost v5 = out@;
    gen_king_steps(board, atk, out);
    let ghost v6 = out@;
    gen_castles(board, atk, out);
    proof {
        let a = v0.len() as int;
        let ci = color_index(board.side);
        crate::bitboard::lemma_lsb(board.pieces[ci][5]);
        assert forall|m: Move| #[trigger] added(v1, a).contains(m) implies gen_rank(*board, m) < 1048576 by {}
        assert forall|m: Move| #[trigger] added(v2, v1.len() as int).contains(m) implies 1048576 <= gen_rank(*board, m) by {}
        lemma_sorted_runs(*board, v0, v1, v2, 1048576);
        lemma_two_runs(v0, v1, v2);
        assert forall|m: Move| #[trigger] added(v2, a).contains(m) implies gen_rank(*board, m) < 2097152 by {}
        assert forall|m: Move| #[trigger] added(v3, v2.len() as int).contains(m) implies 2097152 <= gen_rank(*board, m) by {}
        lemma_sorted_runs(*board, v0, v2, v3, 2097152);
        lemma_two_runs(v0, v2, v3);
        assert forall|m: Move| #[trigger] added(v3, a).contains(m) implies gen_rank(*board, m) < 3145728 by {}
        assert forall|m: Move| #[trigger] added(v4, v3.len() as int).contains(m) implies 3145728 <= gen_rank(*board, m) by {}
        lemma_sorted_runs(*board, v0, v3, v4, 3145728);
        lemma_two_runs(v0, v3, v4);
        assert forall|m: Move| #[trigger] added(v4, a).contains(m) implies gen_rank(*board, m) < 4194304 by {}
        assert forall|m: Move| #[trigger] added(v5, v4.len() as int).contains(m) implies 4194304 <= gen_rank(*board, m) by {}
        lemma_sorted_runs(*board, v0, v4, v5, 4194304);
        lemma_two_runs(v0, v4, v5);
        assert forall|m: Move| #[trigger] added(v5, a).contains(m) implies gen_rank(*board, m) < 5242880 by {}
        assert forall|m: Move| #[trigger] added(v6, v5.len() as int).contains(m) implies 5242880 <= gen_rank(*board, m) by {}
        lemma_sorted_runs(*board, v0, v5, v6, 5242880);
        lemma_two_runs(v0, v5, v6);
        assert forall|m: Move| #[trigger] added(v6, a).contains(m) implies gen_rank(*board, m) < 6291456 by {}
        assert forall|m: Move| #[trigger] added(out@, v6.len() as int).contains(m) implies 6291456 <= gen_rank(*board, m) by {}
        lemma_sorted_runs(*board, v0, v6, out@, 6291456);
        lemma_two_runs(v0, v6, out@);
        lemma_sorted_no_dup(*board, added(out@, a));
    }
}

/// What a position must satisfy for every pseudo-legal move in it to be one
/// `make_move` can apply: castling rights only with king and rook at home, an
/// en passant square only behind a pawn that just made a double step, clocks
/// and depth short of their limits.
pub open spec fn position_ok(b: Board) -> bool {
    let mb = b.mailbox;
    &&& b.castling & CASTLE_WK != 0 ==> mb[4] == Some((PieceType::King, Color::White)) && mb[7] == Some(
        (PieceType::Rook, Color::White),
    )
    &&& b.castling & CASTLE_WQ != 0 ==> mb[4] == Some((PieceType::King, Color::White)) && mb[0] == Some(
        (PieceType::Rook, Color::White),
    )
    &&& b.castling & CASTLE_BK != 0 ==> mb[60] == Some((PieceType::King, Color::Black)) && mb[63] == Some(
        (PieceType::Rook, Color::Black),
    )
    &&& b.castling & CASTLE_BQ != 0 ==> mb[60] == Some((PieceType::King, Color::Black)) && mb[56] == Some(
        (PieceType::Rook, Color::Black),
    )
    &&& b.ep_square != NO_SQUARE ==> {
        let e = b.ep_square as int;
        &&& mb[e] is None
        &&& b.side == Color::White ==> 40 <= e < 48 && mb[e - 8] == Some((PieceType::Pawn, Color::Black))
        &&& b.side == Color::Black ==> 16 <= e < 24 && mb[e + 8] == Some((PieceType::Pawn, Color::White))
    }
    &&& b.halfmove < u32::MAX
    &&& b.fullmove < u32::MAX
    &&& b.prof_acc < usize::MAX
}

/// The square's content is a piece of kind `p` and colour `c`.
fn holds(x: Option<(PieceType, Color)>, p: PieceType, c: Color) -> (r: bool)
    ensures
        r == (x == Some((p, c))),
{
    match x {
        Some((pp, cc)) => pp == p && cc == c,
        None => false,
    }
}

/// Whether a position is one `generate_legal` takes.
pub fn position_ok_check(b: &Board) -> (r: bool)
    requires
        b.ep_square <= 64,
    ensures
        r == position_ok(*b),
{
    let mb = &b.mailbox;
    if b.castling & CASTLE_WK != 0 && !(holds(mb[4], PieceType::King, Color::White) && holds(mb[7], PieceType::Rook, Color::White)) {
        return false;
    }
    if b.castling & CASTLE_WQ != 0 && !(holds(mb[4], PieceType::King, Color::White) && holds(mb[0], PieceType::Rook, Color::White)) {
        return false;
    }
    if b.castling & CASTLE_BK != 0 && !(holds(mb[60], PieceType::King, Color::Black) && holds(mb[63], PieceType::Rook, Color::Black)) {
        return false;
    }
    if b.castling & CASTLE_BQ != 0 && !(holds(mb[60], PieceType::King, Color::Black) && holds(mb[56], PieceType::Rook, Color::Black)) {
        return false;
    }
    if b.ep_square != NO_SQUARE {
        let e = b.ep_square as usize;
        if mb[e].is_some() {
            return false;
        }
        if b.side == Color::White {
            if !(40 <= e && e < 48 && holds(mb[e - 8], PieceType::Pawn, Color::Black)) {
                return false;
            }
        } else {
            if !(16 <= e && e < 24 && holds(mb[e + 8], PieceType::Pawn, Color::White)) {
                return false;
            }
        }
    }
    b.halfmove < u32::MAX && b.fullmove < u32::MAX && b.prof_acc < usize::MAX
}

/// A legal move: pseudo-legal, and the mover's king is not attacked afterwards.
pub open spec fn legal(b: Board, m: Move) -> bool {
    &&& pseudo_legal(b, m)
    &&& forall|b1: Board, u: Undo| #[trigger] made(b, m, b1, u) ==> !attacked_by(
        b1,
        king_square(b1, b.side),
        opposite(b.side),
    )
}

proof fn lemma_bit_on_square(b: Board, c: int, p: int, s: int)
    requires
        pieces_consistent(b),
        0 <= c < 2,
        0 <= p < 6,
        0 <= s < 64,
        sq_in(b.pieces[c][p], s),
    ensures
        b.mailbox[s] == Some((piece_of_index(p), color_of_index(c))),
{
}

/// Every pseudo-legal move of a sound position is one `make_move` applies.
pub proof fn lemma_pseudo_move_ok(b: Board, m: Move)
    requires
        b.wf(),
        position_ok(b),
        pseudo_legal(b, m),
        b.pieces[color_index(b.side)][5] != 0,
    ensures
        move_ok(b, m),
{
    broadcast use group_bitboard;

    let ci = color_index(b.side);
    let us = b.side;
    let own = b.occ_color[ci];
    if m.from < 64 {
        crate::bitboard::lemma_masks(m.from as u64);
    }
    if sq_in(b.pieces[ci][0], m.from as int) && pawn_move_from(b, m) {
        lemma_bit_on_square(b, ci, 0, m.from as int);
        if m.flag == MoveFlag::EnPassant {
            assert(sq_in(pawn_spec(m.from as int, us), b.ep_square as int));
        }
        if pawn_capture_part(b, m) {
            assert(sq_in(b.occ_color[color_index(opposite(us))], m.to as int));
        }
    } else if m.from == king_square(b, b.side) && piece_move_from(b, 5, m) {
        crate::bitboard::lemma_lsb(b.pieces[ci][5]);
        lemma_bit_on_square(b, ci, 5, m.from as int);
        assert(!sq_in(own, m.to as int));
    } else if castle_move(b, m) {
    } else {
        let p = if sq_in(b.pieces[ci][1], m.from as int) && piece_move_from(b, 1, m) {
            1
        } else if sq_in(b.pieces[ci][2], m.from as int) && piece_move_from(b, 2, m) {
            2
        } else if sq_in(b.pieces[ci][3], m.from as int) && piece_move_from(b, 3, m) {
            3
        } else {
            4
        };
        lemma_bit_on_square(b, ci, p, m.from as int);
        assert(!sq_in(own, m.to as int));
    }
}

/// After a move the mover still has a king.
pub proof fn lemma_king_survives(b: Board, m: Move, b1: Board, u: Undo)
    requires
        b.wf(),
        move_ok(b, m),
        made(b, m, b1, u),
        b.pieces[color_index(b.side)][5] != 0,
        m.to != king_square(b, b.side) || moving_is_king(b, m),
        m.flag == MoveFlag::EnPassant ==> ep_capture_sq(b.side, m.to as int) != king_square(b, b.side),
    ensures
        b1.pieces[color_index(b.side)][5] != 0,
{
    broadcast use group_bitboard;

    let ci = color_index(b.side);
    let k = king_square(b, b.side);
    crate::bitboard::lemma_lsb(b.pieces[ci][5]);
    lemma_bit_on_square(b, ci, 5, k);
    let mb = mailbox_after(b, m);
    let sq = if moving_is_king(b, m) {
        m.to as int
    } else {
        k
    };
    assert(b1.mailbox[sq] == mb[sq]);
    assert(mb[sq] == Some((PieceType::King, b.side)));
    assert(sq_in(b1.pieces[ci][5], sq));
}

pub open spec fn moving_is_king(b: Board, m: Move) -> bool {
    b.mailbox[m.from as int] matches Some((p, _)) && p == PieceType::King
}

proof fn lemma_filter_sorted(b: Board, s: Seq<Move>, pred: spec_fn(Move) -> bool)
    requires
        gen_sorted(b, s),
    ensures
        gen_sorted(b, s.filter(pred)),
    decreases s.len(),
{
    reveal(Seq::filter);
    if s.len() > 0 {
        let d = s.drop_last();
        assert forall|i: int, j: int| #![trigger d[i], d[j]] 0 <= i < j < d.len() implies gen_rank(b, d[i]) < gen_rank(b, d[j]) by {
            assert(d[i] == s[i] && d[j] == s[j]);
        }
        lemma_filter_sorted(b, d, pred);
        if pred(s.last()) {
            let f = d.filter(pred);
            assert forall|i: int| 0 <= i < f.len() implies gen_rank(b, #[trigger] f[i]) < gen_rank(b, s.last()) by {
                assert(f.contains(f[i]));
                d.lemma_filter_contains_rev(pred, f[i]);
                let k = choose|k: int| 0 <= k < d.len() && d[k] == f[i];
                assert(s[k] == f[i]);
                assert(s[s.len() - 1] == s.last());
            }
            lemma_sorted_push(b, f, s.last());
        }
    }
}

/// The legal moves in generator order are the pseudo-legal ones in generator
/// order, with those that leave the king attacked taken out.
pub proof fn lemma_legal_is_filtered_pseudo(b: Board, pseudo: Seq<Move>, legal_list: Seq<Move>)
    requires
        gen_sorted(b, pseudo),
        gen_sorted(b, legal_list),
        forall|m: Move| #[trigger] pseudo.contains(m) <==> pseudo_legal(b, m),
        forall|m: Move| #[trigger] legal_list.contains(m) <==> legal(b, m),
    ensures
        legal_list == pseudo.filter(|m: Move| legal(b, m)),
{
    let pred = |m: Move| legal(b, m);
    let f = pseudo.filter(pred);
    lemma_filter_sorted(b, pseudo, pred);
    assert forall|m: Move| legal_list.contains(m) <==> f.contains(m) by {
        if legal_list.contains(m) {
            assert(pseudo.contains(m));
            let i = choose|i: int| 0 <= i < pseudo.len() && pseudo[i] == m;
            pseudo.lemma_filter_contains(pred, i);
        }
        if f.contains(m) {
            let i = choose|i: int| 0 <= i < f.len() && f[i] == m;
            pseudo.lemma_filter_pred(pred, i);
        }
    }
    lemma_sorted_unique(b, legal_list, f);
}

/// The legal moves: each pseudo-legal move is made, the mover's king tested,
/// and the move taken back. The board comes back as it went in.
pub fn generate_legal(board: &mut Board, atk: &Attacks) -> (legal_moves: Vec<Move>)
    requires
        old(board).wf(),
        atk.wf(),
        position_ok(*old(board)),
        old(board).pieces[color_index(old(board).side)][5] != 0,
    ensures
        *final(board) == *old(board),
        forall|m: Move| #[trigger] legal_moves@.contains(m) <==> legal(*old(board), m),
        gen_sorted(*old(board), legal_moves@),
        legal_moves@.no_duplicates(),
{
    let mut pseudo: Vec<Move> = Vec::new();
    generate_pseudo_legal(board, atk, &mut pseudo);
    proof {
        assert(added(pseudo@, 0) =~= pseudo@);
    }
    let mut legal_moves: Vec<Move> = Vec::new();
    let n = pseudo.len();
    let mut i: usize = 0;
    while i < n
        invariant
            *board == *old(board),
            board.wf(),
            atk.wf(),
            position_ok(*board),
            board.pieces[color_index(board.side)][5] != 0,
            n == pseudo@.len(),
            i <= n,
            forall|m: Move| #[trigger] pseudo@.contains(m) <==> pseudo_legal(*board, m),
            forall|m: Move| #[trigger] legal_moves@.contains(m) <==> (pseudo@.subrange(0, i as int).contains(m) && legal(*board, m)),
            gen_sorted(*board, pseudo@),
            gen_sorted(*board, legal_moves@),
        decreases n - i,
    {
        let mv = pseudo[i];
        let ghost b0 = *board;
        proof {
            assert(pseudo@.contains(mv)) by {
                assert(pseudo@[i as int] == mv);
            }
            lemma_pseudo_move_ok(b0, mv);
        }
        let us = board.side;
        let undo = board.make_move(&mv);
        let ghost b1 = *board;
        proof {
            lemma_king_safe_target(b0, mv);
            lemma_king_survives(b0, mv, b1, undo);
            lemma_made_can_unmake(b0, mv, b1, undo);
        }
        let illegal = board.in_check(us, atk);
        board.unmake_move(&mv, &undo);
        proof {
            lemma_unmake_undoes_make(b0, mv, b1, undo, *board);
            lemma_made_unique(b0, mv, b1, undo);
        }
        let ghost lm = legal_moves@;
        if !illegal {
            proof {
                assert forall|k: int| 0 <= k < lm.len() implies gen_rank(*board, #[trigger] lm[k]) < gen_rank(*board, mv) by {
                    assert(lm.contains(lm[k]));
                    let j = choose|j: int| 0 <= j < i && pseudo@.subrange(0, i as int)[j] == lm[k];
                    assert(pseudo@[j] == lm[k]);
                    assert(pseudo@[i as int] == mv);
                }
                lemma_sorted_push(*board, lm, mv);
            }
            legal_moves.push(mv);
            proof {
                lemma_push_contains(lm, mv);
            }
        }
        proof {
            assert forall|m: Move| #[trigger] legal_moves@.contains(m) <==> (pseudo@.subrange(0, i + 1).contains(m)
                && legal(*board, m)) by {
                assert(pseudo@.subrange(0, i + 1) =~= pseudo@.subrange(0, i as int).push(mv));
                lemma_push_contains(pseudo@.subrange(0, i as int), mv);
            }
        }
        i = i + 1;
    }
    proof {
        assert(pseudo@.subrange(0, n as int) =~= pseudo@);
        lemma_sorted_no_dup(*board, legal_moves@);
    }
    legal_moves
}

/// A pseudo-legal move never lands on the mover's own king, nor takes it en passant.
proof fn lemma_king_safe_target(b: Board, m: Move)
    requires
        b.wf(),
        position_ok(b),
        pseudo_legal(b, m),
        b.pieces[color_index(b.side)][5] != 0,
    ensures
        m.to != king_square(b, b.side) || moving_is_king(b, m),
        m.flag == MoveFlag::EnPassant ==> ep_capture_sq(b.side, m.to as int) != king_square(b, b.side),
{
    broadcast use group_bitboard;

    let ci = color_index(b.side);
    let k = king_square(b, b.side);
    crate::bitboard::lemma_lsb(b.pieces[ci][5]);
    lemma_bit_on_square(b, ci, 5, k);
    assert(sq_in(b.occ_color[ci], k));
    lemma_pseudo_move_ok(b, m);
    if m.flag == MoveFlag::EnPassant {
        assert(b.mailbox[ep_capture_sq(b.side, m.to as int)] == Some((PieceType::Pawn, opposite(b.side))));
    }
    if m.to == k && !moving_is_king(b, m) {
        if castle_move(b, m) {
            assert(b.mailbox[m.to as int] is None);
        } else if m.flag == MoveFlag::EnPassant {
        } else if sq_in(b.pieces[ci][0], m.from as int) && pawn_move_from(b, m) {
            if pawn_capture_part(b, m) {
                assert(sq_in(b.occ_color[color_index(opposite(b.side))], m.to as int));
            } else {
                assert(sq_in(b.occ_all, m.to as int));
            }
        } else {
            assert(!sq_in(b.occ_color[ci], m.to as int));
        }
    }
}

/// The position after a move is determined by the move.
pub proof fn lemma_made_unique(b0: Board, mv: Move, b1: Board, u: Undo)
    requires
        made(b0, mv, b1, u),
    ensures
        forall|b2: Board, u2: Undo| #[trigger] made(b0, mv, b2, u2) ==> b2 == b1,
{
    assert forall|b2: Board, u2: Undo| #[trigger] made(b0, mv, b2, u2) implies b2 == b1 by {
        assert(b2.mailbox@ == b1.mailbox@);
        crate::board::lemma_same_mailbox_same_bitboards(b2, b1);
    }
}
} // verus!
