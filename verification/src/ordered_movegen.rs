//! Move generation with a fixed, deliberate order.
//!
//! Pawn pushes, then double pushes, then captures to the left, then to the
//! right, then en passant, then promotions (queen, knight, rook, bishop);
//! knights, bishops, rooks, queens; then the king, then castling. Pieces are
//! walked from the lowest square upward and their targets likewise. A move of
//! a pinned piece that leaves its pin is removed by overwriting its slot with
//! the last move.
use vstd::prelude::*;
use crate::attacks::{between_spec, bishop_spec, king_spec, knight_spec, pawn_spec, rook_spec, Attacks};
use crate::bitboard::{bb, lsb, pop_lsb, sq_in, Bitboard, FILE_A, FILE_H, RANK_1, RANK_2, RANK_3, RANK_6, RANK_7};
use crate::board::{Board, CASTLE_BK, CASTLE_BQ, CASTLE_WK, CASTLE_WQ};
use crate::movegen::{added, lemma_added_push, lemma_added_split, lemma_single_and};
use crate::moves::{Move, MoveFlag};
use crate::types::{color_index, opposite, Color, PieceType, Square, NO_SQUARE};

verus! {

pub const GEN_LEGAL: u8 = 0;
pub const GEN_CAPTURES: u8 = 1;
pub const GEN_QUIETS: u8 = 2;

/// More than one square in the set.
pub open spec fn more_than_one_spec(x: u64) -> bool {
    x & x.wrapping_sub(1) != 0
}

fn more_than_one(x: Bitboard) -> (r: bool)
    ensures
        r == more_than_one_spec(x),
{
    x & x.wrapping_sub(1) != 0
}

/// Everything of `by`'s that attacks `s` under the occupancy `occ`.
pub open spec fn attackers_spec(b: Board, s: int, occ: u64, by: Color) -> u64 {
    let p = b.pieces[color_index(by)];
    (pawn_spec(s, opposite(by)) & p[0]) | (knight_spec(s) & p[1]) | (bishop_spec(s, occ) & (p[2] | p[4])) | (
    rook_spec(s, occ) & (p[3] | p[4])) | (king_spec(s) & p[5])
}

/// Everything of `by`'s that attacks `square`, given an occupancy that may not
/// be the board's.
pub fn attackers(board: &Board, atk: &Attacks, square: Square, occ: Bitboard, by: Color) -> (r: Bitboard)
    requires
        atk.wf(),
        square < 64,
    ensures
        r == attackers_spec(*board, square as int, occ, by),
{
    let p = &board.pieces[by.idx()];
    let pawns_from = atk.pawn[by.opp().idx()][square as usize];
    assert(pawns_from == pawn_spec(square as int, opposite(by))) by {
        if by == Color::White {
        } else {
        }
    }
    (pawns_from & p[0]) | (atk.knight[square as usize] & p[1]) | (crate::attacks::bishop_attacks(square, occ) & (
    p[2] | p[4])) | (crate::attacks::rook_attacks(square, occ) & (p[3] | p[4])) | (atk.king[square as usize]
        & p[5])
}

/// A bitboard is nonzero exactly when some square is in it.
pub proof fn lemma_nonzero_has_square(x: u64)
    ensures
        x != 0 <==> exists|t: int| #[trigger] sq_in(x, t),
{
    broadcast use crate::bitboard::group_bitboard;
    if x != 0 {
        crate::bitboard::lemma_lsb(x);
        assert(sq_in(x, lsb(x)));
    }
}

/// The attackers of a square, under the board's own occupancy, are pieces of
/// the attacking side, and there are some exactly when the square is attacked.
pub proof fn lemma_attackers_attacked(b: Board, s: int, by: Color)
    requires
        b.wf(),
        0 <= s < 64,
    ensures
        (attackers_spec(b, s, b.occ_all, by) != 0) == crate::board::attacked_by(b, s, by),
        attackers_spec(b, s, b.occ_all, by) & !b.occ_color[color_index(by)] == 0,
{
    broadcast use crate::bitboard::group_bitboard;
    let p = b.pieces[color_index(by)];
    let a = attackers_spec(b, s, b.occ_all, by);
    let pa = pawn_spec(s, opposite(by)) & p[0];
    let na = knight_spec(s) & p[1];
    let ba = bishop_spec(s, b.occ_all) & (p[2] | p[4]);
    let ra = rook_spec(s, b.occ_all) & (p[3] | p[4]);
    let ka = king_spec(s) & p[5];
    lemma_nonzero_has_square(a);
    lemma_nonzero_has_square(pa);
    lemma_nonzero_has_square(na);
    lemma_nonzero_has_square(ba);
    lemma_nonzero_has_square(ra);
    lemma_nonzero_has_square(ka);
    if a != 0 {
        let t = choose|t: int| sq_in(a, t);
        assert(sq_in(pa, t) || sq_in(na, t) || sq_in(ba, t) || sq_in(ra, t) || sq_in(ka, t));
    }
    if pa != 0 {
        let t = choose|t: int| sq_in(pa, t);
        assert(sq_in(a, t));
    }
    if na != 0 {
        let t = choose|t: int| sq_in(na, t);
        assert(sq_in(a, t));
    }
    if ba != 0 {
        let t = choose|t: int| sq_in(ba, t);
        assert(sq_in(a, t));
    }
    if ra != 0 {
        let t = choose|t: int| sq_in(ra, t);
        assert(sq_in(a, t));
    }
    if ka != 0 {
        let t = choose|t: int| sq_in(ka, t);
        assert(sq_in(a, t));
    }
    let own = b.occ_color[color_index(by)];
    let rest = a & !own;
    assert forall|t: int| 0 <= t < 64 implies sq_in(rest, t) == sq_in(0u64, t) by {
        if sq_in(a, t) {
            assert(b.mailbox[t] is Some);
            assert(sq_in(own, t));
        }
    }
    crate::bitboard::lemma_bits_equal(rest, 0u64);
}

/// The square of `c`'s king.
pub open spec fn king_at(b: Board, c: Color) -> int {
    lsb(b.pieces[color_index(c)][5])
}

/// Everything of theirs that attacks the king of `us`.
pub fn checkers(board: &Board, atk: &Attacks, us: Color) -> (r: Bitboard)
    requires
        atk.wf(),
        board.pieces[color_index(us)][5] != 0,
    ensures
        r == attackers_spec(*board, king_at(*board, us), board.occ_all, opposite(us)),
{
    let k = board.king_sq(us);
    proof {
        crate::bitboard::lemma_lsb(board.pieces[color_index(us)][5]);
    }
    attackers(board, atk, k, board.occ_all, us.opp())
}

/// The enemy sliders that would reach `square` on an empty board.
pub open spec fn pin_candidates(b: Board, square: int, us: Color) -> u64 {
    let t = b.pieces[color_index(opposite(us))];
    (bishop_spec(square, 0) & (t[2] | t[4])) | (rook_spec(square, 0) & (t[3] | t[4]))
}

/// What stands between `square` and the candidate `c`, the candidates themselves
/// taken off the occupancy.
pub open spec fn pin_between(b: Board, square: int, occ: u64, us: Color, c: int) -> u64 {
    between_spec(square, c) & (occ ^ pin_candidates(b, square, us))
}

/// The candidate `c` pins exactly one piece against `square`.
pub open spec fn pins_one(b: Board, square: int, occ: u64, us: Color, c: int) -> bool {
    sq_in(pin_candidates(b, square, us), c) && pin_between(b, square, occ, us, c) != 0 && !more_than_one_spec(
        pin_between(b, square, occ, us, c),
    )
}

/// The pieces pinned against `square` and the pinners, as found by `pins`.
pub open spec fn pins_ok(b: Board, square: int, occ: u64, us: Color, pinned: u64, pinners: u64) -> bool {
    &&& forall|t: int|
        #[trigger] sq_in(pinned, t) <==> exists|c: int|
            #[trigger] pins_one(b, square, occ, us, c) && sq_in(pin_between(b, square, occ, us, c), t)
    &&& forall|c: int| #[trigger] sq_in(pinners, c) <==> pins_one(b, square, occ, us, c)
}

/// Pieces of ours pinned against `square`, and the pieces doing the pinning.
fn pins(board: &Board, atk: &Attacks, square: Square, occ: Bitboard, us: Color) -> (r: (Bitboard, Bitboard))
    requires
        atk.wf(),
        square < 64,
    ensures
        pins_ok(*board, square as int, occ, us, r.0, r.1),
{
    broadcast use crate::bitboard::group_bitboard;

    let them = us.opp();
    let bishops = board.pieces[them.idx()][PieceType::Bishop.idx()] | board.pieces[them.idx()][PieceType::Queen.idx()];
    let rooks = board.pieces[them.idx()][PieceType::Rook.idx()] | board.pieces[them.idx()][PieceType::Queen.idx()];
    let all_candidates = (crate::attacks::bishop_attacks(square, 0) & bishops) | (crate::attacks::rook_attacks(
        square,
        0,
    ) & rooks);
    let mut candidates = all_candidates;
    let occ_excl = occ ^ candidates;
    let mut pinned: u64 = 0;
    let mut pinners: u64 = 0;
    while candidates != 0
        invariant
            atk.wf(),
            square < 64,
            all_candidates == pin_candidates(*board, square as int, us),
            occ_excl == occ ^ all_candidates,
            forall|s: int| #[trigger] sq_in(candidates, s) ==> sq_in(all_candidates, s),
            forall|t: int|
                #[trigger] sq_in(pinned, t) <==> exists|c: int|
                    #[trigger] pins_one(*board, square as int, occ, us, c) && !sq_in(candidates, c) && sq_in(
                        pin_between(*board, square as int, occ, us, c),
                        t,
                    ),
            forall|c: int| #[trigger] sq_in(pinners, c) <==> (pins_one(*board, square as int, occ, us, c) && !sq_in(
                candidates,
                c,
            )),
        decreases candidates,
    {
        let ghost prev = candidates;
        let ghost old_pinned = pinned;
        let ghost old_pinners = pinners;
        let pinner = pop_lsb(&mut candidates);
        let between = atk.between[square as usize][pinner as usize] & occ_excl;
        assert(between == pin_between(*board, square as int, occ, us, pinner as int));
        assert(sq_in(all_candidates, pinner as int));
        let pin_here = between != 0 && !more_than_one(between);
        assert(pin_here == pins_one(*board, square as int, occ, us, pinner as int));
        let bit = bb(pinner);
        if pin_here {
            pinned = pinned | between;
            pinners = pinners | bit;
        }
        assert forall|t: int| #[trigger] sq_in(pinned, t) <==> (sq_in(old_pinned, t) || (pin_here && sq_in(between, t))) by {
            crate::bitboard::lemma_sq_in_or(old_pinned, between, t);
        }
        assert forall|c: int| #[trigger] sq_in(pinners, c) <==> (sq_in(old_pinners, c) || (pin_here && c == pinner)) by {
            crate::bitboard::lemma_sq_in_or(old_pinners, bit, c);
        }
        assert forall|t: int|
            #[trigger] sq_in(pinned, t) <==> exists|c: int|
                #[trigger] pins_one(*board, square as int, occ, us, c) && !sq_in(candidates, c) && sq_in(
                    pin_between(*board, square as int, occ, us, c),
                    t,
                ) by {
            if exists|c: int|
                #[trigger] pins_one(*board, square as int, occ, us, c) && !sq_in(candidates, c) && sq_in(
                    pin_between(*board, square as int, occ, us, c),
                    t,
                ) {
                let c = choose|c: int|
                    #[trigger] pins_one(*board, square as int, occ, us, c) && !sq_in(candidates, c) && sq_in(
                        pin_between(*board, square as int, occ, us, c),
                        t,
                    );
                if c != pinner {
                    assert(!sq_in(prev, c));
                }
            }
            if sq_in(old_pinned, t) {
                let c = choose|c: int|
                    #[trigger] pins_one(*board, square as int, occ, us, c) && !sq_in(prev, c) && sq_in(
                        pin_between(*board, square as int, occ, us, c),
                        t,
                    );
                assert(!sq_in(candidates, c));
            }
        }
        assert forall|c: int| #[trigger] sq_in(pinners, c) <==> (pins_one(*board, square as int, occ, us, c) && !sq_in(
            candidates,
            c,
        )) by {
            if c != pinner {
                assert(sq_in(candidates, c) <==> sq_in(prev, c));
            }
        }
    }
    (pinned, pinners)
}

/// Some pinner in `pinners` has both `from` and `to` on its line to the king
/// (the pinner's own square included).
pub open spec fn pinned_move_ok_spec(pinners: u64, from: int, to: int, king: int) -> bool {
    exists|p: int|
        #[trigger] sq_in(pinners, p) && sq_in(between_spec(p, king) | (1u64 << (p as u64)), from) && sq_in(
            between_spec(p, king) | (1u64 << (p as u64)),
            to,
        )
}

/// May a pinned piece go there: only along the pin, or onto the pinner.
fn pinned_move_ok(atk: &Attacks, from: Square, to: Square, pinners: Bitboard, king: Square) -> (r: bool)
    requires
        atk.wf(),
        from < 64,
        to < 64,
        king < 64,
    ensures
        r == pinned_move_ok_spec(pinners, from as int, to as int, king as int),
{
    let mut rest = pinners;
    while rest != 0
        invariant
            atk.wf(),
            from < 64,
            to < 64,
            king < 64,
            forall|s: int| #[trigger] sq_in(rest, s) ==> sq_in(pinners, s),
            forall|p: int|
                #[trigger] sq_in(pinners, p) && !sq_in(rest, p) ==> !(sq_in(
                    between_spec(p, king as int) | (1u64 << (p as u64)),
                    from as int,
                ) && sq_in(between_spec(p, king as int) | (1u64 << (p as u64)), to as int)),
        decreases rest,
    {
        let ghost prev = rest;
        let pinner = pop_lsb(&mut rest);
        let legals = atk.between[pinner as usize][king as usize] | bb(pinner);
        proof {
            lemma_single_and(legals, from);
            lemma_single_and(legals, to);
        }
        if legals & bb(from) != 0 && legals & bb(to) != 0 {
            return true;
        }
        assert forall|p: int|
            #[trigger] sq_in(pinners, p) && !sq_in(rest, p) implies !(sq_in(
                between_spec(p, king as int) | (1u64 << (p as u64)),
                from as int,
            ) && sq_in(between_spec(p, king as int) | (1u64 << (p as u64)), to as int)) by {
            if p != pinner {
                assert(!sq_in(prev, p));
            }
        }
    }
    proof {
        assert forall|p: int| #[trigger] sq_in(pinners, p) implies !(sq_in(
            between_spec(p, king as int) | (1u64 << (p as u64)),
            from as int,
        ) && sq_in(between_spec(p, king as int) | (1u64 << (p as u64)), to as int)) by {
            crate::bitboard::lemma_sq_in_zero(p);
        }
    }
    false
}

/// The move to `to` from `d` squares back, no promotion.
pub open spec fn target_move(to: int, d: int, flag: MoveFlag) -> Move {
    Move { from: (to - d) as u8, to: to as u8, promotion: None, flag }
}

/// What `f` gives for each square of `set` below `n`, lowest square first.
pub open spec fn scan(set: u64, f: spec_fn(int) -> Seq<Move>, n: int) -> Seq<Move>
    decreases n,
{
    if n <= 0 {
        seq![]
    } else {
        scan(set, f, n - 1) + if sq_in(set, n - 1) {
            f(n - 1)
        } else {
            seq![]
        }
    }
}

/// No square of `set` in `lo..hi`: the scan does not grow.
pub proof fn lemma_scan_gap(set: u64, f: spec_fn(int) -> Seq<Move>, lo: int, hi: int)
    requires
        0 <= lo <= hi,
        forall|q: int| lo <= q < hi ==> !#[trigger] sq_in(set, q),
    ensures
        scan(set, f, hi) == scan(set, f, lo),
    decreases hi - lo,
{
    if lo < hi {
        lemma_scan_gap(set, f, lo, hi - 1);
        assert(!sq_in(set, hi - 1));
        assert(scan(set, f, hi) =~= scan(set, f, hi - 1));
    }
}

/// The scan of a loop that takes the squares of `set` lowest first: having
/// taken every square below `next`, it takes `s`, the lowest square left.
pub proof fn lemma_scan_next(set: u64, f: spec_fn(int) -> Seq<Move>, next: int, s: int, rest: u64)
    requires
        0 <= next <= s < 64,
        sq_in(set, s),
        forall|q: int| #[trigger] sq_in(rest, q) <==> (sq_in(set, q) && q >= next),
        forall|q: int| 0 <= q < s ==> !#[trigger] sq_in(rest, q),
    ensures
        scan(set, f, s + 1) == scan(set, f, next) + f(s),
{
    assert forall|q: int| next <= q < s implies !#[trigger] sq_in(set, q) by {
        assert(!sq_in(rest, q));
    }
    lemma_scan_gap(set, f, next, s);
}

/// A loop that took every square of `set` from `next` on has scanned it all.
pub proof fn lemma_scan_done(set: u64, f: spec_fn(int) -> Seq<Move>, next: int)
    requires
        0 <= next <= 64,
        forall|q: int| next <= q < 64 ==> !#[trigger] sq_in(set, q),
    ensures
        scan(set, f, 64) == scan(set, f, next),
{
    lemma_scan_gap(set, f, next, 64);
}

/// The move onto `t` from `d` squares back, alone.
pub open spec fn target_fn(d: int, flag: MoveFlag) -> spec_fn(int) -> Seq<Move> {
    |t: int| seq![target_move(t, d, flag)]
}

/// A promotion from `to - d` to `to`, a capture or not.
pub open spec fn promo_move(m: Move, d: int, capture: bool) -> bool {
    &&& m.from == m.to - d
    &&& crate::movegen::is_promotion_piece(m.promotion)
    &&& m.flag == (if capture {
        MoveFlag::Capture
    } else {
        MoveFlag::Quiet
    })
}

/// The four promotions from `from` to `to`: queen, knight, rook, bishop.
pub open spec fn promo4(from: int, to: int, capture: bool) -> Seq<Move> {
    let flag = if capture {
        MoveFlag::Capture
    } else {
        MoveFlag::Quiet
    };
    seq![
        Move { from: from as u8, to: to as u8, promotion: Some(PieceType::Queen), flag },
        Move { from: from as u8, to: to as u8, promotion: Some(PieceType::Knight), flag },
        Move { from: from as u8, to: to as u8, promotion: Some(PieceType::Rook), flag },
        Move { from: from as u8, to: to as u8, promotion: Some(PieceType::Bishop), flag },
    ]
}

/// The promotions onto `t` from `d` squares back.
pub open spec fn promo_fn(d: int, capture: bool) -> spec_fn(int) -> Seq<Move> {
    |t: int| promo4(t - d, t, capture)
}

/// Queen, knight, rook, bishop, in that order.
fn promo(from: Square, to: Square, capture: bool, list: &mut Vec<Move>)
    ensures
        final(list)@ == old(list)@ + promo4(from as int, to as int, capture),
        final(list)@.subrange(0, old(list)@.len() as int) == old(list)@,
        final(list)@.len() == old(list)@.len() + 4,
        forall|m: Move| #[trigger] added(final(list)@, old(list)@.len() as int).contains(m) <==> (m.from == from
            && m.to == to && crate::movegen::is_promotion_piece(m.promotion) && m.flag == (if capture {
            MoveFlag::Capture
        } else {
            MoveFlag::Quiet
        })),
{
    let ghost start = list@.len() as int;
    let flag = if capture {
        MoveFlag::Capture
    } else {
        MoveFlag::Quiet
    };
    list.push(Move { from, to, promotion: Some(PieceType::Queen), flag });
    list.push(Move { from, to, promotion: Some(PieceType::Knight), flag });
    list.push(Move { from, to, promotion: Some(PieceType::Rook), flag });
    list.push(Move { from, to, promotion: Some(PieceType::Bishop), flag });
    proof {
        let a = added(list@, start);
        assert(a.len() == 4);
        assert(a[0] == Move { from, to, promotion: Some(PieceType::Queen), flag });
        assert(a[1] == Move { from, to, promotion: Some(PieceType::Knight), flag });
        assert(a[2] == Move { from, to, promotion: Some(PieceType::Rook), flag });
        assert(a[3] == Move { from, to, promotion: Some(PieceType::Bishop), flag });
        assert forall|m: Move| #[trigger] a.contains(m) <==> (m.from == from && m.to == to
            && crate::movegen::is_promotion_piece(m.promotion) && m.flag == flag) by {
            if m.from == from && m.to == to && crate::movegen::is_promotion_piece(m.promotion) && m.flag == flag {
                if m.promotion == Some(PieceType::Queen) {
                    assert(a[0] == m);
                } else if m.promotion == Some(PieceType::Knight) {
                    assert(a[1] == m);
                } else if m.promotion == Some(PieceType::Rook) {
                    assert(a[2] == m);
                } else {
                    assert(a[3] == m);
                }
            }
        }
        assert(list@.subrange(0, start) =~= old(list)@);
    }
}

/// One move per target square, from `d` squares back.
fn emit_targets(list: &mut Vec<Move>, targets: Bitboard, d: i32, flag: MoveFlag)
    requires
        -16 <= d <= 16,
        forall|t: int| #[trigger] sq_in(targets, t) ==> 0 <= t - d < 64,
    ensures
        final(list)@ == old(list)@ + scan(targets, target_fn(d as int, flag), 64),
        final(list)@.subrange(0, old(list)@.len() as int) == old(list)@,
        final(list)@.len() >= old(list)@.len(),
        forall|m: Move| #[trigger] added(final(list)@, old(list)@.len() as int).contains(m) <==> (sq_in(
            targets,
            m.to as int,
        ) && m == target_move(m.to as int, d as int, flag)),
        forall|m: Move| #[trigger] added(final(list)@, old(list)@.len() as int).contains(m) ==> m.from < 64 && m.to < 64,
{
    let ghost start = list@.len() as int;
    let ghost f = target_fn(d as int, flag);
    let ghost mut next: int = 0;
    let mut t = targets;
    assert(added(list@, start) =~= Seq::<Move>::empty());
    assert(list@ =~= old(list)@ + scan(targets, f, 0));
    while t != 0
        invariant
            -16 <= d <= 16,
            forall|x: int| #[trigger] sq_in(targets, x) ==> 0 <= x - d < 64,
            start <= list@.len(),
            list@.subrange(0, start) == old(list)@,
            start == old(list)@.len(),
            f == target_fn(d as int, flag),
            0 <= next <= 64,
            forall|q: int| #[trigger] sq_in(t, q) <==> (sq_in(targets, q) && q >= next),
            list@ == old(list)@ + scan(targets, f, next),
            forall|s: int| #[trigger] sq_in(t, s) ==> sq_in(targets, s),
            forall|m: Move| #[trigger] added(list@, start).contains(m) <==> (sq_in(targets, m.to as int) && !sq_in(
                t,
                m.to as int,
            ) && m == target_move(m.to as int, d as int, flag)),
        decreases t,
    {
        let ghost v = list@;
        let ghost prev = t;
        let to = pop_lsb(&mut t);
        let from = (to as i32 - d) as u8;
        let mv = Move { from, to, promotion: None, flag };
        list.push(mv);
        proof {
            lemma_added_push(v, start, mv);
            assert(list@.subrange(0, start) =~= v.subrange(0, start));
            assert forall|m: Move| #[trigger] added(list@, start).contains(m) <==> (sq_in(targets, m.to as int)
                && !sq_in(t, m.to as int) && m == target_move(m.to as int, d as int, flag)) by {
                if m.to != to {
                    assert(sq_in(t, m.to as int) <==> sq_in(prev, m.to as int));
                }
            }
            lemma_scan_next(targets, f, next, to as int, prev);
            assert(f(to as int) == seq![mv]);
            assert(list@ =~= old(list)@ + scan(targets, f, to + 1));
            next = to + 1;
            assert forall|q: int| #[trigger] sq_in(t, q) <==> (sq_in(targets, q) && q >= next) by {
                if q != to {
                    assert(sq_in(t, q) <==> sq_in(prev, q));
                }
            }
        }
    }
    proof {
        assert forall|m: Move| #[trigger] added(list@, start).contains(m) implies !sq_in(t, m.to as int) by {
            crate::bitboard::lemma_sq_in_zero(m.to as int);
        }
        assert forall|m: Move| sq_in(targets, m.to as int) implies !#[trigger] sq_in(t, m.to as int) by {
            crate::bitboard::lemma_sq_in_zero(m.to as int);
        }
        assert forall|q: int| next <= q < 64 implies !#[trigger] sq_in(targets, q) by {
            crate::bitboard::lemma_sq_in_zero(q);
            assert(!sq_in(t, q));
        }
        lemma_scan_done(targets, f, next);
    }
}

/// The four promotions per target square, from `d` squares back.
fn emit_promos(list: &mut Vec<Move>, targets: Bitboard, d: i32, capture: bool)
    requires
        -16 <= d <= 16,
        forall|t: int| #[trigger] sq_in(targets, t) ==> 0 <= t - d < 64,
    ensures
        final(list)@ == old(list)@ + scan(targets, promo_fn(d as int, capture), 64),
        final(list)@.subrange(0, old(list)@.len() as int) == old(list)@,
        final(list)@.len() >= old(list)@.len(),
        forall|m: Move| #[trigger] added(final(list)@, old(list)@.len() as int).contains(m) <==> (sq_in(
            targets,
            m.to as int,
        ) && promo_move(m, d as int, capture)),
        forall|m: Move| #[trigger] added(final(list)@, old(list)@.len() as int).contains(m) ==> m.from < 64 && m.to < 64,
{
    let ghost start = list@.len() as int;
    let ghost f = promo_fn(d as int, capture);
    let ghost mut next: int = 0;
    let mut t = targets;
    assert(added(list@, start) =~= Seq::<Move>::empty());
    assert(list@ =~= old(list)@ + scan(targets, f, 0));
    while t != 0
        invariant
            -16 <= d <= 16,
            forall|x: int| #[trigger] sq_in(targets, x) ==> 0 <= x - d < 64,
            start <= list@.len(),
            list@.subrange(0, start) == old(list)@,
            start == old(list)@.len(),
            f == promo_fn(d as int, capture),
            0 <= next <= 64,
            forall|q: int| #[trigger] sq_in(t, q) <==> (sq_in(targets, q) && q >= next),
            list@ == old(list)@ + scan(targets, f, next),
            forall|s: int| #[trigger] sq_in(t, s) ==> sq_in(targets, s),
            forall|m: Move| #[trigger] added(list@, start).contains(m) <==> (sq_in(targets, m.to as int) && !sq_in(
                t,
                m.to as int,
            ) && promo_move(m, d as int, capture)),
        decreases t,
    {
        let ghost v = list@;
        let ghost prev = t;
        let to = pop_lsb(&mut t);
        let from = (to as i32 - d) as u8;
        promo(from, to, capture, list);
        proof {
            lemma_added_split(list@, start, v.len() as int);
            assert(list@.subrange(start, v.len() as int) =~= added(v, start));
            assert(list@.subrange(0, start) =~= v.subrange(0, start));
            assert forall|m: Move| #[trigger] added(list@, start).contains(m) <==> (sq_in(targets, m.to as int)
                && !sq_in(t, m.to as int) && promo_move(m, d as int, capture)) by {
                if m.to != to {
                    assert(sq_in(t, m.to as int) <==> sq_in(prev, m.to as int));
                }
            }
            lemma_scan_next(targets, f, next, to as int, prev);
            assert(f(to as int) == promo4(from as int, to as int, capture));
            assert(list@ =~= old(list)@ + scan(targets, f, to + 1));
            next = to + 1;
            assert forall|q: int| #[trigger] sq_in(t, q) <==> (sq_in(targets, q) && q >= next) by {
                if q != to {
                    assert(sq_in(t, q) <==> sq_in(prev, q));
                }
            }
        }
    }
    proof {
        assert forall|m: Move| #[trigger] added(list@, start).contains(m) implies !sq_in(t, m.to as int) by {
            crate::bitboard::lemma_sq_in_zero(m.to as int);
        }
        assert forall|m: Move| sq_in(targets, m.to as int) implies !#[trigger] sq_in(t, m.to as int) by {
            crate::bitboard::lemma_sq_in_zero(m.to as int);
        }
        assert forall|q: int| next <= q < 64 implies !#[trigger] sq_in(targets, q) by {
            crate::bitboard::lemma_sq_in_zero(q);
            assert(!sq_in(t, q));
        }
        lemma_scan_done(targets, f, next);
    }
}

/// The attack set of a knight (1), bishop (2), rook (3) or queen (4) on `from`.
pub open spec fn piece_att(pt: int, from: int, occ: u64) -> u64 {
    if pt == 1 {
        knight_spec(from)
    } else if pt == 2 {
        bishop_spec(from, occ)
    } else if pt == 3 {
        rook_spec(from, occ)
    } else {
        bishop_spec(from, occ) | rook_spec(from, occ)
    }
}

/// A move of `us`'s piece of kind `pt` onto a square of `filter`.
pub open spec fn piece_gen(b: Board, us: Color, pt: int, filter: u64, occ: u64, m: Move) -> bool {
    &&& sq_in(b.pieces[color_index(us)][pt], m.from as int)
    &&& sq_in(piece_att(pt, m.from as int, occ) & filter, m.to as int)
    &&& m.promotion is None
    &&& m.flag == (if sq_in(occ, m.to as int) {
        MoveFlag::Capture
    } else {
        MoveFlag::Quiet
    })
}

/// The step of a piece from `from` onto `to`, a capture when `to` is occupied.
pub open spec fn step_fn(from: int, occ: u64) -> spec_fn(int) -> Seq<Move> {
    |to: int|
        seq![
            Move {
                from: from as u8,
                to: to as u8,
                promotion: None,
                flag: if sq_in(occ, to) {
                    MoveFlag::Capture
                } else {
                    MoveFlag::Quiet
                },
            },
        ]
}

/// The moves of a piece of kind `pt` on `from` onto squares of `filter`, targets lowest first.
pub open spec fn piece_fn(pt: int, filter: u64, occ: u64) -> spec_fn(int) -> Seq<Move> {
    |from: int| scan(piece_att(pt, from, occ) & filter, step_fn(from, occ), 64)
}

fn gen_piece(board: &Board, atk: &Attacks, us: Color, pt: PieceType, filter: Bitboard, occ: Bitboard, list: &mut Vec<Move>)
    requires
        atk.wf(),
        pt == PieceType::Knight || pt == PieceType::Bishop || pt == PieceType::Rook || pt == PieceType::Queen,
    ensures
        final(list)@ == old(list)@ + scan(
            board.pieces[color_index(us)][crate::types::piece_index(pt)],
            piece_fn(crate::types::piece_index(pt), filter, occ),
            64,
        ),
        final(list)@.subrange(0, old(list)@.len() as int) == old(list)@,
        final(list)@.len() >= old(list)@.len(),
        forall|m: Move| #[trigger] added(final(list)@, old(list)@.len() as int).contains(m) <==> piece_gen(
            *board,
            us,
            crate::types::piece_index(pt),
            filter,
            occ,
            m,
        ),
        forall|m: Move| #[trigger] added(final(list)@, old(list)@.len() as int).contains(m) ==> m.from < 64 && m.to < 64,
{
    let ghost start = list@.len() as int;
    let ghost pti = crate::types::piece_index(pt);
    let all = board.pieces[us.idx()][pt.idx()];
    let ghost pf = piece_fn(pti, filter, occ);
    let ghost mut next: int = 0;
    let mut pieces = all;
    assert(added(list@, start) =~= Seq::<Move>::empty());
    assert(list@ =~= old(list)@ + scan(all, pf, 0));
    while pieces != 0
        invariant
            atk.wf(),
            pf == piece_fn(pti, filter, occ),
            0 <= next <= 64,
            forall|q: int| #[trigger] sq_in(pieces, q) <==> (sq_in(all, q) && q >= next),
            list@ == old(list)@ + scan(all, pf, next),
            pti == crate::types::piece_index(pt),
            1 <= pti <= 4,
            all == board.pieces[color_index(us)][pti],
            start <= list@.len(),
            list@.subrange(0, start) == old(list)@,
            start == old(list)@.len(),
            forall|s: int| #[trigger] sq_in(pieces, s) ==> sq_in(all, s),
            forall|m: Move| #[trigger] added(list@, start).contains(m) <==> (piece_gen(*board, us, pti, filter, occ, m)
                && !sq_in(pieces, m.from as int)),
        decreases pieces,
    {
        let ghost prev = pieces;
        let ghost v0 = list@;
        let from = pop_lsb(&mut pieces);
        let att = match pt {
            PieceType::Knight => atk.knight[from as usize],
            PieceType::Bishop => crate::attacks::bishop_attacks(from, occ),
            PieceType::Rook => crate::attacks::rook_attacks(from, occ),
            _ => crate::attacks::bishop_attacks(from, occ) | crate::attacks::rook_attacks(from, occ),
        };
        assert(att == piece_att(pti, from as int, occ));
        let all_targets = att & filter;
        let mut targets = all_targets;
        let ghost mid = list@.len() as int;
        let ghost sf = step_fn(from as int, occ);
        let ghost mut next2: int = 0;
        assert(added(list@, mid) =~= Seq::<Move>::empty());
        assert(list@ =~= v0 + scan(all_targets, sf, 0));
        while targets != 0
            invariant
                sf == step_fn(from as int, occ),
                0 <= next2 <= 64,
                forall|q: int| #[trigger] sq_in(targets, q) <==> (sq_in(all_targets, q) && q >= next2),
                list@ == v0 + scan(all_targets, sf, next2),
                start <= mid <= list@.len(),
                list@.subrange(0, mid) == v0,
                v0.len() == mid,
                forall|s: int| #[trigger] sq_in(targets, s) ==> sq_in(all_targets, s),
                forall|m: Move| #[trigger] added(list@, mid).contains(m) <==> (m.from == from && sq_in(
                    all_targets,
                    m.to as int,
                ) && !sq_in(targets, m.to as int) && m.promotion is None && m.flag == (if sq_in(occ, m.to as int) {
                    MoveFlag::Capture
                } else {
                    MoveFlag::Quiet
                })),
            decreases targets,
        {
            let ghost v = list@;
            let ghost tprev = targets;
            let to = pop_lsb(&mut targets);
            proof {
                lemma_single_and(occ, to);
            }
            let flag = if occ & bb(to) != 0 {
                MoveFlag::Capture
            } else {
                MoveFlag::Quiet
            };
            let mv = Move { from, to, promotion: None, flag };
            list.push(mv);
            proof {
                lemma_added_push(v, mid, mv);
                assert(list@.subrange(0, mid) =~= v.subrange(0, mid));
                assert forall|m: Move| #[trigger] added(list@, mid).contains(m) <==> (m.from == from && sq_in(
                    all_targets,
                    m.to as int,
                ) && !sq_in(targets, m.to as int) && m.promotion is None && m.flag == (if sq_in(occ, m.to as int) {
                    MoveFlag::Capture
                } else {
                    MoveFlag::Quiet
                })) by {
                    if m.to != to {
                        assert(sq_in(targets, m.to as int) <==> sq_in(tprev, m.to as int));
                    }
                }
                lemma_scan_next(all_targets, sf, next2, to as int, tprev);
                assert(sf(to as int) == seq![mv]);
                assert(list@ =~= v0 + scan(all_targets, sf, to + 1));
                next2 = to + 1;
                assert forall|q: int| #[trigger] sq_in(targets, q) <==> (sq_in(all_targets, q) && q >= next2) by {
                    if q != to {
                        assert(sq_in(targets, q) <==> sq_in(tprev, q));
                    }
                }
            }
        }
        proof {
            assert forall|q: int| next2 <= q < 64 implies !#[trigger] sq_in(all_targets, q) by {
                crate::bitboard::lemma_sq_in_zero(q);
                assert(!sq_in(targets, q));
            }
            lemma_scan_done(all_targets, sf, next2);
            assert(pf(from as int) == scan(all_targets, sf, 64));
            lemma_scan_next(all, pf, next, from as int, prev);
            assert(list@ =~= old(list)@ + scan(all, pf, from + 1));
            next = from + 1;
            assert forall|q: int| #[trigger] sq_in(pieces, q) <==> (sq_in(all, q) && q >= next) by {
                if q != from {
                    assert(sq_in(pieces, q) <==> sq_in(prev, q));
                }
            }
            lemma_added_split(list@, start, mid);
            assert(list@.subrange(start, mid) =~= added(v0, start));
            assert(list@.subrange(0, start) =~= v0.subrange(0, start));
            assert forall|m: Move| #[trigger] added(list@, start).contains(m) <==> (piece_gen(*board, us, pti, filter, occ, m)
                && !sq_in(pieces, m.from as int)) by {
                crate::bitboard::lemma_sq_in_zero(m.to as int);
                if m.from != from {
                    assert(sq_in(pieces, m.from as int) <==> sq_in(prev, m.from as int));
                }
            }
        }
    }
    proof {
        assert forall|m: Move| #[trigger] added(list@, start).contains(m) <==> piece_gen(*board, us, pti, filter, occ, m) by {
            crate::bitboard::lemma_sq_in_zero(m.from as int);
        }
        assert forall|q: int| next <= q < 64 implies !#[trigger] sq_in(all, q) by {
            crate::bitboard::lemma_sq_in_zero(q);
            assert(!sq_in(pieces, q));
        }
        lemma_scan_done(all, pf, next);
    }
}

/// What was appended since `start` is what was appended up to `mid` and what
/// was appended after it.
proof fn lemma_chain(v_mid: Seq<Move>, v_end: Seq<Move>, start: int)
    requires
        0 <= start <= v_mid.len() <= v_end.len(),
        v_end.subrange(0, v_mid.len() as int) == v_mid,
    ensures
        forall|m: Move| #[trigger] added(v_end, start).contains(m) <==> (added(v_mid, start).contains(m) || added(
            v_end,
            v_mid.len() as int,
        ).contains(m)),
        v_end.subrange(0, start) == v_mid.subrange(0, start),
{
    lemma_added_split(v_end, start, v_mid.len() as int);
    assert(v_end.subrange(start, v_mid.len() as int) =~= added(v_mid, start));
    assert(v_end.subrange(0, start) =~= v_mid.subrange(0, start));
}

proof fn lemma_shift_sq(b: u64, k: u64, t: int)
    requires
        k < 64,
    ensures
        sq_in(b << k, t) ==> t >= k && sq_in(b, t - k),
        sq_in(b >> k, t) ==> t + k < 64 && sq_in(b, t + k),
{
    if 0 <= t < 64 {
        let tt = t as u64;
        assert(((b << k) >> tt) & 1 == 1 ==> tt >= k && (b >> ((tt - k) as u64)) & 1 == 1) by (bit_vector)
            requires
                k < 64,
                tt < 64,
        ;
        assert(((b >> k) >> tt) & 1 == 1 ==> tt + k < 64 && (b >> ((tt + k) as u64)) & 1 == 1) by (bit_vector)
            requires
                k < 64,
                tt < 64,
        ;
    }
}

/// One rank forward for the side (`white` or not), and diagonally to the
/// left and to the right as that side sees the board.
pub open spec fn up(x: u64, white: bool) -> u64 {
    if white {
        x << 8u64
    } else {
        x >> 8u64
    }
}

pub open spec fn up_left(x: u64, white: bool) -> u64 {
    if white {
        x << 7u64
    } else {
        x >> 9u64
    }
}

pub open spec fn up_right(x: u64, white: bool) -> u64 {
    if white {
        x << 9u64
    } else {
        x >> 7u64
    }
}

pub open spec fn d_up(white: bool) -> int {
    if white {
        8
    } else {
        -8
    }
}

proof fn lemma_up_bounds(x: u64, white: bool, t: int)
    ensures
        sq_in(up(x, white), t) ==> 0 <= t - d_up(white) < 64 && sq_in(x, t - d_up(white)),
        sq_in(up_left(x, white), t) ==> 0 <= t - (d_up(white) - 1) < 64 && sq_in(x, t - (d_up(white) - 1)),
        sq_in(up_right(x, white), t) ==> 0 <= t - (d_up(white) + 1) < 64 && sq_in(x, t - (d_up(white) + 1)),
{
    lemma_shift_sq(x, 8, t);
    lemma_shift_sq(x, 7, t);
    lemma_shift_sq(x, 9, t);
}

fn up_of(x: u64, white: bool) -> (r: u64)
    ensures
        r == up(x, white),
{
    if white {
        x << 8u64
    } else {
        x >> 8u64
    }
}

fn up_left_of(x: u64, white: bool) -> (r: u64)
    ensures
        r == up_left(x, white),
{
    if white {
        x << 7u64
    } else {
        x >> 9u64
    }
}

fn up_right_of(x: u64, white: bool) -> (r: u64)
    ensures
        r == up_right(x, white),
{
    if white {
        x << 9u64
    } else {
        x >> 7u64
    }
}

pub open spec fn rank7_of(white: bool) -> u64 {
    if white {
        RANK_7
    } else {
        RANK_2
    }
}

pub open spec fn rank3_of(white: bool) -> u64 {
    if white {
        RANK_3
    } else {
        RANK_6
    }
}

/// `us`'s pawns that do not promote with their next step, and those that do.
pub open spec fn plain_pawns(b: Board, us: Color) -> u64 {
    b.pieces[color_index(us)][0] & !rank7_of(us == Color::White)
}

pub open spec fn promoting_pawns(b: Board, us: Color) -> u64 {
    b.pieces[color_index(us)][0] & rank7_of(us == Color::White)
}

pub open spec fn enemy_in(b: Board, us: Color, filter: u64) -> u64 {
    b.occ_color[color_index(opposite(us))] & filter
}

pub open spec fn singles(b: Board, us: Color, filter: u64, occ: u64) -> u64 {
    (up(plain_pawns(b, us), us == Color::White) & !occ) & filter
}

pub open spec fn doubles(b: Board, us: Color, filter: u64, occ: u64) -> u64 {
    let w = us == Color::White;
    (up((up(plain_pawns(b, us), w) & !occ) & rank3_of(w), w) & !occ) & filter
}

pub open spec fn lefts(b: Board, us: Color, filter: u64) -> u64 {
    up_left(plain_pawns(b, us) & !FILE_A, us == Color::White) & enemy_in(b, us, filter)
}

pub open spec fn rights(b: Board, us: Color, filter: u64) -> u64 {
    up_right(plain_pawns(b, us) & !FILE_H, us == Color::White) & enemy_in(b, us, filter)
}

pub open spec fn fwds(b: Board, us: Color, filter: u64, occ: u64) -> u64 {
    (up(promoting_pawns(b, us), us == Color::White) & !occ) & filter
}

pub open spec fn lcaps(b: Board, us: Color, filter: u64) -> u64 {
    (up_left(promoting_pawns(b, us) & !FILE_A, us == Color::White) & enemy_in(b, us, filter)) & filter
}

pub open spec fn rcaps(b: Board, us: Color, filter: u64) -> u64 {
    (up_right(promoting_pawns(b, us) & !FILE_H, us == Color::White) & enemy_in(b, us, filter)) & filter
}

/// The pushes and non-promoting captures.
pub open spec fn pawn_plain_gen(b: Board, us: Color, filter: u64, occ: u64, m: Move) -> bool {
    let d = d_up(us == Color::White);
    ||| (sq_in(singles(b, us, filter, occ), m.to as int) && m == target_move(m.to as int, d, MoveFlag::Quiet))
    ||| (sq_in(doubles(b, us, filter, occ), m.to as int) && m == target_move(m.to as int, 2 * d, MoveFlag::DoublePush))
    ||| (sq_in(lefts(b, us, filter), m.to as int) && m == target_move(m.to as int, d - 1, MoveFlag::Capture))
    ||| (sq_in(rights(b, us, filter), m.to as int) && m == target_move(m.to as int, d + 1, MoveFlag::Capture))
}

/// The promotions, pushes and captures.
pub open spec fn pawn_promo_gen(b: Board, us: Color, filter: u64, occ: u64, m: Move) -> bool {
    let d = d_up(us == Color::White);
    ||| (sq_in(fwds(b, us, filter, occ), m.to as int) && promo_move(m, d, false))
    ||| (sq_in(lcaps(b, us, filter), m.to as int) && promo_move(m, d - 1, true))
    ||| (sq_in(rcaps(b, us, filter), m.to as int) && promo_move(m, d + 1, true))
}

/// The pushes, double pushes, captures to the left and to the right, in that
/// order, each lowest target first.
pub open spec fn pawn_plain_seq(b: Board, us: Color, filter: u64, occ: u64) -> Seq<Move> {
    let d = d_up(us == Color::White);
    scan(singles(b, us, filter, occ), target_fn(d, MoveFlag::Quiet), 64) + scan(
        doubles(b, us, filter, occ),
        target_fn(2 * d, MoveFlag::DoublePush),
        64,
    ) + scan(lefts(b, us, filter), target_fn(d - 1, MoveFlag::Capture), 64) + scan(
        rights(b, us, filter),
        target_fn(d + 1, MoveFlag::Capture),
        64,
    )
}

/// The promotions by push, capture to the left and capture to the right, in
/// that order, each lowest target first.
pub open spec fn pawn_promo_seq(b: Board, us: Color, filter: u64, occ: u64) -> Seq<Move> {
    let d = d_up(us == Color::White);
    scan(fwds(b, us, filter, occ), promo_fn(d, false), 64) + scan(lcaps(b, us, filter), promo_fn(d - 1, true), 64) + scan(
        rcaps(b, us, filter),
        promo_fn(d + 1, true),
        64,
    )
}

fn gen_pawn_plain(board: &Board, us: Color, filter: Bitboard, occ: Bitboard, list: &mut Vec<Move>)
    ensures
        final(list)@ == old(list)@ + pawn_plain_seq(*board, us, filter, occ),
        final(list)@.subrange(0, old(list)@.len() as int) == old(list)@,
        final(list)@.len() >= old(list)@.len(),
        forall|m: Move| #[trigger] added(final(list)@, old(list)@.len() as int).contains(m) <==> pawn_plain_gen(
            *board,
            us,
            filter,
            occ,
            m,
        ),
        forall|m: Move| #[trigger] added(final(list)@, old(list)@.len() as int).contains(m) ==> m.from < 64 && m.to < 64,
{
    broadcast use crate::bitboard::group_bitboard;

    let white = us == Color::White;
    let them = us.opp();
    let rank3 = if white {
        RANK_3
    } else {
        RANK_6
    };
    let rank7 = if white {
        RANK_7
    } else {
        RANK_2
    };
    let d_up: i32 = if white {
        8
    } else {
        -8
    };
    let enemy = board.occ_color[them.idx()] & filter;
    let empty = !occ;
    let pawns = board.pieces[us.idx()][PieceType::Pawn.idx()];
    let plain = pawns & !rank7;
    let single_all = up_of(plain, white) & empty;
    let double = up_of(single_all & rank3, white) & empty & filter;
    let single = single_all & filter;
    let left = up_left_of(plain & !FILE_A, white) & enemy;
    let right = up_right_of(plain & !FILE_H, white) & enemy;
    proof {
        assert forall|t: int| #[trigger] sq_in(single, t) implies 0 <= t - d_up < 64 by {
            lemma_up_bounds(plain, white, t);
        }
        assert forall|t: int| #[trigger] sq_in(double, t) implies 0 <= t - 2 * d_up < 64 by {
            lemma_up_bounds(single_all & rank3, white, t);
            lemma_up_bounds(plain, white, t - d_up);
        }
        assert forall|t: int| #[trigger] sq_in(left, t) implies 0 <= t - (d_up - 1) < 64 by {
            lemma_up_bounds(plain & !FILE_A, white, t);
        }
        assert forall|t: int| #[trigger] sq_in(right, t) implies 0 <= t - (d_up + 1) < 64 by {
            lemma_up_bounds(plain & !FILE_H, white, t);
        }
    }
    let ghost v0 = list@;
    emit_targets(list, single, d_up, MoveFlag::Quiet);
    let ghost v1 = list@;
    emit_targets(list, double, 2 * d_up, MoveFlag::DoublePush);
    let ghost v2 = list@;
    emit_targets(list, left, d_up - 1, MoveFlag::Capture);
    let ghost v3 = list@;
    emit_targets(list, right, d_up + 1, MoveFlag::Capture);
    proof {
        assert(d_up as int == crate::ordered_movegen::d_up(us == Color::White));
        assert(single == singles(*board, us, filter, occ));
        assert(double == doubles(*board, us, filter, occ));
        assert(left == lefts(*board, us, filter));
        assert(right == rights(*board, us, filter));
        assert(list@ =~= v0 + pawn_plain_seq(*board, us, filter, occ));
    }
    proof {
        let st = v0.len() as int;
        assert(v2.subrange(0, v1.len() as int) == v1);
        lemma_chain(v1, v2, st);
        assert(v3.subrange(0, v1.len() as int) =~= v1) by {
            assert(v3.subrange(0, v2.len() as int) == v2);
        }
        lemma_chain(v2, v3, st);
        assert(list@.subrange(0, v3.len() as int) == v3);
        lemma_chain(v3, list@, st);
        assert(list@.subrange(0, st) =~= v0) by {
            assert(v1.subrange(0, st) == v0);
        }
    }
}

fn gen_pawn_promos(board: &Board, us: Color, filter: Bitboard, occ: Bitboard, list: &mut Vec<Move>)
    ensures
        final(list)@ == old(list)@ + pawn_promo_seq(*board, us, filter, occ),
        final(list)@.subrange(0, old(list)@.len() as int) == old(list)@,
        final(list)@.len() >= old(list)@.len(),
        forall|m: Move| #[trigger] added(final(list)@, old(list)@.len() as int).contains(m) <==> pawn_promo_gen(
            *board,
            us,
            filter,
            occ,
            m,
        ),
        forall|m: Move| #[trigger] added(final(list)@, old(list)@.len() as int).contains(m) ==> m.from < 64 && m.to < 64,
{
    broadcast use crate::bitboard::group_bitboard;

    let white = us == Color::White;
    let them = us.opp();
    let rank7 = if white {
        RANK_7
    } else {
        RANK_2
    };
    let d_up: i32 = if white {
        8
    } else {
        -8
    };
    let enemy = board.occ_color[them.idx()] & filter;
    let empty = !occ;
    let pawns = board.pieces[us.idx()][PieceType::Pawn.idx()];
    let promoting = pawns & rank7;
    let fwd = up_of(promoting, white) & empty & filter;
    let lcap = up_left_of(promoting & !FILE_A, white) & enemy & filter;
    let rcap = up_right_of(promoting & !FILE_H, white) & enemy & filter;
    proof {
        assert forall|t: int| #[trigger] sq_in(fwd, t) implies 0 <= t - d_up < 64 by {
            lemma_up_bounds(promoting, white, t);
        }
        assert forall|t: int| #[trigger] sq_in(lcap, t) implies 0 <= t - (d_up - 1) < 64 by {
            lemma_up_bounds(promoting & !FILE_A, white, t);
        }
        assert forall|t: int| #[trigger] sq_in(rcap, t) implies 0 <= t - (d_up + 1) < 64 by {
            lemma_up_bounds(promoting & !FILE_H, white, t);
        }
    }
    let ghost v0 = list@;
    emit_promos(list, fwd, d_up, false);
    let ghost v1 = list@;
    emit_promos(list, lcap, d_up - 1, true);
    let ghost v2 = list@;
    emit_promos(list, rcap, d_up + 1, true);
    proof {
        assert(d_up as int == crate::ordered_movegen::d_up(us == Color::White));
        assert(fwd == fwds(*board, us, filter, occ));
        assert(lcap == lcaps(*board, us, filter));
        assert(rcap == rcaps(*board, us, filter));
        assert(list@ =~= v0 + pawn_promo_seq(*board, us, filter, occ));
    }
    proof {
        let st = v0.len() as int;
        assert(v2.subrange(0, v1.len() as int) == v1);
        lemma_chain(v1, v2, st);
        assert(list@.subrange(0, v2.len() as int) == v2);
        lemma_chain(v2, list@, st);
        assert(list@.subrange(0, st) =~= v0) by {
            assert(v1.subrange(0, st) == v0);
        }
    }
}

/// Taking en passant from `from` would uncover a rook or queen on the king's
/// rank: the capture removes two pawns from that rank at once.
pub open spec fn ep_pin_blocks(b: Board, us: Color, occ: u64, from: int) -> bool {
    let them = opposite(us);
    let king = king_at(b, us);
    let captured = b.ep_square - d_up(us == Color::White);
    let rq = (b.pieces[color_index(them)][3] | b.pieces[color_index(them)][4]) & (RANK_1 << ((8 * (from / 8)) as u8));
    let new_occ = occ & !(1u64 << (from as u8)) & !(1u64 << (captured as u8));
    from / 8 == king / 8 && exists|r: int| #[trigger] sq_in(rq, r) && sq_in(rook_spec(r, new_occ), king)
}

/// The en passant captures the generator allows.
pub open spec fn ep_gen(b: Board, us: Color, filter: u64, occ: u64, m: Move) -> bool {
    let ep = b.ep_square as int;
    &&& b.ep_square != NO_SQUARE
    &&& sq_in(filter, ep - d_up(us == Color::White))
    &&& m.to == b.ep_square
    &&& m.promotion is None
    &&& m.flag == MoveFlag::EnPassant
    &&& sq_in(pawn_spec(ep, opposite(us)) & plain_pawns(b, us), m.from as int)
    &&& !ep_pin_blocks(b, us, occ, m.from as int)
}

/// The en passant square is off the board, or one a pawn can capture on.
pub open spec fn ep_sane(b: Board) -> bool {
    b.ep_square == NO_SQUARE || (b.ep_square < 64 && 0 <= b.ep_square - d_up(b.side == Color::White) < 64)
}

/// Whether the en passant square is one `generate` takes.
pub fn ep_sane_check(b: &Board) -> (r: bool)
    ensures
        r == ep_sane(*b),
{
    if b.ep_square == NO_SQUARE {
        return true;
    }
    if b.ep_square >= 64 {
        return false;
    }
    if b.side == Color::White {
        b.ep_square >= 8
    } else {
        b.ep_square < 56
    }
}

/// The en passant capture from `from`, unless it uncovers the king.
pub open spec fn ep_fn(b: Board, us: Color, occ: u64) -> spec_fn(int) -> Seq<Move> {
    |from: int|
        if ep_pin_blocks(b, us, occ, from) {
            seq![]
        } else {
            seq![Move { from: from as u8, to: b.ep_square, promotion: None, flag: MoveFlag::EnPassant }]
        }
}

/// The en passant captures, lowest capturing pawn first.
pub open spec fn pawn_ep_seq(b: Board, us: Color, filter: u64, occ: u64) -> Seq<Move> {
    if b.ep_square == NO_SQUARE || !sq_in(filter, b.ep_square - d_up(us == Color::White)) {
        seq![]
    } else {
        scan(pawn_spec(b.ep_square as int, opposite(us)) & plain_pawns(b, us), ep_fn(b, us, occ), 64)
    }
}

fn gen_pawn_ep(board: &Board, atk: &Attacks, us: Color, filter: Bitboard, occ: Bitboard, list: &mut Vec<Move>)
    requires
        atk.wf(),
        us == board.side,
        ep_sane(*board),
        board.pieces[color_index(us)][5] != 0,
    ensures
        final(list)@ == old(list)@ + pawn_ep_seq(*board, us, filter, occ),
        final(list)@.subrange(0, old(list)@.len() as int) == old(list)@,
        final(list)@.len() >= old(list)@.len(),
        forall|m: Move| #[trigger] added(final(list)@, old(list)@.len() as int).contains(m) <==> ep_gen(
            *board,
            us,
            filter,
            occ,
            m,
        ),
        forall|m: Move| #[trigger] added(final(list)@, old(list)@.len() as int).contains(m) ==> m.from < 64 && m.to < 64,
{
    let ghost start = list@.len() as int;
    let white = us == Color::White;
    let them = us.opp();
    let rank7 = if white {
        RANK_7
    } else {
        RANK_2
    };
    let d_up: i32 = if white {
        8
    } else {
        -8
    };
    let pawns = board.pieces[us.idx()][PieceType::Pawn.idx()];
    let plain = pawns & !rank7;
    if board.ep_square == NO_SQUARE {
        assert(added(list@, start) =~= Seq::<Move>::empty());
        assert(list@ =~= old(list)@ + pawn_ep_seq(*board, us, filter, occ));
        return;
    }
    let ep = board.ep_square;
    let captured = (ep as i32 - d_up) as u8;
    proof {
        lemma_single_and(filter, captured);
    }
    if filter & bb(captured) == 0 {
        assert(added(list@, start) =~= Seq::<Move>::empty());
        assert(list@ =~= old(list)@ + pawn_ep_seq(*board, us, filter, occ));
        return;
    }
    let king_sq = board.king_sq(us);
    proof {
        crate::bitboard::lemma_lsb(board.pieces[color_index(us)][5]);
    }
    let from_all = atk.pawn[them.idx()][ep as usize] & plain;
    assert(from_all == pawn_spec(ep as int, opposite(us)) & plain_pawns(*board, us)) by {
        if us == Color::White {
        } else {
        }
    }
    let mut ep_attackers = from_all;
    let ghost ef = ep_fn(*board, us, occ);
    let ghost mut next: int = 0;
    assert(added(list@, start) =~= Seq::<Move>::empty());
    assert(list@ =~= old(list)@ + scan(from_all, ef, 0));
    while ep_attackers != 0
        invariant
            ef == ep_fn(*board, us, occ),
            0 <= next <= 64,
            forall|q: int| #[trigger] sq_in(ep_attackers, q) <==> (sq_in(from_all, q) && q >= next),
            list@ == old(list)@ + scan(from_all, ef, next),
            us == board.side,
            them == opposite(us),
            start <= list@.len(),
            list@.subrange(0, start) == old(list)@,
            start == old(list)@.len(),
            board.ep_square == ep,
            ep < 64,
            captured == ep - d_up,
            d_up == crate::ordered_movegen::d_up(us == Color::White),
            sq_in(filter, captured as int),
            king_sq == king_at(*board, us),
            king_sq < 64,
            from_all == pawn_spec(ep as int, opposite(us)) & plain_pawns(*board, us),
            forall|s: int| #[trigger] sq_in(ep_attackers, s) ==> sq_in(from_all, s),
            forall|m: Move| #[trigger] added(list@, start).contains(m) <==> (ep_gen(*board, us, filter, occ, m) && !sq_in(
                ep_attackers,
                m.from as int,
            )),
        decreases ep_attackers,
    {
        let ghost v = list@;
        let ghost prev = ep_attackers;
        let from = pop_lsb(&mut ep_attackers);
        let mut blocked = false;
        if from / 8 == king_sq / 8 {
            let rq_all = (board.pieces[them.idx()][PieceType::Rook.idx()] | board.pieces[them.idx()][PieceType::Queen.idx()])
                & (RANK_1 << (8 * (from / 8)));
            let mut rooks_queens = rq_all;
            if rooks_queens != 0 {
                let new_occ = occ & !bb(from) & !bb(captured);
                let mut in_check = false;
                while rooks_queens != 0 && !in_check
                    invariant
                        king_sq < 64,
                        forall|s: int| #[trigger] sq_in(rooks_queens, s) ==> sq_in(rq_all, s),
                        in_check ==> exists|r: int| #[trigger] sq_in(rq_all, r) && sq_in(rook_spec(r, new_occ), king_sq as int),
                        !in_check ==> forall|r: int| #[trigger] sq_in(rq_all, r) && !sq_in(rooks_queens, r) ==> !sq_in(
                            rook_spec(r, new_occ),
                            king_sq as int,
                        ),
                    decreases rooks_queens,
                {
                    let ghost rprev = rooks_queens;
                    let r = pop_lsb(&mut rooks_queens);
                    let ra = crate::attacks::rook_attacks(r, new_occ);
                    proof {
                        lemma_single_and(ra, king_sq);
                    }
                    in_check = ra & bb(king_sq) != 0;
                    assert(!in_check ==> forall|q: int| #[trigger] sq_in(rq_all, q) && !sq_in(rooks_queens, q) ==> !sq_in(
                        rook_spec(q, new_occ),
                        king_sq as int,
                    )) by {
                        assert forall|q: int| #[trigger] sq_in(rq_all, q) && !sq_in(rooks_queens, q) && !in_check implies !sq_in(
                            rook_spec(q, new_occ),
                            king_sq as int,
                        ) by {
                            if q != r {
                                assert(!sq_in(rprev, q));
                            }
                        }
                    }
                }
                proof {
                    if !in_check {
                        assert forall|q: int| #[trigger] sq_in(rq_all, q) implies !sq_in(rook_spec(q, new_occ), king_sq as int) by {
                            crate::bitboard::lemma_sq_in_zero(q);
                        }
                    }
                }
                blocked = in_check;
                assert(new_occ == occ & !(1u64 << (from as u8)) & !(1u64 << (captured as u8)));
                assert(rq_all == (board.pieces[color_index(them)][3] | board.pieces[color_index(them)][4]) & (RANK_1 << ((8 * (from / 8)) as u8)));
                assert(blocked == ep_pin_blocks(*board, us, occ, from as int));
            } else {
                proof {
                    assert forall|q: int| !#[trigger] sq_in(rq_all, q) by {
                        crate::bitboard::lemma_sq_in_zero(q);
                    }
                }
            }
            assert(blocked == ep_pin_blocks(*board, us, occ, from as int));
        }
        assert(blocked == ep_pin_blocks(*board, us, occ, from as int));
        if !blocked {
            let mv = Move { from, to: ep, promotion: None, flag: MoveFlag::EnPassant };
            list.push(mv);
            proof {
                lemma_added_push(v, start, mv);
                assert(list@.subrange(0, start) =~= v.subrange(0, start));
            }
        }
        proof {
            lemma_scan_next(from_all, ef, next, from as int, prev);
            assert(list@ =~= old(list)@ + scan(from_all, ef, from + 1));
            next = from + 1;
            assert forall|q: int| #[trigger] sq_in(ep_attackers, q) <==> (sq_in(from_all, q) && q >= next) by {
                if q != from {
                    assert(sq_in(ep_attackers, q) <==> sq_in(prev, q));
                }
            }
        }
        assert forall|m: Move| #[trigger] added(list@, start).contains(m) <==> (ep_gen(*board, us, filter, occ, m) && !sq_in(
            ep_attackers,
            m.from as int,
        )) by {
            if m.from != from {
                assert(sq_in(ep_attackers, m.from as int) <==> sq_in(prev, m.from as int));
            }
        }
    }
    proof {
        assert forall|m: Move| #[trigger] added(list@, start).contains(m) <==> ep_gen(*board, us, filter, occ, m) by {
            crate::bitboard::lemma_sq_in_zero(m.from as int);
        }
        assert forall|q: int| next <= q < 64 implies !#[trigger] sq_in(from_all, q) by {
            crate::bitboard::lemma_sq_in_zero(q);
            assert(!sq_in(ep_attackers, q));
        }
        lemma_scan_done(from_all, ef, next);
    }
}

/// Every pawn move the generator makes for `us` onto squares of `filter`.
pub open spec fn pawn_gen(b: Board, us: Color, filter: u64, occ: u64, m: Move) -> bool {
    pawn_plain_gen(b, us, filter, occ, m) || ep_gen(b, us, filter, occ, m) || pawn_promo_gen(b, us, filter, occ, m)
}

/// The pawn moves in the generator's order: plain moves, en passant, promotions.
pub open spec fn pawn_seq(b: Board, us: Color, filter: u64, occ: u64) -> Seq<Move> {
    pawn_plain_seq(b, us, filter, occ) + pawn_ep_seq(b, us, filter, occ) + pawn_promo_seq(b, us, filter, occ)
}

fn gen_pawns(board: &Board, atk: &Attacks, us: Color, filter: Bitboard, occ: Bitboard, list: &mut Vec<Move>)
    requires
        atk.wf(),
        us == board.side,
        ep_sane(*board),
        board.pieces[color_index(us)][5] != 0,
    ensures
        final(list)@ == old(list)@ + pawn_seq(*board, us, filter, occ),
        final(list)@.subrange(0, old(list)@.len() as int) == old(list)@,
        final(list)@.len() >= old(list)@.len(),
        forall|m: Move| #[trigger] added(final(list)@, old(list)@.len() as int).contains(m) <==> pawn_gen(
            *board,
            us,
            filter,
            occ,
            m,
        ),
        forall|m: Move| #[trigger] added(final(list)@, old(list)@.len() as int).contains(m) ==> m.from < 64 && m.to < 64,
{
    let ghost v0 = list@;
    gen_pawn_plain(board, us, filter, occ, list);
    let ghost v1 = list@;
    gen_pawn_ep(board, atk, us, filter, occ, list);
    let ghost v2 = list@;
    gen_pawn_promos(board, us, filter, occ, list);
    proof {
        assert(list@ =~= v0 + pawn_seq(*board, us, filter, occ));
    }
    proof {
        let st = v0.len() as int;
        lemma_chain(v1, v2, st);
        assert(list@.subrange(0, v2.len() as int) == v2);
        lemma_chain(v2, list@, st);
        assert(list@.subrange(0, st) =~= v0) by {
            assert(v1.subrange(0, st) == v0);
        }
    }
}

/// The rook's square and the king's target for castling on one side.
pub open spec fn castle_squares(us: Color, kingside: bool) -> (int, int) {
    if us == Color::White {
        if kingside {
            (7, 6)
        } else {
            (0, 2)
        }
    } else {
        if kingside {
            (63, 62)
        } else {
            (56, 58)
        }
    }
}

/// Castling is open: with king and rook lifted, nothing stands on either
/// path, and no square the king passes through or lands on is attacked.
pub open spec fn can_castle_spec(b: Board, us: Color, kingside: bool, occ: u64) -> bool {
    let ks = king_at(b, us);
    let rs = castle_squares(us, kingside).0;
    let kt = castle_squares(us, kingside).1;
    let rt = if kingside {
        kt - 1
    } else {
        kt + 1
    };
    let occ2 = occ & !(1u64 << (ks as u8)) & !(1u64 << (rs as u8));
    let king_travel = between_spec(ks, kt) | (1u64 << (kt as u8));
    let rook_travel = between_spec(rs, rt) | (1u64 << (rt as u8));
    &&& occ2 & king_travel == 0
    &&& occ2 & rook_travel == 0
    &&& forall|s: int| #[trigger] sq_in(king_travel, s) ==> attackers_spec(b, s, occ2, opposite(us)) == 0
}

fn can_castle(board: &Board, atk: &Attacks, us: Color, kingside: bool, occ: Bitboard) -> (r: bool)
    requires
        atk.wf(),
        board.pieces[color_index(us)][5] != 0,
    ensures
        r == can_castle_spec(*board, us, kingside, occ),
{
    let king_sq = board.king_sq(us);
    proof {
        crate::bitboard::lemma_lsb(board.pieces[color_index(us)][5]);
    }
    let (rook_sq, king_target) = match (us, kingside) {
        (Color::White, true) => (7u8, 6u8),
        (Color::White, false) => (0u8, 2u8),
        (Color::Black, true) => (63u8, 62u8),
        (Color::Black, false) => (56u8, 58u8),
    };
    let rook_target = if kingside {
        king_target - 1
    } else {
        king_target + 1
    };
    let occ2 = occ & !bb(king_sq) & !bb(rook_sq);
    let king_travel = atk.between[king_sq as usize][king_target as usize] | bb(king_target);
    let rook_travel = atk.between[rook_sq as usize][rook_target as usize] | bb(rook_target);
    if occ2 & king_travel != 0 || occ2 & rook_travel != 0 {
        return false;
    }
    let mut travel = king_travel;
    let ghost ks = king_at(*board, us);
    let ghost kt = castle_squares(us, kingside).1;
    let ghost rs = castle_squares(us, kingside).0;
    let ghost rt = if kingside {
        kt - 1
    } else {
        kt + 1
    };
    assert(occ2 == occ & !(1u64 << (ks as u8)) & !(1u64 << (rs as u8)));
    assert(king_travel == between_spec(ks, kt) | (1u64 << (kt as u8)));
    assert(rook_travel == between_spec(rs, rt) | (1u64 << (rt as u8)));
    while travel != 0
        invariant
            atk.wf(),
            ks == king_at(*board, us),
            kt == castle_squares(us, kingside).1,
            rs == castle_squares(us, kingside).0,
            rt == (if kingside {
                kt - 1
            } else {
                kt + 1
            }),
            occ2 == occ & !(1u64 << (ks as u8)) & !(1u64 << (rs as u8)),
            king_travel == between_spec(ks, kt) | (1u64 << (kt as u8)),
            rook_travel == between_spec(rs, rt) | (1u64 << (rt as u8)),
            occ2 & king_travel == 0,
            occ2 & rook_travel == 0,
            forall|s: int| #[trigger] sq_in(travel, s) ==> sq_in(king_travel, s),
            forall|s: int| #[trigger] sq_in(king_travel, s) && !sq_in(travel, s) ==> attackers_spec(
                *board,
                s,
                occ2,
                opposite(us),
            ) == 0,
        decreases travel,
    {
        let ghost prev = travel;
        let s = pop_lsb(&mut travel);
        if attackers(board, atk, s, occ2, us.opp()) != 0 {
            assert(sq_in(king_travel, s as int));
            return false;
        }
        assert forall|t: int| #[trigger] sq_in(king_travel, t) && !sq_in(travel, t) implies attackers_spec(
            *board,
            t,
            occ2,
            opposite(us),
        ) == 0 by {
            if t != s {
                assert(!sq_in(prev, t));
            }
        }
    }
    proof {
        assert forall|t: int| #[trigger] sq_in(king_travel, t) implies attackers_spec(*board, t, occ2, opposite(us)) == 0 by {
            crate::bitboard::lemma_sq_in_zero(t);
        }
    }
    true
}

pub open spec fn kingside_right(us: Color) -> u8 {
    if us == Color::White {
        CASTLE_WK
    } else {
        CASTLE_BK
    }
}

pub open spec fn queenside_right(us: Color) -> u8 {
    if us == Color::White {
        CASTLE_WQ
    } else {
        CASTLE_BQ
    }
}

/// The king's steps onto squares of `filter` that no enemy attacks with the
/// king lifted off the board, then the castlings when not in check and not
/// generating captures only.
pub open spec fn king_gen(b: Board, us: Color, filter: u64, occ: u64, check: u64, kind: u8, m: Move) -> bool {
    let ks = king_at(b, us);
    ||| (m.from == ks && sq_in(king_spec(ks) & filter, m.to as int) && attackers_spec(
        b,
        m.to as int,
        occ ^ (1u64 << (ks as u8)),
        opposite(us),
    ) == 0 && m.promotion is None && m.flag == (if sq_in(occ, m.to as int) {
        MoveFlag::Capture
    } else {
        MoveFlag::Quiet
    }))
    ||| (check == 0 && kind != GEN_CAPTURES && b.castling & kingside_right(us) != 0 && can_castle_spec(b, us, true, occ)
        && m == (Move {
        from: ks as u8,
        to: castle_squares(us, true).1 as u8,
        promotion: None,
        flag: MoveFlag::CastleKing,
    }))
    ||| (check == 0 && kind != GEN_CAPTURES && b.castling & queenside_right(us) != 0 && can_castle_spec(b, us, false, occ)
        && m == (Move {
        from: ks as u8,
        to: castle_squares(us, false).1 as u8,
        promotion: None,
        flag: MoveFlag::CastleQueen,
    }))
}

/// The king's step onto `to`, when no enemy attacks `to` with the king lifted.
pub open spec fn king_step_fn(b: Board, us: Color, occ: u64) -> spec_fn(int) -> Seq<Move> {
    |to: int|
        if attackers_spec(b, to, occ ^ (1u64 << (king_at(b, us) as u8)), opposite(us)) == 0 {
            step_fn(king_at(b, us), occ)(to)
        } else {
            seq![]
        }
}

/// The king's moves in the generator's order: steps, lowest target first,
/// then castling on the king's side, then on the queen's.
pub open spec fn king_seq(b: Board, us: Color, filter: u64, occ: u64, check: u64, kind: u8) -> Seq<Move> {
    let ks = king_at(b, us);
    let open = check == 0 && kind != GEN_CAPTURES;
    scan(king_spec(ks) & filter, king_step_fn(b, us, occ), 64) + (if open && b.castling & kingside_right(us) != 0
        && can_castle_spec(b, us, true, occ) {
        seq![Move { from: ks as u8, to: castle_squares(us, true).1 as u8, promotion: None, flag: MoveFlag::CastleKing }]
    } else {
        seq![]
    }) + (if open && b.castling & queenside_right(us) != 0 && can_castle_spec(b, us, false, occ) {
        seq![Move { from: ks as u8, to: castle_squares(us, false).1 as u8, promotion: None, flag: MoveFlag::CastleQueen }]
    } else {
        seq![]
    })
}

fn gen_king(
    board: &Board,
    atk: &Attacks,
    us: Color,
    filter: Bitboard,
    occ: Bitboard,
    check: Bitboard,
    kind: u8,
    list: &mut Vec<Move>,
)
    requires
        atk.wf(),
        board.pieces[color_index(us)][5] != 0,
    ensures
        final(list)@ == old(list)@ + king_seq(*board, us, filter, occ, check, kind),
        final(list)@.subrange(0, old(list)@.len() as int) == old(list)@,
        final(list)@.len() >= old(list)@.len(),
        forall|m: Move| #[trigger] added(final(list)@, old(list)@.len() as int).contains(m) <==> king_gen(
            *board,
            us,
            filter,
            occ,
            check,
            kind,
            m,
        ),
        forall|m: Move| #[trigger] added(final(list)@, old(list)@.len() as int).contains(m) ==> m.from < 64 && m.to < 64,
{
    let ghost start = list@.len() as int;
    let king_sq = board.king_sq(us);
    proof {
        crate::bitboard::lemma_lsb(board.pieces[color_index(us)][5]);
    }
    let all_targets = atk.king[king_sq as usize] & filter;
    let mut targets = all_targets;
    let occ_noking = occ ^ bb(king_sq);
    let ghost kf = king_step_fn(*board, us, occ);
    let ghost mut next: int = 0;
    assert(added(list@, start) =~= Seq::<Move>::empty());
    assert(list@ =~= old(list)@ + scan(all_targets, kf, 0));
    while targets != 0
        invariant
            kf == king_step_fn(*board, us, occ),
            0 <= next <= 64,
            forall|q: int| #[trigger] sq_in(targets, q) <==> (sq_in(all_targets, q) && q >= next),
            list@ == old(list)@ + scan(all_targets, kf, next),
            atk.wf(),
            king_sq == king_at(*board, us),
            king_sq < 64,
            all_targets == king_spec(king_sq as int) & filter,
            occ_noking == occ ^ (1u64 << (king_sq as u8)),
            start <= list@.len(),
            list@.subrange(0, start) == old(list)@,
            start == old(list)@.len(),
            forall|s: int| #[trigger] sq_in(targets, s) ==> sq_in(all_targets, s),
            forall|m: Move| #[trigger] added(list@, start).contains(m) ==> m.from < 64 && m.to < 64,
            forall|m: Move| #[trigger] added(list@, start).contains(m) <==> (m.from == king_sq && sq_in(
                all_targets,
                m.to as int,
            ) && !sq_in(targets, m.to as int) && attackers_spec(*board, m.to as int, occ_noking, opposite(us)) == 0
                && m.promotion is None && m.flag == (if sq_in(occ, m.to as int) {
                MoveFlag::Capture
            } else {
                MoveFlag::Quiet
            })),
        decreases targets,
    {
        let ghost v = list@;
        let ghost prev = targets;
        let to = pop_lsb(&mut targets);
        if attackers(board, atk, to, occ_noking, us.opp()) == 0 {
            proof {
                lemma_single_and(occ, to);
            }
            let flag = if occ & bb(to) != 0 {
                MoveFlag::Capture
            } else {
                MoveFlag::Quiet
            };
            let mv = Move { from: king_sq, to, promotion: None, flag };
            list.push(mv);
            proof {
                lemma_added_push(v, start, mv);
                assert(list@.subrange(0, start) =~= v.subrange(0, start));
            }
        }
        assert forall|m: Move| #[trigger] added(list@, start).contains(m) <==> (m.from == king_sq && sq_in(
            all_targets,
            m.to as int,
        ) && !sq_in(targets, m.to as int) && attackers_spec(*board, m.to as int, occ_noking, opposite(us)) == 0
            && m.promotion is None && m.flag == (if sq_in(occ, m.to as int) {
            MoveFlag::Capture
        } else {
            MoveFlag::Quiet
        })) by {
            if m.to != to {
                assert(sq_in(targets, m.to as int) <==> sq_in(prev, m.to as int));
            }
        }
        proof {
            lemma_scan_next(all_targets, kf, next, to as int, prev);
            assert(list@ =~= old(list)@ + scan(all_targets, kf, to + 1));
            next = to + 1;
            assert forall|q: int| #[trigger] sq_in(targets, q) <==> (sq_in(all_targets, q) && q >= next) by {
                if q != to {
                    assert(sq_in(targets, q) <==> sq_in(prev, q));
                }
            }
        }
    }
    proof {
        assert forall|q: int| next <= q < 64 implies !#[trigger] sq_in(all_targets, q) by {
            crate::bitboard::lemma_sq_in_zero(q);
            assert(!sq_in(targets, q));
        }
        lemma_scan_done(all_targets, kf, next);
    }
    let ghost v1 = list@;
    proof {
        assert forall|m: Move| #[trigger] added(v1, start).contains(m) <==> (m.from == king_sq && sq_in(
            all_targets,
            m.to as int,
        ) && attackers_spec(*board, m.to as int, occ_noking, opposite(us)) == 0 && m.promotion is None && m.flag == (
        if sq_in(occ, m.to as int) {
            MoveFlag::Capture
        } else {
            MoveFlag::Quiet
        })) by {
            crate::bitboard::lemma_sq_in_zero(m.to as int);
        }
    }
    let ghost mid = list@.len() as int;
    assert(added(list@, mid) =~= Seq::<Move>::empty());
    if check == 0 && kind != GEN_CAPTURES {
        let (ks, qs) = match us {
            Color::White => (CASTLE_WK, CASTLE_WQ),
            Color::Black => (CASTLE_BK, CASTLE_BQ),
        };
        if board.castling & ks != 0 && can_castle(board, atk, us, true, occ) {
            let to: u8 = if us == Color::White {
                6
            } else {
                62
            };
            let ghost v = list@;
            let mv = Move { from: king_sq, to, promotion: None, flag: MoveFlag::CastleKing };
            list.push(mv);
            proof {
                lemma_added_push(v, mid, mv);
            }
        }
        let ghost mid2 = list@.len() as int;
        let ghost at_mid2 = list@;
        if board.castling & qs != 0 && can_castle(board, atk, us, false, occ) {
            let to: u8 = if us == Color::White {
                2
            } else {
                58
            };
            let mv = Move { from: king_sq, to, promotion: None, flag: MoveFlag::CastleQueen };
            list.push(mv);
            proof {
                lemma_added_push(at_mid2, mid, mv);
            }
        }
    }
    proof {
        assert(list@.subrange(0, v1.len() as int) =~= v1);
        lemma_chain(v1, list@, start);
        assert(list@ =~= old(list)@ + king_seq(*board, us, filter, occ, check, kind));
    }
}

/// The squares a move of the given kind may go to: enemy pieces for
/// captures, empty squares for quiet moves, anything not ours otherwise.
pub open spec fn gen_filter(b: Board, kind: u8) -> u64 {
    if kind == GEN_CAPTURES {
        b.occ_color[color_index(opposite(b.side))]
    } else if kind == GEN_QUIETS {
        !b.occ_all
    } else {
        !b.occ_color[color_index(b.side)]
    }
}

/// The enemy pieces giving check to the side to move.
pub open spec fn check_of(b: Board) -> u64 {
    attackers_spec(b, king_at(b, b.side), b.occ_all, opposite(b.side))
}

/// The filter for the pieces other than the king: in check, only the
/// checker's square and the squares between it and the king.
pub open spec fn evasion_filter(b: Board, kind: u8) -> u64 {
    if check_of(b) != 0 {
        gen_filter(b, kind) & (check_of(b) | between_spec(king_at(b, b.side), lsb(check_of(b))))
    } else {
        gen_filter(b, kind)
    }
}

/// The moves generated before pinned pieces are filtered: pawns and pieces
/// unless in double check, and the king.
pub open spec fn generated(b: Board, kind: u8, m: Move) -> bool {
    let us = b.side;
    let f = evasion_filter(b, kind);
    let occ = b.occ_all;
    ||| (!more_than_one_spec(check_of(b)) && (pawn_gen(b, us, f, occ, m) || piece_gen(b, us, 1, f, occ, m)
        || piece_gen(b, us, 2, f, occ, m) || piece_gen(b, us, 3, f, occ, m) || piece_gen(b, us, 4, f, occ, m)))
    ||| king_gen(b, us, gen_filter(b, kind), occ, check_of(b), kind, m)
}

/// `t` holds a piece pinned against the king of the side to move.
pub open spec fn is_pinned(b: Board, t: int) -> bool {
    exists|c: int|
        #[trigger] pins_one(b, king_at(b, b.side), b.occ_all, b.side, c) && sq_in(
            pin_between(b, king_at(b, b.side), b.occ_all, b.side, c),
            t,
        )
}

/// Some pinner has both `from` and `to` on its line to the king.
pub open spec fn pin_allows(b: Board, from: int, to: int) -> bool {
    let k = king_at(b, b.side);
    exists|p: int|
        #[trigger] pins_one(b, k, b.occ_all, b.side, p) && sq_in(between_spec(p, k) | (1u64 << (p as u64)), from)
            && sq_in(between_spec(p, k) | (1u64 << (p as u64)), to)
}

/// A generated move survives the pin filter.
pub open spec fn kept(b: Board, m: Move) -> bool {
    !is_pinned(b, m.from as int) || pin_allows(b, m.from as int, m.to as int)
}

/// The generated moves before the pin filter, in the generator's order:
/// pawns, knights, bishops, rooks, queens (none of them in double check),
/// then the king.
pub open spec fn gen_order(b: Board, kind: u8) -> Seq<Move> {
    let us = b.side;
    let f = evasion_filter(b, kind);
    let occ = b.occ_all;
    let ps = b.pieces[color_index(us)];
    (if !more_than_one_spec(check_of(b)) {
        pawn_seq(b, us, f, occ) + scan(ps[1], piece_fn(1, f, occ), 64) + scan(ps[2], piece_fn(2, f, occ), 64)
            + scan(ps[3], piece_fn(3, f, occ), 64) + scan(ps[4], piece_fn(4, f, occ), 64)
    } else {
        seq![]
    }) + king_seq(b, us, gen_filter(b, kind), occ, check_of(b), kind)
}

/// The pin filter as the generator runs it from index `i` on: a move that
/// the filter drops is replaced by the last move of the list, which is then
/// looked at in its place.
pub open spec fn unpin(b: Board, s: Seq<Move>, i: int) -> Seq<Move>
    decreases s.len() - i,
{
    if i < 0 || i >= s.len() {
        s
    } else if !kept(b, s[i]) {
        let t = s.drop_last();
        unpin(b, if i < t.len() { t.update(i, s.last()) } else { t }, i)
    } else {
        unpin(b, s, i + 1)
    }
}

/// When the filter keeps every move from `i` on, it changes nothing.
pub proof fn lemma_unpin_keeps_all(b: Board, s: Seq<Move>, i: int)
    requires
        0 <= i,
        forall|j: int| i <= j < s.len() ==> kept(b, #[trigger] s[j]),
    ensures
        unpin(b, s, i) == s,
    decreases s.len() - i,
{
    if i < s.len() {
        lemma_unpin_keeps_all(b, s, i + 1);
    }
}

fn gen_all(board: &Board, atk: &Attacks, kind: u8, check: Bitboard, filter: Bitboard, king_sq: Square) -> (list: Vec<Move>)
    requires
        atk.wf(),
        board.pieces[color_index(board.side)][5] != 0,
        ep_sane(*board),
        check == check_of(*board),
        filter == gen_filter(*board, kind),
        king_sq == king_at(*board, board.side),
        king_sq < 64,
    ensures
        list@ == gen_order(*board, kind),
        forall|m: Move| #[trigger] list@.contains(m) <==> generated(*board, kind, m),
        forall|m: Move| #[trigger] list@.contains(m) ==> m.from < 64 && m.to < 64,
{
    let us = board.side;
    let occ = board.occ_all;
    let mut list: Vec<Move> = Vec::new();
    let ghost ps = board.pieces[color_index(us)];
    if !more_than_one(check) {
        let mut f = filter;
        if check != 0 {
            proof {
                crate::bitboard::lemma_lsb(check);
            }
            let c = check.trailing_zeros() as usize;
            f = f & (check | atk.between[king_sq as usize][c]);
        }
        assert(f == evasion_filter(*board, kind));
        gen_pawns(board, atk, us, f, occ, &mut list);
        let ghost v1 = list@;
        gen_piece(board, atk, us, PieceType::Knight, f, occ, &mut list);
        let ghost v2 = list@;
        gen_piece(board, atk, us, PieceType::Bishop, f, occ, &mut list);
        let ghost v3 = list@;
        gen_piece(board, atk, us, PieceType::Rook, f, occ, &mut list);
        let ghost v4 = list@;
        gen_piece(board, atk, us, PieceType::Queen, f, occ, &mut list);
        proof {
            lemma_chain(v1, v2, 0);
            assert(v3.subrange(0, v2.len() as int) == v2);
            lemma_chain(v2, v3, 0);
            assert(v4.subrange(0, v3.len() as int) == v3);
            lemma_chain(v3, v4, 0);
            assert(list@.subrange(0, v4.len() as int) == v4);
            lemma_chain(v4, list@, 0);
        }
    }
    let ghost vp = list@;
    gen_king(board, atk, us, filter, occ, check, kind, &mut list);
    proof {
        lemma_chain(vp, list@, 0);
        assert forall|m: Move| #[trigger] list@.contains(m) <==> generated(*board, kind, m) by {
            assert(added(list@, 0) =~= list@);
            assert(added(vp, 0) =~= vp);
        }
        assert forall|m: Move| #[trigger] list@.contains(m) implies m.from < 64 && m.to < 64 by {
            assert(added(list@, 0) =~= list@);
            assert(added(vp, 0) =~= vp);
        }
    }
    list
}

fn drop_pinned(board: &Board, atk: &Attacks, king_sq: Square, pinned: Bitboard, pinners: Bitboard, list: &mut Vec<Move>)
    requires
        atk.wf(),
        king_sq == king_at(*board, board.side),
        king_sq < 64,
        pins_ok(*board, king_sq as int, board.occ_all, board.side, pinned, pinners),
        forall|m: Move| #[trigger] old(list)@.contains(m) ==> m.from < 64 && m.to < 64,
    ensures
        final(list)@ == unpin(*board, old(list)@, 0),
        forall|m: Move| #[trigger] final(list)@.contains(m) <==> (old(list)@.contains(m) && kept(*board, m)),
{
    let ghost us = board.side;
    let ghost occ = board.occ_all;
    let ghost orig = list@;
    let mut i: usize = 0;
    while i < list.len()
        invariant
            atk.wf(),
            king_sq == king_at(*board, board.side),
            king_sq < 64,
            us == board.side,
            occ == board.occ_all,
            pins_ok(*board, king_sq as int, occ, us, pinned, pinners),
            i <= list@.len(),
            unpin(*board, list@, i as int) == unpin(*board, orig, 0),
            forall|j: int| 0 <= j < i ==> kept(*board, #[trigger] list@[j]),
            forall|m: Move| #[trigger] list@.contains(m) ==> orig.contains(m),
            forall|m: Move| orig.contains(m) && kept(*board, m) ==> #[trigger] list@.contains(m),
            forall|m: Move| #[trigger] orig.contains(m) ==> m.from < 64 && m.to < 64,
        decreases list@.len() - i,
    {
        let m = list[i];
        assert(list@.contains(m));
        proof {
            lemma_single_and(pinned, m.from);
            assert(sq_in(pinned, m.from as int) <==> is_pinned(*board, m.from as int));
        }
        let ok = pinned_move_ok(atk, m.from, m.to, pinners, king_sq);
        proof {
            assert(ok <==> pin_allows(*board, m.from as int, m.to as int)) by {
                if ok {
                    let p = choose|p: int|
                        #[trigger] sq_in(pinners, p) && sq_in(between_spec(p, king_sq as int) | (1u64 << (p as u64)), m.from as int)
                            && sq_in(between_spec(p, king_sq as int) | (1u64 << (p as u64)), m.to as int);
                    assert(pins_one(*board, king_sq as int, occ, us, p));
                }
                if pin_allows(*board, m.from as int, m.to as int) {
                    let p = choose|p: int|
                        #[trigger] pins_one(*board, king_sq as int, occ, us, p) && sq_in(
                            between_spec(p, king_sq as int) | (1u64 << (p as u64)),
                            m.from as int,
                        ) && sq_in(between_spec(p, king_sq as int) | (1u64 << (p as u64)), m.to as int);
                    assert(sq_in(pinners, p));
                }
            }
        }
        if bb(m.from) & pinned != 0 && !ok {
            let ghost before = list@;
            let last = list.pop().unwrap();
            if i < list.len() {
                list.set(i, last);
            }
            proof {
                assert(!kept(*board, m));
                assert(list@ == (if (i as int) < before.drop_last().len() {
                    before.drop_last().update(i as int, before.last())
                } else {
                    before.drop_last()
                }));
                assert forall|x: Move| #[trigger] list@.contains(x) implies orig.contains(x) by {
                    let j = choose|j: int| 0 <= j < list@.len() && list@[j] == x;
                    if j == i {
                        assert(before[before.len() - 1] == x);
                    } else {
                        assert(before[j] == x);
                    }
                    assert(before.contains(x));
                }
                assert forall|x: Move| orig.contains(x) && kept(*board, x) implies #[trigger] list@.contains(x) by {
                    assert(before.contains(x));
                    let j = choose|j: int| 0 <= j < before.len() && before[j] == x;
                    if j == before.len() - 1 {
                        assert(j != i);
                        assert(list@[i as int] == x);
                    } else {
                        assert(j != i);
                        assert(list@[j] == x);
                    }
                }
                assert forall|j: int| 0 <= j < i implies kept(*board, #[trigger] list@[j]) by {
                    assert(list@[j] == before[j]);
                }
            }
        } else {
            i = i + 1;
        }
    }
    proof {
        lemma_unpin_keeps_all(*board, list@, i as int);
        assert forall|m: Move| #[trigger] list@.contains(m) implies kept(*board, m) by {
            let j = choose|j: int| 0 <= j < list@.len() && list@[j] == m;
        }
    }
}

/// The moves of the side to move of the given kind (`GEN_LEGAL`,
/// `GEN_CAPTURES` or `GEN_QUIETS`): every generated move that the pin filter
/// keeps, and no other, in the order of `gen_order` as the pin filter leaves it.
pub fn generate(board: &Board, atk: &Attacks, kind: u8) -> (list: Vec<Move>)
    requires
        atk.wf(),
        board.pieces[color_index(board.side)][5] != 0,
        ep_sane(*board),
    ensures
        list@ == unpin(*board, gen_order(*board, kind), 0),
        forall|m: Move| #[trigger] list@.contains(m) <==> (generated(*board, kind, m) && kept(*board, m)),
        forall|m: Move| #[trigger] list@.contains(m) ==> m.from < 64 && m.to < 64,
{
    let us = board.side;
    let them = us.opp();
    let occ = board.occ_all;
    let king_sq = board.king_sq(us);
    proof {
        crate::bitboard::lemma_lsb(board.pieces[color_index(us)][5]);
    }
    let (pinned, pinners) = pins(board, atk, king_sq, occ, us);
    let check = checkers(board, atk, us);
    let filter = match kind {
        GEN_CAPTURES => board.occ_color[them.idx()],
        GEN_QUIETS => !occ,
        _ => !board.occ_color[us.idx()],
    };
    assert(filter == gen_filter(*board, kind));
    let mut list = gen_all(board, atk, kind, check, filter, king_sq);
    if pinned != 0 {
        drop_pinned(board, atk, king_sq, pinned, pinners, &mut list);
    } else {
        proof {
            assert forall|t: int| !is_pinned(*board, t) by {
                crate::bitboard::lemma_sq_in_zero(t);
                if is_pinned(*board, t) {
                    assert(sq_in(pinned, t));
                }
            }
            assert forall|j: int| 0 <= j < list@.len() implies kept(*board, #[trigger] list@[j]) by {}
            lemma_unpin_keeps_all(*board, list@, 0);
        }
    }
    list
}

} // verus!
