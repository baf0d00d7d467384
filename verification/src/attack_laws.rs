//! Attack sets are symmetric: a piece on `t` attacks `s` exactly when the
//! same kind of piece of the other colour on `s` attacks `t`, under the same
//! occupancy. From it, what `attackers` returns is exactly the pieces whose
//! own attack set holds the square.
use vstd::prelude::*;
use crate::attacks::{bishop_spec, king_spec, knight_spec, on_board, pawn_dir, pawn_spec, queen_spec, ray, rook_spec, sq_bit};
use crate::bitboard::sq_in;
use crate::board::Board;
use crate::ordered_movegen::{attackers_spec, lemma_nonzero_has_square};
use crate::types::{color_index, opposite, Color};

verus! {

/// The square of (file, rank).
pub open spec fn sq_of(f: int, r: int) -> int {
    r * 8 + f
}

pub broadcast proof fn lemma_sq_bit_in(f: int, r: int, t: int)
    ensures
        #[trigger] sq_in(sq_bit(f, r), t) <==> (on_board(f, r) && t == sq_of(f, r)),
{
    broadcast use crate::bitboard::group_bitboard;

    if on_board(f, r) {
        assert(((r * 8 + f) as u64) < 64);
        assert(sq_in(1u64 << ((r * 8 + f) as u64), t) <==> t == ((r * 8 + f) as u64));
    } else {
        assert(!sq_in(0u64, t));
    }
}

proof fn lemma_occ_bit(occ: u64, f: int, r: int)
    requires
        on_board(f, r),
    ensures
        (occ & sq_bit(f, r) != 0) <==> sq_in(occ, sq_of(f, r)),
{
    broadcast use crate::bitboard::group_bitboard, lemma_sq_bit_in;

    lemma_nonzero_has_square(occ & sq_bit(f, r));
    if occ & sq_bit(f, r) != 0 {
        let t = choose|t: int| sq_in(occ & sq_bit(f, r), t);
        assert(sq_in(sq_bit(f, r), t));
    }
    if sq_in(occ, sq_of(f, r)) {
        assert(sq_in(occ & sq_bit(f, r), sq_of(f, r)));
    }
}

/// A ray of at least one step holds its first square, when that is on the board.
proof fn lemma_ray_first(f: int, r: int, df: int, dr: int, occ: u64, n: nat)
    requires
        n >= 1,
        on_board(f + df, r + dr),
    ensures
        sq_in(ray(f, r, df, dr, occ, n), sq_of(f + df, r + dr)),
{
    broadcast use crate::bitboard::group_bitboard, lemma_sq_bit_in;

}

/// A ray reaching an empty square goes one step further with one more step allowed.
proof fn lemma_ray_extend(tf: int, tr: int, ef: int, er: int, occ: u64, m: nat, xf: int, xr: int)
    requires
        on_board(xf, xr),
        sq_in(ray(tf, tr, ef, er, occ, m), sq_of(xf, xr)),
        !sq_in(occ, sq_of(xf, xr)),
        on_board(xf + ef, xr + er),
    ensures
        sq_in(ray(tf, tr, ef, er, occ, m + 1), sq_of(xf + ef, xr + er)),
    decreases m,
{
    broadcast use crate::bitboard::group_bitboard, lemma_sq_bit_in;

    let nf = tf + ef;
    let nr = tr + er;
    assert(m >= 1);
    assert(on_board(nf, nr));
    lemma_occ_bit(occ, nf, nr);
    if occ & sq_bit(nf, nr) != 0 {
        assert(sq_of(xf, xr) == sq_of(nf, nr));
        assert(false);
    }
    if xf == nf && xr == nr {
        lemma_ray_first(nf, nr, ef, er, occ, m);
    } else {
        assert(sq_in(ray(nf, nr, ef, er, occ, (m - 1) as nat), sq_of(xf, xr)));
        lemma_ray_extend(nf, nr, ef, er, occ, (m - 1) as nat, xf, xr);
        assert((((m - 1) as nat) + 1) as nat == m);
    }
}

/// If a ray from `(f, r)` reaches `(xf, xr)`, the opposite ray from
/// `(xf, xr)` reaches `(f, r)`: the squares between are the same.
proof fn lemma_ray_sym(f: int, r: int, df: int, dr: int, occ: u64, n: nat, xf: int, xr: int)
    requires
        on_board(f, r),
        on_board(xf, xr),
        sq_in(ray(f, r, df, dr, occ, n), sq_of(xf, xr)),
    ensures
        sq_in(ray(xf, xr, -df, -dr, occ, n), sq_of(f, r)),
    decreases n,
{
    broadcast use crate::bitboard::group_bitboard, lemma_sq_bit_in;

    let nf = f + df;
    let nr = r + dr;
    assert(n >= 1);
    assert(on_board(nf, nr));
    lemma_occ_bit(occ, nf, nr);
    if xf == nf && xr == nr {
        lemma_ray_first(xf, xr, -df, -dr, occ, n);
    } else {
        assert(occ & sq_bit(nf, nr) == 0);
        assert(sq_in(ray(nf, nr, df, dr, occ, (n - 1) as nat), sq_of(xf, xr)));
        lemma_ray_sym(nf, nr, df, dr, occ, (n - 1) as nat, xf, xr);
        lemma_ray_extend(xf, xr, -df, -dr, occ, (n - 1) as nat, nf, nr);
        assert((((n - 1) as nat) + 1) as nat == n);
    }
}

proof fn lemma_coords(s: int)
    requires
        0 <= s < 64,
    ensures
        on_board(s % 8, s / 8),
        s == sq_of(s % 8, s / 8),
{
}

/// A rook on `s` attacks `t` exactly when a rook on `t` attacks `s`.
pub proof fn lemma_rook_sym(s: int, t: int, occ: u64)
    requires
        0 <= s < 64,
        0 <= t < 64,
        sq_in(rook_spec(s, occ), t),
    ensures
        sq_in(rook_spec(t, occ), s),
{
    broadcast use crate::bitboard::group_bitboard;

    lemma_coords(s);
    lemma_coords(t);
    let (f, r, tf, tr) = (s % 8, s / 8, t % 8, t / 8);
    if sq_in(ray(f, r, 1, 0, occ, 7), t) {
        lemma_ray_sym(f, r, 1, 0, occ, 7, tf, tr);
    } else if sq_in(ray(f, r, -1, 0, occ, 7), t) {
        lemma_ray_sym(f, r, -1, 0, occ, 7, tf, tr);
    } else if sq_in(ray(f, r, 0, 1, occ, 7), t) {
        lemma_ray_sym(f, r, 0, 1, occ, 7, tf, tr);
    } else {
        lemma_ray_sym(f, r, 0, -1, occ, 7, tf, tr);
    }
}

/// A bishop on `s` attacks `t` exactly when a bishop on `t` attacks `s`.
pub proof fn lemma_bishop_sym(s: int, t: int, occ: u64)
    requires
        0 <= s < 64,
        0 <= t < 64,
        sq_in(bishop_spec(s, occ), t),
    ensures
        sq_in(bishop_spec(t, occ), s),
{
    broadcast use crate::bitboard::group_bitboard;

    lemma_coords(s);
    lemma_coords(t);
    let (f, r, tf, tr) = (s % 8, s / 8, t % 8, t / 8);
    if sq_in(ray(f, r, 1, 1, occ, 7), t) {
        lemma_ray_sym(f, r, 1, 1, occ, 7, tf, tr);
    } else if sq_in(ray(f, r, 1, -1, occ, 7), t) {
        lemma_ray_sym(f, r, 1, -1, occ, 7, tf, tr);
    } else if sq_in(ray(f, r, -1, 1, occ, 7), t) {
        lemma_ray_sym(f, r, -1, 1, occ, 7, tf, tr);
    } else {
        lemma_ray_sym(f, r, -1, -1, occ, 7, tf, tr);
    }
}

proof fn lemma_knight_to(s: int, t: int)
    requires
        0 <= s < 64,
        0 <= t < 64,
        sq_in(knight_spec(s), t),
    ensures
        sq_in(knight_spec(t), s),
{
    broadcast use crate::bitboard::group_bitboard, lemma_sq_bit_in;

    lemma_coords(s);
    lemma_coords(t);
}

proof fn lemma_king_to(s: int, t: int)
    requires
        0 <= s < 64,
        0 <= t < 64,
        sq_in(king_spec(s), t),
    ensures
        sq_in(king_spec(t), s),
{
    broadcast use crate::bitboard::group_bitboard, lemma_sq_bit_in;

    lemma_coords(s);
    lemma_coords(t);
}

proof fn lemma_pawn_to(s: int, t: int, c: Color)
    requires
        0 <= s < 64,
        0 <= t < 64,
        sq_in(pawn_spec(s, opposite(c)), t),
    ensures
        sq_in(pawn_spec(t, c), s),
{
    broadcast use crate::bitboard::group_bitboard, lemma_sq_bit_in;

    lemma_coords(s);
    lemma_coords(t);
    assert(pawn_dir(opposite(c)) == -pawn_dir(c));
}

/// The knight, king and pawn tables are symmetric the same way; a pawn's
/// colour swaps.
pub proof fn lemma_leaper_sym(s: int, t: int, c: Color)
    requires
        0 <= s < 64,
        0 <= t < 64,
    ensures
        sq_in(knight_spec(s), t) <==> sq_in(knight_spec(t), s),
        sq_in(king_spec(s), t) <==> sq_in(king_spec(t), s),
        sq_in(pawn_spec(s, opposite(c)), t) <==> sq_in(pawn_spec(t, c), s),
{
    if sq_in(knight_spec(s), t) {
        lemma_knight_to(s, t);
    }
    if sq_in(knight_spec(t), s) {
        lemma_knight_to(t, s);
    }
    if sq_in(king_spec(s), t) {
        lemma_king_to(s, t);
    }
    if sq_in(king_spec(t), s) {
        lemma_king_to(t, s);
    }
    if sq_in(pawn_spec(s, opposite(c)), t) {
        lemma_pawn_to(s, t, c);
    }
    if sq_in(pawn_spec(t, c), s) {
        assert(opposite(opposite(c)) == c);
        lemma_pawn_to(t, s, opposite(c));
    }
}

/// What `attackers` gives under an occupancy `occ` is exactly the pieces of
/// `by` whose own attack set from their square, under `occ`, holds `s` (a
/// queen counting as rook and bishop).
pub proof fn lemma_attackers_attack(b: Board, s: int, occ: u64, by: Color, t: int)
    requires
        0 <= s < 64,
    ensures
        sq_in(attackers_spec(b, s, occ, by), t) <==> ({
            let p = b.pieces[color_index(by)];
            ||| sq_in(p[0], t) && sq_in(pawn_spec(t, by), s)
            ||| sq_in(p[1], t) && sq_in(knight_spec(t), s)
            ||| sq_in(p[2], t) && sq_in(bishop_spec(t, occ), s)
            ||| sq_in(p[3], t) && sq_in(rook_spec(t, occ), s)
            ||| sq_in(p[4], t) && sq_in(queen_spec(t, occ), s)
            ||| sq_in(p[5], t) && sq_in(king_spec(t), s)
        }),
{
    broadcast use crate::bitboard::group_bitboard;

    if 0 <= t < 64 {
        lemma_leaper_sym(s, t, by);
        if sq_in(bishop_spec(s, occ), t) {
            lemma_bishop_sym(s, t, occ);
        }
        if sq_in(bishop_spec(t, occ), s) {
            lemma_bishop_sym(t, s, occ);
        }
        if sq_in(rook_spec(s, occ), t) {
            lemma_rook_sym(s, t, occ);
        }
        if sq_in(rook_spec(t, occ), s) {
            lemma_rook_sym(t, s, occ);
        }
    }
}

} // verus!
