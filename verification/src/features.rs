//! Input features of the threats network, from one perspective.
//!
//! Pieces, 22528 = 32 king buckets x 704: each bucket holds 11 planes of 64
//! squares; plane 0 is the enemy king (our own king picks the bucket), planes
//! 1-5 our queen down to pawn, 6-10 theirs. Threats, 9216 = side(2) x
//! relation(2) x attacker(6) x victim(6) x square(64), where relation 0 is
//! "attacked by" and 1 is "defended by". Both sets feed the same first layer.
use vstd::prelude::*;
use vstd::string::StringSliceAdditionalSpecFns;
use crate::attacks::{bishop_spec, king_spec, knight_spec, pawn_spec, queen_spec, rook_spec};
use crate::bitboard::{lsb, sq_in, Bitboard};
use crate::types::{color_of_index, Square};
use vstd::arithmetic::div_mod::lemma_fundamental_div_mod_converse;

verus! {

pub const THREAT_FEATURES_FULL: usize = 9216;
pub const PIECE_FEATURES: usize = 22528;
pub const TOTAL_INPUTS_V10: usize = 31744;
pub const THREAT_FEATURES_640: usize = 640;
pub const TOTAL_INPUTS_NONE: usize = 22528;
pub const TOTAL_INPUTS_640: usize = 23168;

/// The index of a full threat feature.
pub open spec fn threat_full_spec(side: int, rel: int, att: int, vic: int, sq: int) -> int {
    (((side * 2 + rel) * 6 + att) * 6 + vic) * 64 + sq
}

/// The index of a threat feature of the 640-wide set.
pub open spec fn threat_640_spec(dir: int, victim: int, sq: int) -> int {
    (dir * 5 + victim) * 64 + sq
}

pub fn make_threat_full(side: usize, rel: usize, att: usize, vic: usize, sq: usize) -> (r: usize)
    requires
        threat_full_spec(side as int, rel as int, att as int, vic as int, sq as int) <= usize::MAX,
    ensures
        r == threat_full_spec(side as int, rel as int, att as int, vic as int, sq as int),
{
    proof {
        let a = side * 2 + rel;
        let b = a * 6 + att;
        let c = b * 6 + vic;
        assert(side * 2 <= a * 6 * 6 * 64) by (nonlinear_arith)
            requires
                a == side * 2 + rel,
                rel >= 0,
                side >= 0,
        ;
        assert(a * 6 <= b * 6 * 64) by (nonlinear_arith)
            requires
                b == a * 6 + att,
                att >= 0,
                a >= 0,
        ;
        assert(a * 6 * 6 * 64 <= b * 6 * 64) by (nonlinear_arith)
            requires
                b == a * 6 + att,
                att >= 0,
                a >= 0,
        ;
        assert(b * 6 <= c * 64) by (nonlinear_arith)
            requires
                c == b * 6 + vic,
                vic >= 0,
                b >= 0,
        ;
        assert(b * 6 * 64 <= c * 64) by (nonlinear_arith)
            requires
                c == b * 6 + vic,
                vic >= 0,
                b >= 0,
        ;
    }
    (((side * 2 + rel) * 6 + att) * 6 + vic) * 64 + sq
}

pub fn make_threat_640(dir: usize, victim: usize, sq: usize) -> (r: usize)
    requires
        threat_640_spec(dir as int, victim as int, sq as int) <= usize::MAX,
    ensures
        r == threat_640_spec(dir as int, victim as int, sq as int),
{
    proof {
        let a = dir * 5 + victim;
        assert(dir * 5 <= a * 64) by (nonlinear_arith)
            requires
                a == dir * 5 + victim,
                victim >= 0,
                dir >= 0,
        ;
    }
    (dir * 5 + victim) * 64 + sq
}

/// The plane of a non-king piece kind (pawn 0 .. queen 4) among one side's
/// five: queen first, pawn last.
pub open spec fn piece_idx_spec(pt: int) -> int {
    if pt == 0 {
        5
    } else if pt == 1 {
        4
    } else if pt == 2 {
        3
    } else if pt == 3 {
        2
    } else if pt == 4 {
        1
    } else {
        0
    }
}

pub fn piece_idx(pt: usize) -> (r: usize)
    ensures
        r == piece_idx_spec(pt as int),
{
    match pt {
        0 => 5,
        1 => 4,
        2 => 3,
        3 => 2,
        4 => 1,
        _ => 0,
    }
}

/// A position as twelve bitboards, `[colour][kind]`: colour 0 is White,
/// kinds pawn 0 .. king 5.
#[derive(Clone, Copy)]
pub struct Pos {
    pub pieces: [[u64; 6]; 2],
}

/// Every occupied square.
pub open spec fn occ_spec(p: [[u64; 6]; 2]) -> u64 {
    p[0][0] | p[0][1] | p[0][2] | p[0][3] | p[0][4] | p[0][5] | p[1][0] | p[1][1] | p[1][2] | p[1][3]
        | p[1][4] | p[1][5]
}

impl Pos {
    pub fn occ(&self) -> (o: u64)
        ensures
            o == occ_spec(self.pieces),
    {
        let mut o: u64 = 0;
        let mut c: usize = 0;
        while c < 2
            invariant
                c <= 2,
                c == 0 ==> o == 0,
                c == 1 ==> o == 0 | self.pieces[0][0] | self.pieces[0][1] | self.pieces[0][2]
                    | self.pieces[0][3] | self.pieces[0][4] | self.pieces[0][5],
                c == 2 ==> o == 0 | self.pieces[0][0] | self.pieces[0][1] | self.pieces[0][2]
                    | self.pieces[0][3] | self.pieces[0][4] | self.pieces[0][5] | self.pieces[1][0]
                    | self.pieces[1][1] | self.pieces[1][2] | self.pieces[1][3] | self.pieces[1][4]
                    | self.pieces[1][5],
            decreases 2 - c,
        {
            o = o | self.pieces[c][0] | self.pieces[c][1] | self.pieces[c][2] | self.pieces[c][3]
                | self.pieces[c][4] | self.pieces[c][5];
            c = c + 1;
        }
        proof {
            crate::attacks::lemma_or_facts(self.pieces[0][0], 0, 0);
        }
        o
    }
}

/// A square seen from `persp`: Black sees the board flipped top to bottom.
pub open spec fn persp_sq(persp: int, s: int) -> int {
    if persp == 0 {
        s
    } else {
        (7 - s / 8) * 8 + s % 8
    }
}

proof fn lemma_flip(s: usize)
    requires
        s < 64,
    ensures
        s ^ 56 == (7 - s / 8) * 8 + s % 8,
        s ^ 56 < 64,
{
    assert(s ^ 56 == (7 - s / 8) * 8 + s % 8 && s ^ 56 < 64) by (bit_vector)
        requires
            s < 64,
    ;
}

fn flip_for(persp: usize, s: usize) -> (r: usize)
    requires
        s < 64,
    ensures
        r == persp_sq(if persp == 0 {
            0
        } else {
            1
        }, s as int),
        r < 64,
{
    proof {
        lemma_flip(s);
    }
    if persp == 0 {
        s
    } else {
        s ^ 56
    }
}

/// The squares attacked by a piece of colour `c` and kind `t` on `s`.
pub open spec fn piece_attack_spec(c: int, t: int, s: int, occ: u64) -> u64 {
    if t == 0 {
        pawn_spec(s, color_of_index(c))
    } else if t == 1 {
        knight_spec(s)
    } else if t == 2 {
        bishop_spec(s, occ)
    } else if t == 3 {
        rook_spec(s, occ)
    } else if t == 4 {
        queen_spec(s, occ)
    } else {
        king_spec(s)
    }
}

/// `x` is attacked by some piece of the set `from` (colour `c`, kind `t`).
pub open spec fn attacked_from(from: u64, c: int, t: int, occ: u64, x: int) -> bool {
    exists|s: int| sq_in(from, s) && #[trigger] sq_in(piece_attack_spec(c, t, s, occ), x)
}

/// The attack maps by colour and kind: for pawns to queens every square some
/// piece of the kind attacks; for the king, the squares around the lowest
/// king of the colour (none if it has no king).
pub open spec fn attack_maps_ok(m: [[u64; 6]; 2], pos: Pos) -> bool {
    &&& forall|c: int, t: int, x: int|
        0 <= c < 2 && 0 <= t < 5 ==> (#[trigger] sq_in(m[c][t], x) <==> attacked_from(
            pos.pieces[c][t],
            c,
            t,
            occ_spec(pos.pieces),
            x,
        ))
    &&& forall|c: int|
        0 <= c < 2 ==> #[trigger] m[c][5] == (if pos.pieces[c][5] == 0 {
            0
        } else {
            king_spec(lsb(pos.pieces[c][5]))
        })
}

/// The attack maps of a position (`attack_maps_ok` leaves one choice).
pub open spec fn attack_maps_of(pos: Pos) -> [[u64; 6]; 2] {
    choose|m: [[u64; 6]; 2]| attack_maps_ok(m, pos)
}

/// Maps that `attack_maps_ok` accepts are the attack maps of the position.
pub proof fn lemma_attack_maps_unique(m: [[u64; 6]; 2], pos: Pos)
    requires
        attack_maps_ok(m, pos),
    ensures
        m == attack_maps_of(pos),
{
    let m2 = attack_maps_of(pos);
    assert(attack_maps_ok(m2, pos));
    assert forall|c: int| 0 <= c < 2 implies #[trigger] m[c] =~= m2[c] by {
        assert forall|t: int| 0 <= t < 6 implies m[c][t] == m2[c][t] by {
            if t < 5 {
                assert forall|x: int| 0 <= x < 64 implies sq_in(m[c][t], x) == sq_in(m2[c][t], x) by {
                    assert(sq_in(m[c][t], x) <==> attacked_from(pos.pieces[c][t], c, t, occ_spec(pos.pieces), x));
                    assert(sq_in(m2[c][t], x) <==> attacked_from(pos.pieces[c][t], c, t, occ_spec(pos.pieces), x));
                }
                crate::bitboard::lemma_bits_equal(m[c][t], m2[c][t]);
            }
        }
    }
    assert(m =~= m2);
}

fn attacks_of(c: usize, t: usize, s: Square, occ: u64) -> (r: u64)
    requires
        c < 2,
        t < 6,
        s < 64,
    ensures
        r == piece_attack_spec(c as int, t as int, s as int, occ),
{
    if t == 0 {
        crate::attacks::pawn_attacks_from(s, crate::fen::color_from_index(c))
    } else if t == 1 {
        crate::attacks::knight_attacks_from(s)
    } else if t == 2 {
        crate::attacks::bishop_attacks(s, occ)
    } else if t == 3 {
        crate::attacks::rook_attacks(s, occ)
    } else if t == 4 {
        crate::attacks::queen_attacks(s, occ)
    } else {
        crate::attacks::king_attacks_from(s)
    }
}

/// Every square attacked by some piece of `from`.
fn union_attacks(from: u64, c: usize, t: usize, occ: u64) -> (a: u64)
    requires
        c < 2,
        t < 6,
    ensures
        forall|x: int| #[trigger] sq_in(a, x) <==> attacked_from(from, c as int, t as int, occ, x),
{
    broadcast use crate::bitboard::group_bitboard;

    let mut a: u64 = 0;
    let mut bb = from;
    while bb != 0
        invariant
            c < 2,
            t < 6,
            forall|s: int| #[trigger] sq_in(bb, s) ==> sq_in(from, s),
            forall|x: int|
                #[trigger] sq_in(a, x) <==> exists|s: int|
                    sq_in(from, s) && !sq_in(bb, s) && #[trigger] sq_in(
                        piece_attack_spec(c as int, t as int, s, occ),
                        x,
                    ),
        decreases bb,
    {
        let ghost prev_a = a;
        let ghost prev_bb = bb;
        let s = crate::bitboard::pop_lsb(&mut bb);
        let at = attacks_of(c, t, s, occ);
        a = a | at;
        assert forall|x: int| #[trigger] sq_in(a, x) <==> exists|q: int|
            sq_in(from, q) && !sq_in(bb, q) && #[trigger] sq_in(
                piece_attack_spec(c as int, t as int, q, occ),
                x,
            ) by {
            crate::bitboard::lemma_sq_in_or(prev_a, at, x);
            if sq_in(at, x) {
                assert(sq_in(from, s as int) && !sq_in(bb, s as int));
            }
            if exists|q: int|
                sq_in(from, q) && !sq_in(bb, q) && #[trigger] sq_in(
                    piece_attack_spec(c as int, t as int, q, occ),
                    x,
                ) {
                let q = choose|q: int|
                    sq_in(from, q) && !sq_in(bb, q) && #[trigger] sq_in(
                        piece_attack_spec(c as int, t as int, q, occ),
                        x,
                    );
                if q != s {
                    assert(!sq_in(prev_bb, q));
                }
            }
        }
    }
    a
}

/// The attack maps of both colours, by kind.
pub fn compute_attack_maps_by_type(pos: &Pos) -> (m: [[u64; 6]; 2])
    ensures
        attack_maps_ok(m, *pos),
        m == attack_maps_of(*pos),
{
    let occ = pos.occ();
    let mut m = [[0u64; 6]; 2];
    let mut c: usize = 0;
    while c < 2
        invariant
            c <= 2,
            occ == occ_spec(pos.pieces),
            forall|cc: int, t: int, x: int|
                0 <= cc < c && 0 <= t < 5 ==> (#[trigger] sq_in(m[cc][t], x) <==> attacked_from(
                    pos.pieces[cc][t],
                    cc,
                    t,
                    occ,
                    x,
                )),
            forall|cc: int|
                0 <= cc < c ==> #[trigger] m[cc][5] == (if pos.pieces[cc][5] == 0 {
                    0
                } else {
                    king_spec(lsb(pos.pieces[cc][5]))
                }),
        decreases 2 - c,
    {
        let mut row = [0u64; 6];
        let mut t: usize = 0;
        while t < 5
            invariant
                c < 2,
                t <= 5,
                forall|tt: int, x: int|
                    0 <= tt < t ==> (#[trigger] sq_in(row[tt], x) <==> attacked_from(
                        pos.pieces[c as int][tt],
                        c as int,
                        tt,
                        occ,
                        x,
                    )),
            decreases 5 - t,
        {
            row[t] = union_attacks(pos.pieces[c][t], c, t, occ);
            t = t + 1;
        }
        let kings = pos.pieces[c][5];
        row[5] = if kings != 0 {
            let ks = crate::endgame::low_square(kings);
            crate::attacks::king_attacks_from(ks)
        } else {
            0
        };
        m[c] = row;
        c = c + 1;
    }
    proof {
        assert(attack_maps_ok(m, *pos));
        lemma_attack_maps_unique(m, *pos);
    }
    m
}

/// Pushing `x` adds exactly `x`, and keeps a sequence free of repeats when
/// `x` was not in it.
pub proof fn lemma_push_keeps<A>(s: Seq<A>, x: A)
    ensures
        forall|y: A| #[trigger] s.push(x).contains(y) <==> (s.contains(y) || y == x),
        s.no_duplicates() && !s.contains(x) ==> s.push(x).no_duplicates(),
{
    assert forall|y: A| #[trigger] s.push(x).contains(y) <==> (s.contains(y) || y == x) by {
        if s.push(x).contains(y) {
            let i = choose|i: int| 0 <= i < s.push(x).len() && s.push(x)[i] == y;
            if i < s.len() {
                assert(s[i] == y);
            }
        }
        if s.contains(y) {
            let i = choose|i: int| 0 <= i < s.len() && s[i] == y;
            assert(s.push(x)[i] == y);
        }
        if y == x {
            assert(s.push(x)[s.len() as int] == y);
        }
    }
    if s.no_duplicates() && !s.contains(x) {
        assert forall|i: int, j: int| 0 <= i < s.push(x).len() && 0 <= j < s.push(x).len() && i != j implies s.push(
            x,
        )[i] != s.push(x)[j] by {
            if i < s.len() && j == s.len() {
                assert(s.contains(s[i]));
            }
            if j < s.len() && i == s.len() {
                assert(s.contains(s[j]));
            }
        }
    }
}

/// Concatenation holds what either part holds, and has no repeats when the
/// parts have none and share nothing.
pub proof fn lemma_concat_keeps<A>(a: Seq<A>, b: Seq<A>)
    ensures
        forall|y: A| #[trigger] (a + b).contains(y) <==> (a.contains(y) || b.contains(y)),
        a.no_duplicates() && b.no_duplicates() && (forall|y: A| a.contains(y) ==> !b.contains(y)) ==> (a
            + b).no_duplicates(),
{
    assert forall|y: A| #[trigger] (a + b).contains(y) <==> (a.contains(y) || b.contains(y)) by {
        if (a + b).contains(y) {
            let i = choose|i: int| 0 <= i < (a + b).len() && (a + b)[i] == y;
            if i < a.len() {
                assert(a[i] == y);
            } else {
                assert(b[i - a.len()] == y);
            }
        }
        if a.contains(y) {
            let i = choose|i: int| 0 <= i < a.len() && a[i] == y;
            assert((a + b)[i] == y);
        }
        if b.contains(y) {
            let i = choose|i: int| 0 <= i < b.len() && b[i] == y;
            assert((a + b)[a.len() + i] == y);
        }
    }
    if a.no_duplicates() && b.no_duplicates() && (forall|y: A| a.contains(y) ==> !b.contains(y)) {
        assert forall|i: int, j: int| 0 <= i < (a + b).len() && 0 <= j < (a + b).len() && i != j implies (a
            + b)[i] != (a + b)[j] by {
            if i < a.len() && j >= a.len() {
                assert(a.contains(a[i]));
                assert(b.contains(b[j - a.len()]));
            }
            if j < a.len() && i >= a.len() {
                assert(a.contains(a[j]));
                assert(b.contains(b[i - a.len()]));
            }
        }
    }
}

proof fn lemma_persp_involution(persp: int, s: int)
    requires
        0 <= s < 64,
    ensures
        0 <= persp_sq(persp, s) < 64,
        persp_sq(persp, persp_sq(persp, s)) == s,
{
}

/// The parts of a full threat index can be read back from it.
proof fn lemma_threat_decode(side: int, rel: int, att: int, vic: int, sq: int)
    requires
        0 <= side < 2,
        0 <= rel < 2,
        0 <= att < 6,
        0 <= vic < 6,
        0 <= sq < 64,
    ensures
        0 <= threat_full_spec(side, rel, att, vic, sq) < 9216,
        threat_full_spec(side, rel, att, vic, sq) / 4608 == side,
        (threat_full_spec(side, rel, att, vic, sq) / 2304) % 2 == rel,
        (threat_full_spec(side, rel, att, vic, sq) / 384) % 6 == att,
        (threat_full_spec(side, rel, att, vic, sq) / 64) % 6 == vic,
        threat_full_spec(side, rel, att, vic, sq) % 64 == sq,
{
    let x = threat_full_spec(side, rel, att, vic, sq);
    let k1 = side * 2 + rel;
    let k2 = k1 * 6 + att;
    let k3 = k2 * 6 + vic;
    assert(x == k3 * 64 + sq);
    lemma_fundamental_div_mod_converse(x, 64, k3, sq);
    assert(x == k2 * 384 + (vic * 64 + sq));
    lemma_fundamental_div_mod_converse(x, 384, k2, vic * 64 + sq);
    lemma_fundamental_div_mod_converse(k3, 6, k2, vic);
    assert(x == k1 * 2304 + (att * 384 + vic * 64 + sq));
    lemma_fundamental_div_mod_converse(x, 2304, k1, att * 384 + vic * 64 + sq);
    lemma_fundamental_div_mod_converse(k2, 6, k1, att);
    assert(x == side * 4608 + (rel * 2304 + att * 384 + vic * 64 + sq));
    lemma_fundamental_div_mod_converse(x, 4608, side, rel * 2304 + att * 384 + vic * 64 + sq);
    lemma_fundamental_div_mod_converse(k1, 2, side, rel);
}

/// The colour of the victim of a threat on side `side` (0: the perspective's own).
pub open spec fn victim_colour(persp: int, side: int) -> int {
    if side == 0 {
        persp
    } else {
        1 - persp
    }
}

/// The colour whose pieces stand in relation `rel` to a victim of colour
/// `vcol`: its enemies for attacks (0), its own for defences (1).
pub open spec fn relation_colour(vcol: int, rel: int) -> int {
    if rel == 0 {
        1 - vcol
    } else {
        vcol
    }
}

/// Full threat feature `x` is active from `persp`'s side: the victim stands on
/// its square and a piece of the attacking kind and relation reaches it.
pub open spec fn threat_active(pos: Pos, persp: int, ab: [[u64; 6]; 2], x: int) -> bool {
    let vcol = victim_colour(persp, x / 4608);
    let s = persp_sq(persp, x % 64);
    &&& 0 <= x < 9216
    &&& sq_in(pos.pieces[vcol][(x / 64) % 6], s)
    &&& sq_in(ab[relation_colour(vcol, (x / 2304) % 2)][(x / 384) % 6], s)
}

/// The active threat features on one victim square.
fn emit_square(pos: &Pos, persp: usize, ab: &[[u64; 6]; 2], vc: usize, vt: usize, sq: usize) -> (r: Vec<usize>)
    requires
        persp < 2,
        vc < 2,
        vt < 6,
        sq < 64,
        sq_in(pos.pieces[victim_colour(persp as int, vc as int)][vt as int], sq as int),
    ensures
        r@.no_duplicates(),
        forall|x: usize| #[trigger] r@.contains(x) <==> (threat_active(*pos, persp as int, *ab, x as int) && x
            / 4608 == vc && (x / 64) % 6 == vt && x % 64 == persp_sq(persp as int, sq as int)),
{
    let v_col: usize = if vc == 0 {
        persp
    } else {
        1 - persp
    };
    let sq_p = flip_for(persp, sq);
    let sq_bb: u64 = 1u64 << sq;
    proof {
        lemma_persp_involution(persp as int, sq as int);
    }
    let mut r: Vec<usize> = Vec::new();
    let mut at: usize = 0;
    while at < 6
        invariant
            persp < 2,
            vc < 2,
            vt < 6,
            sq < 64,
            at <= 6,
            v_col == victim_colour(persp as int, vc as int),
            sq_p == persp_sq(persp as int, sq as int),
            persp_sq(persp as int, sq_p as int) == sq,
            sq_bb == 1u64 << sq,
            sq_in(pos.pieces[v_col as int][vt as int], sq as int),
            r@.no_duplicates(),
            forall|x: usize| #[trigger] r@.contains(x) <==> (threat_active(*pos, persp as int, *ab, x as int)
                && x / 4608 == vc && (x / 64) % 6 == vt && x % 64 == sq_p && (x / 384) % 6 < at),
        decreases 6 - at,
    {
        let ghost r0 = r@;
        let a_att = ab[1 - v_col][at];
        let a_def = ab[v_col][at];
        proof {
            crate::movegen::lemma_single_and(a_att, sq as u8);
            crate::movegen::lemma_single_and(a_def, sq as u8);
            lemma_threat_decode(vc as int, 0, at as int, vt as int, sq_p as int);
            lemma_threat_decode(vc as int, 1, at as int, vt as int, sq_p as int);
        }
        if a_att & sq_bb != 0 {
            let x = make_threat_full(vc, 0, at, vt, sq_p);
            proof {
                lemma_push_keeps(r@, x);
            }
            r.push(x);
        }
        let ghost r1 = r@;
        if a_def & sq_bb != 0 {
            let x = make_threat_full(vc, 1, at, vt, sq_p);
            proof {
                lemma_push_keeps(r@, x);
            }
            r.push(x);
        }
        assert forall|x: usize| #[trigger] r@.contains(x) <==> (threat_active(*pos, persp as int, *ab, x as int)
            && x / 4608 == vc && (x / 64) % 6 == vt && x % 64 == sq_p && (x / 384) % 6 < at + 1) by {
            if threat_active(*pos, persp as int, *ab, x as int) && x / 4608 == vc && (x / 64) % 6 == vt && x
                % 64 == sq_p && (x / 384) % 6 == at {
                let rel = (x / 2304) % 2;
                assert(x == threat_full_spec(vc as int, rel as int, at as int, vt as int, sq_p as int)) by {
                    lemma_threat_decode(vc as int, rel as int, at as int, vt as int, sq_p as int);
                    assert(x == ((((x / 4608) * 2 + (x / 2304) % 2) * 6 + (x / 384) % 6) * 6 + (x / 64) % 6) * 64
                        + x % 64) by (nonlinear_arith)
                        requires
                            0 <= x < 9216,
                    ;
                }
            }
        }
        at = at + 1;
    }
    r
}

/// The active threat features on the victims of colour side `vc`, kind `vt`.
fn emit_victims(pos: &Pos, persp: usize, ab: &[[u64; 6]; 2], vc: usize, vt: usize) -> (r: Vec<usize>)
    requires
        persp < 2,
        vc < 2,
        vt < 6,
    ensures
        r@.no_duplicates(),
        forall|x: usize| #[trigger] r@.contains(x) <==> (threat_active(*pos, persp as int, *ab, x as int) && x
            / 4608 == vc && (x / 64) % 6 == vt),
{
    let v_col: usize = if vc == 0 {
        persp
    } else {
        1 - persp
    };
    let victims_all = pos.pieces[v_col][vt];
    let mut victims = victims_all;
    let mut r: Vec<usize> = Vec::new();
    while victims != 0
        invariant
            persp < 2,
            vc < 2,
            vt < 6,
            v_col == victim_colour(persp as int, vc as int),
            victims_all == pos.pieces[v_col as int][vt as int],
            forall|s: int| #[trigger] sq_in(victims, s) ==> sq_in(victims_all, s),
            r@.no_duplicates(),
            forall|x: usize| #[trigger] r@.contains(x) <==> (threat_active(*pos, persp as int, *ab, x as int)
                && x / 4608 == vc && (x / 64) % 6 == vt && !sq_in(victims, persp_sq(persp as int, (x % 64) as int))),
        decreases victims,
    {
        let ghost prev = victims;
        let sq = crate::bitboard::pop_lsb(&mut victims);
        let mut part = emit_square(pos, persp, ab, vc, vt, sq as usize);
        let ghost r0 = r@;
        let ghost p0 = part@;
        proof {
            lemma_persp_involution(persp as int, sq as int);
            assert forall|y: usize| r0.contains(y) implies !p0.contains(y) by {
                lemma_persp_involution(persp as int, (y % 64) as int);
            }
            lemma_concat_keeps(r0, p0);
        }
        r.append(&mut part);
        assert forall|x: usize| #[trigger] r@.contains(x) <==> (threat_active(*pos, persp as int, *ab, x as int)
            && x / 4608 == vc && (x / 64) % 6 == vt && !sq_in(victims, persp_sq(persp as int, (x % 64) as int))) by {
            lemma_persp_involution(persp as int, (x % 64) as int);
        }
    }
    proof {
        assert forall|x: usize| #[trigger] r@.contains(x) <==> (threat_active(*pos, persp as int, *ab, x as int)
            && x / 4608 == vc && (x / 64) % 6 == vt) by {
            crate::bitboard::lemma_sq_in_zero(persp_sq(persp as int, (x % 64) as int));
        }
    }
    r
}

/// Appends every active full threat feature from `persp`'s side to `out`,
/// given the attack maps `attacked_by` (as `compute_attack_maps_by_type`
/// builds them): each index once.
pub fn gather_threats_full(pos: &Pos, persp: usize, attacked_by: &[[u64; 6]; 2], out: &mut Vec<usize>)
    requires
        persp < 2,
    ensures
        final(out)@.len() >= old(out)@.len(),
        final(out)@.subrange(0, old(out)@.len() as int) == old(out)@,
        final(out)@.subrange(old(out)@.len() as int, final(out)@.len() as int).no_duplicates(),
        forall|x: usize| #[trigger] final(out)@.subrange(old(out)@.len() as int, final(out)@.len() as int).contains(x)
            <==> threat_active(*pos, persp as int, *attacked_by, x as int),
{
    let mut all: Vec<usize> = Vec::new();
    let mut vc: usize = 0;
    while vc < 2
        invariant
            persp < 2,
            vc <= 2,
            all@.no_duplicates(),
            forall|x: usize| #[trigger] all@.contains(x) <==> (threat_active(*pos, persp as int, *attacked_by, x as int)
                && x / 4608 < vc),
        decreases 2 - vc,
    {
        let mut vt: usize = 0;
        while vt < 6
            invariant
                persp < 2,
                vc < 2,
                vt <= 6,
                all@.no_duplicates(),
                forall|x: usize| #[trigger] all@.contains(x) <==> (threat_active(*pos, persp as int, *attacked_by, x as int)
                    && (x / 4608 < vc || (x / 4608 == vc && (x / 64) % 6 < vt))),
            decreases 6 - vt,
        {
            let mut part = emit_victims(pos, persp, attacked_by, vc, vt);
            proof {
                lemma_concat_keeps(all@, part@);
            }
            all.append(&mut part);
            vt = vt + 1;
        }
        vc = vc + 1;
    }
    let ghost before = out@;
    let ghost added = all@;
    out.append(&mut all);
    assert(out@.subrange(0, before.len() as int) =~= before);
    assert(out@.subrange(before.len() as int, out@.len() as int) =~= added);
}

/// The king bucket of a square (seen from the perspective): four per rank,
/// mirrored about the centre files.
pub open spec fn king_bucket(s: int) -> int {
    (s / 8) * 4 + crate::endgame::file_edge(s)
}

/// The bucket `persp`'s own king chooses.
pub open spec fn persp_bucket(pos: Pos, persp: int) -> int {
    king_bucket(persp_sq(persp, lsb(pos.pieces[persp][5])))
}

/// The plane of a piece of colour `c` and kind `t` from `persp`'s side: 0 for
/// the enemy king, 1-5 our queen down to pawn, 6-10 theirs.
pub open spec fn piece_plane(persp: int, c: int, t: int) -> int {
    if t == 5 {
        0
    } else {
        piece_idx_spec(t) + if c == persp {
            0int
        } else {
            5
        }
    }
}

/// The piece feature of a piece of colour `c`, kind `t` on `s` from `persp`'s side.
pub open spec fn piece_feature(pos: Pos, persp: int, c: int, t: int, s: int) -> int {
    persp_bucket(pos, persp) * 704 + piece_plane(persp, c, t) * 64 + persp_sq(persp, s)
}

/// Every piece is a feature but the perspective's own king.
pub open spec fn is_feature_piece(persp: int, c: int, t: int) -> bool {
    0 <= c < 2 && 0 <= t < 6 && (t < 5 || c != persp)
}

/// `x` is the feature of some piece of `pos` from `persp`'s side.
pub open spec fn piece_active(pos: Pos, persp: int, x: int) -> bool {
    exists|c: int, t: int, s: int|
        is_feature_piece(persp, c, t) && #[trigger] sq_in(pos.pieces[c][t], s) && x == piece_feature(
            pos,
            persp,
            c,
            t,
            s,
        )
}

/// Distinct pieces have distinct features.
proof fn lemma_piece_feature_injective(pos: Pos, persp: int, c1: int, t1: int, s1: int, c2: int, t2: int, s2: int)
    requires
        0 <= persp < 2,
        is_feature_piece(persp, c1, t1),
        is_feature_piece(persp, c2, t2),
        0 <= s1 < 64,
        0 <= s2 < 64,
        piece_feature(pos, persp, c1, t1, s1) == piece_feature(pos, persp, c2, t2, s2),
    ensures
        c1 == c2,
        t1 == t2,
        s1 == s2,
{
    let b = persp_bucket(pos, persp);
    let p1 = piece_plane(persp, c1, t1);
    let p2 = piece_plane(persp, c2, t2);
    let q1 = persp_sq(persp, s1);
    let q2 = persp_sq(persp, s2);
    lemma_persp_involution(persp, s1);
    lemma_persp_involution(persp, s2);
    assert(p1 * 64 + q1 == p2 * 64 + q2);
    lemma_fundamental_div_mod_converse(p1 * 64 + q1, 64, p1, q1);
    lemma_fundamental_div_mod_converse(p2 * 64 + q2, 64, p2, q2);
}

/// The king bucket of a square.
fn bucket_of_square(s: usize) -> (r: usize)
    requires
        s < 64,
    ensures
        r == king_bucket(s as int),
        r < 32,
{
    let f = s % 8;
    let fe = if f <= 7 - f {
        f
    } else {
        7 - f
    };
    (s / 8) * 4 + fe
}

/// The bucket `persp`'s king chooses.
fn bucket_for(pos: &Pos, persp: usize) -> (r: usize)
    requires
        persp < 2,
        pos.pieces[persp as int][5] != 0,
    ensures
        r == persp_bucket(*pos, persp as int),
        r < 32,
{
    let ks = crate::endgame::low_square(pos.pieces[persp][5]);
    bucket_of_square(flip_for(persp, ks as usize))
}

fn feature_of(bucket: usize, persp: usize, c: usize, t: usize, sq_raw: usize) -> (x: usize)
    requires
        bucket < 32,
        persp < 2,
        c < 2,
        t < 6,
        sq_raw < 64,
    ensures
        x == bucket * 704 + piece_plane(persp as int, c as int, t as int) * 64 + persp_sq(
            persp as int,
            sq_raw as int,
        ),
        x < 32 * 704,
{
    let sq = flip_for(persp, sq_raw);
    if t == 5 {
        bucket * 704 + sq
    } else {
        let idx = piece_idx(t) + if c == persp {
            0
        } else {
            5
        };
        bucket * 704 + idx * 64 + sq
    }
}

/// The features of the pieces of colour `c`, kind `t`, from `persp`'s side.
fn emit_plane(pos: &Pos, persp: usize, bucket: usize, c: usize, t: usize) -> (r: Vec<usize>)
    requires
        persp < 2,
        c < 2,
        t < 6,
        bucket == persp_bucket(*pos, persp as int),
        bucket < 32,
    ensures
        r@.no_duplicates(),
        forall|x: usize| #[trigger] r@.contains(x) <==> (is_feature_piece(persp as int, c as int, t as int) && exists|s: int|
            #[trigger] sq_in(pos.pieces[c as int][t as int], s) && x == piece_feature(*pos, persp as int, c as int, t as int, s)),
{
    let mut r: Vec<usize> = Vec::new();
    if t == 5 && c == persp {
        return r;
    }
    let mut bb = pos.pieces[c][t];
    while bb != 0
        invariant
            persp < 2,
            c < 2,
            t < 6,
            t < 5 || c != persp,
            bucket == persp_bucket(*pos, persp as int),
            bucket < 32,
            forall|s: int| #[trigger] sq_in(bb, s) ==> sq_in(pos.pieces[c as int][t as int], s),
            r@.no_duplicates(),
            forall|x: usize| #[trigger] r@.contains(x) <==> exists|s: int|
                #[trigger] sq_in(pos.pieces[c as int][t as int], s) && !sq_in(bb, s) && x == piece_feature(
                    *pos,
                    persp as int,
                    c as int,
                    t as int,
                    s,
                ),
        decreases bb,
    {
        let ghost prev = bb;
        let sq = crate::bitboard::pop_lsb(&mut bb);
        let x = feature_of(bucket, persp, c, t, sq as usize);
        proof {
            assert forall|y: usize| r@.contains(y) implies y != x by {
                let s = choose|s: int|
                    #[trigger] sq_in(pos.pieces[c as int][t as int], s) && !sq_in(prev, s) && y == piece_feature(
                        *pos,
                        persp as int,
                        c as int,
                        t as int,
                        s,
                    );
                if y == x {
                    lemma_piece_feature_injective(*pos, persp as int, c as int, t as int, s, c as int, t as int, sq as int);
                }
            }
            lemma_push_keeps(r@, x);
        }
        r.push(x);
        assert forall|y: usize| #[trigger] r@.contains(y) <==> exists|s: int|
            #[trigger] sq_in(pos.pieces[c as int][t as int], s) && !sq_in(bb, s) && y == piece_feature(
                *pos,
                persp as int,
                c as int,
                t as int,
                s,
            ) by {
            if exists|s: int|
                #[trigger] sq_in(pos.pieces[c as int][t as int], s) && !sq_in(bb, s) && y == piece_feature(
                    *pos,
                    persp as int,
                    c as int,
                    t as int,
                    s,
                ) {
                let s = choose|s: int|
                    #[trigger] sq_in(pos.pieces[c as int][t as int], s) && !sq_in(bb, s) && y == piece_feature(
                        *pos,
                        persp as int,
                        c as int,
                        t as int,
                        s,
                    );
                if s != sq {
                    assert(!sq_in(prev, s));
                }
            }
        }
    }
    proof {
        assert forall|x: usize| #[trigger] r@.contains(x) <==> (is_feature_piece(persp as int, c as int, t as int) && exists|s: int|
            #[trigger] sq_in(pos.pieces[c as int][t as int], s) && x == piece_feature(*pos, persp as int, c as int, t as int, s)) by {
            if exists|s: int|
                #[trigger] sq_in(pos.pieces[c as int][t as int], s) && x == piece_feature(*pos, persp as int, c as int, t as int, s) {
                let s = choose|s: int|
                    #[trigger] sq_in(pos.pieces[c as int][t as int], s) && x == piece_feature(*pos, persp as int, c as int, t as int, s);
                crate::bitboard::lemma_sq_in_zero(s);
            }
        }
    }
    r
}

/// Appends the piece features of `pos` from `persp`'s side to `out`: every
/// piece but `persp`'s own king, which picks the bucket; each index once.
pub fn gather_pieces(pos: &Pos, persp: usize, out: &mut Vec<usize>)
    requires
        persp < 2,
        pos.pieces[persp as int][5] != 0,
    ensures
        final(out)@.len() >= old(out)@.len(),
        final(out)@.subrange(0, old(out)@.len() as int) == old(out)@,
        final(out)@.subrange(old(out)@.len() as int, final(out)@.len() as int).no_duplicates(),
        forall|x: usize| #[trigger] final(out)@.subrange(old(out)@.len() as int, final(out)@.len() as int).contains(x)
            <==> piece_active(*pos, persp as int, x as int),
{
    let bucket = bucket_for(pos, persp);
    let mut all: Vec<usize> = Vec::new();
    let mut c: usize = 0;
    while c < 2
        invariant
            persp < 2,
            c <= 2,
            bucket == persp_bucket(*pos, persp as int),
            bucket < 32,
            all@.no_duplicates(),
            forall|x: usize| #[trigger] all@.contains(x) <==> exists|cc: int, t: int, s: int|
                cc < c && is_feature_piece(persp as int, cc, t) && #[trigger] sq_in(pos.pieces[cc][t], s) && x
                    == piece_feature(*pos, persp as int, cc, t, s),
        decreases 2 - c,
    {
        let mut t: usize = 0;
        while t < 6
            invariant
                persp < 2,
                c < 2,
                t <= 6,
                bucket == persp_bucket(*pos, persp as int),
                bucket < 32,
                all@.no_duplicates(),
                forall|x: usize| #[trigger] all@.contains(x) <==> exists|cc: int, tt: int, s: int|
                    (cc < c || (cc == c && tt < t)) && is_feature_piece(persp as int, cc, tt) && #[trigger] sq_in(
                        pos.pieces[cc][tt],
                        s,
                    ) && x == piece_feature(*pos, persp as int, cc, tt, s),
            decreases 6 - t,
        {
            let mut part = emit_plane(pos, persp, bucket, c, t);
            let ghost a0 = all@;
            let ghost p0 = part@;
            proof {
                assert forall|y: usize| a0.contains(y) implies !p0.contains(y) by {
                    if p0.contains(y) {
                        let (c1, t1, s1) = choose|cc: int, tt: int, s: int|
                            (cc < c || (cc == c && tt < t)) && is_feature_piece(persp as int, cc, tt) && #[trigger] sq_in(
                                pos.pieces[cc][tt],
                                s,
                            ) && y == piece_feature(*pos, persp as int, cc, tt, s);
                        let s2 = choose|s: int|
                            #[trigger] sq_in(pos.pieces[c as int][t as int], s) && y == piece_feature(
                                *pos,
                                persp as int,
                                c as int,
                                t as int,
                                s,
                            );
                        lemma_piece_feature_injective(*pos, persp as int, c1, t1, s1, c as int, t as int, s2);
                    }
                }
                lemma_concat_keeps(a0, p0);
            }
            all.append(&mut part);
            t = t + 1;
        }
        c = c + 1;
    }
    let ghost before = out@;
    let ghost added = all@;
    out.append(&mut all);
    assert(out@.subrange(0, before.len() as int) =~= before);
    assert(out@.subrange(before.len() as int, out@.len() as int) =~= added);
}

/// The features of the same piece from the side to move and from the other
/// side.
pub open spec fn pair_of(pos: Pos, stm: int, c: int, t: int, s: int) -> (usize, usize) {
    (piece_feature(pos, stm, c, t, s) as usize, piece_feature(pos, 1 - stm, c, t, s) as usize)
}

/// The two kings pair with each other: each is a feature from one side only.
pub open spec fn king_pair(pos: Pos, stm: int) -> (usize, usize) {
    (
        piece_feature(pos, stm, 1 - stm, 5, lsb(pos.pieces[1 - stm][5])) as usize,
        piece_feature(pos, 1 - stm, stm, 5, lsb(pos.pieces[stm][5])) as usize,
    )
}

/// A pair of features of one non-king piece of `pos`.
pub open spec fn piece_pair_active(pos: Pos, stm: int, p: (usize, usize)) -> bool {
    exists|c: int, t: int, s: int|
        0 <= c < 2 && 0 <= t < 5 && #[trigger] sq_in(pos.pieces[c][t], s) && p == pair_of(pos, stm, c, t, s)
}

/// The squares below `n` that satisfy `p`, in increasing order.
pub open spec fn squares_by(p: spec_fn(int) -> bool, n: int) -> Seq<int>
    decreases n,
{
    if n <= 0 {
        Seq::empty()
    } else {
        let prev = squares_by(p, n - 1);
        if p(n - 1) {
            prev.push(n - 1)
        } else {
            prev
        }
    }
}

/// The squares of a bitboard, in increasing order.
pub open spec fn squares_of(b: u64) -> Seq<int> {
    squares_by(|s: int| sq_in(b, s), 64)
}

proof fn lemma_squares_agree(p: spec_fn(int) -> bool, q: spec_fn(int) -> bool, n: int)
    requires
        forall|s: int| 0 <= s < n ==> #[trigger] p(s) == q(s),
    ensures
        squares_by(p, n) == squares_by(q, n),
    decreases n,
{
    if n > 0 {
        lemma_squares_agree(p, q, n - 1);
    }
}

/// A square above all of `p`'s, added to them, comes last.
proof fn lemma_squares_top(p: spec_fn(int) -> bool, q: spec_fn(int) -> bool, l: int, n: int)
    requires
        0 <= l < n,
        forall|s: int| 0 <= s < n && #[trigger] p(s) ==> s < l,
        forall|s: int| 0 <= s < n ==> (#[trigger] q(s) <==> (p(s) || s == l)),
    ensures
        squares_by(q, n) == squares_by(p, n).push(l),
    decreases n,
{
    if n == l + 1 {
        assert forall|s: int| 0 <= s < l implies #[trigger] p(s) == q(s) by {
            assert(q(s) <==> (p(s) || s == l));
        }
        lemma_squares_agree(p, q, l);
        assert(q(l));
        if p(l) {
            assert(l < l);
        }
    } else {
        lemma_squares_top(p, q, l, n - 1);
        assert(q(n - 1) <==> (p(n - 1) || n - 1 == l));
        if p(n - 1) {
            assert(n - 1 < l);
        }
    }
}

/// Popping the lowest square `l` of `rest` moves it from what is left to
/// what is done, at the end of the done squares.
proof fn lemma_squares_pop(b: u64, rest: u64, rest2: u64, l: int)
    requires
        0 <= l < 64,
        sq_in(rest, l),
        forall|t: int| #[trigger] sq_in(rest2, t) <==> (sq_in(rest, t) && t != l),
        forall|t: int| #[trigger] sq_in(rest, t) ==> sq_in(b, t),
        forall|t: int| 0 <= t < 64 && sq_in(b, t) && !sq_in(rest, t) ==> t < l,
    ensures
        squares_by(|s: int| sq_in(b, s) && !sq_in(rest2, s), 64) == squares_by(|s: int| sq_in(b, s) && !sq_in(rest, s), 64).push(l),
{
    let p = |s: int| sq_in(b, s) && !sq_in(rest, s);
    let q = |s: int| sq_in(b, s) && !sq_in(rest2, s);
    assert forall|s: int| 0 <= s < 64 && #[trigger] p(s) implies s < l by {}
    assert forall|s: int| 0 <= s < 64 implies (#[trigger] q(s) <==> (p(s) || s == l)) by {}
    lemma_squares_top(p, q, l, 64);
}

/// Nothing done yet: no squares.
proof fn lemma_squares_none(b: u64)
    ensures
        squares_by(|s: int| sq_in(b, s) && !sq_in(b, s), 64) == Seq::<int>::empty(),
{
    lemma_squares_agree(|s: int| sq_in(b, s) && !sq_in(b, s), |s: int| false, 64);
    lemma_squares_false(64);
}

proof fn lemma_squares_false(n: int)
    ensures
        squares_by(|s: int| false, n) == Seq::<int>::empty(),
    decreases n,
{
    if n > 0 {
        lemma_squares_false(n - 1);
    }
}

/// When nothing is left, the done squares are all of `b`'s.
proof fn lemma_squares_done(b: u64, rest: u64)
    requires
        forall|t: int| !sq_in(rest, t),
    ensures
        squares_by(|s: int| sq_in(b, s) && !sq_in(rest, s), 64) == squares_of(b),
{
    lemma_squares_agree(|s: int| sq_in(b, s) && !sq_in(rest, s), |s: int| sq_in(b, s), 64);
}

/// The pairs of the pieces of colour `c`, kind `t`, square by square.
pub open spec fn plane_pairs(pos: Pos, stm: int, c: int, t: int) -> Seq<(usize, usize)> {
    squares_of(pos.pieces[c][t]).map_values(|s: int| pair_of(pos, stm, c, t, s))
}

/// The piece pairs from (colour `c`, kind `t`) on: White first, pawn to queen.
pub open spec fn planes_after(pos: Pos, stm: int, c: int, t: int) -> Seq<(usize, usize)>
    decreases 2 - c, 6 - t,
{
    if c >= 2 {
        Seq::empty()
    } else if t >= 5 {
        planes_after(pos, stm, c + 1, 0)
    } else {
        plane_pairs(pos, stm, c, t) + planes_after(pos, stm, c, t + 1)
    }
}

/// The pairs `map_pieces_pairs` gives, in order: the kings' pair, then the
/// non-king pieces colour by colour, kind by kind, square by square.
pub open spec fn pieces_seq(pos: Pos, stm: int) -> Seq<(usize, usize)> {
    seq![king_pair(pos, stm)] + planes_after(pos, stm, 0, 0)
}

/// The squares holding a piece that a piece of colour `ac`, kind `at` attacks.
pub open spec fn threat_squares(pos: Pos, ac: int, at: int) -> Seq<int> {
    squares_by(|s: int| attack_sq(pos, ac, at, s) && sq_in(occ_spec(pos.pieces), s), 64)
}

/// The threat pairs of attacker colour `ac`, kind `at`, by attacked square.
pub open spec fn threat_block(pos: Pos, stm: int, ac: int, at: int) -> Seq<(usize, usize)> {
    threat_squares(pos, ac, at).map_values(|s: int| threat_pair(pos, stm, ac, at, s))
}

/// The threat pairs from (attacker colour `ac`, kind `at`) on.
pub open spec fn threats_after(pos: Pos, stm: int, ac: int, at: int) -> Seq<(usize, usize)>
    decreases 2 - ac, 7 - at,
{
    if ac >= 2 {
        Seq::empty()
    } else if at >= 6 {
        threats_after(pos, stm, ac + 1, 0)
    } else {
        threat_block(pos, stm, ac, at) + threats_after(pos, stm, ac, at + 1)
    }
}

/// The pairs `map_features_pairs` gives, in order: those of
/// `map_pieces_pairs`, then the threats by attacker colour, attacker kind and
/// attacked square.
pub open spec fn features_seq(pos: Pos, stm: int) -> Seq<(usize, usize)> {
    pieces_seq(pos, stm) + threats_after(pos, stm, 0, 0)
}

/// The 640-set threat pairs of the attacked pieces of colour `vc`, kind `vt`.
pub open spec fn t640_block(pos: Pos, stm: int, vc: int, vt: int) -> Seq<(usize, usize)> {
    squares_by(|s: int| sq_in(pos.pieces[vc][vt], s) && attacked_by_colour(pos, 1 - vc, s), 64).map_values(
        |s: int| threat640_pair(pos, stm, vc, vt, s),
    )
}

/// The 640-set threat pairs from (colour `vc`, kind `vt`) on: White first, pawn to queen.
pub open spec fn t640_after(pos: Pos, stm: int, vc: int, vt: int) -> Seq<(usize, usize)>
    decreases 2 - vc, 6 - vt,
{
    if vc >= 2 {
        Seq::empty()
    } else if vt >= 5 {
        t640_after(pos, stm, vc + 1, 0)
    } else {
        t640_block(pos, stm, vc, vt) + t640_after(pos, stm, vc, vt + 1)
    }
}

/// One of the pairs `map_pieces_pairs` gives: the kings' pair or a non-king piece's.
pub open spec fn piece_pair(pos: Pos, stm: int, p: (usize, usize)) -> bool {
    p == king_pair(pos, stm) || piece_pair_active(pos, stm, p)
}

/// Colour `c` has exactly one king.
pub open spec fn one_king(pos: Pos, c: int) -> bool {
    &&& pos.pieces[c][5] != 0
    &&& forall|s: int| #[trigger] sq_in(pos.pieces[c][5], s) ==> s == lsb(pos.pieces[c][5])
}

/// With one king a side, the piece pairs are the piece features of both
/// sides: their first members are the features `gather_pieces` gives for the
/// side to move, their second members those for the other side.
pub proof fn lemma_piece_pairs_are_features(pos: Pos, stm: int)
    requires
        0 <= stm < 2,
        one_king(pos, 0),
        one_king(pos, 1),
    ensures
        forall|x: int| #[trigger] piece_active(pos, stm, x) <==> exists|p: (usize, usize)| #[trigger] piece_pair(pos, stm, p) && p.0 as int == x,
        forall|x: int| #[trigger] piece_active(pos, 1 - stm, x) <==> exists|p: (usize, usize)| #[trigger] piece_pair(pos, stm, p) && p.1 as int == x,
{
    let o = 1 - stm;
    crate::bitboard::lemma_lsb(pos.pieces[0][5]);
    crate::bitboard::lemma_lsb(pos.pieces[1][5]);
    let ko = lsb(pos.pieces[o][5]);
    let ks = lsb(pos.pieces[stm][5]);
    assert(is_feature_piece(stm, o, 5) && sq_in(pos.pieces[o][5], ko));
    assert(is_feature_piece(o, stm, 5) && sq_in(pos.pieces[stm][5], ks));
    lemma_feature_bound(pos, stm, o, 5, ko);
    lemma_feature_bound(pos, o, stm, 5, ks);
    assert forall|x: int| piece_active(pos, stm, x) implies exists|p: (usize, usize)| #[trigger] piece_pair(pos, stm, p) && p.0 as int == x by {
        let (c, t, sq) = choose|c: int, t: int, sq: int|
            is_feature_piece(stm, c, t) && #[trigger] sq_in(pos.pieces[c][t], sq) && x == piece_feature(pos, stm, c, t, sq);
        lemma_feature_bound(pos, stm, c, t, sq);
        if t == 5 {
            assert(c == o);
            assert(sq == ko);
            assert(piece_pair(pos, stm, king_pair(pos, stm)));
        } else {
            assert(piece_pair_active(pos, stm, pair_of(pos, stm, c, t, sq)));
            assert(piece_pair(pos, stm, pair_of(pos, stm, c, t, sq)));
        }
    }
    assert forall|x: int| (exists|p: (usize, usize)| #[trigger] piece_pair(pos, stm, p) && p.0 as int == x) implies piece_active(pos, stm, x) by {
        let p = choose|p: (usize, usize)| #[trigger] piece_pair(pos, stm, p) && p.0 as int == x;
        if p == king_pair(pos, stm) {
            assert(sq_in(pos.pieces[o][5], ko));
        } else {
            let (c, t, sq) = choose|c: int, t: int, sq: int|
                0 <= c < 2 && 0 <= t < 5 && #[trigger] sq_in(pos.pieces[c][t], sq) && p == pair_of(pos, stm, c, t, sq);
            lemma_feature_bound(pos, stm, c, t, sq);
            assert(sq_in(pos.pieces[c][t], sq));
        }
    }
    assert forall|x: int| piece_active(pos, o, x) implies exists|p: (usize, usize)| #[trigger] piece_pair(pos, stm, p) && p.1 as int == x by {
        let (c, t, sq) = choose|c: int, t: int, sq: int|
            is_feature_piece(o, c, t) && #[trigger] sq_in(pos.pieces[c][t], sq) && x == piece_feature(pos, o, c, t, sq);
        lemma_feature_bound(pos, o, c, t, sq);
        if t == 5 {
            assert(c == stm);
            assert(sq == ks);
            assert(piece_pair(pos, stm, king_pair(pos, stm)));
        } else {
            assert(piece_pair_active(pos, stm, pair_of(pos, stm, c, t, sq)));
            assert(piece_pair(pos, stm, pair_of(pos, stm, c, t, sq)));
        }
    }
    assert forall|x: int| (exists|p: (usize, usize)| #[trigger] piece_pair(pos, stm, p) && p.1 as int == x) implies piece_active(pos, o, x) by {
        let p = choose|p: (usize, usize)| #[trigger] piece_pair(pos, stm, p) && p.1 as int == x;
        if p == king_pair(pos, stm) {
            assert(sq_in(pos.pieces[stm][5], ks));
        } else {
            let (c, t, sq) = choose|c: int, t: int, sq: int|
                0 <= c < 2 && 0 <= t < 5 && #[trigger] sq_in(pos.pieces[c][t], sq) && p == pair_of(pos, stm, c, t, sq);
            lemma_feature_bound(pos, o, c, t, sq);
            assert(sq_in(pos.pieces[c][t], sq));
        }
    }
}

/// Every active piece input is below `PIECE_FEATURES`.
pub proof fn lemma_piece_active_bound(pos: Pos, persp: int, x: int)
    requires
        0 <= persp < 2,
        pos.pieces[persp][5] != 0,
        piece_active(pos, persp, x),
    ensures
        0 <= x < PIECE_FEATURES,
{
    let (c, t, s) = choose|c: int, t: int, s: int|
        is_feature_piece(persp, c, t) && #[trigger] sq_in(pos.pieces[c][t], s) && x == piece_feature(pos, persp, c, t, s);
    lemma_feature_bound(pos, persp, c, t, s);
}

proof fn lemma_feature_bound(pos: Pos, persp: int, c: int, t: int, s: int)
    requires
        0 <= persp < 2,
        pos.pieces[persp][5] != 0,
        is_feature_piece(persp, c, t),
        0 <= s < 64,
    ensures
        0 <= piece_feature(pos, persp, c, t, s) < 32 * 704,
{
    crate::bitboard::lemma_lsb(pos.pieces[persp][5]);
    lemma_persp_involution(persp, lsb(pos.pieces[persp][5]));
    lemma_persp_involution(persp, s);
}

fn emit_plane_pairs(pos: &Pos, stm: usize, bs: usize, bn: usize, c: usize, t: usize) -> (r: Vec<(usize, usize)>)
    requires
        stm < 2,
        c < 2,
        t < 5,
        pos.pieces[0][5] != 0,
        pos.pieces[1][5] != 0,
        bs == persp_bucket(*pos, stm as int),
        bn == persp_bucket(*pos, 1 - stm),
        bs < 32,
        bn < 32,
    ensures
        r@.no_duplicates(),
        forall|p: (usize, usize)| #[trigger] r@.contains(p) <==> exists|s: int|
            #[trigger] sq_in(pos.pieces[c as int][t as int], s) && p == pair_of(*pos, stm as int, c as int, t as int, s),
        r@ == squares_of(pos.pieces[c as int][t as int]).map_values(|s: int| pair_of(*pos, stm as int, c as int, t as int, s)),
{
    let ntm: usize = 1 - stm;
    let mut r: Vec<(usize, usize)> = Vec::new();
    let mut bb = pos.pieces[c][t];
    proof {
        lemma_squares_none(bb);
        assert(r@ =~= squares_by(|s: int| sq_in(pos.pieces[c as int][t as int], s) && !sq_in(bb, s), 64).map_values(
            |s: int| pair_of(*pos, stm as int, c as int, t as int, s),
        ));
    }
    while bb != 0
        invariant
            stm < 2,
            ntm == 1 - stm,
            c < 2,
            t < 5,
            bs == persp_bucket(*pos, stm as int),
            bn == persp_bucket(*pos, 1 - stm),
            bs < 32,
            bn < 32,
            forall|s: int| #[trigger] sq_in(bb, s) ==> sq_in(pos.pieces[c as int][t as int], s),
            r@ == squares_by(|s: int| sq_in(pos.pieces[c as int][t as int], s) && !sq_in(bb, s), 64).map_values(
                |s: int| pair_of(*pos, stm as int, c as int, t as int, s),
            ),
            forall|s: int, u: int|
                #![trigger sq_in(pos.pieces[c as int][t as int], s), sq_in(bb, u)]
                sq_in(pos.pieces[c as int][t as int], s) && !sq_in(bb, s) && sq_in(bb, u) ==> s < u,
            r@.no_duplicates(),
            forall|p: (usize, usize)| #[trigger] r@.contains(p) <==> exists|s: int|
                #[trigger] sq_in(pos.pieces[c as int][t as int], s) && !sq_in(bb, s) && p == pair_of(
                    *pos,
                    stm as int,
                    c as int,
                    t as int,
                    s,
                ),
        decreases bb,
    {
        let ghost prev = bb;
        let sq = crate::bitboard::pop_lsb(&mut bb);
        let x = feature_of(bs, stm, c, t, sq as usize);
        let y = feature_of(bn, ntm, c, t, sq as usize);
        proof {
            assert forall|q: (usize, usize)| r@.contains(q) implies q != (x, y) by {
                let s = choose|s: int|
                    #[trigger] sq_in(pos.pieces[c as int][t as int], s) && !sq_in(prev, s) && q == pair_of(
                        *pos,
                        stm as int,
                        c as int,
                        t as int,
                        s,
                    );
                lemma_feature_bound(*pos, stm as int, c as int, t as int, s);
                if q == (x, y) {
                    lemma_piece_feature_injective(*pos, stm as int, c as int, t as int, s, c as int, t as int, sq as int);
                }
            }
            lemma_push_keeps(r@, (x, y));
            assert((x, y) == pair_of(*pos, stm as int, c as int, t as int, sq as int));
            assert forall|u: int| 0 <= u < 64 && sq_in(pos.pieces[c as int][t as int], u) && !sq_in(prev, u) implies u < sq by {
                assert(sq_in(prev, sq as int));
            }
            lemma_squares_pop(pos.pieces[c as int][t as int], prev, bb, sq as int);
        }
        let ghost r_before = r@;
        r.push((x, y));
        proof {
            let f = |s: int| pair_of(*pos, stm as int, c as int, t as int, s);
            let sq0 = squares_by(|s: int| sq_in(pos.pieces[c as int][t as int], s) && !sq_in(prev, s), 64);
            assert(r@ =~= sq0.push(sq as int).map_values(f));
            assert forall|a: int, u: int|
                #![trigger sq_in(pos.pieces[c as int][t as int], a), sq_in(bb, u)]
                sq_in(pos.pieces[c as int][t as int], a) && !sq_in(bb, a) && sq_in(bb, u) implies a < u by {
                assert(sq_in(prev, u));
                if a != sq {
                    assert(!sq_in(prev, a));
                }
            }
        }
        assert forall|q: (usize, usize)| #[trigger] r@.contains(q) <==> exists|s: int|
            #[trigger] sq_in(pos.pieces[c as int][t as int], s) && !sq_in(bb, s) && q == pair_of(
                *pos,
                stm as int,
                c as int,
                t as int,
                s,
            ) by {
            if exists|s: int|
                #[trigger] sq_in(pos.pieces[c as int][t as int], s) && !sq_in(bb, s) && q == pair_of(
                    *pos,
                    stm as int,
                    c as int,
                    t as int,
                    s,
                ) {
                let s = choose|s: int|
                    #[trigger] sq_in(pos.pieces[c as int][t as int], s) && !sq_in(bb, s) && q == pair_of(
                        *pos,
                        stm as int,
                        c as int,
                        t as int,
                        s,
                    );
                if s != sq {
                    assert(!sq_in(prev, s));
                }
            }
        }
    }
    proof {
        assert forall|p: (usize, usize)| #[trigger] r@.contains(p) <==> exists|s: int|
            #[trigger] sq_in(pos.pieces[c as int][t as int], s) && p == pair_of(*pos, stm as int, c as int, t as int, s) by {
            if exists|s: int|
                #[trigger] sq_in(pos.pieces[c as int][t as int], s) && p == pair_of(*pos, stm as int, c as int, t as int, s) {
                let s = choose|s: int|
                    #[trigger] sq_in(pos.pieces[c as int][t as int], s) && p == pair_of(*pos, stm as int, c as int, t as int, s);
                crate::bitboard::lemma_sq_in_zero(s);
            }
        }
    }
    proof {
        crate::bitboard::lemma_sq_in_zero(0);
        assert forall|u: int| !sq_in(bb, u) by {
            crate::bitboard::lemma_sq_in_zero(u);
        }
        lemma_squares_done(pos.pieces[c as int][t as int], bb);
    }
    r
}

/// The piece features of `pos` in pairs (side to move's view, other side's
/// view), one pair per piece, the two kings paired with each other first:
/// the pairs in the order they are produced, each once.
pub fn map_pieces_pairs(pos: &Pos, stm: usize) -> (r: Vec<(usize, usize)>)
    requires
        stm < 2,
        pos.pieces[0][5] != 0,
        pos.pieces[1][5] != 0,
    ensures
        r@.no_duplicates(),
        r@.len() > 0 && r@[0] == king_pair(*pos, stm as int),
        forall|p: (usize, usize)| #[trigger] r@.contains(p) <==> (p == king_pair(*pos, stm as int)
            || piece_pair_active(*pos, stm as int, p)),
        r@ == pieces_seq(*pos, stm as int),
{
    let ntm: usize = 1 - stm;
    let bs = bucket_for(pos, stm);
    let bn = bucket_for(pos, ntm);
    let kt = crate::endgame::low_square(pos.pieces[ntm][5]);
    let ks = crate::endgame::low_square(pos.pieces[stm][5]);
    let a = feature_of(bs, stm, ntm, 5, kt as usize);
    let b = feature_of(bn, ntm, stm, 5, ks as usize);
    let mut r: Vec<(usize, usize)> = Vec::new();
    r.push((a, b));
    proof {
        lemma_push_keeps(Seq::<(usize, usize)>::empty(), (a, b));
        assert(r@ =~= Seq::<(usize, usize)>::empty().push((a, b)));
        assert(r@ + planes_after(*pos, stm as int, 0, 0) =~= pieces_seq(*pos, stm as int));
    }
    let mut c: usize = 0;
    while c < 2
        invariant
            r@ + planes_after(*pos, stm as int, c as int, 0) == pieces_seq(*pos, stm as int),
            stm < 2,
            ntm == 1 - stm,
            c <= 2,
            pos.pieces[0][5] != 0,
            pos.pieces[1][5] != 0,
            bs == persp_bucket(*pos, stm as int),
            bn == persp_bucket(*pos, 1 - stm),
            bs < 32,
            bn < 32,
            r@.no_duplicates(),
            r@.len() > 0 && r@[0] == king_pair(*pos, stm as int),
            forall|p: (usize, usize)| #[trigger] r@.contains(p) <==> (p == king_pair(*pos, stm as int) || exists|
                cc: int,
                t: int,
                s: int,
            | cc < c && 0 <= cc && 0 <= t < 5 && #[trigger] sq_in(pos.pieces[cc][t], s) && p == pair_of(
                *pos,
                stm as int,
                cc,
                t,
                s,
            )),
        decreases 2 - c,
    {
        let mut t: usize = 0;
        while t < 5
            invariant
                r@ + planes_after(*pos, stm as int, c as int, t as int) == pieces_seq(*pos, stm as int),
                stm < 2,
                ntm == 1 - stm,
                c < 2,
                t <= 5,
                pos.pieces[0][5] != 0,
                pos.pieces[1][5] != 0,
                bs == persp_bucket(*pos, stm as int),
                bn == persp_bucket(*pos, 1 - stm),
                bs < 32,
                bn < 32,
                r@.no_duplicates(),
                r@.len() > 0 && r@[0] == king_pair(*pos, stm as int),
                forall|p: (usize, usize)| #[trigger] r@.contains(p) <==> (p == king_pair(*pos, stm as int) || exists|
                    cc: int,
                    tt: int,
                    s: int,
                |
                    (cc < c || (cc == c && tt < t)) && 0 <= cc && 0 <= tt < 5 && #[trigger] sq_in(pos.pieces[cc][tt], s)
                        && p == pair_of(*pos, stm as int, cc, tt, s)),
            decreases 5 - t,
        {
            let mut part = emit_plane_pairs(pos, stm, bs, bn, c, t);
            let ghost r0 = r@;
            let ghost p0 = part@;
            proof {
                assert forall|q: (usize, usize)| r0.contains(q) implies !p0.contains(q) by {
                    if p0.contains(q) {
                        let s2 = choose|s: int|
                            #[trigger] sq_in(pos.pieces[c as int][t as int], s) && q == pair_of(
                                *pos,
                                stm as int,
                                c as int,
                                t as int,
                                s,
                            );
                        lemma_feature_bound(*pos, stm as int, c as int, t as int, s2);
                        if q == king_pair(*pos, stm as int) {
                            let k = lsb(pos.pieces[1 - stm][5]);
                            crate::bitboard::lemma_lsb(pos.pieces[1 - stm][5]);
                            lemma_feature_bound(*pos, stm as int, 1 - stm, 5, k);
                            lemma_piece_feature_injective(*pos, stm as int, 1 - stm, 5, k, c as int, t as int, s2);
                        } else {
                            let (c1, t1, s1) = choose|cc: int, tt: int, s: int|
                                (cc < c || (cc == c && tt < t)) && 0 <= cc && 0 <= tt < 5 && #[trigger] sq_in(
                                    pos.pieces[cc][tt],
                                    s,
                                ) && q == pair_of(*pos, stm as int, cc, tt, s);
                            lemma_feature_bound(*pos, stm as int, c1, t1, s1);
                            lemma_piece_feature_injective(*pos, stm as int, c1, t1, s1, c as int, t as int, s2);
                        }
                    }
                }
                lemma_concat_keeps(r0, p0);
            }
            r.append(&mut part);
            proof {
                assert(r@ =~= r0 + p0);
                assert(planes_after(*pos, stm as int, c as int, t as int) == plane_pairs(*pos, stm as int, c as int, t as int)
                    + planes_after(*pos, stm as int, c as int, t + 1));
                assert(r@ + planes_after(*pos, stm as int, c as int, t + 1) =~= r0 + planes_after(*pos, stm as int, c as int, t as int));
            }
            t = t + 1;
        }
        proof {
            assert(planes_after(*pos, stm as int, c as int, 5) == planes_after(*pos, stm as int, c + 1, 0));
        }
        c = c + 1;
    }
    proof {
        assert(planes_after(*pos, stm as int, 2, 0) =~= Seq::<(usize, usize)>::empty());
        assert(r@ =~= pieces_seq(*pos, stm as int));
    }
    r
}

/// The code (colour * 8 + kind) of the last of the first `k` bitboards, in
/// colour-then-kind order, that holds `s`; 255 if none does.
pub open spec fn owner_code(p: [[u64; 6]; 2], s: int, k: int) -> int
    decreases k,
{
    if k <= 0 {
        255
    } else if sq_in(p[(k - 1) / 6][(k - 1) % 6], s) {
        ((k - 1) / 6) * 8 + (k - 1) % 6
    } else {
        owner_code(p, s, k - 1)
    }
}

proof fn lemma_owner_code_range(p: [[u64; 6]; 2], s: int, k: int)
    requires
        0 <= k <= 12,
    ensures
        owner_code(p, s, k) == 255 || (0 <= owner_code(p, s, k) / 8 < 2 && 0 <= owner_code(p, s, k) % 8 < 6
            && sq_in(p[owner_code(p, s, k) / 8][owner_code(p, s, k) % 8], s)),
        owner_code(p, s, k) == 255 <==> forall|j: int| 0 <= j < k ==> !sq_in(#[trigger] p[j / 6][j % 6], s),
    decreases k,
{
    if k > 0 {
        lemma_owner_code_range(p, s, k - 1);
        if !sq_in(p[(k - 1) / 6][(k - 1) % 6], s) {
            assert forall|j: int| 0 <= j < k && (forall|i: int| 0 <= i < k - 1 ==> !sq_in(#[trigger] p[i / 6][i % 6], s))
                implies !sq_in(#[trigger] p[j / 6][j % 6], s) by {
                if j < k - 1 {
                }
            }
        } else {
            assert(!(forall|j: int| 0 <= j < k ==> !sq_in(#[trigger] p[j / 6][j % 6], s))) by {
                assert(0 <= k - 1 < k);
            }
        }
    }
}

/// A piece of colour `c`, kind `t` attacks `s`, as the attack maps say.
pub open spec fn attack_sq(pos: Pos, c: int, t: int, s: int) -> bool {
    if t < 5 {
        attacked_from(pos.pieces[c][t], c, t, occ_spec(pos.pieces), s)
    } else {
        pos.pieces[c][5] != 0 && sq_in(king_spec(lsb(pos.pieces[c][5])), s)
    }
}

/// The pair of threat features for an attacker of colour `ac`, kind `at` on
/// the piece standing on `s` (the last bitboard holding `s` names it): from
/// the side to move and from the other side, both past the piece features.
pub open spec fn threat_pair(pos: Pos, stm: int, ac: int, at: int, s: int) -> (usize, usize) {
    let code = owner_code(pos.pieces, s, 12);
    let vcol = code / 8;
    let vt = code % 8;
    let rel = if vcol == ac {
        1int
    } else {
        0
    };
    let side = if vcol == stm {
        0int
    } else {
        1
    };
    (
        (PIECE_FEATURES + threat_full_spec(side, rel, at, vt, persp_sq(stm, s))) as usize,
        (PIECE_FEATURES + threat_full_spec(1 - side, rel, at, vt, persp_sq(1 - stm, s))) as usize,
    )
}

/// A threat of `pos`, as a pair of features.
pub open spec fn threat_pair_active(pos: Pos, stm: int, p: (usize, usize)) -> bool {
    exists|ac: int, at: int, s: int|
        0 <= ac < 2 && 0 <= at < 6 && #[trigger] attack_sq(pos, ac, at, s) && sq_in(occ_spec(pos.pieces), s) && p
            == threat_pair(pos, stm, ac, at, s)
}

proof fn lemma_code_split(cod: u8)
    requires
        cod / 8 < 2,
        cod % 8 < 6,
    ensures
        cod >> 3u8 == cod / 8,
        cod & 7u8 == cod % 8,
{
    assert(cod >> 3u8 == cod / 8 && cod & 7u8 == cod % 8) by (bit_vector);
}

/// Which piece stands on each square: colour * 8 + kind of the last
/// bitboard holding it, 255 where none does.
fn square_owners(pos: &Pos) -> (em: [u8; 64])
    ensures
        forall|s: int| 0 <= s < 64 ==> #[trigger] em[s] == owner_code(pos.pieces, s, 12),
{
    let mut em: [u8; 64] = [255u8; 64];
    let mut c: usize = 0;
    while c < 2
        invariant
            c <= 2,
            forall|s: int| 0 <= s < 64 ==> #[trigger] em[s] == owner_code(pos.pieces, s, (c * 6) as int),
        decreases 2 - c,
    {
        let mut t: usize = 0;
        while t < 6
            invariant
                c < 2,
                t <= 6,
                forall|s: int| 0 <= s < 64 ==> #[trigger] em[s] == owner_code(pos.pieces, s, (c * 6 + t) as int),
            decreases 6 - t,
        {
            let mut bb = pos.pieces[c][t];
            while bb != 0
                invariant
                    c < 2,
                    t < 6,
                    forall|s: int| #[trigger] sq_in(bb, s) ==> sq_in(pos.pieces[c as int][t as int], s),
                    forall|s: int|
                        0 <= s < 64 ==> #[trigger] em[s] == (if sq_in(pos.pieces[c as int][t as int], s) && !sq_in(bb, s) {
                            (c * 8 + t) as int
                        } else {
                            owner_code(pos.pieces, s, (c * 6 + t) as int)
                        }),
                decreases bb,
            {
                let ghost prev = bb;
                let sq = crate::bitboard::pop_lsb(&mut bb);
                em[sq as usize] = (c * 8 + t) as u8;
                assert forall|s: int| 0 <= s < 64 implies #[trigger] em[s] == (if sq_in(pos.pieces[c as int][t as int], s)
                    && !sq_in(bb, s) {
                    (c * 8 + t) as int
                } else {
                    owner_code(pos.pieces, s, (c * 6 + t) as int)
                }) by {
                    if s != sq {
                        assert(sq_in(bb, s) <==> sq_in(prev, s));
                    }
                }
            }
            proof {
                assert forall|s: int| 0 <= s < 64 implies #[trigger] em[s] == owner_code(pos.pieces, s, (c * 6 + t + 1) as int) by {
                    crate::bitboard::lemma_sq_in_zero(s);
                    assert((c * 6 + t + 1 - 1) / 6 == c);
                    assert((c * 6 + t + 1 - 1) % 6 == t);
                }
            }
            t = t + 1;
        }
        c = c + 1;
    }
    em
}

proof fn lemma_occ_owner(p: [[u64; 6]; 2], s: int)
    requires
        sq_in(occ_spec(p), s),
    ensures
        owner_code(p, s, 12) != 255,
{
    broadcast use crate::bitboard::group_bitboard;

    lemma_owner_code_range(p, s, 12);
    if owner_code(p, s, 12) == 255 {
        assert(!sq_in(p[0int / 6][0int % 6], s));
        assert(!sq_in(p[1int / 6][1int % 6], s));
        assert(!sq_in(p[2int / 6][2int % 6], s));
        assert(!sq_in(p[3int / 6][3int % 6], s));
        assert(!sq_in(p[4int / 6][4int % 6], s));
        assert(!sq_in(p[5int / 6][5int % 6], s));
        assert(!sq_in(p[6int / 6][6int % 6], s));
        assert(!sq_in(p[7int / 6][7int % 6], s));
        assert(!sq_in(p[8int / 6][8int % 6], s));
        assert(!sq_in(p[9int / 6][9int % 6], s));
        assert(!sq_in(p[10int / 6][10int % 6], s));
        assert(!sq_in(p[11int / 6][11int % 6], s));
    }
}

/// Threat pairs of distinct (attacker colour, attacker kind, square) differ
/// in their first feature.
proof fn lemma_threat_pair_injective(pos: Pos, stm: int, ac1: int, at1: int, s1: int, ac2: int, at2: int, s2: int)
    requires
        0 <= stm < 2,
        0 <= ac1 < 2,
        0 <= at1 < 6,
        0 <= ac2 < 2,
        0 <= at2 < 6,
        sq_in(occ_spec(pos.pieces), s1),
        sq_in(occ_spec(pos.pieces), s2),
        threat_pair(pos, stm, ac1, at1, s1).0 == threat_pair(pos, stm, ac2, at2, s2).0,
    ensures
        ac1 == ac2,
        at1 == at2,
        s1 == s2,
        PIECE_FEATURES <= threat_pair(pos, stm, ac1, at1, s1).0 < PIECE_FEATURES + 9216,
{
    lemma_occ_owner(pos.pieces, s1);
    lemma_occ_owner(pos.pieces, s2);
    lemma_owner_code_range(pos.pieces, s1, 12);
    lemma_owner_code_range(pos.pieces, s2, 12);
    let c1 = owner_code(pos.pieces, s1, 12);
    let c2 = owner_code(pos.pieces, s2, 12);
    lemma_persp_involution(stm, s1);
    lemma_persp_involution(stm, s2);
    let side1 = if c1 / 8 == stm { 0int } else { 1 };
    let side2 = if c2 / 8 == stm { 0int } else { 1 };
    let rel1 = if c1 / 8 == ac1 { 1int } else { 0 };
    let rel2 = if c2 / 8 == ac2 { 1int } else { 0 };
    lemma_threat_decode(side1, rel1, at1, c1 % 8, persp_sq(stm, s1));
    lemma_threat_decode(side2, rel2, at2, c2 % 8, persp_sq(stm, s2));
}

/// The threat pairs of the attackers of colour `ac`, kind `at`.
fn emit_attacker_pairs(pos: &Pos, stm: usize, em: &[u8; 64], targets: u64, ac: usize, at: usize) -> (r: Vec<(usize, usize)>)
    requires
        stm < 2,
        ac < 2,
        at < 6,
        forall|s: int| 0 <= s < 64 ==> #[trigger] em[s] == owner_code(pos.pieces, s, 12),
        forall|s: int| #[trigger] sq_in(targets, s) <==> (attack_sq(*pos, ac as int, at as int, s) && sq_in(occ_spec(pos.pieces), s)),
    ensures
        r@.no_duplicates(),
        forall|p: (usize, usize)| #[trigger] r@.contains(p) ==> PIECE_FEATURES <= p.0 < PIECE_FEATURES + 9216,
        forall|p: (usize, usize)| #[trigger] r@.contains(p) <==> exists|s: int|
            #[trigger] sq_in(targets, s) && p == threat_pair(*pos, stm as int, ac as int, at as int, s),
        r@ == squares_of(targets).map_values(|s: int| threat_pair(*pos, stm as int, ac as int, at as int, s)),
{
    let ntm: usize = 1 - stm;
    let mut r: Vec<(usize, usize)> = Vec::new();
    let mut alvos = targets;
    proof {
        lemma_squares_none(alvos);
        assert(r@ =~= squares_by(|s: int| sq_in(targets, s) && !sq_in(alvos, s), 64).map_values(
            |s: int| threat_pair(*pos, stm as int, ac as int, at as int, s),
        ));
    }
    while alvos != 0
        invariant
            stm < 2,
            ntm == 1 - stm,
            ac < 2,
            at < 6,
            forall|s: int| 0 <= s < 64 ==> #[trigger] em[s] == owner_code(pos.pieces, s, 12),
            forall|s: int| #[trigger] sq_in(targets, s) <==> (attack_sq(*pos, ac as int, at as int, s) && sq_in(occ_spec(pos.pieces), s)),
            forall|s: int| #[trigger] sq_in(alvos, s) ==> sq_in(targets, s),
            r@ == squares_by(|s: int| sq_in(targets, s) && !sq_in(alvos, s), 64).map_values(
                |s: int| threat_pair(*pos, stm as int, ac as int, at as int, s),
            ),
            forall|s: int, u: int|
                #![trigger sq_in(targets, s), sq_in(alvos, u)]
                sq_in(targets, s) && !sq_in(alvos, s) && sq_in(alvos, u) ==> s < u,
            r@.no_duplicates(),
            forall|p: (usize, usize)| #[trigger] r@.contains(p) ==> PIECE_FEATURES <= p.0 < PIECE_FEATURES + 9216,
            forall|p: (usize, usize)| #[trigger] r@.contains(p) <==> exists|s: int|
                #[trigger] sq_in(targets, s) && !sq_in(alvos, s) && p == threat_pair(*pos, stm as int, ac as int, at as int, s),
        decreases alvos,
    {
        let ghost prev = alvos;
        let sq = crate::bitboard::pop_lsb(&mut alvos);
        let cod = em[sq as usize];
        proof {
            lemma_occ_owner(pos.pieces, sq as int);
            lemma_owner_code_range(pos.pieces, sq as int, 12);
            lemma_code_split(cod);
        }
        let v_col = (cod >> 3) as usize;
        let vt = (cod & 7) as usize;
        let rel: usize = if v_col == ac {
            1
        } else {
            0
        };
        let side_stm: usize = if v_col == stm {
            0
        } else {
            1
        };
        let sq_stm = flip_for(stm, sq as usize);
        let sq_ntm = flip_for(ntm, sq as usize);
        proof {
            lemma_threat_decode(side_stm as int, rel as int, at as int, vt as int, sq_stm as int);
            lemma_threat_decode((1 - side_stm) as int, rel as int, at as int, vt as int, sq_ntm as int);
        }
        let x = PIECE_FEATURES + make_threat_full(side_stm, rel, at, vt, sq_stm);
        let y = PIECE_FEATURES + make_threat_full(1 - side_stm, rel, at, vt, sq_ntm);
        proof {
            assert((x, y) == threat_pair(*pos, stm as int, ac as int, at as int, sq as int));
            assert forall|q: (usize, usize)| r@.contains(q) implies q != (x, y) by {
                let s = choose|s: int|
                    #[trigger] sq_in(targets, s) && !sq_in(prev, s) && q == threat_pair(*pos, stm as int, ac as int, at as int, s);
                if q == (x, y) {
                    lemma_threat_pair_injective(*pos, stm as int, ac as int, at as int, s, ac as int, at as int, sq as int);
                }
            }
            lemma_push_keeps(r@, (x, y));
            assert forall|u: int| 0 <= u < 64 && sq_in(targets, u) && !sq_in(prev, u) implies u < sq by {
                assert(sq_in(prev, sq as int));
            }
            lemma_squares_pop(targets, prev, alvos, sq as int);
        }
        r.push((x, y));
        proof {
            let f = |s: int| threat_pair(*pos, stm as int, ac as int, at as int, s);
            let sq0 = squares_by(|s: int| sq_in(targets, s) && !sq_in(prev, s), 64);
            assert(r@ =~= sq0.push(sq as int).map_values(f));
            assert forall|a: int, u: int|
                #![trigger sq_in(targets, a), sq_in(alvos, u)]
                sq_in(targets, a) && !sq_in(alvos, a) && sq_in(alvos, u) implies a < u by {
                assert(sq_in(prev, u));
                if a != sq {
                    assert(!sq_in(prev, a));
                }
            }
        }
        assert forall|q: (usize, usize)| #[trigger] r@.contains(q) <==> exists|s: int|
            #[trigger] sq_in(targets, s) && !sq_in(alvos, s) && q == threat_pair(*pos, stm as int, ac as int, at as int, s) by {
            if exists|s: int|
                #[trigger] sq_in(targets, s) && !sq_in(alvos, s) && q == threat_pair(*pos, stm as int, ac as int, at as int, s) {
                let s = choose|s: int|
                    #[trigger] sq_in(targets, s) && !sq_in(alvos, s) && q == threat_pair(*pos, stm as int, ac as int, at as int, s);
                if s != sq {
                    assert(!sq_in(prev, s));
                }
            }
        }
    }
    proof {
        assert forall|p: (usize, usize)| #[trigger] r@.contains(p) <==> exists|s: int|
            #[trigger] sq_in(targets, s) && p == threat_pair(*pos, stm as int, ac as int, at as int, s) by {
            if exists|s: int| #[trigger] sq_in(targets, s) && p == threat_pair(*pos, stm as int, ac as int, at as int, s) {
                let s = choose|s: int| #[trigger] sq_in(targets, s) && p == threat_pair(*pos, stm as int, ac as int, at as int, s);
                crate::bitboard::lemma_sq_in_zero(s);
            }
        }
    }
    proof {
        assert forall|u: int| !sq_in(alvos, u) by {
            crate::bitboard::lemma_sq_in_zero(u);
        }
        lemma_squares_done(targets, alvos);
    }
    r
}

proof fn lemma_piece_in_occ(p: [[u64; 6]; 2], c: int, t: int, s: int)
    requires
        0 <= c < 2,
        0 <= t < 6,
        sq_in(p[c][t], s),
    ensures
        sq_in(occ_spec(p), s),
{
    broadcast use crate::bitboard::group_bitboard;
}

/// No square is in two of the twelve bitboards.
pub open spec fn pieces_disjoint(pos: Pos) -> bool {
    forall|c1: int, t1: int, c2: int, t2: int, s: int|
        0 <= c1 < 2 && 0 <= t1 < 6 && 0 <= c2 < 2 && 0 <= t2 < 6 && #[trigger] sq_in(pos.pieces[c1][t1], s) && #[trigger] sq_in(
            pos.pieces[c2][t2],
            s,
        ) ==> c1 == c2 && t1 == t2
}

proof fn lemma_threat_rebuild(x: int)
    by (nonlinear_arith)
    requires
        0 <= x < 9216,
    ensures
        x == threat_full_spec(x / 4608, (x / 2304) % 2, (x / 384) % 6, (x / 64) % 6, x % 64),
        0 <= x / 4608 < 2,
        0 <= (x / 2304) % 2 < 2,
        0 <= (x / 384) % 6 < 6,
        0 <= (x / 64) % 6 < 6,
        0 <= x % 64 < 64,
{
}

/// The threat feature, from `persp`'s side, of attacker colour `ac`, kind
/// `at` on the piece standing on `s`.
pub open spec fn threat_feature_from(pos: Pos, persp: int, ac: int, at: int, s: int) -> int {
    let code = owner_code(pos.pieces, s, 12);
    let vcol = code / 8;
    threat_full_spec(
        if vcol == persp {
            0int
        } else {
            1
        },
        if vcol == ac {
            1int
        } else {
            0
        },
        at,
        code % 8,
        persp_sq(persp, s),
    )
}

proof fn lemma_threat_pair_parts(pos: Pos, stm: int, ac: int, at: int, s: int)
    requires
        0 <= stm < 2,
        0 <= at < 6,
        sq_in(occ_spec(pos.pieces), s),
    ensures
        threat_pair(pos, stm, ac, at, s).0 == PIECE_FEATURES + threat_feature_from(pos, stm, ac, at, s),
        threat_pair(pos, stm, ac, at, s).1 == PIECE_FEATURES + threat_feature_from(pos, 1 - stm, ac, at, s),
{
    lemma_threat_feature_bound(pos, stm, ac, at, s);
    lemma_threat_feature_bound(pos, 1 - stm, ac, at, s);
    lemma_occ_owner(pos.pieces, s);
    lemma_owner_code_range(pos.pieces, s, 12);
}

/// A threat of colour `ac`, kind `at` on an occupied square is an active
/// threat feature from either side.
proof fn lemma_threat_pair_active_feature(pos: Pos, persp: int, maps: [[u64; 6]; 2], ac: int, at: int, s: int)
    requires
        0 <= persp < 2,
        0 <= ac < 2,
        0 <= at < 6,
        attack_maps_ok(maps, pos),
        attack_sq(pos, ac, at, s),
        sq_in(occ_spec(pos.pieces), s),
    ensures
        threat_active(pos, persp, maps, threat_feature_from(pos, persp, ac, at, s)),
{
    lemma_occ_owner(pos.pieces, s);
    lemma_owner_code_range(pos.pieces, s, 12);
    let code = owner_code(pos.pieces, s, 12);
    let vcol = code / 8;
    let vt = code % 8;
    let side = if vcol == persp { 0int } else { 1 };
    let rel = if vcol == ac { 1int } else { 0 };
    lemma_persp_involution(persp, s);
    lemma_threat_decode(side, rel, at, vt, persp_sq(persp, s));
    assert(victim_colour(persp, side) == vcol);
    assert(relation_colour(vcol, rel) == ac);
    if at < 5 {
        assert(sq_in(maps[ac][at], s));
    } else {
        assert(maps[ac][5] == king_spec(lsb(pos.pieces[ac][5])));
    }
}

/// An active threat feature from `persp`'s side comes from a threat on an
/// occupied square, when no square holds two pieces.
proof fn lemma_threat_feature_from_pair(pos: Pos, persp: int, maps: [[u64; 6]; 2], x: int)
    requires
        0 <= persp < 2,
        attack_maps_ok(maps, pos),
        pieces_disjoint(pos),
        threat_active(pos, persp, maps, x),
    ensures
        exists|ac: int, at: int, s: int|
            0 <= ac < 2 && 0 <= at < 6 && #[trigger] attack_sq(pos, ac, at, s) && sq_in(occ_spec(pos.pieces), s)
                && threat_feature_from(pos, persp, ac, at, s) == x,
{
    broadcast use crate::bitboard::group_bitboard;
    lemma_threat_rebuild(x);
    let side = x / 4608;
    let rel = (x / 2304) % 2;
    let at = (x / 384) % 6;
    let vt = (x / 64) % 6;
    let q = x % 64;
    let s = persp_sq(persp, q);
    let vcol = victim_colour(persp, side);
    let ac = relation_colour(vcol, rel);
    lemma_persp_involution(persp, q);
    assert(sq_in(pos.pieces[vcol][vt], s));
    assert(sq_in(occ_spec(pos.pieces), s)) by {
        lemma_piece_in_occ(pos.pieces, vcol, vt, s);
    }
    lemma_occ_owner(pos.pieces, s);
    lemma_owner_code_range(pos.pieces, s, 12);
    let code = owner_code(pos.pieces, s, 12);
    assert(code / 8 == vcol && code % 8 == vt);
    assert(persp_sq(persp, s) == q);
    if at < 5 {
        assert(sq_in(maps[ac][at], s));
        assert(attack_sq(pos, ac, at, s));
    } else {
        assert(attack_sq(pos, ac, at, s));
    }
    assert(threat_feature_from(pos, persp, ac, at, s) == x);
}

/// With no square holding two pieces, the threat pairs are the threat
/// features of both sides: their first members, less `PIECE_FEATURES`, are
/// the active threat features for the side to move (what `gather_threats_full`
/// gives from the attack maps), their second members those for the other side.
pub proof fn lemma_threat_pairs_are_features(pos: Pos, stm: int, maps: [[u64; 6]; 2])
    requires
        0 <= stm < 2,
        attack_maps_ok(maps, pos),
        pieces_disjoint(pos),
    ensures
        forall|x: int| #[trigger] threat_active(pos, stm, maps, x) <==> exists|p: (usize, usize)|
            #[trigger] threat_pair_active(pos, stm, p) && p.0 as int == PIECE_FEATURES + x,
        forall|x: int| #[trigger] threat_active(pos, 1 - stm, maps, x) <==> exists|p: (usize, usize)|
            #[trigger] threat_pair_active(pos, stm, p) && p.1 as int == PIECE_FEATURES + x,
{
    assert forall|x: int| #[trigger] threat_active(pos, stm, maps, x) implies exists|p: (usize, usize)|
        #[trigger] threat_pair_active(pos, stm, p) && p.0 as int == PIECE_FEATURES + x by {
        lemma_threat_feature_from_pair(pos, stm, maps, x);
        let (ac, at, s) = choose|ac: int, at: int, s: int|
            0 <= ac < 2 && 0 <= at < 6 && #[trigger] attack_sq(pos, ac, at, s) && sq_in(occ_spec(pos.pieces), s)
                && threat_feature_from(pos, stm, ac, at, s) == x;
        lemma_threat_pair_parts(pos, stm, ac, at, s);
        assert(threat_pair_active(pos, stm, threat_pair(pos, stm, ac, at, s)));
    }
    assert forall|x: int| (exists|p: (usize, usize)| #[trigger] threat_pair_active(pos, stm, p) && p.0 as int == PIECE_FEATURES + x)
        implies #[trigger] threat_active(pos, stm, maps, x) by {
        let p = choose|p: (usize, usize)| #[trigger] threat_pair_active(pos, stm, p) && p.0 as int == PIECE_FEATURES + x;
        let (ac, at, s) = choose|ac: int, at: int, s: int|
            0 <= ac < 2 && 0 <= at < 6 && #[trigger] attack_sq(pos, ac, at, s) && sq_in(occ_spec(pos.pieces), s) && p
                == threat_pair(pos, stm, ac, at, s);
        lemma_threat_pair_parts(pos, stm, ac, at, s);
        lemma_threat_pair_active_feature(pos, stm, maps, ac, at, s);
        lemma_threat_feature_bound(pos, stm, ac, at, s);
    }
    assert forall|x: int| #[trigger] threat_active(pos, 1 - stm, maps, x) implies exists|p: (usize, usize)|
        #[trigger] threat_pair_active(pos, stm, p) && p.1 as int == PIECE_FEATURES + x by {
        lemma_threat_feature_from_pair(pos, 1 - stm, maps, x);
        let (ac, at, s) = choose|ac: int, at: int, s: int|
            0 <= ac < 2 && 0 <= at < 6 && #[trigger] attack_sq(pos, ac, at, s) && sq_in(occ_spec(pos.pieces), s)
                && threat_feature_from(pos, 1 - stm, ac, at, s) == x;
        lemma_threat_pair_parts(pos, stm, ac, at, s);
        assert(threat_pair_active(pos, stm, threat_pair(pos, stm, ac, at, s)));
    }
    assert forall|x: int| (exists|p: (usize, usize)| #[trigger] threat_pair_active(pos, stm, p) && p.1 as int == PIECE_FEATURES + x)
        implies #[trigger] threat_active(pos, 1 - stm, maps, x) by {
        let p = choose|p: (usize, usize)| #[trigger] threat_pair_active(pos, stm, p) && p.1 as int == PIECE_FEATURES + x;
        let (ac, at, s) = choose|ac: int, at: int, s: int|
            0 <= ac < 2 && 0 <= at < 6 && #[trigger] attack_sq(pos, ac, at, s) && sq_in(occ_spec(pos.pieces), s) && p
                == threat_pair(pos, stm, ac, at, s);
        lemma_threat_pair_parts(pos, stm, ac, at, s);
        lemma_threat_pair_active_feature(pos, 1 - stm, maps, ac, at, s);
        lemma_threat_feature_bound(pos, 1 - stm, ac, at, s);
    }
}

proof fn lemma_threat_feature_bound(pos: Pos, persp: int, ac: int, at: int, s: int)
    requires
        0 <= persp < 2,
        0 <= at < 6,
        sq_in(occ_spec(pos.pieces), s),
    ensures
        0 <= threat_feature_from(pos, persp, ac, at, s) < 9216,
{
    lemma_occ_owner(pos.pieces, s);
    lemma_owner_code_range(pos.pieces, s, 12);
    let code = owner_code(pos.pieces, s, 12);
    let vcol = code / 8;
    lemma_persp_involution(persp, s);
    lemma_threat_decode(if vcol == persp { 0int } else { 1 }, if vcol == ac { 1int } else { 0 }, at, code % 8, persp_sq(persp, s));
}

proof fn lemma_piece_pairs_low(pos: Pos, stm: int, p: (usize, usize))
    requires
        0 <= stm < 2,
        pos.pieces[0][5] != 0,
        pos.pieces[1][5] != 0,
        p == king_pair(pos, stm) || piece_pair_active(pos, stm, p),
    ensures
        p.0 < PIECE_FEATURES,
{
    if p == king_pair(pos, stm) {
        crate::bitboard::lemma_lsb(pos.pieces[1 - stm][5]);
        lemma_feature_bound(pos, stm, 1 - stm, 5, lsb(pos.pieces[1 - stm][5]));
    } else {
        let (c, t, s) = choose|c: int, t: int, s: int|
            0 <= c < 2 && 0 <= t < 5 && #[trigger] sq_in(pos.pieces[c][t], s) && p == pair_of(pos, stm, c, t, s);
        lemma_feature_bound(pos, stm, c, t, s);
    }
}

/// Both members of every feature pair are inputs of the full set: pieces
/// below `PIECE_FEATURES`, threats above them and below `TOTAL_INPUTS_V10`.
pub proof fn lemma_feature_pair_range(pos: Pos, stm: int, p: (usize, usize))
    requires
        0 <= stm < 2,
        pos.pieces[0][5] != 0,
        pos.pieces[1][5] != 0,
        p == king_pair(pos, stm) || piece_pair_active(pos, stm, p) || threat_pair_active(pos, stm, p),
    ensures
        p.0 < TOTAL_INPUTS_V10,
        p.1 < TOTAL_INPUTS_V10,
{
    if p == king_pair(pos, stm) {
        crate::bitboard::lemma_lsb(pos.pieces[1 - stm][5]);
        crate::bitboard::lemma_lsb(pos.pieces[stm][5]);
        lemma_feature_bound(pos, stm, 1 - stm, 5, lsb(pos.pieces[1 - stm][5]));
        lemma_feature_bound(pos, 1 - stm, stm, 5, lsb(pos.pieces[stm][5]));
    } else if piece_pair_active(pos, stm, p) {
        let (c, t, s) = choose|c: int, t: int, s: int|
            0 <= c < 2 && 0 <= t < 5 && #[trigger] sq_in(pos.pieces[c][t], s) && p == pair_of(pos, stm, c, t, s);
        lemma_feature_bound(pos, stm, c, t, s);
        lemma_feature_bound(pos, 1 - stm, c, t, s);
    } else {
        let (ac, at, s) = choose|ac: int, at: int, s: int|
            0 <= ac < 2 && 0 <= at < 6 && #[trigger] attack_sq(pos, ac, at, s) && sq_in(occ_spec(pos.pieces), s) && p
                == threat_pair(pos, stm, ac, at, s);
        lemma_threat_pair_parts(pos, stm, ac, at, s);
        lemma_threat_feature_bound(pos, stm, ac, at, s);
        lemma_threat_feature_bound(pos, 1 - stm, ac, at, s);
    }
}

/// The squares of colour `ac`, kind `at` attacks that hold a piece.
fn attacked_targets(maps: &[[u64; 6]; 2], pos: &Pos, todas: u64, ac: usize, at: usize) -> (r: u64)
    requires
        attack_maps_ok(*maps, *pos),
        todas == occ_spec(pos.pieces),
        ac < 2,
        at < 6,
    ensures
        forall|s: int| #[trigger] sq_in(r, s) <==> (attack_sq(*pos, ac as int, at as int, s) && sq_in(
            occ_spec(pos.pieces),
            s,
        )),
{
    broadcast use crate::bitboard::group_bitboard;

    let r = maps[ac][at] & todas;
    assert forall|s: int| #[trigger] sq_in(r, s) <==> (attack_sq(*pos, ac as int, at as int, s) && sq_in(
        occ_spec(pos.pieces),
        s,
    )) by {
        if at == 5 && pos.pieces[ac as int][5] == 0 {
            assert(maps[ac as int][5] == 0);
        }
        if at < 5 {
            assert(sq_in(maps[ac as int][at as int], s) <==> attacked_from(
                pos.pieces[ac as int][at as int],
                ac as int,
                at as int,
                occ_spec(pos.pieces),
                s,
            ));
        }
    }
    r
}

/// `r` holds first the piece pairs (up to `k`), then only pairs that `tail` admits.
pub open spec fn pieces_then(pos: Pos, stm: int, r: Seq<(usize, usize)>, k: int, mode: u8) -> bool {
    &&& 0 <= k <= r.len()
    &&& forall|i: int| 0 <= i < k ==> #[trigger] piece_pair(pos, stm, r[i])
    &&& forall|i: int| k <= i < r.len() ==> (if mode == 2 {
        threat_pair_active(pos, stm, #[trigger] r[i])
    } else {
        threat640_active(pos, stm, r[i])
    })
}

/// Every feature of `pos` in pairs (side to move's view, other side's view):
/// the piece pairs as `map_pieces_pairs` gives them, then one pair per threat
/// (attacker colour, attacker kind, attacked piece), each once.
pub fn map_features_pairs(pos: &Pos, stm: usize) -> (r: Vec<(usize, usize)>)
    requires
        stm < 2,
        pos.pieces[0][5] != 0,
        pos.pieces[1][5] != 0,
    ensures
        r@.no_duplicates(),
        forall|p: (usize, usize)| #[trigger] r@.contains(p) <==> (p == king_pair(*pos, stm as int)
            || piece_pair_active(*pos, stm as int, p) || threat_pair_active(*pos, stm as int, p)),
        exists|k: int| #[trigger] pieces_then(*pos, stm as int, r@, k, 2),
        r@.len() > 0 && r@[0] == king_pair(*pos, stm as int),
        r@ == features_seq(*pos, stm as int),
{
    let mut r = map_pieces_pairs(pos, stm);
    let ghost k0 = r@.len() as int;
    assert forall|i: int| 0 <= i < k0 implies #[trigger] piece_pair(*pos, stm as int, r@[i]) by {
        assert(r@.contains(r@[i]));
    }
    assert(r@ + threats_after(*pos, stm as int, 0, 0) == features_seq(*pos, stm as int));
    let maps = compute_attack_maps_by_type(pos);
    let em = square_owners(pos);
    let todas = pos.occ();
    let mut ac: usize = 0;
    while ac < 2
        invariant
            stm < 2,
            ac <= 2,
            pos.pieces[0][5] != 0,
            pos.pieces[1][5] != 0,
            attack_maps_ok(maps, *pos),
            todas == occ_spec(pos.pieces),
            forall|s: int| 0 <= s < 64 ==> #[trigger] em[s] == owner_code(pos.pieces, s, 12),
            r@.no_duplicates(),
            forall|p: (usize, usize)| #[trigger] r@.contains(p) <==> (p == king_pair(*pos, stm as int)
                || piece_pair_active(*pos, stm as int, p) || exists|a: int, t: int, s: int|
                0 <= a < ac && 0 <= t < 6 && #[trigger] attack_sq(*pos, a, t, s) && sq_in(occ_spec(pos.pieces), s)
                    && p == threat_pair(*pos, stm as int, a, t, s)),
            pieces_then(*pos, stm as int, r@, k0, 2),
            r@.len() > 0 && r@[0] == king_pair(*pos, stm as int),
            r@ + threats_after(*pos, stm as int, ac as int, 0) == features_seq(*pos, stm as int),
        decreases 2 - ac,
    {
        let mut at: usize = 0;
        while at < 6
            invariant
                stm < 2,
                ac < 2,
                at <= 6,
                pos.pieces[0][5] != 0,
                pos.pieces[1][5] != 0,
                attack_maps_ok(maps, *pos),
                todas == occ_spec(pos.pieces),
                forall|s: int| 0 <= s < 64 ==> #[trigger] em[s] == owner_code(pos.pieces, s, 12),
                r@.no_duplicates(),
                forall|p: (usize, usize)| #[trigger] r@.contains(p) <==> (p == king_pair(*pos, stm as int)
                    || piece_pair_active(*pos, stm as int, p) || exists|a: int, t: int, s: int|
                    (0 <= a < ac || (a == ac && 0 <= t < at)) && 0 <= t < 6 && #[trigger] attack_sq(*pos, a, t, s)
                        && sq_in(occ_spec(pos.pieces), s) && p == threat_pair(*pos, stm as int, a, t, s)),
                pieces_then(*pos, stm as int, r@, k0, 2),
                r@.len() > 0 && r@[0] == king_pair(*pos, stm as int),
                r@ + threats_after(*pos, stm as int, ac as int, at as int) == features_seq(*pos, stm as int),
            decreases 6 - at,
        {
            let targets = attacked_targets(&maps, pos, todas, ac, at);
            let mut part = emit_attacker_pairs(pos, stm, &em, targets, ac, at);
            let ghost r0 = r@;
            let ghost p0 = part@;
            proof {
                assert forall|q: (usize, usize)| r0.contains(q) implies !p0.contains(q) by {
                    if p0.contains(q) {
                        let s2 = choose|s: int|
                            #[trigger] sq_in(targets, s) && q == threat_pair(*pos, stm as int, ac as int, at as int, s);
                        if q == king_pair(*pos, stm as int) || piece_pair_active(*pos, stm as int, q) {
                            lemma_piece_pairs_low(*pos, stm as int, q);
                        } else {
                            let (a1, t1, s1) = choose|a: int, t: int, s: int|
                                (0 <= a < ac || (a == ac && 0 <= t < at)) && 0 <= t < 6 && #[trigger] attack_sq(
                                    *pos,
                                    a,
                                    t,
                                    s,
                                ) && sq_in(occ_spec(pos.pieces), s) && q == threat_pair(*pos, stm as int, a, t, s);
                            lemma_threat_pair_injective(*pos, stm as int, a1, t1, s1, ac as int, at as int, s2);
                        }
                    }
                }
                lemma_concat_keeps(r0, p0);
            }
            r.append(&mut part);
            assert(r@ =~= r0 + p0);
            assert forall|i: int| k0 <= i < r@.len() implies threat_pair_active(*pos, stm as int, #[trigger] r@[i]) by {
                if i >= r0.len() {
                    let q = r@[i];
                    assert(p0[i - r0.len()] == q);
                    assert(p0.contains(q));
                    let s2 = choose|s: int|
                        #[trigger] sq_in(targets, s) && q == threat_pair(*pos, stm as int, ac as int, at as int, s);
                    assert(attack_sq(*pos, ac as int, at as int, s2));
                } else {
                    assert(r@[i] == r0[i]);
                }
            }
            assert forall|i: int| 0 <= i < k0 implies #[trigger] piece_pair(*pos, stm as int, r@[i]) by {
                assert(r@[i] == r0[i]);
            }
            assert(pieces_then(*pos, stm as int, r@, k0, 2));
            assert(r@[0] == r0[0]);
            proof {
                lemma_squares_agree(
                    |s: int| sq_in(targets, s),
                    |s: int| attack_sq(*pos, ac as int, at as int, s) && sq_in(occ_spec(pos.pieces), s),
                    64,
                );
            }
            assert(p0 == threat_block(*pos, stm as int, ac as int, at as int));
            assert(threats_after(*pos, stm as int, ac as int, at as int) == threat_block(*pos, stm as int, ac as int, at as int)
                + threats_after(*pos, stm as int, ac as int, at + 1));
            assert(r@ + threats_after(*pos, stm as int, ac as int, at + 1) =~= r0 + threats_after(*pos, stm as int, ac as int, at as int));
            assert forall|p: (usize, usize)| #[trigger] r@.contains(p) <==> (p == king_pair(*pos, stm as int)
                || piece_pair_active(*pos, stm as int, p) || exists|a: int, t: int, s: int|
                (0 <= a < ac || (a == ac && 0 <= t < at + 1)) && 0 <= t < 6 && #[trigger] attack_sq(*pos, a, t, s)
                    && sq_in(occ_spec(pos.pieces), s) && p == threat_pair(*pos, stm as int, a, t, s)) by {
                if p0.contains(p) {
                    let s2 = choose|s: int|
                        #[trigger] sq_in(targets, s) && p == threat_pair(*pos, stm as int, ac as int, at as int, s);
                    assert(attack_sq(*pos, ac as int, at as int, s2));
                }
                if exists|a: int, t: int, s: int|
                    (0 <= a < ac || (a == ac && 0 <= t < at + 1)) && 0 <= t < 6 && #[trigger] attack_sq(*pos, a, t, s)
                        && sq_in(occ_spec(pos.pieces), s) && p == threat_pair(*pos, stm as int, a, t, s) {
                    let (a1, t1, s1) = choose|a: int, t: int, s: int|
                        (0 <= a < ac || (a == ac && 0 <= t < at + 1)) && 0 <= t < 6 && #[trigger] attack_sq(*pos, a, t, s)
                            && sq_in(occ_spec(pos.pieces), s) && p == threat_pair(*pos, stm as int, a, t, s);
                    if a1 == ac && t1 == at {
                        assert(sq_in(targets, s1));
                    }
                }
            }
            at = at + 1;
        }
        proof {
            assert(threats_after(*pos, stm as int, ac as int, 6) == threats_after(*pos, stm as int, ac + 1, 0));
        }
        ac = ac + 1;
    }
    proof {
        assert(threats_after(*pos, stm as int, 2, 0) =~= Seq::<(usize, usize)>::empty());
        assert(r@ =~= features_seq(*pos, stm as int));
    }
    r
}

/// Some piece of colour `c` attacks `s`.
pub open spec fn attacked_by_colour(pos: Pos, c: int, s: int) -> bool {
    exists|t: int| 0 <= t < 6 && #[trigger] attack_sq(pos, c, t, s)
}

/// The pair of 640-set threat features of the piece of colour `vcol`, kind
/// `vt` on `s`: direction 0 for the side to move's own pieces.
pub open spec fn threat640_pair(pos: Pos, stm: int, vcol: int, vt: int, s: int) -> (usize, usize) {
    let dir = if vcol == stm {
        0int
    } else {
        1
    };
    (
        (PIECE_FEATURES + threat_640_spec(dir, vt, persp_sq(stm, s))) as usize,
        (PIECE_FEATURES + threat_640_spec(1 - dir, vt, persp_sq(1 - stm, s))) as usize,
    )
}

/// A pawn to queen of `pos` that the other colour attacks, as a pair of
/// 640-set features.
pub open spec fn threat640_active(pos: Pos, stm: int, p: (usize, usize)) -> bool {
    exists|vcol: int, vt: int, s: int|
        0 <= vcol < 2 && 0 <= vt < 5 && #[trigger] sq_in(pos.pieces[vcol][vt], s) && attacked_by_colour(
            pos,
            1 - vcol,
            s,
        ) && p == threat640_pair(pos, stm, vcol, vt, s)
}

proof fn lemma_threat640_injective(pos: Pos, stm: int, c1: int, t1: int, s1: int, c2: int, t2: int, s2: int)
    requires
        0 <= stm < 2,
        0 <= c1 < 2,
        0 <= t1 < 5,
        0 <= c2 < 2,
        0 <= t2 < 5,
        0 <= s1 < 64,
        0 <= s2 < 64,
        threat640_pair(pos, stm, c1, t1, s1).0 == threat640_pair(pos, stm, c2, t2, s2).0,
    ensures
        c1 == c2,
        t1 == t2,
        s1 == s2,
{
    lemma_persp_involution(stm, s1);
    lemma_persp_involution(stm, s2);
    let d1 = if c1 == stm { 0int } else { 1 };
    let d2 = if c2 == stm { 0int } else { 1 };
    let q1 = persp_sq(stm, s1);
    let q2 = persp_sq(stm, s2);
    lemma_fundamental_div_mod_converse(threat_640_spec(d1, t1, q1), 64, d1 * 5 + t1, q1);
    lemma_fundamental_div_mod_converse(threat_640_spec(d2, t2, q2), 64, d2 * 5 + t2, q2);
    lemma_fundamental_div_mod_converse(d1 * 5 + t1, 5, d1, t1);
    lemma_fundamental_div_mod_converse(d2 * 5 + t2, 5, d2, t2);
}

/// The 640-set threat pairs of the attacked pieces of colour `v_col`, kind `vt`.
fn emit_threat640(pos: &Pos, stm: usize, enemy: u64, v_col: usize, vt: usize) -> (r: Vec<(usize, usize)>)
    requires
        stm < 2,
        v_col < 2,
        vt < 5,
        forall|s: int| #[trigger] sq_in(enemy, s) <==> attacked_by_colour(*pos, 1 - v_col, s),
    ensures
        r@.no_duplicates(),
        forall|p: (usize, usize)| #[trigger] r@.contains(p) <==> exists|s: int|
            #[trigger] sq_in(pos.pieces[v_col as int][vt as int], s) && attacked_by_colour(*pos, 1 - v_col, s) && p
                == threat640_pair(*pos, stm as int, v_col as int, vt as int, s),
        r@ == t640_block(*pos, stm as int, v_col as int, vt as int),
{
    let ntm: usize = 1 - stm;
    let mut r: Vec<(usize, usize)> = Vec::new();
    let mut victims = pos.pieces[v_col][vt];
    proof {
        lemma_squares_agree(
            |s: int| sq_in(pos.pieces[v_col as int][vt as int], s) && !sq_in(victims, s) && attacked_by_colour(*pos, 1 - v_col, s),
            |s: int| false,
            64,
        );
        lemma_squares_false(64);
        assert(r@ =~= squares_by(
            |s: int| sq_in(pos.pieces[v_col as int][vt as int], s) && !sq_in(victims, s) && attacked_by_colour(*pos, 1 - v_col, s),
            64,
        ).map_values(|s: int| threat640_pair(*pos, stm as int, v_col as int, vt as int, s)));
    }
    while victims != 0
        invariant
            stm < 2,
            ntm == 1 - stm,
            v_col < 2,
            vt < 5,
            forall|s: int| #[trigger] sq_in(enemy, s) <==> attacked_by_colour(*pos, 1 - v_col, s),
            forall|s: int| #[trigger] sq_in(victims, s) ==> sq_in(pos.pieces[v_col as int][vt as int], s),
            r@ == squares_by(
                |s: int| sq_in(pos.pieces[v_col as int][vt as int], s) && !sq_in(victims, s) && attacked_by_colour(*pos, 1 - v_col, s),
                64,
            ).map_values(|s: int| threat640_pair(*pos, stm as int, v_col as int, vt as int, s)),
            forall|s: int, u: int|
                #![trigger sq_in(pos.pieces[v_col as int][vt as int], s), sq_in(victims, u)]
                sq_in(pos.pieces[v_col as int][vt as int], s) && !sq_in(victims, s) && sq_in(victims, u) ==> s < u,
            r@.no_duplicates(),
            forall|p: (usize, usize)| #[trigger] r@.contains(p) <==> exists|s: int|
                #[trigger] sq_in(pos.pieces[v_col as int][vt as int], s) && !sq_in(victims, s) && attacked_by_colour(
                    *pos,
                    1 - v_col,
                    s,
                ) && p == threat640_pair(*pos, stm as int, v_col as int, vt as int, s),
        decreases victims,
    {
        let ghost prev = victims;
        let sq = crate::bitboard::pop_lsb(&mut victims);
        let ghost r_before = r@;
        proof {
            crate::movegen::lemma_single_and(enemy, sq);
            assert forall|u: int| 0 <= u < 64 && sq_in(pos.pieces[v_col as int][vt as int], u) && !sq_in(prev, u) implies u < sq by {
                assert(sq_in(prev, sq as int));
            }
            assert forall|a: int, u: int|
                #![trigger sq_in(pos.pieces[v_col as int][vt as int], a), sq_in(victims, u)]
                sq_in(pos.pieces[v_col as int][vt as int], a) && !sq_in(victims, a) && sq_in(victims, u) implies a < u by {
                assert(sq_in(prev, u));
                if a != sq {
                    assert(!sq_in(prev, a));
                }
            }
        }
        if enemy & (1u64 << sq) != 0 {
            let dir_stm: usize = if v_col == stm {
                0
            } else {
                1
            };
            let sq_stm = flip_for(stm, sq as usize);
            let sq_ntm = flip_for(ntm, sq as usize);
            let x = PIECE_FEATURES + make_threat_640(dir_stm, vt, sq_stm);
            let y = PIECE_FEATURES + make_threat_640(1 - dir_stm, vt, sq_ntm);
            proof {
                assert((x, y) == threat640_pair(*pos, stm as int, v_col as int, vt as int, sq as int));
                assert forall|q: (usize, usize)| r@.contains(q) implies q != (x, y) by {
                    let s = choose|s: int|
                        #[trigger] sq_in(pos.pieces[v_col as int][vt as int], s) && !sq_in(prev, s) && attacked_by_colour(
                            *pos,
                            1 - v_col,
                            s,
                        ) && q == threat640_pair(*pos, stm as int, v_col as int, vt as int, s);
                    if q == (x, y) {
                        lemma_threat640_injective(*pos, stm as int, v_col as int, vt as int, s, v_col as int, vt as int, sq as int);
                    }
                }
                lemma_push_keeps(r@, (x, y));
            }
            r.push((x, y));
            proof {
                let f = |s: int| threat640_pair(*pos, stm as int, v_col as int, vt as int, s);
                let sq0 = squares_by(
                    |s: int| sq_in(pos.pieces[v_col as int][vt as int], s) && !sq_in(prev, s) && attacked_by_colour(*pos, 1 - v_col, s),
                    64,
                );
                let pp = |s: int| sq_in(pos.pieces[v_col as int][vt as int], s) && !sq_in(prev, s) && attacked_by_colour(*pos, 1 - v_col, s);
                let qq = |s: int| sq_in(pos.pieces[v_col as int][vt as int], s) && !sq_in(victims, s) && attacked_by_colour(*pos, 1 - v_col, s);
                assert(attacked_by_colour(*pos, 1 - v_col, sq as int));
                assert forall|a: int| 0 <= a < 64 && #[trigger] pp(a) implies a < sq by {}
                assert forall|a: int| 0 <= a < 64 implies (#[trigger] qq(a) <==> (pp(a) || a == sq)) by {}
                lemma_squares_top(pp, qq, sq as int, 64);
                assert(r@ =~= sq0.push(sq as int).map_values(f));
            }
        } else {
            proof {
                assert(!attacked_by_colour(*pos, 1 - v_col, sq as int));
                let f = |s: int| threat640_pair(*pos, stm as int, v_col as int, vt as int, s);
                let sq0 = squares_by(
                    |s: int| sq_in(pos.pieces[v_col as int][vt as int], s) && !sq_in(prev, s) && attacked_by_colour(*pos, 1 - v_col, s),
                    64,
                );
                let sq1 = squares_by(
                    |s: int| sq_in(pos.pieces[v_col as int][vt as int], s) && !sq_in(victims, s) && attacked_by_colour(*pos, 1 - v_col, s),
                    64,
                );
                lemma_squares_agree(
                    |s: int| sq_in(pos.pieces[v_col as int][vt as int], s) && !sq_in(victims, s) && attacked_by_colour(*pos, 1 - v_col, s),
                    |s: int| sq_in(pos.pieces[v_col as int][vt as int], s) && !sq_in(prev, s) && attacked_by_colour(*pos, 1 - v_col, s),
                    64,
                );
                assert(sq1 == sq0);
                assert(r@ =~= sq1.map_values(f));
            }
        }
        assert forall|q: (usize, usize)| #[trigger] r@.contains(q) <==> exists|s: int|
            #[trigger] sq_in(pos.pieces[v_col as int][vt as int], s) && !sq_in(victims, s) && attacked_by_colour(
                *pos,
                1 - v_col,
                s,
            ) && q == threat640_pair(*pos, stm as int, v_col as int, vt as int, s) by {
            if exists|s: int|
                #[trigger] sq_in(pos.pieces[v_col as int][vt as int], s) && !sq_in(victims, s) && attacked_by_colour(
                    *pos,
                    1 - v_col,
                    s,
                ) && q == threat640_pair(*pos, stm as int, v_col as int, vt as int, s) {
                let s = choose|s: int|
                    #[trigger] sq_in(pos.pieces[v_col as int][vt as int], s) && !sq_in(victims, s) && attacked_by_colour(
                        *pos,
                        1 - v_col,
                        s,
                    ) && q == threat640_pair(*pos, stm as int, v_col as int, vt as int, s);
                if s != sq {
                    assert(!sq_in(prev, s));
                }
            }
        }
    }
    proof {
        assert forall|p: (usize, usize)| #[trigger] r@.contains(p) <==> exists|s: int|
            #[trigger] sq_in(pos.pieces[v_col as int][vt as int], s) && attacked_by_colour(*pos, 1 - v_col, s) && p
                == threat640_pair(*pos, stm as int, v_col as int, vt as int, s) by {
            if exists|s: int|
                #[trigger] sq_in(pos.pieces[v_col as int][vt as int], s) && attacked_by_colour(*pos, 1 - v_col, s) && p
                    == threat640_pair(*pos, stm as int, v_col as int, vt as int, s) {
                let s = choose|s: int|
                    #[trigger] sq_in(pos.pieces[v_col as int][vt as int], s) && attacked_by_colour(*pos, 1 - v_col, s)
                        && p == threat640_pair(*pos, stm as int, v_col as int, vt as int, s);
                crate::bitboard::lemma_sq_in_zero(s);
            }
        }
    }
    proof {
        assert forall|u: int| !sq_in(victims, u) by {
            crate::bitboard::lemma_sq_in_zero(u);
        }
        lemma_squares_agree(
            |s: int| sq_in(pos.pieces[v_col as int][vt as int], s) && !sq_in(victims, s) && attacked_by_colour(*pos, 1 - v_col, s),
            |s: int| sq_in(pos.pieces[v_col as int][vt as int], s) && attacked_by_colour(*pos, 1 - v_col, s),
            64,
        );
    }
    r
}

/// Every square some piece of colour `c` attacks.
fn all_attacks(maps: &[[u64; 6]; 2], pos: &Pos, c: usize) -> (r: u64)
    requires
        attack_maps_ok(*maps, *pos),
        c < 2,
    ensures
        forall|s: int| #[trigger] sq_in(r, s) <==> attacked_by_colour(*pos, c as int, s),
{
    let mut a: u64 = 0;
    let mut t: usize = 0;
    proof {
        assert forall|s: int| #[trigger] sq_in(a, s) <==> exists|tt: int| 0 <= tt < t && #[trigger] attack_sq(*pos, c as int, tt, s) by {
            crate::bitboard::lemma_sq_in_zero(s);
        }
    }
    while t < 6
        invariant
            attack_maps_ok(*maps, *pos),
            c < 2,
            t <= 6,
            forall|s: int| #[trigger] sq_in(a, s) <==> exists|tt: int| 0 <= tt < t && #[trigger] attack_sq(*pos, c as int, tt, s),
        decreases 6 - t,
    {
        let ghost prev = a;
        let m = maps[c][t];
        a = a | m;
        assert forall|s: int| #[trigger] sq_in(a, s) <==> exists|tt: int| 0 <= tt < t + 1 && #[trigger] attack_sq(*pos, c as int, tt, s) by {
            crate::bitboard::lemma_sq_in_or(prev, m, s);
            crate::bitboard::lemma_sq_in_zero(s);
            if t == 5 && pos.pieces[c as int][5] == 0 {
                assert(maps[c as int][5] == 0);
            }
            if t < 5 {
                assert(sq_in(maps[c as int][t as int], s) <==> attacked_from(
                    pos.pieces[c as int][t as int],
                    c as int,
                    t as int,
                    occ_spec(pos.pieces),
                    s,
                ));
            }
            assert(sq_in(m, s) <==> attack_sq(*pos, c as int, t as int, s));
        }
        t = t + 1;
    }
    a
}

/// The feature pairs for a choice of threat set: `mode` 2 the full set (as
/// `map_features_pairs`), 0 pieces only, anything else pieces and the
/// 640-set threats (pawns to queens attacked by the other colour).
pub fn map_features_pairs_mode(pos: &Pos, stm: usize, mode: u8) -> (r: Vec<(usize, usize)>)
    requires
        stm < 2,
        pos.pieces[0][5] != 0,
        pos.pieces[1][5] != 0,
    ensures
        r@.no_duplicates(),
        forall|p: (usize, usize)| #[trigger] r@.contains(p) <==> (p == king_pair(*pos, stm as int)
            || piece_pair_active(*pos, stm as int, p) || (mode == 2 && threat_pair_active(*pos, stm as int, p)) || (
        mode != 0 && mode != 2 && threat640_active(*pos, stm as int, p))),
        r@.len() > 0 && r@[0] == king_pair(*pos, stm as int),
        exists|k: int| #[trigger] pieces_then(*pos, stm as int, r@, k, mode),
        r@ == (if mode == 0 {
            pieces_seq(*pos, stm as int)
        } else if mode == 2 {
            features_seq(*pos, stm as int)
        } else {
            pieces_seq(*pos, stm as int) + t640_after(*pos, stm as int, 0, 0)
        }),
{
    if mode == 2 {
        let r2 = map_features_pairs(pos, stm);
        return r2;
    }
    let mut r = map_pieces_pairs(pos, stm);
    let ghost k0 = r@.len() as int;
    assert forall|i: int| 0 <= i < k0 implies #[trigger] piece_pair(*pos, stm as int, r@[i]) by {
        assert(r@.contains(r@[i]));
    }
    assert(pieces_then(*pos, stm as int, r@, k0, mode));
    if mode == 0 {
        return r;
    }
    assert(r@ + t640_after(*pos, stm as int, 0, 0) == pieces_seq(*pos, stm as int) + t640_after(*pos, stm as int, 0, 0));
    let maps = compute_attack_maps_by_type(pos);
    let any0 = all_attacks(&maps, pos, 0);
    let any1 = all_attacks(&maps, pos, 1);
    let mut v_col: usize = 0;
    while v_col < 2
        invariant
            stm < 2,
            v_col <= 2,
            mode != 0 && mode != 2,
            pos.pieces[0][5] != 0,
            pos.pieces[1][5] != 0,
            forall|s: int| #[trigger] sq_in(any0, s) <==> attacked_by_colour(*pos, 0, s),
            forall|s: int| #[trigger] sq_in(any1, s) <==> attacked_by_colour(*pos, 1, s),
            r@.no_duplicates(),
            forall|p: (usize, usize)| #[trigger] r@.contains(p) <==> (p == king_pair(*pos, stm as int)
                || piece_pair_active(*pos, stm as int, p) || exists|vc: int, vt: int, s: int|
                0 <= vc < v_col && 0 <= vt < 5 && #[trigger] sq_in(pos.pieces[vc][vt], s) && attacked_by_colour(
                    *pos,
                    1 - vc,
                    s,
                ) && p == threat640_pair(*pos, stm as int, vc, vt, s)),
            pieces_then(*pos, stm as int, r@, k0, mode),
            k0 > 0 && r@[0] == king_pair(*pos, stm as int),
            r@ + t640_after(*pos, stm as int, v_col as int, 0) == pieces_seq(*pos, stm as int) + t640_after(*pos, stm as int, 0, 0),
        decreases 2 - v_col,
    {
        let enemy = if v_col == 0 {
            any1
        } else {
            any0
        };
        let mut vt: usize = 0;
        while vt < 5
            invariant
                stm < 2,
                v_col < 2,
                vt <= 5,
                pos.pieces[0][5] != 0,
                pos.pieces[1][5] != 0,
                forall|s: int| #[trigger] sq_in(enemy, s) <==> attacked_by_colour(*pos, 1 - v_col, s),
                r@.no_duplicates(),
                forall|p: (usize, usize)| #[trigger] r@.contains(p) <==> (p == king_pair(*pos, stm as int)
                    || piece_pair_active(*pos, stm as int, p) || exists|vc: int, t: int, s: int|
                    (0 <= vc < v_col || (vc == v_col && 0 <= t < vt)) && 0 <= t < 5 && #[trigger] sq_in(pos.pieces[vc][t], s)
                        && attacked_by_colour(*pos, 1 - vc, s) && p == threat640_pair(*pos, stm as int, vc, t, s)),
                pieces_then(*pos, stm as int, r@, k0, mode),
                mode != 0 && mode != 2,
                k0 > 0 && r@[0] == king_pair(*pos, stm as int),
                r@ + t640_after(*pos, stm as int, v_col as int, vt as int) == pieces_seq(*pos, stm as int) + t640_after(*pos, stm as int, 0, 0),
            decreases 5 - vt,
        {
            let mut part = emit_threat640(pos, stm, enemy, v_col, vt);
            let ghost r0 = r@;
            let ghost p0 = part@;
            proof {
                assert forall|q: (usize, usize)| r0.contains(q) implies !p0.contains(q) by {
                    if p0.contains(q) {
                        let s2 = choose|s: int|
                            #[trigger] sq_in(pos.pieces[v_col as int][vt as int], s) && attacked_by_colour(*pos, 1 - v_col, s)
                                && q == threat640_pair(*pos, stm as int, v_col as int, vt as int, s);
                        if q == king_pair(*pos, stm as int) || piece_pair_active(*pos, stm as int, q) {
                            lemma_piece_pairs_low(*pos, stm as int, q);
                        } else {
                            let (c1, t1, s1) = choose|vc: int, t: int, s: int|
                                (0 <= vc < v_col || (vc == v_col && 0 <= t < vt)) && 0 <= t < 5 && #[trigger] sq_in(
                                    pos.pieces[vc][t],
                                    s,
                                ) && attacked_by_colour(*pos, 1 - vc, s) && q == threat640_pair(*pos, stm as int, vc, t, s);
                            lemma_threat640_injective(*pos, stm as int, c1, t1, s1, v_col as int, vt as int, s2);
                        }
                    }
                }
                lemma_concat_keeps(r0, p0);
            }
            r.append(&mut part);
            proof {
                assert(r@ =~= r0 + p0);
                assert forall|i: int| k0 <= i < r@.len() implies threat640_active(*pos, stm as int, #[trigger] r@[i]) by {
                    if i >= r0.len() {
                        let q = r@[i];
                        assert(p0[i - r0.len()] == q);
                        assert(p0.contains(q));
                        let s2 = choose|s: int|
                            #[trigger] sq_in(pos.pieces[v_col as int][vt as int], s) && attacked_by_colour(*pos, 1 - v_col, s)
                                && q == threat640_pair(*pos, stm as int, v_col as int, vt as int, s);
                        assert(sq_in(pos.pieces[v_col as int][vt as int], s2));
                    } else {
                        assert(r@[i] == r0[i]);
                    }
                }
                assert forall|i: int| 0 <= i < k0 implies #[trigger] piece_pair(*pos, stm as int, r@[i]) by {
                    assert(r@[i] == r0[i]);
                }
                assert(r@[0] == r0[0]);
                assert(pieces_then(*pos, stm as int, r@, k0, mode));
                assert(t640_after(*pos, stm as int, v_col as int, vt as int) == t640_block(*pos, stm as int, v_col as int, vt as int)
                    + t640_after(*pos, stm as int, v_col as int, vt + 1));
                assert(r@ + t640_after(*pos, stm as int, v_col as int, vt + 1) =~= r0 + t640_after(*pos, stm as int, v_col as int, vt as int));
            }
            vt = vt + 1;
        }
        proof {
            assert(t640_after(*pos, stm as int, v_col as int, 5) == t640_after(*pos, stm as int, v_col + 1, 0));
        }
        v_col = v_col + 1;
    }
    proof {
        assert(t640_after(*pos, stm as int, 2, 0) =~= Seq::<(usize, usize)>::empty());
        assert(r@ =~= pieces_seq(*pos, stm as int) + t640_after(*pos, stm as int, 0, 0));
    }
    r
}

/// (rank, file) where the placement reader stands before byte `i` of `w`.
pub open spec fn cursor(w: Seq<u8>, i: int) -> (int, int)
    decreases i,
{
    if i <= 0 {
        (7, 0)
    } else {
        let prev = cursor(w, i - 1);
        let ch = w[i - 1];
        if ch == 47 {
            (prev.0 - 1, 0)
        } else if 49 <= ch <= 56 {
            (prev.0, prev.1 + (ch - 48))
        } else {
            (prev.0, prev.1 + 1)
        }
    }
}

/// Byte `i` of the placement `w` is '/', a digit 1-8, or a piece letter that
/// lands on the board.
pub open spec fn placement_byte_ok(w: Seq<u8>, i: int) -> bool {
    let ch = w[i];
    let at = cursor(w, i);
    ch == 47 || (49 <= ch <= 56) || (crate::fen::piece_of_byte(ch) is Some && 0 <= at.0 < 8 && 0 <= at.1 < 8)
}

/// Some byte of `w` puts a piece of colour index `c`, kind index `t` on `s`.
pub open spec fn placed_at(w: Seq<u8>, c: int, t: int, s: int) -> bool {
    exists|i: int|
        0 <= i < w.len() && crate::fen::piece_of_byte(w[i]) == Some(
            (crate::types::piece_of_index(t), color_of_index(c)),
        ) && #[trigger] cursor(w, i).0 * 8 + cursor(w, i).1 == s
}

/// The pieces of a FEN's placement field (its first word): `None` if there is
/// no word, or a byte is not '/', a digit 1-8 or a piece letter on the board.
/// The other fields are not read.
pub fn parse_fen(fen: &str) -> (r: Option<Pos>)
    requires
        fen.spec_bytes().len() <= 0x1000_0000,
    ensures
        r is None <==> (crate::fen::fen_field(fen.spec_bytes(), 0).len() == 0 || exists|i: int|
            0 <= i < crate::fen::fen_field(fen.spec_bytes(), 0).len() && !#[trigger] placement_byte_ok(
                crate::fen::fen_field(fen.spec_bytes(), 0),
                i,
            )),
        r matches Some(p) ==> forall|c: int, t: int, s: int|
            0 <= c < 2 && 0 <= t < 6 ==> (#[trigger] sq_in(p.pieces[c][t], s) <==> placed_at(
                crate::fen::fen_field(fen.spec_bytes(), 0),
                c,
                t,
                s,
            )),
{
    let bytes = fen.as_bytes();
    let (lo, hi) = crate::fen::field_bounds(bytes, 0, 0);
    let ghost w = bytes@.subrange(lo as int, hi as int);
    if lo == hi {
        return None;
    }
    let mut pieces = [[0u64; 6]; 2];
    let mut rank: i64 = 7;
    let mut file: i64 = 0;
    let mut i = lo;
    proof {
        assert forall|c: int, t: int, s: int| 0 <= c < 2 && 0 <= t < 6 implies !#[trigger] sq_in(pieces[c][t], s) by {
            crate::bitboard::lemma_sq_in_zero(s);
        }
    }
    while i < hi
        invariant
            lo <= i <= hi <= bytes@.len(),
            hi <= 0x1000_0000,
            bytes@ == fen.spec_bytes(),
            bytes@.subrange(lo as int, hi as int) == crate::fen::field_from(bytes@, 0, 0),
            w == bytes@.subrange(lo as int, hi as int),
            (rank as int, file as int) == cursor(w, i - lo),
            7 - (i - lo) <= rank <= 7,
            0 <= file <= 8 * (i - lo),
            forall|j: int| 0 <= j < i - lo ==> #[trigger] placement_byte_ok(w, j),
            forall|c: int, t: int, s: int|
                0 <= c < 2 && 0 <= t < 6 ==> (#[trigger] sq_in(pieces[c][t], s) <==> exists|j: int|
                    0 <= j < i - lo && crate::fen::piece_of_byte(w[j]) == Some(
                        (crate::types::piece_of_index(t), color_of_index(c)),
                    ) && #[trigger] cursor(w, j).0 * 8 + cursor(w, j).1 == s),
        decreases hi - i,
    {
        let ch = bytes[i];
        assert(w[i - lo] == ch);
        let ghost k = i - lo;
        if ch == 47 {
            rank = rank - 1;
            file = 0;
        } else if 49 <= ch && ch <= 56 {
            file = file + (ch - 48) as i64;
        } else {
            let pc = crate::fen::piece_of_byte_exec(ch);
            match pc {
                Some((pt, col)) => {
                    if !(0 <= rank && rank < 8 && 0 <= file && file < 8) {
                        proof {
                            assert(!placement_byte_ok(w, k));
                            assert(crate::fen::fen_field(fen.spec_bytes(), 0) == w);
                        }
                        return None;
                    }
                    let c = col.idx();
                    let t = pt.idx();
                    let sqi = (rank * 8 + file) as u64;
                    let ghost old_pieces = pieces;
                    let bit: u64 = 1u64 << sqi;
                    pieces[c][t] = pieces[c][t] | bit;
                    proof {
                        assert forall|cc: int, tt: int, s: int| 0 <= cc < 2 && 0 <= tt < 6 implies (#[trigger] sq_in(
                            pieces[cc][tt],
                            s,
                        ) <==> exists|j: int|
                            0 <= j < k + 1 && crate::fen::piece_of_byte(w[j]) == Some(
                                (crate::types::piece_of_index(tt), color_of_index(cc)),
                            ) && #[trigger] cursor(w, j).0 * 8 + cursor(w, j).1 == s) by {
                            crate::bitboard::lemma_sq_in_or(old_pieces[cc][tt], bit, s);
                            crate::bitboard::lemma_sq_in_single(sqi, s);
                            assert(crate::fen::piece_of_byte(w[k]) == Some((pt, col)));
                            assert(cursor(w, k).0 * 8 + cursor(w, k).1 == sqi);
                            if cc == c && tt == t && s == sqi {
                                assert(crate::types::piece_of_index(tt) == pt);
                                assert(color_of_index(cc) == col);
                            }
                            if exists|j: int|
                                0 <= j < k + 1 && crate::fen::piece_of_byte(w[j]) == Some(
                                    (crate::types::piece_of_index(tt), color_of_index(cc)),
                                ) && #[trigger] cursor(w, j).0 * 8 + cursor(w, j).1 == s {
                                let j = choose|j: int|
                                    0 <= j < k + 1 && crate::fen::piece_of_byte(w[j]) == Some(
                                        (crate::types::piece_of_index(tt), color_of_index(cc)),
                                    ) && #[trigger] cursor(w, j).0 * 8 + cursor(w, j).1 == s;
                                if j == k {
                                    assert(crate::types::piece_of_index(crate::types::piece_index(pt)) == pt);
                                }
                            }
                        }
                    }
                    file = file + 1;
                },
                None => {
                    proof {
                        assert(!placement_byte_ok(w, k));
                        assert(crate::fen::fen_field(fen.spec_bytes(), 0) == w);
                    }
                    return None;
                },
            }
        }
        i = i + 1;
    }
    proof {
        assert(crate::fen::fen_field(fen.spec_bytes(), 0) == w);
        assert(w.len() == hi - lo);
    }
    Some(Pos { pieces })
}

} // verus!
