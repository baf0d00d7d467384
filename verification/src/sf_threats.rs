//! The numbering of the threat inputs of a Stockfish network: every
//! (attacking piece, attacked piece) pair on a pair of squares that a
//! pseudo-attack on an empty board links gets one index, and the pawn-pair
//! and piece-plane numbering beside it.
use vstd::prelude::*;
use crate::attacks::{bishop_attacks, bishop_spec, king_spec, knight_spec, pawn_spec, rook_attacks, rook_spec, Attacks};
use crate::bitboard::{count, low_squares, pop_lsb, popcount, sq_in};
use crate::types::{Color, PieceType, Square};

verus! {

/// How many kinds of target each attacking kind has (both colours).
pub const PIECE_TARGET_COUNT: [i32; 6] = [4, 10, 8, 8, 10, 0];

/// The target slot of each (attacker, target) kind pair; -1 where the pair
/// has no input.
pub const PIECE_INTERACTION_MAP: [[i32; 6]; 6] = [
    [-1, 0, -1, 1, -1, -1],
    [0, 1, 2, 3, 4, -1],
    [0, 1, 2, 3, -1, -1],
    [0, 1, 2, 3, -1, -1],
    [0, 1, 2, 3, 4, -1],
    [-1, -1, -1, -1, -1, -1],
];

/// Colour 0 is White, 1 Black.
pub open spec fn color_of(c: int) -> Color {
    if c == 0 {
        Color::White
    } else {
        Color::Black
    }
}

/// The squares a piece of kind `piece` (0 pawn, 1 knight, 2 bishop, 3 rook,
/// 5 king, anything else a queen) and colour `color` on `origin` attacks on
/// an empty board; a pawn on the first or last rank attacks nothing.
pub open spec fn pseudo_spec(piece: int, origin: int, color: int) -> u64 {
    if piece == 0 {
        if 8 <= origin < 56 {
            pawn_spec(origin, color_of(color))
        } else {
            0
        }
    } else if piece == 1 {
        knight_spec(origin)
    } else if piece == 5 {
        king_spec(origin)
    } else if piece == 2 {
        bishop_spec(origin, 0)
    } else if piece == 3 {
        rook_spec(origin, 0)
    } else {
        bishop_spec(origin, 0) | rook_spec(origin, 0)
    }
}

fn pseudo_attacks_empty(atk: &Attacks, piece: usize, origin: usize, color: usize) -> (r: u64)
    requires
        atk.wf(),
        origin < 64,
        piece == 0 && 8 <= origin < 56 ==> color < 2,
    ensures
        r == pseudo_spec(piece as int, origin as int, color as int),
{
    let sq = origin as Square;
    match piece {
        0 => {
            if 8 <= origin && origin < 56 {
                atk.pawn[color][origin]
            } else {
                0
            }
        },
        1 => atk.knight[origin],
        5 => atk.king[origin],
        2 => bishop_attacks(sq, 0),
        3 => rook_attacks(sq, 0),
        _ => bishop_attacks(sq, 0) | rook_attacks(sq, 0),
    }
}

/// How many squares the piece on `origin` attacks, counted for the
/// numbering (a pawn on the first or last rank counts none).
pub open spec fn attack_count(piece: int, color: int, origin: int) -> int {
    if piece != 0 || (8 <= origin < 56) {
        popcount(pseudo_spec(piece, origin, color)) as int
    } else {
        0
    }
}

/// The attacks of the pieces of one kind and colour on the squares below `origin`.
pub open spec fn offset_spec(piece: int, color: int, origin: int) -> int
    decreases origin,
{
    if origin <= 0 {
        0
    } else {
        offset_spec(piece, color, origin - 1) + attack_count(piece, color, origin - 1)
    }
}

/// Where the block of the `n`-th (colour, kind) pair starts, colour first:
/// each earlier block has one slot per target kind for each attack.
pub open spec fn running_spec(n: int) -> int
    decreases n,
{
    if n <= 0 {
        0
    } else {
        running_spec(n - 1) + PIECE_TARGET_COUNT[(n - 1) % 6] * offset_spec((n - 1) % 6, (n - 1) / 6, 64)
    }
}

/// The entry of the pair table: whether the pair has no input, whether
/// only one of its two directions does, and where its inputs start.
pub open spec fn pair_spec(ap: int, ac: int, tp: int, tc: int) -> (bool, bool, i32) {
    let map = PIECE_INTERACTION_MAP[ap][tp];
    let excluded = map < 0;
    let semi_excluded = ap == tp && (ac != tc || ap != 0);
    let base = if excluded {
        0
    } else {
        running_spec(ac * 6 + ap) + (tc * (PIECE_TARGET_COUNT[ap] / 2) + map) * offset_spec(ap, ac, 64)
    };
    (excluded, semi_excluded, base as i32)
}

/// Where the piece offset of (kind, colour, square) sits in its table.
pub open spec fn idx3(piece: int, color: int, origin: int) -> int {
    (piece * 2 + color) * 64 + origin
}

/// Where the entry of (attacker kind, its colour, target kind, its colour) sits.
pub open spec fn idx_pair(ap: int, ac: int, tp: int, tc: int) -> int {
    ((ap * 2 + ac) * 6 + tp) * 2 + tc
}

/// The tables the numbering is read from.
pub struct ThreatTables {
    piece_offset: Vec<i32>,
    attack_index: Vec<i32>,
    pair_lookup: Vec<(bool, bool, i32)>,
}

/// The piece offsets of every (kind, colour, square), the block starts of
/// every (colour, kind) and the sizes of the blocks; each offset at most
/// 64 per square below.
fn build_offsets(atk: &Attacks) -> (r: (Vec<i32>, [[i32; 2]; 6], [[i32; 2]; 6], i32))
    requires
        atk.wf(),
    ensures
        r.3 == running_spec(12),
        r.0@.len() == 768,
        forall|p: int, c: int, o: int|
            0 <= p < 6 && 0 <= c < 2 && 0 <= o < 64 ==> #[trigger] r.0@[idx3(p, c, o)] == offset_spec(p, c, o),
        forall|p: int, c: int| 0 <= p < 6 && 0 <= c < 2 ==> #[trigger] r.1[p][c] == offset_spec(p, c, 64),
        forall|p: int, c: int| 0 <= p < 6 && 0 <= c < 2 ==> #[trigger] r.2[p][c] == running_spec(c * 6 + p),
        forall|p: int, c: int| 0 <= p < 6 && 0 <= c < 2 ==> 0 <= #[trigger] offset_spec(p, c, 64) <= 4096,
        forall|n: int| 0 <= n <= 12 ==> 0 <= #[trigger] running_spec(n) <= n * 40960,
{
    let mut piece_offset: Vec<i32> = Vec::new();
    let mut k: usize = 0;
    while k < 768
        invariant
            k <= 768,
            piece_offset@.len() == k,
        decreases 768 - k,
    {
        piece_offset.push(0);
        k = k + 1;
    }
    let mut cumulative_piece_offset = [[0i32; 2]; 6];
    let mut cumulative_offset = [[0i32; 2]; 6];
    let mut running: i32 = 0;
    let mut color: usize = 0;
    while color < 2
        invariant
            atk.wf(),
            color <= 2,
            piece_offset@.len() == 768,
            running == running_spec((color * 6) as int),
            0 <= running <= color * 6 * 40960,
            forall|n: int| 0 <= n <= color * 6 ==> 0 <= #[trigger] running_spec(n) <= n * 40960,
            forall|p: int, c: int, o: int|
                0 <= p < 6 && 0 <= c < color && 0 <= o < 64 ==> #[trigger] piece_offset@[idx3(p, c, o)] == offset_spec(
                    p,
                    c,
                    o,
                ),
            forall|p: int, c: int| 0 <= p < 6 && 0 <= c < color ==> #[trigger] cumulative_piece_offset[p][c] == offset_spec(p, c, 64),
            forall|p: int, c: int| 0 <= p < 6 && 0 <= c < color ==> #[trigger] cumulative_offset[p][c] == running_spec(c * 6 + p),
            forall|p: int, c: int| 0 <= p < 6 && 0 <= c < color ==> 0 <= #[trigger] offset_spec(p, c, 64) <= 4096,
        decreases 2 - color,
    {
        let mut piece: usize = 0;
        while piece < 6
            invariant
                atk.wf(),
                color < 2,
                piece <= 6,
                piece_offset@.len() == 768,
                running == running_spec((color * 6 + piece) as int),
                0 <= running <= (color * 6 + piece) * 40960,
                forall|n: int| 0 <= n <= color * 6 + piece ==> 0 <= #[trigger] running_spec(n) <= n * 40960,
                forall|p: int, c: int, o: int|
                    0 <= p < 6 && 0 <= c < 2 && 0 <= o < 64 && (c < color || (c == color && p < piece))
                        ==> #[trigger] piece_offset@[idx3(p, c, o)] == offset_spec(p, c, o),
                forall|p: int, c: int|
                    0 <= p < 6 && 0 <= c < 2 && (c < color || (c == color && p < piece))
                        ==> #[trigger] cumulative_piece_offset[p][c] == offset_spec(p, c, 64),
                forall|p: int, c: int|
                    0 <= p < 6 && 0 <= c < 2 && (c < color || (c == color && p < piece))
                        ==> #[trigger] cumulative_offset[p][c] == running_spec(c * 6 + p),
                forall|p: int, c: int|
                    0 <= p < 6 && 0 <= c < 2 && (c < color || (c == color && p < piece))
                        ==> 0 <= #[trigger] offset_spec(p, c, 64) <= 4096,
            decreases 6 - piece,
        {
            let mut cum: i32 = 0;
            let mut origin: usize = 0;
            while origin < 64
                invariant
                    atk.wf(),
                    color < 2,
                    piece < 6,
                    origin <= 64,
                    piece_offset@.len() == 768,
                    cum == offset_spec(piece as int, color as int, origin as int),
                    0 <= cum <= origin * 64,
                    forall|p: int, c: int, o: int|
                        0 <= p < 6 && 0 <= c < 2 && 0 <= o < 64 && (c < color || (c == color && p < piece))
                            ==> #[trigger] piece_offset@[idx3(p, c, o)] == offset_spec(p, c, o),
                    forall|o: int|
                        0 <= o < origin ==> #[trigger] piece_offset@[idx3(piece as int, color as int, o)] == offset_spec(
                            piece as int,
                            color as int,
                            o,
                        ),
                decreases 64 - origin,
            {
                piece_offset.set((piece * 2 + color) * 64 + origin, cum);
                if piece != 0 || (8 <= origin && origin < 56) {
                    let a = pseudo_attacks_empty(atk, piece, origin, color);
                    cum = cum + count(a) as i32;
                }
                origin = origin + 1;
            }
            cumulative_piece_offset[piece][color] = cum;
            cumulative_offset[piece][color] = running;
            assert(0 <= PIECE_TARGET_COUNT[piece as int] <= 10);
            assert(0 <= PIECE_TARGET_COUNT[piece as int] * cum <= 40960) by (nonlinear_arith)
                requires
                    0 <= PIECE_TARGET_COUNT[piece as int] <= 10,
                    0 <= cum <= 4096,
            ;
            running = running + PIECE_TARGET_COUNT[piece] * cum;
            piece = piece + 1;
        }
        color = color + 1;
    }
    (piece_offset, cumulative_piece_offset, cumulative_offset, running)
}

/// Where the attack index of target `t` of (kind, colour, square) sits.
pub open spec fn idx4(piece: int, color: int, origin: int, t: int) -> int {
    idx3(piece, color, origin) * 64 + t
}

/// How many of the squares the piece on `origin` attacks lie below `target`,
/// for a square it attacks; 0 for the others.
pub open spec fn below_spec(piece: int, color: int, origin: int, target: int) -> int {
    let a = pseudo_spec(piece, origin, color);
    if sq_in(a, target) {
        popcount(a & (((1u64 << (target as u64)) - 1) as u64)) as int
    } else {
        0
    }
}

/// (kind, colour, square) comes before (piece, color, origin) in the
/// order the tables are filled in: colour, then kind, then square.
pub open spec fn filled_before(p: int, c: int, o: int, piece: int, color: int, origin: int) -> bool {
    c < color || (c == color && (p < piece || (p == piece && o < origin)))
}

/// The attack index of every target of every (kind, colour, square).
fn build_attack_index(atk: &Attacks) -> (r: Vec<i32>)
    requires
        atk.wf(),
    ensures
        r@.len() == 49152,
        forall|p: int, c: int, o: int, t: int|
            0 <= p < 6 && 0 <= c < 2 && 0 <= o < 64 && 0 <= t < 64 ==> #[trigger] r@[idx4(p, c, o, t)] == below_spec(
                p,
                c,
                o,
                t,
            ),
{
    broadcast use crate::bitboard::lemma_sq_in_zero;

    let mut attack_index: Vec<i32> = Vec::new();
    let mut k: usize = 0;
    while k < 49152
        invariant
            k <= 49152,
            attack_index@.len() == k,
            forall|j: int| 0 <= j < k ==> #[trigger] attack_index@[j] == 0,
        decreases 49152 - k,
    {
        attack_index.push(0);
        k = k + 1;
    }
    let mut color: usize = 0;
    while color < 2
        invariant
            atk.wf(),
            color <= 2,
            attack_index@.len() == 49152,
            forall|p: int, c: int, o: int, t: int|
                0 <= p < 6 && 0 <= c < 2 && 0 <= o < 64 && 0 <= t < 64 ==> #[trigger] attack_index@[idx4(p, c, o, t)]
                    == (if filled_before(p, c, o, 0, color as int, 0) {
                    below_spec(p, c, o, t)
                } else {
                    0
                }),
        decreases 2 - color,
    {
        let mut piece: usize = 0;
        while piece < 6
            invariant
                atk.wf(),
                color < 2,
                piece <= 6,
                attack_index@.len() == 49152,
                forall|p: int, c: int, o: int, t: int|
                    0 <= p < 6 && 0 <= c < 2 && 0 <= o < 64 && 0 <= t < 64 ==> #[trigger] attack_index@[idx4(p, c, o, t)]
                        == (if filled_before(p, c, o, piece as int, color as int, 0) {
                        below_spec(p, c, o, t)
                    } else {
                        0
                    }),
            decreases 6 - piece,
        {
            let mut origin: usize = 0;
            while origin < 64
                invariant
                    atk.wf(),
                    color < 2,
                    piece < 6,
                    origin <= 64,
                    attack_index@.len() == 49152,
                    forall|p: int, c: int, o: int, t: int|
                        0 <= p < 6 && 0 <= c < 2 && 0 <= o < 64 && 0 <= t < 64 ==> #[trigger] attack_index@[idx4(p, c, o, t)]
                            == (if filled_before(p, c, o, piece as int, color as int, origin as int) {
                            below_spec(p, c, o, t)
                        } else {
                            0
                        }),
                decreases 64 - origin,
            {
                let a = pseudo_attacks_empty(atk, piece, origin, color);
                let mut m = a;
                while m != 0
                    invariant
                        color < 2,
                        piece < 6,
                        origin < 64,
                        a == pseudo_spec(piece as int, origin as int, color as int),
                        attack_index@.len() == 49152,
                        forall|t: int| #[trigger] sq_in(m, t) ==> sq_in(a, t),
                        forall|p: int, c: int, o: int, t: int|
                            0 <= p < 6 && 0 <= c < 2 && 0 <= o < 64 && 0 <= t < 64 ==> #[trigger] attack_index@[idx4(
                                p,
                                c,
                                o,
                                t,
                            )] == (if filled_before(p, c, o, piece as int, color as int, origin as int) {
                                below_spec(p, c, o, t)
                            } else if p == piece && c == color && o == origin && sq_in(a, t) && !sq_in(m, t) {
                                below_spec(p, c, o, t)
                            } else {
                                0
                            }),
                    decreases m,
                {
                    let target = pop_lsb(&mut m);
                    proof {
                        vstd::bits::lemma_u64_pow2_no_overflow(target as nat);
                        vstd::bits::lemma_u64_shl_is_mul(1, target as u64);
                    }
                    let below = a & ((1u64 << (target as u64)) - 1);
                    let n = count(below);
                    attack_index.set(((piece * 2 + color) * 64 + origin) * 64 + target as usize, n as i32);
                }
                proof {
                    assert forall|p: int, c: int, o: int, t: int|
                        0 <= p < 6 && 0 <= c < 2 && 0 <= o < 64 && 0 <= t < 64 implies #[trigger] attack_index@[idx4(
                            p,
                            c,
                            o,
                            t,
                        )] == (if filled_before(p, c, o, piece as int, color as int, origin + 1) {
                            below_spec(p, c, o, t)
                        } else {
                            0
                        }) by {
                        if p == piece && c == color && o == origin {
                            assert(m == 0);
                            crate::bitboard::lemma_sq_in_zero(t);
                            assert(!sq_in(m, t));
                        }
                    }
                }
                origin = origin + 1;
            }
            piece = piece + 1;
        }
        color = color + 1;
    }
    attack_index
}

/// (ap, ac, tp, tc) comes before (ap2, ac2, tp2, tc2) in the order the pair table is filled in.
pub open spec fn pair_before(ap: int, ac: int, tp: int, tc: int, ap2: int, ac2: int, tp2: int, tc2: int) -> bool {
    idx_pair(ap, ac, tp, tc) < idx_pair(ap2, ac2, tp2, tc2)
}

/// The pair table, from the piece-offset totals and block starts.
fn build_pair_lookup(cumulative_piece_offset: &[[i32; 2]; 6], cumulative_offset: &[[i32; 2]; 6]) -> (r: Vec<(bool, bool, i32)>)
    requires
        forall|p: int, c: int| 0 <= p < 6 && 0 <= c < 2 ==> #[trigger] cumulative_piece_offset[p][c] == offset_spec(p, c, 64),
        forall|p: int, c: int| 0 <= p < 6 && 0 <= c < 2 ==> #[trigger] cumulative_offset[p][c] == running_spec(c * 6 + p),
        forall|p: int, c: int| 0 <= p < 6 && 0 <= c < 2 ==> 0 <= #[trigger] offset_spec(p, c, 64) <= 4096,
        forall|n: int| 0 <= n <= 12 ==> 0 <= #[trigger] running_spec(n) <= n * 40960,
    ensures
        r@.len() == 144,
        forall|ap: int, ac: int, tp: int, tc: int|
            0 <= ap < 6 && 0 <= ac < 2 && 0 <= tp < 6 && 0 <= tc < 2 ==> #[trigger] r@[idx_pair(ap, ac, tp, tc)]
                == pair_spec(ap, ac, tp, tc),
{
    let mut pair_lookup: Vec<(bool, bool, i32)> = Vec::new();
    let mut ap: usize = 0;
    while ap < 6
        invariant
            ap <= 6,
            forall|p: int, c: int| 0 <= p < 6 && 0 <= c < 2 ==> #[trigger] cumulative_piece_offset[p][c] == offset_spec(p, c, 64),
            forall|p: int, c: int| 0 <= p < 6 && 0 <= c < 2 ==> #[trigger] cumulative_offset[p][c] == running_spec(c * 6 + p),
            forall|p: int, c: int| 0 <= p < 6 && 0 <= c < 2 ==> 0 <= #[trigger] offset_spec(p, c, 64) <= 4096,
            forall|n: int| 0 <= n <= 12 ==> 0 <= #[trigger] running_spec(n) <= n * 40960,
            pair_lookup@.len() == idx_pair(ap as int, 0, 0, 0),
            forall|j: int| 0 <= j < pair_lookup@.len() ==> #[trigger] pair_lookup@[j] == pair_spec(
                j / 24,
                (j / 12) % 2,
                (j / 2) % 6,
                j % 2,
            ),
        decreases 6 - ap,
    {
        let mut ac: usize = 0;
        while ac < 2
            invariant
                ap < 6,
                ac <= 2,
                forall|p: int, c: int| 0 <= p < 6 && 0 <= c < 2 ==> #[trigger] cumulative_piece_offset[p][c] == offset_spec(p, c, 64),
                forall|p: int, c: int| 0 <= p < 6 && 0 <= c < 2 ==> #[trigger] cumulative_offset[p][c] == running_spec(c * 6 + p),
                forall|p: int, c: int| 0 <= p < 6 && 0 <= c < 2 ==> 0 <= #[trigger] offset_spec(p, c, 64) <= 4096,
                forall|n: int| 0 <= n <= 12 ==> 0 <= #[trigger] running_spec(n) <= n * 40960,
                pair_lookup@.len() == idx_pair(ap as int, ac as int, 0, 0),
                forall|j: int| 0 <= j < pair_lookup@.len() ==> #[trigger] pair_lookup@[j] == pair_spec(
                    j / 24,
                    (j / 12) % 2,
                    (j / 2) % 6,
                    j % 2,
                ),
            decreases 2 - ac,
        {
            let mut tp: usize = 0;
            while tp < 6
                invariant
                    ap < 6,
                    ac < 2,
                    tp <= 6,
                    forall|p: int, c: int| 0 <= p < 6 && 0 <= c < 2 ==> #[trigger] cumulative_piece_offset[p][c] == offset_spec(p, c, 64),
                    forall|p: int, c: int| 0 <= p < 6 && 0 <= c < 2 ==> #[trigger] cumulative_offset[p][c] == running_spec(c * 6 + p),
                    forall|p: int, c: int| 0 <= p < 6 && 0 <= c < 2 ==> 0 <= #[trigger] offset_spec(p, c, 64) <= 4096,
                    forall|n: int| 0 <= n <= 12 ==> 0 <= #[trigger] running_spec(n) <= n * 40960,
                    pair_lookup@.len() == idx_pair(ap as int, ac as int, tp as int, 0),
                    forall|j: int| 0 <= j < pair_lookup@.len() ==> #[trigger] pair_lookup@[j] == pair_spec(
                        j / 24,
                        (j / 12) % 2,
                        (j / 2) % 6,
                        j % 2,
                    ),
                decreases 6 - tp,
            {
                let mut tc: usize = 0;
                while tc < 2
                    invariant
                        ap < 6,
                        ac < 2,
                        tp < 6,
                        tc <= 2,
                        forall|p: int, c: int| 0 <= p < 6 && 0 <= c < 2 ==> #[trigger] cumulative_piece_offset[p][c] == offset_spec(p, c, 64),
                        forall|p: int, c: int| 0 <= p < 6 && 0 <= c < 2 ==> #[trigger] cumulative_offset[p][c] == running_spec(c * 6 + p),
                        forall|p: int, c: int| 0 <= p < 6 && 0 <= c < 2 ==> 0 <= #[trigger] offset_spec(p, c, 64) <= 4096,
                        forall|n: int| 0 <= n <= 12 ==> 0 <= #[trigger] running_spec(n) <= n * 40960,
                        pair_lookup@.len() == idx_pair(ap as int, ac as int, tp as int, tc as int),
                        forall|j: int| 0 <= j < pair_lookup@.len() ==> #[trigger] pair_lookup@[j] == pair_spec(
                            j / 24,
                            (j / 12) % 2,
                            (j / 2) % 6,
                            j % 2,
                        ),
                    decreases 2 - tc,
                {
                    let map = PIECE_INTERACTION_MAP[ap][tp];
                    let cum = cumulative_piece_offset[ap][ac];
                    let half = PIECE_TARGET_COUNT[ap] / 2;
                    assert(0 <= PIECE_TARGET_COUNT[ap as int] <= 10);
                    assert(-1 <= PIECE_INTERACTION_MAP[ap as int][tp as int] <= 4);
                    let tci = tc as i32;
                    assert(0 <= tci * half <= 5) by (nonlinear_arith)
                        requires
                            0 <= tci <= 1,
                            0 <= half <= 5,
                    ;
                    let slot = tci * half + map;
                    assert(0 <= offset_spec(ap as int, ac as int, 64) <= 4096);
                    assert(0 <= running_spec(ac * 6 + ap) <= 12 * 40960);
                    assert(-1 <= slot <= 9);
                    assert(-4096 <= slot * cum <= 9 * 4096) by (nonlinear_arith)
                        requires
                            -1 <= slot <= 9,
                            0 <= cum <= 4096,
                    ;
                    let mut feature_base = cumulative_offset[ap][ac] + slot * cum;
                    let enemy = ac != tc;
                    let semi_excluded = ap == tp && (enemy || ap != 0);
                    let excluded = map < 0;
                    if excluded {
                        feature_base = 0;
                    }
                    let ghost j = pair_lookup@.len() as int;
                    pair_lookup.push((excluded, semi_excluded, feature_base));
                    proof {
                        assert(j / 24 == ap && (j / 12) % 2 == ac && (j / 2) % 6 == tp && j % 2 == tc);
                    }
                    tc = tc + 1;
                }
                tp = tp + 1;
            }
            ac = ac + 1;
        }
        ap = ap + 1;
    }
    proof {
        assert forall|ap: int, ac: int, tp: int, tc: int|
            0 <= ap < 6 && 0 <= ac < 2 && 0 <= tp < 6 && 0 <= tc < 2 implies #[trigger] pair_lookup@[idx_pair(
                ap,
                ac,
                tp,
                tc,
            )] == pair_spec(ap, ac, tp, tc) by {
            let j = idx_pair(ap, ac, tp, tc);
            assert(j / 24 == ap && (j / 12) % 2 == ac && (j / 2) % 6 == tp && j % 2 == tc);
        }
    }
    pair_lookup
}

impl ThreatTables {
    /// Every entry holds what the numbering says it does.
    pub closed spec fn wf(&self) -> bool {
        &&& self.piece_offset@.len() == 768
        &&& self.attack_index@.len() == 49152
        &&& self.pair_lookup@.len() == 144
        &&& forall|p: int, c: int, o: int|
            0 <= p < 6 && 0 <= c < 2 && 0 <= o < 64 ==> #[trigger] self.piece_offset@[idx3(p, c, o)] == offset_spec(p, c, o)
        &&& forall|p: int, c: int, o: int, t: int|
            0 <= p < 6 && 0 <= c < 2 && 0 <= o < 64 && 0 <= t < 64 ==> #[trigger] self.attack_index@[idx4(p, c, o, t)]
                == below_spec(p, c, o, t)
        &&& forall|ap: int, ac: int, tp: int, tc: int|
            0 <= ap < 6 && 0 <= ac < 2 && 0 <= tp < 6 && 0 <= tc < 2 ==> #[trigger] self.pair_lookup@[idx_pair(
                ap,
                ac,
                tp,
                tc,
            )] == pair_spec(ap, ac, tp, tc)
        &&& forall|p: int, c: int| 0 <= p < 6 && 0 <= c < 2 ==> 0 <= #[trigger] offset_spec(p, c, 64) <= 4096
        &&& forall|n: int| 0 <= n <= 12 ==> 0 <= #[trigger] running_spec(n) <= n * 40960
        &&& running_spec(12) == crate::nnue_sf::THREAT_DIM
    }
}

/// The tables of the numbering, from the attacks on an empty board; `None`
/// if the blocks do not add up to `THREAT_DIM` inputs.
pub fn build_threat_tables() -> (r: Option<ThreatTables>)
    ensures
        r is Some <==> running_spec(12) == crate::nnue_sf::THREAT_DIM,
        r matches Some(t) ==> t.wf(),
{
    let atk = Attacks::new();
    let (piece_offset, cumulative_piece_offset, cumulative_offset, running) = build_offsets(&atk);
    if running as usize != crate::nnue_sf::THREAT_DIM {
        return None;
    }
    let attack_index = build_attack_index(&atk);
    let pair_lookup = build_pair_lookup(&cumulative_piece_offset, &cumulative_offset);
    Some(ThreatTables { piece_offset, attack_index, pair_lookup })
}

/// The plane of a piece kind in the piece-square numbering: own pieces on
/// the even planes, the enemy's on the odd ones, either king on plane 10.
pub open spec fn piece_plane_spec(piece: PieceType, relative_enemy: bool) -> int {
    let base: int = match piece {
        PieceType::Pawn => 0,
        PieceType::Knight => 2,
        PieceType::Bishop => 4,
        PieceType::Rook => 6,
        PieceType::Queen => 8,
        PieceType::King => 10,
    };
    if piece == PieceType::King {
        10
    } else if relative_enemy {
        base + 1
    } else {
        base
    }
}

pub fn piece_plane(piece: PieceType, relative_enemy: bool) -> (r: i32)
    ensures
        r == piece_plane_spec(piece, relative_enemy),
{
    let base: i32 = match piece {
        PieceType::Pawn => 0,
        PieceType::Knight => 2,
        PieceType::Bishop => 4,
        PieceType::Rook => 6,
        PieceType::Queen => 8,
        PieceType::King => 10,
    };
    if piece == PieceType::King {
        10
    } else if relative_enemy {
        base + 1
    } else {
        base
    }
}

proof fn lemma_pair_bits(s: u8, e: u8, l: u8)
    by (bit_vector)
    requires
        s <= 1,
        e <= 1,
        l <= 1,
        !(s == 1 && e == 1),
    ensures
        (s | (e << 1u8)) <= 2,
        ((((s | (e << 1u8)) + l) as u8) & 2u8 != 0u8) <==> (e == 1 || (s == 1 && l == 1)),
{
}

/// A pair of the same kinds is counted one way only: an excluded pair
/// never has an input, a semi-excluded one only when the attacker stands
/// on the higher square.
pub open spec fn pair_excluded_spec(excluded: bool, semi_excluded: bool, attacking_sq: int, attacked_sq: int) -> bool {
    excluded || (semi_excluded && attacking_sq < attacked_sq)
}

pub fn is_pair_excluded(excluded: bool, semi_excluded: bool, attacking_sq: i32, attacked_sq: i32) -> (r: bool)
    ensures
        r == pair_excluded_spec(excluded, semi_excluded, attacking_sq as int, attacked_sq as int),
{
    let less_than: u8 = if attacking_sq < attacked_sq {
        1
    } else {
        0
    };
    let s: u8 = (semi_excluded && !excluded) as u8;
    let e: u8 = excluded as u8;
    let data: u8 = s | (e << 1u8);
    proof {
        lemma_pair_bits(s, e, less_than);
    }
    ((data.wrapping_add(less_than)) & 2) != 0
}

proof fn lemma_flip(x: i32, f: i32, c: usize, pov: usize)
    by (bit_vector)
    requires
        0 <= x < 64,
        0 <= f < 64,
        c < 2,
        pov < 2,
    ensures
        0 <= (x ^ f) < 64,
        (c ^ pov) < 2,
{
}

/// The square flip for the side `pov` (its view turned over for Black) and
/// the mirror (files turned over).
pub open spec fn square_flip(pov: usize, mirrored: bool) -> i32 {
    (if mirrored {
        7i32
    } else {
        0i32
    }) ^ (if pov == 1 {
        56i32
    } else {
        0i32
    })
}

/// The threat input of a piece of kind `ap` and colour `ac` on
/// `attacking_square` attacking one of kind `tp` and colour `tc` on
/// `attacked_square`, seen from `pov`, mirrored or not: `THREAT_DIM` when
/// the pair has no input; else the pair's block start, plus the attacks of
/// the attacker's kind on the squares below its own, plus the attacked
/// square's rank among its attacks.
pub open spec fn threat_feature_spec(
    pov: usize,
    ap: usize,
    ac: usize,
    tp: usize,
    tc: usize,
    attacking_square: i32,
    attacked_square: i32,
    mirrored: bool,
) -> int {
    let flip = square_flip(pov, mirrored);
    let a_sq = attacking_square ^ flip;
    let d_sq = attacked_square ^ flip;
    let a_c = ac ^ pov;
    let d_c = tc ^ pov;
    let e = pair_spec(ap as int, a_c as int, tp as int, d_c as int);
    if pair_excluded_spec(e.0, e.1, a_sq as int, d_sq as int) {
        crate::nnue_sf::THREAT_DIM as int
    } else {
        e.2 + offset_spec(ap as int, a_c as int, a_sq as int) + below_spec(ap as int, a_c as int, a_sq as int, d_sq as int)
    }
}

pub fn get_threat_feature(
    t: &ThreatTables,
    pov: usize,
    attacking_piece: usize,
    attacking_color: usize,
    attacked_piece: usize,
    attacked_color: usize,
    attacking_square: i32,
    attacked_square: i32,
    mirrored: bool,
) -> (r: i32)
    requires
        t.wf(),
        pov < 2,
        attacking_piece < 6,
        attacked_piece < 6,
        attacking_color < 2,
        attacked_color < 2,
        0 <= attacking_square < 64,
        0 <= attacked_square < 64,
    ensures
        r == threat_feature_spec(
            pov,
            attacking_piece,
            attacking_color,
            attacked_piece,
            attacked_color,
            attacking_square,
            attacked_square,
            mirrored,
        ),
{
    let square_flip = (if mirrored {
        7i32
    } else {
        0i32
    }) ^ (if pov == 1 {
        56i32
    } else {
        0i32
    });
    proof {
        lemma_flip(if mirrored {
            7i32
        } else {
            0i32
        }, if pov == 1 {
            56i32
        } else {
            0i32
        }, attacking_color, pov);
        lemma_flip(attacking_square, square_flip, attacked_color, pov);
        lemma_flip(attacked_square, square_flip, 0, 0);
    }
    let a_sq = attacking_square ^ square_flip;
    let d_sq = attacked_square ^ square_flip;
    let a_c = attacking_color ^ pov;
    let d_c = attacked_color ^ pov;
    let pi = ((attacking_piece * 2 + a_c) * 6 + attacked_piece) * 2 + d_c;
    proof {
        assert(pi == idx_pair(attacking_piece as int, a_c as int, attacked_piece as int, d_c as int));
        assert(t.pair_lookup@[idx_pair(attacking_piece as int, a_c as int, attacked_piece as int, d_c as int)]
            == pair_spec(attacking_piece as int, a_c as int, attacked_piece as int, d_c as int));
    }
    let e = t.pair_lookup[pi];
    let (excluded, semi_excluded, base) = e;
    if is_pair_excluded(excluded, semi_excluded, a_sq, d_sq) {
        return crate::nnue_sf::THREAT_DIM as i32;
    }
    let oi = (attacking_piece * 2 + a_c) * 64 + a_sq as usize;
    let ai = oi * 64 + d_sq as usize;
    proof {
        assert(oi == idx3(attacking_piece as int, a_c as int, a_sq as int));
        assert(ai == idx4(attacking_piece as int, a_c as int, a_sq as int, d_sq as int));
        assert(t.piece_offset@[idx3(attacking_piece as int, a_c as int, a_sq as int)] == offset_spec(
            attacking_piece as int,
            a_c as int,
            a_sq as int,
        ));
        assert(t.attack_index@[idx4(attacking_piece as int, a_c as int, a_sq as int, d_sq as int)] == below_spec(
            attacking_piece as int,
            a_c as int,
            a_sq as int,
            d_sq as int,
        ));
    }
    let off = t.piece_offset[oi];
    let idx = t.attack_index[ai];
    proof {
        assert(off == offset_spec(attacking_piece as int, a_c as int, a_sq as int));
        assert(idx == below_spec(attacking_piece as int, a_c as int, a_sq as int, d_sq as int));
        assert(0 <= off <= 4096) by {
            lemma_offset_bound(attacking_piece as int, a_c as int, a_sq as int);
        }
        assert(0 <= idx <= 64) by {
            lemma_below_bound(attacking_piece as int, a_c as int, a_sq as int, d_sq as int);
        }
        assert(-4096 <= base <= 600000) by {
            lemma_pair_base_bound(attacking_piece as int, a_c as int, attacked_piece as int, d_c as int);
        }
    }
    base + off + idx
}

/// Where the pair of pawns with ids `id_a` and `id_b` sits among the pairs:
/// the higher id's triangle, plus the lower id.
pub open spec fn pawn_pair_index_spec(id_a: int, id_b: int) -> int {
    let lo = if id_a < id_b {
        id_a
    } else {
        id_b
    };
    let hi = if id_a < id_b {
        id_b
    } else {
        id_a
    };
    hi * (hi - 1) / 2 + lo
}

/// The pawn-pair index is unordered: the same two pawns give the same
/// number either way round.
pub proof fn lemma_pawn_pair_index_unordered(id_a: int, id_b: int)
    ensures
        pawn_pair_index_spec(id_a, id_b) == pawn_pair_index_spec(id_b, id_a),
{
}

pub fn pawn_pair_index(id_a: i32, id_b: i32) -> (r: usize)
    requires
        ({
            let hi = if id_a < id_b {
                id_b as int
            } else {
                id_a as int
            };
            &&& i32::MIN < hi
            &&& i32::MIN <= hi * (hi - 1) <= i32::MAX
            &&& i32::MIN <= pawn_pair_index_spec(id_a as int, id_b as int) <= i32::MAX
        }),
    ensures
        r == pawn_pair_index_spec(id_a as int, id_b as int) as usize,
{
    let (lo, hi) = if id_a < id_b {
        (id_a, id_b)
    } else {
        (id_b, id_a)
    };
    assert(hi * (hi - 1) >= 0) by (nonlinear_arith);
    #[verifier::truncate]
    let r = (hi * (hi - 1) / 2 + lo) as usize;
    r
}

/// The id of a pawn: its colour's offset plus its square (flipped) less 8.
pub fn pawn_id(square: usize, color_offset: i32, square_flip: usize) -> (r: i32)
    requires
        i32::MIN <= color_offset + ((square ^ square_flip) as i32) - 8 <= i32::MAX,
        i32::MIN <= color_offset + ((square ^ square_flip) as i32) <= i32::MAX,
    ensures
        r == color_offset + ((square ^ square_flip) as i32) - 8,
{
    #[verifier::truncate]
    let x = (square ^ square_flip) as i32;
    color_offset + x - 8
}

proof fn lemma_pair_base_bound(ap: int, ac: int, tp: int, tc: int)
    requires
        0 <= ap < 6,
        0 <= ac < 2,
        0 <= tp < 6,
        0 <= tc < 2,
        0 <= offset_spec(ap, ac, 64) <= 4096,
        0 <= running_spec(ac * 6 + ap) <= 12 * 40960,
    ensures
        -4096 <= pair_spec(ap, ac, tp, tc).2 <= 600000,
{
    let map = PIECE_INTERACTION_MAP[ap][tp];
    let half = PIECE_TARGET_COUNT[ap] / 2;
    assert(0 <= PIECE_TARGET_COUNT[ap] <= 10);
    assert(-1 <= map <= 4);
    let slot = tc * half + map;
    assert(-1 <= slot <= 9) by (nonlinear_arith)
        requires
            0 <= tc <= 1,
            0 <= half <= 5,
            -1 <= map <= 4,
            slot == tc * half + map,
    ;
    let o = offset_spec(ap, ac, 64);
    assert(-4096 <= slot * o <= 9 * 4096) by (nonlinear_arith)
        requires
            -1 <= slot <= 9,
            0 <= o <= 4096,
    ;
}

proof fn lemma_offset_bound(p: int, c: int, o: int)
    requires
        0 <= o <= 64,
    ensures
        0 <= offset_spec(p, c, o) <= 64 * o,
    decreases o,
{
    if o > 0 {
        lemma_offset_bound(p, c, o - 1);
        crate::bitboard::lemma_popcount_le64(pseudo_spec(p, o - 1, c));
    }
}

proof fn lemma_below_bound(p: int, c: int, o: int, t: int)
    ensures
        0 <= below_spec(p, c, o, t) <= 64,
{
    let a = pseudo_spec(p, o, c);
    crate::bitboard::lemma_popcount_le64(a & (((1u64 << (t as u64)) - 1) as u64));
}

/// The piece of kind `ap` and colour `ac` on `a` attacks `d` on an empty
/// board, and the numbering gives this attack on a piece of kind `tp` and
/// colour `tc` an input (all in the frame already turned for the side).
pub open spec fn counted(ap: int, ac: int, tp: int, tc: int, a: int, d: int) -> bool {
    &&& 0 <= ap < 6
    &&& 0 <= ac < 2
    &&& 0 <= tp < 6
    &&& 0 <= tc < 2
    &&& 0 <= a < 64
    &&& 0 <= d < 64
    &&& sq_in(pseudo_spec(ap, a, ac), d)
    &&& !pair_excluded_spec(pair_spec(ap, ac, tp, tc).0, pair_spec(ap, ac, tp, tc).1, a, d)
}

/// The input the numbering gives that attack.
pub open spec fn index_of(ap: int, ac: int, tp: int, tc: int, a: int, d: int) -> int {
    pair_spec(ap, ac, tp, tc).2 + offset_spec(ap, ac, a) + below_spec(ap, ac, a, d)
}

/// The slot of the target kind and colour inside the attacker's block.
pub open spec fn slot_of(ap: int, tp: int, tc: int) -> int {
    tc * (PIECE_TARGET_COUNT[ap] / 2) + PIECE_INTERACTION_MAP[ap][tp]
}

proof fn lemma_offset_grows(p: int, c: int, o1: int, o2: int)
    requires
        0 <= o1 <= o2,
    ensures
        0 <= offset_spec(p, c, o1) <= offset_spec(p, c, o2),
    decreases o2,
{
    if o1 < o2 {
        lemma_offset_grows(p, c, o1, o2 - 1);
    } else if o1 > 0 {
        lemma_offset_grows(p, c, o1 - 1, o1 - 1);
    }
}

proof fn lemma_running_grows(n1: int, n2: int)
    requires
        0 <= n1 <= n2,
    ensures
        0 <= running_spec(n1) <= running_spec(n2),
    decreases n2,
{
    if n1 < n2 {
        lemma_running_grows(n1, n2 - 1);
        let m = n2 - 1;
        lemma_offset_grows(m % 6, m / 6, 0, 64);
        assert(0 <= PIECE_TARGET_COUNT[m % 6]);
        assert(PIECE_TARGET_COUNT[m % 6] * offset_spec(m % 6, m / 6, 64) >= 0) by (nonlinear_arith)
            requires
                0 <= PIECE_TARGET_COUNT[m % 6],
                0 <= offset_spec(m % 6, m / 6, 64),
        ;
    } else {
        lemma_running_bound(n1);
    }
}

/// Among the squares attacked, the rank of `d` is below their number and
/// grows with `d`.
proof fn lemma_below_rank(ap: int, ac: int, a: int, d1: int, d2: int)
    requires
        0 <= d1 < 64,
        0 <= d2 < 64,
        sq_in(pseudo_spec(ap, a, ac), d1),
        sq_in(pseudo_spec(ap, a, ac), d2),
    ensures
        0 <= below_spec(ap, ac, a, d1) < popcount(pseudo_spec(ap, a, ac)),
        d1 < d2 ==> below_spec(ap, ac, a, d1) < below_spec(ap, ac, a, d2),
{
    broadcast use crate::bitboard::lemma_sq_in_and;

    let x = pseudo_spec(ap, a, ac);
    assert(low_squares(d1) == (((1u64 << (d1 as u64)) - 1) as u64));
    assert forall|t: int| #[trigger] sq_in(x & low_squares(d1), t) implies sq_in(x, t) by {}
    crate::bitboard::lemma_low_squares(d1, d1);
    assert(!sq_in(x & low_squares(d1), d1));
    crate::bitboard::lemma_popcount_subset(x & low_squares(d1), x);
    if d1 < d2 {
        assert forall|t: int| #[trigger] sq_in(x & low_squares(d1), t) implies sq_in(x & low_squares(d2), t) by {
            crate::bitboard::lemma_low_squares(d1, t);
            crate::bitboard::lemma_low_squares(d2, t);
        }
        crate::bitboard::lemma_low_squares(d2, d1);
        assert(sq_in(x & low_squares(d2), d1));
        crate::bitboard::lemma_popcount_subset(x & low_squares(d1), x & low_squares(d2));
    }
}

/// The rows of the interaction map that have inputs, and where they go.
proof fn lemma_map_facts(ap: int, tp: int)
    requires
        0 <= ap < 6,
        0 <= tp < 6,
    ensures
        PIECE_INTERACTION_MAP[ap][tp] >= 0 ==> PIECE_INTERACTION_MAP[ap][tp] < PIECE_TARGET_COUNT[ap] / 2,
        PIECE_TARGET_COUNT[ap] == 0 || PIECE_TARGET_COUNT[ap] == 4 || PIECE_TARGET_COUNT[ap] == 8
            || PIECE_TARGET_COUNT[ap] == 10,
        -1 <= PIECE_INTERACTION_MAP[ap][tp] <= 4,
{
}

/// Two target kinds with inputs in one attacker's row have different slots.
proof fn lemma_map_distinct(ap: int, tp1: int, tp2: int)
    requires
        0 <= ap < 6,
        0 <= tp1 < 6,
        0 <= tp2 < 6,
        PIECE_INTERACTION_MAP[ap][tp1] >= 0,
        PIECE_INTERACTION_MAP[ap][tp1] == PIECE_INTERACTION_MAP[ap][tp2],
    ensures
        tp1 == tp2,
{
}

/// A counted attack lies in its slot of its attacker's block: between the
/// slot's start and the start of the next slot.
proof fn lemma_in_slot(ap: int, ac: int, tp: int, tc: int, a: int, d: int)
    requires
        counted(ap, ac, tp, tc, a, d),
    ensures
        0 <= slot_of(ap, tp, tc) < PIECE_TARGET_COUNT[ap],
        running_spec(ac * 6 + ap) + slot_of(ap, tp, tc) * offset_spec(ap, ac, 64) <= index_of(ap, ac, tp, tc, a, d)
            < running_spec(ac * 6 + ap) + (slot_of(ap, tp, tc) + 1) * offset_spec(ap, ac, 64),
        offset_spec(ap, ac, a) <= offset_spec(ap, ac, a) + below_spec(ap, ac, a, d) < offset_spec(ap, ac, a + 1),
{
    lemma_map_facts(ap, tp);
    lemma_below_rank(ap, ac, a, d, d);
    lemma_offset_grows(ap, ac, a + 1, 64);
    lemma_offset_grows(ap, ac, 0, a);
    if ap == 0 {
        assert(8 <= a < 56) by {
            crate::bitboard::lemma_sq_in_zero(d);
        }
    }
    assert(offset_spec(ap, ac, a + 1) == offset_spec(ap, ac, a) + popcount(pseudo_spec(ap, a, ac)));
    let cpo = offset_spec(ap, ac, 64);
    let slot = slot_of(ap, tp, tc);
    let half = PIECE_TARGET_COUNT[ap] / 2;
    assert(0 <= slot < PIECE_TARGET_COUNT[ap]) by (nonlinear_arith)
        requires
            0 <= tc <= 1,
            0 <= PIECE_INTERACTION_MAP[ap][tp] < half,
            half * 2 == PIECE_TARGET_COUNT[ap],
            slot == tc * half + PIECE_INTERACTION_MAP[ap][tp],
    ;
    lemma_offset_bound(ap, ac, 64);
    lemma_running_bound(ac * 6 + ap);
    assert(0 <= slot * cpo <= 9 * 4096) by (nonlinear_arith)
        requires
            0 <= slot <= 9,
            0 <= cpo <= 4096,
    ;
    assert(pair_spec(ap, ac, tp, tc).2 == running_spec(ac * 6 + ap) + slot * cpo);
    assert((slot + 1) * cpo == slot * cpo + cpo) by (nonlinear_arith);
}

proof fn lemma_running_bound(n: int)
    requires
        0 <= n,
    ensures
        0 <= running_spec(n) <= n * 40960,
    decreases n,
{
    if n > 0 {
        lemma_running_bound(n - 1);
        let m = n - 1;
        lemma_offset_bound(m % 6, m / 6, 64);
        lemma_map_facts(m % 6, 0);
        assert(0 <= PIECE_TARGET_COUNT[m % 6] * offset_spec(m % 6, m / 6, 64) <= 40960) by (nonlinear_arith)
            requires
                0 <= PIECE_TARGET_COUNT[m % 6] <= 10,
                0 <= offset_spec(m % 6, m / 6, 64) <= 4096,
        ;
    }
}

/// A counted attack lies in its attacker's block: between the block's
/// start and the next block's.
pub proof fn lemma_threat_index_in_block(ap: int, ac: int, tp: int, tc: int, a: int, d: int)
    requires
        counted(ap, ac, tp, tc, a, d),
    ensures
        running_spec(ac * 6 + ap) <= index_of(ap, ac, tp, tc, a, d) < running_spec(ac * 6 + ap + 1),
{
    lemma_in_slot(ap, ac, tp, tc, a, d);
    let n = ac * 6 + ap;
    assert(n % 6 == ap && n / 6 == ac);
    let cpo = offset_spec(ap, ac, 64);
    let slot = slot_of(ap, tp, tc);
    lemma_offset_grows(ap, ac, 0, 64);
    assert(0 <= slot * cpo) by (nonlinear_arith)
        requires
            0 <= slot,
            0 <= cpo,
    ;
    assert((slot + 1) * cpo <= PIECE_TARGET_COUNT[ap] * cpo) by (nonlinear_arith)
        requires
            slot + 1 <= PIECE_TARGET_COUNT[ap],
            0 <= cpo,
    ;
}

/// Two counted attacks with the same input are the same attack: the
/// numbering never gives two threats one input.
pub proof fn lemma_threat_index_injective(
    ap1: int,
    ac1: int,
    tp1: int,
    tc1: int,
    a1: int,
    d1: int,
    ap2: int,
    ac2: int,
    tp2: int,
    tc2: int,
    a2: int,
    d2: int,
)
    requires
        counted(ap1, ac1, tp1, tc1, a1, d1),
        counted(ap2, ac2, tp2, tc2, a2, d2),
        index_of(ap1, ac1, tp1, tc1, a1, d1) == index_of(ap2, ac2, tp2, tc2, a2, d2),
    ensures
        ap1 == ap2 && ac1 == ac2 && tp1 == tp2 && tc1 == tc2 && a1 == a2 && d1 == d2,
{
    lemma_threat_index_in_block(ap1, ac1, tp1, tc1, a1, d1);
    lemma_threat_index_in_block(ap2, ac2, tp2, tc2, a2, d2);
    let n1 = ac1 * 6 + ap1;
    let n2 = ac2 * 6 + ap2;
    if n1 < n2 {
        lemma_running_grows(n1 + 1, n2);
    } else if n2 < n1 {
        lemma_running_grows(n2 + 1, n1);
    }
    assert(ap1 == ap2 && ac1 == ac2);
    lemma_in_slot(ap1, ac1, tp1, tc1, a1, d1);
    lemma_in_slot(ap2, ac2, tp2, tc2, a2, d2);
    let cpo = offset_spec(ap1, ac1, 64);
    lemma_offset_grows(ap1, ac1, 0, 64);
    let s1 = slot_of(ap1, tp1, tc1);
    let s2 = slot_of(ap2, tp2, tc2);
    if s1 < s2 {
        assert((s1 + 1) * cpo <= s2 * cpo) by (nonlinear_arith)
            requires
                s1 + 1 <= s2,
                0 <= cpo,
        ;
    } else if s2 < s1 {
        assert((s2 + 1) * cpo <= s1 * cpo) by (nonlinear_arith)
            requires
                s2 + 1 <= s1,
                0 <= cpo,
        ;
    }
    assert(s1 == s2);
    lemma_map_facts(ap1, tp1);
    lemma_map_facts(ap2, tp2);
    let half = PIECE_TARGET_COUNT[ap1] / 2;
    assert(tc1 == tc2) by (nonlinear_arith)
        requires
            0 <= tc1 <= 1,
            0 <= tc2 <= 1,
            0 <= PIECE_INTERACTION_MAP[ap1][tp1] < half,
            0 <= PIECE_INTERACTION_MAP[ap1][tp2] < half,
            tc1 * half + PIECE_INTERACTION_MAP[ap1][tp1] == tc2 * half + PIECE_INTERACTION_MAP[ap1][tp2],
    ;
    lemma_map_distinct(ap1, tp1, tp2);
    if a1 < a2 {
        lemma_offset_grows(ap1, ac1, a1 + 1, a2);
    } else if a2 < a1 {
        lemma_offset_grows(ap1, ac1, a2 + 1, a1);
    }
    assert(a1 == a2);
    if d1 < d2 {
        lemma_below_rank(ap1, ac1, a1, d1, d2);
    } else if d2 < d1 {
        lemma_below_rank(ap1, ac1, a1, d2, d1);
    }
}

/// With tables built, every counted attack has an input below `THREAT_DIM`.
pub proof fn lemma_threat_index_bound(t: ThreatTables, ap: int, ac: int, tp: int, tc: int, a: int, d: int)
    requires
        t.wf(),
        counted(ap, ac, tp, tc, a, d),
    ensures
        0 <= index_of(ap, ac, tp, tc, a, d) < crate::nnue_sf::THREAT_DIM,
{
    lemma_threat_index_in_block(ap, ac, tp, tc, a, d);
    lemma_running_grows(0, ac * 6 + ap);
    lemma_running_grows(ac * 6 + ap + 1, 12);
}

} // verus!
