//! Attack sets: the fixed tables for knights, kings and pawns, the squares
//! between two aligned squares, and the sliding pieces' rays.
use vstd::prelude::*;
use crate::bitboard::{Bitboard, lemma_bits};
use crate::types::{Color, Square, color_index};

verus! {

pub open spec fn on_board(f: int, r: int) -> bool {
    0 <= f < 8 && 0 <= r < 8
}

/// The single-square set of (file, rank), or the empty set off the board.
pub open spec fn sq_bit(f: int, r: int) -> u64 {
    if on_board(f, r) {
        1u64 << ((r * 8 + f) as u64)
    } else {
        0
    }
}

pub open spec fn file_i(s: int) -> int {
    s % 8
}

pub open spec fn rank_i(s: int) -> int {
    s / 8
}

/// The squares a knight on `s` attacks.
pub open spec fn knight_spec(s: int) -> u64 {
    let f = file_i(s);
    let r = rank_i(s);
    sq_bit(f + 1, r + 2) | sq_bit(f + 2, r + 1) | sq_bit(f + 2, r - 1) | sq_bit(f + 1, r - 2)
        | sq_bit(f - 1, r - 2) | sq_bit(f - 2, r - 1) | sq_bit(f - 2, r + 1) | sq_bit(f - 1, r + 2)
}

/// The squares a king on `s` attacks.
pub open spec fn king_spec(s: int) -> u64 {
    let f = file_i(s);
    let r = rank_i(s);
    sq_bit(f - 1, r - 1) | sq_bit(f - 1, r) | sq_bit(f - 1, r + 1) | sq_bit(f, r - 1)
        | sq_bit(f, r + 1) | sq_bit(f + 1, r - 1) | sq_bit(f + 1, r) | sq_bit(f + 1, r + 1)
}

/// The rank step of a pawn of colour `c`.
pub open spec fn pawn_dir(c: Color) -> int {
    if c == Color::White {
        1
    } else {
        -1
    }
}

/// The squares a pawn of colour `c` on `s` attacks.
pub open spec fn pawn_spec(s: int, c: Color) -> u64 {
    let f = file_i(s);
    let r = rank_i(s);
    sq_bit(f - 1, r + pawn_dir(c)) | sq_bit(f + 1, r + pawn_dir(c))
}

/// The squares a slider on (f, r) reaches stepping by (df, dr), at most `n`
/// steps, up to and including the first occupied square.
pub open spec fn ray(f: int, r: int, df: int, dr: int, occ: u64, n: nat) -> u64
    decreases n,
{
    if n == 0 {
        0
    } else {
        let nf = f + df;
        let nr = r + dr;
        if !on_board(nf, nr) {
            0
        } else if occ & sq_bit(nf, nr) != 0 {
            sq_bit(nf, nr)
        } else {
            sq_bit(nf, nr) | ray(nf, nr, df, dr, occ, (n - 1) as nat)
        }
    }
}

pub open spec fn bishop_spec(s: int, occ: u64) -> u64 {
    let f = file_i(s);
    let r = rank_i(s);
    ray(f, r, 1, 1, occ, 7) | ray(f, r, 1, -1, occ, 7) | ray(f, r, -1, 1, occ, 7) | ray(
        f,
        r,
        -1,
        -1,
        occ,
        7,
    )
}

pub open spec fn rook_spec(s: int, occ: u64) -> u64 {
    let f = file_i(s);
    let r = rank_i(s);
    ray(f, r, 1, 0, occ, 7) | ray(f, r, -1, 0, occ, 7) | ray(f, r, 0, 1, occ, 7) | ray(
        f,
        r,
        0,
        -1,
        occ,
        7,
    )
}

pub open spec fn queen_spec(s: int, occ: u64) -> u64 {
    bishop_spec(s, occ) | rook_spec(s, occ)
}

pub open spec fn sign(x: int) -> int {
    if x > 0 {
        1
    } else if x < 0 {
        -1
    } else {
        0
    }
}

pub open spec fn abs_i(x: int) -> int {
    if x < 0 {
        -x
    } else {
        x
    }
}

/// Walking from (f, r) by (df, dr) until (bf, br): the squares passed over,
/// or `None` if the walk leaves the board or runs out of steps first.
pub open spec fn between_walk(f: int, r: int, df: int, dr: int, bf: int, br: int, n: nat) -> Option<
    u64,
>
    decreases n,
{
    if f == bf && r == br {
        Some(0u64)
    } else if n == 0 || !on_board(f, r) {
        None
    } else {
        match between_walk(f + df, r + dr, df, dr, bf, br, (n - 1) as nat) {
            Some(x) => Some(sq_bit(f, r) | x),
            None => None,
        }
    }
}

pub open spec fn aligned(a: int, b: int) -> bool {
    file_i(a) == file_i(b) || rank_i(a) == rank_i(b) || abs_i(file_i(a) - file_i(b)) == abs_i(
        rank_i(a) - rank_i(b),
    )
}

/// The squares strictly between `a` and `b` when they share a rank, file or
/// diagonal, and the empty set otherwise.
pub open spec fn between_spec(a: int, b: int) -> u64 {
    if a == b || !aligned(a, b) {
        0
    } else {
        let df = sign(file_i(b) - file_i(a));
        let dr = sign(rank_i(b) - rank_i(a));
        match between_walk(
            file_i(a) + df,
            rank_i(a) + dr,
            df,
            dr,
            file_i(b),
            rank_i(b),
            8,
        ) {
            Some(x) => x,
            None => 0,
        }
    }
}

pub proof fn lemma_or_facts(a: u64, b: u64, c: u64)
    by (bit_vector)
    ensures
        (a | b) | c == a | (b | c),
        a | 0 == a,
        0 | a == a,
        a | b == b | a,
{
}

/// The single-square set of (f + df, r + dr).
fn step(f: i32, r: i32, df: i32, dr: i32) -> (b: u64)
    requires
        -8 <= f <= 8,
        -8 <= r <= 8,
        -2 <= df <= 2,
        -2 <= dr <= 2,
    ensures
        b == sq_bit(f + df, r + dr),
{
    let nf = f + df;
    let nr = r + dr;
    if 0 <= nf && nf < 8 && 0 <= nr && nr < 8 {
        1u64 << ((nr * 8 + nf) as u64)
    } else {
        0
    }
}

pub(crate) fn knight_attacks_from(s: Square) -> (b: Bitboard)
    requires
        s < 64,
    ensures
        b == knight_spec(s as int),
{
    let f = (s % 8) as i32;
    let r = (s / 8) as i32;
    step(f, r, 1, 2) | step(f, r, 2, 1) | step(f, r, 2, -1) | step(f, r, 1, -2) | step(f, r, -1, -2)
        | step(f, r, -2, -1) | step(f, r, -2, 1) | step(f, r, -1, 2)
}

pub(crate) fn king_attacks_from(s: Square) -> (b: Bitboard)
    requires
        s < 64,
    ensures
        b == king_spec(s as int),
{
    let f = (s % 8) as i32;
    let r = (s / 8) as i32;
    step(f, r, -1, -1) | step(f, r, -1, 0) | step(f, r, -1, 1) | step(f, r, 0, -1) | step(f, r, 0, 1)
        | step(f, r, 1, -1) | step(f, r, 1, 0) | step(f, r, 1, 1)
}

pub(crate) fn pawn_attacks_from(s: Square, color: Color) -> (b: Bitboard)
    requires
        s < 64,
    ensures
        b == pawn_spec(s as int, color),
{
    let f = (s % 8) as i32;
    let r = (s / 8) as i32;
    let dr: i32 = if color == Color::White {
        1
    } else {
        -1
    };
    step(f, r, -1, dr) | step(f, r, 1, dr)
}

/// The squares strictly between `a` and `b` on a shared line, else empty.
fn between_from(a: Square, b: Square) -> (out: Bitboard)
    requires
        a < 64,
        b < 64,
    ensures
        out == between_spec(a as int, b as int),
{
    if a == b {
        return 0;
    }
    let af = (a % 8) as i32;
    let ar = (a / 8) as i32;
    let bf = (b % 8) as i32;
    let br = (b / 8) as i32;
    let df: i32 = if bf > af {
        1
    } else if bf < af {
        -1
    } else {
        0
    };
    let dr: i32 = if br > ar {
        1
    } else if br < ar {
        -1
    } else {
        0
    };
    let adf = if af >= bf {
        af - bf
    } else {
        bf - af
    };
    let adr = if ar >= br {
        ar - br
    } else {
        br - ar
    };
    let aligned = af == bf || ar == br || adf == adr;
    if !aligned {
        return 0;
    }
    match walk_between(af + df, ar + dr, df, dr, bf, br, 8) {
        Some(x) => x,
        None => 0,
    }
}

fn walk_between(f: i32, r: i32, df: i32, dr: i32, bf: i32, br: i32, n: u32) -> (res: Option<u64>)
    requires
        -1 <= df <= 1,
        -1 <= dr <= 1,
        n <= 8,
        (n as int) - 30 <= f <= 30 - (n as int),
        (n as int) - 30 <= r <= 30 - (n as int),
    ensures
        res == between_walk(f as int, r as int, df as int, dr as int, bf as int, br as int, n as nat),
    decreases n,
{
    if f == bf && r == br {
        Some(0)
    } else if n == 0 || !(0 <= f && f < 8 && 0 <= r && r < 8) {
        None
    } else {
        match walk_between(f + df, r + dr, df, dr, bf, br, n - 1) {
            Some(x) => Some((1u64 << ((r * 8 + f) as u64)) | x),
            None => None,
        }
    }
}

/// The squares a slider on `s` reaches in direction (df, dr) given the occupancy.
pub(crate) fn ray_attacks(s: Square, occ: Bitboard, df: i32, dr: i32) -> (out: Bitboard)
    requires
        s < 64,
        -1 <= df <= 1,
        -1 <= dr <= 1,
    ensures
        out == ray(file_i(s as int), rank_i(s as int), df as int, dr as int, occ, 7),
{
    let mut f = (s % 8) as i32;
    let mut r = (s / 8) as i32;
    let mut out: u64 = 0;
    let mut n: u32 = 7;
    proof {
        lemma_or_facts(ray(f as int, r as int, df as int, dr as int, occ, 7), 0, 0);
    }
    while n > 0
        invariant
            0 <= f < 8,
            0 <= r < 8,
            -1 <= df <= 1,
            -1 <= dr <= 1,
            n <= 7,
            out | ray(f as int, r as int, df as int, dr as int, occ, n as nat) == ray(
                file_i(s as int),
                rank_i(s as int),
                df as int,
                dr as int,
                occ,
                7,
            ),
        decreases n,
    {
        let nf = f + df;
        let nr = r + dr;
        if !(0 <= nf && nf < 8 && 0 <= nr && nr < 8) {
            proof {
                lemma_or_facts(out, 0, 0);
            }
            n = 0;
        } else {
            let bit = 1u64 << ((nr * 8 + nf) as u64);
            let ghost rest = ray(nf as int, nr as int, df as int, dr as int, occ, (n - 1) as nat);
            proof {
                lemma_or_facts(out, bit, rest);
                lemma_or_facts(out | bit, 0, 0);
            }
            out = out | bit;
            if occ & bit != 0 {
                n = 0;
            } else {
                f = nf;
                r = nr;
                n = n - 1;
            }
        }
    }
    proof {
        lemma_or_facts(out, 0, 0);
    }
    out
}

/// Bishop attacks from `s` with the given occupancy.
pub fn bishop_attacks(s: Square, occ: Bitboard) -> (b: Bitboard)
    requires
        s < 64,
    ensures
        b == bishop_spec(s as int, occ),
{
    ray_attacks(s, occ, 1, 1) | ray_attacks(s, occ, 1, -1) | ray_attacks(s, occ, -1, 1)
        | ray_attacks(s, occ, -1, -1)
}

/// Rook attacks from `s` with the given occupancy.
pub fn rook_attacks(s: Square, occ: Bitboard) -> (b: Bitboard)
    requires
        s < 64,
    ensures
        b == rook_spec(s as int, occ),
{
    ray_attacks(s, occ, 1, 0) | ray_attacks(s, occ, -1, 0) | ray_attacks(s, occ, 0, 1)
        | ray_attacks(s, occ, 0, -1)
}

/// Queen attacks: the bishop's and the rook's together.
pub fn queen_attacks(s: Square, occ: Bitboard) -> (b: Bitboard)
    requires
        s < 64,
    ensures
        b == queen_spec(s as int, occ),
{
    bishop_attacks(s, occ) | rook_attacks(s, occ)
}

pub struct Attacks {
    pub knight: [Bitboard; 64],
    pub king: [Bitboard; 64],
    /// [color][square]
    pub pawn: [[Bitboard; 64]; 2],
    /// between[a][b]: the squares strictly between a and b on a shared line, else 0.
    pub between: [[Bitboard; 64]; 64],
}

impl Attacks {
    /// Every table holds what its name says, for every square.
    pub open spec fn wf(&self) -> bool {
        &&& forall|s: int| 0 <= s < 64 ==> #[trigger] self.knight[s] == knight_spec(s)
        &&& forall|s: int| 0 <= s < 64 ==> #[trigger] self.king[s] == king_spec(s)
        &&& forall|s: int| 0 <= s < 64 ==> #[trigger] self.pawn[0][s] == pawn_spec(s, Color::White)
        &&& forall|s: int| 0 <= s < 64 ==> #[trigger] self.pawn[1][s] == pawn_spec(s, Color::Black)
        &&& forall|a: int, b: int|
            0 <= a < 64 && 0 <= b < 64 ==> #[trigger] self.between[a][b] == between_spec(a, b)
    }

    pub fn new() -> (a: Self)
        ensures
            a.wf(),
    {
        let mut knight = [0u64; 64];
        let mut king = [0u64; 64];
        let mut pawn = [[0u64; 64]; 2];
        let mut s: u8 = 0;
        while s < 64
            invariant
                s <= 64,
                forall|j: int| 0 <= j < s ==> #[trigger] knight[j] == knight_spec(j),
                forall|j: int| 0 <= j < s ==> #[trigger] king[j] == king_spec(j),
                forall|j: int| 0 <= j < s ==> #[trigger] pawn[0][j] == pawn_spec(j, Color::White),
                forall|j: int| 0 <= j < s ==> #[trigger] pawn[1][j] == pawn_spec(j, Color::Black),
            decreases 64 - s,
        {
            knight[s as usize] = knight_attacks_from(s);
            king[s as usize] = king_attacks_from(s);
            pawn[0][s as usize] = pawn_attacks_from(s, Color::White);
            pawn[1][s as usize] = pawn_attacks_from(s, Color::Black);
            s = s + 1;
        }
        let mut between = [[0u64; 64]; 64];
        let mut a: u8 = 0;
        while a < 64
            invariant
                a <= 64,
                forall|x: int, y: int|
                    0 <= x < a && 0 <= y < 64 ==> #[trigger] between[x][y] == between_spec(x, y),
            decreases 64 - a,
        {
            let mut b: u8 = 0;
            while b < 64
                invariant
                    a < 64,
                    b <= 64,
                    forall|x: int, y: int|
                        0 <= x < a && 0 <= y < 64 ==> #[trigger] between[x][y] == between_spec(x, y),
                    forall|y: int| 0 <= y < b ==> #[trigger] between[a as int][y] == between_spec(a as int, y),
                decreases 64 - b,
            {
                between[a as usize][b as usize] = between_from(a, b);
                b = b + 1;
            }
            a = a + 1;
        }
        Attacks { knight, king, pawn, between }
    }
}

} // verus!
