//! Zobrist keys: one fixed pseudo-random 64-bit key per (colour, piece, square),
//! for the side to move, for each castling-rights mask and for each en passant file.
//!
//! Every key is a function of its index alone (a SplitMix64 step), so the same
//! position gets the same key in every process, and no table has to be built
//! before a key can be read.
use vstd::prelude::*;
use crate::types::{Color, PieceType, Square, color_index, piece_index};

verus! {

/// SplitMix64's output function.
pub closed spec fn mix(z: u64) -> u64 {
    let z1 = (z ^ (z >> 30u64)).wrapping_mul(0xbf58476d1ce4e5b9u64);
    let z2 = (z1 ^ (z1 >> 27u64)).wrapping_mul(0x94d049bb133111ebu64);
    z2 ^ (z2 >> 31u64)
}

/// The key with index `i`.
pub closed spec fn key_at(i: u64) -> u64 {
    mix(i.wrapping_mul(0x9e3779b97f4a7c15u64).wrapping_add(0x2545f4914f6cdd1du64))
}

pub open spec fn piece_key_spec(c: Color, p: PieceType, s: int) -> u64 {
    key_at((color_index(c) * 384 + piece_index(p) * 64 + s) as u64)
}

pub open spec fn side_key_spec() -> u64 {
    key_at(768)
}

pub open spec fn castling_key_spec(m: int) -> u64 {
    key_at((769 + m) as u64)
}

pub open spec fn ep_key_spec(f: int) -> u64 {
    key_at((785 + f) as u64)
}

fn key(i: u64) -> (k: u64)
    ensures
        k == key_at(i),
{
    let z = i.wrapping_mul(0x9e3779b97f4a7c15u64).wrapping_add(0x2545f4914f6cdd1du64);
    let z1 = (z ^ (z >> 30u64)).wrapping_mul(0xbf58476d1ce4e5b9u64);
    let z2 = (z1 ^ (z1 >> 27u64)).wrapping_mul(0x94d049bb133111ebu64);
    z2 ^ (z2 >> 31u64)
}

pub fn piece_key(c: Color, p: PieceType, s: Square) -> (k: u64)
    requires
        s < 64,
    ensures
        k == piece_key_spec(c, p, s as int),
{
    key((c.idx() * 384 + p.idx() * 64 + s as usize) as u64)
}

pub fn side_key() -> (k: u64)
    ensures
        k == side_key_spec(),
{
    key(768)
}

pub fn castling_key(m: u8) -> (k: u64)
    requires
        m < 16,
    ensures
        k == castling_key_spec(m as int),
{
    key(769 + m as u64)
}

pub fn ep_key(f: u8) -> (k: u64)
    requires
        f < 8,
    ensures
        k == ep_key_spec(f as int),
{
    key(785 + f as u64)
}

/// The keys as tables, for code that wants to index them.
pub struct Zobrist {
    pub piece_sq: [[[u64; 64]; 6]; 2],
    pub side: u64,
    pub castling: [u64; 16],
    pub ep_file: [u64; 8],
}

impl Zobrist {
    pub open spec fn wf(&self) -> bool {
        &&& forall|c: int, p: int, s: int|
            0 <= c < 2 && 0 <= p < 6 && 0 <= s < 64 ==> #[trigger] self.piece_sq[c][p][s]
                == key_at((c * 384 + p * 64 + s) as u64)
        &&& self.side == side_key_spec()
        &&& forall|m: int| 0 <= m < 16 ==> #[trigger] self.castling[m] == castling_key_spec(m)
        &&& forall|f: int| 0 <= f < 8 ==> #[trigger] self.ep_file[f] == ep_key_spec(f)
    }

    pub fn new() -> (z: Self)
        ensures
            z.wf(),
    {
        let mut piece_sq = [[[0u64; 64]; 6]; 2];
        let mut c: usize = 0;
        while c < 2
            invariant
                c <= 2,
                forall|ci: int, p: int, s: int|
                    0 <= ci < c && 0 <= p < 6 && 0 <= s < 64 ==> #[trigger] piece_sq[ci][p][s]
                        == key_at((ci * 384 + p * 64 + s) as u64),
            decreases 2 - c,
        {
            let mut p: usize = 0;
            while p < 6
                invariant
                    c < 2,
                    p <= 6,
                    forall|ci: int, pi: int, s: int|
                        0 <= ci < c && 0 <= pi < 6 && 0 <= s < 64 ==> #[trigger] piece_sq[ci][pi][s]
                            == key_at((ci * 384 + pi * 64 + s) as u64),
                    forall|pi: int, s: int|
                        0 <= pi < p && 0 <= s < 64 ==> #[trigger] piece_sq[c as int][pi][s]
                            == key_at((c * 384 + pi * 64 + s) as u64),
                decreases 6 - p,
            {
                let mut s: usize = 0;
                while s < 64
                    invariant
                        c < 2,
                        p < 6,
                        s <= 64,
                        forall|ci: int, pi: int, si: int|
                            0 <= ci < c && 0 <= pi < 6 && 0 <= si < 64 ==> #[trigger] piece_sq[ci][pi][si]
                                == key_at((ci * 384 + pi * 64 + si) as u64),
                        forall|pi: int, si: int|
                            0 <= pi < p && 0 <= si < 64 ==> #[trigger] piece_sq[c as int][pi][si]
                                == key_at((c * 384 + pi * 64 + si) as u64),
                        forall|si: int|
                            0 <= si < s ==> #[trigger] piece_sq[c as int][p as int][si] == key_at(
                                (c * 384 + p * 64 + si) as u64,
                            ),
                    decreases 64 - s,
                {
                    piece_sq[c][p][s] = key((c * 384 + p * 64 + s) as u64);
                    s = s + 1;
                }
                p = p + 1;
            }
            c = c + 1;
        }
        let mut castling = [0u64; 16];
        let mut m: u8 = 0;
        while m < 16
            invariant
                m <= 16,
                forall|j: int| 0 <= j < m ==> #[trigger] castling[j] == castling_key_spec(j),
            decreases 16 - m,
        {
            castling[m as usize] = castling_key(m);
            m = m + 1;
        }
        let mut ep_file = [0u64; 8];
        let mut f: u8 = 0;
        while f < 8
            invariant
                f <= 8,
                forall|j: int| 0 <= j < f ==> #[trigger] ep_file[j] == ep_key_spec(j),
            decreases 8 - f,
        {
            ep_file[f as usize] = ep_key(f);
            f = f + 1;
        }
        Zobrist { piece_sq, side: side_key(), castling, ep_file }
    }
}


/// Every castling-rights mask has its own key: mask `m` reads key `769 + m`,
/// all four rights bits included, so two different masks read two different
/// key indices, none shared with the pieces, the side or the en passant files.
pub proof fn lemma_castling_key_index(m: int)
    requires
        0 <= m < 16,
    ensures
        castling_key_spec(m) == key_at((769 + m) as u64),
        forall|m2: int| 0 <= m2 < 16 && m2 != m ==> castling_key_spec(m2) == key_at((769 + m2) as u64) && 769 + m2 != 769 + m,
        768 < 769 + m < 785,
{
}

} // verus!
