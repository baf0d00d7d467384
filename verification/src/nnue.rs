//! The network's input layer: which input each piece is, seen from each
//! side, and the accumulators that sum the weight rows of the inputs present.
//!
//! Inputs: 32 king buckets x 2 colours x 6 kinds x 64 squares of pieces, then
//! 4560 pawn pairs (every unordered pair of 96 pawn slots, no king bucket).
//! Each side keeps its own half of the hidden layer, in i16 with wrapping
//! arithmetic, plus a PSQT running total per output bucket.
use vstd::prelude::*;
use vstd::arithmetic::div_mod::lemma_fundamental_div_mod_converse;
use crate::bitboard::{sq_in, Bitboard};
use crate::types::{color_index, color_of_index, opposite, piece_index, piece_of_index, Color, PieceType, Square};

verus! {

pub const INPUT_BUCKETS: usize = 32;
pub const HIDDEN: usize = 1024;
pub const OUT_BUCKETS: usize = 8;
pub const NUM_PECAS: usize = 24576;
pub const PAIR_DIM: usize = 4560;
pub const PAIR_BASE: usize = 24576;
pub const NUM_FEATURES: usize = 29136;

/// The king bucket and mirror of a perspective: Black sees the board upside
/// down; a king on the e-h files folds onto a-d and mirrors every square.
pub open spec fn bucket_and_mirror_spec(perspective: Color, king_sq: u8) -> (usize, bool) {
    let ks = if perspective == Color::Black {
        king_sq ^ 56u8
    } else {
        king_sq
    };
    let mirror = ks % 8 >= 4;
    let ks2 = if mirror {
        ks ^ 7u8
    } else {
        ks
    };
    ((4 * (ks2 / 8) + ks2 % 8) as usize, mirror)
}

pub fn bucket_and_mirror(perspective: Color, king_sq: Square) -> (r: (usize, bool))
    ensures
        r == bucket_and_mirror_spec(perspective, king_sq),
{
    let ks = if perspective == Color::Black {
        king_sq ^ 56
    } else {
        king_sq
    };
    let mirror = ks % 8 >= 4;
    let ks2 = if mirror {
        ks ^ 7
    } else {
        ks
    };
    (4 * (ks2 / 8) as usize + (ks2 % 8) as usize, mirror)
}

/// The input of a piece of colour `piece_color`, kind `pt` on `s`, seen from
/// `perspective` in the given bucket and mirror: Black's perspective sees the
/// board upside down and the colours exchanged.
pub open spec fn feature_spec(perspective: Color, bucket: usize, mirror: bool, piece_color: Color, pt: PieceType, s: u8) -> int {
    let pc = if perspective == Color::Black {
        opposite(piece_color)
    } else {
        piece_color
    };
    let s1 = if perspective == Color::Black {
        s ^ 56u8
    } else {
        s
    };
    let s2 = if mirror {
        s1 ^ 7u8
    } else {
        s1
    };
    s2 + piece_index(pt) * 64 + color_index(pc) * 384 + bucket * 768
}

/// Black's perspective is White's on the board turned upside down with the
/// colours exchanged: its king bucket and mirror are those of White's king
/// on the flipped square, and each of its inputs is White's input for the
/// piece of the other colour on the flipped square.
pub proof fn lemma_perspective_symmetry(
    king_sq: u8,
    bucket: usize,
    mirror: bool,
    piece_color: Color,
    pt: PieceType,
    s: u8,
)
    ensures
        bucket_and_mirror_spec(Color::Black, king_sq) == bucket_and_mirror_spec(Color::White, king_sq ^ 56u8),
        feature_spec(Color::Black, bucket, mirror, piece_color, pt, s) == feature_spec(
            Color::White,
            bucket,
            mirror,
            opposite(piece_color),
            pt,
            s ^ 56u8,
        ),
{
}

pub fn feature(perspective: Color, bucket: usize, mirror: bool, piece_color: Color, pt: PieceType, s: Square) -> (f: usize)
    requires
        bucket * 768 + 1023 <= usize::MAX,
    ensures
        f == feature_spec(perspective, bucket, mirror, piece_color, pt, s),
{
    let (pc, s1) = if perspective == Color::Black {
        (piece_color.opp(), s ^ 56)
    } else {
        (piece_color, s)
    };
    let s2 = if mirror {
        s1 ^ 7
    } else {
        s1
    };
    s2 as usize + pt.idx() * 64 + pc.idx() * 384 + bucket * 768
}

/// The squares that pair with `sq`: its own file and the two beside it,
/// ranks 2 to 7, itself excluded.
pub open spec fn pp_mask_spec(sq: usize) -> u64 {
    let file = (sq % 8) as u64;
    let fa = 0x0101_0101_0101_0101u64;
    let mask = (fa << file) | (if file > 0 {
        fa << ((file - 1) as u64)
    } else {
        0
    }) | (if file < 7 {
        fa << ((file + 1) as u64)
    } else {
        0
    });
    mask & !(0xFFu64 | (0xFFu64 << 56u64)) & !(1u64 << (sq as u64))
}

pub fn pp_mask_calc(sq: usize) -> (m: u64)
    requires
        sq < 64,
    ensures
        m == pp_mask_spec(sq),
{
    let fa: u64 = 0x0101_0101_0101_0101;
    let file = (sq % 8) as u64;
    let mut mask = fa << file;
    if file > 0 {
        mask = mask | (fa << (file - 1));
    } else {
        proof {
            crate::attacks::lemma_or_facts(mask, 0, 0);
        }
    }
    if file < 7 {
        mask = mask | (fa << (file + 1));
    } else {
        proof {
            crate::attacks::lemma_or_facts(mask, 0, 0);
        }
    }
    mask & !(0xFFu64 | (0xFFu64 << 56u64)) & !(1u64 << (sq as u64))
}

/// A pawn's slot from one perspective: 0..47 if it is ours, 48..95 if it is
/// theirs (the first rank, where pawns cannot be, dropped).
pub open spec fn peao_id_spec(casa: usize, nosso: bool, espelho: usize) -> int {
    (if nosso {
        0int
    } else {
        48
    }) + (casa ^ espelho) - 8
}

fn peao_id(casa: usize, nosso: bool, espelho: usize) -> (r: i32)
    requires
        casa < 64,
        espelho == 0 || espelho == 56,
    ensures
        r == peao_id_spec(casa, nosso, espelho),
{
    proof {
        assert((casa ^ espelho) < 64) by (bit_vector)
            requires
                casa < 64,
                espelho == 0 || espelho == 56,
        ;
    }
    (if nosso {
        0
    } else {
        48
    }) + (casa ^ espelho) as i32 - 8
}

/// The index of the unordered pair of slots `a` and `b`.
pub open spec fn par_indice_spec(a: int, b: int) -> int {
    let lo = if a < b {
        a
    } else {
        b
    };
    let hi = if a < b {
        b
    } else {
        a
    };
    hi * (hi - 1) / 2 + lo
}

/// The pair index is unordered: the same pair gives the same number either
/// way round.
pub proof fn lemma_par_indice_unordered(a: int, b: int)
    ensures
        par_indice_spec(a, b) == par_indice_spec(b, a),
{
}

fn par_indice(a: i32, b: i32) -> (r: usize)
    requires
        0 <= a < 96,
        0 <= b < 96,
        a != b,
    ensures
        r == par_indice_spec(a as int, b as int),
        r < PAIR_DIM,
{
    let (lo, hi) = if a < b {
        (a, b)
    } else {
        (b, a)
    };
    proof {
        assert(0 <= hi * (hi - 1) <= 95 * 94) by (nonlinear_arith)
            requires
                1 <= hi <= 95,
        ;
        assert(hi * (hi - 1) / 2 + lo < 4560) by (nonlinear_arith)
            requires
                1 <= hi <= 95,
                0 <= lo < hi,
        ;
    }
    (hi * (hi - 1) / 2 + lo) as usize
}

/// One side's half of the hidden layer, its PSQT running totals, and the
/// bucket and mirror they were computed under.
#[derive(Clone, Copy)]
pub struct Half {
    pub values: [i16; HIDDEN],
    pub psqt: [i32; OUT_BUCKETS],
    pub bucket: usize,
    pub mirror: bool,
}

impl Half {
    /// All zero, bucket 0, not mirrored.
    pub open spec fn is_empty(&self) -> bool {
        &&& forall|i: int| 0 <= i < HIDDEN ==> #[trigger] self.values[i] == 0
        &&& forall|b: int| 0 <= b < OUT_BUCKETS ==> #[trigger] self.psqt[b] == 0
        &&& self.bucket == 0
        &&& !self.mirror
    }

    pub fn empty() -> (h: Self)
        ensures
            h.is_empty(),
    {
        Half { values: [0i16; 1024], psqt: [0i32; 8], bucket: 0, mirror: false }
    }
}

/// The two halves, indexed by perspective (White 0, Black 1).
#[derive(Clone, Copy)]
pub struct Accumulator {
    pub half: [Half; 2],
}

impl Accumulator {
    pub fn empty() -> (a: Self)
        ensures
            a.half[0].is_empty(),
            a.half[1].is_empty(),
    {
        Accumulator { half: [Half::empty(), Half::empty()] }
    }
}

/// One cached accumulator half and the placement it was built from.
#[derive(Clone, Copy)]
struct CacheEntry {
    values: [i16; HIDDEN],
    psqt: [i32; OUT_BUCKETS],
    pieces: [[Bitboard; 6]; 2],
    used: bool,
}

/// No piece anywhere.
fn empty_planes() -> (p: [[Bitboard; 6]; 2])
    ensures
        forall|c: int, t: int| 0 <= c < 2 && 0 <= t < 6 ==> #[trigger] p[c][t] == 0,
{
    [[0, 0, 0, 0, 0, 0], [0, 0, 0, 0, 0, 0]]
}

/// One entry per (perspective, mirror, bucket): refreshing a perspective
/// starts from what its bucket last held and applies only the pieces that
/// moved since.
pub struct RefreshCache {
    entries: Vec<CacheEntry>,
}

impl RefreshCache {
    /// Room for every (perspective, mirror, bucket), none used yet.
    pub closed spec fn is_fresh(&self) -> bool {
        &&& self.entries@.len() == 2 * 2 * INPUT_BUCKETS
        &&& forall|k: int| 0 <= k < self.entries@.len() ==> !(#[trigger] self.entries@[k]).used
    }

    pub fn new() -> (c: Self)
        ensures
            c.is_fresh(),
    {
        let mut entries: Vec<CacheEntry> = Vec::new();
        let mut k: usize = 0;
        while k < 2 * 2 * INPUT_BUCKETS
            invariant
                k <= 2 * 2 * INPUT_BUCKETS,
                entries@.len() == k,
                forall|j: int| 0 <= j < k ==> !(#[trigger] entries@[j]).used,
                forall|j: int, c: int, t: int| 0 <= j < k && 0 <= c < 2 && 0 <= t < 6 ==> #[trigger] entries@[j].pieces[c][t] == 0,
            decreases 2 * 2 * INPUT_BUCKETS - k,
        {
            let e = CacheEntry { values: [0i16; 1024], psqt: [0i32; 8], pieces: empty_planes(), used: false };
            let ghost before = entries@;
            entries.push(e);
            assert forall|j: int, c: int, t: int| 0 <= j <= k && 0 <= c < 2 && 0 <= t < 6 implies #[trigger] entries@[j].pieces[c][t] == 0 by {
                if j < k {
                    assert(entries@[j] == before[j]);
                    assert(before[j].pieces[c][t] == 0);
                } else {
                    assert(entries@[j] == e);
                    let p = e.pieces;
                    assert(p[c][t] == 0);
                }
            }
            k = k + 1;
        }
        let c = RefreshCache { entries };
        proof {
            assert forall|net: InputLayer| #[trigger] c.wf(net) by {
                assert forall|k: int| 0 <= k < 128 implies entry_ok(#[trigger] c.entries@[k], net, k) by {
                    assert(!c.entries@[k].used);
                }
            }
        }
        c
    }
}

/// The network's input layer: one row of hidden weights and one row of
/// PSQT weights per input, and whether the pawn-pair rows are in use.
pub struct InputLayer {
    pub l0w: Vec<[i16; HIDDEN]>,
    pub psqt: Vec<[i16; OUT_BUCKETS]>,
    pub pairs: bool,
}

impl InputLayer {
    /// A row for every input.
    pub open spec fn wf(&self) -> bool {
        self.l0w@.len() == NUM_FEATURES && self.psqt@.len() == NUM_FEATURES
    }
}

/// `x` reduced to an i16, as wrapping arithmetic leaves it.
pub open spec fn wrap16(x: int) -> int {
    (x + 32768) % 65536 - 32768
}

pub proof fn lemma_wrap16(s: int, r: int)
    ensures
        wrap16(wrap16(s) + r) == wrap16(s + r),
        -32768 <= wrap16(s) < 32768,
        -32768 <= s < 32768 ==> wrap16(s) == s,
{
    let q = (s + 32768) / 65536;
    vstd::arithmetic::div_mod::lemma_fundamental_div_mod(s + 32768, 65536);
    assert(wrap16(s) + r + 32768 == 65536 * (-q) + (s + r + 32768));
    vstd::arithmetic::div_mod::lemma_mod_multiples_vanish(-q, s + r + 32768, 65536);
    if -32768 <= s < 32768 {
        vstd::arithmetic::div_mod::lemma_small_mod((s + 32768) as nat, 65536);
    }
}

pub proof fn lemma_wrapping(a: i16, b: i16)
    ensures
        a.wrapping_add(b) == wrap16(a + b),
        a.wrapping_sub(b) == wrap16(a - b),
{
    lemma_wrap16(a + b, 0);
    lemma_wrap16(a - b, 0);
    if a + b > 32767 {
        assert(wrap16(a + b) == wrap16((a + b - 65536) + 65536));
        vstd::arithmetic::div_mod::lemma_mod_multiples_vanish(1, a + b - 65536 + 32768, 65536);
        vstd::arithmetic::div_mod::lemma_small_mod((a + b - 65536 + 32768) as nat, 65536);
    } else if a + b < -32768 {
        vstd::arithmetic::div_mod::lemma_mod_multiples_vanish(-1, a + b + 65536 + 32768, 65536);
        vstd::arithmetic::div_mod::lemma_small_mod((a + b + 65536 + 32768) as nat, 65536);
    }
    if a - b > 32767 {
        vstd::arithmetic::div_mod::lemma_mod_multiples_vanish(1, a - b - 65536 + 32768, 65536);
        vstd::arithmetic::div_mod::lemma_small_mod((a - b - 65536 + 32768) as nat, 65536);
    } else if a - b < -32768 {
        vstd::arithmetic::div_mod::lemma_mod_multiples_vanish(-1, a - b + 65536 + 32768, 65536);
        vstd::arithmetic::div_mod::lemma_small_mod((a - b + 65536 + 32768) as nat, 65536);
    }
}

/// Adds (or subtracts) one row of weights into the hidden values, wrapping.
fn apply(dst: &mut [i16; HIDDEN], col: &[i16; HIDDEN], add: bool)
    ensures
        forall|i: int| 0 <= i < HIDDEN ==> #[trigger] final(dst)[i] == (if add {
            wrap16(old(dst)[i] + col[i])
        } else {
            wrap16(old(dst)[i] - col[i])
        }),
{
    let mut i: usize = 0;
    while i < HIDDEN
        invariant
            i <= HIDDEN,
            forall|j: int| 0 <= j < i ==> #[trigger] dst[j] == (if add {
                wrap16(old(dst)[j] + col[j])
            } else {
                wrap16(old(dst)[j] - col[j])
            }),
            forall|j: int| i <= j < HIDDEN ==> #[trigger] dst[j] == old(dst)[j],
        decreases HIDDEN - i,
    {
        proof {
            lemma_wrapping(dst[i as int], col[i as int]);
        }
        if add {
            dst[i] = dst[i].wrapping_add(col[i]);
        } else {
            dst[i] = dst[i].wrapping_sub(col[i]);
        }
        i = i + 1;
    }
}

/// The piece slot `k` (colour `k / 384`, kind `(k / 64) % 6`, square `k % 64`) is occupied.
pub open spec fn piece_present(pieces: [[u64; 6]; 2], k: int) -> bool {
    sq_in(pieces[k / 384][(k / 64) % 6], k % 64)
}

/// The input of piece slot `k` from `persp` in the given bucket and mirror.
pub open spec fn piece_feat(persp: Color, bucket: usize, mirror: bool, k: int) -> int {
    feature_spec(persp, bucket, mirror, color_of_index(k / 384), piece_of_index((k / 64) % 6), (k % 64) as u8)
}

/// Hidden value `i` summed over the occupied piece slots below `n`.
pub open spec fn pieces_value(
    net: InputLayer,
    pieces: [[u64; 6]; 2],
    persp: Color,
    bucket: usize,
    mirror: bool,
    i: int,
    n: nat,
) -> int
    decreases n,
{
    if n == 0 {
        0
    } else {
        pieces_value(net, pieces, persp, bucket, mirror, i, (n - 1) as nat) + if piece_present(pieces, n - 1) {
            net.l0w@[piece_feat(persp, bucket, mirror, n - 1)][i] as int
        } else {
            0
        }
    }
}

/// PSQT bucket `b` summed over the occupied piece slots below `n`.
pub open spec fn pieces_psqt(
    net: InputLayer,
    pieces: [[u64; 6]; 2],
    persp: Color,
    bucket: usize,
    mirror: bool,
    b: int,
    n: nat,
) -> int
    decreases n,
{
    if n == 0 {
        0
    } else {
        pieces_psqt(net, pieces, persp, bucket, mirror, b, (n - 1) as nat) + if piece_present(pieces, n - 1) {
            net.psqt@[piece_feat(persp, bucket, mirror, n - 1)][b] as int
        } else {
            0
        }
    }
}

proof fn lemma_psqt_bound(net: InputLayer, pieces: [[u64; 6]; 2], persp: Color, bucket: usize, mirror: bool, b: int, n: nat)
    ensures
        -32768 * n <= pieces_psqt(net, pieces, persp, bucket, mirror, b, n) <= 32768 * n,
    decreases n,
{
    if n > 0 {
        lemma_psqt_bound(net, pieces, persp, bucket, mirror, b, (n - 1) as nat);
    }
}

/// Slots `lo..hi` all empty: the sums do not move.
proof fn lemma_pieces_gap(
    net: InputLayer,
    pieces: [[u64; 6]; 2],
    persp: Color,
    bucket: usize,
    mirror: bool,
    lo: nat,
    hi: nat,
)
    requires
        lo <= hi,
        forall|k: int| lo <= k < hi ==> !#[trigger] piece_present(pieces, k),
    ensures
        forall|i: int| #[trigger] pieces_value(net, pieces, persp, bucket, mirror, i, hi) == pieces_value(
            net,
            pieces,
            persp,
            bucket,
            mirror,
            i,
            lo,
        ),
        forall|b: int| #[trigger] pieces_psqt(net, pieces, persp, bucket, mirror, b, hi) == pieces_psqt(
            net,
            pieces,
            persp,
            bucket,
            mirror,
            b,
            lo,
        ),
    decreases hi - lo,
{
    if lo < hi {
        let h1 = (hi - 1) as nat;
        lemma_pieces_gap(net, pieces, persp, bucket, mirror, lo, h1);
        assert(!piece_present(pieces, h1 as int));
        assert forall|i: int| #[trigger] pieces_value(net, pieces, persp, bucket, mirror, i, hi) == pieces_value(
            net,
            pieces,
            persp,
            bucket,
            mirror,
            i,
            lo,
        ) by {
            assert(pieces_value(net, pieces, persp, bucket, mirror, i, hi) == pieces_value(net, pieces, persp, bucket, mirror, i, h1));
        }
        assert forall|b: int| #[trigger] pieces_psqt(net, pieces, persp, bucket, mirror, b, hi) == pieces_psqt(
            net,
            pieces,
            persp,
            bucket,
            mirror,
            b,
            lo,
        ) by {
            assert(pieces_psqt(net, pieces, persp, bucket, mirror, b, hi) == pieces_psqt(net, pieces, persp, bucket, mirror, b, h1));
        }
    }
}

proof fn lemma_slot(c: int, t: int, s: int)
    requires
        0 <= c < 2,
        0 <= t < 6,
        0 <= s < 64,
    ensures
        (c * 384 + t * 64 + s) / 384 == c,
        ((c * 384 + t * 64 + s) / 64) % 6 == t,
        (c * 384 + t * 64 + s) % 64 == s,
{
    lemma_fundamental_div_mod_converse(c * 384 + t * 64 + s, 384, c, t * 64 + s);
    lemma_fundamental_div_mod_converse(c * 384 + t * 64 + s, 64, c * 6 + t, s);
    lemma_fundamental_div_mod_converse(c * 6 + t, 6, c, t);
}

proof fn lemma_xor_small(s: u8)
    requires
        s < 64,
    ensures
        s ^ 56u8 < 64,
        s ^ 7u8 < 64,
{
    assert(s ^ 56u8 < 64 && s ^ 7u8 < 64) by (bit_vector)
        requires
            s < 64,
    ;
}

proof fn lemma_feature_bound(persp: Color, bucket: usize, mirror: bool, c: Color, pt: PieceType, s: u8)
    requires
        s < 64,
        bucket < 32,
    ensures
        0 <= feature_spec(persp, bucket, mirror, c, pt, s) < NUM_PECAS,
{
    lemma_xor_small(s);
    lemma_xor_small(s ^ 56u8);
}

proof fn lemma_bucket_bound(persp: Color, king_sq: u8)
    requires
        king_sq < 64,
    ensures
        bucket_and_mirror_spec(persp, king_sq).0 < 32,
{
    lemma_xor_small(king_sq);
    let ks = if persp == Color::Black {
        king_sq ^ 56u8
    } else {
        king_sq
    };
    assert(ks < 64 && (ks % 8 >= 4 ==> (ks ^ 7u8) < 64 && (ks ^ 7u8) % 8 < 4)) by (bit_vector)
        requires
            ks < 64,
    ;
}

/// Every pawn stands on ranks 2 to 7, the only squares a pawn slot exists for.
pub open spec fn pawns_inside(peoes: [u64; 2]) -> bool {
    forall|s: int| #[trigger] sq_in(peoes[0] | peoes[1], s) ==> 8 <= s < 56
}

/// Pair slot `j` (squares `j / 64` below `j % 64`) holds two pawns that pair up.
pub open spec fn pair_present(peoes: [u64; 2], j: int) -> bool {
    let a = j / 64;
    let b = j % 64;
    &&& a < b
    &&& sq_in(peoes[0] | peoes[1], a)
    &&& sq_in(peoes[0] | peoes[1], b)
    &&& sq_in(pp_mask_spec(a as usize), b)
}

/// The input of pair slot `j` from `persp`.
pub open spec fn pair_feat(peoes: [u64; 2], persp: Color, j: int) -> int {
    let a = j / 64;
    let b = j % 64;
    let espelho: usize = if persp == Color::Black {
        56
    } else {
        0
    };
    let nossos = peoes[color_index(persp)];
    PAIR_BASE + par_indice_spec(
        peao_id_spec(a as usize, sq_in(nossos, a), espelho),
        peao_id_spec(b as usize, sq_in(nossos, b), espelho),
    )
}

/// Hidden value `i` summed over the pawn pairs in the slots below `n`.
pub open spec fn pairs_value(net: InputLayer, peoes: [u64; 2], persp: Color, i: int, n: nat) -> int
    decreases n,
{
    if n == 0 {
        0
    } else {
        pairs_value(net, peoes, persp, i, (n - 1) as nat) + if pair_present(peoes, n - 1) {
            net.l0w@[pair_feat(peoes, persp, n - 1)][i] as int
        } else {
            0
        }
    }
}

/// PSQT bucket `b` summed over the pawn pairs in the slots below `n`.
pub open spec fn pairs_psqt(net: InputLayer, peoes: [u64; 2], persp: Color, b: int, n: nat) -> int
    decreases n,
{
    if n == 0 {
        0
    } else {
        pairs_psqt(net, peoes, persp, b, (n - 1) as nat) + if pair_present(peoes, n - 1) {
            net.psqt@[pair_feat(peoes, persp, n - 1)][b] as int
        } else {
            0
        }
    }
}

proof fn lemma_pairs_psqt_bound(net: InputLayer, peoes: [u64; 2], persp: Color, b: int, n: nat)
    ensures
        -32768 * n <= pairs_psqt(net, peoes, persp, b, n) <= 32768 * n,
    decreases n,
{
    if n > 0 {
        lemma_pairs_psqt_bound(net, peoes, persp, b, (n - 1) as nat);
    }
}

/// Pair slots `lo..hi` all empty: the sums do not move.
proof fn lemma_pairs_gap(net: InputLayer, peoes: [u64; 2], persp: Color, lo: nat, hi: nat)
    requires
        lo <= hi,
        forall|j: int| lo <= j < hi ==> !#[trigger] pair_present(peoes, j),
    ensures
        forall|i: int| #[trigger] pairs_value(net, peoes, persp, i, hi) == pairs_value(net, peoes, persp, i, lo),
        forall|b: int| #[trigger] pairs_psqt(net, peoes, persp, b, hi) == pairs_psqt(net, peoes, persp, b, lo),
    decreases hi - lo,
{
    if lo < hi {
        let h1 = (hi - 1) as nat;
        lemma_pairs_gap(net, peoes, persp, lo, h1);
        assert(!pair_present(peoes, h1 as int));
        assert forall|i: int| #[trigger] pairs_value(net, peoes, persp, i, hi) == pairs_value(net, peoes, persp, i, lo) by {
            assert(pairs_value(net, peoes, persp, i, hi) == pairs_value(net, peoes, persp, i, h1));
        }
        assert forall|b: int| #[trigger] pairs_psqt(net, peoes, persp, b, hi) == pairs_psqt(net, peoes, persp, b, lo) by {
            assert(pairs_psqt(net, peoes, persp, b, hi) == pairs_psqt(net, peoes, persp, b, h1));
        }
    }
}

proof fn lemma_at_or_above(s: u8, t: u64)
    requires
        s < 64,
        t < 64,
    ensures
        1u64 << s >= 1,
        ((!(((1u64 << s) - 1) as u64)) >> t) & 1 == 1 <==> t >= s,
{
    assert(1u64 << s >= 1 && (((!(((1u64 << s) - 1) as u64)) >> t) & 1 == 1 <==> t >= s)) by (bit_vector)
        requires
            s < 64,
            t < 64,
    ;
}

proof fn lemma_pp_mask_self(sq: usize)
    requires
        sq < 64,
    ensures
        !sq_in(pp_mask_spec(sq), sq as int),
{
    let file = (sq % 8) as u64;
    let fa = 0x0101_0101_0101_0101u64;
    let mask = (fa << file) | (if file > 0 {
        fa << ((file - 1) as u64)
    } else {
        0
    }) | (if file < 7 {
        fa << ((file + 1) as u64)
    } else {
        0
    });
    let x = mask & !(0xFFu64 | (0xFFu64 << 56u64));
    let one = 1u64 << (sq as u64);
    assert(pp_mask_spec(sq) == x & !one);
    crate::bitboard::lemma_sq_in_and(x, !one, sq as int);
    crate::bitboard::lemma_sq_in_not(one, sq as int);
    crate::bitboard::lemma_sq_in_single(sq as u64, sq as int);
}

proof fn lemma_pawn_ids(a: usize, b: usize, espelho: usize, na: bool, nb: bool)
    requires
        8 <= a < 56,
        8 <= b < 56,
        a != b,
        espelho == 0 || espelho == 56,
    ensures
        0 <= peao_id_spec(a, na, espelho) < 96,
        0 <= peao_id_spec(b, nb, espelho) < 96,
        peao_id_spec(a, na, espelho) != peao_id_spec(b, nb, espelho),
{
    assert(8 <= (a ^ espelho) < 56 && 8 <= (b ^ espelho) < 56 && (a ^ espelho) != (b ^ espelho)) by (bit_vector)
        requires
            8 <= a < 56,
            8 <= b < 56,
            a != b,
            espelho == 0 || espelho == 56,
    ;
}

/// Adds every pawn pair on the board, from `persp`, into `valores` and `psqt`
/// (nothing when the network has no pair rows).
fn soma_pares(
    net: &InputLayer,
    peoes: &[u64; 2],
    persp: Color,
    valores: &mut [i16; HIDDEN],
    psqt: &mut [i32; OUT_BUCKETS],
)
    requires
        net.wf(),
        net.pairs ==> pawns_inside(*peoes),
        forall|b: int| 0 <= b < OUT_BUCKETS ==> -25165824 <= #[trigger] old(psqt)[b] <= 25165824,
    ensures
        forall|i: int| 0 <= i < HIDDEN ==> #[trigger] final(valores)[i] == if net.pairs {
            wrap16(old(valores)[i] + pairs_value(*net, *peoes, persp, i, 4096))
        } else {
            old(valores)[i] as int
        },
        forall|b: int| 0 <= b < OUT_BUCKETS ==> #[trigger] final(psqt)[b] == old(psqt)[b] + if net.pairs {
            pairs_psqt(*net, *peoes, persp, b, 4096)
        } else {
            0
        },
{
    if !net.pairs {
        return;
    }
    broadcast use crate::bitboard::group_bitboard;
    let espelho: usize = if persp == Color::Black {
        56
    } else {
        0
    };
    let nossos = peoes[persp.idx()];
    let todos = peoes[0] | peoes[1];
    let mut bb = todos;
    let ghost v0 = *valores;
    let ghost p0 = *psqt;
    let ghost mut next: nat = 0;
    proof {
        assert forall|i: int| 0 <= i < HIDDEN implies #[trigger] valores[i] == wrap16(v0[i] + pairs_value(*net, *peoes, persp, i, 0)) by {
            lemma_wrap16(v0[i] as int, 0);
        }
    }
    while bb != 0
        invariant
            net.wf(),
            net.pairs,
            pawns_inside(*peoes),
            todos == peoes[0] | peoes[1],
            espelho == (if persp == Color::Black { 56usize } else { 0usize }),
            nossos == peoes[color_index(persp)],
            next <= 64,
            forall|q: int| #[trigger] sq_in(bb, q) <==> (sq_in(todos, q) && q >= next),
            forall|b: int| 0 <= b < OUT_BUCKETS ==> -25165824 <= #[trigger] p0[b] <= 25165824,
            forall|i: int| 0 <= i < HIDDEN ==> #[trigger] valores[i] == wrap16(v0[i] + pairs_value(*net, *peoes, persp, i, next * 64)),
            forall|b: int| 0 <= b < OUT_BUCKETS ==> #[trigger] psqt[b] == p0[b] + pairs_psqt(*net, *peoes, persp, b, next * 64),
        decreases bb,
    {
        let ghost prev = bb;
        let sq = crate::bitboard::pop_lsb(&mut bb);
        proof {
            assert forall|j: int| next * 64 <= j < sq * 64 implies !#[trigger] pair_present(*peoes, j) by {
                assert(!sq_in(prev, j / 64));
            }
            lemma_pairs_gap(*net, *peoes, persp, next * 64, (sq * 64) as nat);
            lemma_at_or_above(sq, 0);
        }
        let pp = pp_mask_calc(sq as usize);
        let low = (1u64 << sq) - 1;
        let mut m = pp & todos & !low;
        let a_nosso = (nossos >> (sq as u64)) & 1 == 1;
        let id_a = peao_id(sq as usize, a_nosso, espelho);
        let ghost mut nb: nat = 0;
        proof {
            assert forall|q: int| #[trigger] sq_in(m, q) <==> (sq_in(pp, q) && sq_in(todos, q) && q >= sq && q >= nb) by {
                crate::bitboard::lemma_sq_in_and(pp & todos, !low, q);
                crate::bitboard::lemma_sq_in_and(pp, todos, q);
                if 0 <= q < 64 {
                    lemma_at_or_above(sq, q as u64);
                }
            }
        }
        while m != 0
            invariant
                net.wf(),
                net.pairs,
                pawns_inside(*peoes),
                todos == peoes[0] | peoes[1],
                espelho == (if persp == Color::Black { 56usize } else { 0usize }),
                nossos == peoes[color_index(persp)],
                sq < 64,
                sq_in(todos, sq as int),
                pp == pp_mask_spec(sq as usize),
                a_nosso == sq_in(nossos, sq as int),
                id_a == peao_id_spec(sq as usize, a_nosso, espelho),
                nb <= 64,
                forall|q: int| #[trigger] sq_in(m, q) <==> (sq_in(pp, q) && sq_in(todos, q) && q >= sq && q >= nb),
                forall|b: int| 0 <= b < OUT_BUCKETS ==> -25165824 <= #[trigger] p0[b] <= 25165824,
                forall|i: int| 0 <= i < HIDDEN ==> #[trigger] valores[i] == wrap16(v0[i] + pairs_value(*net, *peoes, persp, i, (sq * 64 + nb) as nat)),
                forall|b: int| 0 <= b < OUT_BUCKETS ==> #[trigger] psqt[b] == p0[b] + pairs_psqt(*net, *peoes, persp, b, (sq * 64 + nb) as nat),
            decreases m,
        {
            let ghost prev_m = m;
            let sq2 = crate::bitboard::pop_lsb(&mut m);
            let ghost base = (sq * 64) as nat;
            proof {
                assert forall|j: int| base + nb <= j < base + sq2 implies !#[trigger] pair_present(*peoes, j) by {
                    vstd::arithmetic::div_mod::lemma_fundamental_div_mod_converse(j, 64, sq as int, j - base);
                    assert(!sq_in(prev_m, j - base));
                }
                lemma_pairs_gap(*net, *peoes, persp, base + nb, (base + sq2) as nat);
                vstd::arithmetic::div_mod::lemma_fundamental_div_mod_converse(base + sq2, 64, sq as int, sq2 as int);
                lemma_pp_mask_self(sq as usize);
                assert(sq2 != sq);
                assert(pair_present(*peoes, base + sq2));
                lemma_pawn_ids(sq as usize, sq2 as usize, espelho, a_nosso, sq_in(nossos, sq2 as int));
            }
            let id_b = peao_id(sq2 as usize, (nossos >> (sq2 as u64)) & 1 == 1, espelho);
            let f = PAIR_BASE + par_indice(id_a, id_b);
            proof {
                assert(f == pair_feat(*peoes, persp, base + sq2));
            }
            apply(valores, &net.l0w[f], true);
            proof {
                assert forall|i: int| 0 <= i < HIDDEN implies #[trigger] valores[i] == wrap16(
                    v0[i] + pairs_value(*net, *peoes, persp, i, (base + sq2 + 1) as nat),
                ) by {
                    lemma_wrap16(v0[i] + pairs_value(*net, *peoes, persp, i, base + nb), net.l0w@[f as int][i] as int);
                    assert(pairs_value(*net, *peoes, persp, i, (base + sq2 + 1) as nat) == pairs_value(
                        *net,
                        *peoes,
                        persp,
                        i,
                        (base + sq2) as nat,
                    ) + net.l0w@[f as int][i]);
                }
            }
            let mut b: usize = 0;
            while b < OUT_BUCKETS
                invariant
                    net.wf(),
                    f < NUM_FEATURES,
                    b <= OUT_BUCKETS,
                    base + sq2 < 4096,
                    f == pair_feat(*peoes, persp, base + sq2),
                    pair_present(*peoes, base + sq2),
                    forall|j: int| 0 <= j < OUT_BUCKETS ==> -25165824 <= #[trigger] p0[j] <= 25165824,
                    forall|j: int| 0 <= j < b ==> #[trigger] psqt[j] == p0[j] + pairs_psqt(*net, *peoes, persp, j, (base + sq2 + 1) as nat),
                    forall|j: int| b <= j < OUT_BUCKETS ==> #[trigger] psqt[j] == p0[j] + pairs_psqt(*net, *peoes, persp, j, (base + sq2) as nat),
                decreases OUT_BUCKETS - b,
            {
                proof {
                    lemma_pairs_psqt_bound(*net, *peoes, persp, b as int, (base + sq2) as nat);
                }
                psqt[b] = psqt[b] + net.psqt[f][b] as i32;
                b = b + 1;
            }
            proof {
                nb = (sq2 + 1) as nat;
                assert forall|q: int| #[trigger] sq_in(m, q) <==> (sq_in(pp, q) && sq_in(todos, q) && q >= sq && q >= nb) by {
                    if q != sq2 {
                        assert(sq_in(m, q) <==> sq_in(prev_m, q));
                    }
                }
            }
        }
        proof {
            let base = (sq * 64) as nat;
            assert forall|j: int| base + nb <= j < base + 64 implies !#[trigger] pair_present(*peoes, j) by {
                vstd::arithmetic::div_mod::lemma_fundamental_div_mod_converse(j, 64, sq as int, j - base);
                crate::bitboard::lemma_sq_in_zero(j - base);
                assert(!sq_in(m, j - base));
                if sq_in(pp, j - base) && sq_in(todos, j - base) && j - base > sq {
                    assert(false);
                }
            }
            lemma_pairs_gap(*net, *peoes, persp, base + nb, base + 64);
            next = (sq + 1) as nat;
            assert forall|q: int| #[trigger] sq_in(bb, q) <==> (sq_in(todos, q) && q >= next) by {
                if q != sq {
                    assert(sq_in(bb, q) <==> sq_in(prev, q));
                }
            }
        }
    }
    proof {
        assert forall|j: int| next * 64 <= j < 4096 implies !#[trigger] pair_present(*peoes, j) by {
            crate::bitboard::lemma_sq_in_zero(j / 64);
            assert(!sq_in(bb, j / 64));
        }
        lemma_pairs_gap(*net, *peoes, persp, next * 64, 4096);
    }
}

/// The half holds, for the given bucket and mirror, the sums of the inputs of
/// every piece of `pieces` and, when the network uses them, of every pair of
/// the pawns `peoes` (which a move updates separately from the pieces).
pub open spec fn half_matches_with(
    h: Half,
    net: InputLayer,
    pieces: [[u64; 6]; 2],
    peoes: [u64; 2],
    persp: Color,
    bucket: usize,
    mirror: bool,
) -> bool {
    &&& h.bucket == bucket
    &&& h.mirror == mirror
    &&& forall|i: int|
        0 <= i < HIDDEN ==> #[trigger] h.values[i] == wrap16(
            pieces_value(net, pieces, persp, bucket, mirror, i, 768) + if net.pairs {
                pairs_value(net, peoes, persp, i, 4096)
            } else {
                0
            },
        )
    &&& forall|b: int|
        0 <= b < OUT_BUCKETS ==> #[trigger] h.psqt[b] == pieces_psqt(net, pieces, persp, bucket, mirror, b, 768)
            + if net.pairs {
            pairs_psqt(net, peoes, persp, b, 4096)
        } else {
            0
        }
}

/// The half holds, for the given bucket and mirror, the sums of the inputs of
/// every piece of `pieces` (and, when the network uses them, of every pawn pair).
pub open spec fn half_matches(h: Half, net: InputLayer, pieces: [[u64; 6]; 2], persp: Color, bucket: usize, mirror: bool) -> bool {
    half_matches_with(h, net, pieces, [pieces[0][0], pieces[1][0]], persp, bucket, mirror)
}

/// Adds the inputs of the pieces of colour `c`, kind `t` into `h`.
fn add_plane(h: &mut Half, net: &InputLayer, pieces: &[[Bitboard; 6]; 2], persp: Color, c: usize, t: usize)
    requires
        net.wf(),
        c < 2,
        t < 6,
        old(h).bucket < 32,
        forall|i: int| 0 <= i < HIDDEN ==> #[trigger] old(h).values[i] == wrap16(
            pieces_value(*net, *pieces, persp, old(h).bucket, old(h).mirror, i, (c * 384 + t * 64) as nat),
        ),
        forall|b: int| 0 <= b < OUT_BUCKETS ==> #[trigger] old(h).psqt[b] == pieces_psqt(
            *net,
            *pieces,
            persp,
            old(h).bucket,
            old(h).mirror,
            b,
            (c * 384 + t * 64) as nat,
        ),
    ensures
        final(h).bucket == old(h).bucket,
        final(h).mirror == old(h).mirror,
        forall|i: int| 0 <= i < HIDDEN ==> #[trigger] final(h).values[i] == wrap16(
            pieces_value(*net, *pieces, persp, old(h).bucket, old(h).mirror, i, (c * 384 + t * 64 + 64) as nat),
        ),
        forall|b: int| 0 <= b < OUT_BUCKETS ==> #[trigger] final(h).psqt[b] == pieces_psqt(
            *net,
            *pieces,
            persp,
            old(h).bucket,
            old(h).mirror,
            b,
            (c * 384 + t * 64 + 64) as nat,
        ),
{
    let ghost base = (c * 384 + t * 64) as nat;
    let ghost bucket = h.bucket;
    let ghost mirror = h.mirror;
    let plane = pieces[c][t];
    let mut bb = plane;
    let ghost mut next: nat = 0;
    while bb != 0
        invariant
            net.wf(),
            c < 2,
            t < 6,
            base == c * 384 + t * 64,
            plane == pieces[c as int][t as int],
            h.bucket == bucket,
            h.mirror == mirror,
            bucket < 32,
            next <= 64,
            forall|s: int| #[trigger] sq_in(bb, s) <==> (sq_in(plane, s) && s >= next),
            forall|i: int| 0 <= i < HIDDEN ==> #[trigger] h.values[i] == wrap16(
                pieces_value(*net, *pieces, persp, bucket, mirror, i, base + next),
            ),
            forall|b: int| 0 <= b < OUT_BUCKETS ==> #[trigger] h.psqt[b] == pieces_psqt(
                *net,
                *pieces,
                persp,
                bucket,
                mirror,
                b,
                base + next,
            ),
        decreases bb,
    {
        let ghost prev = bb;
        let s = crate::bitboard::pop_lsb(&mut bb);
        proof {
            assert forall|k: int| base + next <= k < base + s implies !#[trigger] piece_present(*pieces, k) by {
                lemma_slot(c as int, t as int, k - base);
                assert(!sq_in(prev, k - base));
            }
            lemma_pieces_gap(*net, *pieces, persp, bucket, mirror, base + next, (base + s) as nat);
            lemma_slot(c as int, t as int, s as int);
            assert(piece_present(*pieces, base + s));
        }
        let f = feature(persp, h.bucket, h.mirror, crate::fen::color_from_index(c), crate::fen::piece_from_index(t), s);
        proof {
            lemma_feature_bound(persp, bucket, mirror, color_of_index(c as int), piece_of_index(t as int), s);
            assert(f == piece_feat(persp, bucket, mirror, base + s));
        }
        let ghost before = h.values;
        apply(&mut h.values, &net.l0w[f], true);
        proof {
            assert forall|i: int| 0 <= i < HIDDEN implies #[trigger] h.values[i] == wrap16(
                pieces_value(*net, *pieces, persp, bucket, mirror, i, (base + s + 1) as nat),
            ) by {
                lemma_wrap16(pieces_value(*net, *pieces, persp, bucket, mirror, i, base + next), net.l0w@[f as int][i] as int);
                assert(pieces_value(*net, *pieces, persp, bucket, mirror, i, (base + s + 1) as nat) == pieces_value(
                    *net,
                    *pieces,
                    persp,
                    bucket,
                    mirror,
                    i,
                    (base + s) as nat,
                ) + net.l0w@[f as int][i]);
            }
        }
        let ghost vals = h.values;
        let mut b: usize = 0;
        while b < OUT_BUCKETS
            invariant
                net.wf(),
                f < NUM_FEATURES,
                b <= OUT_BUCKETS,
                h.values == vals,
                h.bucket == bucket,
                h.mirror == mirror,
                base + s < 768,
                f == piece_feat(persp, bucket, mirror, base + s),
                piece_present(*pieces, base + s),
                forall|j: int| 0 <= j < b ==> #[trigger] h.psqt[j] == pieces_psqt(
                    *net,
                    *pieces,
                    persp,
                    bucket,
                    mirror,
                    j,
                    (base + s + 1) as nat,
                ),
                forall|j: int| b <= j < OUT_BUCKETS ==> #[trigger] h.psqt[j] == pieces_psqt(
                    *net,
                    *pieces,
                    persp,
                    bucket,
                    mirror,
                    j,
                    (base + s) as nat,
                ),
            decreases OUT_BUCKETS - b,
        {
            proof {
                lemma_psqt_bound(*net, *pieces, persp, bucket, mirror, b as int, (base + s) as nat);
            }
            h.psqt[b] = h.psqt[b] + net.psqt[f][b] as i32;
            b = b + 1;
        }
        proof {
            next = (s + 1) as nat;
            assert forall|q: int| #[trigger] sq_in(bb, q) <==> (sq_in(plane, q) && q >= next) by {
                if q != s {
                    assert(sq_in(bb, q) <==> sq_in(prev, q));
                }
            }
        }
    }
    proof {
        assert forall|k: int| base + next <= k < base + 64 implies !#[trigger] piece_present(*pieces, k) by {
            lemma_slot(c as int, t as int, k - base);
            crate::bitboard::lemma_sq_in_zero(k - base);
        }
        lemma_pieces_gap(*net, *pieces, persp, bucket, mirror, base + next, base + 64);
    }
}


/// Builds one perspective from nothing: every piece, then every pawn pair.
pub fn rebuild_half(net: &InputLayer, pieces: &[[Bitboard; 6]; 2], king_sq: Square, perspective: Color) -> (h: Half)
    requires
        net.wf(),
        king_sq < 64,
        net.pairs ==> pawns_inside([pieces[0][0], pieces[1][0]]),
    ensures
        half_matches(
            h,
            *net,
            *pieces,
            perspective,
            bucket_and_mirror_spec(perspective, king_sq).0,
            bucket_and_mirror_spec(perspective, king_sq).1,
        ),
{
    let (bucket, mirror) = bucket_and_mirror(perspective, king_sq);
    proof {
        lemma_bucket_bound(perspective, king_sq);
        lemma_wrap16(0, 0);
    }
    let mut h = Half::empty();
    h.bucket = bucket;
    h.mirror = mirror;
    let mut c: usize = 0;
    while c < 2
        invariant
            net.wf(),
            c <= 2,
            h.bucket == bucket,
            h.mirror == mirror,
            bucket < 32,
            forall|i: int| 0 <= i < HIDDEN ==> #[trigger] h.values[i] == wrap16(
                pieces_value(*net, *pieces, perspective, bucket, mirror, i, (c * 384) as nat),
            ),
            forall|b: int| 0 <= b < OUT_BUCKETS ==> #[trigger] h.psqt[b] == pieces_psqt(
                *net,
                *pieces,
                perspective,
                bucket,
                mirror,
                b,
                (c * 384) as nat,
            ),
        decreases 2 - c,
    {
        let mut t: usize = 0;
        while t < 6
            invariant
                net.wf(),
                c < 2,
                t <= 6,
                h.bucket == bucket,
                h.mirror == mirror,
                bucket < 32,
                forall|i: int| 0 <= i < HIDDEN ==> #[trigger] h.values[i] == wrap16(
                    pieces_value(*net, *pieces, perspective, bucket, mirror, i, (c * 384 + t * 64) as nat),
                ),
                forall|b: int| 0 <= b < OUT_BUCKETS ==> #[trigger] h.psqt[b] == pieces_psqt(
                    *net,
                    *pieces,
                    perspective,
                    bucket,
                    mirror,
                    b,
                    (c * 384 + t * 64) as nat,
                ),
            decreases 6 - t,
        {
            add_plane(&mut h, net, pieces, perspective, c, t);
            t = t + 1;
        }
        c = c + 1;
    }
    let peoes = [pieces[0][0], pieces[1][0]];
    proof {
        assert forall|b: int| 0 <= b < OUT_BUCKETS implies -25165824 <= #[trigger] h.psqt[b] <= 25165824 by {
            lemma_psqt_bound(*net, *pieces, perspective, bucket, mirror, b, 768);
        }
    }
    let ghost before = h.values;
    soma_pares(net, &peoes, perspective, &mut h.values, &mut h.psqt);
    proof {
        assert(peoes == [pieces[0][0], pieces[1][0]]);
        assert forall|i: int| 0 <= i < HIDDEN implies #[trigger] h.values[i] == wrap16(
            pieces_value(*net, *pieces, perspective, bucket, mirror, i, 768) + if net.pairs {
                pairs_value(*net, [pieces[0][0], pieces[1][0]], perspective, i, 4096)
            } else {
                0
            },
        ) by {
            lemma_wrap16(
                pieces_value(*net, *pieces, perspective, bucket, mirror, i, 768),
                if net.pairs {
                    pairs_value(*net, peoes, perspective, i, 4096)
                } else {
                    0
                },
            );
        }
    }
    h
}

impl Accumulator {
    /// Builds both perspectives from nothing.
    pub fn fresh(net: &InputLayer, pieces: &[[Bitboard; 6]; 2], kings: [Square; 2]) -> (a: Self)
        requires
            net.wf(),
            kings[0] < 64,
            kings[1] < 64,
            net.pairs ==> pawns_inside([pieces[0][0], pieces[1][0]]),
        ensures
            forall|p: int|
                0 <= p < 2 ==> half_matches(
                    #[trigger] a.half[p],
                    *net,
                    *pieces,
                    color_of_index(p),
                    bucket_and_mirror_spec(color_of_index(p), kings[p]).0,
                    bucket_and_mirror_spec(color_of_index(p), kings[p]).1,
                ),
    {
        let w = rebuild_half(net, pieces, kings[0], Color::White);
        let b = rebuild_half(net, pieces, kings[1], Color::Black);
        Accumulator { half: [w, b] }
    }
}

/// `h1` is `h0` with the input of a piece of colour `c`, kind `pt` on `s`
/// added (or taken away), from `persp`, under `h0`'s bucket and mirror.
pub open spec fn toggled_half(h0: Half, h1: Half, net: InputLayer, persp: Color, c: Color, pt: PieceType, s: u8, add: bool) -> bool {
    let f = feature_spec(persp, h0.bucket, h0.mirror, c, pt, s);
    &&& h1.bucket == h0.bucket
    &&& h1.mirror == h0.mirror
    &&& forall|i: int| 0 <= i < HIDDEN ==> #[trigger] h1.values[i] == (if add {
        wrap16(h0.values[i] + net.l0w@[f][i])
    } else {
        wrap16(h0.values[i] - net.l0w@[f][i])
    })
    &&& forall|b: int| 0 <= b < OUT_BUCKETS ==> #[trigger] h1.psqt[b] == (if add {
        h0.psqt[b] + net.psqt@[f][b]
    } else {
        h0.psqt[b] - net.psqt@[f][b]
    })
}

/// Room in every PSQT total for one more input either way.
pub open spec fn psqt_headroom(a: Accumulator) -> bool {
    forall|p: int, b: int|
        0 <= p < 2 && 0 <= b < OUT_BUCKETS ==> -2147450880 <= #[trigger] a.half[p].psqt[b] <= 2147450879
}

impl Accumulator {
    /// A piece of colour `c`, kind `pt` appearing on (or leaving) `s`, for
    /// both perspectives, each under its own bucket and mirror.
    pub fn update(&mut self, net: &InputLayer, c: Color, pt: PieceType, s: Square, add: bool)
        requires
            net.wf(),
            s < 64,
            old(self).half[0].bucket < 32,
            old(self).half[1].bucket < 32,
            psqt_headroom(*old(self)),
        ensures
            forall|p: int|
                0 <= p < 2 ==> toggled_half(
                    old(self).half[p],
                    #[trigger] final(self).half[p],
                    *net,
                    color_of_index(p),
                    c,
                    pt,
                    s,
                    add,
                ),
    {
        let ghost before = *self;
        let mut p: usize = 0;
        while p < 2
            invariant
                net.wf(),
                s < 64,
                p <= 2,
                before.half[0].bucket < 32,
                before.half[1].bucket < 32,
                psqt_headroom(before),
                forall|q: int| p <= q < 2 ==> #[trigger] self.half[q] == before.half[q],
                forall|q: int|
                    0 <= q < p ==> toggled_half(
                        before.half[q],
                        #[trigger] self.half[q],
                        *net,
                        color_of_index(q),
                        c,
                        pt,
                        s,
                        add,
                    ),
            decreases 2 - p,
        {
            let persp = crate::fen::color_from_index(p);
            let mut h = self.half[p];
            let f = feature(persp, h.bucket, h.mirror, c, pt, s);
            proof {
                lemma_feature_bound(persp, h.bucket, h.mirror, c, pt, s);
            }
            apply(&mut h.values, &net.l0w[f], add);
            let ghost vals = h.values;
            let mut b: usize = 0;
            while b < OUT_BUCKETS
                invariant
                    net.wf(),
                    f < NUM_FEATURES,
                    b <= OUT_BUCKETS,
                    p < 2,
                    psqt_headroom(before),
                    h.values == vals,
                    h.bucket == before.half[p as int].bucket,
                    h.mirror == before.half[p as int].mirror,
                    forall|j: int| 0 <= j < b ==> #[trigger] h.psqt[j] == (if add {
                        before.half[p as int].psqt[j] + net.psqt@[f as int][j]
                    } else {
                        before.half[p as int].psqt[j] - net.psqt@[f as int][j]
                    }),
                    forall|j: int| b <= j < OUT_BUCKETS ==> #[trigger] h.psqt[j] == before.half[p as int].psqt[j],
                decreases OUT_BUCKETS - b,
            {
                proof {
                    assert(-2147450880 <= before.half[p as int].psqt[b as int] <= 2147450879);
                }
                if add {
                    h.psqt[b] = h.psqt[b] + net.psqt[f][b] as i32;
                } else {
                    h.psqt[b] = h.psqt[b] - net.psqt[f][b] as i32;
                }
                b = b + 1;
            }
            self.half[p] = h;
            p = p + 1;
        }
    }
}

/// A single piece of colour `c`, kind `pt` on `s` put on the board (`add`)
/// or taken off it, and nothing else.
pub open spec fn toggles(before: [[u64; 6]; 2], after: [[u64; 6]; 2], c: Color, pt: PieceType, s: u8, add: bool) -> bool {
    let ci = color_index(c);
    let pi = piece_index(pt);
    &&& s < 64
    &&& sq_in(before[ci][pi], s as int) != add
    &&& after[ci][pi] == before[ci][pi] ^ (1u64 << s)
    &&& forall|c2: int, t2: int|
        0 <= c2 < 2 && 0 <= t2 < 6 && !(c2 == ci && t2 == pi) ==> #[trigger] after[c2][t2] == before[c2][t2]
}

proof fn lemma_toggle_sums(
    net: InputLayer,
    before: [[u64; 6]; 2],
    after: [[u64; 6]; 2],
    persp: Color,
    bucket: usize,
    mirror: bool,
    k0: int,
    add: bool,
    n: nat,
)
    requires
        0 <= k0,
        !piece_present(before, k0) == add,
        piece_present(after, k0) == add,
        forall|k: int| 0 <= k < n && k != k0 ==> #[trigger] piece_present(after, k) == piece_present(before, k),
    ensures
        forall|i: int| #[trigger] pieces_value(net, after, persp, bucket, mirror, i, n) == pieces_value(
            net,
            before,
            persp,
            bucket,
            mirror,
            i,
            n,
        ) + if k0 < n {
            if add {
                net.l0w@[piece_feat(persp, bucket, mirror, k0)][i] as int
            } else {
                -net.l0w@[piece_feat(persp, bucket, mirror, k0)][i]
            }
        } else {
            0
        },
        forall|b: int| #[trigger] pieces_psqt(net, after, persp, bucket, mirror, b, n) == pieces_psqt(
            net,
            before,
            persp,
            bucket,
            mirror,
            b,
            n,
        ) + if k0 < n {
            if add {
                net.psqt@[piece_feat(persp, bucket, mirror, k0)][b] as int
            } else {
                -net.psqt@[piece_feat(persp, bucket, mirror, k0)][b]
            }
        } else {
            0
        },
    decreases n,
{
    if n > 0 {
        let n1 = (n - 1) as nat;
        lemma_toggle_sums(net, before, after, persp, bucket, mirror, k0, add, n1);
        assert forall|i: int| #[trigger] pieces_value(net, after, persp, bucket, mirror, i, n) == pieces_value(
            net,
            before,
            persp,
            bucket,
            mirror,
            i,
            n,
        ) + if k0 < n {
            if add {
                net.l0w@[piece_feat(persp, bucket, mirror, k0)][i] as int
            } else {
                -net.l0w@[piece_feat(persp, bucket, mirror, k0)][i]
            }
        } else {
            0
        } by {
            assert(pieces_value(net, after, persp, bucket, mirror, i, n) == pieces_value(net, after, persp, bucket, mirror, i, n1) + if piece_present(after, n1 as int) {
                net.l0w@[piece_feat(persp, bucket, mirror, n1 as int)][i] as int
            } else {
                0
            });
            assert(pieces_value(net, before, persp, bucket, mirror, i, n) == pieces_value(net, before, persp, bucket, mirror, i, n1) + if piece_present(before, n1 as int) {
                net.l0w@[piece_feat(persp, bucket, mirror, n1 as int)][i] as int
            } else {
                0
            });
        }
        assert forall|b: int| #[trigger] pieces_psqt(net, after, persp, bucket, mirror, b, n) == pieces_psqt(
            net,
            before,
            persp,
            bucket,
            mirror,
            b,
            n,
        ) + if k0 < n {
            if add {
                net.psqt@[piece_feat(persp, bucket, mirror, k0)][b] as int
            } else {
                -net.psqt@[piece_feat(persp, bucket, mirror, k0)][b]
            }
        } else {
            0
        } by {
            assert(pieces_psqt(net, after, persp, bucket, mirror, b, n) == pieces_psqt(net, after, persp, bucket, mirror, b, n1) + if piece_present(after, n1 as int) {
                net.psqt@[piece_feat(persp, bucket, mirror, n1 as int)][b] as int
            } else {
                0
            });
            assert(pieces_psqt(net, before, persp, bucket, mirror, b, n) == pieces_psqt(net, before, persp, bucket, mirror, b, n1) + if piece_present(before, n1 as int) {
                net.psqt@[piece_feat(persp, bucket, mirror, n1 as int)][b] as int
            } else {
                0
            });
        }
    }
}

/// The incremental path agrees with building from nothing: a half that
/// matches a placement, updated for one piece put on or taken off (other than
/// a pawn while the network uses pawn pairs), matches the new placement under
/// the same bucket and mirror, which is what `rebuild_half` gives for it.
pub proof fn lemma_update_matches_rebuild(
    h0: Half,
    h1: Half,
    net: InputLayer,
    before: [[u64; 6]; 2],
    after: [[u64; 6]; 2],
    persp: Color,
    c: Color,
    pt: PieceType,
    s: u8,
    add: bool,
)
    requires
        net.wf(),
        h0.bucket < 32,
        half_matches(h0, net, before, persp, h0.bucket, h0.mirror),
        toggles(before, after, c, pt, s, add),
        toggled_half(h0, h1, net, persp, c, pt, s, add),
        !net.pairs || pt != PieceType::Pawn,
    ensures
        half_matches(h1, net, after, persp, h0.bucket, h0.mirror),
{
    let ci = color_index(c);
    let pi = piece_index(pt);
    let k0 = ci * 384 + pi * 64 + s;
    let bucket = h0.bucket;
    let mirror = h0.mirror;
    lemma_slot(ci, pi, s as int);
    crate::bitboard::lemma_sq_in_xor(before[ci][pi], 1u64 << s, s as int);
    crate::bitboard::lemma_sq_in_single(s as u64, s as int);
    assert forall|k: int| 0 <= k < 768 && k != k0 implies #[trigger] piece_present(after, k) == piece_present(before, k) by {
        let kc = k / 384;
        let kt = (k / 64) % 6;
        let ks = k % 64;
        if kc == ci && kt == pi {
            assert(ks != s);
            crate::bitboard::lemma_sq_in_xor(before[ci][pi], 1u64 << s, ks);
            crate::bitboard::lemma_sq_in_single(s as u64, ks);
        }
    }
    lemma_toggle_sums(net, before, after, persp, bucket, mirror, k0, add, 768);
    lemma_feature_bound(persp, bucket, mirror, c, pt, s);
    assert(piece_feat(persp, bucket, mirror, k0) == feature_spec(persp, bucket, mirror, c, pt, s)) by {
        assert(color_of_index(ci) == c);
        assert(piece_of_index(pi) == pt);
    }
    if net.pairs {
        assert(after[0][0] == before[0][0]);
        assert(after[1][0] == before[1][0]);
    }
    let f = feature_spec(persp, bucket, mirror, c, pt, s);
    assert forall|i: int| 0 <= i < HIDDEN implies #[trigger] h1.values[i] == wrap16(
        pieces_value(net, after, persp, bucket, mirror, i, 768) + if net.pairs {
            pairs_value(net, [after[0][0], after[1][0]], persp, i, 4096)
        } else {
            0
        },
    ) by {
        let pr = if net.pairs {
            pairs_value(net, [before[0][0], before[1][0]], persp, i, 4096)
        } else {
            0
        };
        if net.pairs {
            assert([after[0][0], after[1][0]] == [before[0][0], before[1][0]]);
        }
        let x = pieces_value(net, before, persp, bucket, mirror, i, 768) + pr;
        if add {
            lemma_wrap16(x, net.l0w@[f][i] as int);
        } else {
            lemma_wrap16(x, -net.l0w@[f][i]);
        }
    }
    assert forall|b: int| 0 <= b < OUT_BUCKETS implies #[trigger] h1.psqt[b] == pieces_psqt(net, after, persp, bucket, mirror, b, 768)
        + if net.pairs {
        pairs_psqt(net, [after[0][0], after[1][0]], persp, b, 4096)
    } else {
        0
    } by {
        if net.pairs {
            assert([after[0][0], after[1][0]] == [before[0][0], before[1][0]]);
        }
    }
}


/// The entry holds the sums of the pieces of its own placement, from
/// `persp` under `bucket` and `mirror`.
spec fn entry_matches(e: CacheEntry, net: InputLayer, persp: Color, bucket: usize, mirror: bool) -> bool {
    &&& forall|i: int| 0 <= i < HIDDEN ==> #[trigger] e.values[i] == wrap16(
        pieces_value(net, e.pieces, persp, bucket, mirror, i, 768),
    )
    &&& forall|b: int| 0 <= b < OUT_BUCKETS ==> #[trigger] e.psqt[b] == pieces_psqt(
        net,
        e.pieces,
        persp,
        bucket,
        mirror,
        b,
        768,
    )
}

/// The entry at `k` (perspective `k / 64`, mirror `(k / 32) % 2`, bucket
/// `k % 32`), once used, matches its placement.
spec fn entry_ok(e: CacheEntry, net: InputLayer, k: int) -> bool {
    &&& e.used ==> entry_matches(e, net, color_of_index(k / 64), (k % 32) as usize, (k / 32) % 2 == 1)
    &&& !e.used ==> forall|c: int, t: int| 0 <= c < 2 && 0 <= t < 6 ==> #[trigger] e.pieces[c][t] == 0
}

/// Where the entry of a perspective, bucket and mirror sits.
pub open spec fn cache_slot(perspective: Color, bucket: usize, mirror: bool) -> int {
    (color_index(perspective) * 2 + if mirror {
        1int
    } else {
        0
    }) * 32 + bucket
}

/// Count of the piece slots below `n` occupied in one placement and not the other.
pub open spec fn slots_changed(a: [[u64; 6]; 2], b: [[u64; 6]; 2], n: nat) -> nat
    decreases n,
{
    if n == 0 {
        0
    } else {
        slots_changed(a, b, (n - 1) as nat) + if piece_present(a, n - 1) != piece_present(b, n - 1) {
            1nat
        } else {
            0
        }
    }
}

proof fn lemma_slots_changed_bound(a: [[u64; 6]; 2], b: [[u64; 6]; 2], n: nat)
    ensures
        slots_changed(a, b, n) <= n,
    decreases n,
{
    if n > 0 {
        lemma_slots_changed_bound(a, b, (n - 1) as nat);
    }
}

proof fn lemma_slots_changed_same(a: [[u64; 6]; 2], n: nat)
    ensures
        slots_changed(a, a, n) == 0,
    decreases n,
{
    if n > 0 {
        lemma_slots_changed_same(a, (n - 1) as nat);
    }
}

proof fn lemma_toggle_count(cur: [[u64; 6]; 2], next: [[u64; 6]; 2], target: [[u64; 6]; 2], k0: int, n: nat)
    requires
        0 <= k0,
        forall|k: int| 0 <= k < n && k != k0 ==> #[trigger] piece_present(next, k) == piece_present(cur, k),
        piece_present(next, k0) == piece_present(target, k0),
        piece_present(cur, k0) != piece_present(target, k0),
    ensures
        slots_changed(next, target, n) + (if k0 < n {
            1int
        } else {
            0
        }) == slots_changed(cur, target, n),
    decreases n,
{
    if n > 0 {
        lemma_toggle_count(cur, next, target, k0, (n - 1) as nat);
    }
}

/// The slots of a placement and of its toggle agree but at the toggled one.
proof fn lemma_toggle_slots(before: [[u64; 6]; 2], after: [[u64; 6]; 2], c: Color, pt: PieceType, s: u8, add: bool)
    requires
        toggles(before, after, c, pt, s, add),
    ensures
        ({
            let k0 = color_index(c) * 384 + piece_index(pt) * 64 + s;
            &&& piece_present(after, k0) == add
            &&& piece_present(before, k0) == !add
            &&& forall|k: int| 0 <= k < 768 && k != k0 ==> #[trigger] piece_present(after, k) == piece_present(before, k)
        }),
{
    let ci = color_index(c);
    let pi = piece_index(pt);
    let k0 = ci * 384 + pi * 64 + s;
    lemma_slot(ci, pi, s as int);
    crate::bitboard::lemma_sq_in_xor(before[ci][pi], 1u64 << s, s as int);
    crate::bitboard::lemma_sq_in_single(s as u64, s as int);
    assert forall|k: int| 0 <= k < 768 && k != k0 implies #[trigger] piece_present(after, k) == piece_present(before, k) by {
        let kc = k / 384;
        let kt = (k / 64) % 6;
        let ks = k % 64;
        if kc == ci && kt == pi {
            assert(ks != s);
            crate::bitboard::lemma_sq_in_xor(before[ci][pi], 1u64 << s, ks);
            crate::bitboard::lemma_sq_in_single(s as u64, ks);
        }
    }
}

/// Puts the piece of colour index `c`, kind index `t` on `sq` (or takes it
/// off) in a cache entry: placement and sums together.
fn toggle_entry(
    e: &mut CacheEntry,
    net: &InputLayer,
    persp: Color,
    bucket: usize,
    mirror: bool,
    c: usize,
    t: usize,
    sq: Square,
    add: bool,
)
    requires
        net.wf(),
        bucket < 32,
        c < 2,
        t < 6,
        sq < 64,
        sq_in(old(e).pieces[c as int][t as int], sq as int) != add,
        entry_matches(*old(e), *net, persp, bucket, mirror),
    ensures
        final(e).used == old(e).used,
        toggles(old(e).pieces, final(e).pieces, color_of_index(c as int), piece_of_index(t as int), sq, add),
        entry_matches(*final(e), *net, persp, bucket, mirror),
{
    let ghost before = e.pieces;
    let pc = crate::fen::color_from_index(c);
    let pt = crate::fen::piece_from_index(t);
    let f = feature(persp, bucket, mirror, pc, pt, sq);
    proof {
        lemma_feature_bound(persp, bucket, mirror, pc, pt, sq);
    }
    apply(&mut e.values, &net.l0w[f], add);
    let ghost vals = e.values;
    let mut b: usize = 0;
    while b < OUT_BUCKETS
        invariant
            net.wf(),
            f < NUM_FEATURES,
            b <= OUT_BUCKETS,
            e.values == vals,
            e.pieces == before,
            e.used == old(e).used,
            forall|j: int| 0 <= j < OUT_BUCKETS ==> #[trigger] old(e).psqt[j] == pieces_psqt(*net, before, persp, bucket, mirror, j, 768),
            forall|j: int| 0 <= j < b ==> #[trigger] e.psqt[j] == (if add {
                old(e).psqt[j] + net.psqt@[f as int][j]
            } else {
                old(e).psqt[j] - net.psqt@[f as int][j]
            }),
            forall|j: int| b <= j < OUT_BUCKETS ==> #[trigger] e.psqt[j] == old(e).psqt[j],
        decreases OUT_BUCKETS - b,
    {
        proof {
            lemma_psqt_bound(*net, before, persp, bucket, mirror, b as int, 768);
        }
        if add {
            e.psqt[b] = e.psqt[b] + net.psqt[f][b] as i32;
        } else {
            e.psqt[b] = e.psqt[b] - net.psqt[f][b] as i32;
        }
        b = b + 1;
    }
    let mut row = e.pieces[c];
    row[t] = row[t] ^ (1u64 << sq);
    e.pieces[c] = row;
    proof {
        let after = e.pieces;
        assert(toggles(before, after, pc, pt, sq, add));
        lemma_toggle_slots(before, after, pc, pt, sq, add);
        let k0 = c * 384 + t * 64 + sq;
        lemma_toggle_sums(*net, before, after, persp, bucket, mirror, k0, add, 768);
        assert(piece_feat(persp, bucket, mirror, k0) == f) by {
            lemma_slot(c as int, t as int, sq as int);
        }
        assert forall|i: int| 0 <= i < HIDDEN implies #[trigger] e.values[i] == wrap16(
            pieces_value(*net, after, persp, bucket, mirror, i, 768),
        ) by {
            if add {
                lemma_wrap16(pieces_value(*net, before, persp, bucket, mirror, i, 768), net.l0w@[f as int][i] as int);
            } else {
                lemma_wrap16(pieces_value(*net, before, persp, bucket, mirror, i, 768), -net.l0w@[f as int][i]);
            }
        }
    }
}


impl RefreshCache {
    /// Every used entry matches its placement under `net`.
    pub closed spec fn wf(&self, net: InputLayer) -> bool {
        &&& self.entries@.len() == 2 * 2 * INPUT_BUCKETS
        &&& forall|k: int| 0 <= k < 2 * 2 * INPUT_BUCKETS ==> entry_ok(#[trigger] self.entries@[k], net, k)
    }

    /// What the entry of a perspective, bucket and mirror was last brought up
    /// to; an empty board before its first use.
    pub closed spec fn placement(&self, perspective: Color, bucket: usize, mirror: bool) -> [[u64; 6]; 2] {
        self.entries@[cache_slot(perspective, bucket, mirror)].pieces
    }

    fn index(perspective: Color, bucket: usize, mirror: bool) -> (k: usize)
        requires
            bucket < 32,
        ensures
            k == cache_slot(perspective, bucket, mirror),
            k < 2 * 2 * INPUT_BUCKETS,
    {
        (perspective.idx() * 2 + if mirror {
            1
        } else {
            0
        }) * INPUT_BUCKETS + bucket
    }

    /// Brings one perspective up to date from what its entry last held, and
    /// copies the result into `dst`. Returns how many piece updates it took:
    /// the squares whose piece differs between the entry's placement and `pieces`.
    pub fn refresh(
        &mut self,
        net: &InputLayer,
        pieces: &[[Bitboard; 6]; 2],
        perspective: Color,
        bucket: usize,
        mirror: bool,
        dst: &mut Half,
    ) -> (touched: usize)
        requires
            net.wf(),
            old(self).wf(*net),
            bucket < 32,
        ensures
            final(self).wf(*net),
            touched == slots_changed(old(self).placement(perspective, bucket, mirror), *pieces, 768),
            final(self).placement(perspective, bucket, mirror) =~= *pieces,
            forall|p2: Color, b2: usize, m2: bool|
                b2 < 32 && cache_slot(p2, b2, m2) != cache_slot(perspective, bucket, mirror) ==> #[trigger] final(self).placement(p2, b2, m2) == old(self).placement(p2, b2, m2),
            final(dst).bucket == bucket,
            final(dst).mirror == mirror,
            forall|i: int| 0 <= i < HIDDEN ==> #[trigger] final(dst).values[i] == wrap16(
                pieces_value(*net, *pieces, perspective, bucket, mirror, i, 768),
            ),
            forall|b: int| 0 <= b < OUT_BUCKETS ==> #[trigger] final(dst).psqt[b] == pieces_psqt(
                *net,
                *pieces,
                perspective,
                bucket,
                mirror,
                b,
                768,
            ),
    {
        let idx = Self::index(perspective, bucket, mirror);
        proof {
            let k = idx as int;
            let pc = color_index(perspective);
            let m = if mirror { 1int } else { 0 };
            lemma_fundamental_div_mod_converse(k, 64, pc, m * 32 + bucket);
            lemma_fundamental_div_mod_converse(k, 32, pc * 2 + m, bucket as int);
            lemma_fundamental_div_mod_converse(pc * 2 + m, 2, pc, m);
            assert(color_of_index(k / 64) == perspective);
            assert(entry_ok(self.entries@[k], *net, k));
        }
        let mut e = self.entries[idx];
        if !e.used {
            e.values = [0i16; 1024];
            e.psqt = [0i32; 8];
            e.pieces = empty_planes();
            e.used = true;
            proof {
                assert forall|k: int| 0 <= k < 768 implies !#[trigger] piece_present(e.pieces, k) by {
                    crate::bitboard::lemma_sq_in_zero(k % 64);
                }
                lemma_pieces_gap(*net, e.pieces, perspective, bucket, mirror, 0, 768);
                lemma_wrap16(0, 0);
            }
        }
        let ghost start = e.pieces;
        proof {
            assert(start == old(self).placement(perspective, bucket, mirror)) by {
                if !old(self).entries@[idx as int].used {
                    assert(start =~= old(self).entries@[idx as int].pieces) by {
                        assert forall|c2: int| 0 <= c2 < 2 implies start[c2] =~= old(self).entries@[idx as int].pieces[c2] by {
                            assert forall|t2: int| 0 <= t2 < 6 implies start[c2][t2] == old(self).entries@[idx as int].pieces[c2][t2] by {
                                assert(old(self).entries@[idx as int].pieces[c2][t2] == 0);
                            }
                        }
                    }
                }
            }
            lemma_slots_changed_bound(start, *pieces, 768);
        }
        let mut touched: usize = 0;
        let mut c: usize = 0;
        while c < 2
            invariant
                net.wf(),
                bucket < 32,
                c <= 2,
                e.used,
                entry_matches(e, *net, perspective, bucket, mirror),
                forall|c2: int, t2: int|
                    0 <= c2 < 2 && 0 <= t2 < 6 ==> #[trigger] e.pieces[c2][t2] == if c2 < c {
                        pieces[c2][t2]
                    } else {
                        start[c2][t2]
                    },
                touched + slots_changed(e.pieces, *pieces, 768) == slots_changed(start, *pieces, 768),
                slots_changed(start, *pieces, 768) <= 768,
            decreases 2 - c,
        {
            let mut t: usize = 0;
            while t < 6
                invariant
                    net.wf(),
                    bucket < 32,
                    c < 2,
                    t <= 6,
                    e.used,
                    entry_matches(e, *net, perspective, bucket, mirror),
                    forall|c2: int, t2: int|
                        0 <= c2 < 2 && 0 <= t2 < 6 ==> #[trigger] e.pieces[c2][t2] == if c2 < c || (c2 == c && t2 < t) {
                            pieces[c2][t2]
                        } else {
                            start[c2][t2]
                        },
                    touched + slots_changed(e.pieces, *pieces, 768) == slots_changed(start, *pieces, 768),
                    slots_changed(start, *pieces, 768) <= 768,
                decreases 6 - t,
            {
                let now = pieces[c][t];
                let before = e.pieces[c][t];
                let mut gone = before & !now;
                proof {
                    assert forall|q: int| #[trigger] sq_in(e.pieces[c as int][t as int], q) <==> ((sq_in(now, q) && sq_in(before, q)) || sq_in(gone, q)) by {
                        crate::bitboard::lemma_sq_in_and(before, !now, q);
                        crate::bitboard::lemma_sq_in_not(now, q);
                    }
                    assert forall|q: int| #[trigger] sq_in(gone, q) implies sq_in(before, q) && !sq_in(now, q) by {
                        crate::bitboard::lemma_sq_in_and(before, !now, q);
                        crate::bitboard::lemma_sq_in_not(now, q);
                    }
                }
                while gone != 0
                    invariant
                        net.wf(),
                        bucket < 32,
                        c < 2,
                        t < 6,
                        e.used,
                        now == pieces[c as int][t as int],
                        entry_matches(e, *net, perspective, bucket, mirror),
                        forall|q: int| #[trigger] sq_in(gone, q) ==> sq_in(before, q) && !sq_in(now, q),
                        forall|q: int| #[trigger] sq_in(e.pieces[c as int][t as int], q) <==> ((sq_in(now, q) && sq_in(before, q)) || sq_in(gone, q)),
                        forall|c2: int, t2: int|
                            0 <= c2 < 2 && 0 <= t2 < 6 && !(c2 == c && t2 == t) ==> #[trigger] e.pieces[c2][t2] == if c2 < c || (c2 == c && t2 < t) {
                                pieces[c2][t2]
                            } else {
                                start[c2][t2]
                            },
                        touched + slots_changed(e.pieces, *pieces, 768) == slots_changed(start, *pieces, 768),
                        slots_changed(start, *pieces, 768) <= 768,
                    decreases gone,
                {
                    let ghost prev = gone;
                    let ghost cur = e.pieces;
                    let sq = crate::bitboard::pop_lsb(&mut gone);
                    toggle_entry(&mut e, net, perspective, bucket, mirror, c, t, sq, false);
                    proof {
                        let k0 = c * 384 + t * 64 + sq;
                        lemma_toggle_slots(cur, e.pieces, color_of_index(c as int), piece_of_index(t as int), sq, false);
                        lemma_slot(c as int, t as int, sq as int);
                        lemma_toggle_count(cur, e.pieces, *pieces, k0, 768);
                        lemma_slots_changed_bound(e.pieces, *pieces, 768);
                        assert forall|q: int| #[trigger] sq_in(e.pieces[c as int][t as int], q) <==> ((sq_in(now, q) && sq_in(before, q)) || sq_in(gone, q)) by {
                            crate::bitboard::lemma_sq_in_xor(cur[c as int][t as int], 1u64 << sq, q);
                            crate::bitboard::lemma_sq_in_single(sq as u64, q);
                            assert(sq_in(gone, q) <==> (sq_in(prev, q) && q != sq));
                        }
                    }
                    touched = touched + 1;
                }
                let mut arrived = now & !before;
                proof {
                    assert forall|q: int| #[trigger] sq_in(e.pieces[c as int][t as int], q) <==> (sq_in(now, q) && (sq_in(before, q) || !sq_in(arrived, q))) by {
                        crate::bitboard::lemma_sq_in_and(now, !before, q);
                        crate::bitboard::lemma_sq_in_not(before, q);
                        crate::bitboard::lemma_sq_in_zero(q);
                    }
                    assert forall|q: int| #[trigger] sq_in(arrived, q) implies sq_in(now, q) && !sq_in(before, q) by {
                        crate::bitboard::lemma_sq_in_and(now, !before, q);
                        crate::bitboard::lemma_sq_in_not(before, q);
                    }
                }
                while arrived != 0
                    invariant
                        net.wf(),
                        bucket < 32,
                        c < 2,
                        t < 6,
                        e.used,
                        now == pieces[c as int][t as int],
                        entry_matches(e, *net, perspective, bucket, mirror),
                        forall|q: int| #[trigger] sq_in(arrived, q) ==> sq_in(now, q) && !sq_in(before, q),
                        forall|q: int| #[trigger] sq_in(e.pieces[c as int][t as int], q) <==> (sq_in(now, q) && (sq_in(before, q) || !sq_in(arrived, q))),
                        forall|c2: int, t2: int|
                            0 <= c2 < 2 && 0 <= t2 < 6 && !(c2 == c && t2 == t) ==> #[trigger] e.pieces[c2][t2] == if c2 < c || (c2 == c && t2 < t) {
                                pieces[c2][t2]
                            } else {
                                start[c2][t2]
                            },
                        touched + slots_changed(e.pieces, *pieces, 768) == slots_changed(start, *pieces, 768),
                        slots_changed(start, *pieces, 768) <= 768,
                    decreases arrived,
                {
                    let ghost prev = arrived;
                    let ghost cur = e.pieces;
                    let sq = crate::bitboard::pop_lsb(&mut arrived);
                    toggle_entry(&mut e, net, perspective, bucket, mirror, c, t, sq, true);
                    proof {
                        let k0 = c * 384 + t * 64 + sq;
                        lemma_toggle_slots(cur, e.pieces, color_of_index(c as int), piece_of_index(t as int), sq, true);
                        lemma_slot(c as int, t as int, sq as int);
                        lemma_toggle_count(cur, e.pieces, *pieces, k0, 768);
                        lemma_slots_changed_bound(e.pieces, *pieces, 768);
                        assert forall|q: int| #[trigger] sq_in(e.pieces[c as int][t as int], q) <==> (sq_in(now, q) && (sq_in(before, q) || !sq_in(arrived, q))) by {
                            crate::bitboard::lemma_sq_in_xor(cur[c as int][t as int], 1u64 << sq, q);
                            crate::bitboard::lemma_sq_in_single(sq as u64, q);
                            assert(sq_in(arrived, q) <==> (sq_in(prev, q) && q != sq));
                        }
                    }
                    touched = touched + 1;
                }
                proof {
                    assert forall|q: int| 0 <= q < 64 implies sq_in(e.pieces[c as int][t as int], q) == sq_in(now, q) by {
                        crate::bitboard::lemma_sq_in_zero(q);
                    }
                    crate::bitboard::lemma_bits_equal(e.pieces[c as int][t as int], now);
                }
                t = t + 1;
            }
            c = c + 1;
        }
        proof {
            assert(e.pieces =~= *pieces) by {
                assert forall|c2: int| 0 <= c2 < 2 implies e.pieces[c2] =~= pieces[c2] by {
                    assert forall|t2: int| 0 <= t2 < 6 implies e.pieces[c2][t2] == pieces[c2][t2] by {
                        assert(e.pieces[c2][t2] == pieces[c2][t2]);
                    }
                }
            }
        }
        proof {
            lemma_slots_changed_same(*pieces, 768);
        }
        dst.values = e.values;
        dst.psqt = e.psqt;
        dst.bucket = bucket;
        dst.mirror = mirror;
        self.entries.set(idx, e);
        proof {
            assert forall|k: int| 0 <= k < 2 * 2 * INPUT_BUCKETS implies entry_ok(#[trigger] self.entries@[k], *net, k) by {
                if k != idx {
                    assert(self.entries@[k] == old(self).entries@[k]);
                    assert(entry_ok(old(self).entries@[k], *net, k));
                }
            }
        }
        touched
    }
}

/// After a refresh for the kings on `kings`, perspective `p` either kept its
/// bucket and mirror and was left alone, or matches the placement under the new ones.
pub open spec fn refreshed_half(h0: Half, h1: Half, net: InputLayer, pieces: [[u64; 6]; 2], p: int, king: u8) -> bool {
    let bm = bucket_and_mirror_spec(color_of_index(p), king);
    if stale(h0, p, king) {
        half_matches(h1, net, pieces, color_of_index(p), bm.0, bm.1)
    } else {
        h1 == h0
    }
}

/// Perspective `p`'s half was built under another bucket or mirror than its
/// king on `king` calls for.
pub open spec fn stale(h: Half, p: int, king: u8) -> bool {
    let bm = bucket_and_mirror_spec(color_of_index(p), king);
    !(h.bucket == bm.0 && h.mirror == bm.1)
}

impl Accumulator {
    /// Rebuilds each perspective whose king moved into another bucket or
    /// across the middle, through the refresh cache, and puts its pawn pairs
    /// back. Returns how many perspectives were rebuilt.
    pub fn refresh(&mut self, net: &InputLayer, pieces: &[[Bitboard; 6]; 2], kings: [Square; 2], cache: &mut RefreshCache) -> (done: u32)
        requires
            net.wf(),
            old(cache).wf(*net),
            kings[0] < 64,
            kings[1] < 64,
            net.pairs ==> pawns_inside([pieces[0][0], pieces[1][0]]),
        ensures
            final(cache).wf(*net),
            forall|p: int| 0 <= p < 2 ==> refreshed_half(old(self).half[p], #[trigger] final(self).half[p], *net, *pieces, p, kings[p]),
            done == (if stale(old(self).half[0], 0, kings[0]) {
                1u32
            } else {
                0u32
            }) + (if stale(old(self).half[1], 1, kings[1]) {
                1u32
            } else {
                0u32
            }),
    {
        let ghost start = *self;
        let mut done: u32 = 0;
        let peoes = [pieces[0][0], pieces[1][0]];
        let mut p: usize = 0;
        while p < 2
            invariant
                net.wf(),
                cache.wf(*net),
                p <= 2,
                kings[0] < 64,
                kings[1] < 64,
                peoes == [pieces[0][0], pieces[1][0]],
                net.pairs ==> pawns_inside(peoes),
                forall|q: int| p <= q < 2 ==> #[trigger] self.half[q] == start.half[q],
                forall|q: int| 0 <= q < p ==> refreshed_half(start.half[q], #[trigger] self.half[q], *net, *pieces, q, kings[q]),
                done == (if p >= 1 && stale(start.half[0], 0, kings[0]) {
                    1u32
                } else {
                    0u32
                }) + (if p >= 2 && stale(start.half[1], 1, kings[1]) {
                    1u32
                } else {
                    0u32
                }),
            decreases 2 - p,
        {
            let persp = crate::fen::color_from_index(p);
            let (bucket, mirror) = bucket_and_mirror(persp, kings[p]);
            proof {
                lemma_bucket_bound(persp, kings[p as int]);
            }
            let mut h = self.half[p];
            if !(h.bucket == bucket && h.mirror == mirror) {
                cache.refresh(net, pieces, persp, bucket, mirror, &mut h);
                proof {
                    assert forall|b: int| 0 <= b < OUT_BUCKETS implies -25165824 <= #[trigger] h.psqt[b] <= 25165824 by {
                        lemma_psqt_bound(*net, *pieces, persp, bucket, mirror, b, 768);
                    }
                }
                let ghost before = h.values;
                soma_pares(net, &peoes, persp, &mut h.values, &mut h.psqt);
                proof {
                    assert forall|i: int| 0 <= i < HIDDEN implies #[trigger] h.values[i] == wrap16(
                        pieces_value(*net, *pieces, persp, bucket, mirror, i, 768) + if net.pairs {
                            pairs_value(*net, [pieces[0][0], pieces[1][0]], persp, i, 4096)
                        } else {
                            0
                        },
                    ) by {
                        lemma_wrap16(
                            pieces_value(*net, *pieces, persp, bucket, mirror, i, 768),
                            if net.pairs {
                                pairs_value(*net, peoes, persp, i, 4096)
                            } else {
                                0
                            },
                        );
                    }
                }
                self.half[p] = h;
                done = done + 1;
            }
            p = p + 1;
        }
        done
    }
}

proof fn lemma_pp_mask_bits(a: u64, b: u64)
    by (bit_vector)
    requires
        a < 64,
        b < 64,
    ensures
        (((((0x0101_0101_0101_0101u64 << (a % 8)) | (if a % 8 > 0 {
            0x0101_0101_0101_0101u64 << ((a % 8 - 1) as u64)
        } else {
            0
        }) | (if a % 8 < 7 {
            0x0101_0101_0101_0101u64 << ((a % 8 + 1) as u64)
        } else {
            0
        })) & !(0xFFu64 | (0xFFu64 << 56u64)) & !(1u64 << a)) >> b) & 1 == 1) <==> (b != a && 8 <= b < 56 && a
            % 8 <= b % 8 + 1 && b % 8 <= a % 8 + 1),
{
}

/// The squares paired with `a`: on its file or one beside it, ranks 2 to 7, not `a`.
proof fn lemma_pp_mask(a: int, b: int)
    requires
        0 <= a < 64,
        0 <= b < 64,
    ensures
        sq_in(pp_mask_spec(a as usize), b) <==> (b != a && 8 <= b < 56 && a % 8 <= b % 8 + 1 && b % 8 <= a % 8 + 1),
{
    lemma_pp_mask_bits(a as u64, b as u64);
}


/// The pawn sets with the pawn of colour `cor` on `sq` toggled.
pub open spec fn pawn_toggled(peoes: [u64; 2], cor: Color, sq: u8) -> [u64; 2] {
    [
        peoes[0] ^ (if cor == Color::White {
            1u64 << sq
        } else {
            0u64
        }),
        peoes[1] ^ (if cor == Color::Black {
            1u64 << sq
        } else {
            0u64
        }),
    ]
}

/// Pair slot `j` contributes the same under both pawn sets.
pub open spec fn pair_quiet(now: [u64; 2], was: [u64; 2], persp: Color, j: int) -> bool {
    &&& pair_present(now, j) == pair_present(was, j)
    &&& pair_present(now, j) ==> pair_feat(now, persp, j) == pair_feat(was, persp, j)
}

proof fn lemma_pairs_delta_gap(net: InputLayer, now: [u64; 2], was: [u64; 2], persp: Color, lo: nat, hi: nat)
    requires
        lo <= hi,
        forall|j: int| lo <= j < hi ==> #[trigger] pair_quiet(now, was, persp, j),
    ensures
        forall|i: int| #[trigger] pairs_value(net, now, persp, i, hi) - pairs_value(net, was, persp, i, hi) == pairs_value(
            net,
            now,
            persp,
            i,
            lo,
        ) - pairs_value(net, was, persp, i, lo),
        forall|b: int| #[trigger] pairs_psqt(net, now, persp, b, hi) - pairs_psqt(net, was, persp, b, hi) == pairs_psqt(
            net,
            now,
            persp,
            b,
            lo,
        ) - pairs_psqt(net, was, persp, b, lo),
    decreases hi - lo,
{
    if lo < hi {
        let h1 = (hi - 1) as nat;
        lemma_pairs_delta_gap(net, now, was, persp, lo, h1);
        assert(pair_quiet(now, was, persp, h1 as int));
        assert forall|i: int| #[trigger] pairs_value(net, now, persp, i, hi) - pairs_value(net, was, persp, i, hi) == pairs_value(
            net,
            now,
            persp,
            i,
            lo,
        ) - pairs_value(net, was, persp, i, lo) by {
            assert(pairs_value(net, now, persp, i, hi) - pairs_value(net, was, persp, i, hi) == pairs_value(net, now, persp, i, h1)
                - pairs_value(net, was, persp, i, h1));
        }
        assert forall|b: int| #[trigger] pairs_psqt(net, now, persp, b, hi) - pairs_psqt(net, was, persp, b, hi) == pairs_psqt(
            net,
            now,
            persp,
            b,
            lo,
        ) - pairs_psqt(net, was, persp, b, lo) by {
            assert(pairs_psqt(net, now, persp, b, hi) - pairs_psqt(net, was, persp, b, hi) == pairs_psqt(net, now, persp, b, h1)
                - pairs_psqt(net, was, persp, b, h1));
        }
    }
}

/// What toggling one pawn on `sq` does to the pawn sets, square by square.
proof fn lemma_pawn_toggle_bits(now: [u64; 2], cor: Color, sq: u8, x: int)
    requires
        sq < 64,
    ensures
        ({
            let was = pawn_toggled(now, cor, sq);
            &&& x != sq ==> sq_in(was[0], x) == sq_in(now[0], x)
            &&& x != sq ==> sq_in(was[1], x) == sq_in(now[1], x)
            &&& x != sq ==> sq_in(was[0] | was[1], x) == sq_in(now[0] | now[1], x)
            &&& sq_in(was[color_index(cor)], sq as int) == !sq_in(now[color_index(cor)], sq as int)
            &&& sq_in(was[1 - color_index(cor)], sq as int) == sq_in(now[1 - color_index(cor)], sq as int)
        }),
{
    let was = pawn_toggled(now, cor, sq);
    crate::bitboard::lemma_sq_in_single(sq as u64, x);
    crate::bitboard::lemma_sq_in_single(sq as u64, sq as int);
    crate::bitboard::lemma_sq_in_zero(x);
    crate::bitboard::lemma_sq_in_zero(sq as int);
    crate::bitboard::lemma_sq_in_xor(now[0], if cor == Color::White { 1u64 << sq } else { 0u64 }, x);
    crate::bitboard::lemma_sq_in_xor(now[1], if cor == Color::Black { 1u64 << sq } else { 0u64 }, x);
    crate::bitboard::lemma_sq_in_xor(now[0], if cor == Color::White { 1u64 << sq } else { 0u64 }, sq as int);
    crate::bitboard::lemma_sq_in_xor(now[1], if cor == Color::Black { 1u64 << sq } else { 0u64 }, sq as int);
    crate::bitboard::lemma_sq_in_or(was[0], was[1], x);
    crate::bitboard::lemma_sq_in_or(now[0], now[1], x);
}

/// A pair slot whose pawns do not include `sq`, or whose other pawn is no
/// neighbour of `sq` on the board, contributes the same before and after.
proof fn lemma_pair_quiet(now: [u64; 2], cor: Color, sq: u8, persp: Color, j: int)
    requires
        8 <= sq < 56,
        0 <= j < 4096,
        pawns_inside(now),
        pawns_inside(pawn_toggled(now, cor, sq)),
        j / 64 == sq && j % 64 > sq ==> !sq_in(pp_mask_spec(sq as usize) & (now[0] | now[1]), j % 64),
        j % 64 == sq && j / 64 < sq ==> !sq_in(pp_mask_spec(sq as usize) & (now[0] | now[1]), j / 64),
    ensures
        pair_quiet(now, pawn_toggled(now, cor, sq), persp, j),
{
    let was = pawn_toggled(now, cor, sq);
    let a = j / 64;
    let b = j % 64;
    lemma_pawn_toggle_bits(now, cor, sq, a);
    lemma_pawn_toggle_bits(now, cor, sq, b);
    crate::bitboard::lemma_sq_in_and(pp_mask_spec(sq as usize), now[0] | now[1], b);
    crate::bitboard::lemma_sq_in_and(pp_mask_spec(sq as usize), now[0] | now[1], a);
    if a != sq && b != sq {
    } else if a == sq {
        assert(!pair_present(now, j));
        assert(!pair_present(was, j));
    } else {
        if pair_present(now, j) || pair_present(was, j) {
            assert(sq_in(now[0] | now[1], a));
            lemma_pp_mask(a, sq as int);
            lemma_pp_mask(sq as int, a);
            assert(false);
        }
    }
}

/// Perspective `persp`'s half after the pairs of one square moved: the pair
/// sums of `now` in place of those of `was`, when the network has pairs.
pub open spec fn pairs_moved(h0: Half, h1: Half, net: InputLayer, now: [u64; 2], was: [u64; 2], persp: Color) -> bool {
    &&& h1.bucket == h0.bucket
    &&& h1.mirror == h0.mirror
    &&& forall|i: int| 0 <= i < HIDDEN ==> #[trigger] h1.values[i] == if net.pairs {
        wrap16(h0.values[i] + pairs_value(net, now, persp, i, 4096) - pairs_value(net, was, persp, i, 4096))
    } else {
        h0.values[i] as int
    }
    &&& forall|b: int| 0 <= b < OUT_BUCKETS ==> #[trigger] h1.psqt[b] == h0.psqt[b] + if net.pairs {
        pairs_psqt(net, now, persp, b, 4096) - pairs_psqt(net, was, persp, b, 4096)
    } else {
        0
    }
}

/// Room in every PSQT total for the pairs of one square.
pub open spec fn pair_headroom(a: Accumulator) -> bool {
    forall|p: int, b: int|
        0 <= p < 2 && 0 <= b < OUT_BUCKETS ==> -2145386496 <= #[trigger] a.half[p].psqt[b] <= 2145386495
}


/// The slot of the pair made of `sq` and another square `x`.
pub open spec fn pair_slot(sq: int, x: int) -> int {
    if x < sq {
        x * 64 + sq
    } else {
        sq * 64 + x
    }
}

proof fn lemma_pair_slot(sq: int, x: int, y: int)
    requires
        0 <= sq < 64,
        0 <= x < 64,
        0 <= y < 64,
        x != sq,
        y != sq,
    ensures
        x < y ==> pair_slot(sq, x) < pair_slot(sq, y),
        0 <= pair_slot(sq, x) < 4096,
        (pair_slot(sq, x) / 64 == sq && pair_slot(sq, x) % 64 == x) || (pair_slot(sq, x) / 64 == x && pair_slot(sq, x) % 64 == sq),
        pair_slot(sq, x) / 64 < pair_slot(sq, x) % 64,
{
    if x < sq {
        lemma_fundamental_div_mod_converse(x * 64 + sq, 64, x, sq);
    } else {
        lemma_fundamental_div_mod_converse(sq * 64 + x, 64, sq, x);
    }
}

/// One perspective's share of `Accumulator::pares_de_uma_casa`.
fn pares_half(h: &mut Half, net: &InputLayer, peoes: &[u64; 2], persp: Color, cor: Color, sq: Square, add: bool)
    requires
        net.wf(),
        net.pairs,
        8 <= sq < 56,
        pawns_inside(*peoes),
        sq_in(peoes[color_index(cor)], sq as int) == add,
        !sq_in(peoes[1 - color_index(cor)], sq as int),
        forall|b: int| 0 <= b < OUT_BUCKETS ==> -2145386496 <= #[trigger] old(h).psqt[b] <= 2145386495,
    ensures
        pairs_moved(*old(h), *final(h), *net, *peoes, pawn_toggled(*peoes, cor, sq), persp),
{
    let ghost now = *peoes;
    let ghost was = pawn_toggled(*peoes, cor, sq);
    let ghost h0 = *h;
    proof {
        assert forall|x: int| #[trigger] sq_in(was[0] | was[1], x) implies 8 <= x < 56 by {
            lemma_pawn_toggle_bits(now, cor, sq, x);
            crate::bitboard::lemma_sq_in_or(now[0], now[1], x);
            crate::bitboard::lemma_sq_in_or(was[0], was[1], x);
            if x != sq {
                assert(sq_in(now[0] | now[1], x));
            }
        }
        lemma_wrap16(0, 0);
        assert forall|i: int| 0 <= i < HIDDEN implies #[trigger] h.values[i] == wrap16(h0.values[i] + pairs_value(*net, now, persp, i, 0) - pairs_value(*net, was, persp, i, 0)) by {
            lemma_wrap16(h0.values[i] as int, 0);
        }
    }
    let todos = peoes[0] | peoes[1];
    let viz = pp_mask_calc(sq as usize) & todos;
    let espelho: usize = if persp == Color::Black {
        56
    } else {
        0
    };
    let nossos = peoes[persp.idx()];
    let id_a = peao_id(sq as usize, cor == persp, espelho);
    let mut m = viz;
    let ghost mut nq: nat = 0;
    let ghost mut jj: nat = 0;
    let ghost mut count: nat = 0;
    while m != 0
        invariant
            net.wf(),
            net.pairs,
            8 <= sq < 56,
            now == *peoes,
            was == pawn_toggled(now, cor, sq),
            pawns_inside(now),
            pawns_inside(was),
            sq_in(now[color_index(cor)], sq as int) == add,
            !sq_in(now[1 - color_index(cor)], sq as int),
            todos == now[0] | now[1],
            viz == pp_mask_spec(sq as usize) & todos,
            espelho == (if persp == Color::Black { 56usize } else { 0usize }),
            nossos == now[color_index(persp)],
            id_a == peao_id_spec(sq as usize, cor == persp, espelho),
            nq <= 64,
            jj <= 4096,
            count <= nq,
            forall|q: int| #[trigger] sq_in(m, q) <==> (sq_in(viz, q) && q >= nq),
            forall|x: int| 0 <= x < 64 && x != sq && x < nq ==> #[trigger] pair_slot(sq as int, x) < jj,
            forall|x: int| 0 <= x < 64 && x != sq && x >= nq ==> #[trigger] pair_slot(sq as int, x) >= jj,
            h.bucket == h0.bucket,
            h.mirror == h0.mirror,
            forall|b: int| 0 <= b < OUT_BUCKETS ==> -2145386496 <= #[trigger] h0.psqt[b] <= 2145386495,
            forall|b: int| 0 <= b < OUT_BUCKETS ==> -32768 * count <= #[trigger] h.psqt[b] - h0.psqt[b] <= 32768 * count,
            forall|i: int| 0 <= i < HIDDEN ==> #[trigger] h.values[i] == wrap16(h0.values[i] + pairs_value(*net, now, persp, i, jj) - pairs_value(*net, was, persp, i, jj)),
            forall|b: int| 0 <= b < OUT_BUCKETS ==> #[trigger] h.psqt[b] == h0.psqt[b] + pairs_psqt(*net, now, persp, b, jj) - pairs_psqt(*net, was, persp, b, jj),
        decreases m,
    {
        let ghost prev = m;
        let q = crate::bitboard::pop_lsb(&mut m);
        let ghost j0 = pair_slot(sq as int, q as int);
        proof {
            crate::bitboard::lemma_sq_in_and(pp_mask_spec(sq as usize), todos, q as int);
            lemma_pp_mask_self(sq as usize);
            assert(q != sq);
            lemma_pair_slot(sq as int, q as int, q as int);
            assert forall|j: int| jj <= j < j0 implies #[trigger] pair_quiet(now, was, persp, j) by {
                let a = j / 64;
                let b = j % 64;
                if a == sq && b > sq {
                    lemma_pair_slot(sq as int, b, q as int);
                    assert(pair_slot(sq as int, b) == j);
                    if b < nq {
                        assert(pair_slot(sq as int, b) < jj);
                    }
                    if b > q {
                        lemma_pair_slot(sq as int, q as int, b);
                    }
                    assert(!sq_in(prev, b));
                }
                if b == sq && a < sq {
                    lemma_pair_slot(sq as int, a, q as int);
                    assert(pair_slot(sq as int, a) == j);
                    if a < nq {
                        assert(pair_slot(sq as int, a) < jj);
                    }
                    if a > q {
                        lemma_pair_slot(sq as int, q as int, a);
                    }
                    assert(!sq_in(prev, a));
                }
                lemma_pair_quiet(now, cor, sq, persp, j);
            }
            lemma_pairs_delta_gap(*net, now, was, persp, jj, j0 as nat);
            lemma_pawn_toggle_bits(now, cor, sq, q as int);
            lemma_pawn_toggle_bits(now, cor, sq, sq as int);
            crate::bitboard::lemma_sq_in_or(now[0], now[1], sq as int);
            crate::bitboard::lemma_sq_in_or(was[0], was[1], sq as int);
            crate::bitboard::lemma_sq_in_or(now[0], now[1], q as int);
            crate::bitboard::lemma_sq_in_or(was[0], was[1], q as int);
            lemma_pp_mask(sq as int, q as int);
            lemma_pp_mask(q as int, sq as int);
            assert(pair_present(now, j0) == add);
            assert(pair_present(was, j0) == !add);
            lemma_pawn_ids(sq as usize, q as usize, espelho, cor == persp, sq_in(nossos, q as int));
        }
        let id_b = peao_id(q as usize, (nossos >> (q as u64)) & 1 == 1, espelho);
        let f = PAIR_BASE + par_indice(id_a, id_b);
        proof {
            if add {
                assert(sq_in(now[color_index(persp)], sq as int) == (cor == persp));
                assert(f == pair_feat(now, persp, j0));
            } else {
                assert(sq_in(was[color_index(persp)], sq as int) == (cor == persp));
                assert(sq_in(was[color_index(persp)], q as int) == sq_in(nossos, q as int));
                assert(f == pair_feat(was, persp, j0));
            }
        }
        apply(&mut h.values, &net.l0w[f], add);
        proof {
            assert forall|i: int| 0 <= i < HIDDEN implies #[trigger] h.values[i] == wrap16(
                h0.values[i] + pairs_value(*net, now, persp, i, (j0 + 1) as nat) - pairs_value(*net, was, persp, i, (j0 + 1) as nat),
            ) by {
                let d = h0.values[i] + pairs_value(*net, now, persp, i, jj) - pairs_value(*net, was, persp, i, jj);
                assert(pairs_value(*net, now, persp, i, (j0 + 1) as nat) == pairs_value(*net, now, persp, i, j0 as nat) + if pair_present(now, j0) {
                    net.l0w@[pair_feat(now, persp, j0)][i] as int
                } else {
                    0
                });
                assert(pairs_value(*net, was, persp, i, (j0 + 1) as nat) == pairs_value(*net, was, persp, i, j0 as nat) + if pair_present(was, j0) {
                    net.l0w@[pair_feat(was, persp, j0)][i] as int
                } else {
                    0
                });
                if add {
                    lemma_wrap16(d, net.l0w@[f as int][i] as int);
                } else {
                    lemma_wrap16(d, -net.l0w@[f as int][i]);
                }
            }
        }
        let ghost vals = h.values;
        let mut b: usize = 0;
        while b < OUT_BUCKETS
            invariant
                net.wf(),
                f < NUM_FEATURES,
                b <= OUT_BUCKETS,
                h.values == vals,
                h.bucket == h0.bucket,
                h.mirror == h0.mirror,
                count <= 63,
                j0 < 4096,
                pair_present(now, j0) == add,
                pair_present(was, j0) == !add,
                add ==> f == pair_feat(now, persp, j0),
                !add ==> f == pair_feat(was, persp, j0),
                forall|k: int| 0 <= k < OUT_BUCKETS ==> -2145386496 <= #[trigger] h0.psqt[k] <= 2145386495,
                forall|k: int| 0 <= k < OUT_BUCKETS ==> -32768 * count <= #[trigger] (h.psqt[k] - h0.psqt[k]) <= 32768 * count
                    || k < b,
                forall|k: int| 0 <= k < b ==> #[trigger] h.psqt[k] == h0.psqt[k] + pairs_psqt(*net, now, persp, k, (j0 + 1) as nat) - pairs_psqt(*net, was, persp, k, (j0 + 1) as nat),
                forall|k: int| b <= k < OUT_BUCKETS ==> #[trigger] h.psqt[k] == h0.psqt[k] + pairs_psqt(*net, now, persp, k, j0 as nat) - pairs_psqt(*net, was, persp, k, j0 as nat),
                forall|k: int| 0 <= k < b ==> -32768 * (count + 1) <= #[trigger] (h.psqt[k] - h0.psqt[k]) <= 32768 * (count + 1),
            decreases OUT_BUCKETS - b,
        {
            proof {
                assert(-32768 * count <= h.psqt[b as int] - h0.psqt[b as int] <= 32768 * count);
                assert(pairs_psqt(*net, now, persp, b as int, (j0 + 1) as nat) == pairs_psqt(*net, now, persp, b as int, j0 as nat) + if pair_present(now, j0) {
                    net.psqt@[pair_feat(now, persp, j0)][b as int] as int
                } else {
                    0
                });
                assert(pairs_psqt(*net, was, persp, b as int, (j0 + 1) as nat) == pairs_psqt(*net, was, persp, b as int, j0 as nat) + if pair_present(was, j0) {
                    net.psqt@[pair_feat(was, persp, j0)][b as int] as int
                } else {
                    0
                });
            }
            if add {
                h.psqt[b] = h.psqt[b] + net.psqt[f][b] as i32;
            } else {
                h.psqt[b] = h.psqt[b] - net.psqt[f][b] as i32;
            }
            b = b + 1;
        }
        proof {
            assert forall|x: int| 0 <= x < 64 && x != sq && x < q + 1 implies #[trigger] pair_slot(sq as int, x) < j0 + 1 by {
                lemma_pair_slot(sq as int, x, q as int);
            }
            assert forall|x: int| 0 <= x < 64 && x != sq && x >= q + 1 implies #[trigger] pair_slot(sq as int, x) >= j0 + 1 by {
                lemma_pair_slot(sq as int, q as int, x);
            }
            assert forall|q2: int| #[trigger] sq_in(m, q2) <==> (sq_in(viz, q2) && q2 >= q + 1) by {
                if q2 != q {
                    assert(sq_in(m, q2) <==> sq_in(prev, q2));
                }
            }
            nq = (q + 1) as nat;
            jj = (j0 + 1) as nat;
            count = count + 1;
        }
    }
    proof {
        assert forall|j: int| jj <= j < 4096 implies #[trigger] pair_quiet(now, was, persp, j) by {
            let a = j / 64;
            let b = j % 64;
            crate::bitboard::lemma_sq_in_zero(a);
            crate::bitboard::lemma_sq_in_zero(b);
            if a == sq && b > sq {
                lemma_pair_slot(sq as int, b, b);
                if b < nq {
                    assert(pair_slot(sq as int, b) < jj);
                }
                assert(!sq_in(m, b));
            }
            if b == sq && a < sq {
                lemma_pair_slot(sq as int, a, a);
                if a < nq {
                    assert(pair_slot(sq as int, a) < jj);
                }
                assert(!sq_in(m, a));
            }
            lemma_pair_quiet(now, cor, sq, persp, j);
        }
        lemma_pairs_delta_gap(*net, now, was, persp, jj, 4096);
    }
}

impl Accumulator {
    /// The pawn pairs that involve one square, after a pawn of colour `cor`
    /// arrived on it (`add`) or left it, for both perspectives. `peoes` is
    /// the pawn sets after the move.
    pub fn pares_de_uma_casa(&mut self, net: &InputLayer, peoes: &[u64; 2], cor: Color, sq: Square, add: bool)
        requires
            net.wf(),
            8 <= sq < 56,
            pawns_inside(*peoes),
            sq_in(peoes[color_index(cor)], sq as int) == add,
            !sq_in(peoes[1 - color_index(cor)], sq as int),
            pair_headroom(*old(self)),
        ensures
            forall|p: int|
                0 <= p < 2 ==> pairs_moved(
                    old(self).half[p],
                    #[trigger] final(self).half[p],
                    *net,
                    *peoes,
                    pawn_toggled(*peoes, cor, sq),
                    color_of_index(p),
                ),
    {
        if !net.pairs {
            proof {
                assert forall|p: int| 0 <= p < 2 implies pairs_moved(
                    old(self).half[p],
                    #[trigger] self.half[p],
                    *net,
                    *peoes,
                    pawn_toggled(*peoes, cor, sq),
                    color_of_index(p),
                ) by {}
            }
            return;
        }
        let ghost start = *self;
        let mut p: usize = 0;
        while p < 2
            invariant
                net.wf(),
                net.pairs,
                8 <= sq < 56,
                pawns_inside(*peoes),
                sq_in(peoes[color_index(cor)], sq as int) == add,
                !sq_in(peoes[1 - color_index(cor)], sq as int),
                pair_headroom(start),
                p <= 2,
                forall|q: int| p <= q < 2 ==> #[trigger] self.half[q] == start.half[q],
                forall|q: int|
                    0 <= q < p ==> pairs_moved(
                        start.half[q],
                        #[trigger] self.half[q],
                        *net,
                        *peoes,
                        pawn_toggled(*peoes, cor, sq),
                        color_of_index(q),
                    ),
            decreases 2 - p,
        {
            let persp = crate::fen::color_from_index(p);
            let mut h = self.half[p];
            pares_half(&mut h, net, peoes, persp, cor, sq, add);
            self.half[p] = h;
            p = p + 1;
        }
    }
}

/// The incremental path agrees with building from nothing for pawns too: a
/// half that matches a placement, updated for one pawn put on or taken off
/// and then for the pawn pairs of its square, matches the new placement
/// under the same bucket and mirror, which is what `rebuild_half` gives for it.
pub proof fn lemma_pawn_update_matches_rebuild(
    h0: Half,
    h1: Half,
    h2: Half,
    net: InputLayer,
    before: [[u64; 6]; 2],
    after: [[u64; 6]; 2],
    persp: Color,
    c: Color,
    s: u8,
    add: bool,
)
    requires
        net.wf(),
        h0.bucket < 32,
        half_matches(h0, net, before, persp, h0.bucket, h0.mirror),
        toggles(before, after, c, PieceType::Pawn, s, add),
        toggled_half(h0, h1, net, persp, c, PieceType::Pawn, s, add),
        pairs_moved(h1, h2, net, [after[0][0], after[1][0]], pawn_toggled([after[0][0], after[1][0]], c, s), persp),
    ensures
        half_matches(h2, net, after, persp, h0.bucket, h0.mirror),
{
    let ci = color_index(c);
    let k0 = ci * 384 + s;
    let bucket = h0.bucket;
    let mirror = h0.mirror;
    let now = [after[0][0], after[1][0]];
    let was = pawn_toggled(now, c, s);
    let old_pawns = [before[0][0], before[1][0]];
    lemma_toggle_slots(before, after, c, PieceType::Pawn, s, add);
    lemma_toggle_sums(net, before, after, persp, bucket, mirror, k0, add, 768);
    lemma_feature_bound(persp, bucket, mirror, c, PieceType::Pawn, s);
    assert(piece_feat(persp, bucket, mirror, k0) == feature_spec(persp, bucket, mirror, c, PieceType::Pawn, s)) by {
        lemma_slot(ci, 0, s as int);
        assert(color_of_index(ci) == c);
    }
    assert(was =~= old_pawns) by {
        let m = 1u64 << s;
        let x = before[ci][0];
        let n0 = now[0];
        let n1 = now[1];
        assert(x ^ m ^ m == x) by (bit_vector);
        assert(n0 ^ 0u64 == n0 && n1 ^ 0u64 == n1) by (bit_vector);
        assert(after[1 - ci][0] == before[1 - ci][0]);
    }
    let f = feature_spec(persp, bucket, mirror, c, PieceType::Pawn, s);
    assert forall|i: int| 0 <= i < HIDDEN implies #[trigger] h2.values[i] == wrap16(
        pieces_value(net, after, persp, bucket, mirror, i, 768) + if net.pairs {
            pairs_value(net, now, persp, i, 4096)
        } else {
            0
        },
    ) by {
        let pw = if net.pairs {
            pairs_value(net, was, persp, i, 4096)
        } else {
            0
        };
        let pn = if net.pairs {
            pairs_value(net, now, persp, i, 4096)
        } else {
            0
        };
        let x = pieces_value(net, before, persp, bucket, mirror, i, 768) + pw;
        let r = if add {
            net.l0w@[f][i] as int
        } else {
            -net.l0w@[f][i]
        };
        lemma_wrap16(x, r);
        lemma_wrap16(x + r, pn - pw);
        if !net.pairs {
            lemma_wrap16(x + r, 0);
        }
    }
}

/// How many of the first `n` changes of a batch put a piece on (`add`) or take one off.
pub open spec fn lote_count(lote: Seq<(PieceType, Color, Square, bool)>, add: bool, n: nat) -> nat
    decreases n,
{
    if n == 0 {
        0
    } else {
        lote_count(lote, add, (n - 1) as nat) + if lote[n - 1].3 == add {
            1nat
        } else {
            0
        }
    }
}

/// Hidden value `i` moved by the first `n` changes of a batch, from `persp`
/// under `bucket` and `mirror`.
pub open spec fn lote_value(
    net: InputLayer,
    lote: Seq<(PieceType, Color, Square, bool)>,
    persp: Color,
    bucket: usize,
    mirror: bool,
    i: int,
    n: nat,
) -> int
    decreases n,
{
    if n == 0 {
        0
    } else {
        let (pt, c, sq, add) = lote[n - 1];
        let w = net.l0w@[feature_spec(persp, bucket, mirror, c, pt, sq)][i] as int;
        lote_value(net, lote, persp, bucket, mirror, i, (n - 1) as nat) + if add {
            w
        } else {
            -w
        }
    }
}

/// PSQT bucket `b` moved by the first `n` changes of a batch.
pub open spec fn lote_psqt(
    net: InputLayer,
    lote: Seq<(PieceType, Color, Square, bool)>,
    persp: Color,
    bucket: usize,
    mirror: bool,
    b: int,
    n: nat,
) -> int
    decreases n,
{
    if n == 0 {
        0
    } else {
        let (pt, c, sq, add) = lote[n - 1];
        let w = net.psqt@[feature_spec(persp, bucket, mirror, c, pt, sq)][b] as int;
        lote_psqt(net, lote, persp, bucket, mirror, b, (n - 1) as nat) + if add {
            w
        } else {
            -w
        }
    }
}

proof fn lemma_lote_bounds(
    net: InputLayer,
    lote: Seq<(PieceType, Color, Square, bool)>,
    persp: Color,
    bucket: usize,
    mirror: bool,
    b: int,
    n: nat,
)
    requires
        n <= lote.len(),
    ensures
        -32768 * n <= lote_psqt(net, lote, persp, bucket, mirror, b, n) <= 32768 * n,
        lote_count(lote, true, n) + lote_count(lote, false, n) == n,
    decreases n,
{
    if n > 0 {
        lemma_lote_bounds(net, lote, persp, bucket, mirror, b, (n - 1) as nat);
    }
}

/// `h1` is `h0` with every change of the batch applied under `h0`'s bucket and mirror.
pub open spec fn lote_applied(h0: Half, h1: Half, net: InputLayer, lote: Seq<(PieceType, Color, Square, bool)>, persp: Color) -> bool {
    &&& h1.bucket == h0.bucket
    &&& h1.mirror == h0.mirror
    &&& forall|i: int| 0 <= i < HIDDEN ==> #[trigger] h1.values[i] == wrap16(
        h0.values[i] + lote_value(net, lote, persp, h0.bucket, h0.mirror, i, lote.len()),
    )
    &&& forall|b: int| 0 <= b < OUT_BUCKETS ==> #[trigger] h1.psqt[b] == h0.psqt[b] + lote_psqt(
        net,
        lote,
        persp,
        h0.bucket,
        h0.mirror,
        b,
        lote.len(),
    )
}

impl Accumulator {
    /// Several piece changes at once (at most four put on and four taken
    /// off), for both perspectives.
    pub fn update_lote(&mut self, net: &InputLayer, lote: &[(PieceType, Color, Square, bool)])
        requires
            net.wf(),
            old(self).half[0].bucket < 32,
            old(self).half[1].bucket < 32,
            forall|k: int| 0 <= k < lote@.len() ==> (#[trigger] lote@[k]).2 < 64,
            lote_count(lote@, true, lote@.len()) <= 4,
            lote_count(lote@, false, lote@.len()) <= 4,
            forall|p: int, b: int|
                0 <= p < 2 && 0 <= b < OUT_BUCKETS ==> -2147221504 <= #[trigger] old(self).half[p].psqt[b] <= 2147221503,
        ensures
            forall|p: int| 0 <= p < 2 ==> lote_applied(old(self).half[p], #[trigger] final(self).half[p], *net, lote@, color_of_index(p)),
    {
        let ghost start = *self;
        proof {
            lemma_lote_bounds(*net, lote@, Color::White, 0, false, 0, lote@.len());
            lemma_wrap16(0, 0);
        }
        let mut p: usize = 0;
        while p < 2
            invariant
                net.wf(),
                p <= 2,
                lote@.len() <= 8,
                start.half[0].bucket < 32,
                start.half[1].bucket < 32,
                forall|k: int| 0 <= k < lote@.len() ==> (#[trigger] lote@[k]).2 < 64,
                forall|q: int, b: int|
                    0 <= q < 2 && 0 <= b < OUT_BUCKETS ==> -2147221504 <= #[trigger] start.half[q].psqt[b] <= 2147221503,
                forall|q: int| p <= q < 2 ==> #[trigger] self.half[q] == start.half[q],
                forall|q: int| 0 <= q < p ==> lote_applied(start.half[q], #[trigger] self.half[q], *net, lote@, color_of_index(q)),
            decreases 2 - p,
        {
            let persp = crate::fen::color_from_index(p);
            let mut h = self.half[p];
            let ghost h0 = h;
            proof {
                assert forall|i: int| 0 <= i < HIDDEN implies #[trigger] h.values[i] == wrap16(
                    h0.values[i] + lote_value(*net, lote@, persp, h0.bucket, h0.mirror, i, 0),
                ) by {
                    lemma_wrap16(h0.values[i] as int, 0);
                }
            }
            let mut k: usize = 0;
            while k < lote.len()
                invariant
                    net.wf(),
                    k <= lote@.len(),
                    lote@.len() <= 8,
                    h0.bucket < 32,
                    h.bucket == h0.bucket,
                    h.mirror == h0.mirror,
                    forall|j: int| 0 <= j < lote@.len() ==> (#[trigger] lote@[j]).2 < 64,
                    forall|b: int| 0 <= b < OUT_BUCKETS ==> -2147221504 <= #[trigger] h0.psqt[b] <= 2147221503,
                    forall|i: int| 0 <= i < HIDDEN ==> #[trigger] h.values[i] == wrap16(
                        h0.values[i] + lote_value(*net, lote@, persp, h0.bucket, h0.mirror, i, k as nat),
                    ),
                    forall|b: int| 0 <= b < OUT_BUCKETS ==> #[trigger] h.psqt[b] == h0.psqt[b] + lote_psqt(
                        *net,
                        lote@,
                        persp,
                        h0.bucket,
                        h0.mirror,
                        b,
                        k as nat,
                    ),
                decreases lote@.len() - k,
            {
                let (pt, c, sq, add) = lote[k];
                let f = feature(persp, h.bucket, h.mirror, c, pt, sq);
                proof {
                    lemma_feature_bound(persp, h0.bucket, h0.mirror, c, pt, sq);
                }
                let ghost before = h.values;
                apply(&mut h.values, &net.l0w[f], add);
                proof {
                    assert forall|i: int| 0 <= i < HIDDEN implies #[trigger] h.values[i] == wrap16(
                        h0.values[i] + lote_value(*net, lote@, persp, h0.bucket, h0.mirror, i, (k + 1) as nat),
                    ) by {
                        let x = h0.values[i] + lote_value(*net, lote@, persp, h0.bucket, h0.mirror, i, k as nat);
                        if add {
                            lemma_wrap16(x, net.l0w@[f as int][i] as int);
                        } else {
                            lemma_wrap16(x, -net.l0w@[f as int][i]);
                        }
                    }
                }
                let ghost vals = h.values;
                let mut b: usize = 0;
                while b < OUT_BUCKETS
                    invariant
                        net.wf(),
                        f < NUM_FEATURES,
                        f == feature_spec(persp, h0.bucket, h0.mirror, c, pt, sq),
                        lote@[k as int] == (pt, c, sq, add),
                        k < lote@.len(),
                        lote@.len() <= 8,
                        b <= OUT_BUCKETS,
                        h.values == vals,
                        h.bucket == h0.bucket,
                        h.mirror == h0.mirror,
                        forall|j: int| 0 <= j < OUT_BUCKETS ==> -2147221504 <= #[trigger] h0.psqt[j] <= 2147221503,
                        forall|j: int| 0 <= j < b ==> #[trigger] h.psqt[j] == h0.psqt[j] + lote_psqt(
                            *net,
                            lote@,
                            persp,
                            h0.bucket,
                            h0.mirror,
                            j,
                            (k + 1) as nat,
                        ),
                        forall|j: int| b <= j < OUT_BUCKETS ==> #[trigger] h.psqt[j] == h0.psqt[j] + lote_psqt(
                            *net,
                            lote@,
                            persp,
                            h0.bucket,
                            h0.mirror,
                            j,
                            k as nat,
                        ),
                    decreases OUT_BUCKETS - b,
                {
                    proof {
                        lemma_lote_bounds(*net, lote@, persp, h0.bucket, h0.mirror, b as int, k as nat);
                    }
                    if add {
                        h.psqt[b] = h.psqt[b] + net.psqt[f][b] as i32;
                    } else {
                        h.psqt[b] = h.psqt[b] - net.psqt[f][b] as i32;
                    }
                    b = b + 1;
                }
                k = k + 1;
            }
            self.half[p] = h;
            p = p + 1;
        }
    }
}

/// Weights are stored multiplied by this, and the hidden layer is clipped to it.
pub const SCALE: i32 = 1024;

/// `v` clipped to `0..=SCALE`.
pub open spec fn clip(v: int) -> int {
    if v < 0 {
        0
    } else if v > SCALE {
        SCALE as int
    } else {
        v
    }
}

/// The sum over the first `n` lanes of the clipped activation times its weight.
pub open spec fn output_sum(acc: [i16; HIDDEN], w: Seq<i16>, n: nat) -> int
    decreases n,
{
    if n == 0 {
        0
    } else {
        output_sum(acc, w, (n - 1) as nat) + clip(acc[n - 1] as int) * w[n - 1]
    }
}

/// `sum of clamp(acc[i], 0, SCALE) * w[i]`, for sums that stay in an `i32`.
pub fn output(acc: &[i16; HIDDEN], w: &[i16]) -> (total: i32)
    requires
        w@.len() >= HIDDEN,
        forall|n: nat| n <= HIDDEN ==> i32::MIN <= #[trigger] output_sum(*acc, w@, n) <= i32::MAX,
    ensures
        total == output_sum(*acc, w@, HIDDEN as nat),
{
    let mut total: i32 = 0;
    let mut i: usize = 0;
    while i < HIDDEN
        invariant
            i <= HIDDEN,
            w@.len() >= HIDDEN,
            forall|n: nat| n <= HIDDEN ==> i32::MIN <= #[trigger] output_sum(*acc, w@, n) <= i32::MAX,
            total == output_sum(*acc, w@, i as nat),
        decreases HIDDEN - i,
    {
        let a = acc[i] as i32;
        let c = if a < 0 {
            0
        } else if a > SCALE {
            SCALE
        } else {
            a
        };
        proof {
            assert(output_sum(*acc, w@, (i + 1) as nat) == output_sum(*acc, w@, i as nat) + clip(acc[i as int] as int) * w@[i as int]);
            assert(i32::MIN <= output_sum(*acc, w@, (i + 1) as nat) <= i32::MAX);
            assert(-1024 * 32768 <= c * w@[i as int] <= 1024 * 32768) by (nonlinear_arith)
                requires
                    0 <= c <= 1024,
                    -32768 <= w@[i as int] <= 32767,
            ;
        }
        total = total + c * w[i] as i32;
        i = i + 1;
    }
    total
}

/// Some weight of a pawn-pair row is not zero: the network uses the pairs.
/// A network from before the pairs has that block all zero.
pub fn tem_pares(l0w: &Vec<[i16; HIDDEN]>) -> (r: bool)
    requires
        l0w@.len() == NUM_FEATURES,
    ensures
        r == exists|k: int, i: int| PAIR_BASE <= k < NUM_FEATURES && 0 <= i < HIDDEN && #[trigger] l0w@[k][i] != 0,
{
    let mut k: usize = PAIR_BASE;
    while k < NUM_FEATURES
        invariant
            PAIR_BASE <= k <= NUM_FEATURES,
            l0w@.len() == NUM_FEATURES,
            forall|k2: int, i: int| PAIR_BASE <= k2 < k && 0 <= i < HIDDEN ==> #[trigger] l0w@[k2][i] == 0,
        decreases NUM_FEATURES - k,
    {
        let row = &l0w[k];
        let mut i: usize = 0;
        while i < HIDDEN
            invariant
                i <= HIDDEN,
                PAIR_BASE <= k < NUM_FEATURES,
                l0w@.len() == NUM_FEATURES,
                *row == l0w@[k as int],
                forall|k2: int, i2: int| PAIR_BASE <= k2 < k && 0 <= i2 < HIDDEN ==> #[trigger] l0w@[k2][i2] == 0,
                forall|i2: int| 0 <= i2 < i ==> #[trigger] l0w@[k as int][i2] == 0,
            decreases HIDDEN - i,
        {
            if row[i] != 0 {
                return true;
            }
            i = i + 1;
        }
        k = k + 1;
    }
    false
}

/// Each change of the batch takes one placement of the chain to the next.
pub open spec fn lote_chain(lote: Seq<(PieceType, Color, Square, bool)>, placements: Seq<[[u64; 6]; 2]>) -> bool {
    &&& placements.len() == lote.len() + 1
    &&& forall|k: int|
        0 <= k < lote.len() ==> toggles(
            #[trigger] placements[k],
            placements[k + 1],
            lote[k].1,
            lote[k].0,
            lote[k].2,
            lote[k].3,
        )
}

proof fn lemma_lote_sums(
    net: InputLayer,
    lote: Seq<(PieceType, Color, Square, bool)>,
    placements: Seq<[[u64; 6]; 2]>,
    persp: Color,
    bucket: usize,
    mirror: bool,
    n: nat,
)
    requires
        net.wf(),
        bucket < 32,
        lote_chain(lote, placements),
        n <= lote.len(),
    ensures
        forall|i: int| #[trigger] pieces_value(net, placements[n as int], persp, bucket, mirror, i, 768) == pieces_value(
            net,
            placements[0],
            persp,
            bucket,
            mirror,
            i,
            768,
        ) + lote_value(net, lote, persp, bucket, mirror, i, n),
        forall|b: int| #[trigger] pieces_psqt(net, placements[n as int], persp, bucket, mirror, b, 768) == pieces_psqt(
            net,
            placements[0],
            persp,
            bucket,
            mirror,
            b,
            768,
        ) + lote_psqt(net, lote, persp, bucket, mirror, b, n),
    decreases n,
{
    if n > 0 {
        let k = n - 1;
        lemma_lote_sums(net, lote, placements, persp, bucket, mirror, k as nat);
        let (pt, c, sq, add) = lote[k];
        let before = placements[k];
        let after = placements[k + 1];
        assert(toggles(before, after, c, pt, sq, add));
        lemma_toggle_slots(before, after, c, pt, sq, add);
        let k0 = color_index(c) * 384 + piece_index(pt) * 64 + sq;
        lemma_toggle_sums(net, before, after, persp, bucket, mirror, k0, add, 768);
        assert(piece_feat(persp, bucket, mirror, k0) == feature_spec(persp, bucket, mirror, c, pt, sq)) by {
            lemma_slot(color_index(c), piece_index(pt), sq as int);
        }
    }
}

/// A batch of changes agrees with building from nothing: a half that matches
/// a placement, updated for every change of a batch, matches the placement
/// the batch leads to, under the same bucket and mirror and with the same
/// pawn pairs (which `pares_de_uma_casa` brings up to date on its own).
pub proof fn lemma_lote_matches_rebuild(
    h0: Half,
    h1: Half,
    net: InputLayer,
    lote: Seq<(PieceType, Color, Square, bool)>,
    placements: Seq<[[u64; 6]; 2]>,
    peoes: [u64; 2],
    persp: Color,
)
    requires
        net.wf(),
        h0.bucket < 32,
        lote_chain(lote, placements),
        half_matches_with(h0, net, placements[0], peoes, persp, h0.bucket, h0.mirror),
        lote_applied(h0, h1, net, lote, persp),
    ensures
        half_matches_with(h1, net, placements[lote.len() as int], peoes, persp, h0.bucket, h0.mirror),
{
    let n = lote.len();
    lemma_lote_sums(net, lote, placements, persp, h0.bucket, h0.mirror, n);
    assert forall|i: int| 0 <= i < HIDDEN implies #[trigger] h1.values[i] == wrap16(
        pieces_value(net, placements[n as int], persp, h0.bucket, h0.mirror, i, 768) + if net.pairs {
            pairs_value(net, peoes, persp, i, 4096)
        } else {
            0
        },
    ) by {
        let pr = if net.pairs {
            pairs_value(net, peoes, persp, i, 4096)
        } else {
            0
        };
        lemma_wrap16(pieces_value(net, placements[0], persp, h0.bucket, h0.mirror, i, 768) + pr, lote_value(net, lote, persp, h0.bucket, h0.mirror, i, n));
    }
}

/// The pair step agrees with building from nothing: a half that matches a
/// placement with the pairs of the pawns `was`, after the pairs of one square
/// moved to those of `now`, matches it with the pairs of `now`.
pub proof fn lemma_pairs_match_rebuild(
    h0: Half,
    h1: Half,
    net: InputLayer,
    pieces: [[u64; 6]; 2],
    now: [u64; 2],
    was: [u64; 2],
    persp: Color,
)
    requires
        half_matches_with(h0, net, pieces, was, persp, h0.bucket, h0.mirror),
        pairs_moved(h0, h1, net, now, was, persp),
    ensures
        half_matches_with(h1, net, pieces, now, persp, h0.bucket, h0.mirror),
{
    assert forall|i: int| 0 <= i < HIDDEN implies #[trigger] h1.values[i] == wrap16(
        pieces_value(net, pieces, persp, h0.bucket, h0.mirror, i, 768) + if net.pairs {
            pairs_value(net, now, persp, i, 4096)
        } else {
            0
        },
    ) by {
        let pv = pieces_value(net, pieces, persp, h0.bucket, h0.mirror, i, 768);
        if net.pairs {
            lemma_wrap16(pv + pairs_value(net, was, persp, i, 4096), pairs_value(net, now, persp, i, 4096) - pairs_value(net, was, persp, i, 4096));
        }
    }
}

/// Lane `j`'s activation, clipped to `0..=SCALE`, written out.
pub open spec fn clipped_lane(acc: [i16; HIDDEN], j: int) -> int {
    let a = acc[j] as int;
    if a < 0 {
        0
    } else if a > 1024 {
        1024
    } else {
        a
    }
}

/// The output pairs each hidden lane with its own weight: with every weight
/// zero but `w[j]`, the output over the first `n` lanes is lane `j`'s clipped
/// activation times `w[j]` when `j < n`, and zero otherwise.
pub proof fn lemma_output_single_weight(acc: [i16; HIDDEN], w: Seq<i16>, j: int, n: nat)
    requires
        0 <= j < HIDDEN,
        n <= HIDDEN,
        w.len() >= HIDDEN,
        forall|i: int| 0 <= i < w.len() && i != j ==> w[i] == 0,
    ensures
        output_sum(acc, w, n) == if j < n {
            clipped_lane(acc, j) * w[j]
        } else {
            0
        },
    decreases n,
{
    if n > 0 {
        lemma_output_single_weight(acc, w, j, (n - 1) as nat);
        if n - 1 != j {
            assert(w[n - 1] == 0);
            assert(clip(acc[n - 1] as int) * w[n - 1] == 0) by (nonlinear_arith)
                requires
                    w[n - 1] == 0,
            ;
        }
    }
}

/// The output is additive in its weights: the output for `w1 + w2`, lane by
/// lane, is the sum of the outputs for `w1` and for `w2`.
pub proof fn lemma_output_additive(acc: [i16; HIDDEN], w1: Seq<i16>, w2: Seq<i16>, w: Seq<i16>, n: nat)
    requires
        n <= HIDDEN,
        w1.len() >= HIDDEN,
        w2.len() >= HIDDEN,
        w.len() >= HIDDEN,
        forall|i: int| 0 <= i < HIDDEN ==> #[trigger] w[i] == w1[i] + w2[i],
    ensures
        output_sum(acc, w, n) == output_sum(acc, w1, n) + output_sum(acc, w2, n),
    decreases n,
{
    if n > 0 {
        lemma_output_additive(acc, w1, w2, w, (n - 1) as nat);
        let c = clip(acc[n - 1] as int);
        assert(c * w[n - 1] == c * w1[n - 1] + c * w2[n - 1]) by (nonlinear_arith)
            requires
                w[n - 1] == w1[n - 1] + w2[n - 1],
        ;
    }
}

} // verus!
