//! The `sf256` network: a 256-wide accumulator over piece and full threat
//! inputs (each piece input also firing its factorised twin), and a
//! three-layer head bucketed eight ways by material, with a linear skip
//! channel from the first dense layer straight to the output.
use vstd::prelude::*;
use crate::features::{
    attack_maps_of, gather_pieces, gather_threats_full, piece_active, threat_active, Pos, PIECE_FEATURES,
    THREAT_FEATURES_FULL, TOTAL_INPUTS_V10,
};
use crate::nnue_sf::{active_upto, feat_sum, i16s_at, in_i32, lemma_feat_sum_multiset, lemma_same_as_active};
use crate::bitboard::{count, popcount};
use crate::board::Board;
use crate::evaluation::div_toward_zero;
use crate::features::compute_attack_maps_by_type;
use crate::types::color_index;

verus! {

pub const HL: usize = 256;
pub const NB: usize = 8;
pub const D1_REAL: usize = 32;
/// One more output than the activated ones: the skip channel.
pub const D1_TOTAL: usize = 33;
pub const D2: usize = 32;
pub const QA: i32 = 255;
pub const QB: i32 = 64;
/// The evaluation scale the network was trained at.
pub const ESCALA_TREINO: i32 = 410;
/// The factoriser: every piece input's twin, without the king bucket.
pub const FACTOR: usize = 704;
/// The trainer's input rows: the factoriser, one spare row, then the features.
pub const N_IN: usize = FACTOR + 1 + TOTAL_INPUTS_V10;
pub const OFF_MAIN: usize = FACTOR;

pub struct RedeSf256 {
    pub l0w: Vec<i16>,
    pub l0b: Vec<i16>,
    pub d1w: Vec<i16>,
    pub d1b: Vec<i16>,
    pub d2w: Vec<i16>,
    pub d2b: Vec<i16>,
    pub d3w: Vec<i16>,
    pub d3b: Vec<i16>,
}

/// Reads `n` little-endian `i16`s at `*off` and moves past them; `None`,
/// leaving `*off` alone, when the bytes run out.
pub fn le_i16(b: &[u8], off: &mut usize, n: usize) -> (r: Option<Vec<i16>>)
    requires
        *old(off) + 2 * n <= usize::MAX,
    ensures
        r is Some <==> *old(off) + 2 * n <= b@.len(),
        r matches Some(v) ==> v@ == i16s_at(b@, *old(off) as int, n as int) && *final(off) == *old(off) + 2 * n,
        r is None ==> *final(off) == *old(off),
{
    if *off + n * 2 > b.len() {
        return None;
    }
    let start = *off;
    let total = b.len();
    let mut v: Vec<i16> = Vec::new();
    let mut i: usize = 0;
    while i < n
        invariant
            i <= n,
            total == b@.len(),
            start + 2 * n <= b@.len(),
            v@ == i16s_at(b@, start as int, i as int),
        decreases n - i,
    {
        let p = start + i * 2;
        let x = #[verifier::truncate] (((b[p] as u16) | ((b[p + 1] as u16) << 8u16)) as i16);
        v.push(x);
        proof {
            assert(v@ =~= i16s_at(b@, start as int, i + 1));
        }
        i = i + 1;
    }
    *off = start + n * 2;
    Some(v)
}

/// Where each block of the stored network starts, in `i16`s, and how long it is.
pub open spec fn block_len(k: int) -> int {
    if k == 0 {
        (N_IN * HL) as int
    } else if k == 1 {
        HL as int
    } else if k == 2 {
        (2 * HL * D1_TOTAL * NB) as int
    } else if k == 3 {
        (D1_TOTAL * NB) as int
    } else if k == 4 {
        (D1_REAL * D2 * NB) as int
    } else if k == 5 {
        (D2 * NB) as int
    } else if k == 6 {
        (D2 * NB) as int
    } else {
        NB as int
    }
}

/// The `i16`s before block `k`.
pub open spec fn block_start(k: int) -> int
    decreases k,
{
    if k <= 0 {
        0
    } else {
        block_start(k - 1) + block_len(k - 1)
    }
}

/// The network a file holds: its eight blocks, one after the other.
pub open spec fn reads_as(b: Seq<u8>, net: RedeSf256) -> bool {
    &&& net.l0w@ == i16s_at(b, 2 * block_start(0), block_len(0))
    &&& net.l0b@ == i16s_at(b, 2 * block_start(1), block_len(1))
    &&& net.d1w@ == i16s_at(b, 2 * block_start(2), block_len(2))
    &&& net.d1b@ == i16s_at(b, 2 * block_start(3), block_len(3))
    &&& net.d2w@ == i16s_at(b, 2 * block_start(4), block_len(4))
    &&& net.d2b@ == i16s_at(b, 2 * block_start(5), block_len(5))
    &&& net.d3w@ == i16s_at(b, 2 * block_start(6), block_len(6))
    &&& net.d3b@ == i16s_at(b, 2 * block_start(7), block_len(7))
}

/// Reads a network; `None` when the file is shorter than its eight blocks.
/// What follows them is left unread.
pub fn carrega(b: &[u8]) -> (r: Option<RedeSf256>)
    ensures
        r is Some <==> 2 * block_start(8) <= b@.len(),
        r matches Some(net) ==> reads_as(b@, net),
{
    assert(block_start(1) == 8306944 && block_start(2) == 8307200 && block_start(3) == 8442368 && block_start(4)
        == 8442632 && block_start(5) == 8450824 && block_start(6) == 8451080 && block_start(7) == 8451336
        && block_start(8) == 8451344) by {
        reveal_with_fuel(block_start, 9);
    }
    let mut o = 0usize;
    let l0w = match le_i16(b, &mut o, N_IN * HL) {
        Some(v) => v,
        None => return None,
    };
    let l0b = match le_i16(b, &mut o, HL) {
        Some(v) => v,
        None => return None,
    };
    let d1w = match le_i16(b, &mut o, 2 * HL * D1_TOTAL * NB) {
        Some(v) => v,
        None => return None,
    };
    let d1b = match le_i16(b, &mut o, D1_TOTAL * NB) {
        Some(v) => v,
        None => return None,
    };
    let d2w = match le_i16(b, &mut o, D1_REAL * D2 * NB) {
        Some(v) => v,
        None => return None,
    };
    let d2b = match le_i16(b, &mut o, D2 * NB) {
        Some(v) => v,
        None => return None,
    };
    let d3w = match le_i16(b, &mut o, D2 * NB) {
        Some(v) => v,
        None => return None,
    };
    let d3b = match le_i16(b, &mut o, NB) {
        Some(v) => v,
        None => return None,
    };
    Some(RedeSf256 { l0w, l0b, d1w, d1b, d2w, d2b, d3w, d3b })
}

/// Clipped to `0..=QA` and squared.
pub open spec fn screlu_spec(x: int) -> int {
    let c = if x < 0 {
        0
    } else if x > QA {
        QA as int
    } else {
        x
    };
    c * c
}

pub fn screlu(x: i32) -> (r: i32)
    ensures
        r == screlu_spec(x as int),
        0 <= r <= 65025,
{
    let c = if x < 0 {
        0
    } else if x > QA {
        QA
    } else {
        x
    };
    assert(0 <= c * c <= 65025) by (nonlinear_arith)
        requires
            0 <= c <= 255,
    ;
    c * c
}

/// Every block has the size the network's shape gives it.
pub open spec fn net_dims(net: RedeSf256) -> bool {
    &&& net.l0w@.len() == N_IN * HL
    &&& net.l0b@.len() == HL
    &&& net.d1w@.len() == 2 * HL * D1_TOTAL * NB
    &&& net.d1b@.len() == D1_TOTAL * NB
    &&& net.d2w@.len() == D1_REAL * D2 * NB
    &&& net.d2b@.len() == D2 * NB
    &&& net.d3w@.len() == D2 * NB
    &&& net.d3b@.len() == NB
}

/// What a piece input adds to hidden unit `k`: its own row and its
/// factorised twin's.
pub open spec fn piece_share(net: RedeSf256, k: int) -> spec_fn(int) -> int {
    |f: int| net.l0w@[(OFF_MAIN + f) * HL + k] + net.l0w@[(f % FACTOR as int) * HL + k]
}

/// What a threat input adds to hidden unit `k`.
pub open spec fn threat_share(net: RedeSf256, k: int) -> spec_fn(int) -> int {
    |f: int| net.l0w@[(OFF_MAIN + PIECE_FEATURES + f) * HL + k] as int
}

/// The piece inputs of `pos` seen from `persp`.
pub open spec fn pieces_of(pos: Pos, persp: int) -> Seq<usize> {
    active_upto(|f: int| piece_active(pos, persp, f), PIECE_FEATURES as int)
}

/// The threat inputs of `pos` seen from `persp`.
pub open spec fn threats_of(pos: Pos, persp: int) -> Seq<usize> {
    active_upto(|f: int| threat_active(pos, persp, attack_maps_of(pos), f), THREAT_FEATURES_FULL as int)
}

/// Hidden unit `k` of the accumulator of `pos` seen from `persp`.
pub open spec fn acc_spec(net: RedeSf256, pos: Pos, persp: int, k: int) -> int {
    net.l0b@[k] + feat_sum(piece_share(net, k), pieces_of(pos, persp)) + feat_sum(threat_share(net, k), threats_of(pos, persp))
}

/// The accumulator of `pos` seen from `persp`: the bias, each piece input's
/// row and its factorised twin, each threat input's row.
fn acumula(net: &RedeSf256, pos: &Pos, attacked_by: &[[u64; 6]; 2], persp: usize) -> (acc: Vec<i32>)
    requires
        net_dims(*net),
        persp < 2,
        pos.pieces[persp as int][5] != 0,
        *attacked_by == attack_maps_of(*pos),
    ensures
        acc@.len() == HL,
        forall|k: int| 0 <= k < HL ==> #[trigger] acc@[k] == acc_spec(*net, *pos, persp as int, k),
{
    let mut acc: Vec<i32> = Vec::new();
    let mut k: usize = 0;
    while k < HL
        invariant
            k <= HL,
            net.l0b@.len() == HL,
            acc@.len() == k,
            forall|j: int| 0 <= j < k ==> #[trigger] acc@[j] == net.l0b@[j],
        decreases HL - k,
    {
        acc.push(net.l0b[k] as i32);
        k = k + 1;
    }
    let mut feats: Vec<usize> = Vec::new();
    gather_pieces(pos, persp, &mut feats);
    let mut threat_feats: Vec<usize> = Vec::new();
    gather_threats_full(pos, persp, attacked_by, &mut threat_feats);
    let ghost pa = |f: int| piece_active(*pos, persp as int, f);
    let ghost ta = |f: int| threat_active(*pos, persp as int, attack_maps_of(*pos), f);
    proof {
        assert(feats@.subrange(0, feats@.len() as int) =~= feats@);
        assert(threat_feats@.subrange(0, threat_feats@.len() as int) =~= threat_feats@);
        assert forall|x: usize| #[trigger] feats@.contains(x) <==> (x < PIECE_FEATURES && pa(x as int)) by {
            if feats@.contains(x) {
                crate::features::lemma_piece_active_bound(*pos, persp as int, x as int);
            }
        }
        assert forall|x: usize| #[trigger] threat_feats@.contains(x) <==> (x < THREAT_FEATURES_FULL && ta(x as int)) by {}
        lemma_same_as_active(feats@, pa, PIECE_FEATURES as int);
        lemma_same_as_active(threat_feats@, ta, THREAT_FEATURES_FULL as int);
        assert forall|j: int| 0 <= j < feats@.len() implies #[trigger] feats@[j] < PIECE_FEATURES by {
            assert(feats@.contains(feats@[j]));
        }
        assert forall|j: int| 0 <= j < threat_feats@.len() implies #[trigger] threat_feats@[j] < THREAT_FEATURES_FULL by {
            assert(threat_feats@.contains(threat_feats@[j]));
        }
    }
    let np = feats.len();
    let mut i: usize = 0;
    while i < np
        invariant
            net_dims(*net),
            np == feats@.len(),
            np <= PIECE_FEATURES,
            i <= np,
            acc@.len() == HL,
            forall|j: int| 0 <= j < feats@.len() ==> #[trigger] feats@[j] < PIECE_FEATURES,
            forall|j: int|
                0 <= j < HL ==> #[trigger] acc@[j] == net.l0b@[j] + feat_sum(piece_share(*net, j), feats@.take(i as int)),
            forall|j: int| 0 <= j < HL ==> -32768 * (1 + 2 * i) <= #[trigger] acc@[j] <= 32768 * (1 + 2 * i),
        decreases np - i,
    {
        let f = feats[i];
        let base = OFF_MAIN + f;
        let fact = f % FACTOR;
        let ghost before = acc@;
        let mut k: usize = 0;
        while k < HL
            invariant
                net_dims(*net),
                k <= HL,
                i < np,
                np <= PIECE_FEATURES,
                f < PIECE_FEATURES,
                base == OFF_MAIN + f,
                fact == f % FACTOR,
                acc@.len() == HL,
                before.len() == HL,
                forall|j: int| 0 <= j < HL ==> -32768 * (1 + 2 * i) <= #[trigger] before[j] <= 32768 * (1 + 2 * i),
                forall|j: int|
                    0 <= j < k ==> #[trigger] acc@[j] == before[j] + net.l0w@[base * HL + j] + net.l0w@[fact * HL + j],
                forall|j: int| k <= j < HL ==> #[trigger] acc@[j] == before[j],
            decreases HL - k,
        {
            let v = acc[k] + net.l0w[base * HL + k] as i32;
            let v2 = v + net.l0w[fact * HL + k] as i32;
            acc.set(k, v2);
            k = k + 1;
        }
        proof {
            assert(feats@.take(i + 1).drop_last() =~= feats@.take(i as int));
        }
        i = i + 1;
    }
    let nt = threat_feats.len();
    let mut i: usize = 0;
    while i < nt
        invariant
            net_dims(*net),
            np <= PIECE_FEATURES,
            nt == threat_feats@.len(),
            nt <= THREAT_FEATURES_FULL,
            i <= nt,
            acc@.len() == HL,
            forall|j: int| 0 <= j < threat_feats@.len() ==> #[trigger] threat_feats@[j] < THREAT_FEATURES_FULL,
            forall|j: int|
                0 <= j < HL ==> #[trigger] acc@[j] == net.l0b@[j] + feat_sum(piece_share(*net, j), feats@) + feat_sum(
                    threat_share(*net, j),
                    threat_feats@.take(i as int),
                ),
            forall|j: int| 0 <= j < HL ==> -32768 * (1 + 2 * np + i) <= #[trigger] acc@[j] <= 32768 * (1 + 2 * np + i),
        decreases nt - i,
    {
        let f = threat_feats[i];
        let base = OFF_MAIN + PIECE_FEATURES + f;
        let ghost before = acc@;
        let mut k: usize = 0;
        while k < HL
            invariant
                net_dims(*net),
                k <= HL,
                i < nt,
                np <= PIECE_FEATURES,
                nt <= THREAT_FEATURES_FULL,
                f < THREAT_FEATURES_FULL,
                base == OFF_MAIN + PIECE_FEATURES + f,
                acc@.len() == HL,
                before.len() == HL,
                forall|j: int| 0 <= j < HL ==> -32768 * (1 + 2 * np + i) <= #[trigger] before[j] <= 32768 * (1 + 2 * np + i),
                forall|j: int| 0 <= j < k ==> #[trigger] acc@[j] == before[j] + net.l0w@[base * HL + j],
                forall|j: int| k <= j < HL ==> #[trigger] acc@[j] == before[j],
            decreases HL - k,
        {
            let v = acc[k] + net.l0w[base * HL + k] as i32;
            acc.set(k, v);
            k = k + 1;
        }
        proof {
            assert(threat_feats@.take(i + 1).drop_last() =~= threat_feats@.take(i as int));
        }
        i = i + 1;
    }
    proof {
        assert(feats@.take(np as int) =~= feats@);
        assert(threat_feats@.take(nt as int) =~= threat_feats@);
        assert forall|k: int| 0 <= k < HL implies #[trigger] acc@[k] == acc_spec(*net, *pos, persp as int, k) by {
            lemma_feat_sum_multiset(piece_share(*net, k), feats@, pieces_of(*pos, persp as int));
            lemma_feat_sum_multiset(threat_share(*net, k), threat_feats@, threats_of(*pos, persp as int));
        }
    }
    acc
}

/// The output bucket for `n` pieces on the board: `(n - 2) / 4`, from 0 to the last.
pub open spec fn bucket_spec(n: int) -> int {
    if n < 2 {
        0
    } else if (n - 2) / 4 > NB - 1 {
        NB - 1
    } else {
        (n - 2) / 4
    }
}

/// The first layer's input: both accumulators activated, the side to
/// move's first.
pub open spec fn x_seq(net: RedeSf256, pos: Pos, us: int) -> Seq<i32> {
    Seq::new(
        (2 * HL) as nat,
        |i: int|
            (if i < HL {
                screlu_spec(acc_spec(net, pos, us, i))
            } else {
                screlu_spec(acc_spec(net, pos, 1 - us, i - HL))
            }) as i32,
    )
}

/// The first `n` entries of `c` times column `off` of `w` (rows `stride` apart).
pub open spec fn dot_col(c: Seq<i32>, w: Seq<i16>, off: int, stride: int, n: int) -> int
    decreases n,
{
    if n <= 0 {
        0
    } else {
        dot_col(c, w, off, stride, n - 1) + c[n - 1] * w[(n - 1) * stride + off]
    }
}

/// A dense output: the dot product over `QA` (toward zero, cut to 32 bits)
/// plus the bias of its column.
pub open spec fn dense(c: Seq<i32>, w: Seq<i16>, b: Seq<i16>, col: int, stride: int, n: int) -> int {
    (div_toward_zero(dot_col(c, w, col, stride, n), QA as int) as i32) as int + b[col] as int
}

/// Output `o` of the first layer, in `bucket`; output `D1_REAL` is the skip.
pub open spec fn v1(net: RedeSf256, pos: Pos, us: int, bucket: int, o: int) -> int {
    dense(x_seq(net, pos, us), net.d1w@, net.d1b@, bucket * D1_TOTAL + o, (D1_TOTAL * NB) as int, (2 * HL) as int)
}

/// The second layer's input.
pub open spec fn a1_seq(net: RedeSf256, pos: Pos, us: int, bucket: int) -> Seq<i32> {
    Seq::new(D1_REAL as nat, |o: int| screlu_spec(div_toward_zero(v1(net, pos, us, bucket, o), QB as int)) as i32)
}

/// Output `o` of the second layer.
pub open spec fn v2(net: RedeSf256, pos: Pos, us: int, bucket: int, o: int) -> int {
    dense(a1_seq(net, pos, us, bucket), net.d2w@, net.d2b@, bucket * D2 + o, (D2 * NB) as int, D1_REAL as int)
}

/// The third layer's input.
pub open spec fn a2_seq(net: RedeSf256, pos: Pos, us: int, bucket: int) -> Seq<i32> {
    Seq::new(D2 as nat, |o: int| screlu_spec(div_toward_zero(v2(net, pos, us, bucket, o), QB as int)) as i32)
}

/// The last layer's output.
pub open spec fn out_raw(net: RedeSf256, pos: Pos, us: int, bucket: int) -> int {
    dense(a2_seq(net, pos, us, bucket), net.d3w@, net.d3b@, bucket, NB as int, D2 as int)
}

/// The last layer's output and the skip, together.
pub open spec fn combined(net: RedeSf256, pos: Pos, us: int, bucket: int) -> int {
    out_raw(net, pos, us, bucket) + v1(net, pos, us, bucket, D1_REAL as int)
}

/// The score in centipawns: the combined output at the training scale.
pub open spec fn score_spec(net: RedeSf256, pos: Pos, us: int, bucket: int) -> int {
    div_toward_zero(combined(net, pos, us, bucket) * ESCALA_TREINO, (QA * QB) as int) as i32 as int
}

/// Every sum the head forms in 32 bits fits there.
pub open spec fn head_fits(net: RedeSf256, pos: Pos, us: int, bucket: int) -> bool {
    &&& forall|o: int| 0 <= o < D1_TOTAL ==> in_i32(#[trigger] v1(net, pos, us, bucket, o))
    &&& forall|o: int| 0 <= o < D2 ==> in_i32(#[trigger] v2(net, pos, us, bucket, o))
    &&& in_i32(out_raw(net, pos, us, bucket))
    &&& in_i32(combined(net, pos, us, bucket))
}

/// Column `off` of `w` (rows `stride` apart) against the first `n` entries of `c`.
pub fn dot_col_exec(c: &Vec<i32>, w: &Vec<i16>, off: usize, stride: usize, n: usize) -> (r: i64)
    requires
        n <= c@.len(),
        n <= 0x8000_0000,
        (n - 1) * stride + off < w@.len() || n == 0,
        off < stride,
        forall|i: int| 0 <= i < n ==> 0 <= #[trigger] c@[i] <= 65025,
    ensures
        r == dot_col(c@, w@, off as int, stride as int, n as int),
        -n * 2130739200 <= r <= n * 2130739200,
{
    let wl = w.len();
    let mut s: i64 = 0;
    let mut i: usize = 0;
    while i < n
        invariant
            wl == w@.len(),
            i <= n,
            n <= c@.len(),
            n <= 0x8000_0000,
            (n - 1) * stride + off < w@.len() || n == 0,
            off < stride,
            forall|j: int| 0 <= j < n ==> 0 <= #[trigger] c@[j] <= 65025,
            s == dot_col(c@, w@, off as int, stride as int, i as int),
            -i * 2130739200 <= s <= i * 2130739200,
        decreases n - i,
    {
        assert(i * stride + off <= (n - 1) * stride + off) by (nonlinear_arith)
            requires
                i <= n - 1,
        ;
        let a = c[i] as i64;
        let b = w[i * stride + off] as i64;
        assert(-2130739200 <= a * b <= 2130739200) by (nonlinear_arith)
            requires
                0 <= a <= 65025,
                -32768 <= b <= 32767,
        ;
        s = s + a * b;
        i = i + 1;
    }
    s
}

/// The network's score for the side to move, in centipawns.
pub fn evaluate(net: &RedeSf256, board: &Board) -> (r: i32)
    requires
        net_dims(*net),
        board.pieces[0][5] != 0,
        board.pieces[1][5] != 0,
        head_fits(
            *net,
            Pos { pieces: board.pieces },
            color_index(board.side),
            bucket_spec(popcount(board.occ_all) as int),
        ),
    ensures
        r == score_spec(
            *net,
            Pos { pieces: board.pieces },
            color_index(board.side),
            bucket_spec(popcount(board.occ_all) as int),
        ),
{
    match evaluate_checked(net, board) {
        Some(v) => v,
        None => 0,
    }
}

/// The score of `evaluate`, or `None` where a sum of the head does not fit
/// in 32 bits: what a network read at run time is evaluated with.
pub fn evaluate_checked(net: &RedeSf256, board: &Board) -> (r: Option<i32>)
    requires
        net_dims(*net),
        board.pieces[0][5] != 0,
        board.pieces[1][5] != 0,
    ensures
        r is Some <==> head_fits(
            *net,
            Pos { pieces: board.pieces },
            color_index(board.side),
            bucket_spec(popcount(board.occ_all) as int),
        ),
        r matches Some(v) ==> v == score_spec(
            *net,
            Pos { pieces: board.pieces },
            color_index(board.side),
            bucket_spec(popcount(board.occ_all) as int),
        ),
{
    let pos = Pos { pieces: board.pieces };
    let attacked_by = compute_attack_maps_by_type(&pos);
    let acc0 = acumula(net, &pos, &attacked_by, 0);
    let acc1 = acumula(net, &pos, &attacked_by, 1);
    let stm = board.side.idx();
    let ghost us = stm as int;
    let mut x: Vec<i32> = Vec::new();
    let mut k: usize = 0;
    while k < 2 * HL
        invariant
            k <= 2 * HL,
            stm < 2,
            us == stm,
            acc0@.len() == HL,
            acc1@.len() == HL,
            forall|j: int| 0 <= j < HL ==> #[trigger] acc0@[j] == acc_spec(*net, pos, 0, j),
            forall|j: int| 0 <= j < HL ==> #[trigger] acc1@[j] == acc_spec(*net, pos, 1, j),
            x@.len() == k,
            forall|j: int| 0 <= j < k ==> #[trigger] x@[j] == x_seq(*net, pos, us)[j],
            forall|j: int| 0 <= j < k ==> 0 <= #[trigger] x@[j] <= 65025,
        decreases 2 * HL - k,
    {
        let v = if k < HL {
            if stm == 0 {
                acc0[k]
            } else {
                acc1[k]
            }
        } else {
            if stm == 0 {
                acc1[k - HL]
            } else {
                acc0[k - HL]
            }
        };
        x.push(screlu(v));
        k = k + 1;
    }
    proof {
        assert(x@ =~= x_seq(*net, pos, us));
    }
    let n = count(board.occ_all) as usize;
    let q = if n < 2 {
        0
    } else {
        (n - 2) / 4
    };
    let bucket = if q > NB - 1 {
        NB - 1
    } else {
        q
    };
    let ghost bk = bucket as int;
    assert(bk == bucket_spec(popcount(board.occ_all) as int));
    let mut v: Vec<i32> = Vec::new();
    let mut o: usize = 0;
    while o < D1_TOTAL
        invariant
            o <= D1_TOTAL,
            net_dims(*net),
            bucket < NB,
            bk == bucket,
            x@ == x_seq(*net, pos, us),
            x@.len() == 2 * HL,
            forall|j: int| 0 <= j < 2 * HL ==> 0 <= #[trigger] x@[j] <= 65025,
            bk == bucket_spec(popcount(board.occ_all) as int),
            us == color_index(board.side),
            pos == (Pos { pieces: board.pieces }),
            v@.len() == o,
            forall|j: int| 0 <= j < o ==> #[trigger] v@[j] == v1(*net, pos, us, bk, j),
        decreases D1_TOTAL - o,
    {
        let col = bucket * D1_TOTAL + o;
        let s = dot_col_exec(&x, &net.d1w, col, D1_TOTAL * NB, 2 * HL);
        let t = #[verifier::truncate] ((s / (QA as i64)) as i32);
        let vv = t as i64 + net.d1b[col] as i64;
        assert(vv == v1(*net, pos, us, bk, o as int));
        if vv < i32::MIN as i64 || vv > i32::MAX as i64 {
            return None;
        }
        v.push(vv as i32);
        o = o + 1;
    }
    assert forall|j: int| 0 <= j < D1_TOTAL implies in_i32(#[trigger] v1(*net, pos, us, bk, j)) by {
        assert(v@[j] == v1(*net, pos, us, bk, j));
    }
    let skip_raw = v[D1_REAL];
    let mut a1: Vec<i32> = Vec::new();
    o = 0;
    while o < D1_REAL
        invariant
            o <= D1_REAL,
            v@.len() == D1_TOTAL,
            forall|j: int| 0 <= j < D1_TOTAL ==> #[trigger] v@[j] == v1(*net, pos, us, bk, j),
            a1@.len() == o,
            forall|j: int| 0 <= j < o ==> #[trigger] a1@[j] == a1_seq(*net, pos, us, bk)[j],
            forall|j: int| 0 <= j < o ==> 0 <= #[trigger] a1@[j] <= 65025,
        decreases D1_REAL - o,
    {
        a1.push(screlu(v[o] / QB));
        o = o + 1;
    }
    proof {
        assert(a1@ =~= a1_seq(*net, pos, us, bk));
    }
    let mut a2: Vec<i32> = Vec::new();
    o = 0;
    while o < D2
        invariant
            o <= D2,
            net_dims(*net),
            bucket < NB,
            bk == bucket,
            a1@ == a1_seq(*net, pos, us, bk),
            a1@.len() == D1_REAL,
            forall|j: int| 0 <= j < D1_REAL ==> 0 <= #[trigger] a1@[j] <= 65025,
            forall|j: int| 0 <= j < D1_TOTAL ==> in_i32(#[trigger] v1(*net, pos, us, bk, j)),
            forall|j: int| 0 <= j < o ==> in_i32(#[trigger] v2(*net, pos, us, bk, j)),
            a2@.len() == o,
            forall|j: int| 0 <= j < o ==> #[trigger] a2@[j] == a2_seq(*net, pos, us, bk)[j],
            forall|j: int| 0 <= j < o ==> 0 <= #[trigger] a2@[j] <= 65025,
        decreases D2 - o,
    {
        let col = bucket * D2 + o;
        let s = dot_col_exec(&a1, &net.d2w, col, D2 * NB, D1_REAL);
        let t = #[verifier::truncate] ((s / (QA as i64)) as i32);
        let vv = t as i64 + net.d2b[col] as i64;
        assert(vv == v2(*net, pos, us, bk, o as int));
        if vv < i32::MIN as i64 || vv > i32::MAX as i64 {
            return None;
        }
        let v2x = vv as i32;
        a2.push(screlu(v2x / QB));
        o = o + 1;
    }
    proof {
        assert(a2@ =~= a2_seq(*net, pos, us, bk));
    }
    let s3 = dot_col_exec(&a2, &net.d3w, bucket, NB, D2);
    let t3 = #[verifier::truncate] ((s3 / (QA as i64)) as i32);
    let out = t3 as i64 + net.d3b[bucket] as i64;
    assert(out == out_raw(*net, pos, us, bk));
    if out < i32::MIN as i64 || out > i32::MAX as i64 {
        return None;
    }
    let c64 = out + skip_raw as i64;
    assert(c64 == combined(*net, pos, us, bk));
    if c64 < i32::MIN as i64 || c64 > i32::MAX as i64 {
        return None;
    }
    assert(ESCALA_TREINO as i64 == 410);
    let prod = c64 * (ESCALA_TREINO as i64);
    Some(#[verifier::truncate] ((prod / (QA as i64 * QB as i64)) as i32))
}

} // verus!
