//! The `q900` network: a 128-wide accumulator over piece inputs (each also
//! firing its factorised twin) and a three-layer head (16 -> 32 -> 1)
//! bucketed eight ways by material, trained at an evaluation scale of 900.
use vstd::prelude::*;
use crate::bitboard::{count, popcount};
use crate::board::Board;
use crate::evaluation::div_toward_zero;
use crate::features::{gather_pieces, piece_active, Pos, PIECE_FEATURES};
use crate::nnue_sf::{active_upto, feat_sum, i16s_at, in_i32, lemma_feat_sum_multiset, lemma_same_as_active};
use crate::nnue_sf256::{bucket_spec, dense, dot_col_exec, le_i16, screlu, screlu_spec, QA, QB};
use crate::types::color_index;

verus! {

pub const HL: usize = 128;
pub const NB: usize = 8;
pub const D1: usize = 16;
pub const D2: usize = 32;
pub const FACTOR: usize = 704;
/// The evaluation scale the network was trained at: part of the weights.
pub const ESCALA_TREINO: i32 = 900;
/// The layer is one row wider than the inputs need; the piece inputs start
/// right after the factoriser.
pub const N_IN: usize = FACTOR + 1 + PIECE_FEATURES;
pub const OFF_MAIN: usize = FACTOR;

pub struct RedeQ900 {
    pub l0w: Vec<i16>,
    pub l0b: Vec<i16>,
    pub d1w: Vec<i16>,
    pub d1b: Vec<i16>,
    pub d2w: Vec<i16>,
    pub d2b: Vec<i16>,
    pub d3w: Vec<i16>,
    pub d3b: Vec<i16>,
}

/// How long block `k` of the stored network is, in `i16`s.
pub open spec fn block_len(k: int) -> int {
    if k == 0 {
        (N_IN * HL) as int
    } else if k == 1 {
        HL as int
    } else if k == 2 {
        (2 * HL * D1 * NB) as int
    } else if k == 3 {
        (D1 * NB) as int
    } else if k == 4 {
        (D1 * D2 * NB) as int
    } else if k == 5 {
        (D2 * NB) as int
    } else if k == 6 {
        (D2 * NB) as int
    } else {
        NB as int
    }
}

/// The `i16`s before block `k`.
pub open spec fn block_start(k: int) -> int
    decreases k,
{
    if k <= 0 {
        0
    } else {
        block_start(k - 1) + block_len(k - 1)
    }
}

/// The network a file holds: its eight blocks, one after the other.
pub open spec fn reads_as(b: Seq<u8>, net: RedeQ900) -> bool {
    &&& net.l0w@ == i16s_at(b, 2 * block_start(0), block_len(0))
    &&& net.l0b@ == i16s_at(b, 2 * block_start(1), block_len(1))
    &&& net.d1w@ == i16s_at(b, 2 * block_start(2), block_len(2))
    &&& net.d1b@ == i16s_at(b, 2 * block_start(3), block_len(3))
    &&& net.d2w@ == i16s_at(b, 2 * block_start(4), block_len(4))
    &&& net.d2b@ == i16s_at(b, 2 * block_start(5), block_len(5))
    &&& net.d3w@ == i16s_at(b, 2 * block_start(6), block_len(6))
    &&& net.d3b@ == i16s_at(b, 2 * block_start(7), block_len(7))
}

/// Reads a network. The file ends with the trainer's 48-byte signature:
/// any other length means the geometry does not match, and gives `None`.
pub fn carrega(b: &[u8]) -> (r: Option<RedeQ900>)
    ensures
        r is Some <==> b@.len() == 2 * block_start(8) + 48,
        r matches Some(net) ==> reads_as(b@, net),
{
    assert(block_start(1) == 2973824 && block_start(2) == 2973952 && block_start(3) == 3006720 && block_start(4)
        == 3006848 && block_start(5) == 3010944 && block_start(6) == 3011200 && block_start(7) == 3011456
        && block_start(8) == 3011464) by {
        reveal_with_fuel(block_start, 9);
    }
    let mut o = 0usize;
    let l0w = match le_i16(b, &mut o, N_IN * HL) {
        Some(v) => v,
        None => return None,
    };
    let l0b = match le_i16(b, &mut o, HL) {
        Some(v) => v,
        None => return None,
    };
    let d1w = match le_i16(b, &mut o, 2 * HL * D1 * NB) {
        Some(v) => v,
        None => return None,
    };
    let d1b = match le_i16(b, &mut o, D1 * NB) {
        Some(v) => v,
        None => return None,
    };
    let d2w = match le_i16(b, &mut o, D1 * D2 * NB) {
        Some(v) => v,
        None => return None,
    };
    let d2b = match le_i16(b, &mut o, D2 * NB) {
        Some(v) => v,
        None => return None,
    };
    let d3w = match le_i16(b, &mut o, D2 * NB) {
        Some(v) => v,
        None => return None,
    };
    let d3b = match le_i16(b, &mut o, NB) {
        Some(v) => v,
        None => return None,
    };
    let sobra = b.len() - o;
    if sobra != 48 {
        return None;
    }
    Some(RedeQ900 { l0w, l0b, d1w, d1b, d2w, d2b, d3w, d3b })
}

/// Every block has the size the network's shape gives it.
pub open spec fn net_dims(net: RedeQ900) -> bool {
    &&& net.l0w@.len() == N_IN * HL
    &&& net.l0b@.len() == HL
    &&& net.d1w@.len() == 2 * HL * D1 * NB
    &&& net.d1b@.len() == D1 * NB
    &&& net.d2w@.len() == D1 * D2 * NB
    &&& net.d2b@.len() == D2 * NB
    &&& net.d3w@.len() == D2 * NB
    &&& net.d3b@.len() == NB
}

/// Weight `k` of input row `row`, stored row-major or, with `transp`, unit-major.
pub open spec fn l0(net: RedeQ900, row: int, k: int, transp: bool) -> int {
    if transp {
        net.l0w@[k * N_IN + row] as int
    } else {
        net.l0w@[row * HL + k] as int
    }
}

/// What a piece input adds to hidden unit `k`: its own row, and its
/// factorised twin's unless `so_principal`.
pub open spec fn piece_share(net: RedeQ900, k: int, so_principal: bool, transp: bool) -> spec_fn(int) -> int {
    |f: int|
        l0(net, OFF_MAIN + f, k, transp) + if so_principal {
            0
        } else {
            l0(net, f % FACTOR as int, k, transp)
        }
}

/// The piece inputs of `pos` seen from `persp`.
pub open spec fn pieces_of(pos: Pos, persp: int) -> Seq<usize> {
    active_upto(|f: int| piece_active(pos, persp, f), PIECE_FEATURES as int)
}

/// Hidden unit `k` of the accumulator of `pos` seen from `persp`.
pub open spec fn acc_spec(net: RedeQ900, pos: Pos, persp: int, k: int, so_principal: bool, transp: bool) -> int {
    net.l0b@[k] + feat_sum(piece_share(net, k, so_principal, transp), pieces_of(pos, persp))
}

/// The accumulator of `pos` seen from `persp`.
fn acumula(net: &RedeQ900, pos: &Pos, persp: usize, so_principal: bool, transp: bool) -> (acc: Vec<i32>)
    requires
        net_dims(*net),
        persp < 2,
        pos.pieces[persp as int][5] != 0,
    ensures
        acc@.len() == HL,
        forall|k: int|
            0 <= k < HL ==> #[trigger] acc@[k] == acc_spec(*net, *pos, persp as int, k, so_principal, transp),
{
    let mut acc: Vec<i32> = Vec::new();
    let mut k: usize = 0;
    while k < HL
        invariant
            k <= HL,
            net.l0b@.len() == HL,
            acc@.len() == k,
            forall|j: int| 0 <= j < k ==> #[trigger] acc@[j] == net.l0b@[j],
        decreases HL - k,
    {
        acc.push(net.l0b[k] as i32);
        k = k + 1;
    }
    let mut feats: Vec<usize> = Vec::new();
    gather_pieces(pos, persp, &mut feats);
    let ghost pa = |f: int| piece_active(*pos, persp as int, f);
    proof {
        assert(feats@.subrange(0, feats@.len() as int) =~= feats@);
        assert forall|x: usize| #[trigger] feats@.contains(x) <==> (x < PIECE_FEATURES && pa(x as int)) by {
            if feats@.contains(x) {
                crate::features::lemma_piece_active_bound(*pos, persp as int, x as int);
            }
        }
        lemma_same_as_active(feats@, pa, PIECE_FEATURES as int);
        assert forall|j: int| 0 <= j < feats@.len() implies #[trigger] feats@[j] < PIECE_FEATURES by {
            assert(feats@.contains(feats@[j]));
        }
    }
    let np = feats.len();
    let mut i: usize = 0;
    while i < np
        invariant
            net_dims(*net),
            np == feats@.len(),
            np <= PIECE_FEATURES,
            i <= np,
            acc@.len() == HL,
            forall|j: int| 0 <= j < feats@.len() ==> #[trigger] feats@[j] < PIECE_FEATURES,
            forall|j: int|
                0 <= j < HL ==> #[trigger] acc@[j] == net.l0b@[j] + feat_sum(
                    piece_share(*net, j, so_principal, transp),
                    feats@.take(i as int),
                ),
            forall|j: int| 0 <= j < HL ==> -32768 * (1 + 2 * i) <= #[trigger] acc@[j] <= 32768 * (1 + 2 * i),
        decreases np - i,
    {
        let f = feats[i];
        let base = OFF_MAIN + f;
        let fact = f % FACTOR;
        let ghost before = acc@;
        let mut k: usize = 0;
        while k < HL
            invariant
                net_dims(*net),
                k <= HL,
                i < np,
                np <= PIECE_FEATURES,
                f < PIECE_FEATURES,
                base == OFF_MAIN + f,
                fact == f % FACTOR,
                acc@.len() == HL,
                before.len() == HL,
                forall|j: int| 0 <= j < HL ==> -32768 * (1 + 2 * i) <= #[trigger] before[j] <= 32768 * (1 + 2 * i),
                forall|j: int|
                    0 <= j < k ==> #[trigger] acc@[j] == before[j] + l0(*net, base as int, j, transp) + (if so_principal {
                        0
                    } else {
                        l0(*net, fact as int, j, transp)
                    }),
                forall|j: int| k <= j < HL ==> #[trigger] acc@[j] == before[j],
            decreases HL - k,
        {
            assert(k * N_IN + base < N_IN * HL && k * N_IN + fact < N_IN * HL) by (nonlinear_arith)
                requires
                    k < HL,
                    base < N_IN,
                    fact < N_IN,
            ;
            let (ib, ifa) = if transp {
                (k * N_IN + base, k * N_IN + fact)
            } else {
                (base * HL + k, fact * HL + k)
            };
            let v = acc[k] + net.l0w[ib] as i32;
            let v2 = if !so_principal {
                v + net.l0w[ifa] as i32
            } else {
                v
            };
            acc.set(k, v2);
            k = k + 1;
        }
        proof {
            assert(feats@.take(i + 1).drop_last() =~= feats@.take(i as int));
        }
        i = i + 1;
    }
    proof {
        assert(feats@.take(np as int) =~= feats@);
        assert forall|k: int| 0 <= k < HL implies #[trigger] acc@[k] == acc_spec(
            *net,
            *pos,
            persp as int,
            k,
            so_principal,
            transp,
        ) by {
            lemma_feat_sum_multiset(piece_share(*net, k, so_principal, transp), feats@, pieces_of(*pos, persp as int));
        }
    }
    acc
}

/// The first layer's input: both accumulators activated, the side to
/// move's first.
pub open spec fn x_seq(net: RedeQ900, pos: Pos, us: int, sp: bool, tr: bool) -> Seq<i32> {
    Seq::new(
        (2 * HL) as nat,
        |i: int|
            (if i < HL {
                screlu_spec(acc_spec(net, pos, us, i, sp, tr))
            } else {
                screlu_spec(acc_spec(net, pos, 1 - us, i - HL, sp, tr))
            }) as i32,
    )
}

/// Output `o` of the first layer, in `bucket`.
pub open spec fn v1(net: RedeQ900, pos: Pos, us: int, bucket: int, o: int, sp: bool, tr: bool) -> int {
    dense(x_seq(net, pos, us, sp, tr), net.d1w@, net.d1b@, bucket * D1 + o, (D1 * NB) as int, (2 * HL) as int)
}

/// The second layer's input.
pub open spec fn a1_seq(net: RedeQ900, pos: Pos, us: int, bucket: int, sp: bool, tr: bool) -> Seq<i32> {
    Seq::new(D1 as nat, |o: int| screlu_spec(div_toward_zero(v1(net, pos, us, bucket, o, sp, tr), QB as int)) as i32)
}

/// Output `o` of the second layer.
pub open spec fn v2(net: RedeQ900, pos: Pos, us: int, bucket: int, o: int, sp: bool, tr: bool) -> int {
    dense(a1_seq(net, pos, us, bucket, sp, tr), net.d2w@, net.d2b@, bucket * D2 + o, (D2 * NB) as int, D1 as int)
}

/// The third layer's input.
pub open spec fn a2_seq(net: RedeQ900, pos: Pos, us: int, bucket: int, sp: bool, tr: bool) -> Seq<i32> {
    Seq::new(D2 as nat, |o: int| screlu_spec(div_toward_zero(v2(net, pos, us, bucket, o, sp, tr), QB as int)) as i32)
}

/// The last layer's output.
pub open spec fn out_raw(net: RedeQ900, pos: Pos, us: int, bucket: int, sp: bool, tr: bool) -> int {
    dense(a2_seq(net, pos, us, bucket, sp, tr), net.d3w@, net.d3b@, bucket, NB as int, D2 as int)
}

/// The score in centipawns: the output at the training scale.
pub open spec fn score_spec(net: RedeQ900, pos: Pos, us: int, bucket: int, sp: bool, tr: bool) -> int {
    div_toward_zero(out_raw(net, pos, us, bucket, sp, tr) * ESCALA_TREINO, (QA * QB) as int) as i32 as int
}

/// Every sum the head forms in 32 bits fits there.
pub open spec fn head_fits(net: RedeQ900, pos: Pos, us: int, bucket: int, sp: bool, tr: bool) -> bool {
    &&& forall|o: int| 0 <= o < D1 ==> in_i32(#[trigger] v1(net, pos, us, bucket, o, sp, tr))
    &&& forall|o: int| 0 <= o < D2 ==> in_i32(#[trigger] v2(net, pos, us, bucket, o, sp, tr))
    &&& in_i32(out_raw(net, pos, us, bucket, sp, tr))
}

/// The network's score for the side to move, in centipawns. `so_principal`
/// leaves the factorised twins out and `transp` reads the first layer
/// unit-major: two switches for checking a file's layout.
pub fn evaluate(net: &RedeQ900, board: &Board, so_principal: bool, transp: bool) -> (r: i32)
    requires
        net_dims(*net),
        board.pieces[0][5] != 0,
        board.pieces[1][5] != 0,
        head_fits(
            *net,
            Pos { pieces: board.pieces },
            color_index(board.side),
            bucket_spec(popcount(board.occ_all) as int),
            so_principal,
            transp,
        ),
    ensures
        r == score_spec(
            *net,
            Pos { pieces: board.pieces },
            color_index(board.side),
            bucket_spec(popcount(board.occ_all) as int),
            so_principal,
            transp,
        ),
{
    match evaluate_checked(net, board, so_principal, transp) {
        Some(v) => v,
        None => 0,
    }
}

/// The score of `evaluate`, or `None` where a sum of the head does not fit
/// in 32 bits: what a network read at run time is evaluated with.
#[verifier::rlimit(40)]
pub fn evaluate_checked(net: &RedeQ900, board: &Board, so_principal: bool, transp: bool) -> (r: Option<i32>)
    requires
        net_dims(*net),
        board.pieces[0][5] != 0,
        board.pieces[1][5] != 0,
    ensures
        r is Some <==> head_fits(
            *net,
            Pos { pieces: board.pieces },
            color_index(board.side),
            bucket_spec(popcount(board.occ_all) as int),
            so_principal,
            transp,
        ),
        r matches Some(v) ==> v == score_spec(
            *net,
            Pos { pieces: board.pieces },
            color_index(board.side),
            bucket_spec(popcount(board.occ_all) as int),
            so_principal,
            transp,
        ),
{
    let pos = Pos { pieces: board.pieces };
    let acc0 = acumula(net, &pos, 0, so_principal, transp);
    let acc1 = acumula(net, &pos, 1, so_principal, transp);
    let stm = board.side.idx();
    let ghost us = stm as int;
    let ghost sp = so_principal;
    let ghost tr = transp;
    let mut x: Vec<i32> = Vec::new();
    let mut k: usize = 0;
    while k < 2 * HL
        invariant
            k <= 2 * HL,
            stm < 2,
            us == stm,
            sp == so_principal,
            tr == transp,
            acc0@.len() == HL,
            acc1@.len() == HL,
            forall|j: int| 0 <= j < HL ==> #[trigger] acc0@[j] == acc_spec(*net, pos, 0, j, sp, tr),
            forall|j: int| 0 <= j < HL ==> #[trigger] acc1@[j] == acc_spec(*net, pos, 1, j, sp, tr),
            x@.len() == k,
            forall|j: int| 0 <= j < k ==> #[trigger] x@[j] == x_seq(*net, pos, us, sp, tr)[j],
            forall|j: int| 0 <= j < k ==> 0 <= #[trigger] x@[j] <= 65025,
        decreases 2 * HL - k,
    {
        let v = if k < HL {
            if stm == 0 {
                acc0[k]
            } else {
                acc1[k]
            }
        } else {
            if stm == 0 {
                acc1[k - HL]
            } else {
                acc0[k - HL]
            }
        };
        x.push(screlu(v));
        k = k + 1;
    }
    proof {
        assert(x@ =~= x_seq(*net, pos, us, sp, tr));
    }
    let n = count(board.occ_all) as usize;
    let q = if n < 2 {
        0
    } else {
        (n - 2) / 4
    };
    let bucket = if q > NB - 1 {
        NB - 1
    } else {
        q
    };
    let ghost bk = bucket as int;
    assert(bk == bucket_spec(popcount(board.occ_all) as int));
    let mut a1: Vec<i32> = Vec::new();
    let mut o: usize = 0;
    while o < D1
        invariant
            o <= D1,
            net_dims(*net),
            bucket < NB,
            bk == bucket,
            x@ == x_seq(*net, pos, us, sp, tr),
            x@.len() == 2 * HL,
            forall|j: int| 0 <= j < 2 * HL ==> 0 <= #[trigger] x@[j] <= 65025,
            forall|j: int| 0 <= j < o ==> in_i32(#[trigger] v1(*net, pos, us, bk, j, sp, tr)),
            a1@.len() == o,
            forall|j: int| 0 <= j < o ==> #[trigger] a1@[j] == a1_seq(*net, pos, us, bk, sp, tr)[j],
            forall|j: int| 0 <= j < o ==> 0 <= #[trigger] a1@[j] <= 65025,
        decreases D1 - o,
    {
        let col = bucket * D1 + o;
        let s = dot_col_exec(&x, &net.d1w, col, D1 * NB, 2 * HL);
        let t = #[verifier::truncate] ((s / (QA as i64)) as i32);
        let vv = t as i64 + net.d1b[col] as i64;
        assert(vv == v1(*net, pos, us, bk, o as int, sp, tr));
        if vv < i32::MIN as i64 || vv > i32::MAX as i64 {
            return None;
        }
        let v = vv as i32;
        a1.push(screlu(v / QB));
        o = o + 1;
    }
    proof {
        assert(a1@ =~= a1_seq(*net, pos, us, bk, sp, tr));
    }
    let mut a2: Vec<i32> = Vec::new();
    o = 0;
    while o < D2
        invariant
            o <= D2,
            net_dims(*net),
            bucket < NB,
            bk == bucket,
            a1@ == a1_seq(*net, pos, us, bk, sp, tr),
            a1@.len() == D1,
            forall|j: int| 0 <= j < D1 ==> 0 <= #[trigger] a1@[j] <= 65025,
            forall|j: int| 0 <= j < D1 ==> in_i32(#[trigger] v1(*net, pos, us, bk, j, sp, tr)),
            forall|j: int| 0 <= j < o ==> in_i32(#[trigger] v2(*net, pos, us, bk, j, sp, tr)),
            a2@.len() == o,
            forall|j: int| 0 <= j < o ==> #[trigger] a2@[j] == a2_seq(*net, pos, us, bk, sp, tr)[j],
            forall|j: int| 0 <= j < o ==> 0 <= #[trigger] a2@[j] <= 65025,
        decreases D2 - o,
    {
        let col = bucket * D2 + o;
        let s = dot_col_exec(&a1, &net.d2w, col, D2 * NB, D1);
        let t = #[verifier::truncate] ((s / (QA as i64)) as i32);
        let vv = t as i64 + net.d2b[col] as i64;
        assert(vv == v2(*net, pos, us, bk, o as int, sp, tr));
        if vv < i32::MIN as i64 || vv > i32::MAX as i64 {
            return None;
        }
        let v = vv as i32;
        a2.push(screlu(v / QB));
        o = o + 1;
    }
    proof {
        assert(a2@ =~= a2_seq(*net, pos, us, bk, sp, tr));
    }
    let s3 = dot_col_exec(&a2, &net.d3w, bucket, NB, D2);
    let t3 = #[verifier::truncate] ((s3 / (QA as i64)) as i32);
    let o64 = t3 as i64 + net.d3b[bucket] as i64;
    assert(o64 == out_raw(*net, pos, us, bk, sp, tr));
    if o64 < i32::MIN as i64 || o64 > i32::MAX as i64 {
        return None;
    }
    assert(ESCALA_TREINO as i64 == 900);
    let prod = o64 * (ESCALA_TREINO as i64);
    Some(#[verifier::truncate] ((prod / (QA as i64 * QB as i64)) as i32))
}

} // verus!
