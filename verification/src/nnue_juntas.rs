//! The "juntas" network: a shared accumulator and PSQT over the full
//! piece-and-threat inputs, read with its big head (`g`) only. The two other
//! heads stored in the file are stepped over. Only the output layer of the
//! head is bucketed by material.
use vstd::prelude::*;
use crate::bitboard::{count, popcount};
use crate::board::Board;
use crate::evaluation::div_toward_zero;
use crate::features::{features_seq, lemma_feature_pair_range, map_features_pairs_mode, Pos, TOTAL_INPUTS_V10};
use crate::nnue_sf::{i16s_at, in_i32};
use crate::nnue_sf256::{bucket_spec, dense, dot_col_exec, le_i16, screlu, screlu_spec, QA, QB};
use crate::types::color_index;

verus! {

/// The inputs the network reads: the full piece and threat set.
pub const N_ACTIVE: usize = TOTAL_INPUTS_V10;
pub const NB: usize = 8;
pub const G_L1: usize = 32;
pub const G_L2: usize = 32;
/// The evaluation scale the network was trained at.
pub const ESCALA_TREINO: i32 = 410;

pub struct RedeJuntas {
    pub l1: usize,
    pub accw: Vec<i16>,
    pub accb: Vec<i16>,
    pub psqtw: Vec<i16>,
    pub g_l1w: Vec<i16>,
    pub g_l1b: Vec<i16>,
    pub g_l2w: Vec<i16>,
    pub g_l2b: Vec<i16>,
    pub g_l3w: Vec<i16>,
    pub g_l3b: Vec<i16>,
}

/// Where the accumulator bias starts, in `i16`s: after the weights of every
/// input and of the one unused row that follows them.
pub open spec fn off_accb(l1: int) -> int {
    (N_ACTIVE + 1) * l1
}

pub open spec fn off_psqtw(l1: int) -> int {
    off_accb(l1) + l1
}

/// Where the big head starts: after the PSQT weights and biases and the two
/// heads the evaluation does not use.
pub open spec fn off_g(l1: int) -> int {
    off_psqtw(l1) + (N_ACTIVE + 1) * NB + NB + (32 * l1 + 824) + (64 * l1 + 1352)
}

/// The `i16`s the file must hold at least.
pub open spec fn file_len(l1: int) -> int {
    off_g(l1) + 64 * l1 + 1352
}

/// The network a file holds for hidden width `l1`; the unused input row is dropped.
pub open spec fn reads_as(b: Seq<u8>, l1: int, net: RedeJuntas) -> bool {
    &&& net.l1 == l1
    &&& net.accw@ == i16s_at(b, 0, N_ACTIVE * l1)
    &&& net.accb@ == i16s_at(b, 2 * off_accb(l1), l1)
    &&& net.psqtw@ == i16s_at(b, 2 * off_psqtw(l1), (N_ACTIVE * NB) as int)
    &&& net.g_l1w@ == i16s_at(b, 2 * off_g(l1), 64 * l1)
    &&& net.g_l1b@ == i16s_at(b, 2 * (off_g(l1) + 64 * l1), 32)
    &&& net.g_l2w@ == i16s_at(b, 2 * (off_g(l1) + 64 * l1 + 32), 1024)
    &&& net.g_l2b@ == i16s_at(b, 2 * (off_g(l1) + 64 * l1 + 1056), 32)
    &&& net.g_l3w@ == i16s_at(b, 2 * (off_g(l1) + 64 * l1 + 1088), 256)
    &&& net.g_l3b@ == i16s_at(b, 2 * (off_g(l1) + 64 * l1 + 1344), 8)
}

/// Reads a network of hidden width `l1`; `None` when the file is shorter
/// than its blocks. What follows them is left unread.
pub fn carrega(b: &[u8], l1: usize) -> (r: Option<RedeJuntas>)
    requires
        2 * file_len(l1 as int) <= usize::MAX,
    ensures
        r is Some <==> 2 * file_len(l1 as int) <= b@.len(),
        r matches Some(net) ==> reads_as(b@, l1 as int, net),
{
    let ghost g = off_g(l1 as int);
    assert(0 <= (N_ACTIVE + 1) * l1) by (nonlinear_arith);
    let n_in = N_ACTIVE + 1;
    let mut o = 0usize;
    let mut accw = match le_i16(b, &mut o, n_in * l1) {
        Some(v) => v,
        None => return None,
    };
    let accb = match le_i16(b, &mut o, l1) {
        Some(v) => v,
        None => return None,
    };
    let mut psqtw = match le_i16(b, &mut o, n_in * NB) {
        Some(v) => v,
        None => return None,
    };
    o = o + NB * 2;
    o = o + (2 * l1 * 16) * 2 + 16 * 2 + (16 * 32) * 2 + 32 * 2 + (32 * NB) * 2 + NB * 2;
    o = o + (2 * l1 * 32) * 2 + 32 * 2 + (32 * 32) * 2 + 32 * 2 + (32 * NB) * 2 + NB * 2;
    assert(o == 2 * g);
    let g_l1w = match le_i16(b, &mut o, 2 * l1 * G_L1) {
        Some(v) => v,
        None => return None,
    };
    let g_l1b = match le_i16(b, &mut o, G_L1) {
        Some(v) => v,
        None => return None,
    };
    let g_l2w = match le_i16(b, &mut o, G_L1 * G_L2) {
        Some(v) => v,
        None => return None,
    };
    let g_l2b = match le_i16(b, &mut o, G_L2) {
        Some(v) => v,
        None => return None,
    };
    let g_l3w = match le_i16(b, &mut o, G_L2 * NB) {
        Some(v) => v,
        None => return None,
    };
    let g_l3b = match le_i16(b, &mut o, NB) {
        Some(v) => v,
        None => return None,
    };
    assert(N_ACTIVE * l1 <= n_in * l1) by (nonlinear_arith)
        requires
            N_ACTIVE <= n_in,
    ;
    accw.truncate(N_ACTIVE * l1);
    psqtw.truncate(N_ACTIVE * NB);
    assert(accw@ =~= i16s_at(b@, 0, N_ACTIVE * l1));
    assert(psqtw@ =~= i16s_at(b@, 2 * off_psqtw(l1 as int), (N_ACTIVE * NB) as int));
    Some(RedeJuntas { l1, accw, accb, psqtw, g_l1w, g_l1b, g_l2w, g_l2b, g_l3w, g_l3b })
}

/// Every block has the size the network's shape gives it, and the hidden
/// width is one a machine can hold.
pub open spec fn net_dims(net: RedeJuntas) -> bool {
    &&& net.l1 <= 0x4000_0000
    &&& net.accw@.len() == N_ACTIVE * net.l1
    &&& net.accb@.len() == net.l1
    &&& net.psqtw@.len() == N_ACTIVE * NB
    &&& net.g_l1w@.len() == 2 * net.l1 * G_L1
    &&& net.g_l1b@.len() == G_L1
    &&& net.g_l2w@.len() == G_L1 * G_L2
    &&& net.g_l2b@.len() == G_L2
    &&& net.g_l3w@.len() == G_L2 * NB
    &&& net.g_l3b@.len() == NB
}

pub open spec fn in_i64(v: int) -> bool {
    i64::MIN <= v <= i64::MAX
}

/// The input a pair feeds to accumulator `side`: 0 is the side to move's.
pub open spec fn member(p: (usize, usize), side: int) -> int {
    if side == 0 {
        p.0 as int
    } else {
        p.1 as int
    }
}

/// Unit `k` of accumulator `side` after the first `n` feature pairs.
pub open spec fn acc_upto(net: RedeJuntas, pairs: Seq<(usize, usize)>, side: int, k: int, n: int) -> int
    decreases n,
{
    if n <= 0 {
        net.accb@[k] as int
    } else {
        acc_upto(net, pairs, side, k, n - 1) + net.accw@[member(pairs[n - 1], side) * net.l1 + k] as int
    }
}

/// The PSQT sum in `bucket` after the first `n` feature pairs.
pub open spec fn psqt_upto(net: RedeJuntas, pairs: Seq<(usize, usize)>, bucket: int, n: int) -> int
    decreases n,
{
    if n <= 0 {
        0
    } else {
        psqt_upto(net, pairs, bucket, n - 1) + net.psqtw@[pairs[n - 1].0 * NB + bucket] as int
            - net.psqtw@[pairs[n - 1].1 * NB + bucket] as int
    }
}

/// The pairs of `pos` seen with `us` to move.
pub open spec fn pairs_of(pos: Pos, us: int) -> Seq<(usize, usize)> {
    features_seq(pos, us)
}

/// Unit `k` of accumulator `side`.
pub open spec fn acc_spec(net: RedeJuntas, pos: Pos, us: int, side: int, k: int) -> int {
    acc_upto(net, pairs_of(pos, us), side, k, pairs_of(pos, us).len() as int)
}

/// The head's input: both accumulators activated, the side to move's first.
pub open spec fn x_seq(net: RedeJuntas, pos: Pos, us: int) -> Seq<i32> {
    Seq::new(
        (2 * net.l1) as nat,
        |i: int|
            (if i < net.l1 {
                screlu_spec(acc_spec(net, pos, us, 0, i))
            } else {
                screlu_spec(acc_spec(net, pos, us, 1, i - net.l1))
            }) as i32,
    )
}

/// Output `o` of the head's first layer, shared by every bucket.
pub open spec fn v1(net: RedeJuntas, pos: Pos, us: int, o: int) -> int {
    dense(x_seq(net, pos, us), net.g_l1w@, net.g_l1b@, o, G_L1 as int, 2 * net.l1)
}

pub open spec fn a1_seq(net: RedeJuntas, pos: Pos, us: int) -> Seq<i32> {
    Seq::new(G_L1 as nat, |o: int| screlu_spec(div_toward_zero(v1(net, pos, us, o), QB as int)) as i32)
}

/// Output `o` of the second layer, shared by every bucket.
pub open spec fn v2(net: RedeJuntas, pos: Pos, us: int, o: int) -> int {
    dense(a1_seq(net, pos, us), net.g_l2w@, net.g_l2b@, o, G_L2 as int, G_L1 as int)
}

pub open spec fn a2_seq(net: RedeJuntas, pos: Pos, us: int) -> Seq<i32> {
    Seq::new(G_L2 as nat, |o: int| screlu_spec(div_toward_zero(v2(net, pos, us, o), QB as int)) as i32)
}

/// The output layer, in `bucket`.
pub open spec fn out_raw(net: RedeJuntas, pos: Pos, us: int, bucket: int) -> int {
    dense(a2_seq(net, pos, us), net.g_l3w@, net.g_l3b@, bucket, NB as int, G_L2 as int)
}

pub open spec fn psqt_spec(net: RedeJuntas, pos: Pos, us: int, bucket: int) -> int {
    psqt_upto(net, pairs_of(pos, us), bucket, pairs_of(pos, us).len() as int)
}

/// The head's output and the PSQT sum on one scale: the PSQT weights are
/// quantised by `QA` alone, so they take one more factor of `QB`.
pub open spec fn combined(net: RedeJuntas, pos: Pos, us: int, bucket: int) -> int {
    out_raw(net, pos, us, bucket) + psqt_spec(net, pos, us, bucket) * QB
}

/// The score in centipawns at the training scale.
pub open spec fn score_spec(net: RedeJuntas, pos: Pos, us: int, bucket: int) -> int {
    div_toward_zero(combined(net, pos, us, bucket) * ESCALA_TREINO, (QA * QB) as int) as i32 as int
}

/// Every sum the evaluation forms fits the width it is formed in: each
/// accumulator unit in 32 bits after every pair, the PSQT sum in 64 bits,
/// the head's layers in 32 bits and the final product in 64 bits.
pub open spec fn eval_fits(net: RedeJuntas, pos: Pos, us: int, bucket: int) -> bool {
    &&& forall|n: int, side: int, k: int|
        0 <= n <= pairs_of(pos, us).len() && 0 <= side < 2 && 0 <= k < net.l1 ==> in_i32(
            #[trigger] acc_upto(net, pairs_of(pos, us), side, k, n),
        )
    &&& forall|n: int| 0 <= n <= pairs_of(pos, us).len() ==> in_i64(#[trigger] psqt_upto(net, pairs_of(pos, us), bucket, n))
    &&& forall|o: int| 0 <= o < G_L1 ==> in_i32(#[trigger] v1(net, pos, us, o))
    &&& forall|o: int| 0 <= o < G_L2 ==> in_i32(#[trigger] v2(net, pos, us, o))
    &&& in_i32(out_raw(net, pos, us, bucket))
    &&& in_i64(psqt_spec(net, pos, us, bucket) * QB)
    &&& in_i64(combined(net, pos, us, bucket))
    &&& in_i64(combined(net, pos, us, bucket) * ESCALA_TREINO)
}

/// The network's score for the side to move, in centipawns.
pub fn evaluate(net: &RedeJuntas, board: &Board) -> (r: i32)
    requires
        net_dims(*net),
        board.pieces[0][5] != 0,
        board.pieces[1][5] != 0,
        eval_fits(
            *net,
            Pos { pieces: board.pieces },
            color_index(board.side),
            bucket_spec(popcount(board.occ_all) as int),
        ),
    ensures
        r == score_spec(
            *net,
            Pos { pieces: board.pieces },
            color_index(board.side),
            bucket_spec(popcount(board.occ_all) as int),
        ),
{
    match evaluate_checked(net, board) {
        Some(v) => v,
        None => 0,
    }
}

/// The score of `evaluate`, or `None` where one of its sums does not fit:
/// what a network read at run time is evaluated with.
pub fn evaluate_checked(net: &RedeJuntas, board: &Board) -> (r: Option<i32>)
    requires
        net_dims(*net),
        board.pieces[0][5] != 0,
        board.pieces[1][5] != 0,
    ensures
        r is Some <==> eval_fits(
            *net,
            Pos { pieces: board.pieces },
            color_index(board.side),
            bucket_spec(popcount(board.occ_all) as int),
        ),
        r matches Some(v) ==> v == score_spec(
            *net,
            Pos { pieces: board.pieces },
            color_index(board.side),
            bucket_spec(popcount(board.occ_all) as int),
        ),
{
    let pos = Pos { pieces: board.pieces };
    let stm = board.side.idx();
    let ghost us = stm as int;
    let pairs = map_features_pairs_mode(&pos, stm, 2);
    let ghost ps = pairs_of(pos, us);
    assert(pairs@ == ps);
    proof {
        assert forall|j: int| 0 <= j < ps.len() implies #[trigger] ps[j].0 < N_ACTIVE && ps[j].1 < N_ACTIVE by {
            assert(pairs@.contains(ps[j]));
            lemma_feature_pair_range(pos, us, ps[j]);
        }
    }
    let l1 = net.l1;
    let aw = net.accw.len();
    let np = pairs.len();
    let n = count(board.occ_all) as usize;
    let q = if n < 2 {
        0
    } else {
        (n - 2) / 4
    };
    let bucket = if q > NB - 1 {
        NB - 1
    } else {
        q
    };
    let ghost bk = bucket as int;
    assert(bk == bucket_spec(popcount(board.occ_all) as int));
    let mut acc0: Vec<i32> = Vec::new();
    let mut acc1: Vec<i32> = Vec::new();
    let mut k: usize = 0;
    while k < l1
        invariant
            k <= l1,
            l1 == net.l1,
            net_dims(*net),
            acc0@.len() == k,
            acc1@.len() == k,
            forall|j: int| 0 <= j < k ==> #[trigger] acc0@[j] == acc_upto(*net, ps, 0, j, 0),
            forall|j: int| 0 <= j < k ==> #[trigger] acc1@[j] == acc_upto(*net, ps, 1, j, 0),
        decreases l1 - k,
    {
        acc0.push(net.accb[k] as i32);
        acc1.push(net.accb[k] as i32);
        k = k + 1;
    }
    let mut i: usize = 0;
    while i < np
        invariant
            i <= np,
            np == ps.len(),
            pairs@ == ps,
            l1 == net.l1,
            aw == N_ACTIVE * l1,
            us == color_index(board.side),
            bk == bucket_spec(popcount(board.occ_all) as int),
            pos == (Pos { pieces: board.pieces }),
            ps == pairs_of(pos, us),
            net_dims(*net),
            forall|j: int| 0 <= j < ps.len() ==> #[trigger] ps[j].0 < N_ACTIVE && ps[j].1 < N_ACTIVE,
            acc0@.len() == l1,
            acc1@.len() == l1,
            forall|j: int| 0 <= j < l1 ==> #[trigger] acc0@[j] == acc_upto(*net, ps, 0, j, i as int),
            forall|j: int| 0 <= j < l1 ==> #[trigger] acc1@[j] == acc_upto(*net, ps, 1, j, i as int),
            forall|m: int, side: int, j: int|
                0 <= m <= i && 0 <= side < 2 && 0 <= j < l1 ==> in_i32(#[trigger] acc_upto(*net, ps, side, j, m)),
        decreases np - i,
    {
        let (a, b) = pairs[i];
        assert(ps[i as int].0 < N_ACTIVE && ps[i as int].1 < N_ACTIVE);
        let mut k: usize = 0;
        while k < l1
            invariant
                k <= l1,
                i < np,
                np == ps.len(),
                (a, b) == ps[i as int],
                us == color_index(board.side),
                bk == bucket_spec(popcount(board.occ_all) as int),
                pos == (Pos { pieces: board.pieces }),
                ps == pairs_of(pos, us),
                a < N_ACTIVE,
                b < N_ACTIVE,
                aw == N_ACTIVE * l1,
                l1 == net.l1,
                net_dims(*net),
                acc0@.len() == l1,
                acc1@.len() == l1,
                forall|j: int| 0 <= j < k ==> #[trigger] acc0@[j] == acc_upto(*net, ps, 0, j, i + 1),
                forall|j: int| 0 <= j < k ==> #[trigger] acc1@[j] == acc_upto(*net, ps, 1, j, i + 1),
                forall|j: int| k <= j < l1 ==> #[trigger] acc0@[j] == acc_upto(*net, ps, 0, j, i as int),
                forall|j: int| k <= j < l1 ==> #[trigger] acc1@[j] == acc_upto(*net, ps, 1, j, i as int),
                forall|m: int, side: int, j: int|
                    0 <= m <= i && 0 <= side < 2 && 0 <= j < l1 ==> in_i32(#[trigger] acc_upto(*net, ps, side, j, m)),
                forall|side: int, j: int|
                    0 <= side < 2 && 0 <= j < k ==> in_i32(#[trigger] acc_upto(*net, ps, side, j, i + 1)),
            decreases l1 - k,
        {
            assert(a * l1 + k < N_ACTIVE * l1 && b * l1 + k < N_ACTIVE * l1) by (nonlinear_arith)
                requires
                    a < N_ACTIVE,
                    b < N_ACTIVE,
                    k < l1,
            ;
            let wa = net.accw[a * l1 + k] as i32;
            let wb = net.accw[b * l1 + k] as i32;
            let ghost ua = acc_upto(*net, ps, 0, k as int, i + 1);
            let ghost ub = acc_upto(*net, ps, 1, k as int, i + 1);
            let na = match acc0[k].checked_add(wa) {
                Some(v) => v,
                None => {
                    assert(!in_i32(ua));
                    return None;
                },
            };
            let nb = match acc1[k].checked_add(wb) {
                Some(v) => v,
                None => {
                    assert(!in_i32(ub));
                    return None;
                },
            };
            acc0.set(k, na);
            acc1.set(k, nb);
            k = k + 1;
        }
        i = i + 1;
        proof {
            assert forall|m: int, side: int, j: int|
                0 <= m <= i && 0 <= side < 2 && 0 <= j < l1 implies in_i32(#[trigger] acc_upto(*net, ps, side, j, m)) by {
                if m < i {
                } else {
                    assert(in_i32(acc_upto(*net, ps, side, j, m)));
                }
            }
        }
    }
    let mut psqt: i64 = 0;
    i = 0;
    while i < np
        invariant
            i <= np,
            np == ps.len(),
            pairs@ == ps,
            bucket < NB,
            bk == bucket,
            us == color_index(board.side),
            bk == bucket_spec(popcount(board.occ_all) as int),
            pos == (Pos { pieces: board.pieces }),
            ps == pairs_of(pos, us),
            net_dims(*net),
            forall|j: int| 0 <= j < ps.len() ==> #[trigger] ps[j].0 < N_ACTIVE && ps[j].1 < N_ACTIVE,
            psqt == psqt_upto(*net, ps, bk, i as int),
            forall|m: int| 0 <= m <= i ==> in_i64(#[trigger] psqt_upto(*net, ps, bk, m)),
        decreases np - i,
    {
        let (a, b) = pairs[i];
        assert(ps[i as int].0 < N_ACTIVE && ps[i as int].1 < N_ACTIVE);
        let d = net.psqtw[a * NB + bucket] as i64 - net.psqtw[b * NB + bucket] as i64;
        psqt = match psqt.checked_add(d) {
            Some(v) => v,
            None => {
                assert(!in_i64(psqt_upto(*net, ps, bk, i + 1)));
                return None;
            },
        };
        i = i + 1;
    }
    assert(psqt == psqt_spec(*net, pos, us, bk));
    let mut x: Vec<i32> = Vec::new();
    let mut k: usize = 0;
    while k < 2 * l1
        invariant
            k <= 2 * l1,
            l1 == net.l1,
            net_dims(*net),
            stm < 2,
            us == stm,
            acc0@.len() == l1,
            acc1@.len() == l1,
            forall|j: int| 0 <= j < l1 ==> #[trigger] acc0@[j] == acc_spec(*net, pos, us, 0, j),
            forall|j: int| 0 <= j < l1 ==> #[trigger] acc1@[j] == acc_spec(*net, pos, us, 1, j),
            x@.len() == k,
            forall|j: int| 0 <= j < k ==> #[trigger] x@[j] == x_seq(*net, pos, us)[j],
            forall|j: int| 0 <= j < k ==> 0 <= #[trigger] x@[j] <= 65025,
        decreases 2 * l1 - k,
    {
        let v = if k < l1 {
            acc0[k]
        } else {
            acc1[k - l1]
        };
        x.push(screlu(v));
        k = k + 1;
    }
    proof {
        assert(x@ =~= x_seq(*net, pos, us));
    }
    let mut a1: Vec<i32> = Vec::new();
    let mut o: usize = 0;
    while o < G_L1
        invariant
            o <= G_L1,
            us == color_index(board.side),
            bk == bucket_spec(popcount(board.occ_all) as int),
            pos == (Pos { pieces: board.pieces }),
            l1 == net.l1,
            net_dims(*net),
            x@ == x_seq(*net, pos, us),
            x@.len() == 2 * l1,
            forall|j: int| 0 <= j < 2 * l1 ==> 0 <= #[trigger] x@[j] <= 65025,
            forall|j: int| 0 <= j < o ==> in_i32(#[trigger] v1(*net, pos, us, j)),
            a1@.len() == o,
            forall|j: int| 0 <= j < o ==> #[trigger] a1@[j] == a1_seq(*net, pos, us)[j],
            forall|j: int| 0 <= j < o ==> 0 <= #[trigger] a1@[j] <= 65025,
        decreases G_L1 - o,
    {
        assert((2 * l1 - 1) * G_L1 + o < 2 * l1 * G_L1 || 2 * l1 == 0) by (nonlinear_arith)
            requires
                o < G_L1,
        ;
        let s = dot_col_exec(&x, &net.g_l1w, o, G_L1, 2 * l1);
        let t = #[verifier::truncate] ((s / (QA as i64)) as i32);
        let vv = t as i64 + net.g_l1b[o] as i64;
        assert(vv == v1(*net, pos, us, o as int));
        if vv < i32::MIN as i64 || vv > i32::MAX as i64 {
            return None;
        }
        let v = vv as i32;
        a1.push(screlu(v / QB));
        o = o + 1;
    }
    proof {
        assert(a1@ =~= a1_seq(*net, pos, us));
    }
    let mut a2: Vec<i32> = Vec::new();
    o = 0;
    while o < G_L2
        invariant
            o <= G_L2,
            us == color_index(board.side),
            bk == bucket_spec(popcount(board.occ_all) as int),
            pos == (Pos { pieces: board.pieces }),
            net_dims(*net),
            a1@ == a1_seq(*net, pos, us),
            a1@.len() == G_L1,
            forall|j: int| 0 <= j < G_L1 ==> 0 <= #[trigger] a1@[j] <= 65025,
            forall|j: int| 0 <= j < G_L1 ==> in_i32(#[trigger] v1(*net, pos, us, j)),
            forall|j: int| 0 <= j < o ==> in_i32(#[trigger] v2(*net, pos, us, j)),
            a2@.len() == o,
            forall|j: int| 0 <= j < o ==> #[trigger] a2@[j] == a2_seq(*net, pos, us)[j],
            forall|j: int| 0 <= j < o ==> 0 <= #[trigger] a2@[j] <= 65025,
        decreases G_L2 - o,
    {
        let s = dot_col_exec(&a1, &net.g_l2w, o, G_L2, G_L1);
        let t = #[verifier::truncate] ((s / (QA as i64)) as i32);
        let vv = t as i64 + net.g_l2b[o] as i64;
        assert(vv == v2(*net, pos, us, o as int));
        if vv < i32::MIN as i64 || vv > i32::MAX as i64 {
            return None;
        }
        let v = vv as i32;
        a2.push(screlu(v / QB));
        o = o + 1;
    }
    proof {
        assert(a2@ =~= a2_seq(*net, pos, us));
    }
    let s3 = dot_col_exec(&a2, &net.g_l3w, bucket, NB, G_L2);
    let t3 = #[verifier::truncate] ((s3 / (QA as i64)) as i32);
    let o64 = t3 as i64 + net.g_l3b[bucket] as i64;
    assert(o64 == out_raw(*net, pos, us, bk));
    if o64 < i32::MIN as i64 || o64 > i32::MAX as i64 {
        return None;
    }
    let scaled = match psqt.checked_mul(QB as i64) {
        Some(v) => v,
        None => return None,
    };
    let comb = match o64.checked_add(scaled) {
        Some(v) => v,
        None => return None,
    };
    assert(comb == combined(*net, pos, us, bk));
    let prod = match comb.checked_mul(ESCALA_TREINO as i64) {
        Some(v) => v,
        None => return None,
    };
    Some(#[verifier::truncate] ((prod / (QA as i64 * QB as i64)) as i32))
}

} // verus!
