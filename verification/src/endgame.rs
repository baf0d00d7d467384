//! Endgame knowledge: the positions where counting material is simply wrong.
//!
//! Two kinds of answer. `Exact`: the value of the position is known, so it
//! replaces the evaluation (theoretical draws, and won endings where the
//! signal is progress: the defending king driven to the edge, to a corner, to
//! the right corner). `Scale`: the evaluation is right about who is better but
//! wrong about whether it can be converted.
use vstd::prelude::*;
use crate::bitboard::{count, lsb, popcount, sq_in, Bitboard, DARK_SQUARES, FILE_A, LIGHT_SQUARES};
use crate::board::Board;
use crate::movegen::lemma_single_and;
use crate::types::{color_index, file_of, opposite, piece_index, rank_of, Color, PieceType, Square};

verus! {

/// Large enough to dominate any ordinary evaluation, small enough to stay
/// clear of mate scores.
pub const KNOWN_WIN: i32 = 10_000;
pub const SCALE_NORMAL: i32 = 128;
pub const SCALE_DRAW: i32 = 0;

#[derive(Copy, Clone, PartialEq, Eq, Debug, Structural)]
pub enum Verdict {
    /// Score from the strong side's point of view.
    Exact(i32),
    /// Multiplier over `SCALE_NORMAL` applied to the normal evaluation.
    Scale(i32),
}

/// How many pieces of kind `p` colour `c` has.
pub open spec fn cnt(b: Board, c: Color, p: PieceType) -> int {
    popcount(b.pieces[color_index(c)][piece_index(p)]) as int
}

/// The square of `c`'s king.
pub open spec fn king_at(b: Board, c: Color) -> int {
    lsb(b.pieces[color_index(c)][5])
}

/// Both kings are on the board.
pub open spec fn has_kings(b: Board) -> bool {
    b.pieces[0][5] != 0 && b.pieces[1][5] != 0
}

pub open spec fn abs_int(x: int) -> int {
    if x < 0 {
        -x
    } else {
        x
    }
}

pub open spec fn min_int(a: int, b: int) -> int {
    if a <= b {
        a
    } else {
        b
    }
}

/// King distance between two squares.
pub open spec fn chebyshev_spec(a: int, b: int) -> int {
    let dr = abs_int(a / 8 - b / 8);
    let df = abs_int(a % 8 - b % 8);
    if dr >= df {
        dr
    } else {
        df
    }
}

/// Distance of a square's rank from the nearer board edge, and of its file.
pub open spec fn rank_edge(s: int) -> int {
    min_int(s / 8, 7 - s / 8)
}

pub open spec fn file_edge(s: int) -> int {
    min_int(s % 8, 7 - s % 8)
}

pub open spec fn push_close_spec(a: int, b: int) -> int {
    7 - chebyshev_spec(a, b)
}

pub open spec fn push_to_edge_spec(s: int) -> int {
    3 - min_int(rank_edge(s), file_edge(s))
}

pub open spec fn push_to_corner_spec(s: int) -> int {
    6 - rank_edge(s) - file_edge(s)
}

/// Nearness to a corner of one colour: a1/h8 for dark, a8/h1 for light.
pub open spec fn push_to_coloured_corner_spec(s: int, dark: bool) -> int {
    let d = abs_int(7 - s / 8 - s % 8);
    7 - if dark {
        7 - d
    } else {
        d
    }
}

pub open spec fn is_dark_spec(s: int) -> bool {
    sq_in(DARK_SQUARES, s)
}

/// The bishops stand on squares of both colours.
pub open spec fn two_colours(bishops: u64) -> bool {
    (bishops & LIGHT_SQUARES) != 0 && (bishops & DARK_SQUARES) != 0
}

/// Queen or rook mates alone, bishop and knight mate, two bishops mate on
/// different colours; two knights and anything less do not.
pub open spec fn can_mate_spec(b: Board, strong: Color) -> bool {
    cnt(b, strong, PieceType::Queen) > 0 || cnt(b, strong, PieceType::Rook) > 0 || (cnt(
        b,
        strong,
        PieceType::Bishop,
    ) > 0 && cnt(b, strong, PieceType::Knight) > 0) || two_colours(
        b.pieces[color_index(strong)][2],
    )
}

pub open spec fn kx_vs_k_spec(b: Board, strong: Color, eg: int) -> int {
    let ours = king_at(b, strong);
    let theirs = king_at(b, opposite(strong));
    eg + 20 * push_close_spec(ours, theirs) + 20 * push_to_corner_spec(theirs) + if can_mate_spec(
        b,
        strong,
    ) {
        KNOWN_WIN as int
    } else {
        0
    }
}

pub open spec fn kbn_vs_k_spec(b: Board, strong: Color) -> int {
    let bishop = lsb(b.pieces[color_index(strong)][2]);
    let ours = king_at(b, strong);
    let theirs = king_at(b, opposite(strong));
    KNOWN_WIN + 20 * push_close_spec(ours, theirs) + 70 * push_to_edge_spec(theirs) + 200
        * push_to_coloured_corner_spec(theirs, is_dark_spec(bishop))
}

pub open spec fn kr_vs_kn_spec(b: Board, strong: Color) -> int {
    let knight = lsb(b.pieces[color_index(opposite(strong))][1]);
    let theirs = king_at(b, opposite(strong));
    10 * push_to_edge_spec(theirs) + 15 * chebyshev_spec(theirs, knight)
}

/// Square `s` lies on the way of `weak`'s pawn on `p` to its promotion square.
pub open spec fn on_pawn_path(weak: Color, p: int, s: int) -> bool {
    0 <= s < 64 && s % 8 == p % 8 && if weak == Color::White {
        s / 8 > p / 8
    } else {
        s / 8 < p / 8
    }
}

pub open spec fn kq_vs_kp_spec(b: Board, strong: Color, q_minus_p: int) -> int {
    let weak = opposite(strong);
    let queen = lsb(b.pieces[color_index(strong)][4]);
    let pawn = lsb(b.pieces[color_index(weak)][0]);
    let ours = king_at(b, strong);
    let blocked = on_pawn_path(weak, pawn, queen) || on_pawn_path(weak, pawn, ours);
    let rel_rank = if weak == Color::White {
        pawn / 8
    } else {
        7 - pawn / 8
    };
    let f = pawn % 8;
    let central_or_knight_file = f == 1 || f == 3 || f == 4 || f == 6;
    20 * push_close_spec(ours, pawn) + (if blocked {
        KNOWN_WIN as int
    } else {
        0
    }) + if rel_rank < 6 || central_or_knight_file || blocked {
        q_minus_p
    } else {
        0
    }
}

pub open spec fn kq_vs_kr_spec(b: Board, strong: Color, eg: int) -> int {
    let ours = king_at(b, strong);
    let theirs = king_at(b, opposite(strong));
    eg + 20 * push_close_spec(ours, theirs) + 20 * push_to_corner_spec(theirs)
}

/// Not every pawn on the a-file and not every pawn on the h-file.
pub open spec fn pawns_off_rook_file(pawns: u64) -> bool {
    pawns & !FILE_A != 0 && pawns & !(FILE_A << 7u64) != 0
}

/// The square where `strong`'s lowest pawn promotes.
pub open spec fn queening_square(strong: Color, pawns: u64) -> int {
    (if strong == Color::White {
        7int
    } else {
        0
    }) * 8 + lsb(pawns) % 8
}

pub open spec fn kps_vs_k_spec(b: Board, strong: Color) -> int {
    let pawns = b.pieces[color_index(strong)][0];
    if pawns_off_rook_file(pawns) {
        SCALE_NORMAL as int
    } else if chebyshev_spec(king_at(b, opposite(strong)), queening_square(strong, pawns)) <= 1 {
        SCALE_DRAW as int
    } else {
        SCALE_NORMAL as int
    }
}

pub open spec fn kbps_vs_k_spec(b: Board, strong: Color) -> int {
    let pawns = b.pieces[color_index(strong)][0];
    let bishop = lsb(b.pieces[color_index(strong)][2]);
    let q = queening_square(strong, pawns);
    if pawns_off_rook_file(pawns) {
        SCALE_NORMAL as int
    } else if is_dark_spec(q) != is_dark_spec(bishop) && chebyshev_spec(
        king_at(b, opposite(strong)),
        q,
    ) <= 1 {
        SCALE_DRAW as int
    } else {
        SCALE_NORMAL as int
    }
}

/// What is known of the endgame with `strong` as the side with the material.
pub open spec fn probe_side_spec(b: Board, strong: Color, eg_white: int, q_minus_p: int) -> Option<Verdict> {
    let weak = opposite(strong);
    let sp = cnt(b, strong, PieceType::Pawn);
    let sn = cnt(b, strong, PieceType::Knight);
    let sb = cnt(b, strong, PieceType::Bishop);
    let sr = cnt(b, strong, PieceType::Rook);
    let sq = cnt(b, strong, PieceType::Queen);
    let wp = cnt(b, weak, PieceType::Pawn);
    let wn = cnt(b, weak, PieceType::Knight);
    let wb = cnt(b, weak, PieceType::Bishop);
    let wr = cnt(b, weak, PieceType::Rook);
    let wq = cnt(b, weak, PieceType::Queen);
    let eg = if strong == Color::White {
        eg_white
    } else {
        -eg_white
    };
    let weak_bare = wp + wn + wb + wr + wq == 0;
    let only_minors = weak_bare && sp == 0 && sr == 0 && sq == 0 && sn + sb <= 2;
    if only_minors && sb == 1 && sn == 1 {
        Some(Verdict::Exact(kbn_vs_k_spec(b, strong) as i32))
    } else if only_minors && !two_colours(b.pieces[color_index(strong)][2]) {
        Some(Verdict::Exact(0))
    } else if sp == 0 && wp == 0 && sr == 0 && wr == 0 && sq == 0 && wq == 0 && sn + sb <= 1 && wn + wb
        <= 1 && sn + sb + wn + wb > 0 {
        Some(Verdict::Exact(0))
    } else if weak_bare && sq == 1 && sr == 0 && sb == 0 && sn == 0 && sp == 0 {
        Some(Verdict::Exact(kx_vs_k_spec(b, strong, eg) as i32))
    } else if weak_bare && sp > 0 && sn == 0 && sb == 0 && sr == 0 && sq == 0 {
        Some(Verdict::Scale(kps_vs_k_spec(b, strong) as i32))
    } else if weak_bare && sp > 0 && sb == 1 && sn == 0 && sr == 0 && sq == 0 {
        Some(Verdict::Scale(kbps_vs_k_spec(b, strong) as i32))
    } else if weak_bare && sp == 0 {
        Some(Verdict::Exact(kx_vs_k_spec(b, strong, eg) as i32))
    } else if sr == 1 && sq == 0 && sb == 0 && sn == 0 && sp == 0 && wn == 1 && wq == 0 && wr == 0 && wb == 0
        && wp == 0 {
        Some(Verdict::Exact(kr_vs_kn_spec(b, strong) as i32))
    } else if sq == 1 && sr == 0 && sb == 0 && sn == 0 && sp == 0 && wp == 1 && wn == 0 && wb == 0 && wr == 0
        && wq == 0 {
        Some(Verdict::Exact(kq_vs_kp_spec(b, strong, q_minus_p) as i32))
    } else if sq == 1 && sr == 0 && sb == 0 && sn == 0 && sp == 0 && wr == 1 && wn == 0 && wb == 0 && wq == 0
        && wp == 0 {
        Some(Verdict::Exact(kq_vs_kr_spec(b, strong, eg) as i32))
    } else {
        None
    }
}

/// White is tried as the strong side first, then Black.
pub open spec fn probe_spec(b: Board, eg_white: int, q_minus_p: int) -> Option<(Color, Verdict)> {
    match probe_side_spec(b, Color::White, eg_white, q_minus_p) {
        Some(v) => Some((Color::White, v)),
        None => match probe_side_spec(b, Color::Black, eg_white, q_minus_p) {
            Some(v) => Some((Color::Black, v)),
            None => None,
        },
    }
}

/// The tie-break that drives the losing king to the edge and brings ours up,
/// from White's point of view.
pub open spec fn conversion_drive_spec(b: Board, eg_white: int) -> int {
    let strong = if eg_white >= 0 {
        Color::White
    } else {
        Color::Black
    };
    let adv = abs_int(eg_white);
    let weak = opposite(strong);
    if adv < 800 || cnt(b, weak, PieceType::Queen) > 0 {
        0
    } else {
        let v = 24 * push_close_spec(king_at(b, strong), king_at(b, weak)) + 16 * push_to_edge_spec(
            king_at(b, weak),
        );
        if strong == Color::White {
            v
        } else {
            -v
        }
    }
}

fn n(board: &Board, c: Color, pt: PieceType) -> (r: u32)
    ensures
        r == cnt(*board, c, pt),
        r <= 64,
{
    count(board.pieces[c.idx()][pt.idx()])
}

fn abs_i32(x: i32) -> (r: i32)
    requires
        x > i32::MIN,
    ensures
        r == abs_int(x as int),
{
    if x < 0 {
        -x
    } else {
        x
    }
}

fn chebyshev(a: Square, b: Square) -> (r: i32)
    requires
        a < 64,
        b < 64,
    ensures
        r == chebyshev_spec(a as int, b as int),
        0 <= r <= 7,
{
    let dr = abs_i32(rank_of(a) as i32 - rank_of(b) as i32);
    let df = abs_i32(file_of(a) as i32 - file_of(b) as i32);
    if dr >= df {
        dr
    } else {
        df
    }
}

/// Bigger the closer two squares are.
fn push_close(a: Square, b: Square) -> (r: i32)
    requires
        a < 64,
        b < 64,
    ensures
        r == push_close_spec(a as int, b as int),
        0 <= r <= 7,
{
    7 - chebyshev(a, b)
}

/// Bigger the further apart.
fn push_away(a: Square, b: Square) -> (r: i32)
    requires
        a < 64,
        b < 64,
    ensures
        r == chebyshev_spec(a as int, b as int),
        0 <= r <= 7,
{
    chebyshev(a, b)
}

fn edge_dists(s: Square) -> (r: (i32, i32))
    requires
        s < 64,
    ensures
        r.0 == rank_edge(s as int),
        r.1 == file_edge(s as int),
        0 <= r.0 <= 3,
        0 <= r.1 <= 3,
{
    let r = rank_of(s);
    let f = file_of(s);
    let rd = if r <= 7 - r {
        r
    } else {
        7 - r
    };
    let fd = if f <= 7 - f {
        f
    } else {
        7 - f
    };
    (rd as i32, fd as i32)
}

/// Bigger the nearer the edge.
fn push_to_edge(s: Square) -> (r: i32)
    requires
        s < 64,
    ensures
        r == push_to_edge_spec(s as int),
        0 <= r <= 3,
{
    let (rd, fd) = edge_dists(s);
    3 - if rd <= fd {
        rd
    } else {
        fd
    }
}

/// Bigger the nearer any corner.
fn push_to_corner(s: Square) -> (r: i32)
    requires
        s < 64,
    ensures
        r == push_to_corner_spec(s as int),
        0 <= r <= 6,
{
    let (rd, fd) = edge_dists(s);
    6 - rd - fd
}

/// Bigger the nearer the corner of one colour: bishop and knight mate only
/// in a corner the bishop covers.
fn push_to_coloured_corner(s: Square, dark: bool) -> (r: i32)
    requires
        s < 64,
    ensures
        r == push_to_coloured_corner_spec(s as int, dark),
        0 <= r <= 7,
{
    let d = abs_i32(7 - rank_of(s) as i32 - file_of(s) as i32);
    7 - if dark {
        7 - d
    } else {
        d
    }
}

fn is_dark(s: Square) -> (r: bool)
    requires
        s < 64,
    ensures
        r == is_dark_spec(s as int),
{
    proof {
        lemma_single_and(DARK_SQUARES, s);
    }
    (1u64 << s) & DARK_SQUARES != 0
}

/// The lowest square of a non-empty set.
pub(crate) fn low_square(x: Bitboard) -> (r: Square)
    requires
        x != 0,
    ensures
        r == lsb(x),
        r < 64,
{
    proof {
        crate::bitboard::lemma_lsb(x);
    }
    x.trailing_zeros() as Square
}

fn king_of(board: &Board, c: Color) -> (r: Square)
    requires
        has_kings(*board),
    ensures
        r == king_at(*board, c),
        r < 64,
{
    low_square(board.pieces[c.idx()][PieceType::King.idx()])
}

fn material_can_mate(board: &Board, strong: Color) -> (r: bool)
    ensures
        r == can_mate_spec(*board, strong),
{
    let q = n(board, strong, PieceType::Queen);
    let r = n(board, strong, PieceType::Rook);
    let b = n(board, strong, PieceType::Bishop);
    let kn = n(board, strong, PieceType::Knight);
    let bishops = board.pieces[strong.idx()][PieceType::Bishop.idx()];
    q > 0 || r > 0 || (b > 0 && kn > 0) || ((bishops & LIGHT_SQUARES) != 0 && (bishops & DARK_SQUARES)
        != 0)
}

/// Anything against a lone king: the known-win bonus only when the pieces
/// can deliver mate.
fn eval_kx_vs_k(board: &Board, strong: Color, eg_material: i32) -> (r: i32)
    requires
        has_kings(*board),
        eg_material + 10260 <= i32::MAX,
    ensures
        r == kx_vs_k_spec(*board, strong, eg_material as int),
{
    let our_king = king_of(board, strong);
    let their_king = king_of(board, strong.opp());
    let mut score = eg_material + 20 * push_close(our_king, their_king) + 20 * push_to_corner(their_king);
    if material_can_mate(board, strong) {
        score += KNOWN_WIN;
    }
    score
}

/// Bishop and knight against a lone king: won, but only into the corner the
/// bishop covers.
fn eval_kbn_vs_k(board: &Board, strong: Color) -> (r: i32)
    requires
        has_kings(*board),
        cnt(*board, strong, PieceType::Bishop) == 1,
    ensures
        r == kbn_vs_k_spec(*board, strong),
{
    proof {
        crate::bitboard::lemma_popcount_zero(board.pieces[color_index(strong)][2]);
    }
    let bishop = low_square(board.pieces[strong.idx()][PieceType::Bishop.idx()]);
    let our_king = king_of(board, strong);
    let their_king = king_of(board, strong.opp());
    KNOWN_WIN + 20 * push_close(our_king, their_king) + 70 * push_to_edge(their_king) + 200
        * push_to_coloured_corner(their_king, is_dark(bishop))
}

/// Rook against knight: held, not won; progress is separating the knight
/// from its king and pushing the king to the edge.
fn eval_kr_vs_kn(board: &Board, strong: Color) -> (r: i32)
    requires
        has_kings(*board),
        cnt(*board, opposite(strong), PieceType::Knight) == 1,
    ensures
        r == kr_vs_kn_spec(*board, strong),
{
    proof {
        crate::bitboard::lemma_popcount_zero(board.pieces[color_index(opposite(strong))][1]);
    }
    let knight = low_square(board.pieces[strong.opp().idx()][PieceType::Knight.idx()]);
    let their_king = king_of(board, strong.opp());
    10 * push_to_edge(their_king) + 15 * push_away(their_king, knight)
}

/// The squares the pawn on `pawn` of colour `weak` still has to cross.
fn pawn_path(weak: Color, pawn: Square) -> (path: Bitboard)
    requires
        pawn < 64,
    ensures
        forall|s: int| #![auto] sq_in(path, s) <==> on_pawn_path(weak, pawn as int, s),
{
    broadcast use crate::bitboard::group_bitboard;

    let file = file_of(pawn);
    let mut path: Bitboard = 0;
    if weak == Color::White {
        let mut r: u8 = rank_of(pawn) + 1;
        while r <= 7
            invariant
                pawn < 64,
                file == pawn % 8,
                weak == Color::White,
                pawn / 8 + 1 <= r <= 8,
                forall|s: int| #![auto] sq_in(path, s) <==> (on_pawn_path(weak, pawn as int, s) && s / 8 < r),
            decreases 8 - r,
        {
            let bit: u64 = (r * 8 + file) as u64;
            let ghost prev = path;
            path = path | (1u64 << bit);
            assert forall|s: int| #![auto] sq_in(path, s) <==> (on_pawn_path(weak, pawn as int, s) && s / 8 < r + 1) by {
                crate::bitboard::lemma_sq_in_or(prev, 1u64 << bit, s);
                crate::bitboard::lemma_sq_in_single(bit, s);
            }
            r = r + 1;
        }
    } else {
        let mut r: u8 = 0;
        while r < rank_of(pawn)
            invariant
                pawn < 64,
                file == pawn % 8,
                weak == Color::Black,
                r <= pawn / 8,
                forall|s: int| #![auto] sq_in(path, s) <==> (on_pawn_path(weak, pawn as int, s) && s / 8 < r),
            decreases pawn / 8 - r,
        {
            let bit: u64 = (r * 8 + file) as u64;
            let ghost prev = path;
            path = path | (1u64 << bit);
            assert forall|s: int| #![auto] sq_in(path, s) <==> (on_pawn_path(weak, pawn as int, s) && s / 8 < r + 1) by {
                crate::bitboard::lemma_sq_in_or(prev, 1u64 << bit, s);
                crate::bitboard::lemma_sq_in_single(bit, s);
            }
            r = r + 1;
        }
    }
    path
}

/// Queen against a pawn: won, except a rook or bishop pawn one step from
/// queening that the queen does not stand in front of.
fn eval_kq_vs_kp(board: &Board, strong: Color, q_minus_p: i32) -> (r: i32)
    requires
        has_kings(*board),
        cnt(*board, strong, PieceType::Queen) == 1,
        cnt(*board, opposite(strong), PieceType::Pawn) == 1,
        q_minus_p + 10140 <= i32::MAX,
    ensures
        r == kq_vs_kp_spec(*board, strong, q_minus_p as int),
{
    proof {
        crate::bitboard::lemma_popcount_zero(board.pieces[color_index(strong)][4]);
        crate::bitboard::lemma_popcount_zero(board.pieces[color_index(opposite(strong))][0]);
    }
    let weak = strong.opp();
    let queen = low_square(board.pieces[strong.idx()][PieceType::Queen.idx()]);
    let pawn = low_square(board.pieces[weak.idx()][PieceType::Pawn.idx()]);
    let our_king = king_of(board, strong);
    let mut score = 20 * push_close(our_king, pawn);
    let file = file_of(pawn);
    let path = pawn_path(weak, pawn);
    proof {
        lemma_single_and(path, queen);
        lemma_single_and(path, our_king);
    }
    let blocked = (path & (1u64 << queen)) != 0 || (path & (1u64 << our_king)) != 0;
    if blocked {
        score += KNOWN_WIN;
    }
    let rel_rank = if weak == Color::White {
        rank_of(pawn)
    } else {
        7 - rank_of(pawn)
    };
    let central_or_knight_file = file == 1 || file == 3 || file == 4 || file == 6;
    if rel_rank < 6 || central_or_knight_file || blocked {
        score += q_minus_p;
    }
    score
}

/// Queen against rook: bring the king up and squeeze the defender to a corner.
fn eval_kq_vs_kr(board: &Board, strong: Color, eg_material: i32) -> (r: i32)
    requires
        has_kings(*board),
        eg_material + 260 <= i32::MAX,
    ensures
        r == kq_vs_kr_spec(*board, strong, eg_material as int),
{
    let our_king = king_of(board, strong);
    let their_king = king_of(board, strong.opp());
    eg_material + 20 * push_close(our_king, their_king) + 20 * push_to_corner(their_king)
}

fn file_bb(f: u8) -> (r: Bitboard)
    requires
        f < 8,
    ensures
        r == FILE_A << f,
{
    FILE_A << f
}

/// Pawns against a lone king, all on one rook file: drawn if the defending
/// king reaches the promotion square.
fn scale_kps_vs_k(board: &Board, strong: Color) -> (r: i32)
    requires
        has_kings(*board),
        cnt(*board, strong, PieceType::Pawn) > 0,
    ensures
        r == kps_vs_k_spec(*board, strong),
{
    proof {
        crate::bitboard::lemma_popcount_zero(board.pieces[color_index(strong)][0]);
    }
    let pawns = board.pieces[strong.idx()][PieceType::Pawn.idx()];
    if pawns & !FILE_A != 0 && pawns & !file_bb(7) != 0 {
        return SCALE_NORMAL;
    }
    let queening_rank: u8 = if strong == Color::White {
        7
    } else {
        0
    };
    let f = file_of(low_square(pawns));
    let queening_sq = (queening_rank * 8 + f) as Square;
    if chebyshev(king_of(board, strong.opp()), queening_sq) <= 1 {
        return SCALE_DRAW;
    }
    SCALE_NORMAL
}

/// Bishop and rook-file pawns against a lone king: drawn if the bishop does
/// not cover the promotion square and the defending king sits on it.
fn scale_kbps_vs_k(board: &Board, strong: Color) -> (r: i32)
    requires
        has_kings(*board),
        cnt(*board, strong, PieceType::Pawn) > 0,
        cnt(*board, strong, PieceType::Bishop) == 1,
    ensures
        r == kbps_vs_k_spec(*board, strong),
{
    proof {
        crate::bitboard::lemma_popcount_zero(board.pieces[color_index(strong)][0]);
        crate::bitboard::lemma_popcount_zero(board.pieces[color_index(strong)][2]);
    }
    let pawns = board.pieces[strong.idx()][PieceType::Pawn.idx()];
    if pawns & !FILE_A != 0 && pawns & !file_bb(7) != 0 {
        return SCALE_NORMAL;
    }
    let bishop = low_square(board.pieces[strong.idx()][PieceType::Bishop.idx()]);
    let queening_rank: u8 = if strong == Color::White {
        7
    } else {
        0
    };
    let f = file_of(low_square(pawns));
    let queening_sq = (queening_rank * 8 + f) as Square;
    if is_dark(queening_sq) != is_dark(bishop) && chebyshev(king_of(board, strong.opp()), queening_sq) <= 1 {
        return SCALE_DRAW;
    }
    SCALE_NORMAL
}

/// Push the losing king to the edge and bring ours up once the material is
/// decisive (past a rook and a minor) and the loser has no queen: a small
/// tie-break among winning moves, from White's point of view.
pub fn conversion_drive(board: &Board, eg_material_white: i32) -> (r: i32)
    requires
        has_kings(*board),
        eg_material_white > i32::MIN,
    ensures
        r == conversion_drive_spec(*board, eg_material_white as int),
{
    let decisive: i32 = 800;
    let (strong, adv) = if eg_material_white >= 0 {
        (Color::White, eg_material_white)
    } else {
        (Color::Black, -eg_material_white)
    };
    if adv < decisive {
        return 0;
    }
    let weak = strong.opp();
    if n(board, weak, PieceType::Queen) > 0 {
        return 0;
    }
    let v = 24 * push_close(king_of(board, strong), king_of(board, weak)) + 16 * push_to_edge(
        king_of(board, weak),
    );
    if strong == Color::White {
        v
    } else {
        -v
    }
}

/// What is known with `strong` as the side with the material.
fn probe_side(board: &Board, strong: Color, eg_material_white: i32, q_minus_p: i32) -> (r: Option<Verdict>)
    requires
        has_kings(*board),
        -(i32::MAX - 10260) <= eg_material_white <= i32::MAX - 10260,
        q_minus_p + 10140 <= i32::MAX,
    ensures
        r == probe_side_spec(*board, strong, eg_material_white as int, q_minus_p as int),
{
    let weak = strong.opp();
    let sp = n(board, strong, PieceType::Pawn);
    let sn = n(board, strong, PieceType::Knight);
    let sb = n(board, strong, PieceType::Bishop);
    let sr = n(board, strong, PieceType::Rook);
    let sq = n(board, strong, PieceType::Queen);
    let wp = n(board, weak, PieceType::Pawn);
    let wn = n(board, weak, PieceType::Knight);
    let wb = n(board, weak, PieceType::Bishop);
    let wr = n(board, weak, PieceType::Rook);
    let wq = n(board, weak, PieceType::Queen);
    let eg_mat = if strong == Color::White {
        eg_material_white
    } else {
        -eg_material_white
    };
    let weak_bare = wp + wn + wb + wr + wq == 0;
    if weak_bare && sp == 0 && sr == 0 && sq == 0 && (sn + sb) <= 2 {
        let bishops = board.pieces[strong.idx()][PieceType::Bishop.idx()];
        let two = (bishops & LIGHT_SQUARES) != 0 && (bishops & DARK_SQUARES) != 0;
        if sb == 1 && sn == 1 {
            return Some(Verdict::Exact(eval_kbn_vs_k(board, strong)));
        }
        if !two {
            return Some(Verdict::Exact(0));
        }
    }
    if sp == 0 && wp == 0 && sr == 0 && wr == 0 && sq == 0 && wq == 0 && (sn + sb) <= 1 && (wn + wb) <= 1
        && (sn + sb + wn + wb) > 0 {
        return Some(Verdict::Exact(0));
    }
    if weak_bare {
        if sq == 1 && sr == 0 && sb == 0 && sn == 0 && sp == 0 {
            return Some(Verdict::Exact(eval_kx_vs_k(board, strong, eg_mat)));
        }
        if sp > 0 && sn == 0 && sb == 0 && sr == 0 && sq == 0 {
            return Some(Verdict::Scale(scale_kps_vs_k(board, strong)));
        }
        if sp > 0 && sb == 1 && sn == 0 && sr == 0 && sq == 0 {
            return Some(Verdict::Scale(scale_kbps_vs_k(board, strong)));
        }
        if sp == 0 {
            return Some(Verdict::Exact(eval_kx_vs_k(board, strong, eg_mat)));
        }
    }
    if sr == 1 && sq == 0 && sb == 0 && sn == 0 && sp == 0 && wn == 1 && wq == 0 && wr == 0 && wb == 0 && wp
        == 0 {
        return Some(Verdict::Exact(eval_kr_vs_kn(board, strong)));
    }
    if sq == 1 && sr == 0 && sb == 0 && sn == 0 && sp == 0 && wp == 1 && wn == 0 && wb == 0 && wr == 0 && wq
        == 0 {
        return Some(Verdict::Exact(eval_kq_vs_kp(board, strong, q_minus_p)));
    }
    if sq == 1 && sr == 0 && sb == 0 && sn == 0 && sp == 0 && wr == 1 && wn == 0 && wb == 0 && wq == 0 && wp
        == 0 {
        return Some(Verdict::Exact(eval_kq_vs_kr(board, strong, eg_mat)));
    }
    None
}

/// Which side, if either, has the material, and what is known about the
/// resulting endgame: White is tried as the strong side first, then Black.
pub fn probe(board: &Board, eg_material_white: i32, q_minus_p: i32) -> (r: Option<(Color, Verdict)>)
    requires
        has_kings(*board),
        -(i32::MAX - 10260) <= eg_material_white <= i32::MAX - 10260,
        q_minus_p + 10140 <= i32::MAX,
    ensures
        r == probe_spec(*board, eg_material_white as int, q_minus_p as int),
{
    match probe_side(board, Color::White, eg_material_white, q_minus_p) {
        Some(v) => Some((Color::White, v)),
        None => match probe_side(board, Color::Black, eg_material_white, q_minus_p) {
            Some(v) => Some((Color::Black, v)),
            None => None,
        },
    }
}


/// Bishop and knight mate only in a corner the bishop covers. With the lone
/// king in a corner, the score is the win, the kings' nearness, the full edge
/// term, and the full corner term (1400) exactly when that corner has the
/// colour of the bishop's square; a corner of the other colour gives nothing.
pub proof fn lemma_kbn_bishop_corner(b: Board, strong: Color)
    requires
        b.pieces[color_index(strong)][2] != 0,
        b.pieces[color_index(opposite(strong))][5] != 0,
        ({
            let k = king_at(b, opposite(strong));
            k == 0 || k == 7 || k == 56 || k == 63
        }),
    ensures
        ({
            let bishop = lsb(b.pieces[color_index(strong)][2]);
            let theirs = king_at(b, opposite(strong));
            let same_colour = (bishop / 8 + bishop % 8) % 2 == (theirs / 8 + theirs % 8) % 2;
            kbn_vs_k_spec(b, strong) == KNOWN_WIN + 20 * (7 - chebyshev_spec(king_at(b, strong), theirs)) + 210 + if same_colour {
                1400int
            } else {
                0int
            }
        }),
{
    let bishop = lsb(b.pieces[color_index(strong)][2]);
    crate::bitboard::lemma_lsb(b.pieces[color_index(strong)][2]);
    crate::bitboard::lemma_masks(bishop as u64);
}

} // verus!
