//! The position: bitboards per colour and piece, a mailbox, the state that is
//! not pieces, and the Zobrist key, all kept in step by `make_move`.
use vstd::prelude::*;
use crate::attacks::{
    Attacks, bishop_attacks, rook_attacks, bishop_spec, rook_spec, pawn_spec, knight_spec,
    king_spec,
};
use crate::bitboard::{Bitboard, bb, sq_in, group_bitboard, lemma_bits_equal, lemma_lsb};
use crate::moves::{Move, MoveFlag};
use crate::types::{
    Color, PieceType, Square, NO_SQUARE, color_index, piece_index, opposite, piece_of_index,
    color_of_index, file_of,
};
use crate::zobrist::{
    piece_key, side_key, castling_key, ep_key, piece_key_spec, side_key_spec, castling_key_spec,
    ep_key_spec,
};

verus! {


pub const CASTLE_WK: u8 = 1;
pub const CASTLE_WQ: u8 = 2;
pub const CASTLE_BK: u8 = 4;
pub const CASTLE_BQ: u8 = 8;

pub type Mailbox = [Option<(PieceType, Color)>; 64];

#[derive(Copy, Clone)]
pub struct Board {
    /// [color][piece_type]
    pub pieces: [[Bitboard; 6]; 2],
    pub occ_color: [Bitboard; 2],
    pub occ_all: Bitboard,
    pub side: Color,
    /// How many moves deep the current line is: up with every move, down with every unmake.
    pub prof_acc: usize,
    pub castling: u8,
    pub ep_square: Square,
    pub halfmove: u32,
    pub fullmove: u32,
    /// Zobrist key of the position, kept up to date move by move.
    pub hash: u64,
    /// What stands on each square.
    pub mailbox: Mailbox,
}

#[derive(Copy, Clone)]
pub struct Undo {
    pub captured: Option<(PieceType, Color)>,
    pub castling: u8,
    pub ep_square: Square,
    pub halfmove: u32,
    pub hash: u64,
}

/// What a null move changes: the en passant square and the key.
#[derive(Copy, Clone)]
pub struct NullUndo {
    pub ep_square: Square,
    pub hash: u64,
}

/// The key contribution of what stands on square `s`.
pub open spec fn square_key(mb: Mailbox, s: int) -> u64 {
    match mb[s] {
        Some((p, c)) => piece_key_spec(c, p, s),
        None => 0,
    }
}

/// The XOR of the keys of the pieces on squares `0..n`.
pub open spec fn pieces_hash(mb: Mailbox, n: nat) -> u64
    decreases n,
{
    if n == 0 {
        0
    } else {
        pieces_hash(mb, (n - 1) as nat) ^ square_key(mb, n - 1)
    }
}

/// The key contribution of the side to move, the castling rights and the en passant file.
pub open spec fn state_hash(side: Color, castling: u8, ep: Square) -> u64 {
    (if side == Color::Black {
        side_key_spec()
    } else {
        0u64
    }) ^ castling_key_spec((castling & 15u8) as int) ^ (if ep < 64 {
        ep_key_spec((ep % 8) as int)
    } else {
        0u64
    })
}

pub open spec fn full_hash(b: Board) -> u64 {
    pieces_hash(b.mailbox, 64) ^ state_hash(b.side, b.castling, b.ep_square)
}

/// The bitboards say exactly what the mailbox says.
pub open spec fn pieces_consistent(b: Board) -> bool {
    &&& forall|c: int, p: int, s: int|
        0 <= c < 2 && 0 <= p < 6 && 0 <= s < 64 ==> (#[trigger] sq_in(b.pieces[c][p], s) <==> b.mailbox[s]
            == Some((piece_of_index(p), color_of_index(c))))
    &&& forall|c: int, s: int|
        0 <= c < 2 && 0 <= s < 64 ==> (#[trigger] sq_in(b.occ_color[c], s) <==> (b.mailbox[s] matches Some((_, cc))
            && cc == color_of_index(c)))
    &&& forall|s: int| 0 <= s < 64 ==> (#[trigger] sq_in(b.occ_all, s) <==> b.mailbox[s] is Some)
}

pub proof fn lemma_xor(a: u64, b: u64, c: u64)
    by (bit_vector)
    ensures
        (a ^ b) ^ c == a ^ (b ^ c),
        a ^ b == b ^ a,
        a ^ 0 == a,
        a ^ a == 0,
        (a & 15u64) < 16,
{
}

pub proof fn lemma_u8_low(c: u8)
    by (bit_vector)
    ensures
        (c & 15u8) < 16,
{
}

/// Changing one square of the mailbox changes the pieces' key by the two keys of that square.
pub proof fn lemma_pieces_hash_change(m1: Mailbox, m2: Mailbox, s: int, n: nat)
    requires
        0 <= s < 64,
        n <= 64,
        forall|t: int| 0 <= t < 64 && t != s ==> m1[t] == m2[t],
    ensures
        pieces_hash(m2, n) == (if s < n {
            pieces_hash(m1, n) ^ (square_key(m1, s) ^ square_key(m2, s))
        } else {
            pieces_hash(m1, n)
        }),
    decreases n,
{
    if n > 0 {
        lemma_pieces_hash_change(m1, m2, s, (n - 1) as nat);
        let h1 = pieces_hash(m1, (n - 1) as nat);
        let d = square_key(m1, s) ^ square_key(m2, s);
        if s == n - 1 {
            lemma_xor(h1, square_key(m1, s), square_key(m2, s));
            lemma_xor(square_key(m1, s), square_key(m1, s), square_key(m2, s));
            lemma_xor(h1, 0, square_key(m2, s));
            lemma_xor(0, square_key(m2, s), 0);
            lemma_xor(h1 ^ square_key(m1, s), square_key(m1, s), square_key(m2, s));
            lemma_xor(h1, square_key(m1, s), square_key(m1, s) ^ square_key(m2, s));
        } else if s < n - 1 {
            lemma_xor(h1, d, square_key(m1, n - 1));
            lemma_xor(h1, square_key(m1, n - 1), d);
            lemma_xor(d, square_key(m1, n - 1), 0);
        }
    }
}

proof fn lemma_clear_bit(x: u64, s: int)
    requires
        0 <= s < 64,
    ensures
        forall|t: int| #[trigger] sq_in(x & !(1u64 << (s as u64)), t) <==> (sq_in(x, t) && t != s),
{
    broadcast use group_bitboard;
}

proof fn lemma_set_bit(x: u64, s: int)
    requires
        0 <= s < 64,
    ensures
        forall|t: int| #[trigger] sq_in(x | (1u64 << (s as u64)), t) <==> (sq_in(x, t) || t == s),
{
    broadcast use group_bitboard;
}

/// A change confined to one square keeps the bitboards and the mailbox in agreement
/// when every bitboard changed at that square exactly as the mailbox did.
proof fn lemma_consistent_after_change(old: Board, new: Board, s: int)
    requires
        pieces_consistent(old),
        0 <= s < 64,
        forall|t: int| 0 <= t < 64 && t != s ==> old.mailbox[t] == new.mailbox[t],
        forall|c: int, p: int, t: int|
            0 <= c < 2 && 0 <= p < 6 && 0 <= t < 64 ==> (#[trigger] sq_in(new.pieces[c][p], t)
                <==> (if t == s {
                new.mailbox[s] == Some((piece_of_index(p), color_of_index(c)))
            } else {
                sq_in(old.pieces[c][p], t)
            })),
        forall|c: int, t: int|
            0 <= c < 2 && 0 <= t < 64 ==> (#[trigger] sq_in(new.occ_color[c], t) <==> (if t == s {
                new.mailbox[s] matches Some((_, cc)) && cc == color_of_index(c)
            } else {
                sq_in(old.occ_color[c], t)
            })),
        forall|t: int|
            0 <= t < 64 ==> (#[trigger] sq_in(new.occ_all, t) <==> (if t == s {
                new.mailbox[s] is Some
            } else {
                sq_in(old.occ_all, t)
            })),
    ensures
        pieces_consistent(new),
{
    assert forall|c: int, p: int, t: int|
        0 <= c < 2 && 0 <= p < 6 && 0 <= t < 64 implies (#[trigger] sq_in(new.pieces[c][p], t)
        <==> new.mailbox[t] == Some((piece_of_index(p), color_of_index(c)))) by {
        assert(sq_in(old.pieces[c][p], t) <==> old.mailbox[t] == Some(
            (piece_of_index(p), color_of_index(c)),
        ));
    }
    assert forall|c: int, t: int| 0 <= c < 2 && 0 <= t < 64 implies (#[trigger] sq_in(
        new.occ_color[c],
        t,
    ) <==> (new.mailbox[t] matches Some((_, cc)) && cc == color_of_index(c))) by {
        assert(sq_in(old.occ_color[c], t) <==> (old.mailbox[t] matches Some((_, cc)) && cc
            == color_of_index(c)));
    }
    assert forall|t: int| 0 <= t < 64 implies (#[trigger] sq_in(new.occ_all, t)
        <==> new.mailbox[t] is Some) by {
        assert(sq_in(old.occ_all, t) <==> old.mailbox[t] is Some);
    }
}

/// The key moves with a one-square change when it is XORed with the square's two keys.
proof fn lemma_hash_after_change(old: Board, new: Board, s: int)
    requires
        old.hash == full_hash(old),
        0 <= s < 64,
        forall|t: int| 0 <= t < 64 && t != s ==> old.mailbox[t] == new.mailbox[t],
        new.side == old.side,
        new.castling == old.castling,
        new.ep_square == old.ep_square,
        new.hash == old.hash ^ (square_key(old.mailbox, s) ^ square_key(new.mailbox, s)),
    ensures
        new.hash == full_hash(new),
{
    lemma_pieces_hash_change(old.mailbox, new.mailbox, s, 64);
    let ph = pieces_hash(old.mailbox, 64);
    let st = state_hash(old.side, old.castling, old.ep_square);
    let d = square_key(old.mailbox, s) ^ square_key(new.mailbox, s);
    lemma_xor(ph, st, d);
    lemma_xor(st, d, 0);
    lemma_xor(ph, d, st);
}

impl Board {
    /// A position whose bitboards, mailbox and key agree.
    pub open spec fn wf(&self) -> bool {
        &&& pieces_consistent(*self)
        &&& self.hash == full_hash(*self)
        &&& self.ep_square <= 64
    }

    /// The bitboards and mailbox agree and the key is that of the pieces plus
    /// the non-piece state (what holds between the steps of a move).
    pub open spec fn wf_pieces(&self) -> bool {
        &&& pieces_consistent(*self)
        &&& self.hash == full_hash(*self)
    }

    pub fn piece_at(&self, s: Square) -> (r: Option<(PieceType, Color)>)
        requires
            s < 64,
        ensures
            r == self.mailbox[s as int],
    {
        self.mailbox[s as usize]
    }

    /// The square of `color`'s king (64 if it has none).
    pub fn king_sq(&self, color: Color) -> (r: Square)
        ensures
            r == self.pieces[color_index(color)][5].trailing_zeros(),
            r <= 64,
            self.pieces[color_index(color)][5] != 0 ==> r < 64 && sq_in(
                self.pieces[color_index(color)][5],
                r as int,
            ),
    {
        let k = self.pieces[color.idx()][PieceType::King.idx()];
        proof {
            vstd::std_specs::bits::axiom_u64_trailing_zeros(k);
            if k != 0 {
                lemma_lsb(k);
            }
        }
        k.trailing_zeros() as Square
    }

    fn remove_piece(&mut self, pt: PieceType, c: Color, s: Square)
        requires
            old(self).wf_pieces(),
            s < 64,
            old(self).mailbox[s as int] == Some((pt, c)),
        ensures
            final(self).wf_pieces(),
            final(self).mailbox@ == old(self).mailbox@.update(s as int, None),
            final(self).side == old(self).side,
            final(self).castling == old(self).castling,
            final(self).ep_square == old(self).ep_square,
            final(self).halfmove == old(self).halfmove,
            final(self).fullmove == old(self).fullmove,
            final(self).prof_acc == old(self).prof_acc,
    {
        let ghost old_b = *self;
        let m = bb(s);
        self.pieces[c.idx()][pt.idx()] = self.pieces[c.idx()][pt.idx()] & !m;
        self.occ_color[c.idx()] = self.occ_color[c.idx()] & !m;
        self.occ_all = self.occ_all & !m;
        self.mailbox[s as usize] = None;
        self.hash = self.hash ^ piece_key(c, pt, s);
        proof {
            let k = piece_key_spec(c, pt, s as int);
            lemma_xor(k, 0, 0);
            lemma_xor(0, k, 0);
            lemma_hash_after_change(old_b, *self, s as int);
            lemma_clear_bit(old_b.pieces[color_index(c)][piece_index(pt)], s as int);
            lemma_clear_bit(old_b.occ_color[color_index(c)], s as int);
            lemma_clear_bit(old_b.occ_all, s as int);
            assert(self.occ_all == old_b.occ_all & !(1u64 << ((s as int) as u64)));
            lemma_consistent_after_change(old_b, *self, s as int);
        }
    }

    fn add_piece(&mut self, pt: PieceType, c: Color, s: Square)
        requires
            old(self).wf_pieces(),
            s < 64,
            old(self).mailbox[s as int] is None,
        ensures
            final(self).wf_pieces(),
            final(self).mailbox@ == old(self).mailbox@.update(s as int, Some((pt, c))),
            final(self).side == old(self).side,
            final(self).castling == old(self).castling,
            final(self).ep_square == old(self).ep_square,
            final(self).halfmove == old(self).halfmove,
            final(self).fullmove == old(self).fullmove,
            final(self).prof_acc == old(self).prof_acc,
    {
        let ghost old_b = *self;
        let m = bb(s);
        self.pieces[c.idx()][pt.idx()] = self.pieces[c.idx()][pt.idx()] | m;
        self.occ_color[c.idx()] = self.occ_color[c.idx()] | m;
        self.occ_all = self.occ_all | m;
        self.mailbox[s as usize] = Some((pt, c));
        self.hash = self.hash ^ piece_key(c, pt, s);
        proof {
            let k = piece_key_spec(c, pt, s as int);
            lemma_xor(k, 0, 0);
            lemma_xor(0, k, 0);
            lemma_hash_after_change(old_b, *self, s as int);
            lemma_set_bit(old_b.pieces[color_index(c)][piece_index(pt)], s as int);
            lemma_set_bit(old_b.occ_color[color_index(c)], s as int);
            lemma_set_bit(old_b.occ_all, s as int);
            assert(self.occ_all == old_b.occ_all | (1u64 << ((s as int) as u64)));
            lemma_consistent_after_change(old_b, *self, s as int);
        }
    }
}


/// The rook squares of a castling move: where the rook starts and where it lands.
pub open spec fn castle_rook_from(us: Color, king_side: bool) -> int {
    if us == Color::White {
        if king_side {
            7
        } else {
            0
        }
    } else {
        if king_side {
            63
        } else {
            56
        }
    }
}

pub open spec fn castle_rook_to(us: Color, king_side: bool) -> int {
    if us == Color::White {
        if king_side {
            5
        } else {
            3
        }
    } else {
        if king_side {
            61
        } else {
            59
        }
    }
}

pub open spec fn is_castle(f: MoveFlag) -> bool {
    f == MoveFlag::CastleKing || f == MoveFlag::CastleQueen
}

/// Where the pawn taken en passant stands.
pub open spec fn ep_capture_sq(us: Color, to: int) -> int {
    if us == Color::White {
        to - 8
    } else {
        to + 8
    }
}

pub open spec fn moving_piece(b: Board, mv: Move) -> PieceType {
    b.mailbox[mv.from as int]->Some_0.0
}

pub open spec fn final_piece(b: Board, mv: Move) -> PieceType {
    match mv.promotion {
        Some(p) => p,
        None => moving_piece(b, mv),
    }
}

pub open spec fn captured_piece(b: Board, mv: Move) -> Option<(PieceType, Color)> {
    if mv.flag == MoveFlag::EnPassant {
        Some((PieceType::Pawn, opposite(b.side)))
    } else {
        b.mailbox[mv.to as int]
    }
}

/// A move `make_move` can apply: the piece on `from` is the mover's, and the
/// squares a special move touches hold what that move expects. Every
/// pseudo-legal move in a position is one.
pub open spec fn move_ok(b: Board, mv: Move) -> bool {
    let us = b.side;
    let them = opposite(us);
    &&& mv.from < 64
    &&& mv.to < 64
    &&& mv.from != mv.to
    &&& b.mailbox[mv.from as int] matches Some((p, c)) && c == us && (mv.promotion is Some ==> p
        == PieceType::Pawn)
    &&& mv.flag == MoveFlag::EnPassant ==> {
        let cs = ep_capture_sq(us, mv.to as int);
        &&& 0 <= cs < 64
        &&& cs != mv.from
        &&& b.mailbox[cs] == Some((PieceType::Pawn, them))
        &&& b.mailbox[mv.to as int] is None
    }
    &&& is_castle(mv.flag) ==> {
        let ks = mv.flag == MoveFlag::CastleKing;
        let rf = castle_rook_from(us, ks);
        let rt = castle_rook_to(us, ks);
        &&& rf != mv.from
        &&& rf != mv.to
        &&& rt != mv.from
        &&& rt != mv.to
        &&& b.mailbox[rf] == Some((PieceType::Rook, us))
        &&& b.mailbox[rt] is None
        &&& b.mailbox[mv.to as int] is None
    }
    &&& mv.flag == MoveFlag::DoublePush ==> (us == Color::White ==> mv.from + 8 < 64) && (us
        == Color::Black ==> mv.from >= 8)
    &&& b.halfmove < u32::MAX
    &&& b.fullmove < u32::MAX
    &&& b.prof_acc < usize::MAX
}

/// The mailbox after the move: the captured piece gone, the mover (or what it
/// promotes to) moved, and for castling the rook moved as well.
pub open spec fn mailbox_after(b: Board, mv: Move) -> Seq<Option<(PieceType, Color)>> {
    let us = b.side;
    let m0 = b.mailbox@;
    let m1 = if mv.flag == MoveFlag::EnPassant {
        m0.update(ep_capture_sq(us, mv.to as int), None)
    } else {
        m0
    };
    let m2 = m1.update(mv.from as int, None).update(mv.to as int, Some((final_piece(b, mv), us)));
    if is_castle(mv.flag) {
        let ks = mv.flag == MoveFlag::CastleKing;
        m2.update(castle_rook_from(us, ks), None).update(
            castle_rook_to(us, ks),
            Some((PieceType::Rook, us)),
        )
    } else {
        m2
    }
}

/// The castling rights lost by a move through square `s` (a rook's home square).
pub open spec fn clear_rights(c: u8, s: int) -> u8 {
    if s == 0 {
        c & !CASTLE_WQ
    } else if s == 7 {
        c & !CASTLE_WK
    } else if s == 56 {
        c & !CASTLE_BQ
    } else if s == 63 {
        c & !CASTLE_BK
    } else {
        c
    }
}

pub open spec fn castling_after(b: Board, mv: Move) -> u8 {
    let c1 = if moving_piece(b, mv) == PieceType::King {
        if b.side == Color::White {
            b.castling & !(CASTLE_WK | CASTLE_WQ)
        } else {
            b.castling & !(CASTLE_BK | CASTLE_BQ)
        }
    } else {
        b.castling
    };
    clear_rights(clear_rights(c1, mv.from as int), mv.to as int)
}

/// The en passant square after the move: the square a double push skipped, but
/// only when an enemy pawn stands beside the landing square to take it.
pub open spec fn ep_after(b: Board, mv: Move) -> Square {
    let us = b.side;
    let them = opposite(us);
    let m = mailbox_after(b, mv);
    let to = mv.to as int;
    if mv.flag == MoveFlag::DoublePush && ((to % 8 > 0 && m[to - 1] == Some((PieceType::Pawn, them)))
        || (to % 8 < 7 && m[to + 1] == Some((PieceType::Pawn, them)))) {
        if us == Color::White {
            (mv.from + 8) as Square
        } else {
            (mv.from - 8) as Square
        }
    } else {
        NO_SQUARE
    }
}

pub open spec fn halfmove_after(b: Board, mv: Move) -> u32 {
    if moving_piece(b, mv) == PieceType::Pawn || captured_piece(b, mv) is Some {
        0
    } else {
        (b.halfmove + 1) as u32
    }
}

/// `b1` and `u` are what making `mv` in `b0` gives.
pub open spec fn made(b0: Board, mv: Move, b1: Board, u: Undo) -> bool {
    &&& b1.wf()
    &&& b1.mailbox@ == mailbox_after(b0, mv)
    &&& b1.side == opposite(b0.side)
    &&& b1.castling == castling_after(b0, mv)
    &&& b1.ep_square == ep_after(b0, mv)
    &&& b1.halfmove == halfmove_after(b0, mv)
    &&& b1.fullmove == (if b0.side == Color::Black {
        (b0.fullmove + 1) as u32
    } else {
        b0.fullmove
    })
    &&& b1.prof_acc == b0.prof_acc + 1
    &&& u == (Undo {
        captured: captured_piece(b0, mv),
        castling: b0.castling,
        ep_square: b0.ep_square,
        halfmove: b0.halfmove,
        hash: b0.hash,
    })
}

proof fn lemma_xor_state(
    ph: u64,
    s0: u64,
    s1: u64,
    sk: u64,
    c0: u64,
    c1: u64,
    e0: u64,
    e1: u64,
    dc: bool,
)
    by (bit_vector)
    requires
        s1 == s0 ^ sk,
        dc || c0 == c1,
    ensures
        (if dc {
            (((ph ^ ((s0 ^ c0) ^ e0)) ^ sk) ^ c0) ^ c1
        } else {
            (ph ^ ((s0 ^ c0) ^ e0)) ^ sk
        }) ^ e0 ^ e1 == ph ^ ((s1 ^ c1) ^ e1),
        ph ^ 0 == ph,
        sk ^ sk == 0,
        0 ^ sk == sk,
{
}

fn clear_castle_rights(c: u8, s: Square) -> (r: u8)
    ensures
        r == clear_rights(c, s as int),
{
    if s == 0 {
        c & !CASTLE_WQ
    } else if s == 7 {
        c & !CASTLE_WK
    } else if s == 56 {
        c & !CASTLE_BQ
    } else if s == 63 {
        c & !CASTLE_BK
    } else {
        c
    }
}

impl Board {
    /// Applies a pseudo-legal move (legality, not being left in check, is for
    /// the caller to test afterwards) and returns what `unmake_move` needs.
    pub fn make_move(&mut self, mv: &Move) -> (undo: Undo)
        requires
            old(self).wf(),
            move_ok(*old(self), *mv),
        ensures
            made(*old(self), *mv, *final(self), undo),
    {
        let ghost b0 = *self;
        self.prof_acc = self.prof_acc + 1;
        let us = self.side;
        let them = us.opp();
        let moving_pt = match self.piece_at(mv.from) {
            Some((p, _)) => p,
            None => PieceType::Pawn,
        };
        let captured = if mv.flag == MoveFlag::EnPassant {
            Some((PieceType::Pawn, them))
        } else {
            self.piece_at(mv.to)
        };
        let undo = Undo {
            captured,
            castling: self.castling,
            ep_square: self.ep_square,
            halfmove: self.halfmove,
            hash: self.hash,
        };
        // the captured piece (normal or en passant)
        match mv.flag {
            MoveFlag::EnPassant => {
                let cap_sq = if us == Color::White {
                    mv.to - 8
                } else {
                    mv.to + 8
                };
                self.remove_piece(PieceType::Pawn, them, cap_sq);
            },
            _ => {
                match captured {
                    Some((cpt, cc)) => {
                        self.remove_piece(cpt, cc, mv.to);
                    },
                    None => {},
                }
            },
        }
        // the piece itself
        self.remove_piece(moving_pt, us, mv.from);
        let final_pt = match mv.promotion {
            Some(p) => p,
            None => moving_pt,
        };
        self.add_piece(final_pt, us, mv.to);
        // castling: the rook too
        match mv.flag {
            MoveFlag::CastleKing => {
                let (rf, rt) = if us == Color::White {
                    (7u8, 5u8)
                } else {
                    (63u8, 61u8)
                };
                self.remove_piece(PieceType::Rook, us, rf);
                self.add_piece(PieceType::Rook, us, rt);
            },
            MoveFlag::CastleQueen => {
                let (rf, rt) = if us == Color::White {
                    (0u8, 3u8)
                } else {
                    (56u8, 59u8)
                };
                self.remove_piece(PieceType::Rook, us, rf);
                self.add_piece(PieceType::Rook, us, rt);
            },
            _ => {},
        }
        proof {
            assert(self.mailbox@ =~= mailbox_after(b0, *mv));
        }
        // The en passant square is recorded only when a pawn can take there:
        // otherwise two positions that are the same in every way that matters
        // would get different keys.
        let new_ep = if mv.flag == MoveFlag::DoublePush {
            let skipped = if us == Color::White {
                mv.from + 8
            } else {
                mv.from - 8
            };
            let their_pawns = self.pieces[them.idx()][PieceType::Pawn.idx()];
            let f = file_of(mv.to);
            let mut takers = 0u64;
            proof {
                crate::attacks::lemma_or_facts(0, 0, 0);
            }
            if f > 0 {
                takers = takers | bb(mv.to - 1);
            }
            if f < 7 {
                takers = takers | bb(mv.to + 1);
            }
            proof {
                broadcast use group_bitboard;

                assert((their_pawns & takers != 0) <==> ((f > 0 && sq_in(their_pawns, mv.to - 1))
                    || (f < 7 && sq_in(their_pawns, mv.to + 1)))) by {
                    if their_pawns & takers != 0 {
                        let t = (their_pawns & takers).trailing_zeros();
                        lemma_lsb(their_pawns & takers);
                    }
                    if f > 0 && sq_in(their_pawns, mv.to - 1) {
                        assert(sq_in(their_pawns & takers, mv.to - 1));
                    }
                    if f < 7 && sq_in(their_pawns, mv.to + 1) {
                        assert(sq_in(their_pawns & takers, mv.to + 1));
                    }
                }
                assert(pieces_consistent(*self));
                assert(their_pawns == self.pieces[color_index(them)][0]);
                if f > 0 {
                    assert(sq_in(self.pieces[color_index(them)][0], mv.to - 1) <==> self.mailbox[mv.to
                        - 1] == Some((piece_of_index(0), color_of_index(color_index(them)))));
                }
                if f < 7 {
                    assert(sq_in(self.pieces[color_index(them)][0], mv.to + 1) <==> self.mailbox[mv.to
                        + 1] == Some((piece_of_index(0), color_of_index(color_index(them)))));
                }
            }
            if their_pawns & takers != 0 {
                skipped
            } else {
                NO_SQUARE
            }
        } else {
            NO_SQUARE
        };
        let old_castling = self.castling;
        let mut new_castling = self.castling;
        if moving_pt == PieceType::King {
            if us == Color::White {
                new_castling = new_castling & !(CASTLE_WK | CASTLE_WQ);
            } else {
                new_castling = new_castling & !(CASTLE_BK | CASTLE_BQ);
            }
        }
        new_castling = clear_castle_rights(new_castling, mv.from);
        new_castling = clear_castle_rights(new_castling, mv.to);
        // halfmove clock
        if moving_pt == PieceType::Pawn || captured.is_some() {
            self.halfmove = 0;
        } else {
            self.halfmove = self.halfmove + 1;
        }
        if us == Color::Black {
            self.fullmove = self.fullmove + 1;
        }
        // The key: the pieces took care of themselves; the side to move, the
        // castling rights and the en passant file are XORed out at their old
        // value and in at their new one.
        let old_ep = self.ep_square;
        let ghost ph = pieces_hash(self.mailbox, 64);
        let h0 = self.hash ^ side_key();
        let h1 = if old_castling != new_castling {
            proof {
                lemma_u8_low(old_castling);
                lemma_u8_low(new_castling);
            }
            h0 ^ castling_key(old_castling & 15) ^ castling_key(new_castling & 15)
        } else {
            h0
        };
        let h2 = if old_ep != NO_SQUARE {
            h1 ^ ep_key(file_of(old_ep))
        } else {
            h1
        };
        let h = if new_ep != NO_SQUARE {
            h2 ^ ep_key(file_of(new_ep))
        } else {
            h2
        };
        proof {
            let s0 = if us == Color::Black {
                side_key_spec()
            } else {
                0u64
            };
            let s1 = if them == Color::Black {
                side_key_spec()
            } else {
                0u64
            };
            let e0 = if old_ep < 64 {
                ep_key_spec((old_ep % 8) as int)
            } else {
                0u64
            };
            let e1 = if new_ep < 64 {
                ep_key_spec((new_ep % 8) as int)
            } else {
                0u64
            };
            let c0 = castling_key_spec((old_castling & 15u8) as int);
            let c1 = castling_key_spec((new_castling & 15u8) as int);
            lemma_xor(side_key_spec(), side_key_spec(), 0);
            lemma_xor(0, side_key_spec(), 0);
            lemma_xor(h1, 0, 0);
            lemma_xor(h2, 0, 0);
            assert(self.hash == ph ^ ((s0 ^ c0) ^ e0));
            assert(h2 == h1 ^ e0);
            assert(h == h2 ^ e1);
            lemma_xor_state(
                ph,
                s0,
                s1,
                side_key_spec(),
                c0,
                c1,
                e0,
                e1,
                old_castling != new_castling,
            );
            assert(h == ph ^ ((s1 ^ c1) ^ e1));
        }
        let ghost mid = *self;
        assert(pieces_consistent(mid));
        self.side = them;
        self.castling = new_castling;
        self.ep_square = new_ep;
        self.hash = h;
        assert(pieces_consistent(*self)) by {
            assert(self.pieces == mid.pieces);
            assert(self.occ_color == mid.occ_color);
            assert(self.mailbox == mid.mailbox);
        }
        assert(self.wf());
        assert(self.mailbox@ == mailbox_after(b0, *mv));
        assert(self.castling == castling_after(b0, *mv));
        assert(self.ep_square == ep_after(b0, *mv));
        assert(self.halfmove == halfmove_after(b0, *mv));
        assert(undo.captured == captured_piece(b0, *mv));
        undo
    }
}

/// What `unmake_move` expects: the position right after `mv`, with `u` from `make_move`.
pub open spec fn unmake_ok(b: Board, mv: Move, u: Undo) -> bool {
    let them = b.side;
    let us = opposite(them);
    &&& b.wf()
    &&& mv.from < 64
    &&& mv.to < 64
    &&& mv.from != mv.to
    &&& b.mailbox[mv.to as int] matches Some((_, c)) && c == us
    &&& b.mailbox[mv.from as int] is None
    &&& mv.flag == MoveFlag::EnPassant ==> {
        let cs = ep_capture_sq(us, mv.to as int);
        &&& 0 <= cs < 64
        &&& cs != mv.from
        &&& b.mailbox[cs] is None
    }
    &&& is_castle(mv.flag) ==> {
        let ks = mv.flag == MoveFlag::CastleKing;
        let rf = castle_rook_from(us, ks);
        let rt = castle_rook_to(us, ks);
        &&& rf != mv.from
        &&& rf != mv.to
        &&& rt != mv.from
        &&& rt != mv.to
        &&& b.mailbox[rt] == Some((PieceType::Rook, us))
        &&& b.mailbox[rf] is None
    }
    &&& us == Color::Black ==> b.fullmove >= 1
}

/// The mailbox after taking `mv` back.
pub open spec fn mailbox_unmade(b: Board, mv: Move, u: Undo) -> Seq<Option<(PieceType, Color)>> {
    let them = b.side;
    let us = opposite(them);
    let fp = b.mailbox[mv.to as int]->Some_0.0;
    let mp = if mv.promotion is Some {
        PieceType::Pawn
    } else {
        fp
    };
    let m0 = b.mailbox@.update(mv.to as int, None).update(mv.from as int, Some((mp, us)));
    if mv.flag == MoveFlag::EnPassant {
        m0.update(ep_capture_sq(us, mv.to as int), Some((PieceType::Pawn, them)))
    } else if is_castle(mv.flag) {
        let ks = mv.flag == MoveFlag::CastleKing;
        m0.update(castle_rook_to(us, ks), None).update(
            castle_rook_from(us, ks),
            Some((PieceType::Rook, us)),
        )
    } else {
        match u.captured {
            Some(cap) => m0.update(mv.to as int, Some(cap)),
            None => m0,
        }
    }
}

/// `b2` is `b1` with `mv` taken back using `u`.
pub open spec fn unmade(b1: Board, mv: Move, u: Undo, b2: Board) -> bool {
    let us = opposite(b1.side);
    &&& pieces_consistent(b2)
    &&& b2.mailbox@ == mailbox_unmade(b1, mv, u)
    &&& b2.side == us
    &&& b2.castling == u.castling
    &&& b2.ep_square == u.ep_square
    &&& b2.halfmove == u.halfmove
    &&& b2.fullmove == (if us == Color::Black {
        (b1.fullmove - 1) as u32
    } else {
        b1.fullmove
    })
    &&& b2.hash == u.hash
    &&& b2.prof_acc == b1.prof_acc.saturating_sub(1)
}

impl Board {
    /// Takes back `mv`, made with `make_move`, restoring the position from `undo`.
    pub fn unmake_move(&mut self, mv: &Move, undo: &Undo)
        requires
            unmake_ok(*old(self), *mv, *undo),
        ensures
            unmade(*old(self), *mv, *undo, *final(self)),
    {
        let ghost b1 = *self;
        self.prof_acc = self.prof_acc.saturating_sub(1);
        let them = self.side;
        let us = them.opp();
        let final_pt = match self.piece_at(mv.to) {
            Some((p, _)) => p,
            None => PieceType::Pawn,
        };
        let moving_pt = if mv.promotion.is_some() {
            PieceType::Pawn
        } else {
            final_pt
        };
        self.remove_piece(final_pt, us, mv.to);
        self.add_piece(moving_pt, us, mv.from);
        match mv.flag {
            MoveFlag::EnPassant => {
                let cap_sq = if us == Color::White {
                    mv.to - 8
                } else {
                    mv.to + 8
                };
                self.add_piece(PieceType::Pawn, us.opp(), cap_sq);
            },
            MoveFlag::CastleKing => {
                let (rf, rt) = if us == Color::White {
                    (7u8, 5u8)
                } else {
                    (63u8, 61u8)
                };
                self.remove_piece(PieceType::Rook, us, rt);
                self.add_piece(PieceType::Rook, us, rf);
            },
            MoveFlag::CastleQueen => {
                let (rf, rt) = if us == Color::White {
                    (0u8, 3u8)
                } else {
                    (56u8, 59u8)
                };
                self.remove_piece(PieceType::Rook, us, rt);
                self.add_piece(PieceType::Rook, us, rf);
            },
            _ => {
                match undo.captured {
                    Some((cpt, cc)) => {
                        self.add_piece(cpt, cc, mv.to);
                    },
                    None => {},
                }
            },
        }
        proof {
            assert(self.mailbox@ =~= mailbox_unmade(b1, *mv, *undo));
        }
        let ghost mid = *self;
        self.side = us;
        self.castling = undo.castling;
        self.ep_square = undo.ep_square;
        self.halfmove = undo.halfmove;
        if us == Color::Black {
            self.fullmove = self.fullmove - 1;
        }
        // One assignment instead of replaying every XOR backwards.
        self.hash = undo.hash;
        assert(pieces_consistent(*self)) by {
            assert(self.pieces == mid.pieces);
            assert(self.occ_color == mid.occ_color);
            assert(self.mailbox == mid.mailbox);
        }
    }

    /// Passes the turn without moving a piece (for null-move pruning): only the
    /// side to move and the en passant square change.
    pub fn make_null_move(&mut self) -> (undo: NullUndo)
        requires
            old(self).wf(),
            old(self).prof_acc < usize::MAX,
        ensures
            final(self).wf(),
            *final(self) == (Board {
                side: opposite(old(self).side),
                ep_square: NO_SQUARE,
                hash: final(self).hash,
                prof_acc: (old(self).prof_acc + 1) as usize,
                ..*old(self)
            }),
            undo == (NullUndo { ep_square: old(self).ep_square, hash: old(self).hash }),
    {
        let ghost b0 = *self;
        self.prof_acc = self.prof_acc + 1;
        let undo = NullUndo { ep_square: self.ep_square, hash: self.hash };
        let old_ep = self.ep_square;
        let h0 = self.hash ^ side_key();
        let h = if old_ep != NO_SQUARE {
            h0 ^ ep_key(file_of(old_ep))
        } else {
            h0
        };
        proof {
            let ph = pieces_hash(b0.mailbox, 64);
            let s0 = if b0.side == Color::Black {
                side_key_spec()
            } else {
                0u64
            };
            let s1 = if opposite(b0.side) == Color::Black {
                side_key_spec()
            } else {
                0u64
            };
            let e0 = if old_ep < 64 {
                ep_key_spec((old_ep % 8) as int)
            } else {
                0u64
            };
            let c0 = castling_key_spec((b0.castling & 15u8) as int);
            lemma_xor(side_key_spec(), side_key_spec(), 0);
            lemma_xor(0, side_key_spec(), 0);
            lemma_xor(h0, 0, 0);
            lemma_xor(h, 0, 0);
            assert(h == h0 ^ e0);
            lemma_xor_state(ph, s0, s1, side_key_spec(), c0, c0, e0, 0, false);
        }
        let ghost mid = *self;
        self.side = self.side.opp();
        self.ep_square = NO_SQUARE;
        self.hash = h;
        assert(pieces_consistent(*self)) by {
            assert(self.pieces == mid.pieces);
            assert(self.occ_color == mid.occ_color);
            assert(self.mailbox == mid.mailbox);
        }
        undo
    }

    pub fn unmake_null_move(&mut self, undo: &NullUndo)
        ensures
            *final(self) == (Board {
                side: opposite(old(self).side),
                ep_square: undo.ep_square,
                hash: undo.hash,
                prof_acc: old(self).prof_acc.saturating_sub(1),
                ..*old(self)
            }),
    {
        self.prof_acc = self.prof_acc.saturating_sub(1);
        self.side = self.side.opp();
        self.ep_square = undo.ep_square;
        self.hash = undo.hash;
    }
}

/// Two boards whose bitboards agree with the same mailbox have the same bitboards.
pub proof fn lemma_same_mailbox_same_bitboards(a: Board, b: Board)
    requires
        pieces_consistent(a),
        pieces_consistent(b),
        a.mailbox@ == b.mailbox@,
    ensures
        a.pieces == b.pieces,
        a.occ_color == b.occ_color,
        a.occ_all == b.occ_all,
        a.mailbox == b.mailbox,
{
    assert(a.mailbox =~= b.mailbox) by {
        assert forall|s: int| 0 <= s < 64 implies a.mailbox[s] == b.mailbox[s] by {
            assert(a.mailbox@[s] == b.mailbox@[s]);
        }
    }
    assert forall|c: int, p: int| 0 <= c < 2 && 0 <= p < 6 implies a.pieces[c][p] == b.pieces[c][p] by {
        assert forall|s: int| 0 <= s < 64 implies sq_in(a.pieces[c][p], s) == sq_in(b.pieces[c][p], s) by {
            assert(sq_in(a.pieces[c][p], s) <==> a.mailbox[s] == Some((piece_of_index(p), color_of_index(c))));
            assert(sq_in(b.pieces[c][p], s) <==> b.mailbox[s] == Some((piece_of_index(p), color_of_index(c))));
        }
        lemma_bits_equal(a.pieces[c][p], b.pieces[c][p]);
    }
    assert forall|c: int| 0 <= c < 2 implies a.pieces[c] =~= b.pieces[c] by {
        assert forall|p: int| 0 <= p < 6 implies a.pieces[c][p] == b.pieces[c][p] by {}
    }
    assert(a.pieces =~= b.pieces);
    assert forall|c: int| 0 <= c < 2 implies a.occ_color[c] == b.occ_color[c] by {
        assert forall|s: int| 0 <= s < 64 implies sq_in(a.occ_color[c], s) == sq_in(b.occ_color[c], s) by {
            assert(sq_in(a.occ_color[c], s) <==> (a.mailbox[s] matches Some((_, cc)) && cc == color_of_index(c)));
            assert(sq_in(b.occ_color[c], s) <==> (b.mailbox[s] matches Some((_, cc)) && cc == color_of_index(c)));
        }
        lemma_bits_equal(a.occ_color[c], b.occ_color[c]);
    }
    assert(a.occ_color =~= b.occ_color);
    assert forall|s: int| 0 <= s < 64 implies sq_in(a.occ_all, s) == sq_in(b.occ_all, s) by {
        assert(sq_in(a.occ_all, s) <==> a.mailbox[s] is Some);
        assert(sq_in(b.occ_all, s) <==> b.mailbox[s] is Some);
    }
    lemma_bits_equal(a.occ_all, b.occ_all);
}

/// Making a move leaves a position in which that move can be taken back.
pub proof fn lemma_made_can_unmake(b0: Board, mv: Move, b1: Board, u: Undo)
    requires
        b0.wf(),
        move_ok(b0, mv),
        made(b0, mv, b1, u),
    ensures
        unmake_ok(b1, mv, u),
{
    let m = mailbox_after(b0, mv);
    assert(b1.mailbox[mv.to as int] == m[mv.to as int]);
    assert(b1.mailbox[mv.from as int] == m[mv.from as int]);
    if mv.flag == MoveFlag::EnPassant {
        let cs = ep_capture_sq(b0.side, mv.to as int);
        assert(b1.mailbox[cs] == m[cs]);
    }
    if is_castle(mv.flag) {
        let ks = mv.flag == MoveFlag::CastleKing;
        assert(b1.mailbox[castle_rook_from(b0.side, ks)] == m[castle_rook_from(b0.side, ks)]);
        assert(b1.mailbox[castle_rook_to(b0.side, ks)] == m[castle_rook_to(b0.side, ks)]);
    }
}

/// Taking a move back restores the position exactly as it was before the move:
/// pieces, mailbox, side to move, castling rights, en passant square, clocks,
/// depth counter and key.
pub proof fn lemma_unmake_undoes_make(b0: Board, mv: Move, b1: Board, u: Undo, b2: Board)
    requires
        b0.wf(),
        move_ok(b0, mv),
        made(b0, mv, b1, u),
        unmade(b1, mv, u, b2),
    ensures
        b2 == b0,
{
    assert(b2.mailbox@ =~= b0.mailbox@) by {
        let m = mailbox_after(b0, mv);
        assert(b1.mailbox@ == m);
        assert forall|s: int| 0 <= s < 64 implies b2.mailbox@[s] == b0.mailbox@[s] by {
            assert(b2.mailbox@[s] == mailbox_unmade(b1, mv, u)[s]);
        }
    }
    lemma_same_mailbox_same_bitboards(b2, b0);
}

/// A null move taken back with its own undo restores the position exactly.
pub proof fn lemma_unmake_null_undoes_null(b0: Board, b1: Board, u: NullUndo, b2: Board)
    requires
        b1 == (Board {
            side: opposite(b0.side),
            ep_square: NO_SQUARE,
            hash: b1.hash,
            prof_acc: (b0.prof_acc + 1) as usize,
            ..b0
        }),
        u == (NullUndo { ep_square: b0.ep_square, hash: b0.hash }),
        b2 == (Board {
            side: opposite(b1.side),
            ep_square: u.ep_square,
            hash: u.hash,
            prof_acc: b1.prof_acc.saturating_sub(1),
            ..b1
        }),
        b0.prof_acc < usize::MAX,
    ensures
        b2 == b0,
{
}

/// Square `s` is attacked by a piece of colour `by`, with occupancy `occ` for
/// the sliders and `excl` the squares whose pieces are taken to be gone.
pub open spec fn attacked_with(b: Board, s: int, by: Color, occ: u64, excl: u64) -> bool {
    let c = color_index(by);
    let p = b.pieces[c];
    ||| pawn_spec(s, opposite(by)) & p[0] & excl != 0
    ||| knight_spec(s) & p[1] & excl != 0
    ||| king_spec(s) & p[5] & excl != 0
    ||| bishop_spec(s, occ) & ((p[2] | p[4]) & excl) != 0
    ||| rook_spec(s, occ) & ((p[3] | p[4]) & excl) != 0
}

/// Square `s` is attacked by a piece of colour `by` in this position.
pub open spec fn attacked_by(b: Board, s: int, by: Color) -> bool {
    let c = color_index(by);
    let p = b.pieces[c];
    ||| pawn_spec(s, opposite(by)) & p[0] != 0
    ||| knight_spec(s) & p[1] != 0
    ||| king_spec(s) & p[5] != 0
    ||| bishop_spec(s, b.occ_all) & (p[2] | p[4]) != 0
    ||| rook_spec(s, b.occ_all) & (p[3] | p[4]) != 0
}

/// The king of the side to move, moved from `from` to `to`, would stand in
/// check: the king is lifted off `from`, and a piece captured on `to` attacks no more.
pub open spec fn king_move_in_check(b: Board, from: int, to: int) -> bool {
    let occ = (b.occ_all & !(1u64 << (from as u64))) | (1u64 << (to as u64));
    attacked_with(b, to, opposite(b.side), occ, !(1u64 << (to as u64)))
}

pub open spec fn king_square(b: Board, c: Color) -> int {
    b.pieces[color_index(c)][5].trailing_zeros() as int
}

/// The OR of `p[0..k]`.
pub open spec fn or_upto(p: [u64; 6], k: int) -> u64
    decreases k,
{
    if k <= 0 {
        0
    } else {
        or_upto(p, k - 1) | p[k - 1]
    }
}

impl Board {
    pub fn is_square_attacked(&self, s: Square, by: Color, atk: &Attacks) -> (r: bool)
        requires
            s < 64,
            atk.wf(),
        ensures
            r == attacked_by(*self, s as int, by),
    {
        let occ = self.occ_all;
        let c = by.idx();
        // A pawn of `by` attacks `s` when it stands where a pawn of the other
        // colour on `s` would attack.
        if atk.pawn[by.opp().idx()][s as usize] & self.pieces[c][PieceType::Pawn.idx()] != 0 {
            return true;
        }
        if atk.knight[s as usize] & self.pieces[c][PieceType::Knight.idx()] != 0 {
            return true;
        }
        if atk.king[s as usize] & self.pieces[c][PieceType::King.idx()] != 0 {
            return true;
        }
        let bishops_queens = self.pieces[c][PieceType::Bishop.idx()]
            | self.pieces[c][PieceType::Queen.idx()];
        if bishop_attacks(s, occ) & bishops_queens != 0 {
            return true;
        }
        let rooks_queens = self.pieces[c][PieceType::Rook.idx()] | self.pieces[c][PieceType::Queen.idx()];
        if rook_attacks(s, occ) & rooks_queens != 0 {
            return true;
        }
        false
    }

    /// Would our king be in check on `to`, having come from `from`? The king
    /// is lifted off `from` first (standing there it would block the ray it is
    /// fleeing along), and a piece captured on `to` stops attacking.
    pub fn king_move_leaves_check(&self, from: Square, to: Square, atk: &Attacks) -> (r: bool)
        requires
            from < 64,
            to < 64,
            atk.wf(),
        ensures
            r == king_move_in_check(*self, from as int, to as int),
    {
        let by = self.side.opp();
        let c = by.idx();
        let occ = (self.occ_all & !bb(from)) | bb(to);
        let inimigos = !bb(to);
        if atk.pawn[by.opp().idx()][to as usize] & self.pieces[c][PieceType::Pawn.idx()] & inimigos != 0 {
            return true;
        }
        if atk.knight[to as usize] & self.pieces[c][PieceType::Knight.idx()] & inimigos != 0 {
            return true;
        }
        if atk.king[to as usize] & self.pieces[c][PieceType::King.idx()] & inimigos != 0 {
            return true;
        }
        let bishops_queens = (self.pieces[c][PieceType::Bishop.idx()]
            | self.pieces[c][PieceType::Queen.idx()]) & inimigos;
        if bishop_attacks(to, occ) & bishops_queens != 0 {
            return true;
        }
        let rooks_queens = (self.pieces[c][PieceType::Rook.idx()]
            | self.pieces[c][PieceType::Queen.idx()]) & inimigos;
        if rook_attacks(to, occ) & rooks_queens != 0 {
            return true;
        }
        false
    }

    /// `color`'s king is attacked.
    pub fn in_check(&self, color: Color, atk: &Attacks) -> (r: bool)
        requires
            self.pieces[color_index(color)][5] != 0,
            atk.wf(),
        ensures
            r == attacked_by(*self, king_square(*self, color), opposite(color)),
    {
        let k = self.king_sq(color);
        self.is_square_attacked(k, color.opp(), atk)
    }

    /// Recomputes the occupancy bitboards from the piece bitboards.
    pub fn recompute_occ(&mut self)
        ensures
            final(self).occ_color[0] == or_upto(old(self).pieces[0], 6),
            final(self).occ_color[1] == or_upto(old(self).pieces[1], 6),
            final(self).occ_all == or_upto(old(self).pieces[0], 6) | or_upto(old(self).pieces[1], 6),
            *final(self) == (Board {
                occ_color: final(self).occ_color,
                occ_all: final(self).occ_all,
                ..*old(self)
            }),
    {
        let mut c: usize = 0;
        while c < 2
            invariant
                c <= 2,
                self.pieces == old(self).pieces,
                forall|ci: int| 0 <= ci < c ==> #[trigger] self.occ_color[ci] == or_upto(self.pieces[ci], 6),
                *self == (Board { occ_color: self.occ_color, ..*old(self) }),
            decreases 2 - c,
        {
            let mut o = 0u64;
            let mut k: usize = 0;
            while k < 6
                invariant
                    c < 2,
                    k <= 6,
                    o == or_upto(self.pieces[c as int], k as int),
                decreases 6 - k,
            {
                o = o | self.pieces[c][k];
                k = k + 1;
            }
            self.occ_color[c] = o;
            c = c + 1;
        }
        self.occ_all = self.occ_color[0] | self.occ_color[1];
    }
}

/// A capture or a pawn move resets the fifty-move clock; any other move
/// counts it on by one. A capture is a move onto an occupied square or en
/// passant; the kind of the moving piece is read from its square.
pub proof fn lemma_halfmove_clock(b0: Board, mv: Move, b1: Board, u: Undo)
    requires
        made(b0, mv, b1, u),
    ensures
        (b0.mailbox[mv.to as int] is Some || mv.flag == MoveFlag::EnPassant) ==> b1.halfmove == 0,
        (b0.mailbox[mv.from as int] is Some && b0.mailbox[mv.from as int]->Some_0.0 == PieceType::Pawn) ==> b1.halfmove
            == 0,
        (b0.mailbox[mv.to as int] is None && mv.flag != MoveFlag::EnPassant && b0.mailbox[mv.from as int] is Some
            && b0.mailbox[mv.from as int]->Some_0.0 != PieceType::Pawn) ==> b1.halfmove == (b0.halfmove + 1) as u32,
{
}

} // verus!
