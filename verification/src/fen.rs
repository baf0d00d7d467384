//! Reading and writing positions in Forsyth-Edwards notation, and the board
//! helpers that rebuild derived state (mailbox, key) from the bitboards.
use vstd::prelude::*;
use vstd::string::StringSliceAdditionalSpecFns;
use crate::bitboard::{Bitboard, bb, pop_lsb, sq_in, group_bitboard};
use crate::board::{
    Board, Mailbox, pieces_consistent, square_key, pieces_hash, state_hash, full_hash, or_upto,
    CASTLE_WK, CASTLE_WQ, CASTLE_BK, CASTLE_BQ,
};
use crate::types::{
    Color, PieceType, Square, NO_SQUARE, piece_of_index, color_of_index, piece_index, color_index,
    piece_char, parse_sq_bytes, parse_square_bytes, square_name_bytes, sq_name_bytes,
};
use crate::zobrist::{piece_key, side_key, castling_key, ep_key, piece_key_spec, side_key_spec, castling_key_spec, ep_key_spec};

verus! {

pub fn piece_from_index(i: usize) -> (p: PieceType)
    requires
        i < 6,
    ensures
        p == piece_of_index(i as int),
        piece_index(p) == i,
{
    if i == 0 {
        PieceType::Pawn
    } else if i == 1 {
        PieceType::Knight
    } else if i == 2 {
        PieceType::Bishop
    } else if i == 3 {
        PieceType::Rook
    } else if i == 4 {
        PieceType::Queen
    } else {
        PieceType::King
    }
}

pub fn color_from_index(i: usize) -> (c: Color)
    requires
        i < 2,
    ensures
        c == color_of_index(i as int),
        color_index(c) == i,
{
    if i == 0 {
        Color::White
    } else {
        Color::Black
    }
}

/// Scanning White pawn .. White king, Black pawn .. Black king, the last of the
/// first `k` piece bitboards that holds square `s`.
pub open spec fn owner_scan(p: [[u64; 6]; 2], s: int, k: int) -> Option<(PieceType, Color)>
    decreases k,
{
    if k <= 0 {
        None
    } else if sq_in(p[(k - 1) / 6][(k - 1) % 6], s) {
        Some((piece_of_index((k - 1) % 6), color_of_index((k - 1) / 6)))
    } else {
        owner_scan(p, s, k - 1)
    }
}

impl Board {
    /// Refills the mailbox from the bitboards. Where two bitboards claim a
    /// square, the later one (Black after White, king after pawn) wins.
    pub fn rebuild_mailbox(&mut self)
        ensures
            forall|s: int| 0 <= s < 64 ==> #[trigger] final(self).mailbox[s] == owner_scan(old(self).pieces, s, 12),
            *final(self) == (Board { mailbox: final(self).mailbox, ..*old(self) }),
    {
        self.mailbox = [None; 64];
        let mut k: usize = 0;
        while k < 12
            invariant
                k <= 12,
                *self == (Board { mailbox: self.mailbox, ..*old(self) }),
                forall|s: int| 0 <= s < 64 ==> #[trigger] self.mailbox[s] == owner_scan(self.pieces, s, k as int),
            decreases 12 - k,
        {
            let c = k / 6;
            let pt = k % 6;
            let orig = self.pieces[c][pt];
            let mut b = orig;
            let ghost before = self.mailbox;
            while b != 0
                invariant
                    k < 12,
                    c == k / 6,
                    pt == k % 6,
                    orig == self.pieces[c as int][pt as int],
                    *self == (Board { mailbox: self.mailbox, ..*old(self) }),
                    forall|s: int| #![auto] sq_in(b, s) ==> sq_in(orig, s),
                    forall|s: int|
                        0 <= s < 64 ==> #[trigger] self.mailbox[s] == (if sq_in(orig, s) && !sq_in(b, s) {
                            Some((piece_of_index(pt as int), color_of_index(c as int)))
                        } else {
                            before[s]
                        }),
                    forall|s: int| 0 <= s < 64 ==> #[trigger] before[s] == owner_scan(self.pieces, s, k as int),
                decreases b,
            {
                let s = pop_lsb(&mut b);
                self.mailbox[s as usize] = Some((piece_from_index(pt), color_from_index(c)));
            }
            proof {
                broadcast use group_bitboard;
            }
            k = k + 1;
        }
    }

    /// The Zobrist key of the position, computed from nothing.
    pub fn hash_completo(&self) -> (h: u64)
        requires
            self.ep_square <= 64,
        ensures
            h == full_hash(*self),
    {
        let mut h = 0u64;
        let mut s: usize = 0;
        while s < 64
            invariant
                s <= 64,
                h == pieces_hash(self.mailbox, s as nat),
            decreases 64 - s,
        {
            let k = match self.mailbox[s] {
                Some((p, c)) => piece_key(c, p, s as u8),
                None => 0,
            };
            h = h ^ k;
            s = s + 1;
        }
        let sk = if self.side == Color::Black {
            side_key()
        } else {
            0
        };
        proof {
            crate::board::lemma_u8_low(self.castling);
        }
        let ck = castling_key(self.castling & 15);
        let ek = if self.ep_square < 64 {
            ep_key(self.ep_square % 8)
        } else {
            0
        };
        proof {
            crate::board::lemma_xor(h, sk ^ ck, ek);
        }
        h ^ (sk ^ ck ^ ek)
    }
}


/// ASCII whitespace as `char::is_whitespace` sees it.
pub open spec fn is_ws(c: u8) -> bool {
    c == 32 || (9 <= c <= 13)
}

pub open spec fn skip_ws(b: Seq<u8>, i: int) -> int
    decreases b.len() - i,
{
    if 0 <= i < b.len() && is_ws(b[i]) {
        skip_ws(b, i + 1)
    } else {
        i
    }
}

pub open spec fn word_end(b: Seq<u8>, i: int) -> int
    decreases b.len() - i,
{
    if 0 <= i < b.len() && !is_ws(b[i]) {
        word_end(b, i + 1)
    } else {
        i
    }
}

/// The `k`-th whitespace-separated word of `b` at or after `i` (empty if there is none).
pub open spec fn field_from(b: Seq<u8>, k: nat, i: int) -> Seq<u8>
    decreases k,
{
    let st = skip_ws(b, i);
    let en = word_end(b, st);
    if k == 0 {
        b.subrange(st, en)
    } else {
        field_from(b, (k - 1) as nat, en)
    }
}

pub open spec fn fen_field(b: Seq<u8>, k: nat) -> Seq<u8> {
    field_from(b, k, 0)
}

/// The piece a FEN letter stands for: upper case White, lower case Black.
pub open spec fn piece_of_byte(ch: u8) -> Option<(PieceType, Color)> {
    let c = if 65 <= ch <= 90 {
        Color::White
    } else {
        Color::Black
    };
    let l = if 65 <= ch <= 90 {
        (ch + 32) as u8
    } else {
        ch
    };
    if l == 112 {
        Some((PieceType::Pawn, c))
    } else if l == 110 {
        Some((PieceType::Knight, c))
    } else if l == 98 {
        Some((PieceType::Bishop, c))
    } else if l == 114 {
        Some((PieceType::Rook, c))
    } else if l == 113 {
        Some((PieceType::Queen, c))
    } else if l == 107 {
        Some((PieceType::King, c))
    } else {
        None
    }
}

/// Reading the piece-placement field from byte `i` on, at (rank, file), into
/// mailbox `mb`: `None` if a byte is not a piece letter, a digit 1-8 or '/',
/// or a piece falls off the board. A piece goes to square `rank * 8 + file`,
/// so a row that runs past its last file carries on into the row above.
pub open spec fn place(b: Seq<u8>, i: int, rank: int, file: int, mb: Seq<Option<(PieceType, Color)>>) -> Option<
    Seq<Option<(PieceType, Color)>>,
>
    decreases b.len() - i,
{
    if i >= b.len() || i < 0 {
        Some(mb)
    } else {
        let ch = b[i];
        if ch == 47 {
            place(b, i + 1, rank - 1, 0, mb)
        } else if 49 <= ch <= 56 {
            place(b, i + 1, rank, file + (ch - 48), mb)
        } else {
            match piece_of_byte(ch) {
                None => None,
                Some(pc) => if 0 <= file && 0 <= rank && rank * 8 + file < 64 {
                    place(b, i + 1, rank, file + 1, mb.update(rank * 8 + file, Some(pc)))
                } else {
                    None
                },
            }
        }
    }
}

pub open spec fn empty_mailbox() -> Seq<Option<(PieceType, Color)>> {
    Seq::new(64, |i: int| None)
}

/// The mailbox a FEN's placement field describes, if it describes one.
pub open spec fn fen_placement(b: Seq<u8>) -> Option<Seq<Option<(PieceType, Color)>>> {
    place(fen_field(b, 0), 0, 7, 0, empty_mailbox())
}

pub open spec fn decimal_value(s: Seq<u8>) -> int
    decreases s.len(),
{
    if s.len() == 0 {
        0
    } else {
        decimal_value(s.drop_last()) * 10 + (s.last() - 48)
    }
}

pub open spec fn all_digits(s: Seq<u8>) -> bool {
    forall|i: int| 0 <= i < s.len() ==> 48 <= #[trigger] s[i] <= 57
}

/// What `str::parse::<u32>` accepts: an optional '+', then decimal digits, no more than `u32::MAX`.
pub open spec fn parse_u32(s: Seq<u8>) -> Option<u32> {
    let d = if s.len() > 0 && s[0] == 43 {
        s.subrange(1, s.len() as int)
    } else {
        s
    };
    if d.len() > 0 && all_digits(d) && decimal_value(d) <= u32::MAX {
        Some(decimal_value(d) as u32)
    } else {
        None
    }
}

pub open spec fn castling_of_field(f: Seq<u8>) -> u8 {
    let c1 = if f.contains(75u8) {
        0u8 | CASTLE_WK
    } else {
        0u8
    };
    let c2 = if f.contains(81u8) {
        c1 | CASTLE_WQ
    } else {
        c1
    };
    let c3 = if f.contains(107u8) {
        c2 | CASTLE_BK
    } else {
        c2
    };
    if f.contains(113u8) {
        c3 | CASTLE_BQ
    } else {
        c3
    }
}

pub open spec fn ep_of_field(f: Seq<u8>) -> Square {
    if f.len() > 0 && f != seq![45u8] {
        match parse_square_bytes(f) {
            Some(x) => x as Square,
            None => NO_SQUARE,
        }
    } else {
        NO_SQUARE
    }
}

/// The FEN is one `Board::from_fen` reads: its placement field parses.
pub open spec fn fen_ok(b: Seq<u8>) -> bool {
    fen_placement(b) is Some
}

fn is_ws_byte(c: u8) -> (r: bool)
    ensures
        r == is_ws(c),
{
    c == 32 || (9 <= c && c <= 13)
}

/// Where the next word starts and ends, from byte `i` on.
fn next_word(b: &[u8], i: usize) -> (r: (usize, usize))
    requires
        i <= b@.len(),
    ensures
        r.0 == skip_ws(b@, i as int),
        r.1 == word_end(b@, r.0 as int),
        i <= r.0 <= r.1 <= b@.len(),
{
    let mut st = i;
    while st < b.len() && is_ws_byte(b[st])
        invariant
            i <= st <= b@.len(),
            skip_ws(b@, st as int) == skip_ws(b@, i as int),
        decreases b@.len() - st,
    {
        st = st + 1;
    }
    let mut en = st;
    while en < b.len() && !is_ws_byte(b[en])
        invariant
            st <= en <= b@.len(),
            st == skip_ws(b@, i as int),
            word_end(b@, en as int) == word_end(b@, st as int),
        decreases b@.len() - en,
    {
        en = en + 1;
    }
    (st, en)
}

/// The bounds of the `k`-th word, from byte `i` on.
pub(crate) fn field_bounds(b: &[u8], k: usize, i: usize) -> (r: (usize, usize))
    requires
        i <= b@.len(),
    ensures
        r.0 <= r.1 <= b@.len(),
        b@.subrange(r.0 as int, r.1 as int) == field_from(b@, k as nat, i as int),
    decreases k,
{
    let (st, en) = next_word(b, i);
    if k == 0 {
        (st, en)
    } else {
        field_bounds(b, k - 1, en)
    }
}

fn contains_byte(b: &[u8], lo: usize, hi: usize, x: u8) -> (r: bool)
    requires
        lo <= hi <= b@.len(),
    ensures
        r == b@.subrange(lo as int, hi as int).contains(x),
{
    let mut i = lo;
    while i < hi
        invariant
            lo <= i <= hi <= b@.len(),
            forall|j: int| lo <= j < i ==> b@[j] != x,
        decreases hi - i,
    {
        if b[i] == x {
            assert(b@.subrange(lo as int, hi as int)[i - lo] == x);
            return true;
        }
        i = i + 1;
    }
    assert(!b@.subrange(lo as int, hi as int).contains(x)) by {
        if b@.subrange(lo as int, hi as int).contains(x) {
            let j = choose|j: int| 0 <= j < hi - lo && b@.subrange(lo as int, hi as int)[j] == x;
            assert(b@[lo + j] == x);
        }
    }
    false
}

/// `str::parse::<u32>` on `b[lo..hi]`.
fn parse_u32_bytes(b: &[u8], lo: usize, hi: usize) -> (r: Option<u32>)
    requires
        lo <= hi <= b@.len(),
    ensures
        r == parse_u32(b@.subrange(lo as int, hi as int)),
{
    let ghost s = b@.subrange(lo as int, hi as int);
    let start = if lo < hi && b[lo] == 43 {
        lo + 1
    } else {
        lo
    };
    let ghost d = b@.subrange(start as int, hi as int);
    assert(lo < hi ==> s[0] == b@[lo as int]);
    assert(d == (if s.len() > 0 && s[0] == 43 {
        s.subrange(1, s.len() as int)
    } else {
        s
    }));
    if start == hi {
        return None;
    }
    let mut acc: u64 = 0;
    let mut over = false;
    let mut i = start;
    while i < hi
        invariant
            start <= i <= hi <= b@.len(),
            d == b@.subrange(start as int, hi as int),
            s == b@.subrange(lo as int, hi as int),
            d == (if s.len() > 0 && s[0] == 43 {
                s.subrange(1, s.len() as int)
            } else {
                s
            }),
            all_digits(b@.subrange(start as int, i as int)),
            !over ==> acc == decimal_value(b@.subrange(start as int, i as int)) && acc <= u32::MAX,
            over ==> decimal_value(b@.subrange(start as int, i as int)) > u32::MAX,
        decreases hi - i,
    {
        let c = b[i];
        if c < 48 || c > 57 {
            assert(!all_digits(d)) by {
                assert(d[i - start] == c);
            }
            return None;
        }
        let ghost pre = b@.subrange(start as int, i as int);
        let ghost nxt = b@.subrange(start as int, i + 1);
        assert(nxt.drop_last() == pre);
        assert(nxt.last() == c);
        assert(decimal_value(pre) >= 0) by {
            lemma_decimal_nonneg(pre);
        }
        if !over {
            let v = acc * 10 + (c - 48) as u64;
            if v > 0xffff_ffff {
                over = true;
            } else {
                acc = v;
            }
        }
        i = i + 1;
    }
    assert(b@.subrange(start as int, hi as int) == d);
    if over {
        None
    } else {
        Some(acc as u32)
    }
}

proof fn lemma_decimal_nonneg(s: Seq<u8>)
    requires
        all_digits(s),
    ensures
        decimal_value(s) >= 0,
    decreases s.len(),
{
    if s.len() > 0 {
        assert(all_digits(s.drop_last())) by {
            assert forall|i: int| 0 <= i < s.drop_last().len() implies 48 <= #[trigger] s.drop_last()[i] <= 57 by {
                assert(s.drop_last()[i] == s[i]);
            }
        }
        lemma_decimal_nonneg(s.drop_last());
    }
}

pub(crate) fn piece_of_byte_exec(ch: u8) -> (r: Option<(PieceType, Color)>)
    ensures
        r == piece_of_byte(ch),
{
    let c = if 65 <= ch && ch <= 90 {
        Color::White
    } else {
        Color::Black
    };
    let l = if 65 <= ch && ch <= 90 {
        ch + 32
    } else {
        ch
    };
    if l == 112 {
        Some((PieceType::Pawn, c))
    } else if l == 110 {
        Some((PieceType::Knight, c))
    } else if l == 98 {
        Some((PieceType::Bishop, c))
    } else if l == 114 {
        Some((PieceType::Rook, c))
    } else if l == 113 {
        Some((PieceType::Queen, c))
    } else if l == 107 {
        Some((PieceType::King, c))
    } else {
        None
    }
}

/// Reads the placement field `b[lo..hi]` into a mailbox; `None` where the
/// field describes no placement.
fn parse_placement(b: &[u8], lo: usize, hi: usize) -> (r: Option<Mailbox>)
    requires
        lo <= hi <= b@.len(),
        hi <= 0x1000_0000_0000,
    ensures
        match r {
            Some(mb) => place(b@.subrange(lo as int, hi as int), 0, 7, 0, empty_mailbox()) == Some(mb@),
            None => place(b@.subrange(lo as int, hi as int), 0, 7, 0, empty_mailbox()) is None,
        },
{
    let ghost f = b@.subrange(lo as int, hi as int);
    let mut mb: Mailbox = [None; 64];
    let mut rank: i64 = 7;
    let mut file: i64 = 0;
    let mut i = lo;
    assert(mb@ =~= empty_mailbox());
    while i < hi
        invariant
            lo <= i <= hi <= b@.len(),
            hi <= 0x1000_0000_0000,
            f == b@.subrange(lo as int, hi as int),
            7 - (i - lo) <= rank <= 7,
            0 <= file <= 8 * (i - lo),
            place(f, i - lo, rank as int, file as int, mb@) == place(f, 0, 7, 0, empty_mailbox()),
        decreases hi - i,
    {
        let ch = b[i];
        assert(f[i - lo] == ch);
        let ghost cur = mb@;
        if ch == 47 {
            rank = rank - 1;
            file = 0;
        } else if 49 <= ch && ch <= 56 {
            file = file + (ch - 48) as i64;
        } else {
            let pc = piece_of_byte_exec(ch);
            match pc {
                Some(x) => {
                    if rank < 0 || rank * 8 + file >= 64 {
                        return None;
                    }
                    let s = (rank * 8 + file) as usize;
                    mb[s] = Some(x);
                    assert(mb@ =~= cur.update(rank * 8 + file, Some(x)));
                    file = file + 1;
                },
                None => {
                    return None;
                },
            }
        }
        i = i + 1;
    }
    Some(mb)
}

/// Whether a FEN's placement field describes a placement: what `from_fen` needs.
pub fn placement_ok(fen: &str) -> (r: bool)
    requires
        fen.spec_bytes().len() <= 0x1000_0000_0000,
    ensures
        r == fen_ok(fen.spec_bytes()),
{
    let bytes = fen.as_bytes();
    let (p0, p1) = field_bounds(bytes, 0, 0);
    match parse_placement(bytes, p0, p1) {
        Some(_) => true,
        None => false,
    }
}

/// `b` is what the FEN `f` describes: its placement, side to move (White
/// unless the field is `b`), castling rights, en passant square and clocks
/// (0 and 1 where the field is missing or no number).
pub open spec fn fen_reads_as(f: Seq<u8>, b: Board) -> bool {
    &&& Some(b.mailbox@) == fen_placement(f)
    &&& b.side == (if fen_field(f, 1) == seq![98u8] {
        Color::Black
    } else {
        Color::White
    })
    &&& b.castling == castling_of_field(fen_field(f, 2))
    &&& b.ep_square == ep_of_field(fen_field(f, 3))
    &&& b.halfmove == (match parse_u32(fen_field(f, 4)) {
        Some(v) => v,
        None => 0,
    })
    &&& b.fullmove == (match parse_u32(fen_field(f, 5)) {
        Some(v) => v,
        None => 1,
    })
}

impl Board {
    /// The position a FEN describes. Missing fields take their defaults:
    /// White to move, no castling, no en passant square, halfmove clock 0,
    /// move number 1.
    pub fn from_fen(fen: &str) -> (b: Board)
        requires
            fen_ok(fen.spec_bytes()),
            fen.spec_bytes().len() <= 0x1000_0000_0000,
        ensures
            b.wf(),
            fen_reads_as(fen.spec_bytes(), b),
            b.prof_acc == 0,
    {
        let bytes = fen.as_bytes();
        let (p0, p1) = field_bounds(bytes, 0, 0);
        let mailbox = match parse_placement(bytes, p0, p1) {
            Some(mb) => mb,
            None => [None; 64],
        };
        let (s0, s1) = field_bounds(bytes, 1, 0);
        let side = if s1 > s0 && s1 - s0 == 1 && bytes[s0] == 98 {
            Color::Black
        } else {
            Color::White
        };
        assert((s1 == s0 + 1 && bytes@[s0 as int] == 98) <==> bytes@.subrange(s0 as int, s1 as int) == seq![98u8]) by {
            let w = bytes@.subrange(s0 as int, s1 as int);
            assert(w.len() == s1 - s0);
            if w == seq![98u8] {
                assert(w[0] == 98);
                assert(w[0] == bytes@[s0 as int]);
            }
            if s1 == s0 + 1 && bytes@[s0 as int] == 98 {
                assert(bytes@.subrange(s0 as int, s1 as int) =~= seq![98u8]);
            }
        }
        let (c0, c1) = field_bounds(bytes, 2, 0);
        let mut castling = 0u8;
        if contains_byte(bytes, c0, c1, 75) {
            castling = castling | CASTLE_WK;
        }
        if contains_byte(bytes, c0, c1, 81) {
            castling = castling | CASTLE_WQ;
        }
        if contains_byte(bytes, c0, c1, 107) {
            castling = castling | CASTLE_BK;
        }
        if contains_byte(bytes, c0, c1, 113) {
            castling = castling | CASTLE_BQ;
        }
        let (e0, e1) = field_bounds(bytes, 3, 0);
        let ghost ef = bytes@.subrange(e0 as int, e1 as int);
        let ep_square = if e1 > e0 && !(e1 - e0 == 1 && bytes[e0] == 45) {
            assert(ef != seq![45u8]) by {
                assert(ef.len() == e1 - e0);
                assert(ef[0] == bytes@[e0 as int]);
                if ef == seq![45u8] {
                    assert(ef[0] == 45);
                }
            }
            parse_ep(bytes, e0, e1)
        } else {
            assert(ef.len() > 0 ==> ef =~= seq![45u8]);
            NO_SQUARE
        };
        let (h0, h1) = field_bounds(bytes, 4, 0);
        let halfmove = match parse_u32_bytes(bytes, h0, h1) {
            Some(v) => v,
            None => 0,
        };
        let (f0, f1) = field_bounds(bytes, 5, 0);
        let fullmove = match parse_u32_bytes(bytes, f0, f1) {
            Some(v) => v,
            None => 1,
        };
        let mut b = Board {
            pieces: [[0u64; 6]; 2],
            occ_color: [0, 0],
            occ_all: 0,
            prof_acc: 0,
            side,
            castling,
            ep_square,
            halfmove,
            fullmove,
            hash: 0,
            mailbox,
        };
        b.fill_from_mailbox();
        b.hash = b.hash_completo();
        b
    }

    /// The starting position.
    pub fn startpos() -> (b: Board)
        ensures
            b.wf(),
            b.mailbox@ == start_mailbox(),
            b.side == Color::White,
            b.castling == CASTLE_WK | CASTLE_WQ | CASTLE_BK | CASTLE_BQ,
            b.ep_square == NO_SQUARE,
            b.halfmove == 0,
            b.fullmove == 1,
            b.prof_acc == 0,
    {
        let mut mailbox: Mailbox = [None; 64];
        let mut f: usize = 0;
        while f < 8
            invariant
                f <= 8,
                forall|i: int|
                    0 <= i < 64 ==> #[trigger] mailbox[i] == (if i % 8 < f {
                        start_mailbox()[i]
                    } else {
                        None
                    }),
            decreases 8 - f,
        {
            let p = back_rank_piece(f);
            mailbox[f] = Some((p, Color::White));
            mailbox[8 + f] = Some((PieceType::Pawn, Color::White));
            mailbox[48 + f] = Some((PieceType::Pawn, Color::Black));
            mailbox[56 + f] = Some((p, Color::Black));
            f = f + 1;
        }
        assert(mailbox@ =~= start_mailbox());
        let mut b = Board {
            pieces: [[0u64; 6]; 2],
            occ_color: [0, 0],
            occ_all: 0,
            prof_acc: 0,
            side: Color::White,
            castling: CASTLE_WK | CASTLE_WQ | CASTLE_BK | CASTLE_BQ,
            ep_square: NO_SQUARE,
            halfmove: 0,
            fullmove: 1,
            hash: 0,
            mailbox,
        };
        b.fill_from_mailbox();
        b.hash = b.hash_completo();
        b
    }

    /// Sets the bitboards and occupancies from the mailbox.
    fn fill_from_mailbox(&mut self)
        ensures
            pieces_consistent(*final(self)),
            *final(self) == (Board {
                pieces: final(self).pieces,
                occ_color: final(self).occ_color,
                occ_all: final(self).occ_all,
                ..*old(self)
            }),
    {
        let mut pieces = [[0u64; 6]; 2];
        let mut s: usize = 0;
        assert forall|c: int, p: int, t: int| 0 <= c < 2 && 0 <= p < 6 && 0 <= t < 64 implies !sq_in(pieces[c][p], t) by {
            broadcast use group_bitboard;
            assert(pieces[c][p] == 0u64);
        }
        while s < 64
            invariant
                s <= 64,
                *self == *old(self),
                forall|c: int, p: int, t: int|
                    0 <= c < 2 && 0 <= p < 6 && 0 <= t < 64 ==> (#[trigger] sq_in(pieces[c][p], t) <==> (t
                        < s && self.mailbox[t] == Some((piece_of_index(p), color_of_index(c))))),
            decreases 64 - s,
        {
            match self.mailbox[s] {
                Some((p, c)) => {
                    let ghost before = pieces;
                    let m = bb(s as u8);
                    pieces[c.idx()][p.idx()] = pieces[c.idx()][p.idx()] | m;
                    proof {
                        broadcast use group_bitboard;
                        assert forall|ci: int, pi: int, t: int|
                            0 <= ci < 2 && 0 <= pi < 6 && 0 <= t < 64 implies (#[trigger] sq_in(pieces[ci][pi], t)
                            <==> (t < s + 1 && self.mailbox[t] == Some((piece_of_index(pi), color_of_index(ci))))) by {
                            assert(sq_in(before[ci][pi], t) <==> (t < s && self.mailbox[t] == Some(
                                (piece_of_index(pi), color_of_index(ci)),
                            )));
                        }
                    }
                },
                None => {},
            }
            s = s + 1;
        }
        self.pieces = pieces;
        self.recompute_occ();
        proof {
            broadcast use group_bitboard;
            assert forall|c: int, t: int| 0 <= c < 2 && 0 <= t < 64 implies (#[trigger] sq_in(
                self.occ_color[c],
                t,
            ) <==> (self.mailbox[t] matches Some((_, cc)) && cc == color_of_index(c))) by {
                lemma_or6(self.pieces[c], t);
                if let Some((pp, cc)) = self.mailbox[t] {
                    if cc == color_of_index(c) {
                        assert(sq_in(self.pieces[c][piece_index(pp)], t));
                    }
                }
            }
            assert forall|t: int| 0 <= t < 64 implies (#[trigger] sq_in(self.occ_all, t)
                <==> self.mailbox[t] is Some) by {
                assert(sq_in(self.occ_color[0], t) || sq_in(self.occ_color[1], t) <==> sq_in(self.occ_all, t));
                if let Some((pp, cc)) = self.mailbox[t] {
                    assert(sq_in(self.occ_color[color_index(cc)], t));
                }
            }
        }
    }
}

proof fn lemma_or6(p: [u64; 6], t: int)
    ensures
        sq_in(or_upto(p, 6), t) <==> (exists|q: int| 0 <= q < 6 && sq_in(#[trigger] p[q], t)),
{
    broadcast use group_bitboard;
    reveal_with_fuel(or_upto, 7);
    if sq_in(or_upto(p, 6), t) {
        if sq_in(p[0], t) {} else if sq_in(p[1], t) {} else if sq_in(p[2], t) {} else if sq_in(p[3], t) {} else if sq_in(p[4], t) {} else {
            assert(sq_in(p[5], t));
        }
    }
}

/// The back rank, a-file to h-file: rook, knight, bishop, queen, king, bishop, knight, rook.
pub open spec fn back_rank(f: int) -> PieceType {
    if f == 0 || f == 7 {
        PieceType::Rook
    } else if f == 1 || f == 6 {
        PieceType::Knight
    } else if f == 2 || f == 5 {
        PieceType::Bishop
    } else if f == 3 {
        PieceType::Queen
    } else {
        PieceType::King
    }
}

/// The mailbox of the starting position.
pub open spec fn start_mailbox() -> Seq<Option<(PieceType, Color)>> {
    Seq::new(
        64,
        |i: int|
            if i < 8 {
                Some((back_rank(i), Color::White))
            } else if i < 16 {
                Some((PieceType::Pawn, Color::White))
            } else if i >= 56 {
                Some((back_rank(i - 56), Color::Black))
            } else if i >= 48 {
                Some((PieceType::Pawn, Color::Black))
            } else {
                None
            },
    )
}

fn back_rank_piece(f: usize) -> (p: PieceType)
    requires
        f < 8,
    ensures
        p == back_rank(f as int),
{
    if f == 0 || f == 7 {
        PieceType::Rook
    } else if f == 1 || f == 6 {
        PieceType::Knight
    } else if f == 2 || f == 5 {
        PieceType::Bishop
    } else if f == 3 {
        PieceType::Queen
    } else {
        PieceType::King
    }
}

/// The square named by `b[lo..hi]` (its first two bytes), or `NO_SQUARE`.
fn parse_ep(b: &[u8], lo: usize, hi: usize) -> (r: Square)
    requires
        lo <= hi <= b@.len(),
    ensures
        r == (match parse_square_bytes(b@.subrange(lo as int, hi as int)) {
            Some(x) => x as Square,
            None => NO_SQUARE,
        }),
{
    let ghost f = b@.subrange(lo as int, hi as int);
    if hi - lo >= 2 && 97 <= b[lo] && b[lo] <= 104 && 49 <= b[lo + 1] && b[lo + 1] <= 56 {
        assert(f[0] == b@[lo as int] && f[1] == b@[lo + 1]);
        (b[lo + 1] - 49) * 8 + (b[lo] - 97)
    } else {
        assert(f.len() >= 2 ==> f[0] == b@[lo as int] && f[1] == b@[lo + 1]);
        NO_SQUARE
    }
}

/// The ASCII code of a piece's FEN letter.
pub open spec fn piece_byte(p: PieceType, c: Color) -> u8 {
    let l: u8 = match p {
        PieceType::Pawn => 112,
        PieceType::Knight => 110,
        PieceType::Bishop => 98,
        PieceType::Rook => 114,
        PieceType::Queen => 113,
        PieceType::King => 107,
    };
    if c == Color::White {
        (l - 32) as u8
    } else {
        l
    }
}

fn piece_byte_exec(p: PieceType, c: Color) -> (r: u8)
    ensures
        r == piece_byte(p, c),
{
    let l: u8 = match p {
        PieceType::Pawn => 112,
        PieceType::Knight => 110,
        PieceType::Bishop => 98,
        PieceType::Rook => 114,
        PieceType::Queen => 113,
        PieceType::King => 107,
    };
    if c == Color::White {
        l - 32
    } else {
        l
    }
}

/// FEN text for rank `rank` from `file` on, with `empty` empty squares pending.
pub open spec fn row_bytes(mb: Seq<Option<(PieceType, Color)>>, rank: int, file: int, empty: int) -> Seq<u8>
    decreases 8 - file,
{
    if file >= 8 {
        if empty > 0 {
            seq![(48 + empty) as u8]
        } else {
            Seq::<u8>::empty()
        }
    } else {
        match mb[rank * 8 + file] {
            None => row_bytes(mb, rank, file + 1, empty + 1),
            Some((p, c)) => (if empty > 0 {
                seq![(48 + empty) as u8]
            } else {
                Seq::<u8>::empty()
            }) + seq![piece_byte(p, c)] + row_bytes(mb, rank, file + 1, 0),
        }
    }
}

/// FEN placement text for ranks `rank` down to 1, separated by '/'.
pub open spec fn placement_from(mb: Seq<Option<(PieceType, Color)>>, rank: int) -> Seq<u8>
    decreases rank + 1,
{
    if rank < 0 {
        Seq::<u8>::empty()
    } else if rank == 0 {
        row_bytes(mb, 0, 0, 0)
    } else {
        row_bytes(mb, rank, 0, 0) + seq![47u8] + placement_from(mb, rank - 1)
    }
}

/// The decimal digits of `n`.
pub open spec fn decimal(n: nat) -> Seq<u8>
    decreases n,
{
    if n < 10 {
        seq![(48 + n) as u8]
    } else {
        decimal(n / 10) + seq![(48 + n % 10) as u8]
    }
}

pub open spec fn castling_text(c: u8) -> Seq<u8> {
    let t = (if c & CASTLE_WK != 0 {
        seq![75u8]
    } else {
        Seq::<u8>::empty()
    }) + (if c & CASTLE_WQ != 0 {
        seq![81u8]
    } else {
        Seq::<u8>::empty()
    }) + (if c & CASTLE_BK != 0 {
        seq![107u8]
    } else {
        Seq::<u8>::empty()
    }) + (if c & CASTLE_BQ != 0 {
        seq![113u8]
    } else {
        Seq::<u8>::empty()
    });
    if t.len() == 0 {
        seq![45u8]
    } else {
        t
    }
}

/// The FEN text of a position.
pub open spec fn fen_bytes(b: Board) -> Seq<u8> {
    placement_from(b.mailbox@, 7) + seq![32u8] + seq![
        if b.side == Color::White {
            119u8
        } else {
            98u8
        },
    ] + seq![32u8] + castling_text(b.castling) + seq![32u8] + square_name_bytes(b.ep_square as int)
        + seq![32u8] + decimal(b.halfmove as nat) + seq![32u8] + decimal(b.fullmove as nat)
}

proof fn lemma_row_ascii(mb: Seq<Option<(PieceType, Color)>>, rank: int, file: int, empty: int)
    requires
        0 <= empty <= 8,
        empty + (8 - file) <= 8 || file >= 8,
    ensures
        crate::text::all_ascii(row_bytes(mb, rank, file, empty)),
    decreases 8 - file,
{
    if file < 8 {
        match mb[rank * 8 + file] {
            None => lemma_row_ascii(mb, rank, file + 1, empty + 1),
            Some((p, c)) => {
                lemma_row_ascii(mb, rank, file + 1, 0);
            },
        }
    }
}

proof fn lemma_placement_ascii(mb: Seq<Option<(PieceType, Color)>>, rank: int)
    ensures
        crate::text::all_ascii(placement_from(mb, rank)),
    decreases rank + 1,
{
    if rank >= 0 {
        lemma_row_ascii(mb, rank, 0, 0);
        if rank > 0 {
            lemma_placement_ascii(mb, rank - 1);
        }
    }
}

proof fn lemma_decimal_ascii(n: nat)
    ensures
        crate::text::all_ascii(decimal(n)),
    decreases n,
{
    if n >= 10 {
        lemma_decimal_ascii(n / 10);
    }
}

fn push_decimal(n: u32, out: &mut Vec<u8>)
    ensures
        final(out)@ == old(out)@ + decimal(n as nat),
    decreases n,
{
    if n < 10 {
        out.push(48 + n as u8);
    } else {
        push_decimal(n / 10, out);
        out.push(48 + (n % 10) as u8);
        assert(final(out)@ =~= old(out)@ + decimal(n as nat));
    }
}

fn push_placement(mailbox: &Mailbox, out: &mut Vec<u8>)
    ensures
        final(out)@ == old(out)@ + placement_from(mailbox@, 7),
{
    let ghost mb = mailbox@;
    let ghost out0 = out@;
    let mut rank: i32 = 7;
    while rank >= 0
        invariant
            -1 <= rank <= 7,
            mb == mailbox@,
            out@ + placement_from(mb, rank as int) == out0 + placement_from(mb, 7),
        decreases rank + 1,
    {
        let ghost start = out@;
        let mut empty: u8 = 0;
        let mut file: u8 = 0;
        while file < 8
            invariant
                0 <= rank <= 7,
                file <= 8,
                empty <= file,
                mb == mailbox@,
                out@ + row_bytes(mb, rank as int, file as int, empty as int) == start + row_bytes(
                    mb,
                    rank as int,
                    0,
                    0,
                ),
            decreases 8 - file,
        {
            let sqi = (rank as u8) * 8 + file;
            match mailbox[sqi as usize] {
                None => {
                    empty = empty + 1;
                },
                Some((pt, c)) => {
                    let ghost before = out@;
                    let ghost e0 = empty;
                    if empty > 0 {
                        out.push(48 + empty);
                        empty = 0;
                    }
                    out.push(piece_byte_exec(pt, c));
                    assert(out@ + row_bytes(mb, rank as int, file + 1, 0) =~= before + row_bytes(
                        mb,
                        rank as int,
                        file as int,
                        e0 as int,
                    ));
                },
            }
            file = file + 1;
        }
        if empty > 0 {
            out.push(48 + empty);
        }
        assert(out@ =~= start + row_bytes(mb, rank as int, 0, 0));
        if rank > 0 {
            out.push(47);
        }
        assert(out@ + placement_from(mb, rank - 1) =~= start + placement_from(mb, rank as int));
        rank = rank - 1;
    }
    assert(out@ =~= out0 + placement_from(mb, 7));
}

fn push_castling(c: u8, out: &mut Vec<u8>)
    ensures
        final(out)@ == old(out)@ + castling_text(c),
{
    let ghost before_c = out@;
    let mut any = false;
    if c & CASTLE_WK != 0 {
        out.push(75);
        any = true;
    }
    if c & CASTLE_WQ != 0 {
        out.push(81);
        any = true;
    }
    if c & CASTLE_BK != 0 {
        out.push(107);
        any = true;
    }
    if c & CASTLE_BQ != 0 {
        out.push(113);
        any = true;
    }
    if !any {
        out.push(45);
    }
    assert(out@ =~= before_c + castling_text(c));
}

proof fn lemma_fen_ascii(b: Board)
    ensures
        crate::text::all_ascii(fen_bytes(b)),
{
    lemma_placement_ascii(b.mailbox@, 7);
    lemma_decimal_ascii(b.halfmove as nat);
    lemma_decimal_ascii(b.fullmove as nat);
    let p = placement_from(b.mailbox@, 7);
    let f = fen_bytes(b);
    let rest = seq![32u8] + seq![
        if b.side == Color::White {
            119u8
        } else {
            98u8
        },
    ] + seq![32u8] + castling_text(b.castling) + seq![32u8] + square_name_bytes(b.ep_square as int)
        + seq![32u8] + decimal(b.halfmove as nat) + seq![32u8] + decimal(b.fullmove as nat);
    assert(f =~= p + rest);
    assert(crate::text::all_ascii(rest));
}

impl Board {
    /// The position in Forsyth-Edwards notation.
    pub fn to_fen(&self) -> (s: String)
        ensures
            s@ == crate::text::chars_of(fen_bytes(*self)),
    {
        let mut out: Vec<u8> = Vec::new();
        push_placement(&self.mailbox, &mut out);
        out.push(32);
        out.push(
            if self.side == Color::White {
                119
            } else {
                98
            },
        );
        out.push(32);
        push_castling(self.castling, &mut out);
        out.push(32);
        sq_name_bytes(self.ep_square, &mut out);
        out.push(32);
        push_decimal(self.halfmove, &mut out);
        out.push(32);
        push_decimal(self.fullmove, &mut out);
        assert(out@ =~= fen_bytes(*self));
        proof {
            lemma_fen_ascii(*self);
        }
        crate::text::ascii_string(out)
    }
}


/// `acc` with the pieces of rank `r` from file `f` on set as in `mb`.
pub open spec fn fill_row(
    mb: Seq<Option<(PieceType, Color)>>,
    r: int,
    f: int,
    acc: Seq<Option<(PieceType, Color)>>,
) -> Seq<Option<(PieceType, Color)>>
    decreases 8 - f,
{
    if f >= 8 {
        acc
    } else {
        fill_row(
            mb,
            r,
            f + 1,
            match mb[r * 8 + f] {
                Some(pc) => acc.update(r * 8 + f, Some(pc)),
                None => acc,
            },
        )
    }
}

/// `acc` with the pieces of ranks `r` down to 1 set as in `mb`.
pub open spec fn fill_rows(mb: Seq<Option<(PieceType, Color)>>, r: int, acc: Seq<Option<(PieceType, Color)>>) -> Seq<
    Option<(PieceType, Color)>,
>
    decreases r + 1,
{
    if r < 0 {
        acc
    } else {
        fill_rows(mb, r - 1, fill_row(mb, r, 0, acc))
    }
}

proof fn lemma_piece_byte(p: PieceType, c: Color)
    ensures
        piece_of_byte(piece_byte(p, c)) == Some((p, c)),
        piece_byte(p, c) != 47,
        !(49 <= piece_byte(p, c) <= 56),
        !is_ws(piece_byte(p, c)),
{
}

/// Reading the text of rank `r` from file `f` (with `e` empty squares
/// pending) puts that rank's pieces in and ends at file 8.
proof fn lemma_place_row(
    b: Seq<u8>,
    i: int,
    mb: Seq<Option<(PieceType, Color)>>,
    r: int,
    f: int,
    e: int,
    acc: Seq<Option<(PieceType, Color)>>,
)
    requires
        0 <= r < 8,
        0 <= e <= f <= 8,
        mb.len() == 64,
        acc.len() == 64,
        0 <= i,
        i + row_bytes(mb, r, f, e).len() <= b.len(),
        b.subrange(i, i + row_bytes(mb, r, f, e).len()) == row_bytes(mb, r, f, e),
    ensures
        place(b, i, r, f - e, acc) == place(b, i + row_bytes(mb, r, f, e).len(), r, 8, fill_row(mb, r, f, acc)),
        fill_row(mb, r, f, acc).len() == 64,
    decreases 8 - f,
{
    let t = row_bytes(mb, r, f, e);
    if f >= 8 {
        if e > 0 {
            assert(b[i] == t[0]);
        }
    } else {
        match mb[r * 8 + f] {
            None => {
                lemma_place_row(b, i, mb, r, f + 1, e + 1, acc);
            },
            Some((p, c)) => {
                let d = if e > 0 {
                    seq![(48 + e) as u8]
                } else {
                    Seq::<u8>::empty()
                };
                let rest = row_bytes(mb, r, f + 1, 0);
                assert(t == d + seq![piece_byte(p, c)] + rest);
                lemma_piece_byte(p, c);
                let j = i + d.len();
                assert(b.subrange(i, i + t.len())[d.len() as int] == b[j]);
                assert(t[d.len() as int] == piece_byte(p, c));
                assert(b[j] == piece_byte(p, c));
                if e > 0 {
                    assert(b.subrange(i, i + t.len())[0] == b[i]);
                    assert(b[i] == (48 + e) as u8);
                    assert(place(b, i, r, f - e, acc) == place(b, i + 1, r, f, acc));
                }
                let acc2 = acc.update(r * 8 + f, Some((p, c)));
                assert(place(b, j, r, f, acc) == place(b, j + 1, r, f + 1, acc2));
                assert(b.subrange(j + 1, j + 1 + rest.len()) =~= rest) by {
                    assert(b.subrange(i, i + t.len()).subrange(d.len() + 1int, t.len() as int) =~= b.subrange(j + 1, j + 1 + rest.len()));
                    assert(t.subrange(d.len() + 1int, t.len() as int) =~= rest);
                }
                lemma_place_row(b, j + 1, mb, r, f + 1, 0, acc2);
            },
        }
    }
}

/// Reading ranks `r` down to 1 puts every piece of them in.
proof fn lemma_place_rows(b: Seq<u8>, i: int, mb: Seq<Option<(PieceType, Color)>>, r: int, acc: Seq<Option<(PieceType, Color)>>)
    requires
        0 <= r < 8,
        mb.len() == 64,
        acc.len() == 64,
        0 <= i,
        i + placement_from(mb, r).len() <= b.len(),
        b.subrange(i, i + placement_from(mb, r).len()) == placement_from(mb, r),
    ensures
        place(b, i, r, 0, acc) == place(b, i + placement_from(mb, r).len(), 0, 8, fill_rows(mb, r, acc)),
    decreases r,
{
    let t = placement_from(mb, r);
    let row = row_bytes(mb, r, 0, 0);
    assert(b.subrange(i, i + row.len()) =~= row) by {
        assert(b.subrange(i, i + t.len()).subrange(0, row.len() as int) =~= b.subrange(i, i + row.len()));
        assert(t.subrange(0, row.len() as int) =~= row);
    }
    lemma_place_row(b, i, mb, r, 0, 0, acc);
    let acc1 = fill_row(mb, r, 0, acc);
    if r > 0 {
        let rest = placement_from(mb, r - 1);
        assert(t == row + seq![47u8] + rest);
        let j = i + row.len();
        assert(b.subrange(i, i + t.len())[row.len() as int] == b[j]);
        assert(t[row.len() as int] == 47u8);
        assert(b[j] == 47u8);
        assert(place(b, j, r, 8, acc1) == place(b, j + 1, r - 1, 0, acc1));
        assert(b.subrange(j + 1, j + 1 + rest.len()) =~= rest) by {
            assert(b.subrange(i, i + t.len()).subrange(row.len() + 1int, t.len() as int) =~= b.subrange(j + 1, j + 1 + rest.len()));
            assert(t.subrange(row.len() + 1int, t.len() as int) =~= rest);
        }
        lemma_place_rows(b, j + 1, mb, r - 1, acc1);
    }
}

proof fn lemma_fill_row(mb: Seq<Option<(PieceType, Color)>>, r: int, f: int, acc: Seq<Option<(PieceType, Color)>>)
    requires
        0 <= r < 8,
        0 <= f <= 8,
        mb.len() == 64,
        acc.len() == 64,
    ensures
        fill_row(mb, r, f, acc).len() == 64,
        forall|j: int|
            0 <= j < 64 ==> #[trigger] fill_row(mb, r, f, acc)[j] == if r * 8 + f <= j < r * 8 + 8 && mb[j] is Some {
                mb[j]
            } else {
                acc[j]
            },
    decreases 8 - f,
{
    if f < 8 {
        let acc2 = match mb[r * 8 + f] {
            Some(pc) => acc.update(r * 8 + f, Some(pc)),
            None => acc,
        };
        lemma_fill_row(mb, r, f + 1, acc2);
    }
}

proof fn lemma_fill_rows(mb: Seq<Option<(PieceType, Color)>>, r: int, acc: Seq<Option<(PieceType, Color)>>)
    requires
        -1 <= r < 8,
        mb.len() == 64,
        acc.len() == 64,
    ensures
        fill_rows(mb, r, acc).len() == 64,
        forall|j: int|
            0 <= j < 64 ==> #[trigger] fill_rows(mb, r, acc)[j] == if j < r * 8 + 8 && mb[j] is Some {
                mb[j]
            } else {
                acc[j]
            },
    decreases r + 1,
{
    if r >= 0 {
        lemma_fill_row(mb, r, 0, acc);
        lemma_fill_rows(mb, r - 1, fill_row(mb, r, 0, acc));
    }
}

/// The placement text of a mailbox reads back as that mailbox.
pub proof fn lemma_placement_roundtrip(mb: Seq<Option<(PieceType, Color)>>)
    requires
        mb.len() == 64,
    ensures
        place(placement_from(mb, 7), 0, 7, 0, empty_mailbox()) == Some(mb),
{
    let t = placement_from(mb, 7);
    assert(t.subrange(0, t.len() as int) =~= t);
    lemma_place_rows(t, 0, mb, 7, empty_mailbox());
    lemma_fill_rows(mb, 7, empty_mailbox());
    assert(fill_rows(mb, 7, empty_mailbox()) =~= mb);
}


/// No byte of `w` is whitespace.
pub open spec fn no_ws(w: Seq<u8>) -> bool {
    forall|k: int| 0 <= k < w.len() ==> !is_ws(#[trigger] w[k])
}

proof fn lemma_row_words(mb: Seq<Option<(PieceType, Color)>>, rank: int, file: int, empty: int)
    requires
        0 <= empty <= 8,
        empty + (8 - file) <= 8 || file >= 8,
    ensures
        no_ws(row_bytes(mb, rank, file, empty)),
        file < 8 || empty > 0 ==> row_bytes(mb, rank, file, empty).len() > 0,
    decreases 8 - file,
{
    if file < 8 {
        match mb[rank * 8 + file] {
            None => lemma_row_words(mb, rank, file + 1, empty + 1),
            Some((p, c)) => {
                lemma_row_words(mb, rank, file + 1, 0);
                lemma_piece_byte(p, c);
                let d = if empty > 0 {
                    seq![(48 + empty) as u8]
                } else {
                    Seq::<u8>::empty()
                };
                let t = d + seq![piece_byte(p, c)] + row_bytes(mb, rank, file + 1, 0);
                assert(no_ws(t));
            },
        }
    }
}

proof fn lemma_placement_words(mb: Seq<Option<(PieceType, Color)>>, rank: int)
    requires
        0 <= rank,
    ensures
        no_ws(placement_from(mb, rank)),
        placement_from(mb, rank).len() > 0,
    decreases rank,
{
    lemma_row_words(mb, rank, 0, 0);
    if rank > 0 {
        lemma_placement_words(mb, rank - 1);
        let t = row_bytes(mb, rank, 0, 0) + seq![47u8] + placement_from(mb, rank - 1);
        assert(no_ws(t));
    }
}

proof fn lemma_decimal_roundtrip(n: nat)
    ensures
        decimal(n).len() > 0,
        all_digits(decimal(n)),
        no_ws(decimal(n)),
        decimal_value(decimal(n)) == n,
    decreases n,
{
    if n >= 10 {
        lemma_decimal_roundtrip(n / 10);
        let d = decimal(n / 10) + seq![(48 + n % 10) as u8];
        assert(decimal(n) == d);
        assert(d.drop_last() =~= decimal(n / 10));
        assert(d.last() == (48 + n % 10) as u8);
        assert(all_digits(d));
        assert(decimal_value(d) == decimal_value(d.drop_last()) * 10 + (d.last() - 48));
        assert(decimal_value(d) == decimal_value(decimal(n / 10)) * 10 + (n % 10));
        assert((n / 10) * 10 + n % 10 == n);
    } else {
        let d = seq![(48 + n) as u8];
        assert(decimal(n) == d);
        assert(d.drop_last() =~= Seq::<u8>::empty());
        assert(decimal_value(d) == decimal_value(d.drop_last()) * 10 + (d.last() - 48));
        assert(decimal_value(Seq::<u8>::empty()) == 0);
    }
}

/// A number printed in decimal reads back as itself.
pub proof fn lemma_parse_decimal(n: u32)
    ensures
        parse_u32(decimal(n as nat)) == Some(n),
{
    lemma_decimal_roundtrip(n as nat);
    assert(decimal(n as nat)[0] != 43u8);
}

proof fn lemma_castling_bits(c: u8, k: bool, q: bool, kk: bool, qq: bool)
    by (bit_vector)
    requires
        c < 16,
        k == (c & 1 != 0),
        q == (c & 2 != 0),
        kk == (c & 4 != 0),
        qq == (c & 8 != 0),
    ensures
        ({
            let c1 = if k {
                0u8 | 1u8
            } else {
                0u8
            };
            let c2 = if q {
                c1 | 2u8
            } else {
                c1
            };
            let c3 = if kk {
                c2 | 4u8
            } else {
                c2
            };
            if qq {
                c3 | 8u8
            } else {
                c3
            }
        }) == c,
{
}

/// The castling field of a position reads back as its rights.
pub proof fn lemma_castling_roundtrip(c: u8)
    requires
        c < 16,
    ensures
        castling_of_field(castling_text(c)) == c,
        castling_text(c).len() > 0,
        no_ws(castling_text(c)),
{
    let a = if c & CASTLE_WK != 0 {
        seq![75u8]
    } else {
        Seq::<u8>::empty()
    };
    let b = if c & CASTLE_WQ != 0 {
        seq![81u8]
    } else {
        Seq::<u8>::empty()
    };
    let d = if c & CASTLE_BK != 0 {
        seq![107u8]
    } else {
        Seq::<u8>::empty()
    };
    let e = if c & CASTLE_BQ != 0 {
        seq![113u8]
    } else {
        Seq::<u8>::empty()
    };
    let t = a + b + d + e;
    let f = castling_text(c);
    assert(f.contains(75u8) == (c & 1 != 0)) by {
        if c & 1 != 0 {
            assert(t[0] == 75u8);
        }
    }
    assert(f.contains(81u8) == (c & 2 != 0)) by {
        if c & 2 != 0 {
            assert(t[a.len() as int] == 81u8);
        }
    }
    assert(f.contains(107u8) == (c & 4 != 0)) by {
        if c & 4 != 0 {
            assert(t[(a.len() + b.len()) as int] == 107u8);
        }
    }
    assert(f.contains(113u8) == (c & 8 != 0)) by {
        if c & 8 != 0 {
            assert(t[(a.len() + b.len() + d.len()) as int] == 113u8);
        }
    }
    lemma_castling_bits(c, f.contains(75u8), f.contains(81u8), f.contains(107u8), f.contains(113u8));
}

/// The en-passant field reads back as the square (or as none).
pub proof fn lemma_ep_roundtrip(ep: Square)
    requires
        ep <= 64,
    ensures
        ep_of_field(square_name_bytes(ep as int)) == ep,
        square_name_bytes(ep as int).len() > 0,
        no_ws(square_name_bytes(ep as int)),
{
    if ep < 64 {
        let f = square_name_bytes(ep as int);
        assert(f != seq![45u8]) by {
            assert(f[0] != 45u8);
        }
    }
}

proof fn lemma_word_end_at(b: Seq<u8>, i: int, n: int)
    requires
        0 <= i,
        0 <= n,
        i + n <= b.len(),
        forall|k: int| i <= k < i + n ==> !is_ws(#[trigger] b[k]),
        i + n == b.len() || is_ws(b[i + n]),
    ensures
        word_end(b, i) == i + n,
    decreases n,
{
    if n > 0 {
        lemma_word_end_at(b, i + 1, n - 1);
    }
}

/// Field `k` of the text, for a word `w` that stands at `p` after a single
/// space (or at the start), followed by a space or the end.
proof fn lemma_field_at(b: Seq<u8>, i: int, p: int, w: Seq<u8>)
    requires
        0 <= i <= p,
        p == i || (p == i + 1 && is_ws(b[i])),
        p + w.len() <= b.len(),
        w.len() > 0,
        no_ws(w),
        b.subrange(p, p + w.len()) == w,
        p + w.len() == b.len() || is_ws(b[p + w.len()]),
    ensures
        skip_ws(b, i) == p,
        word_end(b, p) == p + w.len(),
        b.subrange(skip_ws(b, i), word_end(b, skip_ws(b, i))) == w,
{
    assert forall|k: int| p <= k < p + w.len() implies !is_ws(#[trigger] b[k]) by {
        assert(b.subrange(p, p + w.len())[k - p] == b[k]);
    }
    assert(!is_ws(b[p]));
    assert(skip_ws(b, p) == p);
    if p == i + 1 {
        assert(skip_ws(b, i) == skip_ws(b, p));
    }
    lemma_word_end_at(b, p, w.len() as int);
}

/// The six fields of six words joined by single spaces are the words.
proof fn lemma_six_fields(
    t: Seq<u8>,
    w0: Seq<u8>,
    w1: Seq<u8>,
    w2: Seq<u8>,
    w3: Seq<u8>,
    w4: Seq<u8>,
    w5: Seq<u8>,
)
    requires
        t == w0 + seq![32u8] + w1 + seq![32u8] + w2 + seq![32u8] + w3 + seq![32u8] + w4 + seq![32u8] + w5,
        w0.len() > 0 && w1.len() > 0 && w2.len() > 0 && w3.len() > 0 && w4.len() > 0 && w5.len() > 0,
        no_ws(w0) && no_ws(w1) && no_ws(w2) && no_ws(w3) && no_ws(w4) && no_ws(w5),
    ensures
        fen_field(t, 0) == w0,
        fen_field(t, 1) == w1,
        fen_field(t, 2) == w2,
        fen_field(t, 3) == w3,
        fen_field(t, 4) == w4,
        fen_field(t, 5) == w5,
{
    let e0 = w0.len() as int;
    let p1 = e0 + 1;
    let e1 = p1 + w1.len();
    let p2 = e1 + 1;
    let e2 = p2 + w2.len();
    let p3 = e2 + 1;
    let e3 = p3 + w3.len();
    let p4 = e3 + 1;
    let e4 = p4 + w4.len();
    let p5 = e4 + 1;
    let e5 = p5 + w5.len();
    assert(t.len() == e5);
    assert(t.subrange(0, e0) =~= w0);
    assert(t.subrange(p1, e1) =~= w1);
    assert(t.subrange(p2, e2) =~= w2);
    assert(t.subrange(p3, e3) =~= w3);
    assert(t.subrange(p4, e4) =~= w4);
    assert(t.subrange(p5, e5) =~= w5);
    assert(t[e0] == 32u8 && t[e1] == 32u8 && t[e2] == 32u8 && t[e3] == 32u8 && t[e4] == 32u8);
    lemma_field_at(t, 0, 0, w0);
    lemma_field_at(t, e0, p1, w1);
    lemma_field_at(t, e1, p2, w2);
    lemma_field_at(t, e2, p3, w3);
    lemma_field_at(t, e3, p4, w4);
    lemma_field_at(t, e4, p5, w5);
    reveal_with_fuel(field_from, 6);
}

/// The six fields of a printed position are the six words that were printed.
proof fn lemma_fen_fields(b: Board)
    requires
        b.castling < 16,
        b.ep_square <= 64,
        b.mailbox@.len() == 64,
    ensures
        fen_field(fen_bytes(b), 0) == placement_from(b.mailbox@, 7),
        fen_field(fen_bytes(b), 1) == seq![if b.side == Color::White { 119u8 } else { 98u8 }],
        fen_field(fen_bytes(b), 2) == castling_text(b.castling),
        fen_field(fen_bytes(b), 3) == square_name_bytes(b.ep_square as int),
        fen_field(fen_bytes(b), 4) == decimal(b.halfmove as nat),
        fen_field(fen_bytes(b), 5) == decimal(b.fullmove as nat),
{
    let w1 = seq![if b.side == Color::White { 119u8 } else { 98u8 }];
    lemma_placement_words(b.mailbox@, 7);
    lemma_castling_roundtrip(b.castling);
    lemma_ep_roundtrip(b.ep_square);
    lemma_decimal_roundtrip(b.halfmove as nat);
    lemma_decimal_roundtrip(b.fullmove as nat);
    assert(no_ws(w1));
    lemma_six_fields(
        fen_bytes(b),
        placement_from(b.mailbox@, 7),
        w1,
        castling_text(b.castling),
        square_name_bytes(b.ep_square as int),
        decimal(b.halfmove as nat),
        decimal(b.fullmove as nat),
    );
}

/// A printed position reads back as itself: its placement, side to move,
/// castling rights, en-passant square and both clocks.
pub proof fn lemma_fen_roundtrip(b: Board)
    requires
        b.castling < 16,
        b.ep_square <= 64,
    ensures
        fen_ok(fen_bytes(b)),
        fen_placement(fen_bytes(b)) == Some(b.mailbox@),
        (fen_field(fen_bytes(b), 1) == seq![98u8]) == (b.side == Color::Black),
        castling_of_field(fen_field(fen_bytes(b), 2)) == b.castling,
        ep_of_field(fen_field(fen_bytes(b), 3)) == b.ep_square,
        parse_u32(fen_field(fen_bytes(b), 4)) == Some(b.halfmove),
        parse_u32(fen_field(fen_bytes(b), 5)) == Some(b.fullmove),
{
    lemma_fen_fields(b);
    lemma_placement_roundtrip(b.mailbox@);
    lemma_castling_roundtrip(b.castling);
    lemma_ep_roundtrip(b.ep_square);
    lemma_parse_decimal(b.halfmove);
    lemma_parse_decimal(b.fullmove);
    if b.side == Color::White {
        assert(seq![119u8] != seq![98u8]) by {
            assert(seq![119u8][0] != seq![98u8][0]);
        }
    }
}

/// A FEN as positions are printed reads back and prints as the same text:
/// the board that `fen_bytes(b)` describes prints as `fen_bytes(b)`.
pub proof fn lemma_fen_read_print(b: Board, b2: Board)
    requires
        b.castling < 16,
        b.ep_square <= 64,
        fen_reads_as(fen_bytes(b), b2),
    ensures
        fen_bytes(b2) == fen_bytes(b),
{
    lemma_fen_roundtrip(b);
    assert(b2.mailbox@ == b.mailbox@);
}

} // verus!
