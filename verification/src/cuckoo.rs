//! Repetition one move away, by a cuckoo table (Marcel van Kervinck's method).
//!
//! A reversible piece move (not a pawn move, not a capture) changes the Zobrist
//! key the same way every time: `piece[from] ^ piece[to] ^ side`. There are few
//! such differences, kept in a two-hash table; whether some move from here
//! returns to a position already seen is then a lookup of the XOR of the two keys.
use vstd::prelude::*;
use crate::attacks::{Attacks, bishop_attacks, queen_attacks, rook_attacks, between_spec, knight_spec, king_spec, bishop_spec, rook_spec, queen_spec};
use crate::bitboard::{sq_in, group_bitboard};
use crate::board::Board;
use crate::types::{Color, Square, color_index};
use crate::zobrist::Zobrist;
use vstd::multiset::Multiset;

verus! {

pub const N: usize = 8192;

pub struct Cuckoo {
    pub chave: [u64; 8192],
    /// The move giving that difference, as (from, to), from < to.
    pub lance: [(Square, Square); 8192],
    /// How many differences were put in.
    pub postos: usize,
}

pub open spec fn h1_spec(k: u64) -> int {
    (k & 0x1fffu64) as int
}

pub open spec fn h2_spec(k: u64) -> int {
    ((k >> 16u64) & 0x1fffu64) as int
}

proof fn lemma_hash_range(k: u64)
    by (bit_vector)
    ensures
        (k & 0x1fffu64) < 8192,
        ((k >> 16u64) & 0x1fffu64) < 8192,
{
}

fn h1(k: u64) -> (r: usize)
    ensures
        r == h1_spec(k),
        r < 8192,
{
    proof {
        lemma_hash_range(k);
    }
    (k & 0x1fff) as usize
}

fn h2(k: u64) -> (r: usize)
    ensures
        r == h2_spec(k),
        r < 8192,
{
    proof {
        lemma_hash_range(k);
    }
    ((k >> 16) & 0x1fff) as usize
}

/// The key difference of a reversible move of a (non-pawn) piece from `de` to `para`.
pub open spec fn move_key(z: Zobrist, c: int, p: int, de: int, para: int) -> u64 {
    z.piece_sq[c][p][de] ^ z.piece_sq[c][p][para] ^ z.side
}

/// `k` is the key difference of moving some piece between the two squares of `mv`.
pub open spec fn entry_ok(z: Zobrist, k: u64, mv: (Square, Square)) -> bool {
    &&& mv.0 < mv.1 < 64
    &&& exists|c: int, p: int| 0 <= c < 2 && 1 <= p < 6 && k == #[trigger] move_key(z, c, p, mv.0 as int, mv.1 as int)
}

/// An entry as the table counts it: a zero key is an empty slot.
pub open spec fn present(e: (u64, (Square, Square))) -> Multiset<(u64, (Square, Square))> {
    if e.0 != 0 {
        Multiset::singleton(e)
    } else {
        Multiset::empty()
    }
}

/// The entries held in the first `n` slots.
pub open spec fn table_entries(ch: Seq<u64>, la: Seq<(Square, Square)>, n: nat) -> Multiset<(u64, (Square, Square))>
    decreases n,
{
    if n == 0 {
        Multiset::empty()
    } else {
        table_entries(ch, la, (n - 1) as nat).add(present((ch[n - 1], la[n - 1])))
    }
}

/// The slot a key goes to when it is pushed out of slot `i`.
pub open spec fn other_slot(key: u64, i: int) -> int {
    if i == h1_spec(key) {
        h2_spec(key)
    } else {
        h1_spec(key)
    }
}

/// The displacement chain: `key` and `mv` go into slot `i`, and what was there
/// moves on to its other slot, for at most `fuel` steps. The result is the two
/// tables and the entry still carried at the end (a zero key when the chain
/// ended in an empty slot).
pub open spec fn displace(
    ch: Seq<u64>,
    la: Seq<(Square, Square)>,
    key: u64,
    mv: (Square, Square),
    i: int,
    fuel: nat,
) -> (Seq<u64>, Seq<(Square, Square)>, (u64, (Square, Square)))
    decreases fuel,
{
    if fuel == 0 {
        (ch, la, (key, mv))
    } else {
        let a = ch[i];
        let x = la[i];
        if a == 0 {
            (ch.update(i, key), la.update(i, mv), (a, x))
        } else {
            displace(ch.update(i, key), la.update(i, mv), a, x, other_slot(a, i), (fuel - 1) as nat)
        }
    }
}

proof fn lemma_entries_agree(ch1: Seq<u64>, la1: Seq<(Square, Square)>, ch2: Seq<u64>, la2: Seq<(Square, Square)>, n: nat)
    requires
        forall|j: int| 0 <= j < n ==> ch1[j] == ch2[j] && la1[j] == la2[j],
    ensures
        table_entries(ch1, la1, n) == table_entries(ch2, la2, n),
    decreases n,
{
    if n > 0 {
        lemma_entries_agree(ch1, la1, ch2, la2, (n - 1) as nat);
    }
}

/// Writing one slot trades the entry that was there for the one written.
proof fn lemma_entries_update(ch: Seq<u64>, la: Seq<(Square, Square)>, n: nat, i: int, b: u64, y: (Square, Square))
    requires
        0 <= i < n,
        n <= ch.len(),
        n <= la.len(),
    ensures
        table_entries(ch.update(i, b), la.update(i, y), n).add(present((ch[i], la[i])))
            =~= table_entries(ch, la, n).add(present((b, y))),
    decreases n,
{
    broadcast use vstd::multiset::group_multiset_axioms;
    let ch2 = ch.update(i, b);
    let la2 = la.update(i, y);
    let m = (n - 1) as nat;
    let rest = table_entries(ch, la, m);
    let rest2 = table_entries(ch2, la2, m);
    assert(table_entries(ch2, la2, n) == rest2.add(present((ch2[m as int], la2[m as int]))));
    assert(table_entries(ch, la, n) == rest.add(present((ch[m as int], la[m as int]))));
    if i == m {
        lemma_entries_agree(ch2, la2, ch, la, m);
        assert(ch2[m as int] == b && la2[m as int] == y);
    } else {
        lemma_entries_update(ch, la, m, i, b, y);
        assert(ch2[m as int] == ch[m as int] && la2[m as int] == la[m as int]);
    }
    let lhs = table_entries(ch2, la2, n).add(present((ch[i], la[i])));
    let rhs = table_entries(ch, la, n).add(present((b, y)));
    assert forall|v: (u64, (Square, Square))| lhs.count(v) == rhs.count(v) by {
        if i != m {
            assert(rest2.add(present((ch[i], la[i]))).count(v) == rest.add(present((b, y))).count(v));
        }
    }
}

/// Where a piece of kind `pt` (1 knight .. 5 king) on `de` reaches on an empty board.
pub open spec fn empty_board_reach(pt: int, de: int) -> u64 {
    if pt == 1 {
        knight_spec(de)
    } else if pt == 2 {
        bishop_spec(de, 0)
    } else if pt == 3 {
        rook_spec(de, 0)
    } else if pt == 4 {
        queen_spec(de, 0)
    } else {
        king_spec(de)
    }
}

/// The entry of the reversible move of piece `pt` of colour `ic` between `de` and `para`.
pub open spec fn rev_entry(z: Zobrist, ic: int, pt: int, de: int, para: int) -> (u64, (Square, Square)) {
    (move_key(z, ic, pt, de, para), (de as u8, para as u8))
}

/// The entries of the reversible moves, colour by colour, knight to king,
/// by the lower square and then the higher, from the given point on.
pub open spec fn entries_after(z: Zobrist, ic: int, pt: int, de: int, para: int) -> Seq<(u64, (Square, Square))>
    decreases 2 - ic, 6 - pt, 64 - de, 65 - para,
{
    if ic >= 2 {
        Seq::empty()
    } else if pt > 5 {
        entries_after(z, ic + 1, 1, 0, 1)
    } else if de >= 64 {
        entries_after(z, ic, pt + 1, 0, 1)
    } else if para >= 64 {
        entries_after(z, ic, pt, de + 1, de + 2)
    } else {
        let rest = entries_after(z, ic, pt, de, para + 1);
        if sq_in(empty_board_reach(pt, de), para) {
            seq![rev_entry(z, ic, pt, de, para)].add(rest)
        } else {
            rest
        }
    }
}

/// Every reversible knight, bishop, rook, queen and king move of both colours,
/// each pair of squares once (lower square first), with its key difference.
pub open spec fn reversible_entries(z: Zobrist) -> Seq<(u64, (Square, Square))> {
    entries_after(z, 0, 1, 0, 1)
}

/// Putting the entries in one after another; the tables, and the entries
/// left over from displacement chains cut short.
pub open spec fn fill(ch: Seq<u64>, la: Seq<(Square, Square)>, es: Seq<(u64, (Square, Square))>) -> (
    Seq<u64>,
    Seq<(Square, Square)>,
    Multiset<(u64, (Square, Square))>,
)
    decreases es.len(),
{
    if es.len() == 0 {
        (ch, la, Multiset::empty())
    } else {
        let e = es[0];
        let d = displace(ch, la, e.0, e.1, h1_spec(e.0), 8192);
        let r = fill(d.0, d.1, es.drop_first());
        (r.0, r.1, r.2.add(present(d.2)))
    }
}

/// The entries of a list, as the table counts them.
pub open spec fn present_all(es: Seq<(u64, (Square, Square))>) -> Multiset<(u64, (Square, Square))>
    decreases es.len(),
{
    if es.len() == 0 {
        Multiset::empty()
    } else {
        present(es[0]).add(present_all(es.drop_first()))
    }
}

/// The empty table.
pub open spec fn empty_keys() -> Seq<u64> {
    Seq::new(8192, |i: int| 0u64)
}

pub open spec fn empty_moves() -> Seq<(Square, Square)> {
    Seq::new(8192, |i: int| (0u8, 0u8))
}

proof fn lemma_empty_entries(n: nat)
    requires
        n <= 8192,
    ensures
        table_entries(empty_keys(), empty_moves(), n) =~= Multiset::empty(),
    decreases n,
{
    broadcast use vstd::multiset::group_multiset_axioms;
    if n > 0 {
        lemma_empty_entries((n - 1) as nat);
    }
}

/// A displacement chain keeps every entry: the table gains the one put in and
/// loses only the one still carried at the end.
pub proof fn lemma_displace_conserves(ch: Seq<u64>, la: Seq<(Square, Square)>, key: u64, mv: (Square, Square), i: int, fuel: nat)
    requires
        ch.len() == 8192,
        la.len() == 8192,
        0 <= i < 8192,
    ensures
        ({
            let d = displace(ch, la, key, mv, i, fuel);
            &&& d.0.len() == 8192
            &&& d.1.len() == 8192
            &&& table_entries(d.0, d.1, 8192).add(present(d.2)) =~= table_entries(ch, la, 8192).add(present((key, mv)))
        }),
    decreases fuel,
{
    broadcast use vstd::multiset::group_multiset_axioms;
    if fuel > 0 {
        let a = ch[i];
        let x = la[i];
        lemma_entries_update(ch, la, 8192, i, key, mv);
        if a != 0 {
            lemma_hash_range(a);
            lemma_displace_conserves(ch.update(i, key), la.update(i, mv), a, x, other_slot(a, i), (fuel - 1) as nat);
        }
    }
}

/// Filling keeps every entry: the table ends with all of them but those left
/// over from cut chains.
pub proof fn lemma_fill_conserves(ch: Seq<u64>, la: Seq<(Square, Square)>, es: Seq<(u64, (Square, Square))>)
    requires
        ch.len() == 8192,
        la.len() == 8192,
    ensures
        ({
            let f = fill(ch, la, es);
            &&& f.0.len() == 8192
            &&& f.1.len() == 8192
            &&& table_entries(f.0, f.1, 8192).add(f.2) =~= table_entries(ch, la, 8192).add(present_all(es))
        }),
    decreases es.len(),
{
    broadcast use vstd::multiset::group_multiset_axioms;
    if es.len() > 0 {
        let e = es[0];
        lemma_hash_range(e.0);
        lemma_displace_conserves(ch, la, e.0, e.1, h1_spec(e.0), 8192);
        let d = displace(ch, la, e.0, e.1, h1_spec(e.0), 8192);
        lemma_fill_conserves(d.0, d.1, es.drop_first());
        let r = fill(d.0, d.1, es.drop_first());
        let lhs = table_entries(r.0, r.1, 8192).add(r.2.add(present(d.2)));
        let rhs = table_entries(ch, la, 8192).add(present(e).add(present_all(es.drop_first())));
        assert forall|v: (u64, (Square, Square))| lhs.count(v) == rhs.count(v) by {
            assert(table_entries(r.0, r.1, 8192).add(r.2).count(v) == table_entries(d.0, d.1, 8192).add(
                present_all(es.drop_first()),
            ).count(v));
            assert(table_entries(d.0, d.1, 8192).add(present(d.2)).count(v) == table_entries(ch, la, 8192).add(
                present(e),
            ).count(v));
        }
        assert(lhs =~= rhs);
    }
}

impl Cuckoo {
    /// Every key in the table sits at one of its two hash slots and is the key
    /// difference of the move stored beside it.
    pub open spec fn wf(&self, z: Zobrist) -> bool {
        forall|i: int| 0 <= i < 8192 && #[trigger] self.chave[i] != 0 ==> (h1_spec(self.chave[i]) == i
            || h2_spec(self.chave[i]) == i) && entry_ok(z, self.chave[i], self.lance[i])
    }

    /// What the table holds, with repeats.
    pub open spec fn entries(&self) -> Multiset<(u64, (Square, Square))> {
        table_entries(self.chave@, self.lance@, 8192)
    }

    /// The table of the reversible moves' key differences: every reversible
    /// knight, bishop, rook, queen and king move of both colours, each pair of
    /// squares once, put in in that order (`fill` over `reversible_entries`).
    /// `postos` counts them; the table holds all of them but any left over
    /// from a displacement chain cut short.
    pub fn novo(zob: &Zobrist, atk: &Attacks) -> (c: Self)
        requires
            atk.wf(),
        ensures
            c.wf(*zob),
            c.moves_on_board(),
            c.chave@ == fill(empty_keys(), empty_moves(), reversible_entries(*zob)).0,
            c.lance@ == fill(empty_keys(), empty_moves(), reversible_entries(*zob)).1,
            c.postos == reversible_entries(*zob).len(),
            c.entries().add(fill(empty_keys(), empty_moves(), reversible_entries(*zob)).2) =~= present_all(
                reversible_entries(*zob),
            ),
    {
        let mut c = Cuckoo { chave: [0; 8192], lance: [(0, 0); 8192], postos: 0 };
        assert(c.wf(*zob) && c.moves_on_board()) by {
            assert forall|i: int| 0 <= i < 8192 implies c.chave[i] == 0 && c.lance[i] == (0u8, 0u8) by {}
        }
        let ghost all = reversible_entries(*zob);
        let ghost f = fill(empty_keys(), empty_moves(), all);
        assert(c.chave@ =~= empty_keys());
        assert(c.lance@ =~= empty_moves());
        // 1..=5: knight, bishop, rook, queen, king. The pawn (0) is left out.
        let mut ic: usize = 0;
        while ic < 2
            invariant
                ic <= 2,
                c.wf(*zob),
                c.moves_on_board(),
                atk.wf(),
                c.postos <= ic * 5 * 64 * 64,
                all == reversible_entries(*zob),
                f == fill(empty_keys(), empty_moves(), all),
                fill(c.chave@, c.lance@, entries_after(*zob, ic as int, 1, 0, 1)).0 == f.0,
                fill(c.chave@, c.lance@, entries_after(*zob, ic as int, 1, 0, 1)).1 == f.1,
                c.postos + entries_after(*zob, ic as int, 1, 0, 1).len() == all.len(),
            decreases 2 - ic,
        {
            let mut pt: usize = 1;
            while pt <= 5
                invariant
                    ic < 2,
                    1 <= pt <= 6,
                    c.wf(*zob),
                    c.moves_on_board(),
                    atk.wf(),
                    c.postos <= (ic * 5 + pt - 1) * 64 * 64,
                    all == reversible_entries(*zob),
                    f == fill(empty_keys(), empty_moves(), all),
                    fill(c.chave@, c.lance@, entries_after(*zob, ic as int, pt as int, 0, 1)).0 == f.0,
                    fill(c.chave@, c.lance@, entries_after(*zob, ic as int, pt as int, 0, 1)).1 == f.1,
                    c.postos + entries_after(*zob, ic as int, pt as int, 0, 1).len() == all.len(),
                decreases 6 - pt,
            {
                let mut de: u8 = 0;
                while de < 64
                    invariant
                        ic < 2,
                        1 <= pt <= 5,
                        de <= 64,
                        c.wf(*zob),
                        c.moves_on_board(),
                        atk.wf(),
                        c.postos <= ((ic * 5 + pt - 1) * 64 + de) * 64,
                        all == reversible_entries(*zob),
                        f == fill(empty_keys(), empty_moves(), all),
                        fill(c.chave@, c.lance@, entries_after(*zob, ic as int, pt as int, de as int, de + 1)).0 == f.0,
                        fill(c.chave@, c.lance@, entries_after(*zob, ic as int, pt as int, de as int, de + 1)).1 == f.1,
                        c.postos + entries_after(*zob, ic as int, pt as int, de as int, de + 1).len() == all.len(),
                    decreases 64 - de,
                {
                    let alvos = if pt == 1 {
                        atk.knight[de as usize]
                    } else if pt == 2 {
                        bishop_attacks(de, 0)
                    } else if pt == 3 {
                        rook_attacks(de, 0)
                    } else if pt == 4 {
                        queen_attacks(de, 0)
                    } else {
                        atk.king[de as usize]
                    };
                    assert(alvos == empty_board_reach(pt as int, de as int));
                    let mut para: u8 = de + 1;
                    while para < 64
                        invariant
                            ic < 2,
                            1 <= pt <= 5,
                            de < 64,
                            de < para <= 64,
                            c.wf(*zob),
                            c.moves_on_board(),
                            c.postos <= ((ic * 5 + pt - 1) * 64 + de) * 64 + para,
                            alvos == empty_board_reach(pt as int, de as int),
                            all == reversible_entries(*zob),
                            f == fill(empty_keys(), empty_moves(), all),
                            fill(c.chave@, c.lance@, entries_after(*zob, ic as int, pt as int, de as int, para as int)).0 == f.0,
                            fill(c.chave@, c.lance@, entries_after(*zob, ic as int, pt as int, de as int, para as int)).1 == f.1,
                            c.postos + entries_after(*zob, ic as int, pt as int, de as int, para as int).len() == all.len(),
                        decreases 64 - para,
                    {
                        let ghost r = entries_after(*zob, ic as int, pt as int, de as int, para as int);
                        let ghost rest = entries_after(*zob, ic as int, pt as int, de as int, para + 1);
                        proof {
                            crate::movegen::lemma_single_and(alvos, para);
                        }
                        // Each pair counts once: only the targets above `de`.
                        if alvos & crate::bitboard::bb(para) != 0 {
                            let chave = zob.piece_sq[ic][pt][de as usize] ^ zob.piece_sq[ic][pt][para as usize]
                                ^ zob.side;
                            proof {
                                assert(chave == move_key(*zob, ic as int, pt as int, de as int, para as int));
                                assert(0 <= ic < 2 && 1 <= pt < 6);
                                assert(exists|cc: int, pp: int| 0 <= cc < 2 && 1 <= pp < 6 && chave == #[trigger] move_key(
                                    *zob,
                                    cc,
                                    pp,
                                    de as int,
                                    para as int,
                                ));
                                assert(entry_ok(*zob, chave, (de, para)));
                                assert(r == seq![rev_entry(*zob, ic as int, pt as int, de as int, para as int)].add(rest));
                                assert(r[0] == (chave, (de, para)));
                                assert(r.drop_first() =~= rest);
                            }
                            c.insert(zob, chave, (de, para));
                            c.postos = c.postos + 1;
                        } else {
                            assert(r == rest);
                        }
                        para = para + 1;
                    }
                    de = de + 1;
                }
                pt = pt + 1;
            }
            ic = ic + 1;
        }
        proof {
            assert(entries_after(*zob, 2, 1, 0, 1) =~= Seq::<(u64, (Square, Square))>::empty());
            assert(c.chave@ == f.0);
            lemma_fill_conserves(empty_keys(), empty_moves(), all);
            lemma_empty_entries(8192);
        }
        c
    }

    /// Puts a key and its move in, displacing what is in the way to its other
    /// slot. A chain of displacements is followed for at most `N` steps: the
    /// table becomes the one `displace` describes, and what it holds is what it
    /// held plus the new entry, less the one entry still carried when the chain
    /// was cut short (none when it ended in an empty slot).
    fn insert(&mut self, zob: &Zobrist, k: u64, m: (Square, Square))
        requires
            old(self).wf(*zob),
            old(self).moves_on_board(),
            entry_ok(*zob, k, m),
        ensures
            final(self).wf(*zob),
            final(self).moves_on_board(),
            final(self).postos == old(self).postos,
            final(self).chave@ == displace(old(self).chave@, old(self).lance@, k, m, h1_spec(k), 8192).0,
            final(self).lance@ == displace(old(self).chave@, old(self).lance@, k, m, h1_spec(k), 8192).1,
            final(self).entries().add(present(displace(old(self).chave@, old(self).lance@, k, m, h1_spec(k), 8192).2))
                =~= old(self).entries().add(present((k, m))),
    {
        let mut chave = k;
        let mut mv = m;
        let mut i = h1(chave);
        let mut fuel: usize = N;
        while fuel > 0
            invariant
                self.wf(*zob),
                self.moves_on_board(),
                mv.0 < 64 && mv.1 < 64,
                self.postos == old(self).postos,
                i < 8192,
                fuel <= 8192,
                chave != 0 ==> entry_ok(*zob, chave, mv) && (i == h1_spec(chave) || i == h2_spec(chave)),
                displace(self.chave@, self.lance@, chave, mv, i as int, fuel as nat) == displace(
                    old(self).chave@,
                    old(self).lance@,
                    k,
                    m,
                    h1_spec(k),
                    8192,
                ),
                self.entries().add(present((chave, mv))) =~= old(self).entries().add(present((k, m))),
            decreases fuel,
        {
            let ghost ch0 = self.chave@;
            let ghost la0 = self.lance@;
            let old_key = self.chave[i];
            let old_mv = self.lance[i];
            self.chave[i] = chave;
            self.lance[i] = mv;
            proof {
                assert(self.chave@ =~= ch0.update(i as int, chave));
                assert(self.lance@ =~= la0.update(i as int, mv));
                lemma_entries_update(ch0, la0, 8192, i as int, chave, mv);
            }
            chave = old_key;
            mv = old_mv;
            if chave == 0 {
                fuel = 0;
            } else {
                i = if i == h1(chave) {
                    h2(chave)
                } else {
                    h1(chave)
                };
                fuel = fuel - 1;
            }
        }
    }
}

/// The position at `idx` had already occurred, with the same side to move,
/// among the 50 positions at even distance before it.
pub open spec fn repeated_before(keys: Seq<u64>, idx: int) -> bool {
    exists|j: int| 1 <= j <= 50 && idx - 2 * j >= 0 && #[trigger] keys[idx - 2 * j] == keys[idx]
}

fn repetiu_antes(keys: &[u64], idx: usize) -> (r: bool)
    requires
        idx < keys@.len(),
    ensures
        r == repeated_before(keys@, idx as int),
{
    let k = keys[idx];
    let mut j: usize = 1;
    while j <= 50
        invariant
            1 <= j <= 51,
            idx < keys@.len(),
            k == keys@[idx as int],
            forall|jj: int| 1 <= jj < j && idx - 2 * jj >= 0 ==> #[trigger] keys@[idx - 2 * jj] != keys@[idx as int],
        decreases 51 - j,
    {
        if idx >= 2 * j {
            if keys[idx - 2 * j] == k {
                return true;
            }
        } else {
            assert forall|jj: int| 1 <= jj <= 50 && idx - 2 * jj >= 0 implies #[trigger] keys@[idx - 2 * jj]
                != keys@[idx as int] by {}
            return false;
        }
        j = j + 1;
    }
    false
}

impl Cuckoo {
    /// Every stored move names two squares of the board.
    pub open spec fn moves_on_board(&self) -> bool {
        forall|i: int| 0 <= i < 8192 ==> (#[trigger] self.lance[i]).0 < 64 && self.lance[i].1 < 64
    }

    /// The table holds `dif` and its move, by a non-blocked path, is ours.
    pub open spec fn hit(&self, board: Board, atk: Attacks, dif: u64) -> bool {
        let j = if self.chave[h1_spec(dif)] == dif {
            h1_spec(dif)
        } else {
            h2_spec(dif)
        };
        &&& self.chave[j] == dif
        &&& {
            let (de, para) = self.lance[j];
            &&& atk.between[de as int][para as int] & board.occ_all == 0
            &&& board.occ_color[color_index(board.side)] & ((1u64 << de) | (1u64 << para)) != 0
        }
    }

    /// Distance `i` back in `keys` gives a repetition one move away.
    pub open spec fn hit_at(&self, board: Board, keys: Seq<u64>, root_keys: int, atk: Attacks, i: int) -> bool {
        let idx = keys.len() - 1 - i;
        &&& self.hit(board, atk, board.hash ^ keys[idx])
        &&& (idx >= root_keys || repeated_before(keys, idx))
    }

    /// Is there a move from here back to a position already seen?
    ///
    /// `keys`: the keys of the game and of the search path, the last being
    /// the current position. `root_keys`: how many keys there were at the
    /// root; an index at or past it is inside the search, where one earlier
    /// occurrence suffices; in the game's history the position must already
    /// have repeated.
    pub fn repeticao_a_vista(&self, board: &Board, keys: &[u64], root_keys: usize, atk: &Attacks) -> (r: bool)
        requires
            self.moves_on_board(),
        ensures
            r <==> (board.halfmove >= 3 && keys@.len() >= 4 && exists|i: int|
                3 <= i <= board.halfmove && i <= keys@.len() - 1 && i % 2 == 1 && #[trigger] self.hit_at(
                    *board,
                    keys@,
                    root_keys as int,
                    *atk,
                    i,
                )),
    {
        let fim = keys.len();
        let hm = board.halfmove as usize;
        if hm < 3 || fim < 4 {
            return false;
        }
        let agora = board.hash;
        let ocupadas = board.occ_all;
        let meus = board.occ_color[board.side.idx()];
        let lim = if hm < fim - 1 {
            hm
        } else {
            fim - 1
        };
        let mut i = 3usize;
        while i <= lim
            invariant
                3 <= i,
                i % 2 == 1,
                lim as int == (if hm < fim - 1 { hm as int } else { fim - 1 }),
                hm == board.halfmove,
                fim == keys@.len(),
                fim >= 4,
                agora == board.hash,
                ocupadas == board.occ_all,
                meus == board.occ_color[color_index(board.side)],
                self.moves_on_board(),
                forall|ii: int| 3 <= ii < i && ii % 2 == 1 ==> !#[trigger] self.hit_at(*board, keys@, root_keys as int, *atk, ii),
            decreases lim + 2 - i,
        {
            let idx = fim - 1 - i;
            let dif = agora ^ keys[idx];
            let mut j = h1(dif);
            let mut found = true;
            if self.chave[j] != dif {
                j = h2(dif);
                if self.chave[j] != dif {
                    found = false;
                }
            }
            if found {
                let (de, para) = self.lance[j];
                let pontas = (1u64 << de) | (1u64 << para);
                // A clear path (`between` excludes the ends) and the piece that moves is ours.
                if atk.between[de as usize][para as usize] & ocupadas == 0 && meus & pontas != 0 {
                    // Inside the search one occurrence suffices; in the game's
                    // history the earlier position must already have repeated.
                    if idx >= root_keys || repetiu_antes(keys, idx) {
                        assert(self.hit_at(*board, keys@, root_keys as int, *atk, i as int));
                        return true;
                    }
                }
            }
            i = i + 2;
        }
        false
    }
}


impl Cuckoo {
    /// A position `i` plies back counts as one move away only through a
    /// stored move that can be played now: its key is the difference of the
    /// two positions' keys, no occupied square lies strictly between its two
    /// squares, and one of its squares holds a piece of the side to move.
    pub proof fn lemma_hit_is_playable(&self, board: Board, keys: Seq<u64>, root_keys: int, atk: Attacks, i: int)
        requires
            atk.wf(),
            self.moves_on_board(),
            0 <= i < keys.len(),
            self.hit_at(board, keys, root_keys, atk, i),
        ensures
            exists|j: int|
                0 <= j < 8192 && #[trigger] self.chave[j] == board.hash ^ keys[keys.len() - 1 - i] && ({
                    let (de, para) = self.lance[j];
                    &&& forall|s: int| #[trigger] sq_in(between_spec(de as int, para as int), s) ==> !sq_in(board.occ_all, s)
                    &&& sq_in(board.occ_color[color_index(board.side)], de as int) || sq_in(
                        board.occ_color[color_index(board.side)],
                        para as int,
                    )
                }),
    {
        broadcast use group_bitboard;

        let dif = board.hash ^ keys[keys.len() - 1 - i];
        lemma_hash_range(dif);
        let j = if self.chave[h1_spec(dif)] == dif {
            h1_spec(dif)
        } else {
            h2_spec(dif)
        };
        let (de, para) = self.lance[j];
        assert(de < 64 && para < 64);
        assert(atk.between[de as int][para as int] == between_spec(de as int, para as int));
        assert forall|s: int| #[trigger] sq_in(between_spec(de as int, para as int), s) implies !sq_in(board.occ_all, s) by {
            assert(!sq_in(between_spec(de as int, para as int) & board.occ_all, s));
        }
        let mine = board.occ_color[color_index(board.side)];
        let ends = (1u64 << de) | (1u64 << para);
        crate::ordered_movegen::lemma_nonzero_has_square(mine & ends);
        let t = choose|t: int| sq_in(mine & ends, t);
        assert(sq_in(mine, t) && sq_in(ends, t));
        assert(sq_in(1u64 << de, t) || sq_in(1u64 << para, t));
        assert(self.chave[j] == dif);
    }
}

} // verus!
