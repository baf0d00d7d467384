//! The squares that changed between two placements, when the change is one
//! simple move: one piece of the side that played lands, the same piece (or a
//! pawn that promotes) leaves a square from which it can reach the landing
//! square, and at most one enemy piece is captured. Anything else, castling
//! included, is answered `None`, and the caller rebuilds from scratch.
use vstd::prelude::*;
use crate::attacks::{Attacks, bishop_attacks, bishop_spec, king_spec, knight_spec, queen_attacks, queen_spec,
    rook_attacks, rook_spec};
use crate::bitboard::{pop_lsb, sq_in, group_bitboard};
use crate::features::occ_spec;

verus! {

/// One changed square: (square, kind, colour, whether a piece was put there).
pub open spec fn ev(s: int, t: int, c: int, add: bool) -> (usize, usize, usize, bool) {
    (s as usize, t as usize, c as usize, add)
}

/// The events of the squares of `b` below `n`, in square order.
pub open spec fn bit_events(b: u64, t: int, c: int, add: bool, n: int) -> Seq<(usize, usize, usize, bool)>
    decreases n,
{
    if n <= 0 {
        Seq::empty()
    } else {
        let prev = bit_events(b, t, c, add, n - 1);
        if sq_in(b, n - 1) {
            prev.push(ev(n - 1, t, c, add))
        } else {
            prev
        }
    }
}

/// The events of one (colour, kind): the squares it left, then those it reached.
pub open spec fn block_events(antes: [[u64; 6]; 2], agora: [[u64; 6]; 2], c: int, t: int) -> Seq<(usize, usize, usize, bool)> {
    bit_events(antes[c][t] & !agora[c][t], t, c, false, 64) + bit_events(agora[c][t] & !antes[c][t], t, c, true, 64)
}

/// The events from (colour `c`, kind `t`) on, White first, pawn to king.
pub open spec fn events_after(antes: [[u64; 6]; 2], agora: [[u64; 6]; 2], c: int, t: int) -> Seq<(usize, usize, usize, bool)>
    decreases 2 - c, 7 - t,
{
    if c >= 2 {
        Seq::empty()
    } else if t >= 6 {
        events_after(antes, agora, c + 1, 0)
    } else {
        block_events(antes, agora, c, t) + events_after(antes, agora, c, t + 1)
    }
}

/// Every changed square between the two placements, in that order.
pub open spec fn events_spec(antes: [[u64; 6]; 2], agora: [[u64; 6]; 2]) -> Seq<(usize, usize, usize, bool)> {
    events_after(antes, agora, 0, 0)
}

/// How many of the first `n` events put a piece down.
pub open spec fn count_adds(e: Seq<(usize, usize, usize, bool)>, n: int) -> int
    decreases n,
{
    if n <= 0 {
        0
    } else {
        count_adds(e, n - 1) + (if e[n - 1].3 {
            1int
        } else {
            0
        })
    }
}

/// The colour of the last of the first `n` events that puts a piece down (2 if none).
pub open spec fn adding_colour(e: Seq<(usize, usize, usize, bool)>, n: int) -> int
    decreases n,
{
    if n <= 0 {
        2
    } else if e[n - 1].3 {
        e[n - 1].2 as int
    } else {
        adding_colour(e, n - 1)
    }
}

/// How many of the first `n` events take a piece of colour `c` away.
pub open spec fn own_removals(e: Seq<(usize, usize, usize, bool)>, c: int, n: int) -> int
    decreases n,
{
    if n <= 0 {
        0
    } else {
        own_removals(e, c, n - 1) + (if !e[n - 1].3 && e[n - 1].2 == c {
            1int
        } else {
            0
        })
    }
}

/// (square, kind) of the last of the first `n` events of colour `c` that
/// puts down (`add`) or takes away a piece; (64, 6) if there is none.
pub open spec fn last_own(e: Seq<(usize, usize, usize, bool)>, c: int, add: bool, n: int) -> (int, int)
    decreases n,
{
    if n <= 0 {
        (64, 6)
    } else if e[n - 1].2 == c && e[n - 1].3 == add {
        (e[n - 1].0 as int, e[n - 1].1 as int)
    } else {
        last_own(e, c, add, n - 1)
    }
}

/// Where a piece of kind `t` (1 knight .. 5 king) on `de` reaches, with occupancy `occ`.
pub open spec fn piece_reach(t: int, de: int, occ: u64) -> u64 {
    if t == 1 {
        knight_spec(de)
    } else if t == 2 {
        bishop_spec(de, occ)
    } else if t == 3 {
        rook_spec(de, occ)
    } else if t == 4 {
        queen_spec(de, occ)
    } else {
        king_spec(de)
    }
}

/// A piece of kind `t` and colour `c` on `de` can get to `para`: a pawn one
/// square ahead (straight or diagonally) or two straight ahead, any other
/// piece by its attacks with occupancy `occ`.
pub open spec fn reaches(t: int, c: int, de: int, para: int, occ: u64) -> bool {
    if t == 0 {
        let df = de % 8 - para % 8;
        let dr = para / 8 - de / 8;
        let frente = if c == 0 {
            dr
        } else {
            -dr
        };
        -1 <= df <= 1 && (frente == 1 || (frente == 2 && df == 0))
    } else {
        sq_in(piece_reach(t, de, occ), para)
    }
}

/// The change from `antes` to `agora` is one simple move.
pub open spec fn simple_move_spec(antes: [[u64; 6]; 2], agora: [[u64; 6]; 2]) -> bool {
    let e = events_spec(antes, agora);
    let n = e.len() as int;
    let cor = adding_colour(e, n);
    let (de, td) = last_own(e, cor, false, n);
    let (para, tp) = last_own(e, cor, true, n);
    &&& 0 < n <= 3
    &&& count_adds(e, n) == 1
    &&& own_removals(e, cor, n) == 1
    &&& de < 64 && para < 64
    &&& (td == tp || (td == 0 && tp != 0))
    &&& reaches(td, cor, de, para, occ_spec(agora) & !(1u64 << (para as u64)))
}

proof fn lemma_bit_events_agree(x: u64, y: u64, t: int, c: int, add: bool, n: int)
    requires
        forall|s: int| 0 <= s < n ==> sq_in(x, s) == sq_in(y, s),
    ensures
        bit_events(x, t, c, add, n) == bit_events(y, t, c, add, n),
    decreases n,
{
    if n > 0 {
        lemma_bit_events_agree(x, y, t, c, add, n - 1);
    }
}

/// Adding a square above all of `x` adds its event at the end.
proof fn lemma_bit_events_top(x: u64, y: u64, l: int, t: int, c: int, add: bool, n: int)
    requires
        0 <= l < n <= 64,
        forall|s: int| #[trigger] sq_in(x, s) ==> s < l,
        forall|s: int| #[trigger] sq_in(y, s) <==> (sq_in(x, s) || s == l),
    ensures
        bit_events(y, t, c, add, n) == bit_events(x, t, c, add, n).push(ev(l, t, c, add)),
    decreases n,
{
    if n == l + 1 {
        assert forall|s: int| 0 <= s < l implies sq_in(x, s) == sq_in(y, s) by {}
        lemma_bit_events_agree(x, y, t, c, add, l);
        assert(sq_in(y, l));
        assert(!sq_in(x, l));
    } else {
        lemma_bit_events_top(x, y, l, t, c, add, n - 1);
        assert(!sq_in(x, n - 1));
        assert(!sq_in(y, n - 1));
    }
}

/// Appends the events of the squares of `b`, in square order.
fn push_events(b: u64, t: usize, c: usize, add: bool, out: &mut Vec<(usize, usize, usize, bool)>)
    ensures
        final(out)@ == old(out)@ + bit_events(b, t as int, c as int, add, 64),
{
    broadcast use group_bitboard;

    let ghost base = out@;
    let mut rest = b;
    let ghost mut done: u64 = 0;
    proof {
        assert(bit_events(done, t as int, c as int, add, 64) == bit_events(0u64, t as int, c as int, add, 64));
        assert forall|s: int| 0 <= s < 64 implies sq_in(0u64, s) == sq_in(0u64, s) by {}
        lemma_zero_events(t as int, c as int, add, 64);
        assert(out@ =~= base + bit_events(done, t as int, c as int, add, 64));
    }
    while rest != 0
        invariant
            out@ == base + bit_events(done, t as int, c as int, add, 64),
            forall|s: int| #[trigger] sq_in(done, s) <==> (sq_in(b, s) && !sq_in(rest, s)),
            forall|s: int, u: int| #[trigger] sq_in(done, s) && #[trigger] sq_in(rest, u) ==> s < u,
            forall|s: int| #[trigger] sq_in(rest, s) ==> sq_in(b, s),
        decreases rest,
    {
        let ghost r0 = rest;
        let s = pop_lsb(&mut rest);
        let ghost d1 = done | (1u64 << (s as u64));
        proof {
            assert forall|u: int| #[trigger] sq_in(done, u) implies u < s by {
                assert(sq_in(r0, s as int));
            }
            assert forall|u: int| #[trigger] sq_in(d1, u) <==> (sq_in(done, u) || u == s) by {
                crate::bitboard::lemma_sq_in_single(s as u64, u);
                crate::bitboard::lemma_sq_in_or(done, 1u64 << (s as u64), u);
                assert(d1 == done | (1u64 << (s as u64)));
            }
            lemma_bit_events_top(done, d1, s as int, t as int, c as int, add, 64);
        }
        out.push((s as usize, t, c, add));
        proof {
            done = d1;
            assert(out@ =~= base + bit_events(done, t as int, c as int, add, 64));
            assert forall|x: int, u: int| #[trigger] sq_in(done, x) && #[trigger] sq_in(rest, u) implies x < u by {
                if x == s {
                    assert(sq_in(r0, u));
                } else {
                    assert(sq_in(r0, u));
                }
            }
        }
    }
    proof {
        assert forall|s: int| 0 <= s < 64 implies sq_in(done, s) == sq_in(b, s) by {}
        lemma_bit_events_agree(done, b, t as int, c as int, add, 64);
    }
}

proof fn lemma_zero_events(t: int, c: int, add: bool, n: int)
    ensures
        bit_events(0u64, t, c, add, n) == Seq::<(usize, usize, usize, bool)>::empty(),
    decreases n,
{
    broadcast use group_bitboard;
    if n > 0 {
        lemma_zero_events(t, c, add, n - 1);
    }
}

/// The changed squares between two placements, when they are one simple
/// move apart (see `simple_move_spec`); `None` otherwise.
pub fn eventos_de_casa(antes: &[[u64; 6]; 2], agora: &[[u64; 6]; 2], atk: &Attacks) -> (r: Option<Vec<(usize, usize, usize, bool)>>)
    requires
        atk.wf(),
    ensures
        r is Some <==> simple_move_spec(*antes, *agora),
        r matches Some(e) ==> e@ == events_spec(*antes, *agora),
{
    let mut e: Vec<(usize, usize, usize, bool)> = Vec::new();
    let mut c: usize = 0;
    while c < 2
        invariant
            c <= 2,
            e@ + events_after(*antes, *agora, c as int, 0) == events_spec(*antes, *agora),
        decreases 2 - c,
    {
        let mut t: usize = 0;
        while t < 6
            invariant
                c < 2,
                t <= 6,
                e@ + events_after(*antes, *agora, c as int, t as int) == events_spec(*antes, *agora),
            decreases 6 - t,
        {
            let ghost e0 = e@;
            push_events(antes[c][t] & !agora[c][t], t, c, false, &mut e);
            push_events(agora[c][t] & !antes[c][t], t, c, true, &mut e);
            proof {
                let rest = events_after(*antes, *agora, c as int, t + 1);
                assert(events_after(*antes, *agora, c as int, t as int) == block_events(*antes, *agora, c as int, t as int) + rest);
                assert(e@ + rest =~= e0 + events_after(*antes, *agora, c as int, t as int));
            }
            t = t + 1;
        }
        proof {
            assert(events_after(*antes, *agora, c as int, 6) == events_after(*antes, *agora, c + 1, 0));
        }
        c = c + 1;
    }
    proof {
        assert(events_after(*antes, *agora, 2, 0) =~= Seq::<(usize, usize, usize, bool)>::empty());
        assert(e@ =~= events_spec(*antes, *agora));
    }
    let ghost es = e@;
    let n = e.len();
    if n == 0 || n > 3 {
        return None;
    }
    let mut adicoes: usize = 0;
    let mut cor_add: usize = 2;
    let mut i: usize = 0;
    while i < n
        invariant
            n == e@.len(),
            n <= 3,
            i <= n,
            adicoes == count_adds(e@, i as int),
            cor_add == adding_colour(e@, i as int),
            adicoes <= i,
            cor_add <= 2,
            e@ == events_spec(*antes, *agora),
        decreases n - i,
    {
        let (_, _, cc, add) = e[i];
        if add {
            adicoes = adicoes + 1;
            cor_add = cc;
            proof {
                assert(cc < 2) by {
                    lemma_event_colour(*antes, *agora, i as int);
                }
            }
        }
        i = i + 1;
    }
    if adicoes != 1 {
        return None;
    }
    let mut proprias: usize = 0;
    let mut de: usize = 64;
    let mut tipo_de: usize = 6;
    let mut para: usize = 64;
    let mut tipo_para: usize = 6;
    i = 0;
    while i < n
        invariant
            n == e@.len(),
            n <= 3,
            i <= n,
            proprias == own_removals(e@, cor_add as int, i as int),
            proprias <= i,
            e@ == events_spec(*antes, *agora),
            (de as int, tipo_de as int) == last_own(e@, cor_add as int, false, i as int),
            (para as int, tipo_para as int) == last_own(e@, cor_add as int, true, i as int),
        decreases n - i,
    {
        let (sq, tt, cc, add) = e[i];
        if cc == cor_add {
            if add {
                para = sq;
                tipo_para = tt;
            } else {
                de = sq;
                tipo_de = tt;
                proprias = proprias + 1;
            }
        }
        i = i + 1;
    }
    if proprias != 1 {
        return None;
    }
    if de >= 64 || para >= 64 {
        return None;
    }
    // the same piece, or a pawn promoting
    if tipo_de != tipo_para && !(tipo_de == 0 && tipo_para != 0) {
        return None;
    }
    let occ = agora[0][0] | agora[0][1] | agora[0][2] | agora[0][3] | agora[0][4] | agora[0][5] | agora[1][0]
        | agora[1][1] | agora[1][2] | agora[1][3] | agora[1][4] | agora[1][5];
    assert(occ == occ_spec(*agora));
    let occ = occ & !(1u64 << para);
    let alcanca = if tipo_de == 0 {
        let df: i32 = (de % 8) as i32 - (para % 8) as i32;
        let dr: i32 = (para / 8) as i32 - (de / 8) as i32;
        let frente = if cor_add == 0 {
            dr
        } else {
            -dr
        };
        -1 <= df && df <= 1 && (frente == 1 || (frente == 2 && df == 0))
    } else {
        let alvos = if tipo_de == 1 {
            atk.knight[de]
        } else if tipo_de == 2 {
            bishop_attacks(de as u8, occ)
        } else if tipo_de == 3 {
            rook_attacks(de as u8, occ)
        } else if tipo_de == 4 {
            queen_attacks(de as u8, occ)
        } else {
            atk.king[de]
        };
        assert(alvos == piece_reach(tipo_de as int, de as int, occ));
        proof {
            crate::movegen::lemma_single_and(alvos, para as u8);
        }
        alvos & (1u64 << para) != 0
    };
    if !alcanca {
        return None;
    }
    Some(e)
}

/// Every event names colour 0 or 1.
proof fn lemma_event_colour(antes: [[u64; 6]; 2], agora: [[u64; 6]; 2], i: int)
    requires
        0 <= i < events_spec(antes, agora).len(),
    ensures
        events_spec(antes, agora)[i].2 < 2,
{
    lemma_events_after_colours(antes, agora, 0, 0);
}

proof fn lemma_bit_events_colour(b: u64, t: int, c: int, add: bool, n: int)
    requires
        0 <= c < 2,
    ensures
        forall|i: int| 0 <= i < bit_events(b, t, c, add, n).len() ==> (#[trigger] bit_events(b, t, c, add, n)[i]).2 < 2,
    decreases n,
{
    if n > 0 {
        lemma_bit_events_colour(b, t, c, add, n - 1);
        let prev = bit_events(b, t, c, add, n - 1);
        let cur = bit_events(b, t, c, add, n);
        assert forall|i: int| 0 <= i < cur.len() implies (#[trigger] cur[i]).2 < 2 by {
            if i < prev.len() {
                assert(cur[i] == prev[i]);
            }
        }
    }
}

proof fn lemma_events_after_colours(antes: [[u64; 6]; 2], agora: [[u64; 6]; 2], c: int, t: int)
    requires
        0 <= c,
        0 <= t,
    ensures
        forall|i: int| 0 <= i < events_after(antes, agora, c, t).len() ==> (#[trigger] events_after(antes, agora, c, t)[i]).2 < 2,
    decreases 2 - c, 7 - t,
{
    if c >= 2 {
        assert(events_after(antes, agora, c, t).len() == 0);
    } else if t >= 6 {
        lemma_events_after_colours(antes, agora, c + 1, 0);
        assert(events_after(antes, agora, c, t) == events_after(antes, agora, c + 1, 0));
    } else {
        lemma_events_after_colours(antes, agora, c, t + 1);
        lemma_bit_events_colour(antes[c][t] & !agora[c][t], t, c, false, 64);
        lemma_bit_events_colour(agora[c][t] & !antes[c][t], t, c, true, 64);
        let a = bit_events(antes[c][t] & !agora[c][t], t, c, false, 64);
        let b = bit_events(agora[c][t] & !antes[c][t], t, c, true, 64);
        let r = events_after(antes, agora, c, t + 1);
        let all = a + b + r;
        assert(events_after(antes, agora, c, t) == all);
        assert forall|i: int| 0 <= i < all.len() implies (#[trigger] all[i]).2 < 2 by {
            if i < a.len() {
                assert(all[i] == a[i]);
            } else if i < a.len() + b.len() {
                assert(all[i] == b[i - a.len()]);
            } else {
                assert(all[i] == r[i - a.len() - b.len()]);
            }
        }
    }
}

} // verus!
