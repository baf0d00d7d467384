//! Counting the leaves of the legal-move tree, the figure move generators are
//! compared by.
use vstd::prelude::*;
use crate::attacks::Attacks;
use crate::board::{Board, Undo, made, lemma_made_can_unmake, lemma_unmake_undoes_make};
use crate::movegen::{
    gen_sorted, generate_legal, legal, lemma_pseudo_move_ok, lemma_sorted_unique, position_ok, position_ok_check,
};
use crate::moves::Move;
use crate::types::color_index;

verus! {

/// A position the legal generator takes.
pub open spec fn node_ok(b: Board) -> bool {
    &&& b.wf()
    &&& position_ok(b)
    &&& b.pieces[color_index(b.side)][5] != 0
}

/// The legal moves of `b` in the generator's order (the one list of them that
/// is in that order).
pub open spec fn legal_list(b: Board) -> Seq<Move> {
    choose|s: Seq<Move>| gen_sorted(b, s) && (forall|m: Move| #[trigger] s.contains(m) <==> legal(b, m))
}

/// Making `m` in `b` gives `b1`.
pub open spec fn makes(b: Board, m: Move, b1: Board) -> bool {
    exists|u: Undo| #[trigger] made(b, m, b1, u)
}

/// The position after `m` is made in `b`.
pub open spec fn after(b: Board, m: Move) -> Board {
    choose|b1: Board| #[trigger] makes(b, m, b1)
}

/// The leaves `depth` moves below `b`; `None` if a position on the way is
/// one the generator does not take, or the count passes `u64::MAX`.
pub open spec fn perft_spec(b: Board, depth: nat) -> Option<int>
    decreases depth, 0nat,
{
    if !node_ok(b) {
        None
    } else if depth <= 1 {
        Some(legal_list(b).len() as int)
    } else {
        perft_sum(b, legal_list(b), (depth - 1) as nat, legal_list(b).len())
    }
}

/// The leaves `depth` moves below the positions after the first `n` of `ms`.
pub open spec fn perft_sum(b: Board, ms: Seq<Move>, depth: nat, n: nat) -> Option<int>
    decreases depth, n + 1,
{
    if n == 0 {
        Some(0)
    } else {
        match (perft_sum(b, ms, depth, (n - 1) as nat), perft_spec(after(b, ms[n - 1]), depth)) {
            (Some(a), Some(c)) => if a + c <= u64::MAX {
                Some(a + c)
            } else {
                None
            },
            _ => None,
        }
    }
}

/// Once a partial sum has no value, no longer one has.
proof fn lemma_perft_sum_none(b: Board, ms: Seq<Move>, depth: nat, n: nat, n2: nat)
    requires
        n <= n2,
        perft_sum(b, ms, depth, n) is None,
    ensures
        perft_sum(b, ms, depth, n2) is None,
    decreases n2 - n,
{
    if n < n2 {
        lemma_perft_sum_none(b, ms, depth, n, (n2 - 1) as nat);
    }
}

/// The number of leaves of the legal-move tree `depth` moves deep (the legal
/// moves themselves at depth 1). The board comes back as it went in.
pub fn perft(board: &mut Board, depth: u32, atk: &Attacks) -> (r: Option<u64>)
    requires
        old(board).wf(),
        atk.wf(),
        depth >= 1,
    ensures
        *final(board) == *old(board),
        r matches Some(v) ==> perft_spec(*old(board), depth as nat) == Some(v as int),
        r is None ==> perft_spec(*old(board), depth as nat) is None,
    decreases depth,
{
    let ghost b0 = *board;
    if board.pieces[board.side.idx()][5] == 0 || !position_ok_check(board) {
        return None;
    }
    let moves = generate_legal(board, atk);
    proof {
        let s = legal_list(b0);
        assert(gen_sorted(b0, moves@) && (forall|m: Move| #[trigger] moves@.contains(m) <==> legal(b0, m)));
        lemma_sorted_unique(b0, moves@, s);
    }
    if depth <= 1 {
        return Some(moves.len() as u64);
    }
    let mut n: u64 = 0;
    let mut i: usize = 0;
    while i < moves.len()
        invariant
            *board == b0,
            b0 == *old(board),
            node_ok(b0),
            atk.wf(),
            depth >= 2,
            moves@ == legal_list(b0),
            forall|mm: Move| #[trigger] moves@.contains(mm) <==> legal(b0, mm),
            i <= moves@.len(),
            perft_sum(b0, moves@, (depth - 1) as nat, i as nat) == Some(n as int),
        decreases moves@.len() - i,
    {
        let m = moves[i];
        proof {
            assert(moves@.contains(m)) by {
                assert(moves@[i as int] == m);
            }
            lemma_pseudo_move_ok(b0, m);
        }
        let u = board.make_move(&m);
        let ghost b1 = *board;
        proof {
            assert(after(b0, m) == b1) by {
                assert(made(b0, m, b1, u));
                assert(makes(b0, m, b1));
                crate::movegen::lemma_made_unique(b0, m, b1, u);
                let c = after(b0, m);
                assert(makes(b0, m, c));
                let u2 = choose|u2: Undo| #[trigger] made(b0, m, c, u2);
                assert(made(b0, m, c, u2));
            }
            lemma_made_can_unmake(b0, m, b1, u);
        }
        let sub = perft(board, depth - 1, atk);
        board.unmake_move(&m, &u);
        proof {
            lemma_unmake_undoes_make(b0, m, b1, u, *board);
        }
        match sub {
            Some(c) => {
                if c > u64::MAX - n {
                    proof {
                        assert(*board == b0);
                        assert(moves@[i as int] == m);
                        assert(perft_spec(after(b0, moves@[i as int]), (depth - 1) as nat) == Some(c as int));
                        assert(perft_sum(b0, moves@, (depth - 1) as nat, i as nat) == Some(n as int));
                        assert(perft_sum(b0, moves@, (depth - 1) as nat, (i + 1) as nat) is None);
                        lemma_perft_sum_none(b0, moves@, (depth - 1) as nat, (i + 1) as nat, moves@.len());
                    }
                    return None;
                }
                n = n + c;
            },
            None => {
                proof {
                    lemma_perft_sum_none(b0, moves@, (depth - 1) as nat, (i + 1) as nat, moves@.len());
                }
                return None;
            },
        }
        i = i + 1;
    }
    Some(n)
}

} // verus!
