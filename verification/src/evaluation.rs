//! What the search does with a score once it has one.
use vstd::prelude::*;

verus! {

/// `a / b` rounded toward zero, as Rust's integer division does (`b > 0`).
pub open spec fn div_toward_zero(a: int, b: int) -> int {
    if a >= 0 {
        a / b
    } else {
        -((-a) / b)
    }
}

/// `v -= v * rule50 / 199`: the score shrinks toward a draw as the fifty-move
/// counter runs, so that a side ahead prefers moves that reset it.
pub fn amortece_rule50(v: i32, halfmove: u32) -> (r: i32)
    requires
        halfmove <= i32::MAX,
        i32::MIN <= v * halfmove <= i32::MAX,
    ensures
        r == v - div_toward_zero(v * halfmove, 199),
{
    let p: i32 = v * halfmove as i32;
    let q: i32 = p / 199;
    proof {
        if p >= 0 {
            assert(q == p / 199);
        }
        assert(v >= 0 ==> p >= 0) by (nonlinear_arith)
            requires
                p == v * halfmove,
                halfmove >= 0,
        ;
        assert(v < 0 ==> p <= 0) by (nonlinear_arith)
            requires
                p == v * halfmove,
                halfmove >= 0,
        ;
    }
    v - q
}

/// The internal score is already in centipawns: the identity, kept as the
/// one place the protocol layer converts a score.
pub fn score_normalizado(interno: i32) -> (r: i32)
    ensures
        r == interno,
{
    interno
}

} // verus!
