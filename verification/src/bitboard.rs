//! Bitboards: a set of squares as the bits of a `u64`, bit `s` for square `s`.
use vstd::prelude::*;
use crate::types::Square;

verus! {

pub type Bitboard = u64;

/// Square `s` is in the set `b`.
pub open spec fn sq_in(b: u64, s: int) -> bool {
    0 <= s < 64 && (b >> (s as u64)) & 1 == 1
}

/// The number of squares in `b`.
pub open spec fn popcount(b: u64) -> nat
    decreases b,
{
    if b == 0 {
        0
    } else {
        (b % 2) as nat + popcount(b / 2)
    }
}

/// A number below `2^k` has at most `k` bits set.
proof fn lemma_popcount_below(b: u64, k: nat)
    requires
        (b as int) < vstd::arithmetic::power2::pow2(k),
    ensures
        popcount(b) <= k,
    decreases k,
{
    if b != 0 {
        if k == 0 {
            vstd::arithmetic::power2::lemma2_to64();
        } else {
            vstd::arithmetic::power2::lemma_pow2_unfold(k);
            lemma_popcount_below(b / 2, (k - 1) as nat);
        }
    }
}

/// No more than 64 squares.
pub proof fn lemma_popcount_le64(b: u64)
    ensures
        popcount(b) <= 64,
{
    vstd::arithmetic::power2::lemma2_to64();
    lemma_popcount_below(b, 64);
}

/// Halving a number shifts its squares down by one; the squares below `d`.
proof fn lemma_halve_bits(x: u64, y: u64, t: u64, d: u64)
    by (bit_vector)
    ensures
        x & !y == 0 ==> ((x / 2) & !(y / 2) == 0 && x % 2 <= y % 2),
        (x & !y == 0 && y == 0) ==> x == 0,
        1 <= t < 64 ==> ((x >> t) & 1) == (((x / 2) >> ((t - 1) as u64)) & 1),
        ((x >> 0u64) & 1) == x % 2,
        (((x / 2) >> 63u64) & 1) == 0,
        (d < 64 && t < 64) ==> (((((1u64 << d) - 1) as u64 >> t) & 1 == 1) <==> t < d),
{
}

/// The squares below `d`.
pub open spec fn low_squares(d: int) -> u64 {
    (((1u64 << (d as u64)) - 1) as u64)
}

pub proof fn lemma_low_squares(d: int, t: int)
    requires
        0 <= d < 64,
    ensures
        sq_in(low_squares(d), t) <==> 0 <= t < d,
{
    if 0 <= t < 64 {
        lemma_halve_bits(0, 0, t as u64, d as u64);
    }
}

/// A set of squares inside another has no more of them, and fewer when the
/// other has a square it lacks.
pub proof fn lemma_popcount_subset(x: u64, y: u64)
    requires
        forall|t: int| #[trigger] sq_in(x, t) ==> sq_in(y, t),
    ensures
        popcount(x) <= popcount(y),
        (exists|t: int| sq_in(y, t) && !#[trigger] sq_in(x, t)) ==> popcount(x) < popcount(y),
    decreases y,
{
    broadcast use lemma_sq_in_and, lemma_sq_in_not, lemma_sq_in_zero;

    assert(x & !y == 0) by {
        assert forall|t: int| !#[trigger] sq_in(x & !y, t) by {}
        lemma_bits_equal(x & !y, 0);
    }
    lemma_halve_bits(x, y, 1, 0);
    if y == 0 {
        assert(x == 0);
    } else {
        assert forall|t: int| #[trigger] sq_in(x / 2, t) implies sq_in(y / 2, t) by {
            if 0 <= t < 63 {
                lemma_halve_bits(x, y, (t + 1) as u64, 0);
                lemma_halve_bits(y, x, (t + 1) as u64, 0);
                assert(sq_in(x, t + 1));
                assert(sq_in(y, t + 1));
            } else if t == 63 {
                assert(!sq_in(x / 2, 63)) by {
                    lemma_halve_bits(x, 0, 1, 0);
                }
            }
        }
        lemma_popcount_subset(x / 2, y / 2);
        if exists|t: int| sq_in(y, t) && !#[trigger] sq_in(x, t) {
            let t = choose|t: int| sq_in(y, t) && !#[trigger] sq_in(x, t);
            lemma_halve_bits(x, y, 1, 0);
            lemma_halve_bits(y, x, 1, 0);
            if t == 0 {
                assert(y % 2 == 1 && x % 2 == 0);
            } else {
                lemma_halve_bits(x, y, t as u64, 0);
                lemma_halve_bits(y, x, t as u64, 0);
                assert(sq_in(y / 2, t - 1) && !sq_in(x / 2, t - 1));
            }
        }
    }
}

/// The lowest square of a non-empty set.
pub open spec fn lsb(b: u64) -> int {
    b.trailing_zeros() as int
}

/// The bit-level facts about `&`, `|`, `^`, `!` and single-square masks, at one square.
pub proof fn lemma_bits(a: u64, b: u64, s: u64, t: u64)
    by (bit_vector)
    requires
        s < 64,
        t < 64,
    ensures
        ((a & b) >> t) & 1 == 1 <==> ((a >> t) & 1 == 1 && (b >> t) & 1 == 1),
        ((a | b) >> t) & 1 == 1 <==> ((a >> t) & 1 == 1 || (b >> t) & 1 == 1),
        ((a ^ b) >> t) & 1 == 1 <==> ((a >> t) & 1 == 1 != ((b >> t) & 1 == 1)),
        ((!a) >> t) & 1 == 1 <==> !((a >> t) & 1 == 1),
        ((1u64 << s) >> t) & 1 == 1 <==> s == t,
        (0u64 >> t) & 1 != 1,
        (a >> t) & 1 == 0 || (a >> t) & 1 == 1,
        a ^ b == 0 ==> a == b,
        a & b == b & a,
        a | b == b | a,
{
}

pub broadcast proof fn lemma_sq_in_and(a: u64, b: u64, t: int)
    ensures
        #[trigger] sq_in(a & b, t) <==> (sq_in(a, t) && sq_in(b, t)),
{
    if 0 <= t < 64 {
        lemma_bits(a, b, 0, t as u64);
    }
}

pub broadcast proof fn lemma_sq_in_or(a: u64, b: u64, t: int)
    ensures
        #[trigger] sq_in(a | b, t) <==> (sq_in(a, t) || sq_in(b, t)),
{
    if 0 <= t < 64 {
        lemma_bits(a, b, 0, t as u64);
    }
}

pub broadcast proof fn lemma_sq_in_xor(a: u64, b: u64, t: int)
    ensures
        #[trigger] sq_in(a ^ b, t) <==> (0 <= t < 64 && sq_in(a, t) != sq_in(b, t)),
{
    if 0 <= t < 64 {
        lemma_bits(a, b, 0, t as u64);
    }
}

pub broadcast proof fn lemma_sq_in_not(a: u64, t: int)
    ensures
        #[trigger] sq_in(!a, t) <==> (0 <= t < 64 && !sq_in(a, t)),
{
    if 0 <= t < 64 {
        lemma_bits(a, a, 0, t as u64);
    }
}

pub broadcast proof fn lemma_sq_in_single(s: u64, t: int)
    requires
        s < 64,
    ensures
        #[trigger] sq_in(1u64 << s, t) <==> t == s,
{
    if 0 <= t < 64 {
        lemma_bits(0, 0, s, t as u64);
    }
}

pub broadcast proof fn lemma_sq_in_zero(t: int)
    ensures
        !#[trigger] sq_in(0u64, t),
{
    if 0 <= t < 64 {
        lemma_bits(0, 0, 0, t as u64);
    }
}

pub broadcast group group_bitboard {
    lemma_sq_in_and,
    lemma_sq_in_or,
    lemma_sq_in_xor,
    lemma_sq_in_not,
    lemma_sq_in_single,
    lemma_sq_in_zero,
}

/// Two bitboards with the same squares are the same number.
pub proof fn lemma_bits_equal(a: u64, b: u64)
    requires
        forall|t: int| 0 <= t < 64 ==> sq_in(a, t) == sq_in(b, t),
    ensures
        a == b,
{
    let x = a ^ b;
    assert forall|t: u64| t < 64 implies (x >> t) & 1 == 0 by {
        assert(sq_in(a, t as int) == sq_in(b, t as int));
        lemma_bits(a, b, 0, t);
        lemma_bits(x, x, 0, t);
    }
    lemma_zero_bits(x);
    lemma_bits(a, b, 0, 0);
}

/// A bitboard with no square is zero.
pub proof fn lemma_zero_bits(x: u64)
    requires
        forall|t: u64| t < 64 ==> (x >> t) & 1 == 0,
    ensures
        x == 0,
{
    assert((x >> 0u64) & 1 == 0);
    assert((x >> 1u64) & 1 == 0);
    assert((x >> 2u64) & 1 == 0);
    assert((x >> 3u64) & 1 == 0);
    assert((x >> 4u64) & 1 == 0);
    assert((x >> 5u64) & 1 == 0);
    assert((x >> 6u64) & 1 == 0);
    assert((x >> 7u64) & 1 == 0);
    assert((x >> 8u64) & 1 == 0);
    assert((x >> 9u64) & 1 == 0);
    assert((x >> 10u64) & 1 == 0);
    assert((x >> 11u64) & 1 == 0);
    assert((x >> 12u64) & 1 == 0);
    assert((x >> 13u64) & 1 == 0);
    assert((x >> 14u64) & 1 == 0);
    assert((x >> 15u64) & 1 == 0);
    assert((x >> 16u64) & 1 == 0);
    assert((x >> 17u64) & 1 == 0);
    assert((x >> 18u64) & 1 == 0);
    assert((x >> 19u64) & 1 == 0);
    assert((x >> 20u64) & 1 == 0);
    assert((x >> 21u64) & 1 == 0);
    assert((x >> 22u64) & 1 == 0);
    assert((x >> 23u64) & 1 == 0);
    assert((x >> 24u64) & 1 == 0);
    assert((x >> 25u64) & 1 == 0);
    assert((x >> 26u64) & 1 == 0);
    assert((x >> 27u64) & 1 == 0);
    assert((x >> 28u64) & 1 == 0);
    assert((x >> 29u64) & 1 == 0);
    assert((x >> 30u64) & 1 == 0);
    assert((x >> 31u64) & 1 == 0);
    assert((x >> 32u64) & 1 == 0);
    assert((x >> 33u64) & 1 == 0);
    assert((x >> 34u64) & 1 == 0);
    assert((x >> 35u64) & 1 == 0);
    assert((x >> 36u64) & 1 == 0);
    assert((x >> 37u64) & 1 == 0);
    assert((x >> 38u64) & 1 == 0);
    assert((x >> 39u64) & 1 == 0);
    assert((x >> 40u64) & 1 == 0);
    assert((x >> 41u64) & 1 == 0);
    assert((x >> 42u64) & 1 == 0);
    assert((x >> 43u64) & 1 == 0);
    assert((x >> 44u64) & 1 == 0);
    assert((x >> 45u64) & 1 == 0);
    assert((x >> 46u64) & 1 == 0);
    assert((x >> 47u64) & 1 == 0);
    assert((x >> 48u64) & 1 == 0);
    assert((x >> 49u64) & 1 == 0);
    assert((x >> 50u64) & 1 == 0);
    assert((x >> 51u64) & 1 == 0);
    assert((x >> 52u64) & 1 == 0);
    assert((x >> 53u64) & 1 == 0);
    assert((x >> 54u64) & 1 == 0);
    assert((x >> 55u64) & 1 == 0);
    assert((x >> 56u64) & 1 == 0);
    assert((x >> 57u64) & 1 == 0);
    assert((x >> 58u64) & 1 == 0);
    assert((x >> 59u64) & 1 == 0);
    assert((x >> 60u64) & 1 == 0);
    assert((x >> 61u64) & 1 == 0);
    assert((x >> 62u64) & 1 == 0);
    assert((x >> 63u64) & 1 == 0);
    assert(x == 0) by (bit_vector)
        requires
            (x >> 0u64) & 1 == 0 &&
            (x >> 1u64) & 1 == 0 &&
            (x >> 2u64) & 1 == 0 &&
            (x >> 3u64) & 1 == 0 &&
            (x >> 4u64) & 1 == 0 &&
            (x >> 5u64) & 1 == 0 &&
            (x >> 6u64) & 1 == 0 &&
            (x >> 7u64) & 1 == 0 &&
            (x >> 8u64) & 1 == 0 &&
            (x >> 9u64) & 1 == 0 &&
            (x >> 10u64) & 1 == 0 &&
            (x >> 11u64) & 1 == 0 &&
            (x >> 12u64) & 1 == 0 &&
            (x >> 13u64) & 1 == 0 &&
            (x >> 14u64) & 1 == 0 &&
            (x >> 15u64) & 1 == 0 &&
            (x >> 16u64) & 1 == 0 &&
            (x >> 17u64) & 1 == 0 &&
            (x >> 18u64) & 1 == 0 &&
            (x >> 19u64) & 1 == 0 &&
            (x >> 20u64) & 1 == 0 &&
            (x >> 21u64) & 1 == 0 &&
            (x >> 22u64) & 1 == 0 &&
            (x >> 23u64) & 1 == 0 &&
            (x >> 24u64) & 1 == 0 &&
            (x >> 25u64) & 1 == 0 &&
            (x >> 26u64) & 1 == 0 &&
            (x >> 27u64) & 1 == 0 &&
            (x >> 28u64) & 1 == 0 &&
            (x >> 29u64) & 1 == 0 &&
            (x >> 30u64) & 1 == 0 &&
            (x >> 31u64) & 1 == 0 &&
            (x >> 32u64) & 1 == 0 &&
            (x >> 33u64) & 1 == 0 &&
            (x >> 34u64) & 1 == 0 &&
            (x >> 35u64) & 1 == 0 &&
            (x >> 36u64) & 1 == 0 &&
            (x >> 37u64) & 1 == 0 &&
            (x >> 38u64) & 1 == 0 &&
            (x >> 39u64) & 1 == 0 &&
            (x >> 40u64) & 1 == 0 &&
            (x >> 41u64) & 1 == 0 &&
            (x >> 42u64) & 1 == 0 &&
            (x >> 43u64) & 1 == 0 &&
            (x >> 44u64) & 1 == 0 &&
            (x >> 45u64) & 1 == 0 &&
            (x >> 46u64) & 1 == 0 &&
            (x >> 47u64) & 1 == 0 &&
            (x >> 48u64) & 1 == 0 &&
            (x >> 49u64) & 1 == 0 &&
            (x >> 50u64) & 1 == 0 &&
            (x >> 51u64) & 1 == 0 &&
            (x >> 52u64) & 1 == 0 &&
            (x >> 53u64) & 1 == 0 &&
            (x >> 54u64) & 1 == 0 &&
            (x >> 55u64) & 1 == 0 &&
            (x >> 56u64) & 1 == 0 &&
            (x >> 57u64) & 1 == 0 &&
            (x >> 58u64) & 1 == 0 &&
            (x >> 59u64) & 1 == 0 &&
            (x >> 60u64) & 1 == 0 &&
            (x >> 61u64) & 1 == 0 &&
            (x >> 62u64) & 1 == 0 &&
            (x >> 63u64) & 1 == 0,
    ;
}

/// A set is empty exactly when it counts no square.
pub proof fn lemma_popcount_zero(b: u64)
    ensures
        (popcount(b) == 0) <==> (b == 0),
    decreases b,
{
    if b != 0 {
        lemma_popcount_zero(b / 2);
    }
}

/// The lowest set square: it is in the set, no lower square is, and clearing
/// the lowest bit (`b & (b - 1)`) removes exactly it.
pub proof fn lemma_lsb(b: u64)
    requires
        b != 0,
    ensures
        0 <= lsb(b) < 64,
        sq_in(b, lsb(b)),
        forall|t: int| 0 <= t < lsb(b) ==> !sq_in(b, t),
        b & ((b - 1) as u64) == b & !(1u64 << (lsb(b) as u64)),
        forall|t: int| #![auto] sq_in(b & ((b - 1) as u64), t) <==> (sq_in(b, t) && t != lsb(b)),
{
    vstd::std_specs::bits::axiom_u64_trailing_zeros(b);
    let t = b.trailing_zeros() as u64;
    let z = (64 - t) as u64;
    assert(b << z == 0);
    assert(b & ((b - 1) as u64) == b & !(1u64 << t)) by (bit_vector)
        requires
            b != 0,
            t < 64,
            z == 64 - t,
            b << z == 0,
            (b >> t) & 1 == 1,
    ;
    assert forall|j: int| 0 <= j < lsb(b) implies !sq_in(b, j) by {
        assert((b >> (j as u64)) & 1u64 == 0u64);
    }
    broadcast use group_bitboard;
}

#[inline(always)]
pub fn bb(s: Square) -> (r: Bitboard)
    requires
        s < 64,
    ensures
        r == 1u64 << s,
        forall|t: int| #![auto] sq_in(r, t) <==> t == s,
{
    broadcast use group_bitboard;
    1u64 << s
}

/// Takes the lowest square out of a non-empty set and returns it.
#[inline(always)]
pub fn pop_lsb(b: &mut Bitboard) -> (s: Square)
    requires
        *old(b) != 0,
    ensures
        s == lsb(*old(b)),
        s < 64,
        sq_in(*old(b), s as int),
        forall|t: int| 0 <= t < s ==> !sq_in(*old(b), t),
        *final(b) == *old(b) & ((*old(b) - 1) as u64),
        *final(b) == *old(b) & !(1u64 << s),
        forall|t: int| #![auto] sq_in(*final(b), t) <==> (sq_in(*old(b), t) && t != s),
        *final(b) < *old(b),
{
    proof {
        lemma_lsb(*b);
    }
    let s = b.trailing_zeros() as Square;
    let x = *b;
    *b = x & (x - 1);
    assert(x & ((x - 1) as u64) < x) by (bit_vector)
        requires
            x != 0,
    ;
    s
}

pub fn count(b: Bitboard) -> (r: u32)
    ensures
        r == popcount(b),
        r <= 64,
{
    let mut x = b;
    let mut c: u32 = 0;
    let mut i: u32 = 0;
    assert(b >> 0u64 == b) by (bit_vector);
    while i < 64
        invariant
            i <= 64,
            c <= i,
            c + popcount(x) == popcount(b),
            i < 64 ==> x == b >> (i as u64),
            i == 64 ==> x == 0,
        decreases 64 - i,
    {
        let ghost old_x = x;
        c = c + (x % 2) as u32;
        x = x / 2;
        assert(old_x / 2 == old_x >> 1u64) by (bit_vector);
        if i < 63 {
            assert(x == b >> ((i + 1) as u64)) by (bit_vector)
                requires
                    i < 63,
                    old_x == b >> (i as u64),
                    x == old_x >> 1u64,
            ;
        } else {
            assert(x == 0) by (bit_vector)
                requires
                    i == 63,
                    old_x == b >> (i as u64),
                    x == old_x >> 1u64,
            ;
        }
        i = i + 1;
    }
    c
}

/// a1 is dark; a square is light when its rank plus its file is odd.
pub const LIGHT_SQUARES: Bitboard = 0x55AA55AA55AA55AA;
pub const DARK_SQUARES: Bitboard = 0xAA55AA55AA55AA55;
pub const FILE_A: Bitboard = 0x0101010101010101;
pub const FILE_H: Bitboard = 0x8080808080808080;
pub const RANK_1: Bitboard = 0x00000000000000FF;
pub const RANK_2: Bitboard = 0x000000000000FF00;
pub const RANK_3: Bitboard = 0x0000000000FF0000;
pub const RANK_4: Bitboard = 0x00000000FF000000;
pub const RANK_5: Bitboard = 0x000000FF00000000;
pub const RANK_6: Bitboard = 0x0000FF0000000000;
pub const RANK_7: Bitboard = 0x00FF000000000000;
pub const RANK_8: Bitboard = 0xFF00000000000000;

#[inline(always)]
pub fn north(b: Bitboard) -> (r: Bitboard)
    ensures
        r == b << 8u64,
{
    b << 8
}

#[inline(always)]
pub fn south(b: Bitboard) -> (r: Bitboard)
    ensures
        r == b >> 8u64,
{
    b >> 8
}

#[inline(always)]
pub fn east(b: Bitboard) -> (r: Bitboard)
    ensures
        r == (b & !FILE_H) << 1u64,
{
    (b & !FILE_H) << 1
}

#[inline(always)]
pub fn west(b: Bitboard) -> (r: Bitboard)
    ensures
        r == (b & !FILE_A) >> 1u64,
{
    (b & !FILE_A) >> 1
}


/// Which squares the rank and edge-file masks hold.
pub proof fn lemma_masks(s: u64)
    by (bit_vector)
    requires
        s < 64,
    ensures
        ((RANK_1 >> s) & 1 == 1) <==> s < 8,
        ((RANK_2 >> s) & 1 == 1) <==> (8 <= s && s < 16),
        ((RANK_3 >> s) & 1 == 1) <==> (16 <= s && s < 24),
        ((RANK_6 >> s) & 1 == 1) <==> (40 <= s && s < 48),
        ((RANK_7 >> s) & 1 == 1) <==> (48 <= s && s < 56),
        ((RANK_8 >> s) & 1 == 1) <==> 56 <= s,
        ((FILE_A >> s) & 1 == 1) <==> s % 8 == 0,
        ((FILE_H >> s) & 1 == 1) <==> s % 8 == 7,
        ((LIGHT_SQUARES >> s) & 1 == 1) <==> (s / 8 + s % 8) % 2 == 1,
        ((DARK_SQUARES >> s) & 1 == 1) <==> (s / 8 + s % 8) % 2 == 0,
{
}
} // verus!
