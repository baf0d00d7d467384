//! Magic bitboards for sliding-piece attacks.
//!
//! For each square, the squares that can block a slider (its rays without the
//! final edge square) form the relevant mask. Every subset of the mask is
//! enumerated, multiplied by the square's magic number, and the top bits of
//! the product index a table holding the real attack set for that subset. A
//! magic is accepted only if no two subsets with different attacks share an
//! index.
use vstd::prelude::*;
use crate::attacks::{bishop_spec, file_i, lemma_or_facts, on_board, rank_i, ray, rook_spec, sq_bit};
use crate::bitboard::{sq_in, Bitboard};
use crate::types::Square;

verus! {

/// The attacks of a rook (`rook`) or a bishop on `s` for the occupancy `occ`.
pub open spec fn slider_spec(s: int, occ: u64, rook: bool) -> u64 {
    if rook {
        rook_spec(s, occ)
    } else {
        bishop_spec(s, occ)
    }
}

/// Direction `k` (0..4) of a rook or a bishop, as (file step, rank step).
pub open spec fn dir_of(rook: bool, k: int) -> (int, int) {
    if rook {
        if k == 0 {
            (1, 0)
        } else if k == 1 {
            (-1, 0)
        } else if k == 2 {
            (0, 1)
        } else {
            (0, -1)
        }
    } else {
        if k == 0 {
            (1, 1)
        } else if k == 1 {
            (1, -1)
        } else if k == 2 {
            (-1, 1)
        } else {
            (-1, -1)
        }
    }
}

/// The squares stepping from (f, r) by (df, dr), at most `n` steps, that are
/// not the last square before the edge: the squares where a blocker matters.
pub open spec fn inner_ray(f: int, r: int, df: int, dr: int, n: nat) -> u64
    decreases n,
{
    if n == 0 || !on_board(f + 2 * df, r + 2 * dr) {
        0
    } else {
        sq_bit(f + df, r + dr) | inner_ray(f + df, r + dr, df, dr, (n - 1) as nat)
    }
}

pub open spec fn inner_dir(s: int, rook: bool, k: int) -> u64 {
    inner_ray(file_i(s), rank_i(s), dir_of(rook, k).0, dir_of(rook, k).1, 7)
}

/// The relevant-occupancy mask of a slider on `s`.
pub open spec fn mask_spec(s: int, rook: bool) -> u64 {
    inner_dir(s, rook, 0) | inner_dir(s, rook, 1) | inner_dir(s, rook, 2) | inner_dir(s, rook, 3)
}

fn step_of(rook: bool, k: usize) -> (d: (i32, i32))
    requires
        k < 4,
    ensures
        d.0 == dir_of(rook, k as int).0,
        d.1 == dir_of(rook, k as int).1,
        -1 <= d.0 <= 1,
        -1 <= d.1 <= 1,
{
    if rook {
        if k == 0 {
            (1, 0)
        } else if k == 1 {
            (-1, 0)
        } else if k == 2 {
            (0, 1)
        } else {
            (0, -1)
        }
    } else {
        if k == 0 {
            (1, 1)
        } else if k == 1 {
            (1, -1)
        } else if k == 2 {
            (-1, 1)
        } else {
            (-1, -1)
        }
    }
}

/// The attacks of a slider on `s`, walking each ray to its first blocker.
fn ray_attacks_slow(s: Square, occ: Bitboard, rook: bool) -> (out: Bitboard)
    requires
        s < 64,
    ensures
        out == slider_spec(s as int, occ, rook),
{
    let (f0, r0) = step_of(rook, 0);
    let (f1, r1) = step_of(rook, 1);
    let (f2, r2) = step_of(rook, 2);
    let (f3, r3) = step_of(rook, 3);
    crate::attacks::ray_attacks(s, occ, f0, r0) | crate::attacks::ray_attacks(s, occ, f1, r1)
        | crate::attacks::ray_attacks(s, occ, f2, r2) | crate::attacks::ray_attacks(s, occ, f3, r3)
}

/// The inner squares of one ray from `s`.
fn inner_ray_exec(s: Square, df: i32, dr: i32) -> (out: Bitboard)
    requires
        s < 64,
        -1 <= df <= 1,
        -1 <= dr <= 1,
    ensures
        out == inner_ray(file_i(s as int), rank_i(s as int), df as int, dr as int, 7),
{
    let mut f = (s % 8) as i32;
    let mut r = (s / 8) as i32;
    let mut out: u64 = 0;
    let mut n: u32 = 7;
    proof {
        lemma_or_facts(inner_ray(f as int, r as int, df as int, dr as int, 7), 0, 0);
    }
    while n > 0
        invariant
            0 <= f < 8,
            0 <= r < 8,
            -1 <= df <= 1,
            -1 <= dr <= 1,
            n <= 7,
            out | inner_ray(f as int, r as int, df as int, dr as int, n as nat) == inner_ray(
                file_i(s as int),
                rank_i(s as int),
                df as int,
                dr as int,
                7,
            ),
        decreases n,
    {
        let nf = f + df;
        let nr = r + dr;
        if !(0 <= nf + df && nf + df < 8 && 0 <= nr + dr && nr + dr < 8) {
            proof {
                lemma_or_facts(out, 0, 0);
            }
            n = 0;
        } else {
            let bit = 1u64 << ((nr * 8 + nf) as u64);
            let ghost rest = inner_ray(nf as int, nr as int, df as int, dr as int, (n - 1) as nat);
            proof {
                lemma_or_facts(out, bit, rest);
            }
            out = out | bit;
            f = nf;
            r = nr;
            n = n - 1;
        }
    }
    proof {
        lemma_or_facts(out, 0, 0);
    }
    out
}

/// The relevant-occupancy mask: the rays without their edge squares.
fn relevant_mask(s: Square, rook: bool) -> (m: Bitboard)
    requires
        s < 64,
    ensures
        m == mask_spec(s as int, rook),
{
    let (f0, r0) = step_of(rook, 0);
    let (f1, r1) = step_of(rook, 1);
    let (f2, r2) = step_of(rook, 2);
    let (f3, r3) = step_of(rook, 3);
    inner_ray_exec(s, f0, r0) | inner_ray_exec(s, f1, r1) | inner_ray_exec(s, f2, r2) | inner_ray_exec(s, f3, r3)
}

proof fn lemma_test_bit(x: u64, s: u64)
    requires
        s < 64,
    ensures
        (x & (1u64 << s) != 0) <==> (x >> s) & 1 == 1,
{
    assert((x & (1u64 << s) != 0) <==> (x >> s) & 1 == 1) by (bit_vector)
        requires
            s < 64,
    ;
}

/// A ray depends on the occupancy only at its inner squares: the edge square
/// ends the ray whether or not something stands on it.
proof fn lemma_ray_relevant(f: int, r: int, df: int, dr: int, occ1: u64, occ2: u64, n: nat)
    requires
        on_board(f, r),
        -1 <= df <= 1,
        -1 <= dr <= 1,
        forall|t: int| sq_in(inner_ray(f, r, df, dr, n), t) ==> (sq_in(occ1, t) <==> sq_in(occ2, t)),
    ensures
        ray(f, r, df, dr, occ1, n) == ray(f, r, df, dr, occ2, n),
    decreases n,
{
    if n > 0 {
        let nf = f + df;
        let nr = r + dr;
        if on_board(nf, nr) {
            let t0 = nr * 8 + nf;
            let bit = sq_bit(nf, nr);
            lemma_test_bit(occ1, t0 as u64);
            lemma_test_bit(occ2, t0 as u64);
            if on_board(nf + df, nr + dr) {
                let tail = inner_ray(nf, nr, df, dr, (n - 1) as nat);
                assert(inner_ray(f, r, df, dr, n) == bit | tail);
                crate::bitboard::lemma_sq_in_or(bit, tail, t0);
                crate::bitboard::lemma_sq_in_single(t0 as u64, t0);
                assert forall|t: int| sq_in(tail, t) implies (sq_in(occ1, t) <==> sq_in(occ2, t)) by {
                    crate::bitboard::lemma_sq_in_or(bit, tail, t);
                }
                lemma_ray_relevant(nf, nr, df, dr, occ1, occ2, (n - 1) as nat);
                assert(sq_in(bit, t0));
                assert(sq_in(inner_ray(f, r, df, dr, n), t0));
                assert(sq_in(occ1, t0) <==> sq_in(occ2, t0));
                assert((occ1 & bit != 0) <==> (occ2 & bit != 0));
            } else {
                lemma_or_facts(bit, 0, 0);
                assert(ray(nf, nr, df, dr, occ1, (n - 1) as nat) == 0);
                assert(ray(nf, nr, df, dr, occ2, (n - 1) as nat) == 0);
            }
        }
    }
}

/// A slider's attacks depend on the occupancy only inside its mask.
proof fn lemma_slider_relevant(s: int, occ: u64, rook: bool)
    requires
        0 <= s < 64,
    ensures
        slider_spec(s, occ, rook) == slider_spec(s, occ & mask_spec(s, rook), rook),
{
    let m = mask_spec(s, rook);
    let f = file_i(s);
    let r = rank_i(s);
    assert forall|k: int, t: int| 0 <= k < 4 && sq_in(inner_dir(s, rook, k), t) implies (sq_in(occ, t) <==> sq_in(
        occ & m,
        t,
    )) by {
        crate::bitboard::lemma_sq_in_and(occ, m, t);
        let a = inner_dir(s, rook, 0);
        let b = inner_dir(s, rook, 1);
        let c = inner_dir(s, rook, 2);
        let d = inner_dir(s, rook, 3);
        crate::bitboard::lemma_sq_in_or(a | b | c, d, t);
        crate::bitboard::lemma_sq_in_or(a | b, c, t);
        crate::bitboard::lemma_sq_in_or(a, b, t);
    }
    assert forall|k: int| 0 <= k < 4 implies ray(f, r, dir_of(rook, k).0, dir_of(rook, k).1, occ, 7) == ray(
        f,
        r,
        dir_of(rook, k).0,
        dir_of(rook, k).1,
        occ & m,
        7,
    ) by {
        assert forall|t: int| sq_in(inner_ray(f, r, dir_of(rook, k).0, dir_of(rook, k).1, 7), t) implies (sq_in(
            occ,
            t,
        ) <==> sq_in(occ & m, t)) by {
            assert(sq_in(inner_dir(s, rook, k), t));
        }
        lemma_ray_relevant(f, r, dir_of(rook, k).0, dir_of(rook, k).1, occ, occ & m, 7);
    }
    assert(ray(f, r, dir_of(rook, 0).0, dir_of(rook, 0).1, occ, 7) == ray(f, r, dir_of(rook, 0).0, dir_of(rook, 0).1, occ & m, 7));
    assert(ray(f, r, dir_of(rook, 1).0, dir_of(rook, 1).1, occ, 7) == ray(f, r, dir_of(rook, 1).0, dir_of(rook, 1).1, occ & m, 7));
    assert(ray(f, r, dir_of(rook, 2).0, dir_of(rook, 2).1, occ, 7) == ray(f, r, dir_of(rook, 2).0, dir_of(rook, 2).1, occ & m, 7));
    assert(ray(f, r, dir_of(rook, 3).0, dir_of(rook, 3).1, occ, 7) == ray(f, r, dir_of(rook, 3).0, dir_of(rook, 3).1, occ & m, 7));
}

pub proof fn lemma_clear_low(m: u64)
    requires
        m != 0,
    ensures
        m & ((m - 1) as u64) < m,
{
    assert(m & ((m - 1) as u64) < m) by (bit_vector)
        requires
            m != 0,
    ;
}

/// The lowest set bit of a non-empty set, as a set.
pub open spec fn low_bit(m: u64) -> u64 {
    m & !((m - 1) as u64)
}

/// How many bits are set.
pub open spec fn nbits(m: u64) -> nat
    decreases m,
{
    if m == 0 {
        0
    } else {
        proof {
            lemma_clear_low(m);
        }
        1 + nbits(m & ((m - 1) as u64))
    }
}

/// The `i`-th subset of `m`: bit k of `i` says whether the k-th lowest bit of
/// `m` is in it.
pub open spec fn deposit(i: nat, m: u64) -> u64
    decreases m,
{
    if m == 0 {
        0
    } else {
        proof {
            lemma_clear_low(m);
        }
        (if i % 2 == 1 {
            low_bit(m)
        } else {
            0
        }) | deposit(i / 2, m & ((m - 1) as u64))
    }
}

/// Which subset of `m` the bits of `x` inside `m` are: the inverse of `deposit`.
pub open spec fn extract(x: u64, m: u64) -> nat
    decreases m,
{
    if m == 0 {
        0
    } else {
        proof {
            lemma_clear_low(m);
        }
        (if x & low_bit(m) != 0 {
            1nat
        } else {
            0
        }) + 2 * extract(x, m & ((m - 1) as u64))
    }
}

pub open spec fn two_pow(n: nat) -> nat
    decreases n,
{
    if n == 0 {
        1
    } else {
        2 * two_pow((n - 1) as nat)
    }
}

proof fn lemma_low_bit(m: u64, x: u64, y: u64)
    requires
        m != 0,
    ensures
        x & !m == 0 ==> x == (x & low_bit(m)) | (x & (m & ((m - 1) as u64))),
        x & !m == 0 ==> (x & (m & ((m - 1) as u64))) & !(m & ((m - 1) as u64)) == 0,
        x & low_bit(m) != 0 ==> x & low_bit(m) == low_bit(m),
        x & m == y & m ==> (x & low_bit(m) == y & low_bit(m) && x & (m & ((m - 1) as u64)) == y & (m & ((m
            - 1) as u64))),
        x & (m & ((m - 1) as u64)) == (x & (m & ((m - 1) as u64))) & (m & ((m - 1) as u64)),
{
    let m1 = (m - 1) as u64;
    assert(x & !m == 0 ==> x == (x & (m & !m1)) | (x & (m & m1))) by (bit_vector)
        requires
            m != 0,
            m1 == m - 1,
    ;
    assert(x & !m == 0 ==> (x & (m & m1)) & !(m & m1) == 0) by (bit_vector);
    assert(x & (m & !m1) != 0 ==> x & (m & !m1) == m & !m1) by (bit_vector)
        requires
            m != 0,
            m1 == m - 1,
    ;
    assert(x & m == y & m ==> (x & (m & !m1) == y & (m & !m1) && x & (m & m1) == y & (m & m1))) by (bit_vector);
    assert(x & (m & m1) == (x & (m & m1)) & (m & m1)) by (bit_vector);
}

proof fn lemma_extract_masked(x: u64, y: u64, m: u64)
    requires
        x & m == y & m,
    ensures
        extract(x, m) == extract(y, m),
    decreases m,
{
    if m != 0 {
        lemma_low_bit(m, x, y);
        lemma_clear_low(m);
        lemma_extract_masked(x, y, m & ((m - 1) as u64));
    }
}

/// Every subset of `m` is the `extract`-th subset, and `extract` is below
/// two to the number of bits.
proof fn lemma_deposit_extract(x: u64, m: u64)
    requires
        x & !m == 0,
    ensures
        deposit(extract(x, m), m) == x,
        extract(x, m) < two_pow(nbits(m)),
    decreases m,
{
    if m == 0 {
        assert(x & !0u64 == x) by (bit_vector);
    } else {
        let m1 = m & ((m - 1) as u64);
        let xt = x & m1;
        lemma_clear_low(m);
        lemma_low_bit(m, x, xt);
        lemma_deposit_extract(xt, m1);
        lemma_extract_masked(x, xt, m1);
        let e = extract(x, m);
        let b: nat = if x & low_bit(m) != 0 {
            1
        } else {
            0
        };
        assert(e == b + 2 * extract(x, m1));
        assert(e % 2 == b && e / 2 == extract(x, m1));
        if b == 0 {
            lemma_or_facts(xt, 0, 0);
            assert(x & low_bit(m) == 0);
            lemma_or_facts(0, xt, 0);
        }
    }
}

proof fn lemma_shl_two_pow(n: u64)
    requires
        n < 64,
    ensures
        (1u64 << n) == two_pow(n as nat),
    decreases n,
{
    if n > 0 {
        let k = (n - 1) as u64;
        lemma_shl_two_pow(k);
        assert((1u64 << n) == 2 * (1u64 << k)) by (bit_vector)
            requires
                n < 64,
                k == n - 1,
        ;
    } else {
        assert((1u64 << 0u64) == 1) by (bit_vector);
    }
}

proof fn lemma_two_pow_mono(a: nat, b: nat)
    requires
        a <= b,
    ensures
        1 <= two_pow(a) <= two_pow(b),
    decreases b,
{
    if b > 0 {
        if a < b {
            lemma_two_pow_mono(a, (b - 1) as nat);
        } else {
            lemma_two_pow_mono((a - 1) as nat, (b - 1) as nat);
        }
    }
}

proof fn lemma_two_pow_small(n: nat)
    requires
        n <= 16,
    ensures
        1 <= two_pow(n) <= 65536,
{
    lemma_two_pow_mono(n, 16);
    assert(two_pow(16) == 65536) by {
        reveal_with_fuel(two_pow, 17);
    }
}

proof fn lemma_index_bound(y: u64, b: u64)
    requires
        1 <= b <= 16,
    ensures
        (y >> ((64 - b) as u64)) < (1u64 << b),
{
    assert((y >> ((64 - b) as u64)) < (1u64 << b)) by (bit_vector)
        requires
            1 <= b <= 16,
    ;
}

/// Each set bit counted is a bit cleared, so there are at most `m` of them.
proof fn lemma_nbits_le(m: u64)
    ensures
        nbits(m) <= m,
    decreases m,
{
    if m != 0 {
        lemma_clear_low(m);
        lemma_nbits_le(m & ((m - 1) as u64));
    }
}

/// The number of bits set in `m`.
fn count_bits(m: u64) -> (n: u64)
    ensures
        n == nbits(m),
{
    let mut x = m;
    let mut n: u64 = 0;
    proof {
        lemma_nbits_le(m);
    }
    while x != 0
        invariant
            n + nbits(x) == nbits(m),
            nbits(m) <= m,
        decreases x,
    {
        proof {
            lemma_clear_low(x);
        }
        x = x & (x - 1);
        n = n + 1;
    }
    n
}

/// The `index`-th subset of `mask`.
fn subset(index: usize, mask: Bitboard) -> (r: Bitboard)
    ensures
        r == deposit(index as nat, mask),
{
    let mut result: u64 = 0;
    let mut m = mask;
    let mut i = index;
    proof {
        lemma_or_facts(deposit(index as nat, mask), 0, 0);
    }
    while m != 0
        invariant
            result | deposit(i as nat, m) == deposit(index as nat, mask),
        decreases m,
    {
        proof {
            lemma_clear_low(m);
        }
        let bit = m & !(m - 1);
        let ghost rest = deposit((i / 2) as nat, m & ((m - 1) as u64));
        let ghost part: u64 = if i % 2 == 1 {
            bit
        } else {
            0
        };
        proof {
            lemma_or_facts(result, part, rest);
        }
        m = m & (m - 1);
        if i % 2 == 1 {
            result = result | bit;
        } else {
            proof {
                lemma_or_facts(result, 0, 0);
            }
        }
        i = i / 2;
    }
    proof {
        lemma_or_facts(result, 0, 0);
    }
    result
}

/// The table slot of the occupancy `x` (already masked) under `magic`.
pub open spec fn slot(x: u64, magic: u64, shift: u64) -> int {
    (x.wrapping_mul(magic) >> shift) as int
}

/// `magic` works for a slider on `s`: the mask has 1 to 16 bits, and any two
/// subsets of the mask that land in one slot have the same attacks.
pub open spec fn magic_ok(s: int, rook: bool, magic: u64) -> bool {
    let m = mask_spec(s, rook);
    let n = nbits(m);
    &&& 1 <= n <= 16
    &&& forall|i: nat, j: nat|
        i < two_pow(n) && j < two_pow(n) && #[trigger] slot(deposit(i, m), magic, (64 - n) as u64) == #[trigger] slot(
            deposit(j, m),
            magic,
            (64 - n) as u64,
        ) ==> slider_spec(s, deposit(i, m), rook) == slider_spec(s, deposit(j, m), rook)
}

/// The table of one square.
pub struct SquareMagic {
    mask: Bitboard,
    magic: u64,
    shift: u64,
    table: Vec<Bitboard>,
}

impl SquareMagic {
    /// The table gives the attacks of every subset of the mask.
    pub closed spec fn wf(&self, s: int, rook: bool) -> bool {
        let n = nbits(self.mask);
        &&& 0 <= s < 64
        &&& self.mask == mask_spec(s, rook)
        &&& 1 <= n <= 16
        &&& self.shift == 64 - n
        &&& self.table@.len() == two_pow(n)
        &&& forall|i: nat|
            i < two_pow(n) ==> #[trigger] self.table@[slot(deposit(i, self.mask), self.magic, self.shift)]
                == slider_spec(s, deposit(i, self.mask), rook)
    }

    fn attacks(&self, occ: Bitboard, Ghost(s): Ghost<int>, Ghost(rook): Ghost<bool>) -> (r: Bitboard)
        requires
            self.wf(s, rook),
        ensures
            r == slider_spec(s, occ, rook),
    {
        let x = occ & self.mask;
        proof {
            let m = self.mask;
            assert(x & !m == 0) by (bit_vector)
                requires
                    x == occ & m,
            ;
            lemma_deposit_extract(x, m);
            lemma_slider_relevant(s, occ, rook);
            lemma_index_bound(x.wrapping_mul(self.magic), nbits(m) as u64);
            lemma_shl_two_pow(nbits(m) as u64);
            lemma_two_pow_small(nbits(m));
            assert(self.table@[slot(deposit(extract(x, m), m), self.magic, self.shift)] == slider_spec(
                s,
                deposit(extract(x, m), m),
                rook,
            ));
        }
        let idx = (x.wrapping_mul(self.magic) >> self.shift) as usize;
        self.table[idx]
    }
}

/// The table of square `s` for a known magic: `None` where the magic sends
/// two subsets with different attacks to one slot (or the mask is not the
/// size of a slider's).
fn magic_from_known(s: Square, rook: bool, magic: u64) -> (r: Option<SquareMagic>)
    requires
        s < 64,
    ensures
        r is Some <==> magic_ok(s as int, rook, magic),
        r matches Some(sm) ==> sm.wf(s as int, rook) && sm.magic == magic,
{
    let mask = relevant_mask(s, rook);
    let bits = count_bits(mask);
    if bits == 0 || bits > 16 {
        return None;
    }
    let ghost n = nbits(mask);
    proof {
        lemma_shl_two_pow(bits);
        lemma_two_pow_small(n);
    }
    let size = (1u64 << bits) as usize;
    let shift: u64 = 64 - bits;
    let mut table: Vec<Bitboard> = Vec::new();
    let mut posto: Vec<bool> = Vec::new();
    let mut k: usize = 0;
    while k < size
        invariant
            k <= size,
            table@.len() == k,
            posto@.len() == k,
            forall|j: int| 0 <= j < k ==> !#[trigger] posto@[j],
        decreases size - k,
    {
        table.push(0);
        posto.push(false);
        k = k + 1;
    }
    let mut i: usize = 0;
    while i < size
        invariant
            s < 64,
            mask == mask_spec(s as int, rook),
            bits == n,
            n == nbits(mask),
            1 <= n <= 16,
            size == two_pow(n),
            shift == 64 - n,
            i <= size,
            size <= 65536,
            (1u64 << bits) == size,
            table@.len() == size,
            posto@.len() == size,
            forall|j: nat|
                j < i ==> #[trigger] posto@[slot(deposit(j, mask), magic, shift)] && table@[slot(
                    deposit(j, mask),
                    magic,
                    shift,
                )] == slider_spec(s as int, deposit(j, mask), rook),
            forall|q: int|
                0 <= q < size && #[trigger] posto@[q] ==> exists|j: nat|
                    j < i && slot(deposit(j, mask), magic, shift) == q && #[trigger] slider_spec(
                        s as int,
                        deposit(j, mask),
                        rook,
                    ) == table@[q],
        decreases size - i,
    {
        let occ = subset(i, mask);
        let att = ray_attacks_slow(s, occ, rook);
        proof {
            lemma_index_bound(occ.wrapping_mul(magic), bits);
            lemma_shl_two_pow(bits);
        }
        let idx = (occ.wrapping_mul(magic) >> shift) as usize;
        if posto[idx] && table[idx] != att {
            proof {
                let j = choose|j: nat|
                    j < i && slot(deposit(j, mask), magic, shift) == idx && #[trigger] slider_spec(
                        s as int,
                        deposit(j, mask),
                        rook,
                    ) == table@[idx as int];
                assert(slot(deposit(i as nat, mask), magic, shift) == slot(deposit(j, mask), magic, shift));
                assert(!magic_ok(s as int, rook, magic));
            }
            return None;
        }
        let ghost old_table = table@;
        let ghost old_posto = posto@;
        table.set(idx, att);
        posto.set(idx, true);
        proof {
            assert forall|j: nat| j < i + 1 implies #[trigger] posto@[slot(deposit(j, mask), magic, shift)] && table@[slot(
                deposit(j, mask),
                magic,
                shift,
            )] == slider_spec(s as int, deposit(j, mask), rook) by {
                lemma_index_bound(deposit(j, mask).wrapping_mul(magic), bits);
                if j < i {
                    let q = slot(deposit(j, mask), magic, shift);
                    assert(old_posto[q]);
                    if q == idx {
                        assert(old_table[q] == att);
                    }
                } else {
                    assert(slot(deposit(j, mask), magic, shift) == idx);
                }
            }
            assert forall|q: int|
                0 <= q < size && #[trigger] posto@[q] implies exists|j: nat|
                    j < i + 1 && slot(deposit(j, mask), magic, shift) == q && #[trigger] slider_spec(
                        s as int,
                        deposit(j, mask),
                        rook,
                    ) == table@[q] by {
                if q == idx {
                    assert(slot(deposit(i as nat, mask), magic, shift) == q);
                    assert(slider_spec(s as int, deposit(i as nat, mask), rook) == table@[q]);
                }
            }
        }
        i = i + 1;
    }
    let sm = SquareMagic { mask, magic, shift, table };
    proof {
        assert(sm.mask == mask_spec(s as int, rook));
        assert(1 <= nbits(sm.mask) <= 16);
        assert(sm.shift == 64 - nbits(sm.mask));
        assert(sm.table@.len() == two_pow(nbits(sm.mask)));
        assert forall|j: nat|
            j < two_pow(nbits(sm.mask)) implies #[trigger] sm.table@[slot(deposit(j, sm.mask), sm.magic, sm.shift)]
                == slider_spec(s as int, deposit(j, sm.mask), rook) by {
            assert(posto@[slot(deposit(j, mask), magic, shift)]);
        }
        assert(sm.wf(s as int, rook));
        assert forall|a: nat, b: nat|
            a < two_pow(n) && b < two_pow(n) && #[trigger] slot(deposit(a, mask), magic, (64 - n) as u64) == #[trigger] slot(
                deposit(b, mask),
                magic,
                (64 - n) as u64,
            ) implies slider_spec(s as int, deposit(a, mask), rook) == slider_spec(s as int, deposit(b, mask), rook) by {
            assert(posto@[slot(deposit(a, mask), magic, shift)]);
            assert(posto@[slot(deposit(b, mask), magic, shift)]);
        }
        assert(magic_ok(s as int, rook, magic));
    }
    Some(sm)
}

/// One step of the xorshift generator.
pub open spec fn xorshift(x: u64) -> u64 {
    let a = x ^ (x << 13u64);
    let b = a ^ (a >> 7u64);
    b ^ (b << 17u64)
}

/// A sparse candidate drawn from `state`: the AND of the next three
/// numbers, and the state after them.
pub open spec fn sparse_draw(state: u64) -> (u64, u64) {
    let a = xorshift(state);
    let b = xorshift(a);
    let c = xorshift(b);
    (a & b & c, c)
}

/// The search for a magic of square `s` from `state`, at most `tries`
/// candidates: the first candidate that works (if any), and the state after
/// the last candidate drawn.
pub open spec fn magic_search(s: int, rook: bool, state: u64, tries: nat) -> (Option<u64>, u64)
    decreases tries,
{
    if tries == 0 {
        (None, state)
    } else {
        let d = sparse_draw(state);
        if magic_ok(s, rook, d.0) {
            (Some(d.0), d.1)
        } else {
            magic_search(s, rook, d.1, (tries - 1) as nat)
        }
    }
}

/// The xorshift random generator the magics were searched with.
pub struct Xorshift64(pub u64);

impl Xorshift64 {
    /// The next number; it is also the new state.
    pub fn next(&mut self) -> (r: u64)
        ensures
            r == xorshift(old(self).0),
            final(self).0 == r,
    {
        let mut x = self.0;
        x ^= x << 13u64;
        x ^= x >> 7u64;
        x ^= x << 17u64;
        self.0 = x;
        x
    }

    /// A candidate with few bits set: magics with few set bits are far more
    /// likely to hash well.
    pub fn sparse(&mut self) -> (r: u64)
        ensures
            (r, final(self).0) == sparse_draw(old(self).0),
    {
        let a = self.next();
        let b = self.next();
        let c = self.next();
        a & b & c
    }
}

impl SquareMagic {
    /// The magic multiplier of this table.
    pub closed spec fn magic_spec(&self) -> u64 {
        self.magic
    }

    /// The magic multiplier of this table.
    pub fn magic(&self) -> (m: u64)
        ensures
            m == self.magic_spec(),
    {
        self.magic
    }
}

/// Tries sparse random candidates until one works for square `s` (at most
/// `tries` of them) and returns its table: the first candidate that works,
/// with the generator left after it; `None` when none of the `tries` works.
pub fn find_magic_for_square(s: Square, rook: bool, rng: &mut Xorshift64, tries: u64) -> (r: Option<SquareMagic>)
    requires
        s < 64,
    ensures
        final(rng).0 == magic_search(s as int, rook, old(rng).0, tries as nat).1,
        r is Some <==> magic_search(s as int, rook, old(rng).0, tries as nat).0 is Some,
        r matches Some(sm) ==> sm.wf(s as int, rook) && Some(sm.magic_spec()) == magic_search(
            s as int,
            rook,
            old(rng).0,
            tries as nat,
        ).0,
{
    let ghost start = rng.0;
    let mut left = tries;
    while left > 0
        invariant
            s < 64,
            left <= tries,
            start == old(rng).0,
            magic_search(s as int, rook, rng.0, left as nat) == magic_search(s as int, rook, start, tries as nat),
        decreases left,
    {
        let ghost prev = rng.0;
        let magic = rng.sparse();
        match magic_from_known(s, rook, magic) {
            Some(sm) => {
                assert(magic_search(s as int, rook, prev, left as nat) == (Some(magic), rng.0));
                return Some(sm);
            },
            None => {},
        }
        left = left - 1;
    }
    None
}

/// The rook magics found by the self-checking random search, one per square.
pub const ROOK_MAGICS: [u64; 64] = [
    0x9080001184204004, 0x00c01008a0004000, 0x0500081100c12000, 0x4700090084203000,
    0x9200060068210410, 0x0080020014000980, 0x00801a0001005080, 0x0900018021450002,
    0x3000800220400480, 0x2000400042201000, 0x0008808020009000, 0x8000801000800800,
    0x09010008020c1100, 0x0602001012000884, 0x0441002402000100, 0x0140800244802100,
    0x9220608000c00090, 0x0090054000c82000, 0x0001010010406001, 0x4801848018003000,
    0x0404050010080100, 0x0001010006040008, 0x0001840028053002, 0x020022000080c104,
    0x0408208080044004, 0x00500040c0002002, 0x8d02002200348040, 0x0000080080100080,
    0x8091104500080100, 0x0802008080140042, 0x0001000500040600, 0x0090018a0000c104,
    0x0314814000800420, 0x0401810042002e00, 0x0241422001001100, 0x0080801000800802,
    0x0080040180800800, 0x4002010802001004, 0x8002010804001002, 0x200a01004e000c84,
    0x100281c011208008, 0x02c1200050004000, 0x0400302001010040, 0x0001100009010020,
    0x0001240008008080, 0x002a002010040400, 0x2420210002008080, 0x088d0401c0920021,
    0x0001004820820200, 0x0100a90080420600, 0x0a20002110008880, 0x20801000200d0100,
    0x0200240008018080, 0x1002003008040a00, 0x8424234a10082c00, 0x06a2310488440200,
    0x7009001242800025, 0x2d0d022040008051, 0x420b900820010041, 0x0100140890010021,
    0x0900480010050105, 0x0401000c00024801, 0x0082121008010184, 0x800201040024d086,
];

/// The bishop magics, one per square.
pub const BISHOP_MAGICS: [u64; 64] = [
    0x0008010804840080, 0x01100200b10a0802, 0x0010041081a02404, 0x3009204200840000,
    0x4044242001048401, 0x0ca2025004000082, 0xa900480210100880, 0x8228620a06200621,
    0x0c40109230040180, 0x000408480ca08200, 0x0000284244002198, 0x0210180a00240300,
    0x81340c0421800804, 0x1080911048042400, 0x190088c104104010, 0x00014840c4042014,
    0x004000a058020080, 0x20900c2511020410, 0x1026008408021100, 0x8002000403620200,
    0x0004000081a08040, 0x5081800110100100, 0x0003000401180200, 0x0002004100820301,
    0x041010800c20524b, 0x0461042021180200, 0x0128010018005300, 0x1002006012008200,
    0x1440840000802004, 0x0001802012021000, 0x0041440203028806, 0x0000408420420800,
    0x1401041190602000, 0x40008a1010208422, 0x6304020800050440, 0x00420084000a0210,
    0x0051010400020020, 0x00540800a00a0280, 0xc044010404004404, 0x0100840082084a00,
    0x3008020804006080, 0x00010910900c2200, 0x01104c004c000800, 0x0806002011040808,
    0x0004202040900700, 0x312204a102008101, 0x0002080104102300, 0x0404108411402110,
    0x0841009010082004, 0xc414208208200080, 0x4080a20042084000, 0x201c000284044001,
    0x082c00102a021800, 0x1000400408188208, 0x0210101021484020, 0x08021802208a0084,
    0x6211048884054000, 0x4441120101015000, 0x0014008100a82404, 0x8020082220208800,
    0x0000e00410020610, 0x8008014108190904, 0x04100c2038020098, 0x40102000a1020022,
];

/// Every built-in magic works for its square.
pub open spec fn built_in_magics_ok() -> bool {
    forall|s: int|
        0 <= s < 64 ==> magic_ok(s, true, #[trigger] ROOK_MAGICS[s]) && magic_ok(s, false, BISHOP_MAGICS[s])
}

/// The attack tables of every square, for rooks and bishops.
pub struct Magics {
    rook: Vec<SquareMagic>,
    bishop: Vec<SquareMagic>,
}

impl Magics {
    /// Every table gives its square's attacks.
    pub closed spec fn wf(&self) -> bool {
        &&& self.rook@.len() == 64
        &&& self.bishop@.len() == 64
        &&& forall|s: int| 0 <= s < 64 ==> #[trigger] self.rook@[s].wf(s, true)
        &&& forall|s: int| 0 <= s < 64 ==> #[trigger] self.bishop@[s].wf(s, false)
    }

    /// The tables for the built-in magics; `None` if one of them sends two
    /// occupancies with different attacks to one slot.
    pub fn new() -> (r: Option<Magics>)
        ensures
            r is Some <==> built_in_magics_ok(),
            r matches Some(m) ==> m.wf(),
    {
        let mut rook: Vec<SquareMagic> = Vec::new();
        let mut bishop: Vec<SquareMagic> = Vec::new();
        let mut s: u8 = 0;
        while s < 64
            invariant
                s <= 64,
                rook@.len() == s,
                bishop@.len() == s,
                forall|t: int| 0 <= t < s ==> #[trigger] rook@[t].wf(t, true),
                forall|t: int| 0 <= t < s ==> #[trigger] bishop@[t].wf(t, false),
                forall|t: int|
                    0 <= t < s ==> magic_ok(t, true, #[trigger] ROOK_MAGICS[t]) && magic_ok(t, false, BISHOP_MAGICS[t]),
            decreases 64 - s,
        {
            let r = magic_from_known(s, true, ROOK_MAGICS[s as usize]);
            let b = magic_from_known(s, false, BISHOP_MAGICS[s as usize]);
            match (r, b) {
                (Some(rm), Some(bm)) => {
                    rook.push(rm);
                    bishop.push(bm);
                },
                _ => {
                    proof {
                        assert(!(magic_ok(s as int, true, ROOK_MAGICS[s as int]) && magic_ok(s as int, false, BISHOP_MAGICS[s as int])));
                    }
                    return None;
                },
            }
            s = s + 1;
        }
        Some(Magics { rook, bishop })
    }

    /// The squares a rook on `s` attacks with occupancy `occ`.
    pub fn rook_attacks(&self, s: Square, occ: Bitboard) -> (b: Bitboard)
        requires
            self.wf(),
            s < 64,
        ensures
            b == rook_spec(s as int, occ),
    {
        proof {
            assert(self.rook@[s as int].wf(s as int, true));
        }
        self.rook[s as usize].attacks(occ, Ghost(s as int), Ghost(true))
    }

    /// The squares a bishop on `s` attacks with occupancy `occ`.
    pub fn bishop_attacks(&self, s: Square, occ: Bitboard) -> (b: Bitboard)
        requires
            self.wf(),
            s < 64,
        ensures
            b == bishop_spec(s as int, occ),
    {
        proof {
            assert(self.bishop@[s as int].wf(s as int, false));
        }
        self.bishop[s as usize].attacks(occ, Ghost(s as int), Ghost(false))
    }
}

} // verus!
