//! A Stockfish-format network: its stored form (signed LEB128 blocks of
//! weights) and its forward pass, from the active inputs of the two sides
//! to a score in the engine's units.
use vstd::prelude::*;
use crate::bitboard::{count, popcount, Bitboard};
use crate::evaluation::div_toward_zero;
use crate::nnue::{lemma_wrap16, lemma_wrapping, wrap16};

verus! {

/// How far a signed LEB128 value is from its last byte: the magnitude for a
/// non-negative value, one less than it for a negative one.
pub open spec fn leb_measure(v: i64) -> nat {
    if v >= 0 {
        v as nat
    } else {
        (-(v as int) - 1) as nat
    }
}

pub proof fn lemma_shift_seven(v: i64)
    by (bit_vector)
    ensures
        v > 0 ==> 0 <= (v >> 7u64) < v,
        v == 0 ==> (v >> 7u64) == 0,
        v == -1 ==> (v >> 7u64) == -1,
        v < -1 ==> v < (v >> 7u64) < 0,
        0 <= (v & 0x7f) < 128,
        v == 0 ==> (v & 0x7f) as u8 & 0x40u8 == 0,
        v == -1 ==> (v & 0x7f) as u8 & 0x40u8 != 0,
{
}

/// The bytes signed LEB128 writes for `v`: seven bits at a time from the
/// bottom, the high bit set on every byte but the last, which comes as soon
/// as what is left is the sign that bit 6 of the byte already carries.
pub open spec fn leb_encoding(v: i64) -> Seq<u8>
    decreases leb_measure(v),
{
    let byte = (v & 0x7f) as u8;
    let rest = v >> 7u64;
    let done = if byte & 0x40u8 == 0 {
        rest == 0
    } else {
        rest == -1
    };
    if done {
        seq![byte]
    } else {
        proof {
            lemma_shift_seven(v);
        }
        seq![byte | 0x80u8] + leb_encoding(rest)
    }
}

/// Appends the signed LEB128 encoding of `value`, the shortest there is.
pub fn leb_encode_one(value: i64, out: &mut Vec<u8>)
    ensures
        final(out)@ == old(out)@ + leb_encoding(value),
{
    let mut v = value;
    loop
        invariant
            out@ + leb_encoding(v) == old(out)@ + leb_encoding(value),
        decreases leb_measure(v),
    {
        let ghost before = v;
        let byte = (v & 0x7f) as u8;
        v = v >> 7;
        let done = if byte & 0x40 == 0 {
            v == 0
        } else {
            v == -1
        };
        proof {
            lemma_shift_seven(before);
        }
        let ghost prev = out@;
        if done {
            out.push(byte);
            proof {
                assert(leb_encoding(before) == seq![byte]);
                assert(out@ =~= prev + leb_encoding(before));
            }
            return;
        }
        out.push(byte | 0x80);
        proof {
            assert(leb_encoding(before) == seq![byte | 0x80u8] + leb_encoding(v));
            assert(prev + leb_encoding(before) =~= out@ + leb_encoding(v));
        }
    }
}


/// The length of the LEB128 group that starts at `pos`: up to and including
/// the first byte without the high bit; 0 when the bytes end before it.
pub open spec fn leb_size(s: Seq<u8>, pos: int) -> nat
    decreases s.len() - pos,
{
    if pos < 0 || pos >= s.len() {
        0
    } else if s[pos] & 0x80u8 == 0 {
        1
    } else {
        let r = leb_size(s, pos + 1);
        if r == 0 {
            0
        } else {
            r + 1
        }
    }
}

/// The low seven bits of the first `k` bytes of the group at `pos`, put
/// side by side (the shift taken modulo 32, as the reader does).
pub open spec fn leb_raw(s: Seq<u8>, pos: int, k: nat) -> i64
    decreases k,
{
    if k == 0 {
        0
    } else {
        leb_raw(s, pos, (k - 1) as nat) | (((s[pos + k - 1] & 0x7fu8) as i64) << (((7 * (k - 1)) % 32) as u32))
    }
}

/// The value of the `n`-byte group at `pos` read for a `bits`-wide type:
/// sign-extended from bit 6 of the last byte when the group is narrower.
pub open spec fn leb_decoded(s: Seq<u8>, pos: int, n: nat, bits: u32) -> i64 {
    let raw = leb_raw(s, pos, n);
    if 7 * n < bits && s[pos + n - 1] & 0x40u8 != 0 {
        raw | (-1i64 << ((7 * n) as u32))
    } else {
        raw
    }
}

/// Reads one signed LEB128 value at `*pos` and moves past it.
pub fn leb_decode_one(bytes: &[u8], pos: &mut usize, bits: u32) -> (r: i64)
    requires
        leb_size(bytes@, *old(pos) as int) > 0,
        7 * leb_size(bytes@, *old(pos) as int) <= u32::MAX,
        bits <= 64,
    ensures
        *final(pos) == *old(pos) + leb_size(bytes@, *old(pos) as int),
        r == leb_decoded(bytes@, *old(pos) as int, leb_size(bytes@, *old(pos) as int), bits),
{
    let ghost start = *pos as int;
    let ghost n = leb_size(bytes@, start);
    let mut result: i64 = 0;
    let mut shift: u32 = 0;
    let ghost mut k: nat = 0;
    loop
        invariant_except_break
            *pos == start + k,
            k < n,
            shift == 7 * k,
            result == leb_raw(bytes@, start, k),
            leb_size(bytes@, start + k) == n - k,
        invariant
            n == leb_size(bytes@, start),
            n > 0,
            7 * n <= u32::MAX,
            bits <= 64,
        ensures
            *pos == start + n,
            result == leb_decoded(bytes@, start, n, bits),
        decreases n - k,
    {
        let byte = bytes[*pos];
        *pos = *pos + 1;
        proof {
            assert(leb_raw(bytes@, start, k + 1) == leb_raw(bytes@, start, k) | (((bytes@[start + k] & 0x7fu8) as i64) << (((7
                * k) % 32) as u32)));
        }
        result = result | (((byte & 0x7f) as i64) << (shift % 32));
        shift = shift + 7;
        proof {
            k = k + 1;
        }
        if byte & 0x80 == 0 {
            if shift < bits && (byte & 0x40) != 0 {
                result = result | (-1i64 << shift);
            }
            break;
        }
    }
    result
}


/// Half the span of the values `m` LEB128 bytes hold: 2 to the power 7m - 1.
pub open spec fn leb_half(m: nat) -> int {
    if m == 1 {
        64
    } else if m == 2 {
        8192
    } else if m == 3 {
        1048576
    } else if m == 4 {
        134217728
    } else {
        17179869184
    }
}

proof fn lemma_leb_encode_bits(v: i64, s: u64)
    by (bit_vector)
    ensures
        s <= 56 ==> (v >> 7u64) >> s == v >> (s + 7) as u64,
        v >> 0u64 == v,
        ((v & 0x7f) as u8 & 0x7fu8) as i64 == v & 0x7f,
        ((((v & 0x7f) as u8) | 0x80u8) & 0x7fu8) as i64 == v & 0x7f,
        (((v & 0x7f) as u8) | 0x80u8) & 0x80u8 != 0,
        ((v & 0x7f) as u8) & 0x80u8 == 0,
        ((((v & 0x7f) as u8) | 0x80u8) & 0x40u8) == (((v & 0x7f) as u8) & 0x40u8),
        -64 <= v < 64 ==> ((((v & 0x7f) as u8) & 0x40u8 == 0 ==> (v >> 7u64) == 0) && (((v & 0x7f) as u8) & 0x40u8 != 0 ==> (v
            >> 7u64) == -1)),
        -8192 <= v < 8192 ==> -64 <= (v >> 7u64) < 64,
        -1048576 <= v < 1048576 ==> -8192 <= (v >> 7u64) < 8192,
        -134217728 <= v < 134217728 ==> -1048576 <= (v >> 7u64) < 1048576,
        -17179869184 <= v < 17179869184 ==> -134217728 <= (v >> 7u64) < 134217728,
{
}

/// The bytes of the encoding of a value that fits in `m` groups: at most
/// `m` of them, each carrying the next seven bits, the high bit on all but
/// the last, and bit 6 of the last the sign of what is left.
pub proof fn lemma_leb_shape(v: i64, m: nat)
    requires
        1 <= m <= 5,
        -leb_half(m) <= v < leb_half(m),
    ensures
        1 <= leb_encoding(v).len() <= m,
        forall|k: int|
            0 <= k < leb_encoding(v).len() ==> ((#[trigger] leb_encoding(v)[k] & 0x7fu8) as i64) == ((v >> ((7 * k) as u64))
                & 0x7f),
        forall|k: int| 0 <= k < leb_encoding(v).len() - 1 ==> #[trigger] leb_encoding(v)[k] & 0x80u8 != 0,
        leb_encoding(v)[leb_encoding(v).len() - 1] & 0x80u8 == 0,
        (v >> ((7 * leb_encoding(v).len()) as u64)) == (if leb_encoding(v)[leb_encoding(v).len() - 1] & 0x40u8 != 0 {
            -1i64
        } else {
            0i64
        }),
    decreases m,
{
    let e = leb_encoding(v);
    let byte = (v & 0x7f) as u8;
    let rest = v >> 7u64;
    lemma_leb_encode_bits(v, 0);
    lemma_shift_seven(v);
    let done = if byte & 0x40u8 == 0 {
        rest == 0
    } else {
        rest == -1
    };
    if done {
        assert(e == seq![byte]);
    } else {
        assert(m >= 2);
        let e2 = leb_encoding(rest);
        assert(e == seq![byte | 0x80u8] + e2);
        lemma_leb_shape(rest, (m - 1) as nat);
        assert forall|k: int| 0 <= k < e.len() implies ((#[trigger] e[k] & 0x7fu8) as i64) == ((v >> ((7 * k) as u64)) & 0x7f) by {
            if k > 0 {
                assert(e[k] == e2[k - 1]);
                lemma_leb_encode_bits(v, (7 * (k - 1)) as u64);
            }
        }
        assert forall|k: int| 0 <= k < e.len() - 1 implies #[trigger] e[k] & 0x80u8 != 0 by {
            if k > 0 {
                assert(e[k] == e2[k - 1]);
            }
        }
        assert(e[e.len() - 1] == e2[e2.len() - 1]);
        lemma_leb_encode_bits(v, (7 * e2.len()) as u64);
    }
}


/// The mask of the low `t` bits.
pub open spec fn low_mask(t: u32) -> i64 {
    ((1i64 << t) - 1) as i64
}

proof fn lemma_leb_decode_bits(v: i64, t: u32)
    by (bit_vector)
    ensures
        t <= 28 ==> (v & (((1i64 << t) - 1) as i64)) | (((v >> (t as u64)) & 0x7f) << t) == v & (((1i64 << ((t + 7) as u32))
            - 1) as i64),
        v & (((1i64 << 0u32) - 1) as i64) == 0,
        t <= 35 && (v >> (t as u64)) == -1 ==> (v & (((1i64 << t) - 1) as i64)) | (-1i64 << t) == v,
        t <= 35 && (v >> (t as u64)) == 0 ==> v & (((1i64 << t) - 1) as i64) == v,
        -32768 <= v < 32768 && 16 <= t <= 35 ==> ((v & (((1i64 << t) - 1) as i64)) as i16) == v,
        -2147483648 <= v < 2147483648 && 32 <= t <= 35 ==> ((v & (((1i64 << t) - 1) as i64)) as i32) == v,
        -32768 <= v < 32768 ==> (v as i16) == v,
        -2147483648 <= v < 2147483648 ==> (v as i32) == v,
{
}

/// Reading the bytes of an encoding back: the group is exactly as long,
/// and the first `k` of its bytes give the low `7k` bits of the value.
proof fn lemma_leb_read_back(v: i64, m: nat, s: Seq<u8>, p: int, k: nat)
    requires
        1 <= m <= 5,
        -leb_half(m) <= v < leb_half(m),
        0 <= p,
        p + leb_encoding(v).len() <= s.len(),
        s.subrange(p, p + leb_encoding(v).len()) == leb_encoding(v),
        k <= leb_encoding(v).len(),
    ensures
        leb_raw(s, p, k) == v & low_mask((7 * k) as u32),
        k >= 1 ==> leb_size(s, p + leb_encoding(v).len() - k) == k,
    decreases k,
{
    let e = leb_encoding(v);
    let n = e.len();
    lemma_leb_shape(v, m);
    if k == 0 {
        lemma_leb_decode_bits(v, 0);
    } else {
        lemma_leb_read_back(v, m, s, p, (k - 1) as nat);
        let t = (7 * (k - 1)) as u32;
        assert(s[p + k - 1] == e[k - 1]);
        assert(((7 * (k - 1)) % 32) as u32 == t);
        lemma_leb_decode_bits(v, t);
        assert((t + 7) as u32 == (7 * k) as u32);
        let q = p + n - k;
        assert(s[q] == e[n - k]);
        if k > 1 {
            assert(n - k < n - 1);
        }
    }
}

/// Reading back what `leb_encode_one` wrote, for a 16- or 32-bit reader,
/// gives the value again and stops where the encoding ends.
pub proof fn lemma_leb_roundtrip(v: i64, bits: u32, s: Seq<u8>, p: int)
    requires
        bits == 16 || bits == 32,
        bits == 16 ==> -32768 <= v < 32768,
        bits == 32 ==> -2147483648 <= v < 2147483648,
        0 <= p,
        p + leb_encoding(v).len() <= s.len(),
        s.subrange(p, p + leb_encoding(v).len()) == leb_encoding(v),
    ensures
        leb_size(s, p) == leb_encoding(v).len(),
        leb_encoding(v).len() <= 5,
        bits == 16 ==> leb_decoded(s, p, leb_encoding(v).len(), bits) as i16 == v,
        bits == 32 ==> leb_decoded(s, p, leb_encoding(v).len(), bits) as i32 == v,
{
    let e = leb_encoding(v);
    let n = e.len();
    let m: nat = if bits == 16 {
        3
    } else {
        5
    };
    lemma_leb_shape(v, m);
    lemma_leb_read_back(v, m, s, p, n);
    let t = (7 * n) as u32;
    lemma_leb_decode_bits(v, t);
    assert(s[p + n - 1] == e[n - 1]);
}


/// The tag that opens every block of LEB128 weights: `COMPRESSED_LEB128`.
pub const LEB_MAGIC: [u8; 17] = [67, 79, 77, 80, 82, 69, 83, 83, 69, 68, 95, 76, 69, 66, 49, 50, 56];

/// The encodings of the values one after another.
pub open spec fn leb_body(vals: Seq<i64>) -> Seq<u8>
    decreases vals.len(),
{
    if vals.len() == 0 {
        seq![]
    } else {
        leb_body(vals.drop_last()) + leb_encoding(vals.last())
    }
}

/// `x` as four little-endian bytes.
pub open spec fn le32(x: u32) -> Seq<u8> {
    seq![(x & 0xff) as u8, ((x >> 8u32) & 0xff) as u8, ((x >> 16u32) & 0xff) as u8, ((x >> 24u32) & 0xff) as u8]
}

/// A whole block: the tag, the length of the body (cut to 32 bits) and the body.
pub open spec fn leb_block(vals: Seq<i64>) -> Seq<u8> {
    LEB_MAGIC@ + le32(leb_body(vals).len() as u32) + leb_body(vals)
}

pub open spec fn widen16(vals: Seq<i16>) -> Seq<i64> {
    vals.map_values(|x: i16| x as i64)
}

pub open spec fn widen32(vals: Seq<i32>) -> Seq<i64> {
    vals.map_values(|x: i32| x as i64)
}

/// Appends the tag, the body's length and the body of a block.
fn write_leb_frame(body: Vec<u8>, out: &mut Vec<u8>)
    ensures
        final(out)@ == old(out)@ + LEB_MAGIC@ + le32(body@.len() as u32) + body@,
{
    let ghost start = out@;
    let mut k: usize = 0;
    while k < 17
        invariant
            k <= 17,
            out@ == start + LEB_MAGIC@.take(k as int),
        decreases 17 - k,
    {
        out.push(LEB_MAGIC[k]);
        proof {
            assert(LEB_MAGIC@.take(k + 1) == LEB_MAGIC@.take(k as int).push(LEB_MAGIC@[k as int]));
        }
        k = k + 1;
    }
    let n = body.len() as u32;
    out.push((n & 0xff) as u8);
    out.push(((n >> 8) & 0xff) as u8);
    out.push(((n >> 16) & 0xff) as u8);
    out.push(((n >> 24) & 0xff) as u8);
    let mut body = body;
    let ghost b = body@;
    out.append(&mut body);
    proof {
        assert(LEB_MAGIC@.take(17) == LEB_MAGIC@);
        assert(n == b.len() as u32);
        assert(out@ =~= start + LEB_MAGIC@ + le32(n) + b);
    }
}

/// Writes a block of 16-bit weights.
pub fn write_leb_block_i16(vals: &[i16], out: &mut Vec<u8>)
    ensures
        final(out)@ == old(out)@ + leb_block(widen16(vals@)),
{
    let mut body: Vec<u8> = Vec::new();
    let mut j: usize = 0;
    while j < vals.len()
        invariant
            j <= vals@.len(),
            body@ == leb_body(widen16(vals@.take(j as int))),
        decreases vals@.len() - j,
    {
        leb_encode_one(vals[j] as i64, &mut body);
        proof {
            let w = widen16(vals@.take(j + 1));
            assert(w.drop_last() =~= widen16(vals@.take(j as int)));
            assert(w.last() == vals@[j as int] as i64);
        }
        j = j + 1;
    }
    proof {
        assert(vals@.take(vals@.len() as int) =~= vals@);
    }
    write_leb_frame(body, out);
}

/// Writes a block of 32-bit weights.
pub fn write_leb_block_i32(vals: &[i32], out: &mut Vec<u8>)
    ensures
        final(out)@ == old(out)@ + leb_block(widen32(vals@)),
{
    let mut body: Vec<u8> = Vec::new();
    let mut j: usize = 0;
    while j < vals.len()
        invariant
            j <= vals@.len(),
            body@ == leb_body(widen32(vals@.take(j as int))),
        decreases vals@.len() - j,
    {
        leb_encode_one(vals[j] as i64, &mut body);
        proof {
            let w = widen32(vals@.take(j + 1));
            assert(w.drop_last() =~= widen32(vals@.take(j as int)));
            assert(w.last() == vals@[j as int] as i64);
        }
        j = j + 1;
    }
    proof {
        assert(vals@.take(vals@.len() as int) =~= vals@);
    }
    write_leb_frame(body, out);
}


/// `n` LEB128 groups follow one another from `pos`, each short enough for the reader.
pub open spec fn leb_block_ok(s: Seq<u8>, pos: int, n: nat) -> bool
    decreases n,
{
    n == 0 || (leb_size(s, pos) > 0 && 7 * leb_size(s, pos) <= u32::MAX && leb_block_ok(
        s,
        pos + leb_size(s, pos),
        (n - 1) as nat,
    ))
}

/// Where the `n` groups from `pos` end.
pub open spec fn leb_block_end(s: Seq<u8>, pos: int, n: nat) -> int
    decreases n,
{
    if n == 0 {
        pos
    } else {
        leb_block_end(s, pos + leb_size(s, pos), (n - 1) as nat)
    }
}

/// The values of the `n` groups from `pos`, read for a `bits`-wide type.
pub open spec fn leb_block_values(s: Seq<u8>, pos: int, n: nat, bits: u32) -> Seq<i64>
    decreases n,
{
    if n == 0 {
        seq![]
    } else {
        seq![leb_decoded(s, pos, leb_size(s, pos), bits)] + leb_block_values(s, pos + leb_size(s, pos), (n - 1) as nat, bits)
    }
}

proof fn lemma_leb_size_bound(s: Seq<u8>, pos: int)
    requires
        leb_size(s, pos) > 0,
    ensures
        0 <= pos,
        pos + leb_size(s, pos) <= s.len(),
    decreases s.len() - pos,
{
    if s[pos] & 0x80u8 != 0 {
        lemma_leb_size_bound(s, pos + 1);
    }
}

proof fn lemma_leb_block_end_bound(s: Seq<u8>, pos: int, n: nat)
    requires
        0 <= pos <= s.len(),
        leb_block_ok(s, pos, n),
    ensures
        pos <= leb_block_end(s, pos, n) <= s.len(),
    decreases n,
{
    if n > 0 {
        lemma_leb_size_bound(s, pos);
        lemma_leb_block_end_bound(s, pos + leb_size(s, pos), (n - 1) as nat);
    }
}

/// Reads a block of `n` 16-bit weights: skips the tag and the length, then
/// reads the values, each cut to 16 bits.
pub fn read_leb_i16(bytes: &[u8], off: &mut usize, n: usize) -> (v: Vec<i16>)
    requires
        *old(off) + 21 <= bytes@.len(),
        leb_block_ok(bytes@, *old(off) + 21, n as nat),
    ensures
        v@ == leb_block_values(bytes@, *old(off) + 21, n as nat, 16).map_values(|x: i64| x as i16),
        *final(off) == leb_block_end(bytes@, *old(off) + 21, n as nat),
{
    let ghost start = *off + 21;
    let total = bytes.len();
    proof {
        assert(total == bytes@.len());
    }
    *off = *off + 21;
    let mut v: Vec<i16> = Vec::new();
    let mut k: usize = 0;
    while k < n
        invariant
            k <= n,
            start <= *off <= bytes@.len(),
            leb_block_ok(bytes@, *off as int, (n - k) as nat),
            leb_block_end(bytes@, *off as int, (n - k) as nat) == leb_block_end(bytes@, start, n as nat),
            v@ + leb_block_values(bytes@, *off as int, (n - k) as nat, 16).map_values(|x: i64| x as i16) == leb_block_values(
                bytes@,
                start,
                n as nat,
                16,
            ).map_values(|x: i64| x as i16),
        decreases n - k,
    {
        let ghost p = *off as int;
        let ghost rest = leb_block_values(bytes@, p, (n - k) as nat, 16);
        proof {
            lemma_leb_size_bound(bytes@, p);
        }
        let x = leb_decode_one(bytes, off, 16);
        v.push(#[verifier::truncate] (x as i16));
        proof {
            let tail = leb_block_values(bytes@, *off as int, (n - k - 1) as nat, 16);
            assert(rest == seq![x] + tail);
            assert(rest.map_values(|y: i64| y as i16) =~= seq![x as i16] + tail.map_values(|y: i64| y as i16));
        }
        k = k + 1;
    }
    proof {
        lemma_leb_block_end_bound(bytes@, start, n as nat);
        assert(leb_block_values(bytes@, *off as int, 0, 16).map_values(|x: i64| x as i16) =~= Seq::<i16>::empty());
        assert(v@ =~= v@ + Seq::<i16>::empty());
    }
    v
}

/// Reads a block of `n` 32-bit weights, as `read_leb_i16` does.
pub fn read_leb_i32(bytes: &[u8], off: &mut usize, n: usize) -> (v: Vec<i32>)
    requires
        *old(off) + 21 <= bytes@.len(),
        leb_block_ok(bytes@, *old(off) + 21, n as nat),
    ensures
        v@ == leb_block_values(bytes@, *old(off) + 21, n as nat, 32).map_values(|x: i64| x as i32),
        *final(off) == leb_block_end(bytes@, *old(off) + 21, n as nat),
{
    let ghost start = *off + 21;
    let total = bytes.len();
    proof {
        assert(total == bytes@.len());
    }
    *off = *off + 21;
    let mut v: Vec<i32> = Vec::new();
    let mut k: usize = 0;
    while k < n
        invariant
            k <= n,
            start <= *off <= bytes@.len(),
            leb_block_ok(bytes@, *off as int, (n - k) as nat),
            leb_block_end(bytes@, *off as int, (n - k) as nat) == leb_block_end(bytes@, start, n as nat),
            v@ + leb_block_values(bytes@, *off as int, (n - k) as nat, 32).map_values(|x: i64| x as i32) == leb_block_values(
                bytes@,
                start,
                n as nat,
                32,
            ).map_values(|x: i64| x as i32),
        decreases n - k,
    {
        let ghost p = *off as int;
        let ghost rest = leb_block_values(bytes@, p, (n - k) as nat, 32);
        proof {
            lemma_leb_size_bound(bytes@, p);
        }
        let x = leb_decode_one(bytes, off, 32);
        v.push(#[verifier::truncate] (x as i32));
        proof {
            let tail = leb_block_values(bytes@, *off as int, (n - k - 1) as nat, 32);
            assert(rest == seq![x] + tail);
            assert(rest.map_values(|y: i64| y as i32) =~= seq![x as i32] + tail.map_values(|y: i64| y as i32));
        }
        k = k + 1;
    }
    proof {
        lemma_leb_block_end_bound(bytes@, start, n as nat);
        assert(leb_block_values(bytes@, *off as int, 0, 32).map_values(|x: i64| x as i32) =~= Seq::<i32>::empty());
        assert(v@ =~= v@ + Seq::<i32>::empty());
    }
    v
}


proof fn lemma_leb_body_first(vals: Seq<i64>)
    requires
        vals.len() > 0,
    ensures
        leb_body(vals) == leb_encoding(vals[0]) + leb_body(vals.subrange(1, vals.len() as int)),
    decreases vals.len(),
{
    if vals.len() == 1 {
        assert(vals.drop_last() =~= Seq::<i64>::empty());
        assert(vals.subrange(1, 1) =~= Seq::<i64>::empty());
        assert(leb_body(vals) =~= leb_encoding(vals[0]) + leb_body(vals.subrange(1, vals.len() as int)));
    } else {
        let d = vals.drop_last();
        lemma_leb_body_first(d);
        let r = vals.subrange(1, vals.len() as int);
        assert(r.drop_last() =~= d.subrange(1, d.len() as int));
        assert(r.last() == vals.last());
        assert(leb_body(vals) =~= leb_encoding(vals[0]) + leb_body(r));
    }
}

proof fn lemma_leb_body_read(vals: Seq<i64>, bits: u32, s: Seq<u8>, p: int)
    requires
        bits == 16 || bits == 32,
        forall|k: int| 0 <= k < vals.len() ==> bits == 16 ==> -32768 <= #[trigger] vals[k] < 32768,
        forall|k: int| 0 <= k < vals.len() ==> bits == 32 ==> -2147483648 <= #[trigger] vals[k] < 2147483648,
        0 <= p,
        p + leb_body(vals).len() <= s.len(),
        s.subrange(p, p + leb_body(vals).len()) == leb_body(vals),
    ensures
        leb_block_ok(s, p, vals.len()),
        leb_block_end(s, p, vals.len()) == p + leb_body(vals).len(),
        leb_block_values(s, p, vals.len(), bits).len() == vals.len(),
        forall|k: int|
            0 <= k < vals.len() ==> bits == 16 ==> #[trigger] leb_block_values(s, p, vals.len(), bits)[k] as i16 == vals[k] as i16,
        forall|k: int|
            0 <= k < vals.len() ==> bits == 32 ==> #[trigger] leb_block_values(s, p, vals.len(), bits)[k] as i32 == vals[k] as i32,
    decreases vals.len(),
{
    if vals.len() > 0 {
        lemma_leb_body_first(vals);
        let v0 = vals[0];
        let e = leb_encoding(v0);
        let r = vals.subrange(1, vals.len() as int);
        let b = leb_body(vals);
        assert(s.subrange(p, p + e.len()) == b.subrange(0, e.len() as int));
        assert(b.subrange(0, e.len() as int) =~= e);
        lemma_leb_roundtrip(v0, bits, s, p);
        assert(s.subrange(p + e.len(), p + e.len() + leb_body(r).len()) == b.subrange(e.len() as int, b.len() as int));
        assert(b.subrange(e.len() as int, b.len() as int) =~= leb_body(r));
        lemma_leb_body_read(r, bits, s, p + e.len());
        let tail = leb_block_values(s, p + e.len(), r.len(), bits);
        assert(leb_block_values(s, p, vals.len(), bits) == seq![leb_decoded(s, p, e.len(), bits)] + tail);
        assert forall|k: int| 0 <= k < vals.len() && bits == 16 implies #[trigger] leb_block_values(s, p, vals.len(), bits)[k] as i16
            == vals[k] as i16 by {
            if k > 0 {
                assert(leb_block_values(s, p, vals.len(), bits)[k] == tail[k - 1]);
                assert(r[k - 1] == vals[k]);
            } else {
                lemma_leb_decode_bits(v0, 0);
            }
        }
        assert forall|k: int| 0 <= k < vals.len() && bits == 32 implies #[trigger] leb_block_values(s, p, vals.len(), bits)[k] as i32
            == vals[k] as i32 by {
            if k > 0 {
                assert(leb_block_values(s, p, vals.len(), bits)[k] == tail[k - 1]);
                assert(r[k - 1] == vals[k]);
            } else {
                lemma_leb_decode_bits(v0, 0);
            }
        }
    }
}

/// Reading back a block that `write_leb_block_i16` wrote, wherever it stands
/// among other bytes, gives the same weights and stops where the block ends.
pub proof fn lemma_leb_block_roundtrip_i16(vals: Seq<i16>, before: Seq<u8>, after: Seq<u8>)
    ensures
        ({
            let s = before + leb_block(widen16(vals)) + after;
            let p = before.len() + 21int;
            &&& leb_block_ok(s, p, vals.len())
            &&& leb_block_values(s, p, vals.len(), 16).map_values(|x: i64| x as i16) == vals
            &&& leb_block_end(s, p, vals.len()) == before.len() + leb_block(widen16(vals)).len()
        }),
{
    let w = widen16(vals);
    let s = before + leb_block(w) + after;
    let p = before.len() + 21int;
    let b = leb_body(w);
    assert(s.subrange(p, p + b.len()) =~= b);
    lemma_leb_body_read(w, 16, s, p);
    assert(leb_block_values(s, p, vals.len(), 16).map_values(|x: i64| x as i16) =~= vals);
}

/// The same for `write_leb_block_i32`.
pub proof fn lemma_leb_block_roundtrip_i32(vals: Seq<i32>, before: Seq<u8>, after: Seq<u8>)
    ensures
        ({
            let s = before + leb_block(widen32(vals)) + after;
            let p = before.len() + 21int;
            &&& leb_block_ok(s, p, vals.len())
            &&& leb_block_values(s, p, vals.len(), 32).map_values(|x: i64| x as i32) == vals
            &&& leb_block_end(s, p, vals.len()) == before.len() + leb_block(widen32(vals)).len()
        }),
{
    let w = widen32(vals);
    let s = before + leb_block(w) + after;
    let p = before.len() + 21int;
    let b = leb_body(w);
    assert(s.subrange(p, p + b.len()) =~= b);
    lemma_leb_body_read(w, 32, s, p);
    assert(leb_block_values(s, p, vals.len(), 32).map_values(|x: i64| x as i32) =~= vals);
}


pub const PIECE_DIM: usize = 22528;
pub const THREAT_DIM: usize = 59808;

/// The number of threat inputs.
pub fn threat_dim_pub() -> (r: usize)
    ensures
        r == THREAT_DIM,
{
    THREAT_DIM
}

/// The position's twelve piece bitboards, as the feature maps read them.
pub fn board_para_posbb_pub(b: &crate::board::Board) -> (p: crate::features::Pos)
    ensures
        p.pieces == b.pieces,
{
    crate::features::Pos { pieces: b.pieces }
}
pub const PAIR_DIM: usize = 4560;
pub const L1: usize = 1024;
pub const L2: usize = 32;
pub const L3: usize = 32;
pub const NB: usize = 8;

/// One output bucket's layers: `(2*L1) -> L2`, `(2*L2) -> L3`, `(2*L2 + 2*L3) -> 1`.
pub struct LayerStack {
    pub fc0w: Vec<i8>,
    pub fc0b: Vec<i32>,
    pub fc1w: Vec<i8>,
    pub fc1b: Vec<i32>,
    pub fc2w: Vec<i8>,
    pub fc2b: i32,
}

/// A Stockfish network as stored: the feature transformer's weights and
/// PSQT rows for pieces, threats and pawn pairs, the layer stacks, and the
/// header fields kept verbatim so that it can be written back.
pub struct RedeSf {
    pub ft_bias: Vec<i16>,
    pub ft_threat_w: Vec<i8>,
    pub ft_pair_w: Vec<i8>,
    pub ft_piece_w: Vec<i16>,
    pub ft_piece_psqt: Vec<i32>,
    pub ft_threat_psqt: Vec<i32>,
    pub ft_pair_psqt: Vec<i32>,
    pub stacks: Vec<LayerStack>,
    pub version: u32,
    pub hash: u32,
    pub desc: Vec<u8>,
    pub ft_header: [u8; 4],
    pub stack_headers: Vec<[u8; 4]>,
}

/// The bytes of 8-bit weights.
pub open spec fn u8s(vals: Seq<i8>) -> Seq<u8> {
    vals.map_values(|x: i8| x as u8)
}

/// 32-bit values, four little-endian bytes each.
pub open spec fn le32s(vals: Seq<i32>) -> Seq<u8>
    decreases vals.len(),
{
    if vals.len() == 0 {
        seq![]
    } else {
        le32s(vals.drop_last()) + le32(vals.last() as u32)
    }
}

/// A dense layer as stored: its biases, then its weights.
pub open spec fn dense_bytes(w: Seq<i8>, b: Seq<i32>) -> Seq<u8> {
    le32s(b) + u8s(w)
}

/// The layer stacks as stored, each after its header.
pub open spec fn stacks_bytes(stacks: Seq<LayerStack>, headers: Seq<[u8; 4]>) -> Seq<u8>
    decreases stacks.len(),
{
    if stacks.len() == 0 {
        seq![]
    } else {
        let k = stacks.len() - 1;
        let st = stacks[k];
        stacks_bytes(stacks.drop_last(), headers) + headers[k]@ + dense_bytes(st.fc0w@, st.fc0b@) + dense_bytes(st.fc1w@, st.fc1b@)
            + dense_bytes(st.fc2w@, seq![st.fc2b])
    }
}

/// The file a network is written as.
pub open spec fn net_bytes(net: RedeSf) -> Seq<u8> {
    le32(net.version) + le32(net.hash) + le32(net.desc@.len() as u32) + net.desc@ + net.ft_header@ + leb_block(
        widen16(net.ft_bias@),
    ) + u8s(net.ft_threat_w@) + leb_block(widen32(net.ft_threat_psqt@)) + u8s(net.ft_pair_w@) + leb_block(
        widen32(net.ft_pair_psqt@),
    ) + leb_block(widen16(net.ft_piece_w@)) + leb_block(widen32(net.ft_piece_psqt@)) + stacks_bytes(
        net.stacks@,
        net.stack_headers@,
    )
}

fn push_le32(x: u32, out: &mut Vec<u8>)
    ensures
        final(out)@ == old(out)@ + le32(x),
{
    out.push((x & 0xff) as u8);
    out.push(((x >> 8) & 0xff) as u8);
    out.push(((x >> 16) & 0xff) as u8);
    out.push(((x >> 24) & 0xff) as u8);
    proof {
        assert(final(out)@ =~= old(out)@ + le32(x));
    }
}

fn push_bytes(vals: &[u8], out: &mut Vec<u8>)
    ensures
        final(out)@ == old(out)@ + vals@,
{
    let mut k: usize = 0;
    while k < vals.len()
        invariant
            k <= vals@.len(),
            out@ == old(out)@ + vals@.take(k as int),
        decreases vals@.len() - k,
    {
        out.push(vals[k]);
        proof {
            assert(vals@.take(k + 1) == vals@.take(k as int).push(vals@[k as int]));
        }
        k = k + 1;
    }
    proof {
        assert(vals@.take(vals@.len() as int) =~= vals@);
    }
}

fn push_i8s(vals: &[i8], out: &mut Vec<u8>)
    ensures
        final(out)@ == old(out)@ + u8s(vals@),
{
    let mut k: usize = 0;
    while k < vals.len()
        invariant
            k <= vals@.len(),
            out@ == old(out)@ + u8s(vals@.take(k as int)),
        decreases vals@.len() - k,
    {
        out.push(vals[k] as u8);
        proof {
            assert(u8s(vals@.take(k + 1)) =~= u8s(vals@.take(k as int)).push(vals@[k as int] as u8));
        }
        k = k + 1;
    }
    proof {
        assert(vals@.take(vals@.len() as int) =~= vals@);
    }
}

/// A dense layer: its biases, little-endian, then its weights.
fn write_dense_layer(w: &[i8], b: &[i32], out: &mut Vec<u8>)
    ensures
        final(out)@ == old(out)@ + dense_bytes(w@, b@),
{
    let mut k: usize = 0;
    while k < b.len()
        invariant
            k <= b@.len(),
            out@ == old(out)@ + le32s(b@.take(k as int)),
        decreases b@.len() - k,
    {
        push_le32(b[k] as u32, out);
        proof {
            assert(b@.take(k + 1).drop_last() =~= b@.take(k as int));
        }
        k = k + 1;
    }
    proof {
        assert(b@.take(b@.len() as int) =~= b@);
    }
    push_i8s(w, out);
}

/// Writes a network back in Stockfish's own format.
pub fn escreve(net: &RedeSf) -> (out: Vec<u8>)
    requires
        net.stack_headers@.len() >= net.stacks@.len(),
    ensures
        out@ == net_bytes(*net),
{
    let mut out: Vec<u8> = Vec::new();
    push_le32(net.version, &mut out);
    push_le32(net.hash, &mut out);
    push_le32(net.desc.len() as u32, &mut out);
    push_bytes(net.desc.as_slice(), &mut out);
    push_bytes(&net.ft_header, &mut out);
    write_leb_block_i16(net.ft_bias.as_slice(), &mut out);
    push_i8s(net.ft_threat_w.as_slice(), &mut out);
    write_leb_block_i32(net.ft_threat_psqt.as_slice(), &mut out);
    push_i8s(net.ft_pair_w.as_slice(), &mut out);
    write_leb_block_i32(net.ft_pair_psqt.as_slice(), &mut out);
    write_leb_block_i16(net.ft_piece_w.as_slice(), &mut out);
    write_leb_block_i32(net.ft_piece_psqt.as_slice(), &mut out);
    let ghost head = out@;
    let mut i: usize = 0;
    while i < net.stacks.len()
        invariant
            i <= net.stacks@.len(),
            net.stack_headers@.len() >= net.stacks@.len(),
            out@ == head + stacks_bytes(net.stacks@.take(i as int), net.stack_headers@),
        decreases net.stacks@.len() - i,
    {
        let st = &net.stacks[i];
        push_bytes(&net.stack_headers[i], &mut out);
        write_dense_layer(st.fc0w.as_slice(), st.fc0b.as_slice(), &mut out);
        write_dense_layer(st.fc1w.as_slice(), st.fc1b.as_slice(), &mut out);
        let fc2b = [st.fc2b];
        write_dense_layer(st.fc2w.as_slice(), &fc2b, &mut out);
        proof {
            let t = net.stacks@.take(i + 1);
            assert(t.drop_last() =~= net.stacks@.take(i as int));
            assert(fc2b@ =~= seq![st.fc2b]);
        }
        i = i + 1;
    }
    proof {
        assert(net.stacks@.take(net.stacks@.len() as int) =~= net.stacks@);
    }
    out
}


/// The bytes of one layer stack: header, then three dense layers.
pub const STACK_BYTES: usize = 35208;

/// The little-endian `u32` at `p`.
pub open spec fn u32_at(s: Seq<u8>, p: int) -> u32 {
    (s[p] as u32) | ((s[p + 1] as u32) << 8u32) | ((s[p + 2] as u32) << 16u32) | ((s[p + 3] as u32) << 24u32)
}

/// `n` bytes from `p`, as 8-bit weights.
pub open spec fn i8s_at(s: Seq<u8>, p: int, n: nat) -> Seq<i8> {
    s.subrange(p, p + n).map_values(|b: u8| b as i8)
}

/// `n` little-endian 32-bit values from `p`.
pub open spec fn i32s_at(s: Seq<u8>, p: int, n: nat) -> Seq<i32> {
    Seq::new(n, |j: int| u32_at(s, p + 4 * j) as i32)
}

pub open spec fn off_bias(s: Seq<u8>) -> int {
    16 + u32_at(s, 8)
}

pub open spec fn off_threat_w(s: Seq<u8>) -> int {
    leb_block_end(s, off_bias(s) + 21, L1 as nat)
}

pub open spec fn off_threat_psqt(s: Seq<u8>) -> int {
    off_threat_w(s) + THREAT_DIM * L1
}

pub open spec fn off_pair_w(s: Seq<u8>) -> int {
    leb_block_end(s, off_threat_psqt(s) + 21, (THREAT_DIM * NB) as nat)
}

pub open spec fn off_pair_psqt(s: Seq<u8>) -> int {
    off_pair_w(s) + PAIR_DIM * L1
}

pub open spec fn off_piece_w(s: Seq<u8>) -> int {
    leb_block_end(s, off_pair_psqt(s) + 21, (PAIR_DIM * NB) as nat)
}

pub open spec fn off_piece_psqt(s: Seq<u8>) -> int {
    leb_block_end(s, off_piece_w(s) + 21, (PIECE_DIM * L1) as nat)
}

pub open spec fn off_stacks(s: Seq<u8>) -> int {
    leb_block_end(s, off_piece_psqt(s) + 21, (PIECE_DIM * NB) as nat)
}

/// The bytes hold a whole network: header and description, every block in
/// order with every LEB128 group ending inside the file, and the layer stacks.
pub open spec fn sf_ok(s: Seq<u8>) -> bool {
    &&& 12 <= s.len()
    &&& off_bias(s) + 21 <= s.len()
    &&& leb_block_ok(s, off_bias(s) + 21, L1 as nat)
    &&& off_threat_psqt(s) + 21 <= s.len()
    &&& leb_block_ok(s, off_threat_psqt(s) + 21, (THREAT_DIM * NB) as nat)
    &&& off_pair_psqt(s) + 21 <= s.len()
    &&& leb_block_ok(s, off_pair_psqt(s) + 21, (PAIR_DIM * NB) as nat)
    &&& off_piece_w(s) + 21 <= s.len()
    &&& leb_block_ok(s, off_piece_w(s) + 21, (PIECE_DIM * L1) as nat)
    &&& off_piece_psqt(s) + 21 <= s.len()
    &&& leb_block_ok(s, off_piece_psqt(s) + 21, (PIECE_DIM * NB) as nat)
    &&& off_stacks(s) + NB * STACK_BYTES <= s.len()
}

/// The layer stack at `base` reads as `st` under header `hdr`.
pub open spec fn stack_reads_as(s: Seq<u8>, base: int, st: LayerStack, hdr: [u8; 4]) -> bool {
    &&& hdr@ == s.subrange(base, base + 4)
    &&& st.fc0b@ == i32s_at(s, base + 4, L2 as nat)
    &&& st.fc0w@ == i8s_at(s, base + 132, (L1 * L2) as nat)
    &&& st.fc1b@ == i32s_at(s, base + 32900, L3 as nat)
    &&& st.fc1w@ == i8s_at(s, base + 33028, (2 * L2 * L3) as nat)
    &&& st.fc2b == u32_at(s, base + 35076) as i32
    &&& st.fc2w@ == i8s_at(s, base + 35080, (2 * L2 + 2 * L3) as nat)
}

/// Every field of `net` is what the bytes hold at its place.
pub open spec fn sf_reads_as(s: Seq<u8>, net: RedeSf) -> bool {
    &&& net.version == u32_at(s, 0)
    &&& net.hash == u32_at(s, 4)
    &&& net.desc@ == s.subrange(12, 12 + u32_at(s, 8))
    &&& net.ft_header@ == s.subrange(12 + u32_at(s, 8), off_bias(s))
    &&& net.ft_bias@ == leb_block_values(s, off_bias(s) + 21, L1 as nat, 16).map_values(|x: i64| x as i16)
    &&& net.ft_threat_w@ == i8s_at(s, off_threat_w(s), (THREAT_DIM * L1) as nat)
    &&& net.ft_threat_psqt@ == leb_block_values(s, off_threat_psqt(s) + 21, (THREAT_DIM * NB) as nat, 32).map_values(
        |x: i64| x as i32,
    )
    &&& net.ft_pair_w@ == i8s_at(s, off_pair_w(s), (PAIR_DIM * L1) as nat)
    &&& net.ft_pair_psqt@ == leb_block_values(s, off_pair_psqt(s) + 21, (PAIR_DIM * NB) as nat, 32).map_values(
        |x: i64| x as i32,
    )
    &&& net.ft_piece_w@ == leb_block_values(s, off_piece_w(s) + 21, (PIECE_DIM * L1) as nat, 16).map_values(
        |x: i64| x as i16,
    )
    &&& net.ft_piece_psqt@ == leb_block_values(s, off_piece_psqt(s) + 21, (PIECE_DIM * NB) as nat, 32).map_values(
        |x: i64| x as i32,
    )
    &&& net.stacks@.len() == NB
    &&& net.stack_headers@.len() == NB
    &&& forall|k: int|
        0 <= k < NB ==> stack_reads_as(s, off_stacks(s) + k * STACK_BYTES, #[trigger] net.stacks@[k], net.stack_headers@[k])
}

fn read_u32(bytes: &[u8], p: usize) -> (r: u32)
    requires
        p + 4 <= bytes@.len(),
    ensures
        r == u32_at(bytes@, p as int),
{
    (bytes[p] as u32) | ((bytes[p + 1] as u32) << 8) | ((bytes[p + 2] as u32) << 16) | ((bytes[p + 3] as u32) << 24)
}

fn copy_bytes(bytes: &[u8], p: usize, n: usize) -> (v: Vec<u8>)
    requires
        p + n <= bytes@.len(),
    ensures
        v@ == bytes@.subrange(p as int, p + n),
{
    let total = bytes.len();
    let mut v: Vec<u8> = Vec::new();
    let mut k: usize = 0;
    while k < n
        invariant
            k <= n,
            total == bytes@.len(),
            p + n <= bytes@.len(),
            v@ == bytes@.subrange(p as int, p + k),
        decreases n - k,
    {
        v.push(bytes[p + k]);
        proof {
            assert(bytes@.subrange(p as int, p + k + 1) =~= bytes@.subrange(p as int, p + k).push(bytes@[p + k]));
        }
        k = k + 1;
    }
    v
}

/// The little-endian `i16` whose low byte is at `p`.
pub open spec fn i16_at(b: Seq<u8>, p: int) -> i16 {
    ((b[p] as u16) | ((b[p + 1] as u16) << 8u16)) as i16
}

/// The `n` little-endian `i16`s from `p` on.
pub open spec fn i16s_at(b: Seq<u8>, p: int, n: int) -> Seq<i16> {
    Seq::new(n as nat, |i: int| i16_at(b, p + 2 * i))
}

/// `n` little-endian 16-bit values.
pub fn read_le_i16(bytes: &[u8], off: &mut usize, n: usize) -> (v: Vec<i16>)
    requires
        *old(off) + 2 * n <= bytes@.len(),
    ensures
        v@ == i16s_at(bytes@, *old(off) as int, n as int),
        *final(off) == *old(off) + 2 * n,
{
    let p = *off;
    let total = bytes.len();
    let mut v: Vec<i16> = Vec::new();
    let mut i: usize = 0;
    while i < n
        invariant
            i <= n,
            total == bytes@.len(),
            p + 2 * n <= bytes@.len(),
            v@ == i16s_at(bytes@, p as int, i as int),
        decreases n - i,
    {
        let x = #[verifier::truncate] (((bytes[p + i * 2] as u16) | ((bytes[p + i * 2 + 1] as u16) << 8u16)) as i16);
        v.push(x);
        proof {
            assert(v@ =~= i16s_at(bytes@, p as int, i + 1));
        }
        i = i + 1;
    }
    *off = p + n * 2;
    v
}

/// `n` bytes as 8-bit weights.
fn read_le_i8(bytes: &[u8], off: &mut usize, n: usize) -> (v: Vec<i8>)
    requires
        *old(off) + n <= bytes@.len(),
    ensures
        v@ == i8s_at(bytes@, *old(off) as int, n as nat),
        *final(off) == *old(off) + n,
{
    let p = *off;
    let total = bytes.len();
    let mut v: Vec<i8> = Vec::new();
    let mut k: usize = 0;
    while k < n
        invariant
            k <= n,
            total == bytes@.len(),
            p + n <= bytes@.len(),
            v@ == i8s_at(bytes@, p as int, k as nat),
        decreases n - k,
    {
        v.push(#[verifier::truncate] (bytes[p + k] as i8));
        proof {
            assert(i8s_at(bytes@, p as int, (k + 1) as nat) =~= i8s_at(bytes@, p as int, k as nat).push(bytes@[p + k] as i8));
        }
        k = k + 1;
    }
    *off = p + n;
    v
}

/// `n` little-endian 32-bit values.
fn read_le_i32_plain(bytes: &[u8], off: &mut usize, n: usize) -> (v: Vec<i32>)
    requires
        *old(off) + 4 * n <= bytes@.len(),
    ensures
        v@ == i32s_at(bytes@, *old(off) as int, n as nat),
        *final(off) == *old(off) + 4 * n,
{
    let p = *off;
    let total = bytes.len();
    let mut v: Vec<i32> = Vec::new();
    let mut k: usize = 0;
    while k < n
        invariant
            k <= n,
            total == bytes@.len(),
            p + 4 * n <= bytes@.len(),
            v@ == i32s_at(bytes@, p as int, k as nat),
        decreases n - k,
    {
        let x = read_u32(bytes, p + 4 * k);
        v.push(#[verifier::truncate] (x as i32));
        proof {
            assert(i32s_at(bytes@, p as int, (k + 1) as nat) =~= i32s_at(bytes@, p as int, k as nat).push(x as i32));
        }
        k = k + 1;
    }
    *off = p + 4 * n;
    v
}

/// A dense layer: `out_dim` biases, then `in_dim * out_dim` weights.
fn read_dense_layer(bytes: &[u8], off: &mut usize, in_dim: usize, out_dim: usize) -> (r: (Vec<i8>, Vec<i32>))
    requires
        *old(off) + 4 * out_dim + in_dim * out_dim <= bytes@.len(),
    ensures
        r.1@ == i32s_at(bytes@, *old(off) as int, out_dim as nat),
        r.0@ == i8s_at(bytes@, *old(off) + 4 * out_dim, (in_dim * out_dim) as nat),
        *final(off) == *old(off) + 4 * out_dim + in_dim * out_dim,
{
    let total = bytes.len();
    let bias = read_le_i32_plain(bytes, off, out_dim);
    proof {
        assert(total == bytes@.len());
    }
    let w = read_le_i8(bytes, off, in_dim * out_dim);
    (w, bias)
}


/// Reads a network from a file that holds a whole one (see `carrega_pub`
/// for one that may not).
pub fn carrega(bytes: &[u8]) -> (r: Option<RedeSf>)
    requires
        sf_ok(bytes@),
    ensures
        r matches Some(net) && sf_reads_as(bytes@, net),
{
    let ghost s = bytes@;
    let total = bytes.len();
    proof {
        lemma_leb_block_end_bound(s, off_bias(s) + 21, L1 as nat);
        lemma_leb_block_end_bound(s, off_threat_psqt(s) + 21, (THREAT_DIM * NB) as nat);
        lemma_leb_block_end_bound(s, off_pair_psqt(s) + 21, (PAIR_DIM * NB) as nat);
        lemma_leb_block_end_bound(s, off_piece_w(s) + 21, (PIECE_DIM * L1) as nat);
        lemma_leb_block_end_bound(s, off_piece_psqt(s) + 21, (PIECE_DIM * NB) as nat);
    }
    let version = read_u32(bytes, 0);
    let hash = read_u32(bytes, 4);
    let size = read_u32(bytes, 8) as usize;
    let mut o: usize = 12;
    let desc = copy_bytes(bytes, o, size);
    o = o + size;
    let ft_header: [u8; 4] = [bytes[o], bytes[o + 1], bytes[o + 2], bytes[o + 3]];
    proof {
        assert(ft_header@ =~= s.subrange(12 + u32_at(s, 8), off_bias(s)));
    }
    o = o + 4;
    let ft_bias = read_leb_i16(bytes, &mut o, L1);
    let ft_threat_w = read_le_i8(bytes, &mut o, THREAT_DIM * L1);
    let ft_threat_psqt = read_leb_i32(bytes, &mut o, THREAT_DIM * NB);
    let ft_pair_w = read_le_i8(bytes, &mut o, PAIR_DIM * L1);
    let ft_pair_psqt = read_leb_i32(bytes, &mut o, PAIR_DIM * NB);
    let ft_piece_w = read_leb_i16(bytes, &mut o, PIECE_DIM * L1);
    let ft_piece_psqt = read_leb_i32(bytes, &mut o, PIECE_DIM * NB);
    let mut stacks: Vec<LayerStack> = Vec::new();
    let mut stack_headers: Vec<[u8; 4]> = Vec::new();
    let mut bi: usize = 0;
    while bi < NB
        invariant
            s == bytes@,
            total == bytes@.len(),
            sf_ok(s),
            bi <= NB,
            o == off_stacks(s) + bi * STACK_BYTES,
            stacks@.len() == bi,
            stack_headers@.len() == bi,
            forall|k: int| 0 <= k < bi ==> stack_reads_as(s, off_stacks(s) + k * STACK_BYTES, #[trigger] stacks@[k], stack_headers@[k]),
        decreases NB - bi,
    {
        let hdr: [u8; 4] = [bytes[o], bytes[o + 1], bytes[o + 2], bytes[o + 3]];
        let base = o;
        o = o + 4;
        let (fc0w, fc0b) = read_dense_layer(bytes, &mut o, L1, L2);
        let (fc1w, fc1b) = read_dense_layer(bytes, &mut o, 2 * L2, L3);
        let (fc2w, fc2b_vec) = read_dense_layer(bytes, &mut o, 2 * L2 + 2 * L3, 1);
        let st = LayerStack { fc0w, fc0b, fc1w, fc1b, fc2w, fc2b: fc2b_vec[0] };
        proof {
            assert(hdr@ =~= s.subrange(base as int, base + 4));
            assert(stack_reads_as(s, base as int, st, hdr));
        }
        stacks.push(st);
        stack_headers.push(hdr);
        bi = bi + 1;
    }
    Some(
        RedeSf {
            ft_bias,
            ft_threat_w,
            ft_pair_w,
            ft_piece_w,
            ft_piece_psqt,
            ft_threat_psqt,
            ft_pair_psqt,
            stacks,
            version,
            hash,
            desc,
            ft_header,
            stack_headers,
        },
    )
}


proof fn lemma_leb_size_skip(s: Seq<u8>, pos: int, q: int)
    requires
        0 <= pos <= q <= s.len(),
        forall|j: int| pos <= j < q ==> (#[trigger] s[j]) & 0x80u8 != 0,
    ensures
        leb_size(s, pos) == if leb_size(s, q) == 0 {
            0
        } else {
            leb_size(s, q) + (q - pos)
        },
    decreases q - pos,
{
    if pos < q {
        lemma_leb_size_skip(s, pos + 1, q);
    }
}

/// The length of the LEB128 group at `pos`, 0 when the bytes end first.
fn leb_size_of(bytes: &[u8], pos: usize) -> (r: usize)
    ensures
        r == leb_size(bytes@, pos as int),
{
    let total = bytes.len();
    if pos > total {
        return 0;
    }
    let mut p = pos;
    while p < total && bytes[p] & 0x80 != 0
        invariant
            total == bytes@.len(),
            pos <= p <= total,
            forall|j: int| pos <= j < p ==> (#[trigger] bytes@[j]) & 0x80u8 != 0,
        decreases total - p,
    {
        p = p + 1;
    }
    proof {
        lemma_leb_size_skip(bytes@, pos as int, p as int);
    }
    if p >= total {
        0
    } else {
        p - pos + 1
    }
}

/// Whether `n` groups follow one another from `pos`, and where they end.
fn leb_block_check(bytes: &[u8], pos: usize, n: usize) -> (r: Option<usize>)
    ensures
        r is Some <==> leb_block_ok(bytes@, pos as int, n as nat),
        r matches Some(e) ==> e == leb_block_end(bytes@, pos as int, n as nat),
{
    let total = bytes.len();
    let mut p = pos;
    let mut k: usize = 0;
    while k < n
        invariant
            k <= n,
            total == bytes@.len(),
            leb_block_ok(bytes@, pos as int, n as nat) <==> leb_block_ok(bytes@, p as int, (n - k) as nat),
            leb_block_end(bytes@, pos as int, n as nat) == leb_block_end(bytes@, p as int, (n - k) as nat),
        decreases n - k,
    {
        let sz = leb_size_of(bytes, p);
        if sz == 0 || sz > 613566756 {
            return None;
        }
        proof {
            lemma_leb_size_bound(bytes@, p as int);
        }
        p = p + sz;
        k = k + 1;
    }
    Some(p)
}

/// Whether the bytes hold a whole network.
fn sf_check(bytes: &[u8]) -> (r: bool)
    ensures
        r == sf_ok(bytes@),
{
    let ghost s = bytes@;
    let total = bytes.len();
    if total < 12 {
        return false;
    }
    let size = read_u32(bytes, 8) as usize;
    if total - 12 < size || total - 12 - size < 4 + 21 {
        return false;
    }
    let b = 16 + size;
    let e1 = match leb_block_check(bytes, b + 21, L1) {
        Some(e) => e,
        None => return false,
    };
    proof {
        lemma_leb_block_end_bound(s, b + 21, L1 as nat);
    }
    if total - e1 < THREAT_DIM * L1 + 21 {
        return false;
    }
    let e2 = match leb_block_check(bytes, e1 + THREAT_DIM * L1 + 21, THREAT_DIM * NB) {
        Some(e) => e,
        None => return false,
    };
    proof {
        lemma_leb_block_end_bound(s, e1 + THREAT_DIM * L1 + 21, (THREAT_DIM * NB) as nat);
    }
    if total - e2 < PAIR_DIM * L1 + 21 {
        return false;
    }
    let e3 = match leb_block_check(bytes, e2 + PAIR_DIM * L1 + 21, PAIR_DIM * NB) {
        Some(e) => e,
        None => return false,
    };
    proof {
        lemma_leb_block_end_bound(s, e2 + PAIR_DIM * L1 + 21, (PAIR_DIM * NB) as nat);
    }
    if total - e3 < 21 {
        return false;
    }
    let e4 = match leb_block_check(bytes, e3 + 21, PIECE_DIM * L1) {
        Some(e) => e,
        None => return false,
    };
    proof {
        lemma_leb_block_end_bound(s, e3 + 21, (PIECE_DIM * L1) as nat);
    }
    if total - e4 < 21 {
        return false;
    }
    let e5 = match leb_block_check(bytes, e4 + 21, PIECE_DIM * NB) {
        Some(e) => e,
        None => return false,
    };
    proof {
        lemma_leb_block_end_bound(s, e4 + 21, (PIECE_DIM * NB) as nat);
    }
    total - e5 >= NB * STACK_BYTES
}

/// Reads a network from bytes that may not hold one: `None` when they do not.
pub fn carrega_pub(bytes: &[u8]) -> (r: Option<RedeSf>)
    ensures
        r is Some <==> sf_ok(bytes@),
        r matches Some(net) ==> sf_reads_as(bytes@, net),
{
    if !sf_check(bytes) {
        return None;
    }
    carrega(bytes)
}


proof fn lemma_byte_casts(x: u32, y: i8, z: i32)
    by (bit_vector)
    ensures
        ((x & 0xff) as u8 as u32) | ((((x >> 8u32) & 0xff) as u8 as u32) << 8u32) | ((((x >> 16u32) & 0xff) as u8 as u32)
            << 16u32) | ((((x >> 24u32) & 0xff) as u8 as u32) << 24u32) == x,
        (y as u8) as i8 == y,
        (z as u32) as i32 == z,
{
}

proof fn lemma_le32_read(s: Seq<u8>, p: int, x: u32)
    requires
        0 <= p,
        p + 4 <= s.len(),
        s.subrange(p, p + 4) == le32(x),
    ensures
        u32_at(s, p) == x,
{
    assert(s[p] == le32(x)[0]);
    assert(s[p + 1] == le32(x)[1]);
    assert(s[p + 2] == le32(x)[2]);
    assert(s[p + 3] == le32(x)[3]);
    lemma_byte_casts(x, 0, 0);
}

proof fn lemma_i8s_read(s: Seq<u8>, p: int, w: Seq<i8>)
    requires
        0 <= p,
        p + w.len() <= s.len(),
        s.subrange(p, p + w.len()) == u8s(w),
    ensures
        i8s_at(s, p, w.len()) == w,
{
    assert forall|j: int| 0 <= j < w.len() implies #[trigger] i8s_at(s, p, w.len())[j] == w[j] by {
        assert(s[p + j] == u8s(w)[j]);
        lemma_byte_casts(0, w[j], 0);
    }
    assert(i8s_at(s, p, w.len()) =~= w);
}

proof fn lemma_le32s_shape(b: Seq<i32>)
    ensures
        le32s(b).len() == 4 * b.len(),
        forall|j: int| 0 <= j < b.len() ==> #[trigger] le32s(b).subrange(4 * j, 4 * j + 4) == le32(b[j] as u32),
    decreases b.len(),
{
    if b.len() > 0 {
        let d = b.drop_last();
        lemma_le32s_shape(d);
        assert forall|j: int| 0 <= j < b.len() implies #[trigger] le32s(b).subrange(4 * j, 4 * j + 4) == le32(b[j] as u32) by {
            if j < d.len() {
                assert(le32s(d).subrange(4 * j, 4 * j + 4) == le32(d[j] as u32));
                assert(le32s(b).subrange(4 * j, 4 * j + 4) =~= le32s(d).subrange(4 * j, 4 * j + 4));
            } else {
                assert(le32s(b).subrange(4 * j, 4 * j + 4) =~= le32(b[j] as u32));
            }
        }
    }
}

proof fn lemma_i32s_read(s: Seq<u8>, p: int, b: Seq<i32>)
    requires
        0 <= p,
        p + 4 * b.len() <= s.len(),
        s.subrange(p, p + 4 * b.len()) == le32s(b),
    ensures
        i32s_at(s, p, b.len()) == b,
{
    lemma_le32s_shape(b);
    assert forall|j: int| 0 <= j < b.len() implies #[trigger] i32s_at(s, p, b.len())[j] == b[j] by {
        assert(le32s(b).subrange(4 * j, 4 * j + 4) == le32(b[j] as u32));
        assert(s.subrange(p + 4 * j, p + 4 * j + 4) =~= le32s(b).subrange(4 * j, 4 * j + 4));
        lemma_le32_read(s, p + 4 * j, b[j] as u32);
        lemma_byte_casts(0, 0, b[j]);
    }
    assert(i32s_at(s, p, b.len()) =~= b);
}

/// The sizes a network's fields are read with.
pub open spec fn sf_dims(net: RedeSf) -> bool {
    &&& net.ft_bias@.len() == L1
    &&& net.ft_threat_w@.len() == THREAT_DIM * L1
    &&& net.ft_threat_psqt@.len() == THREAT_DIM * NB
    &&& net.ft_pair_w@.len() == PAIR_DIM * L1
    &&& net.ft_pair_psqt@.len() == PAIR_DIM * NB
    &&& net.ft_piece_w@.len() == PIECE_DIM * L1
    &&& net.ft_piece_psqt@.len() == PIECE_DIM * NB
    &&& net.stacks@.len() == NB
    &&& net.stack_headers@.len() == NB
    &&& net.desc@.len() <= u32::MAX
    &&& forall|k: int| 0 <= k < NB ==> stack_dims(#[trigger] net.stacks@[k])
}

pub open spec fn stack_dims(st: LayerStack) -> bool {
    &&& st.fc0w@.len() == L1 * L2
    &&& st.fc0b@.len() == L2
    &&& st.fc1w@.len() == 2 * L2 * L3
    &&& st.fc1b@.len() == L3
    &&& st.fc2w@.len() == 2 * L2 + 2 * L3
}

/// The bytes of stack `k` alone.
pub open spec fn stack_bytes(st: LayerStack, hdr: [u8; 4]) -> Seq<u8> {
    hdr@ + dense_bytes(st.fc0w@, st.fc0b@) + dense_bytes(st.fc1w@, st.fc1b@) + dense_bytes(st.fc2w@, seq![st.fc2b])
}

proof fn lemma_part(x: Seq<u8>, y: Seq<u8>, z: Seq<u8>)
    ensures
        (x + y + z).subrange(x.len() as int, (x.len() + y.len()) as int) == y,
{
    assert((x + y + z).subrange(x.len() as int, (x.len() + y.len()) as int) =~= y);
}

proof fn lemma_sub_sub(s: Seq<u8>, base: int, n: int, i: int, j: int)
    requires
        0 <= base,
        base + n <= s.len(),
        0 <= i <= j <= n,
    ensures
        s.subrange(base, base + n).subrange(i, j) == s.subrange(base + i, base + j),
{
    assert(s.subrange(base, base + n).subrange(i, j) =~= s.subrange(base + i, base + j));
}

proof fn lemma_stack_read(s: Seq<u8>, base: int, st: LayerStack, hdr: [u8; 4])
    requires
        stack_dims(st),
        0 <= base,
        base + STACK_BYTES <= s.len(),
        s.subrange(base, base + STACK_BYTES) == stack_bytes(st, hdr),
    ensures
        stack_bytes(st, hdr).len() == STACK_BYTES,
        stack_reads_as(s, base, st, hdr),
{
    lemma_le32s_shape(st.fc0b@);
    lemma_le32s_shape(st.fc1b@);
    lemma_le32s_shape(seq![st.fc2b]);
    let h = hdr@;
    let a = le32s(st.fc0b@);
    let b = u8s(st.fc0w@);
    let c = le32s(st.fc1b@);
    let d = u8s(st.fc1w@);
    let e = le32s(seq![st.fc2b]);
    let f = u8s(st.fc2w@);
    let t = stack_bytes(st, hdr);
    assert(t =~= h + a + b + c + d + e + f);
    assert(t.len() == STACK_BYTES);
    let n = STACK_BYTES as int;
    lemma_part(seq![], h, a + b + c + d + e + f);
    assert(t =~= seq![] + h + (a + b + c + d + e + f));
    lemma_sub_sub(s, base, n, 0, 4);
    lemma_part(h, a, b + c + d + e + f);
    assert(t =~= h + a + (b + c + d + e + f));
    lemma_sub_sub(s, base, n, 4, 132);
    lemma_i32s_read(s, base + 4, st.fc0b@);
    lemma_part(h + a, b, c + d + e + f);
    assert(t =~= (h + a) + b + (c + d + e + f));
    lemma_sub_sub(s, base, n, 132, 32900);
    lemma_i8s_read(s, base + 132, st.fc0w@);
    lemma_part(h + a + b, c, d + e + f);
    assert(t =~= (h + a + b) + c + (d + e + f));
    lemma_sub_sub(s, base, n, 32900, 33028);
    lemma_i32s_read(s, base + 32900, st.fc1b@);
    lemma_part(h + a + b + c, d, e + f);
    assert(t =~= (h + a + b + c) + d + (e + f));
    lemma_sub_sub(s, base, n, 33028, 35076);
    lemma_i8s_read(s, base + 33028, st.fc1w@);
    lemma_part(h + a + b + c + d, e, f);
    assert(t =~= (h + a + b + c + d) + e + f);
    lemma_sub_sub(s, base, n, 35076, 35080);
    lemma_i32s_read(s, base + 35076, seq![st.fc2b]);
    assert(i32s_at(s, base + 35076, 1)[0] == st.fc2b);
    lemma_part(h + a + b + c + d + e, f, seq![]);
    assert(t =~= (h + a + b + c + d + e) + f + seq![]);
    lemma_sub_sub(s, base, n, 35080, 35208);
    lemma_i8s_read(s, base + 35080, st.fc2w@);
}


proof fn lemma_stacks_layout(st: Seq<LayerStack>, hd: Seq<[u8; 4]>)
    requires
        forall|k: int| 0 <= k < st.len() ==> stack_dims(#[trigger] st[k]),
    ensures
        stacks_bytes(st, hd).len() == st.len() * STACK_BYTES,
        forall|k: int|
            0 <= k < st.len() ==> #[trigger] stacks_bytes(st, hd).subrange(k * STACK_BYTES, (k + 1) * STACK_BYTES) == stack_bytes(
                st[k],
                hd[k],
            ),
    decreases st.len(),
{
    if st.len() > 0 {
        let d = st.drop_last();
        let k0 = st.len() - 1;
        lemma_stacks_layout(d, hd);
        lemma_le32s_shape(st[k0].fc0b@);
        lemma_le32s_shape(st[k0].fc1b@);
        lemma_le32s_shape(seq![st[k0].fc2b]);
        let whole = stacks_bytes(st, hd);
        let head = stacks_bytes(d, hd);
        let last = stack_bytes(st[k0], hd[k0]);
        assert(whole =~= head + last);
        assert forall|k: int| 0 <= k < st.len() implies #[trigger] stacks_bytes(st, hd).subrange(
            k * STACK_BYTES,
            (k + 1) * STACK_BYTES,
        ) == stack_bytes(st[k], hd[k]) by {
            assert(k * STACK_BYTES + STACK_BYTES == (k + 1) * STACK_BYTES);
            if k < k0 {
                assert(head.subrange(k * STACK_BYTES, (k + 1) * STACK_BYTES) == stack_bytes(d[k], hd[k]));
                assert(whole.subrange(k * STACK_BYTES, (k + 1) * STACK_BYTES) =~= head.subrange(
                    k * STACK_BYTES,
                    (k + 1) * STACK_BYTES,
                ));
            } else {
                assert(whole.subrange(k * STACK_BYTES, (k + 1) * STACK_BYTES) =~= last);
            }
        }
    }
}

proof fn lemma_prefix_step(s: Seq<u8>, x: Seq<u8>, y: Seq<u8>)
    requires
        (x.len() + y.len()) as int <= s.len(),
        s.subrange(0, (x.len() + y.len()) as int) == x + y,
    ensures
        s.subrange(0, x.len() as int) == x,
        s == x + y + s.subrange((x.len() + y.len()) as int, s.len() as int),
{
    assert(s.subrange(0, x.len() as int) =~= (x + y).subrange(0, x.len() as int));
    assert(s =~= x + y + s.subrange((x.len() + y.len()) as int, s.len() as int));
}

/// The header words, the description and the transformer's header of a
/// written network read back.
proof fn lemma_sf_head(net: RedeSf, s: Seq<u8>)
    requires
        net.desc@.len() <= u32::MAX,
        s.len() >= 16 + net.desc@.len() as int,
        s.subrange(0, 16 + net.desc@.len() as int) == le32(net.version) + le32(net.hash) + le32(net.desc@.len() as u32) + net.desc@
            + net.ft_header@,
    ensures
        u32_at(s, 0) == net.version,
        u32_at(s, 4) == net.hash,
        u32_at(s, 8) == net.desc@.len(),
        net.desc@ == s.subrange(12, 12 + u32_at(s, 8)),
        net.ft_header@ == s.subrange(12 + u32_at(s, 8), off_bias(s)),
{
    let d = net.desc@.len() as u32;
    let h = s.subrange(0, 16 + net.desc@.len() as int);
    assert(h =~= le32(net.version) + le32(net.hash) + le32(d) + net.desc@ + net.ft_header@);
    lemma_sub_sub(s, 0, 16 + net.desc@.len() as int, 0, 4);
    assert(h.subrange(0, 4) =~= le32(net.version));
    lemma_le32_read(s, 0, net.version);
    lemma_sub_sub(s, 0, 16 + net.desc@.len() as int, 4, 8);
    assert(h.subrange(4, 8) =~= le32(net.hash));
    lemma_le32_read(s, 4, net.hash);
    lemma_sub_sub(s, 0, 16 + net.desc@.len() as int, 8, 12);
    assert(h.subrange(8, 12) =~= le32(d));
    lemma_le32_read(s, 8, d);
    lemma_sub_sub(s, 0, 16 + net.desc@.len() as int, 12, 12 + net.desc@.len() as int);
    assert(h.subrange(12, 12 + net.desc@.len() as int) =~= net.desc@);
    lemma_sub_sub(s, 0, 16 + net.desc@.len() as int, 12 + net.desc@.len() as int, 16 + net.desc@.len() as int);
    assert(h.subrange(12 + net.desc@.len() as int, 16 + net.desc@.len() as int) =~= net.ft_header@);
}

/// Part `k` of a written network, in file order.
pub open spec fn sf_part(net: RedeSf, k: nat) -> Seq<u8> {
    if k == 0 {
        le32(net.version)
    } else if k == 1 {
        le32(net.hash)
    } else if k == 2 {
        le32(net.desc@.len() as u32)
    } else if k == 3 {
        net.desc@
    } else if k == 4 {
        net.ft_header@
    } else if k == 5 {
        leb_block(widen16(net.ft_bias@))
    } else if k == 6 {
        u8s(net.ft_threat_w@)
    } else if k == 7 {
        leb_block(widen32(net.ft_threat_psqt@))
    } else if k == 8 {
        u8s(net.ft_pair_w@)
    } else if k == 9 {
        leb_block(widen32(net.ft_pair_psqt@))
    } else if k == 10 {
        leb_block(widen16(net.ft_piece_w@))
    } else if k == 11 {
        leb_block(widen32(net.ft_piece_psqt@))
    } else {
        stacks_bytes(net.stacks@, net.stack_headers@)
    }
}

/// The parts before part `k`.
pub open spec fn sf_prefix(net: RedeSf, k: nat) -> Seq<u8>
    decreases k,
{
    if k == 0 {
        seq![]
    } else {
        sf_prefix(net, (k - 1) as nat) + sf_part(net, (k - 1) as nat)
    }
}

proof fn lemma_sf_parts(net: RedeSf)
    ensures
        net_bytes(net) == sf_prefix(net, 13),
        forall|k: nat|
            k < 13 ==> net_bytes(net) == #[trigger] sf_prefix(net, k) + sf_part(net, k) + net_bytes(net).subrange(
                sf_prefix(net, k + 1).len() as int,
                net_bytes(net).len() as int,
            ),
{
    let s = net_bytes(net);
    reveal_with_fuel(sf_prefix, 14);
    assert(s =~= sf_prefix(net, 13));
    assert forall|k: nat| k < 13 implies s == #[trigger] sf_prefix(net, k) + sf_part(net, k) + s.subrange(
        sf_prefix(net, k + 1).len() as int,
        s.len() as int,
    ) by {
        lemma_sf_prefix_of(net, k + 1, 13);
        lemma_prefix_step(s, sf_prefix(net, k), sf_part(net, k));
    }
}

proof fn lemma_sf_prefix_of(net: RedeSf, k: nat, n: nat)
    requires
        k <= n,
    ensures
        sf_prefix(net, k).len() <= sf_prefix(net, n).len(),
        sf_prefix(net, n).subrange(0, sf_prefix(net, k).len() as int) == sf_prefix(net, k),
    decreases n - k,
{
    if k < n {
        lemma_sf_prefix_of(net, k, (n - 1) as nat);
        let p = sf_prefix(net, (n - 1) as nat);
        assert(sf_prefix(net, n) == p + sf_part(net, (n - 1) as nat));
        assert(sf_prefix(net, n).subrange(0, sf_prefix(net, k).len() as int) =~= p.subrange(0, sf_prefix(net, k).len() as int));
    } else {
        assert(sf_prefix(net, n).subrange(0, sf_prefix(net, k).len() as int) =~= sf_prefix(net, k));
    }
}

proof fn lemma_sf_split(net: RedeSf, k: nat)
    requires
        k < 13,
    ensures
        net_bytes(net) == sf_prefix(net, k) + sf_part(net, k) + net_bytes(net).subrange(
            sf_prefix(net, k + 1).len() as int,
            net_bytes(net).len() as int,
        ),
        sf_prefix(net, k + 1) == sf_prefix(net, k) + sf_part(net, k),
{
    lemma_sf_parts(net);
    assert(net_bytes(net) == sf_prefix(net, k) + sf_part(net, k) + net_bytes(net).subrange(
        sf_prefix(net, k + 1).len() as int,
        net_bytes(net).len() as int,
    ));
}

proof fn lemma_sf_step_head(net: RedeSf)
    requires
        sf_dims(net),
    ensures
        u32_at(net_bytes(net), 0) == net.version,
        u32_at(net_bytes(net), 4) == net.hash,
        net.desc@ == net_bytes(net).subrange(12, 12 + u32_at(net_bytes(net), 8)),
        net.ft_header@ == net_bytes(net).subrange(12 + u32_at(net_bytes(net), 8), off_bias(net_bytes(net))),
        off_bias(net_bytes(net)) == sf_prefix(net, 5).len(),
{
    let s = net_bytes(net);
    lemma_sf_parts(net);
    lemma_sf_prefix_of(net, 5, 13);
    reveal_with_fuel(sf_prefix, 6);
    assert(sf_prefix(net, 5) =~= le32(net.version) + le32(net.hash) + le32(net.desc@.len() as u32) + net.desc@ + net.ft_header@);
    lemma_sf_head(net, s);
}

proof fn lemma_sf_step_leb16(net: RedeSf, k: nat, vals: Seq<i16>)
    requires
        k < 13,
        sf_part(net, k) == leb_block(widen16(vals)),
    ensures
        sf_prefix(net, k).len() + 21int <= net_bytes(net).len(),
        leb_block_ok(net_bytes(net), sf_prefix(net, k).len() + 21int, vals.len()),
        leb_block_values(net_bytes(net), sf_prefix(net, k).len() + 21int, vals.len(), 16).map_values(|x: i64| x as i16) == vals,
        leb_block_end(net_bytes(net), sf_prefix(net, k).len() + 21int, vals.len()) == sf_prefix(net, k + 1).len(),
{
    let s = net_bytes(net);
    lemma_sf_split(net, k);
    lemma_leb_block_roundtrip_i16(vals, sf_prefix(net, k), s.subrange(sf_prefix(net, k + 1).len() as int, s.len() as int));
}

proof fn lemma_sf_step_leb32(net: RedeSf, k: nat, vals: Seq<i32>)
    requires
        k < 13,
        sf_part(net, k) == leb_block(widen32(vals)),
    ensures
        sf_prefix(net, k).len() + 21int <= net_bytes(net).len(),
        leb_block_ok(net_bytes(net), sf_prefix(net, k).len() + 21int, vals.len()),
        leb_block_values(net_bytes(net), sf_prefix(net, k).len() + 21int, vals.len(), 32).map_values(|x: i64| x as i32) == vals,
        leb_block_end(net_bytes(net), sf_prefix(net, k).len() + 21int, vals.len()) == sf_prefix(net, k + 1).len(),
{
    let s = net_bytes(net);
    lemma_sf_split(net, k);
    lemma_leb_block_roundtrip_i32(vals, sf_prefix(net, k), s.subrange(sf_prefix(net, k + 1).len() as int, s.len() as int));
}

proof fn lemma_sf_step_raw(net: RedeSf, k: nat, vals: Seq<i8>)
    requires
        k < 13,
        sf_part(net, k) == u8s(vals),
    ensures
        i8s_at(net_bytes(net), sf_prefix(net, k).len() as int, vals.len()) == vals,
        sf_prefix(net, k + 1).len() == sf_prefix(net, k).len() + vals.len(),
{
    let s = net_bytes(net);
    lemma_sf_split(net, k);
    let r = s.subrange(sf_prefix(net, k + 1).len() as int, s.len() as int);
    lemma_part(sf_prefix(net, k), sf_part(net, k), r);
    lemma_i8s_read(s, sf_prefix(net, k).len() as int, vals);
}

proof fn lemma_sf_step_stacks(net: RedeSf)
    requires
        sf_dims(net),
    ensures
        sf_prefix(net, 12).len() + NB * STACK_BYTES <= net_bytes(net).len(),
        forall|k: int|
            0 <= k < NB ==> stack_reads_as(
                net_bytes(net),
                sf_prefix(net, 12).len() + k * STACK_BYTES,
                #[trigger] net.stacks@[k],
                net.stack_headers@[k],
            ),
{
    let s = net_bytes(net);
    lemma_sf_split(net, 12);
    let tail = stacks_bytes(net.stacks@, net.stack_headers@);
    assert(sf_part(net, 12) == tail);
    lemma_stacks_layout(net.stacks@, net.stack_headers@);
    let base0 = sf_prefix(net, 12).len() as int;
    assert forall|k: int| 0 <= k < NB implies stack_reads_as(s, base0 + k * STACK_BYTES, #[trigger] net.stacks@[k], net.stack_headers@[k]) by {
        assert(stack_dims(net.stacks@[k]));
        let lo = k * STACK_BYTES;
        assert(lo + STACK_BYTES == (k + 1) * STACK_BYTES);
        assert(tail.subrange(lo, lo + STACK_BYTES) == stack_bytes(net.stacks@[k], net.stack_headers@[k]));
        assert(s.subrange(base0 + lo, base0 + lo + STACK_BYTES) =~= tail.subrange(lo, lo + STACK_BYTES));
        lemma_stack_read(s, base0 + lo, net.stacks@[k], net.stack_headers@[k]);
    }
}

/// Reading back a file that `escreve` wrote gives the network that was
/// written: the file is whole, and every field reads as it was.
pub proof fn lemma_sf_roundtrip(net: RedeSf)
    requires
        sf_dims(net),
    ensures
        sf_ok(net_bytes(net)),
        sf_reads_as(net_bytes(net), net),
{
    lemma_sf_step_head(net);
    lemma_sf_step_leb16(net, 5, net.ft_bias@);
    lemma_sf_step_raw(net, 6, net.ft_threat_w@);
    lemma_sf_step_leb32(net, 7, net.ft_threat_psqt@);
    lemma_sf_step_raw(net, 8, net.ft_pair_w@);
    lemma_sf_step_leb32(net, 9, net.ft_pair_psqt@);
    lemma_sf_step_leb16(net, 10, net.ft_piece_w@);
    lemma_sf_step_leb32(net, 11, net.ft_piece_psqt@);
    lemma_sf_step_stacks(net);
}


/// Stacks that agree field by field are written as the same bytes.
proof fn lemma_stacks_bytes_agree(a: Seq<LayerStack>, ha: Seq<[u8; 4]>, b: Seq<LayerStack>, hb: Seq<[u8; 4]>)
    requires
        a.len() == b.len(),
        forall|k: int| 0 <= k < a.len() ==> {
            &&& (#[trigger] a[k]).fc0w@ == b[k].fc0w@
            &&& a[k].fc0b@ == b[k].fc0b@
            &&& a[k].fc1w@ == b[k].fc1w@
            &&& a[k].fc1b@ == b[k].fc1b@
            &&& a[k].fc2w@ == b[k].fc2w@
            &&& a[k].fc2b == b[k].fc2b
            &&& ha[k]@ == hb[k]@
        },
    ensures
        stacks_bytes(a, ha) == stacks_bytes(b, hb),
    decreases a.len(),
{
    if a.len() > 0 {
        let k = a.len() - 1;
        assert(a[k].fc0w@ == b[k].fc0w@);
        lemma_stacks_bytes_agree(a.drop_last(), ha, b.drop_last(), hb);
    }
}

/// A file as networks are written reads and writes back as the same bytes:
/// the network that `net_bytes(net)` describes is written as `net_bytes(net)`.
pub proof fn lemma_sf_read_write(net: RedeSf, net2: RedeSf)
    requires
        sf_dims(net),
        sf_reads_as(net_bytes(net), net2),
    ensures
        net_bytes(net2) == net_bytes(net),
{
    lemma_sf_roundtrip(net);
    let s = net_bytes(net);
    assert forall|k: int| 0 <= k < net.stacks@.len() implies {
        &&& (#[trigger] net2.stacks@[k]).fc0w@ == net.stacks@[k].fc0w@
        &&& net2.stacks@[k].fc0b@ == net.stacks@[k].fc0b@
        &&& net2.stacks@[k].fc1w@ == net.stacks@[k].fc1w@
        &&& net2.stacks@[k].fc1b@ == net.stacks@[k].fc1b@
        &&& net2.stacks@[k].fc2w@ == net.stacks@[k].fc2w@
        &&& net2.stacks@[k].fc2b == net.stacks@[k].fc2b
        &&& net2.stack_headers@[k]@ == net.stack_headers@[k]@
    } by {
        assert(stack_reads_as(s, off_stacks(s) + k * STACK_BYTES, net.stacks@[k], net.stack_headers@[k]));
        assert(stack_reads_as(s, off_stacks(s) + k * STACK_BYTES, net2.stacks@[k], net2.stack_headers@[k]));
    }
    lemma_stacks_bytes_agree(net2.stacks@, net2.stack_headers@, net.stacks@, net.stack_headers@);
}

/// Pawn-pair inputs are numbered after the threat inputs.
pub const PAIR_BASE: usize = THREAT_DIM;

/// The top of the accumulator's clipped range.
pub const FT_MAX_VAL: i16 = 255;

/// The output scale of the network's last layer.
pub const OUTPUT_SCALE: i64 = 16;

/// What the inputs in `feats` add up to, `val` giving each input's share.
pub open spec fn feat_sum(val: spec_fn(int) -> int, feats: Seq<usize>) -> int
    decreases feats.len(),
{
    if feats.len() == 0 {
        0
    } else {
        feat_sum(val, feats.drop_last()) + val(feats.last() as int)
    }
}

/// Column `k` of a table of `i16` rows of `L1` weights, input `f` on row `f - base`.
pub open spec fn col16(w: Seq<i16>, base: int, k: int) -> spec_fn(int) -> int {
    |f: int| w[(f - base) * L1 + k] as int
}

/// Column `k` of a table of `i8` rows of `L1` weights, input `f` on row `f - base`.
pub open spec fn col8(w: Seq<i8>, base: int, k: int) -> spec_fn(int) -> int {
    |f: int| w[(f - base) * L1 + k] as int
}

/// Column `bucket` of a table of rows of `NB` PSQT values, input `f` on row `f - base`.
pub open spec fn psqt_col(w: Seq<i32>, base: int, bucket: int) -> spec_fn(int) -> int {
    |f: int| w[(f - base) * NB + bucket] as int
}

/// Every input of `feats` has a row in a table of `dim` rows numbered from `base`.
pub open spec fn feats_in(feats: Seq<usize>, base: int, dim: int) -> bool {
    forall|i: int| 0 <= i < feats.len() ==> base <= #[trigger] feats[i] < base + dim
}

/// The active inputs of one side: its pieces, its threats and its pawn pairs.
pub struct Feats {
    pub pieces: Vec<usize>,
    pub threats: Vec<usize>,
    pub pairs: Vec<usize>,
}

impl Feats {
    /// Every input is one the network has a row for, and there are fewer
    /// than 2^30 of them.
    pub open spec fn ok(&self) -> bool {
        &&& feats_in(self.pieces@, 0, PIECE_DIM as int)
        &&& feats_in(self.threats@, 0, THREAT_DIM as int)
        &&& feats_in(self.pairs@, PAIR_BASE as int, PAIR_DIM as int)
        &&& self.pieces@.len() + self.threats@.len() + self.pairs@.len() <= 0x4000_0000
    }
}

/// Hidden unit `k` of the accumulator of a side with pieces `p`, threats `t`
/// and pawn pairs `q`: the bias plus the weight rows of every input,
/// wrapped to 16 bits.
pub open spec fn acc_of(net: RedeSf, p: Seq<usize>, t: Seq<usize>, q: Seq<usize>, k: int) -> int {
    wrap16(
        net.ft_bias@[k] + feat_sum(col16(net.ft_piece_w@, 0, k), p) + feat_sum(col8(net.ft_threat_w@, 0, k), t)
            + feat_sum(col8(net.ft_pair_w@, PAIR_BASE as int, k), q),
    )
}

/// Hidden unit `k` of the accumulator of a side with inputs `f`.
pub open spec fn acc_spec(net: RedeSf, f: Feats, k: int) -> int {
    acc_of(net, f.pieces@, f.threats@, f.pairs@, k)
}

/// The PSQT value in `bucket` of a side with pieces `p`, threats `t` and pawn pairs `q`.
pub open spec fn psqt_of(net: RedeSf, p: Seq<usize>, t: Seq<usize>, q: Seq<usize>, bucket: int) -> int {
    feat_sum(psqt_col(net.ft_piece_psqt@, 0, bucket), p) + feat_sum(psqt_col(net.ft_threat_psqt@, 0, bucket), t)
        + feat_sum(psqt_col(net.ft_pair_psqt@, PAIR_BASE as int, bucket), q)
}

/// The PSQT value of a side with inputs `f` in `bucket`.
pub open spec fn psqt_spec(net: RedeSf, f: Feats, bucket: int) -> int {
    psqt_of(net, f.pieces@, f.threats@, f.pairs@, bucket)
}

/// Taking the input at `j` out of a list takes its share out of the sum.
proof fn lemma_feat_sum_remove(val: spec_fn(int) -> int, s: Seq<usize>, j: int)
    requires
        0 <= j < s.len(),
    ensures
        feat_sum(val, s) == feat_sum(val, s.remove(j)) + val(s[j] as int),
    decreases s.len(),
{
    if j == s.len() - 1 {
        assert(s.remove(j) =~= s.drop_last());
    } else {
        lemma_feat_sum_remove(val, s.drop_last(), j);
        assert(s.drop_last().remove(j) =~= s.remove(j).drop_last());
        assert(s.remove(j).last() == s.last());
    }
}

/// Lists holding the same inputs, each as often, have the same sum.
pub proof fn lemma_feat_sum_multiset(val: spec_fn(int) -> int, s: Seq<usize>, t: Seq<usize>)
    requires
        s.to_multiset() == t.to_multiset(),
    ensures
        feat_sum(val, s) == feat_sum(val, t),
    decreases s.len(),
{
    broadcast use vstd::seq_lib::group_to_multiset_ensures;
    broadcast use vstd::multiset::group_multiset_axioms;

    if s.len() == 0 {
        assert(t.to_multiset().len() == 0);
        assert(t.len() == 0);
    } else {
        let x = s.last();
        let s1 = s.drop_last();
        assert(s1.push(x) =~= s);
        assert(s.to_multiset() =~= s1.to_multiset().insert(x));
        assert(t.to_multiset().count(x) > 0);
        assert(t.contains(x));
        let j = choose|j: int| 0 <= j < t.len() && t[j] == x;
        let t1 = t.remove(j);
        assert(t1.to_multiset() =~= t.to_multiset().remove(x));
        assert(t1.to_multiset() =~= s1.to_multiset());
        lemma_feat_sum_multiset(val, s1, t1);
        lemma_feat_sum_remove(val, t, j);
    }
}

/// The numbers below `n` that `active` holds, in increasing order.
pub open spec fn active_upto(active: spec_fn(int) -> bool, n: int) -> Seq<usize>
    decreases n,
{
    if n <= 0 {
        seq![]
    } else {
        active_upto(active, n - 1) + if active(n - 1) {
            seq![(n - 1) as usize]
        } else {
            seq![]
        }
    }
}

pub proof fn lemma_active_upto(active: spec_fn(int) -> bool, n: int)
    requires
        0 <= n <= 0x10000,
    ensures
        active_upto(active, n).no_duplicates(),
        active_upto(active, n).len() <= n,
        forall|x: usize| #[trigger] active_upto(active, n).contains(x) <==> (x < n && active(x as int)),
    decreases n,
{
    if n > 0 {
        lemma_active_upto(active, n - 1);
        let s = active_upto(active, n - 1);
        let t = active_upto(active, n);
        if active(n - 1) {
            assert(t == s.push((n - 1) as usize));
            assert forall|x: usize| #[trigger] t.contains(x) <==> (x < n && active(x as int)) by {
                if x == n - 1 {
                    assert(t[t.len() - 1] == x);
                } else if t.contains(x) {
                    let j = choose|j: int| 0 <= j < t.len() && t[j] == x;
                    assert(t[t.len() - 1] == (n - 1) as usize);
                    assert(j < s.len());
                    assert(s[j] == x);
                    assert(s.contains(x));
                } else if x < n && active(x as int) {
                    assert(s.contains(x));
                    let j = choose|j: int| 0 <= j < s.len() && s[j] == x;
                    assert(t[j] == x);
                }
            }
            assert forall|i: int, j: int| 0 <= i < t.len() && 0 <= j < t.len() && i != j implies t[i] != t[j] by {
                if i == t.len() - 1 {
                    assert(s.contains(t[j]));
                } else if j == t.len() - 1 {
                    assert(s.contains(t[i]));
                }
            }
        } else {
            assert(t =~= s);
        }
    }
}

/// A list without repeats that holds exactly the numbers below `n` that
/// `active` holds has the inputs of `active_upto`, each once.
pub proof fn lemma_same_as_active(s: Seq<usize>, active: spec_fn(int) -> bool, n: int)
    requires
        0 <= n <= 0x10000,
        s.no_duplicates(),
        forall|x: usize| #[trigger] s.contains(x) <==> (x < n && active(x as int)),
    ensures
        s.to_multiset() == active_upto(active, n).to_multiset(),
        s.len() <= n,
{
    broadcast use vstd::seq_lib::group_to_multiset_ensures;
    broadcast use vstd::multiset::group_multiset_axioms;

    lemma_active_upto(active, n);
    let t = active_upto(active, n);
    s.lemma_multiset_has_no_duplicates();
    t.lemma_multiset_has_no_duplicates();
    assert forall|x: usize| s.to_multiset().count(x) == t.to_multiset().count(x) by {
        if s.contains(x) {
            assert(t.contains(x));
        } else {
            assert(!t.contains(x));
        }
    }
    assert(s.to_multiset() =~= t.to_multiset());
    vstd::seq_lib::to_multiset_len(s);
    vstd::seq_lib::to_multiset_len(t);
}

/// A side's accumulator and PSQT values depend on which inputs are active
/// (counted with their multiplicity), not on the order the lists give them
/// in: the incremental update, which removes and adds rows in whatever order
/// the changes come, reaches the same values as a rebuild from the new lists.
pub proof fn lemma_acc_order_free(
    net: RedeSf,
    p1: Seq<usize>,
    t1: Seq<usize>,
    q1: Seq<usize>,
    p2: Seq<usize>,
    t2: Seq<usize>,
    q2: Seq<usize>,
)
    requires
        p1.to_multiset() == p2.to_multiset(),
        t1.to_multiset() == t2.to_multiset(),
        q1.to_multiset() == q2.to_multiset(),
    ensures
        forall|k: int| #[trigger] acc_of(net, p1, t1, q1, k) == acc_of(net, p2, t2, q2, k),
        forall|b: int| #[trigger] psqt_of(net, p1, t1, q1, b) == psqt_of(net, p2, t2, q2, b),
{
    assert forall|k: int| #[trigger] acc_of(net, p1, t1, q1, k) == acc_of(net, p2, t2, q2, k) by {
        lemma_feat_sum_multiset(col16(net.ft_piece_w@, 0, k), p1, p2);
        lemma_feat_sum_multiset(col8(net.ft_threat_w@, 0, k), t1, t2);
        lemma_feat_sum_multiset(col8(net.ft_pair_w@, PAIR_BASE as int, k), q1, q2);
    }
    assert forall|b: int| #[trigger] psqt_of(net, p1, t1, q1, b) == psqt_of(net, p2, t2, q2, b) by {
        lemma_feat_sum_multiset(psqt_col(net.ft_piece_psqt@, 0, b), p1, p2);
        lemma_feat_sum_multiset(psqt_col(net.ft_threat_psqt@, 0, b), t1, t2);
        lemma_feat_sum_multiset(psqt_col(net.ft_pair_psqt@, PAIR_BASE as int, b), q1, q2);
    }
}

/// Adds the `i16` weight row of every input of `feats` into `acc`, wrapping.
fn soma_linhas16(acc: &mut Vec<i16>, w: &Vec<i16>, feats: &Vec<usize>)
    requires
        old(acc)@.len() == L1,
        w@.len() == PIECE_DIM * L1,
        feats_in(feats@, 0, PIECE_DIM as int),
    ensures
        final(acc)@.len() == L1,
        forall|k: int|
            0 <= k < L1 ==> #[trigger] final(acc)@[k] == wrap16(old(acc)@[k] + feat_sum(col16(w@, 0, k), feats@)),
{
    let ghost start = acc@;
    let mut i: usize = 0;
    while i < feats.len()
        invariant
            i <= feats@.len(),
            acc@.len() == L1,
            start.len() == L1,
            w@.len() == PIECE_DIM * L1,
            feats_in(feats@, 0, PIECE_DIM as int),
            forall|k: int|
                0 <= k < L1 ==> #[trigger] acc@[k] == wrap16(
                    start[k] + feat_sum(col16(w@, 0, k), feats@.take(i as int)),
                ),
        decreases feats@.len() - i,
    {
        let f = feats[i];
        assert(f < PIECE_DIM);
        let ghost before = acc@;
        let mut k: usize = 0;
        while k < L1
            invariant
                k <= L1,
                acc@.len() == L1,
                before.len() == L1,
                f < PIECE_DIM,
                w@.len() == PIECE_DIM * L1,
                forall|j: int| 0 <= j < k ==> #[trigger] acc@[j] == wrap16(before[j] + w@[f * L1 + j]),
                forall|j: int| k <= j < L1 ==> #[trigger] acc@[j] == before[j],
            decreases L1 - k,
        {
            proof {
                lemma_wrapping(acc@[k as int], w@[f * L1 + k]);
            }
            let v = acc[k].wrapping_add(w[f * L1 + k]);
            acc.set(k, v);
            k = k + 1;
        }
        proof {
            assert forall|k: int| 0 <= k < L1 implies #[trigger] acc@[k] == wrap16(
                start[k] + feat_sum(col16(w@, 0, k), feats@.take(i + 1)),
            ) by {
                assert(feats@.take(i + 1).drop_last() =~= feats@.take(i as int));
                lemma_wrap16(start[k] + feat_sum(col16(w@, 0, k), feats@.take(i as int)), w@[f * L1 + k] as int);
            }
        }
        i = i + 1;
    }
    proof {
        assert(feats@.take(feats@.len() as int) =~= feats@);
    }
}

/// Adds the `i8` weight row of every input of `feats` (rows numbered from
/// `base`) into `acc`, wrapping.
fn soma_linhas8(acc: &mut Vec<i16>, w: &Vec<i8>, feats: &Vec<usize>, base: usize, dim: usize)
    requires
        old(acc)@.len() == L1,
        base <= 0x10000,
        dim <= 0x10000,
        w@.len() == dim * L1,
        feats_in(feats@, base as int, dim as int),
    ensures
        final(acc)@.len() == L1,
        forall|k: int|
            0 <= k < L1 ==> #[trigger] final(acc)@[k] == wrap16(old(acc)@[k] + feat_sum(col8(w@, base as int, k), feats@)),
{
    let ghost start = acc@;
    let mut i: usize = 0;
    while i < feats.len()
        invariant
            i <= feats@.len(),
            acc@.len() == L1,
            start.len() == L1,
            base <= 0x10000,
            dim <= 0x10000,
            w@.len() == dim * L1,
            feats_in(feats@, base as int, dim as int),
            forall|k: int|
                0 <= k < L1 ==> #[trigger] acc@[k] == wrap16(
                    start[k] + feat_sum(col8(w@, base as int, k), feats@.take(i as int)),
                ),
        decreases feats@.len() - i,
    {
        let f = feats[i];
        assert(base <= f < base + dim);
        let r = f - base;
        let ghost before = acc@;
        let mut k: usize = 0;
        while k < L1
            invariant
                k <= L1,
                acc@.len() == L1,
                before.len() == L1,
                r < dim,
                dim <= 0x10000,
                w@.len() == dim * L1,
                forall|j: int| 0 <= j < k ==> #[trigger] acc@[j] == wrap16(before[j] + w@[r * L1 + j]),
                forall|j: int| k <= j < L1 ==> #[trigger] acc@[j] == before[j],
            decreases L1 - k,
        {
            let wv = w[r * L1 + k] as i16;
            proof {
                lemma_wrapping(acc@[k as int], wv);
            }
            let v = acc[k].wrapping_add(wv);
            acc.set(k, v);
            k = k + 1;
        }
        proof {
            assert forall|k: int| 0 <= k < L1 implies #[trigger] acc@[k] == wrap16(
                start[k] + feat_sum(col8(w@, base as int, k), feats@.take(i + 1)),
            ) by {
                assert(feats@.take(i + 1).drop_last() =~= feats@.take(i as int));
                lemma_wrap16(start[k] + feat_sum(col8(w@, base as int, k), feats@.take(i as int)), w@[r * L1 + k] as int);
            }
        }
        i = i + 1;
    }
    proof {
        assert(feats@.take(feats@.len() as int) =~= feats@);
    }
}

/// The accumulator of one side: the bias, then the rows of its pieces, its
/// threats and its pawn pairs, in 16-bit wrapping arithmetic.
pub fn build_acc(net: &RedeSf, feats: &Feats) -> (acc: Vec<i16>)
    requires
        sf_dims(*net),
        feats.ok(),
    ensures
        acc@.len() == L1,
        forall|k: int| 0 <= k < L1 ==> #[trigger] acc@[k] == acc_spec(*net, *feats, k),
{
    let mut acc: Vec<i16> = Vec::new();
    let mut k: usize = 0;
    while k < L1
        invariant
            k <= L1,
            net.ft_bias@.len() == L1,
            acc@.len() == k,
            forall|j: int| 0 <= j < k ==> #[trigger] acc@[j] == net.ft_bias@[j],
        decreases L1 - k,
    {
        acc.push(net.ft_bias[k]);
        k = k + 1;
    }
    let ghost a0 = acc@;
    soma_linhas16(&mut acc, &net.ft_piece_w, &feats.pieces);
    let ghost a1 = acc@;
    soma_linhas8(&mut acc, &net.ft_threat_w, &feats.threats, 0, THREAT_DIM);
    let ghost a2 = acc@;
    soma_linhas8(&mut acc, &net.ft_pair_w, &feats.pairs, PAIR_BASE, PAIR_DIM);
    proof {
        assert forall|k: int| 0 <= k < L1 implies #[trigger] acc@[k] == acc_spec(*net, *feats, k) by {
            let b = net.ft_bias@[k] as int;
            let p = feat_sum(col16(net.ft_piece_w@, 0, k), feats.pieces@);
            let t = feat_sum(col8(net.ft_threat_w@, 0, k), feats.threats@);
            let q = feat_sum(col8(net.ft_pair_w@, PAIR_BASE as int, k), feats.pairs@);
            assert(a1[k] == wrap16(b + p));
            lemma_wrap16(b + p, t);
            lemma_wrap16(b + p + t, q);
        }
    }
    acc
}

/// Adds the PSQT value in `bucket` of every input of `feats` (rows numbered
/// from `base`) to `start`, which holds the share of `n0` earlier inputs.
fn soma_psqt(w: &Vec<i32>, feats: &Vec<usize>, base: usize, dim: usize, bucket: usize, start: i64, Ghost(n0): Ghost<int>) -> (s: i64)
    requires
        base <= 0x10000,
        dim <= 0x10000,
        bucket < NB,
        w@.len() == dim * NB,
        feats_in(feats@, base as int, dim as int),
        0 <= n0,
        n0 + feats@.len() <= 0x4000_0000,
        -n0 * 0x8000_0000 <= start <= n0 * 0x8000_0000,
    ensures
        s == start + feat_sum(psqt_col(w@, base as int, bucket as int), feats@),
        -(n0 + feats@.len()) * 0x8000_0000 <= s <= (n0 + feats@.len()) * 0x8000_0000,
{
    let mut s = start;
    let mut i: usize = 0;
    while i < feats.len()
        invariant
            i <= feats@.len(),
            base <= 0x10000,
            dim <= 0x10000,
            bucket < NB,
            w@.len() == dim * NB,
            feats_in(feats@, base as int, dim as int),
            0 <= n0,
            n0 + feats@.len() <= 0x4000_0000,
            s == start + feat_sum(psqt_col(w@, base as int, bucket as int), feats@.take(i as int)),
            -(n0 + i) * 0x8000_0000 <= s <= (n0 + i) * 0x8000_0000,
        decreases feats@.len() - i,
    {
        let f = feats[i];
        assert(base <= f < base + dim);
        let v = w[(f - base) * NB + bucket];
        proof {
            assert(feats@.take(i + 1).drop_last() =~= feats@.take(i as int));
        }
        s = s + v as i64;
        i = i + 1;
    }
    proof {
        assert(feats@.take(feats@.len() as int) =~= feats@);
    }
    s
}

/// The PSQT value of a side in `bucket`: its pieces, threats and pawn pairs
/// all count.
pub fn psqt_de(net: &RedeSf, feats: &Feats, bucket: usize) -> (s: i64)
    requires
        sf_dims(*net),
        feats.ok(),
        bucket < NB,
    ensures
        s == psqt_spec(*net, *feats, bucket as int),
        -0x2000_0000_0000_0000 <= s <= 0x2000_0000_0000_0000,
{
    let np = feats.pieces.len();
    let nt = feats.threats.len();
    let s1 = soma_psqt(&net.ft_piece_psqt, &feats.pieces, 0, PIECE_DIM, bucket, 0, Ghost(0));
    let s2 = soma_psqt(&net.ft_threat_psqt, &feats.threats, 0, THREAT_DIM, bucket, s1, Ghost(np as int));
    let s3 = soma_psqt(&net.ft_pair_psqt, &feats.pairs, PAIR_BASE, PAIR_DIM, bucket, s2, Ghost(np + nt));
    s3
}

/// The output bucket for `n` pieces on the board: `(n - 1) / 4`, at most the last.
pub open spec fn sf_bucket_spec(n: int) -> int {
    if n <= 0 {
        0
    } else if (n - 1) / 4 > NB - 1 {
        NB - 1
    } else {
        (n - 1) / 4
    }
}

/// The output bucket of a position with occupancy `occ`.
pub fn sf_bucket(occ: Bitboard) -> (b: usize)
    ensures
        b == sf_bucket_spec(popcount(occ) as int),
        b < NB,
{
    let n = count(occ) as i32;
    let q = (n - 1) / 4;
    let top = NB as i32 - 1;
    let c = if q < 0 {
        0
    } else if q > top {
        top
    } else {
        q
    };
    c as usize
}

/// The accumulator value clipped to the range the activation reads.
pub open spec fn ft_clamp(v: int) -> int {
    if v < 0 {
        0
    } else if v > FT_MAX_VAL {
        FT_MAX_VAL as int
    } else {
        v
    }
}

/// The pairwise activation of two hidden units: the product of the clipped
/// values, over 512.
pub open spec fn pair_act(lo: int, hi: int) -> int {
    ft_clamp(lo) * ft_clamp(hi) / 512
}

/// The first layer's input: each side's accumulator (side to move first)
/// folded in half, unit `j` of the first half times unit `j` of the second.
pub open spec fn x_spec(a_stm: Seq<i16>, a_nstm: Seq<i16>) -> Seq<u8> {
    Seq::new(
        L1 as nat,
        |j: int|
            (if j < L1 / 2 {
                pair_act(a_stm[j] as int, a_stm[j + L1 / 2] as int)
            } else {
                pair_act(a_nstm[j - L1 / 2] as int, a_nstm[j] as int)
            }) as u8,
    )
}

/// Arithmetic right shifts as the activations take them: a floor division
/// for a non-negative value, negative for a negative one.
proof fn lemma_shifts(x: i32, y: i64)
    ensures
        x >= 0 ==> (x >> 6i32) == x / 64,
        x >= 0 ==> (x >> 7i32) == x / 128,
        x < 0 ==> (x >> 6i32) < 0,
        x < 0 ==> (x >> 7i32) < 0,
        y >= 0 ==> (y >> 19i64) == y / 524288,
        y >= 0 ==> (y >> 21i64) == y / 2097152,
{
    assert((x >= 0 ==> (x >> 6i32) == x / 64 && (x >> 7i32) == x / 128) && (x < 0 ==> (x >> 6i32) < 0 && (x
        >> 7i32) < 0)) by (bit_vector);
    assert(y >= 0 ==> (y >> 19i64) == y / 524288 && (y >> 21i64) == y / 2097152) by (bit_vector);
}

/// Appends the activation of one side's accumulator.
fn ativa_metade(acc: &Vec<i16>, x: &mut Vec<u8>)
    requires
        acc@.len() == L1,
        old(x)@.len() <= L1,
    ensures
        final(x)@.len() == old(x)@.len() + L1 / 2,
        final(x)@.subrange(0, old(x)@.len() as int) == old(x)@,
        forall|j: int|
            0 <= j < L1 / 2 ==> #[trigger] final(x)@[old(x)@.len() + j] == pair_act(acc@[j] as int, acc@[j + L1 / 2] as int),
{
    let half = L1 / 2;
    let ghost start = x@;
    let mut j: usize = 0;
    while j < half
        invariant
            half == L1 / 2,
            j <= half,
            acc@.len() == L1,
            start.len() <= L1,
            x@.len() == start.len() + j,
            x@.subrange(0, start.len() as int) == start,
            forall|i: int|
                0 <= i < j ==> #[trigger] x@[start.len() + i] == pair_act(acc@[i] as int, acc@[i + L1 / 2] as int),
        decreases half - j,
    {
        let lo = acc[j];
        let hi = acc[half + j];
        let s0: u16 = if lo < 0 {
            0
        } else if lo > FT_MAX_VAL {
            FT_MAX_VAL as u16
        } else {
            lo as u16
        };
        let s1: u16 = if hi < 0 {
            0
        } else if hi > FT_MAX_VAL {
            FT_MAX_VAL as u16
        } else {
            hi as u16
        };
        assert(s0 * s1 <= 65025) by (nonlinear_arith)
            requires
                s0 <= 255,
                s1 <= 255,
        ;
        let p: u16 = s0 * s1;
        proof {
            vstd::bits::lemma_u16_shr_is_div(p, 9);
            vstd::arithmetic::power2::lemma2_to64();
        }
        x.push((p >> 9u16) as u8);
        proof {
            assert(x@.subrange(0, start.len() as int) =~= start);
        }
        j = j + 1;
    }
}

/// The pairwise activation of both sides, the side to move first.
pub fn ativa_pares(acc_stm: &Vec<i16>, acc_nstm: &Vec<i16>) -> (x: Vec<u8>)
    requires
        acc_stm@.len() == L1,
        acc_nstm@.len() == L1,
    ensures
        x@ == x_spec(acc_stm@, acc_nstm@),
{
    let mut x: Vec<u8> = Vec::new();
    ativa_metade(acc_stm, &mut x);
    let ghost x1 = x@;
    ativa_metade(acc_nstm, &mut x);
    proof {
        assert forall|j: int| 0 <= j < L1 implies #[trigger] x@[j] == x_spec(acc_stm@, acc_nstm@)[j] by {
            if j < L1 / 2 {
                assert(x@.subrange(0, (L1 / 2) as int)[j] == x@[j]);
                assert(x@[j] == x1[j]);
                assert(x1[0 + j] == x1[j]);
            } else {
                assert(x@[L1 / 2 + (j - L1 / 2)] == x@[j]);
            }
        }
        assert(x@ =~= x_spec(acc_stm@, acc_nstm@));
    }
    x
}

/// SqrClippedReLU: the square over `2^(2 * wsb + 7)`, at most 127.
pub open spec fn clip_sq_spec(x: int, wsb: int) -> int {
    let v = x * x / (if wsb == 6 {
        524288int
    } else {
        2097152int
    });
    if v < 127 {
        v
    } else {
        127
    }
}

/// ClippedReLU: the value over `2^wsb`, clamped to `0..=127`.
pub open spec fn clip_lin_spec(x: int, wsb: int) -> int {
    if x < 0 {
        0
    } else {
        let v = x / (if wsb == 6 {
            64int
        } else {
            128int
        });
        if v > 127 {
            127
        } else {
            v
        }
    }
}

/// Both activations stay in `0..=127`.
proof fn lemma_clip_range(x: int, wsb: int)
    ensures
        0 <= clip_sq_spec(x, wsb) <= 127,
        0 <= clip_lin_spec(x, wsb) <= 127,
{
    assert(x * x >= 0) by (nonlinear_arith);
}

/// Every entry of the second layer's input is in `0..=127`.
proof fn lemma_c1_range(st: LayerStack, x: Seq<u8>)
    ensures
        forall|j: int| 0 <= j < 2 * L2 ==> 0 <= #[trigger] c1_seq(st, x)[j] <= 127,
{
    assert forall|j: int| 0 <= j < 2 * L2 implies 0 <= #[trigger] c1_seq(st, x)[j] <= 127 by {
        if j < L2 {
            lemma_clip_range(fc0_out(st, x, j), 7);
        } else {
            lemma_clip_range(fc0_out(st, x, j - L2), 7);
        }
    }
}

/// Every entry of the last layer's input is in `0..=127`.
proof fn lemma_c2_range(st: LayerStack, x: Seq<u8>)
    ensures
        forall|j: int| 0 <= j < 2 * L2 + 2 * L3 ==> 0 <= #[trigger] c2_seq(st, x)[j] <= 127,
{
    lemma_c1_range(st, x);
    assert forall|j: int| 0 <= j < 2 * L2 + 2 * L3 implies 0 <= #[trigger] c2_seq(st, x)[j] <= 127 by {
        if j < 2 * L2 {
            assert(c2_seq(st, x)[j] == c1_seq(st, x)[j]);
        } else if j < 2 * L2 + L3 {
            lemma_clip_range(fc1_out(st, x, j - 2 * L2), 6);
        } else {
            lemma_clip_range(fc1_out(st, x, j - 2 * L2 - L3), 6);
        }
    }
}

fn clipped_sq(x: i32, weight_scale_bits_local: u32) -> (r: i32)
    requires
        weight_scale_bits_local == 6 || weight_scale_bits_local == 7,
    ensures
        r == clip_sq_spec(x as int, weight_scale_bits_local as int),
        0 <= r <= 127,
{
    let shift = 2 * weight_scale_bits_local + 7;
    let xx = x as i64;
    assert(0 <= xx * xx <= 0x4000_0000_0000_0000) by (nonlinear_arith)
        requires
            -0x8000_0000 <= xx <= 0x7fff_ffff,
    ;
    let sq = xx * xx;
    let v = sq >> (shift as i64);
    proof {
        lemma_shifts(0, sq);
    }
    if v < 127 {
        v as i32
    } else {
        127
    }
}

fn clipped_lin(x: i32, weight_scale_bits_local: u32) -> (r: i32)
    requires
        weight_scale_bits_local == 6 || weight_scale_bits_local == 7,
    ensures
        r == clip_lin_spec(x as int, weight_scale_bits_local as int),
        0 <= r <= 127,
{
    let v = x >> (weight_scale_bits_local as i32);
    proof {
        lemma_shifts(x, 0);
    }
    if v < 0 {
        0
    } else if v > 127 {
        127
    } else {
        v
    }
}

/// The dot product of the first `n` entries of `x` and `w`.
pub open spec fn dot(x: Seq<u8>, w: Seq<i8>, n: int) -> int
    decreases n,
{
    if n <= 0 {
        0
    } else {
        dot(x, w, n - 1) + x[n - 1] * w[n - 1]
    }
}

/// The dot product of the first `n` entries of `c` and `w`.
pub open spec fn dot32(c: Seq<i32>, w: Seq<i8>, n: int) -> int
    decreases n,
{
    if n <= 0 {
        0
    } else {
        dot32(c, w, n - 1) + c[n - 1] * w[n - 1]
    }
}

/// `v` fits in an `i32`.
pub open spec fn in_i32(v: int) -> bool {
    i32::MIN <= v <= i32::MAX
}

proof fn lemma_dot_bound(x: Seq<u8>, w: Seq<i8>, n: int)
    requires
        0 <= n <= x.len(),
        n <= w.len(),
    ensures
        -n * 32640 <= dot(x, w, n) <= n * 32640,
    decreases n,
{
    if n > 0 {
        lemma_dot_bound(x, w, n - 1);
        let a = x[n - 1];
        let b = w[n - 1];
        assert(-32640 <= a * b <= 32640) by (nonlinear_arith)
            requires
                0 <= a <= 255,
                -128 <= b <= 127,
        ;
    }
}

proof fn lemma_dot32_bound(c: Seq<i32>, w: Seq<i8>, n: int)
    requires
        0 <= n <= c.len(),
        n <= w.len(),
        forall|i: int| 0 <= i < n ==> 0 <= #[trigger] c[i] <= 127,
    ensures
        -n * 16256 <= dot32(c, w, n) <= n * 16256,
    decreases n,
{
    if n > 0 {
        lemma_dot32_bound(c, w, n - 1);
        let a = c[n - 1];
        let b = w[n - 1];
        assert(-16256 <= a * b <= 16256) by (nonlinear_arith)
            requires
                0 <= a <= 127,
                -128 <= b <= 127,
        ;
    }
}

/// The sum of the products of `x` and `w`, entry by entry.
fn produto_u8_i8(x: &[u8], w: &[i8]) -> (r: i32)
    requires
        x@.len() == w@.len(),
        forall|k: int| 0 <= k <= x@.len() ==> in_i32(#[trigger] dot(x@, w@, k)),
    ensures
        r == dot(x@, w@, x@.len() as int),
{
    let mut acc: i32 = 0;
    let mut i: usize = 0;
    while i < x.len()
        invariant
            x@.len() == w@.len(),
            i <= x@.len(),
            forall|k: int| 0 <= k <= x@.len() ==> in_i32(#[trigger] dot(x@, w@, k)),
            acc == dot(x@, w@, i as int),
        decreases x@.len() - i,
    {
        assert(in_i32(dot(x@, w@, i + 1)));
        let a = x[i] as i32;
        let b = w[i] as i32;
        assert(-32640 <= a * b <= 32640) by (nonlinear_arith)
            requires
                0 <= a <= 255,
                -128 <= b <= 127,
        ;
        acc = acc + a * b;
        i = i + 1;
    }
    acc
}

/// Output `o` of the first dense layer of a stack, before activation.
pub open spec fn fc0_out(st: LayerStack, x: Seq<u8>, o: int) -> int {
    dot(x, st.fc0w@.subrange(o * L1, o * L1 + L1), L1 as int) + st.fc0b@[o]
}

/// The second layer's input: the squared, then the linear activations of
/// the first layer's outputs, both at one more bit of weight scale.
pub open spec fn c1_seq(st: LayerStack, x: Seq<u8>) -> Seq<i32> {
    Seq::new(
        (2 * L2) as nat,
        |i: int|
            (if i < L2 {
                clip_sq_spec(fc0_out(st, x, i), 7)
            } else {
                clip_lin_spec(fc0_out(st, x, i - L2), 7)
            }) as i32,
    )
}

/// Output `o` of the second dense layer.
pub open spec fn fc1_out(st: LayerStack, x: Seq<u8>, o: int) -> int {
    dot32(c1_seq(st, x), st.fc1w@.subrange(o * (2 * L2), o * (2 * L2) + 2 * L2), 2 * L2) + st.fc1b@[o]
}

/// The last layer's input: the second layer's input, then the squared and
/// the linear activations of the second layer's outputs.
pub open spec fn c2_seq(st: LayerStack, x: Seq<u8>) -> Seq<i32> {
    c1_seq(st, x) + Seq::new(L3 as nat, |o: int| clip_sq_spec(fc1_out(st, x, o), 6) as i32) + Seq::new(
        L3 as nat,
        |o: int| clip_lin_spec(fc1_out(st, x, o), 6) as i32,
    )
}

/// The last layer's output.
pub open spec fn fc2_out(st: LayerStack, x: Seq<u8>) -> int {
    dot32(c2_seq(st, x), st.fc2w@, 2 * L2 + 2 * L3) + st.fc2b
}

/// The stack's output: the last layer plus the skip, the difference of the
/// first layer's last two outputs.
pub open spec fn fwd_spec(st: LayerStack, x: Seq<u8>) -> int {
    fc2_out(st, x) + (fc0_out(st, x, L2 - 2) - fc0_out(st, x, L2 - 1))
}

/// Every sum the stack forms fits in an `i32`.
pub open spec fn forward_fits(st: LayerStack, x: Seq<u8>) -> bool {
    &&& forall|o: int| 0 <= o < L2 ==> in_i32(#[trigger] fc0_out(st, x, o))
    &&& forall|o: int| 0 <= o < L3 ==> in_i32(#[trigger] fc1_out(st, x, o))
    &&& in_i32(fc2_out(st, x))
    &&& in_i32(fc0_out(st, x, L2 - 2) - fc0_out(st, x, L2 - 1))
    &&& in_i32(fwd_spec(st, x))
}

/// The output of a layer stack for the first layer's input `x`.
pub fn forward(st: &LayerStack, x: &Vec<u8>) -> (out: i64)
    requires
        stack_dims(*st),
        x@.len() == L1,
        forward_fits(*st, x@),
    ensures
        out == fwd_spec(*st, x@),
{
    match forward_checked(st, x) {
        Some(v) => v,
        None => 0,
    }
}

/// The output of a layer stack for the first layer's input `x`, or `None`
/// where one of the sums it forms does not fit in an `i32`.
pub fn forward_checked(st: &LayerStack, x: &Vec<u8>) -> (r: Option<i64>)
    requires
        stack_dims(*st),
        x@.len() == L1,
    ensures
        r is Some <==> forward_fits(*st, x@),
        r matches Some(v) ==> v == fwd_spec(*st, x@),
{
    let xs = x.as_slice();
    let mut fc0: Vec<i32> = Vec::new();
    let mut o: usize = 0;
    while o < L2
        invariant
            o <= L2,
            stack_dims(*st),
            x@.len() == L1,
            xs@ == x@,
            fc0@.len() == o,
            forall|j: int| 0 <= j < o ==> #[trigger] fc0@[j] == fc0_out(*st, x@, j),
            forall|j: int| 0 <= j < o ==> in_i32(#[trigger] fc0_out(*st, x@, j)),
        decreases L2 - o,
    {
        let row = vstd::slice::slice_subrange(st.fc0w.as_slice(), o * L1, (o + 1) * L1);
        proof {
            assert forall|k: int| 0 <= k <= xs@.len() implies in_i32(#[trigger] dot(xs@, row@, k)) by {
                lemma_dot_bound(xs@, row@, k);
            }
        }
        let p = produto_u8_i8(xs, row);
        let v = p as i64 + st.fc0b[o] as i64;
        assert(v == fc0_out(*st, x@, o as int));
        if v < i32::MIN as i64 || v > i32::MAX as i64 {
            return None;
        }
        fc0.push(v as i32);
        o = o + 1;
    }
    // The first layer's activations take one more bit of weight scale.
    let wsb0: u32 = 7;
    let mut concat1: Vec<i32> = Vec::new();
    let mut k: usize = 0;
    while k < 2 * L2
        invariant
            k <= 2 * L2,
            concat1@.len() == k,
        decreases 2 * L2 - k,
    {
        concat1.push(0);
        k = k + 1;
    }
    o = 0;
    while o < L2
        invariant
            o <= L2,
            wsb0 == 7,
            fc0@.len() == L2,
            forall|j: int| 0 <= j < L2 ==> #[trigger] fc0@[j] == fc0_out(*st, x@, j),
            concat1@.len() == 2 * L2,
            forall|j: int| 0 <= j < o ==> #[trigger] concat1@[j] == c1_seq(*st, x@)[j],
            forall|j: int| 0 <= j < o ==> #[trigger] concat1@[L2 + j] == c1_seq(*st, x@)[L2 + j],
        decreases L2 - o,
    {
        let a = clipped_sq(fc0[o], wsb0);
        let b = clipped_lin(fc0[o], wsb0);
        concat1.set(o, a);
        concat1.set(L2 + o, b);
        o = o + 1;
    }
    proof {
        assert forall|j: int| 0 <= j < 2 * L2 implies #[trigger] concat1@[j] == c1_seq(*st, x@)[j] by {
            if j >= L2 {
                assert(concat1@[L2 + (j - L2)] == c1_seq(*st, x@)[L2 + (j - L2)]);
            }
        }
        assert(concat1@ =~= c1_seq(*st, x@));
        lemma_c1_range(*st, x@);
    }
    assert forall|j: int| 0 <= j < L2 implies in_i32(#[trigger] fc0_out(*st, x@, j)) by {
        assert(fc0@[j] == fc0_out(*st, x@, j));
    }
    let mut fc1: Vec<i32> = Vec::new();
    o = 0;
    while o < L3
        invariant
            o <= L3,
            stack_dims(*st),
            forall|j: int| 0 <= j < L2 ==> in_i32(#[trigger] fc0_out(*st, x@, j)),
            forall|j: int| 0 <= j < o ==> in_i32(#[trigger] fc1_out(*st, x@, j)),
            fc0@.len() == L2,
            forall|j: int| 0 <= j < L2 ==> #[trigger] fc0@[j] == fc0_out(*st, x@, j),
            concat1@ == c1_seq(*st, x@),
            forall|j: int| 0 <= j < 2 * L2 ==> 0 <= #[trigger] concat1@[j] <= 127,
            fc1@.len() == o,
            forall|j: int| 0 <= j < o ==> #[trigger] fc1@[j] == fc1_out(*st, x@, j),
        decreases L3 - o,
    {
        let ghost row = st.fc1w@.subrange(o * (2 * L2), o * (2 * L2) + 2 * L2);
        assert(o * (2 * L2) + 2 * L2 <= 2 * L2 * L3) by (nonlinear_arith)
            requires
                o < L3,
        ;
        let mut sum: i64 = 0;
        let mut i: usize = 0;
        while i < 2 * L2
            invariant
                i <= 2 * L2,
                o < L3,
                stack_dims(*st),
                concat1@.len() == 2 * L2,
                forall|j: int| 0 <= j < 2 * L2 ==> 0 <= #[trigger] concat1@[j] <= 127,
                o * (2 * L2) + 2 * L2 <= 2 * L2 * L3,
                row == st.fc1w@.subrange(o * (2 * L2), o * (2 * L2) + 2 * L2),
                sum == dot32(concat1@, row, i as int),
                -i * 16256 <= sum <= i * 16256,
            decreases 2 * L2 - i,
        {
            let a = concat1[i] as i64;
            let b = st.fc1w[o * (2 * L2) + i] as i64;
            assert(-16256 <= a * b <= 16256) by (nonlinear_arith)
                requires
                    0 <= a <= 127,
                    -128 <= b <= 127,
            ;
            assert(row[i as int] == b);
            sum = sum + a * b;
            i = i + 1;
        }
        let v = sum + st.fc1b[o] as i64;
        assert(v == fc1_out(*st, x@, o as int));
        if v < i32::MIN as i64 || v > i32::MAX as i64 {
            return None;
        }
        fc1.push(v as i32);
        o = o + 1;
    }
    // The second layer's activations take the plain weight scale.
    let wsb1: u32 = 6;
    let mut concat2: Vec<i32> = Vec::new();
    k = 0;
    while k < 2 * L2
        invariant
            k <= 2 * L2,
            concat1@.len() == 2 * L2,
            concat2@ == concat1@.take(k as int),
        decreases 2 * L2 - k,
    {
        concat2.push(concat1[k]);
        proof {
            assert(concat2@ =~= concat1@.take(k + 1));
        }
        k = k + 1;
    }
    while k < 2 * L2 + 2 * L3
        invariant
            2 * L2 <= k <= 2 * L2 + 2 * L3,
            concat2@.len() == k,
            concat2@.take(2 * L2) == concat1@,
        decreases 2 * L2 + 2 * L3 - k,
    {
        concat2.push(0);
        proof {
            assert(concat2@.take(2 * L2) =~= concat2@.drop_last().take(2 * L2));
        }
        k = k + 1;
    }
    o = 0;
    while o < L3
        invariant
            o <= L3,
            wsb1 == 6,
            fc1@.len() == L3,
            forall|j: int| 0 <= j < L3 ==> #[trigger] fc1@[j] == fc1_out(*st, x@, j),
            concat2@.len() == 2 * L2 + 2 * L3,
            concat2@.take(2 * L2) == c1_seq(*st, x@),
            forall|j: int| 0 <= j < o ==> #[trigger] concat2@[2 * L2 + j] == c2_seq(*st, x@)[2 * L2 + j],
            forall|j: int| 0 <= j < o ==> #[trigger] concat2@[2 * L2 + L3 + j] == c2_seq(*st, x@)[2 * L2 + L3 + j],
        decreases L3 - o,
    {
        let a = clipped_sq(fc1[o], wsb1);
        let b = clipped_lin(fc1[o], wsb1);
        let ghost before = concat2@;
        concat2.set(2 * L2 + o, a);
        concat2.set(2 * L2 + L3 + o, b);
        proof {
            assert(concat2@.take(2 * L2) =~= before.take(2 * L2));
        }
        o = o + 1;
    }
    proof {
        let c2 = c2_seq(*st, x@);
        assert forall|j: int| 0 <= j < 2 * L2 + 2 * L3 implies #[trigger] concat2@[j] == c2[j] by {
            if j < 2 * L2 {
                assert(concat2@.take(2 * L2)[j] == concat2@[j]);
            } else if j < 2 * L2 + L3 {
                assert(concat2@[2 * L2 + (j - 2 * L2)] == c2[2 * L2 + (j - 2 * L2)]);
            } else {
                assert(concat2@[2 * L2 + L3 + (j - 2 * L2 - L3)] == c2[2 * L2 + L3 + (j - 2 * L2 - L3)]);
            }
        }
        assert(concat2@ =~= c2);
        lemma_c2_range(*st, x@);
    }
    let mut sum: i64 = 0;
    let mut i: usize = 0;
    while i < 2 * L2 + 2 * L3
        invariant
            i <= 2 * L2 + 2 * L3,
            stack_dims(*st),
            concat2@ == c2_seq(*st, x@),
            concat2@.len() == 2 * L2 + 2 * L3,
            forall|j: int| 0 <= j < 2 * L2 + 2 * L3 ==> 0 <= #[trigger] concat2@[j] <= 127,
            sum == dot32(concat2@, st.fc2w@, i as int),
            -i * 16256 <= sum <= i * 16256,
        decreases 2 * L2 + 2 * L3 - i,
    {
        let a = concat2[i] as i64;
        let b = st.fc2w[i] as i64;
        assert(-16256 <= a * b <= 16256) by (nonlinear_arith)
            requires
                0 <= a <= 127,
                -128 <= b <= 127,
        ;
        sum = sum + a * b;
        i = i + 1;
    }
    let fc2 = sum + st.fc2b as i64;
    if fc2 < i32::MIN as i64 || fc2 > i32::MAX as i64 {
        return None;
    }
    let skip_0 = fc0[L2 - 2] as i64 - fc0[L2 - 1] as i64;
    if skip_0 < i32::MIN as i64 || skip_0 > i32::MAX as i64 {
        return None;
    }
    let total = fc2 + skip_0;
    if total < i32::MIN as i64 || total > i32::MAX as i64 {
        return None;
    }
    Some(total)
}

/// The score from the two sides' PSQT values and the stack's output: half
/// the PSQT difference, plus the stack's output at 600/16384 of its scale,
/// both over the output scale; then `fator` hundredths of the engine's scale
/// (100 is the network's own).
pub open spec fn score_spec(psqt_s: int, psqt_n: int, fwd: int, zera_psqt: bool, fator: int) -> int {
    let psqt = if zera_psqt {
        0
    } else {
        div_toward_zero(psqt_s - psqt_n, 2)
    };
    let positional = div_toward_zero(fwd * 9600, 16384);
    let bruto = (div_toward_zero(psqt, OUTPUT_SCALE as int) + div_toward_zero(positional, OUTPUT_SCALE as int)) as i32;
    if fator == 100 {
        bruto as int
    } else {
        div_toward_zero(bruto * 100, fator) as i32 as int
    }
}

/// The score from the PSQT values of the side to move and of the other side
/// and the stack's output; `zera_psqt` leaves the PSQT out.
pub fn saida(psqt_s: i64, psqt_n: i64, fwd_out: i64, zera_psqt: bool, fator: i32) -> (r: i32)
    requires
        -0x2000_0000_0000_0000 <= psqt_s <= 0x2000_0000_0000_0000,
        -0x2000_0000_0000_0000 <= psqt_n <= 0x2000_0000_0000_0000,
        in_i32(fwd_out as int),
        20 <= fator <= 500,
    ensures
        r == score_spec(psqt_s as int, psqt_n as int, fwd_out as int, zera_psqt, fator as int),
{
    let psqt: i64 = if zera_psqt {
        0
    } else {
        (psqt_s - psqt_n) / 2
    };
    let multiplier: i64 = 600 * OUTPUT_SCALE;
    // The hidden layer's one (128) at the weight scale (2^6), twice.
    let denominator: i64 = 128 * 64 * 2;
    let positional = fwd_out * multiplier / denominator;
    #[verifier::truncate]
    let bruto = ((psqt / OUTPUT_SCALE) + (positional / OUTPUT_SCALE)) as i32;
    if fator == 100 {
        bruto
    } else {
        #[verifier::truncate]
        let r = (bruto as i64 * 100 / fator as i64) as i32;
        r
    }
}

/// A side's accumulator, unit by unit.
pub open spec fn acc_seq(net: RedeSf, f: Feats) -> Seq<i16> {
    Seq::new(L1 as nat, |k: int| acc_spec(net, f, k) as i16)
}

/// The first layer's input for the sides with inputs `us` (to move) and `them`.
pub open spec fn input_spec(net: RedeSf, us: Feats, them: Feats) -> Seq<u8> {
    x_spec(acc_seq(net, us), acc_seq(net, them))
}

/// The score the network gives a position whose side to move has inputs
/// `us`, the other side `them`, with occupancy `occ`.
pub open spec fn eval_spec(net: RedeSf, us: Feats, them: Feats, occ: u64, zera_psqt: bool, fator: int) -> int {
    let b = sf_bucket_spec(popcount(occ) as int);
    score_spec(
        psqt_spec(net, us, b),
        psqt_spec(net, them, b),
        fwd_spec(net.stacks@[b], input_spec(net, us, them)),
        zera_psqt,
        fator,
    )
}

/// The network's score for the side to move, whose active inputs are `us`,
/// the other side's `them`, on a board with occupancy `occ`: both
/// accumulators, the bucket of the piece count, the PSQT of both sides and
/// the bucket's layer stack; `zera_psqt` leaves the PSQT out and `fator` is
/// the engine's scale in hundredths.
pub fn evaluate(net: &RedeSf, us: &Feats, them: &Feats, occ: Bitboard, zera_psqt: bool, fator: i32) -> (r: i32)
    requires
        sf_dims(*net),
        us.ok(),
        them.ok(),
        20 <= fator <= 500,
        forward_fits(net.stacks@[sf_bucket_spec(popcount(occ) as int)], input_spec(*net, *us, *them)),
    ensures
        r == eval_spec(*net, *us, *them, occ, zera_psqt, fator as int),
{
    let acc_us = build_acc(net, us);
    let acc_them = build_acc(net, them);
    let bucket = sf_bucket(occ);
    let ps = psqt_de(net, us, bucket);
    let pn = psqt_de(net, them, bucket);
    let x = ativa_pares(&acc_us, &acc_them);
    proof {
        assert(acc_us@ =~= acc_seq(*net, *us));
        assert(acc_them@ =~= acc_seq(*net, *them));
        assert(stack_dims(net.stacks@[bucket as int]));
    }
    let fwd = forward(&net.stacks[bucket], &x);
    saida(ps, pn, fwd, zera_psqt, fator)
}

/// The score of `evaluate`, or `None` where the network's sums for these
/// inputs do not fit in an `i32`: what a network read at run time is
/// evaluated with.
pub fn evaluate_checked(net: &RedeSf, us: &Feats, them: &Feats, occ: Bitboard, zera_psqt: bool, fator: i32) -> (r: Option<i32>)
    requires
        sf_dims(*net),
        us.ok(),
        them.ok(),
        20 <= fator <= 500,
    ensures
        r is Some <==> forward_fits(net.stacks@[sf_bucket_spec(popcount(occ) as int)], input_spec(*net, *us, *them)),
        r matches Some(v) ==> v == eval_spec(*net, *us, *them, occ, zera_psqt, fator as int),
{
    let acc_us = build_acc(net, us);
    let acc_them = build_acc(net, them);
    let bucket = sf_bucket(occ);
    let ps = psqt_de(net, us, bucket);
    let pn = psqt_de(net, them, bucket);
    let x = ativa_pares(&acc_us, &acc_them);
    proof {
        assert(acc_us@ =~= acc_seq(*net, *us));
        assert(acc_them@ =~= acc_seq(*net, *them));
        assert(stack_dims(net.stacks@[bucket as int]));
    }
    match forward_checked(&net.stacks[bucket], &x) {
        Some(fwd) => Some(saida(ps, pn, fwd, zera_psqt, fator)),
        None => None,
    }
}

/// The inputs numbered in one range: pieces from 0, then threats, then pawn pairs.
pub const U_THREAT: usize = PIECE_DIM;

/// Where the pawn pairs start in the one numbering of all inputs.
pub const U_PAIR: usize = PIECE_DIM + THREAT_DIM;

/// Weight `k` of the row of input `u` in the one numbering of all inputs.
pub open spec fn unified_row(net: RedeSf, u: int, k: int) -> int {
    if u < U_THREAT {
        net.ft_piece_w@[u * L1 + k] as int
    } else if u < U_PAIR {
        net.ft_threat_w@[(u - U_THREAT) * L1 + k] as int
    } else {
        net.ft_pair_w@[(u - U_PAIR) * L1 + k] as int
    }
}

/// One weight of one input's row, whichever family `u` falls in.
pub fn linha_peso(net: &RedeSf, u: usize, i: usize) -> (r: i16)
    requires
        sf_dims(*net),
        u < U_PAIR + PAIR_DIM,
        i < L1,
    ensures
        r == unified_row(*net, u as int, i as int),
{
    if u < U_THREAT {
        net.ft_piece_w[u * L1 + i]
    } else if u < U_PAIR {
        net.ft_threat_w[(u - U_THREAT) * L1 + i] as i16
    } else {
        net.ft_pair_w[(u - U_PAIR) * L1 + i] as i16
    }
}

/// Adds (`somar`) or takes away the row of input `u` from `acc`, wrapping.
pub fn aplica_linha(net: &RedeSf, acc: &mut Vec<i16>, u: usize, somar: bool)
    requires
        sf_dims(*net),
        old(acc)@.len() == L1,
        u < U_PAIR + PAIR_DIM,
    ensures
        final(acc)@.len() == L1,
        forall|k: int|
            0 <= k < L1 ==> #[trigger] final(acc)@[k] == (if somar {
                wrap16(old(acc)@[k] + unified_row(*net, u as int, k))
            } else {
                wrap16(old(acc)@[k] - unified_row(*net, u as int, k))
            }),
{
    let ghost start = acc@;
    let mut k: usize = 0;
    while k < L1
        invariant
            sf_dims(*net),
            u < U_PAIR + PAIR_DIM,
            k <= L1,
            acc@.len() == L1,
            start.len() == L1,
            forall|j: int|
                0 <= j < k ==> #[trigger] acc@[j] == (if somar {
                    wrap16(start[j] + unified_row(*net, u as int, j))
                } else {
                    wrap16(start[j] - unified_row(*net, u as int, j))
                }),
            forall|j: int| k <= j < L1 ==> #[trigger] acc@[j] == start[j],
        decreases L1 - k,
    {
        let w = linha_peso(net, u, k);
        proof {
            lemma_wrapping(acc@[k as int], w);
        }
        let v = if somar {
            acc[k].wrapping_add(w)
        } else {
            acc[k].wrapping_sub(w)
        };
        acc.set(k, v);
        k = k + 1;
    }
}

/// What the feature lists of a side hold once input `u` of the one
/// numbering is added to its family.
pub open spec fn feats_push(f: Seq<usize>, t: Seq<usize>, q: Seq<usize>, u: int) -> (Seq<usize>, Seq<usize>, Seq<usize>) {
    if u < U_THREAT {
        (f.push(u as usize), t, q)
    } else if u < U_PAIR {
        (f, t.push((u - U_THREAT) as usize), q)
    } else {
        (f, t, q.push((u - U_PAIR + PAIR_BASE) as usize))
    }
}

/// Adding input `u` (of the one numbering) to the inputs of a side moves
/// its accumulator by `u`'s row, as `aplica_linha` adding it does; taking
/// the row away again gives the accumulator of the inputs without `u`.
pub proof fn lemma_aplica_linha_adds_input(net: RedeSf, p: Seq<usize>, t: Seq<usize>, q: Seq<usize>, u: int, k: int)
    requires
        0 <= u < U_PAIR + PAIR_DIM,
        0 <= k < L1,
    ensures
        acc_of(net, feats_push(p, t, q, u).0, feats_push(p, t, q, u).1, feats_push(p, t, q, u).2, k) == wrap16(
            acc_of(net, p, t, q, k) + unified_row(net, u, k),
        ),
        acc_of(net, p, t, q, k) == wrap16(
            acc_of(net, feats_push(p, t, q, u).0, feats_push(p, t, q, u).1, feats_push(p, t, q, u).2, k)
                - unified_row(net, u, k),
        ),
{
    let s = net.ft_bias@[k] + feat_sum(col16(net.ft_piece_w@, 0, k), p) + feat_sum(col8(net.ft_threat_w@, 0, k), t)
        + feat_sum(col8(net.ft_pair_w@, PAIR_BASE as int, k), q);
    let r = unified_row(net, u, k);
    if u < U_THREAT {
        assert(p.push(u as usize).drop_last() =~= p);
    } else if u < U_PAIR {
        assert(t.push((u - U_THREAT) as usize).drop_last() =~= t);
    } else {
        assert(q.push((u - U_PAIR + PAIR_BASE) as usize).drop_last() =~= q);
    }
    assert(acc_of(net, feats_push(p, t, q, u).0, feats_push(p, t, q, u).1, feats_push(p, t, q, u).2, k) == wrap16(s + r));
    lemma_wrap16(s, r);
    lemma_wrap16(s + r, -r);
    lemma_wrap16(s, 0);
}

/// The network's scale as the engine keeps it: `v` hundredths, clamped to
/// `20..=500`.
pub fn set_eval_factor(v: i32) -> (r: i32)
    ensures
        r == (if v < 20 {
            20
        } else if v > 500 {
            500
        } else {
            v
        }),
{
    if v < 20 {
        20
    } else if v > 500 {
        500
    } else {
        v
    }
}

/// The scale in effect: the one kept, when one is (`kept > 0`); otherwise the
/// start-up setting when there is one in `20..=500`; otherwise 100, the
/// network's own scale.
pub fn eval_factor(kept: i32, setting: Option<i32>) -> (r: i32)
    ensures
        r == (if kept > 0 {
            kept
        } else {
            match setting {
                Some(d) => if 20 <= d <= 500 {
                    d
                } else {
                    100
                },
                None => 100,
            }
        }),
        kept <= 0 ==> 20 <= r <= 500,
{
    if kept > 0 {
        return kept;
    }
    match setting {
        Some(d) => if 20 <= d && d <= 500 {
            d
        } else {
            100
        },
        None => 100,
    }
}

} // verus!
