//! An opening book of moves played in identical positions: records of
//! (Zobrist key, move, count), sorted by key, looked up by binary search.
//!
//! File layout: the 8-byte magic `KESTBK01`, the record count as a big-endian
//! u64, then 14-byte records: key u64 BE, move u16 BE, count u32 BE.
use vstd::prelude::*;
use crate::moves::Move;
use crate::types::{PieceType, Square};

verus! {

pub const HDR: usize = 16;
pub const RECSZ: usize = 14;

/// The promotion code of a book move: 1 knight, 2 bishop, 3 rook, 4 queen, 0 none.
pub open spec fn promo_code(p: Option<PieceType>) -> int {
    match p {
        Some(PieceType::Knight) => 1,
        Some(PieceType::Bishop) => 2,
        Some(PieceType::Rook) => 3,
        Some(PieceType::Queen) => 4,
        _ => 0,
    }
}

pub open spec fn promo_of_code(c: int) -> Option<PieceType> {
    if c == 1 {
        Some(PieceType::Knight)
    } else if c == 2 {
        Some(PieceType::Bishop)
    } else if c == 3 {
        Some(PieceType::Rook)
    } else if c == 4 {
        Some(PieceType::Queen)
    } else {
        None
    }
}

proof fn lemma_pack(from: u16, to: u16, promo: u16)
    by (bit_vector)
    requires
        from < 64,
        to < 64,
        promo < 8,
    ensures
        (from | (to << 6u16) | (promo << 12u16)) & 0x3Fu16 == from,
        ((from | (to << 6u16) | (promo << 12u16)) >> 6u16) & 0x3Fu16 == to,
        ((from | (to << 6u16) | (promo << 12u16)) >> 12u16) & 0x7u16 == promo,
{
}

proof fn lemma_unpack(m: u16)
    by (bit_vector)
    ensures
        m & 0x3Fu16 < 64,
        (m >> 6u16) & 0x3Fu16 < 64,
        (m >> 12u16) & 0x7u16 < 8,
{
}

/// The 16-bit book code of a move: from in bits 0-5, to in bits 6-11, promotion in 12-14.
pub fn encode_move(mv: &Move) -> (r: u16)
    ensures
        r == (mv.from as u16) | ((mv.to as u16) << 6u16) | ((promo_code(mv.promotion) as u16) << 12u16),
        mv.from < 64 && mv.to < 64 ==> r & 0x3Fu16 == mv.from,
        mv.from < 64 && mv.to < 64 ==> (r >> 6u16) & 0x3Fu16 == mv.to,
        mv.from < 64 && mv.to < 64 ==> ((r >> 12u16) & 0x7u16) as int == promo_code(mv.promotion),
{
    let promo: u16 = match mv.promotion {
        Some(PieceType::Knight) => 1,
        Some(PieceType::Bishop) => 2,
        Some(PieceType::Rook) => 3,
        Some(PieceType::Queen) => 4,
        _ => 0,
    };
    proof {
        if mv.from < 64 && mv.to < 64 {
            lemma_pack(mv.from as u16, mv.to as u16, promo);
        }
    }
    (mv.from as u16) | ((mv.to as u16) << 6) | (promo << 12)
}

pub fn decode_move16(m16: u16) -> (r: (Square, Square, Option<PieceType>))
    ensures
        r.0 == m16 & 0x3Fu16,
        r.1 == (m16 >> 6u16) & 0x3Fu16,
        r.2 == promo_of_code(((m16 >> 12u16) & 0x7u16) as int),
        r.0 < 64,
        r.1 < 64,
{
    proof {
        lemma_unpack(m16);
    }
    let from = (m16 & 0x3F) as Square;
    let to = ((m16 >> 6) & 0x3F) as Square;
    let promo = match (m16 >> 12) & 0x7 {
        1 => Some(PieceType::Knight),
        2 => Some(PieceType::Bishop),
        3 => Some(PieceType::Rook),
        4 => Some(PieceType::Queen),
        _ => None,
    };
    (from, to, promo)
}

/// Decoding an encoded move gives back its squares, and its promotion piece
/// when it promotes to a knight, bishop, rook or queen.
pub proof fn lemma_decode_encode(mv: Move, code: u16, decoded: (Square, Square, Option<PieceType>))
    requires
        mv.from < 64,
        mv.to < 64,
        code == (mv.from as u16) | ((mv.to as u16) << 6u16) | ((promo_code(mv.promotion) as u16) << 12u16),
        decoded.0 == code & 0x3Fu16,
        decoded.1 == (code >> 6u16) & 0x3Fu16,
        decoded.2 == promo_of_code(((code >> 12u16) & 0x7u16) as int),
    ensures
        decoded.0 == mv.from,
        decoded.1 == mv.to,
        decoded.2 == (match mv.promotion {
            Some(PieceType::Pawn) | Some(PieceType::King) => None,
            p => p,
        }),
{
    lemma_pack(mv.from as u16, mv.to as u16, promo_code(mv.promotion) as u16);
}

/// 256 to the power `k`: one more than the largest `k`-byte number.
pub open spec fn byte_bound(k: nat) -> int
    decreases k,
{
    if k == 0 {
        1
    } else {
        256 * byte_bound((k - 1) as nat)
    }
}

/// The big-endian number in `s`.
pub open spec fn be_value(s: Seq<u8>) -> int
    decreases s.len(),
{
    if s.len() == 0 {
        0
    } else {
        be_value(s.drop_last()) * 256 + s.last()
    }
}

proof fn lemma_be_bound(s: Seq<u8>)
    ensures
        0 <= be_value(s) < byte_bound(s.len()),
    decreases s.len(),
{
    if s.len() > 0 {
        lemma_be_bound(s.drop_last());
    }
}

proof fn lemma_byte_bound_mono(a: nat, b: nat)
    requires
        a <= b,
    ensures
        1 <= byte_bound(a) <= byte_bound(b),
    decreases b,
{
    if b > 0 {
        if a < b {
            lemma_byte_bound_mono(a, (b - 1) as nat);
        } else {
            lemma_byte_bound_mono((a - 1) as nat, (b - 1) as nat);
        }
    }
}

proof fn lemma_byte_bounds()
    ensures
        byte_bound(2) == 0x1_0000,
        byte_bound(4) == 0x1_0000_0000,
        byte_bound(7) == 0x100_0000_0000_0000,
        byte_bound(8) == 0x1_0000_0000_0000_0000,
{
    reveal_with_fuel(byte_bound, 9);
}

/// The big-endian number in `data[off..off + len]`.
fn read_be(data: &Vec<u8>, off: usize, len: usize) -> (r: u64)
    requires
        off + len <= data@.len(),
        data@.len() <= usize::MAX,
        len <= 8,
    ensures
        r == be_value(data@.subrange(off as int, off + len)),
{
    let mut v: u64 = 0;
    let mut i: usize = 0;
    while i < len
        invariant
            i <= len <= 8,
            off + len <= data@.len(),
            data@.len() <= usize::MAX,
            v == be_value(data@.subrange(off as int, off + i)),
        decreases len - i,
    {
        let ghost pre = data@.subrange(off as int, off + i);
        let ghost nxt = data@.subrange(off as int, off + i + 1);
        assert(nxt.drop_last() =~= pre);
        proof {
            lemma_be_bound(pre);
            lemma_byte_bound_mono(i as nat, 7);
            lemma_byte_bounds();
        }
        v = v * 256 + data[off + i] as u64;
        i = i + 1;
    }
    v
}

pub struct Book {
    data: Vec<u8>,
    n: usize,
}

impl Book {
    /// The data holds the header and all `n` records.
    pub closed spec fn wf(&self) -> bool {
        &&& HDR + self.n * RECSZ <= self.data@.len()
        &&& self.data@.len() <= usize::MAX
    }

    pub closed spec fn len(&self) -> nat {
        self.n as nat
    }

    pub closed spec fn key(&self, i: int) -> u64 {
        be_value(self.data@.subrange(HDR + i * RECSZ, HDR + i * RECSZ + 8)) as u64
    }

    pub closed spec fn record(&self, i: int) -> (u16, u32) {
        (
            be_value(self.data@.subrange(HDR + i * RECSZ + 8, HDR + i * RECSZ + 10)) as u16,
            be_value(self.data@.subrange(HDR + i * RECSZ + 10, HDR + i * RECSZ + 14)) as u32,
        )
    }

    /// The bytes the book was read from.
    pub closed spec fn bytes(&self) -> Seq<u8> {
        self.data@
    }

    /// What the book's abstract parts are in terms of its bytes: the record
    /// count, each record's key and its (move, count), and the bound that
    /// every record lies inside the bytes.
    pub proof fn lemma_book_view(&self)
        ensures
            self.wf() <==> (HDR + self.len() * RECSZ <= self.bytes().len() && self.bytes().len() <= usize::MAX),
            forall|i: int| #[trigger] self.key(i) == be_value(self.bytes().subrange(HDR + i * RECSZ, HDR + i * RECSZ + 8)) as u64,
            forall|i: int| #[trigger] self.record(i) == (
                be_value(self.bytes().subrange(HDR + i * RECSZ + 8, HDR + i * RECSZ + 10)) as u16,
                be_value(self.bytes().subrange(HDR + i * RECSZ + 10, HDR + i * RECSZ + 14)) as u32,
            ),
    {
    }

    /// The records are in key order, as the book file is written.
    pub open spec fn sorted(&self) -> bool {
        forall|i: int, j: int| 0 <= i <= j < self.len() ==> self.key(i) <= self.key(j)
    }

    /// A book from the bytes of a book file: `None` unless the magic is
    /// there. The record count is the header's; whether the data holds that
    /// many records is `wf`, which `lookup` needs.
    pub fn from_data(data: Vec<u8>) -> (r: Option<Book>)
        ensures
            r is Some <==> (data@.len() >= HDR && data@.subrange(0, 8) == seq![75u8, 69, 83, 84, 66, 75, 48, 49]),
            r matches Some(b) ==> b.len() == (be_value(data@.subrange(8, 16)) as usize),
            r matches Some(b) ==> b.bytes() == data@,
            r matches Some(b) ==> (b.wf() <==> HDR + b.len() * RECSZ <= data@.len()),
            r matches Some(b) ==> b.wf() ==> forall|i: int|
                0 <= i < b.len() ==> #[trigger] b.key(i) == be_value(data@.subrange(HDR + i * RECSZ, HDR + i * RECSZ + 8))
                    && b.record(i) == (
                    be_value(data@.subrange(HDR + i * RECSZ + 8, HDR + i * RECSZ + 10)) as u16,
                    be_value(data@.subrange(HDR + i * RECSZ + 10, HDR + i * RECSZ + 14)) as u32,
                ),
    {
        if data.len() < HDR {
            return None;
        }
        let magic: [u8; 8] = [75, 69, 83, 84, 66, 75, 48, 49];
        let mut i: usize = 0;
        while i < 8
            invariant
                i <= 8,
                data@.len() >= HDR,
                forall|j: int| 0 <= j < i ==> data@[j] == magic[j],
                magic@ == seq![75u8, 69, 83, 84, 66, 75, 48, 49],
            decreases 8 - i,
        {
            if data[i] != magic[i] {
                assert(data@.subrange(0, 8)[i as int] != seq![75u8, 69, 83, 84, 66, 75, 48, 49][i as int]);
                return None;
            }
            i = i + 1;
        }
        assert(data@.subrange(0, 8) =~= seq![75u8, 69, 83, 84, 66, 75, 48, 49]);
        let n64 = read_be(&data, 8, 8);
        let n = #[verifier::truncate] (n64 as usize);
        let ghost d = data@;
        let b = Book { data, n };
        proof {
            if b.wf() {
                assert forall|i: int| 0 <= i < b.len() implies #[trigger] b.key(i) == be_value(
                    d.subrange(HDR + i * RECSZ, HDR + i * RECSZ + 8),
                ) by {
                    let s = d.subrange(HDR + i * RECSZ, HDR + i * RECSZ + 8);
                    lemma_be_bound(s);
                    lemma_byte_bounds();
                }
            }
        }
        Some(b)
    }

    /// Whether the data holds every record the header counts: what `lookup` needs.
    pub fn is_complete(&self) -> (r: bool)
        ensures
            r == self.wf(),
    {
        if self.data.len() < HDR {
            return false;
        }
        let room = (self.data.len() - HDR) / RECSZ;
        proof {
            assert(self.n <= room <==> self.n * RECSZ <= self.data@.len() - HDR) by (nonlinear_arith)
                requires
                    room == (self.data@.len() - HDR) / 14,
                    self.data@.len() >= HDR,
            ;
        }
        self.n <= room
    }

    fn key_at(&self, i: usize) -> (k: u64)
        requires
            self.wf(),
            i < self.len(),
        ensures
            k == self.key(i as int),
    {
        proof {
            assert(HDR + i * RECSZ + 14 <= HDR + self.n * RECSZ) by (nonlinear_arith)
                requires
                    i < self.n;
        }
        let off = HDR + i * RECSZ;
        read_be(&self.data, off, 8)
    }

    /// `out` is the run of records with `key` that starts at record `lo`,
    /// where the keys before `lo` are smaller than `key`, cut at 8 records;
    /// in a sorted book a run shorter than 8 holds every record with that key.
    pub open spec fn run_at(&self, key: u64, lo: int, out: Seq<(u16, u32)>) -> bool {
        &&& 0 <= lo <= lo + out.len() <= self.len()
        &&& out.len() <= 8
        &&& lo == 0 || self.key(lo - 1) < key
        &&& lo == self.len() || self.key(lo) >= key
        &&& forall|t: int| 0 <= t < out.len() ==> #[trigger] out[t] == self.record(lo + t)
        &&& forall|j: int| lo <= j < lo + out.len() ==> #[trigger] self.key(j) == key
        &&& out.len() == 8 || lo + out.len() == self.len() || self.key(lo + out.len()) != key
        &&& self.sorted() ==> forall|i: int| 0 <= i < self.len() && #[trigger] self.key(i) == key ==> lo <= i
        &&& self.sorted() && out.len() < 8 ==> forall|i: int| 0 <= i < self.len() ==> (#[trigger] self.key(i) == key
            <==> lo <= i < lo + out.len())
    }

    /// Up to 8 (move, count) records for `key`: the first 8 of the run of
    /// records with that key, starting where a binary search puts the key.
    pub fn lookup(&self, key: u64) -> (out: Vec<(u16, u32)>)
        requires
            self.wf(),
        ensures
            exists|lo: int| #[trigger] self.run_at(key, lo, out@),
    {
        let mut lo: usize = 0;
        let mut hi: usize = self.n;
        while lo < hi
            invariant
                self.wf(),
                0 <= lo <= hi <= self.n,
                lo == 0 || self.key(lo - 1) < key,
                hi == self.n || self.key(hi as int) >= key,
                self.sorted() ==> forall|i: int| 0 <= i < lo ==> self.key(i) < key,
            decreases hi - lo,
        {
            let mid = lo + (hi - lo) / 2;
            if self.key_at(mid) < key {
                lo = mid + 1;
            } else {
                hi = mid;
            }
        }
        let mut out: Vec<(u16, u32)> = Vec::new();
        let mut i = lo;
        while i < self.n && i - lo < 8 && self.key_at(i) == key
            invariant
                self.wf(),
                lo <= i <= self.n,
                i - lo <= 8,
                out@.len() == i - lo,
                forall|t: int| 0 <= t < out@.len() ==> #[trigger] out@[t] == self.record(lo + t),
                forall|j: int| lo <= j < i ==> #[trigger] self.key(j) == key,
                lo == 0 || self.key(lo - 1) < key,
                lo == self.n || self.key(lo as int) >= key,
                self.sorted() ==> forall|j: int| 0 <= j < lo ==> self.key(j) < key,
            decreases self.n - i,
        {
            proof {
                assert(HDR + i * RECSZ + 14 <= HDR + self.n * RECSZ) by (nonlinear_arith)
                    requires
                        i < self.n;
            }
            let off = HDR + i * RECSZ;
            let ghost old_out = out@;
            let m16 = read_be(&self.data, off + 8, 2);
            let cnt = read_be(&self.data, off + 10, 4);
            proof {
                lemma_be_bound(self.data@.subrange(off + 8, off + 10));
                lemma_be_bound(self.data@.subrange(off + 10, off + 14));
                lemma_byte_bounds();
            }
            out.push((m16 as u16, cnt as u32));
            assert(out@[i - lo] == self.record(i as int));
            assert forall|t: int| 0 <= t < out@.len() implies #[trigger] out@[t] == self.record(lo + t) by {
                if t < old_out.len() {
                    assert(out@[t] == old_out[t]);
                }
            }
            i = i + 1;
        }
        proof {
            if self.sorted() && out@.len() < 8 {
                assert forall|j: int| 0 <= j < self.len() implies (#[trigger] self.key(j) == key <==> lo <= j < lo
                    + out@.len()) by {
                    if j >= i {
                        assert(self.key(i as int) >= key);
                        assert(self.key(i as int) != key);
                    }
                }
            }
            assert(self.run_at(key, lo as int, out@));
        }
        out
    }
}

} // verus!
