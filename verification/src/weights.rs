//! The hand-written evaluation's tunable weights, held as the flat vector
//! the tuner works on, plus the king-safety inputs deliberately kept out of
//! that vector.
use vstd::prelude::*;

verus! {

/// Number of tunable scalars, in the fixed order of `Weights::to_vec`.
pub const TUNED_LEN: usize = 675;

/// First index of the king-safety block inside the tuned vector.
pub const KING_LO: usize = 240;

/// One past the last index of the king-safety block.
pub const KING_HI: usize = 276;

pub struct Weights {
    pub tuned: Vec<i32>,
    pub unsafe_knight_check: (i32, i32),
    pub unsafe_bishop_check: (i32, i32),
    pub unsafe_rook_check: (i32, i32),
    pub unsafe_queen_check: (i32, i32),
    pub queenless_attack: (i32, i32),
    pub safety_pinned: [[(i32, i32); 3]; 5],
    pub safety_discovered: [[(i32, i32); 3]; 5],
    pub king_danger_table: [i32; 128],
}

/// Whether a 5x3 table of pairs is all zero.
pub open spec fn table_zero(t: [[(i32, i32); 3]; 5]) -> bool {
    forall|i: int, j: int| 0 <= i < 5 && 0 <= j < 3 ==> #[trigger] t[i][j] == (0i32, 0i32)
}

/// The tuned vector after a flat vector `v` is applied over `base`: the
/// first `v.len()` entries come from `v`, the rest keep their value.
pub open spec fn applied(base: Seq<i32>, v: Seq<i32>) -> Seq<i32> {
    v + base.skip(v.len() as int)
}

/// The tuned vector with the king-safety block set to zero.
pub open spec fn king_silenced(s: Seq<i32>) -> Seq<i32> {
    Seq::new(s.len(), |j: int| if KING_LO <= j < KING_HI { 0i32 } else { s[j] })
}

impl Weights {
    /// The flat tuned vector, in the order `to_vec` returns it.
    pub open spec fn to_vec_spec(&self) -> Seq<i32> {
        self.tuned@
    }

    pub open spec fn wf(&self) -> bool {
        self.to_vec_spec().len() == TUNED_LEN
    }

    /// Whether `self` and `other` agree on every field kept out of the tuned vector.
    pub open spec fn same_fixed(&self, other: &Weights) -> bool {
        &&& self.unsafe_knight_check == other.unsafe_knight_check
        &&& self.unsafe_bishop_check == other.unsafe_bishop_check
        &&& self.unsafe_rook_check == other.unsafe_rook_check
        &&& self.unsafe_queen_check == other.unsafe_queen_check
        &&& self.queenless_attack == other.queenless_attack
        &&& self.safety_pinned == other.safety_pinned
        &&& self.safety_discovered == other.safety_discovered
        &&& self.king_danger_table == other.king_danger_table
    }

    /// Every weight zero.
    pub fn zeroed() -> (r: Weights)
        ensures
            r.wf(),
            r.to_vec_spec() == Seq::new(TUNED_LEN as nat, |j: int| 0i32),
            r.unsafe_knight_check == (0i32, 0i32),
            r.unsafe_bishop_check == (0i32, 0i32),
            r.unsafe_rook_check == (0i32, 0i32),
            r.unsafe_queen_check == (0i32, 0i32),
            r.queenless_attack == (0i32, 0i32),
            table_zero(r.safety_pinned),
            table_zero(r.safety_discovered),
            forall|j: int| 0 <= j < 128 ==> #[trigger] r.king_danger_table[j] == 0,
    {
        let mut tuned: Vec<i32> = Vec::new();
        let mut i: usize = 0;
        while i < TUNED_LEN
            invariant
                i <= TUNED_LEN,
                tuned@ == Seq::new(i as nat, |j: int| 0i32),
            decreases TUNED_LEN - i,
        {
            tuned.push(0);
            i += 1;
            assert(tuned@ =~= Seq::new(i as nat, |j: int| 0i32));
        }
        let row: [(i32, i32); 3] = [(0, 0), (0, 0), (0, 0)];
        let table: [[(i32, i32); 3]; 5] = [row, row, row, row, row];
        let curve: [i32; 128] = [0; 128];
        Weights {
            tuned,
            unsafe_knight_check: (0, 0),
            unsafe_bishop_check: (0, 0),
            unsafe_rook_check: (0, 0),
            unsafe_queen_check: (0, 0),
            queenless_attack: (0, 0),
            safety_pinned: table,
            safety_discovered: table,
            king_danger_table: curve,
        }
    }

    /// Every tunable scalar in one flat vector, in a fixed order.
    pub fn to_vec(&self) -> (v: Vec<i32>)
        ensures
            v@ == self.to_vec_spec(),
    {
        let mut v: Vec<i32> = Vec::new();
        let mut i: usize = 0;
        while i < self.tuned.len()
            invariant
                i <= self.tuned@.len(),
                v@ == self.tuned@.take(i as int),
            decreases self.tuned@.len() - i,
        {
            v.push(self.tuned[i]);
            i += 1;
            assert(v@ =~= self.tuned@.take(i as int));
        }
        assert(v@ =~= self.tuned@);
        v
    }

    /// Rebuilds the weights from a flat vector in `to_vec` order. A vector
    /// shorter than `to_vec` is a file written before the later fields
    /// existed: those keep their value here. The fields outside the tuned
    /// vector are carried over from `self`.
    pub fn from_vec(&self, v: &[i32]) -> (r: Weights)
        requires
            self.wf(),
            v@.len() <= TUNED_LEN,
        ensures
            r.wf(),
            r.to_vec_spec() == applied(self.to_vec_spec(), v@),
            r.same_fixed(self),
    {
        let mut out: Vec<i32> = Vec::new();
        let mut i: usize = 0;
        while i < TUNED_LEN
            invariant
                i <= TUNED_LEN,
                self.tuned@.len() == TUNED_LEN,
                v@.len() <= TUNED_LEN,
                out@.len() == i,
                forall|j: int| 0 <= j < i ==> #[trigger] out@[j] == applied(self.tuned@, v@)[j],
            decreases TUNED_LEN - i,
        {
            let x: i32 = if i < v.len() { v[i] } else { self.tuned[i] };
            out.push(x);
            i += 1;
        }
        assert(out@ =~= applied(self.tuned@, v@));
        Weights {
            tuned: out,
            unsafe_knight_check: self.unsafe_knight_check,
            unsafe_bishop_check: self.unsafe_bishop_check,
            unsafe_rook_check: self.unsafe_rook_check,
            unsafe_queen_check: self.unsafe_queen_check,
            queenless_attack: self.queenless_attack,
            safety_pinned: self.safety_pinned,
            safety_discovered: self.safety_discovered,
            king_danger_table: self.king_danger_table,
        }
    }

    /// A copy with every king-safety input silenced: the king block of the
    /// tuned vector and the king-safety fields kept out of it. The danger
    /// curve itself is kept.
    pub fn with_king_silenced(&self) -> (r: Weights)
        requires
            self.wf(),
        ensures
            r.wf(),
            r.to_vec_spec() == king_silenced(self.to_vec_spec()),
            r.unsafe_knight_check == (0i32, 0i32),
            r.unsafe_bishop_check == (0i32, 0i32),
            r.unsafe_rook_check == (0i32, 0i32),
            r.unsafe_queen_check == (0i32, 0i32),
            r.queenless_attack == (0i32, 0i32),
            table_zero(r.safety_pinned),
            table_zero(r.safety_discovered),
            r.king_danger_table == self.king_danger_table,
    {
        let mut v = self.to_vec();
        let mut j: usize = KING_LO;
        while j < KING_HI
            invariant
                KING_LO <= j <= KING_HI,
                v@.len() == TUNED_LEN,
                self.to_vec_spec().len() == TUNED_LEN,
                forall|k: int| 0 <= k < TUNED_LEN ==> #[trigger] v@[k] == (
                    if KING_LO <= k < j { 0i32 } else { self.to_vec_spec()[k] }),
            decreases KING_HI - j,
        {
            v.set(j, 0);
            j += 1;
        }
        let mut w = self.from_vec(v.as_slice());
        assert(applied(self.to_vec_spec(), v@) =~= king_silenced(self.to_vec_spec()));
        let row: [(i32, i32); 3] = [(0, 0), (0, 0), (0, 0)];
        let table: [[(i32, i32); 3]; 5] = [row, row, row, row, row];
        w.unsafe_knight_check = (0, 0);
        w.unsafe_bishop_check = (0, 0);
        w.unsafe_rook_check = (0, 0);
        w.unsafe_queen_check = (0, 0);
        w.queenless_attack = (0, 0);
        w.safety_pinned = table;
        w.safety_discovered = table;
        w
    }
}

/// Applying a weight set's own flat vector gives back the same weights:
/// `from_vec` is the inverse of `to_vec`.
pub proof fn lemma_from_vec_inverts_to_vec(w: Weights)
    requires
        w.wf(),
    ensures
        applied(w.to_vec_spec(), w.to_vec_spec()) == w.to_vec_spec(),
{
    assert(applied(w.to_vec_spec(), w.to_vec_spec()) =~= w.to_vec_spec());
}

} // verus!
