//! Cell-set bitsets and pre-drawn boundary helpers for the rose solver.
//!
//! `CellSet` is a row-major bitset over cell index `idx = r*w + c`, stored in
//! 64-bit words.

use vstd::prelude::*;
use std::collections::HashSet;
use crate::types::Puzzle;

verus! {

/// Bit `k` (`0 <= k < 64`) of a word.
pub open spec fn word_bit(w: u64, k: int) -> bool {
    (w >> (k as u64)) & 1 == 1
}

pub proof fn lemma_bit_set_one(w: u64, b: u64, k: u64)
    requires
        b < 64,
        k < 64,
    ensures
        ((w | (1u64 << b)) >> k) & 1 == 1 <==> (k == b || (w >> k) & 1 == 1),
{
    assert(((w | (1u64 << b)) >> k) & 1 == 1 <==> (k == b || (w >> k) & 1 == 1)) by (bit_vector)
        requires
            b < 64,
            k < 64,
    ;
}

pub proof fn lemma_bit_clear_one(w: u64, b: u64, k: u64)
    requires
        b < 64,
        k < 64,
    ensures
        ((w & !(1u64 << b)) >> k) & 1 == 1 <==> (k != b && (w >> k) & 1 == 1),
{
    assert(((w & !(1u64 << b)) >> k) & 1 == 1 <==> (k != b && (w >> k) & 1 == 1)) by (bit_vector)
        requires
            b < 64,
            k < 64,
    ;
}

pub proof fn lemma_bit_ops(a: u64, b: u64, k: u64)
    requires
        k < 64,
    ensures
        ((a & b) >> k) & 1 == 1 <==> ((a >> k) & 1 == 1 && (b >> k) & 1 == 1),
        ((a & !b) >> k) & 1 == 1 <==> ((a >> k) & 1 == 1 && (b >> k) & 1 != 1),
        ((a | b) >> k) & 1 == 1 <==> ((a >> k) & 1 == 1 || (b >> k) & 1 == 1),
        (0u64 >> k) & 1 != 1,
{
    assert(((a & b) >> k) & 1 == 1 <==> ((a >> k) & 1 == 1 && (b >> k) & 1 == 1)) by (bit_vector)
        requires
            k < 64,
    ;
    assert(((a & !b) >> k) & 1 == 1 <==> ((a >> k) & 1 == 1 && (b >> k) & 1 != 1)) by (bit_vector)
        requires
            k < 64,
    ;
    assert(((a | b) >> k) & 1 == 1 <==> ((a >> k) & 1 == 1 || (b >> k) & 1 == 1)) by (bit_vector)
        requires
            k < 64,
    ;
    assert((0u64 >> k) & 1 != 1) by (bit_vector);
}

/// A word is zero exactly when none of its 64 bits is set.
pub proof fn lemma_word_zero(x: u64)
    ensures
        x == 0 <==> forall|k: int| 0 <= k < 64 ==> !#[trigger] word_bit(x, k),
{
    if forall|k: int| 0 <= k < 64 ==> !#[trigger] word_bit(x, k) {
        assert(!word_bit(x, 0));
        assert(!word_bit(x, 1));
        assert(!word_bit(x, 2));
        assert(!word_bit(x, 3));
        assert(!word_bit(x, 4));
        assert(!word_bit(x, 5));
        assert(!word_bit(x, 6));
        assert(!word_bit(x, 7));
        assert(!word_bit(x, 8));
        assert(!word_bit(x, 9));
        assert(!word_bit(x, 10));
        assert(!word_bit(x, 11));
        assert(!word_bit(x, 12));
        assert(!word_bit(x, 13));
        assert(!word_bit(x, 14));
        assert(!word_bit(x, 15));
        assert(!word_bit(x, 16));
        assert(!word_bit(x, 17));
        assert(!word_bit(x, 18));
        assert(!word_bit(x, 19));
        assert(!word_bit(x, 20));
        assert(!word_bit(x, 21));
        assert(!word_bit(x, 22));
        assert(!word_bit(x, 23));
        assert(!word_bit(x, 24));
        assert(!word_bit(x, 25));
        assert(!word_bit(x, 26));
        assert(!word_bit(x, 27));
        assert(!word_bit(x, 28));
        assert(!word_bit(x, 29));
        assert(!word_bit(x, 30));
        assert(!word_bit(x, 31));
        assert(!word_bit(x, 32));
        assert(!word_bit(x, 33));
        assert(!word_bit(x, 34));
        assert(!word_bit(x, 35));
        assert(!word_bit(x, 36));
        assert(!word_bit(x, 37));
        assert(!word_bit(x, 38));
        assert(!word_bit(x, 39));
        assert(!word_bit(x, 40));
        assert(!word_bit(x, 41));
        assert(!word_bit(x, 42));
        assert(!word_bit(x, 43));
        assert(!word_bit(x, 44));
        assert(!word_bit(x, 45));
        assert(!word_bit(x, 46));
        assert(!word_bit(x, 47));
        assert(!word_bit(x, 48));
        assert(!word_bit(x, 49));
        assert(!word_bit(x, 50));
        assert(!word_bit(x, 51));
        assert(!word_bit(x, 52));
        assert(!word_bit(x, 53));
        assert(!word_bit(x, 54));
        assert(!word_bit(x, 55));
        assert(!word_bit(x, 56));
        assert(!word_bit(x, 57));
        assert(!word_bit(x, 58));
        assert(!word_bit(x, 59));
        assert(!word_bit(x, 60));
        assert(!word_bit(x, 61));
        assert(!word_bit(x, 62));
        assert(!word_bit(x, 63));
        assert(x == 0) by (bit_vector)
            requires
            (x >> 0u64) & 1 != 1,
            (x >> 1u64) & 1 != 1,
            (x >> 2u64) & 1 != 1,
            (x >> 3u64) & 1 != 1,
            (x >> 4u64) & 1 != 1,
            (x >> 5u64) & 1 != 1,
            (x >> 6u64) & 1 != 1,
            (x >> 7u64) & 1 != 1,
            (x >> 8u64) & 1 != 1,
            (x >> 9u64) & 1 != 1,
            (x >> 10u64) & 1 != 1,
            (x >> 11u64) & 1 != 1,
            (x >> 12u64) & 1 != 1,
            (x >> 13u64) & 1 != 1,
            (x >> 14u64) & 1 != 1,
            (x >> 15u64) & 1 != 1,
            (x >> 16u64) & 1 != 1,
            (x >> 17u64) & 1 != 1,
            (x >> 18u64) & 1 != 1,
            (x >> 19u64) & 1 != 1,
            (x >> 20u64) & 1 != 1,
            (x >> 21u64) & 1 != 1,
            (x >> 22u64) & 1 != 1,
            (x >> 23u64) & 1 != 1,
            (x >> 24u64) & 1 != 1,
            (x >> 25u64) & 1 != 1,
            (x >> 26u64) & 1 != 1,
            (x >> 27u64) & 1 != 1,
            (x >> 28u64) & 1 != 1,
            (x >> 29u64) & 1 != 1,
            (x >> 30u64) & 1 != 1,
            (x >> 31u64) & 1 != 1,
            (x >> 32u64) & 1 != 1,
            (x >> 33u64) & 1 != 1,
            (x >> 34u64) & 1 != 1,
            (x >> 35u64) & 1 != 1,
            (x >> 36u64) & 1 != 1,
            (x >> 37u64) & 1 != 1,
            (x >> 38u64) & 1 != 1,
            (x >> 39u64) & 1 != 1,
            (x >> 40u64) & 1 != 1,
            (x >> 41u64) & 1 != 1,
            (x >> 42u64) & 1 != 1,
            (x >> 43u64) & 1 != 1,
            (x >> 44u64) & 1 != 1,
            (x >> 45u64) & 1 != 1,
            (x >> 46u64) & 1 != 1,
            (x >> 47u64) & 1 != 1,
            (x >> 48u64) & 1 != 1,
            (x >> 49u64) & 1 != 1,
            (x >> 50u64) & 1 != 1,
            (x >> 51u64) & 1 != 1,
            (x >> 52u64) & 1 != 1,
            (x >> 53u64) & 1 != 1,
            (x >> 54u64) & 1 != 1,
            (x >> 55u64) & 1 != 1,
            (x >> 56u64) & 1 != 1,
            (x >> 57u64) & 1 != 1,
            (x >> 58u64) & 1 != 1,
            (x >> 59u64) & 1 != 1,
            (x >> 60u64) & 1 != 1,
            (x >> 61u64) & 1 != 1,
            (x >> 62u64) & 1 != 1,
            (x >> 63u64) & 1 != 1,
        ;
    }
    if x == 0 {
        assert forall|k: int| 0 <= k < 64 implies !#[trigger] word_bit(x, k) by {
            lemma_bit_ops(x, x, k as u64);
        }
    }
}

/// The FNV-style digest of the first `k` words of `ws`: start from the
/// offset basis, and for each word xor it in and multiply by the prime,
/// wrapping.
pub open spec fn digest_of(ws: Seq<u64>, k: int) -> u64
    decreases k,
{
    if k <= 0 {
        0xcbf2_9ce4_8422_2325u64
    } else {
        (digest_of(ws, k - 1) ^ ws[k - 1]).wrapping_mul(0x0000_0100_0000_01b3u64)
    }
}

/// Bit set over whole 64-bit words.
#[derive(Clone, PartialEq, Eq, Hash, Debug)]
pub struct CellSet {
    words: Vec<u64>,
}

impl CellSet {
    /// The number of representable cells (whole words).
    pub closed spec fn nbits(&self) -> nat {
        64 * self.words@.len()
    }

    /// The size of a fresh set for `n` cells: whole words.
    pub open spec fn bits_for(n: nat) -> nat {
        64 * (n / 64 + if n % 64 != 0 {
            1nat
        } else {
            0nat
        })
    }

    /// Cell `i` is in the set.
    pub closed spec fn has(&self, i: int) -> bool {
        0 <= i < self.nbits() && word_bit(self.words@[i / 64], i % 64)
    }

    pub closed spec fn wf(&self) -> bool {
        self.nbits() <= usize::MAX
    }

    /// The members below `k`, in increasing order.
    pub open spec fn elems_upto(&self, k: int) -> Seq<usize>
        decreases k,
    {
        if k <= 0 {
            Seq::empty()
        } else if self.has(k - 1) {
            self.elems_upto(k - 1).push((k - 1) as usize)
        } else {
            self.elems_upto(k - 1)
        }
    }

    /// All members in increasing order.
    pub open spec fn elems(&self) -> Seq<usize> {
        self.elems_upto(self.nbits() as int)
    }

    /// Two sets agree on every cell.
    pub open spec fn same_members(&self, other: &CellSet) -> bool {
        forall|i: int| #[trigger] self.has(i) == other.has(i)
    }

    pub proof fn lemma_wf_bits(&self)
        requires
            self.wf(),
        ensures
            self.nbits() <= usize::MAX,
            self.nbits() % 64 == 0,
    {
    }

    /// Only cells below `nbits` can be members.
    pub proof fn lemma_has_range(&self, i: int)
        ensures
            self.has(i) ==> 0 <= i < self.nbits(),
    {
    }

    /// `elems_upto(k)` lists exactly the members below `k`, strictly
    /// increasing.
    pub proof fn lemma_elems(&self, k: int)
        requires
            self.wf(),
            0 <= k <= self.nbits(),
        ensures
            forall|x: int| 0 <= x < k ==> (self.has(x) <==> self.elems_upto(k).contains(x as usize)),
            forall|j: int|
                0 <= j < self.elems_upto(k).len() ==> self.has(#[trigger] self.elems_upto(k)[j] as int)
                    && self.elems_upto(k)[j] < k,
            forall|i: int, j: int|
                0 <= i < j < self.elems_upto(k).len() ==> self.elems_upto(k)[i] < self.elems_upto(
                    k,
                )[j],
        decreases k,
    {
        if k > 0 {
            self.lemma_elems(k - 1);
            let prev = self.elems_upto(k - 1);
            let cur = self.elems_upto(k);
            assert forall|x: int| 0 <= x < k implies (self.has(x) <==> cur.contains(x as usize)) by {
                if x < k - 1 {
                    if self.has(x) {
                        let j = choose|j: int| 0 <= j < prev.len() && prev[j] == x as usize;
                        assert(cur[j] == x as usize);
                    }
                    if cur.contains(x as usize) {
                        let j = choose|j: int| 0 <= j < cur.len() && cur[j] == x as usize;
                        if j < prev.len() {
                            assert(prev[j] == x as usize);
                        } else {
                            assert(cur[j] == (k - 1) as usize);
                        }
                    }
                } else {
                    if self.has(x) {
                        assert(cur[prev.len() as int] == x as usize);
                    }
                    if cur.contains(x as usize) {
                        let j = choose|j: int| 0 <= j < cur.len() && cur[j] == x as usize;
                        if j < prev.len() {
                            assert(prev[j] < k - 1);
                        }
                    }
                }
            }
        }
    }

    pub fn new(n_bits: usize) -> (s: Self)
        requires
            n_bits <= usize::MAX - 63,
        ensures
            s.wf(),
            n_bits <= s.nbits() < n_bits + 64,
            s.nbits() == Self::bits_for(n_bits as nat),
            forall|i: int| !#[trigger] s.has(i),
    {
        let n_words = n_bits / 64 + if n_bits % 64 != 0 {
            1
        } else {
            0
        };
        let s = CellSet { words: vec![0u64; n_words] };
        proof {
            assert forall|i: int| !#[trigger] s.has(i) by {
                if 0 <= i < s.nbits() {
                    lemma_bit_ops(0, 0, (i % 64) as u64);
                }
            }
        }
        s
    }

    pub fn contains(&self, idx: usize) -> (r: bool)
        requires
            idx < self.nbits(),
        ensures
            r == self.has(idx as int),
    {
        let w = self.words[idx / 64];
        let k = (idx % 64) as u64;
        proof {
            assert((w & (1u64 << k) != 0) <==> ((w >> k) & 1 == 1)) by (bit_vector)
                requires
                    k < 64,
            ;
        }
        w & (1u64 << k) != 0
    }

    pub fn insert(&mut self, idx: usize)
        requires
            idx < old(self).nbits(),
        ensures
            final(self).nbits() == old(self).nbits(),
            final(self).wf() == old(self).wf(),
            forall|i: int| #[trigger] final(self).has(i) == (i == idx || old(self).has(i)),
    {
        let wi = idx / 64;
        let b = (idx % 64) as u64;
        let w = self.words[wi] | (1u64 << b);
        self.words.set(wi, w);
        proof {
            assert forall|i: int| #[trigger] self.has(i) == (i == idx || old(self).has(i)) by {
                if 0 <= i < self.nbits() {
                    lemma_bit_set_one(old(self).words@[wi as int], b, (i % 64) as u64);
                }
            }
        }
    }

    pub fn remove(&mut self, idx: usize)
        requires
            idx < old(self).nbits(),
        ensures
            final(self).nbits() == old(self).nbits(),
            final(self).wf() == old(self).wf(),
            forall|i: int| #[trigger] final(self).has(i) == (i != idx && old(self).has(i)),
    {
        let wi = idx / 64;
        let b = (idx % 64) as u64;
        let w = self.words[wi] & !(1u64 << b);
        self.words.set(wi, w);
        proof {
            assert forall|i: int| #[trigger] self.has(i) == (i != idx && old(self).has(i)) by {
                if 0 <= i < self.nbits() {
                    lemma_bit_clear_one(old(self).words@[wi as int], b, (i % 64) as u64);
                }
            }
        }
    }

    /// True if no cell below both sizes is in both sets.
    pub fn is_disjoint(&self, other: &Self) -> (r: bool)
        ensures
            r == forall|i: int|
                0 <= i < self.nbits() && 0 <= i < other.nbits() ==> !(self.has(i) && other.has(i)),
    {
        let mut wi: usize = 0;
        while wi < self.words.len() && wi < other.words.len()
            invariant
                wi <= self.words@.len(),
                wi <= other.words@.len(),
                forall|i: int| 0 <= i < 64 * wi ==> !(self.has(i) && other.has(i)),
            decreases self.words@.len() - wi,
        {
            let x = self.words[wi] & other.words[wi];
            proof {
                lemma_word_zero(x);
                assert forall|k: int| 0 <= k < 64 implies (#[trigger] word_bit(x, k) <==> (word_bit(
                    self.words@[wi as int],
                    k,
                ) && word_bit(other.words@[wi as int], k))) by {
                    lemma_bit_ops(self.words@[wi as int], other.words@[wi as int], k as u64);
                }
            }
            if x != 0 {
                proof {
                    let k = choose|k: int| 0 <= k < 64 && word_bit(x, k);
                    let i = 64 * wi + k;
                    assert(i / 64 == wi && i % 64 == k);
                    assert(self.has(i) && other.has(i));
                }
                return false;
            }
            proof {
                assert forall|i: int| 0 <= i < 64 * (wi + 1) implies !(self.has(i) && other.has(i)) by {
                    if i >= 64 * wi {
                        assert(i / 64 == wi);
                        assert(!word_bit(x, i % 64));
                    }
                }
            }
            wi = wi + 1;
        }
        true
    }

    /// True if every cell of self (below both sizes) is also in other.
    pub fn is_subset(&self, other: &Self) -> (r: bool)
        ensures
            r == forall|i: int|
                0 <= i < self.nbits() && 0 <= i < other.nbits() ==> (self.has(i) ==> other.has(i)),
    {
        let mut wi: usize = 0;
        while wi < self.words.len() && wi < other.words.len()
            invariant
                wi <= self.words@.len(),
                wi <= other.words@.len(),
                forall|i: int| 0 <= i < 64 * wi ==> (self.has(i) ==> other.has(i)),
            decreases self.words@.len() - wi,
        {
            let x = self.words[wi] & !other.words[wi];
            proof {
                lemma_word_zero(x);
                assert forall|k: int| 0 <= k < 64 implies (#[trigger] word_bit(x, k) <==> (word_bit(
                    self.words@[wi as int],
                    k,
                ) && !word_bit(other.words@[wi as int], k))) by {
                    lemma_bit_ops(self.words@[wi as int], other.words@[wi as int], k as u64);
                }
            }
            if x != 0 {
                proof {
                    let k = choose|k: int| 0 <= k < 64 && word_bit(x, k);
                    let i = 64 * wi + k;
                    assert(i / 64 == wi && i % 64 == k);
                    assert(self.has(i) && !other.has(i));
                }
                return false;
            }
            proof {
                assert forall|i: int| 0 <= i < 64 * (wi + 1) implies (self.has(i) ==> other.has(i)) by {
                    if i >= 64 * wi {
                        assert(i / 64 == wi);
                        assert(!word_bit(x, i % 64));
                    }
                }
            }
            wi = wi + 1;
        }
        true
    }

    /// Add every cell of `other` that lies within self's size.
    pub fn union_into(&mut self, other: &Self)
        ensures
            final(self).nbits() == old(self).nbits(),
            final(self).wf() == old(self).wf(),
            forall|i: int| #[trigger] final(self).has(i) == (old(self).has(i) || (0 <= i < old(self).nbits() && other.has(i))),
    {
        let mut wi: usize = 0;
        while wi < self.words.len() && wi < other.words.len()
            invariant
                wi <= self.words@.len(),
                wi <= other.words@.len(),
                self.words@.len() == old(self).words@.len(),
                forall|i: int| 0 <= i < 64 * wi ==> #[trigger] self.has(i) == (old(self).has(i) || other.has(i)),
                forall|i: int| 64 * wi <= i ==> #[trigger] self.has(i) == old(self).has(i),
            decreases self.words@.len() - wi,
        {
            let ghost before = *self;
            let w = self.words[wi] | other.words[wi];
            self.words.set(wi, w);
            proof {
                assert forall|i: int| #[trigger] self.has(i) == (if i / 64 == wi && 0 <= i { before.has(i) || other.has(i) } else { before.has(i) }) by {
                    if 0 <= i < self.nbits() && i / 64 == wi {
                        lemma_bit_ops(before.words@[wi as int], other.words@[wi as int], (i % 64) as u64);
                    }
                }
            }
            wi = wi + 1;
        }
    }

    /// Number of cells in the set.
    pub fn len(&self) -> (n: usize)
        requires
            self.wf(),
        ensures
            n == self.elems().len(),
    {
        let nb = self.len_bits();
        let mut n: usize = 0;
        let mut i: usize = 0;
        while i < nb
            invariant
                nb == self.nbits(),
                i <= nb,
                n == self.elems_upto(i as int).len(),
                n <= i,
            decreases nb - i,
        {
            if self.contains(i) {
                n = n + 1;
            }
            i = i + 1;
        }
        n
    }

    /// Number of bits (cells) this set spans (rounded up to the word).
    pub fn len_bits(&self) -> (n: usize)
        requires
            self.wf(),
        ensures
            n == self.nbits(),
    {
        self.words.len() * 64
    }

    pub fn is_empty(&self) -> (r: bool)
        ensures
            r == forall|i: int| !#[trigger] self.has(i),
    {
        let mut wi: usize = 0;
        while wi < self.words.len()
            invariant
                wi <= self.words@.len(),
                forall|i: int| 0 <= i < 64 * wi ==> !#[trigger] self.has(i),
            decreases self.words@.len() - wi,
        {
            let x = self.words[wi];
            proof {
                lemma_word_zero(x);
            }
            if x != 0 {
                proof {
                    let k = choose|k: int| 0 <= k < 64 && word_bit(x, k);
                    let i = 64 * wi + k;
                    assert(i / 64 == wi && i % 64 == k);
                    assert(self.has(i));
                }
                return false;
            }
            proof {
                assert forall|i: int| 0 <= i < 64 * (wi + 1) implies !#[trigger] self.has(i) by {
                    if i >= 64 * wi {
                        assert(i / 64 == wi);
                    }
                }
            }
            wi = wi + 1;
        }
        true
    }

    /// The members in increasing order.
    pub fn iter(&self) -> (v: Vec<usize>)
        requires
            self.wf(),
        ensures
            v@ == self.elems(),
    {
        let nb = self.len_bits();
        let mut v: Vec<usize> = Vec::new();
        let mut i: usize = 0;
        while i < nb
            invariant
                nb == self.nbits(),
                i <= nb,
                v@ == self.elems_upto(i as int),
            decreases nb - i,
        {
            if self.contains(i) {
                v.push(i);
            }
            i = i + 1;
        }
        v
    }

    /// The digest of the set's words (see `digest_of`).
    pub closed spec fn digest(&self) -> u64 {
        digest_of(self.words@, self.words@.len() as int)
    }

    /// Sets of one size with the same members have the same digest.
    pub proof fn lemma_digest_members(&self, other: &CellSet)
        requires
            self.nbits() == other.nbits(),
            self.same_members(other),
        ensures
            self.digest() == other.digest(),
    {
        assert forall|q: int| 0 <= q < self.words@.len() implies self.words@[q] == other.words@[q] by {
            let a = self.words@[q];
            let b = other.words@[q];
            assert forall|k: int| 0 <= k < 64 implies !#[trigger] word_bit(a ^ b, k) by {
                let i = 64 * q + k;
                assert(i / 64 == q && i % 64 == k);
                assert(self.has(i) == other.has(i));
                let ku = k as u64;
                assert(((a ^ b) >> ku) & 1 == 1 <==> (((a >> ku) & 1 == 1) != ((b >> ku) & 1 == 1))) by (bit_vector)
                    requires
                        ku < 64,
                ;
            }
            lemma_word_zero(a ^ b);
            assert(a ^ b == 0 ==> a == b) by (bit_vector);
        }
        assert(self.words@ =~= other.words@);
    }

    /// A 64-bit digest of the words, used to bucket sets for lookup.
    pub fn fingerprint(&self) -> (h: u64)
        ensures
            h == self.digest(),
    {
        let mut h: u64 = 0xcbf2_9ce4_8422_2325;
        let mut i: usize = 0;
        while i < self.words.len()
            invariant
                i <= self.words@.len(),
                h == digest_of(self.words@, i as int),
            decreases self.words@.len() - i,
        {
            h = (h ^ self.words[i]).wrapping_mul(0x0000_0100_0000_01b3);
            i = i + 1;
        }
        h
    }

    /// An exact copy.
    pub fn copy(&self) -> (r: Self)
        ensures
            r.nbits() == self.nbits(),
            r.wf() == self.wf(),
            forall|i: int| #[trigger] r.has(i) == self.has(i),
    {
        let mut words: Vec<u64> = Vec::new();
        let mut i: usize = 0;
        while i < self.words.len()
            invariant
                i <= self.words@.len(),
                words@ == self.words@.take(i as int),
            decreases self.words@.len() - i,
        {
            words.push(self.words[i]);
            proof {
                assert(self.words@.take(i + 1) == self.words@.take(i as int).push(self.words@[i as int]));
            }
            i = i + 1;
        }
        proof {
            assert(self.words@.take(i as int) == self.words@);
        }
        CellSet { words }
    }
}

/// Canonical undirected edge key: endpoints sorted so
/// `edge_key(1,2,1,1) == edge_key(1,1,1,2)`, each coordinate packed in 8 bits.
pub open spec fn spec_edge_key(r1: usize, c1: usize, r2: usize, c2: usize) -> u32 {
    let (ar, ac, br, bc) = if r1 < r2 || (r1 == r2 && c1 < c2) {
        (r1, c1, r2, c2)
    } else {
        (r2, c2, r1, c1)
    };
    ((ar as u32) << 24u32) | ((ac as u32) << 16u32) | ((br as u32) << 8u32) | (bc as u32)
}

/// Canonical undirected edge key.  Coordinates must stay below 256 for the
/// key to be unique (see `lemma_edge_key_injective`).
pub fn edge_key(r1: usize, c1: usize, r2: usize, c2: usize) -> (k: u32)
    ensures
        k == spec_edge_key(r1, c1, r2, c2),
{
    let (ar, ac, br, bc) = if r1 < r2 || (r1 == r2 && c1 < c2) {
        (r1, c1, r2, c2)
    } else {
        (r2, c2, r1, c1)
    };
    ((ar as u32) << 24u32) | ((ac as u32) << 16u32) | ((br as u32) << 8u32) | (bc as u32)
}

/// The key does not depend on the order of the endpoints.
pub proof fn lemma_edge_key_symmetric(r1: usize, c1: usize, r2: usize, c2: usize)
    ensures
        spec_edge_key(r1, c1, r2, c2) == spec_edge_key(r2, c2, r1, c1),
{
}

/// For coordinates below 256, equal keys mean the same unordered pair of
/// endpoints.
pub proof fn lemma_edge_key_injective(
    r1: usize,
    c1: usize,
    r2: usize,
    c2: usize,
    s1: usize,
    d1: usize,
    s2: usize,
    d2: usize,
)
    requires
        r1 < 256 && c1 < 256 && r2 < 256 && c2 < 256,
        s1 < 256 && d1 < 256 && s2 < 256 && d2 < 256,
        spec_edge_key(r1, c1, r2, c2) == spec_edge_key(s1, d1, s2, d2),
    ensures
        (r1 == s1 && c1 == d1 && r2 == s2 && c2 == d2) || (r1 == s2 && c1 == d2 && r2 == s1 && c2
            == d1),
{
    let (ar, ac, br, bc) = if r1 < r2 || (r1 == r2 && c1 < c2) {
        (r1 as u32, c1 as u32, r2 as u32, c2 as u32)
    } else {
        (r2 as u32, c2 as u32, r1 as u32, c1 as u32)
    };
    let (xr, xc, yr, yc) = if s1 < s2 || (s1 == s2 && d1 < d2) {
        (s1 as u32, d1 as u32, s2 as u32, d2 as u32)
    } else {
        (s2 as u32, d2 as u32, s1 as u32, d1 as u32)
    };
    assert(ar == xr && ac == xc && br == yr && bc == yc) by (bit_vector)
        requires
            ar < 256 && ac < 256 && br < 256 && bc < 256,
            xr < 256 && xc < 256 && yr < 256 && yc < 256,
            (ar << 24u32) | (ac << 16u32) | (br << 8u32) | bc == (xr << 24u32) | (xc << 16u32) | (yr
                << 8u32) | yc,
    ;
}

/// Row, column pairs of the key's two endpoints.
pub open spec fn spec_decode_key(k: u32) -> [usize; 4] {
    [
        (k >> 24u32) as usize,
        ((k >> 16u32) & 0xffu32) as usize,
        ((k >> 8u32) & 0xffu32) as usize,
        (k & 0xffu32) as usize,
    ]
}

/// Horizontal-neighbour boundary `(r, c)-(r, c + 1)` is pre-drawn.
pub open spec fn h_boundary(p: Puzzle, r: int, c: int) -> bool {
    0 <= r < p.height && 0 <= c && c + 1 < p.width && p.h_edges@[r]@[c].is_boundary
}

/// Vertical-neighbour boundary `(r, c)-(r + 1, c)` is pre-drawn.
pub open spec fn v_boundary(p: Puzzle, r: int, c: int) -> bool {
    0 <= r && r + 1 < p.height && 0 <= c < p.width && p.v_edges@[r]@[c].is_boundary
}

/// Keys of all pre-drawn boundary edges of a puzzle.
pub open spec fn boundary_key(p: Puzzle, k: u32) -> bool {
    (exists|r: int, c: int|
        #[trigger] h_boundary(p, r, c) && k == spec_edge_key(
            r as usize,
            c as usize,
            r as usize,
            (c + 1) as usize,
        )) || (exists|r: int, c: int|
        #[trigger] v_boundary(p, r, c) && k == spec_edge_key(
            r as usize,
            c as usize,
            (r + 1) as usize,
            c as usize,
        ))
}

/// Set of pre-drawn boundary edges (forced region separators), by key.
pub struct PreBoundaries {
    set: HashSet<u32>,
    keys: Vec<u32>,
}

impl PreBoundaries {
    /// The keys in the set.
    pub closed spec fn view(&self) -> Set<u32> {
        self.set@
    }

    #[verifier::type_invariant]
    spec fn wf(&self) -> bool {
        &&& self.keys@.no_duplicates()
        &&& forall|k: u32| self.set@.contains(k) <==> self.keys@.contains(k)
    }

    fn add(&mut self, k: u32)
        ensures
            final(self)@ == old(self)@.insert(k),
    {
        broadcast use vstd::std_specs::hash::group_hash_axioms;

        let mut cur = PreBoundaries { set: HashSet::new(), keys: Vec::new() };
        std::mem::swap(self, &mut cur);
        proof {
            use_type_invariant(&cur);
        }
        let PreBoundaries { mut set, mut keys } = cur;
        let ghost s0 = set@;
        let ghost k0 = keys@;
        let fresh = set.insert(k);
        if fresh {
            keys.push(k);
        }
        proof {
            assert forall|x: u32| set@.contains(x) <==> keys@.contains(x) by {
                assert(set@ == s0.insert(k));
                assert(fresh == !s0.contains(k));
                if fresh {
                    assert(keys@ == k0.push(k));
                    if x == k {
                        assert(keys@[keys@.len() - 1] == k);
                    } else {
                        if k0.contains(x) {
                            let j = choose|j: int| 0 <= j < k0.len() && k0[j] == x;
                            assert(keys@[j] == x);
                        }
                        if keys@.contains(x) {
                            let j = choose|j: int| 0 <= j < keys@.len() && keys@[j] == x;
                            assert(k0[j] == x);
                        }
                    }
                } else {
                    assert(keys@ == k0);
                }
            }
            if fresh {
                assert forall|i: int, j: int|
                    0 <= i < keys@.len() && 0 <= j < keys@.len() && i != j implies keys@[i] != keys@[j] by {
                    if i == keys@.len() - 1 {
                        assert(k0.contains(keys@[j]) || j == i);
                    }
                    if j == keys@.len() - 1 {
                        assert(k0.contains(keys@[i]) || j == i);
                    }
                }
            }
        }
        *self = PreBoundaries { set, keys };
    }

    pub fn from_puzzle(p: &Puzzle) -> (s: Self)
        requires
            p.wf(),
        ensures
            forall|k: u32| s@.contains(k) <==> boundary_key(*p, k),
    {
        broadcast use vstd::std_specs::hash::group_hash_axioms;

        let mut s = PreBoundaries { set: HashSet::new(), keys: Vec::new() };
        let h = p.height;
        let w = p.width;
        let wm = if w > 0 {
            w - 1
        } else {
            0
        };
        let mut r: usize = 0;
        while r < h
            invariant
                p.wf(),
                h == p.height,
                w == p.width,
                wm + 1 == w || (w == 0 && wm == 0),
                r <= h,
                forall|k: u32|
                    s@.contains(k) <==> exists|rr: int, cc: int|
                        #[trigger] h_boundary(*p, rr, cc) && rr < r && k == spec_edge_key(
                            rr as usize,
                            cc as usize,
                            rr as usize,
                            (cc + 1) as usize,
                        ),
            decreases h - r,
        {
            let mut c: usize = 0;
            while c < wm
                invariant
                    p.wf(),
                    h == p.height,
                    w == p.width,
                    wm + 1 == w || (w == 0 && wm == 0),
                    r < h,
                    c <= wm,
                    forall|k: u32|
                        s@.contains(k) <==> exists|rr: int, cc: int|
                            #[trigger] h_boundary(*p, rr, cc) && (rr < r || (rr == r && cc < c)) && k
                                == spec_edge_key(rr as usize, cc as usize, rr as usize, (cc + 1) as usize),
                decreases wm - c,
            {
                if p.h_edges[r][c].is_boundary {
                    let k = edge_key(r, c, r, c + 1);
                    let ghost before = s@;
                    s.add(k);
                    proof {
                        assert(h_boundary(*p, r as int, c as int));
                        assert forall|x: u32|
                            s@.contains(x) <==> exists|rr: int, cc: int|
                                #[trigger] h_boundary(*p, rr, cc) && (rr < r || (rr == r && cc < c + 1))
                                    && x == spec_edge_key(rr as usize, cc as usize, rr as usize, (cc + 1) as usize) by {
                            if x != k && (exists|rr: int, cc: int|
                                #[trigger] h_boundary(*p, rr, cc) && (rr < r || (rr == r && cc < c + 1))
                                    && x == spec_edge_key(rr as usize, cc as usize, rr as usize, (cc + 1) as usize)) {
                                let (rr, cc) = choose|rr: int, cc: int|
                                    #[trigger] h_boundary(*p, rr, cc) && (rr < r || (rr == r && cc < c + 1))
                                        && x == spec_edge_key(rr as usize, cc as usize, rr as usize, (cc + 1) as usize);
                                assert(rr < r || (rr == r && cc < c));
                            }
                        }
                    }
                } else {
                    proof {
                        assert forall|x: u32|
                            s@.contains(x) <==> exists|rr: int, cc: int|
                                #[trigger] h_boundary(*p, rr, cc) && (rr < r || (rr == r && cc < c + 1))
                                    && x == spec_edge_key(rr as usize, cc as usize, rr as usize, (cc + 1) as usize) by {
                            if exists|rr: int, cc: int|
                                #[trigger] h_boundary(*p, rr, cc) && (rr < r || (rr == r && cc < c + 1))
                                    && x == spec_edge_key(rr as usize, cc as usize, rr as usize, (cc + 1) as usize) {
                                let (rr, cc) = choose|rr: int, cc: int|
                                    #[trigger] h_boundary(*p, rr, cc) && (rr < r || (rr == r && cc < c + 1))
                                        && x == spec_edge_key(rr as usize, cc as usize, rr as usize, (cc + 1) as usize);
                                assert(rr < r || (rr == r && cc < c));
                            }
                        }
                    }
                }
                c = c + 1;
            }
            proof {
                assert forall|x: u32|
                    s@.contains(x) <==> exists|rr: int, cc: int|
                        #[trigger] h_boundary(*p, rr, cc) && rr < r + 1 && x == spec_edge_key(
                            rr as usize,
                            cc as usize,
                            rr as usize,
                            (cc + 1) as usize,
                        ) by {
                    if exists|rr: int, cc: int|
                        #[trigger] h_boundary(*p, rr, cc) && rr < r + 1 && x == spec_edge_key(
                            rr as usize,
                            cc as usize,
                            rr as usize,
                            (cc + 1) as usize,
                        ) {
                        let (rr, cc) = choose|rr: int, cc: int|
                            #[trigger] h_boundary(*p, rr, cc) && rr < r + 1 && x == spec_edge_key(
                                rr as usize,
                                cc as usize,
                                rr as usize,
                                (cc + 1) as usize,
                            );
                        assert(rr < r || (rr == r && cc < c));
                    }
                }
            }
            r = r + 1;
        }
        let hm = if h > 0 {
            h - 1
        } else {
            0
        };
        let mut r: usize = 0;
        while r < hm
            invariant
                p.wf(),
                h == p.height,
                w == p.width,
                hm + 1 == h || (h == 0 && hm == 0),
                r <= hm,
                forall|k: u32|
                    s@.contains(k) <==> ((exists|rr: int, cc: int|
                        #[trigger] h_boundary(*p, rr, cc) && k == spec_edge_key(
                            rr as usize,
                            cc as usize,
                            rr as usize,
                            (cc + 1) as usize,
                        )) || exists|rr: int, cc: int|
                        #[trigger] v_boundary(*p, rr, cc) && rr < r && k == spec_edge_key(
                            rr as usize,
                            cc as usize,
                            (rr + 1) as usize,
                            cc as usize,
                        )),
            decreases hm - r,
        {
            let mut c: usize = 0;
            while c < w
                invariant
                    p.wf(),
                    h == p.height,
                    w == p.width,
                    hm + 1 == h || (h == 0 && hm == 0),
                    r < hm,
                    c <= w,
                    forall|k: u32|
                        s@.contains(k) <==> ((exists|rr: int, cc: int|
                            #[trigger] h_boundary(*p, rr, cc) && k == spec_edge_key(
                                rr as usize,
                                cc as usize,
                                rr as usize,
                                (cc + 1) as usize,
                            )) || exists|rr: int, cc: int|
                            #[trigger] v_boundary(*p, rr, cc) && (rr < r || (rr == r && cc < c)) && k
                                == spec_edge_key(rr as usize, cc as usize, (rr + 1) as usize, cc as usize)),
                decreases w - c,
            {
                let is_b = p.v_edges[r][c].is_boundary;
                let ghost before = s@;
                if is_b {
                    let k = edge_key(r, c, r + 1, c);
                    s.add(k);
                    proof {
                        assert(v_boundary(*p, r as int, c as int));
                    }
                }
                proof {
                    assert forall|x: u32|
                        s@.contains(x) <==> ((exists|rr: int, cc: int|
                            #[trigger] h_boundary(*p, rr, cc) && x == spec_edge_key(
                                rr as usize,
                                cc as usize,
                                rr as usize,
                                (cc + 1) as usize,
                            )) || exists|rr: int, cc: int|
                            #[trigger] v_boundary(*p, rr, cc) && (rr < r || (rr == r && cc < c + 1))
                                && x == spec_edge_key(rr as usize, cc as usize, (rr + 1) as usize, cc as usize)) by {
                        if exists|rr: int, cc: int|
                            #[trigger] v_boundary(*p, rr, cc) && (rr < r || (rr == r && cc < c + 1))
                                && x == spec_edge_key(rr as usize, cc as usize, (rr + 1) as usize, cc as usize) {
                            let (rr, cc) = choose|rr: int, cc: int|
                                #[trigger] v_boundary(*p, rr, cc) && (rr < r || (rr == r && cc < c + 1))
                                    && x == spec_edge_key(rr as usize, cc as usize, (rr + 1) as usize, cc as usize);
                            if !(rr < r || (rr == r && cc < c)) {
                                assert(rr == r && cc == c);
                            }
                        }
                    }
                }
                c = c + 1;
            }
            proof {
                assert forall|x: u32|
                    s@.contains(x) <==> ((exists|rr: int, cc: int|
                        #[trigger] h_boundary(*p, rr, cc) && x == spec_edge_key(
                            rr as usize,
                            cc as usize,
                            rr as usize,
                            (cc + 1) as usize,
                        )) || exists|rr: int, cc: int|
                        #[trigger] v_boundary(*p, rr, cc) && rr < r + 1 && x == spec_edge_key(
                            rr as usize,
                            cc as usize,
                            (rr + 1) as usize,
                            cc as usize,
                        )) by {
                    if exists|rr: int, cc: int|
                        #[trigger] v_boundary(*p, rr, cc) && rr < r + 1 && x == spec_edge_key(
                            rr as usize,
                            cc as usize,
                            (rr + 1) as usize,
                            cc as usize,
                        ) {
                        let (rr, cc) = choose|rr: int, cc: int|
                            #[trigger] v_boundary(*p, rr, cc) && rr < r + 1 && x == spec_edge_key(
                                rr as usize,
                                cc as usize,
                                (rr + 1) as usize,
                                cc as usize,
                            );
                        assert(rr < r || (rr == r && cc < c));
                    }
                }
            }
            r = r + 1;
        }
        s
    }

    pub fn contains(&self, r1: usize, c1: usize, r2: usize, c2: usize) -> (b: bool)
        ensures
            b == self@.contains(spec_edge_key(r1, c1, r2, c2)),
    {
        broadcast use vstd::std_specs::hash::group_hash_axioms;

        let k = edge_key(r1, c1, r2, c2);
        self.set.contains(&k)
    }

    /// Whether no pre-drawn boundary edges exist.
    pub fn is_empty(&self) -> (b: bool)
        ensures
            b == (self@ =~= Set::<u32>::empty()),
    {
        proof {
            use_type_invariant(self);
        }
        let b = self.keys.len() == 0;
        proof {
            if !b {
                assert(self.set@.contains(self.keys@[0]));
            }
        }
        b
    }

    /// Every edge as `[r1, c1, r2, c2]`, each exactly once.
    pub fn iter(&self) -> (v: Vec<[usize; 4]>)
        ensures
            v@.len() == self.keys_seq().len(),
            forall|i: int| 0 <= i < v@.len() ==> #[trigger] v@[i] == spec_decode_key(self.keys_seq()[i]),
            self.keys_seq().no_duplicates(),
            forall|k: u32| self@.contains(k) <==> self.keys_seq().contains(k),
    {
        proof {
            use_type_invariant(self);
        }
        let mut v: Vec<[usize; 4]> = Vec::new();
        let mut i: usize = 0;
        while i < self.keys.len()
            invariant
                i <= self.keys@.len(),
                v@.len() == i,
                forall|j: int| 0 <= j < i ==> #[trigger] v@[j] == spec_decode_key(self.keys@[j]),
            decreases self.keys@.len() - i,
        {
            let k = self.keys[i];
            v.push([
                (k >> 24u32) as usize,
                ((k >> 16u32) & 0xffu32) as usize,
                ((k >> 8u32) & 0xffu32) as usize,
                (k & 0xffu32) as usize,
            ]);
            i = i + 1;
        }
        v
    }

    /// The keys in iteration order.
    pub closed spec fn keys_seq(&self) -> Seq<u32> {
        self.keys@
    }
}


/// The pre-drawn boundaries of a puzzle of at most 256 rows and columns, as
/// `PreBoundaries::from_puzzle` builds them, answer `contains` exactly by the
/// puzzle's boundary flags: a horizontal neighbour pair by its `h_edges`
/// flag, a vertical pair by its `v_edges` flag, in either order of the
/// endpoints, never for two cells that are not side neighbours, and the set
/// is empty exactly when no flag is set.
pub proof fn lemma_pre_boundaries_flags(p: Puzzle, b: PreBoundaries)
    requires
        p.wf(),
        p.height <= 256,
        p.width <= 256,
        forall|k: u32| b@.contains(k) <==> boundary_key(p, k),
    ensures
        forall|r: usize, c1: usize, c2: usize|
            r < p.height && c2 < p.width && c2 == c1 + 1 ==> (b@.contains(#[trigger] spec_edge_key(r, c1, r, c2))
                <==> p.h_edges@[r as int]@[c1 as int].is_boundary),
        forall|r1: usize, r2: usize, c: usize|
            r2 < p.height && c < p.width && r2 == r1 + 1 ==> (b@.contains(#[trigger] spec_edge_key(r1, c, r2, c))
                <==> p.v_edges@[r1 as int]@[c as int].is_boundary),
        forall|r1: usize, c1: usize, r2: usize, c2: usize|
            b@.contains(#[trigger] spec_edge_key(r1, c1, r2, c2)) == b@.contains(spec_edge_key(r2, c2, r1, c1)),
        forall|r1: usize, c1: usize, r2: usize, c2: usize|
            r1 < 256 && c1 < 256 && r2 < 256 && c2 < 256 && b@.contains(#[trigger] spec_edge_key(r1, c1, r2, c2))
                ==> (r1 == r2 && (c1 + 1 == c2 || c2 + 1 == c1)) || (c1 == c2 && (r1 + 1 == r2 || r2 + 1 == r1)),
        (b@ =~= Set::<u32>::empty()) <==> forall|r: int, c: int| !h_boundary(p, r, c) && !v_boundary(p, r, c),
{
    assert forall|r: usize, c1: usize, c2: usize|
        r < p.height && c2 < p.width && c2 == c1 + 1 implies (b@.contains(#[trigger] spec_edge_key(r, c1, r, c2))
            <==> p.h_edges@[r as int]@[c1 as int].is_boundary) by {
        let k = spec_edge_key(r, c1, r, c2);
        if p.h_edges@[r as int]@[c1 as int].is_boundary {
            assert(h_boundary(p, r as int, c1 as int));
            assert(k == spec_edge_key((r as int) as usize, (c1 as int) as usize, (r as int) as usize, (c1 as int + 1) as usize));
            assert(boundary_key(p, k));
        }
        if b@.contains(k) {
            assert(boundary_key(p, k));
            if exists|a: int, d: int| #[trigger] h_boundary(p, a, d) && k == spec_edge_key(a as usize, d as usize, a as usize, (d + 1) as usize) {
                let (a, d) = choose|a: int, d: int| #[trigger] h_boundary(p, a, d) && k == spec_edge_key(a as usize, d as usize, a as usize, (d + 1) as usize);
                assert(0 <= a < 256 && 0 <= d && d + 1 < 256);
                lemma_edge_key_injective(r, c1, r, c2, a as usize, d as usize, a as usize, (d + 1) as usize);
                assert(a == r as int && d == c1 as int);
            } else {
                let (a, d) = choose|a: int, d: int| #[trigger] v_boundary(p, a, d) && k == spec_edge_key(a as usize, d as usize, (a + 1) as usize, d as usize);
                assert(0 <= a && a + 1 < 256 && 0 <= d < 256);
                lemma_edge_key_injective(r, c1, r, c2, a as usize, d as usize, (a + 1) as usize, d as usize);
            }
        }
    }
    assert forall|r1: usize, r2: usize, c: usize|
        r2 < p.height && c < p.width && r2 == r1 + 1 implies (b@.contains(#[trigger] spec_edge_key(r1, c, r2, c))
            <==> p.v_edges@[r1 as int]@[c as int].is_boundary) by {
        let k = spec_edge_key(r1, c, r2, c);
        if p.v_edges@[r1 as int]@[c as int].is_boundary {
            assert(v_boundary(p, r1 as int, c as int));
            assert(k == spec_edge_key((r1 as int) as usize, (c as int) as usize, (r1 as int + 1) as usize, (c as int) as usize));
            assert(boundary_key(p, k));
        }
        if b@.contains(k) {
            assert(boundary_key(p, k));
            if exists|a: int, d: int| #[trigger] h_boundary(p, a, d) && k == spec_edge_key(a as usize, d as usize, a as usize, (d + 1) as usize) {
                let (a, d) = choose|a: int, d: int| #[trigger] h_boundary(p, a, d) && k == spec_edge_key(a as usize, d as usize, a as usize, (d + 1) as usize);
                assert(0 <= a < 256 && 0 <= d && d + 1 < 256);
                lemma_edge_key_injective(r1, c, r2, c, a as usize, d as usize, a as usize, (d + 1) as usize);
            } else {
                let (a, d) = choose|a: int, d: int| #[trigger] v_boundary(p, a, d) && k == spec_edge_key(a as usize, d as usize, (a + 1) as usize, d as usize);
                assert(0 <= a && a + 1 < 256 && 0 <= d < 256);
                lemma_edge_key_injective(r1, c, r2, c, a as usize, d as usize, (a + 1) as usize, d as usize);
                assert(a == r1 as int && d == c as int);
            }
        }
    }
    assert forall|r1: usize, c1: usize, r2: usize, c2: usize|
        b@.contains(#[trigger] spec_edge_key(r1, c1, r2, c2)) == b@.contains(spec_edge_key(r2, c2, r1, c1)) by {
        lemma_edge_key_symmetric(r1, c1, r2, c2);
    }
    assert forall|r1: usize, c1: usize, r2: usize, c2: usize|
        r1 < 256 && c1 < 256 && r2 < 256 && c2 < 256 && b@.contains(#[trigger] spec_edge_key(r1, c1, r2, c2))
            implies (r1 == r2 && (c1 + 1 == c2 || c2 + 1 == c1)) || (c1 == c2 && (r1 + 1 == r2 || r2 + 1 == r1)) by {
        let k = spec_edge_key(r1, c1, r2, c2);
        assert(boundary_key(p, k));
        if exists|a: int, d: int| #[trigger] h_boundary(p, a, d) && k == spec_edge_key(a as usize, d as usize, a as usize, (d + 1) as usize) {
            let (a, d) = choose|a: int, d: int| #[trigger] h_boundary(p, a, d) && k == spec_edge_key(a as usize, d as usize, a as usize, (d + 1) as usize);
                assert(0 <= a < 256 && 0 <= d && d + 1 < 256);
            lemma_edge_key_injective(r1, c1, r2, c2, a as usize, d as usize, a as usize, (d + 1) as usize);
        } else {
            let (a, d) = choose|a: int, d: int| #[trigger] v_boundary(p, a, d) && k == spec_edge_key(a as usize, d as usize, (a + 1) as usize, d as usize);
                assert(0 <= a && a + 1 < 256 && 0 <= d < 256);
            lemma_edge_key_injective(r1, c1, r2, c2, a as usize, d as usize, (a + 1) as usize, d as usize);
        }
    }
    if b@ =~= Set::<u32>::empty() {
        assert forall|r: int, c: int| !h_boundary(p, r, c) && !v_boundary(p, r, c) by {
            if h_boundary(p, r, c) {
                assert(boundary_key(p, spec_edge_key(r as usize, c as usize, r as usize, (c + 1) as usize)));
                assert(b@.contains(spec_edge_key(r as usize, c as usize, r as usize, (c + 1) as usize)));
            }
            if v_boundary(p, r, c) {
                assert(boundary_key(p, spec_edge_key(r as usize, c as usize, (r + 1) as usize, c as usize)));
                assert(b@.contains(spec_edge_key(r as usize, c as usize, (r + 1) as usize, c as usize)));
            }
        }
    }
    if forall|r: int, c: int| !h_boundary(p, r, c) && !v_boundary(p, r, c) {
        assert forall|k: u32| !b@.contains(k) by {
            if b@.contains(k) {
                assert(boundary_key(p, k));
            }
        }
        assert(b@ =~= Set::<u32>::empty());
    }
}

} // verus!
