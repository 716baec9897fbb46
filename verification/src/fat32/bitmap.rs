//! The in-memory allocation bitmap.

use vstd::prelude::*;

verus! {

/// Bit `k` of `w`.
pub open spec fn word_bit(w: u64, k: u64) -> bool {
    (w >> k) & 1 == 1
}

proof fn lemma_word_bits(w: u64, k: u64, j: u64)
    requires
        k < 64,
        j < 64,
    ensures
        word_bit(w | (1u64 << k), j) == (j == k || word_bit(w, j)),
        word_bit(w & !(1u64 << k), j) == (j != k && word_bit(w, j)),
        (w & (1u64 << k) != 0) == word_bit(w, k),
        !word_bit(0, j),
{
    assert((((w | (1u64 << k)) >> j) & 1 == 1 <==> (j == k || (w >> j) & 1 == 1)) && (((w & !(1u64
        << k)) >> j) & 1 == 1 <==> (j != k && (w >> j) & 1 == 1)) && ((w & (1u64 << k) != 0) <==> (w
        >> k) & 1 == 1) && (0u64 >> j) & 1 != 1) by (bit_vector)
        requires
            k < 64,
            j < 64,
    ;
}

/// One bit for each cluster of a volume, set where the cluster is allocated.
pub struct AllocBitmap {
    pub words: Vec<u64>,
}

impl AllocBitmap {
    /// The number of bits.
    pub open spec fn capacity(self) -> int {
        (self.words@.len() * 64) as int
    }

    pub open spec fn bit(self, i: int) -> bool {
        word_bit(self.words@[i / 64], (i % 64) as u64)
    }

    /// A bitmap with room for `total` bits, all clear.
    pub fn new(total: usize) -> (r: Self)
        ensures
            r.capacity() >= total,
            r.capacity() < total + 64,
            forall|i: int| 0 <= i < r.capacity() ==> !#[trigger] r.bit(i),
    {
        let n: usize = total / 64 + (if total % 64 == 0 {
            0usize
        } else {
            1usize
        });
        let r = AllocBitmap { words: vec![0u64; n] };
        proof {
            assert forall|i: int| 0 <= i < r.capacity() implies !#[trigger] r.bit(i) by {
                lemma_word_bits(0, 0, (i % 64) as u64);
            }
        }
        r
    }

    pub fn get(&self, i: usize) -> (r: bool)
        requires
            i < self.capacity(),
        ensures
            r == self.bit(i as int),
    {
        proof {
            lemma_word_bits(self.words@[i as int / 64], (i % 64) as u64, (i % 64) as u64);
        }
        self.words[i / 64] & (1u64 << (i % 64) as u64) != 0
    }

    pub fn set(&mut self, i: usize)
        requires
            i < old(self).capacity(),
        ensures
            final(self).capacity() == old(self).capacity(),
            forall|j: int|
                0 <= j < old(self).capacity() ==> #[trigger] final(self).bit(j) == (j == i
                    || old(self).bit(j)),
    {
        let w: u64 = self.words[i / 64];
        self.words[i / 64] = w | (1u64 << (i % 64) as u64);
        proof {
            assert forall|j: int| 0 <= j < self.capacity() implies #[trigger] self.bit(j) == (j == i
                || old(self).bit(j)) by {
                lemma_word_bits(w, (i % 64) as u64, (j % 64) as u64);
            }
        }
    }

    pub fn clear(&mut self, i: usize)
        requires
            i < old(self).capacity(),
        ensures
            final(self).capacity() == old(self).capacity(),
            forall|j: int|
                0 <= j < old(self).capacity() ==> #[trigger] final(self).bit(j) == (j != i
                    && old(self).bit(j)),
    {
        let w: u64 = self.words[i / 64];
        self.words[i / 64] = w & !(1u64 << (i % 64) as u64);
        proof {
            assert forall|j: int| 0 <= j < self.capacity() implies #[trigger] self.bit(j) == (j != i
                && old(self).bit(j)) by {
                lemma_word_bits(w, (i % 64) as u64, (j % 64) as u64);
            }
        }
    }

    /// The bit of cluster `clus` on a volume of `total` clusters; the first two
    /// cluster numbers name no cluster.
    pub fn bit_index(clus: u32, total: usize) -> (r: Option<usize>)
        ensures
            r == (if 2 <= clus < 2 + total {
                Some((clus - 2) as usize)
            } else {
                None
            }),
    {
        if clus < 2 {
            return None;
        }
        let i: usize = (clus - 2) as usize;
        if i < total {
            Some(i)
        } else {
            None
        }
    }
}

} // verus!
