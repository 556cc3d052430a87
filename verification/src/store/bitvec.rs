//! The store that tracks the filled slots in a vector of bits.

use vstd::prelude::*;
use crate::model::{
    empty_from, empty_slots, is_filled, is_first_empty, is_first_filled, resized, slots_cloned,
    swapped,
};
use crate::store::{shrink_buffer, Core};
use crate::store::bits::{
    bit_at, complement, find_lowest_set_bit, lemma_zero_word, test_bit, with_bit_cleared,
    with_bit_flipped, with_bit_set, without_bits_below, BITS_PER_USIZE,
};

verus! {

/// A store that keeps the elements in one buffer and, in a second one, one
/// bit per slot that tells whether the slot is filled.
///
/// The bits are packed into machine words, so that the filled and the empty
/// slots can be found a word at a time without touching the elements.
pub struct BitVecCore<T> {
    /// One entry per slot.
    elems: Vec<Option<T>>,
    /// Bit `i % usize::BITS` of word `i / usize::BITS` is set if and only if
    /// slot `i` is filled. The bits behind the last slot are not set.
    bits: Vec<usize>,
    /// The length of the store.
    len: usize,
}

/// The number of words that hold one bit for each of `cap` slots: the
/// smallest `n` with `n * usize::BITS >= cap`.
pub fn num_usizes_for(cap: usize) -> (n: usize)
    requires
        cap + (usize::BITS - 1) <= usize::MAX,
    ensures
        n * usize::BITS >= cap,
        cap > 0 ==> (n - 1) * usize::BITS < cap,
        cap == 0 ==> n == 0,
{
    let n = (cap + (BITS_PER_USIZE - 1)) / BITS_PER_USIZE;
    proof {
        lemma_div_mod(cap + (usize::BITS - 1));
    }
    n
}

/// Division of a position by the word width, with its remainder.
proof fn lemma_div_mod(p: int)
    requires
        0 <= p,
    ensures
        p == (p / (usize::BITS as int)) * usize::BITS + p % (usize::BITS as int),
        0 <= p % (usize::BITS as int) < usize::BITS,
        0 <= p / (usize::BITS as int) <= p,
{
    if usize::BITS == 32 {
        assert(p == (p / 32) * 32 + p % 32);
    } else {
        assert(usize::BITS == 64);
        assert(p == (p / 64) * 64 + p % 64);
    }
}

/// The position of bit `j` of word `w` is divided back into `w` and `j`.
proof fn lemma_word_bit(w: int, j: int)
    requires
        0 <= w,
        0 <= j < usize::BITS,
    ensures
        (w * usize::BITS + j) / (usize::BITS as int) == w,
        (w * usize::BITS + j) % (usize::BITS as int) == j,
{
    if usize::BITS == 32 {
        assert((w * 32 + j) / 32 == w);
        assert((w * 32 + j) % 32 == j);
    } else {
        assert(usize::BITS == 64);
        assert((w * 64 + j) / 64 == w);
        assert((w * 64 + j) % 64 == j);
    }
}

/// Each bit of `bits` is set if and only if the slot of its position exists
/// in `elems` and is filled.
spec fn tracks<T>(bits: Seq<usize>, elems: Seq<Option<T>>) -> bool {
    forall|w: int, j: usize|
        0 <= w < bits.len() && j < usize::BITS ==> #[trigger] bit_at(bits[w], j) == is_filled(
            elems,
            w * usize::BITS + j,
        )
}

impl<T> Core<T> for BitVecCore<T> {
    closed spec fn slots(&self) -> Seq<Option<T>> {
        self.elems@
    }

    closed spec fn spec_len(&self) -> nat {
        self.len as nat
    }

    closed spec fn wf(&self) -> bool {
        &&& self.len <= self.elems@.len() <= isize::MAX
        &&& empty_from(self.elems@, self.len as int)
        &&& self.bits@.len() * usize::BITS >= self.elems@.len()
        &&& self.elems@.len() > 0 ==> (self.bits@.len() - 1) * usize::BITS < self.elems@.len()
        &&& self.elems@.len() == 0 ==> self.bits@.len() == 0
        &&& tracks(self.bits@, self.elems@)
    }

    proof fn lemma_wf(&self) {
    }

    fn new() -> (out: Self) {
        Self { elems: Vec::new(), bits: Vec::new(), len: 0 }
    }

    fn len(&self) -> (n: usize) {
        self.len
    }

    fn set_len(&mut self, new_len: usize) {
        self.len = new_len;
    }

    fn cap(&self) -> (n: usize) {
        self.elems.len()
    }

    fn realloc(&mut self, new_cap: usize) {
        if new_cap == 0 {
            // The length is 0, so no slot is filled: both buffers can go.
            self.elems = Vec::new();
            self.bits = Vec::new();
            assert(self.elems@ =~= resized(old(self).elems@, 0));
            return ;
        }
        let old_cap = self.elems.len();
        let old_usizes = self.bits.len();

        // The element buffer: it grows in place where it can, and every new
        // slot is empty. The slots that go when it shrinks are empty: they
        // lie at the length or behind it.
        if new_cap > old_cap {
            self.elems.reserve(new_cap - old_cap);
            while self.elems.len() < new_cap
                invariant
                    old_cap <= self.elems@.len() <= new_cap,
                    self.elems@ == resized(old(self).elems@, self.elems@.len()),
                    old_cap == old(self).elems@.len(),
                    self.bits == old(self).bits,
                    self.len == old(self).len,
                decreases new_cap - self.elems@.len(),
            {
                self.elems.push(None);
                assert(self.elems@ =~= resized(old(self).elems@, self.elems@.len()));
            }
        } else {
            self.elems.truncate(new_cap);
            shrink_buffer(&mut self.elems);
            assert(self.elems@ =~= resized(old(self).elems@, new_cap as nat));
        }

        // The bit buffer: new words are zero, the words that stay keep their
        // bits.
        let new_usizes = num_usizes_for(new_cap);
        if new_usizes > old_usizes {
            self.bits.reserve(new_usizes - old_usizes);
            while self.bits.len() < new_usizes
                invariant
                    old_usizes <= self.bits@.len() <= new_usizes,
                    old_usizes == old(self).bits@.len(),
                    forall|w: int| 0 <= w < old_usizes ==> self.bits@[w] == old(self).bits@[w],
                    forall|w: int| old_usizes <= w < self.bits@.len() ==> self.bits@[w] == 0,
                    self.elems@ == resized(old(self).elems@, new_cap as nat),
                    self.len == old(self).len,
                decreases new_usizes - self.bits@.len(),
            {
                self.bits.push(0);
            }
        } else {
            self.bits.truncate(new_usizes);
            shrink_buffer(&mut self.bits);
        }
        proof {
            let bits0 = old(self).bits@;
            let elems0 = old(self).elems@;
            let bits1 = self.bits@;
            let elems1 = self.elems@;
            assert forall|w: int, j: usize| 0 <= w < bits1.len() && j < usize::BITS implies #[trigger] bit_at(
                bits1[w],
                j,
            ) == is_filled(elems1, w * usize::BITS + j) by {
                let p = w * usize::BITS + j;
                if w < bits0.len() {
                    assert(bit_at(bits0[w], j) == is_filled(elems0, p));
                } else {
                    lemma_zero_word(0usize);
                    lemma_mul_le(bits0.len() as int, w);
                }
            }
        }
    }

    fn has_element_at(&self, idx: usize) -> (b: bool) {
        let usize_pos = idx / BITS_PER_USIZE;
        let bit_pos = idx % BITS_PER_USIZE;
        proof {
            lemma_div_mod(idx as int);
            self.lemma_word_index(idx as int);
        }
        let block = self.bits[usize_pos];
        test_bit(block, bit_pos)
    }

    fn insert_at(&mut self, idx: usize, elem: T) {
        let usize_pos = idx / BITS_PER_USIZE;
        let bit_pos = idx % BITS_PER_USIZE;
        proof {
            lemma_div_mod(idx as int);
            self.lemma_word_index(idx as int);
        }
        self.elems[idx] = Some(elem);
        let block = self.bits[usize_pos];
        let marked = with_bit_set(block, bit_pos);
        self.bits[usize_pos] = marked;
        proof {
            lemma_tracks_update(
                old(self).bits@,
                old(self).elems@,
                self.bits@,
                self.elems@,
                idx as int,
            );
        }
    }

    fn remove_at(&mut self, idx: usize) -> (elem: T) {
        let usize_pos = idx / BITS_PER_USIZE;
        let bit_pos = idx % BITS_PER_USIZE;
        proof {
            lemma_div_mod(idx as int);
            self.lemma_word_index(idx as int);
        }
        let block = self.bits[usize_pos];
        let unmarked = with_bit_cleared(block, bit_pos);
        self.bits[usize_pos] = unmarked;
        let taken = self.elems[idx].take();
        proof {
            lemma_tracks_update(
                old(self).bits@,
                old(self).elems@,
                self.bits@,
                self.elems@,
                idx as int,
            );
        }
        taken.unwrap()
    }

    fn get_unchecked(&self, idx: usize) -> (elem: &T) {
        self.elems[idx].as_ref().unwrap()
    }

    fn get_unchecked_mut(&mut self, idx: usize) -> (elem: &mut T) {
        self.elems[idx].as_mut().unwrap()
    }

    fn clear(&mut self) {
        // No slot from the length on is filled, so neither the elements nor
        // the bits behind have to be looked at.
        let len = self.len;
        let mut idx: usize = 0;
        while idx < len
            invariant
                idx <= len,
                len == old(self).len,
                old(self).wf(),
                self.bits == old(self).bits,
                self.len == old(self).len,
                self.elems@.len() == old(self).elems@.len(),
                forall|i: int| 0 <= i < idx ==> (#[trigger] self.elems@[i]) is None,
                forall|i: int| idx <= i < self.elems@.len() ==> self.elems@[i] == old(self).elems@[i],
            decreases len - idx,
        {
            let usize_pos = idx / BITS_PER_USIZE;
            let bit_pos = idx % BITS_PER_USIZE;
            proof {
                lemma_div_mod(idx as int);
                old(self).lemma_word_index(idx as int);
            }
            if test_bit(self.bits[usize_pos], bit_pos) {
                self.elems[idx] = None;
            }
            idx += 1;
        }
        assert(self.elems@ =~= empty_slots::<T>(old(self).elems@.len()));
        let used_usizes = num_usizes_for(len);
        proof {
            if used_usizes > self.bits@.len() {
                lemma_mul_le(self.bits@.len() as int, used_usizes as int - 1);
            }
        }
        let mut bit_idx: usize = 0;
        while bit_idx < used_usizes
            invariant
                bit_idx <= used_usizes <= self.bits@.len(),
                self.bits@.len() == old(self).bits@.len(),
                self.elems@ == empty_slots::<T>(old(self).elems@.len()),
                self.len == old(self).len,
                forall|w: int| 0 <= w < bit_idx ==> self.bits@[w] == 0,
                forall|w: int| bit_idx <= w < self.bits@.len() ==> self.bits@[w] == old(self).bits@[w],
            decreases used_usizes - bit_idx,
        {
            self.bits[bit_idx] = 0;
            bit_idx += 1;
        }
        self.len = 0;
        proof {
            let bits0 = old(self).bits@;
            let elems0 = old(self).elems@;
            let bits1 = self.bits@;
            assert forall|w: int, j: usize| 0 <= w < bits1.len() && j < usize::BITS implies #[trigger] bit_at(
                bits1[w],
                j,
            ) == is_filled(self.elems@, w * usize::BITS + j) by {
                if w < used_usizes {
                    lemma_zero_word(0usize);
                } else {
                    assert(bit_at(bits0[w], j) == is_filled(elems0, w * usize::BITS + j));
                    lemma_mul_le(used_usizes as int, w);
                }
            }
        }
    }

    fn next_index_from(&self, idx: usize) -> (out: Option<usize>) {
        let usizes = self.bits.len();
        let mut usize_pos = idx / BITS_PER_USIZE;
        let bit_pos = idx % BITS_PER_USIZE;
        proof {
            lemma_div_mod(idx as int);
        }
        if usize_pos >= usizes {
            proof {
                lemma_mul_le(usizes as int, usize_pos as int);
            }
            return None;
        }
        // The word of `idx`, without the bits of the slots before it.
        let block = self.bits[usize_pos];
        let first = without_bits_below(block, bit_pos);
        if first != 0 {
            let k = find_lowest_set_bit(first);
            proof {
                assert(bit_at(first, k));
                assert forall|j: usize| bit_pos <= j < k implies !#[trigger] bit_at(block, j) by {
                    assert(!bit_at(first, j));
                }
                self.lemma_found_filled(idx as int, usize_pos as int, bit_pos as int, k);
            }
            return Some(usize_pos * BITS_PER_USIZE + k);
        }
        proof {
            lemma_zero_word(first);
            assert forall|j: usize| bit_pos <= j < usize::BITS implies !#[trigger] bit_at(block, j) by {
                assert(!bit_at(first, j));
            }
            self.lemma_word_empty_from(usize_pos as int, bit_pos as int);
        }
        usize_pos += 1;
        // Whole words: one that is zero holds no filled slot.
        while usize_pos < usizes
            invariant
                self.wf(),
                usizes == self.bits@.len(),
                0 < usize_pos <= usizes,
                idx < usize_pos * usize::BITS,
                forall|i: int|
                    idx <= i < usize_pos * usize::BITS && i < self.elems@.len() ==> (
                    #[trigger] self.elems@[i]) is None,
            decreases usizes - usize_pos,
        {
            let block = self.bits[usize_pos];
            if block != 0 {
                let k = find_lowest_set_bit(block);
                proof {
                    self.lemma_found_filled(usize_pos * usize::BITS, usize_pos as int, 0, k);
                }
                return Some(usize_pos * BITS_PER_USIZE + k);
            }
            proof {
                lemma_zero_word(block);
                self.lemma_word_empty_from(usize_pos as int, 0);
                lemma_mul_succ(usize_pos as int);
            }
            usize_pos += 1;
        }
        None
    }

    fn next_hole_from(&self, idx: usize) -> (out: Option<usize>) {
        let cap = self.elems.len();
        let usizes = self.bits.len();
        let mut usize_pos = idx / BITS_PER_USIZE;
        let bit_pos = idx % BITS_PER_USIZE;
        proof {
            lemma_div_mod(idx as int);
        }
        if usize_pos >= usizes {
            proof {
                lemma_mul_le(usizes as int, usize_pos as int);
            }
            return None;
        }
        // The complement of the word of `idx`, without the bits of the slots
        // before it: a set bit stands for an empty slot, or for none behind
        // the last one.
        let block = self.bits[usize_pos];
        let inverted = complement(block);
        let first = without_bits_below(inverted, bit_pos);
        if first != 0 {
            let k = find_lowest_set_bit(first);
            proof {
                assert(bit_at(first, k) && bit_at(inverted, k));
                assert forall|j: usize| bit_pos <= j < k implies #[trigger] bit_at(block, j) by {
                    assert(!bit_at(first, j));
                    assert(!bit_at(inverted, j));
                }
                self.lemma_found_empty(idx as int, usize_pos as int, bit_pos as int, k);
            }
            let hole = usize_pos * BITS_PER_USIZE + k;
            return if hole < cap {
                Some(hole)
            } else {
                None
            };
        }
        proof {
            lemma_zero_word(first);
            assert forall|j: usize| bit_pos <= j < usize::BITS implies #[trigger] bit_at(block, j) by {
                assert(!bit_at(first, j));
                assert(!bit_at(inverted, j));
            }
            self.lemma_word_filled_from(usize_pos as int, bit_pos as int);
        }
        usize_pos += 1;
        while usize_pos < usizes
            invariant
                self.wf(),
                usizes == self.bits@.len(),
                cap == self.elems@.len(),
                0 < usize_pos <= usizes,
                idx < usize_pos * usize::BITS,
                usize_pos * usize::BITS <= cap,
                forall|i: int| idx <= i < usize_pos * usize::BITS ==> (#[trigger] self.elems@[i]) is Some,
            decreases usizes - usize_pos,
        {
            let block = self.bits[usize_pos];
            let inverted = complement(block);
            if inverted != 0 {
                let k = find_lowest_set_bit(inverted);
                proof {
                    assert(bit_at(inverted, k));
                    assert forall|j: usize| j < k implies #[trigger] bit_at(block, j) by {
                        assert(!bit_at(inverted, j));
                    }
                    self.lemma_found_empty(usize_pos * usize::BITS, usize_pos as int, 0, k);
                }
                let hole = usize_pos * BITS_PER_USIZE + k;
                return if hole < cap {
                    Some(hole)
                } else {
                    None
                };
            }
            proof {
                lemma_zero_word(inverted);
                assert forall|j: usize| j < usize::BITS implies #[trigger] bit_at(block, j) by {
                    assert(!bit_at(inverted, j));
                }
                self.lemma_word_filled_from(usize_pos as int, 0);
                lemma_mul_succ(usize_pos as int);
            }
            usize_pos += 1;
        }
        None
    }

    fn duplicate(&self) -> (out: Self) where T: Clone {
        let cap = self.elems.len();

        // The elements: a clone of each, in its slot.
        let mut elems: Vec<Option<T>> = Vec::new();
        elems.reserve(cap);
        let mut i: usize = 0;
        while i < cap
            invariant
                i <= cap,
                cap == self.elems@.len(),
                elems@.len() == i,
                forall|j: int|
                    0 <= j < i ==> match (#[trigger] self.elems@[j]) {
                        Some(elem) => elems@[j] is Some && cloned(elem, elems@[j]->0),
                        None => elems@[j] is None,
                    },
            decreases cap - i,
        {
            let slot = match &self.elems[i] {
                Some(elem) => Some(elem.clone()),
                None => None,
            };
            elems.push(slot);
            i += 1;
        }

        // The bits: a copy of each word.
        let usizes = self.bits.len();
        let mut bits: Vec<usize> = Vec::new();
        bits.reserve(usizes);
        let mut w: usize = 0;
        while w < usizes
            invariant
                w <= usizes,
                usizes == self.bits@.len(),
                bits@.len() == w,
                forall|v: int| 0 <= v < w ==> bits@[v] == self.bits@[v],
            decreases usizes - w,
        {
            bits.push(self.bits[w]);
            w += 1;
        }
        proof {
            assert forall|j: int| self.len <= j < elems@.len() && self.wf() implies (
            #[trigger] elems@[j]) is None by {
                assert(self.elems@[j] is None);
            }
            if self.wf() {
                assert forall|v: int, j: usize|
                    0 <= v < bits@.len() && j < usize::BITS implies #[trigger] bit_at(bits@[v], j)
                    == is_filled(elems@, v * usize::BITS + j) by {
                    let p = v * usize::BITS + j;
                    assert(bit_at(self.bits@[v], j) == is_filled(self.elems@, p));
                    if 0 <= p < elems@.len() {
                        assert((self.elems@[p] is Some) == (elems@[p] is Some));
                    }
                }
            }
        }
        Self { elems, bits, len: self.len }
    }

    fn swap(&mut self, a: usize, b: usize) {
        let a_existed = self.has_element_at(a);
        let b_existed = self.has_element_at(b);

        // 1 if exactly one of the two slots is filled: then both bits are
        // flipped, and else none.
        let swap_bit: usize = if a_existed != b_existed {
            1
        } else {
            0
        };
        proof {
            lemma_div_mod(a as int);
            lemma_div_mod(b as int);
            self.lemma_word_index(a as int);
            self.lemma_word_index(b as int);
        }

        // For a
        let usize_pos = a / BITS_PER_USIZE;
        let bit_pos = a % BITS_PER_USIZE;
        let flipped = with_bit_flipped(self.bits[usize_pos], bit_pos, swap_bit);
        self.bits[usize_pos] = flipped;
        let ghost bits_between = self.bits@;
        let ghost elems_between = old(self).elems@.update(a as int, old(self).elems@[b as int]);
        proof {
            lemma_tracks_update(
                old(self).bits@,
                old(self).elems@,
                bits_between,
                elems_between,
                a as int,
            );
        }

        // For b
        let usize_pos = b / BITS_PER_USIZE;
        let bit_pos = b % BITS_PER_USIZE;
        let flipped = with_bit_flipped(self.bits[usize_pos], bit_pos, swap_bit);
        self.bits[usize_pos] = flipped;

        // Finally the elements themselves.
        let at_a = self.elems[a].take();
        let at_b = self.elems[b].take();
        self.elems[a] = at_b;
        self.elems[b] = at_a;
        assert(self.elems@ =~= swapped(old(self).elems@, a as int, b as int));
        proof {
            lemma_tracks_update(bits_between, elems_between, self.bits@, self.elems@, b as int);
        }
    }
}

impl<T: Clone> Clone for BitVecCore<T> {
    /// A copy of the store, empty slots included.
    fn clone(&self) -> (out: Self)
        ensures
            self.wf() ==> out.wf() && out.spec_len() == self.spec_len() && slots_cloned(
                self.slots(),
                out.slots(),
            ),
    {
        self.duplicate()
    }
}

impl<T> BitVecCore<T> {
    /// If bit `k` of word `w` is the lowest set bit from bit `from_bit` on, and
    /// no slot from `start` up to the position of bit `from_bit` is filled,
    /// the position of bit `k` is the first filled slot from `start` on.
    proof fn lemma_found_filled(&self, start: int, w: int, from_bit: int, k: usize)
        requires
            self.wf(),
            0 <= w < self.bits@.len(),
            0 <= from_bit <= k < usize::BITS,
            0 <= start <= w * usize::BITS + from_bit,
            bit_at(self.bits@[w], k),
            forall|j: usize| from_bit <= j < k ==> !#[trigger] bit_at(self.bits@[w], j),
            forall|i: int|
                start <= i < w * usize::BITS + from_bit && i < self.elems@.len() ==> (
                #[trigger] self.elems@[i]) is None,
        ensures
            w * usize::BITS + k < self.len,
            is_first_filled(self.elems@, start, self.len as int, Some((w * usize::BITS + k) as usize)),
    {
        let found = w * usize::BITS + k;
        assert(is_filled(self.elems@, found));
        assert forall|i: int| start <= i < found implies (#[trigger] self.elems@[i]) is None by {
            if i >= w * usize::BITS + from_bit {
                let j = (i - w * usize::BITS) as usize;
                assert(bit_at(self.bits@[w], j) == is_filled(self.elems@, w * usize::BITS + j));
            }
        }
    }

    /// A word without a set bit from `from_bit` on holds no filled slot from
    /// that bit's position on.
    proof fn lemma_word_empty_from(&self, w: int, from_bit: int)
        requires
            self.wf(),
            0 <= w < self.bits@.len(),
            0 <= from_bit < usize::BITS,
            forall|j: usize| from_bit <= j < usize::BITS ==> !#[trigger] bit_at(self.bits@[w], j),
        ensures
            forall|i: int|
                w * usize::BITS + from_bit <= i < (w + 1) * usize::BITS && i < self.elems@.len() ==> (
                #[trigger] self.elems@[i]) is None,
    {
        lemma_mul_succ(w);
        assert forall|i: int|
            w * usize::BITS + from_bit <= i < (w + 1) * usize::BITS && i < self.elems@.len() implies (
        #[trigger] self.elems@[i]) is None by {
            let j = (i - w * usize::BITS) as usize;
            assert(bit_at(self.bits@[w], j) == is_filled(self.elems@, w * usize::BITS + j));
        }
    }

    /// If bit `k` of word `w` is the lowest bit from bit `from_bit` on that is
    /// not set, and every slot from `start` up to the position of bit
    /// `from_bit` is filled, the position of bit `k` is the first empty slot
    /// from `start` on, provided it is the position of a slot; if it is not,
    /// there is no empty slot from `start` on.
    proof fn lemma_found_empty(&self, start: int, w: int, from_bit: int, k: usize)
        requires
            self.wf(),
            0 <= w < self.bits@.len(),
            0 <= from_bit <= k < usize::BITS,
            0 <= start <= w * usize::BITS + from_bit <= self.elems@.len(),
            !bit_at(self.bits@[w], k),
            forall|j: usize| from_bit <= j < k ==> #[trigger] bit_at(self.bits@[w], j),
            forall|i: int| start <= i < w * usize::BITS + from_bit ==> (#[trigger] self.elems@[i]) is Some,
        ensures
            w * usize::BITS + k <= usize::MAX,
            is_first_empty(
                self.elems@,
                start,
                self.elems@.len() as int,
                if w * usize::BITS + k < self.elems@.len() {
                    Some((w * usize::BITS + k) as usize)
                } else {
                    None
                },
            ),
    {
        let found = w * usize::BITS + k;
        lemma_mul_le(w, self.bits@.len() as int - 1);
        assert(bit_at(self.bits@[w], k) == is_filled(self.elems@, found));
        assert forall|i: int| start <= i < found && i < self.elems@.len() implies (
        #[trigger] self.elems@[i]) is Some by {
            if i >= w * usize::BITS + from_bit {
                let j = (i - w * usize::BITS) as usize;
                assert(bit_at(self.bits@[w], j) == is_filled(self.elems@, w * usize::BITS + j));
            }
        }
    }

    /// A word with every bit from `from_bit` on set holds filled slots only
    /// from that bit's position on, and all its positions are slots.
    proof fn lemma_word_filled_from(&self, w: int, from_bit: int)
        requires
            self.wf(),
            0 <= w < self.bits@.len(),
            0 <= from_bit < usize::BITS,
            forall|j: usize| from_bit <= j < usize::BITS ==> #[trigger] bit_at(self.bits@[w], j),
        ensures
            (w + 1) * usize::BITS <= self.elems@.len(),
            forall|i: int|
                w * usize::BITS + from_bit <= i < (w + 1) * usize::BITS ==> (
                #[trigger] self.elems@[i]) is Some,
    {
        lemma_mul_succ(w);
        let top = (usize::BITS - 1) as usize;
        assert(bit_at(self.bits@[w], top) == is_filled(self.elems@, w * usize::BITS + top));
        assert forall|i: int| w * usize::BITS + from_bit <= i < (w + 1) * usize::BITS implies (
        #[trigger] self.elems@[i]) is Some by {
            let j = (i - w * usize::BITS) as usize;
            assert(bit_at(self.bits@[w], j) == is_filled(self.elems@, w * usize::BITS + j));
        }
    }

    /// The word that holds the bit of an existing slot exists.
    proof fn lemma_word_index(&self, idx: int)
        requires
            self.wf(),
            0 <= idx < self.elems@.len(),
        ensures
            0 <= idx / (usize::BITS as int) < self.bits@.len(),
    {
        lemma_div_mod(idx);
        let w = idx / (usize::BITS as int);
        let n = self.bits@.len() as int;
        if w >= n {
            assert(w * usize::BITS >= n * usize::BITS) by (nonlinear_arith)
                requires
                    w >= n,
                    usize::BITS > 0,
            ;
        }
    }
}

/// More words hold more positions.
proof fn lemma_mul_le(a: int, b: int)
    requires
        a <= b,
    ensures
        a * usize::BITS <= b * usize::BITS,
{
    assert(a * usize::BITS <= b * usize::BITS) by (nonlinear_arith)
        requires
            a <= b,
            usize::BITS > 0,
    ;
}

/// The positions of word `w` end where those of word `w + 1` begin.
proof fn lemma_mul_succ(w: int)
    ensures
        (w + 1) * usize::BITS == w * usize::BITS + usize::BITS,
{
    assert((w + 1) * usize::BITS == w * usize::BITS + usize::BITS) by (nonlinear_arith);
}

/// Changing the bit of one slot together with the slot itself keeps the bits
/// in step with the slots.
proof fn lemma_tracks_update<T>(
    bits0: Seq<usize>,
    elems0: Seq<Option<T>>,
    bits1: Seq<usize>,
    elems1: Seq<Option<T>>,
    idx: int,
)
    requires
        tracks(bits0, elems0),
        0 <= idx < elems0.len(),
        0 <= idx / (usize::BITS as int) < bits0.len(),
        bits1.len() == bits0.len(),
        elems1.len() == elems0.len(),
        forall|i: int| 0 <= i < elems0.len() && i != idx ==> elems1[i] == elems0[i],
        forall|w: int| 0 <= w < bits0.len() && w != idx / (usize::BITS as int) ==> bits1[w] == bits0[w],
        forall|j: usize|
            j < usize::BITS && j != idx % (usize::BITS as int) ==> #[trigger] bit_at(
                bits1[idx / (usize::BITS as int)],
                j,
            ) == bit_at(bits0[idx / (usize::BITS as int)], j),
        bit_at(bits1[idx / (usize::BITS as int)], (idx % (usize::BITS as int)) as usize) == (
        elems1[idx] is Some),
    ensures
        tracks(bits1, elems1),
{
    lemma_div_mod(idx);
    assert forall|w: int, j: usize| 0 <= w < bits1.len() && j < usize::BITS implies #[trigger] bit_at(
        bits1[w],
        j,
    ) == is_filled(elems1, w * usize::BITS + j) by {
        lemma_word_bit(w, j as int);
        assert(bit_at(bits0[w], j) == is_filled(elems0, w * usize::BITS + j));
    }
}

} // verus!
