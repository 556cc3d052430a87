//! The contract of a slotted store, and the stores that meet it.

use vstd::prelude::*;
use crate::model::{
    empty_from, empty_slots, is_first_empty, is_first_filled, is_last_filled, resized, slots_cloned,
    swapped,
};

pub mod bits;
pub mod bitvec;
pub mod option;

pub use self::bitvec::BitVecCore;
pub use self::option::OptionCore;

verus! {

/// The store of a container for which none is chosen. It does well in most
/// uses.
pub type DefaultCore<T> = BitVecCore<T>;

/// A store of slots, each of them empty or filled with one element.
///
/// A store has `cap` slots, with the indices `0..cap`, and a length `len`: no
/// slot from index `len` on is filled. The store does not count its elements,
/// and does not move `len` when a slot is filled or emptied: both are its
/// user's part.
pub trait Core<T>: Sized {
    /// The slots, one entry per index below the capacity.
    spec fn slots(&self) -> Seq<Option<T>>;

    /// The length: every slot from this index on is empty.
    spec fn spec_len(&self) -> nat;

    /// The representation is consistent. Every method asks for this and keeps
    /// it.
    spec fn wf(&self) -> bool;

    /// What a consistent store has: the length is at most the capacity, the
    /// capacity at most `isize::MAX`, and the slots from the length on are
    /// empty.
    proof fn lemma_wf(&self)
        requires
            self.wf(),
        ensures
            self.spec_len() <= self.slots().len() <= isize::MAX,
            empty_from(self.slots(), self.spec_len() as int),
    ;

    /// A store without slots. Allocates nothing.
    fn new() -> (out: Self)
        ensures
            out.wf(),
            out.slots().len() == 0,
            out.spec_len() == 0,
    ;

    /// The length.
    fn len(&self) -> (n: usize)
        requires
            self.wf(),
        ensures
            n == self.spec_len(),
    ;

    /// Sets the length. The slots from `new_len` on have to be empty; no slot
    /// is touched.
    fn set_len(&mut self, new_len: usize)
        requires
            old(self).wf(),
            new_len <= old(self).slots().len(),
            empty_from(old(self).slots(), new_len as int),
        ensures
            final(self).wf(),
            final(self).slots() == old(self).slots(),
            final(self).spec_len() == new_len,
    ;

    /// The capacity: the number of slots.
    fn cap(&self) -> (n: usize)
        requires
            self.wf(),
        ensures
            n == self.slots().len(),
    ;

    /// Changes the capacity to exactly `new_cap`. The slots below both the
    /// old and the new capacity keep their contents, and new slots are empty.
    fn realloc(&mut self, new_cap: usize)
        requires
            old(self).wf(),
            new_cap >= old(self).spec_len(),
            new_cap <= isize::MAX,
        ensures
            final(self).wf(),
            final(self).spec_len() == old(self).spec_len(),
            final(self).slots() == resized(old(self).slots(), new_cap as nat),
    ;

    /// Whether the slot at `idx` is filled.
    fn has_element_at(&self, idx: usize) -> (b: bool)
        requires
            self.wf(),
            idx < self.slots().len(),
        ensures
            b == (self.slots()[idx as int] is Some),
    ;

    /// Fills the empty slot at `idx`, which lies below the length, with
    /// `elem`.
    fn insert_at(&mut self, idx: usize, elem: T)
        requires
            old(self).wf(),
            idx < old(self).spec_len(),
            old(self).slots()[idx as int] is None,
        ensures
            final(self).wf(),
            final(self).spec_len() == old(self).spec_len(),
            final(self).slots() == old(self).slots().update(idx as int, Some(elem)),
    ;

    /// Empties the filled slot at `idx` and returns its element.
    fn remove_at(&mut self, idx: usize) -> (elem: T)
        requires
            old(self).wf(),
            idx < old(self).slots().len(),
            old(self).slots()[idx as int] is Some,
        ensures
            final(self).wf(),
            final(self).spec_len() == old(self).spec_len(),
            final(self).slots() == old(self).slots().update(idx as int, None),
            Some(elem) == old(self).slots()[idx as int],
    ;

    /// The element in the filled slot at `idx`.
    fn get_unchecked(&self, idx: usize) -> (elem: &T)
        requires
            self.wf(),
            idx < self.slots().len(),
            self.slots()[idx as int] is Some,
        ensures
            Some(*elem) == self.slots()[idx as int],
    ;

    /// The element in the filled slot at `idx`, to be changed in place.
    fn get_unchecked_mut(&mut self, idx: usize) -> (elem: &mut T)
        requires
            old(self).wf(),
            idx < old(self).slots().len(),
            old(self).slots()[idx as int] is Some,
        ensures
            Some(*elem) == old(self).slots()[idx as int],
            final(self).wf(),
            final(self).spec_len() == old(self).spec_len(),
            final(self).slots() == old(self).slots().update(idx as int, Some(*final(elem))),
    ;

    /// Empties every slot and sets the length to 0. The capacity stays.
    fn clear(&mut self)
        requires
            old(self).wf(),
        ensures
            final(self).wf(),
            final(self).spec_len() == 0,
            final(self).slots() == empty_slots::<T>(old(self).slots().len()),
    ;

    /// The smallest index of a filled slot that is at least `idx`.
    fn next_index_from(&self, idx: usize) -> (out: Option<usize>)
        requires
            self.wf(),
            idx <= self.slots().len(),
        ensures
            is_first_filled(self.slots(), idx as int, self.spec_len() as int, out),
    {
        proof {
            self.lemma_wf();
        }
        let len = self.len();
        let mut i = idx;
        while i < len
            invariant
                self.wf(),
                idx <= i,
                len == self.spec_len(),
                len <= self.slots().len(),
                forall|j: int| idx <= j < i ==> (#[trigger] self.slots()[j]) is None,
            decreases len - i,
        {
            if self.has_element_at(i) {
                return Some(i);
            }
            i += 1;
        }
        None
    }

    /// The largest index of a filled slot that is at most `idx`.
    fn prev_index_from(&self, idx: usize) -> (out: Option<usize>)
        requires
            self.wf(),
            idx < self.slots().len(),
        ensures
            is_last_filled(self.slots(), idx as int, out),
    {
        let mut i = idx;
        loop
            invariant
                self.wf(),
                i <= idx < self.slots().len(),
                forall|j: int| i < j <= idx ==> (#[trigger] self.slots()[j]) is None,
            decreases i,
        {
            if self.has_element_at(i) {
                return Some(i);
            }
            if i == 0 {
                return None;
            }
            i -= 1;
        }
    }

    /// The smallest index of an empty slot that is at least `idx`.
    fn next_hole_from(&self, idx: usize) -> (out: Option<usize>)
        requires
            self.wf(),
            idx <= self.slots().len(),
        ensures
            is_first_empty(self.slots(), idx as int, self.slots().len() as int, out),
    {
        let cap = self.cap();
        let mut i = idx;
        while i < cap
            invariant
                self.wf(),
                idx <= i,
                cap == self.slots().len(),
                forall|j: int| idx <= j < i ==> (#[trigger] self.slots()[j]) is Some,
            decreases cap - i,
        {
            if !self.has_element_at(i) {
                return Some(i);
            }
            i += 1;
        }
        None
    }

    /// A copy of the store, empty slots included: it has the same capacity
    /// and length, and a clone of each element in the element's slot.
    fn duplicate(&self) -> (out: Self) where T: Clone
        ensures
            self.wf() ==> out.wf() && out.spec_len() == self.spec_len() && slots_cloned(
                self.slots(),
                out.slots(),
            ),
    ;

    /// Exchanges the contents of the slots at `a` and `b`, of which any may
    /// be empty. A filled slot is not moved to the length or behind it.
    fn swap(&mut self, a: usize, b: usize)
        requires
            old(self).wf(),
            a < old(self).slots().len(),
            b < old(self).slots().len(),
            a >= old(self).spec_len() ==> old(self).slots()[b as int] is None,
            b >= old(self).spec_len() ==> old(self).slots()[a as int] is None,
        ensures
            final(self).wf(),
            final(self).spec_len() == old(self).spec_len(),
            final(self).slots() == swapped(old(self).slots(), a as int, b as int),
    ;
}

/// Gives back the memory that a buffer holds beyond its length.
///
/// This calls `Vec::shrink_to_fit`. That the call leaves the buffer's
/// contents as they are is not proved here but taken from the standard
/// library's documentation.
#[verifier::external_body]
pub(crate) fn shrink_buffer<E>(buffer: &mut Vec<E>)
    ensures
        final(buffer)@ == old(buffer)@,
{
    buffer.shrink_to_fit();
}

} // verus!
