//! The store that keeps each slot as one optional element.

use vstd::prelude::*;
use crate::store::{shrink_buffer, Core};
use crate::model::{empty_from, empty_slots, resized, slots_cloned, swapped};

verus! {

/// A store that keeps each slot as one `Option<T>` in a single buffer.
pub struct OptionCore<T> {
    /// One entry per slot.
    data: Vec<Option<T>>,
    /// The length of the store; the buffer's own length is the capacity.
    len: usize,
}

impl<T> Core<T> for OptionCore<T> {
    closed spec fn slots(&self) -> Seq<Option<T>> {
        self.data@
    }

    closed spec fn spec_len(&self) -> nat {
        self.len as nat
    }

    closed spec fn wf(&self) -> bool {
        &&& self.len <= self.data@.len() <= isize::MAX
        &&& empty_from(self.data@, self.len as int)
    }

    proof fn lemma_wf(&self) {
    }

    fn new() -> (out: Self) {
        Self { data: Vec::new(), len: 0 }
    }

    fn len(&self) -> (n: usize) {
        self.len
    }

    fn set_len(&mut self, new_len: usize) {
        self.len = new_len;
    }

    fn cap(&self) -> (n: usize) {
        self.data.len()
    }

    fn realloc(&mut self, new_cap: usize) {
        let old_cap = self.data.len();
        if new_cap > old_cap {
            // The buffer grows in place where it can, and every new slot is
            // empty.
            self.data.reserve(new_cap - old_cap);
            while self.data.len() < new_cap
                invariant
                    old_cap <= self.data@.len() <= new_cap,
                    self.data@ == resized(old(self).data@, self.data@.len()),
                    self.len == old(self).len,
                    old_cap == old(self).data@.len(),
                decreases new_cap - self.data@.len(),
            {
                self.data.push(None);
                assert(self.data@ =~= resized(old(self).data@, self.data@.len()));
            }
        } else if new_cap < old_cap {
            // The slots that go are empty: they lie at the length or behind
            // it.
            self.data.truncate(new_cap);
            shrink_buffer(&mut self.data);
            assert(self.data@ =~= resized(old(self).data@, new_cap as nat));
        } else {
            assert(self.data@ =~= resized(old(self).data@, new_cap as nat));
        }
    }

    fn has_element_at(&self, idx: usize) -> (b: bool) {
        self.data[idx].is_some()
    }

    fn insert_at(&mut self, idx: usize, elem: T) {
        self.data[idx] = Some(elem);
    }

    fn remove_at(&mut self, idx: usize) -> (elem: T) {
        let taken = self.data[idx].take();
        taken.unwrap()
    }

    fn get_unchecked(&self, idx: usize) -> (elem: &T) {
        self.data[idx].as_ref().unwrap()
    }

    fn get_unchecked_mut(&mut self, idx: usize) -> (elem: &mut T) {
        self.data[idx].as_mut().unwrap()
    }

    fn clear(&mut self) {
        let cap = self.data.len();
        let mut i: usize = 0;
        while i < cap
            invariant
                i <= cap,
                cap == self.data@.len(),
                cap == old(self).data@.len(),
                forall|j: int| 0 <= j < i ==> (#[trigger] self.data@[j]) is None,
            decreases cap - i,
        {
            self.data[i] = None;
            i += 1;
        }
        self.len = 0;
        assert(self.data@ =~= empty_slots::<T>(old(self).data@.len()));
    }

    fn duplicate(&self) -> (out: Self) where T: Clone {
        let cap = self.data.len();
        let mut data: Vec<Option<T>> = Vec::new();
        data.reserve(cap);
        let mut i: usize = 0;
        while i < cap
            invariant
                i <= cap,
                cap == self.data@.len(),
                data@.len() == i,
                forall|j: int|
                    0 <= j < i ==> match (#[trigger] self.data@[j]) {
                        Some(elem) => data@[j] is Some && cloned(elem, data@[j]->0),
                        None => data@[j] is None,
                    },
            decreases cap - i,
        {
            let slot = match &self.data[i] {
                Some(elem) => Some(elem.clone()),
                None => None,
            };
            data.push(slot);
            i += 1;
        }
        proof {
            assert forall|j: int| self.len <= j < data@.len() && self.wf() implies (
            #[trigger] data@[j]) is None by {
                assert(self.data@[j] is None);
            }
        }
        Self { data, len: self.len }
    }

    fn swap(&mut self, a: usize, b: usize) {
        let at_a = self.data[a].take();
        let at_b = self.data[b].take();
        self.data[a] = at_b;
        self.data[b] = at_a;
        assert(self.data@ =~= swapped(old(self).data@, a as int, b as int));
    }
}

impl<T: Clone> Clone for OptionCore<T> {
    /// A copy of the store, empty slots included.
    fn clone(&self) -> (out: Self)
        ensures
            self.wf() ==> out.wf() && out.spec_len() == self.spec_len() && slots_cloned(
                self.slots(),
                out.slots(),
            ),
    {
        self.duplicate()
    }
}

} // verus!
