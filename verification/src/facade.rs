//! The container itself.

use vstd::prelude::*;
use vstd::std_specs::cmp::PartialEqSpec;
use crate::model::{
    amortized_capacity, compacted, count_filled, elements, empty_from, empty_slots, exact_capacity,
    filled_below, filled_indices, is_filled, is_first_filled, is_last_filled,
    lemma_compact_elements, lemma_compacted, lemma_compacted_of_compact, lemma_count_at_least,
    lemma_count_below, lemma_count_empty, lemma_count_full, lemma_count_update,
    lemma_elements_move, lemma_elements_multiset, lemma_filled_ahead, lemma_first_filled,
    lemma_indices_all, lemma_indices_empty, lemma_indices_members, lemma_indices_none,
    lemma_indices_resized, lemma_indices_same_filled, lemma_indices_split, lemma_last_filled,
    lemma_swapped_multiset, pushed, reordered_compact, resized, slots_cloned,
};
use crate::iter::{Indices, IntoIter, Iter, IterMut};
use crate::laws::{State, Step};
use crate::store::Core;

verus! {

/// A growable container with stable indices and removal in constant time.
///
/// The container has [`capacity`](Self::capacity) slots, each of them empty
/// or filled with one element. An element stays in its slot until it is
/// removed, overwritten, or moved by one of the two compactions, whatever
/// happens to the other slots. No slot from the index
/// [`next_push_index`](Self::next_push_index) on is filled.
///
/// The view of a container is the sequence of its slots.
pub struct StableVecFacade<T, C: Core<T>> {
    pub(crate) core: C,
    pub(crate) num_elements: usize,
    pub(crate) _owned: core::marker::PhantomData<T>,
}

impl<T, C: Core<T>> View for StableVecFacade<T, C> {
    type V = Seq<Option<T>>;

    open(crate) spec fn view(&self) -> Seq<Option<T>> {
        self.core.slots()
    }
}

impl<T, C: Core<T>> StableVecFacade<T, C> {
    /// The index of the slot that the next `push` fills.
    pub open(crate) spec fn spec_next_push_index(&self) -> nat {
        self.core.spec_len()
    }

    /// The container is consistent: constructors establish this, and every
    /// method asks for it and keeps it.
    pub open(crate) spec fn wf(&self) -> bool {
        &&& self.core.wf()
        &&& self.num_elements == count_filled(self.core.slots())
    }

    /// The slots together with the next push index.
    pub open spec fn state(&self) -> State<T> {
        State { slots: self@, next_push_index: self.spec_next_push_index() }
    }

    /// No slot below the next push index is empty.
    pub open spec fn spec_is_compact(&self) -> bool {
        filled_below(self@, self.spec_next_push_index() as int)
    }

    /// What a consistent container has: the next push index is at most the
    /// capacity, the capacity at most `isize::MAX`, and the slots from the
    /// next push index on are empty.
    pub proof fn lemma_wf(&self)
        requires
            self.wf(),
        ensures
            self.spec_next_push_index() <= self@.len() <= isize::MAX,
            empty_from(self@, self.spec_next_push_index() as int),
            count_filled(self@) <= self.spec_next_push_index(),
    {
        self.core.lemma_wf();
        lemma_count_below(self@, self.spec_next_push_index() as int);
    }

    /// An empty container without slots. Allocates nothing.
    pub fn new() -> (out: Self)
        ensures
            out.wf(),
            out@ == Seq::<Option<T>>::empty(),
            out.spec_next_push_index() == 0,
    {
        let core = C::new();
        proof {
            assert(core.slots() =~= Seq::<Option<T>>::empty());
        }
        Self { core, num_elements: 0, _owned: core::marker::PhantomData }
    }

    /// An empty container with exactly `capacity` slots.
    pub fn with_capacity(capacity: usize) -> (out: Self)
        requires
            capacity <= isize::MAX,
        ensures
            out.wf(),
            out@ == empty_slots::<T>(capacity as nat),
            out.spec_next_push_index() == 0,
    {
        let mut out = Self::new();
        out.reserve_exact(capacity);
        assert(out@ =~= empty_slots::<T>(capacity as nat));
        out
    }

    /// Makes room for `additional` more slots behind the next push index.
    ///
    /// Nothing happens if the capacity suffices. Otherwise the capacity
    /// grows to the greater of what is asked for and twice what it was, so
    /// that pushing one element after the other takes constant time on
    /// average. The new slots are empty; no element moves.
    pub fn reserve(&mut self, additional: usize)
        requires
            old(self).wf(),
            amortized_capacity(
                old(self)@.len(),
                old(self).spec_next_push_index(),
                additional as nat,
            ) <= isize::MAX,
        ensures
            final(self).wf(),
            final(self).spec_next_push_index() == old(self).spec_next_push_index(),
            final(self)@ == resized(
                old(self)@,
                amortized_capacity(old(self)@.len(), old(self).spec_next_push_index(), additional as nat),
            ),
    {
        proof {
            self.lemma_wf();
        }
        let len = self.core.len();
        let cap = self.core.cap();
        // The sum cannot overflow: otherwise it would be greater than
        // `isize::MAX`, which the capacity to reach is not.
        let new_cap = len + additional;
        if cap < new_cap {
            let new_cap = if new_cap >= 2 * cap {
                new_cap
            } else {
                2 * cap
            };
            proof {
                lemma_indices_resized(self@, new_cap as nat);
            }
            self.core.realloc(new_cap);
        } else {
            assert(self@ =~= resized(self@, cap as nat));
        }
    }

    /// Makes room for a slot at `index`. Nothing happens if there is one;
    /// otherwise the capacity grows as by [`reserve`](Self::reserve).
    pub fn reserve_for(&mut self, index: usize)
        requires
            old(self).wf(),
            index >= old(self)@.len() ==> amortized_capacity(
                old(self)@.len(),
                old(self).spec_next_push_index(),
                (1 + index - old(self).spec_next_push_index()) as nat,
            ) <= isize::MAX,
        ensures
            final(self).wf(),
            final(self).spec_next_push_index() == old(self).spec_next_push_index(),
            final(self)@ == resized(
                old(self)@,
                if index < old(self)@.len() {
                    old(self)@.len()
                } else {
                    amortized_capacity(
                        old(self)@.len(),
                        old(self).spec_next_push_index(),
                        (1 + index - old(self).spec_next_push_index()) as nat,
                    )
                },
            ),
            index < final(self)@.len(),
    {
        proof {
            self.lemma_wf();
        }
        if index >= self.capacity() {
            // Does not underflow: the index is at least the capacity, which
            // is at least the next push index.
            self.reserve(1 + index - self.next_push_index());
        } else {
            assert(self@ =~= resized(self@, self@.len()));
        }
    }

    /// Like [`reserve`](Self::reserve), but a capacity that is too small
    /// grows to exactly what is asked for.
    pub fn reserve_exact(&mut self, additional: usize)
        requires
            old(self).wf(),
            exact_capacity(old(self)@.len(), old(self).spec_next_push_index(), additional as nat)
                <= isize::MAX,
        ensures
            final(self).wf(),
            final(self).spec_next_push_index() == old(self).spec_next_push_index(),
            final(self)@ == resized(
                old(self)@,
                exact_capacity(old(self)@.len(), old(self).spec_next_push_index(), additional as nat),
            ),
    {
        proof {
            self.lemma_wf();
        }
        let len = self.core.len();
        let cap = self.core.cap();
        let new_cap = len + additional;
        if cap < new_cap {
            proof {
                lemma_indices_resized(self@, new_cap as nat);
            }
            self.core.realloc(new_cap);
        } else {
            assert(self@ =~= resized(self@, cap as nat));
        }
    }

    /// Puts `elem` into the slot at the next push index, which then moves
    /// on by one, and returns the slot's index. The capacity grows as by
    /// [`reserve`](Self::reserve) if there is no such slot yet.
    pub fn push(&mut self, elem: T) -> (index: usize)
        requires
            old(self).wf(),
            amortized_capacity(old(self)@.len(), old(self).spec_next_push_index(), 1) <= isize::MAX,
        ensures
            final(self).wf(),
            index == old(self).spec_next_push_index(),
            final(self).spec_next_push_index() == index + 1,
            final(self)@ == pushed(old(self)@, old(self).spec_next_push_index(), elem),
            final(self).state() == old(self).state().after(Step::Push(elem)),
    {
        let index = self.core.len();
        self.reserve(1);
        proof {
            self.lemma_wf();
            lemma_count_update(self@, index as int, Some(elem));
        }
        self.core.set_len(index + 1);
        self.core.insert_at(index, elem);
        self.num_elements += 1;
        index
    }

    /// Puts `elem` into the slot at `index` and returns what the slot held
    /// before. If the slot lies at the next push index or behind it, the
    /// next push index becomes `index + 1`.
    pub fn insert(&mut self, index: usize, elem: T) -> (previous: Option<T>)
        requires
            old(self).wf(),
            index < old(self)@.len(),
        ensures
            final(self).wf(),
            previous == old(self)@[index as int],
            final(self)@ == old(self)@.update(index as int, Some(elem)),
            final(self).spec_next_push_index() == if index < old(self).spec_next_push_index() {
                old(self).spec_next_push_index()
            } else {
                (index + 1) as nat
            },
            final(self).state() == old(self).state().after(Step::Insert(index as int, elem)),
    {
        proof {
            self.lemma_wf();
            lemma_count_update(self@, index as int, Some(elem));
        }
        let mut elem = elem;
        if self.has_element_at(index) {
            // There is an element in the slot: the two change places.
            core::mem::swap(self.core.get_unchecked_mut(index), &mut elem);
            Some(elem)
        } else {
            if index >= self.core.len() {
                self.core.set_len(index + 1);
            }
            self.core.insert_at(index, elem);
            self.num_elements += 1;
            None
        }
    }

    /// Removes the first element, the one with the smallest index, and
    /// returns it.
    pub fn remove_first(&mut self) -> (removed: Option<T>)
        requires
            old(self).wf(),
        ensures
            final(self).wf(),
            final(self).spec_next_push_index() == old(self).spec_next_push_index(),
            count_filled(old(self)@) == 0 ==> removed is None && final(self)@ == old(self)@,
            count_filled(old(self)@) > 0 ==> removed == Some(elements(old(self)@).first())
                && final(self)@ == old(self)@.update(filled_indices(old(self)@).first(), None),
    {
        proof {
            self.lemma_wf();
        }
        match self.find_first_index() {
            Some(index) => self.remove(index),
            None => None,
        }
    }

    /// Removes the last element, the one with the greatest index, and
    /// returns it.
    pub fn remove_last(&mut self) -> (removed: Option<T>)
        requires
            old(self).wf(),
        ensures
            final(self).wf(),
            final(self).spec_next_push_index() == old(self).spec_next_push_index(),
            count_filled(old(self)@) == 0 ==> removed is None && final(self)@ == old(self)@,
            count_filled(old(self)@) > 0 ==> removed == Some(elements(old(self)@).last())
                && final(self)@ == old(self)@.update(filled_indices(old(self)@).last(), None),
    {
        proof {
            self.lemma_wf();
        }
        match self.find_last_index() {
            Some(index) => self.remove(index),
            None => None,
        }
    }

    /// The first element, the one with the smallest index.
    pub fn find_first(&self) -> (elem: Option<&T>)
        requires
            self.wf(),
        ensures
            match elem {
                Some(e) => count_filled(self@) > 0 && *e == elements(self@).first(),
                None => count_filled(self@) == 0,
            },
    {
        proof {
            self.lemma_wf();
        }
        match self.find_first_index() {
            Some(index) => Some(self.core.get_unchecked(index)),
            None => None,
        }
    }

    /// The first element, the one with the smallest index, to be changed in
    /// place.
    pub fn find_first_mut(&mut self) -> (elem: Option<&mut T>)
        requires
            old(self).wf(),
        ensures
            final(self).wf(),
            final(self).spec_next_push_index() == old(self).spec_next_push_index(),
            match elem {
                Some(e) => count_filled(old(self)@) > 0 && *e == elements(old(self)@).first()
                    && final(self)@ == old(self)@.update(
                    filled_indices(old(self)@).first(),
                    Some(*final(e)),
                ),
                None => count_filled(old(self)@) == 0 && final(self)@ == old(self)@,
            },
    {
        proof {
            self.lemma_wf();
        }
        match self.find_first_index() {
            Some(index) => Some(self.get_unchecked_mut(index)),
            None => None,
        }
    }

    /// The last element, the one with the greatest index.
    pub fn find_last(&self) -> (elem: Option<&T>)
        requires
            self.wf(),
        ensures
            match elem {
                Some(e) => count_filled(self@) > 0 && *e == elements(self@).last(),
                None => count_filled(self@) == 0,
            },
    {
        proof {
            self.lemma_wf();
        }
        match self.find_last_index() {
            Some(index) => Some(self.core.get_unchecked(index)),
            None => None,
        }
    }

    /// The last element, the one with the greatest index, to be changed in
    /// place.
    pub fn find_last_mut(&mut self) -> (elem: Option<&mut T>)
        requires
            old(self).wf(),
        ensures
            final(self).wf(),
            final(self).spec_next_push_index() == old(self).spec_next_push_index(),
            match elem {
                Some(e) => count_filled(old(self)@) > 0 && *e == elements(old(self)@).last()
                    && final(self)@ == old(self)@.update(
                    filled_indices(old(self)@).last(),
                    Some(*final(e)),
                ),
                None => count_filled(old(self)@) == 0 && final(self)@ == old(self)@,
            },
    {
        proof {
            self.lemma_wf();
        }
        match self.find_last_index() {
            Some(index) => Some(self.get_unchecked_mut(index)),
            None => None,
        }
    }

    /// The index of the first element, the smallest index of a filled slot.
    pub fn find_first_index(&self) -> (index: Option<usize>)
        requires
            self.wf(),
        ensures
            is_first_filled(self@, 0, self.spec_next_push_index() as int, index),
            match index {
                Some(i) => count_filled(self@) > 0 && i == filled_indices(self@).first()
                    && self@[i as int] == Some(elements(self@).first()),
                None => count_filled(self@) == 0,
            },
    {
        let index = self.core.next_index_from(0);
        proof {
            self.lemma_wf();
            lemma_first_filled(self@, self.spec_next_push_index() as int, index);
        }
        index
    }

    /// The index of the last element, the greatest index of a filled slot.
    pub fn find_last_index(&self) -> (index: Option<usize>)
        requires
            self.wf(),
        ensures
            is_last_filled(self@, self.spec_next_push_index() - 1, index),
            match index {
                Some(i) => count_filled(self@) > 0 && i == filled_indices(self@).last()
                    && self@[i as int] == Some(elements(self@).last()),
                None => count_filled(self@) == 0,
            },
    {
        proof {
            self.lemma_wf();
        }
        let len = self.core.len();
        let index = if len == 0 {
            None
        } else {
            self.core.prev_index_from(len - 1)
        };
        proof {
            lemma_last_filled(self@, len as int, index);
        }
        index
    }

    /// Empties the slot at `index` and returns what it held. No other
    /// element moves, and the next push index stays.
    pub fn remove(&mut self, index: usize) -> (removed: Option<T>)
        requires
            old(self).wf(),
            index < old(self)@.len(),
        ensures
            final(self).wf(),
            removed == old(self)@[index as int],
            final(self)@ == old(self)@.update(index as int, None),
            final(self).spec_next_push_index() == old(self).spec_next_push_index(),
            final(self).state() == old(self).state().after(Step::Remove(index as int)),
    {
        proof {
            lemma_count_update(self@, index as int, None);
        }
        if self.has_element_at(index) {
            let elem = self.core.remove_at(index);
            self.num_elements -= 1;
            Some(elem)
        } else {
            assert(self@ =~= old(self)@.update(index as int, None));
            None
        }
    }

    /// The element in the slot at `index`, if the slot exists and is filled.
    pub fn get(&self, index: usize) -> (elem: Option<&T>)
        requires
            self.wf(),
        ensures
            match elem {
                Some(e) => index < self@.len() && self@[index as int] == Some(*e),
                None => index >= self@.len() || self@[index as int] is None,
            },
    {
        if self.has_element_at(index) {
            Some(self.core.get_unchecked(index))
        } else {
            None
        }
    }

    /// The element in the slot at `index`, to be changed in place, if the
    /// slot exists and is filled.
    pub fn get_mut(&mut self, index: usize) -> (elem: Option<&mut T>)
        requires
            old(self).wf(),
        ensures
            final(self).wf(),
            final(self).spec_next_push_index() == old(self).spec_next_push_index(),
            match elem {
                Some(e) => index < old(self)@.len() && old(self)@[index as int] == Some(*e)
                    && final(self)@ == old(self)@.update(index as int, Some(*final(e))),
                None => (index >= old(self)@.len() || old(self)@[index as int] is None) && final(self)@
                    == old(self)@,
            },
    {
        if self.has_element_at(index) {
            let elem = self.core.get_unchecked_mut(index);
            proof {
                lemma_count_update(old(self)@, index as int, Some(*final(elem)));
            }
            Some(elem)
        } else {
            None
        }
    }

    /// The element in the filled slot at `index`.
    pub fn get_unchecked(&self, index: usize) -> (elem: &T)
        requires
            self.wf(),
            index < self@.len(),
            self@[index as int] is Some,
        ensures
            Some(*elem) == self@[index as int],
    {
        self.core.get_unchecked(index)
    }

    /// The element in the filled slot at `index`, to be changed in place.
    pub fn get_unchecked_mut(&mut self, index: usize) -> (elem: &mut T)
        requires
            old(self).wf(),
            index < old(self)@.len(),
            old(self)@[index as int] is Some,
        ensures
            Some(*elem) == old(self)@[index as int],
            final(self).wf(),
            final(self).spec_next_push_index() == old(self).spec_next_push_index(),
            final(self)@ == old(self)@.update(index as int, Some(*final(elem))),
    {
        let elem = self.core.get_unchecked_mut(index);
        proof {
            lemma_count_update(old(self)@, index as int, Some(*final(elem)));
        }
        elem
    }

    /// Whether the slot at `index` exists and is filled.
    pub fn has_element_at(&self, index: usize) -> (b: bool)
        requires
            self.wf(),
        ensures
            b == (index < self@.len() && self@[index as int] is Some),
    {
        if index >= self.core.cap() {
            false
        } else {
            self.core.has_element_at(index)
        }
    }

    /// Changes the capacity to the next push index, which gives up the
    /// empty slots behind it. No element moves.
    pub fn shrink_to_fit(&mut self)
        requires
            old(self).wf(),
        ensures
            final(self).wf(),
            final(self).spec_next_push_index() == old(self).spec_next_push_index(),
            final(self)@ == old(self)@.subrange(0, old(self).spec_next_push_index() as int),
    {
        proof {
            self.lemma_wf();
            lemma_indices_resized(self@, self.spec_next_push_index());
        }
        let new_cap = self.core.len();
        self.core.realloc(new_cap);
        assert(self@ =~= old(self)@.subrange(0, old(self).spec_next_push_index() as int));
    }

    /// Moves the elements into the first slots, in the order they have, so
    /// that no empty slot is left between them, and sets the next push
    /// index to their number. The capacity stays.
    ///
    /// An element keeps its index if no slot before it is empty.
    pub fn make_compact(&mut self)
        requires
            old(self).wf(),
        ensures
            final(self).wf(),
            final(self)@ == compacted(old(self)@),
            final(self).spec_next_push_index() == count_filled(old(self)@),
            elements(final(self)@) == elements(old(self)@),
            final(self).spec_is_compact(),
            final(self)@.len() >= count_filled(final(self)@),
    {
        proof {
            lemma_compacted(self@);
        }
        proof {
            self.lemma_wf();
        }
        if self.is_compact() {
            proof {
                lemma_compacted_of_compact(self@, self.spec_next_push_index() as int);
            }
            return ;
        }
        let count = self.num_elements;
        let ghost len = self.core.spec_len() as int;
        let ghost cap = self.core.slots().len() as int;

        // Elements only have to move if there are any.
        if count > 0 {
            let first_hole = self.core.next_hole_from(0);
            proof {
                if first_hole is None {
                    lemma_count_at_least(self@, cap);
                }
            }
            if let Some(first_hole_index) = first_hole {
                proof {
                    lemma_count_at_least(self@, first_hole_index as int);
                }
                // The first index at which the element for the next hole
                // may stand.
                let mut element_index = first_hole_index + 1;
                let mut hole_index = first_hole_index;

                // From the first hole on, each slot gets the next element
                // that follows it: that keeps the order.
                while hole_index < count
                    invariant
                        self.core.wf(),
                        self.core.spec_len() == len,
                        self.core.slots().len() == cap,
                        len <= cap,
                        self.num_elements == count,
                        count < len,
                        elements(self.core.slots()) == elements(old(self)@),
                        count_filled(self.core.slots()) == count,
                        hole_index <= count,
                        hole_index <= element_index <= len,
                        filled_below(self.core.slots(), hole_index as int),
                        self.core.slots()[hole_index as int] is None,
                        forall|i: int|
                            hole_index <= i < element_index ==> (#[trigger] self.core.slots()[i]) is None,
                    decreases count - hole_index,
                {
                    proof {
                        self.core.lemma_wf();
                        lemma_filled_ahead(self.core.slots(), hole_index as int, element_index as int);
                    }
                    // There are enough elements behind to fill the holes,
                    // so this search ends at one.
                    while !self.core.has_element_at(element_index)
                        invariant
                            self.core.wf(),
                            self.core.spec_len() == len,
                            self.core.slots().len() == cap,
                            len <= cap <= isize::MAX,
                            hole_index <= element_index < len,
                            empty_from(self.core.slots(), len),
                            forall|i: int|
                                hole_index <= i < element_index ==> (#[trigger] self.core.slots()[i]) is None,
                            exists|j: int|
                                element_index <= j < cap && (#[trigger] self.core.slots()[j]) is Some,
                        decreases len - element_index,
                    {
                        element_index += 1;
                    }
                    proof {
                        lemma_elements_move(self.core.slots(), hole_index as int, element_index as int);
                    }
                    self.core.swap(hole_index, element_index);
                    hole_index += 1;
                }
            }
        }
        proof {
            // The first `count` slots hold `count` elements, so no other
            // slot holds one.
            let s = self.core.slots();
            lemma_indices_split(s, 0, count as int, cap);
            if count > 0 {
                lemma_indices_all(s, 0, count as int);
            }
            lemma_indices_empty(s, count as int, cap);
        }
        self.core.set_len(count);
        proof {
            let s = self.core.slots();
            lemma_compact_elements(s, count as int);
            assert(s =~= compacted(old(self)@));
        }
    }

    /// Moves elements from the back into the empty slots before them, until
    /// no empty slot is left between the elements, and sets the next push
    /// index to their number. The capacity stays.
    ///
    /// This takes fewer moves than [`make_compact`](Self::make_compact),
    /// but does not keep the order of the elements. An element keeps its
    /// index if that is smaller than the number of elements.
    pub fn reordering_make_compact(&mut self)
        requires
            old(self).wf(),
        ensures
            final(self).wf(),
            reordered_compact(old(self)@, final(self)@),
            final(self).spec_next_push_index() == count_filled(old(self)@),
            final(self).spec_is_compact(),
            final(self)@.len() >= count_filled(final(self)@),
    {
        proof {
            self.lemma_wf();
        }
        if self.is_compact() {
            return ;
        }
        let count = self.num_elements;
        let ghost cap = self.core.slots().len() as int;

        // Elements only have to move if there are any.
        if count > 0 {
            let len = self.core.len();
            // One index comes from the back and looks for elements, the
            // other comes from the front and looks for holes.
            let mut element_index = len - 1;
            let mut hole_index: usize = 0;
            // The slots in `lo..hi` are as they were; those before are
            // filled, those behind are empty.
            let ghost mut lo: int = 0;
            let ghost mut hi: int = len as int;
            loop
                invariant_except_break
                    hole_index <= lo <= hi <= element_index + 1,
                    element_index < len,
                    filled_below(self.core.slots(), lo),
                    forall|i: int| hi <= i < cap ==> (#[trigger] self.core.slots()[i]) is None,
                    forall|i: int| lo <= i < hi ==> #[trigger] self.core.slots()[i] == old(self)@[i],
                    forall|i: int|
                        0 <= i < lo && old(self)@[i] is Some ==> #[trigger] self.core.slots()[i] == old(
                            self,
                        )@[i],
                invariant
                    self.core.wf(),
                    self.core.spec_len() == len,
                    self.core.slots().len() == cap,
                    len <= cap <= isize::MAX,
                    self.num_elements == count,
                    0 < count < len,
                    count_filled(self.core.slots()) == count,
                    self.core.slots().to_multiset() == old(self)@.to_multiset(),
                ensures
                    filled_below(self.core.slots(), count as int),
                    empty_from(self.core.slots(), count as int),
                    forall|i: int|
                        0 <= i < count && old(self)@[i] is Some ==> #[trigger] self.core.slots()[i] == old(
                            self,
                        )@[i],
                decreases hi - lo,
            {
                let ghost s = self.core.slots();
                let last = self.core.prev_index_from(element_index);
                proof {
                    if last is None {
                        // No slot is filled, though there are elements.
                        lemma_indices_none(s, 0, cap);
                    }
                }
                element_index = last.unwrap_or(0);
                let hole = self.core.next_hole_from(hole_index);
                proof {
                    if hole is None {
                        // No slot is empty, though there are fewer elements
                        // than slots.
                        lemma_count_at_least(s, cap);
                    }
                }
                hole_index = hole.unwrap_or(len);

                // Once the two have passed each other, no hole is left
                // before an element.
                if hole_index > element_index {
                    proof {
                        lemma_count_at_least(s, hole_index as int);
                        lemma_indices_split(s, 0, element_index + 1, cap);
                        lemma_indices_none(s, element_index + 1, cap);
                        lemma_indices_members(s, 0, element_index + 1);
                    }
                    break ;
                }
                proof {
                    self.core.lemma_wf();
                    lemma_swapped_multiset(s, hole_index as int, element_index as int);
                }
                self.core.swap(hole_index, element_index);
                proof {
                    lo = hole_index + 1;
                    hi = element_index as int;
                }
            }
        } else {
            proof {
                lemma_indices_empty(self.core.slots(), 0, cap);
            }
        }
        self.core.set_len(count);
        proof {
            lemma_elements_multiset(self.core.slots(), old(self)@);
        }
    }

    /// Whether no slot below the next push index is empty.
    pub fn is_compact(&self) -> (b: bool)
        requires
            self.wf(),
        ensures
            b == self.spec_is_compact(),
            b == (count_filled(self@) == self.spec_next_push_index()),
    {
        proof {
            self.lemma_wf();
            lemma_count_full(self@, self.spec_next_push_index() as int);
        }
        self.num_elements == self.core.len()
    }

    /// The number of elements.
    pub fn num_elements(&self) -> (n: usize)
        requires
            self.wf(),
        ensures
            n == count_filled(self@),
    {
        self.num_elements
    }

    /// Whether the container holds no element.
    pub fn is_empty(&self) -> (b: bool)
        requires
            self.wf(),
        ensures
            b == (count_filled(self@) == 0),
    {
        self.num_elements == 0
    }

    /// Removes every element. The capacity stays, and the next push index
    /// is 0 again.
    pub fn clear(&mut self)
        requires
            old(self).wf(),
        ensures
            final(self).wf(),
            final(self)@ == empty_slots::<T>(old(self)@.len()),
            final(self).spec_next_push_index() == 0,
    {
        self.core.clear();
        self.num_elements = 0;
        proof {
            lemma_count_empty::<T>(old(self)@.len());
        }
    }

    /// The number of slots.
    pub fn capacity(&self) -> (n: usize)
        requires
            self.wf(),
        ensures
            n == self@.len(),
    {
        self.core.cap()
    }

    /// The index of the slot that the next `push` fills.
    pub fn next_push_index(&self) -> (n: usize)
        requires
            self.wf(),
        ensures
            n == self.spec_next_push_index(),
    {
        self.core.len()
    }

    /// A cursor over the elements with their indices, by increasing index.
    pub fn iter(&self) -> (out: Iter<'_, T, C>)
        requires
            self.wf(),
        ensures
            out.wf(),
            out.slots() == self@,
            out.remaining() == filled_indices(self@),
    {
        Iter::new(self)
    }

    /// A cursor over the elements with their indices, by increasing index,
    /// through which the elements can be changed. When the cursor is gone,
    /// the container has the slots that the cursor had at last.
    pub fn iter_mut(&mut self) -> (out: IterMut<'_, T, C>)
        requires
            old(self).wf(),
        ensures
            out.wf(),
            out.slots() == old(self)@,
            out.remaining() == filled_indices(old(self)@),
            final(self)@ == final(out.core).slots(),
            final(self).spec_next_push_index() == final(out.core).spec_len(),
            final(self).wf() == (final(out.core).wf() && count_filled(final(out.core).slots())
                == count_filled(old(self)@)),
    {
        IterMut::new(self)
    }

    /// A cursor over the indices of the filled slots, in increasing order.
    pub fn indices(&self) -> (out: Indices<'_, T, C>)
        requires
            self.wf(),
        ensures
            out.wf(),
            out.slots() == self@,
            out.remaining() == filled_indices(self@),
    {
        Indices::new(self)
    }

    /// A cursor that takes the elements out of the container, by increasing
    /// index.
    pub fn into_iter(self) -> (out: IntoIter<T, C>)
        requires
            self.wf(),
        ensures
            out.wf(),
            out.remaining() == elements(self@),
    {
        IntoIter::new(self)
    }

    /// Whether an element equals `item`.
    pub fn contains<U>(&self, item: &U) -> (b: bool) where U: PartialEq<T>
        requires
            self.wf(),
        ensures
            U::obeys_eq_spec() ==> b == exists|i: int| is_filled(self@, i) && item.eq_spec(&self@[i]->0),
    {
        proof {
            self.lemma_wf();
        }
        let mut pos: usize = 0;
        loop
            invariant
                self.wf(),
                pos <= self@.len(),
                U::obeys_eq_spec() ==> forall|i: int|
                    0 <= i < pos && is_filled(self@, i) ==> !item.eq_spec(&self@[i]->0),
            decreases self@.len() - pos,
        {
            proof {
                self.lemma_wf();
            }
            match self.core.next_index_from(pos) {
                Some(idx) => {
                    if *item == *self.core.get_unchecked(idx) {
                        assert(U::obeys_eq_spec() ==> is_filled(self@, idx as int) && item.eq_spec(
                            &self@[idx as int]->0,
                        ));
                        return true;
                    }
                    pos = idx + 1;
                },
                None => {
                    return false;
                },
            }
        }
    }

    /// Removes each element for which `should_be_kept` returns `false`. The
    /// others stay where they are.
    pub fn retain<P>(&mut self, should_be_kept: P) where P: FnMut(&T) -> bool
        requires
            old(self).wf(),
            forall|i: int| is_filled(old(self)@, i) ==> call_requires(should_be_kept, (&old(self)@[i]->0,)),
        ensures
            final(self).wf(),
            final(self).spec_next_push_index() == old(self).spec_next_push_index(),
            final(self)@.len() == old(self)@.len(),
            forall|i: int|
                0 <= i < old(self)@.len() ==> match (#[trigger] old(self)@[i]) {
                    Some(elem) => if final(self)@[i] is Some {
                        final(self)@[i] == Some(elem) && call_ensures(should_be_kept, (&elem,), true)
                    } else {
                        call_ensures(should_be_kept, (&elem,), false)
                    },
                    None => final(self)@[i] is None,
                },
    {
        broadcast use vstd::function::group_function_axioms;

        proof {
            self.lemma_wf();
        }
        let mut predicate = should_be_kept;
        let mut pos: usize = 0;
        loop
            invariant
                predicate == should_be_kept,
                self.wf(),
                self.spec_next_push_index() == old(self).spec_next_push_index(),
                self@.len() == old(self)@.len(),
                pos <= self@.len(),
                forall|i: int|
                    is_filled(old(self)@, i) ==> call_requires(should_be_kept, (&old(self)@[i]->0,)),
                forall|i: int| pos <= i < self@.len() ==> self@[i] == old(self)@[i],
                forall|i: int|
                    0 <= i < pos ==> match (#[trigger] old(self)@[i]) {
                        Some(elem) => if self@[i] is Some {
                            self@[i] == Some(elem) && call_ensures(should_be_kept, (&elem,), true)
                        } else {
                            call_ensures(should_be_kept, (&elem,), false)
                        },
                        None => self@[i] is None,
                    },
            decreases self@.len() - pos,
        {
            proof {
                self.lemma_wf();
            }
            match self.core.next_index_from(pos) {
                Some(idx) => {
                    let elem = self.core.get_unchecked(idx);
                    assert(is_filled(old(self)@, idx as int) && *elem == old(self)@[idx as int]->0);
                    let keep = predicate(elem);
                    if !keep {
                        proof {
                            lemma_count_update(self@, idx as int, None);
                        }
                        let _ = self.core.remove_at(idx);
                        self.num_elements -= 1;
                    }
                    pos = idx + 1;
                },
                None => {
                    return ;
                },
            }
        }
    }

    /// Removes each element for whose index `should_be_kept` returns
    /// `false`. The others stay where they are.
    pub fn retain_indices<P>(&mut self, should_be_kept: P) where P: FnMut(usize) -> bool
        requires
            old(self).wf(),
            forall|i: usize| is_filled(old(self)@, i as int) ==> call_requires(should_be_kept, (i,)),
        ensures
            final(self).wf(),
            final(self).spec_next_push_index() == old(self).spec_next_push_index(),
            final(self)@.len() == old(self)@.len(),
            forall|i: usize|
                i < old(self)@.len() ==> if (#[trigger] old(self)@[i as int]) is Some {
                    if final(self)@[i as int] is Some {
                        final(self)@[i as int] == old(self)@[i as int] && call_ensures(
                            should_be_kept,
                            (i,),
                            true,
                        )
                    } else {
                        call_ensures(should_be_kept, (i,), false)
                    }
                } else {
                    final(self)@[i as int] is None
                },
    {
        broadcast use vstd::function::group_function_axioms;

        proof {
            self.lemma_wf();
        }
        let mut predicate = should_be_kept;
        let mut pos: usize = 0;
        loop
            invariant
                predicate == should_be_kept,
                self.wf(),
                self.spec_next_push_index() == old(self).spec_next_push_index(),
                self@.len() == old(self)@.len(),
                pos <= self@.len(),
                forall|i: usize| is_filled(old(self)@, i as int) ==> call_requires(should_be_kept, (i,)),
                forall|i: int| pos <= i < self@.len() ==> self@[i] == old(self)@[i],
                forall|i: usize|
                    i < pos ==> if (#[trigger] old(self)@[i as int]) is Some {
                        if self@[i as int] is Some {
                            self@[i as int] == old(self)@[i as int] && call_ensures(
                                should_be_kept,
                                (i,),
                                true,
                            )
                        } else {
                            call_ensures(should_be_kept, (i,), false)
                        }
                    } else {
                        self@[i as int] is None
                    },
            decreases self@.len() - pos,
        {
            proof {
                self.lemma_wf();
            }
            match self.core.next_index_from(pos) {
                Some(idx) => {
                    assert(is_filled(old(self)@, idx as int));
                    let keep = predicate(idx);
                    if !keep {
                        proof {
                            lemma_count_update(self@, idx as int, None);
                        }
                        let _ = self.core.remove_at(idx);
                        self.num_elements -= 1;
                    }
                    pos = idx + 1;
                },
                None => {
                    return ;
                },
            }
        }
    }

    /// Puts a clone of each element of `new_elements` behind the next push
    /// index, in their order, as pushing one after the other does, but
    /// makes room for all of them at once, as by
    /// [`reserve`](Self::reserve).
    pub fn extend_from_slice(&mut self, new_elements: &[T]) where T: Clone
        requires
            old(self).wf(),
            amortized_capacity(
                old(self)@.len(),
                old(self).spec_next_push_index(),
                new_elements@.len(),
            ) <= isize::MAX,
        ensures
            final(self).wf(),
            final(self).spec_next_push_index() == old(self).spec_next_push_index() + new_elements@.len(),
            final(self)@.len() == amortized_capacity(
                old(self)@.len(),
                old(self).spec_next_push_index(),
                new_elements@.len(),
            ),
            forall|i: int|
                0 <= i < old(self).spec_next_push_index() ==> #[trigger] final(self)@[i] == old(self)@[i],
            forall|k: int|
                0 <= k < new_elements@.len() ==> match (#[trigger] final(self)@[old(
                    self,
                ).spec_next_push_index() + k]) {
                    Some(elem) => cloned(new_elements@[k], elem),
                    None => false,
                },
    {
        proof {
            self.lemma_wf();
        }
        let len = new_elements.len();
        self.reserve(len);
        proof {
            self.lemma_wf();
        }
        let first = self.core.len();
        let ghost reserved = self@;

        // The length comes first: the new elements go below it.
        let new_len = first + len;
        self.core.set_len(new_len);

        let mut k: usize = 0;
        while k < len
            invariant
                k <= len,
                len == new_elements@.len(),
                new_len == first + len,
                self.core.wf(),
                self.core.spec_len() == new_len,
                self.core.slots().len() == reserved.len(),
                new_len <= reserved.len(),
                self.num_elements + k == count_filled(self.core.slots()),
                self.num_elements + len <= new_len <= isize::MAX,
                forall|i: int| 0 <= i < first ==> #[trigger] self.core.slots()[i] == reserved[i],
                forall|i: int| first + k <= i < reserved.len() ==> (#[trigger] self.core.slots()[i]) is None,
                forall|j: int|
                    0 <= j < k ==> match (#[trigger] self.core.slots()[first + j]) {
                        Some(elem) => cloned(new_elements@[j], elem),
                        None => false,
                    },
            decreases len - k,
        {
            let elem = new_elements[k].clone();
            proof {
                lemma_count_update(self.core.slots(), first + k, Some(elem));
            }
            self.core.insert_at(first + k, elem);
            k += 1;
        }
        self.num_elements += len;
    }

    /// The smallest index of a filled slot that is at least `start`.
    pub fn next_index_from(&self, start: usize) -> (index: Option<usize>)
        requires
            self.wf(),
        ensures
            is_first_filled(self@, start as int, self.spec_next_push_index() as int, index),
    {
        proof {
            self.lemma_wf();
        }
        if start >= self.next_push_index() {
            None
        } else {
            self.core.next_index_from(start)
        }
    }

    /// The greatest index of a filled slot that is at most `start`.
    pub fn prev_index_from(&self, start: usize) -> (index: Option<usize>)
        requires
            self.wf(),
        ensures
            is_last_filled(
                self@,
                if start < self.spec_next_push_index() {
                    start as int
                } else {
                    self.spec_next_push_index() - 1
                },
                index,
            ),
    {
        proof {
            self.lemma_wf();
        }
        let len = self.next_push_index();
        if len == 0 {
            return None;
        }
        let start = if start < len {
            start
        } else {
            len - 1
        };
        self.core.prev_index_from(start)
    }
}

impl<T: Clone, C: Core<T>> Clone for StableVecFacade<T, C> {
    /// A copy of the container, empty slots included: it has the same
    /// capacity and next push index, and a clone of each element in the
    /// element's slot.
    fn clone(&self) -> (out: Self)
        ensures
            self.wf() ==> out.wf() && out.spec_next_push_index() == self.spec_next_push_index()
                && slots_cloned(self@, out@),
    {
        let core = self.core.duplicate();
        proof {
            if self.wf() {
                lemma_indices_same_filled(self@, core.slots(), 0, self@.len() as int);
            }
        }
        Self { core, num_elements: self.num_elements, _owned: core::marker::PhantomData }
    }
}

impl<T, C: Core<T>> Default for StableVecFacade<T, C> {
    /// An empty container without slots.
    fn default() -> (out: Self)
        ensures
            out.wf(),
            out@ == Seq::<Option<T>>::empty(),
            out.spec_next_push_index() == 0,
    {
        Self::new()
    }
}

} // verus!
