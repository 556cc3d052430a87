//! Cursors over the elements of a container and over their indices.
//!
//! A cursor walks the filled slots from both ends: `next` hands out the
//! first of what remains and `next_back` the last. What remains is known
//! exactly at every step, since the container counts its elements.

use vstd::prelude::*;
use crate::facade::StableVecFacade;
use crate::model::{
    count_filled, elements, filled_indices, indices_between, lemma_count_below, lemma_count_update,
    lemma_elements_without_first, lemma_indices_first, lemma_indices_last, lemma_indices_members,
    lemma_indices_none, lemma_indices_same_filled, lemma_indices_split,
};
use crate::store::Core;

verus! {

/// A cursor over the indices of the filled slots, in increasing order.
pub struct Indices<'a, T, C: Core<T>> {
    core: &'a C,
    /// The indices still to hand out lie in `start..end`.
    start: usize,
    end: usize,
    /// The number of indices still to hand out.
    count: usize,
    _owned: core::marker::PhantomData<T>,
}

impl<'a, T, C: Core<T>> Indices<'a, T, C> {
    /// The slots of the container that the cursor walks.
    pub closed spec fn slots(&self) -> Seq<Option<T>> {
        self.core.slots()
    }

    /// The indices still to hand out, in increasing order.
    pub closed spec fn remaining(&self) -> Seq<int> {
        indices_between(self.core.slots(), self.start as int, self.end as int)
    }

    /// The cursor is consistent.
    pub closed spec fn wf(&self) -> bool {
        &&& self.core.wf()
        &&& self.start <= self.end <= self.core.spec_len()
        &&& self.count == self.remaining().len()
    }

    /// Each index still to hand out is the index of a filled slot, and they
    /// increase.
    pub proof fn lemma_remaining(&self)
        requires
            self.wf(),
        ensures
            forall|k: int|
                0 <= k < self.remaining().len() ==> 0 <= (#[trigger] self.remaining()[k]) < self.slots().len()
                    && self.slots()[self.remaining()[k]] is Some,
            forall|k: int, l: int|
                0 <= k < l < self.remaining().len() ==> self.remaining()[k] < self.remaining()[l],
    {
        self.core.lemma_wf();
        lemma_indices_members(self.core.slots(), self.start as int, self.end as int);
    }

    /// A cursor over the indices of all the filled slots of `sv`.
    pub fn new(sv: &'a StableVecFacade<T, C>) -> (out: Self)
        requires
            sv.wf(),
        ensures
            out.wf(),
            out.slots() == sv@,
            out.remaining() == filled_indices(sv@),
    {
        proof {
            sv.lemma_wf();
            let len = sv.core.spec_len() as int;
            lemma_indices_split(sv@, 0, len, sv@.len() as int);
            lemma_indices_none(sv@, len, sv@.len() as int);
            assert(indices_between(sv@, 0, len) =~= filled_indices(sv@));
        }
        Self {
            core: &sv.core,
            start: 0,
            end: sv.core.len(),
            count: sv.num_elements,
            _owned: core::marker::PhantomData,
        }
    }

    /// Hands out the smallest index that remains.
    pub fn next(&mut self) -> (out: Option<usize>)
        requires
            old(self).wf(),
        ensures
            final(self).wf(),
            final(self).slots() == old(self).slots(),
            match out {
                Some(idx) => old(self).remaining().len() > 0 && idx == old(self).remaining().first()
                    && final(self).remaining() == old(self).remaining().drop_first(),
                None => old(self).remaining().len() == 0 && final(self).remaining() == old(self).remaining(),
            },
    {
        if self.count == 0 {
            return None;
        }
        proof {
            self.core.lemma_wf();
        }
        let found = self.core.next_index_from(self.start);
        proof {
            lemma_indices_first(
                self.core.slots(),
                self.start as int,
                self.end as int,
                self.core.spec_len() as int,
                found,
            );
        }
        match found {
            Some(idx) => {
                self.start = idx + 1;
                self.count -= 1;
                Some(idx)
            },
            None => None,
        }
    }

    /// Hands out the greatest index that remains.
    pub fn next_back(&mut self) -> (out: Option<usize>)
        requires
            old(self).wf(),
        ensures
            final(self).wf(),
            final(self).slots() == old(self).slots(),
            match out {
                Some(idx) => old(self).remaining().len() > 0 && idx == old(self).remaining().last()
                    && final(self).remaining() == old(self).remaining().drop_last(),
                None => old(self).remaining().len() == 0 && final(self).remaining() == old(self).remaining(),
            },
    {
        if self.count == 0 {
            return None;
        }
        proof {
            self.core.lemma_wf();
            lemma_indices_members(self.core.slots(), self.start as int, self.end as int);
        }
        let found = self.core.prev_index_from(self.end - 1);
        proof {
            lemma_indices_last(self.core.slots(), self.start as int, self.end as int, found);
        }
        match found {
            Some(idx) => {
                self.end = idx;
                self.count -= 1;
                Some(idx)
            },
            None => None,
        }
    }

    /// The number of indices that remain, as the lower and the upper bound.
    pub fn size_hint(&self) -> (out: (usize, Option<usize>))
        requires
            self.wf(),
        ensures
            out.0 == self.remaining().len(),
            out.1 == Some(out.0),
    {
        (self.count, Some(self.count))
    }

    /// The number of indices that remain.
    pub fn len(&self) -> (n: usize)
        requires
            self.wf(),
        ensures
            n == self.remaining().len(),
    {
        self.count
    }

    /// The number of indices that remain.
    pub fn count(self) -> (n: usize)
        requires
            self.wf(),
        ensures
            n == self.remaining().len(),
    {
        self.len()
    }

    /// The greatest index that remains.
    pub fn last(self) -> (out: Option<usize>)
        requires
            self.wf(),
        ensures
            match out {
                Some(idx) => self.remaining().len() > 0 && idx == self.remaining().last(),
                None => self.remaining().len() == 0,
            },
    {
        let mut cursor = self;
        cursor.next_back()
    }
}

impl<'a, T, C: Core<T>> Clone for Indices<'a, T, C> {
    /// A second cursor at the same place.
    fn clone(&self) -> (out: Self)
        ensures
            out == *self,
    {
        Self {
            core: self.core,
            start: self.start,
            end: self.end,
            count: self.count,
            _owned: core::marker::PhantomData,
        }
    }
}

/// A cursor over the elements with their indices, by increasing index.
pub struct Iter<'a, T, C: Core<T>>(Indices<'a, T, C>);

impl<'a, T, C: Core<T>> Clone for Iter<'a, T, C> {
    /// A second cursor at the same place.
    fn clone(&self) -> (out: Self)
        ensures
            out == *self,
    {
        Self(self.0.clone())
    }
}

impl<'a, T, C: Core<T>> Iter<'a, T, C> {
    /// The slots of the container that the cursor walks.
    pub closed spec fn slots(&self) -> Seq<Option<T>> {
        self.0.slots()
    }

    /// The indices of the elements still to hand out, in increasing order.
    pub closed spec fn remaining(&self) -> Seq<int> {
        self.0.remaining()
    }

    /// The cursor is consistent.
    pub closed spec fn wf(&self) -> bool {
        self.0.wf()
    }

    /// Each index still to hand out is the index of a filled slot, and they
    /// increase.
    pub proof fn lemma_remaining(&self)
        requires
            self.wf(),
        ensures
            forall|k: int|
                0 <= k < self.remaining().len() ==> 0 <= (#[trigger] self.remaining()[k]) < self.slots().len()
                    && self.slots()[self.remaining()[k]] is Some,
            forall|k: int, l: int|
                0 <= k < l < self.remaining().len() ==> self.remaining()[k] < self.remaining()[l],
    {
        self.0.lemma_remaining();
    }

    /// A cursor over all the elements of `sv`.
    pub fn new(sv: &'a StableVecFacade<T, C>) -> (out: Self)
        requires
            sv.wf(),
        ensures
            out.wf(),
            out.slots() == sv@,
            out.remaining() == filled_indices(sv@),
    {
        Self(Indices::new(sv))
    }

    /// Hands out the element with the smallest index that remains.
    pub fn next(&mut self) -> (out: Option<(usize, &'a T)>)
        requires
            old(self).wf(),
        ensures
            final(self).wf(),
            final(self).slots() == old(self).slots(),
            match out {
                Some((idx, elem)) => old(self).remaining().len() > 0 && idx == old(self).remaining().first()
                    && old(self).slots()[idx as int] == Some(*elem) && final(self).remaining() == old(
                    self,
                ).remaining().drop_first(),
                None => old(self).remaining().len() == 0 && final(self).remaining() == old(self).remaining(),
            },
    {
        proof {
            self.0.lemma_remaining();
        }
        let core: &'a C = self.0.core;
        match self.0.next() {
            Some(idx) => Some((idx, core.get_unchecked(idx))),
            None => None,
        }
    }

    /// Hands out the element with the greatest index that remains.
    pub fn next_back(&mut self) -> (out: Option<(usize, &'a T)>)
        requires
            old(self).wf(),
        ensures
            final(self).wf(),
            final(self).slots() == old(self).slots(),
            match out {
                Some((idx, elem)) => old(self).remaining().len() > 0 && idx == old(self).remaining().last()
                    && old(self).slots()[idx as int] == Some(*elem) && final(self).remaining() == old(
                    self,
                ).remaining().drop_last(),
                None => old(self).remaining().len() == 0 && final(self).remaining() == old(self).remaining(),
            },
    {
        proof {
            self.0.lemma_remaining();
        }
        let core: &'a C = self.0.core;
        match self.0.next_back() {
            Some(idx) => Some((idx, core.get_unchecked(idx))),
            None => None,
        }
    }

    /// The number of elements that remain, as the lower and the upper
    /// bound.
    pub fn size_hint(&self) -> (out: (usize, Option<usize>))
        requires
            self.wf(),
        ensures
            out.0 == self.remaining().len(),
            out.1 == Some(out.0),
    {
        self.0.size_hint()
    }

    /// The number of elements that remain.
    pub fn len(&self) -> (n: usize)
        requires
            self.wf(),
        ensures
            n == self.remaining().len(),
    {
        self.0.len()
    }

    /// The number of elements that remain.
    pub fn count(self) -> (n: usize)
        requires
            self.wf(),
        ensures
            n == self.remaining().len(),
    {
        self.0.count()
    }

    /// The element with the greatest index that remains.
    pub fn last(self) -> (out: Option<(usize, &'a T)>)
        requires
            self.wf(),
        ensures
            match out {
                Some((idx, elem)) => self.remaining().len() > 0 && idx == self.remaining().last()
                    && self.slots()[idx as int] == Some(*elem),
                None => self.remaining().len() == 0,
            },
    {
        let mut cursor = self;
        cursor.next_back()
    }
}

/// A cursor over the elements, by increasing index.
pub struct Values<'a, T, C: Core<T>>(Indices<'a, T, C>);

impl<'a, T, C: Core<T>> Clone for Values<'a, T, C> {
    /// A second cursor at the same place.
    fn clone(&self) -> (out: Self)
        ensures
            out == *self,
    {
        Self(self.0.clone())
    }
}

impl<'a, T, C: Core<T>> Values<'a, T, C> {
    /// The slots of the container that the cursor walks.
    pub closed spec fn slots(&self) -> Seq<Option<T>> {
        self.0.slots()
    }

    /// The indices of the elements still to hand out, in increasing order.
    pub closed spec fn remaining(&self) -> Seq<int> {
        self.0.remaining()
    }

    /// The cursor is consistent.
    pub closed spec fn wf(&self) -> bool {
        self.0.wf()
    }

    /// Each index still to hand out is the index of a filled slot, and they
    /// increase.
    pub proof fn lemma_remaining(&self)
        requires
            self.wf(),
        ensures
            forall|k: int|
                0 <= k < self.remaining().len() ==> 0 <= (#[trigger] self.remaining()[k]) < self.slots().len()
                    && self.slots()[self.remaining()[k]] is Some,
            forall|k: int, l: int|
                0 <= k < l < self.remaining().len() ==> self.remaining()[k] < self.remaining()[l],
    {
        self.0.lemma_remaining();
    }

    /// A cursor over all the elements of `sv`.
    pub fn new(sv: &'a StableVecFacade<T, C>) -> (out: Self)
        requires
            sv.wf(),
        ensures
            out.wf(),
            out.slots() == sv@,
            out.remaining() == filled_indices(sv@),
    {
        Self(Indices::new(sv))
    }

    /// Hands out the element with the smallest index that remains.
    pub fn next(&mut self) -> (out: Option<&'a T>)
        requires
            old(self).wf(),
        ensures
            final(self).wf(),
            final(self).slots() == old(self).slots(),
            match out {
                Some(elem) => old(self).remaining().len() > 0 && old(self).slots()[old(
                    self,
                ).remaining().first()] == Some(*elem) && final(self).remaining() == old(
                    self,
                ).remaining().drop_first(),
                None => old(self).remaining().len() == 0 && final(self).remaining() == old(self).remaining(),
            },
    {
        proof {
            self.0.lemma_remaining();
        }
        let core: &'a C = self.0.core;
        match self.0.next() {
            Some(idx) => Some(core.get_unchecked(idx)),
            None => None,
        }
    }

    /// Hands out the element with the greatest index that remains.
    pub fn next_back(&mut self) -> (out: Option<&'a T>)
        requires
            old(self).wf(),
        ensures
            final(self).wf(),
            final(self).slots() == old(self).slots(),
            match out {
                Some(elem) => old(self).remaining().len() > 0 && old(self).slots()[old(
                    self,
                ).remaining().last()] == Some(*elem) && final(self).remaining() == old(
                    self,
                ).remaining().drop_last(),
                None => old(self).remaining().len() == 0 && final(self).remaining() == old(self).remaining(),
            },
    {
        proof {
            self.0.lemma_remaining();
        }
        let core: &'a C = self.0.core;
        match self.0.next_back() {
            Some(idx) => Some(core.get_unchecked(idx)),
            None => None,
        }
    }

    /// The number of elements that remain, as the lower and the upper
    /// bound.
    pub fn size_hint(&self) -> (out: (usize, Option<usize>))
        requires
            self.wf(),
        ensures
            out.0 == self.remaining().len(),
            out.1 == Some(out.0),
    {
        self.0.size_hint()
    }

    /// The number of elements that remain.
    pub fn len(&self) -> (n: usize)
        requires
            self.wf(),
        ensures
            n == self.remaining().len(),
    {
        self.0.len()
    }

    /// The number of elements that remain.
    pub fn count(self) -> (n: usize)
        requires
            self.wf(),
        ensures
            n == self.remaining().len(),
    {
        self.0.count()
    }

    /// The element with the greatest index that remains.
    pub fn last(self) -> (out: Option<&'a T>)
        requires
            self.wf(),
        ensures
            match out {
                Some(elem) => self.remaining().len() > 0 && self.slots()[self.remaining().last()] == Some(
                    *elem,
                ),
                None => self.remaining().len() == 0,
            },
    {
        let mut cursor = self;
        cursor.next_back()
    }
}

/// A cursor that owns a container and takes its elements out, by increasing
/// index.
pub struct IntoIter<T, C: Core<T>> {
    sv: StableVecFacade<T, C>,
    /// No slot before this index is filled.
    pos: usize,
}

impl<T, C: Core<T>> IntoIter<T, C> {
    /// The elements still to hand out, by increasing index.
    pub closed spec fn remaining(&self) -> Seq<T> {
        elements(self.sv@)
    }

    /// The cursor is consistent.
    pub closed spec fn wf(&self) -> bool {
        &&& self.sv.wf()
        &&& self.pos <= self.sv@.len()
        &&& forall|i: int| 0 <= i < self.pos ==> (#[trigger] self.sv@[i]) is None
    }

    /// A cursor that takes out all the elements of `sv`.
    pub fn new(sv: StableVecFacade<T, C>) -> (out: Self)
        requires
            sv.wf(),
        ensures
            out.wf(),
            out.remaining() == elements(sv@),
    {
        Self { sv, pos: 0 }
    }

    /// Takes out the element with the smallest index that remains.
    pub fn next(&mut self) -> (out: Option<T>)
        requires
            old(self).wf(),
        ensures
            final(self).wf(),
            match out {
                Some(elem) => old(self).remaining().len() > 0 && elem == old(self).remaining().first()
                    && final(self).remaining() == old(self).remaining().drop_first(),
                None => old(self).remaining().len() == 0 && final(self).remaining() == old(self).remaining(),
            },
    {
        proof {
            self.sv.lemma_wf();
        }
        let found = self.sv.core.next_index_from(self.pos);
        proof {
            let s = self.sv@;
            let len = self.sv.spec_next_push_index() as int;
            lemma_count_below(s, len);
            match found {
                Some(idx) => {
                    lemma_elements_without_first(s, idx as int);
                    lemma_count_update(s, idx as int, None);
                },
                None => {
                    if self.pos < len {
                        lemma_indices_split(s, 0, self.pos as int, len);
                        lemma_indices_none(s, 0, self.pos as int);
                        lemma_indices_none(s, self.pos as int, len);
                    } else {
                        lemma_indices_none(s, 0, len);
                    }
                },
            }
        }
        if let Some(idx) = found {
            self.pos = idx + 1;
            self.sv.num_elements -= 1;
            let elem = self.sv.core.remove_at(idx);
            Some(elem)
        } else {
            None
        }
    }

    /// The number of elements that remain, as the lower and the upper
    /// bound.
    pub fn size_hint(&self) -> (out: (usize, Option<usize>))
        requires
            self.wf(),
        ensures
            out.0 == self.remaining().len(),
            out.1 == Some(out.0),
    {
        (self.sv.num_elements, Some(self.sv.num_elements))
    }
}

/// A cursor over the elements with their indices, by increasing index,
/// through which the elements can be changed.
///
/// The cursor borrows the store of its container for as long as it lives,
/// and hands out each element once: a reference that `next` or `next_back`
/// gives is borrowed from the cursor, so that the cursor cannot be moved on
/// while the reference is in use.
///
/// The fields are public for the contracts' sake: what the container is
/// when the cursor is gone is the final value of `core`. They are not meant
/// to be written to: a slot that is filled or emptied through `core` leaves
/// the container's count of elements behind.
pub struct IterMut<'a, T, C: Core<T>> {
    pub core: &'a mut C,
    /// The indices still to hand out lie in `start..end`.
    pub start: usize,
    pub end: usize,
    /// The number of elements still to hand out.
    pub count: usize,
    pub _owned: core::marker::PhantomData<T>,
}

impl<'a, T, C: Core<T>> IterMut<'a, T, C> {
    /// The slots of the container that the cursor walks, as they are now.
    pub open spec fn slots(&self) -> Seq<Option<T>> {
        self.core.slots()
    }

    /// The indices of the elements still to hand out, in increasing order.
    pub open spec fn remaining(&self) -> Seq<int> {
        indices_between(self.core.slots(), self.start as int, self.end as int)
    }

    /// The cursor is consistent.
    pub open spec fn wf(&self) -> bool {
        &&& self.core.wf()
        &&& self.start <= self.end <= self.core.spec_len()
        &&& self.count == self.remaining().len()
    }

    /// A cursor over all the elements of `sv`. When the cursor is gone, `sv`
    /// has the slots that the cursor had at last.
    pub fn new(sv: &'a mut StableVecFacade<T, C>) -> (out: Self)
        requires
            old(sv).wf(),
        ensures
            out.wf(),
            out.slots() == old(sv)@,
            out.remaining() == filled_indices(old(sv)@),
            final(sv)@ == final(out.core).slots(),
            final(sv).spec_next_push_index() == final(out.core).spec_len(),
            final(sv).wf() == (final(out.core).wf() && count_filled(final(out.core).slots())
                == count_filled(old(sv)@)),
    {
        let end = sv.core.len();
        let count = sv.num_elements;
        proof {
            sv.lemma_wf();
            lemma_indices_split(sv@, 0, end as int, sv@.len() as int);
            lemma_indices_none(sv@, end as int, sv@.len() as int);
            assert(indices_between(sv@, 0, end as int) =~= filled_indices(sv@));
        }
        Self { core: &mut sv.core, start: 0, end, count, _owned: core::marker::PhantomData }
    }

    /// Hands out the element with the smallest index that remains.
    pub fn next(&mut self) -> (out: Option<(usize, &mut T)>)
        requires
            old(self).wf(),
        ensures
            final(self).wf(),
            *final(final(self).core) == *final(old(self).core),
            final(self).core.spec_len() == old(self).core.spec_len(),
            count_filled(final(self).slots()) == count_filled(old(self).slots()),
            match out {
                Some((idx, elem)) => old(self).remaining().len() > 0 && idx == old(self).remaining().first()
                    && old(self).slots()[idx as int] == Some(*elem) && final(self).slots() == old(
                    self,
                ).slots().update(idx as int, Some(*final(elem))) && final(self).remaining() == old(
                    self,
                ).remaining().drop_first(),
                None => old(self).remaining().len() == 0 && final(self).remaining() == old(self).remaining()
                    && final(self).slots() == old(self).slots(),
            },
    {
        if self.count == 0 {
            return None;
        }
        proof {
            self.core.lemma_wf();
        }
        let found = self.core.next_index_from(self.start);
        proof {
            lemma_indices_first(
                self.core.slots(),
                self.start as int,
                self.end as int,
                self.core.spec_len() as int,
                found,
            );
        }
        match found {
            Some(idx) => {
                self.start = idx + 1;
                self.count -= 1;
                let elem = self.core.get_unchecked_mut(idx);
                proof {
                    let before = old(self).core.slots();
                    let after = before.update(idx as int, Some(*final(elem)));
                    lemma_indices_same_filled(before, after, idx + 1, self.end as int);
                    lemma_count_update(before, idx as int, Some(*final(elem)));
                }
                Some((idx, elem))
            },
            None => None,
        }
    }

    /// Hands out the element with the greatest index that remains.
    pub fn next_back(&mut self) -> (out: Option<(usize, &mut T)>)
        requires
            old(self).wf(),
        ensures
            final(self).wf(),
            *final(final(self).core) == *final(old(self).core),
            final(self).core.spec_len() == old(self).core.spec_len(),
            count_filled(final(self).slots()) == count_filled(old(self).slots()),
            match out {
                Some((idx, elem)) => old(self).remaining().len() > 0 && idx == old(self).remaining().last()
                    && old(self).slots()[idx as int] == Some(*elem) && final(self).slots() == old(
                    self,
                ).slots().update(idx as int, Some(*final(elem))) && final(self).remaining() == old(
                    self,
                ).remaining().drop_last(),
                None => old(self).remaining().len() == 0 && final(self).remaining() == old(self).remaining()
                    && final(self).slots() == old(self).slots(),
            },
    {
        if self.count == 0 {
            return None;
        }
        proof {
            self.core.lemma_wf();
            lemma_indices_members(self.core.slots(), self.start as int, self.end as int);
        }
        let found = self.core.prev_index_from(self.end - 1);
        proof {
            lemma_indices_last(self.core.slots(), self.start as int, self.end as int, found);
        }
        match found {
            Some(idx) => {
                self.end = idx;
                self.count -= 1;
                let elem = self.core.get_unchecked_mut(idx);
                proof {
                    let before = old(self).core.slots();
                    let after = before.update(idx as int, Some(*final(elem)));
                    lemma_indices_same_filled(before, after, self.start as int, idx as int);
                    lemma_count_update(before, idx as int, Some(*final(elem)));
                }
                Some((idx, elem))
            },
            None => None,
        }
    }

    /// The number of elements that remain, as the lower and the upper
    /// bound.
    pub fn size_hint(&self) -> (out: (usize, Option<usize>))
        requires
            self.wf(),
        ensures
            out.0 == self.remaining().len(),
            out.1 == Some(out.0),
    {
        (self.count, Some(self.count))
    }

    /// The number of elements that remain.
    pub fn len(&self) -> (n: usize)
        requires
            self.wf(),
        ensures
            n == self.remaining().len(),
    {
        self.count
    }

    /// The number of elements that remain. The cursor is gone, and the
    /// slots stay as they are.
    pub fn count(self) -> (n: usize)
        requires
            self.wf(),
        ensures
            n == self.remaining().len(),
            *final(self.core) == *old(self.core),
    {
        self.len()
    }

    /// The element with the greatest index that remains. The cursor is
    /// gone, so the reference lives as long as the cursor's borrow of the
    /// container.
    pub fn last(self) -> (out: Option<(usize, &'a mut T)>)
        requires
            self.wf(),
        ensures
            match out {
                Some((idx, elem)) => self.remaining().len() > 0 && idx == self.remaining().last()
                    && self.slots()[idx as int] == Some(*elem) && final(self.core).slots()
                    == self.slots().update(idx as int, Some(*final(elem))),
                None => self.remaining().len() == 0 && *final(self.core) == *old(self.core),
            },
    {
        if self.count == 0 {
            return None;
        }
        proof {
            self.core.lemma_wf();
            lemma_indices_members(self.core.slots(), self.start as int, self.end as int);
        }
        let found = self.core.prev_index_from(self.end - 1);
        proof {
            lemma_indices_last(self.core.slots(), self.start as int, self.end as int, found);
        }
        match found {
            Some(idx) => {
                let core: &'a mut C = self.core;
                Some((idx, core.get_unchecked_mut(idx)))
            },
            None => None,
        }
    }
}

/// A cursor over the elements, by increasing index, through which the
/// elements can be changed.
///
/// It is an [`IterMut`] that keeps the indices to itself.
pub struct ValuesMut<'a, T, C: Core<T>>(pub IterMut<'a, T, C>);

impl<'a, T, C: Core<T>> ValuesMut<'a, T, C> {
    /// The slots of the container that the cursor walks, as they are now.
    pub open spec fn slots(&self) -> Seq<Option<T>> {
        self.0.slots()
    }

    /// The indices of the elements still to hand out, in increasing order.
    pub open spec fn remaining(&self) -> Seq<int> {
        self.0.remaining()
    }

    /// The cursor is consistent.
    pub open spec fn wf(&self) -> bool {
        self.0.wf()
    }

    /// A cursor over all the elements of `sv`. When the cursor is gone, `sv`
    /// has the slots that the cursor had at last.
    pub fn new(sv: &'a mut StableVecFacade<T, C>) -> (out: Self)
        requires
            old(sv).wf(),
        ensures
            out.wf(),
            out.slots() == old(sv)@,
            out.remaining() == filled_indices(old(sv)@),
            final(sv)@ == final(out.0.core).slots(),
            final(sv).spec_next_push_index() == final(out.0.core).spec_len(),
            final(sv).wf() == (final(out.0.core).wf() && count_filled(final(out.0.core).slots())
                == count_filled(old(sv)@)),
    {
        Self(IterMut::new(sv))
    }

    /// Hands out the element with the smallest index that remains.
    pub fn next(&mut self) -> (out: Option<&mut T>)
        requires
            old(self).wf(),
        ensures
            final(self).wf(),
            *final(final(self).0.core) == *final(old(self).0.core),
            final(self).0.core.spec_len() == old(self).0.core.spec_len(),
            count_filled(final(self).slots()) == count_filled(old(self).slots()),
            match out {
                Some(elem) => old(self).remaining().len() > 0 && old(self).slots()[old(
                    self,
                ).remaining().first()] == Some(*elem) && final(self).slots() == old(self).slots().update(
                    old(self).remaining().first(),
                    Some(*final(elem)),
                ) && final(self).remaining() == old(self).remaining().drop_first(),
                None => old(self).remaining().len() == 0 && final(self).remaining() == old(self).remaining()
                    && final(self).slots() == old(self).slots(),
            },
    {
        match self.0.next() {
            Some((_, elem)) => Some(elem),
            None => None,
        }
    }

    /// Hands out the element with the greatest index that remains.
    pub fn next_back(&mut self) -> (out: Option<&mut T>)
        requires
            old(self).wf(),
        ensures
            final(self).wf(),
            *final(final(self).0.core) == *final(old(self).0.core),
            final(self).0.core.spec_len() == old(self).0.core.spec_len(),
            count_filled(final(self).slots()) == count_filled(old(self).slots()),
            match out {
                Some(elem) => old(self).remaining().len() > 0 && old(self).slots()[old(
                    self,
                ).remaining().last()] == Some(*elem) && final(self).slots() == old(self).slots().update(
                    old(self).remaining().last(),
                    Some(*final(elem)),
                ) && final(self).remaining() == old(self).remaining().drop_last(),
                None => old(self).remaining().len() == 0 && final(self).remaining() == old(self).remaining()
                    && final(self).slots() == old(self).slots(),
            },
    {
        match self.0.next_back() {
            Some((_, elem)) => Some(elem),
            None => None,
        }
    }

    /// The number of elements that remain, as the lower and the upper
    /// bound.
    pub fn size_hint(&self) -> (out: (usize, Option<usize>))
        requires
            self.wf(),
        ensures
            out.0 == self.remaining().len(),
            out.1 == Some(out.0),
    {
        self.0.size_hint()
    }

    /// The number of elements that remain.
    pub fn len(&self) -> (n: usize)
        requires
            self.wf(),
        ensures
            n == self.remaining().len(),
    {
        self.0.len()
    }

    /// The number of elements that remain. The cursor is gone, and the
    /// slots stay as they are.
    pub fn count(self) -> (n: usize)
        requires
            self.wf(),
        ensures
            n == self.remaining().len(),
            *final(self.0.core) == *old(self.0.core),
    {
        self.0.count()
    }

    /// The element with the greatest index that remains. The cursor is
    /// gone, so the reference lives as long as the cursor's borrow of the
    /// container.
    pub fn last(self) -> (out: Option<&'a mut T>)
        requires
            self.wf(),
        ensures
            match out {
                Some(elem) => self.remaining().len() > 0 && self.slots()[self.remaining().last()] == Some(
                    *elem,
                ) && final(self.0.core).slots() == self.slots().update(
                    self.remaining().last(),
                    Some(*final(elem)),
                ),
                None => self.remaining().len() == 0 && *final(self.0.core) == *old(self.0.core),
            },
    {
        match self.0.last() {
            Some((_, elem)) => Some(elem),
            None => None,
        }
    }
}

} // verus!
