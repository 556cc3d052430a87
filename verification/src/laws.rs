//! What holds of the container over more than one operation, stated over
//! the model that the contracts of the operations use.

use vstd::prelude::*;
use crate::model::{
    compacted, count_filled, elements, empty_from, filled_below, filled_indices, lemma_compact_elements,
    lemma_compacted, lemma_compacted_of_compact, lemma_indices_members, pushed, reordered_compact,
};

verus! {

/// One of the operations that fill and empty single slots.
pub enum Step<T> {
    /// `push` with this element.
    Push(T),
    /// `insert` at this index with this element.
    Insert(int, T),
    /// `remove` at this index.
    Remove(int),
}

/// The slots and the next push index of a container.
pub struct State<T> {
    pub slots: Seq<Option<T>>,
    pub next_push_index: nat,
}

impl<T> State<T> {
    /// The state of a consistent container: the next push index is at most
    /// the capacity, and no slot from there on is filled.
    pub open spec fn valid(self) -> bool {
        &&& self.next_push_index <= self.slots.len()
        &&& empty_from(self.slots, self.next_push_index as int)
    }

    /// The state after `step`, as the contracts of `push`, `insert` and
    /// `remove` give it. An index that is no index of a slot is not allowed
    /// to `insert` and `remove`: such a step leaves the state as it is.
    pub open spec fn after(self, step: Step<T>) -> State<T> {
        match step {
            Step::Push(elem) => State {
                slots: pushed(self.slots, self.next_push_index, elem),
                next_push_index: self.next_push_index + 1,
            },
            Step::Insert(index, elem) => if 0 <= index < self.slots.len() {
                State {
                    slots: self.slots.update(index, Some(elem)),
                    next_push_index: if index < self.next_push_index {
                        self.next_push_index
                    } else {
                        (index + 1) as nat
                    },
                }
            } else {
                self
            },
            Step::Remove(index) => if 0 <= index < self.slots.len() {
                State { slots: self.slots.update(index, None), next_push_index: self.next_push_index }
            } else {
                self
            },
        }
    }

    /// The state after `steps`, one after the other.
    pub open spec fn after_all(self, steps: Seq<Step<T>>) -> State<T>
        decreases steps.len(),
    {
        if steps.len() == 0 {
            self
        } else {
            self.after_all(steps.drop_last()).after(steps.last())
        }
    }
}

/// `step` inserts at the index `i` or removes there.
pub open spec fn aims_at<T>(step: Step<T>, i: int) -> bool {
    match step {
        Step::Push(_) => false,
        Step::Insert(index, _) => index == i,
        Step::Remove(index) => index == i,
    }
}

/// Indices are stable: an element stays in its slot over any pushes,
/// insertions and removals, as long as none of them inserts or removes at the
/// element's own index.
pub proof fn law_stable_index<T>(state: State<T>, steps: Seq<Step<T>>, i: int)
    requires
        state.valid(),
        0 <= i < state.slots.len(),
        state.slots[i] is Some,
        forall|k: int| 0 <= k < steps.len() ==> !aims_at(#[trigger] steps[k], i),
    ensures
        state.after_all(steps).valid(),
        i < state.after_all(steps).next_push_index,
        state.after_all(steps).slots[i] == state.slots[i],
    decreases steps.len(),
{
    if steps.len() > 0 {
        let before = state.after_all(steps.drop_last());
        assert forall|k: int| 0 <= k < steps.drop_last().len() implies !aims_at(
            #[trigger] steps.drop_last()[k],
            i,
        ) by {
            assert(steps.drop_last()[k] == steps[k]);
        }
        law_stable_index(state, steps.drop_last(), i);
        assert(!aims_at(steps.last(), i));
        match steps.last() {
            Step::Push(elem) => {},
            Step::Insert(index, elem) => {},
            Step::Remove(index) => {},
        }
    }
}

/// The index that a push returns is stable: the pushed element stays in the
/// slot at that index over any further pushes, insertions and removals, as
/// long as none of them inserts or removes at that index.
pub proof fn law_pushed_index_is_stable<T>(state: State<T>, elem: T, steps: Seq<Step<T>>)
    requires
        state.valid(),
        forall|k: int| 0 <= k < steps.len() ==> !aims_at(#[trigger] steps[k], state.next_push_index as int),
    ensures
        state.after(Step::Push(elem)).after_all(steps).slots[state.next_push_index as int] == Some(elem),
{
    law_stable_index(state.after(Step::Push(elem)), steps, state.next_push_index as int);
}

/// The number of elements is the number of elements that a walk over the
/// container hands out, and the number of their indices.
pub proof fn law_count_is_walk_length<T>(s: Seq<Option<T>>)
    ensures
        count_filled(s) == filled_indices(s).len(),
        count_filled(s) == elements(s).len(),
{
}

/// Compacting in order keeps the elements and their order.
pub proof fn law_compacted_keeps_elements<T>(s: Seq<Option<T>>)
    ensures
        elements(compacted(s)) == elements(s),
{
    lemma_compacted(s);
}

/// Compacting without regard to the order keeps the elements, counted with
/// multiplicity.
pub proof fn law_reordered_keeps_elements<T>(before: Seq<Option<T>>, after: Seq<Option<T>>)
    requires
        reordered_compact(before, after),
    ensures
        elements(after).to_multiset() == elements(before).to_multiset(),
        count_filled(after) == count_filled(before),
{
    lemma_indices_members(before, 0, before.len() as int);
    lemma_compact_elements(after, count_filled(before) as int);
}

/// After either compaction no empty slot stands before an element, and the
/// capacity is at least the number of elements.
pub proof fn law_compact_after_compaction<T>(before: Seq<Option<T>>, after: Seq<Option<T>>)
    requires
        after == compacted(before) || reordered_compact(before, after),
    ensures
        filled_below(after, count_filled(after) as int),
        empty_from(after, count_filled(after) as int),
        after.len() >= count_filled(after),
{
    lemma_indices_members(before, 0, before.len() as int);
    if after == compacted(before) {
        lemma_compacted(before);
    } else {
        lemma_compact_elements(after, count_filled(before) as int);
    }
}

/// Compacting in order a second time changes nothing.
pub proof fn law_compacted_twice<T>(s: Seq<Option<T>>)
    ensures
        compacted(compacted(s)) == compacted(s),
{
    lemma_compacted(s);
    lemma_indices_members(s, 0, s.len() as int);
    lemma_compacted_of_compact(compacted(s), count_filled(s) as int);
}

/// Compacting without regard to the order a second time changes nothing.
pub proof fn law_reordered_twice<T>(first: Seq<Option<T>>, second: Seq<Option<T>>, third: Seq<Option<T>>)
    requires
        reordered_compact(first, second),
        reordered_compact(second, third),
    ensures
        third == second,
{
    lemma_indices_members(first, 0, first.len() as int);
    lemma_compact_elements(second, count_filled(first) as int);
    assert(third =~= second);
}

/// Either compaction of a compact store changes nothing, whichever of the
/// two made it compact.
pub proof fn law_compaction_of_compact<T>(s: Seq<Option<T>>, n: int, after: Seq<Option<T>>)
    requires
        0 <= n <= s.len(),
        filled_below(s, n),
        empty_from(s, n),
        after == compacted(s) || reordered_compact(s, after),
    ensures
        after == s,
{
    lemma_compact_elements(s, n);
    if after == compacted(s) {
        lemma_compacted_of_compact(s, n);
    } else {
        assert(after =~= s);
    }
}

} // verus!
