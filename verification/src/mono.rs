//! Operations of the container at one element type, `u32`, and with each of
//! the two stores: small functions whose machine code shows what a store
//! costs.

use vstd::prelude::*;
use crate::facade::StableVecFacade;
use crate::laws::Step;
use crate::model::count_filled;
use crate::store::{BitVecCore, OptionCore};

verus! {

/// The element in the filled slot at `index`.
pub fn index_u32_option(sv: &StableVecFacade<u32, OptionCore<u32>>, index: usize) -> (elem: u32)
    requires
        sv.wf(),
        index < sv@.len(),
        sv@[index as int] is Some,
    ensures
        Some(elem) == sv@[index as int],
{
    *sv.get_unchecked(index)
}

/// Pushes `val` and returns its index.
pub fn push_u32_option(sv: &mut StableVecFacade<u32, OptionCore<u32>>, val: u32) -> (index: usize)
    requires
        old(sv).wf(),
        old(sv).state().after(Step::Push(val)).slots.len() <= isize::MAX,
    ensures
        final(sv).wf(),
        index == old(sv).spec_next_push_index(),
        final(sv).state() == old(sv).state().after(Step::Push(val)),
{
    sv.push(val)
}

/// The number of elements, by way of the cursor over their indices.
pub fn count_u32_option(sv: &StableVecFacade<u32, OptionCore<u32>>) -> (n: usize)
    requires
        sv.wf(),
    ensures
        n == count_filled(sv@),
{
    sv.indices().count()
}

/// The element in the filled slot at `index`.
pub fn index_u32_bitvec(sv: &StableVecFacade<u32, BitVecCore<u32>>, index: usize) -> (elem: u32)
    requires
        sv.wf(),
        index < sv@.len(),
        sv@[index as int] is Some,
    ensures
        Some(elem) == sv@[index as int],
{
    *sv.get_unchecked(index)
}

/// Pushes `val` and returns its index.
pub fn push_u32_bitvec(sv: &mut StableVecFacade<u32, BitVecCore<u32>>, val: u32) -> (index: usize)
    requires
        old(sv).wf(),
        old(sv).state().after(Step::Push(val)).slots.len() <= isize::MAX,
    ensures
        final(sv).wf(),
        index == old(sv).spec_next_push_index(),
        final(sv).state() == old(sv).state().after(Step::Push(val)),
{
    sv.push(val)
}

/// The number of elements, by way of the cursor over their indices.
pub fn count_u32_bitvec(sv: &StableVecFacade<u32, BitVecCore<u32>>) -> (n: usize)
    requires
        sv.wf(),
    ensures
        n == count_filled(sv@),
{
    sv.indices().count()
}

} // verus!
