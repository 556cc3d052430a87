//! The mathematical model of a slotted store: a sequence of optional
//! elements, one entry per slot, and the functions that contracts are stated
//! over.

use vstd::prelude::*;

verus! {

/// The slot at `i` exists and holds an element.
pub open spec fn is_filled<T>(s: Seq<Option<T>>, i: int) -> bool {
    0 <= i < s.len() && s[i] is Some
}

/// A store of `n` slots, all of them empty.
pub open spec fn empty_slots<T>(n: nat) -> Seq<Option<T>> {
    Seq::new(n, |i: int| None::<T>)
}

/// Every slot from index `from` on is empty.
pub open spec fn empty_from<T>(s: Seq<Option<T>>, from: int) -> bool {
    forall|i: int| from <= i < s.len() ==> (#[trigger] s[i]) is None
}

/// Every slot below index `to` is filled.
pub open spec fn filled_below<T>(s: Seq<Option<T>>, to: int) -> bool {
    forall|i: int| 0 <= i < to ==> (#[trigger] s[i]) is Some
}

/// The indices in `lo..hi` of the filled slots, in increasing order.
pub open spec fn indices_between<T>(s: Seq<Option<T>>, lo: int, hi: int) -> Seq<int>
    decreases hi - lo,
{
    if hi <= lo {
        Seq::empty()
    } else if s[hi - 1] is Some {
        indices_between(s, lo, hi - 1).push(hi - 1)
    } else {
        indices_between(s, lo, hi - 1)
    }
}

/// The indices of the filled slots, in increasing order.
pub open spec fn filled_indices<T>(s: Seq<Option<T>>) -> Seq<int> {
    indices_between(s, 0, s.len() as int)
}

/// The number of filled slots.
pub open spec fn count_filled<T>(s: Seq<Option<T>>) -> nat {
    filled_indices(s).len()
}

/// The elements of the filled slots, by increasing index.
pub open spec fn elements<T>(s: Seq<Option<T>>) -> Seq<T> {
    filled_indices(s).map_values(|i: int| s[i]->0)
}

/// `s` with its length changed to `n`: cut off behind `n` slots, or
/// lengthened by empty slots.
pub open spec fn resized<T>(s: Seq<Option<T>>, n: nat) -> Seq<Option<T>> {
    Seq::new(
        n,
        |i: int|
            if i < s.len() {
                s[i]
            } else {
                None
            },
    )
}

/// The capacity that makes room for `additional` slots behind `len`, at
/// least doubling a capacity that is too small.
pub open spec fn amortized_capacity(cap: nat, len: nat, additional: nat) -> nat {
    if cap >= len + additional {
        cap
    } else if len + additional >= 2 * cap {
        len + additional
    } else {
        2 * cap
    }
}

/// The capacity that makes room for `additional` slots behind `len`, and
/// no more if the capacity has to change.
pub open spec fn exact_capacity(cap: nat, len: nat, additional: nat) -> nat {
    if cap >= len + additional {
        cap
    } else {
        len + additional
    }
}

/// The slots after `elem` was pushed onto a store with the slots `s` and
/// the length `len`: there is room for a slot at `len`, and `elem` is in it.
pub open spec fn pushed<T>(s: Seq<Option<T>>, len: nat, elem: T) -> Seq<Option<T>> {
    resized(s, amortized_capacity(s.len(), len, 1)).update(len as int, Some(elem))
}

/// `after` is `before` made compact without regard to the order of the
/// elements: the elements are the same, counted with multiplicity, they
/// fill the first slots, and those that stood in one of these slots still
/// stand there.
pub open spec fn reordered_compact<T>(before: Seq<Option<T>>, after: Seq<Option<T>>) -> bool {
    &&& after.len() == before.len()
    &&& filled_below(after, count_filled(before) as int)
    &&& empty_from(after, count_filled(before) as int)
    &&& elements(after).to_multiset() == elements(before).to_multiset()
    &&& forall|i: int|
        0 <= i < count_filled(before) && before[i] is Some ==> #[trigger] after[i] == before[i]
}

/// `t` is a copy of `s`: it has as many slots, the same slots are filled, and
/// each element of `t` is a clone of the element of `s` in the same slot.
pub open spec fn slots_cloned<T: Clone>(s: Seq<Option<T>>, t: Seq<Option<T>>) -> bool {
    &&& t.len() == s.len()
    &&& forall|i: int|
        0 <= i < s.len() ==> match (#[trigger] s[i]) {
            Some(elem) => t[i] is Some && cloned(elem, t[i]->0),
            None => t[i] is None,
        }
}

/// `s` with the contents of the slots `a` and `b` exchanged.
pub open spec fn swapped<T>(s: Seq<Option<T>>, a: int, b: int) -> Seq<Option<T>> {
    s.update(a, s[b]).update(b, s[a])
}

/// The store that holds the elements of `s` in the same order in its first
/// slots, without an empty slot between them, and has the capacity of `s`.
pub open spec fn compacted<T>(s: Seq<Option<T>>) -> Seq<Option<T>> {
    Seq::new(
        s.len(),
        |i: int|
            if i < count_filled(s) {
                Some(elements(s)[i])
            } else {
                None
            },
    )
}

/// `r` is the smallest index of a filled slot in `from..bound`, or `None` if
/// all those slots are empty.
pub open spec fn is_first_filled<T>(s: Seq<Option<T>>, from: int, bound: int, r: Option<usize>) -> bool {
    match r {
        Some(j) => from <= j < bound && s[j as int] is Some && forall|i: int|
            from <= i < j ==> (#[trigger] s[i]) is None,
        None => forall|i: int| from <= i < bound ==> (#[trigger] s[i]) is None,
    }
}

/// `r` is the largest index of a filled slot in `0..=from`, or `None` if all
/// those slots are empty.
pub open spec fn is_last_filled<T>(s: Seq<Option<T>>, from: int, r: Option<usize>) -> bool {
    match r {
        Some(j) => 0 <= j <= from && s[j as int] is Some && forall|i: int|
            j < i <= from ==> (#[trigger] s[i]) is None,
        None => forall|i: int| 0 <= i <= from ==> (#[trigger] s[i]) is None,
    }
}

/// `r` is the smallest index of an empty slot in `from..bound`, or `None` if
/// all those slots are filled.
pub open spec fn is_first_empty<T>(s: Seq<Option<T>>, from: int, bound: int, r: Option<usize>) -> bool {
    match r {
        Some(j) => from <= j < bound && s[j as int] is None && forall|i: int|
            from <= i < j ==> (#[trigger] s[i]) is Some,
        None => forall|i: int| from <= i < bound ==> (#[trigger] s[i]) is Some,
    }
}

/// The filled indices of a range are those of its two parts, one after the
/// other.
pub proof fn lemma_indices_split<T>(s: Seq<Option<T>>, lo: int, mid: int, hi: int)
    requires
        lo <= mid <= hi,
    ensures
        indices_between(s, lo, hi) == indices_between(s, lo, mid) + indices_between(s, mid, hi),
    decreases hi - mid,
{
    if hi == mid {
        assert(indices_between(s, lo, hi) =~= indices_between(s, lo, mid) + indices_between(s, mid, hi));
    } else {
        lemma_indices_split(s, lo, mid, hi - 1);
        assert(indices_between(s, lo, hi) =~= indices_between(s, lo, mid) + indices_between(s, mid, hi));
    }
}

/// Each filled index of a range lies in the range and is the index of a
/// filled slot; there are at most as many as the range is long; and they
/// increase.
pub proof fn lemma_indices_members<T>(s: Seq<Option<T>>, lo: int, hi: int)
    ensures
        indices_between(s, lo, hi).len() <= if hi >= lo {
            hi - lo
        } else {
            0
        },
        forall|k: int|
            0 <= k < indices_between(s, lo, hi).len() ==> lo <= (#[trigger] indices_between(s, lo, hi)[k])
                < hi && s[indices_between(s, lo, hi)[k]] is Some,
        forall|k: int, l: int|
            0 <= k < l < indices_between(s, lo, hi).len() ==> indices_between(s, lo, hi)[k]
                < indices_between(s, lo, hi)[l],
    decreases hi - lo,
{
    if hi > lo {
        lemma_indices_members(s, lo, hi - 1);
    }
}

/// Every index of a filled slot in a range is among the range's filled
/// indices.
pub proof fn lemma_indices_complete<T>(s: Seq<Option<T>>, lo: int, hi: int, i: int)
    requires
        lo <= i < hi,
        s[i] is Some,
    ensures
        indices_between(s, lo, hi).contains(i),
    decreases hi - lo,
{
    if i == hi - 1 {
        let r = indices_between(s, lo, hi);
        assert(r[r.len() - 1] == i);
    } else {
        lemma_indices_complete(s, lo, hi - 1, i);
        let q = indices_between(s, lo, hi - 1);
        let k = choose|k: int| 0 <= k < q.len() && q[k] == i;
        assert(indices_between(s, lo, hi)[k] == i);
    }
}

/// Two stores with the same slots filled in a range have the same filled
/// indices there.
pub proof fn lemma_indices_same_filled<T>(s: Seq<Option<T>>, t: Seq<Option<T>>, lo: int, hi: int)
    requires
        forall|i: int| lo <= i < hi ==> (s[i] is Some) == (t[i] is Some),
    ensures
        indices_between(s, lo, hi) == indices_between(t, lo, hi),
    decreases hi - lo,
{
    if hi > lo {
        lemma_indices_same_filled(s, t, lo, hi - 1);
    }
}

/// A range without a filled slot has no filled indices.
pub proof fn lemma_indices_none<T>(s: Seq<Option<T>>, lo: int, hi: int)
    requires
        forall|i: int| lo <= i < hi ==> s[i] is None,
    ensures
        indices_between(s, lo, hi) == Seq::<int>::empty(),
    decreases hi - lo,
{
    if hi > lo {
        lemma_indices_none(s, lo, hi - 1);
    }
}

/// In a range of filled slots every index is a filled index.
pub proof fn lemma_indices_all<T>(s: Seq<Option<T>>, lo: int, hi: int)
    requires
        lo <= hi,
        forall|i: int| lo <= i < hi ==> s[i] is Some,
    ensures
        indices_between(s, lo, hi) == Seq::new((hi - lo) as nat, |k: int| lo + k),
    decreases hi - lo,
{
    if hi > lo {
        lemma_indices_all(s, lo, hi - 1);
    }
    assert(indices_between(s, lo, hi) =~= Seq::new((hi - lo) as nat, |k: int| lo + k));
}

/// The filled indices of a range that begins with a filled slot begin with
/// that slot's index; an empty slot at the beginning adds nothing.
pub proof fn lemma_indices_front<T>(s: Seq<Option<T>>, lo: int, hi: int)
    requires
        lo < hi,
    ensures
        s[lo] is Some ==> indices_between(s, lo, hi) == seq![lo] + indices_between(s, lo + 1, hi),
        s[lo] is None ==> indices_between(s, lo, hi) == indices_between(s, lo + 1, hi),
{
    lemma_indices_split(s, lo, lo + 1, hi);
    assert(indices_between(s, lo, lo) =~= Seq::<int>::empty());
    if s[lo] is Some {
        assert(indices_between(s, lo, lo + 1) =~= seq![lo]);
    } else {
        assert(indices_between(s, lo, lo + 1) =~= Seq::<int>::empty());
        assert(indices_between(s, lo, hi) =~= indices_between(s, lo + 1, hi));
    }
}

/// The filled slots of a store with empty slots from `len` on are counted in
/// its first `len` slots.
pub proof fn lemma_count_below<T>(s: Seq<Option<T>>, len: int)
    requires
        0 <= len <= s.len(),
        empty_from(s, len),
    ensures
        count_filled(s) == indices_between(s, 0, len).len(),
        count_filled(s) <= len,
{
    lemma_indices_split(s, 0, len, s.len() as int);
    lemma_indices_none(s, len, s.len() as int);
    lemma_indices_members(s, 0, len);
}

/// Changing one slot changes the number of filled slots by what the slot
/// loses and what it gains.
pub proof fn lemma_count_update<T>(s: Seq<Option<T>>, i: int, v: Option<T>)
    requires
        0 <= i < s.len(),
    ensures
        count_filled(s.update(i, v)) == count_filled(s) - (if s[i] is Some {
            1int
        } else {
            0int
        }) + (if v is Some {
            1int
        } else {
            0int
        }),
{
    let t = s.update(i, v);
    let n = s.len() as int;
    lemma_indices_split(s, 0, i, n);
    lemma_indices_split(t, 0, i, n);
    lemma_indices_front(s, i, n);
    lemma_indices_front(t, i, n);
    lemma_indices_same_filled(s, t, 0, i);
    lemma_indices_same_filled(s, t, i + 1, n);
}

/// A store of empty slots holds no element.
pub proof fn lemma_count_empty<T>(n: nat)
    ensures
        count_filled(empty_slots::<T>(n)) == 0,
{
    lemma_indices_none(empty_slots::<T>(n), 0, n as int);
}

/// Lengthening a store, or cutting it off where only empty slots follow,
/// keeps its filled indices.
pub proof fn lemma_indices_resized<T>(s: Seq<Option<T>>, n: nat)
    requires
        n <= s.len() ==> empty_from(s, n as int),
    ensures
        filled_indices(resized(s, n)) == filled_indices(s),
        elements(resized(s, n)) == elements(s),
        count_filled(resized(s, n)) == count_filled(s),
{
    let t = resized(s, n);
    if n <= s.len() {
        lemma_indices_split(s, 0, n as int, s.len() as int);
        lemma_indices_none(s, n as int, s.len() as int);
        lemma_indices_same_filled(s, t, 0, n as int);
    } else {
        lemma_indices_split(t, 0, s.len() as int, n as int);
        lemma_indices_none(t, s.len() as int, n as int);
        lemma_indices_same_filled(s, t, 0, s.len() as int);
    }
    assert(filled_indices(t) =~= filled_indices(s));
    lemma_indices_members(s, 0, s.len() as int);
    lemma_indices_members(t, 0, n as int);
    assert(elements(t) =~= elements(s));
}

/// A store with empty slots from `len` on holds `len` elements if and only
/// if no slot below `len` is empty.
pub proof fn lemma_count_full<T>(s: Seq<Option<T>>, len: int)
    requires
        0 <= len <= s.len(),
        empty_from(s, len),
    ensures
        count_filled(s) == len <==> filled_below(s, len),
{
    lemma_count_below(s, len);
    if filled_below(s, len) {
        lemma_indices_all(s, 0, len);
    } else {
        let i = choose|i: int| 0 <= i < len && !((#[trigger] s[i]) is Some);
        lemma_indices_split(s, 0, i, len);
        lemma_indices_front(s, i, len);
        lemma_indices_members(s, 0, i);
        lemma_indices_members(s, i + 1, len);
    }
}

/// The first filled slot of a store with empty slots from `len` on holds
/// the first element.
pub proof fn lemma_first_filled<T>(s: Seq<Option<T>>, len: int, r: Option<usize>)
    requires
        0 <= len <= s.len(),
        empty_from(s, len),
        is_first_filled(s, 0, len, r),
    ensures
        r is None <==> count_filled(s) == 0,
        r matches Some(i) ==> filled_indices(s).first() == i && elements(s).first() == s[i as int]->0,
{
    lemma_count_below(s, len);
    match r {
        Some(i) => {
            lemma_indices_split(s, 0, i as int, s.len() as int);
            lemma_indices_none(s, 0, i as int);
            lemma_indices_front(s, i as int, s.len() as int);
        },
        None => {
            lemma_indices_none(s, 0, len);
        },
    }
}

/// The last filled slot of a store with empty slots from `len` on holds the
/// last element.
pub proof fn lemma_last_filled<T>(s: Seq<Option<T>>, len: int, r: Option<usize>)
    requires
        0 <= len <= s.len(),
        empty_from(s, len),
        is_last_filled(s, len - 1, r),
    ensures
        r is None <==> count_filled(s) == 0,
        r matches Some(i) ==> filled_indices(s).last() == i && elements(s).last() == s[i as int]->0,
{
    lemma_count_below(s, len);
    match r {
        Some(i) => {
            lemma_indices_split(s, 0, i + 1, s.len() as int);
            lemma_indices_none(s, i + 1, s.len() as int);
            assert(indices_between(s, 0, i + 1) == indices_between(s, 0, i as int).push(i as int));
            assert(filled_indices(s) =~= indices_between(s, 0, i + 1));
        },
        None => {
            lemma_indices_none(s, 0, len);
        },
    }
}

/// A range without filled indices holds empty slots only.
pub proof fn lemma_indices_empty<T>(s: Seq<Option<T>>, lo: int, hi: int)
    requires
        indices_between(s, lo, hi).len() == 0,
    ensures
        forall|i: int| lo <= i < hi ==> (#[trigger] s[i]) is None,
{
    assert forall|i: int| lo <= i < hi implies (#[trigger] s[i]) is None by {
        if s[i] is Some {
            lemma_indices_complete(s, lo, hi, i);
        }
    }
}

/// A store that holds more elements than its filled first `h` slots, and
/// none in the slots `h..e`, has a filled slot at `e` or behind it.
pub proof fn lemma_filled_ahead<T>(s: Seq<Option<T>>, h: int, e: int)
    requires
        0 <= h <= e <= s.len(),
        filled_below(s, h),
        forall|i: int| h <= i < e ==> (#[trigger] s[i]) is None,
        count_filled(s) > h,
    ensures
        exists|j: int| e <= j < s.len() && (#[trigger] s[j]) is Some,
{
    let n = s.len() as int;
    lemma_indices_split(s, 0, h, n);
    lemma_indices_split(s, h, e, n);
    lemma_indices_all(s, 0, h);
    lemma_indices_none(s, h, e);
    lemma_indices_members(s, e, n);
    let j = indices_between(s, e, n)[0];
    assert(s[j] is Some);
}

/// The first `h` slots being filled, a store holds at least `h` elements.
pub proof fn lemma_count_at_least<T>(s: Seq<Option<T>>, h: int)
    requires
        0 <= h <= s.len(),
        filled_below(s, h),
    ensures
        count_filled(s) >= h,
{
    lemma_indices_split(s, 0, h, s.len() as int);
    lemma_indices_all(s, 0, h);
}

/// Moving an element into an empty slot before it, over empty slots only,
/// keeps the elements and their order.
pub proof fn lemma_elements_move<T>(s: Seq<Option<T>>, h: int, e: int)
    requires
        0 <= h < e < s.len(),
        s[h] is None,
        s[e] is Some,
        forall|i: int| h < i < e ==> (#[trigger] s[i]) is None,
    ensures
        elements(swapped(s, h, e)) == elements(s),
        count_filled(swapped(s, h, e)) == count_filled(s),
{
    let t = swapped(s, h, e);
    let n = s.len() as int;
    let before = indices_between(s, 0, h);
    let behind = indices_between(s, e + 1, n);
    lemma_indices_split(s, 0, h, n);
    lemma_indices_split(s, h, e + 1, n);
    lemma_indices_none(s, h, e);
    lemma_indices_split(t, 0, h, n);
    lemma_indices_split(t, h, e + 1, n);
    lemma_indices_front(t, h, e + 1);
    lemma_indices_none(t, h + 1, e + 1);
    lemma_indices_same_filled(s, t, 0, h);
    lemma_indices_same_filled(s, t, e + 1, n);
    lemma_indices_members(s, 0, h);
    lemma_indices_members(s, e + 1, n);
    assert(filled_indices(s) =~= before + seq![e] + behind);
    assert(filled_indices(t) =~= before + seq![h] + behind);
    assert(elements(t) =~= elements(s));
}

/// In a store whose first `n` slots are filled and whose other slots are
/// empty, the elements are the contents of the first `n` slots.
pub proof fn lemma_compact_elements<T>(s: Seq<Option<T>>, n: int)
    requires
        0 <= n <= s.len(),
        filled_below(s, n),
        empty_from(s, n),
    ensures
        count_filled(s) == n,
        filled_indices(s) == Seq::new(n as nat, |k: int| k),
        forall|i: int| 0 <= i < n ==> s[i] == Some(#[trigger] elements(s)[i]),
{
    lemma_indices_split(s, 0, n, s.len() as int);
    lemma_indices_none(s, n, s.len() as int);
    lemma_indices_all(s, 0, n);
    assert(filled_indices(s) =~= Seq::new(n as nat, |k: int| k));
}

/// Compacting keeps the elements and their order, fills the first slots
/// and leaves the others empty.
pub proof fn lemma_compacted<T>(s: Seq<Option<T>>)
    ensures
        compacted(s).len() == s.len(),
        count_filled(compacted(s)) == count_filled(s),
        elements(compacted(s)) == elements(s),
        filled_below(compacted(s), count_filled(s) as int),
        empty_from(compacted(s), count_filled(s) as int),
{
    let t = compacted(s);
    let n = count_filled(s) as int;
    lemma_indices_members(s, 0, s.len() as int);
    lemma_compact_elements(t, n);
    assert(elements(t) =~= elements(s));
}

/// A store whose first slots are filled and whose other slots are empty is
/// its own compaction.
pub proof fn lemma_compacted_of_compact<T>(s: Seq<Option<T>>, n: int)
    requires
        0 <= n <= s.len(),
        filled_below(s, n),
        empty_from(s, n),
    ensures
        compacted(s) == s,
{
    lemma_compact_elements(s, n);
    assert(compacted(s) =~= s);
}

/// The elements of the filled slots among the first `hi` slots, by
/// increasing index.
pub open spec fn elements_below<T>(s: Seq<Option<T>>, hi: int) -> Seq<T> {
    indices_between(s, 0, hi).map_values(|i: int| s[i]->0)
}

/// An element occurs among the elements of the first `hi` slots as often as
/// a slot filled with it occurs among those slots.
pub proof fn lemma_element_occurrences<T>(s: Seq<Option<T>>, hi: int, x: T)
    requires
        0 <= hi <= s.len(),
    ensures
        elements_below(s, hi).to_multiset().count(x) == s.subrange(0, hi).to_multiset().count(Some(x)),
    decreases hi,
{
    broadcast use vstd::multiset::group_multiset_axioms;

    if hi == 0 {
        assert(elements_below(s, hi) =~= Seq::<T>::empty());
        assert(s.subrange(0, hi) =~= Seq::<Option<T>>::empty());
        assert(elements_below(s, hi).to_multiset() =~= vstd::multiset::Multiset::<T>::empty()) by {
            elements_below(s, hi).to_multiset_ensures();
        }
        assert(s.subrange(0, hi).to_multiset() =~= vstd::multiset::Multiset::<Option<T>>::empty()) by {
            s.subrange(0, hi).to_multiset_ensures();
        }
    } else {
        lemma_element_occurrences(s, hi - 1, x);
        let slots_before = s.subrange(0, hi - 1);
        assert(s.subrange(0, hi) =~= slots_before.push(s[hi - 1]));
        vstd::seq_lib::to_multiset_build(slots_before, s[hi - 1]);
        match s[hi - 1] {
            Some(y) => {
                assert(elements_below(s, hi) =~= elements_below(s, hi - 1).push(y));
                vstd::seq_lib::to_multiset_build(elements_below(s, hi - 1), y);
            },
            None => {
                assert(elements_below(s, hi) =~= elements_below(s, hi - 1));
            },
        }
    }
}

/// Two stores with the same slot contents, counted with multiplicity, hold
/// the same elements, counted with multiplicity.
pub proof fn lemma_elements_multiset<T>(s: Seq<Option<T>>, t: Seq<Option<T>>)
    requires
        s.to_multiset() == t.to_multiset(),
    ensures
        elements(s).to_multiset() == elements(t).to_multiset(),
{
    assert forall|x: T| elements(s).to_multiset().count(x) == elements(t).to_multiset().count(x) by {
        lemma_element_occurrences(s, s.len() as int, x);
        lemma_element_occurrences(t, t.len() as int, x);
        assert(s.subrange(0, s.len() as int) =~= s);
        assert(t.subrange(0, t.len() as int) =~= t);
    }
    assert(elements(s).to_multiset() =~= elements(t).to_multiset());
}

/// Exchanging the contents of two slots keeps the slot contents, counted
/// with multiplicity, and the number of filled slots.
pub proof fn lemma_swapped_multiset<T>(s: Seq<Option<T>>, a: int, b: int)
    requires
        0 <= a < s.len(),
        0 <= b < s.len(),
    ensures
        swapped(s, a, b).to_multiset() == s.to_multiset(),
        count_filled(swapped(s, a, b)) == count_filled(s),
{
    broadcast use vstd::multiset::group_multiset_axioms;

    let between = s.update(a, s[b]);
    vstd::seq_lib::to_multiset_update(s, a, s[b]);
    vstd::seq_lib::to_multiset_update(between, b, s[a]);
    s.to_multiset_ensures();
    assert(s.contains(s[a]));
    assert(s.contains(s[b]));
    assert(swapped(s, a, b).to_multiset() =~= s.to_multiset());
    lemma_count_update(s, a, s[b]);
    lemma_count_update(between, b, s[a]);
}

/// The filled indices in `start..end` begin with the first filled slot from
/// `start` on, if it lies before `end`, and there are none if it does not.
pub proof fn lemma_indices_first<T>(s: Seq<Option<T>>, start: int, end: int, bound: int, r: Option<usize>)
    requires
        0 <= start <= end <= bound <= s.len(),
        is_first_filled(s, start, bound, r),
    ensures
        match r {
            Some(i) => if i < end {
                &&& indices_between(s, start, end).len() > 0
                &&& indices_between(s, start, end).first() == i
                &&& indices_between(s, start, end).drop_first() == indices_between(s, i + 1, end)
            } else {
                indices_between(s, start, end).len() == 0
            },
            None => indices_between(s, start, end).len() == 0,
        },
{
    match r {
        Some(i) => {
            if i < end {
                lemma_indices_split(s, start, i as int, end);
                lemma_indices_none(s, start, i as int);
                lemma_indices_front(s, i as int, end);
                assert(indices_between(s, start, end).drop_first() =~= indices_between(s, i + 1, end));
            } else {
                lemma_indices_none(s, start, end);
            }
        },
        None => {
            lemma_indices_none(s, start, end);
        },
    }
}

/// The filled indices in `start..end` end with the last filled slot before
/// `end`, if it lies at `start` or behind it, and there are none if it does
/// not.
pub proof fn lemma_indices_last<T>(s: Seq<Option<T>>, start: int, end: int, r: Option<usize>)
    requires
        0 <= start <= end <= s.len(),
        is_last_filled(s, end - 1, r),
    ensures
        match r {
            Some(i) => if i >= start {
                &&& indices_between(s, start, end).len() > 0
                &&& indices_between(s, start, end).last() == i
                &&& indices_between(s, start, end).drop_last() == indices_between(s, start, i as int)
            } else {
                indices_between(s, start, end).len() == 0
            },
            None => indices_between(s, start, end).len() == 0,
        },
{
    match r {
        Some(i) => {
            if i >= start {
                lemma_indices_split(s, start, i + 1, end);
                lemma_indices_none(s, i + 1, end);
                assert(indices_between(s, start, i + 1) == indices_between(s, start, i as int).push(
                    i as int,
                ));
                assert(indices_between(s, start, end) =~= indices_between(s, start, i as int).push(i as int));
                assert(indices_between(s, start, end).drop_last() =~= indices_between(s, start, i as int));
            } else {
                lemma_indices_none(s, start, end);
            }
        },
        None => {
            lemma_indices_none(s, start, end);
        },
    }
}

/// Emptying the first filled slot takes the first element away and leaves
/// the others.
pub proof fn lemma_elements_without_first<T>(s: Seq<Option<T>>, i: int)
    requires
        0 <= i < s.len(),
        s[i] is Some,
        forall|j: int| 0 <= j < i ==> (#[trigger] s[j]) is None,
    ensures
        elements(s).len() > 0,
        elements(s).first() == s[i]->0,
        elements(s.update(i, None)) == elements(s).drop_first(),
{
    let t = s.update(i, None);
    let n = s.len() as int;
    lemma_indices_split(s, 0, i, n);
    lemma_indices_none(s, 0, i);
    lemma_indices_front(s, i, n);
    lemma_indices_split(t, 0, i, n);
    lemma_indices_none(t, 0, i);
    lemma_indices_front(t, i, n);
    lemma_indices_same_filled(s, t, i + 1, n);
    lemma_indices_members(s, i + 1, n);
    assert(filled_indices(s) =~= seq![i] + indices_between(s, i + 1, n));
    assert(filled_indices(t) =~= indices_between(s, i + 1, n));
    assert(elements(t) =~= elements(s).drop_first());
}

} // verus!
