//! Single bits of a machine word, and the lemmas about them that the
//! bit-tracked store rests on.

use vstd::prelude::*;

verus! {

/// The number of bits in a machine word.
pub const BITS_PER_USIZE: usize = usize::BITS as usize;

/// Bit `k` of `w` is set.
pub open spec fn bit_at(w: usize, k: usize) -> bool {
    (w >> k) & 1 == 1
}

/// Tests bit `k` of `w`.
pub fn test_bit(w: usize, k: usize) -> (b: bool)
    requires
        k < usize::BITS,
    ensures
        b == bit_at(w, k),
{
    assert((w >> k) & 1 != 0 <==> (w >> k) & 1 == 1) by (bit_vector);
    ((w >> k) & 1) != 0
}

/// `w` with bit `k` set.
pub fn with_bit_set(w: usize, k: usize) -> (r: usize)
    requires
        k < usize::BITS,
    ensures
        forall|j: usize| j < usize::BITS ==> #[trigger] bit_at(r, j) == (j == k || bit_at(w, j)),
{
    let r = w | (1usize << k);
    assert forall|j: usize| j < usize::BITS implies #[trigger] bit_at(r, j) == (j == k || bit_at(w, j)) by {
        assert((((w | (1usize << k)) >> j) & 1 == 1) == (j == k || (w >> j) & 1 == 1)) by (bit_vector)
            requires
                k < usize::BITS,
                j < usize::BITS,
        ;
    }
    r
}

/// `w` with bit `k` cleared.
pub fn with_bit_cleared(w: usize, k: usize) -> (r: usize)
    requires
        k < usize::BITS,
    ensures
        forall|j: usize| j < usize::BITS ==> #[trigger] bit_at(r, j) == (j != k && bit_at(w, j)),
{
    let r = w & !(1usize << k);
    assert forall|j: usize| j < usize::BITS implies #[trigger] bit_at(r, j) == (j != k && bit_at(w, j)) by {
        assert((((w & !(1usize << k)) >> j) & 1 == 1) == (j != k && (w >> j) & 1 == 1)) by (bit_vector)
            requires
                k < usize::BITS,
                j < usize::BITS,
        ;
    }
    r
}

/// `w` with bit `k` flipped if `flip` is 1, and unchanged if it is 0.
pub fn with_bit_flipped(w: usize, k: usize, flip: usize) -> (r: usize)
    requires
        k < usize::BITS,
        flip <= 1,
    ensures
        forall|j: usize|
            j < usize::BITS ==> #[trigger] bit_at(r, j) == (if j == k && flip == 1 {
                !bit_at(w, j)
            } else {
                bit_at(w, j)
            }),
{
    let r = w ^ (flip << k);
    assert forall|j: usize| j < usize::BITS implies #[trigger] bit_at(r, j) == (if j == k && flip == 1 {
        !bit_at(w, j)
    } else {
        bit_at(w, j)
    }) by {
        assert((((w ^ (flip << k)) >> j) & 1 == 1) == (if j == k && flip == 1 {
            !((w >> j) & 1 == 1)
        } else {
            (w >> j) & 1 == 1
        })) by (bit_vector)
            requires
                k < usize::BITS,
                j < usize::BITS,
                flip <= 1,
        ;
    }
    r
}

/// No bit of the zero word is set, and a word without a set bit is zero.
pub proof fn lemma_zero_word(w: usize)
    ensures
        w == 0 <==> forall|j: usize| j < usize::BITS ==> !#[trigger] bit_at(w, j),
{
    if w == 0 {
        assert forall|j: usize| j < usize::BITS implies !#[trigger] bit_at(w, j) by {
            assert(!((0usize >> j) & 1 == 1)) by (bit_vector);
        }
    } else {
        lemma_lowest_set_bit(w);
        assert(bit_at(w, lowest_set_bit(w)));
    }
}

/// The position of the lowest set bit of a word that is not zero.
pub closed spec fn lowest_set_bit(w: usize) -> usize {
    (w as u64).trailing_zeros() as usize
}

/// In a word that is not zero, `lowest_set_bit` is the position of a set bit,
/// and no bit below it is set.
pub proof fn lemma_lowest_set_bit(w: usize)
    requires
        w != 0,
    ensures
        lowest_set_bit(w) < usize::BITS,
        bit_at(w, lowest_set_bit(w)),
        forall|j: usize| j < lowest_set_bit(w) ==> !#[trigger] bit_at(w, j),
{
    broadcast use vstd::std_specs::bits::axiom_u64_trailing_zeros;
    let x = w as u64;
    let r = x.trailing_zeros() as u64;
    assert(x != 0) by (bit_vector)
        requires
            x == w as u64,
            w != 0,
    ;
    assert(r < 64);
    assert((x >> r) & 1u64 == 1u64);
    let k = r as usize;
    assert(k < usize::BITS && (w >> k) & 1 == 1) by (bit_vector)
        requires
            x == w as u64,
            r < 64,
            r == k as u64,
            (x >> r) & 1u64 == 1u64,
    ;
    assert forall|j: usize| j < k implies !#[trigger] bit_at(w, j) by {
        let ju = j as u64;
        assert((x >> ju) & 1u64 == 0u64);
        assert(!((w >> j) & 1 == 1)) by (bit_vector)
            requires
                x == w as u64,
                ju == j as u64,
                ju < 64,
                (x >> ju) & 1u64 == 0u64,
        ;
    }
}

/// The position of the lowest set bit of `w`, which is not zero, by one
/// count of its trailing zeros.
pub fn find_lowest_set_bit(w: usize) -> (k: usize)
    requires
        w != 0,
    ensures
        k == lowest_set_bit(w),
        k < usize::BITS,
        bit_at(w, k),
        forall|j: usize| j < k ==> !#[trigger] bit_at(w, j),
{
    proof {
        lemma_lowest_set_bit(w);
    }
    (w as u64).trailing_zeros() as usize
}

/// `w` without its bits below position `k`.
pub fn without_bits_below(w: usize, k: usize) -> (r: usize)
    requires
        k < usize::BITS,
    ensures
        forall|j: usize| j < usize::BITS ==> #[trigger] bit_at(r, j) == (j >= k && bit_at(w, j)),
{
    let r = w & (!0usize << k);
    assert forall|j: usize| j < usize::BITS implies #[trigger] bit_at(r, j) == (j >= k && bit_at(w, j)) by {
        assert((((w & (!0usize << k)) >> j) & 1 == 1) == (j >= k && (w >> j) & 1 == 1)) by (bit_vector)
            requires
                k < usize::BITS,
                j < usize::BITS,
        ;
    }
    r
}

/// The complement of `w`.
pub fn complement(w: usize) -> (r: usize)
    ensures
        forall|j: usize| j < usize::BITS ==> #[trigger] bit_at(r, j) == !bit_at(w, j),
{
    let r = !w;
    assert forall|j: usize| j < usize::BITS implies #[trigger] bit_at(r, j) == !bit_at(w, j) by {
        assert((((!w) >> j) & 1 == 1) == !((w >> j) & 1 == 1)) by (bit_vector)
            requires
                j < usize::BITS,
        ;
    }
    r
}

} // verus!
