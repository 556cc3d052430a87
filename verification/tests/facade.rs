use stable_vec::{BitVecCore, Core, OptionCore, StableVecFacade};

// The elements of `sv`, by increasing index.
fn values<T: Copy, C: Core<T>>(sv: &StableVecFacade<T, C>) -> Vec<T> {
    let mut out = Vec::new();
    let mut it = sv.iter();
    while let Some((_, e)) = it.next() {
        out.push(*e);
    }
    out
}

// The indices of the filled slots of `sv`, in increasing order.
fn indices<T, C: Core<T>>(sv: &StableVecFacade<T, C>) -> Vec<usize> {
    let mut out = Vec::new();
    let mut it = sv.indices();
    while let Some(i) = it.next() {
        out.push(i);
    }
    out
}

// The slots of `sv`, one entry per index below the capacity.
fn slots<T: Copy, C: Core<T>>(sv: &StableVecFacade<T, C>) -> Vec<Option<T>> {
    (0..sv.capacity()).map(|i| sv.get(i).copied()).collect()
}

fn from_slice<T: Clone, C: Core<T>>(items: &[T]) -> StableVecFacade<T, C> {
    let mut sv = StableVecFacade::new();
    sv.extend_from_slice(items);
    sv
}

fn check_new<C: Core<u8>>() {
    let sv = StableVecFacade::<u8, C>::new();
    assert_eq!(sv.capacity(), 0);
    assert_eq!(sv.num_elements(), 0);
    assert_eq!(sv.next_push_index(), 0);
    assert!(sv.is_empty());
    assert!(sv.is_compact());
    assert_eq!(sv.get(0), None);
    assert!(!sv.has_element_at(0));
    assert_eq!(sv.find_first_index(), None);
    assert_eq!(sv.find_last_index(), None);
    assert_eq!(sv.next_index_from(0), None);
    assert_eq!(sv.prev_index_from(0), None);

    let sv = StableVecFacade::<u8, C>::default();
    assert_eq!(sv.capacity(), 0);
    assert_eq!(sv.num_elements(), 0);
}

#[test]
fn new_inline() {
    check_new::<OptionCore<u8>>();
}

#[test]
fn new_extern() {
    check_new::<BitVecCore<u8>>();
}

fn check_with_capacity<C: Core<u8>>() {
    let sv = StableVecFacade::<u8, C>::with_capacity(3);
    assert_eq!(sv.capacity(), 3);
    assert_eq!(sv.num_elements(), 0);
    assert_eq!(sv.next_push_index(), 0);
    assert_eq!(slots(&sv), vec![None, None, None]);

    let sv = StableVecFacade::<u8, C>::with_capacity(0);
    assert_eq!(sv.capacity(), 0);
}

#[test]
fn with_capacity_inline() {
    check_with_capacity::<OptionCore<u8>>();
}

#[test]
fn with_capacity_extern() {
    check_with_capacity::<BitVecCore<u8>>();
}

fn check_push_remove_insert<C: Core<char>>() {
    let mut sv = StableVecFacade::<char, C>::new();
    assert_eq!(sv.push('a'), 0);
    assert_eq!(sv.push('b'), 1);
    assert_eq!(sv.push('c'), 2);

    assert_eq!(sv.remove(1), Some('b'));
    assert_eq!(sv.get(0), Some(&'a'));
    assert_eq!(sv.get(1), None);
    assert_eq!(sv.get(2), Some(&'c'));
    assert_eq!(values(&sv), vec!['a', 'c']);
    assert_eq!(indices(&sv), vec![0, 2]);
    assert_eq!(sv.num_elements(), 2);
    assert!(!sv.is_compact());

    assert_eq!(sv.insert(1, 'x'), None);
    assert_eq!(sv.get(1), Some(&'x'));
    assert_eq!(sv.num_elements(), 3);
    assert_eq!(values(&sv), vec!['a', 'x', 'c']);
    assert!(sv.is_compact());
}

#[test]
fn push_remove_insert_inline() {
    check_push_remove_insert::<OptionCore<char>>();
}

#[test]
fn push_remove_insert_extern() {
    check_push_remove_insert::<BitVecCore<char>>();
}

fn check_reserve_then_push<C: Core<u32>>() {
    let mut sv = StableVecFacade::<u32, C>::new();
    assert_eq!(sv.capacity(), 0);
    sv.reserve(5);
    assert!(sv.capacity() >= 5);
    assert_eq!(sv.capacity(), 5);
    assert_eq!(sv.num_elements(), 0);
    assert_eq!(sv.next_push_index(), 0);

    for i in 0..23 {
        sv.push(i);
    }
    assert!(sv.capacity() >= 23);
    // 5 slots are doubled to 10, to 20 and to 40.
    assert_eq!(sv.capacity(), 40);
    assert_eq!(sv.num_elements(), 23);
    assert_eq!(sv.next_push_index(), 23);
}

#[test]
fn reserve_then_push_inline() {
    check_reserve_then_push::<OptionCore<u32>>();
}

#[test]
fn reserve_then_push_extern() {
    check_reserve_then_push::<BitVecCore<u32>>();
}

fn check_reserve<C: Core<u8>>() {
    let mut sv = StableVecFacade::<u8, C>::new();
    sv.reserve(5);
    assert_eq!(sv.capacity(), 5);

    // Room for 7 is more than the 5 slots there are, and less than twice
    // as many.
    sv.reserve(7);
    assert_eq!(sv.capacity(), 10);

    // There is room for 6 already.
    sv.reserve(6);
    assert_eq!(sv.capacity(), 10);

    for _ in 0..10 {
        sv.push(1);
    }
    assert_eq!(sv.capacity(), 10);

    // Room for 13 behind the 10 elements is more than twice the capacity.
    sv.reserve(13);
    assert_eq!(sv.capacity(), 23);
    sv.reserve(2);
    assert_eq!(sv.capacity(), 23);
    sv.reserve(14);
    assert_eq!(sv.capacity(), 46);
    assert_eq!(sv.num_elements(), 10);
    assert_eq!(sv.next_push_index(), 10);
}

#[test]
fn reserve_inline() {
    check_reserve::<OptionCore<u8>>();
}

#[test]
fn reserve_extern() {
    check_reserve::<BitVecCore<u8>>();
}

fn check_reserve_exact<C: Core<u8>>() {
    let mut sv = StableVecFacade::<u8, C>::new();
    sv.reserve_exact(5);
    assert_eq!(sv.capacity(), 5);
    sv.reserve_exact(7);
    assert_eq!(sv.capacity(), 7);
    sv.reserve_exact(6);
    assert_eq!(sv.capacity(), 7);
    for _ in 0..7 {
        sv.push(1);
    }
    sv.reserve_exact(1);
    assert_eq!(sv.capacity(), 8);
    assert_eq!(sv.num_elements(), 7);
}

#[test]
fn reserve_exact_inline() {
    check_reserve_exact::<OptionCore<u8>>();
}

#[test]
fn reserve_exact_extern() {
    check_reserve_exact::<BitVecCore<u8>>();
}

fn check_reserve_for<C: Core<u8>>() {
    let mut sv = StableVecFacade::<u8, C>::new();
    sv.push(9);
    assert_eq!(sv.capacity(), 1);

    sv.reserve_for(5);
    assert_eq!(sv.capacity(), 6);
    assert_eq!(sv.insert(5, 7), None);
    assert_eq!(sv.get(5), Some(&7));
    assert_eq!(sv.next_push_index(), 6);

    sv.reserve_for(3);
    assert_eq!(sv.capacity(), 6);

    // A slot at index 6 is one more than there are: the capacity doubles.
    sv.reserve_for(6);
    assert_eq!(sv.capacity(), 12);
}

#[test]
fn reserve_for_inline() {
    check_reserve_for::<OptionCore<u8>>();
}

#[test]
fn reserve_for_extern() {
    check_reserve_for::<BitVecCore<u8>>();
}

fn check_push_grows_by_doubling<C: Core<usize>>() {
    let mut sv = StableVecFacade::<usize, C>::new();
    let mut caps = Vec::new();
    for i in 0..9 {
        assert_eq!(sv.push(i * 10), i);
        caps.push(sv.capacity());
    }
    assert_eq!(caps, vec![1, 2, 4, 4, 8, 8, 8, 8, 16]);
    for i in 0..9 {
        assert_eq!(sv.get(i), Some(&(i * 10)));
    }
    assert_eq!(sv.get(9), None);
    assert_eq!(sv.get(16), None);
    assert_eq!(sv.get(usize::MAX), None);
}

#[test]
fn push_grows_by_doubling_inline() {
    check_push_grows_by_doubling::<OptionCore<usize>>();
}

#[test]
fn push_grows_by_doubling_extern() {
    check_push_grows_by_doubling::<BitVecCore<usize>>();
}

fn check_insert<C: Core<char>>() {
    let mut sv = StableVecFacade::<char, C>::new();
    let star = sv.push('s');
    let heart = sv.push('h');

    sv.remove(star);
    assert_eq!(sv.num_elements(), 1);
    assert_eq!(sv.insert(star, 'x'), None);
    assert_eq!(sv.num_elements(), 2);
    assert_eq!(sv.get(star), Some(&'x'));

    sv.reserve_for(5);
    assert_eq!(sv.insert(5, 'y'), None);
    assert_eq!(sv.num_elements(), 3);
    assert_eq!(sv.next_push_index(), 6);
    assert_eq!(sv.get(5), Some(&'y'));

    // An element in the slot is replaced and handed back.
    assert_eq!(sv.insert(heart, 'z'), Some('h'));
    assert_eq!(sv.get(heart), Some(&'z'));
    assert_eq!(sv.num_elements(), 3);
    assert_eq!(sv.next_push_index(), 6);

    // A slot below the next push index leaves that index alone.
    assert_eq!(sv.insert(3, 'w'), None);
    assert_eq!(sv.next_push_index(), 6);
    assert_eq!(indices(&sv), vec![0, 1, 3, 5]);
    assert_eq!(values(&sv), vec!['x', 'z', 'w', 'y']);
}

#[test]
fn insert_inline() {
    check_insert::<OptionCore<char>>();
}

#[test]
fn insert_extern() {
    check_insert::<BitVecCore<char>>();
}

fn check_remove<C: Core<char>>() {
    let mut sv = from_slice::<char, C>(&['a', 'b', 'c']);
    assert_eq!(sv.remove(0), Some('a'));
    assert_eq!(sv.remove(0), None);
    assert_eq!(sv.num_elements(), 2);
    assert_eq!(sv.next_push_index(), 3);
    assert_eq!(sv.remove(2), Some('c'));
    assert_eq!(sv.remove(2), None);
    assert_eq!(sv.next_push_index(), 3);
    assert_eq!(sv.remove(1), Some('b'));
    assert!(sv.is_empty());
    assert_eq!(sv.capacity(), 3);
    assert_eq!(sv.push('d'), 3);
    assert_eq!(indices(&sv), vec![3]);
}

#[test]
fn remove_inline() {
    check_remove::<OptionCore<char>>();
}

#[test]
fn remove_extern() {
    check_remove::<BitVecCore<char>>();
}

fn check_stability<C: Core<u32>>() {
    let mut sv = StableVecFacade::<u32, C>::new();
    let first = sv.push(100);
    let kept = sv.push(200);
    let third = sv.push(300);
    for i in 0..50 {
        sv.push(i);
    }
    assert_eq!(sv.get(kept), Some(&200));
    sv.remove(first);
    sv.remove(third);
    assert_eq!(sv.get(kept), Some(&200));
    sv.insert(first, 7);
    for i in 10..40 {
        sv.remove(i);
    }
    sv.reserve(1000);
    sv.shrink_to_fit();
    assert_eq!(sv.get(kept), Some(&200));
    assert_eq!(sv.remove(kept), Some(200));
    assert_eq!(sv.get(kept), None);
}

#[test]
fn pushed_index_is_stable_inline() {
    check_stability::<OptionCore<u32>>();
}

#[test]
fn pushed_index_is_stable_extern() {
    check_stability::<BitVecCore<u32>>();
}

fn check_count_matches_walk<C: Core<u32>>() {
    let mut sv = StableVecFacade::<u32, C>::new();
    assert_eq!(sv.num_elements(), sv.iter().count());
    for i in 0..70 {
        sv.push(i);
        assert_eq!(sv.num_elements(), sv.iter().count());
        assert_eq!(sv.num_elements(), values(&sv).len());
    }
    for i in [3usize, 64, 65, 0, 69, 33] {
        sv.remove(i);
        assert_eq!(sv.num_elements(), sv.indices().count());
        assert_eq!(sv.num_elements(), indices(&sv).len());
    }
    sv.insert(64, 1);
    assert_eq!(sv.num_elements(), values(&sv).len());
    sv.insert(1, 1);
    assert_eq!(sv.num_elements(), values(&sv).len());
    sv.make_compact();
    assert_eq!(sv.num_elements(), values(&sv).len());
    assert_eq!(sv.num_elements(), 65);
    sv.clear();
    assert_eq!(sv.num_elements(), values(&sv).len());
    assert_eq!(sv.num_elements(), 0);
}

#[test]
fn count_matches_walk_inline() {
    check_count_matches_walk::<OptionCore<u32>>();
}

#[test]
fn count_matches_walk_extern() {
    check_count_matches_walk::<BitVecCore<u32>>();
}

fn check_first_and_last<C: Core<u8>>() {
    let mut sv = from_slice::<u8, C>(&[1, 2, 3]);
    assert_eq!(sv.find_first(), Some(&1));
    assert_eq!(sv.find_last(), Some(&3));
    assert_eq!(sv.find_first_index(), Some(0));
    assert_eq!(sv.find_last_index(), Some(2));

    assert_eq!(sv.remove_first(), Some(1));
    assert_eq!(values(&sv), vec![2, 3]);
    assert_eq!(sv.find_first(), Some(&2));
    assert_eq!(sv.find_first_index(), Some(1));

    assert_eq!(sv.remove_last(), Some(3));
    assert_eq!(values(&sv), vec![2]);
    assert_eq!(sv.find_last(), Some(&2));
    assert_eq!(sv.find_last_index(), Some(1));
    assert_eq!(sv.next_push_index(), 3);

    *sv.find_first_mut().unwrap() = 20;
    assert_eq!(values(&sv), vec![20]);
    *sv.find_last_mut().unwrap() += 1;
    assert_eq!(values(&sv), vec![21]);

    assert_eq!(sv.remove_first(), Some(21));
    assert_eq!(sv.remove_first(), None);
    assert_eq!(sv.remove_last(), None);
    assert_eq!(sv.find_first(), None);
    assert_eq!(sv.find_last(), None);
    assert!(sv.find_first_mut().is_none());
    assert!(sv.find_last_mut().is_none());
    assert_eq!(sv.find_first_index(), None);
    assert_eq!(sv.find_last_index(), None);
}

#[test]
fn first_and_last_inline() {
    check_first_and_last::<OptionCore<u8>>();
}

#[test]
fn first_and_last_extern() {
    check_first_and_last::<BitVecCore<u8>>();
}

fn check_get_mut<C: Core<u8>>() {
    let mut sv = from_slice::<u8, C>(&[1, 2, 3]);
    sv.remove(1);
    *sv.get_mut(0).unwrap() = 10;
    assert!(sv.get_mut(1).is_none());
    assert!(sv.get_mut(3).is_none());
    *sv.get_unchecked_mut(2) += 5;
    assert_eq!(*sv.get_unchecked(0), 10);
    assert_eq!(slots(&sv), vec![Some(10), None, Some(8)]);
    assert!(sv.has_element_at(0));
    assert!(!sv.has_element_at(1));
    assert!(sv.has_element_at(2));
    assert!(!sv.has_element_at(3));
    assert!(!sv.has_element_at(usize::MAX));
}

#[test]
fn get_mut_inline() {
    check_get_mut::<OptionCore<u8>>();
}

#[test]
fn get_mut_extern() {
    check_get_mut::<BitVecCore<u8>>();
}

fn check_index_scans<C: Core<u8>>() {
    let mut sv = from_slice::<u8, C>(&[0, 1, 2, 3, 4]);
    sv.remove(1);
    sv.remove(2);
    assert_eq!(sv.next_index_from(0), Some(0));
    assert_eq!(sv.next_index_from(1), Some(3));
    assert_eq!(sv.next_index_from(2), Some(3));
    assert_eq!(sv.next_index_from(3), Some(3));
    assert_eq!(sv.next_index_from(4), Some(4));
    assert_eq!(sv.prev_index_from(4), Some(4));
    assert_eq!(sv.prev_index_from(3), Some(3));
    assert_eq!(sv.prev_index_from(2), Some(0));
    assert_eq!(sv.prev_index_from(1), Some(0));
    assert_eq!(sv.prev_index_from(0), Some(0));

    sv.remove(4);
    assert_eq!(sv.next_index_from(4), None);
    assert_eq!(sv.next_index_from(5), None);
    assert_eq!(sv.next_index_from(1000), None);
    assert_eq!(sv.prev_index_from(4), Some(3));
    assert_eq!(sv.prev_index_from(5), Some(3));
    assert_eq!(sv.prev_index_from(usize::MAX), Some(3));

    sv.remove(0);
    assert_eq!(sv.next_index_from(0), Some(3));
    assert_eq!(sv.prev_index_from(2), None);
    assert_eq!(sv.prev_index_from(0), None);
}

#[test]
fn index_scans_inline() {
    check_index_scans::<OptionCore<u8>>();
}

#[test]
fn index_scans_extern() {
    check_index_scans::<BitVecCore<u8>>();
}

fn filled_in_ranges<C: Core<u32>>() -> StableVecFacade<u32, C> {
    let mut sv = StableVecFacade::<u32, C>::new();
    sv.reserve(200);
    for i in (25..60).chain(62..65).chain(66..70).chain(90..120) {
        sv.insert(i, 27);
    }
    sv
}

fn check_next_index_medium<C: Core<u32>>() {
    let sv = filled_in_ranges::<C>();
    assert_eq!(sv.next_push_index(), 120);
    for i in 0..25 {
        assert_eq!(sv.next_index_from(i), Some(25));
    }
    for i in 25..60 {
        assert_eq!(sv.next_index_from(i), Some(i));
    }
    for i in 60..62 {
        assert_eq!(sv.next_index_from(i), Some(62));
    }
    for i in 62..65 {
        assert_eq!(sv.next_index_from(i), Some(i));
    }
    for i in 65..66 {
        assert_eq!(sv.next_index_from(i), Some(66));
    }
    for i in 66..70 {
        assert_eq!(sv.next_index_from(i), Some(i));
    }
    for i in 70..90 {
        assert_eq!(sv.next_index_from(i), Some(90));
    }
    for i in 90..120 {
        assert_eq!(sv.next_index_from(i), Some(i));
    }
    for i in 120..201 {
        assert_eq!(sv.next_index_from(i), None);
    }
}

#[test]
fn next_index_from_medium_inline() {
    check_next_index_medium::<OptionCore<u32>>();
}

#[test]
fn next_index_from_medium_extern() {
    check_next_index_medium::<BitVecCore<u32>>();
}

fn check_prev_index_medium<C: Core<u32>>() {
    let sv = filled_in_ranges::<C>();
    for i in 0..25 {
        assert_eq!(sv.prev_index_from(i), None);
    }
    for i in 25..60 {
        assert_eq!(sv.prev_index_from(i), Some(i));
    }
    for i in 60..62 {
        assert_eq!(sv.prev_index_from(i), Some(59));
    }
    for i in 62..65 {
        assert_eq!(sv.prev_index_from(i), Some(i));
    }
    for i in 65..66 {
        assert_eq!(sv.prev_index_from(i), Some(64));
    }
    for i in 66..70 {
        assert_eq!(sv.prev_index_from(i), Some(i));
    }
    for i in 70..90 {
        assert_eq!(sv.prev_index_from(i), Some(69));
    }
    for i in 90..120 {
        assert_eq!(sv.prev_index_from(i), Some(i));
    }
    for i in 120..300 {
        assert_eq!(sv.prev_index_from(i), Some(119));
    }
}

#[test]
fn prev_index_from_medium_inline() {
    check_prev_index_medium::<OptionCore<u32>>();
}

#[test]
fn prev_index_from_medium_extern() {
    check_prev_index_medium::<BitVecCore<u32>>();
}

fn check_next_index_large<C: Core<u32>>() {
    let mut sv = StableVecFacade::<u32, C>::new();
    sv.reserve(2000);
    for i in (250..600).chain(620..650).chain(652..700).chain(900..1200) {
        sv.insert(i, 27);
    }
    for i in 0..250 {
        assert_eq!(sv.next_index_from(i), Some(250));
    }
    for i in 250..600 {
        assert_eq!(sv.next_index_from(i), Some(i));
    }
    for i in 600..620 {
        assert_eq!(sv.next_index_from(i), Some(620));
    }
    for i in 620..650 {
        assert_eq!(sv.next_index_from(i), Some(i));
    }
    for i in 650..652 {
        assert_eq!(sv.next_index_from(i), Some(652));
    }
    for i in 652..700 {
        assert_eq!(sv.next_index_from(i), Some(i));
    }
    for i in 700..900 {
        assert_eq!(sv.next_index_from(i), Some(900));
    }
    for i in 900..1200 {
        assert_eq!(sv.next_index_from(i), Some(i));
    }
    for i in 1200..2001 {
        assert_eq!(sv.next_index_from(i), None);
    }
}

#[test]
fn next_index_from_large_inline() {
    check_next_index_large::<OptionCore<u32>>();
}

#[test]
fn next_index_from_large_extern() {
    check_next_index_large::<BitVecCore<u32>>();
}

fn check_shrink_to_fit<C: Core<u8>>() {
    let mut sv = StableVecFacade::<u8, C>::with_capacity(10);
    sv.push(1);
    sv.push(2);
    sv.push(3);
    sv.remove(1);
    sv.shrink_to_fit();
    assert_eq!(sv.capacity(), 3);
    assert_eq!(sv.next_push_index(), 3);
    assert_eq!(slots(&sv), vec![Some(1), None, Some(3)]);

    sv.clear();
    sv.shrink_to_fit();
    assert_eq!(sv.capacity(), 0);
    assert_eq!(sv.push(4), 0);
    assert_eq!(sv.capacity(), 1);
}

#[test]
fn shrink_to_fit_inline() {
    check_shrink_to_fit::<OptionCore<u8>>();
}

#[test]
fn shrink_to_fit_extern() {
    check_shrink_to_fit::<BitVecCore<u8>>();
}

fn check_shrink_across_words<C: Core<u32>>() {
    let mut sv = StableVecFacade::<u32, C>::new();
    for i in 0..200 {
        sv.push(i);
    }
    for i in 70..200 {
        sv.remove(i);
    }
    sv.make_compact();
    sv.shrink_to_fit();
    assert_eq!(sv.capacity(), 70);
    sv.reserve_exact(130);
    assert_eq!(sv.capacity(), 200);
    assert_eq!(sv.num_elements(), 70);
    assert_eq!(sv.next_index_from(70), None);
    for i in 70..200 {
        assert!(!sv.has_element_at(i));
    }
    assert_eq!(values(&sv), (0..70).collect::<Vec<u32>>());
}

#[test]
fn shrink_across_words_inline() {
    check_shrink_across_words::<OptionCore<u32>>();
}

#[test]
fn shrink_across_words_extern() {
    check_shrink_across_words::<BitVecCore<u32>>();
}

fn check_clear<C: Core<char>>() {
    let mut sv = from_slice::<char, C>(&['a', 'b']);
    let cap = sv.capacity();
    sv.clear();
    assert_eq!(sv.num_elements(), 0);
    assert!(sv.is_empty());
    assert_eq!(sv.capacity(), cap);
    assert_eq!(sv.next_push_index(), 0);
    assert_eq!(slots(&sv), vec![None, None]);
    assert_eq!(sv.push('c'), 0);
}

#[test]
fn clear_inline() {
    check_clear::<OptionCore<char>>();
}

#[test]
fn clear_extern() {
    check_clear::<BitVecCore<char>>();
}

fn check_make_compact<C: Core<char>>() {
    let mut sv = from_slice::<char, C>(&['a', 'b', 'c', 'd', 'e', 'f', 'g']);
    sv.remove(1);
    sv.remove(2);
    sv.remove(5);
    let before = values(&sv);
    let cap = sv.capacity();
    assert!(!sv.is_compact());

    sv.make_compact();
    assert!(sv.is_compact());
    assert_eq!(values(&sv), before);
    assert_eq!(
        slots(&sv),
        vec![Some('a'), Some('d'), Some('e'), Some('g'), None, None, None]
    );
    assert_eq!(sv.next_push_index(), 4);
    assert_eq!(sv.num_elements(), 4);
    assert_eq!(sv.capacity(), cap);
    assert!(sv.capacity() >= sv.num_elements());

    // A second time nothing changes.
    let once = slots(&sv);
    sv.make_compact();
    assert_eq!(slots(&sv), once);
    assert_eq!(sv.next_push_index(), 4);
    assert!(sv.is_compact());
}

#[test]
fn make_compact_inline() {
    check_make_compact::<OptionCore<char>>();
}

#[test]
fn make_compact_extern() {
    check_make_compact::<BitVecCore<char>>();
}

fn check_reordering_make_compact<C: Core<char>>() {
    let mut sv = from_slice::<char, C>(&['a', 'b', 'c', 'd', 'e', 'f', 'g']);
    sv.remove(1);
    sv.remove(2);
    sv.remove(5);
    let mut before = values(&sv);
    before.sort();
    let cap = sv.capacity();

    sv.reordering_make_compact();
    assert!(sv.is_compact());
    let mut after = values(&sv);
    after.sort();
    assert_eq!(after, before);
    assert_eq!(sv.next_push_index(), 4);
    assert_eq!(sv.num_elements(), 4);
    assert_eq!(sv.capacity(), cap);
    assert!(sv.capacity() >= sv.num_elements());
    // What stood in one of the first four slots still stands there; the
    // holes got the elements from the back.
    assert_eq!(
        slots(&sv),
        vec![Some('a'), Some('g'), Some('e'), Some('d'), None, None, None]
    );

    let once = slots(&sv);
    sv.reordering_make_compact();
    assert_eq!(slots(&sv), once);
    assert_eq!(sv.next_push_index(), 4);
}

#[test]
fn reordering_make_compact_inline() {
    check_reordering_make_compact::<OptionCore<char>>();
}

#[test]
fn reordering_make_compact_extern() {
    check_reordering_make_compact::<BitVecCore<char>>();
}

fn check_compact_edge_cases<C: Core<u8>>() {
    // Nothing to do on an empty container.
    let mut sv = StableVecFacade::<u8, C>::new();
    sv.make_compact();
    sv.reordering_make_compact();
    assert_eq!(sv.capacity(), 0);

    // All elements removed.
    let mut sv = from_slice::<u8, C>(&[1, 2, 3]);
    sv.remove(0);
    sv.remove(1);
    sv.remove(2);
    sv.make_compact();
    assert_eq!(sv.next_push_index(), 0);
    assert!(sv.is_compact());
    assert_eq!(sv.capacity(), 3);

    let mut sv = from_slice::<u8, C>(&[1, 2, 3]);
    sv.remove(0);
    sv.remove(1);
    sv.remove(2);
    sv.reordering_make_compact();
    assert_eq!(sv.next_push_index(), 0);
    assert!(sv.is_compact());

    // Only the last element removed: no element moves.
    let mut sv = from_slice::<u8, C>(&[1, 2, 3]);
    sv.remove(2);
    sv.make_compact();
    assert_eq!(slots(&sv), vec![Some(1), Some(2), None]);
    assert_eq!(sv.next_push_index(), 2);

    let mut sv = from_slice::<u8, C>(&[1, 2, 3]);
    sv.remove(2);
    sv.reordering_make_compact();
    assert_eq!(slots(&sv), vec![Some(1), Some(2), None]);
    assert_eq!(sv.next_push_index(), 2);

    // Only the first element removed.
    let mut sv = from_slice::<u8, C>(&[1, 2, 3]);
    sv.remove(0);
    sv.make_compact();
    assert_eq!(slots(&sv), vec![Some(2), Some(3), None]);

    let mut sv = from_slice::<u8, C>(&[1, 2, 3]);
    sv.remove(0);
    sv.reordering_make_compact();
    assert_eq!(slots(&sv), vec![Some(3), Some(2), None]);

    // One element left, behind holes and before empty slots.
    let mut sv = StableVecFacade::<u8, C>::with_capacity(10);
    sv.insert(6, 9);
    sv.make_compact();
    assert_eq!(sv.get(0), Some(&9));
    assert_eq!(sv.next_push_index(), 1);
    assert_eq!(sv.num_elements(), 1);
    assert_eq!(sv.capacity(), 10);

    let mut sv = StableVecFacade::<u8, C>::with_capacity(10);
    sv.insert(6, 9);
    sv.reordering_make_compact();
    assert_eq!(sv.get(0), Some(&9));
    assert_eq!(sv.next_push_index(), 1);
}

#[test]
fn compact_edge_cases_inline() {
    check_compact_edge_cases::<OptionCore<u8>>();
}

#[test]
fn compact_edge_cases_extern() {
    check_compact_edge_cases::<BitVecCore<u8>>();
}

fn check_compact_many<C: Core<u32>>() {
    // A fixed walk through many patterns of holes.
    let mut seed: u32 = 12345;
    for round in 0..40 {
        let n = 1 + (round * 7) % 150;
        let mut sv = StableVecFacade::<u32, C>::new();
        for i in 0..n {
            sv.push(i);
        }
        let mut kept = Vec::new();
        for i in 0..n {
            seed = seed.wrapping_mul(1664525).wrapping_add(1013904223);
            if (seed >> 16) % 3 == 0 {
                sv.remove(i as usize);
            } else {
                kept.push(i);
            }
        }
        let mut ordered = sv.clone();
        ordered.make_compact();
        assert!(ordered.is_compact());
        assert_eq!(values(&ordered), kept);
        assert_eq!(indices(&ordered), (0..kept.len()).collect::<Vec<usize>>());
        assert_eq!(ordered.next_push_index(), kept.len());

        let mut reordered = sv.clone();
        reordered.reordering_make_compact();
        assert!(reordered.is_compact());
        let mut got = values(&reordered);
        got.sort();
        assert_eq!(got, kept);
        assert_eq!(indices(&reordered), (0..kept.len()).collect::<Vec<usize>>());
        for i in 0..kept.len() {
            if let Some(e) = sv.get(i) {
                assert_eq!(reordered.get(i), Some(e));
            }
        }
    }
}

#[test]
fn compact_many_inline() {
    check_compact_many::<OptionCore<u32>>();
}

#[test]
fn compact_many_extern() {
    check_compact_many::<BitVecCore<u32>>();
}

fn check_contains<C: Core<char>>() {
    let mut sv = from_slice::<char, C>(&['a', 'b', 'c']);
    assert!(sv.contains(&'a'));
    assert!(sv.contains(&'b'));
    assert!(sv.contains(&'c'));
    assert!(!sv.contains(&'d'));
    sv.remove(1);
    assert!(!sv.contains(&'b'));
    assert!(sv.contains(&'c'));
    sv.clear();
    assert!(!sv.contains(&'a'));
}

#[test]
fn contains_inline() {
    check_contains::<OptionCore<char>>();
}

#[test]
fn contains_extern() {
    check_contains::<BitVecCore<char>>();
}

fn check_retain<C: Core<u32>>() {
    let mut sv = from_slice::<u32, C>(&[1, 2, 3, 4, 5]);
    sv.retain(|&e| e % 2 == 0);
    assert_eq!(slots(&sv), vec![None, Some(2), None, Some(4), None]);
    assert_eq!(sv.num_elements(), 2);
    assert_eq!(sv.next_push_index(), 5);

    // The predicate may keep a count of its own.
    let mut seen = 0;
    sv.retain(|_| {
        seen += 1;
        true
    });
    assert_eq!(seen, 2);
    assert_eq!(values(&sv), vec![2, 4]);
    sv.retain(|_| false);
    assert!(sv.is_empty());
    assert_eq!(sv.capacity(), 5);
}

#[test]
fn retain_inline() {
    check_retain::<OptionCore<u32>>();
}

#[test]
fn retain_extern() {
    check_retain::<BitVecCore<u32>>();
}

fn check_retain_indices<C: Core<char>>() {
    let mut sv = from_slice::<char, C>(&['a', 'b', 'c', 'd', 'e']);
    let mut asked = Vec::new();
    sv.retain_indices(|index| {
        asked.push(index);
        index != 2
    });
    assert_eq!(asked, vec![0, 1, 2, 3, 4]);
    assert_eq!(indices(&sv), vec![0, 1, 3, 4]);
    sv.retain_indices(|index| index == 1 || index == 2 || index == 4);
    assert_eq!(indices(&sv), vec![1, 4]);
    assert_eq!(values(&sv), vec!['b', 'e']);
    assert_eq!(sv.num_elements(), 2);
    sv.retain_indices(|_| false);
    assert_eq!(sv.num_elements(), 0);
    assert_eq!(sv.next_push_index(), 5);
}

#[test]
fn retain_indices_inline() {
    check_retain_indices::<OptionCore<char>>();
}

#[test]
fn retain_indices_extern() {
    check_retain_indices::<BitVecCore<char>>();
}

fn check_extend_from_slice<C: Core<u8>>() {
    let mut sv = StableVecFacade::<u8, C>::new();
    sv.extend_from_slice(&[]);
    assert_eq!(sv.capacity(), 0);

    sv.extend_from_slice(&[1, 2, 3]);
    assert_eq!(sv.capacity(), 3);
    assert_eq!(values(&sv), vec![1, 2, 3]);

    sv.remove(2);
    sv.extend_from_slice(&[4]);
    // One more slot is asked for than the 3 there are: the capacity doubles.
    assert_eq!(sv.capacity(), 6);
    assert_eq!(slots(&sv), vec![Some(1), Some(2), None, Some(4), None, None]);
    assert_eq!(sv.num_elements(), 3);
    assert_eq!(sv.next_push_index(), 4);

    sv.extend_from_slice(&[5, 6, 7, 8, 9]);
    assert_eq!(sv.capacity(), 12);
    assert_eq!(values(&sv), vec![1, 2, 4, 5, 6, 7, 8, 9]);
    assert_eq!(sv.next_push_index(), 9);

    // As pushing one after the other does.
    let mut pushed = StableVecFacade::<u8, C>::new();
    for e in [1u8, 2, 3] {
        pushed.push(e);
    }
    pushed.remove(2);
    for e in [4u8, 5, 6, 7, 8, 9] {
        pushed.push(e);
    }
    assert_eq!(values(&pushed), values(&sv));
    assert_eq!(indices(&pushed), indices(&sv));
}

#[test]
fn extend_from_slice_inline() {
    check_extend_from_slice::<OptionCore<u8>>();
}

#[test]
fn extend_from_slice_extern() {
    check_extend_from_slice::<BitVecCore<u8>>();
}

fn check_clone<C: Core<String>>() {
    let mut sv = StableVecFacade::<String, C>::with_capacity(6);
    sv.push("a".to_string());
    sv.push("b".to_string());
    sv.push("c".to_string());
    sv.remove(1);

    let mut copy = sv.clone();
    assert_eq!(copy.capacity(), 6);
    assert_eq!(copy.next_push_index(), 3);
    assert_eq!(copy.num_elements(), 2);
    assert_eq!(copy.get(0), Some(&"a".to_string()));
    assert_eq!(copy.get(1), None);
    assert_eq!(copy.get(2), Some(&"c".to_string()));

    // The two are apart.
    copy.insert(1, "x".to_string());
    copy.remove(0);
    assert_eq!(sv.get(0), Some(&"a".to_string()));
    assert_eq!(sv.get(1), None);
    assert_eq!(sv.num_elements(), 2);
    sv.push("d".to_string());
    assert_eq!(copy.get(3), None);
}

#[test]
fn clone_inline() {
    check_clone::<OptionCore<String>>();
}

#[test]
fn clone_extern() {
    check_clone::<BitVecCore<String>>();
}

fn check_large<C: Core<usize>>() {
    let mut sv = StableVecFacade::<usize, C>::new();
    for i in 0..1000 {
        assert_eq!(sv.push(i), i);
    }
    for i in (0..1000).filter(|i| i % 3 != 0) {
        assert_eq!(sv.remove(i), Some(i));
    }
    assert_eq!(sv.num_elements(), 334);
    assert_eq!(indices(&sv), (0..1000).filter(|i| i % 3 == 0).collect::<Vec<usize>>());
    for i in 0..1000 {
        assert_eq!(sv.has_element_at(i), i % 3 == 0);
        assert_eq!(sv.next_index_from(i), if i <= 999 { Some((i + 2) / 3 * 3) } else { None });
        assert_eq!(sv.prev_index_from(i), Some(i / 3 * 3));
    }
    assert_eq!(sv.capacity(), 1024);
}

#[test]
fn large_inline() {
    check_large::<OptionCore<usize>>();
}

#[test]
fn large_extern() {
    check_large::<BitVecCore<usize>>();
}

fn check_zero_sized<C: Core<()>>() {
    let mut sv = StableVecFacade::<(), C>::new();
    sv.push(());
    sv.push(());
    sv.push(());
    assert_eq!(sv.remove(1), Some(()));
    assert_eq!(sv.num_elements(), 2);
    assert_eq!(indices(&sv), vec![0, 2]);
    sv.make_compact();
    assert_eq!(indices(&sv), vec![0, 1]);
}

#[test]
fn zero_sized_type_inline() {
    check_zero_sized::<OptionCore<()>>();
}

#[test]
fn zero_sized_type_extern() {
    check_zero_sized::<BitVecCore<()>>();
}
