use std::cell::RefCell;
use std::rc::Rc;

use stable_vec::{BitVecCore, Core, OptionCore, StableVecFacade};

// An element that notes its name in a shared list when it is destroyed.
struct Noted {
    name: char,
    log: Rc<RefCell<Vec<char>>>,
}

impl Drop for Noted {
    fn drop(&mut self) {
        self.log.borrow_mut().push(self.name);
    }
}

impl Clone for Noted {
    fn clone(&self) -> Self {
        Noted { name: self.name.to_ascii_uppercase(), log: self.log.clone() }
    }
}

fn noted(name: char, log: &Rc<RefCell<Vec<char>>>) -> Noted {
    Noted { name, log: log.clone() }
}

fn sorted(log: &Rc<RefCell<Vec<char>>>) -> Vec<char> {
    let mut v = log.borrow().clone();
    v.sort();
    v
}

fn check_drop_once<C: Core<Noted>>() {
    let log = Rc::new(RefCell::new(Vec::new()));
    {
        let mut sv = StableVecFacade::<Noted, C>::new();
        sv.push(noted('a', &log));
        sv.push(noted('b', &log));
        sv.push(noted('c', &log));
        sv.push(noted('d', &log));
        assert!(log.borrow().is_empty());

        // A removed element is destroyed where its owner lets go of it.
        let removed = sv.remove(1);
        assert!(log.borrow().is_empty());
        drop(removed);
        assert_eq!(*log.borrow(), vec!['b']);

        // An overwritten one likewise.
        let previous = sv.insert(2, noted('x', &log));
        assert_eq!(*log.borrow(), vec!['b']);
        drop(previous);
        assert_eq!(*log.borrow(), vec!['b', 'c']);

        // Moving elements and changing the capacity destroys none.
        sv.reserve(100);
        sv.make_compact();
        sv.shrink_to_fit();
        sv.push(noted('e', &log));
        sv.remove(0);
        assert_eq!(*log.borrow(), vec!['b', 'c', 'a']);
        sv.reordering_make_compact();
        assert_eq!(*log.borrow(), vec!['b', 'c', 'a']);
    }
    // What was left is destroyed with the container, each once.
    assert_eq!(sorted(&log), vec!['a', 'b', 'c', 'd', 'e', 'x']);
}

#[test]
fn drop_once_inline() {
    check_drop_once::<OptionCore<Noted>>();
}

#[test]
fn drop_once_extern() {
    check_drop_once::<BitVecCore<Noted>>();
}

fn check_drop_on_clear<C: Core<Noted>>() {
    let log = Rc::new(RefCell::new(Vec::new()));
    let mut sv = StableVecFacade::<Noted, C>::new();
    sv.push(noted('a', &log));
    sv.push(noted('b', &log));
    sv.push(noted('c', &log));
    drop(sv.remove(1));
    sv.clear();
    assert_eq!(sorted(&log), vec!['a', 'b', 'c']);
    drop(sv);
    assert_eq!(sorted(&log), vec!['a', 'b', 'c']);
}

#[test]
fn drop_on_clear_inline() {
    check_drop_on_clear::<OptionCore<Noted>>();
}

#[test]
fn drop_on_clear_extern() {
    check_drop_on_clear::<BitVecCore<Noted>>();
}

fn check_drop_of_clones<C: Core<Noted>>() {
    let log = Rc::new(RefCell::new(Vec::new()));
    let mut sv = StableVecFacade::<Noted, C>::new();
    sv.push(noted('a', &log));
    sv.push(noted('b', &log));
    drop(sv.remove(0));
    {
        let copy = sv.clone();
        assert_eq!(copy.num_elements(), 1);
        assert_eq!(*log.borrow(), vec!['a']);
    }
    // The clone's element is destroyed with the clone, the other not.
    assert_eq!(*log.borrow(), vec!['a', 'B']);

    let mut it = sv.into_iter();
    let taken = it.next();
    assert_eq!(*log.borrow(), vec!['a', 'B']);
    drop(taken);
    drop(it);
    assert_eq!(*log.borrow(), vec!['a', 'B', 'b']);
}

#[test]
fn drop_of_clones_inline() {
    check_drop_of_clones::<OptionCore<Noted>>();
}

#[test]
fn drop_of_clones_extern() {
    check_drop_of_clones::<BitVecCore<Noted>>();
}

fn check_drop_in_retain<C: Core<Noted>>() {
    let log = Rc::new(RefCell::new(Vec::new()));
    let mut sv = StableVecFacade::<Noted, C>::new();
    for name in ['a', 'b', 'c', 'd'] {
        sv.push(noted(name, &log));
    }
    sv.retain(|e| e.name == 'b' || e.name == 'd');
    assert_eq!(*log.borrow(), vec!['a', 'c']);
    sv.retain_indices(|i| i == 3);
    assert_eq!(*log.borrow(), vec!['a', 'c', 'b']);
    drop(sv);
    assert_eq!(*log.borrow(), vec!['a', 'c', 'b', 'd']);
}

#[test]
fn drop_in_retain_inline() {
    check_drop_in_retain::<OptionCore<Noted>>();
}

#[test]
fn drop_in_retain_extern() {
    check_drop_in_retain::<BitVecCore<Noted>>();
}
