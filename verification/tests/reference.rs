use routinglib::reference::{Arena, Reference, ReferenceTraits};

#[test]
fn a_new_arena_holds_nothing() {
    let mut arena: Arena<u32> = Arena::new();
    let r = arena.take_ownership(5);
    assert_eq!(arena.release(r), Some(5));
    assert_eq!(arena.get(r), None);
}

#[test]
fn handles_name_what_was_taken_over() {
    let mut arena: Arena<String> = Arena::new();
    let a = arena.take_ownership(String::from("one"));
    let b = arena.take_ownership(String::from("two"));
    assert_eq!(arena.get(a), Some(&String::from("one")));
    assert_eq!(arena.get(b), Some(&String::from("two")));
    assert_eq!(a.index(), 0);
    assert_eq!(b.index(), 1);
}

#[test]
fn handles_are_equal_by_identity_not_by_value() {
    let mut arena: Arena<u32> = Arena::new();
    let a = arena.take_ownership(7);
    let b = arena.take_ownership(7);
    let again: Reference = a;
    assert_ne!(a, b);
    assert_eq!(a, again);
    assert_eq!(arena.get(a), arena.get(b));
}

#[test]
fn exchange_swaps_the_value() {
    let mut arena: Arena<u32> = Arena::new();
    let a = arena.take_ownership(1);
    let b = arena.take_ownership(2);
    assert_eq!(arena.exchange(a, 10), 1);
    assert_eq!(arena.get(a), Some(&10));
    assert_eq!(arena.get(b), Some(&2));
}

#[test]
fn exchange_on_a_released_handle_hands_the_value_back() {
    let mut arena: Arena<u32> = Arena::new();
    let a = arena.take_ownership(1);
    assert_eq!(arena.release(a), Some(1));
    assert_eq!(arena.exchange(a, 10), 10);
    assert_eq!(arena.get(a), None);
}

#[test]
fn release_lets_go_once() {
    let mut arena: Arena<u32> = Arena::new();
    let a = arena.take_ownership(1);
    let b = arena.take_ownership(2);
    assert_eq!(arena.release(a), Some(1));
    assert_eq!(arena.release(a), None);
    assert_eq!(arena.get(a), None);
    assert_eq!(arena.get(b), Some(&2));
    // a slot is never used again
    let c = arena.take_ownership(3);
    assert_ne!(c, a);
    assert_ne!(c, b);
    assert_eq!(c.index(), 2);
    assert_eq!(arena.get(c), Some(&3));
}

#[test]
fn a_handle_of_another_arena_may_name_nothing() {
    let mut big: Arena<u32> = Arena::new();
    big.take_ownership(1);
    let far = big.take_ownership(2);
    let mut small: Arena<u32> = Arena::new();
    small.take_ownership(9);
    assert_eq!(small.get(far), None);
    assert_eq!(small.release(far), None);
    assert_eq!(small.exchange(far, 4), 4);
}
