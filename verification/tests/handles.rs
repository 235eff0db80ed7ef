use spin_sync::arc::Arc;
use spin_sync::counter::{is_last, others, CountOp, Counter};
use spin_sync::wait_group::WaitGroup;

#[test]
fn a_group_counts_its_other_handles() {
    let group = WaitGroup::new();
    assert_eq!(group.waiting_on().0, 0);

    let first = group.clone();
    let second = first.clone();
    assert_eq!(group.waiting_on().0, 2);
    assert_eq!(first.waiting_on().0, 2);

    first.done();
    assert_eq!(group.waiting_on().0, 1);
    assert_eq!(second.waiting_on().0, 1);
    second.done();
    assert_eq!(group.waiting_on().0, 0);
}

#[test]
fn waiting_ends_when_the_others_are_done() {
    let group = WaitGroup::new();
    assert!(group.wait(1).0);

    let others: Vec<WaitGroup> = (0..10).map(|_| group.clone()).collect();
    assert_eq!(group.waiting_on().0, 10);
    for handle in others {
        assert!(!group.wait(100).0);
        handle.done();
    }
    assert!(group.wait(1).0);
    assert!(!group.wait(0).0);
}

#[test]
fn the_last_handle_of_a_group_knows() {
    let group = WaitGroup::new();
    let other = group.clone();
    assert!(!group.release().0);
    assert!(other.wait(1).0);
    assert!(other.release().0);
}

#[test]
fn handles_share_one_value() {
    let arc = Arc::new(String::from("hello"));
    let other = arc.clone();

    assert_eq!(*arc, "hello");
    assert_eq!(*other, "hello");
    assert!(std::ptr::eq(&*arc, &*other));
}

#[test]
fn the_last_handle_of_a_value_knows() {
    let arc = Arc::new(5u32);
    let first = arc.clone();
    let second = first.clone();

    assert!(!arc.release().0);
    assert!(!second.release().0);
    assert_eq!(*first, 5);
    assert!(first.release().0);
}

#[test]
fn the_value_goes_with_the_last_handle() {
    let owned = std::rc::Rc::new(());
    let arc = Arc::new(owned.clone());
    let other = arc.clone();
    assert_eq!(std::rc::Rc::strong_count(&owned), 2);

    arc.release();
    assert_eq!(std::rc::Rc::strong_count(&owned), 2);
    other.release();
    assert_eq!(std::rc::Rc::strong_count(&owned), 1);
}

#[test]
fn counts_decide() {
    assert!(is_last(1));
    assert!(!is_last(2));
    assert!(!is_last(0));
    assert_eq!(others(1), 0);
    assert_eq!(others(11), 10);
    assert_eq!(others(0), 0);
}

#[test]
fn a_counter_counts() {
    let counter = Counter::new();
    let mut tally = counter.tally();

    assert_eq!(counter.perform(CountOp::Look, &mut tally), 1);
    assert_eq!(counter.perform(CountOp::Up, &mut tally), 1);
    assert_eq!(counter.perform(CountOp::Up, &mut tally), 2);
    assert_eq!(counter.waiting_on(&mut tally), 2);
    assert!(!counter.wait(3, &mut tally));
    assert_eq!(counter.perform(CountOp::Leave, &mut tally), 3);
    assert_eq!(counter.perform(CountOp::Down, &mut tally), 2);
    assert!(counter.wait(3, &mut tally));
    assert_eq!(counter.perform(CountOp::Look, &mut tally), 1);
}

#[test]
fn a_count_wraps_around() {
    let counter = Counter::new();
    let mut tally = counter.tally();

    assert_eq!(counter.perform(CountOp::Down, &mut tally), 1);
    assert_eq!(counter.waiting_on(&mut tally), 0);
    assert_eq!(counter.perform(CountOp::Leave, &mut tally), 0);
    assert_eq!(counter.perform(CountOp::Look, &mut tally), usize::MAX);
    assert_eq!(counter.perform(CountOp::Up, &mut tally), usize::MAX);
    assert_eq!(counter.perform(CountOp::Look, &mut tally), 0);
}

#[test]
fn a_dropped_handle_of_a_group_is_done() {
    let group = WaitGroup::new();
    let first = group.clone();
    let second = group.clone();
    assert_eq!(group.waiting_on().0, 2);

    drop(first);
    assert_eq!(group.waiting_on().0, 1);
    assert!(!group.wait(5).0);
    drop(second);
    assert_eq!(group.waiting_on().0, 0);
    assert!(group.wait(1).0);
    assert!(group.release().0);
}

#[test]
fn a_handle_that_is_done_is_counted_down_once() {
    let group = WaitGroup::new();
    let other = group.clone();
    let third = group.clone();

    other.done();
    assert_eq!(group.waiting_on().0, 1);
    assert!(!third.release().0);
    assert_eq!(group.waiting_on().0, 0);
}

#[test]
fn a_dropped_handle_of_a_value_is_gone() {
    let owned = std::rc::Rc::new(());
    let arc = Arc::new(owned.clone());
    let other = arc.clone();

    drop(other);
    assert_eq!(std::rc::Rc::strong_count(&owned), 2);
    let third = arc.clone();
    assert!(!arc.release().0);
    assert!(third.release().0);
    assert_eq!(std::rc::Rc::strong_count(&owned), 1);

    let arc = Arc::new(owned.clone());
    drop(arc);
    assert_eq!(std::rc::Rc::strong_count(&owned), 1);
}

#[test]
fn handles_can_go_to_other_threads() {
    fn is_send<T: Send>(_: &T) {}
    fn is_sync<T: Sync>(_: &T) {}

    let group = WaitGroup::new();
    is_send(&group);
    is_sync(&group);
    let arc = Arc::new(String::from("hello"));
    is_send(&arc);
    is_sync(&arc);
}
