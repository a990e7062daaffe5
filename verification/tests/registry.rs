use std::sync::{Arc, Mutex};
use std::task::{Wake, Waker};
use wake_list::WakeList;

struct Counter {
    hits: Mutex<usize>,
}

impl Wake for Counter {
    fn wake(self: Arc<Self>) {
        *self.hits.lock().unwrap() += 1;
    }
}

fn counter() -> Arc<Counter> {
    Arc::new(Counter { hits: Mutex::new(0) })
}

fn waker(counter: &Arc<Counter>) -> Waker {
    Waker::from(counter.clone())
}

fn hits(counter: &Arc<Counter>) -> usize {
    *counter.hits.lock().unwrap()
}

#[test]
fn wake_one_on_an_empty_registry_finds_nothing() {
    let mut list = WakeList::new();
    assert!(!list.wake_one());
    assert!(!list.wake_one());
}

#[test]
fn fresh_indices_count_up_from_zero() {
    let mut list = WakeList::new();
    let a = list.register(None);
    let b = list.register(None);
    let c = list.register(None);
    assert_eq!(0, a.index());
    assert_eq!(1, b.index());
    assert_eq!(2, c.index());
}

#[test]
fn registrations_in_a_row_get_distinct_indices() {
    let mut list = WakeList::new();
    let mut handles = Vec::new();
    for _ in 0..6 {
        handles.push(list.register(None));
    }
    list.unregister(handles.remove(4));
    list.unregister(handles.remove(1));
    let mut indices: Vec<usize> = handles.iter().map(|h| h.index()).collect();
    for _ in 0..5 {
        indices.push(list.register(None).index());
    }
    assert_eq!(vec![0, 2, 3, 5, 1, 4, 6, 7, 8], indices);
    let mut sorted = indices.clone();
    sorted.sort();
    sorted.dedup();
    assert_eq!(indices.len(), sorted.len());
}

#[test]
fn a_freed_slot_is_reused_by_the_next_registration() {
    let mut list = WakeList::new();
    let _a = list.register(None);
    let b = list.register(None);
    let _c = list.register(None);
    let freed = b.index();
    list.unregister(b);
    let again = list.register(None);
    assert_eq!(freed, again.index());
    let fresh = list.register(None);
    assert_eq!(3, fresh.index());
}

#[test]
fn slot_zero_can_be_reused() {
    let mut list = WakeList::new();
    let a = list.register(None);
    list.unregister(a);
    let seen = counter();
    let again = list.register(Some(waker(&seen)));
    assert_eq!(0, again.index());
    assert!(list.wake_one());
    assert_eq!(1, hits(&seen));
    assert!(!list.wake_one());
}

#[test]
fn the_newest_marker_is_claimed_first() {
    let mut list = WakeList::new();
    let a = list.register(None);
    let b = list.register(None);
    let c = list.register(None);
    list.unregister(a);
    list.unregister(c);
    list.unregister(b);
    assert_eq!(1, list.register(None).index());
    assert_eq!(2, list.register(None).index());
    assert_eq!(0, list.register(None).index());
    assert_eq!(3, list.register(None).index());
}

#[test]
fn a_waker_is_notified_at_most_once() {
    let mut list = WakeList::new();
    let seen = counter();
    let _h = list.register(Some(waker(&seen)));
    assert!(list.wake_one());
    assert_eq!(1, hits(&seen));
    assert!(!list.wake_one());
    assert_eq!(1, hits(&seen));
}

#[test]
fn reregister_does_not_rearm_a_woken_slot() {
    let mut list = WakeList::new();
    let first = counter();
    let second = counter();
    let h = list.register(Some(waker(&first)));
    assert!(list.wake_one());
    list.reregister(h, waker(&second));
    assert!(!list.wake_one());
    assert_eq!(1, hits(&first));
    assert_eq!(0, hits(&second));
}

#[test]
fn reregister_overwrites_the_waker() {
    let mut list = WakeList::new();
    let seen = counter();
    let h = list.register(None);
    list.reregister(h, waker(&seen));
    assert!(list.wake_one());
    assert_eq!(1, hits(&seen));
    assert!(!list.wake_one());
    assert_eq!(1, hits(&seen));
}

#[test]
fn reregister_replaces_an_earlier_waker() {
    let mut list = WakeList::new();
    let earlier = counter();
    let later = counter();
    let h = list.register(Some(waker(&earlier)));
    list.reregister(h, waker(&later));
    assert!(list.wake_one());
    assert_eq!(0, hits(&earlier));
    assert_eq!(1, hits(&later));
}

#[test]
fn reregister_reaches_the_slot_of_its_handle() {
    let mut list = WakeList::new();
    let a = counter();
    let b = counter();
    let c = counter();
    let replacement = counter();
    let _ha = list.register(Some(waker(&a)));
    let hb = list.register(Some(waker(&b)));
    let _hc = list.register(Some(waker(&c)));
    list.reregister(hb, waker(&replacement));
    assert!(list.wake_one());
    assert_eq!((0, 0, 1, 0), (hits(&a), hits(&b), hits(&c), hits(&replacement)));
    assert!(list.wake_one());
    assert_eq!((0, 0, 1, 1), (hits(&a), hits(&b), hits(&c), hits(&replacement)));
    assert!(list.wake_one());
    assert_eq!((1, 0, 1, 1), (hits(&a), hits(&b), hits(&c), hits(&replacement)));
    assert!(!list.wake_one());
}

#[test]
fn a_slot_without_a_waker_still_takes_a_delivery() {
    let mut list = WakeList::new();
    let _h = list.register(None);
    assert!(list.wake_one());
    assert!(!list.wake_one());
}

#[test]
fn delivery_goes_to_the_most_recently_allocated_slot_first() {
    let mut list = WakeList::new();
    let a = counter();
    let b = counter();
    let _ha = list.register(Some(waker(&a)));
    let _hb = list.register(Some(waker(&b)));
    assert!(list.wake_one());
    assert_eq!((0, 1), (hits(&a), hits(&b)));
    assert!(list.wake_one());
    assert_eq!((1, 1), (hits(&a), hits(&b)));
    assert!(!list.wake_one());
    assert_eq!((1, 1), (hits(&a), hits(&b)));
}

#[test]
fn unregister_drops_the_waker_and_unsets_the_flag() {
    let mut list = WakeList::new();
    let seen = counter();
    let h = list.register(Some(waker(&seen)));
    assert_eq!(2, Arc::strong_count(&seen));
    assert!(list.wake_one());
    assert_eq!(1, hits(&seen));
    list.unregister(h);
    assert_eq!(1, Arc::strong_count(&seen));
    assert!(list.wake_one());
    assert_eq!(1, hits(&seen));
    assert!(!list.wake_one());
}

#[test]
fn a_reused_slot_keeps_its_flag() {
    let mut list = WakeList::new();
    let seen = counter();
    let h = list.register(None);
    list.unregister(h);
    assert!(list.wake_one());
    let again = list.register(Some(waker(&seen)));
    assert_eq!(0, again.index());
    assert!(!list.wake_one());
    assert_eq!(0, hits(&seen));
}

#[test]
fn register_replaces_the_waker_of_a_reused_slot() {
    let mut list = WakeList::new();
    let a = counter();
    let b = counter();
    let d = counter();
    let _ha = list.register(Some(waker(&a)));
    let hb = list.register(Some(waker(&b)));
    list.unregister(hb);
    let hd = list.register(Some(waker(&d)));
    assert_eq!(1, hd.index());
    assert_eq!(2, Arc::strong_count(&a));
    assert_eq!(1, Arc::strong_count(&b));
    assert_eq!(2, Arc::strong_count(&d));
    assert!(list.wake_one());
    assert_eq!((0, 0, 1), (hits(&a), hits(&b), hits(&d)));
    assert!(list.wake_one());
    assert_eq!((1, 0, 1), (hits(&a), hits(&b), hits(&d)));
    assert!(!list.wake_one());
}

#[test]
fn register_unregister_register_wake() {
    let mut list = WakeList::new();
    let a = counter();
    let b = counter();
    let c = counter();
    let d = counter();
    let ha = list.register(Some(waker(&a)));
    let hb = list.register(Some(waker(&b)));
    let hc = list.register(Some(waker(&c)));
    assert_eq!((0, 1, 2), (ha.index(), hb.index(), hc.index()));

    list.unregister(hb);
    let hd = list.register(Some(waker(&d)));
    assert_eq!(1, hd.index());

    assert!(list.wake_one());
    assert_eq!((0, 0, 1, 0), (hits(&a), hits(&b), hits(&c), hits(&d)));
    assert!(list.wake_one());
    assert_eq!((0, 0, 1, 1), (hits(&a), hits(&b), hits(&c), hits(&d)));
    assert!(list.wake_one());
    assert_eq!((1, 0, 1, 1), (hits(&a), hits(&b), hits(&c), hits(&d)));
    assert!(!list.wake_one());
    assert_eq!((1, 0, 1, 1), (hits(&a), hits(&b), hits(&c), hits(&d)));
}

#[test]
fn register_unregister_register_wake_without_a_waker() {
    let mut list = WakeList::new();
    let _ha = list.register(None);
    let hb = list.register(None);
    let _hc = list.register(None);
    list.unregister(hb);
    let hd = list.register(None);
    assert_eq!(1, hd.index());
    assert!(list.wake_one());
    assert!(list.wake_one());
    assert!(list.wake_one());
    assert!(!list.wake_one());
}

#[test]
fn size_counts_the_slots_ever_allocated() {
    let mut list = WakeList::new();
    assert_eq!(0, list.size());
    let a = list.register(None);
    let _b = list.register(None);
    assert_eq!(2, list.size());
    list.unregister(a);
    assert_eq!(2, list.size());
    let _c = list.register(None);
    assert_eq!(2, list.size());
    let _d = list.register(None);
    assert_eq!(3, list.size());
}
