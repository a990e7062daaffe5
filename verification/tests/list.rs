use wake_list::list::AtomicLinkedList;

fn collect(list: &AtomicLinkedList<u32>) -> Vec<u32> {
    let mut out = Vec::new();
    let mut it = list.iter();
    while let Some(value) = it.next() {
        out.push(*value);
    }
    out
}

#[test]
fn simple() {
    let mut list = AtomicLinkedList::new();
    assert!(list.iter().next().is_none());

    list.push(42);
    assert_eq!(vec![42], collect(&list));
}

#[test]
fn empty_list_yields_nothing() {
    let list: AtomicLinkedList<u32> = AtomicLinkedList::new();
    assert_eq!(Vec::<u32>::new(), collect(&list));
    let mut it = list.iter();
    assert!(it.next().is_none());
    assert!(it.next().is_none());
}

#[test]
fn walk_goes_from_newest_to_oldest() {
    let mut list = AtomicLinkedList::new();
    list.push(1);
    list.push(2);
    list.push(3);
    assert_eq!(vec![3, 2, 1], collect(&list));
}

#[test]
fn every_push_is_seen_once() {
    let mut list = AtomicLinkedList::new();
    for value in 0..100u32 {
        list.push(value);
    }
    let seen = collect(&list);
    assert_eq!(100, seen.len());
    for (place, value) in seen.iter().enumerate() {
        assert_eq!(99 - place as u32, *value);
    }
}

#[test]
fn equal_values_are_kept_apart() {
    let mut list = AtomicLinkedList::new();
    list.push(7);
    list.push(7);
    assert_eq!(vec![7, 7], collect(&list));
}

#[test]
fn walks_do_not_disturb_each_other() {
    let mut list = AtomicLinkedList::new();
    list.push(10);
    list.push(20);
    let mut first = list.iter();
    let mut second = list.iter();
    assert_eq!(Some(&20), first.next());
    assert_eq!(Some(&20), second.next());
    assert_eq!(Some(&10), first.next());
    assert_eq!(None, first.next());
    assert_eq!(Some(&10), second.next());
    assert_eq!(None, second.next());
}

#[test]
fn a_walk_yields_what_the_list_held_before_later_pushes() {
    let mut list = AtomicLinkedList::new();
    list.push(1);
    list.push(2);
    let before = collect(&list);
    list.push(3);
    let after = collect(&list);
    assert_eq!(vec![2, 1], before);
    assert_eq!(vec![3, 2, 1], after);
    assert_eq!(before[..], after[1..]);
}

#[test]
fn nth_mut_changes_one_node_in_place() {
    let mut list = AtomicLinkedList::new();
    list.push(1);
    list.push(2);
    list.push(3);
    assert_eq!(3, *list.nth_mut(0));
    assert_eq!(1, *list.nth_mut(2));
    *list.nth_mut(1) = 20;
    assert_eq!(vec![3, 20, 1], collect(&list));
    *list.nth_mut(0) = 30;
    *list.nth_mut(2) = 10;
    assert_eq!(vec![30, 20, 10], collect(&list));
}
