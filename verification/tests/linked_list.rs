use rustlab::linked_list::LinkedList;

fn list_of(first: &[i32], last: &[i32]) -> LinkedList<i32> {
    let mut l = LinkedList::new();
    for x in first {
        l.add_first(*x);
    }
    for x in last {
        l.add_last(*x);
    }
    l
}

#[test]
fn add_first_puts_items_in_front() {
    assert_eq!(list_of(&[1, 2, 3], &[]).get(0), 3);
    assert_eq!(list_of(&[1, 2, 3], &[]).get(1), 2);
    assert_eq!(list_of(&[1, 2, 3], &[]).get(2), 1);
}

#[test]
fn add_last_puts_items_behind() {
    assert_eq!(list_of(&[], &[1, 2, 3]).get(0), 1);
    assert_eq!(list_of(&[], &[1, 2, 3]).get(2), 3);
}

#[test]
fn both_ends_grow_around_the_first_item() {
    // 20 10 | 30 40
    let items = [20, 10, 30, 40];
    for (i, x) in items.iter().enumerate() {
        assert_eq!(list_of(&[10, 20], &[30, 40]).get(i as u32), *x);
    }
}

#[test]
fn a_list_owns_its_items() {
    let mut l = LinkedList::new();
    l.add_last(String::from("a"));
    l.add_first(String::from("b"));
    assert_eq!(l.get(1), "a");
}
