use data_structures::link_list::LinkList;

fn create_list() -> LinkList<i32> {
    let mut a = LinkList::new();
    a.push_front(1);
    a.push_front(2);
    a.push_front(3);
    a
}

#[test]
fn push_front() {
    let a = create_list();
    let mut iter = a.iter();
    let mut k = 0;
    while let Some(x) = iter.next() {
        assert_eq!(*x, 3 - (k as i32));
        k += 1;
    }
    assert_eq!(k, 3);
}

#[test]
fn pop_front() {
    let mut a = create_list();
    let e0 = a.pop_front();
    let e1 = a.pop_front();
    let e2 = a.pop_front();
    let e3 = a.pop_front();
    assert_eq!(e0, Some(3));
    assert_eq!(e1, Some(2));
    assert_eq!(e2, Some(1));
    assert_eq!(e3, None);
}

#[test]
fn debug_print() {
    let a = create_list();
    assert_eq!(a.to_text(), "3 -> 2 -> 1");
}

#[test]
fn iter_mut() {
    let mut a = create_list();
    let mut iter = a.iter_mut();
    while let Some(x) = iter.next() {
        *x += 1;
    }
    assert_eq!(a.to_text(), "4 -> 3 -> 2");
}

#[test]
fn empty_list() {
    let mut a: LinkList<i32> = LinkList::new();
    assert_eq!(a.pop_front(), None);
    assert!(a.iter().next().is_none());
    assert!(a.iter_mut().next().is_none());
    assert_eq!(a.to_text(), "");
    let b: LinkList<i32> = LinkList::default();
    assert_eq!(b.to_text(), "");
    assert!(b.into_iter().next().is_none());
}

#[test]
fn one_value_has_no_arrow() {
    let mut a = LinkList::new();
    a.push_front("x".to_owned());
    assert_eq!(a.to_text(), "\"x\"");
}

#[test]
fn into_iter_hands_the_values_out_from_the_front() {
    let mut iter = create_list().into_iter();
    assert_eq!(iter.next(), Some(3));
    assert_eq!(iter.next(), Some(2));
    assert_eq!(iter.next(), Some(1));
    assert_eq!(iter.next(), None);
    assert_eq!(iter.next(), None);
}

#[test]
fn iter_mut_changes_only_what_is_written() {
    let mut a = create_list();
    let mut iter = a.iter_mut();
    iter.next();
    if let Some(x) = iter.next() {
        *x = 20;
    }
    assert_eq!(a.pop_front(), Some(3));
    assert_eq!(a.pop_front(), Some(20));
    assert_eq!(a.pop_front(), Some(1));
    assert_eq!(a.pop_front(), None);
}

#[test]
fn push_after_pop() {
    let mut a = create_list();
    assert_eq!(a.pop_front(), Some(3));
    a.push_front(9);
    assert_eq!(a.to_text(), "9 -> 2 -> 1");
}
