use comrak::remstack::RemStack;
use std::ptr;

#[test]
fn push_read() {
    let rs: RemStack<_> = vec![1, 2, 3].into();

    assert_eq!(rs[0], 1);
    assert_eq!(rs[1], 2);
    assert_eq!(rs[2], 3);
}

#[test]
fn remove() {
    let mut rs: RemStack<_> = vec![1, 2, 3].into();
    rs.remove(1);

    assert!(!ptr::eq(&rs[0], &rs[1]));
    assert!(!ptr::eq(&rs[0], &rs[2]));
    assert!(ptr::eq(&rs[1], &rs[2]));
}

#[test]
fn debug() {
    let mut rs: RemStack<_> = vec![1, 2, 3].into();
    assert_eq!(rs.debug_string(|x| format!("{:?}", x)), "RemStack [1, 2, 3]");

    rs.remove(1);
    assert_eq!(rs.debug_string(|x| format!("{:?}", x)), "RemStack [1, _, 3]");

    rs.remove(0);
    assert_eq!(rs.debug_string(|x| format!("{:?}", x)), "RemStack [_, _, 3]");

    rs.remove(2);
    assert_eq!(rs.debug_string(|x| format!("{:?}", x)), "RemStack []");

    rs.push(4);
    assert_eq!(rs.debug_string(|x| format!("{:?}", x)), "RemStack [4]");
}

#[test]
fn remstack_pop_returns_pushed() {
    let mut rs: RemStack<i32> = RemStack::new();
    rs.push(7);
    rs.push(8);
    assert_eq!(rs.pop(), Some(8));
    assert_eq!(rs.pop(), Some(7));
    assert_eq!(rs.pop(), None);
    assert_eq!(rs.len(), 0);
}

#[test]
fn remstack_pop_skips_vacant_top() {
    let mut rs: RemStack<_> = vec![1, 2, 3].into();
    rs.remove(1);
    assert_eq!(rs.pop(), Some(3));
    // the vacant slot below the popped element stays until the next change
    assert_eq!(rs.len(), 2);
    assert_eq!(rs.pop(), Some(1));
    assert_eq!(rs.len(), 0);
}

#[test]
fn remstack_get_skips_removed() {
    let mut rs: RemStack<_> = vec![10, 20, 30, 40].into();
    rs.remove(1);
    rs.remove(2);
    assert_eq!(rs.get(0), Some(&10));
    assert_eq!(rs.get(1), Some(&40));
    assert_eq!(rs.get(2), Some(&40));
    assert_eq!(rs.get(4), None);
    assert_eq!(rs.get(100), None);
}

#[test]
fn remstack_get_mut_writes_through() {
    let mut rs: RemStack<_> = vec![1, 2, 3].into();
    rs.remove(1);
    if let Some(x) = rs.get_mut(1) {
        *x = 33;
    }
    assert_eq!(rs[2], 33);
    assert_eq!(rs.get_mut(5), None);
}

#[test]
fn remstack_truncate_prunes() {
    let mut rs: RemStack<_> = vec![1, 2, 3, 4].into();
    rs.remove(1);
    rs.truncate(2);
    assert_eq!(rs.len(), 1);
    assert_eq!(rs.debug_string(|x| format!("{}", x)), "RemStack [1]");
    rs.truncate(10);
    assert_eq!(rs.len(), 1);
}

#[test]
fn remstack_remove_out_of_range() {
    let mut rs: RemStack<_> = vec![1, 2].into();
    rs.remove(9);
    assert_eq!(rs.debug_string(|x| format!("{}", x)), "RemStack [1, 2]");
}

#[test]
fn pop_takes_last_element() {
    let mut rs: RemStack<_> = vec![1, 2, 3].into();
    rs.remove(2);
    assert_eq!(rs.pop(), Some(2));
    rs.push(7);
    assert_eq!(rs.pop(), Some(7));
    assert_eq!(rs.pop(), Some(1));
    assert_eq!(rs.pop(), None);
}

#[test]
fn write_through_get_mut() {
    let mut rs: RemStack<_> = vec![1, 2, 3].into();
    rs.remove(1);
    if let Some(x) = rs.get_mut(1) {
        *x = 9;
    }
    assert_eq!(rs.get(1), Some(&9));
    assert_eq!(rs.get(0), Some(&1));
    assert_eq!(rs.get(2), Some(&9));
}
