use std::rc::Rc;

use potoroo::chain::{cons, contains, iter, len, remove, Chain};

fn from_vec(v: &[i32]) -> Option<Rc<Chain<i32>>> {
    let mut c = None;
    for &x in v.iter().rev() {
        c = cons(x, c);
    }
    c
}

fn to_vec(c: &Option<Rc<Chain<i32>>>) -> Vec<i32> {
    let mut out = Vec::new();
    let mut it = iter(c);
    while let Some(x) = it.next() {
        out.push(*x);
    }
    out
}

#[test]
fn cons_prepends() {
    let c = from_vec(&[1, 2, 3]);
    assert_eq!(to_vec(&c), vec![1, 2, 3]);
    assert_eq!(len(&c), 3);
}

#[test]
fn contains_works() {
    let c = from_vec(&[1, 2, 3]);
    assert!(contains(&c, &2));
    assert!(!contains(&c, &9));
}

#[test]
fn remove_middle_shares_suffix() {
    let tail = from_vec(&[2, 3]);
    let c = cons(1, tail.clone());
    let removed = remove(&c, &1);
    // Removing the head returns exactly the shared tail Rc.
    assert!(Rc::ptr_eq(
        removed.as_ref().unwrap(),
        tail.as_ref().unwrap()
    ));
    assert_eq!(to_vec(&removed), vec![2, 3]);
}

#[test]
fn remove_first_occurrence_only() {
    let c = from_vec(&[1, 2, 2, 3]);
    let removed = remove(&c, &2);
    assert_eq!(to_vec(&removed), vec![1, 2, 3]);
}

#[test]
fn remove_absent_keeps_elements() {
    let c = from_vec(&[1, 2, 3]);
    let removed = remove(&c, &9);
    assert_eq!(to_vec(&removed), vec![1, 2, 3]);
}

#[test]
fn removing_the_only_element_leaves_nothing() {
    let c = from_vec(&[7]);
    assert!(remove(&c, &7).is_none());
    assert_eq!(len(&None::<Rc<Chain<i32>>>), 0);
}
