use std::rc::Rc;

use potoroo::orderings::BinaryOrderings;

#[test]
fn start_times_are_longest_chains() {
    let none = Rc::new(BinaryOrderings::new());
    assert_eq!(none.schedule(), (vec![], 0));
    let chain = none.with_order(1, 2).unwrap().with_order(2, 4).unwrap().with_order(3, 4).unwrap();
    assert_eq!(chain.schedule(), (vec![1, 2, 1, 3], 3));
}

#[test]
fn a_cycle_is_refused() {
    let order = Rc::new(BinaryOrderings::new()).with_order(1, 2).unwrap().with_order(2, 3).unwrap();
    assert!(order.with_order(3, 1).is_none());
}
