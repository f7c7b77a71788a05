use potoroo::gap_fill::{extract, saturate, RAction};
use potoroo::linearize::Rng;

/// p false in init, one relaxed action with no preconditions adds it. The
/// saturated layer reaches p, with that action as its achiever.
#[test]
fn saturate_reaches_via_action() {
    let init = vec![false]; // fact 0 = p
    let relaxed = vec![RAction { pre: vec![], add: 0 }];
    let r = saturate(&init, &relaxed, 1);
    assert!(r.reached[0]);
    assert_eq!(r.achiever[0], Some(0));
}

/// Two-step chain q ← a1 ← a0: extracting a relaxed plan for q from the empty
/// state picks both actions (count 2); facts already true cost nothing.
#[test]
fn extract_counts_chain() {
    // facts: 0 = p, 1 = q. a0: {} -> p ; a1: {p} -> q.
    let init = vec![false, false];
    let relaxed = vec![
        RAction { pre: vec![], add: 0 },
        RAction { pre: vec![0], add: 1 },
    ];
    let reach = saturate(&init, &relaxed, 2);
    let (count, base) = extract(&reach, &init, &vec![1], &relaxed).unwrap();
    assert_eq!(count, 2);
    assert!(base.is_empty());

    // With p already in the state, only a1 is needed and p is a base req.
    let state = vec![true, false];
    let reach2 = saturate(&state, &relaxed, 2);
    let (count2, base2) = extract(&reach2, &state, &vec![1], &relaxed).unwrap();
    assert_eq!(count2, 1);
    assert_eq!(base2, vec![0]);
}

/// An unreachable goal yields `None` from extraction (a relaxed dead end).
#[test]
fn extract_unreachable_is_none() {
    let init = vec![false, false];
    let relaxed = vec![RAction { pre: vec![], add: 0 }];
    let reach = saturate(&init, &relaxed, 2);
    assert!(extract(&reach, &init, &vec![1], &relaxed).is_none());
}

#[test]
fn draws_follow_the_seed() {
    let mut rng = Rng::seed(3, 2, 5);
    assert_eq!(rng.next_u64(), 8008687922935568893);
    assert_eq!(rng.below(4), 3);
    assert_eq!(rng.below(4), 2);
}
