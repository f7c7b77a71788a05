use potoroo::lmcut::{RelaxedAction, RelaxedTask};

fn action(preconditions: &[usize], effects: &[usize]) -> RelaxedAction {
    RelaxedAction::new(preconditions.to_vec(), effects.to_vec(), 1)
}

#[test]
fn satisfied_and_unreachable_goals() {
    let task = RelaxedTask::new(1, vec![]).unwrap();
    assert_eq!(task.evaluate(&vec![0], &vec![0]), Some(0));
    assert_eq!(task.evaluate(&vec![], &vec![0]), None);
    assert_eq!(task.evaluate(&vec![], &vec![]), Some(0));
}

#[test]
fn serial_chain_costs_every_action() {
    let task = RelaxedTask::new(
        3,
        vec![action(&[], &[0]), action(&[0], &[1]), action(&[1], &[2])],
    )
    .unwrap();
    assert_eq!(task.evaluate(&vec![], &vec![2]), Some(3));
}

#[test]
fn joint_cut_is_stronger_than_hmax_on_a_fork() {
    // make-p is shared, but reaching q and r still needs both branch actions:
    // h_max is 2 while LM-cut is 3.
    let task = RelaxedTask::new(
        3,
        vec![action(&[], &[0]), action(&[0], &[1]), action(&[0], &[2])],
    )
    .unwrap();
    assert_eq!(task.evaluate(&vec![], &vec![1, 2]), Some(3));
}

#[test]
fn one_multi_effect_action_is_charged_once() {
    let task = RelaxedTask::new(2, vec![action(&[], &[0, 1])]).unwrap();
    assert_eq!(task.evaluate(&vec![], &vec![0, 1]), Some(1));
}

#[test]
fn zero_cost_actions_extend_the_goal_plateau() {
    let task = RelaxedTask::new(
        2,
        vec![action(&[], &[0]), RelaxedAction::new(vec![0], vec![1], 0)],
    )
    .unwrap();
    assert_eq!(task.evaluate(&vec![], &vec![1]), Some(1));
}

#[test]
fn large_costs_are_told_as_far_as_they_fit() {
    let cost = 3_000_000_000;
    // Either action reaches the goal.
    let either = RelaxedTask::new(1, vec![RelaxedAction::new(vec![], vec![0], cost), RelaxedAction::new(vec![], vec![0], cost)]).unwrap();
    assert_eq!(either.evaluate(&vec![], &vec![0]), Some(cost));
    // Both are needed, one beside the other.
    let beside = RelaxedTask::new(2, vec![RelaxedAction::new(vec![], vec![0], cost), RelaxedAction::new(vec![], vec![1], cost)]).unwrap();
    assert_eq!(beside.evaluate(&vec![], &vec![0, 1]), Some(u32::MAX));
    // Both are needed, one behind the other: too dear to be told from out of reach.
    let behind = RelaxedTask::new(2, vec![RelaxedAction::new(vec![], vec![0], cost), RelaxedAction::new(vec![0], vec![1], cost)]).unwrap();
    assert_eq!(behind.evaluate(&vec![], &vec![1]), None);
    // A dear way round does not hide a cheap one.
    let round = RelaxedTask::new(
        2,
        vec![RelaxedAction::new(vec![], vec![0], cost), RelaxedAction::new(vec![0], vec![1], cost), RelaxedAction::new(vec![], vec![1], 5)],
    )
    .unwrap();
    assert_eq!(round.evaluate(&vec![], &vec![1]), Some(5));
}
