use potoroo::fdr::{Fact, Task};

const THREE_LOCATION_TASK: &str = "begin_version
3
end_version
begin_metric
0
end_metric
1
begin_variable
location
-1
3
Atom at(truck,paris)
Atom at(truck,lyon)
Atom at(truck,nice)
end_variable
0
begin_state
0
end_state
begin_goal
1
0 1
end_goal
1
begin_operator
drive truck paris lyon
0
1
0 0 0 1
1
end_operator
0
";

#[test]
fn parses_multi_valued_sas_task() {
    let task = Task::parse(THREE_LOCATION_TASK).unwrap();
    assert_eq!(task.variables.len(), 1);
    assert_eq!(task.variables[0].values.len(), 3);
    assert_eq!(task.multi_valued_variables(), 1);
    assert_eq!(task.initial, vec![0]);
    assert_eq!(task.goals, vec![Fact::new(0, 1)]);
    assert_eq!(task.operators[0].preconditions(), vec![Fact::new(0, 0)]);
    assert_eq!(task.operators[0].effects[0].assignment(), Fact::new(0, 1));
}

#[test]
fn accepts_an_unused_axiom_layer() {
    let sas = THREE_LOCATION_TASK.replacen("location\n-1", "location\n0", 1);
    assert!(Task::parse(&sas).is_ok());
}

#[test]
fn parses_and_expands_binary_axiom_supports() {
    let sas = "begin_version
3
end_version
begin_metric
0
end_metric
2
begin_variable
p
-1
2
p-true
p-false
end_variable
begin_variable
d
0
2
d-true
d-false
end_variable
0
begin_state
1
1
end_state
begin_goal
1
1 0
end_goal
0
1
begin_rule
1
0 0
1 1 0
end_rule
";
    let task = Task::parse(sas).unwrap();
    assert_eq!(task.axioms.len(), 1);
    assert_eq!(
        task.derived_supports(Fact::new(1, 0)).unwrap(),
        vec![vec![Fact::new(0, 0)]]
    );
    assert_eq!(
        task.derived_supports(Fact::new(1, 1)).unwrap(),
        vec![vec![Fact::new(0, 1)]]
    );
    let mut state = vec![0, 1];
    task.close_axioms(&mut state);
    assert_eq!(state, vec![0, 0]);
}
