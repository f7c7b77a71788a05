use std::rc::Rc;

use potoroo::fdr::{Effect, Fact, Operator, Task, Variable};
use potoroo::fdr_estimates::Planner;
use potoroo::fdr_execution::is_ordered_before;
use potoroo::fdr_plan::{effect_clobbers, CausalLink, OpenCondition, PartialPlan, Step, Threat};
use potoroo::fdr_pocl::{solve, solve_with_params};
use potoroo::fdr_search::Outcome;
use potoroo::heuristics::{FlawSelectionOrder, Heuristic};
use potoroo::orderings::{BinaryOrderings, StepOrder, StepTime};
use potoroo::plan::GOAL_ID;
use potoroo::params::{ActionCost, Parameters, SearchAlgorithm, WEIGHT_ONE};

fn travel_task() -> Task {
    Task {
        variables: vec![Variable {
            name: "location".to_string(),
            values: vec![
                "Atom at(truck,paris)".to_string(),
                "Atom at(truck,lyon)".to_string(),
                "Atom at(truck,nice)".to_string(),
            ],
        }],
        initial: vec![0],
        goals: vec![Fact::new(0, 2)],
        operators: vec![
            Operator {
                name: "drive truck paris lyon".to_string(),
                prevail: vec![],
                effects: vec![Effect {
                    conditions: vec![],
                    variable: 0,
                    pre: Some(0),
                    post: 1,
                }],
                cost: 1,
            },
            Operator {
                name: "drive truck lyon nice".to_string(),
                prevail: vec![],
                effects: vec![Effect {
                    conditions: vec![],
                    variable: 0,
                    pre: Some(1),
                    post: 2,
                }],
                cost: 1,
            },
        ],
        axioms: vec![],
    }
}

fn conditional_task() -> Task {
    Task {
        variables: vec![
            Variable {
                name: "location".to_string(),
                values: vec!["at-a".to_string(), "at-b".to_string()],
            },
            Variable {
                name: "switch".to_string(),
                values: vec!["off".to_string(), "on".to_string()],
            },
        ],
        initial: vec![0, 0],
        goals: vec![Fact::new(0, 1)],
        operators: vec![
            Operator {
                name: "turn-on".to_string(),
                prevail: vec![],
                effects: vec![Effect {
                    conditions: vec![],
                    variable: 1,
                    pre: Some(0),
                    post: 1,
                }],
                cost: 1,
            },
            Operator {
                name: "move".to_string(),
                prevail: vec![],
                effects: vec![Effect {
                    conditions: vec![Fact::new(1, 1)],
                    variable: 0,
                    pre: Some(0),
                    post: 1,
                }],
                cost: 1,
            },
        ],
        axioms: vec![],
    }
}

fn shared_effect_task() -> Task {
    Task {
        variables: vec![
            Variable {
                name: "left".to_string(),
                values: vec!["off".to_string(), "on".to_string()],
            },
            Variable {
                name: "right".to_string(),
                values: vec!["off".to_string(), "on".to_string()],
            },
        ],
        initial: vec![0, 0],
        goals: vec![Fact::new(0, 1), Fact::new(1, 1)],
        operators: vec![Operator {
            name: "switch-both-on".to_string(),
            prevail: vec![],
            effects: vec![
                Effect {
                    conditions: vec![],
                    variable: 0,
                    pre: Some(0),
                    post: 1,
                },
                Effect {
                    conditions: vec![],
                    variable: 1,
                    pre: Some(0),
                    post: 1,
                },
            ],
            cost: 1,
        }],
        axioms: vec![],
    }
}

#[test]
fn solves_over_a_three_valued_variable() {
    let task = travel_task();
    let (outcome, stats) = solve(&task, 1_000);
    let Outcome::Solved(solution) = outcome else {
        panic!("expected a solution");
    };
    assert_eq!(solution.operators, vec![0, 1]);
    assert!(solution.plan.complete(&task));
    assert!(stats.nodes_visited > 0);
}

#[test]
fn conditional_assignment_conditions_become_open_conditions() {
    let task = conditional_task();
    let params = Parameters {
        heuristic: Heuristic::parse("ADD").unwrap(),
        search_limits: vec![1_000],
        ..Parameters::default()
    };
    let (outcome, _) = solve_with_params(&task, &params).unwrap();
    let Outcome::Solved(solution) = outcome else {
        panic!("expected a solution");
    };
    assert_eq!(solution.operators, vec![0, 1]);
}

#[test]
fn relaxed_plan_counts_a_shared_operator_once() {
    let task = shared_effect_task();
    let planner = Planner::new(&task);
    let plan = PartialPlan::initial(&task);
    assert_eq!(planner.open_estimate(&plan, false).cost, 2);
    assert_eq!(planner.relaxed_plan_size(&plan, false), Some(1));
    assert_eq!(planner.lmcut_estimate(&plan, false), Some(1));

    for heuristic in ["RELAX", "RELAXR", "LMCUT", "LMCUTR"] {
        let params = Parameters {
            search_algorithm: SearchAlgorithm::Gbfs,
            heuristic: Heuristic::parse(heuristic).unwrap(),
            search_limits: vec![100],
            ..Parameters::default()
        };
        let (outcome, _) = solve_with_params(&task, &params).unwrap();
        let Outcome::Solved(solution) = outcome else {
            panic!("{heuristic} did not solve the shared-effect task");
        };
        assert_eq!(solution.operators, vec![0]);
    }
}

#[test]
fn lmcutr_reuses_committed_step_effects() {
    let task = travel_task();
    let planner = Planner::new(&task);
    let mut plan = PartialPlan::initial(&task);
    plan.steps = Rc::new(vec![Step { id: 1, operator: 0 }]);

    assert_eq!(planner.lmcut_estimate(&plan, false), Some(2));
    assert_eq!(planner.lmcut_estimate(&plan, true), Some(1));
}

#[test]
fn native_lmcut_rejects_conditional_effects_only_when_selected() {
    let task = conditional_task();
    let params = Parameters {
        heuristic: Heuristic::parse("LMCUTR").unwrap(),
        search_limits: vec![100],
        ..Parameters::default()
    };
    let error = solve_with_params(&task, &params).unwrap_err();
    assert!(error.to_text().contains("conditional effects"));
}

#[test]
fn production_search_algorithms_solve_the_same_fdr_task() {
    let task = travel_task();
    for algorithm in [
        SearchAlgorithm::A,
        SearchAlgorithm::Ida,
        SearchAlgorithm::Hc,
        SearchAlgorithm::Bfs,
        SearchAlgorithm::Gbfs,
        SearchAlgorithm::LazyGbfs,
        SearchAlgorithm::LazyGbfsDual,
        SearchAlgorithm::Alt,
    ] {
        let params = Parameters {
            search_algorithm: algorithm,
            heuristic: Heuristic::parse("ADD/UCPOP").unwrap(),
            search_limits: vec![1_000],
            ..Parameters::default()
        };
        let (outcome, stats) = solve_with_params(&task, &params).unwrap();
        let Outcome::Solved(solution) = outcome else {
            panic!("{algorithm:?} did not solve the finite-domain task");
        };
        assert_eq!(solution.operators, vec![0, 1]);
        if algorithm != SearchAlgorithm::Bfs {
            assert!(stats.h_evals > 0);
        }
    }
}

#[test]
fn parsed_flaw_orders_drive_fdr_refinement() {
    let task = travel_task();
    for order in ["LCFR", "ZLIFO", "MC"] {
        let params = Parameters {
            flaw_orders: vec![FlawSelectionOrder::parse(order).unwrap()],
            search_limits: vec![1_000],
            ..Parameters::default()
        };
        let (outcome, _) = solve_with_params(&task, &params).unwrap();
        assert!(matches!(outcome, Outcome::Solved(_)), "order {order}");
    }
}

#[test]
fn generated_node_limit_is_enforced() {
    let task = travel_task();
    let (outcome, stats) = solve(&task, 1);
    assert!(matches!(outcome, Outcome::LimitReached));
    assert_eq!(stats.nodes_generated, 1);
}

#[test]
fn search_continues_with_the_next_flaw_order_after_a_limit() {
    let task = travel_task();
    let params = Parameters {
        flaw_orders: vec![
            FlawSelectionOrder::parse("UCPOP").unwrap(),
            FlawSelectionOrder::parse("LCFR").unwrap(),
        ],
        search_limits: vec![1, 1_000],
        ..Parameters::default()
    };
    let (outcome, stats) = solve_with_params(&task, &params).unwrap();
    assert!(matches!(outcome, Outcome::Solved(_)));
    assert!(stats.nodes_generated > 1);
}

#[test]
fn different_assignment_is_an_implicit_threat() {
    assert!(effect_clobbers(0, 2, Fact::new(0, 1)));
    assert!(!effect_clobbers(0, 1, Fact::new(0, 1)));
    assert!(!effect_clobbers(1, 2, Fact::new(0, 1)));

    let task = travel_task();
    let orderings = Rc::new(BinaryOrderings::new());
    let orderings = orderings
        .refine_with_step(
            StepOrder::new(1, StepTime::AtEnd, GOAL_ID, StepTime::AtStart),
            1,
        )
        .unwrap();
    let orderings = orderings
        .refine_with_step(
            StepOrder::new(2, StepTime::AtEnd, GOAL_ID, StepTime::AtStart),
            2,
        )
        .unwrap();
    let plan = PartialPlan {
        steps: Rc::new(vec![
            Step { id: 1, operator: 0 },
            Step { id: 2, operator: 1 },
        ]),
        links: Rc::new(vec![CausalLink {
            producer: 1,
            consumer: GOAL_ID,
            condition: Fact::new(0, 1),
            effect: Some(0),
        }]),
        open_conditions: Rc::new(vec![]),
        orderings,
        expanded: Rc::new(vec![]),
        threats: Rc::new(vec![Threat {
            step: 2,
            effect: 0,
            link: 0,
        }]),
        cost: 2,
        next_step_id: 3,
        id: 0,
    };
    let threats = plan.threats(&task);
    assert_eq!(threats, plan.rediscover_threats(&task));
    assert_eq!(threats.len(), 1);
    assert_eq!(threats[0].step, 2);

    // Since the link runs to the goal, only demotion is possible: the
    // clobbering assignment must be ordered before the producer.
    let refinements = Planner::new(&task).resolve_threat(&plan, &threats[0]);
    assert_eq!(refinements.len(), 1);
    assert!(refinements[0].threats(&task).is_empty());
    assert_eq!(
        refinements[0].threats(&task),
        refinements[0].rediscover_threats(&task)
    );
    assert!(is_ordered_before(&refinements[0], 2, 1));
}

#[test]
fn adding_a_link_discovers_threats_incrementally() {
    let task = travel_task();
    let orderings = Rc::new(BinaryOrderings::new())
        .refine_with_step(
            StepOrder::new(1, StepTime::AtEnd, GOAL_ID, StepTime::AtStart),
            1,
        )
        .unwrap();
    let open = OpenCondition {
        consumer: GOAL_ID,
        condition: Fact::new(0, 1),
    };
    let plan = PartialPlan {
        steps: Rc::new(vec![Step { id: 1, operator: 1 }]),
        links: Rc::new(vec![]),
        open_conditions: Rc::new(vec![open]),
        orderings,
        expanded: Rc::new(vec![]),
        threats: Rc::new(vec![]),
        cost: 1,
        next_step_id: 2,
        id: 0,
    };
    let planner = Planner::new(&task);
    let child = plan
        .add_step(&task, ActionCost::Task, 0, 0, 0, planner.preconditions(0))
        .unwrap();
    assert_eq!(child.threats(&task), child.rediscover_threats(&task));
    assert_eq!(child.threats.len(), 1);
    assert_eq!(child.threats[0].step, 1);

    let resolved = planner.resolve_threat(&child, &child.threats[0]);
    assert_eq!(resolved.len(), 1);
    assert!(resolved[0].threats.is_empty());
    assert_eq!(
        resolved[0].threats(&task),
        resolved[0].rediscover_threats(&task)
    );
}

#[test]
fn an_open_condition_has_as_many_children_as_are_counted() {
    let task = shared_effect_task();
    let planner = Planner::new(&task);
    let plan = PartialPlan::initial(&task);
    let mut children = Vec::new();
    for at in 0..plan.open_conditions.len() {
        let found = planner.resolve_open(&plan, at);
        assert_eq!(planner.open_refinement_count(&plan, &plan.open_conditions[at]), found.len() as i32);
        children.extend(found);
    }
    assert!(!children.is_empty());
    for child in &children {
        for at in 0..child.open_conditions.len() {
            let found = planner.resolve_open(child, at);
            assert_eq!(planner.open_refinement_count(child, &child.open_conditions[at]), found.len() as i32);
        }
    }
}

#[test]
fn refinements_lose_no_precondition() {
    let task = travel_task();
    let planner = Planner::new(&task);
    let mut plans = vec![PartialPlan::initial(&task)];
    let mut seen = 0;
    for _ in 0..3 {
        let mut next = Vec::new();
        for plan in &plans {
            for at in 0..plan.open_conditions.len() {
                next.extend(planner.resolve_open(plan, at));
            }
        }
        for plan in &next {
            let has = |consumer: usize, condition: Fact| {
                plan.open_conditions.iter().any(|o| o.consumer == consumer && o.condition == condition)
                    || plan.links.iter().any(|l| l.consumer == consumer && l.condition == condition)
            };
            assert!(has(GOAL_ID, Fact::new(0, 2)));
            for step in plan.steps.iter() {
                for fact in task.operators[step.operator].preconditions() {
                    assert!(has(step.id, fact));
                    seen += 1;
                }
            }
        }
        plans = next;
    }
    assert!(seen > 3);
}

#[test]
fn a_search_counts_what_it_does() {
    let task = shared_effect_task();
    let params = Parameters { search_limits: vec![100], ..Parameters::default() };
    let (outcome, stats) = solve_with_params(&task, &params).unwrap();
    assert!(matches!(outcome, Outcome::Solved(_)));
    assert!(stats.nodes_visited > 0);
    assert!(stats.nodes_generated > stats.nodes_visited);
}

/// An operator that sets a two-valued variable, behind another one.
fn raises(name: &str, behind: Option<usize>, variable: usize, cost: usize) -> Operator {
    Operator {
        name: name.to_string(),
        prevail: behind.iter().map(|v| Fact::new(*v, 1)).collect(),
        effects: vec![Effect { conditions: vec![], variable, pre: None, post: 1 }],
        cost,
    }
}

#[test]
fn relaxed_plans_do_not_go_in_circles() {
    let flag = |name: &str| Variable { name: name.to_string(), values: vec!["no".to_string(), "yes".to_string()] };
    let task = Task {
        variables: vec![flag("a"), flag("b")],
        initial: vec![0, 0],
        goals: vec![Fact::new(0, 1)],
        operators: vec![raises("z", Some(1), 0, 0), raises("y", Some(0), 1, 0), raises("x", None, 0, 5)],
        axioms: vec![],
    };
    let planner = Planner::new(&task);
    let plan = PartialPlan::initial(&task);
    assert_eq!(planner.relaxed_plan_size(&plan, false), Some(5));
}

#[test]
fn the_default_profile_is_that_of_ucpop() {
    let params = Parameters::default();
    assert_eq!(format!("{:?}", params.heuristic), format!("{:?}", Heuristic::parse("UCPOP").unwrap()));
    assert_eq!(format!("{:?}", params.flaw_orders), format!("{:?}", vec![FlawSelectionOrder::parse("UCPOP").unwrap()]));
    assert_eq!(params.weight, WEIGHT_ONE);
}
