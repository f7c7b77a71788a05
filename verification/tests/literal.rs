use std::rc::Rc;

use potoroo::ast::{
    AstAction, AstAmount, AstAtomic, AstDomain, AstEffect, AstGoal, AstInit, AstMetric, AstPrecondition, AstPrimitive, AstProblem, AstRequirement,
    AstSkeleton, AstStructure, AstTerm, AstType, AstTyped,
};
use potoroo::compile::{compile_rank, CompiledProblem};
use potoroo::domain::Domain;
use potoroo::external::HResult;
use potoroo::flaws::Flaw;
use potoroo::formula::{Atom, Formula, Literal};
use potoroo::ground_task::{build_base, ground_task};
use potoroo::heuristics::{FlawSelectionOrder, Heuristic};
use potoroo::lower::{bind_action_costs, lower_domain, lower_problem, lower_requirements};
use potoroo::lower_error::LowerError;
use potoroo::lplan::{build_horizon, lplan_rank, solve_horizon};
use potoroo::params::{Parameters, WEIGHT_ONE};
use potoroo::pddl_emit::emit_original;
use potoroo::plan::Plan;
use potoroo::problem::{Metric, Problem};
use potoroo::rank::Models;
use potoroo::sample_ff::{sample_ff_rank, SampleFfModel};
use potoroo::search::SearchContext;
use potoroo::terms::{Object, Term, Variable};

fn s(text: &str) -> String {
    text.to_string()
}

fn typed(name: &str, ty: &str) -> AstTyped {
    AstTyped { name: s(name), ty: AstType::Exactly(s(ty)) }
}

fn var(name: &str) -> AstTerm {
    AstTerm::Variable(s(name))
}

fn atom(name: &str, terms: Vec<AstTerm>) -> AstAtomic {
    AstAtomic::Predicate(s(name), terms)
}

fn init(name: &str, args: &[&str]) -> AstInit {
    AstInit::Atom { negated: false, predicate: s(name), arguments: args.iter().map(|a| s(a)).collect() }
}

fn move_action() -> AstAction {
    AstAction {
        name: s("move"),
        parameters: vec![typed("a", "place"), typed("b", "place")],
        precondition: vec![AstPrecondition::Goal(AstGoal::And(vec![
            AstGoal::Atomic(atom("at", vec![var("a")])),
            AstGoal::Atomic(atom("road", vec![var("a"), var("b")])),
        ]))],
        effects: vec![
            AstEffect::Primitive(AstPrimitive::Add(atom("at", vec![var("b")]))),
            AstEffect::Primitive(AstPrimitive::Delete(atom("at", vec![var("a")]))),
        ],
    }
}

fn roads() -> AstDomain {
    AstDomain {
        name: s("roads"),
        requirements: vec![AstRequirement::Strips, AstRequirement::Typing],
        types: vec![typed("place", "object")],
        constants: vec![],
        predicates: vec![
            AstSkeleton { name: s("at"), parameters: vec![typed("x", "place")] },
            AstSkeleton { name: s("road"), parameters: vec![typed("x", "place"), typed("y", "place")] },
        ],
        functions: vec![],
        structure: vec![AstStructure::Action(move_action())],
    }
}

fn trip() -> AstProblem {
    AstProblem {
        name: s("trip"),
        domain_name: s("roads"),
        requirements: vec![],
        objects: vec![typed("p", "place"), typed("q", "place"), typed("r", "place")],
        init: vec![init("at", &["p"]), init("road", &["p", "q"]), init("road", &["q", "r"]), init("at", &["p"])],
        goals: vec![AstPrecondition::Goal(AstGoal::Atomic(atom("at", vec![AstTerm::Name(s("r"))])))],
        metric: None,
    }
}

fn lowered() -> (Domain, Problem) {
    let domain = lower_domain(&roads()).expect("a domain");
    let problem = lower_problem(&trip(), &domain).expect("a problem");
    (domain, problem)
}

fn params(ground: bool) -> Parameters {
    let mut params = Parameters::default();
    params.ground_actions = ground;
    params
}

fn refused(d: AstDomain) -> String {
    match lower_domain(&d) {
        Err(e) => e.to_text(),
        Ok(_) => panic!("the domain is refused"),
    }
}

/// The first complete plan in breadth-first order.
fn search(ctx: &SearchContext) -> Rc<Plan> {
    let graph = ctx.planning_graph();
    let mut queue = vec![Plan::make_initial_plan(ctx).expect("an initial plan")];
    let mut i = 0;
    while i < queue.len() && i < 4000 {
        if queue[i].complete() {
            return queue[i].clone();
        }
        let plan = queue[i].clone();
        plan.refinements(ctx, Some(&graph), &mut queue);
        i += 1;
    }
    panic!("a plan is found");
}

#[test]
fn a_domain_is_lowered() {
    let (domain, problem) = lowered();
    assert_eq!(domain.name, "roads");
    assert_eq!(domain.predicates.len(), 2);
    let schema = domain.find_action("move").expect("move");
    assert_eq!(schema.parameters, vec![Variable(0), Variable(1)]);
    assert_eq!(schema.cost, 1);
    assert_eq!(schema.effects.len(), 2);
    assert!(matches!(schema.effects[1].link_condition.as_ref(), Formula::Inequality { .. }));
    assert!(domain.find_action("fly").is_none());
    assert_eq!(problem.init_order.len(), 3);
    assert_eq!(problem.objects.len(), 3);
    assert_eq!(problem.metric, None);
    let at = domain.predicates.find_predicate("at").unwrap();
    let road = domain.predicates.find_predicate("road").unwrap();
    assert!(!domain.predicates.is_static(at));
    assert!(domain.predicates.is_static(road));
    match problem.goal.as_ref() {
        Formula::Atom(a) => {
            assert_eq!(a.predicate, at);
            assert_eq!(a.terms, vec![Term::Object(Object(2))]);
        }
        _ => panic!("an atom"),
    }
}

#[test]
fn connectives_and_quantifiers_are_lowered() {
    let mut d = roads();
    let goal = AstGoal::Imply(
        Box::new(AstGoal::Atomic(atom("at", vec![var("a")]))),
        Box::new(AstGoal::Exists(
            vec![AstTyped { name: s("c"), ty: AstType::Either(vec![s("place"), s("town")]) }],
            Box::new(AstGoal::NotAtomic(AstAtomic::Equality(var("c"), var("b")))),
        )),
    );
    d.structure = vec![AstStructure::Action(AstAction { precondition: vec![AstPrecondition::Goal(goal)], ..move_action() })];
    let domain = lower_domain(&d).expect("a domain");
    match domain.actions[0].precondition.as_ref() {
        Formula::Disjunction(parts) => {
            assert!(matches!(parts[0].as_ref(), Formula::Negation(_)));
            match parts[1].as_ref() {
                Formula::Exists { params, body } => {
                    assert_eq!(params, &vec![Variable(2)]);
                    assert!(matches!(body.as_ref(), Formula::Inequality { .. }));
                }
                _ => panic!("an existential part"),
            }
        }
        _ => panic!("a disjunction"),
    }
    let union = domain.actions[0].var_types[2];
    assert_eq!(domain.types.components(union).len(), 2);
}

#[test]
fn an_undeclared_predicate_declares_itself() {
    let mut d = roads();
    d.predicates = vec![];
    let domain = lower_domain(&d).expect("a domain");
    assert_eq!(domain.predicates.len(), 2);
    assert_eq!(domain.predicates.find_predicate("at").map(|p| p.0), Some(0));
}

#[test]
fn adl_is_a_bundle() {
    let r = lower_requirements(&vec![AstRequirement::Adl, AstRequirement::Other]);
    assert!(r.typing && r.equality && r.conditional_effects && r.universal_preconditions);
    assert!(!r.action_costs && !r.fluents);
}

#[test]
fn deferred_requirements_are_refused() {
    let mut d = roads();
    d.requirements.push(AstRequirement::Fluents);
    assert_eq!(refused(d), "unsupported requirement: :fluents");
    let (domain, _) = lowered();
    let mut p = trip();
    p.requirements = vec![AstRequirement::TimedInitialLiterals];
    assert!(matches!(lower_problem(&p, &domain), Err(LowerError::UnsupportedRequirement(_))));
}

#[test]
fn structures_beyond_actions_are_refused() {
    let mut d = roads();
    d.structure.push(AstStructure::DurativeAction);
    assert_eq!(refused(d), "durative actions are not supported in the classical subset");
    let mut d = roads();
    d.structure.push(AstStructure::Derived);
    assert_eq!(refused(d), "derived predicates are not supported in the classical subset");
}

#[test]
fn wrong_terms_are_refused() {
    let with = |t: AstTerm| {
        let mut d = roads();
        d.structure = vec![AstStructure::Action(AstAction {
            precondition: vec![AstPrecondition::Goal(AstGoal::Atomic(atom("at", vec![t])))],
            ..move_action()
        })];
        refused(d)
    };
    assert_eq!(with(var("z")), "unbound variable: ?z");
    assert_eq!(with(AstTerm::Name(s("nowhere"))), "unknown object or constant: nowhere");
    assert_eq!(with(AstTerm::Function), "function terms are not supported in the classical subset");
}

#[test]
fn wrong_effects_are_refused() {
    let with = |p: AstPrimitive| {
        let mut d = roads();
        d.structure = vec![AstStructure::Action(AstAction { effects: vec![AstEffect::Primitive(p)], ..move_action() })];
        refused(d)
    };
    assert_eq!(with(AstPrimitive::Add(AstAtomic::Equality(var("a"), var("b")))), "equality term must be a variable or object");
    assert_eq!(
        with(AstPrimitive::AssignObject),
        "numeric/object fluent content is not supported in the classical subset: object assignment"
    );
    assert_eq!(
        with(AstPrimitive::Increase(s("total-cost"), AstAmount::Number(1))),
        "numeric/object fluent content is not supported in the classical subset: numeric assignment"
    );
}

#[test]
fn preferences_and_comparisons_are_refused() {
    let with = |p: AstPrecondition| {
        let mut d = roads();
        d.structure = vec![AstStructure::Action(AstAction { precondition: vec![p], ..move_action() })];
        refused(d)
    };
    assert_eq!(with(AstPrecondition::Preference), "preferences are not supported in the classical subset");
    assert_eq!(
        with(AstPrecondition::Goal(AstGoal::FluentComparison)),
        "numeric/object fluent content is not supported in the classical subset: fluent comparison"
    );
}

#[test]
fn action_costs_are_bound_to_the_problem() {
    let mut d = roads();
    d.requirements.push(AstRequirement::ActionCosts);
    d.functions = vec![
        AstSkeleton { name: s("total-cost"), parameters: vec![] },
        AstSkeleton { name: s("toll"), parameters: vec![] },
    ];
    let mut a = move_action();
    a.effects.push(AstEffect::Primitive(AstPrimitive::Increase(s("total-cost"), AstAmount::Number(3))));
    a.effects.push(AstEffect::Primitive(AstPrimitive::Increase(s("total-cost"), AstAmount::Function(s("toll")))));
    d.structure = vec![AstStructure::Action(a)];
    let mut domain = lower_domain(&d).expect("a domain");
    assert_eq!(domain.actions[0].cost, 3);
    let mut p = trip();
    p.metric = Some(AstMetric::Minimize(s("total-cost")));
    let problem = lower_problem(&p, &domain).expect("a problem");
    assert_eq!(problem.metric, Some(Metric::MinimizeTotalCost));
    match bind_action_costs(&mut domain, &problem) {
        Err(e) => assert!(e.to_text().ends_with("undefined cost function")),
        Ok(_) => panic!("the toll has no value"),
    }
    assert_eq!(domain.actions[0].cost, 3);
    p.init.push(AstInit::Value(s("toll"), 4));
    let problem = lower_problem(&p, &domain).expect("a problem");
    assert!(bind_action_costs(&mut domain, &problem).is_ok());
    assert_eq!(domain.actions[0].cost, 7);
    assert!(bind_action_costs(&mut domain, &problem).is_ok());
    assert_eq!(domain.actions[0].cost, 7);
    p.init.push(AstInit::Value(s("toll"), 1));
    let dearer = lower_problem(&p, &domain).expect("a problem");
    assert!(bind_action_costs(&mut domain, &dearer).is_ok());
    assert_eq!(domain.actions[0].cost, 4);
}

#[test]
fn initial_states_are_checked() {
    let (domain, _) = lowered();
    let with = |e: AstInit| {
        let mut p = trip();
        p.init.push(e);
        match lower_problem(&p, &domain) {
            Ok(problem) => Ok(problem.init_order.len()),
            Err(e) => Err(e.to_text()),
        }
    };
    assert_eq!(with(AstInit::Equality), Ok(3));
    assert_eq!(with(AstInit::Atom { negated: true, predicate: s("at"), arguments: vec![s("q")] }), Ok(3));
    assert_eq!(with(init("at", &["x"])), Err(s("unknown object or constant: x")));
    assert_eq!(with(AstInit::Timed), Err(s("unsupported requirement: :timed-initial-literals")));
    assert!(with(AstInit::Fluent).is_err());
    assert!(with(AstInit::Value(s("toll"), 1)).is_err());
}

#[test]
fn the_original_task_is_emitted() {
    let (domain, problem) = lowered();
    let (d, p) = emit_original(&domain, &problem);
    assert_eq!(
        d,
        "(define (domain roads)\n  (:requirements :strips :typing)\n  (:types place - object)\n  (:predicates\n    (at ?p0 - place)\n    (road ?p0 - place ?p1 - place)\n  )\n  (:action move\n    :parameters (?v0 - place ?v1 - place)\n    :precondition (and (at ?v0) (road ?v0 ?v1))\n    :effect (and (at ?v1) (not (at ?v0)))\n  )\n)\n"
    );
    assert_eq!(
        p,
        "(define (problem trip)\n  (:domain roads)\n  (:objects p - place q - place r - place)\n  (:init (at p) (road p q) (road q r))\n  (:goal (at r))\n)\n"
    );
}

#[test]
fn a_lifted_plan_is_found() {
    let (domain, problem) = lowered();
    let params = params(false);
    let ctx = SearchContext::new(&domain, &problem, &params).expect("a context");
    let plan = search(&ctx);
    assert_eq!(plan.num_steps(), 2);
    let (times, span) = plan.orderings.schedule();
    assert_eq!(span, 2);
    assert_eq!(times.len(), 2);
}

#[test]
fn a_ground_plan_is_found() {
    let (domain, problem) = lowered();
    let params = params(true);
    let ctx = SearchContext::new(&domain, &problem, &params).expect("a context");
    assert_eq!(ctx.actions.len(), 9);
    assert_eq!(search(&ctx).num_steps(), 2);
}

#[test]
fn the_initial_plan_compiles_to_the_task() {
    let (domain, problem) = lowered();
    let params = params(false);
    let ctx = SearchContext::new(&domain, &problem, &params).expect("a context");
    let plan = Plan::make_initial_plan(&ctx).expect("a plan");
    let compiled = CompiledProblem::compile(&plan, &ctx);
    assert_eq!(compiled.num_guards, 0);
    let (d, p) = compiled.emit_pddl(&ctx);
    assert_eq!(
        d,
        "(define (domain pocl-compiled)\n  (:requirements :strips :equality :typing :disjunctive-preconditions :negative-preconditions :conditional-effects)\n  (:types place)\n  (:predicates\n    (at ?a0 - place)\n    (road ?a0 - place ?a1 - place)\n  )\n  (:action move\n   :parameters (?v0 - place ?v1 - place)\n   :precondition (and (at ?v0) (road ?v0 ?v1))\n   :effect (and (at ?v1) (not (at ?v0)))\n  )\n)\n"
    );
    assert_eq!(
        p,
        "(define (problem pocl-compiled-prob)\n  (:domain pocl-compiled)\n  (:objects p - place q - place r - place)\n  (:init (at p) (road p q) (road q r))\n  (:goal (and (at r)))\n)\n"
    );
}

#[test]
fn a_complete_plan_compiles_to_steps_and_guards() {
    let (domain, problem) = lowered();
    let params = params(true);
    let ctx = SearchContext::new(&domain, &problem, &params).expect("a context");
    let plan = search(&ctx);
    let compiled = CompiledProblem::compile(&plan, &ctx);
    assert_eq!(compiled.steps.len(), 2);
    assert_eq!(compiled.num_guards, 5);
    assert_eq!(compiled.init_guards.len(), 2);
    for step in &compiled.steps {
        assert!(step.params.is_empty());
        assert!(step.name.starts_with("step-"));
        assert!(step.name.ends_with("-move"));
    }
    let firsts: Vec<usize> = compiled.steps.iter().map(|s| s.predecessors.len()).collect();
    assert_eq!(firsts.iter().sum::<usize>(), 1);
    assert!(!compiled.original_guards.is_empty());
    let bare = CompiledProblem::compile_opts(&plan, &ctx, false);
    assert_eq!(bare.num_guards, 0);
    assert!(bare.original_guards.is_empty());
    let (d, p) = compiled.emit_pddl(&ctx);
    assert!(d.contains("(exec-neg-1)"));
    assert!(d.contains("(or (guard-"));
    assert!(p.contains("(exec-pos-2)"));
}

#[test]
fn the_ground_compilation_is_a_task() {
    let (domain, problem) = lowered();
    let params = params(true);
    let ctx = SearchContext::new(&domain, &problem, &params).expect("a context");
    let base = build_base(&ctx, &ctx.actions);
    let first = Plan::make_initial_plan(&ctx).expect("a plan");
    let task = ground_task(&first, &ctx, &base);
    assert_eq!(task.num_ops(), 9);
    assert_eq!(task.goal().len(), 1);
    assert!(task.find_fact("at(r)").is_some());
    let plan = search(&ctx);
    let task = ground_task(&plan, &ctx, &base);
    assert_eq!(task.num_ops(), 11);
    assert_eq!(task.goal().len(), 3);
    let guard = task.find_fact("guard-0").expect("a guard");
    assert!(guard < task.num_facts());
    assert!(task.ops()[10].name.starts_with("step-"));
}

#[test]
fn a_committed_step_is_forced_once_and_in_order() {
    let (domain, problem) = lowered();
    let params = params(true);
    let ctx = SearchContext::new(&domain, &problem, &params).expect("a context");
    let base = build_base(&ctx, &ctx.actions);
    let plan = search(&ctx);
    let task = ground_task(&plan, &ctx, &base);
    for id in 1..3 {
        let neg = task.find_fact(&format!("exec-neg-{}", id)).expect("an indicator");
        let pos = task.find_fact(&format!("exec-pos-{}", id)).expect("an indicator");
        assert!(task.init()[neg]);
        assert!(!task.init()[pos]);
        assert!(task.goal().contains(&(pos, true)));
        let own: Vec<_> = task.ops().iter().filter(|o| o.pre.contains(&(neg, true))).collect();
        assert_eq!(own.len(), 1);
        assert!(own[0].effects.iter().any(|e| e.cond.is_empty() && e.fact == neg && !e.value));
        assert!(own[0].effects.iter().any(|e| e.cond.is_empty() && e.fact == pos && e.value));
        assert_eq!(task.ops().iter().filter(|o| o.effects.iter().any(|e| e.fact == pos)).count(), 1);
    }
    let marks: Vec<usize> = (1..3).map(|id| task.find_fact(&format!("exec-pos-{}", id)).expect("an indicator")).collect();
    let needing = task.ops().iter().filter(|o| marks.iter().any(|m| o.pre.contains(&(*m, true)))).count();
    assert_eq!(needing, 1);
}

#[test]
fn a_guard_blocks_what_undoes_a_link() {
    let (domain, problem) = lowered();
    let params = params(true);
    let ctx = SearchContext::new(&domain, &problem, &params).expect("a context");
    let base = build_base(&ctx, &ctx.actions);
    let plan = search(&ctx);
    let task = ground_task(&plan, &ctx, &base);
    let goal = task.find_fact("at(r)").expect("a fact");
    let undo: Vec<_> = task.ops()[..9].iter().filter(|o| o.effects.iter().any(|e| e.fact == goal && !e.value)).collect();
    assert!(!undo.is_empty());
    let guards: Vec<usize> = (0..6).filter_map(|i| task.find_fact(&format!("guard-{}", i))).collect();
    for o in undo {
        assert!(o.pre.iter().any(|f| f.1 && guards.contains(&f.0)));
    }
}

#[test]
fn a_complete_plan_needs_its_own_steps() {
    let (domain, problem) = lowered();
    let params = params(true);
    let ctx = SearchContext::new(&domain, &problem, &params).expect("a context");
    let base = build_base(&ctx, &ctx.actions);
    let plan = search(&ctx);
    assert_eq!(plan.num_steps(), 2);
    assert_eq!(lplan_rank(&plan, &ctx, &base, WEIGHT_ONE), 2 * WEIGHT_ONE);
}

#[test]
fn the_linear_program_bounds_the_plan_length() {
    let (domain, problem) = lowered();
    let params = params(true);
    let ctx = SearchContext::new(&domain, &problem, &params).expect("a context");
    let base = build_base(&ctx, &ctx.actions);
    let plan = Plan::make_initial_plan(&ctx).expect("a plan");
    let task = ground_task(&plan, &ctx, &base);
    assert!(!solve_horizon(&task, 0));
    assert!(!solve_horizon(&task, 1));
    assert!(solve_horizon(&task, 2));
    assert_eq!(lplan_rank(&plan, &ctx, &base, WEIGHT_ONE), 2 * WEIGHT_ONE);
    let lp = build_horizon(&task, 0);
    assert_eq!(lp.vars, task.num_facts());
    assert_eq!(lp.rows.len(), task.num_facts() + 1);
}

#[test]
fn a_lifted_plan_falls_back_to_its_open_conditions() {
    let (domain, problem) = lowered();
    let params = params(false);
    let ctx = SearchContext::new(&domain, &problem, &params).expect("a context");
    let base = build_base(&ctx, &vec![]);
    let plan = Plan::make_initial_plan(&ctx).expect("a plan");
    assert_eq!(lplan_rank(&plan, &ctx, &base, 2 * WEIGHT_ONE), 2 * WEIGHT_ONE);
}

#[test]
fn a_reply_becomes_a_rank() {
    let (domain, problem) = lowered();
    let params = params(true);
    let ctx = SearchContext::new(&domain, &problem, &params).expect("a context");
    let plan = search(&ctx);
    assert_eq!(compile_rank(&plan, 1_500_000_000, Some(HResult::Finite(2))), 5 * WEIGHT_ONE);
    assert_eq!(compile_rank(&plan, -1_500_000_000, Some(HResult::Finite(2))), -WEIGHT_ONE);
    assert_eq!(compile_rank(&plan, WEIGHT_ONE, Some(HResult::Finite(-3))), -WEIGHT_ONE);
    assert_eq!(compile_rank(&plan, 2 * WEIGHT_ONE, Some(HResult::Fraction(3_500_000_000))), 9 * WEIGHT_ONE);
    assert_eq!(compile_rank(&plan, 2 * WEIGHT_ONE, Some(HResult::Fraction(-500_000_000))), WEIGHT_ONE);
    assert_eq!(compile_rank(&plan, i128::MAX, Some(HResult::Finite(2))), i128::MAX - 1);
    assert_eq!(compile_rank(&plan, WEIGHT_ONE, Some(HResult::Infinite)), i128::MAX);
    assert_eq!(compile_rank(&plan, WEIGHT_ONE, None), i128::MAX);
}

#[test]
fn ranks_follow_the_graph() {
    let (domain, problem) = lowered();
    let mut params = params(true);
    params.heuristic = Heuristic::parse("ADD/UCPOP/BUC").expect("a heuristic");
    let ctx = SearchContext::new(&domain, &problem, &params).expect("a context");
    let graph = ctx.planning_graph();
    let plan = Plan::make_initial_plan(&ctx).expect("a plan");
    let none = Models { base: None, sampling: None, compiled: vec![0i128; 3] };
    let rank = plan.rank(&ctx, Some(&graph), &none);
    assert_eq!(rank[0], 2 * WEIGHT_ONE);
    assert_eq!(rank[1], WEIGHT_ONE);
    assert_eq!(plan.primary_rank(&ctx, Some(&graph), &none), rank[0]);
}

#[test]
fn ranks_follow_the_compiled_task_and_the_samples() {
    let (domain, problem) = lowered();
    let mut ground = params(true);
    ground.heuristic = Heuristic::parse("LPLAN/SAMPLE_FF").expect("a heuristic");
    let ctx = SearchContext::new(&domain, &problem, &ground).expect("a context");
    let base = build_base(&ctx, &ctx.actions);
    let model = SampleFfModel::build(&ctx);
    let plan = Plan::make_initial_plan(&ctx).expect("a plan");
    let models = Models { base: Some(&base), sampling: Some(&model), compiled: vec![7i128; 2] };
    assert_eq!(plan.rank(&ctx, None, &models), vec![2 * WEIGHT_ONE, 2 * WEIGHT_ONE]);
    let mut lifted = params(false);
    lifted.heuristic = Heuristic::parse("LPLAN/SAMPLE_FF").expect("a heuristic");
    let ctx = SearchContext::new(&domain, &problem, &lifted).expect("a context");
    let plan = Plan::make_initial_plan(&ctx).expect("a plan");
    let models = Models { base: None, sampling: None, compiled: vec![7i128; 2] };
    assert_eq!(plan.rank(&ctx, None, &models), vec![WEIGHT_ONE, WEIGHT_ONE]);
}

#[test]
fn a_flaw_is_found_until_the_plan_is_complete() {
    let (domain, problem) = lowered();
    let mut params = params(true);
    params.flaw_orders = vec![FlawSelectionOrder::parse("LCFR").expect("an order")];
    let ctx = SearchContext::new(&domain, &problem, &params).expect("a context");
    let first = Plan::make_initial_plan(&ctx).expect("a plan");
    assert!(first.get_flaw_with(&ctx, 0, None).is_some());
    let plan = search(&ctx);
    assert!(plan.get_flaw_with(&ctx, 0, None).is_none());
}

#[test]
fn samples_estimate_the_missing_steps() {
    let (domain, problem) = lowered();
    let params = params(true);
    let ctx = SearchContext::new(&domain, &problem, &params).expect("a context");
    let model = SampleFfModel::build(&ctx);
    let first = Plan::make_initial_plan(&ctx).expect("a plan");
    assert_eq!(sample_ff_rank(&first, &ctx, &model, WEIGHT_ONE, 10), 2 * WEIGHT_ONE);
    let plan = search(&ctx);
    assert_eq!(sample_ff_rank(&plan, &ctx, &model, WEIGHT_ONE, 10), 2 * WEIGHT_ONE);
}

/// The open conditions of a plan, as text.
fn open_texts(plan: &Plan) -> Vec<String> {
    let mut out = vec![];
    let mut at = plan.open_conds.clone();
    while let Some(node) = at {
        out.push(format!("{:?}", node.head));
        at = node.tail.clone();
    }
    out
}

#[test]
fn resolved_conditions_do_not_come_back() {
    let (domain, problem) = lowered();
    for ground in [true, false] {
        let params = params(ground);
        let ctx = SearchContext::new(&domain, &problem, &params).expect("a context");
        let graph = ctx.planning_graph();
        let mut queue = vec![Plan::make_initial_plan(&ctx).expect("an initial plan")];
        let mut seen = 0;
        let mut i = 0;
        while i < queue.len() && i < 200 {
            let plan = queue[i].clone();
            let flaw = plan.get_flaw_with(&ctx, 0, Some(&graph));
            let first = queue.len();
            plan.refinements(&ctx, Some(&graph), &mut queue);
            if let Some(Flaw::OpenCondition(oc)) = flaw {
                let text = format!("{oc:?}");
                if open_texts(&plan).iter().filter(|t| **t == text).count() == 1 {
                    for child in &queue[first..] {
                        assert!(!open_texts(child).contains(&text));
                        seen += 1;
                    }
                }
            }
            i += 1;
        }
        assert!(seen > 3);
    }
}

#[test]
fn patterns_of_plans_accept_what_their_atoms_unify_with() {
    let (domain, problem) = lowered();
    let params = params(false);
    let ctx = SearchContext::new(&domain, &problem, &params).expect("a context");
    let graph = ctx.planning_graph();
    let mut queue = vec![Plan::make_initial_plan(&ctx).expect("an initial plan")];
    let (mut accepted, mut refused) = (0, 0);
    let mut i = 0;
    while i < queue.len() && i < 100 {
        let plan = queue[i].clone();
        let types = plan.types(&ctx);
        let tctx = ctx.type_ctx(&types);
        let mut at = plan.open_conds.clone();
        while let Some(node) = at {
            if let Formula::Atom(a) = node.head.condition.as_ref() {
                let pattern = plan.bindings.resolve_pattern(&tctx, &a.terms, node.head.step_id);
                for fact in &problem.init_order {
                    if fact.predicate == a.predicate {
                        let copy = |x: &Atom| Literal::Atom(Atom { predicate: x.predicate, terms: x.terms.clone() });
                        let matched = pattern.matches(&tctx, &fact.terms);
                        assert_eq!(matched, plan.bindings.unify(&tctx, &copy(a), node.head.step_id, &copy(fact), 0));
                        if matched {
                            accepted += 1;
                        } else {
                            refused += 1;
                        }
                    }
                }
            }
            at = node.tail.clone();
        }
        plan.refinements(&ctx, Some(&graph), &mut queue);
        i += 1;
    }
    assert!(accepted > 3 && refused > 3);
}
