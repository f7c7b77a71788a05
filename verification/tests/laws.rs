use std::rc::Rc;

use potoroo::bindings::{Binding, Bindings};
use potoroo::cli::json_escape;
use potoroo::fasthash::FxHasher;
use potoroo::fdr::{Fact, Task};
use potoroo::formula::{Atom, Formula, Literal};
use potoroo::gap_fill::{saturate, RAction};
use potoroo::hvalue::{hv_min, HeuristicValue};
use potoroo::predicates::Predicate;
use potoroo::read::normalize;
use potoroo::sas::{GroundEffect, GroundOp, GroundTask};
use potoroo::lplan::solve_horizon;
use potoroo::step::StepTypes;
use potoroo::supports::{and_dnf, deduplicate_dnf};
use potoroo::terms::{Object, Term, TermTable, Variable};
use potoroo::text::{parse_usize, push_number};
use potoroo::types::{Type, Types};
use potoroo::typing::TypeContext;

#[test]
fn subtypes_chain_and_every_type_is_its_own() {
    let mut types = Types::new();
    let vehicle = types.add_type("vehicle");
    let truck = types.add_type("truck");
    let place = types.add_type("place");
    types.add_supertype(truck, vehicle);
    assert!(types.subtype(truck, vehicle));
    assert!(types.subtype(vehicle, Type(0)));
    assert!(types.subtype(truck, Type(0)));
    assert!(types.subtype(place, place));
    assert!(!types.subtype(vehicle, truck));
    let either = types.union_type(&vec![truck, place]);
    assert!(types.subtype(truck, either));
    assert!(types.subtype(place, either));
    assert!(!types.subtype(vehicle, either));
}

/// Two places and one truck.
fn world() -> (Types, TermTable, TermTable) {
    let mut types = Types::new();
    let place = types.add_type("place");
    let truck = types.add_type("truck");
    let constants = TermTable::new();
    let mut objects = TermTable::with_parent(&constants);
    objects.add_object("a", place);
    objects.add_object("b", place);
    objects.add_object("t", truck);
    (types, constants, objects)
}

fn at(term: Term) -> Literal {
    Literal::Atom(Atom { predicate: Predicate(0), terms: vec![term] })
}

#[test]
fn bindings_resolve_until_they_contradict() {
    let (types, constants, objects) = world();
    let step_vars = StepTypes { steps: vec![], fresh_base: 0, fresh: vec![Type(1), Type(1)] };
    let ctx = TypeContext { types: &types, objects: &objects, constants: &constants, step_vars: &step_vars };
    let (x, y) = (Variable(0), Variable(1));
    let none = Bindings::empty();
    assert_eq!(none.domain(&ctx, x, 1), vec![Object(0), Object(1)]);
    let same = none.add(&ctx, &vec![Binding::new(x, 1, Term::Variable(y), 2, true)], false).expect("two variables");
    let bound = same.add(&ctx, &vec![Binding::new(y, 2, Term::Object(Object(1)), 0, true)], false).expect("a place");
    assert_eq!(bound.binding(Term::Variable(x), 1), Term::Object(Object(1)));
    assert!(bound.add(&ctx, &vec![Binding::new(x, 1, Term::Object(Object(0)), 0, true)], false).is_none());
    assert!(bound.add(&ctx, &vec![Binding::new(x, 1, Term::Variable(y), 2, false)], false).is_none());
    let apart = none.add(&ctx, &vec![Binding::new(x, 1, Term::Object(Object(0)), 0, false)], false).expect("another place");
    assert_eq!(apart.domain(&ctx, x, 1), vec![Object(1)]);
}

#[test]
fn a_unifier_unifies() {
    let (types, constants, objects) = world();
    let step_vars = StepTypes { steps: vec![], fresh_base: 0, fresh: vec![Type(1)] };
    let ctx = TypeContext { types: &types, objects: &objects, constants: &constants, step_vars: &step_vars };
    let x = Term::Variable(Variable(0));
    let none = Bindings::empty();
    let mut mgu: Vec<Binding> = Vec::new();
    assert!(none.unify_mgu(&ctx, &mut mgu, &at(x), 1, &at(Term::Object(Object(0))), 0));
    assert_eq!(mgu.len(), 1);
    let bound = none.add(&ctx, &mgu, false).expect("a place");
    assert_eq!(bound.binding(x, 1), Term::Object(Object(0)));
    assert!(!none.unify(&ctx, &at(x), 1, &at(Term::Object(Object(2))), 0));
    assert!(!none.unify(&ctx, &at(x), 1, &at(Term::Object(Object(0))).negate(), 0));
    assert!(none.affects(&ctx, &at(x), 1, &at(Term::Object(Object(0))).negate(), 0));
}

#[test]
fn a_pattern_matches_the_instances_of_its_atom() {
    let (types, constants, objects) = world();
    let step_vars = StepTypes { steps: vec![], fresh_base: 0, fresh: vec![Type(1), Type(1)] };
    let ctx = TypeContext { types: &types, objects: &objects, constants: &constants, step_vars: &step_vars };
    let (x, y) = (Variable(0), Variable(1));
    let terms = vec![Term::Variable(x), Term::Variable(y)];
    let ground = |a: u32, b: u32| vec![Term::Object(Object(a)), Term::Object(Object(b))];
    let none = Bindings::empty();
    let any = none.resolve_pattern(&ctx, &terms, 1);
    assert!(any.matches(&ctx, &ground(0, 1)));
    assert!(any.matches(&ctx, &ground(1, 1)));
    assert!(!any.matches(&ctx, &ground(0, 2)));
    assert!(!any.matches(&ctx, &terms));
    let same = none.add(&ctx, &vec![Binding::new(x, 1, Term::Variable(y), 1, true)], false).expect("two places");
    assert!(!same.resolve_pattern(&ctx, &terms, 1).matches(&ctx, &ground(0, 1)));
    assert!(same.resolve_pattern(&ctx, &terms, 1).matches(&ctx, &ground(1, 1)));
    let apart = none.add(&ctx, &vec![Binding::new(x, 1, Term::Variable(y), 1, false)], false).expect("two places");
    assert!(apart.resolve_pattern(&ctx, &terms, 1).matches(&ctx, &ground(0, 1)));
    assert!(!apart.resolve_pattern(&ctx, &terms, 1).matches(&ctx, &ground(1, 1)));
    let pinned = none.add(&ctx, &vec![Binding::new(x, 1, Term::Object(Object(0)), 0, true)], false).expect("a place");
    assert_eq!(pinned.resolve_pattern(&ctx, &terms, 1).bound_positions(), vec![(0, Object(0))]);
    assert!(pinned.resolve_pattern(&ctx, &terms, 1).object_terms().is_none());
}

#[test]
fn what_is_equated_refuses_any_other_object() {
    let (types, constants, objects) = world();
    let step_vars = StepTypes { steps: vec![], fresh_base: 0, fresh: vec![Type(1), Type(1)] };
    let ctx = TypeContext { types: &types, objects: &objects, constants: &constants, step_vars: &step_vars };
    let (x, y) = (Variable(0), Variable(1));
    let is = |o: u32| Binding::new(x, 1, Term::Object(Object(o)), 0, true);
    let one = Bindings::empty().add(&ctx, &vec![is(0)], false).expect("a place");
    assert!(one.add(&ctx, &vec![is(1)], false).is_none());
    let more = one.add(&ctx, &vec![Binding::new(y, 1, Term::Variable(x), 1, true)], false).expect("the same place");
    assert_eq!(more.binding(Term::Variable(x), 1), Term::Object(Object(0)));
    assert_eq!(more.binding(Term::Variable(y), 1), Term::Object(Object(0)));
    assert!(more.add(&ctx, &vec![is(1)], false).is_none());
    assert!(more.add(&ctx, &vec![is(0)], false).is_some());
}

#[test]
fn what_is_kept_apart_is_not_equated() {
    let (types, constants, objects) = world();
    let step_vars = StepTypes { steps: vec![], fresh_base: 0, fresh: vec![Type(1), Type(1)] };
    let ctx = TypeContext { types: &types, objects: &objects, constants: &constants, step_vars: &step_vars };
    let (x, y) = (Variable(0), Variable(1));
    let to_object = |equality: bool| Binding::new(x, 1, Term::Object(Object(0)), 0, equality);
    let to_variable = |equality: bool| Binding::new(x, 1, Term::Variable(y), 2, equality);
    let none = Bindings::empty();
    let from_object = none.add(&ctx, &vec![to_object(false)], false).expect("another place");
    assert!(from_object.add(&ctx, &vec![to_object(true)], false).is_none());
    let apart = none.add(&ctx, &vec![to_variable(false)], false).expect("two places");
    assert!(apart.add(&ctx, &vec![to_variable(true)], false).is_none());
    let later = apart.add(&ctx, &vec![to_object(true)], false).expect("a place");
    assert!(later.add(&ctx, &vec![to_variable(true)], false).is_none());
    assert!(later.add(&ctx, &vec![Binding::new(y, 2, Term::Object(Object(0)), 0, true)], false).is_none());
    assert!(later.add(&ctx, &vec![Binding::new(y, 2, Term::Object(Object(1)), 0, true)], false).is_some());
}

#[test]
fn an_added_unifier_joins_the_terms_of_its_atoms() {
    let (types, constants, objects) = world();
    let step_vars = StepTypes { steps: vec![], fresh_base: 0, fresh: vec![Type(1), Type(1)] };
    let ctx = TypeContext { types: &types, objects: &objects, constants: &constants, step_vars: &step_vars };
    let (x, y) = (Variable(0), Variable(1));
    let none = Bindings::empty();
    let mut mgu: Vec<Binding> = Vec::new();
    assert!(none.unify_mgu(&ctx, &mut mgu, &at(Term::Variable(x)), 1, &at(Term::Variable(y)), 2));
    assert!(mgu.iter().all(|b| b.equality));
    let joined = none.add(&ctx, &mgu, false).expect("one place");
    assert!(joined.add(&ctx, &vec![Binding::new(x, 1, Term::Variable(y), 2, false)], false).is_none());
    assert!(joined.add(&ctx, &vec![Binding::new(y, 2, Term::Variable(x), 1, false)], false).is_none());
    let mut ground: Vec<Binding> = Vec::new();
    assert!(none.unify_mgu(&ctx, &mut ground, &at(Term::Variable(x)), 1, &at(Term::Object(Object(1))), 0));
    assert!(ground.iter().all(|b| b.equality));
    let pinned = none.add(&ctx, &ground, false).expect("a place");
    assert!(pinned.add(&ctx, &vec![Binding::new(x, 1, Term::Object(Object(1)), 0, false)], false).is_none());
}

#[test]
fn a_pattern_matches_what_its_atom_unifies_with() {
    let (types, constants, objects) = world();
    let step_vars = StepTypes { steps: vec![], fresh_base: 0, fresh: vec![Type(1), Type(1), Type(0)] };
    let ctx = TypeContext { types: &types, objects: &objects, constants: &constants, step_vars: &step_vars };
    let (x, y, z) = (Variable(0), Variable(1), Variable(2));
    let terms = vec![Term::Variable(x), Term::Variable(y), Term::Variable(z)];
    let lifted = Literal::Atom(Atom { predicate: Predicate(0), terms: terms.clone() });
    let object = |o: u32| Term::Object(Object(o));
    let lists = vec![
        vec![],
        vec![Binding::new(x, 1, Term::Variable(y), 1, true)],
        vec![Binding::new(x, 1, Term::Variable(y), 1, false)],
        vec![Binding::new(x, 1, object(0), 0, false), Binding::new(y, 1, Term::Variable(x), 1, true)],
        vec![Binding::new(x, 1, object(1), 0, true), Binding::new(z, 1, Term::Variable(x), 1, false)],
        vec![Binding::new(x, 1, Term::Variable(z), 1, false), Binding::new(y, 1, Term::Variable(z), 1, true)],
    ];
    let mut matched = 0;
    for list in &lists {
        let bindings = Bindings::empty().add(&ctx, list, false).expect("consistent bindings");
        let pattern = bindings.resolve_pattern(&ctx, &terms, 1);
        for code in 0..27u32 {
            let ground = vec![object(code % 3), object(code / 3 % 3), object(code / 9)];
            let literal = Literal::Atom(Atom { predicate: Predicate(0), terms: ground.clone() });
            let unifies = bindings.unify(&ctx, &lifted, 1, &literal, 0);
            assert_eq!(pattern.matches(&ctx, &ground), unifies);
            if unifies {
                matched += 1;
            }
        }
    }
    assert_eq!(matched, 12 + 6 + 6 + 3 + 4 + 2);
}

#[test]
fn substitution_puts_terms_in() {
    let x = Term::Variable(Variable(0));
    let subst = vec![(Variable(0), Term::Object(Object(3)))];
    let literal = at(x).to_formula();
    match &*literal.substitute(&subst) {
        Formula::Atom(a) => assert_eq!(a.terms, vec![Term::Object(Object(3))]),
        _ => panic!("an atom"),
    }
    match &*literal.substitute(&vec![]) {
        Formula::Atom(a) => assert_eq!(a.terms, vec![x]),
        _ => panic!("an atom"),
    }
}

#[test]
fn the_lesser_value_is_one_whatever_the_order() {
    let cheap = HeuristicValue::new(1, 5, 2);
    let short = HeuristicValue::new(3, 2, 7);
    let other = HeuristicValue::new(2, 9, 1);
    assert_eq!(hv_min(cheap, short), hv_min(short, cheap));
    assert_eq!(hv_min(HeuristicValue::new(1, 10, 5), HeuristicValue::new(2, 3, 4)), HeuristicValue::new(1, 3, 4));
    assert_eq!(hv_min(hv_min(cheap, short), other), hv_min(cheap, hv_min(short, other)));
    let mut sum = HeuristicValue::of_zero();
    sum.add_assign(&cheap);
    sum.add_assign(&short);
    assert_eq!((sum.add_cost(), sum.add_work(), sum.makespan()), (4, 7, 7));
    assert!(HeuristicValue::of_nothing().infinite());
}

#[test]
fn numbers_read_back() {
    for n in [0u128, 7, 10, 4096, 18446744073709551615] {
        let mut text = String::new();
        push_number(&mut text, n);
        assert_eq!(text, n.to_string());
        assert_eq!(parse_usize(&text.chars().collect()), Some(n as usize));
    }
}

#[test]
fn clauses_are_joined_and_listed_once() {
    let (p, q, r) = (Fact::new(0, 0), Fact::new(1, 0), Fact::new(0, 1));
    assert_eq!(deduplicate_dnf(&vec![vec![q, p, q], vec![p, q]]), vec![vec![p, q]]);
    assert_eq!(and_dnf(&vec![vec![p], vec![q]], &vec![vec![r]]), vec![vec![r, q]]);
    assert_eq!(and_dnf(&vec![], &vec![vec![r]]), Vec::<Vec<Fact>>::new());
}

#[test]
fn closing_a_state_twice_changes_nothing() {
    let sas = "begin_version\n3\nend_version\nbegin_metric\n0\nend_metric\n2\nbegin_variable\np\n-1\n2\np-true\np-false\nend_variable\nbegin_variable\nd\n0\n2\nd-true\nd-false\nend_variable\n0\nbegin_state\n1\n1\nend_state\nbegin_goal\n1\n1 0\nend_goal\n0\n1\nbegin_rule\n1\n0 0\n1 1 0\nend_rule\n";
    let task = Task::parse(sas).expect("a task");
    assert!(task.settles());
    let mut state = vec![0, 1];
    task.close_axioms(&mut state);
    let once = state.clone();
    task.close_axioms(&mut state);
    assert_eq!(state, once);
    let mut back = vec![1, 0];
    task.close_axioms(&mut back);
    assert_eq!(back, vec![1, 1]);
}

#[test]
fn saturation_reaches_what_a_chain_reaches_and_no_more() {
    let acts = vec![RAction { pre: vec![1], add: 2 }, RAction { pre: vec![0], add: 1 }, RAction { pre: vec![3], add: 3 }];
    let reach = saturate(&vec![true, false, false, false], &acts, 4);
    assert_eq!(reach.reached, vec![true, true, true, false]);
}

#[test]
fn normalized_source_stays_as_it_is() {
    let once = normalize("(DEFINE(domain D) ; a comment (\n  (:types A)\n)");
    assert_eq!(once, "(define (domain d) \n  (:types a))");
    assert_eq!(normalize(&once), once);
}

#[test]
fn an_escaped_text_is_one_line() {
    let text = json_escape("a\nb\tc\rd\"\\");
    assert_eq!(text, "a\\nb\\tc\\rd\\\"\\\\");
    assert!(!text.contains('\n'));
}

/// One fact to be made true by one operator, in two steps through another.
fn two_steps() -> GroundTask {
    let mut task = GroundTask::new();
    let a = task.add_fact("a()".to_string(), false);
    let b = task.add_fact("b()".to_string(), false);
    task.add_goal(b, true);
    let add = |fact: usize| GroundEffect { cond: vec![], fact, value: true };
    task.add_op(GroundOp { name: "first".to_string(), pre: vec![], effects: vec![add(a)] });
    task.add_op(GroundOp { name: "second".to_string(), pre: vec![(a, true)], effects: vec![add(b)] });
    task
}

#[test]
fn the_program_at_the_length_of_a_plan_has_a_solution() {
    let task = two_steps();
    assert!(!solve_horizon(&task, 1));
    assert!(solve_horizon(&task, 2));
    assert!(solve_horizon(&task, 3));
}

#[test]
fn conditional_effects_fire_in_the_program() {
    let mut task = GroundTask::new();
    let a = task.add_fact("a()".to_string(), true);
    let b = task.add_fact("b()".to_string(), false);
    task.add_goal(b, true);
    task.add_goal(a, false);
    task.add_op(GroundOp {
        name: "both".to_string(),
        pre: vec![],
        effects: vec![
            GroundEffect { cond: vec![(a, true)], fact: b, value: true },
            GroundEffect { cond: vec![], fact: a, value: false },
        ],
    });
    assert!(!solve_horizon(&task, 0));
    assert!(solve_horizon(&task, 1));
}

#[test]
fn shared_formulas_are_conjoined_once() {
    let f = at(Term::Object(Object(0))).to_formula();
    let all = Formula::conjoin_all(vec![Rc::clone(&f), f.negation()]);
    match &*all {
        Formula::Conjunction(parts) => assert_eq!(parts.len(), 2),
        _ => panic!("a conjunction"),
    }
}

#[test]
fn hashes_multiply_and_rotate() {
    let mut h = FxHasher::new();
    h.write_u64(1);
    assert_eq!(h.finish(), 0x517cc1b727220a95);
    h.write(&[1, 2, 3]);
    assert_eq!(h.finish(), 0x26f5e4793575a187);
    let mut long = FxHasher::new();
    long.write(&[0, 1, 2, 3, 4, 5, 6, 7, 8]);
    assert_eq!(long.finish(), 0xb33437724ab6680b);
    let mut small = FxHasher::new();
    small.write_u8(1);
    let mut wide = FxHasher::new();
    wide.write_usize(1);
    assert_eq!(small.finish(), wide.finish());
    assert_eq!(small.finish(), 0x517cc1b727220a95);
}

#[test]
fn a_ground_task_is_written_as_a_binary_task() {
    let mut task = GroundTask::new();
    let a = task.add_fact("a()".to_string(), true);
    let b = task.add_fact("b()".to_string(), false);
    let c = task.add_fact("c()".to_string(), false);
    task.add_goal(b, true);
    task.add_op(GroundOp {
        name: "go".to_string(),
        pre: vec![(a, true), (c, false)],
        effects: vec![
            GroundEffect { cond: vec![], fact: a, value: false },
            GroundEffect { cond: vec![(c, true)], fact: b, value: true },
        ],
    });
    let text = task.to_sas();
    let start = "begin_version\n3\nend_version\nbegin_metric\n0\nend_metric\n3\nbegin_variable\nvar0\n-1\n2\nAtom a()\nNegatedAtom a()\nend_variable\n";
    assert!(text.starts_with(start));
    let end = "0\nbegin_state\n0\n1\n1\nend_state\nbegin_goal\n1\n1 0\nend_goal\n1\nbegin_operator\ngo\n1\n2 1\n2\n0 0 0 1\n1 2 0 1 -1 0\n1\nend_operator\n0\n";
    assert!(text.ends_with(end));
    let read = Task::parse(&text).expect("a task");
    assert_eq!(read.initial, vec![0, 1, 1]);
    assert_eq!(read.goals, vec![Fact::new(b, 0)]);
    assert_eq!(read.operators.len(), 1);
    assert_eq!(read.operators[0].prevail, vec![Fact::new(c, 1)]);
    assert_eq!(read.operators[0].effects[0].pre, Some(0));
    assert_eq!(read.operators[0].effects[1].conditions, vec![Fact::new(c, 0)]);
    assert_eq!(read.operators[0].effects[1].pre, None);
    assert_eq!(read.variables[1].name, "var1");
    assert_eq!(read.variables[1].values, vec!["Atom b()", "NegatedAtom b()"]);
    assert_eq!(read.operators[0].name, "go");
    assert_eq!(read.operators[0].preconditions(), vec![Fact::new(a, 0), Fact::new(c, 1)]);
    assert_eq!(read.operators[0].cost, 1);
    assert!(read.axioms.is_empty());
    let mut guarded = task.clone();
    guarded.set_init(a, false);
    guarded.guard_op(0, b, false);
    assert_eq!(guarded.init(), &vec![false, false, false]);
    assert_eq!(guarded.ops()[0].pre.len(), 3);
}

#[test]
fn disjunctions_negate_to_conjunctions() {
    let f = at(Term::Object(Object(0))).to_formula();
    let g = at(Term::Object(Object(1))).to_formula();
    let h = at(Term::Object(Object(2))).to_formula();
    let both = Formula::or(Formula::or(Rc::clone(&f), Rc::clone(&g)), Rc::clone(&h));
    match &*both {
        Formula::Disjunction(parts) => assert_eq!(parts.len(), 3),
        _ => panic!("a disjunction"),
    }
    let apart = Formula::and(Formula::and(f.negation(), g.negation()), h.negation());
    assert_eq!(format!("{:?}", both.negation()), format!("{:?}", apart));
    assert_eq!(format!("{:?}", both.negation().negation()), format!("{:?}", both));
    assert!(matches!(&*Formula::or(Rc::clone(&f), Rc::new(Formula::True)), Formula::True));
    assert_eq!(format!("{:?}", Formula::or(Rc::new(Formula::False), Rc::clone(&f))), format!("{:?}", f));
}

const RULED: &str = "begin_version\n3\nend_version\nbegin_metric\n0\nend_metric\n2\nbegin_variable\np\n-1\n2\np-true\np-false\nend_variable\nbegin_variable\nd\n0\n2\nd-true\nd-false\nend_variable\n0\nbegin_state\n1\n1\nend_state\nbegin_goal\n1\n1 0\nend_goal\n0\n1\nbegin_rule\n1\n0 0\n1 1 0\nend_rule\n";

#[test]
fn only_blank_lines_may_follow_a_task() {
    let task = Task::parse(RULED).expect("a task");
    let blanks = Task::parse(&(RULED.to_string() + "\n \n\t\n")).expect("the same task");
    assert_eq!(format!("{:?}", task), format!("{:?}", blanks));
    assert!(Task::parse(&(RULED.to_string() + "\nextra")).is_err());
    assert!(Task::parse(&(RULED.to_string() + "\n\n0\n")).is_err());
}

#[test]
fn a_derived_fact_holds_where_a_support_does() {
    let task = Task::parse(RULED).expect("a task");
    let on = Fact::new(1, 0);
    let off = Fact::new(1, 1);
    assert_eq!(task.derived_supports(on), Some(vec![vec![Fact::new(0, 0)]]));
    assert_eq!(task.derived_supports(off), Some(vec![vec![Fact::new(0, 1)]]));
    let mut state = vec![0, 1];
    task.close_axioms(&mut state);
    assert_eq!(state[1], 0);
    let mut state = vec![1, 0];
    task.close_axioms(&mut state);
    assert_eq!(state[1], 1);
}

#[test]
fn operators_can_be_changed_in_place() {
    let mut task = two_steps();
    assert!(solve_horizon(&task, 2));
    let b = task.find_fact("b()").expect("a fact");
    task.ops_mut()[0].pre.push((b, true));
    assert_eq!(task.ops()[0].pre, vec![(b, true)]);
    assert!(!solve_horizon(&task, 2));
}
