use std::rc::Rc;

use potoroo::formula::{Atom, Formula};
use potoroo::predicates::Predicate;
use potoroo::terms::{Object, Term, Variable};

fn atom(p: u32) -> Rc<Formula> {
    Rc::new(Formula::Atom(Atom {
        predicate: Predicate(p),
        terms: vec![Term::Object(Object(0))],
    }))
}

#[test]
fn conjunction_flattens() {
    let inner = Formula::and(atom(0), atom(1));
    let outer = Formula::and(inner, atom(2));
    match outer.as_ref() {
        Formula::Conjunction(cs) => assert_eq!(cs.len(), 3),
        _ => panic!("expected flattened conjunction"),
    }
}

#[test]
fn and_with_true_collapses() {
    let f = Formula::and(Rc::new(Formula::True), atom(0));
    assert!(matches!(f.as_ref(), Formula::Atom(_)));
}

#[test]
fn de_morgan() {
    let conj = Formula::and(atom(0), atom(1));
    let neg = conj.negation();
    match neg.as_ref() {
        Formula::Disjunction(ds) => {
            assert_eq!(ds.len(), 2);
            assert!(ds.iter().all(|d| matches!(d.as_ref(), Formula::Negation(_))));
        }
        _ => panic!("expected disjunction of negations"),
    }
}

#[test]
fn quantifier_duality() {
    let body = atom(0);
    let exists = Rc::new(Formula::Exists {
        params: vec![Variable(0)],
        body,
    });
    match exists.negation().as_ref() {
        Formula::Forall { body, .. } => assert!(matches!(body.as_ref(), Formula::Negation(_))),
        _ => panic!("expected forall"),
    }
}
