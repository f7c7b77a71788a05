use potoroo::read::{looks_like_problem, normalize, read_pddl, strip_comments, ParsedUnit, ReadError};

const DOMAIN: &str = "(define (domain Roads)\n ; a comment (problem x)\n (:requirements :strips)\n (:predicates (AT ?x)(road ?a ?b))\n (:action move\n :parameters(?a ?b)\n :precondition (and (at ?a )(road ?a ?b))\n :effect (and (at ?b) (not (at ?a)))))";

#[test]
fn comments_go_and_line_ends_stay() {
    let stripped: String = strip_comments(&"a;b\nc;;d".chars().collect()).iter().collect();
    assert_eq!(stripped, "a\nc");
}

#[test]
fn parentheses_delimit_and_names_fold() {
    assert_eq!(normalize(":Parameters(?A ?b )"), ":parameters (?a ?b)");
    assert_eq!(normalize("((x)(y))"), "((x) (y))");
    assert_eq!(normalize("(a ; note\n )"), "(a)");
}

#[test]
fn a_problem_is_told_from_a_domain() {
    assert!(looks_like_problem("(DEFINE (problem p) (:domain d))"));
    assert!(!looks_like_problem("(define (domain d) (problem))"));
    assert!(!looks_like_problem("(problem p)"));
}

#[test]
fn a_domain_is_parsed() {
    match read_pddl(DOMAIN) {
        Ok(ParsedUnit::Domain(d)) => {
            let name: &str = d.name().as_ref();
            assert_eq!(name, "roads");
        }
        _ => panic!("a domain"),
    }
}

#[test]
fn a_problem_is_parsed() {
    let src = "(define (problem go)(:domain roads)(:objects p q)(:init (at p))(:goal (at q)))";
    match read_pddl(src) {
        Ok(ParsedUnit::Problem(p)) => {
            let name: &str = p.domain().as_ref();
            assert_eq!(name, "roads");
        }
        _ => panic!("a problem"),
    }
}

#[test]
fn nonsense_is_refused() {
    match read_pddl("(define (domain") {
        Err(ReadError::Parse(msg)) => {
            assert!(!msg.is_empty());
            assert_eq!(ReadError::Parse(msg.clone()).to_text(), format!("parse error: {msg}"));
        }
        _ => panic!("refused"),
    }
}

#[test]
fn a_number_beyond_the_range_is_refused() {
    let problem = |value: &str| format!("(define (problem p) (:domain d) (:init (= (cost) {})) (:goal (and)))", value);
    let nines = "9".repeat(38);
    assert!(matches!(read_pddl(&problem(&nines)), Ok(ParsedUnit::Problem(_))));
    assert!(matches!(read_pddl(&problem(&format!("0.{}", "9".repeat(60)))), Ok(ParsedUnit::Problem(_))));
    assert!(matches!(read_pddl(&problem(&format!("{}7", "0".repeat(60)))), Ok(ParsedUnit::Problem(_))));
    assert!(matches!(read_pddl(&problem("340282356779733661637539395458142568447")), Ok(ParsedUnit::Problem(_))));
    assert!(matches!(read_pddl(&problem("340282356779733661637539395458142568448")), Err(ReadError::Parse(_))));
    let named = format!("(define (problem p) (:domain d) (:objects x{0} y-{0} z_{0}) (:init (on{0} x{0})) (:goal (and)))", "9".repeat(50));
    assert!(matches!(read_pddl(&named), Ok(ParsedUnit::Problem(_))));
    match read_pddl(&problem(&format!("{}9", nines))) {
        Err(ReadError::Parse(message)) => assert_eq!(message, "number out of range"),
        _ => panic!("expected a refusal"),
    }
}
