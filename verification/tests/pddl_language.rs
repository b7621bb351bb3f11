use pddl_fol::{parse_pddl, Formula, Term};

#[test]
fn pddl_accepts_typed_groups_and_flat_quantifier_bindings() {
    let domain = "(define (domain d) (:types place - object)\
      (:constants depot - place) (:predicates (at ?x - place))\
      (:action mark :parameters (?x ?y - place)\
        :precondition (and) :effect (and (at ?x) (not (at ?y)))))";
    let problem = "(define (problem p) (:domain d) (:objects a b - place)\
      (:init (at a)) (:goal (forall (?x ?y - place) (or (at ?x) (not (at ?y))))))";
    let task = parse_pddl(domain, problem).unwrap();
    assert_eq!(task.objects.len(), 3);
    assert_eq!(task.actions[0].parameters.len(), 2);
    assert_eq!(task.actions[0].delete.len(), 1);
    let Formula::Forall(bindings, _) = task.goal else {
        panic!("expected forall")
    };
    assert_eq!(
        bindings.iter().map(|b| b.name.as_str()).collect::<Vec<_>>(),
        ["x", "y"]
    );
}

#[test]
fn unsupported_and_ambiguous_syntax_is_rejected() {
    let domain = "(define (domain d) (:predicates) (:action a :effect (when (p) (q))))";
    let problem = "(define (problem p) (:domain d) (:init) (:goal (and)))";
    assert!(parse_pddl(domain, problem).is_err());
    let duplicate_params = "(define (domain d) (:predicates (p ?x ?x)))";
    assert!(parse_pddl(duplicate_params, problem).is_err());
}

#[test]
fn pddl_reads_terms_types_and_untyped_defaults() {
    let domain = "(define (domain D) (:requirements :strips :typing)\
      (:types room - object) (:predicates (in ?r - room) (lit))\
      (:action go :parameters (?from ?to - room)\
        :precondition (and (in ?from) (not (= ?from ?to))) :effect (and (in ?to) (not (in ?from)))))";
    let problem = "(define (problem P) (:domain d) (:objects Hall Kitchen - room spare)\
      (:init (in hall)) (:goal (in kitchen)))";
    let task = parse_pddl(domain, problem).unwrap();
    assert_eq!(task.name, "p");
    assert_eq!(task.types, ["room"]);
    assert_eq!(task.objects[0].name, "hall");
    assert_eq!(task.objects[2].name, "spare");
    assert_eq!(task.objects[2].ty, "object");
    assert_eq!(task.predicates[0].parameters, ["room"]);
    assert_eq!(task.predicates[1].parameters.len(), 0);
    let Formula::Atom(goal) = &task.goal else {
        panic!("atom expected")
    };
    assert_eq!(goal.terms, [Term::Constant("kitchen".into())]);
    assert_eq!(task.actions[0].add[0].terms, [Term::Variable("to".into())]);
}

#[test]
fn pddl_errors_carry_positions() {
    let problem = "(define (problem p) (:domain d) (:init) (:goal (and)))";
    assert_eq!(
        parse_pddl("(define (domain d) (:predicates)", problem)
            .unwrap_err()
            .to_string(),
        "1:1: unclosed list"
    );
    assert_eq!(
        parse_pddl("(define (domain d) (:predicates)) )", problem)
            .unwrap_err()
            .to_string(),
        "1:35: unexpected trailing input"
    );
    assert_eq!(
        parse_pddl("(define (domain d) (:requirements :adl) (:predicates))", problem)
            .unwrap_err()
            .to_string(),
        "1:35: unsupported requirement ':adl'"
    );
    assert_eq!(
        parse_pddl("(define (domain d))", problem).unwrap_err().to_string(),
        "1:1: domain is missing :predicates"
    );
    assert_eq!(
        parse_pddl(
            "(define (domain d) (:predicates))",
            "(define (problem p) (:domain e) (:init) (:goal (and)))"
        )
        .unwrap_err()
        .to_string(),
        "1:21: problem refers to a different domain"
    );
}
