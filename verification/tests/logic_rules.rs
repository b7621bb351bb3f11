use pddl_fol::{
    evaluate, validate, Atom, Binding, ErrorKind, Formula, GroundAtom, Predicate, State, Task, Term,
};

fn task() -> Task {
    Task {
        name: "t".into(),
        types: vec!["place".into()],
        objects: vec![
            Binding {
                name: "a".into(),
                ty: "place".into(),
            },
            Binding {
                name: "b".into(),
                ty: "place".into(),
            },
        ],
        predicates: vec![Predicate {
            name: "at".into(),
            parameters: vec!["place".into()],
        }],
        actions: vec![],
        initial: State::from_atoms(vec![GroundAtom {
            predicate: "at".into(),
            arguments: vec!["a".into()],
        }]),
        goal: Formula::And(vec![]),
    }
}

#[test]
fn finite_quantifiers_support_shadowing_and_empty_types() {
    let mut t = task();
    t.types.push("empty".into());
    let shadowed = Formula::Exists(
        vec![Binding {
            name: "x".into(),
            ty: "place".into(),
        }],
        Box::new(Formula::Forall(
            vec![Binding {
                name: "x".into(),
                ty: "place".into(),
            }],
            Box::new(Formula::Or(vec![
                Formula::Equal(Term::Variable("x".into()), Term::Constant("a".into())),
                Formula::Equal(Term::Variable("x".into()), Term::Constant("b".into())),
            ])),
        )),
    );
    assert!(evaluate(&t, &t.initial, &shadowed).unwrap());
    assert!(evaluate(
        &t,
        &t.initial,
        &Formula::Forall(
            vec![Binding {
                name: "z".into(),
                ty: "empty".into()
            }],
            Box::new(Formula::Atom(Atom {
                predicate: "missing".into(),
                terms: vec![]
            }))
        )
    )
    .is_err());
    let empty_forall = Formula::Forall(
        vec![Binding {
            name: "z".into(),
            ty: "empty".into(),
        }],
        Box::new(Formula::Equal(
            Term::Constant("a".into()),
            Term::Constant("b".into()),
        )),
    );
    assert!(evaluate(&t, &t.initial, &empty_forall).unwrap());
}

#[test]
fn validation_rejects_free_goal_variables_and_bad_state_types() {
    let mut t = task();
    t.goal = Formula::Atom(Atom {
        predicate: "at".into(),
        terms: vec![Term::Variable("x".into())],
    });
    assert!(validate(&t)
        .unwrap_err()
        .message
        .contains("unbound variable"));
    t.goal = Formula::And(vec![]);
    t.initial.insert(GroundAtom {
        predicate: "at".into(),
        arguments: vec!["ghost".into()],
    });
    assert!(validate(&t).is_err());
}

#[test]
fn evaluation_follows_the_connectives() {
    let t = task();
    let at = |name: &str| {
        Formula::Atom(Atom {
            predicate: "at".into(),
            terms: vec![Term::Constant(name.into())],
        })
    };
    assert!(evaluate(&t, &t.initial, &at("a")).unwrap());
    assert!(!evaluate(&t, &t.initial, &at("b")).unwrap());
    assert!(evaluate(&t, &t.initial, &Formula::Not(Box::new(at("b")))).unwrap());
    assert!(!evaluate(&t, &t.initial, &Formula::And(vec![at("a"), at("b")])).unwrap());
    assert!(evaluate(&t, &t.initial, &Formula::Or(vec![at("b"), at("a")])).unwrap());
    assert!(!evaluate(&t, &t.initial, &Formula::Or(vec![])).unwrap());
    assert!(evaluate(
        &t,
        &t.initial,
        &Formula::Implies(Box::new(at("b")), Box::new(at("b")))
    )
    .unwrap());
    let some = Formula::Exists(
        vec![Binding {
            name: "p".into(),
            ty: "place".into(),
        }],
        Box::new(Formula::Not(Box::new(Formula::Atom(Atom {
            predicate: "at".into(),
            terms: vec![Term::Variable("p".into())],
        })))),
    );
    assert!(evaluate(&t, &t.initial, &some).unwrap());
}

#[test]
fn evaluation_rejects_unknown_names_and_bad_states() {
    let t = task();
    let unknown_object = Formula::Atom(Atom {
        predicate: "at".into(),
        terms: vec![Term::Constant("nowhere".into())],
    });
    let error = evaluate(&t, &t.initial, &unknown_object).unwrap_err();
    assert_eq!(error.kind(), ErrorKind::InvalidInput);
    let mut bad_state = State::new();
    bad_state.insert(GroundAtom {
        predicate: "at".into(),
        arguments: vec!["nowhere".into()],
    });
    assert!(evaluate(&t, &bad_state, &Formula::And(vec![])).is_err());
    let mut untyped = task();
    untyped.objects.push(Binding {
        name: "c".into(),
        ty: "missing".into(),
    });
    assert!(validate(&untyped).is_err());
    let mut duplicate = task();
    duplicate.objects.push(Binding {
        name: "a".into(),
        ty: "place".into(),
    });
    assert!(validate(&duplicate).is_err());
}

#[test]
fn validation_reports_the_first_failed_check() {
    let mut t = task();
    t.types.push("place".into());
    assert_eq!(validate(&t).unwrap_err().message, "duplicate type declaration");

    let mut t = task();
    t.types.push("thing".into());
    t.objects.push(Binding {
        name: "x".into(),
        ty: "thing".into(),
    });
    t.initial.insert(GroundAtom {
        predicate: "at".into(),
        arguments: vec!["x".into()],
    });
    assert_eq!(
        validate(&t).unwrap_err().message,
        "object `x` has type `thing`, expected `place`"
    );

    let mut t = task();
    t.types.push("thing".into());
    t.objects.push(Binding {
        name: "x".into(),
        ty: "thing".into(),
    });
    t.goal = Formula::Atom(Atom {
        predicate: "at".into(),
        terms: vec![Term::Constant("x".into())],
    });
    assert_eq!(
        validate(&t).unwrap_err().message,
        "term `x` has type `thing`, expected `place`"
    );

    let mut t = task();
    t.goal = Formula::Atom(Atom {
        predicate: "at".into(),
        terms: vec![Term::Variable("v".into())],
    });
    assert_eq!(validate(&t).unwrap_err().message, "unbound variable `v`");

    let mut t = task();
    t.goal = Formula::Atom(Atom {
        predicate: "at".into(),
        terms: vec![],
    });
    assert_eq!(
        validate(&t).unwrap_err().message,
        "predicate `at` expects 1 arguments, got 0"
    );

    let mut t = task();
    t.objects.push(Binding {
        name: "a".into(),
        ty: "place".into(),
    });
    assert_eq!(validate(&t).unwrap_err().message, "duplicate object `a`");
}

#[test]
fn evaluation_reports_the_formula_error_after_a_valid_task() {
    let t = task();
    let formula = Formula::Atom(Atom {
        predicate: "near".into(),
        terms: vec![],
    });
    let error = evaluate(&t, &t.initial, &formula).unwrap_err();
    assert_eq!(error.kind(), ErrorKind::InvalidInput);
    assert_eq!(error.message, "unknown predicate `near`");
}
