use pddl_fol::{
    replay, solve, Action, Atom, Binding, ErrorKind, Formula, GroundAction, GroundAtom, Predicate,
    SearchLimits, SearchOutcome, State, Task, Term, validate,
};

fn travel_task() -> Task {
    let at = |name: &str| Atom {
        predicate: "at".into(),
        terms: vec![Term::Constant(name.into())],
    };
    Task {
        name: "travel".into(),
        types: vec!["place".into()],
        objects: ["a", "b", "c"]
            .iter()
            .map(|name| Binding {
                name: (*name).into(),
                ty: "place".into(),
            })
            .collect(),
        predicates: vec![Predicate {
            name: "at".into(),
            parameters: vec!["place".into()],
        }],
        actions: vec![Action {
            name: "move".into(),
            parameters: vec![
                Binding {
                    name: "from".into(),
                    ty: "place".into(),
                },
                Binding {
                    name: "to".into(),
                    ty: "place".into(),
                },
            ],
            precondition: Formula::Atom(Atom {
                predicate: "at".into(),
                terms: vec![Term::Variable("from".into())],
            }),
            add: vec![Atom {
                predicate: "at".into(),
                terms: vec![Term::Variable("to".into())],
            }],
            delete: vec![Atom {
                predicate: "at".into(),
                terms: vec![Term::Variable("from".into())],
            }],
        }],
        initial: State::from_atoms(vec![GroundAtom {
            predicate: "at".into(),
            arguments: vec!["a".into()],
        }]),
        goal: Formula::Atom(at("c")),
    }
}

#[test]
fn bfs_finds_minimal_plan_and_replay_matches_it() {
    let task = travel_task();
    let plan = match solve(&task, SearchLimits::default()).unwrap() {
        SearchOutcome::Solved(plan) => plan,
        other => panic!("expected plan, got {other:?}"),
    };
    assert_eq!(plan.steps.len(), 1);
    assert_eq!(plan.steps[0].to_string(), "move(a, c)");
    assert_eq!(replay(&task, &plan.steps).unwrap(), plan.final_state);
    assert_eq!(plan.situation(), "do(move(a, c), S0)");
}

#[test]
fn disjunction_does_not_filter_applicable_actions() {
    let mut task = travel_task();
    task.actions[0].precondition = Formula::Or(vec![
        Formula::Atom(Atom {
            predicate: "at".into(),
            terms: vec![Term::Constant("b".into())],
        }),
        Formula::And(vec![]),
    ]);
    let SearchOutcome::Solved(plan) = solve(&task, SearchLimits::default()).unwrap() else {
        panic!("true disjunct must keep every action applicable");
    };
    assert_eq!(plan.steps.len(), 1);
    assert_eq!(replay(&task, &plan.steps).unwrap(), plan.final_state);
}

#[test]
fn sparse_high_arity_precondition_avoids_cartesian_grounding() {
    let objects = (0..32)
        .map(|index| Binding {
            name: format!("o{index}"),
            ty: "object".into(),
        })
        .collect::<Vec<_>>();
    let parameters = (0..8)
        .map(|index| Binding {
            name: format!("x{index}"),
            ty: "object".into(),
        })
        .collect::<Vec<_>>();
    let vars = parameters
        .iter()
        .map(|parameter| Term::Variable(parameter.name.clone()))
        .collect::<Vec<_>>();
    let task = Task {
        name: "sparse-high-arity".into(),
        types: vec![],
        objects,
        predicates: vec![
            Predicate {
                name: "tuple".into(),
                parameters: vec!["object".into(); 8],
            },
            Predicate {
                name: "done".into(),
                parameters: vec![],
            },
        ],
        actions: vec![Action {
            name: "finish".into(),
            parameters,
            precondition: Formula::Atom(Atom {
                predicate: "tuple".into(),
                terms: vars,
            }),
            add: vec![Atom {
                predicate: "done".into(),
                terms: vec![],
            }],
            delete: vec![],
        }],
        initial: State::from_atoms(vec![GroundAtom {
            predicate: "tuple".into(),
            arguments: (0..8).map(|index| format!("o{index}")).collect(),
        }]),
        goal: Formula::Atom(Atom {
            predicate: "done".into(),
            terms: vec![],
        }),
    };
    let SearchOutcome::Solved(plan) = solve(
        &task,
        SearchLimits {
            max_states: 2,
            max_ground_actions: 1,
        },
    )
    .unwrap() else {
        panic!("the sparse high-arity action should solve within one candidate");
    };
    assert_eq!(plan.steps.len(), 1);
    assert_eq!(
        plan.steps[0].arguments,
        (0..8).map(|i| format!("o{i}")).collect::<Vec<_>>()
    );
}

#[test]
fn joined_atoms_respect_action_parameter_types() {
    let task = Task {
        name: "typed-join".into(),
        types: vec!["place".into(), "item".into()],
        objects: vec![
            Binding {
                name: "home".into(),
                ty: "place".into(),
            },
            Binding {
                name: "foreign".into(),
                ty: "item".into(),
            },
        ],
        predicates: vec![
            Predicate {
                name: "p".into(),
                parameters: vec!["object".into()],
            },
            Predicate {
                name: "done".into(),
                parameters: vec![],
            },
        ],
        actions: vec![Action {
            name: "finish".into(),
            parameters: vec![Binding {
                name: "x".into(),
                ty: "place".into(),
            }],
            precondition: Formula::Atom(Atom {
                predicate: "p".into(),
                terms: vec![Term::Variable("x".into())],
            }),
            add: vec![Atom {
                predicate: "done".into(),
                terms: vec![],
            }],
            delete: vec![],
        }],
        initial: State::from_atoms(vec![GroundAtom {
            predicate: "p".into(),
            arguments: vec!["foreign".into()],
        }]),
        goal: Formula::Atom(Atom {
            predicate: "done".into(),
            terms: vec![],
        }),
    };
    assert!(matches!(
        solve(&task, SearchLimits::default()).unwrap(),
        SearchOutcome::Unsolvable { .. }
    ));
}

#[test]
fn large_flat_conjunction_uses_bounded_join_and_full_evaluation() {
    let mut task = travel_task();
    task.actions[0].precondition = Formula::And(
        (0..300)
            .map(|_| {
                Formula::Atom(Atom {
                    predicate: "at".into(),
                    terms: vec![Term::Variable("from".into())],
                })
            })
            .collect(),
    );
    let SearchOutcome::Solved(plan) = solve(&task, SearchLimits::default()).unwrap() else {
        panic!("all 300 positive conjuncts hold for the source location");
    };
    assert_eq!(plan.steps.len(), 1);
}

#[test]
fn disjunction_and_quantifier_fall_back_to_bounded_grounding() {
    let fallback_preconditions = [
        Formula::Or(vec![
            Formula::Atom(Atom {
                predicate: "at".into(),
                terms: vec![Term::Constant("b".into())],
            }),
            Formula::And(vec![]),
        ]),
        Formula::Exists(
            vec![Binding {
                name: "witness".into(),
                ty: "place".into(),
            }],
            Box::new(Formula::Equal(
                Term::Variable("witness".into()),
                Term::Variable("to".into()),
            )),
        ),
    ];
    for precondition in fallback_preconditions {
        let mut task = travel_task();
        task.actions[0].precondition = precondition;
        let error = solve(
            &task,
            SearchLimits {
                max_states: 100,
                max_ground_actions: 1,
            },
        )
        .unwrap_err();
        assert_eq!(error.kind(), ErrorKind::GroundingLimit);
    }
}

#[test]
fn grounding_and_state_limits_are_distinct_from_unsolvable() {
    let task = travel_task();
    let error = solve(
        &task,
        SearchLimits {
            max_states: 100,
            max_ground_actions: 1,
        },
    )
    .unwrap_err();
    assert_eq!(error.kind(), ErrorKind::GroundingLimit);
    assert!(matches!(
        solve(
            &task,
            SearchLimits {
                max_states: 1,
                max_ground_actions: 100
            }
        )
        .unwrap(),
        SearchOutcome::LimitReached { .. }
    ));
}

#[test]
fn replay_rejects_inapplicable_actions() {
    let task = travel_task();
    let error = replay(
        &task,
        &[GroundAction {
            name: "move".into(),
            arguments: vec!["b".into(), "c".into()],
        }],
    )
    .unwrap_err();
    assert!(error.message.contains("not applicable"));
}

#[test]
fn zero_state_limit_reports_nothing_explored() {
    let task = travel_task();
    assert_eq!(
        solve(
            &task,
            SearchLimits {
                max_states: 0,
                max_ground_actions: 100
            }
        )
        .unwrap(),
        SearchOutcome::LimitReached { explored: 0 }
    );
}

#[test]
fn grounding_limit_message_names_the_limit() {
    let task = travel_task();
    let error = solve(
        &task,
        SearchLimits {
            max_states: 100,
            max_ground_actions: 2,
        },
    )
    .unwrap_err();
    assert_eq!(error.to_string(), "ground action limit (2) exceeded");
}

#[test]
fn invalid_tasks_are_input_errors_for_search_and_replay() {
    let mut task = travel_task();
    task.objects.push(Binding {
        name: "a".into(),
        ty: "place".into(),
    });
    assert_eq!(
        solve(&task, SearchLimits::default()).unwrap_err().kind(),
        ErrorKind::InvalidInput
    );
    assert_eq!(replay(&task, &[]).unwrap_err().kind(), ErrorKind::InvalidInput);
}

#[test]
fn replay_reports_unknown_actions_and_argument_counts() {
    let task = travel_task();
    let unknown = replay(
        &task,
        &[GroundAction {
            name: "fly".into(),
            arguments: vec![],
        }],
    )
    .unwrap_err();
    assert_eq!(unknown.to_string(), "step 1 names unknown action `fly`");
    assert!(replay(
        &task,
        &[GroundAction {
            name: "move".into(),
            arguments: vec!["a".into()],
        }],
    )
    .is_err());
    let state = replay(
        &task,
        &[
            GroundAction {
                name: "move".into(),
                arguments: vec!["a".into(), "b".into()],
            },
            GroundAction {
                name: "move".into(),
                arguments: vec!["b".into(), "c".into()],
            },
        ],
    )
    .unwrap();
    assert!(state.contains(&GroundAtom {
        predicate: "at".into(),
        arguments: vec!["c".into()],
    }));
    assert_eq!(state.len(), 1);
}

#[test]
fn replay_messages_name_the_first_failing_step() {
    let mut task = travel_task();
    task.types.push("thing".into());
    task.objects.push(Binding {
        name: "x".into(),
        ty: "thing".into(),
    });
    let step = |args: &[&str]| GroundAction {
        name: "move".into(),
        arguments: args.iter().map(|a| (*a).into()).collect(),
    };
    assert_eq!(
        replay(&task, &[step(&["a"])]).unwrap_err().to_string(),
        "action `move` expects 2 arguments, got 1"
    );
    assert_eq!(
        replay(&task, &[step(&["a", "z"])]).unwrap_err().to_string(),
        "unknown object `z` in a step"
    );
    assert_eq!(
        replay(&task, &[step(&["a", "x"])]).unwrap_err().to_string(),
        "object `x` does not have type `place`"
    );
    assert_eq!(
        replay(&task, &[step(&["a", "b"]), step(&["a", "c"])])
            .unwrap_err()
            .to_string(),
        "action `move(a, c)` is not applicable at step 2"
    );
}

#[test]
fn goal_false_with_tiny_candidate_budget_is_a_grounding_limit() {
    let mut task = travel_task();
    task.goal = Formula::Or(vec![]);
    let error = solve(
        &task,
        SearchLimits {
            max_states: 100_000,
            max_ground_actions: 1,
        },
    )
    .unwrap_err();
    assert_eq!(error.kind(), ErrorKind::GroundingLimit);
    assert_eq!(error.to_string(), "ground action limit (1) exceeded");
}

#[test]
fn invalid_task_is_never_searched_and_reports_the_validation_error() {
    let mut task = travel_task();
    task.objects.push(task.objects[0].clone());
    let expected = validate(&task).unwrap_err();
    let error = solve(&task, SearchLimits::default()).unwrap_err();
    assert_eq!(error.kind(), ErrorKind::InvalidInput);
    assert_eq!(error.message, expected.message);
    let replayed = replay(&task, &[]).unwrap_err();
    assert_eq!(replayed.message, expected.message);
    assert!(error.message.starts_with("duplicate object `"));
}
