use pddl_fol::{
    build_relaxed_model, goal_add_upper_bound, goal_cover, ground_actions, positive_ground_goal,
    relaxed_hmax, replay, solve, typed_ground_action_count, Action, Atom, Binding, Estimator,
    Formula, GroundAction, GroundAtom, Predicate, SearchLimits, SearchOutcome, State, Task, Term,
};

fn atom(predicate: &str) -> Atom {
    Atom {
        predicate: predicate.into(),
        terms: vec![],
    }
}

fn ground(predicate: &str) -> GroundAtom {
    GroundAtom {
        predicate: predicate.into(),
        arguments: vec![],
    }
}

fn nullary_task(
    name: &str,
    predicates: &[&str],
    actions: Vec<Action>,
    initial: State,
    goal: Formula,
) -> Task {
    Task {
        name: name.into(),
        types: vec![],
        objects: vec![],
        predicates: predicates
            .iter()
            .map(|name| Predicate {
                name: (*name).into(),
                parameters: vec![],
            })
            .collect(),
        actions,
        initial,
        goal,
    }
}

fn heuristic_task() -> Task {
    let action = |name: &str, precondition: Formula, add: Vec<Atom>, delete: Vec<Atom>| Action {
        name: name.into(),
        parameters: vec![],
        precondition,
        add,
        delete,
    };
    nullary_task(
        "heuristic-check",
        &["ready", "a", "b", "c"],
        vec![
            action("prepare", Formula::And(vec![]), vec![atom("ready")], vec![]),
            action("get-a", Formula::Atom(atom("ready")), vec![atom("a")], vec![]),
            action("get-b", Formula::Atom(atom("ready")), vec![atom("b")], vec![]),
            action("get-c", Formula::Atom(atom("ready")), vec![atom("c")], vec![]),
            action(
                "consume-ready",
                Formula::And(vec![Formula::Atom(atom("b")), Formula::Atom(atom("c"))]),
                vec![],
                vec![atom("ready")],
            ),
            action(
                "erase-a",
                Formula::Atom(atom("b")),
                vec![],
                vec![atom("a")],
            ),
        ],
        State::new(),
        Formula::And(vec![
            Formula::Atom(atom("a")),
            Formula::Atom(atom("b")),
            Formula::Atom(atom("c")),
        ]),
    )
}

fn from_state(task: &Task, state: &State) -> Task {
    let mut copy = task.clone();
    copy.initial = state.clone();
    copy
}

fn successors(task: &Task, state: &State) -> Vec<State> {
    let here = from_state(task, state);
    let mut out = Vec::new();
    for (schema, arguments) in ground_actions(task) {
        let step = GroundAction {
            name: task.actions[schema].name.clone(),
            arguments,
        };
        if let Ok(next) = replay(&here, &[step]) {
            out.push(next);
        }
    }
    out
}

fn exact_distance(task: &Task, state: &State) -> Option<usize> {
    match solve(&from_state(task, state), SearchLimits::default()).unwrap() {
        SearchOutcome::Solved(plan) => Some(plan.steps.len()),
        _ => None,
    }
}

#[test]
fn composite_heuristic_is_admissible_and_consistent_on_a_finite_graph() {
    let task = heuristic_task();
    let grounded = ground_actions(&task);
    let goals = positive_ground_goal(&task.goal).unwrap();
    let relaxed = build_relaxed_model(&task, &grounded);
    let max_goal_adds = goal_add_upper_bound(&task, &goals);
    let estimator = Estimator::new(&task);

    let mut queue = vec![task.initial.clone()];
    let mut reachable = vec![task.initial.clone()];
    let mut saw_hmax_dominate_cover = false;
    let mut saw_cover_dominate_hmax = false;
    let mut head = 0;
    while head < queue.len() {
        let state = queue[head].clone();
        head += 1;
        let distance = exact_distance(&task, &state).expect("all reachable states can reach the goal");
        let estimate = estimator.heuristic(&state) as usize;
        let h_max = relaxed_hmax(&relaxed, &goals, &state).unwrap() as usize;
        let h_cover = goal_cover(&goals, &state, Some(max_goal_adds)).unwrap() as usize;
        assert_eq!(estimate, h_max.max(h_cover));
        saw_hmax_dominate_cover |= h_max > h_cover;
        saw_cover_dominate_hmax |= h_cover > h_max;
        assert!(
            estimate <= distance,
            "heuristic {estimate} overestimates distance {distance} from {state:?}"
        );
        for next in successors(&task, &state) {
            let next_estimate = estimator.heuristic(&next) as usize;
            assert!(
                estimate <= 1 + next_estimate,
                "inconsistent edge h({state:?})={estimate} -> h({next:?})={next_estimate}"
            );
            if !reachable.contains(&next) {
                reachable.push(next.clone());
                queue.push(next);
            }
        }
    }
    assert!(saw_hmax_dominate_cover);
    assert!(saw_cover_dominate_hmax);
    assert!(reachable.contains(&State::from_atoms(vec![
        ground("ready"),
        ground("a"),
        ground("b"),
        ground("c"),
    ])));
}

#[test]
fn goal_cover_divides_missing_goals_by_the_widest_action() {
    let goals = State::from_atoms(vec![ground("a"), ground("b"), ground("c"), ground("d"), ground("e")]);
    let state = State::from_atoms(vec![ground("a")]);
    assert_eq!(goal_cover(&goals, &state, Some(1)), Some(4));
    assert_eq!(goal_cover(&goals, &state, Some(2)), Some(2));
    assert_eq!(goal_cover(&goals, &state, Some(3)), Some(2));
    assert_eq!(goal_cover(&goals, &state, Some(4)), Some(1));
    assert_eq!(goal_cover(&goals, &state, Some(0)), None);
    assert_eq!(goal_cover(&goals, &state, None), None);
    assert_eq!(goal_cover(&goals, &goals, Some(0)), Some(0));
    assert_eq!(goal_cover(&goals, &goals, None), Some(0));
}

#[test]
fn hmax_counts_relaxed_layers_and_detects_relaxed_dead_ends() {
    let task = heuristic_task();
    let grounded = ground_actions(&task);
    assert_eq!(grounded.len(), task.actions.len());
    let relaxed = build_relaxed_model(&task, &grounded);
    let goals = positive_ground_goal(&task.goal).unwrap();
    assert_eq!(relaxed_hmax(&relaxed, &goals, &State::new()), Some(2));
    assert_eq!(
        relaxed_hmax(&relaxed, &goals, &State::from_atoms(vec![ground("ready")])),
        Some(1)
    );
    assert_eq!(relaxed_hmax(&relaxed, &goals, &goals), Some(0));
    let unreachable = State::from_atoms(vec![ground("z")]);
    assert_eq!(relaxed_hmax(&relaxed, &unreachable, &State::new()), None);
}

#[test]
fn positive_ground_goal_collects_conjunctions_of_ground_atoms_only() {
    let goal = Formula::And(vec![
        Formula::Atom(atom("a")),
        Formula::And(vec![Formula::Atom(atom("b")), Formula::Atom(atom("a"))]),
    ]);
    assert_eq!(
        positive_ground_goal(&goal),
        Some(State::from_atoms(vec![ground("a"), ground("b")]))
    );
    assert_eq!(positive_ground_goal(&Formula::And(vec![])), Some(State::new()));
    let negated = Formula::Not(Box::new(Formula::Atom(atom("a"))));
    assert_eq!(positive_ground_goal(&negated), None);
    let variable = Formula::Atom(Atom {
        predicate: "at".into(),
        terms: vec![Term::Variable("x".into())],
    });
    assert_eq!(positive_ground_goal(&variable), None);
    let disjunction = Formula::Or(vec![Formula::Atom(atom("a"))]);
    assert_eq!(positive_ground_goal(&disjunction), None);
}

#[test]
fn goal_add_bound_counts_distinct_goal_like_effects() {
    let task = heuristic_task();
    let goals = positive_ground_goal(&task.goal).unwrap();
    assert_eq!(goal_add_upper_bound(&task, &goals), 1);
    let mut wide = task.clone();
    wide.actions.push(Action {
        name: "get-all".into(),
        parameters: vec![],
        precondition: Formula::And(vec![]),
        add: vec![atom("a"), atom("b"), atom("a"), atom("ready")],
        delete: vec![],
    });
    assert_eq!(goal_add_upper_bound(&wide, &goals), 2);
}

#[test]
fn unsupported_goal_structure_gives_a_zero_estimate_and_no_pruning() {
    let mut task = heuristic_task();
    task.goal = Formula::Not(Box::new(Formula::Atom(atom("a"))));
    let estimator = Estimator::new(&task);
    let state = State::from_atoms(vec![ground("a")]);
    assert_eq!(estimator.heuristic(&state), 0);
    assert!(!estimator.is_dead_end(&state));
}

#[test]
fn dead_ends_are_states_no_action_can_repair() {
    let task = nullary_task(
        "one-way",
        &["key", "door"],
        vec![Action {
            name: "open".into(),
            parameters: vec![],
            precondition: Formula::Atom(atom("key")),
            add: vec![atom("door")],
            delete: vec![atom("key")],
        }],
        State::from_atoms(vec![ground("key")]),
        Formula::Atom(atom("door")),
    );
    let estimator = Estimator::new(&task);
    assert_eq!(estimator.heuristic(&task.initial), 1);
    assert!(!estimator.is_dead_end(&task.initial));
    assert!(estimator.is_dead_end(&State::new()));
    assert_eq!(estimator.heuristic(&State::from_atoms(vec![ground("door")])), 0);
    assert!(matches!(
        solve(&from_state(&task, &State::new()), SearchLimits::default()).unwrap(),
        SearchOutcome::Unsolvable { .. }
    ));
}

#[test]
fn typed_ground_action_count_multiplies_parameter_domains() {
    let mut task = heuristic_task();
    task.types = vec!["place".into()];
    task.objects = ["x", "y", "z"]
        .iter()
        .map(|name| Binding {
            name: (*name).into(),
            ty: "place".into(),
        })
        .collect();
    task.actions.push(Action {
        name: "go".into(),
        parameters: vec![
            Binding {
                name: "from".into(),
                ty: "place".into(),
            },
            Binding {
                name: "to".into(),
                ty: "place".into(),
            },
        ],
        precondition: Formula::And(vec![]),
        add: vec![],
        delete: vec![],
    });
    assert_eq!(typed_ground_action_count(&task, 100), Some(6 + 9));
    assert_eq!(typed_ground_action_count(&task, 14), None);
    assert_eq!(ground_actions(&task).len(), 15);
}
