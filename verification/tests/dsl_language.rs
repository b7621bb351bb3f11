use pddl_fol::{lex, parse_dsl, Formula, Symbol, TokenKind};

const SAMPLE: &str = r#"
    problem demo {
        types block, surface;
        objects { a, b, c: block; table: surface; }
        predicates { On(block, object); Ready(); }
        init: On(b, table) and On(a, table) and On(c, a);
        goal: On(a, b) and On(b, c) and On(c, table);
        action Move(b: block, from: object, to: object) {
            pre: On(b, from) and b != to and from != to and
                (forall z: block . not On(z, b)) and
                (to != table implies (forall z: block . not On(z, to)));
            effect: not On(b, from) and On(b, to);
        }
    }
"#;

#[test]
fn parses_infix_sections_bindings_quantifiers_and_effects() {
    let task = parse_dsl(SAMPLE).unwrap();
    assert_eq!(task.name, "demo");
    assert_eq!(task.types, ["block", "surface"]);
    assert_eq!(task.objects.len(), 4);
    assert_eq!(task.initial.len(), 3);
    assert_eq!(task.actions[0].parameters[0].name, "b");
    assert_eq!(task.actions[0].delete.len(), 1);
    assert_eq!(task.actions[0].add.len(), 1);
    let Formula::And(preconditions) = &task.actions[0].precondition else {
        panic!("conjunction expected")
    };
    assert!(preconditions
        .iter()
        .any(|f| matches!(f, Formula::Forall(_, _))));
    assert!(preconditions
        .iter()
        .any(|f| matches!(f, Formula::Implies(_, _))));
    let Formula::And(goals) = &task.goal else {
        panic!("conjunction expected")
    };
    assert_eq!(goals.len(), 3);
}

#[test]
fn word_operators_and_arrow_without_spaces_work() {
    let source = r#"problem logic {
        types;
        objects {}
        predicates { P(); Q(); }
        init: true;
        goal: forall x: object . (P() and not Q()) implies (P() or Q());
    }"#;
    let task = parse_dsl(source).unwrap();
    assert!(matches!(task.goal, Formula::Forall(_, _)));
    let tokens = lex("a->b").unwrap();
    assert_eq!(tokens[0].kind, TokenKind::Name("a".into()));
    assert_eq!(tokens[1].kind, TokenKind::Symbol(Symbol::Implies));
}

#[test]
fn rejects_bad_sections_formula_forms_and_unsupported_effects() {
    assert!(parse_dsl("problem x { types; objects {} predicates {}; init: true; }").is_err());
    assert!(parse_dsl(
        "problem x { types; types; objects {} predicates {}; init: true; goal: true; }"
    )
    .is_err());
    assert!(parse_dsl(
        "problem x { types; objects {} predicates { true(); } init: true; goal: true; }"
    )
    .is_err());
    let source = SAMPLE.replace(
        "effect: not On(b, from) and On(b, to);",
        "effect: On(b, from) | On(b, to);",
    );
    assert!(parse_dsl(&source).is_err());
    let source = SAMPLE.replace(
        "init: On(b, table) and On(a, table) and On(c, a);",
        "init: !On(b, table);",
    );
    assert!(parse_dsl(&source).is_err());
}

#[test]
fn lexer_normalizes_case_and_reports_positions() {
    let tokens = lex("Move(A_1-b) // note\n  x != y").unwrap();
    assert_eq!(tokens[0].kind, TokenKind::Name("move".into()));
    assert_eq!((tokens[0].line, tokens[0].column), (1, 1));
    assert_eq!(tokens[2].kind, TokenKind::Name("a_1-b".into()));
    assert_eq!((tokens[2].line, tokens[2].column), (1, 6));
    assert_eq!(tokens[4].kind, TokenKind::Name("x".into()));
    assert_eq!((tokens[4].line, tokens[4].column), (2, 3));
    assert_eq!(tokens[5].kind, TokenKind::Symbol(Symbol::NotEqual));
    assert_eq!(tokens.last().unwrap().kind, TokenKind::End);
    assert_eq!(
        lex("a # b").unwrap_err().to_string(),
        "1:3: unexpected character '#'"
    );
}

#[test]
fn parser_errors_name_the_offending_token() {
    assert_eq!(
        parse_dsl("problem x {\n  what;\n}").unwrap_err().to_string(),
        "2:3: unknown section 'what'"
    );
    assert_eq!(
        parse_dsl("problem true { }").unwrap_err().to_string(),
        "1:9: reserved word 'true' cannot be used as a name"
    );
    assert_eq!(
        parse_dsl("problem x { types; objects {} predicates {} init: true; }")
            .unwrap_err()
            .to_string(),
        "1:57: missing required goal section"
    );
}

#[test]
fn letter_case_does_not_change_tokens() {
    let upper = lex("PROBLEM X { GOAL: FORALL Y:OBJECT . P(Y) -> NOT Q(Y); }").unwrap();
    let lower = lex("problem x { goal: forall y:object . p(y) -> not q(y); }").unwrap();
    assert_eq!(upper, lower);
    assert_eq!(
        lex("// ok\nÄ").unwrap_err().to_string(),
        lex("// OK\nÄ").unwrap_err().to_string()
    );
}

#[test]
fn grammar_errors_carry_their_source_position() {
    let error = parse_dsl("problem x {\n  what;\n}").unwrap_err();
    assert!(error.to_string().starts_with("2:3: "), "{}", error.to_string());
    assert!(error.to_string().contains("unknown section"));
}

#[test]
fn grammar_errors_name_the_token_where_reading_stops() {
    let cases = [
        ("problem x {\n  types;\n  types;\n}", "3:3: duplicate types section"),
        ("problem x {\n  types;\n}", "3:1: missing required objects section"),
        ("problem x {\n  goal: a(;\n}", "2:11: expected an identifier"),
        (
            "problem x {\n  action a() { pre: true; }\n}",
            "2:27: action is missing effect",
        ),
        (
            "problem x {\n  action a() { effect: a() | b(); }\n}",
            "2:32: effects support only atoms, negated atoms, and conjunctions",
        ),
        (
            "problem x {\n  init: forall y: t. f(y);\n}",
            "2:25: init supports only positive atoms joined by conjunction",
        ),
        ("problem true {}", "1:9: reserved word 'true' cannot be used as a name"),
        ("problem x {\n  goal: true\n}", "3:1: expected ';'"),
    ];
    for (source, expected) in cases {
        assert_eq!(parse_dsl(source).unwrap_err().to_string(), expected, "{source}");
    }
}
