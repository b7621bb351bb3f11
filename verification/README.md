# pddl_fol

Classical planning over finite first-order models, verified with Verus.

A task lists flat types, typed objects, predicates, action schemas with first-order
preconditions and add/delete effects, an initial state of ground atoms, and a closed goal
formula. Tasks are read from a brace-based infix language (`parse_dsl`) or from a PDDL
subset (`parse_pddl`), checked (`validate`), and solved by breadth-first search over
distinct states (`solve`). Plans can be replayed (`replay`) and formulas evaluated in any
state (`evaluate`). Semantics follow the closed-world and unique-name assumptions: the
declared objects are the whole domain and atoms absent from a state are false.

## Layout

- `src/model.rs` — the data model; `State` keeps its atoms sorted and unique.
- `src/logic.rs` — the truth of formulas (`holds`), task well-formedness (`task_valid`),
  `validate` and `evaluate`.
- `src/planner.rs` — the transition semantics (`successor`, `run`, `is_plan`), `replay`,
  lazy grounding by joining precondition atoms with state facts, and `solve`.
- `src/relaxed.rs` — the delete relaxation of a task, the `h_max` and goal-cover estimates,
  and `Estimator`, which combines them and flags dead ends.
- `src/dsl.rs`, `src/pddl.rs`, `src/syntax.rs` — the two parsers and the lexical rules they
  share; `src/grammar.rs` and `src/pddl_rules.rs` state the two grammars as spec functions.
- `src/location.rs` — line and column positions of byte offsets.
- `src/order.rs`, `src/text.rs` — orderings of names and string helpers.
- `app/` — the command-line tool (`solve`, `pddl`, `check`, `check-pddl`, `lsp`) and a
  small language server; it does the file and terminal I/O.

## What is proved

- `validate` succeeds exactly on well-formed tasks, and otherwise reports the first failed
  check with its message (`validation_error`); `evaluate` returns the truth of a closed
  formula under the finite-domain semantics. `solve` and `replay` never search or run an
  invalid task: they return the error `validate` reports.
- `replay` succeeds exactly when every step is applicable in turn, and returns the state
  reached.
- `solve` returns a plan that replays to its final state and reaches the goal, and no plan
  is shorter; its final state is well-typed. `Unsolvable` means no plan exists at all and
  counts the reachable states. `LimitReached` means that more than `max_states` distinct
  states lie within one step beyond the depth searched, and that no plan is shorter than that
  depth. The grounding limit counts the distinct candidates generated from expanded states,
  found by joining the atoms a precondition requires with the facts of each state. When
  search fails with it, some sequence of reachable states starting at the initial state
  generates more than `max_ground_actions` candidates; when it returns a result, the states
  it expanded, every state of a returned plan but the last among them, generate no more.
- `replay` reports the first step that cannot run: unknown action, wrong arguments, or an
  inapplicable step, with the message each produces.
- Parse errors carry a `line:column:` prefix (for PDDL, every error but an unexpected end of
  input); lexical errors are stated exactly, with their position and text. For the DSL,
  every grammar error is stated exactly too (`g_task_failure`): the token where reading
  stops and what was wrong there. For PDDL, so is a text that is not one s-expression
  (`sexp_failure`).
- `parse_dsl` and `parse_pddl` accept exactly the inputs their grammars accept and return
  the task the grammar assigns.
- The estimate of `Estimator` is admissible (never above the length of a run to a goal
  state), zero in goal states, and consistent on every step that does not lead into a dead
  end (one such step lowers it by at most one); a state it marks as a dead end has no run to
  a goal state. Search itself is breadth-first and does not use the estimate.
- The DSL lexer follows a declarative token specification (`lex_from`), is insensitive to
  letter case, and rejects non-ASCII input; every name in a parsed task is a lowercase
  identifier.
