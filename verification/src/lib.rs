use vstd::prelude::*;

mod dsl;
mod grammar;
mod location;
mod logic;
mod model;
mod order;
mod pddl;
mod pddl_rules;
mod planner;
mod relaxed;
mod syntax;
mod text;

pub use dsl::{lex, parse_dsl, Symbol, Token, TokenKind};
pub use location::location;
pub use logic::{evaluate, validate};
pub use model::{Action, Atom, AtomV, Binding, Error, ErrorKind, Formula, GroundAction, GroundAtom, Plan, Predicate, SearchLimits, SearchOutcome, State, Task, Term};
pub use pddl::parse_pddl;
pub use planner::{replay, solve};
pub use relaxed::{
    build_relaxed_model, goal_add_upper_bound, goal_cover, ground_actions, holds_all_atoms, positive_ground_goal, relaxed_hmax,
    typed_ground_action_count, Estimator, RelaxedAction,
};

verus! {
} // verus!
