//! Validation of tasks and evaluation of first-order formulas over finite states.
use vstd::prelude::*;

use crate::model::{Atom, AtomV, Binding, Error, ErrorKind, Formula, GroundAtom, State, Task, Term};
use crate::text::{concat3, concat5, is_object_type, string_is_empty};

verus! {

/// The most nesting levels, parameters, or combined nesting and quantified bindings accepted.
pub const MAX_RECURSION: usize = 256;

/// Variable bindings: pairs of a name and a value, where later pairs shadow earlier ones.
pub type Env = Seq<(Seq<char>, Seq<char>)>;

/// The value bound to `name`, looking from the most recent binding.
pub open spec fn lookup(env: Env, name: Seq<char>) -> Option<Seq<char>>
    decreases env.len(),
{
    if env.len() == 0 {
        None
    } else if env.last().0 == name {
        Some(env.last().1)
    } else {
        lookup(env.drop_last(), name)
    }
}

/// The abstract value of an executable environment.
pub open spec fn env_view(env: Seq<(String, String)>) -> Env {
    env.map_values(|p: (String, String)| (p.0@, p.1@))
}

/// Whether two environments bind the same names in the same order.
pub open spec fn same_names(a: Env, b: Env) -> bool {
    &&& a.len() == b.len()
    &&& forall|i: int| 0 <= i < a.len() ==> (#[trigger] a[i]).0 == b[i].0
}

/// The object a term denotes under `env`.
pub open spec fn term_value(t: Term, env: Env) -> Seq<char> {
    match t {
        Term::Constant(n) => n@,
        Term::Variable(n) => match lookup(env, n@) {
            Some(v) => v,
            None => n@,
        },
    }
}

/// The ground atom an atom denotes under `env`.
pub open spec fn ground(a: Atom, env: Env) -> AtomV {
    (a.predicate@, a.terms@.map_values(|t: Term| term_value(t, env)))
}

/// Whether an object belongs to a type; every object belongs to `object`.
pub open spec fn of_type(obj: Binding, ty: Seq<char>) -> bool {
    ty == "object"@ || obj.ty@ == ty
}

/// The truth of a formula in a state, over the finite domain `objs`, under `env`.
///
/// Atoms absent from the state are false; equality compares object names; quantifiers
/// range over the objects of the bound type.
pub open spec fn holds(objs: Seq<Binding>, st: Set<AtomV>, f: Formula, env: Env) -> bool
    decreases f, 0int, 0int,
{
    match f {
        Formula::Atom(a) => st.contains(ground(a, env)),
        Formula::Equal(l, r) => term_value(l, env) == term_value(r, env),
        Formula::Not(g) => !holds(objs, st, *g, env),
        Formula::And(ps) => holds_all(objs, st, ps@, env),
        Formula::Or(ps) => holds_any(objs, st, ps@, env),
        Formula::Implies(l, r) => !holds(objs, st, *l, env) || holds(objs, st, *r, env),
        Formula::Exists(bs, g) => holds_exists(objs, st, bs@, *g, env),
        Formula::Forall(bs, g) => holds_forall(objs, st, bs@, *g, env),
    }
}

/// Every formula of `ps` holds.
pub open spec fn holds_all(objs: Seq<Binding>, st: Set<AtomV>, ps: Seq<Formula>, env: Env) -> bool
    decreases ps, 0int, 0int,
{
    if ps.len() == 0 {
        true
    } else {
        holds(objs, st, ps[0], env) && holds_all(objs, st, ps.drop_first(), env)
    }
}

/// Some formula of `ps` holds.
pub open spec fn holds_any(objs: Seq<Binding>, st: Set<AtomV>, ps: Seq<Formula>, env: Env) -> bool
    decreases ps, 0int, 0int,
{
    if ps.len() == 0 {
        false
    } else {
        holds(objs, st, ps[0], env) || holds_any(objs, st, ps.drop_first(), env)
    }
}

/// Some objects of the bound types, bound in order, make `g` true.
pub open spec fn holds_exists(objs: Seq<Binding>, st: Set<AtomV>, bs: Seq<Binding>, g: Formula, env: Env) -> bool
    decreases g, bs.len() + 1, 0int,
{
    if bs.len() == 0 {
        holds(objs, st, g, env)
    } else {
        exists_from(objs, st, bs, g, env, 0)
    }
}

/// Some object from index `k` on, of the first binding's type, bound to it, makes the
/// remaining existential true.
pub open spec fn exists_from(objs: Seq<Binding>, st: Set<AtomV>, bs: Seq<Binding>, g: Formula, env: Env, k: int) -> bool
    decreases g, bs.len(), objs.len() - k,
{
    if bs.len() == 0 || k < 0 || k >= objs.len() {
        false
    } else {
        (of_type(objs[k], bs[0].ty@) && holds_exists(objs, st, bs.drop_first(), g, env.push((bs[0].name@, objs[k].name@))))
            || exists_from(objs, st, bs, g, env, k + 1)
    }
}

/// All objects of the bound types, bound in order, make `g` true.
pub open spec fn holds_forall(objs: Seq<Binding>, st: Set<AtomV>, bs: Seq<Binding>, g: Formula, env: Env) -> bool
    decreases g, bs.len() + 1, 0int,
{
    if bs.len() == 0 {
        holds(objs, st, g, env)
    } else {
        forall_from(objs, st, bs, g, env, 0)
    }
}

/// Every object from index `k` on, of the first binding's type, bound to it, makes the
/// remaining universal true.
pub open spec fn forall_from(objs: Seq<Binding>, st: Set<AtomV>, bs: Seq<Binding>, g: Formula, env: Env, k: int) -> bool
    decreases g, bs.len(), objs.len() - k,
{
    if bs.len() == 0 || k < 0 || k >= objs.len() {
        true
    } else {
        (of_type(objs[k], bs[0].ty@) ==> holds_forall(objs, st, bs.drop_first(), g, env.push((bs[0].name@, objs[k].name@))))
            && forall_from(objs, st, bs, g, env, k + 1)
    }
}

// ----------------------------------------------------------------------------------------------
// Well-formedness of tasks
// ----------------------------------------------------------------------------------------------

/// Whether `ty` is `object` or a declared type.
pub open spec fn known_type(types: Seq<String>, ty: Seq<char>) -> bool {
    ty == "object"@ || exists|i: int| 0 <= i < types.len() && (#[trigger] types[i])@ == ty
}

/// Whether a term of type `ty` may stand where `expected` is required.
pub open spec fn expected_ok(ty: Seq<char>, expected: Option<Seq<char>>) -> bool {
    match expected {
        None => true,
        Some(e) => e == "object"@ || ty == e,
    }
}

/// Whether some object named `name` may stand where `expected` is required.
pub open spec fn object_ok(objs: Seq<Binding>, name: Seq<char>, expected: Option<Seq<char>>) -> bool {
    exists|k: int| 0 <= k < objs.len() && (#[trigger] objs[k]).name@ == name && expected_ok(objs[k].ty@, expected)
}

/// Whether a term is bound (variables) or declared (objects) and has an acceptable type.
pub open spec fn term_ok(task: Task, t: Term, scope: Env, expected: Option<Seq<char>>) -> bool {
    match t {
        Term::Variable(n) => match lookup(scope, n@) {
            Some(ty) => expected_ok(ty, expected),
            None => false,
        },
        Term::Constant(n) => object_ok(task.objects@, n@, expected),
    }
}

/// Whether an atom applies a declared predicate to well-typed terms.
pub open spec fn atom_ok(task: Task, a: Atom, scope: Env) -> bool {
    exists|k: int|
        0 <= k < task.predicates@.len() && (#[trigger] task.predicates@[k]).name@ == a.predicate@
            && task.predicates@[k].parameters@.len() == a.terms@.len() && forall|i: int|
            0 <= i < a.terms@.len() ==> term_ok(
                task,
                #[trigger] a.terms@[i],
                scope,
                Some(task.predicates@[k].parameters@[i]@),
            )
}

/// Whether a ground atom applies a declared predicate to well-typed objects.
pub open spec fn ground_atom_ok(task: Task, x: AtomV) -> bool {
    exists|k: int|
        0 <= k < task.predicates@.len() && (#[trigger] task.predicates@[k]).name@ == x.0
            && task.predicates@[k].parameters@.len() == x.1.len() && forall|i: int|
            0 <= i < x.1.len() ==> object_ok(
                task.objects@,
                #[trigger] x.1[i],
                Some(task.predicates@[k].parameters@[i]@),
            )
}

/// The scope opened by a list of bindings.
pub open spec fn binding_scope(bs: Seq<Binding>) -> Env {
    bs.map_values(|b: Binding| (b.name@, b.ty@))
}

/// Whether binding names are non-empty and distinct, and their types known.
pub open spec fn bindings_ok(types: Seq<String>, bs: Seq<Binding>) -> bool {
    &&& forall|i: int| 0 <= i < bs.len() ==> (#[trigger] bs[i]).name@.len() > 0
    &&& forall|i: int| 0 <= i < bs.len() ==> known_type(types, (#[trigger] bs[i]).ty@)
    &&& forall|i: int, j: int| 0 <= i < j < bs.len() ==> (#[trigger] bs[i]).name@ != (#[trigger] bs[j]).name@
}

/// Whether every atom and term in a formula is declared, bound, and well-typed.
pub open spec fn formula_ok(task: Task, f: Formula, scope: Env) -> bool
    decreases f, 0int,
{
    match f {
        Formula::Atom(a) => atom_ok(task, a, scope),
        Formula::Equal(l, r) => term_ok(task, l, scope, None) && term_ok(task, r, scope, None),
        Formula::Not(g) => formula_ok(task, *g, scope),
        Formula::And(ps) => formulas_ok(task, ps@, scope),
        Formula::Or(ps) => formulas_ok(task, ps@, scope),
        Formula::Implies(l, r) => formula_ok(task, *l, scope) && formula_ok(task, *r, scope),
        Formula::Exists(bs, g) => bindings_ok(task.types@, bs@) && formula_ok(task, *g, scope + binding_scope(bs@)),
        Formula::Forall(bs, g) => bindings_ok(task.types@, bs@) && formula_ok(task, *g, scope + binding_scope(bs@)),
    }
}

pub open spec fn formulas_ok(task: Task, ps: Seq<Formula>, scope: Env) -> bool
    decreases ps, 0int,
{
    if ps.len() == 0 {
        true
    } else {
        formula_ok(task, ps[0], scope) && formulas_ok(task, ps.drop_first(), scope)
    }
}

/// Whether every node of a formula lies within the nesting limit, counting each quantified
/// binding as one level, when the formula itself stands at level `d`.
pub open spec fn depth_ok(f: Formula, d: int) -> bool
    decreases f, 0int,
{
    d <= MAX_RECURSION && match f {
        Formula::Not(g) => depth_ok(*g, d + 1),
        Formula::And(ps) => depths_ok(ps@, d + 1),
        Formula::Or(ps) => depths_ok(ps@, d + 1),
        Formula::Implies(l, r) => depth_ok(*l, d + 1) && depth_ok(*r, d + 1),
        Formula::Exists(bs, g) => depth_ok(*g, d + bs@.len() + 1),
        Formula::Forall(bs, g) => depth_ok(*g, d + bs@.len() + 1),
        _ => true,
    }
}

pub open spec fn depths_ok(ps: Seq<Formula>, d: int) -> bool
    decreases ps, 0int,
{
    if ps.len() == 0 {
        true
    } else {
        depth_ok(ps[0], d) && depths_ok(ps.drop_first(), d)
    }
}

pub open spec fn distinct_names(v: Seq<String>) -> bool {
    forall|i: int, j: int| 0 <= i < j < v.len() ==> (#[trigger] v[i])@ != (#[trigger] v[j])@
}

pub open spec fn types_ok(task: Task) -> bool {
    &&& distinct_names(task.types@)
    &&& forall|i: int| 0 <= i < task.types@.len() ==> (#[trigger] task.types@[i])@ != "object"@
    &&& forall|i: int| 0 <= i < task.types@.len() ==> (#[trigger] task.types@[i])@.len() > 0
}

pub open spec fn objects_ok(task: Task) -> bool {
    &&& forall|i: int| 0 <= i < task.objects@.len() ==> (#[trigger] task.objects@[i]).name@.len() > 0
    &&& forall|i: int| 0 <= i < task.objects@.len() ==> known_type(task.types@, (#[trigger] task.objects@[i]).ty@)
    &&& forall|i: int, j: int|
        0 <= i < j < task.objects@.len() ==> (#[trigger] task.objects@[i]).name@ != (#[trigger] task.objects@[j]).name@
}

pub open spec fn predicates_ok(task: Task) -> bool {
    &&& forall|i: int| 0 <= i < task.predicates@.len() ==> (#[trigger] task.predicates@[i]).name@.len() > 0
    &&& forall|i: int, j: int|
        0 <= i < task.predicates@.len() && 0 <= j < task.predicates@[i].parameters@.len() ==> known_type(
            task.types@,
            (#[trigger] task.predicates@[i].parameters@[j])@,
        )
    &&& forall|i: int, j: int|
        0 <= i < j < task.predicates@.len() ==> (#[trigger] task.predicates@[i]).name@ != (
        #[trigger] task.predicates@[j]).name@
}

/// Whether an action schema is well-formed in the task.
pub open spec fn action_ok(task: Task, a: crate::model::Action) -> bool {
    &&& a.parameters@.len() <= MAX_RECURSION
    &&& a.name@.len() > 0
    &&& bindings_ok(task.types@, a.parameters@)
    &&& depth_ok(a.precondition, 0)
    &&& formula_ok(task, a.precondition, binding_scope(a.parameters@))
    &&& forall|i: int| 0 <= i < a.add@.len() ==> atom_ok(task, #[trigger] a.add@[i], binding_scope(a.parameters@))
    &&& forall|i: int| 0 <= i < a.delete@.len() ==> atom_ok(task, #[trigger] a.delete@[i], binding_scope(a.parameters@))
}

pub open spec fn actions_ok(task: Task) -> bool {
    &&& forall|i: int| 0 <= i < task.actions@.len() ==> action_ok(task, #[trigger] task.actions@[i])
    &&& forall|i: int, j: int|
        0 <= i < j < task.actions@.len() ==> (#[trigger] task.actions@[i]).name@ != (#[trigger] task.actions@[j]).name@
}

/// Whether every atom of a state is well-formed in the task.
pub open spec fn state_ok(task: Task, st: Set<AtomV>) -> bool {
    forall|x: AtomV| st.contains(x) ==> ground_atom_ok(task, x)
}

/// A task is valid when its declarations are unique and well-typed, every formula and effect
/// is closed over its scope and well-typed, nesting stays within the limit, and the initial
/// state holds only well-typed atoms.
pub open spec fn task_valid(task: Task) -> bool {
    &&& types_ok(task)
    &&& objects_ok(task)
    &&& predicates_ok(task)
    &&& actions_ok(task)
    &&& state_ok(task, task.initial@)
    &&& depth_ok(task.goal, 0)
    &&& formula_ok(task, task.goal, Seq::empty())
}

// ----------------------------------------------------------------------------------------------
// What validation reports
// ----------------------------------------------------------------------------------------------

/// The first of two possible errors.
pub open spec fn first_error(a: Option<Seq<char>>, b: Option<Seq<char>>) -> Option<Seq<char>> {
    if a is Some {
        a
    } else {
        b
    }
}

/// The index of the first object named `name`, from index `k` on.
pub open spec fn object_from(objs: Seq<Binding>, name: Seq<char>, k: int) -> Option<int>
    decreases objs.len() - k,
{
    if k < 0 || k >= objs.len() {
        None
    } else if objs[k].name@ == name {
        Some(k)
    } else {
        object_from(objs, name, k + 1)
    }
}

/// The index of the first predicate named `name`, from index `k` on.
pub open spec fn predicate_from(preds: Seq<crate::model::Predicate>, name: Seq<char>, k: int) -> Option<int>
    decreases preds.len() - k,
{
    if k < 0 || k >= preds.len() {
        None
    } else if preds[k].name@ == name {
        Some(k)
    } else {
        predicate_from(preds, name, k + 1)
    }
}

/// "`kind` `name` has type `actual`, expected `expected`".
pub open spec fn mismatch_message(kind: Seq<char>, name: Seq<char>, actual: Seq<char>, expected: Seq<char>) -> Seq<char> {
    kind + " `"@ + name + "` has type `"@ + actual + "`, expected `"@ + expected + "`"@
}

/// "predicate `name` expects `n` arguments, got `m`".
pub open spec fn arity_message(name: Seq<char>, n: nat, m: nat) -> Seq<char> {
    "predicate `"@ + name + "` expects "@ + crate::text::decimal(n) + " arguments, got "@ + crate::text::decimal(m)
}

/// The message for a formula beyond the nesting limit.
pub open spec fn depth_message() -> Seq<char> {
    "formula exceeds the 256-level nesting/binding limit"@
}

/// What is wrong with a term, if anything: an unbound variable, an unknown object, or a type
/// other than the one expected.
pub open spec fn term_error(task: Task, t: Term, scope: Env, expected: Option<Seq<char>>) -> Option<Seq<char>> {
    match t {
        Term::Variable(n) => match lookup(scope, n@) {
            None => Some("unbound variable `"@ + n@ + "`"@),
            Some(ty) => if expected_ok(ty, expected) {
                None
            } else {
                Some(mismatch_message("term"@, n@, ty, expected.unwrap()))
            },
        },
        Term::Constant(n) => match object_from(task.objects@, n@, 0) {
            None => Some("unknown object `"@ + n@ + "`"@),
            Some(k) => if expected_ok(task.objects@[k].ty@, expected) {
                None
            } else {
                Some(mismatch_message("term"@, n@, task.objects@[k].ty@, expected.unwrap()))
            },
        },
    }
}

/// The first error among the terms from index `i` on, each expected to have the type of the
/// parameter at its position.
pub open spec fn terms_error_from(task: Task, ts: Seq<Term>, scope: Env, params: Seq<String>, i: int) -> Option<Seq<char>>
    decreases ts.len() - i,
{
    if i < 0 || i >= ts.len() {
        None
    } else {
        first_error(term_error(task, ts[i], scope, Some(params[i]@)), terms_error_from(task, ts, scope, params, i + 1))
    }
}

/// What is wrong with an atom, if anything: an unknown predicate, a wrong number of terms,
/// or the first bad term.
pub open spec fn atom_error(task: Task, a: Atom, scope: Env) -> Option<Seq<char>> {
    match predicate_from(task.predicates@, a.predicate@, 0) {
        None => Some("unknown predicate `"@ + a.predicate@ + "`"@),
        Some(k) => if task.predicates@[k].parameters@.len() != a.terms@.len() {
            Some(arity_message(a.predicate@, task.predicates@[k].parameters@.len(), a.terms@.len()))
        } else {
            terms_error_from(task, a.terms@, scope, task.predicates@[k].parameters@, 0)
        },
    }
}

/// The first error among the arguments of a ground atom from index `i` on.
pub open spec fn args_error_from(task: Task, args: Seq<Seq<char>>, params: Seq<String>, i: int) -> Option<Seq<char>>
    decreases args.len() - i,
{
    if i < 0 || i >= args.len() {
        None
    } else {
        let here = match object_from(task.objects@, args[i], 0) {
            None => Some("unknown object `"@ + args[i] + "`"@),
            Some(k) => if expected_ok(task.objects@[k].ty@, Some(params[i]@)) {
                None
            } else {
                Some(mismatch_message("object"@, args[i], task.objects@[k].ty@, params[i]@))
            },
        };
        first_error(here, args_error_from(task, args, params, i + 1))
    }
}

/// What is wrong with a ground atom, if anything.
pub open spec fn ground_atom_error(task: Task, x: AtomV) -> Option<Seq<char>> {
    match predicate_from(task.predicates@, x.0, 0) {
        None => Some("unknown predicate `"@ + x.0 + "`"@),
        Some(k) => if task.predicates@[k].parameters@.len() != x.1.len() {
            Some(arity_message(x.0, task.predicates@[k].parameters@.len(), x.1.len()))
        } else {
            args_error_from(task, x.1, task.predicates@[k].parameters@, 0)
        },
    }
}

/// The first error among quantified bindings from index `i` on: an empty name, an unknown
/// type, or a name bound earlier in the same list.
pub open spec fn bindings_error_from(types: Seq<String>, bs: Seq<Binding>, i: int) -> Option<Seq<char>>
    decreases bs.len() - i,
{
    if i < 0 || i >= bs.len() {
        None
    } else if bs[i].name@.len() == 0 {
        Some("quantified variable names must not be empty"@)
    } else if !known_type(types, bs[i].ty@) {
        Some("unknown quantified type `"@ + bs[i].ty@ + "`"@)
    } else if exists|j: int| 0 <= j < i && (#[trigger] bs[j]).name@ == bs[i].name@ {
        Some("duplicate quantified variable `"@ + bs[i].name@ + "`"@)
    } else {
        bindings_error_from(types, bs, i + 1)
    }
}

/// The first error in a formula, visiting subformulas from left to right.
pub open spec fn formula_error(task: Task, f: Formula, scope: Env) -> Option<Seq<char>>
    decreases f, 0int,
{
    match f {
        Formula::Atom(a) => atom_error(task, a, scope),
        Formula::Equal(l, r) => first_error(term_error(task, l, scope, None), term_error(task, r, scope, None)),
        Formula::Not(g) => formula_error(task, *g, scope),
        Formula::And(ps) => formulas_error(task, ps@, scope),
        Formula::Or(ps) => formulas_error(task, ps@, scope),
        Formula::Implies(l, r) => first_error(formula_error(task, *l, scope), formula_error(task, *r, scope)),
        Formula::Exists(bs, g) => first_error(
            bindings_error_from(task.types@, bs@, 0),
            formula_error(task, *g, scope + binding_scope(bs@)),
        ),
        Formula::Forall(bs, g) => first_error(
            bindings_error_from(task.types@, bs@, 0),
            formula_error(task, *g, scope + binding_scope(bs@)),
        ),
    }
}

pub open spec fn formulas_error(task: Task, ps: Seq<Formula>, scope: Env) -> Option<Seq<char>>
    decreases ps, 0int,
{
    if ps.len() == 0 {
        None
    } else {
        first_error(formula_error(task, ps[0], scope), formulas_error(task, ps.drop_first(), scope))
    }
}

/// What is wrong with the declared types, if anything.
pub open spec fn types_error(task: Task) -> Option<Seq<char>> {
    if !distinct_names(task.types@) {
        Some("duplicate type declaration"@)
    } else if exists|i: int| 0 <= i < task.types@.len() && (#[trigger] task.types@[i])@ == "object"@ {
        Some("type `object` is implicit and cannot be redeclared"@)
    } else if exists|i: int| 0 <= i < task.types@.len() && (#[trigger] task.types@[i])@.len() == 0 {
        Some("type names must not be empty"@)
    } else {
        None
    }
}

/// The first error among the objects from index `i` on.
pub open spec fn objects_error_from(task: Task, i: int) -> Option<Seq<char>>
    decreases task.objects@.len() - i,
{
    if i < 0 || i >= task.objects@.len() {
        None
    } else {
        let o = task.objects@[i];
        if o.name@.len() == 0 {
            Some("object names must not be empty"@)
        } else if !known_type(task.types@, o.ty@) {
            Some("unknown type `"@ + o.ty@ + "` for object `"@ + o.name@ + "`"@)
        } else if exists|j: int| 0 <= j < i && (#[trigger] task.objects@[j]).name@ == o.name@ {
            Some("duplicate object `"@ + o.name@ + "`"@)
        } else {
            objects_error_from(task, i + 1)
        }
    }
}

/// The first parameter type from index `j` on that is not declared.
pub open spec fn unknown_type_from(types: Seq<String>, ps: Seq<String>, j: int) -> Option<Seq<char>>
    decreases ps.len() - j,
{
    if j < 0 || j >= ps.len() {
        None
    } else if !known_type(types, ps[j]@) {
        Some(ps[j]@)
    } else {
        unknown_type_from(types, ps, j + 1)
    }
}

/// The first error among the predicates from index `i` on.
pub open spec fn predicates_error_from(task: Task, i: int) -> Option<Seq<char>>
    decreases task.predicates@.len() - i,
{
    if i < 0 || i >= task.predicates@.len() {
        None
    } else {
        let p = task.predicates@[i];
        if p.name@.len() == 0 {
            Some("predicate names must not be empty"@)
        } else if let Some(t) = unknown_type_from(task.types@, p.parameters@, 0) {
            Some("unknown type `"@ + t + "` in predicate `"@ + p.name@ + "`"@)
        } else if exists|j: int| 0 <= j < i && (#[trigger] task.predicates@[j]).name@ == p.name@ {
            Some("duplicate predicate `"@ + p.name@ + "`"@)
        } else {
            predicates_error_from(task, i + 1)
        }
    }
}

/// The first error among an action's parameters from index `j` on.
pub open spec fn parameters_error_from(types: Seq<String>, a: crate::model::Action, j: int) -> Option<Seq<char>>
    decreases a.parameters@.len() - j,
{
    let ps = a.parameters@;
    if j < 0 || j >= ps.len() {
        None
    } else if ps[j].name@.len() == 0 {
        Some("empty parameter name in action `"@ + a.name@ + "`"@)
    } else if !known_type(types, ps[j].ty@) {
        Some("unknown type `"@ + ps[j].ty@ + "` in action `"@ + a.name@ + "`"@)
    } else if exists|m: int| 0 <= m < j && (#[trigger] ps[m]).name@ == ps[j].name@ {
        Some("duplicate parameter `"@ + ps[j].name@ + "` in action `"@ + a.name@ + "`"@)
    } else {
        parameters_error_from(types, a, j + 1)
    }
}

/// The first error among effect atoms from index `i` on.
pub open spec fn atoms_error_from(task: Task, atoms: Seq<Atom>, scope: Env, i: int) -> Option<Seq<char>>
    decreases atoms.len() - i,
{
    if i < 0 || i >= atoms.len() {
        None
    } else {
        first_error(atom_error(task, atoms[i], scope), atoms_error_from(task, atoms, scope, i + 1))
    }
}

/// What is wrong with an action schema past its name: its parameters, the nesting of its
/// precondition, the precondition itself, then its add and delete effects.
pub open spec fn action_body_error(task: Task, a: crate::model::Action) -> Option<Seq<char>> {
    let scope = binding_scope(a.parameters@);
    first_error(
        parameters_error_from(task.types@, a, 0),
        if !depth_ok(a.precondition, 0) {
            Some(depth_message())
        } else {
            first_error(
                formula_error(task, a.precondition, scope),
                first_error(atoms_error_from(task, a.add@, scope, 0), atoms_error_from(task, a.delete@, scope, 0)),
            )
        },
    )
}

/// The first error among the actions from index `i` on.
pub open spec fn actions_error_from(task: Task, i: int) -> Option<Seq<char>>
    decreases task.actions@.len() - i,
{
    if i < 0 || i >= task.actions@.len() {
        None
    } else {
        let a = task.actions@[i];
        if a.parameters@.len() > MAX_RECURSION {
            Some("action exceeds the 256-parameter limit"@)
        } else if a.name@.len() == 0 {
            Some("action names must not be empty"@)
        } else if exists|j: int| 0 <= j < i && (#[trigger] task.actions@[j]).name@ == a.name@ {
            Some("duplicate action `"@ + a.name@ + "`"@)
        } else {
            first_error(action_body_error(task, a), actions_error_from(task, i + 1))
        }
    }
}

/// The first error among state atoms from index `i` on, in the state's order.
pub open spec fn atoms_v_error_from(task: Task, xs: Seq<AtomV>, i: int) -> Option<Seq<char>>
    decreases xs.len() - i,
{
    if i < 0 || i >= xs.len() {
        None
    } else {
        first_error(ground_atom_error(task, xs[i]), atoms_v_error_from(task, xs, i + 1))
    }
}

/// The error validation reports for a task, if any: the first failed check, taking types,
/// objects, predicates, actions, the initial state, and the goal in turn.
pub open spec fn validation_error(task: Task) -> Option<Seq<char>> {
    first_error(
        types_error(task),
        first_error(
            objects_error_from(task, 0),
            first_error(
                predicates_error_from(task, 0),
                first_error(
                    actions_error_from(task, 0),
                    first_error(
                        atoms_v_error_from(task, task.initial.elements(), 0),
                        if !depth_ok(task.goal, 0) {
                            Some(depth_message())
                        } else {
                            formula_error(task, task.goal, Seq::empty())
                        },
                    ),
                ),
            ),
        ),
    )
}

// ----------------------------------------------------------------------------------------------
// Lemmas
// ----------------------------------------------------------------------------------------------

pub proof fn lemma_holds_all(objs: Seq<Binding>, st: Set<AtomV>, ps: Seq<Formula>, env: Env)
    ensures
        holds_all(objs, st, ps, env) <==> forall|j: int| 0 <= j < ps.len() ==> holds(objs, st, #[trigger] ps[j], env),
    decreases ps.len(),
{
    if ps.len() > 0 {
        lemma_holds_all(objs, st, ps.drop_first(), env);
        assert forall|j: int| 0 <= j < ps.drop_first().len() implies ps.drop_first()[j] == ps[j + 1] by {}
        if forall|j: int| 0 <= j < ps.len() ==> holds(objs, st, #[trigger] ps[j], env) {
            assert forall|j: int| 0 <= j < ps.drop_first().len() implies holds(objs, st, #[trigger] ps.drop_first()[j], env) by {
                assert(holds(objs, st, ps[j + 1], env));
            }
        }
        if holds_all(objs, st, ps, env) {
            assert forall|j: int| 0 <= j < ps.len() implies holds(objs, st, #[trigger] ps[j], env) by {
                if j > 0 {
                    assert(holds(objs, st, ps.drop_first()[j - 1], env));
                }
            }
        }
    }
}

pub proof fn lemma_holds_any(objs: Seq<Binding>, st: Set<AtomV>, ps: Seq<Formula>, env: Env)
    ensures
        holds_any(objs, st, ps, env) <==> exists|j: int| 0 <= j < ps.len() && holds(objs, st, #[trigger] ps[j], env),
    decreases ps.len(),
{
    if ps.len() > 0 {
        lemma_holds_any(objs, st, ps.drop_first(), env);
        if holds_any(objs, st, ps.drop_first(), env) {
            let j = choose|j: int| 0 <= j < ps.drop_first().len() && holds(objs, st, #[trigger] ps.drop_first()[j], env);
            assert(holds(objs, st, ps[j + 1], env));
        }
        if exists|j: int| 0 <= j < ps.len() && holds(objs, st, #[trigger] ps[j], env) {
            let j = choose|j: int| 0 <= j < ps.len() && holds(objs, st, #[trigger] ps[j], env);
            if j > 0 {
                assert(holds(objs, st, ps.drop_first()[j - 1], env));
            }
        }
    }
}

pub proof fn lemma_formulas_ok(task: Task, ps: Seq<Formula>, scope: Env)
    ensures
        formulas_ok(task, ps, scope) <==> forall|j: int| 0 <= j < ps.len() ==> formula_ok(task, #[trigger] ps[j], scope),
    decreases ps.len(),
{
    if ps.len() > 0 {
        lemma_formulas_ok(task, ps.drop_first(), scope);
        if forall|j: int| 0 <= j < ps.len() ==> formula_ok(task, #[trigger] ps[j], scope) {
            assert forall|j: int| 0 <= j < ps.drop_first().len() implies formula_ok(task, #[trigger] ps.drop_first()[j], scope) by {
                assert(formula_ok(task, ps[j + 1], scope));
            }
        }
        if formulas_ok(task, ps, scope) {
            assert forall|j: int| 0 <= j < ps.len() implies formula_ok(task, #[trigger] ps[j], scope) by {
                if j > 0 {
                    assert(formula_ok(task, ps.drop_first()[j - 1], scope));
                }
            }
        }
    }
}

pub proof fn lemma_depths_ok(ps: Seq<Formula>, d: int)
    ensures
        depths_ok(ps, d) <==> forall|j: int| 0 <= j < ps.len() ==> depth_ok(#[trigger] ps[j], d),
    decreases ps.len(),
{
    if ps.len() > 0 {
        lemma_depths_ok(ps.drop_first(), d);
        if forall|j: int| 0 <= j < ps.len() ==> depth_ok(#[trigger] ps[j], d) {
            assert forall|j: int| 0 <= j < ps.drop_first().len() implies depth_ok(#[trigger] ps.drop_first()[j], d) by {
                assert(depth_ok(ps[j + 1], d));
            }
        }
        if depths_ok(ps, d) {
            assert forall|j: int| 0 <= j < ps.len() implies depth_ok(#[trigger] ps[j], d) by {
                if j > 0 {
                    assert(depth_ok(ps.drop_first()[j - 1], d));
                }
            }
        }
    }
}

/// Environments with the same names bind the same variables.
pub proof fn lemma_lookup_same_names(a: Env, b: Env, n: Seq<char>)
    requires
        same_names(a, b),
    ensures
        lookup(a, n).is_some() == lookup(b, n).is_some(),
    decreases a.len(),
{
    if a.len() > 0 {
        assert(a.last().0 == b.last().0);
        assert(same_names(a.drop_last(), b.drop_last())) by {
            assert forall|i: int| 0 <= i < a.drop_last().len() implies (#[trigger] a.drop_last()[i]).0 == b.drop_last()[i].0 by {
                assert(a[i].0 == b[i].0);
            }
        }
        lemma_lookup_same_names(a.drop_last(), b.drop_last(), n);
    }
}

proof fn lemma_lookup_prefix(env: Env, i: int, n: Seq<char>)
    requires
        0 <= i < env.len(),
        env[i].0 != n,
    ensures
        lookup(env.take(i + 1), n) == lookup(env.take(i), n),
{
    assert(env.take(i + 1).drop_last() =~= env.take(i));
}

// ----------------------------------------------------------------------------------------------
// Evaluation
// ----------------------------------------------------------------------------------------------

/// The value bound to `name` in an executable environment, if any.
pub(crate) fn lookup_exec(env: &Vec<(String, String)>, name: &String) -> (r: Option<String>)
    ensures
        r matches Some(v) ==> lookup(env_view(env@), name@) == Some(v@),
        r is None ==> lookup(env_view(env@), name@) is None,
{
    let ghost e = env_view(env@);
    let mut i = env.len();
    assert(e.take(e.len() as int) =~= e);
    while i > 0
        invariant
            i <= env@.len(),
            e == env_view(env@),
            lookup(e, name@) == lookup(e.take(i as int), name@),
        decreases i,
    {
        i = i - 1;
        if env[i].0 == *name {
            proof {
                assert(e.take(i + 1).last() == e[i as int]);
            }
            return Some(env[i].1.clone());
        }
        proof {
            lemma_lookup_prefix(e, i as int, name@);
        }
    }
    None
}

/// The object a term denotes.
fn resolve(term: &Term, env: &Vec<(String, String)>) -> (r: String)
    requires
        term matches Term::Variable(n) ==> lookup(env_view(env@), n@) is Some,
    ensures
        r@ == term_value(*term, env_view(env@)),
{
    match term {
        Term::Constant(name) => name.clone(),
        Term::Variable(name) => {
            let v = lookup_exec(env, name);
            match v {
                Some(v) => v,
                None => name.clone(),
            }
        }
    }
}

/// Whether all variables of an atom are bound, given that it is well-formed in `scope`.
pub proof fn lemma_atom_bound(task: Task, a: Atom, scope: Env, env: Env)
    requires
        atom_ok(task, a, scope),
        same_names(env, scope),
    ensures
        forall|i: int| 0 <= i < a.terms@.len() ==> (#[trigger] a.terms@[i] matches Term::Variable(n) ==> lookup(env, n@) is Some),
{
    let k = choose|k: int|
        0 <= k < task.predicates@.len() && (#[trigger] task.predicates@[k]).name@ == a.predicate@
            && task.predicates@[k].parameters@.len() == a.terms@.len() && forall|i: int|
            0 <= i < a.terms@.len() ==> term_ok(task, #[trigger] a.terms@[i], scope, Some(task.predicates@[k].parameters@[i]@));
    assert forall|i: int| 0 <= i < a.terms@.len() implies (#[trigger] a.terms@[i] matches Term::Variable(n) ==> lookup(env, n@) is Some) by {
        assert(term_ok(task, a.terms@[i], scope, Some(task.predicates@[k].parameters@[i]@)));
        if let Term::Variable(n) = a.terms@[i] {
            lemma_lookup_same_names(env, scope, n@);
        }
    }
}

/// The ground atom an atom denotes.
pub(crate) fn ground_atom(a: &Atom, env: &Vec<(String, String)>) -> (g: GroundAtom)
    requires
        forall|i: int| 0 <= i < a.terms@.len() ==> (#[trigger] a.terms@[i] matches Term::Variable(n) ==> lookup(env_view(env@), n@) is Some),
    ensures
        g@ == ground(*a, env_view(env@)),
{
    let mut arguments: Vec<String> = Vec::new();
    let mut i: usize = 0;
    while i < a.terms.len()
        invariant
            i <= a.terms@.len(),
            arguments@.len() == i,
            forall|j: int| 0 <= j < a.terms@.len() ==> (#[trigger] a.terms@[j] matches Term::Variable(n) ==> lookup(env_view(env@), n@) is Some),
            forall|j: int| 0 <= j < i ==> (#[trigger] arguments@[j])@ == term_value(a.terms@[j], env_view(env@)),
        decreases a.terms.len() - i,
    {
        arguments.push(resolve(&a.terms[i], env));
        i = i + 1;
    }
    let g = GroundAtom { predicate: a.predicate.clone(), arguments };
    assert(g.arguments.deep_view() =~= a.terms@.map_values(|t: Term| term_value(t, env_view(env@))));
    g
}

/// The truth of a formula in a state under the current bindings.
pub(crate) fn eval(
    task: &Task,
    state: &State,
    f: &Formula,
    env: &mut Vec<(String, String)>,
    Ghost(scope): Ghost<Env>,
) -> (r: bool)
    requires
        formula_ok(*task, *f, scope),
        same_names(env_view(old(env)@), scope),
    ensures
        r == holds(task.objects@, state@, *f, env_view(old(env)@)),
        final(env)@ == old(env)@,
    decreases f, 0int, 0int,
{
    match f {
        Formula::Atom(a) => {
            proof {
                lemma_atom_bound(*task, *a, scope, env_view(env@));
            }
            let g = ground_atom(a, env);
            state.contains(&g)
        }
        Formula::Equal(l, r) => {
            proof {
                if let Term::Variable(n) = l {
                    lemma_lookup_same_names(env_view(env@), scope, n@);
                }
                if let Term::Variable(n) = r {
                    lemma_lookup_same_names(env_view(env@), scope, n@);
                }
            }
            let a = resolve(l, env);
            let b = resolve(r, env);
            a == b
        }
        Formula::Not(g) => !eval(task, state, g, env, Ghost(scope)),
        Formula::And(parts) => eval_all(task, state, parts, env, Ghost(scope)),
        Formula::Or(parts) => eval_any(task, state, parts, env, Ghost(scope)),
        Formula::Implies(l, r) => {
            if !eval(task, state, l, env, Ghost(scope)) {
                true
            } else {
                eval(task, state, r, env, Ghost(scope))
            }
        }
        Formula::Exists(bs, g) => {
            proof {
                assert(bs@.take(0) =~= Seq::<Binding>::empty());
                assert(binding_scope(bs@.take(0)) =~= Seq::<(Seq<char>, Seq<char>)>::empty());
                assert(scope + binding_scope(bs@.take(0)) =~= scope);
                assert(bs@.skip(0) =~= bs@);
            }
            visit(task, state, bs, 0, g, env, true, Ghost(scope))
        }
        Formula::Forall(bs, g) => {
            proof {
                assert(bs@.take(0) =~= Seq::<Binding>::empty());
                assert(binding_scope(bs@.take(0)) =~= Seq::<(Seq<char>, Seq<char>)>::empty());
                assert(scope + binding_scope(bs@.take(0)) =~= scope);
                assert(bs@.skip(0) =~= bs@);
            }
            visit(task, state, bs, 0, g, env, false, Ghost(scope))
        }
    }
}

/// Whether every formula of `parts` holds, evaluated left to right until one fails.
fn eval_all(
    task: &Task,
    state: &State,
    parts: &Vec<Formula>,
    env: &mut Vec<(String, String)>,
    Ghost(scope): Ghost<Env>,
) -> (r: bool)
    requires
        formulas_ok(*task, parts@, scope),
        same_names(env_view(old(env)@), scope),
    ensures
        r == holds_all(task.objects@, state@, parts@, env_view(old(env)@)),
        final(env)@ == old(env)@,
    decreases parts, 0int, 0int,
{
    proof {
        lemma_formulas_ok(*task, parts@, scope);
        lemma_holds_all(task.objects@, state@, parts@, env_view(env@));
    }
    let mut i: usize = 0;
    while i < parts.len()
        invariant
            i <= parts@.len(),
            env@ == old(env)@,
            same_names(env_view(env@), scope),
            forall|j: int| 0 <= j < parts@.len() ==> formula_ok(*task, #[trigger] parts@[j], scope),
            forall|j: int| 0 <= j < i ==> holds(task.objects@, state@, #[trigger] parts@[j], env_view(env@)),
            holds_all(task.objects@, state@, parts@, env_view(env@)) <==> forall|j: int|
                0 <= j < parts@.len() ==> holds(task.objects@, state@, #[trigger] parts@[j], env_view(env@)),
        decreases parts.len() - i,
    {
        proof {
            vstd::std_specs::vec::axiom_vec_index_decreases(*parts, i as int);
        }
        if !eval(task, state, &parts[i], env, Ghost(scope)) {
            return false;
        }
        i = i + 1;
    }
    true
}

/// Whether some formula of `parts` holds, evaluated left to right until one succeeds.
fn eval_any(
    task: &Task,
    state: &State,
    parts: &Vec<Formula>,
    env: &mut Vec<(String, String)>,
    Ghost(scope): Ghost<Env>,
) -> (r: bool)
    requires
        formulas_ok(*task, parts@, scope),
        same_names(env_view(old(env)@), scope),
    ensures
        r == holds_any(task.objects@, state@, parts@, env_view(old(env)@)),
        final(env)@ == old(env)@,
    decreases parts, 0int, 0int,
{
    proof {
        lemma_formulas_ok(*task, parts@, scope);
        lemma_holds_any(task.objects@, state@, parts@, env_view(env@));
    }
    let mut i: usize = 0;
    while i < parts.len()
        invariant
            i <= parts@.len(),
            env@ == old(env)@,
            same_names(env_view(env@), scope),
            forall|j: int| 0 <= j < parts@.len() ==> formula_ok(*task, #[trigger] parts@[j], scope),
            forall|j: int| 0 <= j < i ==> !holds(task.objects@, state@, #[trigger] parts@[j], env_view(env@)),
            holds_any(task.objects@, state@, parts@, env_view(env@)) <==> exists|j: int|
                0 <= j < parts@.len() && holds(task.objects@, state@, #[trigger] parts@[j], env_view(env@)),
        decreases parts.len() - i,
    {
        proof {
            vstd::std_specs::vec::axiom_vec_index_decreases(*parts, i as int);
        }
        if eval(task, state, &parts[i], env, Ghost(scope)) {
            return true;
        }
        i = i + 1;
    }
    false
}

/// Tries every object for the bindings from `index` on, depth first.
fn visit(
    task: &Task,
    state: &State,
    bs: &Vec<Binding>,
    index: usize,
    inner: &Formula,
    env: &mut Vec<(String, String)>,
    existential: bool,
    Ghost(scope): Ghost<Env>,
) -> (r: bool)
    requires
        index <= bs@.len(),
        formula_ok(*task, *inner, scope + binding_scope(bs@)),
        same_names(env_view(old(env)@), scope + binding_scope(bs@.take(index as int))),
    ensures
        existential ==> r == holds_exists(task.objects@, state@, bs@.skip(index as int), *inner, env_view(old(env)@)),
        !existential ==> r == holds_forall(task.objects@, state@, bs@.skip(index as int), *inner, env_view(old(env)@)),
        final(env)@ == old(env)@,
    decreases inner, bs@.len() - index + 1, 0int,
{
    let ghost objs = task.objects@;
    let ghost e0 = env_view(env@);
    let ghost rest = bs@.skip(index as int);
    if index == bs.len() {
        proof {
            assert(bs@.take(index as int) =~= bs@);
            assert(rest.len() == 0);
        }
        return eval(task, state, inner, env, Ghost(scope + binding_scope(bs@)));
    }
    let binding = &bs[index];
    let ghost next = bs@.skip(index + 1);
    proof {
        assert(rest.drop_first() =~= next);
        assert(rest[0] == bs@[index as int]);
    }
    let mut k: usize = 0;
    while k < task.objects.len()
        invariant
            k <= objs.len(),
            objs == task.objects@,
            env@ == old(env)@,
            e0 == env_view(env@),
            index < bs@.len(),
            bs@.len() <= usize::MAX,
            binding == bs@[index as int],
            rest == bs@.skip(index as int),
            rest.len() > 0,
            rest.drop_first() == next,
            rest[0] == bs@[index as int],
            e0 == env_view(old(env)@),
            next == bs@.skip(index + 1),
            formula_ok(*task, *inner, scope + binding_scope(bs@)),
            same_names(e0, scope + binding_scope(bs@.take(index as int))),
            existential ==> exists_from(objs, state@, rest, *inner, e0, 0) == exists_from(objs, state@, rest, *inner, e0, k as int),
            !existential ==> forall_from(objs, state@, rest, *inner, e0, 0) == forall_from(objs, state@, rest, *inner, e0, k as int),
        decreases task.objects.len() - k,
    {
        let object = &task.objects[k];
        if is_object_type(&binding.ty) || object.ty == binding.ty {
            env.push((binding.name.clone(), object.name.clone()));
            proof {
                assert(env_view(env@) =~= e0.push((binding.name@, objs[k as int].name@)));
                let s1 = scope + binding_scope(bs@.take(index + 1));
                assert(s1 =~= (scope + binding_scope(bs@.take(index as int))).push((binding.name@, binding.ty@)));
                assert(same_names(env_view(env@), s1)) by {
                    assert forall|i: int| 0 <= i < env_view(env@).len() implies (#[trigger] env_view(env@)[i]).0 == s1[i].0 by {
                        if i < e0.len() {
                            assert(env_view(env@)[i] == e0[i]);
                        }
                    }
                }
            }
            let value = visit(task, state, bs, index + 1, inner, env, existential, Ghost(scope));
            env.pop();
            proof {
                assert(env@ =~= old(env)@);
            }
            if value == existential {
                return existential;
            }
        }
        k = k + 1;
    }
    !existential
}

// ----------------------------------------------------------------------------------------------
// Validation
// ----------------------------------------------------------------------------------------------

fn invalid(message: String) -> (e: Error)
    ensures
        e.spec_kind() == ErrorKind::InvalidInput,
        e.spec_message() == message@,
{
    Error::new(message)
}

/// Builds "`kind` `name` has type `actual`, expected `expected`".
fn mismatch(kind: &str, name: &str, actual: &str, expected: &str) -> (s: String)
    ensures
        s@ == mismatch_message(kind@, name@, actual@, expected@),
{
    let mut s = concat3(kind, " `", name);
    s.append("` has type `");
    s.append(actual);
    s.append("`, expected `");
    s.append(expected);
    s.append("`");
    s
}

/// Builds "predicate `name` expects `n` arguments, got `m`".
fn arity(name: &str, n: usize, m: usize) -> (s: String)
    ensures
        s@ == arity_message(name@, n as nat, m as nat),
{
    let mut s = concat3("predicate `", name, "` expects ");
    s.append(crate::text::decimal_string(n).as_str());
    s.append(" arguments, got ");
    s.append(crate::text::decimal_string(m).as_str());
    s
}

/// The index of the first object named `name`.
fn find_object(task: &Task, name: &String) -> (r: Option<usize>)
    ensures
        object_from(task.objects@, name@, 0) == (match r {
            Some(k) => Some(k as int),
            None => None,
        }),
        r matches Some(k) ==> k < task.objects@.len() && task.objects@[k as int].name@ == name@,
        r is None ==> forall|j: int| 0 <= j < task.objects@.len() ==> (#[trigger] task.objects@[j]).name@ != name@,
{
    let mut k: usize = 0;
    while k < task.objects.len()
        invariant
            k <= task.objects@.len(),
            object_from(task.objects@, name@, 0) == object_from(task.objects@, name@, k as int),
            forall|j: int| 0 <= j < k ==> (#[trigger] task.objects@[j]).name@ != name@,
        decreases task.objects.len() - k,
    {
        if task.objects[k].name == *name {
            return Some(k);
        }
        k = k + 1;
    }
    None
}

/// The index of the first predicate named `name`.
fn find_predicate(task: &Task, name: &String) -> (r: Option<usize>)
    ensures
        predicate_from(task.predicates@, name@, 0) == (match r {
            Some(k) => Some(k as int),
            None => None,
        }),
        r matches Some(k) ==> k < task.predicates@.len() && task.predicates@[k as int].name@ == name@,
        r is None ==> forall|j: int| 0 <= j < task.predicates@.len() ==> (#[trigger] task.predicates@[j]).name@ != name@,
{
    let mut k: usize = 0;
    while k < task.predicates.len()
        invariant
            k <= task.predicates@.len(),
            predicate_from(task.predicates@, name@, 0) == predicate_from(task.predicates@, name@, k as int),
            forall|j: int| 0 <= j < k ==> (#[trigger] task.predicates@[j]).name@ != name@,
        decreases task.predicates.len() - k,
    {
        if task.predicates[k].name == *name {
            return Some(k);
        }
        k = k + 1;
    }
    None
}

/// Whether a type is `object` or declared.
fn known_type_exec(task: &Task, ty: &String) -> (r: bool)
    ensures
        r == known_type(task.types@, ty@),
{
    if is_object_type(ty) {
        return true;
    }
    let mut i: usize = 0;
    while i < task.types.len()
        invariant
            i <= task.types@.len(),
            ty@ != "object"@,
            forall|j: int| 0 <= j < i ==> (#[trigger] task.types@[j])@ != ty@,
        decreases task.types.len() - i,
    {
        if task.types[i] == *ty {
            return true;
        }
        i = i + 1;
    }
    false
}

pub open spec fn opt_view(o: Option<&String>) -> Option<Seq<char>> {
    match o {
        Some(s) => Some(s@),
        None => None,
    }
}

fn expected_ok_exec(ty: &String, expected: Option<&String>) -> (r: bool)
    ensures
        r == expected_ok(ty@, opt_view(expected)),
{
    match expected {
        None => true,
        Some(e) => is_object_type(e) || *ty == *e,
    }
}

/// Checks that a term is bound or declared and has an acceptable type.
fn check_term(
    task: &Task,
    term: &Term,
    scope: &Vec<(String, String)>,
    expected: Option<&String>,
) -> (r: Result<(), Error>)
    requires
        objects_ok(*task),
    ensures
        r.is_ok() == term_ok(*task, *term, env_view(scope@), opt_view(expected)),
        r is Ok ==> term_error(*task, *term, env_view(scope@), opt_view(expected)) is None,
        r matches Err(e) ==> term_error(*task, *term, env_view(scope@), opt_view(expected)) == Some(e.spec_message()),
        r matches Err(e) ==> e.spec_kind() == ErrorKind::InvalidInput,
{
    match term {
        Term::Variable(name) => match lookup_exec(scope, name) {
            Some(ty) => {
                if expected_ok_exec(&ty, expected) {
                    Ok(())
                } else {
                    match expected {
                        Some(e) => Err(invalid(mismatch("term", name.as_str(), ty.as_str(), e.as_str()))),
                        None => Ok(()),
                    }
                }
            }
            None => Err(invalid(concat3("unbound variable `", name.as_str(), "`"))),
        },
        Term::Constant(name) => match find_object(task, name) {
            None => Err(invalid(concat3("unknown object `", name.as_str(), "`"))),
            Some(k) => {
                let ty = &task.objects[k].ty;
                proof {
                    assert forall|j: int| 0 <= j < task.objects@.len() && (#[trigger] task.objects@[j]).name@ == name@
                        implies j == k by {
                        if j < k {
                            assert(task.objects@[j].name@ != task.objects@[k as int].name@);
                        } else if j > k {
                            assert(task.objects@[k as int].name@ != task.objects@[j].name@);
                        }
                    }
                }
                if expected_ok_exec(ty, expected) {
                    Ok(())
                } else {
                    match expected {
                        Some(e) => Err(invalid(mismatch("term", name.as_str(), ty.as_str(), e.as_str()))),
                        None => Ok(()),
                    }
                }
            }
        },
    }
}

/// Checks that an atom applies a declared predicate to well-typed terms.
fn check_atom(task: &Task, atom: &Atom, scope: &Vec<(String, String)>) -> (r: Result<(), Error>)
    requires
        objects_ok(*task),
        predicates_ok(*task),
    ensures
        r.is_ok() == atom_ok(*task, *atom, env_view(scope@)),
        r is Ok ==> atom_error(*task, *atom, env_view(scope@)) is None,
        r matches Err(e) ==> atom_error(*task, *atom, env_view(scope@)) == Some(e.spec_message()),
        r matches Err(e) ==> e.spec_kind() == ErrorKind::InvalidInput,
{
    let ghost sv = env_view(scope@);
    match find_predicate(task, &atom.predicate) {
        None => Err(invalid(concat3("unknown predicate `", atom.predicate.as_str(), "`"))),
        Some(k) => {
            let predicate = &task.predicates[k];
            proof {
                assert forall|j: int| 0 <= j < task.predicates@.len() && (#[trigger] task.predicates@[j]).name@ == atom.predicate@
                    implies j == k by {
                    if j < k {
                        assert(task.predicates@[j].name@ != task.predicates@[k as int].name@);
                    } else if j > k {
                        assert(task.predicates@[k as int].name@ != task.predicates@[j].name@);
                    }
                }
            }
            if predicate.parameters.len() != atom.terms.len() {
                return Err(invalid(arity(atom.predicate.as_str(), predicate.parameters.len(), atom.terms.len())));
            }
            let mut i: usize = 0;
            while i < atom.terms.len()
                invariant
                    i <= atom.terms@.len(),
                    k < task.predicates@.len(),
                    predicate == task.predicates@[k as int],
                    predicate.parameters@.len() == atom.terms@.len(),
                    sv == env_view(scope@),
                    objects_ok(*task),
                    predicate_from(task.predicates@, atom.predicate@, 0) == Some(k as int),
                    forall|j: int| 0 <= j < task.predicates@.len() && (#[trigger] task.predicates@[j]).name@ == atom.predicate@ ==> j == k,
                    forall|j: int| 0 <= j < i ==> term_ok(*task, #[trigger] atom.terms@[j], sv, Some(predicate.parameters@[j]@)),
                    terms_error_from(*task, atom.terms@, sv, predicate.parameters@, 0) == terms_error_from(
                        *task, atom.terms@, sv, predicate.parameters@, i as int),
                decreases atom.terms.len() - i,
            {
                match check_term(task, &atom.terms[i], scope, Some(&predicate.parameters[i])) {
                    Ok(()) => {},
                    Err(e) => {
                        proof {
                            assert(terms_error_from(*task, atom.terms@, sv, predicate.parameters@, i as int) == Some(
                                e.spec_message(),
                            ));
                        }
                        return Err(e);
                    },
                }
                i = i + 1;
            }
            proof {
                assert(task.predicates@[k as int].name@ == atom.predicate@);
            }
            Ok(())
        },
    }
}

/// Checks that every atom and term of a formula is declared, bound, and well-typed.
fn check_formula(task: &Task, f: &Formula, scope: &mut Vec<(String, String)>) -> (r: Result<(), Error>)
    requires
        objects_ok(*task),
        predicates_ok(*task),
    ensures
        r.is_ok() == formula_ok(*task, *f, env_view(old(scope)@)),
        r is Ok ==> formula_error(*task, *f, env_view(old(scope)@)) is None,
        r matches Err(e) ==> formula_error(*task, *f, env_view(old(scope)@)) == Some(e.spec_message()),
        r matches Err(e) ==> e.spec_kind() == ErrorKind::InvalidInput,
        final(scope)@ == old(scope)@,
    decreases f, 0int,
{
    match f {
        Formula::Atom(a) => check_atom(task, a, scope),
        Formula::Equal(l, r) => {
            match check_term(task, l, scope, None) {
                Ok(()) => {},
                Err(e) => return Err(e),
            }
            check_term(task, r, scope, None)
        }
        Formula::Not(g) => check_formula(task, g, scope),
        Formula::And(parts) => check_formulas(task, parts, scope),
        Formula::Or(parts) => check_formulas(task, parts, scope),
        Formula::Implies(l, r) => {
            match check_formula(task, l, scope) {
                Ok(()) => {},
                Err(e) => return Err(e),
            }
            check_formula(task, r, scope)
        }
        Formula::Exists(bs, g) => check_quantified(task, bs, g, scope),
        Formula::Forall(bs, g) => check_quantified(task, bs, g, scope),
    }
}

fn check_formulas(task: &Task, parts: &Vec<Formula>, scope: &mut Vec<(String, String)>) -> (r: Result<(), Error>)
    requires
        objects_ok(*task),
        predicates_ok(*task),
    ensures
        r.is_ok() == formulas_ok(*task, parts@, env_view(old(scope)@)),
        r is Ok ==> formulas_error(*task, parts@, env_view(old(scope)@)) is None,
        r matches Err(e) ==> formulas_error(*task, parts@, env_view(old(scope)@)) == Some(e.spec_message()),
        r matches Err(e) ==> e.spec_kind() == ErrorKind::InvalidInput,
        final(scope)@ == old(scope)@,
    decreases parts, 0int,
{
    proof {
        lemma_formulas_ok(*task, parts@, env_view(scope@));
        assert(parts@.skip(0) =~= parts@);
    }
    let mut i: usize = 0;
    while i < parts.len()
        invariant
            i <= parts@.len(),
            scope@ == old(scope)@,
            forall|j: int| 0 <= j < i ==> formula_ok(*task, #[trigger] parts@[j], env_view(scope@)),
            formulas_ok(*task, parts@, env_view(scope@)) <==> forall|j: int|
                0 <= j < parts@.len() ==> formula_ok(*task, #[trigger] parts@[j], env_view(scope@)),
            objects_ok(*task),
            predicates_ok(*task),
            formulas_error(*task, parts@, env_view(scope@)) == formulas_error(*task, parts@.skip(i as int), env_view(scope@)),
        decreases parts.len() - i,
    {
        proof {
            vstd::std_specs::vec::axiom_vec_index_decreases(*parts, i as int);
            assert(parts@.skip(i as int).drop_first() =~= parts@.skip(i + 1));
            assert(parts@.skip(i as int)[0] == parts@[i as int]);
        }
        match check_formula(task, &parts[i], scope) {
            Ok(()) => {},
            Err(e) => return Err(e),
        }
        i = i + 1;
    }
    proof {
        assert(parts@.skip(i as int) =~= Seq::<Formula>::empty());
    }
    Ok(())
}

fn check_quantified(task: &Task, bs: &Vec<Binding>, inner: &Formula, scope: &mut Vec<(String, String)>) -> (r: Result<(), Error>)
    requires
        objects_ok(*task),
        predicates_ok(*task),
    ensures
        r.is_ok() == (bindings_ok(task.types@, bs@) && formula_ok(*task, *inner, env_view(old(scope)@) + binding_scope(bs@))),
        r is Ok ==> first_error(
            bindings_error_from(task.types@, bs@, 0),
            formula_error(*task, *inner, env_view(old(scope)@) + binding_scope(bs@)),
        ) is None,
        r matches Err(e) ==> first_error(
            bindings_error_from(task.types@, bs@, 0),
            formula_error(*task, *inner, env_view(old(scope)@) + binding_scope(bs@)),
        ) == Some(e.spec_message()),
        r matches Err(e) ==> e.spec_kind() == ErrorKind::InvalidInput,
        final(scope)@ == old(scope)@,
    decreases inner, 1int,
{
    let old_len = scope.len();
    let ghost base = env_view(scope@);
    let mut i: usize = 0;
    while i < bs.len()
        invariant
            i <= bs@.len(),
            old_len == old(scope)@.len(),
            scope@.len() == old_len + i,
            scope@.subrange(0, old_len as int) == old(scope)@,
            base == env_view(old(scope)@),
            env_view(scope@) == base + binding_scope(bs@.take(i as int)),
            forall|j: int| 0 <= j < i ==> (#[trigger] bs@[j]).name@.len() > 0,
            forall|j: int| 0 <= j < i ==> known_type(task.types@, (#[trigger] bs@[j]).ty@),
            forall|j: int, m: int| 0 <= j < m < i ==> (#[trigger] bs@[j]).name@ != (#[trigger] bs@[m]).name@,
            bindings_error_from(task.types@, bs@, 0) == bindings_error_from(task.types@, bs@, i as int),
        decreases bs.len() - i,
    {
        let b = &bs[i];
        if string_is_empty(&b.name) {
            scope.truncate(old_len);
            return Err(invalid(String::from_str("quantified variable names must not be empty")));
        }
        if !known_type_exec(task, &b.ty) {
            scope.truncate(old_len);
            return Err(invalid(concat3("unknown quantified type `", b.ty.as_str(), "`")));
        }
        let mut j: usize = 0;
        while j < i
            invariant
                j <= i,
                i < bs@.len(),
                b == bs@[i as int],
                old_len == old(scope)@.len(),
                scope@.len() == old_len + i,
                scope@.subrange(0, old_len as int) == old(scope)@,
                base == env_view(old(scope)@),
                env_view(scope@) == base + binding_scope(bs@.take(i as int)),
                forall|m: int| 0 <= m < j ==> (#[trigger] bs@[m]).name@ != b.name@,
                b.name@.len() > 0,
                known_type(task.types@, b.ty@),
                bindings_error_from(task.types@, bs@, 0) == bindings_error_from(task.types@, bs@, i as int),
            decreases i - j,
        {
            if bs[j].name == b.name {
                proof {
                    assert(bs@[j as int].name@ == bs@[i as int].name@);
                }
                scope.truncate(old_len);
                return Err(invalid(concat3("duplicate quantified variable `", b.name.as_str(), "`")));
            }
            j = j + 1;
        }
        let ghost prev = scope@;
        scope.push((b.name.clone(), b.ty.clone()));
        proof {
            assert(scope@.subrange(0, old_len as int) =~= prev.subrange(0, old_len as int));
            assert(bs@.take(i + 1) =~= bs@.take(i as int).push(bs@[i as int]));
            assert(env_view(scope@) =~= env_view(prev).push((b.name@, b.ty@)));
            assert(binding_scope(bs@.take(i + 1)) =~= binding_scope(bs@.take(i as int)).push((b.name@, b.ty@)));
            assert(env_view(scope@) =~= base + binding_scope(bs@.take(i + 1)));
            assert(scope@.subrange(0, old_len as int) =~= old(scope)@);
        }
        i = i + 1;
    }
    proof {
        assert(bs@.take(i as int) =~= bs@);
    }
    let r = check_formula(task, inner, scope);
    scope.truncate(old_len);
    r
}

/// Checks that a ground atom applies a declared predicate to well-typed objects.
fn check_ground_atom(task: &Task, atom: &GroundAtom) -> (r: Result<(), Error>)
    requires
        objects_ok(*task),
        predicates_ok(*task),
    ensures
        r.is_ok() == ground_atom_ok(*task, atom@),
        r is Ok ==> ground_atom_error(*task, atom@) is None,
        r matches Err(e) ==> ground_atom_error(*task, atom@) == Some(e.spec_message()),
        r matches Err(e) ==> e.spec_kind() == ErrorKind::InvalidInput,
{
    let ghost x = atom@;
    match find_predicate(task, &atom.predicate) {
        None => Err(invalid(concat3("unknown predicate `", atom.predicate.as_str(), "`"))),
        Some(k) => {
            let predicate = &task.predicates[k];
            proof {
                assert forall|j: int| 0 <= j < task.predicates@.len() && (#[trigger] task.predicates@[j]).name@ == x.0
                    implies j == k by {
                    if j < k {
                        assert(task.predicates@[j].name@ != task.predicates@[k as int].name@);
                    } else if j > k {
                        assert(task.predicates@[k as int].name@ != task.predicates@[j].name@);
                    }
                }
            }
            if predicate.parameters.len() != atom.arguments.len() {
                return Err(invalid(arity(atom.predicate.as_str(), predicate.parameters.len(), atom.arguments.len())));
            }
            let mut i: usize = 0;
            while i < atom.arguments.len()
                invariant
                    i <= x.1.len(),
                    x == atom@,
                    k < task.predicates@.len(),
                    predicate == task.predicates@[k as int],
                    predicate.parameters@.len() == x.1.len(),
                    objects_ok(*task),
                    predicate_from(task.predicates@, x.0, 0) == Some(k as int),
                    forall|j: int| 0 <= j < task.predicates@.len() && (#[trigger] task.predicates@[j]).name@ == x.0 ==> j == k,
                    forall|j: int| 0 <= j < i ==> object_ok(task.objects@, #[trigger] x.1[j], Some(predicate.parameters@[j]@)),
                    args_error_from(*task, x.1, predicate.parameters@, 0) == args_error_from(*task, x.1, predicate.parameters@, i as int),
                decreases atom.arguments.len() - i,
            {
                let name = &atom.arguments[i];
                let expected = &predicate.parameters[i];
                proof {
                    assert(x.1[i as int] == name@);
                }
                match find_object(task, name) {
                    None => {
                        return Err(invalid(concat3("unknown object `", name.as_str(), "`")));
                    },
                    Some(m) => {
                        let ty = &task.objects[m].ty;
                        proof {
                            assert forall|j: int| 0 <= j < task.objects@.len() && (#[trigger] task.objects@[j]).name@ == name@
                                implies j == m by {
                                if j < m {
                                    assert(task.objects@[j].name@ != task.objects@[m as int].name@);
                                } else if j > m {
                                    assert(task.objects@[m as int].name@ != task.objects@[j].name@);
                                }
                            }
                        }
                        if !expected_ok_exec(ty, Some(expected)) {
                            return Err(invalid(mismatch("object", name.as_str(), ty.as_str(), expected.as_str())));
                        }
                    },
                }
                i = i + 1;
            }
            proof {
                assert(task.predicates@[k as int].name@ == x.0);
            }
            Ok(())
        },
    }
}

/// Whether a formula standing at level `d` stays within the nesting limit.
fn depth_within(f: &Formula, d: usize) -> (r: bool)
    requires
        d <= 2 * MAX_RECURSION + 1,
    ensures
        r == depth_ok(*f, d as int),
    decreases f, 0int,
{
    if d > MAX_RECURSION {
        return false;
    }
    match f {
        Formula::Not(g) => depth_within(g, d + 1),
        Formula::And(parts) => depths_within(parts, d + 1),
        Formula::Or(parts) => depths_within(parts, d + 1),
        Formula::Implies(l, r) => depth_within(l, d + 1) && depth_within(r, d + 1),
        Formula::Exists(bs, g) => {
            if bs.len() > MAX_RECURSION {
                proof {
                    assert(!depth_ok(**g, d + bs@.len() + 1));
                }
                false
            } else {
                depth_within(g, d + bs.len() + 1)
            }
        }
        Formula::Forall(bs, g) => {
            if bs.len() > MAX_RECURSION {
                proof {
                    assert(!depth_ok(**g, d + bs@.len() + 1));
                }
                false
            } else {
                depth_within(g, d + bs.len() + 1)
            }
        }
        _ => true,
    }
}

fn depths_within(parts: &Vec<Formula>, d: usize) -> (r: bool)
    requires
        d <= MAX_RECURSION + 1,
    ensures
        r == depths_ok(parts@, d as int),
    decreases parts, 0int,
{
    proof {
        lemma_depths_ok(parts@, d as int);
    }
    let mut i: usize = 0;
    while i < parts.len()
        invariant
            i <= parts@.len(),
            d <= MAX_RECURSION + 1,
            forall|j: int| 0 <= j < i ==> depth_ok(#[trigger] parts@[j], d as int),
            depths_ok(parts@, d as int) <==> forall|j: int| 0 <= j < parts@.len() ==> depth_ok(#[trigger] parts@[j], d as int),
        decreases parts.len() - i,
    {
        proof {
            vstd::std_specs::vec::axiom_vec_index_decreases(*parts, i as int);
        }
        if !depth_within(&parts[i], d) {
            return false;
        }
        i = i + 1;
    }
    true
}

/// Checks the nesting limit for a formula.
fn check_formula_depth(f: &Formula) -> (r: Result<(), Error>)
    ensures
        r.is_ok() == depth_ok(*f, 0),
        r matches Err(e) ==> e.spec_message() == depth_message(),
        r matches Err(e) ==> e.spec_kind() == ErrorKind::InvalidInput,
{
    if depth_within(f, 0) {
        Ok(())
    } else {
        Err(invalid(String::from_str("formula exceeds the 256-level nesting/binding limit")))
    }
}

/// Checks that every atom of a state is well-formed in the task, in the state's order.
pub(crate) fn validate_state(task: &Task, state: &State) -> (r: Result<(), Error>)
    requires
        objects_ok(*task),
        predicates_ok(*task),
    ensures
        r.is_ok() == state_ok(*task, state@),
        r is Ok ==> atoms_v_error_from(*task, state.elements(), 0) is None,
        r matches Err(e) ==> atoms_v_error_from(*task, state.elements(), 0) == Some(e.spec_message()),
        r matches Err(e) ==> e.spec_kind() == ErrorKind::InvalidInput,
{
    let atoms = state.atoms();
    proof {
        state.lemma_elements();
    }
    let ghost elems = state.elements();
    let mut i: usize = 0;
    while i < atoms.len()
        invariant
            i <= atoms@.len(),
            atoms@.map_values(|g: GroundAtom| g@) == elems,
            elems == state.elements(),
            objects_ok(*task),
            predicates_ok(*task),
            forall|x: AtomV| state@.contains(x) <==> elems.contains(x),
            forall|j: int| 0 <= j < i ==> ground_atom_ok(*task, #[trigger] elems[j]),
            atoms_v_error_from(*task, elems, 0) == atoms_v_error_from(*task, elems, i as int),
        decreases atoms.len() - i,
    {
        proof {
            assert(elems[i as int] == atoms@[i as int]@);
        }
        match check_ground_atom(task, &atoms[i]) {
            Ok(()) => {},
            Err(e) => {
                proof {
                    assert(elems.contains(elems[i as int]));
                    assert(state@.contains(elems[i as int]));
                }
                return Err(e);
            }
        }
        i = i + 1;
    }
    proof {
        assert forall|x: AtomV| state@.contains(x) implies ground_atom_ok(*task, x) by {
            assert(elems.contains(x));
            let j = choose|j: int| 0 <= j < elems.len() && elems[j] == x;
            assert(ground_atom_ok(*task, elems[j]));
        }
    }
    Ok(())
}


fn check_types(task: &Task) -> (r: Result<(), Error>)
    ensures
        r.is_ok() == types_ok(*task),
        r is Ok ==> types_error(*task) is None,
        r matches Err(e) ==> types_error(*task) == Some(e.spec_message()),
        r matches Err(e) ==> e.spec_kind() == ErrorKind::InvalidInput,
{
    let types = &task.types;
    let mut i: usize = 0;
    while i < types.len()
        invariant
            i <= types@.len(),
            types == &task.types,
            forall|a: int, b: int| 0 <= a < b < i ==> (#[trigger] types@[a])@ != (#[trigger] types@[b])@,
        decreases types.len() - i,
    {
        let mut j: usize = 0;
        while j < i
            invariant
                j <= i,
                i < types@.len(),
                types == &task.types,
                forall|a: int| 0 <= a < j ==> (#[trigger] types@[a])@ != types@[i as int]@,
            decreases i - j,
        {
            if types[j] == types[i] {
                proof {
                    assert(task.types@[j as int]@ == task.types@[i as int]@);
                    assert(!distinct_names(task.types@));
                }
                return Err(invalid(String::from_str("duplicate type declaration")));
            }
            j = j + 1;
        }
        i = i + 1;
    }
    let mut i: usize = 0;
    while i < types.len()
        invariant
            i <= types@.len(),
            types == &task.types,
            distinct_names(task.types@),
            forall|a: int| 0 <= a < i ==> (#[trigger] types@[a])@ != "object"@,
        decreases types.len() - i,
    {
        if is_object_type(&types[i]) {
            return Err(invalid(String::from_str("type `object` is implicit and cannot be redeclared")));
        }
        i = i + 1;
    }
    let mut i: usize = 0;
    while i < types.len()
        invariant
            i <= types@.len(),
            types == &task.types,
            distinct_names(task.types@),
            forall|a: int| 0 <= a < types@.len() ==> (#[trigger] types@[a])@ != "object"@,
            forall|a: int| 0 <= a < i ==> (#[trigger] types@[a])@.len() > 0,
        decreases types.len() - i,
    {
        if string_is_empty(&types[i]) {
            return Err(invalid(String::from_str("type names must not be empty")));
        }
        i = i + 1;
    }
    Ok(())
}

fn check_objects(task: &Task) -> (r: Result<(), Error>)
    ensures
        r.is_ok() == objects_ok(*task),
        r is Ok ==> objects_error_from(*task, 0) is None,
        r matches Err(e) ==> objects_error_from(*task, 0) == Some(e.spec_message()),
        r matches Err(e) ==> e.spec_kind() == ErrorKind::InvalidInput,
{
    let objects = &task.objects;
    let mut i: usize = 0;
    while i < objects.len()
        invariant
            i <= objects@.len(),
            objects == &task.objects,
            forall|a: int| 0 <= a < i ==> (#[trigger] objects@[a]).name@.len() > 0,
            forall|a: int| 0 <= a < i ==> known_type(task.types@, (#[trigger] objects@[a]).ty@),
            forall|a: int, b: int| 0 <= a < b < i ==> (#[trigger] objects@[a]).name@ != (#[trigger] objects@[b]).name@,
            objects_error_from(*task, 0) == objects_error_from(*task, i as int),
        decreases objects.len() - i,
    {
        let object = &objects[i];
        if string_is_empty(&object.name) {
            return Err(invalid(String::from_str("object names must not be empty")));
        }
        if !known_type_exec(task, &object.ty) {
            return Err(invalid(concat5("unknown type `", object.ty.as_str(), "` for object `", object.name.as_str(), "`")));
        }
        let mut j: usize = 0;
        while j < i
            invariant
                j <= i,
                i < objects@.len(),
                objects == &task.objects,
                object == objects@[i as int],
                object.name@.len() > 0,
                known_type(task.types@, object.ty@),
                objects_error_from(*task, 0) == objects_error_from(*task, i as int),
                forall|a: int| 0 <= a < j ==> (#[trigger] objects@[a]).name@ != object.name@,
            decreases i - j,
        {
            if objects[j].name == object.name {
                proof {
                    assert(task.objects@[j as int].name@ == task.objects@[i as int].name@);
                }
                return Err(invalid(concat3("duplicate object `", object.name.as_str(), "`")));
            }
            j = j + 1;
        }
        i = i + 1;
    }
    Ok(())
}

fn check_predicates(task: &Task) -> (r: Result<(), Error>)
    ensures
        r.is_ok() == predicates_ok(*task),
        r is Ok ==> predicates_error_from(*task, 0) is None,
        r matches Err(e) ==> predicates_error_from(*task, 0) == Some(e.spec_message()),
        r matches Err(e) ==> e.spec_kind() == ErrorKind::InvalidInput,
{
    let predicates = &task.predicates;
    let mut i: usize = 0;
    while i < predicates.len()
        invariant
            i <= predicates@.len(),
            predicates == &task.predicates,
            forall|a: int| 0 <= a < i ==> (#[trigger] predicates@[a]).name@.len() > 0,
            forall|a: int, b: int|
                0 <= a < i && 0 <= b < predicates@[a].parameters@.len() ==> known_type(
                    task.types@,
                    (#[trigger] predicates@[a].parameters@[b])@,
                ),
            forall|a: int, b: int| 0 <= a < b < i ==> (#[trigger] predicates@[a]).name@ != (#[trigger] predicates@[b]).name@,
            predicates_error_from(*task, 0) == predicates_error_from(*task, i as int),
        decreases predicates.len() - i,
    {
        let predicate = &predicates[i];
        if string_is_empty(&predicate.name) {
            return Err(invalid(String::from_str("predicate names must not be empty")));
        }
        let mut j: usize = 0;
        while j < predicate.parameters.len()
            invariant
                j <= predicate.parameters@.len(),
                i < predicates@.len(),
                predicates == &task.predicates,
                predicate == predicates@[i as int],
                predicate.name@.len() > 0,
                predicates_error_from(*task, 0) == predicates_error_from(*task, i as int),
                forall|b: int| 0 <= b < j ==> known_type(task.types@, (#[trigger] predicate.parameters@[b])@),
                unknown_type_from(task.types@, predicate.parameters@, 0) == unknown_type_from(
                    task.types@, predicate.parameters@, j as int),
            decreases predicate.parameters.len() - j,
        {
            let ty = &predicate.parameters[j];
            if !known_type_exec(task, ty) {
                proof {
                    assert(task.predicates@[i as int].parameters@[j as int]@ == ty@);
                }
                return Err(invalid(concat5("unknown type `", ty.as_str(), "` in predicate `", predicate.name.as_str(), "`")));
            }
            j = j + 1;
        }
        let mut j: usize = 0;
        while j < i
            invariant
                j <= i,
                i < predicates@.len(),
                predicates == &task.predicates,
                predicate == predicates@[i as int],
                predicate.name@.len() > 0,
                unknown_type_from(task.types@, predicate.parameters@, 0) is None,
                predicates_error_from(*task, 0) == predicates_error_from(*task, i as int),
                forall|a: int| 0 <= a < j ==> (#[trigger] predicates@[a]).name@ != predicate.name@,
            decreases i - j,
        {
            if predicates[j].name == predicate.name {
                proof {
                    assert(task.predicates@[j as int].name@ == task.predicates@[i as int].name@);
                }
                return Err(invalid(concat3("duplicate predicate `", predicate.name.as_str(), "`")));
            }
            j = j + 1;
        }
        i = i + 1;
    }
    Ok(())
}

/// The executable scope opened by a list of bindings.
fn scope_of(bs: &Vec<Binding>) -> (scope: Vec<(String, String)>)
    ensures
        env_view(scope@) == binding_scope(bs@),
{
    let mut scope: Vec<(String, String)> = Vec::new();
    let mut i: usize = 0;
    while i < bs.len()
        invariant
            i <= bs@.len(),
            scope@.len() == i,
            forall|j: int| 0 <= j < i ==> (#[trigger] scope@[j]).0@ == bs@[j].name@ && scope@[j].1@ == bs@[j].ty@,
        decreases bs.len() - i,
    {
        scope.push((bs[i].name.clone(), bs[i].ty.clone()));
        i = i + 1;
    }
    assert(env_view(scope@) =~= binding_scope(bs@));
    scope
}

/// Checks an action schema past its name: its parameters, the nesting and scope of its
/// precondition, and its effects.
fn check_action_body(task: &Task, action: &crate::model::Action) -> (r: Result<(), Error>)
    requires
        objects_ok(*task),
        predicates_ok(*task),
        action.parameters@.len() <= MAX_RECURSION,
        action.name@.len() > 0,
    ensures
        r.is_ok() == action_ok(*task, *action),
        r is Ok ==> action_body_error(*task, *action) is None,
        r matches Err(e) ==> action_body_error(*task, *action) == Some(e.spec_message()),
        r matches Err(e) ==> e.spec_kind() == ErrorKind::InvalidInput,
{
    let params = &action.parameters;
    let mut i: usize = 0;
    while i < params.len()
        invariant
            i <= params@.len(),
            params == &action.parameters,
            forall|j: int| 0 <= j < i ==> (#[trigger] params@[j]).name@.len() > 0,
            forall|j: int| 0 <= j < i ==> known_type(task.types@, (#[trigger] params@[j]).ty@),
            forall|a: int, b: int| 0 <= a < b < i ==> (#[trigger] params@[a]).name@ != (#[trigger] params@[b]).name@,
            parameters_error_from(task.types@, *action, 0) == parameters_error_from(task.types@, *action, i as int),
        decreases params.len() - i,
    {
        let p = &params[i];
        if string_is_empty(&p.name) {
            return Err(invalid(concat3("empty parameter name in action `", action.name.as_str(), "`")));
        }
        if !known_type_exec(task, &p.ty) {
            return Err(invalid(concat5("unknown type `", p.ty.as_str(), "` in action `", action.name.as_str(), "`")));
        }
        let mut j: usize = 0;
        while j < i
            invariant
                j <= i,
                i < params@.len(),
                params == &action.parameters,
                p == params@[i as int],
                p.name@.len() > 0,
                known_type(task.types@, p.ty@),
                parameters_error_from(task.types@, *action, 0) == parameters_error_from(task.types@, *action, i as int),
                forall|a: int| 0 <= a < j ==> (#[trigger] params@[a]).name@ != p.name@,
            decreases i - j,
        {
            if params[j].name == p.name {
                proof {
                    assert(action.parameters@[j as int].name@ == action.parameters@[i as int].name@);
                    assert(!bindings_ok(task.types@, action.parameters@));
                }
                return Err(invalid(concat5("duplicate parameter `", p.name.as_str(), "` in action `", action.name.as_str(), "`")));
            }
            j = j + 1;
        }
        i = i + 1;
    }
    match check_formula_depth(&action.precondition) {
        Ok(()) => {},
        Err(e) => return Err(e),
    }
    let mut scope = scope_of(params);
    match check_formula(task, &action.precondition, &mut scope) {
        Ok(()) => {},
        Err(e) => return Err(e),
    }
    let ghost sv = binding_scope(action.parameters@);
    let mut i: usize = 0;
    while i < action.add.len()
        invariant
            i <= action.add@.len(),
            objects_ok(*task),
            predicates_ok(*task),
            env_view(scope@) == sv,
            sv == binding_scope(action.parameters@),
            parameters_error_from(task.types@, *action, 0) is None,
            depth_ok(action.precondition, 0),
            formula_error(*task, action.precondition, sv) is None,
            forall|j: int| 0 <= j < i ==> atom_ok(*task, #[trigger] action.add@[j], sv),
            atoms_error_from(*task, action.add@, sv, 0) == atoms_error_from(*task, action.add@, sv, i as int),
        decreases action.add.len() - i,
    {
        match check_atom(task, &action.add[i], &scope) {
            Ok(()) => {},
            Err(e) => return Err(e),
        }
        i = i + 1;
    }
    let mut i: usize = 0;
    while i < action.delete.len()
        invariant
            i <= action.delete@.len(),
            objects_ok(*task),
            predicates_ok(*task),
            env_view(scope@) == sv,
            sv == binding_scope(action.parameters@),
            atoms_error_from(*task, action.add@, sv, 0) is None,
            parameters_error_from(task.types@, *action, 0) is None,
            depth_ok(action.precondition, 0),
            formula_error(*task, action.precondition, sv) is None,
            forall|j: int| 0 <= j < i ==> atom_ok(*task, #[trigger] action.delete@[j], sv),
            atoms_error_from(*task, action.delete@, sv, 0) == atoms_error_from(*task, action.delete@, sv, i as int),
        decreases action.delete.len() - i,
    {
        match check_atom(task, &action.delete[i], &scope) {
            Ok(()) => {},
            Err(e) => return Err(e),
        }
        i = i + 1;
    }
    Ok(())
}

fn check_actions(task: &Task) -> (r: Result<(), Error>)
    requires
        objects_ok(*task),
        predicates_ok(*task),
    ensures
        r.is_ok() == actions_ok(*task),
        r is Ok ==> actions_error_from(*task, 0) is None,
        r matches Err(e) ==> actions_error_from(*task, 0) == Some(e.spec_message()),
        r matches Err(e) ==> e.spec_kind() == ErrorKind::InvalidInput,
{
    let actions = &task.actions;
    let mut i: usize = 0;
    while i < actions.len()
        invariant
            i <= actions@.len(),
            actions == &task.actions,
            objects_ok(*task),
            predicates_ok(*task),
            forall|a: int| 0 <= a < i ==> action_ok(*task, #[trigger] actions@[a]),
            forall|a: int, b: int| 0 <= a < b < i ==> (#[trigger] actions@[a]).name@ != (#[trigger] actions@[b]).name@,
            actions_error_from(*task, 0) == actions_error_from(*task, i as int),
        decreases actions.len() - i,
    {
        let action = &actions[i];
        if action.parameters.len() > MAX_RECURSION {
            return Err(invalid(String::from_str("action exceeds the 256-parameter limit")));
        }
        if string_is_empty(&action.name) {
            return Err(invalid(String::from_str("action names must not be empty")));
        }
        let mut j: usize = 0;
        while j < i
            invariant
                j <= i,
                i < actions@.len(),
                actions == &task.actions,
                action == actions@[i as int],
                action.parameters@.len() <= MAX_RECURSION,
                action.name@.len() > 0,
                actions_error_from(*task, 0) == actions_error_from(*task, i as int),
                forall|a: int| 0 <= a < j ==> (#[trigger] actions@[a]).name@ != action.name@,
            decreases i - j,
        {
            if actions[j].name == action.name {
                proof {
                    assert(task.actions@[j as int].name@ == task.actions@[i as int].name@);
                }
                return Err(invalid(concat3("duplicate action `", action.name.as_str(), "`")));
            }
            j = j + 1;
        }
        match check_action_body(task, action) {
            Ok(()) => {},
            Err(e) => return Err(e),
        }
        i = i + 1;
    }
    Ok(())
}

/// Checks every declaration, formula, effect, and initial-state atom in a task.
///
/// Succeeds exactly when the task is valid: types, objects, predicates, and actions are
/// uniquely named and use declared types; every formula and effect is closed over its
/// scope and well-typed; nesting and quantified bindings stay within 256 levels; and the
/// initial state holds only well-typed atoms. Otherwise the error reports the first failed
/// check, as `validation_error` orders them.
pub fn validate(task: &Task) -> (r: Result<(), Error>)
    ensures
        r.is_ok() == task_valid(*task),
        r is Ok ==> validation_error(*task) is None,
        r matches Err(e) ==> validation_error(*task) == Some(e.spec_message()),
        r matches Err(e) ==> e.spec_kind() == ErrorKind::InvalidInput,
{
    match check_types(task) {
        Ok(()) => {},
        Err(e) => return Err(e),
    }
    match check_objects(task) {
        Ok(()) => {},
        Err(e) => return Err(e),
    }
    match check_predicates(task) {
        Ok(()) => {},
        Err(e) => return Err(e),
    }
    match check_actions(task) {
        Ok(()) => {},
        Err(e) => return Err(e),
    }
    match validate_state(task, &task.initial) {
        Ok(()) => {},
        Err(e) => return Err(e),
    }
    match check_formula_depth(&task.goal) {
        Ok(()) => {},
        Err(e) => return Err(e),
    }
    let mut scope: Vec<(String, String)> = Vec::new();
    proof {
        assert(env_view(scope@) =~= Seq::<(Seq<char>, Seq<char>)>::empty());
    }
    check_formula(task, &task.goal, &mut scope)
}

/// Whether a formula is closed, well-typed, and within the nesting limit in a task.
pub open spec fn closed_formula_ok(task: Task, f: Formula) -> bool {
    depth_ok(f, 0) && formula_ok(task, f, Seq::empty())
}

/// Evaluates a closed formula in a validated finite task and state.
///
/// Succeeds exactly when the task is valid, the state holds only well-typed atoms, and
/// the formula is closed, well-typed, and within the nesting limit; the result is then
/// the formula's truth in the state. Otherwise the error reports the first failed check:
/// the task's, then the state's atoms in order, then the formula's.
pub fn evaluate(task: &Task, state: &State, formula: &Formula) -> (r: Result<bool, Error>)
    ensures
        r.is_ok() == (task_valid(*task) && state_ok(*task, state@) && closed_formula_ok(*task, *formula)),
        r matches Ok(b) ==> b == holds(task.objects@, state@, *formula, Seq::empty()),
        r matches Err(e) ==> Some(e.spec_message()) == first_error(
            validation_error(*task),
            first_error(
                atoms_v_error_from(*task, state.elements(), 0),
                if !depth_ok(*formula, 0) {
                    Some(depth_message())
                } else {
                    formula_error(*task, *formula, Seq::empty())
                },
            ),
        ),
        r matches Err(e) ==> e.spec_kind() == ErrorKind::InvalidInput,
{
    match validate(task) {
        Ok(()) => {},
        Err(e) => return Err(e),
    }
    match validate_state(task, state) {
        Ok(()) => {},
        Err(e) => return Err(e),
    }
    match check_formula_depth(formula) {
        Ok(()) => {},
        Err(e) => return Err(e),
    }
    let mut scope: Vec<(String, String)> = Vec::new();
    proof {
        assert(env_view(scope@) =~= Seq::<(Seq<char>, Seq<char>)>::empty());
    }
    match check_formula(task, formula, &mut scope) {
        Ok(()) => {},
        Err(e) => return Err(e),
    }
    let mut env: Vec<(String, String)> = Vec::new();
    proof {
        assert(env_view(env@) =~= Seq::<(Seq<char>, Seq<char>)>::empty());
    }
    Ok(eval(task, state, formula, &mut env, Ghost(Seq::empty())))
}


// ----------------------------------------------------------------------------------------------
// Laws
// ----------------------------------------------------------------------------------------------

proof fn lemma_forall_from_vacuous(objs: Seq<Binding>, st: Set<AtomV>, bs: Seq<Binding>, g: Formula, env: Env, k: int)
    requires
        bs.len() > 0,
        0 <= k,
        forall|j: int| 0 <= j < objs.len() ==> !of_type(#[trigger] objs[j], bs[0].ty@),
    ensures
        forall_from(objs, st, bs, g, env, k),
        !exists_from(objs, st, bs, g, env, k),
    decreases objs.len() - k,
{
    if k < objs.len() {
        assert(!of_type(objs[k], bs[0].ty@));
        lemma_forall_from_vacuous(objs, st, bs, g, env, k + 1);
    }
}

/// The connectives mean what they say: negation, conjunction and disjunction of two formulas,
/// implication, the empty conjunction (true) and the empty disjunction (false).
pub proof fn law_connectives(
    objs: Seq<Binding>,
    st: Set<AtomV>,
    env: Env,
    f: Formula,
    g: Formula,
    pair: Vec<Formula>,
    none: Vec<Formula>,
)
    requires
        pair@ == seq![f, g],
        none@.len() == 0,
    ensures
        holds(objs, st, Formula::Not(Box::new(f)), env) == !holds(objs, st, f, env),
        holds(objs, st, Formula::And(pair), env) == (holds(objs, st, f, env) && holds(objs, st, g, env)),
        holds(objs, st, Formula::Or(pair), env) == (holds(objs, st, f, env) || holds(objs, st, g, env)),
        holds(objs, st, Formula::Implies(Box::new(f), Box::new(g)), env) == (!holds(objs, st, f, env) || holds(
            objs,
            st,
            g,
            env,
        )),
        holds(objs, st, Formula::And(none), env),
        !holds(objs, st, Formula::Or(none), env),
{
    let ps = pair@;
    let rest = ps.drop_first();
    let last = rest.drop_first();
    assert(ps[0] == f);
    assert(rest[0] == g);
    assert(last.len() == 0);
    assert(holds_all(objs, st, last, env));
    assert(!holds_any(objs, st, last, env));
    assert(holds_all(objs, st, rest, env) == (holds(objs, st, g, env) && holds_all(objs, st, last, env)));
    assert(holds_any(objs, st, rest, env) == (holds(objs, st, g, env) || holds_any(objs, st, last, env)));
    assert(holds_all(objs, st, ps, env) == (holds(objs, st, f, env) && holds_all(objs, st, rest, env)));
    assert(holds_any(objs, st, ps, env) == (holds(objs, st, f, env) || holds_any(objs, st, rest, env)));
    assert(holds(objs, st, Formula::And(pair), env) == holds_all(objs, st, ps, env));
    assert(holds(objs, st, Formula::Or(pair), env) == holds_any(objs, st, ps, env));
    assert(holds(objs, st, Formula::And(none), env) == holds_all(objs, st, none@, env));
    assert(holds(objs, st, Formula::Or(none), env) == holds_any(objs, st, none@, env));
}

/// Quantifying over a type that no object has: the universal statement holds and the
/// existential statement fails, whatever the body.
pub proof fn law_empty_type_quantifiers(
    objs: Seq<Binding>,
    st: Set<AtomV>,
    bs: Vec<Binding>,
    body: Box<Formula>,
    env: Env,
)
    requires
        bs@.len() > 0,
        forall|j: int| 0 <= j < objs.len() ==> !of_type(#[trigger] objs[j], bs@[0].ty@),
    ensures
        holds(objs, st, Formula::Forall(bs, body), env),
        !holds(objs, st, Formula::Exists(bs, body), env),
{
    lemma_forall_from_vacuous(objs, st, bs@, *body, env, 0);
    assert(holds_forall(objs, st, bs@, *body, env));
    assert(!holds_exists(objs, st, bs@, *body, env));
    assert(holds(objs, st, Formula::Forall(bs, body), env) == holds_forall(objs, st, bs@, *body, env));
    assert(holds(objs, st, Formula::Exists(bs, body), env) == holds_exists(objs, st, bs@, *body, env));
}


/// Bound one binding at a time, an existential from index `k` on holds exactly when some
/// object of the bound type from `k` on, bound to the first variable, makes the rest hold.
proof fn lemma_exists_from_range(objs: Seq<Binding>, st: Set<AtomV>, bs: Seq<Binding>, g: Formula, env: Env, k: int)
    requires
        bs.len() > 0,
        0 <= k,
    ensures
        exists_from(objs, st, bs, g, env, k) <==> exists|j: int|
            k <= j < objs.len() && of_type(objs[j], bs[0].ty@) && #[trigger] holds_exists(
                objs,
                st,
                bs.drop_first(),
                g,
                env.push((bs[0].name@, objs[j].name@)),
            ),
    decreases objs.len() - k,
{
    let w = |j: int| holds_exists(objs, st, bs.drop_first(), g, env.push((bs[0].name@, objs[j].name@)));
    if k < objs.len() {
        lemma_exists_from_range(objs, st, bs, g, env, k + 1);
        if exists_from(objs, st, bs, g, env, k) {
            if of_type(objs[k], bs[0].ty@) && w(k) {
                assert(k <= k < objs.len() && of_type(objs[k], bs[0].ty@) && w(k));
            } else {
                let j = choose|j: int| k + 1 <= j < objs.len() && of_type(objs[j], bs[0].ty@) && #[trigger] holds_exists(
                    objs, st, bs.drop_first(), g, env.push((bs[0].name@, objs[j].name@)));
                assert(w(j));
            }
        }
        if exists|j: int| k <= j < objs.len() && of_type(objs[j], bs[0].ty@) && #[trigger] holds_exists(
            objs, st, bs.drop_first(), g, env.push((bs[0].name@, objs[j].name@))) {
            let j = choose|j: int| k <= j < objs.len() && of_type(objs[j], bs[0].ty@) && #[trigger] holds_exists(
                objs, st, bs.drop_first(), g, env.push((bs[0].name@, objs[j].name@)));
            if j > k {
                assert(w(j));
            }
        }
    }
}

proof fn lemma_forall_from_range(objs: Seq<Binding>, st: Set<AtomV>, bs: Seq<Binding>, g: Formula, env: Env, k: int)
    requires
        bs.len() > 0,
        0 <= k,
    ensures
        forall_from(objs, st, bs, g, env, k) <==> forall|j: int|
            k <= j < objs.len() && of_type(objs[j], bs[0].ty@) ==> #[trigger] holds_forall(
                objs,
                st,
                bs.drop_first(),
                g,
                env.push((bs[0].name@, objs[j].name@)),
            ),
    decreases objs.len() - k,
{
    if k < objs.len() {
        lemma_forall_from_range(objs, st, bs, g, env, k + 1);
        if forall_from(objs, st, bs, g, env, k) {
            assert forall|j: int| k <= j < objs.len() && of_type(objs[j], bs[0].ty@) implies #[trigger] holds_forall(
                objs, st, bs.drop_first(), g, env.push((bs[0].name@, objs[j].name@))) by {
                if j > k {
                    assert(k + 1 <= j < objs.len() && of_type(objs[j], bs[0].ty@));
                }
            }
        }
        if forall|j: int| k <= j < objs.len() && of_type(objs[j], bs[0].ty@) ==> #[trigger] holds_forall(
            objs, st, bs.drop_first(), g, env.push((bs[0].name@, objs[j].name@))) {
            assert(of_type(objs[k], bs[0].ty@) ==> holds_forall(
                objs, st, bs.drop_first(), g, env.push((bs[0].name@, objs[k].name@))));
            assert forall|j: int| k + 1 <= j < objs.len() && of_type(objs[j], bs[0].ty@) implies #[trigger] holds_forall(
                objs, st, bs.drop_first(), g, env.push((bs[0].name@, objs[j].name@))) by {
                assert(k <= j < objs.len());
            }
        }
    }
}

/// A quantifier over the type `object` ranges over every declared object, whatever its
/// declared type: `exists x: object. g` holds exactly when `g` holds with `x` bound to some
/// object, and `forall x: object. g` exactly when it holds with `x` bound to each.
pub proof fn law_object_quantifiers_range_over_all_objects(
    objs: Seq<Binding>,
    st: Set<AtomV>,
    bs: Vec<Binding>,
    body: Box<Formula>,
    env: Env,
)
    requires
        bs@.len() == 1,
        bs@[0].ty@ == "object"@,
    ensures
        holds(objs, st, Formula::Exists(bs, body), env) <==> exists|j: int|
            0 <= j < objs.len() && #[trigger] holds(objs, st, *body, env.push((bs@[0].name@, objs[j].name@))),
        holds(objs, st, Formula::Forall(bs, body), env) <==> forall|j: int|
            0 <= j < objs.len() ==> #[trigger] holds(objs, st, *body, env.push((bs@[0].name@, objs[j].name@))),
{
    let b = bs@;
    let e = Seq::<Binding>::empty();
    lemma_exists_from_range(objs, st, b, *body, env, 0);
    lemma_forall_from_range(objs, st, b, *body, env, 0);
    assert(b.drop_first() =~= e);
    assert(holds(objs, st, Formula::Exists(bs, body), env) == holds_exists(objs, st, b, *body, env));
    assert(holds_exists(objs, st, b, *body, env) == exists_from(objs, st, b, *body, env, 0));
    assert(holds(objs, st, Formula::Forall(bs, body), env) == holds_forall(objs, st, b, *body, env));
    assert(holds_forall(objs, st, b, *body, env) == forall_from(objs, st, b, *body, env, 0));
    if holds(objs, st, Formula::Exists(bs, body), env) {
        let j = choose|j: int| 0 <= j < objs.len() && of_type(objs[j], b[0].ty@) && #[trigger] holds_exists(
            objs, st, b.drop_first(), *body, env.push((b[0].name@, objs[j].name@)));
        assert(holds(objs, st, *body, env.push((bs@[0].name@, objs[j].name@))));
    }
    if exists|j: int| 0 <= j < objs.len() && #[trigger] holds(objs, st, *body, env.push((bs@[0].name@, objs[j].name@))) {
        let j = choose|j: int| 0 <= j < objs.len() && #[trigger] holds(objs, st, *body, env.push((bs@[0].name@, objs[j].name@)));
        assert(of_type(objs[j], b[0].ty@));
        assert(holds_exists(objs, st, b.drop_first(), *body, env.push((b[0].name@, objs[j].name@))));
    }
    if holds(objs, st, Formula::Forall(bs, body), env) {
        assert forall|j: int| 0 <= j < objs.len() implies #[trigger] holds(objs, st, *body, env.push((bs@[0].name@, objs[j].name@))) by {
            assert(of_type(objs[j], b[0].ty@));
            assert(holds_forall(objs, st, b.drop_first(), *body, env.push((b[0].name@, objs[j].name@))));
        }
    }
    if forall|j: int| 0 <= j < objs.len() ==> #[trigger] holds(objs, st, *body, env.push((bs@[0].name@, objs[j].name@))) {
        assert forall|j: int| 0 <= j < objs.len() && of_type(objs[j], b[0].ty@) implies #[trigger] holds_forall(
            objs, st, b.drop_first(), *body, env.push((b[0].name@, objs[j].name@))) by {
            assert(holds(objs, st, *body, env.push((bs@[0].name@, objs[j].name@))));
        }
    }
}


/// A quantifier over a declared type other than `object` ranges over exactly the objects
/// declared with that type.
pub proof fn law_typed_quantifiers_range_over_their_type(
    objs: Seq<Binding>,
    st: Set<AtomV>,
    bs: Vec<Binding>,
    body: Box<Formula>,
    env: Env,
)
    requires
        bs@.len() == 1,
        bs@[0].ty@ != "object"@,
    ensures
        holds(objs, st, Formula::Exists(bs, body), env) <==> exists|j: int|
            0 <= j < objs.len() && objs[j].ty@ == bs@[0].ty@
                && #[trigger] holds(objs, st, *body, env.push((bs@[0].name@, objs[j].name@))),
        holds(objs, st, Formula::Forall(bs, body), env) <==> forall|j: int|
            0 <= j < objs.len() && objs[j].ty@ == bs@[0].ty@
                ==> #[trigger] holds(objs, st, *body, env.push((bs@[0].name@, objs[j].name@))),
{
    let b = bs@;
    let e = Seq::<Binding>::empty();
    lemma_exists_from_range(objs, st, b, *body, env, 0);
    lemma_forall_from_range(objs, st, b, *body, env, 0);
    assert(b.drop_first() =~= e);
    assert(holds(objs, st, Formula::Exists(bs, body), env) == holds_exists(objs, st, b, *body, env));
    assert(holds_exists(objs, st, b, *body, env) == exists_from(objs, st, b, *body, env, 0));
    assert(holds(objs, st, Formula::Forall(bs, body), env) == holds_forall(objs, st, b, *body, env));
    assert(holds_forall(objs, st, b, *body, env) == forall_from(objs, st, b, *body, env, 0));
    if holds(objs, st, Formula::Exists(bs, body), env) {
        let j = choose|j: int| 0 <= j < objs.len() && of_type(objs[j], b[0].ty@) && #[trigger] holds_exists(
            objs, st, b.drop_first(), *body, env.push((b[0].name@, objs[j].name@)));
        assert(holds(objs, st, *body, env.push((bs@[0].name@, objs[j].name@))));
    }
    if exists|j: int| 0 <= j < objs.len() && objs[j].ty@ == bs@[0].ty@
        && #[trigger] holds(objs, st, *body, env.push((bs@[0].name@, objs[j].name@))) {
        let j = choose|j: int| 0 <= j < objs.len() && objs[j].ty@ == bs@[0].ty@
            && #[trigger] holds(objs, st, *body, env.push((bs@[0].name@, objs[j].name@)));
        assert(of_type(objs[j], b[0].ty@));
        assert(holds_exists(objs, st, b.drop_first(), *body, env.push((b[0].name@, objs[j].name@))));
    }
    if holds(objs, st, Formula::Forall(bs, body), env) {
        assert forall|j: int| 0 <= j < objs.len() && objs[j].ty@ == bs@[0].ty@ implies #[trigger] holds(
            objs, st, *body, env.push((bs@[0].name@, objs[j].name@))) by {
            assert(of_type(objs[j], b[0].ty@));
            assert(holds_forall(objs, st, b.drop_first(), *body, env.push((b[0].name@, objs[j].name@))));
        }
    }
    if forall|j: int| 0 <= j < objs.len() && objs[j].ty@ == bs@[0].ty@
        ==> #[trigger] holds(objs, st, *body, env.push((bs@[0].name@, objs[j].name@))) {
        assert forall|j: int| 0 <= j < objs.len() && of_type(objs[j], b[0].ty@) implies #[trigger] holds_forall(
            objs, st, b.drop_first(), *body, env.push((b[0].name@, objs[j].name@))) by {
            assert(objs[j].ty@ == bs@[0].ty@);
            assert(holds(objs, st, *body, env.push((bs@[0].name@, objs[j].name@))));
        }
    }
}

} // verus!
